//! Budget signatures: the first eight bytes of SHA-256 over the local limits
//! and their reason, as sixteen lowercase hexadecimal characters.
use sha2::{Digest, Sha256};
use vstd::prelude::*;
use vstd::string::*;
use vstd::utf8::*;

use crate::check::{
    document_message, reason_diags, register, spec_validate, tokenizer_message, walk_node,
    walk_nodes, without_code, lemma_without_concat, TokenCounter, WalkModel,
};
use crate::format::{copy_opt, push_char};
use crate::locations::{byte_len, byte_length, char_index_at_byte, Locations, MAX_SOURCE_BYTES};
use crate::model::{diag, Diagnostic, DiagnosticModel, Position};
use crate::parser::{char_range, char_range_of, eq_lit, parse, parse_from, parse_tokens, spec_parse};
use crate::text::{chars_of, push_range};
use crate::xml::{scan_xml, xml_scan, XmlToken};
use crate::model::{
    lemma_nodes_view, node_view, nodes_view, opt_str, Document, DocumentModel, Limits, LimitsModel, Node, NodeModel,
    SectionModel,
};

verus! {

/// SHA-256 of `data`.
pub uninterp spec fn sha256(data: Seq<u8>) -> Seq<u8>;

/// `Sha256::digest`: the 32-byte SHA-256 digest of `data`.
#[verifier::external_body]
fn sha256_digest(data: &[u8]) -> (r: Vec<u8>)
    ensures
        r@ == sha256(data@),
        r@.len() == 32,
{
    Sha256::digest(data).to_vec()
}

/// Eight big-endian bytes.
pub open spec fn be_u64(n: u64) -> Seq<u8> {
    seq![
        (n >> 56u64) as u8,
        (n >> 48u64) as u8,
        (n >> 40u64) as u8,
        (n >> 32u64) as u8,
        (n >> 24u64) as u8,
        (n >> 16u64) as u8,
        (n >> 8u64) as u8,
        n as u8,
    ]
}

/// Zero for an absent limit; one and the value for a present one.
pub open spec fn limit_bytes(v: Option<u64>) -> Seq<u8> {
    match v {
        None => seq![0u8],
        Some(n) => seq![1u8] + be_u64(n),
    }
}

/// ASCII `htmlp-budget-v1` and a zero byte.
pub open spec fn signature_prefix() -> Seq<u8> {
    seq![104u8, 116, 109, 108, 112, 45, 98, 117, 100, 103, 101, 116, 45, 118, 49, 0]
}

/// The canonical byte sequence that a budget signature covers.
pub open spec fn budget_bytes(l: LimitsModel) -> Seq<u8> {
    let reason = encode_utf8(
        match l.reason {
            Some(r) => r,
            None => Seq::empty(),
        },
    );
    signature_prefix() + limit_bytes(l.max_tokens) + limit_bytes(l.per_item) + be_u64(
        reason.len() as u64,
    ) + reason
}

/// Lowercase hexadecimal digit of `n < 16`.
pub open spec fn hex_digit(n: u8) -> char {
    if n < 10 {
        (48 + n) as char
    } else {
        (87 + n) as char
    }
}

/// Two lowercase hexadecimal digits per byte.
pub open spec fn hex_lower(b: Seq<u8>) -> Seq<char>
    decreases b.len(),
{
    if b.len() == 0 {
        Seq::empty()
    } else {
        hex_lower(b.drop_last()).push(hex_digit(b.last() / 16)).push(hex_digit(b.last() % 16))
    }
}

/// The signature of the local limits; none when neither limit is declared.
pub open spec fn spec_budget_signature(l: LimitsModel) -> Option<Seq<char>> {
    if !l.declares_limit() {
        None
    } else {
        Some(hex_lower(sha256(budget_bytes(l)).take(8)))
    }
}

fn push_be_u64(out: &mut Vec<u8>, n: u64)
    ensures
        final(out)@ == old(out)@ + be_u64(n),
{
    out.push((n >> 56u64) as u8);
    out.push((n >> 48u64) as u8);
    out.push((n >> 40u64) as u8);
    out.push((n >> 32u64) as u8);
    out.push((n >> 24u64) as u8);
    out.push((n >> 16u64) as u8);
    out.push((n >> 8u64) as u8);
    out.push(n as u8);
    assert(final(out)@ == old(out)@ + be_u64(n));
}

fn push_limit(out: &mut Vec<u8>, v: Option<u64>)
    ensures
        final(out)@ == old(out)@ + limit_bytes(v),
{
    match v {
        None => {
            out.push(0u8);
        },
        Some(n) => {
            out.push(1u8);
            let ghost mid = out@;
            push_be_u64(out, n);
            assert(mid + be_u64(n) == old(out)@ + (seq![1u8] + be_u64(n)));
        },
    }
}

fn hex_char(n: u8) -> (c: char)
    requires
        n < 16,
    ensures
        c == hex_digit(n),
{
    if n < 10 {
        (48u8 + n) as char
    } else {
        (87u8 + n) as char
    }
}

/// First eight bytes of SHA-256 as lowercase hex. Covers normalized local
/// limits and the decoded reason, not content, identity, or approval.
/// Returns `None` when neither limit is declared.
pub fn budget_signature(limits: &Limits) -> (r: Option<String>)
    ensures
        opt_str(r) == spec_budget_signature(limits@),
{
    if limits.max_tokens.is_none() && limits.per_item.is_none() {
        return None;
    }
    let mut bytes: Vec<u8> = Vec::new();
    let prefix: [u8; 16] = [104, 116, 109, 108, 112, 45, 98, 117, 100, 103, 101, 116, 45, 118, 49, 0];
    let mut i: usize = 0;
    while i < 16
        invariant
            i <= 16,
            prefix@ == signature_prefix(),
            bytes@ == signature_prefix().take(i as int),
        decreases 16 - i,
    {
        bytes.push(prefix[i]);
        assert(signature_prefix().take(i + 1) == signature_prefix().take(i as int).push(prefix@[i as int]));
        i = i + 1;
    }
    assert(signature_prefix().take(16) == signature_prefix());
    push_limit(&mut bytes, limits.max_tokens);
    push_limit(&mut bytes, limits.per_item);
    let reason: &str = match &limits.reason {
        Some(r) => r.as_str(),
        None => "",
    };
    proof {
        reveal_strlit("");
        assert(""@ == Seq::<char>::empty());
    }
    let rb = reason.as_bytes();
    push_be_u64(&mut bytes, rb.len() as u64);
    let ghost before = bytes@;
    let mut k: usize = 0;
    while k < rb.len()
        invariant
            k <= rb@.len(),
            bytes@ == before + rb@.take(k as int),
        decreases rb@.len() - k,
    {
        bytes.push(rb[k]);
        assert(rb@.take(k + 1) == rb@.take(k as int).push(rb@[k as int]));
        k = k + 1;
    }
    assert(rb@.take(rb@.len() as int) == rb@);
    assert(bytes@ == budget_bytes(limits@));
    let digest = sha256_digest(bytes.as_slice());
    let mut sig = String::new();
    let mut j: usize = 0;
    while j < 8
        invariant
            j <= 8,
            digest@.len() == 32,
            sig@ == hex_lower(digest@.take(j as int)),
        decreases 8 - j,
    {
        let b = digest[j];
        push_char(&mut sig, hex_char(b / 16));
        push_char(&mut sig, hex_char(b % 16));
        assert(digest@.take(j + 1).drop_last() == digest@.take(j as int));
        j = j + 1;
    }
    Some(sig)
}

/// The limits with the signature they call for.
pub open spec fn signed_limits(l: LimitsModel) -> LimitsModel {
    LimitsModel { sig: spec_budget_signature(l), ..l }
}

/// A node whose sections, at every depth, carry the signature of their limits.
pub open spec fn signed_node(n: NodeModel) -> NodeModel
    decreases n,
{
    match n {
        NodeModel::Section(s) => NodeModel::Section(
            SectionModel { limits: signed_limits(s.limits), children: signed_nodes(s.children), ..s },
        ),
        _ => n,
    }
}

pub open spec fn signed_nodes(ns: Seq<NodeModel>) -> Seq<NodeModel>
    decreases ns,
{
    if ns.len() == 0 {
        ns
    } else {
        signed_nodes(ns.drop_last()).push(signed_node(ns.last()))
    }
}

pub broadcast proof fn lemma_signed_nodes(ns: Seq<NodeModel>)
    ensures
        #[trigger] signed_nodes(ns).len() == ns.len(),
        forall|i: int| 0 <= i < ns.len() ==> #[trigger] signed_nodes(ns)[i] == signed_node(ns[i]),
    decreases ns.len(),
{
    if ns.len() > 0 {
        lemma_signed_nodes(ns.drop_last());
    }
}

/// A document whose root and sections carry the signatures of their limits.
pub open spec fn signed_document(d: DocumentModel) -> DocumentModel {
    DocumentModel { limits: signed_limits(d.limits), children: signed_nodes(d.children), ..d }
}

fn sign_node(n: &mut Node)
    ensures
        final(n)@ == signed_node(old(n)@),
    decreases *old(n),
{
    match n {
        Node::Section(s) => {
            s.limits.sig = budget_signature(&s.limits);
            sign_nodes(&mut s.children);
        },
        _ => {},
    }
}

fn sign_nodes(v: &mut Vec<Node>)
    ensures
        nodes_view(final(v)@) == signed_nodes(nodes_view(old(v)@)),
    decreases *old(v),
{
    broadcast use lemma_nodes_view, lemma_signed_nodes;

    let ghost start = v@;
    let mut i: usize = 0;
    while i < v.len()
        invariant
            start == old(v)@,
            i <= v@.len(),
            v@.len() == start.len(),
            forall|j: int| 0 <= j < i ==> #[trigger] node_view(v@[j]) == signed_node(node_view(start[j])),
            forall|j: int| i <= j < v@.len() ==> #[trigger] v@[j] == start[j],
        decreases v@.len() - i,
    {
        assert(decreases_to!(*old(v) => old(v)@[i as int]));
        sign_node(&mut v[i]);
        i = i + 1;
    }
    assert(nodes_view(v@) =~= signed_nodes(nodes_view(start)));
}

impl Document {
    /// Explicitly accept the current budgets, updating every local signature.
    /// This does not validate the document or its budgets; call [`crate::lint`]
    /// afterwards. Variables never have signatures.
    pub fn sign(&mut self)
        ensures
            final(self)@ == signed_document(old(self)@),
    {
        self.limits.sig = budget_signature(&self.limits);
        sign_nodes(&mut self.children);
    }
}

// ---------------------------------------------------------------------------
// Signing source text in place

/// The signature each element calls for, keyed by the byte offset of its
/// start tag; a section is entered before its contents.
pub open spec fn node_sigs(n: NodeModel, m: Map<int, Option<Seq<char>>>) -> Map<int, Option<Seq<char>>>
    decreases n,
{
    match n {
        NodeModel::Section(s) => nodes_sigs(
            s.children,
            m.insert(s.position.offset as int, spec_budget_signature(s.limits)),
        ),
        _ => m,
    }
}

pub open spec fn nodes_sigs(ns: Seq<NodeModel>, m: Map<int, Option<Seq<char>>>) -> Map<int, Option<Seq<char>>>
    decreases ns,
{
    if ns.len() == 0 {
        m
    } else {
        node_sigs(ns.last(), nodes_sigs(ns.drop_last(), m))
    }
}

pub open spec fn signature_map(d: DocumentModel) -> Map<int, Option<Seq<char>>> {
    nodes_sigs(d.children, Map::empty().insert(d.position.offset as int, spec_budget_signature(d.limits)))
}

/// One replacement of the source bytes `start..end` by `text`.
pub struct EditModel {
    pub start: int,
    pub end: int,
    pub text: Seq<char>,
}

/// The scan of the source tokens: the signature the current element calls
/// for (none when no element starts there), where a new attribute goes, the
/// value and whole range of its `sig` attribute, and the edits so far.
pub struct SignScan {
    pub current: Option<Option<Seq<char>>>,
    pub insertion: int,
    pub attribute: Option<(int, int, int, int)>,
    pub edits: Seq<EditModel>,
}

pub open spec fn is_sig_name(src: Seq<char>, local: std::ops::Range<usize>) -> bool {
    match char_range(src, local) {
        Some((a, b)) => src.subrange(a, b) == "sig"@,
        None => false,
    }
}

pub open spec fn sig_attribute(sig: Seq<char>) -> Seq<char> {
    " sig=\""@ + sig + "\""@
}

/// The edit an element's start tag needs once it ends: replace an outdated
/// value, add a missing signature after the last attribute, or remove the
/// signature of an element without a local limit.
pub open spec fn tag_edits(st: SignScan) -> Seq<EditModel> {
    match (st.current, st.attribute) {
        (Some(Some(sig)), Some((vs, ve, _, _))) => st.edits.push(EditModel { start: vs, end: ve, text: sig }),
        (Some(Some(sig)), None) => st.edits.push(
            EditModel { start: st.insertion, end: st.insertion, text: sig_attribute(sig) },
        ),
        (Some(None), Some((_, _, ws, we))) => st.edits.push(EditModel { start: ws, end: we, text: Seq::empty() }),
        _ => st.edits,
    }
}

pub open spec fn sign_step(
    src: Seq<char>,
    sigs: Map<int, Option<Seq<char>>>,
    st: SignScan,
    t: XmlToken,
) -> SignScan {
    match t {
        XmlToken::Start(span) => SignScan {
            current: if sigs.dom().contains(span.start as int) {
                Some(sigs[span.start as int])
            } else {
                None
            },
            insertion: span.end as int,
            attribute: None,
            edits: st.edits,
        },
        XmlToken::Attr(local, value, span) => SignScan {
            insertion: span.end as int,
            attribute: if is_sig_name(src, local) {
                Some((value.start as int, value.end as int, span.start as int, span.end as int))
            } else {
                st.attribute
            },
            ..st
        },
        XmlToken::End(_) => SignScan { attribute: None, edits: tag_edits(st), ..st },
        _ => st,
    }
}

pub open spec fn initial_scan() -> SignScan {
    SignScan { current: None, insertion: 0, attribute: None, edits: Seq::empty() }
}

pub open spec fn sign_scan(src: Seq<char>, sigs: Map<int, Option<Seq<char>>>, ts: Seq<XmlToken>) -> SignScan
    decreases ts.len(),
{
    if ts.len() == 0 {
        initial_scan()
    } else {
        sign_step(src, sigs, sign_scan(src, sigs, ts.drop_last()), ts.last())
    }
}

/// Output so far and the character index of the source where it stops.
pub struct Applied {
    pub out: Seq<char>,
    pub cursor: int,
}

/// Applies one edit at character boundaries after the cursor; any other is left out.
pub open spec fn apply_step(src: Seq<char>, st: Applied, e: EditModel) -> Applied {
    match (char_index_at_byte(src, e.start), char_index_at_byte(src, e.end)) {
        (Some(a), Some(b)) => if st.cursor <= a && a <= b {
            Applied { out: st.out + src.subrange(st.cursor, a) + e.text, cursor: b }
        } else {
            st
        },
        _ => st,
    }
}

pub open spec fn apply_all(src: Seq<char>, edits: Seq<EditModel>) -> Applied
    decreases edits.len(),
{
    if edits.len() == 0 {
        Applied { out: Seq::empty(), cursor: 0 }
    } else {
        apply_step(src, apply_all(src, edits.drop_last()), edits.last())
    }
}

/// The source with the edits applied in order, the rest copied as it is.
pub open spec fn applied_text(src: Seq<char>, edits: Seq<EditModel>) -> Seq<char> {
    let a = apply_all(src, edits);
    a.out + src.subrange(a.cursor, src.len() as int)
}

/// The source with every element's signature brought up to date, or the
/// parse error, or an error when the result exceeds 4 MiB.
pub open spec fn spec_sign_source(src: Seq<char>) -> Result<Seq<char>, DiagnosticModel> {
    spec_sign_tokens(src, xml_scan(src))
}

/// Signing the source `src` read as the tokens `ts`.
pub open spec fn spec_sign_tokens(src: Seq<char>, ts: Seq<XmlToken>) -> Result<Seq<char>, DiagnosticModel> {
    match parse_from(src, ts) {
        Err(e) => Err(e),
        Ok(d) => {
            let out = applied_text(src, sign_scan(src, signature_map(d), ts).edits);
            if byte_len(out) > MAX_SOURCE_BYTES {
                Err(diag("source-size"@, "Signed source exceeds 4 MiB"@, d.position))
            } else {
                Ok(out)
            }
        },
    }
}

pub open spec fn signed_source_view(r: Result<String, Diagnostic>) -> Result<Seq<char>, DiagnosticModel> {
    match r {
        Ok(s) => Ok(s@),
        Err(d) => Err(d@),
    }
}

/// The signature map of a list of (offset, signature) entries; a later entry wins.
pub open spec fn sig_map(s: Seq<(usize, Option<String>)>) -> Map<int, Option<Seq<char>>>
    decreases s.len(),
{
    if s.len() == 0 {
        Map::empty()
    } else {
        sig_map(s.drop_last()).insert(s.last().0 as int, opt_str(s.last().1))
    }
}

proof fn lemma_sig_map(s: Seq<(usize, Option<String>)>, k: int)
    ensures
        sig_map(s).dom().contains(k) <==> exists|i: int| 0 <= i < s.len() && s[i].0 as int == k,
        forall|i: int|
            0 <= i < s.len() && s[i].0 as int == k && (forall|j: int| i < j < s.len() ==> s[j].0 as int != k)
                ==> sig_map(s)[k] == opt_str(#[trigger] s[i].1),
    decreases s.len(),
{
    if s.len() > 0 {
        let t = s.drop_last();
        lemma_sig_map(t, k);
        if s.last().0 as int != k {
            if exists|i: int| 0 <= i < s.len() && s[i].0 as int == k {
                let i = choose|i: int| 0 <= i < s.len() && s[i].0 as int == k;
                assert(t[i].0 as int == k);
            }
            if exists|i: int| 0 <= i < t.len() && t[i].0 as int == k {
                let i = choose|i: int| 0 <= i < t.len() && t[i].0 as int == k;
                assert(s[i].0 as int == k);
            }
            assert forall|i: int|
                0 <= i < s.len() && s[i].0 as int == k && (forall|j: int| i < j < s.len() ==> s[j].0 as int != k)
                    implies sig_map(s)[k] == opt_str(#[trigger] s[i].1) by {
                assert(t[i] == s[i]);
                assert forall|j: int| i < j < t.len() implies t[j].0 as int != k by {
                    assert(t[j] == s[j]);
                }
            }
        } else {
            assert(s[s.len() - 1].0 as int == k);
        }
    }
}

/// The signature entered for start offset `k`, if any.
fn find_sig(s: &Vec<(usize, Option<String>)>, k: usize) -> (r: Option<Option<String>>)
    ensures
        match r {
            Some(v) => sig_map(s@).dom().contains(k as int) && sig_map(s@)[k as int] == opt_str(v),
            None => !sig_map(s@).dom().contains(k as int),
        },
{
    let mut i = s.len();
    while i > 0
        invariant
            i <= s@.len(),
            forall|j: int| i <= j < s@.len() ==> s@[j].0 != k,
        decreases i,
    {
        i = i - 1;
        if s[i].0 == k {
            proof {
                lemma_sig_map(s@, k as int);
            }
            return Some(copy_opt(&s[i].1));
        }
    }
    proof {
        lemma_sig_map(s@, k as int);
    }
    None
}

fn collect_sigs(nodes: &Vec<Node>, out: &mut Vec<(usize, Option<String>)>)
    ensures
        sig_map(final(out)@) == nodes_sigs(nodes_view(nodes@), sig_map(old(out)@)),
    decreases nodes,
{
    let ghost ns = nodes_view(nodes@);
    let ghost m0 = sig_map(out@);
    proof {
        lemma_nodes_view(nodes@);
    }
    let mut i: usize = 0;
    while i < nodes.len()
        invariant
            i <= nodes@.len(),
            ns == nodes_view(nodes@),
            ns.len() == nodes@.len(),
            sig_map(out@) == nodes_sigs(ns.take(i as int), m0),
        decreases nodes@.len() - i,
    {
        proof {
            lemma_nodes_view(nodes@);
            assert(ns.take(i + 1).drop_last() =~= ns.take(i as int));
            assert(ns[i as int] == node_view(nodes@[i as int]));
            let t = ns.take(i + 1);
            assert(t.len() == i + 1);
            assert(nodes_sigs(t, m0) == node_sigs(ns[i as int], nodes_sigs(ns.take(i as int), m0)));
        }
        match &nodes[i] {
            Node::Section(s) => {
                let entry = (s.position.offset, budget_signature(&s.limits));
                let ghost before = out@;
                out.push(entry);
                assert(out@.drop_last() == before);
                assert(decreases_to!(nodes => nodes@[i as int]));
                collect_sigs(&s.children, out);
            },
            _ => {},
        }
        i = i + 1;
    }
    assert(ns.take(nodes@.len() as int) == ns);
}

struct Edit {
    start: usize,
    end: usize,
    text: String,
}

impl View for Edit {
    type V = EditModel;

    closed spec fn view(&self) -> EditModel {
        EditModel { start: self.start as int, end: self.end as int, text: self.text@ }
    }
}

pub open spec fn edits_view(s: Seq<Edit>) -> Seq<EditModel> {
    s.map_values(|e: Edit| e@)
}

fn push_edit(edits: &mut Vec<Edit>, e: Edit)
    ensures
        edits_view(final(edits)@) == edits_view(old(edits)@).push(e@),
{
    edits.push(e);
    assert(edits_view(edits@) =~= edits_view(old(edits)@).push(e@));
}

/// Add or replace budget signatures without reformatting source. Existing
/// quotes, Markdown, comments, line endings, and attribute order are preserved.
/// Removes signatures from elements that no longer declare a local limit.
/// Invalid syntax or missing reasons return an error without any output.
pub fn sign_source(source: &str) -> (r: Result<String, Diagnostic>)
    ensures
        signed_source_view(r) == spec_sign_source(source@),
{
    let tokens = scan_xml(source);
    sign_tokens(source, &tokens)
}

/// Signs `source` read as the XML tokens `tokens`: parses it from them, then
/// brings every start tag's `sig` attribute up to date.
pub fn sign_tokens(source: &str, tokens: &Vec<XmlToken>) -> (r: Result<String, Diagnostic>)
    ensures
        signed_source_view(r) == spec_sign_tokens(source@, tokens@),
{
    let doc = match parse_tokens(source, tokens) {
        Ok(d) => d,
        Err(e) => return Err(e),
    };
    let ghost d = doc@;
    proof {
        reveal_strlit("sig");
    }
    let mut sigs: Vec<(usize, Option<String>)> = Vec::new();
    let root = (doc.position.offset, budget_signature(&doc.limits));
    sigs.push(root);
    proof {
        assert(sigs@.drop_last() == Seq::<(usize, Option<String>)>::empty());
    }
    proof {
        assert(sig_map(sigs@) == sig_map(sigs@.drop_last()).insert(root.0 as int, opt_str(root.1)));
        assert(sig_map(sigs@) == Map::<int, Option<Seq<char>>>::empty().insert(
            d.position.offset as int,
            spec_budget_signature(d.limits),
        ));
    }
    collect_sigs(&doc.children, &mut sigs);
    let ghost m = signature_map(d);
    assert(sig_map(sigs@) == m);
    let c = chars_of(source);
    proof {
        assert(byte_len(source@) <= MAX_SOURCE_BYTES);
    }
    let mut locs = Locations::new(&c);
    let mut current: Option<Option<String>> = None;
    let mut insertion: usize = 0;
    let mut attribute: Option<(usize, usize, usize, usize)> = None;
    let mut edits: Vec<Edit> = Vec::new();
    let ghost ts = tokens@;
    let mut i: usize = 0;
    assert(ts.take(0) =~= Seq::<XmlToken>::empty());
    assert(edits_view(edits@) =~= Seq::<EditModel>::empty());
    while i < tokens.len()
        invariant
            i <= tokens@.len(),
            ts == tokens@,
            locs.wf(),
            locs.source() == source@,
            c@ == source@,
            sig_map(sigs@) == m,
            ({
                let st = sign_scan(source@, m, ts.take(i as int));
                &&& st.current == match current {
                    Some(o) => Some(opt_str(o)),
                    None => None::<Option<Seq<char>>>,
                }
                &&& st.insertion == insertion as int
                &&& st.attribute == match attribute {
                    Some((a, b, x, y)) => Some((a as int, b as int, x as int, y as int)),
                    None => None::<(int, int, int, int)>,
                }
                &&& st.edits == edits_view(edits@)
            }),
        decreases tokens@.len() - i,
    {
        proof {
            assert(ts.take(i + 1).drop_last() =~= ts.take(i as int));
        }
        match &tokens[i] {
            XmlToken::Start(span) => {
                current = find_sig(&sigs, span.start);
                insertion = span.end;
                attribute = None;
            },
            XmlToken::Attr(local, value, span) => {
                insertion = span.end;
                let name = match char_range_of(&mut locs, &c, local) {
                    Some((a, b)) => eq_lit(&c, a, b, "sig"),
                    None => false,
                };
                if name {
                    attribute = Some((value.start, value.end, span.start, span.end));
                }
            },
            XmlToken::End(_) => {
                match (&current, attribute) {
                    (Some(Some(sig)), Some((vs, ve, _, _))) => {
                        push_edit(&mut edits, Edit { start: vs, end: ve, text: sig.clone() });
                    },
                    (Some(Some(sig)), None) => {
                        let mut text = String::from_str(" sig=\"");
                        text.append(sig.as_str());
                        text.append("\"");
                        push_edit(&mut edits, Edit { start: insertion, end: insertion, text });
                    },
                    (Some(None), Some((_, _, ws, we))) => {
                        push_edit(&mut edits, Edit { start: ws, end: we, text: String::new() });
                    },
                    _ => {},
                }
                attribute = None;
            },
            _ => {},
        }
        i = i + 1;
    }
    assert(ts.take(tokens@.len() as int) == ts);
    let ghost es = edits_view(edits@);
    let mut out = String::new();
    let mut cursor: usize = 0;
    let mut k: usize = 0;
    assert(es.take(0) =~= Seq::<EditModel>::empty());
    while k < edits.len()
        invariant
            k <= edits@.len(),
            es == edits_view(edits@),
            locs.wf(),
            locs.source() == source@,
            c@ == source@,
            cursor <= c@.len(),
            apply_all(source@, es.take(k as int)) == (Applied { out: out@, cursor: cursor as int }),
        decreases edits@.len() - k,
    {
        proof {
            assert(es.take(k + 1).drop_last() =~= es.take(k as int));
            assert(es[k as int] == edits@[k as int]@);
        }
        let a = locs.char_index(&c, edits[k].start);
        let b = locs.char_index(&c, edits[k].end);
        match (a, b) {
            (Some(a), Some(b)) => {
                if cursor <= a && a <= b {
                    push_range(&mut out, &c, cursor, a);
                    out.append(edits[k].text.as_str());
                    cursor = b;
                }
            },
            _ => {},
        }
        k = k + 1;
    }
    assert(es.take(edits@.len() as int) == es);
    push_range(&mut out, &c, cursor, c.len());
    if byte_length(out.as_str()) > MAX_SOURCE_BYTES {
        return Err(
            Diagnostic::new("source-size", String::from_str("Signed source exceeds 4 MiB"), doc.position),
        );
    }
    Ok(out)
}


// ---------------------------------------------------------------------------
// Laws

/// Normalization: the signature depends only on the two limits and the
/// reason, so attribute order, quoting, entity spelling, equivalent units and
/// any existing signature leave it unchanged.
pub proof fn law_signature_covers_only_limits_and_reason(a: LimitsModel, b: LimitsModel)
    requires
        a.max_tokens == b.max_tokens,
        a.per_item == b.per_item,
        a.reason == b.reason,
    ensures
        spec_budget_signature(a) == spec_budget_signature(b),
{
}

proof fn lemma_signed_limits_twice(l: LimitsModel)
    ensures
        signed_limits(signed_limits(l)) == signed_limits(l),
{
    assert(spec_budget_signature(signed_limits(l)) == spec_budget_signature(l));
}

proof fn lemma_signed_node_twice(n: NodeModel)
    ensures
        signed_node(signed_node(n)) == signed_node(n),
    decreases n,
{
    if let NodeModel::Section(s) = n {
        lemma_signed_limits_twice(s.limits);
        lemma_signed_nodes_twice(s.children);
    }
}

proof fn lemma_signed_nodes_twice(ns: Seq<NodeModel>)
    ensures
        signed_nodes(signed_nodes(ns)) == signed_nodes(ns),
    decreases ns,
{
    if ns.len() > 0 {
        lemma_signed_nodes_twice(ns.drop_last());
        lemma_signed_node_twice(ns.last());
        let once = signed_nodes(ns);
        assert(once.drop_last() =~= signed_nodes(ns.drop_last()));
        assert(once.last() == signed_node(ns.last()));
    }
}

/// Signing twice is signing once: a signed document already carries every
/// signature its budgets call for.
pub proof fn law_sign_is_idempotent(d: DocumentModel)
    ensures
        signed_document(signed_document(d)) == signed_document(d),
{
    lemma_signed_limits_twice(d.limits);
    lemma_signed_nodes_twice(d.children);
}

proof fn lemma_codes_differ()
    ensures
        "signature"@ != "id"@,
        "signature"@ != "depth"@,
        "signature"@ != "reason"@,
        "signature"@ != "document"@,
        "signature"@ != "tokenizer"@,
{
    reveal_strlit("signature");
    reveal_strlit("id");
    reveal_strlit("depth");
    reveal_strlit("reason");
    reveal_strlit("document");
    reveal_strlit("tokenizer");
    assert("signature"@.len() != "id"@.len());
    assert("signature"@.len() != "depth"@.len());
    assert("signature"@.len() != "reason"@.len());
    assert("signature"@.len() != "document"@.len());
    assert("signature"@[0] != "tokenizer"@[0]);
}

proof fn lemma_signed_reasons(l: LimitsModel, p: Position)
    ensures
        without_code(reason_diags(signed_limits(l), p), "signature"@),
{
    lemma_codes_differ();
    assert(spec_budget_signature(signed_limits(l)) == spec_budget_signature(l));
    let ds = reason_diags(signed_limits(l), p);
    assert forall|i: int| 0 <= i < ds.len() implies (#[trigger] ds[i]).code != "signature"@ by {
        assert(ds[i].code == "reason"@);
    }
}

proof fn lemma_walk_signed_node(n: NodeModel, st: WalkModel, depth: int)
    requires
        without_code(st.diags, "signature"@),
    ensures
        without_code(walk_node(signed_node(n), st, depth).diags, "signature"@),
    decreases n,
{
    lemma_codes_differ();
    if !st.stopped {
        match n {
            NodeModel::Section(s) => {
                if depth <= 64 {
                    let start = WalkModel {
                        diags: st.diags + reason_diags(signed_limits(s.limits), s.position),
                        ids: st.ids,
                        stopped: false,
                    };
                    lemma_signed_reasons(s.limits, s.position);
                    lemma_without_concat(st.diags, reason_diags(signed_limits(s.limits), s.position), "signature"@);
                    lemma_walk_signed_nodes(s.children, start, depth + 1);
                    let inner = walk_nodes(signed_nodes(s.children), start, depth + 1);
                    if let Some(id) = s.id {
                        let r = register(inner, id, false, s.position);
                        assert forall|i: int| 0 <= i < r.diags.len() implies (#[trigger] r.diags[i]).code != "signature"@ by {
                            if i < inner.diags.len() {
                                assert(r.diags[i] == inner.diags[i]);
                            }
                        }
                    }
                } else {
                    let r = walk_node(signed_node(n), st, depth);
                    assert forall|i: int| 0 <= i < r.diags.len() implies (#[trigger] r.diags[i]).code != "signature"@ by {
                        if i < st.diags.len() {
                            assert(r.diags[i] == st.diags[i]);
                        }
                    }
                }
            },
            NodeModel::Variable(v) => {
                let r = register(st, v.id, true, v.position);
                assert forall|i: int| 0 <= i < r.diags.len() implies (#[trigger] r.diags[i]).code != "signature"@ by {
                    if i < st.diags.len() {
                        assert(r.diags[i] == st.diags[i]);
                    }
                }
            },
            NodeModel::Text(_) => {},
        }
    }
}

proof fn lemma_walk_signed_nodes(ns: Seq<NodeModel>, st: WalkModel, depth: int)
    requires
        without_code(st.diags, "signature"@),
    ensures
        without_code(walk_nodes(signed_nodes(ns), st, depth).diags, "signature"@),
    decreases ns,
{
    if ns.len() > 0 {
        lemma_walk_signed_nodes(ns.drop_last(), st, depth);
        let once = signed_nodes(ns);
        assert(once.drop_last() =~= signed_nodes(ns.drop_last()));
        let mid = walk_nodes(signed_nodes(ns.drop_last()), st, depth);
        lemma_walk_signed_node(ns.last(), mid, depth);
    }
}

/// Accepting budgets: after `sign`, no check reports a missing or
/// mismatched signature, whatever the counter.
pub proof fn law_signed_documents_have_valid_signatures<C: TokenCounter>(d: DocumentModel, c: C)
    ensures
        without_code(spec_validate(signed_document(d), c), "signature"@),
{
    lemma_codes_differ();
    let sd = signed_document(d);
    let head = reason_diags(sd.limits, sd.position) + (if sd.version != "0.2"@ || sd.limits.max_tokens is None {
        seq![diag("document"@, document_message(), sd.position)]
    } else {
        Seq::empty()
    }) + (if sd.tokenizer != c.spec_name() {
        seq![diag("tokenizer"@, tokenizer_message(sd.tokenizer, c.spec_name()), sd.position)]
    } else {
        Seq::empty()
    });
    lemma_signed_reasons(d.limits, d.position);
    assert forall|i: int| 0 <= i < head.len() implies (#[trigger] head[i]).code != "signature"@ by {
        let r = reason_diags(sd.limits, sd.position);
        if i < r.len() {
            assert(head[i] == r[i]);
        }
    }
    lemma_walk_signed_nodes(d.children, WalkModel { diags: head, ids: Map::empty(), stopped: false }, 2);
}


/// `x` is the signature some element calls for.
pub open spec fn signature_value(sigs: Map<int, Option<Seq<char>>>, x: Seq<char>) -> bool {
    exists|k: int| sigs.dom().contains(k) && sigs[k] == Some(x)
}

/// Token `t` is a `sig` attribute whose value spans `vs..ve` and which spans
/// `ws..we` as a whole.
pub open spec fn sig_attribute_token(src: Seq<char>, t: XmlToken, vs: int, ve: int, ws: int, we: int) -> bool {
    t matches XmlToken::Attr(local, value, span) && is_sig_name(src, local) && value.start as int == vs
        && value.end as int == ve && span.start as int == ws && span.end as int == we
}

/// Token `t` is a start tag or an attribute ending at `at`.
pub open spec fn tag_part_ends_at(t: XmlToken, at: int) -> bool {
    match t {
        XmlToken::Start(span) => span.end as int == at,
        XmlToken::Attr(_, _, span) => span.end as int == at,
        _ => false,
    }
}

/// An edit that touches a signature only: it replaces the value of a `sig`
/// attribute of the source by a signature, removes a whole `sig` attribute,
/// or adds ` sig="..."` with a signature right after a tag name or attribute.
pub open spec fn sig_edit(src: Seq<char>, sigs: Map<int, Option<Seq<char>>>, ts: Seq<XmlToken>, e: EditModel) -> bool {
    ||| signature_value(sigs, e.text) && exists|i: int, ws: int, we: int|
        0 <= i < ts.len() && #[trigger] sig_attribute_token(src, ts[i], e.start, e.end, ws, we)
    ||| e.text.len() == 0 && exists|i: int, vs: int, ve: int|
        0 <= i < ts.len() && #[trigger] sig_attribute_token(src, ts[i], vs, ve, e.start, e.end)
    ||| e.start == e.end && (exists|x: Seq<char>| signature_value(sigs, x) && e.text == #[trigger] sig_attribute(x))
        && exists|i: int| 0 <= i < ts.len() && #[trigger] tag_part_ends_at(ts[i], e.start)
}

/// Some token of `ts` is a start tag or attribute ending at `at`.
pub open spec fn insertion_point(ts: Seq<XmlToken>, at: int) -> bool {
    exists|i: int| 0 <= i < ts.len() && #[trigger] tag_part_ends_at(ts[i], at)
}

/// Some token of `ts` is a `sig` attribute with these ranges.
pub open spec fn sig_attribute_in(src: Seq<char>, ts: Seq<XmlToken>, vs: int, ve: int, ws: int, we: int) -> bool {
    exists|i: int| 0 <= i < ts.len() && #[trigger] sig_attribute_token(src, ts[i], vs, ve, ws, we)
}

pub open spec fn scan_inv(src: Seq<char>, sigs: Map<int, Option<Seq<char>>>, ts: Seq<XmlToken>, st: SignScan) -> bool {
    &&& forall|j: int| 0 <= j < st.edits.len() ==> sig_edit(src, sigs, ts, #[trigger] st.edits[j])
    &&& st.attribute matches Some((vs, ve, ws, we)) ==> sig_attribute_in(src, ts, vs, ve, ws, we)
    &&& st.current is Some ==> insertion_point(ts, st.insertion)
    &&& st.current matches Some(Some(x)) ==> signature_value(sigs, x)
}

proof fn lemma_sig_edit_extend(src: Seq<char>, sigs: Map<int, Option<Seq<char>>>, ts: Seq<XmlToken>, t: XmlToken, e: EditModel)
    requires
        sig_edit(src, sigs, ts, e),
    ensures
        sig_edit(src, sigs, ts.push(t), e),
{
    let u = ts.push(t);
    if signature_value(sigs, e.text) && exists|i: int, ws: int, we: int|
        0 <= i < ts.len() && #[trigger] sig_attribute_token(src, ts[i], e.start, e.end, ws, we) {
        let (i, ws, we) = choose|i: int, ws: int, we: int|
            0 <= i < ts.len() && #[trigger] sig_attribute_token(src, ts[i], e.start, e.end, ws, we);
        assert(u[i] == ts[i]);
        assert(sig_attribute_token(src, u[i], e.start, e.end, ws, we));
    } else if e.text.len() == 0 && exists|i: int, vs: int, ve: int|
        0 <= i < ts.len() && #[trigger] sig_attribute_token(src, ts[i], vs, ve, e.start, e.end) {
        let (i, vs, ve) = choose|i: int, vs: int, ve: int|
            0 <= i < ts.len() && #[trigger] sig_attribute_token(src, ts[i], vs, ve, e.start, e.end);
        assert(u[i] == ts[i]);
        assert(sig_attribute_token(src, u[i], vs, ve, e.start, e.end));
    } else {
        let i = choose|i: int| 0 <= i < ts.len() && #[trigger] tag_part_ends_at(ts[i], e.start);
        assert(u[i] == ts[i]);
        assert(tag_part_ends_at(u[i], e.start));
    }
}

proof fn lemma_scan_step(src: Seq<char>, sigs: Map<int, Option<Seq<char>>>, ts: Seq<XmlToken>, st: SignScan, t: XmlToken)
    requires
        scan_inv(src, sigs, ts, st),
    ensures
        scan_inv(src, sigs, ts.push(t), sign_step(src, sigs, st, t)),
{
    let u = ts.push(t);
    let n = ts.len() as int;
    assert(u[n] == t);
    let r = sign_step(src, sigs, st, t);
    assert forall|j: int| 0 <= j < st.edits.len() implies sig_edit(src, sigs, u, #[trigger] st.edits[j]) by {
        lemma_sig_edit_extend(src, sigs, ts, t, st.edits[j]);
    }
    if let Some((vs, ve, ws, we)) = st.attribute {
        let i = choose|i: int| 0 <= i < ts.len() && #[trigger] sig_attribute_token(src, ts[i], vs, ve, ws, we);
        assert(u[i] == ts[i]);
        assert(sig_attribute_token(src, u[i], vs, ve, ws, we));
        assert(exists|i: int| 0 <= i < u.len() && #[trigger] sig_attribute_token(src, u[i], vs, ve, ws, we));
    }
    if st.current is Some {
        let i = choose|i: int| 0 <= i < ts.len() && #[trigger] tag_part_ends_at(ts[i], st.insertion);
        assert(u[i] == ts[i]);
        assert(tag_part_ends_at(u[i], st.insertion));
        assert(exists|i: int| 0 <= i < u.len() && #[trigger] tag_part_ends_at(u[i], st.insertion));
    }
    match t {
        XmlToken::Start(span) => {
            assert(r.insertion == span.end as int);
            assert(tag_part_ends_at(u[n], r.insertion));
            if sigs.dom().contains(span.start as int) {
                if let Some(x) = sigs[span.start as int] {
                    assert(sigs.dom().contains(span.start as int) && sigs[span.start as int] == Some(x));
                }
            }
        },
        XmlToken::Attr(local, value, span) => {
            assert(r.insertion == span.end as int);
            assert(tag_part_ends_at(u[n], r.insertion));
            if is_sig_name(src, local) {
                assert(sig_attribute_token(src, u[n], value.start as int, value.end as int, span.start as int, span.end as int));
            }
        },
        XmlToken::End(_) => {
            let es = tag_edits(st);
            assert forall|j: int| 0 <= j < es.len() implies sig_edit(src, sigs, u, #[trigger] es[j]) by {
                if j < st.edits.len() {
                    assert(es[j] == st.edits[j]);
                } else {
                    match (st.current, st.attribute) {
                        (Some(Some(x)), Some((vs, ve, ws, we))) => {
                            let i = choose|i: int| 0 <= i < u.len() && #[trigger] sig_attribute_token(src, u[i], vs, ve, ws, we);
                            assert(sig_attribute_token(src, u[i], es[j].start, es[j].end, ws, we));
                        },
                        (Some(Some(x)), None) => {
                            assert(signature_value(sigs, x) && es[j].text == sig_attribute(x));
                            let i = choose|i: int| 0 <= i < u.len() && #[trigger] tag_part_ends_at(u[i], st.insertion);
                            assert(tag_part_ends_at(u[i], es[j].start));
                        },
                        (Some(None), Some((vs, ve, ws, we))) => {
                            let i = choose|i: int| 0 <= i < u.len() && #[trigger] sig_attribute_token(src, u[i], vs, ve, ws, we);
                            assert(sig_attribute_token(src, u[i], vs, ve, es[j].start, es[j].end));
                        },
                        _ => {},
                    }
                }
            }
        },
        _ => {},
    }
}

proof fn lemma_scan(src: Seq<char>, sigs: Map<int, Option<Seq<char>>>, ts: Seq<XmlToken>)
    ensures
        scan_inv(src, sigs, ts, sign_scan(src, sigs, ts)),
    decreases ts.len(),
{
    if ts.len() > 0 {
        lemma_scan(src, sigs, ts.drop_last());
        assert(ts.drop_last().push(ts.last()) == ts);
        lemma_scan_step(src, sigs, ts.drop_last(), sign_scan(src, sigs, ts.drop_last()), ts.last());
    }
}

/// Signing source text touches signatures only: it fails exactly when the
/// source does not parse (with the parse error) or the signed text would
/// exceed 4 MiB; otherwise the signed text is the source with a list of
/// edits applied and every other character copied, where each edit replaces
/// the value of a `sig` attribute by the signature an element calls for,
/// removes a whole `sig` attribute, or adds ` sig="..."` with such a
/// signature right after a tag name or attribute.
pub proof fn law_signing_touches_signatures_only(src: Seq<char>, ts: Seq<XmlToken>)
    ensures
        parse_from(src, ts) matches Err(e) ==> spec_sign_tokens(src, ts) == Err::<Seq<char>, DiagnosticModel>(e),
        parse_from(src, ts) matches Ok(d) ==> ({
            let sigs = signature_map(d);
            let edits = sign_scan(src, sigs, ts).edits;
            let out = applied_text(src, edits);
            &&& forall|j: int| 0 <= j < edits.len() ==> sig_edit(src, sigs, ts, #[trigger] edits[j])
            &&& spec_sign_tokens(src, ts) is Err <==> byte_len(out) > MAX_SOURCE_BYTES
            &&& spec_sign_tokens(src, ts) matches Ok(t) ==> t == out
        }),
        spec_sign_source(src) == spec_sign_tokens(src, xml_scan(src)),
{
    if let Ok(d) = parse_from(src, ts) {
        lemma_scan(src, signature_map(d), ts);
    }
}

/// The reason a signature covers: its text, or nothing.
pub open spec fn covered_reason(l: LimitsModel) -> Seq<char> {
    match l.reason {
        Some(r) => r,
        None => Seq::empty(),
    }
}

proof fn lemma_be_u64_injective(x: u64, y: u64)
    requires
        be_u64(x) == be_u64(y),
    ensures
        x == y,
{
    assert(be_u64(x)[0] == be_u64(y)[0]);
    assert(be_u64(x)[1] == be_u64(y)[1]);
    assert(be_u64(x)[2] == be_u64(y)[2]);
    assert(be_u64(x)[3] == be_u64(y)[3]);
    assert(be_u64(x)[4] == be_u64(y)[4]);
    assert(be_u64(x)[5] == be_u64(y)[5]);
    assert(be_u64(x)[6] == be_u64(y)[6]);
    assert(be_u64(x)[7] == be_u64(y)[7]);
    assert(x == y) by (bit_vector)
        requires
            (x >> 56u64) as u8 == (y >> 56u64) as u8,
            (x >> 48u64) as u8 == (y >> 48u64) as u8,
            (x >> 40u64) as u8 == (y >> 40u64) as u8,
            (x >> 32u64) as u8 == (y >> 32u64) as u8,
            (x >> 24u64) as u8 == (y >> 24u64) as u8,
            (x >> 16u64) as u8 == (y >> 16u64) as u8,
            (x >> 8u64) as u8 == (y >> 8u64) as u8,
            x as u8 == y as u8,
    ;
}

/// A limit's bytes, followed by anything, give the limit and the rest back.
proof fn lemma_limit_bytes_prefix(a: Option<u64>, b: Option<u64>, ra: Seq<u8>, rb: Seq<u8>)
    requires
        limit_bytes(a) + ra == limit_bytes(b) + rb,
    ensures
        a == b,
        ra == rb,
{
    let x = limit_bytes(a) + ra;
    let y = limit_bytes(b) + rb;
    assert(x[0] == limit_bytes(a)[0]);
    assert(y[0] == limit_bytes(b)[0]);
    if let Some(n) = a {
        let m = b.unwrap();
        assert forall|k: int| 0 <= k < 8 implies be_u64(n)[k] == be_u64(m)[k] by {
            assert(x[1 + k] == limit_bytes(a)[1 + k]);
            assert(y[1 + k] == limit_bytes(b)[1 + k]);
        }
        assert(be_u64(n) =~= be_u64(m));
        lemma_be_u64_injective(n, m);
        assert(x.skip(9) =~= ra);
        assert(y.skip(9) =~= rb);
    } else {
        assert(x.skip(1) =~= ra);
        assert(y.skip(1) =~= rb);
    }
}

proof fn lemma_after_prefix(p: Seq<u8>, x: Seq<u8>, y: Seq<u8>, z: Seq<u8>, w: Seq<u8>)
    ensures
        (p + x + y + z + w).skip(p.len() as int) == x + (y + (z + w)),
{
    assert((p + x + y + z + w).skip(p.len() as int) =~= x + (y + (z + w)));
}

/// Budget signatures are taken over bytes that tell limits apart: equal
/// canonical bytes mean the same total limit, the same item limit (an absent
/// limit is never confused with any present one, zero included) and the same
/// reason text.
pub proof fn law_budget_bytes_determine_the_limits(a: LimitsModel, b: LimitsModel)
    requires
        budget_bytes(a) == budget_bytes(b),
    ensures
        a.max_tokens == b.max_tokens,
        a.per_item == b.per_item,
        covered_reason(a) == covered_reason(b),
{
    let ea = encode_utf8(covered_reason(a));
    let eb = encode_utf8(covered_reason(b));
    let p = signature_prefix();
    lemma_after_prefix(p, limit_bytes(a.max_tokens), limit_bytes(a.per_item), be_u64(ea.len() as u64), ea);
    lemma_after_prefix(p, limit_bytes(b.max_tokens), limit_bytes(b.per_item), be_u64(eb.len() as u64), eb);
    lemma_limit_bytes_prefix(a.max_tokens, b.max_tokens, limit_bytes(a.per_item) + (be_u64(ea.len() as u64) + ea), limit_bytes(b.per_item) + (be_u64(eb.len() as u64) + eb));
    lemma_limit_bytes_prefix(a.per_item, b.per_item, be_u64(ea.len() as u64) + ea, be_u64(eb.len() as u64) + eb);
    assert((be_u64(ea.len() as u64) + ea).skip(8) =~= ea);
    assert((be_u64(eb.len() as u64) + eb).skip(8) =~= eb);
    vstd::utf8::encode_utf8_decode_utf8(covered_reason(a));
    vstd::utf8::encode_utf8_decode_utf8(covered_reason(b));
}

/// The layout of the canonical bytes: after the 16-byte prefix, an absent
/// limit is the single byte 0 and a present one the byte 1 and its eight
/// big-endian bytes, total limit first; then the reason's byte length in
/// eight bytes and the reason's UTF-8 bytes.
pub proof fn law_absent_limit_is_one_zero_byte(l: LimitsModel)
    ensures
        ({
            let w1: int = if l.max_tokens is None { 1 } else { 9 };
            let w2: int = if l.per_item is None { 1 } else { 9 };
            let bs = budget_bytes(l);
            &&& bs.len() == 16 + w1 + w2 + 8 + encode_utf8(covered_reason(l)).len()
            &&& bs[16] == (if l.max_tokens is None { 0u8 } else { 1u8 })
            &&& bs[16 + w1] == (if l.per_item is None { 0u8 } else { 1u8 })
            &&& (l.max_tokens matches Some(n) ==> bs.subrange(17, 25) == be_u64(n))
            &&& (l.per_item matches Some(n) ==> bs.subrange(17 + w1, 25 + w1) == be_u64(n))
        }),
{
    let w1: int = if l.max_tokens is None { 1 } else { 9 };
    let bs = budget_bytes(l);
    let p = signature_prefix();
    let l1 = limit_bytes(l.max_tokens);
    let l2 = limit_bytes(l.per_item);
    let e = encode_utf8(covered_reason(l));
    assert(bs =~= p + l1 + l2 + be_u64(e.len() as u64) + e);
    assert(bs[16] == l1[0]);
    assert(bs[16 + w1] == l2[0]);
    if let Some(n) = l.max_tokens {
        assert(bs.subrange(17, 25) =~= be_u64(n));
    }
    if let Some(n) = l.per_item {
        assert(bs.subrange(17 + w1, 25 + w1) =~= be_u64(n));
    }
}

/// Limits are written big-endian: the first of the eight bytes is the
/// highest, the last the lowest.
pub proof fn law_limits_are_big_endian(n: u64)
    ensures
        be_u64(n).len() == 8,
        be_u64(n)[0] == n / 0x100000000000000,
        be_u64(n)[1] == (n / 0x1000000000000) % 256,
        be_u64(n)[2] == (n / 0x10000000000) % 256,
        be_u64(n)[3] == (n / 0x100000000) % 256,
        be_u64(n)[4] == (n / 0x1000000) % 256,
        be_u64(n)[5] == (n / 0x10000) % 256,
        be_u64(n)[6] == (n / 0x100) % 256,
        be_u64(n)[7] == n % 256,
{
    assert((n >> 56u64) as u8 == n / 0x100000000000000) by (bit_vector);
    assert((n >> 48u64) as u8 == (n / 0x1000000000000) % 256) by (bit_vector);
    assert((n >> 40u64) as u8 == (n / 0x10000000000) % 256) by (bit_vector);
    assert((n >> 32u64) as u8 == (n / 0x100000000) % 256) by (bit_vector);
    assert((n >> 24u64) as u8 == (n / 0x1000000) % 256) by (bit_vector);
    assert((n >> 16u64) as u8 == (n / 0x10000) % 256) by (bit_vector);
    assert((n >> 8u64) as u8 == (n / 0x100) % 256) by (bit_vector);
    assert(n as u8 == n % 256) by (bit_vector);
}

/// The canonical bytes end with the reason: its UTF-8 byte length in eight
/// big-endian bytes, then those bytes, untrimmed.
pub proof fn law_reason_closes_the_signed_bytes(l: LimitsModel)
    ensures
        ({
            let w1: int = if l.max_tokens is None { 1 } else { 9 };
            let w2: int = if l.per_item is None { 1 } else { 9 };
            let e = vstd::utf8::encode_utf8(covered_reason(l));
            let bs = budget_bytes(l);
            &&& bs.subrange(0, 16) == signature_prefix()
            &&& bs.subrange(16 + w1 + w2, 24 + w1 + w2) == be_u64(e.len() as u64)
            &&& bs.skip(24 + w1 + w2) == e
        }),
{
    let w1: int = if l.max_tokens is None { 1 } else { 9 };
    let w2: int = if l.per_item is None { 1 } else { 9 };
    let bs = budget_bytes(l);
    let p = signature_prefix();
    let l1 = limit_bytes(l.max_tokens);
    let l2 = limit_bytes(l.per_item);
    let e = vstd::utf8::encode_utf8(covered_reason(l));
    assert(bs =~= p + l1 + l2 + be_u64(e.len() as u64) + e);
    assert(bs.subrange(0, 16) =~= p);
    assert(bs.subrange(16 + w1 + w2, 24 + w1 + w2) =~= be_u64(e.len() as u64));
    assert(bs.skip(24 + w1 + w2) =~= e);
}
} // verus!
