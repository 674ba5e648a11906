//! Checking a document against an injected token counter: structural
//! validation, budget measurement of every section, and rendering with
//! string bindings.
use vstd::prelude::*;
use vstd::string::*;

use crate::assoc::{assoc_find, assoc_map, lemma_assoc_push};
use crate::format::{decimal, u64_text};
use crate::model::{
    diag, diags_view, lemma_nodes_view, lemma_take_next, measurements_view, node_view, nodes_view, opt_str,
    Bindings, Diagnostic, DiagnosticModel, Document, DocumentModel, Limits, LimitsModel,
    Measurement, MeasurementModel, Node, NodeModel, Position, Report, ReportModel, SectionModel,
};
use crate::parse_laws::{node_fits, nodes_fit};
use crate::parser::{reason_required, str_is};
use crate::signing::{budget_signature, spec_budget_signature};
use crate::text::{blank, is_blank_str, is_valid_id_str, valid_id};

verus! {

broadcast use lemma_nodes_view;

/// Inject a tokenizer to keep the parser independent of large vocabulary tables.
/// `name` must match the document's tokenizer identifier. Implementations must
/// count the supplied string as ordinary text, without interpreting special IDs.
pub trait TokenCounter {
    /// The tokenizer identifier; an implementation that gives none leaves it unknown.
    closed spec fn spec_name(&self) -> Seq<char> {
        arbitrary()
    }

    /// The number of tokens in `text`; an implementation that gives none leaves it unknown.
    closed spec fn spec_count(&self, text: Seq<char>) -> u64 {
        arbitrary()
    }

    /// Whether the counter returns on `text`; an implementation that says
    /// nothing counts every text.
    closed spec fn spec_countable(&self, text: Seq<char>) -> bool {
        true
    }

    fn name(&self) -> (r: &str)
        ensures
            r@ == self.spec_name(),
    ;

    fn count(&self, text: &str) -> (n: u64)
        requires
            self.spec_countable(text@),
        ensures
            n == self.spec_count(text@),
    ;
}

// ---------------------------------------------------------------------------
// Validation

pub open spec fn signature_message() -> Seq<char> {
    "Missing or mismatched budget signature. If you intend to do this, please rerun `htmlp sign` to regenerate the signature."@
}

/// The diagnostics that the local limits of one element raise: a signature
/// that is not the one the limits call for, and a declared limit without a
/// nonblank reason.
pub open spec fn reason_diags(l: LimitsModel, p: Position) -> Seq<DiagnosticModel> {
    (if l.sig != spec_budget_signature(l) {
        seq![diag("signature"@, signature_message(), p)]
    } else {
        Seq::empty()
    }) + (if l.declares_limit() && match l.reason {
        None => true,
        Some(r) => blank(r),
    } {
        seq![diag("reason"@, reason_required(), p)]
    } else {
        Seq::empty()
    })
}

/// The state of the ID walk: diagnostics so far, whether each ID seen was a
/// variable, and whether the current element list was abandoned.
pub struct WalkModel {
    pub diags: Seq<DiagnosticModel>,
    pub ids: Map<Seq<char>, bool>,
    pub stopped: bool,
}

pub open spec fn id_diag(id: Seq<char>, p: Position) -> DiagnosticModel {
    diag("id"@, "Invalid or duplicate ID: "@ + id, p)
}

pub open spec fn depth_diag() -> DiagnosticModel {
    diag("depth"@, "Maximum element depth is 64"@, Position::zero())
}

/// Records an ID. It is reported when it is not a valid ID, or when it was
/// seen before unless both uses are variables.
pub open spec fn register(st: WalkModel, id: Seq<char>, variable: bool, p: Position) -> WalkModel {
    let bad = !valid_id(id) || (st.ids.dom().contains(id) && !(variable && st.ids[id]));
    WalkModel {
        diags: if bad {
            st.diags.push(id_diag(id, p))
        } else {
            st.diags
        },
        ids: st.ids.insert(id, variable),
        stopped: false,
    }
}

/// One node of the walk at `depth`. A section deeper than 64 is reported once
/// and ends its element list; a section's contents are walked before its ID.
pub open spec fn walk_node(n: NodeModel, st: WalkModel, depth: int) -> WalkModel
    decreases n,
{
    if st.stopped {
        st
    } else {
        match n {
            NodeModel::Text(_) => st,
            NodeModel::Section(s) => if depth > 64 {
                WalkModel { diags: st.diags.push(depth_diag()), ids: st.ids, stopped: true }
            } else {
                let inner = walk_nodes(
                    s.children,
                    WalkModel {
                        diags: st.diags + reason_diags(s.limits, s.position),
                        ids: st.ids,
                        stopped: false,
                    },
                    depth + 1,
                );
                match s.id {
                    Some(id) => register(inner, id, false, s.position),
                    None => WalkModel { diags: inner.diags, ids: inner.ids, stopped: false },
                }
            },
            NodeModel::Variable(v) => register(st, v.id, true, v.position),
        }
    }
}

pub open spec fn walk_nodes(ns: Seq<NodeModel>, st: WalkModel, depth: int) -> WalkModel
    decreases ns,
{
    if ns.len() == 0 {
        st
    } else {
        walk_node(ns.last(), walk_nodes(ns.drop_last(), st, depth), depth)
    }
}

pub open spec fn document_message() -> Seq<char> {
    "Expected version 0.2 and a root max-tokens limit"@
}

pub open spec fn tokenizer_message(document: Seq<char>, counter: Seq<char>) -> Seq<char> {
    "Document uses "@ + document + ", counter uses "@ + counter
}

/// Every structural diagnostic of a document, in the order they are found.
pub open spec fn spec_validate<C: TokenCounter>(d: DocumentModel, c: C) -> Seq<DiagnosticModel> {
    let head = reason_diags(d.limits, d.position) + (if d.version != "0.2"@
        || d.limits.max_tokens is None {
        seq![diag("document"@, document_message(), d.position)]
    } else {
        Seq::empty()
    }) + (if d.tokenizer != c.spec_name() {
        seq![diag("tokenizer"@, tokenizer_message(d.tokenizer, c.spec_name()), d.position)]
    } else {
        Seq::empty()
    });
    walk_nodes(d.children, WalkModel { diags: head, ids: Map::empty(), stopped: false }, 2).diags
}

// ---------------------------------------------------------------------------
// Measurement

/// The content of a subtree: its text, whether it holds any text or
/// variable at all, and whether it holds a variable without a value.
pub struct FlatModel {
    pub text: Seq<char>,
    pub leaf: bool,
    pub unbound: bool,
}

pub open spec fn empty_flat() -> FlatModel {
    FlatModel { text: Seq::empty(), leaf: false, unbound: false }
}

pub open spec fn join(a: FlatModel, b: FlatModel) -> FlatModel {
    FlatModel { text: a.text + b.text, leaf: a.leaf || b.leaf, unbound: a.unbound || b.unbound }
}

/// The value of a binding, empty when there is none.
pub open spec fn bound(m: Map<Seq<char>, Seq<char>>, k: Seq<char>) -> Seq<char> {
    if m.dom().contains(k) {
        m[k]
    } else {
        Seq::empty()
    }
}

/// A node's content. Without bindings, a variable is unbound; with them, it
/// is its value, or nothing when it has none.
pub open spec fn node_flat(n: NodeModel, b: Option<Map<Seq<char>, Seq<char>>>) -> FlatModel
    decreases n,
{
    match n {
        NodeModel::Text(t) => FlatModel { text: t, leaf: true, unbound: false },
        NodeModel::Variable(v) => match b {
            None => FlatModel { text: Seq::empty(), leaf: true, unbound: true },
            Some(m) => FlatModel { text: bound(m, v.id), leaf: true, unbound: false },
        },
        NodeModel::Section(s) => nodes_flat(s.children, b),
    }
}

pub open spec fn nodes_flat(ns: Seq<NodeModel>, b: Option<Map<Seq<char>, Seq<char>>>) -> FlatModel
    decreases ns,
{
    if ns.len() == 0 {
        empty_flat()
    } else {
        join(nodes_flat(ns.drop_last(), b), node_flat(ns.last(), b))
    }
}

/// The token count of a subtree: none while a variable is unbound, zero when
/// it holds nothing, else the count of its whole text at once.
pub open spec fn flat_tokens<C: TokenCounter>(f: FlatModel, c: C) -> Option<u64> {
    if f.unbound {
        None
    } else if !f.leaf {
        Some(0)
    } else {
        Some(c.spec_count(f.text))
    }
}

/// The counter can count the content `f` wherever measuring counts it.
pub open spec fn flat_countable<C: TokenCounter>(f: FlatModel, c: C) -> bool {
    !f.unbound && f.leaf ==> c.spec_countable(f.text)
}

/// The counter can count every section's content below `n`, and `n`'s own.
pub open spec fn node_countable<C: TokenCounter>(n: NodeModel, b: Option<Map<Seq<char>, Seq<char>>>, c: C) -> bool
    decreases n,
{
    match n {
        NodeModel::Section(s) => flat_countable(nodes_flat(s.children, b), c) && nodes_countable(s.children, b, c),
        _ => true,
    }
}

pub open spec fn nodes_countable<C: TokenCounter>(ns: Seq<NodeModel>, b: Option<Map<Seq<char>, Seq<char>>>, c: C) -> bool
    decreases ns,
{
    if ns.len() == 0 {
        true
    } else {
        nodes_countable(ns.drop_last(), b, c) && node_countable(ns.last(), b, c)
    }
}

/// The counter can count every text that measuring the document with
/// bindings `b` counts: the content of every section and of the document.
pub open spec fn document_countable<C: TokenCounter>(d: DocumentModel, b: Option<Map<Seq<char>, Seq<char>>>, c: C) -> bool {
    flat_countable(nodes_flat(d.children, b), c) && nodes_countable(d.children, b, c)
}

/// The item limit a parent hands to each direct child section, with its reason.
pub open spec fn inherited_from(parent: LimitsModel) -> Option<(u64, Seq<char>)> {
    match parent.per_item {
        None => None,
        Some(cap) => Some(
            (
                cap,
                match parent.reason {
                    Some(r) => r,
                    None => Seq::empty(),
                },
            ),
        ),
    }
}

/// The limit that applies to a section: the inherited item limit where it is
/// tighter than its own, else its own, each with its reason.
pub open spec fn effective(l: LimitsModel, inherited: Option<(u64, Seq<char>)>) -> (
    Option<u64>,
    Option<Seq<char>>,
) {
    match inherited {
        Some((cap, r)) => if l.max_tokens is None || cap < l.max_tokens.unwrap() {
            (Some(cap), Some(r))
        } else {
            (l.max_tokens, l.reason)
        },
        None => (l.max_tokens, l.reason),
    }
}

pub open spec fn budget_message(
    id: Option<Seq<char>>,
    tokens: u64,
    limit: u64,
    reason: Option<Seq<char>>,
) -> Seq<char> {
    (match id {
        Some(i) => i,
        None => "document/section"@,
    }) + ": "@ + decimal(tokens as nat) + " tokens exceeds "@ + decimal(limit as nat) + " \u{2014} "@
        + (match reason {
        Some(r) => r,
        None => "inherited item limit"@,
    })
}

/// The report of one measured element: a budget diagnostic when its count
/// exceeds its limit, and its measurement.
pub open spec fn measure_report(
    tokens: Option<u64>,
    cap: Option<u64>,
    id: Option<Seq<char>>,
    p: Position,
    reason: Option<Seq<char>>,
) -> ReportModel {
    ReportModel {
        diagnostics: match (tokens, cap) {
            (Some(t), Some(l)) => if t > l {
                seq![diag("budget"@, budget_message(id, t, l, reason), p)]
            } else {
                Seq::empty()
            },
            _ => Seq::empty(),
        },
        measurements: seq![
            MeasurementModel { id, tokens, limit: cap, deferred: tokens is None, reason },
        ],
    }
}

pub open spec fn binding_diag(id: Seq<char>, p: Position) -> DiagnosticModel {
    diag("binding"@, "Missing string binding: "@ + id, p)
}

/// The report of one node under a parent with limits `parent`: a missing
/// binding, or everything a section measures, its own measurement last.
pub open spec fn node_report<C: TokenCounter>(
    n: NodeModel,
    parent: LimitsModel,
    b: Option<Map<Seq<char>, Seq<char>>>,
    c: C,
) -> ReportModel
    decreases n,
{
    match n {
        NodeModel::Text(_) => ReportModel::empty(),
        NodeModel::Variable(v) => match b {
            Some(m) => if m.dom().contains(v.id) {
                ReportModel::empty()
            } else {
                ReportModel { diagnostics: seq![binding_diag(v.id, v.position)], measurements: Seq::empty() }
            },
            None => ReportModel::empty(),
        },
        NodeModel::Section(s) => {
            let (cap, reason) = effective(s.limits, inherited_from(parent));
            nodes_report(s.children, s.limits, b, c).followed_by(
                measure_report(flat_tokens(nodes_flat(s.children, b), c), cap, s.id, s.position, reason),
            )
        },
    }
}

pub open spec fn nodes_report<C: TokenCounter>(
    ns: Seq<NodeModel>,
    parent: LimitsModel,
    b: Option<Map<Seq<char>, Seq<char>>>,
    c: C,
) -> ReportModel
    decreases ns,
{
    if ns.len() == 0 {
        ReportModel::empty()
    } else {
        nodes_report(ns.drop_last(), parent, b, c).followed_by(node_report(ns.last(), parent, b, c))
    }
}

/// The report of a whole document: every section, then the document itself.
pub open spec fn document_report<C: TokenCounter>(
    d: DocumentModel,
    b: Option<Map<Seq<char>, Seq<char>>>,
    c: C,
) -> ReportModel {
    nodes_report(d.children, d.limits, b, c).followed_by(
        measure_report(
            flat_tokens(nodes_flat(d.children, b), c),
            d.limits.max_tokens,
            None,
            d.position,
            d.limits.reason,
        ),
    )
}

/// The lint report: the structural diagnostics when there are any, else the
/// measurements of the unbound document.
pub open spec fn spec_lint<C: TokenCounter>(d: DocumentModel, c: C) -> ReportModel {
    let v = spec_validate(d, c);
    if v.len() > 0 {
        ReportModel { diagnostics: v, measurements: Seq::empty() }
    } else {
        document_report(d, None, c)
    }
}

/// Rendering: the lint diagnostics, else the diagnostics of the bound
/// document, else its text and report.
pub open spec fn spec_render_report<C: TokenCounter>(
    d: DocumentModel,
    b: Map<Seq<char>, Seq<char>>,
    c: C,
) -> Result<(Seq<char>, ReportModel), Seq<DiagnosticModel>> {
    let l = spec_lint(d, c);
    if l.diagnostics.len() > 0 {
        Err(l.diagnostics)
    } else {
        let r = document_report(d, Some(b), c);
        if r.diagnostics.len() > 0 {
            Err(r.diagnostics)
        } else {
            Ok((nodes_flat(d.children, Some(b)).text, r))
        }
    }
}

pub open spec fn spec_render<C: TokenCounter>(
    d: DocumentModel,
    b: Map<Seq<char>, Seq<char>>,
    c: C,
) -> Result<Seq<char>, Seq<DiagnosticModel>> {
    match spec_render_report(d, b, c) {
        Ok((t, _)) => Ok(t),
        Err(e) => Err(e),
    }
}

pub open spec fn bindings_view(b: Option<&Bindings>) -> Option<Map<Seq<char>, Seq<char>>> {
    match b {
        Some(m) => Some(m@),
        None => None,
    }
}

// ---------------------------------------------------------------------------
// Executable checks

fn opt_eq(a: &Option<String>, b: &Option<String>) -> (r: bool)
    ensures
        r == (opt_str(*a) == opt_str(*b)),
{
    match (a, b) {
        (Some(x), Some(y)) => str_is(x.as_str(), y.as_str()),
        (None, None) => true,
        _ => false,
    }
}

fn push_diag(errors: &mut Vec<Diagnostic>, d: Diagnostic)
    ensures
        diags_view(final(errors)@) == diags_view(old(errors)@).push(d@),
{
    errors.push(d);
    assert(diags_view(errors@) =~= diags_view(old(errors)@).push(d@));
}


fn require_reason(limits: &Limits, position: Position, errors: &mut Vec<Diagnostic>)
    ensures
        diags_view(final(errors)@) == diags_view(old(errors)@) + reason_diags(limits@, position),
{
    let sig = budget_signature(limits);
    let ghost start = diags_view(errors@);
    if !opt_eq(&limits.sig, &sig) {
        push_diag(
            errors,
            Diagnostic::new(
                "signature",
                String::from_str(
                    "Missing or mismatched budget signature. If you intend to do this, please rerun `htmlp sign` to regenerate the signature.",
                ),
                position,
            ),
        );
    }
    let missing = match &limits.reason {
        None => true,
        Some(r) => is_blank_str(r.as_str()),
    };
    if (limits.max_tokens.is_some() || limits.per_item.is_some()) && missing {
        push_diag(
            errors,
            Diagnostic::new(
                "reason",
                String::from_str("Every declared token limit requires a nonblank reason"),
                position,
            ),
        );
    }
    assert(diags_view(errors@) =~= start + reason_diags(limits@, position));
}

fn register_id(
    ids: &mut Vec<(String, bool)>,
    errors: &mut Vec<Diagnostic>,
    id: &String,
    variable: bool,
    p: Position,
)
    ensures
        ({
            let st = register(
                WalkModel { diags: diags_view(old(errors)@), ids: assoc_map(old(ids)@), stopped: false },
                id@,
                variable,
                p,
            );
            diags_view(final(errors)@) == st.diags && assoc_map(final(ids)@) == st.ids
        }),
{
    let repeated = match assoc_find(ids, id.as_str()) {
        Some(i) => !(variable && ids[i].1),
        None => false,
    };
    let valid = is_valid_id_str(id.as_str());
    let entry = (id.clone(), variable);
    proof {
        lemma_assoc_push(ids@, entry);
    }
    ids.push(entry);
    if !valid || repeated {
        let mut message = String::from_str("Invalid or duplicate ID: ");
        message.append(id.as_str());
        push_diag(errors, Diagnostic::new("id", message, p));
    }
}

proof fn lemma_walk_stopped(ns: Seq<NodeModel>, st: WalkModel, depth: int, k: int)
    requires
        0 <= k <= ns.len(),
        walk_nodes(ns.take(k), st, depth).stopped,
    ensures
        walk_nodes(ns, st, depth) == walk_nodes(ns.take(k), st, depth),
    decreases ns.len() - k,
{
    if k < ns.len() {
        lemma_take_next(ns, k);
        let t = ns.take(k + 1);
        assert(t.len() == k + 1);
        assert(walk_nodes(t, st, depth) == walk_node(t.last(), walk_nodes(t.drop_last(), st, depth), depth));
        assert(walk_nodes(t, st, depth) == walk_nodes(ns.take(k), st, depth));
        lemma_walk_stopped(ns, st, depth, k + 1);
    } else {
        assert(ns.take(k) == ns);
    }
}

/// Walks the IDs of `nodes` at `depth`.
fn walk(nodes: &Vec<Node>, ids: &mut Vec<(String, bool)>, depth: usize, errors: &mut Vec<Diagnostic>)
    requires
        depth <= 65,
    ensures
        ({
            let st = walk_nodes(
                nodes_view(nodes@),
                WalkModel { diags: diags_view(old(errors)@), ids: assoc_map(old(ids)@), stopped: false },
                depth as int,
            );
            diags_view(final(errors)@) == st.diags && assoc_map(final(ids)@) == st.ids
        }),
    decreases nodes,
{
    let ghost init = WalkModel {
        diags: diags_view(errors@),
        ids: assoc_map(ids@),
        stopped: false,
    };
    let ghost ns = nodes_view(nodes@);
    let mut i: usize = 0;
    while i < nodes.len()
        invariant
            i <= nodes@.len(),
            depth <= 65,
            ns == nodes_view(nodes@),
            ns.len() == nodes@.len(),
            init == (WalkModel {
                diags: diags_view(old(errors)@),
                ids: assoc_map(old(ids)@),
                stopped: false,
            }),
            ({
                let st = walk_nodes(ns.take(i as int), init, depth as int);
                !st.stopped && diags_view(errors@) == st.diags && assoc_map(ids@) == st.ids
            }),
        decreases nodes@.len() - i,
    {
        proof {
            lemma_take_next(ns, i as int);
            let t = ns.take(i + 1);
            assert(t.len() == i + 1);
            assert(walk_nodes(t, init, depth as int) == walk_node(
                t.last(),
                walk_nodes(t.drop_last(), init, depth as int),
                depth as int,
            ));
            assert(ns[i as int] == node_view(nodes@[i as int]));
        }
        let ghost prev = walk_nodes(ns.take(i as int), init, depth as int);
        match &nodes[i] {
            Node::Text { .. } => {},
            Node::Section(s) => {
                if depth > 64 {
                    push_diag(
                        errors,
                        Diagnostic::new(
                            "depth",
                            String::from_str("Maximum element depth is 64"),
                            Position::unknown(),
                        ),
                    );
                    proof {
                        let stop = walk_nodes(ns.take(i + 1), init, depth as int);
                        assert(stop == WalkModel { diags: prev.diags.push(depth_diag()), ids: prev.ids, stopped: true });
                        assert(stop.stopped);
                        lemma_walk_stopped(ns, init, depth as int, i + 1);
                        assert(diags_view(errors@) == stop.diags);
                        assert(assoc_map(ids@) == stop.ids);
                    }
                    return;
                }
                require_reason(&s.limits, s.position, errors);
                assert(decreases_to!(nodes => nodes@[i as int]));
                walk(&s.children, ids, depth + 1, errors);
                match &s.id {
                    Some(id) => register_id(ids, errors, id, false, s.position),
                    None => {},
                }
            },
            Node::Variable(v) => register_id(ids, errors, &v.id, true, v.position),
        }
        i = i + 1;
    }
    proof {
        assert(ns.take(nodes@.len() as int) == ns);
    }
}

pub(crate) fn validate<C: TokenCounter>(doc: &Document, counter: &C) -> (r: Vec<Diagnostic>)
    ensures
        diags_view(r@) == spec_validate(doc@, *counter),
{
    let mut errors: Vec<Diagnostic> = Vec::new();
    assert(diags_view(errors@) =~= Seq::<DiagnosticModel>::empty());
    require_reason(&doc.limits, doc.position, &mut errors);
    let ghost first = diags_view(errors@);
    if !str_is(doc.version.as_str(), "0.2") || doc.limits.max_tokens.is_none() {
        push_diag(
            &mut errors,
            Diagnostic::new(
                "document",
                String::from_str("Expected version 0.2 and a root max-tokens limit"),
                doc.position,
            ),
        );
    }
    let ghost second = diags_view(errors@);
    let name = counter.name();
    if !str_is(doc.tokenizer.as_str(), name) {
        let mut message = String::from_str("Document uses ");
        message.append(doc.tokenizer.as_str());
        message.append(", counter uses ");
        message.append(name);
        push_diag(&mut errors, Diagnostic::new("tokenizer", message, doc.position));
    }
    let ghost d = doc@;
    let ghost head = reason_diags(d.limits, d.position) + (if d.version != "0.2"@
        || d.limits.max_tokens is None {
        seq![diag("document"@, document_message(), d.position)]
    } else {
        Seq::empty()
    }) + (if d.tokenizer != counter.spec_name() {
        seq![diag("tokenizer"@, tokenizer_message(d.tokenizer, counter.spec_name()), d.position)]
    } else {
        Seq::empty()
    });
    assert(diags_view(errors@) =~= head);
    let mut ids: Vec<(String, bool)> = Vec::new();
    assert(assoc_map(ids@) == Map::<Seq<char>, bool>::empty());
    walk(&doc.children, &mut ids, 2, &mut errors);
    errors
}

/// The content of a subtree as it is measured.
struct Flat {
    text: String,
    leaf: bool,
    unbound: bool,
}

impl View for Flat {
    type V = FlatModel;

    closed spec fn view(&self) -> FlatModel {
        FlatModel { text: self.text@, leaf: self.leaf, unbound: self.unbound }
    }
}

proof fn lemma_followed_by(a: ReportModel, b: ReportModel, c: ReportModel)
    ensures
        a.followed_by(b).followed_by(c) == a.followed_by(b.followed_by(c)),
        a.followed_by(ReportModel::empty()) == a,
{
    assert(a.followed_by(b).followed_by(c).diagnostics =~= a.followed_by(b.followed_by(c)).diagnostics);
    assert(a.followed_by(b).followed_by(c).measurements =~= a.followed_by(
        b.followed_by(c),
    ).measurements);
    assert(a.followed_by(ReportModel::empty()).diagnostics =~= a.diagnostics);
    assert(a.followed_by(ReportModel::empty()).measurements =~= a.measurements);
}

fn report_diag(report: &mut Report, d: Diagnostic)
    ensures
        final(report)@ == old(report)@.followed_by(
            ReportModel { diagnostics: seq![d@], measurements: Seq::empty() },
        ),
{
    let ghost r0 = report@;
    report.diagnostics.push(d);
    assert(report@.diagnostics =~= r0.diagnostics + seq![d@]);
    assert(report@.measurements =~= r0.measurements + Seq::<MeasurementModel>::empty());
}

fn budget_text(id: &Option<String>, tokens: u64, limit: u64, reason: &Option<String>) -> (s: String)
    ensures
        s@ == budget_message(opt_str(*id), tokens, limit, opt_str(*reason)),
{
    let mut s = match id {
        Some(i) => i.clone(),
        None => String::from_str("document/section"),
    };
    s.append(": ");
    let t = u64_text(tokens);
    s.append(t.as_str());
    s.append(" tokens exceeds ");
    let l = u64_text(limit);
    s.append(l.as_str());
    s.append(" \u{2014} ");
    match reason {
        Some(r) => s.append(r.as_str()),
        None => s.append("inherited item limit"),
    }
    s
}

fn measure<C: TokenCounter>(
    report: &mut Report,
    counter: &C,
    f: &Flat,
    cap: Option<u64>,
    id: &Option<String>,
    position: Position,
    reason: &Option<String>,
)
    requires
        flat_countable(f@, *counter),
    ensures
        final(report)@ == old(report)@.followed_by(
            measure_report(flat_tokens(f@, *counter), cap, opt_str(*id), position, opt_str(*reason)),
        ),
{
    let ghost r0 = report@;
    let tokens = if f.unbound {
        None
    } else if !f.leaf {
        Some(0u64)
    } else {
        Some(counter.count(f.text.as_str()))
    };
    let ghost mr = measure_report(tokens, cap, opt_str(*id), position, opt_str(*reason));
    match (tokens, cap) {
        (Some(t), Some(l)) => {
            if t > l {
                report_diag(report, Diagnostic::new("budget", budget_text(id, t, l, reason), position));
            }
        },
        _ => {},
    }
    let ghost r1 = report@;
    assert(r1.diagnostics =~= r0.diagnostics + mr.diagnostics);
    report.measurements.push(
        Measurement {
            id: crate::format::copy_opt(id),
            tokens,
            limit: cap,
            deferred: tokens.is_none(),
            reason: crate::format::copy_opt(reason),
        },
    );
    assert(report@.measurements =~= r0.measurements + mr.measurements);
    assert(report@.diagnostics =~= r0.diagnostics + mr.diagnostics);
}

fn join_flat(into: &mut Flat, from: Flat)
    ensures
        final(into)@ == join(old(into)@, from@),
{
    into.text.append(from.text.as_str());
    into.leaf = into.leaf || from.leaf;
    into.unbound = into.unbound || from.unbound;
}

/// Measures every section below `nodes`, whose parent has `limits`, and
/// returns their content.
fn content<C: TokenCounter>(
    report: &mut Report,
    counter: &C,
    bindings: Option<&Bindings>,
    nodes: &Vec<Node>,
    limits: &Limits,
) -> (f: Flat)
    requires
        nodes_countable(nodes_view(nodes@), bindings_view(bindings), *counter),
    ensures
        f@ == nodes_flat(nodes_view(nodes@), bindings_view(bindings)),
        final(report)@ == old(report)@.followed_by(
            nodes_report(nodes_view(nodes@), limits@, bindings_view(bindings), *counter),
        ),
    decreases nodes,
{
    let ghost b = bindings_view(bindings);
    let ghost ns = nodes_view(nodes@);
    let ghost r0 = report@;
    let mut flat = Flat { text: String::new(), leaf: false, unbound: false };
    proof {
        lemma_followed_by(r0, ReportModel::empty(), ReportModel::empty());
        assert(ns.take(0) =~= Seq::<NodeModel>::empty());
    }
    let mut i: usize = 0;
    while i < nodes.len()
        invariant
            i <= nodes@.len(),
            ns == nodes_view(nodes@),
            ns.len() == nodes@.len(),
            b == bindings_view(bindings),
            nodes_countable(ns, b, *counter),
            flat@ == nodes_flat(ns.take(i as int), b),
            report@ == r0.followed_by(nodes_report(ns.take(i as int), limits@, b, *counter)),
        decreases nodes@.len() - i,
    {
        proof {
            lemma_take_next(ns, i as int);
            let t = ns.take(i + 1);
            assert(t.len() == i + 1);
            assert(nodes_flat(t, b) == join(nodes_flat(t.drop_last(), b), node_flat(t.last(), b)));
            assert(nodes_report(t, limits@, b, *counter) == nodes_report(t.drop_last(), limits@, b, *counter).followed_by(node_report(t.last(), limits@, b, *counter)));
            assert(ns[i as int] == node_view(nodes@[i as int]));
        }
        proof {
            lemma_countable_at(ns, b, *counter, i as int);
        }
        let ghost before = report@;
        let ghost acc = nodes_report(ns.take(i as int), limits@, b, *counter);
        let ghost flat0 = flat@;
        match &nodes[i] {
            Node::Text { value } => {
                flat.text.append(value.as_str());
                flat.leaf = true;
                assert(flat@ == join(flat0, node_flat(ns[i as int], b)));
                assert(report@ == before.followed_by(ReportModel::empty()));
            },
            Node::Variable(v) => {
                flat.leaf = true;
                match bindings {
                    None => {
                        flat.unbound = true;
                        assert(flat@.text =~= flat0.text + Seq::<char>::empty());
                    },
                    Some(m) => match m.get(v.id.as_str()) {
                        Some(value) => {
                            flat.text.append(value.as_str());
                        },
                        None => {
                            let mut message = String::from_str("Missing string binding: ");
                            message.append(v.id.as_str());
                            report_diag(report, Diagnostic::new("binding", message, v.position));
                            assert(flat@.text =~= flat0.text + Seq::<char>::empty());
                        },
                    },
                }
                assert(flat@ == join(flat0, node_flat(ns[i as int], b)));
                proof {
                    lemma_followed_by(before, ReportModel::empty(), ReportModel::empty());
                }
            },
            Node::Section(s) => {
                let inherited: Option<(u64, String)> = match limits.per_item {
                    Some(cap) => Some(
                        (
                            cap,
                            match &limits.reason {
                                Some(r) => r.clone(),
                                None => String::new(),
                            },
                        ),
                    ),
                    None => None,
                };
                let (cap, reason) = match inherited {
                    Some((cap, r)) => {
                        if s.limits.max_tokens.is_none() || cap < s.limits.max_tokens.unwrap() {
                            (Some(cap), Some(r))
                        } else {
                            (s.limits.max_tokens, crate::format::copy_opt(&s.limits.reason))
                        }
                    },
                    None => (s.limits.max_tokens, crate::format::copy_opt(&s.limits.reason)),
                };
                assert((cap, opt_str(reason)) == effective(s.limits@, inherited_from(limits@)));
                assert(decreases_to!(nodes => nodes@[i as int]));
                let child = content(report, counter, bindings, &s.children, &s.limits);
                let ghost mid = report@;
                measure(report, counter, &child, cap, &s.id, s.position, &reason);
                join_flat(&mut flat, child);
                proof {
                    let sm = s@;
                    lemma_followed_by(
                        before,
                        nodes_report(sm.children, sm.limits, b, *counter),
                        measure_report(
                            flat_tokens(nodes_flat(sm.children, b), *counter),
                            cap,
                            sm.id,
                            sm.position,
                            opt_str(reason),
                        ),
                    );
                    assert(node_view(nodes@[i as int]) == NodeModel::Section(sm));
                }
            },
        }
        proof {
            lemma_followed_by(r0, acc, node_report(ns[i as int], limits@, b, *counter));
        }
        i = i + 1;
    }
    proof {
        assert(ns.take(nodes@.len() as int) == ns);
    }
    flat
}

/// Measures a whole document.
fn analyze<C: TokenCounter>(report: &mut Report, counter: &C, bindings: Option<&Bindings>, doc: &Document) -> (f: Flat)
    requires
        document_countable(doc@, bindings_view(bindings), *counter),
    ensures
        f@ == nodes_flat(doc@.children, bindings_view(bindings)),
        final(report)@ == old(report)@.followed_by(document_report(doc@, bindings_view(bindings), *counter)),
{
    let ghost r0 = report@;
    let flat = content(report, counter, bindings, &doc.children, &doc.limits);
    let ghost mid = report@;
    let none: Option<String> = None;
    measure(report, counter, &flat, doc.limits.max_tokens, &none, doc.position, &doc.limits.reason);
    proof {
        let d = doc@;
        let b = bindings_view(bindings);
        lemma_followed_by(
            r0,
            nodes_report(d.children, d.limits, b, *counter),
            measure_report(flat_tokens(nodes_flat(d.children, b), *counter), d.limits.max_tokens, None, d.position, d.limits.reason),
        );
    }
    flat
}

/// Check fully static subtrees exactly. Subtrees containing variables are
/// reported as deferred, with no guessed count. Render to check their budgets.
pub fn lint<C: TokenCounter>(doc: &Document, counter: &C) -> (r: Report)
    requires
        spec_validate(doc@, *counter).len() == 0 ==> document_countable(doc@, None, *counter),
    ensures
        r@ == spec_lint(doc@, *counter),
{
    let diagnostics = validate(doc, counter);
    if diagnostics.len() > 0 {
        let r = Report { diagnostics, measurements: Vec::new() };
        assert(r@.measurements =~= Seq::<MeasurementModel>::empty());
        return r;
    }
    let mut report = Report::default();
    let _ = analyze(&mut report, counter, None, doc);
    proof {
        lemma_followed_by(ReportModel::empty(), document_report(doc@, None, *counter), ReportModel::empty());
        let e = ReportModel::empty().followed_by(document_report(doc@, None, *counter));
        assert(e.diagnostics =~= document_report(doc@, None, *counter).diagnostics);
        assert(e.measurements =~= document_report(doc@, None, *counter).measurements);
    }
    report
}

/// The counter can count every text that rendering counts: the unbound
/// document once it validates, and the bound one once lint is clean.
pub open spec fn render_countable<C: TokenCounter>(d: DocumentModel, b: Map<Seq<char>, Seq<char>>, c: C) -> bool {
    &&& spec_validate(d, c).len() == 0 ==> document_countable(d, None, c)
    &&& spec_lint(d, c).diagnostics.len() == 0 ==> document_countable(d, Some(b), c)
}

proof fn lemma_countable_at<C: TokenCounter>(ns: Seq<NodeModel>, b: Option<Map<Seq<char>, Seq<char>>>, c: C, i: int)
    requires
        nodes_countable(ns, b, c),
        0 <= i < ns.len(),
    ensures
        node_countable(ns[i], b, c),
    decreases ns.len(),
{
    if i < ns.len() - 1 {
        assert(ns.drop_last()[i] == ns[i]);
        lemma_countable_at(ns.drop_last(), b, c, i);
    }
}

pub open spec fn rendered_view(r: Result<(String, Report), Vec<Diagnostic>>) -> Result<(Seq<char>, ReportModel), Seq<DiagnosticModel>> {
    match r {
        Ok((t, rep)) => Ok((t@, rep@)),
        Err(e) => Err(diags_view(e@)),
    }
}

/// Renders with bindings and returns the text with its report.
pub(crate) fn render_with_report<C: TokenCounter>(
    doc: &Document,
    bindings: &Bindings,
    counter: &C,
) -> (r: Result<(String, Report), Vec<Diagnostic>>)
    requires
        render_countable(doc@, bindings@, *counter),
    ensures
        rendered_view(r) == spec_render_report(doc@, bindings@, *counter),
{
    let checked = lint(doc, counter);
    if !checked.is_ok() {
        return Err(checked.diagnostics);
    }
    let mut report = Report::default();
    let flat = analyze(&mut report, counter, Some(bindings), doc);
    proof {
        let e = ReportModel::empty().followed_by(document_report(doc@, Some(bindings@), *counter));
        assert(e.diagnostics =~= document_report(doc@, Some(bindings@), *counter).diagnostics);
        assert(e.measurements =~= document_report(doc@, Some(bindings@), *counter).measurements);
    }
    if !report.is_ok() {
        return Err(report.diagnostics);
    }
    Ok((flat.text, report))
}

pub open spec fn render_view(r: Result<String, Vec<Diagnostic>>) -> Result<Seq<char>, Seq<DiagnosticModel>> {
    match r {
        Ok(t) => Ok(t@),
        Err(e) => Err(diags_view(e@)),
    }
}

/// Validate static content, substitute inert strings, then check every final
/// file and section budget. Variables have no separate limit. No output is
/// returned on any error.
pub fn render<C: TokenCounter>(doc: &Document, bindings: &Bindings, counter: &C) -> (r: Result<
    String,
    Vec<Diagnostic>,
>)
    requires
        render_countable(doc@, bindings@, *counter),
    ensures
        render_view(r) == spec_render(doc@, bindings@, *counter),
{
    match render_with_report(doc, bindings, counter) {
        Ok((text, _)) => Ok(text),
        Err(e) => Err(e),
    }
}

// ---------------------------------------------------------------------------
// Laws

/// Every measurement is counted and within its limit.
pub open spec fn within_limits(ms: Seq<MeasurementModel>) -> bool {
    forall|i: int|
        0 <= i < ms.len() ==> match (#[trigger] ms[i]).tokens {
            Some(t) => match ms[i].limit {
                Some(l) => t <= l,
                None => true,
            },
            None => false,
        }
}

/// Every measurement is deferred exactly when its count is unknown.
pub open spec fn deferred_when_unknown(ms: Seq<MeasurementModel>) -> bool {
    forall|i: int| 0 <= i < ms.len() ==> (#[trigger] ms[i]).deferred == (ms[i].tokens is None)
}

pub(crate) proof fn lemma_bound_content(ns: Seq<NodeModel>, m: Map<Seq<char>, Seq<char>>)
    ensures
        !nodes_flat(ns, Some(m)).unbound,
    decreases ns,
{
    if ns.len() > 0 {
        lemma_bound_content(ns.drop_last(), m);
        lemma_bound_node(ns.last(), m);
    }
}

proof fn lemma_bound_node(n: NodeModel, m: Map<Seq<char>, Seq<char>>)
    ensures
        !node_flat(n, Some(m)).unbound,
    decreases n,
{
    if let NodeModel::Section(s) = n {
        lemma_bound_content(s.children, m);
    }
}

proof fn lemma_measure_report(
    tokens: Option<u64>,
    cap: Option<u64>,
    id: Option<Seq<char>>,
    p: Position,
    reason: Option<Seq<char>>,
)
    ensures
        deferred_when_unknown(measure_report(tokens, cap, id, p, reason).measurements),
        measure_report(tokens, cap, id, p, reason).diagnostics.len() == 0 && tokens is Some ==> within_limits(
            measure_report(tokens, cap, id, p, reason).measurements,
        ),
{
}

proof fn lemma_followed_by_laws(a: ReportModel, b: ReportModel)
    requires
        deferred_when_unknown(a.measurements),
        deferred_when_unknown(b.measurements),
    ensures
        deferred_when_unknown(a.followed_by(b).measurements),
        a.diagnostics.len() == 0 && b.diagnostics.len() == 0 ==> a.followed_by(b).diagnostics.len() == 0,
        a.followed_by(b).diagnostics.len() == 0 ==> a.diagnostics.len() == 0 && b.diagnostics.len() == 0,
        within_limits(a.measurements) && within_limits(b.measurements) ==> within_limits(
            a.followed_by(b).measurements,
        ),
{
    let ms = a.followed_by(b).measurements;
    assert forall|i: int| 0 <= i < ms.len() implies (#[trigger] ms[i]).deferred == (ms[i].tokens is None) by {
        if i < a.measurements.len() {
            assert(ms[i] == a.measurements[i]);
        } else {
            assert(ms[i] == b.measurements[i - a.measurements.len()]);
        }
    }
    if within_limits(a.measurements) && within_limits(b.measurements) {
        assert forall|i: int| 0 <= i < ms.len() implies match (#[trigger] ms[i]).tokens {
            Some(t) => match ms[i].limit {
                Some(l) => t <= l,
                None => true,
            },
            None => false,
        } by {
            if i < a.measurements.len() {
                assert(ms[i] == a.measurements[i]);
            } else {
                assert(ms[i] == b.measurements[i - a.measurements.len()]);
            }
        }
    }
}

proof fn lemma_nodes_report_laws<C: TokenCounter>(
    ns: Seq<NodeModel>,
    parent: LimitsModel,
    b: Option<Map<Seq<char>, Seq<char>>>,
    c: C,
)
    ensures
        deferred_when_unknown(nodes_report(ns, parent, b, c).measurements),
        b is Some && nodes_report(ns, parent, b, c).diagnostics.len() == 0 ==> within_limits(
            nodes_report(ns, parent, b, c).measurements,
        ),
    decreases ns,
{
    if ns.len() == 0 {
        assert(within_limits(ReportModel::empty().measurements));
    } else {
        lemma_nodes_report_laws(ns.drop_last(), parent, b, c);
        lemma_node_report_laws(ns.last(), parent, b, c);
        lemma_followed_by_laws(nodes_report(ns.drop_last(), parent, b, c), node_report(ns.last(), parent, b, c));
    }
}

proof fn lemma_node_report_laws<C: TokenCounter>(
    n: NodeModel,
    parent: LimitsModel,
    b: Option<Map<Seq<char>, Seq<char>>>,
    c: C,
)
    ensures
        deferred_when_unknown(node_report(n, parent, b, c).measurements),
        b is Some && node_report(n, parent, b, c).diagnostics.len() == 0 ==> within_limits(
            node_report(n, parent, b, c).measurements,
        ),
    decreases n,
{
    match n {
        NodeModel::Section(s) => {
            let (cap, reason) = effective(s.limits, inherited_from(parent));
            let inner = nodes_report(s.children, s.limits, b, c);
            let tokens = flat_tokens(nodes_flat(s.children, b), c);
            lemma_nodes_report_laws(s.children, s.limits, b, c);
            lemma_measure_report(tokens, cap, s.id, s.position, reason);
            lemma_followed_by_laws(inner, measure_report(tokens, cap, s.id, s.position, reason));
            if let Some(m) = b {
                lemma_bound_content(s.children, m);
            }
        },
        _ => {
            assert(within_limits(ReportModel::empty().measurements));
            assert(within_limits(
                ReportModel { diagnostics: seq![], measurements: Seq::<MeasurementModel>::empty() }.measurements,
            ));
        },
    }
}

/// Budget enforcement: when rendering succeeds, every section and the
/// document were counted exactly after binding, each within its limit, and
/// none is deferred.
pub proof fn law_rendered_budgets_hold<C: TokenCounter>(d: DocumentModel, b: Map<Seq<char>, Seq<char>>, c: C)
    ensures
        match spec_render_report(d, b, c) {
            Ok((_, r)) => within_limits(r.measurements) && r.diagnostics.len() == 0 && deferred_when_unknown(
                r.measurements,
            ),
            Err(e) => e.len() > 0,
        },
{
    let r = document_report(d, Some(b), c);
    let tokens = flat_tokens(nodes_flat(d.children, Some(b)), c);
    lemma_nodes_report_laws(d.children, d.limits, Some(b), c);
    lemma_measure_report(tokens, d.limits.max_tokens, None, d.position, d.limits.reason);
    lemma_bound_content(d.children, b);
    lemma_followed_by_laws(
        nodes_report(d.children, d.limits, Some(b), c),
        measure_report(tokens, d.limits.max_tokens, None, d.position, d.limits.reason),
    );
}

/// A measurement is deferred exactly when its count is unknown, in every
/// lint report.
pub proof fn law_deferred_iff_uncounted<C: TokenCounter>(d: DocumentModel, c: C)
    ensures
        deferred_when_unknown(spec_lint(d, c).measurements),
{
    let tokens = flat_tokens(nodes_flat(d.children, None), c);
    lemma_nodes_report_laws(d.children, d.limits, None, c);
    lemma_measure_report(tokens, d.limits.max_tokens, None, d.position, d.limits.reason);
    lemma_followed_by_laws(
        nodes_report(d.children, d.limits, None, c),
        measure_report(tokens, d.limits.max_tokens, None, d.position, d.limits.reason),
    );
}

/// The IDs a walk records, in order, each with whether it names a variable:
/// a section's ID comes after its contents.
pub open spec fn node_ids(n: NodeModel) -> Seq<(Seq<char>, bool)>
    decreases n,
{
    match n {
        NodeModel::Text(_) => Seq::empty(),
        NodeModel::Variable(v) => seq![(v.id, true)],
        NodeModel::Section(s) => nodes_ids(s.children) + match s.id {
            Some(id) => seq![(id, false)],
            None => Seq::empty(),
        },
    }
}

pub open spec fn nodes_ids(ns: Seq<NodeModel>) -> Seq<(Seq<char>, bool)>
    decreases ns,
{
    if ns.len() == 0 {
        Seq::empty()
    } else {
        nodes_ids(ns.drop_last()) + node_ids(ns.last())
    }
}

/// Every ID is valid, and only variables share an ID.
pub open spec fn ids_unique(s: Seq<(Seq<char>, bool)>) -> bool {
    &&& forall|i: int| 0 <= i < s.len() ==> valid_id(#[trigger] s[i].0)
    &&& forall|i: int, j: int|
        0 <= i < j < s.len() && #[trigger] s[i].0 == #[trigger] s[j].0 ==> s[i].1 && s[j].1
}

/// No diagnostic of `ds` has code `code`.
pub open spec fn without_code(ds: Seq<DiagnosticModel>, code: Seq<char>) -> bool {
    forall|i: int| 0 <= i < ds.len() ==> (#[trigger] ds[i]).code != code
}

pub proof fn lemma_without_concat(a: Seq<DiagnosticModel>, b: Seq<DiagnosticModel>, code: Seq<char>)
    requires
        without_code(a, code),
        without_code(b, code),
    ensures
        without_code(a + b, code),
{
    assert forall|i: int| 0 <= i < (a + b).len() implies (#[trigger] (a + b)[i]).code != code by {
        if i < a.len() {
            assert((a + b)[i] == a[i]);
        } else {
            assert((a + b)[i] == b[i - a.len()]);
        }
    }
}

/// The walk's map holds each ID seen, and whether every use of it was a variable.
pub open spec fn records(m: Map<Seq<char>, bool>, seen: Seq<(Seq<char>, bool)>) -> bool {
    &&& forall|k: Seq<char>| #[trigger] m.dom().contains(k) <==> exists|i: int| 0 <= i < seen.len() && seen[i].0 == k
    &&& forall|k: Seq<char>|
        #[trigger] m.dom().contains(k) ==> (m[k] <==> forall|i: int| 0 <= i < seen.len() && seen[i].0 == k ==> seen[i].1)
}

proof fn lemma_prefix_without(a: Seq<DiagnosticModel>, b: Seq<DiagnosticModel>, code: Seq<char>)
    requires
        a.len() <= b.len(),
        b.subrange(0, a.len() as int) == a,
        without_code(b, code),
    ensures
        without_code(a, code),
{
    assert forall|i: int| 0 <= i < a.len() implies (#[trigger] a[i]).code != code by {
        assert(a[i] == b.subrange(0, a.len() as int)[i]);
    }
}

proof fn lemma_walk_node_grows(n: NodeModel, st: WalkModel, depth: int)
    ensures
        st.diags.len() <= walk_node(n, st, depth).diags.len(),
        walk_node(n, st, depth).diags.subrange(0, st.diags.len() as int) == st.diags,
    decreases n,
{
    if !st.stopped {
        match n {
            NodeModel::Section(s) => {
                if depth <= 64 {
                    let start = WalkModel {
                        diags: st.diags + reason_diags(s.limits, s.position),
                        ids: st.ids,
                        stopped: false,
                    };
                    lemma_walk_nodes_grows(s.children, start, depth + 1);
                    let inner = walk_nodes(s.children, start, depth + 1);
                    assert(inner.diags.subrange(0, st.diags.len() as int) =~= st.diags) by {
                        assert forall|i: int| 0 <= i < st.diags.len() implies inner.diags[i] == st.diags[i] by {
                            assert(inner.diags.subrange(0, start.diags.len() as int)[i] == start.diags[i]);
                        }
                    }
                    if let Some(id) = s.id {
                        let r = register(inner, id, false, s.position);
                        assert(r.diags.subrange(0, st.diags.len() as int) =~= st.diags) by {
                            assert forall|i: int| 0 <= i < st.diags.len() implies r.diags[i] == st.diags[i] by {
                                assert(inner.diags.subrange(0, st.diags.len() as int)[i] == st.diags[i]);
                            }
                        }
                    }
                } else {
                    assert(st.diags.push(depth_diag()).subrange(0, st.diags.len() as int) =~= st.diags);
                }
            },
            NodeModel::Variable(v) => {
                let r = register(st, v.id, true, v.position);
                assert(r.diags.subrange(0, st.diags.len() as int) =~= st.diags);
            },
            NodeModel::Text(_) => {
                assert(st.diags.subrange(0, st.diags.len() as int) =~= st.diags);
            },
        }
    } else {
        assert(st.diags.subrange(0, st.diags.len() as int) =~= st.diags);
    }
}

proof fn lemma_walk_nodes_grows(ns: Seq<NodeModel>, st: WalkModel, depth: int)
    ensures
        st.diags.len() <= walk_nodes(ns, st, depth).diags.len(),
        walk_nodes(ns, st, depth).diags.subrange(0, st.diags.len() as int) == st.diags,
    decreases ns,
{
    if ns.len() == 0 {
        assert(st.diags.subrange(0, st.diags.len() as int) =~= st.diags);
    } else {
        lemma_walk_nodes_grows(ns.drop_last(), st, depth);
        let mid = walk_nodes(ns.drop_last(), st, depth);
        lemma_walk_node_grows(ns.last(), mid, depth);
        let r = walk_nodes(ns, st, depth);
        assert(r.diags.subrange(0, st.diags.len() as int) =~= st.diags) by {
            assert forall|i: int| 0 <= i < st.diags.len() implies r.diags[i] == st.diags[i] by {
                assert(r.diags.subrange(0, mid.diags.len() as int)[i] == mid.diags[i]);
                assert(mid.diags.subrange(0, st.diags.len() as int)[i] == st.diags[i]);
            }
        }
    }
}

proof fn lemma_codes_differ()
    ensures
        "id"@ != "depth"@,
{
    reveal_strlit("id");
    reveal_strlit("depth");
    assert("id"@.len() != "depth"@.len());
}

proof fn lemma_register_unique(st: WalkModel, seen: Seq<(Seq<char>, bool)>, id: Seq<char>, variable: bool, p: Position)
    requires
        records(st.ids, seen),
        ids_unique(seen),
        without_code(register(st, id, variable, p).diags, "id"@),
    ensures
        records(register(st, id, variable, p).ids, seen.push((id, variable))),
        ids_unique(seen.push((id, variable))),
{
    let r = register(st, id, variable, p);
    let bad = !valid_id(id) || (st.ids.dom().contains(id) && !(variable && st.ids[id]));
    if bad {
        assert(r.diags[r.diags.len() - 1].code == "id"@);
    }
    let t = seen.push((id, variable));
    assert forall|k: Seq<char>| #[trigger] r.ids.dom().contains(k) <==> exists|i: int| 0 <= i < t.len() && t[i].0 == k by {
        if r.ids.dom().contains(k) && k != id {
            let i = choose|i: int| 0 <= i < seen.len() && seen[i].0 == k;
            assert(t[i].0 == k);
        }
        if k == id {
            assert(t[seen.len() as int].0 == k);
        }
        if exists|i: int| 0 <= i < t.len() && t[i].0 == k {
            let i = choose|i: int| 0 <= i < t.len() && t[i].0 == k;
            if i < seen.len() {
                assert(seen[i].0 == k);
            }
        }
    }
    assert forall|k: Seq<char>| #[trigger] r.ids.dom().contains(k) implies (r.ids[k] <==> forall|i: int|
        0 <= i < t.len() && t[i].0 == k ==> t[i].1) by {
        if k == id {
            if variable && st.ids.dom().contains(id) {
                assert forall|i: int| 0 <= i < t.len() && t[i].0 == k implies t[i].1 by {
                    if i < seen.len() {
                        assert(seen[i].0 == k);
                    }
                }
            }
            if !variable {
                assert(t[seen.len() as int].0 == k);
            }
            if variable && !st.ids.dom().contains(id) {
                assert forall|i: int| 0 <= i < t.len() && t[i].0 == k implies t[i].1 by {
                    if i < seen.len() {
                        assert(seen[i].0 == k);
                    }
                }
            }
        } else {
            assert forall|i: int| 0 <= i < t.len() && t[i].0 == k implies (t[i].1 <==> seen[i].1) by {
            }
            if st.ids[k] {
                assert forall|i: int| 0 <= i < t.len() && t[i].0 == k implies t[i].1 by {
                    assert(i < seen.len());
                    assert(seen[i].0 == k);
                }
            } else {
                let j = choose|j: int| 0 <= j < seen.len() && seen[j].0 == k && !seen[j].1;
                assert(t[j].0 == k);
            }
        }
    }
    assert forall|i: int, j: int| 0 <= i < j < t.len() && #[trigger] t[i].0 == #[trigger] t[j].0 implies t[i].1 && t[j].1 by {
        if j == seen.len() {
            assert(seen[i].0 == id);
            assert(st.ids.dom().contains(id));
            assert(variable && st.ids[id]);
        } else {
            assert(seen[i].0 == seen[j].0);
        }
    }
    assert forall|i: int| 0 <= i < t.len() implies valid_id(#[trigger] t[i].0) by {
        if i < seen.len() {
            assert(valid_id(seen[i].0));
        }
    }
}

proof fn lemma_walk_node_unique(n: NodeModel, st: WalkModel, seen: Seq<(Seq<char>, bool)>, depth: int)
    requires
        !st.stopped,
        records(st.ids, seen),
        ids_unique(seen),
        without_code(walk_node(n, st, depth).diags, "id"@),
        without_code(walk_node(n, st, depth).diags, "depth"@),
    ensures
        !walk_node(n, st, depth).stopped,
        records(walk_node(n, st, depth).ids, seen + node_ids(n)),
        ids_unique(seen + node_ids(n)),
    decreases n,
{
    lemma_codes_differ();
    match n {
        NodeModel::Text(_) => {
            assert(seen + node_ids(n) =~= seen);
        },
        NodeModel::Variable(v) => {
            assert(seen + node_ids(n) =~= seen.push((v.id, true)));
            lemma_register_unique(st, seen, v.id, true, v.position);
        },
        NodeModel::Section(s) => {
            if depth > 64 {
                let r = walk_node(n, st, depth);
                assert(r.diags[r.diags.len() - 1].code == "depth"@);
            } else {
                let start = WalkModel {
                    diags: st.diags + reason_diags(s.limits, s.position),
                    ids: st.ids,
                    stopped: false,
                };
                let inner = walk_nodes(s.children, start, depth + 1);
                let r = walk_node(n, st, depth);
                let seen2 = seen + nodes_ids(s.children);
                match s.id {
                    Some(id) => {
                        let reg = register(inner, id, false, s.position);
                        assert(reg.diags.subrange(0, inner.diags.len() as int) =~= inner.diags);
                        lemma_prefix_without(inner.diags, reg.diags, "id"@);
                        lemma_prefix_without(inner.diags, reg.diags, "depth"@);
                        lemma_walk_nodes_unique(s.children, start, seen, depth + 1);
                        lemma_register_unique(inner, seen2, id, false, s.position);
                        assert(seen + node_ids(n) =~= seen2.push((id, false)));
                    },
                    None => {
                        lemma_walk_nodes_unique(s.children, start, seen, depth + 1);
                        assert(seen + node_ids(n) =~= seen2);
                    },
                }
            }
        },
    }
}

proof fn lemma_walk_nodes_unique(ns: Seq<NodeModel>, st: WalkModel, seen: Seq<(Seq<char>, bool)>, depth: int)
    requires
        !st.stopped,
        records(st.ids, seen),
        ids_unique(seen),
        without_code(walk_nodes(ns, st, depth).diags, "id"@),
        without_code(walk_nodes(ns, st, depth).diags, "depth"@),
    ensures
        !walk_nodes(ns, st, depth).stopped,
        records(walk_nodes(ns, st, depth).ids, seen + nodes_ids(ns)),
        ids_unique(seen + nodes_ids(ns)),
    decreases ns,
{
    if ns.len() == 0 {
        assert(seen + nodes_ids(ns) =~= seen);
    } else {
        let mid = walk_nodes(ns.drop_last(), st, depth);
        let r = walk_nodes(ns, st, depth);
        lemma_walk_node_grows(ns.last(), mid, depth);
        lemma_prefix_without(mid.diags, r.diags, "id"@);
        lemma_prefix_without(mid.diags, r.diags, "depth"@);
        lemma_walk_nodes_unique(ns.drop_last(), st, seen, depth);
        lemma_walk_node_unique(ns.last(), mid, seen + nodes_ids(ns.drop_last()), depth);
        assert(seen + nodes_ids(ns) =~= seen + nodes_ids(ns.drop_last()) + node_ids(ns.last()));
    }
}

/// Unique IDs: when validation reports neither an invalid or repeated ID nor
/// excessive depth, every section and variable ID is valid, and only
/// variables share an ID.
pub proof fn law_validated_ids_are_unique<C: TokenCounter>(d: DocumentModel, c: C)
    requires
        without_code(spec_validate(d, c), "id"@),
        without_code(spec_validate(d, c), "depth"@),
    ensures
        ids_unique(nodes_ids(d.children)),
{
    let head = reason_diags(d.limits, d.position) + (if d.version != "0.2"@ || d.limits.max_tokens is None {
        seq![diag("document"@, document_message(), d.position)]
    } else {
        Seq::empty()
    }) + (if d.tokenizer != c.spec_name() {
        seq![diag("tokenizer"@, tokenizer_message(d.tokenizer, c.spec_name()), d.position)]
    } else {
        Seq::empty()
    });
    let st = WalkModel { diags: head, ids: Map::empty(), stopped: false };
    let empty = Seq::<(Seq<char>, bool)>::empty();
    lemma_walk_nodes_unique(d.children, st, empty, 2);
    assert(empty + nodes_ids(d.children) =~= nodes_ids(d.children));
}


/// An element's own limits pass validation: the signature they call for,
/// and a reason that is not blank wherever a limit is declared.
pub open spec fn limits_ok(l: LimitsModel) -> bool {
    &&& l.sig == spec_budget_signature(l)
    &&& l.declares_limit() ==> (l.reason matches Some(r) && !blank(r))
}

pub open spec fn node_limits_ok(n: NodeModel) -> bool
    decreases n,
{
    match n {
        NodeModel::Section(s) => limits_ok(s.limits) && nodes_limits_ok(s.children),
        _ => true,
    }
}

pub open spec fn nodes_limits_ok(ns: Seq<NodeModel>) -> bool
    decreases ns,
{
    if ns.len() == 0 {
        true
    } else {
        nodes_limits_ok(ns.drop_last()) && node_limits_ok(ns.last())
    }
}

/// Everything validation asks of a document checked with counter `c`.
pub open spec fn valid_document<C: TokenCounter>(d: DocumentModel, c: C) -> bool {
    &&& limits_ok(d.limits)
    &&& d.version == "0.2"@
    &&& d.limits.max_tokens is Some
    &&& d.tokenizer == c.spec_name()
    &&& nodes_limits_ok(d.children)
    &&& ids_unique(nodes_ids(d.children))
    &&& nodes_fit(d.children, 2)
}

proof fn lemma_register_grows(st: WalkModel, id: Seq<char>, variable: bool, p: Position)
    ensures
        register(st, id, variable, p).diags.len() >= st.diags.len(),
        !register(st, id, variable, p).stopped,
{
}

proof fn lemma_walk_node_clean(n: NodeModel, st: WalkModel, depth: int)
    requires
        !st.stopped,
        walk_node(n, st, depth).diags.len() == st.diags.len(),
    ensures
        node_fits(n, depth),
        node_limits_ok(n),
        !walk_node(n, st, depth).stopped,
    decreases n,
{
    match n {
        NodeModel::Section(s) => {
            if depth <= 64 {
                let rd = reason_diags(s.limits, s.position);
                let start = WalkModel { diags: st.diags + rd, ids: st.ids, stopped: false };
                lemma_walk_nodes_grows(s.children, start, depth + 1);
                let inner = walk_nodes(s.children, start, depth + 1);
                if let Some(id) = s.id {
                    lemma_register_grows(inner, id, false, s.position);
                }
                assert(rd.len() == 0);
                lemma_walk_nodes_clean(s.children, start, depth + 1);
            }
        },
        NodeModel::Variable(v) => {
            lemma_register_grows(st, v.id, true, v.position);
        },
        NodeModel::Text(_) => {},
    }
}

proof fn lemma_walk_nodes_clean(ns: Seq<NodeModel>, st: WalkModel, depth: int)
    requires
        !st.stopped,
        walk_nodes(ns, st, depth).diags.len() == st.diags.len(),
    ensures
        nodes_fit(ns, depth),
        nodes_limits_ok(ns),
        !walk_nodes(ns, st, depth).stopped,
    decreases ns,
{
    if ns.len() > 0 {
        let mid = walk_nodes(ns.drop_last(), st, depth);
        lemma_walk_nodes_grows(ns.drop_last(), st, depth);
        lemma_walk_node_grows(ns.last(), mid, depth);
        lemma_walk_nodes_clean(ns.drop_last(), st, depth);
        lemma_walk_node_clean(ns.last(), mid, depth);
    }
}

proof fn lemma_ids_unique_prefix(a: Seq<(Seq<char>, bool)>, b: Seq<(Seq<char>, bool)>)
    requires
        ids_unique(a + b),
    ensures
        ids_unique(a),
{
    assert forall|i: int| 0 <= i < a.len() implies valid_id(#[trigger] a[i].0) by {
        assert((a + b)[i] == a[i]);
    }
    assert forall|i: int, j: int| 0 <= i < j < a.len() && #[trigger] a[i].0 == #[trigger] a[j].0 implies a[i].1
        && a[j].1 by {
        assert((a + b)[i] == a[i]);
        assert((a + b)[j] == a[j]);
    }
}

proof fn lemma_register_quiet(st: WalkModel, seen: Seq<(Seq<char>, bool)>, id: Seq<char>, variable: bool, p: Position)
    requires
        records(st.ids, seen),
        ids_unique(seen.push((id, variable))),
    ensures
        register(st, id, variable, p).diags == st.diags,
        records(register(st, id, variable, p).ids, seen.push((id, variable))),
{
    let t = seen.push((id, variable));
    let n = seen.len() as int;
    assert(t[n].0 == id);
    assert(valid_id(id));
    if st.ids.dom().contains(id) {
        let i = choose|i: int| 0 <= i < seen.len() && seen[i].0 == id;
        assert(t[i] == seen[i]);
        assert(t[i].0 == t[n].0);
        assert(variable);
        assert forall|j: int| 0 <= j < seen.len() && seen[j].0 == id implies seen[j].1 by {
            assert(t[j] == seen[j]);
            assert(t[j].0 == t[n].0);
        }
        assert(st.ids[id]);
    }
    let r = register(st, id, variable, p);
    assert(r.diags == st.diags);
    assert forall|k: Seq<char>| #[trigger] r.ids.dom().contains(k) <==> exists|i: int| 0 <= i < t.len() && t[i].0 == k by {
        if r.ids.dom().contains(k) && k != id {
            let i = choose|i: int| 0 <= i < seen.len() && seen[i].0 == k;
            assert(t[i].0 == k);
        }
        if k == id {
            assert(t[n].0 == k);
        }
        if exists|i: int| 0 <= i < t.len() && t[i].0 == k {
            let i = choose|i: int| 0 <= i < t.len() && t[i].0 == k;
            if i < seen.len() {
                assert(seen[i].0 == k);
            }
        }
    }
    assert forall|k: Seq<char>| #[trigger] r.ids.dom().contains(k) implies (r.ids[k] <==> forall|i: int|
        0 <= i < t.len() && t[i].0 == k ==> t[i].1) by {
        if k == id {
            if variable {
                assert forall|i: int| 0 <= i < t.len() && t[i].0 == k implies t[i].1 by {
                    if i < seen.len() {
                        assert(seen[i].0 == k);
                        assert(t[i] == seen[i]);
                        assert(t[i].0 == t[n].0);
                    }
                }
            } else {
                assert(t[n].0 == k);
            }
        } else {
            if st.ids[k] {
                assert forall|i: int| 0 <= i < t.len() && t[i].0 == k implies t[i].1 by {
                    assert(i < seen.len());
                    assert(seen[i].0 == k);
                }
            } else {
                let j = choose|j: int| 0 <= j < seen.len() && seen[j].0 == k && !seen[j].1;
                assert(t[j].0 == k);
            }
        }
    }
}

proof fn lemma_walk_node_quiet(n: NodeModel, st: WalkModel, seen: Seq<(Seq<char>, bool)>, depth: int)
    requires
        !st.stopped,
        records(st.ids, seen),
        ids_unique(seen + node_ids(n)),
        node_fits(n, depth),
        node_limits_ok(n),
    ensures
        walk_node(n, st, depth).diags == st.diags,
        !walk_node(n, st, depth).stopped,
        records(walk_node(n, st, depth).ids, seen + node_ids(n)),
    decreases n,
{
    match n {
        NodeModel::Text(_) => {
            assert(seen + node_ids(n) =~= seen);
        },
        NodeModel::Variable(v) => {
            assert(seen + node_ids(n) =~= seen.push((v.id, true)));
            lemma_register_quiet(st, seen, v.id, true, v.position);
        },
        NodeModel::Section(s) => {
            let rd = reason_diags(s.limits, s.position);
            assert(rd.len() == 0);
            let start = WalkModel { diags: st.diags + rd, ids: st.ids, stopped: false };
            assert(start.diags =~= st.diags);
            let seen2 = seen + nodes_ids(s.children);
            match s.id {
                Some(id) => {
                    assert(seen + node_ids(n) =~= seen2 + seq![(id, false)]);
                    lemma_ids_unique_prefix(seen2, seq![(id, false)]);
                    lemma_walk_nodes_quiet(s.children, start, seen, depth + 1);
                    let inner = walk_nodes(s.children, start, depth + 1);
                    assert(seen2 + seq![(id, false)] =~= seen2.push((id, false)));
                    lemma_register_quiet(inner, seen2, id, false, s.position);
                },
                None => {
                    assert(seen + node_ids(n) =~= seen2);
                    lemma_walk_nodes_quiet(s.children, start, seen, depth + 1);
                },
            }
        },
    }
}

proof fn lemma_walk_nodes_quiet(ns: Seq<NodeModel>, st: WalkModel, seen: Seq<(Seq<char>, bool)>, depth: int)
    requires
        !st.stopped,
        records(st.ids, seen),
        ids_unique(seen + nodes_ids(ns)),
        nodes_fit(ns, depth),
        nodes_limits_ok(ns),
    ensures
        walk_nodes(ns, st, depth).diags == st.diags,
        !walk_nodes(ns, st, depth).stopped,
        records(walk_nodes(ns, st, depth).ids, seen + nodes_ids(ns)),
    decreases ns,
{
    if ns.len() == 0 {
        assert(seen + nodes_ids(ns) =~= seen);
    } else {
        let seen1 = seen + nodes_ids(ns.drop_last());
        assert(seen + nodes_ids(ns) =~= seen1 + node_ids(ns.last()));
        lemma_ids_unique_prefix(seen1, node_ids(ns.last()));
        lemma_walk_nodes_quiet(ns.drop_last(), st, seen, depth);
        lemma_walk_node_quiet(ns.last(), walk_nodes(ns.drop_last(), st, depth), seen1, depth);
    }
}

/// Validation finds nothing exactly when the document is valid: every
/// element's signature is the one its limits call for and every declared
/// limit has a reason that is not blank; the version is 0.2, the root
/// declares `max-tokens`, the tokenizer is the counter's; every section and
/// variable ID is valid and repeated only between variables; and no section
/// lies deeper than 64, counting the root.
pub proof fn law_validation_passes_exactly_when_valid<C: TokenCounter>(d: DocumentModel, c: C)
    ensures
        spec_validate(d, c).len() == 0 <==> valid_document(d, c),
{
    let rd = reason_diags(d.limits, d.position);
    let d1 = if d.version != "0.2"@ || d.limits.max_tokens is None {
        seq![diag("document"@, document_message(), d.position)]
    } else {
        Seq::empty()
    };
    let d2 = if d.tokenizer != c.spec_name() {
        seq![diag("tokenizer"@, tokenizer_message(d.tokenizer, c.spec_name()), d.position)]
    } else {
        Seq::empty()
    };
    let head = rd + d1 + d2;
    let st = WalkModel { diags: head, ids: Map::empty(), stopped: false };
    let empty = Seq::<(Seq<char>, bool)>::empty();
    assert(empty + nodes_ids(d.children) =~= nodes_ids(d.children));
    lemma_walk_nodes_grows(d.children, st, 2);
    if spec_validate(d, c).len() == 0 {
        assert(head.len() == 0);
        lemma_walk_nodes_clean(d.children, st, 2);
        assert(without_code(spec_validate(d, c), "id"@));
        assert(without_code(spec_validate(d, c), "depth"@));
        law_validated_ids_are_unique(d, c);
    }
    if valid_document(d, c) {
        assert(head =~= Seq::<DiagnosticModel>::empty());
        assert(records(Map::empty(), empty));
        lemma_walk_nodes_quiet(d.children, st, empty, 2);
    }
}
} // verus!
