//! Strict HTML-inspired markup: one `htmlp` root, nested `section` elements,
//! literal text with `{{name}}` placeholders. The XML tokens come from
//! `xmlparser`; every rule on top of them is stated here.
use vstd::prelude::*;
use vstd::string::*;

use crate::format::copy_opt;
use crate::limit::{limit_error, parse_limit, spec_parse_limit};
use crate::locations::{
    byte_len, char_index_at_byte, position_at_byte, position_at_char, within_source_limit, Locations,
    MAX_SOURCE_BYTES,
};
use crate::model::{
    diag, nodes_view, opt_str, Diagnostic, DiagnosticModel, Document, DocumentModel, Limits,
    LimitsModel, Node, NodeModel, Position, Section, SectionModel,
};
use crate::text::{
    blank, chars_of, decode, decode_range, is_blank, is_blank_str, is_valid_char, is_valid_id,
    is_valid_id_str, nodes_result, parse_text, result_view, string_of, text_nodes, valid_char,
    valid_id,
};
use crate::xml::{scan_xml, xml_scan, XmlToken};

verus! {

/// Attribute values of one element, entity-decoded.
pub struct AttrsModel {
    pub version: Option<Seq<char>>,
    pub tokenizer: Option<Seq<char>>,
    pub id: Option<Seq<char>>,
    pub max_tokens: Option<Seq<char>>,
    pub per_item: Option<Seq<char>>,
    pub reason: Option<Seq<char>>,
    pub sig: Option<Seq<char>>,
}

impl AttrsModel {
    pub open spec fn none() -> AttrsModel {
        AttrsModel {
            version: None,
            tokenizer: None,
            id: None,
            max_tokens: None,
            per_item: None,
            reason: None,
            sig: None,
        }
    }
}

/// An element whose start tag was read and whose end tag was not.
pub struct FrameModel {
    pub root: bool,
    pub attrs: AttrsModel,
    pub children: Seq<NodeModel>,
    pub position: Position,
}

pub struct ParseModel {
    pub stack: Seq<FrameModel>,
    pub pending: Option<FrameModel>,
    pub result: Option<DocumentModel>,
    pub ids: Seq<Seq<char>>,
    pub variables: Seq<Seq<char>>,
}

pub open spec fn root_name() -> Seq<char> {
    "htmlp"@
}

pub open spec fn section_name() -> Seq<char> {
    "section"@
}

/// Character indices of a byte range, when both ends are character boundaries.
pub open spec fn char_range(src: Seq<char>, r: std::ops::Range<usize>) -> Option<(int, int)> {
    match (char_index_at_byte(src, r.start as int), char_index_at_byte(src, r.end as int)) {
        (Some(a), Some(b)) => if a <= b {
            Some((a, b))
        } else {
            None
        },
        _ => None,
    }
}

pub open spec fn malformed(p: Position) -> DiagnosticModel {
    diag("syntax"@, "Malformed token"@, p)
}

/// Attribute names an element accepts.
pub open spec fn attribute_allowed(root: bool, name: Seq<char>) -> bool {
    if root {
        name == "version"@ || name == "tokenizer"@ || name == "max-tokens"@ || name
            == "per-item"@ || name == "reason"@ || name == "sig"@
    } else {
        name == "id"@ || name == "max-tokens"@ || name == "per-item"@ || name == "reason"@
            || name == "sig"@
    }
}

/// The current value of an allowed attribute.
pub open spec fn attribute_value(a: AttrsModel, name: Seq<char>) -> Option<Seq<char>> {
    if name == "version"@ {
        a.version
    } else if name == "tokenizer"@ {
        a.tokenizer
    } else if name == "id"@ {
        a.id
    } else if name == "max-tokens"@ {
        a.max_tokens
    } else if name == "per-item"@ {
        a.per_item
    } else if name == "reason"@ {
        a.reason
    } else {
        a.sig
    }
}

/// Sets an allowed attribute.
pub open spec fn with_attribute(a: AttrsModel, name: Seq<char>, v: Seq<char>) -> AttrsModel {
    if name == "version"@ {
        AttrsModel { version: Some(v), ..a }
    } else if name == "tokenizer"@ {
        AttrsModel { tokenizer: Some(v), ..a }
    } else if name == "id"@ {
        AttrsModel { id: Some(v), ..a }
    } else if name == "max-tokens"@ {
        AttrsModel { max_tokens: Some(v), ..a }
    } else if name == "per-item"@ {
        AttrsModel { per_item: Some(v), ..a }
    } else if name == "reason"@ {
        AttrsModel { reason: Some(v), ..a }
    } else {
        AttrsModel { sig: Some(v), ..a }
    }
}

/// `<name`: only `htmlp` and `section` start elements; `htmlp` only as the one
/// root; at most 64 open elements.
pub open spec fn start_step(src: Seq<char>, st: ParseModel, span: std::ops::Range<usize>) -> Result<
    ParseModel,
    DiagnosticModel,
> {
    let p = position_at_byte(src, span.start as int);
    match char_range(src, span) {
        None => Err(malformed(p)),
        Some((a, b)) => if a >= b {
            Err(malformed(p))
        } else {
            let name = src.subrange(a + 1, b);
            if !(name == root_name() || name == section_name()) {
                Err(diag("element"@, "Only htmlp and section elements are supported"@, p))
            } else if st.stack.len() >= 64 {
                Err(diag("depth"@, "Maximum element depth is 64"@, p))
            } else if (st.stack.len() == 0 && (name != root_name() || st.result is Some)) || (
            st.stack.len() > 0 && name == root_name()) {
                Err(diag("root"@, "Expected exactly one htmlp root"@, p))
            } else {
                Ok(
                    ParseModel {
                        pending: Some(
                            FrameModel {
                                root: name == root_name(),
                                attrs: AttrsModel::none(),
                                children: Seq::empty(),
                                position: p,
                            },
                        ),
                        ..st
                    },
                )
            }
        },
    }
}

/// `name="value"` on the pending start tag: a known, unprefixed, unique
/// attribute whose value decodes.
pub open spec fn attribute_step(
    src: Seq<char>,
    st: ParseModel,
    local: std::ops::Range<usize>,
    value: std::ops::Range<usize>,
    span: std::ops::Range<usize>,
) -> Result<ParseModel, DiagnosticModel> {
    let p = position_at_byte(src, span.start as int);
    match st.pending {
        None => Err(diag("syntax"@, "Unexpected attribute"@, p)),
        Some(frame) => match (char_range(src, local), char_range(src, value)) {
            (Some((la, lb)), Some((va, vb))) => {
                let name = src.subrange(la, lb);
                if local.start != span.start || !attribute_allowed(frame.root, name) {
                    Err(diag("attribute"@, "Unknown attribute "@ + name, p))
                } else {
                    match decode(src.subrange(va, vb)) {
                        Err(m) => Err(diag("entity"@, m, position_at_byte(src, value.start as int))),
                        Ok(v) => if attribute_value(frame.attrs, name) is Some {
                            Err(diag("attribute"@, "Duplicate attribute"@, p))
                        } else {
                            Ok(
                                ParseModel {
                                    pending: Some(
                                        FrameModel {
                                            attrs: with_attribute(frame.attrs, name, v),
                                            ..frame
                                        },
                                    ),
                                    ..st
                                },
                            )
                        },
                    }
                }
            },
            _ => Err(malformed(p)),
        },
    }
}

/// Token limits of an element and their reason.
pub open spec fn frame_limits(f: FrameModel) -> Result<LimitsModel, DiagnosticModel> {
    let max = match f.attrs.max_tokens {
        None => Ok(None),
        Some(s) => match spec_parse_limit(s) {
            Some(n) => Ok(Some(n)),
            None => Err(diag("limit"@, limit_error(s), f.position)),
        },
    };
    let item = match f.attrs.per_item {
        None => Ok(None),
        Some(s) => match spec_parse_limit(s) {
            Some(n) => Ok(Some(n)),
            None => Err(diag("limit"@, limit_error(s), f.position)),
        },
    };
    match (max, item) {
        (Err(x), _) => Err(x),
        (Ok(_), Err(x)) => Err(x),
        (Ok(m), Ok(i)) => {
            let limits = LimitsModel { max_tokens: m, per_item: i, reason: f.attrs.reason, sig: f.attrs.sig };
            if limits.declares_limit() && match limits.reason {
                None => true,
                Some(r) => blank(r),
            } {
                Err(diag("reason"@, reason_required(), f.position))
            } else {
                Ok(limits)
            }
        },
    }
}

pub open spec fn reason_required() -> Seq<char> {
    "Every declared token limit requires a nonblank reason"@
}

pub open spec fn default_tokenizer() -> Seq<char> {
    "cl100k_base"@
}

pub open spec fn supported_version() -> Seq<char> {
    "0.2"@
}

/// An element whose end tag was read becomes the document or a section of its parent.
pub open spec fn finish_frame(st: ParseModel, f: FrameModel) -> Result<ParseModel, DiagnosticModel> {
    match frame_limits(f) {
        Err(x) => Err(x),
        Ok(limits) => if f.root {
            if f.attrs.version matches Some(v) && v != supported_version() {
                Err(diag("version"@, "Only version 0.2 is supported"@, f.position))
            } else if limits.max_tokens is None {
                Err(diag("limit"@, "htmlp requires max-tokens"@, f.position))
            } else {
                let tokenizer = match f.attrs.tokenizer {
                    Some(t) => t,
                    None => default_tokenizer(),
                };
                if !valid_id(tokenizer) {
                    Err(diag("tokenizer"@, "Invalid tokenizer identifier"@, f.position))
                } else {
                    Ok(
                        ParseModel {
                            result: Some(
                                DocumentModel {
                                    version: supported_version(),
                                    tokenizer,
                                    limits,
                                    children: f.children,
                                    position: f.position,
                                },
                            ),
                            ..st
                        },
                    )
                }
            }
        } else {
            let node = NodeModel::Section(
                SectionModel { id: f.attrs.id, limits, children: f.children, position: f.position },
            );
            if st.stack.len() == 0 {
                Err(diag("root"@, "Missing root"@, f.position))
            } else {
                let top = st.stack.last();
                Ok(
                    ParseModel {
                        stack: st.stack.drop_last().push(
                            FrameModel { children: top.children.push(node), ..top },
                        ),
                        ..st
                    },
                )
            }
        },
    }
}

pub open spec fn id_message() -> Seq<char> {
    "IDs must be unique and contain only ASCII letters, digits, _, -, ., or :"@
}

/// `>` or `/>`: the pending element opens, registering its ID; `/>` also closes it.
pub open spec fn end_step(src: Seq<char>, st: ParseModel, span: std::ops::Range<usize>) -> Result<
    ParseModel,
    DiagnosticModel,
> {
    let p = position_at_byte(src, span.start as int);
    match char_range(src, span) {
        None => Err(malformed(p)),
        Some((a, b)) => {
            let empty = a < b && src[a] == '/';
            match st.pending {
                None => Err(diag("syntax"@, "Unexpected opening tag"@, p)),
                Some(frame) => {
                    let id_ok = match frame.attrs.id {
                        None => true,
                        Some(id) => valid_id(id) && !st.variables.contains(id) && !st.ids.contains(id),
                    };
                    if !id_ok {
                        Err(diag("id"@, id_message(), frame.position))
                    } else {
                        let ids = match frame.attrs.id {
                            None => st.ids,
                            Some(id) => st.ids.push(id),
                        };
                        let opened = ParseModel {
                            stack: st.stack.push(frame),
                            pending: None,
                            ids,
                            ..st
                        };
                        if empty {
                            finish_frame(ParseModel { stack: st.stack, ..opened }, frame)
                        } else {
                            Ok(opened)
                        }
                    }
                },
            }
        },
    }
}

/// `</name>`: closes the innermost open element, which must have that name.
pub open spec fn close_step(
    src: Seq<char>,
    st: ParseModel,
    local: std::ops::Range<usize>,
    span: std::ops::Range<usize>,
) -> Result<ParseModel, DiagnosticModel> {
    let p = position_at_byte(src, span.start as int);
    if st.stack.len() == 0 {
        Err(diag("syntax"@, "Unexpected closing tag"@, p))
    } else {
        let frame = st.stack.last();
        match char_range(src, local) {
            None => Err(malformed(p)),
            Some((la, lb)) => {
                let name = src.subrange(la, lb);
                let expected = if frame.root {
                    root_name()
                } else {
                    section_name()
                };
                if local.start != span.start + 2 || name != expected {
                    Err(
                        diag(
                            "syntax"@,
                            "Expected </"@ + expected + ">, found </"@ + name + ">"@,
                            p,
                        ),
                    )
                } else {
                    finish_frame(ParseModel { stack: st.stack.drop_last(), ..st }, frame)
                }
            },
        }
    }
}

/// Appends text to child nodes, merging it into a trailing text node.
pub open spec fn append_text(children: Seq<NodeModel>, t: Seq<char>) -> Seq<NodeModel> {
    if children.len() > 0 && children.last() is Text {
        children.drop_last().push(NodeModel::Text(children.last()->Text_0 + t))
    } else if t.len() > 0 {
        children.push(NodeModel::Text(t))
    } else {
        children
    }
}

/// Adds parsed text nodes to the innermost element. A variable may not share
/// its name with an element ID.
pub open spec fn add_nodes(st: ParseModel, nodes: Seq<NodeModel>) -> Result<ParseModel, DiagnosticModel>
    decreases nodes.len(),
{
    if nodes.len() == 0 || st.stack.len() == 0 {
        Ok(st)
    } else {
        let n = nodes[0];
        let top = st.stack.last();
        let next = match n {
            NodeModel::Variable(v) => if st.ids.contains(v.id) {
                Err(diag("variable"@, "Variable name cannot match an element ID"@, v.position))
            } else {
                Ok(
                    ParseModel {
                        stack: st.stack.drop_last().push(
                            FrameModel { children: top.children.push(n), ..top },
                        ),
                        variables: st.variables.push(v.id),
                        ..st
                    },
                )
            },
            NodeModel::Text(t) => Ok(
                ParseModel {
                    stack: st.stack.drop_last().push(
                        FrameModel { children: append_text(top.children, t), ..top },
                    ),
                    ..st
                },
            ),
            NodeModel::Section(_) => Ok(
                ParseModel {
                    stack: st.stack.drop_last().push(
                        FrameModel { children: top.children.push(n), ..top },
                    ),
                    ..st
                },
            ),
        };
        match next {
            Err(x) => Err(x),
            Ok(s2) => add_nodes(s2, nodes.drop_first()),
        }
    }
}

/// Character data: inside the root it becomes text and placeholders; outside
/// it must be whitespace.
pub open spec fn text_step(src: Seq<char>, st: ParseModel, r: std::ops::Range<usize>) -> Result<
    ParseModel,
    DiagnosticModel,
> {
    let p = position_at_byte(src, r.start as int);
    match char_range(src, r) {
        None => Err(malformed(p)),
        Some((a, b)) => if st.stack.len() > 0 {
            match text_nodes(src, a, b, true) {
                Err(x) => Err(x),
                Ok(nodes) => add_nodes(st, nodes),
            }
        } else if !blank(src.subrange(a, b)) {
            Err(diag("root"@, "Text must be inside htmlp"@, p))
        } else {
            Ok(st)
        },
    }
}

/// The position of a tokenizer error at one-based row and column.
pub open spec fn error_position(src: Seq<char>, row: u32, col: u32) -> Position {
    let r = if row > 0 {
        row - 1
    } else {
        0
    };
    let c = if col > 0 {
        col - 1
    } else {
        0
    };
    let starts = line_starts(src);
    let offset = if r < starts.len() && starts[r as int] + c < src.len() {
        crate::locations::byte_len(src.take(starts[r as int] + c))
    } else {
        crate::locations::byte_len(src)
    };
    Position { line: row as usize, column: col as usize, offset: offset as usize }
}

/// Character indices where lines start.
pub open spec fn line_starts(src: Seq<char>) -> Seq<int>
    decreases src.len(),
{
    if src.len() == 0 {
        seq![0]
    } else if src.last() == '\n' {
        line_starts(src.drop_last()).push(src.len() as int)
    } else {
        line_starts(src.drop_last())
    }
}

pub open spec fn unsupported_markup() -> Seq<char> {
    "DOCTYPE, declarations, CDATA, and processing instructions are not supported"@
}

/// One token applied to the parser state.
pub open spec fn step(src: Seq<char>, st: ParseModel, t: XmlToken) -> Result<ParseModel, DiagnosticModel> {
    match t {
        XmlToken::Start(span) => start_step(src, st, span),
        XmlToken::Attr(local, value, span) => attribute_step(src, st, local, value, span),
        XmlToken::End(span) => end_step(src, st, span),
        XmlToken::Close(local, span) => close_step(src, st, local, span),
        XmlToken::Text(r) => text_step(src, st, r),
        XmlToken::Comment => Ok(st),
        XmlToken::Unsupported => Err(diag("syntax"@, unsupported_markup(), Position::zero())),
        XmlToken::Fail(row, col, message) => Err(diag("syntax"@, message@, error_position(src, row, col))),
    }
}

/// Tokens applied in order; the first error stops.
pub open spec fn run(src: Seq<char>, st: ParseModel, tokens: Seq<XmlToken>) -> Result<
    ParseModel,
    DiagnosticModel,
>
    decreases tokens.len(),
{
    if tokens.len() == 0 {
        Ok(st)
    } else {
        match step(src, st, tokens[0]) {
            Err(x) => Err(x),
            Ok(s2) => run(src, s2, tokens.drop_first()),
        }
    }
}

pub open spec fn initial() -> ParseModel {
    ParseModel { stack: Seq::empty(), pending: None, result: None, ids: Seq::empty(), variables: Seq::empty() }
}

/// After the last token: every element closed and a root read.
pub open spec fn finish(st: ParseModel) -> Result<DocumentModel, DiagnosticModel> {
    if st.stack.len() > 0 {
        Err(diag("syntax"@, "Unclosed element"@, st.stack.last().position))
    } else {
        match st.result {
            Some(d) => Ok(d),
            None => Err(diag("root"@, "Missing htmlp root"@, Position::zero())),
        }
    }
}

/// Index of the first character outside `valid_char`.
pub open spec fn first_invalid(src: Seq<char>) -> Option<int> {
    if exists|i: int| 0 <= i < src.len() && !valid_char(src[i]) {
        Some(choose|i: int| 0 <= i < src.len() && !valid_char(src[i]) && forall|j: int| 0 <= j < i ==> valid_char(src[j]))
    } else {
        None
    }
}

/// Markup parsed from a token stream: the size and character checks, then
/// the tokens in order, then the final checks.
pub open spec fn parse_from(src: Seq<char>, tokens: Seq<XmlToken>) -> Result<DocumentModel, DiagnosticModel> {
    if byte_len(src) > MAX_SOURCE_BYTES {
        Err(diag("source-size"@, "Source exceeds 4 MiB"@, Position::zero()))
    } else {
        match first_invalid(src) {
            Some(i) => Err(diag("character"@, "Invalid control character"@, position_at_char(src, i))),
            None => match run(src, initial(), tokens) {
                Err(x) => Err(x),
                Ok(st) => finish(st),
            },
        }
    }
}

/// The markup's document, reading the tokens that `xmlparser` finds in it.
pub open spec fn spec_parse(src: Seq<char>) -> Result<DocumentModel, DiagnosticModel> {
    parse_from(src, xml_scan(src))
}

pub open spec fn document_result(r: Result<Document, Diagnostic>) -> Result<DocumentModel, DiagnosticModel> {
    match r {
        Ok(d) => Ok(d@),
        Err(x) => Err(x@),
    }
}

/// Attribute values of one element, entity-decoded.
struct Attrs {
    version: Option<String>,
    tokenizer: Option<String>,
    id: Option<String>,
    max_tokens: Option<String>,
    per_item: Option<String>,
    reason: Option<String>,
    sig: Option<String>,
}

impl View for Attrs {
    type V = AttrsModel;

    closed spec fn view(&self) -> AttrsModel {
        AttrsModel {
            version: opt_str(self.version),
            tokenizer: opt_str(self.tokenizer),
            id: opt_str(self.id),
            max_tokens: opt_str(self.max_tokens),
            per_item: opt_str(self.per_item),
            reason: opt_str(self.reason),
            sig: opt_str(self.sig),
        }
    }
}

struct Frame {
    root: bool,
    attrs: Attrs,
    children: Vec<Node>,
    position: Position,
}

impl View for Frame {
    type V = FrameModel;

    closed spec fn view(&self) -> FrameModel {
        FrameModel {
            root: self.root,
            attrs: self.attrs@,
            children: nodes_view(self.children@),
            position: self.position,
        }
    }
}

pub open spec fn strings_view(v: Seq<String>) -> Seq<Seq<char>> {
    v.map_values(|s: String| s@)
}

struct Parser {
    stack: Vec<Frame>,
    pending: Option<Frame>,
    result: Option<Document>,
    ids: Vec<String>,
    variables: Vec<String>,
}

impl View for Parser {
    type V = ParseModel;

    closed spec fn view(&self) -> ParseModel {
        ParseModel {
            stack: self.stack@.map_values(|f: Frame| f@),
            pending: match self.pending {
                Some(f) => Some(f@),
                None => None,
            },
            result: match self.result {
                Some(d) => Some(d@),
                None => None,
            },
            ids: strings_view(self.ids@),
            variables: strings_view(self.variables@),
        }
    }
}

pub open spec fn outcome(r: Result<(), Diagnostic>, after: ParseModel) -> Result<ParseModel, DiagnosticModel> {
    match r {
        Ok(_) => Ok(after),
        Err(d) => Err(d@),
    }
}

/// Whether `c[a..b]` spells `lit`.
pub(crate) fn eq_lit(c: &Vec<char>, a: usize, b: usize, lit: &str) -> (r: bool)
    requires
        a <= b <= c@.len(),
    ensures
        r == (c@.subrange(a as int, b as int) == lit@),
{
    let l = chars_of(lit);
    if b - a != l.len() {
        return false;
    }
    let mut i: usize = 0;
    while i < l.len()
        invariant
            a <= b <= c@.len(),
            b - a == l@.len(),
            l@ == lit@,
            i <= l@.len(),
            forall|j: int| 0 <= j < i ==> c@[a + j] == l@[j],
        decreases l@.len() - i,
    {
        if c[a + i] != l[i] {
            assert(c@.subrange(a as int, b as int)[i as int] != lit@[i as int]);
            return false;
        }
        i = i + 1;
    }
    assert(c@.subrange(a as int, b as int) == lit@);
    true
}

/// Whether the strings in `v` include `s`.
fn contains_string(v: &Vec<String>, s: &String) -> (r: bool)
    ensures
        r == strings_view(v@).contains(s@),
{
    let mut i: usize = 0;
    while i < v.len()
        invariant
            i <= v@.len(),
            forall|j: int| 0 <= j < i ==> v@[j]@ != s@,
        decreases v@.len() - i,
    {
        if v[i] == *s {
            assert(strings_view(v@)[i as int] == s@);
            return true;
        }
        i = i + 1;
    }
    proof {
        if strings_view(v@).contains(s@) {
            let k = choose|k: int| 0 <= k < strings_view(v@).len() && strings_view(v@)[k] == s@;
            assert(v@[k]@ == s@);
        }
    }
    false
}

pub(crate) fn char_range_of(locs: &mut Locations, c: &Vec<char>, r: &std::ops::Range<usize>) -> (o: Option<(usize, usize)>)
    requires
        old(locs).wf(),
        c@ == old(locs).source(),
    ensures
        final(locs).wf(),
        final(locs).source() == old(locs).source(),
        match o {
            Some((a, b)) => char_range(c@, *r) == Some((a as int, b as int)) && a <= b <= c@.len(),
            None => char_range(c@, *r) is None,
        },
{
    let a = locs.char_index(c, r.start);
    let b = locs.char_index(c, r.end);
    match (a, b) {
        (Some(a), Some(b)) => if a <= b {
            Some((a, b))
        } else {
            None
        },
        _ => None,
    }
}

fn no_attrs() -> (a: Attrs)
    ensures
        a@ == AttrsModel::none(),
{
    Attrs { version: None, tokenizer: None, id: None, max_tokens: None, per_item: None, reason: None, sig: None }
}

fn malformed_at(p: Position) -> (d: Diagnostic)
    ensures
        d@ == malformed(p),
{
    Diagnostic::new("syntax", String::from_str("Malformed token"), p)
}

/// Appends text to nodes, merging it into a trailing text node.
fn append_text_node(children: &mut Vec<Node>, t: String)
    ensures
        nodes_view(final(children)@) == append_text(nodes_view(old(children)@), t@),
{
    let ghost old_seq = children@;
    let ghost old_v = nodes_view(children@);
    match children.pop() {
        Some(Node::Text { value }) => {
            let ghost rest = children@;
            let ghost v0 = value@;
            assert(old_seq == rest.push(Node::Text { value }));
            assert(old_seq.drop_last() == rest);
            assert(old_seq.len() > 0);
            assert(old_seq.last() == Node::Text { value });
            assert(crate::model::node_view(Node::Text { value }) == NodeModel::Text(v0));
            assert(old_v == nodes_view(rest).push(NodeModel::Text(v0)));
            let mut value = value;
            value.append(t.as_str());
            assert(value@ == v0 + t@);
            let node = Node::Text { value };
            assert(crate::model::node_view(node) == NodeModel::Text(v0 + t@));
            children.push(node);
            assert(children@.drop_last() == rest);
            assert(children@.last() == node);
            assert(nodes_view(children@) == nodes_view(rest).push(NodeModel::Text(v0 + t@)));
            assert(old_v.drop_last() == nodes_view(rest));
            assert(old_v.last() == NodeModel::Text(v0));
            assert(nodes_view(children@) == append_text(old_v, t@));
        },
        Some(other) => {
            let ghost rest = children@;
            assert(old_seq == rest.push(other));
            children.push(other);
            assert(children@ == old_seq);
            assert(old_seq.drop_last() == rest);
            assert(old_v == nodes_view(rest).push(crate::model::node_view(other)));
            assert(!(crate::model::node_view(other) is Text));
            if !t.as_str().is_empty() {
                let ghost mid = children@;
                let ghost tv = t@;
                let node = Node::Text { value: t };
                assert(crate::model::node_view(node) == NodeModel::Text(tv));
                children.push(node);
                assert(children@.drop_last() == mid);
                assert(children@.last() == node);
                assert(nodes_view(children@) == old_v.push(NodeModel::Text(tv)));
            }
            assert(nodes_view(children@) == append_text(old_v, t@));
        },
        None => {
            assert(old_seq.len() == 0);
            assert(old_v == Seq::<NodeModel>::empty());
            if !t.as_str().is_empty() {
                let ghost mid = children@;
                let ghost tv = t@;
                let node = Node::Text { value: t };
                assert(crate::model::node_view(node) == NodeModel::Text(tv));
                children.push(node);
                assert(children@.drop_last() == mid);
                assert(children@.last() == node);
                assert(nodes_view(children@) == old_v.push(NodeModel::Text(tv)));
            }
            assert(nodes_view(children@) == append_text(old_v, t@));
        },
    }
}

impl Parser {
    fn new() -> (p: Parser)
        ensures
            p@ == initial(),
    {
        let p = Parser { stack: Vec::new(), pending: None, result: None, ids: Vec::new(), variables: Vec::new() };
        assert(p@.stack == Seq::<FrameModel>::empty());
        assert(p@.ids == Seq::<Seq<char>>::empty());
        assert(p@.variables == Seq::<Seq<char>>::empty());
        p
    }
}

/// Whether two strings are equal.
pub fn str_is(s: &str, lit: &str) -> (r: bool)
    ensures
        r == (s@ == lit@),
{
    let c = chars_of(s);
    assert(c@.subrange(0, c@.len() as int) == c@);
    eq_lit(&c, 0, c.len(), lit)
}

impl Attrs {
    fn is_set(&self, c: &Vec<char>, a: usize, b: usize) -> (r: bool)
        requires
            a <= b <= c@.len(),
        ensures
            r == (attribute_value(self@, c@.subrange(a as int, b as int)) is Some),
    {
        if eq_lit(c, a, b, "version") {
            self.version.is_some()
        } else if eq_lit(c, a, b, "tokenizer") {
            self.tokenizer.is_some()
        } else if eq_lit(c, a, b, "id") {
            self.id.is_some()
        } else if eq_lit(c, a, b, "max-tokens") {
            self.max_tokens.is_some()
        } else if eq_lit(c, a, b, "per-item") {
            self.per_item.is_some()
        } else if eq_lit(c, a, b, "reason") {
            self.reason.is_some()
        } else {
            self.sig.is_some()
        }
    }

    fn set(&mut self, c: &Vec<char>, a: usize, b: usize, v: String)
        requires
            a <= b <= c@.len(),
        ensures
            final(self)@ == with_attribute(old(self)@, c@.subrange(a as int, b as int), v@),
    {
        if eq_lit(c, a, b, "version") {
            self.version = Some(v);
        } else if eq_lit(c, a, b, "tokenizer") {
            self.tokenizer = Some(v);
        } else if eq_lit(c, a, b, "id") {
            self.id = Some(v);
        } else if eq_lit(c, a, b, "max-tokens") {
            self.max_tokens = Some(v);
        } else if eq_lit(c, a, b, "per-item") {
            self.per_item = Some(v);
        } else if eq_lit(c, a, b, "reason") {
            self.reason = Some(v);
        } else {
            self.sig = Some(v);
        }
    }
}

fn allowed(root: bool, c: &Vec<char>, a: usize, b: usize) -> (r: bool)
    requires
        a <= b <= c@.len(),
    ensures
        r == attribute_allowed(root, c@.subrange(a as int, b as int)),
{
    if root {
        eq_lit(c, a, b, "version") || eq_lit(c, a, b, "tokenizer") || eq_lit(c, a, b, "max-tokens")
            || eq_lit(c, a, b, "per-item") || eq_lit(c, a, b, "reason") || eq_lit(c, a, b, "sig")
    } else {
        eq_lit(c, a, b, "id") || eq_lit(c, a, b, "max-tokens") || eq_lit(c, a, b, "per-item")
            || eq_lit(c, a, b, "reason") || eq_lit(c, a, b, "sig")
    }
}

fn limit_value(s: &Option<String>, position: Position) -> (r: Result<Option<u64>, Diagnostic>)
    ensures
        match (r, opt_str(*s)) {
            (Ok(v), None) => v is None,
            (Ok(v), Some(t)) => spec_parse_limit(t) is Some && v == spec_parse_limit(t),
            (Err(d), Some(t)) => spec_parse_limit(t) is None && d@ == diag(
                "limit"@,
                limit_error(t),
                position,
            ),
            (Err(_), None) => false,
        },
{
    match s {
        None => Ok(None),
        Some(t) => match parse_limit(t.as_str()) {
            Ok(n) => Ok(Some(n)),
            Err(e) => Err(Diagnostic::new("limit", e, position)),
        },
    }
}

fn frame_limits_of(f: &Frame) -> (r: Result<Limits, Diagnostic>)
    ensures
        match (r, frame_limits(f@)) {
            (Ok(l), Ok(m)) => l@ == m,
            (Err(d), Err(x)) => d@ == x,
            _ => false,
        },
{
    let max = match limit_value(&f.attrs.max_tokens, f.position) {
        Ok(v) => v,
        Err(d) => {
            return Err(d);
        },
    };
    let item = match limit_value(&f.attrs.per_item, f.position) {
        Ok(v) => v,
        Err(d) => {
            return Err(d);
        },
    };
    let reason = copy_opt(&f.attrs.reason);
    let sig = copy_opt(&f.attrs.sig);
    let missing = match &reason {
        None => true,
        Some(r) => is_blank_str(r.as_str()),
    };
    if (max.is_some() || item.is_some()) && missing {
        return Err(
            Diagnostic::new(
                "reason",
                String::from_str("Every declared token limit requires a nonblank reason"),
                f.position,
            ),
        );
    }
    Ok(Limits { max_tokens: max, per_item: item, reason, sig })
}

impl Parser {
    fn finish_frame(&mut self, frame: Frame) -> (r: Result<(), Diagnostic>)
        ensures
            outcome(r, final(self)@) == finish_frame(old(self)@, frame@),
    {
        let limits = match frame_limits_of(&frame) {
            Ok(l) => l,
            Err(d) => {
                return Err(d);
            },
        };
        if frame.root {
            let bad_version = match &frame.attrs.version {
                Some(v) => !str_is(v.as_str(), "0.2"),
                None => false,
            };
            if bad_version {
                return Err(
                    Diagnostic::new("version", String::from_str("Only version 0.2 is supported"), frame.position),
                );
            }
            if limits.max_tokens.is_none() {
                return Err(
                    Diagnostic::new("limit", String::from_str("htmlp requires max-tokens"), frame.position),
                );
            }
            let tokenizer = match &frame.attrs.tokenizer {
                Some(t) => t.clone(),
                None => String::from_str("cl100k_base"),
            };
            if !is_valid_id_str(tokenizer.as_str()) {
                return Err(
                    Diagnostic::new("tokenizer", String::from_str("Invalid tokenizer identifier"), frame.position),
                );
            }
            let position = frame.position;
            self.result = Some(
                Document {
                    version: String::from_str("0.2"),
                    tokenizer,
                    limits,
                    children: frame.children,
                    position,
                },
            );
            Ok(())
        } else {
            let ghost fv = frame@;
            let position = frame.position;
            let node = Node::Section(
                Section { id: frame.attrs.id, limits, children: frame.children, position },
            );
            let ghost old_stack = self.stack@;
            match self.stack.pop() {
                None => Err(Diagnostic::new("root", String::from_str("Missing root"), position)),
                Some(top) => {
                    let mut top = top;
                    let ghost top_before = top@;
                    let ghost ch = top.children@;
                    top.children.push(node);
                    proof {
                        assert(top.children@.drop_last() == ch);
                        assert(top@ == FrameModel {
                            children: top_before.children.push(crate::model::node_view(node)),
                            ..top_before
                        });
                    }
                    self.stack.push(top);
                    proof {
                        assert(old_stack.drop_last() == self.stack@.drop_last());
                        assert(self@.stack == old(self)@.stack.drop_last().push(top@));
                    }
                    Ok(())
                },
            }
        }
    }

    fn start(&mut self, c: &Vec<char>, locs: &mut Locations, span: &std::ops::Range<usize>) -> (r:
        Result<(), Diagnostic>)
        requires
            old(locs).wf(),
            c@ == old(locs).source(),
        ensures
            final(locs).wf(),
            final(locs).source() == old(locs).source(),
            outcome(r, final(self)@) == start_step(c@, old(self)@, *span),
    {
        let p = locs.at_byte(c, span.start);
        let (a, b) = match char_range_of(locs, c, span) {
            None => {
                return Err(malformed_at(p));
            },
            Some(ab) => ab,
        };
        if a >= b {
            return Err(malformed_at(p));
        }
        let is_root = eq_lit(c, a + 1, b, "htmlp");
        let is_section = eq_lit(c, a + 1, b, "section");
        if !(is_root || is_section) {
            return Err(
                Diagnostic::new(
                    "element",
                    String::from_str("Only htmlp and section elements are supported"),
                    p,
                ),
            );
        }
        if self.stack.len() >= 64 {
            return Err(Diagnostic::new("depth", String::from_str("Maximum element depth is 64"), p));
        }
        if (self.stack.len() == 0 && (!is_root || self.result.is_some())) || (self.stack.len() > 0
            && is_root) {
            return Err(Diagnostic::new("root", String::from_str("Expected exactly one htmlp root"), p));
        }
        let frame = Frame { root: is_root, attrs: no_attrs(), children: Vec::new(), position: p };
        assert(frame@.children == Seq::<NodeModel>::empty());
        self.pending = Some(frame);
        Ok(())
    }

    fn attribute(
        &mut self,
        c: &Vec<char>,
        locs: &mut Locations,
        local: &std::ops::Range<usize>,
        value: &std::ops::Range<usize>,
        span: &std::ops::Range<usize>,
    ) -> (r: Result<(), Diagnostic>)
        requires
            old(locs).wf(),
            c@ == old(locs).source(),
        ensures
            final(locs).wf(),
            final(locs).source() == old(locs).source(),
            outcome(r, final(self)@) == attribute_step(c@, old(self)@, *local, *value, *span),
    {
        let p = locs.at_byte(c, span.start);
        let frame = match self.pending.take() {
            None => {
                return Err(Diagnostic::new("syntax", String::from_str("Unexpected attribute"), p));
            },
            Some(f) => f,
        };
        let lr = char_range_of(locs, c, local);
        let vr = char_range_of(locs, c, value);
        let (la, lb, va, vb) = match (lr, vr) {
            (Some((la, lb)), Some((va, vb))) => (la, lb, va, vb),
            _ => {
                return Err(malformed_at(p));
            },
        };
        if local.start != span.start || !allowed(frame.root, c, la, lb) {
            let mut m = String::from_str("Unknown attribute ");
            crate::text::push_range(&mut m, c, la, lb);
            return Err(Diagnostic::new("attribute", m, p));
        }
        let v = match decode_range(c, va, vb) {
            Ok(v) => v,
            Err(m) => {
                let vp = locs.at_byte(c, value.start);
                return Err(Diagnostic::new("entity", m, vp));
            },
        };
        if frame.attrs.is_set(c, la, lb) {
            return Err(Diagnostic::new("attribute", String::from_str("Duplicate attribute"), p));
        }
        let mut frame = frame;
        frame.attrs.set(c, la, lb, v);
        self.pending = Some(frame);
        Ok(())
    }

    fn end(&mut self, c: &Vec<char>, locs: &mut Locations, span: &std::ops::Range<usize>) -> (r:
        Result<(), Diagnostic>)
        requires
            old(locs).wf(),
            c@ == old(locs).source(),
        ensures
            final(locs).wf(),
            final(locs).source() == old(locs).source(),
            outcome(r, final(self)@) == end_step(c@, old(self)@, *span),
    {
        let p = locs.at_byte(c, span.start);
        let (a, b) = match char_range_of(locs, c, span) {
            None => {
                return Err(malformed_at(p));
            },
            Some(ab) => ab,
        };
        let empty = a < b && c[a] == '/';
        let frame = match self.pending.take() {
            None => {
                return Err(Diagnostic::new("syntax", String::from_str("Unexpected opening tag"), p));
            },
            Some(f) => f,
        };
        let ghost ids0 = self@.ids;
        match &frame.attrs.id {
            Some(id) => {
                if !is_valid_id_str(id.as_str()) || contains_string(&self.variables, id)
                    || contains_string(&self.ids, id) {
                    return Err(
                        Diagnostic::new(
                            "id",
                            String::from_str(
                                "IDs must be unique and contain only ASCII letters, digits, _, -, ., or :",
                            ),
                            frame.position,
                        ),
                    );
                }
                let copy = id.clone();
                self.ids.push(copy);
                assert(strings_view(self.ids@) == ids0.push(id@));
            },
            None => {},
        }
        if empty {
            self.finish_frame(frame)
        } else {
            self.stack.push(frame);
            assert(self@.stack == old(self)@.stack.push(frame@));
            Ok(())
        }
    }

    fn close(
        &mut self,
        c: &Vec<char>,
        locs: &mut Locations,
        local: &std::ops::Range<usize>,
        span: &std::ops::Range<usize>,
    ) -> (r: Result<(), Diagnostic>)
        requires
            old(locs).wf(),
            c@ == old(locs).source(),
        ensures
            final(locs).wf(),
            final(locs).source() == old(locs).source(),
            outcome(r, final(self)@) == close_step(c@, old(self)@, *local, *span),
    {
        let p = locs.at_byte(c, span.start);
        if self.stack.len() == 0 {
            return Err(Diagnostic::new("syntax", String::from_str("Unexpected closing tag"), p));
        }
        let (la, lb) = match char_range_of(locs, c, local) {
            None => {
                return Err(malformed_at(p));
            },
            Some(ab) => ab,
        };
        let ghost st = self@;
        let frame = match self.stack.pop() {
            Some(f) => f,
            None => {
                return Err(Diagnostic::new("syntax", String::from_str("Unexpected closing tag"), p));
            },
        };
        assert(frame@ == st.stack.last());
        assert(self@.stack == st.stack.drop_last());
        let expected = if frame.root {
            "htmlp"
        } else {
            "section"
        };
        let prefixed = local.start < span.start || local.start - span.start != 2;
        if prefixed || !eq_lit(c, la, lb, expected) {
            let mut m = String::from_str("Expected </");
            m.append(expected);
            m.append(">, found </");
            crate::text::push_range(&mut m, c, la, lb);
            m.append(">");
            return Err(Diagnostic::new("syntax", m, p));
        }
        self.finish_frame(frame)
    }
}

proof fn lemma_add_nodes_step(st: ParseModel, nodes: Seq<NodeModel>, i: int)
    requires
        0 <= i < nodes.len(),
        st.stack.len() > 0,
    ensures
        add_nodes(st, nodes.skip(i)) == match (match nodes[i] {
            NodeModel::Variable(v) => if st.ids.contains(v.id) {
                Err(diag("variable"@, "Variable name cannot match an element ID"@, v.position))
            } else {
                Ok(
                    ParseModel {
                        stack: st.stack.drop_last().push(
                            FrameModel { children: st.stack.last().children.push(nodes[i]), ..st.stack.last() },
                        ),
                        variables: st.variables.push(v.id),
                        ..st
                    },
                )
            },
            NodeModel::Text(t) => Ok(
                ParseModel {
                    stack: st.stack.drop_last().push(
                        FrameModel { children: append_text(st.stack.last().children, t), ..st.stack.last() },
                    ),
                    ..st
                },
            ),
            NodeModel::Section(_) => Ok(
                ParseModel {
                    stack: st.stack.drop_last().push(
                        FrameModel { children: st.stack.last().children.push(nodes[i]), ..st.stack.last() },
                    ),
                    ..st
                },
            ),
        }) {
            Err(x) => Err(x),
            Ok(s2) => add_nodes(s2, nodes.skip(i + 1)),
        },
{
    assert(nodes.skip(i)[0] == nodes[i]);
    assert(nodes.skip(i).drop_first() == nodes.skip(i + 1));
}

impl Parser {
    /// Replaces the innermost open frame's children.
    fn add_node(&mut self, node: &Node) -> (r: Result<(), Diagnostic>)
        requires
            old(self)@.stack.len() > 0,
        ensures
            final(self)@.stack.len() > 0,
            outcome(r, final(self)@) == (match crate::model::node_view(*node) {
                NodeModel::Variable(v) => if old(self)@.ids.contains(v.id) {
                    Err(diag("variable"@, "Variable name cannot match an element ID"@, v.position))
                } else {
                    Ok(
                        ParseModel {
                            stack: old(self)@.stack.drop_last().push(
                                FrameModel {
                                    children: old(self)@.stack.last().children.push(crate::model::node_view(*node)),
                                    ..old(self)@.stack.last()
                                },
                            ),
                            variables: old(self)@.variables.push(v.id),
                            ..old(self)@
                        },
                    )
                },
                NodeModel::Text(t) => Ok(
                    ParseModel {
                        stack: old(self)@.stack.drop_last().push(
                            FrameModel {
                                children: append_text(old(self)@.stack.last().children, t),
                                ..old(self)@.stack.last()
                            },
                        ),
                        ..old(self)@
                    },
                ),
                NodeModel::Section(_) => Ok(
                    ParseModel {
                        stack: old(self)@.stack.drop_last().push(
                            FrameModel {
                                children: old(self)@.stack.last().children.push(crate::model::node_view(*node)),
                                ..old(self)@.stack.last()
                            },
                        ),
                        ..old(self)@
                    },
                ),
            }),
    {
        let ghost st = self@;
        if let Node::Variable(v) = node {
            if contains_string(&self.ids, &v.id) {
                return Err(
                    Diagnostic::new(
                        "variable",
                        String::from_str("Variable name cannot match an element ID"),
                        v.position,
                    ),
                );
            }
        }
        let mut top = match self.stack.pop() {
            Some(t) => t,
            None => {
                return Ok(());
            },
        };
        assert(top@ == st.stack.last());
        let ghost rest = self.stack@;
        match node {
            Node::Text { value } => {
                append_text_node(&mut top.children, value.clone());
            },
            Node::Variable(v) => {
                let copy = crate::model::copy_node(node);
                let ghost ch = top.children@;
                top.children.push(copy);
                assert(top.children@.drop_last() == ch);
                let id = v.id.clone();
                self.variables.push(id);
                assert(strings_view(self.variables@) == st.variables.push(v.id@));
            },
            Node::Section(_) => {
                let copy = crate::model::copy_node(node);
                let ghost ch = top.children@;
                top.children.push(copy);
                assert(top.children@.drop_last() == ch);
            },
        }
        self.stack.push(top);
        assert(self.stack@.drop_last() == rest);
        assert(self@.stack == st.stack.drop_last().push(top@));
        Ok(())
    }

    fn add_nodes(&mut self, nodes: &Vec<Node>) -> (r: Result<(), Diagnostic>)
        requires
            old(self)@.stack.len() > 0,
        ensures
            outcome(r, final(self)@) == add_nodes(old(self)@, nodes_view(nodes@)),
    {
        let ghost all = nodes_view(nodes@);
        proof {
            crate::model::lemma_nodes_view(nodes@);
            assert(all.skip(0) == all);
        }
        let mut i: usize = 0;
        while i < nodes.len()
            invariant
                i <= nodes@.len(),
                all == nodes_view(nodes@),
                all.len() == nodes@.len(),
                forall|k: int| 0 <= k < nodes@.len() ==> all[k] == crate::model::node_view(nodes@[k]),
                self@.stack.len() > 0,
                add_nodes(old(self)@, all) == add_nodes(self@, all.skip(i as int)),
            decreases nodes@.len() - i,
        {
            proof {
                lemma_add_nodes_step(self@, all, i as int);
            }
            match self.add_node(&nodes[i]) {
                Ok(()) => {},
                Err(d) => {
                    return Err(d);
                },
            }
            i = i + 1;
        }
        proof {
            assert(all.skip(i as int).len() == 0);
        }
        Ok(())
    }

    fn text(&mut self, c: &Vec<char>, locs: &mut Locations, r: &std::ops::Range<usize>) -> (res:
        Result<(), Diagnostic>)
        requires
            old(locs).wf(),
            c@ == old(locs).source(),
        ensures
            final(locs).wf(),
            final(locs).source() == old(locs).source(),
            outcome(res, final(self)@) == text_step(c@, old(self)@, *r),
    {
        let p = locs.at_byte(c, r.start);
        let (a, b) = match char_range_of(locs, c, r) {
            None => {
                return Err(malformed_at(p));
            },
            Some(ab) => ab,
        };
        if self.stack.len() > 0 {
            let nodes = match parse_text(c, locs, a, b, true) {
                Ok(n) => n,
                Err(d) => {
                    return Err(d);
                },
            };
            self.add_nodes(&nodes)
        } else if !is_blank(c, a, b) {
            Err(Diagnostic::new("root", String::from_str("Text must be inside htmlp"), p))
        } else {
            Ok(())
        }
    }

    fn finish(self) -> (r: Result<Document, Diagnostic>)
        ensures
            document_result(r) == finish(self@),
    {
        let ghost st = self@;
        let mut parser = self;
        if parser.stack.len() > 0 {
            let n = parser.stack.len();
            let position = parser.stack[n - 1].position;
            assert(st.stack.last() == parser.stack@[n - 1]@);
            return Err(Diagnostic::new("syntax", String::from_str("Unclosed element"), position));
        }
        match parser.result {
            Some(d) => Ok(d),
            None => Err(Diagnostic::new("root", String::from_str("Missing htmlp root"), Position::unknown())),
        }
    }
}

proof fn lemma_line_starts_prefix(s: Seq<char>, j: int)
    requires
        0 <= j <= s.len(),
    ensures
        line_starts(s.take(j)).len() <= line_starts(s).len(),
        forall|i: int|
            0 <= i < line_starts(s.take(j)).len() ==> #[trigger] line_starts(s)[i] == line_starts(
                s.take(j),
            )[i],
    decreases s.len() - j,
{
    if j == s.len() {
        assert(s.take(j) == s);
    } else {
        let p = s.drop_last();
        lemma_line_starts_prefix(p, j);
        assert(p.take(j) == s.take(j));
    }
}

/// The position of a tokenizer error at one-based row and column.
fn error_position_of(c: &Vec<char>, locs: &mut Locations, row: u32, col: u32) -> (p: Position)
    requires
        old(locs).wf(),
        c@ == old(locs).source(),
    ensures
        final(locs).wf(),
        final(locs).source() == old(locs).source(),
        p == error_position(c@, row, col),
{
    let r: usize = if row > 0 {
        (row - 1) as usize
    } else {
        0
    };
    let k: usize = if col > 0 {
        (col - 1) as usize
    } else {
        0
    };
    let n = c.len();
    let mut j: usize = 0;
    let mut count: usize = 1;
    let mut last: usize = 0;
    proof {
        locs.lemma_small();
    }
    assert(c@.take(0) == Seq::<char>::empty());
    while j < n && count <= r
        invariant
            j <= n == c@.len(),
            n <= MAX_SOURCE_BYTES,
            count == line_starts(c@.take(j as int)).len(),
            count >= 1,
            count <= r + 1,
            last == line_starts(c@.take(j as int)).last(),
            count <= j + 1,
        decreases n - j,
    {
        assert(c@.take(j + 1).drop_last() == c@.take(j as int));
        if c[j] == '\n' {
            count = count + 1;
            last = j + 1;
        }
        j = j + 1;
    }
    proof {
        lemma_line_starts_prefix(c@, j as int);
        if j == n {
            assert(c@.take(j as int) == c@);
        }
    }
    let end = locs.at(c, n);
    assert(c@.take(n as int) == c@);
    if count > r {
        assert(line_starts(c@.take(j as int))[r as int] == last) by {
            // the loop stops as soon as line r starts
            assert(count == r + 1);
        }
        if last < n && n - last > k {
            let q = locs.at(c, last + k);
            Position { line: row as usize, column: col as usize, offset: q.offset }
        } else {
            Position { line: row as usize, column: col as usize, offset: end.offset }
        }
    } else {
        Position { line: row as usize, column: col as usize, offset: end.offset }
    }
}

/// The first character outside `valid_char`.
fn find_invalid(c: &Vec<char>) -> (r: Option<usize>)
    ensures
        r matches Some(i) ==> i < c@.len() && first_invalid(c@) == Some(i as int),
        r is None ==> first_invalid(c@) is None,
{
    let mut i: usize = 0;
    while i < c.len()
        invariant
            i <= c@.len(),
            forall|j: int| 0 <= j < i ==> valid_char(c@[j]),
        decreases c@.len() - i,
    {
        if !is_valid_char(c[i]) {
            proof {
                assert(0 <= i < c@.len() && !valid_char(c@[i as int]) && forall|j: int|
                    0 <= j < i ==> valid_char(c@[j]));
                assert(exists|k: int| 0 <= k < c@.len() && !valid_char(c@[k]));
                let w = choose|k: int|
                    0 <= k < c@.len() && !valid_char(c@[k]) && forall|j: int|
                        0 <= j < k ==> valid_char(c@[j]);
                assert(0 <= w < c@.len() && !valid_char(c@[w]) && forall|j: int|
                    0 <= j < w ==> valid_char(c@[j]));
                if w < i {
                } else if w > i {
                }
            }
            return Some(i);
        }
        i = i + 1;
    }
    None
}

/// A template: literal text with `{{name}}` placeholders, at most 4 MiB, of
/// allowed characters. Nothing but placeholders is special.
pub open spec fn template_nodes(src: Seq<char>) -> Result<Seq<NodeModel>, DiagnosticModel> {
    if byte_len(src) > MAX_SOURCE_BYTES {
        Err(diag("source-size"@, "Template exceeds 4 MiB"@, Position::zero()))
    } else {
        match first_invalid(src) {
            Some(i) => Err(diag("character"@, "Invalid control character"@, position_at_char(src, i))),
            None => text_nodes(src, 0, src.len() as int, false),
        }
    }
}

/// Parse Rust text interpolation into the same nodes as markup placeholders.
/// Only `{{name}}` is special. Other text, including `<` and `&`, is literal.
pub fn parse_template(source: &str) -> (r: Result<Vec<Node>, Diagnostic>)
    ensures
        nodes_result(r) == template_nodes(source@),
{
    if source.len() > MAX_SOURCE_BYTES {
        proof {
            crate::locations::lemma_len_exceeds(source);
        }
        return Err(
            Diagnostic::new("source-size", String::from_str("Template exceeds 4 MiB"), Position::unknown()),
        );
    }
    let c = chars_of(source);
    if !within_source_limit(&c) {
        return Err(
            Diagnostic::new("source-size", String::from_str("Template exceeds 4 MiB"), Position::unknown()),
        );
    }
    let mut locs = Locations::new(&c);
    match find_invalid(&c) {
        Some(i) => {
            let p = locs.at(&c, i);
            return Err(Diagnostic::new("character", String::from_str("Invalid control character"), p));
        },
        None => {},
    }
    parse_text(&c, &mut locs, 0, c.len(), false)
}

/// Markup parsed from a token stream of `source`: the size and character
/// checks, then every token in order, then the final checks.
pub fn parse_tokens(source: &str, tokens: &Vec<XmlToken>) -> (r: Result<Document, Diagnostic>)
    ensures
        document_result(r) == parse_from(source@, tokens@),
{
    if source.len() > MAX_SOURCE_BYTES {
        proof {
            crate::locations::lemma_len_exceeds(source);
        }
        return Err(
            Diagnostic::new("source-size", String::from_str("Source exceeds 4 MiB"), Position::unknown()),
        );
    }
    let c = chars_of(source);
    if !within_source_limit(&c) {
        return Err(
            Diagnostic::new("source-size", String::from_str("Source exceeds 4 MiB"), Position::unknown()),
        );
    }
    let mut locs = Locations::new(&c);
    match find_invalid(&c) {
        Some(i) => {
            let p = locs.at(&c, i);
            return Err(Diagnostic::new("character", String::from_str("Invalid control character"), p));
        },
        None => {},
    }
    assert(first_invalid(c@) is None);
    let mut parser = Parser::new();
    let mut k: usize = 0;
    assert(tokens@.skip(0) == tokens@);
    while k < tokens.len()
        invariant
            k <= tokens@.len(),
            locs.wf(),
            locs.source() == c@,
            c@ == source@,
            byte_len(c@) <= MAX_SOURCE_BYTES,
            first_invalid(c@) is None,
            run(c@, initial(), tokens@) == run(c@, parser@, tokens@.skip(k as int)),
        decreases tokens@.len() - k,
    {
        let ghost before = parser@;
        assert(tokens@.skip(k as int)[0] == tokens@[k as int]);
        assert(tokens@.skip(k as int).drop_first() == tokens@.skip(k + 1));
        let res = match &tokens[k] {
            XmlToken::Start(span) => parser.start(&c, &mut locs, span),
            XmlToken::Attr(local, value, span) => parser.attribute(&c, &mut locs, local, value, span),
            XmlToken::End(span) => parser.end(&c, &mut locs, span),
            XmlToken::Close(local, span) => parser.close(&c, &mut locs, local, span),
            XmlToken::Text(r) => parser.text(&c, &mut locs, r),
            XmlToken::Comment => Ok(()),
            XmlToken::Unsupported => Err(
                Diagnostic::new(
                    "syntax",
                    String::from_str(
                        "DOCTYPE, declarations, CDATA, and processing instructions are not supported",
                    ),
                    Position::unknown(),
                ),
            ),
            XmlToken::Fail(row, col, message) => {
                let p = error_position_of(&c, &mut locs, *row, *col);
                Err(Diagnostic::new("syntax", message.clone(), p))
            },
        };
        assert(outcome(res, parser@) == step(c@, before, tokens@[k as int]));
        match res {
            Ok(()) => {},
            Err(d) => {
                return Err(d);
            },
        }
        k = k + 1;
    }
    assert(tokens@.skip(k as int).len() == 0);
    parser.finish()
}

/// Parse strict HTML-inspired markup. XML-only constructs, namespaces, unknown
/// elements and attributes, and implicit repair are rejected. Empty elements
/// may use self-closing tags. Markdown indentation is preserved, not rewritten.
pub fn parse(source: &str) -> (r: Result<Document, Diagnostic>)
    ensures
        document_result(r) == spec_parse(source@),
{
    if source.len() > MAX_SOURCE_BYTES {
        return Err(
            Diagnostic::new("source-size", String::from_str("Source exceeds 4 MiB"), Position::unknown()),
        );
    }
    let tokens = scan_xml(source);
    parse_tokens(source, &tokens)
}

} // verus!
