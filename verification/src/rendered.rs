//! Checked rendering: immutable text, its exact token count, the budget
//! report, and the section provenance of every span of the text.
use vstd::prelude::*;
use vstd::string::*;
use vstd::utf8::*;

use crate::assoc::{assoc_find, assoc_map, lemma_assoc_push};
use crate::check::{
    bindings_view, bound, document_report, flat_tokens, join, nodes_flat, node_flat,
    render_with_report, rendered_view, spec_render_report, TokenCounter,
};
use crate::format::copy_opt;
use crate::locations::{byte_len, byte_length};
use crate::model::{
    diags_view, lemma_nodes_view, lemma_take_next, node_view, nodes_view, opt_str, Bindings, Diagnostic,
    DiagnosticModel, Document, DocumentModel, Node, NodeModel, Position, Report, ReportModel,
    SectionModel,
};

verus! {

broadcast use lemma_nodes_view;

/// A tokenizer-specific count of a complete rendered document, excluding
/// provider message framing. Distinct from a runtime request estimate.
#[derive(Debug, Clone, PartialEq, Eq)]
pub struct TextMeasurement {
    pub tokenizer: String,
    pub tokens: u64,
}

pub struct TextMeasurementModel {
    pub tokenizer: Seq<char>,
    pub tokens: u64,
}

impl View for TextMeasurement {
    type V = TextMeasurementModel;

    open spec fn view(&self) -> TextMeasurementModel {
        TextMeasurementModel { tokenizer: self.tokenizer@, tokens: self.tokens }
    }
}

/// A containing section, including unnamed sections and their source position.
#[derive(Debug, Clone, PartialEq, Eq)]
pub struct SectionOrigin {
    pub id: Option<String>,
    pub position: Position,
}

pub struct OriginModel {
    pub id: Option<Seq<char>>,
    pub position: Position,
}

impl View for SectionOrigin {
    type V = OriginModel;

    open spec fn view(&self) -> OriginModel {
        OriginModel { id: opt_str(self.id), position: self.position }
    }
}

pub open spec fn origins_view(s: Seq<SectionOrigin>) -> Seq<OriginModel> {
    s.map_values(|o: SectionOrigin| o@)
}

/// Non-overlapping UTF-8 byte span in the final text. Section ancestry preserves
/// nesting without counting a parent's text a second time. Variables remain
/// literal values and inherit their containing section's attribution.
#[derive(Debug, PartialEq, Eq)]
pub struct RenderedSpan {
    pub range: std::ops::Range<usize>,
    pub sections: Vec<SectionOrigin>,
    pub variable: Option<String>,
}

pub struct SpanModel {
    pub start: int,
    pub end: int,
    pub sections: Seq<OriginModel>,
    pub variable: Option<Seq<char>>,
}

impl View for RenderedSpan {
    type V = SpanModel;

    open spec fn view(&self) -> SpanModel {
        SpanModel {
            start: self.range.start as int,
            end: self.range.end as int,
            sections: origins_view(self.sections@),
            variable: opt_str(self.variable),
        }
    }
}

fn copy_origins(v: &Vec<SectionOrigin>) -> (r: Vec<SectionOrigin>)
    ensures
        origins_view(r@) == origins_view(v@),
{
    let mut r: Vec<SectionOrigin> = Vec::new();
    let mut i: usize = 0;
    while i < v.len()
        invariant
            i <= v@.len(),
            r@.len() == i,
            forall|j: int| 0 <= j < i ==> #[trigger] r@[j]@ == v@[j]@,
        decreases v@.len() - i,
    {
        r.push(SectionOrigin { id: copy_opt(&v[i].id), position: v[i].position });
        i = i + 1;
    }
    assert(origins_view(r@) =~= origins_view(v@));
    r
}

impl Clone for RenderedSpan {
    fn clone(&self) -> (r: RenderedSpan)
        ensures
            r@ == self@,
    {
        RenderedSpan {
            range: self.range.start..self.range.end,
            sections: copy_origins(&self.sections),
            variable: copy_opt(&self.variable),
        }
    }
}

pub open spec fn spans_view(s: Seq<RenderedSpan>) -> Seq<SpanModel> {
    s.map_values(|r: RenderedSpan| r@)
}

/// Immutable output of a complete successful validation. No constructor or
/// deserializer can fabricate checked output. Extracted text is ordinary text;
/// modifying it does not preserve this object's validation guarantee.
#[derive(Debug, Clone)]
pub struct RenderedPrompt {
    text: String,
    measurement: TextMeasurement,
    report: Report,
    spans: Vec<RenderedSpan>,
    sections: Vec<(String, String)>,
}

pub struct PromptModel {
    pub text: Seq<char>,
    pub measurement: TextMeasurementModel,
    pub report: ReportModel,
    pub spans: Seq<SpanModel>,
    /// The text of each named section.
    pub sections: Map<Seq<char>, Seq<char>>,
}

impl View for RenderedPrompt {
    type V = PromptModel;

    closed spec fn view(&self) -> PromptModel {
        PromptModel {
            text: self.text@,
            measurement: self.measurement@,
            report: self.report@,
            spans: spans_view(self.spans@),
            sections: assoc_map(self.sections@),
        }
    }
}

/// Text and spans of the text rendered so far.
pub struct SpanState {
    pub text: Seq<char>,
    pub spans: Seq<SpanModel>,
}

/// Appends one text or variable value; a nonempty one becomes a span.
pub open spec fn add_leaf(
    st: SpanState,
    t: Seq<char>,
    ancestry: Seq<OriginModel>,
    variable: Option<Seq<char>>,
) -> SpanState {
    SpanState {
        text: st.text + t,
        spans: if t.len() > 0 {
            st.spans.push(
                SpanModel {
                    start: byte_len(st.text) as int,
                    end: byte_len(st.text + t) as int,
                    sections: ancestry,
                    variable,
                },
            )
        } else {
            st.spans
        },
    }
}

pub open spec fn origin_of(s: SectionModel) -> OriginModel {
    OriginModel { id: s.id, position: s.position }
}

/// Renders one node inside the sections `ancestry`, outermost first.
pub open spec fn span_node(
    n: NodeModel,
    b: Map<Seq<char>, Seq<char>>,
    ancestry: Seq<OriginModel>,
    st: SpanState,
) -> SpanState
    decreases n,
{
    match n {
        NodeModel::Text(t) => add_leaf(st, t, ancestry, None),
        NodeModel::Variable(v) => add_leaf(st, bound(b, v.id), ancestry, Some(v.id)),
        NodeModel::Section(s) => span_nodes(s.children, b, ancestry.push(origin_of(s)), st),
    }
}

pub open spec fn span_nodes(
    ns: Seq<NodeModel>,
    b: Map<Seq<char>, Seq<char>>,
    ancestry: Seq<OriginModel>,
    st: SpanState,
) -> SpanState
    decreases ns,
{
    if ns.len() == 0 {
        st
    } else {
        span_node(ns.last(), b, ancestry, span_nodes(ns.drop_last(), b, ancestry, st))
    }
}

/// The text of every named section, in the order sections end.
pub open spec fn section_node(
    n: NodeModel,
    b: Map<Seq<char>, Seq<char>>,
    m: Map<Seq<char>, Seq<char>>,
) -> Map<Seq<char>, Seq<char>>
    decreases n,
{
    match n {
        NodeModel::Section(s) => {
            let inner = section_nodes(s.children, b, m);
            match s.id {
                Some(id) => inner.insert(id, nodes_flat(s.children, Some(b)).text),
                None => inner,
            }
        },
        _ => m,
    }
}

pub open spec fn section_nodes(
    ns: Seq<NodeModel>,
    b: Map<Seq<char>, Seq<char>>,
    m: Map<Seq<char>, Seq<char>>,
) -> Map<Seq<char>, Seq<char>>
    decreases ns,
{
    if ns.len() == 0 {
        m
    } else {
        section_node(ns.last(), b, section_nodes(ns.drop_last(), b, m))
    }
}

/// The tokens of a bound document: zero when it holds nothing, else the
/// count of its text.
pub open spec fn bound_tokens<C: TokenCounter>(d: DocumentModel, b: Map<Seq<char>, Seq<char>>, c: C) -> u64 {
    match flat_tokens(nodes_flat(d.children, Some(b)), c) {
        Some(t) => t,
        None => 0,
    }
}

/// What `render_checked` returns: the diagnostics of a failed render, or the
/// text, its measurement, the report, the spans and the section texts.
pub open spec fn spec_render_checked<C: TokenCounter>(
    d: DocumentModel,
    b: Map<Seq<char>, Seq<char>>,
    c: C,
) -> Result<PromptModel, Seq<DiagnosticModel>> {
    match spec_render_report(d, b, c) {
        Err(e) => Err(e),
        Ok((text, report)) => Ok(
            PromptModel {
                text,
                measurement: TextMeasurementModel {
                    tokenizer: c.spec_name(),
                    tokens: bound_tokens(d, b, c),
                },
                report,
                spans: span_nodes(
                    d.children,
                    b,
                    Seq::empty(),
                    SpanState { text: Seq::empty(), spans: Seq::empty() },
                ).spans,
                sections: section_nodes(d.children, b, Map::empty()),
            },
        ),
    }
}

pub open spec fn prompt_view(r: Result<RenderedPrompt, Vec<Diagnostic>>) -> Result<
    PromptModel,
    Seq<DiagnosticModel>,
> {
    match r {
        Ok(p) => Ok(p@),
        Err(e) => Err(diags_view(e@)),
    }
}

proof fn lemma_span_text_node(n: NodeModel, b: Map<Seq<char>, Seq<char>>, ancestry: Seq<OriginModel>, st: SpanState)
    ensures
        span_node(n, b, ancestry, st).text == st.text + node_flat(n, Some(b)).text,
    decreases n,
{
    match n {
        NodeModel::Section(s) => {
            lemma_span_text(s.children, b, ancestry.push(origin_of(s)), st);
        },
        _ => {},
    }
}

proof fn lemma_span_text(ns: Seq<NodeModel>, b: Map<Seq<char>, Seq<char>>, ancestry: Seq<OriginModel>, st: SpanState)
    ensures
        span_nodes(ns, b, ancestry, st).text == st.text + nodes_flat(ns, Some(b)).text,
    decreases ns,
{
    if ns.len() == 0 {
        assert(st.text + Seq::<char>::empty() =~= st.text);
    } else {
        lemma_span_text(ns.drop_last(), b, ancestry, st);
        let mid = span_nodes(ns.drop_last(), b, ancestry, st);
        lemma_span_text_node(ns.last(), b, ancestry, mid);
        assert(st.text + nodes_flat(ns, Some(b)).text =~= st.text + nodes_flat(ns.drop_last(), Some(b)).text
            + node_flat(ns.last(), Some(b)).text);
    }
}


/// The text of `nodes` with `bindings` substituted.
fn subtree_text(nodes: &Vec<Node>, bindings: &Bindings) -> (t: String)
    ensures
        t@ == nodes_flat(nodes_view(nodes@), Some(bindings@)).text,
    decreases nodes,
{
    let ghost ns = nodes_view(nodes@);
    let ghost b = Some(bindings@);
    let mut t = String::new();
    let mut i: usize = 0;
    while i < nodes.len()
        invariant
            i <= nodes@.len(),
            ns == nodes_view(nodes@),
            ns.len() == nodes@.len(),
            b == Some(bindings@),
            t@ == nodes_flat(ns.take(i as int), b).text,
        decreases nodes@.len() - i,
    {
        proof {
            lemma_take_next(ns, i as int);
            assert(ns[i as int] == node_view(nodes@[i as int]));
            let k = ns.take(i + 1);
            assert(k.len() == i + 1);
            assert(nodes_flat(k, b) == join(nodes_flat(k.drop_last(), b), node_flat(k.last(), b)));
        }
        match &nodes[i] {
            Node::Text { value } => t.append(value.as_str()),
            Node::Variable(v) => match bindings.get(v.id.as_str()) {
                Some(value) => t.append(value.as_str()),
                None => {
                    assert(t@ =~= t@ + Seq::<char>::empty());
                },
            },
            Node::Section(s) => {
                assert(decreases_to!(nodes => nodes@[i as int]));
                let inner = subtree_text(&s.children, bindings);
                t.append(inner.as_str());
            },
        }
        i = i + 1;
    }
    assert(ns.take(nodes@.len() as int) == ns);
    t
}


fn push_leaf(
    out: &mut String,
    spans: &mut Vec<RenderedSpan>,
    value: &str,
    ancestry: &Vec<SectionOrigin>,
    variable: Option<String>,
)
    ensures
        (SpanState { text: final(out)@, spans: spans_view(final(spans)@) }) == add_leaf(
            (SpanState { text: old(out)@, spans: spans_view(old(spans)@) }),
            value@,
            origins_view(ancestry@),
            opt_str(variable),
        ),
{
    let start = byte_length(out.as_str());
    out.append(value);
    let end = byte_length(out.as_str());
    if !value.is_empty() {
        let span = RenderedSpan { range: start..end, sections: copy_origins(ancestry), variable };
        spans.push(span);
        assert(spans_view(spans@) =~= spans_view(old(spans)@).push(span@));
    }
}

/// Renders `nodes` inside the sections `ancestry`, recording spans and the
/// text of every named section.
fn span_walk(
    nodes: &Vec<Node>,
    bindings: &Bindings,
    ancestry: &mut Vec<SectionOrigin>,
    out: &mut String,
    spans: &mut Vec<RenderedSpan>,
    sections: &mut Vec<(String, String)>,
)
    ensures
        origins_view(final(ancestry)@) == origins_view(old(ancestry)@),
        (SpanState { text: final(out)@, spans: spans_view(final(spans)@) }) == span_nodes(
            nodes_view(nodes@),
            bindings@,
            origins_view(old(ancestry)@),
            (SpanState { text: old(out)@, spans: spans_view(old(spans)@) }),
        ),
        assoc_map(final(sections)@) == section_nodes(nodes_view(nodes@), bindings@, assoc_map(old(sections)@)),
    decreases nodes,
{
    let ghost ns = nodes_view(nodes@);
    let ghost anc = origins_view(ancestry@);
    let ghost st0 = SpanState { text: out@, spans: spans_view(spans@) };
    let ghost m0 = assoc_map(sections@);
    let mut i: usize = 0;
    while i < nodes.len()
        invariant
            i <= nodes@.len(),
            ns == nodes_view(nodes@),
            ns.len() == nodes@.len(),
            origins_view(ancestry@) == anc,
            (SpanState { text: out@, spans: spans_view(spans@) }) == span_nodes(ns.take(i as int), bindings@, anc, st0),
            assoc_map(sections@) == section_nodes(ns.take(i as int), bindings@, m0),
        decreases nodes@.len() - i,
    {
        proof {
            lemma_take_next(ns, i as int);
            assert(ns[i as int] == node_view(nodes@[i as int]));
            let k = ns.take(i + 1);
            assert(k.len() == i + 1);
            assert(span_nodes(k, bindings@, anc, st0) == span_node(
                k.last(),
                bindings@,
                anc,
                span_nodes(k.drop_last(), bindings@, anc, st0),
            ));
            assert(section_nodes(k, bindings@, m0) == section_node(
                k.last(),
                bindings@,
                section_nodes(k.drop_last(), bindings@, m0),
            ));
        }
        match &nodes[i] {
            Node::Text { value } => push_leaf(out, spans, value.as_str(), ancestry, None),
            Node::Variable(v) => {
                let value: &str = match bindings.get(v.id.as_str()) {
                    Some(value) => value.as_str(),
                    None => "",
                };
                proof {
                    reveal_strlit("");
                }
                push_leaf(out, spans, value, ancestry, Some(v.id.clone()));
            },
            Node::Section(s) => {
                let origin = SectionOrigin { id: copy_opt(&s.id), position: s.position };
                let ghost before = ancestry@;
                ancestry.push(origin);
                assert(origins_view(ancestry@) =~= anc.push(origin_of(s@)));
                assert(decreases_to!(nodes => nodes@[i as int]));
                span_walk(&s.children, bindings, ancestry, out, spans, sections);
                let ghost full = ancestry@;
                let _ = ancestry.pop();
                proof {
                    assert(origins_view(full) == anc.push(origin_of(s@)));
                    assert(ancestry@ == full.drop_last());
                    assert forall|j: int| 0 <= j < anc.len() implies origins_view(ancestry@)[j] == anc[j] by {
                        assert(origins_view(full)[j] == full[j]@);
                    }
                    assert(origins_view(ancestry@) =~= anc);
                }
                match &s.id {
                    Some(id) => {
                        let text = subtree_text(&s.children, bindings);
                        let entry = (id.clone(), text);
                        proof {
                            lemma_assoc_push(sections@, entry);
                        }
                        sections.push(entry);
                    },
                    None => {},
                }
            },
        }
        i = i + 1;
    }
    assert(ns.take(nodes@.len() as int) == ns);
}

/// Bind and validate the entire document, returning immutable text, exact
/// tokenizer measurement, budget report, and non-overlapping section provenance.
pub fn render_checked<C: TokenCounter>(doc: &Document, bindings: &Bindings, counter: &C) -> (r: Result<
    RenderedPrompt,
    Vec<Diagnostic>,
>)
    requires
        crate::check::render_countable(doc@, bindings@, *counter),
    ensures
        prompt_view(r) == spec_render_checked(doc@, bindings@, *counter),
{
    let (text, report) = match render_with_report(doc, bindings, counter) {
        Ok(rendered) => rendered,
        Err(e) => return Err(e),
    };
    let n = report.measurements.len();
    proof {
        assert(report@.measurements.len() == n);
        assert(n > 0);
    }
    proof {
        let dr = document_report(doc@, Some(bindings@), *counter);
        assert(report@ == dr);
        assert(report@.measurements[n - 1] == report.measurements@[n - 1]@);
    }
    let tokens = match report.measurements[n - 1].tokens {
        Some(t) => t,
        None => 0,
    };
    let mut out = String::new();
    let mut spans: Vec<RenderedSpan> = Vec::new();
    let mut sections: Vec<(String, String)> = Vec::new();
    let mut ancestry: Vec<SectionOrigin> = Vec::new();
    proof {
        assert(origins_view(ancestry@) =~= Seq::<OriginModel>::empty());
        assert(spans_view(spans@) =~= Seq::<SpanModel>::empty());
        assert(assoc_map(sections@) == Map::<Seq<char>, Seq<char>>::empty());
    }
    span_walk(&doc.children, bindings, &mut ancestry, &mut out, &mut spans, &mut sections);
    let measurement = TextMeasurement { tokenizer: String::from_str(counter.name()), tokens };
    let prompt = RenderedPrompt { text, measurement, report, spans, sections };
    Ok(prompt)
}

impl RenderedPrompt {
    pub fn text(&self) -> (t: &str)
        ensures
            t@ == self@.text,
    {
        self.text.as_str()
    }

    pub fn measurement(&self) -> (m: &TextMeasurement)
        ensures
            m@ == self@.measurement,
    {
        &self.measurement
    }

    pub fn report(&self) -> (r: &Report)
        ensures
            r@ == self@.report,
    {
        &self.report
    }

    pub fn spans(&self) -> (s: &[RenderedSpan])
        ensures
            spans_view(s@) == self@.spans,
    {
        self.spans.as_slice()
    }

    /// Select from an already checked whole document. Ancestor and sibling
    /// budgets were validated before any section became available.
    pub fn section(&self, id: &str) -> (r: Option<&str>)
        ensures
            match r {
                Some(t) => self@.sections.dom().contains(id@) && t@ == self@.sections[id@],
                None => !self@.sections.dom().contains(id@),
            },
    {
        match assoc_find(&self.sections, id) {
            Some(i) => Some(self.sections[i].1.as_str()),
            None => None,
        }
    }

    pub fn into_text(self) -> (t: String)
        ensures
            t@ == self@.text,
    {
        self.text
    }
}

// ---------------------------------------------------------------------------
// Laws

/// Spans are nonempty, follow one another without gap or overlap, and cover
/// the UTF-8 bytes `0..end`.
pub open spec fn partitions(spans: Seq<SpanModel>, end: int) -> bool {
    &&& forall|i: int| 0 <= i < spans.len() ==> (#[trigger] spans[i]).start < spans[i].end
    &&& forall|i: int| 0 <= i < spans.len() - 1 ==> (#[trigger] spans[i]).end == spans[i + 1].start
    &&& spans.len() == 0 ==> end == 0
    &&& spans.len() > 0 ==> spans[0].start == 0 && spans.last().end == end
}

proof fn lemma_leaf_partitions(st: SpanState, t: Seq<char>, ancestry: Seq<OriginModel>, variable: Option<Seq<char>>)
    requires
        partitions(st.spans, byte_len(st.text) as int),
    ensures
        partitions(add_leaf(st, t, ancestry, variable).spans, byte_len(add_leaf(st, t, ancestry, variable).text) as int),
{
    crate::locations::lemma_byte_len_concat(st.text, t);
    if t.len() == 0 {
        assert(st.text + t =~= st.text);
    } else {
        let r = add_leaf(st, t, ancestry, variable);
        let n = st.spans.len();
        assert(r.spans[n as int].start == byte_len(st.text));
        if n > 0 {
            assert(r.spans[n - 1] == st.spans[n - 1]);
        }
        assert forall|i: int| 0 <= i < r.spans.len() implies (#[trigger] r.spans[i]).start < r.spans[i].end by {
            if i < n {
                assert(r.spans[i] == st.spans[i]);
            }
        }
        assert forall|i: int| 0 <= i < r.spans.len() - 1 implies (#[trigger] r.spans[i]).end == r.spans[i + 1].start by {
            if i + 1 < n {
                assert(r.spans[i] == st.spans[i]);
                assert(r.spans[i + 1] == st.spans[i + 1]);
            } else {
                assert(r.spans[i] == st.spans[i]);
            }
        }
        if n > 0 {
            assert(r.spans[0] == st.spans[0]);
        }
    }
}

proof fn lemma_node_partitions(n: NodeModel, b: Map<Seq<char>, Seq<char>>, ancestry: Seq<OriginModel>, st: SpanState)
    requires
        partitions(st.spans, byte_len(st.text) as int),
    ensures
        partitions(span_node(n, b, ancestry, st).spans, byte_len(span_node(n, b, ancestry, st).text) as int),
    decreases n,
{
    match n {
        NodeModel::Text(t) => lemma_leaf_partitions(st, t, ancestry, None),
        NodeModel::Variable(v) => lemma_leaf_partitions(st, bound(b, v.id), ancestry, Some(v.id)),
        NodeModel::Section(s) => lemma_nodes_partitions(s.children, b, ancestry.push(origin_of(s)), st),
    }
}

proof fn lemma_nodes_partitions(ns: Seq<NodeModel>, b: Map<Seq<char>, Seq<char>>, ancestry: Seq<OriginModel>, st: SpanState)
    requires
        partitions(st.spans, byte_len(st.text) as int),
    ensures
        partitions(span_nodes(ns, b, ancestry, st).spans, byte_len(span_nodes(ns, b, ancestry, st).text) as int),
    decreases ns,
{
    if ns.len() > 0 {
        lemma_nodes_partitions(ns.drop_last(), b, ancestry, st);
        lemma_node_partitions(ns.last(), b, ancestry, span_nodes(ns.drop_last(), b, ancestry, st));
    }
}

/// Provenance without double counting: the spans of a checked render are
/// nonempty, consecutive and together cover exactly the bytes of its text.
pub proof fn law_spans_partition_the_text<C: TokenCounter>(d: DocumentModel, b: Map<Seq<char>, Seq<char>>, c: C)
    ensures
        match spec_render_checked(d, b, c) {
            Ok(p) => partitions(p.spans, byte_len(p.text) as int),
            Err(_) => true,
        },
{
    let st = SpanState { text: Seq::empty(), spans: Seq::empty() };
    assert(encode_utf8(Seq::<char>::empty()) == Seq::<u8>::empty());
    lemma_nodes_partitions(d.children, b, Seq::empty(), st);
    lemma_span_text(d.children, b, Seq::empty(), st);
    assert(st.text + nodes_flat(d.children, Some(b)).text =~= nodes_flat(d.children, Some(b)).text);
}


/// One nonempty piece of rendered text: what it says, the sections around
/// it (outermost first), and the variable it was substituted from.
pub struct Leaf {
    pub text: Seq<char>,
    pub sections: Seq<OriginModel>,
    pub variable: Option<Seq<char>>,
}

/// The nonempty pieces of a node's rendering, in source order: each text as
/// written and each variable as its value.
pub open spec fn node_leaves(n: NodeModel, b: Map<Seq<char>, Seq<char>>, ancestry: Seq<OriginModel>) -> Seq<Leaf>
    decreases n,
{
    match n {
        NodeModel::Text(t) => if t.len() > 0 {
            seq![Leaf { text: t, sections: ancestry, variable: None }]
        } else {
            Seq::empty()
        },
        NodeModel::Variable(v) => if bound(b, v.id).len() > 0 {
            seq![Leaf { text: bound(b, v.id), sections: ancestry, variable: Some(v.id) }]
        } else {
            Seq::empty()
        },
        NodeModel::Section(s) => nodes_leaves(s.children, b, ancestry.push(origin_of(s))),
    }
}

pub open spec fn nodes_leaves(ns: Seq<NodeModel>, b: Map<Seq<char>, Seq<char>>, ancestry: Seq<OriginModel>) -> Seq<Leaf>
    decreases ns,
{
    if ns.len() == 0 {
        Seq::empty()
    } else {
        nodes_leaves(ns.drop_last(), b, ancestry) + node_leaves(ns.last(), b, ancestry)
    }
}

/// The pieces written one after another.
pub open spec fn leaves_text(l: Seq<Leaf>) -> Seq<char>
    decreases l.len(),
{
    if l.len() == 0 {
        Seq::empty()
    } else {
        leaves_text(l.drop_last()) + l.last().text
    }
}

/// Span `i` covers piece `i` exactly: from the bytes of the pieces before it
/// to the end of its own, with its sections and variable.
pub open spec fn spans_of_leaves(spans: Seq<SpanModel>, l: Seq<Leaf>) -> bool {
    &&& spans.len() == l.len()
    &&& forall|i: int|
        0 <= i < l.len() ==> #[trigger] spans[i] == (SpanModel {
            start: byte_len(leaves_text(l.take(i))) as int,
            end: byte_len(leaves_text(l.take(i + 1))) as int,
            sections: l[i].sections,
            variable: l[i].variable,
        })
}

proof fn lemma_leaves_push(l: Seq<Leaf>, x: Leaf)
    ensures
        leaves_text(l.push(x)) == leaves_text(l) + x.text,
{
    assert(l.push(x).drop_last() == l);
}

proof fn lemma_leaves_text_concat(a: Seq<Leaf>, b: Seq<Leaf>)
    ensures
        leaves_text(a + b) == leaves_text(a) + leaves_text(b),
    decreases b.len(),
{
    if b.len() == 0 {
        assert(a + b == a);
        assert(leaves_text(a) + Seq::<char>::empty() == leaves_text(a));
    } else {
        lemma_leaves_text_concat(a, b.drop_last());
        assert((a + b).drop_last() == a + b.drop_last());
        assert(leaves_text(a + b.drop_last()) + b.last().text == leaves_text(a) + (leaves_text(b.drop_last())
            + b.last().text));
    }
}

/// A prefix of the pieces is a prefix of their text.
proof fn lemma_leaves_prefix(l: Seq<Leaf>, i: int)
    requires
        0 <= i <= l.len(),
    ensures
        leaves_text(l.take(i)).len() <= leaves_text(l).len(),
        leaves_text(l).take(leaves_text(l.take(i)).len() as int) == leaves_text(l.take(i)),
{
    assert(l == l.take(i) + l.skip(i));
    lemma_leaves_text_concat(l.take(i), l.skip(i));
    let p = leaves_text(l.take(i));
    assert((p + leaves_text(l.skip(i))).take(p.len() as int) == p);
}

proof fn lemma_leaf_step(st: SpanState, l0: Seq<Leaf>, t: Seq<char>, ancestry: Seq<OriginModel>, variable: Option<Seq<char>>)
    requires
        st.text == leaves_text(l0),
        spans_of_leaves(st.spans, l0),
    ensures
        ({
            let l1 = if t.len() > 0 {
                l0.push(Leaf { text: t, sections: ancestry, variable })
            } else {
                l0
            };
            &&& add_leaf(st, t, ancestry, variable).text == leaves_text(l1)
            &&& spans_of_leaves(add_leaf(st, t, ancestry, variable).spans, l1)
        }),
{
    let r = add_leaf(st, t, ancestry, variable);
    if t.len() > 0 {
        let x = Leaf { text: t, sections: ancestry, variable };
        let l1 = l0.push(x);
        lemma_leaves_push(l0, x);
        assert forall|i: int| 0 <= i < l1.len() implies #[trigger] r.spans[i] == (SpanModel {
            start: byte_len(leaves_text(l1.take(i))) as int,
            end: byte_len(leaves_text(l1.take(i + 1))) as int,
            sections: l1[i].sections,
            variable: l1[i].variable,
        }) by {
            if i < l0.len() {
                assert(l1.take(i) == l0.take(i));
                assert(l1.take(i + 1) == l0.take(i + 1));
                assert(r.spans[i] == st.spans[i]);
            } else {
                assert(l1.take(i) == l0);
                assert(l1.take(i + 1) == l1);
            }
        }
    } else {
        assert(st.text + t == st.text);
    }
}

proof fn lemma_node_leaves(n: NodeModel, b: Map<Seq<char>, Seq<char>>, ancestry: Seq<OriginModel>, st: SpanState, l0: Seq<Leaf>)
    requires
        st.text == leaves_text(l0),
        spans_of_leaves(st.spans, l0),
    ensures
        span_node(n, b, ancestry, st).text == leaves_text(l0 + node_leaves(n, b, ancestry)),
        spans_of_leaves(span_node(n, b, ancestry, st).spans, l0 + node_leaves(n, b, ancestry)),
    decreases n,
{
    match n {
        NodeModel::Text(t) => {
            lemma_leaf_step(st, l0, t, ancestry, None);
            if t.len() > 0 {
                assert(l0 + node_leaves(n, b, ancestry) == l0.push(Leaf { text: t, sections: ancestry, variable: None }));
            } else {
                assert(l0 + node_leaves(n, b, ancestry) == l0);
            }
        },
        NodeModel::Variable(v) => {
            let t = bound(b, v.id);
            lemma_leaf_step(st, l0, t, ancestry, Some(v.id));
            if t.len() > 0 {
                assert(l0 + node_leaves(n, b, ancestry) == l0.push(Leaf { text: t, sections: ancestry, variable: Some(v.id) }));
            } else {
                assert(l0 + node_leaves(n, b, ancestry) == l0);
            }
        },
        NodeModel::Section(s) => {
            lemma_nodes_leaves(s.children, b, ancestry.push(origin_of(s)), st, l0);
        },
    }
}

proof fn lemma_nodes_leaves(ns: Seq<NodeModel>, b: Map<Seq<char>, Seq<char>>, ancestry: Seq<OriginModel>, st: SpanState, l0: Seq<Leaf>)
    requires
        st.text == leaves_text(l0),
        spans_of_leaves(st.spans, l0),
    ensures
        span_nodes(ns, b, ancestry, st).text == leaves_text(l0 + nodes_leaves(ns, b, ancestry)),
        spans_of_leaves(span_nodes(ns, b, ancestry, st).spans, l0 + nodes_leaves(ns, b, ancestry)),
    decreases ns,
{
    if ns.len() == 0 {
        assert(l0 + nodes_leaves(ns, b, ancestry) == l0);
    } else {
        let l1 = l0 + nodes_leaves(ns.drop_last(), b, ancestry);
        lemma_nodes_leaves(ns.drop_last(), b, ancestry, st, l0);
        lemma_node_leaves(ns.last(), b, ancestry, span_nodes(ns.drop_last(), b, ancestry, st), l1);
        assert(l1 + node_leaves(ns.last(), b, ancestry) == l0 + nodes_leaves(ns, b, ancestry));
    }
}

/// Span provenance: the text of a checked render is its nonempty pieces of
/// text and variable values one after another, and span `i` is piece `i`:
/// it starts and ends on character boundaries of the text (after a prefix of
/// whole pieces), lists the sections around the piece outermost first, and
/// names the variable exactly when the piece was substituted from one.
pub proof fn law_spans_follow_the_pieces<C: TokenCounter>(d: DocumentModel, b: Map<Seq<char>, Seq<char>>, c: C)
    ensures
        spec_render_checked(d, b, c) matches Ok(p) ==> ({
            let l = nodes_leaves(d.children, b, Seq::empty());
            &&& p.text == leaves_text(l)
            &&& spans_of_leaves(p.spans, l)
            &&& forall|i: int|
                0 <= i <= l.len() ==> p.text.take(#[trigger] leaves_text(l.take(i)).len() as int) == leaves_text(
                    l.take(i),
                )
        }),
{
    let st = SpanState { text: Seq::empty(), spans: Seq::empty() };
    let e = Seq::<Leaf>::empty();
    assert(spans_of_leaves(st.spans, e));
    lemma_nodes_leaves(d.children, b, Seq::empty(), st, e);
    lemma_span_text(d.children, b, Seq::empty(), st);
    let l = nodes_leaves(d.children, b, Seq::empty());
    assert(e + l == l);
    assert(st.text + nodes_flat(d.children, Some(b)).text == nodes_flat(d.children, Some(b)).text);
    assert forall|i: int| 0 <= i <= l.len() implies leaves_text(l).take(
        #[trigger] leaves_text(l.take(i)).len() as int,
    ) == leaves_text(l.take(i)) by {
        lemma_leaves_prefix(l, i);
    }
}

proof fn lemma_no_leaf_node(n: NodeModel, b: Map<Seq<char>, Seq<char>>)
    ensures
        !node_flat(n, Some(b)).leaf ==> node_flat(n, Some(b)).text.len() == 0,
    decreases n,
{
    if let NodeModel::Section(s) = n {
        lemma_no_leaf_nodes(s.children, b);
    }
}

proof fn lemma_no_leaf_nodes(ns: Seq<NodeModel>, b: Map<Seq<char>, Seq<char>>)
    ensures
        !nodes_flat(ns, Some(b)).leaf ==> nodes_flat(ns, Some(b)).text.len() == 0,
    decreases ns,
{
    if ns.len() > 0 {
        lemma_no_leaf_nodes(ns.drop_last(), b);
        lemma_no_leaf_node(ns.last(), b);
    }
}

/// Checked rendering is rendering with provenance: it succeeds exactly when
/// `render` does, with the same text or the same diagnostics; its
/// measurement names the counter and holds the count of the whole text (zero
/// for a document with no text or variable, whose text is empty); and no
/// measurement of its report is deferred.
pub proof fn law_checked_render_is_render<C: TokenCounter>(d: DocumentModel, b: Map<Seq<char>, Seq<char>>, c: C)
    ensures
        spec_render_checked(d, b, c) is Ok <==> crate::check::spec_render(d, b, c) is Ok,
        spec_render_checked(d, b, c) matches Err(e) ==> crate::check::spec_render(d, b, c) == Err::<
            Seq<char>,
            Seq<DiagnosticModel>,
        >(e),
        spec_render_checked(d, b, c) matches Ok(p) ==> {
            &&& crate::check::spec_render(d, b, c) == Ok::<Seq<char>, Seq<DiagnosticModel>>(p.text)
            &&& p.measurement.tokenizer == c.spec_name()
            &&& nodes_flat(d.children, Some(b)).leaf ==> p.measurement.tokens == c.spec_count(p.text)
            &&& !nodes_flat(d.children, Some(b)).leaf ==> p.measurement.tokens == 0 && p.text.len() == 0
            &&& forall|i: int|
                0 <= i < p.report.measurements.len() ==> !(#[trigger] p.report.measurements[i]).deferred
        },
{
    crate::check::law_rendered_budgets_hold(d, b, c);
    crate::check::lemma_bound_content(d.children, b);
    lemma_no_leaf_nodes(d.children, b);
    crate::check_laws::law_render_succeeds_exactly_when(d, b, c);
    if let Ok(p) = spec_render_checked(d, b, c) {
        assert forall|i: int| 0 <= i < p.report.measurements.len() implies !(#[trigger] p.report.measurements[i]).deferred by {
            assert(crate::check::within_limits(p.report.measurements));
            assert(crate::check::deferred_when_unknown(p.report.measurements));
            assert(p.report.measurements[i].tokens is Some);
        }
    }
}

} // verus!
