//! What lint and render promise of every document: which counts are
//! unknown, that an overrun is always reported, when rendering succeeds, and
//! which limit each section is measured against.
use vstd::prelude::*;

use crate::check::{
    bound, deferred_when_unknown, document_report, effective, flat_tokens,
    inherited_from, law_deferred_iff_uncounted, measure_report, node_flat, node_report, nodes_flat,
    nodes_report, spec_lint, spec_render, spec_validate, within_limits,
    TokenCounter,
};
use crate::model::{DiagnosticModel, DocumentModel, LimitsModel, MeasurementModel, NodeModel, ReportModel, SectionModel};

verus! {

/// The node holds a variable, at any depth.
pub open spec fn node_has_variable(n: NodeModel) -> bool
    decreases n,
{
    match n {
        NodeModel::Text(_) => false,
        NodeModel::Variable(_) => true,
        NodeModel::Section(s) => nodes_have_variable(s.children),
    }
}

pub open spec fn nodes_have_variable(ns: Seq<NodeModel>) -> bool
    decreases ns,
{
    if ns.len() == 0 {
        false
    } else {
        nodes_have_variable(ns.drop_last()) || node_has_variable(ns.last())
    }
}

/// Every variable in the node, at any depth, has a binding in `m`.
pub open spec fn node_bound(n: NodeModel, m: Map<Seq<char>, Seq<char>>) -> bool
    decreases n,
{
    match n {
        NodeModel::Text(_) => true,
        NodeModel::Variable(v) => m.dom().contains(v.id),
        NodeModel::Section(s) => nodes_bound(s.children, m),
    }
}

pub open spec fn nodes_bound(ns: Seq<NodeModel>, m: Map<Seq<char>, Seq<char>>) -> bool
    decreases ns,
{
    if ns.len() == 0 {
        true
    } else {
        nodes_bound(ns.drop_last(), m) && node_bound(ns.last(), m)
    }
}

/// A known count above a declared limit.
pub open spec fn over_limit(m: MeasurementModel) -> bool {
    match (m.tokens, m.limit) {
        (Some(t), Some(l)) => t > l,
        _ => false,
    }
}

pub open spec fn has_code(ds: Seq<DiagnosticModel>, code: Seq<char>) -> bool {
    exists|j: int| 0 <= j < ds.len() && (#[trigger] ds[j]).code == code
}

/// Some diagnostic reports a budget overrun whenever a measurement overruns.
pub open spec fn overruns_reported(r: ReportModel) -> bool {
    forall|i: int|
        0 <= i < r.measurements.len() && over_limit(#[trigger] r.measurements[i]) ==> has_code(
            r.diagnostics,
            "budget"@,
        )
}

proof fn lemma_unbound_node(n: NodeModel)
    ensures
        node_flat(n, None).unbound == node_has_variable(n),
    decreases n,
{
    if let NodeModel::Section(s) = n {
        lemma_unbound_nodes(s.children);
    }
}

proof fn lemma_unbound_nodes(ns: Seq<NodeModel>)
    ensures
        nodes_flat(ns, None).unbound == nodes_have_variable(ns),
    decreases ns,
{
    if ns.len() > 0 {
        lemma_unbound_nodes(ns.drop_last());
        lemma_unbound_node(ns.last());
    }
}

/// Deferral: without bindings, the count of a subtree is unknown exactly
/// when a variable lies inside it. Every lint measurement is this count of
/// its element's children.
pub proof fn law_uncounted_iff_variable<C: TokenCounter>(ns: Seq<NodeModel>, c: C)
    ensures
        flat_tokens(nodes_flat(ns, None), c) is None <==> nodes_have_variable(ns),
{
    lemma_unbound_nodes(ns);
}

proof fn lemma_has_code_concat(a: Seq<DiagnosticModel>, b: Seq<DiagnosticModel>, code: Seq<char>)
    ensures
        has_code(a, code) || has_code(b, code) ==> has_code(a + b, code),
{
    if has_code(a, code) {
        let j = choose|j: int| 0 <= j < a.len() && (#[trigger] a[j]).code == code;
        assert((a + b)[j] == a[j]);
    } else if has_code(b, code) {
        let j = choose|j: int| 0 <= j < b.len() && (#[trigger] b[j]).code == code;
        assert((a + b)[a.len() + j] == b[j]);
    }
}

proof fn lemma_overruns_followed_by(a: ReportModel, b: ReportModel)
    requires
        overruns_reported(a),
        overruns_reported(b),
    ensures
        overruns_reported(a.followed_by(b)),
{
    let r = a.followed_by(b);
    lemma_has_code_concat(a.diagnostics, b.diagnostics, "budget"@);
    assert forall|i: int| 0 <= i < r.measurements.len() && over_limit(#[trigger] r.measurements[i]) implies has_code(
        r.diagnostics,
        "budget"@,
    ) by {
        if i < a.measurements.len() {
            assert(r.measurements[i] == a.measurements[i]);
        } else {
            assert(r.measurements[i] == b.measurements[i - a.measurements.len()]);
        }
    }
}

proof fn lemma_overruns_measure(
    tokens: Option<u64>,
    cap: Option<u64>,
    id: Option<Seq<char>>,
    p: crate::model::Position,
    reason: Option<Seq<char>>,
)
    ensures
        overruns_reported(measure_report(tokens, cap, id, p, reason)),
{
    let r = measure_report(tokens, cap, id, p, reason);
    reveal_strlit("budget");
    if over_limit(r.measurements[0]) {
        assert(r.diagnostics[0].code == "budget"@);
    }
}

proof fn lemma_overruns_node<C: TokenCounter>(n: NodeModel, parent: LimitsModel, b: Option<Map<Seq<char>, Seq<char>>>, c: C)
    ensures
        overruns_reported(node_report(n, parent, b, c)),
    decreases n,
{
    match n {
        NodeModel::Section(s) => {
            let (cap, reason) = effective(s.limits, inherited_from(parent));
            let tokens = flat_tokens(nodes_flat(s.children, b), c);
            lemma_overruns_nodes(s.children, s.limits, b, c);
            lemma_overruns_measure(tokens, cap, s.id, s.position, reason);
            lemma_overruns_followed_by(
                nodes_report(s.children, s.limits, b, c),
                measure_report(tokens, cap, s.id, s.position, reason),
            );
        },
        _ => {},
    }
}

proof fn lemma_overruns_nodes<C: TokenCounter>(ns: Seq<NodeModel>, parent: LimitsModel, b: Option<Map<Seq<char>, Seq<char>>>, c: C)
    ensures
        overruns_reported(nodes_report(ns, parent, b, c)),
    decreases ns,
{
    if ns.len() > 0 {
        lemma_overruns_nodes(ns.drop_last(), parent, b, c);
        lemma_overruns_node(ns.last(), parent, b, c);
        lemma_overruns_followed_by(nodes_report(ns.drop_last(), parent, b, c), node_report(ns.last(), parent, b, c));
    }
}

proof fn lemma_overruns_document<C: TokenCounter>(d: DocumentModel, b: Option<Map<Seq<char>, Seq<char>>>, c: C)
    ensures
        overruns_reported(document_report(d, b, c)),
{
    let tokens = flat_tokens(nodes_flat(d.children, b), c);
    lemma_overruns_nodes(d.children, d.limits, b, c);
    lemma_overruns_measure(tokens, d.limits.max_tokens, None, d.position, d.limits.reason);
    lemma_overruns_followed_by(
        nodes_report(d.children, d.limits, b, c),
        measure_report(tokens, d.limits.max_tokens, None, d.position, d.limits.reason),
    );
}

/// The lint report: a document that fails validation is not measured at
/// all; otherwise a measurement is deferred exactly when its count is
/// unknown, every known count above its limit comes with a budget
/// diagnostic, and so a clean report has every known count within its limit.
pub proof fn law_lint_reports_every_overrun<C: TokenCounter>(d: DocumentModel, c: C)
    ensures
        spec_validate(d, c).len() > 0 ==> spec_lint(d, c).diagnostics == spec_validate(d, c)
            && spec_lint(d, c).measurements.len() == 0,
        deferred_when_unknown(spec_lint(d, c).measurements),
        overruns_reported(spec_lint(d, c)),
        spec_lint(d, c).diagnostics.len() == 0 ==> forall|i: int|
            0 <= i < spec_lint(d, c).measurements.len() ==> !over_limit(#[trigger] spec_lint(d, c).measurements[i]),
{
    law_deferred_iff_uncounted(d, c);
    lemma_overruns_document(d, None, c);
}

proof fn lemma_within_concat(a: Seq<MeasurementModel>, b: Seq<MeasurementModel>)
    ensures
        within_limits(a + b) == (within_limits(a) && within_limits(b)),
{
    if within_limits(a + b) {
        assert forall|i: int| 0 <= i < a.len() implies match (#[trigger] a[i]).tokens {
            Some(t) => match a[i].limit {
                Some(l) => t <= l,
                None => true,
            },
            None => false,
        } by {
            assert((a + b)[i] == a[i]);
        }
        assert forall|i: int| 0 <= i < b.len() implies match (#[trigger] b[i]).tokens {
            Some(t) => match b[i].limit {
                Some(l) => t <= l,
                None => true,
            },
            None => false,
        } by {
            assert((a + b)[a.len() + i] == b[i]);
        }
    }
    if within_limits(a) && within_limits(b) {
        assert forall|i: int| 0 <= i < (a + b).len() implies match (#[trigger] (a + b)[i]).tokens {
            Some(t) => match (a + b)[i].limit {
                Some(l) => t <= l,
                None => true,
            },
            None => false,
        } by {
            if i < a.len() {
                assert((a + b)[i] == a[i]);
            } else {
                assert((a + b)[i] == b[i - a.len()]);
            }
        }
    }
}

proof fn lemma_bound_flat_node(n: NodeModel, m: Map<Seq<char>, Seq<char>>)
    ensures
        !node_flat(n, Some(m)).unbound,
    decreases n,
{
    if let NodeModel::Section(s) = n {
        lemma_bound_flat_nodes(s.children, m);
    }
}

proof fn lemma_bound_flat_nodes(ns: Seq<NodeModel>, m: Map<Seq<char>, Seq<char>>)
    ensures
        !nodes_flat(ns, Some(m)).unbound,
    decreases ns,
{
    if ns.len() > 0 {
        lemma_bound_flat_nodes(ns.drop_last(), m);
        lemma_bound_flat_node(ns.last(), m);
    }
}

proof fn lemma_clean_measure(
    tokens: u64,
    cap: Option<u64>,
    id: Option<Seq<char>>,
    p: crate::model::Position,
    reason: Option<Seq<char>>,
)
    ensures
        measure_report(Some(tokens), cap, id, p, reason).diagnostics.len() == 0 <==> within_limits(
            measure_report(Some(tokens), cap, id, p, reason).measurements,
        ),
{
    let r = measure_report(Some(tokens), cap, id, p, reason);
    if !within_limits(r.measurements) {
        assert(!(match r.measurements[0].tokens {
            Some(t) => match r.measurements[0].limit {
                Some(l) => t <= l,
                None => true,
            },
            None => false,
        }));
    }
}

proof fn lemma_clean_node<C: TokenCounter>(n: NodeModel, parent: LimitsModel, m: Map<Seq<char>, Seq<char>>, c: C)
    ensures
        node_report(n, parent, Some(m), c).diagnostics.len() == 0 <==> node_bound(n, m) && within_limits(
            node_report(n, parent, Some(m), c).measurements,
        ),
    decreases n,
{
    match n {
        NodeModel::Section(s) => {
            let (cap, reason) = effective(s.limits, inherited_from(parent));
            lemma_bound_flat_nodes(s.children, m);
            let tokens = flat_tokens(nodes_flat(s.children, Some(m)), c);
            let inner = nodes_report(s.children, s.limits, Some(m), c);
            let mr = measure_report(tokens, cap, s.id, s.position, reason);
            lemma_clean_nodes(s.children, s.limits, m, c);
            lemma_clean_measure(tokens.unwrap(), cap, s.id, s.position, reason);
            lemma_within_concat(inner.measurements, mr.measurements);
        },
        NodeModel::Variable(v) => {
            assert(within_limits(Seq::<MeasurementModel>::empty()));
        },
        NodeModel::Text(_) => {
            assert(within_limits(Seq::<MeasurementModel>::empty()));
        },
    }
}

proof fn lemma_clean_nodes<C: TokenCounter>(ns: Seq<NodeModel>, parent: LimitsModel, m: Map<Seq<char>, Seq<char>>, c: C)
    ensures
        nodes_report(ns, parent, Some(m), c).diagnostics.len() == 0 <==> nodes_bound(ns, m) && within_limits(
            nodes_report(ns, parent, Some(m), c).measurements,
        ),
    decreases ns,
{
    if ns.len() == 0 {
        assert(within_limits(Seq::<MeasurementModel>::empty()));
    } else {
        let a = nodes_report(ns.drop_last(), parent, Some(m), c);
        let b = node_report(ns.last(), parent, Some(m), c);
        lemma_clean_nodes(ns.drop_last(), parent, m, c);
        lemma_clean_node(ns.last(), parent, m, c);
        lemma_within_concat(a.measurements, b.measurements);
    }
}

/// Rendering succeeds exactly when lint is clean, every variable has a
/// binding, and every element's substituted subtree is counted within its
/// limit; its text is then the document's text with each variable replaced
/// by its value (extra bindings play no part). A failure always carries a
/// diagnostic and no text.
pub proof fn law_render_succeeds_exactly_when<C: TokenCounter>(
    d: DocumentModel,
    b: Map<Seq<char>, Seq<char>>,
    c: C,
)
    ensures
        spec_render(d, b, c) is Ok <==> spec_lint(d, c).diagnostics.len() == 0 && nodes_bound(d.children, b)
            && within_limits(document_report(d, Some(b), c).measurements),
        spec_render(d, b, c) matches Ok(t) ==> t == nodes_flat(d.children, Some(b)).text,
        spec_render(d, b, c) matches Err(e) ==> e.len() > 0,
{
    let tokens = flat_tokens(nodes_flat(d.children, Some(b)), c);
    lemma_bound_flat_nodes(d.children, b);
    let inner = nodes_report(d.children, d.limits, Some(b), c);
    let mr = measure_report(tokens, d.limits.max_tokens, None, d.position, d.limits.reason);
    lemma_clean_nodes(d.children, d.limits, b, c);
    lemma_clean_measure(tokens.unwrap(), d.limits.max_tokens, None, d.position, d.limits.reason);
    lemma_within_concat(inner.measurements, mr.measurements);
    crate::check::law_rendered_budgets_hold(d, b, c);
}

/// The rendered text of bound content: text as written, each variable as its
/// value.
pub proof fn law_bound_text_is_literal(n: NodeModel, m: Map<Seq<char>, Seq<char>>)
    ensures
        n matches NodeModel::Text(t) ==> node_flat(n, Some(m)).text == t,
        n matches NodeModel::Variable(v) ==> node_flat(n, Some(m)).text == bound(m, v.id),
        n matches NodeModel::Variable(v) ==> (m.dom().contains(v.id) ==> node_flat(n, Some(m)).text == m[v.id]),
        n matches NodeModel::Section(s) ==> node_flat(n, Some(m)).text == nodes_flat(s.children, Some(m)).text,
{
}

/// The limit each element is measured against. A section under a parent with
/// an item limit takes that limit, with the parent's reason, where it is
/// tighter than its own total limit; otherwise its own limit and reason, so a
/// tie keeps its own reason. The item limit reaches only direct child
/// sections: the section's own children are measured under its own limits,
/// and text and variables are never measured. The document is measured
/// against its own total limit.
pub proof fn law_item_limits<C: TokenCounter>(
    s: SectionModel,
    parent: LimitsModel,
    b: Option<Map<Seq<char>, Seq<char>>>,
    c: C,
    d: DocumentModel,
    other: NodeModel,
)
    ensures
        ({
            let r = node_report(NodeModel::Section(s), parent, b, c);
            let inner = nodes_report(s.children, s.limits, b, c);
            let m = r.measurements.last();
            let takes_item = parent.per_item matches Some(p) && (s.limits.max_tokens is None || p
                < s.limits.max_tokens.unwrap());
            &&& r.measurements.len() == inner.measurements.len() + 1
            &&& r.measurements.take(inner.measurements.len() as int) == inner.measurements
            &&& m.id == s.id
            &&& m.tokens == flat_tokens(nodes_flat(s.children, b), c)
            &&& takes_item ==> m.limit == parent.per_item && m.reason == Some(
                match parent.reason {
                    Some(r) => r,
                    None => Seq::<char>::empty(),
                },
            )
            &&& !takes_item ==> m.limit == s.limits.max_tokens && m.reason == s.limits.reason
        }),
        !(other is Section) ==> node_report(other, parent, b, c).measurements.len() == 0,
        document_report(d, b, c).measurements.last().limit == d.limits.max_tokens,
        document_report(d, b, c).measurements.last().reason == d.limits.reason,
{
    let r = node_report(NodeModel::Section(s), parent, b, c);
    let inner = nodes_report(s.children, s.limits, b, c);
    assert(r.measurements.take(inner.measurements.len() as int) =~= inner.measurements);
}


/// The contents that measuring `n` counts, in report order: each section's
/// children, after those of the sections inside it.
pub open spec fn node_measured(n: NodeModel) -> Seq<Seq<NodeModel>>
    decreases n,
{
    match n {
        NodeModel::Section(s) => nodes_measured(s.children).push(s.children),
        _ => Seq::empty(),
    }
}

pub open spec fn nodes_measured(ns: Seq<NodeModel>) -> Seq<Seq<NodeModel>>
    decreases ns,
{
    if ns.len() == 0 {
        Seq::empty()
    } else {
        nodes_measured(ns.drop_last()) + node_measured(ns.last())
    }
}

/// The contents a document's measurements count: every section's, then the
/// document's own.
pub open spec fn document_measured(d: DocumentModel) -> Seq<Seq<NodeModel>> {
    nodes_measured(d.children).push(d.children)
}

/// Measurement `i` counts content `i`, and is deferred exactly when the
/// count is unknown.
pub open spec fn measures<C: TokenCounter>(
    ms: Seq<MeasurementModel>,
    l: Seq<Seq<NodeModel>>,
    b: Option<Map<Seq<char>, Seq<char>>>,
    c: C,
) -> bool {
    &&& ms.len() == l.len()
    &&& forall|i: int|
        0 <= i < ms.len() ==> (#[trigger] ms[i]).tokens == flat_tokens(nodes_flat(l[i], b), c)
            && ms[i].deferred == (ms[i].tokens is None)
}

proof fn lemma_measures_concat<C: TokenCounter>(
    a: Seq<MeasurementModel>,
    la: Seq<Seq<NodeModel>>,
    x: Seq<MeasurementModel>,
    lx: Seq<Seq<NodeModel>>,
    b: Option<Map<Seq<char>, Seq<char>>>,
    c: C,
)
    requires
        measures(a, la, b, c),
        measures(x, lx, b, c),
    ensures
        measures(a + x, la + lx, b, c),
{
    assert forall|i: int| 0 <= i < (a + x).len() implies (#[trigger] (a + x)[i]).tokens == flat_tokens(
        nodes_flat((la + lx)[i], b),
        c,
    ) && (a + x)[i].deferred == ((a + x)[i].tokens is None) by {
        if i < a.len() {
            assert((a + x)[i] == a[i]);
            assert((la + lx)[i] == la[i]);
        } else {
            assert((a + x)[i] == x[i - a.len()]);
            assert((la + lx)[i] == lx[i - a.len()]);
        }
    }
}

proof fn lemma_measure_one<C: TokenCounter>(
    ns: Seq<NodeModel>,
    cap: Option<u64>,
    id: Option<Seq<char>>,
    p: crate::model::Position,
    reason: Option<Seq<char>>,
    b: Option<Map<Seq<char>, Seq<char>>>,
    c: C,
)
    ensures
        measures(measure_report(flat_tokens(nodes_flat(ns, b), c), cap, id, p, reason).measurements, seq![ns], b, c),
{
}

proof fn lemma_node_measures<C: TokenCounter>(n: NodeModel, parent: LimitsModel, b: Option<Map<Seq<char>, Seq<char>>>, c: C)
    ensures
        measures(node_report(n, parent, b, c).measurements, node_measured(n), b, c),
    decreases n,
{
    match n {
        NodeModel::Section(s) => {
            let (cap, reason) = effective(s.limits, inherited_from(parent));
            lemma_nodes_measures(s.children, s.limits, b, c);
            lemma_measure_one(s.children, cap, s.id, s.position, reason, b, c);
            lemma_measures_concat(
                nodes_report(s.children, s.limits, b, c).measurements,
                nodes_measured(s.children),
                measure_report(flat_tokens(nodes_flat(s.children, b), c), cap, s.id, s.position, reason).measurements,
                seq![s.children],
                b,
                c,
            );
            assert(nodes_measured(s.children) + seq![s.children] == nodes_measured(s.children).push(s.children));
        },
        _ => {},
    }
}

proof fn lemma_nodes_measures<C: TokenCounter>(ns: Seq<NodeModel>, parent: LimitsModel, b: Option<Map<Seq<char>, Seq<char>>>, c: C)
    ensures
        measures(nodes_report(ns, parent, b, c).measurements, nodes_measured(ns), b, c),
    decreases ns,
{
    if ns.len() > 0 {
        lemma_nodes_measures(ns.drop_last(), parent, b, c);
        lemma_node_measures(ns.last(), parent, b, c);
        lemma_measures_concat(
            nodes_report(ns.drop_last(), parent, b, c).measurements,
            nodes_measured(ns.drop_last()),
            node_report(ns.last(), parent, b, c).measurements,
            node_measured(ns.last()),
            b,
            c,
        );
    }
}

/// Each lint measurement belongs to its own element: when the document
/// validates, measurement `i` counts the `i`-th element's content (every
/// section, innermost first, then the document), its count is unknown
/// exactly when a variable lies inside that content, and it is deferred
/// exactly then.
pub proof fn law_each_measurement_counts_its_element<C: TokenCounter>(d: DocumentModel, c: C)
    ensures
        spec_validate(d, c).len() == 0 ==> ({
            let ms = spec_lint(d, c).measurements;
            let l = document_measured(d);
            &&& measures(ms, l, None, c)
            &&& forall|i: int| 0 <= i < ms.len() ==> ((#[trigger] ms[i]).tokens is None <==> nodes_have_variable(l[i]))
        }),
{
    let tokens = flat_tokens(nodes_flat(d.children, None), c);
    lemma_nodes_measures(d.children, d.limits, None, c);
    lemma_measure_one(d.children, d.limits.max_tokens, None, d.position, d.limits.reason, None, c);
    lemma_measures_concat(
        nodes_report(d.children, d.limits, None, c).measurements,
        nodes_measured(d.children),
        measure_report(tokens, d.limits.max_tokens, None, d.position, d.limits.reason).measurements,
        seq![d.children],
        None,
        c,
    );
    assert(nodes_measured(d.children) + seq![d.children] == document_measured(d));
    if spec_validate(d, c).len() == 0 {
        let ms = spec_lint(d, c).measurements;
        let l = document_measured(d);
        assert forall|i: int| 0 <= i < ms.len() implies ((#[trigger] ms[i]).tokens is None <==> nodes_have_variable(l[i])) by {
            law_uncounted_iff_variable(l[i], c);
        }
    }
}
} // verus!
