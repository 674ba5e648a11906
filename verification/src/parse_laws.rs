//! What every parsed document keeps, whatever the tokens: each section ID
//! is valid and used once, no variable shares it, sections nest no deeper
//! than the checks allow, every declared limit has a reason, and text nodes
//! are nonempty and never adjacent. Templates read back to their source.
use vstd::multiset::*;
use vstd::prelude::*;

use crate::check::{
    document_message, id_diag, reason_diags, tokenizer_message, register, spec_validate, walk_node, walk_nodes,
    without_code, lemma_without_concat, TokenCounter, WalkModel,
};
use crate::model::{diag, DiagnosticModel, DocumentModel, LimitsModel, NodeModel, Position, SectionModel};
use crate::parser::{
    add_nodes, append_text, attribute_step, close_step, end_step, finish_frame, initial,
    parse_from, run, start_step, step, text_step, FrameModel, ParseModel,
};
use crate::text::{blank, first_pair, text_nodes, valid_id};
use crate::xml::XmlToken;

verus! {

broadcast use group_multiset_axioms;

/// The IDs in a node, each with whether it names a variable.
pub open spec fn node_idset(n: NodeModel) -> Multiset<(Seq<char>, bool)>
    decreases n,
{
    match n {
        NodeModel::Text(_) => Multiset::empty(),
        NodeModel::Variable(v) => Multiset::singleton((v.id, true)),
        NodeModel::Section(s) => nodes_idset(s.children).add(section_id(s.id)),
    }
}

pub open spec fn section_id(id: Option<Seq<char>>) -> Multiset<(Seq<char>, bool)> {
    match id {
        Some(k) => Multiset::singleton((k, false)),
        None => Multiset::empty(),
    }
}

pub open spec fn nodes_idset(ns: Seq<NodeModel>) -> Multiset<(Seq<char>, bool)>
    decreases ns,
{
    if ns.len() == 0 {
        Multiset::empty()
    } else {
        nodes_idset(ns.drop_last()).add(node_idset(ns.last()))
    }
}

/// Each section ID occurs once and names no variable; every ID is valid.
pub open spec fn unique_ids(m: Multiset<(Seq<char>, bool)>) -> bool {
    &&& forall|k: Seq<char>| #[trigger] m.count((k, false)) <= 1
    &&& forall|k: Seq<char>| #[trigger] m.count((k, false)) > 0 ==> m.count((k, true)) == 0
    &&& forall|k: Seq<char>, b: bool| #[trigger] m.count((k, b)) > 0 ==> valid_id(k)
}

/// The IDs `t` are unique, recorded among the section IDs `ids` and the
/// variable names `vars`, which share no name.
pub open spec fn registered(t: Multiset<(Seq<char>, bool)>, ids: Seq<Seq<char>>, vars: Seq<Seq<char>>) -> bool {
    &&& unique_ids(t)
    &&& forall|k: Seq<char>| #[trigger] t.count((k, false)) > 0 ==> ids.contains(k)
    &&& forall|k: Seq<char>| #[trigger] t.count((k, true)) > 0 ==> vars.contains(k)
    &&& forall|k: Seq<char>| #[trigger] ids.contains(k) ==> !vars.contains(k)
}

/// The ID an open element adds once it becomes a section.
pub open spec fn own_id(f: FrameModel) -> Multiset<(Seq<char>, bool)> {
    if f.root {
        Multiset::empty()
    } else {
        section_id(f.attrs.id)
    }
}

pub open spec fn frame_set(f: FrameModel) -> Multiset<(Seq<char>, bool)> {
    nodes_idset(f.children).add(own_id(f))
}

pub open spec fn stack_set(s: Seq<FrameModel>) -> Multiset<(Seq<char>, bool)>
    decreases s.len(),
{
    if s.len() == 0 {
        Multiset::empty()
    } else {
        stack_set(s.drop_last()).add(frame_set(s.last()))
    }
}

pub open spec fn result_set(r: Option<DocumentModel>) -> Multiset<(Seq<char>, bool)> {
    match r {
        Some(d) => nodes_idset(d.children),
        None => Multiset::empty(),
    }
}

/// The IDs held by the parser: in open elements and in the finished root.
pub open spec fn state_set(st: ParseModel) -> Multiset<(Seq<char>, bool)> {
    stack_set(st.stack).add(result_set(st.result))
}

pub open spec fn parse_inv(st: ParseModel) -> bool {
    &&& registered(state_set(st), st.ids, st.variables)
    &&& st.pending matches Some(f) ==> f.children.len() == 0
}

proof fn lemma_registered_sub(
    t: Multiset<(Seq<char>, bool)>,
    u: Multiset<(Seq<char>, bool)>,
    ids: Seq<Seq<char>>,
    vars: Seq<Seq<char>>,
)
    requires
        registered(t, ids, vars),
        forall|x: (Seq<char>, bool)| #[trigger] u.count(x) <= t.count(x),
    ensures
        registered(u, ids, vars),
{
    assert forall|k: Seq<char>| #[trigger] u.count((k, false)) <= 1 by {
        assert(t.count((k, false)) <= 1);
    }
    assert forall|k: Seq<char>| #[trigger] u.count((k, false)) > 0 implies u.count((k, true)) == 0 by {
        assert(t.count((k, false)) > 0);
        assert(u.count((k, true)) <= t.count((k, true)));
    }
    assert forall|k: Seq<char>, b: bool| #[trigger] u.count((k, b)) > 0 implies valid_id(k) by {
        assert(t.count((k, b)) > 0);
    }
    assert forall|k: Seq<char>| #[trigger] u.count((k, false)) > 0 implies ids.contains(k) by {
        assert(t.count((k, false)) > 0);
    }
    assert forall|k: Seq<char>| #[trigger] u.count((k, true)) > 0 implies vars.contains(k) by {
        assert(t.count((k, true)) > 0);
    }
}

proof fn lemma_registered_section(t: Multiset<(Seq<char>, bool)>, ids: Seq<Seq<char>>, vars: Seq<Seq<char>>, k: Seq<char>)
    requires
        registered(t, ids, vars),
        valid_id(k),
        !ids.contains(k),
        !vars.contains(k),
    ensures
        registered(t.insert((k, false)), ids.push(k), vars),
{
    let u = t.insert((k, false));
    assert(t.count((k, false)) == 0);
    assert(t.count((k, true)) == 0);
    assert forall|j: Seq<char>| #[trigger] u.count((j, false)) <= 1 by {
        assert(t.count((j, false)) <= 1);
    }
    assert forall|j: Seq<char>| #[trigger] u.count((j, false)) > 0 implies u.count((j, true)) == 0 by {
        if j != k {
            assert(t.count((j, false)) > 0);
        }
    }
    assert forall|j: Seq<char>, b: bool| #[trigger] u.count((j, b)) > 0 implies valid_id(j) by {
        if (j, b) != (k, false) {
            assert(t.count((j, b)) > 0);
        }
    }
    assert forall|j: Seq<char>| #[trigger] u.count((j, false)) > 0 implies ids.push(k).contains(j) by {
        if j != k {
            assert(t.count((j, false)) > 0);
            assert(ids.contains(j));
            let i = choose|i: int| 0 <= i < ids.len() && ids[i] == j;
            assert(ids.push(k)[i] == j);
        } else {
            assert(ids.push(k)[ids.len() as int] == k);
        }
    }
    assert forall|j: Seq<char>| #[trigger] u.count((j, true)) > 0 implies vars.contains(j) by {
        assert(t.count((j, true)) > 0);
    }
    assert forall|j: Seq<char>| #[trigger] ids.push(k).contains(j) implies !vars.contains(j) by {
        let i = choose|i: int| 0 <= i < ids.push(k).len() && ids.push(k)[i] == j;
        if i < ids.len() {
            assert(ids[i] == j);
            assert(ids.contains(j));
        }
    }
}

proof fn lemma_registered_variable(t: Multiset<(Seq<char>, bool)>, ids: Seq<Seq<char>>, vars: Seq<Seq<char>>, k: Seq<char>)
    requires
        registered(t, ids, vars),
        valid_id(k),
        !ids.contains(k),
    ensures
        registered(t.insert((k, true)), ids, vars.push(k)),
{
    let u = t.insert((k, true));
    assert(t.count((k, false)) == 0) by {
        if t.count((k, false)) > 0 {
            assert(ids.contains(k));
        }
    }
    assert forall|j: Seq<char>| #[trigger] u.count((j, false)) <= 1 by {
        assert(t.count((j, false)) <= 1);
    }
    assert forall|j: Seq<char>| #[trigger] u.count((j, false)) > 0 implies u.count((j, true)) == 0 by {
        assert(t.count((j, false)) > 0);
        if j == k {
            assert(false);
        }
    }
    assert forall|j: Seq<char>, b: bool| #[trigger] u.count((j, b)) > 0 implies valid_id(j) by {
        if (j, b) != (k, true) {
            assert(t.count((j, b)) > 0);
        }
    }
    assert forall|j: Seq<char>| #[trigger] u.count((j, false)) > 0 implies ids.contains(j) by {
        assert(t.count((j, false)) > 0);
    }
    assert forall|j: Seq<char>| #[trigger] u.count((j, true)) > 0 implies vars.push(k).contains(j) by {
        if j != k {
            assert(t.count((j, true)) > 0);
            assert(vars.contains(j));
            let i = choose|i: int| 0 <= i < vars.len() && vars[i] == j;
            assert(vars.push(k)[i] == j);
        } else {
            assert(vars.push(k)[vars.len() as int] == k);
        }
    }
    assert forall|j: Seq<char>| #[trigger] ids.contains(j) implies !vars.push(k).contains(j) by {
        assert(!vars.contains(j));
        if vars.push(k).contains(j) {
            let i = choose|i: int| 0 <= i < vars.push(k).len() && vars.push(k)[i] == j;
            if i < vars.len() {
                assert(vars[i] == j);
            }
        }
    }
}

proof fn lemma_push_idset(ns: Seq<NodeModel>, n: NodeModel)
    ensures
        nodes_idset(ns.push(n)) == nodes_idset(ns).add(node_idset(n)),
{
    assert(ns.push(n).drop_last() == ns);
}

proof fn lemma_append_text_ids(children: Seq<NodeModel>, t: Seq<char>)
    ensures
        nodes_idset(append_text(children, t)) == nodes_idset(children),
{
    if children.len() > 0 && children.last() is Text {
        let rest = children.drop_last();
        lemma_push_idset(rest, NodeModel::Text(children.last()->Text_0 + t));
        assert(nodes_idset(children) == nodes_idset(rest).add(node_idset(children.last())));
        assert(nodes_idset(append_text(children, t)) =~= nodes_idset(children));
    } else if t.len() > 0 {
        lemma_push_idset(children, NodeModel::Text(t));
        assert(nodes_idset(append_text(children, t)) =~= nodes_idset(children));
    }
}

/// Text and valid variables only.
pub open spec fn leaves(ns: Seq<NodeModel>) -> bool {
    forall|i: int|
        0 <= i < ns.len() ==> (#[trigger] ns[i] is Text || (ns[i] is Variable && valid_id(
            ns[i]->Variable_0.id,
        )))
}

proof fn lemma_text_leaves(src: Seq<char>, cur: int, hi: int, entities: bool)
    ensures
        text_nodes(src, cur, hi, entities) matches Ok(ns) ==> leaves(ns),
    decreases hi - cur,
{
    reveal(text_nodes);
    if 0 <= cur <= hi <= src.len() {
        match crate::text::first_pair(src.subrange(cur, hi), '{', '{') {
            None => {},
            Some(k) => {
                let s = cur + k;
                match crate::text::first_pair(src.subrange(s + 2, hi), '}', '}') {
                    None => {},
                    Some(k2) => {
                        let e = s + 2 + k2;
                        crate::text::lemma_first_pair(src.subrange(cur, hi), '{', '{');
                        crate::text::lemma_first_pair(src.subrange(s + 2, hi), '}', '}');
                        lemma_text_leaves(src, e + 2, hi, entities);
                        if let Ok(ns) = text_nodes(src, cur, hi, entities) {
                            if let Ok(rest) = text_nodes(src, e + 2, hi, entities) {
                                if let Ok(l) = crate::text::literal(src, cur, s, entities) {
                                    let v = NodeModel::Variable(
                                        crate::model::VariableModel {
                                            id: src.subrange(s + 2, e),
                                            position: crate::locations::position_at_char(src, s),
                                        },
                                    );
                                    let head = crate::text::text_node(l) + seq![v];
                                    assert(ns == head + rest);
                                    assert forall|i: int| 0 <= i < ns.len() implies (#[trigger] ns[i] is Text || (
                                    ns[i] is Variable && valid_id(ns[i]->Variable_0.id))) by {
                                        if i >= head.len() {
                                            assert(ns[i] == rest[i - head.len()]);
                                        } else if i == head.len() - 1 {
                                            assert(ns[i] == v);
                                        } else {
                                            assert(ns[i] == crate::text::text_node(l)[i]);
                                        }
                                    }
                                }
                            }
                        }
                    },
                }
            },
        }
    }
}

proof fn lemma_stack_top(s: Seq<FrameModel>, top: FrameModel)
    requires
        s.len() > 0,
    ensures
        stack_set(s.drop_last().push(top)) == stack_set(s.drop_last()).add(frame_set(top)),
        stack_set(s) == stack_set(s.drop_last()).add(frame_set(s.last())),
{
    assert(s.drop_last().push(top).drop_last() == s.drop_last());
}

proof fn lemma_add_nodes(st: ParseModel, nodes: Seq<NodeModel>)
    requires
        parse_inv(st),
        leaves(nodes),
    ensures
        add_nodes(st, nodes) matches Ok(s2) ==> parse_inv(s2),
    decreases nodes.len(),
{
    if nodes.len() > 0 && st.stack.len() > 0 {
        let n = nodes[0];
        let top = st.stack.last();
        let rest = nodes.drop_first();
        assert forall|i: int| 0 <= i < rest.len() implies (#[trigger] rest[i] is Text || (rest[i] is Variable
            && valid_id(rest[i]->Variable_0.id))) by {
            assert(rest[i] == nodes[i + 1]);
        }
        assert(n is Text || n is Variable);
        match n {
            NodeModel::Variable(v) => {
                if !st.ids.contains(v.id) {
                    let top2 = FrameModel { children: top.children.push(n), ..top };
                    let s2 = ParseModel {
                        stack: st.stack.drop_last().push(top2),
                        variables: st.variables.push(v.id),
                        ..st
                    };
                    lemma_stack_top(st.stack, top2);
                    lemma_push_idset(top.children, n);
                    assert(state_set(s2) =~= state_set(st).insert((v.id, true)));
                    lemma_registered_variable(state_set(st), st.ids, st.variables, v.id);
                    lemma_add_nodes(s2, rest);
                }
            },
            NodeModel::Text(t) => {
                let top2 = FrameModel { children: append_text(top.children, t), ..top };
                let s2 = ParseModel { stack: st.stack.drop_last().push(top2), ..st };
                lemma_stack_top(st.stack, top2);
                lemma_append_text_ids(top.children, t);
                assert(state_set(s2) =~= state_set(st));
                lemma_add_nodes(s2, rest);
            },
            NodeModel::Section(_) => {},
        }
    }
}

proof fn lemma_finish_frame(st: ParseModel, f: FrameModel)
    requires
        registered(state_set(st).add(frame_set(f)), st.ids, st.variables),
        st.pending matches Some(p) ==> p.children.len() == 0,
    ensures
        finish_frame(st, f) matches Ok(s2) ==> parse_inv(s2),
{
    let t = state_set(st).add(frame_set(f));
    if let Ok(s2) = finish_frame(st, f) {
        if f.root {
            assert forall|x: (Seq<char>, bool)| #[trigger] state_set(s2).count(x) <= t.count(x) by {
            }
            lemma_registered_sub(t, state_set(s2), st.ids, st.variables);
        } else {
            let top = st.stack.last();
            let node = NodeModel::Section(
                SectionModel {
                    id: f.attrs.id,
                    limits: crate::parser::frame_limits(f)->Ok_0,
                    children: f.children,
                    position: f.position,
                },
            );
            let top2 = FrameModel { children: top.children.push(node), ..top };
            lemma_stack_top(st.stack, top2);
            lemma_push_idset(top.children, node);
            assert(state_set(s2) =~= t);
        }
    }
}

proof fn lemma_step(src: Seq<char>, st: ParseModel, tok: XmlToken)
    requires
        parse_inv(st),
    ensures
        step(src, st, tok) matches Ok(s2) ==> parse_inv(s2),
{
    match tok {
        XmlToken::Start(span) => {
            if let Ok(s2) = start_step(src, st, span) {
                assert(state_set(s2) == state_set(st));
            }
        },
        XmlToken::Attr(local, value, span) => {
            if let Ok(s2) = attribute_step(src, st, local, value, span) {
                assert(state_set(s2) == state_set(st));
            }
        },
        XmlToken::End(span) => {
            if let Ok(s2) = end_step(src, st, span) {
                let frame = st.pending.unwrap();
                let ids = match frame.attrs.id {
                    None => st.ids,
                    Some(id) => st.ids.push(id),
                };
                let opened = ParseModel { stack: st.stack.push(frame), pending: None, ids, ..st };
                assert(st.stack.push(frame).drop_last() == st.stack);
                assert(nodes_idset(frame.children) =~= Multiset::empty());
                assert(frame_set(frame) =~= own_id(frame));
                match frame.attrs.id {
                    Some(id) => {
                        if frame.root {
                            assert forall|k: Seq<char>| #[trigger] state_set(st).count((k, false)) > 0 implies ids.contains(k) by {
                                assert(st.ids.contains(k));
                                let i = choose|i: int| 0 <= i < st.ids.len() && st.ids[i] == k;
                                assert(ids[i] == k);
                            }
                            assert forall|k: Seq<char>| #[trigger] ids.contains(k) implies !st.variables.contains(k) by {
                                let i = choose|i: int| 0 <= i < ids.len() && ids[i] == k;
                                if i < st.ids.len() {
                                    assert(st.ids[i] == k);
                                    assert(st.ids.contains(k));
                                }
                            }
                            assert(state_set(st).add(frame_set(frame)) =~= state_set(st));
                        } else {
                            lemma_registered_section(state_set(st), st.ids, st.variables, id);
                            assert(state_set(st).add(frame_set(frame)) =~= state_set(st).insert((id, false)));
                        }
                    },
                    None => {
                        assert(state_set(st).add(frame_set(frame)) =~= state_set(st));
                    },
                }
                assert(state_set(opened) =~= state_set(st).add(frame_set(frame)));
                let (a, b) = crate::parser::char_range(src, span).unwrap();
                let empty = a < b && src[a] == '/';
                if empty {
                    let closing = ParseModel { stack: st.stack, ..opened };
                    assert(state_set(closing).add(frame_set(frame)) =~= state_set(opened));
                    lemma_finish_frame(closing, frame);
                }
            }
        },
        XmlToken::Close(local, span) => {
            if let Ok(s2) = close_step(src, st, local, span) {
                let frame = st.stack.last();
                let closing = ParseModel { stack: st.stack.drop_last(), ..st };
                assert(state_set(closing).add(frame_set(frame)) =~= state_set(st));
                lemma_finish_frame(closing, frame);
            }
        },
        XmlToken::Text(r) => {
            if let Ok(s2) = text_step(src, st, r) {
                if let Some((a, b)) = crate::parser::char_range(src, r) {
                    if st.stack.len() > 0 {
                        lemma_text_leaves(src, a, b, true);
                        if let Ok(nodes) = text_nodes(src, a, b, true) {
                            lemma_add_nodes(st, nodes);
                        }
                    }
                }
            }
        },
        _ => {},
    }
}

proof fn lemma_run(src: Seq<char>, st: ParseModel, tokens: Seq<XmlToken>)
    requires
        parse_inv(st),
    ensures
        run(src, st, tokens) matches Ok(s2) ==> parse_inv(s2),
    decreases tokens.len(),
{
    if tokens.len() > 0 {
        lemma_step(src, st, tokens[0]);
        if let Ok(s2) = step(src, st, tokens[0]) {
            lemma_run(src, s2, tokens.drop_first());
        }
    }
}

/// Unique IDs in every parsed document, whatever the tokens: each section ID
/// is valid and used once, no variable shares a section's ID, and every
/// variable name is a valid ID.
pub proof fn law_parsed_ids_are_unique(src: Seq<char>, tokens: Seq<XmlToken>)
    ensures
        parse_from(src, tokens) matches Ok(d) ==> unique_ids(nodes_idset(d.children)),
{
    let st = initial();
    assert(state_set(st) =~= Multiset::empty());
    lemma_run(src, st, tokens);
    if let Ok(d) = parse_from(src, tokens) {
        let s2 = run(src, st, tokens)->Ok_0;
        assert(state_set(s2) =~= nodes_idset(d.children));
    }
}

/// Sections of `ns`, found at walk depth `depth`, nest no deeper than 64.
pub open spec fn nodes_fit(ns: Seq<NodeModel>, depth: int) -> bool
    decreases ns,
{
    if ns.len() == 0 {
        true
    } else {
        nodes_fit(ns.drop_last(), depth) && node_fits(ns.last(), depth)
    }
}

pub open spec fn node_fits(n: NodeModel, depth: int) -> bool
    decreases n,
{
    match n {
        NodeModel::Section(s) => depth <= 64 && nodes_fit(s.children, depth + 1),
        _ => true,
    }
}

/// Every open element's contents fit at its depth, the finished root's at
/// the top, and at most 64 elements are open.
pub open spec fn depth_inv(st: ParseModel) -> bool {
    &&& st.stack.len() <= 64
    &&& st.pending is Some ==> st.stack.len() < 64
    &&& st.pending matches Some(f) ==> f.children.len() == 0
    &&& forall|i: int| 0 <= i < st.stack.len() ==> nodes_fit(#[trigger] st.stack[i].children, i + 2)
    &&& st.result matches Some(d) ==> nodes_fit(d.children, 2)
}

proof fn lemma_fit_push(ns: Seq<NodeModel>, n: NodeModel, depth: int)
    ensures
        nodes_fit(ns.push(n), depth) == (nodes_fit(ns, depth) && node_fits(n, depth)),
{
    assert(ns.push(n).drop_last() == ns);
}

proof fn lemma_fit_shallower(ns: Seq<NodeModel>, d: int, e: int)
    requires
        d <= e,
        nodes_fit(ns, e),
    ensures
        nodes_fit(ns, d),
    decreases ns,
{
    if ns.len() > 0 {
        assert(nodes_fit(ns.drop_last(), e) && node_fits(ns.last(), e));
        lemma_fit_shallower(ns.drop_last(), d, e);
        if let NodeModel::Section(s) = ns.last() {
            assert(nodes_fit(s.children, e + 1));
            lemma_fit_shallower(s.children, d + 1, e + 1);
        }
        assert(node_fits(ns.last(), d));
        assert(nodes_fit(ns, d) == (nodes_fit(ns.drop_last(), d) && node_fits(ns.last(), d)));
    }
}

proof fn lemma_fit_append_text(children: Seq<NodeModel>, t: Seq<char>, depth: int)
    ensures
        nodes_fit(append_text(children, t), depth) == nodes_fit(children, depth),
{
    if children.len() > 0 && children.last() is Text {
        lemma_fit_push(children.drop_last(), NodeModel::Text(children.last()->Text_0 + t), depth);
        assert(nodes_fit(children, depth) == (nodes_fit(children.drop_last(), depth) && node_fits(
            children.last(),
            depth,
        )));
    } else if t.len() > 0 {
        lemma_fit_push(children, NodeModel::Text(t), depth);
    }
}

proof fn lemma_depth_add_nodes(st: ParseModel, nodes: Seq<NodeModel>)
    requires
        depth_inv(st),
        leaves(nodes),
    ensures
        add_nodes(st, nodes) matches Ok(s2) ==> depth_inv(s2),
    decreases nodes.len(),
{
    if nodes.len() > 0 && st.stack.len() > 0 {
        let n = nodes[0];
        let top = st.stack.last();
        let k = st.stack.len() - 1;
        let rest = nodes.drop_first();
        assert forall|i: int| 0 <= i < rest.len() implies (#[trigger] rest[i] is Text || (rest[i] is Variable
            && valid_id(rest[i]->Variable_0.id))) by {
            assert(rest[i] == nodes[i + 1]);
        }
        assert(n is Text || n is Variable);
        assert(nodes_fit(top.children, k + 2));
        match n {
            NodeModel::Variable(v) => {
                if !st.ids.contains(v.id) {
                    let top2 = FrameModel { children: top.children.push(n), ..top };
                    let s2 = ParseModel {
                        stack: st.stack.drop_last().push(top2),
                        variables: st.variables.push(v.id),
                        ..st
                    };
                    lemma_fit_push(top.children, n, k + 2);
                    assert forall|i: int| 0 <= i < s2.stack.len() implies nodes_fit(#[trigger] s2.stack[i].children, i + 2) by {
                        if i < k {
                            assert(s2.stack[i] == st.stack[i]);
                        }
                    }
                    lemma_depth_add_nodes(s2, rest);
                }
            },
            NodeModel::Text(t) => {
                let top2 = FrameModel { children: append_text(top.children, t), ..top };
                let s2 = ParseModel { stack: st.stack.drop_last().push(top2), ..st };
                lemma_fit_append_text(top.children, t, k + 2);
                assert forall|i: int| 0 <= i < s2.stack.len() implies nodes_fit(#[trigger] s2.stack[i].children, i + 2) by {
                    if i < k {
                        assert(s2.stack[i] == st.stack[i]);
                    }
                }
                lemma_depth_add_nodes(s2, rest);
            },
            NodeModel::Section(_) => {},
        }
    }
}

/// Finishing the element `f` that stood at depth `stack.len()`.
proof fn lemma_depth_finish(st: ParseModel, f: FrameModel)
    requires
        st.stack.len() < 64,
        st.pending matches Some(p) ==> p.children.len() == 0,
        st.pending is Some ==> st.stack.len() < 64,
        forall|i: int| 0 <= i < st.stack.len() ==> nodes_fit(#[trigger] st.stack[i].children, i + 2),
        st.result matches Some(d) ==> nodes_fit(d.children, 2),
        nodes_fit(f.children, st.stack.len() as int + 2),
    ensures
        finish_frame(st, f) matches Ok(s2) ==> depth_inv(s2),
{
    if let Ok(s2) = finish_frame(st, f) {
        if f.root {
            lemma_fit_shallower(f.children, 2, st.stack.len() as int + 2);
        } else {
            let k = st.stack.len() - 1;
            let top = st.stack.last();
            let node = NodeModel::Section(
                SectionModel {
                    id: f.attrs.id,
                    limits: crate::parser::frame_limits(f)->Ok_0,
                    children: f.children,
                    position: f.position,
                },
            );
            assert(nodes_fit(top.children, k + 2));
            lemma_fit_push(top.children, node, k + 2);
            assert forall|i: int| 0 <= i < s2.stack.len() implies nodes_fit(#[trigger] s2.stack[i].children, i + 2) by {
                if i < k {
                    assert(s2.stack[i] == st.stack[i]);
                }
            }
        }
    }
}

proof fn lemma_depth_step(src: Seq<char>, st: ParseModel, tok: XmlToken)
    requires
        depth_inv(st),
    ensures
        step(src, st, tok) matches Ok(s2) ==> depth_inv(s2),
{
    match tok {
        XmlToken::Start(span) => {},
        XmlToken::Attr(local, value, span) => {},
        XmlToken::End(span) => {
            if let Ok(s2) = end_step(src, st, span) {
                let frame = st.pending.unwrap();
                let ids = match frame.attrs.id {
                    None => st.ids,
                    Some(id) => st.ids.push(id),
                };
                let opened = ParseModel { stack: st.stack.push(frame), pending: None, ids, ..st };
                assert(nodes_fit(frame.children, st.stack.len() as int + 2));
                let (a, b) = crate::parser::char_range(src, span).unwrap();
                let empty = a < b && src[a] == '/';
                if empty {
                    let closing = ParseModel { stack: st.stack, ..opened };
                    lemma_depth_finish(closing, frame);
                } else {
                    assert forall|i: int| 0 <= i < opened.stack.len() implies nodes_fit(#[trigger] opened.stack[i].children, i + 2) by {
                        if i < st.stack.len() {
                            assert(opened.stack[i] == st.stack[i]);
                        }
                    }
                }
            }
        },
        XmlToken::Close(local, span) => {
            if let Ok(s2) = close_step(src, st, local, span) {
                let k = st.stack.len() - 1;
                let frame = st.stack.last();
                let closing = ParseModel { stack: st.stack.drop_last(), ..st };
                assert(nodes_fit(st.stack[k].children, k + 2));
                assert forall|i: int| 0 <= i < closing.stack.len() implies nodes_fit(#[trigger] closing.stack[i].children, i + 2) by {
                    assert(closing.stack[i] == st.stack[i]);
                }
                lemma_depth_finish(closing, frame);
            }
        },
        XmlToken::Text(r) => {
            if let Ok(s2) = text_step(src, st, r) {
                if let Some((a, b)) = crate::parser::char_range(src, r) {
                    if st.stack.len() > 0 {
                        lemma_text_leaves(src, a, b, true);
                        if let Ok(nodes) = text_nodes(src, a, b, true) {
                            lemma_depth_add_nodes(st, nodes);
                        }
                    }
                }
            }
        },
        _ => {},
    }
}

proof fn lemma_depth_run(src: Seq<char>, st: ParseModel, tokens: Seq<XmlToken>)
    requires
        depth_inv(st),
    ensures
        run(src, st, tokens) matches Ok(s2) ==> depth_inv(s2),
    decreases tokens.len(),
{
    if tokens.len() > 0 {
        lemma_depth_step(src, st, tokens[0]);
        if let Ok(s2) = step(src, st, tokens[0]) {
            lemma_depth_run(src, s2, tokens.drop_first());
        }
    }
}

proof fn lemma_depth_codes()
    ensures
        "signature"@ != "depth"@,
        "reason"@ != "depth"@,
        "id"@ != "depth"@,
        "document"@ != "depth"@,
        "tokenizer"@ != "depth"@,
{
    reveal_strlit("signature");
    reveal_strlit("reason");
    reveal_strlit("id");
    reveal_strlit("document");
    reveal_strlit("tokenizer");
    reveal_strlit("depth");
    assert("signature"@.len() != "depth"@.len());
    assert("reason"@.len() != "depth"@.len());
    assert("id"@.len() != "depth"@.len());
    assert("document"@.len() != "depth"@.len());
    assert("tokenizer"@.len() != "depth"@.len());
}

proof fn lemma_register_no_depth(st: WalkModel, id: Seq<char>, variable: bool, p: Position)
    requires
        without_code(st.diags, "depth"@),
    ensures
        without_code(register(st, id, variable, p).diags, "depth"@),
        !register(st, id, variable, p).stopped,
{
    lemma_depth_codes();
    lemma_without_concat(st.diags, seq![id_diag(id, p)], "depth"@);
}

proof fn lemma_walk_node_fits(n: NodeModel, st: WalkModel, depth: int)
    requires
        node_fits(n, depth),
        !st.stopped,
        without_code(st.diags, "depth"@),
    ensures
        !walk_node(n, st, depth).stopped,
        without_code(walk_node(n, st, depth).diags, "depth"@),
    decreases n,
{
    match n {
        NodeModel::Section(s) => {
            lemma_depth_codes();
            let rd = reason_diags(s.limits, s.position);
            assert(without_code(rd, "depth"@));
            lemma_without_concat(st.diags, rd, "depth"@);
            let start = WalkModel { diags: st.diags + rd, ids: st.ids, stopped: false };
            lemma_walk_nodes_fit(s.children, start, depth + 1);
            let inner = walk_nodes(s.children, start, depth + 1);
            if let Some(id) = s.id {
                lemma_register_no_depth(inner, id, false, s.position);
            }
        },
        NodeModel::Variable(v) => {
            lemma_register_no_depth(st, v.id, true, v.position);
        },
        NodeModel::Text(_) => {},
    }
}

proof fn lemma_walk_nodes_fit(ns: Seq<NodeModel>, st: WalkModel, depth: int)
    requires
        nodes_fit(ns, depth),
        !st.stopped,
        without_code(st.diags, "depth"@),
    ensures
        !walk_nodes(ns, st, depth).stopped,
        without_code(walk_nodes(ns, st, depth).diags, "depth"@),
    decreases ns,
{
    if ns.len() > 0 {
        lemma_walk_nodes_fit(ns.drop_last(), st, depth);
        lemma_walk_node_fits(ns.last(), walk_nodes(ns.drop_last(), st, depth), depth);
    }
}

/// Bounded nesting, whatever the tokens: a parsed document's sections nest
/// at most 63 deep below the root, so validating it never reports an element
/// deeper than 64.
pub proof fn law_parsed_documents_nest_within_bounds<C: TokenCounter>(
    src: Seq<char>,
    tokens: Seq<XmlToken>,
    c: C,
)
    ensures
        parse_from(src, tokens) matches Ok(d) ==> nodes_fit(d.children, 2) && without_code(
            spec_validate(d, c),
            "depth"@,
        ),
{
    let st = initial();
    lemma_depth_run(src, st, tokens);
    if let Ok(d) = parse_from(src, tokens) {
        lemma_depth_codes();
        let rd = reason_diags(d.limits, d.position);
        assert(without_code(rd, "depth"@));
        let d1 = if d.version != "0.2"@ || d.limits.max_tokens is None {
            seq![diag("document"@, document_message(), d.position)]
        } else {
            Seq::empty()
        };
        let d2 = if d.tokenizer != c.spec_name() {
            seq![diag("tokenizer"@, tokenizer_message(d.tokenizer, c.spec_name()), d.position)]
        } else {
            Seq::empty()
        };
        assert(without_code(d1, "depth"@));
        assert(without_code(d2, "depth"@));
        lemma_without_concat(rd, d1, "depth"@);
        lemma_without_concat(rd + d1, d2, "depth"@);
        lemma_walk_nodes_fit(d.children, WalkModel { diags: rd + d1 + d2, ids: Map::empty(), stopped: false }, 2);
    }
}


/// A declared limit comes with a reason that is not blank.
pub open spec fn limits_reasoned(l: LimitsModel) -> bool {
    l.declares_limit() ==> (l.reason matches Some(r) && !blank(r))
}

/// A text is not empty; a section's limits are reasoned and its children
/// well formed.
pub open spec fn node_shaped(n: NodeModel) -> bool
    decreases n,
{
    match n {
        NodeModel::Text(t) => t.len() > 0,
        NodeModel::Variable(_) => true,
        NodeModel::Section(s) => limits_reasoned(s.limits) && nodes_shaped(s.children),
    }
}

/// Every node is well formed and no two texts stand side by side.
pub open spec fn nodes_shaped(ns: Seq<NodeModel>) -> bool
    decreases ns,
{
    if ns.len() == 0 {
        true
    } else {
        &&& nodes_shaped(ns.drop_last())
        &&& node_shaped(ns.last())
        &&& !(ns.len() >= 2 && ns[ns.len() - 2] is Text && ns.last() is Text)
    }
}

/// A parsed document's root declares its total limit with a reason, and its
/// contents are well formed.
pub open spec fn document_shaped(d: DocumentModel) -> bool {
    &&& d.limits.max_tokens is Some
    &&& limits_reasoned(d.limits)
    &&& nodes_shaped(d.children)
}

pub open spec fn shape_inv(st: ParseModel) -> bool {
    &&& st.pending matches Some(f) ==> f.children.len() == 0
    &&& forall|i: int| 0 <= i < st.stack.len() ==> nodes_shaped(#[trigger] st.stack[i].children)
    &&& st.result matches Some(d) ==> document_shaped(d)
}

proof fn lemma_shaped_push(ns: Seq<NodeModel>, n: NodeModel)
    ensures
        nodes_shaped(ns.push(n)) == (nodes_shaped(ns) && node_shaped(n) && !(ns.len() > 0 && ns.last() is Text
            && n is Text)),
{
    assert(ns.push(n).drop_last() == ns);
    if ns.len() > 0 {
        assert(ns.push(n)[ns.len() - 1] == ns.last());
    }
}

proof fn lemma_shaped_append_text(children: Seq<NodeModel>, t: Seq<char>)
    requires
        nodes_shaped(children),
    ensures
        nodes_shaped(append_text(children, t)),
{
    if children.len() > 0 && children.last() is Text {
        let u = children.last()->Text_0;
        let rest = children.drop_last();
        assert(nodes_shaped(rest) && node_shaped(children.last()));
        if rest.len() > 0 {
            assert(rest.last() == children[children.len() - 2]);
        }
        lemma_shaped_push(rest, NodeModel::Text(u + t));
    } else if t.len() > 0 {
        lemma_shaped_push(children, NodeModel::Text(t));
    }
}

proof fn lemma_shape_add_nodes(st: ParseModel, nodes: Seq<NodeModel>)
    requires
        shape_inv(st),
        leaves(nodes),
    ensures
        add_nodes(st, nodes) matches Ok(s2) ==> shape_inv(s2),
    decreases nodes.len(),
{
    if nodes.len() > 0 && st.stack.len() > 0 {
        let n = nodes[0];
        let top = st.stack.last();
        let k = st.stack.len() - 1;
        let rest = nodes.drop_first();
        assert forall|i: int| 0 <= i < rest.len() implies (#[trigger] rest[i] is Text || (rest[i] is Variable
            && valid_id(rest[i]->Variable_0.id))) by {
            assert(rest[i] == nodes[i + 1]);
        }
        assert(n is Text || n is Variable);
        assert(nodes_shaped(top.children));
        match n {
            NodeModel::Variable(v) => {
                if !st.ids.contains(v.id) {
                    let top2 = FrameModel { children: top.children.push(n), ..top };
                    let s2 = ParseModel {
                        stack: st.stack.drop_last().push(top2),
                        variables: st.variables.push(v.id),
                        ..st
                    };
                    lemma_shaped_push(top.children, n);
                    assert forall|i: int| 0 <= i < s2.stack.len() implies nodes_shaped(#[trigger] s2.stack[i].children) by {
                        if i < k {
                            assert(s2.stack[i] == st.stack[i]);
                        }
                    }
                    lemma_shape_add_nodes(s2, rest);
                }
            },
            NodeModel::Text(t) => {
                let top2 = FrameModel { children: append_text(top.children, t), ..top };
                let s2 = ParseModel { stack: st.stack.drop_last().push(top2), ..st };
                lemma_shaped_append_text(top.children, t);
                assert forall|i: int| 0 <= i < s2.stack.len() implies nodes_shaped(#[trigger] s2.stack[i].children) by {
                    if i < k {
                        assert(s2.stack[i] == st.stack[i]);
                    }
                }
                lemma_shape_add_nodes(s2, rest);
            },
            NodeModel::Section(_) => {},
        }
    }
}

proof fn lemma_shape_finish(st: ParseModel, f: FrameModel)
    requires
        st.pending matches Some(p) ==> p.children.len() == 0,
        forall|i: int| 0 <= i < st.stack.len() ==> nodes_shaped(#[trigger] st.stack[i].children),
        st.result matches Some(d) ==> document_shaped(d),
        nodes_shaped(f.children),
    ensures
        finish_frame(st, f) matches Ok(s2) ==> shape_inv(s2),
{
    if let Ok(s2) = finish_frame(st, f) {
        let limits = crate::parser::frame_limits(f)->Ok_0;
        assert(limits_reasoned(limits));
        if !f.root {
            let k = st.stack.len() - 1;
            let top = st.stack.last();
            let node = NodeModel::Section(
                SectionModel { id: f.attrs.id, limits, children: f.children, position: f.position },
            );
            assert(nodes_shaped(top.children));
            lemma_shaped_push(top.children, node);
            assert forall|i: int| 0 <= i < s2.stack.len() implies nodes_shaped(#[trigger] s2.stack[i].children) by {
                if i < k {
                    assert(s2.stack[i] == st.stack[i]);
                }
            }
        }
    }
}

proof fn lemma_shape_step(src: Seq<char>, st: ParseModel, tok: XmlToken)
    requires
        shape_inv(st),
    ensures
        step(src, st, tok) matches Ok(s2) ==> shape_inv(s2),
{
    match tok {
        XmlToken::Start(span) => {},
        XmlToken::Attr(local, value, span) => {},
        XmlToken::End(span) => {
            if let Ok(s2) = end_step(src, st, span) {
                let frame = st.pending.unwrap();
                let ids = match frame.attrs.id {
                    None => st.ids,
                    Some(id) => st.ids.push(id),
                };
                let opened = ParseModel { stack: st.stack.push(frame), pending: None, ids, ..st };
                assert(nodes_shaped(frame.children));
                let (a, b) = crate::parser::char_range(src, span).unwrap();
                let empty = a < b && src[a] == '/';
                if empty {
                    let closing = ParseModel { stack: st.stack, ..opened };
                    lemma_shape_finish(closing, frame);
                } else {
                    assert forall|i: int| 0 <= i < opened.stack.len() implies nodes_shaped(#[trigger] opened.stack[i].children) by {
                        if i < st.stack.len() {
                            assert(opened.stack[i] == st.stack[i]);
                        }
                    }
                }
            }
        },
        XmlToken::Close(local, span) => {
            if let Ok(s2) = close_step(src, st, local, span) {
                let k = st.stack.len() - 1;
                let frame = st.stack.last();
                let closing = ParseModel { stack: st.stack.drop_last(), ..st };
                assert(nodes_shaped(st.stack[k].children));
                assert forall|i: int| 0 <= i < closing.stack.len() implies nodes_shaped(#[trigger] closing.stack[i].children) by {
                    assert(closing.stack[i] == st.stack[i]);
                }
                lemma_shape_finish(closing, frame);
            }
        },
        XmlToken::Text(r) => {
            if let Ok(s2) = text_step(src, st, r) {
                if let Some((a, b)) = crate::parser::char_range(src, r) {
                    if st.stack.len() > 0 {
                        lemma_text_leaves(src, a, b, true);
                        if let Ok(nodes) = text_nodes(src, a, b, true) {
                            lemma_shape_add_nodes(st, nodes);
                        }
                    }
                }
            }
        },
        _ => {},
    }
}

proof fn lemma_shape_run(src: Seq<char>, st: ParseModel, tokens: Seq<XmlToken>)
    requires
        shape_inv(st),
    ensures
        run(src, st, tokens) matches Ok(s2) ==> shape_inv(s2),
    decreases tokens.len(),
{
    if tokens.len() > 0 {
        lemma_shape_step(src, st, tokens[0]);
        if let Ok(s2) = step(src, st, tokens[0]) {
            lemma_shape_run(src, s2, tokens.drop_first());
        }
    }
}

/// Well-formed parsed documents, whatever the tokens: the root declares
/// `max-tokens`; every element that declares a limit has a reason that is
/// not blank; no text node is empty and no two text nodes stand side by
/// side. (IDs and nesting: see the two laws above.)
pub proof fn law_parsed_documents_are_well_formed(src: Seq<char>, tokens: Seq<XmlToken>)
    ensures
        parse_from(src, tokens) matches Ok(d) ==> document_shaped(d),
{
    lemma_shape_run(src, initial(), tokens);
}

/// The source a node was read from: text as written, a variable as its
/// placeholder.
pub open spec fn node_source(n: NodeModel) -> Seq<char>
    decreases n,
{
    match n {
        NodeModel::Text(t) => t,
        NodeModel::Variable(v) => seq!['{', '{'] + v.id + seq!['}', '}'],
        NodeModel::Section(s) => nodes_source(s.children),
    }
}

pub open spec fn nodes_source(ns: Seq<NodeModel>) -> Seq<char>
    decreases ns,
{
    if ns.len() == 0 {
        Seq::empty()
    } else {
        nodes_source(ns.drop_last()) + node_source(ns.last())
    }
}

/// No text node is empty and no two stand side by side.
pub open spec fn texts_separate(ns: Seq<NodeModel>) -> bool {
    &&& forall|i: int| 0 <= i < ns.len() && #[trigger] ns[i] is Text ==> ns[i]->Text_0.len() > 0
    &&& forall|i: int| 0 <= i < ns.len() - 1 ==> !(#[trigger] ns[i] is Text && ns[i + 1] is Text)
}

proof fn lemma_source_concat(a: Seq<NodeModel>, b: Seq<NodeModel>)
    ensures
        nodes_source(a + b) == nodes_source(a) + nodes_source(b),
    decreases b.len(),
{
    if b.len() == 0 {
        assert(a + b == a);
        assert(nodes_source(a) + Seq::<char>::empty() == nodes_source(a));
    } else {
        lemma_source_concat(a, b.drop_last());
        assert((a + b).drop_last() == a + b.drop_last());
        assert(nodes_source(a + b.drop_last()) + node_source(b.last()) == nodes_source(a) + (nodes_source(
            b.drop_last(),
        ) + node_source(b.last())));
    }
}

proof fn lemma_source_one(n: NodeModel)
    ensures
        nodes_source(seq![n]) == node_source(n),
{
    let one = seq![n];
    assert(one.drop_last() =~= Seq::<NodeModel>::empty());
    assert(one.last() == n);
    assert(nodes_source(Seq::<NodeModel>::empty()) == Seq::<char>::empty());
    assert(nodes_source(one) == nodes_source(one.drop_last()) + node_source(one.last()));
    assert(Seq::<char>::empty() + node_source(n) =~= node_source(n));
}

proof fn lemma_template_nodes(src: Seq<char>, cur: int, hi: int)
    requires
        0 <= cur <= hi <= src.len(),
    ensures
        text_nodes(src, cur, hi, false) matches Ok(ns) ==> nodes_source(ns) == src.subrange(cur, hi)
            && texts_separate(ns),
    decreases hi - cur,
{
    reveal(text_nodes);
    lemma_text_leaves(src, cur, hi, false);
    match first_pair(src.subrange(cur, hi), '{', '{') {
        None => {
            let l = src.subrange(cur, hi);
            if l.len() > 0 {
                lemma_source_one(NodeModel::Text(l));
            }
        },
        Some(k) => {
            let s = cur + k;
            crate::text::lemma_first_pair(src.subrange(cur, hi), '{', '{');
            match first_pair(src.subrange(s + 2, hi), '}', '}') {
                None => {},
                Some(k2) => {
                    crate::text::lemma_first_pair(src.subrange(s + 2, hi), '}', '}');
                    let e = s + 2 + k2;
                    let id = src.subrange(s + 2, e);
                    if valid_id(id) {
                        lemma_template_nodes(src, e + 2, hi);
                        if let Ok(ns) = text_nodes(src, cur, hi, false) {
                            let rest = text_nodes(src, e + 2, hi, false)->Ok_0;
                            let l = src.subrange(cur, s);
                            let v = NodeModel::Variable(
                                crate::model::VariableModel { id, position: crate::locations::position_at_char(src, s) },
                            );
                            let head = crate::text::text_node(l) + seq![v];
                            assert(ns == head + rest);
                            lemma_source_concat(head, rest);
                            lemma_source_concat(crate::text::text_node(l), seq![v]);
                            lemma_source_one(v);
                            if l.len() > 0 {
                                lemma_source_one(NodeModel::Text(l));
                            } else {
                                assert(crate::text::text_node(l) == Seq::<NodeModel>::empty());
                            }
                            assert(src[s] == '{' && src[s + 1] == '{');
                            assert(src[e] == '}' && src[e + 1] == '}');
                            assert(src.subrange(cur, hi) =~= l + seq!['{', '{'] + id + seq!['}', '}'] + src.subrange(
                                e + 2,
                                hi,
                            ));
                            assert(nodes_source(crate::text::text_node(l)) == l);
                            assert(nodes_source(ns) =~= src.subrange(cur, hi));
                            assert forall|i: int| 0 <= i < ns.len() && #[trigger] ns[i] is Text implies ns[i]->Text_0.len()
                                > 0 by {
                                if i >= head.len() {
                                    assert(ns[i] == rest[i - head.len()]);
                                }
                            }
                            assert forall|i: int| 0 <= i < ns.len() - 1 implies !(#[trigger] ns[i] is Text && ns[i
                                + 1] is Text) by {
                                if i >= head.len() {
                                    assert(ns[i] == rest[i - head.len()]);
                                    assert(ns[i + 1] == rest[i + 1 - head.len()]);
                                } else if i == head.len() - 1 {
                                    assert(ns[i] == v);
                                } else {
                                    assert(ns[i + 1] == v);
                                }
                            }
                        }
                    }
                },
            }
        },
    }
}

/// Templates read back: the nodes of a template, with each text as written
/// and each variable as `{{name}}`, give the template exactly, with no entity
/// decoding and no newline change; every node is text or a variable with a
/// valid name; and no text node is empty or next to another.
pub proof fn law_templates_round_trip(src: Seq<char>)
    ensures
        crate::parser::template_nodes(src) matches Ok(ns) ==> nodes_source(ns) == src && leaves(ns)
            && texts_separate(ns),
{
    lemma_template_nodes(src, 0, src.len() as int);
    lemma_text_leaves(src, 0, src.len() as int, false);
    assert(src.subrange(0, src.len() as int) == src);
}
} // verus!
