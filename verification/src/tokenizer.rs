//! Offline CL100K token counting through `tiktoken-rs`.
use vstd::prelude::*;
use vstd::string::*;

use crate::check::{
    document_countable, flat_countable, lint, node_countable, nodes_countable, render_countable,
    spec_lint, spec_validate, validate, TokenCounter,
};
use crate::check::{join, node_flat, nodes_flat, bindings_view, bound};
use crate::model::{lemma_take_next, node_view, nodes_view, Bindings, Document, Node, NodeModel};
use crate::parser::{parse, spec_parse};
use crate::text::{chars_of, is_whitespace, is_whitespace_char};

verus! {

broadcast use crate::model::lemma_nodes_view;

#[verifier::external_type_specification]
#[verifier::external_body]
pub struct ExCoreBpe(tiktoken_rs::CoreBPE);

/// The number of CL100K tokens that `CoreBPE::encode_ordinary` yields for `text`.
pub uninterp spec fn cl100k_count(text: Seq<char>) -> u64;

/// Offline, exact CL100K token counting. Special-token-looking strings are ordinary
/// text. This counts content, not any provider's message framing overhead.
pub struct Cl100k(tiktoken_rs::CoreBPE);

/// `tiktoken_rs::cl100k_base`: builds the CL100K encoder from the table
/// embedded in the crate and a fixed pattern. Both are constants of the
/// crate, so the build does the same thing on every run, and it succeeds (the
/// crate's own `cl100k_base_singleton` unwraps it). Nothing is claimed of
/// the encoder itself.
#[verifier::external_body]
fn load_cl100k() -> (r: Result<tiktoken_rs::CoreBPE, String>)
    ensures
        r is Ok,
{
    tiktoken_rs::cl100k_base().map_err(|e| e.to_string())
}

/// The longest run of whitespace that CL100K counting accepts.
pub const MAX_WHITESPACE_RUN: usize = 999000;

/// The length of the run of whitespace that ends `s`.
pub open spec fn trailing_whitespace(s: Seq<char>) -> nat
    decreases s.len(),
{
    if s.len() > 0 && is_whitespace(s.last()) {
        trailing_whitespace(s.drop_last()) + 1
    } else {
        0
    }
}

/// No run of whitespace in `s` is longer than `MAX_WHITESPACE_RUN`.
pub open spec fn whitespace_runs_fit(s: Seq<char>) -> bool
    decreases s.len(),
{
    s.len() == 0 || (whitespace_runs_fit(s.drop_last()) && trailing_whitespace(s) <= MAX_WHITESPACE_RUN)
}

/// Whether no run of whitespace in `text` is longer than `MAX_WHITESPACE_RUN`.
pub fn runs_fit(text: &str) -> (r: bool)
    ensures
        r == whitespace_runs_fit(text@),
{
    let c = chars_of(text);
    let mut run: usize = 0;
    let mut ok = true;
    let mut i: usize = 0;
    while i < c.len()
        invariant
            i <= c@.len(),
            c@ == text@,
            run as nat == trailing_whitespace(c@.take(i as int)),
            run <= i,
            ok == whitespace_runs_fit(c@.take(i as int)),
        decreases c@.len() - i,
    {
        proof {
            let t = c@.take(i + 1);
            assert(t.drop_last() =~= c@.take(i as int));
            assert(t.last() == c@[i as int]);
        }
        if is_whitespace_char(c[i]) {
            run = run + 1;
        } else {
            run = 0;
        }
        if run > MAX_WHITESPACE_RUN {
            ok = false;
        }
        i = i + 1;
    }
    assert(c@.take(c@.len() as int) =~= c@);
    ok
}

/// `CoreBPE::encode_ordinary` on the CL100K encoder held by `c`: the length of
/// the token sequence for `text`, taken as a name of `text` alone since every
/// `Cl100k` holds the same encoder. The crate's source unwraps each regex
/// match. The pattern's branch `\s+(?!\S)` runs on fancy-regex's
/// backtracking machine, which pushes one entry per whitespace character of
/// the run it matches and fails past 1,000,000 entries; the other branches
/// run on the `regex` engine or push a few entries. So `text` must hold no
/// run of whitespace longer than `MAX_WHITESPACE_RUN`, which leaves room for
/// those few entries; on longer runs the call panics.
#[verifier::external_body]
fn count_ordinary(c: &Cl100k, text: &str) -> (n: u64)
    requires
        whitespace_runs_fit(text@),
    ensures
        n == cl100k_count(text@),
{
    c.0.encode_ordinary(text).len() as u64
}

impl Cl100k {
    /// Loads the encoder; this always succeeds.
    pub fn new() -> (r: Result<Cl100k, String>)
        ensures
            r is Ok,
    {
        match load_cl100k() {
            Ok(bpe) => Ok(Cl100k(bpe)),
            Err(e) => Err(e),
        }
    }

    /// The content of `nodes` with bindings `bindings` (text, whether it
    /// holds anything, whether a variable is unbound), and whether this
    /// counter can count the content of every section below.
    fn walk_countable(&self, nodes: &Vec<Node>, bindings: Option<&Bindings>) -> (r: (String, bool, bool, bool))
        ensures
            r.0@ == nodes_flat(nodes_view(nodes@), bindings_view(bindings)).text,
            r.1 == nodes_flat(nodes_view(nodes@), bindings_view(bindings)).leaf,
            r.2 == nodes_flat(nodes_view(nodes@), bindings_view(bindings)).unbound,
            r.3 == nodes_countable(nodes_view(nodes@), bindings_view(bindings), *self),
        decreases nodes,
    {
        let ghost ns = nodes_view(nodes@);
        let ghost b = bindings_view(bindings);
        let mut text = String::new();
        let mut leaf = false;
        let mut unbound = false;
        let mut ok = true;
        let mut i: usize = 0;
        proof {
            assert(ns.take(0) =~= Seq::<NodeModel>::empty());
        }
        while i < nodes.len()
            invariant
                i <= nodes@.len(),
                ns == nodes_view(nodes@),
                ns.len() == nodes@.len(),
                b == bindings_view(bindings),
                text@ == nodes_flat(ns.take(i as int), b).text,
                leaf == nodes_flat(ns.take(i as int), b).leaf,
                unbound == nodes_flat(ns.take(i as int), b).unbound,
                ok == nodes_countable(ns.take(i as int), b, *self),
            decreases nodes@.len() - i,
        {
            proof {
                lemma_take_next(ns, i as int);
                assert(ns[i as int] == node_view(nodes@[i as int]));
                let k = ns.take(i + 1);
                assert(k.len() == i + 1);
                assert(nodes_flat(k, b) == join(nodes_flat(k.drop_last(), b), node_flat(k.last(), b)));
                assert(nodes_countable(k, b, *self) == (nodes_countable(k.drop_last(), b, *self) && node_countable(
                    k.last(),
                    b,
                    *self,
                )));
            }
            match &nodes[i] {
                Node::Text { value } => {
                    text.append(value.as_str());
                    leaf = true;
                },
                Node::Variable(v) => {
                    leaf = true;
                    match bindings {
                        None => {
                            unbound = true;
                            assert(text@ =~= text@ + Seq::<char>::empty());
                        },
                        Some(m) => match m.get(v.id.as_str()) {
                            Some(value) => {
                                text.append(value.as_str());
                            },
                            None => {
                                assert(text@ =~= text@ + Seq::<char>::empty());
                            },
                        },
                    }
                },
                Node::Section(s) => {
                    assert(decreases_to!(nodes => nodes@[i as int]));
                    let (t, l, u, inner) = self.walk_countable(&s.children, bindings);
                    let fits = u || !l || runs_fit(t.as_str());
                    ok = ok && fits && inner;
                    text.append(t.as_str());
                    leaf = leaf || l;
                    unbound = unbound || u;
                },
            }
            i = i + 1;
        }
        proof {
            assert(ns.take(nodes@.len() as int) == ns);
        }
        (text, leaf, unbound, ok)
    }

    /// Whether this counter can count every text that measuring `doc` with
    /// `bindings` counts.
    pub fn can_measure(&self, doc: &Document, bindings: Option<&Bindings>) -> (r: bool)
        ensures
            r == document_countable(doc@, bindings_view(bindings), *self),
    {
        let (t, l, u, inner) = self.walk_countable(&doc.children, bindings);
        inner && (u || !l || runs_fit(t.as_str()))
    }

    /// Whether `lint` may count `doc` with this counter: always, unless the
    /// document validates and holds a text this counter cannot count.
    pub fn can_lint(&self, doc: &Document) -> (r: bool)
        ensures
            r == (spec_validate(doc@, *self).len() == 0 ==> document_countable(doc@, None, *self)),
    {
        let errors = validate(doc, self);
        errors.len() > 0 || self.can_measure(doc, None)
    }

    /// Whether `render` and `render_checked` may count `doc` with `bindings`
    /// and this counter.
    pub fn can_render(&self, doc: &Document, bindings: &Bindings) -> (r: bool)
        ensures
            r == render_countable(doc@, bindings@, *self),
    {
        if !self.can_lint(doc) {
            return false;
        }
        let report = lint(doc, self);
        report.diagnostics.len() > 0 || self.can_measure(doc, Some(bindings))
    }

    /// Whether `check_source` may count `source` with this counter.
    pub fn can_check(&self, source: &str) -> (r: bool)
        ensures
            r == (spec_parse(source@) matches Ok(d) ==> (spec_validate(d, *self).len() == 0
                ==> document_countable(d, None, *self))),
    {
        match parse(source) {
            Ok(doc) => self.can_lint(&doc),
            Err(_) => true,
        }
    }
}

impl TokenCounter for Cl100k {
    open spec fn spec_name(&self) -> Seq<char> {
        "cl100k_base"@
    }

    open spec fn spec_count(&self, text: Seq<char>) -> u64 {
        cl100k_count(text)
    }

    open spec fn spec_countable(&self, text: Seq<char>) -> bool {
        whitespace_runs_fit(text)
    }

    fn name(&self) -> (r: &str) {
        "cl100k_base"
    }

    fn count(&self, text: &str) -> (n: u64) {
        count_ordinary(self, text)
    }
}

} // verus!
