//! The order of content sources: by category in declaration order, then by
//! name, comparing characters by code point (the order of their UTF-8 bytes).
use vstd::prelude::*;

use super::request::{ContentSource, SourceModel};
use crate::text::chars_of;

verus! {

/// Lexicographic order of character sequences by code point.
pub open spec fn chars_less(a: Seq<char>, b: Seq<char>) -> bool
    decreases a.len(),
{
    if a.len() == 0 {
        b.len() > 0
    } else if b.len() == 0 {
        false
    } else if a[0] != b[0] {
        (a[0] as int) < (b[0] as int)
    } else {
        chars_less(a.drop_first(), b.drop_first())
    }
}

pub proof fn lemma_chars_less(a: Seq<char>, b: Seq<char>, c: Seq<char>)
    ensures
        !chars_less(a, a),
        a != b ==> (chars_less(a, b) || chars_less(b, a)),
        chars_less(a, b) ==> !chars_less(b, a),
        chars_less(a, b) && chars_less(b, c) ==> chars_less(a, c),
    decreases a.len(),
{
    if a.len() > 0 && b.len() > 0 && c.len() > 0 {
        lemma_chars_less(a.drop_first(), b.drop_first(), c.drop_first());
    } else if a.len() > 0 && b.len() > 0 {
        lemma_chars_less(a.drop_first(), b.drop_first(), b.drop_first());
    } else if a.len() > 0 {
        lemma_chars_less(a.drop_first(), a.drop_first(), a.drop_first());
    }
    if a.len() > 0 && b.len() > 0 && a[0] == b[0] && a != b {
        assert(a.drop_first() != b.drop_first()) by {
            if a.drop_first() == b.drop_first() {
                assert(a.len() == b.len());
                assert forall|i: int| 0 <= i < a.len() implies a[i] == b[i] by {
                    if i > 0 {
                        assert(a[i] == a.drop_first()[i - 1]);
                        assert(b[i] == b.drop_first()[i - 1]);
                    }
                }
                assert(a =~= b);
            }
        }
    }
    if a.len() == 0 && b.len() == 0 {
        assert(a =~= b);
    }
    if a.len() > 0 && a[0] != b[0] && b.len() > 0 {
        assert((a[0] as int) != (b[0] as int));
    }
    if a.len() > 0 && b.len() > 0 && c.len() > 0 && a[0] != c[0] && a[0] == b[0] && b[0] != c[0] {
        assert((a[0] as int) != (c[0] as int));
    }
}

/// The position of a source's category in the declaration of `ContentSource`.
pub open spec fn source_rank(s: SourceModel) -> nat {
    match s {
        SourceModel::SystemPrompt => 0,
        SourceModel::ContextBlock(_) => 1,
        SourceModel::ToolDefinitions => 2,
        SourceModel::UserMessage => 3,
        SourceModel::SessionMessage => 4,
        SourceModel::AssistantHistory => 5,
        SourceModel::ToolOutput(_) => 6,
        SourceModel::SystemReminder(_) => 7,
        SourceModel::Hook(_) => 8,
        SourceModel::CompactionSummary => 9,
    }
}

/// The name a source carries, empty for a category without one.
pub open spec fn source_name(s: SourceModel) -> Seq<char> {
    match s {
        SourceModel::ContextBlock(n) => n,
        SourceModel::ToolOutput(n) => n,
        SourceModel::SystemReminder(n) => n,
        SourceModel::Hook(n) => n,
        _ => Seq::empty(),
    }
}

/// The order of `ContentSource`: category first, then name.
pub open spec fn source_less(a: SourceModel, b: SourceModel) -> bool {
    source_rank(a) < source_rank(b) || (source_rank(a) == source_rank(b) && chars_less(
        source_name(a),
        source_name(b),
    ))
}

pub proof fn lemma_source_less(a: SourceModel, b: SourceModel, c: SourceModel)
    ensures
        !source_less(a, a),
        a != b ==> (source_less(a, b) || source_less(b, a)),
        source_less(a, b) ==> !source_less(b, a),
        source_less(a, b) && source_less(b, c) ==> source_less(a, c),
{
    lemma_chars_less(source_name(a), source_name(b), source_name(c));
    lemma_chars_less(source_name(b), source_name(a), source_name(c));
    if a != b && source_rank(a) == source_rank(b) {
        assert(source_name(a) != source_name(b));
    }
}

/// Sources in strictly increasing order.
pub open spec fn sorted_sources(s: Seq<SourceModel>) -> bool {
    forall|i: int, j: int| 0 <= i < j < s.len() ==> source_less(#[trigger] s[i], #[trigger] s[j])
}

fn rank_of(s: &ContentSource) -> (r: u8)
    ensures
        r as nat == source_rank(s@),
{
    match s {
        ContentSource::SystemPrompt => 0,
        ContentSource::ContextBlock { .. } => 1,
        ContentSource::ToolDefinitions => 2,
        ContentSource::UserMessage => 3,
        ContentSource::SessionMessage => 4,
        ContentSource::AssistantHistory => 5,
        ContentSource::ToolOutput { .. } => 6,
        ContentSource::SystemReminder { .. } => 7,
        ContentSource::Hook { .. } => 8,
        ContentSource::CompactionSummary => 9,
    }
}

fn name_of(s: &ContentSource) -> (r: &str)
    ensures
        r@ == source_name(s@),
{
    match s {
        ContentSource::ContextBlock { block_id } => block_id.as_str(),
        ContentSource::ToolOutput { tool_name } => tool_name.as_str(),
        ContentSource::SystemReminder { origin } => origin.as_str(),
        ContentSource::Hook { hook_name } => hook_name.as_str(),
        _ => {
            proof {
                reveal_strlit("");
            }
            ""
        },
    }
}

fn chars_before(a: &Vec<char>, b: &Vec<char>, i: usize) -> (r: bool)
    requires
        i <= a@.len(),
        i <= b@.len(),
    ensures
        r == chars_less(a@.subrange(i as int, a@.len() as int), b@.subrange(i as int, b@.len() as int)),
    decreases a@.len() - i,
{
    let ghost x = a@.subrange(i as int, a@.len() as int);
    let ghost y = b@.subrange(i as int, b@.len() as int);
    if i == a.len() {
        return i < b.len();
    }
    if i == b.len() {
        return false;
    }
    if a[i] != b[i] {
        return a[i] < b[i];
    }
    assert(x.drop_first() =~= a@.subrange(i + 1, a@.len() as int));
    assert(y.drop_first() =~= b@.subrange(i + 1, b@.len() as int));
    chars_before(a, b, i + 1)
}

/// Whether `a` comes before `b`.
pub fn source_before(a: &ContentSource, b: &ContentSource) -> (r: bool)
    ensures
        r == source_less(a@, b@),
{
    let ra = rank_of(a);
    let rb = rank_of(b);
    if ra != rb {
        return ra < rb;
    }
    let x = chars_of(name_of(a));
    let y = chars_of(name_of(b));
    assert(x@.subrange(0, x@.len() as int) =~= x@);
    assert(y@.subrange(0, y@.len() as int) =~= y@);
    chars_before(&x, &y, 0)
}

/// Whether `a` and `b` are the same source.
pub fn same_source(a: &ContentSource, b: &ContentSource) -> (r: bool)
    ensures
        r == (a@ == b@),
{
    proof {
        lemma_source_less(a@, b@, a@);
    }
    !source_before(a, b) && !source_before(b, a)
}

} // verus!
