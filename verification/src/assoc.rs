//! Association lists keyed by strings: the last entry for a key holds its value.
use vstd::prelude::*;

use crate::parser::str_is;

verus! {

/// The map an association list stands for; a later entry replaces an earlier one.
pub open spec fn assoc_map<V: View>(s: Seq<(String, V)>) -> Map<Seq<char>, V::V>
    decreases s.len(),
{
    if s.len() == 0 {
        Map::empty()
    } else {
        assoc_map(s.drop_last()).insert(s.last().0@, s.last().1@)
    }
}

/// Whether the last entry for `k` sits at `i`.
pub open spec fn last_entry<V>(s: Seq<(String, V)>, k: Seq<char>, i: int) -> bool {
    &&& 0 <= i < s.len()
    &&& s[i].0@ == k
    &&& forall|j: int| i < j < s.len() ==> s[j].0@ != k
}

pub proof fn lemma_assoc_map<V: View>(s: Seq<(String, V)>, k: Seq<char>)
    ensures
        assoc_map(s).dom().contains(k) <==> exists|i: int| 0 <= i < s.len() && s[i].0@ == k,
        forall|i: int| #[trigger] last_entry(s, k, i) ==> assoc_map(s)[k] == s[i].1@,
    decreases s.len(),
{
    if s.len() > 0 {
        let t = s.drop_last();
        lemma_assoc_map(t, k);
        if s.last().0@ == k {
            assert(s[s.len() - 1].0@ == k);
        } else {
            if exists|i: int| 0 <= i < s.len() && s[i].0@ == k {
                let i = choose|i: int| 0 <= i < s.len() && s[i].0@ == k;
                assert(t[i].0@ == k);
            }
            if exists|i: int| 0 <= i < t.len() && t[i].0@ == k {
                let i = choose|i: int| 0 <= i < t.len() && t[i].0@ == k;
                assert(s[i].0@ == k);
            }
            assert forall|i: int| #[trigger] last_entry(s, k, i) implies assoc_map(s)[k] == s[i].1@ by {
                assert(last_entry(t, k, i));
            }
        }
    }
}

/// Pushing an entry sets its key.
pub proof fn lemma_assoc_push<V: View>(s: Seq<(String, V)>, e: (String, V))
    ensures
        assoc_map(s.push(e)) == assoc_map(s).insert(e.0@, e.1@),
{
    assert(s.push(e).drop_last() == s);
}

/// The index of the last entry for `k`.
pub fn assoc_find<V: View>(s: &Vec<(String, V)>, k: &str) -> (r: Option<usize>)
    ensures
        match r {
            None => !assoc_map(s@).dom().contains(k@),
            Some(i) => last_entry(s@, k@, i as int) && assoc_map(s@).dom().contains(k@)
                && assoc_map(s@)[k@] == s@[i as int].1@,
        },
{
    let mut i = s.len();
    while i > 0
        invariant
            i <= s@.len(),
            forall|j: int| i <= j < s@.len() ==> s@[j].0@ != k@,
        decreases i,
    {
        i = i - 1;
        if str_is(s[i].0.as_str(), k) {
            proof {
                lemma_assoc_map(s@, k@);
                assert(last_entry(s@, k@, i as int));
            }
            return Some(i);
        }
    }
    proof {
        lemma_assoc_map(s@, k@);
    }
    None
}

} // verus!
