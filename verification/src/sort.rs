//! Putting results in order.

use crate::result::SearchResult;
use vstd::prelude::*;

verus! {

/// No result stands before one that precedes it.
pub open spec fn ordered(results: Seq<SearchResult>) -> bool {
    forall|i: int, j: int| 0 <= i < j < results.len() ==> !results[j].precedes(results[i])
}

/// The place at which `item` enters an ordered sequence: behind everything
/// that does not come after it.
fn insertion_point(sorted: &Vec<SearchResult>, item: &SearchResult) -> (at: usize)
    requires
        ordered(sorted@),
    ensures
        at <= sorted@.len(),
        forall|k: int| 0 <= k < at ==> !item.precedes(sorted@[k]),
        forall|k: int| at <= k < sorted@.len() ==> item.precedes(sorted@[k]),
{
    let n: usize = sorted.len();
    let mut at: usize = 0;
    while at < n && !item.comes_before(&sorted[at])
        invariant
            n == sorted@.len(),
            at <= n,
            forall|k: int| 0 <= k < at ==> !item.precedes(sorted@[k]),
        decreases n - at,
    {
        at = at + 1;
    }
    assert forall|k: int| at <= k < sorted@.len() implies item.precedes(sorted@[k]) by {
        if at < k {
            assert(!sorted@[k].precedes(sorted@[at as int]));
        }
    }
    at
}

/// Sorts the results by identifier, then by offset: the same results, each as
/// often as before, in ascending order.
pub fn sort_results(results: &mut Vec<SearchResult>)
    ensures
        ordered(final(results)@),
        final(results)@.to_multiset() == old(results)@.to_multiset(),
{
    let n: usize = results.len();
    let mut sorted: Vec<SearchResult> = Vec::new();
    let mut done: usize = 0;
    assert(results@.take(0) =~= sorted@);
    while done < n
        invariant
            n == results@.len(),
            done <= n,
            results@ == old(results)@,
            ordered(sorted@),
            sorted@.to_multiset() == results@.take(done as int).to_multiset(),
        decreases n - done,
    {
        let item: SearchResult = results[done];
        let at: usize = insertion_point(&sorted, &item);
        proof {
            let before = sorted@;
            let after = before.insert(at as int, item);
            assert forall|i: int, j: int| 0 <= i < j < after.len() implies !after[j].precedes(
                after[i],
            ) by {
                if j < at {
                    assert(after[i] == before[i] && after[j] == before[j]);
                } else if j == at {
                    assert(after[i] == before[i]);
                } else if i < at {
                    assert(after[i] == before[i] && after[j] == before[j - 1]);
                } else if i == at {
                    assert(after[j] == before[j - 1]);
                } else {
                    assert(after[i] == before[i - 1] && after[j] == before[j - 1]);
                }
            }
            vstd::seq_lib::to_multiset_insert(before, at as int, item);
            vstd::seq_lib::to_multiset_build(results@.take(done as int), item);
            assert(results@.take(done + 1) =~= results@.take(done as int).push(item));
        }
        sorted.insert(at, item);
        done = done + 1;
    }
    assert(results@.take(n as int) =~= results@);
    *results = sorted;
}

} // verus!
