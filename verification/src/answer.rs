//! The answer to a query, as a matter of the stored entries alone.

use crate::result::SearchResult;
use crate::text::match_offset;
use vstd::prelude::*;

verus! {

/// What the entry stored under `id` contributes to the answer: its
/// identifier and the offset of the first occurrence of the query, where
/// there is an entry and the query occurs in it.
pub open spec fn hit(entries: Map<u32, Seq<char>>, query: Seq<char>, id: u32) -> Option<
    SearchResult,
> {
    if entries.contains_key(id) {
        match match_offset(entries[id], query) {
            Some(at) => Some(SearchResult { id, index: at as usize }),
            None => None,
        }
    } else {
        None
    }
}

/// `results` is the answer to `query`: one result for every entry in which
/// the query occurs, nothing else, in ascending order of identifier.
pub open spec fn is_answer(
    entries: Map<u32, Seq<char>>,
    query: Seq<char>,
    results: Seq<SearchResult>,
) -> bool {
    &&& forall|i: int, j: int|
        #![trigger results[i], results[j]]
        0 <= i < j < results.len() ==> results[i].id < results[j].id
    &&& forall|i: int|
        0 <= i < results.len() ==> hit(entries, query, (#[trigger] results[i]).id) == Some(
            results[i],
        )
    &&& forall|id: u32| #[trigger]
        hit(entries, query, id).is_some() ==> exists|i: int|
            0 <= i < results.len() && (#[trigger] results[i]).id == id
}

/// The results for the entries with an identifier below `bound`, in
/// ascending order of identifier.
pub open spec fn answer_below(entries: Map<u32, Seq<char>>, query: Seq<char>, bound: nat) -> Seq<
    SearchResult,
>
    decreases bound,
{
    if bound == 0 {
        Seq::empty()
    } else {
        let below = answer_below(entries, query, (bound - 1) as nat);
        if bound - 1 <= u32::MAX {
            match hit(entries, query, (bound - 1) as u32) {
                Some(found) => below.push(found),
                None => below,
            }
        } else {
            below
        }
    }
}

/// The answer to `query`: the results of all entries, by identifier.
pub open spec fn answer(entries: Map<u32, Seq<char>>, query: Seq<char>) -> Seq<SearchResult> {
    answer_below(entries, query, 0x1_0000_0000)
}

/// Up to any bound, `answer_below` holds one result for every entry below the
/// bound in which the query occurs, nothing else, in ascending order.
proof fn lemma_answer_below(entries: Map<u32, Seq<char>>, query: Seq<char>, bound: nat)
    requires
        bound <= 0x1_0000_0000,
    ensures
        ({
            let results = answer_below(entries, query, bound);
            &&& forall|i: int, j: int|
                #![trigger results[i], results[j]]
                0 <= i < j < results.len() ==> results[i].id < results[j].id
            &&& forall|i: int|
                0 <= i < results.len() ==> (#[trigger] results[i]).id < bound && hit(
                    entries,
                    query,
                    results[i].id,
                ) == Some(results[i])
            &&& forall|id: u32| #[trigger]
                hit(entries, query, id).is_some() && id < bound ==> exists|i: int|
                    0 <= i < results.len() && (#[trigger] results[i]).id == id
        }),
    decreases bound,
{
    if bound > 0 {
        let below = answer_below(entries, query, (bound - 1) as nat);
        let results = answer_below(entries, query, bound);
        let top = (bound - 1) as u32;
        lemma_answer_below(entries, query, (bound - 1) as nat);
        assert forall|id: u32| #[trigger]
            hit(entries, query, id).is_some() && id < bound implies exists|i: int|
            0 <= i < results.len() && (#[trigger] results[i]).id == id by {
            if id < top {
                let i = choose|i: int| 0 <= i < below.len() && (#[trigger] below[i]).id == id;
                assert(results[i] == below[i]);
            } else {
                assert(results[below.len() as int].id == id);
            }
        }
        assert forall|i: int, j: int|
            #![trigger results[i], results[j]]
            0 <= i < j < results.len() implies results[i].id < results[j].id by {
            assert(results[i] == below[i]);
            if j < below.len() {
                assert(results[j] == below[j]);
            }
        }
        assert forall|i: int| 0 <= i < results.len() implies (#[trigger] results[i]).id < bound
            && hit(entries, query, results[i].id) == Some(results[i]) by {
            if i < below.len() {
                assert(results[i] == below[i]);
            }
        }
    }
}

/// Every query has an answer, whatever is stored.
pub proof fn lemma_answer_exists(entries: Map<u32, Seq<char>>, query: Seq<char>)
    ensures
        is_answer(entries, query, answer(entries, query)),
{
    lemma_answer_below(entries, query, 0x1_0000_0000);
}

/// Two answers to the same query over the same entries agree up to any given
/// length.
proof fn lemma_answers_agree(
    entries: Map<u32, Seq<char>>,
    query: Seq<char>,
    first: Seq<SearchResult>,
    second: Seq<SearchResult>,
    upto: int,
)
    requires
        is_answer(entries, query, first),
        is_answer(entries, query, second),
        0 <= upto <= first.len(),
    ensures
        upto <= second.len(),
        forall|i: int| 0 <= i < upto ==> first[i] == second[i],
    decreases upto,
{
    if upto > 0 {
        let at = upto - 1;
        lemma_answers_agree(entries, query, first, second, at);
        let id = first[at].id;
        assert(hit(entries, query, id) == Some(first[at]));
        assert(hit(entries, query, id).is_some());
        let there = choose|k: int| 0 <= k < second.len() && (#[trigger] second[k]).id == id;
        if there < at {
            assert(first[there] == second[there]);
            assert(first[there].id < first[at].id);
        }
        if there > at {
            let skipped = second[at].id;
            assert(second[at].id < second[there].id);
            assert(hit(entries, query, skipped) == Some(second[at]));
            assert(hit(entries, query, skipped).is_some());
            let back = choose|m: int| 0 <= m < first.len() && (#[trigger] first[m]).id == skipped;
            if back < at {
                assert(first[back] == second[back]);
                assert(second[back].id < second[at].id);
            } else if back > at {
                assert(first[at].id < first[back].id);
            }
        }
        assert(hit(entries, query, second[at].id) == Some(second[at]));
    }
}

/// A query has no second answer.
pub proof fn lemma_answer_unique(
    entries: Map<u32, Seq<char>>,
    query: Seq<char>,
    first: Seq<SearchResult>,
    second: Seq<SearchResult>,
)
    requires
        is_answer(entries, query, first),
        is_answer(entries, query, second),
    ensures
        first == second,
{
    lemma_answers_agree(entries, query, first, second, first.len() as int);
    lemma_answers_agree(entries, query, second, first, second.len() as int);
    assert(first =~= second);
}

} // verus!
