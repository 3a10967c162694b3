//! What holds of every index that keeps the contract of `KDTree`, stated over
//! the stored entries and the answers, and proved.

use crate::answer::{hit, is_answer, lemma_answer_unique};
use crate::index::entries_of;
use crate::result::SearchResult;
use crate::sort::ordered;
use crate::text::{
    first_occurs_at, lemma_empty_needle, lemma_first_occurrence_some, match_offset, normalized,
    occurs_at,
};
use vstd::prelude::*;
use vstd::utf8::encode_utf8;

verus! {

/// Determinism: a query has one answer. Whatever order the entries were
/// visited in, two answers to the same query over the same elements and the
/// same policy are the same sequence.
pub proof fn law_one_answer(
    pairs: Seq<(u32, Seq<char>)>,
    case_sensitive: bool,
    query: Seq<char>,
    first: Seq<SearchResult>,
    second: Seq<SearchResult>,
)
    requires
        is_answer(entries_of(pairs, case_sensitive), normalized(query, case_sensitive), first),
        is_answer(entries_of(pairs, case_sensitive), normalized(query, case_sensitive), second),
    ensures
        first == second,
{
    lemma_answer_unique(
        entries_of(pairs, case_sensitive),
        normalized(query, case_sensitive),
        first,
        second,
    );
}

/// Ordering: an answer is sorted by identifier and then by offset, no two of
/// its results are equal, and no entry contributes more than one result.
pub proof fn law_answers_are_ordered(
    entries: Map<u32, Seq<char>>,
    query: Seq<char>,
    results: Seq<SearchResult>,
)
    requires
        is_answer(entries, query, results),
    ensures
        ordered(results),
        forall|i: int, j: int|
            0 <= i < j < results.len() ==> results[i].precedes(results[j]),
        results.no_duplicates(),
        forall|i: int, j: int|
            0 <= i < results.len() && 0 <= j < results.len() && results[i].id == results[j].id
                ==> i == j,
{
    assert forall|i: int, j: int| 0 <= i < j < results.len() implies results[i].precedes(
        results[j],
    ) && !results[j].precedes(results[i]) by {
        assert(results[i].id < results[j].id);
    }
    assert forall|i: int, j: int|
        0 <= i < results.len() && 0 <= j < results.len() && results[i].id
            == results[j].id implies i == j by {
        if i < j {
            assert(results[i].id < results[j].id);
        }
        if j < i {
            assert(results[j].id < results[i].id);
        }
    }
}

/// The pairs with every text folded to lower case.
pub open spec fn folded(pairs: Seq<(u32, Seq<char>)>) -> Seq<(u32, Seq<char>)> {
    Seq::new(pairs.len(), |i: int| (pairs[i].0, normalized(pairs[i].1, false)))
}

/// An index that ignores case stores what an exact index over the folded
/// texts stores.
proof fn lemma_folded_entries(pairs: Seq<(u32, Seq<char>)>)
    ensures
        entries_of(pairs, false) == entries_of(folded(pairs), true),
    decreases pairs.len(),
{
    if pairs.len() > 0 {
        lemma_folded_entries(pairs.drop_last());
        assert(folded(pairs).drop_last() =~= folded(pairs.drop_last()));
        assert(folded(pairs).last() == (pairs.last().0, normalized(pairs.last().1, false)));
        let stored = normalized(pairs.last().1, false);
        assert(normalized(stored, true) == stored);
    }
}

/// Normalization: an index that ignores case answers a query as an exact
/// index over the folded texts answers the folded query, and an exact index
/// stores and looks for every text as it is.
pub proof fn law_folding(
    pairs: Seq<(u32, Seq<char>)>,
    query: Seq<char>,
    results: Seq<SearchResult>,
)
    ensures
        is_answer(entries_of(pairs, false), normalized(query, false), results) <==> is_answer(
            entries_of(folded(pairs), true),
            normalized(normalized(query, false), true),
            results,
        ),
        normalized(query, true) == query,
        forall|at: int|
            0 <= at < pairs.len() && (forall|later: int|
                at < later < pairs.len() ==> pairs[later].0 != pairs[at].0) ==> entries_of(
                pairs,
                true,
            )[(#[trigger] pairs[at]).0] == pairs[at].1,
{
    lemma_folded_entries(pairs);
    assert forall|at: int|
        0 <= at < pairs.len() && (forall|later: int|
            at < later < pairs.len() ==> pairs[later].0 != pairs[at].0) implies entries_of(
        pairs,
        true,
    )[(#[trigger] pairs[at]).0] == pairs[at].1 by {
        law_last_write_wins(pairs, true, at);
    }
}

/// Last write wins: the text stored under an identifier is that of the last
/// element with this identifier, in the form the policy asks for. Where two
/// elements share an identifier, the earlier one leaves no trace.
pub proof fn law_last_write_wins(pairs: Seq<(u32, Seq<char>)>, case_sensitive: bool, last: int)
    requires
        0 <= last < pairs.len(),
        forall|later: int| last < later < pairs.len() ==> pairs[later].0 != pairs[last].0,
    ensures
        entries_of(pairs, case_sensitive).contains_key(pairs[last].0),
        entries_of(pairs, case_sensitive)[pairs[last].0] == normalized(
            pairs[last].1,
            case_sensitive,
        ),
    decreases pairs.len(),
{
    if last < pairs.len() - 1 {
        assert(pairs.last().0 != pairs[last].0);
        assert(pairs.drop_last()[last] == pairs[last]);
        law_last_write_wins(pairs.drop_last(), case_sensitive, last);
    }
}

/// The index holds an entry for an identifier exactly if some element has it.
pub proof fn law_entries_are_the_elements(
    pairs: Seq<(u32, Seq<char>)>,
    case_sensitive: bool,
    id: u32,
)
    ensures
        entries_of(pairs, case_sensitive).contains_key(id) <==> exists|at: int|
            0 <= at < pairs.len() && (#[trigger] pairs[at]).0 == id,
        entries_of(pairs, case_sensitive).dom().finite(),
    decreases pairs.len(),
{
    if pairs.len() > 0 {
        let front = pairs.drop_last();
        law_entries_are_the_elements(front, case_sensitive, id);
        if entries_of(pairs, case_sensitive).contains_key(id) {
            if pairs.last().0 == id {
                assert(pairs[pairs.len() - 1].0 == id);
            } else {
                let at = choose|at: int| 0 <= at < front.len() && (#[trigger] front[at]).0 == id;
                assert(pairs[at].0 == id);
            }
        }
        if exists|at: int| 0 <= at < pairs.len() && (#[trigger] pairs[at]).0 == id {
            let at = choose|at: int| 0 <= at < pairs.len() && (#[trigger] pairs[at]).0 == id;
            if at < front.len() {
                assert(front[at].0 == id);
            }
        }
    }
}

/// Offsets: an entry has a result in the answer exactly if the query occurs in
/// its text, and the offset of that result is the first at which it occurs,
/// counted in UTF-8 code units.
pub proof fn law_offsets_are_first(
    entries: Map<u32, Seq<char>>,
    query: Seq<char>,
    results: Seq<SearchResult>,
    id: u32,
)
    requires
        is_answer(entries, query, results),
        entries.contains_key(id),
        encode_utf8(entries[id]).len() <= usize::MAX,
    ensures
        match hit(entries, query, id) {
            Some(found) => {
                &&& results.contains(found)
                &&& found.id == id
                &&& first_occurs_at(
                    encode_utf8(entries[id]),
                    encode_utf8(query),
                    found.index as int,
                )
            },
            None => {
                &&& forall|i: int| 0 <= i < results.len() ==> (#[trigger] results[i]).id != id
                &&& forall|at: int| !occurs_at(encode_utf8(entries[id]), encode_utf8(query), at)
            },
        },
{
    lemma_first_occurrence_some(encode_utf8(entries[id]), encode_utf8(query));
    match hit(entries, query, id) {
        Some(found) => {
            assert(hit(entries, query, id).is_some());
            let i = choose|i: int| 0 <= i < results.len() && (#[trigger] results[i]).id == id;
            assert(results[i] == found);
        },
        None => {
            assert forall|i: int| 0 <= i < results.len() implies (#[trigger] results[i]).id
                != id by {
                assert(hit(entries, query, results[i].id) == Some(results[i]));
            }
        },
    }
}

/// The identifiers of the results, in their order.
pub open spec fn ids_of(results: Seq<SearchResult>) -> Seq<u32> {
    Seq::new(results.len(), |i: int| results[i].id)
}

/// Empty query: the empty query is found at offset 0 of every stored text.
/// Under either policy its answer has one result for each entry, and every
/// offset in it is 0.
pub proof fn law_empty_query(
    entries: Map<u32, Seq<char>>,
    case_sensitive: bool,
    results: Seq<SearchResult>,
)
    requires
        is_answer(entries, normalized(Seq::<char>::empty(), case_sensitive), results),
    ensures
        forall|i: int| 0 <= i < results.len() ==> (#[trigger] results[i]).index == 0,
        forall|i: int| 0 <= i < results.len() ==> entries.contains_key((#[trigger] results[i]).id),
        forall|id: u32| #[trigger]
            entries.contains_key(id) ==> exists|i: int|
                0 <= i < results.len() && (#[trigger] results[i]).id == id,
        ids_of(results).no_duplicates(),
        ids_of(results).to_set() == entries.dom(),
        entries.dom().finite(),
        results.len() == entries.dom().len(),
{
    let nothing = Seq::<char>::empty();
    assert(normalized(nothing, case_sensitive) == nothing);
    assert(encode_utf8(nothing) =~= Seq::<u8>::empty());
    assert forall|id: u32| #[trigger] entries.contains_key(id) implies hit(entries, nothing, id)
        == Some(SearchResult { id, index: 0 }) by {
        lemma_empty_needle(encode_utf8(entries[id]));
        assert(match_offset(entries[id], nothing) == Some(0int));
    }
    assert forall|i: int| 0 <= i < results.len() implies (#[trigger] results[i]).index == 0
        && entries.contains_key(results[i].id) by {
        assert(hit(entries, nothing, results[i].id) == Some(results[i]));
    }
    assert forall|id: u32| #[trigger] entries.contains_key(id) implies exists|i: int|
        0 <= i < results.len() && (#[trigger] results[i]).id == id by {
        assert(hit(entries, nothing, id).is_some());
    }
    law_answers_are_ordered(entries, nothing, results);
    let ids = ids_of(results);
    assert forall|id: u32| ids.to_set().contains(id) <==> entries.dom().contains(id) by {
        if ids.to_set().contains(id) {
            let i = choose|i: int| 0 <= i < ids.len() && ids[i] == id;
            assert(results[i].id == id);
        }
        if entries.contains_key(id) {
            let i = choose|i: int| 0 <= i < results.len() && (#[trigger] results[i]).id == id;
            assert(ids[i] == id);
        }
    }
    assert(ids.to_set() =~= entries.dom());
    ids.unique_seq_to_set();
    vstd::seq_lib::seq_to_set_is_finite(ids);
}

} // verus!
