//! The index: what every implementation owes its callers, and the plain
//! implementation that scans every stored text.

use crate::answer::{answer, hit, is_answer, lemma_answer_exists, lemma_answer_unique};
use crate::element::{pairs_of, SearchableElement};
use crate::result::SearchResult;
use crate::sort::{ordered, sort_results};
use crate::text::{find, normalize, normalized};
use std::collections::HashMap;
use vstd::prelude::*;
use vstd::std_specs::iter::IteratorSpec;

verus! {

broadcast use vstd::std_specs::hash::group_hash_axioms;

/// The stored texts after the pairs have been entered one by one, each text
/// in the form the policy asks for. A later pair replaces an earlier one with
/// the same identifier.
pub open spec fn entries_of(pairs: Seq<(u32, Seq<char>)>, case_sensitive: bool) -> Map<
    u32,
    Seq<char>,
>
    decreases pairs.len(),
{
    if pairs.len() == 0 {
        Map::empty()
    } else {
        entries_of(pairs.drop_last(), case_sensitive).insert(
            pairs.last().0,
            normalized(pairs.last().1, case_sensitive),
        )
    }
}

/// Results that were gathered in any order, one for every entry in which the
/// query occurs and no other, are the answer once they are sorted.
proof fn lemma_sorted_answer(
    entries: Map<u32, Seq<char>>,
    query: Seq<char>,
    gathered: Seq<SearchResult>,
    sorted: Seq<SearchResult>,
)
    requires
        gathered.no_duplicates(),
        forall|k: int|
            0 <= k < gathered.len() ==> hit(entries, query, (#[trigger] gathered[k]).id) == Some(
                gathered[k],
            ),
        forall|id: u32| #[trigger]
            hit(entries, query, id).is_some() ==> exists|k: int|
                0 <= k < gathered.len() && (#[trigger] gathered[k]).id == id,
        ordered(sorted),
        sorted.to_multiset() == gathered.to_multiset(),
    ensures
        is_answer(entries, query, sorted),
{
    gathered.lemma_multiset_has_no_duplicates();
    sorted.lemma_multiset_has_no_duplicates_conv();
    assert forall|i: int| 0 <= i < sorted.len() implies hit(
        entries,
        query,
        (#[trigger] sorted[i]).id,
    ) == Some(sorted[i]) by {
        assert(sorted.contains(sorted[i]));
        vstd::seq_lib::to_multiset_contains(sorted, sorted[i]);
        vstd::seq_lib::to_multiset_contains(gathered, sorted[i]);
    }
    assert forall|i: int, j: int|
        #![trigger sorted[i], sorted[j]]
        0 <= i < j < sorted.len() implies sorted[i].id < sorted[j].id by {
        assert(!sorted[j].precedes(sorted[i]));
        assert(sorted[i] != sorted[j]);
    }
    assert forall|id: u32| #[trigger] hit(entries, query, id).is_some() implies exists|i: int|
        0 <= i < sorted.len() && (#[trigger] sorted[i]).id == id by {
        let k = choose|k: int| 0 <= k < gathered.len() && (#[trigger] gathered[k]).id == id;
        assert(gathered.contains(gathered[k]));
        vstd::seq_lib::to_multiset_contains(gathered, gathered[k]);
        vstd::seq_lib::to_multiset_contains(sorted, gathered[k]);
    }
}

/// An index over elements: built once, then asked.
pub trait KDTree: Sized {
    /// The text stored under each identifier.
    spec fn entries(&self) -> Map<u32, Seq<char>>;

    /// Whether upper and lower case are told apart.
    spec fn case_sensitive(&self) -> bool;

    /// Builds the index from the elements, in their order.
    fn build<T: SearchableElement>(elements: &Vec<T>, case_sensitive: bool) -> (tree: Self)
        ensures
            tree.entries() == entries_of(pairs_of(elements@), case_sensitive),
            tree.case_sensitive() == case_sensitive,
    ;

    /// Finds every entry in which the query occurs.
    fn search(&self, query: &str) -> (results: Vec<SearchResult>)
        ensures
            results@ == answer(self.entries(), normalized(query@, self.case_sensitive())),
            is_answer(self.entries(), normalized(query@, self.case_sensitive()), results@),
            ordered(results@),
    ;

    fn is_case_sensitive(&self) -> (flag: bool)
        ensures
            flag == self.case_sensitive(),
    ;
}

/// An index that keeps the texts in a hash map and scans all of them for
/// every query.
#[derive(Debug)]
pub struct MockKDTree {
    elements: HashMap<u32, String>,
    case_sensitive: bool,
}

/// The texts of a map of strings.
spec fn texts_of(stored: Map<u32, String>) -> Map<u32, Seq<char>> {
    stored.map_values(|text: String| text@)
}

impl KDTree for MockKDTree {
    closed spec fn entries(&self) -> Map<u32, Seq<char>> {
        texts_of(self.elements@)
    }

    closed spec fn case_sensitive(&self) -> bool {
        self.case_sensitive
    }

    fn build<T: SearchableElement>(elements: &Vec<T>, case_sensitive: bool) -> (tree: Self) {
        let mut stored: HashMap<u32, String> = HashMap::new();
        let n: usize = elements.len();
        let mut done: usize = 0;
        assert(texts_of(stored@) =~= entries_of(pairs_of(elements@).take(0), case_sensitive));
        while done < n
            invariant
                n == elements@.len(),
                done <= n,
                texts_of(stored@) == entries_of(
                    pairs_of(elements@).take(done as int),
                    case_sensitive,
                ),
            decreases n - done,
        {
            let element = &elements[done];
            let id: u32 = element.get_id();
            let text: String = normalize(element.as_searchable_text().as_str(), case_sensitive);
            proof {
                let pairs = pairs_of(elements@);
                assert(pairs.take(done + 1).drop_last() =~= pairs.take(done as int));
                assert(pairs.take(done + 1).last() == pairs[done as int]);
                assert(texts_of(stored@.insert(id, text)) =~= texts_of(stored@).insert(id, text@));
            }
            stored.insert(id, text);
            done = done + 1;
        }
        assert(pairs_of(elements@).take(n as int) =~= pairs_of(elements@));
        MockKDTree { elements: stored, case_sensitive }
    }

    fn search(&self, query: &str) -> (results: Vec<SearchResult>) {
        let query: String = normalize(query, self.case_sensitive);
        let mut results: Vec<SearchResult> = Vec::new();
        let ghost entries = self.entries();
        let ghost stored = self.elements@;
        let ghost all = self.elements.iter().remaining();
        let ghost mut seen: int = 0;
        for pair in it: self.elements.iter()
            invariant
                entries == texts_of(stored),
                stored == self.elements@,
                it.seq() == all,
                seen == it.index(),
                all.no_duplicates(),
                forall|j: int|
                    0 <= j < all.len() ==> stored.contains_key(*(#[trigger] all[j]).0)
                        && stored[*all[j].0] == *all[j].1,
                results@.no_duplicates(),
                forall|k: int|
                    0 <= k < results@.len() ==> hit(entries, query@, (#[trigger] results@[k]).id)
                        == Some(results@[k]) && exists|j: int|
                        0 <= j < seen && *(#[trigger] all[j]).0 == results@[k].id,
                forall|j: int|
                    0 <= j < seen && hit(entries, query@, *(#[trigger] all[j]).0).is_some()
                        ==> exists|k: int|
                        0 <= k < results@.len() && (#[trigger] results@[k]).id == *all[j].0,
        {
            let id: u32 = *pair.0;
            let ghost before = results@;
            assert(pair == all[seen]);
            assert(entries.contains_key(id) && entries[id] == pair.1@);
            match find(pair.1.as_str(), query.as_str()) {
                Some(at) => {
                    let found = SearchResult { id, index: at };
                    results.push(found);
                    proof {
                        assert(hit(entries, query@, id) == Some(found));
                        assert forall|k: int| 0 <= k < before.len() implies before[k] != found by {
                            let j = choose|j: int|
                                0 <= j < seen && *(#[trigger] all[j]).0 == before[k].id;
                            if before[k].id == id {
                                assert(all[j] == all[seen]);
                            }
                        }
                        assert forall|j: int|
                            0 <= j < seen + 1 && hit(
                                entries,
                                query@,
                                *(#[trigger] all[j]).0,
                            ).is_some() implies exists|k: int|
                            0 <= k < results@.len() && (#[trigger] results@[k]).id
                                == *all[j].0 by {
                            if j < seen {
                                let k = choose|k: int|
                                    0 <= k < before.len() && (#[trigger] before[k]).id
                                        == *all[j].0;
                                assert(results@[k] == before[k]);
                            } else {
                                assert(results@[before.len() as int] == found);
                            }
                        }
                        assert forall|k: int| 0 <= k < results@.len() implies hit(
                            entries,
                            query@,
                            (#[trigger] results@[k]).id,
                        ) == Some(results@[k]) && exists|j: int|
                            0 <= j < seen + 1 && *(#[trigger] all[j]).0 == results@[k].id by {
                            if k < before.len() {
                                assert(results@[k] == before[k]);
                                let j = choose|j: int|
                                    0 <= j < seen && *(#[trigger] all[j]).0 == before[k].id;
                                assert(*all[j].0 == results@[k].id);
                            } else {
                                assert(*all[seen].0 == results@[k].id);
                            }
                        }
                    }
                },
                None => {
                    assert(hit(entries, query@, id).is_none());
                },
            }
            proof {
                seen = seen + 1;
            }
        }
        let ghost gathered = results@;
        proof {
            assert(seen == all.len());
            assert forall|id: u32| #[trigger]
                hit(entries, query@, id).is_some() implies exists|k: int|
                0 <= k < gathered.len() && (#[trigger] gathered[k]).id == id by {
                assert(stored.contains_key(id));
                assert(all.contains((&id, &stored[id])));
                let j = choose|j: int| 0 <= j < all.len() && all[j] == (&id, &stored[id]);
                assert(*all[j].0 == id);
            }
        }
        sort_results(&mut results);
        proof {
            lemma_sorted_answer(entries, query@, gathered, results@);
            lemma_answer_exists(entries, query@);
            lemma_answer_unique(entries, query@, results@, answer(entries, query@));
        }
        results
    }

    fn is_case_sensitive(&self) -> (flag: bool) {
        self.case_sensitive
    }
}

} // verus!
