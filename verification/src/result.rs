//! The answer to a query: which element matched, and where.

use std::cmp::Ordering;
use vstd::prelude::*;

verus! {

/// One match: the identifier of the element and the offset, counted in UTF-8
/// code units, at which the query first occurs in the element's stored text.
#[derive(Debug, Clone, Copy, PartialEq, Eq, Structural, Ord)]
pub struct SearchResult {
    pub id: u32,
    pub index: usize,
}

impl SearchResult {
    /// The strict order of results: by identifier, and by offset where the
    /// identifiers agree.
    pub open spec fn precedes(self, other: SearchResult) -> bool {
        self.id < other.id || (self.id == other.id && self.index < other.index)
    }

    /// The three-way comparison that `precedes` induces.
    pub open spec fn ordering(self, other: SearchResult) -> Ordering {
        if self.precedes(other) {
            Ordering::Less
        } else if other.precedes(self) {
            Ordering::Greater
        } else {
            Ordering::Equal
        }
    }

    /// Whether this result comes strictly before the other.
    pub fn comes_before(&self, other: &SearchResult) -> (before: bool)
        ensures
            before == self.precedes(*other),
    {
        self.id < other.id || (self.id == other.id && self.index < other.index)
    }

    /// Compares two results by identifier first, then by offset.
    pub fn compare(&self, other: &SearchResult) -> (o: Ordering)
        ensures
            o == self.ordering(*other),
            o == Ordering::Equal <==> *self == *other,
    {
        if self.id < other.id {
            Ordering::Less
        } else if self.id > other.id {
            Ordering::Greater
        } else if self.index < other.index {
            Ordering::Less
        } else if self.index > other.index {
            Ordering::Greater
        } else {
            Ordering::Equal
        }
    }
}

impl PartialOrd for SearchResult {
    fn partial_cmp(&self, other: &SearchResult) -> (r: Option<Ordering>) {
        Some(self.compare(other))
    }
}

impl vstd::std_specs::cmp::PartialOrdSpecImpl for SearchResult {
    open spec fn obeys_partial_cmp_spec() -> bool {
        true
    }

    open spec fn partial_cmp_spec(&self, other: &SearchResult) -> Option<Ordering> {
        Some(self.ordering(*other))
    }
}

} // verus!
