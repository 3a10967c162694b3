//! Text as the index sees it: case folding, and the search for the first
//! occurrence of one byte string in another.

use vstd::prelude::*;
use vstd::utf8::encode_utf8;

verus! {

/// The lower-case form of a text, as `str::to_lowercase` computes it: the
/// Unicode default mapping, which depends on nothing but the text.
pub uninterp spec fn lowercase_of(text: Seq<char>) -> Seq<char>;

/// The text as an index with the given policy stores and looks for it:
/// unchanged where case matters, folded to lower case where it does not.
/// The empty text has no letters to fold.
pub open spec fn normalized(text: Seq<char>, case_sensitive: bool) -> Seq<char> {
    if case_sensitive || text.len() == 0 {
        text
    } else {
        lowercase_of(text)
    }
}

/// `needle` stands in `hay` at offset `at`.
pub open spec fn occurs_at(hay: Seq<u8>, needle: Seq<u8>, at: int) -> bool {
    &&& 0 <= at
    &&& at + needle.len() <= hay.len()
    &&& hay.subrange(at, at + needle.len()) == needle
}

/// `needle` stands in `hay` at offset `at` and at no smaller offset.
pub open spec fn first_occurs_at(hay: Seq<u8>, needle: Seq<u8>, at: int) -> bool {
    &&& occurs_at(hay, needle, at)
    &&& forall|earlier: int| 0 <= earlier < at ==> !occurs_at(hay, needle, earlier)
}

/// The smallest offset at which `needle` stands in `hay`, if there is one.
pub open spec fn first_occurrence(hay: Seq<u8>, needle: Seq<u8>) -> Option<int> {
    if exists|at: int| occurs_at(hay, needle, at) {
        Some(choose|at: int| first_occurs_at(hay, needle, at))
    } else {
        None
    }
}

/// The offset, in UTF-8 code units, of the first occurrence of `query` in
/// `text`.
pub open spec fn match_offset(text: Seq<char>, query: Seq<char>) -> Option<int> {
    first_occurrence(encode_utf8(text), encode_utf8(query))
}

/// An offset that is a first occurrence is the first occurrence.
pub proof fn lemma_first_occurrence_is(hay: Seq<u8>, needle: Seq<u8>, at: int)
    requires
        first_occurs_at(hay, needle, at),
    ensures
        first_occurrence(hay, needle) == Some(at),
{
    let chosen = choose|c: int| first_occurs_at(hay, needle, c);
    assert(first_occurs_at(hay, needle, chosen));
    if chosen < at {
        assert(!occurs_at(hay, needle, chosen));
    }
    if at < chosen {
        assert(!occurs_at(hay, needle, at));
    }
}

/// Where there is a first occurrence, it is one: the least offset exists
/// whenever any offset does.
pub proof fn lemma_first_occurrence_some(hay: Seq<u8>, needle: Seq<u8>)
    ensures
        match first_occurrence(hay, needle) {
            Some(at) => first_occurs_at(hay, needle, at),
            None => forall|at: int| !occurs_at(hay, needle, at),
        },
{
    if exists|at: int| occurs_at(hay, needle, at) {
        let some = choose|at: int| occurs_at(hay, needle, at);
        lemma_least_occurrence(hay, needle, some, 0);
    }
}

/// Below a known occurrence, a scan upwards from `from` meets a first one.
proof fn lemma_least_occurrence(hay: Seq<u8>, needle: Seq<u8>, known: int, from: int)
    requires
        occurs_at(hay, needle, known),
        0 <= from <= known,
        forall|earlier: int| 0 <= earlier < from ==> !occurs_at(hay, needle, earlier),
    ensures
        exists|at: int| first_occurs_at(hay, needle, at),
    decreases known - from,
{
    if occurs_at(hay, needle, from) {
        assert(first_occurs_at(hay, needle, from));
    } else {
        lemma_least_occurrence(hay, needle, known, from + 1);
    }
}

/// The empty needle stands at the very start of every text.
pub proof fn lemma_empty_needle(hay: Seq<u8>)
    ensures
        first_occurrence(hay, Seq::<u8>::empty()) == Some(0int),
{
    assert(hay.subrange(0, 0) =~= Seq::<u8>::empty());
    assert(first_occurs_at(hay, Seq::<u8>::empty(), 0));
    lemma_first_occurrence_is(hay, Seq::<u8>::empty(), 0);
}

/// Calls `str::to_lowercase`, which returns the lower-case equivalent of the
/// text as a new `String`. Nothing is proved of it: the result is named
/// `lowercase_of`, and the one fact stated is that folding an empty text leaves
/// it empty.
#[verifier::external_body]
fn lowercase(text: &str) -> (folded: String)
    ensures
        folded@ == lowercase_of(text@),
        text@.len() == 0 ==> folded@.len() == 0,
{
    text.to_lowercase()
}

/// Stores or looks for a text under the given policy.
pub fn normalize(text: &str, case_sensitive: bool) -> (stored: String)
    ensures
        stored@ == normalized(text@, case_sensitive),
{
    if case_sensitive {
        text.to_owned()
    } else {
        let folded = lowercase(text);
        assert(text@.len() == 0 ==> folded@ =~= text@);
        folded
    }
}

/// Whether `needle` stands in `hay` at offset `at`, which leaves room for it.
fn matches_at(hay: &[u8], needle: &[u8], at: usize) -> (found: bool)
    requires
        at + needle@.len() <= hay@.len(),
    ensures
        found == occurs_at(hay@, needle@, at as int),
{
    let n: usize = needle.len();
    let h: usize = hay.len();
    let mut k: usize = 0;
    while k < n
        invariant
            n == needle@.len(),
            h == hay@.len(),
            k <= n,
            at + n <= hay@.len(),
            forall|j: int| 0 <= j < k ==> hay@[at + j] == needle@[j],
        decreases n - k,
    {
        if hay[at + k] != needle[k] {
            proof {
                let window = hay@.subrange(at as int, at + n);
                assert(window[k as int] != needle@[k as int]);
            }
            return false;
        }
        k = k + 1;
    }
    assert(hay@.subrange(at as int, at + n) =~= needle@);
    true
}

/// Scans `hay` from the left for `needle` and returns the first offset at
/// which it stands.
pub fn find_bytes(hay: &[u8], needle: &[u8]) -> (found: Option<usize>)
    ensures
        match found {
            Some(at) => first_occurrence(hay@, needle@) == Some(at as int),
            None => first_occurrence(hay@, needle@).is_none(),
        },
{
    let h: usize = hay.len();
    let n: usize = needle.len();
    if n > h {
        return None;
    }
    let last: usize = h - n;
    let mut at: usize = 0;
    loop
        invariant
            h == hay@.len(),
            n == needle@.len(),
            last == h - n,
            at <= last,
            forall|earlier: int| 0 <= earlier < at ==> !occurs_at(hay@, needle@, earlier),
        decreases last - at,
    {
        if matches_at(hay, needle, at) {
            proof {
                lemma_first_occurrence_is(hay@, needle@, at as int);
            }
            return Some(at);
        }
        if at == last {
            return None;
        }
        at = at + 1;
    }
}

/// Looks for `query` in `text` and returns the offset, in UTF-8 code units, of
/// its first occurrence.
pub fn find(text: &str, query: &str) -> (found: Option<usize>)
    ensures
        match found {
            Some(at) => match_offset(text@, query@) == Some(at as int),
            None => match_offset(text@, query@).is_none(),
        },
{
    find_bytes(text.as_bytes(), query.as_bytes())
}

} // verus!
