use search_index::element::{MockEntity, SearchableElement};
use search_index::result::SearchResult;
use search_index::sort::sort_results;
use search_index::text::{find, find_bytes, normalize};
use std::cmp::Ordering;

#[test]
fn entity_gives_its_fields() {
    let e = MockEntity {
        id: 17,
        txt: "Seventeen".to_string(),
    };
    assert_eq!(e.get_id(), 17);
    assert_eq!(e.as_searchable_text(), "Seventeen");
    assert_eq!(e.as_searchable_text(), e.as_searchable_text());
}

#[test]
fn results_order_by_id_then_offset() {
    let a = SearchResult { id: 1, index: 9 };
    let b = SearchResult { id: 2, index: 0 };
    let c = SearchResult { id: 2, index: 3 };
    assert_eq!(a.compare(&b), Ordering::Less);
    assert_eq!(b.compare(&a), Ordering::Greater);
    assert_eq!(b.compare(&c), Ordering::Less);
    assert_eq!(c.compare(&b), Ordering::Greater);
    assert_eq!(c.compare(&c), Ordering::Equal);
    assert!(a.comes_before(&b));
    assert!(b.comes_before(&c));
    assert!(!c.comes_before(&c));
    assert!(!c.comes_before(&a));
}

#[test]
fn operators_agree_with_compare() {
    let all = [
        SearchResult { id: 0, index: 5 },
        SearchResult { id: 1, index: 0 },
        SearchResult { id: 1, index: 1 },
        SearchResult { id: 3, index: 0 },
    ];
    for x in &all {
        for y in &all {
            assert_eq!(x.partial_cmp(y), Some(x.compare(y)));
            assert_eq!(x.cmp(y), x.compare(y));
            assert_eq!(x < y, x.comes_before(y));
            assert_eq!(x == y, x.compare(y) == Ordering::Equal);
        }
    }
}

#[test]
fn sorting_orders_and_keeps_everything() {
    let mut v = vec![
        SearchResult { id: 5, index: 1 },
        SearchResult { id: 2, index: 7 },
        SearchResult { id: 5, index: 0 },
        SearchResult { id: 1, index: 3 },
        SearchResult { id: 2, index: 7 },
    ];
    let mut expected = v.clone();
    expected.sort();
    sort_results(&mut v);
    assert_eq!(v, expected);
    assert_eq!(
        v,
        vec![
            SearchResult { id: 1, index: 3 },
            SearchResult { id: 2, index: 7 },
            SearchResult { id: 2, index: 7 },
            SearchResult { id: 5, index: 0 },
            SearchResult { id: 5, index: 1 },
        ]
    );
    let mut none: Vec<SearchResult> = Vec::new();
    sort_results(&mut none);
    assert!(none.is_empty());
}

#[test]
fn normalize_folds_only_where_asked() {
    assert_eq!(normalize("MiXed", true), "MiXed");
    assert_eq!(normalize("MiXed", false), "mixed");
    assert_eq!(normalize("", true), "");
    assert_eq!(normalize("", false), "");
    assert_eq!(normalize("ΑΒΓ", false), "αβγ");
}

#[test]
fn find_agrees_with_std() {
    let texts = ["", "a", "banana", "Lettuce", "aaa", "héllo wörld", "abcabc"];
    let queries = ["", "a", "an", "na", "aa", "aaaa", "ö", "bca", "e", "llo"];
    for t in texts {
        for q in queries {
            assert_eq!(find(t, q), t.find(q), "{:?} in {:?}", q, t);
        }
    }
}

#[test]
fn find_bytes_finds_the_first_offset() {
    assert_eq!(find_bytes(b"banana", b"an"), Some(1));
    assert_eq!(find_bytes(b"banana", b"nan"), Some(2));
    assert_eq!(find_bytes(b"banana", b"banana"), Some(0));
    assert_eq!(find_bytes(b"banana", b"bananas"), None);
    assert_eq!(find_bytes(b"banana", b""), Some(0));
    assert_eq!(find_bytes(b"", b""), Some(0));
    assert_eq!(find_bytes(b"", b"a"), None);
    assert_eq!(find_bytes(b"banana", b"a"), Some(1));
    assert_eq!(find_bytes(b"banana", b"x"), None);
    assert_eq!(find_bytes(&[0, 255, 0, 255, 1], &[255, 1]), Some(3));
}
