use search_index::{KDTree, MockEntity, MockKDTree, SearchResult};

fn fruit() -> Vec<MockEntity> {
    vec![
        MockEntity {
            id: 1,
            txt: "Apple".to_string(),
        },
        MockEntity {
            id: 2,
            txt: "Banana".to_string(),
        },
        MockEntity {
            id: 3,
            txt: "Lettuce".to_string(),
        },
    ]
}

#[test]
fn it_works() {
    assert_eq!(2 + 2, 4);
}

#[test]
fn mock_works() {
    let tree = MockKDTree::build(
        &vec![
            MockEntity {
                id: 1,
                txt: "Apple".to_string(),
            },
            MockEntity {
                id: 2,
                txt: "Banana".to_string(),
            },
            MockEntity {
                id: 3,
                txt: "Lettuce".to_string(),
            },
        ],
        true,
    );

    let first_result = tree.search("an");
    assert_eq!(first_result.len(), 1);
    assert_eq!(first_result[0].id, 2);
    assert_eq!(first_result[0].index, 1);

    let second_result = tree.search("e");
    assert_eq!(second_result.len(), 2);
    assert_eq!(second_result[0].id, 1);
    assert_eq!(second_result[0].index, 4);
    assert_eq!(second_result[1].id, 3);
    assert_eq!(second_result[1].index, 1);
}

#[test]
fn mock_case_insensitive_works() {
    let tree = MockKDTree::build(
        &vec![
            MockEntity {
                id: 1,
                txt: "Apple".to_string(),
            },
            MockEntity {
                id: 2,
                txt: "Banana".to_string(),
            },
            MockEntity {
                id: 3,
                txt: "Lettuce".to_string(),
            },
        ],
        false,
    );

    let first_result = tree.search("A");
    assert_eq!(first_result.len(), 2);
    println!("{:?}", first_result);
    assert_eq!(first_result[0].id, 1);
    assert_eq!(first_result[0].index, 0);
    assert_eq!(first_result[1].id, 2);
    assert_eq!(first_result[1].index, 1);

    let second_result = tree.search("a");
    assert_eq!(second_result.len(), 2);
    println!("{:?}", first_result);
    assert_eq!(second_result[0].id, 1);
    assert_eq!(second_result[0].index, 0);
    assert_eq!(second_result[1].id, 2);
    assert_eq!(second_result[1].index, 1);
}

#[test]
fn flag_is_kept() {
    assert!(MockKDTree::build(&fruit(), true).is_case_sensitive());
    assert!(!MockKDTree::build(&fruit(), false).is_case_sensitive());
}

#[test]
fn case_sensitive_index_tells_case_apart() {
    let tree = MockKDTree::build(&fruit(), true);
    assert_eq!(tree.search("A"), vec![SearchResult { id: 1, index: 0 }]);
    assert_eq!(
        tree.search("a"),
        vec![SearchResult { id: 2, index: 1 }]
    );
    assert_eq!(tree.search("APPLE"), Vec::<SearchResult>::new());
}

#[test]
fn folded_index_stores_folded_text() {
    let tree = MockKDTree::build(&fruit(), false);
    assert_eq!(tree.search("APPLE"), vec![SearchResult { id: 1, index: 0 }]);
    assert_eq!(tree.search("apple"), vec![SearchResult { id: 1, index: 0 }]);
    assert_eq!(tree.search("TTU"), vec![SearchResult { id: 3, index: 2 }]);
}

#[test]
fn folded_index_equals_exact_index_over_folded_text() {
    let folded: Vec<MockEntity> = fruit()
        .into_iter()
        .map(|e| MockEntity {
            id: e.id,
            txt: e.txt.to_lowercase(),
        })
        .collect();
    let loose = MockKDTree::build(&fruit(), false);
    let exact = MockKDTree::build(&folded, true);
    for query in ["A", "An", "E", "LETT", "x", ""] {
        assert_eq!(loose.search(query), exact.search(&query.to_lowercase()));
    }
}

#[test]
fn empty_index_answers_nothing() {
    let none: Vec<MockEntity> = Vec::new();
    let tree = MockKDTree::build(&none, true);
    assert_eq!(tree.search("a"), Vec::<SearchResult>::new());
    assert_eq!(tree.search(""), Vec::<SearchResult>::new());
}

#[test]
fn no_match_is_an_empty_answer() {
    let tree = MockKDTree::build(&fruit(), true);
    assert_eq!(tree.search("zebra"), Vec::<SearchResult>::new());
    assert_eq!(tree.search("Bananas"), Vec::<SearchResult>::new());
}

#[test]
fn empty_query_matches_every_entry_at_zero() {
    for case_sensitive in [true, false] {
        let tree = MockKDTree::build(&fruit(), case_sensitive);
        assert_eq!(
            tree.search(""),
            vec![
                SearchResult { id: 1, index: 0 },
                SearchResult { id: 2, index: 0 },
                SearchResult { id: 3, index: 0 },
            ]
        );
    }
}

#[test]
fn later_element_replaces_earlier_one() {
    let elements = vec![
        MockEntity {
            id: 7,
            txt: "first".to_string(),
        },
        MockEntity {
            id: 4,
            txt: "other".to_string(),
        },
        MockEntity {
            id: 7,
            txt: "second".to_string(),
        },
    ];
    let tree = MockKDTree::build(&elements, true);
    assert_eq!(tree.search("first"), Vec::<SearchResult>::new());
    assert_eq!(tree.search("second"), vec![SearchResult { id: 7, index: 0 }]);
    assert_eq!(
        tree.search(""),
        vec![
            SearchResult { id: 4, index: 0 },
            SearchResult { id: 7, index: 0 },
        ]
    );
}

#[test]
fn answers_come_in_order_of_identifier() {
    let mut elements: Vec<MockEntity> = Vec::new();
    for id in [90u32, 3, 41, 7, 1000, 12, 0, 55, 4_000_000_000, 8] {
        elements.push(MockEntity {
            id,
            txt: format!("{}-needle", "x".repeat((id % 7) as usize)),
        });
    }
    let tree = MockKDTree::build(&elements, true);
    let found = tree.search("needle");
    let ids: Vec<u32> = found.iter().map(|r| r.id).collect();
    assert_eq!(ids, vec![0, 3, 7, 8, 12, 41, 55, 90, 1000, 4_000_000_000]);
    for r in &found {
        assert_eq!(r.index, (r.id % 7) as usize + 1);
    }
}

#[test]
fn same_query_same_answer() {
    let tree = MockKDTree::build(&fruit(), false);
    let again = MockKDTree::build(&fruit(), false);
    let first = tree.search("e");
    assert_eq!(first, tree.search("e"));
    assert_eq!(first, again.search("e"));
    assert_eq!(
        first,
        vec![
            SearchResult { id: 1, index: 4 },
            SearchResult { id: 3, index: 1 },
        ]
    );
}

#[test]
fn offsets_count_code_units() {
    let elements = vec![
        MockEntity {
            id: 1,
            txt: "héllo".to_string(),
        },
        MockEntity {
            id: 2,
            txt: "日本語のテキスト".to_string(),
        },
    ];
    let tree = MockKDTree::build(&elements, true);
    assert_eq!(tree.search("llo"), vec![SearchResult { id: 1, index: 3 }]);
    assert_eq!(tree.search("語"), vec![SearchResult { id: 2, index: 6 }]);
    assert_eq!(tree.search("é"), vec![SearchResult { id: 1, index: 1 }]);
}

#[test]
fn folding_reaches_beyond_ascii() {
    let elements = vec![MockEntity {
        id: 5,
        txt: "ÄRGER im Büro".to_string(),
    }];
    let tree = MockKDTree::build(&elements, false);
    assert_eq!(tree.search("ärger"), vec![SearchResult { id: 5, index: 0 }]);
    assert_eq!(tree.search("BÜRO"), vec![SearchResult { id: 5, index: 10 }]);
    let exact = MockKDTree::build(&elements, true);
    assert_eq!(exact.search("ärger"), Vec::<SearchResult>::new());
}

#[test]
fn first_of_several_occurrences_is_found() {
    let elements = vec![MockEntity {
        id: 9,
        txt: "abcabcabc".to_string(),
    }];
    let tree = MockKDTree::build(&elements, true);
    assert_eq!(tree.search("bc"), vec![SearchResult { id: 9, index: 1 }]);
    assert_eq!(tree.search("cab"), vec![SearchResult { id: 9, index: 2 }]);
    assert_eq!(tree.search("abcabcabc"), vec![SearchResult { id: 9, index: 0 }]);
    assert_eq!(tree.search("abcabcabca"), Vec::<SearchResult>::new());
}
