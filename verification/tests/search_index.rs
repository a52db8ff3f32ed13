use docfind::codec::LoadError;
use docfind::index::{build_index, search, Index, SearchError};
use docfind::store::FsstStrVec;
use docfind::terms::{InputItem, SearchTokens};

fn strings(v: &[&str]) -> Vec<String> {
    v.iter().map(|s| s.to_string()).collect()
}

#[test]
fn test_fsst_str_vec_basic() {
    let strings = strings(&["hello", "world", "rust", "search"]);
    let vec = FsstStrVec::from_strings(&strings).unwrap();

    assert_eq!(vec.len(), 4);

    assert_eq!(vec.get(0), Some("hello".to_string()));
    assert_eq!(vec.get(1), Some("world".to_string()));
    assert_eq!(vec.get(2), Some("rust".to_string()));
    assert_eq!(vec.get(3), Some("search".to_string()));
}

#[test]
fn test_fsst_str_vec_out_of_bounds() {
    let strings = strings(&["hello", "world"]);
    let vec = FsstStrVec::from_strings(&strings).unwrap();

    assert_eq!(vec.get(5), None);
    assert_eq!(vec.get(100), None);
}

#[test]
fn test_fsst_str_vec_empty() {
    let strings: Vec<String> = vec![];
    let vec = FsstStrVec::from_strings(&strings).unwrap();

    assert_eq!(vec.len(), 0);
    assert_eq!(vec.get(0), None);
}

#[test]
fn test_fsst_str_vec_single_item() {
    let strings = strings(&["solo"]);
    let vec = FsstStrVec::from_strings(&strings).unwrap();

    assert_eq!(vec.len(), 1);
    assert_eq!(vec.get(0), Some("solo".to_string()));
    assert_eq!(vec.get(1), None);
}

#[test]
fn test_fsst_str_vec_long_strings() {
    let strings = strings(&[
        "This is a much longer string that should compress well with FSST",
        "Another long string with similar patterns and repeated words",
        "The third long string continues the pattern with more text",
    ]);
    let vec = FsstStrVec::from_strings(&strings).unwrap();

    assert_eq!(vec.len(), 3);
    assert_eq!(vec.get(0), Some(strings[0].to_string()));
    assert_eq!(vec.get(1), Some(strings[1].to_string()));
    assert_eq!(vec.get(2), Some(strings[2].to_string()));
}

#[test]
fn test_fsst_str_vec_unicode() {
    let strings = strings(&["Hello 世界", "Rust 🦀", "Café ☕"]);
    let vec = FsstStrVec::from_strings(&strings).unwrap();

    assert_eq!(vec.len(), 3);
    assert_eq!(vec.get(0), Some("Hello 世界".to_string()));
    assert_eq!(vec.get(1), Some("Rust 🦀".to_string()));
    assert_eq!(vec.get(2), Some("Café ☕".to_string()));
}

#[test]
fn test_fsst_str_vec_compresses_large_input() {
    // enough bytes that the encoder actually trains and substitutes
    // symbols instead of copying the input through
    let mut many: Vec<String> = Vec::new();
    for i in 0..3000 {
        many.push(format!("document-identifier-{:06}", i));
    }
    let vec = FsstStrVec::from_strings(&many).unwrap();
    assert_eq!(vec.len(), 3000);
    for i in (0..3000).step_by(301) {
        assert_eq!(vec.get(i), Some(many[i].clone()));
    }
    assert_eq!(vec.get(2999), Some(many[2999].clone()));
    assert_eq!(vec.get(3000), None);
}

#[test]
fn test_fsst_str_vec_empty_string_entries() {
    let strings = strings(&["", "middle", ""]);
    let vec = FsstStrVec::from_strings(&strings).unwrap();
    assert_eq!(vec.len(), 3);
    assert_eq!(vec.get(0), Some("".to_string()));
    assert_eq!(vec.get(1), Some("middle".to_string()));
    assert_eq!(vec.get(2), Some("".to_string()));
}

#[test]
fn test_input_item_creation() {
    let item = InputItem {
        id: "item-001".to_string(),
        search_terms: vec![
            (SearchTokens::Raw("hello world".to_string()), 100),
            (SearchTokens::Tokens(vec!["tag1".to_string(), "tag2".to_string()]), 50),
        ],
    };

    assert_eq!(item.id, "item-001");
    assert_eq!(item.search_terms.len(), 2);
}

#[test]
fn test_search_tokens_raw() {
    let tokens = SearchTokens::Raw("Hello World TEST".to_string());
    let keywords: Vec<String> = match tokens {
        SearchTokens::Raw(s) => s
            .split_whitespace()
            .map(|w| w.to_lowercase())
            .filter(|w| !w.is_empty())
            .collect(),
        SearchTokens::Tokens(t) => t.into_iter().map(|s| s.to_lowercase()).collect(),
    };

    assert_eq!(keywords, vec!["hello", "world", "test"]);
}

#[test]
fn test_search_tokens_pre_tokenized() {
    let tokens = SearchTokens::Tokens(vec!["TAG1".to_string(), "TAG2".to_string()]);
    let keywords: Vec<String> = match tokens {
        SearchTokens::Raw(s) => s
            .split_whitespace()
            .map(|w| w.to_lowercase())
            .filter(|w| !w.is_empty())
            .collect(),
        SearchTokens::Tokens(t) => t.into_iter().map(|s| s.to_lowercase()).collect(),
    };

    assert_eq!(keywords, vec!["tag1", "tag2"]);
}

fn raw_item(id: &str, text: &str, weight: u8) -> InputItem {
    InputItem {
        id: id.to_string(),
        search_terms: vec![(SearchTokens::Raw(text.to_string()), weight)],
    }
}

#[test]
fn test_build_index_simple() {
    let items = vec![
        raw_item("item-001", "rust programming", 90),
        raw_item("item-002", "python guide", 90),
    ];

    let index = build_index(items);
    assert!(index.is_ok());

    let index = index.unwrap();
    assert_eq!(index.ids().len(), 2);
}

#[test]
fn test_build_index_empty() {
    let items: Vec<InputItem> = vec![];
    let index = build_index(items);
    assert!(index.is_ok());

    let index = index.unwrap();
    assert_eq!(index.ids().len(), 0);
}

#[test]
fn test_build_index_single_item() {
    let items = vec![raw_item("item-001", "test query", 100)];

    let index = build_index(items);
    assert!(index.is_ok());

    let index = index.unwrap();
    assert_eq!(index.ids().len(), 1);
}

#[test]
fn test_build_index_weighted_terms() {
    let items = vec![InputItem {
        id: "item-001".to_string(),
        search_terms: vec![
            (SearchTokens::Raw("important".to_string()), 100),
            (SearchTokens::Raw("secondary".to_string()), 50),
        ],
    }];

    let index = build_index(items).unwrap();
    assert_eq!(index.ids().len(), 1);
}

#[test]
fn test_index_serialization() {
    let items = vec![raw_item("item-001", "test", 100)];

    let index = build_index(items).unwrap();

    let buffer = index.to_bytes().unwrap();
    assert!(!buffer.is_empty());

    let deserialized = Index::from_bytes(&buffer);
    assert!(deserialized.is_ok());

    let deserialized_index = deserialized.unwrap();
    assert_eq!(deserialized_index.ids().len(), index.ids().len());
}

#[test]
fn test_index_serialization_roundtrip() {
    let items = vec![
        raw_item("item-001", "first item", 100),
        raw_item("item-002", "second item", 100),
    ];

    let original_index = build_index(items).unwrap();

    let buffer1 = original_index.to_bytes().unwrap();
    let index1 = Index::from_bytes(&buffer1).unwrap();

    let buffer2 = index1.to_bytes().unwrap();
    let index2 = Index::from_bytes(&buffer2).unwrap();

    assert_eq!(index2.ids().len(), original_index.ids().len());
}

#[test]
fn test_loaded_index_answers_like_original() {
    let items = vec![
        raw_item("item-001", "wireless audio gear", 90),
        raw_item("item-002", "wireless mouse", 80),
        raw_item("item-003", "python book", 70),
    ];
    let index = build_index(items).unwrap();
    let loaded = Index::from_bytes(&index.to_bytes().unwrap()).unwrap();

    for query in ["wireless", "audio", "python book", "", "mou"] {
        for k in [0usize, 1, 2, 10] {
            assert_eq!(
                search(&index, query, k).unwrap(),
                search(&loaded, query, k).unwrap()
            );
        }
    }
}

#[test]
fn test_load_rejects_garbage() {
    let r = Index::from_bytes(&[1, 2, 3]);
    assert!(matches!(r, Err(LoadError::Malformed)));
}

#[test]
fn test_load_rejects_trailing_bytes() {
    let index = build_index(vec![raw_item("item-001", "test", 100)]).unwrap();
    let mut bytes = index.to_bytes().unwrap();
    bytes.push(0);
    assert!(Index::from_bytes(&bytes).is_err());
}

#[test]
fn test_build_twice_same_answers() {
    let make = || {
        vec![
            raw_item("item-001", "rust programming", 90),
            raw_item("item-002", "python guide", 40),
        ]
    };
    let a = build_index(make()).unwrap();
    let b = build_index(make()).unwrap();
    for query in ["rust", "guide", "prog", "xyz", ""] {
        assert_eq!(search(&a, query, 10).unwrap(), search(&b, query, 10).unwrap());
    }
}

#[test]
fn test_search_single_word() {
    let items = vec![
        raw_item("item-001", "rust programming", 90),
        raw_item("item-002", "python guide", 90),
    ];

    let index = build_index(items).unwrap();
    let results = search(&index, "rust", 10).unwrap();

    assert!(!results.is_empty());
    assert_eq!(results[0], "item-001");
}

#[test]
fn test_search_case_insensitive() {
    let items = vec![raw_item("item-001", "JavaScript Tutorial", 90)];

    let index = build_index(items).unwrap();

    let results_lower = search(&index, "javascript", 10).unwrap();
    let results_upper = search(&index, "JAVASCRIPT", 10).unwrap();
    let results_mixed = search(&index, "JavaScript", 10).unwrap();

    assert!(!results_lower.is_empty());
    assert!(!results_upper.is_empty());
    assert!(!results_mixed.is_empty());

    assert_eq!(results_lower[0], "item-001");
    assert_eq!(results_upper[0], "item-001");
    assert_eq!(results_mixed[0], "item-001");
}

#[test]
fn test_search_no_results() {
    let items = vec![raw_item("item-001", "rust programming", 90)];

    let index = build_index(items).unwrap();
    let results = search(&index, "nonexistent", 10).unwrap();

    assert!(results.is_empty());
}

#[test]
fn test_search_empty_query() {
    let items = vec![raw_item("item-001", "test", 100)];

    let index = build_index(items).unwrap();
    let results = search(&index, "", 10).unwrap();

    assert!(results.len() <= 1);
}

#[test]
fn test_search_multiple_words() {
    let items = vec![
        raw_item("item-001", "wireless audio", 90),
        raw_item("item-002", "wireless mouse", 90),
        raw_item("item-003", "python book", 90),
    ];

    let index = build_index(items).unwrap();
    let results = search(&index, "wireless", 10).unwrap();

    assert!(results.len() >= 2);
    assert!(results.contains(&"item-001".to_string()));
    assert!(results.contains(&"item-002".to_string()));
}

#[test]
fn test_search_partial_word_match() {
    let items = vec![raw_item("item-001", "debugging tools", 90)];

    let index = build_index(items).unwrap();
    let results = search(&index, "debug", 10).unwrap();

    assert!(!results.is_empty());
}

#[test]
fn test_search_max_results_limit() {
    let items = vec![
        raw_item("item-001", "product one", 90),
        raw_item("item-002", "product two", 90),
        raw_item("item-003", "product three", 90),
        raw_item("item-004", "product four", 90),
    ];

    let index = build_index(items).unwrap();

    let results_2 = search(&index, "product", 2).unwrap();
    let results_3 = search(&index, "product", 3).unwrap();
    let results_10 = search(&index, "product", 10).unwrap();

    assert!(results_2.len() <= 2);
    assert!(results_3.len() <= 3);
    assert!(results_10.len() <= 10);
}

#[test]
fn test_search_zero_max_results() {
    let items = vec![raw_item("item-001", "anything", 90)];
    let index = build_index(items).unwrap();
    assert_eq!(search(&index, "anything", 0).unwrap(), Vec::<String>::new());
}

#[test]
fn test_search_with_pre_tokenized() {
    let items = vec![
        InputItem {
            id: "item-001".to_string(),
            search_terms: vec![
                (SearchTokens::Tokens(vec!["tag1".to_string(), "tag2".to_string()]), 100),
            ],
        },
        InputItem {
            id: "item-002".to_string(),
            search_terms: vec![
                (SearchTokens::Tokens(vec!["tag2".to_string(), "tag3".to_string()]), 100),
            ],
        },
    ];

    let index = build_index(items).unwrap();
    let results = search(&index, "tag1", 10).unwrap();

    assert!(!results.is_empty());
    assert!(results.contains(&"item-001".to_string()));
}

#[test]
fn test_search_with_typo() {
    let ids = strings(&["item-001", "item-002", "item-003"]);
    let ids_fsst = FsstStrVec::from_strings(&ids).unwrap();

    let keyword_to_items: Vec<Vec<(usize, u8)>> = vec![
        vec![(1, 1)],
        vec![(0, 10), (2, 4)],
        vec![(0, 5), (1, 3)],
    ];

    let mut fst_builder = fst::MapBuilder::memory();
    fst_builder.insert("audio", 0).unwrap();
    fst_builder.insert("books", 1).unwrap();
    fst_builder.insert("electronics", 2).unwrap();
    let fst = fst_builder.into_inner().unwrap();

    let index = Index::from_parts(fst, ids_fsst, keyword_to_items);

    let results = search(&index, "audiio", 10).unwrap();
    assert_eq!(results.len(), 1, "Expected 1 result for 'audiio'");
}

#[test]
fn test_search_typo_beyond_one_edit() {
    let items = vec![raw_item("item-001", "audio", 90)];
    let index = build_index(items).unwrap();
    // two edits away from "audio", and no prefix relation
    let results = search(&index, "auddddio", 10).unwrap();
    assert!(results.is_empty());
}

#[test]
fn test_search_score_accumulation() {
    let items = vec![
        InputItem {
            id: "item-001".to_string(),
            search_terms: vec![
                (SearchTokens::Raw("rust".to_string()), 50),
                (SearchTokens::Raw("programming".to_string()), 50),
            ],
        },
        InputItem {
            id: "item-002".to_string(),
            search_terms: vec![(SearchTokens::Raw("rust".to_string()), 100)],
        },
    ];

    let index = build_index(items).unwrap();
    let results = search(&index, "rust programming", 10).unwrap();

    assert!(!results.is_empty());
    assert_eq!(results[0], "item-001");
}

#[test]
fn test_search_weighted_terms() {
    let items = vec![
        raw_item("item-001", "keyword", 100),
        raw_item("item-002", "keyword", 50),
    ];

    let index = build_index(items).unwrap();
    let results = search(&index, "keyword", 10).unwrap();

    assert_eq!(results.len(), 2);
    assert_eq!(results[0], "item-001");
    assert_eq!(results[1], "item-002");
}

#[test]
fn test_search_empty_id() {
    let items = vec![raw_item("", "test", 100)];

    let index = build_index(items).unwrap();
    let results = search(&index, "test", 10).unwrap();

    assert!(!results.is_empty());
    assert_eq!(results[0], "");
}

#[test]
fn test_deduplicate_keywords_per_item() {
    let items = vec![raw_item("item-001", "test test duplicate", 100)];

    let index = build_index(items).unwrap();
    let results = search(&index, "test", 10).unwrap();

    assert!(!results.is_empty());
}

#[test]
fn test_deduplicated_keyword_not_double_counted() {
    // if "test" counted twice for item-001, its score 60 + 60 would beat 100
    let items = vec![
        raw_item("item-001", "test test", 60),
        raw_item("item-002", "test", 100),
    ];
    let index = build_index(items).unwrap();
    let results = search(&index, "test", 10).unwrap();
    assert_eq!(results, vec!["item-002".to_string(), "item-001".to_string()]);
}

#[test]
fn test_search_bad_dictionary_bytes() {
    let ids = strings(&["item-001"]);
    let ids_fsst = FsstStrVec::from_strings(&ids).unwrap();
    let index = Index::from_parts(vec![1, 2, 3, 4], ids_fsst, vec![vec![(0, 10)]]);
    assert_eq!(search(&index, "anything", 10), Err(SearchError::Dictionary));
}

#[test]
fn test_search_inconsistent_postings() {
    let ids = strings(&["item-001"]);
    let ids_fsst = FsstStrVec::from_strings(&ids).unwrap();

    let mut fst_builder = fst::MapBuilder::memory();
    fst_builder.insert("solo", 0).unwrap();
    let fst = fst_builder.into_inner().unwrap();

    // keyword id 0 has no postings bucket
    let index = Index::from_parts(fst, ids_fsst, vec![]);
    assert_eq!(search(&index, "solo", 10), Err(SearchError::Inconsistent));
}

#[test]
fn test_search_inconsistent_item_position() {
    let ids = strings(&["item-001"]);
    let ids_fsst = FsstStrVec::from_strings(&ids).unwrap();

    let mut fst_builder = fst::MapBuilder::memory();
    fst_builder.insert("solo", 0).unwrap();
    let fst = fst_builder.into_inner().unwrap();

    // the posting names an item position the store does not hold
    let index = Index::from_parts(fst, ids_fsst, vec![vec![(5, 10)]]);
    assert_eq!(search(&index, "solo", 10), Err(SearchError::Inconsistent));
}

#[test]
fn test_zero_weight_gives_no_results() {
    // a matched item whose accumulated score stays zero is not returned
    let items = vec![raw_item("item-001", "phantom", 0)];
    let index = build_index(items).unwrap();
    assert_eq!(search(&index, "phantom", 10).unwrap(), Vec::<String>::new());
}
