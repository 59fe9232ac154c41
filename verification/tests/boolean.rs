//! Boolean retrieval over the list-encoded and bit-packed indexes.
use std::collections::HashSet;

use rustsearch::index::index6::TitleMap;
use rustsearch::index::index7::BitMap;
use rustsearch::index::{Index, WordMap};

fn setup_test() -> Index<WordMap> {
    let mut database = WordMap::new();
    database.insert("word1".to_string(), vec![0]);
    database.insert("word2".to_string(), vec![0, 1, 2, 3, 4, 5, 6, 7]);
    database.insert("word3".to_string(), vec![0, 2, 4, 6]);
    database.insert("word4".to_string(), vec![1, 2, 3]);
    let mut article_titles: Vec<String> = Vec::new();
    for i in 0..100 {
        article_titles.push(format!("article {}", i).to_string());
    }
    Index { database, article_titles }
}

fn setup_test7() -> Index<BitMap> {
    let mut database = BitMap::new();
    database.insert("word1".to_string(), vec![0b0000_0001]);
    database.insert("word2".to_string(), vec![0b1111_1111]);
    database.insert("word3".to_string(), vec![0b0101_0101]);
    database.insert("word4".to_string(), vec![0b0000_1110]);
    let mut article_titles: Vec<String> = Vec::new();
    for i in 0..100 {
        article_titles.push(format!("article {}", i).to_string());
    }
    Index { database, article_titles }
}

fn search_match_naive(index: &Index<WordMap>, query: &str, titles: Vec<&str>) {
    let index_result: HashSet<String> =
        HashSet::from_iter(index.boolean_search_naive(&query.to_string()));
    assert_eq!(index_result, HashSet::from_iter(titles.iter().map(|s| s.to_string())))
}

fn search_match_demorgan(index: &Index<WordMap>, query: &str, titles: Vec<&str>) {
    let index_result: HashSet<String> = HashSet::from_iter(
        index.boolean_search_demorgan(&query.to_string()).unwrap_or(Vec::default()),
    );
    assert_eq!(index_result, HashSet::from_iter(titles.iter().map(|s| s.to_string())))
}

fn search_match_binary_search(index: &Index<WordMap>, query: &str, titles: Vec<&str>) {
    let index_result: HashSet<String> = HashSet::from_iter(
        index.boolean_search_binary_search(&query.to_string()).unwrap_or(Vec::default()),
    );
    assert_eq!(index_result, HashSet::from_iter(titles.iter().map(|s| s.to_string())))
}

fn search_match7(index: &Index<BitMap>, query: &str, titles: Vec<&str>) {
    let index_result: HashSet<String> =
        HashSet::from_iter(index.boolean_search(&query.to_string()));
    assert_eq!(index_result, HashSet::from_iter(titles.iter().map(|s| s.to_string())))
}

// ---- the list-encoded index and the naive strategy ----

#[test]
fn vec_to_articlelist_works() {
    let test_index = setup_test();

    let vec: Vec<usize> = vec![0, 1];

    let hs = vec!["article 0".to_string(), "article 1".to_string()];
    assert_eq!(test_index.vec_to_articlelist(vec), hs)
}

#[should_panic]
#[test]
fn vec_to_articlelist_panics_when_out_of_range() {
    let test_index = setup_test();

    let vec: Vec<usize> = vec![100000000];

    test_index.vec_to_articlelist(vec);
}

#[test]
fn find_a_word() {
    let index = setup_test();
    search_match_naive(&index, "  word1 ", vec!["article 0"]);
}

#[test]
fn ands_two_words() {
    let index = setup_test();
    search_match_naive(&index, "word1 & word3", vec!["article 0"]);
}

#[test]
fn or_two_words() {
    let index = setup_test();
    search_match_naive(
        &index,
        "word1 | word4",
        vec!["article 0", "article 1", "article 2", "article 3"],
    );
}

#[test]
fn or_and_and() {
    let index = setup_test();
    search_match_naive(&index, "word1 | (word3 & word4)", vec!["article 0", "article 2"]);
}

#[test]
fn or_with_word_not_in_database() {
    let index = setup_test();
    search_match_naive(&index, "word1 | nowhere", vec!["article 0"]);
}

#[test]
fn and_with_word_not_in_database() {
    let index = setup_test();
    search_match_naive(&index, "word1 & nowhere", vec![]);
}

#[test]
fn word_not_in_database() {
    let index = setup_test();
    search_match_naive(&index, "nowhere", vec![]);
}

#[test]
fn words_in_database_together_not_in_database() {
    let index = setup_test();
    search_match_naive(&index, "word1 & word4", vec![]);
}

#[test]
fn the_empty_query() {
    let index = setup_test();
    search_match_naive(&index, "", vec![]);
}

#[test]
fn erroneous_query_finds_nothing() {
    let index = setup_test();
    search_match_naive(&index, "word1((", vec![]);
}

// ---- the DeMorgan strategy ----

#[test]
fn index8_1_find_a_word() {
    let index = setup_test();
    search_match_demorgan(&index, "  word1 ", vec!["article 0"]);
}

#[test]
fn index8_1_ands_two_words() {
    let index = setup_test();
    search_match_demorgan(&index, "word1 & word3", vec!["article 0"]);
}

#[test]
fn index8_1_or_two_words() {
    let index = setup_test();
    search_match_demorgan(
        &index,
        "word1 | word4",
        vec!["article 0", "article 1", "article 2", "article 3"],
    );
}

#[test]
fn index8_1_or_and_and() {
    let index = setup_test();
    search_match_demorgan(&index, "word1 | (word3 & word4)", vec!["article 0", "article 2"]);
}

#[test]
fn index8_1_or_with_word_not_in_database() {
    let index = setup_test();
    search_match_demorgan(&index, "word1 | nowhere", vec!["article 0"]);
}

#[test]
fn index8_1_and_with_word_not_in_database() {
    let index = setup_test();
    search_match_demorgan(&index, "word1 & nowhere", vec![]);
}

#[test]
fn index8_1_word_not_in_database() {
    let index = setup_test();
    search_match_demorgan(&index, "nowhere", vec![]);
}

#[test]
fn index8_1_words_in_database_together_not_in_database() {
    let index = setup_test();
    search_match_demorgan(&index, "word1 & word4", vec![]);
}

#[test]
fn index8_1_the_empty_query() {
    let index = setup_test();
    search_match_demorgan(&index, "", vec![]);
}

#[test]
fn index8_1_erroneous_query_finds_nothing() {
    let index = setup_test();
    search_match_demorgan(&index, "word1((", vec![]);
}

// ---- the adaptive binary-search strategy ----

#[test]
fn index8_2_find_a_word() {
    let index = setup_test();
    search_match_binary_search(&index, "  word1 ", vec!["article 0"]);
}

#[test]
fn index8_2_ands_two_words() {
    let index = setup_test();
    search_match_binary_search(&index, "word1 & word3", vec!["article 0"]);
}

#[test]
fn index8_2_or_two_words() {
    let index = setup_test();
    search_match_binary_search(
        &index,
        "word1 | word4",
        vec!["article 0", "article 1", "article 2", "article 3"],
    );
}

#[test]
fn index8_2_or_and_and() {
    let index = setup_test();
    search_match_binary_search(
        &index,
        "word1 | (word3 & word4)",
        vec!["article 0", "article 2"],
    );
}

#[test]
fn index8_2_or_with_word_not_in_database() {
    let index = setup_test();
    search_match_binary_search(&index, "word1 | nowhere", vec!["article 0"]);
}

#[test]
fn index8_2_and_with_word_not_in_database() {
    let index = setup_test();
    search_match_binary_search(&index, "word1 & nowhere", vec![]);
}

#[test]
fn index8_2_word_not_in_database() {
    let index = setup_test();
    search_match_binary_search(&index, "nowhere", vec![]);
}

#[test]
fn index8_2_words_in_database_together_not_in_database() {
    let index = setup_test();
    search_match_binary_search(&index, "word1 & word4", vec![]);
}

#[test]
fn index8_2_the_empty_query() {
    let index = setup_test();
    search_match_binary_search(&index, "", vec![]);
}

#[test]
fn index8_2_erroneous_query_finds_nothing() {
    let index = setup_test();
    search_match_binary_search(&index, "word1((", vec![]);
}

// ---- the bit-packed index ----

#[test]
fn bitvec_to_articleset_works() {
    let test_index = setup_test7();

    let bitvec: Vec<u64> = vec![0b0000_0011];

    let hs = vec!["article 0".to_string(), "article 1".to_string()];
    assert_eq!(test_index.bitvec_to_articlelist(bitvec), hs)
}

#[test]
fn bitvec_to_articlelist_return_empty_list_when_out_of_range() {
    let test_index = setup_test7();

    let bitvec: Vec<u64> = vec![
        0b00000000_00000000_00000000_00000000_00000000_00000000_00000000_00000000,
        0b11111111_00000000_00000000_00000000_00000000_00000000_00000000_00000000,
    ];

    assert_eq!(0, test_index.bitvec_to_articlelist(bitvec).len())
}

#[test]
fn index7_find_a_word() {
    let index = setup_test7();
    search_match7(&index, "  word1 ", vec!["article 0"]);
}

#[test]
fn index7_ands_two_words() {
    let index = setup_test7();
    search_match7(&index, "word1 & word3", vec!["article 0"]);
}

#[test]
fn index7_or_two_words() {
    let index = setup_test7();
    search_match7(
        &index,
        "word1 | word4",
        vec!["article 0", "article 1", "article 2", "article 3"],
    );
}

#[test]
fn index7_or_and_and() {
    let index = setup_test7();
    search_match7(&index, "word1 | (word3 & word4)", vec!["article 0", "article 2"]);
}

#[test]
fn index7_or_with_word_not_in_database() {
    let index = setup_test7();
    search_match7(&index, "word1 | nowhere", vec!["article 0"]);
}

#[test]
fn index7_and_with_word_not_in_database() {
    let index = setup_test7();
    search_match7(&index, "word1 & nowhere", vec![]);
}

#[test]
fn index7_word_not_in_database() {
    let index = setup_test7();
    search_match7(&index, "nowhere", vec![]);
}

#[test]
fn index7_words_in_database_together_not_in_database() {
    let index = setup_test7();
    search_match7(&index, "word1 & word4", vec![]);
}

#[test]
fn index7_the_empty_query() {
    let index = setup_test7();
    search_match7(&index, "", vec![]);
}

#[test]
fn index7_erroneous_query_finds_nothing() {
    let index = setup_test7();
    search_match7(&index, "word1((", vec![]);
}

// ---- the word-to-titles index ----

#[test]
fn index6_single_search_finds_titles() {
    let mut database = TitleMap::new();
    database.add_occurrence(&"word1".to_string(), &"article 0".to_string());
    database.add_occurrence(&"word1".to_string(), &"article 3".to_string());
    let mut article_titles: Vec<String> = Vec::new();
    for i in 0..100 {
        article_titles.push(format!("article {}", i).to_string());
    }
    let index = Index { database, article_titles };
    assert_eq!(
        index.single_search(&"word1".to_string()),
        vec!["article 0".to_string(), "article 3".to_string()]
    );
    assert_eq!(index.single_search(&"nowhere".to_string()), Vec::<String>::new());
}

// ---- all strategies agree ----

#[test]
fn strategies_agree_on_sample_queries() {
    let index = setup_test();
    let queries = vec![
        "word1 | (word3 & word4)",
        "!word2",
        "!(word3 and word4) & word2",
        "!word3 or !word4",
        "word1 & word4",
        "not word1 and not word4",
        "word2 & (word3 | !word4)",
    ];
    for q in queries {
        let naive = index.boolean_search_naive(&q.to_string());
        let demorgan = index.boolean_search_demorgan(&q.to_string()).unwrap();
        let binary = index.boolean_search_binary_search(&q.to_string()).unwrap();
        let hybrid = index.boolean_search_hybrid(&q.to_string());
        let bitvecs = index.boolean_search_articles_to_bitvecs(&q.to_string());
        assert_eq!(naive, demorgan);
        assert_eq!(naive, binary);
        assert_eq!(naive, hybrid);
        assert_eq!(naive, bitvecs);
    }
}

#[test]
fn list_and_bitvec_encodings_agree() {
    let list_index = setup_test();
    let bit_index = setup_test7();
    let queries = vec!["word1 | (word3 & word4)", "!word2 & word3", "word2 and !word4"];
    for q in queries {
        assert_eq!(
            list_index.boolean_search_naive(&q.to_string()),
            bit_index.boolean_search(&q.to_string())
        );
    }
}

#[test]
fn complement_skips_ids_past_the_title_count() {
    // 100 titles cover two blocks of 64 bits; the complement sets every
    // bit of both blocks, yet only ids below 100 come back.
    let index = setup_test7();
    let result = index.boolean_search(&"!word2".to_string());
    assert_eq!(result.len(), 100 - 8);
    assert!(!result.contains(&"article 0".to_string()));
    assert!(result.contains(&"article 8".to_string()));
    assert!(result.contains(&"article 99".to_string()));
}

// ---- the same checks under the simplest index's names ----

#[test]
fn index6_vec_to_articlelist_works() {
    let test_index = setup_test();

    let vec: Vec<usize> = vec![0, 1];

    let hs = vec!["article 0".to_string(), "article 1".to_string()];
    assert_eq!(test_index.vec_to_articlelist(vec), hs)
}

#[should_panic]
#[test]
fn index6_vec_to_articlelist_panics_when_out_of_range() {
    let test_index = setup_test();

    let vec: Vec<usize> = vec![100000000];

    test_index.vec_to_articlelist(vec);
}

#[test]
fn index6_find_a_word() {
    let index = setup_test();
    search_match_naive(&index, "  word1 ", vec!["article 0"]);
}

#[test]
fn index6_word_not_in_database() {
    let index = setup_test();
    search_match_naive(&index, "nowhere", vec![]);
}

#[test]
fn index6_the_empty_query() {
    let index = setup_test();
    search_match_naive(&index, "", vec![]);
}


#[test]
fn index8_0_the_empty_query() {
    let index = setup_test();
    search_match_naive(&index, "", vec![]);
}

#[test]
fn double_complement_restricted_to_universe() {
    // word3's postings lie inside the universe, so complementing twice
    // gives them back exactly.
    let index = setup_test();
    assert_eq!(
        index.boolean_search_naive(&"!!word3".to_string()),
        index.boolean_search_naive(&"word3".to_string())
    );
    assert_eq!(
        index.boolean_search_naive(&"!(!(word1 | word4))".to_string()),
        index.boolean_search_naive(&"word1 | word4".to_string())
    );
}

#[test]
fn de_morgan_laws_hold_between_and_or_invert() {
    let index = setup_test();
    assert_eq!(
        index.boolean_search_naive(&"!(word3 & word4)".to_string()),
        index.boolean_search_naive(&"!word3 | !word4".to_string())
    );
    assert_eq!(
        index.boolean_search_naive(&"!(word3 | word4)".to_string()),
        index.boolean_search_naive(&"!word3 & !word4".to_string())
    );
}


#[test]
fn titles_never_repeat_in_the_word_to_titles_index() {
    // The same title recorded again later, with another title between,
    // still stands only once: the list is semantically a set.
    let mut database = TitleMap::new();
    database.add_occurrence(&"w".to_string(), &"t".to_string());
    database.add_occurrence(&"w".to_string(), &"u".to_string());
    database.add_occurrence(&"w".to_string(), &"t".to_string());
    assert_eq!(
        database.get_or_empty("w"),
        vec!["t".to_string(), "u".to_string()]
    );
}
