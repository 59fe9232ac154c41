//! Prefix lookup through the tries and fuzzy phrase search through the
//! triple index.
use std::collections::HashSet;

use rustsearch::index::index11_0::TripleMap;
use rustsearch::index::index9_0::TrieLin;
use rustsearch::index::index9_1::Trie;
use rustsearch::index::{Index, Query, Search, SearchType};

fn insert_list_to_trie_lin(trie: &mut TrieLin, word: &String, a_list: Vec<usize>) {
    for a in a_list {
        trie.insert(word, a)
    }
}

fn setup_test_lin() -> Index<TrieLin> {
    let mut database = TrieLin::new();
    database.insert(&"word1".to_string(), 0);
    insert_list_to_trie_lin(&mut database, &"word1".to_string(), vec![0]);
    insert_list_to_trie_lin(&mut database, &"word2".to_string(), vec![0, 1, 2, 3]);
    insert_list_to_trie_lin(&mut database, &"world".to_string(), vec![0, 2, 4, 6, 7]);
    insert_list_to_trie_lin(&mut database, &"would".to_string(), vec![99, 5, 6, 7]);
    insert_list_to_trie_lin(&mut database, &"boob".to_string(), vec![0, 1, 2, 3, 4, 5, 6, 7]);
    insert_list_to_trie_lin(&mut database, &"booby".to_string(), vec![0, 5, 6, 7]);
    insert_list_to_trie_lin(&mut database, &"booty".to_string(), vec![1, 2, 3]);
    let mut article_titles: Vec<String> = Vec::new();
    for i in 0..100 {
        article_titles.push(format!("article {}", i).to_string());
    }
    database.n_titles = 100;
    Index { database, article_titles }
}

fn insert_list_to_trie(trie: &mut Trie, word: &String, a_list: Vec<usize>) {
    for a in a_list {
        trie.insert(word, a)
    }
}

fn setup_test_map() -> Index<Trie> {
    let mut database = Trie::new();
    database.insert(&"word1".to_string(), 0);
    insert_list_to_trie(&mut database, &"word1".to_string(), vec![0]);
    insert_list_to_trie(&mut database, &"word2".to_string(), vec![0, 1, 2, 3]);
    insert_list_to_trie(&mut database, &"world".to_string(), vec![0, 2, 4, 6, 7]);
    insert_list_to_trie(&mut database, &"would".to_string(), vec![99, 5, 6, 7]);
    insert_list_to_trie(&mut database, &"boob".to_string(), vec![0, 1, 2, 3, 4, 5, 6, 7]);
    insert_list_to_trie(&mut database, &"booby".to_string(), vec![0, 5, 6, 7]);
    insert_list_to_trie(&mut database, &"booty".to_string(), vec![1, 2, 3]);
    let mut article_titles: Vec<String> = Vec::new();
    for i in 0..100 {
        article_titles.push(format!("article {}", i).to_string());
    }
    database.n_titles = 100;
    Index { database, article_titles }
}

fn search_match_lin(index: &Index<TrieLin>, query: &str, titles: Vec<&str>) {
    let index_result: HashSet<String> =
        HashSet::from_iter(index.prefix_search(&query.to_string()));
    assert_eq!(index_result, HashSet::from_iter(titles.iter().map(|s| s.to_string())))
}

fn search_match_map(index: &Index<Trie>, query: &str, titles: Vec<&str>) {
    let index_result: HashSet<String> =
        HashSet::from_iter(index.prefix_search(&query.to_string()));
    assert_eq!(index_result, HashSet::from_iter(titles.iter().map(|s| s.to_string())))
}

#[test]
fn index9_0_find_a_word() {
    let index = setup_test_lin();
    search_match_lin(&index, "word1", vec!["article 0"]);
}

#[test]
fn index9_0_find_a_prefix1() {
    let index = setup_test_lin();
    search_match_lin(&index, "word*", vec!["article 0", "article 1", "article 2", "article 3"]);
}

#[test]
fn index9_0_find_a_prefix2() {
    let index = setup_test_lin();
    search_match_lin(
        &index,
        "wo*",
        vec![
            "article 0",
            "article 1",
            "article 2",
            "article 3",
            "article 4",
            "article 5",
            "article 6",
            "article 7",
            "article 99",
        ],
    );
}

#[test]
fn index9_0_find_a_prefix3() {
    let index = setup_test_lin();
    search_match_lin(
        &index,
        "boo*",
        vec![
            "article 0",
            "article 1",
            "article 2",
            "article 3",
            "article 4",
            "article 5",
            "article 6",
            "article 7",
        ],
    );
}

#[test]
fn index9_1_find_a_word() {
    let index = setup_test_map();
    search_match_map(&index, "word1", vec!["article 0"]);
}

#[test]
fn index9_1_find_a_prefix1() {
    let index = setup_test_map();
    search_match_map(&index, "word*", vec!["article 0", "article 1", "article 2", "article 3"]);
}

#[test]
fn index9_1_find_a_prefix2() {
    let index = setup_test_map();
    search_match_map(
        &index,
        "wo*",
        vec![
            "article 0",
            "article 1",
            "article 2",
            "article 3",
            "article 4",
            "article 5",
            "article 6",
            "article 7",
            "article 99",
        ],
    );
}

#[test]
fn index9_1_find_a_prefix3() {
    let index = setup_test_map();
    search_match_map(
        &index,
        "boo*",
        vec![
            "article 0",
            "article 1",
            "article 2",
            "article 3",
            "article 4",
            "article 5",
            "article 6",
            "article 7",
        ],
    );
}

#[test]
fn missing_prefix_returns_empty_not_an_error() {
    let index = setup_test_lin();
    search_match_lin(&index, "zzz*", vec![]);
    search_match_lin(&index, "zzz", vec![]);
    search_match_lin(&index, "word", vec![]);
}

#[test]
fn prefix_equals_union_of_exact_lookups() {
    // The subtree union for "boo*" is exactly the union of the exact
    // lookups of the vocabulary words starting with "boo".
    let index = setup_test_lin();
    let by_prefix: HashSet<String> =
        HashSet::from_iter(index.prefix_search(&"boo*".to_string()));
    let mut by_words: HashSet<String> = HashSet::new();
    for w in ["boob", "booby", "booty"] {
        by_words.extend(index.single_search(&w.to_string()));
    }
    assert_eq!(by_prefix, by_words);
}

// ---- the triple index ----

fn setup_test11() -> Index<TripleMap> {
    let mut database = TripleMap::new();
    database.insert("word1", "word2", "word3", vec![0]);
    database.insert("word2", "word3", "word4", vec![0, 1, 2, 3, 4, 5, 6, 7]);
    database.insert("word3", "word4", "word5", vec![0, 2, 4, 6]);
    database.insert("word4", "word5", "word6", vec![1, 2, 3]);
    let mut article_titles: Vec<String> = Vec::new();
    for i in 0..100 {
        article_titles.push(format!("article {}", i).to_string());
    }
    Index { database, article_titles }
}

fn search_match11(index: Index<TripleMap>, query: Query, expected: Vec<String>) {
    assert_eq!(HashSet::from_iter(index.search(&query)), HashSet::<String>::from_iter(expected))
}

#[test]
fn find_triple() {
    let index = setup_test11();

    let query = Query {
        search_string: "word2 word3 word4".to_string(),
        search_type: SearchType::FuzzySearch,
    };

    search_match11(
        index,
        query,
        vec![
            "article 0".to_string(),
            "article 1".to_string(),
            "article 2".to_string(),
            "article 3".to_string(),
            "article 4".to_string(),
            "article 5".to_string(),
            "article 6".to_string(),
            "article 7".to_string(),
        ],
    );
}

#[test]
fn index11_0_the_empty_query() {
    let index = setup_test11();

    let query = Query { search_string: "".to_string(), search_type: SearchType::FuzzySearch };
    let result = index.search(&query);

    assert_eq!(*result, Vec::<String>::new());

    let query = Query { search_string: "hej".to_string(), search_type: SearchType::FuzzySearch };
    let result = index.search(&query);

    assert_eq!(*result, Vec::<String>::new());

    let query =
        Query { search_string: "hej med".to_string(), search_type: SearchType::FuzzySearch };
    let result = index.search(&query);

    assert_eq!(*result, Vec::<String>::new());
}

#[test]
fn query_not_found() {
    let index = setup_test11();

    let query = Query {
        search_string: "word4 word5 word3".to_string(),
        search_type: SearchType::FuzzySearch,
    };
    let result = index.search(&query);

    assert_eq!(*result, Vec::<String>::new());
}

#[test]
fn more_than_three_words() {
    let index = setup_test11();

    let query = Query {
        search_string: "word2 word3 word4 word5".to_string(),
        search_type: SearchType::FuzzySearch,
    };

    search_match11(
        index,
        query,
        vec![
            "article 0".to_string(),
            "article 2".to_string(),
            "article 4".to_string(),
            "article 6".to_string(),
        ],
    );
}

#[test]
fn triple_candidates_and_text_verification() {
    let index = setup_test11();
    let candidates = index.triples_candidates(&"word2 word3 word4 word5".to_string());
    let as_set: HashSet<usize> = HashSet::from_iter(candidates);
    assert_eq!(as_set, HashSet::from_iter(vec![0, 2, 4, 6]));

    let query = "word2 word3".to_string();
    assert!(index.verify_candidate_text(&query, &"word1 word2 word3".to_string()));
    assert!(!index.verify_candidate_text(&query, &"word3 word2 word1".to_string()));
}
