//! Building the indexes from an article stream, and the query grammar.
use std::collections::HashSet;

use rustsearch::helpers::Config;
use rustsearch::index::gen_query::ast_to_string;
use rustsearch::index::index11_0::TripleMap;
use rustsearch::index::index6::TitleMap;
use rustsearch::index::index7::BitMap;
use rustsearch::index::index9_1::Trie;
use rustsearch::index::{Index, WordMap};
use rustsearch::parsing::{AstNode, BinaryOp, Expr, ExprData};

fn article(title: &str, words: &[&str]) -> (String, Vec<String>) {
    (title.to_string(), words.iter().map(|w| w.to_string()).collect())
}

fn corpus() -> Vec<(String, Vec<String>)> {
    vec![
        article("alpha", &["red", "green", "blue", "red"]),
        article("", &["skipped", "entirely"]),
        article("beta", &["green", "blue", "green"]),
        article("gamma", &["red", "blue", "red", "blue"]),
    ]
}

#[test]
fn build_skips_empty_titles_and_keeps_order() {
    let index = Index::index8(&corpus());
    assert_eq!(
        index.get_article_titles(),
        &vec!["alpha".to_string(), "beta".to_string(), "gamma".to_string()]
    );
    assert_eq!(index.get_database_lin().get_or_empty("red"), vec![0, 2]);
    assert_eq!(index.get_database_lin().get_or_empty("green"), vec![0, 1]);
    assert_eq!(index.get_database_lin().get_or_empty("blue"), vec![0, 1, 2]);
    assert_eq!(index.get_database_lin().get_or_empty("skipped"), Vec::<usize>::new());
}

#[test]
fn rebuilding_gives_identical_postings() {
    let a = Index::index8(&corpus());
    let b = Index::index8(&corpus());
    for w in ["red", "green", "blue", "skipped"] {
        assert_eq!(
            a.get_database_lin().get_or_empty(w),
            b.get_database_lin().get_or_empty(w)
        );
    }
    assert_eq!(a.get_article_titles(), b.get_article_titles());
}

#[test]
fn postings_are_strictly_increasing() {
    let index = Index::index8(&corpus());
    for w in ["red", "green", "blue"] {
        let postings = index.get_database_lin().get_or_empty(w);
        for i in 1..postings.len() {
            assert!(postings[i - 1] < postings[i]);
        }
    }
}

#[test]
fn all_builds_agree_on_single_words() {
    let list_index = Index::index8(&corpus());
    let bit_index: Index<BitMap> = Index::index7(&corpus());
    let trie_index: Index<Trie> = Index::index9_1(&corpus());
    let title_index: Index<TitleMap> = Index::index6(&corpus());
    let phrase_index = Index::index10(&corpus());
    for w in ["red", "green", "blue", "missing"] {
        let expected: HashSet<String> =
            HashSet::from_iter(list_index.single_search(&w.to_string()));
        assert_eq!(HashSet::from_iter(bit_index.single_search(&w.to_string())), expected);
        assert_eq!(HashSet::from_iter(trie_index.single_search(&w.to_string())), expected);
        assert_eq!(HashSet::from_iter(title_index.single_search(&w.to_string())), expected);
        assert_eq!(HashSet::from_iter(phrase_index.single_search(&w.to_string())), expected);
    }
}

#[test]
fn triple_build_slides_windows() {
    let articles = vec![
        article("alpha", &["a", "b", "c", "d"]),
        article("beta", &["b", "c", "d"]),
        article("gamma", &["a", "b"]),
    ];
    let index: Index<TripleMap> = Index::index11(&articles);
    let result: HashSet<String> =
        HashSet::from_iter(index.fuzzy_triples_search(&"b c d".to_string()));
    assert_eq!(
        result,
        HashSet::from_iter(vec!["alpha".to_string(), "beta".to_string()])
    );
    assert_eq!(index.fuzzy_triples_search(&"a b".to_string()), Vec::<String>::new());
}

#[test]
fn config_build_takes_path_and_index_number() {
    let args =
        vec!["engine".to_string(), "corpus.txt".to_string(), "8".to_string()];
    let config = Config::build(&args).unwrap();
    assert_eq!(config.file_path, "corpus.txt".to_string());
    assert_eq!(config.indexno, "8".to_string());
    assert!(Config::build(&["engine".to_string()]).is_err());
}

// ---- the query grammar ----

#[test]
fn parses_keywords_symbols_and_parentheses() {
    let ast = match Expr::from_string(&"!((word3 | nowhere) and (word2 and word4))".to_string())
    {
        Ok(Expr(ExprData::HasNodes(node))) => node,
        _ => panic!(),
    };
    let expected = AstNode::Invert(Box::new(AstNode::Binary(
        BinaryOp::And,
        Box::new(AstNode::Binary(
            BinaryOp::Or,
            Box::new(AstNode::Name("word3".to_string())),
            Box::new(AstNode::Name("nowhere".to_string())),
        )),
        Box::new(AstNode::Binary(
            BinaryOp::And,
            Box::new(AstNode::Name("word2".to_string())),
            Box::new(AstNode::Name("word4".to_string())),
        )),
    )));
    assert_eq!(ast, expected);
}

#[test]
fn empty_and_malformed_queries() {
    assert_eq!(Expr::from_string(&"  ".to_string()), Ok(Expr(ExprData::Empty)));
    assert!(Expr::from_string(&"word1((".to_string()).is_err());
    assert!(Expr::from_string(&"word1 &".to_string()).is_err());
    assert!(Expr::from_string(&"(word1".to_string()).is_err());
}

#[test]
fn ast_prints_back_as_text() {
    let ast = AstNode::Binary(
        BinaryOp::Or,
        Box::new(AstNode::Invert(Box::new(AstNode::Name("word3".to_string())))),
        Box::new(AstNode::Binary(
            BinaryOp::And,
            Box::new(AstNode::Name("word2".to_string())),
            Box::new(AstNode::Name("word4".to_string())),
        )),
    );
    assert_eq!(ast_to_string(ast), "! word3 or word2 and word4".to_string());
}


#[test]
fn phrase_candidates_intersect_word_postings() {
    let index = Index::index8(&corpus());
    let words = |ws: &[&str]| ws.iter().map(|w| w.to_string()).collect::<Vec<String>>();
    // red: [0, 2]; blue: [0, 1, 2]; green: [0, 1].
    assert_eq!(index.phrase_candidates(&words(&["red", "blue"])), vec![0, 2]);
    assert_eq!(index.phrase_candidates(&words(&["red", "green", "blue"])), vec![0]);
    assert_eq!(index.phrase_candidates(&words(&["red", "missing"])), Vec::<usize>::new());
    assert_eq!(index.phrase_candidates(&words(&[])), Vec::<usize>::new());
}

// ---- the earliest index and the line search ----

#[test]
fn one_result() {
    let query = "duct";
    let contents = "\
Rust:
safe, fast, productive.
Pick three.";

    assert_eq!(vec!["safe, fast, productive."], rustsearch::search(query, contents));
}

#[test]
fn line_search_keeps_order_and_handles_crlf() {
    let contents = "alpha beta\r\nbeta\ngamma beta";
    assert_eq!(rustsearch::search("beta", contents), vec!["alpha beta", "beta", "gamma beta"]);
    assert_eq!(rustsearch::search("delta", contents), Vec::<&str>::new());
    assert_eq!(rustsearch::search("", "x\ny"), vec!["x", "y"]);
}

#[test]
fn root_index_build_maps_words_to_titles() {
    let words: Vec<String> = "title1. word1 word2 ---END.OF.DOCUMENT--- title2. word1"
        .split_whitespace()
        .map(|w| w.to_string())
        .collect();
    let index = rustsearch::Index::build("1".to_string(), &words);
    assert_eq!(
        index.search(&"word1".to_string()),
        Some(&vec!["title1.".to_string(), "title2.".to_string()])
    );
    assert_eq!(
        index.search(&"title1.".to_string()),
        Some(&vec!["title1.".to_string()])
    );
    assert_eq!(index.search(&"missing".to_string()), None);
}

#[test]
fn root_config_takes_query_path_and_index_number() {
    let args = vec![
        "engine".to_string(),
        "duct".to_string(),
        "corpus.txt".to_string(),
        "1".to_string(),
    ];
    let config = rustsearch::Config::build(&args).unwrap();
    assert_eq!(config.query, "duct".to_string());
    assert_eq!(config.file_path, "corpus.txt".to_string());
    assert_eq!(config.indexno, "1".to_string());
    assert!(rustsearch::Config::build(&["engine".to_string()]).is_err());
}

#[test]
fn empty_corpus_builds_empty_index() {
    let articles: Vec<(String, Vec<String>)> = Vec::new();
    let index = Index::index8(&articles);
    assert_eq!(index.get_article_titles().len(), 0);
    assert_eq!(index.boolean_search_naive(&"anything".to_string()), Vec::<String>::new());
    let bit_index: Index<BitMap> = Index::index7(&articles);
    assert_eq!(bit_index.boolean_search(&"!anything".to_string()), Vec::<String>::new());
}


#[test]
fn root_index_dedups_titles_shared_by_articles() {
    // Two articles with the same title: a word in both lists the title
    // once.
    let words: Vec<String> = "t. w ---END.OF.DOCUMENT--- t. w"
        .split_whitespace()
        .map(|w| w.to_string())
        .collect();
    let index = rustsearch::Index::build("1".to_string(), &words);
    assert_eq!(index.search(&"w".to_string()), Some(&vec!["t.".to_string()]));
}

#[test]
fn trie_built_from_articles_answers_prefix_queries() {
    let articles = vec![
        article("start", &["letter", "lettuce", "political"]),
        article("other", &["letter", "zeal"]),
    ];
    let index: Index<Trie> = Index::index9_1(&articles);
    let result: HashSet<String> =
        HashSet::from_iter(index.prefix_search(&"let*".to_string()));
    assert_eq!(
        result,
        HashSet::from_iter(vec!["start".to_string(), "other".to_string()])
    );
    assert_eq!(index.prefix_search(&"zz*".to_string()), Vec::<String>::new());
}

#[test]
fn fuzzy_containment_is_rejected_by_the_exact_layer() {
    // All three windows of the query occur in the article, yet the whole
    // phrase never stands contiguously in the text: fuzzy search reports
    // the article, and the per-text verification rejects it.
    let articles = vec![article(
        "spread",
        &["a", "b", "c", "d", "x", "b", "c", "d", "e"],
    )];
    let index: Index<TripleMap> = Index::index11(&articles);
    let query = "a b c d e".to_string();
    assert_eq!(index.fuzzy_triples_search(&query), vec!["spread".to_string()]);
    let text = "a b c d x b c d e".to_string();
    assert!(!index.verify_candidate_text(&query, &text));
    assert!(index.verify_candidate_text(&"b c d e".to_string(), &text));
}
