//! The shared shape of every index: a database plus the ordered article
//! titles, queried through one `Search` interface.
//!
//! Ids are dense and 0-based, assigned in corpus order; an article with an
//! empty title is skipped entirely and consumes no id.  Terms are indexed
//! exactly as tokenized: no case normalization is applied, neither at
//! insertion nor at lookup.
use vstd::prelude::*;

use crate::bounded_by;
use crate::parsing::{BinaryOp, SpecAst};
use crate::sorted_strict;
use crate::universe;
use vstd::hash_map::StringHashMap;

pub mod gen_query;
pub mod index10_0;
pub mod index10_1;
pub mod index10_2;
pub mod index11_0;
pub mod index11_1;
pub mod index6;
pub mod index7;
pub mod index8_0;
pub mod index8_1;
pub mod index8_2;
pub mod index8_3;
pub mod index9;
pub mod index9_0;
pub mod index9_1;

verus! {

/// The answer to every query: article titles, semantically a set.
pub type ArticleTitles = Vec<String>;

/// An index over some database representation `T`.
pub struct Index<T> {
    pub database: T,
    pub article_titles: Vec<String>,
}

/// A query: what to search for, and with which strategy.
pub struct Query {
    pub search_string: String,
    pub search_type: SearchType,
}

#[derive(Clone, Debug)]
pub enum SearchType {
    SingleWordSearch,
    BooleanSearch(String),
    PrefixSearch,
    ExactSearch(String),
    FuzzySearch,
}

/// The query interface every index offers.  `supports` names the query
/// kinds an index answers; the others are not meaningful for it.
pub trait Search {
    spec fn supports(&self, query: &Query) -> bool;

    fn search(&self, query: &Query) -> ArticleTitles
        requires
            self.supports(query),
    ;
}

/// A vocabulary mapping each term to its postings list of article ids.
pub struct WordMap {
    map: StringHashMap<Vec<usize>>,
}

impl View for WordMap {
    type V = Map<Seq<char>, Seq<usize>>;

    closed spec fn view(&self) -> Map<Seq<char>, Seq<usize>> {
        Map::new(|w: Seq<char>| self.map@.contains_key(w), |w: Seq<char>| self.map@[w]@)
    }
}

impl WordMap {
    pub fn new() -> (result: Self)
        ensures
            result@ == Map::<Seq<char>, Seq<usize>>::empty(),
    {
        let result = WordMap { map: StringHashMap::new() };
        proof {
            assert(result@ =~= Map::<Seq<char>, Seq<usize>>::empty());
        }
        result
    }

    pub fn insert(&mut self, word: String, postings: Vec<usize>)
        ensures
            final(self)@ == old(self)@.insert(word@, postings@),
    {
        self.map.insert(word, postings);
        proof {
            assert(self@ =~= old(self)@.insert(word@, postings@));
        }
    }

    pub fn get<'a>(&'a self, word: &str) -> (result: Option<&'a Vec<usize>>)
        ensures
            match result {
                Some(v) => self@.contains_key(word@) && v@ == self@[word@],
                None => !self@.contains_key(word@),
            },
    {
        self.map.get(word)
    }

    /// The postings of `word`, or the empty list for an unknown term.
    pub fn get_or_empty(&self, word: &str) -> (result: Vec<usize>)
        ensures
            result@ == self.postings(word@),
    {
        match self.map.get(word) {
            Some(v) => v.clone(),
            None => Vec::new(),
        }
    }

    /// The postings of a term, the empty sequence when absent.
    pub open spec fn postings(&self, w: Seq<char>) -> Seq<usize> {
        postings_of(self@, w)
    }

    /// Record that article `id` holds `word`: append `id` to the term's
    /// postings unless it is already the last entry.
    pub fn add_occurrence(&mut self, word: &String, id: usize)
        ensures
            final(self)@ == old(self)@.insert(word@, appended(old(self).postings(word@), id)),
    {
        let mut v = self.get_or_empty(word.as_str());
        if v.len() == 0 {
            v.push(id);
        } else {
            let last = v[v.len() - 1];
            if last != id {
                v.push(id);
            }
        }
        proof {
            assert(v@ =~= appended(old(self).postings(word@), id));
        }
        self.insert(word.clone(), v);
    }
}

/// The postings a vocabulary holds for a term, empty when absent.
pub open spec fn postings_of(db: Map<Seq<char>, Seq<usize>>, w: Seq<char>) -> Seq<usize> {
    if db.contains_key(w) {
        db[w]
    } else {
        Seq::empty()
    }
}

/// A postings list after recording one more occurrence of an article:
/// unchanged when the article is already the final entry.
pub open spec fn appended(s: Seq<usize>, id: usize) -> Seq<usize> {
    if s.len() > 0 && s[s.len() - 1] == id {
        s
    } else {
        s.push(id)
    }
}

impl Index<WordMap> {
    /// Well-formed: every postings list is strictly increasing and every
    /// id names an article.
    pub open spec fn wf(&self) -> bool {
        forall|w: Seq<char>| self.database@.contains_key(w) ==> {
            &&& sorted_strict(#[trigger] self.database@[w])
            &&& bounded_by(self.database@[w], self.article_titles@.len() as nat)
        }
    }
}

/// The set of article ids a boolean syntax tree denotes, over a vocabulary
/// `db` and the article universe `[0, n)`.
pub open spec fn eval_node(db: Map<Seq<char>, Seq<usize>>, n: nat, node: SpecAst) -> Set<usize>
    decreases node,
{
    match node {
        SpecAst::Name(w) => if db.contains_key(w) {
            db[w].to_set()
        } else {
            Set::empty()
        },
        SpecAst::Invert(child) => universe(n).difference(eval_node(db, n, *child)),
        SpecAst::Binary(BinaryOp::And, l, r) => eval_node(db, n, *l).intersect(
            eval_node(db, n, *r),
        ),
        SpecAst::Binary(BinaryOp::Or, l, r) => eval_node(db, n, *l).union(eval_node(db, n, *r)),
    }
}

/// The set of article ids a boolean syntax tree denotes, over a
/// vocabulary of abstract sets and the article universe `[0, n)`.
pub open spec fn eval_sets(db: Map<Seq<char>, Set<usize>>, n: nat, node: SpecAst) -> Set<usize>
    decreases node,
{
    match node {
        SpecAst::Name(w) => if db.contains_key(w) {
            db[w]
        } else {
            Set::empty()
        },
        SpecAst::Invert(child) => universe(n).difference(eval_sets(db, n, *child)),
        SpecAst::Binary(BinaryOp::And, l, r) => eval_sets(db, n, *l).intersect(
            eval_sets(db, n, *r),
        ),
        SpecAst::Binary(BinaryOp::Or, l, r) => eval_sets(db, n, *l).union(eval_sets(db, n, *r)),
    }
}

/// A tree evaluated over a well-formed vocabulary denotes only valid ids.
pub proof fn lemma_eval_node_bounded(db: Map<Seq<char>, Seq<usize>>, n: nat, node: SpecAst)
    requires
        forall|w: Seq<char>|
            db.contains_key(w) ==> bounded_by(#[trigger] db[w], n),
    ensures
        forall|x: usize| #[trigger] eval_node(db, n, node).contains(x) ==> x < n,
    decreases node,
{
    match node {
        SpecAst::Name(w) => {
            assert forall|x: usize| #[trigger]
                eval_node(db, n, node).contains(x) implies x < n by {
                if db.contains_key(w) {
                    assert(db[w].contains(x));
                    let k = choose|k: int| 0 <= k < db[w].len() && db[w][k] == x;
                }
            }
        },
        SpecAst::Invert(child) => {
            lemma_eval_node_bounded(db, n, *child);
            assert forall|x: usize| #[trigger]
                eval_node(db, n, node).contains(x) implies x < n by {
                assert(universe(n).contains(x));
            }
        },
        SpecAst::Binary(op, l, r) => {
            lemma_eval_node_bounded(db, n, *l);
            lemma_eval_node_bounded(db, n, *r);
            assert forall|x: usize| #[trigger]
                eval_node(db, n, node).contains(x) implies x < n by {
                if op is And {
                    assert(eval_node(db, n, *l).contains(x));
                } else {
                    assert(eval_node(db, n, *l).contains(x) || eval_node(db, n, *r).contains(
                        x,
                    ));
                }
            }
        },
    }
}

/// A tree evaluated over sets of valid ids denotes only valid ids.
pub proof fn lemma_eval_sets_bounded(db: Map<Seq<char>, Set<usize>>, n: nat, node: SpecAst)
    requires
        forall|w: Seq<char>, x: usize|
            db.contains_key(w) && #[trigger] db[w].contains(x) ==> x < n,
    ensures
        forall|x: usize| #[trigger] eval_sets(db, n, node).contains(x) ==> x < n,
    decreases node,
{
    match node {
        SpecAst::Name(w) => {
            assert forall|x: usize| #[trigger]
                eval_sets(db, n, node).contains(x) implies x < n by {
                if db.contains_key(w) {
                    assert(db[w].contains(x));
                }
            }
        },
        SpecAst::Invert(child) => {
            lemma_eval_sets_bounded(db, n, *child);
            assert forall|x: usize| #[trigger]
                eval_sets(db, n, node).contains(x) implies x < n by {
                assert(universe(n).contains(x));
            }
        },
        SpecAst::Binary(op, l, r) => {
            lemma_eval_sets_bounded(db, n, *l);
            lemma_eval_sets_bounded(db, n, *r);
            assert forall|x: usize| #[trigger]
                eval_sets(db, n, node).contains(x) implies x < n by {
                if op is And {
                    assert(eval_sets(db, n, *l).contains(x));
                } else {
                    assert(eval_sets(db, n, *l).contains(x) || eval_sets(db, n, *r).contains(
                        x,
                    ));
                }
            }
        },
    }
}

/// The set of article ids a whole query string denotes over an abstract
/// vocabulary of sets.
pub open spec fn query_eval_sets(db: Map<Seq<char>, Set<usize>>, n: nat, s: Seq<char>) -> Set<
    usize,
> {
    match crate::parsing::parse_outcome(s) {
        crate::parsing::SpecParse::Tree(a) => eval_sets(db, n, a),
        _ => Set::empty(),
    }
}

/// Each id replaced by its article title.
pub open spec fn ids_to_titles(ids: Seq<usize>, titles: Seq<String>) -> Seq<String> {
    ids.map_values(|id: usize| titles[id as int])
}

/// The set of article ids a whole query string denotes: what its syntax
/// tree evaluates to, or the empty set when it does not parse.
pub open spec fn query_eval(db: Map<Seq<char>, Seq<usize>>, n: nat, s: Seq<char>) -> Set<usize> {
    match crate::parsing::parse_outcome(s) {
        crate::parsing::SpecParse::Tree(a) => eval_node(db, n, a),
        _ => Set::empty(),
    }
}

/// The titles a boolean query returns, in ascending id order.
pub open spec fn query_titles(
    db: Map<Seq<char>, Seq<usize>>,
    titles: Seq<String>,
    s: Seq<char>,
) -> Seq<String> {
    ids_to_titles(crate::sorted_list_of(query_eval(db, titles.len() as nat, s)), titles)
}

} // verus!
