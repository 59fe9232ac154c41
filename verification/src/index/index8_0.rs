//! The list-encoded inverted index and the naive boolean evaluator.
//!
//! Postings are strictly increasing id lists.  `And` is a linear co-scan
//! intersection, `Or` a linear co-scan union, and `Invert` a complement
//! against the article universe.
use vstd::prelude::*;

use crate::bounded_by;
use crate::index::{
    appended, eval_node, ids_to_titles, postings_of, query_eval, query_titles, ArticleTitles,
    Index, Query, Search, SearchType, WordMap,
};
use crate::lemma_sorted_list_of;
use crate::parsing::{ast_view, AstNode, BinaryOp, Expr, ExprData};
use crate::sorted_strict;

verus! {

impl Index<WordMap> {
    /// Build the list-encoded index from an article stream: each article
    /// with a nonempty title takes the next id, and every one of its words
    /// gains that id at the end of its postings, once.
    pub fn index8(articles: &Vec<(String, Vec<String>)>) -> (result: Index<WordMap>)
        ensures
            result.wf(),
            (result.database@, result.article_titles@) == build_index_spec(
                Map::<Seq<char>, Seq<usize>>::empty(),
                Seq::<String>::empty(),
                articles@,
            ),
    {
        let mut database = WordMap::new();
        let mut article_titles: Vec<String> = Vec::new();

        let ghost all = articles@;
        let mut i: usize = 0;
        while i < articles.len()
            invariant
                i <= all.len(),
                articles@ == all,
                db_wf(database@, article_titles@.len() as nat),
                (database@, article_titles@) == build_index_spec(
                    Map::<Seq<char>, Seq<usize>>::empty(),
                    Seq::<String>::empty(),
                    all.take(i as int),
                ),
            decreases all.len() - i,
        {
            proof {
                lemma_build_index_spec_snoc(
                    Map::<Seq<char>, Seq<usize>>::empty(),
                    Seq::<String>::empty(),
                    all.take(i as int),
                    all[i as int],
                );
                assert(all.take(i as int).push(all[i as int]) =~= all.take(i + 1));
            }
            let title = &articles[i].0;
            if title.as_str().unicode_len() != 0 {
                article_titles.push(title.clone());
                let id = article_titles.len() - 1;
                let words = &articles[i].1;
                let ghost db0 = database@;
                let mut j: usize = 0;
                while j < words.len()
                    invariant
                        j <= words@.len(),
                        id + 1 == article_titles@.len(),
                        db_wf(database@, article_titles@.len() as nat),
                        database@ == add_words(db0, words@.take(j as int), id),
                    decreases words@.len() - j,
                {
                    proof {
                        lemma_add_words_snoc(db0, words@.take(j as int), words@[j as int], id);
                        assert(words@.take(j as int).push(words@[j as int]) =~= words@.take(
                            j + 1,
                        ));
                        lemma_appended_wf(
                            postings_of(database@, words@[j as int]@),
                            id,
                            article_titles@.len() as nat,
                        );
                    }
                    database.add_occurrence(&words[j], id);
                    j += 1;
                }
                proof {
                    assert(words@.take(words@.len() as int) =~= words@);
                }
            }
            i += 1;
        }
        proof {
            assert(all.take(all.len() as int) =~= all);
        }
        Index { database, article_titles }
    }

    /// Map each article id of a postings list to its title.
    pub fn vec_to_articlelist(&self, vec: Vec<usize>) -> (output: Vec<String>)
        requires
            bounded_by(vec@, self.article_titles@.len() as nat),
        ensures
            output@ == ids_to_titles(vec@, self.article_titles@),
    {
        let mut output: Vec<String> = Vec::new();
        let titles = &self.article_titles;
        let mut k: usize = 0;
        while k < vec.len()
            invariant
                k <= vec@.len(),
                bounded_by(vec@, titles@.len() as nat),
                titles == &self.article_titles,
                output@ == ids_to_titles(vec@.take(k as int), titles@),
            decreases vec@.len() - k,
        {
            output.push(titles[vec[k]].clone());
            proof {
                assert(vec@.take(k + 1).map_values(|id: usize| titles@[id as int]) =~= vec@.take(
                    k as int,
                ).map_values(|id: usize| titles@[id as int]).push(titles@[vec@[k as int] as int]));
            }
            k += 1;
        }
        proof {
            assert(vec@.take(vec@.len() as int) =~= vec@);
        }
        output
    }

    /// Answer a boolean query string with the naive evaluator: the titles
    /// of exactly the articles the query denotes, in ascending id order.
    /// A malformed or empty query yields no titles, never an error.
    pub fn boolean_search_naive(&self, exp: &String) -> (result: ArticleTitles)
        requires
            self.wf(),
            exp@.len() < usize::MAX,
        ensures
            result@ == query_titles(self.database@, self.article_titles@, exp@),
    {
        let ghost n = self.article_titles@.len() as nat;
        match Expr::from_string(exp) {
            Ok(Expr(ExprData::HasNodes(node))) => {
                let ids = self.evaluate_syntax_tree_naive(node);
                proof {
                    lemma_sorted_list_of(ids@);
                }
                self.vec_to_articlelist(ids)
            },
            _ => {
                proof {
                    lemma_empty_query_titles(self.database@, self.article_titles@, exp@);
                }
                Vec::new()
            },
        }
    }

    /// Evaluate a boolean syntax tree to a strictly increasing postings
    /// list denoting exactly the set the tree describes.
    pub fn evaluate_syntax_tree_naive(&self, node: AstNode) -> (result: Vec<usize>)
        requires
            self.wf(),
        ensures
            sorted_strict(result@),
            bounded_by(result@, self.article_titles@.len() as nat),
            result@.to_set() == eval_node(
                self.database@,
                self.article_titles@.len() as nat,
                ast_view(node),
            ),
        decreases node,
    {
        let ghost n = self.article_titles@.len() as nat;
        match node {
            AstNode::Invert(child) => {
                let c = self.evaluate_syntax_tree_naive(*child);
                let result = self.invert(c);
                proof {
                    assert(result@.to_set() =~= eval_node(self.database@, n, ast_view(node)));
                }
                result
            },
            AstNode::Binary(BinaryOp::And, left_child, right_child) => {
                let l = self.evaluate_syntax_tree_naive(*left_child);
                let r = self.evaluate_syntax_tree_naive(*right_child);
                let result = self.and(l, r);
                proof {
                    assert(result@.to_set() =~= eval_node(self.database@, n, ast_view(node)));
                    assert forall|i: int| 0 <= i < result@.len() implies (#[trigger] result@[i])
                        < n by {
                        assert(result@.contains(result@[i]));
                        assert(l@.contains(result@[i]));
                        let j = choose|j: int| 0 <= j < l@.len() && l@[j] == result@[i];
                    }
                }
                result
            },
            AstNode::Binary(BinaryOp::Or, left_child, right_child) => {
                let l = self.evaluate_syntax_tree_naive(*left_child);
                let r = self.evaluate_syntax_tree_naive(*right_child);
                let result = self.or(l, r);
                proof {
                    assert(result@.to_set() =~= eval_node(self.database@, n, ast_view(node)));
                    assert forall|i: int| 0 <= i < result@.len() implies (#[trigger] result@[i])
                        < n by {
                        assert(result@.contains(result@[i]));
                        if l@.contains(result@[i]) {
                            let j = choose|j: int| 0 <= j < l@.len() && l@[j] == result@[i];
                        } else {
                            let j = choose|j: int| 0 <= j < r@.len() && r@[j] == result@[i];
                        }
                    }
                }
                result
            },
            AstNode::Name(word) => {
                let result = self.database.get_or_empty(word.as_str());
                proof {
                    assert(result@.to_set() =~= eval_node(self.database@, n, ast_view(node)));
                }
                result
            },
        }
    }

    /// Sorted-list intersection by linear co-scan.
    pub fn and(&self, left_child: Vec<usize>, right_child: Vec<usize>) -> (result: Vec<usize>)
        requires
            sorted_strict(left_child@),
            sorted_strict(right_child@),
        ensures
            sorted_strict(result@),
            forall|x: usize|
                #[trigger] result@.contains(x) <==> left_child@.contains(x)
                    && right_child@.contains(x),
    {
        let mut result: Vec<usize> = Vec::new();
        let mut l: usize = 0;
        let mut r: usize = 0;

        while l < left_child.len() && r < right_child.len()
            invariant
                l <= left_child@.len(),
                r <= right_child@.len(),
                sorted_strict(left_child@),
                sorted_strict(right_child@),
                sorted_strict(result@),
                forall|x: usize|
                    #[trigger] result@.contains(x) <==> left_child@.take(l as int).contains(x)
                        && right_child@.take(r as int).contains(x),
                forall|j: int|
                    0 <= j < l && r < right_child@.len() ==> #[trigger] left_child@[j]
                        < right_child@[r as int],
                forall|j: int|
                    0 <= j < r && l < left_child@.len() ==> #[trigger] right_child@[j]
                        < left_child@[l as int],
            decreases left_child@.len() + right_child@.len() - l - r,
        {
            if left_child[l] > right_child[r] {
                proof {
                    lemma_take_one_more(right_child@, r as int);
                }
                r = r + 1;
            } else if left_child[l] < right_child[r] {
                proof {
                    lemma_take_one_more(left_child@, l as int);
                }
                l = l + 1;
            } else {
                let x = left_child[l];
                let ghost old_res = result@;
                proof {
                    assert forall|i: int| 0 <= i < result@.len() implies result@[i] < x by {
                        assert(result@.contains(result@[i]));
                        let k = choose|k: int|
                            0 <= k < l && left_child@.take(l as int)[k] == result@[i];
                        assert(left_child@[k] < left_child@[l as int]);
                    }
                    lemma_take_one_more(left_child@, l as int);
                    lemma_take_one_more(right_child@, r as int);
                }
                result.push(x);
                proof {
                    assert(result@ == old_res.push(x));
                    assert forall|y: usize| #[trigger]
                        result@.contains(y) implies left_child@.take(l + 1).contains(y)
                        && right_child@.take(r + 1).contains(y) by {
                        if y == x {
                            assert(left_child@.take(l + 1)[l as int] == x);
                            assert(right_child@.take(r + 1)[r as int] == x);
                        } else {
                            let i = choose|i: int| 0 <= i < result@.len() && result@[i] == y;
                            assert(old_res[i] == y);
                            assert(old_res.contains(y));
                            let k = choose|k: int|
                                0 <= k < l && left_child@.take(l as int)[k] == y;
                            assert(left_child@.take(l + 1)[k] == y);
                            let m = choose|m: int|
                                0 <= m < r && right_child@.take(r as int)[m] == y;
                            assert(right_child@.take(r + 1)[m] == y);
                        }
                    }
                    assert forall|y: usize|
                        left_child@.take(l + 1).contains(y) && right_child@.take(r + 1).contains(
                            y,
                        ) implies #[trigger] result@.contains(y) by {
                        assert(result@[result@.len() - 1] == x);
                        if y != x {
                            let lt = left_child@.take(l + 1);
                            let k = choose|k: int| 0 <= k < lt.len() && lt[k] == y;
                            assert(left_child@.take(l as int)[k] == y);
                            let rt = right_child@.take(r + 1);
                            let m = choose|m: int| 0 <= m < rt.len() && rt[m] == y;
                            assert(right_child@.take(r as int)[m] == y);
                            assert(old_res.contains(y));
                            let i = choose|i: int| 0 <= i < old_res.len() && old_res[i] == y;
                            assert(result@[i] == y);
                        }
                    }
                }
                l = l + 1;
                r = r + 1;
            }
        }
        proof {
            assert forall|x: usize| #[trigger]
                result@.contains(x) <==> left_child@.contains(x) && right_child@.contains(x) by {
                lemma_take_contains(left_child@, l as int, x);
                lemma_take_contains(right_child@, r as int, x);
                if left_child@.contains(x) && right_child@.contains(x) {
                    if !left_child@.take(l as int).contains(x) {
                        // x sits at or after the left cursor, so the right
                        // side must have been exhausted below x.
                        let k = choose|k: int|
                            0 <= k < left_child@.len() && left_child@[k] == x;
                        if k < l {
                            assert(left_child@.take(l as int)[k] == x);
                            assert(false);
                        }
                        assert(r == right_child@.len());
                        let m = choose|m: int|
                            0 <= m < right_child@.len() && right_child@[m] == x;
                        assert(l < left_child@.len());
                        assert(right_child@[m] < left_child@[l as int]);
                        assert(left_child@[l as int] <= left_child@[k]);
                        assert(false);
                    }
                    if !right_child@.take(r as int).contains(x) {
                        let k = choose|k: int|
                            0 <= k < right_child@.len() && right_child@[k] == x;
                        if k < r {
                            assert(right_child@.take(r as int)[k] == x);
                            assert(false);
                        }
                        assert(l == left_child@.len());
                        let m = choose|m: int|
                            0 <= m < left_child@.len() && left_child@[m] == x;
                        assert(r < right_child@.len());
                        assert(left_child@[m] < right_child@[r as int]);
                        assert(right_child@[r as int] <= right_child@[k]);
                        assert(false);
                    }
                }
            }
        }
        result
    }

    /// Sorted-list union by linear co-scan.
    pub fn or(&self, left_child: Vec<usize>, right_child: Vec<usize>) -> (result: Vec<usize>)
        requires
            sorted_strict(left_child@),
            sorted_strict(right_child@),
        ensures
            sorted_strict(result@),
            forall|x: usize|
                #[trigger] result@.contains(x) <==> left_child@.contains(x)
                    || right_child@.contains(x),
    {
        let mut result: Vec<usize> = Vec::new();
        let mut l: usize = 0;
        let mut r: usize = 0;

        while l < left_child.len() || r < right_child.len()
            invariant
                l <= left_child@.len(),
                r <= right_child@.len(),
                sorted_strict(left_child@),
                sorted_strict(right_child@),
                sorted_strict(result@),
                forall|x: usize|
                    #[trigger] result@.contains(x) <==> left_child@.take(l as int).contains(x)
                        || right_child@.take(r as int).contains(x),
                forall|j: int|
                    0 <= j < l && r < right_child@.len() ==> #[trigger] left_child@[j]
                        < right_child@[r as int],
                forall|j: int|
                    0 <= j < r && l < left_child@.len() ==> #[trigger] right_child@[j]
                        < left_child@[l as int],
            decreases left_child@.len() + right_child@.len() - l - r,
        {
            let take_left = if l == left_child.len() {
                false
            } else if r == right_child.len() {
                true
            } else if left_child[l] > right_child[r] {
                false
            } else {
                true
            };
            let both = l < left_child.len() && r < right_child.len() && left_child[l]
                == right_child[r];
            let x = if take_left {
                left_child[l]
            } else {
                right_child[r]
            };
            proof {
                assert forall|i: int| 0 <= i < result@.len() implies result@[i] < x by {
                    assert(result@.contains(result@[i]));
                    if left_child@.take(l as int).contains(result@[i]) {
                        let k = choose|k: int|
                            0 <= k < l && left_child@.take(l as int)[k] == result@[i];
                        assert(left_child@[k] == result@[i]);
                        if l < left_child@.len() {
                            assert(left_child@[k] < left_child@[l as int]);
                        }
                    } else {
                        let k = choose|k: int|
                            0 <= k < r && right_child@.take(r as int)[k] == result@[i];
                        assert(right_child@[k] == result@[i]);
                        if r < right_child@.len() {
                            assert(right_child@[k] < right_child@[r as int]);
                        }
                    }
                }
                if l < left_child@.len() {
                    lemma_take_one_more(left_child@, l as int);
                }
                if r < right_child@.len() {
                    lemma_take_one_more(right_child@, r as int);
                }
            }
            let ghost old_res = result@;
            result.push(x);
            let ghost old_l = l as int;
            let ghost old_r = r as int;
            if take_left {
                l = l + 1;
                if both {
                    r = r + 1;
                }
            } else {
                r = r + 1;
            }
            proof {
                assert(result@ == old_res.push(x));
                assert forall|y: usize| #[trigger]
                    result@.contains(y) implies left_child@.take(l as int).contains(y)
                    || right_child@.take(r as int).contains(y) by {
                    if y != x {
                        let i = choose|i: int| 0 <= i < result@.len() && result@[i] == y;
                        assert(old_res[i] == y);
                        assert(old_res.contains(y));
                        if left_child@.take(old_l).contains(y) {
                            let k = choose|k: int|
                                0 <= k < old_l && left_child@.take(old_l)[k] == y;
                            assert(left_child@.take(l as int)[k] == y);
                        } else {
                            let k = choose|k: int|
                                0 <= k < old_r && right_child@.take(old_r)[k] == y;
                            assert(right_child@.take(r as int)[k] == y);
                        }
                    } else {
                        if take_left {
                            assert(left_child@.take(l as int)[old_l] == x);
                        } else {
                            assert(right_child@.take(r as int)[old_r] == x);
                        }
                    }
                }
                assert forall|y: usize|
                    left_child@.take(l as int).contains(y) || right_child@.take(
                        r as int,
                    ).contains(y) implies #[trigger] result@.contains(y) by {
                    assert(result@[result@.len() - 1] == x);
                    if y != x {
                        if left_child@.take(l as int).contains(y) {
                            let k = choose|k: int|
                                0 <= k < l && left_child@.take(l as int)[k] == y;
                            if k < old_l {
                                assert(left_child@.take(old_l)[k] == y);
                                assert(old_res.contains(y));
                            } else {
                                // k == old_l would make y the pushed id.
                                assert(left_child@[k] == y);
                                assert(take_left && k == old_l);
                                assert(false);
                            }
                        } else {
                            let k = choose|k: int|
                                0 <= k < r && right_child@.take(r as int)[k] == y;
                            if k < old_r {
                                assert(right_child@.take(old_r)[k] == y);
                                assert(old_res.contains(y));
                            } else {
                                assert(right_child@[k] == y);
                                assert(!take_left || both);
                                assert(k == old_r);
                                if take_left {
                                    // both cursors sat on the same id x.
                                    assert(right_child@[old_r] == x);
                                }
                                assert(false);
                            }
                        }
                        let i = choose|i: int| 0 <= i < old_res.len() && old_res[i] == y;
                        assert(result@[i] == y);
                    }
                }
            }
        }
        proof {
            assert(left_child@.take(left_child@.len() as int) =~= left_child@);
            assert(right_child@.take(right_child@.len() as int) =~= right_child@);
        }
        result
    }

    /// Complement against the article universe `[0, article_count)`.
    pub fn invert(&self, child: Vec<usize>) -> (result: Vec<usize>)
        requires
            sorted_strict(child@),
        ensures
            sorted_strict(result@),
            bounded_by(result@, self.article_titles@.len() as nat),
            forall|x: usize|
                #[trigger] result@.contains(x) <==> (x < self.article_titles@.len()
                    && !child@.contains(x)),
    {
        let mut result: Vec<usize> = Vec::new();
        let mut p: usize = 0;
        let n = self.article_titles.len();

        let mut i: usize = 0;
        while i < n
            invariant
                n == self.article_titles@.len(),
                i <= n,
                p <= child@.len(),
                sorted_strict(child@),
                sorted_strict(result@),
                bounded_by(result@, i as nat),
                forall|j: int| 0 <= j < p ==> #[trigger] child@[j] < i,
                p < child@.len() ==> child@[p as int] >= i,
                forall|x: usize|
                    #[trigger] result@.contains(x) <==> (x < i && !child@.contains(x)),
            decreases n - i,
        {
            if p >= child.len() || i < child[p] {
                proof {
                    assert forall|k: int| 0 <= k < result@.len() implies result@[k] < i by {
                        assert(result@.contains(result@[k]));
                    }
                    if child@.contains(i) {
                        let k = choose|k: int| 0 <= k < child@.len() && child@[k] == i;
                        assert(k >= p);
                        if p < child@.len() {
                            assert(child@[p as int] <= child@[k]);
                        }
                        assert(false);
                    }
                }
                let ghost old_res = result@;
                result.push(i);
                proof {
                    assert(result@ == old_res.push(i));
                    assert forall|x: usize| #[trigger]
                        result@.contains(x) implies (x < i + 1 && !child@.contains(x)) by {
                        if x != i {
                            let k = choose|k: int| 0 <= k < result@.len() && result@[k] == x;
                            assert(old_res[k] == x);
                            assert(old_res.contains(x));
                        }
                    }
                    assert forall|x: usize|
                        x < i + 1 && !child@.contains(x) implies #[trigger] result@.contains(
                        x,
                    ) by {
                        assert(result@[result@.len() - 1] == i);
                        if x != i {
                            assert(old_res.contains(x));
                            let k = choose|k: int| 0 <= k < old_res.len() && old_res[k] == x;
                            assert(result@[k] == x);
                        }
                    }
                }
            } else {
                // i == child[p]: the id is a member, skip it.
                proof {
                    assert(child@[p as int] == i);
                    assert(child@.contains(i));
                    assert forall|x: usize| #[trigger]
                        result@.contains(x) <==> (x < i + 1 && !child@.contains(x)) by {
                        if x == i {
                            assert(child@.contains(x));
                        }
                    }
                    assert forall|j: int| 0 <= j < p + 1 implies #[trigger] child@[j] < i
                        + 1 by {
                        if j < p {
                            assert(child@[j] < i);
                        }
                    }
                    if p + 1 < child@.len() {
                        assert(child@[p as int] < child@[p + 1]);
                    }
                }
                p = p + 1;
            }
            i += 1;
        }
        result
    }

    /// The vocabulary mapping itself.
    pub fn get_database_lin(&self) -> (result: &WordMap)
        ensures
            result@ == self.database@,
    {
        &self.database
    }

    /// The ordered article titles.
    pub fn get_article_titles(&self) -> (result: &Vec<String>)
        ensures
            result@ == self.article_titles@,
    {
        &self.article_titles
    }
}

/// A query that does not parse to a tree returns no titles.
pub proof fn lemma_empty_query_titles(
    db: Map<Seq<char>, Seq<usize>>,
    titles: Seq<String>,
    s: Seq<char>,
)
    requires
        !(crate::parsing::parse_outcome(s) is Tree),
    ensures
        query_titles(db, titles, s) == Seq::<String>::empty(),
{
    assert(query_eval(db, titles.len() as nat, s) =~= Set::<usize>::empty());
    assert(Seq::<usize>::empty().to_set() =~= Set::<usize>::empty());
    crate::lemma_sorted_list_of(Seq::<usize>::empty());
    assert(ids_to_titles(Seq::<usize>::empty(), titles) =~= Seq::<String>::empty());
}

/// Every postings list of `db` is strictly increasing and bounded by `n`.
pub open spec fn db_wf(db: Map<Seq<char>, Seq<usize>>, n: nat) -> bool {
    forall|w: Seq<char>| db.contains_key(w) ==> sorted_strict(#[trigger] db[w]) && bounded_by(
        db[w],
        n,
    )
}

proof fn lemma_appended_wf(s: Seq<usize>, id: usize, n: nat)
    requires
        sorted_strict(s),
        bounded_by(s, (id + 1) as nat),
        id < n,
    ensures
        sorted_strict(appended(s, id)),
        bounded_by(appended(s, id), n),
{
    if s.len() > 0 && s[s.len() - 1] == id {
    } else {
        let t = s.push(id);
        assert forall|i: int, j: int| 0 <= i < j < t.len() implies t[i] < t[j] by {
            if j == t.len() - 1 {
                assert(s[i] < id + 1);
                if s.len() > 0 && i < s.len() - 1 {
                    assert(s[i] < s[s.len() - 1]);
                }
            }
        }
    }
}

proof fn lemma_take_one_more(s: Seq<usize>, k: int)
    requires
        0 <= k < s.len(),
    ensures
        s.take(k + 1) == s.take(k).push(s[k]),
{
    assert(s.take(k + 1) =~= s.take(k).push(s[k]));
}

proof fn lemma_take_contains(s: Seq<usize>, k: int, x: usize)
    requires
        0 <= k <= s.len(),
    ensures
        s.take(k).contains(x) ==> s.contains(x),
        k == s.len() ==> (s.take(k).contains(x) <==> s.contains(x)),
{
    if s.take(k).contains(x) {
        let i = choose|i: int| 0 <= i < k && s.take(k)[i] == x;
        assert(s[i] == x);
    }
    if k == s.len() {
        assert(s.take(k) =~= s);
    }
}

/// One article's words folded into the vocabulary, left to right.
pub open spec fn add_words(
    db: Map<Seq<char>, Seq<usize>>,
    words: Seq<String>,
    id: usize,
) -> Map<Seq<char>, Seq<usize>>
    decreases words.len(),
{
    if words.len() == 0 {
        db
    } else {
        add_words(
            db.insert(words[0]@, appended(postings_of(db, words[0]@), id)),
            words.drop_first(),
            id,
        )
    }
}

pub proof fn lemma_add_words_snoc(
    db: Map<Seq<char>, Seq<usize>>,
    words: Seq<String>,
    w: String,
    id: usize,
)
    ensures
        add_words(db, words.push(w), id) == add_words(db, words, id).insert(
            w@,
            appended(postings_of(add_words(db, words, id), w@), id),
        ),
    decreases words.len(),
{
    reveal_with_fuel(add_words, 3);
    if words.len() == 0 {
        assert(words.push(w)[0] == w);
        assert(words.push(w).drop_first() =~= Seq::<String>::empty());
    } else {
        let db1 = db.insert(words[0]@, appended(postings_of(db, words[0]@), id));
        assert(words.push(w)[0] == words[0]);
        assert(words.push(w).drop_first() =~= words.drop_first().push(w));
        lemma_add_words_snoc(db1, words.drop_first(), w, id);
    }
    assert(add_words(db, words.push(w), id) =~~= add_words(db, words, id).insert(
        w@,
        appended(postings_of(add_words(db, words, id), w@), id),
    ));
}

/// The whole build: articles folded in corpus order into the vocabulary
/// and the title sequence.
pub open spec fn build_index_spec(
    db: Map<Seq<char>, Seq<usize>>,
    titles: Seq<String>,
    articles: Seq<(String, Vec<String>)>,
) -> (Map<Seq<char>, Seq<usize>>, Seq<String>)
    decreases articles.len(),
{
    if articles.len() == 0 {
        (db, titles)
    } else {
        let (title, words) = articles[0];
        if title@.len() == 0 {
            build_index_spec(db, titles, articles.drop_first())
        } else {
            build_index_spec(
                add_words(db, words@, titles.len() as usize),
                titles.push(title),
                articles.drop_first(),
            )
        }
    }
}

pub proof fn lemma_build_index_spec_snoc(
    db: Map<Seq<char>, Seq<usize>>,
    titles: Seq<String>,
    articles: Seq<(String, Vec<String>)>,
    a: (String, Vec<String>),
)
    ensures
        build_index_spec(db, titles, articles.push(a)) == {
            let (db1, titles1) = build_index_spec(db, titles, articles);
            if a.0@.len() == 0 {
                (db1, titles1)
            } else {
                (add_words(db1, a.1@, titles1.len() as usize), titles1.push(a.0))
            }
        },
    decreases articles.len(),
{
    reveal_with_fuel(build_index_spec, 3);
    if articles.len() == 0 {
        assert(articles.push(a)[0] == a);
        assert(articles.push(a).drop_first() =~= Seq::<(String, Vec<String>)>::empty());
    } else {
        assert(articles.push(a)[0] == articles[0]);
        assert(articles.push(a).drop_first() =~= articles.drop_first().push(a));
        let (title, words) = articles[0];
        if title@.len() == 0 {
            lemma_build_index_spec_snoc(db, titles, articles.drop_first(), a);
        } else {
            lemma_build_index_spec_snoc(
                add_words(db, words@, titles.len() as usize),
                titles.push(title),
                articles.drop_first(),
                a,
            );
        }
    }
    let lhs = build_index_spec(db, titles, articles.push(a));
    let r = build_index_spec(db, titles, articles);
    if a.0@.len() == 0 {
        assert(lhs =~~= r);
    } else {
        assert(lhs =~~= (add_words(r.0, a.1@, r.1.len() as usize), r.1.push(a.0)));
    }
}

/// Compare a strategy name against a keyword.
fn name_is(x: &String, kw: &str) -> (r: bool)
    ensures
        r == (x@ == kw@),
{
    let k: String = kw.to_owned();
    *x == k
}

impl Search for Index<WordMap> {
    open spec fn supports(&self, query: &Query) -> bool {
        &&& self.wf()
        &&& query.search_string@.len() < usize::MAX
        &&& self.article_titles@.len() < usize::MAX - 64
        &&& match query.search_type {
            SearchType::SingleWordSearch => true,
            SearchType::BooleanSearch(s) => s@ == "Naive"@ || s@ == "DeMorgan"@ || s@
                == "BinarySearch"@ || s@ == "Hybrid"@ || s@ == "Bitvecs"@,
            _ => false,
        }
    }

    /// Dispatch: the single word lookup, or one of the five boolean
    /// strategies by name.  Every boolean strategy returns the titles of
    /// exactly the articles the query denotes, in ascending id order.
    fn search(&self, query: &Query) -> (result: ArticleTitles)
        ensures
            match query.search_type {
                SearchType::BooleanSearch(_) => result@ == query_titles(
                    self.database@,
                    self.article_titles@,
                    query.search_string@,
                ),
                SearchType::SingleWordSearch => result@ == ids_to_titles(
                    postings_of(self.database@, query.search_string@),
                    self.article_titles@,
                ),
                _ => true,
            },
    {
        match &query.search_type {
            SearchType::SingleWordSearch => self.single_search(&query.search_string),
            SearchType::BooleanSearch(x) => {
                if name_is(x, "Naive") {
                    self.boolean_search_naive(&query.search_string)
                } else if name_is(x, "DeMorgan") {
                    match self.boolean_search_demorgan(&query.search_string) {
                        Some(v) => v,
                        None => {
                            proof {
                                lemma_empty_query_titles(
                                    self.database@,
                                    self.article_titles@,
                                    query.search_string@,
                                );
                            }
                            Vec::new()
                        },
                    }
                } else if name_is(x, "BinarySearch") {
                    match self.boolean_search_binary_search(&query.search_string) {
                        Some(v) => v,
                        None => {
                            proof {
                                lemma_empty_query_titles(
                                    self.database@,
                                    self.article_titles@,
                                    query.search_string@,
                                );
                            }
                            Vec::new()
                        },
                    }
                } else if name_is(x, "Hybrid") {
                    self.boolean_search_hybrid(&query.search_string)
                } else {
                    self.boolean_search_articles_to_bitvecs(&query.search_string)
                }
            },
            _ => {
                proof {
                    assert(false);
                }
                unreached()
            },
        }
    }
}

} // verus!
