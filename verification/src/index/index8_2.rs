//! The adaptive binary-search boolean evaluator.
//!
//! `And` chooses between the linear co-scan and a binary-search
//! intersection that probes each element of the smaller list into the
//! larger one, whichever the size estimate favors.  `Or` always uses the
//! linear co-scan.  Every choice denotes the same set.
use vstd::prelude::*;

use crate::bounded_by;
use crate::index::{eval_node, query_titles, Index, WordMap};
use crate::lemma_sorted_list_of;
use crate::parsing::{ast_view, AstNode, BinaryOp, Expr, ExprData};
use crate::sorted_strict;

verus! {

/// The floor of the base-2 logarithm, used only to pick a merge strategy.
fn log2_floor(x: usize) -> (result: usize)
    requires
        x >= 1,
{
    let mut v = x;
    let mut c: usize = 0;
    while v > 1
        invariant
            v >= 1,
            c < 64,
            v <= x,
        decreases v,
    {
        v = v / 2;
        // A machine word halves at most 63 times, so the cap never
        // bites; it keeps the counter's bound a loop invariant.
        if c < 63 {
            c = c + 1;
        }
    }
    c
}

/// Whether probing each element of a `small`-sized list into a
/// `large`-sized one by binary search beats the linear co-scan:
/// `small + large > log2(small) * large`, in wide arithmetic.
fn binary_probe_pays(small: usize, large: usize) -> (result: bool)
    requires
        small >= 1,
{
    let lg = log2_floor(small);
    proof {
        vstd::arithmetic::mul::lemma_mul_upper_bound(
            lg as int,
            u64::MAX as int,
            large as int,
            u64::MAX as int,
        );
    }
    (small as u128) + (large as u128) > (lg as u128) * (large as u128)
}

/// Is `x` a member of the strictly increasing list `v`?
fn binary_search_contains(v: &Vec<usize>, x: usize) -> (result: bool)
    requires
        sorted_strict(v@),
    ensures
        result == v@.contains(x),
{
    let mut lo: usize = 0;
    let mut hi: usize = v.len();
    while lo < hi
        invariant
            lo <= hi <= v@.len(),
            sorted_strict(v@),
            forall|i: int| 0 <= i < lo ==> #[trigger] v@[i] < x,
            forall|i: int| hi <= i < v@.len() ==> #[trigger] v@[i] > x,
        decreases hi - lo,
    {
        let mid = lo + (hi - lo) / 2;
        if v[mid] == x {
            return true;
        } else if v[mid] < x {
            proof {
                assert forall|i: int| 0 <= i < mid + 1 implies #[trigger] v@[i] < x by {
                    if i < mid {
                        assert(v@[i] < v@[mid as int]);
                    }
                }
            }
            lo = mid + 1;
        } else {
            proof {
                assert forall|i: int| mid <= i < v@.len() implies #[trigger] v@[i] > x by {
                    if i > mid {
                        assert(v@[mid as int] < v@[i]);
                    }
                }
            }
            hi = mid;
        }
    }
    proof {
        if v@.contains(x) {
            let k = choose|k: int| 0 <= k < v@.len() && v@[k] == x;
            assert(false);
        }
    }
    false
}

impl Index<WordMap> {
    /// Answer a boolean query string with the adaptive binary-search
    /// evaluator.  The titles are those of exactly the articles the query
    /// denotes, in ascending id order; a malformed or empty query yields
    /// `None`.
    pub fn boolean_search_binary_search(&self, exp: &String) -> (result: Option<Vec<String>>)
        requires
            self.wf(),
            exp@.len() < usize::MAX,
        ensures
            match result {
                Some(v) => crate::parsing::parse_outcome(exp@) is Tree && v@ == query_titles(
                    self.database@,
                    self.article_titles@,
                    exp@,
                ),
                None => !(crate::parsing::parse_outcome(exp@) is Tree),
            },
    {
        match Expr::from_string(exp) {
            Ok(Expr(ExprData::HasNodes(node))) => {
                let ids = self.evaluate_syntex_tree_binary_search(node);
                proof {
                    lemma_sorted_list_of(ids@);
                }
                Some(self.vec_to_articlelist(ids))
            },
            _ => None,
        }
    }

    /// Intersection by probing each element of the smaller list into the
    /// larger list with binary search.
    pub fn and_binary_search(&self, small_child: Vec<usize>, large_child: Vec<usize>) -> (result:
        Vec<usize>)
        requires
            sorted_strict(small_child@),
            sorted_strict(large_child@),
        ensures
            sorted_strict(result@),
            forall|x: usize|
                #[trigger] result@.contains(x) <==> small_child@.contains(x)
                    && large_child@.contains(x),
    {
        let mut result: Vec<usize> = Vec::new();
        let mut k: usize = 0;
        while k < small_child.len()
            invariant
                k <= small_child@.len(),
                sorted_strict(small_child@),
                sorted_strict(large_child@),
                sorted_strict(result@),
                forall|x: usize|
                    #[trigger] result@.contains(x) <==> small_child@.take(k as int).contains(x)
                        && large_child@.contains(x),
            decreases small_child@.len() - k,
        {
            let s = small_child[k];
            let ghost old_res = result@;
            if binary_search_contains(&large_child, s) {
                proof {
                    assert forall|i: int| 0 <= i < result@.len() implies result@[i] < s by {
                        assert(result@.contains(result@[i]));
                        let j = choose|j: int|
                            0 <= j < k && small_child@.take(k as int)[j] == result@[i];
                        assert(small_child@[j] < small_child@[k as int]);
                    }
                }
                result.push(s);
            }
            proof {
                assert(small_child@.take(k + 1) =~= small_child@.take(k as int).push(
                    small_child@[k as int],
                ));
                assert forall|x: usize| #[trigger]
                    result@.contains(x) implies small_child@.take(k + 1).contains(x)
                    && large_child@.contains(x) by {
                    if result@ == old_res.push(s) && x == s {
                        assert(small_child@.take(k + 1)[k as int] == s);
                    } else {
                        let i = choose|i: int| 0 <= i < result@.len() && result@[i] == x;
                        assert(old_res[i] == x);
                        assert(old_res.contains(x));
                        let j = choose|j: int|
                            0 <= j < k && small_child@.take(k as int)[j] == x;
                        assert(small_child@.take(k + 1)[j] == x);
                    }
                }
                assert forall|x: usize|
                    small_child@.take(k + 1).contains(x) && large_child@.contains(
                        x,
                    ) implies #[trigger] result@.contains(x) by {
                    let t = small_child@.take(k + 1);
                    let j = choose|j: int| 0 <= j < t.len() && t[j] == x;
                    if j < k {
                        assert(small_child@.take(k as int)[j] == x);
                        assert(old_res.contains(x));
                        let i = choose|i: int| 0 <= i < old_res.len() && old_res[i] == x;
                        assert(result@[i] == x);
                    } else {
                        assert(x == s);
                        assert(result@ == old_res.push(s));
                        assert(result@[result@.len() - 1] == s);
                    }
                }
            }
            k += 1;
        }
        proof {
            assert(small_child@.take(small_child@.len() as int) =~= small_child@);
        }
        result
    }

    /// Evaluate a boolean syntax tree, choosing the cheaper intersection
    /// for each `And` node.  The result denotes exactly the same set as
    /// the naive evaluation.
    pub fn evaluate_syntex_tree_binary_search(&self, node: AstNode) -> (result: Vec<usize>)
        requires
            self.wf(),
        ensures
            sorted_strict(result@),
            bounded_by(result@, self.article_titles@.len() as nat),
            result@.to_set() == eval_node(
                self.database@,
                self.article_titles@.len() as nat,
                ast_view(node),
            ),
        decreases node,
    {
        let ghost n = self.article_titles@.len() as nat;
        match node {
            AstNode::Invert(child) => {
                let c = self.evaluate_syntex_tree_binary_search(*child);
                let result = self.invert(c);
                proof {
                    assert(result@.to_set() =~= eval_node(self.database@, n, ast_view(node)));
                }
                result
            },
            AstNode::Binary(BinaryOp::And, left_child, right_child) => {
                let l = self.evaluate_syntex_tree_binary_search(*left_child);
                let r = self.evaluate_syntex_tree_binary_search(*right_child);
                let result = self.and_adaptive(l, r);
                proof {
                    assert(result@.to_set() =~= eval_node(self.database@, n, ast_view(node)));
                    assert forall|i: int| 0 <= i < result@.len() implies (#[trigger] result@[i])
                        < n by {
                        assert(result@.contains(result@[i]));
                        let j = choose|j: int| 0 <= j < l@.len() && l@[j] == result@[i];
                    }
                }
                result
            },
            AstNode::Binary(BinaryOp::Or, left_child, right_child) => {
                let l = self.evaluate_syntex_tree_binary_search(*left_child);
                let r = self.evaluate_syntex_tree_binary_search(*right_child);
                let result = self.or(l, r);
                proof {
                    assert(result@.to_set() =~= eval_node(self.database@, n, ast_view(node)));
                    assert forall|i: int| 0 <= i < result@.len() implies (#[trigger] result@[i])
                        < n by {
                        assert(result@.contains(result@[i]));
                        if l@.contains(result@[i]) {
                            let j = choose|j: int| 0 <= j < l@.len() && l@[j] == result@[i];
                        } else {
                            let j = choose|j: int| 0 <= j < r@.len() && r@[j] == result@[i];
                        }
                    }
                }
                result
            },
            AstNode::Name(word) => {
                let result = self.database.get_or_empty(word.as_str());
                proof {
                    assert(result@.to_set() =~= eval_node(self.database@, n, ast_view(node)));
                }
                result
            },
        }
    }

    /// Intersect two postings lists, probing by binary search when the
    /// size estimate favors it for either ordering.
    pub fn and_adaptive(&self, left_articlelist: Vec<usize>, right_articlelist: Vec<usize>) -> (
        result: Vec<usize>)
        requires
            sorted_strict(left_articlelist@),
            sorted_strict(right_articlelist@),
        ensures
            sorted_strict(result@),
            forall|x: usize|
                #[trigger] result@.contains(x) <==> left_articlelist@.contains(x)
                    && right_articlelist@.contains(x),
    {
        if left_articlelist.len() > 0 && binary_probe_pays(
            left_articlelist.len(),
            right_articlelist.len(),
        ) {
            self.and_binary_search(right_articlelist, left_articlelist)
        } else if right_articlelist.len() > 0 && binary_probe_pays(
            right_articlelist.len(),
            left_articlelist.len(),
        ) {
            self.and_binary_search(left_articlelist, right_articlelist)
        } else {
            self.and(left_articlelist, right_articlelist)
        }
    }
}

} // verus!
