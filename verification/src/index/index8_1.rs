//! The DeMorgan boolean evaluator.
//!
//! Where both children of a binary node are themselves `Invert` nodes,
//! the node is rewritten by De Morgan's laws so that only one complement
//! is materialized instead of two.  The rewrite fires at the matching
//! node shape alone; it is not a normalization pass over the whole tree.
use vstd::prelude::*;

use crate::bounded_by;
use crate::index::index8_0::lemma_empty_query_titles;
use crate::index::{eval_node, query_titles, Index, WordMap};
use crate::lemma_sorted_list_of;
use crate::parsing::{ast_view, AstNode, BinaryOp, Expr, ExprData};
use crate::sorted_strict;

verus! {

impl Index<WordMap> {
    /// Answer a boolean query string with the DeMorgan evaluator.  The
    /// titles are those of exactly the articles the query denotes, in
    /// ascending id order; a malformed or empty query yields `None`.
    pub fn boolean_search_demorgan(&self, exp: &String) -> (result: Option<Vec<String>>)
        requires
            self.wf(),
            exp@.len() < usize::MAX,
        ensures
            match result {
                Some(v) => crate::parsing::parse_outcome(exp@) is Tree && v@ == query_titles(
                    self.database@,
                    self.article_titles@,
                    exp@,
                ),
                None => !(crate::parsing::parse_outcome(exp@) is Tree),
            },
    {
        match Expr::from_string(exp) {
            Ok(Expr(ExprData::HasNodes(node))) => {
                let ids = self.evaluate_syntex_tree_demorgan(node);
                proof {
                    lemma_sorted_list_of(ids@);
                }
                Some(self.vec_to_articlelist(ids))
            },
            _ => None,
        }
    }

    /// Evaluate a boolean syntax tree with the DeMorgan rewrite.  The
    /// result denotes exactly the same set as the naive evaluation.
    pub fn evaluate_syntex_tree_demorgan(&self, node: AstNode) -> (result: Vec<usize>)
        requires
            self.wf(),
        ensures
            sorted_strict(result@),
            bounded_by(result@, self.article_titles@.len() as nat),
            result@.to_set() == eval_node(
                self.database@,
                self.article_titles@.len() as nat,
                ast_view(node),
            ),
        decreases node,
    {
        let ghost n = self.article_titles@.len() as nat;
        match node {
            AstNode::Invert(child) => {
                let c = self.evaluate_syntex_tree_demorgan(*child);
                let result = self.invert(c);
                proof {
                    assert(result@.to_set() =~= eval_node(self.database@, n, ast_view(node)));
                }
                result
            },
            AstNode::Binary(BinaryOp::And, left_child, right_child) => {
                match (*left_child, *right_child) {
                    (AstNode::Invert(left_inner), AstNode::Invert(right_inner)) => {
                        // !a & !b == !(a | b): one complement instead of two.
                        let l = self.evaluate_syntex_tree_demorgan(*left_inner);
                        let r = self.evaluate_syntex_tree_demorgan(*right_inner);
                        let u = self.or(l, r);
                        let result = self.invert(u);
                        proof {
                            reveal_with_fuel(eval_node, 3);
                            reveal_with_fuel(ast_view, 3);
                            assert(result@.to_set() =~= eval_node(
                                self.database@,
                                n,
                                ast_view(node),
                            ));
                            assert(bounded_by(result@, n));
                        }
                        result
                    },
                    (left_other, right_other) => {
                        let l = self.evaluate_syntex_tree_demorgan(left_other);
                        let r = self.evaluate_syntex_tree_demorgan(right_other);
                        let result = self.and(l, r);
                        proof {
                            assert(result@.to_set() =~= eval_node(
                                self.database@,
                                n,
                                ast_view(node),
                            ));
                            assert forall|i: int|
                                0 <= i < result@.len() implies (#[trigger] result@[i]) < n by {
                                assert(result@.contains(result@[i]));
                                assert(l@.contains(result@[i]));
                                let j = choose|j: int| 0 <= j < l@.len() && l@[j] == result@[i];
                            }
                        }
                        result
                    },
                }
            },
            AstNode::Binary(BinaryOp::Or, left_child, right_child) => {
                match (*left_child, *right_child) {
                    (AstNode::Invert(left_inner), AstNode::Invert(right_inner)) => {
                        // !a | !b == !(a & b).
                        let l = self.evaluate_syntex_tree_demorgan(*left_inner);
                        let r = self.evaluate_syntex_tree_demorgan(*right_inner);
                        let u = self.and(l, r);
                        let result = self.invert(u);
                        proof {
                            reveal_with_fuel(eval_node, 3);
                            reveal_with_fuel(ast_view, 3);
                            assert(result@.to_set() =~= eval_node(
                                self.database@,
                                n,
                                ast_view(node),
                            ));
                            assert(bounded_by(result@, n));
                        }
                        result
                    },
                    (left_other, right_other) => {
                        let l = self.evaluate_syntex_tree_demorgan(left_other);
                        let r = self.evaluate_syntex_tree_demorgan(right_other);
                        let result = self.or(l, r);
                        proof {
                            assert(result@.to_set() =~= eval_node(
                                self.database@,
                                n,
                                ast_view(node),
                            ));
                            assert forall|i: int|
                                0 <= i < result@.len() implies (#[trigger] result@[i]) < n by {
                                assert(result@.contains(result@[i]));
                                if l@.contains(result@[i]) {
                                    let j = choose|j: int|
                                        0 <= j < l@.len() && l@[j] == result@[i];
                                } else {
                                    let j = choose|j: int|
                                        0 <= j < r@.len() && r@[j] == result@[i];
                                }
                            }
                        }
                        result
                    },
                }
            },
            AstNode::Name(word) => {
                let result = self.database.get_or_empty(word.as_str());
                proof {
                    assert(result@.to_set() =~= eval_node(self.database@, n, ast_view(node)));
                }
                result
            },
        }
    }
}

} // verus!
