//! The convert-to-bitvecs boolean evaluator.
//!
//! It walks the same syntax tree as the list evaluators but converts
//! each term's postings list to a bit-packed set at the leaves and works
//! blockwise above them.  Complement can set bits past the article
//! count; the decode step silently ignores them.
use vstd::prelude::*;

use crate::bounded_by;
use crate::index::index7::{
    and_blocks, bit_of, bitvec_ids, blocks_for, blocks_needed, lemma_id_block, not_blocks,
    or_blocks, pad_blocks,
};
use crate::index::{eval_node, query_eval, query_titles, ArticleTitles, Index, WordMap};
use crate::lemma_sorted_list_of;
use crate::parsing::{ast_view, AstNode, BinaryOp, Expr, ExprData};

verus! {

impl Index<WordMap> {
    /// A postings list as a bit-packed set covering the whole article
    /// universe.
    pub fn to_bitvec(&self, articlevec: Vec<usize>) -> (r: Vec<u64>)
        requires
            self.article_titles@.len() < usize::MAX - 64,
            bounded_by(articlevec@, self.article_titles@.len() as nat),
        ensures
            r@.len() == blocks_for(self.article_titles@.len() as nat),
            forall|x: usize| #[trigger] bit_of(r@, x as nat) <==> articlevec@.contains(x),
    {
        let nb = blocks_needed(self.article_titles.len());
        let zeros: Vec<u64> = Vec::new();
        let mut r = pad_blocks(zeros, nb);
        let mut k: usize = 0;
        while k < articlevec.len()
            invariant
                k <= articlevec@.len(),
                self.article_titles@.len() < usize::MAX - 64,
                bounded_by(articlevec@, self.article_titles@.len() as nat),
                r@.len() == blocks_for(self.article_titles@.len() as nat),
                forall|x: usize|
                    #[trigger] bit_of(r@, x as nat) <==> articlevec@.take(k as int).contains(x),
            decreases articlevec@.len() - k,
        {
            let id = articlevec[k];
            proof {
                lemma_id_block(id as nat, self.article_titles@.len() as nat);
            }
            let b = id / 64;
            let s = (id % 64) as u64;
            let ghost pre = r@;
            let blk = r[b];
            r.set(b, blk | (1u64 << s));
            proof {
                assert(articlevec@.take(k + 1) =~= articlevec@.take(k as int).push(
                    articlevec@[k as int],
                ));
                assert(articlevec@.take(k + 1)[k as int] == id);
                assert forall|x: usize| #[trigger]
                    bit_of(r@, x as nat) <==> articlevec@.take(k + 1).contains(x) by {
                    let n = self.article_titles@.len() as nat;
                    if articlevec@.take(k + 1).contains(x) {
                        let t = articlevec@.take(k + 1);
                        let m = choose|m: int| 0 <= m < t.len() && t[m] == x;
                        assert(articlevec@[m] == x);
                        assert(x < n);
                        lemma_id_block(x as nat, n);
                        if (x as nat) / 64 == b {
                            crate::index::index7::lemma_set_bit(
                                pre[b as int],
                                s,
                                ((x as nat) % 64) as u64,
                            );
                        }
                        if m < k {
                            assert(articlevec@.take(k as int)[m] == x);
                            assert(articlevec@.take(k as int).contains(x));
                            assert(bit_of(pre, x as nat));
                        } else {
                            assert(x == id);
                        }
                        assert(bit_of(r@, x as nat));
                    }
                    if bit_of(r@, x as nat) {
                        if (x as nat) / 64 == b {
                            crate::index::index7::lemma_set_bit(
                                pre[b as int],
                                s,
                                ((x as nat) % 64) as u64,
                            );
                            if ((x as nat) % 64) as u64 == s {
                                crate::index::index7::lemma_bit_address(x as nat, id as nat);
                                assert(x == id);
                                assert(articlevec@.take(k + 1).contains(x));
                            } else {
                                assert(bit_of(pre, x as nat));
                                assert(articlevec@.take(k as int).contains(x));
                                let m = choose|m: int|
                                    0 <= m < k && articlevec@.take(k as int)[m] == x;
                                assert(articlevec@.take(k + 1)[m] == x);
                            }
                        } else {
                            assert(r@[((x as nat) / 64) as int] == pre[((x as nat) / 64)
                                as int]);
                            assert(bit_of(pre, x as nat));
                            assert(articlevec@.take(k as int).contains(x));
                            let m = choose|m: int|
                                0 <= m < k && articlevec@.take(k as int)[m] == x;
                            assert(articlevec@.take(k + 1)[m] == x);
                        }
                    }
                }
            }
            k += 1;
        }
        proof {
            assert(articlevec@.take(articlevec@.len() as int) =~= articlevec@);
        }
        r
    }

    /// Evaluate a boolean syntax tree over bit-packed sets.  For every
    /// article id the result's bit agrees with the set the tree denotes;
    /// bits past the article count carry no meaning.
    pub fn evaluate_syntax_tree_convert_to_bitvecs(&self, node: AstNode) -> (result: Vec<u64>)
        requires
            self.wf(),
            self.article_titles@.len() < usize::MAX - 64,
        ensures
            result@.len() == blocks_for(self.article_titles@.len() as nat),
            forall|x: usize|
                x < self.article_titles@.len() ==> (bit_of(result@, x as nat)
                    <==> #[trigger] eval_node(
                    self.database@,
                    self.article_titles@.len() as nat,
                    ast_view(node),
                ).contains(x)),
        decreases node,
    {
        let ghost n = self.article_titles@.len() as nat;
        match node {
            AstNode::Invert(child) => {
                let c = self.evaluate_syntax_tree_convert_to_bitvecs(*child);
                let result = not_blocks(&c);
                proof {
                    assert forall|x: usize| x < n implies (bit_of(result@, x as nat)
                        <==> #[trigger] eval_node(
                        self.database@,
                        n,
                        ast_view(node),
                    ).contains(x)) by {
                        lemma_id_block(x as nat, n);
                        assert(bit_of(c@, x as nat) <==> eval_node(
                            self.database@,
                            n,
                            ast_view(*child),
                        ).contains(x));
                    }
                }
                result
            },
            AstNode::Binary(BinaryOp::And, left_child, right_child) => {
                let l = self.evaluate_syntax_tree_convert_to_bitvecs(*left_child);
                let r = self.evaluate_syntax_tree_convert_to_bitvecs(*right_child);
                let result = and_blocks(&l, &r);
                proof {
                    assert forall|x: usize| x < n implies (bit_of(result@, x as nat)
                        <==> #[trigger] eval_node(
                        self.database@,
                        n,
                        ast_view(node),
                    ).contains(x)) by {
                        assert(bit_of(l@, x as nat) <==> eval_node(
                            self.database@,
                            n,
                            ast_view(*left_child),
                        ).contains(x));
                        assert(bit_of(r@, x as nat) <==> eval_node(
                            self.database@,
                            n,
                            ast_view(*right_child),
                        ).contains(x));
                    }
                }
                result
            },
            AstNode::Binary(BinaryOp::Or, left_child, right_child) => {
                let l = self.evaluate_syntax_tree_convert_to_bitvecs(*left_child);
                let r = self.evaluate_syntax_tree_convert_to_bitvecs(*right_child);
                let result = or_blocks(&l, &r);
                proof {
                    assert forall|x: usize| x < n implies (bit_of(result@, x as nat)
                        <==> #[trigger] eval_node(
                        self.database@,
                        n,
                        ast_view(node),
                    ).contains(x)) by {
                        assert(bit_of(l@, x as nat) <==> eval_node(
                            self.database@,
                            n,
                            ast_view(*left_child),
                        ).contains(x));
                        assert(bit_of(r@, x as nat) <==> eval_node(
                            self.database@,
                            n,
                            ast_view(*right_child),
                        ).contains(x));
                    }
                }
                result
            },
            AstNode::Name(word) => {
                let v = self.database.get_or_empty(word.as_str());
                let result = self.to_bitvec(v);
                proof {
                    assert forall|x: usize| x < n implies (bit_of(result@, x as nat)
                        <==> #[trigger] eval_node(
                        self.database@,
                        n,
                        ast_view(node),
                    ).contains(x)) by {}
                }
                result
            },
        }
    }

    /// Answer a boolean query string through the bit-packed conversion:
    /// the titles of exactly the articles the query denotes, in ascending
    /// id order.  A malformed or empty query yields no titles.
    pub fn boolean_search_articles_to_bitvecs(&self, exp: &String) -> (result: ArticleTitles)
        requires
            self.wf(),
            self.article_titles@.len() < usize::MAX - 64,
            exp@.len() < usize::MAX,
        ensures
            result@ == query_titles(self.database@, self.article_titles@, exp@),
    {
        let ghost n = self.article_titles@.len() as nat;
        match Expr::from_string(exp) {
            Ok(Expr(ExprData::HasNodes(node))) => {
                let bits = self.evaluate_syntax_tree_convert_to_bitvecs(node);
                let ids = bitvec_ids(&bits, self.article_titles.len());
                proof {
                    crate::index::lemma_eval_node_bounded(self.database@, n, ast_view(node));
                    assert(ids@.to_set() =~= query_eval(self.database@, n, exp@));
                    lemma_sorted_list_of(ids@);
                }
                self.vec_to_articlelist(ids)
            },
            _ => {
                proof {
                    crate::index::index8_0::lemma_empty_query_titles(
                        self.database@,
                        self.article_titles@,
                        exp@,
                    );
                }
                Vec::new()
            },
        }
    }
}

} // verus!
