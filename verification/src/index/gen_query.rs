//! Rendering a boolean syntax tree back into query text, used when
//! generating workloads.
use vstd::prelude::*;

use crate::parsing::{ast_view, AstNode, BinaryOp, SpecAst};

verus! {

/// The text a syntax tree prints as: keyword operators, prefix negation.
pub open spec fn ast_text(a: SpecAst) -> Seq<char>
    decreases a,
{
    match a {
        SpecAst::Name(w) => w,
        SpecAst::Invert(c) => seq!['!', ' '] + ast_text(*c),
        SpecAst::Binary(BinaryOp::And, l, r) => ast_text(*l) + seq![
            ' ',
            'a',
            'n',
            'd',
            ' ',
        ] + ast_text(*r),
        SpecAst::Binary(BinaryOp::Or, l, r) => ast_text(*l) + seq![' ', 'o', 'r', ' '] + ast_text(
            *r,
        ),
    }
}

/// Print a syntax tree as query text.
pub fn ast_to_string(node: AstNode) -> (result: String)
    ensures
        result@ == ast_text(ast_view(node)),
    decreases node,
{
    proof {
        reveal_strlit("! ");
        reveal_strlit(" and ");
        reveal_strlit(" or ");
        assert("! "@ =~= seq!['!', ' ']);
        assert(" and "@ =~= seq![' ', 'a', 'n', 'd', ' ']);
        assert(" or "@ =~= seq![' ', 'o', 'r', ' ']);
    }
    match node {
        AstNode::Invert(child) => {
            let mut x: String = "! ".to_owned();
            let rest = ast_to_string(*child);
            x.append(rest.as_str());
            x
        },
        AstNode::Binary(BinaryOp::And, left_child, right_child) => {
            let mut x = ast_to_string(*left_child);
            let y = ast_to_string(*right_child);
            x.append(" and ");
            x.append(y.as_str());
            x
        },
        AstNode::Binary(BinaryOp::Or, left_child, right_child) => {
            let mut x = ast_to_string(*left_child);
            let y = ast_to_string(*right_child);
            x.append(" or ");
            x.append(y.as_str());
            x
        },
        AstNode::Name(word) => word,
    }
}

} // verus!
