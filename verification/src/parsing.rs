//! Boolean query expressions.
//!
//! The evaluators consume an abstract syntax tree of terms, negation and
//! binary conjunction/disjunction.  `Expr::from_string` turns a query
//! string into such a tree: literal terms, `!`/`not`, `&`/`and`, `|`/`or`
//! and parenthesized grouping, with negation binding tightest and
//! disjunction loosest; the binary operators associate to the left.  A
//! malformed expression is reported as an error, never as a panic.
use vstd::prelude::*;

verus! {

#[derive(Debug, PartialEq, Eq, Clone, Copy)]
pub enum BinaryOp {
    And,
    Or,
}

#[derive(Debug, PartialEq, Eq)]
pub enum AstNode {
    Name(String),
    Invert(Box<AstNode>),
    Binary(BinaryOp, Box<AstNode>, Box<AstNode>),
}

#[derive(Debug, PartialEq, Eq)]
pub enum ExprData {
    HasNodes(AstNode),
    Empty,
}

#[derive(Debug, PartialEq, Eq)]
pub struct Expr(pub ExprData);

/// A parse error: the expression does not follow the grammar.
#[derive(Debug, PartialEq, Eq)]
pub struct ParseError;

/// The mathematical shape of a syntax tree: terms are character sequences.
pub enum SpecAst {
    Name(Seq<char>),
    Invert(Box<SpecAst>),
    Binary(BinaryOp, Box<SpecAst>, Box<SpecAst>),
}

/// The shape of an executable syntax tree.
pub open spec fn ast_view(node: AstNode) -> SpecAst
    decreases node,
{
    match node {
        AstNode::Name(w) => SpecAst::Name(w@),
        AstNode::Invert(c) => SpecAst::Invert(Box::new(ast_view(*c))),
        AstNode::Binary(op, l, r) => SpecAst::Binary(
            op,
            Box::new(ast_view(*l)),
            Box::new(ast_view(*r)),
        ),
    }
}

/// One token of a query expression.
#[derive(Debug, PartialEq, Eq)]
pub enum Token {
    LPar,
    RPar,
    Not,
    And,
    Or,
    Word(String),
}

/// The mathematical shape of a token.
pub enum SpecToken {
    LPar,
    RPar,
    Not,
    And,
    Or,
    Word(Seq<char>),
}

impl View for Token {
    type V = SpecToken;

    open spec fn view(&self) -> SpecToken {
        match self {
            Token::LPar => SpecToken::LPar,
            Token::RPar => SpecToken::RPar,
            Token::Not => SpecToken::Not,
            Token::And => SpecToken::And,
            Token::Or => SpecToken::Or,
            Token::Word(w) => SpecToken::Word(w@),
        }
    }
}

pub open spec fn tok_views(toks: Seq<Token>) -> Seq<SpecToken> {
    toks.map_values(|t: Token| t@)
}

pub open spec fn is_space_char(c: char) -> bool {
    c == ' ' || c == '\t' || c == '\n' || c == '\r'
}

pub open spec fn is_symbol_char(c: char) -> bool {
    c == '(' || c == ')' || c == '!' || c == '&' || c == '|'
}

pub open spec fn is_word_char(c: char) -> bool {
    !is_space_char(c) && !is_symbol_char(c)
}

/// The length of the word at the head of `s`.
pub open spec fn word_len(s: Seq<char>) -> nat
    decreases s.len(),
{
    if s.len() > 0 && is_word_char(s[0]) {
        1 + word_len(s.drop_first())
    } else {
        0
    }
}

/// A word is a keyword operator or a term.
pub open spec fn keyword_token(w: Seq<char>) -> SpecToken {
    if w == seq!['a', 'n', 'd'] {
        SpecToken::And
    } else if w == seq!['o', 'r'] {
        SpecToken::Or
    } else if w == seq!['n', 'o', 't'] {
        SpecToken::Not
    } else {
        SpecToken::Word(w)
    }
}

/// The token sequence of a query string: whitespace separates, the five
/// symbols stand alone, any other run of characters is a word.
pub open spec fn spec_tokenize(s: Seq<char>) -> Seq<SpecToken>
    decreases s.len(),
{
    if s.len() == 0 {
        Seq::empty()
    } else if is_space_char(s[0]) {
        spec_tokenize(s.drop_first())
    } else if s[0] == '(' {
        seq![SpecToken::LPar] + spec_tokenize(s.drop_first())
    } else if s[0] == ')' {
        seq![SpecToken::RPar] + spec_tokenize(s.drop_first())
    } else if s[0] == '!' {
        seq![SpecToken::Not] + spec_tokenize(s.drop_first())
    } else if s[0] == '&' {
        seq![SpecToken::And] + spec_tokenize(s.drop_first())
    } else if s[0] == '|' {
        seq![SpecToken::Or] + spec_tokenize(s.drop_first())
    } else {
        let wl = if word_len(s) <= s.len() {
            word_len(s) as int
        } else {
            s.len() as int
        };
        seq![keyword_token(s.take(wl))] + spec_tokenize(s.skip(wl))
    }
}

/// A successful parse: the tree and the position after it.
pub type SpecParsed = Option<(SpecAst, int)>;

/// A parse position forced into `[lo, hi]`, so that the grammar functions
/// terminate on every argument.  A real parse never needs the clamp: each
/// step consumes at least one token and stays inside the token list.
pub open spec fn clamp_pos(lo: int, j: int, hi: int) -> int {
    if j < lo {
        lo
    } else if j > hi {
        hi
    } else {
        j
    }
}

/// Parse a disjunction starting at `i`.
pub open spec fn sp_or(toks: Seq<SpecToken>, i: int) -> SpecParsed
    decreases toks.len() - i, 3int, 1int,
{
    if i < 0 || i > toks.len() {
        None
    } else {
        match sp_and(toks, i) {
            None => None,
            Some((a, j)) => sp_or_rest(toks, clamp_pos(i, j, toks.len() as int), a),
        }
    }
}

/// Parse the `or b or c ...` continuation, folding to the left.
pub open spec fn sp_or_rest(toks: Seq<SpecToken>, j: int, acc: SpecAst) -> SpecParsed
    decreases toks.len() - j, 3int, 0int,
{
    if j < 0 || j > toks.len() {
        None
    } else if j < toks.len() && toks[j] is Or {
        match sp_and(toks, j + 1) {
            None => None,
            Some((b, k)) => sp_or_rest(
                toks,
                clamp_pos(j + 1, k, toks.len() as int),
                SpecAst::Binary(BinaryOp::Or, Box::new(acc), Box::new(b)),
            ),
        }
    } else {
        Some((acc, j))
    }
}

/// Parse a conjunction starting at `i`.
pub open spec fn sp_and(toks: Seq<SpecToken>, i: int) -> SpecParsed
    decreases toks.len() - i, 2int, 1int,
{
    if i < 0 || i > toks.len() {
        None
    } else {
        match sp_not(toks, i) {
            None => None,
            Some((a, j)) => sp_and_rest(toks, clamp_pos(i, j, toks.len() as int), a),
        }
    }
}

/// Parse the `and b and c ...` continuation, folding to the left.
pub open spec fn sp_and_rest(toks: Seq<SpecToken>, j: int, acc: SpecAst) -> SpecParsed
    decreases toks.len() - j, 2int, 0int,
{
    if j < 0 || j > toks.len() {
        None
    } else if j < toks.len() && toks[j] is And {
        match sp_not(toks, j + 1) {
            None => None,
            Some((b, k)) => sp_and_rest(
                toks,
                clamp_pos(j + 1, k, toks.len() as int),
                SpecAst::Binary(BinaryOp::And, Box::new(acc), Box::new(b)),
            ),
        }
    } else {
        Some((acc, j))
    }
}

/// Parse a possibly negated atom.
pub open spec fn sp_not(toks: Seq<SpecToken>, i: int) -> SpecParsed
    decreases toks.len() - i, 1int, 0int,
{
    if 0 <= i < toks.len() && toks[i] is Not {
        match sp_not(toks, i + 1) {
            None => None,
            Some((a, j)) => Some((SpecAst::Invert(Box::new(a)), j)),
        }
    } else {
        sp_atom(toks, i)
    }
}

/// Parse a term or a parenthesized group.
pub open spec fn sp_atom(toks: Seq<SpecToken>, i: int) -> SpecParsed
    decreases toks.len() - i, 0int, 0int,
{
    if 0 <= i < toks.len() {
        match toks[i] {
            SpecToken::Word(w) => Some((SpecAst::Name(w), i + 1)),
            SpecToken::LPar => match sp_or(toks, i + 1) {
                None => None,
                Some((a, j)) => if i + 1 <= j < toks.len() && toks[j] is RPar {
                    Some((a, j + 1))
                } else {
                    None
                },
            },
            _ => None,
        }
    } else {
        None
    }
}

/// How a query string parses: no tokens at all, a tree, or a fault.
pub enum SpecParse {
    Empty,
    Tree(SpecAst),
    Malformed,
}

/// The outcome of parsing a whole query string.
pub open spec fn parse_outcome(s: Seq<char>) -> SpecParse {
    let toks = spec_tokenize(s);
    if toks.len() == 0 {
        SpecParse::Empty
    } else {
        match sp_or(toks, 0) {
            Some((a, j)) => if j == toks.len() {
                SpecParse::Tree(a)
            } else {
                SpecParse::Malformed
            },
            None => SpecParse::Malformed,
        }
    }
}

/// The end of the word starting at position `i` of `s`.
fn scan_word(s: &str, i: usize) -> (j: usize)
    requires
        i <= s@.len(),
        s@.len() < usize::MAX,
    ensures
        i <= j <= s@.len(),
        j - i == word_len(s@.skip(i as int)),
    decreases s@.len() - i,
{
    let n = s.unicode_len();
    if i < n && char_is_word(s.get_char(i)) {
        proof {
            assert(s@.skip(i as int)[0] == s@[i as int]);
            assert(s@.skip(i as int).drop_first() =~= s@.skip(i + 1));
        }
        scan_word(s, i + 1)
    } else {
        proof {
            if i < s@.len() {
                assert(s@.skip(i as int)[0] == s@[i as int]);
            } else {
                assert(s@.skip(i as int).len() == 0);
            }
        }
        i
    }
}

/// Decide word membership for one character.
fn char_is_word(c: char) -> (result: bool)
    ensures
        result == is_word_char(c),
{
    !(c == ' ' || c == '\t' || c == '\n' || c == '\r' || c == '(' || c == ')' || c == '!' || c
        == '&' || c == '|')
}

/// Classify a scanned word: keyword operator or term.
fn word_to_token(w: String) -> (result: Token)
    ensures
        result@ == keyword_token(w@),
{
    proof {
        reveal_strlit("and");
        reveal_strlit("or");
        reveal_strlit("not");
        assert("and"@ =~= seq!['a', 'n', 'd']);
        assert("or"@ =~= seq!['o', 'r']);
        assert("not"@ =~= seq!['n', 'o', 't']);
    }
    let kw_and: String = "and".to_owned();
    let kw_or: String = "or".to_owned();
    let kw_not: String = "not".to_owned();
    if w == kw_and {
        Token::And
    } else if w == kw_or {
        Token::Or
    } else if w == kw_not {
        Token::Not
    } else {
        Token::Word(w)
    }
}

/// Cut a query string into tokens.
pub fn tokenize(s: &str) -> (toks: Vec<Token>)
    requires
        s@.len() < usize::MAX,
    ensures
        tok_views(toks@) == spec_tokenize(s@),
{
    let mut toks: Vec<Token> = Vec::new();
    let n = s.unicode_len();
    proof {
        assert(s@.skip(0) =~= s@);
        assert(tok_views(Seq::<Token>::empty()) + spec_tokenize(s@) =~= spec_tokenize(s@));
    }
    let mut i: usize = 0;
    while i < n
        invariant
            i <= n,
            n == s@.len(),
            s@.len() < usize::MAX,
            tok_views(toks@) + spec_tokenize(s@.skip(i as int)) == spec_tokenize(s@),
        decreases n - i,
    {
        let ghost pre = toks@;
        let c = s.get_char(i);
        proof {
            assert(s@.skip(i as int)[0] == s@[i as int]);
            assert(s@.skip(i as int).drop_first() =~= s@.skip(i + 1));
        }
        if c == ' ' || c == '\t' || c == '\n' || c == '\r' {
            i += 1;
        } else if c == '(' {
            toks.push(Token::LPar);
            proof {
                lemma_tok_views_push(pre, Token::LPar);
            }
            i += 1;
        } else if c == ')' {
            toks.push(Token::RPar);
            proof {
                lemma_tok_views_push(pre, Token::RPar);
            }
            i += 1;
        } else if c == '!' {
            toks.push(Token::Not);
            proof {
                lemma_tok_views_push(pre, Token::Not);
            }
            i += 1;
        } else if c == '&' {
            toks.push(Token::And);
            proof {
                lemma_tok_views_push(pre, Token::And);
            }
            i += 1;
        } else if c == '|' {
            toks.push(Token::Or);
            proof {
                lemma_tok_views_push(pre, Token::Or);
            }
            i += 1;
        } else {
            let j = scan_word(s, i);
            let word = s.substring_char(i, j).to_owned();
            proof {
                assert(word@ =~= s@.skip(i as int).take(word_len(s@.skip(i as int)) as int));
                assert(s@.skip(i as int).skip(word_len(s@.skip(i as int)) as int) =~= s@.skip(
                    j as int,
                ));
            }
            let tok = word_to_token(word);
            toks.push(tok);
            proof {
                lemma_tok_views_push(pre, tok);
            }
            i = j;
        }
    }
    proof {
        assert(s@.skip(n as int).len() == 0);
        assert(tok_views(toks@) =~= tok_views(toks@) + spec_tokenize(s@.skip(n as int)));
    }
    toks
}

proof fn lemma_tok_views_push(toks: Seq<Token>, t: Token)
    ensures
        tok_views(toks.push(t)) == tok_views(toks) + seq![t@],
{
    assert(tok_views(toks.push(t)) =~= tok_views(toks) + seq![t@]);
}

fn p_or(toks: &Vec<Token>, i: usize) -> (r: Option<(AstNode, usize)>)
    requires
        i <= toks@.len(),
    ensures
        match r {
            Some((node, j)) => i < j <= toks@.len() && sp_or(tok_views(toks@), i as int)
                == Some((ast_view(node), j as int)),
            None => sp_or(tok_views(toks@), i as int) is None,
        },
    decreases toks@.len() - i, 3int, 1int,
{
    match p_and(toks, i) {
        None => None,
        Some((a, j)) => p_or_rest(toks, j, a),
    }
}

fn p_or_rest(toks: &Vec<Token>, j: usize, acc: AstNode) -> (r: Option<(AstNode, usize)>)
    requires
        0 < j <= toks@.len(),
    ensures
        match r {
            Some((node, k)) => j <= k <= toks@.len() && sp_or_rest(
                tok_views(toks@),
                j as int,
                ast_view(acc),
            ) == Some((ast_view(node), k as int)),
            None => sp_or_rest(tok_views(toks@), j as int, ast_view(acc)) is None,
        },
    decreases toks@.len() - j, 3int, 0int,
{
    proof {
        if j < toks@.len() {
            assert(tok_views(toks@)[j as int] == toks@[j as int]@);
        }
    }
    if j < toks.len() && matches!(toks[j], Token::Or) {
        match p_and(toks, j + 1) {
            None => None,
            Some((b, k)) => {
                let node = AstNode::Binary(BinaryOp::Or, Box::new(acc), Box::new(b));
                p_or_rest(toks, k, node)
            },
        }
    } else {
        Some((acc, j))
    }
}

fn p_and(toks: &Vec<Token>, i: usize) -> (r: Option<(AstNode, usize)>)
    requires
        i <= toks@.len(),
    ensures
        match r {
            Some((node, j)) => i < j <= toks@.len() && sp_and(tok_views(toks@), i as int)
                == Some((ast_view(node), j as int)),
            None => sp_and(tok_views(toks@), i as int) is None,
        },
    decreases toks@.len() - i, 2int, 1int,
{
    match p_not(toks, i) {
        None => None,
        Some((a, j)) => p_and_rest(toks, j, a),
    }
}

fn p_and_rest(toks: &Vec<Token>, j: usize, acc: AstNode) -> (r: Option<(AstNode, usize)>)
    requires
        0 < j <= toks@.len(),
    ensures
        match r {
            Some((node, k)) => j <= k <= toks@.len() && sp_and_rest(
                tok_views(toks@),
                j as int,
                ast_view(acc),
            ) == Some((ast_view(node), k as int)),
            None => sp_and_rest(tok_views(toks@), j as int, ast_view(acc)) is None,
        },
    decreases toks@.len() - j, 2int, 0int,
{
    proof {
        if j < toks@.len() {
            assert(tok_views(toks@)[j as int] == toks@[j as int]@);
        }
    }
    if j < toks.len() && matches!(toks[j], Token::And) {
        match p_not(toks, j + 1) {
            None => None,
            Some((b, k)) => {
                let node = AstNode::Binary(BinaryOp::And, Box::new(acc), Box::new(b));
                p_and_rest(toks, k, node)
            },
        }
    } else {
        Some((acc, j))
    }
}

fn p_not(toks: &Vec<Token>, i: usize) -> (r: Option<(AstNode, usize)>)
    requires
        i <= toks@.len(),
    ensures
        match r {
            Some((node, j)) => i < j <= toks@.len() && sp_not(tok_views(toks@), i as int)
                == Some((ast_view(node), j as int)),
            None => sp_not(tok_views(toks@), i as int) is None,
        },
    decreases toks@.len() - i, 1int, 0int,
{
    proof {
        if i < toks@.len() {
            assert(tok_views(toks@)[i as int] == toks@[i as int]@);
        }
    }
    if i < toks.len() && matches!(toks[i], Token::Not) {
        match p_not(toks, i + 1) {
            None => None,
            Some((a, j)) => Some((AstNode::Invert(Box::new(a)), j)),
        }
    } else {
        p_atom(toks, i)
    }
}

fn p_atom(toks: &Vec<Token>, i: usize) -> (r: Option<(AstNode, usize)>)
    requires
        i <= toks@.len(),
    ensures
        match r {
            Some((node, j)) => i < j <= toks@.len() && sp_atom(tok_views(toks@), i as int)
                == Some((ast_view(node), j as int)),
            None => sp_atom(tok_views(toks@), i as int) is None,
        },
    decreases toks@.len() - i, 0int, 0int,
{
    if i >= toks.len() {
        return None;
    }
    proof {
        assert(tok_views(toks@)[i as int] == toks@[i as int]@);
    }
    match &toks[i] {
        Token::Word(w) => Some((AstNode::Name(w.clone()), i + 1)),
        Token::LPar => {
            match p_or(toks, i + 1) {
                None => None,
                Some((a, j)) => {
                    proof {
                        if j < toks@.len() {
                            assert(tok_views(toks@)[j as int] == toks@[j as int]@);
                        }
                    }
                    if j < toks.len() && matches!(toks[j], Token::RPar) {
                        Some((a, j + 1))
                    } else {
                        None
                    }
                },
            }
        },
        _ => None,
    }
}

impl Expr {
    /// Parse a query string.  An all-whitespace string is the empty
    /// expression; a string that does not follow the grammar is an error.
    pub fn from_string(exp: &String) -> (result: Result<Expr, ParseError>)
        requires
            exp@.len() < usize::MAX,
        ensures
            match result {
                Ok(Expr(ExprData::Empty)) => parse_outcome(exp@) is Empty,
                Ok(Expr(ExprData::HasNodes(node))) => parse_outcome(exp@) == SpecParse::Tree(
                    ast_view(node),
                ),
                Err(_) => parse_outcome(exp@) is Malformed,
            },
    {
        let toks = tokenize(exp.as_str());
        if toks.len() == 0 {
            return Ok(Expr(ExprData::Empty));
        }
        match p_or(&toks, 0) {
            Some((node, j)) => {
                if j == toks.len() {
                    Ok(Expr(ExprData::HasNodes(node)))
                } else {
                    Err(ParseError)
                }
            },
            None => Err(ParseError),
        }
    }
}

} // verus!
