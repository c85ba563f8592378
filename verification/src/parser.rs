//! From tokens to the syntax tree, by recursive descent: one function for
//! each level of the grammar.

use vstd::prelude::*;
use crate::bintree::BinTree;
use crate::lexer::{
    eof_last, head_of, unexpected_token_message, Lexer, LexerView, TokenKindView, TokenView,
};
use crate::ruccerr::{RuccErr, RuccErrView};

verus! {

/// What stands in a leaf of the syntax tree.
#[derive(Debug, Clone, Copy, PartialEq, Eq)]
pub enum NodeOperand {
    /// A number.
    Integer(i32),
}

/// The operators of two operands. There is no "greater": `a > b` is kept
/// as `b < a`.
#[derive(Debug, Clone, Copy, PartialEq, Eq)]
pub enum NodeBinOperator {
    Plus,
    Minus,
    Mul,
    Div,
    Eq,
    Neq,
    LessThan,
    LessEq,
}

/// What stands in a node of the syntax tree.
#[derive(Debug, Clone, Copy, PartialEq, Eq)]
pub enum NodeKind {
    Operand(NodeOperand),
    BinOperator(NodeBinOperator),
}

/// The tree of the number `v`: one leaf.
pub open spec fn leaf(v: i32) -> BinTree<NodeKind> {
    BinTree::Node {
        val: NodeKind::Operand(NodeOperand::Integer(v)),
        left: Box::new(BinTree::Nil),
        right: Box::new(BinTree::Nil),
    }
}

/// The tree of `l op r`.
pub open spec fn node(op: NodeBinOperator, l: BinTree<NodeKind>, r: BinTree<NodeKind>) -> BinTree<
    NodeKind,
> {
    BinTree::Node { val: NodeKind::BinOperator(op), left: Box::new(l), right: Box::new(r) }
}

/// What parsing gave, and how many tokens it read on the way.
pub struct Parsed {
    pub tree: Result<BinTree<NodeKind>, RuccErrView>,
    pub used: nat,
}

impl Parsed {
    /// The same outcome after `n` more tokens were read before it.
    pub open spec fn behind(self, n: nat) -> Parsed {
        Parsed { tree: self.tree, used: n + self.used }
    }
}

/// The error `e`, met after `used` tokens.
pub open spec fn failed(e: RuccErrView, used: nat) -> Parsed {
    Parsed { tree: Err(e), used }
}

/// The tree `t`, made of `used` tokens.
pub open spec fn done(t: BinTree<NodeKind>, used: nat) -> Parsed {
    Parsed { tree: Ok(t), used }
}

/// The error for a token that the grammar has no use for.
pub open spec fn unexpected(tok: TokenView) -> RuccErrView {
    RuccErrView::TokenErr(unexpected_token_message(), tok)
}

/// How many tokens stand at or behind index `pos`.
pub open spec fn left(toks: Seq<TokenView>, pos: nat) -> nat {
    if pos <= toks.len() {
        (toks.len() - pos) as nat
    } else {
        0
    }
}

/// The operator that the symbol `sym` stands for at a level of the
/// grammar, and whether its operands change places.
///
/// Level 1 holds `*` and `/`, level 2 `+` and `-`, level 3 the four
/// comparisons of order, level 4 `==` and `!=`. The higher the level, the
/// looser the operator binds.
pub open spec fn binary_operator(level: nat, sym: Seq<char>) -> Option<(NodeBinOperator, bool)> {
    if level == 4 {
        if sym == "=="@ {
            Some((NodeBinOperator::Eq, false))
        } else if sym == "!="@ {
            Some((NodeBinOperator::Neq, false))
        } else {
            None
        }
    } else if level == 3 {
        if sym == "<"@ {
            Some((NodeBinOperator::LessThan, false))
        } else if sym == "<="@ {
            Some((NodeBinOperator::LessEq, false))
        } else if sym == ">"@ {
            Some((NodeBinOperator::LessThan, true))
        } else if sym == ">="@ {
            Some((NodeBinOperator::LessEq, true))
        } else {
            None
        }
    } else if level == 2 {
        if sym == "+"@ {
            Some((NodeBinOperator::Plus, false))
        } else if sym == "-"@ {
            Some((NodeBinOperator::Minus, false))
        } else {
            None
        }
    } else if level == 1 {
        if sym == "*"@ {
            Some((NodeBinOperator::Mul, false))
        } else if sym == "/"@ {
            Some((NodeBinOperator::Div, false))
        } else {
            None
        }
    } else {
        None
    }
}

/// `primary := "(" expr ")" | number`, read at index `pos`.
pub open spec fn parse_primary(toks: Seq<TokenView>, pos: nat) -> Parsed
    decreases left(toks, pos), 0nat, 0nat,
{
    match head_of(toks, pos) {
        Err(e) => failed(e, 0),
        Ok(tok) => if tok.kind == TokenKindView::Reserved("("@) {
            let inner = parse_level(toks, pos + 1, 4);
            match inner.tree {
                Err(e) => failed(e, 1 + inner.used),
                Ok(t) => match head_of(toks, pos + 1 + inner.used) {
                    Err(e) => failed(e, 1 + inner.used),
                    Ok(close) => if close.kind == TokenKindView::Reserved(")"@) {
                        done(t, 2 + inner.used)
                    } else {
                        failed(unexpected(close), 1 + inner.used)
                    },
                },
            }
        } else {
            match tok.kind {
                TokenKindView::Integer(v) => done(leaf(v), 1),
                _ => failed(unexpected(tok), 0),
            }
        },
    }
}

/// `unary := "+" unary | "-" unary | primary`, read at index `pos`.
/// `+x` is `x`, and `-x` is `0 - x`.
pub open spec fn parse_unary(toks: Seq<TokenView>, pos: nat) -> Parsed
    decreases left(toks, pos), 0nat, 1nat,
{
    match head_of(toks, pos) {
        Err(e) => failed(e, 0),
        Ok(tok) => if tok.kind == TokenKindView::Reserved("+"@) {
            parse_unary(toks, pos + 1).behind(1)
        } else if tok.kind == TokenKindView::Reserved("-"@) {
            let operand = parse_unary(toks, pos + 1);
            match operand.tree {
                Err(e) => failed(e, 1 + operand.used),
                Ok(t) => done(node(NodeBinOperator::Minus, leaf(0), t), 1 + operand.used),
            }
        } else {
            parse_primary(toks, pos)
        },
    }
}

/// One level of binary operators, read at index `pos`: an operand of the
/// level below, then any number of operators of this level, each with
/// another such operand. Level 0 is `unary`, level 4 is a whole expression.
pub open spec fn parse_level(toks: Seq<TokenView>, pos: nat, level: nat) -> Parsed
    decreases left(toks, pos), level, 2nat,
{
    if level == 0 {
        parse_unary(toks, pos)
    } else {
        let first = parse_level(toks, pos, (level - 1) as nat);
        match first.tree {
            Err(e) => first,
            Ok(l) => parse_more(toks, pos + first.used, level, l).behind(first.used),
        }
    }
}

/// The operators of a level and their right operands, read at index
/// `pos`, with `acc` as the tree of what stands before them. Each
/// operator takes all that was read so far as its left operand.
pub open spec fn parse_more(
    toks: Seq<TokenView>,
    pos: nat,
    level: nat,
    acc: BinTree<NodeKind>,
) -> Parsed
    decreases left(toks, pos), level, 1nat,
{
    match head_of(toks, pos) {
        Err(e) => failed(e, 0),
        Ok(tok) => match tok.kind {
            TokenKindView::Reserved(sym) => match binary_operator(level, sym) {
                Some((op, swap)) => {
                    let right = parse_level(toks, pos + 1, (level - 1) as nat);
                    match right.tree {
                        Err(e) => failed(e, 1 + right.used),
                        Ok(r) => parse_more(
                            toks,
                            pos + 1 + right.used,
                            level,
                            if swap {
                                node(op, r, acc)
                            } else {
                                node(op, acc, r)
                            },
                        ).behind(1 + right.used),
                    }
                },
                None => done(acc, 0),
            },
            _ => done(acc, 0),
        },
    }
}

/// The tree of the expression that begins at index `pos`.
pub open spec fn parse_expr(toks: Seq<TokenView>, pos: nat) -> Parsed {
    parse_level(toks, pos, 4)
}

/// Whether a call that left the lexer as `after` and returned `r` did
/// what `p` says: the same tokens, `p.used` more of them read, and the
/// tree or the error of `p`.
pub open spec fn parsed_as(
    r: Result<BinTree<NodeKind>, RuccErr>,
    before: LexerView,
    after: LexerView,
    p: Parsed,
) -> bool {
    &&& after.tokens == before.tokens
    &&& after.position == before.position + p.used
    &&& match p.tree {
        Ok(t) => r is Ok && r->Ok_0 == t,
        Err(e) => r is Err && r->Err_0@ == e,
    }
}

/// Whether `t` is the tree of an expression: it is not empty, each
/// number is a leaf, and each operator has two operands that are trees of
/// expressions themselves.
pub open spec fn well_formed(t: BinTree<NodeKind>) -> bool
    decreases t,
{
    match t {
        BinTree::Nil => false,
        BinTree::Node { val, left, right } => match val {
            NodeKind::Operand(_) => *left is Nil && *right is Nil,
            NodeKind::BinOperator(_) => well_formed(*left) && well_formed(*right),
        },
    }
}

/// Whether the error is the one for reading behind the last token.
pub open spec fn is_inside_error(r: Result<BinTree<NodeKind>, RuccErrView>) -> bool {
    r is Err && r->Err_0 is InsideErr
}

/// What holds of everything that the grammar reads at index `pos`: the
/// tokens that it read are there; a tree is well formed; and where the
/// last token is `Eof`, that token is not read, so that no token is asked
/// for behind the last.
pub open spec fn sound(toks: Seq<TokenView>, pos: nat, p: Parsed) -> bool {
    &&& p.tree is Ok ==> well_formed(p.tree->Ok_0)
    &&& pos <= toks.len() ==> pos + p.used <= toks.len()
    &&& eof_last(toks) && pos < toks.len() ==> pos + p.used < toks.len() && !is_inside_error(
        p.tree,
    )
}

/// `parse_primary` is sound, and a tree is made of one token at least.
pub proof fn lemma_primary_sound(toks: Seq<TokenView>, pos: nat)
    ensures
        sound(toks, pos, parse_primary(toks, pos)),
        parse_primary(toks, pos).tree is Ok ==> parse_primary(toks, pos).used >= 1,
    decreases left(toks, pos), 0nat, 0nat,
{
    match head_of(toks, pos) {
        Err(e) => {},
        Ok(tok) => {
            if tok.kind == TokenKindView::Reserved("("@) {
                lemma_level_sound(toks, pos + 1, 4);
            }
        },
    }
}

/// `parse_unary` is sound, and a tree is made of one token at least.
pub proof fn lemma_unary_sound(toks: Seq<TokenView>, pos: nat)
    ensures
        sound(toks, pos, parse_unary(toks, pos)),
        parse_unary(toks, pos).tree is Ok ==> parse_unary(toks, pos).used >= 1,
    decreases left(toks, pos), 0nat, 1nat,
{
    match head_of(toks, pos) {
        Err(e) => {},
        Ok(tok) => {
            if tok.kind == TokenKindView::Reserved("+"@) {
                lemma_unary_sound(toks, pos + 1);
            } else if tok.kind == TokenKindView::Reserved("-"@) {
                lemma_unary_sound(toks, pos + 1);
                assert(well_formed(leaf(0)));
            } else {
                lemma_primary_sound(toks, pos);
            }
        },
    }
}

/// `parse_level` is sound at every level, and a tree is made of one token
/// at least.
pub proof fn lemma_level_sound(toks: Seq<TokenView>, pos: nat, level: nat)
    ensures
        sound(toks, pos, parse_level(toks, pos, level)),
        parse_level(toks, pos, level).tree is Ok ==> parse_level(toks, pos, level).used >= 1,
    decreases left(toks, pos), level, 2nat,
{
    if level == 0 {
        lemma_unary_sound(toks, pos);
    } else {
        lemma_level_sound(toks, pos, (level - 1) as nat);
        let first = parse_level(toks, pos, (level - 1) as nat);
        match first.tree {
            Err(e) => {},
            Ok(l) => {
                lemma_more_sound(toks, pos + first.used, level, l);
            },
        }
    }
}

/// `parse_more` is sound where the tree that it begins with is well
/// formed.
pub proof fn lemma_more_sound(toks: Seq<TokenView>, pos: nat, level: nat, acc: BinTree<NodeKind>)
    requires
        well_formed(acc),
    ensures
        sound(toks, pos, parse_more(toks, pos, level, acc)),
    decreases left(toks, pos), level, 1nat,
{
    match head_of(toks, pos) {
        Err(e) => {},
        Ok(tok) => match tok.kind {
            TokenKindView::Reserved(sym) => match binary_operator(level, sym) {
                Some((op, swap)) => {
                    lemma_level_sound(toks, pos + 1, (level - 1) as nat);
                    let right = parse_level(toks, pos + 1, (level - 1) as nat);
                    match right.tree {
                        Err(e) => {},
                        Ok(r) => {
                            lemma_more_sound(
                                toks,
                                pos + 1 + right.used,
                                level,
                                if swap {
                                    node(op, r, acc)
                                } else {
                                    node(op, acc, r)
                                },
                            );
                        },
                    }
                },
                None => {},
            },
            _ => {},
        },
    }
}

/// Every tree that the grammar gives is well formed: it has a root, each
/// of its leaves is a number, and each operator in it has two operands.
/// And where the last token is `Eof`, as after lexing, parsing stops
/// before it and never fails for want of a token.
pub proof fn lemma_parse_sound(toks: Seq<TokenView>, pos: nat)
    ensures
        parse_expr(toks, pos).tree is Ok ==> well_formed(parse_expr(toks, pos).tree->Ok_0)
            && parse_expr(toks, pos).used >= 1,
        eof_last(toks) && pos < toks.len() ==> pos + parse_expr(toks, pos).used < toks.len()
            && !is_inside_error(parse_expr(toks, pos).tree),
{
    lemma_level_sound(toks, pos, 4);
}

/// Whether the tokens are a number, a symbol, a number and the end.
pub open spec fn is_comparison(toks: Seq<TokenView>, a: i32, sym: Seq<char>, b: i32) -> bool {
    &&& toks.len() == 4
    &&& toks[0].kind == TokenKindView::Integer(a)
    &&& toks[1].kind == TokenKindView::Reserved(sym)
    &&& toks[2].kind == TokenKindView::Integer(b)
    &&& toks[3].kind == TokenKindView::Eof
}

/// `a > b` has the tree of `b < a`, and `a >= b` that of `b <= a`,
/// whatever the numbers `a` and `b` are.
pub proof fn lemma_greater_is_less_swapped(
    greater: Seq<TokenView>,
    less: Seq<TokenView>,
    greater_eq: Seq<TokenView>,
    less_eq: Seq<TokenView>,
    a: i32,
    b: i32,
)
    requires
        is_comparison(greater, a, ">"@, b),
        is_comparison(less, b, "<"@, a),
        is_comparison(greater_eq, a, ">="@, b),
        is_comparison(less_eq, b, "<="@, a),
    ensures
        parse_expr(greater, 0) == done(node(NodeBinOperator::LessThan, leaf(b), leaf(a)), 3),
        parse_expr(less, 0) == parse_expr(greater, 0),
        parse_expr(greater_eq, 0) == done(node(NodeBinOperator::LessEq, leaf(b), leaf(a)), 3),
        parse_expr(less_eq, 0) == parse_expr(greater_eq, 0),
{
    reveal_strlit("(");
    reveal_strlit("+");
    reveal_strlit("-");
    reveal_strlit("*");
    reveal_strlit("/");
    reveal_strlit("<");
    reveal_strlit("<=");
    reveal_strlit(">");
    reveal_strlit(">=");
    reveal_strlit("==");
    reveal_strlit("!=");
    assert("<"@.len() == 1 && "<"@[0] == '<');
    assert(">"@.len() == 1 && ">"@[0] == '>');
    assert("<="@.len() == 2 && "<="@[0] == '<');
    assert(">="@.len() == 2 && ">="@[0] == '>');
    assert("+"@[0] == '+' && "-"@[0] == '-' && "*"@[0] == '*' && "/"@[0] == '/');
    assert("=="@.len() == 2 && "!="@.len() == 2);
    lemma_comparison_tree(greater, a, ">"@, b);
    lemma_comparison_tree(less, b, "<"@, a);
    lemma_comparison_tree(greater_eq, a, ">="@, b);
    lemma_comparison_tree(less_eq, b, "<="@, a);
}

/// The tree of a number, a symbol of comparison and a number.
proof fn lemma_comparison_tree(toks: Seq<TokenView>, a: i32, sym: Seq<char>, b: i32)
    requires
        is_comparison(toks, a, sym, b),
        binary_operator(1, sym) is None,
        binary_operator(2, sym) is None,
        binary_operator(3, sym) is Some,
    ensures
        parse_expr(toks, 0) == done(
            if binary_operator(3, sym)->Some_0.1 {
                node(binary_operator(3, sym)->Some_0.0, leaf(b), leaf(a))
            } else {
                node(binary_operator(3, sym)->Some_0.0, leaf(a), leaf(b))
            },
            3,
        ),
{
    reveal_with_fuel(parse_level, 6);
    reveal_with_fuel(parse_more, 3);
    assert(parse_level(toks, 0, 0) == done(leaf(a), 1));
    assert(parse_level(toks, 0, 1) == done(leaf(a), 1));
    assert(parse_level(toks, 0, 2) == done(leaf(a), 1));
    assert(parse_level(toks, 2, 0) == done(leaf(b), 1));
    assert(parse_level(toks, 2, 1) == done(leaf(b), 1));
    assert(parse_level(toks, 2, 2) == done(leaf(b), 1));
    assert(parse_level(toks, 0, 3).used == 3);
}

/// Whether the tokens are three numbers with a symbol between each two,
/// and the end.
pub open spec fn is_chain(
    toks: Seq<TokenView>,
    a: i32,
    first: Seq<char>,
    b: i32,
    second: Seq<char>,
    c: i32,
) -> bool {
    &&& toks.len() == 6
    &&& toks[0].kind == TokenKindView::Integer(a)
    &&& toks[1].kind == TokenKindView::Reserved(first)
    &&& toks[2].kind == TokenKindView::Integer(b)
    &&& toks[3].kind == TokenKindView::Reserved(second)
    &&& toks[4].kind == TokenKindView::Integer(c)
    &&& toks[5].kind == TokenKindView::Eof
}

/// A product binds tighter than a sum, and a difference takes what
/// stands to its left as a whole: `a + b * c` is read as `a + (b * c)`,
/// and `a - b - c` as `(a - b) - c`, whatever the three numbers are.
pub proof fn lemma_precedence_and_grouping(
    sum: Seq<TokenView>,
    difference: Seq<TokenView>,
    a: i32,
    b: i32,
    c: i32,
)
    requires
        is_chain(sum, a, "+"@, b, "*"@, c),
        is_chain(difference, a, "-"@, b, "-"@, c),
    ensures
        parse_expr(sum, 0) == done(
            node(NodeBinOperator::Plus, leaf(a), node(NodeBinOperator::Mul, leaf(b), leaf(c))),
            5,
        ),
        parse_expr(difference, 0) == done(
            node(NodeBinOperator::Minus, node(NodeBinOperator::Minus, leaf(a), leaf(b)), leaf(c)),
            5,
        ),
{
    reveal_strlit("(");
    reveal_strlit("+");
    reveal_strlit("-");
    reveal_strlit("*");
    reveal_strlit("/");
    assert("+"@.len() == 1 && "+"@[0] == '+');
    assert("-"@.len() == 1 && "-"@[0] == '-');
    assert("*"@.len() == 1 && "*"@[0] == '*');
    assert("/"@.len() == 1 && "/"@[0] == '/');
    assert("("@.len() == 1 && "("@[0] == '(');
    reveal_with_fuel(parse_level, 6);
    reveal_with_fuel(parse_more, 4);
    assert(parse_level(sum, 0, 1) == done(leaf(a), 1));
    assert(parse_level(sum, 2, 0) == done(leaf(b), 1));
    assert(parse_level(sum, 4, 0) == done(leaf(c), 1));
    assert(parse_level(sum, 2, 1) == done(node(NodeBinOperator::Mul, leaf(b), leaf(c)), 3));
    assert(parse_level(sum, 0, 2).used == 5);
    assert(parse_level(difference, 0, 1) == done(leaf(a), 1));
    assert(parse_level(difference, 2, 1) == done(leaf(b), 1));
    assert(parse_level(difference, 4, 1) == done(leaf(c), 1));
    assert(parse_level(difference, 0, 2).used == 5);
}

/// A sum that ends behind its `+` is refused: the end stands where a
/// number was to come, and the `+` is not taken for a sign.
pub proof fn lemma_dangling_operator(toks: Seq<TokenView>, a: i32)
    requires
        toks.len() == 3,
        toks[0].kind == TokenKindView::Integer(a),
        toks[1].kind == TokenKindView::Reserved("+"@),
        toks[2].kind == TokenKindView::Eof,
    ensures
        parse_expr(toks, 0) == failed(unexpected(toks[2]), 2),
{
    reveal_strlit("(");
    reveal_strlit("+");
    reveal_strlit("-");
    reveal_strlit("*");
    reveal_strlit("/");
    assert("+"@.len() == 1 && "+"@[0] == '+');
    assert("-"@.len() == 1 && "-"@[0] == '-');
    assert("*"@.len() == 1 && "*"@[0] == '*');
    assert("/"@.len() == 1 && "/"@[0] == '/');
    assert("("@.len() == 1 && "("@[0] == '(');
    reveal_with_fuel(parse_level, 6);
    reveal_with_fuel(parse_more, 3);
    assert(parse_level(toks, 0, 1) == done(leaf(a), 1));
    assert(parse_level(toks, 2, 1) == failed(unexpected(toks[2]), 0));
    assert(parse_level(toks, 0, 2) == failed(unexpected(toks[2]), 2));
}

/// The tree of the number `val`: one leaf.
fn new_node_num(val: i32) -> (t: BinTree<NodeKind>)
    ensures
        t == leaf(val),
{
    BinTree::<NodeKind>::new_leaf(NodeKind::Operand(NodeOperand::Integer(val)))
}

/// `primary := "(" expr ")" | number`
fn primary(lex: &mut Lexer) -> (r: Result<BinTree<NodeKind>, RuccErr>)
    ensures
        parsed_as(r, old(lex)@, final(lex)@, parse_primary(old(lex)@.tokens, old(lex)@.position)),
    decreases left(old(lex)@.tokens, old(lex)@.position), 0nat, 0nat,
{
    match lex.consume_reserved("(") {
        Err(e) => Err(e),
        Ok(true) => {
            let l = match expr(lex) {
                Ok(l) => l,
                Err(e) => {
                    return Err(e);
                },
            };
            match lex.expect_reserved(")") {
                Ok(()) => Ok(l),
                Err(e) => Err(e),
            }
        },
        Ok(false) => match lex.expect_number() {
            Ok(v) => Ok(new_node_num(v)),
            Err(e) => Err(e),
        },
    }
}

/// `unary := "+" unary | "-" unary | primary`
fn unary(lex: &mut Lexer) -> (r: Result<BinTree<NodeKind>, RuccErr>)
    ensures
        parsed_as(r, old(lex)@, final(lex)@, parse_unary(old(lex)@.tokens, old(lex)@.position)),
    decreases left(old(lex)@.tokens, old(lex)@.position), 0nat, 1nat,
{
    match lex.consume_reserved("+") {
        Err(e) => Err(e),
        Ok(true) => unary(lex),
        Ok(false) => match lex.consume_reserved("-") {
            Err(e) => Err(e),
            Ok(true) => match unary(lex) {
                Ok(t) => Ok(
                    BinTree::<NodeKind>::new_node(
                        NodeKind::BinOperator(NodeBinOperator::Minus),
                        new_node_num(0),
                        t,
                    ),
                ),
                Err(e) => Err(e),
            },
            Ok(false) => primary(lex),
        },
    }
}

/// `mul := unary (("*" | "/") unary)*`
fn mul(lex: &mut Lexer) -> (r: Result<BinTree<NodeKind>, RuccErr>)
    ensures
        parsed_as(
            r,
            old(lex)@,
            final(lex)@,
            parse_level(old(lex)@.tokens, old(lex)@.position, 1),
        ),
    decreases left(old(lex)@.tokens, old(lex)@.position), 1nat, 2nat,
{
    let ghost toks = lex@.tokens;
    let ghost start = lex@.position;
    assert(parse_level(lex@.tokens, lex@.position, 0) == parse_unary(
        lex@.tokens,
        lex@.position,
    ));
    let mut l = match unary(lex) {
        Ok(l) => l,
        Err(e) => {
            return Err(e);
        },
    };
    loop
        invariant
            lex@.tokens == toks,
            toks == old(lex)@.tokens,
            start == old(lex)@.position,
            lex@.position >= start,
            parse_level(toks, start, 1) == parse_more(toks, lex@.position, 1, l).behind(
                (lex@.position - start) as nat,
            ),
        decreases left(toks, lex@.position),
    {
        match lex.consume_reserved("*") {
            Err(e) => {
                return Err(e);
            },
            Ok(true) => {
                assert(parse_level(lex@.tokens, lex@.position, 0) == parse_unary(
                    lex@.tokens,
                    lex@.position,
                ));
                let r = match unary(lex) {
                    Ok(r) => r,
                    Err(e) => {
                        return Err(e);
                    },
                };
                l = BinTree::<NodeKind>::new_node(
                    NodeKind::BinOperator(NodeBinOperator::Mul),
                    l,
                    r,
                );
            },
            Ok(false) => {
                match lex.consume_reserved("/") {
                    Err(e) => {
                        return Err(e);
                    },
                    Ok(true) => {
                        assert(parse_level(lex@.tokens, lex@.position, 0) == parse_unary(
                            lex@.tokens,
                            lex@.position,
                        ));
                        let r = match unary(lex) {
                            Ok(r) => r,
                            Err(e) => {
                                return Err(e);
                            },
                        };
                        l = BinTree::<NodeKind>::new_node(
                            NodeKind::BinOperator(NodeBinOperator::Div),
                            l,
                            r,
                        );
                    },
                    Ok(false) => {
                        return Ok(l);
                    },
                }
            },
        }
    }
}

/// `add := mul (("+" | "-") mul)*`
fn add(lex: &mut Lexer) -> (r: Result<BinTree<NodeKind>, RuccErr>)
    ensures
        parsed_as(
            r,
            old(lex)@,
            final(lex)@,
            parse_level(old(lex)@.tokens, old(lex)@.position, 2),
        ),
    decreases left(old(lex)@.tokens, old(lex)@.position), 2nat, 2nat,
{
    let ghost toks = lex@.tokens;
    let ghost start = lex@.position;
    let mut l = match self::mul(lex) {
        Ok(l) => l,
        Err(e) => {
            return Err(e);
        },
    };
    loop
        invariant
            lex@.tokens == toks,
            toks == old(lex)@.tokens,
            start == old(lex)@.position,
            lex@.position >= start,
            parse_level(toks, start, 2) == parse_more(toks, lex@.position, 2, l).behind(
                (lex@.position - start) as nat,
            ),
        decreases left(toks, lex@.position),
    {
        match lex.consume_reserved("+") {
            Err(e) => {
                return Err(e);
            },
            Ok(true) => {
                let r = match self::mul(lex) {
                    Ok(r) => r,
                    Err(e) => {
                        return Err(e);
                    },
                };
                l = BinTree::<NodeKind>::new_node(
                    NodeKind::BinOperator(NodeBinOperator::Plus),
                    l,
                    r,
                );
            },
            Ok(false) => {
                match lex.consume_reserved("-") {
                    Err(e) => {
                        return Err(e);
                    },
                    Ok(true) => {
                        let r = match self::mul(lex) {
                            Ok(r) => r,
                            Err(e) => {
                                return Err(e);
                            },
                        };
                        l = BinTree::<NodeKind>::new_node(
                            NodeKind::BinOperator(NodeBinOperator::Minus),
                            l,
                            r,
                        );
                    },
                    Ok(false) => {
                        return Ok(l);
                    },
                }
            },
        }
    }
}

/// `relational := add (("<" | "<=" | ">" | ">=") add)*`, with `a > b` kept as `b < a` and `a >= b` as `b <= a`
fn relational(lex: &mut Lexer) -> (r: Result<BinTree<NodeKind>, RuccErr>)
    ensures
        parsed_as(
            r,
            old(lex)@,
            final(lex)@,
            parse_level(old(lex)@.tokens, old(lex)@.position, 3),
        ),
    decreases left(old(lex)@.tokens, old(lex)@.position), 3nat, 2nat,
{
    let ghost toks = lex@.tokens;
    let ghost start = lex@.position;
    let mut l = match self::add(lex) {
        Ok(l) => l,
        Err(e) => {
            return Err(e);
        },
    };
    loop
        invariant
            lex@.tokens == toks,
            toks == old(lex)@.tokens,
            start == old(lex)@.position,
            lex@.position >= start,
            parse_level(toks, start, 3) == parse_more(toks, lex@.position, 3, l).behind(
                (lex@.position - start) as nat,
            ),
        decreases left(toks, lex@.position),
    {
        match lex.consume_reserved("<") {
            Err(e) => {
                return Err(e);
            },
            Ok(true) => {
                let r = match self::add(lex) {
                    Ok(r) => r,
                    Err(e) => {
                        return Err(e);
                    },
                };
                l = BinTree::<NodeKind>::new_node(
                    NodeKind::BinOperator(NodeBinOperator::LessThan),
                    l,
                    r,
                );
            },
            Ok(false) => {
                match lex.consume_reserved("<=") {
                    Err(e) => {
                        return Err(e);
                    },
                    Ok(true) => {
                        let r = match self::add(lex) {
                            Ok(r) => r,
                            Err(e) => {
                                return Err(e);
                            },
                        };
                        l = BinTree::<NodeKind>::new_node(
                            NodeKind::BinOperator(NodeBinOperator::LessEq),
                            l,
                            r,
                        );
                    },
                    Ok(false) => {
                        match lex.consume_reserved(">") {
                            Err(e) => {
                                return Err(e);
                            },
                            Ok(true) => {
                                let r = match self::add(lex) {
                                    Ok(r) => r,
                                    Err(e) => {
                                        return Err(e);
                                    },
                                };
                                l = BinTree::<NodeKind>::new_node(
                                    NodeKind::BinOperator(NodeBinOperator::LessThan),
                                    r,
                                    l,
                                );
                            },
                            Ok(false) => {
                                match lex.consume_reserved(">=") {
                                    Err(e) => {
                                        return Err(e);
                                    },
                                    Ok(true) => {
                                        let r = match self::add(lex) {
                                            Ok(r) => r,
                                            Err(e) => {
                                                return Err(e);
                                            },
                                        };
                                        l = BinTree::<NodeKind>::new_node(
                                            NodeKind::BinOperator(NodeBinOperator::LessEq),
                                            r,
                                            l,
                                        );
                                    },
                                    Ok(false) => {
                                        return Ok(l);
                                    },
                                }
                            },
                        }
                    },
                }
            },
        }
    }
}

/// `equality := relational (("==" | "!=") relational)*`
fn equality(lex: &mut Lexer) -> (r: Result<BinTree<NodeKind>, RuccErr>)
    ensures
        parsed_as(
            r,
            old(lex)@,
            final(lex)@,
            parse_level(old(lex)@.tokens, old(lex)@.position, 4),
        ),
    decreases left(old(lex)@.tokens, old(lex)@.position), 4nat, 2nat,
{
    let ghost toks = lex@.tokens;
    let ghost start = lex@.position;
    let mut l = match relational(lex) {
        Ok(l) => l,
        Err(e) => {
            return Err(e);
        },
    };
    loop
        invariant
            lex@.tokens == toks,
            toks == old(lex)@.tokens,
            start == old(lex)@.position,
            lex@.position >= start,
            parse_level(toks, start, 4) == parse_more(toks, lex@.position, 4, l).behind(
                (lex@.position - start) as nat,
            ),
        decreases left(toks, lex@.position),
    {
        match lex.consume_reserved("==") {
            Err(e) => {
                return Err(e);
            },
            Ok(true) => {
                let r = match relational(lex) {
                    Ok(r) => r,
                    Err(e) => {
                        return Err(e);
                    },
                };
                l = BinTree::<NodeKind>::new_node(
                    NodeKind::BinOperator(NodeBinOperator::Eq),
                    l,
                    r,
                );
            },
            Ok(false) => {
                match lex.consume_reserved("!=") {
                    Err(e) => {
                        return Err(e);
                    },
                    Ok(true) => {
                        let r = match relational(lex) {
                            Ok(r) => r,
                            Err(e) => {
                                return Err(e);
                            },
                        };
                        l = BinTree::<NodeKind>::new_node(
                            NodeKind::BinOperator(NodeBinOperator::Neq),
                            l,
                            r,
                        );
                    },
                    Ok(false) => {
                        return Ok(l);
                    },
                }
            },
        }
    }
}

/// `expr := equality`
fn expr(lex: &mut Lexer) -> (r: Result<BinTree<NodeKind>, RuccErr>)
    ensures
        parsed_as(r, old(lex)@, final(lex)@, parse_expr(old(lex)@.tokens, old(lex)@.position)),
    decreases left(old(lex)@.tokens, old(lex)@.position), 4nat, 3nat,
{
    equality(lex)
}

/// Reads one expression from the tokens that `lex` has not read yet, and
/// gives its tree. Tokens behind the expression are left unread.
pub fn parse(lex: &mut Lexer) -> (r: Result<BinTree<NodeKind>, RuccErr>)
    ensures
        parsed_as(r, old(lex)@, final(lex)@, parse_expr(old(lex)@.tokens, old(lex)@.position)),
        r is Ok ==> well_formed(r->Ok_0),
        old(lex)@.ends_with_eof() ==> final(lex)@.ends_with_eof() && !(r is Err
            && r->Err_0 is InsideErr),
{
    proof {
        lemma_parse_sound(lex@.tokens, lex@.position);
    }
    expr(lex)
}

} // verus!
