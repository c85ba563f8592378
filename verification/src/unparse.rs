//! Writing a tree back as tokens, and the proof that the parser reads
//! every such writing as the tree it came from.

use vstd::prelude::*;
use crate::bintree::BinTree;
use crate::lexer::{TokenKindView, TokenView};
use crate::parser::{
    binary_operator, done, leaf, node, parse_expr, parse_level, parse_more, parse_primary,
    parse_unary, well_formed, NodeBinOperator, NodeKind, NodeOperand,
};

verus! {

/// The symbol that writes an operator.
pub open spec fn symbol_of(op: NodeBinOperator) -> Seq<char> {
    match op {
        NodeBinOperator::Plus => "+"@,
        NodeBinOperator::Minus => "-"@,
        NodeBinOperator::Mul => "*"@,
        NodeBinOperator::Div => "/"@,
        NodeBinOperator::Eq => "=="@,
        NodeBinOperator::Neq => "!="@,
        NodeBinOperator::LessThan => "<"@,
        NodeBinOperator::LessEq => "<="@,
    }
}

/// The level of the grammar at which an operator is read.
pub open spec fn level_of(op: NodeBinOperator) -> nat {
    match op {
        NodeBinOperator::Mul => 1,
        NodeBinOperator::Div => 1,
        NodeBinOperator::Plus => 2,
        NodeBinOperator::Minus => 2,
        NodeBinOperator::LessThan => 3,
        NodeBinOperator::LessEq => 3,
        NodeBinOperator::Eq => 4,
        NodeBinOperator::Neq => 4,
    }
}

/// The tree written back as tokens, with brackets round every operator
/// and its two operands: `1+2*3` becomes `(1+(2*3))`.
pub open spec fn bracketed(t: BinTree<NodeKind>) -> Seq<TokenKindView>
    decreases t,
{
    match t {
        BinTree::Nil => Seq::empty(),
        BinTree::Node { val, left, right } => match val {
            NodeKind::Operand(NodeOperand::Integer(v)) => seq![TokenKindView::Integer(v)],
            NodeKind::BinOperator(op) => seq![TokenKindView::Reserved("("@)] + bracketed(*left)
                + seq![TokenKindView::Reserved(symbol_of(op))] + bracketed(*right)
                + seq![TokenKindView::Reserved(")"@)],
        },
    }
}

/// Whether the tokens from index `pos` on are of the kinds `kinds`, one
/// after the other.
pub open spec fn holds_at(toks: Seq<TokenView>, pos: nat, kinds: Seq<TokenKindView>) -> bool {
    &&& pos + kinds.len() <= toks.len()
    &&& forall|i: int| pos <= i < pos + kinds.len() ==> (#[trigger] toks[i]).kind == kinds[i - pos]
}

/// Whether a token of this kind ends an operand of the levels from
/// `from + 1` to `to`: it is no operator of any of them.
pub open spec fn stops(kind: TokenKindView, from: nat, to: nat) -> bool {
    match kind {
        TokenKindView::Reserved(sym) => forall|k: nat|
            from < k <= to ==> (#[trigger] binary_operator(k, sym)) is None,
        _ => true,
    }
}

/// Each operator is read at its own level from its own symbol, with its
/// operands in the order written, and at no level below. A closing
/// bracket is no operator, and an opening bracket is no sign.
pub proof fn lemma_symbols(op: NodeBinOperator)
    ensures
        binary_operator(level_of(op), symbol_of(op)) == Some((op, false)),
        1 <= level_of(op) <= 4,
        stops(TokenKindView::Reserved(symbol_of(op)), 0, (level_of(op) - 1) as nat),
        stops(TokenKindView::Reserved(")"@), 0, 4),
        "("@ != "+"@,
        "("@ != "-"@,
{
    reveal_strlit("(");
    reveal_strlit(")");
    reveal_strlit("+");
    reveal_strlit("-");
    reveal_strlit("*");
    reveal_strlit("/");
    reveal_strlit("<");
    reveal_strlit("<=");
    reveal_strlit(">");
    reveal_strlit(">=");
    reveal_strlit("==");
    reveal_strlit("!=");
    assert("<"@.len() == 1 && "<"@[0] == '<');
    assert(">"@.len() == 1 && ">"@[0] == '>');
    assert("<="@.len() == 2 && "<="@[0] == '<');
    assert(">="@.len() == 2 && ">="@[0] == '>');
    assert("=="@.len() == 2 && "=="@[0] == '=');
    assert("!="@.len() == 2 && "!="@[0] == '!');
    assert("+"@.len() == 1 && "+"@[0] == '+');
    assert("-"@.len() == 1 && "-"@[0] == '-');
    assert("*"@.len() == 1 && "*"@[0] == '*');
    assert("/"@.len() == 1 && "/"@[0] == '/');
    assert("("@.len() == 1 && "("@[0] == '(');
    assert(")"@.len() == 1 && ")"@[0] == ')');
}

/// What was read at level `from` is read at level `to` as well, where the
/// token behind it is no operator of the levels between.
pub proof fn lemma_lift(
    toks: Seq<TokenView>,
    pos: nat,
    t: BinTree<NodeKind>,
    used: nat,
    from: nat,
    to: nat,
)
    requires
        from <= to,
        parse_level(toks, pos, from) == done(t, used),
        pos + used < toks.len(),
        stops(toks[pos + used as int].kind, from, to),
    ensures
        parse_level(toks, pos, to) == done(t, used),
    decreases to - from,
{
    if from < to {
        lemma_lift(toks, pos, t, used, from, (to - 1) as nat);
        match toks[pos + used as int].kind {
            TokenKindView::Reserved(sym) => {
                assert(binary_operator(to, sym) is None);
            },
            _ => {},
        }
        assert(parse_more(toks, pos + used, to, t) == done(t, 0));
    }
}

/// A number is read as a leaf.
pub proof fn lemma_number_is_read(toks: Seq<TokenView>, pos: nat, v: i32)
    requires
        pos < toks.len(),
        toks[pos as int].kind == TokenKindView::Integer(v),
    ensures
        parse_primary(toks, pos) == done(leaf(v), 1),
        parse_level(toks, pos, 0) == done(leaf(v), 1),
{
    assert(parse_unary(toks, pos) == parse_primary(toks, pos));
}

/// An opening bracket, a left operand, an operator, a right operand and
/// a closing bracket are read as the tree of the operator with the two
/// operands.
pub proof fn lemma_operator_is_read(
    toks: Seq<TokenView>,
    pos: nat,
    op: NodeBinOperator,
    l: BinTree<NodeKind>,
    nl: nat,
    r: BinTree<NodeKind>,
    nr: nat,
)
    requires
        pos + nl + nr + 3 <= toks.len(),
        toks[pos as int].kind == TokenKindView::Reserved("("@),
        parse_level(toks, pos + 1, 0) == done(l, nl),
        toks[pos as int + 1 + nl].kind == TokenKindView::Reserved(symbol_of(op)),
        parse_level(toks, pos + 2 + nl, 0) == done(r, nr),
        toks[pos as int + 2 + nl + nr].kind == TokenKindView::Reserved(")"@),
    ensures
        parse_primary(toks, pos) == done(node(op, l, r), nl + nr + 3),
        parse_level(toks, pos, 0) == done(node(op, l, r), nl + nr + 3),
{
    let lv = level_of(op);
    let below = (lv - 1) as nat;
    let whole = node(op, l, r);
    lemma_symbols(op);
    lemma_lift(toks, pos + 1, l, nl, 0, below);
    lemma_lift(toks, pos + 2 + nl, r, nr, 0, below);
    assert(parse_more(toks, pos + 2 + nl + nr, lv, whole) == done(whole, 0));
    assert(parse_more(toks, pos + 1 + nl, lv, l) == done(whole, 1 + nr));
    assert(parse_level(toks, pos + 1, lv) == done(whole, nl + 1 + nr));
    lemma_lift(toks, pos + 1, whole, nl + 1 + nr, lv, 4);
    assert(parse_primary(toks, pos) == done(whole, nl + nr + 3));
    assert(parse_unary(toks, pos) == parse_primary(toks, pos));
}

/// Where the tokens at index `pos` are a tree in brackets, that tree is
/// read there, and all of its tokens with it.
pub proof fn lemma_bracketed_is_read(toks: Seq<TokenView>, pos: nat, t: BinTree<NodeKind>)
    requires
        well_formed(t),
        holds_at(toks, pos, bracketed(t)),
    ensures
        bracketed(t).len() >= 1,
        parse_primary(toks, pos) == done(t, bracketed(t).len()),
        parse_level(toks, pos, 0) == done(t, bracketed(t).len()),
    decreases t,
{
    match t {
        BinTree::Nil => {},
        BinTree::Node { val, left, right } => match val {
            NodeKind::Operand(NodeOperand::Integer(v)) => {
                assert(toks[pos as int].kind == bracketed(t)[0]);
                assert(*left == BinTree::<NodeKind>::Nil);
                assert(*right == BinTree::<NodeKind>::Nil);
                assert(t == leaf(v));
                lemma_number_is_read(toks, pos, v);
            },
            NodeKind::BinOperator(op) => {
                let l = *left;
                let r = *right;
                let nl = bracketed(l).len();
                let nr = bracketed(r).len();
                let all = bracketed(t);
                let p = pos as int;
                assert(all.len() == nl + nr + 3);
                assert(toks[p].kind == all[0]);
                assert(toks[p + 1 + nl].kind == all[1 + nl as int]);
                assert(toks[p + 2 + nl + nr].kind == all[2 + nl as int + nr]);
                assert(holds_at(toks, pos + 1, bracketed(l))) by {
                    assert forall|i: int| p + 1 <= i < p + 1 + nl implies (#[trigger] toks[i]).kind
                        == bracketed(l)[i - (p + 1)] by {
                        assert(toks[i].kind == all[i - p]);
                    }
                }
                assert(holds_at(toks, pos + 2 + nl, bracketed(r))) by {
                    assert forall|i: int| p + 2 + nl <= i < p + 2 + nl + nr implies (
                    #[trigger] toks[i]).kind == bracketed(r)[i - (p + 2 + nl)] by {
                        assert(toks[i].kind == all[i - p]);
                    }
                }
                lemma_bracketed_is_read(toks, pos + 1, l);
                lemma_bracketed_is_read(toks, pos + 2 + nl, r);
                lemma_operator_is_read(toks, pos, op, l, nl, r, nr);
                assert(t == node(op, l, r));
            },
        },
    }
}

/// Every well-formed tree is the tree of an expression: written with
/// brackets round each operator, and with the end behind it, it is read
/// back as itself, and all of it is read.
pub proof fn lemma_parse_of_bracketed(toks: Seq<TokenView>, t: BinTree<NodeKind>)
    requires
        well_formed(t),
        holds_at(toks, 0, bracketed(t).push(TokenKindView::Eof)),
    ensures
        parse_expr(toks, 0) == done(t, bracketed(t).len()),
{
    let kinds = bracketed(t).push(TokenKindView::Eof);
    assert(holds_at(toks, 0, bracketed(t))) by {
        assert forall|i: int| 0 <= i < bracketed(t).len() implies (#[trigger] toks[i]).kind
            == bracketed(t)[i - 0] by {
            assert(kinds[i] == bracketed(t)[i]);
        }
    }
    lemma_bracketed_is_read(toks, 0, t);
    assert(toks[bracketed(t).len() as int].kind == kinds[bracketed(t).len() as int]);
    lemma_lift(toks, 0, t, bracketed(t).len(), 0, 4);
}

} // verus!
