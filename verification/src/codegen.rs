//! From the syntax tree to assembly text: code for a stack machine, in
//! Intel syntax, one node after the other in postorder.

use vstd::prelude::*;
use vstd::string::*;
use crate::bintree::{pointees, BinTree};
use crate::lexer::{lex, Lexer};
use crate::parser::{parse, parse_expr, NodeBinOperator, NodeKind, NodeOperand};
use crate::ruccerr::{RuccErr, RuccErrView};
use crate::text::{int_text, push_int};

verus! {

/// The lines of a vector as plain values.
pub open spec fn line_views(lines: Seq<String>) -> Seq<Seq<char>> {
    Seq::new(lines.len(), |i: int| lines[i]@)
}

/// The instructions that leave `left op right` in `rax`, with `left` in
/// `rax` and `right` in `rdi` before them.
pub open spec fn operator_lines(op: NodeBinOperator) -> Seq<Seq<char>> {
    match op {
        NodeBinOperator::Plus => seq!["    add rax, rdi"@],
        NodeBinOperator::Minus => seq!["    sub rax, rdi"@],
        NodeBinOperator::Mul => seq!["    imul rax, rdi"@],
        NodeBinOperator::Div => seq!["    cqo"@, "    idiv rdi"@],
        NodeBinOperator::Eq => seq!["  cmp rax, rdi\n"@, "  sete al\n"@, "  movzb rax, al\n"@],
        NodeBinOperator::Neq => seq!["  cmp rax, rdi\n"@, "  setne al\n"@, "  movzb rax, al\n"@],
        NodeBinOperator::LessThan => seq![
            "  cmp rax, rdi\n"@,
            "  setl al\n"@,
            "  movzb rax, al\n"@,
        ],
        NodeBinOperator::LessEq => seq![
            "  cmp rax, rdi\n"@,
            "  setle al\n"@,
            "  movzb rax, al\n"@,
        ],
    }
}

/// The line that pushes the number `v`.
pub open spec fn push_line_of(v: i32) -> Seq<char> {
    "    push "@ + int_text(v as int)
}

/// The lines for one node, its operands being on the stack already: a
/// number is pushed; an operator pops its right operand, then its left
/// one, and pushes what it computes of them.
pub open spec fn node_lines(n: NodeKind) -> Seq<Seq<char>> {
    match n {
        NodeKind::Operand(NodeOperand::Integer(v)) => seq![push_line_of(v)],
        NodeKind::BinOperator(op) => seq!["    pop rdi"@, "    pop rax"@] + operator_lines(op)
            + seq!["    push rax"@],
    }
}

/// The lines for a run of nodes, one node after the other.
pub open spec fn lines_of(nodes: Seq<NodeKind>) -> Seq<Seq<char>>
    decreases nodes.len(),
{
    if nodes.len() == 0 {
        Seq::empty()
    } else {
        lines_of(nodes.drop_last()) + node_lines(nodes.last())
    }
}

/// The code of a tree: the code of the left subtree, that of the right
/// subtree, then the lines of the node itself.
pub open spec fn code_of(t: BinTree<NodeKind>) -> Seq<Seq<char>>
    decreases t,
{
    match t {
        BinTree::Nil => Seq::empty(),
        BinTree::Node { val, left, right } => code_of(*left) + code_of(*right) + node_lines(val),
    }
}

/// The lines before the code of the expression.
pub open spec fn prologue() -> Seq<Seq<char>> {
    seq![".intel_syntax noprefix"@, ".global main"@, "main:"@]
}

/// The lines behind the code of the expression: its value is taken from
/// the stack and returned.
pub open spec fn epilogue() -> Seq<Seq<char>> {
    seq!["    pop rax"@, "    ret"@]
}

/// The whole assembly text for the expression `s`, or the first error.
pub open spec fn compiled(s: Seq<char>) -> Result<Seq<Seq<char>>, RuccErrView> {
    match lex(s) {
        Err(e) => Err(e),
        Ok(toks) => match parse_expr(toks, 0).tree {
            Err(e) => Err(e),
            Ok(t) => Ok(prologue() + code_of(t) + epilogue()),
        },
    }
}

/// The lines of two runs of nodes, one after the other, are the lines of
/// the first and then those of the second.
pub proof fn lemma_lines_of_concat(a: Seq<NodeKind>, b: Seq<NodeKind>)
    ensures
        lines_of(a + b) == lines_of(a) + lines_of(b),
    decreases b.len(),
{
    if b.len() == 0 {
        assert(a + b =~= a);
        assert(lines_of(a) + lines_of(b) =~= lines_of(a));
    } else {
        lemma_lines_of_concat(a, b.drop_last());
        assert((a + b).drop_last() =~= a + b.drop_last());
        assert((a + b).last() == b.last());
        assert((lines_of(a) + lines_of(b.drop_last())) + node_lines(b.last()) =~= lines_of(a) + (
        lines_of(b.drop_last()) + node_lines(b.last())));
    }
}

/// The code of a tree is the lines of its nodes in postorder.
pub proof fn lemma_code_is_postorder(t: BinTree<NodeKind>)
    ensures
        code_of(t) == lines_of(t.postorder_seq()),
    decreases t,
{
    match t {
        BinTree::Nil => {},
        BinTree::Node { val, left, right } => {
            lemma_code_is_postorder(*left);
            lemma_code_is_postorder(*right);
            lemma_lines_of_concat(left.postorder_seq(), right.postorder_seq());
            let both = left.postorder_seq() + right.postorder_seq();
            assert(both.push(val).drop_last() =~= both);
        },
    }
}

/// Appends `line` to `out`.
fn push_line(out: &mut Vec<String>, line: &str)
    ensures
        line_views(final(out)@) == line_views(old(out)@).push(line@),
{
    out.push(String::from_str(line));
    assert(line_views(out@) =~= line_views(old(out)@).push(line@));
}

/// Appends the instructions of the operator `op` to `out`.
fn emit_operator(op: &NodeBinOperator, out: &mut Vec<String>)
    ensures
        line_views(final(out)@) == line_views(old(out)@) + operator_lines(*op),
{
    match op {
        NodeBinOperator::Plus => {
            push_line(out, "    add rax, rdi");
        },
        NodeBinOperator::Minus => {
            push_line(out, "    sub rax, rdi");
        },
        NodeBinOperator::Mul => {
            push_line(out, "    imul rax, rdi");
        },
        NodeBinOperator::Div => {
            push_line(out, "    cqo");
            push_line(out, "    idiv rdi");
        },
        NodeBinOperator::Eq => {
            push_line(out, "  cmp rax, rdi\n");
            push_line(out, "  sete al\n");
            push_line(out, "  movzb rax, al\n");
        },
        NodeBinOperator::Neq => {
            push_line(out, "  cmp rax, rdi\n");
            push_line(out, "  setne al\n");
            push_line(out, "  movzb rax, al\n");
        },
        NodeBinOperator::LessThan => {
            push_line(out, "  cmp rax, rdi\n");
            push_line(out, "  setl al\n");
            push_line(out, "  movzb rax, al\n");
        },
        NodeBinOperator::LessEq => {
            push_line(out, "  cmp rax, rdi\n");
            push_line(out, "  setle al\n");
            push_line(out, "  movzb rax, al\n");
        },
    }
    assert(line_views(out@) =~= line_views(old(out)@) + operator_lines(*op));
}

/// Appends the lines of the node `n` to `out`.
fn emit_node(n: &NodeKind, out: &mut Vec<String>)
    ensures
        line_views(final(out)@) == line_views(old(out)@) + node_lines(*n),
{
    match n {
        NodeKind::Operand(NodeOperand::Integer(v)) => {
            let mut line = String::from_str("    push ");
            push_int(&mut line, *v);
            out.push(line);
        },
        NodeKind::BinOperator(op) => {
            push_line(out, "    pop rdi");
            push_line(out, "    pop rax");
            emit_operator(op, out);
            push_line(out, "    push rax");
        },
    }
    assert(line_views(out@) =~= line_views(old(out)@) + node_lines(*n));
}

/// Appends the code of the tree `t` to `out`: code that leaves the value
/// of the expression on top of the stack.
pub fn gencode(t: &BinTree<NodeKind>, out: &mut Vec<String>)
    ensures
        line_views(final(out)@) == line_views(old(out)@) + code_of(*t),
{
    let nodes = t.postorder();
    let ghost post = t.postorder_seq();
    let mut i: usize = 0;
    assert(post.subrange(0, 0) =~= Seq::<NodeKind>::empty());
    assert(line_views(out@) =~= line_views(old(out)@) + lines_of(post.subrange(0, 0)));
    while i < nodes.len()
        invariant
            i <= nodes.len(),
            pointees(nodes@) == post,
            line_views(out@) == line_views(old(out)@) + lines_of(post.subrange(0, i as int)),
        decreases nodes.len() - i,
    {
        let ghost before = line_views(out@);
        assert(*nodes@[i as int] == pointees(nodes@)[i as int]);
        emit_node(nodes[i], out);
        i += 1;
        proof {
            let upto = post.subrange(0, i as int);
            assert(upto.drop_last() =~= post.subrange(0, i - 1));
            assert(upto.last() == post[i - 1]);
            assert(line_views(out@) =~= line_views(old(out)@) + lines_of(upto));
        }
    }
    proof {
        assert(post.subrange(0, nodes.len() as int) =~= post);
        lemma_code_is_postorder(*t);
    }
}

/// Compiles the expression `input`: the lines of an assembly program
/// whose `main` returns the value of the expression.
pub fn run_app(input: &String) -> (r: Result<Vec<String>, RuccErr>)
    ensures
        match compiled(input@) {
            Ok(lines) => r is Ok && line_views(r->Ok_0@) == lines,
            Err(e) => r is Err && r->Err_0@ == e,
        },
{
    let mut token = match Lexer::new(input) {
        Ok(token) => token,
        Err(e) => {
            return Err(e);
        },
    };
    let tree = match parse(&mut token) {
        Ok(tree) => tree,
        Err(e) => {
            return Err(e);
        },
    };
    let mut out: Vec<String> = Vec::new();
    assert(line_views(out@) =~= Seq::<Seq<char>>::empty());
    push_line(&mut out, ".intel_syntax noprefix");
    push_line(&mut out, ".global main");
    push_line(&mut out, "main:");
    assert(line_views(out@) =~= prologue());

    gencode(&tree, &mut out);

    push_line(&mut out, "    pop rax");
    push_line(&mut out, "    ret");
    assert(line_views(out@) =~= prologue() + code_of(tree) + epilogue());
    Ok(out)
}

} // verus!
