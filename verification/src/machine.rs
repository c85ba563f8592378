//! A model of what the generated code does when it runs, and the proof
//! that it computes the value of the expression.
//!
//! The model takes the lines of one node as one step, and numbers as
//! integers without bounds: what the registers do when a result does not
//! fit is left out of it.

use vstd::prelude::*;
use crate::bintree::BinTree;
use crate::codegen::{compiled, epilogue, lemma_code_is_postorder, lines_of, prologue};
use crate::lexer::lex;
use crate::parser::{
    lemma_parse_sound, parse_expr, well_formed, NodeBinOperator, NodeKind, NodeOperand,
};

verus! {

/// The quotient of `l` by `r`, rounded towards zero, as the machine's
/// signed division gives it.
pub open spec fn quotient(l: int, r: int) -> int
    recommends
        r != 0,
{
    if l >= 0 && r > 0 {
        l / r
    } else if l >= 0 {
        -(l / (-r))
    } else if r > 0 {
        -((-l) / r)
    } else {
        (-l) / (-r)
    }
}

/// What an operator makes of its left and right operand. A comparison
/// gives 1 where it holds and 0 where it does not.
pub open spec fn apply(op: NodeBinOperator, l: int, r: int) -> int {
    match op {
        NodeBinOperator::Plus => l + r,
        NodeBinOperator::Minus => l - r,
        NodeBinOperator::Mul => l * r,
        NodeBinOperator::Div => quotient(l, r),
        NodeBinOperator::Eq => if l == r {
            1
        } else {
            0
        },
        NodeBinOperator::Neq => if l != r {
            1
        } else {
            0
        },
        NodeBinOperator::LessThan => if l < r {
            1
        } else {
            0
        },
        NodeBinOperator::LessEq => if l <= r {
            1
        } else {
            0
        },
    }
}

/// Whether the operator has no result for these operands: a division by
/// zero, at which the machine stops.
pub open spec fn faults(op: NodeBinOperator, r: int) -> bool {
    op == NodeBinOperator::Div && r == 0
}

/// The stack after the lines of one node have run on `stack`, or `None`
/// where they cannot run. A number is pushed. An operator pops its right
/// operand, then its left one, and pushes its result.
pub open spec fn step(n: NodeKind, stack: Seq<int>) -> Option<Seq<int>> {
    match n {
        NodeKind::Operand(NodeOperand::Integer(v)) => Some(stack.push(v as int)),
        NodeKind::BinOperator(op) => if stack.len() < 2 {
            None
        } else {
            let r = stack[stack.len() - 1];
            let l = stack[stack.len() - 2];
            if faults(op, r) {
                None
            } else {
                Some(stack.subrange(0, stack.len() - 2).push(apply(op, l, r)))
            }
        },
    }
}

/// The stack after the lines of the nodes have run on `stack`, one node
/// after the other.
pub open spec fn run(nodes: Seq<NodeKind>, stack: Seq<int>) -> Option<Seq<int>>
    decreases nodes.len(),
{
    if nodes.len() == 0 {
        Some(stack)
    } else {
        match step(nodes[0], stack) {
            Some(next) => run(nodes.drop_first(), next),
            None => None,
        }
    }
}

/// The value of the expression that the tree stands for, or `None` where
/// a division by zero is met on the way, or the tree is no expression.
pub open spec fn value_of(t: BinTree<NodeKind>) -> Option<int>
    decreases t,
{
    match t {
        BinTree::Nil => None,
        BinTree::Node { val, left, right } => match val {
            NodeKind::Operand(NodeOperand::Integer(v)) => Some(v as int),
            NodeKind::BinOperator(op) => match (value_of(*left), value_of(*right)) {
                (Some(l), Some(r)) => if faults(op, r) {
                    None
                } else {
                    Some(apply(op, l, r))
                },
                _ => None,
            },
        },
    }
}

/// Running two runs of nodes, one after the other, is running the second
/// on what the first left.
pub proof fn lemma_run_concat(a: Seq<NodeKind>, b: Seq<NodeKind>, stack: Seq<int>)
    ensures
        run(a + b, stack) == match run(a, stack) {
            Some(mid) => run(b, mid),
            None => None,
        },
    decreases a.len(),
{
    if a.len() == 0 {
        assert(a + b =~= b);
    } else {
        assert((a + b)[0] == a[0]);
        assert((a + b).drop_first() =~= a.drop_first() + b);
        match step(a[0], stack) {
            Some(next) => {
                lemma_run_concat(a.drop_first(), b, next);
            },
            None => {},
        }
    }
}

/// The code of a well-formed tree computes the value of its expression:
/// run in postorder, the nodes leave the stack as it was, with that one
/// value on top. Where the expression divides by zero, and only there,
/// the run stops.
pub proof fn lemma_postorder_computes_value(t: BinTree<NodeKind>, stack: Seq<int>)
    requires
        well_formed(t),
    ensures
        run(t.postorder_seq(), stack) == match value_of(t) {
            Some(v) => Some(stack.push(v)),
            None => None,
        },
    decreases t,
{
    match t {
        BinTree::Nil => {},
        BinTree::Node { val, left, right } => {
            let below = left.postorder_seq() + right.postorder_seq();
            let last = seq![val];
            assert(t.postorder_seq() =~= below + last);
            assert(last.drop_first() =~= Seq::<NodeKind>::empty());
            assert(forall|s: Seq<int>| run(last, s) == step(val, s)) by {
                assert forall|s: Seq<int>| run(last, s) == step(val, s) by {
                    match step(val, s) {
                        Some(next) => {
                            assert(run(last.drop_first(), next) == Some(next));
                        },
                        None => {},
                    }
                }
            }
            lemma_run_concat(below, last, stack);
            match val {
                NodeKind::Operand(NodeOperand::Integer(v)) => {
                    assert(below =~= Seq::<NodeKind>::empty());
                },
                NodeKind::BinOperator(op) => {
                    lemma_run_concat(left.postorder_seq(), right.postorder_seq(), stack);
                    lemma_postorder_computes_value(*left, stack);
                    match value_of(*left) {
                        Some(l) => {
                            lemma_postorder_computes_value(*right, stack.push(l));
                            match value_of(*right) {
                                Some(r) => {
                                    let both = stack.push(l).push(r);
                                    assert(both.subrange(0, both.len() - 2) =~= stack);
                                },
                                None => {},
                            }
                        },
                        None => {},
                    }
                },
            }
        },
    }
}

/// The tree that compiling the text `s` goes through.
pub open spec fn tree_of(s: Seq<char>) -> BinTree<NodeKind>
    recommends
        compiled(s) is Ok,
{
    parse_expr(lex(s)->Ok_0, 0).tree->Ok_0
}

/// What the compiler gives for a text is, between the first and the last
/// lines, the code of a well-formed tree, node by node in postorder; and
/// run on any stack, that code leaves the stack as it was with the value
/// of the tree on top, or stops at a division by zero.
pub proof fn lemma_compiled_computes(s: Seq<char>, stack: Seq<int>)
    requires
        compiled(s) is Ok,
    ensures
        well_formed(tree_of(s)),
        compiled(s)->Ok_0 == prologue() + lines_of(tree_of(s).postorder_seq()) + epilogue(),
        run(tree_of(s).postorder_seq(), stack) == match value_of(tree_of(s)) {
            Some(v) => Some(stack.push(v)),
            None => None,
        },
{
    let toks = lex(s)->Ok_0;
    lemma_parse_sound(toks, 0);
    lemma_code_is_postorder(tree_of(s));
    lemma_postorder_computes_value(tree_of(s), stack);
}

} // verus!
