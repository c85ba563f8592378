use rucc::bintree::BinTree;
use rucc::lexer::{Lexer, TokenKind};
use rucc::parser::{parse, NodeBinOperator, NodeKind, NodeOperand};
use rucc::ruccerr::RuccErr;

type Tree = BinTree<NodeKind>;

fn num(v: i32) -> Tree {
    BinTree::new_leaf(NodeKind::Operand(NodeOperand::Integer(v)))
}

fn bin(op: NodeBinOperator, l: Tree, r: Tree) -> Tree {
    BinTree::new_node(NodeKind::BinOperator(op), l, r)
}

fn tree_of(input: &str) -> Tree {
    let mut lex = Lexer::new(&input.to_string()).unwrap();
    parse(&mut lex).unwrap()
}

fn error_of(input: &str) -> RuccErr {
    let mut lex = Lexer::new(&input.to_string()).unwrap();
    parse(&mut lex).unwrap_err()
}

fn is_expression(t: &Tree) -> bool {
    match t {
        BinTree::Nil => false,
        BinTree::Node { val: NodeKind::Operand(_), left, right } => {
            **left == BinTree::Nil && **right == BinTree::Nil
        }
        BinTree::Node { val: NodeKind::BinOperator(_), left, right } => {
            is_expression(left) && is_expression(right)
        }
    }
}

#[test]
fn a_number_is_a_leaf() {
    assert_eq!(tree_of("42"), num(42));
    assert_eq!(
        tree_of("42"),
        BinTree::Node {
            val: NodeKind::Operand(NodeOperand::Integer(42)),
            left: Box::new(BinTree::Nil),
            right: Box::new(BinTree::Nil),
        }
    );
}

#[test]
fn multiplication_binds_tighter_than_addition() {
    assert_eq!(
        tree_of("1+2*3"),
        bin(NodeBinOperator::Plus, num(1), bin(NodeBinOperator::Mul, num(2), num(3)))
    );
    assert_eq!(
        tree_of("1*2+3"),
        bin(NodeBinOperator::Plus, bin(NodeBinOperator::Mul, num(1), num(2)), num(3))
    );
}

#[test]
fn operators_group_to_the_left() {
    assert_eq!(
        tree_of("8-3-2"),
        bin(NodeBinOperator::Minus, bin(NodeBinOperator::Minus, num(8), num(3)), num(2))
    );
    assert_eq!(
        tree_of("8/4/2"),
        bin(NodeBinOperator::Div, bin(NodeBinOperator::Div, num(8), num(4)), num(2))
    );
    assert_eq!(
        tree_of("1==2!=3"),
        bin(NodeBinOperator::Neq, bin(NodeBinOperator::Eq, num(1), num(2)), num(3))
    );
}

#[test]
fn brackets_group_first() {
    assert_eq!(
        tree_of("(1+2)*3-4"),
        bin(
            NodeBinOperator::Minus,
            bin(NodeBinOperator::Mul, bin(NodeBinOperator::Plus, num(1), num(2)), num(3)),
            num(4)
        )
    );
    assert_eq!(tree_of("((7))"), num(7));
}

#[test]
fn greater_is_less_with_the_operands_swapped() {
    assert_eq!(tree_of("3>2"), bin(NodeBinOperator::LessThan, num(2), num(3)));
    assert_eq!(tree_of("3>2"), tree_of("2<3"));
    assert_eq!(tree_of("3>=2"), bin(NodeBinOperator::LessEq, num(2), num(3)));
    assert_eq!(tree_of("3>=2"), tree_of("2<=3"));
    assert_eq!(tree_of("1<2"), bin(NodeBinOperator::LessThan, num(1), num(2)));
    assert_eq!(tree_of("1<=2"), bin(NodeBinOperator::LessEq, num(1), num(2)));
    assert_eq!(
        tree_of("1>2>3"),
        bin(NodeBinOperator::LessThan, num(3), bin(NodeBinOperator::LessThan, num(2), num(1)))
    );
}

#[test]
fn comparisons_bind_looser_than_arithmetic() {
    assert_eq!(
        tree_of("1+2==3"),
        bin(NodeBinOperator::Eq, bin(NodeBinOperator::Plus, num(1), num(2)), num(3))
    );
    assert_eq!(
        tree_of("1<2==1"),
        bin(NodeBinOperator::Eq, bin(NodeBinOperator::LessThan, num(1), num(2)), num(1))
    );
    assert_eq!(
        tree_of("1<2+3"),
        bin(NodeBinOperator::LessThan, num(1), bin(NodeBinOperator::Plus, num(2), num(3)))
    );
}

#[test]
fn unary_signs() {
    assert_eq!(tree_of("+5"), num(5));
    assert_eq!(tree_of("-5"), bin(NodeBinOperator::Minus, num(0), num(5)));
    assert_eq!(
        tree_of("- -5"),
        bin(NodeBinOperator::Minus, num(0), bin(NodeBinOperator::Minus, num(0), num(5)))
    );
    assert_eq!(tree_of("+ + +5"), num(5));
    assert_eq!(
        tree_of("2*-3"),
        bin(NodeBinOperator::Mul, num(2), bin(NodeBinOperator::Minus, num(0), num(3)))
    );
    assert_eq!(
        tree_of("-(1+2)"),
        bin(NodeBinOperator::Minus, num(0), bin(NodeBinOperator::Plus, num(1), num(2)))
    );
}

#[test]
fn every_tree_has_numbers_for_leaves() {
    for input in ["1", "1+2*3", "(1+2)*3-4", "-1", "1<2==3>=4", "- - (3)", "10/3 != 3"] {
        assert!(is_expression(&tree_of(input)), "{}", input);
    }
}

#[test]
fn a_dangling_operator_is_a_syntax_error() {
    match error_of("1+") {
        RuccErr::TokenErr(msg, tok) => {
            assert_eq!(msg, "unexpected");
            assert_eq!(tok.get_kind(), TokenKind::Eof);
            assert_eq!(tok.get_point().get_pos(), 2);
        }
        other => panic!("{:?}", other),
    }
}

#[test]
fn an_unclosed_bracket_is_a_syntax_error() {
    match error_of("(1+2") {
        RuccErr::TokenErr(msg, tok) => {
            assert_eq!(msg, "unexpected");
            assert_eq!(tok.get_kind(), TokenKind::Eof);
            assert_eq!(tok.get_point().get_pos(), 4);
        }
        other => panic!("{:?}", other),
    }
    match error_of("(1 2)") {
        RuccErr::TokenErr(_, tok) => {
            assert_eq!(tok.get_kind(), TokenKind::Integer(2));
            assert_eq!(tok.get_point().get_pos(), 3);
        }
        other => panic!("{:?}", other),
    }
}

#[test]
fn an_operator_without_a_left_operand_is_a_syntax_error() {
    match error_of("*2") {
        RuccErr::TokenErr(_, tok) => {
            assert_eq!(tok.get_kind(), TokenKind::Reserved("*"));
            assert_eq!(tok.get_point().get_pos(), 0);
        }
        other => panic!("{:?}", other),
    }
    assert!(matches!(error_of(""), RuccErr::TokenErr(_, _)));
    assert!(matches!(error_of(")"), RuccErr::TokenErr(_, _)));
    assert!(matches!(error_of("1+*2"), RuccErr::TokenErr(_, _)));
    assert!(matches!(error_of("()"), RuccErr::TokenErr(_, _)));
}

#[test]
fn the_cursor_stops_behind_the_expression() {
    let mut lex = Lexer::new(&"1+2".to_string()).unwrap();
    assert!(parse(&mut lex).is_ok());
    assert_eq!(lex.position(), 3);
    assert_eq!(lex.head().unwrap().get_kind(), TokenKind::Eof);
}

#[test]
fn tokens_behind_the_expression_are_left_unread() {
    let mut lex = Lexer::new(&"1 2".to_string()).unwrap();
    assert_eq!(parse(&mut lex), Ok(num(1)));
    assert_eq!(lex.position(), 1);
    assert_eq!(lex.head().unwrap().get_kind(), TokenKind::Integer(2));
    let mut lex = Lexer::new(&"1+2)".to_string()).unwrap();
    assert_eq!(parse(&mut lex), Ok(bin(NodeBinOperator::Plus, num(1), num(2))));
    assert_eq!(lex.position(), 3);
}

#[test]
fn the_cursor_stops_where_the_error_was_found() {
    let mut lex = Lexer::new(&"1+(2*".to_string()).unwrap();
    assert!(parse(&mut lex).is_err());
    assert_eq!(lex.position(), 5);
}

#[test]
fn postorder_gives_operands_before_their_operator() {
    let t = tree_of("1+2*3");
    let walk: Vec<NodeKind> = t.postorder().into_iter().copied().collect();
    assert_eq!(
        walk,
        vec![
            NodeKind::Operand(NodeOperand::Integer(1)),
            NodeKind::Operand(NodeOperand::Integer(2)),
            NodeKind::Operand(NodeOperand::Integer(3)),
            NodeKind::BinOperator(NodeBinOperator::Mul),
            NodeKind::BinOperator(NodeBinOperator::Plus),
        ]
    );
}

#[test]
fn postorder_of_trees_of_any_values() {
    let empty: BinTree<u8> = BinTree::Nil;
    assert!(empty.postorder().is_empty());
    let t = BinTree::new_node(
        "root",
        BinTree::new_node("l", BinTree::new_leaf("ll"), BinTree::Nil),
        BinTree::new_node("r", BinTree::Nil, BinTree::new_leaf("rr")),
    );
    assert_eq!(t.postorder(), vec![&"ll", &"l", &"rr", &"r", &"root"]);
}

#[test]
fn a_leaf_has_no_children() {
    assert_eq!(
        BinTree::new_leaf(5u8),
        BinTree::Node { val: 5u8, left: Box::new(BinTree::Nil), right: Box::new(BinTree::Nil) }
    );
    assert_eq!(
        BinTree::new_node(1u8, BinTree::new_leaf(2u8), BinTree::Nil),
        BinTree::Node {
            val: 1u8,
            left: Box::new(BinTree::new_leaf(2u8)),
            right: Box::new(BinTree::Nil)
        }
    );
}
