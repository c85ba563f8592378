use rucc::bintree::BinTree;
use rucc::codegen::{gencode, run_app};
use rucc::parser::{NodeBinOperator, NodeKind, NodeOperand};
use rucc::ruccerr::RuccErr;

fn compile(input: &str) -> Vec<String> {
    run_app(&input.to_string()).unwrap()
}

/// Runs the lines as the machine would, as far as this compiler uses it,
/// and gives what `main` returns.
fn run(lines: &[String]) -> i64 {
    let mut stack: Vec<i64> = Vec::new();
    let mut rax: i64 = 0;
    let mut rdi: i64 = 0;
    let mut compared: (i64, i64) = (0, 0);
    let mut al: i64 = 0;
    for line in lines {
        let line = line.trim();
        if line == ".intel_syntax noprefix" || line == ".global main" || line == "main:" {
        } else if let Some(n) = line.strip_prefix("push ") {
            if n == "rax" {
                stack.push(rax);
            } else {
                stack.push(n.parse::<i64>().unwrap());
            }
        } else if line == "pop rdi" {
            rdi = stack.pop().unwrap();
        } else if line == "pop rax" {
            rax = stack.pop().unwrap();
        } else if line == "add rax, rdi" {
            rax = rax.wrapping_add(rdi);
        } else if line == "sub rax, rdi" {
            rax = rax.wrapping_sub(rdi);
        } else if line == "imul rax, rdi" {
            rax = rax.wrapping_mul(rdi);
        } else if line == "cqo" {
        } else if line == "idiv rdi" {
            rax = rax / rdi;
        } else if line == "cmp rax, rdi" {
            compared = (rax, rdi);
        } else if line == "sete al" {
            al = (compared.0 == compared.1) as i64;
        } else if line == "setne al" {
            al = (compared.0 != compared.1) as i64;
        } else if line == "setl al" {
            al = (compared.0 < compared.1) as i64;
        } else if line == "setle al" {
            al = (compared.0 <= compared.1) as i64;
        } else if line == "movzb rax, al" {
            rax = al;
        } else if line == "ret" {
            assert!(stack.is_empty());
            return rax;
        } else {
            panic!("unknown line {:?}", line);
        }
    }
    panic!("no ret");
}

fn value(input: &str) -> i64 {
    run(&compile(input))
}

#[test]
fn a_number_is_pushed_and_returned() {
    assert_eq!(
        compile("42"),
        vec![".intel_syntax noprefix", ".global main", "main:", "    push 42", "    pop rax", "    ret"]
    );
}

#[test]
fn the_lines_of_a_sum() {
    assert_eq!(
        compile("1+2"),
        vec![
            ".intel_syntax noprefix",
            ".global main",
            "main:",
            "    push 1",
            "    push 2",
            "    pop rdi",
            "    pop rax",
            "    add rax, rdi",
            "    push rax",
            "    pop rax",
            "    ret"
        ]
    );
}

fn lines_of_operator(op: NodeBinOperator) -> Vec<String> {
    let t = BinTree::new_node(
        NodeKind::BinOperator(op),
        BinTree::new_leaf(NodeKind::Operand(NodeOperand::Integer(6))),
        BinTree::new_leaf(NodeKind::Operand(NodeOperand::Integer(3))),
    );
    let mut out = Vec::new();
    gencode(&t, &mut out);
    assert_eq!(&out[..4], ["    push 6", "    push 3", "    pop rdi", "    pop rax"]);
    assert_eq!(out[out.len() - 1], "    push rax");
    out[4..out.len() - 1].to_vec()
}

#[test]
fn the_lines_of_each_operator() {
    assert_eq!(lines_of_operator(NodeBinOperator::Plus), vec!["    add rax, rdi"]);
    assert_eq!(lines_of_operator(NodeBinOperator::Minus), vec!["    sub rax, rdi"]);
    assert_eq!(lines_of_operator(NodeBinOperator::Mul), vec!["    imul rax, rdi"]);
    assert_eq!(lines_of_operator(NodeBinOperator::Div), vec!["    cqo", "    idiv rdi"]);
    assert_eq!(
        lines_of_operator(NodeBinOperator::Eq),
        vec!["  cmp rax, rdi\n", "  sete al\n", "  movzb rax, al\n"]
    );
    assert_eq!(
        lines_of_operator(NodeBinOperator::Neq),
        vec!["  cmp rax, rdi\n", "  setne al\n", "  movzb rax, al\n"]
    );
    assert_eq!(
        lines_of_operator(NodeBinOperator::LessThan),
        vec!["  cmp rax, rdi\n", "  setl al\n", "  movzb rax, al\n"]
    );
    assert_eq!(
        lines_of_operator(NodeBinOperator::LessEq),
        vec!["  cmp rax, rdi\n", "  setle al\n", "  movzb rax, al\n"]
    );
}

#[test]
fn gencode_appends_to_what_is_there() {
    let mut out = vec!["first".to_string()];
    gencode(&BinTree::new_leaf(NodeKind::Operand(NodeOperand::Integer(9))), &mut out);
    assert_eq!(out, vec!["first", "    push 9"]);
    gencode(&BinTree::Nil, &mut out);
    assert_eq!(out, vec!["first", "    push 9"]);
}

#[test]
fn numbers_of_any_size_are_written_in_decimal() {
    let mut out = Vec::new();
    for v in [0, 7, 10, 109, -1, -10, 2147483647, -2147483648] {
        gencode(&BinTree::new_leaf(NodeKind::Operand(NodeOperand::Integer(v))), &mut out);
    }
    assert_eq!(
        out,
        vec![
            "    push 0",
            "    push 7",
            "    push 10",
            "    push 109",
            "    push -1",
            "    push -10",
            "    push 2147483647",
            "    push -2147483648"
        ]
    );
}

#[test]
fn precedence_computes_seven() {
    assert_eq!(value("1+2*3"), 7);
}

#[test]
fn subtraction_groups_to_the_left() {
    assert_eq!(value("8-3-2"), 3);
}

#[test]
fn greater_compiles_as_less_swapped() {
    assert_eq!(compile("3>2"), compile("2<3"));
    assert_eq!(compile("3>=2"), compile("2<=3"));
    assert_eq!(value("3>2"), 1);
    assert_eq!(value("2>3"), 0);
    assert_eq!(value("3>=3"), 1);
    assert_eq!(value("2>=3"), 0);
}

#[test]
fn whole_expressions_compute_their_value() {
    assert_eq!(value("(1+2)*3-4"), 5);
    assert_eq!(value("10/3"), 3);
    assert_eq!(value("1==1"), 1);
    assert_eq!(value("1<2"), 1);
}

#[test]
fn more_values() {
    assert_eq!(value("0"), 0);
    assert_eq!(value(" 12 + 34 - 5 "), 41);
    assert_eq!(value("5+6*7"), 47);
    assert_eq!(value("5*(9-6)"), 15);
    assert_eq!(value("(3+5)/2"), 4);
    assert_eq!(value("-10+20"), 10);
    assert_eq!(value("- -10"), 10);
    assert_eq!(value("- - +10"), 10);
    assert_eq!(value("-7/2"), -3);
    assert_eq!(value("0==1"), 0);
    assert_eq!(value("42!=42"), 0);
    assert_eq!(value("0!=1"), 1);
    assert_eq!(value("1<1"), 0);
    assert_eq!(value("1<=1"), 1);
    assert_eq!(value("2<=1"), 0);
    assert_eq!(value("1+1==2"), 1);
    assert_eq!(value("8/4/2"), 1);
}

#[test]
fn white_space_changes_nothing() {
    assert_eq!(compile("1+2*3"), compile("  1 +\t2 * 3 "));
}

#[test]
fn a_dangling_operator_fails_to_compile() {
    let r = run_app(&"1+".to_string());
    assert!(matches!(r, Err(RuccErr::TokenErr(_, _))));
    assert_eq!(r.unwrap_err().to_string(), "unexpected end of file at line: 1 pos: 2");
}

#[test]
fn an_unknown_character_fails_to_compile() {
    let r = run_app(&"@".to_string());
    match r {
        Err(RuccErr::ParseErr(msg, p)) => {
            assert_eq!(msg, "unexpected @");
            assert_eq!(p.get_pos(), 0);
        }
        other => panic!("{:?}", other),
    }
    assert!(matches!(run_app(&"1+2 @".to_string()), Err(RuccErr::ParseErr(_, _))));
}

#[test]
fn what_follows_the_expression_is_not_compiled() {
    assert_eq!(compile("1 2"), compile("1"));
}
