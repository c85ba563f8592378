use rucc::lexer::{Lexer, Token, TokenKind};
use rucc::ruccerr::RuccErr;

fn kinds(input: &str) -> Vec<TokenKind> {
    let lex = Lexer::new(&input.to_string()).unwrap();
    lex.tokens().iter().map(|t| t.get_kind()).collect()
}

fn places(input: &str) -> Vec<usize> {
    let lex = Lexer::new(&input.to_string()).unwrap();
    lex.tokens().iter().map(|t| t.get_point().get_pos()).collect()
}

#[test]
fn a_number_is_two_tokens() {
    assert_eq!(kinds("42"), vec![TokenKind::Integer(42), TokenKind::Eof]);
    assert_eq!(kinds("0"), vec![TokenKind::Integer(0), TokenKind::Eof]);
    assert_eq!(kinds("007"), vec![TokenKind::Integer(7), TokenKind::Eof]);
    assert_eq!(places("42"), vec![0, 2]);
}

#[test]
fn the_largest_number_is_read() {
    assert_eq!(kinds("2147483647"), vec![TokenKind::Integer(2147483647), TokenKind::Eof]);
    assert_eq!(kinds("0000000000002147483647"), vec![TokenKind::Integer(2147483647), TokenKind::Eof]);
}

#[test]
fn a_number_too_large_is_refused() {
    let r = Lexer::new(&"1+2147483648".to_string());
    match r {
        Err(RuccErr::ParseErr(msg, p)) => {
            assert_eq!(msg, "can't pares 2147483648 number too large to fit in target type");
            assert_eq!(p.get_pos(), 2);
            assert_eq!(p.get_line(), 1);
        }
        other => panic!("{:?}", other),
    }
    assert!(matches!(Lexer::new(&"99999999999999999999999999".to_string()), Err(RuccErr::ParseErr(_, _))));
}

#[test]
fn two_character_symbols_are_one_token() {
    assert_eq!(kinds("<="), vec![TokenKind::Reserved("<="), TokenKind::Eof]);
    assert_eq!(kinds(">="), vec![TokenKind::Reserved(">="), TokenKind::Eof]);
    assert_eq!(kinds("=="), vec![TokenKind::Reserved("=="), TokenKind::Eof]);
    assert_eq!(kinds("!="), vec![TokenKind::Reserved("!="), TokenKind::Eof]);
    assert_eq!(places("<="), vec![0, 2]);
}

#[test]
fn one_character_symbols() {
    assert_eq!(
        kinds("+-*/()<>"),
        vec![
            TokenKind::Reserved("+"),
            TokenKind::Reserved("-"),
            TokenKind::Reserved("*"),
            TokenKind::Reserved("/"),
            TokenKind::Reserved("("),
            TokenKind::Reserved(")"),
            TokenKind::Reserved("<"),
            TokenKind::Reserved(">"),
            TokenKind::Eof,
        ]
    );
}

#[test]
fn symbols_side_by_side() {
    assert_eq!(
        kinds("<<=>>="),
        vec![
            TokenKind::Reserved("<"),
            TokenKind::Reserved("<="),
            TokenKind::Reserved(">"),
            TokenKind::Reserved(">="),
            TokenKind::Eof
        ]
    );
    assert_eq!(places("<<=>>="), vec![0, 1, 3, 4, 6]);
    assert_eq!(
        kinds("1==2!=3"),
        vec![
            TokenKind::Integer(1),
            TokenKind::Reserved("=="),
            TokenKind::Integer(2),
            TokenKind::Reserved("!="),
            TokenKind::Integer(3),
            TokenKind::Eof
        ]
    );
}

#[test]
fn white_space_is_passed_over() {
    assert_eq!(
        kinds(" 1 +\t2\n"),
        vec![TokenKind::Integer(1), TokenKind::Reserved("+"), TokenKind::Integer(2), TokenKind::Eof]
    );
    assert_eq!(places(" 1 +\t2\n"), vec![1, 3, 5, 7]);
    assert_eq!(kinds(""), vec![TokenKind::Eof]);
    assert_eq!(kinds("  \r\x0C"), vec![TokenKind::Eof]);
    assert_eq!(places("   "), vec![3]);
}

#[test]
fn places_count_characters() {
    let r = Lexer::new(&"1 + é".to_string());
    match r {
        Err(RuccErr::ParseErr(msg, p)) => {
            assert_eq!(msg, "unexpected é");
            assert_eq!(p.get_pos(), 4);
        }
        other => panic!("{:?}", other),
    }
}

#[test]
fn an_unknown_character_is_refused_at_its_place() {
    let r = Lexer::new(&"@".to_string());
    match r {
        Err(RuccErr::ParseErr(msg, p)) => {
            assert_eq!(msg, "unexpected @");
            assert_eq!(p.get_pos(), 0);
            assert_eq!(p.get_line(), 1);
        }
        other => panic!("{:?}", other),
    }
}

#[test]
fn a_lone_equals_sign_is_refused() {
    let r = Lexer::new(&"1 = 2".to_string());
    match r {
        Err(RuccErr::ParseErr(msg, p)) => {
            assert_eq!(msg, "unexpected =");
            assert_eq!(p.get_pos(), 2);
        }
        other => panic!("{:?}", other),
    }
    assert!(matches!(Lexer::new(&"1 ! 2".to_string()), Err(RuccErr::ParseErr(_, _))));
}

#[test]
fn consume_reads_only_the_symbol_asked_for() {
    let mut lex = Lexer::new(&"+ 1".to_string()).unwrap();
    assert_eq!(lex.position(), 0);
    assert_eq!(lex.consume_reserved("-"), Ok(false));
    assert_eq!(lex.position(), 0);
    assert_eq!(lex.consume_reserved("+"), Ok(true));
    assert_eq!(lex.position(), 1);
    assert_eq!(lex.consume_reserved("+"), Ok(false));
    assert_eq!(lex.position(), 1);
    assert_eq!(lex.expect_number(), Ok(1));
    assert_eq!(lex.position(), 2);
    assert_eq!(lex.consume_reserved("+"), Ok(false));
    assert_eq!(lex.position(), 2);
    assert_eq!(lex.head().unwrap().get_kind(), TokenKind::Eof);
}

#[test]
fn expect_reserved_names_the_token_it_found() {
    let mut lex = Lexer::new(&"(7".to_string()).unwrap();
    assert_eq!(lex.expect_reserved("("), Ok(()));
    let seven: Token = *lex.head().unwrap();
    assert_eq!(seven.get_kind(), TokenKind::Integer(7));
    assert_eq!(lex.expect_reserved(")"), Err(RuccErr::TokenErr("unexpected".to_string(), seven)));
    assert_eq!(lex.position(), 1);
}

#[test]
fn expect_number_names_the_token_it_found() {
    let mut lex = Lexer::new(&"12 +".to_string()).unwrap();
    assert_eq!(lex.expect_number(), Ok(12));
    let plus: Token = *lex.head().unwrap();
    assert_eq!(plus.get_kind(), TokenKind::Reserved("+"));
    assert_eq!(plus.get_point().get_pos(), 3);
    assert_eq!(lex.expect_number(), Err(RuccErr::TokenErr("unexpected".to_string(), plus)));
    assert_eq!(lex.position(), 1);
}

#[test]
fn the_end_is_never_read_past() {
    let mut lex = Lexer::new(&"".to_string()).unwrap();
    assert_eq!(lex.consume_reserved("+"), Ok(false));
    assert!(matches!(lex.expect_number(), Err(RuccErr::TokenErr(_, _))));
    assert!(matches!(lex.expect_reserved(")"), Err(RuccErr::TokenErr(_, _))));
    assert_eq!(lex.position(), 0);
    assert_eq!(lex.tokens().len(), 1);
}

#[test]
fn tokens_and_places_as_text() {
    let lex = Lexer::new(&"12 <= -3".to_string()).unwrap();
    let toks = lex.tokens();
    assert_eq!(toks[0].to_string(), "integer 12 at line: 1 pos: 0");
    assert_eq!(toks[1].to_string(), "symbole <= at line: 1 pos: 3");
    assert_eq!(toks[4].to_string(), "end of file at line: 1 pos: 8");
    assert_eq!(toks[1].get_point().to_string(), "line: 1 pos: 3");
    assert_eq!(toks[1].get_kind().to_string(), "symbole <=");
    assert_eq!(TokenKind::Integer(-2147483648).to_string(), "integer -2147483648");
    assert_eq!(Token::new(TokenKind::Integer(-40), 3, 1234567890).to_string(), "integer -40 at line: 3 pos: 1234567890");
}

#[test]
fn errors_as_text() {
    let e = Lexer::new(&"1 + @".to_string()).unwrap_err();
    assert_eq!(e.to_string(), "unexpected @ at line: 1 pos: 4");
    let mut lex = Lexer::new(&"1+".to_string()).unwrap();
    assert_eq!(lex.expect_number(), Ok(1));
    assert_eq!(lex.expect_reserved("+"), Ok(()));
    let e = lex.expect_number().unwrap_err();
    assert_eq!(e.to_string(), "unexpected end of file at line: 1 pos: 2");
    assert_eq!(RuccErr::InsideErr("inside".to_string()).to_string(), "inside");
}

#[test]
fn the_marker_points_at_the_place() {
    let e = Lexer::new(&"1 + @".to_string()).unwrap_err();
    match e {
        RuccErr::ParseErr(_, p) => assert_eq!(p.marker(), "    ^"),
        other => panic!("{:?}", other),
    }
    let lex = Lexer::new(&"7".to_string()).unwrap();
    assert_eq!(lex.tokens()[0].get_point().marker(), "^");
    assert_eq!(lex.tokens()[1].get_point().marker(), " ^");
}
