use scicalc_rs::decimal::DecimalNumber;
use scicalc_rs::error::{CalcError, ErrorKind};
use scicalc_rs::lexer::Lexer;
use scicalc_rs::token::{Token, TokenKind};

fn num_eq(_x: &str, _y: Token) {
    let x = DecimalNumber::new(_x);
    let y = match _y {
        Token::PosNum(val) => val,
        _ => DecimalNumber::new("0"),
    };

    assert_eq!(x, y)
}

#[test]
fn test_simple_number() {
    let mut lex = Lexer::new("12").unwrap();
    let token = lex.next();
    num_eq("12", token);
    assert_eq!(Token::Eof, lex.next());
}

#[test]
fn test_simple_addition() {
    let mut lex = Lexer::new("2 + 3").unwrap();
    num_eq("2", lex.next());
    assert_eq!(Token::Add, lex.next());
    num_eq("3", lex.next());
    assert_eq!(Token::Eof, lex.next());
}

#[test]
fn test_simple_plus_minus() {
    let mut lex = Lexer::new("2.3 ± 3.3").unwrap();
    num_eq("2.3", lex.next());
    assert_eq!(Token::PlusMinus, lex.next());
    num_eq("3.3", lex.next());
    assert_eq!(Token::Eof, lex.next());
}

#[test]
fn test_digraph_plus_minus() {
    let mut lex = Lexer::new("2.3 +- 3.3").unwrap();
    num_eq("2.3", lex.next());
    assert_eq!(Token::PlusMinus, lex.next());
    num_eq("3.3", lex.next());
    assert_eq!(Token::Eof, lex.next());
}

#[test]
fn test_parenthesis() {
    let mut lex = Lexer::new("(2 + 3) - 5").unwrap();
    assert_eq!(Token::LeftParen, lex.next());
    num_eq("2", lex.next());
    assert_eq!(Token::Add, lex.next());
    num_eq("3", lex.next());
    assert_eq!(Token::RightParen, lex.next());
    assert_eq!(Token::Minus, lex.next());
    num_eq("5", lex.next());
    assert_eq!(Token::Eof, lex.next());
}

#[test]
fn test_float_1() {
    let mut lex = Lexer::new("13.095").unwrap();
    num_eq("13.095", lex.next());
    assert_eq!(Token::Eof, lex.next());
}

#[test]
fn test_float_2() {
    let mut lex = Lexer::new("0.095").unwrap();
    num_eq("0.095", lex.next());
    assert_eq!(Token::Eof, lex.next());
}

#[test]
fn test_float_3() {
    let mut lex = Lexer::new(".095").unwrap();
    num_eq("0.095", lex.next());
    assert_eq!(Token::Eof, lex.next());
}

#[test]
fn test_float_4() {
    assert_eq!(Err(CalcError::TrailingPeriod), Lexer::new("23.").map(|_| ()));
}

#[test]
fn test_float_5() {
    assert_eq!(Err(CalcError::TrailingPeriod), Lexer::new(".").map(|_| ()));
}

#[test]
fn test_float_6() {
    assert_eq!(Err(CalcError::TrailingPeriod), Lexer::new("2 + 5 - 33.").map(|_| ()));
}

#[test]
fn test_eulers_num() {
    let mut lex = Lexer::new("e").unwrap();
    assert_eq!(Token::EulersNum, lex.next());
    assert_eq!(Token::Eof, lex.next());
}

#[test]
fn test_pi() {
    let mut lex = Lexer::new("π").unwrap();
    assert_eq!(Token::Pi, lex.next());
    assert_eq!(Token::Eof, lex.next());
}

#[test]
fn test_eof() {
    let mut lex = Lexer::new("").unwrap();
    assert_eq!(Token::Eof, lex.next());
}

#[test]
fn eof_is_handed_out_once_then_repeats() {
    let mut lex = Lexer::new("1 * 2").unwrap();
    let mut kinds = Vec::new();
    loop {
        let t = lex.next();
        let k = t.kind();
        kinds.push(k);
        if k == TokenKind::Eof {
            break;
        }
    }
    assert_eq!(
        vec![TokenKind::PosNum, TokenKind::Mul, TokenKind::PosNum, TokenKind::Eof],
        kinds
    );
    assert_eq!(Token::Eof, lex.next());
    assert_eq!(Token::Eof, lex.peek());
}

#[test]
fn rescanning_gives_the_same_tokens() {
    let text = "(1.5 +- .2) * e / π - 3";
    let mut a = Lexer::new(text).unwrap();
    let mut b = Lexer::new(text).unwrap();
    loop {
        let x = a.next();
        let y = b.next();
        assert_eq!(x, y);
        if x == Token::Eof {
            break;
        }
    }
}

#[test]
fn peek_does_not_consume() {
    let mut lex = Lexer::new("- 7").unwrap();
    assert_eq!(Token::Minus, lex.peek());
    assert_eq!(Token::Minus, lex.peek());
    assert_eq!(Token::Minus, lex.next());
    num_eq("7", lex.peek());
}

#[test]
fn plus_alone_is_addition() {
    let mut lex = Lexer::new("1+2+").unwrap();
    num_eq("1", lex.next());
    assert_eq!(Token::Add, lex.next());
    num_eq("2", lex.next());
    assert_eq!(Token::Add, lex.next());
    assert_eq!(Token::Eof, lex.next());
}

#[test]
fn second_period_starts_a_new_literal() {
    let mut lex = Lexer::new("1.2.3").unwrap();
    num_eq("1.2", lex.next());
    num_eq("0.3", lex.next());
    assert_eq!(Token::Eof, lex.next());
}

#[test]
fn whitespace_of_all_kinds_is_skipped() {
    let mut lex = Lexer::new(" \t4\n").unwrap();
    num_eq("4", lex.next());
    assert_eq!(Token::Eof, lex.next());
}

#[test]
fn unexpected_character_is_a_lexical_error() {
    let e = Lexer::new("2 ^ 3").map(|_| ()).unwrap_err();
    assert_eq!(CalcError::UnexpectedCharacter('^'), e);
    assert_eq!(ErrorKind::Lexical, e.kind());
    assert_eq!(ErrorKind::Lexical, CalcError::TrailingPeriod.kind());
}

#[test]
fn token_text() {
    assert_eq!("±", Token::PlusMinus.text());
    assert_eq!("π", Token::Pi.text());
    assert_eq!("EOF", Token::Eof.text());
    assert_eq!("0.5", Token::PosNum(DecimalNumber::new(".5")).text());
    let t = Token::PosNum(DecimalNumber::new("8.25"));
    assert_eq!(t, t.duplicate());
}
