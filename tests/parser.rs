use scicalc_rs::error::{CalcError, ErrorKind};
use scicalc_rs::parser::expr;
use scicalc_rs::token::TokenKind;

#[test]
fn tests() {
    let s = expr("1 + 2 * 3").unwrap();
    assert_eq!(s.to_string(), "(+ 1 (* 2 3))");
    let s = expr("--1 * 2").unwrap();
    assert_eq!(s.to_string(), "(* (- (- 1)) 2)");
    let s = expr("(((0)))").unwrap();
    assert_eq!(s.to_string(), "0");
    let s = expr("1 ± 2 * 3").unwrap();
    assert_eq!(s.to_string(), "(* (± 1 2) 3)");
}

#[test]
fn test_negative() {
    let s = expr("-1.0 ± 2.0").unwrap();
    assert_eq!(s.to_string(), "(± (- 1.0) 2.0)");
}

#[test]
fn test_valid_parenthesis() {
    let s = expr("(-1.0) ± 2.0").unwrap();
    assert_eq!(s.to_string(), "(± (- 1.0) 2.0)")
}

#[test]
fn test_wrong_parenthesis() {
    assert!(expr("-1.0 (± 2.0").is_err());
}

#[test]
fn misplaced_left_paren_is_its_own_error() {
    let e = expr("-1.0 (± 2.0").unwrap_err();
    assert_eq!(CalcError::ExcessLeftParen, e);
    assert_eq!(ErrorKind::Syntax, e.kind());
}

#[test]
fn missing_right_paren() {
    assert_eq!(CalcError::MissingRightParen, expr("(1 + 2").unwrap_err());
}

#[test]
fn excess_right_paren() {
    assert_eq!(CalcError::ExcessRightParen, expr("1 + 2)").unwrap_err());
}

#[test]
fn operator_without_operand() {
    assert_eq!(CalcError::UnexpectedToken(TokenKind::Eof), expr("1 +").unwrap_err());
    assert_eq!(CalcError::UnexpectedToken(TokenKind::Mul), expr("* 2").unwrap_err());
    assert_eq!(CalcError::UnexpectedToken(TokenKind::Eof), expr("").unwrap_err());
}

#[test]
fn adjacent_operands() {
    assert_eq!(CalcError::UnexpectedToken(TokenKind::PosNum), expr("1 2").unwrap_err());
    assert_eq!(CalcError::UnexpectedToken(TokenKind::Pi), expr("2 π").unwrap_err());
}

#[test]
fn lexical_errors_pass_through_the_parser() {
    assert_eq!(CalcError::TrailingPeriod, expr("1 + 23.").unwrap_err());
    assert_eq!(CalcError::UnexpectedCharacter('x'), expr("x").unwrap_err());
}

#[test]
fn operators_of_equal_power_group_left() {
    assert_eq!(expr("1 - 2 - 3").unwrap().to_string(), "(- (- 1 2) 3)");
    assert_eq!(expr("8 / 4 * 2").unwrap().to_string(), "(* (/ 8 4) 2)");
    assert_eq!(expr("1 ± 2 ± 3").unwrap().to_string(), "(± (± 1 2) 3)");
}

#[test]
fn negation_binds_tighter_than_plus_minus() {
    assert_eq!(expr("-e ± π").unwrap().to_string(), "(± (- e) π)");
    assert_eq!(expr("2 * -3").unwrap().to_string(), "(* 2 (- 3))");
}

#[test]
fn parentheses_override_power() {
    assert_eq!(expr("(1 + 2) * 3").unwrap().to_string(), "(* (+ 1 2) 3)");
    assert_eq!(expr("1.0 +- (0.1 + 0.2)").unwrap().to_string(), "(± 1.0 (+ 0.1 0.2))");
}

#[test]
fn canonical_form_parses_back_to_the_same_tree() {
    let s = expr("1 - 2 * -3 ± .5 / e").unwrap();
    let again = expr(&s.canonical()).unwrap();
    assert_eq!(s.to_string(), again.to_string());
    assert_eq!(s.canonical(), again.canonical());
}

#[test]
fn canonical_form_text() {
    assert_eq!(expr("1 + 2 * 3").unwrap().canonical(), "( 1 + ( 2 * 3 ) ) ");
    assert_eq!(expr("--.5").unwrap().canonical(), "( - ( - 0.5 ) ) ");
    assert_eq!(expr("(((0)))").unwrap().canonical(), "0 ");
    assert_eq!(expr("1 +- 2").unwrap().canonical(), "( 1 ± 2 ) ");
}
