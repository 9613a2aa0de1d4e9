use scicalc_rs::error::{CalcError, ErrorKind};
use scicalc_rs::value::{binary_kind, check, measurement_kind, neg_kind, pow_kind, BinaryOp, Kind};
use scicalc_rs::value::Kind::{Measurement, Number, PosNumber};

fn kind(text: &str) -> Result<Kind, CalcError> {
    check(text).map(|(_, k)| k)
}

#[test]
fn sum_of_literals_is_a_positive_number() {
    let (s, k) = check("1 + 2").unwrap();
    assert_eq!(s.to_string(), "(+ 1 2)");
    assert_eq!(Kind::PosNumber, k);
}

#[test]
fn plus_minus_builds_a_measurement() {
    let (s, k) = check("1.0 ± 2.0").unwrap();
    assert_eq!(s.to_string(), "(± 1.0 2.0)");
    assert_eq!(Kind::Measurement, k);
    assert_eq!(Ok(Kind::Measurement), kind("1.0 ± 0.01 + 1.7 ± 0.02"));
    assert_eq!(Ok(Kind::Measurement), kind("1.0 ± 0.01 / 1.7 ± 0.02"));
    assert_eq!(Ok(Kind::Measurement), kind("1.0 ± 0.01 * 1.7 ± 0.02"));
}

#[test]
fn negative_sigma_is_rejected() {
    let e = kind("2.0 ± -1.0").unwrap_err();
    assert_eq!(CalcError::NegativeSigma, e);
    assert_eq!(ErrorKind::Domain, e.kind());
    assert_eq!(Err(CalcError::NegativeSigma), kind("2.0 ± (1 - 3)"));
    assert_eq!(Err(CalcError::NegativeSigma), kind("2.0 ± --1"));
}

#[test]
fn measurement_cannot_be_a_mean() {
    assert_eq!(Err(CalcError::MeanNotANumber), kind("(1 ± 2) ± 3"));
}

#[test]
fn negative_mean_is_allowed() {
    assert_eq!(Ok(Kind::Measurement), kind("-1.0 ± 2.0"));
    assert_eq!(Ok(Kind::Measurement), kind("e ± π"));
}

#[test]
fn subtraction_and_negation_give_signed_numbers() {
    assert_eq!(Ok(Kind::Number), kind("3 - 1"));
    assert_eq!(Ok(Kind::Number), kind("-3"));
    assert_eq!(Ok(Kind::Number), kind("-3 * 2"));
    assert_eq!(Ok(Kind::PosNumber), kind("3 / 2 * e"));
}

#[test]
fn errors_before_evaluation_come_first() {
    assert_eq!(Err(CalcError::ExcessLeftParen), kind("-1.0 (± 2.0"));
    assert_eq!(Err(CalcError::TrailingPeriod), kind("23."));
}

#[test]
fn coercion_lattice() {
    assert_eq!(PosNumber, binary_kind(BinaryOp::Add, PosNumber, PosNumber));
    assert_eq!(PosNumber, binary_kind(BinaryOp::Mul, PosNumber, PosNumber));
    assert_eq!(PosNumber, binary_kind(BinaryOp::Div, PosNumber, PosNumber));
    assert_eq!(Number, binary_kind(BinaryOp::Sub, PosNumber, PosNumber));
    assert_eq!(Number, binary_kind(BinaryOp::Add, PosNumber, Number));
    assert_eq!(Number, binary_kind(BinaryOp::Div, Number, Number));
    assert_eq!(Measurement, binary_kind(BinaryOp::Div, PosNumber, Measurement));
    assert_eq!(Measurement, binary_kind(BinaryOp::Sub, Measurement, Number));
    assert_eq!(Number, neg_kind(PosNumber));
    assert_eq!(Number, neg_kind(Number));
    assert_eq!(Measurement, neg_kind(Measurement));
    assert_eq!(Ok(Measurement), measurement_kind(Number, PosNumber));
    assert_eq!(Err(CalcError::NegativeSigma), measurement_kind(PosNumber, Number));
}

#[test]
fn power_domain() {
    assert_eq!(Ok(PosNumber), pow_kind(PosNumber, false, Number, false));
    assert_eq!(Ok(Measurement), pow_kind(PosNumber, false, Measurement, false));
    assert_eq!(Ok(Number), pow_kind(Number, false, PosNumber, false));
    assert_eq!(Ok(Number), pow_kind(Number, true, PosNumber, true));
    assert_eq!(Err(CalcError::FractionalPowerOfNegative), pow_kind(Number, true, PosNumber, false));
    assert_eq!(Err(CalcError::MeasurementPowerOfNegative), pow_kind(Number, true, Measurement, true));
    assert_eq!(Ok(Measurement), pow_kind(Measurement, false, PosNumber, false));
    let e = pow_kind(Measurement, true, PosNumber, false).unwrap_err();
    assert_eq!(CalcError::BaseStraddlesZero, e);
    assert_eq!(ErrorKind::Domain, e.kind());
}

#[test]
fn power_operator_is_not_in_the_grammar() {
    assert_eq!(Err(CalcError::UnexpectedCharacter('^')), kind("(-1.0 ± 0.1)^2.1"));
}
