use vstd::prelude::*;

use crate::token::TokenKind;

verus! {

/// The three categories of failure.
#[derive(Debug, Clone, Copy, PartialEq, Eq, Structural)]
pub enum ErrorKind {
    /// The text holds something that is not a token.
    Lexical,
    /// The tokens do not form an expression.
    Syntax,
    /// The expression is well formed but cannot be evaluated.
    Domain,
}

/// Why an expression could not be tokenized, parsed or evaluated.
#[derive(Debug, Clone, Copy, PartialEq, Eq, Structural)]
pub enum CalcError {
    /// A character that starts no token.
    UnexpectedCharacter(char),
    /// A numeric literal that ends in a period, such as `23.`.
    TrailingPeriod,
    /// A token where an operand or an operator was expected.
    UnexpectedToken(TokenKind),
    /// A `(` whose `)` is missing.
    MissingRightParen,
    /// A `(` right after an operand.
    ExcessLeftParen,
    /// A `)` that closes nothing.
    ExcessRightParen,
    /// An operator node with a number of operands that the operator does not take.
    WrongArity(TokenKind),
    /// The left operand of `±` is a measurement.
    MeanNotANumber,
    /// The right operand of `±` is not a non-negative number.
    NegativeSigma,
    /// A negative base raised to a power that is not an integer.
    FractionalPowerOfNegative,
    /// A negative base raised to a measurement.
    MeasurementPowerOfNegative,
    /// A measurement base whose lower bound `mean - sigma` is negative.
    BaseStraddlesZero,
}

pub open spec fn category(e: CalcError) -> ErrorKind {
    match e {
        CalcError::UnexpectedCharacter(_) | CalcError::TrailingPeriod => ErrorKind::Lexical,
        CalcError::UnexpectedToken(_) | CalcError::MissingRightParen | CalcError::ExcessLeftParen
        | CalcError::ExcessRightParen | CalcError::WrongArity(_) => ErrorKind::Syntax,
        _ => ErrorKind::Domain,
    }
}

impl CalcError {
    /// The category of the error.
    pub fn kind(&self) -> (r: ErrorKind)
        ensures
            r == category(*self),
    {
        match self {
            CalcError::UnexpectedCharacter(_) | CalcError::TrailingPeriod => ErrorKind::Lexical,
            CalcError::UnexpectedToken(_) | CalcError::MissingRightParen | CalcError::ExcessLeftParen
            | CalcError::ExcessRightParen | CalcError::WrongArity(_) => ErrorKind::Syntax,
            _ => ErrorKind::Domain,
        }
    }
}

} // verus!
