use vstd::prelude::*;

use crate::error::CalcError;
use crate::parser::{expr, parse_text, Tree, S};
use crate::token::{kind_of, Lexeme, Token};

verus! {

/// The variant of a value: a number known to be non-negative, a number of either sign,
/// or a measurement with an uncertainty.
#[derive(Debug, Clone, Copy, PartialEq, Eq, Structural)]
pub enum Kind {
    PosNumber,
    Number,
    Measurement,
}

/// The binary arithmetic operators.
#[derive(Debug, Clone, Copy, PartialEq, Eq, Structural)]
pub enum BinaryOp {
    Add,
    Sub,
    Mul,
    Div,
}

/// The variant of `-x` for `x` of variant `k`: a negated number may be negative.
pub open spec fn negated(k: Kind) -> Kind {
    match k {
        Kind::Measurement => Kind::Measurement,
        _ => Kind::Number,
    }
}

/// The variant of `a op b`: a measurement on either side makes a measurement; two
/// non-negative numbers stay non-negative under `+`, `*` and `/`; else a number.
pub open spec fn combined(op: BinaryOp, a: Kind, b: Kind) -> Kind {
    if a == Kind::Measurement || b == Kind::Measurement {
        Kind::Measurement
    } else if a == Kind::PosNumber && b == Kind::PosNumber && op != BinaryOp::Sub {
        Kind::PosNumber
    } else {
        Kind::Number
    }
}

/// The variant of `base ^ exponent`, or the domain error it raises. `base_negative` tells
/// whether a number base is below zero, or whether the lower bound `mean - sigma` of a
/// measurement base is; `exponent_integral` whether a number exponent is an integer.
pub open spec fn power(base: Kind, base_negative: bool, exponent: Kind, exponent_integral: bool) -> Result<
    Kind,
    CalcError,
> {
    match base {
        Kind::PosNumber => if exponent == Kind::Measurement {
            Ok(Kind::Measurement)
        } else {
            Ok(Kind::PosNumber)
        },
        Kind::Number => if base_negative {
            if exponent == Kind::Measurement {
                Err(CalcError::MeasurementPowerOfNegative)
            } else if !exponent_integral {
                Err(CalcError::FractionalPowerOfNegative)
            } else {
                Ok(Kind::Number)
            }
        } else if exponent == Kind::Measurement {
            Ok(Kind::Measurement)
        } else {
            Ok(Kind::Number)
        },
        Kind::Measurement => if base_negative {
            Err(CalcError::BaseStraddlesZero)
        } else {
            Ok(Kind::Measurement)
        },
    }
}

/// The binary operator that a token stands for.
pub open spec fn binary_op_of(t: Lexeme) -> Option<BinaryOp> {
    match t {
        Lexeme::Add => Some(BinaryOp::Add),
        Lexeme::Minus => Some(BinaryOp::Sub),
        Lexeme::Mul => Some(BinaryOp::Mul),
        Lexeme::Div => Some(BinaryOp::Div),
        _ => None,
    }
}

/// The variant of a measurement `mean ± sigma`: the mean must be a number and the sigma
/// a non-negative one.
pub open spec fn measured(mean: Kind, sigma: Kind) -> Result<Kind, CalcError> {
    if mean == Kind::Measurement {
        Err(CalcError::MeanNotANumber)
    } else if sigma != Kind::PosNumber {
        Err(CalcError::NegativeSigma)
    } else {
        Ok(Kind::Measurement)
    }
}

/// The variant of the value that evaluating `t` yields, or the error that stops the
/// evaluation. Operands are evaluated left to right; literals and the constants `e` and
/// `π` are non-negative numbers.
pub open spec fn tree_kind(t: Tree) -> Result<Kind, CalcError>
    decreases t,
{
    match t {
        Tree::Atom(l) => match l {
            Lexeme::Number(_, _) | Lexeme::EulersNum | Lexeme::Pi => Ok(Kind::PosNumber),
            _ => Err(CalcError::UnexpectedToken(kind_of(l))),
        },
        Tree::Group(op, kids) => {
            if !(op is Add || op is Minus || op is Mul || op is Div || op is PlusMinus) {
                Err(CalcError::UnexpectedToken(kind_of(op)))
            } else if op is Minus && kids.len() == 1 {
                match tree_kind(kids[0]) {
                    Ok(k) => Ok(negated(k)),
                    Err(e) => Err(e),
                }
            } else if kids.len() != 2 {
                Err(CalcError::WrongArity(kind_of(op)))
            } else {
                match tree_kind(kids[0]) {
                    Err(e) => Err(e),
                    Ok(a) => match tree_kind(kids[1]) {
                        Err(e) => Err(e),
                        Ok(b) => if op is PlusMinus {
                            measured(a, b)
                        } else {
                            Ok(combined(binary_op_of(op)->0, a, b))
                        },
                    },
                }
            }
        },
    }
}

/// Whether `t` is made of literals and constants with `+`, `*` and `/` alone: no sign
/// change and no measurement can occur in it.
pub open spec fn sign_free(t: Tree) -> bool
    decreases t,
{
    match t {
        Tree::Atom(_) => true,
        Tree::Group(op, kids) => (op is Add || op is Mul || op is Div) && kids.len() == 2
            && sign_free(kids[0]) && sign_free(kids[1]),
    }
}

/// A tree that evaluates to a non-negative number holds no negation, no subtraction and
/// no measurement.
pub proof fn lemma_pos_number_sign_free(t: Tree)
    ensures
        tree_kind(t) == Ok::<Kind, CalcError>(Kind::PosNumber) ==> sign_free(t),
    decreases t,
{
    if let Tree::Group(op, kids) = t {
        if kids.len() == 2 {
            lemma_pos_number_sign_free(kids[0]);
            lemma_pos_number_sign_free(kids[1]);
        }
    }
}

/// The sigma of every measurement that `±` builds is a non-negative number: it is made
/// without negation, subtraction or measurement; so a negated sigma is always rejected.
pub proof fn lemma_sigma_non_negative(mean: Tree, sigma: Tree)
    ensures
        tree_kind(Tree::Group(Lexeme::PlusMinus, seq![mean, sigma])) is Ok ==> tree_kind(sigma)
            == Ok::<Kind, CalcError>(Kind::PosNumber) && sign_free(sigma),
        tree_kind(mean) is Ok ==> tree_kind(
            Tree::Group(
                Lexeme::PlusMinus,
                seq![mean, Tree::Group(Lexeme::Minus, seq![sigma])],
            ),
        ) is Err,
{
    lemma_pos_number_sign_free(sigma);
    let negative = Tree::Group(Lexeme::Minus, seq![sigma]);
    assert(seq![sigma][0] == sigma);
    assert(tree_kind(negative) is Err || tree_kind(negative)->Ok_0 != Kind::PosNumber);
    let whole = Tree::Group(Lexeme::PlusMinus, seq![mean, negative]);
    assert(seq![mean, negative][0] == mean);
    assert(seq![mean, negative][1] == negative);
    assert(tree_kind(mean) is Ok ==> tree_kind(whole) is Err);
}

/// The variant of the value of an expression's text, or why it cannot be evaluated.
pub open spec fn text_kind(cs: Seq<char>) -> Result<Kind, CalcError> {
    match parse_text(cs) {
        Ok(t) => tree_kind(t),
        Err(e) => Err(e),
    }
}

/// Parses `text` and finds the variant of its value, or the lexical, syntax or domain
/// error that evaluating it raises.
pub fn check(text: &str) -> (r: Result<(S, Kind), CalcError>)
    ensures
        match text_kind(text@) {
            Ok(k) => r is Ok && r->Ok_0.0@ == parse_text(text@)->Ok_0 && r->Ok_0.1 == k,
            Err(e) => r == Err::<(S, Kind), CalcError>(e),
        },
{
    let s = match expr(text) {
        Ok(s) => s,
        Err(e) => {
            return Err(e);
        },
    };
    match result_kind(&s) {
        Ok(k) => Ok((s, k)),
        Err(e) => Err(e),
    }
}

/// The variant of `-x`.
pub fn neg_kind(k: Kind) -> (r: Kind)
    ensures
        r == negated(k),
{
    match k {
        Kind::Measurement => Kind::Measurement,
        _ => Kind::Number,
    }
}

/// The variant of `a op b`.
pub fn binary_kind(op: BinaryOp, a: Kind, b: Kind) -> (r: Kind)
    ensures
        r == combined(op, a, b),
{
    match (a, b) {
        (Kind::Measurement, _) | (_, Kind::Measurement) => Kind::Measurement,
        (Kind::PosNumber, Kind::PosNumber) => match op {
            BinaryOp::Sub => Kind::Number,
            _ => Kind::PosNumber,
        },
        _ => Kind::Number,
    }
}

/// The variant of `mean ± sigma`, or why it cannot be built.
pub fn measurement_kind(mean: Kind, sigma: Kind) -> (r: Result<Kind, CalcError>)
    ensures
        r == measured(mean, sigma),
{
    match mean {
        Kind::Measurement => Err(CalcError::MeanNotANumber),
        _ => match sigma {
            Kind::PosNumber => Ok(Kind::Measurement),
            _ => Err(CalcError::NegativeSigma),
        },
    }
}

/// The variant of `base ^ exponent`, or the domain error it raises.
pub fn pow_kind(base: Kind, base_negative: bool, exponent: Kind, exponent_integral: bool) -> (r:
    Result<Kind, CalcError>)
    ensures
        r == power(base, base_negative, exponent, exponent_integral),
{
    match base {
        Kind::PosNumber => match exponent {
            Kind::Measurement => Ok(Kind::Measurement),
            _ => Ok(Kind::PosNumber),
        },
        Kind::Number => {
            if base_negative {
                match exponent {
                    Kind::Measurement => Err(CalcError::MeasurementPowerOfNegative),
                    _ => {
                        if exponent_integral {
                            Ok(Kind::Number)
                        } else {
                            Err(CalcError::FractionalPowerOfNegative)
                        }
                    },
                }
            } else {
                match exponent {
                    Kind::Measurement => Ok(Kind::Measurement),
                    _ => Ok(Kind::Number),
                }
            }
        },
        Kind::Measurement => {
            if base_negative {
                Err(CalcError::BaseStraddlesZero)
            } else {
                Ok(Kind::Measurement)
            }
        },
    }
}

/// The binary operator that `t` stands for, if any.
pub fn binary_op(t: &Token) -> (r: Option<BinaryOp>)
    ensures
        r == binary_op_of(t@),
{
    match t {
        Token::Add => Some(BinaryOp::Add),
        Token::Minus => Some(BinaryOp::Sub),
        Token::Mul => Some(BinaryOp::Mul),
        Token::Div => Some(BinaryOp::Div),
        _ => None,
    }
}

/// The variant of the value of `s`, or the error that evaluating it raises.
pub fn result_kind(s: &S) -> (r: Result<Kind, CalcError>)
    ensures
        r == tree_kind(s@),
    decreases s,
{
    match s {
        S::Atom(t) => match t {
            Token::PosNum(_) | Token::EulersNum | Token::Pi => Ok(Kind::PosNumber),
            _ => Err(CalcError::UnexpectedToken(t.kind())),
        },
        S::Group(op, kids) => {
            proof {
                crate::parser::lemma_tree_of_group(*op, *kids);
            }
            match op {
                Token::Add | Token::Minus | Token::Mul | Token::Div | Token::PlusMinus => {},
                _ => {
                    return Err(CalcError::UnexpectedToken(op.kind()));
                },
            }
            if kids.len() == 1 {
                if let Token::Minus = op {
                    proof {
                        assert(decreases_to!(*s => s->Group_1));
                        assert(decreases_to!(*kids => kids[0]));
                    }
                    return match result_kind(&kids[0]) {
                        Ok(k) => Ok(neg_kind(k)),
                        Err(e) => Err(e),
                    };
                }
            }
            if kids.len() != 2 {
                return Err(CalcError::WrongArity(op.kind()));
            }
            proof {
                assert(decreases_to!(*s => s->Group_1));
                assert(decreases_to!(*kids => kids[0]));
                assert(decreases_to!(*kids => kids[1]));
            }
            let a = match result_kind(&kids[0]) {
                Ok(k) => k,
                Err(e) => {
                    return Err(e);
                },
            };
            let b = match result_kind(&kids[1]) {
                Ok(k) => k,
                Err(e) => {
                    return Err(e);
                },
            };
            match binary_op(op) {
                Some(o) => Ok(binary_kind(o, a, b)),
                None => measurement_kind(a, b),
            }
        },
    }
}

} // verus!
