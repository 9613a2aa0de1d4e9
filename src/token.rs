use vstd::prelude::*;

use crate::decimal::{full_text, DecimalNumber};

verus! {

/// The lexical units of an expression.
#[derive(Debug, Clone)]
pub enum Token {
    /// A non-negative numeric literal.
    PosNum(DecimalNumber),
    /// Euler's number, written `e`.
    EulersNum,
    /// Pi, written `π`.
    Pi,
    /// The measurement separator `±` (also written `+-`).
    PlusMinus,
    Add,
    /// Subtraction, or negation in prefix position.
    Minus,
    Mul,
    Div,
    LeftParen,
    RightParen,
    /// The end of the input.
    Eof,
}

/// Which kind of token a token is, without the digits of a literal.
#[derive(Debug, Clone, Copy, PartialEq, Eq, Structural)]
pub enum TokenKind {
    PosNum,
    EulersNum,
    Pi,
    PlusMinus,
    Add,
    Minus,
    Mul,
    Div,
    LeftParen,
    RightParen,
    Eof,
}

/// A token as a mathematical value: a literal is the text of its two parts.
pub enum Lexeme {
    Number(Seq<char>, Seq<char>),
    EulersNum,
    Pi,
    PlusMinus,
    Add,
    Minus,
    Mul,
    Div,
    LeftParen,
    RightParen,
    Eof,
}

pub open spec fn kind_of(t: Lexeme) -> TokenKind {
    match t {
        Lexeme::Number(_, _) => TokenKind::PosNum,
        Lexeme::EulersNum => TokenKind::EulersNum,
        Lexeme::Pi => TokenKind::Pi,
        Lexeme::PlusMinus => TokenKind::PlusMinus,
        Lexeme::Add => TokenKind::Add,
        Lexeme::Minus => TokenKind::Minus,
        Lexeme::Mul => TokenKind::Mul,
        Lexeme::Div => TokenKind::Div,
        Lexeme::LeftParen => TokenKind::LeftParen,
        Lexeme::RightParen => TokenKind::RightParen,
        Lexeme::Eof => TokenKind::Eof,
    }
}

/// How a token is written.
pub open spec fn lexeme_text(t: Lexeme) -> Seq<char> {
    match t {
        Lexeme::Number(i, f) => full_text(i, f),
        Lexeme::EulersNum => seq!['e'],
        Lexeme::Pi => seq!['π'],
        Lexeme::PlusMinus => seq!['±'],
        Lexeme::Add => seq!['+'],
        Lexeme::Minus => seq!['-'],
        Lexeme::Mul => seq!['*'],
        Lexeme::Div => seq!['/'],
        Lexeme::LeftParen => seq!['('],
        Lexeme::RightParen => seq![')'],
        Lexeme::Eof => seq!['E', 'O', 'F'],
    }
}

impl View for Token {
    type V = Lexeme;

    open spec fn view(&self) -> Lexeme {
        match self {
            Token::PosNum(d) => Lexeme::Number(d.integral@, d.fractional@),
            Token::EulersNum => Lexeme::EulersNum,
            Token::Pi => Lexeme::Pi,
            Token::PlusMinus => Lexeme::PlusMinus,
            Token::Add => Lexeme::Add,
            Token::Minus => Lexeme::Minus,
            Token::Mul => Lexeme::Mul,
            Token::Div => Lexeme::Div,
            Token::LeftParen => Lexeme::LeftParen,
            Token::RightParen => Lexeme::RightParen,
            Token::Eof => Lexeme::Eof,
        }
    }
}

impl PartialEq for Token {
    fn eq(&self, other: &Token) -> (r: bool) {
        match (self, other) {
            (Token::PosNum(a), Token::PosNum(b)) => a == b,
            _ => self.kind() == other.kind() && !matches!(self, Token::PosNum(_)),
        }
    }
}

impl vstd::std_specs::cmp::PartialEqSpecImpl for Token {
    open spec fn obeys_eq_spec() -> bool {
        true
    }

    open spec fn eq_spec(&self, other: &Token) -> bool {
        self@ == other@
    }
}

impl Token {
    pub fn kind(&self) -> (r: TokenKind)
        ensures
            r == kind_of(self@),
    {
        match self {
            Token::PosNum(_) => TokenKind::PosNum,
            Token::EulersNum => TokenKind::EulersNum,
            Token::Pi => TokenKind::Pi,
            Token::PlusMinus => TokenKind::PlusMinus,
            Token::Add => TokenKind::Add,
            Token::Minus => TokenKind::Minus,
            Token::Mul => TokenKind::Mul,
            Token::Div => TokenKind::Div,
            Token::LeftParen => TokenKind::LeftParen,
            Token::RightParen => TokenKind::RightParen,
            Token::Eof => TokenKind::Eof,
        }
    }

    /// A copy of the token.
    pub fn duplicate(&self) -> (r: Token)
        ensures
            r@ == self@,
    {
        match self {
            Token::PosNum(d) => Token::PosNum(
                DecimalNumber { integral: d.integral.clone(), fractional: d.fractional.clone() },
            ),
            Token::EulersNum => Token::EulersNum,
            Token::Pi => Token::Pi,
            Token::PlusMinus => Token::PlusMinus,
            Token::Add => Token::Add,
            Token::Minus => Token::Minus,
            Token::Mul => Token::Mul,
            Token::Div => Token::Div,
            Token::LeftParen => Token::LeftParen,
            Token::RightParen => Token::RightParen,
            Token::Eof => Token::Eof,
        }
    }

    /// How the token is written.
    pub fn text(&self) -> (r: String)
        ensures
            r@ == lexeme_text(self@),
    {
        let s = match self {
            Token::PosNum(d) => {
                return d.full_number();
            },
            Token::EulersNum => "e",
            Token::Pi => "π",
            Token::PlusMinus => "±",
            Token::Add => "+",
            Token::Minus => "-",
            Token::Mul => "*",
            Token::Div => "/",
            Token::LeftParen => "(",
            Token::RightParen => ")",
            Token::Eof => "EOF",
        };
        proof {
            reveal_strlit("e");
            reveal_strlit("π");
            reveal_strlit("±");
            reveal_strlit("+");
            reveal_strlit("-");
            reveal_strlit("*");
            reveal_strlit("/");
            reveal_strlit("(");
            reveal_strlit(")");
            reveal_strlit("EOF");
        }
        let r = s.to_owned();
        assert(r@ =~= lexeme_text(self@));
        r
    }
}

} // verus!
