use vstd::prelude::*;

use crate::decimal::{
    chars_of, fractional_part, full_text, index_of, integral_part, lemma_index_of,
    lemma_index_of_bound, DecimalNumber,
};
use crate::error::CalcError;
use crate::token::{lexeme_text, Lexeme, Token};

verus! {

pub open spec fn is_digit(c: char) -> bool {
    '0' <= c && c <= '9'
}

pub open spec fn is_space(c: char) -> bool {
    c == ' ' || c == '\t' || c == '\n'
}

/// The token that a character stands for on its own (`+` aside: it may start `+-`).
pub open spec fn symbol(c: char) -> Option<Lexeme> {
    if c == '-' {
        Some(Lexeme::Minus)
    } else if c == '*' {
        Some(Lexeme::Mul)
    } else if c == '/' {
        Some(Lexeme::Div)
    } else if c == '±' {
        Some(Lexeme::PlusMinus)
    } else if c == 'e' {
        Some(Lexeme::EulersNum)
    } else if c == 'π' {
        Some(Lexeme::Pi)
    } else if c == '(' {
        Some(Lexeme::LeftParen)
    } else if c == ')' {
        Some(Lexeme::RightParen)
    } else {
        None
    }
}

pub open spec fn prepend(t: Lexeme, r: Result<Seq<Lexeme>, CalcError>) -> Result<
    Seq<Lexeme>,
    CalcError,
> {
    match r {
        Ok(ts) => Ok(seq![t] + ts),
        Err(e) => Err(e),
    }
}

pub open spec fn prepend_all(done: Seq<Lexeme>, r: Result<Seq<Lexeme>, CalcError>) -> Result<
    Seq<Lexeme>,
    CalcError,
> {
    match r {
        Ok(ts) => Ok(done + ts),
        Err(e) => Err(e),
    }
}

pub open spec fn views(ts: Seq<Token>) -> Seq<Lexeme> {
    ts.map_values(|t: Token| t@)
}

/// The tokens of `cs`, ended by `Eof`, or the lexical error that stops the scan.
pub open spec fn tokens_of(cs: Seq<char>) -> Result<Seq<Lexeme>, CalcError>
    decreases cs.len(), 0nat,
{
    if cs.len() == 0 {
        Ok(seq![Lexeme::Eof])
    } else {
        let c = cs[0];
        if is_space(c) {
            tokens_of(cs.drop_first())
        } else if c == '+' {
            if cs.len() > 1 && cs[1] == '-' {
                prepend(Lexeme::PlusMinus, tokens_of(cs.drop_first().drop_first()))
            } else {
                prepend(Lexeme::Add, tokens_of(cs.drop_first()))
            }
        } else if symbol(c) is Some {
            prepend(symbol(c)->0, tokens_of(cs.drop_first()))
        } else if is_digit(c) || c == '.' {
            literal_then(cs.drop_first(), seq![c], c == '.')
        } else {
            Err(CalcError::UnexpectedCharacter(c))
        }
    }
}

/// Goes on with a numeric literal whose text so far is `lit`: it takes digits, and one
/// period while `seen_period` is false; a literal that ends in a period is an error.
pub open spec fn literal_then(cs: Seq<char>, lit: Seq<char>, seen_period: bool) -> Result<
    Seq<Lexeme>,
    CalcError,
>
    decreases cs.len(), 1nat,
{
    if cs.len() > 0 && is_digit(cs[0]) {
        literal_then(cs.drop_first(), lit.push(cs[0]), seen_period)
    } else if cs.len() > 0 && cs[0] == '.' && !seen_period {
        literal_then(cs.drop_first(), lit.push('.'), true)
    } else if lit.len() > 0 && lit.last() == '.' {
        Err(CalcError::TrailingPeriod)
    } else {
        prepend(Lexeme::Number(integral_part(lit), fractional_part(lit)), tokens_of(cs))
    }
}

pub open spec fn all_digits(s: Seq<char>) -> bool {
    forall|i: int| 0 <= i < s.len() ==> is_digit(#[trigger] s[i])
}

/// Whether a token can be written and scanned back: a literal has a non-empty integral
/// part and both parts are digits; `Eof` is never written.
pub open spec fn scannable(t: Lexeme) -> bool {
    match t {
        Lexeme::Number(i, f) => i.len() > 0 && all_digits(i) && all_digits(f),
        Lexeme::Eof => false,
        _ => true,
    }
}

/// The text of a token sequence: each token followed by a space.
pub open spec fn render(ts: Seq<Lexeme>) -> Seq<char>
    decreases ts.len(),
{
    if ts.len() == 0 {
        Seq::empty()
    } else {
        lexeme_text(ts[0]) + seq![' '] + render(ts.drop_first())
    }
}

proof fn lemma_literal_digits(d: Seq<char>, rest: Seq<char>, lit: Seq<char>, seen_period: bool)
    requires
        all_digits(d),
    ensures
        literal_then(d + rest, lit, seen_period) == literal_then(rest, lit + d, seen_period),
    decreases d.len(),
{
    if d.len() == 0 {
        assert(d + rest =~= rest);
        assert(lit + d =~= lit);
    } else {
        assert((d + rest)[0] == d[0]);
        assert((d + rest).drop_first() =~= d.drop_first() + rest);
        assert(lit + d =~= lit.push(d[0]) + d.drop_first());
        lemma_literal_digits(d.drop_first(), rest, lit.push(d[0]), seen_period);
    }
}

proof fn lemma_rescan_number(i: Seq<char>, f: Seq<char>, rest: Seq<char>)
    requires
        scannable(Lexeme::Number(i, f)),
    ensures
        tokens_of(full_text(i, f) + seq![' '] + rest) == prepend(
            Lexeme::Number(i, f),
            tokens_of(rest),
        ),
{
    let cs = full_text(i, f) + seq![' '] + rest;
    let space = seq![' '] + rest;
    assert(space.drop_first() =~= rest);
    assert(tokens_of(space) == tokens_of(rest));
    assert(cs[0] == i[0]);
    let c = i[0];
    assert(is_digit(c));
    assert(seq![c] + i.drop_first() =~= i);
    if f.len() == 0 {
        assert(cs.drop_first() =~= i.drop_first() + space);
        lemma_literal_digits(i.drop_first(), space, seq![c], false);
        assert(tokens_of(cs) == literal_then(cs.drop_first(), seq![c], false));
        assert(space[0] == ' ');
        assert(i.last() == i[i.len() - 1]);
        assert(is_digit(i.last()));
        assert(literal_then(space, i, false) == prepend(
            Lexeme::Number(integral_part(i), fractional_part(i)),
            tokens_of(space),
        ));
        assert forall|j: int| 0 <= j < i.len() implies i[j] != '.' by {
            assert(is_digit(i[j]));
        }
        lemma_index_of(i, '.', i.len() as int);
        assert(i.take(i.len() as int) =~= i);
        assert(integral_part(i) == i);
        assert(fractional_part(i) == f);
    } else {
        let dotted = seq!['.'] + f + space;
        assert(cs.drop_first() =~= i.drop_first() + dotted);
        lemma_literal_digits(i.drop_first(), dotted, seq![c], false);
        assert(dotted[0] == '.');
        assert(dotted.drop_first() =~= f + space);
        lemma_literal_digits(f, space, i.push('.'), true);
        let lit = i.push('.') + f;
        assert(tokens_of(cs) == literal_then(cs.drop_first(), seq![c], false));
        assert(literal_then(dotted, i, false) == literal_then(f + space, i.push('.'), true));
        assert(space[0] == ' ');
        assert(lit =~= i + seq!['.'] + f);
        assert(lit.last() == f[f.len() - 1]);
        assert(is_digit(f[f.len() - 1]));
        assert(literal_then(space, lit, true) == prepend(
            Lexeme::Number(integral_part(lit), fractional_part(lit)),
            tokens_of(space),
        ));
        assert forall|j: int| 0 <= j < i.len() implies lit[j] != '.' by {
            assert(lit[j] == i[j]);
            assert(is_digit(i[j]));
        }
        lemma_index_of(lit, '.', i.len() as int);
        assert(lit.take(i.len() as int) =~= i);
        assert(lit.skip(i.len() + 1 as int) =~= f);
        assert forall|j: int| 0 <= j < f.len() implies f[j] != '.' by {
            assert(is_digit(f[j]));
        }
        lemma_index_of(f, '.', f.len() as int);
        assert(f.take(f.len() as int) =~= f);
        assert(integral_part(lit) == i);
        assert(fractional_part(lit) == f);
    }
}

/// Writing tokens out and scanning the text again gives the same tokens, ended by `Eof`.
pub proof fn lemma_rescan(ts: Seq<Lexeme>)
    requires
        forall|i: int| 0 <= i < ts.len() ==> scannable(#[trigger] ts[i]),
    ensures
        tokens_of(render(ts)) == Ok::<Seq<Lexeme>, CalcError>(ts + seq![Lexeme::Eof]),
    decreases ts.len(),
{
    if ts.len() == 0 {
        assert(ts + seq![Lexeme::Eof] =~= seq![Lexeme::Eof]);
    } else {
        let t = ts[0];
        let tail = ts.drop_first();
        assert(forall|i: int| 0 <= i < tail.len() ==> tail[i] == ts[i + 1]);
        lemma_rescan(tail);
        let r = render(tail);
        let space = seq![' '] + r;
        assert(space.drop_first() =~= r);
        assert(tokens_of(space) == tokens_of(r));
        assert(seq![t] + (tail + seq![Lexeme::Eof]) =~= ts + seq![Lexeme::Eof]);
        assert(scannable(t));
        if let Lexeme::Number(i, f) = t {
            lemma_rescan_number(i, f, r);
            assert(render(ts) =~= full_text(i, f) + seq![' '] + r);
        } else {
            let cs = render(ts);
            assert(cs =~= lexeme_text(t) + space);
            assert(lexeme_text(t).len() == 1);
            assert(cs[0] == lexeme_text(t)[0]);
            assert(cs.drop_first() =~= space);
            assert(cs[1] == ' ');
        }
    }
}

/// Whether `ts` ends with `Eof` and holds it nowhere else.
pub open spec fn ends_once_with_eof(ts: Seq<Lexeme>) -> bool {
    &&& ts.len() > 0
    &&& ts.last() == Lexeme::Eof
    &&& forall|i: int| 0 <= i < ts.len() - 1 ==> ts[i] != Lexeme::Eof
}

/// Whether `ts` is `Eof` after scannable tokens.
pub open spec fn well_scanned(ts: Seq<Lexeme>) -> bool {
    &&& ts.len() > 0
    &&& ts.last() == Lexeme::Eof
    &&& forall|i: int| 0 <= i < ts.len() - 1 ==> scannable(#[trigger] ts[i])
}

proof fn lemma_prepend_well_scanned(t: Lexeme, r: Result<Seq<Lexeme>, CalcError>)
    requires
        scannable(t),
        r is Ok ==> well_scanned(r->Ok_0),
    ensures
        prepend(t, r) is Ok ==> well_scanned(prepend(t, r)->Ok_0),
{
    if let Ok(ts) = r {
        let all = seq![t] + ts;
        assert forall|i: int| 0 <= i < all.len() - 1 implies scannable(#[trigger] all[i]) by {
            if i > 0 {
                assert(all[i] == ts[i - 1]);
            }
        }
    }
}

proof fn lemma_literal_scannable(lit: Seq<char>)
    requires
        forall|j: int| 0 <= j < lit.len() ==> is_digit(#[trigger] lit[j]) || lit[j] == '.',
    ensures
        scannable(Lexeme::Number(integral_part(lit), fractional_part(lit))),
{
    lemma_index_of_bound(lit, '.');
    let k = index_of(lit, '.');
    if k > 0 {
        assert forall|j: int| 0 <= j < k implies is_digit(#[trigger] lit.take(k as int)[j]) by {
            assert(lit[j] != '.');
        }
    } else {
        assert(is_digit(seq!['0'][0]));
    }
    if k < lit.len() {
        let rest = lit.skip(k + 1 as int);
        lemma_index_of_bound(rest, '.');
        let m = index_of(rest, '.');
        assert forall|j: int| 0 <= j < m implies is_digit(#[trigger] rest.take(m as int)[j]) by {
            assert(rest[j] == lit[k + 1 + j]);
            assert(rest[j] != '.');
        }
    }
}

proof fn lemma_tokens_well_scanned(cs: Seq<char>)
    ensures
        tokens_of(cs) is Ok ==> well_scanned(tokens_of(cs)->Ok_0),
    decreases cs.len(), 0nat,
{
    if cs.len() > 0 {
        let c = cs[0];
        if is_space(c) {
            lemma_tokens_well_scanned(cs.drop_first());
        } else if c == '+' {
            if cs.len() > 1 && cs[1] == '-' {
                lemma_tokens_well_scanned(cs.drop_first().drop_first());
                lemma_prepend_well_scanned(
                    Lexeme::PlusMinus,
                    tokens_of(cs.drop_first().drop_first()),
                );
            } else {
                lemma_tokens_well_scanned(cs.drop_first());
                lemma_prepend_well_scanned(Lexeme::Add, tokens_of(cs.drop_first()));
            }
        } else if symbol(c) is Some {
            lemma_tokens_well_scanned(cs.drop_first());
            lemma_prepend_well_scanned(symbol(c)->0, tokens_of(cs.drop_first()));
        } else if is_digit(c) || c == '.' {
            lemma_literal_well_scanned(cs.drop_first(), seq![c], c == '.');
        }
    } else {
        assert(seq![Lexeme::Eof].last() == Lexeme::Eof);
    }
}

proof fn lemma_literal_well_scanned(cs: Seq<char>, lit: Seq<char>, seen_period: bool)
    requires
        forall|j: int| 0 <= j < lit.len() ==> is_digit(#[trigger] lit[j]) || lit[j] == '.',
    ensures
        literal_then(cs, lit, seen_period) is Ok ==> well_scanned(
            literal_then(cs, lit, seen_period)->Ok_0,
        ),
    decreases cs.len(), 1nat,
{
    if cs.len() > 0 && is_digit(cs[0]) {
        let next = lit.push(cs[0]);
        assert forall|j: int| 0 <= j < next.len() implies is_digit(#[trigger] next[j]) || next[j]
            == '.' by {
            if j < lit.len() {
                assert(next[j] == lit[j]);
            }
        }
        lemma_literal_well_scanned(cs.drop_first(), next, seen_period);
    } else if cs.len() > 0 && cs[0] == '.' && !seen_period {
        let next = lit.push('.');
        assert forall|j: int| 0 <= j < next.len() implies is_digit(#[trigger] next[j]) || next[j]
            == '.' by {
            if j < lit.len() {
                assert(next[j] == lit[j]);
            }
        }
        lemma_literal_well_scanned(cs.drop_first(), next, true);
    } else if !(lit.len() > 0 && lit.last() == '.') {
        lemma_tokens_well_scanned(cs);
        lemma_literal_scannable(lit);
        lemma_prepend_well_scanned(
            Lexeme::Number(integral_part(lit), fractional_part(lit)),
            tokens_of(cs),
        );
    }
}

/// Every token that scanning gives but `Eof` can be written and scanned back.
pub proof fn lemma_tokens_scannable(cs: Seq<char>)
    ensures
        tokens_of(cs) is Ok ==> forall|i: int|
            0 <= i < tokens_of(cs)->Ok_0.len() && tokens_of(cs)->Ok_0[i] != Lexeme::Eof
                ==> scannable(#[trigger] tokens_of(cs)->Ok_0[i]),
{
    lemma_tokens_well_scanned(cs);
}

/// Every token sequence ends with `Eof`, which occurs exactly once, and scanning the
/// text of the tokens before it gives the same sequence again.
pub proof fn lemma_tokens_end_with_eof(cs: Seq<char>)
    ensures
        tokens_of(cs) is Ok ==> ends_once_with_eof(tokens_of(cs)->Ok_0),
        tokens_of(cs) is Ok ==> tokens_of(render(tokens_of(cs)->Ok_0.drop_last())) == tokens_of(
            cs,
        ),
{
    lemma_tokens_well_scanned(cs);
    if let Ok(ts) = tokens_of(cs) {
        let body = ts.drop_last();
        assert forall|i: int| 0 <= i < body.len() implies scannable(#[trigger] body[i]) by {
            assert(body[i] == ts[i]);
        }
        lemma_rescan(body);
        assert(body + seq![Lexeme::Eof] =~= ts);
    }
}

/// How many characters of `cs` continue a numeric literal: digits, and one period while
/// `seen_period` is false; the scan stops before anything else, a second period included.
pub open spec fn literal_len(cs: Seq<char>, seen_period: bool) -> nat
    decreases cs.len(),
{
    if cs.len() > 0 && is_digit(cs[0]) {
        1 + literal_len(cs.drop_first(), seen_period)
    } else if cs.len() > 0 && cs[0] == '.' && !seen_period {
        1 + literal_len(cs.drop_first(), true)
    } else {
        0
    }
}

struct Scanner<'a> {
    text: &'a str,
    characters: Vec<char>,
    pos: usize,
}

impl<'a> Scanner<'a> {
    spec fn wf(&self) -> bool {
        &&& self.characters@ == self.text@
        &&& self.pos <= self.characters@.len()
    }

    /// The characters not yet consumed.
    spec fn rest(&self) -> Seq<char> {
        self.characters@.skip(self.pos as int)
    }

    fn new(input: &'a str) -> (r: Scanner<'a>)
        ensures
            r.wf(),
            r.text@ == input@,
            r.pos == 0,
    {
        let characters = chars_of(input);
        Scanner { text: input, characters, pos: 0 }
    }

    fn next(&mut self) -> (r: Option<char>)
        requires
            old(self).wf(),
        ensures
            final(self).wf(),
            final(self).text == old(self).text,
            final(self).characters == old(self).characters,
            old(self).pos < old(self).characters@.len() ==> r == Some(
                old(self).characters@[old(self).pos as int],
            ) && final(self).pos == old(self).pos + 1,
            old(self).pos >= old(self).characters@.len() ==> r is None && final(self).pos
                == old(self).pos,
    {
        if self.pos < self.characters.len() {
            let c = self.characters[self.pos];
            self.pos = self.pos + 1;
            Some(c)
        } else {
            None
        }
    }

    fn peek(&self) -> (r: Option<char>)
        requires
            self.wf(),
        ensures
            self.pos < self.characters@.len() ==> r == Some(self.characters@[self.pos as int]),
            self.pos >= self.characters@.len() ==> r is None,
    {
        if self.pos < self.characters.len() {
            Some(self.characters[self.pos])
        } else {
            None
        }
    }
}

/// The tokens of an expression, handed out front to back.
pub struct Lexer {
    /// The tokens not yet handed out, last one first.
    tokens: Vec<Token>,
}

impl View for Lexer {
    type V = Seq<Lexeme>;

    /// The tokens not yet handed out, in source order.
    closed spec fn view(&self) -> Seq<Lexeme> {
        Seq::new(self.tokens@.len(), |i: int| self.tokens@[self.tokens@.len() - 1 - i]@)
    }
}

impl Lexer {
    /// Scans `input` into tokens, ended by `Eof`.
    pub fn new(input: &str) -> (r: Result<Lexer, CalcError>)
        ensures
            match tokens_of(input@) {
                Ok(ts) => r is Ok && r->Ok_0@ == ts,
                Err(e) => r == Err::<Lexer, CalcError>(e),
            },
    {
        let mut scanner = Scanner::new(input);
        let mut out: Vec<Token> = Vec::new();
        assert(scanner.rest() =~= input@);
        assert(views(out@) =~= Seq::<Lexeme>::empty());
        loop
            invariant_except_break
                tokens_of(input@) == prepend_all(views(out@), tokens_of(scanner.rest())),
            invariant
                scanner.wf(),
                scanner.text@ == input@,
            ensures
                tokens_of(input@) == Ok::<Seq<Lexeme>, CalcError>(views(out@)),
            decreases scanner.characters@.len() - scanner.pos,
        {
            let ghost cs = scanner.rest();
            let ghost before = out@;
            let c = match scanner.peek() {
                Some(val) => {
                    scanner.next();
                    val
                },
                None => {
                    out.push(Token::Eof);
                    assert(views(out@) =~= views(before) + seq![Lexeme::Eof]);
                    assert(cs.len() == 0);
                    break ;
                },
            };
            assert(cs[0] == c);
            assert(scanner.rest() =~= cs.drop_first());
            let token = if c == '+' {
                match scanner.peek() {
                    Some(val) => {
                        if val == '-' {
                            scanner.next();
                            assert(scanner.rest() =~= cs.drop_first().drop_first());
                            Token::PlusMinus
                        } else {
                            Token::Add
                        }
                    },
                    None => Token::Add,
                }
            } else if c == '-' {
                Token::Minus
            } else if c == '*' {
                Token::Mul
            } else if c == '/' {
                Token::Div
            } else if c == '±' {
                Token::PlusMinus
            } else if c == 'e' {
                Token::EulersNum
            } else if c == 'π' {
                Token::Pi
            } else if c == '(' {
                Token::LeftParen
            } else if c == ')' {
                Token::RightParen
            } else if '0' <= c && c <= '9' {
                match Lexer::parse_number(c, false, &mut scanner) {
                    Ok(t) => t,
                    Err(e) => {
                        return Err(e);
                    },
                }
            } else if c == '.' {
                match Lexer::parse_number(c, true, &mut scanner) {
                    Ok(t) => t,
                    Err(e) => {
                        return Err(e);
                    },
                }
            } else if c == ' ' || c == '\t' || c == '\n' {
                continue ;
            } else {
                return Err(CalcError::UnexpectedCharacter(c));
            };
            out.push(token);
            assert(views(out@) =~= views(before) + seq![token@]);
            assert(views(out@) + tokens_of(scanner.rest())->Ok_0 =~= views(before) + (seq![token@]
                + tokens_of(scanner.rest())->Ok_0));
        }
        let ghost all = out@;
        let mut tokens: Vec<Token> = Vec::new();
        while out.len() > 0
            invariant
                tokens@.len() + out@.len() == all.len(),
                out@ == all.take(out@.len() as int),
                forall|i: int| 0 <= i < tokens@.len() ==> tokens@[i] == all[all.len() - 1 - i],
            decreases out@.len(),
        {
            let t = out.pop().unwrap();
            tokens.push(t);
        }
        let lexer = Lexer { tokens };
        assert(lexer@ =~= views(all));
        Ok(lexer)
    }

    /// Hands out the next token; `Eof` once all are out.
    pub fn next(&mut self) -> (r: Token)
        ensures
            old(self)@.len() > 0 ==> r@ == old(self)@[0] && final(self)@ == old(self)@.drop_first(),
            old(self)@.len() == 0 ==> r@ == Lexeme::Eof && final(self)@ == old(self)@,
    {
        match self.tokens.pop() {
            Some(t) => {
                assert(self@ =~= old(self)@.drop_first());
                t
            },
            None => Token::Eof,
        }
    }

    /// The next token, which stays to be handed out; `Eof` once all are out.
    pub fn peek(&mut self) -> (r: Token)
        ensures
            *final(self) == *old(self),
            old(self)@.len() > 0 ==> r@ == old(self)@[0],
            old(self)@.len() == 0 ==> r@ == Lexeme::Eof,
    {
        let n = self.tokens.len();
        if n > 0 {
            self.tokens[n - 1].duplicate()
        } else {
            Token::Eof
        }
    }

    /// Scans the rest of a numeric literal whose first character `init_c` was just consumed.
    fn parse_number(init_c: char, found_period: bool, scanner: &mut Scanner) -> (r: Result<
        Token,
        CalcError,
    >)
        requires
            old(scanner).wf(),
            old(scanner).pos >= 1,
            old(scanner).characters@[old(scanner).pos - 1] == init_c,
        ensures
            final(scanner).wf(),
            final(scanner).text == old(scanner).text,
            final(scanner).pos == old(scanner).pos + literal_len(old(scanner).rest(), found_period),
            ({
                let lit = seq![init_c] + old(scanner).rest().take(
                    literal_len(old(scanner).rest(), found_period) as int,
                );
                if lit.last() == '.' {
                    r == Err::<Token, CalcError>(CalcError::TrailingPeriod)
                } else {
                    r is Ok && r->Ok_0@ == Lexeme::Number(integral_part(lit), fractional_part(lit))
                }
            }),
            match r {
                Ok(t) => literal_then(old(scanner).rest(), seq![init_c], found_period) == prepend(
                    t@,
                    tokens_of(final(scanner).rest()),
                ),
                Err(e) => literal_then(old(scanner).rest(), seq![init_c], found_period) == Err::<
                    Seq<Lexeme>,
                    CalcError,
                >(e),
            },
    {
        let ghost goal = literal_then(scanner.rest(), seq![init_c], found_period);
        let ghost first_rest = scanner.rest();
        let ghost total = literal_len(first_rest, found_period);
        let start = scanner.pos - 1;
        let mut found_period = found_period;
        assert(scanner.characters@.subrange(start as int, scanner.pos as int) =~= seq![init_c]);
        loop
            invariant
                scanner.wf(),
                scanner.text == old(scanner).text,
                start < scanner.pos,
                scanner.pos >= old(scanner).pos,
                scanner.characters == old(scanner).characters,
                first_rest == old(scanner).rest(),
                total == (scanner.pos - old(scanner).pos) + literal_len(scanner.rest(), found_period),
                scanner.characters@.subrange(start as int, scanner.pos as int) == seq![init_c]
                    + first_rest.take(scanner.pos - old(scanner).pos),
                goal == literal_then(
                    scanner.rest(),
                    scanner.characters@.subrange(start as int, scanner.pos as int),
                    found_period,
                ),
            ensures
                scanner.rest().len() == 0 || !(is_digit(scanner.rest()[0]) || (scanner.rest()[0]
                    == '.' && !found_period)),
            decreases scanner.characters@.len() - scanner.pos,
        {
            let ghost cs = scanner.rest();
            let ghost lit = scanner.characters@.subrange(start as int, scanner.pos as int);
            let c = match scanner.peek() {
                Some(val) => val,
                None => break ,
            };
            if '0' <= c && c <= '9' {
            } else if c == '.' {
                if found_period {
                    break ;
                } else {
                    found_period = true;
                }
            } else {
                break ;
            }
            let ghost k = scanner.pos - old(scanner).pos;
            scanner.next();
            assert(scanner.rest() =~= cs.drop_first());
            assert(scanner.characters@.subrange(start as int, scanner.pos as int) =~= lit.push(c));
            assert(first_rest[k] == c);
            assert(first_rest.take(k + 1) =~= first_rest.take(k).push(c));
        }
        let ghost lit = scanner.characters@.subrange(start as int, scanner.pos as int);
        assert(literal_len(scanner.rest(), found_period) == 0);
        assert(lit == seq![init_c] + first_rest.take(total as int));
        assert(lit.last() == scanner.characters@[scanner.pos - 1]);
        if scanner.characters[scanner.pos - 1] == '.' {
            return Err(CalcError::TrailingPeriod);
        }
        let text = scanner.text.substring_char(start, scanner.pos);
        assert(text@ =~= lit);
        let number = DecimalNumber::new(text);
        Ok(Token::PosNum(number))
    }
}

} // verus!
