use vstd::prelude::*;

use crate::error::CalcError;
use crate::lexer::{lemma_rescan, lemma_tokens_end_with_eof, render, scannable, tokens_of, Lexer};
use crate::token::{kind_of, lexeme_text, Lexeme, Token, TokenKind};

verus! {

/// An expression tree: a token alone, or an operator applied to its operands in order.
#[derive(Debug)]
pub enum S {
    Atom(Token),
    Group(Token, Vec<S>),
}

/// An expression tree as a mathematical value.
pub enum Tree {
    Atom(Lexeme),
    Group(Lexeme, Seq<Tree>),
}

pub open spec fn tree_of(s: S) -> Tree
    decreases s,
{
    match s {
        S::Atom(t) => Tree::Atom(t@),
        S::Group(op, kids) => Tree::Group(
            op@,
            Seq::new(
                kids@.len(),
                |i: int|
                    if 0 <= i < kids@.len() {
                        tree_of(kids@[i])
                    } else {
                        Tree::Atom(Lexeme::Eof)
                    },
            ),
        ),
    }
}

pub(crate) proof fn lemma_tree_of_group(op: Token, kids: Vec<S>)
    ensures
        tree_of(S::Group(op, kids)) == Tree::Group(op@, kids@.map_values(|k: S| tree_of(k))),
{
    let t = tree_of(S::Group(op, kids));
    assert(t->Group_1 =~= kids@.map_values(|k: S| tree_of(k)));
}

impl View for S {
    type V = Tree;

    open spec fn view(&self) -> Tree {
        tree_of(*self)
    }
}

/// The text of a tree in prefix notation: `(op operand ...)`, an atom as its token.
pub open spec fn show_tree(t: Tree) -> Seq<char>
    decreases t, 0nat,
{
    match t {
        Tree::Atom(l) => lexeme_text(l),
        Tree::Group(op, kids) => seq!['('] + lexeme_text(op) + show_operands(kids, kids.len())
            + seq![')'],
    }
}

/// The first `n` operands of `kids`, each after a space.
pub open spec fn show_operands(kids: Seq<Tree>, n: nat) -> Seq<char>
    decreases kids, n,
{
    if n == 0 || n > kids.len() {
        Seq::empty()
    } else {
        show_operands(kids, (n - 1) as nat) + seq![' '] + show_tree(kids[n - 1])
    }
}

/// The next token of `ts`; `Eof` when there is none.
pub open spec fn head(ts: Seq<Lexeme>) -> Lexeme {
    if ts.len() > 0 {
        ts[0]
    } else {
        Lexeme::Eof
    }
}

/// Left and right binding power of an infix operator; higher binds tighter.
pub open spec fn infix_bp(t: Lexeme) -> Option<(u8, u8)> {
    match t {
        Lexeme::Add | Lexeme::Minus => Some((1u8, 2u8)),
        Lexeme::Mul | Lexeme::Div => Some((3u8, 4u8)),
        Lexeme::PlusMinus => Some((7u8, 8u8)),
        _ => None,
    }
}

/// Binding power of a prefix operator.
pub open spec fn prefix_bp(t: Lexeme) -> Option<u8> {
    match t {
        Lexeme::Minus => Some(9u8),
        _ => None,
    }
}

/// Parses an operand of `ts` and the operators that follow it while they bind at least
/// `min_bp`; gives the tree and the tokens left.
pub open spec fn parse_expr(ts: Seq<Lexeme>, min_bp: u8) -> Result<(Tree, Seq<Lexeme>), CalcError>
    decreases ts.len(), 1nat,
{
    if ts.len() == 0 {
        Err(CalcError::UnexpectedToken(TokenKind::Eof))
    } else {
        let t = ts[0];
        let rest = ts.drop_first();
        match t {
            Lexeme::Number(_, _) | Lexeme::EulersNum | Lexeme::Pi => parse_infix(
                Tree::Atom(t),
                rest,
                min_bp,
            ),
            Lexeme::LeftParen => match parse_expr(rest, 0) {
                Ok((inner, after)) => {
                    // `after` is always shorter than `ts` (see lemma_parse_consumes)
                    if after.len() < ts.len() && head(after) == Lexeme::RightParen {
                        parse_infix(inner, after.drop_first(), min_bp)
                    } else {
                        Err(CalcError::MissingRightParen)
                    }
                },
                Err(e) => Err(e),
            },
            Lexeme::Minus => match parse_expr(rest, prefix_bp(t)->0) {
                Ok((operand, after)) => {
                    if after.len() < ts.len() {
                        parse_infix(Tree::Group(t, seq![operand]), after, min_bp)
                    } else {
                        Err(CalcError::UnexpectedToken(kind_of(t)))
                    }
                },
                Err(e) => Err(e),
            },
            _ => Err(CalcError::UnexpectedToken(kind_of(t))),
        }
    }
}

/// With `lhs` parsed, applies the infix operators of `ts` that bind at least `min_bp`.
pub open spec fn parse_infix(lhs: Tree, ts: Seq<Lexeme>, min_bp: u8) -> Result<
    (Tree, Seq<Lexeme>),
    CalcError,
>
    decreases ts.len(), 0nat,
{
    let t = head(ts);
    match t {
        Lexeme::Eof => Ok((lhs, ts)),
        Lexeme::LeftParen => Err(CalcError::ExcessLeftParen),
        Lexeme::Number(_, _) | Lexeme::EulersNum | Lexeme::Pi => Err(
            CalcError::UnexpectedToken(kind_of(t)),
        ),
        _ => match infix_bp(t) {
            None => Ok((lhs, ts)),
            Some((l_bp, r_bp)) => {
                if l_bp < min_bp {
                    Ok((lhs, ts))
                } else {
                    match parse_expr(ts.drop_first(), r_bp) {
                        Ok((rhs, after)) => {
                            // `after` is always shorter than `ts` (see lemma_parse_consumes)
                            if after.len() < ts.len() {
                                parse_infix(Tree::Group(t, seq![lhs, rhs]), after, min_bp)
                            } else {
                                Err(CalcError::UnexpectedToken(kind_of(t)))
                            }
                        },
                        Err(e) => Err(e),
                    }
                }
            },
        },
    }
}

/// The tree of an expression's text: all of its tokens make one expression.
pub open spec fn parse_text(cs: Seq<char>) -> Result<Tree, CalcError> {
    match tokens_of(cs) {
        Err(e) => Err(e),
        Ok(ts) => match parse_expr(ts, 0) {
            Err(e) => Err(e),
            Ok((t, rest)) => if head(rest) == Lexeme::Eof {
                Ok(t)
            } else {
                Err(CalcError::ExcessRightParen)
            },
        },
    }
}

/// Parsing an operand consumes at least one token.
pub proof fn lemma_parse_consumes(ts: Seq<Lexeme>, min_bp: u8)
    ensures
        parse_expr(ts, min_bp) is Ok ==> parse_expr(ts, min_bp)->Ok_0.1.len() < ts.len(),
    decreases ts.len(), 1nat,
{
    if ts.len() > 0 {
        let t = ts[0];
        let rest = ts.drop_first();
        match t {
            Lexeme::Number(_, _) | Lexeme::EulersNum | Lexeme::Pi => {
                lemma_infix_consumes(Tree::Atom(t), rest, min_bp);
            },
            Lexeme::LeftParen => {
                lemma_parse_consumes(rest, 0);
                if let Ok((inner, after)) = parse_expr(rest, 0) {
                    if after.len() < ts.len() && head(after) == Lexeme::RightParen {
                        lemma_infix_consumes(inner, after.drop_first(), min_bp);
                    }
                }
            },
            Lexeme::Minus => {
                lemma_parse_consumes(rest, 9);
                if let Ok((operand, after)) = parse_expr(rest, 9) {
                    lemma_infix_consumes(Tree::Group(t, seq![operand]), after, min_bp);
                }
            },
            _ => {},
        }
    }
}

/// Applying infix operators never adds tokens.
pub proof fn lemma_infix_consumes(lhs: Tree, ts: Seq<Lexeme>, min_bp: u8)
    ensures
        parse_infix(lhs, ts, min_bp) is Ok ==> parse_infix(lhs, ts, min_bp)->Ok_0.1.len()
            <= ts.len(),
    decreases ts.len(), 0nat,
{
    let t = head(ts);
    if let Some((l_bp, r_bp)) = infix_bp(t) {
        if l_bp >= min_bp {
            lemma_parse_consumes(ts.drop_first(), r_bp);
            if let Ok((rhs, after)) = parse_expr(ts.drop_first(), r_bp) {
                if after.len() < ts.len() {
                    lemma_infix_consumes(Tree::Group(t, seq![lhs, rhs]), after, min_bp);
                }
            }
        }
    }
}

/// Whether `t` has the shape that parsing gives: scanned literals and constants as atoms,
/// a negation with one operand, an infix operator with two.
pub open spec fn well_shaped(t: Tree) -> bool
    decreases t,
{
    match t {
        Tree::Atom(l) => (l is Number || l is EulersNum || l is Pi) && scannable(l),
        Tree::Group(op, kids) => if kids.len() == 1 {
            op is Minus && well_shaped(kids[0])
        } else if kids.len() == 2 {
            infix_bp(op) is Some && well_shaped(kids[0]) && well_shaped(kids[1])
        } else {
            false
        },
    }
}

/// The tokens of `t` written in infix notation with every operation in parentheses.
pub open spec fn canonical_tokens(t: Tree) -> Seq<Lexeme>
    decreases t,
{
    match t {
        Tree::Atom(l) => seq![l],
        Tree::Group(op, kids) => if kids.len() == 1 {
            seq![Lexeme::LeftParen, op] + canonical_tokens(kids[0]) + seq![Lexeme::RightParen]
        } else if kids.len() == 2 {
            seq![Lexeme::LeftParen] + canonical_tokens(kids[0]) + seq![op] + canonical_tokens(
                kids[1],
            ) + seq![Lexeme::RightParen]
        } else {
            Seq::empty()
        },
    }
}

/// Whatever follows it, the canonical form of a tree parses as that tree.
pub proof fn lemma_canonical_parses(t: Tree, rest: Seq<Lexeme>, min_bp: u8)
    requires
        well_shaped(t),
    ensures
        parse_expr(canonical_tokens(t) + rest, min_bp) == parse_infix(t, rest, min_bp),
    decreases t,
{
    let ts = canonical_tokens(t) + rest;
    match t {
        Tree::Atom(l) => {
            assert(ts[0] == l);
            assert(ts.drop_first() =~= rest);
            assert(l is Number || l is EulersNum || l is Pi);
            assert(parse_expr(ts, min_bp) == parse_infix(Tree::Atom(l), ts.drop_first(), min_bp));
        },
        Tree::Group(op, kids) => {
            let close = seq![Lexeme::RightParen] + rest;
            if kids.len() == 1 {
                let a = kids[0];
                let rest1 = ts.drop_first();
                lemma_canonical_parses(a, close, 9);
                assert(ts[0] == Lexeme::LeftParen);
                assert(rest1[0] == op);
                assert(rest1.drop_first() =~= canonical_tokens(a) + close);
                assert(close[0] == Lexeme::RightParen);
                assert(parse_infix(a, close, 9) == Ok::<(Tree, Seq<Lexeme>), CalcError>((a, close)));
                let g = Tree::Group(op, seq![a]);
                assert(parse_infix(g, close, 0) == Ok::<(Tree, Seq<Lexeme>), CalcError>((g, close)));
                assert(parse_expr(rest1, 0) == Ok::<(Tree, Seq<Lexeme>), CalcError>((g, close)));
                assert(close.drop_first() =~= rest);
                assert(kids =~= seq![a]);
                assert(parse_expr(ts, min_bp) == parse_infix(t, rest, min_bp));
            } else {
                let a = kids[0];
                let b = kids[1];
                let r1 = seq![op] + canonical_tokens(b) + close;
                let (l_bp, r_bp) = infix_bp(op)->0;
                lemma_canonical_parses(a, r1, 0);
                lemma_canonical_parses(b, close, r_bp);
                assert(ts[0] == Lexeme::LeftParen);
                assert(ts.drop_first() =~= canonical_tokens(a) + r1);
                assert(r1[0] == op);
                assert(r1.drop_first() =~= canonical_tokens(b) + close);
                assert(close[0] == Lexeme::RightParen);
                assert(parse_infix(b, close, r_bp) == Ok::<(Tree, Seq<Lexeme>), CalcError>(
                    (b, close),
                ));
                let g = Tree::Group(op, seq![a, b]);
                assert(parse_infix(g, close, 0) == Ok::<(Tree, Seq<Lexeme>), CalcError>((g, close)));
                assert(parse_infix(a, r1, 0) == Ok::<(Tree, Seq<Lexeme>), CalcError>((g, close)));
                assert(close.drop_first() =~= rest);
                assert(kids =~= seq![a, b]);
                assert(parse_expr(ts, min_bp) == parse_infix(t, rest, min_bp));
            }
        },
    }
}

/// Whether every token of `ts` but `Eof` can be written and scanned back.
pub open spec fn tokens_ok(ts: Seq<Lexeme>) -> bool {
    forall|i: int| 0 <= i < ts.len() && ts[i] != Lexeme::Eof ==> scannable(#[trigger] ts[i])
}

proof fn lemma_tokens_ok_tail(ts: Seq<Lexeme>)
    requires
        tokens_ok(ts),
        ts.len() > 0,
    ensures
        tokens_ok(ts.drop_first()),
{
    assert forall|i: int|
        0 <= i < ts.drop_first().len() && ts.drop_first()[i] != Lexeme::Eof implies scannable(
            #[trigger] ts.drop_first()[i],
        ) by {
        assert(ts.drop_first()[i] == ts[i + 1]);
    }
}

/// Parsing scanned tokens gives well-shaped trees.
pub proof fn lemma_parse_well_shaped(ts: Seq<Lexeme>, min_bp: u8)
    requires
        tokens_ok(ts),
    ensures
        parse_expr(ts, min_bp) is Ok ==> well_shaped(parse_expr(ts, min_bp)->Ok_0.0) && tokens_ok(
            parse_expr(ts, min_bp)->Ok_0.1,
        ),
    decreases ts.len(), 1nat,
{
    if ts.len() > 0 {
        let t = ts[0];
        let rest = ts.drop_first();
        lemma_tokens_ok_tail(ts);
        match t {
            Lexeme::Number(_, _) | Lexeme::EulersNum | Lexeme::Pi => {
                lemma_infix_well_shaped(Tree::Atom(t), rest, min_bp);
            },
            Lexeme::LeftParen => {
                lemma_parse_well_shaped(rest, 0);
                if let Ok((inner, after)) = parse_expr(rest, 0) {
                    if after.len() < ts.len() && head(after) == Lexeme::RightParen {
                        lemma_tokens_ok_tail(after);
                        lemma_infix_well_shaped(inner, after.drop_first(), min_bp);
                    }
                }
            },
            Lexeme::Minus => {
                lemma_parse_well_shaped(rest, 9);
                if let Ok((operand, after)) = parse_expr(rest, 9) {
                    if after.len() < ts.len() {
                        let g = Tree::Group(t, seq![operand]);
                        assert(seq![operand][0] == operand);
                        lemma_infix_well_shaped(g, after, min_bp);
                    }
                }
            },
            _ => {},
        }
    }
}

proof fn lemma_infix_well_shaped(lhs: Tree, ts: Seq<Lexeme>, min_bp: u8)
    requires
        well_shaped(lhs),
        tokens_ok(ts),
    ensures
        parse_infix(lhs, ts, min_bp) is Ok ==> well_shaped(parse_infix(lhs, ts, min_bp)->Ok_0.0)
            && tokens_ok(parse_infix(lhs, ts, min_bp)->Ok_0.1),
    decreases ts.len(), 0nat,
{
    let t = head(ts);
    if let Some((l_bp, r_bp)) = infix_bp(t) {
        if l_bp >= min_bp {
            lemma_tokens_ok_tail(ts);
            lemma_parse_well_shaped(ts.drop_first(), r_bp);
            if let Ok((rhs, after)) = parse_expr(ts.drop_first(), r_bp) {
                if after.len() < ts.len() {
                    let g = Tree::Group(t, seq![lhs, rhs]);
                    assert(seq![lhs, rhs][0] == lhs);
                    assert(seq![lhs, rhs][1] == rhs);
                    lemma_infix_well_shaped(g, after, min_bp);
                }
            }
        }
    }
}

/// The canonical tokens of a well-shaped tree can all be written and scanned back.
proof fn lemma_canonical_scannable(t: Tree)
    requires
        well_shaped(t),
    ensures
        forall|i: int|
            0 <= i < canonical_tokens(t).len() ==> scannable(#[trigger] canonical_tokens(t)[i]),
    decreases t,
{
    if let Tree::Group(op, kids) = t {
        let c = canonical_tokens(t);
        if kids.len() == 1 {
            lemma_canonical_scannable(kids[0]);
            let ca = canonical_tokens(kids[0]);
            assert forall|i: int| 0 <= i < c.len() implies scannable(#[trigger] c[i]) by {
                if 2 <= i < 2 + ca.len() {
                    assert(c[i] == ca[i - 2]);
                }
            }
        } else {
            lemma_canonical_scannable(kids[0]);
            lemma_canonical_scannable(kids[1]);
            let ca = canonical_tokens(kids[0]);
            let cb = canonical_tokens(kids[1]);
            assert forall|i: int| 0 <= i < c.len() implies scannable(#[trigger] c[i]) by {
                if 1 <= i < 1 + ca.len() {
                    assert(c[i] == ca[i - 1]);
                } else if 2 + ca.len() <= i < 2 + ca.len() + cb.len() {
                    assert(c[i] == cb[i - 2 - ca.len()]);
                }
            }
        }
    }
}

/// Round trip: the canonical form of any parsed tree parses back to that tree, with
/// nothing left but `Eof`.
pub proof fn lemma_canonical_round_trip(ts: Seq<Lexeme>)
    requires
        tokens_ok(ts),
        parse_expr(ts, 0) is Ok,
    ensures
        parse_expr(canonical_tokens(parse_expr(ts, 0)->Ok_0.0) + seq![Lexeme::Eof], 0) == Ok::<
            (Tree, Seq<Lexeme>),
            CalcError,
        >((parse_expr(ts, 0)->Ok_0.0, seq![Lexeme::Eof])),
{
    let t = parse_expr(ts, 0)->Ok_0.0;
    lemma_parse_well_shaped(ts, 0);
    lemma_canonical_parses(t, seq![Lexeme::Eof], 0);
}

proof fn lemma_render_concat(a: Seq<Lexeme>, b: Seq<Lexeme>)
    ensures
        render(a + b) == render(a) + render(b),
    decreases a.len(),
{
    if a.len() == 0 {
        assert(a + b =~= b);
    } else {
        lemma_render_concat(a.drop_first(), b);
        assert((a + b).drop_first() =~= a.drop_first() + b);
        assert((a + b)[0] == a[0]);
    }
}

proof fn lemma_render_one(t: Lexeme)
    ensures
        render(seq![t]) == lexeme_text(t) + seq![' '],
{
    let e = seq![t].drop_first();
    assert(e =~= Seq::<Lexeme>::empty());
    assert(render(e) == Seq::<char>::empty());
    assert(seq![t][0] == t);
    assert(lexeme_text(t) + seq![' '] + render(e) =~= lexeme_text(t) + seq![' ']);
}

/// Round trip on text: the canonical text of the tree of any expression parses back to
/// that same tree.
pub proof fn lemma_text_round_trip(cs: Seq<char>)
    requires
        parse_text(cs) is Ok,
    ensures
        parse_text(render(canonical_tokens(parse_text(cs)->Ok_0))) == parse_text(cs),
{
    let ts = tokens_of(cs)->Ok_0;
    let t = parse_text(cs)->Ok_0;
    lemma_tokens_end_with_eof(cs);
    crate::lexer::lemma_tokens_scannable(cs);
    lemma_canonical_round_trip(ts);
    lemma_parse_well_shaped(ts, 0);
    lemma_canonical_scannable(t);
    lemma_rescan(canonical_tokens(t));
    assert(head(seq![Lexeme::Eof]) == Lexeme::Eof);
}

/// Binding power of `op` as a prefix operator.
fn prefix_binding_power(op: &Token) -> (r: Option<u8>)
    ensures
        r == prefix_bp(op@),
{
    match op {
        Token::Minus => Some(9),
        _ => None,
    }
}

/// Binding powers of `op` as an infix operator; `None` when it is not one.
fn infix_binding_power(op: &Token) -> (r: Option<(u8, u8)>)
    ensures
        r == infix_bp(op@),
{
    let res = match op {
        Token::Add | Token::Minus => (1, 2),
        Token::Mul | Token::Div => (3, 4),
        Token::PlusMinus => (7, 8),
        _ => {
            return None;
        },
    };
    Some(res)
}

/// Parses the tokens of `text` into one expression tree.
pub fn expr(text: &str) -> (r: Result<S, CalcError>)
    ensures
        match parse_text(text@) {
            Ok(t) => r is Ok && r->Ok_0@ == t,
            Err(e) => r == Err::<S, CalcError>(e),
        },
{
    let mut lexer = match Lexer::new(text) {
        Ok(l) => l,
        Err(e) => {
            return Err(e);
        },
    };
    let s = match expr_bp(&mut lexer, 0) {
        Ok(s) => s,
        Err(e) => {
            return Err(e);
        },
    };
    match lexer.next() {
        Token::Eof => Ok(s),
        _ => Err(CalcError::ExcessRightParen),
    }
}

/// Parses an operand and the operators that follow it while they bind at least `min_bp`
/// (Pratt's method).
fn expr_bp(lexer: &mut Lexer, min_bp: u8) -> (r: Result<S, CalcError>)
    ensures
        match parse_expr(old(lexer)@, min_bp) {
            Ok((t, rest)) => r is Ok && r->Ok_0@ == t && final(lexer)@ == rest,
            Err(e) => r == Err::<S, CalcError>(e),
        },
        r is Ok ==> final(lexer)@.len() < old(lexer)@.len(),
    decreases old(lexer)@.len(),
{
    let ghost ts = lexer@;
    let first_token = lexer.next();
    let mut lhs = match first_token {
        Token::PosNum(_) | Token::EulersNum | Token::Pi => S::Atom(first_token),
        Token::LeftParen => {
            let inner = match expr_bp(lexer, 0) {
                Ok(s) => s,
                Err(e) => {
                    return Err(e);
                },
            };
            match lexer.next() {
                Token::RightParen => {},
                _ => {
                    return Err(CalcError::MissingRightParen);
                },
            }
            inner
        },
        Token::Minus => {
            let r_bp = match prefix_binding_power(&first_token) {
                Some(bp) => bp,
                None => {
                    return Err(CalcError::UnexpectedToken(first_token.kind()));
                },
            };
            let operand = match expr_bp(lexer, r_bp) {
                Ok(s) => s,
                Err(e) => {
                    return Err(e);
                },
            };
            let ghost o = operand;
            let kids = vec![operand];
            proof {
                lemma_tree_of_group(first_token, kids);
                assert(kids@.map_values(|k: S| tree_of(k)) =~= seq![tree_of(o)]);
            }
            S::Group(first_token, kids)
        },
        t => {
            return Err(CalcError::UnexpectedToken(t.kind()));
        },
    };
    assert(parse_expr(ts, min_bp) == parse_infix(lhs@, lexer@, min_bp));

    loop
        invariant_except_break
            parse_expr(ts, min_bp) == parse_infix(lhs@, lexer@, min_bp),
        invariant
            ts == old(lexer)@,
            lexer@.len() < ts.len(),
        ensures
            parse_expr(ts, min_bp) == Ok::<(Tree, Seq<Lexeme>), CalcError>((lhs@, lexer@)),
        decreases lexer@.len(),
    {
        let token = lexer.peek();
        match token {
            Token::Eof => {
                break ;
            },
            Token::LeftParen => {
                return Err(CalcError::ExcessLeftParen);
            },
            Token::PosNum(_) | Token::EulersNum | Token::Pi => {
                return Err(CalcError::UnexpectedToken(token.kind()));
            },
            _ => {},
        }
        match infix_binding_power(&token) {
            Some((l_bp, r_bp)) => {
                if l_bp < min_bp {
                    break ;
                }
                lexer.next();
                let rhs = match expr_bp(lexer, r_bp) {
                    Ok(s) => s,
                    Err(e) => {
                        return Err(e);
                    },
                };
                let ghost l = lhs;
                let ghost rr = rhs;
                let kids = vec![lhs, rhs];
                proof {
                    lemma_tree_of_group(token, kids);
                    assert(kids@.map_values(|k: S| tree_of(k)) =~= seq![tree_of(l), tree_of(rr)]);
                }
                lhs = S::Group(token, kids);
            },
            None => {
                break ;
            },
        }
    }
    Ok(lhs)
}

impl S {
    /// The tree in infix notation with every operation in parentheses and a space after
    /// each token, such as `( 1 + ( 2 * 3 ) ) `; it parses back to the same tree.
    pub fn canonical(&self) -> (r: String)
        ensures
            r@ == render(canonical_tokens(self@)),
        decreases self,
    {
        let space = " ";
        let open = "( ";
        let close = ") ";
        proof {
            reveal_strlit(" ");
            reveal_strlit("( ");
            reveal_strlit(") ");
            lemma_render_one(Lexeme::LeftParen);
            lemma_render_one(Lexeme::RightParen);
        }
        match self {
            S::Atom(t) => {
                proof {
                    lemma_render_one(t@);
                }
                t.text().concat(space)
            },
            S::Group(op, kids) => {
                proof {
                    lemma_tree_of_group(*op, *kids);
                    lemma_render_one(op@);
                }
                let ghost ks = kids@.map_values(|k: S| tree_of(k));
                if kids.len() == 1 {
                    proof {
                        assert(decreases_to!(*self => self->Group_1));
                        assert(decreases_to!(*kids => kids[0]));
                    }
                    let a = kids[0].canonical();
                    proof {
                        let ca = canonical_tokens(ks[0]);
                        lemma_render_concat(seq![Lexeme::LeftParen, op@], ca);
                        lemma_render_concat(seq![Lexeme::LeftParen, op@] + ca, seq![Lexeme::RightParen]);
                        lemma_render_concat(seq![Lexeme::LeftParen], seq![op@]);
                        assert(seq![Lexeme::LeftParen] + seq![op@] =~= seq![Lexeme::LeftParen, op@]);
                    }
                    let r = open.to_owned().concat(op.text().as_str()).concat(space).concat(
                        a.as_str(),
                    ).concat(close);
                    assert(r@ =~= render(canonical_tokens(self@)));
                    r
                } else if kids.len() == 2 {
                    proof {
                        assert(decreases_to!(*self => self->Group_1));
                        assert(decreases_to!(*kids => kids[0]));
                        assert(decreases_to!(*kids => kids[1]));
                    }
                    let a = kids[0].canonical();
                    let b = kids[1].canonical();
                    proof {
                        let ca = canonical_tokens(ks[0]);
                        let cb = canonical_tokens(ks[1]);
                        let p = seq![Lexeme::LeftParen];
                        lemma_render_concat(p, ca);
                        lemma_render_concat(p + ca, seq![op@]);
                        lemma_render_concat(p + ca + seq![op@], cb);
                        lemma_render_concat(p + ca + seq![op@] + cb, seq![Lexeme::RightParen]);
                    }
                    let r = open.to_owned().concat(a.as_str()).concat(op.text().as_str()).concat(
                        space,
                    ).concat(b.as_str()).concat(close);
                    assert(r@ =~= render(canonical_tokens(self@)));
                    r
                } else {
                    proof {
                        assert(render(Seq::<Lexeme>::empty()) =~= Seq::<char>::empty());
                    }
                    String::new()
                }
            },
        }
    }

    /// The tree in prefix notation, such as `(+ 1 (* 2 3))`.
    pub fn to_string(&self) -> (r: String)
        ensures
            r@ == show_tree(self@),
        decreases self,
    {
        match self {
            S::Atom(t) => t.text(),
            S::Group(head, rest) => {
                let open = "(";
                let space = " ";
                let close = ")";
                proof {
                    reveal_strlit("(");
                    reveal_strlit(" ");
                    reveal_strlit(")");
                }
                let ghost kids = rest@.map_values(|k: S| tree_of(k));
                proof {
                    lemma_tree_of_group(*head, *rest);
                }
                let mut out = open.to_owned().concat(head.text().as_str());
                let mut i: usize = 0;
                while i < rest.len()
                    invariant
                        *self == S::Group(*head, *rest),
                        i <= rest@.len(),
                        kids == rest@.map_values(|k: S| tree_of(k)),
                        space@ == seq![' '],
                        out@ == seq!['('] + lexeme_text(head@) + show_operands(kids, i as nat),
                    decreases rest@.len() - i,
                {
                    proof {
                        assert(decreases_to!(*rest => rest[i as int]));
                        assert(decreases_to!(*self => self->Group_1));
                        assert(decreases_to!(*self => rest[i as int]));
                    }
                    let part = rest[i].to_string();
                    let ghost prev = out@;
                    out = out.concat(space).concat(part.as_str());
                    assert(out@ =~= prev + seq![' '] + show_tree(kids[i as int]));
                    i += 1;
                }
                out.concat(close)
            },
        }
    }
}

} // verus!
