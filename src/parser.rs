use vstd::prelude::*;

use crate::ast::Expr;
use crate::eval::{literals_nonneg, lemma_nonneg_fits, lemma_wrapped_is_value, value, wrapped_value};
use crate::lexer::{
    decimal, digit_run, is_digit, lemma_decimal_digits, lemma_digit_run_concat,
    lemma_digit_run_exact, lemma_tokens_unfold, tokens, Lexer,
};
use crate::token::Token;

verus! {

/// Why a token stream is not an expression.
#[derive(Debug, Clone, Copy, PartialEq, Eq, Structural)]
pub enum SyntaxError {
    UnexpectedEof,
    UnexpectedToken(Token),
}

/// The prefix form of an expression: the tokens that spell it.
pub open spec fn to_tokens(e: Expr) -> Seq<Token>
    decreases e,
{
    match e {
        Expr::Num(n) => seq![Token::Int(n)],
        Expr::Plus(l, r) => seq![Token::Plus] + to_tokens(*l) + to_tokens(*r),
        Expr::Parened(inner) => seq![Token::LeftParen] + to_tokens(*inner) + seq![
            Token::RightParen,
        ],
    }
}

/// Recursive descent over `Expr := Int | "+" Expr Expr | "(" Expr ")"` on a
/// token sequence: the expression at its front and the tokens after it, or
/// the first error met. The length test on the left operand's remainder
/// always holds (see `lemma_parse_prefix`); it makes the recursion visibly
/// well-founded.
pub open spec fn parse(ts: Seq<Token>) -> Result<(Expr, Seq<Token>), SyntaxError>
    decreases ts.len(),
{
    if ts.len() == 0 {
        Err(SyntaxError::UnexpectedEof)
    } else {
        match ts[0] {
            Token::Plus => match parse(ts.drop_first()) {
                Err(err) => Err(err),
                Ok((l, rest)) => if rest.len() < ts.len() {
                    match parse(rest) {
                        Err(err) => Err(err),
                        Ok((r, rest2)) => Ok((Expr::Plus(Box::new(l), Box::new(r)), rest2)),
                    }
                } else {
                    Err(SyntaxError::UnexpectedEof)
                },
            },
            Token::LeftParen => match parse(ts.drop_first()) {
                Err(err) => Err(err),
                Ok((inner, rest)) => if rest.len() == 0 {
                    Err(SyntaxError::UnexpectedEof)
                } else if rest[0] == Token::RightParen {
                    Ok((Expr::Parened(Box::new(inner)), rest.drop_first()))
                } else {
                    Err(SyntaxError::UnexpectedToken(rest[0]))
                },
            },
            Token::Int(n) => Ok((Expr::Num(n), ts.drop_first())),
            Token::RightParen => Err(SyntaxError::UnexpectedToken(Token::RightParen)),
        }
    }
}

/// What parsing succeeds on is an expression's prefix form followed by the
/// tokens it leaves.
pub proof fn lemma_parse_prefix(ts: Seq<Token>)
    ensures
        parse(ts) matches Ok((e, rest)) ==> ts == to_tokens(e) + rest && rest.len() < ts.len(),
    decreases ts.len(),
{
    if ts.len() > 0 {
        let tl = ts.drop_first();
        lemma_parse_prefix(tl);
        assert(ts =~= seq![ts[0]] + tl);
        match ts[0] {
            Token::Plus => {
                if let Ok((l, rest)) = parse(tl) {
                    lemma_parse_prefix(rest);
                    if let Ok((r, rest2)) = parse(rest) {
                        assert(tl =~= to_tokens(l) + (to_tokens(r) + rest2));
                        assert(ts =~= seq![Token::Plus] + to_tokens(l) + to_tokens(r) + rest2);
                    }
                }
            },
            Token::LeftParen => {
                if let Ok((inner, rest)) = parse(tl) {
                    if rest.len() > 0 && rest[0] == Token::RightParen {
                        assert(rest =~= seq![Token::RightParen] + rest.drop_first());
                        assert(ts =~= seq![Token::LeftParen] + to_tokens(inner) + seq![
                            Token::RightParen,
                        ] + rest.drop_first());
                    }
                }
            },
            Token::Int(n) => {
                assert(ts =~= seq![Token::Int(n)] + tl);
            },
            Token::RightParen => {},
        }
    }
}

/// Parsing the prefix form of an expression gives that expression back,
/// and leaves whatever followed it.
pub proof fn lemma_parse_round_trip(e: Expr, rest: Seq<Token>)
    ensures
        parse(to_tokens(e) + rest) == Ok::<(Expr, Seq<Token>), SyntaxError>((e, rest)),
    decreases e,
{
    let ts = to_tokens(e) + rest;
    match e {
        Expr::Num(n) => {
            assert(ts.drop_first() =~= rest);
        },
        Expr::Plus(l, r) => {
            assert(ts.drop_first() =~= to_tokens(*l) + (to_tokens(*r) + rest));
            lemma_parse_round_trip(*l, to_tokens(*r) + rest);
            lemma_parse_round_trip(*r, rest);
        },
        Expr::Parened(inner) => {
            let after = seq![Token::RightParen] + rest;
            assert(ts.drop_first() =~= to_tokens(*inner) + after);
            lemma_parse_round_trip(*inner, after);
            assert(after.drop_first() =~= rest);
        },
    }
}

/// A source text for an expression: literals in decimal, `+` followed by a
/// space and its operands separated by a space, and parentheses around a
/// grouped expression.
pub open spec fn render(e: Expr) -> Seq<char>
    decreases e,
{
    match e {
        Expr::Num(n) => decimal(n as nat),
        Expr::Plus(l, r) => seq!['+', ' '] + render(*l) + seq![' '] + render(*r),
        Expr::Parened(inner) => seq!['('] + render(*inner) + seq![')'],
    }
}

proof fn lemma_tokens_after_space(x: Seq<char>)
    ensures
        tokens(seq![' '] + x) == tokens(x),
{
    let s = seq![' '] + x;
    assert(s.drop_first() =~= x);
    lemma_tokens_unfold(s);
    lemma_tokens_unfold(x);
}

/// The text of an expression lexes to its prefix form, whatever follows it
/// that does not extend its last literal.
pub proof fn lemma_lex_render(e: Expr, t: Seq<char>)
    requires
        literals_nonneg(e),
        t.len() == 0 || !is_digit(t[0]),
    ensures
        tokens(render(e) + t) == to_tokens(e) + tokens(t),
    decreases e,
{
    let s = render(e) + t;
    lemma_tokens_unfold(s);
    match e {
        Expr::Num(n) => {
            let d = decimal(n as nat);
            lemma_decimal_digits(n as nat);
            lemma_digit_run_exact(d, d.len() as int);
            if t.len() == 0 {
                assert(s =~= d);
            } else {
                lemma_digit_run_concat(d, t);
            }
            assert(s[0] == d[0]);
            assert(digit_run(s) == d.len());
            assert(s.take(d.len() as int) =~= d);
            assert(s.skip(d.len() as int) =~= t);
        },
        Expr::Plus(l, r) => {
            let rl = render(*l);
            let rr = render(*r);
            let t2 = seq![' '] + rr + t;
            assert(s.drop_first() =~= seq![' '] + (rl + t2));
            lemma_tokens_after_space(rl + t2);
            assert(t2[0] == ' ');
            lemma_lex_render(*l, t2);
            assert(t2 =~= seq![' '] + (rr + t));
            lemma_tokens_after_space(rr + t);
            lemma_lex_render(*r, t);
            assert(to_tokens(e) + tokens(t) =~= seq![Token::Plus] + (to_tokens(*l) + (
            to_tokens(*r) + tokens(t))));
        },
        Expr::Parened(inner) => {
            let ri = render(*inner);
            let t2 = seq![')'] + t;
            assert(s.drop_first() =~= ri + t2);
            assert(t2[0] == ')');
            lemma_lex_render(*inner, t2);
            lemma_tokens_unfold(t2);
            assert(t2.drop_first() =~= t);
            assert(to_tokens(e) + tokens(t) =~= seq![Token::LeftParen] + (to_tokens(*inner) + (
            seq![Token::RightParen] + tokens(t))));
        },
    }
}

/// Lexing and parsing the text of a well-formed prefix expression gives the
/// expression back with no token left over, and evaluating it gives its
/// arithmetic value, when that value fits in an `i32` and its literals are
/// non-negative.
pub proof fn lemma_text_round_trip(e: Expr)
    requires
        literals_nonneg(e),
        value(e) <= i32::MAX,
    ensures
        parse(tokens(render(e))) == Ok::<(Expr, Seq<Token>), SyntaxError>((e, seq![])),
        wrapped_value(e) == value(e),
{
    lemma_lex_render(e, seq![]);
    assert(render(e) + seq![] =~= render(e));
    lemma_tokens_unfold(seq![]);
    assert(to_tokens(e) + tokens(seq![]) =~= to_tokens(e) + seq![]);
    lemma_parse_round_trip(e, seq![]);
    lemma_nonneg_fits(e);
    lemma_wrapped_is_value(e);
}

/// A token that can begin an expression: an integer, `+` or `(`.
pub open spec fn starts_expr(t: Token) -> bool {
    t is Int || t is Plus || t is LeftParen
}

/// A stream whose first token cannot begin an expression fails with that
/// token.
pub proof fn lemma_unexpected_start(ts: Seq<Token>)
    requires
        ts.len() > 0,
        !starts_expr(ts[0]),
    ensures
        parse(ts) == Err::<(Expr, Seq<Token>), SyntaxError>(SyntaxError::UnexpectedToken(ts[0])),
{
}

/// A proper prefix of an expression's prefix form runs out of tokens:
/// parsing it fails with `UnexpectedEof`.
pub proof fn lemma_truncated(e: Expr, n: int)
    requires
        0 <= n < to_tokens(e).len(),
    ensures
        parse(to_tokens(e).take(n)) == Err::<(Expr, Seq<Token>), SyntaxError>(
            SyntaxError::UnexpectedEof,
        ),
    decreases e,
{
    let ts = to_tokens(e).take(n);
    if n > 0 {
        match e {
            Expr::Num(_) => {},
            Expr::Plus(l, r) => {
                let tl = to_tokens(*l);
                let tr = to_tokens(*r);
                if n - 1 < tl.len() {
                    assert(ts.drop_first() =~= tl.take(n - 1));
                    lemma_truncated(*l, n - 1);
                } else {
                    let m = n - 1 - tl.len();
                    assert(ts.drop_first() =~= tl + tr.take(m));
                    lemma_parse_round_trip(*l, tr.take(m));
                    lemma_truncated(*r, m);
                }
            },
            Expr::Parened(inner) => {
                let ti = to_tokens(*inner);
                if n - 1 < ti.len() {
                    assert(ts.drop_first() =~= ti.take(n - 1));
                    lemma_truncated(*inner, n - 1);
                } else {
                    assert(ts.drop_first() =~= ti + Seq::<Token>::empty());
                    lemma_parse_round_trip(*inner, Seq::<Token>::empty());
                }
            },
        }
    }
}

/// A parser over a lexer, with a one-token lookahead.
pub struct Parser {
    lexer: Lexer,
    lookahead: Option<Token>,
}

impl View for Parser {
    type V = Seq<Token>;

    /// The tokens still to be parsed: the lookahead, then what the lexer
    /// yields after it.
    closed spec fn view(&self) -> Seq<Token> {
        match self.lookahead {
            None => seq![],
            Some(t) => seq![t] + tokens(self.lexer@),
        }
    }
}

impl Parser {
    pub closed spec fn wf(&self) -> bool {
        self.lexer.wf()
    }

    /// Makes a parser over `lexer`, pulling its first token at once.
    pub fn new(lexer: Lexer) -> (r: Parser)
        requires
            lexer.wf(),
        ensures
            r.wf(),
            r@ == tokens(lexer@),
    {
        let mut lexer = lexer;
        let lookahead = lexer.next_token();
        Self { lexer, lookahead }
    }

    fn lookahead_ref(&self) -> (r: Result<&Token, SyntaxError>)
        ensures
            self@.len() == 0 ==> r == Err::<&Token, SyntaxError>(SyntaxError::UnexpectedEof),
            self@.len() > 0 ==> (r matches Ok(t) && *t == self@[0]),
    {
        match &self.lookahead {
            Some(t) => Ok(t),
            None => Err(SyntaxError::UnexpectedEof),
        }
    }

    fn match_token(&self, token: Token) -> (r: Result<bool, SyntaxError>)
        ensures
            self@.len() == 0 ==> r == Err::<bool, SyntaxError>(SyntaxError::UnexpectedEof),
            self@.len() > 0 ==> r == Ok::<bool, SyntaxError>(self@[0] == token),
    {
        match self.lookahead_ref() {
            Ok(t) => Ok(*t == token),
            Err(err) => Err(err),
        }
    }

    #[allow(dead_code)]
    fn match_int(&self) -> (r: Result<bool, SyntaxError>)
        ensures
            self@.len() == 0 ==> r == Err::<bool, SyntaxError>(SyntaxError::UnexpectedEof),
            self@.len() > 0 ==> r == Ok::<bool, SyntaxError>(self@[0] is Int),
    {
        match self.lookahead_ref() {
            Ok(t) => Ok(
                if let Token::Int(_) = t {
                    true
                } else {
                    false
                },
            ),
            Err(err) => Err(err),
        }
    }

    fn advance(&mut self)
        requires
            old(self).wf(),
        ensures
            final(self).wf(),
            final(self)@ == tokens(old(self).lexer@),
    {
        self.lookahead = self.lexer.next_token();
    }

    fn consume(&mut self, token: Token) -> (r: Result<(), SyntaxError>)
        requires
            old(self).wf(),
        ensures
            final(self).wf(),
            old(self)@.len() == 0 ==> r == Err::<(), SyntaxError>(SyntaxError::UnexpectedEof),
            old(self)@.len() > 0 && old(self)@[0] == token ==> r == Ok::<(), SyntaxError>(())
                && final(self)@ == old(self)@.drop_first(),
            old(self)@.len() > 0 && old(self)@[0] != token ==> r == Err::<(), SyntaxError>(
                SyntaxError::UnexpectedToken(old(self)@[0]),
            ),
    {
        match self.lookahead.take() {
            None => Err(SyntaxError::UnexpectedEof),
            Some(lookahead) => {
                if token == lookahead {
                    self.advance();
                    assert(old(self)@.drop_first() =~= tokens(old(self).lexer@));
                    Ok(())
                } else {
                    Err(SyntaxError::UnexpectedToken(lookahead))
                }
            },
        }
    }

    /// Parses one expression from the front of the token stream. Tokens
    /// after it are left for the caller.
    pub fn parse_expr(&mut self) -> (r: Result<Expr, SyntaxError>)
        requires
            old(self).wf(),
        ensures
            final(self).wf(),
            match parse(old(self)@) {
                Ok((e, rest)) => r == Ok::<Expr, SyntaxError>(e) && final(self)@ == rest,
                Err(err) => r == Err::<Expr, SyntaxError>(err),
            },
        decreases old(self)@.len(),
    {
        let ghost ts = self@;
        proof {
            lemma_parse_prefix(ts.drop_first());
        }
        match self.match_token(Token::Plus) {
            Err(err) => return Err(err),
            Ok(true) => {
                match self.consume(Token::Plus) {
                    Err(err) => return Err(err),
                    Ok(()) => {},
                }
                let left = match self.parse_expr() {
                    Err(err) => return Err(err),
                    Ok(l) => Box::new(l),
                };
                let right = match self.parse_expr() {
                    Err(err) => return Err(err),
                    Ok(r) => Box::new(r),
                };
                return Ok(Expr::Plus(left, right));
            },
            Ok(false) => {},
        }
        match self.match_token(Token::LeftParen) {
            Err(err) => return Err(err),
            Ok(true) => {
                match self.consume(Token::LeftParen) {
                    Err(err) => return Err(err),
                    Ok(()) => {},
                }
                let inner = match self.parse_expr() {
                    Err(err) => return Err(err),
                    Ok(e) => Box::new(e),
                };
                match self.consume(Token::RightParen) {
                    Err(err) => return Err(err),
                    Ok(()) => {},
                }
                return Ok(Expr::Parened(inner));
            },
            Ok(false) => {},
        }
        match self.parse_int() {
            Err(err) => Err(err),
            Ok(n) => Ok(Expr::Num(n)),
        }
    }

    fn parse_int(&mut self) -> (r: Result<i32, SyntaxError>)
        requires
            old(self).wf(),
        ensures
            final(self).wf(),
            old(self)@.len() == 0 ==> r == Err::<i32, SyntaxError>(SyntaxError::UnexpectedEof),
            old(self)@.len() > 0 ==> match old(self)@[0] {
                Token::Int(n) => r == Ok::<i32, SyntaxError>(n) && final(self)@ == old(
                    self,
                )@.drop_first(),
                t => r == Err::<i32, SyntaxError>(SyntaxError::UnexpectedToken(t)),
            },
    {
        match self.lookahead.take() {
            None => Err(SyntaxError::UnexpectedEof),
            Some(Token::Int(num)) => {
                self.advance();
                assert(old(self)@.drop_first() =~= tokens(old(self).lexer@));
                Ok(num)
            },
            Some(lookahead) => Err(SyntaxError::UnexpectedToken(lookahead)),
        }
    }
}

} // verus!
