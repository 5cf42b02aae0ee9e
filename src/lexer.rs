use vstd::prelude::*;

use crate::token::Token;

verus! {

/// Insignificant whitespace: space, tab, carriage return and newline.
pub open spec fn is_space(c: char) -> bool {
    c == ' ' || c == '\t' || c == '\r' || c == '\n'
}

/// A decimal digit.
pub open spec fn is_digit(c: char) -> bool {
    '0' <= c && c <= '9'
}

pub open spec fn digit_value(c: char) -> int {
    (c as u32) - ('0' as u32)
}

/// The input with its leading whitespace removed.
pub open spec fn skip_space(r: Seq<char>) -> Seq<char>
    decreases r.len(),
{
    if r.len() > 0 && is_space(r[0]) {
        skip_space(r.drop_first())
    } else {
        r
    }
}

/// The length of the maximal run of digits that starts the input.
pub open spec fn digit_run(r: Seq<char>) -> nat
    decreases r.len(),
{
    if r.len() > 0 && is_digit(r[0]) {
        1 + digit_run(r.drop_first())
    } else {
        0
    }
}

/// The number that a string of decimal digits denotes.
pub open spec fn digits_value(d: Seq<char>) -> int
    decreases d.len(),
{
    if d.len() == 0 {
        0
    } else {
        digits_value(d.drop_last()) * 10 + digit_value(d.last())
    }
}

/// One step of the lexer on the remaining input `r`: the token read, or
/// `None` at the end of input or on a lexical error, and the input left.
/// A digit run whose value exceeds `i32::MAX` is consumed and gives `None`;
/// an unrecognised character is left in place and gives `None`.
pub open spec fn scan(r: Seq<char>) -> (Option<Token>, Seq<char>) {
    let s = skip_space(r);
    if s.len() == 0 {
        (None, s)
    } else if is_digit(s[0]) {
        let k = digit_run(s) as int;
        let v = digits_value(s.take(k));
        (if v <= i32::MAX { Some(Token::Int(v as i32)) } else { None }, s.skip(k))
    } else if s[0] == '+' {
        (Some(Token::Plus), s.drop_first())
    } else if s[0] == '(' {
        (Some(Token::LeftParen), s.drop_first())
    } else if s[0] == ')' {
        (Some(Token::RightParen), s.drop_first())
    } else {
        (None, s)
    }
}

pub proof fn lemma_skip_space_suffix(r: Seq<char>)
    ensures
        skip_space(r).len() <= r.len(),
        skip_space(r) == r.skip(r.len() - skip_space(r).len()),
        skip_space(r).len() > 0 ==> !is_space(skip_space(r)[0]),
    decreases r.len(),
{
    if r.len() > 0 && is_space(r[0]) {
        lemma_skip_space_suffix(r.drop_first());
        assert(r.drop_first().skip(r.drop_first().len() - skip_space(r).len()) =~= r.skip(
            r.len() - skip_space(r).len(),
        ));
    } else {
        assert(r.skip(0) =~= r);
    }
}

pub proof fn lemma_digit_run_bound(r: Seq<char>)
    ensures
        digit_run(r) <= r.len(),
        r.len() > 0 && is_digit(r[0]) ==> digit_run(r) >= 1,
        forall|i: int| 0 <= i < digit_run(r) ==> is_digit(#[trigger] r[i]),
        digit_run(r) < r.len() ==> !is_digit(r[digit_run(r) as int]),
    decreases r.len(),
{
    if r.len() > 0 && is_digit(r[0]) {
        lemma_digit_run_bound(r.drop_first());
        assert forall|i: int| 0 <= i < digit_run(r) implies is_digit(#[trigger] r[i]) by {
            if i > 0 {
                assert(r[i] == r.drop_first()[i - 1]);
            }
        }
    }
}

/// Each step that yields a token consumes at least one character.
pub proof fn lemma_scan_shrinks(r: Seq<char>)
    ensures
        scan(r).1.len() <= r.len(),
        scan(r).0 is Some ==> scan(r).1.len() < r.len(),
{
    lemma_skip_space_suffix(r);
    let s = skip_space(r);
    if s.len() > 0 && is_digit(s[0]) {
        lemma_digit_run_bound(s);
    }
}

/// The tokens that successive steps of the lexer yield on `r`, up to the
/// first step that yields none.
pub open spec fn tokens(r: Seq<char>) -> Seq<Token>
    decreases r.len(),
{
    let (t, rest) = scan(r);
    match t {
        None => seq![],
        Some(t) => {
            proof {
                lemma_scan_shrinks(r);
            }
            seq![t] + tokens(rest)
        },
    }
}

/// Every character of `w` is whitespace.
pub open spec fn all_space(w: Seq<char>) -> bool {
    forall|i: int| 0 <= i < w.len() ==> is_space(#[trigger] w[i])
}

/// The decimal digit that stands for `d < 10`.
pub open spec fn digit_char(d: nat) -> char {
    (('0' as u32) + d) as char
}

/// The decimal numeral of `n`, without leading zeros.
pub open spec fn decimal(n: nat) -> Seq<char>
    decreases n,
{
    if n < 10 {
        seq![digit_char(n)]
    } else {
        decimal(n / 10).push(digit_char(n % 10))
    }
}

proof fn lemma_blank_skips(w: Seq<char>)
    requires
        all_space(w),
    ensures
        skip_space(w).len() == 0,
    decreases w.len(),
{
    if w.len() > 0 {
        assert(is_space(w[0]));
        assert forall|i: int| 0 <= i < w.len() - 1 implies is_space(#[trigger] w.drop_first()[i]) by {
            assert(w.drop_first()[i] == w[i + 1]);
        }
        lemma_blank_skips(w.drop_first());
    }
}

/// A prefix that is skipped whole leaves the skipping to what follows it.
proof fn lemma_skip_blank_prefix(w: Seq<char>, b: Seq<char>)
    requires
        skip_space(w).len() == 0,
    ensures
        skip_space(w + b) == skip_space(b),
    decreases w.len(),
{
    if w.len() == 0 {
        assert(w + b =~= b);
    } else {
        assert(is_space(w[0]));
        assert((w + b)[0] == w[0]);
        assert((w + b).drop_first() =~= w.drop_first() + b);
        lemma_skip_blank_prefix(w.drop_first(), b);
    }
}

/// Skipping stops inside a prefix that is not all whitespace.
proof fn lemma_skip_space_concat(x: Seq<char>, y: Seq<char>)
    requires
        skip_space(x).len() > 0,
    ensures
        skip_space(x + y) == skip_space(x) + y,
    decreases x.len(),
{
    assert(x.len() > 0);
    assert((x + y)[0] == x[0]);
    if is_space(x[0]) {
        assert((x + y).drop_first() =~= x.drop_first() + y);
        lemma_skip_space_concat(x.drop_first(), y);
    }
}

/// A digit run that ends inside `x`, or right before a non-digit, is not
/// extended by what follows.
pub(crate) proof fn lemma_digit_run_concat(x: Seq<char>, y: Seq<char>)
    requires
        digit_run(x) < x.len() || (y.len() > 0 && !is_digit(y[0])),
    ensures
        digit_run(x + y) == digit_run(x),
    decreases x.len(),
{
    if x.len() == 0 {
        assert(x + y =~= y);
    } else {
        assert((x + y)[0] == x[0]);
        if is_digit(x[0]) {
            assert((x + y).drop_first() =~= x.drop_first() + y);
            lemma_digit_run_concat(x.drop_first(), y);
        }
    }
}

pub(crate) proof fn lemma_tokens_unfold(r: Seq<char>)
    ensures
        tokens(r) == (match scan(r).0 {
            None => seq![],
            Some(t) => seq![t] + tokens(scan(r).1),
        }),
{
}

/// Lexing after a prefix `a` depends on what follows it only through the
/// whitespace-skipped remainder, as long as that remainder is separated from
/// `a` by whitespace.
proof fn lemma_separated_suffix(a: Seq<char>, t1: Seq<char>, t2: Seq<char>)
    requires
        t1.len() > 0 && is_space(t1[0]),
        t2.len() > 0 && is_space(t2[0]),
        skip_space(t1) == skip_space(t2),
    ensures
        tokens(a + t1) == tokens(a + t2),
    decreases a.len(),
{
    lemma_tokens_unfold(a + t1);
    lemma_tokens_unfold(a + t2);
    lemma_skip_space_suffix(a);
    let c = skip_space(a);
    if c.len() == 0 {
        lemma_skip_blank_prefix(a, t1);
        lemma_skip_blank_prefix(a, t2);
    } else {
        lemma_skip_space_concat(a, t1);
        lemma_skip_space_concat(a, t2);
        let s1 = c + t1;
        let s2 = c + t2;
        assert(s1[0] == c[0] && s2[0] == c[0]);
        if is_digit(c[0]) {
            lemma_digit_run_bound(c);
            lemma_digit_run_concat(c, t1);
            lemma_digit_run_concat(c, t2);
            let k = digit_run(c) as int;
            assert(s1.take(k) =~= c.take(k));
            assert(s2.take(k) =~= c.take(k));
            assert(s1.skip(k) =~= c.skip(k) + t1);
            assert(s2.skip(k) =~= c.skip(k) + t2);
            lemma_separated_suffix(c.skip(k), t1, t2);
        } else if c[0] == '+' || c[0] == '(' || c[0] == ')' {
            assert(s1.drop_first() =~= c.drop_first() + t1);
            assert(s2.drop_first() =~= c.drop_first() + t2);
            lemma_separated_suffix(c.drop_first(), t1, t2);
        }
    }
}

/// Lexing is insensitive to the amount of whitespace that separates two
/// pieces of input, though not to its presence.
pub proof fn lemma_whitespace_amount(a: Seq<char>, w1: Seq<char>, w2: Seq<char>, b: Seq<char>)
    requires
        w1.len() > 0,
        w2.len() > 0,
        all_space(w1),
        all_space(w2),
    ensures
        tokens(a + w1 + b) == tokens(a + w2 + b),
{
    lemma_blank_skips(w1);
    lemma_blank_skips(w2);
    lemma_skip_blank_prefix(w1, b);
    lemma_skip_blank_prefix(w2, b);
    assert((w1 + b)[0] == w1[0]);
    assert((w2 + b)[0] == w2[0]);
    lemma_separated_suffix(a, w1 + b, w2 + b);
    assert(a + w1 + b =~= a + (w1 + b));
    assert(a + w2 + b =~= a + (w2 + b));
}

/// Empty or whitespace-only input is at its end at once and yields no token.
pub proof fn lemma_blank_input(w: Seq<char>)
    requires
        all_space(w),
    ensures
        scan(w) == (None::<Token>, Seq::<char>::empty()),
        tokens(w) == Seq::<Token>::empty(),
{
    lemma_blank_skips(w);
    assert(skip_space(w) =~= Seq::<char>::empty());
}

pub(crate) proof fn lemma_decimal_digits(n: nat)
    ensures
        decimal(n).len() > 0,
        forall|i: int| 0 <= i < decimal(n).len() ==> is_digit(#[trigger] decimal(n)[i]),
        digits_value(decimal(n)) == n,
    decreases n,
{
    let d = (n % 10) as nat;
    assert(digit_value(digit_char(d)) == d);
    assert(decimal(n).last() == digit_char(d));
    let s = decimal(n);
    assert(digits_value(s) == digits_value(s.drop_last()) * 10 + d);
    if n < 10 {
        assert(s.drop_last() =~= Seq::<char>::empty());
        assert(digits_value(s.drop_last()) == 0);
    } else {
        lemma_decimal_digits(n / 10);
        assert(s.drop_last() =~= decimal(n / 10));
        assert(n == (n / 10) * 10 + d);
    }
}

/// The numeral of any `n` that fits in an `i32` lexes to exactly one
/// `Int(n)` token, followed by the end of input.
pub proof fn lemma_single_literal(n: nat)
    requires
        n <= i32::MAX,
    ensures
        scan(decimal(n)) == (Some(Token::Int(n as i32)), Seq::<char>::empty()),
        tokens(decimal(n)) == seq![Token::Int(n as i32)],
{
    let d = decimal(n);
    lemma_decimal_digits(n);
    lemma_digit_run_exact(d, d.len() as int);
    assert(d.take(d.len() as int) =~= d);
    assert(d.skip(d.len() as int) =~= Seq::<char>::empty());
    lemma_tokens_unfold(d);
    lemma_tokens_unfold(Seq::<char>::empty());
}

/// A forward-only producer of tokens over a source text.
pub struct Lexer {
    chars: Vec<char>,
    pos: usize,
}

impl View for Lexer {
    type V = Seq<char>;

    /// The input not yet consumed.
    closed spec fn view(&self) -> Seq<char> {
        self.chars@.skip(self.pos as int)
    }
}

impl Lexer {
    pub closed spec fn wf(&self) -> bool {
        self.pos <= self.chars.len()
    }

    pub fn new(code: &str) -> (r: Lexer)
        ensures
            r.wf(),
            r@ == code@,
    {
        let mut chars: Vec<char> = Vec::new();
        for c in it: code.chars()
            invariant
                chars@ == it.seq().take(it.index() as int),
        {
            chars.push(c);
        }
        assert(chars@.skip(0) =~= chars@);
        Self { chars, pos: 0 }
    }

    fn peek(&self) -> (r: Option<char>)
        requires
            self.wf(),
        ensures
            r == (if self@.len() > 0 { Some(self@[0]) } else { None::<char> }),
    {
        if self.pos < self.chars.len() {
            Some(self.chars[self.pos])
        } else {
            None
        }
    }

    /// Consumes and returns the next character of the input.
    pub fn next_char(&mut self) -> (r: Option<char>)
        requires
            old(self).wf(),
        ensures
            final(self).wf(),
            old(self)@.len() == 0 ==> r is None && final(self)@ == old(self)@,
            old(self)@.len() > 0 ==> r == Some(old(self)@[0]) && final(self)@
                == old(self)@.drop_first(),
    {
        if self.pos < self.chars.len() {
            let c = self.chars[self.pos];
            self.pos = self.pos + 1;
            assert(self@ =~= old(self)@.drop_first());
            Some(c)
        } else {
            None
        }
    }

    /// The next token, or `None` at the end of input or on a lexical error.
    pub fn next_token(&mut self) -> (r: Option<Token>)
        requires
            old(self).wf(),
        ensures
            final(self).wf(),
            (r, final(self)@) == scan(old(self)@),
    {
        match self.accept_next_token() {
            Ok(t) => Some(t),
            Err(_) => None,
        }
    }

    fn accept_next_token(&mut self) -> (r: Result<Token, ()>)
        requires
            old(self).wf(),
        ensures
            final(self).wf(),
            match r {
                Ok(t) => scan(old(self)@).0 == Some(t),
                Err(_) => scan(old(self)@).0 is None,
            },
            final(self)@ == scan(old(self)@).1,
        decreases old(self)@.len(), 1nat,
    {
        match self.peek() {
            None => Err(()),
            Some(c) => {
                if c == ' ' || c == '\n' || c == '\r' || c == '\t' {
                    self.ignore_white_and_accept_next()
                } else if '0' <= c && c <= '9' {
                    self.accept_int()
                } else if c == '+' {
                    self.accept_single(Token::Plus)
                } else if c == '(' {
                    self.accept_single(Token::LeftParen)
                } else if c == ')' {
                    self.accept_single(Token::RightParen)
                } else {
                    Err(())
                }
            },
        }
    }

    fn accept_single(&mut self, ty: Token) -> (r: Result<Token, ()>)
        requires
            old(self).wf(),
            old(self)@.len() > 0,
        ensures
            final(self).wf(),
            r == Ok::<Token, ()>(ty),
            final(self)@ == old(self)@.drop_first(),
    {
        self.next_char();
        Ok(ty)
    }

    fn ignore_white_and_accept_next(&mut self) -> (r: Result<Token, ()>)
        requires
            old(self).wf(),
            old(self)@.len() > 0,
            is_space(old(self)@[0]),
        ensures
            final(self).wf(),
            match r {
                Ok(t) => scan(old(self)@).0 == Some(t),
                Err(_) => scan(old(self)@).0 is None,
            },
            final(self)@ == scan(old(self)@).1,
        decreases old(self)@.len(), 0nat,
    {
        self.next_char();
        loop
            invariant
                self.wf(),
                self@.len() < old(self)@.len(),
                skip_space(self@) == skip_space(old(self)@),
            decreases self@.len(),
        {
            match self.peek() {
                Some(c) => {
                    if c == ' ' || c == '\n' || c == '\r' || c == '\t' {
                        self.next_char();
                    } else {
                        break;
                    }
                },
                None => break,
            }
        }
        self.accept_next_token()
    }

    fn accept_int(&mut self) -> (r: Result<Token, ()>)
        requires
            old(self).wf(),
            old(self)@.len() > 0,
            is_digit(old(self)@[0]),
        ensures
            final(self).wf(),
            ({
                let k = digit_run(old(self)@) as int;
                let v = digits_value(old(self)@.take(k));
                &&& r == (if v <= i32::MAX {
                    Ok::<Token, ()>(Token::Int(v as i32))
                } else {
                    Err(())
                })
                &&& final(self)@ == old(self)@.skip(k)
            }),
    {
        let ghost start = self@;
        let mut val: i32 = 0;
        let mut overflow = false;
        loop
            invariant
                self.wf(),
                self@.len() <= start.len(),
                start == old(self)@,
                ({
                    let n = start.len() - self@.len();
                    &&& self@ == start.skip(n)
                    &&& forall|i: int| 0 <= i < n ==> is_digit(#[trigger] start[i])
                    &&& !overflow ==> val == digits_value(start.take(n)) && val >= 0
                    &&& overflow ==> digits_value(start.take(n)) > i32::MAX
                }),
            ensures
                self@.len() == 0 || !is_digit(self@[0]),
            decreases self@.len(),
        {
            let ghost n = start.len() - self@.len();
            match self.peek() {
                Some(c) => {
                    if '0' <= c && c <= '9' {
                        self.next_char();
                        proof {
                            assert(start.take(n + 1).drop_last() =~= start.take(n));
                            assert(start.skip(n).drop_first() =~= start.skip(n + 1));
                            assert(start[n] == c);
                        }
                        let d = (c as u32 - '0' as u32) as i32;
                        if !overflow {
                            match val.checked_mul(10) {
                                Some(m) => match m.checked_add(d) {
                                    Some(s) => {
                                        val = s;
                                    },
                                    None => {
                                        overflow = true;
                                    },
                                },
                                None => {
                                    overflow = true;
                                    assert(val * 10 + d > i32::MAX);
                                },
                            }
                        } else {
                            let ghost p = digits_value(start.take(n));
                            assert(p * 10 + digit_value(c) > i32::MAX) by (nonlinear_arith)
                                requires
                                    p > i32::MAX,
                                    digit_value(c) >= 0,
                            ;
                        }
                    } else {
                        break;
                    }
                },
                None => break,
            }
        }
        proof {
            let n = start.len() - self@.len();
            lemma_digit_run_exact(start, n);
        }
        if overflow {
            Err(())
        } else {
            Ok(Token::Int(val))
        }
    }
}

pub(crate) proof fn lemma_digit_run_exact(r: Seq<char>, n: int)
    requires
        0 <= n <= r.len(),
        forall|i: int| 0 <= i < n ==> is_digit(#[trigger] r[i]),
        n == r.len() || !is_digit(r[n]),
    ensures
        digit_run(r) == n,
    decreases n,
{
    if n > 0 {
        assert(is_digit(r[0]));
        assert forall|i: int| 0 <= i < n - 1 implies is_digit(#[trigger] r.drop_first()[i]) by {
            assert(r.drop_first()[i] == r[i + 1]);
        }
        if n < r.len() {
            assert(r.drop_first()[n - 1] == r[n]);
        }
        lemma_digit_run_exact(r.drop_first(), n - 1);
    }
}

} // verus!
