use vstd::prelude::*;

use crate::ast::Expr;

verus! {

/// The mathematical value of an expression, over unbounded integers.
pub open spec fn value(e: Expr) -> int
    decreases e,
{
    match e {
        Expr::Num(n) => n as int,
        Expr::Plus(l, r) => value(*l) + value(*r),
        Expr::Parened(inner) => value(*inner),
    }
}

/// The value of an expression when every addition wraps around on `i32`
/// overflow.
pub open spec fn wrapped_value(e: Expr) -> i32
    decreases e,
{
    match e {
        Expr::Num(n) => n,
        Expr::Plus(l, r) => wrapped_value(*l).wrapping_add(wrapped_value(*r)),
        Expr::Parened(inner) => wrapped_value(*inner),
    }
}

/// Every sub-expression of `e` has a value that fits in an `i32`.
pub open spec fn fits_i32(e: Expr) -> bool
    decreases e,
{
    &&& i32::MIN <= value(e) <= i32::MAX
    &&& match e {
        Expr::Num(_) => true,
        Expr::Plus(l, r) => fits_i32(*l) && fits_i32(*r),
        Expr::Parened(inner) => fits_i32(*inner),
    }
}

/// Every literal of `e` is non-negative.
pub open spec fn literals_nonneg(e: Expr) -> bool
    decreases e,
{
    match e {
        Expr::Num(n) => n >= 0,
        Expr::Plus(l, r) => literals_nonneg(*l) && literals_nonneg(*r),
        Expr::Parened(inner) => literals_nonneg(*inner),
    }
}

/// Where no sum leaves the range of `i32`, wrapping never happens and the
/// wrapped value is the mathematical one.
pub proof fn lemma_wrapped_is_value(e: Expr)
    requires
        fits_i32(e),
    ensures
        wrapped_value(e) == value(e),
    decreases e,
{
    match e {
        Expr::Num(_) => {},
        Expr::Plus(l, r) => {
            lemma_wrapped_is_value(*l);
            lemma_wrapped_is_value(*r);
        },
        Expr::Parened(inner) => {
            lemma_wrapped_is_value(*inner);
        },
    }
}

/// With non-negative literals, each sub-expression is bounded by the whole,
/// so a total that fits in `i32` means no sum overflows.
pub proof fn lemma_nonneg_fits(e: Expr)
    requires
        literals_nonneg(e),
        value(e) <= i32::MAX,
    ensures
        fits_i32(e),
        value(e) >= 0,
    decreases e,
{
    match e {
        Expr::Num(_) => {},
        Expr::Plus(l, r) => {
            lemma_nonneg_bounded(*l);
            lemma_nonneg_bounded(*r);
            lemma_nonneg_fits(*l);
            lemma_nonneg_fits(*r);
        },
        Expr::Parened(inner) => {
            lemma_nonneg_fits(*inner);
        },
    }
}

proof fn lemma_nonneg_bounded(e: Expr)
    requires
        literals_nonneg(e),
    ensures
        value(e) >= 0,
    decreases e,
{
    match e {
        Expr::Num(_) => {},
        Expr::Plus(l, r) => {
            lemma_nonneg_bounded(*l);
            lemma_nonneg_bounded(*r);
        },
        Expr::Parened(inner) => {
            lemma_nonneg_bounded(*inner);
        },
    }
}

/// Grouping is transparent: a parenthesized expression has the value of
/// the expression inside.
pub proof fn lemma_parened_transparent(inner: Expr)
    ensures
        value(Expr::Parened(Box::new(inner))) == value(inner),
        wrapped_value(Expr::Parened(Box::new(inner))) == wrapped_value(inner),
{
}

/// Reduces an expression to its value. Additions wrap around on `i32`
/// overflow; where no sum overflows, the result is the exact value.
pub fn calculate(expr: Expr) -> (r: i32)
    ensures
        r == wrapped_value(expr),
        fits_i32(expr) ==> r == value(expr),
    decreases expr,
{
    proof {
        if fits_i32(expr) {
            lemma_wrapped_is_value(expr);
        }
    }
    match expr {
        Expr::Num(num) => num,
        Expr::Plus(l, r) => calculate(*l).wrapping_add(calculate(*r)),
        Expr::Parened(inner) => calculate(*inner),
    }
}

} // verus!
