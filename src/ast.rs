use vstd::prelude::*;

verus! {

/// A node of the syntax tree. Each child is owned by exactly one parent.
#[derive(Debug, PartialEq, Eq)]
pub enum Expr {
    Num(i32),
    Plus(Box<Expr>, Box<Expr>),
    Parened(Box<Expr>),
}

} // verus!
