use vstd::prelude::*;

verus! {

/// A lexical unit of the expression language.
#[derive(Debug, Clone, Copy, PartialEq, Eq, Structural)]
pub enum Token {
    Int(i32),
    Plus,
    LeftParen,
    RightParen,
}

} // verus!
