//! The lexical units of an expression.

use vstd::prelude::*;
use crate::op::Op;

verus! {

/// One lexical unit.
#[derive(Clone, Copy, Debug, PartialEq, Eq, Structural)]
pub enum Token {
    /// An integer literal.
    Number(i32),
    /// A binary operator.
    Operator(Op),
    /// A grouping marker: `'('` opens a group and `')'` closes one.
    Parenthesis(char),
    /// A pending negation of the operand that follows.
    Unary,
}

} // verus!
