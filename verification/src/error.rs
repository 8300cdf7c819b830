//! The failures that the three stages can report.

use vstd::prelude::*;

verus! {

/// Why a text could not be split into tokens.
#[derive(Clone, Copy, Debug, PartialEq, Eq, Structural)]
pub enum LexError {
    /// A run of digits denotes a number above `i32::MAX`.
    Overflow,
    /// One of the letters `X`, `O`, `A`, `S` does not start an operator keyword.
    MalformedKeyword,
}

/// Why a token sequence is not an expression.
#[derive(Clone, Copy, Debug, PartialEq, Eq, Structural)]
pub enum StructuralError {
    /// A closing parenthesis has no opening one before it.
    UnmatchedClose,
    /// An opening parenthesis was never closed.
    UnmatchedOpen,
    /// An operator or a negation lacks an operand, or there is no operand at all.
    MissingOperand,
    /// More than one operand is left when every operator has been applied.
    ExtraOperand,
}

/// Why a tree has no value.
#[derive(Clone, Copy, Debug, PartialEq, Eq, Structural)]
pub enum ArithmeticError {
    /// The right operand of a division or a remainder is zero.
    DivisionByZero,
    /// A result does not fit in an `i32`, or a shift distance is outside `0..32`.
    Overflow,
}

impl LexError {
    /// The words that `message` gives.
    pub open spec fn words(self) -> Seq<char> {
        match self {
            LexError::Overflow => "number too large"@,
            LexError::MalformedKeyword => "malformed operator keyword"@,
        }
    }

    /// A short description of the failure.
    pub fn message(&self) -> (text: &'static str)
        ensures
            text@ == self.words(),
    {
        match self {
            LexError::Overflow => "number too large",
            LexError::MalformedKeyword => "malformed operator keyword",
        }
    }
}

impl StructuralError {
    /// The words that `message` gives.
    pub open spec fn words(self) -> Seq<char> {
        match self {
            StructuralError::UnmatchedClose => "closing parenthesis without an opening one"@,
            StructuralError::UnmatchedOpen => "opening parenthesis without a closing one"@,
            StructuralError::MissingOperand => "missing operand"@,
            StructuralError::ExtraOperand => "operand without an operator"@,
        }
    }

    /// A short description of the failure.
    pub fn message(&self) -> (text: &'static str)
        ensures
            text@ == self.words(),
    {
        match self {
            StructuralError::UnmatchedClose => "closing parenthesis without an opening one",
            StructuralError::UnmatchedOpen => "opening parenthesis without a closing one",
            StructuralError::MissingOperand => "missing operand",
            StructuralError::ExtraOperand => "operand without an operator",
        }
    }
}

impl ArithmeticError {
    /// The words that `message` gives.
    pub open spec fn words(self) -> Seq<char> {
        match self {
            ArithmeticError::DivisionByZero => "division by zero"@,
            ArithmeticError::Overflow => "arithmetic overflow"@,
        }
    }

    /// A short description of the failure.
    pub fn message(&self) -> (text: &'static str)
        ensures
            text@ == self.words(),
    {
        match self {
            ArithmeticError::DivisionByZero => "division by zero",
            ArithmeticError::Overflow => "arithmetic overflow",
        }
    }
}

} // verus!
