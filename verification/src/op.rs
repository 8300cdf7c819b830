//! The binary operators, their precedence and their arithmetic.

use vstd::prelude::*;
use crate::error::ArithmeticError;

verus! {

/// A binary operator.
#[derive(Clone, Copy, Debug, PartialEq, Eq, Structural)]
pub enum Op {
    Add,
    Sub,
    Mul,
    Div,
    Mod,
    And,
    Or,
    Xor,
    Shr,
    Shl,
}

/// The quotient of `a` by `b` rounded toward zero (`b` is not zero).
pub open spec fn trunc_div(a: int, b: int) -> int {
    if a >= 0 && b > 0 {
        a / b
    } else if a >= 0 {
        -(a / (-b))
    } else if b > 0 {
        -((-a) / b)
    } else {
        (-a) / (-b)
    }
}

/// The remainder that goes with `trunc_div` (`b` is not zero): it has the
/// sign of `a`.
pub open spec fn trunc_rem(a: int, b: int) -> int {
    if a >= 0 && b > 0 {
        a % b
    } else if a >= 0 {
        a % (-b)
    } else if b > 0 {
        -((-a) % b)
    } else {
        -((-a) % (-b))
    }
}

/// Whether `x` is the value of some `i32`.
pub open spec fn fits_i32(x: int) -> bool {
    i32::MIN <= x <= i32::MAX
}

fn overflow_if_none(checked: Option<i32>) -> (result: Result<i32, ArithmeticError>)
    ensures
        result == match checked {
            Some(v) => Ok::<i32, ArithmeticError>(v),
            None => Err(ArithmeticError::Overflow),
        },
{
    match checked {
        Some(v) => Ok(v),
        None => Err(ArithmeticError::Overflow),
    }
}

impl Op {
    /// How tightly the operator binds; a higher level binds tighter.
    pub open spec fn level(self) -> int {
        match self {
            Op::Or | Op::Xor => -2,
            Op::And => -1,
            Op::Add | Op::Sub => 0,
            Op::Mul | Op::Div | Op::Mod | Op::Shl | Op::Shr => 1,
        }
    }

    /// The operator as a function on the integers, where it is defined on
    /// `a` and `b` (see `faults`).
    pub open spec fn exact(self, a: i32, b: i32) -> int {
        match self {
            Op::Add => a + b,
            Op::Sub => a - b,
            Op::Mul => a * b,
            Op::Div => trunc_div(a as int, b as int),
            Op::Mod => trunc_rem(a as int, b as int),
            Op::And => (a & b) as int,
            Op::Or => (a | b) as int,
            Op::Xor => (a ^ b) as int,
            Op::Shr => (a >> b) as int,
            Op::Shl => (a << b) as int,
        }
    }

    /// Whether the operator divides and `b` is zero.
    pub open spec fn divides_by_zero(self, b: i32) -> bool {
        (self == Op::Div || self == Op::Mod) && b == 0
    }

    /// What applying the operator to two operands gives: the exact result
    /// where it fits in an `i32`, and otherwise the reason why there is none.
    /// A shift keeps the low 32 bits and asks for a distance in `0..32`; the
    /// remainder of `i32::MIN` by `-1` counts as an overflow.
    pub open spec fn outcome(self, a: i32, b: i32) -> Result<i32, ArithmeticError> {
        if self.divides_by_zero(b) {
            Err(ArithmeticError::DivisionByZero)
        } else if (self == Op::Shl || self == Op::Shr) && !(0 <= b < 32) {
            Err(ArithmeticError::Overflow)
        } else if self == Op::Mod && a == i32::MIN && b == -1 {
            Err(ArithmeticError::Overflow)
        } else if !fits_i32(self.exact(a, b)) {
            Err(ArithmeticError::Overflow)
        } else {
            Ok(self.exact(a, b) as i32)
        }
    }

    /// The operator's precedence level.
    pub fn precedence(&self) -> (level: i32)
        ensures
            level == self.level(),
    {
        match self {
            Op::Or | Op::Xor => -2,
            Op::And => -1,
            Op::Add | Op::Sub => 0,
            Op::Mul | Op::Div | Op::Mod | Op::Shl | Op::Shr => 1,
        }
    }

    /// Applies the operator to `arg1` and `arg2`.
    pub fn apply(&self, arg1: i32, arg2: i32) -> (result: Result<i32, ArithmeticError>)
        ensures
            result == self.outcome(arg1, arg2),
    {
        match self {
            Op::Add => overflow_if_none(arg1.checked_add(arg2)),
            Op::Sub => overflow_if_none(arg1.checked_sub(arg2)),
            Op::Mul => overflow_if_none(arg1.checked_mul(arg2)),
            Op::Div => if arg2 == 0 {
                Err(ArithmeticError::DivisionByZero)
            } else {
                overflow_if_none(arg1.checked_div(arg2))
            },
            Op::Mod => if arg2 == 0 {
                Err(ArithmeticError::DivisionByZero)
            } else {
                overflow_if_none(arg1.checked_rem(arg2))
            },
            Op::And => Ok(arg1 & arg2),
            Op::Or => Ok(arg1 | arg2),
            Op::Xor => Ok(arg1 ^ arg2),
            Op::Shr => if 0 <= arg2 && arg2 < 32 {
                Ok(arg1 >> arg2)
            } else {
                Err(ArithmeticError::Overflow)
            },
            Op::Shl => if 0 <= arg2 && arg2 < 32 {
                Ok(arg1 << arg2)
            } else {
                Err(ArithmeticError::Overflow)
            },
        }
    }
}

} // verus!
