//! Numbers of 32 bits without sign.

use crate::arithmetic_circuit::AGateType;
use crate::execution::{flag, power, power_fits, truth_value};
use crate::number::{Number, NumberError};
use crate::text::{chars_of, decimal_text, parse_u32, parsed_u32, push_decimal, text_of};
use vstd::arithmetic::power::pow;
use vstd::prelude::*;

verus! {

/// A number of 32 bits without sign.
#[derive(Debug, PartialEq, Eq)]
pub struct NumberU32(pub u32);

impl Clone for NumberU32 {
    fn clone(&self) -> (copy: Self)
        ensures
            copy == *self,
    {
        NumberU32(self.0)
    }
}

/// A gate of type `op` has a result of 32 bits for these two numbers: no sum, product
/// or power too large, no difference below zero, no shift by 32 bits or
/// more. A division by zero is no such case: it is answered with an error.
pub open spec fn u32_admits(left: u32, op: AGateType, right: u32) -> bool {
    match op {
        AGateType::AAdd => left + right <= u32::MAX,
        AGateType::AMul => left * right <= u32::MAX,
        AGateType::ASub => right <= left,
        AGateType::APow => pow(left as int, right as nat) <= u32::MAX,
        AGateType::AShiftL => right < 32,
        AGateType::AShiftR => right < 32,
        _ => true,
    }
}

/// What a gate of type `op` yields for two numbers that it admits.
pub open spec fn u32_applied(left: u32, op: AGateType, right: u32) -> Result<u32, NumberError> {
    match op {
        AGateType::AAdd => Ok((left + right) as u32),
        AGateType::ADiv => Err(NumberError::UnsupportedOperation(AGateType::ADiv)),
        AGateType::AEq => Ok(flag(left == right)),
        AGateType::AGEq => Ok(flag(left >= right)),
        AGateType::AGt => Ok(flag(left > right)),
        AGateType::ALEq => Ok(flag(left <= right)),
        AGateType::ALt => Ok(flag(left < right)),
        AGateType::AMul => Ok((left * right) as u32),
        AGateType::ANeq => Ok(flag(left != right)),
        AGateType::ASub => Ok((left - right) as u32),
        AGateType::AXor => Ok(left ^ right),
        AGateType::APow => Ok(pow(left as int, right as nat) as u32),
        AGateType::AIntDiv => if right == 0 {
            Err(NumberError::DivisionByZero)
        } else {
            Ok(left / right)
        },
        AGateType::AMod => if right == 0 {
            Err(NumberError::DivisionByZero)
        } else {
            Ok(left % right)
        },
        AGateType::AShiftL => Ok(left << right),
        AGateType::AShiftR => Ok(left >> right),
        AGateType::ABoolOr => Ok(flag(left != 0 || right != 0)),
        AGateType::ABoolAnd => Ok(flag(left != 0 && right != 0)),
        AGateType::ABitOr => Ok(left | right),
        AGateType::ABitAnd => Ok(left & right),
    }
}

impl NumberU32 {
    /// Tells whether a gate of type `op` may be applied to the number and `rhs`.
    pub fn admits_op(&self, op: AGateType, rhs: &Self) -> (admitted: bool)
        ensures
            admitted == self.admits(op, rhs),
    {
        match op {
            AGateType::AAdd => self.0.checked_add(rhs.0).is_some(),
            AGateType::AMul => self.0.checked_mul(rhs.0).is_some(),
            AGateType::ASub => rhs.0 <= self.0,
            AGateType::APow => power_fits(self.0, rhs.0),
            AGateType::AShiftL => rhs.0 < 32,
            AGateType::AShiftR => rhs.0 < 32,
            _ => true,
        }
    }
}

impl Number for NumberU32 {
    open spec fn zero_value() -> Self {
        NumberU32(0)
    }

    open spec fn admits(&self, op: AGateType, rhs: &Self) -> bool {
        u32_admits(self.0, op, rhs.0)
    }

    open spec fn applied(&self, op: AGateType, rhs: &Self) -> Result<Self, NumberError> {
        match u32_applied(self.0, op, rhs.0) {
            Ok(value) => Ok(NumberU32(value)),
            Err(error) => Err(error),
        }
    }

    open spec fn parsed(text: Seq<char>) -> Result<Self, NumberError> {
        match parsed_u32(text) {
            Some(value) => Ok(NumberU32(value)),
            None => Err(NumberError::ParseError),
        }
    }

    open spec fn printed(&self) -> Seq<char> {
        decimal_text(self.0 as nat)
    }

    fn zero() -> (number: Self) {
        NumberU32(0)
    }

    fn from_str(s: &str) -> (result: Result<Self, NumberError>) {
        match parse_u32(&chars_of(s)) {
            Some(n) => Ok(NumberU32(n)),
            None => Err(NumberError::ParseError),
        }
    }

    fn to_string(&self) -> (text: String) {
        let mut digits: Vec<char> = Vec::new();
        push_decimal(&mut digits, self.0 as u64);
        text_of(&digits)
    }

    fn infix_op(&self, op: AGateType, rhs: &Self) -> (result: Result<Self, NumberError>) {
        Ok(
            NumberU32(
                match op {
                    AGateType::AAdd => self.0 + rhs.0,
                    AGateType::ADiv => return Err(
                        NumberError::UnsupportedOperation(AGateType::ADiv),
                    ),
                    AGateType::AEq => truth_value(self.0 == rhs.0),
                    AGateType::AGEq => truth_value(self.0 >= rhs.0),
                    AGateType::AGt => truth_value(self.0 > rhs.0),
                    AGateType::ALEq => truth_value(self.0 <= rhs.0),
                    AGateType::ALt => truth_value(self.0 < rhs.0),
                    AGateType::AMul => self.0 * rhs.0,
                    AGateType::ANeq => truth_value(self.0 != rhs.0),
                    AGateType::ASub => self.0 - rhs.0,
                    AGateType::AXor => self.0 ^ rhs.0,
                    AGateType::APow => power(self.0, rhs.0),
                    AGateType::AIntDiv => {
                        if rhs.0 == 0 {
                            return Err(NumberError::DivisionByZero);
                        }
                        self.0 / rhs.0
                    },
                    AGateType::AMod => {
                        if rhs.0 == 0 {
                            return Err(NumberError::DivisionByZero);
                        }
                        self.0 % rhs.0
                    },
                    AGateType::AShiftL => self.0 << rhs.0,
                    AGateType::AShiftR => self.0 >> rhs.0,
                    AGateType::ABoolOr => truth_value(self.0 != 0 || rhs.0 != 0),
                    AGateType::ABoolAnd => truth_value(self.0 != 0 && rhs.0 != 0),
                    AGateType::ABitOr => self.0 | rhs.0,
                    AGateType::ABitAnd => self.0 & rhs.0,
                },
            ),
        )
    }
}

} // verus!
