//! Evaluation of a single binary operation on 32-bit values.

use vstd::arithmetic::power::{lemma0_pow, lemma1_pow, lemma_pow0, lemma_pow_increases, pow};
use vstd::prelude::*;

verus! {

/// The operations a gate can apply to two values.
#[derive(Debug, Clone, Copy, PartialEq, Eq)]
pub enum Operation {
    Add,
    Subtract,
    Multiply,
    Divide,
    Exponentiate,
    Modulus,
    Equals,
    NotEquals,
    LessThan,
    LessOrEqual,
    GreaterThan,
    GreaterOrEqual,
    And,
    Or,
    AndBitwise,
    OrBitwise,
    XorBitwise,
    ShiftLeft,
    ShiftRight,
}

/// A truth value as a number: one for true, zero for false.
pub open spec fn flag(truth: bool) -> u32 {
    if truth {
        1
    } else {
        0
    }
}

/// The operation has a result that fits in 32 bits: no sum, product or
/// power too large, no difference below zero, no division by zero, no shift
/// by 32 bits or more.
pub open spec fn operation_defined(operation: Operation, left: u32, right: u32) -> bool {
    match operation {
        Operation::Add => left + right <= u32::MAX,
        Operation::Subtract => right <= left,
        Operation::Multiply => left * right <= u32::MAX,
        Operation::Divide => right != 0,
        Operation::Exponentiate => pow(left as int, right as nat) <= u32::MAX,
        Operation::Modulus => right != 0,
        Operation::ShiftLeft => right < 32,
        Operation::ShiftRight => right < 32,
        _ => true,
    }
}

/// What the operation yields where it is defined.
pub open spec fn operation_result(operation: Operation, left: u32, right: u32) -> u32 {
    match operation {
        Operation::Add => (left + right) as u32,
        Operation::Subtract => (left - right) as u32,
        Operation::Multiply => (left * right) as u32,
        Operation::Divide => left / right,
        Operation::Exponentiate => pow(left as int, right as nat) as u32,
        Operation::Modulus => left % right,
        Operation::Equals => flag(left == right),
        Operation::NotEquals => flag(left != right),
        Operation::LessThan => flag(left < right),
        Operation::LessOrEqual => flag(left <= right),
        Operation::GreaterThan => flag(left > right),
        Operation::GreaterOrEqual => flag(left >= right),
        Operation::And => flag(left != 0 && right != 0),
        Operation::Or => flag(left != 0 || right != 0),
        Operation::AndBitwise => left & right,
        Operation::OrBitwise => left | right,
        Operation::XorBitwise => left ^ right,
        Operation::ShiftLeft => left << right,
        Operation::ShiftRight => left >> right,
    }
}

/// One for true, zero for false.
pub fn truth_value(truth: bool) -> (value: u32)
    ensures
        value == flag(truth),
{
    if truth {
        1
    } else {
        0
    }
}

/// Raises `base` to the power `exponent`.
pub fn power(base: u32, exponent: u32) -> (result: u32)
    requires
        pow(base as int, exponent as nat) <= u32::MAX,
    ensures
        result == pow(base as int, exponent as nat),
{
    if exponent == 0 {
        proof {
            lemma_pow0(base as int);
        }
        return 1;
    }
    if base == 0 {
        proof {
            lemma0_pow(exponent as nat);
        }
        return 0;
    }
    if base == 1 {
        proof {
            lemma1_pow(exponent as nat);
        }
        return 1;
    }
    let mut result: u32 = 1;
    let mut done: u32 = 0;
    proof {
        lemma_pow0(base as int);
    }
    while done < exponent
        invariant
            done <= exponent,
            base > 1,
            result == pow(base as int, done as nat),
            pow(base as int, exponent as nat) <= u32::MAX,
        decreases exponent - done,
    {
        proof {
            reveal(pow);
            lemma_pow_increases(base as nat, (done + 1) as nat, exponent as nat);
            assert(pow(base as int, (done + 1) as nat) == base * pow(base as int, done as nat));
        }
        result = base * result;
        done += 1;
    }
    result
}

/// Tells whether `base` to the power `exponent` has at most 32 bits.
pub fn power_fits(base: u32, exponent: u32) -> (fits: bool)
    ensures
        fits == (pow(base as int, exponent as nat) <= u32::MAX),
{
    if base <= 1 || exponent == 0 {
        proof {
            lemma_pow0(base as int);
            if exponent > 0 {
                if base == 0 {
                    lemma0_pow(exponent as nat);
                } else {
                    lemma1_pow(exponent as nat);
                }
            }
        }
        return true;
    }
    let mut result: u64 = 1;
    let mut done: u32 = 0;
    proof {
        lemma_pow0(base as int);
    }
    while done < exponent
        invariant
            done <= exponent,
            base > 1,
            result == pow(base as int, done as nat),
            result <= u32::MAX,
        decreases exponent - done,
    {
        proof {
            reveal(pow);
            assert(pow(base as int, (done + 1) as nat) == base * pow(base as int, done as nat));
            assert(base * result <= u32::MAX * u32::MAX) by (nonlinear_arith)
                requires
                    base <= u32::MAX,
                    result <= u32::MAX,
            ;
        }
        result = base as u64 * result;
        done += 1;
        if result > u32::MAX as u64 {
            proof {
                lemma_pow_increases(base as nat, done as nat, exponent as nat);
            }
            return false;
        }
    }
    true
}

/// Tells whether the operation has a result that fits in 32 bits.
pub fn operation_is_defined(operation: Operation, left_input: u32, right_input: u32) -> (defined:
    bool)
    ensures
        defined == operation_defined(operation, left_input, right_input),
{
    match operation {
        Operation::Add => left_input.checked_add(right_input).is_some(),
        Operation::Subtract => right_input <= left_input,
        Operation::Multiply => left_input.checked_mul(right_input).is_some(),
        Operation::Divide => right_input != 0,
        Operation::Exponentiate => power_fits(left_input, right_input),
        Operation::Modulus => right_input != 0,
        Operation::ShiftLeft => right_input < 32,
        Operation::ShiftRight => right_input < 32,
        _ => true,
    }
}

/// Process an operation given two input values.
pub fn process_operation(operation: Operation, left_input: u32, right_input: u32) -> (result: u32)
    requires
        operation_defined(operation, left_input, right_input),
    ensures
        result == operation_result(operation, left_input, right_input),
{
    match operation {
        Operation::Add => left_input + right_input,
        Operation::Subtract => left_input - right_input,
        Operation::Multiply => left_input * right_input,
        Operation::Divide => left_input / right_input,
        Operation::Exponentiate => power(left_input, right_input),
        Operation::Modulus => left_input % right_input,
        Operation::Equals => truth_value(left_input == right_input),
        Operation::NotEquals => truth_value(left_input != right_input),
        Operation::LessThan => truth_value(left_input < right_input),
        Operation::LessOrEqual => truth_value(left_input <= right_input),
        Operation::GreaterThan => truth_value(left_input > right_input),
        Operation::GreaterOrEqual => truth_value(left_input >= right_input),
        Operation::And => truth_value(left_input != 0 && right_input != 0),
        Operation::Or => truth_value(left_input != 0 || right_input != 0),
        Operation::AndBitwise => left_input & right_input,
        Operation::OrBitwise => left_input | right_input,
        Operation::XorBitwise => left_input ^ right_input,
        Operation::ShiftLeft => left_input << right_input,
        Operation::ShiftRight => left_input >> right_input,
    }
}

} // verus!
