//! The values an arithmetic circuit computes with.

use crate::arithmetic_circuit::AGateType;
use vstd::prelude::*;

verus! {

/// Why a number could not be read or computed.
#[derive(Debug, Clone)]
pub enum NumberError {
    DivisionByZero,
    UnsupportedOperation(AGateType),
    MissingInput(String),
    ParseError,
}

/// A kind of number that the gates of an arithmetic circuit can be applied
/// to.
///
/// What the operations return is a function of their arguments: `zero_value`,
/// `applied`, `parsed` and `printed` say which, and `admits` says where a
/// gate may be applied. The names are for verified implementations, each of
/// which defines them for its type; the bodies given here describe none.
pub trait Number: Sized + Clone + PartialEq + Eq {
    /// The number zero.
    open spec fn zero_value() -> Self {
        arbitrary()
    }

    /// Whether `op` may be applied to the number and `rhs`.
    open spec fn admits(&self, op: AGateType, rhs: &Self) -> bool {
        arbitrary()
    }

    /// What `op` yields for the number and `rhs`.
    open spec fn applied(&self, op: AGateType, rhs: &Self) -> Result<Self, NumberError> {
        arbitrary()
    }

    /// The number that `text` stands for.
    open spec fn parsed(text: Seq<char>) -> Result<Self, NumberError> {
        arbitrary()
    }

    /// The text that stands for the number.
    open spec fn printed(&self) -> Seq<char> {
        arbitrary()
    }

    fn zero() -> (number: Self)
        ensures
            number == Self::zero_value(),
    ;

    fn infix_op(&self, op: AGateType, rhs: &Self) -> (result: Result<Self, NumberError>)
        requires
            self.admits(op, rhs),
        ensures
            result == self.applied(op, rhs),
    ;

    fn from_str(s: &str) -> (result: Result<Self, NumberError>)
        ensures
            result == Self::parsed(s@),
    ;

    fn to_string(&self) -> (text: String)
        ensures
            text@ == self.printed(),
    ;
}

} // verus!
