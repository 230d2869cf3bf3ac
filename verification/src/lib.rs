//! Simulation of circuits.
//!
//! `circuit` holds the generic engine: components that read and write a
//! shared write-once memory, a builder that accepts them in an order in
//! which every value is produced before it is consumed, and an executor.
//! `arithmetic_circuit` and `simulate` read and evaluate circuits of gates
//! with two inputs and one output over numbered wires.

pub mod arithmetic_circuit;
pub mod circuit;
pub mod execution;
pub mod model;
pub mod number;
pub mod number_u32;
pub mod simulate;
pub mod text;

pub use number::{Number, NumberError};
pub use number_u32::NumberU32;
pub use simulate::simulate;
