//! The generic circuit: its memory, the builder that validates a sequence of
//! components, the circuit it yields and the executor that runs it.

pub mod builder;
pub mod executor;
pub mod generic;
pub mod laws;
pub mod memory;

pub use builder::{CircuitBuilder, CircuitBuilderError};
pub use executor::GenericCircuitExecutor;
pub use generic::{CircuitExecutionError, GenericCircuit};
pub use memory::{CircuitMemory, CircuitMemoryError};
