use sim_circuit::circuit::{
    CircuitBuilder, CircuitBuilderError, CircuitMemory, CircuitMemoryError,
    GenericCircuitExecutor,
};
use sim_circuit::model::{Component, Executable, Memory};
use std::collections::HashMap;
use std::fmt::Debug;

#[derive(PartialEq, Eq, Clone)]
pub enum BinaryOperation {
    AND,
    XOR,
}

impl Debug for BinaryOperation {
    fn fmt(&self, f: &mut std::fmt::Formatter<'_>) -> std::fmt::Result {
        match self {
            BinaryOperation::AND => f.write_str("AND"),
            BinaryOperation::XOR => f.write_str("XOR"),
        }
    }
}

#[derive(Debug, PartialEq, Eq, Clone)]
pub struct BinaryGate {
    op: BinaryOperation,
    inputs: Vec<usize>,
    outputs: Vec<usize>,
}

impl Component for BinaryGate {
    fn inputs(&self) -> &[usize] {
        &self.inputs
    }

    fn outputs(&self) -> &[usize] {
        &self.outputs
    }

    fn set_inputs(&mut self, inputs: Vec<usize>) {
        self.inputs = inputs;
    }

    fn set_outputs(&mut self, outputs: Vec<usize>) {
        self.outputs = outputs;
    }
}

impl Executable<bool, CircuitMemory<bool>> for BinaryGate {
    type Error = ();

    fn execute(&self, memory: &mut CircuitMemory<bool>) -> Result<(), Self::Error> {
        let a = memory.read(self.inputs[0]).unwrap();
        let b = memory.read(self.inputs[1]).unwrap();

        let result = match self.op {
            BinaryOperation::AND => a && b,
            BinaryOperation::XOR => a ^ b,
        };
        memory.write(self.outputs[0], result).unwrap();
        Ok(())
    }
}

#[test]
fn test_memory_operations() {
    let mut memory: CircuitMemory<bool> = CircuitMemory::new(10);

    assert_eq!(
        memory.read(1),
        Err(CircuitMemoryError::UninitializedSlot(1))
    );

    assert_eq!(memory.write(2, true), Ok(()));
    assert_eq!(memory.read(2), Ok(true));

    assert_eq!(
        memory.write(11, true),
        Err(CircuitMemoryError::WriteError(11))
    );

    assert_eq!(memory.read(11), Err(CircuitMemoryError::ReadError(11)));

    assert_eq!(
        memory.write(2, false),
        Err(CircuitMemoryError::RewriteAttempt(2))
    );
}

#[test]
fn test_component_execution() {
    let mut memory: CircuitMemory<bool> = CircuitMemory::new(5);

    let and_gate = BinaryGate {
        op: BinaryOperation::AND,
        inputs: vec![0, 1],
        outputs: vec![2],
    };

    memory.write(0, true).unwrap();
    memory.write(1, false).unwrap();

    assert_eq!(and_gate.execute(&mut memory), Ok(()));
    assert_eq!(memory.read(2), Ok(false));

    let xor_gate = BinaryGate {
        op: BinaryOperation::XOR,
        inputs: vec![2, 3],
        outputs: vec![4],
    };

    memory.write(3, true).unwrap();

    assert_eq!(xor_gate.execute(&mut memory), Ok(()));
    assert_eq!(memory.read(4), Ok(true));
}

#[test]
fn test_builder_disconnected_component() {
    let mut builder = CircuitBuilder::<BinaryGate, bool>::new();
    let gate = BinaryGate {
        op: BinaryOperation::AND,
        inputs: vec![],
        outputs: vec![],
    };

    assert_eq!(
        builder.add_component(gate),
        Err(CircuitBuilderError::DisconnectedComponent)
    );
}

#[test]
fn test_builder_component_reindexing() {
    let mut builder = CircuitBuilder::<BinaryGate, bool>::new();
    builder.add_inputs(&[118, 220, 335]);

    let gate1 = BinaryGate {
        op: BinaryOperation::AND,
        inputs: vec![118, 220],
        outputs: vec![400],
    };
    let gate2 = BinaryGate {
        op: BinaryOperation::XOR,
        inputs: vec![400, 335],
        outputs: vec![510],
    };

    assert!(builder.add_component(gate1).is_ok());
    assert!(builder.add_component(gate2).is_ok());

    let circuit = builder.build().unwrap();

    assert_eq!(circuit.memory_index(118), Some(0));
    assert_eq!(circuit.memory_index(220), Some(1));
    assert_eq!(circuit.memory_index(400), Some(2));
    assert_eq!(circuit.memory_index(335), Some(3));
    assert_eq!(circuit.memory_index(510), Some(4));
}

#[test]
fn test_builder_topological_order() {
    let mut builder = CircuitBuilder::<BinaryGate, bool>::new();
    let gate = BinaryGate {
        op: BinaryOperation::AND,
        inputs: vec![0],
        outputs: vec![1],
    };

    assert_eq!(
        builder.add_component(gate.clone()),
        Err(CircuitBuilderError::TopologicalOrderError(0))
    );

    builder.add_inputs(&[0]);

    assert!(builder.add_component(gate).is_ok());

    let second_gate = BinaryGate {
        op: BinaryOperation::AND,
        inputs: vec![1],
        outputs: vec![2],
    };

    assert!(builder.add_component(second_gate).is_ok());
}

#[test]
fn test_builder_bad_component_output() {
    let mut builder = CircuitBuilder::<BinaryGate, bool>::new();
    builder.add_inputs(&[0, 1]);

    let gate = BinaryGate {
        op: BinaryOperation::XOR,
        inputs: vec![0],
        outputs: vec![1],
    };

    assert_eq!(
        builder.add_component(gate),
        Err(CircuitBuilderError::OutputIsACircuitInput(1))
    );
}

#[test]
fn test_builder_empty() {
    let builder = CircuitBuilder::<BinaryGate, bool>::new();
    assert_eq!(builder.build(), Err(CircuitBuilderError::EmptyBuilder));
}

#[test]
fn test_builder_build() {
    let mut builder = CircuitBuilder::<BinaryGate, bool>::new();
    builder.add_inputs(&[0, 1]);

    let and_gate = BinaryGate {
        op: BinaryOperation::AND,
        inputs: vec![0, 1],
        outputs: vec![2],
    };

    builder.add_component(and_gate).unwrap();

    let built_circuit = builder.build();
    assert!(built_circuit.is_ok());
}

#[test]
fn test_builder_unused_input() {
    let mut builder = CircuitBuilder::<BinaryGate, bool>::new();
    builder.add_inputs(&[3, 4]);

    let gate1 = BinaryGate {
        op: BinaryOperation::AND,
        inputs: vec![3],
        outputs: vec![7],
    };

    builder.add_component(gate1).unwrap();

    assert_eq!(
        builder.build(),
        Err(CircuitBuilderError::UnusedInputs(vec![4]))
    );
}

#[test]
fn test_circuit_builder_and_execution() {
    let mut builder = CircuitBuilder::<BinaryGate, bool>::new();
    builder.add_inputs(&[0, 1, 3]);

    let and_gate = BinaryGate {
        op: BinaryOperation::AND,
        inputs: vec![0, 1],
        outputs: vec![2],
    };
    let xor_gate = BinaryGate {
        op: BinaryOperation::XOR,
        inputs: vec![2, 3],
        outputs: vec![4],
    };

    assert!(builder.add_component(and_gate).is_ok());
    assert!(builder.add_component(xor_gate).is_ok());

    let circuit = builder.build().unwrap();
    let mut executor = GenericCircuitExecutor::new(circuit);

    let input_values = HashMap::from([(0, true), (1, false), (3, true)]);

    let output = executor.run(&input_values).unwrap();
    assert_eq!(output.get(&4), Some(&true));
}
