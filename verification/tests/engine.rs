use sim_circuit::circuit::{
    CircuitBuilder, CircuitBuilderError, CircuitExecutionError, CircuitMemory, CircuitMemoryError,
    GenericCircuit, GenericCircuitExecutor,
};
use sim_circuit::model::{Component, Executable, Memory};
use std::collections::HashMap;

#[derive(Debug, PartialEq, Eq, Clone, Copy)]
enum Op {
    And,
    Or,
    Xor,
    Fail,
}

#[derive(Debug, PartialEq, Eq, Clone)]
struct Gate {
    op: Op,
    inputs: Vec<usize>,
    outputs: Vec<usize>,
}

fn gate(op: Op, inputs: &[usize], outputs: &[usize]) -> Gate {
    Gate { op, inputs: inputs.to_vec(), outputs: outputs.to_vec() }
}

impl Component for Gate {
    fn inputs(&self) -> &[usize] {
        &self.inputs
    }

    fn outputs(&self) -> &[usize] {
        &self.outputs
    }

    fn set_inputs(&mut self, inputs: Vec<usize>) {
        self.inputs = inputs;
    }

    fn set_outputs(&mut self, outputs: Vec<usize>) {
        self.outputs = outputs;
    }
}

impl Executable<bool, CircuitMemory<bool>> for Gate {
    type Error = CircuitMemoryError;

    fn execute(&self, memory: &mut CircuitMemory<bool>) -> Result<(), Self::Error> {
        if self.op == Op::Fail {
            return Err(CircuitMemoryError::ReadError(usize::MAX));
        }
        let a = memory.read(self.inputs[0])?;
        let b = memory.read(self.inputs[1])?;
        let value = match self.op {
            Op::And => a && b,
            Op::Or => a || b,
            _ => a ^ b,
        };
        for output in &self.outputs {
            memory.write(*output, value)?;
        }
        Ok(())
    }
}

fn full_adder() -> GenericCircuit<Gate, bool> {
    let mut builder = CircuitBuilder::<Gate, bool>::new();
    builder.add_inputs(&[10, 20, 30]);
    builder.add_component(gate(Op::Xor, &[10, 20], &[40])).unwrap();
    builder.add_component(gate(Op::And, &[10, 20], &[50])).unwrap();
    builder.add_component(gate(Op::Xor, &[40, 30], &[60])).unwrap();
    builder.add_component(gate(Op::And, &[40, 30], &[70])).unwrap();
    builder.add_component(gate(Op::Or, &[50, 70], &[80])).unwrap();
    builder.build().unwrap()
}

#[test]
fn second_write_is_refused_even_for_the_same_value() {
    let mut memory: CircuitMemory<u8> = CircuitMemory::new(3);
    assert_eq!(memory.write(1, 7), Ok(()));
    assert_eq!(memory.write(1, 7), Err(CircuitMemoryError::RewriteAttempt(1)));
    assert_eq!(memory.write(1, 8), Err(CircuitMemoryError::RewriteAttempt(1)));
    assert_eq!(memory.read(1), Ok(7));
    assert_eq!(memory.write(0, 9), Ok(()));
    assert_eq!(memory.write(1, 9), Err(CircuitMemoryError::RewriteAttempt(1)));
    assert_eq!(memory.read(1), Ok(7));
}

#[test]
fn memory_bounds_are_its_size() {
    let mut memory: CircuitMemory<u8> = CircuitMemory::new(2);
    assert_eq!(memory.read(1), Err(CircuitMemoryError::UninitializedSlot(1)));
    assert_eq!(memory.read(2), Err(CircuitMemoryError::ReadError(2)));
    assert_eq!(memory.write(2, 1), Err(CircuitMemoryError::WriteError(2)));
    let mut empty: CircuitMemory<u8> = CircuitMemory::new(0);
    assert_eq!(empty.read(0), Err(CircuitMemoryError::ReadError(0)));
    assert_eq!(empty.write(0, 1), Err(CircuitMemoryError::WriteError(0)));
}

#[test]
fn full_adder_adds_all_inputs() {
    for bits in 0..8u8 {
        let (a, b, c) = (bits & 1 == 1, bits & 2 == 2, bits & 4 == 4);
        let mut executor = GenericCircuitExecutor::new(full_adder());
        let output = executor.run(&HashMap::from([(10, a), (20, b), (30, c)])).unwrap();
        let total = a as u8 + b as u8 + c as u8;
        assert_eq!(output.len(), 2);
        assert_eq!(output.get(&60), Some(&(total & 1 == 1)));
        assert_eq!(output.get(&80), Some(&(total >= 2)));
    }
}

#[test]
fn two_fresh_executors_agree() {
    let binding = HashMap::from([(10, true), (20, false), (30, true)]);
    let mut first = GenericCircuitExecutor::new(full_adder());
    let mut second = GenericCircuitExecutor::new(full_adder());
    let outputs = first.run(&binding);
    assert_eq!(outputs, second.run(&binding));
    assert_eq!(outputs, Ok(HashMap::from([(60, false), (80, true)])));
}

#[test]
fn second_run_is_refused_at_the_first_input() {
    let mut executor = GenericCircuitExecutor::new(full_adder());
    let binding = HashMap::from([(10, true), (20, true), (30, false)]);
    assert!(executor.run(&binding).is_ok());
    assert_eq!(
        executor.run(&binding),
        Err(CircuitExecutionError::MemoryError(CircuitMemoryError::RewriteAttempt(0)))
    );
    let other = HashMap::from([(10, false), (20, false), (30, false)]);
    assert_eq!(
        executor.run(&other),
        Err(CircuitExecutionError::MemoryError(CircuitMemoryError::RewriteAttempt(0)))
    );
}

#[test]
fn binding_of_the_wrong_size_is_a_length_mismatch() {
    let missing = HashMap::from([(10, true), (20, true)]);
    let extra = HashMap::from([(10, true), (20, true), (30, true), (99, true)]);
    let disjoint = HashMap::from([(1, true), (2, true)]);
    let none: HashMap<usize, bool> = HashMap::new();
    for binding in [missing, extra, disjoint, none] {
        let mut executor = GenericCircuitExecutor::new(full_adder());
        assert_eq!(executor.run(&binding), Err(CircuitExecutionError::InputLengthMismatch));
    }
}

#[test]
fn binding_without_an_input_names_the_first_missing() {
    let mut executor = GenericCircuitExecutor::new(full_adder());
    let binding = HashMap::from([(10, true), (21, true), (31, true)]);
    assert_eq!(executor.run(&binding), Err(CircuitExecutionError::InputNotFoundError(20)));
    // The input before it was written all the same.
    let binding = HashMap::from([(10, true), (20, true), (30, true)]);
    assert_eq!(
        executor.run(&binding),
        Err(CircuitExecutionError::MemoryError(CircuitMemoryError::RewriteAttempt(0)))
    );
}

#[test]
fn input_without_memory_index_is_a_mapping_error() {
    let circuit: GenericCircuit<Gate, bool> =
        GenericCircuit::new(vec![], HashMap::from([(5, 0)]), vec![5, 6], vec![]);
    let mut executor = GenericCircuitExecutor::new(circuit);
    let binding = HashMap::from([(5, true), (6, true)]);
    assert_eq!(executor.run(&binding), Err(CircuitExecutionError::MemoryMappingError(6)));
}

#[test]
fn output_without_memory_index_is_undefined() {
    let circuit: GenericCircuit<Gate, bool> =
        GenericCircuit::new(vec![], HashMap::from([(5, 0)]), vec![5], vec![5, 8]);
    let mut executor = GenericCircuitExecutor::new(circuit);
    let binding = HashMap::from([(5, true)]);
    assert_eq!(executor.run(&binding), Err(CircuitExecutionError::UndefinedOutput(8)));
}

#[test]
fn output_that_nothing_wrote_is_undefined() {
    let circuit: GenericCircuit<Gate, bool> =
        GenericCircuit::new(vec![], HashMap::from([(5, 0), (8, 1)]), vec![5], vec![5, 8]);
    let mut executor = GenericCircuitExecutor::new(circuit);
    let binding = HashMap::from([(5, true)]);
    assert_eq!(executor.run(&binding), Err(CircuitExecutionError::UndefinedOutput(8)));
}

#[test]
fn input_declared_twice_counts_once() {
    let mut builder = CircuitBuilder::<Gate, bool>::new();
    builder.add_inputs(&[1, 1]).add_inputs(&[1]);
    builder.add_component(gate(Op::And, &[1, 1], &[2])).unwrap();
    let circuit = builder.build().unwrap();
    assert_eq!(circuit.inputs(), &[1]);
    let mut executor = GenericCircuitExecutor::new(circuit);
    assert_eq!(
        executor.run(&HashMap::from([(1, true), (7, true)])),
        Err(CircuitExecutionError::InputLengthMismatch)
    );
    assert_eq!(executor.run(&HashMap::from([(1, true)])), Ok(HashMap::from([(2, true)])));
}

#[test]
fn inputs_keep_the_order_of_their_first_declaration() {
    let mut builder = CircuitBuilder::<Gate, bool>::new();
    builder.add_inputs(&[5, 3, 5]).add_inputs(&[]).add_inputs(&[9, 3, 1, 9]);
    builder.add_component(gate(Op::And, &[5, 3], &[10])).unwrap();
    builder.add_component(gate(Op::And, &[9, 1], &[11])).unwrap();
    let circuit = builder.build().unwrap();
    assert_eq!(circuit.inputs(), &[5, 3, 9, 1]);
}

#[test]
fn input_that_a_component_writes_is_refused_at_build() {
    let mut builder = CircuitBuilder::<Gate, bool>::new();
    builder.add_inputs(&[0]);
    builder.add_component(gate(Op::And, &[0, 0], &[1])).unwrap();
    builder.add_inputs(&[1]);
    builder.add_component(gate(Op::And, &[1, 1], &[2])).unwrap();
    assert_eq!(builder.build(), Err(CircuitBuilderError::OutputIsACircuitInput(1)));

    let mut builder = CircuitBuilder::<Gate, bool>::new();
    builder.add_inputs(&[0]);
    builder.add_component(gate(Op::And, &[0, 0], &[1, 2])).unwrap();
    builder.add_component(gate(Op::And, &[1, 2], &[3])).unwrap();
    builder.add_inputs(&[2, 1]);
    assert_eq!(builder.build(), Err(CircuitBuilderError::OutputIsACircuitInput(2)));

    // An unused input is reported before an input that is written.
    let mut builder = CircuitBuilder::<Gate, bool>::new();
    builder.add_inputs(&[0]);
    builder.add_component(gate(Op::And, &[0, 0], &[1])).unwrap();
    builder.add_inputs(&[1, 7]);
    assert_eq!(builder.build(), Err(CircuitBuilderError::UnusedInputs(vec![1, 7])));
}

#[test]
fn built_circuit_has_an_output() {
    let mut builder = CircuitBuilder::<Gate, bool>::new();
    builder.add_inputs(&[0]);
    builder.add_component(gate(Op::And, &[0, 0], &[1])).unwrap();
    builder.add_component(gate(Op::And, &[1, 0], &[2])).unwrap();
    builder.add_component(gate(Op::And, &[2, 1], &[3])).unwrap();
    let circuit = builder.build().unwrap();
    assert_eq!(circuit.outputs(), &[3]);
}

#[test]
fn failing_component_is_a_component_execution_error() {
    let mut builder = CircuitBuilder::<Gate, bool>::new();
    builder.add_inputs(&[1, 2]);
    builder.add_component(gate(Op::And, &[1, 2], &[3])).unwrap();
    builder.add_component(gate(Op::Fail, &[3], &[4])).unwrap();
    builder.add_component(gate(Op::Or, &[3, 4], &[5])).unwrap();
    let mut executor = GenericCircuitExecutor::new(builder.build().unwrap());
    assert_eq!(
        executor.run(&HashMap::from([(1, true), (2, true)])),
        Err(CircuitExecutionError::ComponentExecutionError)
    );
}

#[test]
fn memory_error_wraps_into_execution_error() {
    assert_eq!(
        CircuitExecutionError::from(CircuitMemoryError::UninitializedSlot(3)),
        CircuitExecutionError::MemoryError(CircuitMemoryError::UninitializedSlot(3))
    );
}

#[test]
fn component_without_input_or_output_is_disconnected() {
    let mut builder = CircuitBuilder::<Gate, bool>::new();
    builder.add_inputs(&[1]);
    assert_eq!(
        builder.add_component(gate(Op::And, &[], &[2])),
        Err(CircuitBuilderError::DisconnectedComponent)
    );
    assert_eq!(
        builder.add_component(gate(Op::And, &[1], &[])),
        Err(CircuitBuilderError::DisconnectedComponent)
    );
    // Disconnected comes before any look at the nodes.
    assert_eq!(
        builder.add_component(gate(Op::And, &[9], &[])),
        Err(CircuitBuilderError::DisconnectedComponent)
    );
}

#[test]
fn first_unavailable_input_is_reported() {
    let mut builder = CircuitBuilder::<Gate, bool>::new();
    builder.add_inputs(&[1]);
    assert_eq!(
        builder.add_component(gate(Op::And, &[1, 7, 8], &[1])),
        Err(CircuitBuilderError::TopologicalOrderError(7))
    );
    // A component cannot read what it writes itself.
    assert_eq!(
        builder.add_component(gate(Op::And, &[1, 5], &[5])),
        Err(CircuitBuilderError::TopologicalOrderError(5))
    );
}

#[test]
fn output_that_is_driven_already_is_refused() {
    let mut builder = CircuitBuilder::<Gate, bool>::new();
    builder.add_inputs(&[1, 2]);
    builder.add_component(gate(Op::And, &[1, 2], &[3])).unwrap();
    assert_eq!(
        builder.add_component(gate(Op::Or, &[1, 2], &[3])),
        Err(CircuitBuilderError::OutputsConnection(3))
    );
    assert_eq!(
        builder.add_component(gate(Op::Or, &[1, 2], &[4, 5, 4])),
        Err(CircuitBuilderError::OutputsConnection(4))
    );
    assert_eq!(
        builder.add_component(gate(Op::Or, &[1, 2], &[6, 2, 3])),
        Err(CircuitBuilderError::OutputIsACircuitInput(2))
    );
    assert_eq!(
        builder.add_component(gate(Op::Or, &[1, 2], &[6, 3, 2])),
        Err(CircuitBuilderError::OutputsConnection(3))
    );
}

#[test]
fn refused_component_leaves_the_builder_as_it_was() {
    let mut builder = CircuitBuilder::<Gate, bool>::new();
    builder.add_inputs(&[1, 2]);
    let mut same = CircuitBuilder::<Gate, bool>::new();
    same.add_inputs(&[1, 2]);
    assert_eq!(
        builder.add_component(gate(Op::And, &[2, 9], &[3])),
        Err(CircuitBuilderError::TopologicalOrderError(9))
    );
    assert_eq!(
        builder.add_component(gate(Op::And, &[2, 1], &[7, 8, 1])),
        Err(CircuitBuilderError::OutputIsACircuitInput(1))
    );
    assert_eq!(builder, same);
    builder.add_component(gate(Op::And, &[1, 1], &[3])).unwrap();
    // Input 2 was read by refused components only.
    assert_eq!(builder.build(), Err(CircuitBuilderError::UnusedInputs(vec![2])));
}

#[test]
fn unused_inputs_come_in_declaration_order() {
    let mut builder = CircuitBuilder::<Gate, bool>::new();
    builder.add_inputs(&[9, 1]).add_inputs(&[5, 9]);
    builder.add_component(gate(Op::And, &[1, 1], &[3])).unwrap();
    assert_eq!(builder.build(), Err(CircuitBuilderError::UnusedInputs(vec![9, 5])));
}

#[test]
fn empty_builder_does_not_build_even_with_inputs() {
    let mut builder = CircuitBuilder::<Gate, bool>::default();
    builder.add_inputs(&[1]);
    assert_eq!(builder.build(), Err(CircuitBuilderError::EmptyBuilder));
}

#[test]
fn indices_follow_first_encounter() {
    let mut builder = CircuitBuilder::<Gate, bool>::new();
    builder.add_inputs(&[900, 3, 77]);
    builder.add_component(gate(Op::And, &[77, 77], &[1000, 2])).unwrap();
    builder.add_component(gate(Op::Or, &[2, 900], &[5])).unwrap();
    builder.add_component(gate(Op::Or, &[3, 1000], &[4])).unwrap();
    let circuit = builder.build().unwrap();
    assert_eq!(circuit.memory_index(77), Some(0));
    assert_eq!(circuit.memory_index(1000), Some(1));
    assert_eq!(circuit.memory_index(2), Some(2));
    assert_eq!(circuit.memory_index(900), Some(3));
    assert_eq!(circuit.memory_index(5), Some(4));
    assert_eq!(circuit.memory_index(3), Some(5));
    assert_eq!(circuit.memory_index(4), Some(6));
    assert_eq!(circuit.memory_index(6), None);
    assert_eq!(circuit.memory_size(), 7);
    assert_eq!(circuit.inputs(), &[900, 3, 77]);
    let mut outputs = circuit.outputs().to_vec();
    outputs.sort();
    assert_eq!(outputs, vec![4, 5]);
}

#[test]
fn indices_do_not_depend_on_the_values() {
    #[derive(Debug, PartialEq, Eq, Clone)]
    struct Wide(Gate);
    impl Component for Wide {
        fn inputs(&self) -> &[usize] {
            &self.0.inputs
        }
        fn outputs(&self) -> &[usize] {
            &self.0.outputs
        }
        fn set_inputs(&mut self, inputs: Vec<usize>) {
            self.0.inputs = inputs;
        }
        fn set_outputs(&mut self, outputs: Vec<usize>) {
            self.0.outputs = outputs;
        }
    }
    impl Executable<u64, CircuitMemory<u64>> for Wide {
        type Error = ();
        fn execute(&self, _: &mut CircuitMemory<u64>) -> Result<(), ()> {
            Ok(())
        }
    }
    let mut narrow = CircuitBuilder::<Gate, bool>::new();
    let mut wide = CircuitBuilder::<Wide, u64>::new();
    narrow.add_inputs(&[8, 6]);
    wide.add_inputs(&[8, 6]);
    for (inputs, outputs) in [(vec![6, 8], vec![1]), (vec![1, 6], vec![0, 9])] {
        narrow.add_component(gate(Op::And, &inputs, &outputs)).unwrap();
        wide.add_component(Wide(gate(Op::And, &inputs, &outputs))).unwrap();
    }
    let narrow = narrow.build().unwrap();
    let wide = wide.build().unwrap();
    for node in 0..12 {
        assert_eq!(narrow.memory_index(node), wide.memory_index(node));
    }
}

#[test]
fn stored_components_name_memory_indices() {
    let mut builder = CircuitBuilder::<Gate, bool>::new();
    builder.add_inputs(&[30, 20]);
    builder.add_component(gate(Op::And, &[20, 30], &[10])).unwrap();
    let mut executor = GenericCircuitExecutor::new(builder.build().unwrap());
    let output = executor.run(&HashMap::from([(20, true), (30, true)])).unwrap();
    assert_eq!(output, HashMap::from([(10, true)]));
}

#[test]
fn circuit_without_nodes_needs_no_memory() {
    let circuit: GenericCircuit<Gate, bool> =
        GenericCircuit::new(vec![], HashMap::new(), vec![], vec![]);
    assert_eq!(circuit.memory_size(), 0);
    let mut executor = GenericCircuitExecutor::new(circuit);
    assert_eq!(executor.run(&HashMap::new()), Ok(HashMap::new()));
    let sparse: GenericCircuit<Gate, bool> =
        GenericCircuit::new(vec![], HashMap::from([(1, 41), (2, 7)]), vec![], vec![]);
    assert_eq!(sparse.memory_size(), 42);
}

#[test]
fn circuit_runs_as_a_component() {
    let circuit = full_adder();
    let mut memory: CircuitMemory<bool> = CircuitMemory::new(circuit.memory_size());
    memory.write(circuit.memory_index(10).unwrap(), true).unwrap();
    memory.write(circuit.memory_index(20).unwrap(), true).unwrap();
    memory.write(circuit.memory_index(30).unwrap(), true).unwrap();
    assert_eq!(circuit.execute(&mut memory), Ok(()));
    assert_eq!(memory.read(circuit.memory_index(60).unwrap()), Ok(true));
    assert_eq!(memory.read(circuit.memory_index(80).unwrap()), Ok(true));
    assert_eq!(
        circuit.execute(&mut memory),
        Err(CircuitExecutionError::ComponentExecutionError)
    );
}

#[test]
fn legal_sequences_build_and_others_do_not() {
    let build = |declared: &[usize], gates: &[(&[usize], &[usize])]| {
        let mut builder = CircuitBuilder::<Gate, bool>::new();
        builder.add_inputs(declared);
        for (inputs, outputs) in gates {
            if builder.add_component(gate(Op::And, inputs, outputs)).is_err() {
                return false;
            }
        }
        builder.build().is_ok()
    };
    assert!(build(&[1, 2], &[(&[1, 2], &[3]), (&[3, 1], &[4]), (&[4, 3], &[5, 6])]));
    // An input that is an output of a later component only.
    assert!(!build(&[1, 2], &[(&[1, 4], &[3]), (&[3, 2], &[4])]));
    // An output that is a declared input.
    assert!(!build(&[1, 2], &[(&[1, 2], &[3]), (&[3, 1], &[2])]));
    // An output that an earlier component drives.
    assert!(!build(&[1, 2], &[(&[1, 2], &[3]), (&[3, 1], &[3])]));
}
