//! The executor: one circuit, one memory, one run.

use crate::circuit::generic::{
    indices_fit, is_memory_size, run_components, CircuitExecutionError, GenericCircuit,
};
use crate::circuit::memory::{
    read_slot, write_outcome, write_slot, CircuitMemory, CircuitMemoryError,
};
use crate::model::{extends, Component, Executable, Memory};
use std::collections::HashMap;
use vstd::prelude::*;

verus! {

/// The slots after the values that `binding` gives to the nodes `ids` were
/// written at their memory indices, in the order of `ids`, and the error at
/// which this stopped, if it did.
pub open spec fn bind_inputs<U>(
    map: Map<usize, usize>,
    ids: Seq<usize>,
    binding: Map<usize, U>,
    slots: Seq<Option<U>>,
) -> (Seq<Option<U>>, Option<CircuitExecutionError>)
    decreases ids.len(),
{
    if ids.len() == 0 {
        (slots, None)
    } else {
        let (before, failure) = bind_inputs(map, ids.drop_last(), binding, slots);
        let node = ids.last();
        if failure is Some {
            (before, failure)
        } else if !binding.contains_key(node) {
            (before, Some(CircuitExecutionError::InputNotFoundError(node)))
        } else if !map.contains_key(node) {
            (before, Some(CircuitExecutionError::MemoryMappingError(node)))
        } else {
            match write_outcome(before, map[node]) {
                Ok(()) => (write_slot(before, map[node], binding[node]), None),
                Err(error) => (before, Some(CircuitExecutionError::MemoryError(error))),
            }
        }
    }
}

/// The values that the slots hold for the nodes `ids`, read in the order of
/// `ids`, or the first error on the way: a node without a memory index or
/// with an empty slot is undefined.
pub open spec fn read_outputs<U>(
    map: Map<usize, usize>,
    ids: Seq<usize>,
    slots: Seq<Option<U>>,
) -> Result<Map<usize, U>, CircuitExecutionError>
    decreases ids.len(),
{
    if ids.len() == 0 {
        Ok(Map::empty())
    } else {
        match read_outputs(map, ids.drop_last(), slots) {
            Err(error) => Err(error),
            Ok(values) => {
                let node = ids.last();
                if !map.contains_key(node) {
                    Err(CircuitExecutionError::UndefinedOutput(node))
                } else {
                    match read_slot(slots, map[node]) {
                        Ok(value) => Ok(values.insert(node, value)),
                        Err(CircuitMemoryError::UninitializedSlot(_)) => Err(
                            CircuitExecutionError::UndefinedOutput(node),
                        ),
                        Err(error) => Err(CircuitExecutionError::MemoryError(error)),
                    }
                }
            },
        }
    }
}

/// The slots that a run leaves behind, and what it returns.
pub open spec fn run_outcome<T, U>(
    components: Seq<T>,
    map: Map<usize, usize>,
    inputs: Seq<usize>,
    outputs: Seq<usize>,
    binding: Map<usize, U>,
    slots: Seq<Option<U>>,
) -> (Seq<Option<U>>, Result<Map<usize, U>, CircuitExecutionError>) where
    T: Component + Executable<U, CircuitMemory<U>>,
    U: Copy,
 {
    if binding.len() != inputs.len() {
        (slots, Err(CircuitExecutionError::InputLengthMismatch))
    } else {
        let (bound, failure) = bind_inputs(map, inputs, binding, slots);
        match failure {
            Some(error) => (bound, Err(error)),
            None => {
                let (done, succeeded) = run_components(components, bound);
                if succeeded {
                    (done, read_outputs(map, outputs, done))
                } else {
                    (done, Err(CircuitExecutionError::ComponentExecutionError))
                }
            },
        }
    }
}

/// What a run returns, seen as a map of values.
pub open spec fn returned<U>(result: Result<HashMap<usize, U>, CircuitExecutionError>) -> Result<
    Map<usize, U>,
    CircuitExecutionError,
> {
    match result {
        Ok(values) => Ok(values@),
        Err(error) => Err(error),
    }
}

/// Executor for a generic circuit.
#[derive(Debug, PartialEq, Eq)]
pub struct GenericCircuitExecutor<T, U> {
    circuit: GenericCircuit<T, U>,
    memory: CircuitMemory<U>,
}

impl<T, U> GenericCircuitExecutor<T, U> where
    T: Component + Executable<U, CircuitMemory<U>>,
    U: Copy,
 {
    /// The circuit that the executor runs.
    pub closed spec fn circuit(&self) -> GenericCircuit<T, U> {
        self.circuit
    }

    /// The slots of the executor's memory.
    pub closed spec fn memory(&self) -> Seq<Option<U>> {
        self.memory@
    }

    /// What a run with `binding` leaves in the memory and returns.
    pub open spec fn outcome(&self, binding: Map<usize, U>) -> (
        Seq<Option<U>>,
        Result<Map<usize, U>, CircuitExecutionError>,
    ) {
        run_outcome(
            self.circuit().components(),
            self.circuit().index_map(),
            self.circuit().input_ids(),
            self.circuit().output_ids(),
            binding,
            self.memory(),
        )
    }

    /// The memory has one empty slot for each memory index of the circuit:
    /// nothing has run yet.
    pub open spec fn fresh(&self) -> bool {
        &&& is_memory_size(self.circuit().index_map(), self.memory().len())
        &&& forall|i: int| 0 <= i < self.memory().len() ==> self.memory()[i] is None
    }

    /// Creates a new generic circuit executor, with a memory of as many empty
    /// slots as the circuit has memory indices.
    pub fn new(circuit: GenericCircuit<T, U>) -> (executor: Self)
        requires
            indices_fit(circuit.index_map()),
        ensures
            executor.circuit() == circuit,
            executor.fresh(),
    {
        let memory_size = circuit.memory_size();
        Self { circuit, memory: CircuitMemory::new(memory_size) }
    }

    /// Runs the circuit using the provided input values and returns a map of the output values.
    ///
    /// The binding has to hold as many values as the circuit has inputs. The
    /// values of the inputs are written at their memory indices, then the
    /// components run in order, then the outputs are read. The first failure
    /// ends the run; what was written until then stays in the memory, and so
    /// do the values of the inputs, whatever the components do.
    pub fn run(&mut self, inputs: &HashMap<usize, U>) -> (result: Result<
        HashMap<usize, U>,
        CircuitExecutionError,
    >)
        ensures
            returned(result) == old(self).outcome(inputs@).1,
            final(self).memory() == old(self).outcome(inputs@).0,
            final(self).circuit() == old(self).circuit(),
            extends(old(self).memory(), final(self).memory()),
            inputs@.len() != old(self).circuit().input_ids().len() || extends(
                bind_inputs(
                    old(self).circuit().index_map(),
                    old(self).circuit().input_ids(),
                    inputs@,
                    old(self).memory(),
                ).0,
                final(self).memory(),
            ),
    {
        broadcast use vstd::std_specs::hash::group_hash_axioms;
        // Check if the input values match the circuit inputs

        if inputs.len() != self.circuit.inputs.len() {
            return Err(CircuitExecutionError::InputLengthMismatch);
        }
        // Set inputs in memory

        let ghost map = self.circuit.memory_map@;
        let ghost start = self.memory@;
        let mut i: usize = 0;
        while i < self.circuit.inputs.len()
            invariant
                i <= self.circuit.inputs@.len(),
                self.circuit == old(self).circuit,
                map == self.circuit.memory_map@,
                start == old(self).memory@,
                inputs@.len() == self.circuit.inputs@.len(),
                extends(start, self.memory@),
                bind_inputs(map, self.circuit.inputs@.take(i as int), inputs@, start) == (
                    self.memory@,
                    None::<CircuitExecutionError>,
                ),
            decreases self.circuit.inputs@.len() - i,
        {
            let node = self.circuit.inputs[i];
            proof {
                assert(self.circuit.inputs@.take(i + 1).drop_last() == self.circuit.inputs@.take(
                    i as int,
                ));
                assert(self.circuit.inputs@.take(i + 1).last() == node);
            }
            let value = match inputs.get(&node) {
                Some(value) => *value,
                None => {
                    proof {
                        lemma_bind_stops(map, self.circuit.inputs@, i + 1, inputs@, start);
                    }
                    return Err(CircuitExecutionError::InputNotFoundError(node));
                },
            };
            // Translate external input index to internal memory index using the memory_map
            let index = match self.circuit.memory_map.get(&node) {
                Some(index) => *index,
                None => {
                    proof {
                        lemma_bind_stops(map, self.circuit.inputs@, i + 1, inputs@, start);
                    }
                    return Err(CircuitExecutionError::MemoryMappingError(node));
                },
            };
            if let Err(error) = self.memory.write(index, value) {
                proof {
                    lemma_bind_stops(map, self.circuit.inputs@, i + 1, inputs@, start);
                }
                return Err(CircuitExecutionError::MemoryError(error));
            }
            i += 1;
        }
        assert(self.circuit.inputs@.take(i as int) == self.circuit.inputs@);
        // Execute the circuit

        let ghost bound = self.memory@;
        if let Err(error) = self.circuit.execute(&mut self.memory) {
            return Err(error);
        }
        // Retrieve and return output values

        let ghost done = self.memory@;
        let mut output_values: HashMap<usize, U> = HashMap::new();
        let mut j: usize = 0;
        while j < self.circuit.outputs.len()
            invariant
                j <= self.circuit.outputs@.len(),
                self.circuit == old(self).circuit,
                map == self.circuit.memory_map@,
                done == self.memory@,
                start == old(self).memory@,
                extends(start, done),
                extends(bound, done),
                inputs@.len() == self.circuit.inputs@.len(),
                bind_inputs(map, self.circuit.inputs@, inputs@, start) == (
                    bound,
                    None::<CircuitExecutionError>,
                ),
                run_components(self.circuit.components@, bound) == (done, true),
                read_outputs(map, self.circuit.outputs@.take(j as int), done) == Ok::<
                    Map<usize, U>,
                    CircuitExecutionError,
                >(output_values@),
            decreases self.circuit.outputs@.len() - j,
        {
            let node = self.circuit.outputs[j];
            proof {
                assert(self.circuit.outputs@.take(j + 1).drop_last() == self.circuit.outputs@.take(
                    j as int,
                ));
                assert(self.circuit.outputs@.take(j + 1).last() == node);
            }
            let index = match self.circuit.memory_map.get(&node) {
                Some(index) => *index,
                None => {
                    proof {
                        lemma_read_stops(map, self.circuit.outputs@, j + 1, done);
                    }
                    return Err(CircuitExecutionError::UndefinedOutput(node));
                },
            };
            match self.memory.read(index) {
                Ok(value) => {
                    output_values.insert(node, value);
                },
                Err(CircuitMemoryError::UninitializedSlot(_)) => {
                    proof {
                        lemma_read_stops(map, self.circuit.outputs@, j + 1, done);
                    }
                    return Err(CircuitExecutionError::UndefinedOutput(node));
                },
                Err(error) => {
                    proof {
                        lemma_read_stops(map, self.circuit.outputs@, j + 1, done);
                    }
                    return Err(CircuitExecutionError::MemoryError(error));
                },
            }
            j += 1;
        }
        assert(self.circuit.outputs@.take(j as int) == self.circuit.outputs@);
        Ok(output_values)
    }
}

/// Once an input could not be bound, the inputs after it are not looked at.
pub proof fn lemma_bind_stops<U>(
    map: Map<usize, usize>,
    ids: Seq<usize>,
    upto: int,
    binding: Map<usize, U>,
    slots: Seq<Option<U>>,
)
    requires
        0 <= upto <= ids.len(),
        bind_inputs(map, ids.take(upto), binding, slots).1 is Some,
    ensures
        bind_inputs(map, ids, binding, slots) == bind_inputs(map, ids.take(upto), binding, slots),
    decreases ids.len() - upto,
{
    if upto < ids.len() {
        assert(ids.take(upto + 1).drop_last() == ids.take(upto));
        lemma_bind_stops(map, ids, upto + 1, binding, slots);
    } else {
        assert(ids.take(upto) == ids);
    }
}

/// Once an output could not be read, the outputs after it are not looked at.
pub proof fn lemma_read_stops<U>(
    map: Map<usize, usize>,
    ids: Seq<usize>,
    upto: int,
    slots: Seq<Option<U>>,
)
    requires
        0 <= upto <= ids.len(),
        read_outputs(map, ids.take(upto), slots) is Err,
    ensures
        read_outputs(map, ids, slots) == read_outputs(map, ids.take(upto), slots),
    decreases ids.len() - upto,
{
    if upto < ids.len() {
        assert(ids.take(upto + 1).drop_last() == ids.take(upto));
        lemma_read_stops(map, ids, upto + 1, slots);
    } else {
        assert(ids.take(upto) == ids);
    }
}

/// A map has one memory size.
pub proof fn lemma_memory_size_is_unique(map: Map<usize, usize>, one: nat, other: nat)
    requires
        is_memory_size(map, one),
        is_memory_size(map, other),
    ensures
        one == other,
{
}

/// A run is a function of the circuit and the binding: two fresh executors
/// of circuits with the same components, index map, inputs and outputs,
/// given the same binding, return the same and leave the same memory.
pub proof fn law_run_is_deterministic<T, U>(
    first: GenericCircuitExecutor<T, U>,
    second: GenericCircuitExecutor<T, U>,
    binding: Map<usize, U>,
) where T: Component + Executable<U, CircuitMemory<U>>, U: Copy
    requires
        first.fresh(),
        second.fresh(),
        first.circuit().components() == second.circuit().components(),
        first.circuit().index_map() == second.circuit().index_map(),
        first.circuit().input_ids() == second.circuit().input_ids(),
        first.circuit().output_ids() == second.circuit().output_ids(),
    ensures
        first.outcome(binding) == second.outcome(binding),
{
    lemma_memory_size_is_unique(
        first.circuit().index_map(),
        first.memory().len(),
        second.memory().len(),
    );
    assert(first.memory() =~= second.memory());
}

/// Where all inputs were bound, each of them has a memory index within the
/// memory, and its slot holds a value.
pub proof fn lemma_bound_inputs_hold_values<U>(
    map: Map<usize, usize>,
    ids: Seq<usize>,
    binding: Map<usize, U>,
    slots: Seq<Option<U>>,
)
    requires
        bind_inputs(map, ids, binding, slots).1 is None,
    ensures
        extends(slots, bind_inputs(map, ids, binding, slots).0),
        forall|k: int|
            0 <= k < ids.len() ==> map.contains_key(#[trigger] ids[k]) && map[ids[k]]
                < slots.len() && bind_inputs(map, ids, binding, slots).0[map[ids[k]] as int]
                is Some,
    decreases ids.len(),
{
    if ids.len() > 0 {
        lemma_bound_inputs_hold_values(map, ids.drop_last(), binding, slots);
        let before = bind_inputs(map, ids.drop_last(), binding, slots).0;
        let after = bind_inputs(map, ids, binding, slots).0;
        assert(extends(before, after));
        assert forall|k: int| 0 <= k < ids.len() implies map.contains_key(#[trigger] ids[k])
            && map[ids[k]] < slots.len() && after[map[ids[k]] as int] is Some by {
            if k < ids.len() - 1 {
                assert(ids.drop_last()[k] == ids[k]);
            }
        }
    }
}

/// An executor runs once: after a run that succeeded, a second run, with
/// whatever values for the inputs, is refused at the first input, whose
/// slot is written already, and changes nothing. `before` and `after` are
/// the executor before and after the first run, as `run` relates them.
pub proof fn law_second_run_is_refused<T, U>(
    before: GenericCircuitExecutor<T, U>,
    after: GenericCircuitExecutor<T, U>,
    first: Map<usize, U>,
    second: Map<usize, U>,
) where T: Component + Executable<U, CircuitMemory<U>>, U: Copy
    requires
        before.outcome(first).1 is Ok,
        after.circuit() == before.circuit(),
        after.memory() == before.outcome(first).0,
        extends(
            bind_inputs(
                before.circuit().index_map(),
                before.circuit().input_ids(),
                first,
                before.memory(),
            ).0,
            after.memory(),
        ),
        before.circuit().input_ids().len() > 0,
        second.len() == before.circuit().input_ids().len(),
        second.contains_key(before.circuit().input_ids()[0]),
    ensures
        after.outcome(second) == (
            after.memory(),
            Err::<Map<usize, U>, CircuitExecutionError>(
                CircuitExecutionError::MemoryError(
                    CircuitMemoryError::RewriteAttempt(
                        before.circuit().index_map()[before.circuit().input_ids()[0]],
                    ),
                ),
            ),
        ),
{
    let map = before.circuit().index_map();
    let inputs = before.circuit().input_ids();
    let done = after.memory();
    lemma_bound_inputs_hold_values(map, inputs, first, before.memory());
    let node = inputs[0];
    assert(done[map[node] as int] is Some);
    assert(inputs.take(1).drop_last() == Seq::<usize>::empty());
    assert(inputs.take(1).last() == node);
    assert(bind_inputs(map, inputs.take(1).drop_last(), second, done) == (
        done,
        None::<CircuitExecutionError>,
    ));
    lemma_bind_stops(map, inputs, 1, second, done);
}

} // verus!
