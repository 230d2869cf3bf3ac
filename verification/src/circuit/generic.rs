//! The circuit that a builder yields: components in the order they run.

use crate::circuit::memory::{CircuitMemory, CircuitMemoryError};
use crate::model::{extends, Component, Executable};
use std::collections::HashMap;
use std::marker::PhantomData;
use vstd::prelude::*;

verus! {

/// Why a run of a circuit fails.
#[derive(Debug, PartialEq, Eq)]
pub enum CircuitExecutionError {
    ComponentExecutionError,
    InputNotFoundError(usize),
    InputLengthMismatch,
    MemoryMappingError(usize),
    MemoryError(CircuitMemoryError),
    UndefinedOutput(usize),
}

impl From<CircuitMemoryError> for CircuitExecutionError {
    fn from(error: CircuitMemoryError) -> (wrapped: CircuitExecutionError) {
        CircuitExecutionError::MemoryError(error)
    }
}

impl vstd::std_specs::convert::FromSpecImpl<CircuitMemoryError> for CircuitExecutionError {
    open spec fn obeys_from_spec() -> bool {
        true
    }

    open spec fn from_spec(error: CircuitMemoryError) -> CircuitExecutionError {
        CircuitExecutionError::MemoryError(error)
    }
}

/// The slots that the components leave behind when they run in order on
/// `slots`, and whether all of them succeeded. The run stops at the first
/// component that fails.
pub open spec fn run_components<T, U>(components: Seq<T>, slots: Seq<Option<U>>) -> (
    Seq<Option<U>>,
    bool,
) where T: Component + Executable<U, CircuitMemory<U>>, U: Copy
    decreases components.len(),
{
    if components.len() == 0 {
        (slots, true)
    } else {
        let (before, so_far) = run_components(components.drop_last(), slots);
        if so_far {
            (components.last().leaves(before), components.last().succeeds(before))
        } else {
            (before, false)
        }
    }
}

/// Every index of `map` is below the number of its entries, and no two nodes
/// share one: the indices are exactly `0..map.len()`.
pub open spec fn dense(map: Map<usize, usize>) -> bool {
    &&& map.dom().finite()
    &&& forall|node: usize| #[trigger] map.contains_key(node) ==> map[node] < map.len()
    &&& forall|a: usize, b: usize|
        #![trigger map[a], map[b]]
        map.contains_key(a) && map.contains_key(b) && map[a] == map[b] ==> a == b
}

/// Some component before position `upto` writes at `index`.
pub open spec fn driven_before<T: Component>(components: Seq<T>, upto: int, index: usize) -> bool {
    exists|c: int, k: int|
        0 <= c < upto && c < components.len() && 0 <= k < components[c].output_ids().len()
            && #[trigger] components[c].output_ids()[k] == index
}

/// Some component reads at `index`.
pub open spec fn read_by_some<T: Component>(components: Seq<T>, index: usize) -> bool {
    exists|c: int, k: int|
        0 <= c < components.len() && 0 <= k < components[c].input_ids().len()
            && #[trigger] components[c].input_ids()[k] == index
}

/// `index` is the memory index of one of `nodes`.
pub open spec fn indexes_one_of(map: Map<usize, usize>, nodes: Set<usize>, index: usize) -> bool {
    exists|node: usize| #[trigger] nodes.contains(node) && map.contains_key(node) && map[node] == index
}

/// The order of the components is an order in which they can run: each has
/// an input and an output, each reads only what holds a circuit input or
/// what a component before it writes, and no two outputs are written at the
/// same index. All of it lies within the memory.
pub open spec fn in_order<T: Component>(
    components: Seq<T>,
    map: Map<usize, usize>,
    inputs: Set<usize>,
) -> bool {
    &&& forall|c: int|
        0 <= c < components.len() ==> (#[trigger] components[c]).input_ids().len() > 0
            && components[c].output_ids().len() > 0
    &&& forall|c: int, k: int|
        #![trigger components[c].input_ids()[k]]
        0 <= c < components.len() && 0 <= k < components[c].input_ids().len() ==> {
            &&& components[c].input_ids()[k] < map.len()
            &&& indexes_one_of(map, inputs, components[c].input_ids()[k]) || driven_before(
                components,
                c,
                components[c].input_ids()[k],
            )
        }
    &&& forall|c: int, k: int|
        #![trigger components[c].output_ids()[k]]
        0 <= c < components.len() && 0 <= k < components[c].output_ids().len()
            ==> components[c].output_ids()[k] < map.len()
    &&& forall|c: int, k: int, d: int, j: int|
        #![trigger components[c].output_ids()[k], components[d].output_ids()[j]]
        0 <= c < components.len() && 0 <= k < components[c].output_ids().len() && 0 <= d
            < components.len() && 0 <= j < components[d].output_ids().len() && (c != d || k != j)
            ==> components[c].output_ids()[k] != components[d].output_ids()[j]
}

/// `size` is one more than the largest memory index of `map`, or zero where
/// `map` is empty.
pub open spec fn is_memory_size(map: Map<usize, usize>, size: nat) -> bool {
    &&& forall|node: usize| #[trigger] map.contains_key(node) ==> map[node] < size
    &&& size == 0 || exists|node: usize| #[trigger] map.contains_key(node) && map[node] + 1 == size
}

/// A dense map asks for one slot for each of its nodes: its memory size is
/// the number of its entries.
pub proof fn law_dense_map_fills_its_memory(map: Map<usize, usize>)
    requires
        dense(map),
    ensures
        is_memory_size(map, map.len()),
{
    let count = map.len() as int;
    if count > 0 {
        assert(map.is_injective()) by {
            assert forall|a: usize, b: usize|
                a != b && map.dom().contains(a) && map.dom().contains(b) implies #[trigger] map[a]
                != #[trigger] map[b] by {}
        }
        map.lemma_injective_values_len();
        let indices = map.values();
        let as_int = |index: usize| index as int;
        let plain = indices.map(as_int);
        assert(vstd::relations::injective_on(as_int, indices));
        vstd::set_lib::lemma_map_size(indices, plain, as_int);
        let all = vstd::set_lib::set_int_range(0, count);
        vstd::set_lib::lemma_int_range(0, count);
        assert(plain.subset_of(all)) by {
            assert forall|i: int| plain.contains(i) implies all.contains(i) by {
                let index = choose|index: usize| indices.contains(index) && as_int(index) == i;
                let node = choose|node: usize| map.contains_key(node) && map[node] == index;
                assert(map[node] < map.len());
            }
        }
        vstd::set_lib::lemma_subset_equality(plain, all);
        assert(all.contains(count - 1));
        assert(plain.contains(count - 1));
        let last = choose|index: usize| indices.contains(index) && as_int(index) == count - 1;
        let node = choose|node: usize| map.contains_key(node) && map[node] == last;
        assert(map.contains_key(node) && map[node] + 1 == map.len());
    }
}

/// No memory index of `map` is the largest number of the machine, so that
/// the size of the memory can be told.
pub open spec fn indices_fit(map: Map<usize, usize>) -> bool {
    forall|node: usize| #[trigger] map.contains_key(node) ==> map[node] < usize::MAX
}

/// Represents a generic circuit with a topological, linear execution order.
/// Utilizes a generic memory to store wire values and execute gates.
#[derive(Debug, PartialEq, Eq)]
pub struct GenericCircuit<T, U> {
    pub(crate) components: Vec<T>,
    pub(crate) inputs: Vec<usize>,
    pub(crate) outputs: Vec<usize>,
    pub(crate) memory_map: HashMap<usize, usize>,
    pub(crate) _phantom: PhantomData<U>,
}

impl<T, U> Component for GenericCircuit<T, U> where
    T: Component + Executable<U, CircuitMemory<U>>,
    U: Copy,
 {
    open(crate) spec fn input_ids(&self) -> Seq<usize> {
        self.inputs@
    }

    open(crate) spec fn output_ids(&self) -> Seq<usize> {
        self.outputs@
    }

    /// Returns the indices of the input nodes for the entire circuit.
    fn inputs(&self) -> (ids: &[usize]) {
        self.inputs.as_slice()
    }

    /// Returns the indices of the output nodes for the entire circuit.
    fn outputs(&self) -> (ids: &[usize]) {
        self.outputs.as_slice()
    }

    /// Sets the input nodes of the entire circuit.
    fn set_inputs(&mut self, inputs: Vec<usize>)
        ensures
            final(self).components() == old(self).components(),
            final(self).index_map() == old(self).index_map(),
    {
        self.inputs = inputs;
    }

    /// Sets the output nodes of the entire circuit.
    fn set_outputs(&mut self, outputs: Vec<usize>)
        ensures
            final(self).components() == old(self).components(),
            final(self).index_map() == old(self).index_map(),
    {
        self.outputs = outputs;
    }
}

impl<T, U> Executable<U, CircuitMemory<U>> for GenericCircuit<T, U> where
    T: Component + Executable<U, CircuitMemory<U>>,
    U: Copy,
 {
    type Error = CircuitExecutionError;

    open spec fn succeeds(&self, slots: Seq<Option<U>>) -> bool {
        run_components(self.components(), slots).1
    }

    open spec fn leaves(&self, slots: Seq<Option<U>>) -> Seq<Option<U>> {
        run_components(self.components(), slots).0
    }

    /// Runs every component in order, and stops at the first that fails.
    fn execute(&self, memory: &mut CircuitMemory<U>) -> (result: Result<
        (),
        CircuitExecutionError,
    >)
        ensures
            result matches Err(error) ==> error == CircuitExecutionError::ComponentExecutionError,
    {
        let mut i: usize = 0;
        while i < self.components.len()
            invariant
                i <= self.components@.len(),
                run_components(self.components@.take(i as int), old(memory)@) == (memory@, true),
                extends(old(memory)@, memory@),
            decreases self.components@.len() - i,
        {
            let ghost before = memory@;
            assert(self.components@.take(i + 1).drop_last() == self.components@.take(i as int));
            assert(self.components@.take(i + 1).last() == self.components@[i as int]);
            let step = self.components[i].execute(memory);
            if step.is_err() {
                proof {
                    lemma_run_stops(self.components@, i + 1, old(memory)@);
                }
                return Err(CircuitExecutionError::ComponentExecutionError);
            }
            i += 1;
        }
        assert(self.components@.take(i as int) == self.components@);
        Ok(())
    }
}

/// Once the first `upto` components have failed, the rest do not run.
pub proof fn lemma_run_stops<T, U>(components: Seq<T>, upto: int, slots: Seq<Option<U>>) where
    T: Component + Executable<U, CircuitMemory<U>>,
    U: Copy,

    requires
        0 <= upto <= components.len(),
        !run_components(components.take(upto), slots).1,
    ensures
        run_components(components, slots) == run_components(components.take(upto), slots),
    decreases components.len() - upto,
{
    if upto < components.len() {
        assert(components.take(upto + 1).drop_last() == components.take(upto));
        lemma_run_stops(components, upto + 1, slots);
    } else {
        assert(components.take(upto) == components);
    }
}

impl<T, U> GenericCircuit<T, U> where T: Component + Executable<U, CircuitMemory<U>>, U: Copy {
    /// The components of the circuit, in the order they run.
    pub open(crate) spec fn components(&self) -> Seq<T> {
        self.components@
    }

    /// The memory index of each node of the circuit.
    pub open(crate) spec fn index_map(&self) -> Map<usize, usize> {
        self.memory_map@
    }

    /// The circuit is one that can run: its index map is dense and indexes
    /// its inputs, no component writes where an input is, its components
    /// are in an order in which each reads only what holds a circuit input
    /// or what a component before it writes, no two of them write at the
    /// same index, and each of its outputs is written by a component and
    /// read by none. So every slot has one writer at most: the binding of an
    /// input, or one output of one component.
    pub open spec fn well_ordered(&self) -> bool {
        &&& dense(self.index_map())
        &&& in_order(self.components(), self.index_map(), self.input_ids().to_set())
        &&& forall|k: int|
            0 <= k < self.input_ids().len() ==> self.index_map().contains_key(
                #[trigger] self.input_ids()[k],
            )
        &&& forall|k: int|
            0 <= k < self.input_ids().len() ==> !driven_before(
                self.components(),
                self.components().len() as int,
                self.index_map()[#[trigger] self.input_ids()[k]],
            )
        &&& forall|k: int|
            0 <= k < self.output_ids().len() ==> {
                let node = #[trigger] self.output_ids()[k];
                &&& self.index_map().contains_key(node)
                &&& driven_before(
                    self.components(),
                    self.components().len() as int,
                    self.index_map()[node],
                )
                &&& !read_by_some(self.components(), self.index_map()[node])
            }
    }

    /// Creates a new generic circuit.
    pub fn new(
        components: Vec<T>,
        memory_map: HashMap<usize, usize>,
        inputs: Vec<usize>,
        outputs: Vec<usize>,
    ) -> (circuit: Self)
        ensures
            circuit.components() == components@,
            circuit.index_map() == memory_map@,
            circuit.input_ids() == inputs@,
            circuit.output_ids() == outputs@,
    {
        Self { components, memory_map, inputs, outputs, _phantom: PhantomData }
    }

    /// Returns the memory index of `node`, if the circuit has one for it.
    pub fn memory_index(&self, node: usize) -> (index: Option<usize>)
        ensures
            index == (if self.index_map().contains_key(node) {
                Some(self.index_map()[node])
            } else {
                None
            }),
    {
        broadcast use vstd::std_specs::hash::group_hash_axioms;

        match self.memory_map.get(&node) {
            Some(index) => Some(*index),
            None => None,
        }
    }

    /// Returns the memory size: one more than the largest memory index, and
    /// zero for a circuit without nodes.
    pub fn memory_size(&self) -> (size: usize)
        requires
            indices_fit(self.index_map()),
        ensures
            is_memory_size(self.index_map(), size as nat),
    {
        broadcast use vstd::std_specs::hash::group_hash_axioms;

        let ghost map = self.memory_map@;
        let ghost mut seen: Seq<usize> = Seq::empty();
        let ghost all: Seq<usize> = vstd::std_specs::hash::into_iter_values(
            vstd::std_specs::hash::spec_values_iter(&self.memory_map),
        );
        let mut size: usize = 0;
        for index in iter: self.memory_map.values()
            invariant
                map == self.memory_map@,
                indices_fit(map),
                all.to_set() == map.values(),
                all == iter.seq().unref(),
                seen == all.take(iter.index()),
                forall|k: int| 0 <= k < seen.len() ==> #[trigger] seen[k] < size,
                size == 0 || exists|k: int| 0 <= k < seen.len() && #[trigger] seen[k] + 1 == size,
        {
            proof {
                let k = iter.index();
                assert(all[k] == *index);
                assert(all.to_set().contains(*index));
                assert(map.values().contains(*index));
                let node = choose|node: usize| map.contains_key(node) && map[node] == *index;
                assert(map[node] < usize::MAX);
                assert(all.take(k + 1) == all.take(k).push(*index));
                seen = seen.push(*index);
            }
            if *index >= size {
                size = *index + 1;
                assert(seen[seen.len() - 1] + 1 == size);
            }
        }
        proof {
            assert(seen == all) by {
                assert(all.take(all.len() as int) == all);
            }
            assert forall|node: usize| #[trigger] map.contains_key(node) implies map[node] < size by {
                assert(map.values().contains(map[node]));
                assert(all.to_set().contains(map[node]));
                let k = choose|k: int| 0 <= k < all.len() && all[k] == map[node];
                assert(seen[k] < size);
            }
            if size != 0 {
                let k = choose|k: int| 0 <= k < seen.len() && #[trigger] seen[k] + 1 == size;
                assert(seen.to_set().contains(seen[k]));
                assert(map.values().contains(seen[k]));
                let node = choose|node: usize| map.contains_key(node) && map[node] == seen[k];
                assert(map.contains_key(node) && map[node] + 1 == size);
            }
        }
        size
    }
}

} // verus!
