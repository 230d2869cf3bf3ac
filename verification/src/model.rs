//! The capabilities a circuit is assembled from: a write-once memory, a
//! component with ordered input and output nodes, and a component that can be
//! executed against a memory.
//!
//! Each trait names what its operations hand back, so that what is built on
//! them can be stated: `slots`, `input_ids` and `output_ids`, `succeeds` and
//! `leaves`. The names are for verified implementations: each defines them
//! for its type and is held to the contracts below. The bodies given here
//! describe no implementation. They are there so that code outside the
//! verifier can implement the traits without them; of such code nothing is
//! proved, and what is proved of a circuit holds as far as its components do
//! what the contracts say.

use vstd::prelude::*;

verus! {

/// `later` keeps every value that `earlier` holds: no slot was dropped,
/// emptied or overwritten on the way from one to the other.
pub open spec fn extends<T>(earlier: Seq<Option<T>>, later: Seq<Option<T>>) -> bool {
    &&& later.len() == earlier.len()
    &&& forall|i: int| 0 <= i < earlier.len() && earlier[i] is Some ==> later[i] == earlier[i]
}

/// Indexed storage of values in which a slot is written at most once.
pub trait Memory<T> {
    type Error;

    /// The slots of the memory, in index order; `None` is an empty slot.
    open spec fn slots(&self) -> Seq<Option<T>> {
        arbitrary()
    }

    /// Reads the value at `index`. A value that is handed out is the one the
    /// slot holds.
    fn read(&self, index: usize) -> (result: Result<T, Self::Error>)
        ensures
            result matches Ok(value) ==> index < self.slots().len() && self.slots()[index as int]
                == Some(value),
    ;

    /// Writes `value` at `index`. A write that succeeds fills a slot that was
    /// empty and touches no other; one that fails leaves the memory as it was.
    fn write(&mut self, index: usize, value: T) -> (result: Result<(), Self::Error>)
        ensures
            result is Ok ==> index < old(self).slots().len() && old(self).slots()[index as int]
                is None && final(self).slots() == old(self).slots().update(
                index as int,
                Some(value),
            ),
            result is Err ==> final(self).slots() == old(self).slots(),
    ;
}

/// A node of the circuit with ordered input and output nodes.
pub trait Component {
    /// The input nodes, in the order the component reads them.
    open spec fn input_ids(&self) -> Seq<usize> {
        arbitrary()
    }

    /// The output nodes, in the order the component writes them.
    open spec fn output_ids(&self) -> Seq<usize> {
        arbitrary()
    }

    /// Returns the indices of the input nodes.
    fn inputs(&self) -> (ids: &[usize])
        ensures
            ids@ == self.input_ids(),
    ;

    /// Returns the indices of the output nodes.
    fn outputs(&self) -> (ids: &[usize])
        ensures
            ids@ == self.output_ids(),
    ;

    /// Sets the input nodes and leaves the output nodes alone.
    fn set_inputs(&mut self, inputs: Vec<usize>)
        ensures
            final(self).input_ids() == inputs@,
            final(self).output_ids() == old(self).output_ids(),
    ;

    /// Sets the output nodes and leaves the input nodes alone.
    fn set_outputs(&mut self, outputs: Vec<usize>)
        ensures
            final(self).output_ids() == outputs@,
            final(self).input_ids() == old(self).input_ids(),
    ;
}

/// A component that can be run against a memory of values of type `T`.
///
/// What a run does is a function of the component and of the slots it is
/// handed: `succeeds` says whether it reports success, `leaves` which slots it
/// leaves behind. Nothing is said of the inputs on which a component
/// succeeds; that is the implementer's to decide.
pub trait Executable<T, U: Memory<T>>: Component {
    type Error;

    /// Whether a run on a memory with these slots reports success.
    open spec fn succeeds(&self, slots: Seq<Option<T>>) -> bool {
        arbitrary()
    }

    /// The slots a run on a memory with these slots leaves behind.
    open spec fn leaves(&self, slots: Seq<Option<T>>) -> Seq<Option<T>> {
        arbitrary()
    }

    /// Executes the component using the provided memory. The memory is only
    /// ever filled: every value it held before is still there afterwards.
    fn execute(&self, memory: &mut U) -> (result: Result<(), Self::Error>)
        ensures
            result is Ok <==> self.succeeds(old(memory).slots()),
            final(memory).slots() == self.leaves(old(memory).slots()),
            extends(old(memory).slots(), final(memory).slots()),
    ;
}

} // verus!
