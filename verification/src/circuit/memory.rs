//! The write-once memory of a circuit.

use crate::model::{extends, Memory};
use vstd::prelude::*;

verus! {

/// What can go wrong when a slot of a `CircuitMemory` is read or written.
/// `ReadError` and `WriteError` report an index outside the memory.
#[derive(Debug, PartialEq, Eq)]
pub enum CircuitMemoryError {
    ReadError(usize),
    UninitializedSlot(usize),
    WriteError(usize),
    RewriteAttempt(usize),
}

/// What reading slot `index` of `slots` yields.
pub open spec fn read_slot<T>(slots: Seq<Option<T>>, index: usize) -> Result<
    T,
    CircuitMemoryError,
> {
    if index >= slots.len() {
        Err(CircuitMemoryError::ReadError(index))
    } else {
        match slots[index as int] {
            Some(value) => Ok(value),
            None => Err(CircuitMemoryError::UninitializedSlot(index)),
        }
    }
}

/// Whether slot `index` of `slots` accepts a write, and the error if not.
pub open spec fn write_outcome<T>(slots: Seq<Option<T>>, index: usize) -> Result<
    (),
    CircuitMemoryError,
> {
    if index >= slots.len() {
        Err(CircuitMemoryError::WriteError(index))
    } else if slots[index as int] is Some {
        Err(CircuitMemoryError::RewriteAttempt(index))
    } else {
        Ok(())
    }
}

/// The slots after an attempt to write `value` at `index`: a rejected write
/// changes nothing.
pub open spec fn write_slot<T>(slots: Seq<Option<T>>, index: usize, value: T) -> Seq<Option<T>> {
    if write_outcome(slots, index) is Ok {
        slots.update(index as int, Some(value))
    } else {
        slots
    }
}

/// Circuit memory generic over the stored value type.
#[derive(Debug, PartialEq, Eq)]
pub struct CircuitMemory<T> {
    wires: Vec<Option<T>>,
}

impl<T> View for CircuitMemory<T> {
    type V = Seq<Option<T>>;

    closed spec fn view(&self) -> Seq<Option<T>> {
        self.wires@
    }
}

impl<T> CircuitMemory<T> {
    /// Creates a memory of `size` empty slots.
    pub fn new(size: usize) -> (memory: Self)
        ensures
            memory@ == Seq::new(size as nat, |i: int| None::<T>),
    {
        let mut wires: Vec<Option<T>> = Vec::with_capacity(size);
        let mut filled: usize = 0;
        while filled < size
            invariant
                filled <= size,
                wires@ == Seq::new(filled as nat, |i: int| None::<T>),
            decreases size - filled,
        {
            wires.push(None);
            filled += 1;
        }
        Self { wires }
    }
}

impl<T: Copy> Memory<T> for CircuitMemory<T> {
    type Error = CircuitMemoryError;

    open spec fn slots(&self) -> Seq<Option<T>> {
        self@
    }

    /// Attempts to read a value from the specified memory index.
    /// Returns an error if the index is out of bounds or if no value has been written there yet.
    fn read(&self, index: usize) -> (result: Result<T, CircuitMemoryError>)
        ensures
            result == read_slot(self@, index),
    {
        if index >= self.wires.len() {
            return Err(CircuitMemoryError::ReadError(index));
        }
        match self.wires[index] {
            Some(value) => Ok(value),
            None => Err(CircuitMemoryError::UninitializedSlot(index)),
        }
    }

    /// Writes a value to the specified memory index.
    /// Returns an error if the index is out of bounds or if the slot is already occupied.
    fn write(&mut self, index: usize, value: T) -> (result: Result<(), CircuitMemoryError>)
        ensures
            result == write_outcome(old(self)@, index),
            final(self)@ == write_slot(old(self)@, index, value),
    {
        if index >= self.wires.len() {
            return Err(CircuitMemoryError::WriteError(index));
        }
        if self.wires[index].is_some() {
            return Err(CircuitMemoryError::RewriteAttempt(index));
        }
        self.wires.set(index, Some(value));
        Ok(())
    }
}

/// A slot takes one write: the second write to an index that accepted the
/// first is refused as a rewrite, whatever the two values are, and changes
/// nothing.
pub proof fn law_second_write_is_refused<T>(
    slots: Seq<Option<T>>,
    index: usize,
    first: T,
    second: T,
)
    requires
        write_outcome(slots, index) is Ok,
    ensures
        write_outcome(write_slot(slots, index, first), index) == Err::<(), CircuitMemoryError>(
            CircuitMemoryError::RewriteAttempt(index),
        ),
        write_slot(write_slot(slots, index, first), index, second) == write_slot(
            slots,
            index,
            first,
        ),
        read_slot(write_slot(slots, index, first), index) == Ok::<T, CircuitMemoryError>(first),
{
}

/// No write, accepted or not, empties or changes a slot that holds a value,
/// and none changes the number of slots.
pub proof fn law_write_keeps_values<T>(slots: Seq<Option<T>>, index: usize, value: T)
    ensures
        extends(slots, write_slot(slots, index, value)),
{
}

} // verus!
