//! A register holding an integer, with a memory ordering.
use vstd::prelude::*;

verus! {

/// The memory orderings of atomic operations.
#[derive(Clone, Copy, Debug, PartialEq, Eq)]
pub enum MemoryOrdering {
    Relaxed,
    Release,
    Acquire,
    AcqRel,
    SeqCst,
}

/// A register storing integer values.
#[derive(Clone, Debug)]
pub struct IntegerRegister {
    data: usize,
    ordering: MemoryOrdering,
}

impl IntegerRegister {
    /// The value held.
    pub closed spec fn value(&self) -> usize {
        self.data
    }

    /// The memory ordering of the register's operations.
    pub closed spec fn order(&self) -> MemoryOrdering {
        self.ordering
    }

    /// Creates a new register with specified initial integer value and
    /// memory ordering.
    pub fn new_with_order(value: usize, ordering: MemoryOrdering) -> (r: Self)
        ensures
            r.value() == value,
            r.order() == ordering,
    {
        Self { data: value, ordering }
    }

    /// Creates a new register with specified initial integer value and the
    /// strongest available memory ordering, sequential consistency.
    pub fn new(value: usize) -> (r: Self)
        ensures
            r.value() == value,
            r.order() == MemoryOrdering::SeqCst,
    {
        IntegerRegister::new_with_order(value, MemoryOrdering::SeqCst)
    }

    /// Returns the value held.
    pub fn read(&self) -> (r: usize)
        ensures
            r == self.value(),
    {
        self.data
    }

    /// Sets the value held; the ordering stays.
    pub fn write(&mut self, value: usize)
        ensures
            final(self).value() == value,
            final(self).order() == old(self).order(),
    {
        self.data = value;
    }
}

} // verus!
