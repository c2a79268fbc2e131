//! A snapshot object whose components are stored together.
use crate::snapshot::{ProcessId, Snapshot};
use vstd::prelude::*;

verus! {

/// A snapshot object that keeps all components in one array.
pub struct MutexSnapshot<T: Copy + Default, const N: usize> {
    data: [T; N],
}

impl<T: Copy + Default, const N: usize> Snapshot<N> for MutexSnapshot<T, N> {
    type Value = T;

    closed spec fn components(&self) -> Seq<T> {
        self.data@
    }

    open spec fn inv(&self) -> bool {
        true
    }

    open spec fn initial_value(value: T) -> bool {
        call_ensures(T::default, (), value)
    }

    open spec fn can_create() -> bool {
        true
    }

    /// A scan returns the value of each component.
    open spec fn scans_to(&self, r: Seq<Self::Value>) -> bool {
        r == self.components()
    }

    /// Any process can scan; the id is not used.
    open spec fn can_scan(&self, i: ProcessId) -> bool {
        true
    }

    open spec fn can_update(&self, i: ProcessId) -> bool {
        true
    }

    fn new() -> (s: Self) {
        Self { data: [T::default(); N] }
    }

    /// Returns an array containing the value of each component in the object.
    fn scan(&mut self, _i: ProcessId) -> (r: [T; N]) {
        self.data
    }

    /// Sets contents of the ith component to the specified value.
    fn update(&mut self, i: ProcessId, value: T) {
        self.data[i] = value;
    }
}

} // verus!
