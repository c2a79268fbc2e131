//! Shared `N`-process snapshot objects.
//!
//! A snapshot object has `N` components: process `i` updates component `i`,
//! and a scan returns the values of all components at once.
pub mod aad_plus_93;
pub mod ar_98;
pub mod mutex;

pub use self::aad_plus_93::{
    BoundedAtomicSnapshot,
    BoundedMutexSnapshot,
    BoundedSnapshot,
    UnboundedAtomicSnapshot,
    UnboundedMutexSnapshot,
    UnboundedSnapshot,
};

pub use self::ar_98::LatticeMutexSnapshot;
pub use self::mutex::MutexSnapshot;

use vstd::prelude::*;

verus! {

/// An ID for a process (or thread).
pub type ProcessId = usize;

/// An `N`-component snapshot object.
pub trait Snapshot<const N: usize>: Sized {
    type Value: Copy;

    /// The value of each component.
    spec fn components(&self) -> Seq<Self::Value>;

    /// The object is well formed.
    spec fn inv(&self) -> bool;

    /// Whether a new object may hold `value` in a component.
    spec fn initial_value(value: Self::Value) -> bool;

    /// Whether objects of this type can be created.
    spec fn can_create() -> bool;

    /// What a scan may return: for each component, its value; see each
    /// object for components that were never written.
    spec fn scans_to(&self, r: Seq<Self::Value>) -> bool;

    /// Whether process `i` can scan: it is a process of the object, where the
    /// object uses its id, and no bounded counter is exhausted.
    spec fn can_scan(&self, i: ProcessId) -> bool;

    /// Whether process `i` can update without exhausting a bounded counter.
    spec fn can_update(&self, i: ProcessId) -> bool;

    /// Creates a snapshot object.
    fn new() -> (s: Self)
        requires
            Self::can_create(),
        ensures
            s.inv(),
            s.components().len() == N,
            forall|k: int| 0 <= k < N ==> Self::initial_value(#[trigger] s.components()[k]),
    ;

    /// Returns an array containing the value of each component in the object.
    fn scan(&mut self, i: ProcessId) -> (r: [Self::Value; N])
        requires
            old(self).inv(),
            old(self).can_scan(i),
        ensures
            final(self).inv(),
            final(self).components() == old(self).components(),
            old(self).scans_to(r@),
    ;

    /// Sets contents of the _i^{th}_ component to the specified value.
    fn update(&mut self, i: ProcessId, value: Self::Value)
        requires
            old(self).inv(),
            i < N,
            old(self).can_update(i),
        ensures
            final(self).inv(),
            final(self).components() == old(self).components().update(i as int, value),
    ;
}

} // verus!
