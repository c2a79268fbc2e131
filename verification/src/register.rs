//! Shared read/write registers.
//!
//! A register holds one value: a read returns the value of the latest write.
//! Registers here are sequential objects; sharing one between threads is
//! left to the caller (for example behind a lock).
pub mod atomic;
pub mod integer;
pub mod mutex;

pub use self::atomic::{AtomicRegister, Packable};
pub use self::integer::IntegerRegister;
pub use self::mutex::MutexRegister;

use vstd::prelude::*;

verus! {

/// A shared-memory register.
pub trait Register: Sized {
    type Value;

    /// The value the register holds.
    spec fn contents(&self) -> Self::Value;

    /// Whether a new register may hold `value`.
    spec fn initial(value: Self::Value) -> bool;

    /// Whether the register can hold `value` exactly.
    spec fn holds(value: Self::Value) -> bool;

    /// Creates a new register.
    fn new() -> (r: Self)
        ensures
            Self::initial(r.contents()),
    ;

    /// Returns the value currently contained in the register.
    fn read(&self) -> (v: Self::Value)
        ensures
            v == self.contents(),
    ;

    /// Sets contents of the register to the specified value.
    fn write(&mut self, value: Self::Value)
        ensures
            Self::holds(value) ==> final(self).contents() == value,
    ;
}

} // verus!
