//! A register whose contents are stored as they are.
use crate::register::Register;
use vstd::prelude::*;

verus! {

/// A shared-memory register, holding any `Copy` value as it is.
#[derive(Debug)]
pub struct MutexRegister<T: Copy + Default> {
    value: T,
}

impl<T: Copy + Default> Register for MutexRegister<T> {
    type Value = T;

    closed spec fn contents(&self) -> T {
        self.value
    }

    /// A new register holds the default value of `T`.
    open spec fn initial(value: T) -> bool {
        call_ensures(T::default, (), value)
    }

    open spec fn holds(value: T) -> bool {
        true
    }

    /// Creates a new register containing the default value of `T`.
    fn new() -> (r: Self) {
        Self { value: T::default() }
    }

    /// Returns the value currently contained in the register.
    fn read(&self) -> (v: T) {
        self.value
    }

    /// Sets contents of the register to the specified value.
    fn write(&mut self, value: T)
        ensures
            final(self).contents() == value,
    {
        self.value = value;
    }
}

impl<T: Copy + Default> Default for MutexRegister<T> {
    fn default() -> (r: Self)
        ensures
            call_ensures(T::default, (), r.contents()),
    {
        Self::new()
    }
}

impl<T: Copy + Default> Clone for MutexRegister<T> {
    fn clone(&self) -> (r: Self)
        ensures
            r.contents() == self.contents(),
    {
        let mut clone = Self::new();
        clone.write(self.read());
        clone
    }
}

} // verus!
