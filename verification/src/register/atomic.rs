//! A register backed by 64 bits.
use crate::register::Register;
use vstd::prelude::*;

verus! {

/// Values that can be packed into 64 bits, and unpacked again.
pub trait Packable: Sized {
    /// Whether the value is one that packing preserves.
    spec fn fits(&self) -> bool;

    /// The 64 bits a value is packed into.
    spec fn packed(&self) -> u64;

    /// The value 64 bits unpack into.
    spec fn unpacked(bits: u64) -> Self;

    /// Packs the value into 64 bits.
    fn pack(&self) -> (r: u64)
        ensures
            r == self.packed(),
    ;

    /// Unpacks a value from 64 bits.
    fn unpack(bits: u64) -> (r: Self)
        ensures
            r == Self::unpacked(bits),
    ;

    /// Unpacking undoes packing.
    proof fn lemma_unpack_pack(v: Self)
        requires
            v.fits(),
        ensures
            Self::unpacked(v.packed()) == v,
    ;
}

impl Packable for u64 {
    open spec fn fits(&self) -> bool {
        true
    }

    open spec fn packed(&self) -> u64 {
        *self
    }

    open spec fn unpacked(bits: u64) -> u64 {
        bits
    }

    fn pack(&self) -> (r: u64) {
        *self
    }

    fn unpack(bits: u64) -> (r: u64) {
        bits
    }

    proof fn lemma_unpack_pack(v: u64) {
    }
}

/// A shared-memory register, backed by 64 bits of memory.
///
/// The value is packed into a `u64` when written, and unpacked when read,
/// and so only small values can be stored.
pub struct AtomicRegister<T: Default + Packable> {
    register: u64,
    value_type: core::marker::PhantomData<T>,
}

impl<T: Default + Packable> AtomicRegister<T> {
    /// The bits stored.
    pub closed spec fn bits(&self) -> u64 {
        self.register
    }
}

impl<T: Default + Packable> Register for AtomicRegister<T> {
    type Value = T;

    closed spec fn contents(&self) -> T {
        T::unpacked(self.bits())
    }

    /// A new register holds the default value of `T`, packed and unpacked.
    open spec fn initial(value: T) -> bool {
        exists|d: T| call_ensures(T::default, (), d) && value == T::unpacked(d.packed())
    }

    open spec fn holds(value: T) -> bool {
        value.fits()
    }

    /// Creates a new register containing the default value of `T`.
    fn new() -> (r: Self) {
        let d = T::default();
        let r = Self { register: d.pack(), value_type: core::marker::PhantomData };
        assert(call_ensures(T::default, (), d) && r.contents() == T::unpacked(d.packed()));
        r
    }

    /// Returns the value currently contained in the register.
    fn read(&self) -> (v: T) {
        T::unpack(self.register)
    }

    /// Sets contents of the register to the specified value.
    fn write(&mut self, value: T)
        ensures
            final(self).bits() == value.packed(),
            final(self).contents() == T::unpacked(value.packed()),
    {
        self.register = value.pack();
        proof {
            if value.fits() {
                T::lemma_unpack_pack(value);
            }
        }
    }
}

impl<T: Default + Packable> Clone for AtomicRegister<T> {
    fn clone(&self) -> (r: Self)
        ensures
            r.bits() == self.bits(),
    {
        Self { register: self.register, value_type: core::marker::PhantomData }
    }
}

impl<T: Default + Packable> Default for AtomicRegister<T> {
    fn default() -> (r: Self)
        ensures
            Self::initial(r.contents()),
    {
        Self::new()
    }
}

} // verus!
