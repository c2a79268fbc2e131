//! The snapshot of Section 3 of AAD+93, with unbounded sequence numbers.
use crate::register::{AtomicRegister, MutexRegister, Packable, Register};
use crate::snapshot::aad_plus_93::bits;
use crate::snapshot::aad_plus_93::moved_count;
use crate::snapshot::{ProcessId, Snapshot};
use vstd::prelude::*;

verus! {

/// A wait-free `N`-process single-writer multi-reader atomic snapshot,
/// backed by 64-bit registers.
pub type UnboundedAtomicSnapshot<const N: usize> = UnboundedSnapshot<
    AtomicRegister<UnboundedAtomicContents<N>>,
    N,
>;

/// An `N`-process single-writer multi-reader snapshot, backed by registers
/// that hold their contents as they are.
pub type UnboundedMutexSnapshot<T, const N: usize> = UnboundedSnapshot<
    MutexRegister<UnboundedContents<T, N>>,
    N,
>;

/// The contents of a component of the snapshot object.
pub trait Contents<const N: usize>: Sized + Copy + Default {
    type Value: Copy + Default;

    /// The value stored in this component.
    spec fn value_of(&self) -> Self::Value;

    /// The view stored in this component.
    spec fn view_of(&self) -> Seq<Self::Value>;

    /// The sequence number stored in this component.
    spec fn sequence_of(&self) -> nat;

    /// The largest sequence number that can be stored.
    spec fn max_sequence() -> nat;

    /// Creates a new component.
    fn new(value: Self::Value, sequence: u64, view: [Self::Value; N]) -> (r: Self)
        requires
            sequence <= Self::max_sequence(),
        ensures
            r.value_of() == value,
            r.sequence_of() == sequence,
            r.view_of() == view@,
    ;

    /// Returns the sequence number stored in this component.
    fn sequence(&self) -> (r: u64)
        ensures
            r == self.sequence_of(),
    ;

    /// Returns the value stored in this component.
    fn value(&self) -> (r: Self::Value)
        ensures
            r == self.value_of(),
    ;

    /// Returns the view stored in this component.
    fn view(&self) -> (r: [Self::Value; N])
        ensures
            r@ == self.view_of(),
    ;
}

/// A wait-free `N`-process single-writer multi-reader snapshot object,
/// backed by register objects of type `R`.
///
/// This implementation relies on storing sequence numbers that can grow
/// arbitrarily large.
pub struct UnboundedSnapshot<R: Register, const N: usize> where R::Value: Contents<N> {
    registers: Vec<R>,
}

/// The values of a sequence of components.
pub open spec fn values_of<C: Contents<N>, const N: usize>(cs: Seq<C>) -> Seq<C::Value> {
    Seq::new(cs.len(), |k: int| cs[k].value_of())
}

/// Returns the values of the components, as an array.
fn values_array<C: Contents<N>, const N: usize>(cs: &Vec<C>) -> (r: [C::Value; N])
    requires
        cs@.len() == N,
    ensures
        r@ == values_of(cs@),
{
    let mut r: [C::Value; N] = [C::Value::default(); N];
    let mut k: usize = 0;
    while k < N
        invariant
            cs@.len() == N,
            k <= N,
            r@.len() == N,
            forall|j: int| 0 <= j < k ==> r@[j] == (#[trigger] cs@[j]).value_of(),
        decreases N - k,
    {
        r[k] = cs[k].value();
        k = k + 1;
    }
    assert(r@ =~= values_of(cs@));
    r
}

impl<R: Register, const N: usize> UnboundedSnapshot<R, N> where R::Value: Contents<N> {
    /// The contents of each register.
    pub closed spec fn contents(&self) -> Seq<R::Value> {
        Seq::new(self.registers@.len(), |k: int| self.registers@[k].contents())
    }

    /// Returns an array of values, obtained by sequentially performing a
    /// read on each component of the snapshot.
    fn collect(&self) -> (r: Vec<R::Value>)
        requires
            self.registers@.len() == N,
        ensures
            r@ == self.contents(),
    {
        let mut r: Vec<R::Value> = Vec::new();
        let mut k: usize = 0;
        while k < N
            invariant
                self.registers@.len() == N,
                k <= N,
                r@.len() == k,
                forall|j: int| 0 <= j < k ==> r@[j] == (#[trigger] self.registers@[j]).contents(),
            decreases N - k,
        {
            r.push(self.registers[k].read());
            k = k + 1;
        }
        assert(r@ =~= self.contents());
        r
    }
}

impl<R: Register, const N: usize> Snapshot<N> for UnboundedSnapshot<R, N> where
    R::Value: Contents<N>,
 {
    type Value = <R::Value as Contents<N>>::Value;

    closed spec fn components(&self) -> Seq<Self::Value> {
        values_of(self.contents())
    }

    closed spec fn inv(&self) -> bool {
        self.registers@.len() == N
    }

    /// A new component holds the value of the contents of a new register.
    open spec fn initial_value(value: Self::Value) -> bool {
        exists|c: R::Value| R::initial(c) && c.value_of() == value
    }

    /// The registers must hold any contents exactly: contents packed into
    /// 64 bits fit only for a few components.
    open spec fn can_create() -> bool {
        forall|c: R::Value| R::holds(c)
    }

    /// A scan returns the value of each component.
    open spec fn scans_to(&self, r: Seq<Self::Value>) -> bool {
        r == self.components()
    }

    /// Any process can scan; the id is not used.
    open spec fn can_scan(&self, i: ProcessId) -> bool {
        true
    }

    /// The sequence number of component `i` can be incremented, and the
    /// registers hold any contents exactly.
    open spec fn can_update(&self, i: ProcessId) -> bool {
        &&& self.contents()[i as int].sequence_of() < R::Value::max_sequence()
        &&& self.contents()[i as int].sequence_of() < u64::MAX
        &&& forall|c: R::Value| R::holds(c)
    }

    /// Creates a new snapshot object, whose registers hold what new
    /// registers hold.
    fn new() -> (s: Self)
        ensures
            s.contents().len() == N,
            forall|k: int| 0 <= k < N ==> R::initial(#[trigger] s.contents()[k]),
    {
        let mut registers: Vec<R> = Vec::new();
        let mut k: usize = 0;
        while k < N
            invariant
                k <= N,
                registers@.len() == k,
                forall|j: int| 0 <= j < k ==> R::initial((#[trigger] registers@[j]).contents()),
            decreases N - k,
        {
            registers.push(R::new());
            k = k + 1;
        }
        let s = Self { registers };
        assert forall|k: int| 0 <= k < N implies Self::initial_value(
            #[trigger] s.components()[k],
        ) by {
            let c = s.registers@[k].contents();
            assert(R::initial(c) && c.value_of() == s.components()[k]);
        }
        s
    }

    /// A scan changes nothing.
    fn scan(&mut self, _i: ProcessId) -> (r: [Self::Value; N])
        ensures
            *final(self) == *old(self),
    {
        // A process has moved if its sequence number has been incremented.
        let mut moved: Vec<u8> = Vec::new();
        while moved.len() < N
            invariant
                moved@.len() <= N,
                forall|k: int| 0 <= k < moved@.len() ==> #[trigger] moved@[k] == 0,
            decreases N - moved@.len(),
        {
            moved.push(0);
        }
        loop
            invariant
                self.registers@.len() == N,
                *self == *old(self),
                moved@.len() == N,
                forall|k: int| 0 <= k < N ==> #[trigger] moved@[k] <= 1,
            decreases N - moved_count(moved@),
        {
            let first = self.collect();
            let second = self.collect();
            // If both collects are identical, then their values are a valid scan.
            let mut all_same = true;
            let mut j: usize = 0;
            while j < N
                invariant
                    first@.len() == N,
                    second@.len() == N,
                    j <= N,
                    all_same <==> forall|k: int|
                        0 <= k < j ==> (#[trigger] first@[k]).sequence_of()
                            == second@[k].sequence_of(),
                decreases N - j,
            {
                if first[j].sequence() != second[j].sequence() {
                    all_same = false;
                }
                j = j + 1;
            }
            if all_same {
                return values_array(&second);
            }
            proof {
                // Both collects read the same registers, so no process moved,
                // and the scan has returned already.
                assert(first@ == second@);
                assert(false);
            }
            let mut j: usize = 0;
            while j < N
                invariant
                    first@.len() == N,
                    second@.len() == N,
                    first@ == second@,
                    moved@.len() == N,
                    forall|k: int| 0 <= k < N ==> #[trigger] moved@[k] <= 1,
                    j <= N,
                decreases N - j,
            {
                // If process j is observed to have moved twice, then it must
                // have performed a successful update. The result of the scan
                // that it performed during that operation can be borrowed.
                if first[j].sequence() != second[j].sequence() {
                    if moved[j] == 1 {
                        return second[j].view();
                    } else {
                        moved.set(j, moved[j] + 1);
                    }
                }
                j = j + 1;
            }
        }
    }

    /// Register `i` gets the new value, the next sequence number, and the
    /// values that a scan returned; the other registers keep their
    /// contents.
    fn update(&mut self, i: ProcessId, value: Self::Value)
        ensures
            final(self).contents().len() == N,
            final(self).contents()[i as int].value_of() == value,
            final(self).contents()[i as int].sequence_of() == old(self).contents()[i as int].sequence_of()
                + 1,
            final(self).contents()[i as int].view_of() == old(self).components(),
            forall|k: int|
                0 <= k < N && k != i ==> #[trigger] final(self).contents()[k] == old(
                    self,
                ).contents()[k],
    {
        // Update the contents of the ith register with the new value, an
        // incremented sequence number, and the result of a scan.
        let sequence = self.registers[i].read().sequence() + 1;
        let view = self.scan(i);
        let contents = <R::Value as Contents<N>>::new(value, sequence, view);
        let ghost before = self.contents();
        self.registers[i].write(contents);
        proof {
            assert(self.contents() =~= before.update(i as int, contents));
            assert(self.components() =~= old(self).components().update(i as int, value));
        }
    }
}

/// The contents of a component, holding values of any type.
#[derive(Clone, Copy, Debug, PartialEq, Eq)]
pub struct UnboundedContents<T: Copy + Default, const N: usize> {
    pub value: T,
    pub view: [T; N],
    pub sequence: u32,
}

impl<T: Copy + Default, const N: usize> Default for UnboundedContents<T, N> {
    fn default() -> (r: Self)
        ensures
            call_ensures(T::default, (), r.value),
            forall|k: int| 0 <= k < N ==> call_ensures(T::default, (), #[trigger] r.view@[k]),
            r.sequence == 0,
    {
        Self { value: T::default(), view: [T::default(); N], sequence: 0 }
    }
}

impl<T: Copy + Default, const N: usize> Contents<N> for UnboundedContents<T, N> {
    type Value = T;

    open spec fn value_of(&self) -> T {
        self.value
    }

    open spec fn view_of(&self) -> Seq<T> {
        self.view@
    }

    open spec fn sequence_of(&self) -> nat {
        self.sequence as nat
    }

    open spec fn max_sequence() -> nat {
        u32::MAX as nat
    }

    fn new(value: T, sequence: u64, view: [T; N]) -> (r: Self) {
        Self { value, view, sequence: sequence as u32 }
    }

    fn value(&self) -> (r: T) {
        self.value
    }

    fn view(&self) -> (r: [T; N]) {
        self.view
    }

    fn sequence(&self) -> (r: u64) {
        self.sequence as u64
    }
}

/// The contents of a component, packed into 64 bits: eight bits for the
/// value, eight for each value of the view and sixteen for the sequence
/// number. At most five components fit.
#[derive(Clone, Copy, Debug, PartialEq, Eq)]
pub struct UnboundedAtomicContents<const N: usize> {
    pub value: u8,
    pub view: [u8; N],
    pub sequence: u16,
}

/// The contents of a component holding integer values, packed into 64 bits.
pub type UnboundedIntContents<const N: usize> = UnboundedAtomicContents<N>;

impl<const N: usize> Default for UnboundedAtomicContents<N> {
    fn default() -> (r: Self)
        ensures
            r.value == 0,
            forall|k: int| 0 <= k < N ==> #[trigger] r.view@[k] == 0,
            r.sequence == 0,
    {
        Self { value: 0, view: [0; N], sequence: 0 }
    }
}

impl<const N: usize> Contents<N> for UnboundedAtomicContents<N> {
    type Value = u8;

    open spec fn value_of(&self) -> u8 {
        self.value
    }

    open spec fn view_of(&self) -> Seq<u8> {
        self.view@
    }

    open spec fn sequence_of(&self) -> nat {
        self.sequence as nat
    }

    open spec fn max_sequence() -> nat {
        u16::MAX as nat
    }

    fn new(value: u8, sequence: u64, view: [u8; N]) -> (r: Self) {
        Self { value, view, sequence: sequence as u16 }
    }

    fn value(&self) -> (r: u8) {
        self.value
    }

    fn view(&self) -> (r: [u8; N]) {
        self.view
    }

    fn sequence(&self) -> (r: u64) {
        self.sequence as u64
    }
}

/// The bits that a value and the first `k` values of a view pack into:
/// the value in the lowest byte, and view value `j` in byte `j + 1`.
pub open spec fn pack_bytes(value: u8, view: Seq<u8>, k: nat) -> u64
    decreases k,
{
    if k == 0 {
        value as u64
    } else if 8 * k < 64 {
        pack_bytes(value, view, (k - 1) as nat) | ((view[k - 1] as u64) << ((8 * k) as u64))
    } else {
        pack_bytes(value, view, (k - 1) as nat)
    }
}

/// The byte that view value `k` is unpacked from.
pub open spec fn byte_at(bits: u64, k: int) -> u8 {
    if 8 * (k + 1) < 64 {
        ((bits >> ((8 * (k + 1)) as u64)) & 0xff) as u8
    } else {
        0
    }
}

/// What packing writes byte by byte can be read back, byte by byte.
pub proof fn lemma_pack_bytes(value: u8, view: Seq<u8>, k: nat)
    requires
        k <= 6,
        k <= view.len(),
    ensures
        pack_bytes(value, view, k) >> ((8 * (k + 1)) as u64) == 0,
        (pack_bytes(value, view, k) >> 0u64) & 0xff == value as u64,
        forall|j: int|
            0 <= j < k ==> (pack_bytes(value, view, k) >> ((8 * (j + 1)) as u64)) & 0xff
                == #[trigger] view[j] as u64,
    decreases k,
{
    if k == 0 {
        bits::lemma_byte(value as u64);
    } else {
        let a = pack_bytes(value, view, (k - 1) as nat);
        let v = view[k - 1] as u64;
        let s = (8 * k) as u64;
        lemma_pack_bytes(value, view, (k - 1) as nat);
        bits::lemma_or_byte(a, v, s);
        bits::lemma_or_keeps_byte(a, v, s, 0);
        assert forall|j: int| 0 <= j < k implies (pack_bytes(value, view, k) >> ((8 * (j + 1)) as u64))
            & 0xff == #[trigger] view[j] as u64 by {
            if j < k - 1 {
                bits::lemma_or_keeps_byte(a, v, s, (8 * (j + 1)) as u64);
            }
        }
    }
}

impl<const N: usize> UnboundedAtomicContents<N> {
    /// The sequence number that 64 bits unpack into.
    pub open spec fn sequence_bits(bits: u64) -> u16 {
        if 8 * (N + 1) < 64 {
            ((bits >> ((8 * (N + 1)) as u64)) & 0xffff) as u16
        } else {
            0
        }
    }

    /// Whether `c` is what 64 bits unpack into.
    pub open spec fn unpacks_to(bits: u64, c: Self) -> bool {
        &&& c.value == (bits & 0xff) as u8
        &&& c.view@ == Seq::new(N as nat, |k: int| byte_at(bits, k))
        &&& c.sequence == Self::sequence_bits(bits)
    }
}

impl<const N: usize> Packable for UnboundedAtomicContents<N> {
    /// The contents of at most five components fit into 64 bits.
    open spec fn fits(&self) -> bool {
        N <= 5
    }

    open spec fn packed(&self) -> u64 {
        let p = pack_bytes(self.value, self.view@, N as nat);
        if 8 * (N + 1) < 64 {
            p | ((self.sequence as u64) << ((8 * (N + 1)) as u64))
        } else {
            p
        }
    }

    open spec fn unpacked(bits: u64) -> Self {
        choose|c: Self| Self::unpacks_to(bits, c)
    }

    fn pack(&self) -> (r: u64) {
        // Encode value as right-most 8 bits
        let mut result: u64 = self.value as u64;
        // Encode view as (reversed) sequence of 8-bit values
        let mut i: usize = 0;
        while i < N
            invariant
                i <= N,
                result == pack_bytes(self.value, self.view@, i as nat),
            decreases N - i,
        {
            if i < 7 {
                result = result | ((self.view[i] as u64) << ((8 * (i + 1)) as u64));
            }
            i = i + 1;
        }
        // Encode sequence number in remaining left-most bits
        if N < 7 {
            result = result | ((self.sequence as u64) << ((8 * (N + 1)) as u64));
        }
        result
    }

    fn unpack(bits: u64) -> (r: Self) {
        proof {
            bits::lemma_mask_bounds(bits);
        }
        // Decode value from right-most 8 bits
        let value = (bits & 0xff) as u8;
        // Decode view from (reversed) sequence of 8-bit values
        let zero: u8 = 0;
        let mut view: [u8; N] = [zero; N];
        let mut i: usize = 0;
        while i < N
            invariant
                i <= N,
                view@.len() == N,
                forall|k: int| 0 <= k < i ==> #[trigger] view@[k] == byte_at(bits, k),
            decreases N - i,
        {
            if i < 7 {
                proof {
                    bits::lemma_mask_bounds(bits >> ((8 * (i + 1)) as u64));
                }
                view[i] = ((bits >> ((8 * (i + 1)) as u64)) & 0xff) as u8;
            } else {
                view[i] = 0;
            }
            i = i + 1;
        }
        // Decode sequence number from remaining left-most bits
        let sequence = if N < 7 {
            proof {
                bits::lemma_mask_bounds(bits >> ((8 * (N + 1)) as u64));
            }
            ((bits >> ((8 * (N + 1)) as u64)) & 0xffff) as u16
        } else {
            0
        };
        let r = Self { value, view, sequence };
        proof {
            assert(r.view@ =~= Seq::new(N as nat, |k: int| byte_at(bits, k)));
            assert(Self::unpacks_to(bits, r));
            let c = Self::unpacked(bits);
            assert(c.view@ =~= r.view@);
            assert(c.view == r.view);
        }
        r
    }

    proof fn lemma_unpack_pack(v: Self) {
        let p = pack_bytes(v.value, v.view@, N as nat);
        lemma_pack_bytes(v.value, v.view@, N as nat);
        let s = (8 * (N + 1)) as u64;
        let q = v.sequence as u64;
        let bits = v.packed();
        assert(bits == p | (q << s));
        bits::lemma_or_word(p, q, s);
        bits::lemma_or_keeps_byte(p, q, s, 0);
        bits::lemma_shift_zero(bits);
        bits::lemma_shift_zero(p);
        assert forall|k: int| 0 <= k < N implies byte_at(bits, k) == #[trigger] v.view@[k] by {
            bits::lemma_or_keeps_byte(p, q, s, (8 * (k + 1)) as u64);
        }
        assert(v.view@ =~= Seq::new(N as nat, |k: int| byte_at(bits, k)));
        assert(Self::unpacks_to(bits, v));
        let c = Self::unpacked(bits);
        assert(c.view@ =~= v.view@);
        assert(c.view == v.view);
    }
}

impl<const N: usize> From<UnboundedAtomicContents<N>> for u64 {
    /// Packs the contents into 64 bits.
    fn from(contents: UnboundedAtomicContents<N>) -> (r: u64) {
        contents.pack()
    }
}

impl<const N: usize> vstd::std_specs::convert::FromSpecImpl<UnboundedAtomicContents<N>> for u64 {
    open spec fn obeys_from_spec() -> bool {
        true
    }

    open spec fn from_spec(v: UnboundedAtomicContents<N>) -> u64 {
        v.packed()
    }
}

impl<const N: usize> From<u64> for UnboundedAtomicContents<N> {
    /// Unpacks contents from 64 bits.
    fn from(encoding: u64) -> (r: Self) {
        Self::unpack(encoding)
    }
}

impl<const N: usize> vstd::std_specs::convert::FromSpecImpl<u64> for UnboundedAtomicContents<N> {
    open spec fn obeys_from_spec() -> bool {
        true
    }

    open spec fn from_spec(v: u64) -> Self {
        Self::unpacked(v)
    }
}

} // verus!
