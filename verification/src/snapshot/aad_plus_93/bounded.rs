//! The snapshot of Section 4 of AAD+93, with bounded handshake bits.
use crate::register::{AtomicRegister, MutexRegister, Packable, Register};
use crate::snapshot::aad_plus_93::{bits, moved_count};
use crate::snapshot::aad_plus_93::unbounded::{byte_at, lemma_pack_bytes, pack_bytes};
use crate::snapshot::{ProcessId, Snapshot};
use vstd::prelude::*;

verus! {

/// A wait-free `N`-process atomic snapshot object, backed by 64-bit
/// registers; at most six components of `u8` values fit.
pub type BoundedAtomicSnapshot<const N: usize> = BoundedSnapshot<
    AtomicRegister<BoundedAtomicContents<N>>,
    N,
>;

/// An `N`-process atomic snapshot object, backed by registers that hold
/// their contents as they are.
pub type BoundedMutexSnapshot<T, const N: usize> = BoundedSnapshot<
    MutexRegister<BoundedContents<T, N>>,
    N,
>;

/// The contents of a component of the snapshot object.
pub trait Contents<const N: usize>: Sized + Copy + Default {
    type Value: Copy + Default;

    /// The value stored in this component.
    spec fn value_of(&self) -> Self::Value;

    /// The view stored in this component.
    spec fn view_of(&self) -> Seq<Self::Value>;

    /// The handshake bits stored in this component.
    spec fn handshakes_of(&self) -> Seq<bool>;

    /// The toggle bit stored in this component.
    spec fn toggle_of(&self) -> bool;

    /// Creates a new component.
    fn new(value: Self::Value, view: [Self::Value; N], handshakes: [bool; N], toggle: bool) -> (r:
        Self)
        ensures
            r.value_of() == value,
            r.view_of() == view@,
            r.handshakes_of() == handshakes@,
            r.toggle_of() == toggle,
    ;

    /// Returns the value stored in this component.
    fn value(&self) -> (r: Self::Value)
        ensures
            r == self.value_of(),
    ;

    /// Returns the view stored in this component.
    fn view(&self) -> (r: [Self::Value; N])
        ensures
            r@ == self.view_of(),
    ;

    /// Returns handshake bit `i`.
    fn handshake(&self, i: usize) -> (r: bool)
        requires
            i < N,
        ensures
            r == self.handshakes_of()[i as int],
    ;

    /// Returns the toggle bit.
    fn toggle(&self) -> (r: bool)
        ensures
            r == self.toggle_of(),
    ;
}

/// A wait-free `N`-process snapshot object, backed by registers of type `R`.
///
/// Instead of sequence numbers, processes exchange handshake bits: process
/// `i` records in `shared_handshakes[i][j]` the bit it last saw from process
/// `j`, and process `j` flips its bit for `i` when it updates.
pub struct BoundedSnapshot<R: Register, const N: usize> where R::Value: Contents<N> {
    registers: Vec<R>,
    shared_handshakes: Vec<Vec<bool>>,
}

/// The values of a sequence of components.
pub open spec fn values_of<C: Contents<N>, const N: usize>(cs: Seq<C>) -> Seq<C::Value> {
    Seq::new(cs.len(), |k: int| cs[k].value_of())
}

fn values_array<C: Contents<N>, const N: usize>(cs: &Vec<C>) -> (r: [C::Value; N])
    requires
        cs@.len() == N,
    ensures
        r@ == values_of(cs@),
{
    let mut r: [C::Value; N] = [C::Value::default(); N];
    let mut k: usize = 0;
    while k < N
        invariant
            cs@.len() == N,
            k <= N,
            r@.len() == N,
            forall|j: int| 0 <= j < k ==> r@[j] == (#[trigger] cs@[j]).value_of(),
        decreases N - k,
    {
        r[k] = cs[k].value();
        k = k + 1;
    }
    assert(r@ =~= values_of(cs@));
    r
}

impl<R: Register, const N: usize> BoundedSnapshot<R, N> where R::Value: Contents<N> {
    /// The contents of each register.
    pub closed spec fn contents(&self) -> Seq<R::Value> {
        Seq::new(self.registers@.len(), |k: int| self.registers@[k].contents())
    }

    /// The handshake bit that process `i` last saw from process `j`.
    pub closed spec fn seen(&self, i: int, j: int) -> bool {
        self.shared_handshakes@[i]@[j]
    }

    closed spec fn shape(&self) -> bool {
        &&& self.registers@.len() == N
        &&& self.shared_handshakes@.len() == N
        &&& forall|k: int| 0 <= k < N ==> (#[trigger] self.shared_handshakes@[k])@.len() == N
    }

    fn collect(&self) -> (r: Vec<R::Value>)
        requires
            self.registers@.len() == N,
        ensures
            r@ == self.contents(),
    {
        let mut r: Vec<R::Value> = Vec::new();
        let mut k: usize = 0;
        while k < N
            invariant
                self.registers@.len() == N,
                k <= N,
                r@.len() == k,
                forall|j: int| 0 <= j < k ==> r@[j] == (#[trigger] self.registers@[j]).contents(),
            decreases N - k,
        {
            r.push(self.registers[k].read());
            k = k + 1;
        }
        assert(r@ =~= self.contents());
        r
    }

    /// Returns whether process _i_ has seen process _j_ move while
    /// performing a double collect.
    ///
    /// A process _moves_ by changing their handshake bits when performing an
    /// update operation.
    fn has_moved(&self, first: &Vec<R::Value>, second: &Vec<R::Value>, i: usize, j: usize) -> (r:
        bool)
        requires
            self.shape(),
            i < N,
            j < N,
            first@.len() == N,
            second@.len() == N,
        ensures
            r == (first@[j as int].handshakes_of()[i as int] != self.seen(i as int, j as int)
                || second@[j as int].handshakes_of()[i as int] != self.seen(i as int, j as int)
                || first@[j as int].toggle_of() != second@[j as int].toggle_of()),
    {
        let first_changed = first[j].handshake(i) != self.shared_handshakes[i][j];
        let second_changed = second[j].handshake(i) != self.shared_handshakes[i][j];
        let toggle_changed = first[j].toggle() != second[j].toggle();
        first_changed || second_changed || toggle_changed
    }
}

impl<R: Register, const N: usize> Snapshot<N> for BoundedSnapshot<R, N> where
    R::Value: Contents<N>,
 {
    type Value = <R::Value as Contents<N>>::Value;

    closed spec fn components(&self) -> Seq<Self::Value> {
        values_of(self.contents())
    }

    closed spec fn inv(&self) -> bool {
        self.shape()
    }

    /// A new component holds the value of the contents of a new register.
    open spec fn initial_value(value: Self::Value) -> bool {
        exists|c: R::Value| R::initial(c) && c.value_of() == value
    }

    /// The registers must hold any contents exactly: contents packed into
    /// 64 bits fit only for a few components.
    open spec fn can_create() -> bool {
        forall|c: R::Value| R::holds(c)
    }

    /// A scan returns the value of each component.
    open spec fn scans_to(&self, r: Seq<Self::Value>) -> bool {
        r == self.components()
    }

    /// The scanning process records handshake bits under its id.
    open spec fn can_scan(&self, i: ProcessId) -> bool {
        i < N
    }

    /// The registers hold any contents exactly.
    open spec fn can_update(&self, i: ProcessId) -> bool {
        forall|c: R::Value| R::holds(c)
    }

    fn new() -> (s: Self) {
        let mut registers: Vec<R> = Vec::new();
        let mut shared_handshakes: Vec<Vec<bool>> = Vec::new();
        let mut k: usize = 0;
        while k < N
            invariant
                k <= N,
                registers@.len() == k,
                shared_handshakes@.len() == k,
                forall|j: int| 0 <= j < k ==> R::initial((#[trigger] registers@[j]).contents()),
                forall|j: int| 0 <= j < k ==> (#[trigger] shared_handshakes@[j])@.len() == N,
            decreases N - k,
        {
            registers.push(R::new());
            let mut row: Vec<bool> = Vec::new();
            while row.len() < N
                invariant
                    row@.len() <= N,
                decreases N - row@.len(),
            {
                row.push(false);
            }
            shared_handshakes.push(row);
            k = k + 1;
        }
        let s = Self { registers, shared_handshakes };
        assert forall|k: int| 0 <= k < N implies Self::initial_value(
            #[trigger] s.components()[k],
        ) by {
            let c = s.registers@[k].contents();
            assert(R::initial(c) && c.value_of() == s.components()[k]);
        }
        s
    }

    /// A scan changes no register, only the handshake bits that process `i`
    /// has seen.
    fn scan(&mut self, i: ProcessId) -> (r: [Self::Value; N])
        ensures
            final(self).contents() == old(self).contents(),
            forall|j: int, k: int|
                0 <= j < N && j != i && 0 <= k < N ==> #[trigger] final(self).seen(j, k) == old(
                    self,
                ).seen(j, k),
    {
        let mut moved: Vec<u8> = Vec::new();
        while moved.len() < N
            invariant
                moved@.len() <= N,
                forall|k: int| 0 <= k < moved@.len() ==> #[trigger] moved@[k] == 0,
            decreases N - moved@.len(),
        {
            moved.push(0);
        }
        loop
            invariant
                self.shape(),
                i < N,
                self.registers@ == old(self).registers@,
                forall|j: int|
                    0 <= j < N && j != i ==> #[trigger] self.shared_handshakes@[j] == old(
                        self,
                    ).shared_handshakes@[j],
                moved@.len() == N,
                forall|k: int| 0 <= k < N ==> #[trigger] moved@[k] <= 1,
            decreases N - moved_count(moved@),
        {
            // Collect handshake bits for all other processes
            let mut j: usize = 0;
            while j < N
                invariant
                    self.shape(),
                    i < N,
                    j <= N,
                    self.registers@ == old(self).registers@,
                    forall|l: int|
                        0 <= l < N && l != i ==> #[trigger] self.shared_handshakes@[l] == old(
                            self,
                        ).shared_handshakes@[l],
                    forall|k: int|
                        0 <= k < j ==> self.seen(i as int, k) == (
                        #[trigger] self.contents()[k]).handshakes_of()[i as int],
                decreases N - j,
            {
                let bit = self.registers[j].read().handshake(i);
                let ghost before = self.shared_handshakes@;
                let ghost contents = self.contents();
                let mut row = self.shared_handshakes[i].clone();
                row.set(j, bit);
                self.shared_handshakes.set(i, row);
                proof {
                    assert forall|k: int| 0 <= k < N implies (
                    #[trigger] self.shared_handshakes@[k])@.len() == N by {
                        if k != i {
                            assert(self.shared_handshakes@[k] == before[k]);
                        }
                    }
                    assert(self.contents() =~= contents);
                    assert(self.seen(i as int, j as int) == bit);
                    assert(bit == self.contents()[j as int].handshakes_of()[i as int]);
                    assert forall|k: int| 0 <= k <= j implies self.seen(i as int, k) == (
                    #[trigger] self.contents()[k]).handshakes_of()[i as int] by {
                        if k < j {
                            assert(before[i as int]@[k] == self.shared_handshakes@[i as int]@[k]);
                        } else {
                            assert(self.seen(i as int, k) == bit);
                        }
                    }
                }
                j = j + 1;
            }
            let first = self.collect();
            let second = self.collect();
            // If all handshake and toggle bits are equal then no process has
            // moved, and hence no process has performed an update during the
            // double collect.
            let mut none_moved = true;
            let mut j: usize = 0;
            while j < N
                invariant
                    self.shape(),
                    i < N,
                    j <= N,
                    first@ == self.contents(),
                    second@ == self.contents(),
                    forall|k: int|
                        0 <= k < N ==> self.seen(i as int, k) == (
                        #[trigger] self.contents()[k]).handshakes_of()[i as int],
                    none_moved,
                decreases N - j,
            {
                if self.has_moved(&first, &second, i, j) {
                    none_moved = false;
                }
                j = j + 1;
            }
            if none_moved {
                return values_array(&second);
            }
            let mut j: usize = 0;
            while j < N
                invariant
                    self.shape(),
                    i < N,
                    j <= N,
                    self.registers@ == old(self).registers@,
                    first@ == self.contents(),
                    second@ == self.contents(),
                    forall|k: int|
                        0 <= k < N ==> self.seen(i as int, k) == (
                        #[trigger] self.contents()[k]).handshakes_of()[i as int],
                    moved@.len() == N,
                    forall|k: int| 0 <= k < N ==> #[trigger] moved@[k] <= 1,
                decreases N - j,
            {
                if self.has_moved(&first, &second, i, j) {
                    if moved[j] == 1 {
                        // If process j is observed to have moved twice, then
                        // it must have performed a successful update. The
                        // result of the scan that it performed during that
                        // operation can be borrowed and returned here.
                        return second[j].view();
                    } else {
                        moved.set(j, moved[j] + 1);
                    }
                }
                j = j + 1;
            }
        }
    }

    /// Register `i` gets the new value, the values that a scan returned, the
    /// negated handshake bits that the other processes have seen from `i`,
    /// and a flipped toggle bit; the other registers keep their contents.
    fn update(&mut self, i: ProcessId, value: Self::Value)
        ensures
            final(self).contents()[i as int].value_of() == value,
            final(self).contents()[i as int].view_of() == old(self).components(),
            final(self).contents()[i as int].toggle_of() == !old(self).contents()[i as int].toggle_of(),
            forall|j: int|
                0 <= j < N ==> #[trigger] final(self).contents()[i as int].handshakes_of()[j]
                    == !final(self).seen(j, i as int),
            forall|k: int|
                0 <= k < N && k != i ==> #[trigger] final(self).contents()[k] == old(
                    self,
                ).contents()[k],
    {
        // Update the contents of the ith register with the new value, the
        // result of a scan, and negated handshake and toggle bits.
        let view = self.scan(i);
        let toggle = !self.registers[i].read().toggle();
        let mut handshakes: [bool; N] = [false; N];
        let mut j: usize = 0;
        while j < N
            invariant
                self.shape(),
                i < N,
                j <= N,
                forall|k: int| 0 <= k < j ==> #[trigger] handshakes@[k] == !self.seen(k, i as int),
            decreases N - j,
        {
            handshakes[j] = !self.shared_handshakes[j][i];
            j = j + 1;
        }
        let contents = <R::Value as Contents<N>>::new(value, view, handshakes, toggle);
        let ghost before = self.contents();
        let ghost hs = self.shared_handshakes@;
        self.registers[i].write(contents);
        proof {
            assert(self.contents() =~= before.update(i as int, contents));
            assert(self.components() =~= old(self).components().update(i as int, value));
            assert(self.shared_handshakes@ == hs);
        }
    }
}

/// The contents of a component, holding values of any type.
#[derive(Clone, Copy, Debug, PartialEq, Eq)]
pub struct BoundedContents<T: Copy + Default, const N: usize> {
    pub value: T,
    pub view: [T; N],
    pub handshakes: [bool; N],
    pub toggle: bool,
}

impl<T: Copy + Default, const N: usize> Default for BoundedContents<T, N> {
    fn default() -> (r: Self)
        ensures
            call_ensures(T::default, (), r.value),
            forall|k: int| 0 <= k < N ==> call_ensures(T::default, (), #[trigger] r.view@[k]),
            forall|k: int| 0 <= k < N ==> !#[trigger] r.handshakes@[k],
            !r.toggle,
    {
        Self { value: T::default(), view: [T::default(); N], handshakes: [false; N], toggle: false }
    }
}

impl<T: Copy + Default, const N: usize> Contents<N> for BoundedContents<T, N> {
    type Value = T;

    open spec fn value_of(&self) -> T {
        self.value
    }

    open spec fn view_of(&self) -> Seq<T> {
        self.view@
    }

    open spec fn handshakes_of(&self) -> Seq<bool> {
        self.handshakes@
    }

    open spec fn toggle_of(&self) -> bool {
        self.toggle
    }

    fn new(value: T, view: [T; N], handshakes: [bool; N], toggle: bool) -> (r: Self) {
        Self { value, view, handshakes, toggle }
    }

    fn value(&self) -> (r: T) {
        self.value
    }

    fn view(&self) -> (r: [T; N]) {
        self.view
    }

    fn handshake(&self, i: usize) -> (r: bool) {
        self.handshakes[i]
    }

    fn toggle(&self) -> (r: bool) {
        self.toggle
    }
}

/// The contents of a component, packed into 64 bits: eight bits for the
/// value, eight for each value of the view, one for each handshake, and the
/// top bit for the toggle. At most six components fit.
#[derive(Clone, Copy, Debug, PartialEq, Eq)]
pub struct BoundedAtomicContents<const N: usize> {
    pub value: u8,
    pub view: [u8; N],
    pub handshakes: [bool; N],
    pub toggle: bool,
}

impl<const N: usize> Default for BoundedAtomicContents<N> {
    fn default() -> (r: Self)
        ensures
            r.value == 0,
            forall|k: int| 0 <= k < N ==> #[trigger] r.view@[k] == 0,
            forall|k: int| 0 <= k < N ==> !#[trigger] r.handshakes@[k],
            !r.toggle,
    {
        Self { value: 0, view: [0; N], handshakes: [false; N], toggle: false }
    }
}

impl<const N: usize> Contents<N> for BoundedAtomicContents<N> {
    type Value = u8;

    open spec fn value_of(&self) -> u8 {
        self.value
    }

    open spec fn view_of(&self) -> Seq<u8> {
        self.view@
    }

    open spec fn handshakes_of(&self) -> Seq<bool> {
        self.handshakes@
    }

    open spec fn toggle_of(&self) -> bool {
        self.toggle
    }

    fn new(value: u8, view: [u8; N], handshakes: [bool; N], toggle: bool) -> (r: Self) {
        Self { value, view, handshakes, toggle }
    }

    fn value(&self) -> (r: u8) {
        self.value
    }

    fn view(&self) -> (r: [u8; N]) {
        self.view
    }

    fn handshake(&self, i: usize) -> (r: bool) {
        self.handshakes[i]
    }

    fn toggle(&self) -> (r: bool) {
        self.toggle
    }
}

/// The bits after or-ing the first `k` handshake bits into `base`, bit `j`
/// at position `start + j`.
pub open spec fn pack_bits(base: u64, handshakes: Seq<bool>, start: nat, k: nat) -> u64
    decreases k,
{
    if k == 0 {
        base
    } else if start + k - 1 < 64 {
        pack_bits(base, handshakes, start, (k - 1) as nat) | ((if handshakes[k - 1] {
            1u64
        } else {
            0u64
        }) << ((start + k - 1) as u64))
    } else {
        pack_bits(base, handshakes, start, (k - 1) as nat)
    }
}

/// The handshake bit that bit `start + k` unpacks into.
pub open spec fn bit_at(bits: u64, pos: int) -> bool {
    if pos < 64 {
        (bits >> (pos as u64)) & 1 == 1
    } else {
        false
    }
}

proof fn lemma_pack_bits(base: u64, handshakes: Seq<bool>, start: nat, k: nat)
    requires
        start + k <= 62,
        k <= handshakes.len(),
        base >> (start as u64) == 0,
    ensures
        pack_bits(base, handshakes, start, k) >> ((start + k) as u64) == 0,
        forall|j: int|
            0 <= j < k ==> bit_at(pack_bits(base, handshakes, start, k), start + j)
                == #[trigger] handshakes[j],
        forall|t: u64|
            t + 8 <= start ==> (#[trigger] (pack_bits(base, handshakes, start, k) >> t)) & 0xff == (
            base >> t) & 0xff,
    decreases k,
{
    if k > 0 {
        let a = pack_bits(base, handshakes, start, (k - 1) as nat);
        let v: u64 = if handshakes[k - 1] {
            1
        } else {
            0
        };
        let s = (start + k - 1) as u64;
        lemma_pack_bits(base, handshakes, start, (k - 1) as nat);
        bits::lemma_or_bit(a, v, s);
        assert forall|j: int| 0 <= j < k implies bit_at(
            pack_bits(base, handshakes, start, k),
            start + j,
        ) == #[trigger] handshakes[j] by {
            if j < k - 1 {
                bits::lemma_or_keeps_bit(a, v, s, (start + j) as u64);
            }
        }
        assert forall|t: u64| t + 8 <= start implies (#[trigger] (pack_bits(
            base,
            handshakes,
            start,
            k,
        ) >> t)) & 0xff == (base >> t) & 0xff by {
            bits::lemma_or_keeps_byte(a, v, s, t);
        }
    }
}

impl<const N: usize> BoundedAtomicContents<N> {
    /// Whether `c` is what 64 bits unpack into.
    pub open spec fn unpacks_to(bits: u64, c: Self) -> bool {
        &&& c.value == (bits & 0xff) as u8
        &&& c.view@ == Seq::new(N as nat, |k: int| byte_at(bits, k))
        &&& c.handshakes@ == Seq::new(N as nat, |k: int| bit_at(bits, 8 * (N + 1) + k))
        &&& c.toggle == ((bits >> 63u64) & 1 == 1)
    }
}

impl<const N: usize> Packable for BoundedAtomicContents<N> {
    /// The contents of at most six components fit into 64 bits.
    open spec fn fits(&self) -> bool {
        N <= 6
    }

    open spec fn packed(&self) -> u64 {
        let p = pack_bytes(self.value, self.view@, N as nat);
        let q = pack_bits(p, self.handshakes@, (8 * (N + 1)) as nat, N as nat);
        q | ((if self.toggle {
            1u64
        } else {
            0u64
        }) << 63u64)
    }

    open spec fn unpacked(bits: u64) -> Self {
        choose|c: Self| Self::unpacks_to(bits, c)
    }

    fn pack(&self) -> (r: u64) {
        // Encode value as right-most 8 bits
        let mut result: u64 = self.value as u64;
        // Encode view as (reversed) sequence of 8-bit values
        let mut i: usize = 0;
        while i < N
            invariant
                i <= N,
                result == pack_bytes(self.value, self.view@, i as nat),
            decreases N - i,
        {
            if i < 7 {
                result = result | ((self.view[i] as u64) << ((8 * (i + 1)) as u64));
            }
            i = i + 1;
        }
        // Encode handshakes as (reversed) sequence of N bits
        let ghost p = result;
        let mut i: usize = 0;
        while i < N
            invariant
                i <= N,
                result == pack_bits(p, self.handshakes@, (8 * (N + 1)) as nat, i as nat),
            decreases N - i,
        {
            if N < 8 && 8 * (N + 1) + i < 64 {
                let bit: u64 = if self.handshakes[i] {
                    1
                } else {
                    0
                };
                result = result | (bit << ((8 * (N + 1) + i) as u64));
            }
            i = i + 1;
        }
        // Encode toggle as left-most bit.
        let toggle: u64 = if self.toggle {
            1
        } else {
            0
        };
        result | (toggle << 63u64)
    }

    fn unpack(bits: u64) -> (r: Self) {
        proof {
            bits::lemma_mask_bounds(bits);
        }
        // Decode value from right-most 8 bits
        let value = (bits & 0xff) as u8;
        // Decode view from (reversed) sequence of 8-bit values
        let zero: u8 = 0;
        let mut view: [u8; N] = [zero; N];
        let mut i: usize = 0;
        while i < N
            invariant
                i <= N,
                view@.len() == N,
                forall|k: int| 0 <= k < i ==> #[trigger] view@[k] == byte_at(bits, k),
            decreases N - i,
        {
            if i < 7 {
                proof {
                    bits::lemma_mask_bounds(bits >> ((8 * (i + 1)) as u64));
                }
                view[i] = ((bits >> ((8 * (i + 1)) as u64)) & 0xff) as u8;
            } else {
                view[i] = 0;
            }
            i = i + 1;
        }
        // Decode handshakes from (reversed) sequence of N bits
        let mut handshakes: [bool; N] = [false; N];
        let mut i: usize = 0;
        while i < N
            invariant
                i <= N,
                handshakes@.len() == N,
                forall|k: int|
                    0 <= k < i ==> #[trigger] handshakes@[k] == bit_at(bits, 8 * (N + 1) + k),
            decreases N - i,
        {
            if N < 8 && 8 * (N + 1) + i < 64 {
                handshakes[i] = (bits >> ((8 * (N + 1) + i) as u64)) & 1 == 1;
            } else {
                handshakes[i] = false;
            }
            i = i + 1;
        }
        // Decode toggle from left-most bit.
        let toggle = (bits >> 63u64) & 1 == 1;
        let r = Self { value, view, handshakes, toggle };
        proof {
            assert(r.view@ =~= Seq::new(N as nat, |k: int| byte_at(bits, k)));
            assert(r.handshakes@ =~= Seq::new(N as nat, |k: int| bit_at(bits, 8 * (N + 1) + k)));
            assert(Self::unpacks_to(bits, r));
            let c = Self::unpacked(bits);
            assert(c.view@ =~= r.view@);
            assert(c.view == r.view);
            assert(c.handshakes@ =~= r.handshakes@);
            assert(c.handshakes == r.handshakes);
        }
        r
    }

    proof fn lemma_unpack_pack(v: Self) {
        let start = (8 * (N + 1)) as nat;
        let p = pack_bytes(v.value, v.view@, N as nat);
        lemma_pack_bytes(v.value, v.view@, N as nat);
        let q = pack_bits(p, v.handshakes@, start, N as nat);
        lemma_pack_bits(p, v.handshakes@, start, N as nat);
        let t: u64 = if v.toggle {
            1
        } else {
            0
        };
        let bits = v.packed();
        assert(bits == q | (t << 63u64));
        let width = (start + N) as u64;
        assert(q >> 63u64 == 0) by (bit_vector)
            requires
                q >> width == 0,
                width <= 62,
        ;
        bits::lemma_or_top_bit(q, t);
        bits::lemma_or_keeps_byte(q, t, 63, 0);
        bits::lemma_shift_zero(bits);
        bits::lemma_shift_zero(p);
        bits::lemma_shift_zero(q);
        assert((q >> 0u64) & 0xff == (p >> 0u64) & 0xff);
        assert forall|k: int| 0 <= k < N implies byte_at(bits, k) == #[trigger] v.view@[k] by {
            let at = (8 * (k + 1)) as u64;
            bits::lemma_or_keeps_byte(q, t, 63, at);
            assert((q >> at) & 0xff == (p >> at) & 0xff);
        }
        assert forall|k: int| 0 <= k < N implies bit_at(bits, start + k) == #[trigger] v.handshakes@[
            k] by {
            bits::lemma_or_keeps_bit(q, t, 63, (start + k) as u64);
        }
        assert(v.view@ =~= Seq::new(N as nat, |k: int| byte_at(bits, k)));
        assert(v.handshakes@ =~= Seq::new(N as nat, |k: int| bit_at(bits, 8 * (N + 1) + k)));
        assert(Self::unpacks_to(bits, v));
        let c = Self::unpacked(bits);
        assert(c.view@ =~= v.view@);
        assert(c.view == v.view);
        assert(c.handshakes@ =~= v.handshakes@);
        assert(c.handshakes == v.handshakes);
    }
}

impl<const N: usize> From<BoundedAtomicContents<N>> for u64 {
    /// Packs the contents into 64 bits.
    fn from(contents: BoundedAtomicContents<N>) -> (r: u64) {
        contents.pack()
    }
}

impl<const N: usize> vstd::std_specs::convert::FromSpecImpl<BoundedAtomicContents<N>> for u64 {
    open spec fn obeys_from_spec() -> bool {
        true
    }

    open spec fn from_spec(v: BoundedAtomicContents<N>) -> u64 {
        v.packed()
    }
}

impl<const N: usize> From<u64> for BoundedAtomicContents<N> {
    /// Unpacks contents from 64 bits.
    fn from(encoding: u64) -> (r: Self) {
        Self::unpack(encoding)
    }
}

impl<const N: usize> vstd::std_specs::convert::FromSpecImpl<u64> for BoundedAtomicContents<N> {
    open spec fn obeys_from_spec() -> bool {
        true
    }

    open spec fn from_spec(v: u64) -> Self {
        Self::unpacked(v)
    }
}

} // verus!
