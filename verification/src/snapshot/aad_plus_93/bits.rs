//! Facts about packing small fields into 64 bits.
use vstd::prelude::*;

verus! {

/// A byte, shifted into place above bits that are clear, can be read back,
/// and leaves the bits below as they were.
pub proof fn lemma_or_byte(a: u64, v: u64, s: u64)
    requires
        v < 256,
        s <= 56,
        a >> s == 0,
    ensures
        (a | (v << s)) >> ((s + 8) as u64) == 0,
        ((a | (v << s)) >> s) & 0xff == v,
{
    assert((a | (v << s)) >> ((s + 8) as u64) == 0) by (bit_vector)
        requires
            v < 256,
            s <= 56,
            a >> s == 0,
    ;
    assert(((a | (v << s)) >> s) & 0xff == v) by (bit_vector)
        requires
            v < 256,
            s <= 56,
            a >> s == 0,
    ;
}

/// Or-ing in bits at `s` or above leaves the byte at `t` as it was, when
/// that byte lies below `s`.
pub proof fn lemma_or_keeps_byte(a: u64, v: u64, s: u64, t: u64)
    requires
        t + 8 <= s,
        s < 64,
    ensures
        ((a | (v << s)) >> t) & 0xff == (a >> t) & 0xff,
{
    assert(((a | (v << s)) >> t) & 0xff == (a >> t) & 0xff) by (bit_vector)
        requires
            t + 8 <= s,
            s < 64,
    ;
}

/// Or-ing in bits at `s` or above leaves the bit at `t` as it was, when
/// that bit lies below `s`.
pub proof fn lemma_or_keeps_bit(a: u64, v: u64, s: u64, t: u64)
    requires
        t < s,
        s < 64,
    ensures
        ((a | (v << s)) >> t) & 1 == (a >> t) & 1,
{
    assert(((a | (v << s)) >> t) & 1 == (a >> t) & 1) by (bit_vector)
        requires
            t < s,
            s < 64,
    ;
}

/// A sixteen-bit word, shifted into place above bits that are clear, can be
/// read back.
pub proof fn lemma_or_word(a: u64, q: u64, s: u64)
    requires
        q < 65536,
        s + 16 <= 64,
        a >> s == 0,
    ensures
        ((a | (q << s)) >> s) & 0xffff == q,
{
    assert(((a | (q << s)) >> s) & 0xffff == q) by (bit_vector)
        requires
            q < 65536,
            s + 16 <= 64,
            a >> s == 0,
    ;
}

/// A single bit, shifted into place above bits that are clear, can be read
/// back, and nothing lies above it.
pub proof fn lemma_or_bit(a: u64, v: u64, s: u64)
    requires
        v < 2,
        s < 63,
        a >> s == 0,
    ensures
        (a | (v << s)) >> ((s + 1) as u64) == 0,
        ((a | (v << s)) >> s) & 1 == v,
{
    assert((a | (v << s)) >> ((s + 1) as u64) == 0) by (bit_vector)
        requires
            v < 2,
            s < 63,
            a >> s == 0,
    ;
    assert(((a | (v << s)) >> s) & 1 == v) by (bit_vector)
        requires
            v < 2,
            s < 63,
            a >> s == 0,
    ;
}

/// A single bit, or-ed into the top position above bits that are clear, can
/// be read back.
pub proof fn lemma_or_top_bit(a: u64, v: u64)
    requires
        v < 2,
        a >> 63u64 == 0,
    ensures
        ((a | (v << 63u64)) >> 63u64) & 1 == v,
{
    assert(((a | (v << 63u64)) >> 63u64) & 1 == v) by (bit_vector)
        requires
            v < 2,
            a >> 63u64 == 0,
    ;
}

/// A byte occupies the low eight bits only.
pub proof fn lemma_byte(v: u64)
    requires
        v < 256,
    ensures
        v >> 8u64 == 0,
        (v >> 0u64) & 0xff == v,
{
    assert(v >> 8u64 == 0) by (bit_vector)
        requires
            v < 256,
    ;
    assert((v >> 0u64) & 0xff == v) by (bit_vector)
        requires
            v < 256,
    ;
}

/// Shifting by nothing changes nothing.
pub proof fn lemma_shift_zero(x: u64)
    ensures
        x >> 0u64 == x,
{
    assert(x >> 0u64 == x) by (bit_vector);
}

/// A masked byte or word fits its type.
pub proof fn lemma_mask_bounds(x: u64)
    ensures
        x & 0xff < 256,
        x & 0xffff < 65536,
        x & 1 < 2,
{
    assert(x & 0xff < 256) by (bit_vector);
    assert(x & 0xffff < 65536) by (bit_vector);
    assert(x & 1 < 2) by (bit_vector);
}

} // verus!
