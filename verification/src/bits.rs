//! Facts about the bits of a `u64` bitmap.
use vstd::prelude::*;

verus! {

/// Bit `i` of `x` is set.
pub open spec fn bit(x: u64, i: int) -> bool {
    0 <= i < 64 && (x >> (i as u64)) & 1u64 == 1u64
}

/// Some bit of the group of four bits starting at `g` is set.
pub open spec fn group_any(x: u64, g: int) -> bool {
    bit(x, g) || bit(x, g + 1) || bit(x, g + 2) || bit(x, g + 3)
}

/// Setting bit `p` changes only that bit.
pub proof fn lemma_bit_set(x: u64, p: u64, j: u64)
    requires
        p < 64,
        j < 64,
    ensures
        bit(x | (1u64 << p), j as int) == (bit(x, j as int) || j == p),
{
    assert((((x | (1u64 << p)) >> j) & 1u64 == 1u64) == (((x >> j) & 1u64 == 1u64) || j == p))
        by (bit_vector)
        requires
            p < 64,
            j < 64,
    ;
}

/// Clearing bit `p` changes only that bit.
pub proof fn lemma_bit_clear(x: u64, p: u64, j: u64)
    requires
        p < 64,
        j < 64,
    ensures
        bit(x & !(1u64 << p), j as int) == (bit(x, j as int) && j != p),
{
    assert((((x & !(1u64 << p)) >> j) & 1u64 == 1u64) == (((x >> j) & 1u64 == 1u64) && j != p))
        by (bit_vector)
        requires
            p < 64,
            j < 64,
    ;
}

/// `x & (1 << p)` is zero exactly when bit `p` is clear.
pub proof fn lemma_bit_mask(x: u64, p: u64)
    requires
        p < 64,
    ensures
        (x & (1u64 << p) == 0) == !bit(x, p as int),
{
    assert((x & (1u64 << p) == 0) == !((x >> p) & 1u64 == 1u64)) by (bit_vector)
        requires
            p < 64,
    ;
}

/// The complement flips every bit.
pub proof fn lemma_bit_not(x: u64, j: u64)
    requires
        j < 64,
    ensures
        bit(!x, j as int) == !bit(x, j as int),
{
    assert((((!x) >> j) & 1u64 == 1u64) == !((x >> j) & 1u64 == 1u64)) by (bit_vector)
        requires
            j < 64,
    ;
}

/// A bitmap with no bit set is zero.
pub proof fn lemma_no_bits_zero(x: u64)
    requires
        forall|j: int| 0 <= j < 64 ==> !#[trigger] bit(x, j),
    ensures
        x == 0,
{
    if x != 0 {
        vstd::std_specs::bits::axiom_u64_trailing_zeros(x);
        let t = vstd::std_specs::bits::u64_trailing_zeros(x);
        assert(bit(x, t as int));
    }
}

/// Zero has no bit set; all-ones has every bit set.
pub proof fn lemma_zero_and_full(j: u64)
    requires
        j < 64,
    ensures
        !bit(0u64, j as int),
        bit(0xffff_ffff_ffff_ffffu64, j as int),
{
    assert((0u64 >> j) & 1u64 == 0u64) by (bit_vector);
    assert((0xffff_ffff_ffff_ffffu64 >> j) & 1u64 == 1u64) by (bit_vector)
        requires
            j < 64,
    ;
}

} // verus!

verus! {

/// The lowest set bit of a nonzero `x` is at `x.trailing_zeros()`.
pub proof fn lemma_tz_low(x: u64)
    requires
        x != 0,
    ensures
        ({
            let t = x.trailing_zeros() as u64;
            &&& t < 64
            &&& (x >> t) & 1u64 == 1u64
            &&& x << ((64 - t) as u64) == 0
        }),
{
    vstd::std_specs::bits::axiom_u64_trailing_zeros(x);
}

} // verus!

verus! {

/// `(x - 1) & x` clears the lowest set bit `t` of `x` and nothing else, and
/// every bit below `t` is clear.
pub proof fn lemma_clear_lowest(x: u64, t: u64, j: u64)
    requires
        t < 64,
        j < 64,
        (x >> t) & 1u64 == 1u64,
        x << ((64 - t) as u64) == 0,
    ensures
        bit((((x - 1) as u64) & x), j as int) == (bit(x, j as int) && j != t),
        j < t ==> !bit(x, j as int),
        (((x - 1) as u64) & x) < x,
{
    assert(((((x - 1) as u64) & x) >> j) & 1u64 == (if j == t {
        0u64
    } else {
        (x >> j) & 1u64
    })) by (bit_vector)
        requires
            t < 64,
            j < 64,
            (x >> t) & 1u64 == 1u64,
            x << ((64 - t) as u64) == 0,
    ;
    assert(j < t ==> (x >> j) & 1u64 == 0u64) by (bit_vector)
        requires
            t < 64,
            j < 64,
            x << ((64 - t) as u64) == 0,
    ;
    assert((((x - 1) as u64) & x) < x) by (bit_vector)
        requires
            (x >> t) & 1u64 == 1u64,
    ;
}

} // verus!

verus! {

/// Folding each group of four bits onto its first bit.
pub proof fn lemma_groups4(x: u64, j: u64)
    requires
        j < 64,
    ensures
        ({
            let y1 = x | (x >> 1u64);
            let y2 = y1 | (y1 >> 2u64);
            let y = y2 & 0x1111_1111_1111_1111u64;
            bit(y, j as int) == (j % 4 == 0 && (bit(x, j as int) || bit(x, j + 1) || bit(x, j + 2)
                || bit(x, j + 3)))
        }),
{
    let y1 = x | (x >> 1u64);
    let y2 = y1 | (y1 >> 2u64);
    let y = y2 & 0x1111_1111_1111_1111u64;
    assert(((y >> j) & 1u64 == 1u64) == (j % 4 == 0 && ((x >> j) & 1u64 == 1u64 || (x >> ((j
        + 1) as u64)) & 1u64 == 1u64 || (x >> ((j + 2) as u64)) & 1u64 == 1u64 || (x >> ((j
        + 3) as u64)) & 1u64 == 1u64))) by (bit_vector)
        requires
            j < 64,
            y1 == x | (x >> 1u64),
            y2 == y1 | (y1 >> 2u64),
            y == y2 & 0x1111_1111_1111_1111u64,
    ;
}

} // verus!
