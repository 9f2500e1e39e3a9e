//! The model of a word as eight byte lanes, and the facts the SWAR
//! combinators rest on.
use vstd::prelude::*;
use crate::model::{bit_of, count_below, group_bits, lemma_count_below_none_above};

verus! {

broadcast use group_bits;

/// Lane `j` of `x`: bits `8j .. 8j + 8`.
pub open spec fn lane(x: u64, j: int) -> u64 {
    (x >> ((8 * j) as u64)) & 0xff
}

/// Number of lanes `j < m` of `x` equal to `b`.
pub open spec fn lanes_equal(x: u64, b: u64, m: int) -> nat
    decreases m,
{
    if m <= 0 {
        0
    } else {
        lanes_equal(x, b, m - 1) + if lane(x, m - 1) == b {
            1nat
        } else {
            0nat
        }
    }
}

/// Sum of lanes `0..m` of `x`.
pub open spec fn lane_sum(x: u64, m: int) -> nat
    decreases m,
{
    if m <= 0 {
        0
    } else {
        lane_sum(x, m - 1) + lane(x, m - 1) as nat
    }
}

/// The SWAR zero test: the high bit of every lane whose byte is zero.
pub open spec fn zero_bytes_of(x: u64) -> u64 {
    !(((((x & 0x7f7f_7f7f_7f7f_7f7f) + 0x7f7f_7f7f_7f7f_7f7f) as u64) | x) | 0x7f7f_7f7f_7f7f_7f7f)
}

/// The SWAR `>= n` test: the high bit of every lane whose byte is `>= n`.
pub open spec fn bytes_ge_of(x: u64, n: u64) -> u64 {
    ((((x & 0x7f7f_7f7f_7f7f_7f7f) + ((0x80 - n) * 0x0101_0101_0101_0101)) as u64) | x)
        & 0x8080_8080_8080_8080
}

proof fn lemma_swar_raw(x: u64, b: u64, n: u64, j: u64, t: u64)
    by (bit_vector)
    requires
        j < 8,
        t < 8,
        b < 256,
        1 <= n <= 128,
    ensures
        (x & 0x7f7f_7f7f_7f7f_7f7f) + 0x7f7f_7f7f_7f7f_7f7f <= 0xffff_ffff_ffff_ffff,
        (x & 0x7f7f_7f7f_7f7f_7f7f) + ((0x80 - n) * 0x0101_0101_0101_0101) <= 0xffff_ffff_ffff_ffff,
        (zero_bytes_of(x) >> (8 * j + t)) & 1 == 1 <==> (t == 7 && (x >> (8 * j)) & 0xff == 0),
        (bytes_ge_of(x, n) >> (8 * j + t)) & 1 == 1 <==> (t == 7 && (x >> (8 * j)) & 0xff >= n),
        ((x ^ ((b * 0x0101_0101_0101_0101) as u64)) >> (8 * j)) & 0xff == 0 <==> (x >> (8 * j)) & 0xff
            == b,
        ((0x8080_8080_8080_8080u64 >> (8 * j + t)) & 1 == 1) <==> t == 7,
        (((b * 0x0101_0101_0101_0101) as u64) >> (8 * j)) & 0xff == b,
{
}

/// Lane-wise meaning of the SWAR tests, at bit `i` of lane `i / 8`.
pub proof fn lemma_swar(x: u64, b: u64, n: u64, i: int)
    requires
        0 <= i < 64,
        b < 256,
        1 <= n <= 128,
    ensures
        (x & 0x7f7f_7f7f_7f7f_7f7f) + 0x7f7f_7f7f_7f7f_7f7f <= 0xffff_ffff_ffff_ffff,
        (x & 0x7f7f_7f7f_7f7f_7f7f) + ((0x80 - n) * 0x0101_0101_0101_0101) <= 0xffff_ffff_ffff_ffff,
        bit_of(zero_bytes_of(x), i) == (i % 8 == 7 && lane(x, i / 8) == 0),
        bit_of(bytes_ge_of(x, n), i) == (i % 8 == 7 && lane(x, i / 8) >= n),
        lane(x ^ (b * 0x0101_0101_0101_0101) as u64, i / 8) == 0 <==> lane(x, i / 8) == b,
        bit_of(0x8080_8080_8080_8080u64, i) == (i % 8 == 7),
        lane((b * 0x0101_0101_0101_0101) as u64, i / 8) == b,
{
    let j = (i / 8) as u64;
    let t = (i % 8) as u64;
    assert(8 * j + t == i);
    lemma_swar_raw(x, b, n, j, t);
}

/// The count of a word whose bits sit only at the lane tops counts the
/// lanes with their top bit set.
pub proof fn lemma_count_lane_tops(r: u64, x: u64, b: u64, m: int)
    requires
        0 <= m <= 8,
        forall|i: int| 0 <= i < 64 ==> #[trigger] bit_of(r, i) == (i % 8 == 7 && lane(x, i / 8) == b),
    ensures
        count_below(r, 8 * m) == lanes_equal(x, b, m),
    decreases m,
{
    if m > 0 {
        lemma_count_lane_tops(r, x, b, m - 1);
        let base = 8 * (m - 1);
        assert forall|i: int| base <= i < base + 7 implies !#[trigger] bit_of(r, i) by {
            assert(i / 8 == m - 1);
        }
        lemma_count_below_none_above(r, base, base + 7);
        assert((base + 7) / 8 == m - 1);
        assert(count_below(r, base + 8) == count_below(r, base + 7) + if bit_of(r, base + 7) {
            1nat
        } else {
            0nat
        });
    }
}

} // verus!

verus! {

/// The eight lanes, summed.
pub open spec fn lane_sum8(x: u64) -> int {
    lane(x, 0) + lane(x, 1) + lane(x, 2) + lane(x, 3) + lane(x, 4) + lane(x, 5) + lane(x, 6)
        + lane(x, 7)
}

proof fn lemma_sum_bytes_raw(x: u64)
    by (bit_vector)
    ensures
        lane_sum8(x) < 256 ==> ((x * 0x0101_0101_0101_0101) as u64 >> 56) & 0xff == lane_sum8(x),
        (x * 0x0101_0101_0101_0101) as u64 == ((x * 0x0101_0101_0101_0101) % 0x1_0000_0000_0000_0000) as u64,
{
}

} // verus!

verus! {

/// The top byte of the product by `0x0101…01` is the lane sum, when that
/// sum fits a byte.
pub proof fn lemma_sum_bytes(x: u64)
    ensures
        lane_sum(x, 8) == lane_sum8(x),
        lane_sum(x, 8) < 256 ==> ((((x as int * 0x0101_0101_0101_0101) % 0x1_0000_0000_0000_0000) as u64)
            >> 56u64) & 0xff == lane_sum(x, 8),
{
    reveal_with_fuel(lane_sum, 9);
    lemma_sum_bytes_raw(x);
}

} // verus!

verus! {

/// Bit `k` of a truth table.
pub open spec fn table_bit(t: u8, k: int) -> bool {
    0 <= k < 8 && (t >> (k as u8)) & 1 == 1
}

/// A word read as a signed two's-complement integer.
pub open spec fn signed(x: u64) -> int {
    if x < 0x8000_0000_0000_0000 {
        x as int
    } else {
        x as int - 0x1_0000_0000_0000_0000
    }
}

/// Whether `v` lies outside the range of a signed 64-bit integer.
pub open spec fn signed_out_of_range(v: int) -> bool {
    v < -0x8000_0000_0000_0000 || v >= 0x8000_0000_0000_0000
}

proof fn lemma_table_raw(t: u8, k: u8)
    by (bit_vector)
    requires
        k < 4,
    ensures
        ((t >> 4u8) >> k) & 1 == (t >> (k + 4) as u8) & 1,
        k < 2 ==> ((t >> 2u8) >> k) & 1 == (t >> (k + 2) as u8) & 1,
        t & 3 == 0 ==> (t >> 0u8) & 1 == 0 && (t >> 1u8) & 1 == 0,
        t & 3 == 1 ==> (t >> 0u8) & 1 == 1 && (t >> 1u8) & 1 == 0,
        t & 3 == 2 ==> (t >> 0u8) & 1 == 0 && (t >> 1u8) & 1 == 1,
        t & 3 == 3 ==> (t >> 0u8) & 1 == 1 && (t >> 1u8) & 1 == 1,
        (t >> k) & 1 == 0 || (t >> k) & 1 == 1,
        t & 3 <= 3,
{
}

/// Reading a shifted table is reading the table further up.
pub proof fn lemma_table_bits(t: u8, k: int)
    requires
        0 <= k < 4,
    ensures
        table_bit(t >> 4u8, k) == table_bit(t, k + 4),
        k < 2 ==> table_bit(t >> 2u8, k) == table_bit(t, k + 2),
        t & 3 == 0 ==> !table_bit(t, 0) && !table_bit(t, 1),
        t & 3 == 1 ==> table_bit(t, 0) && !table_bit(t, 1),
        t & 3 == 2 ==> !table_bit(t, 0) && table_bit(t, 1),
        t & 3 == 3 ==> table_bit(t, 0) && table_bit(t, 1),
        t & 3 <= 3,
{
    lemma_table_raw(t, k as u8);
    lemma_table_raw(t, 0);
}

proof fn lemma_signed_raw(x: u64, y: u64, w: u64, v: u64)
    by (bit_vector)
    requires
        w == (if x + y > 0xffff_ffff_ffff_ffff {
            (x + y - 0x1_0000_0000_0000_0000) as u64
        } else {
            (x + y) as u64
        }),
        v == (if x - y < 0 {
            (x - y + 0x1_0000_0000_0000_0000) as u64
        } else {
            (x - y) as u64
        }),
    ensures
        (((!(x ^ y) & (x ^ w)) >> 63u64) & 1 == 1) <==> signed_out_of_range(signed(x) + signed(y)),
        ((((x ^ y) & (x ^ v)) >> 63u64) & 1 == 1) <==> signed_out_of_range(signed(x) - signed(y)),
{
}

/// Overflow of a signed sum or difference, from the sign bits.
pub proof fn lemma_signed_overflow(x: u64, y: u64)
    ensures
        (((!(x ^ y) & (x ^ x.wrapping_add(y))) >> 63u64) & 1 == 1) <==> signed_out_of_range(
            signed(x) + signed(y),
        ),
        ((((x ^ y) & (x ^ x.wrapping_sub(y))) >> 63u64) & 1 == 1) <==> signed_out_of_range(
            signed(x) - signed(y),
        ),
{
    lemma_signed_raw(x, y, x.wrapping_add(y), x.wrapping_sub(y));
}

} // verus!
