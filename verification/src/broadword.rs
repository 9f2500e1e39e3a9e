//! The facts the broadword select rests on: per-byte popcounts, byte prefix
//! sums by multiplication, and the eight-lane compare.
use vstd::prelude::*;
use crate::model::{bit_of, count_below, group_bits};
use crate::swar::lane;

verus! {

broadcast use group_bits;

/// The number of set bits among the low eight bits of `v`.
pub open spec fn bits8(v: u64) -> u64 {
    (((v >> 0u64) & 1) + ((v >> 1u64) & 1) + ((v >> 2u64) & 1) + ((v >> 3u64) & 1) + ((v >> 4u64) & 1)
        + ((v >> 5u64) & 1) + ((v >> 6u64) & 1) + ((v >> 7u64) & 1)) as u64
}

/// The per-byte popcount of the broadword select, in three SWAR steps.
pub open spec fn byte_counts(x: u64) -> u64 {
    let s1 = (x - ((x >> 1u64) & 0x5555_5555_5555_5555u64)) as u64;
    let s2 = ((s1 & 0x3333_3333_3333_3333u64) + ((s1 >> 2u64) & 0x3333_3333_3333_3333u64)) as u64;
    ((s2 + (s2 >> 4u64)) as u64) & 0x0F0F_0F0F_0F0F_0F0Fu64
}

/// Phase one: every byte of `byte_counts(x)` counts the bits of the same
/// byte of `x`, and no step overflows.
pub proof fn lemma_byte_counts(x: u64, j: u64)
    by (bit_vector)
    requires
        j < 8,
    ensures
        x >= ((x >> 1u64) & 0x5555_5555_5555_5555u64),
        ({
            let s1 = (x - ((x >> 1u64) & 0x5555_5555_5555_5555u64)) as u64;
            (s1 & 0x3333_3333_3333_3333u64) + ((s1 >> 2u64) & 0x3333_3333_3333_3333u64) <= 0xffff_ffff_ffff_ffff
        }),
        ({
            let s1 = (x - ((x >> 1u64) & 0x5555_5555_5555_5555u64)) as u64;
            let s2 = ((s1 & 0x3333_3333_3333_3333u64) + ((s1 >> 2u64) & 0x3333_3333_3333_3333u64)) as u64;
            s2 + (s2 >> 4u64) <= 0xffff_ffff_ffff_ffff
        }),
        (byte_counts(x) >> (8 * j)) & 0xff == bits8((x >> (8 * j)) & 0xff),
{
}

/// Multiplying by `0x0101…01` turns byte values of at most 8 (or 64) into
/// their prefix sums, the top byte the total.
pub proof fn lemma_prefix_sums(s: u64)
    by (bit_vector)
    requires
        (s >> 0u64) & 0xff <= 8,
        (s >> 8u64) & 0xff <= 8,
        (s >> 16u64) & 0xff <= 8,
        (s >> 24u64) & 0xff <= 8,
        (s >> 32u64) & 0xff <= 8,
        (s >> 40u64) & 0xff <= 8,
        (s >> 48u64) & 0xff <= 8,
        (s >> 56u64) & 0xff <= 8,
    ensures
        ({
            let b = (s * 0x0101_0101_0101_0101u64) as u64;
            &&& (b >> 0u64) & 0xff == (s >> 0u64) & 0xff
            &&& (b >> 8u64) & 0xff == ((b >> 0u64) & 0xff) + ((s >> 8u64) & 0xff)
            &&& (b >> 16u64) & 0xff == ((b >> 8u64) & 0xff) + ((s >> 16u64) & 0xff)
            &&& (b >> 24u64) & 0xff == ((b >> 16u64) & 0xff) + ((s >> 24u64) & 0xff)
            &&& (b >> 32u64) & 0xff == ((b >> 24u64) & 0xff) + ((s >> 32u64) & 0xff)
            &&& (b >> 40u64) & 0xff == ((b >> 32u64) & 0xff) + ((s >> 40u64) & 0xff)
            &&& (b >> 48u64) & 0xff == ((b >> 40u64) & 0xff) + ((s >> 48u64) & 0xff)
            &&& (b >> 56u64) & 0xff == ((b >> 48u64) & 0xff) + ((s >> 56u64) & 0xff)
            &&& b & 0x8080_8080_8080_8080u64 == 0
        }),
{
}

/// The eight-lane compare: with the top bit of every byte pre-set,
/// `(k | 0x80) - sum` keeps it iff `sum <= k`, lane by lane, with no borrow
/// across lanes.
pub proof fn lemma_lanes_le(b: u64, k: u64, j: u64)
    by (bit_vector)
    requires
        k < 128,
        b & 0x8080_8080_8080_8080u64 == 0,
        j < 8,
    ensures
        ((k * 0x0101_0101_0101_0101u64) as u64 | 0x8080_8080_8080_8080u64) >= b,
        k * 0x0101_0101_0101_0101u64 <= 0xffff_ffff_ffff_ffff,
        ({
            let g = ((((k * 0x0101_0101_0101_0101u64) as u64 | 0x8080_8080_8080_8080u64) - b) as u64)
                & 0x8080_8080_8080_8080u64;
            &&& ((g >> (8 * j + 7)) & 1 == 1) == ((b >> (8 * j)) & 0xff <= k)
            &&& g & !0x8080_8080_8080_8080u64 == 0
        }),
{
}

/// The byte below byte `j` of a word, zero below byte 0: one shift up by a
/// byte, then the byte at `8 j`.
pub proof fn lemma_byte_below(b: u64, j: u64)
    by (bit_vector)
    requires
        j < 8,
    ensures
        ((b << 8u64) >> (8 * j)) & 0xff == if j == 0 { 0 } else { (b >> ((8 * j - 8) as u64)) & 0xff },
        b >> 56u64 == (b >> 56u64) & 0xff,
{
}

/// The spread of a byte: bit `i` of the byte at bit 0 of byte `i`, by a
/// multiply, a mask and three OR-shifts.
pub open spec fn spread_bits(byte: u64) -> u64 {
    let s0 = ((byte * 0x0101_0101_0101_0101u64) as u64) & 0x8040_2010_0804_0201u64;
    let s1 = s0 | (s0 >> 4u64);
    let s2 = s1 | (s1 >> 2u64);
    let s3 = s2 | (s2 >> 1u64);
    s3 & 0x0101_0101_0101_0101u64
}

/// Byte `i` of the spread is bit `i` of the byte.
pub proof fn lemma_spread(byte: u64, i: u64)
    by (bit_vector)
    requires
        byte < 256,
        i < 8,
    ensures
        byte * 0x0101_0101_0101_0101u64 <= 0xffff_ffff_ffff_ffff,
        (spread_bits(byte) >> (8 * i)) & 0xff == (byte >> i) & 1,
{
}


/// A bit of a word is zero or one; the lane tops of `0x8080…80` are its
/// only bits.
proof fn lemma_one_bit(v: u64, t: u64, ii: u64, bb: u64)
    by (bit_vector)
    ensures
        (v >> t) & 1 == 0 || (v >> t) & 1 == 1,
        (v >> t) & 1 <= 1,
        bb % 8 == 0 && bb <= ii < bb + 7 && ii < 64 ==> (0x8080_8080_8080_8080u64 >> ii) & 1 == 0,
{
}

/// The number of set bits among bits `0..t` of `v`.
pub open spec fn byte_prefix(v: u64, t: int) -> int
    decreases t,
{
    if t <= 0 {
        0
    } else {
        byte_prefix(v, t - 1) + ((v >> ((t - 1) as u64)) & 1) as int
    }
}

/// The count of a word up to a bit inside byte `j` is the count below the
/// byte plus the prefix count inside it.
pub proof fn lemma_count_in_byte(x: u64, j: int, t: int)
    requires
        0 <= j < 8,
        0 <= t <= 8,
    ensures
        count_below(x, 8 * j + t) == count_below(x, 8 * j) + byte_prefix(lane(x, j), t),
    decreases t,
{
    if t > 0 {
        lemma_count_in_byte(x, j, t - 1);
        crate::affine::lemma_lane_bit(x, j, t - 1);
        let v = lane(x, j);
        let tt = (t - 1) as u64;
        lemma_one_bit(v, tt, 0, 0);
        assert(count_below(x, 8 * j + t) == count_below(x, 8 * j + t - 1) + if bit_of(x, 8 * j + t - 1) { 1nat } else { 0nat });
    }
}

/// `bits8` is the prefix count of all eight bits.
pub proof fn lemma_bits8(v: u64)
    ensures
        bits8(v) == byte_prefix(v, 8),
        bits8(v) <= 8,
{
    reveal_with_fuel(byte_prefix, 9);
    let b0 = (v >> 0u64) & 1;
    let b7 = (v >> 7u64) & 1;
    lemma_one_bit(v, 0, 0, 0);
    lemma_one_bit(v, 1, 0, 0);
    lemma_one_bit(v, 2, 0, 0);
    lemma_one_bit(v, 3, 0, 0);
    lemma_one_bit(v, 4, 0, 0);
    lemma_one_bit(v, 5, 0, 0);
    lemma_one_bit(v, 6, 0, 0);
    lemma_one_bit(v, 7, 0, 0);
}

/// How many of `c(0), …, c(n - 1)` are at most `k`.
pub open spec fn count_le(c: spec_fn(int) -> int, k: int, n: int) -> int
    decreases n,
{
    if n <= 0 {
        0
    } else {
        count_le(c, k, n - 1) + if c(n - 1) <= k { 1int } else { 0int }
    }
}

/// A word with bits only at the tops of the bytes whose value passes the
/// test counts the passing bytes.
pub proof fn lemma_count_tops(g: u64, c: spec_fn(int) -> int, k: int, n: int)
    requires
        0 <= n <= 8,
        forall|j: int| 0 <= j < 8 ==> #[trigger] bit_of(g, 8 * j + 7) == (c(j) <= k),
        g & !0x8080_8080_8080_8080u64 == 0,
    ensures
        count_below(g, 8 * n) == count_le(c, k, n),
    decreases n,
{
    if n > 0 {
        lemma_count_tops(g, c, k, n - 1);
        let base = 8 * (n - 1);
        assert forall|i: int| base <= i < base + 7 implies !#[trigger] bit_of(g, i) by {
            assert(!bit_of(g & !0x8080_8080_8080_8080u64, i));
            assert(!bit_of(0x8080_8080_8080_8080u64, i)) by {
                let ii = i as u64;
                let bb = base as u64;
                lemma_one_bit(0, 0, ii, bb);
            }
        }
        crate::model::lemma_count_below_none_above(g, base, base + 7);
        assert(bit_of(g, 8 * (n - 1) + 7) == (c(n - 1) <= k));
    }
}

/// Over a nondecreasing sequence, the count of values at most `k` is the
/// length of the prefix they form.
pub proof fn lemma_count_le_prefix(c: spec_fn(int) -> int, k: int, n: int)
    requires
        0 <= n,
        forall|a: int, b: int| 0 <= a <= b < n ==> #[trigger] c(a) <= #[trigger] c(b),
    ensures
        0 <= count_le(c, k, n) <= n,
        forall|j: int| 0 <= j < n ==> (#[trigger] c(j) <= k <==> j < count_le(c, k, n)),
    decreases n,
{
    if n > 0 {
        lemma_count_le_prefix(c, k, n - 1);
        if c(n - 1) <= k {
            assert forall|j: int| 0 <= j < n - 1 implies #[trigger] c(j) <= k by {
                assert(c(j) <= c(n - 1));
            }
        }
    }
}


/// A product truncated to the word is the product modulo `2^64`.
pub proof fn lemma_mul_truncates(a: u64, b: u64)
    by (bit_vector)
    ensures
        (a * b) as u64 == ((a * b) % 0x1_0000_0000_0000_0000) as u64,
{
}

/// Phase one of the select: the byte sums are the counts below each byte's
/// end.
pub proof fn lemma_phase1(x: u64, s: u64, bs: u64)
    requires
        s == byte_counts(x),
        bs as int == (s as int * 0x0101_0101_0101_0101) % 0x1_0000_0000_0000_0000,
    ensures
        forall|j: int| 0 <= j < 8 ==> #[trigger] lane(bs, j) == count_below(x, 8 * j + 8),
        bs & 0x8080_8080_8080_8080u64 == 0,
        bs >> 56u64 == crate::model::popcount(x),
{
    assert forall|j: int| 0 <= j < 8 implies #[trigger] lane(s, j) == count_below(x, 8 * j + 8) - count_below(x, 8 * j) by {
        lemma_byte_counts(x, j as u64);
        lemma_bits8(lane(x, j));
        lemma_count_in_byte(x, j, 8);
    }
    assert forall|j: int| 0 <= j < 8 implies #[trigger] lane(s, j) <= 8 by {
        crate::model::lemma_count_below_diff(x, 8 * j, 8 * j + 8);
    }
    assert(lane(s, 0) <= 8 && lane(s, 1) <= 8 && lane(s, 2) <= 8 && lane(s, 3) <= 8 && lane(s, 4) <= 8
        && lane(s, 5) <= 8 && lane(s, 6) <= 8 && lane(s, 7) <= 8);
    lemma_prefix_sums(s);
    lemma_mul_truncates(s, 0x0101_0101_0101_0101u64);
    assert(bs == (s * 0x0101_0101_0101_0101u64) as u64);
    assert(lane(bs, 0) == count_below(x, 8));
    assert(lane(bs, 1) == count_below(x, 16));
    assert(lane(bs, 2) == count_below(x, 24));
    assert(lane(bs, 3) == count_below(x, 32));
    assert(lane(bs, 4) == count_below(x, 40));
    assert(lane(bs, 5) == count_below(x, 48));
    assert(lane(bs, 6) == count_below(x, 56));
    assert(lane(bs, 7) == count_below(x, 64));
    lemma_byte_below(bs, 0);
}

/// Phase two: the compare marks the bytes whose prefix count is at most
/// `k`, and they are the first `count_le` bytes.
pub proof fn lemma_phase2(x: u64, k: int, bs: u64, g: u64, c: spec_fn(int) -> int)
    requires
        0 <= k < crate::model::popcount(x),
        forall|j: int| 0 <= j < 8 ==> #[trigger] lane(bs, j) == count_below(x, 8 * j + 8),
        bs & 0x8080_8080_8080_8080u64 == 0,
        g == ((((k as u64) * 0x0101_0101_0101_0101u64) as u64 | 0x8080_8080_8080_8080u64) - bs) as u64
            & 0x8080_8080_8080_8080u64,
        forall|j: int| #[trigger] c(j) == count_below(x, 8 * j + 8) as int,
    ensures
        crate::model::popcount(g) == count_le(c, k, 8),
        0 <= count_le(c, k, 8) < 8,
        forall|j: int| 0 <= j < 8 ==> (#[trigger] c(j) <= k <==> j < count_le(c, k, 8)),
{
    crate::model::lemma_count_below_bounds(x, 64);
    assert forall|j: int| 0 <= j < 8 implies #[trigger] bit_of(g, 8 * j + 7) == (c(j) <= k) by {
        lemma_lanes_le(bs, k as u64, j as u64);
        assert(lane(bs, j) == c(j));
    }
    lemma_lanes_le(bs, k as u64, 0);
    lemma_count_tops(g, c, k, 8);
    assert forall|a: int, b: int| 0 <= a <= b < 8 implies #[trigger] c(a) <= #[trigger] c(b) by {
        crate::model::lemma_count_below_mono(x, 8 * a + 8, 8 * b + 8);
    }
    lemma_count_le_prefix(c, k, 8);
    assert(c(7) > k);
}

/// The prefix count inside a byte grows by the byte's bit.
proof fn lemma_byte_prefix_step(v: u64, i: int)
    requires
        0 <= i,
    ensures
        byte_prefix(v, i + 1) == byte_prefix(v, i) + ((v >> (i as u64)) & 1) as int,
{
}

/// Phase three's multiply: byte `i` of the bit sums counts the bits of the
/// byte at positions `0..=i`.
pub proof fn lemma_phase3_sums(byte: u64, ones: u64, bit_sums: u64)
    requires
        byte < 256,
        ones == spread_bits(byte),
        bit_sums as int == (ones as int * 0x0101_0101_0101_0101) % 0x1_0000_0000_0000_0000,
    ensures
        forall|i: int| 0 <= i < 8 ==> #[trigger] lane(bit_sums, i) == byte_prefix(byte, i + 1),
        bit_sums & 0x8080_8080_8080_8080u64 == 0,
{
    assert forall|i: int| 0 <= i < 8 implies #[trigger] lane(ones, i) == (byte >> (i as u64)) & 1 && lane(ones, i) <= 8 by {
        lemma_spread(byte, i as u64);
        let ii = i as u64;
        lemma_one_bit(byte, ii, 0, 0);
    }
    assert(lane(ones, 0) <= 8 && lane(ones, 1) <= 8 && lane(ones, 2) <= 8 && lane(ones, 3) <= 8 && lane(ones, 4) <= 8
        && lane(ones, 5) <= 8 && lane(ones, 6) <= 8 && lane(ones, 7) <= 8);
    lemma_prefix_sums(ones);
    lemma_mul_truncates(ones, 0x0101_0101_0101_0101u64);
    assert(bit_sums == (ones * 0x0101_0101_0101_0101u64) as u64);
    reveal_with_fuel(byte_prefix, 9);
    assert(lane(bit_sums, 0) == byte_prefix(byte, 1));
    assert(lane(bit_sums, 1) == byte_prefix(byte, 2));
    assert(lane(bit_sums, 2) == byte_prefix(byte, 3));
    assert(lane(bit_sums, 3) == byte_prefix(byte, 4));
    assert(lane(bit_sums, 4) == byte_prefix(byte, 5));
    assert(lane(bit_sums, 5) == byte_prefix(byte, 6));
    assert(lane(bit_sums, 6) == byte_prefix(byte, 7));
    assert(lane(bit_sums, 7) == byte_prefix(byte, 8));
}

/// Phase three: the compare inside the byte counts the positions whose
/// prefix count is at most the rank left, which lands on the wanted bit.
pub proof fn lemma_phase3(x: u64, k: int, jb: int, byte: u64, br: int, bit_sums: u64, g: u64)
    requires
        0 <= jb < 8,
        byte == lane(x, jb),
        count_below(x, 8 * jb) <= k < count_below(x, 8 * jb + 8),
        br == k - count_below(x, 8 * jb),
        count_below(x, 8 * jb + 8) == count_below(x, 8 * jb) + byte_prefix(byte, 8),
        forall|i: int| 0 <= i < 8 ==> #[trigger] lane(bit_sums, i) == byte_prefix(byte, i + 1),
        bit_sums & 0x8080_8080_8080_8080u64 == 0,
        g == ((((br as u64) * 0x0101_0101_0101_0101u64) as u64 | 0x8080_8080_8080_8080u64) - bit_sums) as u64
            & 0x8080_8080_8080_8080u64,
    ensures
        crate::model::popcount(g) < 8,
        bit_of(x, 8 * jb + crate::model::popcount(g)),
        count_below(x, 8 * jb + crate::model::popcount(g)) == k,
{
    lemma_bits8(byte);
    let c = |i: int| byte_prefix(byte, i + 1);
    assert forall|i: int| 0 <= i < 8 implies #[trigger] bit_of(g, 8 * i + 7) == (c(i) <= br) by {
        lemma_lanes_le(bit_sums, br as u64, i as u64);
        assert(lane(bit_sums, i) == c(i));
    }
    lemma_lanes_le(bit_sums, br as u64, 0);
    lemma_count_tops(g, c, br, 8);
    assert forall|a: int, b: int| 0 <= a <= b < 8 implies #[trigger] c(a) <= #[trigger] c(b) by {
        lemma_prefix_mono(byte, a + 1, b + 1);
    }
    lemma_count_le_prefix(c, br, 8);
    let q = count_le(c, br, 8);
    assert(c(7) > br);
    assert(q < 8);
    lemma_byte_prefix_step(byte, q);
    let qq = q as u64;
    lemma_one_bit(byte, qq, 0, 0);
    if q > 0 {
        assert(c(q - 1) <= br);
    }
    assert(c(q) > br);
    assert((byte >> qq) & 1 == 1);
    crate::affine::lemma_lane_bit(x, jb, q);
    lemma_count_in_byte(x, jb, q);
}

/// Prefix counts inside a byte only grow.
proof fn lemma_prefix_mono(v: u64, a: int, b: int)
    requires
        0 <= a <= b,
    ensures
        byte_prefix(v, a) <= byte_prefix(v, b),
    decreases b - a,
{
    if a < b {
        lemma_prefix_mono(v, a, b - 1);
        let t = (b - 1) as u64;
        lemma_one_bit(v, t, 0, 0);
    }
}

} // verus!
