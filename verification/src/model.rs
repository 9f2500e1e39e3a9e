//! The mathematical model of a 64-bit word: bit `i` for `i` in `0..64`,
//! and the counts, positions and carries the combinators are stated in.
use vstd::prelude::*;
use vstd::arithmetic::power2::{pow2, lemma_pow2_unfold, lemma_pow2_pos};
use vstd::std_specs::bits::{
    axiom_u64_leading_zeros, axiom_u64_trailing_zeros, u64_leading_zeros, u64_trailing_zeros,
};

verus! {

/// Bit `i` of `x`, bit 0 least significant; false outside `0..64`.
pub open spec fn bit_of(x: u64, i: int) -> bool {
    0 <= i < 64 && (x >> (i as u64)) & 1 == 1
}

/// Mask of the `n` lowest bits, all ones from `n = 64` on.
pub open spec fn low_mask(n: int) -> u64 {
    if n >= 64 {
        0xffff_ffff_ffff_ffffu64
    } else if n <= 0 {
        0
    } else {
        ((1u64 << (n as u64)) - 1) as u64
    }
}

/// Number of set bits of `x` among positions `0..n`.
pub open spec fn count_below(x: u64, n: int) -> nat
    decreases n,
{
    if n <= 0 {
        0
    } else {
        count_below(x, n - 1) + if bit_of(x, n - 1) {
            1nat
        } else {
            0nat
        }
    }
}

/// Number of set bits of `x`.
pub open spec fn popcount(x: u64) -> nat {
    count_below(x, 64)
}

/// Index of the lowest set bit, 64 for zero.
pub open spec fn tz(x: u64) -> int {
    u64_trailing_zeros(x) as int
}

/// Index of the highest set bit, -1 for zero.
pub open spec fn top_bit(x: u64) -> int {
    63 - u64_leading_zeros(x)
}

/// Per-bit meaning of the Boolean operators.
proof fn lemma_bit_ops_raw(x: u64, y: u64, i: u64)
    by (bit_vector)
    requires
        i < 64,
    ensures
        ((x & y) >> i) & 1 == 1 <==> ((x >> i) & 1 == 1 && (y >> i) & 1 == 1),
        ((x | y) >> i) & 1 == 1 <==> ((x >> i) & 1 == 1 || (y >> i) & 1 == 1),
        ((x ^ y) >> i) & 1 == 1 <==> ((x >> i) & 1 == 1) != ((y >> i) & 1 == 1),
        ((!x) >> i) & 1 == 1 <==> !((x >> i) & 1 == 1),
        (0u64 >> i) & 1 != 1,
        (0xffff_ffff_ffff_ffffu64 >> i) & 1 == 1,
{
}

/// Per-bit meaning of the shifts and of the low masks.
proof fn lemma_shift_raw(x: u64, s: u64, i: u64)
    by (bit_vector)
    requires
        i < 64,
        s < 64,
    ensures
        ((x << s) >> i) & 1 == 1 <==> (s <= i && (x >> ((i - s) as u64)) & 1 == 1),
        ((x >> s) >> i) & 1 == 1 <==> (i + s < 64 && (x >> ((i + s) as u64)) & 1 == 1),
        ((((1u64 << s) - 1) as u64) >> i) & 1 == 1 <==> i < s,
        ((1u64 << s) >> i) & 1 == 1 <==> i == s,
        (1u64 >> i) & 1 == 1 <==> i == 0,
{
}

/// The Boolean operators, bit by bit.
pub broadcast proof fn lemma_bit_and(x: u64, y: u64, i: int)
    ensures
        #[trigger] bit_of(x & y, i) == (bit_of(x, i) && bit_of(y, i)),
{
    if 0 <= i < 64 {
        lemma_bit_ops_raw(x, y, i as u64);
    }
}

pub broadcast proof fn lemma_bit_or(x: u64, y: u64, i: int)
    ensures
        #[trigger] bit_of(x | y, i) == (bit_of(x, i) || bit_of(y, i)),
{
    if 0 <= i < 64 {
        lemma_bit_ops_raw(x, y, i as u64);
    }
}

pub broadcast proof fn lemma_bit_xor(x: u64, y: u64, i: int)
    ensures
        #[trigger] bit_of(x ^ y, i) == (bit_of(x, i) != bit_of(y, i)),
{
    if 0 <= i < 64 {
        lemma_bit_ops_raw(x, y, i as u64);
    }
}

pub broadcast proof fn lemma_bit_not(x: u64, i: int)
    ensures
        #[trigger] bit_of(!x, i) == (0 <= i < 64 && !bit_of(x, i)),
{
    if 0 <= i < 64 {
        lemma_bit_ops_raw(x, x, i as u64);
    }
}

pub broadcast proof fn lemma_bit_zero(i: int)
    ensures
        !#[trigger] bit_of(0u64, i),
{
    if 0 <= i < 64 {
        lemma_bit_ops_raw(0, 0, i as u64);
    }
}

pub broadcast proof fn lemma_bit_ones(i: int)
    ensures
        #[trigger] bit_of(0xffff_ffff_ffff_ffffu64, i) == (0 <= i < 64),
{
    if 0 <= i < 64 {
        lemma_bit_ops_raw(0, 0, i as u64);
    }
}

pub broadcast proof fn lemma_bit_shl(x: u64, s: u64, i: int)
    requires
        s < 64,
    ensures
        #[trigger] bit_of(x << s, i) == (s <= i < 64 && bit_of(x, i - s)),
{
    if 0 <= i < 64 {
        lemma_shift_raw(x, s, i as u64);
        if s <= i {
            assert((i as u64 - s) as u64 == (i - s) as u64);
        }
    }
}

pub broadcast proof fn lemma_bit_shr(x: u64, s: u64, i: int)
    requires
        s < 64,
    ensures
        #[trigger] bit_of(x >> s, i) == (0 <= i && bit_of(x, i + s)),
{
    if 0 <= i < 64 {
        lemma_shift_raw(x, s, i as u64);
    }
}

pub broadcast proof fn lemma_bit_low_mask(n: int, i: int)
    ensures
        #[trigger] bit_of(low_mask(n), i) == (0 <= i < 64 && i < n),
{
    if 0 <= i < 64 {
        lemma_shift_raw(0, 0, i as u64);
        lemma_bit_ops_raw(0, 0, i as u64);
        if 0 < n < 64 {
            lemma_shift_raw(0, n as u64, i as u64);
        }
    }
}

pub broadcast proof fn lemma_bit_single(s: u64, i: int)
    requires
        s < 64,
    ensures
        #[trigger] bit_of(1u64 << s, i) == (i == s),
{
    if 0 <= i < 64 {
        lemma_shift_raw(0, s, i as u64);
    }
}

pub broadcast proof fn lemma_bit_one(i: int)
    ensures
        #[trigger] bit_of(1u64, i) == (i == 0),
{
    if 0 <= i < 64 {
        lemma_shift_raw(0, 0, i as u64);
    }
}

pub broadcast group group_bits {
    lemma_bit_and,
    lemma_bit_or,
    lemma_bit_xor,
    lemma_bit_not,
    lemma_bit_zero,
    lemma_bit_ones,
    lemma_bit_shl,
    lemma_bit_shr,
    lemma_bit_low_mask,
    lemma_bit_single,
    lemma_bit_one,
}

/// Facts the extensionality proof walks on.
proof fn lemma_halving_raw(x: u64, i: u64)
    by (bit_vector)
    requires
        i < 63,
    ensures
        (x >> 0u64) & 1 == 1 <==> x % 2 == 1,
        ((x / 2) >> i) & 1 == 1 <==> (x >> ((i + 1) as u64)) & 1 == 1,
        x & 1 == 0 || x & 1 == 1,
{
}

proof fn lemma_eq_below(x: u64, y: u64, n: nat)
    requires
        n <= 64,
        forall|i: int| 0 <= i < n ==> bit_of(x, i) == bit_of(y, i),
    ensures
        x as int % pow2(n) as int == y as int % pow2(n) as int,
    decreases n,
{
    if n == 0 {
        vstd::arithmetic::power2::lemma2_to64();
    } else {
        assert forall|i: int| 0 <= i < n - 1 implies #[trigger] bit_of(x / 2, i) == bit_of(y / 2, i) by {
            lemma_halving_raw(x, i as u64);
            lemma_halving_raw(y, i as u64);
            assert(bit_of(x, i + 1) == bit_of(y, i + 1));
        }
        lemma_eq_below(x / 2, y / 2, (n - 1) as nat);
        lemma_halving_raw(x, 0);
        lemma_halving_raw(y, 0);
        assert(bit_of(x, 0) == bit_of(y, 0));
        lemma_pow2_unfold(n);
        lemma_pow2_pos((n - 1) as nat);
        let p = pow2((n - 1) as nat) as int;
        assert((x / 2) as int % p == (y / 2) as int % p);
        assert(x % 2 == y % 2);
        vstd::arithmetic::div_mod::lemma_mod_breakdown(x as int, 2, p);
        vstd::arithmetic::div_mod::lemma_mod_breakdown(y as int, 2, p);
    }
}

/// Two words with the same bits are equal.
pub proof fn lemma_bits_eq(x: u64, y: u64)
    requires
        forall|i: int| 0 <= i < 64 ==> #[trigger] bit_of(x, i) == bit_of(y, i),
    ensures
        x == y,
{
    lemma_eq_below(x, y, 64);
    vstd::arithmetic::power2::lemma2_to64_rest();
}

/// The lowest set bit.
pub proof fn lemma_tz(x: u64)
    ensures
        0 <= tz(x) <= 64,
        x == 0 <==> tz(x) == 64,
        tz(x) < 64 ==> bit_of(x, tz(x)),
        forall|j: int| j < tz(x) ==> !#[trigger] bit_of(x, j),
{
    axiom_u64_trailing_zeros(x);
    assert forall|j: int| j < tz(x) implies !#[trigger] bit_of(x, j) by {
        if 0 <= j {
            assert((x >> (j as u64)) & 1u64 == 0u64);
        }
    }
}

/// The highest set bit.
pub proof fn lemma_top_bit(x: u64)
    ensures
        -1 <= top_bit(x) < 64,
        x == 0 <==> top_bit(x) == -1,
        top_bit(x) >= 0 ==> bit_of(x, top_bit(x)),
        forall|j: int| j > top_bit(x) ==> !#[trigger] bit_of(x, j),
{
    axiom_u64_leading_zeros(x);
    let t = top_bit(x);
    if t >= 0 {
        lemma_halving_raw(x >> (t as u64), 0);
    }
    assert forall|j: int| j > top_bit(x) implies !#[trigger] bit_of(x, j) by {
        if j < 64 {
            assert((x >> (j as u64)) & 1u64 == 0u64);
        }
    }
}

} // verus!

verus! {

/// Arithmetic facts about the operators that the default prover does not export.
proof fn lemma_arith_raw(x: u64, t: u64, i: u64)
    by (bit_vector)
    ensures
        !x == (0xffff_ffff_ffff_ffffu64 - x) as u64,
        (t < 64 && i < 64 && x != 0 && (x >> t) & 1 == 1 && x & (((1u64 << t) - 1) as u64) == 0)
            ==> (((((x - 1) as u64) >> i) & 1 == 1) <==> (i < t || (t < i && (x >> i) & 1
            == 1))),
        x & 0xff == x % 256,
        x >> 8 == x / 256,
        1u64 << 0u64 == 1,
        x & t == 0 ==> x | t == x + t,
{
}

pub proof fn lemma_not_is_sub(x: u64)
    ensures
        !x == 0xffff_ffff_ffff_ffffu64 - x,
{
    lemma_arith_raw(x, 0, 0);
}

pub proof fn lemma_low_byte(x: u64)
    ensures
        x & 0xff == x % 256,
        x >> 8 == x / 256,
{
    lemma_arith_raw(x, 0, 0);
}

/// Subtracting one clears the lowest set bit and sets every bit below it.
pub proof fn lemma_sub_one_bits(x: u64)
    requires
        x != 0,
    ensures
        forall|i: int|
            #![trigger bit_of((x - 1) as u64, i)]
            bit_of((x - 1) as u64, i) == (0 <= i < tz(x) || (tz(x) < i < 64 && bit_of(x, i))),
{
    broadcast use group_bits;

    lemma_tz(x);
    let t = tz(x);
    assert forall|i: int| 0 <= i < 64 implies #[trigger] bit_of(x & low_mask(t), i) == bit_of(
        0u64,
        i,
    ) by {}
    lemma_bits_eq(x & low_mask(t), 0);
    lemma_arith_raw(x, 0, 0);
    assert(x & (((1u64 << (t as u64)) - 1) as u64) == 0);
    assert forall|i: int|
        #![trigger bit_of((x - 1) as u64, i)]
        bit_of((x - 1) as u64, i) == (0 <= i < t || (t < i < 64 && bit_of(x, i))) by {
        if 0 <= i < 64 {
            lemma_arith_raw(x, t as u64, i as u64);
        }
    }
}

/// Adding one sets the lowest clear bit and clears every bit below it.
pub proof fn lemma_add_one_bits(x: u64)
    requires
        x != 0xffff_ffff_ffff_ffffu64,
    ensures
        forall|i: int|
            #![trigger bit_of((x + 1) as u64, i)]
            bit_of((x + 1) as u64, i) == (i == tz(!x) || (tz(!x) < i < 64 && bit_of(x, i))),
        tz(!x) < 64,
{
    broadcast use group_bits;

    let y = !x;
    lemma_not_is_sub(x);
    lemma_not_is_sub((y - 1) as u64);
    assert(y != 0);
    // x + 1 == !(!x - 1)
    assert((x + 1) as u64 == !((y - 1) as u64));
    lemma_sub_one_bits(y);
    lemma_tz(y);
}

/// Clearing bits only lowers the count.
pub proof fn lemma_count_below_bounds(x: u64, n: int)
    ensures
        count_below(x, n) <= if n < 0 {
            0
        } else {
            n
        },
    decreases n,
{
    if n > 0 {
        lemma_count_below_bounds(x, n - 1);
    }
}

/// Past the top bit the count stops growing.
pub proof fn lemma_count_below_top(x: u64, n: int)
    requires
        n >= 64,
    ensures
        count_below(x, n) == popcount(x),
    decreases n,
{
    if n > 64 {
        lemma_count_below_top(x, n - 1);
    }
}

/// Counts agree below `n` when the bits do.
pub proof fn lemma_count_below_same(x: u64, y: u64, n: int)
    requires
        forall|i: int| 0 <= i < n ==> bit_of(x, i) == bit_of(y, i),
    ensures
        count_below(x, n) == count_below(y, n),
    decreases n,
{
    if n > 0 {
        lemma_count_below_same(x, y, n - 1);
    }
}

/// The count below `n` is monotone in `n`, strictly across a set bit.
pub proof fn lemma_count_below_mono(x: u64, a: int, b: int)
    requires
        a <= b,
    ensures
        count_below(x, a) <= count_below(x, b),
        0 <= a < b && bit_of(x, a) ==> count_below(x, a) < count_below(x, b),
    decreases b - a,
{
    if a < b {
        lemma_count_below_mono(x, a, b - 1);
    }
}

/// No set bits below `n` means a count of zero, and conversely.
pub proof fn lemma_count_below_zero(x: u64, n: int)
    ensures
        count_below(x, n) == 0 <==> forall|i: int| 0 <= i < n ==> !#[trigger] bit_of(x, i),
    decreases n,
{
    if n > 0 {
        lemma_count_below_zero(x, n - 1);
    }
}

/// A zero popcount is the zero word.
pub proof fn lemma_popcount_zero(x: u64)
    ensures
        popcount(x) == 0 <==> x == 0,
{
    broadcast use group_bits;

    lemma_count_below_zero(x, 64);
    if popcount(x) == 0 {
        lemma_bits_eq(x, 0);
    }
}

} // verus!

verus! {

/// Parity of the bits of `x` at positions `0..n`.
pub open spec fn parity_below(x: u64, n: int) -> bool
    decreases n,
{
    if n <= 0 {
        false
    } else {
        parity_below(x, n - 1) != bit_of(x, n - 1)
    }
}

/// Past the top bit the parity stops changing.
pub proof fn lemma_parity_below_top(x: u64, n: int)
    requires
        n >= 64,
    ensures
        parity_below(x, n) == parity_below(x, 64),
    decreases n,
{
    if n > 64 {
        lemma_parity_below_top(x, n - 1);
    }
}

/// Parities agree below `n` when the bits do.
pub proof fn lemma_parity_below_same(x: u64, y: u64, n: int)
    requires
        forall|i: int| 0 <= i < n ==> bit_of(x, i) == bit_of(y, i),
    ensures
        parity_below(x, n) == parity_below(y, n),
    decreases n,
{
    if n > 0 {
        lemma_parity_below_same(x, y, n - 1);
    }
}

/// The parity is the low bit of the count.
pub proof fn lemma_parity_is_count_mod2(x: u64, n: int)
    ensures
        parity_below(x, n) == (count_below(x, n) % 2 == 1),
    decreases n,
{
    if n > 0 {
        lemma_parity_is_count_mod2(x, n - 1);
    }
}

} // verus!

verus! {

/// Number of clear bits of `m` at positions `0..q`.
pub open spec fn zeros_below(m: u64, q: int) -> int {
    q - count_below(m, q)
}

/// Between two bounds the count grows by at most the distance, and by at
/// least one across a set bit.
pub proof fn lemma_count_below_diff(x: u64, a: int, b: int)
    requires
        0 <= a <= b,
    ensures
        0 <= count_below(x, b) - count_below(x, a) <= b - a,
        a < b && bit_of(x, a) ==> count_below(x, b) - count_below(x, a) >= 1,
    decreases b - a,
{
    if a < b {
        lemma_count_below_diff(x, a, b - 1);
        lemma_count_below_mono(x, a, b);
    }
}

/// A value squeezed between the multiple below `c` and `c` has the quotient of `c`.
pub proof fn lemma_floor_same(c: int, y: int, d: int)
    requires
        d > 0,
        c >= 0,
        c - c % d <= y <= c,
    ensures
        y / d == c / d,
        y % d == y - (c - c % d),
{
    vstd::arithmetic::div_mod::lemma_fundamental_div_mod(c, d);
    let q = c / d;
    vstd::arithmetic::mul::lemma_mul_is_commutative(q, d);
    vstd::arithmetic::div_mod::lemma_fundamental_div_mod_converse(y, d, q, y - q * d);
}

/// Adding `z` moves the remainder up by at most `z`.
pub proof fn lemma_mod_add_le(a: int, z: int, d: int)
    requires
        d > 0,
        a >= 0,
        z >= 0,
    ensures
        (a + z) % d <= a % d + z,
{
    vstd::arithmetic::div_mod::lemma_fundamental_div_mod(a, d);
    let (q, r) = (a / d, a % d);
    vstd::arithmetic::div_mod::lemma_fundamental_div_mod(r + z, d);
    let (q2, r2) = ((r + z) / d, (r + z) % d);
    assert(q2 >= 0) by {
        vstd::arithmetic::div_mod::lemma_div_pos_is_pos(r + z, d);
    }
    assert(d * q2 >= 0) by {
        vstd::arithmetic::mul::lemma_mul_nonnegative(d, q2);
    }
    assert(a + z == (q + q2) * d + r2) by (nonlinear_arith)
        requires
            a == d * q + r,
            r + z == d * q2 + r2,
    ;
    vstd::arithmetic::div_mod::lemma_fundamental_div_mod_converse(a + z, d, q + q2, r2);
}

/// One more: the quotient steps exactly when the remainder wraps.
pub proof fn lemma_succ_div(a: int, d: int)
    requires
        d > 0,
        a >= 0,
    ensures
        (a + 1) / d == a / d + if (a + 1) % d == 0 {
            1int
        } else {
            0int
        },
        (a + 1) % d == if a % d == d - 1 {
            0
        } else {
            a % d + 1
        },
{
    vstd::arithmetic::div_mod::lemma_fundamental_div_mod(a, d);
    let (q, r) = (a / d, a % d);
    vstd::arithmetic::mul::lemma_mul_is_commutative(q, d);
    vstd::arithmetic::mul::lemma_mul_is_distributive_add_other_way(d, q, 1);
    vstd::arithmetic::mul::lemma_mul_is_commutative(q + 1, d);
    if r == d - 1 {
        vstd::arithmetic::div_mod::lemma_fundamental_div_mod_converse(a + 1, d, q + 1, 0);
    } else {
        vstd::arithmetic::div_mod::lemma_fundamental_div_mod_converse(a + 1, d, q, r + 1);
    }
}

/// The remainder modulo `2d` from the one modulo `d` and bit `d` of the quotient.
pub proof fn lemma_mod_double(c: int, d: int)
    requires
        d > 0,
        c >= 0,
    ensures
        c % (2 * d) == c % d + d * ((c / d) % 2),
        c % (2 * d) == 0 <==> (c % d == 0 && (c / d) % 2 == 0),
        c % (2 * d) == c % d + if (c / d) % 2 == 1 {
            d
        } else {
            0
        },
{
    vstd::arithmetic::div_mod::lemma_mod_breakdown(c, d, 2);
    assert(d * 2 == 2 * d);
    vstd::arithmetic::div_mod::lemma_mod_pos_bound(c / d, 2);
    if (c / d) % 2 == 1 {
        assert(d * ((c / d) % 2) == d);
    } else {
        assert(d * ((c / d) % 2) == 0);
    }
}

} // verus!

verus! {

/// Every count below the total is reached at some set bit.
pub proof fn lemma_select_exists(x: u64, n: int, j: int)
    requires
        0 <= j < count_below(x, n),
    ensures
        exists|p: int| 0 <= p < n && #[trigger] bit_of(x, p) && count_below(x, p) == j,
    decreases n,
{
    if j < count_below(x, n - 1) {
        lemma_select_exists(x, n - 1, j);
        let p = choose|p: int| 0 <= p < n - 1 && #[trigger] bit_of(x, p) && count_below(x, p) == j;
        assert(0 <= p < n && bit_of(x, p) && count_below(x, p) == j);
    } else {
        assert(bit_of(x, n - 1) && count_below(x, n - 1) == j);
    }
}

/// Two set bits with the same count are the same bit.
pub proof fn lemma_select_unique(x: u64, p: int, q: int)
    requires
        bit_of(x, p),
        bit_of(x, q),
        count_below(x, p) == count_below(x, q),
    ensures
        p == q,
{
    if p < q {
        lemma_count_below_mono(x, p, q);
    } else if q < p {
        lemma_count_below_mono(x, q, p);
    }
}

} // verus!

verus! {

/// With no set bits from `n` on, the count below `n` is the popcount.
pub proof fn lemma_count_below_none_above(x: u64, n: int, m: int)
    requires
        0 <= n <= m,
        forall|i: int| n <= i < m ==> !#[trigger] bit_of(x, i),
    ensures
        count_below(x, m) == count_below(x, n),
    decreases m - n,
{
    if n < m {
        lemma_count_below_none_above(x, n, m - 1);
    }
}

/// The masked popcount is the count below the mask's width.
pub proof fn lemma_popcount_low(x: u64, n: int)
    requires
        0 <= n <= 64,
    ensures
        popcount(x & low_mask(n)) == count_below(x, n),
{
    broadcast use group_bits;

    let y = x & low_mask(n);
    lemma_count_below_same(x, y, n);
    lemma_count_below_none_above(y, n, 64);
}

/// A nonzero word lies between the power of two of its top bit and the next.
pub proof fn lemma_top_bit_bounds(x: u64)
    requires
        x != 0,
    ensures
        0 <= top_bit(x) < 64,
        pow2(top_bit(x) as nat) <= x < pow2((top_bit(x) + 1) as nat),
{
    broadcast use group_bits;

    lemma_top_bit(x);
    let t = top_bit(x);
    vstd::bits::lemma_u64_shr_is_div(x, t as u64);
    vstd::bits::lemma_u64_pow2_no_overflow(t as nat);
    lemma_halving_raw(x >> (t as u64), 0);
    assert(x >> (t as u64) != 0) by {
        assert(bit_of(x >> (t as u64), 0));
        if x >> (t as u64) == 0 {
            assert(!bit_of(0u64, 0));
        }
    }
    vstd::arithmetic::power2::lemma_pow2_pos(t as nat);
    assert(x >= pow2(t as nat)) by {
        let d = pow2(t as nat) as int;
        vstd::arithmetic::div_mod::lemma_fundamental_div_mod(x as int, d);
        vstd::arithmetic::div_mod::lemma_mod_pos_bound(x as int, d);
        let q = x as int / d;
        assert(q >= 1);
        assert(d * q >= d) by (nonlinear_arith)
            requires
                q >= 1,
                d > 0,
        ;
    }
    if t < 63 {
        vstd::bits::lemma_u64_shr_is_div(x, (t + 1) as u64);
        vstd::bits::lemma_u64_pow2_no_overflow((t + 1) as nat);
        assert forall|i: int| 0 <= i < 64 implies #[trigger] bit_of(x >> ((t + 1) as u64), i)
            == bit_of(0u64, i) by {}
        lemma_bits_eq(x >> ((t + 1) as u64), 0);
        vstd::arithmetic::power2::lemma_pow2_pos((t + 1) as nat);
        let d = pow2((t + 1) as nat) as int;
        vstd::arithmetic::div_mod::lemma_fundamental_div_mod(x as int, d);
        vstd::arithmetic::div_mod::lemma_mod_pos_bound(x as int, d);
        assert(x as int / d == 0);
        assert(d * (x as int / d) == 0);
    } else {
        vstd::arithmetic::power2::lemma2_to64_rest();
    }
}

} // verus!

verus! {

/// Shifting one by zero is one.
pub proof fn lemma_shl_zero()
    ensures
        1u64 << 0u64 == 1,
{
    lemma_arith_raw(0, 0, 0);
}

/// Disjoint words add without carries.
pub proof fn lemma_or_is_add(x: u64, y: u64)
    requires
        x & y == 0,
    ensures
        x | y == x + y,
{
    lemma_arith_raw(x, y, 0);
}

} // verus!

verus! {

/// The carry into each bit position of `x + y`.
pub open spec fn carries(x: u64, y: u64) -> u64 {
    ((x + y) as u64) ^ x ^ y
}

proof fn lemma_carry_raw(x: u64, y: u64, i: u64)
    by (bit_vector)
    requires
        i < 63,
    ensures
        carries(x, y) & 1 == 0,
        ((carries(x, y) >> (i + 1)) & 1 == 1) == (((x >> i) & 1 == 1 && (y >> i) & 1 == 1) || (
        (x >> i) & 1 == 1 && (carries(x, y) >> i) & 1 == 1) || ((y >> i) & 1 == 1 && (carries(x, y)
            >> i) & 1 == 1)),
{
}

/// The ripple-carry adder: no carry into bit 0, and the carry out of bit
/// `i` is the majority of the two bits and the carry into it.
pub proof fn lemma_carry_at(x: u64, y: u64, i: int)
    requires
        0 <= i < 63,
    ensures
        !bit_of(carries(x, y), 0),
        bit_of(carries(x, y), i + 1) == ((bit_of(x, i) && bit_of(y, i)) || (bit_of(x, i) && bit_of(
            carries(x, y),
            i,
        )) || (bit_of(y, i) && bit_of(carries(x, y), i))),
{
    lemma_carry_raw(x, y, i as u64);
    lemma_carry_raw(x, y, 0);
    assert((carries(x, y) >> 0u64) & 1 == 1 <==> carries(x, y) & 1 == 1) by (bit_vector);
    assert(((i + 1) as u64) == (i as u64) + 1);
}

/// Each bit of a sum is the XOR of the two bits and the carry into it.
pub proof fn lemma_sum_bit(x: u64, y: u64, i: int)
    ensures
        bit_of((x + y) as u64, i) == ((bit_of(x, i) != bit_of(y, i)) != bit_of(carries(x, y), i)),
{
    broadcast use group_bits;

    assert(((x + y) as u64) == carries(x, y) ^ x ^ y) by (bit_vector);
}

} // verus!

verus! {

/// The wrapping sum is the sum truncated to the word.
pub proof fn lemma_wrapping_add_is_truncation(x: u64, y: u64, r: u64)
    by (bit_vector)
    requires
        r == (if x + y > 0xffff_ffff_ffff_ffffu64 { (x + y - 0x1_0000_0000_0000_0000) as u64 } else { (x + y) as u64 }),
    ensures
        r == (x + y) as u64,
{
}

} // verus!

verus! {

/// Ordering facts the default prover does not export: a word whose bits
/// above `q` agree with another's and whose bit `q` is the only one it adds
/// is the larger; and a run of ones below bit `q` plus one carries into `q`.
/// Also the bits of the first and last file of a board.
pub proof fn lemma_order_raw(u: u64, v: u64, q: u64)
    by (bit_vector)
    ensures
        (q < 64 && (u >> q) & 1 != 1 && (v >> q) == ((u >> q) | 1)) ==> u < v,
        q < 63 ==> ((u & !(((1u64 << ((q + 1) as u64)) - 1) as u64)) | ((1u64 << q) - 1) as u64) + 1
            == (u & !(((1u64 << ((q + 1) as u64)) - 1) as u64)) | (1u64 << q),
        (q < 64 && u >> q == 0) ==> u < (1u64 << q),
        (1u64 << 2u64) == 4 && (1u64 << 4u64) == 16 && (1u64 << 8u64) == 256,
        q < 64 ==> (((0x0101_0101_0101_0101u64 >> q) & 1 == 1) == (q % 8 == 0)),
        q < 64 ==> (((0x8080_8080_8080_8080u64 >> q) & 1 == 1) == (q % 8 == 7)),
{
}

/// A word with no bit at or above `n` is below `2^n`.
pub proof fn lemma_below_pow(u: u64, n: int)
    requires
        0 <= n < 64,
        forall|i: int| n <= i < 64 ==> !#[trigger] bit_of(u, i),
    ensures
        u < (1u64 << (n as u64)),
        (1u64 << 2u64) == 4 && (1u64 << 4u64) == 16 && (1u64 << 8u64) == 256,
{
    broadcast use group_bits;

    assert forall|i: int| 0 <= i < 64 implies #[trigger] bit_of(u >> (n as u64), i) == bit_of(0u64, i) by {
        if i + n < 64 {
            assert(!bit_of(u, i + n));
        }
    }
    lemma_bits_eq(u >> (n as u64), 0);
    lemma_order_raw(u, u, n as u64);
}

/// A word that agrees with another above bit `q` and has bit `q` where the
/// other has none is the larger.
pub proof fn lemma_lt_by_bits(u: u64, v: u64, q: int)
    requires
        0 <= q < 64,
        forall|i: int| q < i < 64 ==> #[trigger] bit_of(u, i) == bit_of(v, i),
        !bit_of(u, q),
        bit_of(v, q),
    ensures
        u < v,
{
    broadcast use group_bits;

    let qq = q as u64;
    assert forall|i: int| 0 <= i < 64 implies #[trigger] bit_of(v >> qq, i) == bit_of((u >> qq) | 1, i) by {
        if i > 0 && i + q < 64 {
            assert(bit_of(u, i + q) == bit_of(v, i + q));
        }
    }
    lemma_bits_eq(v >> qq, (u >> qq) | 1);
    lemma_order_raw(u, v, qq);
}

/// Two different words have a highest bit where they differ.
pub proof fn lemma_top_diff(u: u64, v: u64) -> (q: int)
    requires
        u != v,
    ensures
        0 <= q < 64,
        bit_of(u, q) != bit_of(v, q),
        forall|i: int| q < i < 64 ==> #[trigger] bit_of(u, i) == bit_of(v, i),
{
    broadcast use group_bits;

    if u ^ v == 0 {
        assert forall|i: int| 0 <= i < 64 implies #[trigger] bit_of(u, i) == bit_of(v, i) by {
            assert(!bit_of(u ^ v, i));
        }
        lemma_bits_eq(u, v);
    }
    lemma_top_bit(u ^ v);
    let q = top_bit(u ^ v);
    assert forall|i: int| q < i < 64 implies #[trigger] bit_of(u, i) == bit_of(v, i) by {
        assert(!bit_of(u ^ v, i));
    }
    q
}

/// Bits that agree on `a..n` count the same there.
pub proof fn lemma_count_range_same(u: u64, v: u64, a: int, n: int)
    requires
        0 <= a <= n,
        forall|i: int| a <= i < n ==> #[trigger] bit_of(u, i) == bit_of(v, i),
    ensures
        count_below(u, n) - count_below(u, a) == count_below(v, n) - count_below(v, a),
    decreases n - a,
{
    if n > a {
        lemma_count_range_same(u, v, a, n - 1);
        assert(bit_of(u, n - 1) == bit_of(v, n - 1));
    }
}

/// Bits all set on `a..n` count `n - a` there; all clear, none.
pub proof fn lemma_count_range_const(u: u64, a: int, n: int, set: bool)
    requires
        0 <= a <= n,
        forall|i: int| a <= i < n ==> #[trigger] bit_of(u, i) == set,
    ensures
        count_below(u, n) - count_below(u, a) == if set { n - a } else { 0 },
    decreases n - a,
{
    if n > a {
        lemma_count_range_const(u, a, n - 1, set);
        assert(bit_of(u, n - 1) == set);
    }
}

/// The first file of a board is bit 0 of every byte, the last bit 7.
pub proof fn lemma_file_bits(i: int)
    requires
        0 <= i < 64,
    ensures
        bit_of(0x0101_0101_0101_0101u64, i) == (i % 8 == 0),
        bit_of(0x8080_8080_8080_8080u64, i) == (i % 8 == 7),
{
    lemma_order_raw(0, 0, i as u64);
    assert((i as u64) % 8 == i % 8);
}

} // verus!
