//! Dilated integers and Morton (Z-order) codes.
//!
//! A *dilated* integer keeps its bits at every `D`-th position, zeros
//! between. Interleaving `D` of them gives a Morton code, the address space
//! where a `2^n × 2^n` grid's aligned power-of-two blocks are contiguous
//! ranges.
//!
//! Arithmetic on dilated values does not go through `+`: the gaps must be
//! filled with ones so the carry tunnels across them (`((a | !mask) + b) &
//! mask`, Wise & Raman).
use vstd::prelude::*;
use crate::model::{
    bit_of, carries, count_below, group_bits, lemma_bits_eq, lemma_carry_at, lemma_sum_bit, low_mask,
    popcount,
};
use crate::word::{is_pdep, is_pext, Word};

verus! {

broadcast use group_bits;

/// Bits `i, i + d, i + 2d, …` below 64.
pub open spec fn mask_from(d: int, i: int) -> u64
    decreases if i < 64 { 64 - i } else { 0 },
{
    if d < 1 || i < 0 || i >= 64 {
        0
    } else {
        (1u64 << (i as u64)) | mask_from(d, i + d)
    }
}

/// The positions a dilation by `d` occupies: bits `0, d, 2d, …`.
pub open spec fn dilation_mask(d: int) -> u64 {
    mask_from(d, 0)
}

proof fn lemma_mask_from_bits(d: int, i: int)
    requires
        d >= 1,
        0 <= i,
    ensures
        forall|j: int| #[trigger] bit_of(mask_from(d, i), j) == (i <= j < 64 && (j - i) % d == 0),
    decreases if i < 64 { 64 - i } else { 0 },
{
    if i < 64 {
        lemma_mask_from_bits(d, i + d);
        assert(mask_from(d, i) == (1u64 << (i as u64)) | mask_from(d, i + d));
        assert forall|j: int| #[trigger] bit_of(mask_from(d, i), j) == (i <= j < 64 && (j - i) % d == 0) by {
            assert(bit_of(mask_from(d, i), j) == (j == i || bit_of(mask_from(d, i + d), j)));
            if i + d <= j {
                assert((j - i) % d == (j - (i + d)) % d) by {
                    vstd::arithmetic::div_mod::lemma_mod_sub_multiples_vanish(j - i, d);
                }
            } else if i < j {
                assert((j - i) % d != 0) by {
                    vstd::arithmetic::div_mod::lemma_small_mod((j - i) as nat, d as nat);
                    assert(((j - i) as nat) % (d as nat) == (j - i) % d);
                }
            } else if j == i {
                assert(0int % d == 0);
            }
        }
    }
}

/// The bits of the dilation mask.
pub proof fn lemma_dilation_mask(d: int)
    requires
        d >= 1,
    ensures
        forall|j: int| #[trigger] bit_of(dilation_mask(d), j) == (0 <= j < 64 && j % d == 0),
{
    lemma_mask_from_bits(d, 0);
}

/// An integer whose bits sit at positions `0, D, 2D, …` of a word.
#[derive(Clone, Copy, PartialEq, Eq, Debug, Hash)]
pub struct Dilated<const D: u32>(u64);

impl<const D: u32> View for Dilated<D> {
    type V = u64;

    closed spec fn view(&self) -> u64 {
        self.0
    }
}

impl<const D: u32> Dilated<D> {
    #[verifier::type_invariant]
    spec fn inside_mask(self) -> bool {
        D >= 1 && self.0 & !dilation_mask(D as int) == 0
    }

    /// The positions this dilation occupies: bits `0, D, 2D, …`.
    pub fn mask() -> (r: u64)
        requires
            D >= 1,
        ensures
            r == dilation_mask(D as int),
    {
        let mut m: u64 = 0;
        let mut i: u64 = 0;
        proof {
            lemma_dilation_mask(D as int);
        }
        while i < 64
            invariant
                D >= 1,
                i < 64 + D,
                (i as int) % (D as int) == 0,
                forall|j: int| #[trigger] bit_of(m, j) == (0 <= j < i && j < 64 && j % (D as int) == 0),
            decreases 64 + D - i,
        {
            m = m | (1u64 << i);
            proof {
                assert forall|j: int| #[trigger] bit_of(m, j) == (0 <= j < i + D && j < 64 && j % (D as int) == 0) by {
                    if i < j < i + D {
                        assert((j - i) % (D as int) == j % (D as int)) by {
                            vstd::arithmetic::div_mod::lemma_mod_sub_multiples_vanish(j, D as int);
                            vstd::arithmetic::div_mod::lemma_fundamental_div_mod(i as int, D as int);
                            vstd::arithmetic::div_mod::lemma_mod_multiples_vanish(-(i as int / D as int), j, D as int);
                            assert(j + (-(i as int / D as int)) * D == j - i) by (nonlinear_arith)
                                requires
                                    i as int == (D as int) * (i as int / D as int) + i as int % (D as int),
                                    i as int % (D as int) == 0,
                            ;
                        }
                        vstd::arithmetic::div_mod::lemma_small_mod((j - i) as nat, D as nat);
                    }
                }
            }
            i = i + D as u64;
            proof {
                vstd::arithmetic::div_mod::lemma_mod_adds((i - D) as int, D as int, D as int);
                vstd::arithmetic::div_mod::lemma_mod_self_0(D as int);
            }
        }
        proof {
            assert forall|j: int| 0 <= j < 64 implies #[trigger] bit_of(m, j) == bit_of(dilation_mask(D as int), j) by {}
            lemma_bits_eq(m, dilation_mask(D as int));
        }
        m
    }

    /// Number of integer bits that fit: `ceil(BITS / D)`.
    pub fn width() -> (r: u32)
        requires
            D >= 1,
        ensures
            r == (64int + D - 1) / (D as int),
    {
        if 64 % D == 0 {
            proof {
                vstd::arithmetic::div_mod::lemma_fundamental_div_mod(64int, D as int);
                vstd::arithmetic::div_mod::lemma_fundamental_div_mod(64int + D - 1, D as int);
                assert((64int + D - 1) / (D as int) == 64int / (D as int)) by (nonlinear_arith)
                    requires
                        64int % (D as int) == 0,
                        D >= 1,
                        64 == (D as int) * (64int / (D as int)) + 64int % (D as int),
                        64int + D - 1 == (D as int) * ((64int + D - 1) / (D as int)) + (64int + D - 1) % (D as int),
                        0 <= (64int + D - 1) % (D as int) < D,
                ;
            }
            64 / D
        } else {
            proof {
                vstd::arithmetic::div_mod::lemma_fundamental_div_mod(64int, D as int);
                vstd::arithmetic::div_mod::lemma_fundamental_div_mod(64int + D - 1, D as int);
                assert((64int + D - 1) / (D as int) == 64int / (D as int) + 1) by (nonlinear_arith)
                    requires
                        0 < 64int % (D as int) < D,
                        D >= 1,
                        64 == (D as int) * (64int / (D as int)) + 64int % (D as int),
                        64int + D - 1 == (D as int) * ((64int + D - 1) / (D as int)) + (64int + D - 1) % (D as int),
                        0 <= (64int + D - 1) % (D as int) < D,
                ;
                assert(64int / (D as int) <= 64) by (nonlinear_arith)
                    requires
                        D >= 1,
                        64 == (D as int) * (64int / (D as int)) + 64int % (D as int),
                        0 <= 64int % (D as int),
                ;
            }
            64 / D + 1
        }
    }
}


/// `(n + d - 1) / d` grows by one exactly at the multiples of `d`.
proof fn lemma_ceil_step(n: int, d: int)
    requires
        0 <= n,
        d >= 1,
    ensures
        (n + 1 + d - 1) / d == (n + d - 1) / d + if n % d == 0 { 1int } else { 0int },
{
    vstd::arithmetic::div_mod::lemma_fundamental_div_mod(n, d);
    vstd::arithmetic::div_mod::lemma_fundamental_div_mod(n + d - 1, d);
    vstd::arithmetic::div_mod::lemma_fundamental_div_mod(n + d, d);
    let q = n / d;
    let r = n % d;
    if r == 0 {
        vstd::arithmetic::div_mod::lemma_div_multiples_vanish_fancy(q, d - 1, d);
        vstd::arithmetic::div_mod::lemma_div_multiples_vanish_fancy(q + 1, 0, d);
        assert(n + d - 1 == d * q + (d - 1)) by (nonlinear_arith)
            requires
                n == d * q + r,
                r == 0,
        ;
        assert(n + d == d * (q + 1) + 0) by (nonlinear_arith)
            requires
                n == d * q + r,
                r == 0,
        ;
    } else {
        vstd::arithmetic::div_mod::lemma_div_multiples_vanish_fancy(q + 1, r - 1, d);
        vstd::arithmetic::div_mod::lemma_div_multiples_vanish_fancy(q + 1, r, d);
        assert(n + d - 1 == d * (q + 1) + (r - 1)) by (nonlinear_arith)
            requires
                n == d * q + r,
        ;
        assert(n + d == d * (q + 1) + r) by (nonlinear_arith)
            requires
                n == d * q + r,
        ;
    }
}

/// The dilation mask has one bit per multiple of `d` below `n`.
pub proof fn lemma_dilation_count(d: int, n: int)
    requires
        d >= 1,
        0 <= n <= 64,
    ensures
        count_below(dilation_mask(d), n) == (n + d - 1) / d,
    decreases n,
{
    lemma_dilation_mask(d);
    if n == 0 {
        vstd::arithmetic::div_mod::lemma_small_mod((d - 1) as nat, d as nat);
        vstd::arithmetic::div_mod::lemma_fundamental_div_mod(d - 1, d);
        assert((d - 1) / d == 0) by (nonlinear_arith)
            requires
                d - 1 == d * ((d - 1) / d) + (d - 1) % d,
                (d - 1) % d == d - 1,
                d >= 1,
        ;
    } else {
        lemma_dilation_count(d, n - 1);
        lemma_ceil_step(n - 1, d);
    }
}

/// The popcount of the dilation mask is the dilated width.
pub proof fn lemma_dilation_popcount(d: int)
    requires
        d >= 1,
    ensures
        popcount(dilation_mask(d)) == (64 + d - 1) / d,
        popcount(dilation_mask(d)) <= 64,
{
    lemma_dilation_count(d, 64);
    crate::model::lemma_count_below_bounds(dilation_mask(d), 64);
}

/// `c + 1` wrapping at `w` bits.
pub open spec fn succ_within(c: u64, w: int) -> u64 {
    if c == low_mask(w) {
        0
    } else {
        (c + 1) as u64
    }
}

/// `c - 1` wrapping at `w` bits.
pub open spec fn pred_within(c: u64, w: int) -> u64 {
    if c == 0 {
        low_mask(w)
    } else {
        (c - 1) as u64
    }
}

/// A word inside `m` whose compact is all ones below the mask's count is
/// the mask itself.
proof fn lemma_full_compact(s: u64, m: u64, c: u64)
    requires
        s & !m == 0,
        is_pext(s, m, c),
    ensures
        (c == low_mask(popcount(m) as int)) == (s == m),
{
    crate::model::lemma_count_below_bounds(m, 64);
    if s == m {
        assert forall|j: int| 0 <= j < 64 implies #[trigger] bit_of(c, j) == bit_of(low_mask(popcount(m) as int), j) by {
            if j < popcount(m) {
                crate::model::lemma_select_exists(m, 64, j);
                let p = choose|p: int| 0 <= p < 64 && #[trigger] bit_of(m, p) && count_below(m, p) == j;
                assert(bit_of(c, count_below(m, p) as int) == bit_of(s, p));
            }
        }
        lemma_bits_eq(c, low_mask(popcount(m) as int));
    } else {
        assert(exists|q: int| #[trigger] bit_of(m, q) && !bit_of(s, q)) by {
            if forall|q: int| #[trigger] bit_of(m, q) ==> bit_of(s, q) {
                assert forall|q: int| 0 <= q < 64 implies #[trigger] bit_of(s, q) == bit_of(m, q) by {
                    assert(!bit_of(s & !m, q));
                }
                lemma_bits_eq(s, m);
            }
        }
        let q = choose|q: int| #[trigger] bit_of(m, q) && !bit_of(s, q);
        crate::model::lemma_count_below_mono(m, q, 64);
        assert(count_below(m, q + 1) == count_below(m, q) + 1);
        crate::model::lemma_count_below_mono(m, q + 1, 64);
        assert(!bit_of(c, count_below(m, q) as int));
    }
}

/// Subtracting one from a word inside the mask borrows through the gaps:
/// its compact is the compact minus one, wrapping.
pub proof fn lemma_compact_decrement(s: u64, m: u64, c: u64)
    requires
        s & !m == 0,
        is_pext(s, m, c),
    ensures
        is_pext(((if s == 0 { 0xffff_ffff_ffff_ffffu64 } else { (s - 1) as u64 }) & m), m, pred_within(c, popcount(m) as int)),
{
    crate::model::lemma_count_below_bounds(m, 64);
    let pm = popcount(m) as int;
    if s == 0 {
        assert forall|j: int| 0 <= j < 64 implies #[trigger] bit_of(c, j) == bit_of(0u64, j) by {
            if j < pm {
                crate::model::lemma_select_exists(m, 64, j);
                let p = choose|p: int| 0 <= p < 64 && #[trigger] bit_of(m, p) && count_below(m, p) == j;
                assert(bit_of(c, count_below(m, p) as int) == bit_of(s, p));
            }
        }
        lemma_bits_eq(c, 0);
        assert(0xffff_ffff_ffff_ffffu64 & m == m) by {
            assert forall|j: int| 0 <= j < 64 implies #[trigger] bit_of(0xffff_ffff_ffff_ffffu64 & m, j) == bit_of(m, j) by {}
            lemma_bits_eq(0xffff_ffff_ffff_ffffu64 & m, m);
        }
        assert forall|q: int| #[trigger] bit_of(m, q) implies bit_of(low_mask(pm), count_below(m, q) as int) == bit_of(m, q) by {
            crate::model::lemma_count_below_mono(m, q, 64);
            assert(count_below(m, q + 1) == count_below(m, q) + 1);
            crate::model::lemma_count_below_mono(m, q + 1, 64);
        }
    } else {
        crate::model::lemma_tz(s);
        let t = crate::model::tz(s);
        assert(bit_of(m, t)) by {
            assert(!bit_of(s & !m, t));
        }
        crate::model::lemma_sub_one_bits(s);
        let k = count_below(m, t) as int;
        crate::model::lemma_count_below_mono(m, t, 64);
        assert(count_below(m, t + 1) == count_below(m, t) + 1);
        crate::model::lemma_count_below_mono(m, t + 1, 64);
        assert(bit_of(c, k));
        assert forall|j: int| 0 <= j < k implies !#[trigger] bit_of(c, j) by {
            crate::model::lemma_select_exists(m, t, j);
            let p = choose|p: int| 0 <= p < t && #[trigger] bit_of(m, p) && count_below(m, p) == j;
            assert(bit_of(c, count_below(m, p) as int) == bit_of(s, p));
        }
        assert(c != 0) by {
            assert(!bit_of(0u64, k));
        }
        crate::model::lemma_tz(c);
        assert(crate::model::tz(c) == k) by {
            if crate::model::tz(c) < k {
                assert(!bit_of(c, crate::model::tz(c)));
            }
        }
        crate::model::lemma_sub_one_bits(c);
        let y = ((s - 1) as u64) & m;
        let c1 = (c - 1) as u64;
        assert forall|q: int| #[trigger] bit_of(m, q) implies bit_of(c1, count_below(m, q) as int) == bit_of(y, q) by {
            if q < t {
                crate::model::lemma_count_below_mono(m, q, t);
            } else if q > t {
                crate::model::lemma_count_below_mono(m, t + 1, q);
                assert(bit_of(c, count_below(m, q) as int) == bit_of(s, q));
            }
        }
        assert forall|j: int| pm <= j implies !#[trigger] bit_of(c1, j) by {
            if j >= k {
                assert(!bit_of(c, j));
            }
        }
    }
}

/// Adding through filled gaps is adding the compacts.
pub proof fn lemma_compact_add(s: u64, o: u64, m: u64, a: u64, b: u64)
    requires
        s & !m == 0,
        o & !m == 0,
        is_pext(s, m, a),
        is_pext(o, m, b),
    ensures
        is_pext((((s | !m) + o) as u64) & m, m, ((a + b) as u64) & low_mask(popcount(m) as int)),
{
    let x = s | !m;
    let c = carries(x, o);
    let ca = carries(a, b);
    crate::model::lemma_count_below_bounds(m, 64);
    assert forall|p: int| 0 <= p < 64 implies #[trigger] bit_of(c, p) == bit_of(ca, count_below(m, p) as int) by {
        lemma_carry_prefix(s, o, m, a, b, p);
    }
    let r = (((s | !m) + o) as u64) & m;
    let pm = popcount(m) as int;
    assert forall|q: int| #[trigger] bit_of(m, q) implies bit_of(((a + b) as u64) & low_mask(pm), count_below(m, q) as int) == bit_of(r, q) by {
        let k = count_below(m, q) as int;
        crate::model::lemma_count_below_mono(m, q, 64);
        assert(count_below(m, q + 1) == count_below(m, q) + 1);
        crate::model::lemma_count_below_mono(m, q + 1, 64);
        lemma_sum_bit(x, o, q);
        lemma_sum_bit(a, b, k);
        assert(bit_of(a, k) == bit_of(s, q));
        assert(bit_of(b, k) == bit_of(o, q));
    }
}

proof fn lemma_carry_prefix(s: u64, o: u64, m: u64, a: u64, b: u64, p: int)
    requires
        s & !m == 0,
        o & !m == 0,
        is_pext(s, m, a),
        is_pext(o, m, b),
        0 <= p < 64,
    ensures
        bit_of(carries(s | !m, o), p) == bit_of(carries(a, b), count_below(m, p) as int),
    decreases p,
{
    let x = s | !m;
    if p == 0 {
        lemma_carry_at(x, o, 0);
        lemma_carry_at(a, b, 0);
    } else {
        lemma_carry_prefix(s, o, m, a, b, p - 1);
        lemma_carry_at(x, o, p - 1);
        let k = count_below(m, p - 1) as int;
        crate::model::lemma_count_below_bounds(m, p - 1);
        if bit_of(m, p - 1) {
            lemma_carry_at(a, b, k);
            assert(bit_of(a, k) == bit_of(s, p - 1));
            assert(bit_of(b, k) == bit_of(o, p - 1));
        } else {
            assert(!bit_of(o & !m, p - 1));
        }
    }
}

impl<const D: u32> Dilated<D> {
    /// Dilates a plain integer. Bits above [`width`](Self::width) are
    /// dropped.
    pub fn from_int(x: u64) -> (r: Self)
        requires
            D >= 1,
        ensures
            is_pdep(x, dilation_mask(D as int), r@),
    {
        let m = Self::mask();
        let d = Word::pdep(x, m);
        proof {
            assert forall|i: int| 0 <= i < 64 implies #[trigger] bit_of(d & !m, i) == bit_of(0u64, i) by {}
            lemma_bits_eq(d & !m, 0);
        }
        Dilated(d)
    }

    /// Undoes [`from_int`](Self::from_int).
    pub fn into_int(self) -> (r: u64)
        ensures
            is_pext(self@, dilation_mask(D as int), r),
    {
        proof {
            use_type_invariant(&self);
        }
        Word::pext(self.0, Self::mask())
    }

    /// Wraps an already-dilated bit pattern; bits outside the mask must be
    /// zero.
    pub fn from_bits(bits: u64) -> (r: Self)
        requires
            D >= 1,
            bits & !dilation_mask(D as int) == 0,
        ensures
            r@ == bits,
    {
        Dilated(bits)
    }

    /// The raw dilated bit pattern.
    pub fn bits(self) -> (r: u64)
        ensures
            r == self@,
            r & !dilation_mask(D as int) == 0,
    {
        proof {
            use_type_invariant(&self);
        }
        self.0
    }

    /// `self + 1` in dilated space, wrapping at [`width`](Self::width) bits:
    /// fill the gaps with ones so the carry tunnels through them.
    pub fn incr(self) -> (r: Self)
        ensures
            forall|c: u64| #[trigger] is_pext(self@, dilation_mask(D as int), c) ==> is_pext(
                r@,
                dilation_mask(D as int),
                succ_within(c, popcount(dilation_mask(D as int)) as int),
            ),
    {
        proof {
            use_type_invariant(&self);
        }
        let m = Self::mask();
        let s = self.0;
        let z = s | !m;
        let y = z.wrapping_add(1) & m;
        proof {
            assert forall|c: u64| #[trigger] is_pext(s, m, c) implies is_pext(y, m, succ_within(c, popcount(m) as int)) by {
                lemma_full_compact(s, m, c);
                if s == m {
                    assert(z == 0xffff_ffff_ffff_ffffu64) by {
                        assert forall|i: int| 0 <= i < 64 implies #[trigger] bit_of(z, i) == bit_of(0xffff_ffff_ffff_ffffu64, i) by {}
                        lemma_bits_eq(z, 0xffff_ffff_ffff_ffffu64);
                    }
                    assert(y == 0u64 & m);
                    assert forall|q: int| #[trigger] bit_of(m, q) implies bit_of(0u64, count_below(m, q) as int) == bit_of(y, q) by {}
                } else {
                    crate::word::lemma_compact_increment(s, m, c);
                }
            }
            assert forall|i: int| 0 <= i < 64 implies #[trigger] bit_of(y & !m, i) == bit_of(0u64, i) by {}
            lemma_bits_eq(y & !m, 0);
        }
        Dilated(y)
    }

    /// `self - 1` in dilated space, wrapping: the borrow tunnels through the
    /// zero gaps on its own.
    pub fn decr(self) -> (r: Self)
        ensures
            forall|c: u64| #[trigger] is_pext(self@, dilation_mask(D as int), c) ==> is_pext(
                r@,
                dilation_mask(D as int),
                pred_within(c, popcount(dilation_mask(D as int)) as int),
            ),
    {
        proof {
            use_type_invariant(&self);
        }
        let m = Self::mask();
        let y = self.0.wrapping_sub(1) & m;
        proof {
            assert forall|c: u64| #[trigger] is_pext(self.0, m, c) implies is_pext(y, m, pred_within(c, popcount(m) as int)) by {
                lemma_compact_decrement(self.0, m, c);
            }
            assert forall|i: int| 0 <= i < 64 implies #[trigger] bit_of(y & !m, i) == bit_of(0u64, i) by {}
            lemma_bits_eq(y & !m, 0);
        }
        Dilated(y)
    }

    /// `self + other` in dilated space, wrapping.
    pub fn wrapping_add(self, other: Self) -> (r: Self)
        ensures
            forall|a: u64, b: u64|
                #[trigger] is_pext(self@, dilation_mask(D as int), a) && #[trigger] is_pext(
                    other@,
                    dilation_mask(D as int),
                    b,
                ) ==> is_pext(
                    r@,
                    dilation_mask(D as int),
                    ((a + b) as u64) & low_mask(popcount(dilation_mask(D as int)) as int),
                ),
    {
        proof {
            use_type_invariant(&self);
            use_type_invariant(&other);
        }
        let m = Self::mask();
        let sum = (self.0 | !m).wrapping_add(other.0);
        let y = sum & m;
        proof {
            crate::model::lemma_wrapping_add_is_truncation(self.0 | !m, other.0, sum);
            assert forall|a: u64, b: u64| #[trigger] is_pext(self.0, m, a) && #[trigger] is_pext(other.0, m, b)
                implies is_pext(y, m, ((a + b) as u64) & low_mask(popcount(m) as int)) by {
                lemma_compact_add(self.0, other.0, m, a, b);
            }
            assert forall|i: int| 0 <= i < 64 implies #[trigger] bit_of(y & !m, i) == bit_of(0u64, i) by {}
            lemma_bits_eq(y & !m, 0);
        }
        Dilated(y)
    }
}


/// Positions `k·d` of the dilation mask count `k` set bits below them.
pub proof fn lemma_dilation_rank(d: int, k: int)
    requires
        d >= 1,
        0 <= k,
        k * d < 64,
    ensures
        bit_of(dilation_mask(d), k * d),
        count_below(dilation_mask(d), k * d) == k,
{
    lemma_dilation_mask(d);
    vstd::arithmetic::div_mod::lemma_mod_multiples_basic(k, d);
    lemma_dilation_count(d, k * d);
    assert((k * d + d - 1) / d == k) by {
        vstd::arithmetic::div_mod::lemma_div_multiples_vanish_fancy(k, d - 1, d);
        assert(k * d + d - 1 == d * k + (d - 1)) by (nonlinear_arith);
    }
}

/// A 2D Morton code: `x` dilated by 2 in the even bits, `y` in the odd.
#[derive(Clone, Copy, PartialEq, Eq, Structural, Debug, Hash, PartialOrd, Ord)]
pub struct Morton2(u64);

impl View for Morton2 {
    type V = u64;

    closed spec fn view(&self) -> u64 {
        self.0
    }
}

/// The code interleaves `x` in the even bits and `y` in the odd bits.
pub open spec fn interleaves2(code: u64, x: u64, y: u64) -> bool {
    forall|i: int|
        0 <= i < 32 ==> #[trigger] bit_of(code, 2 * i) == bit_of(x, i) && bit_of(code, 2 * i + 1)
            == bit_of(y, i)
}

/// `v` holds bits `off, off + d, off + 2d, …` of `code` in its low bits.
pub open spec fn strided(code: u64, v: u64, d: int, off: int) -> bool {
    forall|i: int| 0 <= i < 64 ==> #[trigger] bit_of(v, i) == (i * d + off < 64 && bit_of(code, i * d + off))
}

impl Morton2 {
    /// Interleaves `x` (even bits) and `y` (odd bits). Coordinates above
    /// `BITS / 2` bits are dropped.
    pub fn encode(x: u64, y: u64) -> (r: Morton2)
        ensures
            interleaves2(r@, x, y),
    {
        let xd = Dilated::<2>::from_int(x).bits();
        let yd = Dilated::<2>::from_int(y).bits();
        let code = xd | (yd << 1u32);
        proof {
            lemma_dilation_mask(2);
            assert forall|i: int| 0 <= i < 32 implies #[trigger] bit_of(code, 2 * i) == bit_of(x, i) && bit_of(code, 2 * i + 1) == bit_of(y, i) by {
                lemma_dilation_rank(2, i);
                assert(!bit_of(dilation_mask(2), 2 * i + 1)) by {
                    vstd::arithmetic::div_mod::lemma_mod_multiples_vanish(i, 1, 2);
                }
                assert(bit_of(yd << 1u64, 2 * i + 1) == bit_of(yd, 2 * i));
                if i > 0 {
                    assert(!bit_of(dilation_mask(2), 2 * i - 1)) by {
                        vstd::arithmetic::div_mod::lemma_mod_multiples_vanish(i - 1, 1, 2);
                    }
                    assert(bit_of(yd << 1u64, 2 * i) == bit_of(yd, 2 * i - 1));
                }
            }
        }
        Morton2(code)
    }

    /// Splits the code back into `(x, y)`.
    pub fn decode(self) -> (r: (u64, u64))
        ensures
            strided(self@, r.0, 2, 0),
            strided(self@, r.1, 2, 1),
    {
        let x = self.x().into_int();
        let y = self.y().into_int();
        proof {
            lemma_even_odd(self.0, x, y);
        }
        (x, y)
    }

    /// Wraps an existing code.
    pub fn from_code(code: u64) -> (r: Morton2)
        ensures
            r@ == code,
    {
        Morton2(code)
    }

    /// The raw code.
    pub fn code(self) -> (r: u64)
        ensures
            r == self@,
    {
        self.0
    }

    /// The `x` coordinate, still dilated (for arithmetic in place).
    pub fn x(self) -> (r: Dilated<2>)
        ensures
            r@ == self@ & dilation_mask(2),
    {
        let m = Dilated::<2>::mask();
        proof {
            assert forall|i: int| 0 <= i < 64 implies #[trigger] bit_of((self.0 & m) & !m, i) == bit_of(0u64, i) by {}
            lemma_bits_eq((self.0 & m) & !m, 0);
        }
        Dilated::from_bits(self.0 & m)
    }

    /// The `y` coordinate, still dilated.
    pub fn y(self) -> (r: Dilated<2>)
        ensures
            r@ == (self@ >> 1u64) & dilation_mask(2),
    {
        let m = Dilated::<2>::mask();
        let v = (self.0 >> 1u32) & m;
        proof {
            assert forall|i: int| 0 <= i < 64 implies #[trigger] bit_of(v & !m, i) == bit_of(0u64, i) by {}
            lemma_bits_eq(v & !m, 0);
        }
        Dilated::from_bits(v)
    }

    /// Replaces the `x` coordinate.
    pub fn with_x(self, x: Dilated<2>) -> (r: Morton2)
        ensures
            r@ == (self@ & !dilation_mask(2)) | x@,
    {
        Morton2((self.0 & !Dilated::<2>::mask()) | x.bits())
    }

    /// Replaces the `y` coordinate.
    pub fn with_y(self, y: Dilated<2>) -> (r: Morton2)
        ensures
            r@ == (self@ & dilation_mask(2)) | (y@ << 1u64),
    {
        Morton2((self.0 & Dilated::<2>::mask()) | (y.bits() << 1u32))
    }

    /// The code of `(x + 1, y)`, wrapping.
    pub fn step_x(self) -> (r: Morton2)
        ensures
            forall|i: int| 0 <= i < 32 ==> #[trigger] bit_of(r@, 2 * i + 1) == bit_of(self@, 2 * i + 1),
            forall|c: u64| #[trigger] is_pext(self@ & dilation_mask(2), dilation_mask(2), c) ==> is_pext(
                r@ & dilation_mask(2),
                dilation_mask(2),
                succ_within(c, 32),
            ),
    {
        let x = self.x();
        let nx = x.incr();
        let r = self.with_x(nx);
        proof {
            lemma_dilation_mask(2);
            lemma_dilation_popcount(2);
            let m = dilation_mask(2);
            let b = nx@;
            use_type_invariant(&nx);
            assert forall|i: int| 0 <= i < 32 implies #[trigger] bit_of(r.0, 2 * i + 1) == bit_of(self.0, 2 * i + 1) by {
                assert(!bit_of(m, 2 * i + 1)) by {
                    vstd::arithmetic::div_mod::lemma_mod_multiples_vanish(i, 1, 2);
                }
                assert(!bit_of(b & !m, 2 * i + 1));
            }
            assert forall|i: int| 0 <= i < 64 implies #[trigger] bit_of(r.0 & m, i) == bit_of(b, i) by {
                assert(!bit_of(b & !m, i));
            }
            lemma_bits_eq(r.0 & m, b);
        }
        r
    }

    /// The code of `(x, y + 1)`, wrapping.
    pub fn step_y(self) -> (r: Morton2)
        ensures
            forall|i: int| 0 <= i < 32 ==> #[trigger] bit_of(r@, 2 * i) == bit_of(self@, 2 * i),
            forall|c: u64| #[trigger] is_pext((self@ >> 1u64) & dilation_mask(2), dilation_mask(2), c) ==> is_pext(
                (r@ >> 1u64) & dilation_mask(2),
                dilation_mask(2),
                succ_within(c, 32),
            ),
    {
        let y = self.y();
        let ny = y.incr();
        let r = self.with_y(ny);
        proof {
            lemma_dilation_mask(2);
            lemma_dilation_popcount(2);
            let m = dilation_mask(2);
            let b = ny@;
            use_type_invariant(&ny);
            assert forall|i: int| 0 <= i < 32 implies #[trigger] bit_of(r.0, 2 * i) == bit_of(self.0, 2 * i) by {
                lemma_dilation_rank(2, i);
                if i > 0 {
                    assert(!bit_of(m, 2 * i - 1)) by {
                        vstd::arithmetic::div_mod::lemma_mod_multiples_vanish(i - 1, 1, 2);
                    }
                    assert(!bit_of(b & !m, 2 * i - 1));
                }
            }
            assert forall|i: int| 0 <= i < 64 implies #[trigger] bit_of((r.0 >> 1u64) & m, i) == bit_of(b, i) by {
                assert(!bit_of(b & !m, i));
                if bit_of(m, i) {
                    assert(!bit_of(m, i + 1)) by {
                        vstd::arithmetic::div_mod::lemma_mod_adds(i, 1, 2);
                    }
                }
            }
            lemma_bits_eq((r.0 >> 1u64) & m, b);
        }
        r
    }
}

/// Compacting the even bits, and the odd bits shifted down, strides the
/// code by two.
proof fn lemma_even_odd(code: u64, x: u64, y: u64)
    requires
        is_pext(code & dilation_mask(2), dilation_mask(2), x),
        is_pext((code >> 1u64) & dilation_mask(2), dilation_mask(2), y),
    ensures
        strided(code, x, 2, 0),
        strided(code, y, 2, 1),
{
    lemma_dilation_mask(2);
    lemma_dilation_popcount(2);
    assert forall|i: int| 0 <= i < 64 implies #[trigger] bit_of(x, i) == (i * 2 + 0 < 64 && bit_of(code, i * 2 + 0)) by {
        if i < 32 {
            lemma_dilation_rank(2, i);
            assert(bit_of(x, count_below(dilation_mask(2), i * 2) as int) == bit_of(code & dilation_mask(2), i * 2));
        }
    }
    assert forall|i: int| 0 <= i < 64 implies #[trigger] bit_of(y, i) == (i * 2 + 1 < 64 && bit_of(code, i * 2 + 1)) by {
        if i < 32 {
            lemma_dilation_rank(2, i);
            assert(bit_of(y, count_below(dilation_mask(2), i * 2) as int) == bit_of((code >> 1u64) & dilation_mask(2), i * 2));
        }
    }
}

/// A 3D Morton code: `x` dilated by 3 in bits `0, 3, 6, …`, `y` in
/// `1, 4, 7, …`, `z` in `2, 5, 8, …`; the top bit is unused.
#[derive(Clone, Copy, PartialEq, Eq, Structural, Debug, Hash, PartialOrd, Ord)]
pub struct Morton3(u64);

impl View for Morton3 {
    type V = u64;

    closed spec fn view(&self) -> u64 {
        self.0
    }
}

/// The code interleaves the low 21 bits of `x`, `y` and `z` by threes.
pub open spec fn interleaves3(code: u64, x: u64, y: u64, z: u64) -> bool {
    &&& forall|i: int|
        0 <= i < 21 ==> #[trigger] bit_of(code, 3 * i) == bit_of(x, i) && bit_of(code, 3 * i + 1)
            == bit_of(y, i) && bit_of(code, 3 * i + 2) == bit_of(z, i)
    &&& !bit_of(code, 63)
}

impl Morton3 {
    /// Interleaves three coordinates. Bits above `BITS / 3` are dropped.
    pub fn encode(x: u64, y: u64, z: u64) -> (r: Morton3)
        ensures
            interleaves3(r@, x, y, z),
    {
        let side = <u64 as Word>::low_ones(21);
        let dx = Dilated::<3>::from_int(x & side).bits();
        let dy = Dilated::<3>::from_int(y & side).bits();
        let dz = Dilated::<3>::from_int(z & side).bits();
        let code = dx | (dy << 1u32) | (dz << 2u32);
        proof {
            lemma_dilation_mask(3);
            lemma_dilation_rank(3, 21);
            assert forall|i: int| 0 <= i < 21 implies #[trigger] bit_of(code, 3 * i) == bit_of(x, i) && bit_of(code, 3 * i + 1) == bit_of(y, i) && bit_of(code, 3 * i + 2) == bit_of(z, i) by {
                lemma_dilation_rank(3, i);
                lemma_not_lane3(i, 1);
                lemma_not_lane3(i, 2);
                if i > 0 {
                    lemma_not_lane3(i - 1, 1);
                    lemma_not_lane3(i - 1, 2);
                }
                assert(bit_of(dy << 1u64, 3 * i + 1) == bit_of(dy, 3 * i));
                assert(bit_of(dz << 2u64, 3 * i + 2) == bit_of(dz, 3 * i));
            }
            lemma_not_lane3(20, 1);
            lemma_not_lane3(20, 2);
        }
        Morton3(code)
    }

    /// Splits the code back into `(x, y, z)`.
    pub fn decode(self) -> (r: (u64, u64, u64))
        ensures
            strided(self@, r.0, 3, 0),
            strided(self@, r.1, 3, 1),
            strided(self@, r.2, 3, 2),
    {
        let lane = Dilated::<3>::mask();
        let a = self.0 & lane;
        let b = (self.0 >> 1u32) & lane;
        let c = (self.0 >> 2u32) & lane;
        proof {
            assert forall|i: int| 0 <= i < 64 implies #[trigger] bit_of(a & !lane, i) == bit_of(0u64, i) by {}
            lemma_bits_eq(a & !lane, 0);
            assert forall|i: int| 0 <= i < 64 implies #[trigger] bit_of(b & !lane, i) == bit_of(0u64, i) by {}
            lemma_bits_eq(b & !lane, 0);
            assert forall|i: int| 0 <= i < 64 implies #[trigger] bit_of(c & !lane, i) == bit_of(0u64, i) by {}
            lemma_bits_eq(c & !lane, 0);
        }
        let x = Dilated::<3>::from_bits(a).into_int();
        let y = Dilated::<3>::from_bits(b).into_int();
        let z = Dilated::<3>::from_bits(c).into_int();
        proof {
            assert forall|i: int| 0 <= i < 64 implies #[trigger] bit_of(self.0 >> 0u64, i) == bit_of(self.0, i) by {}
            lemma_bits_eq(self.0 >> 0u64, self.0);
            lemma_lanes3(self.0, x, a, 0);
            lemma_lanes3(self.0, y, b, 1);
            lemma_lanes3(self.0, z, c, 2);
        }
        (x, y, z)
    }

    /// Wraps an existing code.
    pub fn from_code(code: u64) -> (r: Morton3)
        ensures
            r@ == code,
    {
        Morton3(code)
    }

    /// The raw code.
    pub fn code(self) -> (r: u64)
        ensures
            r == self@,
    {
        self.0
    }
}

proof fn lemma_not_lane3(i: int, off: int)
    requires
        0 <= i,
        1 <= off <= 2,
    ensures
        !bit_of(dilation_mask(3), 3 * i + off),
{
    lemma_dilation_mask(3);
    vstd::arithmetic::div_mod::lemma_mod_multiples_vanish(i, off, 3);
}

proof fn lemma_lanes3(code: u64, v: u64, lanebits: u64, off: int)
    requires
        0 <= off < 3,
        lanebits == (code >> (off as u64)) & dilation_mask(3),
        is_pext(lanebits, dilation_mask(3), v),
    ensures
        strided(code, v, 3, off),
{
    lemma_dilation_mask(3);
    lemma_dilation_popcount(3);
    assert forall|i: int| 0 <= i < 64 implies #[trigger] bit_of(v, i) == (i * 3 + off < 64 && bit_of(code, i * 3 + off)) by {
        if i < 22 {
            lemma_dilation_rank(3, i);
            assert(bit_of(v, count_below(dilation_mask(3), i * 3) as int) == bit_of(lanebits, i * 3));
        }
    }
}


impl Morton2 {
    /// [`encode`](Self::encode) over two columns of coordinates: `out[i]` is
    /// the code of `(xs[i], ys[i])`. The three slices are as long.
    pub fn encode_columns(xs: &[u64], ys: &[u64], out: &mut [u64])
        requires
            xs@.len() == old(out)@.len(),
            ys@.len() == old(out)@.len(),
        ensures
            final(out)@.len() == old(out)@.len(),
            forall|i: int| 0 <= i < final(out)@.len() ==> interleaves2(#[trigger] final(out)@[i], xs@[i], ys@[i]),
    {
        let n = out.len();
        let mut i: usize = 0;
        while i < n
            invariant
                n == out@.len(),
                xs@.len() == n,
                ys@.len() == n,
                i <= n,
                forall|j: int| 0 <= j < i ==> interleaves2(#[trigger] out@[j], xs@[j], ys@[j]),
            decreases n - i,
        {
            out[i] = Self::encode(xs[i], ys[i]).code();
            i = i + 1;
        }
    }

    /// [`decode`](Self::decode) of a column of codes into two columns of
    /// coordinates, the inverse of [`encode_columns`](Self::encode_columns).
    pub fn decode_columns(codes: &[u64], xs: &mut [u64], ys: &mut [u64])
        requires
            old(xs)@.len() == codes@.len(),
            old(ys)@.len() == codes@.len(),
        ensures
            final(xs)@.len() == codes@.len(),
            final(ys)@.len() == codes@.len(),
            forall|i: int| 0 <= i < codes@.len() ==> strided(codes@[i], #[trigger] final(xs)@[i], 2, 0),
            forall|i: int| 0 <= i < codes@.len() ==> strided(codes@[i], #[trigger] final(ys)@[i], 2, 1),
    {
        let n = codes.len();
        let mut i: usize = 0;
        while i < n
            invariant
                n == codes@.len(),
                xs@.len() == n,
                ys@.len() == n,
                i <= n,
                forall|j: int| 0 <= j < i ==> strided(codes@[j], #[trigger] xs@[j], 2, 0),
                forall|j: int| 0 <= j < i ==> strided(codes@[j], #[trigger] ys@[j], 2, 1),
            decreases n - i,
        {
            let (x, y) = Self::from_code(codes[i]).decode();
            xs[i] = x;
            ys[i] = y;
            i = i + 1;
        }
    }
}



/// Morton codes are their bit patterns.
pub proof fn lemma_morton2_view_eq(a: Morton2, b: Morton2)
    requires
        a@ == b@,
    ensures
        a == b,
{
}

} // verus!
