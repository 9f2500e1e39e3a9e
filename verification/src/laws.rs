//! The algebra's laws as exported property functions.
//!
//! Each function returns `true` when the law holds for its inputs, and its
//! contract says that it always does: the law is proved, for every input
//! in its domain, from the contracts of the functions it relates.
use vstd::prelude::*;
use crate::bits::{run_at, Bits};
use crate::fill::reach;
use crate::model::{
    lemma_count_below_none_above,
    bit_of, count_below, group_bits, lemma_bits_eq, lemma_count_below_bounds,
    lemma_count_below_mono, lemma_select_exists, lemma_select_unique, lemma_top_bit, lemma_tz,
    low_mask, parity_below, popcount, top_bit, tz,
};
use crate::word::{is_pdep, is_pext, Word};
use crate::swar::{lane, lane_sum};
use crate::rank9::Rank9;
use crate::grid::{block_at, block_starts};
use crate::permute::{
    attacked, cell, delta_of, flip_vertical, lemma_slide_attacks, mirror_horizontal, on_board, rotate_180, rotate_90_ccw,
    rotate_90_cw, slide, square, step_of, transpose, Dir,
};
use crate::slice::{sbit, srank, srun, words_pop, Words};
use crate::hilbert::{cell_x, cell_y, Hilbert2};
use crate::dilated::{
    dilation_mask, interleaves2, lemma_dilation_popcount, pred_within, succ_within, Dilated, Morton2,
};
use vstd::arithmetic::power2::pow2;

pub mod reference;

verus! {

broadcast use group_bits;

/// The compact of `x` under `m` is one word.
pub proof fn lemma_pext_unique(x: u64, m: u64, a: u64, b: u64)
    requires
        is_pext(x, m, a),
        is_pext(x, m, b),
    ensures
        a == b,
{
    assert forall|j: int| 0 <= j < 64 implies #[trigger] bit_of(a, j) == bit_of(b, j) by {
        if j < popcount(m) {
            lemma_select_exists(m, 64, j);
            let p = choose|p: int| 0 <= p < 64 && #[trigger] bit_of(m, p) && count_below(m, p) == j;
            assert(bit_of(a, count_below(m, p) as int) == bit_of(x, p));
        }
    }
    lemma_bits_eq(a, b);
}

/// The deposit of `x` into `m` is one word.
pub proof fn lemma_pdep_unique(x: u64, m: u64, a: u64, b: u64)
    requires
        is_pdep(x, m, a),
        is_pdep(x, m, b),
    ensures
        a == b,
{
    assert forall|i: int| 0 <= i < 64 implies #[trigger] bit_of(a, i) == bit_of(b, i) by {}
    lemma_bits_eq(a, b);
}

// --- runs -------------------------------------------------------------

/// `run_starts(1)` is the identity.
pub fn run_starts_one_is_identity(x: u64) -> (r: bool)
    ensures
        r,
{
    let y = x.run_starts(1);
    proof {
        assert forall|p: int| 0 <= p < 64 implies #[trigger] bit_of(y, p) == bit_of(x, p) by {
            assert(run_at(x, p, 1) == bit_of(x, p));
        }
        lemma_bits_eq(y, x);
    }
    y == x
}

/// Starts of `k + 1`-runs are a subset of starts of `k`-runs. `k` in
/// `1..BITS`.
pub fn run_starts_shrinks(x: u64, k: u32) -> (r: bool)
    requires
        1 <= k < 64,
    ensures
        r,
{
    let longer = x.run_starts(k + 1);
    let shorter = x.run_starts(k);
    proof {
        assert forall|p: int| 0 <= p < 64 implies #[trigger] bit_of(longer & shorter, p) == bit_of(longer, p) by {
            if run_at(x, p, k + 1) {
                crate::bits::lemma_run_shorter(x, p, k + 1, k as int);
            }
        }
        lemma_bits_eq(longer & shorter, longer);
    }
    longer & shorter == longer
}

/// `run_starts` agrees with the per-bit definition.
pub fn run_starts_matches_reference(x: u64, k: u32) -> (r: bool)
    ensures
        r,
{
    let a = x.run_starts(k);
    let b = reference::run_starts(x, k);
    proof {
        lemma_bits_eq(a, b);
    }
    a == b
}

/// Run detection preserves meets: a window is all set in `x & y` iff it is
/// all set in both.
pub fn run_starts_preserves_and(x: u64, y: u64, k: u32) -> (r: bool)
    ensures
        r,
{
    let a = (x & y).run_starts(k);
    let b = x.run_starts(k) & y.run_starts(k);
    proof {
        assert forall|p: int| 0 <= p < 64 implies #[trigger] bit_of(a, p) == bit_of(b, p) by {
            assert(run_at(x & y, p, k as int) == (run_at(x, p, k as int) && run_at(y, p, k as int))) by {
                if run_at(x, p, k as int) && run_at(y, p, k as int) {
                    assert forall|c: int| p <= c < p + k implies #[trigger] bit_of(x & y, c) by {
                        assert(bit_of(x, c) && bit_of(y, c));
                    }
                }
                if run_at(x & y, p, k as int) {
                    assert forall|c: int| p <= c < p + k implies #[trigger] bit_of(x, c) by {
                        assert(bit_of(x & y, c));
                    }
                    assert forall|c: int| p <= c < p + k implies #[trigger] bit_of(y, c) by {
                        assert(bit_of(x & y, c));
                    }
                }
            }
        }
        lemma_bits_eq(a, b);
    }
    a == b
}

// --- scan -------------------------------------------------------------

/// `delta_xor` undoes `prefix_xor`.
pub fn delta_after_prefix_xor_is_identity(x: u64) -> (r: bool)
    ensures
        r,
{
    let y = x.prefix_xor().delta_xor();
    proof {
        assert forall|i: int| 0 <= i < 64 implies #[trigger] bit_of(y, i) == bit_of(x, i) by {
            assert(parity_below(x, i + 1) == (parity_below(x, i) != bit_of(x, i)));
        }
        lemma_bits_eq(y, x);
    }
    y == x
}

/// `prefix_xor` agrees with the per-bit definition.
pub fn prefix_xor_matches_reference(x: u64) -> (r: bool)
    ensures
        r,
{
    let a = x.prefix_xor();
    let b = reference::prefix_xor(x);
    proof {
        lemma_bits_eq(a, b);
    }
    a == b
}

/// `prefix_or` is all ones from the lowest set bit upward.
pub fn prefix_or_is_smear_from_first_set(x: u64) -> (r: bool)
    ensures
        r,
{
    let expect = match x.first_set() {
        None => 0u64,
        Some(p) => 0xffff_ffff_ffff_ffffu64 << p,
    };
    let got = x.prefix_or();
    proof {
        lemma_tz(x);
        assert forall|i: int| 0 <= i < 64 implies #[trigger] bit_of(got, i) == bit_of(expect, i) by {}
        lemma_bits_eq(got, expect);
    }
    got == expect
}

// --- set view ---------------------------------------------------------

/// `rank` is monotone in its bound. `i` in `0..BITS`.
pub fn rank_is_monotone(x: u64, i: u32) -> (r: bool)
    requires
        i < 64,
    ensures
        r,
{
    proof {
        lemma_count_below_mono(x, i as int, i + 1);
    }
    x.rank(i) <= x.rank(i + 1)
}

/// `rank(BITS)` is the popcount.
pub fn rank_full_is_popcount(x: u64) -> (r: bool)
    ensures
        r,
{
    x.rank(64) == Word::count_ones(x)
}

/// `first_set` and `last_set` bracket every set bit.
pub fn first_last_bracket_set_bits(x: u64) -> (r: bool)
    ensures
        r,
{
    proof {
        lemma_tz(x);
        lemma_top_bit(x);
    }
    match (x.first_set(), x.last_set()) {
        (None, None) => x == 0,
        (Some(lo), Some(hi)) => {
            proof {
                crate::model::lemma_count_below_zero(x, lo as int);
                crate::model::lemma_count_below_none_above(x, hi + 1, 64);
            }
            lo <= hi && x.rank(lo) == 0 && x.rank(hi + 1) == Word::count_ones(x)
        },
        _ => false,
    }
}

/// `select(k)` lands on a set bit whose rank is `k`; `None` exactly when
/// `k >= popcount`.
pub fn select_is_rank_inverse(x: u64, k: u32) -> (r: bool)
    ensures
        r,
{
    match x.select(k) {
        None => k >= Word::count_ones(x),
        Some(p) => k < Word::count_ones(x) && x.bit(p) && x.rank(p) == k,
    }
}

/// `select` agrees with the per-bit definition.
pub fn select_matches_reference(x: u64, k: u32) -> (r: bool)
    ensures
        r,
{
    let a = x.select(k);
    let b = reference::select(x, k);
    proof {
        if a is Some && b is Some {
            lemma_select_unique(x, a->0 as int, b->0 as int);
        }
    }
    a == b
}

/// Rank and select are inverse on set bits: `select(rank(i)) = i` whenever
/// bit `i` is set. `i < BITS`.
pub fn select_inverts_rank_on_set_bits(x: u64, i: u32) -> (r: bool)
    requires
        i < 64,
    ensures
        r,
{
    if !x.bit(i) {
        return true;
    }
    proof {
        lemma_count_below_mono(x, i as int, 64);
    }
    let s = x.select(x.rank(i));
    proof {
        if s is Some {
            lemma_select_unique(x, s->0 as int, i as int);
        }
    }
    s == Some(i)
}

// --- compact / expand -------------------------------------------------

/// `compact` agrees with the per-bit definition.
pub fn compact_matches_reference(x: u64, m: u64) -> (r: bool)
    ensures
        r,
{
    let a = x.compact(m);
    let b = reference::pext(x, m);
    proof {
        lemma_pext_unique(x, m, a, b);
    }
    a == b
}

/// `expand` agrees with the per-bit definition.
pub fn expand_matches_reference(x: u64, m: u64) -> (r: bool)
    ensures
        r,
{
    let a = x.expand(m);
    let b = reference::pdep(x, m);
    proof {
        lemma_pdep_unique(x, m, a, b);
    }
    a == b
}

/// `expand ∘ compact` under the same mask keeps exactly the masked bits.
pub fn compact_expand_roundtrip(x: u64, m: u64) -> (r: bool)
    ensures
        r,
{
    let c = x.compact(m);
    let e = c.expand(m);
    proof {
        assert forall|i: int| 0 <= i < 64 implies #[trigger] bit_of(e, i) == bit_of(x & m, i) by {}
        lemma_bits_eq(e, x & m);
    }
    e == x & m
}

/// `compact ∘ expand` under the same mask keeps exactly the low
/// `count_ones(m)` bits.
pub fn expand_compact_roundtrip(x: u64, m: u64) -> (r: bool)
    ensures
        r,
{
    let e = x.expand(m);
    let c = e.compact(m);
    proof {
        lemma_count_below_bounds(m, 64);
    }
    let low = <u64 as Word>::low_ones(Word::count_ones(m));
    proof {
        assert forall|j: int| 0 <= j < 64 implies #[trigger] bit_of(c, j) == bit_of(x & low, j) by {
            if j < popcount(m) {
                lemma_select_exists(m, 64, j);
                let p = choose|p: int| 0 <= p < 64 && #[trigger] bit_of(m, p) && count_below(m, p) == j;
                assert(bit_of(c, count_below(m, p) as int) == bit_of(e, p));
            }
        }
        lemma_bits_eq(c, x & low);
    }
    c == x & low
}


// --- parity facts -------------------------------------------------------

/// Parity is XOR-linear.
pub proof fn lemma_parity_xor(x: u64, y: u64, n: int)
    ensures
        parity_below(x ^ y, n) == (parity_below(x, n) != parity_below(y, n)),
    decreases n,
{
    if n > 0 {
        lemma_parity_xor(x, y, n - 1);
    }
}

/// The running parity of a delta is the bit below: the sum telescopes.
proof fn lemma_delta_parity(x: u64, d: u64, n: int)
    requires
        0 <= n <= 64,
        forall|i: int| 0 <= i < 64 ==> #[trigger] bit_of(d, i) == (bit_of(x, i) != (i >= 1 && bit_of(x, i - 1))),
    ensures
        parity_below(d, n) == (n >= 1 && bit_of(x, n - 1)),
    decreases n,
{
    if n > 0 {
        lemma_delta_parity(x, d, n - 1);
        assert(bit_of(d, n - 1) == (bit_of(x, n - 1) != (n - 1 >= 1 && bit_of(x, n - 2))));
    }
}

/// The parity of a Gray code from bit `i` up is bit `i` of the word.
proof fn lemma_gray_suffix(x: u64, e: u64, i: int)
    requires
        0 <= i <= 64,
        forall|j: int| 0 <= j < 64 ==> #[trigger] bit_of(e, j) == (bit_of(x, j) != bit_of(x, j + 1)),
    ensures
        (parity_below(e, 64) != parity_below(e, i)) == bit_of(x, i),
    decreases 64 - i,
{
    if i < 64 {
        lemma_gray_suffix(x, e, i + 1);
        assert(parity_below(e, i + 1) == (parity_below(e, i) != bit_of(e, i)));
    }
}

/// `prefix_xor` undoes `delta_xor`.
pub fn prefix_xor_after_delta_is_identity(x: u64) -> (r: bool)
    ensures
        r,
{
    let d = x.delta_xor();
    let y = d.prefix_xor();
    proof {
        assert forall|i: int| 0 <= i < 64 implies #[trigger] bit_of(y, i) == bit_of(x, i) by {
            lemma_delta_parity(x, d, i + 1);
        }
        lemma_bits_eq(y, x);
    }
    y == x
}

// --- gray code ----------------------------------------------------------

/// Consecutive Gray codes differ exactly in the lowest set bit of the
/// successor. `x != ONES`.
pub fn gray_successor_flips_lowest_set(x: u64) -> (r: bool)
    requires
        x != 0xffff_ffff_ffff_ffffu64,
    ensures
        r,
{
    let next = Word::wrapping_add(x, 1);
    let a = x.gray_encode() ^ next.gray_encode();
    let b = next.lowest_set_mask();
    proof {
        lemma_gray_step(x, next);
        lemma_bits_eq(a, b);
    }
    a == b
}

/// The Gray codes of `x` and `x + 1` differ at the lowest clear bit of `x`,
/// which is the lowest set bit of `x + 1`.
proof fn lemma_gray_step(x: u64, next: u64)
    requires
        x != 0xffff_ffff_ffff_ffffu64,
        next == (x + 1) as u64,
    ensures
        tz(next) == tz(!x),
        tz(!x) < 64,
        forall|i: int| 0 <= i < 64 ==> #[trigger] bit_of(next, i) == (i == tz(!x) || (tz(!x) < i < 64 && bit_of(x, i))),
        forall|i: int| #![trigger bit_of(x, i)] 0 <= i < 64 ==> ((bit_of(x, i) != bit_of(x, i + 1)) != (bit_of(next, i) != bit_of(next, i + 1))) == (i == tz(!x)),
{
    crate::model::lemma_add_one_bits(x);
    lemma_tz(!x);
    lemma_tz(next);
    let t = tz(!x);
    assert(bit_of(next, t));
    assert forall|i: int| 0 <= i < t implies !#[trigger] bit_of(next, i) by {}
    assert forall|i: int| 0 <= i < t implies #[trigger] bit_of(x, i) by {
        assert(!bit_of(!x, i));
    }
    assert(!bit_of(x, t)) by {
        assert(bit_of(!x, t));
    }
}

/// Gray code: decode undoes encode, consecutive codes differ in one bit,
/// and decode is the top-down prefix XOR.
pub fn gray_code_laws(x: u64) -> (r: bool)
    ensures
        r,
{
    let next = Word::wrapping_add(x, 1);
    let e = x.gray_encode();
    let d = x.gray_decode();
    let back = e.gray_decode();
    let there = d.gray_encode();
    let flips = e ^ next.gray_encode();
    let top = reference::prefix_xor_from_top(x);
    proof {
        assert forall|i: int| 0 <= i < 64 implies #[trigger] bit_of(back, i) == bit_of(x, i) by {
            lemma_gray_suffix(x, e, i);
        }
        lemma_bits_eq(back, x);
        assert forall|i: int| 0 <= i < 64 implies #[trigger] bit_of(there, i) == bit_of(x, i) by {
            assert(parity_below(x, i + 1) == (parity_below(x, i) != bit_of(x, i)));
        }
        lemma_bits_eq(there, x);
        lemma_bits_eq(d, top);
        if x == 0xffff_ffff_ffff_ffffu64 {
            assert(next == 0);
            assert forall|i: int| 0 <= i < 64 implies #[trigger] bit_of(flips, i) == bit_of(1u64 << 63u64, i) by {}
            lemma_bits_eq(flips, 1u64 << 63u64);
            crate::model::lemma_count_below_none_above(flips, 64, 64);
            lemma_single_popcount(63);
        } else {
            lemma_gray_step(x, next);
            let t = tz(!x);
            assert forall|i: int| 0 <= i < 64 implies #[trigger] bit_of(flips, i) == bit_of(1u64 << (t as u64), i) by {}
            lemma_bits_eq(flips, 1u64 << (t as u64));
            lemma_single_popcount(t);
        }
    }
    back == x && there == x && Word::count_ones(flips) == 1 && d == top
}

/// `find_escaped` over a chain of words agrees with a bit-by-bit parity
/// walk over the concatenation, the carry between words included.
pub fn find_escaped_matches_reference(words: &[u64], prev_ends_odd: bool) -> (r: bool)
    ensures
        r,
{
    let mut carry = prev_ends_odd;
    let mut run_odd = prev_ends_odd;
    let n = words.len();
    let mut k: usize = 0;
    while k < n
        invariant
            n == words.len(),
            k <= n,
            carry == run_odd,
        decreases n - k,
    {
        let w = words[k];
        let (escaped, next_carry) = w.find_escaped(carry);
        let mut want: u64 = 0;
        let mut i: u32 = 0;
        while i < 64
            invariant
                i <= 64,
                run_odd == crate::bits::odd_before(w, carry, i as int),
                forall|j: int| 0 <= j < 64 ==> #[trigger] bit_of(want, j) == (j < i && crate::bits::odd_before(w, carry, j) && !bit_of(w, j)),
            decreases 64 - i,
        {
            let b = w.bit(i);
            if run_odd && !b {
                want = want | (1u64 << (i as u64));
            }
            run_odd = if b { !run_odd } else { false };
            i = i + 1;
        }
        proof {
            assert forall|j: int| 0 <= j < 64 implies #[trigger] bit_of(escaped, j) == bit_of(want, j) by {}
            lemma_bits_eq(escaped, want);
        }
        if escaped != want || next_carry != run_odd {
            return false;
        }
        carry = next_carry;
        k = k + 1;
    }
    true
}

/// The slice operations agree with bit-by-bit definitions over the
/// concatenated words: `rank` counts the set positions below `i`, `select`
/// is the `i`-th of them, `next_set_from` the first at or after `i`,
/// `find_run` the first start of `k` set positions, `positions` lists them
/// all and `count_ones` counts them. `k` in `1..=64`.
pub fn slice_ops_match_reference(words: &[u64], i: usize, k: u32) -> (r: bool)
    requires
        words@.len() * 64 <= usize::MAX,
        1 <= k <= 64,
    ensures
        r,
{
    let n = words.len();
    let total = n * 64;
    let mut set: Vec<usize> = Vec::new();
    let mut rank_ref: usize = 0;
    let mut next_ref: Option<usize> = None;
    let mut p: usize = 0;
    while p < total
        invariant
            n == words@.len(),
            total == 64 * n,
            p <= total,
            set@.len() == srank(words@, p as int),
            forall|j: int| 0 <= j < set@.len() ==> sbit(words@, #[trigger] set@[j] as int) && srank(words@, set@[j] as int) == j,
            rank_ref == srank(words@, if p < i { p as int } else { i as int }),
            match next_ref {
                Some(q) => i <= q < p && sbit(words@, q as int) && forall|x: int| i <= x < q ==> !#[trigger] sbit(words@, x),
                None => forall|x: int| i <= x < p ==> !#[trigger] sbit(words@, x),
            },
        decreases total - p,
    {
        proof {
            crate::slice::lemma_div64(p as int);
            crate::rank9::lemma_srank_next(words@, p as int);
            crate::rank9::lemma_srank_le(words@, p as int);
            crate::rank9::lemma_srank_le(words@, i as int);
        }
        let b = words[p / 64].bit((p % 64) as u32);
        if b {
            set.push(p);
        }
        if b && p < i {
            rank_ref = rank_ref + 1;
        }
        if b && p >= i && next_ref.is_none() {
            next_ref = Some(p);
        }
        p = p + 1;
    }
    proof {
        if i >= total {
            assert(srank(words@, i as int) == srank(words@, total as int));
        }
        assert(srank(words@, total as int) == words_pop(words@, n as int));
        assert forall|x: int| x >= total implies !#[trigger] sbit(words@, x) by {}
    }
    let select_ref = if i < set.len() { Some(set[i]) } else { None };
    // The first start of `k` set positions, by checking every start.
    let mut run_ref: Option<usize> = None;
    let kk = k as usize;
    let last = if total >= kk { total - kk + 1 } else { 0 };
    let mut s: usize = 0;
    while s < last && run_ref.is_none()
        invariant
            n == words@.len(),
            total == 64 * n,
            kk == k,
            1 <= k <= 64,
            last == (if total >= kk { total - kk + 1 } else { 0 }),
            s <= last,
            match run_ref {
                Some(q) => srun(words@, q as int, k as int) && forall|x: int| x < q ==> !#[trigger] srun(words@, x, k as int),
                None => forall|x: int| x < s ==> !#[trigger] srun(words@, x, k as int),
            },
        decreases last - s,
    {
        let mut all = true;
        let mut b: usize = 0;
        while b < kk
            invariant
                n == words@.len(),
                total == 64 * n,
                kk == k,
                s + kk <= total,
                b <= kk,
                all == forall|c: int| s <= c < s + b ==> #[trigger] sbit(words@, c),
            decreases kk - b,
        {
            proof {
                crate::slice::lemma_div64((s + b) as int);
            }
            let v = words[(s + b) / 64].bit(((s + b) % 64) as u32);
            proof {
                assert(v == sbit(words@, (s + b) as int));
            }
            if !v {
                all = false;
            }
            b = b + 1;
        }
        if all {
            run_ref = Some(s);
        } else {
            proof {
                assert(!srun(words@, s as int, k as int));
            }
        }
        s = s + 1;
    }
    proof {
        if run_ref is None {
            assert forall|q: int| !#[trigger] srun(words@, q, k as int) by {
                if q >= s {
                    assert(q + k > total);
                }
            }
        }
    }
    let rank_ok = words.rank(i) == rank_ref;
    let sel = words.select(i);
    proof {
        match sel {
            Some(q) => {
                crate::rank9::lemma_srank_mono(words@, q as int, q + 1);
                crate::rank9::lemma_srank_next(words@, q as int);
                crate::rank9::lemma_sel_pos(words@, i as int);
            },
            None => {},
        }
        if i < set@.len() {
            crate::rank9::lemma_sel_pos(words@, i as int);
        }
    }
    let select_ok = match (sel, select_ref) {
        (Some(a), Some(b)) => a == b,
        (None, None) => true,
        _ => false,
    };
    let next = words.next_set_from(i);
    let next_ok = match (next, next_ref) {
        (Some(a), Some(b)) => a == b,
        (None, None) => true,
        _ => false,
    };
    let found = words.find_run(k);
    let run_ok = match (found, run_ref) {
        (Some(a), Some(b)) => a == b,
        (None, None) => true,
        _ => false,
    };
    let pos = words.positions();
    let mut positions_ok = pos.len() == set.len();
    if positions_ok {
        let mut j: usize = 0;
        while j < pos.len()
            invariant
                pos@.len() == set@.len(),
                set@.len() == words_pop(words@, words@.len() as int),
                forall|a: int| 0 <= a < pos@.len() ==> sbit(words@, #[trigger] pos@[a] as int) && srank(words@, pos@[a] as int) == a,
                forall|a: int| 0 <= a < set@.len() ==> sbit(words@, #[trigger] set@[a] as int) && srank(words@, set@[a] as int) == a,
                positions_ok,
            decreases pos@.len() - j,
        {
            proof {
                crate::rank9::lemma_sel_pos(words@, j as int);
            }
            if pos[j] != set[j] {
                positions_ok = false;
                break;
            }
            j = j + 1;
        }
    }
    let count_ok = words.count_ones() == set.len();
    rank_ok && select_ok && next_ok && run_ok && positions_ok && count_ok
}

/// Hilbert decode undoes encode on the low 32 bits of each coordinate, and
/// encode undoes decode on every index.
pub fn hilbert_roundtrip(x: u64, y: u64, h: u64) -> (r: bool)
    ensures
        r,
{
    let e = Hilbert2::encode(x, y);
    let (a, b) = e.decode();
    let (u, v) = Hilbert2::from_index(h).decode();
    let back = Hilbert2::encode(u, v).index();
    let c = Hilbert2::from_index(h).into_morton();
    proof {
        assert forall|i: int| 0 <= i < 64 implies #[trigger] bit_of(a, i) == bit_of(x & 0xffff_ffffu64, i) by {
            crate::hilbert::lemma_low32(x, i);
        }
        assert forall|i: int| 0 <= i < 64 implies #[trigger] bit_of(b, i) == bit_of(y & 0xffff_ffffu64, i) by {
            crate::hilbert::lemma_low32(y, i);
        }
        lemma_bits_eq(a, x & 0xffff_ffffu64);
        lemma_bits_eq(b, y & 0xffff_ffffu64);
        assert forall|j: int| 0 <= j < 32 implies #[trigger] cell_x(back, j) == cell_x(h, j) && cell_y(back, j) == cell_y(h, j) by {
            assert(bit_of(u, j) == (j < 32 && cell_x(h, j)));
            assert(bit_of(v, j) == (j < 32 && cell_y(h, j)));
        }
        crate::hilbert::lemma_same_cells(back, h, c@);
    }
    a == x & 0xffff_ffff && b == y & 0xffff_ffff && back == h
}

/// Consecutive indices are neighbouring cells: one step on one axis.
pub fn hilbert_consecutive_are_adjacent(h: u64) -> (r: bool)
    requires
        h < 0xffff_ffff_ffff_ffff,
    ensures
        r,
{
    let (x0, y0) = Hilbert2::from_index(h).decode();
    let (x1, y1) = Hilbert2::from_index(h + 1).decode();
    proof {
        crate::hilbert::lemma_consecutive_adjacent(h, x0, y0, x1, y1);
    }
    let dx = if x0 > x1 { x0 - x1 } else { x1 - x0 };
    let dy = if y0 > y1 { y0 - y1 } else { y1 - y0 };
    (dx == 1 && dy == 0) || (dx == 0 && dy == 1)
}

/// The order-`n` curve is the first quadrant of the order-`n + 1` curve
/// transposed, and runs from `(0, 0)` to `(2^n - 1, 0)`. `n` below 32 and
/// `h` below `4^n`.
pub fn hilbert_order_laws(h: u64, n: u32) -> (r: bool)
    requires
        n < 32,
        forall|i: int| 2 * n <= i < 64 ==> !#[trigger] bit_of(h, i),
    ensures
        r,
{
    let (x, y) = Hilbert2::from_index(h).decode_order(n);
    let (x2, y2) = Hilbert2::from_index(h).decode_order(n + 1);
    proof {
        assert forall|i: int| 0 <= i < 64 implies #[trigger] bit_of(x, i) == bit_of(y2, i) by {}
        assert forall|i: int| 0 <= i < 64 implies #[trigger] bit_of(y, i) == bit_of(x2, i) by {}
        lemma_bits_eq(x, y2);
        lemma_bits_eq(y, x2);
        assert forall|i: int| 2 * n <= i < 64 implies !#[trigger] bit_of(0u64, i) by {}
    }
    let first = Hilbert2::from_index(0).decode_order(n);
    proof {
        crate::hilbert::lemma_low_bits(n as u64, 0);
        crate::hilbert::lemma_low_bits((2 * n) as u64, 0);
    }
    let side = ((1u64 << n) - 1) as u64;
    let last_index = ((1u64 << (2 * n)) - 1) as u64;
    proof {
        assert forall|i: int| 0 <= i < 64 implies #[trigger] bit_of(last_index, i) == (i < 2 * n) by {
            crate::hilbert::lemma_low_bits((2 * n) as u64, i as u64);
        }
        assert forall|i: int| 2 * n <= i < 64 implies !#[trigger] bit_of(last_index, i) by {}
    }
    let last = Hilbert2::from_index(last_index).decode_order(n);
    proof {
        assert forall|i: int| 0 <= i < 64 implies #[trigger] bit_of(first.0, i) == bit_of(0u64, i) && bit_of(first.1, i) == bit_of(0u64, i) by {
            if i < 32 {
                crate::hilbert::lemma_first_cell(i);
            }
        }
        lemma_bits_eq(first.0, 0);
        lemma_bits_eq(first.1, 0);
        if n > 0 {
            assert forall|i: int| 0 <= i < 32 implies #[trigger] crate::hilbert::even_at(last_index, i) == (i < n) by {
                assert(bit_of(last_index, 2 * i) == (2 * i < 2 * n));
            }
            assert forall|i: int| 0 <= i < 32 implies #[trigger] crate::hilbert::odd_at(last_index, i) == (i < n) by {
                assert(bit_of(last_index, 2 * i + 1) == (2 * i + 1 < 2 * n));
            }
            assert forall|i: int| 0 <= i < 64 implies #[trigger] bit_of(last.0, i) == bit_of(side, i) by {
                crate::hilbert::lemma_low_bits(n as u64, i as u64);
                if i < 32 {
                    crate::hilbert::lemma_last_cell(last_index, n as int, i);
                }
            }
            assert forall|i: int| 0 <= i < 64 implies #[trigger] bit_of(last.1, i) == bit_of(0u64, i) by {
                if i < 32 {
                    crate::hilbert::lemma_last_cell(last_index, n as int, i);
                }
            }
        } else {
            assert forall|i: int| 0 <= i < 64 implies #[trigger] bit_of(last_index, i) == bit_of(0u64, i) by {}
            lemma_bits_eq(last_index, 0);
            assert forall|i: int| 0 <= i < 64 implies #[trigger] bit_of(side, i) == bit_of(0u64, i) by {
                crate::hilbert::lemma_low_bits(n as u64, i as u64);
            }
            lemma_bits_eq(side, 0);
            assert forall|i: int| 0 <= i < 64 implies #[trigger] bit_of(last.0, i) == bit_of(side, i) by {
                if i < 32 {
                    crate::hilbert::lemma_first_cell(i);
                }
            }
            assert forall|i: int| 0 <= i < 64 implies #[trigger] bit_of(last.1, i) == bit_of(0u64, i) by {
                if i < 32 {
                    crate::hilbert::lemma_first_cell(i);
                }
            }
        }
        lemma_bits_eq(last.0, side);
        lemma_bits_eq(last.1, 0);
    }
    x == y2 && y == x2 && first.0 == 0 && first.1 == 0 && last.0 == side && last.1 == 0
}

/// The lowest run of ones of a nonzero word: clear below `tz`, set from
/// `tz` up to `run_end`, clear at `run_end`.
proof fn lemma_lowest_run(x: u64)
    requires
        x != 0,
    ensures
        0 <= tz(x) < crate::bits::run_end(x) <= 64,
        forall|i: int| 0 <= i < tz(x) ==> !#[trigger] bit_of(x, i),
        forall|i: int| tz(x) <= i < crate::bits::run_end(x) ==> #[trigger] bit_of(x, i),
        crate::bits::run_end(x) < 64 ==> !bit_of(x, crate::bits::run_end(x)),
        count_below(x, crate::bits::run_end(x)) == crate::bits::run_end(x) - tz(x),
{
    let t = tz(x);
    let e = crate::bits::run_end(x);
    lemma_tz(x);
    lemma_tz(!(x | low_mask(t)));
    assert forall|i: int| t <= i < e implies #[trigger] bit_of(x, i) by {
        assert(!bit_of(!(x | low_mask(t)), i));
    }
    if e < 64 {
        assert(bit_of(!(x | low_mask(t)), e));
    }
    assert(e > t) by {
        assert(!bit_of(!(x | low_mask(t)), t));
    }
    crate::model::lemma_count_range_const(x, 0, t, false);
    crate::model::lemma_count_range_const(x, t, e, true);
}

/// Gosper's successor of `x` is the least larger word with as many ones,
/// and when the lowest run of ones reaches the top no larger word has as
/// many.
proof fn lemma_gosper_least(x: u64, y: u64, w: u64)
    requires
        x != 0,
        crate::bits::run_end(x) < 64 ==> forall|i: int| 0 <= i < 64 ==> #[trigger] bit_of(y, i) == ((i > crate::bits::run_end(x) && bit_of(x, i))
            || i == crate::bits::run_end(x) || i < crate::bits::run_end(x) - tz(x) - 1),
        x < w,
        crate::bits::run_end(x) < 64 ==> w < y,
    ensures
        popcount(w) != popcount(x),
{
    let t = tz(x);
    let e = crate::bits::run_end(x);
    lemma_lowest_run(x);
    let q = crate::model::lemma_top_diff(x, w);
    if bit_of(x, q) {
        crate::model::lemma_lt_by_bits(w, x, q);
    }
    assert(!bit_of(x, q) && bit_of(w, q));
    crate::model::lemma_count_range_same(x, w, q + 1, 64);
    if q < t {
        // `w` adds a bit below the run and keeps everything above it.
        crate::model::lemma_count_range_const(x, 0, q + 1, false);
        crate::model::lemma_count_below_mono(w, q, q + 1);
    } else {
        assert(e < 64 && q >= e);
        if q > e {
            assert forall|i: int| q < i < 64 implies #[trigger] bit_of(y, i) == bit_of(w, i) by {}
            assert(!bit_of(y, q));
            crate::model::lemma_lt_by_bits(y, w, q);
        } else {
            // Same top as `y` down to bit `e`; below it `w` is smaller than
            // the `c - 1` low ones of `y`, so it has fewer ones.
            let c = e - t;
            assert(w != y);
            let q2 = crate::model::lemma_top_diff(w, y);
            assert(q2 < e) by {
                if q2 >= e {
                    assert(bit_of(w, q2) == bit_of(y, q2));
                }
            }
            if bit_of(w, q2) {
                crate::model::lemma_lt_by_bits(y, w, q2);
            }
            assert(bit_of(y, q2));
            assert(q2 < c - 1);
            crate::model::lemma_count_range_same(w, y, q2 + 1, e);
            crate::model::lemma_count_range_const(y, q2 + 1, c - 1, true);
            crate::model::lemma_count_range_const(y, c - 1, e, false);
            crate::model::lemma_count_below_bounds(w, q2);
            assert(count_below(w, q2 + 1) == count_below(w, q2));
            crate::model::lemma_count_range_same(x, w, e + 1, 64);
            assert(count_below(w, e + 1) == count_below(w, e) + 1);
            assert(count_below(x, e + 1) == count_below(x, e));
            crate::model::lemma_count_below_top(w, 64);
            crate::model::lemma_count_below_top(x, 64);
        }
    }
}

/// Gosper's hack yields the smallest larger word with the same popcount,
/// and `None` exactly when none exists.
pub fn next_same_popcount_matches_reference(x: u64) -> (r: bool)
    ensures
        r,
{
    let a = x.next_same_popcount();
    let b = reference::next_same_popcount(x);
    proof {
        if x != 0 {
            let t = tz(x);
            let e = crate::bits::run_end(x);
            lemma_lowest_run(x);
            match a {
                Some(y) => {
                    // `y` is larger and has as many ones.
                    crate::model::lemma_lt_by_bits(x, y, e);
                    crate::model::lemma_count_range_same(x, y, e + 1, 64);
                    crate::model::lemma_count_range_const(y, 0, e - t - 1, true);
                    crate::model::lemma_count_range_const(y, e - t - 1, e, false);
                    assert(count_below(y, e + 1) == count_below(y, e) + 1);
                    assert(count_below(x, e + 1) == count_below(x, e));
                    assert(count_below(y, e) == e - t - 1);
                    assert(popcount(y) == popcount(x));
                    assert(x < y);
                    match b {
                        Some(z) => {
                            if z < y {
                                lemma_gosper_least(x, y, z);
                            }
                            if y < z {
                                assert(popcount(y) != popcount(x));
                            }
                            assert(y == z);
                        },
                        None => {
                            assert(popcount(y) != popcount(x));
                        },
                    }
                },
                None => {
                    match b {
                        Some(z) => {
                            lemma_gosper_least(x, x, z);
                        },
                        None => {},
                    }
                },
            }
        }
    }
    match (a, b) {
        (Some(p), Some(q)) => p == q,
        (None, None) => true,
        _ => false,
    }
}

/// A single bit counts one.
proof fn lemma_single_popcount(t: int)
    requires
        0 <= t < 64,
    ensures
        popcount(1u64 << (t as u64)) == 1,
{
    let s = 1u64 << (t as u64);
    crate::model::lemma_count_below_none_above(s, t + 1, 64);
    crate::model::lemma_count_below_zero(s, t);
}

// --- linearity ----------------------------------------------------------

/// The mask the laws build from an arbitrary one: bits whose partner
/// `shift` above is in range and not itself selected.
pub open spec fn sanitized(m: u64, shift: u32) -> u64 {
    m & (0xffff_ffff_ffff_ffffu64 >> (shift as u64)) & !(m << (shift as u64))
}

proof fn lemma_sanitized(m: u64, shift: u32)
    requires
        shift < 64,
    ensures
        forall|i: int| #[trigger] bit_of(sanitized(m, shift), i) == (bit_of(m, i) && i + shift < 64 && !(i >= shift && bit_of(m, i - shift))),
        <u64 as Bits>::delta_ok(sanitized(m, shift), shift),
{
    let s = sanitized(m, shift);
    let sh = shift as u64;
    assert forall|i: int| #[trigger] bit_of(s, i) == (bit_of(m, i) && i + shift < 64 && !(i >= shift && bit_of(m, i - shift))) by {
        if 0 <= i < 64 {
            assert(bit_of(0xffff_ffff_ffff_ffffu64 >> sh, i) == (i + shift < 64));
        }
    }
    assert forall|i: int| 0 <= i < 64 implies #[trigger] bit_of(s & (s << sh), i) == bit_of(0u64, i) by {}
    lemma_bits_eq(s & (s << sh), 0);
    assert forall|i: int| 0 <= i < 64 implies #[trigger] bit_of((s << sh) >> sh, i) == bit_of(s, i) by {}
    lemma_bits_eq((s << sh) >> sh, s);
}

/// The XOR-linear combinators: `f(x ^ y) = f(x) ^ f(y)` for prefix scans,
/// Gray code, compact and expand under a fixed mask, and delta swaps.
/// `shift` in `1..BITS`.
pub fn xor_linear_combinators(x: u64, y: u64, m: u64, shift: u32) -> (r: bool)
    requires
        1 <= shift < 64,
    ensures
        r,
{
    let z = x ^ y;
    let mask = m & (0xffff_ffff_ffff_ffffu64 >> shift) & !(m << shift);
    proof {
        lemma_sanitized(m, shift);
        assert(mask == sanitized(m, shift));
    }
    let p1 = z.prefix_xor();
    let p2 = x.prefix_xor() ^ y.prefix_xor();
    let g1 = z.gray_encode();
    let g2 = x.gray_encode() ^ y.gray_encode();
    let d1 = z.gray_decode();
    let d2 = x.gray_decode() ^ y.gray_decode();
    let c1 = z.compact(m);
    let c2 = x.compact(m) ^ y.compact(m);
    let e1 = z.expand(m);
    let e2 = x.expand(m) ^ y.expand(m);
    let s1 = z.delta_swap(mask, shift);
    let s2 = x.delta_swap(mask, shift) ^ y.delta_swap(mask, shift);
    proof {
        assert forall|i: int| 0 <= i < 64 implies #[trigger] bit_of(p1, i) == bit_of(p2, i) by {
            lemma_parity_xor(x, y, i + 1);
        }
        lemma_bits_eq(p1, p2);
        lemma_bits_eq(g1, g2);
        assert forall|i: int| 0 <= i < 64 implies #[trigger] bit_of(d1, i) == bit_of(d2, i) by {
            lemma_parity_xor(x, y, i);
            lemma_parity_xor(x, y, 64);
        }
        lemma_bits_eq(d1, d2);
        assert(is_pext(z, m, c2)) by {
            crate::model::lemma_count_below_bounds(m, 64);
        }
        lemma_pext_unique(z, m, c1, c2);
        lemma_bits_eq(e1, e2);
        lemma_bits_eq(s1, s2);
    }
    p1 == p2 && g1 == g2 && d1 == d2 && c1 == c2 && e1 == e2 && s1 == s2
}

// --- permute --------------------------------------------------------------

/// `delta_swap` is an involution and moves exactly the masked bits.
/// `shift` in `1..BITS`; `mask` is sanitised to a valid one.
pub fn delta_swap_is_involution(x: u64, mask: u64, shift: u32) -> (r: bool)
    requires
        1 <= shift < 64,
    ensures
        r,
{
    let m = mask & (0xffff_ffff_ffff_ffffu64 >> shift) & !(mask << shift);
    proof {
        lemma_sanitized(mask, shift);
        assert(m == sanitized(mask, shift));
    }
    let mask = m;
    let y = x.delta_swap(mask, shift);
    let back = y.delta_swap(mask, shift);
    let untouched = !(mask | (mask << shift));
    proof {
        lemma_bits_eq(back, x);
        lemma_bits_eq(y & untouched, x & untouched);
        lemma_bits_eq(y & mask, (x >> shift) & mask);
        assert forall|i: int| 0 <= i < 64 implies #[trigger] bit_of(y & (mask << shift), i) == bit_of((x & mask) << shift, i) by {}
        lemma_bits_eq(y & (mask << shift), (x & mask) << shift);
    }
    back == x && y & untouched == x & untouched && y & mask == (x >> shift) & mask
        && y & (mask << shift) == (x & mask) << shift
}

/// Delta swaps with a common shift and pairwise disjoint masks (and images)
/// compose to one delta swap with the union mask. Inputs that cannot be
/// made disjoint are skipped (vacuously true). `shift` in `1..BITS`.
pub fn delta_swaps_merge(x: u64, mask1: u64, mask2: u64, shift: u32) -> (r: bool)
    requires
        1 <= shift < 64,
    ensures
        r,
{
    let fit = 0xffff_ffff_ffff_ffffu64 >> shift;
    let m1 = mask1 & fit & !(mask1 << shift);
    proof {
        lemma_sanitized(mask1, shift);
        assert(m1 == sanitized(mask1, shift));
    }
    let mask1 = m1;
    let taken = mask1 | (mask1 << shift);
    let mask2 = mask2 & fit & !(mask2 << shift) & !taken;
    if (mask2 << shift) & taken != 0 {
        return true;
    }
    proof {
        let m2 = mask2;
        assert forall|i: int| #[trigger] bit_of(m2, i) implies i + shift < 64 by {
            if 0 <= i < 64 {
                assert(bit_of(fit, i));
            }
        }
        let u = mask1 | mask2;
        let sh = shift as u64;
        assert forall|i: int| 0 <= i < 64 implies #[trigger] bit_of(u & (u << sh), i) == bit_of(0u64, i) by {
            if bit_of(mask2 << sh, i) {
                assert(!bit_of((mask2 << sh) & taken, i));
            }
        }
        lemma_bits_eq(u & (u << sh), 0);
        assert forall|i: int| 0 <= i < 64 implies #[trigger] bit_of((u << sh) >> sh, i) == bit_of(u, i) by {
            if bit_of(mask1, i) {
                assert(i + shift < 64);
            }
            if bit_of(mask2, i) {
                assert(i + shift < 64);
            }
        }
        lemma_bits_eq((u << sh) >> sh, u);
        assert forall|i: int| 0 <= i < 64 implies #[trigger] bit_of(mask2 & (mask2 << sh), i) == bit_of(0u64, i) by {}
        lemma_bits_eq(mask2 & (mask2 << sh), 0);
        assert forall|i: int| 0 <= i < 64 implies #[trigger] bit_of((mask2 << sh) >> sh, i) == bit_of(mask2, i) by {
            if bit_of(mask2, i) {
                assert(i + shift < 64);
            }
        }
        lemma_bits_eq((mask2 << sh) >> sh, mask2);
    }
    let a = x.delta_swap(mask1, shift).delta_swap(mask2, shift);
    let b = x.delta_swap(mask1 | mask2, shift);
    proof {
        let sh = shift as u64;
        assert forall|i: int| 0 <= i < 64 implies #[trigger] bit_of(a, i) == bit_of(b, i) by {
            if bit_of(mask2 << sh, i) {
                assert(!bit_of((mask2 << sh) & taken, i));
            }
            if i + shift < 64 && bit_of(mask2, i) {
                assert(!bit_of(taken, i));
                assert(!bit_of(taken, i + shift)) by {
                    assert(bit_of(mask2 << sh, i + shift));
                    assert(!bit_of((mask2 << sh) & taken, i + shift));
                }
            }
            if i >= shift && bit_of(mask2, i - shift) {
                assert(!bit_of(taken, i - shift));
                assert(bit_of(mask2 << sh, i));
                assert(!bit_of((mask2 << sh) & taken, i));
            }
        }
        lemma_bits_eq(a, b);
    }
    a == b
}

// --- swar -----------------------------------------------------------------

proof fn lemma_lane_or(x: u64, y: u64, s: u64)
    by (bit_vector)
    requires
        s < 64,
    ensures
        (((x | y) >> s) & 0xff == 0) == (((x >> s) & 0xff == 0) && ((y >> s) & 0xff == 0)),
{
}

/// A lane is zero in `x | y` iff it is zero in both.
pub fn zero_bytes_turns_or_into_and(x: u64, y: u64) -> (r: bool)
    ensures
        r,
{
    let a = (x | y).zero_bytes();
    let b = x.zero_bytes() & y.zero_bytes();
    proof {
        assert forall|i: int| 0 <= i < 64 implies #[trigger] bit_of(a, i) == bit_of(b, i) by {
            lemma_lane_or(x, y, (8 * (i / 8)) as u64);
        }
        lemma_bits_eq(a, b);
    }
    a == b
}


// --- counting through compact and expand -----------------------------------

/// Counting the deposit of `n` into `m` below `i` counts `n` below the
/// number of mask bits below `i`.
pub proof fn lemma_pdep_count(n: u64, m: u64, e: u64, i: int)
    requires
        is_pdep(n, m, e),
        0 <= i,
    ensures
        count_below(e, i) == count_below(n, count_below(m, i) as int),
    decreases i,
{
    if i > 0 {
        lemma_pdep_count(n, m, e, i - 1);
        assert(bit_of(e, i - 1) == (bit_of(m, i - 1) && bit_of(n, count_below(m, i - 1) as int)));
    }
}

/// Counting the compact of `x` under `m` below the count of `m` counts the
/// selected bits of `x`.
proof fn lemma_pext_count(x: u64, m: u64, c: u64, i: int)
    requires
        is_pext(x, m, c),
        0 <= i,
    ensures
        count_below(c, count_below(m, i) as int) == count_below(x & m, i),
    decreases i,
{
    if i > 0 {
        lemma_pext_count(x, m, c, i - 1);
        if bit_of(m, i - 1) {
            assert(bit_of(c, count_below(m, i - 1) as int) == bit_of(x, i - 1));
        }
    }
}

/// `compact` preserves the count of selected bits.
pub fn compact_preserves_popcount(x: u64, m: u64) -> (r: bool)
    ensures
        r,
{
    let c = x.compact(m);
    proof {
        lemma_pext_count(x, m, c, 64);
        lemma_count_below_bounds(m, 64);
        lemma_count_below_none_above(c, popcount(m) as int, 64);
    }
    Word::count_ones(c) == Word::count_ones(x & m)
}

/// Composition: extracting under `n` from an extract under `m` is one
/// extract under `n` deposited into `m`.
pub fn compact_composes(x: u64, m: u64, n: u64) -> (r: bool)
    ensures
        r,
{
    let c1 = x.compact(m);
    let lhs = c1.compact(n);
    let e = n.expand(m);
    let rhs = x.compact(e);
    proof {
        lemma_pdep_count(n, m, e, 64);
        lemma_count_below_bounds(m, 64);
        assert forall|i: int| #[trigger] bit_of(e, i) implies bit_of(lhs, count_below(e, i) as int) == bit_of(x, i) by {
            lemma_pdep_count(n, m, e, i);
            assert(bit_of(c1, count_below(m, i) as int) == bit_of(x, i));
        }
        assert forall|j: int| popcount(e) <= j implies !#[trigger] bit_of(lhs, j) by {
            if j < popcount(n) && 0 <= j < 64 {
                lemma_select_exists(n, 64, j);
                let q = choose|q: int| 0 <= q < 64 && #[trigger] bit_of(n, q) && count_below(n, q) == j;
                assert(bit_of(lhs, count_below(n, q) as int) == bit_of(c1, q));
                if q < popcount(m) {
                    lemma_count_below_mono(n, q, popcount(m) as int);
                }
            }
        }
        lemma_pext_unique(x, e, lhs, rhs);
    }
    lhs == rhs
}

/// `expand` composes dually to `compact`: depositing into `n` then into `m`
/// is depositing into `pdep(n, m)`.
pub fn expand_composes(x: u64, m: u64, n: u64) -> (r: bool)
    ensures
        r,
{
    let lhs = x.expand(n).expand(m);
    let e = n.expand(m);
    let rhs = x.expand(e);
    proof {
        assert forall|i: int| 0 <= i < 64 implies #[trigger] bit_of(lhs, i) == bit_of(rhs, i) by {
            lemma_pdep_count(n, m, e, i);
        }
        lemma_bits_eq(lhs, rhs);
    }
    lhs == rhs
}

/// Run detection composes additively: detecting `b`-runs among the starts
/// of `a`-runs is detecting `(a + b - 1)`-runs. `a, b >= 1` and
/// `a + b - 1 <= BITS`.
pub fn run_starts_composes(x: u64, a: u32, b: u32) -> (r: bool)
    requires
        1 <= a,
        1 <= b,
        a + b - 1 <= 64,
    ensures
        r,
{
    let ra = x.run_starts(a);
    let lhs = ra.run_starts(b);
    let rhs = x.run_starts(a + b - 1);
    proof {
        assert forall|p: int| 0 <= p < 64 implies #[trigger] bit_of(lhs, p) == bit_of(rhs, p) by {
            if run_at(ra, p, b as int) {
                assert(bit_of(ra, p + b - 1));
                assert(run_at(x, p + b - 1, a as int));
                assert forall|c: int| p <= c < p + a + b - 1 implies #[trigger] bit_of(x, c) by {
                    let q = if c < p + b - 1 { c } else { p + b - 1 };
                    assert(bit_of(ra, q));
                    assert(run_at(x, q, a as int));
                }
            }
            if run_at(x, p, a + b - 1) {
                assert forall|q: int| p <= q < p + b implies #[trigger] bit_of(ra, q) by {
                    assert forall|c: int| q <= c < q + a implies #[trigger] bit_of(x, c) by {}
                }
            }
        }
        lemma_bits_eq(lhs, rhs);
    }
    lhs == rhs
}

// --- basics ---------------------------------------------------------------

/// The lowest-bit family agrees with the position-based definitions.
pub fn basics_match_reference(x: u64, y: u64, m: u64) -> (r: bool)
    ensures
        r,
{
    proof {
        lemma_tz(x);
        lemma_tz(!x);
    }
    let low = x.first_set();
    let lowest_mask = match low {
        None => 0u64,
        Some(p) => 1u64 << p,
    };
    let below = match low {
        None => 0xffff_ffff_ffff_ffffu64,
        Some(p) => <u64 as Word>::low_ones(p),
    };
    let up_to = match low {
        None => 0xffff_ffff_ffff_ffffu64,
        Some(p) => <u64 as Word>::low_ones(p + 1),
    };
    let lowest_zero = match (!x).first_set() {
        None => 0u64,
        Some(p) => 1u64 << p,
    };
    let run_len = match low {
        None => 0u32,
        Some(p) => Word::trailing_ones(x >> p),
    };
    let run_mask = match low {
        None => 0u64,
        Some(p) => {
            proof {
                lemma_run_len(x);
            }
            <u64 as Word>::low_ones(run_len) << p
        },
    };
    let mut blend: u64 = 0;
    let mut i: u32 = 0;
    while i < 64
        invariant
            i <= 64,
            forall|q: int| #[trigger] bit_of(blend, q) == (0 <= q < i && if bit_of(m, q) {
                bit_of(y, q)
            } else {
                bit_of(x, q)
            }),
        decreases 64 - i,
    {
        if if m.bit(i) { y.bit(i) } else { x.bit(i) } {
            blend = blend | (1u64 << i);
        }
        i = i + 1;
    }
    let a1 = x.lowest_set_mask();
    let a2 = x.below_lowest_set();
    let a3 = x.up_to_lowest_set();
    let a4 = x.set_lowest_zero();
    let a5 = x.clear_lowest_run();
    let a6 = x.blend(y, m);
    proof {
        lemma_bits_eq(a1, lowest_mask);
        lemma_bits_eq(a2, below);
        lemma_bits_eq(a3, up_to);
        lemma_bits_eq(a4, x | lowest_zero);
        if x != 0 {
            lemma_run_len(x);
            let t = tz(x);
            let u = tz(!(x | low_mask(t)));
            assert forall|i: int| 0 <= i < 64 implies #[trigger] bit_of(a5, i) == bit_of(x & !run_mask, i) by {
                if t <= i < u {
                    assert(bit_of(run_mask, i));
                }
                if i == u {
                    assert(bit_of(!(x | low_mask(t)), u));
                }
            }
        }
        lemma_bits_eq(a5, x & !run_mask);
        lemma_bits_eq(a6, blend);
    }
    a1 == lowest_mask && a2 == below && a3 == up_to && a4 == x | lowest_zero && a5 == x & !run_mask
        && a6 == blend
}

/// The run of ones from the lowest set bit ends at the lowest clear bit
/// above it; its length is the trailing ones of the shifted word.
proof fn lemma_run_len(x: u64)
    requires
        x != 0,
    ensures
        tz(x) < 64,
        tz(x) < tz(!(x | low_mask(tz(x)))) <= 64,
        tz(!(x >> (tz(x) as u64))) == tz(!(x | low_mask(tz(x)))) - tz(x),
        forall|i: int| tz(x) <= i < tz(!(x | low_mask(tz(x)))) ==> #[trigger] bit_of(x, i),
{
    lemma_tz(x);
    let t = tz(x);
    let z = x | low_mask(t);
    lemma_tz(!z);
    let u = tz(!z);
    let w = !(x >> (t as u64));
    lemma_tz(w);
    assert forall|i: int| t <= i < u implies #[trigger] bit_of(x, i) by {
        assert(!bit_of(!z, i));
    }
    assert(u > t) by {
        assert(!bit_of(!z, t));
    }
    assert forall|j: int| 0 <= j < u - t implies !#[trigger] bit_of(w, j) by {
        assert(bit_of(x, j + t));
    }
    if u < 64 {
        assert(bit_of(!z, u));
        assert(bit_of(w, u - t));
    } else if t > 0 {
        assert(bit_of(w, 64 - t));
    } else {
        assert forall|j: int| 0 <= j < 64 implies #[trigger] bit_of(w, j) == bit_of(0u64, j) by {
            assert(bit_of(x, j + t));
        }
        lemma_bits_eq(w, 0);
    }
}

// --- reduces ---------------------------------------------------------------

/// `parity` is the low bit of the popcount; `trailing_ones` and
/// `leading_ones` count what the reference loop counts.
pub fn small_reduces_match_reference(x: u64) -> (r: bool)
    ensures
        r,
{
    let mut trailing: u32 = 0;
    while trailing < 64 && x.bit(trailing)
        invariant
            trailing <= 64,
            forall|j: int| 0 <= j < trailing ==> #[trigger] bit_of(x, j),
        decreases 64 - trailing,
    {
        trailing = trailing + 1;
    }
    let mut leading: u32 = 0;
    while leading < 64 && x.bit(63 - leading)
        invariant
            leading <= 64,
            forall|j: int| 64 - leading <= j < 64 ==> #[trigger] bit_of(x, j),
        decreases 64 - leading,
    {
        leading = leading + 1;
    }
    proof {
        lemma_tz(!x);
        lemma_top_bit(!x);
        assert forall|j: int| 0 <= j < trailing implies !#[trigger] bit_of(!x, j) by {
            assert(bit_of(x, j));
        }
        if trailing < 64 {
            assert(bit_of(!x, trailing as int));
        }
        assert forall|j: int| 64 - leading <= j < 64 implies !#[trigger] bit_of(!x, j) by {
            assert(bit_of(x, j));
        }
        if leading < 64 {
            assert(bit_of(!x, 63 - leading));
        }
    }
    x.parity() == (Word::count_ones(x) % 2 == 1) && Word::trailing_ones(x) == trailing
        && Word::leading_ones(x) == leading
}

/// `positions()` enumerates exactly the set bits, ascending, and backwards
/// descending, with an exact `len()`.
pub fn positions_enumerate_set_bits(x: u64) -> (r: bool)
    ensures
        r,
{
    let mut fwd = x.positions();
    let mut i: u32 = 0;
    while i < 64
        invariant
            i <= 64,
            forall|j: int| #[trigger] bit_of(fwd.0, j) == (bit_of(x, j) && j >= i),
        decreases 64 - i,
    {
        if x.bit(i) {
            let ghost before = fwd.0;
            let got = fwd.next();
            proof {
                assert(bit_of(before, i as int));
                assert(got == Some(i));
            }
            if got != Some(i) {
                return false;
            }
        }
        i = i + 1;
    }
    let mut back = x.positions();
    let mut i: u32 = 64;
    while i > 0
        invariant
            i <= 64,
            forall|j: int| #[trigger] bit_of(back.0, j) == (bit_of(x, j) && j < i),
        decreases i,
    {
        i = i - 1;
        if x.bit(i) {
            let ghost before = back.0;
            let got = back.next_back();
            proof {
                assert(bit_of(before, i as int));
                assert(got == Some(i));
            }
            if got != Some(i) {
                return false;
            }
        }
    }
    proof {
        assert forall|j: int| 0 <= j < 64 implies #[trigger] bit_of(fwd.0, j) == bit_of(0u64, j) by {}
        lemma_bits_eq(fwd.0, 0);
        assert forall|j: int| 0 <= j < 64 implies #[trigger] bit_of(back.0, j) == bit_of(0u64, j) by {}
        lemma_bits_eq(back.0, 0);
        lemma_count_below_bounds(x, 64);
    }
    let f_end = fwd.next();
    let b_end = back.next_back();
    f_end.is_none() && b_end.is_none() && x.positions().len() == Word::count_ones(x) as usize
}


// --- runs (continued) ------------------------------------------------------

/// `longest_run` is the largest `k` with a run, and `0` iff zero.
pub fn longest_run_matches_reference(x: u64) -> (r: bool)
    ensures
        r,
{
    let mut best: u32 = 0;
    let mut cur: u32 = 0;
    let mut i: u32 = 0;
    proof {
        assert(run_at(x, 0, 0));
    }
    while i < 64
        invariant
            i <= 64,
            cur <= i,
            best <= i,
            run_at(x, i - cur, cur as int),
            cur == i || !bit_of(x, i - cur - 1),
            exists|p: int| 0 <= p && p + best <= i && #[trigger] run_at(x, p, best as int),
            forall|p: int, k: int| #[trigger] run_at(x, p, k) && p + k <= i ==> k <= best,
        decreases 64 - i,
    {
        cur = if x.bit(i) { cur + 1 } else { 0 };
        proof {
            assert(run_at(x, i + 1 - cur, cur as int));
            assert forall|p: int, k: int| #[trigger] run_at(x, p, k) && p + k <= i + 1 implies k <= cur || p + k <= i by {
                if p + k == i + 1 && k > cur && cur < i + 1 {
                    assert(bit_of(x, i - cur));
                }
            }
        }
        if cur > best {
            best = cur;
        }
        i = i + 1;
    }
    let got = x.longest_run();
    proof {
        let p = choose|p: int| 0 <= p && p + best <= 64 && #[trigger] run_at(x, p, best as int);
        if best > got {
            crate::bits::lemma_run_shorter(x, p, best as int, got + 1);
            if best > 0 {
                assert(0 <= p < 64);
            }
            assert(crate::bits::has_run_spec(x, got + 1));
        }
        let q = choose|q: int| 0 <= q < 64 && #[trigger] run_at(x, q, got as int);
    }
    got == best
}

// --- fill -----------------------------------------------------------------

/// Kogge–Stone fills agree with iterated single steps, and with a full
/// propagation mask and stride 1 they are the prefix and suffix OR.
/// `stride` in `1..BITS`.
pub fn fills_match_reference(x: u64, propagate: u64, stride: u32) -> (r: bool)
    requires
        1 <= stride < 64,
    ensures
        r,
{
    let mut up = x;
    let mut down = x;
    let mut n: u32 = 0;
    while n < 64
        invariant
            n <= 64,
            1 <= stride < 64,
            forall|i: int| 0 <= i < 64 ==> #[trigger] bit_of(up, i) == reach(x, propagate, stride as int, i, n as int),
            forall|i: int| 0 <= i < 64 ==> #[trigger] bit_of(down, i) == reach(x, propagate, -stride, i, n as int),
        decreases 64 - n,
    {
        let ghost old_up = up;
        let ghost old_down = down;
        up = up | (propagate & (up << stride));
        down = down | (propagate & (down >> stride));
        proof {
            assert forall|i: int| 0 <= i < 64 implies #[trigger] bit_of(up, i) == reach(x, propagate, stride as int, i, n + 1) by {
                crate::fill::lemma_reach_step(x, propagate, stride as int, i, n as int);
                if i < stride {
                    crate::fill::lemma_reach_outside(x, propagate, stride as int, i - stride, n as int);
                } else {
                    assert(bit_of(old_up, i - stride) == reach(x, propagate, stride as int, i - stride, n as int));
                }
            }
            assert forall|i: int| 0 <= i < 64 implies #[trigger] bit_of(down, i) == reach(x, propagate, -stride, i, n + 1) by {
                crate::fill::lemma_reach_step(x, propagate, -stride, i, n as int);
                if i + stride >= 64 {
                    crate::fill::lemma_reach_outside(x, propagate, -stride, i + stride, n as int);
                } else {
                    assert(bit_of(old_down, i + stride) == reach(x, propagate, -stride, i + stride, n as int));
                }
            }
        }
        n = n + 1;
    }
    let fu = x.fill_up(propagate, stride);
    let fd = x.fill_down(propagate, stride);
    let ou = x.fill_up(0xffff_ffff_ffff_ffff, 1);
    let po = x.prefix_or();
    let od = x.fill_down(0xffff_ffff_ffff_ffff, 1);
    let so = reference::suffix_or(x);
    proof {
        lemma_bits_eq(fu, up);
        lemma_bits_eq(fd, down);
        lemma_tz(x);
        lemma_top_bit(x);
        assert forall|i: int| 0 <= i < 64 implies #[trigger] bit_of(ou, i) == bit_of(po, i) by {
            crate::fill::lemma_reach_ones_up(x, i, 64);
            if tz(x) <= i {
                assert(bit_of(x, tz(x)));
            }
        }
        lemma_bits_eq(ou, po);
        assert forall|i: int| 0 <= i < 64 implies #[trigger] bit_of(od, i) == bit_of(so, i) by {
            crate::fill::lemma_reach_ones_down(x, i, 64);
            if i <= top_bit(x) {
                assert(bit_of(x, top_bit(x)));
            }
        }
        lemma_bits_eq(od, so);
    }
    fu == up && fd == down && ou == po && od == so
}

/// Fills are idempotent and extensive (contain their generator).
pub fn fills_are_closure_operators(x: u64, p: u64, s: u32) -> (r: bool)
    ensures
        r,
{
    let up = x.fill_up(p, s);
    let down = x.fill_down(p, s);
    let up2 = up.fill_up(p, s);
    let down2 = down.fill_down(p, s);
    proof {
        if 1 <= s < 64 {
            assert forall|i: int| 0 <= i < 64 implies #[trigger] bit_of(up2, i) == bit_of(up, i) by {
                crate::fill::lemma_reach_compose(x, up, p, s as int, i, 64, 64);
                crate::fill::lemma_reach_stable(x, p, s as int, i, 64, 128);
            }
            assert forall|i: int| 0 <= i < 64 implies #[trigger] bit_of(down2, i) == bit_of(down, i) by {
                crate::fill::lemma_reach_compose(x, down, p, -s, i, 64, 64);
                crate::fill::lemma_reach_stable(x, p, -s, i, 64, 128);
            }
            lemma_bits_eq(up2, up);
            lemma_bits_eq(down2, down);
            assert forall|i: int| 0 <= i < 64 implies #[trigger] bit_of(up & x, i) == bit_of(x, i) by {
                if bit_of(x, i) {
                    crate::fill::lemma_reach_mono(x, p, s as int, i, 0, 64);
                }
            }
            assert forall|i: int| 0 <= i < 64 implies #[trigger] bit_of(down & x, i) == bit_of(x, i) by {
                if bit_of(x, i) {
                    crate::fill::lemma_reach_mono(x, p, -s, i, 0, 64);
                }
            }
        } else {
            assert forall|i: int| 0 <= i < 64 implies #[trigger] bit_of(up & x, i) == bit_of(x, i) by {}
            assert forall|i: int| 0 <= i < 64 implies #[trigger] bit_of(down & x, i) == bit_of(x, i) by {}
        }
        lemma_bits_eq(up & x, x);
        lemma_bits_eq(down & x, x);
    }
    up2 == up && down2 == down && up & x == x && down & x == x
}


// --- swar -----------------------------------------------------------------

/// Every SWAR lane predicate agrees with the per-byte definition.
/// `n` in `1..=128`.
pub fn swar_lanes_match_reference(x: u64, b: u8, n: u8) -> (r: bool)
    requires
        1 <= n <= 128,
    ensures
        r,
{
    let mut zero: u64 = 0;
    let mut eq: u64 = 0;
    let mut ge: u64 = 0;
    let mut sum: u32 = 0;
    let mut l: u32 = 0;
    while l < 8
        invariant
            l <= 8,
            sum == lane_sum(x, l as int),
            sum <= 255 * l,
            forall|i: int| #[trigger] bit_of(zero, i) == (0 <= i < 8 * l && i % 8 == 7 && lane(x, i / 8) == 0),
            forall|i: int| #[trigger] bit_of(eq, i) == (0 <= i < 8 * l && i % 8 == 7 && lane(x, i / 8) == b),
            forall|i: int| #[trigger] bit_of(ge, i) == (0 <= i < 8 * l && i % 8 == 7 && lane(x, i / 8) >= n),
        decreases 8 - l,
    {
        let byte = (x >> (l * 8)).low_byte();
        let hi = 1u64 << (l * 8 + 7);
        proof {
            crate::model::lemma_low_byte(x >> ((l * 8) as u64));
            assert(byte as u64 == lane(x, l as int));
            assert forall|i: int| #[trigger] bit_of(hi, i) == (i == 8 * l + 7) by {}
            assert forall|i: int| 8 * l <= i < 8 * l + 8 implies #[trigger] (i / 8) == l by {}
        }
        if byte == 0 {
            zero = zero | hi;
        }
        if byte == b {
            eq = eq | hi;
        }
        if byte >= n {
            ge = ge | hi;
        }
        sum = sum + byte as u32;
        l = l + 1;
    }
    let z = x.zero_bytes();
    let hz = x.has_zero_byte();
    let fz = x.first_zero_byte();
    let want_fz = match zero.first_set() {
        None => None,
        Some(p) => Some(p / 8),
    };
    let e = x.bytes_eq(b);
    let ce = x.count_bytes_eq(b);
    let g = x.bytes_ge(n);
    let lt = x.bytes_lt(n);
    let hi = <u64 as Bits>::lanes_hi();
    let sb = x.sum_bytes();
    proof {
        lemma_bits_eq(z, zero);
        lemma_bits_eq(e, eq);
        lemma_bits_eq(g, ge);
        assert forall|i: int| 0 <= i < 64 implies #[trigger] bit_of(lt, i) == bit_of(ge ^ hi, i) by {
            crate::swar::lemma_swar(x, b as u64, n as u64, i);
        }
        lemma_bits_eq(lt, ge ^ hi);
        crate::swar::lemma_count_lane_tops(eq, x, b as u64, 8);
        if hz {
            let j = choose|j: int| 0 <= j < 8 && #[trigger] lane(x, j) == 0;
            assert(bit_of(zero, 8 * j + 7));
        }
        if zero != 0 {
            crate::bits::lemma_nonzero_has_bit(zero);
            let i = choose|i: int| 0 <= i < 64 && #[trigger] bit_of(zero, i);
            assert(lane(x, i / 8) == 0);
        }
        lemma_tz(zero);
        if zero != 0 {
            let t = tz(zero);
            assert(bit_of(zero, t));
            assert forall|l: int| 0 <= l < t / 8 implies #[trigger] lane(x, l) != 0 by {
                assert(!bit_of(zero, 8 * l + 7));
            }
            match fz {
                Some(j) => {
                    assert(bit_of(zero, 8 * j + 7));
                },
                None => {
                    assert(lane(x, t / 8) == 0);
                },
            }
        } else {
            match fz {
                Some(j) => {
                    assert(bit_of(zero, 8 * j + 7));
                },
                None => {},
            }
        }
    }
    z == zero && hz != (zero == 0) && fz == want_fz && e == eq && ce == Word::count_ones(eq) && g == ge
        && lt == ge ^ hi && (sum >= 256 || sb == sum)
}

// --- powers of two ----------------------------------------------------------

proof fn lemma_one_shl(e: u64)
    requires
        e < 64,
    ensures
        (1u64 << e) == pow2(e as nat),
{
    vstd::bits::lemma_u64_pow2_no_overflow(e as nat);
    vstd::bits::lemma_u64_shl_is_mul(1, e);
}

/// Power-of-two helpers agree with their definitions.
pub fn pow2_helpers_match_reference(x: u64) -> (r: bool)
    ensures
        r,
{
    let is_pow2 = Word::count_ones(x) == 1;
    let down = match x.last_set() {
        None => None,
        Some(p) => Some(1u64 << p),
    };
    let up = reference::round_up_pow2(x);
    let floor = x.last_set();
    let ceil = if x == 0 {
        None
    } else if is_pow2 {
        floor
    } else {
        match floor {
            None => None,
            Some(p) => {
                proof {
                    lemma_top_bit(x);
                }
                Some(p + 1)
            },
        }
    };
    let a1 = x.is_pow2();
    let a2 = x.round_down_pow2();
    let a3 = x.round_up_pow2();
    let a4 = x.log2_floor();
    let a5 = x.log2_ceil();
    proof {
        lemma_round_up_agrees(x, a3, up);
        if x != 0 {
            lemma_top_bit(x);
            let y = (x - 1) as u64;
            lemma_top_bit(y);
            lemma_tz(x);
            if x == 1 {
                assert(y == 0);
                crate::model::lemma_shl_zero();
                lemma_single_popcount(0);
                assert(top_bit(x) == 0);
            } else {
                crate::model::lemma_sub_one_bits(x);
                if is_pow2 {
                    crate::model::lemma_count_below_zero(x, tz(x));
                    assert(top_bit(x) == tz(x)) by {
                        if top_bit(x) > tz(x) {
                            assert(count_below(x, tz(x) + 1) == 1);
                            lemma_count_below_mono(x, tz(x) + 1, top_bit(x));
                            assert(count_below(x, top_bit(x) + 1) == count_below(x, top_bit(x)) + 1);
                            lemma_count_below_mono(x, top_bit(x) + 1, 64);
                        }
                    }
                    if tz(x) >= 1 {
                        assert(bit_of(y, tz(x) - 1));
                    }
                    assert(top_bit(y) == tz(x) - 1);
                } else {
                    assert(top_bit(x) != tz(x)) by {
                        if top_bit(x) == tz(x) {
                            crate::model::lemma_count_below_none_above(x, tz(x) + 1, 64);
                            crate::model::lemma_count_below_zero(x, tz(x));
                        }
                    }
                    assert(bit_of(y, top_bit(x)));
                    assert(top_bit(y) == top_bit(x));
                }
            }
        }
    }
    a1 == is_pow2 && a2 == down && a3 == up && a4 == floor && a5 == ceil
}

/// The two definitions of the next power of two agree.
proof fn lemma_round_up_agrees(x: u64, a: Option<u64>, b: Option<u64>)
    requires
        x <= 1 ==> a == Some(1u64),
        x > 1 ==> a == if top_bit((x - 1) as u64) == 63 {
            None
        } else {
            Some(1u64 << ((top_bit((x - 1) as u64) + 1) as u64))
        },
        b matches Some(p) ==> exists|e: u64|
            e < 64 && p == #[trigger] (1u64 << e) && x <= p && (e == 0 || (1u64 << ((e - 1) as u64)) < x),
        b is None ==> x > 0x8000_0000_0000_0000u64,
    ensures
        a == b,
{
    vstd::arithmetic::power2::lemma2_to64();
    vstd::arithmetic::power2::lemma2_to64_rest();
    match b {
        Some(p) => {
            let e = choose|e: u64| e < 64 && p == #[trigger] (1u64 << e) && x <= p && (e == 0 || (1u64 << ((e - 1) as u64)) < x);
            lemma_one_shl(e);
            if e > 0 {
                lemma_one_shl((e - 1) as u64);
                vstd::arithmetic::power2::lemma_pow2_pos((e - 1) as nat);
            }
            if x > 1 {
                let y = (x - 1) as u64;
                crate::model::lemma_top_bit_bounds(y);
                let t = top_bit(y);
                assert(e > 0) by {
                    if e == 0 {
                        assert(pow2(0) == 1);
                    }
                }
                assert(e == t + 1) by {
                    if e > t + 2 {
                        vstd::arithmetic::power2::lemma_pow2_strictly_increases((t + 1) as nat, (e - 1) as nat);
                    } else if e < t {
                        vstd::arithmetic::power2::lemma_pow2_strictly_increases(e as nat, t as nat);
                    }
                }
            } else {
                if e > 0 {
                    assert(pow2((e - 1) as nat) >= 1);
                }
                assert(pow2(0) == 1);
            }
        },
        None => {
            let y = (x - 1) as u64;
            crate::model::lemma_top_bit_bounds(y);
            let t = top_bit(y);
            if t < 62 {
                vstd::arithmetic::power2::lemma_pow2_strictly_increases((t + 1) as nat, 63);
            }
        },
    }
}


// --- dilated / Morton -------------------------------------------------

/// Compacting a deposit under the same mask keeps the low `popcount(m)`
/// bits.
pub proof fn lemma_expand_compact(x: u64, m: u64, e: u64, c: u64)
    requires
        is_pdep(x, m, e),
        is_pext(e, m, c),
    ensures
        c == x & low_mask(popcount(m) as int),
{
    lemma_count_below_bounds(m, 64);
    assert forall|j: int| 0 <= j < 64 implies #[trigger] bit_of(c, j) == bit_of(x & low_mask(popcount(m) as int), j) by {
        if j < popcount(m) {
            lemma_select_exists(m, 64, j);
            let p = choose|p: int| 0 <= p < 64 && #[trigger] bit_of(m, p) && count_below(m, p) == j;
            assert(bit_of(c, count_below(m, p) as int) == bit_of(e, p));
        }
    }
    lemma_bits_eq(c, x & low_mask(popcount(m) as int));
}

/// Two words inside a mask with the same compact are equal.
pub proof fn lemma_pext_injective(s1: u64, s2: u64, m: u64, c: u64)
    requires
        s1 & !m == 0,
        s2 & !m == 0,
        is_pext(s1, m, c),
        is_pext(s2, m, c),
    ensures
        s1 == s2,
{
    assert forall|i: int| 0 <= i < 64 implies #[trigger] bit_of(s1, i) == bit_of(s2, i) by {
        assert(!bit_of(s1 & !m, i));
        assert(!bit_of(s2 & !m, i));
    }
    lemma_bits_eq(s1, s2);
}

/// Inside `w` bits, the wrapping successor is `+ 1` masked to `w` bits.
proof fn lemma_succ_masked(x: u64, w: int)
    requires
        0 <= w <= 64,
        x & low_mask(w) == x,
    ensures
        succ_within(x, w) == ((x + 1) as u64) & low_mask(w),
        pred_within(succ_within(x, w), w) == x,
{
    assert forall|i: int| #[trigger] bit_of(x, i) implies i < w by {
        assert(bit_of(x & low_mask(w), i));
    }
    if x == low_mask(w) {
        if w == 64 {
            assert(((x + 1) as u64) == 0) by (bit_vector)
                requires
                    x == 0xffff_ffff_ffff_ffffu64,
            ;
            assert forall|i: int| 0 <= i < 64 implies #[trigger] bit_of(0u64 & low_mask(w), i) == bit_of(0u64, i) by {}
            lemma_bits_eq(0u64 & low_mask(w), 0);
        } else {
            assert(!bit_of(x, 63));
            crate::model::lemma_add_one_bits(x);
            lemma_tz(!x);
            assert(bit_of(!x, w));
            assert forall|i: int| 0 <= i < w implies !#[trigger] bit_of(!x, i) by {}
            assert forall|i: int| 0 <= i < 64 implies #[trigger] bit_of(((x + 1) as u64) & low_mask(w), i) == bit_of(0u64, i) by {}
            lemma_bits_eq(((x + 1) as u64) & low_mask(w), 0);
        }
    } else {
        assert(x != 0xffff_ffff_ffff_ffffu64) by {
            if x == 0xffff_ffff_ffff_ffffu64 {
                assert(bit_of(x, 63));
                assert forall|i: int| 0 <= i < 64 implies #[trigger] bit_of(x, i) == bit_of(low_mask(w), i) by {}
                lemma_bits_eq(x, low_mask(w));
            }
        }
        crate::model::lemma_add_one_bits(x);
        lemma_tz(!x);
        assert(tz(!x) < w) by {
            if tz(!x) >= w {
                assert forall|i: int| 0 <= i < 64 implies #[trigger] bit_of(x, i) == bit_of(low_mask(w), i) by {
                    if i < w {
                        assert(!bit_of(!x, i));
                    }
                }
                lemma_bits_eq(x, low_mask(w));
            }
        }
        assert forall|i: int| 0 <= i < 64 implies #[trigger] bit_of(((x + 1) as u64) & low_mask(w), i) == bit_of((x + 1) as u64, i) by {}
        lemma_bits_eq(((x + 1) as u64) & low_mask(w), (x + 1) as u64);
    }
}

/// Dilating then un-dilating is the identity on values that fit.
pub fn dilated_roundtrip<const D: u32>(x: u64) -> (r: bool)
    requires
        D >= 1,
    ensures
        r,
{
    proof {
        lemma_dilation_popcount(D as int);
    }
    let x = x & <u64 as Word>::low_ones(Dilated::<D>::width());
    let d = Dilated::<D>::from_int(x);
    let back = d.into_int();
    proof {
        lemma_dilation_popcount(D as int);
        lemma_expand_compact(x, dilation_mask(D as int), d@, back);
        lemma_bits_eq(back, x);
    }
    back == x
}

/// `incr` in dilated space is `+ 1` modulo the dilated width.
pub fn dilated_incr_is_add_one<const D: u32>(x: u64) -> (r: bool)
    requires
        D >= 1,
    ensures
        r,
{
    proof {
        lemma_dilation_popcount(D as int);
    }
    let width = <u64 as Word>::low_ones(Dilated::<D>::width());
    let x = x & width;
    let d = Dilated::<D>::from_int(x);
    let c = d.into_int();
    let n = d.incr();
    let got = n.into_int();
    let sum = x.wrapping_add(1);
    proof {
        let m = dilation_mask(D as int);
        lemma_dilation_popcount(D as int);
        lemma_expand_compact(x, m, d@, c);
        lemma_bits_eq(c, x);
        crate::model::lemma_wrapping_add_is_truncation(x, 1, sum);
        lemma_bits_eq(x & width, x);
        lemma_succ_masked(x, popcount(m) as int);
        lemma_pext_unique(n@, m, got, succ_within(x, popcount(m) as int));
    }
    got == sum & width
}

/// `decr` undoes `incr`.
pub fn dilated_decr_after_incr_is_identity<const D: u32>(x: u64) -> (r: bool)
    requires
        D >= 1,
    ensures
        r,
{
    proof {
        lemma_dilation_popcount(D as int);
    }
    let width = <u64 as Word>::low_ones(Dilated::<D>::width());
    let d = Dilated::<D>::from_int(x & width);
    let c = d.into_int();
    let back = d.incr().decr();
    let db = d.bits();
    let bb = back.bits();
    proof {
        let m = dilation_mask(D as int);
        let xm = x & width;
        lemma_dilation_popcount(D as int);
        lemma_expand_compact(xm, m, d@, c);
        lemma_bits_eq(xm & width, xm);
        lemma_bits_eq(c, xm);
        lemma_succ_masked(xm, popcount(m) as int);
        lemma_pext_injective(bb, db, m, c);
    }
    bb == db
}

/// `wrapping_add` in dilated space is `+` modulo the dilated width.
pub fn dilated_add_is_add<const D: u32>(a: u64, b: u64) -> (r: bool)
    requires
        D >= 1,
    ensures
        r,
{
    proof {
        lemma_dilation_popcount(D as int);
    }
    let width = <u64 as Word>::low_ones(Dilated::<D>::width());
    let a = a & width;
    let b = b & width;
    let da = Dilated::<D>::from_int(a);
    let db = Dilated::<D>::from_int(b);
    let ca = da.into_int();
    let cb = db.into_int();
    let dsum = da.wrapping_add(db);
    let got = dsum.into_int();
    let sum = a.wrapping_add(b);
    proof {
        let m = dilation_mask(D as int);
        lemma_dilation_popcount(D as int);
        lemma_expand_compact(a, m, da@, ca);
        lemma_expand_compact(b, m, db@, cb);
        lemma_bits_eq(a & width, a);
        lemma_bits_eq(b & width, b);
        lemma_bits_eq(ca, a);
        lemma_bits_eq(cb, b);
        crate::model::lemma_wrapping_add_is_truncation(a, b, sum);
    }
    proof {
        let m = dilation_mask(D as int);
        lemma_pext_unique(dsum@, m, got, ((a + b) as u64) & low_mask(popcount(m) as int));
    }
    got == sum & width
}

/// Encoding then decoding a Morton code returns the coordinates.
pub fn morton_roundtrip(x: u64, y: u64) -> (r: bool)
    ensures
        r,
{
    let half = <u64 as Word>::low_ones(32);
    let x = x & half;
    let y = y & half;
    let m = Morton2::encode(x, y);
    let (dx, dy) = m.decode();
    proof {
        let code = m@;
        assert forall|i: int| 0 <= i < 64 implies #[trigger] bit_of(dx, i) == bit_of(x, i) by {
            if i < 32 {
                assert(bit_of(code, 2 * i) == bit_of(x, i));
                assert(i * 2 + 0 == 2 * i);
            }
        }
        assert forall|i: int| 0 <= i < 64 implies #[trigger] bit_of(dy, i) == bit_of(y, i) by {
            if i < 32 {
                assert(bit_of(code, 2 * i) == bit_of(x, i));
                assert(bit_of(code, 2 * i + 1) == bit_of(y, i));
                assert(i * 2 + 1 == 2 * i + 1);
            }
        }
        lemma_bits_eq(dx, x);
        lemma_bits_eq(dy, y);
    }
    dx == x && dy == y
}


/// The compact of a code's even bits is its `x`, and of its odd bits its
/// `y`, when both fit in half a word.
proof fn lemma_code_compacts(code: u64, x: u64, y: u64)
    requires
        interleaves2(code, x, y),
        forall|i: int| 32 <= i ==> !#[trigger] bit_of(x, i),
        forall|i: int| 32 <= i ==> !#[trigger] bit_of(y, i),
    ensures
        is_pext(code & dilation_mask(2), dilation_mask(2), x),
        is_pext((code >> 1u64) & dilation_mask(2), dilation_mask(2), y),
{
    crate::dilated::lemma_dilation_mask(2);
    lemma_dilation_popcount(2);
    assert forall|q: int| #[trigger] bit_of(dilation_mask(2), q) implies bit_of(x, count_below(dilation_mask(2), q) as int) == bit_of(code & dilation_mask(2), q)
        && bit_of(y, count_below(dilation_mask(2), q) as int) == bit_of((code >> 1u64) & dilation_mask(2), q) by {
        let i = q / 2;
        assert(q == 2 * i);
        crate::dilated::lemma_dilation_rank(2, i);
        assert(bit_of(code, 2 * i) == bit_of(x, i));
        assert(!bit_of(dilation_mask(2), q + 1)) by {
            vstd::arithmetic::div_mod::lemma_mod_multiples_vanish(i, 1, 2);
        }
    }
}

/// Which half of a code a position belongs to, and at which level.
proof fn lemma_split_position(j: int)
    requires
        0 <= j < 64,
    ensures
        j == 2 * (j / 2) + j % 2,
        0 <= j / 2 < 32,
        j % 2 == 0 || j % 2 == 1,
{
}

/// `step_x` and `step_y` move one cell along the axis, wrapping.
pub fn morton_steps_are_unit_moves(x: u64, y: u64) -> (r: bool)
    ensures
        r,
{
    let half = <u64 as Word>::low_ones(32);
    let x = x & half;
    let y = y & half;
    let m = Morton2::encode(x, y);
    let sx = m.step_x();
    let sy = m.step_y();
    let nx = x.wrapping_add(1) & half;
    let ny = y.wrapping_add(1) & half;
    let ex = Morton2::encode(nx, y);
    let ey = Morton2::encode(x, ny);
    proof {
        let md = dilation_mask(2);
        crate::dilated::lemma_dilation_mask(2);
        lemma_code_compacts(m@, x, y);
        crate::model::lemma_wrapping_add_is_truncation(x, 1, x.wrapping_add(1));
        crate::model::lemma_wrapping_add_is_truncation(y, 1, y.wrapping_add(1));
        lemma_bits_eq(x & half, x);
        lemma_bits_eq(y & half, y);
        lemma_succ_masked(x, 32);
        lemma_succ_masked(y, 32);
        assert(is_pext(sx@ & md, md, nx));
        assert(is_pext((sy@ >> 1u64) & md, md, ny));
        assert forall|j: int| 0 <= j < 64 implies #[trigger] bit_of(sx@, j) == bit_of(ex@, j) by {
            lemma_split_position(j);
            let i = j / 2;
            crate::dilated::lemma_dilation_rank(2, i);
            assert(bit_of(ex@, 2 * i) == bit_of(nx, i));
            assert(bit_of(m@, 2 * i) == bit_of(x, i));
            assert(bit_of(sx@, 2 * i + 1) == bit_of(m@, 2 * i + 1));
            assert(bit_of(nx, count_below(md, 2 * i) as int) == bit_of(sx@ & md, 2 * i));
        }
        lemma_bits_eq(sx@, ex@);
        crate::dilated::lemma_morton2_view_eq(sx, ex);
        assert forall|j: int| 0 <= j < 64 implies #[trigger] bit_of(sy@, j) == bit_of(ey@, j) by {
            lemma_split_position(j);
            let i = j / 2;
            crate::dilated::lemma_dilation_rank(2, i);
            assert(bit_of(ey@, 2 * i) == bit_of(x, i));
            assert(bit_of(m@, 2 * i) == bit_of(x, i));
            assert(bit_of(sy@, 2 * i) == bit_of(m@, 2 * i));
            assert(bit_of(ny, count_below(md, 2 * i) as int) == bit_of((sy@ >> 1u64) & md, 2 * i));
        }
        lemma_bits_eq(sy@, ey@);
        crate::dilated::lemma_morton2_view_eq(sy, ey);
    }
    sx == ex && sy == ey
}

/// Aligned `2×2` blocks are contiguous code ranges: the block at even
/// `(x, y)` occupies `code..code + 4`.
pub fn morton_aligned_block_is_contiguous(x: u64, y: u64) -> (r: bool)
    ensures
        r,
{
    let half = <u64 as Word>::low_ones(32);
    let even = half & !1u64;
    let x = x & even;
    let y = y & even;
    let base = Morton2::encode(x, y).code();
    let c00 = Morton2::encode(x | 0, y | 0).code();
    let c10 = Morton2::encode(x | 1, y | 0).code();
    let c01 = Morton2::encode(x | 0, y | 1).code();
    let c11 = Morton2::encode(x | 1, y | 1).code();
    let three = <u64 as Word>::low_ones(2);
    proof {
        assert forall|j: int| 0 <= j < 64 implies #[trigger] bit_of(c00, j) == bit_of(base, j)
            && bit_of(c10, j) == bit_of(base | 1, j) && bit_of(c01, j) == bit_of(base | 2, j)
            && bit_of(c11, j) == bit_of(base | three, j) by {
            lemma_split_position(j);
            let i = j / 2;
            assert(bit_of(2u64, j) == (j == 1)) by {
                assert(2u64 == 1u64 << 1u64) by (bit_vector);
            }
            assert(bit_of(c00, 2 * i) == bit_of(x | 0, i));
            assert(bit_of(c10, 2 * i) == bit_of(x | 1, i));
            assert(bit_of(c01, 2 * i) == bit_of(x | 0, i));
            assert(bit_of(c11, 2 * i) == bit_of(x | 1, i));
            assert(bit_of(base, 2 * i) == bit_of(x, i));
        }
        lemma_bits_eq(c00, base);
        lemma_bits_eq(c10, base | 1);
        lemma_bits_eq(c01, base | 2);
        lemma_bits_eq(c11, base | three);
    }
    c00 == base && c10 == base | 1 && c01 == base | 2 && c11 == base | three
}


// --- rank9 ------------------------------------------------------------

/// The directory agrees with the linear scans of [`crate::slice`] it
/// indexes: `rank` and `rank0` at `i`, `select` at `k`, and the total.
pub fn rank9_matches_slice(dir: &Rank9<'_>, i: usize, k: usize) -> (r: bool)
    ensures
        r,
{
    let bits = dir.bits();
    let rank = bits.rank(i);
    let len = dir.len();
    let here = dir.select(k);
    let there = bits.select(k);
    proof {
        match (here, there) {
            (Some(p), Some(q)) => {
                crate::rank9::lemma_srank_mono(bits@, p as int, p + 1);
                crate::rank9::lemma_sel_pos(bits@, k as int);
            },
            (Some(p), None) => {
                crate::rank9::lemma_srank_mono(bits@, p as int, p + 1);
            },
            (None, Some(q)) => {
                crate::rank9::lemma_srank_mono(bits@, q as int, q + 1);
            },
            (None, None) => {},
        }
    }
    let min = if i < len { i } else { len };
    proof {
        crate::rank9::lemma_srank_le(bits@, i as int);
    }
    let same = match (here, there) {
        (Some(p), Some(q)) => p == q,
        (None, None) => true,
        _ => false,
    };
    dir.rank(i) == rank && dir.rank0(i) == min - rank && same && dir.count_ones() == Words::count_ones(bits)
}

/// `select` inverts `rank` on set bits: for `k < count_ones()`,
/// `rank(select(k)) == k` and the bit at `select(k)` is set; beyond that
/// `select` is `None`.
pub fn rank9_select_inverts_rank(dir: &Rank9<'_>, k: usize) -> (r: bool)
    ensures
        r,
{
    let bits = dir.bits();
    match dir.select(k) {
        None => k >= dir.count_ones(),
        Some(p) => {
            proof {
                crate::rank9::lemma_srank_next(bits@, p as int);
            }
            dir.rank(p) == k && dir.rank(p + 1) == k + 1
        },
    }
}

/// `rank` is monotone and steps by exactly the bit at `i`.
pub fn rank9_rank_steps_by_bit(dir: &Rank9<'_>, i: usize) -> (r: bool)
    requires
        i < usize::MAX,
    ensures
        r,
{
    let bits = dir.bits();
    let bit = i < dir.len() && bits[i / 64].bit((i % 64) as u32);
    proof {
        crate::rank9::lemma_srank_next(bits@, i as int);
        crate::slice::lemma_div64(i as int);
    }
    let before = dir.rank(i);
    let after = dir.rank(i + 1);
    proof {
        crate::rank9::lemma_srank_le(bits@, i + 1);
    }
    after == before + if bit { 1 } else { 0 }
}

// --- board8 -----------------------------------------------------------

/// Row of the preimage of cell `(r, c)` under permutation `which`:
/// transpose, vertical flip, horizontal mirror, quarter turn clockwise,
/// quarter turn counter-clockwise, half turn.
pub open spec fn board_inv_r(which: int, r: int, c: int) -> int {
    if which == 0 {
        c
    } else if which == 1 {
        7 - r
    } else if which == 2 {
        r
    } else if which == 3 {
        c
    } else if which == 4 {
        7 - c
    } else {
        7 - r
    }
}

/// Column of the preimage of cell `(r, c)` under permutation `which`.
pub open spec fn board_inv_c(which: int, r: int, c: int) -> int {
    if which == 0 {
        r
    } else if which == 1 {
        c
    } else if which == 2 {
        7 - c
    } else if which == 3 {
        7 - r
    } else if which == 4 {
        r
    } else {
        7 - c
    }
}

/// The permutation `which` of a board, built cell by cell: every set cell
/// `(r, c)` of `x` moved to where the permutation sends it.
fn board_by_cells(x: u64, which: u8) -> (out: u64)
    requires
        which < 6,
    ensures
        forall|r: int, c: int| 0 <= r < 8 && 0 <= c < 8 ==> #[trigger] cell(out, r, c) == cell(x, board_inv_r(which as int, r, c), board_inv_c(which as int, r, c)),
{
    let mut out: u64 = 0;
    let mut sq: u32 = 0;
    while sq < 64
        invariant
            which < 6,
            sq <= 64,
            forall|r: int, c: int| 0 <= r < 8 && 0 <= c < 8 ==> #[trigger] cell(out, r, c) == (8 * board_inv_r(which as int, r, c) + board_inv_c(which as int, r, c) < sq && cell(x, board_inv_r(which as int, r, c), board_inv_c(which as int, r, c))),
        decreases 64 - sq,
    {
        if (x >> sq) & 1 == 1 {
            let r = sq / 8;
            let c = sq % 8;
            let (nr, nc): (u32, u32) = if which == 0 {
                (c, r)
            } else if which == 1 {
                (7 - r, c)
            } else if which == 2 {
                (r, 7 - c)
            } else if which == 3 {
                (7 - c, r)
            } else if which == 4 {
                (c, 7 - r)
            } else {
                (7 - r, 7 - c)
            };
            let bit = 1u64 << (8 * nr + nc);
            proof {
                assert forall|rr: int, cc: int| 0 <= rr < 8 && 0 <= cc < 8 implies #[trigger] cell(out | bit, rr, cc) == (cell(out, rr, cc) || (rr == nr && cc == nc)) by {
                    crate::model::lemma_bit_single((8 * nr + nc) as u64, 8 * rr + cc);
                }
            }
            out = out | bit;
        }
        sq = sq + 1;
    }
    out
}

/// Boards with the same cells are the same word.
proof fn lemma_cells_eq(a: u64, b: u64)
    requires
        forall|r: int, c: int| 0 <= r < 8 && 0 <= c < 8 ==> #[trigger] cell(a, r, c) == cell(b, r, c),
    ensures
        a == b,
{
    assert forall|i: int| 0 <= i < 64 implies #[trigger] bit_of(a, i) == bit_of(b, i) by {
        assert(cell(a, i / 8, i % 8) == cell(b, i / 8, i % 8));
    }
    lemma_bits_eq(a, b);
}

/// Every board permutation moves each cell where it should, and they
/// compose as the symmetries of a square do.
pub fn board8_permutations_are_correct(x: u64) -> (r: bool)
    ensures
        r,
{
    let t = transpose(x);
    let f = flip_vertical(x);
    let m = mirror_horizontal(x);
    let cw = rotate_90_cw(x);
    let ccw = rotate_90_ccw(x);
    let half = rotate_180(x);
    let c0 = board_by_cells(x, 0);
    let c1 = board_by_cells(x, 1);
    let c2 = board_by_cells(x, 2);
    let c3 = board_by_cells(x, 3);
    let c4 = board_by_cells(x, 4);
    let c5 = board_by_cells(x, 5);
    let tt = transpose(t);
    let cw2 = rotate_90_cw(cw);
    let cw3 = rotate_90_cw(cw2);
    let cw4 = rotate_90_cw(cw3);
    let back = rotate_90_ccw(cw);
    let fm = flip_vertical(m);
    proof {
        lemma_cells_eq(c0, t);
        lemma_cells_eq(c1, f);
        lemma_cells_eq(c2, m);
        lemma_cells_eq(c3, cw);
        lemma_cells_eq(c4, ccw);
        lemma_cells_eq(c5, half);
        lemma_cells_eq(tt, x);
        assert forall|r: int, c: int| 0 <= r < 8 && 0 <= c < 8 implies #[trigger] cell(cw4, r, c) == cell(x, r, c) by {
            assert(cell(cw4, r, c) == cell(cw3, c, 7 - r));
            assert(cell(cw3, c, 7 - r) == cell(cw2, 7 - r, 7 - c));
            assert(cell(cw2, 7 - r, 7 - c) == cell(cw, 7 - c, r));
        }
        lemma_cells_eq(cw4, x);
        assert forall|r: int, c: int| 0 <= r < 8 && 0 <= c < 8 implies #[trigger] cell(back, r, c) == cell(x, r, c) by {
            assert(cell(back, r, c) == cell(cw, 7 - c, r));
        }
        lemma_cells_eq(back, x);
        assert forall|r: int, c: int| 0 <= r < 8 && 0 <= c < 8 implies #[trigger] cell(fm, r, c) == cell(half, r, c) by {
            assert(cell(fm, r, c) == cell(m, 7 - r, c));
        }
        lemma_cells_eq(fm, half);
    }
    c0 == t && c1 == f && c2 == m && c3 == cw && c4 == ccw && c5 == half && tt == x && cw4 == x && back == x && half == fm
}

// --- grid -------------------------------------------------------------

/// Whether the `w × h` block at `(r, c)` is all set, cell by cell.
fn block_all(rows: &[u64], r: usize, c: u32, w: u32, h: u32) -> (b: bool)
    requires
        1 <= w <= 64,
        c < 64,
    ensures
        b == block_at(rows@, r as int, c as int, w as int, h as int),
{
    let len = rows.len();
    if r > len || (h as usize) > len - r || w > 64 - c {
        return false;
    }
    let mut rr: usize = r;
    while rr < r + h as usize
        invariant
            len == rows@.len(),
            r + h <= len,
            c + w <= 64,
            r <= rr <= r + h,
            forall|a: int, b: int| r <= a < rr && c <= b < c + w ==> #[trigger] bit_of(rows@[a], b),
        decreases r + h - rr,
    {
        let mut cc: u32 = c;
        while cc < c + w
            invariant
                len == rows@.len(),
                r <= rr < r + h <= len,
                c + w <= 64,
                c <= cc <= c + w,
                forall|a: int, b: int| r <= a < rr && c <= b < c + w ==> #[trigger] bit_of(rows@[a], b),
                forall|b: int| c <= b < cc ==> #[trigger] bit_of(rows@[rr as int], b),
            decreases c + w - cc,
        {
            if !rows[rr].bit(cc) {
                proof {
                    assert(!bit_of(rows@[rr as int], cc as int));
                }
                return false;
            }
            cc = cc + 1;
        }
        rr = rr + 1;
    }
    true
}

/// A `w2 × h2` block of `w1 × h1` block starts is a `(w1 + w2 - 1) × (h1 +
/// h2 - 1)` block of cells.
proof fn lemma_block_compose(rows: Seq<u64>, starts: Seq<u64>, w1: int, h1: int, w2: int, h2: int, r: int, c: int)
    requires
        starts.len() == rows.len(),
        1 <= w1,
        1 <= h1,
        1 <= w2,
        1 <= h2,
        0 <= c < 64,
        forall|p: int, q: int| 0 <= p < rows.len() && 0 <= q < 64 ==> #[trigger] bit_of(starts[p], q) == block_at(rows, p, q, w1, h1),
    ensures
        block_at(starts, r, c, w2, h2) == block_at(rows, r, c, w1 + w2 - 1, h1 + h2 - 1),
{
    if block_at(rows, r, c, w1 + w2 - 1, h1 + h2 - 1) {
        assert forall|rr: int, cc: int| r <= rr < r + h2 && c <= cc < c + w2 implies #[trigger] bit_of(starts[rr], cc) by {
            assert forall|a: int, b: int| rr <= a < rr + h1 && cc <= b < cc + w1 implies #[trigger] bit_of(rows[a], b) by {
                assert(bit_of(rows[a], b));
            }
            assert(block_at(rows, rr, cc, w1, h1));
        }
    }
    if block_at(starts, r, c, w2, h2) {
        let lr = r + h2 - 1;
        let lc = c + w2 - 1;
        assert(bit_of(starts[lr], lc));
        assert(block_at(rows, lr, lc, w1, h1));
        assert forall|a: int, b: int| r <= a < r + h1 + h2 - 1 && c <= b < c + w1 + w2 - 1 implies #[trigger] bit_of(rows[a], b) by {
            let rr = if a < r + h2 { a } else { r + h2 - 1 };
            let cc = if b < c + w2 { b } else { c + w2 - 1 };
            assert(bit_of(starts[rr], cc));
            assert(block_at(rows, rr, cc, w1, h1));
        }
    }
}

/// `block_starts` agrees with the per-cell definition, is the run search
/// for a height of one, and composes: the `w2 × h2` block starts of the
/// `w1 × h1` ones are the `(w1 + w2 - 1) × (h1 + h2 - 1)` ones.
pub fn block_starts_laws(rows: &[u64], w1: u32, h1: u32, w2: u32, h2: u32) -> (r: bool)
    requires
        1 <= w1 <= 64,
        1 <= w2 <= 64,
        w1 + w2 - 1 <= 64,
        1 <= h1,
        1 <= h2,
        h1 + h2 - 1 <= u32::MAX,
    ensures
        r,
{
    let len = rows.len();
    let mut out: Vec<u64> = vec![0; len];
    block_starts(rows, w1, h1, out.as_mut_slice());
    let mut i: usize = 0;
    while i < len
        invariant
            len == rows@.len(),
            out@.len() == len,
            1 <= w1 <= 64,
            forall|p: int, q: int| 0 <= p < len && 0 <= q < 64 ==> #[trigger] bit_of(out@[p], q) == block_at(rows@, p, q, w1 as int, h1 as int),
            i <= len,
        decreases len - i,
    {
        let mut c: u32 = 0;
        while c < 64
            invariant
                len == rows@.len(),
                out@.len() == len,
                i < len,
                1 <= w1 <= 64,
                forall|p: int, q: int| 0 <= p < len && 0 <= q < 64 ==> #[trigger] bit_of(out@[p], q) == block_at(rows@, p, q, w1 as int, h1 as int),
                c <= 64,
            decreases 64 - c,
        {
            if out[i].bit(c) != block_all(rows, i, c, w1, h1) {
                return false;
            }
            c = c + 1;
        }
        i = i + 1;
    }
    let mut one: Vec<u64> = vec![0; len];
    block_starts(rows, w1, 1, one.as_mut_slice());
    let mut j: usize = 0;
    while j < len
        invariant
            len == rows@.len(),
            one@.len() == len,
            1 <= w1 <= 64,
            forall|p: int, q: int| 0 <= p < len && 0 <= q < 64 ==> #[trigger] bit_of(one@[p], q) == block_at(rows@, p, q, w1 as int, 1),
            j <= len,
        decreases len - j,
    {
        let runs = rows[j].run_starts(w1);
        proof {
            assert forall|q: int| 0 <= q < 64 implies #[trigger] bit_of(one@[j as int], q) == bit_of(runs, q) by {
                assert(bit_of(runs, q) == run_at(rows@[j as int], q, w1 as int));
                assert(block_at(rows@, j as int, q, w1 as int, 1) == run_at(rows@[j as int], q, w1 as int)) by {
                    if run_at(rows@[j as int], q, w1 as int) {
                        assert forall|rr: int, cc: int| j <= rr < j + 1 && q <= cc < q + w1 implies #[trigger] bit_of(rows@[rr], cc) by {
                            assert(rr == j);
                        }
                    }
                    if block_at(rows@, j as int, q, w1 as int, 1) {
                        assert forall|b: int| q <= b < q + w1 implies #[trigger] bit_of(rows@[j as int], b) by {
                            assert(bit_of(rows@[j as int], b));
                        }
                    }
                }
            }
            lemma_bits_eq(one@[j as int], runs);
        }
        if one[j] != runs {
            return false;
        }
        j = j + 1;
    }
    let mut twice: Vec<u64> = vec![0; len];
    block_starts(out.as_slice(), w2, h2, twice.as_mut_slice());
    let mut direct: Vec<u64> = vec![0; len];
    block_starts(rows, w1 + w2 - 1, h1 + (h2 - 1), direct.as_mut_slice());
    let mut k: usize = 0;
    while k < len
        invariant
            len == rows@.len(),
            out@.len() == len,
            twice@.len() == len,
            direct@.len() == len,
            1 <= w1,
            1 <= w2,
            1 <= h1,
            1 <= h2,
            forall|p: int, q: int| 0 <= p < len && 0 <= q < 64 ==> #[trigger] bit_of(out@[p], q) == block_at(rows@, p, q, w1 as int, h1 as int),
            forall|p: int, q: int| 0 <= p < len && 0 <= q < 64 ==> #[trigger] bit_of(twice@[p], q) == block_at(out@, p, q, w2 as int, h2 as int),
            forall|p: int, q: int| 0 <= p < len && 0 <= q < 64 ==> #[trigger] bit_of(direct@[p], q) == block_at(rows@, p, q, (w1 + w2 - 1) as int, (h1 + h2 - 1) as int),
            k <= len,
        decreases len - k,
    {
        proof {
            assert forall|q: int| 0 <= q < 64 implies #[trigger] bit_of(twice@[k as int], q) == bit_of(direct@[k as int], q) by {
                lemma_block_compose(rows@, out@, w1 as int, h1 as int, w2 as int, h2 as int, k as int, q);
            }
            lemma_bits_eq(twice@[k as int], direct@[k as int]);
        }
        if twice[k] != direct[k] {
            return false;
        }
        k = k + 1;
    }
    true
}
/// The first `j` squares from `(sr, sc)` in direction `d` are on the board
/// and all but the last are empty: a piece there reaches the `j`-th.
pub open spec fn walked(empty: u64, d: Dir, sr: int, sc: int, j: int) -> bool
    decreases j,
{
    let (dr, dc) = delta_of(d);
    j <= 0 || (walked(empty, d, sr, sc, j - 1) && on_board(sr + j * dr, sc + j * dc)
        && (j == 1 || square(empty, sr + (j - 1) * dr, sc + (j - 1) * dc)))
}

/// A walk of `j` squares contains every shorter one.
proof fn lemma_walked_shorter(empty: u64, d: Dir, sr: int, sc: int, i: int, j: int)
    requires
        i <= j,
        walked(empty, d, sr, sc, j),
    ensures
        walked(empty, d, sr, sc, i),
    decreases j - i,
{
    if i < j {
        lemma_walked_shorter(empty, d, sr, sc, i, j - 1);
    }
}

/// A square is attacked exactly when some piece walks to it.
proof fn lemma_attacked_by_walk(pieces: u64, empty: u64, d: Dir, r: int, c: int, n: int)
    requires
        0 <= n,
    ensures
        attacked(pieces, empty, d, r, c, n) ==> exists|sr: int, sc: int, j: int| 1 <= j <= n + 1
            && square(pieces, sr, sc) && #[trigger] walked(empty, d, sr, sc, j)
            && r == sr + j * delta_of(d).0 && c == sc + j * delta_of(d).1,
        forall|sr: int, sc: int, j: int| 1 <= j <= n + 1 && square(pieces, sr, sc) && #[trigger] walked(empty, d, sr, sc, j)
            && r == sr + j * delta_of(d).0 && c == sc + j * delta_of(d).1 ==> attacked(pieces, empty, d, r, c, n),
    decreases n,
{
    let (dr, dc) = delta_of(d);
    if n > 0 {
        lemma_attacked_by_walk(pieces, empty, d, r - dr, c - dc, n - 1);
    }
    if attacked(pieces, empty, d, r, c, n) {
        if square(pieces, r - dr, c - dc) {
            assert(walked(empty, d, r - dr, c - dc, 0));
            assert(walked(empty, d, r - dr, c - dc, 1));
        } else {
            let (sr, sc, j) = choose|sr: int, sc: int, j: int| 1 <= j <= n && square(pieces, sr, sc)
                && #[trigger] walked(empty, d, sr, sc, j) && r - dr == sr + j * dr && c - dc == sc + j * dc;
            assert(r == sr + (j + 1) * dr && c == sc + (j + 1) * dc) by (nonlinear_arith)
                requires r - dr == sr + j * dr, c - dc == sc + j * dc;
            assert(walked(empty, d, sr, sc, j + 1));
        }
    }
    assert forall|sr: int, sc: int, j: int| 1 <= j <= n + 1 && square(pieces, sr, sc) && #[trigger] walked(empty, d, sr, sc, j)
        && r == sr + j * dr && c == sc + j * dc implies attacked(pieces, empty, d, r, c, n) by {
        if j == 1 {
            assert(r - dr == sr && c - dc == sc);
        } else {
            assert(r - dr == sr + (j - 1) * dr && c - dc == sc + (j - 1) * dc) by (nonlinear_arith)
                requires r == sr + j * dr, c == sc + j * dc;
            assert(walked(empty, d, sr, sc, j - 1));
        }
    }
}

/// The squares a piece at `q` walks to in direction `d`.
pub open spec fn walk_hits(empty: u64, d: Dir, q: int, t: int) -> bool {
    exists|j: int| 1 <= j <= 8 && #[trigger] walked(empty, d, q / 8, q % 8, j)
        && t == 8 * (q / 8 + j * delta_of(d).0) + q % 8 + j * delta_of(d).1
}

/// The squares a piece at `sq` attacks in direction `(dr, dc)`: walking
/// until the edge or the first occupied square, which is included.
#[verifier::spinoff_prover]
fn ray_from(empty: u64, dir: Dir, dr: i64, dc: i64, sq: u32) -> (w: u64)
    requires
        sq < 64,
        delta_of(dir) == (dr as int, dc as int),
    ensures
        forall|t: int| 0 <= t < 64 ==> #[trigger] bit_of(w, t) == walk_hits(empty, dir, sq as int, t),
{
    let mut w = 0u64;
    let sr: i64 = (sq / 8) as i64;
    let sc: i64 = (sq % 8) as i64;
    let mut r = sr;
    let mut c = sc;
    let ghost mut j: int = 0;
    assert(-1 <= dr <= 1 && -1 <= dc <= 1 && !(dr == 0 && dc == 0));
    loop
        invariant_except_break
            walked(empty, dir, sr as int, sc as int, j),
            j == 0 || square(empty, r as int, c as int),
        invariant
            sq < 64,
            sr == sq / 8,
            sc == sq % 8,
            delta_of(dir) == (dr as int, dc as int),
            -1 <= dr <= 1,
            -1 <= dc <= 1,
            !(dr == 0 && dc == 0),
            0 <= j <= 8,
            r == sr + j * dr,
            c == sc + j * dc,
            0 <= r < 8,
            0 <= c < 8,
            forall|t: int| 0 <= t < 64 ==> #[trigger] bit_of(w, t) == exists|i: int| 1 <= i <= j
                && #[trigger] walked(empty, dir, sr as int, sc as int, i) && t == 8 * (sr + i * dr) + sc + i * dc,
        ensures
            forall|i: int| j < i <= 8 ==> !#[trigger] walked(empty, dir, sr as int, sc as int, i),
            forall|t: int| 0 <= t < 64 ==> #[trigger] bit_of(w, t) == exists|i: int| 1 <= i <= j
                && #[trigger] walked(empty, dir, sr as int, sc as int, i) && t == 8 * (sr + i * dr) + sc + i * dc,
        decreases 8 - j,
    {
        let ghost wj = j;
        if !(0 <= r + dr && r + dr < 8 && 0 <= c + dc && c + dc < 8) {
            proof {
                assert(!walked(empty, dir, sr as int, sc as int, j + 1)) by {
                    assert(sr + (j + 1) * dr == r + dr && sc + (j + 1) * dc == c + dc) by (nonlinear_arith)
                        requires r == sr + j * dr, c == sc + j * dc;
                }
                assert forall|i: int| j < i <= 8 implies !#[trigger] walked(empty, dir, sr as int, sc as int, i) by {
                    if walked(empty, dir, sr as int, sc as int, i) {
                        lemma_walked_shorter(empty, dir, sr as int, sc as int, j + 1, i);
                    }
                }
            }
            break;
        }
        r = r + dr;
        c = c + dc;
        proof {
            j = j + 1;
            assert(r == sr + j * dr && c == sc + j * dc) by (nonlinear_arith)
                requires r == sr + (j - 1) * dr + dr, c == sc + (j - 1) * dc + dc;
            assert(walked(empty, dir, sr as int, sc as int, j));
            if j > 8 {
                assert(false) by (nonlinear_arith)
                    requires r == sr + j * dr, c == sc + j * dc, 0 <= r < 8, 0 <= c < 8, 0 <= sr < 8, 0 <= sc < 8,
                        -1 <= dr <= 1, -1 <= dc <= 1, !(dr == 0 && dc == 0), j > 8;
            }
        }
        let ghost prev = w;
        let bit = 1u64 << ((8 * r + c) as u64);
        w = w | bit;
        proof {
            assert forall|t: int| 0 <= t < 64 implies #[trigger] bit_of(w, t) == exists|i: int| 1 <= i <= j
                && #[trigger] walked(empty, dir, sr as int, sc as int, i) && t == 8 * (sr + i * dr) + sc + i * dc by {
                if exists|i: int| 1 <= i <= j && #[trigger] walked(empty, dir, sr as int, sc as int, i)
                    && t == 8 * (sr + i * dr) + sc + i * dc {
                    let i = choose|i: int| 1 <= i <= j && #[trigger] walked(empty, dir, sr as int, sc as int, i)
                        && t == 8 * (sr + i * dr) + sc + i * dc;
                    if i < j {
                        assert(1 <= i <= wj && walked(empty, dir, sr as int, sc as int, i));
                    }
                }
            }
        }
        if (empty >> ((8 * r + c) as u64)) & 1 != 1 {
            proof {
                assert(!square(empty, r as int, c as int));
                assert forall|i: int| j < i <= 8 implies !#[trigger] walked(empty, dir, sr as int, sc as int, i) by {
                    if walked(empty, dir, sr as int, sc as int, i) {
                        lemma_walked_shorter(empty, dir, sr as int, sc as int, j + 1, i);
                        assert(sr + (j + 1 - 1) * dr == r && sc + (j + 1 - 1) * dc == c);
                    }
                }
            }
            break;
        }
        proof {
            let ti = 8 * (r as int) + (c as int);
            assert(ti as u64 == (8 * r + c) as u64);
            assert(bit_of(empty, ti));
        }
    }
    proof {
        assert forall|t: int| 0 <= t < 64 implies #[trigger] bit_of(w, t) == walk_hits(empty, dir, sq as int, t) by {
            assert((sq as int) / 8 == sr && (sq as int) % 8 == sc);
            if walk_hits(empty, dir, sq as int, t) {
                let i = choose|i: int| 1 <= i <= 8 && #[trigger] walked(empty, dir, (sq as int) / 8, (sq as int) % 8, i)
                    && t == 8 * ((sq as int) / 8 + i * delta_of(dir).0) + (sq as int) % 8 + i * delta_of(dir).1;
                assert(i <= j);
                assert(walked(empty, dir, sr as int, sc as int, i));
            }
        }
    }
    w
}

/// What the walks of all the pieces hit is what the fill-based slide
/// returns.
/// At one square, what the walks of all the pieces hit is what the
/// fill-based slide returns.
#[verifier::spinoff_prover]
proof fn lemma_walks_are_slide_at(pieces: u64, empty: u64, dir: Dir, expect: u64, t: int)
    requires
        0 <= t < 64,
        bit_of(expect, t) == exists|q: int| 0 <= q < 64 && bit_of(pieces, q) && #[trigger] walk_hits(empty, dir, q, t),
    ensures
        ({
            let (s, up, keep) = step_of(dir);
            bit_of(expect, t) == bit_of(crate::permute::shift_of(dir, crate::permute::reach_fill(pieces, empty & keep, s as int, up)), t)
        }),
{
    let (dr, dc) = delta_of(dir);
    assert(-1 <= dr <= 1 && -1 <= dc <= 1 && !(dr == 0 && dc == 0));
    let r = t / 8;
    let c = t % 8;
    assert(t == 8 * r + c);
    lemma_slide_attacks(pieces, empty, dir, r, c);
    lemma_attacked_by_walk(pieces, empty, dir, r, c, 64);
    if bit_of(expect, t) {
        let q = choose|q: int| 0 <= q < 64 && bit_of(pieces, q) && #[trigger] walk_hits(empty, dir, q, t);
        let i = choose|i: int| 1 <= i <= 8 && #[trigger] walked(empty, dir, q / 8, q % 8, i)
            && t == 8 * (q / 8 + i * dr) + q % 8 + i * dc;
        assert(q == 8 * (q / 8) + q % 8);
        assert(square(pieces, q / 8, q % 8));
        assert(on_board(q / 8 + i * dr, q % 8 + i * dc));
        assert(r == q / 8 + i * dr && c == q % 8 + i * dc);
    }
    if attacked(pieces, empty, dir, r, c, 64) {
        let (sr, sc, j) = choose|sr: int, sc: int, j: int| 1 <= j <= 65
            && square(pieces, sr, sc) && #[trigger] walked(empty, dir, sr, sc, j)
            && r == sr + j * dr && c == sc + j * dc;
        let q = 8 * sr + sc;
        assert(q / 8 == sr && q % 8 == sc);
        if j > 8 {
            lemma_walked_shorter(empty, dir, sr, sc, 9, j);
            assert(false) by (nonlinear_arith)
                requires on_board(sr + 9 * dr, sc + 9 * dc), on_board(sr, sc),
                    -1 <= dr <= 1, -1 <= dc <= 1, !(dr == 0 && dc == 0);
        }
        assert(walk_hits(empty, dir, q, t));
    }
}

/// What the walks of all the pieces hit is what the fill-based slide
/// returns.
proof fn lemma_walks_are_slide(pieces: u64, empty: u64, dir: Dir, expect: u64)
    requires
        forall|t: int| 0 <= t < 64 ==> #[trigger] bit_of(expect, t) == exists|q: int| 0 <= q < 64
            && bit_of(pieces, q) && #[trigger] walk_hits(empty, dir, q, t),
    ensures
        ({
            let (s, up, keep) = step_of(dir);
            expect == crate::permute::shift_of(dir, crate::permute::reach_fill(pieces, empty & keep, s as int, up))
        }),
{
    let (s, up, keep) = step_of(dir);
    let got = crate::permute::shift_of(dir, crate::permute::reach_fill(pieces, empty & keep, s as int, up));
    assert forall|t: int| 0 <= t < 64 implies #[trigger] bit_of(expect, t) == bit_of(got, t) by {
        lemma_walks_are_slide_at(pieces, empty, dir, expect, t);
    }
    lemma_bits_eq(expect, got);
}

/// A sliding piece attacks, square by square, what the fill-based slide
/// returns: walking from each piece until the edge or the first occupied
/// square, which is included.
pub fn board8_slides_match_reference(pieces: u64, empty: u64, dir: Dir) -> (r: bool)
    ensures
        r,
{
    let (dr, dc): (i64, i64) = match dir {
        Dir::North => (1, 0),
        Dir::South => (-1, 0),
        Dir::East => (0, 1),
        Dir::West => (0, -1),
        Dir::NorthEast => (1, 1),
        Dir::NorthWest => (1, -1),
        Dir::SouthEast => (-1, 1),
        Dir::SouthWest => (-1, -1),
    };
    let mut expect = 0u64;
    let mut sq: u32 = 0;
    while sq < 64
        invariant
            sq <= 64,
            delta_of(dir) == (dr as int, dc as int),
            forall|t: int| 0 <= t < 64 ==> #[trigger] bit_of(expect, t) == exists|q: int| 0 <= q < sq
                && bit_of(pieces, q) && #[trigger] walk_hits(empty, dir, q, t),
        decreases 64 - sq,
    {
        let ghost prev = expect;
        let piece = (pieces >> (sq as u64)) & 1 == 1;
        if piece {
            let w = ray_from(empty, dir, dr, dc, sq);
            expect = expect | w;
        }
        proof {
            assert(piece == bit_of(pieces, sq as int));
            assert forall|t: int| 0 <= t < 64 implies #[trigger] bit_of(expect, t) == exists|q: int| 0 <= q < sq + 1
                && bit_of(pieces, q) && #[trigger] walk_hits(empty, dir, q, t) by {
                if exists|q: int| 0 <= q < sq + 1 && bit_of(pieces, q) && #[trigger] walk_hits(empty, dir, q, t) {
                    let q = choose|q: int| 0 <= q < sq + 1 && bit_of(pieces, q) && #[trigger] walk_hits(empty, dir, q, t);
                    if q < sq {
                        assert(bit_of(prev, t));
                    }
                }
                if bit_of(prev, t) {
                    let q = choose|q: int| 0 <= q < sq && bit_of(pieces, q) && #[trigger] walk_hits(empty, dir, q, t);
                    assert(0 <= q < sq + 1);
                }
            }
        }
        sq = sq + 1;
    }
    let got = slide(pieces, empty, dir);
    proof {
        lemma_walks_are_slide(pieces, empty, dir, expect);
    }
    expect == got
}

} // verus!
