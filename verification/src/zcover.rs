//! Rectangles as ranges of Z-order keys: the query side of an index built
//! by sorting on `Morton2` codes.
//!
//! The exact cover of a rectangle has about one range per cell of its
//! boundary, far more than a scan wants to restart, so the caller sets a
//! budget, the length of the output. Below some level `s` a node across the
//! edge is taken whole; the number of runs of that cover is counted in
//! closed form ([`z_runs`]), which picks the least `s` whose cover has at
//! most twice the budget. The cover at that depth is walked twice: once to
//! record its gaps into the output as scratch, once to write the runs,
//! closing every gap below the threshold that leaves the budget.
//!
//! The walk goes three levels at a time: the 64 descendants of a node
//! three levels down as one `u64` in curve order, those meeting the
//! rectangle the AND of a mask of its columns and a mask of its rows, each
//! looked up in the [`Masks`] of the curve.
use vstd::prelude::*;
use vstd::arithmetic::power2::pow2;
use crate::masks::{descend, digits_ok, pw, pw4, quad, Masks};
use crate::cover::{bitlen, blen, cnt, flat, threshold};
use crate::dilated::{interleaves2, Morton2};
use crate::model::{bit_of, group_bits, lemma_bits_eq, low_mask, top_bit, tz};
use crate::word::Word;

verus! {

broadcast use group_bits;

/// `c <= x / p` exactly when `c * p <= x`.
proof fn lemma_floor(c: int, x: int, p: int)
    requires
        p > 0,
        x >= 0,
        c >= 0,
    ensures
        (c <= x / p) <==> (c * p <= x),
{
    vstd::arithmetic::div_mod::lemma_fundamental_div_mod(x, p);
    vstd::arithmetic::div_mod::lemma_mod_pos_bound(x, p);
    let q = x / p;
    let r = x % p;
    assert((c <= q) <==> (c * p <= x)) by (nonlinear_arith)
        requires x == p * q + r, 0 <= r < p, p > 0, c >= 0;
}

/// `2^t` as a word, and its place among the powers.
proof fn lemma_shr_div(d: u64, below: u32)
    requires
        below < 64,
    ensures
        d >> (below as u64) == d as int / (pow2(below as nat) as int),
        pow2(below as nat) > 0,
{
    vstd::bits::lemma_u64_shr_is_div(d, below as u64);
    vstd::arithmetic::power2::lemma_pow2_pos(below as nat);
}

/// Bits `lo..=hi` of a word, none when `lo > hi`; `hi < 8`.
fn span(lo: u32, hi: u32) -> (r: u64)
    requires
        hi < 8,
    ensures
        forall|c: int| 0 <= c < 64 ==> #[trigger] bit_of(r, c) == (lo <= c <= hi),
{
    if lo > hi {
        proof {
            assert forall|c: int| 0 <= c < 64 implies #[trigger] bit_of(0u64, c) == (lo <= c <= hi) by {}
        }
        0
    } else {
        proof {
            crate::hilbert::lemma_low_bits((hi + 1) as u64, 0);
            crate::hilbert::lemma_low_bits(lo as u64, 0);
        }
        let top = (1u64 << (hi + 1)) - 1;
        let low = (1u64 << lo) - 1;
        proof {
            assert forall|c: int| 0 <= c < 64 implies #[trigger] bit_of(top & !low, c) == (lo <= c <= hi) by {
                crate::hilbert::lemma_low_bits((hi + 1) as u64, c as u64);
                crate::hilbert::lemma_low_bits(lo as u64, c as u64);
            }
        }
        top & !low
    }
}

/// A coordinate past the node's `n` columns counts as `n`.
fn clamp(v: u64, n: u32) -> (r: u32)
    ensures
        r as int == if v >= n { n as int } else { v as int },
{
    if v >= n as u64 {
        n
    } else {
        v as u32
    }
}

/// Of the `2^k` columns `2^below` wide of a node at `o` on one axis, those
/// meeting `a..=b` and those inside it, as masks: bit `c` for column `c`,
/// which holds `o + c * 2^below ..= o + (c + 1) * 2^below - 1`.
pub fn axis(o: u64, ab: (u64, u64), below: u32, k: u32) -> (r: (u64, u64))
    requires
        1 <= k <= 3,
        below < 64,
        ab.0 <= ab.1 < 0xffff_ffff_ffff_ffff,
    ensures
        forall|c: int| 0 <= c < 64 ==> #[trigger] bit_of(r.0, c) == (c < pw(k as int) && o + c * (pow2(below as nat) as int) <= ab.1
            && ab.0 <= o + (c + 1) * (pow2(below as nat) as int) - 1),
        forall|c: int| 0 <= c < 64 ==> #[trigger] bit_of(r.1, c) == (c < pw(k as int) && ab.0 <= o + c * (pow2(below as nat) as int)
            && o + (c + 1) * (pow2(below as nat) as int) - 1 <= ab.1),
        r.0 < pw(pw(k as int)),
        r.1 < pw(pw(k as int)),
{
    let (a, b) = ab;
    let n: u32 = if k == 1 { 2 } else if k == 2 { 4 } else { 8 };
    let ghost p: int = pow2(below as nat) as int;
    proof {
        vstd::arithmetic::power2::lemma_pow2_pos(below as nat);
        crate::model::lemma_below_pow(0, 0);
    }
    if b < o {
        proof {
            assert forall|c: int| 0 <= c < 64 implies #[trigger] bit_of(0u64, c) == (c < pw(k as int) && o + c * p <= b && a <= o + (c + 1) * p - 1) by {
                if 0 <= c {
                    assert(c * p >= 0) by (nonlinear_arith) requires c >= 0, p > 0;
                }
            }
            assert forall|c: int| 0 <= c < 64 implies #[trigger] bit_of(0u64, c) == (c < pw(k as int) && a <= o + c * p && o + (c + 1) * p - 1 <= b) by {
                if 0 <= c {
                    assert((c + 1) * p >= p) by (nonlinear_arith) requires c >= 0, p > 0;
                }
            }
        }
        return (0, 0);
    }
    let d = b - o;
    proof {
        lemma_shr_div(d, below);
        lemma_shr_div((d + 1) as u64, below);
    }
    // The last column met and one past the last one inside, which ends
    // where `b + 1` starts.
    let c_met = clamp(d >> below, n);
    let met_hi = if c_met < n - 1 { c_met } else { n - 1 };
    let c_past = clamp((d + 1) >> below, n);
    let past = if c_past < n { c_past } else { n };
    let (first_met, first_in) = if a > o {
        let e = a - o;
        proof {
            lemma_shr_div(e, below);
            lemma_shr_div((e - 1) as u64, below);
        }
        (clamp(e >> below, n), clamp((e - 1) >> below, n) + 1)
    } else {
        (0, 0)
    };
    let inside = if past == 0 { 0 } else { span(first_in, past - 1) };
    let met = span(first_met, met_hi);
    proof {
        assert forall|c: int| 0 <= c < 64 implies #[trigger] bit_of(met, c) == (c < pw(k as int) && o + c * p <= b && a <= o + (c + 1) * p - 1) by {
            assert(bit_of(met, c) == (first_met <= c <= met_hi));
            if c < n {
                lemma_floor(c, d as int, p);
                if a > o {
                    lemma_floor(c + 1, (a - o) as int, p);
                    assert(c * p + p == (c + 1) * p) by (nonlinear_arith);
                } else {
                    assert((c + 1) * p >= p) by (nonlinear_arith) requires c >= 0, p > 0;
                }
            }
        }
        assert forall|c: int| 0 <= c < 64 implies #[trigger] bit_of(inside, c) == (c < pw(k as int) && a <= o + c * p && o + (c + 1) * p - 1 <= b) by {
            if c < n {
                lemma_floor(c + 1, (d + 1) as int, p);
                if a > o {
                    lemma_floor(c, (a - o - 1) as int, p);
                } else {
                    assert(c * p >= 0) by (nonlinear_arith) requires c >= 0, p > 0;
                }
                if past > 0 {
                    assert(bit_of(inside, c) == (first_in <= c <= past - 1));
                }
            } else if past > 0 {
                assert(bit_of(inside, c) == (first_in <= c <= past - 1));
            }
        }
        assert forall|c: int| n <= c < 64 implies !#[trigger] bit_of(met, c) by {}
        assert forall|c: int| n <= c < 64 implies !#[trigger] bit_of(inside, c) by {}
        crate::model::lemma_below_pow(met, n as int);
        crate::model::lemma_below_pow(inside, n as int);
    }
    (met, inside)
}

/// A word below `2^n` has no bit at or above `n`.
proof fn lemma_no_high_bits(v: u64, n: int)
    requires
        0 <= n <= 64,
        v < pow2(n as nat),
    ensures
        forall|i: int| n <= i < 64 ==> !#[trigger] bit_of(v, i),
{
    if n < 64 {
        lemma_shr_div(v, n as u32);
        vstd::arithmetic::div_mod::lemma_basic_div(v as int, pow2(n as nat) as int);
        assert forall|i: int| n <= i < 64 implies !#[trigger] bit_of(v, i) by {
            assert(bit_of(v >> (n as u64), i - n) == bit_of(v, i));
        }
    }
}

/// `2^n - 1` is the mask of the `n` low bits.
proof fn lemma_low_mask_value(n: int)
    requires
        0 <= n < 64,
    ensures
        low_mask(n) as int == pow2(n as nat) - 1,
        pow2(n as nat) > 0,
{
    vstd::arithmetic::power2::lemma_pow2_pos(n as nat);
    vstd::arithmetic::power2::lemma_pow2_strictly_increases(n as nat, 64);
    vstd::arithmetic::power2::lemma2_to64();
    if n > 0 {
        vstd::bits::lemma_u64_shl_is_mul(1, n as u64);
    }
}

/// The first and the last key of block `p` of `2^span` keys below a node
/// whose first key is `key` and whose low `top` bits are clear.
proof fn lemma_block(key: u64, p: u64, span: u32, top: int)
    requires
        0 <= span < top <= 64,
        p * pow2(span as nat) + pow2(span as nat) <= pow2(top as nat),
        forall|i: int| 0 <= i < top ==> !#[trigger] bit_of(key, i),
        key + pow2(top as nat) <= pow2(64),
    ensures
        key | (p << (span as u64)) == key + p * pow2(span as nat),
        (key | (p << (span as u64))) | low_mask(span as int) == key + p * pow2(span as nat) + pow2(span as nat) - 1,
        forall|i: int| 0 <= i < span ==> !#[trigger] bit_of(key | (p << (span as u64)), i),
{
    let pp = pow2(span as nat);
    lemma_low_mask_value(span as int);
    vstd::arithmetic::power2::lemma2_to64();
    vstd::arithmetic::power2::lemma_pow2_strictly_increases(span as nat, top as nat);
    if top < 64 {
        vstd::arithmetic::power2::lemma_pow2_strictly_increases(top as nat, 64);
    }
    assert(p * pp < pow2(top as nat));
    vstd::bits::lemma_u64_shl_is_mul(p, span as u64);
    let v = p << (span as u64);
    lemma_no_high_bits(v, top);
    assert forall|i: int| 0 <= i < 64 implies #[trigger] bit_of(key & v, i) == bit_of(0u64, i) by {}
    lemma_bits_eq(key & v, 0);
    crate::model::lemma_or_is_add(key, v);
    let w = key | v;
    assert forall|i: int| 0 <= i < span implies !#[trigger] bit_of(w, i) by {}
    assert forall|i: int| 0 <= i < 64 implies #[trigger] bit_of(w & low_mask(span as int), i) == bit_of(0u64, i) by {}
    lemma_bits_eq(w & low_mask(span as int), 0);
    crate::model::lemma_or_is_add(w, low_mask(span as int));
}

/// The lowest run of ones of `rest` starts at `p = tz(rest)` and is `len`
/// long, `len` counting the ones of `rest >> p`.
#[verifier::spinoff_prover]
proof fn lemma_run_at(rest: u64, p: int, len: int)
    requires
        rest != 0,
        p == tz(rest),
        0 <= p < 64 ==> len == tz(!(rest >> (p as u64))),
    ensures
        0 <= p < 64,
        1 <= len,
        p + len <= 64,
        forall|i: int| p <= i < p + len ==> #[trigger] bit_of(rest, i),
        forall|i: int| 0 <= i < p ==> !#[trigger] bit_of(rest, i),
        p + len < 64 ==> !bit_of(rest, p + len),
{
    crate::model::lemma_tz(rest);
    let sh = rest >> (p as u64);
    crate::model::lemma_tz(!sh);
    assert(bit_of(sh, 0) == bit_of(rest, p));
    assert(!bit_of(!sh, 0));
    if p + len > 64 {
        assert(!bit_of(sh, 64 - p));
        assert(bit_of(!sh, 64 - p));
    }
    assert forall|i: int| p <= i < p + len implies #[trigger] bit_of(rest, i) by {
        assert(!bit_of(!sh, i - p));
        assert(bit_of(sh, i - p) == bit_of(rest, i));
    }
    if p + len < 64 {
        assert(bit_of(!sh, len));
        assert(bit_of(sh, len) == bit_of(rest, p + len));
    }
}

/// Clearing some set bits, bit `p` among them, makes a word smaller.
proof fn lemma_clear_lt(a: u64, b: u64, p: int)
    requires
        0 <= p < 64,
        forall|i: int| 0 <= i < 64 && #[trigger] bit_of(a, i) ==> bit_of(b, i),
        bit_of(b, p),
        !bit_of(a, p),
    ensures
        a < b,
{
    let q = crate::model::lemma_top_diff(a, b);
    crate::model::lemma_lt_by_bits(a, b, q);
}

/// What a walk emits into: inclusive ranges in increasing order, with the
/// output slice as scratch.
pub trait Sink {
    /// The sink's own state agrees with the output.
    spec fn inv(&self, out: Seq<(u64, u64)>) -> bool;

    /// The end of the last range emitted.
    spec fn last_end(&self, out: Seq<(u64, u64)>) -> Option<u64>;

    /// Key `k` is held by what the sink keeps of the ranges emitted; a sink
    /// that keeps no ranges holds every key.
    spec fn covers(&self, out: Seq<(u64, u64)>, k: int) -> bool;

    /// The ranges emitted are whole blocks of `2^grain` keys.
    spec fn grain(&self) -> int;

    fn emit(&mut self, out: &mut [(u64, u64)], first: u64, last: u64)
        requires
            old(self).inv(old(out)@),
            first <= last,
            old(self).last_end(old(out)@) matches Some(e) ==> e < first,
            forall|j: int| 0 <= j < old(self).grain() ==> #[trigger] aligned_range((first, last), j),
        ensures
            final(self).inv(final(out)@),
            final(self).grain() == old(self).grain(),
            final(out)@.len() == old(out)@.len(),
            final(self).last_end(final(out)@) == Some(last),
            forall|k: int| (old(self).covers(old(out)@, k) || first <= k <= last) ==> #[trigger] final(self).covers(final(out)@, k),
    ;
}

/// Counts the runs, touching ranges merged.
pub struct Count {
    pub n: u64,
    pub last: Option<u64>,
}

impl Sink for Count {
    open spec fn inv(&self, out: Seq<(u64, u64)>) -> bool {
        true
    }

    open spec fn last_end(&self, out: Seq<(u64, u64)>) -> Option<u64> {
        self.last
    }

    open spec fn covers(&self, out: Seq<(u64, u64)>, k: int) -> bool {
        true
    }

    open spec fn grain(&self) -> int {
        0
    }

    fn emit(&mut self, out: &mut [(u64, u64)], first: u64, last: u64) {
        let touching = match self.last {
            Some(end) => end != 0xffff_ffff_ffff_ffff && end + 1 == first,
            None => false,
        };
        if !touching && self.n < 0xffff_ffff_ffff_ffff {
            self.n = self.n + 1;
        }
        self.last = Some(last);
    }
}

/// The runs of ones of `m`, bit `p` the range of `2^span` keys from
/// `key | p << span`.
fn emit_mask<S: Sink>(sink: &mut S, out: &mut [(u64, u64)], key: u64, m: u64, span: u32, top: Ghost<int>)
    requires
        old(sink).inv(old(out)@),
        old(sink).grain() <= span,
        0 <= span < top@ <= 64,
        forall|i: int| 0 <= i < top@ ==> !#[trigger] bit_of(key, i),
        key + pow2(top@ as nat) <= pow2(64),
        forall|q: int| 0 <= q < 64 && #[trigger] bit_of(m, q) ==> q * pow2(span as nat) + pow2(span as nat) <= pow2(top@ as nat),
        forall|q: int| 0 <= q < 64 && #[trigger] bit_of(m, q) ==> (old(sink).last_end(old(out)@) matches Some(e) ==> e < key + q * pow2(span as nat)),
    ensures
        final(sink).inv(final(out)@),
        final(sink).grain() == old(sink).grain(),
        final(out)@.len() == old(out)@.len(),
        final(sink).last_end(final(out)@) == old(sink).last_end(old(out)@) || (final(sink).last_end(final(out)@) matches Some(e) && key <= e < key + pow2(top@ as nat)),
        forall|k: int| old(sink).covers(old(out)@, k) ==> #[trigger] final(sink).covers(final(out)@, k),
        forall|q: int, k: int| #![trigger bit_of(m, q), final(sink).covers(final(out)@, k)]
            0 <= q < 64 && bit_of(m, q) && key + q * pow2(span as nat) <= k <= key + q * pow2(span as nat) + pow2(span as nat) - 1
            ==> final(sink).covers(final(out)@, k),
{
    let ghost p0 = pow2(span as nat);
    let mut rest = m;
    while rest != 0
        invariant
            sink.inv(out@),
            sink.grain() == old(sink).grain(),
            old(sink).grain() <= span,
            out@.len() == old(out)@.len(),
            0 <= span < top@ <= 64,
            p0 == pow2(span as nat),
            forall|i: int| 0 <= i < top@ ==> !#[trigger] bit_of(key, i),
            key + pow2(top@ as nat) <= pow2(64),
            forall|q: int| 0 <= q < 64 && #[trigger] bit_of(rest, q) ==> bit_of(m, q),
            forall|q: int| 0 <= q < 64 && #[trigger] bit_of(m, q) ==> q * p0 + p0 <= pow2(top@ as nat),
            forall|q: int| 0 <= q < 64 && #[trigger] bit_of(rest, q) ==> (sink.last_end(out@) matches Some(e) ==> e < key + q * p0),
            sink.last_end(out@) == old(sink).last_end(old(out)@) || (sink.last_end(out@) matches Some(e) && key <= e < key + pow2(top@ as nat)),
            forall|k: int| old(sink).covers(old(out)@, k) ==> #[trigger] sink.covers(out@, k),
            forall|q: int, k: int| #![trigger bit_of(m, q), sink.covers(out@, k)]
                0 <= q < 64 && bit_of(m, q) && !bit_of(rest, q) && key + q * p0 <= k <= key + q * p0 + p0 - 1
                ==> sink.covers(out@, k),
        decreases rest,
    {
        let ghost rest0 = rest;
        let ghost before_out = out@;
        let ghost before_sink = *sink;
        let p = Word::trailing_zeros(rest);
        let len = Word::trailing_ones(rest >> p);
        proof {
            lemma_run_at(rest, p as int, len as int);
        }
        let first = key | ((p as u64) << (span as u64));
        let last = key | (((p + len - 1) as u64) << (span as u64)) | <u64 as Word>::low_ones(span);
        proof {
            assert(bit_of(rest, p as int));
            assert(bit_of(rest, (p + len - 1) as int));
            lemma_block(key, p as u64, span, top@);
            lemma_block(key, (p + len - 1) as u64, span, top@);
            vstd::arithmetic::power2::lemma_pow2_pos(span as nat);
            assert(first == key + p * p0);
            assert(last == key + (p + len - 1) * p0 + p0 - 1);
            assert((p + len - 1) * p0 + p0 == (p + len) * p0) by (nonlinear_arith);
            assert(p * p0 <= (p + len - 1) * p0) by (nonlinear_arith) requires len >= 1, p0 >= 0;
            assert forall|j: int| 0 <= j < sink.grain() implies #[trigger] aligned_range((first, last), j) by {}
        }
        sink.emit(out, first, last);
        let run = (0xffff_ffff_ffff_ffffu64 >> (64 - len)) << p;
        let next = rest & !run;
        proof {
            assert forall|i: int| 0 <= i < 64 implies #[trigger] bit_of(run, i) == (p <= i < p + len) by {
                if p <= i {
                    assert(bit_of(0xffff_ffff_ffff_ffffu64 >> ((64 - len) as u64), i - p) == (i - p < len));
                }
            }
            assert forall|q: int| 0 <= q < 64 && #[trigger] bit_of(next, q) implies (sink.last_end(out@) matches Some(e) ==> e < key + q * p0) by {
                assert(q >= p + len);
                assert((p + len) * p0 <= q * p0) by (nonlinear_arith) requires q >= p + len, p0 >= 0;
            }
            lemma_clear_lt(next, rest, p as int);
            assert forall|q: int, k: int| #![trigger bit_of(m, q), sink.covers(out@, k)]
                0 <= q < 64 && bit_of(m, q) && !bit_of(next, q) && key + q * p0 <= k <= key + q * p0 + p0 - 1
                implies sink.covers(out@, k) by {
                if p <= q < p + len {
                    assert(p * p0 <= q * p0 && q * p0 + p0 <= (p + len - 1) * p0 + p0) by (nonlinear_arith)
                        requires p <= q < p + len, p0 >= 0;
                    assert(first <= k <= last);
                } else {
                    assert(!bit_of(rest0, q));
                    assert(before_sink.covers(before_out, k));
                }
            }
        }
        rest = next;
    }
}

/// The rectangle, inclusive on both axes, clipped to the grid.
pub struct Rect {
    pub x0: u64,
    pub x1: u64,
    pub y0: u64,
    pub y1: u64,
}

/// The rectangle lies in the grid of `2^32` cells a side.
pub open spec fn rect_ok(r: &Rect) -> bool {
    r.x0 <= r.x1 < 0x1_0000_0000 && r.y0 <= r.y1 < 0x1_0000_0000
}

/// `4^k` blocks of `4^below` keys fill a node of `below + k` levels.
proof fn lemma_blocks_fill(below: int, k: int)
    requires
        0 <= below,
        1 <= k <= 3,
        below + k <= 32,
    ensures
        pw4(k) * pow2((2 * below) as nat) == pow2((2 * (below + k)) as nat),
        pow2((2 * below) as nat) > 0,
{
    vstd::arithmetic::power2::lemma2_to64();
    vstd::arithmetic::power2::lemma_pow2_adds((2 * below) as nat, (2 * k) as nat);
    vstd::arithmetic::power2::lemma_pow2_pos((2 * below) as nat);
    assert(pw4(k) == pow2((2 * k) as nat));
    assert(((2 * below) as nat + (2 * k) as nat) as nat == (2 * (below + k)) as nat);
    let a = pow2((2 * below) as nat);
    let b = pow2((2 * k) as nat);
    assert(pw4(k) * a == a * b) by (nonlinear_arith) requires pw4(k) == b;
}

/// Cell `(x, y)` lies in the node at `level` with corner `(ox, oy)` and in
/// the rectangle.
pub open spec fn in_node_rect(level: int, ox: int, oy: int, r: Rect, x: int, y: int) -> bool {
    &&& ox <= x < ox + pow2(level as nat) && oy <= y < oy + pow2(level as nat)
    &&& r.x0 <= x <= r.x1 && r.y0 <= y <= r.y1
}

/// The descendant `k` levels down of a node holding the cell `(x, y)`,
/// `below` levels above the cells.
pub open spec fn cell_path(digit: Seq<[(u8, u8); 4]>, f: int, k: int, below: int, ox: int, oy: int, x: int, y: int) -> int {
    crate::masks::path(digit, f, k, (x - ox) / (pow2(below as nat) as int), (y - oy) / (pow2(below as nat) as int))
}

/// A cell of the rectangle in a node lies in a descendant that the
/// rectangle meets, and its key is in that descendant's block of keys.
proof fn lemma_cell_met(
    digit: Seq<[(u8, u8); 4]>, f: int, level: int, k: int, below: int, key: int, ox: int, oy: int, r: Rect,
    cols: u64, rows: u64, met: u64, x: int, y: int,
)
    requires
        digits_ok(digit),
        0 <= f < digit.len(),
        1 <= k <= 3,
        0 <= below,
        below + k == level,
        in_node_rect(level, ox, oy, r, x, y),
        forall|c: int| 0 <= c < 64 ==> #[trigger] bit_of(cols, c) == (c < pw(k) && ox + c * (pow2(below as nat) as int) <= r.x1
            && r.x0 <= ox + (c + 1) * (pow2(below as nat) as int) - 1),
        forall|c: int| 0 <= c < 64 ==> #[trigger] bit_of(rows, c) == (c < pw(k) && oy + c * (pow2(below as nat) as int) <= r.y1
            && r.y0 <= oy + (c + 1) * (pow2(below as nat) as int) - 1),
        forall|q: int| 0 <= q < 64 ==> #[trigger] bit_of(met, q) == (q < pw4(k) && crate::masks::in_cols(digit, f, k, cols, q)
            && crate::masks::in_rows(digit, f, k, rows, q)),
    ensures
        ({
            let q = cell_path(digit, f, k, below, ox, oy, x, y);
            let p0 = pow2((2 * below) as nat) as int;
            let ck = key + deep(digit, f, 0, x - ox, y - oy, level).0;
            &&& 0 <= q < pw4(k)
            &&& bit_of(met, q)
            &&& key + q * p0 <= ck <= key + q * p0 + p0 - 1
        }),
{
    let q0 = pow2(below as nat) as int;
    lemma_cell_in_child(digit, f, key, ox, oy, below, k, x, y);
    let cu = (x - ox) / q0;
    let cv = (y - oy) / q0;
    assert(bit_of(cols, cu)) by {
        assert(ox + cu * q0 <= r.x1 && r.x0 <= ox + (cu + 1) * q0 - 1) by (nonlinear_arith)
            requires ox + cu * q0 <= x < ox + cu * q0 + q0, r.x0 <= x <= r.x1;
    }
    assert(bit_of(rows, cv)) by {
        assert(oy + cv * q0 <= r.y1 && r.y0 <= oy + (cv + 1) * q0 - 1) by (nonlinear_arith)
            requires oy + cv * q0 <= y < oy + cv * q0 + q0, r.y0 <= y <= r.y1;
    }
    let q = cell_path(digit, f, k, below, ox, oy, x, y);
    assert(crate::masks::in_cols(digit, f, k, cols, q));
    assert(crate::masks::in_rows(digit, f, k, rows, q));
}

/// A node at `level` whose first key is `key`, at `(ox, oy)`, in `frame`,
/// `level > stop`: its cover down to `stop`, below which a node across the
/// edge is taken whole. Three levels a step, the odd ones at the top, so
/// every step ends on `stop`.
fn walk<S: Sink>(masks: &Masks, r: &Rect, level: u32, stop: u32, key: u64, origin: (u64, u64), frame: u8, sink: &mut S, out: &mut [(u64, u64)])
    requires
        masks.wf(),
        frame < masks.table().len(),
        stop < level <= 32,
        rect_ok(r),
        forall|i: int| 0 <= i < 2 * level ==> !#[trigger] bit_of(key, i),
        key + pow2((2 * level) as nat) <= pow2(64),
        old(sink).inv(old(out)@),
        old(sink).grain() <= 2 * stop,
        old(sink).last_end(old(out)@) matches Some(e) ==> e < key,
        forall|i: int| 0 <= i < level ==> !#[trigger] bit_of(origin.0, i),
        forall|i: int| 0 <= i < level ==> !#[trigger] bit_of(origin.1, i),
    ensures
        final(sink).inv(final(out)@),
        final(sink).grain() == old(sink).grain(),
        final(out)@.len() == old(out)@.len(),
        final(sink).last_end(final(out)@) == old(sink).last_end(old(out)@) || (final(sink).last_end(final(out)@) matches Some(e) && key <= e < key + pow2((2 * level) as nat)),
        forall|k: int| old(sink).covers(old(out)@, k) ==> #[trigger] final(sink).covers(final(out)@, k),
        forall|x: int, y: int| #[trigger] in_node_rect(level as int, origin.0 as int, origin.1 as int, *r, x, y)
            ==> final(sink).covers(final(out)@, key + deep(masks.table(), frame as int, 0, x - origin.0, y - origin.1, level as int).0),
    decreases level,
{
    let ghost digit = masks.table();
    proof {
        masks.lemma_wf();
    }
    let k: u32 = if (level - stop) % 3 == 0 { 3 } else { (level - stop) % 3 };
    let below = level - k;
    let (cols, cols_in) = axis(origin.0, (r.x0, r.x1), below, k);
    let (rows, rows_in) = axis(origin.1, (r.y0, r.y1), below, k);
    let met = masks.cells(k, frame, cols, rows);
    let span = 2 * below;
    let ghost top = (2 * level) as int;
    let ghost p0 = pow2(span as nat);
    proof {
        lemma_blocks_fill(below as int, k as int);
        assert forall|q: int| 0 <= q < 64 && #[trigger] bit_of(met, q) implies q * pow2(span as nat) + pow2(span as nat) <= pow2(top as nat) by {
            assert(q < pw4(k as int));
            assert(q * p0 + p0 <= pw4(k as int) * p0) by (nonlinear_arith) requires q + 1 <= pw4(k as int), p0 > 0;
        }
        assert forall|q: int| 0 <= q < 64 && #[trigger] bit_of(met, q) implies (sink.last_end(out@) matches Some(e) ==> e < key + q * pow2(span as nat)) by {
            assert(q * p0 >= 0) by (nonlinear_arith) requires q >= 0, p0 > 0;
        }
    }
    if below == stop {
        emit_mask(sink, out, key, met, span, Ghost(top));
        proof {
            assert forall|x: int, y: int| #[trigger] in_node_rect(level as int, origin.0 as int, origin.1 as int, *r, x, y)
                implies sink.covers(out@, key + deep(digit, frame as int, 0, x - origin.0, y - origin.1, level as int).0) by {
                lemma_cell_met(digit, frame as int, level as int, k as int, below as int, key as int, origin.0 as int, origin.1 as int,
                    *r, cols, rows, met, x, y);
            }
        }
        return;
    }
    let inside = masks.cells(k, frame, cols_in, rows_in);
    let mut rest = met;
    let ghost sink0 = *sink;
    let ghost out0 = out@;
    proof {
        assert forall|x: int, y: int| #[trigger] in_node_rect(level as int, origin.0 as int, origin.1 as int, *r, x, y)
            implies bit_of(rest, cell_path(digit, frame as int, k as int, below as int, origin.0 as int, origin.1 as int, x, y)) by {
            lemma_cell_met(digit, frame as int, level as int, k as int, below as int, key as int, origin.0 as int, origin.1 as int,
                *r, cols, rows, met, x, y);
        }
    }
    while rest != 0
        invariant
            masks.wf(),
            frame < masks.table().len(),
            stop < below < level <= 32,
            1 <= k <= 3,
            below + k == level,
            span == 2 * below,
            top == 2 * level,
            p0 == pow2(span as nat),
            p0 > 0,
            pw4(k as int) * p0 == pow2(top as nat),
            rect_ok(r),
            sink.inv(out@),
            sink.grain() == old(sink).grain(),
            old(sink).grain() <= 2 * stop,
            out@.len() == old(out)@.len(),
            forall|i: int| 0 <= i < top ==> !#[trigger] bit_of(key, i),
            key + pow2(top as nat) <= pow2(64),
            forall|q: int| 0 <= q < 64 && #[trigger] bit_of(rest, q) ==> q < pw4(k as int),
            forall|q: int| 0 <= q < 64 && #[trigger] bit_of(inside, q) ==> q < pw4(k as int),
            forall|q: int| 0 <= q < 64 && #[trigger] bit_of(rest, q) ==> (sink.last_end(out@) matches Some(e) ==> e < key + q * p0),
            sink.last_end(out@) == old(sink).last_end(old(out)@) || (sink.last_end(out@) matches Some(e) && key <= e < key + pow2(top as nat)),
            digit == masks.table(),
            digits_ok(digit),
            digit.len() <= 256,
            forall|i: int| 0 <= i < level ==> !#[trigger] bit_of(origin.0, i),
            forall|i: int| 0 <= i < level ==> !#[trigger] bit_of(origin.1, i),
            forall|q: int| 0 <= q < 64 && #[trigger] bit_of(rest, q) ==> bit_of(met, q),
            forall|c: int| 0 <= c < 64 ==> #[trigger] bit_of(cols, c) == (c < pw(k as int) && origin.0 + c * (pow2(below as nat) as int) <= r.x1
                && r.x0 <= origin.0 + (c + 1) * (pow2(below as nat) as int) - 1),
            forall|c: int| 0 <= c < 64 ==> #[trigger] bit_of(rows, c) == (c < pw(k as int) && origin.1 + c * (pow2(below as nat) as int) <= r.y1
                && r.y0 <= origin.1 + (c + 1) * (pow2(below as nat) as int) - 1),
            forall|q: int| 0 <= q < 64 ==> #[trigger] bit_of(met, q) == (q < pw4(k as int) && crate::masks::in_cols(digit, frame as int, k as int, cols, q)
                && crate::masks::in_rows(digit, frame as int, k as int, rows, q)),
            forall|kk: int| old(sink).covers(old(out)@, kk) ==> #[trigger] sink.covers(out@, kk),
            forall|x: int, y: int| #[trigger] in_node_rect(level as int, origin.0 as int, origin.1 as int, *r, x, y)
                ==> bit_of(rest, cell_path(digit, frame as int, k as int, below as int, origin.0 as int, origin.1 as int, x, y))
                    || sink.covers(out@, key + deep(digit, frame as int, 0, x - origin.0, y - origin.1, level as int).0),
        decreases rest,
    {
        let ghost rest0 = rest;
        let ghost sink_b = *sink;
        let ghost out_b = out@;
        let p = Word::trailing_zeros(rest);
        proof {
            crate::model::lemma_tz(rest);
            assert(bit_of(rest, p as int));
        }
        if (inside >> p) & 1 == 1 {
            let run = Word::trailing_ones(inside >> p);
            proof {
                assert(bit_of(inside, p as int));
                crate::model::lemma_tz(inside >> p);
                lemma_run_at_inside(inside, p as int, run as int);
                assert(bit_of(inside, (p + run - 1) as int));
                assert(p + run - 1 < pw4(k as int));
                assert((p + 1) * p0 <= pw4(k as int) * p0) by (nonlinear_arith) requires p + 1 <= pw4(k as int), p0 > 0;
                assert(p * p0 + p0 == (p + 1) * p0) by (nonlinear_arith);
                assert((p + run - 1) * p0 + p0 <= pw4(k as int) * p0) by (nonlinear_arith) requires p + run <= pw4(k as int), p0 > 0;
                lemma_block(key, p as u64, span, top);
                lemma_block(key, (p + run - 1) as u64, span, top);
                assert((p + run - 1) * p0 + p0 == (p + run) * p0) by (nonlinear_arith);
                assert(p * p0 <= (p + run - 1) * p0) by (nonlinear_arith) requires run >= 1, p0 >= 0;
            }
            let first = key | ((p as u64) << (span as u64));
            let last = key | (((p + run - 1) as u64) << (span as u64)) | <u64 as Word>::low_ones(span);
            proof {
                assert forall|j: int| 0 <= j < sink.grain() implies #[trigger] aligned_range((first, last), j) by {}
            }
            sink.emit(out, first, last);
            let mask = (0xffff_ffff_ffff_ffffu64 >> (64 - run)) << p;
            let next = rest & !mask;
            proof {
                assert forall|i: int| 0 <= i < 64 implies #[trigger] bit_of(mask, i) == (p <= i < p + run) by {
                    if p <= i {
                        assert(bit_of(0xffff_ffff_ffff_ffffu64 >> ((64 - run) as u64), i - p) == (i - p < run));
                    }
                }
                assert forall|q: int| 0 <= q < 64 && #[trigger] bit_of(next, q) implies (sink.last_end(out@) matches Some(e) ==> e < key + q * p0) by {
                    assert(q >= p + run);
                    assert((p + run) * p0 <= q * p0) by (nonlinear_arith) requires q >= p + run, p0 >= 0;
                }
                lemma_clear_lt(next, rest, p as int);
                assert forall|x: int, y: int| #[trigger] in_node_rect(level as int, origin.0 as int, origin.1 as int, *r, x, y)
                    implies bit_of(next, cell_path(digit, frame as int, k as int, below as int, origin.0 as int, origin.1 as int, x, y))
                        || sink.covers(out@, key + deep(digit, frame as int, 0, x - origin.0, y - origin.1, level as int).0) by {
                    let q = cell_path(digit, frame as int, k as int, below as int, origin.0 as int, origin.1 as int, x, y);
                    let ck = key + deep(digit, frame as int, 0, x - origin.0, y - origin.1, level as int).0;
                    lemma_cell_met(digit, frame as int, level as int, k as int, below as int, key as int, origin.0 as int, origin.1 as int,
                        *r, cols, rows, met, x, y);
                    if p <= q < p + run {
                        assert(p * p0 <= q * p0 && q * p0 + p0 <= (p + run - 1) * p0 + p0) by (nonlinear_arith)
                            requires p <= q < p + run, p0 >= 0;
                        assert(first <= ck <= last);
                    } else {
                        assert(bit_of(next, q) == bit_of(rest0, q));
                        if !bit_of(rest0, q) {
                            assert(sink_b.covers(out_b, ck));
                        }
                    }
                }
            }
            rest = next;
        } else {
            proof {
                assert(p < pw4(k as int));
                assert((p + 1) * p0 <= pw4(k as int) * p0) by (nonlinear_arith) requires p + 1 <= pw4(k as int), p0 > 0;
                assert(p * p0 + p0 == (p + 1) * p0) by (nonlinear_arith);
                assert(p * p0 + p0 <= pow2(top as nat));
                assert((p as u64) * pow2(span as nat) + pow2(span as nat) <= pow2(top as nat));
                lemma_block(key, p as u64, span, top);
            }
            let (cx, cy, next_frame) = masks.child(k, frame, p);
            let child_key = key | ((p as u64) << (span as u64));
            let child = (origin.0 | ((cx as u64) << (below as u64)), origin.1 | ((cy as u64) << (below as u64)));
            let ghost q0 = pow2(below as nat) as int;
            proof {
                vstd::arithmetic::power2::lemma_pow2_pos(below as nat);
                vstd::arithmetic::power2::lemma_pow2_adds(below as nat, k as nat);
                assert((below as nat + k as nat) as nat == level as nat);
                vstd::arithmetic::power2::lemma2_to64();
                assert(pw(k as int) == pow2(k as nat));
                assert(crate::masks::in_cols(digit, frame as int, k as int, cols, p as int));
                let (c0, r0) = choose|c: int, rr: int| 0 <= c < pw(k as int) && 0 <= rr < pw(k as int) && bit_of(cols, c)
                    && #[trigger] crate::masks::path(digit, frame as int, k as int, c, rr) == p;
                assert(cx == c0 && cy == r0);
                lemma_aligned_room(origin.0, level as int);
                lemma_aligned_room(origin.1, level as int);
                assert(cx * q0 + q0 <= pow2(level as nat)) by (nonlinear_arith)
                    requires cx + 1 <= pow2(k as nat), q0 > 0, pow2(level as nat) == q0 * pow2(k as nat);
                assert(cy * q0 + q0 <= pow2(level as nat)) by (nonlinear_arith)
                    requires cy + 1 <= pow2(k as nat), q0 > 0, pow2(level as nat) == q0 * pow2(k as nat);
                lemma_block(origin.0, cx as u64, below, level as int);
                lemma_block(origin.1, cy as u64, below, level as int);
            }
            walk(masks, r, below, stop, child_key, child, next_frame, sink, out);
            let next = rest & (rest - 1);
            proof {
                assert forall|i: int| 0 <= i < 64 implies #[trigger] bit_of(next, i) == (bit_of(rest, i) && i != p) by {
                    crate::model::lemma_sub_one_bits(rest);
                }
                assert forall|q: int| 0 <= q < 64 && #[trigger] bit_of(next, q) implies (sink.last_end(out@) matches Some(e) ==> e < key + q * p0) by {
                    assert(q >= p + 1);
                    assert((p + 1) * p0 <= q * p0) by (nonlinear_arith) requires q >= p + 1, p0 >= 0;
                }
                lemma_clear_lt(next, rest, p as int);
                assert forall|x: int, y: int| #[trigger] in_node_rect(level as int, origin.0 as int, origin.1 as int, *r, x, y)
                    implies bit_of(next, cell_path(digit, frame as int, k as int, below as int, origin.0 as int, origin.1 as int, x, y))
                        || sink.covers(out@, key + deep(digit, frame as int, 0, x - origin.0, y - origin.1, level as int).0) by {
                    let q = cell_path(digit, frame as int, k as int, below as int, origin.0 as int, origin.1 as int, x, y);
                    let ck = key + deep(digit, frame as int, 0, x - origin.0, y - origin.1, level as int).0;
                    lemma_cell_met(digit, frame as int, level as int, k as int, below as int, key as int, origin.0 as int, origin.1 as int,
                        *r, cols, rows, met, x, y);
                    if q == p {
                        let ox = origin.0 as int;
                        let oy = origin.1 as int;
                        lemma_cell_in_child(digit, frame as int, key as int, ox, oy, below as int, k as int, x, y);
                        let cu = (x - ox) / q0;
                        let cv = (y - oy) / q0;
                        crate::masks::lemma_path_bounds(digit, frame as int, k as int, cu, cv);
                        let h = crate::masks::path_frame(digit, frame as int, k as int, cu, cv);
                        assert(next_frame as int == h && cx as int == cu && cy as int == cv);
                        assert(in_node_rect(below as int, child.0 as int, child.1 as int, *r, x, y));
                        assert(ck == child_key + deep(digit, h, 0, x - child.0, y - child.1, below as int).0);
                    } else {
                        assert(bit_of(next, q) == bit_of(rest0, q));
                        if !bit_of(rest0, q) {
                            assert(sink_b.covers(out_b, ck));
                        }
                    }
                }
            }
            rest = next;
        }
    }
    proof {
        assert forall|x: int, y: int| #[trigger] in_node_rect(level as int, origin.0 as int, origin.1 as int, *r, x, y)
            implies sink.covers(out@, key + deep(digit, frame as int, 0, x - origin.0, y - origin.1, level as int).0) by {
            assert(!bit_of(0u64, cell_path(digit, frame as int, k as int, below as int, origin.0 as int, origin.1 as int, x, y)));
        }
    }
}

/// Records the gaps between the runs of a cover into the output, used as
/// scratch: gap `i` in half `i % 2` of pair `i / 2`, the gap being
/// `next.first - prev.last`, one more than the keys between; with the gaps
/// counted by bit length and the least bit length among them.
struct Gaps {
    runs: usize,
    last: Option<u64>,
    lengths: [u32; 129],
    least: u32,
    room: usize,
    spilled: bool,
}

impl Sink for Gaps {
    closed spec fn inv(&self, out: Seq<(u64, u64)>) -> bool {
        &&& self.room <= 2 * out.len()
        &&& self.room <= 0xffff_fffe
        &&& (self.runs == 0) == (self.last is None)
        &&& !self.spilled ==> {
            &&& self.runs <= self.room + 1
            &&& forall|b: int| 0 <= b < 129 ==> #[trigger] self.lengths@[b] == cnt(flat(out), 0, self.runs - 1, |g: u64| blen(g) == b)
            &&& forall|i: int| 0 <= i < self.runs - 1 ==> self.least <= blen(#[trigger] flat(out)[i])
        }
    }

    closed spec fn last_end(&self, out: Seq<(u64, u64)>) -> Option<u64> {
        self.last
    }

    closed spec fn covers(&self, out: Seq<(u64, u64)>, k: int) -> bool {
        true
    }

    closed spec fn grain(&self) -> int {
        0
    }

    fn emit(&mut self, out: &mut [(u64, u64)], first: u64, last: u64) {
        match self.last {
            Some(end) => {
                if end != 0xffff_ffff_ffff_ffff && end + 1 == first {
                    // Touching: the run goes on.
                } else if !self.spilled && self.runs - 1 < self.room {
                    let gap = first - end;
                    let slot = self.runs - 1;
                    let ghost before = flat(out@);
                    crate::cover::set(out, slot, gap);
                    let bits = bitlen(gap);
                    proof {
                        crate::cover::lemma_cnt_bounds(before, 0, slot as int, |g: u64| blen(g) == bits as int);
                        assert(self.lengths@[bits as int] == cnt(before, 0, slot as int, |g: u64| blen(g) == bits as int));
                    }
                    self.lengths.set(bits as usize, self.lengths[bits as usize] + 1);
                    if bits < self.least {
                        self.least = bits;
                    }
                    self.runs = self.runs + 1;
                    proof {
                        let now = flat(out@);
                        assert forall|b: int| 0 <= b < 129 implies #[trigger] self.lengths@[b] == cnt(now, 0, self.runs - 1, |g: u64| blen(g) == b) by {
                            let f = |g: u64| blen(g) == b;
                            crate::cover::lemma_cnt_same(now, before, 0, slot as int, f, f);
                            assert(cnt(now, 0, slot + 1, f) == cnt(now, 0, slot as int, f) + if f(now[slot as int]) { 1int } else { 0int });
                        }
                        assert forall|i: int| 0 <= i < self.runs - 1 implies self.least <= blen(#[trigger] now[i]) by {
                            if i < slot {
                                assert(now[i] == before[i]);
                            }
                        }
                    }
                } else {
                    self.spilled = true;
                }
            },
            None => {
                self.runs = 1;
            },
        }
        self.last = Some(last);
    }
}

/// A range whose first key has bit `j` clear and whose last has it set.
pub open spec fn aligned_range(r: (u64, u64), j: int) -> bool {
    !bit_of(r.0, j) && bit_of(r.1, j)
}

/// Writes the runs into the output, closing every gap below `threshold` and
/// the first `ties` gaps equal to it.
struct Merge {
    n: usize,
    threshold: u64,
    ties: usize,
    grain: Ghost<int>,
}

impl Sink for Merge {
    closed spec fn inv(&self, out: Seq<(u64, u64)>) -> bool {
        &&& 1 <= out.len()
        &&& self.n <= out.len()
        &&& forall|i: int| 0 <= i < self.n ==> (#[trigger] out[i]).0 <= out[i].1
        &&& forall|i: int| 0 <= i < self.n - 1 ==> (#[trigger] out[i]).1 < 0xffff_ffff_ffff_ffff && out[i].1 + 1 < out[i + 1].0
        &&& forall|i: int, j: int| 0 <= i < self.n && 0 <= j < self.grain@ ==> #[trigger] aligned_range(out[i], j)
    }

    closed spec fn last_end(&self, out: Seq<(u64, u64)>) -> Option<u64> {
        if self.n == 0 { None } else { Some(out[self.n - 1].1) }
    }

    closed spec fn covers(&self, out: Seq<(u64, u64)>, k: int) -> bool {
        exists|i: int| 0 <= i < self.n && out[i].0 <= k <= #[trigger] out[i].1
    }

    closed spec fn grain(&self) -> int {
        self.grain@
    }

    fn emit(&mut self, out: &mut [(u64, u64)], first: u64, last: u64) {
        if self.n > 0 {
            let end = out[self.n - 1].1;
            let touch = end != 0xffff_ffff_ffff_ffff && end + 1 == first;
            let gap = first - end;
            let mut close = touch || gap < self.threshold;
            if !close && gap == self.threshold && self.ties > 0 {
                self.ties = self.ties - 1;
                close = true;
            }
            if close {
                let ghost before = out@;
                let start = out[self.n - 1].0;
                out[self.n - 1] = (start, last);
                proof {
                    self.lemma_extend_covers(before, out@, first, last);
                    assert forall|i: int, j: int| 0 <= i < self.n && 0 <= j < self.grain@
                        implies #[trigger] aligned_range(out@[i], j) by {
                        if i < self.n - 1 {
                            assert(out@[i] == before[i]);
                            assert(aligned_range(before[i], j));
                        } else {
                            assert(aligned_range(before[i], j));
                            assert(old(self).grain() == self.grain@);
                            assert(aligned_range((first, last), j));
                            assert(out@[i] == (before[i].0, last));
                        }
                    }
                }
                return;
            }
        }
        if self.n < out.len() {
            let ghost before = out@;
            out[self.n] = (first, last);
            self.n = self.n + 1;
            proof {
                assert forall|k: int| (exists|i: int| 0 <= i < self.n - 1 && before[i].0 <= k <= #[trigger] before[i].1) || first <= k <= last
                    implies #[trigger] self.covers(out@, k) by {
                    if first <= k <= last {
                        assert(out@[self.n - 1].0 <= k <= out@[self.n - 1].1);
                    } else {
                        let i = choose|i: int| 0 <= i < self.n - 1 && before[i].0 <= k <= #[trigger] before[i].1;
                        assert(out@[i] == before[i]);
                    }
                }
                assert forall|i: int, j: int| 0 <= i < self.n && 0 <= j < self.grain@
                    implies #[trigger] aligned_range(out@[i], j) by {
                    if i < self.n - 1 {
                        assert(out@[i] == before[i]);
                        assert(aligned_range(before[i], j));
                    } else {
                        assert(out@[i] == (first, last));
                        assert(old(self).grain() == self.grain@);
                            assert(aligned_range((first, last), j));
                        assert(aligned_range(out@[i], j));
                    }
                }
            }
        } else {
            let ghost before = out@;
            let start = out[self.n - 1].0;
            out[self.n - 1] = (start, last);
            proof {
                self.lemma_extend_covers(before, out@, first, last);
                    assert forall|i: int, j: int| 0 <= i < self.n && 0 <= j < self.grain@
                    implies #[trigger] aligned_range(out@[i], j) by {
                    if i < self.n - 1 {
                        assert(out@[i] == before[i]);
                        assert(aligned_range(before[i], j));
                    } else {
                        assert(aligned_range(before[i], j));
                        assert(old(self).grain() == self.grain@);
                            assert(aligned_range((first, last), j));
                        assert(out@[i] == (before[i].0, last));
                    }
                }
            }
        }
    }
}

impl Merge {
    /// Stretching the last range to `last` keeps what it held and adds
    /// `first..=last`.
    proof fn lemma_extend_covers(&self, before: Seq<(u64, u64)>, after: Seq<(u64, u64)>, first: u64, last: u64)
        requires
            1 <= self.n <= before.len(),
            after.len() == before.len(),
            forall|i: int| 0 <= i < self.n - 1 ==> after[i] == before[i],
            after[self.n - 1] == (before[self.n - 1].0, last),
            before[self.n - 1].0 <= before[self.n - 1].1 < first <= last,
        ensures
            forall|k: int| (self.covers(before, k) || first <= k <= last) ==> #[trigger] self.covers(after, k),
    {
        assert forall|k: int| (self.covers(before, k) || first <= k <= last) implies #[trigger] self.covers(after, k) by {
            if first <= k <= last {
                assert(after[self.n - 1].0 <= k <= after[self.n - 1].1);
            } else {
                let i = choose|i: int| 0 <= i < self.n && before[i].0 <= k <= #[trigger] before[i].1;
                if i < self.n - 1 {
                    assert(after[i] == before[i]);
                } else {
                    assert(after[self.n - 1].0 <= k <= after[self.n - 1].1);
                }
            }
        }
    }
}

/// The run of ones of `inside` from a set bit `p`, `run` long.
proof fn lemma_run_at_inside(inside: u64, p: int, run: int)
    requires
        0 <= p < 64,
        bit_of(inside, p),
        run == tz(!(inside >> (p as u64))),
    ensures
        1 <= run,
        p + run <= 64,
        forall|i: int| p <= i < p + run ==> #[trigger] bit_of(inside, i),
{
    let sh = inside >> (p as u64);
    crate::model::lemma_tz(!sh);
    assert(bit_of(sh, 0) == bit_of(inside, p));
    assert(!bit_of(!sh, 0));
    if p + run > 64 {
        assert(!bit_of(sh, 64 - p));
        assert(bit_of(!sh, 64 - p));
    }
    assert forall|i: int| p <= i < p + run implies #[trigger] bit_of(inside, i) by {
        assert(!bit_of(!sh, i - p));
        assert(bit_of(sh, i - p) == bit_of(inside, i));
    }
}

/// A word whose low `n` bits are clear leaves room for `2^n` more keys.
proof fn lemma_aligned_room(key: u64, n: int)
    requires
        0 <= n <= 64,
        forall|i: int| 0 <= i < n ==> !#[trigger] bit_of(key, i),
    ensures
        key + pow2(n as nat) <= pow2(64),
{
    vstd::arithmetic::power2::lemma2_to64();
    if n == 64 {
        assert forall|i: int| 0 <= i < 64 implies #[trigger] bit_of(key, i) == bit_of(0u64, i) by {}
        lemma_bits_eq(key, 0);
    } else {
        let p = pow2(n as nat) as int;
        lemma_low_mask_value(n);
        assert forall|i: int| 0 <= i < 64 implies #[trigger] bit_of(key & low_mask(n), i) == bit_of(0u64, i) by {}
        lemma_bits_eq(key & low_mask(n), 0);
        vstd::bits::lemma_low_bits_mask_values();
        vstd::bits::lemma_u64_low_bits_mask_is_mod(key, n as nat);
        assert(vstd::bits::low_bits_mask(n as nat) == p - 1);
        assert(low_mask(n) == vstd::bits::low_bits_mask(n as nat) as u64);
        vstd::arithmetic::power2::lemma_pow2_strictly_increases(n as nat, 64);
        assert((pow2(n as nat) as u64) as int == p);
        assert(key & (vstd::bits::low_bits_mask(n as nat) as u64) == 0);
        assert(key % (pow2(n as nat) as u64) == 0);
        assert(key as int % p == 0);
        vstd::arithmetic::power2::lemma_pow2_adds(n as nat, (64 - n) as nat);
        let q = pow2((64 - n) as nat) as int;
        vstd::arithmetic::div_mod::lemma_fundamental_div_mod(key as int, p);
        let k = key as int / p;
        assert(key == k * p) by (nonlinear_arith) requires key == p * k + key as int % p, key as int % p == 0;
        assert(k * p + p <= q * p) by (nonlinear_arith) requires k * p < q * p, p > 0;
    }
}

/// The Z-order digit table: one frame, quadrant `dx | dy << 1` is digit
/// `dx | dy << 1`.
/// The Z-order table: one frame, digit `dx + 2 dy` for the quadrant
/// `(dx, dy)`.
pub open spec fn z_table() -> Seq<[(u8, u8); 4]> {
    seq![[(0u8, 0u8), (1u8, 0u8), (2u8, 0u8), (3u8, 0u8)]]
}

/// The Z-order key of the cell `(x, y)` on a curve of `levels` levels: its
/// quadrant digits `dx + 2 dy`, read from the top level down.
pub open spec fn z_key(levels: int, x: int, y: int) -> int {
    deep(z_table(), 0, 0, x, y, levels).0
}

/// The cell `(cx, cy)` of the grid of `levels` levels lies in
/// `x.0..=x.1` x `y.0..=y.1` and has its Z-order key in `keys.0..=keys.1`.
pub open spec fn z_hit(levels: int, keys: (u64, u64), x: (u64, u64), y: (u64, u64), cx: int, cy: int) -> bool {
    &&& x.0 <= cx <= x.1 && y.0 <= cy <= y.1
    &&& 0 <= cx < pow2(levels as nat) && 0 <= cy < pow2(levels as nat)
    &&& keys.0 <= z_key(levels, cx, cy) <= keys.1
}

fn z_digits() -> (r: [[(u8, u8); 4]; 1])
    ensures
        digits_ok(r@),
        r@.len() == 1,
        r@ == z_table(),
{
    let r = [[(0u8, 0u8), (1, 0), (2, 0), (3, 0)]];
    proof {
        assert(r@[0]@[0] == (0u8, 0u8));
        assert(r@[0]@[1] == (1u8, 0u8));
        assert(r@[0]@[2] == (2u8, 0u8));
        assert(r@[0]@[3] == (3u8, 0u8));
        assert(r@ =~= z_table());
    }
    r
}

/// The tables of the Z-order curve.
pub fn z_masks() -> (r: Masks)
    ensures
        r.wf(),
        r.table().len() == 1,
        r.table() == z_table(),
{
    let digits = z_digits();
    Masks::build(&digits)
}

/// The digit of quadrant `(dx, dy)` of a Z-order node, and the frame below
/// it.
fn z_digit(dx: u64, dy: u64) -> (r: (u64, u8))
    requires
        dx < 2,
        dy < 2,
    ensures
        r.0 == dx + 2 * dy,
        r.1 == 0,
{
    (dx + 2 * dy, 0)
}

/// The wrapping sum of two words.
pub open spec fn wadd(a: u64, b: u64) -> u64 {
    vstd::wrapping::u64_specs::wrapping_add(a, b)
}

/// The wrapping difference of two words.
pub open spec fn wsub(a: u64, b: u64) -> u64 {
    vstd::wrapping::u64_specs::wrapping_sub(a, b)
}

/// The count of [`progression`]: `v` in `a..=b` with `v = r` modulo
/// `2^m`, as `((b - r) >> m) + 1` less the same below `a`, wrapping.
pub open spec fn progression_of(ab: (u64, u64), r: u64, m: u32) -> u64 {
    let upto_b: u64 = if ab.1 < r { 0 } else { wadd(((ab.1 - r) as u64) >> m, 1) };
    let before: u64 = if ab.0 == 0 {
        0
    } else if ab.0 - 1 < r {
        0
    } else {
        wadd(((ab.0 - 1 - r) as u64) >> m, 1)
    };
    wsub(upto_b, before)
}

/// The test of [`spills`].
pub open spec fn spills_of(ab: (u64, u64), m: u32) -> bool {
    (ab.1 & !low_mask(m as int)) >= ab.0 && (ab.1 & low_mask(m as int)) != low_mask(m as int)
}

/// The count after the two terms of level `t` of [`z_runs`] are added to
/// `n`.
pub open spec fn z_level(x: (u64, u64), y: (u64, u64), t: u32, n: u64) -> u64 {
    let half = 1u64 << t;
    let near_x = tz(x.0) == t;
    let cols = wsub(progression_of(x, half, (t + 1) as u32), if near_x { 1u64 } else { 0u64 });
    let rows = progression_of(y, 0, t);
    let n1 = if near_x { wadd(n, rows) } else { n };
    let n2 = if spills_of(y, t) { wadd(n1, cols) } else { n1 };
    let near_y = tz(y.0) == t;
    let rows2 = wsub(progression_of(y, half, (t + 1) as u32), if near_y { 1u64 } else { 0u64 });
    let cols2 = progression_of(x, 0, (t + 1) as u32);
    let n3 = if near_y { wadd(n2, cols2) } else { n2 };
    if spills_of(x, (t + 1) as u32) { wadd(n3, rows2) } else { n3 }
}

/// The count of [`z_runs`] after levels `t..levels`, starting from `n`.
pub open spec fn z_runs_from(x: (u64, u64), y: (u64, u64), levels: u32, t: u32, n: u64) -> u64
    decreases levels - t,
{
    if t >= levels {
        n
    } else {
        z_runs_from(x, y, levels, (t + 1) as u32, z_level(x, y, t, n))
    }
}

/// The count of [`z_runs`]: one for a rectangle at the origin, then two
/// progressions a level per axis.
pub open spec fn z_runs_of(x: (u64, u64), y: (u64, u64), levels: u32) -> u64 {
    z_runs_from(x, y, levels, 0, if x.0 == 0 && y.0 == 0 { 1 } else { 0 })
}

/// The runs of the exact Z-order cover of `x0..=x1` x `y0..=y1` on `levels`
/// levels, without a node: a run starts at a cell whose predecessor is
/// outside, and the predecessor of a code is a borrow. When the lowest set
/// bit is bit `t` of `x`, the low `t` bits of both are zero and the borrow
/// gives `(x - 1, y | low(t))`; when it is bit `t` of `y`,
/// `(x | low(t + 1), y - 1)`. The predecessor then leaves by the near side,
/// or by the far side of the other axis, which only the last aligned block
/// before `x1` (or `y1`) can do. Each is a count of an arithmetic
/// progression, two per level; the arithmetic wraps as a word's does.
pub fn z_runs(x: (u64, u64), y: (u64, u64), levels: u32) -> (r: u64)
    requires
        levels <= 32,
    ensures
        r == z_runs_of(x, y, levels),
{
    let (x0, x1) = x;
    let (y0, y1) = y;
    let mut n: u64 = if x0 == 0 && y0 == 0 { 1 } else { 0 };
    let mut t: u32 = 0;
    while t < levels
        invariant
            levels <= 32,
            t <= levels,
            z_runs_from(x, y, levels, t, n) == z_runs_of(x, y, levels),
            x0 == x.0,
            y0 == y.0,
        decreases levels - t,
    {
        let ghost n0 = n;
        let half = 1u64 << t;
        // Lowest set bit in x, at t: the columns with that bit, times the
        // rows with none below it.
        let near = Word::trailing_zeros(x0) == t;
        let cols = progression(x, half, t + 1).wrapping_sub(if near { 1 } else { 0 });
        let rows = progression(y, 0, t);
        if near {
            n = n.wrapping_add(rows);
        }
        if spills(y, t) {
            n = n.wrapping_add(cols);
        }
        // Lowest set bit in y, at t.
        let near = Word::trailing_zeros(y0) == t;
        let rows = progression(y, half, t + 1).wrapping_sub(if near { 1 } else { 0 });
        let cols = progression(x, 0, t + 1);
        if near {
            n = n.wrapping_add(cols);
        }
        if spills(x, t + 1) {
            n = n.wrapping_add(rows);
        }
        assert(n == z_level(x, y, t, n0));
        t = t + 1;
    }
    n
}

/// How many `v` in `a..=b` have `v = r` modulo `2^m`, as a wrapping count.
fn progression(ab: (u64, u64), r: u64, m: u32) -> (c: u64)
    requires
        m < 64,
    ensures
        c == progression_of(ab, r, m),
{
    let (a, b) = ab;
    let upto_b = if b < r { 0 } else { ((b - r) >> m).wrapping_add(1) };
    let before = if a == 0 {
        0
    } else if a - 1 < r {
        0
    } else {
        ((a - 1 - r) >> m).wrapping_add(1)
    };
    upto_b.wrapping_sub(before)
}

/// Whether the last multiple of `2^m` in `a..=b` sticks out past `b` once
/// its low `m` bits are filled.
fn spills(ab: (u64, u64), m: u32) -> (b: bool)
    requires
        m < 64,
    ensures
        b == spills_of(ab, m),
{
    let (a, b) = ab;
    let low = <u64 as Word>::low_ones(m);
    (b & !low) >= a && (b & low) != low
}

/// The least `s <= top` whose cover has at most `limit` runs, counted by
/// [`z_runs`]; the cover at `top` is one node. The runs of a cover go as
/// its perimeter over `2^s`, which gives a first guess, then single steps.
fn depth(levels: u32, r: &Rect, top: u32, limit: usize) -> (s: u32)
    requires
        top <= levels <= 32,
        rect_ok(r),
    ensures
        s <= top,
        s == top || fits_of(levels, r, s as int, limit as u64),
        fits_of(levels, r, s as int, limit as u64) && s > 0 ==> !fits_of(levels, r, s - 1, limit as u64),
{
    let limit = limit as u64;
    let perimeter = (r.x1 - r.x0).wrapping_add(r.y1 - r.y0);
    let guess = bitlen(perimeter);
    let over = bitlen(limit);
    let mut s: u32 = if guess > over { guess - over } else { 0 };
    if s > top {
        s = top;
    }
    if fits(levels, r, s, limit) {
        while s > 0 && fits(levels, r, s - 1, limit)
            invariant
                s <= top <= levels <= 32,
                rect_ok(r),
                fits_of(levels, r, s as int, limit),
            decreases s,
        {
            s = s - 1;
        }
    } else if s < top {
        s = s + 1;
        while s < top && !fits(levels, r, s, limit)
            invariant
                1 <= s <= top <= levels <= 32,
                rect_ok(r),
                !fits_of(levels, r, s - 1, limit),
            decreases top - s,
        {
            s = s + 1;
        }
    }
    s
}

/// The cover rounded out to `2^s` has at most `limit` runs, as [`z_runs`]
/// counts them.
pub open spec fn fits_of(levels: u32, r: &Rect, s: int, limit: u64) -> bool {
    z_runs_of((r.x0 >> (s as u32), r.x1 >> (s as u32)), (r.y0 >> (s as u32), r.y1 >> (s as u32)), (levels - s) as u32) <= limit
}

/// Whether the cover rounded out to `2^s` has at most `limit` runs.
fn fits(levels: u32, r: &Rect, s: u32, limit: u64) -> (b: bool)
    requires
        s <= levels <= 32,
    ensures
        b == fits_of(levels, r, s as int, limit),
{
    z_runs((r.x0 >> s, r.x1 >> s), (r.y0 >> s, r.y1 >> s), levels - s) <= limit
}

/// A rectangle clipped to a grid of `levels` levels: empty, or the
/// rectangle with its far sides pulled in to the grid.
pub open spec fn clipped(levels: u32, x: (u64, u64), y: (u64, u64)) -> Option<(u64, u64, u64, u64)> {
    let side = low_mask(levels as int);
    let x1 = if x.1 < side { x.1 } else { side };
    let y1 = if y.1 < side { y.1 } else { side };
    if x.0 > x1 || y.0 > y1 { None } else { Some((x.0, x1, y.0, y1)) }
}

/// Ranges of keys that are inclusive, increasing, disjoint and not touching.
pub open spec fn ranges_ok(out: Seq<(u64, u64)>, n: int) -> bool {
    &&& forall|i: int| 0 <= i < n ==> (#[trigger] out[i]).0 <= out[i].1
    &&& forall|i: int| 0 <= i < n - 1 ==> (#[trigger] out[i]).1 < 0xffff_ffff_ffff_ffff && out[i].1 + 1 < out[i + 1].0
}

/// Twice the budget, saturating at the largest `usize`: the most runs the
/// cover at the chosen depth may have before its smallest gaps are closed.
pub open spec fn run_limit(budget: int) -> int {
    if 2 * budget <= usize::MAX { 2 * budget } else { usize::MAX as int }
}

/// A depth `s` for the cover of the clipped rectangle `c` on `levels`
/// levels: no deeper than the least aligned node holding it, and there
/// either that node or a depth whose cover has at most `limit` runs, as
/// [`z_runs`] counts them, while the next finer cover has more.
pub open spec fn settled(levels: u32, c: (u64, u64, u64, u64), s: int, limit: int) -> bool {
    let r = Rect { x0: c.0, x1: c.1, y0: c.2, y1: c.3 };
    let top = top_bit((c.0 ^ c.1) | (c.2 ^ c.3)) + 1;
    &&& 0 <= s <= top
    &&& s == top || fits_of(levels, &r, s, limit as u64)
    &&& fits_of(levels, &r, s, limit as u64) && s > 0 ==> !fits_of(levels, &r, s - 1, limit as u64)
}

/// Each of the first `n` ranges is a run of whole blocks of `4^s` keys.
pub open spec fn in_blocks(out: Seq<(u64, u64)>, n: int, s: int) -> bool {
    forall|i: int| 0 <= i < n ==> (#[trigger] out[i]).0 as int % (pow2((2 * s) as nat) as int) == 0
        && (out[i].1 as int + 1) % (pow2((2 * s) as nat) as int) == 0
}

/// Key `k` lies in one of the first `n` ranges.
pub open spec fn covered_by(out: Seq<(u64, u64)>, n: int, k: int) -> bool {
    exists|i: int| 0 <= i < n && out[i].0 <= k <= #[trigger] out[i].1
}

/// The cover of `x.0..=x.1` x `y.0..=y.1` on a Z-order curve of `levels`
/// levels in at most `out.len()` ranges; returns how many. The output is
/// scratch while the gaps are counted.
pub fn cover(levels: u32, x: (u64, u64), y: (u64, u64), out: &mut [(u64, u64)]) -> (n: usize)
    requires
        levels <= 32,
        clipped(levels, x, y) is Some ==> 1 <= old(out)@.len(),
    ensures
        final(out)@.len() == old(out)@.len(),
        n <= old(out)@.len(),
        clipped(levels, x, y) is None ==> n == 0,
        clipped(levels, x, y) is Some ==> 1 <= n,
        ranges_ok(final(out)@, n as int),
        clipped(levels, x, y) matches Some(c) ==> forall|cx: int, cy: int| c.0 <= cx <= c.1 && c.2 <= cy <= c.3
            ==> #[trigger] covered_by(final(out)@, n as int, z_key(levels as int, cx, cy)),
        clipped(levels, x, y) matches Some(c) ==> exists|s: int| #[trigger] settled(levels, c, s, run_limit(old(out)@.len() as int))
            && in_blocks(final(out)@, n as int, s),
{
    let side = <u64 as Word>::low_ones(levels);
    let x0 = x.0;
    let y0 = y.0;
    let x1 = if x.1 < side { x.1 } else { side };
    let y1 = if y.1 < side { y.1 } else { side };
    if x0 > x1 || y0 > y1 {
        return 0;
    }
    proof {
        crate::hilbert::lemma_low_bits(levels as u64, 0);
        assert forall|i: int| levels <= i < 64 implies !#[trigger] bit_of(side, i) by {
            crate::hilbert::lemma_low_bits(levels as u64, i as u64);
        }
        assert(side < 0x1_0000_0000) by {
            assert forall|i: int| 32 <= i < 64 implies !#[trigger] bit_of(side, i) by {
                crate::hilbert::lemma_low_bits(levels as u64, i as u64);
            }
            crate::model::lemma_below_pow(side, 32);
            crate::hilbert::lemma_low_raw(32, 0);
        }
    }
    let r = Rect { x0, x1, y0, y1 };
    // The least aligned node holding the rectangle: above it every cover is
    // that one node, so the walks start there, found by one descent along
    // the path of a corner.
    let spread = (x0 ^ x1) | (y0 ^ y1);
    let top_level = bitlen(spread);
    proof {
        assert forall|i: int| levels <= i < 64 implies !#[trigger] bit_of(spread, i) by {
            crate::hilbert::lemma_low_bits(levels as u64, i as u64);
            if bit_of(x0, i) {
                assert(bit_of(x0, i) ==> x0 <= side) by {
                    if x0 > side {
                        assert(false);
                    }
                }
                lemma_no_bit_above(x0, side, levels as int, i);
            }
            lemma_no_bit_above(x0, side, levels as int, i);
            lemma_no_bit_above(x1, side, levels as int, i);
            lemma_no_bit_above(y0, side, levels as int, i);
            lemma_no_bit_above(y1, side, levels as int, i);
        }
        crate::model::lemma_top_bit(spread);
        if top_bit(spread) >= levels {
            assert(bit_of(spread, top_bit(spread)));
        }
    }
    let mut key: u64 = 0;
    let mut level = levels;
    proof {
        assert forall|cx: int, cy: int| #[trigger] agrees(levels as int, level as int, x0 as int, y0 as int, cx, cy)
            implies z_key(levels as int, cx, cy) == key + z_key(level as int, cx % (pow2(level as nat) as int),
                cy % (pow2(level as nat) as int)) by {
            vstd::arithmetic::div_mod::lemma_small_mod(cx as nat, pow2(levels as nat));
            vstd::arithmetic::div_mod::lemma_small_mod(cy as nat, pow2(levels as nat));
        }
    }
    while level > top_level
        invariant
            top_level <= level <= levels <= 32,
            forall|i: int| 0 <= i < 2 * level ==> !#[trigger] bit_of(key, i),
            forall|cx: int, cy: int| #[trigger] agrees(levels as int, level as int, x0 as int, y0 as int, cx, cy)
                ==> z_key(levels as int, cx, cy) == key + z_key(level as int, cx % (pow2(level as nat) as int),
                    cy % (pow2(level as nat) as int)),
        decreases level,
    {
        let ghost key_above = key;
        level = level - 1;
        let dx: u64 = if x0.bit(level) { 1 } else { 0 };
        let dy: u64 = if y0.bit(level) { 1 } else { 0 };
        let (digit, _below) = z_digit(dx, dy);
        let ghost before = key;
        let sh: u32 = 2 * level;
        proof {
            vstd::arithmetic::power2::lemma2_to64();
            lemma_aligned_room(key, (2 * level + 2) as int);
            vstd::arithmetic::power2::lemma_pow2_adds((2 * level) as nat, 2);
            assert(((2 * level) as nat + 2) as nat == (2 * level + 2) as nat);
            assert(digit * pow2((2 * level) as nat) + pow2((2 * level) as nat) <= pow2((2 * level + 2) as nat)) by (nonlinear_arith)
                requires digit < 4, pow2((2 * level + 2) as nat) == pow2((2 * level) as nat) * 4;
            lemma_block(key, digit, sh, (2 * level + 2) as int);
        }
        key = key | (digit << (sh as u64));
        proof {
            lemma_no_high_bits(digit, 2);
            assert forall|i: int| 0 <= i < 2 * level implies !#[trigger] bit_of(key, i) by {}
            assert forall|cx: int, cy: int| #[trigger] agrees(levels as int, level as int, x0 as int, y0 as int, cx, cy)
                implies z_key(levels as int, cx, cy) == key + z_key(level as int, cx % (pow2(level as nat) as int),
                    cy % (pow2(level as nat) as int)) by {
                assert(agrees(levels as int, level + 1, x0 as int, y0 as int, cx, cy) ==> z_key(levels as int, cx, cy)
                    == key_above + z_key(level + 1, cx % (pow2((level + 1) as nat) as int), cy % (pow2((level + 1) as nat) as int)));
                lemma_descent_step(levels as int, level as int, x0, y0, key_above as int, digit as int, cx, cy);
            }
        }
    }
    let masks = z_masks();
    let budget = out.len();
    // Twice the budget, the most runs the gaps can be counted for; a budget
    // past what the counts hold leaves the walk to spill.
    let limit: usize = if budget <= usize::MAX / 2 { budget * 2 } else { usize::MAX };
    let room: usize = if budget <= 0x7fff_ffff { 2 * budget } else { 0xffff_fffe };
    let stop = depth(levels, &r, top_level, limit);
    proof {
        assert(limit == run_limit(budget as int));
        assert(budget == old(out)@.len());
        assert(settled(levels, (x0, x1, y0, y1), stop as int, run_limit(budget as int)));
    }
    let ghost ox = x0 & !low_mask(top_level as int);
    let ghost oy = y0 & !low_mask(top_level as int);
    proof {
        lemma_or_low(key, (2 * top_level) as int);
        lemma_low_mask_value(levels as int);
        assert forall|i: int| top_level <= i < 64 implies #[trigger] bit_of(x0, i) == bit_of(x1, i) by {
            assert(!bit_of(spread, i));
        }
        assert forall|i: int| top_level <= i < 64 implies #[trigger] bit_of(y0, i) == bit_of(y1, i) by {
            assert(!bit_of(spread, i));
        }
    }
    if stop == top_level {
        out[0] = (key, key | <u64 as Word>::low_ones(2 * top_level));
        proof {
            lemma_node_covers(levels as int, top_level as int, key, x0, x1, y0, y1, ox, oy, out@);
            lemma_node_blocks(key, top_level as int, stop as int, out@);
            lemma_some_depth(levels, x, y, (x0, x1, y0, y1), stop as int, run_limit(old(out)@.len() as int), out@, 1);
        }
        return 1;
    }
    let above = !<u64 as Word>::low_ones(top_level);
    let origin = (x0 & above, y0 & above);
    proof {
        lemma_aligned_room(key, (2 * top_level) as int);
    }
    // The gaps of that cover, and the threshold that leaves `budget` runs:
    // the largest `budget - 1` gaps stay open.
    let mut gaps = Gaps { runs: 0, last: None, lengths: [0u32; 129], least: 0xffff_ffff, room, spilled: false };
    walk(&masks, &r, top_level, stop, key, origin, 0, &mut gaps, out);
    if gaps.spilled {
        out[0] = (key, key | <u64 as Word>::low_ones(2 * top_level));
        proof {
            lemma_node_covers(levels as int, top_level as int, key, x0, x1, y0, y1, ox, oy, out@);
            lemma_node_blocks(key, top_level as int, stop as int, out@);
            lemma_some_depth(levels, x, y, (x0, x1, y0, y1), stop as int, run_limit(old(out)@.len() as int), out@, 1);
        }
        return 1;
    }
    let runs = gaps.runs;
    let (threshold_gap, ties) = if runs > budget {
        threshold(out, runs - 1, (&gaps.lengths, gaps.least), runs - budget)
    } else {
        (0, 0)
    };
    let mut merge = Merge { n: 0, threshold: threshold_gap, ties, grain: Ghost((2 * stop) as int) };
    walk(&masks, &r, top_level, stop, key, origin, 0, &mut merge, out);
    if merge.n == 0 {
        out[0] = (key, key | <u64 as Word>::low_ones(2 * top_level));
        proof {
            lemma_node_covers(levels as int, top_level as int, key, x0, x1, y0, y1, ox, oy, out@);
            lemma_node_blocks(key, top_level as int, stop as int, out@);
            lemma_some_depth(levels, x, y, (x0, x1, y0, y1), stop as int, run_limit(old(out)@.len() as int), out@, 1);
        }
        return 1;
    }
    proof {
        assert forall|cx: int, cy: int| x0 <= cx <= x1 && y0 <= cy <= y1
            implies #[trigger] covered_by(out@, merge.n as int, z_key(levels as int, cx, cy)) by {
            lemma_rect_key(levels as int, top_level as int, key as int, x0, x1, y0, y1, ox, oy, cx, cy);
            assert(in_node_rect(top_level as int, origin.0 as int, origin.1 as int, r, cx, cy));
            assert(merge.covers(out@, key + deep(masks.table(), 0, 0, cx - origin.0, cy - origin.1, top_level as int).0));
        }
        assert(merge.inv(out@));
        lemma_blocks_from_bits(out@, merge.n as int, (2 * stop) as int);
        lemma_some_depth(levels, x, y, (x0, x1, y0, y1), stop as int, run_limit(old(out)@.len() as int), out@, merge.n as int);
    }
    merge.n
}

/// Bits `lo..=hi` of a word, none when `lo > hi`; both below 64.
fn bits(lo: u32, hi: u32) -> (r: u64)
    requires
        hi < 64,
    ensures
        forall|c: int| 0 <= c < 64 ==> #[trigger] bit_of(r, c) == (lo <= c <= hi),
{
    if lo > hi {
        proof {
            assert forall|c: int| 0 <= c < 64 implies #[trigger] bit_of(0u64, c) == (lo <= c <= hi) by {}
        }
        0
    } else {
        let r = (0xffff_ffff_ffff_ffffu64 >> (63 - hi)) & (0xffff_ffff_ffff_ffffu64 << lo);
        proof {
            assert forall|c: int| 0 <= c < 64 implies #[trigger] bit_of(r, c) == (lo <= c <= hi) by {
                if c <= hi {
                    assert(bit_of(0xffff_ffff_ffff_ffffu64 >> ((63 - hi) as u64), c) == bit_of(0xffff_ffff_ffff_ffffu64, c + 63 - hi));
                }
                if c >= lo {
                    assert(bit_of(0xffff_ffff_ffff_ffffu64 << (lo as u64), c) == bit_of(0xffff_ffff_ffff_ffffu64, c - lo));
                }
            }
        }
        r
    }
}

/// The quadrant of the cell `(u, v)` at level `l` of a node, the cell
/// counted from the node's corner.
pub open spec fn qd(u: int, v: int, l: int) -> int {
    (u / (pow2(l as nat) as int)) % 2 + 2 * ((v / (pow2(l as nat) as int)) % 2)
}

/// The digits of the cell `(u, v)` of a node `l` levels tall in frame `g`,
/// read from the top, appended to `p`; and the frame below the last.
pub open spec fn deep(digit: Seq<[(u8, u8); 4]>, g: int, p: int, u: int, v: int, l: int) -> (int, int)
    decreases l,
{
    if l <= 0 {
        (p, g)
    } else {
        let e = digit[g]@[qd(u, v, l - 1)];
        deep(digit, e.1 as int, 4 * p + e.0 as int, u, v, l - 1)
    }
}

/// A bit below `b` of a number is the same bit of its remainder by `2^b`.
proof fn lemma_low_bit_of_rem(u: int, j: int, b: int)
    requires
        0 <= u,
        0 <= j < b,
    ensures
        (u / (pow2(j as nat) as int)) % 2 == ((u % (pow2(b as nat) as int)) / (pow2(j as nat) as int)) % 2,
{
    let d = pow2(j as nat) as int;
    let e = pow2((b - j - 1) as nat) as int;
    let m = pow2(b as nat) as int;
    vstd::arithmetic::power2::lemma_pow2_pos(j as nat);
    vstd::arithmetic::power2::lemma_pow2_pos((b - j - 1) as nat);
    vstd::arithmetic::power2::lemma_pow2_adds(j as nat, ((b - j - 1) + 1) as nat);
    vstd::arithmetic::power2::lemma_pow2_unfold(((b - j - 1) + 1) as nat);
    assert((j as nat + ((b - j - 1) + 1) as nat) as nat == b as nat);
    assert(m == d * (2 * e));
    vstd::arithmetic::power2::lemma_pow2_pos(b as nat);
    vstd::arithmetic::div_mod::lemma_fundamental_div_mod(u, m);
    vstd::arithmetic::div_mod::lemma_mod_pos_bound(u, m);
    let q = u / m;
    let r = u % m;
    assert(u == r + (q * (2 * e)) * d) by (nonlinear_arith)
        requires u == m * q + r, m == d * (2 * e);
    vstd::arithmetic::div_mod::lemma_hoist_over_denominator(r, q * (2 * e), d as nat);
    assert(u / d == r / d + q * (2 * e));
    assert(r / d >= 0) by {
        vstd::arithmetic::div_mod::lemma_div_pos_is_pos(r, d);
    }
    vstd::arithmetic::div_mod::lemma_mod_multiples_vanish(q * e, r / d, 2);
    assert(2 * (q * e) + r / d == r / d + q * (2 * e)) by (nonlinear_arith);
}

/// The digits of a node `l <= b` levels tall read only the bits of the cell
/// below `b`.
proof fn lemma_deep_low(digit: Seq<[(u8, u8); 4]>, g: int, p: int, u: int, v: int, l: int, b: int)
    requires
        0 <= u,
        0 <= v,
        0 <= l <= b,
    ensures
        deep(digit, g, p, u, v, l) == deep(digit, g, p, u % (pow2(b as nat) as int), v % (pow2(b as nat) as int), l),
    decreases l,
{
    if l > 0 {
        lemma_low_bit_of_rem(u, l - 1, b);
        lemma_low_bit_of_rem(v, l - 1, b);
        let e = digit[g]@[qd(u, v, l - 1)];
        lemma_deep_low(digit, e.1 as int, 4 * p + e.0 as int, u, v, l - 1, b);
    }
}

/// The digits of a cell are those of the prefix followed by its own, `4^l`
/// of them, and the frames stay in the table.
proof fn lemma_deep_acc(digit: Seq<[(u8, u8); 4]>, g: int, p: int, u: int, v: int, l: int)
    requires
        digits_ok(digit),
        0 <= g < digit.len(),
        0 <= p,
        0 <= l,
    ensures
        deep(digit, g, p, u, v, l).0 == p * pow2((2 * l) as nat) + deep(digit, g, 0, u, v, l).0,
        0 <= deep(digit, g, 0, u, v, l).0 < pow2((2 * l) as nat),
        0 <= deep(digit, g, p, u, v, l).1 < digit.len(),
    decreases l,
{
    if l > 0 {
        let q = qd(u, v, l - 1);
        assert(0 <= q < 4);
        let e = digit[g]@[q];
        assert(e.0 < 4 && e.1 < digit.len());
        let d = e.0 as int;
        let h = e.1 as int;
        let pp = 4 * p + d;
        let w = pow2((2 * (l - 1)) as nat) as int;
        lemma_deep_acc(digit, h, pp, u, v, l - 1);
        lemma_deep_acc(digit, h, d, u, v, l - 1);
        vstd::arithmetic::power2::lemma_pow2_unfold((2 * l - 1) as nat);
        vstd::arithmetic::power2::lemma_pow2_unfold((2 * l) as nat);
        assert(pow2((2 * l) as nat) == 4 * w);
        vstd::arithmetic::power2::lemma_pow2_pos((2 * (l - 1)) as nat);
        assert(pp * w == p * (4 * w) + d * w) by (nonlinear_arith)
            requires pp == 4 * p + d;
        assert(d * w + w <= 4 * w) by (nonlinear_arith)
            requires d < 4, w >= 1;
        assert(0 <= d * w) by (nonlinear_arith)
            requires 0 <= d, w >= 1;
    } else {
        assert(pow2(0) == 1) by {
            vstd::arithmetic::power2::lemma2_to64();
        }
        assert(p * 1 == p);
    }
}

/// The top `k` levels of a cell's digits are those of its descendant in
/// the table: reading `below + k` levels is reading the `k` levels of the
/// descendant `(u / 2^below, v / 2^below)`, then `below` more.
proof fn lemma_deep_split(digit: Seq<[(u8, u8); 4]>, g: int, p: int, u: int, v: int, below: int, k: int)
    requires
        0 <= u,
        0 <= v,
        0 <= below,
        0 <= k <= 3,
    ensures
        ({
            let cu = u / (pow2(below as nat) as int);
            let cv = v / (pow2(below as nat) as int);
            let top = descend(digit, g, p, cu, cv, k);
            deep(digit, g, p, u, v, below + k) == deep(digit, top.1, top.0, u, v, below)
        }),
    decreases k,
{
    if k > 0 {
        let d = pow2(below as nat) as int;
        let cu = u / d;
        let cv = v / d;
        let j = k - 1;
        vstd::arithmetic::power2::lemma_pow2_pos(below as nat);
        vstd::arithmetic::power2::lemma_pow2_pos(j as nat);
        vstd::arithmetic::power2::lemma_pow2_adds(below as nat, j as nat);
        assert((below as nat + j as nat) as nat == (below + j) as nat);
        vstd::arithmetic::div_mod::lemma_div_denominator(u, d, pow2(j as nat) as int);
        vstd::arithmetic::div_mod::lemma_div_denominator(v, d, pow2(j as nat) as int);
        vstd::arithmetic::power2::lemma2_to64();
        assert(pw(j) == pow2(j as nat));
        assert(quad(cu, cv, j) == qd(u, v, below + j));
        let e = digit[g]@[quad(cu, cv, j)];
        lemma_deep_split(digit, e.1 as int, 4 * p + e.0 as int, u, v, below, k - 1);
    }
}

/// A descendant number past the node's `n` counts as `n`.
fn clamp_key(v: u64, n: u32) -> (r: u32)
    ensures
        r as int == if v >= n { n as int } else { v as int },
{
    if v >= n as u64 {
        n
    } else {
        v as u32
    }
}

/// Every digit below four is some quadrant's in a frame.
proof fn lemma_digit_onto(digit: Seq<[(u8, u8); 4]>, g: int, d: int) -> (q: int)
    requires
        digits_ok(digit),
        0 <= g < digit.len(),
        0 <= d < 4,
    ensures
        0 <= q < 4,
        digit[g]@[q].0 == d,
{
    let e0 = digit[g]@[0].0 as int;
    let e1 = digit[g]@[1].0 as int;
    let e2 = digit[g]@[2].0 as int;
    let e3 = digit[g]@[3].0 as int;
    assert(e0 < 4 && e1 < 4 && e2 < 4 && e3 < 4);
    assert(e0 != e1 && e0 != e2 && e0 != e3 && e1 != e2 && e1 != e3 && e2 != e3);
    if e0 == d {
        0
    } else if e1 == d {
        1
    } else if e2 == d {
        2
    } else {
        3
    }
}

/// Every key below a node is some cell's: the digits of a node `l` levels
/// tall reach every number below `4^l`.
#[verifier::spinoff_prover]
proof fn lemma_deep_onto(digit: Seq<[(u8, u8); 4]>, g: int, l: int, t: int) -> (uv: (int, int))
    requires
        digits_ok(digit),
        0 <= g < digit.len(),
        0 <= l,
        0 <= t < pow2((2 * l) as nat),
    ensures
        0 <= uv.0 < pow2(l as nat),
        0 <= uv.1 < pow2(l as nat),
        deep(digit, g, 0, uv.0, uv.1, l).0 == t,
    decreases l,
{
    if l == 0 {
        assert(pow2(0) == 1) by {
            vstd::arithmetic::power2::lemma2_to64();
        }
        (0, 0)
    } else {
        let w = pow2((2 * (l - 1)) as nat) as int;
        let h1 = pow2((l - 1) as nat) as int;
        vstd::arithmetic::power2::lemma_pow2_pos((2 * (l - 1)) as nat);
        vstd::arithmetic::power2::lemma_pow2_pos((l - 1) as nat);
        vstd::arithmetic::power2::lemma_pow2_unfold((2 * l - 1) as nat);
        vstd::arithmetic::power2::lemma_pow2_unfold((2 * l) as nat);
        vstd::arithmetic::power2::lemma_pow2_unfold(l as nat);
        assert(pow2((2 * l) as nat) == 4 * w);
        assert(pow2(l as nat) == 2 * h1);
        vstd::arithmetic::div_mod::lemma_fundamental_div_mod(t, w);
        vstd::arithmetic::div_mod::lemma_mod_pos_bound(t, w);
        let d = t / w;
        let rest = t % w;
        assert(0 <= d < 4) by {
            vstd::arithmetic::div_mod::lemma_div_pos_is_pos(t, w);
            lemma_floor(4, t, w);
            assert(4 * w > t);
        }
        let q = lemma_digit_onto(digit, g, d);
        let e = digit[g]@[q];
        let hf = e.1 as int;
        let (u1, v1) = lemma_deep_onto(digit, hf, l - 1, rest);
        let u = (q % 2) * h1 + u1;
        let v = (q / 2) * h1 + v1;
        assert(u / h1 == q % 2) by {
            vstd::arithmetic::div_mod::lemma_div_multiples_vanish_fancy(q % 2, u1, h1);
            assert(h1 * (q % 2) + u1 == u) by (nonlinear_arith) requires u == (q % 2) * h1 + u1;
        }
        assert(v / h1 == q / 2) by {
            vstd::arithmetic::div_mod::lemma_div_multiples_vanish_fancy(q / 2, v1, h1);
            assert(h1 * (q / 2) + v1 == v) by (nonlinear_arith) requires v == (q / 2) * h1 + v1;
        }
        assert(qd(u, v, l - 1) == q);
        assert(u % h1 == u1) by {
            vstd::arithmetic::div_mod::lemma_mod_multiples_vanish(q % 2, u1, h1);
            vstd::arithmetic::div_mod::lemma_small_mod(u1 as nat, h1 as nat);
            assert(h1 * (q % 2) + u1 == u) by (nonlinear_arith) requires u == (q % 2) * h1 + u1;
        }
        assert(v % h1 == v1) by {
            vstd::arithmetic::div_mod::lemma_mod_multiples_vanish(q / 2, v1, h1);
            vstd::arithmetic::div_mod::lemma_small_mod(v1 as nat, h1 as nat);
            assert(h1 * (q / 2) + v1 == v) by (nonlinear_arith) requires v == (q / 2) * h1 + v1;
        }
        assert(0 <= u && 0 <= v) by (nonlinear_arith) requires u == (q % 2) * h1 + u1, v == (q / 2) * h1 + v1,
            0 <= q % 2, 0 <= q / 2, h1 > 0, u1 >= 0, v1 >= 0;
        lemma_deep_low(digit, hf, 0, u, v, l - 1, l - 1);
        lemma_deep_acc(digit, hf, d, u, v, l - 1);
        assert(deep(digit, g, 0, u, v, l) == deep(digit, hf, 4 * 0 + d, u, v, l - 1));
        assert(u < pow2(l as nat) && v < pow2(l as nat)) by (nonlinear_arith)
            requires u == (q % 2) * h1 + u1, v == (q / 2) * h1 + v1, q % 2 <= 1, q / 2 <= 1, u1 < h1, v1 < h1,
                pow2(l as nat) == 2 * h1;
        assert(d * w + rest == t);
        (u, v)
    }
}

/// Cell `(x, y)` of the node at `level` whose first key is `key`, square
/// at `(ox, oy)`, in `frame`, lies in the rectangle and has its key in
/// `a..=b`: its key is the node's first key plus its digits below the node.
pub open spec fn hit_at(
    digit: Seq<[(u8, u8); 4]>, frame: int, level: int, key: int, ox: int, oy: int, r: Rect, a: int, b: int, x: int, y: int,
) -> bool {
    &&& ox <= x < ox + pow2(level as nat) && oy <= y < oy + pow2(level as nat)
    &&& r.x0 <= x <= r.x1 && r.y0 <= y <= r.y1
    &&& a <= key + deep(digit, frame, 0, x - ox, y - oy, level).0 <= b
}

/// The key of a cell of a node is that of its descendant `below` levels
/// up, then its own digits below: the descendant's column and row, digits,
/// frame, first key and corner.
proof fn lemma_cell_in_child(
    digit: Seq<[(u8, u8); 4]>, f: int, key: int, ox: int, oy: int, below: int, k: int, x: int, y: int,
)
    requires
        digits_ok(digit),
        0 <= f < digit.len(),
        0 <= below,
        1 <= k <= 3,
        ox <= x < ox + pow2((below + k) as nat),
        oy <= y < oy + pow2((below + k) as nat),
    ensures
        ({
            let p0 = pow2(below as nat) as int;
            let cu = (x - ox) / p0;
            let cv = (y - oy) / p0;
            let pth = crate::masks::path(digit, f, k, cu, cv);
            let h = crate::masks::path_frame(digit, f, k, cu, cv);
            &&& 0 <= cu < pw(k) && 0 <= cv < pw(k)
            &&& 0 <= pth < pw4(k)
            &&& 0 <= h < digit.len()
            &&& ox + cu * p0 <= x < ox + cu * p0 + p0
            &&& oy + cv * p0 <= y < oy + cv * p0 + p0
            &&& deep(digit, f, 0, x - ox, y - oy, below + k).0
                == pth * pow2((2 * below) as nat) + deep(digit, h, 0, x - (ox + cu * p0), y - (oy + cv * p0), below).0
            &&& 0 <= deep(digit, h, 0, x - (ox + cu * p0), y - (oy + cv * p0), below).0 < pow2((2 * below) as nat)
        }),
{
    let p0 = pow2(below as nat) as int;
    let u = x - ox;
    let v = y - oy;
    let cu = u / p0;
    let cv = v / p0;
    vstd::arithmetic::power2::lemma_pow2_pos(below as nat);
    vstd::arithmetic::power2::lemma_pow2_adds(below as nat, k as nat);
    assert((below as nat + k as nat) as nat == (below + k) as nat);
    vstd::arithmetic::power2::lemma2_to64();
    assert(pw(k) == pow2(k as nat));
    let pk = pow2(k as nat) as int;
    assert(u < p0 * pk);
    vstd::arithmetic::div_mod::lemma_fundamental_div_mod(u, p0);
    vstd::arithmetic::div_mod::lemma_mod_pos_bound(u, p0);
    vstd::arithmetic::div_mod::lemma_fundamental_div_mod(v, p0);
    vstd::arithmetic::div_mod::lemma_mod_pos_bound(v, p0);
    assert(0 <= cu < pk) by {
        vstd::arithmetic::div_mod::lemma_div_pos_is_pos(u, p0);
        lemma_floor(pk, u, p0);
        assert(pk * p0 > u) by (nonlinear_arith) requires u < p0 * pk;
    }
    assert(0 <= cv < pk) by {
        vstd::arithmetic::div_mod::lemma_div_pos_is_pos(v, p0);
        lemma_floor(pk, v, p0);
        assert(pk * p0 > v) by (nonlinear_arith) requires v < p0 * pk;
    }
    crate::masks::lemma_path_bounds(digit, f, k, cu, cv);
    lemma_deep_split(digit, f, 0, u, v, below, k);
    let pth = crate::masks::path(digit, f, k, cu, cv);
    let h = crate::masks::path_frame(digit, f, k, cu, cv);
    lemma_deep_acc(digit, h, pth, u, v, below);
    lemma_deep_low(digit, h, 0, u, v, below, below);
    assert(u % p0 == x - (ox + cu * p0)) by (nonlinear_arith)
        requires u == p0 * cu + u % p0, u == x - ox;
    assert(v % p0 == y - (oy + cv * p0)) by (nonlinear_arith)
        requires v == p0 * cv + v % p0, v == y - oy;
    lemma_deep_acc(digit, h, 0, u % p0, v % p0, below);
}

/// A cell placed in the descendant `(c, rr)` of a node is a cell of the
/// node, and its key is the descendant's digits then its own.
proof fn lemma_child_cell(
    digit: Seq<[(u8, u8); 4]>, f: int, ox: int, oy: int, below: int, k: int, c: int, rr: int, u1: int, v1: int,
)
    requires
        digits_ok(digit),
        0 <= f < digit.len(),
        0 <= below,
        1 <= k <= 3,
        0 <= c < pw(k),
        0 <= rr < pw(k),
        0 <= u1 < pow2(below as nat),
        0 <= v1 < pow2(below as nat),
    ensures
        ({
            let q0 = pow2(below as nat) as int;
            let x = ox + c * q0 + u1;
            let y = oy + rr * q0 + v1;
            let h = crate::masks::path_frame(digit, f, k, c, rr);
            &&& ox <= x < ox + pow2((below + k) as nat)
            &&& oy <= y < oy + pow2((below + k) as nat)
            &&& deep(digit, f, 0, x - ox, y - oy, below + k).0
                == crate::masks::path(digit, f, k, c, rr) * pow2((2 * below) as nat) + deep(digit, h, 0, u1, v1, below).0
            &&& 0 <= deep(digit, h, 0, u1, v1, below).0 < pow2((2 * below) as nat)
        }),
{
    let q0 = pow2(below as nat) as int;
    let x = ox + c * q0 + u1;
    let y = oy + rr * q0 + v1;
    vstd::arithmetic::power2::lemma_pow2_pos(below as nat);
    vstd::arithmetic::power2::lemma_pow2_adds(below as nat, k as nat);
    assert((below as nat + k as nat) as nat == (below + k) as nat);
    vstd::arithmetic::power2::lemma2_to64();
    assert(pw(k) == pow2(k as nat));
    assert(c * q0 + u1 < q0 * pow2(k as nat)) by (nonlinear_arith)
        requires c + 1 <= pow2(k as nat), u1 < q0, q0 > 0;
    assert(rr * q0 + v1 < q0 * pow2(k as nat)) by (nonlinear_arith)
        requires rr + 1 <= pow2(k as nat), v1 < q0, q0 > 0;
    assert(0 <= c * q0 && 0 <= rr * q0) by (nonlinear_arith) requires c >= 0, rr >= 0, q0 > 0;
    lemma_cell_in_child(digit, f, 0, ox, oy, below, k, x, y);
    assert((x - ox) / q0 == c) by {
        vstd::arithmetic::div_mod::lemma_div_multiples_vanish_fancy(c, u1, q0);
        assert(q0 * c + u1 == x - ox) by (nonlinear_arith) requires x == ox + c * q0 + u1;
    }
    assert((y - oy) / q0 == rr) by {
        vstd::arithmetic::div_mod::lemma_div_multiples_vanish_fancy(rr, v1, q0);
        assert(q0 * rr + v1 == y - oy) by (nonlinear_arith) requires y == oy + rr * q0 + v1;
    }
}

/// The lesser of two.
pub open spec fn least(x: int, y: int) -> int {
    if x < y { x } else { y }
}

/// A descendant the rectangle meets whose keys lie in `a..=b`, or one
/// inside the rectangle whose keys meet `a..=b`, holds a hit.
#[verifier::spinoff_prover]
#[verifier::rlimit(60)]
proof fn lemma_settled_hit(
    digit: Seq<[(u8, u8); 4]>, frame: int, level: int, k: int, below: int, key: u64, ox0: u64, oy0: u64, r: Rect,
    a: u64, b: u64, p0: int, n: int, first_met: int, last_met: int, first_in: int, past: int, d: u64,
    keys_met: u64, keys_in: u64, cols: u64, rows: u64, cols_in: u64, rows_in: u64, met: u64, inside: u64,
)
    requires
        digits_ok(digit),
        0 <= frame < digit.len(),
        1 <= k <= 3,
        below + k == level,
        1 <= level <= 32,
        p0 == pow2((2 * below) as nat),
        p0 > 0,
        n == pw4(k),
        pw4(k) * p0 == pow2((2 * level) as nat),
        key + pow2((2 * level) as nat) <= pow2(64),
        key <= b,
        d == b - key,
        a > key ==> first_met == least(((a - key) as int) / p0, n),
        a > key ==> first_in == least(((a - key - 1) as int) / p0, n) + 1,
        a <= key ==> first_met == 0 && first_in == 0,
        last_met == least(least((d as int) / p0, n), n - 1),
        d >= low_mask(2 * level) ==> past == n,
        d < low_mask(2 * level) ==> past == least(((d + 1) as int) / p0, n),
        forall|q: int| 0 <= q < 64 ==> #[trigger] bit_of(keys_met, q) == (first_met <= q <= last_met),
        past == 0 ==> keys_in == 0,
        past > 0 ==> forall|q: int| 0 <= q < 64 ==> #[trigger] bit_of(keys_in, q) == (first_in <= q <= past - 1),
        forall|c: int| 0 <= c < 64 ==> #[trigger] bit_of(cols, c) == (c < pw(k) && ox0 + c * (pow2(below as nat) as int) <= r.x1
            && r.x0 <= ox0 + (c + 1) * (pow2(below as nat) as int) - 1),
        forall|c: int| 0 <= c < 64 ==> #[trigger] bit_of(cols_in, c) == (c < pw(k) && r.x0 <= ox0 + c * (pow2(below as nat) as int)
            && ox0 + (c + 1) * (pow2(below as nat) as int) - 1 <= r.x1),
        forall|c: int| 0 <= c < 64 ==> #[trigger] bit_of(rows, c) == (c < pw(k) && oy0 + c * (pow2(below as nat) as int) <= r.y1
            && r.y0 <= oy0 + (c + 1) * (pow2(below as nat) as int) - 1),
        forall|c: int| 0 <= c < 64 ==> #[trigger] bit_of(rows_in, c) == (c < pw(k) && r.y0 <= oy0 + c * (pow2(below as nat) as int)
            && oy0 + (c + 1) * (pow2(below as nat) as int) - 1 <= r.y1),
        forall|q: int| 0 <= q < 64 ==> #[trigger] bit_of(met, q) == (q < pw4(k) && crate::masks::in_cols(digit, frame, k, cols, q)
            && crate::masks::in_rows(digit, frame, k, rows, q)),
        forall|q: int| 0 <= q < 64 ==> #[trigger] bit_of(inside, q) == (q < pw4(k) && crate::masks::in_cols(digit, frame, k, cols_in, q)
            && crate::masks::in_rows(digit, frame, k, rows_in, q)),
        met & keys_in != 0 || inside & keys_met != 0,
        a <= b,
        r.x0 <= r.x1 && r.y0 <= r.y1,
    ensures
        exists|x: int, y: int| #[trigger] hit_at(digit, frame, level, key as int, ox0 as int, oy0 as int, r, a as int, b as int, x, y),
{
    let origin = (ox0, oy0);
    let ox = origin.0 as int;
    let oy = origin.1 as int;
    let q0 = pow2(below as nat) as int;
    vstd::arithmetic::power2::lemma2_to64();
    assert(pw(k) == pow2(k as nat));
    let w = if met & keys_in != 0 { met & keys_in } else { inside & keys_met };
    crate::model::lemma_tz(w);
    let p = crate::model::tz(w);
    let (cm, rm) = if met & keys_in != 0 { (cols, rows) } else { (cols_in, rows_in) };
    assert(bit_of(if met & keys_in != 0 { met } else { inside }, p));
    assert(crate::masks::in_cols(digit, frame, k, cm, p));
    assert(crate::masks::in_rows(digit, frame, k, rm, p));
    let (c1, r1) = choose|c: int, rr: int| 0 <= c < pw(k) && 0 <= rr < pw(k) && bit_of(cm, c)
        && #[trigger] crate::masks::path(digit, frame, k, c, rr) == p;
    let (c2, r2) = choose|c: int, rr: int| 0 <= c < pw(k) && 0 <= rr < pw(k) && bit_of(rm, rr)
        && #[trigger] crate::masks::path(digit, frame, k, c, rr) == p;
    crate::masks::lemma_path_injective(digit, frame, k, (c1, r1), (c2, r2));
    let c = c1;
    let rr = r1;
    let h = crate::masks::path_frame(digit, frame, k, c, rr);
    crate::masks::lemma_path_bounds(digit, frame, k, c, rr);
    assert(p < n);
    if met & keys_in != 0 {
        // The descendant's keys lie in `a..=b`; a cell of it in the
        // rectangle is a hit.
        assert(bit_of(keys_in, p));
        assert(a <= key + p * p0) by {
            if a > key {
                lemma_floor(p, (a - key - 1) as int, p0);
            }
        }
        assert(key + p * p0 + p0 - 1 <= b) by {
            assert((p + 1) * p0 == p * p0 + p0) by (nonlinear_arith);
            assert(p * p0 + p0 <= pw4(k) * p0) by (nonlinear_arith)
                requires p + 1 <= pw4(k), p0 > 0;
            if d < low_mask((2 * level) as int) {
                lemma_floor(p + 1, (d + 1) as int, p0);
            } else {
                lemma_low_mask_top((2 * level) as int);
            }
        }
        lemma_hit_keys_inside(digit, frame, level, k, below, key as int, ox, oy, r, a as int, b as int, p0, c, rr);
    } else {
        // The descendant lies in the rectangle and its keys meet
        // `a..=b`; the cell of a key in both is a hit.
        assert(bit_of(keys_met, p));
        assert(a <= key + p * p0 + p0 - 1) by {
            assert((p + 1) * p0 == p * p0 + p0) by (nonlinear_arith);
            if a > key {
                lemma_floor(p + 1, (a - key) as int, p0);
            }
        }
        assert(key + p * p0 <= b) by {
            lemma_floor(p, d as int, p0);
        }
        lemma_hit_cells_inside(digit, frame, level, k, below, key as int, ox, oy, r, a as int, b as int, p0, c, rr);
    }
}

/// The mask of the low `n <= 64` bits is `2^n - 1`.
proof fn lemma_low_mask_top(n: int)
    requires
        0 <= n <= 64,
    ensures
        low_mask(n) as int == pow2(n as nat) - 1,
{
    if n < 64 {
        lemma_low_mask_value(n);
    } else {
        vstd::arithmetic::power2::lemma2_to64();
    }
}

/// A descendant whose keys lie in `a..=b` and whose column and row meet the
/// rectangle holds a hit.
#[verifier::spinoff_prover]
proof fn lemma_hit_keys_inside(
    digit: Seq<[(u8, u8); 4]>, frame: int, level: int, k: int, below: int, key: int, ox: int, oy: int, r: Rect,
    a: int, b: int, p0: int, c: int, rr: int,
)
    requires
        digits_ok(digit),
        0 <= frame < digit.len(),
        1 <= k <= 3,
        0 <= below,
        below + k == level,
        p0 == pow2((2 * below) as nat),
        0 <= c < pw(k),
        0 <= rr < pw(k),
        r.x0 <= r.x1 && r.y0 <= r.y1,
        ox + c * (pow2(below as nat) as int) <= r.x1 && r.x0 <= ox + (c + 1) * (pow2(below as nat) as int) - 1,
        oy + rr * (pow2(below as nat) as int) <= r.y1 && r.y0 <= oy + (rr + 1) * (pow2(below as nat) as int) - 1,
        ({
            let p = crate::masks::path(digit, frame, k, c, rr);
            a <= key + p * p0 && key + p * p0 + p0 - 1 <= b
        }),
    ensures
        exists|x: int, y: int| #[trigger] hit_at(digit, frame, level, key, ox, oy, r, a, b, x, y),
{
    let q0 = pow2(below as nat) as int;
    vstd::arithmetic::power2::lemma_pow2_pos(below as nat);
    let u1: int = if r.x0 > ox + c * q0 { r.x0 - (ox + c * q0) } else { 0 };
    let v1: int = if r.y0 > oy + rr * q0 { r.y0 - (oy + rr * q0) } else { 0 };
    assert(u1 < q0 && v1 < q0) by (nonlinear_arith)
        requires u1 == (if r.x0 > ox + c * q0 { r.x0 - (ox + c * q0) } else { 0 }),
            v1 == (if r.y0 > oy + rr * q0 { r.y0 - (oy + rr * q0) } else { 0 }),
            r.x0 <= ox + (c + 1) * q0 - 1, r.y0 <= oy + (rr + 1) * q0 - 1, q0 > 0;
    lemma_child_cell(digit, frame, ox, oy, below, k, c, rr, u1, v1);
    let x = ox + c * q0 + u1;
    let y = oy + rr * q0 + v1;
    assert(hit_at(digit, frame, level, key, ox, oy, r, a, b, x, y));
}

/// A descendant inside the rectangle whose keys meet `a..=b` holds a hit:
/// the cell of a key in both.
#[verifier::spinoff_prover]
proof fn lemma_hit_cells_inside(
    digit: Seq<[(u8, u8); 4]>, frame: int, level: int, k: int, below: int, key: int, ox: int, oy: int, r: Rect,
    a: int, b: int, p0: int, c: int, rr: int,
)
    requires
        digits_ok(digit),
        0 <= frame < digit.len(),
        1 <= k <= 3,
        0 <= below,
        below + k == level,
        p0 == pow2((2 * below) as nat),
        0 <= c < pw(k),
        0 <= rr < pw(k),
        r.x0 <= ox + c * (pow2(below as nat) as int) && ox + (c + 1) * (pow2(below as nat) as int) - 1 <= r.x1,
        r.y0 <= oy + rr * (pow2(below as nat) as int) && oy + (rr + 1) * (pow2(below as nat) as int) - 1 <= r.y1,
        a <= b,
        ({
            let p = crate::masks::path(digit, frame, k, c, rr);
            a <= key + p * p0 + p0 - 1 && key + p * p0 <= b
        }),
    ensures
        exists|x: int, y: int| #[trigger] hit_at(digit, frame, level, key, ox, oy, r, a, b, x, y),
{
    let q0 = pow2(below as nat) as int;
    vstd::arithmetic::power2::lemma_pow2_pos(below as nat);
    let p = crate::masks::path(digit, frame, k, c, rr);
    let h = crate::masks::path_frame(digit, frame, k, c, rr);
    crate::masks::lemma_path_bounds(digit, frame, k, c, rr);
    vstd::arithmetic::power2::lemma_pow2_pos((2 * below) as nat);
    let kk: int = if a > key + p * p0 { a } else { key + p * p0 };
    let t = kk - (key + p * p0);
    assert(0 <= t < pow2((2 * below) as nat));
    let (u1, v1) = lemma_deep_onto(digit, h, below, t);
    lemma_child_cell(digit, frame, ox, oy, below, k, c, rr, u1, v1);
    let x = ox + c * q0 + u1;
    let y = oy + rr * q0 + v1;
    assert(x <= ox + (c + 1) * q0 - 1 && y <= oy + (rr + 1) * q0 - 1) by (nonlinear_arith)
        requires x == ox + c * q0 + u1, y == oy + rr * q0 + v1, u1 < q0, v1 < q0;
    assert(hit_at(digit, frame, level, key, ox, oy, r, a, b, x, y));
}

/// Whether the node at `level` whose first key is `key`, square at
/// `origin`, shares a cell with the rectangle whose key lies in `a..=b`;
/// the node meets both. A node is an interval of keys and a square of
/// cells at once, and so are its descendants three levels down: those the
/// interval meets and those inside it are two runs of bits, the
/// rectangle's two masks as in the cover. A descendant inside either while
/// meeting the other settles it. Only the descendants holding `a` and `b`
/// are partly in the interval, so at most two go down.
#[verifier::spinoff_prover]
#[verifier::rlimit(100)]
fn meets(masks: &Masks, r: &Rect, ab: (u64, u64), level: u32, key: u64, origin: (u64, u64), frame: u8) -> (found: bool)
    requires
        masks.wf(),
        frame < masks.table().len(),
        1 <= level <= 32,
        rect_ok(r),
        key <= ab.1,
        ab.0 <= ab.1,
        forall|i: int| 0 <= i < 2 * level ==> !#[trigger] bit_of(key, i),
        forall|i: int| 0 <= i < level ==> !#[trigger] bit_of(origin.0, i),
        forall|i: int| 0 <= i < level ==> !#[trigger] bit_of(origin.1, i),
    ensures
        !found ==> forall|x: int, y: int| !#[trigger] hit_at(masks.table(), frame as int, level as int, key as int,
            origin.0 as int, origin.1 as int, *r, ab.0 as int, ab.1 as int, x, y),
        found ==> exists|x: int, y: int| #[trigger] hit_at(masks.table(), frame as int, level as int, key as int,
            origin.0 as int, origin.1 as int, *r, ab.0 as int, ab.1 as int, x, y),
    decreases level,
{
    let ghost digit = masks.table();
    proof {
        masks.lemma_wf();
    }
    assert(digit.len() <= 256);
    let (a, b) = ab;
    let k: u32 = if level < 3 { level } else { 3 };
    let below = level - k;
    let span = 2 * below;
    let n: u32 = if k == 1 { 4 } else if k == 2 { 16 } else { 64 };
    let ghost p0 = pow2(span as nat) as int;
    let ghost top = (2 * level) as int;
    proof {
        lemma_blocks_fill(below as int, k as int);
        lemma_aligned_room(key, top);
        lemma_aligned_room(origin.0, level as int);
        lemma_aligned_room(origin.1, level as int);
        vstd::arithmetic::power2::lemma_pow2_pos(below as nat);
        assert(p0 == pow2((2 * below) as nat));
    }
    let (first_met, first_in) = if a > key {
        let d = a - key;
        proof {
            lemma_shr_div(d, span);
            lemma_shr_div((d - 1) as u64, span);
        }
        (clamp_key(d >> span, n), clamp_key((d - 1) >> span, n) + 1)
    } else {
        (0, 0)
    };
    // The node meets `a..=b`, so `b` is at or past its first key.
    let d = b - key;
    proof {
        lemma_shr_div(d, span);
    }
    let c_last = clamp_key(d >> span, n);
    let last_met = if c_last < n - 1 { c_last } else { n - 1 };
    // One past the last descendant inside: where `b + 1` starts, or all of
    // them when `b` is at or past the node's end.
    let past = if d >= <u64 as Word>::low_ones(2 * level) {
        n
    } else {
        proof {
            lemma_shr_div((d + 1) as u64, span);
        }
        let c = clamp_key((d + 1) >> span, n);
        if c < n { c } else { n }
    };
    let keys_met = bits(first_met, last_met);
    let keys_in = if past == 0 { 0 } else { bits(first_in, past - 1) };
    let (cols, cols_in) = axis(origin.0, (r.x0, r.x1), below, k);
    let (rows, rows_in) = axis(origin.1, (r.y0, r.y1), below, k);
    let met = masks.cells(k, frame, cols, rows);
    let inside = masks.cells(k, frame, cols_in, rows_in);
    // A cell of the rectangle with its key in `a..=b` lies in a descendant
    // the rectangle and the keys both meet.
    let ghost hit = exists|x: int, y: int| #[trigger] hit_at(digit, frame as int, level as int, key as int,
        origin.0 as int, origin.1 as int, *r, a as int, b as int, x, y);
    let ghost mut pstar: int = 0;
    let ghost mut wx: int = 0;
    let ghost mut wy: int = 0;
    proof {
        if hit {
            let (x, y) = choose|x: int, y: int| #[trigger] hit_at(digit, frame as int, level as int, key as int,
                origin.0 as int, origin.1 as int, *r, a as int, b as int, x, y);
            wx = x;
            wy = y;
            let ox = origin.0 as int;
            let oy = origin.1 as int;
            let q0 = pow2(below as nat) as int;
            assert(below + k == level);
            lemma_cell_in_child(digit, frame as int, key as int, ox, oy, below as int, k as int, x, y);
            let cu = (x - ox) / q0;
            let cv = (y - oy) / q0;
            pstar = crate::masks::path(digit, frame as int, k as int, cu, cv);
            let low = deep(digit, crate::masks::path_frame(digit, frame as int, k as int, cu, cv), 0,
                x - (ox + cu * q0), y - (oy + cv * q0), below as int).0;
            let ck = key + pstar * p0 + low;
            assert(a <= ck <= b);
            // The descendant's column and row meet the rectangle.
            assert(bit_of(cols, cu)) by {
                assert(ox + cu * q0 <= r.x1 && r.x0 <= ox + (cu + 1) * q0 - 1) by (nonlinear_arith)
                    requires ox + cu * q0 <= x < ox + cu * q0 + q0, r.x0 <= x <= r.x1;
            }
            assert(bit_of(rows, cv)) by {
                assert(oy + cv * q0 <= r.y1 && r.y0 <= oy + (cv + 1) * q0 - 1) by (nonlinear_arith)
                    requires oy + cv * q0 <= y < oy + cv * q0 + q0, r.y0 <= y <= r.y1;
            }
            assert(crate::masks::in_cols(digit, frame as int, k as int, cols, pstar));
            assert(crate::masks::in_rows(digit, frame as int, k as int, rows, pstar));
            assert(bit_of(met, pstar));
            // The descendant's keys meet `a..=b`.
            assert(pstar < n);
            assert(first_met <= pstar) by {
                if a > key {
                    assert(((a - key) as int) <= pstar * p0 + low);
                    assert(((a - key) as int) < (pstar + 1) * p0) by (nonlinear_arith)
                        requires ((a - key) as int) <= pstar * p0 + low, low < p0;
                    lemma_floor(pstar + 1, (a - key) as int, p0);
                }
            }
            assert(pstar <= last_met) by {
                assert(pstar * p0 <= d) by (nonlinear_arith)
                    requires key + pstar * p0 + low <= b, low >= 0, d == b - key;
                lemma_floor(pstar, d as int, p0);
            }
            assert(bit_of(keys_met, pstar));
            if below == 0 {
                // A descendant that is one cell is one key.
                assert(p0 == 1) by {
                    vstd::arithmetic::power2::lemma2_to64();
                }
                assert(low == 0);
                assert(first_in <= pstar) by {
                    if a > key {
                        lemma_floor(pstar, (a - key - 1) as int, p0);
                    }
                }
                assert(pstar + 1 <= past) by {
                    if d < low_mask((2 * level) as int) {
                        lemma_floor(pstar + 1, (d + 1) as int, p0);
                    }
                }
                assert(bit_of(keys_in, pstar));
                assert(bit_of(met & keys_in, pstar));
            }
        }
    }
    if met & keys_in != 0 || inside & keys_met != 0 {
        proof {
            lemma_settled_hit(digit, frame as int, level as int, k as int, below as int, key, origin.0, origin.1, *r, a, b, p0, n as int,
                first_met as int, last_met as int, first_in as int, past as int, d, keys_met, keys_in, cols, rows, cols_in, rows_in,
                met, inside);
        }
        return true;
    }
    if below == 0 {
        // Descendants that are cells are in or out of both; none is left
        // partly in.
        proof {
            if hit {
                assert(bit_of(met & keys_in, pstar));
                assert(met & keys_in != 0);
            }
        }
        return false;
    }
    // Partly in both.
    let mut rest = met & keys_met;
    proof {
        assert forall|q: int| 0 <= q < 64 && #[trigger] bit_of(rest, q) implies q * p0 <= d by {
            assert(q <= last_met);
            assert(q <= d as int / p0);
            lemma_floor(q, d as int, p0);
        }
        if hit {
            assert(bit_of(rest, pstar));
        }
    }
    while rest != 0
        invariant
            masks.wf(),
            digit == masks.table(),
            frame < masks.table().len(),
            1 <= below < level <= 32,
            1 <= k <= 3,
            below + k == level,
            span == 2 * below,
            rect_ok(r),
            key <= b,
            forall|q: int| 0 <= q < 64 && #[trigger] bit_of(rest, q) ==> bit_of(met, q) && q <= last_met,
            forall|q: int| 0 <= q < 64 && #[trigger] bit_of(met, q) ==> q < pw4(k as int),
            forall|q: int| 0 <= q < 64 && #[trigger] bit_of(met, q) ==> crate::masks::in_cols(digit, frame as int, k as int, cols, q),
            digits_ok(digit),
            digit.len() <= 256,
            last_met < n,
            n as int == pw4(k as int),
            d == b - key,
            ab == (a, b),
            a <= b,
            p0 == pow2(span as nat),
            p0 > 0,
            top == 2 * level,
            pw4(k as int) * p0 == pow2(top as nat),
            forall|i: int| 0 <= i < top ==> !#[trigger] bit_of(key, i),
            key + pow2(top as nat) <= pow2(64),
            forall|i: int| 0 <= i < level ==> !#[trigger] bit_of(origin.0, i),
            forall|i: int| 0 <= i < level ==> !#[trigger] bit_of(origin.1, i),
            origin.0 + pow2(level as nat) <= pow2(64),
            origin.1 + pow2(level as nat) <= pow2(64),
            forall|q: int| 0 <= q < 64 && #[trigger] bit_of(rest, q) ==> q * p0 <= d,
            hit == exists|x: int, y: int| #[trigger] hit_at(digit, frame as int, level as int, key as int,
                origin.0 as int, origin.1 as int, *r, a as int, b as int, x, y),
            hit ==> bit_of(rest, pstar),
            hit ==> hit_at(digit, frame as int, level as int, key as int, origin.0 as int, origin.1 as int, *r, a as int, b as int, wx, wy),
            hit ==> pstar == crate::masks::path(digit, frame as int, k as int,
                (wx - origin.0) / (pow2(below as nat) as int), (wy - origin.1) / (pow2(below as nat) as int)),
        decreases rest,
    {
        let p = Word::trailing_zeros(rest);
        proof {
            crate::model::lemma_tz(rest);
            assert(bit_of(rest, p as int));
        }
        let (cx, cy, next_frame) = masks.child(k, frame, p);
        let child_key = key | ((p as u64) << (span as u64));
        let child = (origin.0 | ((cx as u64) << (below as u64)), origin.1 | ((cy as u64) << (below as u64)));
        proof {
            assert(p < pw4(k as int));
            assert(p * p0 + p0 <= pw4(k as int) * p0) by (nonlinear_arith) requires p + 1 <= pw4(k as int), p0 > 0;
            lemma_block(key, p as u64, span, top);
            assert(p * p0 <= d);
            assert(child_key == key + p * p0);
            assert(child_key <= b);
            let q0 = pow2(below as nat) as int;
            vstd::arithmetic::power2::lemma_pow2_pos(below as nat);
            vstd::arithmetic::power2::lemma_pow2_adds(below as nat, k as nat);
            assert((below as nat + k as nat) as nat == level as nat);
            vstd::arithmetic::power2::lemma2_to64();
            assert(pw(k as int) == pow2(k as nat));
            assert(crate::masks::in_cols(digit, frame as int, k as int, cols, p as int));
            let (c0, r0) = choose|c: int, rr: int| 0 <= c < pw(k as int) && 0 <= rr < pw(k as int) && bit_of(cols, c)
                && #[trigger] crate::masks::path(digit, frame as int, k as int, c, rr) == p;
            assert(cx == c0 && cy == r0);
            assert(cx * q0 + q0 <= pow2(level as nat)) by (nonlinear_arith)
                requires cx + 1 <= pow2(k as nat), q0 > 0, pow2(level as nat) == q0 * pow2(k as nat);
            assert(cy * q0 + q0 <= pow2(level as nat)) by (nonlinear_arith)
                requires cy + 1 <= pow2(k as nat), q0 > 0, pow2(level as nat) == q0 * pow2(k as nat);
            lemma_block(origin.0, cx as u64, below, level as int);
            lemma_block(origin.1, cy as u64, below, level as int);
            assert(hit && p == pstar ==> hit_at(digit, next_frame as int, below as int, child_key as int, child.0 as int,
                child.1 as int, *r, a as int, b as int, wx, wy)) by {
            if hit && p == pstar {
                let ox = origin.0 as int;
                let oy = origin.1 as int;
                lemma_cell_in_child(digit, frame as int, key as int, ox, oy, below as int, k as int, wx, wy);
                let cu = (wx - ox) / q0;
                let cv = (wy - oy) / q0;
                crate::masks::lemma_path_bounds(digit, frame as int, k as int, cu, cv);
                assert((cx, cy, next_frame) == (cu as u8, cv as u8, crate::masks::path_frame(digit, frame as int, k as int, cu, cv) as u8));
                let h = crate::masks::path_frame(digit, frame as int, k as int, cu, cv);
                assert(next_frame as int == h);
                assert(cx as int == cu && cy as int == cv);
                assert(child.0 as int == ox + cu * q0);
                assert(child.1 as int == oy + cv * q0);
                assert(p as int == pstar);
                assert(child_key as int == key + pstar * p0);
                assert(p0 == pow2((2 * below) as nat));
                assert(key + deep(digit, frame as int, 0, wx - ox, wy - oy, level as int).0
                    == child_key + deep(digit, h, 0, wx - (ox + cu * q0), wy - (oy + cv * q0), below as int).0);
                assert(hit_at(digit, next_frame as int, below as int, child_key as int, child.0 as int, child.1 as int,
                    *r, a as int, b as int, wx, wy));
            }
            }
        }
        let found_below = meets(masks, r, ab, below, child_key, child, next_frame);
        if found_below {
            proof {
                let ox = origin.0 as int;
                let oy = origin.1 as int;
                let q0 = pow2(below as nat) as int;
                let (x, y) = choose|x: int, y: int| #[trigger] hit_at(masks.table(), next_frame as int, below as int,
                    child_key as int, child.0 as int, child.1 as int, *r, ab.0 as int, ab.1 as int, x, y);
                let u1 = x - (ox + cx * q0);
                let v1 = y - (oy + cy * q0);
                assert(crate::masks::in_cols(digit, frame as int, k as int, cols, p as int));
                let (c0, r0) = choose|c: int, rr: int| 0 <= c < pw(k as int) && 0 <= rr < pw(k as int) && bit_of(cols, c)
                    && #[trigger] crate::masks::path(digit, frame as int, k as int, c, rr) == p;
                crate::masks::lemma_path_bounds(digit, frame as int, k as int, c0, r0);
                assert(cx as int == c0 && cy as int == r0 && next_frame as int
                    == crate::masks::path_frame(digit, frame as int, k as int, c0, r0));
                lemma_child_cell(digit, frame as int, ox, oy, below as int, k as int, c0, r0, u1, v1);
                assert(hit_at(digit, frame as int, level as int, key as int, ox, oy, *r, a as int, b as int, x, y));
            }
            return true;
        }
        assert(!hit_at(masks.table(), next_frame as int, below as int, child_key as int, child.0 as int, child.1 as int,
            *r, ab.0 as int, ab.1 as int, wx, wy));
        let next = rest & (rest - 1);
        proof {
            assert forall|i: int| 0 <= i < 64 implies #[trigger] bit_of(next, i) == (bit_of(rest, i) && i != p) by {
                crate::model::lemma_sub_one_bits(rest);
            }
            lemma_clear_lt(next, rest, p as int);
            if hit {
                assert(p != pstar);
                assert(bit_of(next, pstar));
            }
        }
        rest = next;
    }
    proof {
        if hit {
            assert(bit_of(rest, pstar));
            assert(bit_of(0u64, pstar));
        }
    }
    false
}

/// Whether some cell of `x.0..=x.1` x `y.0..=y.1` has its key in
/// `keys.0..=keys.1`, on a Z-order curve of `levels` levels.
pub fn intersects(levels: u32, keys: (u64, u64), x: (u64, u64), y: (u64, u64)) -> (found: bool)
    requires
        1 <= levels <= 32,
    ensures
        found == exists|cx: int, cy: int| #[trigger] z_hit(levels as int, keys, x, y, cx, cy),
{
    let side = <u64 as Word>::low_ones(levels);
    let x1 = if x.1 < side { x.1 } else { side };
    let y1 = if y.1 < side { y.1 } else { side };
    proof {
        lemma_low_mask_value(levels as int);
    }
    if keys.0 > keys.1 || x.0 > x1 || y.0 > y1 {
        return false;
    }
    proof {
        crate::hilbert::lemma_low_bits(levels as u64, 0);
        assert forall|i: int| 32 <= i < 64 implies !#[trigger] bit_of(side, i) by {
            crate::hilbert::lemma_low_bits(levels as u64, i as u64);
        }
        crate::model::lemma_below_pow(side, 32);
        crate::hilbert::lemma_low_raw(32, 0);
    }
    let r = Rect { x0: x.0, x1, y0: y.0, y1 };
    let masks = z_masks();
    proof {
        assert forall|i: int| 0 <= i < 2 * levels implies !#[trigger] bit_of(0u64, i) by {}
    }
    proof {
        assert forall|i: int| 0 <= i < levels implies !#[trigger] bit_of(0u64, i) by {}
    }
    let found = meets(&masks, &r, keys, levels, 0, (0, 0), 0);
    proof {
        if found {
            let (cx, cy) = choose|cx: int, cy: int| #[trigger] hit_at(masks.table(), 0u8 as int, levels as int, 0u64 as int,
                (0u64, 0u64).0 as int, (0u64, 0u64).1 as int, r, keys.0 as int, keys.1 as int, cx, cy);
            assert(z_hit(levels as int, keys, x, y, cx, cy));
        }
        if !found {
            assert forall|cx: int, cy: int| !#[trigger] z_hit(levels as int, keys, x, y, cx, cy) by {
                if z_hit(levels as int, keys, x, y, cx, cy) {
                    assert(hit_at(masks.table(), 0, levels as int, 0, 0, 0, r, keys.0 as int, keys.1 as int, cx, cy));
                    assert(!hit_at(masks.table(), 0u8 as int, levels as int, 0u64 as int, (0u64, 0u64).0 as int,
                        (0u64, 0u64).1 as int, r, keys.0 as int, keys.1 as int, cx, cy));
                }
            }
        }
    }
    found
}

/// The number of runs of the cover of `r` rounded out to multiples of
/// `2^s`, touching ranges merged, by walking it from the root of a curve of
/// `levels` levels.
pub fn walk_runs(levels: u32, r: &Rect, s: u32) -> u64
    requires
        s < levels <= 32,
        rect_ok(r),
{
    let masks = z_masks();
    let mut count = Count { n: 0, last: None };
    let mut none: [(u64, u64); 0] = [];
    proof {
        assert forall|i: int| 0 <= i < 2 * levels implies !#[trigger] bit_of(0u64, i) by {}
        lemma_aligned_room(0, (2 * levels) as int);
    }
    walk(&masks, r, levels, s, 0, (0, 0), 0, &mut count, &mut none);
    count.n
}

impl Morton2 {
    /// The codes of the rectangle `x.0..=x.1` x `y.0..=y.1` as at most
    /// `out.len()` ranges, covering every cell, exact when the budget
    /// allows; returns how many it wrote. Inclusive, sorted, disjoint, not
    /// touching.
    pub fn cover(x: (u64, u64), y: (u64, u64), out: &mut [(u64, u64)]) -> (n: usize)
        requires
            clipped(32, x, y) is Some ==> 1 <= old(out)@.len(),
        ensures
            final(out)@.len() == old(out)@.len(),
            n <= old(out)@.len(),
            clipped(32, x, y) is None ==> n == 0,
            clipped(32, x, y) is Some ==> 1 <= n,
            ranges_ok(final(out)@, n as int),
            clipped(32, x, y) matches Some(c) ==> forall|cx: int, cy: int| c.0 <= cx <= c.1 && c.2 <= cy <= c.3
                ==> #[trigger] covered_by(final(out)@, n as int, z_key(32, cx, cy)),
            clipped(32, x, y) matches Some(c) ==> exists|s: int| #[trigger] settled(32, c, s, run_limit(old(out)@.len() as int))
                && in_blocks(final(out)@, n as int, s),
    {
        cover(32, x, y, out)
    }

    /// Whether some cell of the rectangle, clipped to the grid, has its
    /// code in `keys.0..=keys.1`.
    pub fn intersects(keys: (u64, u64), x: (u64, u64), y: (u64, u64)) -> (found: bool)
        ensures
            found == exists|cx: int, cy: int| #[trigger] z_hit(32, keys, x, y, cx, cy),
    {
        intersects(32, keys, x, y)
    }
}

/// A word whose low `n` bits are clear is no larger with them set.
proof fn lemma_or_low(key: u64, n: int)
    requires
        0 <= n <= 64,
        forall|i: int| 0 <= i < n ==> !#[trigger] bit_of(key, i),
    ensures
        key <= key | low_mask(n),
{
    assert forall|i: int| 0 <= i < 64 implies #[trigger] bit_of(key & low_mask(n), i) == bit_of(0u64, i) by {}
    lemma_bits_eq(key & low_mask(n), 0);
    crate::model::lemma_or_is_add(key, low_mask(n));
}

/// A word no larger than `2^n - 1` has no bit at or above `n`.
proof fn lemma_no_bit_above(v: u64, side: u64, n: int, i: int)
    requires
        0 <= n <= 32,
        side == low_mask(n),
        v <= side,
        n <= i < 64,
    ensures
        !bit_of(v, i),
{
    lemma_low_mask_value(n);
    vstd::arithmetic::power2::lemma_pow2_pos(n as nat);
    lemma_no_high_bits(v, n);
}

/// Bit `i` of a word is the parity of the word over `2^i`.
proof fn lemma_bit_div(v: u64, i: int)
    requires
        0 <= i < 64,
    ensures
        bit_of(v, i) == ((v as int / (pow2(i as nat) as int)) % 2 == 1),
{
    let w = v >> (i as u64);
    vstd::bits::lemma_u64_shr_is_div(v, i as u64);
    vstd::bits::lemma_u64_low_bits_mask_is_mod(w, 1);
    vstd::arithmetic::power2::lemma2_to64();
    assert(vstd::bits::low_bits_mask(1) == 1);
}

/// The Z-order table is a valid one.
proof fn lemma_z_table_ok()
    ensures
        digits_ok(z_table()),
        z_table().len() == 1,
        forall|q: int| 0 <= q < 4 ==> #[trigger] z_table()[0]@[q] == (q as u8, 0u8),
{
    let t = z_table();
    assert(t[0]@[0] == (0u8, 0u8));
    assert(t[0]@[1] == (1u8, 0u8));
    assert(t[0]@[2] == (2u8, 0u8));
    assert(t[0]@[3] == (3u8, 0u8));
}

/// The Z-order key over `l` levels is the low `2 l` bits of the code whose
/// even bits are `x` and odd bits `y`.
proof fn lemma_z_key_low(x: u64, y: u64, c: u64, l: int)
    requires
        0 <= l <= 32,
        interleaves2(c, x, y),
    ensures
        z_key(l, x as int, y as int) == (c as int) % (pow2((2 * l) as nat) as int),
    decreases l,
{
    lemma_z_table_ok();
    vstd::arithmetic::power2::lemma2_to64();
    if l == 0 {
        assert(pow2(0) == 1);
    } else {
        lemma_z_key_low(x, y, c, l - 1);
        let w = pow2((2 * (l - 1)) as nat) as int;
        let h = pow2((l - 1) as nat) as int;
        let q = qd(x as int, y as int, l - 1);
        assert(0 <= q < 4);
        assert(z_table()[0]@[q] == (q as u8, 0u8));
        assert(deep(z_table(), 0, 0, x as int, y as int, l) == deep(z_table(), 0, q, x as int, y as int, l - 1));
        lemma_deep_acc(z_table(), 0, q, x as int, y as int, l - 1);
        // The digit at level `l - 1` is the two code bits there.
        lemma_bit_div(x, l - 1);
        lemma_bit_div(y, l - 1);
        lemma_bit_div(c, 2 * (l - 1));
        lemma_bit_div(c, 2 * (l - 1) + 1);
        assert(bit_of(c, 2 * (l - 1)) == bit_of(x, l - 1) && bit_of(c, 2 * (l - 1) + 1) == bit_of(y, l - 1));
        vstd::arithmetic::power2::lemma_pow2_pos((2 * (l - 1)) as nat);
        vstd::arithmetic::power2::lemma_pow2_unfold((2 * l - 1) as nat);
        vstd::arithmetic::power2::lemma_pow2_unfold((2 * l) as nat);
        assert(pow2((2 * l) as nat) == w * 4);
        assert(pow2((2 * (l - 1) + 1) as nat) == w * 2);
        let m = (c as int) / w;
        vstd::arithmetic::div_mod::lemma_mod_breakdown(c as int, w, 4);
        vstd::arithmetic::div_mod::lemma_div_pos_is_pos(c as int, w);
        vstd::arithmetic::div_mod::lemma_mod_breakdown(m, 2, 2);
        vstd::arithmetic::div_mod::lemma_div_denominator(c as int, w, 2);
        assert(m % 4 == 2 * ((m / 2) % 2) + m % 2);
        assert(m % 2 == (x as int / h) % 2);
        assert((m / 2) % 2 == (y as int / h) % 2);
        assert(q == m % 4);
        assert(q * w == w * (m % 4)) by (nonlinear_arith) requires q == m % 4;
        assert(z_key(l, x as int, y as int) == q * w + z_key(l - 1, x as int, y as int));
        assert((c as int) % (w * 4) == w * (m % 4) + (c as int) % w);
    }
}

/// The Z-order key of a cell of the full grid is its Morton code: the
/// code whose even bits are `x` and odd bits `y`.
pub proof fn z_key_is_morton_code(x: u64, y: u64, c: u64)
    requires
        interleaves2(c, x, y),
    ensures
        z_key(32, x as int, y as int) == c,
{
    lemma_z_key_low(x, y, c, 32);
    vstd::arithmetic::power2::lemma2_to64();
    vstd::arithmetic::div_mod::lemma_small_mod(c as nat, pow2(64));
}

/// One level of a Z-order key: the top digit, then the key below it.
proof fn lemma_z_key_step(l: int, u: int, v: int)
    requires
        1 <= l,
        0 <= u,
        0 <= v,
    ensures
        z_key(l, u, v) == qd(u, v, l - 1) * pow2((2 * (l - 1)) as nat) + z_key(l - 1, u, v),
{
    lemma_z_table_ok();
    let q = qd(u, v, l - 1);
    assert(0 <= q < 4);
    assert(z_table()[0]@[q] == (q as u8, 0u8));
    assert(deep(z_table(), 0, 0, u, v, l) == deep(z_table(), 0, q, u, v, l - 1));
    lemma_deep_acc(z_table(), 0, q, u, v, l - 1);
}

/// The cells of a column of the grid agreeing with `(x0, y0)` above level
/// `level`: in the grid of `levels` levels.
pub open spec fn agrees(levels: int, level: int, x0: int, y0: int, cx: int, cy: int) -> bool {
    &&& 0 <= cx < pow2(levels as nat) && 0 <= cy < pow2(levels as nat)
    &&& cx / (pow2(level as nat) as int) == x0 / (pow2(level as nat) as int)
    &&& cy / (pow2(level as nat) as int) == y0 / (pow2(level as nat) as int)
}

/// One step of the descent to the least node holding the rectangle: the
/// key of the node one level down is the key above plus the digit of the
/// corner there, and the cells agreeing with the corner down to that level
/// have the same keys above.
proof fn lemma_descent_step(levels: int, l: int, x0: u64, y0: u64, key: int, digit: int, cx: int, cy: int)
    requires
        0 <= l < levels <= 32,
        digit == (if bit_of(x0, l) { 1int } else { 0int }) + 2 * (if bit_of(y0, l) { 1int } else { 0int }),
        agrees(levels, l + 1, x0 as int, y0 as int, cx, cy)
            ==> z_key(levels, cx, cy) == key + z_key(l + 1, cx % (pow2((l + 1) as nat) as int), cy % (pow2((l + 1) as nat) as int)),
        agrees(levels, l, x0 as int, y0 as int, cx, cy),
    ensures
        z_key(levels, cx, cy) == key + digit * pow2((2 * l) as nat) + z_key(l, cx % (pow2(l as nat) as int), cy % (pow2(l as nat) as int)),
{
    let d = pow2(l as nat) as int;
    let d1 = pow2((l + 1) as nat) as int;
    vstd::arithmetic::power2::lemma_pow2_pos(l as nat);
    vstd::arithmetic::power2::lemma_pow2_unfold((l + 1) as nat);
    assert(d1 == 2 * d);
    vstd::arithmetic::div_mod::lemma_div_denominator(cx, d, 2);
    vstd::arithmetic::div_mod::lemma_div_denominator(cy, d, 2);
    vstd::arithmetic::div_mod::lemma_div_denominator(x0 as int, d, 2);
    vstd::arithmetic::div_mod::lemma_div_denominator(y0 as int, d, 2);
    assert(agrees(levels, l + 1, x0 as int, y0 as int, cx, cy));
    let um = cx % d1;
    let vm = cy % d1;
    vstd::arithmetic::div_mod::lemma_mod_pos_bound(cx, d1);
    vstd::arithmetic::div_mod::lemma_mod_pos_bound(cy, d1);
    lemma_z_key_step(l + 1, um, vm);
    lemma_deep_low(z_table(), 0, 0, um, vm, l, l);
    vstd::arithmetic::div_mod::lemma_mod_mod(cx, d, 2);
    vstd::arithmetic::div_mod::lemma_mod_mod(cy, d, 2);
    lemma_low_bit_of_rem(cx, l, l + 1);
    lemma_low_bit_of_rem(cy, l, l + 1);
    lemma_bit_div(x0, l);
    lemma_bit_div(y0, l);
    assert(qd(um, vm, l) == digit);
}

/// Words that agree at and above bit `t` have the same quotient by `2^t`.
proof fn lemma_same_above(a: u64, b: u64, t: int)
    requires
        0 <= t < 64,
        forall|i: int| t <= i < 64 ==> #[trigger] bit_of(a, i) == bit_of(b, i),
    ensures
        a as int / (pow2(t as nat) as int) == b as int / (pow2(t as nat) as int),
{
    assert forall|i: int| 0 <= i < 64 implies #[trigger] bit_of(a >> (t as u64), i) == bit_of(b >> (t as u64), i) by {
        if i + t < 64 {
            assert(bit_of(a, i + t) == bit_of(b, i + t));
        }
    }
    lemma_bits_eq(a >> (t as u64), b >> (t as u64));
    lemma_shr_div(a, t as u32);
    lemma_shr_div(b, t as u32);
}

/// Clearing the low `t` bits of a word rounds it down to a multiple of
/// `2^t`.
proof fn lemma_clear_low(a: u64, t: int)
    requires
        0 <= t < 64,
    ensures
        (a & !low_mask(t)) as int == (a as int / (pow2(t as nat) as int)) * (pow2(t as nat) as int),
{
    let s = a >> (t as u64);
    assert forall|i: int| 0 <= i < 64 implies #[trigger] bit_of(a & !low_mask(t), i) == bit_of(s << (t as u64), i) by {}
    lemma_bits_eq(a & !low_mask(t), s << (t as u64));
    lemma_shr_div(a, t as u32);
    let p = pow2(t as nat) as int;
    vstd::arithmetic::div_mod::lemma_fundamental_div_mod(a as int, p);
    vstd::arithmetic::div_mod::lemma_mod_pos_bound(a as int, p);
    assert(s * p <= a) by (nonlinear_arith) requires a == p * s + a as int % p, a as int % p >= 0;
    vstd::bits::lemma_u64_shl_is_mul(s, t as u64);
}

/// The keys of a node whose low `n` bits are clear run from its first key
/// to the first key with the low `n` bits set.
proof fn lemma_node_keys(key: u64, n: int)
    requires
        0 <= n <= 64,
        forall|i: int| 0 <= i < n ==> !#[trigger] bit_of(key, i),
    ensures
        (key | low_mask(n)) as int == key + pow2(n as nat) - 1,
{
    assert forall|i: int| 0 <= i < 64 implies #[trigger] bit_of(key & low_mask(n), i) == bit_of(0u64, i) by {}
    lemma_bits_eq(key & low_mask(n), 0);
    crate::model::lemma_or_is_add(key, low_mask(n));
    lemma_low_mask_top(n);
}

/// A cell of the rectangle lies in the least aligned node holding it, whose
/// corner is that of `(x0, y0)` with the low `top` bits cleared, and its key
/// is the node's first key plus its key within the node.
proof fn lemma_rect_key(levels: int, top: int, key: int, x0: u64, x1: u64, y0: u64, y1: u64, ox: u64, oy: u64, cx: int, cy: int)
    requires
        0 <= top <= levels <= 32,
        x1 < pow2(levels as nat),
        y1 < pow2(levels as nat),
        forall|i: int| top <= i < 64 ==> #[trigger] bit_of(x0, i) == bit_of(x1, i),
        forall|i: int| top <= i < 64 ==> #[trigger] bit_of(y0, i) == bit_of(y1, i),
        ox == x0 & !low_mask(top),
        oy == y0 & !low_mask(top),
        forall|cx: int, cy: int| #[trigger] agrees(levels, top, x0 as int, y0 as int, cx, cy)
            ==> z_key(levels, cx, cy) == key + z_key(top, cx % (pow2(top as nat) as int), cy % (pow2(top as nat) as int)),
        x0 <= cx <= x1,
        y0 <= cy <= y1,
    ensures
        ox <= cx < ox + pow2(top as nat),
        oy <= cy < oy + pow2(top as nat),
        z_key(levels, cx, cy) == key + z_key(top, cx - ox, cy - oy),
        0 <= z_key(top, cx - ox, cy - oy) < pow2((2 * top) as nat),
{
    let p = pow2(top as nat) as int;
    vstd::arithmetic::power2::lemma_pow2_pos(top as nat);
    lemma_same_above(x0, x1, top);
    lemma_same_above(y0, y1, top);
    lemma_clear_low(x0, top);
    lemma_clear_low(y0, top);
    lemma_z_table_ok();
    vstd::arithmetic::div_mod::lemma_div_is_ordered(x0 as int, cx, p);
    vstd::arithmetic::div_mod::lemma_div_is_ordered(cx, x1 as int, p);
    vstd::arithmetic::div_mod::lemma_div_is_ordered(y0 as int, cy, p);
    vstd::arithmetic::div_mod::lemma_div_is_ordered(cy, y1 as int, p);
    vstd::arithmetic::div_mod::lemma_fundamental_div_mod(cx, p);
    vstd::arithmetic::div_mod::lemma_fundamental_div_mod(cy, p);
    vstd::arithmetic::div_mod::lemma_mod_pos_bound(cx, p);
    vstd::arithmetic::div_mod::lemma_mod_pos_bound(cy, p);
    assert(cx / p * p == p * (cx / p)) by (nonlinear_arith);
    assert(cy / p * p == p * (cy / p)) by (nonlinear_arith);
    assert(agrees(levels, top, x0 as int, y0 as int, cx, cy));
    lemma_deep_acc(z_table(), 0, 0, cx - ox, cy - oy, top);
}

/// The node at `top` holds the key of every cell of the rectangle: one
/// range from its first key to its last.
proof fn lemma_node_covers(levels: int, top: int, key: u64, x0: u64, x1: u64, y0: u64, y1: u64, ox: u64, oy: u64, out: Seq<(u64, u64)>)
    requires
        0 <= top <= levels <= 32,
        x1 < pow2(levels as nat),
        y1 < pow2(levels as nat),
        forall|i: int| top <= i < 64 ==> #[trigger] bit_of(x0, i) == bit_of(x1, i),
        forall|i: int| top <= i < 64 ==> #[trigger] bit_of(y0, i) == bit_of(y1, i),
        ox == x0 & !low_mask(top),
        oy == y0 & !low_mask(top),
        forall|cx: int, cy: int| #[trigger] agrees(levels, top, x0 as int, y0 as int, cx, cy)
            ==> z_key(levels, cx, cy) == key + z_key(top, cx % (pow2(top as nat) as int), cy % (pow2(top as nat) as int)),
        forall|i: int| 0 <= i < 2 * top ==> !#[trigger] bit_of(key, i),
        1 <= out.len(),
        out[0] == (key, key | low_mask(2 * top)),
    ensures
        forall|cx: int, cy: int| x0 <= cx <= x1 && y0 <= cy <= y1 ==> #[trigger] covered_by(out, 1, z_key(levels, cx, cy)),
{
    lemma_node_keys(key, 2 * top);
    assert forall|cx: int, cy: int| x0 <= cx <= x1 && y0 <= cy <= y1 implies #[trigger] covered_by(out, 1, z_key(levels, cx, cy)) by {
        lemma_rect_key(levels, top, key as int, x0, x1, y0, y1, ox, oy, cx, cy);
        assert(out[0].0 <= z_key(levels, cx, cy) <= out[0].1);
    }
}

/// A word with no bit below `g` is a multiple of `2^g`; one with every bit
/// below `g` set is one short of a multiple.
proof fn lemma_aligned_word(w: u64, g: int)
    requires
        0 <= g <= 64,
    ensures
        (forall|i: int| 0 <= i < g ==> !#[trigger] bit_of(w, i)) ==> (w as int) % (pow2(g as nat) as int) == 0,
        (forall|i: int| 0 <= i < g ==> #[trigger] bit_of(w, i)) ==> (w as int + 1) % (pow2(g as nat) as int) == 0,
{
    vstd::arithmetic::power2::lemma2_to64();
    vstd::arithmetic::power2::lemma2_to64_rest();
    vstd::arithmetic::power2::lemma_pow2_pos(g as nat);
    let p = pow2(g as nat) as int;
    if g == 64 {
        if forall|i: int| 0 <= i < g ==> !#[trigger] bit_of(w, i) {
            assert forall|i: int| 0 <= i < 64 implies #[trigger] bit_of(w, i) == bit_of(0u64, i) by {}
            lemma_bits_eq(w, 0);
        }
        if forall|i: int| 0 <= i < g ==> #[trigger] bit_of(w, i) {
            assert forall|i: int| 0 <= i < 64 implies #[trigger] bit_of(w, i) == bit_of(0xffff_ffff_ffff_ffffu64, i) by {}
            lemma_bits_eq(w, 0xffff_ffff_ffff_ffffu64);
            vstd::arithmetic::div_mod::lemma_mod_self_0(p);
        }
    } else {
        lemma_low_mask_value(g);
        vstd::bits::lemma_low_bits_mask_values();
        vstd::bits::lemma_u64_low_bits_mask_is_mod(w, g as nat);
        assert(low_mask(g) == vstd::bits::low_bits_mask(g as nat) as u64);
        vstd::arithmetic::power2::lemma_pow2_strictly_increases(g as nat, 64);
        assert((pow2(g as nat) as u64) as int == p);
        assert((w & low_mask(g)) as int == (w as int) % p);
        if forall|i: int| 0 <= i < g ==> !#[trigger] bit_of(w, i) {
            assert forall|i: int| 0 <= i < 64 implies #[trigger] bit_of(w & low_mask(g), i) == bit_of(0u64, i) by {}
            lemma_bits_eq(w & low_mask(g), 0);
        }
        if forall|i: int| 0 <= i < g ==> #[trigger] bit_of(w, i) {
            assert forall|i: int| 0 <= i < 64 implies #[trigger] bit_of(w & low_mask(g), i) == bit_of(low_mask(g), i) by {}
            lemma_bits_eq(w & low_mask(g), low_mask(g));
            vstd::arithmetic::div_mod::lemma_fundamental_div_mod(w as int, p);
            let q = (w as int) / p;
            assert(w as int + 1 == (q + 1) * p) by (nonlinear_arith)
                requires w as int == p * q + (p - 1);
            vstd::arithmetic::div_mod::lemma_mod_multiples_basic(q + 1, p);
        }
    }
}

/// Ranges whose first keys have no bit below `g` and whose last keys have
/// all of them are runs of whole blocks of `2^g` keys.
proof fn lemma_blocks_from_bits(out: Seq<(u64, u64)>, n: int, g: int)
    requires
        0 <= g <= 64,
        g % 2 == 0,
        forall|i: int, j: int| 0 <= i < n && 0 <= j < g ==> #[trigger] aligned_range(out[i], j),
    ensures
        in_blocks(out, n, g / 2),
{
    assert forall|i: int| 0 <= i < n implies (#[trigger] out[i]).0 as int % (pow2((2 * (g / 2)) as nat) as int) == 0
        && (out[i].1 as int + 1) % (pow2((2 * (g / 2)) as nat) as int) == 0 by {
        assert forall|j: int| 0 <= j < g implies !#[trigger] bit_of(out[i].0, j) by {
            assert(aligned_range(out[i], j));
        }
        assert forall|j: int| 0 <= j < g implies #[trigger] bit_of(out[i].1, j) by {
            assert(aligned_range(out[i], j));
        }
        lemma_aligned_word(out[i].0, g);
        lemma_aligned_word(out[i].1, g);
        assert(2 * (g / 2) == g);
    }
}

/// The one range of the node at `top` is a run of whole blocks of `4^s`
/// keys for any `s <= top`.
proof fn lemma_node_blocks(key: u64, top: int, s: int, out: Seq<(u64, u64)>)
    requires
        0 <= s <= top <= 32,
        forall|i: int| 0 <= i < 2 * top ==> !#[trigger] bit_of(key, i),
        1 <= out.len(),
        out[0] == (key, key | low_mask(2 * top)),
    ensures
        in_blocks(out, 1, s),
{
    assert forall|i: int, j: int| 0 <= i < 1 && 0 <= j < 2 * s implies #[trigger] aligned_range(out[i], j) by {}
    lemma_blocks_from_bits(out, 1, 2 * s);
    assert(2 * s / 2 == s);
}

/// A depth that settles the clipped rectangle and to whose blocks the
/// ranges keep is one such depth.
proof fn lemma_some_depth(levels: u32, x: (u64, u64), y: (u64, u64), c: (u64, u64, u64, u64), s: int, limit: int,
    out: Seq<(u64, u64)>, n: int)
    requires
        clipped(levels, x, y) == Some(c),
        settled(levels, c, s, limit),
        in_blocks(out, n, s),
    ensures
        clipped(levels, x, y) matches Some(d) ==> exists|t: int| #[trigger] settled(levels, d, t, limit) && in_blocks(out, n, t),
{
    let d = clipped(levels, x, y)->Some_0;
    assert(d == c);
    assert(settled(levels, d, s, limit));
}

} // verus!
