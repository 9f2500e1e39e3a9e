//! Hilbert curves as two scans over the Morton code: parities one way, the
//! carry chain two bits wide the other.
//!
//! A 2D Hilbert index has the shape of a Morton code: one pair of bits per
//! level, most significant level first. Each level is read in a frame the
//! levels above it chose, one of four (base, transposed, point-reflected,
//! both), so decoding is two suffix XORs over the levels and a Morton
//! decode. The frames are those of the four-state machine
//! ([`index_frame`], [`code_frame`]), which is what the contracts speak of.
//!
//! The curve of order `n` starts at `(0, 0)`, ends at `(2^n - 1, 0)` and
//! visits the quadrants lower-left, upper-left, upper-right, lower-right.
use vstd::prelude::*;
use crate::dilated::{Morton2, interleaves2, strided};
use crate::model::{bit_of, group_bits, lemma_bits_eq, low_mask, parity_below};
use crate::word::Word;

verus! {

broadcast use group_bits;

/// Bit `2j` of `w`: the `x` of level `j` of a Morton code, the low digit
/// bit of level `j` of a Hilbert index.
pub open spec fn even_at(w: u64, j: int) -> bool {
    bit_of(w, 2 * j)
}

/// Bit `2j + 1` of `w`: the `y` of level `j`, the high digit bit.
pub open spec fn odd_at(w: u64, j: int) -> bool {
    bit_of(w, 2 * j + 1)
}

/// The frame `(swap, flip)` in which level `j` of the index `h` is read,
/// the machine run from the top level (31) down: a pair `0` or `3`
/// transposes the frame below it, a pair `3` reflects it.
pub open spec fn index_frame(h: u64, j: int) -> (bool, bool)
    decreases 31 - j,
{
    if j >= 31 {
        (false, false)
    } else {
        let (s, f) = index_frame(h, j + 1);
        let hi = odd_at(h, j + 1);
        let lo = even_at(h, j + 1);
        (s != (hi == lo), f != (hi && lo))
    }
}

/// The `x` bit of level `j` of the cell of index `h`.
pub open spec fn cell_x(h: u64, j: int) -> bool {
    let (s, f) = index_frame(h, j);
    (odd_at(h, j) != (s && even_at(h, j))) != f
}

/// The `y` bit of level `j` of the cell of index `h`.
pub open spec fn cell_y(h: u64, j: int) -> bool {
    cell_x(h, j) != even_at(h, j)
}

/// `c` is the Morton code of the cell of index `h`.
pub open spec fn decodes_to(h: u64, c: u64) -> bool {
    forall|j: int| 0 <= j < 32 ==> #[trigger] even_at(c, j) == cell_x(h, j) && odd_at(c, j) == cell_y(h, j)
}

/// The frame of level `j` when encoding the Morton code `c`, the same
/// machine driven by the cell's bits.
pub open spec fn code_frame(c: u64, j: int) -> (bool, bool)
    decreases 31 - j,
{
    if j >= 31 {
        (false, false)
    } else {
        let (s, f) = code_frame(c, j + 1);
        let lo = even_at(c, j + 1) != odd_at(c, j + 1);
        let hi = (even_at(c, j + 1) != f) != (s && lo);
        (s != (hi == lo), f != (hi && lo))
    }
}

/// The high digit bit of level `j` of the index of the cell `c`.
pub open spec fn digit_hi(c: u64, j: int) -> bool {
    let (s, f) = code_frame(c, j);
    (even_at(c, j) != f) != (s && (even_at(c, j) != odd_at(c, j)))
}

/// `h` is the index of the cell whose Morton code is `c`.
pub open spec fn encodes_to(c: u64, h: u64) -> bool {
    forall|j: int| 0 <= j < 32 ==> #[trigger] even_at(h, j) == (even_at(c, j) != odd_at(c, j)) && odd_at(h, j) == digit_hi(c, j)
}

proof fn lemma_lanes(i: u64)
    by (bit_vector)
    requires
        i < 64,
    ensures
        ((0x5555_5555_5555_5555u64 >> i) & 1 == 1) == (i % 2 == 0),
{
}

proof fn lemma_lane_bits()
    ensures
        forall|i: int| 0 <= i < 64 ==> #[trigger] bit_of(0x5555_5555_5555_5555u64, i) == (i % 2 == 0),
{
    assert forall|i: int| 0 <= i < 64 implies #[trigger] bit_of(0x5555_5555_5555_5555u64, i) == (i % 2 == 0) by {
        lemma_lanes(i as u64);
    }
}

/// A word is settled by its levels.
proof fn lemma_levels_eq(a: u64, b: u64)
    requires
        forall|j: int| 0 <= j < 32 ==> #[trigger] even_at(a, j) == even_at(b, j) && odd_at(a, j) == odd_at(b, j),
    ensures
        a == b,
{
    assert forall|i: int| 0 <= i < 64 implies #[trigger] bit_of(a, i) == bit_of(b, i) by {
        let j = i / 2;
        if i % 2 == 0 {
            assert(i == 2 * j);
            assert(even_at(a, j) == even_at(b, j));
        } else {
            assert(i == 2 * j + 1);
            assert(even_at(a, j) == even_at(b, j));
            assert(odd_at(a, j) == odd_at(b, j));
        }
    }
    lemma_bits_eq(a, b);
}

/// Encoding and decoding run the same frames.
proof fn lemma_frames_from_code(c: u64, h: u64, j: int)
    requires
        encodes_to(c, h),
        0 <= j <= 31,
    ensures
        index_frame(h, j) == code_frame(c, j),
    decreases 31 - j,
{
    if j < 31 {
        lemma_frames_from_code(c, h, j + 1);
        assert(even_at(h, j + 1) == (even_at(c, j + 1) != odd_at(c, j + 1)));
    }
}

proof fn lemma_frames_from_index(h: u64, c: u64, j: int)
    requires
        decodes_to(h, c),
        0 <= j <= 31,
    ensures
        index_frame(h, j) == code_frame(c, j),
    decreases 31 - j,
{
    if j < 31 {
        lemma_frames_from_index(h, c, j + 1);
        assert(even_at(c, j + 1) == cell_x(h, j + 1));
    }
}

/// The index of a cell decodes to that cell.
pub proof fn lemma_encode_then_decode(c: u64, h: u64)
    requires
        encodes_to(c, h),
    ensures
        decodes_to(h, c),
{
    assert forall|j: int| 0 <= j < 32 implies #[trigger] even_at(c, j) == cell_x(h, j) && odd_at(c, j) == cell_y(h, j) by {
        lemma_frames_from_code(c, h, j);
        assert(even_at(h, j) == (even_at(c, j) != odd_at(c, j)));
        assert(odd_at(h, j) == digit_hi(c, j));
        assert(index_frame(h, j) == code_frame(c, j));
    }
}

/// The cell of an index encodes back to that index.
pub proof fn lemma_decode_then_encode(h: u64, c: u64)
    requires
        decodes_to(h, c),
    ensures
        encodes_to(c, h),
{
    assert forall|j: int| 0 <= j < 32 implies #[trigger] even_at(h, j) == (even_at(c, j) != odd_at(c, j)) && odd_at(h, j) == digit_hi(c, j) by {
        lemma_frames_from_index(h, c, j);
        assert(even_at(c, j) == cell_x(h, j));
        assert(odd_at(c, j) == cell_y(h, j));
    }
}

/// One index per cell, one cell per index.
pub proof fn lemma_unique(c1: u64, c2: u64, h1: u64, h2: u64)
    ensures
        encodes_to(c1, h1) && encodes_to(c1, h2) ==> h1 == h2,
        decodes_to(h1, c1) && decodes_to(h1, c2) ==> c1 == c2,
{
    if encodes_to(c1, h1) && encodes_to(c1, h2) {
        assert forall|j: int| 0 <= j < 32 implies #[trigger] even_at(h1, j) == even_at(h2, j) && odd_at(h1, j) == odd_at(h2, j) by {}
        lemma_levels_eq(h1, h2);
    }
    if decodes_to(h1, c1) && decodes_to(h1, c2) {
        assert forall|j: int| 0 <= j < 32 implies #[trigger] even_at(c1, j) == even_at(c2, j) && odd_at(c1, j) == odd_at(c2, j) by {}
        lemma_levels_eq(c1, c2);
    }
}

/// The parity of the lane bits strictly above level `j` of a word with
/// bits only in the even lane is the running XOR of the machine.
proof fn lemma_lane_parity(v: u64, h: u64, j: int, swap: bool)
    requires
        0 <= j <= 31,
        forall|i: int| 0 <= i < 32 ==> !#[trigger] odd_at(v, i),
        forall|i: int| 0 <= i < 32 ==> #[trigger] even_at(v, i) == (if swap { odd_at(h, i) == even_at(h, i) } else { odd_at(h, i) && even_at(h, i) }),
    ensures
        (parity_below(v, 64) != parity_below(v, 2 * j + 1)) == (if swap { index_frame(h, j).0 } else { index_frame(h, j).1 }),
    decreases 31 - j,
{
    if j == 31 {
        assert(!odd_at(v, 31));
        assert(parity_below(v, 64) == (parity_below(v, 63) != bit_of(v, 63)));
    } else {
        lemma_lane_parity(v, h, j + 1, swap);
        assert(!odd_at(v, j));
        assert(parity_below(v, 2 * j + 3) == (parity_below(v, 2 * j + 2) != bit_of(v, 2 * j + 2)));
        assert(parity_below(v, 2 * j + 2) == (parity_below(v, 2 * j + 1) != bit_of(v, 2 * j + 1)));
        assert(bit_of(v, 2 * j + 2) == even_at(v, j + 1));
    }
}

/// Coordinates below `2^n` read zero pairs above level `n`, and a zero
/// pair in an unreflected frame is digit `0` and leaves it unreflected.
proof fn lemma_short_index(x: u64, y: u64, n: int, h: u64)
    requires
        0 <= n <= 32,
        x >> (n as u64) == 0,
        y >> (n as u64) == 0,
        forall|j: int| 0 <= j < 32 ==> #[trigger] cell_x(h, j) == bit_of(x, j) && cell_y(h, j) == bit_of(y, j),
    ensures
        forall|i: int| 2 * n <= i < 64 ==> !#[trigger] bit_of(h, i),
{
    assert forall|j: int| n <= j < 32 implies !#[trigger] bit_of(x, j) && !bit_of(y, j) by {
        assert(bit_of(x >> (n as u64), j - n) == bit_of(x, j));
        assert(bit_of(y >> (n as u64), j - n) == bit_of(y, j));
    }
    assert forall|i: int| 2 * n <= i < 64 implies !#[trigger] bit_of(h, i) by {
        let j = i / 2;
        lemma_top_frames_unreflected(h, x, y, n, j);
        assert(cell_x(h, j) == bit_of(x, j) && cell_y(h, j) == bit_of(y, j));
        assert(!bit_of(x, j) && !bit_of(y, j));
        if i % 2 == 0 {
            assert(i == 2 * j);
        } else {
            assert(i == 2 * j + 1);
        }
    }
}

proof fn lemma_top_frames_unreflected(h: u64, x: u64, y: u64, n: int, j: int)
    requires
        0 <= n <= j <= 31,
        forall|j: int| 0 <= j < 32 ==> #[trigger] cell_x(h, j) == bit_of(x, j) && cell_y(h, j) == bit_of(y, j),
        forall|j: int| n <= j < 32 ==> !#[trigger] bit_of(x, j) && !bit_of(y, j),
    ensures
        !index_frame(h, j).1,
        !even_at(h, j),
        !odd_at(h, j),
    decreases 31 - j,
{
    assert(cell_x(h, j) == bit_of(x, j) && cell_y(h, j) == bit_of(y, j));
    assert(!bit_of(x, j) && !bit_of(y, j));
    if j < 31 {
        lemma_top_frames_unreflected(h, x, y, n, j + 1);
    }
}

/// Adding one to a word clears its trailing ones and sets the zero above
/// them.
proof fn lemma_incr_bit(h: u64, p: u64, i: u64)
    by (bit_vector)
    requires
        p < 64,
        i < 64,
        (h >> p) & 1 != 1,
        h & ((1u64 << p) - 1) as u64 == ((1u64 << p) - 1) as u64,
    ensures
        h < 0xffff_ffff_ffff_ffff,
        ((((h + 1) as u64) >> i) & 1 == 1) == (if i < p { false } else if i == p { true } else { (h >> i) & 1 == 1 }),
{
}

/// A word whose bits above `t` agree, with bit `t` set in `b` only, every
/// bit below `t` set in `a` and clear in `b`, is `a + 1`.
proof fn lemma_step_value(a: u64, b: u64, t: int)
    requires
        0 <= t < 63,
        forall|i: int| t < i < 64 ==> #[trigger] bit_of(a, i) == bit_of(b, i),
        !bit_of(a, t),
        bit_of(b, t),
        forall|i: int| 0 <= i < t ==> #[trigger] bit_of(a, i) && !bit_of(b, i),
    ensures
        b == a + 1,
{
    let tt = t as u64;
    let low = ((1u64 << tt) - 1) as u64;
    let high = a & !(((1u64 << ((tt + 1) as u64)) - 1) as u64);
    assert forall|i: int| 0 <= i < 64 implies #[trigger] bit_of(a, i) == bit_of(high | low, i) by {
        lemma_low_raw(tt, i as u64);
        lemma_low_raw((tt + 1) as u64, i as u64);
        if i < t {
            assert(bit_of(a, i));
        }
    }
    lemma_bits_eq(a, high | low);
    assert forall|i: int| 0 <= i < 64 implies #[trigger] bit_of(b, i) == bit_of(high | (1u64 << tt), i) by {
        lemma_low_raw((tt + 1) as u64, i as u64);
        if i < t {
            assert(bit_of(a, i));
            assert(!bit_of(b, i));
        }
    }
    lemma_bits_eq(b, high | (1u64 << tt));
    crate::model::lemma_order_raw(a, a, tt);
}

pub proof fn lemma_low_raw(t: u64, i: u64)
    by (bit_vector)
    requires
        t < 64,
        i < 64,
    ensures
        (((((1u64 << t) - 1) as u64) >> i) & 1 == 1) == (i < t),
        (1u64 << t) >= 1,
        t == 32 ==> ((1u64 << t) - 1) as u64 == 0xffff_ffffu64,
{
}

/// The bits of `2^t - 1`.
pub proof fn lemma_low_bits(t: u64, i: u64)
    requires
        t < 64,
        i < 64,
    ensures
        bit_of(((1u64 << t) - 1) as u64, i as int) == (i < t),
        (1u64 << t) >= 1,
{
    lemma_low_raw(t, i);
}

/// The three ways two words can sit on one axis when they agree above bit
/// `t` and are constant below it: equal, or one step apart.
proof fn lemma_axis(a: u64, b: u64, t: int, ta: bool, tb: bool, la: bool, lb: bool)
    requires
        0 <= t < 32,
        forall|i: int| t < i < 64 ==> #[trigger] bit_of(a, i) == bit_of(b, i),
        bit_of(a, t) == ta,
        bit_of(b, t) == tb,
        forall|i: int| 0 <= i < t ==> #[trigger] bit_of(a, i) == la && bit_of(b, i) == lb,
    ensures
        ta == tb && (t == 0 || la == lb) ==> a == b,
        !ta && tb && (t == 0 || (la && !lb)) ==> b == a + 1,
        ta && !tb && (t == 0 || (!la && lb)) ==> a == b + 1,
{
    if ta == tb && (t == 0 || la == lb) {
        assert forall|i: int| 0 <= i < 64 implies #[trigger] bit_of(a, i) == bit_of(b, i) by {
            if i < t {
                assert(bit_of(a, i) == la && bit_of(b, i) == lb);
            }
        }
        lemma_bits_eq(a, b);
    }
    if !ta && tb && (t == 0 || (la && !lb)) {
        assert forall|i: int| 0 <= i < t implies #[trigger] bit_of(a, i) && !bit_of(b, i) by {
            assert(bit_of(a, i) == la && bit_of(b, i) == lb);
        }
        lemma_step_value(a, b, t);
    }
    if ta && !tb && (t == 0 || (!la && lb)) {
        assert forall|i: int| 0 <= i < t implies #[trigger] bit_of(b, i) && !bit_of(a, i) by {
            assert(bit_of(a, i) == la && bit_of(b, i) == lb);
        }
        lemma_step_value(b, a, t);
    }
}

/// Frames depend on the levels above only.
proof fn lemma_frames_above(h1: u64, h2: u64, t: int, j: int)
    requires
        0 <= t <= j <= 31,
        forall|i: int| t < i < 32 ==> #[trigger] even_at(h1, i) == even_at(h2, i) && odd_at(h1, i) == odd_at(h2, i),
    ensures
        index_frame(h1, j) == index_frame(h2, j),
    decreases 31 - j,
{
    if j < 31 {
        lemma_frames_above(h1, h2, t, j + 1);
        assert(even_at(h1, j + 1) == even_at(h2, j + 1) && odd_at(h1, j + 1) == odd_at(h2, j + 1));
    }
}

/// Below a run of digits `3` both flags flip at every level, so whether
/// they differ stays; below a run of digits `0` the reflection stays.
proof fn lemma_frames_below(h: u64, t: int, j: int, three: bool)
    requires
        0 <= j < t <= 32,
        forall|i: int| 0 <= i < t ==> #[trigger] even_at(h, i) == three && odd_at(h, i) == three,
    ensures
        three ==> (index_frame(h, j).0 != index_frame(h, j).1) == (index_frame(h, t - 1).0 != index_frame(h, t - 1).1),
        !three ==> index_frame(h, j).1 == index_frame(h, t - 1).1,
    decreases t - j,
{
    if j < t - 1 {
        lemma_frames_below(h, t, j + 1, three);
        assert(even_at(h, j + 1) == three && odd_at(h, j + 1) == three);
    }
}

/// Consecutive indices are neighbouring cells: the coordinates of `h` and
/// `h + 1` differ by one on one axis and agree on the other.
#[verifier::spinoff_prover]
#[verifier::rlimit(40)]
pub proof fn lemma_consecutive_adjacent(h: u64, x0: u64, y0: u64, x1: u64, y1: u64)
    requires
        h < 0xffff_ffff_ffff_ffff,
        forall|j: int| 0 <= j < 64 ==> #[trigger] bit_of(x0, j) == (j < 32 && cell_x(h, j)),
        forall|j: int| 0 <= j < 64 ==> #[trigger] bit_of(y0, j) == (j < 32 && cell_y(h, j)),
        forall|j: int| 0 <= j < 64 ==> #[trigger] bit_of(x1, j) == (j < 32 && cell_x((h + 1) as u64, j)),
        forall|j: int| 0 <= j < 64 ==> #[trigger] bit_of(y1, j) == (j < 32 && cell_y((h + 1) as u64, j)),
    ensures
        ((x1 == x0 + 1 || x0 == x1 + 1) && y0 == y1) || ((y1 == y0 + 1 || y0 == y1 + 1) && x0 == x1),
{
    let g = (h + 1) as u64;
    crate::model::lemma_tz(!h);
    let p = crate::model::tz(!h);
    assert(!h != 0) by {
        if !h == 0 {
            assert forall|i: int| 0 <= i < 64 implies #[trigger] bit_of(h, i) == bit_of(0xffff_ffff_ffff_ffffu64, i) by {
                assert(!bit_of(!h, i));
            }
            lemma_bits_eq(h, 0xffff_ffff_ffff_ffffu64);
        }
    }
    assert(0 <= p < 64);
    assert(!bit_of(h, p));
    let lowp = ((1u64 << (p as u64)) - 1) as u64;
    assert forall|i: int| 0 <= i < 64 implies #[trigger] bit_of(h & lowp, i) == bit_of(lowp, i) by {
        lemma_low_raw(p as u64, i as u64);
        if i < p {
            assert(!bit_of(!h, i));
        }
    }
    lemma_bits_eq(h & lowp, lowp);
    assert forall|i: int| 0 <= i < 64 implies #[trigger] bit_of(g, i) == (if i < p { false } else if i == p { true } else { bit_of(h, i) }) by {
        lemma_incr_bit(h, p as u64, i as u64);
    }
    let t = p / 2;
    assert(0 <= t < 32);
    // Levels above `t` agree; below it `h` reads 3 and `h + 1` reads 0.
    assert forall|i: int| t < i < 32 implies #[trigger] even_at(h, i) == even_at(g, i) && odd_at(h, i) == odd_at(g, i) by {
        assert(bit_of(g, 2 * i) == bit_of(h, 2 * i));
        assert(bit_of(g, 2 * i + 1) == bit_of(h, 2 * i + 1));
    }
    assert forall|i: int| 0 <= i < t implies #[trigger] even_at(h, i) && odd_at(h, i) by {
        assert(!bit_of(!h, 2 * i));
        assert(!bit_of(!h, 2 * i + 1));
    }
    assert forall|i: int| 0 <= i < t implies !#[trigger] even_at(g, i) && !odd_at(g, i) by {
        assert(bit_of(g, 2 * i) == false);
        assert(bit_of(g, 2 * i + 1) == false);
    }
    let lo = even_at(h, t);
    let hi = odd_at(h, t);
    if p == 2 * t {
        assert(!lo);
        assert(even_at(g, t));
        assert(odd_at(g, t) == hi);
    } else {
        assert(p == 2 * t + 1);
        assert(!bit_of(!h, 2 * t));
        assert(lo && !hi);
        assert(!even_at(g, t));
        assert(odd_at(g, t));
    }
    assert(even_at(g, t) == !lo);
    assert(odd_at(g, t) == (hi != lo));
    lemma_frames_above(h, g, t, t);
    let (s, f) = index_frame(h, t);
    // The cells at level `t`.
    let xt = cell_x(h, t);
    let yt = cell_y(h, t);
    let xg = cell_x(g, t);
    let yg = cell_y(g, t);
    // Below `t`: `h` sits in a corner off the diagonal, `h + 1` on it.
    let (sh, fh) = (s != (hi == lo), f != (hi && lo));
    let k = sh != fh;
    let l = f != (hi != lo && !lo);
    if t > 0 {
        assert(index_frame(h, t - 1) == (sh, fh));
        assert(index_frame(g, t - 1).1 == l);
    }
    assert forall|i: int| 0 <= i < t implies #[trigger] even_at(h, i) == true && odd_at(h, i) == true by {
        assert(!bit_of(!h, 2 * i));
        assert(!bit_of(!h, 2 * i + 1));
    }
    assert forall|i: int| 0 <= i < t implies #[trigger] even_at(g, i) == false && odd_at(g, i) == false by {
        assert(bit_of(g, 2 * i) == false);
        assert(bit_of(g, 2 * i + 1) == false);
    }
    assert forall|i: int| 0 <= i < t implies #[trigger] cell_x(h, i) == !k && cell_y(h, i) == k && cell_x(g, i) == l && cell_y(g, i) == l by {
        assert(!bit_of(!h, 2 * i));
        assert(bit_of(h, 2 * i));
        assert(even_at(h, i));
        assert(even_at(h, i) && odd_at(h, i));
        assert(!even_at(g, i) && !odd_at(g, i));
        lemma_frames_below(h, t, i, true);
        lemma_frames_below(g, t, i, false);
    }
    assert forall|i: int| t < i < 64 implies #[trigger] bit_of(x0, i) == bit_of(x1, i) && bit_of(y0, i) == bit_of(y1, i) by {
        if i < 32 {
            lemma_frames_above(h, g, t, i);
            assert(even_at(h, i) == even_at(g, i) && odd_at(h, i) == odd_at(g, i));
        }
    }
    assert forall|i: int| 0 <= i < t implies #[trigger] bit_of(x0, i) == !k && bit_of(x1, i) == l by {
        assert(cell_x(h, i) == !k && cell_y(h, i) == k && cell_x(g, i) == l && cell_y(g, i) == l);
    }
    assert forall|i: int| 0 <= i < t implies #[trigger] bit_of(y0, i) == k && bit_of(y1, i) == l by {
        assert(cell_x(h, i) == !k && cell_y(h, i) == k && cell_x(g, i) == l && cell_y(g, i) == l);
    }
    assert forall|i: int| t < i < 64 implies #[trigger] bit_of(x0, i) == bit_of(x1, i) by {
        assert(bit_of(x0, i) == bit_of(x1, i) && bit_of(y0, i) == bit_of(y1, i));
    }
    assert forall|i: int| t < i < 64 implies #[trigger] bit_of(y0, i) == bit_of(y1, i) by {
        assert(bit_of(x0, i) == bit_of(x1, i) && bit_of(y0, i) == bit_of(y1, i));
    }
    lemma_axis(x0, x1, t, xt, xg, !k, l);
    lemma_axis(y0, y1, t, yt, yg, k, l);
}

/// Bit `i` of a word whose low 32 bits are those of `x`.
pub proof fn lemma_low32(x: u64, i: int)
    requires
        0 <= i < 64,
    ensures
        bit_of(x & 0xffff_ffffu64, i) == (i < 32 && bit_of(x, i)),
{
    lemma_low_raw(32, i as u64);
}

/// Two indices with the same cell at every level are the same index.
pub proof fn lemma_same_cells(a: u64, b: u64, c: u64)
    requires
        decodes_to(b, c),
        forall|j: int| 0 <= j < 32 ==> #[trigger] cell_x(a, j) == cell_x(b, j) && cell_y(a, j) == cell_y(b, j),
    ensures
        a == b,
{
    assert forall|j: int| 0 <= j < 32 implies #[trigger] even_at(c, j) == cell_x(a, j) && odd_at(c, j) == cell_y(a, j) by {
        assert(cell_x(a, j) == cell_x(b, j) && cell_y(a, j) == cell_y(b, j));
    }
    lemma_decode_then_encode(a, c);
    lemma_decode_then_encode(b, c);
    lemma_unique(c, c, a, b);
}

/// Zero pairs from the top: each one transposes the frame below it and
/// none reflects it.
proof fn lemma_frames_zero_above(h: u64, n: int, j: int)
    requires
        0 <= n <= j <= 31,
        forall|i: int| n <= i < 32 ==> !#[trigger] even_at(h, i) && !odd_at(h, i),
    ensures
        index_frame(h, j) == ((31 - j) % 2 == 1, false),
    decreases 31 - j,
{
    if j < 31 {
        lemma_frames_zero_above(h, n, j + 1);
        assert(!even_at(h, j + 1) && !odd_at(h, j + 1));
    }
}

/// The cells of the last index `4^n - 1` of the order-`n` curve on the
/// full-width one: below level `n` every pair is `3`, above it `0`.
pub proof fn lemma_last_cell(h: u64, n: int, j: int)
    requires
        0 < n <= 32,
        0 <= j < 32,
        forall|i: int| 0 <= i < 32 ==> #[trigger] even_at(h, i) == (i < n),
        forall|i: int| 0 <= i < 32 ==> #[trigger] odd_at(h, i) == (i < n),
    ensures
        cell_x(h, j) == (j < n && (32 - n) % 2 == 0),
        cell_y(h, j) == (j < n && (32 - n) % 2 == 1),
{
    assert forall|i: int| n <= i < 32 implies !#[trigger] even_at(h, i) && !odd_at(h, i) by {
        assert(even_at(h, i) == (i < n));
        assert(odd_at(h, i) == (i < n));
    }
    assert(even_at(h, j) == (j < n));
    assert(odd_at(h, j) == (j < n));
    if j >= n {
        lemma_frames_zero_above(h, n, j);
    } else {
        if n <= 31 {
            lemma_frames_zero_above(h, n, n);
            assert(!even_at(h, n) && !odd_at(h, n));
        }
        assert(index_frame(h, n - 1) == ((32 - n) % 2 == 1, false));
        if j < n - 1 {
            assert forall|i: int| 0 <= i < n implies #[trigger] even_at(h, i) == true && odd_at(h, i) == true by {
                assert(even_at(h, i) == (i < n));
                assert(odd_at(h, i) == (i < n));
            }
            lemma_frames_below(h, n, j, true);
        }
    }
}

/// The first index is the origin on every order.
pub proof fn lemma_first_cell(j: int)
    requires
        0 <= j < 32,
    ensures
        !cell_x(0, j),
        !cell_y(0, j),
{
    assert forall|i: int| 0 <= i < 32 implies !#[trigger] even_at(0, i) && !odd_at(0, i) by {}
    lemma_frames_zero_above(0, 0, j);
}

/// The index of the cell `c` by the four-state machine, one level at a
/// time from the top.
fn encode_by_machine(c: u64) -> (r: u64)
    ensures
        encodes_to(c, r),
{
    let mut s = false;
    let mut f = false;
    let mut h: u64 = 0;
    let mut k: u32 = 32;
    while k > 0
        invariant
            k <= 32,
            k >= 1 ==> (s, f) == code_frame(c, k - 1),
            forall|i: int| 0 <= i < 32 ==> #[trigger] even_at(h, i) == (i >= k && (even_at(c, i) != odd_at(c, i))),
            forall|i: int| 0 <= i < 32 ==> #[trigger] odd_at(h, i) == (i >= k && digit_hi(c, i)),
        decreases k,
    {
        let j = k - 1;
        let x = c.bit(2 * j);
        let y = c.bit(2 * j + 1);
        let lo = x != y;
        let hi = (x != f) != (s && lo);
        let ghost old_h = h;
        proof {
            assert(code_frame(c, j as int) == (s, f));
            assert(x == even_at(c, j as int));
            assert(y == odd_at(c, j as int));
            assert(digit_hi(c, j as int) == hi);
        }
        if lo {
            h = h | (1u64 << (2 * j));
        }
        let ghost mid_h = h;
        if hi {
            h = h | (1u64 << (2 * j + 1));
        }
        proof {
            assert forall|i: int| 0 <= i < 32 implies #[trigger] odd_at(h, i) == (i >= j && digit_hi(c, i)) by {
                assert(odd_at(old_h, i) == (i >= k && digit_hi(c, i)));
                assert(bit_of(1u64 << (2 * j) as u64, 2 * i + 1) == false);
                assert(bit_of(1u64 << (2 * j + 1) as u64, 2 * i + 1) == (i == j));
            }
            assert forall|i: int| 0 <= i < 32 implies #[trigger] even_at(h, i) == (i >= j && (even_at(c, i) != odd_at(c, i))) by {
                assert(even_at(old_h, i) == (i >= k && (even_at(c, i) != odd_at(c, i))));
                assert(bit_of(1u64 << (2 * j) as u64, 2 * i) == (i == j));
                assert(bit_of(1u64 << (2 * j) as u64, 2 * i + 1) == false);
                assert(bit_of(1u64 << (2 * j + 1) as u64, 2 * i) == false);
                assert(bit_of(1u64 << (2 * j + 1) as u64, 2 * i + 1) == (i == j));
            }
        }
        s = s != (hi == lo);
        f = f != (hi && lo);
        k = j;
    }
    h
}

/// A 2D Hilbert index over the full width of a `u64`: 32 levels, a
/// `2^32` square. Ordered as an integer, which is the curve order.
#[derive(Clone, Copy, PartialEq, Eq, Structural, Debug, Hash, PartialOrd, Ord)]
pub struct Hilbert2(u64);

impl View for Hilbert2 {
    type V = u64;

    closed spec fn view(&self) -> u64 {
        self.0
    }
}

impl Hilbert2 {
    /// Levels of the full-width curve.
    pub const LEVELS: u32 = 32;

    /// Wraps an index.
    pub fn from_index(index: u64) -> (r: Hilbert2)
        ensures
            r@ == index,
    {
        Hilbert2(index)
    }

    /// The raw index.
    pub fn index(self) -> (r: u64)
        ensures
            r == self@,
    {
        self.0
    }

    /// From the Morton code of the same cell: the levels re-read in
    /// their frames, all at once.
    ///
    /// Per level, with `x`, `y` the coordinate bits and `lo = x ^ y`, the
    /// frame map is `(a, c) -> (c ^ x, a ^ x)` when `lo` is set, else
    /// `(a, c) -> (a ^ !(c ^ x), c)`. Windows of two levels have linear
    /// parts in GF(4)* and translations in GF(4); the suffix product of the
    /// windows is a Kogge-Stone scan with one GF(4) multiplication per
    /// word pair per round, and the frame at a level is the translation of
    /// the product above it. The scan itself carries no proof here: its
    /// result is kept once the decode gives back the cell, which proves it
    /// the index; otherwise the four-state machine computes the index.
    pub fn from_morton(morton: Morton2) -> (r: Hilbert2)
        ensures
            encodes_to(morton@, r@),
    {
        let code = morton.code();
        let lanes = 0x5555_5555_5555_5555u64;
        let x = code & lanes;
        let y = (code >> 1u32) & lanes;
        let lo = x ^ y;
        let not_lo = lo ^ lanes;
        let neither = (x | y) ^ lanes;
        let x_only = x & (y ^ lanes);
        // Windows of two levels: `v -> m·v + t` over GF(4), `m` in
        // `(ma, mb)`, `t` in `(ta, tb)`.
        let mut ma = lo | (not_lo >> 2u32);
        let mut mb = (lo >> 2u32) ^ lo;
        let mut ta = (neither >> 2u32) ^ (not_lo & (x_only >> 2u32)) ^ neither;
        let mut tb = (lo & (neither >> 2u32)) ^ (x_only >> 2u32) ^ x_only;
        let mut step: u32 = 4;
        while step < 64
            invariant
                step == 4 || step == 8 || step == 16 || step == 32 || step == 64,
            decreases 64 - step,
        {
            let (pa, pb, pc, pd) = (ma, mb, ta, tb);
            let (qa, qb, qc, qd) = (pa >> step, pb >> step, pc >> step, pd >> step);
            // `t ^= m · t'`: `(a + bω)(c' + d'ω)` with `ω² = ω + 1`.
            ta = pc ^ (pa & qc) ^ (pb & qd);
            tb = pd ^ (pb & qc) ^ ((pa ^ pb) & qd);
            // `m ·= m'`, not needed after the last round.
            if step * 2 < 64 {
                ma = (pa & qa) ^ (pb & qb);
                mb = (pa & qb) ^ (pb & (qa ^ qb));
            }
            step = step * 2;
        }
        // The frames, read off the translations of the products above.
        let swap_like = ta ^ (ta >> 2u32);
        let flip_like = tb ^ (tb >> 2u32);
        let hi = flip_like | ((lo | swap_like) ^ lanes);
        let h = lo | (hi << 1u32);
        let back = Hilbert2(h).into_morton();
        if back.code() == code {
            proof {
                lemma_decode_then_encode(h, code);
            }
            Hilbert2(h)
        } else {
            Hilbert2(encode_by_machine(code))
        }
    }

    /// The index of `(x, y)` on the full-width curve. Coordinates above 32
    /// bits are dropped.
    pub fn encode(x: u64, y: u64) -> (r: Hilbert2)
        ensures
            forall|j: int| 0 <= j < 32 ==> #[trigger] cell_x(r@, j) == bit_of(x, j) && cell_y(r@, j) == bit_of(y, j),
    {
        let m = Morton2::encode(x, y);
        let r = Hilbert2::from_morton(m);
        proof {
            lemma_encode_then_decode(m@, r@);
            assert forall|j: int| 0 <= j < 32 implies #[trigger] cell_x(r@, j) == bit_of(x, j) && cell_y(r@, j) == bit_of(y, j) by {
                assert(even_at(m@, j) == cell_x(r@, j));
                assert(odd_at(m@, j) == cell_y(r@, j));
                assert(bit_of(m@, 2 * j) == bit_of(x, j) && bit_of(m@, 2 * j + 1) == bit_of(y, j));
            }
        }
        r
    }

    /// The `(x, y)` of this index on the full-width curve.
    pub fn decode(self) -> (r: (u64, u64))
        ensures
            forall|j: int| 0 <= j < 64 ==> #[trigger] bit_of(r.0, j) == (j < 32 && cell_x(self@, j)),
            forall|j: int| 0 <= j < 64 ==> #[trigger] bit_of(r.1, j) == (j < 32 && cell_y(self@, j)),
    {
        let m = self.into_morton();
        let r = m.decode();
        proof {
            assert forall|j: int| 0 <= j < 64 implies #[trigger] bit_of(r.0, j) == (j < 32 && cell_x(self@, j)) by {
                assert(bit_of(r.0, j) == (j * 2 + 0 < 64 && bit_of(m@, j * 2 + 0)));
                if j < 32 {
                    assert(even_at(m@, j) == cell_x(self@, j));
                }
            }
            assert forall|j: int| 0 <= j < 64 implies #[trigger] bit_of(r.1, j) == (j < 32 && cell_y(self@, j)) by {
                assert(bit_of(r.1, j) == (j * 2 + 1 < 64 && bit_of(m@, j * 2 + 1)));
                if j < 32 {
                    assert(even_at(m@, j) == cell_x(self@, j));
                    assert(odd_at(m@, j) == cell_y(self@, j));
                }
            }
        }
        r
    }

    /// The index of `(x, y)` on the curve of `order` levels, `order` in
    /// `0..=32`, both coordinates below `2^order`.
    ///
    /// The order-`n` curve is the first `4^n` cells of the full-width curve,
    /// transposed when `32 - n` is odd: every level above reads a zero pair,
    /// and a zero pair transposes the frame below it. So this is
    /// [`encode`](Self::encode) with the arguments swapped for odd depth.
    pub fn encode_order(x: u64, y: u64, order: u32) -> (r: Hilbert2)
        requires
            order <= 32,
            x >> (order as u64) == 0,
            y >> (order as u64) == 0,
        ensures
            forall|j: int| 0 <= j < 32 ==> #[trigger] cell_x(r@, j) == (if (32 - order) % 2 == 0 { bit_of(x, j) } else { bit_of(y, j) }),
            forall|j: int| 0 <= j < 32 ==> #[trigger] cell_y(r@, j) == (if (32 - order) % 2 == 0 { bit_of(y, j) } else { bit_of(x, j) }),
            forall|i: int| 2 * order <= i < 64 ==> !#[trigger] bit_of(r@, i),
    {
        let (a, b) = if (32 - order) % 2 == 0 { (x, y) } else { (y, x) };
        let r = Hilbert2::encode(a, b);
        proof {
            assert forall|j: int| 0 <= j < 32 implies #[trigger] cell_x(r@, j) == bit_of(a, j) && cell_y(r@, j) == bit_of(b, j) by {}
            lemma_short_index(a, b, order as int, r@);
        }
        r
    }

    /// The `(x, y)` of this index on the curve of `order` levels; the index
    /// below `4^order`.
    pub fn decode_order(self, order: u32) -> (r: (u64, u64))
        requires
            order <= 32,
            forall|i: int| 2 * order <= i < 64 ==> !#[trigger] bit_of(self@, i),
        ensures
            forall|j: int| 0 <= j < 64 ==> #[trigger] bit_of(r.0, j) == (j < 32 && if (32 - order) % 2 == 0 { cell_x(self@, j) } else { cell_y(self@, j) }),
            forall|j: int| 0 <= j < 64 ==> #[trigger] bit_of(r.1, j) == (j < 32 && if (32 - order) % 2 == 0 { cell_y(self@, j) } else { cell_x(self@, j) }),
    {
        let (x, y) = self.decode();
        if (32 - order) % 2 == 0 {
            (x, y)
        } else {
            (y, x)
        }
    }

    /// [`from_morton`](Self::from_morton) over a slice of keys, in place:
    /// each Morton code becomes the Hilbert index of the same cell.
    pub fn from_morton_in_place(keys: &mut [u64])
        ensures
            final(keys)@.len() == old(keys)@.len(),
            forall|i: int| 0 <= i < old(keys)@.len() ==> encodes_to(old(keys)@[i], #[trigger] final(keys)@[i]),
    {
        let n = keys.len();
        let mut i: usize = 0;
        while i < n
            invariant
                n == keys@.len(),
                keys@.len() == old(keys)@.len(),
                i <= n,
                forall|j: int| 0 <= j < i ==> encodes_to(old(keys)@[j], #[trigger] keys@[j]),
                forall|j: int| i <= j < n ==> #[trigger] keys@[j] == old(keys)@[j],
            decreases n - i,
        {
            let h = Hilbert2::from_morton(Morton2::from_code(keys[i])).index();
            keys[i] = h;
            i = i + 1;
        }
    }

    /// [`into_morton`](Self::into_morton) over a slice of keys, in place:
    /// each Hilbert index becomes the Morton code of the same cell.
    pub fn into_morton_in_place(keys: &mut [u64])
        ensures
            final(keys)@.len() == old(keys)@.len(),
            forall|i: int| 0 <= i < old(keys)@.len() ==> decodes_to(old(keys)@[i], #[trigger] final(keys)@[i]),
    {
        let n = keys.len();
        let mut i: usize = 0;
        while i < n
            invariant
                n == keys@.len(),
                keys@.len() == old(keys)@.len(),
                i <= n,
                forall|j: int| 0 <= j < i ==> decodes_to(old(keys)@[j], #[trigger] keys@[j]),
                forall|j: int| i <= j < n ==> #[trigger] keys@[j] == old(keys)@[j],
            decreases n - i,
        {
            let c = Hilbert2::from_index(keys[i]).into_morton().code();
            keys[i] = c;
            i = i + 1;
        }
    }

    /// To the Morton code of the same cell: the levels read back out of
    /// their frames, all at once. With `s` the pair of a level, the
    /// frame below it transposes when `s` is `0` or `3` and reflects
    /// when `s` is `3`, so `swap` and `flip` are two suffix XORs over
    /// the levels above; then `x = s_hi ^ swap·s_lo ^ flip` and
    /// `y = x ^ s_lo`.
    pub fn into_morton(self) -> (r: Morton2)
        ensures
            decodes_to(self@, r@),
    {
        let h = self.0;
        let lanes = 0x5555_5555_5555_5555u64;
        let s_lo = h & lanes;
        let s_hi = (h >> 1u32) & lanes;
        let tv = s_hi ^ s_lo ^ lanes;
        let fv = s_hi & s_lo;
        // Odd bit `2j + 1` of a suffix XOR over one lane is the parity
        // over the levels strictly above `j`: the exclusive scan for free.
        let ts = Word::xor_scan_down(tv);
        let fs = Word::xor_scan_down(fv);
        let swap = (ts >> 1u32) & lanes;
        let flip = (fs >> 1u32) & lanes;
        let x = flip ^ s_hi ^ (swap & s_lo);
        let y = x ^ s_lo;
        let code = x | (y << 1u32);
        proof {
            lemma_lane_bits();
            assert forall|i: int| 0 <= i < 32 implies #[trigger] even_at(s_lo, i) == even_at(h, i) && !odd_at(s_lo, i) by {
                assert(bit_of(h >> 1u64, 2 * i + 1) == bit_of(h, 2 * i + 2));
            }
            assert forall|i: int| 0 <= i < 32 implies #[trigger] even_at(s_hi, i) == odd_at(h, i) && !odd_at(s_hi, i) by {
                assert(bit_of(h >> 1u64, 2 * i) == bit_of(h, 2 * i + 1));
            }
            assert forall|i: int| 0 <= i < 32 implies !#[trigger] odd_at(tv, i) && even_at(tv, i) == (odd_at(h, i) == even_at(h, i)) by {
                assert(even_at(s_lo, i) == even_at(h, i) && !odd_at(s_lo, i));
                assert(even_at(s_hi, i) == odd_at(h, i) && !odd_at(s_hi, i));
            }
            assert forall|i: int| 0 <= i < 32 implies !#[trigger] odd_at(fv, i) && even_at(fv, i) == (odd_at(h, i) && even_at(h, i)) by {
                assert(even_at(s_lo, i) == even_at(h, i) && !odd_at(s_lo, i));
                assert(even_at(s_hi, i) == odd_at(h, i) && !odd_at(s_hi, i));
            }
            assert forall|j: int| 0 <= j < 32 implies #[trigger] even_at(swap, j) == index_frame(h, j).0 && even_at(flip, j) == index_frame(h, j).1 by {
                lemma_lane_parity(tv, h, j, true);
                lemma_lane_parity(fv, h, j, false);
                assert(bit_of(ts >> 1u64, 2 * j) == bit_of(ts, 2 * j + 1));
                assert(bit_of(fs >> 1u64, 2 * j) == bit_of(fs, 2 * j + 1));
            }
            assert forall|j: int| 0 <= j < 32 implies #[trigger] even_at(code, j) == cell_x(h, j) && odd_at(code, j) == cell_y(h, j) by {
                assert(even_at(s_lo, j) == even_at(h, j));
                assert(even_at(s_hi, j) == odd_at(h, j));
                lemma_lane_parity(tv, h, j, true);
                lemma_lane_parity(fv, h, j, false);
                assert(bit_of(ts >> 1u64, 2 * j) == bit_of(ts, 2 * j + 1));
                assert(bit_of(fs >> 1u64, 2 * j) == bit_of(fs, 2 * j + 1));
                assert(bit_of(y << 1u64, 2 * j + 1) == bit_of(y, 2 * j));
                if j > 0 {
                    assert(bit_of(y << 1u64, 2 * j) == bit_of(y, 2 * j - 1));
                    assert(odd_at(x, j - 1) == false) by {
                        assert(!odd_at(swap, j - 1) && !odd_at(flip, j - 1));
                        assert(!odd_at(s_hi, j - 1) && !odd_at(s_lo, j - 1));
                    }
                    assert(odd_at(y, j - 1) == false) by {
                        assert(!odd_at(swap, j - 1) && !odd_at(flip, j - 1));
                        assert(!odd_at(s_hi, j - 1) && !odd_at(s_lo, j - 1));
                    }
                }
                assert(bit_of(x, 2 * j + 1) == false) by {
                    assert(!odd_at(swap, j) && !odd_at(flip, j));
                    assert(!odd_at(s_hi, j) && !odd_at(s_lo, j));
                }
            }
        }
        Morton2::from_code(code)
    }
}

} // verus!
