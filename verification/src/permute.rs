//! Bit permutations of an 8×8 board: bit `8 r + c` is row `r`, column `c`.
//!
//! Transposes, flips and rotations as delta swaps and byte or bit
//! reversals, and the sliding moves of a chess piece as a shift and a fill.
use vstd::prelude::*;
use crate::bits::{delta_swap_of, Bits};
use crate::fill::reach;
use crate::model::{bit_of, group_bits, lemma_bits_eq};

verus! {

broadcast use group_bits;

/// Bit of the cell at row `r`, column `c` of a board.
pub open spec fn cell(x: u64, r: int, c: int) -> bool {
    bit_of(x, 8 * r + c)
}

/// `u64::swap_bytes`: reverses the byte order, so byte `j` of the result
/// is byte `7 - j` of `x`.
#[verifier::external_body]
fn swap_bytes64(x: u64) -> (r: u64)
    ensures
        forall|r8: int, c: int| 0 <= r8 < 8 && 0 <= c < 8 ==> #[trigger] cell(r, r8, c) == cell(x, 7 - r8, c),
{
    x.swap_bytes()
}

/// `u64::reverse_bits`: reverses the bit order, so bit `i` of the result is
/// bit `63 - i` of `x`.
#[verifier::external_body]
fn reverse_bits64(x: u64) -> (r: u64)
    ensures
        forall|i: int| 0 <= i < 64 ==> #[trigger] bit_of(r, i) == bit_of(x, 63 - i),
{
    x.reverse_bits()
}

proof fn lemma_delta_ok(mask: u64, s: u32)
    requires
        s < 64,
        mask & (mask << (s as u64)) == 0,
        (mask << (s as u64)) >> (s as u64) == mask,
    ensures
        <u64 as Bits>::delta_ok(mask, s),
{
}

proof fn lemma_transpose_raw(x: u64, r: u64, c: u64)
    by (bit_vector)
    requires
        r < 8,
        c < 8,
    ensures
        ({
            let a = delta_swap_of(x, 0x00AA_00AA_00AA_00AA, 7);
            let b = delta_swap_of(a, 0x0000_CCCC_0000_CCCC, 14);
            let t = delta_swap_of(b, 0x0000_0000_F0F0_F0F0, 28);
            ((t >> ((8 * r + c) as u64)) & 1 == 1) == ((x >> ((8 * c + r) as u64)) & 1 == 1)
        }),
{
}

proof fn lemma_mirror_raw(x: u64, r: u64, c: u64)
    by (bit_vector)
    requires
        r < 8,
        c < 8,
    ensures
        ({
            let a = delta_swap_of(x, 0x5555_5555_5555_5555, 1);
            let b = delta_swap_of(a, 0x3333_3333_3333_3333, 2);
            let t = delta_swap_of(b, 0x0F0F_0F0F_0F0F_0F0F, 4);
            ((t >> ((8 * r + c) as u64)) & 1 == 1) == ((x >> ((8 * r + 7 - c) as u64)) & 1 == 1)
        }),
{
}

proof fn lemma_masks_ok()
    ensures
        <u64 as Bits>::delta_ok(0x00AA_00AA_00AA_00AA, 7),
        <u64 as Bits>::delta_ok(0x0000_CCCC_0000_CCCC, 14),
        <u64 as Bits>::delta_ok(0x0000_0000_F0F0_F0F0, 28),
        <u64 as Bits>::delta_ok(0x5555_5555_5555_5555, 1),
        <u64 as Bits>::delta_ok(0x3333_3333_3333_3333, 2),
        <u64 as Bits>::delta_ok(0x0F0F_0F0F_0F0F_0F0F, 4),
{
    assert(0x00AA_00AA_00AA_00AAu64 & (0x00AA_00AA_00AA_00AAu64 << 7u64) == 0
        && (0x00AA_00AA_00AA_00AAu64 << 7u64) >> 7u64 == 0x00AA_00AA_00AA_00AAu64
        && 0x0000_CCCC_0000_CCCCu64 & (0x0000_CCCC_0000_CCCCu64 << 14u64) == 0
        && (0x0000_CCCC_0000_CCCCu64 << 14u64) >> 14u64 == 0x0000_CCCC_0000_CCCCu64
        && 0x0000_0000_F0F0_F0F0u64 & (0x0000_0000_F0F0_F0F0u64 << 28u64) == 0
        && (0x0000_0000_F0F0_F0F0u64 << 28u64) >> 28u64 == 0x0000_0000_F0F0_F0F0u64
        && 0x5555_5555_5555_5555u64 & (0x5555_5555_5555_5555u64 << 1u64) == 0
        && (0x5555_5555_5555_5555u64 << 1u64) >> 1u64 == 0x5555_5555_5555_5555u64
        && 0x3333_3333_3333_3333u64 & (0x3333_3333_3333_3333u64 << 2u64) == 0
        && (0x3333_3333_3333_3333u64 << 2u64) >> 2u64 == 0x3333_3333_3333_3333u64
        && 0x0F0F_0F0F_0F0F_0F0Fu64 & (0x0F0F_0F0F_0F0F_0F0Fu64 << 4u64) == 0
        && (0x0F0F_0F0F_0F0F_0F0Fu64 << 4u64) >> 4u64 == 0x0F0F_0F0F_0F0F_0F0Fu64) by (bit_vector);
}

/// Reflects the board in its main diagonal: cell `(r, c)` goes to `(c, r)`.
/// Three delta swaps.
pub fn transpose(x: u64) -> (r: u64)
    ensures
        forall|r8: int, c: int| 0 <= r8 < 8 && 0 <= c < 8 ==> #[trigger] cell(r, r8, c) == cell(x, c, r8),
{
    proof {
        lemma_masks_ok();
    }
    let a = x.delta_swap(0x00AA_00AA_00AA_00AA, 7);
    let b = a.delta_swap(0x0000_CCCC_0000_CCCC, 14);
    let t = b.delta_swap(0x0000_0000_F0F0_F0F0, 28);
    proof {
        assert forall|r8: int, c: int| 0 <= r8 < 8 && 0 <= c < 8 implies #[trigger] cell(t, r8, c) == cell(x, c, r8) by {
            lemma_transpose_raw(x, r8 as u64, c as u64);

        }
    }
    t
}

/// Flips the board top to bottom: rank `r` goes to `7 - r`. A byte swap.
pub fn flip_vertical(x: u64) -> (r: u64)
    ensures
        forall|r8: int, c: int| 0 <= r8 < 8 && 0 <= c < 8 ==> #[trigger] cell(r, r8, c) == cell(x, 7 - r8, c),
{
    swap_bytes64(x)
}

/// Mirrors the board left to right: file `c` goes to `7 - c`. Three delta
/// swaps reverse the bits of every byte.
pub fn mirror_horizontal(x: u64) -> (r: u64)
    ensures
        forall|r8: int, c: int| 0 <= r8 < 8 && 0 <= c < 8 ==> #[trigger] cell(r, r8, c) == cell(x, r8, 7 - c),
{
    proof {
        lemma_masks_ok();
    }
    let a = x.delta_swap(0x5555_5555_5555_5555, 1);
    let b = a.delta_swap(0x3333_3333_3333_3333, 2);
    let t = b.delta_swap(0x0F0F_0F0F_0F0F_0F0F, 4);
    proof {
        assert forall|r8: int, c: int| 0 <= r8 < 8 && 0 <= c < 8 implies #[trigger] cell(t, r8, c) == cell(x, r8, 7 - c) by {
            lemma_mirror_raw(x, r8 as u64, c as u64);

        }
    }
    t
}

/// Rotates the board a quarter turn clockwise: cell `(r, c)` goes to
/// `(7 - c, r)`.
pub fn rotate_90_cw(x: u64) -> (r: u64)
    ensures
        forall|r8: int, c: int| 0 <= r8 < 8 && 0 <= c < 8 ==> #[trigger] cell(r, r8, c) == cell(x, c, 7 - r8),
{
    let t = transpose(x);
    let r = flip_vertical(t);
    proof {
        assert forall|r8: int, c: int| 0 <= r8 < 8 && 0 <= c < 8 implies #[trigger] cell(r, r8, c) == cell(x, c, 7 - r8) by {
            assert(cell(t, 7 - r8, c) == cell(x, c, 7 - r8));
        }
    }
    r
}

/// Rotates the board a quarter turn counter-clockwise: cell `(r, c)` goes
/// to `(c, 7 - r)`.
pub fn rotate_90_ccw(x: u64) -> (r: u64)
    ensures
        forall|r8: int, c: int| 0 <= r8 < 8 && 0 <= c < 8 ==> #[trigger] cell(r, r8, c) == cell(x, 7 - c, r8),
{
    let f = flip_vertical(x);
    let r = transpose(f);
    proof {
        assert forall|r8: int, c: int| 0 <= r8 < 8 && 0 <= c < 8 implies #[trigger] cell(r, r8, c) == cell(x, 7 - c, r8) by {
            assert(cell(f, c, r8) == cell(x, 7 - c, r8));
        }
    }
    r
}

/// Rotates the board half a turn: cell `(r, c)` goes to `(7 - r, 7 - c)`.
/// A bit reversal.
pub fn rotate_180(x: u64) -> (r: u64)
    ensures
        forall|r8: int, c: int| 0 <= r8 < 8 && 0 <= c < 8 ==> #[trigger] cell(r, r8, c) == cell(x, 7 - r8, 7 - c),
{
    let r = reverse_bits64(x);
    proof {
        assert forall|r8: int, c: int| 0 <= r8 < 8 && 0 <= c < 8 implies #[trigger] cell(r, r8, c) == cell(x, 7 - r8, 7 - c) by {
            assert(bit_of(r, 8 * r8 + c) == bit_of(x, 63 - (8 * r8 + c)));
        }
    }
    r
}

/// The a-file: bit 0 of every byte.
pub const FILE_A: u64 = 0x0101_0101_0101_0101;
/// The h-file: bit 7 of every byte.
pub const FILE_H: u64 = 0x8080_8080_8080_8080;

/// The eight directions a sliding piece moves in; north is up the ranks
/// (`+8`), east up the files (`+1`).
#[derive(Clone, Copy, Debug, PartialEq, Eq, Structural)]
pub enum Dir {
    North,
    South,
    East,
    West,
    NorthEast,
    NorthWest,
    SouthEast,
    SouthWest,
}

/// The shift of a direction, whether it goes up, and the cells it may land
/// on without wrapping a file.
pub open spec fn step_of(d: Dir) -> (u32, bool, u64) {
    match d {
        Dir::North => (8, true, 0xffff_ffff_ffff_ffffu64),
        Dir::South => (8, false, 0xffff_ffff_ffff_ffffu64),
        Dir::East => (1, true, !FILE_A),
        Dir::West => (1, false, !FILE_H),
        Dir::NorthEast => (9, true, !FILE_A),
        Dir::NorthWest => (7, true, !FILE_H),
        Dir::SouthEast => (7, false, !FILE_A),
        Dir::SouthWest => (9, false, !FILE_H),
    }
}

/// Every cell moved one step in a direction, cells leaving the board
/// dropped.
pub open spec fn shift_of(d: Dir, x: u64) -> u64 {
    let (s, up, keep) = step_of(d);
    (if up { x << (s as u64) } else { x >> (s as u64) }) & keep
}

impl Dir {
    fn step(self) -> (r: (u32, bool, u64))
        ensures
            r == step_of(self),
    {
        match self {
            Dir::North => (8, true, 0xffff_ffff_ffff_ffff),
            Dir::South => (8, false, 0xffff_ffff_ffff_ffff),
            Dir::East => (1, true, !FILE_A),
            Dir::West => (1, false, !FILE_H),
            Dir::NorthEast => (9, true, !FILE_A),
            Dir::NorthWest => (7, true, !FILE_H),
            Dir::SouthEast => (7, false, !FILE_A),
            Dir::SouthWest => (9, false, !FILE_H),
        }
    }

    /// Every piece moved one step in this direction; pieces that would
    /// leave the board, or wrap around a file, drop off.
    pub fn shift(self, x: u64) -> (r: u64)
        ensures
            r == shift_of(self, x),
    {
        let (s, up, keep) = self.step();
        (if up { x << s } else { x >> s }) & keep
    }
}

/// The cells a sliding piece in `pieces` attacks in `dir` through `empty`:
/// every cell reached step by step until the first occupied cell, which is
/// included, or the edge.
pub fn slide(pieces: u64, empty: u64, dir: Dir) -> (r: u64)
    ensures
        ({
            let (s, up, keep) = step_of(dir);
            r == shift_of(dir, reach_fill(pieces, empty & keep, s as int, up))
        }),
{
    let (s, up, keep) = dir.step();
    let propagate = empty & keep;
    let filled = if up {
        pieces.fill_up(propagate, s)
    } else {
        pieces.fill_down(propagate, s)
    };
    proof {
        assert(filled == reach_fill(pieces, propagate, s as int, up)) by {
            assert forall|i: int| 0 <= i < 64 implies #[trigger] bit_of(filled, i) == bit_of(reach_fill(pieces, propagate, s as int, up), i) by {
                lemma_reach_fill(pieces, propagate, s as int, up);
            }
            lemma_bits_eq(filled, reach_fill(pieces, propagate, s as int, up));
        }
    }
    dir.shift(filled)
}

/// The fill a slide starts from: the cells reached from `x` by steps of
/// `s` (up or down) through `p`.
pub open spec fn reach_fill(x: u64, p: u64, s: int, up: bool) -> u64 {
    reach_word(x, p, if up { s } else { -s }, 64)
}

/// The bits of the fill are the reached cells.
pub proof fn lemma_reach_fill(x: u64, p: u64, s: int, up: bool)
    ensures
        forall|i: int| 0 <= i < 64 ==> #[trigger] bit_of(reach_fill(x, p, s, up), i) == reach(x, p, if up { s } else { -s }, i, 64),
{
    lemma_reach_word(x, p, if up { s } else { -s }, 64);
}

/// The word whose bits below `n` are the reached cells.
pub open spec fn reach_word(x: u64, p: u64, step: int, n: int) -> u64
    decreases n,
{
    if n <= 0 {
        0
    } else {
        reach_word(x, p, step, n - 1) | (if reach(x, p, step, n - 1, 64) && n - 1 < 64 { 1u64 << ((n - 1) as u64) } else { 0 })
    }
}

proof fn lemma_reach_word(x: u64, p: u64, step: int, n: int)
    requires
        0 <= n <= 64,
    ensures
        forall|i: int| #[trigger] bit_of(reach_word(x, p, step, n), i) == (0 <= i < n && reach(x, p, step, i, 64)),
    decreases n,
{
    if n > 0 {
        lemma_reach_word(x, p, step, n - 1);
        let prev = reach_word(x, p, step, n - 1);
        let add = if reach(x, p, step, n - 1, 64) && n - 1 < 64 { 1u64 << ((n - 1) as u64) } else { 0 };
        assert(reach_word(x, p, step, n) == prev | add);
        assert forall|i: int| #[trigger] bit_of(reach_word(x, p, step, n), i) == (0 <= i < n && reach(x, p, step, i, 64)) by {
            assert(bit_of(prev | add, i) == (bit_of(prev, i) || bit_of(add, i)));
        }
    }
}

/// The rank and file step of a direction.
pub open spec fn delta_of(d: Dir) -> (int, int) {
    match d {
        Dir::North => (1, 0),
        Dir::South => (-1, 0),
        Dir::East => (0, 1),
        Dir::West => (0, -1),
        Dir::NorthEast => (1, 1),
        Dir::NorthWest => (1, -1),
        Dir::SouthEast => (-1, 1),
        Dir::SouthWest => (-1, -1),
    }
}

/// Rank `r`, file `c` is on the board.
pub open spec fn on_board(r: int, c: int) -> bool {
    0 <= r < 8 && 0 <= c < 8
}

/// Rank `r`, file `c` is on the board and set in `x`.
pub open spec fn square(x: u64, r: int, c: int) -> bool {
    on_board(r, c) && bit_of(x, 8 * r + c)
}

/// The square at rank `r`, file `c` is attacked in direction `d` by a
/// piece at most `n` empty squares behind it: the square behind it is on
/// the board, and is a piece or an empty square itself so attacked.
pub open spec fn attacked(pieces: u64, empty: u64, d: Dir, r: int, c: int, n: int) -> bool
    decreases n,
{
    let (dr, dc) = delta_of(d);
    &&& on_board(r, c)
    &&& on_board(r - dr, c - dc)
    &&& (square(pieces, r - dr, c - dc) || (n > 0 && square(empty, r - dr, c - dc)
        && attacked(pieces, empty, d, r - dr, c - dc, n - 1)))
}

/// One step of a direction on the word is one step on the board: cell `t`
/// may be landed on, from inside the word, exactly when the square behind
/// it is on the board.
proof fn lemma_step_on_board(d: Dir, t: int)
    requires
        0 <= t < 64,
    ensures
        ({
            let (s, up, keep) = step_of(d);
            let step = if up { s as int } else { -(s as int) };
            let (dr, dc) = delta_of(d);
            &&& step == 8 * dr + dc
            &&& (bit_of(keep, t) && 0 <= t - step < 64) == on_board(t / 8 - dr, t % 8 - dc)
        }),
{
    crate::model::lemma_file_bits(t);
}

/// The fill shifted once more is the attacked squares, at every depth.
proof fn lemma_fill_attacks(pieces: u64, empty: u64, d: Dir, r: int, c: int, n: int)
    requires
        on_board(r, c),
        0 <= n,
    ensures
        ({
            let (s, up, keep) = step_of(d);
            let step = if up { s as int } else { -(s as int) };
            let t = 8 * r + c;
            (bit_of(keep, t) && 0 <= t - step < 64 && reach(pieces, empty & keep, step, t - step, n))
                == attacked(pieces, empty, d, r, c, n)
        }),
    decreases n,
{
    let (s, up, keep) = step_of(d);
    let step = if up { s as int } else { -(s as int) };
    let (dr, dc) = delta_of(d);
    let t = 8 * r + c;
    lemma_step_on_board(d, t);
    assert(t / 8 == r && t % 8 == c);
    if on_board(r - dr, c - dc) {
        let i = t - step;
        assert(i == 8 * (r - dr) + (c - dc));
        if n > 0 {
            lemma_fill_attacks(pieces, empty, d, r - dr, c - dc, n - 1);
            lemma_step_on_board(d, i);
            assert(i / 8 == r - dr && i % 8 == c - dc);
            if !(0 <= i - step < 64) {
                lemma_reach_outside(pieces, empty & keep, step, i - step, n - 1);
            }
        }
    }
}

/// Nothing outside the word is reached.
proof fn lemma_reach_outside(x: u64, p: u64, step: int, i: int, n: int)
    requires
        !(0 <= i < 64),
    ensures
        !reach(x, p, step, i, n),
    decreases n,
{
    if n > 0 {
    }
}

/// The squares [`slide`] returns are the attacked ones.
pub proof fn lemma_slide_attacks(pieces: u64, empty: u64, d: Dir, r: int, c: int)
    requires
        on_board(r, c),
    ensures
        ({
            let (s, up, keep) = step_of(d);
            bit_of(shift_of(d, reach_fill(pieces, empty & keep, s as int, up)), 8 * r + c)
                == attacked(pieces, empty, d, r, c, 64)
        }),
{
    let (s, up, keep) = step_of(d);
    let f = reach_fill(pieces, empty & keep, s as int, up);
    lemma_reach_fill(pieces, empty & keep, s as int, up);
    lemma_fill_attacks(pieces, empty, d, r, c, 64);
    let t = 8 * r + c;
    let step = if up { s as int } else { -(s as int) };
    if 0 <= t - step < 64 {
        assert(bit_of(f, t - step) == reach(pieces, empty & keep, step, t - step, 64));
    }
}

} // verus!
