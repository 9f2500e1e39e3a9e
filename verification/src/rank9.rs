//! Rank and select in O(1) over a slice of words: Vigna's rank9 directory
//! for rank, and a select inventory over the same block counts.
//!
//! The storage is the caller's. The bits are any `&[u64]`; the directory
//! is two `&[u64]` sized with [`Rank9::counts_len`] and
//! [`Rank9::select_len`] and filled once with [`Rank9::build`].
use vstd::prelude::*;
use crate::bits::Bits;
use crate::model::{bit_of, count_below, group_bits, popcount};
use crate::slice::{sbit, srank, words_pop};
use crate::word::Word;

verus! {

broadcast use group_bits;

/// Words in a block.
pub const WORDS_PER_BLOCK: usize = 8;
/// Bits in a block.
pub const BLOCK_BITS: usize = 512;
/// One inventory entry per this many set bits.
pub const ONES_PER_ENTRY: usize = 512;
/// Width of a packed in-block count.
pub const FIELD: u64 = 9;
/// Mask of a packed in-block count.
pub const FIELD_MASK: u64 = 0x1ff;

/// Bit 0 of every 9-bit lane.
pub const ONES_STEP_9: u64 = 0x0040_2010_0804_0201;
/// The top bit of every 9-bit lane.
pub const MSBS_STEP_9: u64 = 0x0040_2010_0804_0201 << 8;
/// Bit 0 of every 16-bit lane.
pub const ONES_STEP_16: u64 = 0x0001_0001_0001_0001;
/// The top bit of every 16-bit lane.
pub const MSBS_STEP_16: u64 = 0x0001_0001_0001_0001 << 15;
/// A 16-bit lane no in-range count ever reaches: padding.
pub const PAD_16: u64 = 0x7fff;

/// Lane `l` of nine bits.
pub open spec fn lane9(x: u64, l: int) -> u64 {
    (x >> ((9 * l) as u64)) & 0x1ff
}

/// Lane `l` of sixteen bits.
pub open spec fn lane16(x: u64, l: int) -> u64 {
    (x >> ((16 * l) as u64)) & 0xffff
}

/// The 9-bit lane compare as a formula.
pub open spec fn uleq9_of(x: u64, y: u64) -> u64 {
    ((((y | MSBS_STEP_9) - (x & !MSBS_STEP_9)) as u64 | (x ^ y)) ^ (x & !y)) & MSBS_STEP_9
}

/// The 16-bit lane compare as a formula.
pub open spec fn uleq16_of(x: u64, y: u64) -> u64 {
    (((y | MSBS_STEP_16) - x) as u64) & MSBS_STEP_16
}

proof fn lemma_uleq_raw(x: u64, y: u64, l: u64, m: u64)
    by (bit_vector)
    requires
        l < 7,
        m < 4,
    ensures
        x >> 63 == 0 ==> (y | MSBS_STEP_9) >= (x & !MSBS_STEP_9),
        (y | MSBS_STEP_9) >= (x & !MSBS_STEP_9) ==> (((uleq9_of(x, y) >> (9 * l + 8)) & 1 == 1) == (((x >> (9 * l)) & 0x1ff) <= ((y
            >> (9 * l)) & 0x1ff))),
        uleq9_of(x, y) & !MSBS_STEP_9 == 0,
        uleq16_of(x, y) & !MSBS_STEP_16 == 0,
        (x & MSBS_STEP_16 == 0 && y & MSBS_STEP_16 == 0) ==> (y | MSBS_STEP_16) >= x,
        (y | MSBS_STEP_16) >= x && x & MSBS_STEP_16 == 0 && y & MSBS_STEP_16 == 0 ==> ((uleq16_of(x, y) >> (16 * m + 15)) & 1
            == 1) == (((x >> (16 * m)) & 0xffff) <= ((y >> (16 * m)) & 0xffff)),
{
}

/// Per 9-bit lane: the top bit set iff `x <= y` (unsigned, full lane).
/// Hacker's Delight's lane compare, as in Vigna's rank9. The subtraction
/// must not underflow, which holds whenever bit 63 of `x` is clear.
pub fn uleq_step9(x: u64, y: u64) -> (r: u64)
    requires
        (y | MSBS_STEP_9) >= (x & !MSBS_STEP_9),
    ensures
        r == uleq9_of(x, y),
        forall|l: int| 0 <= l < 7 ==> #[trigger] bit_of(r, 9 * l + 8) == (lane9(x, l) <= lane9(y, l)),
        r & !MSBS_STEP_9 == 0,
{
    proof {
        lemma_uleq_raw(x, y, 0, 0);
    }
    let r = ((((y | MSBS_STEP_9) - (x & !MSBS_STEP_9)) | (x ^ y)) ^ (x & !y)) & MSBS_STEP_9;
    proof {
        assert forall|l: int| 0 <= l < 7 implies #[trigger] bit_of(r, 9 * l + 8) == (lane9(x, l) <= lane9(y, l)) by {
            lemma_uleq_raw(x, y, l as u64, 0);
        }
    }
    r
}

/// Per 16-bit lane: the top bit set iff `x <= y`, for lanes below `2^15` on
/// both sides, so no lane borrows from its neighbour. The subtraction must
/// not underflow, which holds whenever the lanes are that small.
pub fn uleq_step16_small(x: u64, y: u64) -> (r: u64)
    requires
        (y | MSBS_STEP_16) >= x,
    ensures
        r == uleq16_of(x, y),
        x & MSBS_STEP_16 == 0 && y & MSBS_STEP_16 == 0 ==> forall|l: int| 0 <= l < 4 ==> #[trigger] bit_of(r, 16 * l + 15) == (lane16(x, l) <= lane16(y, l)),
        r & !MSBS_STEP_16 == 0,
{
    proof {
        lemma_uleq_raw(x, y, 0, 0);
    }
    let r = ((y | MSBS_STEP_16) - x) & MSBS_STEP_16;
    proof {
        if x & MSBS_STEP_16 == 0 && y & MSBS_STEP_16 == 0 {
            assert forall|l: int| 0 <= l < 4 implies #[trigger] bit_of(r, 16 * l + 15) == (lane16(x, l) <= lane16(y, l)) by {
                lemma_uleq_raw(x, y, 0, l as u64);
            }
        }
    }
    r
}

/// What an inventory entry stores about its 512 set bits, chosen by the
/// number of blocks between it and the next entry.
#[derive(Clone, Copy, Debug, PartialEq, Eq, Structural)]
pub enum Span {
    /// Up to four blocks: nothing stored, up to three compares of the block
    /// counts themselves.
    Tiny,
    /// `4..16` blocks: 16 lanes of 16-bit block counts relative to the
    /// entry's block, one SWAR compare over four words.
    Flat,
    /// `16..64` blocks: eight 16-bit counts every eight blocks, then eight
    /// per-block counts for each of those groups; two compares.
    Two,
    /// `64..128` blocks: the 16-bit position of every set bit, relative to
    /// the entry's block.
    Pos16,
    /// `128..2^23` blocks: the same as 32-bit positions.
    Pos32,
    /// Longer: binary search over the block counts.
    Search,
}

/// The kind of span that `blocks` blocks between two entries get.
pub open spec fn span_of(blocks: int) -> Span {
    if blocks <= 3 {
        Span::Tiny
    } else if blocks <= 15 {
        Span::Flat
    } else if blocks <= 63 {
        Span::Two
    } else if blocks <= 127 {
        Span::Pos16
    } else if blocks <= 0x7f_ffff {
        Span::Pos32
    } else {
        Span::Search
    }
}

impl Span {
    /// The kind of span that `blocks` blocks between two entries get.
    pub fn of(blocks: usize) -> (r: Span)
        ensures
            r == span_of(blocks as int),
    {
        if blocks <= 3 {
            Span::Tiny
        } else if blocks <= 15 {
            Span::Flat
        } else if blocks <= 63 {
            Span::Two
        } else if blocks <= 127 {
            Span::Pos16
        } else if blocks <= 0x7f_ffff {
            Span::Pos32
        } else {
            Span::Search
        }
    }
}


// --- the directory as a model ---------------------------------------------

/// Blocks of eight words that `n` words fill, the last one possibly short.
pub open spec fn blocks_of(n: int) -> int {
    (n + 7) / 8
}

/// Set bits in the words before word `j`; all of them from the end on.
pub open spec fn pop_before(s: Seq<u64>, j: int) -> int {
    if j <= s.len() {
        words_pop(s, j)
    } else {
        words_pop(s, s.len() as int)
    }
}

/// Field `j` (in `1..8`) of a packed word of in-block counts.
pub open spec fn field_of(packed: u64, j: int) -> u64 {
    (packed >> ((9 * (j - 1)) as u64)) & 0x1ff
}

/// The count of set bits before block `b`, as the directory stores it.
pub open spec fn before_block(c: Seq<u64>, b: int) -> u64 {
    c[2 * b]
}

/// The packed in-block counts of block `b`, as the directory stores them.
pub open spec fn packed_at(c: Seq<u64>, b: int) -> u64 {
    c[2 * b + 1]
}

/// `packed` holds, in field `j`, the set bits of block `b` before its
/// word `j` (a missing word counting as the block's last), bit 63 clear.
pub open spec fn packed_ok(s: Seq<u64>, b: int, packed: u64) -> bool {
    &&& packed >> 63 == 0
    &&& forall|j: int|
        1 <= j < 8 ==> #[trigger] field_of(packed, j) == pop_before(s, 8 * b + j) - pop_before(s, 8 * b)
}

/// `c` is the rank directory of the bits `s`: per block the set bits
/// before it and the packed counts inside it, and a trailing total.
pub open spec fn counts_ok(s: Seq<u64>, c: Seq<u64>) -> bool {
    let nb = blocks_of(s.len() as int);
    &&& c.len() >= 2 * nb + 2
    &&& forall|b: int| 0 <= b <= nb ==> #[trigger] before_block(c, b) == pop_before(s, 8 * b)
    &&& forall|b: int| 0 <= b < nb ==> packed_ok(s, b, #[trigger] packed_at(c, b))
}

/// Block `b` holds set bit number `k`.
pub open spec fn holds_bit(s: Seq<u64>, b: int, k: int) -> bool {
    &&& 0 <= b < blocks_of(s.len() as int)
    &&& pop_before(s, 8 * b) <= k < pop_before(s, 8 * b + 8)
}

/// Inventory entries for `ones` set bits: one per 512.
pub open spec fn entries_of(ones: int) -> int {
    (ones + 511) / 512
}

/// The inventory part of `sel`: entry `i` names the block holding set bit
/// `512 i`, and a last entry the number of blocks.
pub open spec fn inventory_ok(s: Seq<u64>, sel: Seq<u64>) -> bool {
    let nb = blocks_of(s.len() as int);
    let e = entries_of(pop_before(s, s.len() as int));
    &&& sel.len() >= 3 * nb + 2
    &&& e <= nb
    &&& sel[e] == nb
    &&& forall|i: int| 0 <= i < e ==> holds_bit(s, #[trigger] sel[i] as int, 512 * i)
}

/// Set bits before block `lo + 1 + j` counted from block `lo`; past `hi`
/// a padding no count reaches.
pub open spec fn rel_count(s: Seq<u64>, lo: int, hi: int, j: int) -> int {
    if lo + 1 + j <= hi {
        pop_before(s, 8 * (lo + 1 + j)) - pop_before(s, 8 * lo)
    } else {
        0x7fff
    }
}

/// Four 16-bit lanes, lane 0 lowest.
pub open spec fn lanes4(a: u64, b: u64, c: u64, d: u64) -> u64 {
    a | (b << 16u64) | (c << 32u64) | (d << 48u64)
}

/// Two 32-bit lanes, lane 0 lowest.
pub open spec fn lanes2(a: u64, b: u64) -> u64 {
    a | (b << 32u64)
}

/// The position of set bit number `q`.
pub open spec fn sel_pos(s: Seq<u64>, q: int) -> int {
    choose|p: int| sbit(s, p) && srank(s, p) == q
}

/// How many positions entry `i` stores: the set bits from `512 i` on, at
/// most 512.
pub open spec fn stored_of(s: Seq<u64>, i: int) -> int {
    let rest = pop_before(s, s.len() as int) - 512 * i;
    if rest < 512 {
        rest
    } else {
        512
    }
}

/// Stored position `t` of entry `i` whose first block is `lo`, relative to
/// the block; zero past what the entry stores.
pub open spec fn stored_pos(s: Seq<u64>, i: int, lo: int, t: int) -> u64 {
    if 0 <= t < stored_of(s, i) {
        (sel_pos(s, 512 * i + t) - 512 * lo) as u64
    } else {
        0
    }
}

/// Word `w` of the pool region of entry `i`, whose blocks run from `lo` to
/// `hi`: what the entry's kind of span stores there.
pub open spec fn pool_word(s: Seq<u64>, i: int, lo: int, hi: int, w: int) -> u64 {
    let rel = |j: int| rel_count(s, lo, hi, j) as u64;
    let pos = |t: int| stored_pos(s, i, lo, t);
    match span_of(hi - lo) {
        Span::Flat => if w < 4 {
            lanes4(rel(4 * w), rel(4 * w + 1), rel(4 * w + 2), rel(4 * w + 3))
        } else {
            0
        },
        Span::Two => if w < 2 {
            lanes4(rel(32 * w + 7), rel(32 * w + 15), rel(32 * w + 23), rel(32 * w + 31))
        } else if w < 18 {
            let j = 8 * ((w - 2) / 2) + 4 * ((w - 2) % 2);
            lanes4(rel(j), rel(j + 1), rel(j + 2), rel(j + 3))
        } else {
            0
        },
        Span::Pos16 => lanes4(pos(4 * w), pos(4 * w + 1), pos(4 * w + 2), pos(4 * w + 3)),
        Span::Pos32 => lanes2(pos(2 * w), pos(2 * w + 1)),
        _ => 0,
    }
}

/// Word `w` of the pool region starting at block `lo`.
pub open spec fn region_word(sel: Seq<u64>, nb: int, lo: int, w: int) -> u64 {
    sel[nb + 1 + 2 * lo + w]
}

/// The pool region of entry `i` holds what its span stores.
pub open spec fn entry_ok(s: Seq<u64>, sel: Seq<u64>, i: int) -> bool {
    let nb = blocks_of(s.len() as int);
    let lo = sel[i] as int;
    let hi = sel[i + 1] as int;
    forall|w: int| 0 <= w < 2 * (hi - lo) ==> #[trigger] region_word(sel, nb, lo, w) == pool_word(s, i, lo, hi, w)
}

/// The pool part of `sel`: every entry's region.
pub open spec fn pool_ok(s: Seq<u64>, sel: Seq<u64>) -> bool {
    forall|i: int| 0 <= i < entries_of(pop_before(s, s.len() as int)) ==> #[trigger] entry_ok(s, sel, i)
}

/// The directory: rank counts, and the select inventory unless `sel` is
/// empty.
pub open spec fn directory_ok(s: Seq<u64>, c: Seq<u64>, sel: Seq<u64>) -> bool {
    &&& counts_ok(s, c)
    &&& sel.len() != 0 ==> inventory_ok(s, sel) && pool_ok(s, sel)
}

/// Set bits in words `a..b` number at most 64 per word.
pub proof fn lemma_pop_diff(s: Seq<u64>, a: int, b: int)
    requires
        0 <= a <= b,
    ensures
        0 <= pop_before(s, b) - pop_before(s, a) <= 64 * (b - a),
    decreases b - a,
{
    if a < b {
        lemma_pop_diff(s, a, b - 1);
        if b <= s.len() {
            crate::model::lemma_count_below_bounds(s[b - 1], 64);
        }
    }
    crate::slice::lemma_words_pop_bounds(s, s.len() as int);
}

/// The stored count before block `b` never decreases with `b`.
proof fn lemma_counts_mono(s: Seq<u64>, c: Seq<u64>, a: int, b: int)
    requires
        counts_ok(s, c),
        0 <= a <= b <= blocks_of(s.len() as int),
    ensures
        before_block(c, a) <= before_block(c, b),
        before_block(c, b) - before_block(c, a) <= 512 * (b - a),
{
    assert(before_block(c, a) == pop_before(s, 8 * a));
    assert(before_block(c, b) == pop_before(s, 8 * b));
    lemma_pop_diff(s, 8 * a, 8 * b);
}

/// The last stored count is the number of set bits.
proof fn lemma_counts_total(s: Seq<u64>, c: Seq<u64>)
    requires
        counts_ok(s, c),
    ensures
        before_block(c, blocks_of(s.len() as int)) == pop_before(s, s.len() as int),
        8 * blocks_of(s.len() as int) >= s.len(),
        8 * blocks_of(s.len() as int) < s.len() + 8,
{
    assert(before_block(c, blocks_of(s.len() as int)) == pop_before(s, 8 * blocks_of(s.len() as int)));
}

/// A block whose stored counts bracket `k` holds set bit `k`.
proof fn lemma_bracket_holds(s: Seq<u64>, c: Seq<u64>, b: int, k: int)
    requires
        counts_ok(s, c),
        0 <= b,
        b + 1 <= blocks_of(s.len() as int),
        before_block(c, b) <= k < before_block(c, b + 1),
    ensures
        holds_bit(s, b, k),
{
    assert(before_block(c, b) == pop_before(s, 8 * b));
    assert(before_block(c, b + 1) == pop_before(s, 8 * (b + 1)));
}

/// Rank/select directory over a borrowed bit slice.
#[derive(Clone, Copy, Debug)]
pub struct Rank9<'a> {
    bits: &'a [u64],
    /// Per block `b` of eight words: `counts[2b]` is the number of set bits
    /// before the block; `counts[2b + 1]` packs, for `j` in `1..8`, the set
    /// bits before word `j` of the block, nine bits each at bit `9 (j - 1)`.
    /// A trailing pair holds the total.
    counts: &'a [u64],
    /// `select[..blocks + 1]` is the inventory: entry `i` is the block
    /// holding set bit `512 i`, and a last entry the number of blocks.
    /// `select[blocks + 1..]` is the pool, two words per block. Empty
    /// without the select part.
    select: &'a [u64],
    blocks: usize,
    ones: usize,
}

impl<'a> Rank9<'a> {
    #[verifier::type_invariant]
    spec fn wf(self) -> bool {
        &&& self.bits@.len() * 64 <= usize::MAX
        &&& self.blocks == blocks_of(self.bits@.len() as int)
        &&& self.ones == pop_before(self.bits@, self.bits@.len() as int)
        &&& directory_ok(self.bits@, self.counts@, self.select@)
    }

    /// The bits the directory indexes.
    pub closed spec fn bits_view(&self) -> Seq<u64> {
        self.bits@
    }

    /// Whether the select inventory is there.
    pub closed spec fn has_select_view(&self) -> bool {
        self.select@.len() != 0
    }

    fn blocks(words: usize) -> (r: usize)
        ensures
            r == blocks_of(words as int),
    {
        words / 8 + if words % 8 != 0 { 1 } else { 0 }
    }

    /// Words of `counts` that [`build`](Self::build) needs for `words` words
    /// of bits.
    pub fn counts_len(words: usize) -> (r: usize)
        ensures
            r == 2 * blocks_of(words as int) + 2,
    {
        2 * (Self::blocks(words) + 1)
    }

    /// Words of `select` that [`build`](Self::build) needs for `words`
    /// words of bits: three per block. Zero is accepted too and means no
    /// select inventory.
    pub fn select_len(words: usize) -> (r: usize)
        ensures
            r == 3 * blocks_of(words as int) + 2,
    {
        3 * Self::blocks(words) + 2
    }

    /// The directory over `counts` and `select` that [`build`](Self::build)
    /// filled for these same `bits` earlier, kept or loaded back.
    pub fn from_parts(bits: &'a [u64], counts: &'a [u64], select: &'a [u64]) -> (r: Self)
        requires
            bits@.len() * 64 <= usize::MAX,
            directory_ok(bits@, counts@, select@),
        ensures
            r.bits_view() == bits@,
            r.has_select_view() == (select@.len() != 0),
    {
        let blocks = Self::blocks(bits.len());
        proof {
            lemma_counts_total(bits@, counts@);
            crate::slice::lemma_words_pop_bounds(bits@, bits@.len() as int);
        }
        let ones = counts[2 * blocks] as usize;
        Rank9 { bits, counts, select, blocks, ones }
    }

    /// The bits this directory indexes.
    pub fn bits(&self) -> (r: &'a [u64])
        ensures
            r@ == self.bits_view(),
            r@.len() * 64 <= usize::MAX,
    {
        proof {
            use_type_invariant(self);
        }
        self.bits
    }

    /// Length in bits.
    pub fn len(&self) -> (r: usize)
        ensures
            r == 64 * self.bits_view().len(),
    {
        proof {
            use_type_invariant(self);
        }
        self.bits.len() * 64
    }

    /// `true` when there are no bits at all.
    pub fn is_empty(&self) -> (r: bool)
        ensures
            r == (self.bits_view().len() == 0),
    {
        self.bits.len() == 0
    }

    /// Number of set bits.
    pub fn count_ones(&self) -> (r: usize)
        ensures
            r == words_pop(self.bits_view(), self.bits_view().len() as int),
    {
        proof {
            use_type_invariant(self);
        }
        self.ones
    }

    /// `true` when the select inventory was built.
    pub fn has_select(&self) -> (r: bool)
        ensures
            r == self.has_select_view(),
    {
        self.select.len() != 0
    }

    /// Fills `counts` and `select` for `bits` and returns the directory over
    /// them: one pass over the bits for the counts and the inventory, one
    /// over the inventory for the pool. An empty `select` builds the rank
    /// part only.
    pub fn build(bits: &'a [u64], counts: &'a mut [u64], select: &'a mut [u64]) -> (r: Self)
        requires
            bits@.len() * 64 <= usize::MAX,
            512 * blocks_of(bits@.len() as int) <= u64::MAX,
            old(counts)@.len() >= 2 * blocks_of(bits@.len() as int) + 2,
            old(select)@.len() == 0 || old(select)@.len() >= 3 * blocks_of(bits@.len() as int) + 2,
        ensures
            r.bits_view() == bits@,
            r.has_select_view() == (old(select)@.len() != 0),
            directory_ok(bits@, final(counts)@, final(select)@),
    {
        Self::fill(bits, counts, select);
        Self::from_parts(bits, counts, select)
    }

    /// [`build`](Self::build) without the view, for owners that keep the
    /// directories and view them later.
    fn fill(bits: &[u64], counts: &mut [u64], select: &mut [u64])
        requires
            bits@.len() * 64 <= usize::MAX,
            512 * blocks_of(bits@.len() as int) <= u64::MAX,
            old(counts)@.len() >= 2 * blocks_of(bits@.len() as int) + 2,
            old(select)@.len() == 0 || old(select)@.len() >= 3 * blocks_of(bits@.len() as int) + 2,
        ensures
            directory_ok(bits@, final(counts)@, final(select)@),
            final(counts)@.len() == old(counts)@.len(),
            final(select)@.len() == old(select)@.len(),
            final(counts)@[2 * blocks_of(bits@.len() as int) + 1] == 0,
            forall|j: int| 2 * blocks_of(bits@.len() as int) + 2 <= j < old(counts)@.len() ==> #[trigger] final(counts)@[j] == old(counts)@[j],
    {
        let ghost s = bits@;
        let n = bits.len();
        let blocks = Self::blocks(n);
        let has_inv = select.len() != 0;
        let mut before: u64 = 0;
        let mut next_entry: u64 = 0;
        let mut entries: usize = 0;
        let mut b: usize = 0;
        proof {
            crate::slice::lemma_words_pop_bounds(s, n as int);
        }
        while b < blocks
            invariant
                s == bits@,
                n == s.len(),
                n * 64 <= usize::MAX,
                blocks == blocks_of(n as int),
                b <= blocks,
                counts@.len() == old(counts)@.len(),
                counts@.len() >= 2 * blocks + 2,
                select@.len() == old(select)@.len(),
                has_inv == (select@.len() != 0),
                has_inv ==> select@.len() >= 3 * blocks + 2,
                512 * blocks <= u64::MAX,
                before == pop_before(s, 8 * b),
                forall|bb: int| 0 <= bb < b ==> #[trigger] before_block(counts@, bb) == pop_before(s, 8 * bb),
                forall|bb: int| 0 <= bb < b ==> packed_ok(s, bb, #[trigger] packed_at(counts@, bb)),
                forall|j: int| 2 * blocks + 2 <= j < counts@.len() ==> #[trigger] counts@[j] == old(counts)@[j],
                next_entry == 512 * entries,
                has_inv ==> entries == entries_of(before as int),
                !has_inv ==> entries == 0,
                forall|ee: int| 0 <= ee < entries ==> holds_bit(s, #[trigger] select@[ee] as int, 512 * ee),
            decreases blocks - b,
        {
            let start = b * 8;
            let end = if start + 8 <= n { start + 8 } else { n };
            proof {
                lemma_pop_diff(s, 8 * b, end as int);
                lemma_pop_diff(s, end as int, 8 * b + 8);
                lemma_pop_diff(s, 8 * b + 8, 8 * blocks);
                lemma_pop_diff(s, n as int, 8 * blocks);
                assert(pop_before(s, 0) == 0);
                lemma_pop_diff(s, 0, 8 * b);
            }
            let mut packed: u64 = 0;
            let mut inside: u64 = 0;
            let mut j: usize = 0;
            proof {
                assert forall|jj: int| 1 <= jj < 8 implies #[trigger] field_of(packed, jj) == 0 by {
                    lemma_pack_field(0, 0, 0, 1, jj as u64);
                }
                lemma_pack_field(0, 0, 0, 1, 1);
            }
            while j < end - start
                invariant
                    s == bits@,
                    n == s.len(),
                    start == 8 * b,
                    start < end <= n,
                    end <= start + 8,
                    end == start + 8 || end == n,
                    j <= end - start,
                    packed >> 63 == 0,
                    inside == pop_before(s, start + j) - pop_before(s, start as int),
                    forall|jj: int| 1 <= jj < 8 ==> #[trigger] field_of(packed, jj) == if jj < j {
                        pop_before(s, start + jj) - pop_before(s, start as int)
                    } else {
                        0
                    },
                decreases end - start - j,
            {
                proof {
                    lemma_pop_diff(s, start as int, start + j);
                    lemma_pop_diff(s, start + j, start + j + 1);
                }
                if j > 0 {
                    let sh: u64 = FIELD * (j - 1) as u64;
                    let shifted = inside << sh;
                    proof {
                        assert(inside < 512);
                        assert(field_of(packed, j as int) == 0);
                        assert forall|jj: int| 1 <= jj < 8 implies #[trigger] field_of(packed | shifted, jj) == if jj == j {
                            inside
                        } else {
                            field_of(packed, jj)
                        } by {
                            lemma_pack_field(packed, inside, sh, j as u64, jj as u64);
                        }
                        lemma_pack_field(packed, inside, sh, j as u64, 1);
                    }
                    packed = packed | shifted;
                }
                inside = inside + Word::count_ones(bits[start + j]) as u64;
                j = j + 1;
            }
            let mut j2: usize = end - start;
            while j2 < 8
                invariant
                    s == bits@,
                    n == s.len(),
                    start == 8 * b,
                    start < end <= n,
                    end == start + 8 || end == n,
                    end - start <= j2 <= 8,
                    j2 < 8 ==> end == n,
                    packed >> 63 == 0,
                    inside == pop_before(s, end as int) - pop_before(s, start as int),
                    inside <= 64 * (end - start),
                    forall|jj: int| 1 <= jj < 8 ==> #[trigger] field_of(packed, jj) == if jj < j2 {
                        pop_before(s, start + jj) - pop_before(s, start as int)
                    } else {
                        0
                    },
                decreases 8 - j2,
            {
                proof {
                    assert(pop_before(s, start + j2) == pop_before(s, end as int));
                }
                let sh: u64 = FIELD * (j2 - 1) as u64;
                let shifted = inside << sh;
                proof {
                    assert(inside < 512);
                    assert(field_of(packed, j2 as int) == 0);
                    assert forall|jj: int| 1 <= jj < 8 implies #[trigger] field_of(packed | shifted, jj) == if jj == j2 {
                        inside
                    } else {
                        field_of(packed, jj)
                    } by {
                        lemma_pack_field(packed, inside, sh, j2 as u64, jj as u64);
                    }
                    lemma_pack_field(packed, inside, sh, j2 as u64, 1);
                }
                packed = packed | shifted;
                j2 = j2 + 1;
            }
            proof {
                assert forall|jj: int| 1 <= jj < 8 implies #[trigger] field_of(packed, jj) == pop_before(s, start + jj) - pop_before(s, start as int) by {
                    if start + jj >= end {
                        assert(end == n || start + jj >= start + 8);
                    }
                }
                assert(inside == pop_before(s, 8 * b + 8) - pop_before(s, 8 * b));
            }
            while has_inv && next_entry < before + inside
                invariant
                    s == bits@,
                    n == s.len(),
                    blocks == blocks_of(n as int),
                    b < blocks,
                    select@.len() == old(select)@.len(),
                    has_inv == (select@.len() != 0),
                    has_inv ==> select@.len() >= 3 * blocks + 2,
                    before == pop_before(s, 8 * b),
                    before + inside == pop_before(s, 8 * b + 8),
                    before + inside <= 64 * n,
                    n * 64 <= usize::MAX,
                    512 * blocks <= u64::MAX,
                    next_entry == 512 * entries,
                    has_inv ==> before <= next_entry,
                    has_inv ==> (entries == 0 || 512 * (entries - 1) < before + inside),
                    !has_inv ==> entries == 0,
                    forall|ee: int| 0 <= ee < entries ==> holds_bit(s, #[trigger] select@[ee] as int, 512 * ee),
                decreases before + inside + 512 - next_entry,
            {
                select[entries] = b as u64;
                proof {
                    assert(holds_bit(s, b as int, 512 * entries));
                }
                entries = entries + 1;
                next_entry = next_entry + 512;
            }
            let ghost old_counts = counts@;
            counts[2 * b] = before;
            counts[2 * b + 1] = packed;
            proof {
                assert(packed_ok(s, b as int, packed));
                assert(before_block(counts@, b as int) == before);
                assert(packed_at(counts@, b as int) == packed);
                assert forall|bb: int| 0 <= bb < b + 1 implies #[trigger] before_block(counts@, bb) == pop_before(s, 8 * bb) by {
                    if bb < b {
                        assert(before_block(counts@, bb) == before_block(old_counts, bb));
                    }
                }
                assert forall|bb: int| 0 <= bb < b + 1 implies packed_ok(s, bb, #[trigger] packed_at(counts@, bb)) by {
                    if bb < b {
                        assert(packed_at(counts@, bb) == packed_at(old_counts, bb));
                    }
                }
            }
            before = before + inside;
            b = b + 1;
        }
        proof {
            lemma_pop_diff(s, n as int, 8 * blocks);
        }
        let ghost old_counts = counts@;
        counts[2 * blocks] = before;
        counts[2 * blocks + 1] = 0;
        proof {
            assert forall|bb: int| 0 <= bb <= blocks implies #[trigger] before_block(counts@, bb) == pop_before(s, 8 * bb) by {
                if bb < blocks {
                    assert(before_block(counts@, bb) == before_block(old_counts, bb));
                }
            }
            assert forall|bb: int| 0 <= bb < blocks implies packed_ok(s, bb, #[trigger] packed_at(counts@, bb)) by {
                assert(packed_at(counts@, bb) == packed_at(old_counts, bb));
            }
            assert(counts_ok(s, counts@));
        }
        if !has_inv {
            return;
        }
        proof {
            assert(pop_before(s, 8 * blocks) == pop_before(s, n as int));
        }
        select[entries] = blocks as u64;
        proof {
            assert forall|ee: int| 0 <= ee < entries implies holds_bit(s, #[trigger] select@[ee] as int, 512 * ee) by {}
            assert(inventory_ok(s, select@));
        }
        let ghost counts_done = counts@;
        let mut i: usize = 0;
        while i < entries
            invariant
                s == bits@,
                n == s.len(),
                n * 64 <= usize::MAX,
                blocks == blocks_of(n as int),
                counts_ok(s, counts@),
                counts@ == counts_done,
                select@.len() == old(select)@.len(),
                select@.len() >= 3 * blocks + 2,
                entries == entries_of(pop_before(s, n as int)),
                inventory_ok(s, select@),
                i <= entries,
                forall|ii: int| 0 <= ii < i ==> #[trigger] entry_ok(s, select@, ii),
            decreases entries - i,
        {
            proof {
                lemma_entry_order(s, counts@, select@, i as int);
            }
            let lo = select[i] as usize;
            let hi = select[i + 1] as usize;
            let ghost prev = select@;
            Self::fill_entry(bits, counts, select, blocks, i, lo, hi);
            proof {
                assert forall|ee: int| 0 <= ee <= entries implies #[trigger] select@[ee] == prev[ee] by {}
                assert forall|ee: int| 0 <= ee < entries implies holds_bit(s, #[trigger] select@[ee] as int, 512 * ee) by {
                    assert(select@[ee] == prev[ee]);
                }
                assert(inventory_ok(s, select@));
                assert forall|ii: int| 0 <= ii < i + 1 implies #[trigger] entry_ok(s, select@, ii) by {
                    if ii < i {
                        lemma_entry_order(s, counts@, prev, ii);
                        lemma_inventory_le(s, counts@, prev, ii + 1, i as int);
                        assert(entry_ok(s, prev, ii));
                        let lo2 = prev[ii] as int;
                        let hi2 = prev[ii + 1] as int;
                        assert forall|w: int| 0 <= w < 2 * (hi2 - lo2) implies #[trigger] region_word(select@, blocks as int, lo2, w) == region_word(prev, blocks as int, lo2, w) by {}
                    }
                }
            }
            i = i + 1;
        }
    }

    /// Set bits before block `lo + 1 + j`, relative to block `lo`; padding
    /// past the span.
    fn rel(bits: &[u64], counts: &[u64], lo: usize, hi: usize, j: usize) -> (r: u64)
        requires
            counts_ok(bits@, counts@),
            lo < hi <= blocks_of(bits@.len() as int),
            hi - lo < 64,
            j < 64,
        ensures
            r == rel_count(bits@, lo as int, hi as int, j as int),
            r < 0x8000,
    {
        let clen = counts.len();
        if lo + 1 + j <= hi {
            proof {
                assert(before_block(counts@, lo + 1 + j) == pop_before(bits@, 8 * (lo + 1 + j)));
                assert(before_block(counts@, lo as int) == pop_before(bits@, 8 * lo));
                lemma_pop_diff(bits@, 8 * lo, 8 * (lo + 1 + j));
            }
            counts[2 * (lo + 1 + j)] - counts[2 * lo]
        } else {
            PAD_16
        }
    }

    /// Four 16-bit lanes in a word.
    fn pack4(a: u64, b: u64, c: u64, d: u64) -> (r: u64)
        ensures
            r == lanes4(a, b, c, d),
    {
        a | (b << 16) | (c << 32) | (d << 48)
    }

    /// How many of the 16-bit lanes of `select[start..start + words]` are at
    /// most `t`, `rem` holding `t` in every lane: one SWAR compare and one
    /// popcount a word. The lanes read `f`, nondecreasing.
    fn count_le16(
        select: &[u64],
        start: usize,
        words: usize,
        rem: u64,
        Ghost(f): Ghost<spec_fn(int) -> int>,
        Ghost(t): Ghost<int>,
    ) -> (r: usize)
        requires
            start + words <= select@.len(),
            words <= 4,
            0 <= t < 0x8000,
            rem == (t * ONES_STEP_16) as u64,
            forall|a: int, b: int| 0 <= a <= b < 4 * words ==> #[trigger] f(a) <= #[trigger] f(b),
            forall|j: int| 0 <= j < 4 * words ==> 0 <= #[trigger] f(j) < 0x8000,
            forall|w: int, l: int| 0 <= w < words && 0 <= l < 4 ==> #[trigger] lane16(select@[start + w], l) == f(4 * w + l),
        ensures
            r == count_le(f, t, 4 * words),
    {
        proof {
            lemma_count_le_prefix(f, t, 4 * words);
            lemma_spread16(t as u64);
        }
        let slen = select.len();
        let ghost total = count_le(f, t, 4 * words);
        let mut n: usize = 0;
        let mut w: usize = 0;
        while w < words
            invariant
                start + words <= select@.len(),
                slen == select@.len(),
                words <= 4,
                w <= words,
                0 <= t < 0x8000,
                rem == (t * ONES_STEP_16) as u64,
                rem & MSBS_STEP_16 == 0,
                forall|l: int| 0 <= l < 4 ==> #[trigger] lane16(rem, l) == t,
                0 <= total <= 4 * words,
                forall|j: int| 0 <= j < 4 * words ==> (#[trigger] f(j) <= t <==> j < total),
                forall|j: int| 0 <= j < 4 * words ==> 0 <= #[trigger] f(j) < 0x8000,
                forall|ww: int, l: int| 0 <= ww < words && 0 <= l < 4 ==> #[trigger] lane16(select@[start + ww], l) == f(4 * ww + l),
                n == if total < 4 * w { total } else { 4 * w },
            decreases words - w,
        {
            let word = select[start + w];
            proof {
                assert(lane16(word, 0) == f(4 * w));
                assert(lane16(word, 1) == f(4 * w + 1));
                assert(lane16(word, 2) == f(4 * w + 2));
                assert(lane16(word, 3) == f(4 * w + 3));
                assert forall|l: int| 0 <= l < 4 implies #[trigger] lane16(word, l) < 0x8000 by {
                    assert(lane16(word, l) == f(4 * w + l));
                }
                lemma_lanes16_small(word);
                lemma_uleq_raw(word, rem, 0, 0);
            }
            let le_mask = uleq_step16_small(word, rem);
            let ghost c = if total < 4 * w { 0 } else if total - 4 * w < 4 { total - 4 * w } else { 4 };
            proof {
                assert forall|l: int| 0 <= l < 4 implies #[trigger] lane_bit(le_mask, 16, l, 15) == (l < c) by {
                    assert(bit_of(le_mask, 16 * l + 15) == (lane16(word, l) <= lane16(rem, l)));
                    assert(lane16(word, l) == f(4 * w + l));
                    assert(f(4 * w + l) <= t <==> 4 * w + l < total);
                }
                assert forall|l: int, tt: int| 0 <= l < 4 && 0 <= tt < 15 implies !#[trigger] lane_bit(le_mask, 16, l, tt) by {
                    lemma_msbs(l as u64, tt as u64);
                    assert(!bit_of(MSBS_STEP_16, 16 * l + tt));
                    assert(bit_of(le_mask & !MSBS_STEP_16, 16 * l + tt) == (bit_of(le_mask, 16 * l + tt) && !bit_of(MSBS_STEP_16, 16 * l + tt)));
                }
                lemma_lane_popcount(le_mask, 16, 4, c);
            }
            n = n + Word::count_ones(le_mask) as usize;
            w = w + 1;
        }
        n
    }

    /// The pool words of entry `i`, whose set bits `512 i ..` start in block
    /// `lo` and whose successor entry starts in block `hi`.
    fn fill_entry(bits: &[u64], counts: &[u64], select: &mut [u64], nb: usize, i: usize, lo: usize, hi: usize)
        requires
            bits@.len() * 64 <= usize::MAX,
            counts_ok(bits@, counts@),
            nb == blocks_of(bits@.len() as int),
            old(select)@.len() >= 3 * nb + 2,
            0 <= i < entries_of(pop_before(bits@, bits@.len() as int)),
            lo < hi <= nb,
            holds_bit(bits@, lo as int, 512 * i),
            512 * (i + 1) < pop_before(bits@, bits@.len() as int) ==> holds_bit(bits@, hi as int, 512 * (i + 1)),
            512 * (i + 1) >= pop_before(bits@, bits@.len() as int) ==> hi == nb,
        ensures
            final(select)@.len() == old(select)@.len(),
            forall|w: int| 0 <= w < 2 * (hi - lo) ==> #[trigger] region_word(final(select)@, nb as int, lo as int, w) == pool_word(bits@, i as int, lo as int, hi as int, w),
            forall|j: int| 0 <= j < old(select)@.len() && !(nb + 1 + 2 * lo <= j < nb + 1 + 2 * hi) ==> #[trigger] final(select)@[j] == old(select)@[j],
    {
        let ghost s = bits@;
        let ghost old_sel = select@;
        let first_word = nb + 1 + 2 * lo;
        let len = 2 * (hi - lo);
        let mut w: usize = 0;
        while w < len
            invariant
                select@.len() == old_sel.len(),
                first_word == nb + 1 + 2 * lo,
                len == 2 * (hi - lo),
                hi <= nb,
                old_sel.len() >= 3 * nb + 2,
                w <= len,
                forall|ww: int| 0 <= ww < w ==> #[trigger] region_word(select@, nb as int, lo as int, ww) == 0,
                forall|j: int| 0 <= j < old_sel.len() && !(first_word <= j < first_word + w) ==> #[trigger] select@[j] == old_sel[j],
            decreases len - w,
        {
            let ghost prev = select@;
            select[first_word + w] = 0;
            proof {
                assert forall|ww: int| 0 <= ww < w + 1 implies #[trigger] region_word(select@, nb as int, lo as int, ww) == 0 by {
                    if ww < w {
                        assert(region_word(prev, nb as int, lo as int, ww) == 0);
                    }
                }
            }
            w = w + 1;
        }
        let ghost zeroed = select@;
        let slen = select.len();
        let span = Span::of(hi - lo);
        match span {
            Span::Flat | Span::Two => {
                let mut w: usize = 0;
                let top: usize = if hi - lo <= 15 { 4 } else { 18 };
                while w < top
                    invariant
                        s == bits@,
                        counts_ok(bits@, counts@),
                        nb == blocks_of(bits@.len() as int),
                        lo < hi <= nb,
                        4 <= hi - lo <= 63,
                        span == span_of(hi - lo),
                        top == if hi - lo <= 15 { 4usize } else { 18usize },
                        slen == select@.len(),
                        select@.len() == old_sel.len(),
                        old_sel.len() >= 3 * nb + 2,
                        first_word == nb + 1 + 2 * lo,
                        w <= top,
                        forall|ww: int| 0 <= ww < 2 * (hi - lo) ==> #[trigger] region_word(select@, nb as int, lo as int, ww) == if ww < w {
                            pool_word(s, i as int, lo as int, hi as int, ww)
                        } else {
                            0
                        },
                        forall|j: int| 0 <= j < old_sel.len() && !(first_word <= j < first_word + 2 * (hi - lo)) ==> #[trigger] select@[j] == old_sel[j],
                    decreases top - w,
                {
                    let j: usize = if top == 4 {
                        4 * w
                    } else if w < 2 {
                        32 * w + 7
                    } else {
                        8 * ((w - 2) / 2) + 4 * ((w - 2) % 2)
                    };
                    let step: usize = if top == 18 && w < 2 { 8 } else { 1 };
                    let word = Self::pack4(
                        Self::rel(bits, counts, lo, hi, j),
                        Self::rel(bits, counts, lo, hi, j + step),
                        Self::rel(bits, counts, lo, hi, j + 2 * step),
                        Self::rel(bits, counts, lo, hi, j + 3 * step),
                    );
                    let ghost prev = select@;
                    select[first_word + w] = word;
                    proof {
                        assert(word == pool_word(s, i as int, lo as int, hi as int, w as int));
                        assert forall|ww: int| 0 <= ww < 2 * (hi - lo) implies #[trigger] region_word(select@, nb as int, lo as int, ww) == if ww < w + 1 {
                            pool_word(s, i as int, lo as int, hi as int, ww)
                        } else {
                            0
                        } by {
                            if ww != w {
                                assert(region_word(select@, nb as int, lo as int, ww) == region_word(prev, nb as int, lo as int, ww));
                            }
                        }
                    }
                    w = w + 1;
                }
            },
            Span::Pos16 | Span::Pos32 => {
                Self::fill_positions(bits, counts, select, nb, i, lo, hi);
            },
            _ => {},
        }
    }

    /// The positions of the set bits `512 i ..` of entry `i` into its
    /// zeroed pool region, relative to block `lo`: 16 bits each for a span
    /// below 128 blocks, 32 bits from there on.
    fn fill_positions(bits: &[u64], counts: &[u64], select: &mut [u64], nb: usize, i: usize, lo: usize, hi: usize)
        requires
            bits@.len() * 64 <= usize::MAX,
            counts_ok(bits@, counts@),
            nb == blocks_of(bits@.len() as int),
            old(select)@.len() >= 3 * nb + 2,
            0 <= i < entries_of(pop_before(bits@, bits@.len() as int)),
            lo < hi <= nb,
            64 <= hi - lo <= 0x7f_ffff,
            holds_bit(bits@, lo as int, 512 * i),
            512 * (i + 1) < pop_before(bits@, bits@.len() as int) ==> holds_bit(bits@, hi as int, 512 * (i + 1)),
            512 * (i + 1) >= pop_before(bits@, bits@.len() as int) ==> hi == nb,
            forall|w: int| 0 <= w < 2 * (hi - lo) ==> #[trigger] region_word(old(select)@, nb as int, lo as int, w) == 0,
        ensures
            final(select)@.len() == old(select)@.len(),
            forall|w: int| 0 <= w < 2 * (hi - lo) ==> #[trigger] region_word(final(select)@, nb as int, lo as int, w) == pool_word(bits@, i as int, lo as int, hi as int, w),
            forall|j: int| 0 <= j < old(select)@.len() && !(nb + 1 + 2 * lo <= j < nb + 1 + 2 * hi) ==> #[trigger] final(select)@[j] == old(select)@[j],
    {
        let ghost s = bits@;
        let ghost old_sel = select@;
        let n = bits.len();
        let wide = hi - lo >= 128;
        proof {
            crate::slice::lemma_words_pop_bounds(s, n as int);
            assert(512 * i < pop_before(s, n as int));
            lemma_pop_diff(s, 8 * lo, 8 * nb);
            lemma_lanes(0, 0, 0, 0, 0);
            assert forall|ww: int| #[trigger] pos_word(s, i as int, lo as int, wide, 0, ww) == 0 by {}
        }
        let start = lo * 512;
        let first = i * 512;
        let first_word = nb + 1 + 2 * lo;
        proof {
            assert(before_block(counts@, lo as int) == pop_before(s, 8 * lo));
            crate::slice::lemma_words_pop_bounds(s, n as int);
            lemma_pop_diff(s, 8 * lo, n as int);
            lemma_pop_diff(s, 0, 8 * lo);
            assert(pop_before(s, 0) == 0);
        }
        let mut ordinal: usize = counts[2 * lo] as usize;
        let mut stored: usize = 0;
        let end_word = if (hi + 1) * 8 <= n { (hi + 1) * 8 } else { n };
        let mut wi: usize = lo * 8;
        while wi < end_word && stored < 512
            invariant
                s == bits@,
                n == s.len(),
                n * 64 <= usize::MAX,
                nb == blocks_of(n as int),
                lo < hi <= nb,
                64 <= hi - lo <= 0x7f_ffff,
                wide == (hi - lo >= 128),
                start == 512 * lo,
                first == 512 * i,
                first_word == nb + 1 + 2 * lo,
                end_word == if (hi + 1) * 8 <= n { (hi + 1) * 8 } else { n as int },
                8 * lo <= wi <= end_word,
                stored < 512 ==> ordinal == pop_before(s, wi as int),
                pop_before(s, 8 * lo) <= ordinal <= pop_before(s, wi as int),
                pop_before(s, 8 * lo) <= first,
                stored == if ordinal >= first { ordinal - first } else { 0 },
                stored <= 512,
                select@.len() == old_sel.len(),
                old_sel.len() >= 3 * nb + 2,
                forall|ww: int| 0 <= ww < 2 * (hi - lo) ==> #[trigger] region_word(select@, nb as int, lo as int, ww) == pos_word(s, i as int, lo as int, wide, stored as int, ww),
                forall|j: int| 0 <= j < old_sel.len() && !(first_word <= j < first_word + 2 * (hi - lo)) ==> #[trigger] select@[j] == old_sel[j],
            decreases end_word - wi,
        {
            let word = bits[wi];
            let mut pos = word.positions();
            let ghost taken: int = 0;
            proof {
                crate::slice::lemma_words_pop_bounds(s, wi + 1);
                lemma_pop_diff(s, wi as int, wi + 1);
                lemma_pop_diff(s, 8 * lo, wi as int);
                assert(pop_before(s, wi + 1) == pop_before(s, wi as int) + popcount(word));
                crate::model::lemma_count_below_bounds(word, 64);
            }
            while pos.0 != 0 && stored < 512
                invariant
                    s == bits@,
                    n == s.len(),
                    n * 64 <= usize::MAX,
                    nb == blocks_of(n as int),
                    lo < hi <= nb,
                    64 <= hi - lo <= 0x7f_ffff,
                    wide == (hi - lo >= 128),
                    start == 512 * lo,
                    first == 512 * i,
                    first_word == nb + 1 + 2 * lo,
                    end_word == if (hi + 1) * 8 <= n { (hi + 1) * 8 } else { n as int },
                    8 * lo <= wi < end_word,
                    word == s[wi as int],
                    0 <= taken <= popcount(word),
                    forall|q: int| #[trigger] bit_of(pos.0, q) == (bit_of(word, q) && count_below(word, q) >= taken),
                    ordinal == pop_before(s, wi as int) + taken,
                    pop_before(s, wi + 1) <= 64 * n,
                    pop_before(s, 8 * lo) <= pop_before(s, wi as int),
                    pop_before(s, wi + 1) == pop_before(s, wi as int) + popcount(word),
                    pop_before(s, 8 * lo) <= first,
                    stored == if ordinal >= first { ordinal - first } else { 0 },
                    stored <= 512,
                    select@.len() == old_sel.len(),
                    old_sel.len() >= 3 * nb + 2,
                    forall|ww: int| 0 <= ww < 2 * (hi - lo) ==> #[trigger] region_word(select@, nb as int, lo as int, ww) == pos_word(s, i as int, lo as int, wide, stored as int, ww),
                    forall|j: int| 0 <= j < old_sel.len() && !(first_word <= j < first_word + 2 * (hi - lo)) ==> #[trigger] select@[j] == old_sel[j],
                decreases popcount(word) - taken,
            {
                let ghost old_pos = pos.0;
                let p = match pos.next() {
                    Some(p) => p,
                    None => 0,
                };
                let ghost t0 = taken;
                proof {
                    crate::slice::lemma_positions_step(s, wi as int, old_pos, pos.0, p as int, taken);
                    taken = taken + 1;
                }
                if ordinal >= first {
                    proof {
                        lemma_stored_position(s, i as int, lo as int, hi as int, wi as int, p as int, ordinal as int, t0);
                    }
                    let offset = (wi * 64 + p as usize - start) as u64;
                    let ghost before_store = select@;
                    if wide {
                        let idx = first_word + stored / 2;
                        let sh: u64 = 32 * (stored % 2) as u64;
                        let merged = select[idx] | (offset << sh);
                        proof {
                            assert(region_word(before_store, nb as int, lo as int, (stored / 2) as int) == before_store[idx as int]);
                            lemma_store_lane(s, i as int, lo as int, wide, stored as int, offset, before_store[idx as int], sh, merged);
                        }
                        select[idx] = merged;
                        proof {
                            lemma_pos_word_step(s, i as int, lo as int, hi as int, nb as int, wide, stored as int, before_store, select@, idx as int, merged);
                        }
                    } else {
                        let idx = first_word + stored / 4;
                        let sh: u64 = 16 * (stored % 4) as u64;
                        let merged = select[idx] | (offset << sh);
                        proof {
                            assert(region_word(before_store, nb as int, lo as int, (stored / 4) as int) == before_store[idx as int]);
                            lemma_store_lane(s, i as int, lo as int, wide, stored as int, offset, before_store[idx as int], sh, merged);
                        }
                        select[idx] = merged;
                        proof {
                            lemma_pos_word_step(s, i as int, lo as int, hi as int, nb as int, wide, stored as int, before_store, select@, idx as int, merged);
                        }
                    }
                    stored = stored + 1;
                }
                ordinal = ordinal + 1;
            }
            proof {
                if stored < 512 {
                    crate::slice::lemma_positions_done(s, wi as int, pos.0, taken);
                }
            }
            wi = wi + 1;
        }
        proof {
            crate::slice::lemma_words_pop_bounds(s, n as int);
            lemma_pop_diff(s, wi as int, n as int);
            if stored < 512 {
                assert(wi == end_word);
                if 512 * (i + 1) < pop_before(s, n as int) {
                    assert(holds_bit(s, hi as int, 512 * (i + 1)));
                    lemma_pop_diff(s, n as int, 8 * hi + 8);
                    assert(false);
                }
                assert(hi == nb);
                assert(pop_before(s, end_word as int) == pop_before(s, n as int));
            } else {
                lemma_pop_diff(s, wi as int, n as int);
            }
            lemma_positions_complete(s, i as int, lo as int, hi as int, nb as int, wide, stored as int, select@);
        }
    }

    /// Set bits before word `j` of a block, from the packed counts; zero for
    /// `j = 0` through the clear top bit, no branch.
    fn field(packed: u64, j: usize) -> (r: u64)
        requires
            j < 8,
            packed >> 63 == 0,
        ensures
            r == if j == 0 {
                0
            } else {
                field_of(packed, j as int)
            },
    {
        let lane = ((j + 7) & 7) as u64;
        proof {
            lemma_field_lane(packed, j as u64, lane);
        }
        (packed >> (FIELD * lane)) & FIELD_MASK
    }

    /// Number of set bits at positions `< i`; `i` past the end counts them
    /// all.
    pub fn rank(&self, i: usize) -> (r: usize)
        ensures
            r == srank(self.bits_view(), i as int),
    {
        proof {
            use_type_invariant(self);
        }
        let s = Ghost(self.bits@);
        if i >= self.len() {
            return self.count_ones();
        }
        let block = i / 512;
        let word = (i / 64) % 8;
        proof {
            crate::slice::lemma_div64(i as int);
            assert(i / 64 == 8 * block + word);
            assert(block < self.blocks);
            assert(before_block(self.counts@, block as int) == pop_before(s@, 8 * block));
            assert(packed_ok(s@, block as int, packed_at(self.counts@, block as int)));
            crate::slice::lemma_words_pop_bounds(s@, s@.len() as int);
            crate::slice::lemma_words_pop_bounds(s@, (i / 64) as int);
            lemma_pop_diff(s@, 8 * block, (i / 64) as int);
        }
        let before_block = self.counts[2 * block];
        let before_word = Self::field(self.counts[2 * block + 1], word);
        let in_word = self.bits[i / 64].rank((i % 64) as u32);
        proof {
            crate::model::lemma_count_below_bounds(s@[(i / 64) as int], (i % 64) as int);
            if word != 0 {
                assert(field_of(packed_at(self.counts@, block as int), word as int) == pop_before(s@, 8 * block + word) - pop_before(s@, 8 * block));
            }
            lemma_pop_diff(s@, (i / 64) as int, i / 64 + 1);
            if i == 0 {
                assert(count_below(s@[0], 0) == 0);
            }
        }
        (before_block + before_word + in_word as u64) as usize
    }

    /// Number of clear bits at positions `< i`; `i` past the end counts them
    /// all.
    pub fn rank0(&self, i: usize) -> (r: usize)
        ensures
            r == (if i < 64 * self.bits_view().len() { i as int } else { 64 * self.bits_view().len() as int }) - srank(self.bits_view(), i as int),
    {
        proof {
            use_type_invariant(self);
        }
        let len = self.len();
        let r = self.rank(i);
        proof {
            lemma_srank_le(self.bits@, i as int);
        }
        if i < len { i - r } else { len - r }
    }

    /// The highest block in `lo..=hi` whose count of set bits before it is
    /// `<= k`; `lo` must qualify.
    fn search(&self, lo: usize, hi: usize, k: usize) -> (r: usize)
        requires
            lo <= hi <= blocks_of(self.bits_view().len() as int),
            before_block(self.counts@, lo as int) <= k,
        ensures
            lo <= r <= hi,
            before_block(self.counts@, r as int) <= k,
            r < hi ==> k < before_block(self.counts@, r + 1),
    {
        proof {
            use_type_invariant(self);
        }
        let k64 = k as u64;
        let clen = self.counts.len();
        let mut lo = lo;
        let mut hi = hi;
        let ghost hi0 = hi;
        let ghost lo0 = lo;
        while lo < hi
            invariant
                lo0 <= lo <= hi <= hi0 <= self.blocks,
                self.blocks == blocks_of(self.bits@.len() as int),
                counts_ok(self.bits@, self.counts@),
                clen == self.counts@.len(),
                before_block(self.counts@, lo as int) <= k,
                hi < hi0 ==> k < before_block(self.counts@, hi + 1),
                k64 == k,
            decreases hi - lo,
        {
            let mid = lo + (hi - lo + 1) / 2;
            if self.counts[2 * mid] <= k64 {
                lo = mid;
            } else {
                hi = mid - 1;
            }
        }
        lo
    }

    /// Position of set bit `k`, known to lie in `block`: one SWAR compare of
    /// the seven packed counts names the word, one in-word select the bit.
    fn select_in_block(&self, block: usize, k: usize) -> (r: usize)
        requires
            holds_bit(self.bits_view(), block as int, k as int),
        ensures
            sbit(self.bits_view(), r as int),
            srank(self.bits_view(), r as int) == k,
    {
        proof {
            use_type_invariant(self);
        }
        let ghost s = self.bits@;
        let ghost c = self.counts@;
        proof {
            assert(before_block(c, block as int) == pop_before(s, 8 * block));
            assert(packed_ok(s, block as int, packed_at(c, block as int)));
            lemma_pop_diff(s, 8 * block, 8 * block + 8);
            crate::slice::lemma_words_pop_bounds(s, s.len() as int);
        }
        let rem = k as u64 - self.counts[2 * block];
        let packed = self.counts[2 * block + 1];
        let spread = rem * ONES_STEP_9;
        proof {
            lemma_spread9(rem, spread);
            lemma_uleq_raw(packed, spread, 0, 0);
        }
        let le_mask = uleq_step9(packed, spread);
        let word = Word::count_ones(le_mask) as usize;
        proof {
            lemma_word_of_rank(s, block as int, packed, rem, le_mask);
        }
        let in_word = rem - Self::field(packed, word);
        let q = block * 8 + word;
        let bit = self.bits[q].select_lowest(in_word as u32);
        proof {
            lemma_pop_diff(s, q as int, q + 1);
            crate::slice::lemma_div64(q * 64 + bit);
            assert((q * 64 + bit) / 64 == q);
            assert((q * 64 + bit) % 64 == bit);
            if q * 64 + bit == 0 {
                assert(count_below(s[0], 0) == 0);
            }
        }
        block * 512 + word * 64 + bit as usize
    }

    /// Facts on the entry of set bit `k` that the dense spans read.
    proof fn lemma_dense_entry(&self, k: int, i: int, lo: int, hi: int)
        requires
            directory_ok(self.bits@, self.counts@, self.select@),
            self.select@.len() != 0,
            self.blocks == blocks_of(self.bits@.len() as int),
            0 <= k < pop_before(self.bits@, self.bits@.len() as int),
            i == k / 512,
            lo == self.select@[i],
            hi == self.select@[i + 1],
            hi - lo < 64,
        ensures
            0 <= i < entries_of(pop_before(self.bits@, self.bits@.len() as int)),
            0 <= lo < hi <= self.blocks,
            before_block(self.counts@, lo) <= k,
            0 <= k - before_block(self.counts@, lo) < 1024,
            k < pop_before(self.bits@, 8 * hi + 8),
            forall|j1: int, j2: int| 0 <= j1 <= j2 ==> #[trigger] rel_count(self.bits@, lo, hi, j1) <= #[trigger] rel_count(self.bits@, lo, hi, j2),
            forall|j: int| 0 <= j ==> 0 <= #[trigger] rel_count(self.bits@, lo, hi, j) < 0x8000,
            forall|j: int| 0 <= j && lo + 1 + j <= hi ==> #[trigger] rel_count(self.bits@, lo, hi, j) == before_block(self.counts@, lo + 1 + j) - before_block(self.counts@, lo),
            forall|j: int| 0 <= j && lo + 1 + j <= hi ==> #[trigger] rel_count(self.bits@, lo, hi, j) < 0x7fff,
    {
        let s = self.bits@;
        let c = self.counts@;
        lemma_entry_span(s, c, self.select@, k);
        lemma_entry_order(s, c, self.select@, i);
        lemma_rel_props(s, c, lo, hi);
        assert(before_block(c, lo) == pop_before(s, 8 * lo));
        lemma_pop_diff(s, 8 * lo, 8 * lo + 8);
    }

    /// The block holding set bit `k` in a flat span: one compare of the
    /// entry's sixteen lanes of block counts.
    fn block_flat(&self, k: usize, i: usize, lo: usize, hi: usize) -> (r: usize)
        requires
            directory_ok(self.bits@, self.counts@, self.select@),
            self.select@.len() != 0,
            self.blocks == blocks_of(self.bits@.len() as int),
            0 <= k < pop_before(self.bits@, self.bits@.len() as int),
            i == k / 512,
            lo == self.select@[i as int],
            hi == self.select@[i + 1],
            span_of(hi - lo) == Span::Flat,
        ensures
            lo <= r <= hi,
            before_block(self.counts@, r as int) <= k,
            r < hi ==> k < before_block(self.counts@, r + 1),
    {
        let ghost s = self.bits@;
        let ghost c = self.counts@;
        proof {
            self.lemma_dense_entry(k as int, i as int, lo as int, hi as int);
            lemma_entry_order(s, c, self.select@, i as int);
            lemma_flat_lanes(s, c, self.select@, i as int);
        }
        let clen = self.counts.len();
        let slen = self.select.len();
        let t = k as u64 - self.counts[2 * lo];
        let rem = t * ONES_STEP_16;
        let ghost f = |j: int| rel_count(s, lo as int, hi as int, j);
        let q = (hi - lo + 3) / 4;
        proof {
            assert forall|a: int, b: int| 0 <= a <= b < 4 * q implies #[trigger] f(a) <= #[trigger] f(b) by {
                assert(rel_count(s, lo as int, hi as int, a) <= rel_count(s, lo as int, hi as int, b));
            }
            assert forall|j: int| 0 <= j < 4 * q implies 0 <= #[trigger] f(j) < 0x8000 by {
                assert(0 <= rel_count(s, lo as int, hi as int, j) < 0x8000);
            }
            assert forall|w: int, l: int| 0 <= w < q && 0 <= l < 4 implies #[trigger] lane16(self.select@[self.blocks + 1 + 2 * lo + w], l) == f(4 * w + l) by {}
        }
        let m = Self::count_le16(self.select, self.blocks + 1 + 2 * lo, q, rem, Ghost(f), Ghost(t as int));
        proof {
            lemma_count_le_prefix(f, t as int, 4 * q);
            assert forall|j: int| 0 <= j < 4 * q implies (#[trigger] rel_count(s, lo as int, hi as int, j) <= t <==> j < m) by {
                assert(f(j) == rel_count(s, lo as int, hi as int, j));
            }
            lemma_prefix_block(s, c, lo as int, hi as int, m as int, t as int, k as int, 4 * q);
        }
        lo + m
    }

    /// The block holding set bit `k` in a two-level span: one compare of
    /// the group counts, one of the block counts inside the group.
    fn block_two(&self, k: usize, i: usize, lo: usize, hi: usize) -> (r: usize)
        requires
            directory_ok(self.bits@, self.counts@, self.select@),
            self.select@.len() != 0,
            self.blocks == blocks_of(self.bits@.len() as int),
            0 <= k < pop_before(self.bits@, self.bits@.len() as int),
            i == k / 512,
            lo == self.select@[i as int],
            hi == self.select@[i + 1],
            span_of(hi - lo) == Span::Two,
        ensures
            lo <= r <= hi,
            before_block(self.counts@, r as int) <= k,
            r < hi ==> k < before_block(self.counts@, r + 1),
    {
        let ghost s = self.bits@;
        let ghost c = self.counts@;
        proof {
            self.lemma_dense_entry(k as int, i as int, lo as int, hi as int);
            lemma_entry_order(s, c, self.select@, i as int);
            lemma_two_lanes(s, c, self.select@, i as int);
        }
        let clen = self.counts.len();
        let slen = self.select.len();
        let t = k as u64 - self.counts[2 * lo];
        let rem = t * ONES_STEP_16;
        let start = self.blocks + 1 + 2 * lo;
        let ghost fg = |j: int| rel_count(s, lo as int, hi as int, 8 * j + 7);
        proof {
            assert forall|a: int, b: int| 0 <= a <= b < 8 implies #[trigger] fg(a) <= #[trigger] fg(b) by {
                assert(rel_count(s, lo as int, hi as int, 8 * a + 7) <= rel_count(s, lo as int, hi as int, 8 * b + 7));
            }
            assert forall|j: int| 0 <= j < 8 implies 0 <= #[trigger] fg(j) < 0x8000 by {
                assert(0 <= rel_count(s, lo as int, hi as int, 8 * j + 7) < 0x8000);
            }
            assert forall|w: int, l: int| 0 <= w < 2 && 0 <= l < 4 implies #[trigger] lane16(self.select@[start + w], l) == fg(4 * w + l) by {}
        }
        let g = Self::count_le16(self.select, start, 2, rem, Ghost(fg), Ghost(t as int));
        proof {
            lemma_count_le_prefix(fg, t as int, 8);
            assert(!(fg(7) <= t));
            assert forall|j: int| 0 <= j < 8 implies (#[trigger] rel_count(s, lo as int, hi as int, 8 * j + 7) <= t <==> j < g) by {
                assert(fg(j) == rel_count(s, lo as int, hi as int, 8 * j + 7));
            }
        }
        let ghost fo = |j: int| rel_count(s, lo as int, hi as int, 8 * g + j);
        proof {
            assert forall|a: int, b: int| 0 <= a <= b < 8 implies #[trigger] fo(a) <= #[trigger] fo(b) by {
                assert(rel_count(s, lo as int, hi as int, 8 * g + a) <= rel_count(s, lo as int, hi as int, 8 * g + b));
            }
            assert forall|j: int| 0 <= j < 8 implies 0 <= #[trigger] fo(j) < 0x8000 by {
                assert(0 <= rel_count(s, lo as int, hi as int, 8 * g + j) < 0x8000);
            }
            assert forall|w: int, l: int| 0 <= w < 2 && 0 <= l < 4 implies #[trigger] lane16(self.select@[start + 2 + 2 * g + w], l) == fo(4 * w + l) by {
                assert(lane16(self.select@[self.blocks + 1 + 2 * lo + 2 + 2 * g + w], l) == rel_count(s, lo as int, hi as int, 8 * g + 4 * w + l));
            }
        }
        let off = Self::count_le16(self.select, start + 2 + 2 * g, 2, rem, Ghost(fo), Ghost(t as int));
        proof {
            lemma_count_le_prefix(fo, t as int, 8);
            assert forall|j: int| 0 <= j < 8 implies (#[trigger] rel_count(s, lo as int, hi as int, 8 * g + j) <= t <==> j < off) by {
                assert(fo(j) == rel_count(s, lo as int, hi as int, 8 * g + j));
            }
            lemma_two_prefix(s, lo as int, hi as int, g as int, off as int, t as int);
            lemma_prefix_block(s, c, lo as int, hi as int, 8 * g + off, t as int, k as int, 64);
        }
        lo + 8 * g + off
    }

    /// Set bit `k` of a sparse span, read from the entry's stored positions.
    fn select_stored(&self, k: usize, i: usize, lo: usize, hi: usize) -> (r: usize)
        requires
            directory_ok(self.bits@, self.counts@, self.select@),
            self.select@.len() != 0,
            self.blocks == blocks_of(self.bits@.len() as int),
            self.bits@.len() * 64 <= usize::MAX,
            0 <= k < pop_before(self.bits@, self.bits@.len() as int),
            i == k / 512,
            lo == self.select@[i as int],
            hi == self.select@[i + 1],
            span_of(hi - lo) == Span::Pos16 || span_of(hi - lo) == Span::Pos32,
        ensures
            sbit(self.bits@, r as int),
            srank(self.bits@, r as int) == k,
    {
        let ghost s = self.bits@;
        let ghost c = self.counts@;
        let nn = k % 512;
        proof {
            lemma_entry_order(s, c, self.select@, i as int);
            lemma_srank_le(s, 0);
        }
        if hi - lo >= 128 {
            proof {
                lemma_pos_read(s, c, self.select@, i as int, nn as int, true);
                crate::slice::lemma_div64(512 * lo + ((self.select@[self.blocks + 1 + 2 * lo + nn / 2] >> ((32 * (nn % 2)) as u64)) & 0xffff_ffff));
            }
            let word = self.select[self.blocks + 1 + 2 * lo + nn / 2];
            let offset = (word >> (32 * (nn % 2)) as u64) & 0xffff_ffff;
            lo * 512 + offset as usize
        } else {
            proof {
                lemma_pos_read(s, c, self.select@, i as int, nn as int, false);
            }
            let word = self.select[self.blocks + 1 + 2 * lo + nn / 4];
            let offset = (word >> (16 * (nn % 4)) as u64) & 0xffff;
            lo * 512 + offset as usize
        }
    }

    /// Position of set bit number `k` (0-based), if `k < count_ones()`.
    pub fn select(&self, k: usize) -> (r: Option<usize>)
        ensures
            match r {
                None => k >= words_pop(self.bits_view(), self.bits_view().len() as int),
                Some(p) => sbit(self.bits_view(), p as int) && srank(self.bits_view(), p as int) == k,
            },
    {
        proof {
            use_type_invariant(self);
        }
        let ghost s = self.bits@;
        let ghost c = self.counts@;
        if k >= self.ones {
            return None;
        }
        proof {
            lemma_counts_total(s, c);
            lemma_counts_mono(s, c, 0, self.blocks as int);
            assert(before_block(c, 0) == pop_before(s, 0));
        }
        if self.select.len() == 0 {
            let b = self.search(0, self.blocks - 1, k);
            proof {
                lemma_bracket_holds(s, c, b as int, k as int);
            }
            return Some(self.select_in_block(b, k));
        }
        let i = k / 512;
        proof {
            lemma_entry_span(s, c, self.select@, k as int);
        }
        let lo = self.select[i] as usize;
        let hi = self.select[i + 1] as usize;
        let k64 = k as u64;
        let block = match Span::of(hi - lo) {
            Span::Tiny => {
                proof {
                    lemma_counts_mono(s, c, lo as int, lo + 1);
                    if lo + 2 <= hi {
                        lemma_counts_mono(s, c, lo + 1, lo + 2);
                    }
                    if lo + 3 <= hi {
                        lemma_counts_mono(s, c, lo + 2, lo + 3);
                    }
                }
                lo + (if self.counts[2 * lo + 2] <= k64 { 1 } else { 0 })
                    + (if hi - lo >= 2 && self.counts[2 * lo + 4] <= k64 { 1 } else { 0 })
                    + (if hi - lo >= 3 && self.counts[2 * lo + 6] <= k64 { 1 } else { 0 })
            },
            Span::Flat => self.block_flat(k, i, lo, hi),
            Span::Two => self.block_two(k, i, lo, hi),
            Span::Pos16 | Span::Pos32 => {
                return Some(self.select_stored(k, i, lo, hi));
            },
            Span::Search => self.search(lo, hi, k),
        };
        proof {
            lemma_block_in_entry(s, c, lo as int, hi as int, block as int, k as int);
        }
        Some(self.select_in_block(block, k))
    }
}

/// Rank never passes the position, nor the length.
pub proof fn lemma_srank_le(s: Seq<u64>, i: int)
    requires
        0 <= i,
    ensures
        0 <= srank(s, i) <= (if i < 64 * s.len() { i } else { 64 * s.len() as int }),
{
    crate::slice::lemma_words_pop_bounds(s, s.len() as int);
    if 0 < i < 64 * s.len() {
        crate::slice::lemma_div64(i);
        crate::slice::lemma_words_pop_bounds(s, i / 64);
        crate::model::lemma_count_below_bounds(s[i / 64], i % 64);
    }
}

/// The entry of set bit `k`: its blocks `lo < hi`, the first at or before
/// the bit and the bit before the end of the last.
proof fn lemma_entry_span(s: Seq<u64>, c: Seq<u64>, sel: Seq<u64>, k: int)
    requires
        counts_ok(s, c),
        inventory_ok(s, sel),
        0 <= k < pop_before(s, s.len() as int),
    ensures
        ({
            let i = k / 512;
            let lo = sel[i] as int;
            let hi = sel[i + 1] as int;
            &&& 0 <= i
            &&& i + 1 <= entries_of(pop_before(s, s.len() as int))
            &&& i + 1 < sel.len()
            &&& 0 <= lo < hi <= blocks_of(s.len() as int)
            &&& before_block(c, lo) <= k
            &&& k < pop_before(s, 8 * hi + 8)
        }),
{
    let nb = blocks_of(s.len() as int);
    let ones = pop_before(s, s.len() as int);
    let e = entries_of(ones);
    let i = k / 512;
    let lo = sel[i] as int;
    assert(holds_bit(s, lo, 512 * i));
    assert(before_block(c, lo) == pop_before(s, 8 * lo));
    lemma_pop_diff(s, 8 * lo, 8 * lo + 8);
    lemma_counts_total(s, c);
    if i + 1 < e {
        let hi = sel[i + 1] as int;
        assert(holds_bit(s, hi, 512 * (i + 1)));
        lemma_pop_diff(s, 8 * hi + 8, 8 * nb + 8);
        if hi <= lo {
            lemma_pop_diff(s, 8 * hi, 8 * lo);
            lemma_pop_diff(s, 8 * hi + 8, 8 * lo + 8);
        }
    } else {
        assert(sel[e] == nb);
        lemma_pop_diff(s, s.len() as int, 8 * nb + 8);
    }
}

/// A block of the entry's span whose stored count is at most `k`, and whose
/// successor's is above it unless it is the last, holds set bit `k`.
proof fn lemma_block_in_entry(s: Seq<u64>, c: Seq<u64>, lo: int, hi: int, b: int, k: int)
    requires
        counts_ok(s, c),
        0 <= lo <= b <= hi <= blocks_of(s.len() as int),
        before_block(c, b) <= k,
        b < hi ==> k < before_block(c, b + 1),
        k < pop_before(s, 8 * hi + 8),
        k < pop_before(s, s.len() as int),
    ensures
        holds_bit(s, b, k),
{
    lemma_counts_total(s, c);
    assert(before_block(c, b) == pop_before(s, 8 * b));
    if b < hi {
        assert(before_block(c, b + 1) == pop_before(s, 8 * (b + 1)));
    }
}

/// Bits of the lane-top masks: set only at the top bit of a lane.
proof fn lemma_msbs(l: u64, t: u64)
    by (bit_vector)
    ensures
        l < 7 && t < 8 ==> (MSBS_STEP_9 >> (9 * l + t)) & 1 == 0,
        l < 7 ==> (MSBS_STEP_9 >> (9 * l + 8)) & 1 == 1,
        (MSBS_STEP_9 >> 63u64) & 1 == 0,
        l < 4 && t < 15 ==> (MSBS_STEP_16 >> (16 * l + t)) & 1 == 0,
        l < 4 ==> (MSBS_STEP_16 >> (16 * l + 15)) & 1 == 1,
{
}

/// A field of the packed counts and the lane the branch-free shift reads.
proof fn lemma_field_lane(packed: u64, j: u64, lane: u64)
    by (bit_vector)
    requires
        j < 8,
        lane == ((j + 7) as u64) & 7,
        packed >> 63 == 0,
    ensures
        lane < 8,
        j == 0 ==> (packed >> (9 * lane)) & 0x1ff == 0,
        j != 0 ==> (packed >> (9 * lane)) & 0x1ff == (packed >> ((9 * (j - 1)) as u64)) & 0x1ff,
{
}

/// `rem` in every 9-bit lane.
proof fn lemma_spread9_raw(rem: u64, l: u64)
    by (bit_vector)
    requires
        rem < 512,
        l < 7,
    ensures
        (((rem * ONES_STEP_9) as u64) >> (9 * l)) & 0x1ff == rem,
        ((rem * ONES_STEP_9) as u64) >> 63 == 0,
{
}

proof fn lemma_spread9(rem: u64, spread: u64)
    requires
        rem < 512,
        spread == (rem * ONES_STEP_9) as u64,
    ensures
        forall|l: int| 0 <= l < 7 ==> #[trigger] lane9(spread, l) == rem,
{
    assert forall|l: int| 0 <= l < 7 implies #[trigger] lane9(spread, l) == rem by {
        lemma_spread9_raw(rem, l as u64);
    }
}

/// Bit `t` of lane `l` of `width`-bit lanes.
pub open spec fn lane_bit(r: u64, width: int, l: int, t: int) -> bool {
    bit_of(r, width * l + t)
}

/// The number of set lane tops of a lane compare: lanes of `width` bits,
/// the top bit of lane `l` set iff `l < w`, nothing else set.
proof fn lemma_lane_popcount(r: u64, width: int, lanes: int, w: int)
    requires
        2 <= width,
        0 <= w <= lanes,
        width * lanes <= 64,
        forall|l: int, t: int| 0 <= l < lanes && 0 <= t < width - 1 ==> !#[trigger] lane_bit(r, width, l, t),
        forall|l: int| 0 <= l < lanes ==> #[trigger] lane_bit(r, width, l, width - 1) == (l < w),
        forall|i: int| width * lanes <= i < 64 ==> !#[trigger] bit_of(r, i),
    ensures
        popcount(r) == w,
{
    lemma_lane_count_below(r, width, lanes, w, lanes);
    crate::model::lemma_count_below_none_above(r, width * lanes, 64);
}

proof fn lemma_lane_count_below(r: u64, width: int, lanes: int, w: int, m: int)
    requires
        2 <= width,
        0 <= w <= lanes,
        0 <= m <= lanes,
        width * lanes <= 64,
        forall|l: int, t: int| 0 <= l < lanes && 0 <= t < width - 1 ==> !#[trigger] lane_bit(r, width, l, t),
        forall|l: int| 0 <= l < lanes ==> #[trigger] lane_bit(r, width, l, width - 1) == (l < w),
    ensures
        count_below(r, width * m) == if m < w { m } else { w },
    decreases m,
{
    if m > 0 {
        lemma_lane_count_below(r, width, lanes, w, m - 1);
        let base = width * (m - 1);
        assert(width * (m - 1) == width * m - width) by (nonlinear_arith);
        assert forall|i: int| base <= i < base + width - 1 implies !#[trigger] bit_of(r, i) by {
            assert(!lane_bit(r, width, m - 1, i - base));
        }
        crate::model::lemma_count_below_none_above(r, base, base + width - 1);
        assert(lane_bit(r, width, m - 1, width - 1) == (m - 1 < w));
        assert(count_below(r, width * m) == count_below(r, width * m - 1) + if bit_of(r, width * m - 1) {
            1nat
        } else {
            0nat
        });
    } else {
        assert(width * m == 0) by (nonlinear_arith)
            requires
                m == 0,
        ;
    }
}

/// The count compare of a block names the word holding set bit `rem` of
/// the block, and that word exists.
proof fn lemma_word_of_rank(s: Seq<u64>, b: int, packed: u64, rem: u64, le_mask: u64)
    requires
        0 <= b,
        packed_ok(s, b, packed),
        pop_before(s, 8 * b) + rem < pop_before(s, 8 * b + 8),
        forall|l: int| 0 <= l < 7 ==> #[trigger] bit_of(le_mask, 9 * l + 8) == (lane9(packed, l) <= rem),
        le_mask & !MSBS_STEP_9 == 0,
    ensures
        ({
            let w = popcount(le_mask) as int;
            &&& 0 <= w < 8
            &&& w == 0 || field_of(packed, w) == pop_before(s, 8 * b + w) - pop_before(s, 8 * b)
            &&& pop_before(s, 8 * b + w) <= pop_before(s, 8 * b) + rem < pop_before(s, 8 * b + w + 1)
            &&& 8 * b + w < s.len()
        }),
{
    let base = pop_before(s, 8 * b);
    let f = |j: int| pop_before(s, 8 * b + j) - base;
    // The fields grow with the word, so the lanes at or below `rem` are a
    // prefix; its length is the popcount.
    assert forall|j1: int, j2: int| 0 <= j1 <= j2 <= 8 implies #[trigger] f(j1) <= #[trigger] f(j2) by {
        lemma_pop_diff(s, 8 * b + j1, 8 * b + j2);
    }
    let w = count_le(f, rem as int, 8) - 1;
    lemma_count_le_prefix(f, rem as int, 8);
    assert(f(0) == 0);
    assert forall|l: int| 0 <= l < 7 implies #[trigger] lane_bit(le_mask, 9, l, 8) == (l < w) by {
        assert(field_of(packed, l + 1) == f(l + 1));
        assert(lane9(packed, l) == field_of(packed, l + 1));
        assert(bit_of(le_mask, 9 * l + 8) == (lane9(packed, l) <= rem));
    }
    assert forall|l: int, t: int| 0 <= l < 7 && 0 <= t < 8 implies !#[trigger] lane_bit(le_mask, 9, l, t) by {
        lemma_msbs(l as u64, t as u64);
        assert(!bit_of(MSBS_STEP_9, 9 * l + t));
        assert(bit_of(le_mask & !MSBS_STEP_9, 9 * l + t) == (bit_of(le_mask, 9 * l + t) && !bit_of(MSBS_STEP_9, 9 * l + t)));
    }
    assert forall|i: int| 63 <= i < 64 implies !#[trigger] bit_of(le_mask, i) by {
        lemma_msbs(0, 0);
        assert(bit_of(le_mask & !MSBS_STEP_9, i) == (bit_of(le_mask, i) && !bit_of(MSBS_STEP_9, i)));
    }
    lemma_lane_popcount(le_mask, 9, 7, w);
    if 8 * b + w >= s.len() {
        lemma_pop_diff(s, s.len() as int, 8 * b + w);
        lemma_pop_diff(s, s.len() as int, 8 * b + w + 1);
    }
    if w != 0 {
        assert(field_of(packed, w) == pop_before(s, 8 * b + w) - pop_before(s, 8 * b));
    }
    assert(f(w) <= rem);
    if w + 1 < 8 {
        assert(!(f(w + 1) <= rem));
    }
}

/// How many of `f(0..n)` are at most `t`.
pub open spec fn count_le(f: spec_fn(int) -> int, t: int, n: int) -> int
    decreases n,
{
    if n <= 0 {
        0
    } else {
        count_le(f, t, n - 1) + if f(n - 1) <= t { 1int } else { 0int }
    }
}

/// Of a nondecreasing `f`, those at most `t` are a prefix, as long as the
/// count.
pub proof fn lemma_count_le_prefix(f: spec_fn(int) -> int, t: int, n: int)
    requires
        0 <= n,
        forall|a: int, b: int| 0 <= a <= b < n ==> #[trigger] f(a) <= #[trigger] f(b),
    ensures
        0 <= count_le(f, t, n) <= n,
        forall|l: int| 0 <= l < n ==> (#[trigger] f(l) <= t <==> l < count_le(f, t, n)),
    decreases n,
{
    if n > 0 {
        lemma_count_le_prefix(f, t, n - 1);
    }
}

/// One packed field written: the field set, the others and bit 63 kept.
proof fn lemma_pack_field(p: u64, v: u64, sh: u64, j: u64, jj: u64)
    by (bit_vector)
    requires
        1 <= j < 8,
        1 <= jj < 8,
        v < 512,
        sh == 9 * (j - 1),
    ensures
        (0u64 >> ((9 * (jj - 1)) as u64)) & 0x1ff == 0,
        0u64 >> 63 == 0,
        (p >> sh) & 0x1ff == 0 && p >> 63 == 0 ==> (p | (v << sh)) >> 63 == 0,
        (p >> sh) & 0x1ff == 0 ==> ((p | (v << sh)) >> ((9 * (jj - 1)) as u64)) & 0x1ff == if jj == j {
            v
        } else {
            (p >> ((9 * (jj - 1)) as u64)) & 0x1ff
        },
{
}

/// Word `w` of a position region while `stored` positions are in: the
/// lanes of the stored ones, zero above.
pub open spec fn pos_word(s: Seq<u64>, i: int, lo: int, wide: bool, stored: int, w: int) -> u64 {
    let p = |t: int| if t < stored { stored_pos(s, i, lo, t) } else { 0u64 };
    if wide {
        lanes2(p(2 * w), p(2 * w + 1))
    } else {
        lanes4(p(4 * w), p(4 * w + 1), p(4 * w + 2), p(4 * w + 3))
    }
}

/// Lanes of four 16-bit and two 32-bit fields: read back, written into a
/// clear lane, and the top bits clear when the lanes are small.
proof fn lemma_lanes(a: u64, b: u64, c: u64, d: u64, v: u64)
    by (bit_vector)
    ensures
        lanes4(0, 0, 0, 0) == 0,
        lanes2(0, 0) == 0,
        lanes4(0, b, c, d) | (v << 0u64) == lanes4(v, b, c, d),
        lanes4(a, 0, c, d) | (v << 16u64) == lanes4(a, v, c, d),
        lanes4(a, b, 0, d) | (v << 32u64) == lanes4(a, b, v, d),
        lanes4(a, b, c, 0) | (v << 48u64) == lanes4(a, b, c, v),
        lanes2(0, b) | (v << 0u64) == lanes2(v, b),
        lanes2(a, 0) | (v << 32u64) == lanes2(a, v),
        a < 0x10000 && b < 0x10000 && c < 0x10000 && d < 0x10000 ==> {
            &&& (lanes4(a, b, c, d) >> 0u64) & 0xffff == a
            &&& (lanes4(a, b, c, d) >> 16u64) & 0xffff == b
            &&& (lanes4(a, b, c, d) >> 32u64) & 0xffff == c
            &&& (lanes4(a, b, c, d) >> 48u64) & 0xffff == d
        },
        a < 0x1_0000_0000 && b < 0x1_0000_0000 ==> {
            &&& (lanes2(a, b) >> 0u64) & 0xffff_ffff == a
            &&& (lanes2(a, b) >> 32u64) & 0xffff_ffff == b
        },
        ((a >> 0u64) & 0xffff) < 0x8000 && ((a >> 16u64) & 0xffff) < 0x8000 && ((a >> 32u64) & 0xffff) < 0x8000
            && ((a >> 48u64) & 0xffff) < 0x8000 ==> a & MSBS_STEP_16 == 0,
{
}

/// `t` in every 16-bit lane.
proof fn lemma_spread16_raw(t: u64)
    by (bit_vector)
    requires
        t < 0x8000,
    ensures
        (((t * ONES_STEP_16) as u64) >> 0u64) & 0xffff == t,
        (((t * ONES_STEP_16) as u64) >> 16u64) & 0xffff == t,
        (((t * ONES_STEP_16) as u64) >> 32u64) & 0xffff == t,
        (((t * ONES_STEP_16) as u64) >> 48u64) & 0xffff == t,
        ((t * ONES_STEP_16) as u64) & MSBS_STEP_16 == 0,
{
}

proof fn lemma_spread16(t: u64)
    requires
        t < 0x8000,
    ensures
        forall|l: int| 0 <= l < 4 ==> #[trigger] lane16((t * ONES_STEP_16) as u64, l) == t,
        ((t * ONES_STEP_16) as u64) & MSBS_STEP_16 == 0,
{
    lemma_spread16_raw(t);
    let x = (t * ONES_STEP_16) as u64;
    assert(lane16(x, 0) == t);
    assert(lane16(x, 1) == t);
    assert(lane16(x, 2) == t);
    assert(lane16(x, 3) == t);
}

/// Lanes below `2^15` leave the lane tops clear.
proof fn lemma_lanes16_small(x: u64)
    requires
        forall|l: int| 0 <= l < 4 ==> #[trigger] lane16(x, l) < 0x8000,
    ensures
        x & MSBS_STEP_16 == 0,
{
    assert(lane16(x, 0) < 0x8000);
    assert(lane16(x, 1) < 0x8000);
    assert(lane16(x, 2) < 0x8000);
    assert(lane16(x, 3) < 0x8000);
    lemma_lanes(x, 0, 0, 0, 0);
}

/// The lanes of four small values read back.
proof fn lemma_lanes4_get(a: u64, b: u64, c: u64, d: u64)
    requires
        a < 0x10000,
        b < 0x10000,
        c < 0x10000,
        d < 0x10000,
    ensures
        lane16(lanes4(a, b, c, d), 0) == a,
        lane16(lanes4(a, b, c, d), 1) == b,
        lane16(lanes4(a, b, c, d), 2) == c,
        lane16(lanes4(a, b, c, d), 3) == d,
{
    lemma_lanes(a, b, c, d, 0);
}

/// The rank counts one per set position passed.
pub proof fn lemma_srank_next(s: Seq<u64>, p: int)
    requires
        0 <= p,
    ensures
        srank(s, p + 1) == srank(s, p) + if sbit(s, p) { 1int } else { 0int },
{
    if p < 64 * s.len() {
        crate::slice::lemma_srank_step(s, p);
    }
}

/// The rank never passes the number of set bits.
proof fn lemma_srank_total(s: Seq<u64>, b: int)
    requires
        0 <= b,
    ensures
        0 <= srank(s, b) <= words_pop(s, s.len() as int),
{
    lemma_srank_le(s, b);
    crate::slice::lemma_words_pop_bounds(s, s.len() as int);
    if 0 < b < 64 * s.len() {
        crate::slice::lemma_div64(b);
        crate::model::lemma_count_below_mono(s[b / 64], b % 64, 64);
        assert(words_pop(s, b / 64 + 1) == words_pop(s, b / 64) + popcount(s[b / 64]));
        lemma_pop_diff(s, b / 64 + 1, s.len() as int);
    }
}

/// The rank grows with the position, strictly past a set one, up to the
/// number of set bits.
pub proof fn lemma_srank_mono(s: Seq<u64>, a: int, b: int)
    requires
        0 <= a <= b,
    ensures
        srank(s, a) <= srank(s, b) <= words_pop(s, s.len() as int),
        a < b && sbit(s, a) ==> srank(s, a) < srank(s, b),
    decreases b - a,
{
    lemma_srank_total(s, b);
    if a < b {
        lemma_srank_mono(s, a, b - 1);
        lemma_srank_next(s, b - 1);
    }
}

/// Below the rank at `m` every count is reached at a set position.
proof fn lemma_srank_reach(s: Seq<u64>, m: int, k: int)
    requires
        0 <= m,
        0 <= k < srank(s, m),
    ensures
        exists|p: int| 0 <= p < m && sbit(s, p) && srank(s, p) == k,
    decreases m,
{
    if m == 0 {
        assert(srank(s, 0) == 0);
    } else {
        lemma_srank_next(s, m - 1);
        if k < srank(s, m - 1) {
            lemma_srank_reach(s, m - 1, k);
        } else {
            assert(sbit(s, m - 1) && srank(s, m - 1) == k);
        }
    }
}

/// Set bit number `k` exists below the count, and no other set position
/// has its rank.
pub proof fn lemma_sel_pos(s: Seq<u64>, k: int)
    requires
        0 <= k < words_pop(s, s.len() as int),
    ensures
        sbit(s, sel_pos(s, k)),
        srank(s, sel_pos(s, k)) == k,
        forall|p: int| sbit(s, p) && srank(s, p) == k ==> p == sel_pos(s, k),
{
    assert(srank(s, 64 * s.len() as int) == words_pop(s, s.len() as int));
    lemma_srank_reach(s, 64 * s.len() as int, k);
    let q = sel_pos(s, k);
    assert forall|p: int| sbit(s, p) && srank(s, p) == k implies p == q by {
        if p < q {
            lemma_srank_mono(s, p, q);
        } else if q < p {
            lemma_srank_mono(s, q, p);
        }
    }
}

/// A set position lies in the word whose counts bracket its rank.
proof fn lemma_pos_word_of(s: Seq<u64>, p: int)
    requires
        sbit(s, p),
    ensures
        0 <= p / 64 < s.len(),
        pop_before(s, p / 64) <= srank(s, p) < pop_before(s, p / 64 + 1),
{
    crate::slice::lemma_div64(p);
    crate::model::lemma_count_below_mono(s[p / 64], p % 64, 64);
    assert(words_pop(s, p / 64 + 1) == words_pop(s, p / 64) + popcount(s[p / 64]));
    if p == 0 {
        assert(count_below(s[0], 0) == 0);
    }
}

/// Set bit `k` of a span of blocks `lo..=hi` lies in it.
proof fn lemma_pos_in_blocks(s: Seq<u64>, lo: int, hi: int, k: int)
    requires
        0 <= lo <= hi,
        0 <= k,
        pop_before(s, 8 * lo) <= k < pop_before(s, 8 * hi + 8),
        k < words_pop(s, s.len() as int),
    ensures
        512 * lo <= sel_pos(s, k) < 512 * (hi + 1),
{
    lemma_sel_pos(s, k);
    let p = sel_pos(s, k);
    lemma_pos_word_of(s, p);
    let q = p / 64;
    if q < 8 * lo {
        lemma_pop_diff(s, q + 1, 8 * lo);
    }
    if q >= 8 * hi + 8 {
        lemma_pop_diff(s, 8 * hi + 8, q);
    }
    crate::slice::lemma_div64(p);
}

/// Every stored position of an entry fits its lane: 16 bits below 128
/// blocks of span, 32 bits below `2^23`.
proof fn lemma_stored_bound(s: Seq<u64>, i: int, lo: int, hi: int, t: int)
    requires
        0 <= i,
        0 <= lo < hi,
        hi - lo <= 0x7f_ffff,
        pop_before(s, 8 * lo) <= 512 * i,
        512 * (i + 1) < pop_before(s, s.len() as int) ==> 512 * (i + 1) < pop_before(s, 8 * hi + 8),
        512 * (i + 1) >= pop_before(s, s.len() as int) ==> pop_before(s, s.len() as int) <= pop_before(s, 8 * hi + 8),
    ensures
        stored_pos(s, i, lo, t) < 512 * (hi - lo + 1),
        hi - lo < 128 ==> stored_pos(s, i, lo, t) < 0x10000,
        stored_pos(s, i, lo, t) < 0x1_0000_0000,
{
    if 0 <= t < stored_of(s, i) {
        let k = 512 * i + t;
        crate::slice::lemma_words_pop_bounds(s, s.len() as int);
        assert(pop_before(s, s.len() as int) == words_pop(s, s.len() as int));
        lemma_pos_in_blocks(s, lo, hi, k);
    }
}

/// A position met while filling an entry is the stored one for its rank.
proof fn lemma_stored_position(s: Seq<u64>, i: int, lo: int, hi: int, wi: int, p: int, ordinal: int, taken: int)
    requires
        0 <= i,
        0 <= wi < s.len(),
        8 * lo <= wi < 8 * hi + 8,
        0 <= lo < hi,
        hi - lo <= 0x7f_ffff,
        0 <= p < 64,
        bit_of(s[wi], p),
        count_below(s[wi], p) == taken,
        ordinal == pop_before(s, wi) + taken,
        512 * i <= ordinal < 512 * i + 512,
    ensures
        ordinal - 512 * i < stored_of(s, i),
        512 * lo <= 64 * wi + p,
        stored_pos(s, i, lo, ordinal - 512 * i) == (64 * wi + p - 512 * lo) as u64,
        64 * wi + p - 512 * lo < 512 * (hi - lo + 1),
{
    let q = 64 * wi + p;
    crate::slice::lemma_div64(q);
    assert(q / 64 == wi);
    assert(q % 64 == p);
    assert(sbit(s, q));
    if q == 0 {
        assert(count_below(s[0], 0) == 0);
    }
    assert(srank(s, q) == ordinal);
    lemma_srank_mono(s, q, q + 1);
    lemma_srank_next(s, q);
    crate::slice::lemma_words_pop_bounds(s, s.len() as int);
    lemma_sel_pos(s, ordinal);
}

/// One stored lane written into a clear lane of its word.
proof fn lemma_store_lane(s: Seq<u64>, i: int, lo: int, wide: bool, stored: int, offset: u64, old_word: u64, sh: u64, merged: u64)
    requires
        0 <= stored < 512,
        old_word == pos_word(s, i, lo, wide, stored, if wide { stored / 2 } else { stored / 4 }),
        sh == if wide { 32 * (stored % 2) } else { 16 * (stored % 4) },
        offset == stored_pos(s, i, lo, stored),
        merged == old_word | (offset << sh),
    ensures
        merged == pos_word(s, i, lo, wide, stored + 1, if wide { stored / 2 } else { stored / 4 }),
{
    let p = |t: int| if t < stored { stored_pos(s, i, lo, t) } else { 0u64 };
    let p1 = |t: int| if t < stored + 1 { stored_pos(s, i, lo, t) } else { 0u64 };
    if wide {
        let w = stored / 2;
        lemma_lanes(p(2 * w), p(2 * w + 1), 0, 0, offset);
        if stored % 2 == 0 {
            assert(p(2 * w) == 0);
            assert(p1(2 * w + 1) == p(2 * w + 1));
        } else {
            assert(p(2 * w + 1) == 0);
            assert(p1(2 * w) == p(2 * w));
        }
    } else {
        let w = stored / 4;
        lemma_lanes(p(4 * w), p(4 * w + 1), p(4 * w + 2), p(4 * w + 3), offset);
        if stored % 4 == 0 {
            assert(p1(4 * w + 1) == p(4 * w + 1) && p1(4 * w + 2) == p(4 * w + 2) && p1(4 * w + 3) == p(4 * w + 3));
        } else if stored % 4 == 1 {
            assert(p1(4 * w) == p(4 * w) && p1(4 * w + 2) == p(4 * w + 2) && p1(4 * w + 3) == p(4 * w + 3));
        } else if stored % 4 == 2 {
            assert(p1(4 * w) == p(4 * w) && p1(4 * w + 1) == p(4 * w + 1) && p1(4 * w + 3) == p(4 * w + 3));
        } else {
            assert(p1(4 * w) == p(4 * w) && p1(4 * w + 1) == p(4 * w + 1) && p1(4 * w + 2) == p(4 * w + 2));
        }
    }
}

/// After one lane is stored, every word of the region reads the new count.
proof fn lemma_pos_word_step(s: Seq<u64>, i: int, lo: int, hi: int, nb: int, wide: bool, stored: int, before: Seq<u64>, after: Seq<u64>, idx: int, merged: u64)
    requires
        0 <= stored < 512,
        0 <= lo < hi,
        wide ==> hi - lo >= 128,
        hi - lo >= 64,
        idx == nb + 1 + 2 * lo + if wide { stored / 2 } else { stored / 4 },
        0 <= idx < before.len(),
        nb + 1 + 2 * hi <= before.len(),
        0 <= nb,
        after == before.update(idx, merged),
        merged == pos_word(s, i, lo, wide, stored + 1, if wide { stored / 2 } else { stored / 4 }),
        forall|ww: int| 0 <= ww < 2 * (hi - lo) ==> #[trigger] region_word(before, nb, lo, ww) == pos_word(s, i, lo, wide, stored, ww),
    ensures
        forall|ww: int| 0 <= ww < 2 * (hi - lo) ==> #[trigger] region_word(after, nb, lo, ww) == pos_word(s, i, lo, wide, stored + 1, ww),
{
    let w0 = if wide { stored / 2 } else { stored / 4 };
    assert forall|ww: int| 0 <= ww < 2 * (hi - lo) implies #[trigger] region_word(after, nb, lo, ww) == pos_word(s, i, lo, wide, stored + 1, ww) by {
        if ww != w0 {
            assert(region_word(after, nb, lo, ww) == region_word(before, nb, lo, ww));
            let p = |t: int| if t < stored { stored_pos(s, i, lo, t) } else { 0u64 };
            let p1 = |t: int| if t < stored + 1 { stored_pos(s, i, lo, t) } else { 0u64 };
            if wide {
                assert(p1(2 * ww) == p(2 * ww) && p1(2 * ww + 1) == p(2 * ww + 1));
            } else {
                assert(p1(4 * ww) == p(4 * ww) && p1(4 * ww + 1) == p(4 * ww + 1));
                assert(p1(4 * ww + 2) == p(4 * ww + 2) && p1(4 * ww + 3) == p(4 * ww + 3));
            }
        }
    }
}

/// A filled position region: every position the entry stores is in.
proof fn lemma_positions_complete(s: Seq<u64>, i: int, lo: int, hi: int, nb: int, wide: bool, stored: int, sel: Seq<u64>)
    requires
        stored == stored_of(s, i),
        64 <= hi - lo <= 0x7f_ffff,
        wide == (hi - lo >= 128),
        forall|ww: int| 0 <= ww < 2 * (hi - lo) ==> #[trigger] region_word(sel, nb, lo, ww) == pos_word(s, i, lo, wide, stored, ww),
    ensures
        forall|ww: int| 0 <= ww < 2 * (hi - lo) ==> #[trigger] region_word(sel, nb, lo, ww) == pool_word(s, i, lo, hi, ww),
{
    assert forall|ww: int| 0 <= ww < 2 * (hi - lo) implies #[trigger] region_word(sel, nb, lo, ww) == pool_word(s, i, lo, hi, ww) by {
        let p = |t: int| if t < stored { stored_pos(s, i, lo, t) } else { 0u64 };
        assert forall|t: int| #[trigger] p(t) == stored_pos(s, i, lo, t) by {}
        if wide {
            assert(p(2 * ww) == stored_pos(s, i, lo, 2 * ww));
            assert(p(2 * ww + 1) == stored_pos(s, i, lo, 2 * ww + 1));
        } else {
            assert(p(4 * ww) == stored_pos(s, i, lo, 4 * ww));
            assert(p(4 * ww + 1) == stored_pos(s, i, lo, 4 * ww + 1));
            assert(p(4 * ww + 2) == stored_pos(s, i, lo, 4 * ww + 2));
            assert(p(4 * ww + 3) == stored_pos(s, i, lo, 4 * ww + 3));
        }
    }
}

/// [`Rank9`] with the directory allocated for you: one call from a bit
/// slice to rank and select. The view type stays the whole API; this only
/// owns its two buffers.
#[derive(Debug)]
pub struct Rank9Buf<'a> {
    bits: &'a [u64],
    counts: Vec<u64>,
    select: Vec<u64>,
}

impl<'a> Rank9Buf<'a> {
    #[verifier::type_invariant]
    spec fn wf(self) -> bool {
        &&& self.bits@.len() * 64 <= usize::MAX
        &&& directory_ok(self.bits@, self.counts@, self.select@)
        &&& self.counts@.len() == 2 * blocks_of(self.bits@.len() as int) + 2
        &&& self.select@.len() == 0 || self.select@.len() == 3 * blocks_of(self.bits@.len() as int) + 2
    }

    /// The bits the directory indexes.
    pub closed spec fn bits_view(&self) -> Seq<u64> {
        self.bits@
    }

    /// Whether the select inventory is there.
    pub closed spec fn has_select_view(&self) -> bool {
        self.select@.len() != 0
    }

    /// Rank and select over `bits`.
    pub fn new(bits: &'a [u64]) -> (r: Self)
        requires
            bits@.len() * 64 <= usize::MAX,
            512 * blocks_of(bits@.len() as int) <= u64::MAX,
        ensures
            r.bits_view() == bits@,
            r.has_select_view(),
    {
        Self::build(bits, Rank9::select_len(bits.len()))
    }

    /// Rank only, at a quarter of the bits instead of five eighths; `select`
    /// falls back to a binary search.
    pub fn rank_only(bits: &'a [u64]) -> (r: Self)
        requires
            bits@.len() * 64 <= usize::MAX,
            512 * blocks_of(bits@.len() as int) <= u64::MAX,
        ensures
            r.bits_view() == bits@,
            !r.has_select_view(),
    {
        Self::build(bits, 0)
    }

    fn build(bits: &'a [u64], select_words: usize) -> (r: Self)
        requires
            bits@.len() * 64 <= usize::MAX,
            512 * blocks_of(bits@.len() as int) <= u64::MAX,
            select_words == 0 || select_words == 3 * blocks_of(bits@.len() as int) + 2,
        ensures
            r.bits_view() == bits@,
            r.has_select_view() == (select_words != 0),
    {
        let mut counts: Vec<u64> = vec![0; Rank9::counts_len(bits.len())];
        let mut select: Vec<u64> = vec![0; select_words];
        Rank9::fill(bits, counts.as_mut_slice(), select.as_mut_slice());
        Rank9Buf { bits, counts, select }
    }

    /// The borrowed view, for anything not forwarded here.
    pub fn view(&self) -> (r: Rank9<'_>)
        ensures
            r.bits_view() == self.bits_view(),
            r.has_select_view() == self.has_select_view(),
    {
        proof {
            use_type_invariant(self);
        }
        Rank9::from_parts(self.bits, self.counts.as_slice(), self.select.as_slice())
    }

    /// See [`Rank9::rank`].
    pub fn rank(&self, i: usize) -> (r: usize)
        ensures
            r == srank(self.bits_view(), i as int),
    {
        self.view().rank(i)
    }

    /// See [`Rank9::rank0`].
    pub fn rank0(&self, i: usize) -> (r: usize)
        ensures
            r == (if i < 64 * self.bits_view().len() { i as int } else { 64 * self.bits_view().len() as int }) - srank(self.bits_view(), i as int),
    {
        self.view().rank0(i)
    }

    /// See [`Rank9::select`].
    pub fn select(&self, k: usize) -> (r: Option<usize>)
        ensures
            match r {
                None => k >= words_pop(self.bits_view(), self.bits_view().len() as int),
                Some(p) => sbit(self.bits_view(), p as int) && srank(self.bits_view(), p as int) == k,
            },
    {
        self.view().select(k)
    }

    /// See [`Rank9::count_ones`].
    pub fn count_ones(&self) -> (r: usize)
        ensures
            r == words_pop(self.bits_view(), self.bits_view().len() as int),
    {
        self.view().count_ones()
    }

    /// The directory's two buffers, to keep next to the bits.
    pub fn into_parts(self) -> (r: (Vec<u64>, Vec<u64>))
        ensures
            directory_ok(self.bits_view(), r.0@, r.1@),
            r.0@.len() == 2 * blocks_of(self.bits_view().len() as int) + 2,
            r.1@.len() == (if self.has_select_view() { 3 * blocks_of(self.bits_view().len() as int) + 2 } else { 0 }),
    {
        proof {
            use_type_invariant(&self);
        }
        (self.counts, self.select)
    }
}

impl<'a> Clone for Rank9Buf<'a> {
    fn clone(&self) -> (r: Self)
        ensures
            r.bits_view() == self.bits_view(),
            r.has_select_view() == self.has_select_view(),
    {
        proof {
            use_type_invariant(self);
        }
        let counts = self.counts.clone();
        let select = self.select.clone();
        proof {
            assert(counts@ == self.counts@);
            assert(select@ == self.select@);
        }
        Rank9Buf { bits: self.bits, counts, select }
    }
}

/// Entry `i` of a built inventory: its blocks `lo < hi`, the first holding
/// its first set bit, the last holding the next entry's or the end.
proof fn lemma_entry_order(s: Seq<u64>, c: Seq<u64>, sel: Seq<u64>, i: int)
    requires
        counts_ok(s, c),
        inventory_ok(s, sel),
        0 <= i < entries_of(pop_before(s, s.len() as int)),
    ensures
        0 <= sel[i] < sel[i + 1] <= blocks_of(s.len() as int),
        holds_bit(s, sel[i] as int, 512 * i),
        512 * i < pop_before(s, s.len() as int),
        512 * (i + 1) < pop_before(s, s.len() as int) ==> holds_bit(s, sel[i + 1] as int, 512 * (i + 1)),
        512 * (i + 1) >= pop_before(s, s.len() as int) ==> sel[i + 1] == blocks_of(s.len() as int),
        3 * blocks_of(s.len() as int) + 2 <= sel.len(),
{
    let e = entries_of(pop_before(s, s.len() as int));
    crate::slice::lemma_words_pop_bounds(s, s.len() as int);
    lemma_entry_span(s, c, sel, 512 * i);
    assert((512 * i) / 512 == i);
    if i + 1 < e {
        assert(holds_bit(s, sel[i + 1] as int, 512 * (i + 1)));
    }
}

/// Inventory entries never go back.
proof fn lemma_inventory_le(s: Seq<u64>, c: Seq<u64>, sel: Seq<u64>, a: int, b: int)
    requires
        counts_ok(s, c),
        inventory_ok(s, sel),
        0 <= a <= b <= entries_of(pop_before(s, s.len() as int)),
    ensures
        sel[a] <= sel[b],
    decreases b - a,
{
    if a < b {
        lemma_inventory_le(s, c, sel, a, b - 1);
        lemma_entry_order(s, c, sel, b - 1);
    }
}

/// The relative counts of a dense span: nondecreasing, below `2^15`, and
/// the stored counts where they are not padding.
proof fn lemma_rel_props(s: Seq<u64>, c: Seq<u64>, lo: int, hi: int)
    requires
        counts_ok(s, c),
        0 <= lo < hi <= blocks_of(s.len() as int),
        hi - lo < 64,
    ensures
        forall|j1: int, j2: int| 0 <= j1 <= j2 ==> #[trigger] rel_count(s, lo, hi, j1) <= #[trigger] rel_count(s, lo, hi, j2),
        forall|j: int| 0 <= j ==> 0 <= #[trigger] rel_count(s, lo, hi, j) < 0x8000,
        forall|j: int| 0 <= j && lo + 1 + j <= hi ==> #[trigger] rel_count(s, lo, hi, j) == before_block(c, lo + 1 + j) - before_block(c, lo),
        forall|j: int| 0 <= j && lo + 1 + j <= hi ==> #[trigger] rel_count(s, lo, hi, j) < 0x7fff,
{
    assert forall|j1: int, j2: int| 0 <= j1 <= j2 implies #[trigger] rel_count(s, lo, hi, j1) <= #[trigger] rel_count(s, lo, hi, j2) by {
        lemma_pop_diff(s, 8 * lo, 8 * (lo + 1 + j1));
        lemma_pop_diff(s, 8 * (lo + 1 + j1), 8 * (lo + 1 + j2));
        if lo + 1 + j1 <= hi {
            lemma_pop_diff(s, 8 * (lo + 1 + j1), 8 * hi);
        }
        lemma_pop_diff(s, 8 * lo, 8 * hi);
    }
    assert forall|j: int| 0 <= j implies 0 <= #[trigger] rel_count(s, lo, hi, j) < 0x8000 by {
        lemma_pop_diff(s, 8 * lo, 8 * (lo + 1 + j));
    }
    assert forall|j: int| 0 <= j && lo + 1 + j <= hi implies #[trigger] rel_count(s, lo, hi, j) == before_block(c, lo + 1 + j) - before_block(c, lo) by {
        assert(before_block(c, lo + 1 + j) == pop_before(s, 8 * (lo + 1 + j)));
        assert(before_block(c, lo) == pop_before(s, 8 * lo));
    }
    assert forall|j: int| 0 <= j && lo + 1 + j <= hi implies #[trigger] rel_count(s, lo, hi, j) < 0x7fff by {
        lemma_pop_diff(s, 8 * lo, 8 * (lo + 1 + j));
    }
}

/// The lanes of a flat span's pool words are its relative counts.
proof fn lemma_flat_lanes(s: Seq<u64>, c: Seq<u64>, sel: Seq<u64>, i: int)
    requires
        counts_ok(s, c),
        inventory_ok(s, sel),
        pool_ok(s, sel),
        0 <= i < entries_of(pop_before(s, s.len() as int)),
        0 <= sel[i] < sel[i + 1] <= blocks_of(s.len() as int),
        4 <= sel[i + 1] - sel[i] <= 15,
    ensures
        forall|w: int, l: int| 0 <= w < 4 && 0 <= l < 4 ==> #[trigger] lane16(sel[blocks_of(s.len() as int) + 1 + 2 * sel[i] + w], l) == rel_count(s, sel[i] as int, sel[i + 1] as int, 4 * w + l),
{
    let nb = blocks_of(s.len() as int);
    let lo = sel[i] as int;
    let hi = sel[i + 1] as int;
    lemma_rel_props(s, c, lo, hi);
    assert(entry_ok(s, sel, i));
    assert forall|w: int, l: int| 0 <= w < 4 && 0 <= l < 4 implies #[trigger] lane16(sel[nb + 1 + 2 * lo + w], l) == rel_count(s, lo, hi, 4 * w + l) by {
        assert(region_word(sel, nb, lo, w) == pool_word(s, i, lo, hi, w));
        let r = |j: int| rel_count(s, lo, hi, j) as u64;
        lemma_lanes4_get(r(4 * w), r(4 * w + 1), r(4 * w + 2), r(4 * w + 3));
    }
}

/// The lanes of a two-level span's pool words: the group counts, then the
/// counts inside each group.
proof fn lemma_two_lanes(s: Seq<u64>, c: Seq<u64>, sel: Seq<u64>, i: int)
    requires
        counts_ok(s, c),
        inventory_ok(s, sel),
        pool_ok(s, sel),
        0 <= i < entries_of(pop_before(s, s.len() as int)),
        0 <= sel[i] < sel[i + 1] <= blocks_of(s.len() as int),
        16 <= sel[i + 1] - sel[i] <= 63,
    ensures
        forall|w: int, l: int| 0 <= w < 2 && 0 <= l < 4 ==> #[trigger] lane16(sel[blocks_of(s.len() as int) + 1 + 2 * sel[i] + w], l) == rel_count(s, sel[i] as int, sel[i + 1] as int, 8 * (4 * w + l) + 7),
        forall|g: int, w: int, l: int| 0 <= g < 8 && 0 <= w < 2 && 0 <= l < 4 ==> #[trigger] lane16(sel[blocks_of(s.len() as int) + 1 + 2 * sel[i] + 2 + 2 * g + w], l) == rel_count(s, sel[i] as int, sel[i + 1] as int, 8 * g + 4 * w + l),
{
    let nb = blocks_of(s.len() as int);
    let lo = sel[i] as int;
    let hi = sel[i + 1] as int;
    lemma_rel_props(s, c, lo, hi);
    assert(entry_ok(s, sel, i));
    let r = |j: int| rel_count(s, lo, hi, j) as u64;
    assert forall|w: int, l: int| 0 <= w < 2 && 0 <= l < 4 implies #[trigger] lane16(sel[nb + 1 + 2 * lo + w], l) == rel_count(s, lo, hi, 8 * (4 * w + l) + 7) by {
        assert(region_word(sel, nb, lo, w) == pool_word(s, i, lo, hi, w));
        lemma_lanes4_get(r(32 * w + 7), r(32 * w + 15), r(32 * w + 23), r(32 * w + 31));
    }
    assert forall|g: int, w: int, l: int| 0 <= g < 8 && 0 <= w < 2 && 0 <= l < 4 implies #[trigger] lane16(sel[nb + 1 + 2 * lo + 2 + 2 * g + w], l) == rel_count(s, lo, hi, 8 * g + 4 * w + l) by {
        let ww = 2 + 2 * g + w;
        assert((ww - 2) / 2 == g);
        assert((ww - 2) % 2 == w);
        assert(region_word(sel, nb, lo, ww) == pool_word(s, i, lo, hi, ww));
        assert(nb + 1 + 2 * lo + ww == nb + 1 + 2 * lo + 2 + 2 * g + w);
        let j = 8 * g + 4 * w;
        lemma_lanes4_get(r(j), r(j + 1), r(j + 2), r(j + 3));
    }
}

/// The two compares of a two-level span count the relative counts at most
/// `t` among all 64.
proof fn lemma_two_prefix(s: Seq<u64>, lo: int, hi: int, g: int, off: int, t: int)
    requires
        0 <= lo < hi,
        16 <= hi - lo <= 63,
        0 <= t,
        forall|j1: int, j2: int| 0 <= j1 <= j2 ==> #[trigger] rel_count(s, lo, hi, j1) <= #[trigger] rel_count(s, lo, hi, j2),
        0 <= g < 8,
        0 <= off <= 8,
        forall|j: int| 0 <= j < 8 ==> (#[trigger] rel_count(s, lo, hi, 8 * j + 7) <= t <==> j < g),
        forall|j: int| 0 <= j < 8 ==> (#[trigger] rel_count(s, lo, hi, 8 * g + j) <= t <==> j < off),
    ensures
        off < 8,
        forall|j: int| 0 <= j < 64 ==> (#[trigger] rel_count(s, lo, hi, j) <= t <==> j < 8 * g + off),
{
    assert(!(rel_count(s, lo, hi, 8 * g + 7) <= t));
    assert forall|j: int| 0 <= j < 64 implies (#[trigger] rel_count(s, lo, hi, j) <= t <==> j < 8 * g + off) by {
        if j < 8 * g {
            assert(rel_count(s, lo, hi, 8 * (g - 1) + 7) <= t);
            assert(rel_count(s, lo, hi, j) <= rel_count(s, lo, hi, 8 * (g - 1) + 7));
        } else if j < 8 * g + 8 {
            assert(rel_count(s, lo, hi, 8 * g + (j - 8 * g)) <= t <==> j - 8 * g < off);
        } else {
            assert(rel_count(s, lo, hi, 8 * g + 7) <= rel_count(s, lo, hi, j));
        }
    }
}

/// A count of the relative counts at most `t = k - before(lo)` names the
/// block holding set bit `k`.
proof fn lemma_prefix_block(s: Seq<u64>, c: Seq<u64>, lo: int, hi: int, m: int, t: int, k: int, n: int)
    requires
        counts_ok(s, c),
        0 <= lo < hi <= blocks_of(s.len() as int),
        hi - lo < 64,
        hi - lo <= n,
        0 <= m <= n,
        t == k - before_block(c, lo),
        0 <= t < 0x7fff,
        forall|j: int| 0 <= j && lo + 1 + j <= hi ==> #[trigger] rel_count(s, lo, hi, j) == before_block(c, lo + 1 + j) - before_block(c, lo),
        forall|j: int| 0 <= j && lo + 1 + j <= hi ==> #[trigger] rel_count(s, lo, hi, j) < 0x7fff,
        forall|j: int| 0 <= j < n ==> (#[trigger] rel_count(s, lo, hi, j) <= t <==> j < m),
    ensures
        lo <= lo + m <= hi,
        before_block(c, lo + m) <= k,
        lo + m < hi ==> k < before_block(c, lo + m + 1),
{
    if m > 0 {
        assert(rel_count(s, lo, hi, m - 1) <= t);
    }
    if lo + m < hi {
        assert(!(rel_count(s, lo, hi, m) <= t));
    }
}

/// Reading stored position `nn` of entry `i`: the lane of its pool word is
/// the position of set bit `512 i + nn` relative to the entry's block.
proof fn lemma_pos_read(s: Seq<u64>, c: Seq<u64>, sel: Seq<u64>, i: int, nn: int, wide: bool)
    requires
        counts_ok(s, c),
        inventory_ok(s, sel),
        pool_ok(s, sel),
        0 <= i < entries_of(pop_before(s, s.len() as int)),
        0 <= sel[i] < sel[i + 1] <= blocks_of(s.len() as int),
        holds_bit(s, sel[i] as int, 512 * i),
        512 * (i + 1) < pop_before(s, s.len() as int) ==> holds_bit(s, sel[i + 1] as int, 512 * (i + 1)),
        512 * (i + 1) >= pop_before(s, s.len() as int) ==> sel[i + 1] == blocks_of(s.len() as int),
        0 <= nn < 512,
        512 * i + nn < pop_before(s, s.len() as int),
        wide == (span_of(sel[i + 1] - sel[i]) == Span::Pos32),
        span_of(sel[i + 1] - sel[i]) == Span::Pos16 || span_of(sel[i + 1] - sel[i]) == Span::Pos32,
    ensures
        ({
            let nb = blocks_of(s.len() as int);
            let lo = sel[i] as int;
            let word = if wide { sel[nb + 1 + 2 * lo + nn / 2] } else { sel[nb + 1 + 2 * lo + nn / 4] };
            let got = if wide { (word >> ((32 * (nn % 2)) as u64)) & 0xffff_ffff } else { (word >> ((16 * (nn % 4)) as u64)) & 0xffff };
            &&& sbit(s, 512 * lo + got)
            &&& srank(s, 512 * lo + got) == 512 * i + nn
        }),
{
    let nb = blocks_of(s.len() as int);
    let lo = sel[i] as int;
    let hi = sel[i + 1] as int;
    let k = 512 * i + nn;
    crate::slice::lemma_words_pop_bounds(s, s.len() as int);
    assert(pop_before(s, s.len() as int) == words_pop(s, s.len() as int));
    assert(entry_ok(s, sel, i));
    assert(nn < stored_of(s, i));
    if 512 * (i + 1) >= pop_before(s, s.len() as int) {
        lemma_pop_diff(s, s.len() as int, 8 * hi + 8);
    }
    lemma_pos_in_blocks(s, lo, hi, k);
    lemma_sel_pos(s, k);
    let pos = |t: int| stored_pos(s, i, lo, t);
    assert(pos(nn) == (sel_pos(s, k) - 512 * lo) as u64);
    if wide {
        let w = nn / 2;
        assert(region_word(sel, nb, lo, w) == pool_word(s, i, lo, hi, w));
        lemma_stored_bound(s, i, lo, hi, 2 * w);
        lemma_stored_bound(s, i, lo, hi, 2 * w + 1);
        lemma_lanes(pos(2 * w), pos(2 * w + 1), 0, 0, 0);
    } else {
        let w = nn / 4;
        assert(region_word(sel, nb, lo, w) == pool_word(s, i, lo, hi, w));
        lemma_stored_bound(s, i, lo, hi, 4 * w);
        lemma_stored_bound(s, i, lo, hi, 4 * w + 1);
        lemma_stored_bound(s, i, lo, hi, 4 * w + 2);
        lemma_stored_bound(s, i, lo, hi, 4 * w + 3);
        lemma_lanes(pos(4 * w), pos(4 * w + 1), pos(4 * w + 2), pos(4 * w + 3), 0);
    }
}
} // verus!
