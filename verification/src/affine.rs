//! Affine maps on the bits of a byte: `x ↦ A·x ⊕ b` over GF(2).
//!
//! Eight rows of eight bits are a matrix `A`; with a constant `b` the pair
//! names every function of a byte that is XOR-linear in the bits plus a
//! constant: shifts, rotates, bit reversal, parity, NOT, and any
//! composition of those. Composition is matrix multiplication,
//! [`Affine8::and_then`], so a chain of byte tricks folds into one map.
//!
//! The layout is `gf2p8affineqb`'s: byte `7 - i` of the matrix is the row
//! that builds output bit `i`, so byte 0 builds bit 7 and the identity is
//! `0x0102_0408_1020_4080`.
use vstd::prelude::*;
use crate::model::{bit_of, group_bits, lemma_bits_eq, parity_below};
use crate::swar::lane;

verus! {

broadcast use group_bits;

/// Row `i` of a matrix: the byte that builds output bit `i`.
pub open spec fn row_of(m: u64, i: int) -> u64 {
    (m >> ((8 * (7 - i)) as u64)) & 0xff
}

/// Parity of the set bits of a word.
pub open spec fn parity_of(v: u64) -> bool {
    parity_below(v, 64)
}

/// Output bit `i` of the map `(m, add)` at `x`.
pub open spec fn image_bit(m: u64, add: u8, x: u64, i: int) -> bool {
    parity_of(row_of(m, i) & x) != bit_of(add as u64, i)
}

/// The map `(m, add)` sends `x` to `y`.
pub open spec fn maps_to(m: u64, add: u8, x: u8, y: u8) -> bool {
    forall|i: int| 0 <= i < 8 ==> #[trigger] bit_of(y as u64, i) == image_bit(m, add, x as u64, i)
}

/// An affine map on the bits of a byte: a matrix in `gf2p8affineqb` layout
/// and a constant.
#[derive(Clone, Copy, PartialEq, Eq, Structural, Hash, Debug)]
pub struct Affine8 {
    matrix: u64,
    add: u8,
}

impl View for Affine8 {
    type V = (u64, u8);

    closed spec fn view(&self) -> (u64, u8) {
        (self.matrix, self.add)
    }
}

/// The identity matrix.
pub const IDENTITY_MATRIX: u64 = 0x0102_0408_1020_4080;

/// Bits of a byte at or above 8 are clear.
proof fn lemma_byte_bits(v: u64, i: int)
    requires
        v < 256,
        i >= 8,
    ensures
        !bit_of(v, i),
{
    if i < 64 {
        lemma_word_bytes(v, 0, v, i as u64);
    }
}

/// The parity of a byte is the parity of its low eight bits.
proof fn lemma_parity_byte(v: u64, n: int)
    requires
        v < 256,
        8 <= n,
    ensures
        parity_below(v, n) == parity_below(v, 8),
    decreases n,
{
    if n > 8 {
        lemma_parity_byte(v, n - 1);
        lemma_byte_bits(v, n - 1);
    }
}

/// A word with no set bits has even parity.
proof fn lemma_parity_no_bits(v: u64, n: int)
    requires
        forall|i: int| !#[trigger] bit_of(v, i),
    ensures
        !parity_below(v, n),
    decreases n,
{
    if n > 0 {
        lemma_parity_no_bits(v, n - 1);
    }
}

/// Two bytes with the same low eight bits are equal.
proof fn lemma_byte_eq(a: u8, b: u8)
    requires
        forall|i: int| 0 <= i < 8 ==> #[trigger] bit_of(a as u64, i) == bit_of(b as u64, i),
    ensures
        a == b,
{
    assert forall|i: int| 0 <= i < 64 implies #[trigger] bit_of(a as u64, i) == bit_of(b as u64, i) by {
        if i >= 8 {
            lemma_byte_bits(a as u64, i);
            lemma_byte_bits(b as u64, i);
        }
    }
    lemma_bits_eq(a as u64, b as u64);
}

impl Affine8 {
    /// A map from its matrix in `gf2p8affineqb` layout (byte `7 - i` builds
    /// bit `i`) and its constant.
    pub fn new(matrix: u64, add: u8) -> (r: Affine8)
        ensures
            r@ == (matrix, add),
    {
        Affine8 { matrix, add }
    }

    /// A map from its rows in bit order: `rows[i]` masks the input and its
    /// parity is output bit `i`, XOR bit `i` of `add`.
    pub fn from_rows(rows: [u8; 8], add: u8) -> (r: Affine8)
        ensures
            r@.1 == add,
            forall|i: int| 0 <= i < 8 ==> #[trigger] row_of(r@.0, i) == rows[i] as u64,
    {
        let mut m: u64 = 0;
        let mut i: usize = 0;
        proof {
            assert forall|j: int| 0 <= j < 8 implies #[trigger] row_of(0u64, j) == 0 by {
                lemma_word_bytes(0, (8 * (7 - j)) as u64, 0, 0);
            }
        }
        while i < 8
            invariant
                i <= 8,
                forall|j: int| 0 <= j < i ==> #[trigger] row_of(m, j) == rows[j] as u64,
                forall|j: int| i <= j < 8 ==> #[trigger] row_of(m, j) == 0,
            decreases 8 - i,
        {
            let old_m = m;
            let sh = (8 * (7 - i)) as u64;
            m = m | ((rows[i] as u64) << sh);
            proof {
                let b = rows[i as int] as u64;
                assert(row_of(old_m, i as int) == 0);
                assert forall|j: int| 0 <= j < 8 implies #[trigger] row_of(m, j) == if j == i { b } else { row_of(old_m, j) } by {
                    let s = (8 * (7 - j)) as u64;
                    lemma_row_insert(old_m, b, sh, s);
                }
            }
            i = i + 1;
        }
        Affine8 { matrix: m, add }
    }

    /// The matrix, in the instruction's layout.
    pub fn matrix(self) -> (r: u64)
        ensures
            r == self@.0,
    {
        self.matrix
    }

    /// The constant term.
    pub fn add(self) -> (r: u8)
        ensures
            r == self@.1,
    {
        self.add
    }

    /// The row that builds output bit `bit < 8`.
    pub fn row(self, bit: usize) -> (r: u8)
        requires
            bit < 8,
        ensures
            r as u64 == row_of(self@.0, bit as int),
    {
        let sh = (8 * (7 - bit)) as u64;
        proof {
            lemma_word_bytes(self.matrix, sh, 0, 0);
        }
        ((self.matrix >> sh) & 0xff) as u8
    }

    /// `true` when the constant is zero: the map is linear.
    pub fn is_linear(self) -> (r: bool)
        ensures
            r == (self@.1 == 0),
    {
        self.add == 0
    }

    /// `x ↦ x << n`; `n >= 8` is the zero map. The identity matrix shifted
    /// right by `8 n` bits.
    pub fn shl(n: u32) -> (r: Affine8)
        ensures
            r@ == (if n >= 8 { 0u64 } else { IDENTITY_MATRIX >> (8 * n) as u64 }, 0u8),
    {
        if n >= 8 {
            Affine8 { matrix: 0, add: 0 }
        } else {
            Affine8 { matrix: IDENTITY_MATRIX >> (8 * n), add: 0 }
        }
    }

    /// `x ↦ x >> n`, logical; `n >= 8` is the zero map. The identity matrix
    /// shifted left by `8 n` bits.
    pub fn shr(n: u32) -> (r: Affine8)
        ensures
            r@ == (if n >= 8 { 0u64 } else { IDENTITY_MATRIX << (8 * n) as u64 }, 0u8),
    {
        if n >= 8 {
            Affine8 { matrix: 0, add: 0 }
        } else {
            Affine8 { matrix: IDENTITY_MATRIX << (8 * n), add: 0 }
        }
    }

    /// `x ↦ (x as i8) >> n`, arithmetic: [`shr`](Self::shr) with the rows
    /// of the vacated bits set to `0x80`, the sign. `n >= 8` fills every bit
    /// with the sign.
    pub fn sra(n: u32) -> (r: Affine8)
        ensures
            r@ == (if n >= 8 {
                0x8080_8080_8080_8080u64
            } else {
                (IDENTITY_MATRIX << (8 * n) as u64) | (!(0xffff_ffff_ffff_ffffu64 << (8 * n) as u64)
                    & 0x8080_8080_8080_8080u64)
            }, 0u8),
    {
        if n >= 8 {
            return Affine8 { matrix: 0x8080_8080_8080_8080, add: 0 };
        }
        let vacated = !(0xffff_ffff_ffff_ffffu64 << (8 * n)) & 0x8080_8080_8080_8080u64;
        Affine8 { matrix: (IDENTITY_MATRIX << (8 * n)) | vacated, add: 0 }
    }

    /// `x ↦ x.rotate_left(n mod 8)`: the rows of [`shl`](Self::shl) and of
    /// [`shr`](Self::shr) by the complement, combined.
    pub fn rotl(n: u32) -> (r: Affine8)
        ensures
            r@ == (if n % 8 == 0 {
                IDENTITY_MATRIX
            } else {
                (IDENTITY_MATRIX >> (8 * (n % 8)) as u64) | (IDENTITY_MATRIX << (8 * (8 - n % 8)) as u64)
            }, 0u8),
    {
        let n = n % 8;
        if n == 0 {
            Affine8 { matrix: IDENTITY_MATRIX, add: 0 }
        } else {
            Affine8 { matrix: Self::shl(n).matrix | Self::shr(8 - n).matrix, add: 0 }
        }
    }

    /// `x ↦ x.rotate_right(n mod 8)`.
    pub fn rotr(n: u32) -> (r: Affine8)
        ensures
            r@ == (if (8 - n % 8) % 8 == 0 {
                IDENTITY_MATRIX
            } else {
                (IDENTITY_MATRIX >> (8 * ((8 - n % 8) % 8)) as u64) | (IDENTITY_MATRIX << (8 * (8 - (8 - n
                    % 8) % 8)) as u64)
            }, 0u8),
    {
        Self::rotl((8 - n % 8) % 8)
    }

    /// The map applied to one byte: eight ANDs, eight parities.
    pub fn apply(self, x: u8) -> (r: u8)
        ensures
            maps_to(self@.0, self@.1, x, r),
    {
        let mut out: u8 = 0;
        let mut i: usize = 0;
        while i < 8
            invariant
                i <= 8,
                forall|j: int| 0 <= j < i ==> #[trigger] bit_of(out as u64, j) == parity_of(row_of(self.matrix, j) & x as u64),
                forall|j: int| i <= j < 64 ==> !#[trigger] bit_of(out as u64, j),
            decreases 8 - i,
        {
            let v = (self.row(i) & x) as u64;
            proof {
                crate::model::lemma_parity_is_count_mod2(v, 64);
                assert(v == row_of(self.matrix, i as int) & x as u64) by {
                    let rw = row_of(self.matrix, i as int);
                    lemma_word_bytes(self.matrix, (8 * (7 - i)) as u64, 0, 0);
                    lemma_byte_ops(x, 0, 0, 0, rw, 0, 0);
                }
            }
            if crate::word::Word::count_ones(v) & 1 == 1 {
                let old_out = out;
                out = out | (1u8 << i);
                proof {
                    lemma_set_byte_bit(old_out, i as u64);
                }
            }
            proof {
                assert(parity_of(v) == (crate::model::popcount(v) % 2 == 1));
                assert((crate::model::popcount(v) as u32) & 1 == 1 <==> crate::model::popcount(v) % 2 == 1) by {
                    lemma_byte_ops(0, 0, 0, 0, 0, 0, crate::model::popcount(v) as u32);
                }
            }
            i = i + 1;
        }
        let a = self.add;
        let r = out ^ a;
        proof {
            lemma_byte_ops(out, a, 0, 0, 0, 0, 0);
        }
        r
    }

    /// The map applied to each of the eight bytes of a word: per output bit,
    /// AND the word with the row splatted, fold the parity of each byte into
    /// its bit 0 with three XOR-shifts, and place it.
    pub fn apply8(self, bytes: u64) -> (r: u64)
        ensures
            forall|j: int|
                0 <= j < 8 ==> maps_to(self@.0, self@.1, #[trigger] lane(bytes, j) as u8, lane(r, j) as u8),
    {
        let mut out: u64 = 0;
        let mut i: usize = 0;
        while i < 8
            invariant
                i <= 8,
                forall|j: int, b: int| 0 <= j < 8 && 0 <= b < 8 ==> #[trigger] bit_of(out, 8 * j + b) == (b < i && parity_of(row_of(self.matrix, b) & lane(bytes, j))),
            decreases 8 - i,
        {
            let rw = self.row(i) as u64;
            let mut t = bytes & (rw * 0x0101_0101_0101_0101u64);
            t = t ^ (t >> 4u64);
            t = t ^ (t >> 2u64);
            t = t ^ (t >> 1u64);
            let old_out = out;
            out = out | ((t & 0x0101_0101_0101_0101u64) << i);
            proof {
                assert forall|j: int, b: int| 0 <= j < 8 && 0 <= b < 8 implies #[trigger] bit_of(out, 8 * j + b) == (b < i + 1 && parity_of(row_of(self.matrix, b) & lane(bytes, j))) by {
                    lemma_fold_lane(bytes, rw, j, b, i as int);
                }
            }
            i = i + 1;
        }
        let r = out ^ ((self.add as u64) * 0x0101_0101_0101_0101u64);
        proof {
            assert forall|j: int| 0 <= j < 8 implies maps_to(self.matrix, self.add, #[trigger] lane(bytes, j) as u8, lane(r, j) as u8) by {
                assert forall|b: int| 0 <= b < 8 implies #[trigger] bit_of(lane(r, j) as u8 as u64, b) == image_bit(self.matrix, self.add, lane(bytes, j) as u8 as u64, b) by {
                    lemma_lane_bit(r, j, b);
                    lemma_lane_bit(bytes, j, b);
                    assert(bit_of(out, 8 * j + b) == parity_of(row_of(self.matrix, b) & lane(bytes, j)));
                    lemma_splat_bit(self.add, j, b);
                    lemma_lane_small(bytes, j);
                    lemma_lane_small(r, j);
                }
            }
        }
        r
    }

    /// The two nibble tables of the map: `lo[k]` is the image of `k`, `hi[k]`
    /// the image of `k << 4` without the constant, so the image of any byte
    /// is `lo[low nibble] ^ hi[high nibble]`.
    pub fn tables(self) -> (r: ([u8; 16], [u8; 16]))
        ensures
            forall|k: int| 0 <= k < 16 ==> maps_to(self@.0, self@.1, k as u8, #[trigger] r.0[k]),
            forall|k: int| 0 <= k < 16 ==> maps_to(self@.0, self@.1, (k * 16) as u8, #[trigger] r.1[k] ^ self@.1),
    {
        let mut lo = [0u8; 16];
        let mut hi = [0u8; 16];
        let mut k: u8 = 0;
        while k < 16
            invariant
                k <= 16,
                forall|j: int| 0 <= j < k ==> maps_to(self.matrix, self.add, j as u8, #[trigger] lo[j]),
                forall|j: int| 0 <= j < k ==> maps_to(self.matrix, self.add, (j * 16) as u8, #[trigger] hi[j] ^ self.add),
            decreases 16 - k,
        {
            lo[k as usize] = self.apply(k);
            let h = self.apply(k << 4u8);
            let a = self.add;
            hi[k as usize] = h ^ a;
            proof {
                lemma_byte_ops(h, a, k, 0, 0, 0, 0);
            }
            k = k + 1;
        }
        (lo, hi)
    }

    /// The map that applies `self`, then `next`. Its matrix is the product
    /// `A_next · A_self`, row `i` being the XOR of the rows of `self`
    /// selected by row `i` of `next`; its constant is `next` applied to
    /// `self`'s.
    pub fn and_then(self, next: Affine8) -> (r: Affine8)
        ensures
            forall|x: u8, y: u8, z: u8|
                #[trigger] maps_to(self@.0, self@.1, x, y) && #[trigger] maps_to(next@.0, next@.1, y, z)
                    ==> maps_to(r@.0, r@.1, x, z),
    {
        let mut rows = [0u8; 8];
        let mut i: usize = 0;
        while i < 8
            invariant
                i <= 8,
                forall|q: int, x: u64| 0 <= q < i ==> parity_of(#[trigger] ((rows[q] as u64) & x)) == xor_sel(self.matrix, row_of(next.matrix, q), x, 8),
            decreases 8 - i,
        {
            let selector = next.row(i);
            let mut acc: u8 = 0;
            let mut j: usize = 0;
            proof {
                assert forall|x: u64| parity_of(#[trigger] ((0u8 as u64) & x)) == false by {
                    lemma_parity_no_bits((0u8 as u64) & x, 64);
                }
            }
            while j < 8
                invariant
                    j <= 8,
                    forall|x: u64| parity_of(#[trigger] ((acc as u64) & x)) == xor_sel(self.matrix, selector as u64, x, j as int),
                decreases 8 - j,
            {
                let old_acc = acc;
                if (selector >> j) & 1 == 1 {
                    let rj = self.row(j);
                    acc = acc ^ rj;
                    proof {
                        assert forall|x: u64| parity_of(#[trigger] ((acc as u64) & x)) == (parity_of((old_acc as u64) & x) != parity_of(row_of(self.matrix, j as int) & x)) by {
                            lemma_byte_ops(old_acc, rj, 0, 0, 0, x, 0);
                            crate::laws::lemma_parity_xor((old_acc as u64) & x, (rj as u64) & x, 64);
                        }
                    }
                }
                proof {
                    assert(((selector >> j) & 1 == 1) == bit_of(selector as u64, j as int)) by {
                        lemma_byte_ops(selector, 0, 0, j as u64, 0, 0, 0);
                    }
                }
                j = j + 1;
            }
            rows[i] = acc;
            i = i + 1;
        }
        let add = next.apply(self.add);
        let r = Self::from_rows(rows, add);
        proof {
            assert forall|x: u8, y: u8, z: u8|
                #[trigger] maps_to(self.matrix, self.add, x, y) && #[trigger] maps_to(next.matrix, next.add, y, z)
                    implies maps_to(r.matrix, r.add, x, z) by {
                assert forall|q: int| 0 <= q < 8 implies #[trigger] bit_of(z as u64, q) == image_bit(r.matrix, r.add, x as u64, q) by {
                    let sel = row_of(next.matrix, q);
                    lemma_word_bytes(next.matrix, (8 * (7 - q)) as u64, 0, 0);
                    lemma_xor_sel_image(self.matrix, self.add, sel, x, y, 8);
                    lemma_word_bytes(y as u64, 0, sel, 0);
                    lemma_word_bytes(self.add as u64, 0, sel, 0);
                    lemma_parity_byte(sel & (y as u64), 64);
                    lemma_parity_byte(sel & (self.add as u64), 64);
                    assert(bit_of(add as u64, q) == image_bit(next.matrix, next.add, self.add as u64, q));
                    assert(r@.0 == r.matrix);
                    assert(row_of(r@.0, q) == rows[q] as u64);
                    assert(parity_of((rows[q] as u64) & (x as u64)) == xor_sel(self.matrix, row_of(next.matrix, q), x as u64, 8));
                    assert(bit_of(z as u64, q) == image_bit(next.matrix, next.add, y as u64, q));
                }
            }
        }
        r
    }

    /// `self ∘ first`: `first` is applied first. The same map as
    /// `first.and_then(self)`.
    pub fn compose(self, first: Affine8) -> (r: Affine8)
        ensures
            forall|x: u8, y: u8, z: u8|
                #[trigger] maps_to(first@.0, first@.1, x, y) && #[trigger] maps_to(self@.0, self@.1, y, z)
                    ==> maps_to(r@.0, r@.1, x, z),
    {
        first.and_then(self)
    }
}

/// XOR of the parities of `x` against the rows of `m` that `sel` selects,
/// among rows `0..n`.
pub open spec fn xor_sel(m: u64, sel: u64, x: u64, n: int) -> bool
    decreases n,
{
    if n <= 0 {
        false
    } else {
        xor_sel(m, sel, x, n - 1) != (bit_of(sel, n - 1) && parity_of(row_of(m, n - 1) & x))
    }
}

/// Selecting bits of an image: the parity of the selected output bits is
/// the selected rows' parity against the input, XOR the selected bits of
/// the constant.
proof fn lemma_xor_sel_image(m: u64, add: u8, sel: u64, x: u8, y: u8, n: int)
    requires
        0 <= n <= 8,
        maps_to(m, add, x, y),
    ensures
        parity_below(sel & (y as u64), n) == (xor_sel(m, sel, x as u64, n) != parity_below(sel & (add as u64), n)),
    decreases n,
{
    if n > 0 {
        lemma_xor_sel_image(m, add, sel, x, y, n - 1);
        assert(bit_of(y as u64, n - 1) == image_bit(m, add, x as u64, n - 1));
    }
}

proof fn lemma_row_insert(m: u64, b: u64, sh: u64, s: u64)
    by (bit_vector)
    requires
        b < 256,
        sh % 8 == 0,
        s % 8 == 0,
        sh <= 56,
        s <= 56,
        (m >> sh) & 0xff == 0,
    ensures
        ((m | (b << sh)) >> s) & 0xff == if s == sh { b } else { (m >> s) & 0xff },
{
}

proof fn lemma_set_byte_bit(o: u8, i: u64)
    requires
        i < 8,
    ensures
        forall|j: int| #[trigger] bit_of((o | (1u8 << i)) as u64, j) == (bit_of(o as u64, j) || j == i),
{
    assert forall|j: int| #[trigger] bit_of((o | (1u8 << i)) as u64, j) == (bit_of(o as u64, j) || j == i) by {
        if 0 <= j < 64 {
            lemma_byte_ops(o, 0, 0, i, 0, 0, 0);
            lemma_byte_ops(o, 0, 0, i, j as u64, 0, 0);
        }
    }
}

proof fn lemma_lane_small(x: u64, j: int)
    ensures
        lane(x, j) < 256,
        (lane(x, j) as u8) as u64 == lane(x, j),
{
    lemma_word_bytes(x, (8 * j) as u64, 0, 0);
}

/// Facts about bytes inside a word.
proof fn lemma_word_bytes(x: u64, s: u64, v: u64, i: u64)
    by (bit_vector)
    ensures
        (x >> s) & 0xff < 256,
        (0u64 >> s) & 0xff == 0,
        v < 256 && 8 <= i < 64 ==> (v >> i) & 1 == 0,
        v < 256 ==> v & x < 256,
{
}

/// Facts about bytes and their widening to words.
proof fn lemma_byte_ops(a: u8, b: u8, k: u8, j: u64, rw: u64, x: u64, c: u32)
    by (bit_vector)
    ensures
        ((a ^ b) as u64) == (a as u64) ^ (b as u64),
        (a ^ b) ^ b == a,
        ((a ^ b) as u64) & x == ((a as u64) & x) ^ ((b as u64) & x),
        k < 16 ==> (k << 4u8) == (k * 16) as u8,
        rw < 256 ==> ((rw as u8) & a) as u64 == rw & (a as u64),
        j < 8 ==> (((a >> j) & 1 == 1) == (((a as u64) >> j) & 1 == 1)),
        j < 8 && rw < 64 ==> ((((a | (1u8 << j)) as u64) >> rw) & 1 == 1) == ((((a as u64) >> rw) & 1 == 1) || rw == j),
        c & 1 == c % 2,
{
}

pub proof fn lemma_lane_bit(x: u64, j: int, b: int)
    requires
        0 <= j < 8,
        0 <= b < 8,
    ensures
        bit_of(lane(x, j), b) == bit_of(x, 8 * j + b),
{
    lemma_lane_raw(x, 0, j as u64, b as u64);
}

/// Facts about the byte lanes of a word.
proof fn lemma_lane_raw(x: u64, a: u8, jj: u64, bb: u64)
    by (bit_vector)
    requires
        jj < 8,
        bb < 8,
    ensures
        ((((x >> (8 * jj)) & 0xff) >> bb) & 1 == 1) == ((x >> (8 * jj + bb)) & 1 == 1),
        ((((a as u64) * 0x0101_0101_0101_0101u64) as u64) >> (8 * jj + bb)) & 1 == ((a as u64) >> bb) & 1,
        (a as u64) * 0x0101_0101_0101_0101u64 <= 0xffff_ffff_ffff_ffff,
{
}

proof fn lemma_splat_bit(a: u8, j: int, b: int)
    requires
        0 <= j < 8,
        0 <= b < 8,
    ensures
        bit_of(((a as u64) * 0x0101_0101_0101_0101u64) as u64, 8 * j + b) == bit_of(a as u64, b),
        (a as u64) * 0x0101_0101_0101_0101u64 <= 0xffff_ffff_ffff_ffff,
{
    lemma_lane_raw(0, a, j as u64, b as u64);
}

/// One round of the SWAR parity fold: after masking with the splatted row
/// and three XOR-shifts, bit 0 of each byte is the parity of the byte, and
/// placing it at bit `i` of the byte adds output bit `i`.
proof fn lemma_fold_lane(bytes: u64, rw: u64, j: int, b: int, i: int)
    requires
        rw < 256,
        0 <= j < 8,
        0 <= b < 8,
        0 <= i < 8,
    ensures
        ({
            let t0 = bytes & ((rw * 0x0101_0101_0101_0101u64) as u64);
            let t1 = t0 ^ (t0 >> 4u64);
            let t2 = t1 ^ (t1 >> 2u64);
            let t3 = t2 ^ (t2 >> 1u64);
            bit_of((t3 & 0x0101_0101_0101_0101u64) << (i as u64), 8 * j + b) == (b == i && parity_of(rw & lane(bytes, j)))
        }),
{
    let jj = j as u64;
    let bb = b as u64;
    let ii = i as u64;
    let l = lane(bytes, j);
    let v = rw & l;
    lemma_word_bytes(l, 0, rw, 0);
    lemma_lane_small(bytes, j);
    lemma_parity_byte(v, 64);
    reveal_with_fuel(parity_below, 9);
    assert(({
        let t0 = bytes & ((rw * 0x0101_0101_0101_0101u64) as u64);
        let t1 = t0 ^ (t0 >> 4u64);
        let t2 = t1 ^ (t1 >> 2u64);
        let t3 = t2 ^ (t2 >> 1u64);
        (((t3 & 0x0101_0101_0101_0101u64) << ii) >> (8 * jj + bb)) & 1 == 1
    }) == (bb == ii && (((v >> 0u64) & 1 == 1) != ((v >> 1u64) & 1 == 1) != ((v >> 2u64) & 1 == 1) != ((v >> 3u64) & 1 == 1)
        != ((v >> 4u64) & 1 == 1) != ((v >> 5u64) & 1 == 1) != ((v >> 6u64) & 1 == 1) != ((v >> 7u64) & 1 == 1)))) by (bit_vector)
        requires
            rw < 256,
            jj < 8,
            bb < 8,
            ii < 8,
            v == rw & ((bytes >> (8 * jj)) & 0xff),
    ;
}

} // verus!
