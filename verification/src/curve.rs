//! The curves behind one interface, for code that should not care which:
//! a key encodes a cell, decodes back to it, and is a raw word to sort and
//! store. Each curve says, through the interface's spec functions, which
//! bits of its key hold which bits of the coordinates.
use vstd::prelude::*;
use crate::model::bit_of;
use crate::dilated::{Morton2, Morton3};
use crate::hilbert::{cell_x, cell_y, Hilbert2};

verus! {

/// A key of a 2D curve over the full width of a word: `levels()` levels, a
/// `2^levels()` square, keys ordered as the curve visits the cells.
pub trait Curve2: Sized + Copy {
    /// Levels of the curve: half the bits of the word.
    spec fn levels() -> int;
    /// The raw key.
    spec fn key_of(&self) -> u64;
    /// Bit `j` of the column of the cell the key `key` names.
    spec fn col_bit(key: u64, j: int) -> bool;
    /// Bit `j` of the row of the cell the key `key` names.
    spec fn row_bit(key: u64, j: int) -> bool;

    /// The key of `(x, y)`; coordinate bits above the levels are dropped.
    fn encode(x: u64, y: u64) -> (r: Self)
        ensures
            forall|j: int| 0 <= j < Self::levels() ==> #[trigger] Self::col_bit(r.key_of(), j) == bit_of(x, j)
                && Self::row_bit(r.key_of(), j) == bit_of(y, j),
    ;

    /// The `(x, y)` of this key.
    fn decode(self) -> (r: (u64, u64))
        ensures
            forall|j: int| 0 <= j < 64 ==> #[trigger] bit_of(r.0, j) == (j < Self::levels() && Self::col_bit(self.key_of(), j)),
            forall|j: int| 0 <= j < 64 ==> #[trigger] bit_of(r.1, j) == (j < Self::levels() && Self::row_bit(self.key_of(), j)),
    ;

    /// The raw key, the word to sort and store.
    fn key(self) -> (r: u64)
        ensures
            r == self.key_of(),
    ;

    /// Wraps a raw key.
    fn from_key(key: u64) -> (r: Self)
        ensures
            r.key_of() == key,
    ;
}

/// A key of a 3D curve over the full width of a word: `levels()` levels, a
/// `2^levels()` cube.
pub trait Curve3: Sized + Copy {
    /// Levels of the curve: a third of the bits of the word.
    spec fn levels() -> int;
    /// The raw key.
    spec fn key_of(&self) -> u64;
    /// Bit `j` of coordinate `axis` (0, 1 or 2) of the cell the key names.
    spec fn coord_bit(key: u64, axis: int, j: int) -> bool;

    /// The key of `(x, y, z)`; coordinate bits above the levels are dropped.
    fn encode(x: u64, y: u64, z: u64) -> (r: Self)
        ensures
            forall|j: int| 0 <= j < Self::levels() ==> #[trigger] Self::coord_bit(r.key_of(), 0, j) == bit_of(x, j)
                && Self::coord_bit(r.key_of(), 1, j) == bit_of(y, j) && Self::coord_bit(r.key_of(), 2, j) == bit_of(z, j),
    ;

    /// The `(x, y, z)` of this key.
    fn decode(self) -> (r: (u64, u64, u64))
        ensures
            forall|j: int| 0 <= j < Self::levels() ==> #[trigger] bit_of(r.0, j) == Self::coord_bit(self.key_of(), 0, j)
                && bit_of(r.1, j) == Self::coord_bit(self.key_of(), 1, j) && bit_of(r.2, j) == Self::coord_bit(self.key_of(), 2, j),
    ;

    /// The raw key.
    fn key(self) -> (r: u64)
        ensures
            r == self.key_of(),
    ;

    /// Wraps a raw key.
    fn from_key(key: u64) -> (r: Self)
        ensures
            r.key_of() == key,
    ;
}

impl Curve2 for Morton2 {
    open spec fn levels() -> int {
        32
    }

    open spec fn key_of(&self) -> u64 {
        self@
    }

    /// The column is the even bits.
    open spec fn col_bit(key: u64, j: int) -> bool {
        bit_of(key, 2 * j)
    }

    /// The row is the odd bits.
    open spec fn row_bit(key: u64, j: int) -> bool {
        bit_of(key, 2 * j + 1)
    }

    fn encode(x: u64, y: u64) -> (r: Morton2) {
        Morton2::encode(x, y)
    }

    fn decode(self) -> (r: (u64, u64)) {
        Morton2::decode(self)
    }

    fn key(self) -> (r: u64) {
        self.code()
    }

    fn from_key(key: u64) -> (r: Morton2) {
        Morton2::from_code(key)
    }
}

impl Curve2 for Hilbert2 {
    open spec fn levels() -> int {
        32
    }

    open spec fn key_of(&self) -> u64 {
        self@
    }

    open spec fn col_bit(key: u64, j: int) -> bool {
        cell_x(key, j)
    }

    open spec fn row_bit(key: u64, j: int) -> bool {
        cell_y(key, j)
    }

    fn encode(x: u64, y: u64) -> (r: Hilbert2) {
        Hilbert2::encode(x, y)
    }

    fn decode(self) -> (r: (u64, u64)) {
        Hilbert2::decode(self)
    }

    fn key(self) -> (r: u64) {
        self.index()
    }

    fn from_key(key: u64) -> (r: Hilbert2) {
        Hilbert2::from_index(key)
    }
}

impl Curve3 for Morton3 {
    open spec fn levels() -> int {
        21
    }

    open spec fn key_of(&self) -> u64 {
        self@
    }

    /// Coordinate `axis` is bits `axis, axis + 3, axis + 6, ...`.
    open spec fn coord_bit(key: u64, axis: int, j: int) -> bool {
        bit_of(key, 3 * j + axis)
    }

    fn encode(x: u64, y: u64, z: u64) -> (r: Morton3) {
        Morton3::encode(x, y, z)
    }

    fn decode(self) -> (r: (u64, u64, u64)) {
        let r = Morton3::decode(self);
        proof {
            assert forall|j: int| 0 <= j < 21 implies #[trigger] bit_of(r.0, j) == bit_of(self@, 3 * j)
                && bit_of(r.1, j) == bit_of(self@, 3 * j + 1) && bit_of(r.2, j) == bit_of(self@, 3 * j + 2) by {
                assert(bit_of(r.0, j) == (j * 3 + 0 < 64 && bit_of(self@, j * 3 + 0)));
                assert(bit_of(r.1, j) == (j * 3 + 1 < 64 && bit_of(self@, j * 3 + 1)));
                assert(bit_of(r.2, j) == (j * 3 + 2 < 64 && bit_of(self@, j * 3 + 2)));
            }
        }
        r
    }

    fn key(self) -> (r: u64) {
        self.code()
    }

    fn from_key(key: u64) -> (r: Morton3) {
        Morton3::from_code(key)
    }
}

} // verus!
