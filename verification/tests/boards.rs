use hakmem::laws::board8_slides_match_reference;
use hakmem::affine::{Affine8, IDENTITY_MATRIX};
use hakmem::grid::{block_starts, clear_block, fill_block, find_block};
use hakmem::permute::{
    flip_vertical, mirror_horizontal, rotate_180, rotate_90_ccw, rotate_90_cw, slide, transpose, Dir,
};

const REVERSE: u64 = 0x8040_2010_0804_0201;

#[test]
fn affine_constants() {
    assert_eq!(Affine8::new(IDENTITY_MATRIX, 0).matrix(), 0x0102_0408_1020_4080);
    assert_eq!(Affine8::shl(1).matrix(), 0x0001_0204_0810_2040);
    assert_eq!(Affine8::shr(2).matrix(), 0x0408_1020_4080_0000);
    assert_eq!(Affine8::sra(2).matrix(), 0x0408_1020_4080_8080);
    assert_eq!(Affine8::rotl(0).matrix(), IDENTITY_MATRIX);
    assert!(Affine8::shl(3).is_linear());
    assert!(!Affine8::new(IDENTITY_MATRIX, 0xFF).is_linear());
    assert_eq!(Affine8::new(IDENTITY_MATRIX, 0x5A).add(), 0x5A);
}

#[test]
fn affine_maps_bytes() {
    let reverse = Affine8::new(REVERSE, 0);
    let a = reverse.and_then(Affine8::shl(3));
    let b = Affine8::shr(3).and_then(reverse);
    assert_eq!(a, b);
    for x in 0..=255u8 {
        assert_eq!(a.apply(x), x.reverse_bits() << 3);
        assert_eq!(Affine8::new(IDENTITY_MATRIX, 0).apply(x), x);
        assert_eq!(Affine8::shl(2).apply(x), x << 2);
        assert_eq!(Affine8::shr(5).apply(x), x >> 5);
        assert_eq!(Affine8::sra(1).apply(x), ((x as i8) >> 1) as u8);
        assert_eq!(Affine8::rotl(3).apply(x), x.rotate_left(3));
        assert_eq!(Affine8::rotr(3).apply(x), x.rotate_right(3));
        assert_eq!(Affine8::new(IDENTITY_MATRIX, 0xFF).apply(x), !x);
        assert_eq!(Affine8::shl(1).compose(Affine8::shl(2)).apply(x), x << 3);
    }
    let bytes = 0x0123_4567_89AB_CDEFu64;
    let out = Affine8::rotl(4).apply8(bytes);
    for i in 0..8 {
        let b = (bytes >> (8 * i)) as u8;
        assert_eq!((out >> (8 * i)) as u8, b.rotate_left(4));
    }
}

#[test]
fn affine_rows_and_tables() {
    let rows = [1u8, 2, 4, 8, 16, 32, 64, 128];
    let id = Affine8::from_rows(rows, 0);
    assert_eq!(id.matrix(), IDENTITY_MATRIX);
    for i in 0..8 {
        assert_eq!(id.row(i), rows[i]);
    }
    let map = Affine8::rotl(1).and_then(Affine8::new(IDENTITY_MATRIX, 0x21));
    let (lo, hi) = map.tables();
    for x in 0..=255u8 {
        assert_eq!(lo[(x & 15) as usize] ^ hi[(x >> 4) as usize], map.apply(x));
    }
}

#[test]
fn board_permutations() {
    let cell = |r: u64, c: u64| 1u64 << (8 * r + c);
    assert_eq!(transpose(1 << (8 * 1 + 5)), 1 << (8 * 5 + 1));
    for r in 0..8 {
        for c in 0..8 {
            assert_eq!(transpose(cell(r, c)), cell(c, r));
            assert_eq!(flip_vertical(cell(r, c)), cell(7 - r, c));
            assert_eq!(mirror_horizontal(cell(r, c)), cell(r, 7 - c));
            assert_eq!(rotate_90_cw(cell(r, c)), cell(7 - c, r));
            assert_eq!(rotate_90_ccw(cell(r, c)), cell(c, 7 - r));
            assert_eq!(rotate_180(cell(r, c)), cell(7 - r, 7 - c));
        }
    }
    let x = 0x1234_5678_9ABC_DEF0u64;
    assert_eq!(transpose(transpose(x)), x);
    assert_eq!(rotate_90_ccw(rotate_90_cw(x)), x);
    assert_eq!(rotate_180(x), flip_vertical(mirror_horizontal(x)));
}

#[test]
fn sliding_pieces() {
    let rook = 1u64;
    let occupied = 1u64 << 32 | 1 << 4;
    assert_eq!(slide(rook, !occupied, Dir::North), 0x0000_0001_0101_0100);
    assert_eq!(slide(rook, !occupied, Dir::East), 0b1_1110);
    assert_eq!(slide(rook, !occupied, Dir::West), 0);
    assert_eq!(slide(rook, !occupied, Dir::South), 0);
    assert_eq!(slide(1 << 27, u64::MAX, Dir::NorthEast), 0x8040_2010_0000_0000);
    assert_eq!(Dir::North.shift(1), 1 << 8);
    assert_eq!(Dir::East.shift(1 << 7), 0);
    assert_eq!(Dir::West.shift(1), 0);
}

#[test]
fn grid_blocks() {
    let rows = [0b0111_1000u64, 0b0111_1100, 0b0011_1100, 0b0000_0000];
    let mut out = [0u64; 4];
    block_starts(&rows, 2, 2, &mut out);
    assert_eq!(out, [0b0011_1000, 0b0001_1100, 0, 0]);
    let mut scratch = [0u64; 4];
    assert_eq!(find_block(&rows, 2, 2, &mut scratch), Some((0, 3)));
    assert_eq!(find_block(&rows, 3, 3, &mut scratch), Some((0, 3)));
    assert_eq!(find_block(&rows, 4, 3, &mut scratch), None);
    let mut grid = [0u64; 4];
    fill_block(&mut grid, 1, 2, 3, 2);
    assert_eq!(grid, [0, 0b1_1100, 0b1_1100, 0]);
    clear_block(&mut grid, 2, 3, 1, 1);
    assert_eq!(grid, [0, 0b1_1100, 0b1_0100, 0]);
}

#[test]
fn slides_match_square_by_square_walks() {
    let dirs = [
        Dir::North,
        Dir::South,
        Dir::East,
        Dir::West,
        Dir::NorthEast,
        Dir::NorthWest,
        Dir::SouthEast,
        Dir::SouthWest,
    ];
    let mut state = 0x9e37_79b9_7f4a_7c15u64;
    for _ in 0..200 {
        state ^= state << 13;
        state ^= state >> 7;
        state ^= state << 17;
        let pieces = state & (state >> 3);
        let empty = !state | (state >> 11);
        for d in dirs {
            assert!(board8_slides_match_reference(pieces, empty, d));
        }
    }
    for d in dirs {
        assert!(board8_slides_match_reference(1 << 27, !0, d));
        assert!(board8_slides_match_reference(!0, 0, d));
    }
}
