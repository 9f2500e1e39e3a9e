use hakmem::dilated::Morton2;
use hakmem::hilbert::Hilbert2;
use hakmem::laws::{hilbert_consecutive_are_adjacent, hilbert_order_laws, hilbert_roundtrip};

#[test]
fn hilbert2_doc_example() {
    // Order 2: the 4 × 4 curve, index 12 is the cell (3, 1).
    let h = Hilbert2::encode_order(3, 1, 2);
    assert_eq!(h.index(), 12);
    assert_eq!(h.decode_order(2), (3, 1));
    let h = Hilbert2::encode(40_000, 7);
    assert_eq!(h.decode(), (40_000, 7));
}

#[test]
fn hilbert2_order_two_walk() {
    let cells: Vec<(u64, u64)> = (0..16u64)
        .map(|h| Hilbert2::from_index(h).decode_order(2))
        .collect();
    assert_eq!(cells[..4], [(0, 0), (1, 0), (1, 1), (0, 1)]);
    assert_eq!(cells[15], (3, 0));
    for w in cells.windows(2) {
        let ((x0, y0), (x1, y1)) = (w[0], w[1]);
        assert_eq!(x0.abs_diff(x1) + y0.abs_diff(y1), 1);
    }
    assert_eq!(Hilbert2::encode_order(3, 0, 2).index(), 15);
    // The whole order-2 table, quadrants lower-left, upper-left,
    // upper-right, lower-right.
    assert_eq!(
        cells,
        [
            (0, 0), (1, 0), (1, 1), (0, 1),
            (0, 2), (0, 3), (1, 3), (1, 2),
            (2, 2), (2, 3), (3, 3), (3, 2),
            (3, 1), (2, 1), (2, 0), (3, 0),
        ]
    );
}

#[test]
fn hilbert2_odd_order_is_transposed() {
    // Order 1: the 2 × 2 curve goes up first.
    let cells: Vec<(u64, u64)> = (0..4u64)
        .map(|h| Hilbert2::from_index(h).decode_order(1))
        .collect();
    assert_eq!(cells, [(0, 0), (0, 1), (1, 1), (1, 0)]);
    for (h, &(x, y)) in cells.iter().enumerate() {
        assert_eq!(Hilbert2::encode_order(x, y, 1).index(), h as u64);
    }
    // Order 0 is one cell.
    assert_eq!(Hilbert2::encode_order(0, 0, 0).index(), 0);
    assert_eq!(Hilbert2::from_index(0).decode_order(0), (0, 0));
}

#[test]
fn hilbert2_morton_conversions_agree() {
    let mut s = 0x9E37_79B9_7F4A_7C15u64;
    for _ in 0..2000 {
        s ^= s << 13;
        s ^= s >> 7;
        s ^= s << 17;
        let h = Hilbert2::from_morton(Morton2::from_code(s));
        assert_eq!(h.into_morton().code(), s);
        let back = Hilbert2::from_morton(Hilbert2::from_index(s).into_morton());
        assert_eq!(back.index(), s);
        let (x, y) = Morton2::from_code(s).decode();
        assert_eq!(Hilbert2::encode(x, y), h);
    }
}

#[test]
fn hilbert2_in_place_conversions() {
    let codes: Vec<u64> = (0..100u64).map(|i| i.wrapping_mul(0x9E37_79B9_7F4A_7C15)).collect();
    let mut keys = codes.clone();
    Hilbert2::from_morton_in_place(&mut keys);
    for (k, c) in keys.iter().zip(&codes) {
        assert_eq!(*k, Hilbert2::from_morton(Morton2::from_code(*c)).index());
    }
    Hilbert2::into_morton_in_place(&mut keys);
    assert_eq!(keys, codes);
}

#[test]
fn hilbert2_full_width_corners() {
    // The full-width curve starts at the origin and ends at (2^32 - 1, 0).
    assert_eq!(Hilbert2::from_index(0).decode(), (0, 0));
    assert_eq!(Hilbert2::from_index(u64::MAX).decode(), (0xFFFF_FFFF, 0));
    assert_eq!(Hilbert2::encode(0xFFFF_FFFF, 0).index(), u64::MAX);
    // Coordinates above 32 bits are dropped.
    assert_eq!(Hilbert2::encode(1 << 40, 5), Hilbert2::encode(0, 5));
}

#[test]
fn hilbert_laws_on_samples() {
    for h in 0..65_536u64 {
        assert!(hilbert_consecutive_are_adjacent(h));
    }
    let mut s = 0x2545_F491_4F6C_DD1Du64;
    for _ in 0..5000 {
        s ^= s << 13;
        s ^= s >> 7;
        s ^= s << 17;
        if s < u64::MAX {
            assert!(hilbert_consecutive_are_adjacent(s));
        }
        assert!(hilbert_roundtrip(s, s.rotate_left(21), s ^ 0xDEAD_BEEF));
    }
    assert!(hilbert_consecutive_are_adjacent(u64::MAX - 1));
    assert!(hilbert_roundtrip(u64::MAX, 0, u64::MAX));
}

#[test]
fn hilbert_order_laws_on_every_small_order() {
    for n in 0..=6u32 {
        for h in 0..(1u64 << (2 * n)) {
            assert!(hilbert_order_laws(h, n), "order {n} index {h}");
        }
    }
    for n in [10u32, 20, 31] {
        for h in [0u64, 1, 2, 3, (1u64 << (2 * n)) - 1, (1u64 << (2 * n)) / 3] {
            assert!(hilbert_order_laws(h, n), "order {n} index {h}");
        }
    }
}
