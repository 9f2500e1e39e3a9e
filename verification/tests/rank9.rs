use hakmem::laws::{rank9_matches_slice, rank9_rank_steps_by_bit, rank9_select_inverts_rank};
use hakmem::rank9::{uleq_step16_small, uleq_step9, Rank9, Rank9Buf, Span};

#[test]
fn uleq_step9_every_pair_in_every_lane() {
    for lane in 0..7 {
        for x in 0..512u64 {
            for y in 0..512u64 {
                let got = uleq_step9(x << (9 * lane), y << (9 * lane)) >> (9 * lane + 8) & 1;
                assert_eq!(got == 1, x <= y, "lane {lane}: {x} <= {y}");
            }
        }
    }
}

#[test]
fn uleq_step9_lanes_do_not_interfere() {
    // Neighbouring lanes at the extremes must not borrow into each other.
    let x = 511 | 511 << 18 | 511 << 36 | 511 << 54;
    let y = 511 << 9 | 511 << 18 | 1 << 36 | 510 << 54;
    let expect = [false, true, true, true, false, true, false];
    let got = uleq_step9(x, y);
    for (lane, e) in expect.into_iter().enumerate() {
        assert_eq!(got >> (9 * lane + 8) & 1 == 1, e, "lane {lane}");
    }
}

#[test]
fn uleq_step16_small_every_pair_sampled() {
    let mut s = 0x9E37_79B9u64;
    for _ in 0..200_000 {
        s ^= s << 13;
        s ^= s >> 7;
        s ^= s << 17;
        let (x, y) = (s & 0x7FFF, s >> 32 & 0x7FFF);
        for lane in 0..4 {
            let got =
                uleq_step16_small(x << (16 * lane), y << (16 * lane)) >> (16 * lane + 15) & 1;
            assert_eq!(got == 1, x <= y, "lane {lane}: {x} <= {y}");
        }
    }
}

#[test]
fn span_thresholds() {
    assert_eq!(Span::of(0), Span::Tiny);
    assert_eq!(Span::of(3), Span::Tiny);
    assert_eq!(Span::of(4), Span::Flat);
    assert_eq!(Span::of(15), Span::Flat);
    assert_eq!(Span::of(16), Span::Two);
    assert_eq!(Span::of(63), Span::Two);
    assert_eq!(Span::of(64), Span::Pos16);
    assert_eq!(Span::of(127), Span::Pos16);
    assert_eq!(Span::of(128), Span::Pos32);
    assert_eq!(Span::of(0x7F_FFFF), Span::Pos32);
    assert_eq!(Span::of(0x80_0000), Span::Search);
}


/// Set bits of `bits` by a linear scan: the reference the directory must
/// agree with.
fn ones_of(bits: &[u64]) -> Vec<usize> {
    let mut out = Vec::new();
    for (wi, &w) in bits.iter().enumerate() {
        for b in 0..64 {
            if w >> b & 1 == 1 {
                out.push(wi * 64 + b);
            }
        }
    }
    out
}

fn check_directory(bits: &[u64]) {
    let ones = ones_of(bits);
    let mut counts = vec![0; Rank9::counts_len(bits.len())];
    let mut select = vec![0; Rank9::select_len(bits.len())];
    let dir = Rank9::build(bits, &mut counts, &mut select);
    assert_eq!(dir.count_ones(), ones.len());
    assert_eq!(dir.len(), bits.len() * 64);
    for (k, &p) in ones.iter().enumerate() {
        assert_eq!(dir.select(k), Some(p), "select {k}");
        assert_eq!(dir.rank(p), k, "rank {p}");
        assert_eq!(dir.rank(p + 1), k + 1, "rank {}", p + 1);
    }
    assert_eq!(dir.select(ones.len()), None);
    let step = 1 + bits.len() * 64 / 997;
    for i in (0..=bits.len() * 64 + 3).step_by(step) {
        let want = ones.iter().filter(|&&p| p < i).count();
        assert_eq!(dir.rank(i), want, "rank {i}");
        assert_eq!(dir.rank0(i), i.min(bits.len() * 64) - want, "rank0 {i}");
    }
    // Rank only: select falls back to the search over the block counts.
    let mut counts2 = vec![0; Rank9::counts_len(bits.len())];
    let dir2 = Rank9::build(bits, &mut counts2, &mut []);
    assert!(!dir2.has_select());
    for (k, &p) in ones.iter().enumerate().step_by(1 + ones.len() / 500) {
        assert_eq!(dir2.select(k), Some(p), "rank-only select {k}");
    }
}

/// A bitmap with one set bit every `gap` positions, from `offset`.
fn spaced(words: usize, gap: usize, offset: usize) -> Vec<u64> {
    let mut bits = vec![0u64; words];
    let mut p = offset;
    while p < words * 64 {
        bits[p / 64] |= 1 << (p % 64);
        p += gap;
    }
    bits
}

#[test]
fn rank9_doc_example() {
    let bits = [0b1011u64, u64::MAX, 0];
    let mut counts = vec![0; Rank9::counts_len(bits.len())];
    let mut select = vec![0; Rank9::select_len(bits.len())];
    let dir = Rank9::build(&bits, &mut counts, &mut select);
    assert_eq!(dir.count_ones(), 67);
    assert_eq!(dir.rank(2), 2);
    assert_eq!(dir.rank(64), 3);
    assert_eq!(dir.select(2), Some(3));
    assert_eq!(dir.select(3), Some(64));
    assert_eq!(dir.select(67), None);
    assert_eq!((dir.rank(64), dir.select(3)), (3, Some(64)));
}

#[test]
fn rank9_lengths() {
    assert_eq!(Rank9::counts_len(0), 2);
    assert_eq!(Rank9::counts_len(1), 4);
    assert_eq!(Rank9::counts_len(8), 4);
    assert_eq!(Rank9::counts_len(9), 6);
    assert_eq!(Rank9::select_len(0), 2);
    assert_eq!(Rank9::select_len(8), 5);
    assert_eq!(Rank9::select_len(17), 11);
}

#[test]
fn rank9_empty_and_zero() {
    check_directory(&[]);
    check_directory(&[0; 40]);
    check_directory(&[u64::MAX; 37]);
    let bits: [u64; 0] = [];
    let mut counts = vec![0; Rank9::counts_len(0)];
    let mut select = vec![0; Rank9::select_len(0)];
    let dir = Rank9::build(&bits, &mut counts, &mut select);
    assert!(dir.is_empty());
    assert_eq!(dir.rank(5), 0);
    assert_eq!(dir.select(0), None);
}

#[test]
fn rank9_every_span_kind() {
    // Dense: tiny spans. Then flat, two-level, 16-bit and 32-bit positions.
    check_directory(&spaced(300, 1, 0));
    check_directory(&spaced(300, 3, 1));
    check_directory(&spaced(800, 8, 5));
    check_directory(&spaced(3000, 30, 7));
    check_directory(&spaced(9000, 100, 11));
    check_directory(&spaced(40000, 300, 13));
}

#[test]
fn rank9_matches_the_directory_built_twice() {
    let bits = spaced(5000, 77, 3);
    let mut counts = vec![0; Rank9::counts_len(bits.len())];
    let mut select = vec![0; Rank9::select_len(bits.len())];
    Rank9::build(&bits, &mut counts, &mut select);
    let again = Rank9::from_parts(&bits, &counts, &select);
    let ones = ones_of(&bits);
    for (k, &p) in ones.iter().enumerate() {
        assert_eq!(again.select(k), Some(p));
    }
    assert_eq!(again.bits(), &bits[..]);
}

#[test]
fn rank9buf_example() {
    let bits = [0b1011u64, u64::MAX, 0];
    let dir = Rank9Buf::new(&bits);
    assert_eq!(dir.rank(64), 3);
    assert_eq!(dir.select(3), Some(64));
    assert_eq!(dir.view().count_ones(), 67);
    assert_eq!(dir.count_ones(), 67);
    assert_eq!(dir.rank0(64), 61);
    let copy = dir.clone();
    assert_eq!(copy.select(66), Some(127));
    let only = Rank9Buf::rank_only(&bits);
    assert!(!only.view().has_select());
    assert_eq!(only.select(3), Some(64));
    let (counts, select) = dir.into_parts();
    assert_eq!(counts.len(), Rank9::counts_len(3));
    assert_eq!(select.len(), Rank9::select_len(3));
    let view = Rank9::from_parts(&bits, &counts, &select);
    assert_eq!(view.select(66), Some(127));
}

#[test]
fn rank9_laws_hold() {
    let bits = spaced(700, 13, 2);
    let dir = Rank9Buf::new(&bits);
    let view = dir.view();
    for i in (0..700 * 64).step_by(97) {
        assert!(rank9_matches_slice(&view, i, i / 13));
        assert!(rank9_select_inverts_rank(&view, i / 11));
        assert!(rank9_rank_steps_by_bit(&view, i));
    }
}
