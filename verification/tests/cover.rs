use hakmem::zcover::{intersects, walk_runs, z_runs, Rect};
use hakmem::dilated::Morton2;
use hakmem::cover::{bitlen, get, threshold};

/// The threshold against sorting, on gaps that share classes with other
/// values (16 and 17, 32 and 35) so the select behind the classes runs too.
#[test]
fn threshold_matches_sorting() {
    let mut state = 0x2545_F491_4F6C_DD1Du64;
    let mut next = || {
        state ^= state << 13;
        state ^= state >> 7;
        state ^= state << 17;
        state
    };
    let pool = [
        2u64,
        3,
        5,
        7,
        15,
        16,
        17,
        18,
        24,
        31,
        32,
        35,
        40,
        64,
        65,
        1000,
        1001,
        1 << 40,
    ];
    for _ in 0..20_000 {
        let n = 1 + (next() % 70) as usize;
        let mut v = [(0u64, 0u64); 35];
        let (mut lengths, mut least) = ([0u32; 129], u32::MAX);
        let mut all = [0u64; 70];
        for (i, slot) in all.iter_mut().enumerate().take(n) {
            let g = if next() % 4 == 0 {
                2 + next() % 5000
            } else {
                pool[(next() % pool.len() as u64) as usize]
            };
            *slot = g;
            hakmem::cover::set(&mut v, i, g);
            lengths[bitlen(g) as usize] += 1;
            least = least.min(bitlen(g));
        }
        let close = 1 + (next() % n as u64) as usize;
        let (t, ties) = threshold(&mut v, n, (&lengths, least), close);
        let sorted = &mut all[..n];
        sorted.sort_unstable();
        let want = sorted[close - 1];
        let below = sorted.iter().filter(|&&g| g < want).count();
        assert_eq!((t, ties), (want, close - below), "{sorted:?} close {close}");
    }
}

#[test]
fn pairs_hold_two_words() {
    let mut v = [(0u64, 0u64); 3];
    hakmem::cover::set(&mut v, 0, 10);
    hakmem::cover::set(&mut v, 3, 40);
    hakmem::cover::set(&mut v, 5, 60);
    assert_eq!(v, [(10, 0), (0, 40), (0, 60)]);
    assert_eq!(get(&v, 3), 40);
    assert_eq!(get(&v, 4), 0);
    assert_eq!(bitlen(0), 0);
    assert_eq!(bitlen(1), 1);
    assert_eq!(bitlen(255), 8);
    assert_eq!(bitlen(u64::MAX), 64);
}

#[test]
fn threshold_of_equal_gaps_counts_ties() {
    // Five gaps of 8, two of 3: the fourth smallest is 8, with two of the
    // fours below it.
    let gaps = [8u64, 3, 8, 8, 3, 8, 8];
    let mut v = [(0u64, 0u64); 4];
    let mut lengths = [0u32; 129];
    for (i, &g) in gaps.iter().enumerate() {
        hakmem::cover::set(&mut v, i, g);
        lengths[bitlen(g) as usize] += 1;
    }
    assert_eq!(threshold(&mut v, 7, (&lengths, 2), 4), (8, 2));
    assert_eq!(threshold(&mut v, 7, (&lengths, 2), 1), (3, 1));
    assert_eq!(threshold(&mut v, 7, (&lengths, 2), 2), (3, 2));
    assert_eq!(threshold(&mut v, 7, (&lengths, 2), 7), (8, 5));
}

/// The closed form against the walk, at every depth below the top.
fn agree(r: &Rect, levels: u32) -> bool {
    let spread = (r.x0 ^ r.x1) | (r.y0 ^ r.y1);
    let top = 64 - spread.leading_zeros();
    (0..top).all(|s| {
        let runs = z_runs((r.x0 >> s, r.x1 >> s), (r.y0 >> s, r.y1 >> s), levels - s);
        runs == walk_runs(levels, r, s)
    })
}

#[test]
fn runs_every_u8_rectangle() {
    for x0 in 0..16u64 {
        for x1 in x0..16 {
            for y0 in 0..16u64 {
                for y1 in y0..16 {
                    let r = Rect { x0, x1, y0, y1 };
                    assert!(agree(&r, 4), "Z {x0}..={x1} × {y0}..={y1}");
                }
            }
        }
    }
}

#[test]
fn runs_random_u32_rectangles() {
    let mut state = 0x9E37_79B9_7F4A_7C15u64;
    let mut next = || {
        state = state
            .wrapping_mul(6_364_136_223_846_793_005)
            .wrapping_add(1_442_695_040_888_963_407);
        (state >> 32) as u32
    };
    for i in 0..4000 {
        // Sides of every scale, walks of a few thousand nodes at most.
        let side = |v: u32, n: u32| v & (u32::MAX >> (32 - n.max(1)));
        let (x0, y0) = (next() >> 16, next() >> 16);
        let n = i % 11;
        let r = Rect {
            x0: x0 as u64,
            x1: (x0 + side(next(), n)).min(0xFFFF) as u64,
            y0: y0 as u64,
            y1: (y0 + side(next(), n)).min(0xFFFF) as u64,
        };
        assert!(agree(&r, 16), "Z {}..={} × {}..={}", r.x0, r.x1, r.y0, r.y1);
    }
}

#[test]
fn morton2_cover_doc_example() {
    // Two columns of four cells: two quadrants, two ranges.
    let mut out = [(0u64, 0u64); 8];
    let n = Morton2::cover((0, 1), (0, 3), &mut out);
    assert_eq!(&out[..n], &[(0, 3), (8, 11)]);
    // Codes 4..=11 miss the 2 × 2 block at the origin, codes 0..=3.
    assert!(!Morton2::intersects((4, 11), (0, 1), (0, 1)));
    assert!(Morton2::intersects((4, 11), (0, 2), (0, 1)));
}

fn key(x: u64, y: u64) -> u64 {
    Morton2::encode(x, y).code()
}

#[test]
fn morton2_cover_counts_points() {
    let points = [(10u64, 10u64), (11, 12), (500, 500), (12, 11)];
    let mut keys: Vec<u64> = points.iter().map(|&(x, y)| key(x, y)).collect();
    keys.sort_unstable();
    let mut ranges = [(0u64, 0u64); 16];
    let n = Morton2::cover((8, 15), (8, 15), &mut ranges);
    let count: usize = ranges[..n]
        .iter()
        .map(|&(a, b)| keys.partition_point(|&k| k <= b) - keys.partition_point(|&k| k < a))
        .sum();
    assert_eq!(count, 3);
}

#[test]
fn morton2_cover_is_exact_with_room_and_within_budget_always() {
    let mut state = 0x2545_F491_4F6C_DD1Du64;
    let mut next = || {
        state ^= state << 13;
        state ^= state >> 7;
        state ^= state << 17;
        state
    };
    for _ in 0..300 {
        let x0 = next() % 40;
        let y0 = next() % 40;
        let x1 = x0 + next() % 12;
        let y1 = y0 + next() % 12;
        let mut cells: Vec<u64> = Vec::new();
        for x in x0..=x1 {
            for y in y0..=y1 {
                cells.push(key(x, y));
            }
        }
        cells.sort_unstable();
        // Plenty of room: exactly the cells.
        let mut out = vec![(0u64, 0u64); 400];
        let n = Morton2::cover((x0, x1), (y0, y1), &mut out);
        let mut got: Vec<u64> = Vec::new();
        for &(a, b) in &out[..n] {
            for k in a..=b {
                got.push(k);
            }
        }
        assert_eq!(got, cells, "{x0}..={x1} × {y0}..={y1}");
        for w in out[..n].windows(2) {
            assert!(w[0].1 + 1 < w[1].0);
        }
        // A tight budget: fewer ranges, every cell still covered.
        for budget in [1usize, 2, 3, 5] {
            let mut out = vec![(0u64, 0u64); budget];
            let n = Morton2::cover((x0, x1), (y0, y1), &mut out);
            assert!(1 <= n && n <= budget);
            for &c in &cells {
                assert!(out[..n].iter().any(|&(a, b)| a <= c && c <= b));
            }
        }
        // Intersection agrees with the cells.
        for _ in 0..5 {
            let a = next() % 4096;
            let b = a + next() % 64;
            let want = cells.iter().any(|&c| a <= c && c <= b);
            assert_eq!(Morton2::intersects((a, b), (x0, x1), (y0, y1)), want);
        }
    }
    // Empty and clipped rectangles.
    let mut out = [(0u64, 0u64); 4];
    assert_eq!(Morton2::cover((5, 4), (0, 1), &mut out), 0);
    assert!(!Morton2::intersects((0, u64::MAX), (5, 4), (0, 1)));
    assert!(!Morton2::intersects((3, 2), (0, 4), (0, 1)));
    let n = Morton2::cover((0, u64::MAX), (0, u64::MAX), &mut out);
    assert_eq!(&out[..n], &[(0, u64::MAX)]);
}

#[test]
fn intersects_matches_every_cell_on_a_small_grid() {
    // Four levels: a 16 x 16 grid, keys the Morton codes of its cells.
    let mut state = 0x2545_f491_4f6c_dd1du64;
    for _ in 0..3000 {
        state ^= state << 13;
        state ^= state >> 7;
        state ^= state << 17;
        let (x0, x1) = ((state & 15), ((state >> 4) & 31));
        let (y0, y1) = (((state >> 9) & 15), ((state >> 13) & 31));
        let (a, b) = (((state >> 18) & 255), ((state >> 26) & 255));
        let mut want = false;
        for x in x0..=x1.min(15) {
            for y in y0..=y1.min(15) {
                let k = Morton2::encode(x, y).code();
                if a <= k && k <= b {
                    want = true;
                }
            }
        }
        assert_eq!(intersects(4, (a, b), (x0, x1), (y0, y1)), want, "{:?}", (a, b, x0, x1, y0, y1));
    }
}
