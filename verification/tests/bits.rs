use hakmem::bits::{truth_table, Bits};
use hakmem::set::Positions;
use hakmem::slice::Words;
use hakmem::word::{compress_broadword, expand_broadword, select_broadword64, Word};

/// A deterministic stream of words for sweeps.
fn stream(seed: u64, n: usize) -> Vec<u64> {
    let mut s = seed;
    let mut out = Vec::new();
    for _ in 0..n {
        s ^= s << 13;
        s ^= s >> 7;
        s ^= s << 17;
        out.push(s);
    }
    out
}

#[test]
fn run_starts_examples() {
    let x: u64 = 0b0111_0110;
    assert_eq!(x.run_starts(1), x);
    assert_eq!(x.run_starts(2), 0b0011_0010);
    assert_eq!(x.run_starts(3), 0b0001_0000);
    assert_eq!(x.run_starts(4), 0);
    assert!(x.has_run(3));
    assert!(!x.has_run(4));
    assert_eq!(x.longest_run(), 3);
    assert_eq!(0u64.longest_run(), 0);
    assert_eq!(u64::MAX.longest_run(), 64);
    assert_eq!(u64::MAX.run_starts(64), 1);
}

#[test]
fn rank_select_examples() {
    let x: u64 = 0b1011;
    assert_eq!(x.rank(0), 0);
    assert_eq!(x.rank(2), 2);
    assert_eq!(x.rank(64), 3);
    let y: u64 = 0b1011_0000;
    assert_eq!(y.select(0), Some(4));
    assert_eq!(y.select(2), Some(7));
    assert_eq!(y.select(3), None);
    assert_eq!(select_broadword64(0b1011_0000, 2), 7);
    assert_eq!(select_broadword64(0b1011_0000, 3), 64);
    assert_eq!(hakmem::x86::select_u64(0b1011_0000, 2), 7);
    assert_eq!(hakmem::x86::select_u64(0b1011_0000, 3), 64);
    assert_eq!(hakmem::x86::select_u64(u64::MAX, 63), 63);
    assert_eq!(hakmem::x86::select_u64(u64::MAX, 64), 64);
    assert_eq!(y.first_set(), Some(4));
    assert_eq!(y.last_set(), Some(7));
    assert_eq!(0u64.first_set(), None);
    assert_eq!(0u64.last_set(), None);
}

#[test]
fn select_agrees_with_a_scan() {
    for x in stream(0x1234_5678, 300) {
        let mut k = 0u32;
        for p in 0..64u32 {
            if x >> p & 1 == 1 {
                assert_eq!(x.select(k), Some(p));
                assert_eq!(select_broadword64(x, k), p);
                assert_eq!(hakmem::x86::select_u64(x, k), p);
                assert_eq!(x.rank(p), k);
                k += 1;
            }
        }
        assert_eq!(x.select(k), None);
        assert_eq!(select_broadword64(x, k), 64);
    }
}

#[test]
fn prefix_xor_and_gray() {
    let toggles: u64 = 0b0100_0100;
    assert_eq!(toggles.prefix_xor(), 0b0011_1100);
    assert_eq!(toggles.prefix_xor().delta_xor(), toggles);
    assert_eq!(0b1101u64.prefix_or(), !0u64 << 0);
    assert_eq!(0b1000u64.prefix_or(), !0u64 << 3);
    assert_eq!(5u64.gray_encode(), 7);
    assert_eq!(7u64.gray_decode(), 5);
    for x in stream(99, 100) {
        assert_eq!(x.gray_encode().gray_decode(), x);
        assert_eq!(x.prefix_xor().delta_xor(), x);
    }
}

#[test]
fn compact_expand_examples() {
    assert_eq!(0b1001u64.compact(0b1010), 0b10);
    assert_eq!(0xF0u64.compact(0xFF), 0xF0);
    assert_eq!(0b11u64.expand(0b1010), 0b1010);
    assert_eq!(0b01u64.expand(0b1010), 0b0010);
    assert_eq!(compress_broadword(0b1001, 0b1010), 0b10);
    assert_eq!(expand_broadword(0b10, 0b1010), 0b1000);
    assert_eq!(hakmem::codegen::cg_compact_u64(0b1001, 0b1010), 0b10);
    assert_eq!(hakmem::codegen::cg_expand_u64(0b10, 0b1010), 0b1000);
    assert_eq!(hakmem::codegen::cg_select_u64(0b1011_0000, 2), Some(7));
    assert_eq!(hakmem::codegen::cg_prefix_xor_u64(0b0100_0100), 0b0011_1100);
    for (x, m) in stream(5, 100).into_iter().zip(stream(6, 100)) {
        // Bit by bit, the reference definition.
        let mut c = 0u64;
        let mut j = 0;
        for i in 0..64 {
            if m >> i & 1 == 1 {
                c |= (x >> i & 1) << j;
                j += 1;
            }
        }
        assert_eq!(x.compact(m), c);
        assert_eq!(c.expand(m), x & m);
    }
}

#[test]
fn gather_examples() {
    let a_file = 0x0101_0101_0101_0101u64;
    let factor = u64::gather_factor(a_file, 56).unwrap();
    assert_eq!(factor, 0x0102_0408_1020_4080);
    let occupied = 0x0000_0100_0000_0101u64;
    assert_eq!(occupied.gather(a_file, factor, 56), 0b0010_0011);
    assert_eq!(u64::gather_factor(0b110, 0), None);
}

#[test]
fn lowest_bit_tricks() {
    assert_eq!(0b1011_0000u64.lowest_set_mask(), 0b0001_0000);
    assert_eq!(0u64.lowest_set_mask(), 0);
    assert_eq!(0b1011_0000u64.below_lowest_set(), 0b0000_1111);
    assert_eq!(0b1011_0000u64.up_to_lowest_set(), 0b0001_1111);
    assert_eq!(0b1011_0111u64.set_lowest_zero(), 0b1011_1111);
    assert_eq!(0b1011_0110u64.clear_lowest_run(), 0b1011_0000);
    assert_eq!(0b1100u64.blend(0b0011, 0b0110), 0b1010);
}

#[test]
fn ternary_and_truth_tables() {
    let majority = |a: u8, b: u8, c: u8| (a & b) | (a & c) | (b & c);
    assert_eq!(truth_table(majority), 0xE8);
    assert_eq!(truth_table(|a, b, s| !(a ^ b) & (a ^ s)), 0x42);
    assert_eq!(truth_table(|a, b, d| (a ^ b) & (a ^ d)), 0x18);
    assert_eq!(0b1100u64.ternary(0b1010, 0b0110, 0xE8), 0b1110);
    for (a, b) in stream(7, 50).into_iter().zip(stream(8, 50)) {
        let c = a ^ b.rotate_left(7);
        assert_eq!(a.ternary(b, c, 0xE8), (a & b) | (a & c) | (b & c));
        assert_eq!(a.ternary(b, c, 0x96), a ^ b ^ c);
    }
}

#[test]
fn signed_overflow() {
    let max = i64::MAX as u64;
    assert!(max.signed_add_overflows(1));
    assert!(!max.signed_add_overflows(0));
    assert!(!100u64.signed_add_overflows(27));
    let min = i64::MIN as u64;
    assert!(min.signed_sub_overflows(1));
    assert!(!min.signed_sub_overflows(u64::MAX));
}

#[test]
fn gosper_and_subsets() {
    let mut subsets = vec![0b0011u64];
    while subsets.len() < 6 {
        let next = subsets.last().unwrap().next_same_popcount().unwrap();
        subsets.push(next);
    }
    assert_eq!(subsets, [0b0011, 0b0101, 0b0110, 0b1001, 0b1010, 0b1100]);
    assert_eq!(0u64.next_same_popcount(), None);
    assert_eq!((u64::MAX << 1).next_same_popcount(), None);
    assert_eq!(0u64.next_subset(0b1010), Some(0b0010));
    assert_eq!(0b0010u64.next_subset(0b1010), Some(0b1000));
    assert_eq!(0b1000u64.next_subset(0b1010), Some(0b1010));
    assert_eq!(0b1010u64.next_subset(0b1010), None);
    let mut it = 0b101u64.subsets();
    let mut got = Vec::new();
    while let Some(s) = it.next() {
        got.push(s);
    }
    assert_eq!(got, [0b000, 0b001, 0b100, 0b101]);
}

#[test]
fn powers_of_two() {
    assert_eq!(37u64.round_up_pow2(), Some(64));
    assert_eq!(64u64.round_up_pow2(), Some(64));
    assert_eq!(0u64.round_up_pow2(), Some(1));
    assert_eq!(0x8000_0000_0000_0001u64.round_up_pow2(), None);
    assert_eq!(37u64.round_down_pow2(), Some(32));
    assert_eq!(0u64.round_down_pow2(), None);
    assert!(64u64.is_pow2());
    assert!(!65u64.is_pow2());
    assert!(!0u64.is_pow2());
    assert_eq!(37u64.log2_floor(), Some(5));
    assert_eq!(37u64.log2_ceil(), Some(6));
    assert_eq!(32u64.log2_ceil(), Some(5));
    assert_eq!(0u64.log2_floor(), None);
}

#[test]
fn byte_lanes() {
    assert_eq!(0x0012_0034u64.zero_bytes(), 0x8080_8080_8000_8000);
    assert_eq!(0x0100u64.zero_bytes(), 0x8080_8080_8080_0080);
    assert!(0x0100u64.has_zero_byte());
    assert!(!0x0101_0101_0101_0101u64.has_zero_byte());
    assert_eq!(0x4142_4143u64.first_zero_byte(), Some(4));
    assert_eq!(0x41_42_41_43u64.bytes_eq(0x41), 0x80_00_80_00);
    assert_eq!(0x41_0A_42_09u64.bytes_lt(0x20), 0x8080_8080_0080_0080);
    assert_eq!(0x41_0A_42_09u64.bytes_ge(0x20), 0x0000_0000_8000_8000);
    assert_eq!(0x41_42_41_43u64.count_bytes_eq(0x41), 2);
    assert_eq!(0x0102_0304u64.sum_bytes(), 10);
    assert_eq!(u64::lanes_lo(), 0x0101_0101_0101_0101);
    assert_eq!(u64::lanes_hi(), 0x8080_8080_8080_8080);
}

#[test]
fn delta_swap_examples() {
    assert_eq!(0xA5u64.delta_swap(0x0F, 4), 0x5A);
    for x in stream(11, 50) {
        let m = 0x00FF_00FF_00FF_00FFu64;
        assert_eq!(x.delta_swap(m, 8).delta_swap(m, 8), x);
        assert_eq!(x.delta_swap(m, 8), ((x & m) << 8) | ((x >> 8) & m));
    }
}

#[test]
fn fills() {
    let rook = 1u64;
    let empty = !(1u64 << 32);
    let attacks = rook.fill_up(empty, 8) << 8;
    assert_eq!(attacks & 0x0101_0101_0101_0101, 0x0000_0001_0101_0100);
    assert_eq!((1u64 << 63).fill_down(u64::MAX, 1), u64::MAX);
    assert_eq!(1u64.fill_up(0, 1), 1);
}

#[test]
fn word_basics() {
    assert_eq!(<u64 as Word>::low_ones(0), 0);
    assert_eq!(<u64 as Word>::low_ones(64), u64::MAX);
    assert_eq!(<u64 as Word>::low_ones(5), 0b11111);
    assert!(Word::bit(0b100u64, 2));
    assert!(Word::parity(0b111u64));
    assert_eq!(Word::trailing_ones(0b0111u64), 3);
    assert_eq!(Word::leading_ones(u64::MAX << 60), 4);
    assert_eq!(Word::xor_scan(0b0100_0100u64), 0b0011_1100);
    assert_eq!(Word::xor_scan_down(0b1u64 << 63), u64::MAX);
    assert_eq!(<u64 as Word>::splat_byte(0x5A), 0x5A5A_5A5A_5A5A_5A5A);
}

#[test]
fn positions_walk_both_ways() {
    let mut p = Positions(0b1010_0101);
    assert_eq!(p.len(), 4);
    assert_eq!(p.next(), Some(0));
    assert_eq!(p.next_back(), Some(7));
    assert_eq!(p.next(), Some(2));
    assert_eq!(p.next(), Some(5));
    assert_eq!(p.next(), None);
    assert_eq!(p.next_back(), None);
}

#[test]
fn words_over_slices() {
    let words = [0b101u64, 1, 0, u64::MAX];
    assert_eq!(Words::count_ones(&words[..]), 67);
    assert_eq!(Words::rank(&words[..], 3), 2);
    assert_eq!(Words::rank(&words[..], 65), 3);
    assert_eq!(Words::rank(&words[..], 1000), 67);
    assert_eq!(Words::select(&words[..], 2), Some(64));
    assert_eq!(Words::select(&words[..], 3), Some(192));
    assert_eq!(Words::select(&words[..], 67), None);
    assert_eq!(words[..].next_set_from(65), Some(192));
    assert_eq!(words[..].next_set_from(1), Some(2));
    assert_eq!(words[..2].next_set_from(65), None);
    let v = [0b101u64, 1][..].positions();
    assert_eq!(v, [0, 2, 64]);
    // A run straddling a word boundary, and one inside a word.
    let runs = [0xF000_0000_0000_0000u64, 0b111];
    assert_eq!(runs[..].find_run(7), Some(60));
    assert_eq!(runs[..].find_run(8), None);
    assert_eq!(runs[..].find_run(3), Some(60));
    assert_eq!([0b1110u64][..].find_run(3), Some(1));
    assert_eq!([0u64, 0][..].find_run(1), None);
}

#[test]
fn find_escaped_doc_example() {
    // text:      a \ " \ \ " \ \ \ "
    // index:     0 1 2 3 4 5 6 7 8 9
    let backslashes: u64 = 0b01_1101_1010;
    let (escaped, carry) = backslashes.find_escaped(false);
    assert_eq!(escaped, 0b10_0000_0100);
    assert!(!carry);
}

#[test]
fn find_escaped_carries_across_words() {
    // A lone backslash in the top bit escapes bit 0 of the next word.
    let (escaped, carry) = (1u64 << 63).find_escaped(false);
    assert_eq!(escaped, 0);
    assert!(carry);
    let (escaped, carry) = 0u64.find_escaped(carry);
    assert_eq!(escaped, 1);
    assert!(!carry);
    // A carried-in odd run continued by one more backslash becomes even.
    let (escaped, carry) = 1u64.find_escaped(true);
    assert_eq!(escaped, 0);
    assert!(!carry);
    // Sixty-four backslashes pair up; with a carry the parity flips.
    assert_eq!(u64::MAX.find_escaped(false), (0, false));
    assert_eq!(u64::MAX.find_escaped(true), (0, true));
}
