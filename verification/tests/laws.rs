use hakmem::laws::{block_starts_laws, board8_permutations_are_correct, run_starts_one_is_identity, run_starts_shrinks, run_starts_matches_reference, run_starts_preserves_and, delta_after_prefix_xor_is_identity, prefix_xor_matches_reference, prefix_or_is_smear_from_first_set, rank_is_monotone, rank_full_is_popcount, first_last_bracket_set_bits, select_is_rank_inverse, select_matches_reference, select_inverts_rank_on_set_bits, compact_matches_reference, expand_matches_reference, compact_expand_roundtrip, expand_compact_roundtrip, prefix_xor_after_delta_is_identity, gray_successor_flips_lowest_set, gray_code_laws, xor_linear_combinators, delta_swap_is_involution, delta_swaps_merge, zero_bytes_turns_or_into_and, compact_preserves_popcount, compact_composes, expand_composes, run_starts_composes, basics_match_reference, small_reduces_match_reference, positions_enumerate_set_bits, longest_run_matches_reference, fills_match_reference, fills_are_closure_operators, swar_lanes_match_reference, pow2_helpers_match_reference, dilated_roundtrip, dilated_incr_is_add_one, dilated_decr_after_incr_is_identity, dilated_add_is_add, morton_roundtrip, morton_steps_are_unit_moves, morton_aligned_block_is_contiguous, find_escaped_matches_reference, slice_ops_match_reference, next_same_popcount_matches_reference};

fn stream(seed: u64, n: usize) -> Vec<u64> {
    let mut s = seed;
    let mut out = vec![0, 1, u64::MAX, 0x8000_0000_0000_0000, 0x0123_4567_89AB_CDEF];
    for _ in 0..n {
        s ^= s << 13;
        s ^= s >> 7;
        s ^= s << 17;
        out.push(s);
        out.push(s & s.rotate_left(17));
    }
    out
}

#[test]
fn single_word_laws_hold() {
    let xs = stream(0x9E37_79B9_7F4A_7C15, 60);
    for (n, &x) in xs.iter().enumerate() {
        let y = xs[(n * 7 + 3) % xs.len()];
        let m = xs[(n * 13 + 5) % xs.len()];
        let k = (n % 64) as u32;
        assert!(run_starts_one_is_identity(x));
        assert!(run_starts_matches_reference(x, k));
        assert!(run_starts_preserves_and(x, y, k));
        if k >= 1 {
            assert!(run_starts_shrinks(x, k));
        }
        assert!(run_starts_composes(x, 1 + k % 8, 1 + k / 8));
        assert!(delta_after_prefix_xor_is_identity(x));
        assert!(prefix_xor_after_delta_is_identity(x));
        assert!(prefix_xor_matches_reference(x));
        assert!(prefix_or_is_smear_from_first_set(x));
        assert!(rank_is_monotone(x, k));
        assert!(rank_full_is_popcount(x));
        assert!(first_last_bracket_set_bits(x));
        assert!(select_is_rank_inverse(x, k));
        assert!(select_matches_reference(x, k));
        assert!(select_inverts_rank_on_set_bits(x, k));
        assert!(compact_matches_reference(x, m));
        assert!(expand_matches_reference(x, m));
        assert!(compact_expand_roundtrip(x, m));
        assert!(expand_compact_roundtrip(x, m));
        assert!(compact_preserves_popcount(x, m));
        assert!(compact_composes(x, m, y));
        assert!(expand_composes(x, m, y));
        if x != u64::MAX {
            assert!(gray_successor_flips_lowest_set(x));
        }
        assert!(gray_code_laws(x));
        assert!(xor_linear_combinators(x, y, m, 1 + k % 63));
        assert!(delta_swap_is_involution(x, m, 1 + k % 63));
        assert!(delta_swaps_merge(x, m, y, 1 + k % 63));
        assert!(zero_bytes_turns_or_into_and(x, y));
        assert!(basics_match_reference(x, y, m));
        assert!(small_reduces_match_reference(x));
        assert!(positions_enumerate_set_bits(x));
        assert!(longest_run_matches_reference(x));
        assert!(fills_match_reference(x, m, 1 + k % 63));
        assert!(fills_are_closure_operators(x, m, k));
        assert!(swar_lanes_match_reference(x, (y & 0xFF) as u8, 1 + (m % 128) as u8));
        assert!(pow2_helpers_match_reference(x));
    }
}

#[test]
fn curve_laws_hold() {
    let xs = stream(0x2545_F491_4F6C_DD1D, 40);
    for (n, &x) in xs.iter().enumerate() {
        let y = xs[(n * 5 + 1) % xs.len()];
        assert!(dilated_roundtrip::<1>(x));
        assert!(dilated_roundtrip::<2>(x));
        assert!(dilated_roundtrip::<3>(x));
        assert!(dilated_roundtrip::<7>(x));
        assert!(dilated_incr_is_add_one::<2>(x));
        assert!(dilated_incr_is_add_one::<3>(x));
        assert!(dilated_decr_after_incr_is_identity::<2>(x));
        assert!(dilated_decr_after_incr_is_identity::<5>(x));
        assert!(dilated_add_is_add::<2>(x, y));
        assert!(dilated_add_is_add::<3>(x, y));
        assert!(morton_roundtrip(x, y));
        assert!(morton_steps_are_unit_moves(x, y));
        assert!(morton_aligned_block_is_contiguous(x, y));
    }
}

#[test]
fn board_and_grid_laws_hold() {
    for x in stream(0x1357_9BDF_2468_ACE0, 30) {
        assert!(board8_permutations_are_correct(x));
    }
    let rows = [0b0111_1000u64, 0b0111_1100, 0b0011_1100, 0, u64::MAX, u64::MAX, 0xFF00, 0xFFF0];
    for w1 in 1..5u32 {
        for h1 in 1..4u32 {
            assert!(block_starts_laws(&rows, w1, h1, 2, 2));
            assert!(block_starts_laws(&rows[..5], w1, h1, 3, 1));
        }
    }
    assert!(block_starts_laws(&rows, 64, 1, 1, 3));
}

#[test]
fn find_escaped_matches_reference_on_chains() {
    let xs = stream(0x2545_F491_4F6C_DD1D, 40);
    for start in 0..xs.len() {
        let end = (start + 5).min(xs.len());
        assert!(find_escaped_matches_reference(&xs[start..end], false));
        assert!(find_escaped_matches_reference(&xs[start..end], true));
    }
    let runs = [1u64 << 63, u64::MAX, 0, 0b0111, u64::MAX << 1, 1];
    assert!(find_escaped_matches_reference(&runs, false));
    assert!(find_escaped_matches_reference(&runs, true));
    assert!(find_escaped_matches_reference(&[], true));
}

#[test]
fn slice_ops_match_reference_on_samples() {
    let xs = stream(0x0DDB_1A5E_5BAD_5EED, 12);
    let slices: Vec<Vec<u64>> = vec![
        vec![],
        vec![0],
        vec![u64::MAX >> 4, u64::MAX],
        vec![0xFFu64 << 56, u64::MAX],
        vec![0b101, 1],
        xs[..3].to_vec(),
        xs[3..7].to_vec(),
        vec![1u64 << 63, 0, u64::MAX, 0x00FF_00FF_00FF_00FF],
    ];
    for words in &slices {
        for i in [0usize, 1, 2, 5, 63, 64, 65, 100, 127, 128, 200, 255, 256, 300] {
            for k in [1u32, 2, 3, 6, 8, 16, 33, 63, 64] {
                assert!(slice_ops_match_reference(words, i, k), "{words:?} {i} {k}");
            }
        }
    }
}

#[test]
fn gosper_matches_search_near_the_answer() {
    // Words whose successor is close enough for the search to reach it.
    let mut samples = vec![1u64, 2, 3, 0b1011, 0b0110_0000, 0x00FF, 0x0F0F, 0b1001_1100, (1 << 40) | 1];
    for k in 1..20u32 {
        samples.push((1u64 << k) - 1);
        samples.push(((1u64 << k) - 1) << 5);
    }
    // No successor: the lowest run reaches the top, the search runs off the end
    // only for these few cheap-to-recognise words.
    samples.push(u64::MAX);
    samples.push(0);
    for &x in &samples {
        assert!(next_same_popcount_matches_reference(x), "{x:#x}");
    }
}
