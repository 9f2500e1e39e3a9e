use hakmem::scan::{chars, classes_naive, classify, hi_table, lo_table, pad, COLON, GT, HASH, LT, NL, TAB};

#[test]
fn tables_are_exact() {
    let (lo, hi, chars) = (lo_table(), hi_table(), chars());
    for b in 0..=255u8 {
        let class = lo[usize::from(b & 15)] & hi[usize::from(b >> 4)];
        let want = chars.iter().position(|&c| c == b).map_or(0, |k| 0x80 >> k);
        assert_eq!(class, want, "byte {b:#04x}");
        assert_eq!(classify(b), want, "byte {b:#04x}");
    }
}

#[test]
fn class_indices_follow_the_characters() {
    let c = chars();
    assert_eq!(c, *b"\n\t#:<>");
    assert_eq!((c[NL], c[TAB], c[HASH], c[COLON], c[LT], c[GT]), (b'\n', b'\t', b'#', b':', b'<', b'>'));
}

#[test]
fn naive_scan_marks_every_class() {
    let text = b"0000000000001000 <main>:\n  1000:\t55\tpush   %rbp # x\n";
    let masks = classes_naive(text);
    assert_eq!(masks.len(), 1);
    for (i, &b) in text.iter().enumerate() {
        for (k, &c) in chars().iter().enumerate() {
            assert_eq!(masks[0][k] >> i & 1 == 1, b == c, "byte {i} class {k}");
        }
    }
    assert_eq!(masks[0][NL].count_ones(), 2);
    assert_eq!(masks[0][LT], 1 << 17);
    assert_eq!(masks[0][GT], 1 << 22);
    // Blocks past 64 bytes, and the empty text.
    let long: Vec<u8> = (0..200u32).map(|i| if i % 7 == 0 { b'\n' } else { b'a' }).collect();
    let masks = classes_naive(&long);
    assert_eq!(masks.len(), 4);
    let nl: u32 = masks.iter().map(|m| m[NL].count_ones()).sum();
    assert_eq!(nl, 29);
    assert!(masks.iter().all(|m| m[TAB] == 0 && m[HASH] == 0));
    assert!(classes_naive(b"").is_empty());
}

#[test]
fn pad_fills_with_zeros() {
    let p = pad(b"abc");
    assert_eq!(&p[..3], b"abc");
    assert!(p[3..].iter().all(|&b| b == 0));
    assert_eq!(pad(&[7u8; 64]), [7u8; 64]);
}
