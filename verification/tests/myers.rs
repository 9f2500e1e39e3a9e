use hakmem::myers::{distance, distance_in, search, substring_distance, Occurrence};

fn ends(pattern: &[u8], text: &[u8], max: u32) -> Vec<(usize, u32)> {
    let mut s = search(pattern, text, max).unwrap();
    let mut out = Vec::new();
    while let Some(e) = s.next() {
        out.push(e);
    }
    out
}

fn occurrences(pattern: &[u8], text: &[u8], max: u32) -> Vec<Occurrence> {
    let mut o = search(pattern, text, max).unwrap().occurrences();
    let mut out = Vec::new();
    while let Some(x) = o.next() {
        out.push(x);
    }
    out
}

#[test]
fn distance_in_doc_examples() {
    assert_eq!(distance_in(b"kitten", b"sitting"), Some(3));
    assert_eq!(distance_in(b"", b"abc"), Some(3));
    assert_eq!(distance_in(&[b'x'; 65], b""), None);
    assert_eq!(distance_in(&[b'x'; 64], b""), Some(64));
}

#[test]
fn distance_in_small_cases() {
    assert_eq!(distance_in(b"abc", b"abc"), Some(0));
    assert_eq!(distance_in(b"abc", b""), Some(3));
    assert_eq!(distance_in(b"flaw", b"lawn"), Some(2));
    assert_eq!(distance_in(b"a", b"b"), Some(1));
    assert_eq!(distance_in(b"intention", b"execution"), Some(5));
}

#[test]
fn search_exact_ends() {
    assert_eq!(ends(b"lo", b"hello lo", 0), vec![(5, 0), (8, 0)]);
}

#[test]
fn search_two_edits() {
    assert_eq!(ends(b"hello", b"say helo there", 2), vec![(7, 2), (8, 1), (9, 2)]);
}

#[test]
fn search_refuses_empty_and_wide_patterns() {
    assert!(search(b"", b"abc", 1).is_none());
    assert!(search(&[0u8; 65], b"abc", 1).is_none());
    assert!(search(&[0u8; 64], b"abc", 1).is_some());
}

#[test]
fn occurrences_doc_example() {
    let text = b"the quick brown fox and the quikc brown fox";
    let found: Vec<(&[u8], u32)> = occurrences(b"quick brown fox", text, 2)
        .iter()
        .map(|o| (&text[o.range()], o.distance()))
        .collect();
    assert_eq!(
        found,
        vec![(&b"quick brown fox"[..], 0), (&b"quikc brown fox"[..], 2)]
    );
}

#[test]
fn occurrence_parts_agree() {
    let found = occurrences(b"lo", b"hello lo", 0);
    assert_eq!(found.len(), 2);
    assert_eq!((found[0].start(), found[0].end(), found[0].distance()), (3, 5, 0));
    assert_eq!((found[1].start(), found[1].end(), found[1].distance()), (6, 8, 0));
    assert_eq!(found[1].range(), 6..8);
}

#[test]
fn occurrences_one_per_run() {
    // The three ends 7, 8, 9 are one run; its best end is 8.
    let found = occurrences(b"hello", b"say helo there", 2);
    assert_eq!(found.len(), 1);
    assert_eq!(found[0].end(), 8);
    assert_eq!(found[0].distance(), 1);
    assert_eq!(found[0].start(), 4);
}

#[test]
fn substring_distance_cases() {
    assert_eq!(substring_distance(b"hello", b"say helo there"), Some(1));
    assert_eq!(substring_distance(b"lo", b"hello"), Some(0));
    assert_eq!(substring_distance(b"abc", b""), Some(3));
    assert_eq!(substring_distance(b"", b"xyz"), Some(0));
    assert_eq!(substring_distance(&[1u8; 65], b"xyz"), None);
}

#[test]
fn distance_doc_examples() {
    assert_eq!(distance(b"kitten", b"sitting"), Some(3));
    let long = [b'a'; 300];
    assert_eq!(distance(&long, &long[..290]), Some(10));
    assert_eq!(distance(&[0; 513], b""), None);
}

#[test]
fn distance_wide_patterns_match_word_engine() {
    let p: Vec<u8> = (0..100u32).map(|i| (i * 7 % 13) as u8).collect();
    let t: Vec<u8> = (0..90u32).map(|i| (i * 5 % 13) as u8).collect();
    // The column engine on 100 bytes agrees with the word engine on halves
    // only through the distance itself; check known identities.
    assert_eq!(distance(&p, &p), Some(0));
    assert_eq!(distance(&p, b""), Some(100));
    assert_eq!(distance(&p[..64], &t), distance_in(&p[..64], &t));
    assert_eq!(distance(&[b'a'; 512], &[b'b'; 1]), Some(512));
}

#[test]
fn reversal_keeps_distance() {
    let pairs: [(&[u8], &[u8]); 4] = [
        (b"kitten", b"sitting"),
        (b"abcdef", b"azced"),
        (b"", b"xyz"),
        (b"sunday", b"saturday"),
    ];
    for (a, b) in pairs {
        let ra: Vec<u8> = a.iter().rev().copied().collect();
        let rb: Vec<u8> = b.iter().rev().copied().collect();
        assert_eq!(distance_in(&ra, &rb), distance_in(a, b));
    }
}

#[test]
fn occurrence_range_is_its_distance_away() {
    let text = b"the quick brown fox and the quikc brown fox, quack brwn fx";
    let pattern = b"quick brown fox";
    for o in occurrences(pattern, text, 3) {
        assert_eq!(distance_in(pattern, &text[o.range()]), Some(o.distance()));
    }
}

#[test]
fn substring_distance_is_brute_force_least() {
    let text = b"abracadabra";
    for pattern in [&b"cad"[..], b"bra", b"xyz", b"acd", b"aaaa"] {
        let mut best = u32::MAX;
        for s in 0..=text.len() {
            for e in s..=text.len() {
                best = best.min(distance_in(pattern, &text[s..e]).unwrap());
            }
        }
        assert_eq!(substring_distance(pattern, text), Some(best));
    }
}

#[test]
fn search_ends_are_brute_force_matches() {
    let text = b"abracadabra";
    let pattern = b"acd";
    let got = ends(pattern, text, 1);
    let mut want = Vec::new();
    for e in 1..=text.len() {
        let d = (0..=e).map(|s| distance_in(pattern, &text[s..e]).unwrap()).min().unwrap();
        if d <= 1 {
            want.push((e, d));
        }
    }
    assert_eq!(got, want);
}

#[test]
fn search_yields_the_empty_match_when_within_reach() {
    assert_eq!(ends(b"ab", b"xx", 2), vec![(0, 2), (1, 2), (2, 2)]);
    assert_eq!(ends(b"ab", b"xx", 1), vec![]);
    let found = occurrences(b"ab", b"xx", 2);
    assert_eq!(found.len(), 1);
    assert_eq!((found[0].start(), found[0].end(), found[0].distance()), (0, 0, 2));
}
