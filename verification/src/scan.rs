//! Bytes to masks for a disassembly listing: one bit per byte, one mask per
//! character class that objdump's grammar turns on (newline, tab, `#`,
//! `:`, `<`, `>`).
//!
//! The classifier is simdjson's nibble lookup: a byte is in class `k` iff
//! `LO[low nibble] & HI[high nibble]` has bit `7 - k`. The classes fill the
//! byte from the top, so the top bit of the lookup is class 0 and each
//! doubling brings up the next. [`classify`] states that the two tables
//! single out exactly the six characters; [`classes_naive`] is the byte at
//! a time scan every wider kernel is held to.
use vstd::prelude::*;
use crate::model::{bit_of, group_bits};

verus! {

broadcast use group_bits;

/// Class of the newline.
pub const NL: usize = 0;
/// Class of the tab.
pub const TAB: usize = 1;
/// Class of `#`.
pub const HASH: usize = 2;
/// Class of `:`.
pub const COLON: usize = 3;
/// Class of `<`.
pub const LT: usize = 4;
/// Class of `>`.
pub const GT: usize = 5;

/// The characters of the classes, class `k` at index `k`.
pub open spec fn class_char(k: int) -> u8 {
    if k == 0 {
        10u8
    } else if k == 1 {
        9u8
    } else if k == 2 {
        35u8
    } else if k == 3 {
        58u8
    } else if k == 4 {
        60u8
    } else {
        62u8
    }
}

/// The class bits of a byte: `0x80 >> k` for the character of class `k`,
/// nothing for any other byte.
pub open spec fn class_bits(b: u8) -> u8 {
    if b == 10 {
        0x80
    } else if b == 9 {
        0x40
    } else if b == 35 {
        0x20
    } else if b == 58 {
        0x10
    } else if b == 60 {
        0x08
    } else if b == 62 {
        0x04
    } else {
        0
    }
}

/// The low-nibble table entry: the classes whose character has low nibble
/// `n`.
pub open spec fn lo_entry(n: u8) -> u8 {
    if n == 10 {
        0x90
    } else if n == 9 {
        0x40
    } else if n == 3 {
        0x20
    } else if n == 12 {
        0x08
    } else if n == 14 {
        0x04
    } else {
        0
    }
}

/// The high-nibble table entry: the classes whose character has high
/// nibble `n`.
pub open spec fn hi_entry(n: u8) -> u8 {
    if n == 0 {
        0xC0
    } else if n == 2 {
        0x20
    } else if n == 3 {
        0x1C
    } else {
        0
    }
}

proof fn lemma_nibble_lookup(b: u8)
    by (bit_vector)
    ensures
        lo_entry(b & 15) & hi_entry(b >> 4) == class_bits(b),
        b & 15 < 16,
        b >> 4 < 16,
{
}

/// The characters of the classes, in class order.
pub fn chars() -> (r: [u8; 6])
    ensures
        forall|k: int| 0 <= k < 6 ==> #[trigger] r@[k] == class_char(k),
{
    [10, 9, 35, 58, 60, 62]
}

/// The low-nibble table `LO`.
pub fn lo_table() -> (r: [u8; 16])
    ensures
        forall|n: int| 0 <= n < 16 ==> #[trigger] r@[n] == lo_entry(n as u8),
{
    [0, 0, 0, 0x20, 0, 0, 0, 0, 0, 0x40, 0x90, 0, 0x08, 0, 0x04, 0]
}

/// The high-nibble table `HI`.
pub fn hi_table() -> (r: [u8; 16])
    ensures
        forall|n: int| 0 <= n < 16 ==> #[trigger] r@[n] == hi_entry(n as u8),
{
    [0xC0, 0, 0x20, 0x1C, 0, 0, 0, 0, 0, 0, 0, 0, 0, 0, 0, 0]
}

/// The classes of one byte by the two lookups: bit `7 - k` for class `k`,
/// and no bit for a byte outside the classes.
pub fn classify(b: u8) -> (r: u8)
    ensures
        r == class_bits(b),
{
    let lo = lo_table();
    let hi = hi_table();
    proof {
        lemma_nibble_lookup(b);
    }
    lo[(b & 15) as usize] & hi[(b >> 4) as usize]
}

/// One bit per byte of a block, per class.
pub open spec fn masks_of(text: Seq<u8>, out: Seq<[u64; 6]>) -> bool {
    &&& out.len() == (text.len() + 63) / 64
    &&& forall|w: int, k: int, j: int|
        0 <= w < out.len() && 0 <= k < 6 && 0 <= j < 64 ==> #[trigger] bit_of(out[w]@[k], j) == (w * 64 + j < text.len() && text[w * 64 + j] == class_char(k))
}

/// The block of up to 64 bytes, padded with zeros.
pub fn pad(bytes: &[u8]) -> (r: [u8; 64])
    requires
        bytes@.len() <= 64,
    ensures
        forall|i: int| 0 <= i < 64 ==> #[trigger] r@[i] == if i < bytes@.len() { bytes@[i] } else { 0u8 },
{
    let mut b = [0u8; 64];
    let n = bytes.len();
    let mut i: usize = 0;
    while i < n
        invariant
            n == bytes@.len(),
            n <= 64,
            i <= n,
            forall|j: int| 0 <= j < 64 ==> #[trigger] b@[j] == if j < i { bytes@[j] } else { 0u8 },
        decreases n - i,
    {
        b.set(i, bytes[i]);
        i = i + 1;
    }
    b
}

/// A byte at a time: the masks of every class, the last block padded with
/// bytes of no class.
pub fn classes_naive(text: &[u8]) -> (r: Vec<[u64; 6]>)
    requires
        text@.len() + 63 <= usize::MAX,
    ensures
        masks_of(text@, r@),
{
    let n = text.len();
    let blocks = (n + 63) / 64;
    let cs = chars();
    let mut out: Vec<[u64; 6]> = Vec::new();
    let mut w: usize = 0;
    while w < blocks
        invariant
            blocks == (n + 63) / 64,
            w <= blocks,
            out@.len() == w,
            forall|v: int, k: int| 0 <= v < w && 0 <= k < 6 ==> #[trigger] out@[v]@[k] == 0u64,
        decreases blocks - w,
    {
        out.push([0u64; 6]);
        w = w + 1;
    }
    let mut i: usize = 0;
    while i < n
        invariant
            n == text@.len(),
            n + 63 <= usize::MAX,
            blocks == (n + 63) / 64,
            out@.len() == blocks,
            i <= n,
            forall|k: int| 0 <= k < 6 ==> #[trigger] cs@[k] == class_char(k),
            forall|v: int, k: int, j: int|
                0 <= v < blocks && 0 <= k < 6 && 0 <= j < 64 ==> #[trigger] bit_of(out@[v]@[k], j) == (v * 64 + j < i && text@[v * 64 + j] == class_char(k)),
        decreases n - i,
    {
        let b = text[i];
        let wi = i / 64;
        let bi = i % 64;
        let mut m = out[wi];
        let mut k: usize = 0;
        while k < 6
            invariant
                n == text@.len(),
                i < n,
                wi == i / 64,
                bi == i % 64,
                b == text@[i as int],
                k <= 6,
                forall|kk: int| 0 <= kk < 6 ==> #[trigger] cs@[kk] == class_char(kk),
                forall|kk: int, j: int| 0 <= kk < 6 && 0 <= j < 64 ==> #[trigger] bit_of(m@[kk], j) == ((wi * 64 + j < i || (kk < k && j == bi)) && text@[wi * 64 + j] == class_char(kk)),
            decreases 6 - k,
        {
            if b == cs[k] {
                let ghost before = m;
                m.set(k, m[k] | (1u64 << (bi as u64)));
                proof {
                    assert forall|kk: int, j: int| 0 <= kk < 6 && 0 <= j < 64 implies #[trigger] bit_of(m@[kk], j) == ((wi * 64 + j < i || (kk < k + 1 && j == bi)) && text@[wi * 64 + j] == class_char(kk)) by {
                        if kk == k {
                            assert(bit_of(before@[kk], j) == ((wi * 64 + j < i || (kk < k && j == bi)) && text@[wi * 64 + j] == class_char(kk)));
                            if j == bi {
                                assert(wi * 64 + j == i);
                            }
                        } else {
                            assert(m@[kk] == before@[kk]);
                        }
                    }
                }
            } else {
                proof {
                    assert forall|kk: int, j: int| 0 <= kk < 6 && 0 <= j < 64 implies #[trigger] bit_of(m@[kk], j) == ((wi * 64 + j < i || (kk < k + 1 && j == bi)) && text@[wi * 64 + j] == class_char(kk)) by {
                        if kk == k && j == bi {
                            assert(wi * 64 + j == i);
                        }
                    }
                }
            }
            k = k + 1;
        }
        let ghost old_out = out@;
        out.set(wi, m);
        proof {
            assert forall|v: int, k: int, j: int|
                0 <= v < blocks && 0 <= k < 6 && 0 <= j < 64 implies #[trigger] bit_of(out@[v]@[k], j) == (v * 64 + j < i + 1 && text@[v * 64 + j] == class_char(k)) by {
                if v == wi {
                    if j == bi {
                        assert(v * 64 + j == i);
                    }
                } else {
                    assert(out@[v] == old_out[v]);
                    assert(bit_of(old_out[v]@[k], j) == (v * 64 + j < i && text@[v * 64 + j] == class_char(k)));
                    if v < wi {
                        assert(v * 64 + j < wi * 64);
                    } else {
                        assert(v * 64 + j >= (wi + 1) * 64);
                    }
                }
            }
        }
        i = i + 1;
    }
    out
}

} // verus!
