//! Bit-level view of fixed-width binary vectors and their Hamming distance.
use vstd::prelude::*;

verus! {

/// Bit `i` of a byte string, counting from the least significant bit of the
/// first byte.
pub open spec fn bit(a: Seq<u8>, i: int) -> u8 {
    (a[i / 8] >> ((i % 8) as u8)) & 1u8
}

/// Number of bit positions in `[lo, hi)` at which `a` and `b` differ.
pub open spec fn diff_bits(a: Seq<u8>, b: Seq<u8>, lo: int, hi: int) -> nat
    decreases hi - lo,
{
    if hi <= lo {
        0
    } else {
        diff_bits(a, b, lo, hi - 1) + if bit(a, hi - 1) != bit(b, hi - 1) {
            1nat
        } else {
            0nat
        }
    }
}

/// Hamming distance between two byte strings of the same length.
pub open spec fn hamming(a: Seq<u8>, b: Seq<u8>) -> nat {
    diff_bits(a, b, 0, 8 * a.len() as int)
}

pub proof fn lemma_diff_bits_bound(a: Seq<u8>, b: Seq<u8>, lo: int, hi: int)
    ensures
        lo <= hi ==> diff_bits(a, b, lo, hi) <= hi - lo,
    decreases hi - lo,
{
    if hi > lo {
        lemma_diff_bits_bound(a, b, lo, hi - 1);
    }
}

/// Counts the differing bits of `a` and `b` in the bit range `[lo, hi)`.
pub fn count_diff_bits(a: &Vec<u8>, b: &Vec<u8>, lo: usize, hi: usize) -> (r: u32)
    requires
        lo <= hi,
        hi <= 8 * a@.len(),
        a@.len() == b@.len(),
        hi <= u32::MAX,
    ensures
        r == diff_bits(a@, b@, lo as int, hi as int),
{
    let mut count: u32 = 0;
    let mut i: usize = lo;
    while i < hi
        invariant
            lo <= i <= hi,
            hi <= 8 * a@.len(),
            a@.len() == b@.len(),
            hi <= u32::MAX,
            count == diff_bits(a@, b@, lo as int, i as int),
        decreases hi - i,
    {
        proof {
            lemma_diff_bits_bound(a@, b@, lo as int, i as int);
        }
        let shift: u8 = (i % 8) as u8;
        let x: u8 = (a[i / 8] >> shift) & 1u8;
        let y: u8 = (b[i / 8] >> shift) & 1u8;
        if x != y {
            count = count + 1;
        }
        i = i + 1;
    }
    count
}

/// Hamming distance between two vectors of the same width.
pub fn hamming_distance(a: &Vec<u8>, b: &Vec<u8>) -> (r: u32)
    requires
        a@.len() == b@.len(),
        8 * a@.len() <= u32::MAX,
    ensures
        r == hamming(a@, b@),
{
    count_diff_bits(a, b, 0, 8 * a.len())
}

} // verus!
