//! The distance metric for fingerprint keys.
//!
//! Two keys of equal length are compared position by position (Hamming
//! distance); keys of incompatible lengths are maximally far apart, at the
//! sum of their lengths.  The metric is symmetric, zero exactly on equal
//! keys, and satisfies the triangle inequality, which is what the
//! fingerprint index relies on to prune its searches.
use vstd::prelude::*;

verus! {

/// Keys longer than this are rejected as malformed before they reach the
/// index, so that every distance fits comfortably in a `u64`.
pub const KEY_LEN_LIMIT: usize = 0x1000_0000;

/// Number of positions at which two equal-length byte keys differ.
pub open spec fn hamming(a: Seq<u8>, b: Seq<u8>) -> nat
    decreases a.len(),
{
    if a.len() == 0 || b.len() == 0 {
        0
    } else {
        hamming(a.drop_last(), b.drop_last()) + if a.last() == b.last() {
            0nat
        } else {
            1nat
        }
    }
}

/// The distance between two fingerprint keys.
pub open spec fn key_dist(a: Seq<u8>, b: Seq<u8>) -> nat {
    if a.len() == b.len() {
        hamming(a, b)
    } else {
        a.len() + b.len()
    }
}

pub proof fn lemma_hamming_bound(a: Seq<u8>, b: Seq<u8>)
    ensures
        hamming(a, b) <= a.len(),
    decreases a.len(),
{
    if a.len() != 0 && b.len() != 0 {
        lemma_hamming_bound(a.drop_last(), b.drop_last());
    }
}

pub proof fn lemma_hamming_sym(a: Seq<u8>, b: Seq<u8>)
    requires
        a.len() == b.len(),
    ensures
        hamming(a, b) == hamming(b, a),
    decreases a.len(),
{
    if a.len() != 0 {
        lemma_hamming_sym(a.drop_last(), b.drop_last());
    }
}

pub proof fn lemma_hamming_zero(a: Seq<u8>, b: Seq<u8>)
    requires
        a.len() == b.len(),
    ensures
        (hamming(a, b) == 0) <==> (a == b),
    decreases a.len(),
{
    if a.len() == 0 {
        assert(a =~= b);
    } else {
        lemma_hamming_zero(a.drop_last(), b.drop_last());
        if hamming(a, b) == 0 {
            assert(a =~= a.drop_last().push(a.last()));
            assert(b =~= b.drop_last().push(b.last()));
        }
        if a == b {
            assert(a.drop_last() =~= b.drop_last());
        }
    }
}

proof fn lemma_hamming_triangle(a: Seq<u8>, b: Seq<u8>, c: Seq<u8>)
    requires
        a.len() == b.len(),
        b.len() == c.len(),
    ensures
        hamming(a, c) <= hamming(a, b) + hamming(b, c),
    decreases a.len(),
{
    if a.len() != 0 {
        lemma_hamming_triangle(a.drop_last(), b.drop_last(), c.drop_last());
    }
}

/// The metric is symmetric.
pub proof fn lemma_dist_sym(a: Seq<u8>, b: Seq<u8>)
    ensures
        key_dist(a, b) == key_dist(b, a),
{
    if a.len() == b.len() {
        lemma_hamming_sym(a, b);
    }
}

/// The metric is zero exactly on equal keys.
pub proof fn lemma_dist_zero(a: Seq<u8>, b: Seq<u8>)
    ensures
        (key_dist(a, b) == 0) <==> (a == b),
{
    if a.len() == b.len() {
        lemma_hamming_zero(a, b);
    }
}

/// The metric satisfies the triangle inequality.
pub proof fn lemma_dist_triangle(a: Seq<u8>, b: Seq<u8>, c: Seq<u8>)
    ensures
        key_dist(a, c) <= key_dist(a, b) + key_dist(b, c),
{
    if a.len() == b.len() && b.len() == c.len() {
        lemma_hamming_triangle(a, b, c);
    } else if a.len() == c.len() {
        // b has a different length from both a and c.
        lemma_hamming_bound(a, c);
    } else {
        // a and c have different lengths, so at least one of the two
        // distances on the right-hand side is a sum of lengths as well.
    }
}

/// Computes the distance between two keys.
pub fn distance(a: &Vec<u8>, b: &Vec<u8>) -> (r: u64)
    requires
        a@.len() <= KEY_LEN_LIMIT,
        b@.len() <= KEY_LEN_LIMIT,
    ensures
        r == key_dist(a@, b@),
        r <= a@.len() + b@.len(),
{
    if a.len() != b.len() {
        return (a.len() as u64) + (b.len() as u64);
    }
    let mut i: usize = 0;
    let mut diff: u64 = 0;
    while i < a.len()
        invariant
            a@.len() == b@.len() <= KEY_LEN_LIMIT,
            i <= a@.len(),
            diff == hamming(a@.subrange(0, i as int), b@.subrange(0, i as int)),
            diff <= i,
        decreases a@.len() - i,
    {
        proof {
            let pa = a@.subrange(0, i + 1);
            let pb = b@.subrange(0, i + 1);
            assert(pa.drop_last() =~= a@.subrange(0, i as int));
            assert(pb.drop_last() =~= b@.subrange(0, i as int));
        }
        if a[i] != b[i] {
            diff = diff + 1;
        }
        i = i + 1;
    }
    proof {
        assert(a@.subrange(0, a@.len() as int) =~= a@);
        assert(b@.subrange(0, b@.len() as int) =~= b@);
        lemma_hamming_bound(a@, b@);
    }
    diff
}

} // verus!
