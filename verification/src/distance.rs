use vstd::prelude::*;

verus! {

use crate::StatsError;

/// Number of positions at which two equal-length byte sequences disagree
/// (the Hamming distance). Meaningful only when `a.len() == b.len()`.
pub open spec fn hamming(a: Seq<u8>, b: Seq<u8>) -> nat
    decreases a.len(),
{
    if a.len() == 0 {
        0
    } else {
        hamming(a.drop_last(), b.drop_last()) + (if a.last() == b.last() {
            0nat
        } else {
            1nat
        })
    }
}

/// The mismatch count never exceeds the length of the first sequence.
pub proof fn lemma_hamming_le_len(a: Seq<u8>, b: Seq<u8>)
    ensures
        hamming(a, b) <= a.len(),
    decreases a.len(),
{
    if a.len() > 0 {
        lemma_hamming_le_len(a.drop_last(), b.drop_last());
    }
}

/// Every sequence is at distance zero from itself.
pub proof fn lemma_hamming_self(a: Seq<u8>)
    ensures
        hamming(a, a) == 0,
    decreases a.len(),
{
    if a.len() > 0 {
        lemma_hamming_self(a.drop_last());
    }
}

/// The distance between equal-length sequences does not depend on the
/// order of its two arguments.
pub proof fn lemma_hamming_symmetric(a: Seq<u8>, b: Seq<u8>)
    requires
        a.len() == b.len(),
    ensures
        hamming(a, b) == hamming(b, a),
    decreases a.len(),
{
    if a.len() > 0 {
        lemma_hamming_symmetric(a.drop_last(), b.drop_last());
    }
}

/// Mismatch count between two equal-length byte slices, free of any bound
/// on their length.
pub(crate) fn mismatch_count(a: &[u8], b: &[u8]) -> (r: usize)
    requires
        a@.len() == b@.len(),
    ensures
        r == hamming(a@, b@),
{
    let n = a.len();
    let mut score: usize = 0;
    let mut i: usize = 0;
    while i < n
        invariant
            n == a@.len() == b@.len(),
            i <= n,
            score == hamming(a@.take(i as int), b@.take(i as int)),
        decreases n - i,
    {
        proof {
            lemma_hamming_le_len(a@.take(i as int), b@.take(i as int));
            assert(a@.take(i + 1).drop_last() =~= a@.take(i as int));
            assert(b@.take(i + 1).drop_last() =~= b@.take(i as int));
        }
        if a[i] != b[i] {
            score = score + 1;
        }
        i = i + 1;
    }
    proof {
        assert(a@.take(n as int) =~= a@);
        assert(b@.take(n as int) =~= b@);
    }
    score
}

/// Mismatch score between two barcodes of the same length; rejects
/// inputs of unequal length without any partial computation.
pub fn hamming_distance(barcode_a: &[u8], barcode_b: &[u8]) -> (r: Result<u8, StatsError>)
    requires
        barcode_a@.len() == barcode_b@.len() ==> barcode_a@.len() <= 255,
    ensures
        barcode_a@.len() == barcode_b@.len() ==> r == Ok::<u8, StatsError>(
            hamming(barcode_a@, barcode_b@) as u8,
        ),
        barcode_a@.len() != barcode_b@.len() ==> r == Err::<u8, StatsError>(
            StatsError::LengthMismatch,
        ),
{
    if barcode_a.len() != barcode_b.len() {
        return Err(StatsError::LengthMismatch);
    }
    let n = barcode_a.len();
    let mut score: u8 = 0;
    let mut i: usize = 0;
    while i < n
        invariant
            n == barcode_a@.len() == barcode_b@.len(),
            n <= 255,
            i <= n,
            score == hamming(barcode_a@.take(i as int), barcode_b@.take(i as int)),
        decreases n - i,
    {
        proof {
            lemma_hamming_le_len(barcode_a@.take(i as int), barcode_b@.take(i as int));
            assert(barcode_a@.take(i + 1).drop_last() =~= barcode_a@.take(i as int));
            assert(barcode_b@.take(i + 1).drop_last() =~= barcode_b@.take(i as int));
        }
        if barcode_a[i] != barcode_b[i] {
            score = score + 1;
        }
        i = i + 1;
    }
    proof {
        assert(barcode_a@.take(n as int) =~= barcode_a@);
        assert(barcode_b@.take(n as int) =~= barcode_b@);
    }
    Ok(score)
}

} // verus!
