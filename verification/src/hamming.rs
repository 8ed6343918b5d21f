//! The Hamming distance between two strings of the same length in bytes.

use crate::levenshtein::{
    lemma_prefix_distance_full, lemma_prefix_distance_step, levenshtein, prefix_distance,
    substitution_cost,
};
use vstd::prelude::*;
use vstd::string::StringSliceAdditionalSpecFns;

verus! {

/// Why a distance could not be computed.
#[derive(Debug, Clone, Copy, PartialEq, Eq)]
pub enum DistanceError {
    /// The two strings do not have the same number of bytes.
    LengthMismatch,
}

impl DistanceError {
    /// A sentence that says what went wrong.
    pub fn message(&self) -> (text: &'static str)
        ensures
            text@ == "sequences must have the same length"@,
    {
        "sequences must have the same length"
    }
}

/// The number of positions below `k` at which `s` and `t` hold different
/// elements.
pub open spec fn mismatches_below<T>(s: Seq<T>, t: Seq<T>, k: nat) -> nat
    recommends
        k <= s.len(),
        k <= t.len(),
    decreases k,
{
    if k == 0 {
        0
    } else {
        mismatches_below(s, t, (k - 1) as nat) + substitution_cost(s[k - 1], t[k - 1])
    }
}

/// The Hamming distance between two sequences of the same length: the
/// number of positions at which they hold different elements.
pub open spec fn hamming<T>(s: Seq<T>, t: Seq<T>) -> nat
    recommends
        s.len() == t.len(),
{
    mismatches_below(s, t, s.len())
}

/// Substituting at every differing position is one way to turn a prefix of
/// `s` into the prefix of `t` of the same length.
proof fn lemma_prefix_distance_at_most_mismatches<T>(s: Seq<T>, t: Seq<T>, k: nat)
    requires
        k <= s.len(),
        k <= t.len(),
    ensures
        prefix_distance(s, t, k as int, k as int) <= mismatches_below(s, t, k),
    decreases k,
{
    lemma_prefix_distance_step(s, t, k as int, k as int);
    if k > 0 {
        lemma_prefix_distance_at_most_mismatches(s, t, (k - 1) as nat);
    }
}

/// Two sequences of the same length are never farther apart by edits than by
/// mismatches.
pub proof fn lemma_levenshtein_at_most_hamming<T>(s: Seq<T>, t: Seq<T>)
    requires
        s.len() == t.len(),
    ensures
        levenshtein(s, t) <= hamming(s, t),
{
    lemma_prefix_distance_at_most_mismatches(s, t, s.len());
    lemma_prefix_distance_full(s, t);
}

/// The Hamming distance between the bytes of `s` and the bytes of `t`: the
/// number of positions at which the two strings hold different bytes.
///
/// Fails with [`DistanceError::LengthMismatch`] exactly when the two strings
/// do not have the same number of bytes.
pub fn hamming_distance(s: &str, t: &str) -> (r: Result<u64, DistanceError>)
    ensures
        r is Err <==> s.spec_bytes().len() != t.spec_bytes().len(),
        r matches Err(err) ==> err == DistanceError::LengthMismatch,
        r matches Ok(d) ==> d == hamming(s.spec_bytes(), t.spec_bytes()),
{
    let a = s.as_bytes();
    let b = t.as_bytes();
    if a.len() != b.len() {
        return Err(DistanceError::LengthMismatch);
    }
    let mut count: usize = 0;
    let mut k: usize = 0;
    while k < a.len()
        invariant
            a@.len() == b@.len(),
            k <= a@.len(),
            count <= k,
            count == mismatches_below(a@, b@, k as nat),
        decreases a@.len() - k,
    {
        if a[k] != b[k] {
            count = count + 1;
        }
        k = k + 1;
    }
    Ok(count as u64)
}

} // verus!
