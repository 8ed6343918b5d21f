//! The edit distance between two strings, computed row by row over a single
//! row of costs, optionally restricted to a diagonal band.

use crate::levenshtein::{
    lemma_cheaper_cell_in_each_row, lemma_levenshtein_at_least_length_difference,
    lemma_levenshtein_at_most_longer, lemma_levenshtein_common_prefix,
    lemma_levenshtein_identity, lemma_levenshtein_of_prefix, lemma_levenshtein_symmetric,
    lemma_prefix_distance_bounds, lemma_prefix_distance_full, lemma_prefix_distance_step,
    length_difference, levenshtein, longer, min3, prefix_distance,
};
use vstd::prelude::*;
use vstd::slice::slice_subrange;
use vstd::string::StringSliceAdditionalSpecFns;

verus! {

/// The first position at which `s` and `t` differ, or `None` when one of
/// them is a prefix of the other.
fn mismatch_position(s: &[u8], t: &[u8]) -> (pos: Option<usize>)
    ensures
        match pos {
            Some(p) => {
                &&& p < s@.len()
                &&& p < t@.len()
                &&& s@.subrange(0, p as int) == t@.subrange(0, p as int)
                &&& s@[p as int] != t@[p as int]
            },
            None => {
                ||| (s@.len() <= t@.len() && t@.subrange(0, s@.len() as int) == s@)
                ||| (t@.len() <= s@.len() && s@.subrange(0, t@.len() as int) == t@)
            },
        },
{
    let mut p: usize = 0;
    while p < s.len() && p < t.len()
        invariant
            p <= s@.len(),
            p <= t@.len(),
            s@.subrange(0, p as int) =~= t@.subrange(0, p as int),
        decreases s@.len() - p,
    {
        if s[p] != t[p] {
            return Some(p);
        }
        proof {
            let a = s@.subrange(0, p as int);
            let b = t@.subrange(0, p as int);
            assert forall|k: int| 0 <= k < p + 1 implies #[trigger] s@[k] == t@[k] by {
                if k < p {
                    assert(a[k] == b[k]);
                }
            }
        }
        p = p + 1;
    }
    proof {
        if p == s@.len() {
            assert(s@.subrange(0, p as int) =~= s@);
        } else {
            assert(t@.subrange(0, p as int) =~= t@);
        }
    }
    None
}

/// The row of costs before any element of `t` is read: turning the first
/// `i` elements of `s` into nothing costs `i`.
fn initial_costs(m: usize) -> (costs: Vec<usize>)
    requires
        m < usize::MAX,
    ensures
        costs@.len() == m + 1,
        forall|i: int| 0 <= i <= m ==> costs@[i] == i,
{
    let mut costs: Vec<usize> = Vec::with_capacity(m + 1);
    let mut i: usize = 0;
    while i <= m
        invariant
            m < usize::MAX,
            i <= m + 1,
            costs@.len() == i,
            forall|k: int| 0 <= k < i ==> costs@[k] == k,
        decreases m + 1 - i,
    {
        costs.push(i);
        i = i + 1;
    }
    costs
}

/// The smallest of three costs.
fn least_of_three(a: usize, b: usize, c: usize) -> (least: usize)
    ensures
        least == min3(a as nat, b as nat, c as nat),
{
    if a <= b {
        if a <= c {
            a
        } else {
            c
        }
    } else {
        if b <= c {
            b
        } else {
            c
        }
    }
}

/// The exact distance between `s` and `t`, by the classical computation that
/// keeps a single row of costs and rewrites it once for each element of `t`.
fn unbanded_distance(s: &[u8], t: &[u8]) -> (d: usize)
    requires
        s@.len() < usize::MAX,
        t@.len() < usize::MAX,
    ensures
        d == levenshtein(s@, t@),
{
    let m: usize = s.len();
    let n: usize = t.len();
    let mut costs: Vec<usize> = initial_costs(m);
    proof {
        assert forall|k: int| 0 <= k <= m implies costs@[k] == prefix_distance(s@, t@, k, 0) by {
            lemma_prefix_distance_step(s@, t@, k, 0);
        }
    }
    let mut j: usize = 1;
    while j <= n
        invariant
            m == s@.len(),
            n == t@.len(),
            m < usize::MAX,
            n < usize::MAX,
            1 <= j <= n + 1,
            costs@.len() == m + 1,
            forall|k: int| 0 <= k <= m ==> costs@[k] == prefix_distance(s@, t@, k, j - 1),
        decreases n + 1 - j,
    {
        let mut prev: usize = costs[0];
        proof {
            lemma_prefix_distance_step(s@, t@, 0, j - 1);
            lemma_prefix_distance_step(s@, t@, 0, j as int);
        }
        costs[0] = prev + 1;
        let mut i: usize = 1;
        while i <= m
            invariant
                m == s@.len(),
                n == t@.len(),
                m < usize::MAX,
                n < usize::MAX,
                1 <= j <= n,
                1 <= i <= m + 1,
                costs@.len() == m + 1,
                forall|k: int| 0 <= k < i ==> costs@[k] == prefix_distance(s@, t@, k, j as int),
                forall|k: int| i <= k <= m ==> costs@[k] == prefix_distance(s@, t@, k, j - 1),
                prev == prefix_distance(s@, t@, i - 1, j - 1),
            decreases m + 1 - i,
        {
            proof {
                lemma_prefix_distance_step(s@, t@, i as int, j as int);
                lemma_prefix_distance_bounds(s@, t@, i - 1, j - 1);
                lemma_prefix_distance_bounds(s@, t@, i as int, j - 1);
                lemma_prefix_distance_bounds(s@, t@, i - 1, j as int);
            }
            let diagonal: usize = if s[i - 1] == t[j - 1] {
                prev
            } else {
                prev + 1
            };
            let above: usize = costs[i] + 1;
            let left: usize = costs[i - 1] + 1;
            let c: usize = least_of_three(diagonal, left, above);
            prev = costs[i];
            costs[i] = c;
            i = i + 1;
        }
        j = j + 1;
    }
    proof {
        lemma_prefix_distance_full(s@, t@);
    }
    costs[m]
}

/// A cost as far as a threshold `e` can tell: every cost above `e` counts as
/// `e + 1`.
spec fn capped(cost: nat, e: nat) -> nat {
    if cost <= e {
        cost
    } else {
        e + 1
    }
}

/// The leftmost column that the band of half-width `e` reaches in row `j`.
spec fn band_start(j: int, e: int) -> int {
    if j <= e {
        0
    } else {
        j - e
    }
}

/// The distance between `s` and `t` as far as the threshold `e` can tell:
/// exact when it is at most `e`, and some value above `e` otherwise.
///
/// Only the cells within `e` of the main diagonal are computed. A row in
/// which every such cell is above `e` ends the computation at once.
fn banded_distance(s: &[u8], t: &[u8], e: usize) -> (d: usize)
    requires
        s@.len() < usize::MAX,
        t@.len() < usize::MAX,
        length_difference(s@.len(), t@.len()) <= e,
    ensures
        levenshtein(s@, t@) <= e ==> d == levenshtein(s@, t@),
        levenshtein(s@, t@) > e ==> d > e,
        d <= longer(s@.len(), t@.len()),
{
    let m: usize = s.len();
    let n: usize = t.len();
    let mut costs: Vec<usize> = initial_costs(m);
    proof {
        assert forall|k: int| 0 <= k <= m implies costs@[k] == prefix_distance(s@, t@, k, 0) by {
            lemma_prefix_distance_step(s@, t@, k, 0);
        }
        lemma_prefix_distance_full(s@, t@);
    }
    let mut smallest: usize = 0;
    let mut j: usize = 1;
    while j <= n
        invariant_except_break
            1 <= j <= n + 1,
            smallest <= e,
            forall|k: int|
                band_start(j - 1, e as int) <= k <= m ==> capped(costs@[k] as nat, e as nat)
                    == capped(prefix_distance(s@, t@, k, j - 1), e as nat),
            forall|k: int| 0 <= k <= m ==> costs@[k] <= longer(k as nat, (j - 1) as nat),
        invariant
            m == s@.len(),
            n == t@.len(),
            m < usize::MAX,
            n < usize::MAX,
            length_difference(m as nat, n as nat) <= e,
            costs@.len() == m + 1,
            prefix_distance(s@, t@, m as int, n as int) == levenshtein(s@, t@),
        ensures
            smallest > e ==> levenshtein(s@, t@) > e && smallest == e + 1,
            smallest <= e ==> capped(costs@[m as int] as nat, e as nat) == capped(
                levenshtein(s@, t@),
                e as nat,
            ),
            smallest <= e ==> costs@[m as int] <= longer(m as nat, n as nat),
        decreases n + 1 - j,
    {
        let stop: usize = if e <= m && j <= m - e {
            j + e + 1
        } else {
            m + 1
        };
        let mut prev: usize;
        let start: usize;
        if j <= e {
            proof {
                lemma_prefix_distance_step(s@, t@, 0, j - 1);
                lemma_prefix_distance_step(s@, t@, 0, j as int);
            }
            prev = costs[0];
            costs[0] = prev + 1;
            smallest = costs[0];
            start = 1;
        } else {
            start = j - e;
            prev = costs[start - 1];
            smallest = e + 1;
        }
        let mut i: usize = start;
        while i < stop
            invariant
                m == s@.len(),
                n == t@.len(),
                m < usize::MAX,
                n < usize::MAX,
                costs@.len() == m + 1,
                1 <= j <= n,
                1 <= start <= i <= stop <= m + 1,
                start == band_start(j - 1, e as int) + 1,
                stop == j + e + 1 || stop == m + 1,
                stop <= j + e + 1,
                forall|k: int|
                    band_start(j as int, e as int) <= k < i ==> capped(costs@[k] as nat, e as nat)
                        == capped(prefix_distance(s@, t@, k, j as int), e as nat),
                forall|k: int|
                    i <= k <= m ==> capped(costs@[k] as nat, e as nat) == capped(
                        prefix_distance(s@, t@, k, j - 1),
                        e as nat,
                    ),
                capped(prev as nat, e as nat) == capped(
                    prefix_distance(s@, t@, i - 1, j - 1),
                    e as nat,
                ),
                j > e && i == start ==> costs@[i - 1] == prev,
                forall|k: int| 0 <= k < i ==> costs@[k] <= longer(k as nat, j as nat),
                forall|k: int| i <= k <= m ==> costs@[k] <= longer(k as nat, (j - 1) as nat),
                prev <= longer((i - 1) as nat, (j - 1) as nat),
                smallest <= e + 1,
                forall|k: int| band_start(j as int, e as int) <= k < i ==> smallest <= costs@[k],
            decreases stop - i,
        {
            proof {
                lemma_prefix_distance_step(s@, t@, i as int, j as int);
                lemma_prefix_distance_bounds(s@, t@, i - 1, j as int);
            }
            let diagonal: usize = if s[i - 1] == t[j - 1] {
                prev
            } else {
                prev + 1
            };
            let above: usize = costs[i] + 1;
            let left: usize = costs[i - 1] + 1;
            let c: usize = least_of_three(diagonal, left, above);
            prev = costs[i];
            costs[i] = c;
            if c < smallest {
                smallest = c;
            }
            i = i + 1;
        }
        proof {
            assert forall|k: int| band_start(j as int, e as int) <= k <= m implies capped(
                costs@[k] as nat,
                e as nat,
            ) == capped(prefix_distance(s@, t@, k, j as int), e as nat) by {
                if k >= stop {
                    lemma_prefix_distance_bounds(s@, t@, k, j as int);
                    lemma_prefix_distance_bounds(s@, t@, k, j - 1);
                }
            }
            if smallest > e {
                if levenshtein(s@, t@) <= e {
                    let k = lemma_cheaper_cell_in_each_row(s@, t@, m as int, n as int, j as int);
                    lemma_prefix_distance_bounds(s@, t@, k, j as int);
                    assert(band_start(j as int, e as int) <= k < stop);
                    assert(capped(costs@[k] as nat, e as nat) == capped(
                        prefix_distance(s@, t@, k, j as int),
                        e as nat,
                    ));
                    assert(smallest <= costs@[k]);
                }
            }
        }
        if smallest > e {
            break;
        }
        j = j + 1;
    }
    proof {
        lemma_levenshtein_at_most_longer(s@, t@);
    }
    if smallest > e {
        smallest
    } else {
        costs[m]
    }
}

/// What [`edit_distance`] returns for the byte sequences `s` and `t` under the
/// threshold `max_diff`.
///
/// Without a threshold `d` is the Levenshtein distance. With a threshold `e`
/// it is the Levenshtein distance whenever that is at most `e`. Otherwise it
/// is above `e`: it is the difference of the two lengths where already that
/// difference is above `e`, and else some value that is at most the length
/// of the longer sequence and need not be the distance.
pub open spec fn is_edit_distance(s: Seq<u8>, t: Seq<u8>, max_diff: Option<usize>, d: usize) -> bool {
    match max_diff {
        None => d == levenshtein(s, t),
        Some(e) => if levenshtein(s, t) <= e {
            d == levenshtein(s, t)
        } else if length_difference(s.len(), t.len()) > e {
            d == length_difference(s.len(), t.len())
        } else {
            e < d <= longer(s.len(), t.len())
        },
    }
}

/// Whether [`is_edit_distance`] leaves only one result for `s` and `t` under
/// `max_diff`: there is no threshold, or the distance is at most the
/// threshold, or already the two lengths differ by more than the threshold.
pub open spec fn result_is_determined(s: Seq<u8>, t: Seq<u8>, max_diff: Option<usize>) -> bool {
    match max_diff {
        None => true,
        Some(e) => levenshtein(s, t) <= e || length_difference(s.len(), t.len()) > e,
    }
}

/// The threshold that a signed number stands for: a negative number means
/// that there is none; a number too large for `usize` stands for the largest
/// threshold there is.
pub open spec fn threshold_of(max_diff: i64) -> Option<usize> {
    if max_diff < 0 {
        None
    } else if max_diff > usize::MAX {
        Some(usize::MAX)
    } else {
        Some(max_diff as usize)
    }
}

/// Turns a signed threshold, in which any negative number means "no
/// threshold", into the optional threshold that [`edit_distance`] takes.
pub fn normalize_max_diff(max_diff: i64) -> (threshold: Option<usize>)
    ensures
        threshold == threshold_of(max_diff),
{
    if max_diff < 0 {
        None
    } else if max_diff as u64 > usize::MAX as u64 {
        Some(usize::MAX)
    } else {
        Some(max_diff as usize)
    }
}

/// The edit distance between the bytes of `s` and the bytes of `t`.
///
/// Without a threshold the result is the exact Levenshtein distance. With a
/// threshold `e` a banded alignment is performed: the result is the exact
/// distance if that is at most `e`, and otherwise some value above `e`, which
/// need not be the distance.
///
/// Each string must be shorter than `usize::MAX` bytes, so that a row of
/// costs with one entry more than the string has bytes can be indexed.
pub fn edit_distance(s: &str, t: &str, max_diff: Option<usize>) -> (d: usize)
    requires
        s.spec_bytes().len() < usize::MAX,
        t.spec_bytes().len() < usize::MAX,
    ensures
        is_edit_distance(s.spec_bytes(), t.spec_bytes(), max_diff, d),
        length_difference(s.spec_bytes().len(), t.spec_bytes().len()) <= d <= longer(
            s.spec_bytes().len(),
            t.spec_bytes().len(),
        ),
        s@ == t@ ==> d == 0,
{
    let s = s.as_bytes();
    let t = t.as_bytes();
    proof {
        lemma_levenshtein_at_least_length_difference(s@, t@);
        lemma_levenshtein_at_most_longer(s@, t@);
        lemma_levenshtein_identity(s@);
    }
    let abs_diff: usize = if s.len() >= t.len() {
        s.len() - t.len()
    } else {
        t.len() - s.len()
    };
    if let Some(e) = max_diff {
        if abs_diff > e {
            return abs_diff;
        }
    }
    let common_prefix_length: usize = match mismatch_position(s, t) {
        Some(pos) => pos,
        None => {
            proof {
                if s@.len() <= t@.len() && t@.subrange(0, s@.len() as int) == s@ {
                    lemma_levenshtein_of_prefix(s@, t@);
                } else {
                    lemma_levenshtein_of_prefix(t@, s@);
                }
            }
            return abs_diff;
        },
    };
    proof {
        lemma_levenshtein_common_prefix(s@, t@, common_prefix_length as int);
    }
    let s = slice_subrange(s, common_prefix_length, s.len());
    let t = slice_subrange(t, common_prefix_length, t.len());
    match max_diff {
        None => unbanded_distance(s, t),
        Some(e) => banded_distance(s, t, e),
    }
}

/// Identity: a string is at distance zero from itself, whatever the
/// threshold.
pub proof fn lemma_edit_distance_identity(s: Seq<u8>, max_diff: Option<usize>, d: usize)
    requires
        is_edit_distance(s, s, max_diff, d),
    ensures
        d == 0,
{
    lemma_levenshtein_identity(s);
}

/// Symmetry: exchanging the two strings does not change the result. This
/// holds wherever the result is determined; a distance above the threshold
/// between strings whose lengths differ by no more than the threshold may
/// come out as one value above the threshold in one direction and as another
/// in the other.
pub proof fn lemma_edit_distance_symmetric(
    s: Seq<u8>,
    t: Seq<u8>,
    max_diff: Option<usize>,
    d: usize,
    d_exchanged: usize,
)
    requires
        is_edit_distance(s, t, max_diff, d),
        is_edit_distance(t, s, max_diff, d_exchanged),
        result_is_determined(s, t, max_diff),
    ensures
        d == d_exchanged,
{
    lemma_levenshtein_symmetric(s, t);
}

/// Exchanging the two strings never changes on which side of the threshold
/// the result lies, even where the two results differ.
pub proof fn lemma_edit_distance_verdict_symmetric(
    s: Seq<u8>,
    t: Seq<u8>,
    e: usize,
    d: usize,
    d_exchanged: usize,
)
    requires
        is_edit_distance(s, t, Some(e), d),
        is_edit_distance(t, s, Some(e), d_exchanged),
    ensures
        d <= e <==> d_exchanged <= e,
{
    lemma_levenshtein_symmetric(s, t);
}

/// Without a threshold the result is at least the difference of the two
/// lengths, and exactly that difference when one string is a prefix of the
/// other.
pub proof fn lemma_edit_distance_length_difference(s: Seq<u8>, t: Seq<u8>, d: usize)
    requires
        is_edit_distance(s, t, None, d),
    ensures
        d >= length_difference(s.len(), t.len()),
        s.len() <= t.len() && t.subrange(0, s.len() as int) == s ==> d == t.len() - s.len(),
        t.len() <= s.len() && s.subrange(0, t.len() as int) == t ==> d == s.len() - t.len(),
{
    lemma_levenshtein_at_least_length_difference(s, t);
    if s.len() <= t.len() && t.subrange(0, s.len() as int) == s {
        lemma_levenshtein_of_prefix(s, t);
    }
    if t.len() <= s.len() && s.subrange(0, t.len() as int) == t {
        lemma_levenshtein_of_prefix(t, s);
    }
}

/// Banding is sound: the result is at most the threshold exactly when the
/// distance is, and it is then the distance.
pub proof fn lemma_banding_sound(s: Seq<u8>, t: Seq<u8>, e: usize, d: usize)
    requires
        is_edit_distance(s, t, Some(e), d),
    ensures
        levenshtein(s, t) <= e ==> d == levenshtein(s, t),
        levenshtein(s, t) > e ==> d > e,
{
}

/// A threshold that is large enough changes nothing: once it is at least the
/// distance, and so whenever it is at least the length of the longer string,
/// the result with the threshold is the result without it.
pub proof fn lemma_large_threshold_is_no_threshold(
    s: Seq<u8>,
    t: Seq<u8>,
    e: usize,
    d_banded: usize,
    d_exact: usize,
)
    requires
        is_edit_distance(s, t, Some(e), d_banded),
        is_edit_distance(s, t, None, d_exact),
        e >= levenshtein(s, t) || e >= longer(s.len(), t.len()),
    ensures
        d_banded == d_exact,
{
    lemma_levenshtein_at_most_longer(s, t);
}

} // verus!
