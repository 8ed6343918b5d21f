//! The mathematical definition of the Levenshtein distance between two
//! sequences, and the facts about it that the executable code relies on.

use vstd::prelude::*;

verus! {

/// The smallest of three numbers.
pub open spec fn min3(a: nat, b: nat, c: nat) -> nat {
    if a <= b {
        if a <= c {
            a
        } else {
            c
        }
    } else {
        if b <= c {
            b
        } else {
            c
        }
    }
}

/// What it costs to put `b` where `a` stands: nothing when they are equal,
/// one substitution otherwise.
pub open spec fn substitution_cost<T>(a: T, b: T) -> nat {
    if a == b {
        0
    } else {
        1
    }
}

/// The Levenshtein distance between `s` and `t`: the least number of
/// single-element insertions, deletions and substitutions that turn `s`
/// into `t`.
///
/// Turning the empty sequence into `t` takes `t.len()` insertions, and turning
/// `s` into the empty sequence takes `s.len()` deletions. Otherwise the last
/// elements are either aligned with each other (at the cost of a substitution
/// when they differ), or the last element of `s` is deleted, or the last
/// element of `t` is inserted. That the cheapest of these is the length of
/// the shortest sequence of edits is proved in [`crate::script`].
pub open spec fn levenshtein<T>(s: Seq<T>, t: Seq<T>) -> nat
    decreases s.len() + t.len(),
{
    if s.len() == 0 {
        t.len()
    } else if t.len() == 0 {
        s.len()
    } else {
        min3(
            levenshtein(s.drop_last(), t.drop_last()) + substitution_cost(s.last(), t.last()),
            levenshtein(s.drop_last(), t) + 1,
            levenshtein(s, t.drop_last()) + 1,
        )
    }
}

/// The distance between the first `i` elements of `s` and the first `j`
/// elements of `t`.
pub open spec fn prefix_distance<T>(s: Seq<T>, t: Seq<T>, i: int, j: int) -> nat
    recommends
        0 <= i <= s.len(),
        0 <= j <= t.len(),
{
    levenshtein(s.subrange(0, i), t.subrange(0, j))
}

/// The absolute difference of two lengths.
pub open spec fn length_difference(a: nat, b: nat) -> nat {
    if a >= b {
        (a - b) as nat
    } else {
        (b - a) as nat
    }
}

/// The larger of two lengths.
pub open spec fn longer(a: nat, b: nat) -> nat {
    if a >= b {
        a
    } else {
        b
    }
}

/// The distance is never less than the difference of the two lengths.
pub proof fn lemma_levenshtein_at_least_length_difference<T>(s: Seq<T>, t: Seq<T>)
    ensures
        levenshtein(s, t) >= length_difference(s.len(), t.len()),
    decreases s.len() + t.len(),
{
    if s.len() > 0 && t.len() > 0 {
        lemma_levenshtein_at_least_length_difference(s.drop_last(), t.drop_last());
        lemma_levenshtein_at_least_length_difference(s.drop_last(), t);
        lemma_levenshtein_at_least_length_difference(s, t.drop_last());
    }
}

/// The distance is never more than the length of the longer sequence.
pub proof fn lemma_levenshtein_at_most_longer<T>(s: Seq<T>, t: Seq<T>)
    ensures
        levenshtein(s, t) <= longer(s.len(), t.len()),
    decreases s.len() + t.len(),
{
    if s.len() > 0 && t.len() > 0 {
        lemma_levenshtein_at_most_longer(s.drop_last(), t.drop_last());
    }
}

/// The distance does not depend on the direction: turning `s` into `t` costs
/// as much as turning `t` into `s`.
pub proof fn lemma_levenshtein_symmetric<T>(s: Seq<T>, t: Seq<T>)
    ensures
        levenshtein(s, t) == levenshtein(t, s),
    decreases s.len() + t.len(),
{
    if s.len() > 0 && t.len() > 0 {
        lemma_levenshtein_symmetric(s.drop_last(), t.drop_last());
        lemma_levenshtein_symmetric(s.drop_last(), t);
        lemma_levenshtein_symmetric(s, t.drop_last());
    }
}

/// How the distance between two prefixes follows from the distances between
/// shorter prefixes: the recurrence that a row-by-row computation evaluates.
pub proof fn lemma_prefix_distance_step<T>(s: Seq<T>, t: Seq<T>, i: int, j: int)
    requires
        0 <= i <= s.len(),
        0 <= j <= t.len(),
    ensures
        i == 0 ==> prefix_distance(s, t, i, j) == j,
        j == 0 ==> prefix_distance(s, t, i, j) == i,
        i > 0 && j > 0 ==> prefix_distance(s, t, i, j) == min3(
            prefix_distance(s, t, i - 1, j - 1) + substitution_cost(s[i - 1], t[j - 1]),
            prefix_distance(s, t, i - 1, j) + 1,
            prefix_distance(s, t, i, j - 1) + 1,
        ),
{
    if i > 0 && j > 0 {
        let a = s.subrange(0, i);
        let b = t.subrange(0, j);
        assert(a.drop_last() =~= s.subrange(0, i - 1));
        assert(b.drop_last() =~= t.subrange(0, j - 1));
    }
}

/// The distance between two whole sequences is the distance between their
/// full-length prefixes.
pub proof fn lemma_prefix_distance_full<T>(s: Seq<T>, t: Seq<T>)
    ensures
        prefix_distance(s, t, s.len() as int, t.len() as int) == levenshtein(s, t),
{
    assert(s.subrange(0, s.len() as int) =~= s);
    assert(t.subrange(0, t.len() as int) =~= t);
}

/// Bounds on the distance between two prefixes: at least the difference of
/// their lengths, at most the longer length.
pub proof fn lemma_prefix_distance_bounds<T>(s: Seq<T>, t: Seq<T>, i: int, j: int)
    requires
        0 <= i <= s.len(),
        0 <= j <= t.len(),
    ensures
        prefix_distance(s, t, i, j) >= length_difference(i as nat, j as nat),
        prefix_distance(s, t, i, j) <= longer(i as nat, j as nat),
{
    lemma_levenshtein_at_least_length_difference(s.subrange(0, i), t.subrange(0, j));
    lemma_levenshtein_at_most_longer(s.subrange(0, i), t.subrange(0, j));
}

/// An optimal alignment passes through every row: for each `j` up to `n`
/// some prefix of `s` is no farther from the first `j` elements of `t` than
/// the first `m` elements of `s` are from the first `n` elements of `t`.
pub proof fn lemma_cheaper_cell_in_each_row<T>(s: Seq<T>, t: Seq<T>, m: int, n: int, j: int) -> (i:
    int)
    requires
        0 <= m <= s.len(),
        0 <= j <= n <= t.len(),
    ensures
        0 <= i <= m,
        prefix_distance(s, t, i, j) <= prefix_distance(s, t, m, n),
    decreases m + n,
{
    lemma_prefix_distance_step(s, t, m, n);
    if j == n {
        m
    } else if m == 0 {
        lemma_prefix_distance_step(s, t, 0, j);
        0
    } else {
        let d = prefix_distance(s, t, m, n);
        if d == prefix_distance(s, t, m - 1, n - 1) + substitution_cost(s[m - 1], t[n - 1]) {
            lemma_cheaper_cell_in_each_row(s, t, m - 1, n - 1, j)
        } else if d == prefix_distance(s, t, m - 1, n) + 1 {
            lemma_cheaper_cell_in_each_row(s, t, m - 1, n, j)
        } else {
            lemma_cheaper_cell_in_each_row(s, t, m, n - 1, j)
        }
    }
}

/// An element put in front of both sequences does not change the distance.
pub proof fn lemma_levenshtein_common_head<T>(c: T, s: Seq<T>, t: Seq<T>)
    ensures
        levenshtein(seq![c] + s, seq![c] + t) == levenshtein(s, t),
    decreases s.len() + t.len(),
{
    let cs = seq![c] + s;
    let ct = seq![c] + t;
    let nil = Seq::<T>::empty();
    if s.len() == 0 && t.len() == 0 {
        assert(cs.drop_last() =~= nil);
        assert(ct.drop_last() =~= nil);
        assert(levenshtein(nil, nil) == 0);
        assert(levenshtein(nil, ct) == 1);
        assert(levenshtein(cs, nil) == 1);
    } else if s.len() == 0 {
        assert(s =~= nil);
        assert(cs.drop_last() =~= nil);
        assert(ct.drop_last() =~= seq![c] + t.drop_last());
        assert(ct.last() == t.last());
        assert(levenshtein(nil, ct.drop_last()) == t.len());
        assert(levenshtein(nil, ct) == t.len() + 1);
        assert(levenshtein(nil, t.drop_last()) == t.len() - 1);
        lemma_levenshtein_common_head(c, s, t.drop_last());
    } else if t.len() == 0 {
        assert(t =~= nil);
        assert(ct.drop_last() =~= nil);
        assert(cs.drop_last() =~= seq![c] + s.drop_last());
        assert(cs.last() == s.last());
        assert(levenshtein(cs.drop_last(), nil) == s.len());
        assert(levenshtein(cs, nil) == s.len() + 1);
        assert(levenshtein(s.drop_last(), nil) == s.len() - 1);
        lemma_levenshtein_common_head(c, s.drop_last(), t);
    } else {
        assert(cs.drop_last() =~= seq![c] + s.drop_last());
        assert(ct.drop_last() =~= seq![c] + t.drop_last());
        assert(cs.last() == s.last());
        assert(ct.last() == t.last());
        lemma_levenshtein_common_head(c, s.drop_last(), t.drop_last());
        lemma_levenshtein_common_head(c, s.drop_last(), t);
        lemma_levenshtein_common_head(c, s, t.drop_last());
    }
}

/// A common prefix can be removed from both sequences without changing the
/// distance.
pub proof fn lemma_levenshtein_common_prefix<T>(s: Seq<T>, t: Seq<T>, p: int)
    requires
        0 <= p <= s.len(),
        p <= t.len(),
        s.subrange(0, p) == t.subrange(0, p),
    ensures
        levenshtein(s, t) == levenshtein(s.subrange(p, s.len() as int), t.subrange(p, t.len() as int)),
    decreases p,
{
    if p == 0 {
        assert(s.subrange(0, s.len() as int) =~= s);
        assert(t.subrange(0, t.len() as int) =~= t);
    } else {
        let s1 = s.subrange(1, s.len() as int);
        let t1 = t.subrange(1, t.len() as int);
        assert(s[0] == s.subrange(0, p)[0]);
        assert(t[0] == t.subrange(0, p)[0]);
        assert(s =~= seq![s[0]] + s1);
        assert(t =~= seq![s[0]] + t1);
        lemma_levenshtein_common_head(s[0], s1, t1);
        let sp = s.subrange(0, p);
        let tp = t.subrange(0, p);
        assert forall|k: int| 0 <= k < p - 1 implies #[trigger] s1[k] == t1[k] by {
            assert(sp[k + 1] == tp[k + 1]);
        }
        assert(s1.subrange(0, p - 1) =~= t1.subrange(0, p - 1));
        lemma_levenshtein_common_prefix(s1, t1, p - 1);
        assert(s1.subrange(p - 1, s1.len() as int) =~= s.subrange(p, s.len() as int));
        assert(t1.subrange(p - 1, t1.len() as int) =~= t.subrange(p, t.len() as int));
    }
}

/// A sequence is at distance zero from itself.
pub proof fn lemma_levenshtein_identity<T>(s: Seq<T>)
    ensures
        levenshtein(s, s) == 0,
{
    lemma_levenshtein_common_prefix(s, s, s.len() as int);
}

/// When one sequence is a prefix of the other, the distance is exactly the
/// difference of their lengths.
pub proof fn lemma_levenshtein_of_prefix<T>(s: Seq<T>, t: Seq<T>)
    requires
        s.len() <= t.len(),
        t.subrange(0, s.len() as int) == s,
    ensures
        levenshtein(s, t) == t.len() - s.len(),
        levenshtein(t, s) == t.len() - s.len(),
{
    assert(s.subrange(0, s.len() as int) =~= s);
    lemma_levenshtein_common_prefix(s, t, s.len() as int);
    lemma_levenshtein_symmetric(s, t);
}

} // verus!
