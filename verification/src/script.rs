//! Edit scripts: sequences of single-element insertions, deletions and
//! substitutions. The Levenshtein distance is the length of the shortest
//! script that turns one sequence into the other.

use crate::levenshtein::{lemma_levenshtein_identity, levenshtein};
use vstd::prelude::*;

verus! {

/// One change to a sequence.
pub enum Edit<T> {
    /// Puts `element` in front of position `at` (at the end when `at` is the
    /// length of the sequence).
    Insert { at: int, element: T },
    /// Removes the element at position `at`.
    Delete { at: int },
    /// Replaces the element at position `at` by `element`.
    Substitute { at: int, element: T },
}

impl<T> Edit<T> {
    /// Whether the position that this edit names exists in `a`.
    pub open spec fn applies_to(self, a: Seq<T>) -> bool {
        match self {
            Edit::Insert { at, .. } => 0 <= at <= a.len(),
            Edit::Delete { at } => 0 <= at < a.len(),
            Edit::Substitute { at, .. } => 0 <= at < a.len(),
        }
    }

    /// The sequence that this edit makes of `a`.
    pub open spec fn apply(self, a: Seq<T>) -> Seq<T>
        recommends
            self.applies_to(a),
    {
        match self {
            Edit::Insert { at, element } => a.insert(at, element),
            Edit::Delete { at } => a.remove(at),
            Edit::Substitute { at, element } => a.update(at, element),
        }
    }
}

/// Whether the edits of `script`, applied one after the other, turn `s`
/// into `t`.
pub open spec fn transforms<T>(script: Seq<Edit<T>>, s: Seq<T>, t: Seq<T>) -> bool
    decreases script.len(),
{
    if script.len() == 0 {
        s == t
    } else {
        script[0].applies_to(s) && transforms(script.drop_first(), script[0].apply(s), t)
    }
}

/// Leaving out the last element of `t` changes the distance by at most one.
proof fn lemma_shorter_target<T>(s: Seq<T>, t: Seq<T>)
    requires
        t.len() > 0,
    ensures
        levenshtein(s, t) <= levenshtein(s, t.drop_last()) + 1,
{
}

/// An element inserted into `s` moves the distance to `t` by at most one.
pub proof fn lemma_insertion_moves_distance_by_one<T>(s: Seq<T>, t: Seq<T>, at: int, element: T)
    requires
        0 <= at <= s.len(),
    ensures
        levenshtein(s.insert(at, element), t) <= levenshtein(s, t) + 1,
        levenshtein(s, t) <= levenshtein(s.insert(at, element), t) + 1,
    decreases s.len() + t.len(),
{
    let u = s.insert(at, element);
    if t.len() == 0 {
    } else if at == s.len() {
        assert(u.drop_last() =~= s);
        assert(u.last() == element);
        lemma_insertion_moves_distance_by_one(s, t.drop_last(), at, element);
        lemma_shorter_target(s, t);
    } else {
        let s1 = s.drop_last();
        assert(u.drop_last() =~= s1.insert(at, element));
        assert(u.last() == s.last());
        lemma_insertion_moves_distance_by_one(s1, t.drop_last(), at, element);
        lemma_insertion_moves_distance_by_one(s1, t, at, element);
        lemma_insertion_moves_distance_by_one(s, t.drop_last(), at, element);
    }
}

/// An element replaced in `s` raises the distance to `t` by at most one.
pub proof fn lemma_substitution_moves_distance_by_one<T>(
    s: Seq<T>,
    t: Seq<T>,
    at: int,
    element: T,
)
    requires
        0 <= at < s.len(),
    ensures
        levenshtein(s.update(at, element), t) <= levenshtein(s, t) + 1,
    decreases s.len() + t.len(),
{
    let u = s.update(at, element);
    if t.len() == 0 {
    } else if at == s.len() - 1 {
        assert(u.drop_last() =~= s.drop_last());
        lemma_substitution_moves_distance_by_one(s, t.drop_last(), at, element);
    } else {
        let s1 = s.drop_last();
        assert(u.drop_last() =~= s1.update(at, element));
        assert(u.last() == s.last());
        lemma_substitution_moves_distance_by_one(s1, t.drop_last(), at, element);
        lemma_substitution_moves_distance_by_one(s1, t, at, element);
        lemma_substitution_moves_distance_by_one(s, t.drop_last(), at, element);
    }
}

/// A single edit brings a sequence at most one step closer to `t`.
pub proof fn lemma_edit_gains_at_most_one<T>(edit: Edit<T>, s: Seq<T>, t: Seq<T>)
    requires
        edit.applies_to(s),
    ensures
        levenshtein(s, t) <= levenshtein(edit.apply(s), t) + 1,
{
    match edit {
        Edit::Insert { at, element } => {
            lemma_insertion_moves_distance_by_one(s, t, at, element);
        },
        Edit::Delete { at } => {
            let u = s.remove(at);
            assert(u.insert(at, s[at]) =~= s);
            lemma_insertion_moves_distance_by_one(u, t, at, s[at]);
        },
        Edit::Substitute { at, element } => {
            let u = s.update(at, element);
            assert(u.update(at, s[at]) =~= s);
            lemma_substitution_moves_distance_by_one(u, t, at, s[at]);
        },
    }
}

/// No script that turns `s` into `t` is shorter than the distance.
pub proof fn lemma_no_script_is_shorter<T>(script: Seq<Edit<T>>, s: Seq<T>, t: Seq<T>)
    requires
        transforms(script, s, t),
    ensures
        script.len() >= levenshtein(s, t),
    decreases script.len(),
{
    if script.len() == 0 {
        lemma_levenshtein_identity(s);
    } else {
        lemma_edit_gains_at_most_one(script[0], s, t);
        lemma_no_script_is_shorter(script.drop_first(), script[0].apply(s), t);
    }
}

/// A script can be continued by one more edit.
pub proof fn lemma_script_extends<T>(script: Seq<Edit<T>>, s: Seq<T>, t: Seq<T>, edit: Edit<T>)
    requires
        transforms(script, s, t),
        edit.applies_to(t),
    ensures
        transforms(script.push(edit), s, edit.apply(t)),
    decreases script.len(),
{
    let longer = script.push(edit);
    if script.len() == 0 {
        assert(longer.drop_first() =~= Seq::<Edit<T>>::empty());
        assert(transforms(longer.drop_first(), edit.apply(s), edit.apply(t)));
    } else {
        assert(longer.drop_first() =~= script.drop_first().push(edit));
        lemma_script_extends(script.drop_first(), script[0].apply(s), t, edit);
    }
}

/// A script does the same work when one more element stands at the end of
/// the sequence: that element stays where it is.
pub proof fn lemma_script_keeps_last<T>(script: Seq<Edit<T>>, s: Seq<T>, t: Seq<T>, last: T)
    requires
        transforms(script, s, t),
    ensures
        transforms(script, s.push(last), t.push(last)),
    decreases script.len(),
{
    if script.len() > 0 {
        let edit = script[0];
        assert(edit.apply(s.push(last)) =~= edit.apply(s).push(last));
        lemma_script_keeps_last(script.drop_first(), edit.apply(s), t, last);
    }
}

/// A script that turns `s` into `t` with exactly as many edits as the
/// distance between them.
pub proof fn lemma_shortest_script<T>(s: Seq<T>, t: Seq<T>) -> (script: Seq<Edit<T>>)
    ensures
        transforms(script, s, t),
        script.len() == levenshtein(s, t),
    decreases s.len() + t.len(),
{
    if s.len() == 0 && t.len() == 0 {
        assert(s =~= t);
        Seq::empty()
    } else if t.len() == 0 || (s.len() > 0 && levenshtein(s, t) == levenshtein(s.drop_last(), t)
        + 1) {
        // Turn all but the last element of `s` into `t`, then delete the last.
        let shorter = lemma_shortest_script(s.drop_last(), t);
        lemma_script_keeps_last(shorter, s.drop_last(), t, s.last());
        assert(s.drop_last().push(s.last()) =~= s);
        let edit = Edit::Delete { at: t.len() as int };
        lemma_script_extends(shorter, s, t.push(s.last()), edit);
        assert(t.push(s.last()).remove(t.len() as int) =~= t);
        shorter.push(edit)
    } else if s.len() == 0 || levenshtein(s, t) == levenshtein(s, t.drop_last()) + 1 {
        // Turn `s` into all but the last element of `t`, then insert the last.
        let shorter = lemma_shortest_script(s, t.drop_last());
        let edit = Edit::Insert { at: t.len() - 1, element: t.last() };
        lemma_script_extends(shorter, s, t.drop_last(), edit);
        assert(t.drop_last().insert(t.len() - 1, t.last()) =~= t);
        shorter.push(edit)
    } else {
        // Align the two last elements with each other.
        let shorter = lemma_shortest_script(s.drop_last(), t.drop_last());
        lemma_script_keeps_last(shorter, s.drop_last(), t.drop_last(), s.last());
        assert(s.drop_last().push(s.last()) =~= s);
        if s.last() == t.last() {
            assert(t.drop_last().push(s.last()) =~= t);
            shorter
        } else {
            let edit = Edit::Substitute { at: t.len() - 1, element: t.last() };
            lemma_script_extends(shorter, s, t.drop_last().push(s.last()), edit);
            assert(t.drop_last().push(s.last()).update(t.len() - 1, t.last()) =~= t);
            shorter.push(edit)
        }
    }
}

/// The Levenshtein distance between `s` and `t` is the least number of
/// single-element insertions, deletions and substitutions that turn `s` into
/// `t`: some script of that length does so, and no shorter one.
pub proof fn lemma_levenshtein_is_least_number_of_edits<T>(s: Seq<T>, t: Seq<T>)
    ensures
        exists|script: Seq<Edit<T>>| #[trigger]
            transforms(script, s, t) && script.len() == levenshtein(s, t),
        forall|script: Seq<Edit<T>>| #[trigger]
            transforms(script, s, t) ==> script.len() >= levenshtein(s, t),
{
    let shortest = lemma_shortest_script(s, t);
    assert(transforms(shortest, s, t) && shortest.len() == levenshtein(s, t));
    assert forall|script: Seq<Edit<T>>| #[trigger] transforms(script, s, t) implies script.len()
        >= levenshtein(s, t) by {
        lemma_no_script_is_shorter(script, s, t);
    }
}

} // verus!
