use tinyalign::{edit_distance, normalize_max_diff};

#[test]
fn kitten_sitting_is_three() {
    assert_eq!(edit_distance("kitten", "sitting", None), 3);
}

#[test]
fn empty_against_abc_is_three() {
    assert_eq!(edit_distance("", "abc", None), 3);
    assert_eq!(edit_distance("abc", "", None), 3);
}

#[test]
fn both_empty_is_zero() {
    assert_eq!(edit_distance("", "", None), 0);
    assert_eq!(edit_distance("", "", Some(0)), 0);
}

#[test]
fn equal_strings_under_threshold_zero() {
    assert_eq!(edit_distance("abc", "abc", Some(0)), 0);
}

#[test]
fn one_substitution_exceeds_threshold_zero() {
    assert!(edit_distance("abc", "abd", Some(0)) > 0);
}

#[test]
fn prefix_costs_the_length_difference() {
    assert_eq!(edit_distance("abc", "abcdef", None), 3);
    assert_eq!(edit_distance("abcdef", "abc", None), 3);
    assert_eq!(edit_distance("abc", "abcdef", Some(3)), 3);
}

#[test]
fn length_difference_above_threshold_is_returned_at_once() {
    assert_eq!(edit_distance("abc", "abcdef", Some(2)), 3);
    assert_eq!(edit_distance("abcdef", "abc", Some(1)), 3);
    assert_eq!(edit_distance("", "abcdefgh", Some(0)), 8);
}

#[test]
fn identity_for_every_threshold() {
    let words = ["", "a", "abc", "kitten", "GATTACA", "h\u{e9}llo"];
    for w in words {
        assert_eq!(edit_distance(w, w, None), 0);
        for e in 0..4 {
            assert_eq!(edit_distance(w, w, Some(e)), 0);
        }
    }
}

#[test]
fn symmetric_without_threshold() {
    let words = ["", "a", "ab", "ba", "abc", "kitten", "sitting", "flaw", "lawn", "saturday", "sunday"];
    for s in words {
        for t in words {
            assert_eq!(edit_distance(s, t, None), edit_distance(t, s, None));
        }
    }
}

#[test]
fn symmetric_within_threshold() {
    let words = ["", "a", "ab", "ba", "abc", "kitten", "sitting", "flaw", "lawn", "saturday", "sunday"];
    for s in words {
        for t in words {
            let exact = edit_distance(s, t, None);
            for e in 0..10 {
                let d = edit_distance(s, t, Some(e));
                let r = edit_distance(t, s, Some(e));
                if exact <= e {
                    assert_eq!(d, r);
                } else {
                    assert!(d > e);
                    assert!(r > e);
                }
            }
        }
    }
}

#[test]
fn at_least_the_length_difference() {
    let words = ["", "a", "ab", "abc", "xyzxyz", "kitten", "sitting", "intention"];
    for s in words {
        for t in words {
            let diff = s.len().abs_diff(t.len());
            assert!(edit_distance(s, t, None) >= diff);
            for e in 0..6 {
                assert!(edit_distance(s, t, Some(e)) >= diff);
            }
        }
    }
}

#[test]
fn banding_is_sound() {
    let words = [
        "", "a", "b", "ab", "ba", "aa", "bbbb", "abab", "baba", "aabb", "kitten", "sitting",
        "intention", "execution", "GATTACA", "GCATGCU",
    ];
    for s in words {
        for t in words {
            let exact = edit_distance(s, t, None);
            for e in 0..12 {
                let d = edit_distance(s, t, Some(e));
                if exact <= e {
                    assert_eq!(d, exact);
                } else {
                    assert!(d > e);
                }
            }
        }
    }
}

#[test]
fn large_threshold_equals_no_threshold() {
    let pairs = [
        ("kitten", "sitting"),
        ("intention", "execution"),
        ("abcdefghij", "bcdefghijk"),
        ("", "abc"),
        ("flaw", "lawn"),
    ];
    for (s, t) in pairs {
        let exact = edit_distance(s, t, None);
        assert_eq!(edit_distance(s, t, Some(exact)), exact);
        assert_eq!(edit_distance(s, t, Some(s.len().max(t.len()))), exact);
        assert_eq!(edit_distance(s, t, Some(100)), exact);
        assert_eq!(edit_distance(s, t, Some(usize::MAX)), exact);
    }
}

#[test]
fn exact_distances() {
    assert_eq!(edit_distance("flaw", "lawn", None), 2);
    assert_eq!(edit_distance("saturday", "sunday", None), 3);
    assert_eq!(edit_distance("intention", "execution", None), 5);
    assert_eq!(edit_distance("GATTACA", "GCATGCU", None), 4);
    assert_eq!(edit_distance("ab", "ba", None), 2);
    assert_eq!(edit_distance("abcdefghij", "bcdefghijk", None), 2);
}

#[test]
fn exact_distances_within_threshold() {
    assert_eq!(edit_distance("kitten", "sitting", Some(3)), 3);
    assert_eq!(edit_distance("flaw", "lawn", Some(2)), 2);
    assert_eq!(edit_distance("saturday", "sunday", Some(3)), 3);
    assert_eq!(edit_distance("intention", "execution", Some(5)), 5);
    assert_eq!(edit_distance("GATTACA", "GCATGCU", Some(4)), 4);
    assert_eq!(edit_distance("abcdefgh", "abcxefgh", Some(1)), 1);
    assert_eq!(edit_distance("abcdefghij", "bcdefghijk", Some(2)), 2);
    assert_eq!(edit_distance("abcd", "badc", Some(3)), 3);
}

#[test]
fn distances_above_threshold_exceed_it() {
    assert!(edit_distance("kitten", "sitting", Some(2)) > 2);
    assert!(edit_distance("kitten", "sitting", Some(0)) > 0);
    assert!(edit_distance("flaw", "lawn", Some(1)) > 1);
    assert!(edit_distance("intention", "execution", Some(4)) > 4);
    assert!(edit_distance("GATTACA", "GCATGCU", Some(3)) > 3);
    assert!(edit_distance("xabcdefg", "yabcdefg", Some(0)) > 0);
    assert!(edit_distance("abcdefghij", "bcdefghijk", Some(1)) > 1);
    assert!(edit_distance("aa", "bbbb", Some(2)) > 2);
    assert!(edit_distance("bbbb", "aa", Some(2)) > 2);
}

#[test]
fn bytes_are_compared_not_characters() {
    assert_eq!(edit_distance("\u{e9}", "e", None), 2);
    assert_eq!(edit_distance("h\u{e9}llo", "hello", None), 2);
    assert_eq!(edit_distance("\u{e9}", "\u{e8}", None), 1);
}

#[test]
fn common_prefix_is_skipped() {
    assert_eq!(edit_distance("prefix-kitten", "prefix-sitting", None), 3);
    assert_eq!(edit_distance("prefix-kitten", "prefix-sitting", Some(3)), 3);
    assert!(edit_distance("prefix-kitten", "prefix-sitting", Some(2)) > 2);
}

#[test]
fn negative_threshold_means_none() {
    assert_eq!(normalize_max_diff(-1), None);
    assert_eq!(normalize_max_diff(-7), None);
    assert_eq!(normalize_max_diff(i64::MIN), None);
}

#[test]
fn non_negative_threshold_is_kept() {
    assert_eq!(normalize_max_diff(0), Some(0));
    assert_eq!(normalize_max_diff(3), Some(3));
    assert_eq!(normalize_max_diff(1_000_000), Some(1_000_000));
}

#[test]
fn normalized_threshold_feeds_edit_distance() {
    assert_eq!(edit_distance("kitten", "sitting", normalize_max_diff(-1)), 3);
    assert_eq!(edit_distance("kitten", "sitting", normalize_max_diff(3)), 3);
    assert!(edit_distance("kitten", "sitting", normalize_max_diff(2)) > 2);
}
