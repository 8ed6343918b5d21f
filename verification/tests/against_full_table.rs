use tinyalign::{edit_distance, hamming_distance};

/// The distance by the full table of prefix distances.
fn full_table_distance(s: &[u8], t: &[u8]) -> usize {
    let mut table = vec![vec![0usize; t.len() + 1]; s.len() + 1];
    for i in 0..=s.len() {
        table[i][0] = i;
    }
    for j in 0..=t.len() {
        table[0][j] = j;
    }
    for i in 1..=s.len() {
        for j in 1..=t.len() {
            let substitution = table[i - 1][j - 1] + usize::from(s[i - 1] != t[j - 1]);
            let deletion = table[i - 1][j] + 1;
            let insertion = table[i][j - 1] + 1;
            table[i][j] = substitution.min(deletion).min(insertion);
        }
    }
    table[s.len()][t.len()]
}

/// A reproducible stream of words over the first `letters` letters.
struct Words {
    state: u64,
    letters: u64,
    longest: u64,
}

impl Words {
    fn step(&mut self) -> u64 {
        self.state = self.state.wrapping_mul(6364136223846793005).wrapping_add(1442695040888963407);
        self.state >> 33
    }

    fn word(&mut self) -> String {
        let length = self.step() % (self.longest + 1);
        let mut word = String::new();
        for _ in 0..length {
            let letter = (self.step() % self.letters) as u8;
            word.push(char::from(b'a' + letter));
        }
        word
    }
}

#[test]
fn unbanded_agrees_with_full_table() {
    let mut words = Words { state: 1, letters: 3, longest: 14 };
    for _ in 0..400 {
        let s = words.word();
        let t = words.word();
        assert_eq!(edit_distance(&s, &t, None), full_table_distance(s.as_bytes(), t.as_bytes()));
    }
}

#[test]
fn banded_agrees_with_full_table_within_threshold() {
    let mut words = Words { state: 7, letters: 2, longest: 12 };
    for _ in 0..300 {
        let s = words.word();
        let t = words.word();
        let exact = full_table_distance(s.as_bytes(), t.as_bytes());
        for e in 0..15 {
            let d = edit_distance(&s, &t, Some(e));
            if exact <= e {
                assert_eq!(d, exact);
            } else {
                assert!(d > e);
            }
            assert!(d >= s.len().abs_diff(t.len()));
            assert!(d <= s.len().max(t.len()));
        }
    }
}

#[test]
fn banded_with_long_common_prefix() {
    let mut words = Words { state: 99, letters: 4, longest: 10 };
    for _ in 0..200 {
        let head = words.word();
        let s = format!("{}{}", head, words.word());
        let t = format!("{}{}", head, words.word());
        let exact = full_table_distance(s.as_bytes(), t.as_bytes());
        assert_eq!(edit_distance(&s, &t, None), exact);
        for e in 0..12 {
            let d = edit_distance(&s, &t, Some(e));
            if exact <= e {
                assert_eq!(d, exact);
            } else {
                assert!(d > e);
            }
        }
    }
}

#[test]
fn length_difference_above_threshold_is_the_result() {
    let mut words = Words { state: 5, letters: 3, longest: 16 };
    for _ in 0..300 {
        let s = words.word();
        let t = words.word();
        let difference = s.len().abs_diff(t.len());
        for e in 0..difference {
            assert_eq!(edit_distance(&s, &t, Some(e)), difference);
        }
    }
}

#[test]
fn hamming_counts_differing_positions() {
    let mut words = Words { state: 3, letters: 3, longest: 20 };
    for _ in 0..300 {
        let s = words.word();
        let t = words.word();
        let result = hamming_distance(&s, &t);
        if s.len() == t.len() {
            let expected = s.bytes().zip(t.bytes()).filter(|(a, b)| a != b).count() as u64;
            assert_eq!(result, Ok(expected));
        } else {
            assert!(result.is_err());
        }
    }
}

#[test]
fn edit_distance_is_at_most_hamming_distance() {
    let mut words = Words { state: 11, letters: 2, longest: 9 };
    for _ in 0..300 {
        let s = words.word();
        let t = words.word();
        if let Ok(hamming) = hamming_distance(&s, &t) {
            assert!(edit_distance(&s, &t, None) as u64 <= hamming);
        }
    }
}

#[test]
fn edit_distance_is_at_most_hamming_distance_beyond_ascii() {
    let pairs = [
        ("\u{e9}", "ab"),
        ("\u{e9}", "\u{100}"),
        ("abc", "\u{20ac}"),
        ("\u{65e5}", "\u{6708}"),
        ("h\u{e9}llo", "h\u{e8}llo"),
    ];
    for (s, t) in pairs {
        let hamming = hamming_distance(s, t).unwrap();
        assert!(edit_distance(s, t, None) as u64 <= hamming);
    }
}
