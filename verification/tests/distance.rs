use euclidean_distance::distance::squared_distance;

fn distance(s: String, t: String) -> f64 {
    (squared_distance(s, t) as f64).sqrt()
}

fn squared(s: &str, t: &str) -> u128 {
    squared_distance(s.to_string(), t.to_string())
}

#[test]
fn returns_zero_on_identical_strings() {
    assert_eq!(0.0, distance("A".to_string(), "A".to_string()));
}

#[test]
fn returns_f64_on_nonidentical_strings() {
    assert_eq!(
        1.4142135623730951,
        distance("John".to_string(), "Johnny".to_string())
    );
}

#[test]
fn john_and_johnny_leave_two_unit_counts() {
    // J, o, h cancel; n is left at 1 - 2 = -1; y is appended with 1.
    assert_eq!(squared("John", "Johnny"), 2);
}

#[test]
fn empty_strings_are_at_distance_zero() {
    assert_eq!(squared("", ""), 0);
    assert_eq!(0.0, distance(String::new(), String::new()));
}

#[test]
fn distance_from_empty_is_the_norm_of_the_runs() {
    assert_eq!(squared("", "A"), 1);
    assert_eq!(squared("", "AA"), 4);
    assert_eq!(1.0, distance("".to_string(), "A".to_string()));
    assert_eq!(2.0, distance("".to_string(), "AA".to_string()));
    assert_eq!(squared("AA", ""), 4);
    assert_eq!(squared("", "AAB"), 5);
    assert_eq!(squared("AAABBC", ""), 9 + 4 + 1);
}

#[test]
fn strings_with_distinct_runs_are_at_distance_zero_from_themselves() {
    for s in ["A", "AA", "John", "Johnny", "aaabbbccc", "héllo", "xyz", "日本語"] {
        assert_eq!(squared(s, s), 0, "{:?}", s);
        assert_eq!(0.0, distance(s.to_string(), s.to_string()));
    }
}

#[test]
fn a_repeated_run_character_keeps_a_string_away_from_itself() {
    // The entries are A:1, B:1, A:1. Both A runs of the second string reach
    // the first entry, which ends at -1; the third entry stays at 1.
    assert_eq!(squared("ABA", "ABA"), 2);
    // J, o, h and n each have two runs: the first entry of each ends at -1,
    // the second stays at 1; y and the blank cancel.
    assert_eq!(squared("Johnny John", "Johnny John"), 8);
}

#[test]
fn only_the_first_entry_for_a_character_is_reduced() {
    // Entries A:1, B:1, A:1; the run A:1 brings the first to 0.
    assert_eq!(squared("ABA", "A"), 2);
    // Entries A:2, B:1, A:3; the run A:5 brings the first to -3.
    assert_eq!(squared("AABAAA", "AAAAA"), 9 + 1 + 9);
}

#[test]
fn runs_of_the_second_string_share_one_entry() {
    // Entry A:1; the runs A:1, B:1, A:1 leave A:-1 and B:1.
    assert_eq!(squared("A", "ABA"), 2);
    // Nothing to start with; A:1 is appended, B:1 is appended, A:1 is
    // subtracted from the appended A.
    assert_eq!(squared("", "ABA"), 1);
}

#[test]
fn symmetry_holds_for_some_pairs() {
    assert_eq!(squared("John", "Johnny"), squared("Johnny", "John"));
    assert_eq!(squared("ABA", "A"), squared("A", "ABA"));
    assert_eq!(squared("abc", "xyz"), squared("xyz", "abc"));
}

#[test]
fn blocks_are_compared_by_their_lengths_in_either_order() {
    // a: 3 - 0, b: 2 - 1, c: 1 - 4, d: 0 - 1.
    assert_eq!(squared("aaabbc", "bccccd"), 9 + 1 + 9 + 1);
    assert_eq!(squared("bccccd", "aaabbc"), 9 + 1 + 9 + 1);
    // The order of the blocks does not matter.
    assert_eq!(squared("cbbaaa", "dccccb"), 9 + 1 + 9 + 1);
}

#[test]
fn symmetry_fails_for_other_pairs() {
    // Entries A:1, B:1, A:1, then A:2 is subtracted from the first.
    assert_eq!(squared("ABA", "AA"), 1 + 1 + 1);
    // Entry A:2, then A:1 subtracted, B:1 appended, A:1 subtracted.
    assert_eq!(squared("AA", "ABA"), 1);
    assert_ne!(squared("ABA", "AA"), squared("AA", "ABA"));
}

#[test]
fn distance_is_never_negative() {
    for (s, t) in [("", ""), ("A", "B"), ("ABA", "AA"), ("John", "Johnny"), ("zzz", "z")] {
        assert!(distance(s.to_string(), t.to_string()) >= 0.0);
    }
}

#[test]
fn distance_is_zero_only_when_every_net_count_is_zero() {
    assert_eq!(squared("AAB", "AAB"), 0);
    assert_ne!(squared("AAB", "AB"), 0);
    assert_ne!(squared("AB", "ABC"), 0);
    assert_ne!(squared("ABC", "AB"), 0);
}

#[test]
fn characters_are_compared_exactly() {
    assert_eq!(squared("a", "A"), 2);
    assert_eq!(squared("e\u{301}", "\u{e9}"), 3);
    assert_eq!(squared("\u{e9}\u{e9}", "\u{e9}"), 1);
}

#[test]
fn run_lengths_count_not_occurrences() {
    // A:3 against A:1 leaves 2.
    assert_eq!(squared("AAA", "A"), 4);
    // A:2, B:1 against B:1, A:2 cancels in any order of the second string.
    assert_eq!(squared("AAB", "BAA"), 0);
    assert_eq!(squared("AAAB", "AB"), 4);
    assert_eq!(squared("AB", "AAAB"), 4);
}

#[test]
fn long_runs_are_squared_exactly() {
    let s = "x".repeat(100_000);
    assert_eq!(squared(&s, ""), 10_000_000_000);
    assert_eq!(squared("", &s), 10_000_000_000);
    assert_eq!(squared(&s, "x"), 99_999u128 * 99_999u128);
    assert_eq!(100_000.0, distance(s, String::new()));
}
