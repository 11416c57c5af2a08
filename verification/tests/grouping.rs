use euclidean_distance::count::Count;

fn group(s: &str) -> Vec<(char, usize)> {
    let chars: Vec<char> = s.chars().collect();
    let mut count = Count::from(&chars);
    let mut runs = Vec::new();
    while let Some(run) = count.next() {
        runs.push(run);
    }
    assert_eq!(count.next(), None);
    runs
}

fn expand(runs: &[(char, usize)]) -> String {
    let mut s = String::new();
    for &(ch, n) in runs {
        for _ in 0..n {
            s.push(ch);
        }
    }
    s
}

#[test]
fn empty_source_has_no_runs() {
    let chars: Vec<char> = Vec::new();
    let mut count = Count::from(&chars);
    assert_eq!(count.next(), None);
    assert_eq!(count.next(), None);
}

#[test]
fn single_character_is_one_run() {
    assert_eq!(group("A"), vec![('A', 1)]);
}

#[test]
fn runs_are_maximal_blocks() {
    assert_eq!(group("aaabcc"), vec![('a', 3), ('b', 1), ('c', 2)]);
    assert_eq!(group("John"), vec![('J', 1), ('o', 1), ('h', 1), ('n', 1)]);
    assert_eq!(
        group("Johnny"),
        vec![('J', 1), ('o', 1), ('h', 1), ('n', 2), ('y', 1)]
    );
    assert_eq!(group("zzzz"), vec![('z', 4)]);
}

#[test]
fn a_character_may_have_several_runs() {
    assert_eq!(group("ABA"), vec![('A', 1), ('B', 1), ('A', 1)]);
    assert_eq!(group("aabaa"), vec![('a', 2), ('b', 1), ('a', 2)]);
}

#[test]
fn runs_are_handed_out_one_at_a_time() {
    let chars: Vec<char> = "xxyz".chars().collect();
    let mut count = Count::from(&chars);
    assert_eq!(count.next(), Some(('x', 2)));
    assert_eq!(count.next(), Some(('y', 1)));
    assert_eq!(count.next(), Some(('z', 1)));
    assert_eq!(count.next(), None);
    assert_eq!(count.next(), None);
}

#[test]
fn last_run_ends_with_the_source() {
    assert_eq!(group("abb"), vec![('a', 1), ('b', 2)]);
    assert_eq!(group("ab"), vec![('a', 1), ('b', 1)]);
}

#[test]
fn grouping_compares_characters_exactly() {
    assert_eq!(group("aA"), vec![('a', 1), ('A', 1)]);
    assert_eq!(group("\u{e9}e\u{301}"), vec![('\u{e9}', 1), ('e', 1), ('\u{301}', 1)]);
    assert_eq!(group("日日本"), vec![('日', 2), ('本', 1)]);
}

#[test]
fn expanding_the_runs_gives_the_string_back() {
    for s in ["", "A", "ABA", "aaabcc", "Johnny", "  x  ", "日日本語語語", "zzzzzzzzzz"] {
        assert_eq!(expand(&group(s)), s);
    }
}

#[test]
fn no_run_is_empty_and_neighbours_differ() {
    for s in ["A", "ABA", "aaabcc", "Johnny", "aabbaabb"] {
        let runs = group(s);
        assert!(runs.iter().all(|&(_, n)| n > 0));
        assert!(runs.windows(2).all(|w| w[0].0 != w[1].0));
    }
}

#[test]
fn grouping_twice_gives_the_same_runs() {
    for s in ["", "A", "ABA", "aaabcc", "Johnny"] {
        assert_eq!(group(s), group(s));
    }
    let chars: Vec<char> = "aabccc".chars().collect();
    let mut first = Count::from(&chars);
    assert_eq!(first.next(), Some(('a', 2)));
    let mut second = Count::from(&chars);
    assert_eq!(second.next(), Some(('a', 2)));
    assert_eq!(second.next(), Some(('b', 1)));
    assert_eq!(first.next(), Some(('b', 1)));
    assert_eq!(first.next(), Some(('c', 3)));
    assert_eq!(second.next(), Some(('c', 3)));
}

#[test]
fn a_long_run_is_counted_in_full() {
    let s = "q".repeat(70_000) + "r";
    assert_eq!(group(&s), vec![('q', 70_000), ('r', 1)]);
}
