use tyla::fuzzy::{Levenshtein, Score};

fn chars(s: &str) -> Vec<char> {
    s.chars().collect()
}

fn distance(a: &str, b: &str) -> usize {
    let (a, b) = (chars(a), chars(b));
    Levenshtein::new(&a, &b).calculate()
}

#[test]
fn basic() {
    assert_eq!(Levenshtein::new(&chars("a"), &chars("")).calculate(), 1);
    assert_eq!(Levenshtein::new(&chars(""), &chars("b")).calculate(), 1);
    assert_eq!(Levenshtein::new(&chars("a"), &chars("b")).calculate(), 1);
    assert_eq!(Levenshtein::new(&chars("a"), &chars("a")).calculate(), 0);
    assert_eq!(Levenshtein::new(&chars("hello"), &chars("hey")).calculate(), 3);
    assert_eq!(Levenshtein::new(&chars("hhello"), &chars("hello")).calculate(), 1);
    assert_eq!(Levenshtein::new(&chars("hhello"), &chars("heello")).calculate(), 1);
    // n->r, r->d,
    assert_eq!(Levenshtein::new(&chars("firefox"), &chars("find fox")).calculate(), 3);
    // n->r, r->d,
    assert_eq!(Levenshtein::new(&chars("firefox-idk"), &chars("firefox_idk")).calculate(), 3);
}

#[test]
fn separators_are_plain_characters_but_dash_and_underscore() {
    assert_eq!(distance("a b", "a-b"), 1);
    assert_eq!(distance("a\tb", "a b"), 1);
    assert_eq!(distance("a\tb", "a-b"), 1);
    assert_eq!(distance("a_b", "a-b"), 3);
    assert_eq!(distance("-", "_"), 3);
    assert_eq!(distance("_-", "-_"), 6);
    assert_eq!(distance("a-b", "a-b"), 0);
}

#[test]
fn distance_is_symmetric_on_examples() {
    for (a, b) in [("hello", "hey"), ("firefox", "find fox"), ("", "abc"), ("a-b", "a b c")] {
        assert_eq!(distance(a, b), distance(b, a));
    }
}

#[test]
fn distance_lies_between_length_difference_and_longer_length() {
    for (a, b) in [("kitten", "sitting"), ("", "abc"), ("abc", "xyz"), ("flaw", "lawn")] {
        let (la, lb) = (a.chars().count(), b.chars().count());
        let d = distance(a, b);
        assert!(la.abs_diff(lb) <= d && d <= la.max(lb));
    }
    for (a, b) in [("-", "_"), ("a-b-", "_"), ("_x", "-")] {
        let (la, lb) = (a.chars().count(), b.chars().count());
        let d = distance(a, b);
        assert!(la.abs_diff(lb) <= d && d <= 3 * la.max(lb));
    }
    assert_eq!(distance("a-b-", "_"), 4);
    assert_eq!(distance("_x", "-"), 4);
    assert_eq!(distance("kitten", "sitting"), 3);
    assert_eq!(distance("abc", "xyz"), 3);
}

#[test]
fn process_actions_gives_suffix_distances() {
    let (a, b) = (chars("xhello"), chars("yhey"));
    let mut lev = Levenshtein::new(&a, &b);
    assert_eq!(lev.process_actions(1, 1), 3);
    assert_eq!(lev.process_actions(6, 1), 3);
    assert_eq!(lev.process_actions(0, 0), 4);
    assert_eq!(lev.calculate(), 4);
}

#[test]
fn helpers_match_pairs_and_index_cells() {
    assert!(Levenshtein::matches('-', '_', '-', '_'));
    assert!(Levenshtein::matches('_', '-', '-', '_'));
    assert!(!Levenshtein::matches('-', '-', '-', '_'));
    assert!(Levenshtein::similar('x', 'x'));
    assert!(Levenshtein::similar('\t', ' '));
    assert!(!Levenshtein::similar('a', 'A'));
    let (a, b) = (chars("abc"), chars("de"));
    let lev = Levenshtein::new(&a, &b);
    assert_eq!(lev.at(2, 1), 5);
}

#[test]
fn search_scores_every_candidate() {
    let scores = tyla::fuzzy::search("fire", &["firefox", "", "fire"]);
    assert_eq!(scores, vec![
        Score { distance: 3, longest: 7 },
        Score { distance: 4, longest: 4 },
        Score { distance: 0, longest: 4 },
    ]);
    let empty = tyla::fuzzy::search("", &[""]);
    assert_eq!(empty, vec![Score { distance: 0, longest: 0 }]);
}

#[test]
fn scores_compare_as_fractions() {
    let half = Score { distance: 1, longest: 2 };
    let two_quarters = Score { distance: 2, longest: 4 };
    let third = Score { distance: 1, longest: 3 };
    let zero = Score { distance: 0, longest: 0 };
    assert!(!half.is_less_than(&two_quarters) && !two_quarters.is_less_than(&half));
    assert!(third.is_less_than(&half));
    assert!(zero.is_less_than(&third));
    assert!(!zero.is_less_than(&Score { distance: 0, longest: 5 }));
}
