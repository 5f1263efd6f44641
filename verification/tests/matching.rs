use fuzzy_search::substring::matches_at;
use fuzzy_search::{find_first, fuzzy_match, score_bytes, Score};

/// The score as a floating-point number.
fn value(score: Score) -> f32 {
    ((score.pattern_len as f32 / score.candidate_len as f32) * 100.)
        - (score.index as f32 / score.candidate_len as f32)
}

fn scored(pattern: &str, s: &str) -> Option<f32> {
    fuzzy_match(pattern, s).map(value)
}

#[test]
fn test_fuzzy_match() {
    assert_eq!(scored("ABC", "CB"), None);
    assert_eq!(scored("ABC", "ABC"), Some(100.0));
    assert!(scored("A", "ABC").is_some());
    assert!(scored("A", "ABC").unwrap() < scored("AB", "ABC").unwrap());
    assert!(scored("AB", "ABC").unwrap() < scored("ABC", "ABC").unwrap());
}

#[test]
fn no_occurrence_gives_no_score() {
    assert!(fuzzy_match("ABC", "CB").is_none());
    assert!(fuzzy_match("xyz", "abcdef").is_none());
    assert!(fuzzy_match("ac", "abc").is_none());
    assert!(fuzzy_match("abcd", "abc").is_none());
}

#[test]
fn equal_texts_score_one_hundred() {
    let score = fuzzy_match("ABC", "ABC").unwrap();
    assert!(score.is_perfect());
    assert_eq!((score.pattern_len, score.candidate_len, score.index), (3, 3, 0));
    assert_eq!(value(score), 100.0);
}

#[test]
fn case_is_folded_on_both_sides() {
    assert_eq!(scored("abc", "ABC"), Some(100.0));
    assert_eq!(scored("ABC", "abc"), Some(100.0));
    assert_eq!(scored("aBc", "AbC"), Some(100.0));
}

#[test]
fn offset_lowers_the_score() {
    let score = fuzzy_match("abc", "XABC").unwrap();
    assert_eq!((score.pattern_len, score.candidate_len, score.index), (3, 4, 1));
    assert!(!score.is_perfect());
    let v = value(score);
    assert_eq!(v, 74.75);
    assert!(v > 0.0 && v < 100.0);
}

#[test]
fn prefixes_of_a_candidate_score_in_ascending_order() {
    let a = fuzzy_match("A", "ABC").unwrap();
    let ab = fuzzy_match("AB", "ABC").unwrap();
    let abc = fuzzy_match("ABC", "ABC").unwrap();
    assert!(value(a) > 0.0);
    assert!(value(a) < value(ab));
    assert!(value(ab) < value(abc));
    assert_eq!(value(abc), 100.0);
    assert!(ab.ge(&a) && !a.ge(&ab));
    assert!(abc.ge(&ab) && !ab.ge(&abc));
    let candidate = "HELLO WORLD";
    let mut last: Option<Score> = None;
    for k in 1..=candidate.len() {
        let score = fuzzy_match(&candidate[..k], candidate).unwrap();
        assert_eq!((score.pattern_len, score.candidate_len, score.index), (k, 11, 0));
        if let Some(previous) = last {
            assert!(score.ge(&previous));
            assert!(value(score) >= value(previous));
        }
        last = Some(score);
    }
    assert!(last.unwrap().is_perfect());
}

#[test]
fn scores_lie_above_zero_and_at_most_one_hundred() {
    let pairs = [
        ("a", "abc"),
        ("c", "abc"),
        ("bc", "abc"),
        ("abc", "abc"),
        ("o w", "hello world"),
        ("d", "hello world"),
    ];
    for (pattern, candidate) in pairs {
        let score = fuzzy_match(pattern, candidate).unwrap();
        let v = value(score);
        assert!(v > 0.0 && v <= 100.0);
        assert!(score.index + score.pattern_len <= score.candidate_len);
        assert!(score.index < 100 * score.pattern_len);
    }
}

#[test]
fn empty_candidate_has_no_score() {
    assert!(fuzzy_match("", "").is_none());
    assert!(fuzzy_match("a", "").is_none());
}

#[test]
fn empty_pattern_has_no_score() {
    assert!(fuzzy_match("", "abc").is_none());
}

#[test]
fn pattern_longer_than_candidate_has_no_score() {
    assert!(fuzzy_match("abcd", "bc").is_none());
}

#[test]
fn only_the_leftmost_occurrence_counts() {
    let score = fuzzy_match("ab", "xabxabab").unwrap();
    assert_eq!((score.pattern_len, score.candidate_len, score.index), (2, 8, 1));
    assert_eq!(value(score), 24.875);
}

#[test]
fn a_score_that_is_not_positive_is_no_match() {
    let mut far = "x".repeat(100);
    far.push('a');
    assert!(fuzzy_match("a", &far).is_none());
    let mut near = "x".repeat(99);
    near.push('a');
    let score = fuzzy_match("a", &near).unwrap();
    assert_eq!((score.pattern_len, score.candidate_len, score.index), (1, 100, 99));
}

#[test]
fn lengths_and_offsets_are_in_bytes() {
    let score = fuzzy_match("é", "xé").unwrap();
    assert_eq!((score.pattern_len, score.candidate_len, score.index), (2, 3, 1));
    let sharp = fuzzy_match("ss", "ß").unwrap();
    assert!(sharp.is_perfect());
    assert_eq!((sharp.pattern_len, sharp.candidate_len, sharp.index), (2, 2, 0));
}

#[test]
fn score_bytes_measures_the_leftmost_occurrence() {
    let score = score_bytes(b"BC", b"ABCBC").unwrap();
    assert_eq!((score.pattern_len, score.candidate_len, score.index), (2, 5, 1));
    assert!(score_bytes(b"bc", b"ABCBC").is_none());
    assert!(score_bytes(b"", b"ABC").is_none());
    assert!(score_bytes(b"", b"").is_none());
    assert!(score_bytes(b"ABC", b"ABC").unwrap().is_perfect());
}

#[test]
fn find_first_returns_the_leftmost_offset() {
    assert_eq!(find_first(b"ab", b"xxabab"), Some(2));
    assert_eq!(find_first(b"ab", b"ab"), Some(0));
    assert_eq!(find_first(b"b", b"aab"), Some(2));
    assert_eq!(find_first(b"", b"abc"), Some(0));
    assert_eq!(find_first(b"", b""), Some(0));
    assert_eq!(find_first(b"abc", b"ab"), None);
    assert_eq!(find_first(b"ba", b"aab"), None);
    assert_eq!(find_first(b"aab", b"aaab"), Some(1));
}

#[test]
fn scores_compare_as_fractions() {
    let third = Score { pattern_len: 1, candidate_len: 3, index: 0 };
    let two_sixths = Score { pattern_len: 2, candidate_len: 6, index: 0 };
    let late = Score { pattern_len: 1, candidate_len: 3, index: 2 };
    let full = Score { pattern_len: 3, candidate_len: 3, index: 0 };
    assert!(third.ge(&two_sixths) && two_sixths.ge(&third));
    assert!(third.ge(&late) && !late.ge(&third));
    assert!(full.ge(&third) && !third.ge(&full));
    assert!(full.ge(&full));
    assert!(full.is_perfect() && !third.is_perfect() && !late.is_perfect());
    let huge = Score { pattern_len: usize::MAX, candidate_len: usize::MAX, index: 0 };
    let nearly = Score { pattern_len: usize::MAX - 1, candidate_len: usize::MAX, index: 1 };
    assert!(huge.ge(&nearly) && !nearly.ge(&huge));
    assert!(huge.ge(&full) && full.ge(&huge));
}

#[test]
fn matches_at_compares_one_window() {
    assert!(matches_at(b"ab", b"xab", 1));
    assert!(!matches_at(b"ab", b"xab", 0));
    assert!(!matches_at(b"ab", b"xab", 2));
    assert!(!matches_at(b"ab", b"xab", usize::MAX));
    assert!(matches_at(b"", b"xab", 3));
    assert!(!matches_at(b"", b"xab", 4));
    assert!(!matches_at(b"xabc", b"xab", 0));
}
