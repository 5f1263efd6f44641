use fuzzy_search::{fuzzy_match, fuzzy_search, insert_ranked, FuzzySearchResult, Score};

fn number(score: Score) -> f32 {
    ((score.pattern_len as f32 / score.candidate_len as f32) * 100.)
        - (score.index as f32 / score.candidate_len as f32)
}

#[test]
fn test_fuzzy_search() {
    let domain = ["ABC", "QZR", "APW"];
    let results = fuzzy_search("A", &domain);
    assert_eq!(results.len(), 2);
    assert_eq!(results[0].pattern, "ABC");
    assert_eq!(results[1].pattern, "APW");
}

#[test]
fn candidates_without_a_score_are_left_out() {
    let domain = ["ABC", "QZR", "APW"];
    let results = fuzzy_search("A", &domain);
    assert!(results.iter().all(|r| r.pattern != "QZR"));
}

#[test]
fn no_candidate_matches() {
    let domain = ["abc", "def"];
    assert!(fuzzy_search("Z", &domain).is_empty());
    let nothing: [&str; 0] = [];
    assert!(fuzzy_search("Z", &nothing).is_empty());
}

#[test]
fn results_come_in_descending_order() {
    let domain = ["xxabxx", "ab", "zzz", "abc", "xab", "AB", "", "cab"];
    let results = fuzzy_search("ab", &domain);
    let texts: Vec<&str> = results.iter().map(|r| r.pattern.as_str()).collect();
    assert_eq!(texts, vec!["ab", "AB", "abc", "xab", "cab", "xxabxx"]);
    for pair in results.windows(2) {
        assert!(pair[0].score.ge(&pair[1].score));
        assert!(number(pair[0].score) >= number(pair[1].score));
    }
    assert_eq!(number(results[0].score), 100.0);
    let xab = results[3].score;
    assert_eq!((xab.pattern_len, xab.candidate_len, xab.index), (2, 3, 1));
    let inner = results[5].score;
    assert_eq!((inner.pattern_len, inner.candidate_len, inner.index), (2, 6, 2));
}

#[test]
fn one_result_for_each_accepted_candidate() {
    let domain = ["ab", "ba", "ab", "b", "aab", "ab"];
    let results = fuzzy_search("ab", &domain);
    let accepted = domain.iter().filter(|c| fuzzy_match("ab", c).is_some()).count();
    assert_eq!(results.len(), accepted);
    assert_eq!(results.len(), 4);
    assert_eq!(results.iter().filter(|r| r.pattern == "ab").count(), 3);
    assert_eq!(results[3].pattern, "aab");
}

#[test]
fn results_keep_the_text_of_the_candidate() {
    let domain = ["Hello World", "hello", "HELLO there"];
    let results = fuzzy_search("hello", &domain);
    assert_eq!(results.len(), 3);
    assert_eq!(results[0].pattern, "hello");
    assert_eq!(results[1].pattern, "Hello World");
    assert_eq!(results[2].pattern, "HELLO there");
    for r in &results {
        let again = fuzzy_match("hello", &r.pattern).unwrap();
        assert_eq!(
            (again.pattern_len, again.candidate_len, again.index),
            (r.score.pattern_len, r.score.candidate_len, r.score.index)
        );
    }
}

#[test]
fn searching_twice_gives_the_same_list() {
    let domain = ["xxabxx", "ab", "zzz", "abc", "xab", "AB", "cab"];
    let first = fuzzy_search("ab", &domain);
    let second = fuzzy_search("ab", &domain);
    assert_eq!(first.len(), second.len());
    for (a, b) in first.iter().zip(second.iter()) {
        assert_eq!(number(a.score), number(b.score));
        assert_eq!(a.pattern, b.pattern);
        assert!(domain.contains(&a.pattern.as_str()));
    }
}

#[test]
fn insert_goes_behind_entries_of_equal_worth() {
    let mut list: Vec<FuzzySearchResult> = Vec::new();
    let half = Score { pattern_len: 1, candidate_len: 2, index: 0 };
    let also_half = Score { pattern_len: 2, candidate_len: 4, index: 0 };
    let full = Score { pattern_len: 2, candidate_len: 2, index: 0 };
    let low = Score { pattern_len: 1, candidate_len: 9, index: 3 };
    insert_ranked(&mut list, FuzzySearchResult { score: half, pattern: "first".to_string() });
    insert_ranked(&mut list, FuzzySearchResult { score: low, pattern: "low".to_string() });
    insert_ranked(&mut list, FuzzySearchResult { score: also_half, pattern: "second".to_string() });
    insert_ranked(&mut list, FuzzySearchResult { score: full, pattern: "full".to_string() });
    let texts: Vec<&str> = list.iter().map(|r| r.pattern.as_str()).collect();
    assert_eq!(texts, vec!["full", "first", "second", "low"]);
}
