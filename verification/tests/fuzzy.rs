//! Fuzzy matching. Scores are tenths: lower is better.

use cupel::fuzzy::{fuzzy_filter, fuzzy_score, rank_keys, split_query};

#[test]
fn subsequence_in_order_matches_out_of_order_does_not() {
    assert!(fuzzy_score("fbr", "foo/bar").is_some());
    assert!(fuzzy_score("rbf", "foo/bar").is_none());
    assert!(fuzzy_score("longerthan", "short").is_none());
}

#[test]
fn empty_query_matches_everything_at_zero() {
    assert_eq!(fuzzy_score("", "anything"), Some(0));
}

#[test]
fn exact_match_outranks_everything() {
    let exact = fuzzy_score("main.rs", "main.rs").expect("matches");
    let prefix = fuzzy_score("main.rs", "main.rs.bak").expect("matches");
    assert!(exact < prefix);
}

#[test]
fn consecutive_runs_beat_scattered_chars() {
    let consecutive = fuzzy_score("main", "src/main.rs").expect("matches");
    let scattered = fuzzy_score("main", "map_input.rs").expect("matches");
    assert!(consecutive < scattered, "{consecutive} vs {scattered}");
}

#[test]
fn word_boundary_matches_score_better() {
    // "r" right after '.' (boundary) vs buried mid-word.
    let boundary = fuzzy_score("r", ".rs").expect("matches");
    let mid_word = fuzzy_score("r", "xxr").expect("matches");
    assert!(boundary < mid_word);
}

#[test]
fn earlier_matches_win_position_ties() {
    let early = fuzzy_score("a", "abc").expect("matches");
    let late = fuzzy_score("a", "xxa").expect("matches");
    assert!(early < late);
}

#[test]
fn letter_digit_swap_fallback_matches_at_a_penalty() {
    // "2v" is not a subsequence of "v2-schema", but the swap "v2" is.
    let swapped = fuzzy_score("2v", "v2-schema").expect("swap fallback matches");
    let direct = fuzzy_score("v2", "v2-schema").expect("matches");
    assert!(direct < swapped, "swap carries a +5 penalty");
    assert_eq!(swapped - direct, 50, "which is fifty tenths");
}

#[test]
fn filter_requires_all_tokens_and_sorts_ascending() {
    let items = vec![
        "src/main.rs".to_string(),
        "docs/main.md".to_string(),
        "src/lib.rs".to_string(),
    ];
    // Both "src main" and "src/main" mean the same two tokens.
    for query in ["src main", "src/main"] {
        let matched = fuzzy_filter(query, &items, |s: &String| s.as_str());
        assert_eq!(matched, vec![&items[0]], "query: {query}");
    }
    // Empty query preserves input order.
    let all = fuzzy_filter("", &items, |s: &String| s.as_str());
    assert_eq!(all.len(), 3);
    assert_eq!(all[0], &items[0]);
}

#[test]
fn case_is_ignored() {
    assert!(fuzzy_score("READ", "readme").is_some());
    assert!(fuzzy_score("read", "README").is_some());
    assert_eq!(fuzzy_score("äö", "ÄÖ"), fuzzy_score("äö", "äö"));
}

#[test]
fn queries_split_at_spaces_and_slashes() {
    assert_eq!(split_query("src/main rs"), vec!["src", "main", "rs"]);
    assert_eq!(rank_keys("b", &vec!["a".to_string(), "b".to_string()]), vec![1]);
}
