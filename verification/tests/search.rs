//! Searching in files.

use cupel::search::{
    escape_regex, resolve_to_root, GrepSearch, Search, SearchError, SearchLimit, SearchOutcome,
    SearchQuery,
};

#[test]
fn resolve_to_root_strips_one_at_prefix() {
    let root = "/project";
    // `@path` references from prompts resolve like plain paths.
    assert_eq!(resolve_to_root("@src/main.rs", root, None), "/project/src/main.rs");
    assert_eq!(resolve_to_root("@/abs/x", root, None), "/abs/x");
    // Plain paths are untouched; only ONE @ is stripped (a literal
    // `@@weird` file stays reachable as `@@weird` -> `@weird`).
    assert_eq!(resolve_to_root("src/main.rs", root, None), "/project/src/main.rs");
    assert_eq!(resolve_to_root("@@weird", root, None), "/project/@weird");
}

fn base_query(pattern: &str) -> SearchQuery {
    SearchQuery {
        pattern: pattern.to_string(),
        path: None,
        glob: None,
        ignore_case: false,
        literal: false,
        limit: SearchLimit::Matches(100),
    }
}

/// Looks through files in the order given.
fn run(query: &SearchQuery, files: &[(&str, &str)]) -> SearchOutcome {
    let mut search = match Search::start(query, "/project", true) {
        Ok(s) => s,
        Err(e) => panic!("{}", e.message()),
    };
    for (path, content) in files {
        match search.wants_more(false) {
            Ok(true) => search.visit(path, &content.as_bytes().to_vec()),
            _ => return search.finish(),
        }
    }
    search.finish()
}

fn paths(outcome: &SearchOutcome) -> Vec<&str> {
    outcome.matches.iter().map(|m| m.path.as_str()).collect()
}

#[test]
fn finds_matches_with_line_numbers() {
    let outcome = run(&base_query("hello"), &[("a.txt", "hello\nworld\nhello again\n")]);
    assert_eq!(outcome.matches.len(), 2);
    assert_eq!(outcome.matches[0].line_number, 1);
    assert_eq!(outcome.matches[1].line_number, 3);
    assert_eq!(outcome.matches[1].line, "hello again");
    assert!(!outcome.limit_reached);
}

#[test]
fn literal_mode_escapes_regex() {
    let mut query = base_query("$5.00");
    query.literal = true;
    let outcome = run(&query, &[("a.txt", "price is $5.00\nnot a match\n")]);
    assert_eq!(outcome.matches.len(), 1);
    assert_eq!(escape_regex("$5.00"), "\\$5\\.00");
}

#[test]
fn limit_stops_search() {
    let mut query = base_query("x");
    query.limit = SearchLimit::Matches(2);
    let outcome = run(&query, &[("a.txt", "x\nx\nx\nx\nx\n")]);
    assert_eq!(outcome.matches.len(), 2);
    assert!(outcome.limit_reached);
}

#[test]
fn walk_order_is_sorted_by_path() {
    let found = vec!["zeta.txt".to_string(), "beta/inner.txt".into(), "alpha.txt".into()];
    let sorted = cupel::paths::sort_paths(found);
    let files: Vec<(&str, &str)> = sorted.iter().map(|p| (p.as_str(), "hit\n")).collect();
    let outcome = run(&base_query("hit"), &files);
    assert_eq!(paths(&outcome), ["alpha.txt", "beta/inner.txt", "zeta.txt"]);
}

#[test]
fn files_limit_caps_per_file_and_stops_at_max_files() {
    let mut query = base_query("x");
    query.limit = SearchLimit::Files { max_files: 2, per_file: 2 };
    let outcome = run(
        &query,
        &[("a.txt", "x\nx\nx\nx\n"), ("b.txt", "x\n"), ("c.txt", "x\n")],
    );
    // a.txt is capped at 2 of its 4 lines, b.txt takes the second file
    // slot, c.txt is never opened.
    assert_eq!(paths(&outcome), ["a.txt", "a.txt", "b.txt"]);
    assert!(outcome.limit_reached);
    let numbers: Vec<u64> = outcome.matches.iter().map(|m| m.line_number).collect();
    assert_eq!(numbers, [1, 2, 1]);
}

#[test]
fn case_can_be_ignored() {
    let mut query = base_query("HELLO");
    assert_eq!(run(&query, &[("a.txt", "hello\n")]).matches.len(), 0);
    query.ignore_case = true;
    assert_eq!(run(&query, &[("a.txt", "hello\n")]).matches.len(), 1);
}

#[test]
fn searches_that_cannot_start_say_why() {
    match Search::start(&base_query("[unclosed"), "/project", true) {
        Err(SearchError::InvalidPattern(e)) => assert!(!e.is_empty()),
        _ => panic!("the pattern does not parse"),
    }
    match Search::start(&base_query("x"), "/gone", false) {
        Err(SearchError::PathNotFound(p)) => assert_eq!(p, "/gone"),
        _ => panic!("there is nothing to search"),
    }
    let mut query = base_query("x");
    query.glob = Some("*.rs".into());
    assert!(Search::start(&query, "/project", true).is_ok());
    query.glob = Some("[unclosed".into());
    match Search::start(&query, "/project", true) {
        Err(SearchError::InvalidGlob(e)) => assert!(e.contains("[unclosed"), "{e}"),
        _ => panic!("the glob does not parse"),
    }
    let search = match Search::start(&base_query("x"), "/project", true) {
        Ok(s) => s,
        Err(_) => panic!("starts"),
    };
    assert!(matches!(search.wants_more(true), Err(SearchError::Aborted)));
    assert!(matches!(search.wants_more(false), Ok(true)));
    for e in [
        SearchError::PathNotFound("p".into()),
        SearchError::InvalidPattern("p".into()),
        SearchError::InvalidGlob("p".into()),
        SearchError::Aborted,
        SearchError::Io("p".into()),
    ] {
        assert!(!e.message().is_empty());
    }
}

#[test]
fn the_place_is_the_root_unless_a_path_is_named() {
    let grep = GrepSearch::new("/project");
    let mut query = base_query("x");
    query.path = Some("src".into());
    assert_eq!(grep.place(&query, None), "/project/src");
    query.path = Some("~/notes".into());
    assert_eq!(grep.place(&query, Some("/home/u".into())), "/home/u/notes");
}
