//! Review prompts.

use cupel::review::{
    build_review_prompt, display_path, is_diff_review, Gathered, ReviewItem, INSTRUCTIONS,
};
use cupel::truncate::{format_size, truncate_head, TruncationOptions};

fn args(list: &[&str]) -> Vec<String> {
    list.iter().map(|s| (*s).to_string()).collect()
}

fn file(path: &str, content: &str) -> ReviewItem {
    ReviewItem::File { path: path.into(), content: Some(content.into()) }
}

#[test]
fn explicit_file_gets_full_content_and_relative_header() {
    let items = Gathered::Items(vec![file("/p/lib.rs", "fn a() {}\nfn b() {}\n")]);
    let prompt = build_review_prompt("/p", &args(&["lib.rs"]), &items).unwrap();
    assert!(prompt.contains("=== file: lib.rs ==="));
    assert!(prompt.contains("fn a() {}\nfn b() {}"));
    assert!(!prompt.contains("[file truncated"), "small file untouched");
    assert!(prompt.starts_with(INSTRUCTIONS));
}

#[test]
fn large_files_are_truncated_with_a_note() {
    // 3000 lines exceeds the 2000-line default budget.
    let big: String = (0..3000).map(|i| format!("line {i}\n")).collect();
    let items = Gathered::Items(vec![file("/p/big.txt", &big)]);
    let prompt = build_review_prompt("/p", &args(&["big.txt"]), &items).unwrap();
    assert!(
        prompt.contains("[file truncated: showing first 2000 of 3000 lines"),
        "truncation note missing"
    );
    assert!(!prompt.contains("line 2999"), "tail must be cut");
}

#[test]
fn project_review_walks_respects_gitignore_and_notes_omissions() {
    // A binary file must be skipped, not poison the bundle.
    let items = Gathered::Items(vec![ReviewItem::Directory {
        files: vec![
            ("/p/blob.bin".into(), None),
            ("/p/src/main.rs".into(), Some("fn main() {}".into())),
        ],
    }]);
    let prompt = build_review_prompt("/p", &args(&[]), &items).unwrap();
    assert!(prompt.contains("=== file: src/main.rs ==="));
    assert!(prompt.contains("omitted"), "binary skip is announced");
}

#[test]
fn multiple_paths_bundle_in_order_and_missing_paths_error() {
    let items = Gathered::Items(vec![file("/p/a.rs", "// a"), file("/p/b.rs", "// b")]);
    let prompt = build_review_prompt("/p", &args(&["a.rs", "b.rs"]), &items).unwrap();
    let a = prompt.find("=== file: a.rs ===").unwrap();
    let b = prompt.find("=== file: b.rs ===").unwrap();
    assert!(a < b, "sections follow argument order");

    let gone = Gathered::Items(vec![ReviewItem::Missing]);
    let err = build_review_prompt("/p", &args(&["nope.rs"]), &gone).unwrap_err();
    assert!(err.contains("path not found: nope.rs"));
}

#[test]
fn diff_mode_reviews_the_git_diff() {
    let diff = Gathered::Diff(Ok("-old\n+new\n".into()));
    let prompt = build_review_prompt("/p", &args(&["--diff"]), &diff).unwrap();
    assert!(prompt.contains("=== git diff"));
    assert!(prompt.contains("-old"));
    assert!(prompt.contains("+new"));
    assert!(is_diff_review(&args(&["--diff"])));
    assert!(!is_diff_review(&args(&["x.rs"])));

    // Clean tree: a clear message instead of an empty prompt.
    let clean = Gathered::Diff(Ok(String::new()));
    let err = build_review_prompt("/p", &args(&["--diff"]), &clean).unwrap_err();
    assert!(err.contains("no changes"));

    // --diff mixed with paths is ambiguous - refuse.
    let err = build_review_prompt("/p", &args(&["--diff", "x.rs"]), &clean).unwrap_err();
    assert!(err.contains("cannot be combined"));

    let failed = Gathered::Diff(Err("not a repository".into()));
    let err = build_review_prompt("/p", &args(&["--diff"]), &failed).unwrap_err();
    assert!(err.contains("not a repository"));
}

#[test]
fn sweeps_stop_at_the_file_limit_and_count_the_rest() {
    let files: Vec<(String, Option<String>)> =
        (0..45).map(|i| (format!("/p/f{i:02}.rs"), Some(format!("// {i}")))).collect();
    let items = Gathered::Items(vec![ReviewItem::Directory { files }]);
    let prompt = build_review_prompt("/p", &args(&[]), &items).unwrap();
    assert!(prompt.contains("=== file: f39.rs ==="));
    assert!(!prompt.contains("=== file: f40.rs ==="));
    assert!(prompt.contains("5 "), "five files are left out");
}

#[test]
fn paths_are_shown_relative_to_the_project() {
    assert_eq!(display_path("/p/src/a.rs", "/p"), "src/a.rs");
    assert_eq!(display_path("/other/a.rs", "/p"), "/other/a.rs");
    assert_eq!(display_path("/p/./src/a.rs", "/p"), "src/a.rs");
    assert_eq!(display_path("/p/src//a.rs/", "/p/"), "src//a.rs");
    assert_eq!(display_path("/pp/a.rs", "/p"), "/pp/a.rs");
    assert_eq!(display_path("/a.rs", "/"), "a.rs");
}

#[test]
fn heads_are_cut_at_whole_lines() {
    let options = TruncationOptions { max_lines: Some(2), max_bytes: None };
    let cut = truncate_head("a\nb\nc\n", options);
    assert!(cut.truncated);
    assert_eq!(cut.content, "a\nb");
    assert_eq!((cut.output_lines, cut.total_lines), (2, 3));
    let whole = truncate_head("a\nb", TruncationOptions { max_lines: None, max_bytes: None });
    assert!(!whole.truncated);
    assert_eq!(whole.content, "a\nb");
    // The line ends between the lines count, and so does every byte of a
    // character.
    let bytes = |n| TruncationOptions { max_lines: None, max_bytes: Some(n) };
    assert_eq!(truncate_head("ab\n\né\nz", bytes(6)).content, "ab\n\né");
    assert_eq!(truncate_head("ab\n\né\nz", bytes(5)).content, "ab\n");
    assert_eq!(truncate_head("ab\n\né\nz", bytes(1)).content, "");
    assert!(!truncate_head("ab\n\né\nz", bytes(8)).truncated);
    assert_eq!(format_size(512), "512B");
    assert_eq!(format_size(51_200), "50.0KB");
}
