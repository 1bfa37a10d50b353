//! Completing file references and commands.

use cupel::autocomplete::{
    file_candidate, file_token_at_cursor, list_candidates, Autocomplete, Candidate, FileToken,
};

fn token(text: &str) -> Option<FileToken> {
    file_token_at_cursor(text, text.chars().count())
}

#[test]
fn an_open_quote_outlasts_words_that_look_like_references() {
    let t = token("@\"a @b c").expect("the quote is still open");
    assert_eq!(t, FileToken { start: 0, query: "a @b c".into(), quoted: true });
    // The nearest reference goes first while it is open itself.
    let t = token("@\"a @b").expect("token");
    assert_eq!(t, FileToken { start: 4, query: "b".into(), quoted: false });
    // A closed quote and a finished word leave nothing open.
    assert!(token("@\"a b\" c").is_none());
    assert!(token("@\"a\" @b c").is_none());
    assert!(token("@a @b c").is_none());
}

#[test]
fn at_token_detected_at_text_start_and_after_whitespace() {
    assert_eq!(
        token("@src/ma"),
        Some(FileToken {
            start: 0,
            query: "src/ma".into(),
            quoted: false
        })
    );
    assert_eq!(token("fix @lib").map(|t| t.start), Some(4));
    assert_eq!(token("line one\n@x").map(|t| t.start), Some(9));
}

#[test]
fn email_like_at_does_not_trigger() {
    assert_eq!(token("mail user@host about it"), None);
    assert_eq!(token("user@ho"), None);
}

#[test]
fn quoted_token_captures_spaces() {
    let t = token("see @\"my file").expect("quoted token");
    assert!(t.quoted);
    assert_eq!(t.query, "my file");
    // A closed quote ends the token.
    assert_eq!(token("see @\"my file\" and"), None);
}

#[test]
fn cursor_mid_token_uses_prefix_only() {
    // Cursor after "sr" inside "@src".
    let t = file_token_at_cursor("@src", 3).expect("token");
    assert_eq!(t.query, "sr");
}

#[test]
fn whitespace_ends_unquoted_tokens() {
    assert_eq!(token("@src stuff"), None);
}

/// What a walk over a small project finds.
fn tree() -> Vec<(String, bool)> {
    vec![
        (".env".to_string(), false),
        (".gitignore".to_string(), false),
        ("README.md".to_string(), false),
        ("src".to_string(), true),
        ("src/main.rs".to_string(), false),
    ]
}

fn walked(prefix: &str) -> Vec<Candidate> {
    list_candidates(prefix, &tree(), 100)
}

#[test]
fn walk_cap_truncates() {
    assert_eq!(list_candidates("", &tree(), 2).len(), 2);
}

#[test]
fn prefixed_walk_keeps_root_relative_displays() {
    let names: Vec<String> = list_candidates("src/", &vec![("main.rs".to_string(), false)], 100)
        .into_iter()
        .map(|c| c.display)
        .collect();
    assert_eq!(names, vec!["src/main.rs".to_string()]);
}

#[test]
fn directories_are_shown_with_a_slash() {
    assert_eq!(file_candidate("", "src", true).display, "src/");
    assert_eq!(file_candidate("", "src/main.rs", false).display, "src/main.rs");
}

#[test]
fn session_opens_narrows_and_closes() {
    let mut ac = Autocomplete::new("/repo");
    assert_eq!(ac.root(), "/repo");

    assert_eq!(ac.wanted_walk("@", 1), Some(String::new()));
    ac.refresh("@", 1, walked(""));
    assert!(ac.is_open());
    let (rows, _) = ac.visible().expect("rows");
    assert!(!rows.is_empty());

    ac.refresh("@mai", 4, walked(""));
    let (rows, selected) = ac.visible().expect("rows");
    assert_eq!(rows[selected].display, "src/main.rs");

    // Backspacing past the `@` closes the session.
    ac.refresh("", 0, Vec::new());
    assert!(!ac.is_open());
}

#[test]
fn accepting_a_file_inserts_reference_with_trailing_space() {
    let mut ac = Autocomplete::new("/repo");
    ac.refresh("@mai", 4, walked(""));
    let completion = ac.accept(4).expect("completion");
    assert_eq!(completion.start, 0);
    assert_eq!(completion.end, 4);
    assert_eq!(completion.insert, "@src/main.rs ");
    assert!(!completion.is_dir);
}

#[test]
fn accepting_a_directory_drills_down() {
    let mut ac = Autocomplete::new("/repo");
    // As if `@src/` was just accepted or typed.
    let found = list_candidates("src/", &vec![("main.rs".to_string(), false)], 100);
    assert_eq!(ac.wanted_walk("@src/", 5), Some("src/".to_string()));
    ac.refresh("@src/", 5, found);
    assert!(ac.is_open(), "directory prefix keeps the session open");
    let (rows, _) = ac.visible().expect("rows");
    assert_eq!(rows[0].display, "src/main.rs");
}

#[test]
fn paths_with_spaces_are_quoted() {
    let mut found = tree();
    found.push(("my notes.md".to_string(), false));
    let mut ac = Autocomplete::new("/repo");
    ac.refresh("@notes", 6, list_candidates("", &found, 100));
    let completion = ac.accept(6).expect("completion");
    assert_eq!(completion.insert, "@\"my notes.md\" ");
}

#[test]
fn the_selection_moves_and_wraps() {
    let mut ac = Autocomplete::new("/repo");
    ac.refresh("@", 1, walked(""));
    let (_, first) = ac.visible().expect("rows");
    ac.move_down();
    let (_, second) = ac.visible().expect("rows");
    assert_ne!(first, second);
    ac.move_up();
    let (_, again) = ac.visible().expect("rows");
    assert_eq!(first, again);
    ac.close();
    assert!(!ac.is_open());
    assert_eq!(ac.token_start(), None);
}
