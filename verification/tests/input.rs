//! The input line.

use cupel::input::InputState;

#[test]
fn insert_and_delete_are_char_safe() {
    let mut input = InputState::default();
    for c in "héllo".chars() {
        input.insert(c);
    }
    input.move_left();
    input.move_left();
    input.delete_back(); // removes the second 'l'
    assert_eq!(input.text(), "hélo");
    input.delete_forward(); // removes the remaining 'l'
    assert_eq!(input.text(), "héo");
}

#[test]
fn home_end_work_per_line() {
    let mut input = InputState::default();
    input.insert_str("first\nsecond");
    input.move_home();
    let (line, col) = input.cursor_line_col();
    assert_eq!((line, col), (1, 0));
    input.move_end();
    let (line, col) = input.cursor_line_col();
    assert_eq!((line, col), (1, 6));
}

#[test]
fn history_round_trip_preserves_stash() {
    let mut input = InputState::default();
    input.insert_str("one");
    assert_eq!(input.submit(), "one");
    input.insert_str("two");
    assert_eq!(input.submit(), "two");

    input.insert_str("draft");
    input.history_prev();
    assert_eq!(input.text(), "two");
    input.history_prev();
    assert_eq!(input.text(), "one");
    input.history_next();
    assert_eq!(input.text(), "two");
    input.history_next();
    assert_eq!(input.text(), "draft"); // stash restored
}

#[test]
fn duplicate_history_entries_are_skipped() {
    let mut input = InputState::default();
    input.insert_str("same");
    input.submit();
    input.insert_str("same");
    input.submit();
    input.history_prev();
    input.history_prev(); // would go past if "same" were stored twice
    assert_eq!(input.text(), "same");
}

#[test]
fn deleting_undoes_inserting() {
    let mut input = InputState::default();
    input.insert_str("ab");
    input.move_left();
    input.insert('é');
    assert_eq!(input.text(), "aéb");
    assert_eq!(input.cursor(), 2);
    input.delete_back();
    assert_eq!(input.text(), "ab");
    assert_eq!(input.cursor(), 1);
}

#[test]
fn replacing_a_range_moves_the_cursor_behind_it() {
    let mut input = InputState::default();
    input.insert_str("see @ma now");
    input.replace_range(4, 7, "@src/main.rs ");
    assert_eq!(input.text(), "see @src/main.rs  now");
    assert_eq!(input.cursor(), 17);
}
