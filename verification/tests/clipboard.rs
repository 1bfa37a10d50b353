//! Text for the clipboard of the terminal.

use cupel::clipboard::copy_sequence;

fn sequence(text: &str) -> String {
    copy_sequence(&text.as_bytes().to_vec())
}

#[test]
fn text_goes_to_the_clipboard_in_base_64() {
    for (text, written) in [
        ("", ""),
        ("f", "Zg=="),
        ("fo", "Zm8="),
        ("foo", "Zm9v"),
        ("foob", "Zm9vYg=="),
        ("foobar", "Zm9vYmFy"),
        ("é~?>", "w6l+Pz4="),
        ("???", "Pz8/"),
    ] {
        assert_eq!(sequence(text), format!("\u{1b}]52;c;{written}\u{7}"), "{text}");
    }
}

#[test]
fn different_texts_are_written_differently() {
    assert_ne!(sequence("a"), sequence("a\0"));
    assert_ne!(sequence("ab"), sequence("ba"));
}
