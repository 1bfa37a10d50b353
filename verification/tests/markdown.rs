//! Rendering markdown.

use cupel::lines::Line;
use cupel::markdown::render;
use cupel::theme::{fg, plain, Color, Style};
use cupel::wrap::display_width;

fn flat_text(lines: &[Line]) -> Vec<String> {
    lines
        .iter()
        .map(|l| l.spans.iter().map(|s| s.content.as_str()).collect())
        .collect()
}

/// The style of the span containing `needle` - panics when absent.
fn style_of(lines: &[Line], needle: &str) -> Style {
    lines
        .iter()
        .flat_map(|l| &l.spans)
        .find(|s| s.content.contains(needle))
        .unwrap_or_else(|| panic!("{needle:?} not rendered"))
        .style
}

#[test]
fn plain_text_renders_exactly_like_before() {
    // THE invariant: no markdown syntax = one span, base style,
    // identical wrapping - the renderer is a strict superset.
    let base = fg(Color::Magenta);
    let lines = render("hello brave new world", 11, base);
    assert_eq!(flat_text(&lines), ["hello ", "brave new ", "world"]);
    for line in &lines {
        assert_eq!(line.spans.len(), 1);
        assert_eq!(line.spans[0].style, base);
    }
}

#[test]
fn inline_emphasis_patches_the_base_style() {
    let base = fg(Color::Magenta);
    let lines = render("a **bold** and *italic* and `code` and ~~gone~~", 80, base);
    let bold = style_of(&lines, "bold");
    assert!(bold.bold);
    assert_eq!(bold.fg, Some(Color::Magenta), "patch keeps the cell color");
    assert!(style_of(&lines, "italic").italic);
    assert_eq!(style_of(&lines, "code").fg, Some(Color::Cyan));
    assert!(style_of(&lines, "gone").crossed_out);
    // The delimiters themselves are consumed.
    assert!(!flat_text(&lines).concat().contains("**"));
}

#[test]
fn literals_survive_the_simplified_rules() {
    let text = flat_text(&render(
        r"2 * 3 = 6, snake_case_name, \*literal\*",
        80,
        plain(),
    ))
    .concat();
    assert!(text.contains("2 * 3 = 6"), "{text}");
    assert!(text.contains("snake_case_name"), "{text}");
    assert!(text.contains("*literal*"), "{text}");
}

#[test]
fn links_show_label_and_divergent_url() {
    let lines = render(
        "[docs](https://ratatui.rs) and [src/main.rs](src/main.rs)",
        80,
        plain(),
    );
    let text = flat_text(&lines).concat();
    assert!(text.contains("docs (https://ratatui.rs)"), "{text}");
    assert!(style_of(&lines, "docs").underlined);
    // Same label and target: no noisy duplicate.
    assert!(!text.contains("src/main.rs (src/main.rs)"), "{text}");
}

#[test]
fn a_word_crossing_a_style_boundary_never_splits() {
    // "**bo**ld" is ONE word of two styled halves; at width 6 it must
    // wrap as a unit, not break between "bo" and "ld".
    let lines = render("xxxx **bo**ld", 6, plain());
    let text = flat_text(&lines);
    assert_eq!(text, ["xxxx ", "bold"], "{text:?}");
}

#[test]
fn unclosed_streaming_delimiters_style_the_tail() {
    // Mid-stream a closing ** may not have arrived yet - the tail
    // renders bold and self-corrects on the next delta.
    let lines = render("a **stream", 80, plain());
    assert!(style_of(&lines, "stream").bold);
}

#[test]
fn headings_drop_hashes_and_fade_by_depth() {
    let lines = render("# Top\n### Sub\n#nohashtag", 80, plain());
    let text = flat_text(&lines);
    assert_eq!(text[0], "Top");
    assert!(style_of(&lines, "Top").underlined);
    assert!(style_of(&lines, "Sub").bold);
    assert!(!style_of(&lines, "Sub").underlined);
    assert!(text.concat().contains("#nohashtag"), "no space = literal");
}

#[test]
fn lists_hang_their_wrapped_lines() {
    let lines = render("- a rather long list item that wraps", 20, plain());
    let text = flat_text(&lines);
    assert!(text[0].starts_with("• a rather"), "{text:?}");
    assert!(text[1].starts_with("  "), "continuation hangs: {text:?}");
    // Nested + ordered markers survive.
    let text = flat_text(&render("  - nested\n2. second", 80, plain()));
    assert_eq!(text, ["  • nested", "2. second"]);
}

#[test]
fn quotes_and_rules_render_as_chrome() {
    let lines = render("> wise words\n---", 10, plain());
    let text = flat_text(&lines);
    assert!(text[0].starts_with("▌ wise"), "{text:?}");
    assert!(style_of(&lines, "wise").dim);
    assert_eq!(text.last().unwrap(), &"─".repeat(10));
}

#[test]
fn code_panels_cover_the_full_width() {
    let lines = render("```rust\nfn main() {}\nlet x = 1;\n```", 24, plain());
    let text = flat_text(&lines);
    assert_eq!(
        text,
        [" fn main() {}           ", " let x = 1;             "]
    );
    for line in &lines {
        assert_eq!(line.spans[0].style.bg, Some(Color::Indexed(235)));
        assert_eq!(display_width(&flat_text(std::slice::from_ref(line))[0]), 24);
    }
}

#[test]
fn an_unclosed_fence_streams_as_code() {
    // The closing ``` has not arrived yet: everything after the fence
    // renders as code until it does.
    let lines = render("text\n```\nstill code", 20, plain());
    assert_eq!(style_of(&lines, "still code").bg, Some(Color::Indexed(235)));
}

#[test]
fn tables_align_and_style_the_header() {
    let md = "| Name | Wert |\n|---|---|\n| a | **1** |\n| lang_und_breit | 2 |";
    let lines = render(md, 80, plain());
    let text = flat_text(&lines);
    assert!(
        text[0].contains("Name") && text[0].contains("│"),
        "{text:?}"
    );
    assert!(text[1].contains("┼"), "header underline: {text:?}");
    assert!(style_of(&lines, "Name").bold);
    assert!(style_of(&lines, "1").bold, "inline markup inside cells");
    // Every row is equally wide - alignment is the whole point.
    let w0 = display_width(&text[0]);
    assert!(
        text.iter().take(4).all(|t| display_width(t) == w0),
        "{text:?}"
    );
}

#[test]
fn wide_tables_shrink_and_clip_with_ellipsis() {
    let md = "| col | eine sehr sehr sehr lange zelle |\n|---|---|\n| a | b |";
    let lines = render(md, 24, plain());
    for line in &lines {
        assert!(display_width(&flat_text(std::slice::from_ref(line))[0]) <= 24);
    }
    assert!(
        flat_text(&lines).concat().contains('…'),
        "clipped cell is marked"
    );
}

#[test]
fn a_lone_pipe_line_is_not_a_table() {
    // Without a separator row it is just a paragraph containing pipes.
    let text = flat_text(&render("| not | a table", 80, plain())).concat();
    assert!(text.contains("| not | a table"), "{text}");
}

#[test]
fn words_of_other_alphabets_are_words() {
    // An underscore between two letters is literal, whatever the alphabet.
    let text = flat_text(&render("größe_über_alles", 80, plain())).concat();
    assert_eq!(text, "größe_über_alles");
}

#[test]
fn a_prefix_wider_than_the_row_leaves_the_empty_text_a_row() {
    let lines = render("        100. ", 10, plain());
    assert_eq!(flat_text(&lines), ["        100. ".to_string(), " ".repeat(13)]);
    assert_eq!(flat_text(&render(">", 1, plain())), ["▌ ", "  "]);
    // Where the prefix fits, the item is one row.
    assert_eq!(flat_text(&render("        100. ", 13, plain())), ["        100. "]);
    assert_eq!(flat_text(&render(">", 2, plain())), ["▌ "]);
}
