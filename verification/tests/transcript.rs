//! The conversation on screen: cells, bands and panes.

use cupel::lines::Line;
use cupel::panes::tool_lines;
use cupel::theme;
use cupel::transcript::{Cell, ToolOutcome, Transcript};
use cupel::wrap::{columns_of, display_width, split_keeping_spaces, wrap_line};

/// The plain text of a line (concatenated span content).
fn line_text(line: &Line) -> String {
    line.spans.iter().map(|s| s.content.as_str()).collect()
}

#[test]
fn rows_take_every_word_that_fits() {
    assert_eq!(wrap_line("aa bb cc dd", 6), ["aa bb ", "cc dd"]);
    assert_eq!(wrap_line("aa bbbbbbbb c", 4), ["aa ", "bbbb", "bbbb", " c"]);
}

#[test]
fn wrap_short_line_passes_through() {
    assert_eq!(wrap_line("hello world", 20), vec!["hello world"]);
}

#[test]
fn wrap_breaks_at_word_boundary() {
    assert_eq!(
        wrap_line("hello brave new world", 11),
        vec!["hello ", "brave new ", "world"]
    );
}

#[test]
fn wrap_hard_splits_long_words() {
    assert_eq!(wrap_line("abcdefghij", 4), vec!["abcd", "efgh", "ij"]);
}

#[test]
fn wrap_counts_wide_chars_as_two_columns() {
    // Each CJK char is 2 columns; 4 columns fit 2 chars.
    assert_eq!(wrap_line("日本語だ", 4), vec!["日本", "語だ"]);
}

#[test]
fn wrap_empty_line_stays_a_line() {
    assert_eq!(wrap_line("", 10), vec![""]);
}

#[test]
fn wrapping_loses_nothing() {
    let line = "some   words and averyveryverylongone, and 日本語 too";
    for width in 1..40 {
        assert_eq!(wrap_line(line, width).concat(), line);
    }
    assert_eq!(split_keeping_spaces(line).concat(), line);
}

#[test]
fn columns_are_those_of_the_terminal() {
    for c in ['…', '─', '│', '┼', '•', '▌', 'a', ' '] {
        assert_eq!(columns_of(c), 1, "{c}");
    }
    assert_eq!(columns_of('日'), 2);
    assert_eq!(columns_of('\u{301}'), 0, "a combining accent");
    assert_eq!(columns_of('\n'), 0, "a control character");
    assert_eq!(display_width("日本 x"), 6);
}

#[test]
fn streaming_deltas_append_to_last_cell() {
    let mut transcript = Transcript::default();
    transcript.append_assistant("Hel");
    transcript.append_assistant("lo");
    assert_eq!(transcript.cells.len(), 1);
    let Some(Cell::Assistant { text }) = transcript.cells.last() else {
        panic!("expected assistant cell");
    };
    assert_eq!(text, "Hello");
}

#[test]
fn thinking_then_text_makes_two_cells() {
    let mut transcript = Transcript::default();
    transcript.append_thinking("hmm");
    transcript.append_assistant("answer");
    assert_eq!(transcript.cells.len(), 2);
}

#[test]
fn tool_result_attaches_by_id() {
    let mut transcript = Transcript::default();
    transcript.cells.push(Cell::Tool {
        id: "call_1".into(),
        name: "grep".into(),
        call: "{}".into(),
        expanded: false,
        started_at: None,
        live: None,
        result: None,
    });
    transcript.attach_tool_result(
        "call_1",
        ToolOutcome {
            text: "hit".into(),
            is_error: false,
            diff: None,
            took: None,
        },
        0,
    );
    let Some(Cell::Tool {
        result: Some(outcome),
        ..
    }) = transcript.cells.last()
    else {
        panic!("expected tool cell with result");
    };
    assert_eq!(outcome.text, "hit");
}

/// A finished bash cell with ten numbered output lines.
fn bash_cell(expanded: bool) -> Cell {
    Cell::Tool {
        id: "1".into(),
        name: "bash".into(),
        call: "$ cargo test".into(),
        expanded,
        started_at: None,
        live: None,
        result: Some(ToolOutcome {
            text: (1..=10)
                .map(|i| format!("line {i}"))
                .collect::<Vec<_>>()
                .join("\n"),
            is_error: false,
            diff: None,
            took: None,
        }),
    }
}

#[test]
fn bash_previews_the_tail_and_files_the_head() {
    let texts: Vec<String> = tool_lines(&bash_cell(false), 60, 0)
        .iter()
        .map(line_text)
        .collect();
    assert_eq!(texts[0], "$ cargo test");
    assert_eq!(texts[1], "  ... (4 earlier lines, ctrl+t to expand)");
    assert_eq!(texts[2], "  line 5");
    assert_eq!(texts.last().unwrap(), "  line 10");

    let mut read = bash_cell(false);
    if let Cell::Tool { name, .. } = &mut read {
        *name = "read".into();
    }
    let texts: Vec<String> = tool_lines(&read, 60, 0).iter().map(line_text).collect();
    assert_eq!(texts[1], "  line 1");
    assert_eq!(texts[6], "  line 6");
    assert_eq!(texts[7], "  ... (4 more lines, ctrl+t to expand)");
}

#[test]
fn a_running_tool_shows_its_latest_output_and_a_clock() {
    let mut t = Transcript::default();
    let mut cell = bash_cell(false);
    if let Cell::Tool { result, .. } = &mut cell {
        *result = None;
    }
    t.cells.push(cell);
    t.mark_tool_started("1", 5_000_000_000);
    t.attach_tool_progress("1", "a\nb\nc\nd\ne\nf\ng".into());

    let texts: Vec<String> = tool_lines(&t.cells[0], 60, 6_500_000_000)
        .iter()
        .map(line_text)
        .collect();
    assert_eq!(texts[1], "  b", "the snapshot's tail, six lines");
    assert_eq!(texts[6], "  g");
    assert!(texts[7].starts_with("  ... running "), "{texts:?}");
    assert_eq!(texts[7], "  ... running 1.5s");

    t.attach_tool_result(
        "1",
        ToolOutcome {
            text: "g".into(),
            is_error: false,
            diff: None,
            took: None,
        },
        5_000_000_000,
    );
    let texts: Vec<String> = tool_lines(&t.cells[0], 60, 9_000_000_000)
        .iter()
        .map(line_text)
        .collect();
    assert_eq!(texts, vec!["$ cargo test", " g ", "  took 0.0s"]);
    assert!(matches!(&t.cells[0], Cell::Tool { live: None, .. }));
}

#[test]
fn expansion_shows_every_line_and_toggles_per_cell_or_for_all() {
    let texts: Vec<String> = tool_lines(&bash_cell(true), 60, 0)
        .iter()
        .map(line_text)
        .collect();
    assert_eq!(texts.len(), 11, "header + all ten lines");
    assert!(!texts.iter().any(|t| t.contains("expand")));

    let mut t = Transcript::default();
    t.cells.push(bash_cell(false));
    t.cells.push(bash_cell(false));
    t.toggle_tool(1);
    assert!(matches!(
        t.cells[0],
        Cell::Tool {
            expanded: false,
            ..
        }
    ));
    assert!(matches!(t.cells[1], Cell::Tool { expanded: true, .. }));
    t.set_all_tools_expanded(true);
    assert!(matches!(t.cells[0], Cell::Tool { expanded: true, .. }));
    t.set_all_tools_expanded(false);
    assert!(matches!(
        t.cells[1],
        Cell::Tool {
            expanded: false,
            ..
        }
    ));
}

#[test]
fn tool_map_points_clicks_at_the_right_tool_cell() {
    let mut t = Transcript::default();
    t.append_thinking("short");
    t.cells.push(tool("1"));
    t.cells.push(tool("2"));
    let columns = t.to_columns(40, 40, None, 0);
    assert_eq!(columns.tool_at.len(), columns.right.len());
    assert_eq!(columns.tool_at[0], None, "the band rule is chrome");
    assert_eq!(columns.tool_at[1], Some(1), "first tool's header");
    assert_eq!(
        columns
            .tool_at
            .iter()
            .rposition(|c| *c == Some(2))
            .map(|_| 2),
        Some(2),
        "second tool is mapped"
    );
}

#[test]
fn diff_replaces_result_text_and_colors_by_marker() {
    let cell = Cell::Tool {
        id: "1".into(),
        name: "edit".into(),
        call: "{}".into(),
        expanded: false,
        started_at: None,
        live: None,
        result: Some(ToolOutcome {
            text: "Successfully replaced 1 block(s) in a.rs".into(),
            is_error: false,
            diff: Some(" 1 fn main() {\n-2     old();\n+2     new();\n 3 }".into()),
            took: None,
        }),
    };
    let lines = tool_lines(&cell, 40, 0);
    let texts: Vec<String> = lines.iter().map(line_text).collect();
    assert_eq!(texts[0], "{}");
    assert_eq!(texts[1], "   1 fn main() {");
    assert_eq!(texts[2], "  -2     old();");
    assert_eq!(texts[3], "  +2     new();");
    assert_eq!(texts[4], "   3 }");
    assert_eq!(lines[1].spans[0].style, theme::diff_ctx());
    assert_eq!(lines[2].spans[0].style, theme::diff_del());
    assert_eq!(lines[3].spans[0].style, theme::diff_add());
    assert_eq!(lines[4].spans[0].style, theme::diff_ctx());
    assert!(
        !texts.iter().any(|t| t.contains("Successfully")),
        "the confirmation line is for the mode, not the screen"
    );
}

#[test]
fn promote_final_answer_targets_trailing_prose_only() {
    let mut t = Transcript::default();
    t.cells.push(Cell::User {
        text: "task".into(),
    });
    t.append_assistant("mid-turn note");
    t.cells.push(Cell::Tool {
        id: "1".into(),
        name: "read".into(),
        call: "{}".into(),
        expanded: false,
        started_at: None,
        live: None,
        result: None,
    });
    t.append_assistant("the final answer");
    t.cells.push(Cell::Usage {
        text: "[usage]".into(),
    });

    t.promote_final_answer();

    assert!(
        matches!(t.cells.last(), Some(Cell::Usage { .. })),
        "usage stays last"
    );
    assert!(matches!(&t.cells[3], Cell::Answer { text } if text == "the final answer"));
    assert!(
        matches!(&t.cells[1], Cell::Assistant { text } if text == "mid-turn note"),
        "mid-turn prose must stay plain"
    );
}

#[test]
fn promote_final_answer_skips_error_runs() {
    let mut t = Transcript::default();
    t.append_assistant("half an answer");
    t.cells.push(Cell::Error {
        text: "boom".into(),
    });
    t.promote_final_answer();
    assert!(!t.cells.iter().any(|c| matches!(c, Cell::Answer { .. })));
}

fn tool(id: &str) -> Cell {
    Cell::Tool {
        id: id.into(),
        name: "grep".into(),
        call: "{}".into(),
        expanded: false,
        started_at: None,
        live: None,
        result: None,
    }
}

#[test]
fn steps_split_tools_right_and_break_on_the_next_thought() {
    let mut t = Transcript::default();
    t.cells.push(Cell::User {
        text: "task".into(),
    });
    t.append_thinking("first thought");
    t.cells.push(tool("1"));
    t.cells.push(tool("2"));
    t.append_thinking("second thought");
    t.cells.push(tool("3"));
    t.append_assistant("done");

    let steps = t.steps();
    assert_eq!(steps.len(), 3);
    // Band 1: prompt + first thought, with the two calls it triggered.
    assert_eq!(steps[0].left, vec![0, 1]);
    assert_eq!(steps[0].right, vec![2, 3]);
    assert_eq!(steps[0].marker, Some(1));
    // Band 2: the thought AFTER tool results starts a fresh band.
    assert_eq!(steps[1].left, vec![4]);
    assert_eq!(steps[1].right, vec![5]);
    assert_eq!(steps[1].marker, Some(2));
    // Band 3: trailing prose, no tools, no number.
    assert_eq!(steps[2].left, vec![6]);
    assert!(steps[2].right.is_empty());
    assert_eq!(steps[2].marker, None);
}

#[test]
fn step_numbers_restart_at_every_user_prompt() {
    let mut t = Transcript::default();
    t.cells.push(Cell::User { text: "one".into() });
    t.cells.push(tool("1"));
    t.cells.push(Cell::User { text: "two".into() });
    t.cells.push(tool("2"));
    let steps = t.steps();
    assert_eq!(steps.len(), 2);
    assert_eq!(steps[0].marker, Some(1));
    assert_eq!(steps[1].marker, Some(1), "numbering is turn-scoped");
}

#[test]
fn columns_keep_both_panes_the_same_height() {
    let mut t = Transcript::default();
    t.append_thinking("short");
    t.cells.push(Cell::Tool {
        id: "1".into(),
        name: "read".into(),
        call: "{}".into(),
        started_at: None,
        live: None,
        expanded: false,
        result: Some(ToolOutcome {
            text: "a\nb\nc\nd".into(),
            is_error: false,
            diff: None,
            took: None,
        }),
    });
    t.append_thinking("after");
    let columns = t.to_columns(40, 40, None, 0);

    // The invariant everything else rests on: one shared window can
    // slice both panes.
    assert_eq!(columns.left.len(), columns.right.len());
    assert_eq!(columns.left.len(), columns.cell_at.len());

    // The band rule carries the same number at the same row...
    let left_rule = columns
        .left
        .iter()
        .position(|l| line_text(l).starts_with("─ 1 "));
    let right_rule = columns
        .right
        .iter()
        .position(|l| line_text(l).starts_with("─ 1 "));
    assert!(left_rule.is_some(), "band rule missing on the left");
    assert_eq!(left_rule, right_rule, "rule rows must align");

    // ...and the second thought renders BELOW the tool block: the
    // left pane was padded so the next band starts aligned.
    let after_row = columns
        .left
        .iter()
        .position(|l| line_text(l) == "after")
        .expect("second thought rendered");
    let last_tool_row = columns
        .right
        .iter()
        .rposition(|l| line_text(l).contains('d'))
        .expect("tool preview rendered");
    assert!(after_row > last_tool_row, "alignment padding missing");
}

#[test]
fn cell_map_points_clicks_at_the_right_cell() {
    let mut t = Transcript::default();
    t.append_thinking("short");
    t.cells.push(tool("1"));
    t.append_thinking("after");
    let columns = t.to_columns(40, 40, None, 0);
    assert_eq!(columns.cell_at[0], None, "the band rule is chrome");
    assert_eq!(columns.cell_at[1], Some(0), "the thinking line");
    assert_eq!(
        *columns.cell_at.last().unwrap(),
        Some(2),
        "the second thought"
    );
}

#[test]
fn cells_without_text_still_have_a_row() {
    let mut t = Transcript::default();
    t.cells.push(Cell::Thinking { text: "".into() });
    t.cells.push(tool("1"));
    t.cells.push(Cell::Notice { text: "".into() });
    t.cells.push(Cell::Assistant { text: "".into() });
    let columns = t.to_columns(40, 40, None, 0);
    for index in [0, 2, 3] {
        assert!(columns.cell_at.contains(&Some(index)), "cell {index}");
        assert!(!columns.tool_at.contains(&Some(index)), "cell {index}");
    }
    assert!(columns.tool_at.contains(&Some(1)));
    assert!(!columns.cell_at.contains(&Some(1)));
}

#[test]
fn selected_cell_lines_carry_the_highlight_background() {
    let mut t = Transcript::default();
    t.append_assistant("hello world");
    let selected = t.to_columns(40, 40, Some(0), 0);
    assert_eq!(selected.left[0].style.bg, theme::selected().bg);
    let unselected = t.to_columns(40, 40, None, 0);
    assert_eq!(unselected.left[0].style.bg, None);
}

#[test]
fn copy_text_returns_raw_text_for_conversation_cells_only() {
    let mut t = Transcript::default();
    t.cells.push(Cell::User {
        text: "the task".into(),
    });
    t.cells.push(tool("1"));
    assert_eq!(t.copy_text(0), Some("the task"));
    assert_eq!(t.copy_text(1), None, "tool cells stay out of copy");
    assert_eq!(t.copy_text(9), None, "out of range is a soft None");
}

#[test]
fn a_finished_call_takes_no_more_progress() {
    let mut t = Transcript::default();
    t.cells.push(tool("1"));
    let outcome = ToolOutcome {
        text: "done".into(),
        is_error: false,
        diff: None,
        took: None,
    };
    t.attach_tool_result("1", outcome, 0);
    t.attach_tool_progress("1", "late".into());
    match &t.cells[0] {
        Cell::Tool { result: Some(o), live, .. } => {
            assert_eq!(o.text, "done");
            assert!(live.is_none());
        }
        _ => panic!("expected a finished call"),
    }
}

#[test]
fn toggling_twice_and_promoting_twice_change_nothing() {
    let mut t = Transcript::default();
    t.cells.push(tool("1"));
    t.toggle_tool(0);
    t.toggle_tool(0);
    assert!(matches!(t.cells[0], Cell::Tool { expanded: false, .. }));

    t.append_assistant("done");
    t.promote_final_answer();
    t.promote_final_answer();
    assert!(matches!(&t.cells[1], Cell::Answer { text } if text == "done"));
}
