//! The plain mode.

use cupel::commands::{builtin_commands, read_template};
use cupel::durations::{millis_text, nanos_text};
use cupel::plain::{
    banner, decide, help_text, plain_command, reasoning_newlines, reasoning_separator, LineAction,
    PlainCommand, PlainView, PromptSource,
};
use cupel::types::{AgentEvent, AssistantMessageEvent};

#[test]
fn piped_input_is_one_multiline_prompt_but_tty_input_is_line_based() {
    let mut piped = PromptSource::new("first\nsecond\n");
    assert_eq!(
        piped.read_prompt(true).as_deref(),
        Some("first\nsecond\n")
    );
    assert!(piped.read_prompt(true).is_none());

    let mut tty = PromptSource::new("first\nsecond\n");
    assert_eq!(
        tty.read_prompt(false).as_deref(),
        Some("first\n")
    );
    assert_eq!(
        tty.read_prompt(false).as_deref(),
        Some("second\n")
    );
    assert!(tty.read_prompt(false).is_none());
}

#[test]
fn plain_help_only_advertises_supported_builtins() {
    let supported: Vec<_> = builtin_commands()
        .iter()
        .filter(|command| plain_command(command.name) != PlainCommand::TuiOnly)
        .map(|command| command.name)
        .collect();
    assert_eq!(supported, ["help", "quit", "review"]);
    for name in [
        "new",
        "model",
        "provider",
        "login",
        "logout",
        "thinking",
        "session-id",
        "hot-reload",
        "usage",
    ] {
        assert_eq!(plain_command(name), PlainCommand::TuiOnly, "{name}");
    }
    assert_eq!(plain_command("unknown"), PlainCommand::Prompt);
}

#[test]
fn reasoning_spacing_handles_split_and_existing_newlines() {
    let mut newlines = reasoning_newlines(0, "summary\n");
    newlines = reasoning_newlines(newlines, "\n");
    assert_eq!(reasoning_separator(newlines), "");
    assert_eq!(
        reasoning_separator(reasoning_newlines(0, "summary\n")),
        "\n"
    );
    assert_eq!(
        reasoning_separator(reasoning_newlines(0, "summary")),
        "\n\n"
    );
    assert_eq!(reasoning_newlines(2, "more"), 0);
}

#[test]
fn lines_are_commands_or_prompts() {
    let templates = vec![read_template("fix", "Fix $1", "/t/fix.md")];
    assert!(matches!(decide("   \n", &templates), LineAction::Ignore));
    assert!(matches!(decide("/quit\n", &templates), LineAction::Quit));
    assert!(matches!(decide("exit\n", &templates), LineAction::Quit));
    match decide("/help", &templates) {
        LineAction::Print(text) => assert_eq!(text, help_text(&templates)),
        _ => panic!("help is printed"),
    }
    match decide("/model x", &templates) {
        LineAction::Print(_) => {}
        _ => panic!("commands of the screen are refused"),
    }
    match decide("/review a \"b c\"", &templates) {
        LineAction::Review(args) => assert_eq!(args, vec!["a", "b c"]),
        _ => panic!("a review is gathered"),
    }
    match decide("/fix parser", &templates) {
        LineAction::Prompt(text) => assert_eq!(text, "Fix parser"),
        _ => panic!("templates expand"),
    }
    match decide("/unknown thing", &templates) {
        LineAction::Prompt(text) => assert_eq!(text, "/unknown thing"),
        _ => panic!("unknown names are prompts"),
    }
}

#[test]
fn a_blank_line_follows_the_reasoning() {
    let mut view = PlainView::new();
    let thinking = AgentEvent::MessageUpdate {
        event: AssistantMessageEvent::ThinkingDelta("why".into()),
    };
    let text = AgentEvent::MessageUpdate {
        event: AssistantMessageEvent::TextDelta("because".into()),
    };
    let first = view.render(&thinking, "");
    assert!(first.contains("why"));
    let second = view.render(&text, "");
    assert!(second.starts_with("\n\n") || second.contains("\n\n"), "{second:?}");
    assert!(second.contains("because"));
    let third = view.render(&text, "");
    assert_eq!(third, "because");
}

#[test]
fn the_banner_names_the_session() {
    let text = banner("Some Model", "openai", "/proj", "cupel-7", 3);
    for part in ["Some Model", "openai", "/proj", "cupel-7", "3"] {
        assert!(text.contains(part), "{part} missing: {text}");
    }
}

#[test]
fn durations_show_tenths_of_seconds() {
    assert_eq!(nanos_text(1_234_000_000), "1.2s");
    assert_eq!(nanos_text(0), "0.0s");
    assert_eq!(millis_text(2000), "2.0s");
}
