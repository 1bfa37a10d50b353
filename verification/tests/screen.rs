//! The interactive mode, driven by events and read off the screen.

use std::sync::Arc;

use cupel::agent::{Agent, AgentOptions};
use cupel::app::{compact, App, Area, ReloadTarget, Request, SessionMeta};
use cupel::autocomplete::{list_candidates, Candidate};
use cupel::credentials::Credentials;
use cupel::deltas::{context_delta, CONTEXT_UPDATE_MARKER};
use cupel::keys::{Key, TerminalEvent};
use cupel::lines::Line;
use cupel::messages::{
    AgentMessage, AssistantContent, AssistantMessage, Content, Message, StopReason, ThinkingLevel,
    ToolCall, ToolResultMessage, Usage, UserBody,
};
use cupel::models::{InputModality, Model, ModelCost};
use cupel::reload::Ingredients;
use cupel::resources::ContextFile;
use cupel::review::{build_review_prompt, Gathered, ReviewItem};
use cupel::screen::{input_rows, input_scroll, visual_cursor, CHAT_PANE_PERCENT};
use cupel::session::{SessionRecorder, SessionSummary};
use cupel::settings::{save_provider_key, FileRead, SaveError, Settings};
use cupel::theme::{selected, Color, Style};
use cupel::transcript::{Cell, ToolOutcome};
use cupel::types::{AgentEvent, AssistantMessageEvent, CompactionReason};
use cupel::wrap::wrap_line;

fn model(id: &str, provider: &str) -> Arc<Model> {
    Arc::new(Model {
        id: id.into(),
        name: format!("The {id}"),
        api: "openai-completions".into(),
        provider: provider.into(),
        base_url: "https://example.com".into(),
        reasoning: true,
        thinking_level_map: None,
        input: vec![InputModality::Text],
        cost: ModelCost { input: 0, output: 0, cached_read: 0, cached_write: 0, tiers: None },
        context_window: 100_000,
        max_tokens: 4096,
        headers: None,
        compat: None,
    })
}

fn builtin_models() -> Vec<Arc<Model>> {
    vec![
        model("sonnet-5", "anthropic"),
        model("haiku-4-5", "anthropic"),
        model("gpt-5.6-sol", "openai"),
        model("us.sonnet-5", "amazon-bedrock"),
        model("kimi-k3", "fireworks"),
    ]
}

fn credentials() -> Credentials {
    Credentials {
        session: Settings::default(),
        env: Vec::new(),
        stored: Settings::default(),
        logged_in: false,
    }
}

fn app_with(
    home: Option<&str>,
    session_id: &str,
    history: Vec<AgentMessage>,
    warning: Option<String>,
) -> App {
    let mut options = AgentOptions::new(builtin_models().remove(0));
    options.messages = history;
    let home = home.map(String::from);
    let meta = SessionMeta {
        model_name: "Test Model".into(),
        provider: "test".into(),
        cwd: "/tmp".into(),
        templates: Vec::new(),
        models: builtin_models(),
        home: home.clone(),
        context_files: Vec::new(),
    };
    let recorder = SessionRecorder::new(home, "/tmp", session_id, "test-model", 0);
    App::new(Agent::new(options), meta, credentials(), recorder, &Vec::new(), warning)
}

fn test_app() -> App {
    app_with(None, "cupel-test", Vec::new(), None)
}

/// What a walk over the project finds below a directory.
fn walk(prefix: &str) -> Vec<Candidate> {
    let found: Vec<(String, bool)> = match prefix {
        "src/" => vec![("main.rs".to_string(), false)],
        _ => vec![
            ("notes.md".to_string(), false),
            ("src".to_string(), true),
            ("src/main.rs".to_string(), false),
        ],
    };
    list_candidates(prefix, &found, 1000)
}

fn event(app: &mut App, e: TerminalEvent) {
    if app.on_terminal_event(e) {
        let walked = match app.wanted_walk() {
            Some(prefix) => walk(&prefix),
            None => Vec::new(),
        };
        app.refresh(walked);
    }
}

fn press(app: &mut App, key: Key) {
    event(app, TerminalEvent::Key { key, ctrl: false, alt: false });
}

fn ctrl(app: &mut App, c: char) {
    event(app, TerminalEvent::Key { key: Key::Char(c), ctrl: true, alt: false });
}

fn type_text(app: &mut App, text: &str) {
    for c in text.chars() {
        press(app, Key::Char(c));
    }
}

/// Types a command and sends it past the popup.
fn command(app: &mut App, text: &str) {
    type_text(app, text);
    press(app, Key::Esc);
    press(app, Key::Enter);
}

fn line_text(line: &Line) -> String {
    line.spans.iter().map(|s| s.content.as_str()).collect()
}

fn pane(x: u16, y: u16, width: u16, height: u16) -> Area {
    // A border all around, and one column of padding on both sides.
    Area {
        x: x + 2,
        y: y + 1,
        width: width.saturating_sub(4),
        height: height.saturating_sub(2),
    }
}

/// The inner areas of the panes on a screen.
fn areas(app: &App, width: u16, height: u16) -> (Area, Option<Area>, Area, Area) {
    let rows = input_rows(app.input.text(), width.saturating_sub(2) as usize) as u16;
    let above = height.saturating_sub(rows + 3);
    let outer = Area { x: 0, y: 0, width, height: above };
    let input = Area { x: 0, y: above, width, height: rows + 2 };
    if app.has_tools() {
        let left = width * CHAT_PANE_PERCENT / 100;
        (
            pane(0, 0, left, above),
            Some(pane(left, 0, width - left, above)),
            outer,
            input,
        )
    } else {
        (pane(0, 0, width, above), None, outer, input)
    }
}

/// Everything that is on the screen, as text.
fn draw(app: &mut App, width: u16, height: u16) -> String {
    let (chat, tools, outer, input) = areas(app, width, height);
    let mut out = String::from(" conversation ");
    if tools.is_some() {
        out.push_str(" tools ");
    }
    out.push('\n');
    let visible = app.show_transcript(chat, tools, 0);
    assert!(visible.left.len() <= chat.height as usize);
    for (l, r) in visible.left.iter().zip(visible.right.iter()) {
        out.push_str(&line_text(l));
        if tools.is_some() {
            out.push_str(" │ ");
            out.push_str(&line_text(r));
        }
        out.push('\n');
    }
    if visible.scrollbar {
        out.push_str("█\n");
    }
    if let Some(m) = &visible.marker {
        out.push_str(m);
    }
    out.push_str(app.input_title());
    out.push('\n');
    let inner = (width - 2) as usize;
    let rows: Vec<String> =
        app.input.text().split('\n').flat_map(|l| wrap_line(l, inner)).collect();
    let (row, _) = visual_cursor(app.input.text(), app.input.cursor(), inner);
    let shown = (input.height - 2) as usize;
    for r in rows.iter().skip(input_scroll(row, shown)).take(shown) {
        out.push_str(r);
        out.push('\n');
    }
    out.extend(app.footer(width).chars().take(width as usize));
    out.push('\n');
    if let Some(place) = app.popup_area(outer, input, width) {
        assert!(place.y + place.height <= input.y, "the popup stands above the input");
        let (rows, _) = app.autocomplete.visible().expect("rows");
        for r in rows.iter().take(place.height as usize) {
            out.push_str(&r.display);
            out.push('\n');
        }
    }
    out
}

/// The style at the first occurrence of `needle` in the conversation.
fn style_of(app: &mut App, needle: &str) -> Style {
    let (chat, tools, _, _) = areas(app, 80, 24);
    let visible = app.show_transcript(chat, tools, 0);
    for line in &visible.left {
        for span in &line.spans {
            if span.content.contains(needle) {
                return line.style.patch(span.style);
            }
        }
    }
    panic!("needle {needle:?} not on screen");
}

fn noticed(app: &App, parts: &[&str]) -> bool {
    app.transcript.cells.iter().any(|c| match c {
        Cell::Notice { text } => parts.iter().all(|p| text.contains(p)),
        _ => false,
    })
}

#[test]
fn the_turn_hierarchy_reaches_the_screen() {
    let mut app = test_app();
    app.transcript.cells.push(Cell::User {
        text: "the task".into(),
    });
    app.transcript.cells.push(Cell::Thinking {
        text: "pondering".into(),
    });
    app.transcript.cells.push(Cell::Answer {
        text: "the answer".into(),
    });
    assert_eq!(style_of(&mut app, "> the task").fg, Some(Color::LightGreen));
    assert_eq!(style_of(&mut app, "pondering").fg, Some(Color::DarkGray));
    assert_eq!(style_of(&mut app, "the answer").fg, Some(Color::Magenta));
}

#[test]
fn startup_warning_leads_the_transcript_as_a_notice() {
    let mut app = app_with(
        None,
        "cupel-test",
        Vec::new(),
        Some("no credentials found - use /provider <name> <api-key>".into()),
    );
    // First cell is the warning notice - the session is usable, not
    // blocked.
    assert!(matches!(
        &app.transcript.cells[0],
        Cell::Notice { text } if text.contains("no credentials found")
    ));
    let screen = draw(&mut app, 100, 20);
    assert!(
        screen.contains("no credentials found"),
        "warning must render:\n{screen}"
    );
    // Typing and submitting still works (the prompt is queued).
    type_text(&mut app, "hello");
    press(&mut app, Key::Enter);
    assert!(app.pending_prompt.is_some(), "session accepts prompts");
}

#[test]
fn review_command_queues_a_bundled_prompt_or_notices_errors() {
    let mut app = test_app();
    // A reviewable path: the built bundle is queued as the prompt.
    command(&mut app, "/review code.rs");
    let args = match app.take_requests().pop() {
        Some(Request::Review(args)) => args,
        _ => panic!("a review is asked for"),
    };
    assert_eq!(args, vec!["code.rs"]);
    let gathered = Gathered::Items(vec![ReviewItem::File {
        path: "/tmp/code.rs".into(),
        content: Some("fn main() {}".into()),
    }]);
    app.review_built(build_review_prompt("/tmp", &args, &gathered));
    let prompt = app.take_pending_prompt().expect("review prompt queued");
    assert!(prompt.contains("=== file: code.rs ==="));
    assert!(prompt.contains("fn main() {}"));

    // A bad path: error notice, nothing queued or sent.
    command(&mut app, "/review missing.rs");
    let args = match app.take_requests().pop() {
        Some(Request::Review(args)) => args,
        _ => panic!("a review is asked for"),
    };
    let gone = Gathered::Items(vec![ReviewItem::Missing]);
    app.review_built(build_review_prompt("/tmp", &args, &gone));
    assert!(app.pending_prompt.is_none());
    assert!(noticed(&app, &["path not found: missing.rs"]));
}

#[test]
fn footer_shows_the_current_session_id() {
    let mut app = test_app();
    let screen = draw(&mut app, 100, 20);
    assert!(
        screen.contains("cupel-test"),
        "session id missing from footer:\n{screen}"
    );
}

#[test]
fn session_id_command_lists_this_projects_sessions() {
    let mut app = app_with(Some("/home"), "cupel-current", Vec::new(), None);
    command(&mut app, "/session-id");
    assert!(matches!(app.take_requests().pop(), Some(Request::ListSessions)));
    app.sessions_listed(&Some(vec![SessionSummary {
        id: "cupel-old".into(),
        started_at: 1_000,
        message_count: 1,
        model: "test-model".into(),
        label: "find the bug".into(),
    }]));
    assert!(noticed(
        &app,
        &["current session: cupel-current", "cupel-old", "find the bug", "1970-01-01"]
    ));
}

#[test]
fn hot_reload_command_sets_the_pending_target() {
    let mut app = test_app();
    command(&mut app, "/hot-reload");
    assert!(matches!(app.pending_reload, Some(ReloadTarget::Current)));

    let mut app = test_app();
    command(&mut app, "/hot-reload cupel-42");
    match &app.pending_reload {
        Some(ReloadTarget::Resume(id)) => assert_eq!(id, "cupel-42"),
        _ => panic!("a session is named"),
    }
}

fn ingredients(context_files: Vec<ContextFile>, settings: Settings) -> Ingredients {
    Ingredients {
        system_prompt: "fresh".into(),
        tools: Vec::new(),
        templates: Vec::new(),
        models: builtin_models(),
        settings,
        context_files,
        logged_in: false,
    }
}

fn rules(content: &str) -> Vec<ContextFile> {
    vec![ContextFile { path: "/home/AGENTS.md".into(), content: content.into() }]
}

fn user_text(m: &AgentMessage) -> &str {
    match m {
        AgentMessage::Llm(Message::User(u)) => match &u.content {
            UserBody::Text(t) => t.as_str(),
            UserBody::Blocks(_) => panic!("expected text"),
        },
        _ => panic!("expected a user message"),
    }
}

#[test]
fn hot_reload_current_appends_only_the_agents_delta() {
    // Ten rules: far enough apart that the diff's 2-line context radius
    // provably excludes the untouched start of the file.
    let original: String = (1..=10).map(|i| format!("RULE {i}\n")).collect();
    let history = vec![AgentMessage::user_text("earlier prompt".into(), 0)];
    let mut app = app_with(Some("/home"), "cupel-current", history, None);
    // The session-start baseline the delta will diff against.
    app.meta.context_files = rules(&original);

    // Edit ONE rule mid-session.
    let edited = original.replace("RULE 6", "RULE 6 (amended)");
    let (app, update) =
        app.reload_in_place(ingredients(rules(&edited), Settings::default()), &Vec::new(), 5);

    // The session CONTINUES: same id, history intact.
    assert_eq!(app.recorder.session_id(), "cupel-current");
    let messages = &app.agent.state().messages;
    assert_eq!(messages.len(), 2, "history + appended delta");
    // The system prompt was NOT rebuilt.
    assert!(!app.agent.state().system_prompt.contains("fresh"));
    // The appended message is the DELTA, not the whole file: the
    // changed line travels, distant unchanged lines do not.
    let delta = user_text(&messages[1]).to_string();
    assert_eq!(delta, user_text(&update.expect("an update to record")));
    assert!(delta.starts_with(CONTEXT_UPDATE_MARKER));
    assert!(delta.contains("+RULE 6 (amended)"), "{delta}");
    assert!(delta.contains("-RULE 6\n"), "{delta}");
    assert!(
        !delta.contains("RULE 1\n"),
        "far lines must not travel: {delta}"
    );
    assert!(noticed(&app, &["reloaded in place"]), "in-place notice shown");

    // Reload again with NO further edits: nothing new is appended.
    let (app, update) =
        app.reload_in_place(ingredients(rules(&edited), Settings::default()), &Vec::new(), 6);
    assert!(update.is_none());
    assert_eq!(app.agent.state().messages.len(), 2, "no duplicate delta");
    assert!(noticed(&app, &["no context file changes"]));
}

#[test]
fn context_deltas_name_files_that_come_and_go() {
    assert_eq!(context_delta(&rules("a\n"), &rules("a\n")), None);
    let added = context_delta(&Vec::new(), &rules("a\n")).expect("a new file");
    assert!(added.contains("/home/AGENTS.md"), "{added}");
    let removed = context_delta(&rules("a\n"), &Vec::new()).expect("a file less");
    assert!(removed.contains("/home/AGENTS.md"), "{removed}");
}

#[test]
fn hot_reload_resumes_a_session_by_id_and_rejects_unknown_ids() {
    let mut app = app_with(Some("/home"), "cupel-current", Vec::new(), None);
    // Unknown id: the session goes on, with an error notice.
    app.resume_refused("cupel-nope", None);
    assert_eq!(app.recorder.session_id(), "cupel-current");
    assert!(noticed(&app, &["no session named cupel-nope"]));

    // Known id: history seeded, cells replayed, same id continued.
    let app = app.reload_resume(
        ingredients(Vec::new(), Settings::default()),
        "cupel-old".into(),
        vec![AgentMessage::user_text("old prompt".into(), 0)],
        &Vec::new(),
        7,
    );
    assert_eq!(app.recorder.session_id(), "cupel-old");
    assert_eq!(app.agent.state().messages.len(), 1);
    assert!(app.transcript.cells.iter().any(|c| matches!(
        c,
        Cell::User { text } if text == "old prompt"
    )));
}

fn tool_cell(name: &str, call: &str, result: Option<&str>) -> Cell {
    Cell::Tool {
        id: "call_1".into(),
        name: name.into(),
        call: call.into(),
        expanded: false,
        started_at: None,
        live: None,
        result: result.map(|text| ToolOutcome {
            text: text.into(),
            is_error: false,
            diff: None,
            took: None,
        }),
    }
}

#[test]
fn renders_transcript_input_and_footer() {
    let mut app = test_app();
    app.transcript.cells.push(Cell::User {
        text: "find the bug".into(),
    });
    app.transcript.cells.push(tool_cell(
        "grep",
        "[grep] {\"pattern\":\"bug\"}",
        Some("src/main.rs:1: bug"),
    ));
    app.input.insert_str("next question");

    let screen = draw(&mut app, 80, 20);
    assert!(
        screen.contains("> find the bug"),
        "user cell missing:\n{screen}"
    );
    assert!(screen.contains("[grep]"), "tool cell missing:\n{screen}");
    assert!(
        screen.contains("src/main.rs:1: bug"),
        "tool result missing:\n{screen}"
    );
    assert!(screen.contains("next question"), "input missing:\n{screen}");
    assert!(screen.contains("Test Model"), "footer missing:\n{screen}");
}

#[test]
fn typing_updates_input_and_enter_when_empty_is_a_noop() {
    let mut app = test_app();
    press(&mut app, Key::Enter);
    assert!(app.pending_prompt.is_none());
    type_text(&mut app, "hi");
    assert_eq!(app.input.text(), "hi");

    // Alt+Enter inserts a newline instead of submitting.
    event(&mut app, TerminalEvent::Key { key: Key::Enter, ctrl: false, alt: true });
    assert_eq!(app.input.text(), "hi\n");
}

fn fifty_lines(app: &mut App) {
    for i in 0..50 {
        app.transcript.cells.push(Cell::Assistant {
            text: format!("line {i}"),
        });
    }
}

#[test]
fn scroll_clamps_to_content() {
    let mut app = test_app();
    fifty_lines(&mut app);
    // Render once so the app learns the viewport geometry.
    let _ = draw(&mut app, 40, 10);
    // Scroll way past the top: must clamp, not underflow or overshoot.
    for _ in 0..100 {
        press(&mut app, Key::PageUp);
    }
    let _ = draw(&mut app, 40, 10);
    assert!(app.scroll_from_bottom <= app.shown.total_lines);
    // And back down to following.
    for _ in 0..100 {
        press(&mut app, Key::PageDown);
    }
    assert_eq!(app.scroll_from_bottom, 0);
}

#[test]
fn ctrl_c_quits_when_idle() {
    let mut app = test_app();
    ctrl(&mut app, 'c');
    assert!(app.should_quit);
}

#[test]
fn typing_at_query_renders_popup_above_input() {
    let mut app = test_app();
    type_text(&mut app, "@ma");
    assert!(app.autocomplete.is_open());
    let screen = draw(&mut app, 80, 20);
    assert!(screen.contains("src/main.rs"), "popup missing:\n{screen}");
}

#[test]
fn enter_with_popup_open_inserts_instead_of_submitting() {
    let mut app = test_app();
    type_text(&mut app, "@ma");
    press(&mut app, Key::Enter);
    // The reference is now in the buffer; nothing was submitted (no run
    // started, no user cell in the transcript).
    assert_eq!(app.input.text(), "@src/main.rs ");
    assert!(!app.is_running());
    assert!(app.transcript.cells.is_empty());
    // The completed file token closed the popup (trailing space).
    assert!(!app.autocomplete.is_open());
}

#[test]
fn esc_with_popup_open_closes_popup_not_the_app() {
    let mut app = test_app();
    type_text(&mut app, "@ma");
    assert!(app.autocomplete.is_open());
    press(&mut app, Key::Esc);
    assert!(!app.autocomplete.is_open());
    assert!(!app.should_quit);
    let screen = draw(&mut app, 80, 20);
    assert!(
        !screen.contains("src/main.rs"),
        "popup should be gone:\n{screen}"
    );
}

#[test]
fn slash_help_produces_a_local_notice_without_prompting() {
    let mut app = test_app();
    command(&mut app, "/help");
    // Handled locally: no run started, a Notice cell lists the commands.
    assert!(!app.is_running());
    assert!(app.pending_prompt.is_none());
    assert!(noticed(&app, &["/model", "/usage"]), "expected /help notice");
}

#[test]
fn slash_quit_quits_and_slash_typing_opens_command_popup() {
    let mut app = test_app();
    type_text(&mut app, "/he");
    assert!(app.autocomplete.is_open(), "command popup should open");
    let screen = draw(&mut app, 80, 20);
    assert!(screen.contains("help"), "popup missing:\n{screen}");
    // Accept via Enter: inserts, does not submit.
    press(&mut app, Key::Enter);
    assert_eq!(app.input.text(), "/help ");

    // Now /quit end-to-end.
    let mut app = test_app();
    command(&mut app, "/quit");
    assert!(app.should_quit);
}

#[test]
fn visual_cursor_matches_word_wrapping() {
    // width 10 word-wraps "hello world" as ["hello ", "world"]. A plain
    // column-wrap computation would report (1, 1) here - the regression
    // this test pins down.
    assert_eq!(visual_cursor("hello world", 11, 10), (1, 5));
    // On the chunk boundary (after "hello "): inserting there joins the
    // word "world", so the cursor belongs at the start of line 1.
    assert_eq!(visual_cursor("hello world", 6, 10), (1, 0));
    // Mid-first-chunk stays on line 0.
    assert_eq!(visual_cursor("hello world", 3, 10), (0, 3));
}

#[test]
fn visual_cursor_handles_hard_splits_newlines_and_wide_chars() {
    // A single long word hard-splits by columns: "abcd" / "efgh" / "ij".
    assert_eq!(visual_cursor("abcdefghij", 10, 4), (2, 2));
    // Explicit newlines start fresh visual lines.
    assert_eq!(visual_cursor("ab\nxyz", 6, 4), (1, 3));
    assert_eq!(visual_cursor("ab\n", 3, 4), (1, 0));
    // CJK chars are 2 columns wide: width 4 fits two, the third wraps.
    assert_eq!(visual_cursor("日本語", 3, 4), (1, 2));
    // After the second char = boundary = start of the wrapped chunk.
    assert_eq!(visual_cursor("日本語", 2, 4), (1, 0));
    // Empty buffer.
    assert_eq!(visual_cursor("", 0, 4), (0, 0));
}

#[test]
fn input_viewport_follows_the_cursor_past_the_height_cap() {
    let mut app = test_app();
    // 8 explicit lines; the input box caps at 5 visible rows, so the
    // viewport must scroll to keep the cursor's line (the last one) on
    // screen.
    app.input
        .insert_str("line0\nline1\nline2\nline3\nline4\nline5\nline6\nline7");
    let screen = draw(&mut app, 80, 20);
    assert!(
        screen.contains("line7"),
        "cursor line must be visible:\n{screen}"
    );
    assert!(
        !screen.contains("line0"),
        "scrolled-out line must be hidden:\n{screen}"
    );
}

#[test]
fn resumed_history_replays_into_transcript_cells() {
    let assistant = AssistantMessage {
        content: vec![
            AssistantContent::Text("the answer".into()),
            AssistantContent::ToolCall(ToolCall {
                id: "call_1".into(),
                name: "grep".into(),
                arguments: "{\"pattern\":\"bug\"}".into(),
            }),
        ],
        api: "mock".into(),
        provider: "mock".into(),
        model: "mock".into(),
        response_model: None,
        response_id: None,
        usage: Usage::default(),
        stop_reason: StopReason::Stop,
        error_message: None,
        timestamp: 0,
    };
    let tool_result = ToolResultMessage {
        tool_call_id: "call_1".into(),
        tool_name: "grep".into(),
        content: Arc::new(vec![Content::Text("src/main.rs:1: bug".into())]),
        details: None,
        is_error: false,
        timestamp: 0,
    };
    let history = vec![
        AgentMessage::user_text("old question".into(), 0),
        AgentMessage::Llm(Message::Assistant(Arc::new(assistant))),
        AgentMessage::Llm(Message::ToolResult(Arc::new(tool_result))),
    ];
    let mut app = app_with(None, "cupel-resumed", history, None);

    let screen = draw(&mut app, 120, 24);
    assert!(
        screen.contains("resumed session cupel-resumed (3 messages)"),
        "resume notice missing:\n{screen}"
    );
    assert!(screen.contains("old question"), "user cell:\n{screen}");
    assert!(screen.contains("the answer"), "assistant cell:\n{screen}");
    assert!(
        screen.contains("src/main.rs:1: bug"),
        "tool result attached:\n{screen}"
    );
}

#[test]
fn ctrl_y_toggles_selection_mode_and_updates_the_footer() {
    let mut app = test_app();
    assert!(app.mouse_captured);
    let screen = draw(&mut app, 200, 20);
    assert!(screen.contains("ctrl+o copy"), "hint missing:\n{screen}");
    assert!(screen.contains("ctrl+y select"), "hint missing:\n{screen}");

    // Ctrl+Y only REQUESTS the toggle (the event loop owns the
    // terminal); applying flips state and posts a notice.
    ctrl(&mut app, 'y');
    assert!(app.mouse_toggle_requested);
    assert!(!app.apply_mouse_toggle(), "capture now off");
    assert!(!app.mouse_toggle_requested);

    let screen = draw(&mut app, 200, 20);
    assert!(screen.contains("SELECTION MODE"), "hint:\n{screen}");
    assert!(
        screen.contains("selection mode - select and copy"),
        "notice cell missing:\n{screen}"
    );
    // And back on.
    assert!(app.apply_mouse_toggle(), "capture on again");
}

#[test]
fn multi_line_paste_inserts_without_submitting() {
    let mut app = test_app();
    // Bracketed paste delivers the whole clipboard as ONE event; the
    // embedded newline must become buffer content, not an Enter press.
    event(&mut app, TerminalEvent::Paste("line one\nline two".to_string()));
    assert_eq!(app.input.text(), "line one\nline two");
    assert!(app.pending_prompt.is_none(), "paste must not submit");
    assert!(app.transcript.cells.is_empty());
}

#[test]
fn mouse_wheel_scrolls_the_transcript() {
    let mut app = test_app();
    fifty_lines(&mut app);
    // Render once so the app learns the viewport geometry.
    let _ = draw(&mut app, 40, 10);

    event(&mut app, TerminalEvent::WheelUp);
    assert_eq!(app.scroll_from_bottom, 3, "one notch = three lines");
    event(&mut app, TerminalEvent::WheelDown);
    event(&mut app, TerminalEvent::WheelDown); // clamps at 0
    assert_eq!(app.scroll_from_bottom, 0);
}

#[test]
fn model_and_thinking_arguments_autocomplete_end_to_end() {
    let mut app = test_app();
    // Accepting `/model ` from the command popup rolls straight into
    // the model list - no extra keystroke needed.
    type_text(&mut app, "/mod");
    press(&mut app, Key::Tab);
    assert_eq!(app.input.text(), "/model ");
    assert!(app.autocomplete.is_open(), "model list should open");
    let screen = draw(&mut app, 100, 24);
    assert!(
        screen.contains("sonnet-5  (anthropic)"),
        "catalog rows missing:\n{screen}"
    );

    // Narrow to one model, accept, and the command is ready to submit.
    type_text(&mut app, "haiku");
    press(&mut app, Key::Enter);
    assert_eq!(app.input.text(), "/model haiku-4-5 ");
    assert!(app.pending_prompt.is_none(), "accept must not submit");

    // Same flow for /thinking.
    let mut app = test_app();
    type_text(&mut app, "/thinking of");
    let (rows, at) = app.autocomplete.visible().expect("levels");
    assert_eq!(rows[at].value, "off");
    press(&mut app, Key::Enter);
    assert_eq!(app.input.text(), "/thinking off ");
    // The settled argument closed the popup; Enter now submits.
    assert!(!app.autocomplete.is_open());
}

#[test]
fn provider_command_lists_switches_and_takes_a_session_key() {
    let mut app = test_app();
    // `/provider ` opens the provider list via argument autocomplete.
    type_text(&mut app, "/provider ");
    let (rows, _) = app.autocomplete.visible().expect("provider rows");
    let values: Vec<&str> = rows.iter().map(|r| r.value.as_str()).collect();
    assert!(values.contains(&"anthropic"), "{values:?}");
    assert!(values.contains(&"fireworks"), "{values:?}");

    // Bare /provider prints the list with credential status.
    let mut app = test_app();
    command(&mut app, "/provider");
    assert!(
        noticed(&app, &["anthropic", "amazon-bedrock"]),
        "expected provider listing notice"
    );

    // Switching with an explicit key: session key wins, no echo of the
    // secret, meta + footer follow the new provider's default model.
    let mut app = test_app();
    command(&mut app, "/provider fireworks fw-secret-123");
    assert_eq!(app.meta.provider, "fireworks");
    assert!(
        noticed(&app, &["provider switched to fireworks", "key entered this session"]),
        "expected switch notice"
    );
    assert!(!noticed(&app, &["fw-secret-123"]), "without the secret");

    // Unknown provider: a helpful error, no state change.
    type_text(&mut app, "/provider nope");
    press(&mut app, Key::Enter);
    assert_eq!(app.meta.provider, "fireworks", "unchanged");
    assert!(noticed(&app, &["unknown provider: nope"]));
}

#[test]
fn up_down_with_popup_open_move_selection_not_history() {
    let mut app = test_app();
    app.input.insert_str("old prompt");
    let _ = app.input.submit();
    type_text(&mut app, "@");
    assert!(app.autocomplete.is_open());
    let buffer_before = app.input.text().to_string();
    press(&mut app, Key::Down);
    press(&mut app, Key::Up);
    assert_eq!(app.input.text(), buffer_before, "history must not fire");
    assert!(app.autocomplete.is_open());
}

/// Saves the keys that were entered into a file, as the program does.
fn save_keys(app: &mut App, file: &mut Option<Settings>, broken: bool) {
    for request in app.take_requests() {
        if let Request::SaveKey { provider, key } = request {
            let read = if broken {
                FileRead::Malformed("expected value".into())
            } else {
                match file.take() {
                    Some(s) => FileRead::Parsed(s),
                    None => FileRead::Missing,
                }
            };
            match save_provider_key(app.meta.home.clone(), read, &provider, &key) {
                Ok((path, settings)) => {
                    *file = Some(settings);
                    app.key_saved(&provider, &key, Ok(path));
                }
                Err(e) => app.key_saved(&provider, &key, Err(e)),
            }
        }
    }
}

#[test]
fn provider_key_is_auto_saved_to_settings() {
    let mut app = app_with(Some("/home"), "cupel-save", Vec::new(), None);
    let mut file = None;
    command(&mut app, "/provider fireworks fw-secret-123");
    save_keys(&mut app, &mut file, false);

    // In the file, and holding the key.
    assert_eq!(file.expect("saved").api_key("fireworks"), Some("fw-secret-123"));
    // The in-memory mirror agrees (the listing reads this, not disk).
    assert_eq!(
        app.credentials.stored.api_key("fireworks"),
        Some("fw-secret-123")
    );
    // The notice names the file but never the secret.
    assert!(noticed(&app, &["key saved to", "/home/settings.json"]));
    assert!(!noticed(&app, &["fw-secret-123"]), "a notice shows the secret");
}

#[test]
fn provider_save_failure_keeps_the_session_key() {
    let mut app = app_with(Some("/home"), "cupel-save-broken", Vec::new(), None);
    let mut file = None;
    command(&mut app, "/provider fireworks fw-secret-123");
    save_keys(&mut app, &mut file, true);

    // The malformed file was refused, not clobbered...
    assert!(file.is_none());
    // ...the key still works for this session, and the switch happened.
    assert_eq!(app.credentials.session.api_key("fireworks"), Some("fw-secret-123"));
    assert_eq!(app.meta.provider, "fireworks");
    assert_eq!(app.agent.api_key(), Some("fw-secret-123"));
    assert!(noticed(&app, &["key not saved"]), "expected the not-saved warning");
    assert!(!noticed(&app, &["fw-secret-123"]));
}

/// A key-requiring model on a provider id with no variable of its own.
fn acme_model() -> Arc<Model> {
    model("acme-1", "acme")
}

#[test]
fn provider_listing_shows_settings_state() {
    let mut app = test_app();
    app.meta.models.push(acme_model());
    app.credentials.stored.set_key("acme", "k-1");
    command(&mut app, "/provider");
    assert!(
        noticed(&app, &["acme", "key in settings.json"]),
        "expected the settings-backed status line"
    );
}

#[test]
fn custom_provider_now_accepts_a_key() {
    let mut app = test_app();
    app.meta.models.push(acme_model());
    command(&mut app, "/provider acme secret-1");
    let mut file = None;
    save_keys(&mut app, &mut file, false);
    // Accepted into session memory; without a home the save fails soft.
    assert_eq!(app.credentials.session.api_key("acme"), Some("secret-1"));
    assert!(
        !noticed(&app, &["does not take an API key"]),
        "custom providers must accept keys now"
    );

    // Bedrock still refuses one.
    command(&mut app, "/provider amazon-bedrock some-key");
    assert!(noticed(&app, &["does not take an API key"]), "bedrock has no key slot");
}

#[test]
fn provider_switch_without_key_never_writes_settings() {
    let mut app = app_with(Some("/home"), "cupel-nokey", Vec::new(), None);
    command(&mut app, "/provider fireworks");
    assert_eq!(app.meta.provider, "fireworks");
    // Proof that env/no-key paths can never persist anything.
    assert!(app.take_requests().is_empty());
}

#[test]
fn hot_reload_picks_up_hand_edited_settings() {
    let mut app = app_with(Some("/home"), "cupel-reload-settings", Vec::new(), None);
    app.agent.set_model(acme_model());
    app.meta.models.push(acme_model());

    // The file was edited by hand while cupel ran.
    let mut edited = Settings::default();
    edited.set_key("acme", "from-disk");
    let mut fresh = ingredients(Vec::new(), edited);
    fresh.models.push(acme_model());
    let (app, _) = app.reload_in_place(fresh, &Vec::new(), 1);
    assert_eq!(app.agent.api_key(), Some("from-disk"));
    assert_eq!(app.credentials.stored.api_key("acme"), Some("from-disk"));
}

#[test]
fn start_run_leads_with_the_task_and_records_it() {
    let mut app = app_with(Some("/home"), "cupel-task", Vec::new(), None);
    let (_, events, _) = app.start_run("find the bug", 3).expect("not busy");
    assert!(
        matches!(app.transcript.cells.first(), Some(Cell::User { text }) if text == "find the bug"),
        "the task must lead the turn"
    );
    let screen = draw(&mut app, 80, 20);
    assert!(screen.contains("> find the bug"), "{screen}");
    assert!(screen.contains(" working "), "{screen}");

    // The prompt is announced as a message; it is recorded, and not shown
    // a second time.
    let mut recorded = 0;
    for e in &events {
        if app.on_agent_event(e, 3) {
            recorded += 1;
        }
    }
    let shown = app
        .transcript
        .cells
        .iter()
        .filter(|c| matches!(c, Cell::User { .. }))
        .count();
    assert_eq!(shown, 1);
    assert!(recorded <= 1);
    app.finish_run();
    assert!(!app.is_running());
}

#[test]
fn summaries_are_cut_to_their_limit() {
    assert_eq!(compact("abcdef", 6), "abcdef");
    assert_eq!(compact("abcdef", 5), "ab...");
    assert_eq!(compact("abcdef", 3), "...");
    assert_eq!(compact("abc", 1), "a");
    assert_eq!(compact("äöü", 2), "äö");
    assert_eq!(compact("abc", 0), "");
}

#[test]
fn compaction_leaves_the_transcript_alone() {
    let mut app = test_app();
    let started = AgentEvent::CompactionStart { reason: CompactionReason::Threshold };
    assert!(!app.on_agent_event(&started, 0));
    let ended = AgentEvent::CompactionEnd {
        tokens_before: 9000,
        tokens_after: 2000,
        error: None,
        summary: Some("so far".into()),
    };
    assert!(!app.on_agent_event(&ended, 0));
    let message = AgentMessage::user_text("steered".into(), 1);
    assert!(app.on_agent_event(&AgentEvent::MessageEnd { message }, 0));
}

#[test]
fn run_end_promotes_the_final_answer() {
    let mut app = test_app();
    app.on_agent_event(
        &AgentEvent::MessageUpdate {
            event: AssistantMessageEvent::TextDelta("final words".into()),
        },
        0,
    );
    app.on_agent_event(&AgentEvent::AgentEnd { messages: Vec::new() }, 0);
    assert!(
        matches!(app.transcript.cells.last(), Some(Cell::Answer { text }) if text == "final words")
    );
}

#[test]
fn footer_shows_the_thinking_level_for_reasoning_models() {
    let mut app = test_app();
    // Without a level: "thinking off".
    let screen = draw(&mut app, 120, 20);
    assert!(screen.contains("thinking off"), "{screen}");

    app.agent.set_thinking_level(Some(ThinkingLevel::Medium));
    let screen = draw(&mut app, 120, 20);
    assert!(screen.contains("thinking medium"), "{screen}");
    assert!(!screen.contains("thinking off"), "{screen}");
}

#[test]
fn tools_pane_appears_with_the_first_tool_call() {
    let mut app = test_app();
    app.transcript.cells.push(Cell::Assistant {
        text: "chatting".into(),
    });
    let screen = draw(&mut app, 80, 20);
    assert!(screen.contains(" conversation "), "{screen}");
    assert!(
        !screen.contains(" tools "),
        "no tool traffic yet:\n{screen}"
    );

    app.transcript.cells.push(tool_cell("grep", "[grep] {}", None));
    let screen = draw(&mut app, 80, 20);
    assert!(screen.contains(" tools "), "pane must appear:\n{screen}");
    assert!(screen.contains("[grep]"), "{screen}");
}

#[test]
fn band_rule_ties_reasoning_and_tool_rows_together() {
    let mut app = test_app();
    app.transcript.cells.push(Cell::User {
        text: "task".into(),
    });
    app.transcript.append_thinking("let me look");
    app.transcript.cells.push(tool_cell("read", "[read] {}", None));
    let screen = draw(&mut app, 90, 20);
    // The SAME band number must sit on ONE screen row in both panes -
    // that shared row is the reasoning->tool association.
    let banded = screen.lines().any(|row| row.matches("─ 1 ").count() == 2);
    assert!(banded, "band number missing or misaligned:\n{screen}");
}

#[test]
fn scrollbar_appears_once_content_overflows() {
    let mut app = test_app();
    let screen = draw(&mut app, 40, 12);
    assert!(
        !screen.contains('█'),
        "an empty transcript needs no scrollbar:\n{screen}"
    );
    for i in 0..40 {
        app.transcript.cells.push(Cell::Assistant {
            text: format!("line {i}"),
        });
    }
    let screen = draw(&mut app, 40, 12);
    assert!(
        screen.contains('█'),
        "overflowing content must show the thumb:\n{screen}"
    );
}

#[test]
fn click_selects_a_block_and_ctrl_o_copies_it() {
    let mut app = test_app();
    app.transcript.cells.push(Cell::User {
        text: "the task".into(),
    });
    app.transcript.append_thinking("private reasoning");
    app.transcript.append_assistant("the answer");
    let _ = draw(&mut app, 80, 24); // teach the app its geometry

    // Resolve the thinking cell's screen row through the same map the
    // click handler uses - the test then exercises the real geometry
    // math instead of hardcoding a row.
    let line = app
        .shown
        .line_cells
        .iter()
        .position(|cell| *cell == Some(1))
        .expect("thinking line mapped");
    let row = app.shown.chat.y + (line - app.shown.top_line) as u16;
    let column = app.shown.chat.x + 1;
    event(&mut app, TerminalEvent::Click { column, row });
    assert_eq!(app.selected_cell, Some(1));

    // The selected block renders with the highlight background.
    assert_eq!(style_of(&mut app, "private reasoning").bg, selected().bg);

    // Ctrl+O queues the RAW text and confirms with a notice.
    ctrl(&mut app, 'o');
    assert_eq!(app.pending_copy.as_deref(), Some("private reasoning"));
    assert!(noticed(&app, &["clipboard"]));

    // Esc drops the selection.
    press(&mut app, Key::Esc);
    assert_eq!(app.selected_cell, None);
}

#[test]
fn ctrl_o_with_nothing_selected_copies_the_latest_answer() {
    let mut app = test_app();
    app.transcript.cells.push(Cell::Answer {
        text: "first".into(),
    });
    app.transcript.cells.push(Cell::Answer {
        text: "final answer".into(),
    });
    ctrl(&mut app, 'o');
    assert_eq!(app.pending_copy.as_deref(), Some("final answer"));

    // An empty transcript: a helpful notice, nothing queued.
    let mut app = test_app();
    ctrl(&mut app, 'o');
    assert!(app.pending_copy.is_none());
    assert!(noticed(&app, &["nothing to copy"]));
}

#[test]
fn markdown_reaches_the_screen_and_plain_answers_stay_magenta() {
    let mut app = test_app();
    app.transcript.cells.push(Cell::Answer {
        text: "# Fazit\nplain magenta with **weight**".into(),
    });
    let screen = draw(&mut app, 80, 24);
    assert!(screen.contains("Fazit"), "{screen}");
    assert!(!screen.contains("# Fazit"), "hashes are chrome: {screen}");
    assert!(!screen.contains("**"), "delimiters are consumed: {screen}");
    // The invariant: unmarked text keeps the cell identity...
    assert_eq!(style_of(&mut app, "plain magenta").fg, Some(Color::Magenta));
    // ...and accents COMBINE with it instead of replacing it.
    let weight = style_of(&mut app, "weight");
    assert_eq!(weight.fg, Some(Color::Magenta));
    assert!(weight.bold);
}

#[test]
fn prompts_wait_while_a_run_goes_on() {
    let mut app = test_app();
    app.start_run("first", 0);
    type_text(&mut app, "second");
    press(&mut app, Key::Enter);
    assert!(app.pending_prompt.is_none());
    assert!(noticed(&app, &["queued: second"]));
    match app.take_requests().pop() {
        Some(Request::Steer(text)) => assert_eq!(text, "second"),
        _ => panic!("the prompt steers the run"),
    }
    press(&mut app, Key::Esc);
    assert!(matches!(app.take_requests().pop(), Some(Request::Abort)));
}

#[test]
fn clearing_waits_for_the_run() {
    let mut app = test_app();
    app.start_run("first", 0);
    command(&mut app, "/new");
    assert!(app
        .transcript
        .cells
        .iter()
        .any(|c| matches!(c, Cell::User { text } if text == "first")));
    app.finish_run();
    command(&mut app, "/new");
    assert!(!app.transcript.cells.iter().any(|c| matches!(c, Cell::User { .. })));
}

#[test]
fn logins_are_asked_for_and_reported() {
    let mut app = test_app();
    command(&mut app, "/login openai-codex");
    assert!(matches!(app.take_requests().pop(), Some(Request::LoginBrowser)));
    command(&mut app, "/login openai-codex device");
    assert!(matches!(app.take_requests().pop(), Some(Request::LoginDevice)));
    app.on_login_event(cupel::login::LoginEvent::Notice("open the page".into()));
    assert!(noticed(&app, &["open the page"]));
    app.on_login_event(cupel::login::LoginEvent::Done(Ok("logged in as acc-1".into())));
    assert!(noticed(&app, &["acc-1"]));
    command(&mut app, "/logout openai-codex");
    match app.take_requests().pop() {
        Some(Request::Logout(p)) => assert_eq!(p, "openai-codex"),
        _ => panic!("a logout is asked for"),
    }
    app.logged_out(Err(SaveError::NoHome));
}

#[test]
fn entered_keys_win_over_the_environment_and_the_file() {
    let mut c = credentials();
    c.stored.set_key("openai", "from-file");
    assert_eq!(c.resolve("openai"), Some("from-file".to_string()));
    c.env.push(("OPENAI_API_KEY".to_string(), "from-env".to_string()));
    assert_eq!(c.resolve("openai"), Some("from-env".to_string()));
    c.enter("openai", "typed");
    assert_eq!(c.resolve("openai"), Some("typed".to_string()));
    let models = builtin_models();
    assert!(!c.status(&models, "openai").contains("typed"));
    assert!(!c.source(&models, "openai").contains("typed"));
}
