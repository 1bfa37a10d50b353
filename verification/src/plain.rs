//! Plain mode: a line-based prompt on a terminal, or one prompt from a
//! pipe.
//!
//! It writes unstyled text and manages no screen, so that its output can be
//! captured.

use vstd::prelude::*;

use crate::commands::{
    builtin_commands, expand_prompt_template, parse_command_args, PromptTemplate, TemplateView,
    BUILTIN_COUNT,
};
use crate::json::json_text_field;
use crate::messages::{
    text_of, usage_words, AgentMessage, AgentToolResult, AssistantMessage, Message, StopReason, Usage,
};
use crate::notices::{compaction_ended, retry_notice};
use crate::text::{
    chars_of, concat2, concat3, decimal_text, push_range, same_str, slice, split_head, split_lines, to_text,
};
use crate::types::{AgentEvent, AssistantMessageEvent};
use crate::{commands, json, messages, notices, resources, text};

verus! {

// ---------------------------------------------------------------------------
// Commands
// ---------------------------------------------------------------------------

/// What plain mode does with a slash command.
#[derive(Debug, Clone, Copy, PartialEq, Eq, Structural)]
pub enum PlainCommand {
    Quit,
    Help,
    Review,
    /// Only the full interface has it.
    TuiOnly,
    /// It is no built-in: a template, or a prompt.
    Prompt,
}

/// Whether a name is that of a built-in command.
pub open spec fn is_builtin(name: Seq<char>) -> bool {
    exists|k: int| 0 <= k < BUILTIN_COUNT && #[trigger] commands::builtin_name(k) == name
}

/// What plain mode does with a slash command.
pub open spec fn command_of(name: Seq<char>) -> PlainCommand {
    if name == "quit"@ {
        PlainCommand::Quit
    } else if name == "help"@ {
        PlainCommand::Help
    } else if name == "review"@ {
        PlainCommand::Review
    } else if is_builtin(name) {
        PlainCommand::TuiOnly
    } else {
        PlainCommand::Prompt
    }
}

/// What plain mode does with a slash command.
pub fn plain_command(name: &str) -> (r: PlainCommand)
    ensures
        r == command_of(name@),
{
    if same_str(name, "quit") {
        return PlainCommand::Quit;
    }
    if same_str(name, "help") {
        return PlainCommand::Help;
    }
    if same_str(name, "review") {
        return PlainCommand::Review;
    }
    let list = builtin_commands();
    let mut i: usize = 0;
    while i < list.len()
        invariant
            i <= list@.len(),
            list@.len() == BUILTIN_COUNT,
            forall|k: int|
                0 <= k < BUILTIN_COUNT ==> (#[trigger] list@[k]).name@ == commands::builtin_name(k),
            forall|k: int| 0 <= k < i ==> #[trigger] commands::builtin_name(k) != name@,
            name@ != "quit"@,
            name@ != "help"@,
            name@ != "review"@,
        decreases list@.len() - i,
    {
        if same_str(list[i].name, name) {
            assert(commands::builtin_name(i as int) == name@);
            return PlainCommand::TuiOnly;
        }
        assert(commands::builtin_name(i as int) != name@);
        i += 1;
    }
    PlainCommand::Prompt
}

/// A command as the help lists it.
pub open spec fn help_line(name: Seq<char>, description: Seq<char>) -> Seq<char> {
    "  /"@ + name + "  - "@ + description + "\n"@
}

/// The first `n` built-in commands that plain mode has, as the help lists
/// them.
pub open spec fn builtin_help(n: int) -> Seq<char>
    decreases n,
{
    if n <= 0 {
        Seq::empty()
    } else if command_of(commands::builtin_name(n - 1)) != PlainCommand::TuiOnly {
        builtin_help(n - 1) + help_line(
            commands::builtin_name(n - 1),
            commands::builtin_description(n - 1),
        )
    } else {
        builtin_help(n - 1)
    }
}

/// The first `n` templates that can be reached, as the help lists them.
pub open spec fn template_help(list: Seq<TemplateView>, n: int) -> Seq<char>
    decreases n,
{
    if n <= 0 {
        Seq::empty()
    } else if command_of(list[n - 1].name) == PlainCommand::Prompt {
        template_help(list, n - 1) + help_line(list[n - 1].name, list[n - 1].description)
    } else {
        template_help(list, n - 1)
    }
}

fn push_help(out: &mut String, name: &str, description: &str)
    ensures
        final(out)@ == old(out)@ + help_line(name@, description@),
{
    let ghost before = out@;
    out.push_str("  /");
    out.push_str(name);
    out.push_str("  - ");
    out.push_str(description);
    out.push_str("\n");
    assert(out@ =~= before + help_line(name@, description@));
}

/// Lists the commands and templates that plain mode has.
pub fn help_text(templates: &Vec<PromptTemplate>) -> (r: String)
    ensures
        r@ == builtin_help(BUILTIN_COUNT as int) + template_help(
            commands::template_views(templates@),
            templates@.len() as int,
        ) + "\n"@,
{
    let list = builtin_commands();
    let mut out = String::new();
    let mut i: usize = 0;
    while i < list.len()
        invariant
            i <= list@.len(),
            list@.len() == BUILTIN_COUNT,
            forall|k: int|
                0 <= k < BUILTIN_COUNT ==> (#[trigger] list@[k]).name@ == commands::builtin_name(k)
                    && list@[k].description@ == commands::builtin_description(k),
            out@ == builtin_help(i as int),
        decreases list@.len() - i,
    {
        if plain_command(list[i].name) != PlainCommand::TuiOnly {
            push_help(&mut out, list[i].name, list[i].description);
        }
        i += 1;
    }
    let ghost head = out@;
    let ghost views = commands::template_views(templates@);
    let mut k: usize = 0;
    assert(out@ =~= head + template_help(views, 0));
    while k < templates.len()
        invariant
            k <= templates@.len(),
            views == commands::template_views(templates@),
            out@ == head + template_help(views, k as int),
        decreases templates@.len() - k,
    {
        assert(views[k as int] == templates@[k as int]@);
        let ghost before = out@;
        if plain_command(templates[k].name.as_str()) == PlainCommand::Prompt {
            push_help(&mut out, templates[k].name.as_str(), templates[k].description.as_str());
        }
        assert(out@ =~= head + template_help(views, k + 1));
        k += 1;
    }
    out.push_str("\n");
    out
}

/// What to do with a line of input.
#[derive(Debug)]
pub enum LineAction {
    /// Nothing: ask for the next line.
    Ignore,
    /// Leave.
    Quit,
    /// Write this, and ask for the next line.
    Print(String),
    /// Review what these arguments name.
    Review(Vec<String>),
    /// Send this to the agent.
    Prompt(String),
}

/// What to do with a line of input, in terms of texts.
pub enum LineActionView {
    Ignore,
    Quit,
    Print(Seq<char>),
    Review(Seq<Seq<char>>),
    Prompt(Seq<char>),
}

impl View for LineAction {
    type V = LineActionView;

    open spec fn view(&self) -> LineActionView {
        match self {
            LineAction::Ignore => LineActionView::Ignore,
            LineAction::Quit => LineActionView::Quit,
            LineAction::Print(s) => LineActionView::Print(s@),
            LineAction::Review(v) => LineActionView::Review(text::texts(v@)),
            LineAction::Prompt(s) => LineActionView::Prompt(s@),
        }
    }
}

/// What is said of a command that only the full interface has.
pub open spec fn tui_only_text(name: Seq<char>) -> Seq<char> {
    if name == "model"@ || name == "provider"@ {
        "/"@ + name + " is TUI-only; use --model <id> at startup in plain mode\n"@
    } else {
        "/"@ + name + " is TUI-only; use cupel in an interactive terminal\n"@
    }
}

/// What to do with a line of input.
pub open spec fn action_of(line: Seq<char>, templates: Seq<TemplateView>) -> LineActionView {
    let input = text::trim(line);
    if input.len() == 0 {
        LineActionView::Ignore
    } else if input == "exit"@ || input == "quit"@ {
        LineActionView::Quit
    } else if input[0] != '/' {
        LineActionView::Prompt(input)
    } else {
        let (name, args) = text::head_and_rest(input.skip(1));
        match command_of(name) {
            PlainCommand::Quit => LineActionView::Quit,
            PlainCommand::Help => LineActionView::Print(
                builtin_help(BUILTIN_COUNT as int) + template_help(
                    templates,
                    templates.len() as int,
                ) + "\n"@,
            ),
            PlainCommand::Review => LineActionView::Review(commands::args_of(args)),
            PlainCommand::TuiOnly => LineActionView::Print(tui_only_text(name)),
            PlainCommand::Prompt => match commands::expanded(input, templates) {
                Some(s) => LineActionView::Prompt(s),
                None => LineActionView::Prompt(input),
            },
        }
    }
}

/// Decides what to do with a line of input. Commands of the full interface
/// are refused, templates are expanded, and everything else is a prompt.
pub fn decide(line: &str, templates: &Vec<PromptTemplate>) -> (r: LineAction)
    ensures
        r@ == action_of(line@, commands::template_views(templates@)),
{
    let input = text::trimmed(&chars_of(line));
    if input.len() == 0 {
        return LineAction::Ignore;
    }
    if text::is_str(&input, "exit") || text::is_str(&input, "quit") {
        return LineAction::Quit;
    }
    let whole = to_text(&input);
    if input[0] != '/' {
        return LineAction::Prompt(whole);
    }
    let behind = slice(&input, 1, input.len());
    assert(behind@ =~= input@.skip(1));
    let (head, rest) = split_head(&behind);
    let name = to_text(&head);
    match plain_command(name.as_str()) {
        PlainCommand::Quit => LineAction::Quit,
        PlainCommand::Help => LineAction::Print(help_text(templates)),
        PlainCommand::Review => LineAction::Review(parse_command_args(to_text(&rest).as_str())),
        PlainCommand::TuiOnly => {
            let mut out = concat2("/", name.as_str());
            if same_str(name.as_str(), "model") || same_str(name.as_str(), "provider") {
                out.push_str(" is TUI-only; use --model <id> at startup in plain mode\n");
            } else {
                out.push_str(" is TUI-only; use cupel in an interactive terminal\n");
            }
            LineAction::Print(out)
        },
        PlainCommand::Prompt => match expand_prompt_template(whole.as_str(), templates) {
            Some(s) => LineAction::Prompt(s),
            None => LineAction::Prompt(whole),
        },
    }
}

// ---------------------------------------------------------------------------
// Input
// ---------------------------------------------------------------------------

/// Input that has arrived and was not read yet.
#[derive(Debug)]
pub struct PromptSource {
    pending: Vec<char>,
}

impl View for PromptSource {
    type V = Seq<char>;

    closed spec fn view(&self) -> Seq<char> {
        self.pending@
    }
}

/// How much of the pending input the next prompt takes: all of a pipe, or
/// one line with its end.
pub open spec fn prompt_end(s: Seq<char>, piped: bool) -> int {
    let at = text::find_from(s, '\n', 0);
    if piped || at >= s.len() {
        s.len() as int
    } else {
        at + 1
    }
}

impl PromptSource {
    /// Input that has arrived.
    pub fn new(s: &str) -> (r: PromptSource)
        ensures
            r@ == s@,
    {
        PromptSource { pending: chars_of(s) }
    }

    /// Adds input that arrives.
    pub fn feed(&mut self, s: &str)
        ensures
            final(self)@ == old(self)@ + s@,
    {
        let mut more = chars_of(s);
        self.pending.append(&mut more);
    }

    /// Reads the next prompt: everything at once from a pipe, one line from
    /// a terminal, and nothing at the end of the input.
    pub fn read_prompt(&mut self, piped: bool) -> (r: Option<String>)
        ensures
            resources::opt(r) == (if old(self)@.len() == 0 {
                None
            } else {
                Some(old(self)@.take(prompt_end(old(self)@, piped)))
            }),
            final(self)@ == old(self)@.skip(prompt_end(old(self)@, piped)),
    {
        let n: usize = self.pending.len();
        if n == 0 {
            assert(self@.skip(prompt_end(self@, piped)) =~= self@);
            return None;
        }
        let at: usize = text::find_char(&self.pending, '\n', 0);
        let end: usize = if piped || at >= n {
            n
        } else {
            at + 1
        };
        let line = text::string_of(&self.pending, 0, end);
        let rest = slice(&self.pending, end, n);
        assert(line@ =~= self@.take(prompt_end(self@, piped)));
        assert(rest@ =~= self@.skip(prompt_end(self@, piped)));
        self.pending = rest;
        Some(line)
    }
}

// ---------------------------------------------------------------------------
// Spacing
// ---------------------------------------------------------------------------

/// How many line ends a text ends with.
pub open spec fn trailing_newlines(s: Seq<char>) -> nat
    decreases s.len(),
{
    if s.len() > 0 && s.last() == '\n' {
        trailing_newlines(s.drop_last()) + 1
    } else {
        0
    }
}

/// At most two.
pub open spec fn at_most_two(n: nat) -> nat {
    if n < 2 {
        n
    } else {
        2
    }
}

/// How many line ends reasoning ends with, two at most, once a piece is
/// added to it.
pub open spec fn newlines_after(previous: nat, delta: Seq<char>) -> nat {
    if trailing_newlines(delta) == delta.len() {
        at_most_two(previous + delta.len())
    } else {
        at_most_two(trailing_newlines(delta))
    }
}

/// Counts the line ends that reasoning ends with, two at most, once a piece
/// is added to it.
pub fn reasoning_newlines(previous: usize, delta: &str) -> (r: usize)
    ensures
        r == newlines_after(previous as nat, delta@),
{
    let chars = chars_of(delta);
    let n: usize = chars.len();
    let mut left: usize = n;
    assert(chars@.take(n as int) =~= chars@);
    while left > 0 && chars[left - 1] == '\n'
        invariant
            left <= n,
            n == chars@.len(),
            chars@ == delta@,
            trailing_newlines(chars@) == trailing_newlines(chars@.take(left as int)) + (n - left),
        decreases left,
    {
        assert(chars@.take(left as int).drop_last() =~= chars@.take(left - 1));
        left -= 1;
    }
    proof {
        let rest = chars@.take(left as int);
        assert(left > 0 ==> rest.last() == chars@[left - 1]);
        assert(trailing_newlines(rest) == 0);
    }
    let found: usize = n - left;
    if left == 0 {
        if previous >= 2 || found >= 2 || previous + found >= 2 {
            2
        } else {
            previous + found
        }
    } else if found >= 2 {
        2
    } else {
        found
    }
}

/// What stands between reasoning that ends with so many line ends and the
/// next output.
pub open spec fn separator(newlines: nat) -> Seq<char> {
    if newlines == 0 {
        "\n\n"@
    } else if newlines == 1 {
        "\n"@
    } else {
        ""@
    }
}

/// What stands between reasoning and the next output.
pub fn reasoning_separator(newlines: usize) -> (r: &'static str)
    ensures
        r@ == separator(newlines as nat),
{
    if newlines == 0 {
        "\n\n"
    } else if newlines == 1 {
        "\n"
    } else {
        ""
    }
}

proof fn lemma_trailing_bound(s: Seq<char>)
    ensures
        trailing_newlines(s) <= s.len(),
    decreases s.len(),
{
    if s.len() > 0 && s.last() == '\n' {
        lemma_trailing_bound(s.drop_last());
    }
}

proof fn lemma_trailing_append(a: Seq<char>, b: Seq<char>)
    ensures
        trailing_newlines(a + b) == (if trailing_newlines(b) == b.len() {
            trailing_newlines(a) + b.len()
        } else {
            trailing_newlines(b)
        }),
    decreases b.len(),
{
    if b.len() == 0 {
        assert(a + b =~= a);
    } else {
        assert((a + b).drop_last() =~= a + b.drop_last());
        lemma_trailing_append(a, b.drop_last());
        lemma_trailing_bound(b.drop_last());
    }
}

/// How reasoning is cut into pieces does not matter for the spacing: the
/// count after each piece is that of the whole text so far.
pub proof fn law_spacing_ignores_the_pieces(so_far: Seq<char>, delta: Seq<char>)
    ensures
        newlines_after(at_most_two(trailing_newlines(so_far)), delta) == at_most_two(
            trailing_newlines(so_far + delta),
        ),
{
    lemma_trailing_append(so_far, delta);
}

/// Reasoning and the next output are parted by one blank line: with the
/// separator the reasoning ends with two line ends, or with as many as it
/// had where it had more.
pub proof fn law_one_blank_line_follows_reasoning(s: Seq<char>)
    ensures
        trailing_newlines(s + separator(at_most_two(trailing_newlines(s)))) == (if trailing_newlines(
            s,
        ) < 2 {
            2
        } else {
            trailing_newlines(s)
        }),
{
    let sep = separator(at_most_two(trailing_newlines(s)));
    reveal_strlit("\n\n");
    reveal_strlit("\n");
    reveal_strlit("");
    lemma_trailing_append(s, sep);
    reveal_with_fuel(trailing_newlines, 3);
}

// ---------------------------------------------------------------------------
// Output
// ---------------------------------------------------------------------------

/// How many lines of a tool result are shown.
pub const PREVIEW_LINES: usize = 10;

/// What plain mode keeps in mind between two events.
#[derive(Debug, Clone, Copy, PartialEq, Eq, Structural)]
pub struct PlainView {
    /// Whether the last thing written was reasoning.
    pub in_thinking: bool,
    /// How many line ends that reasoning ends with, two at most.
    pub newlines: usize,
}

/// The lines, each with its end.
pub open spec fn ended_lines(lines: Seq<Seq<char>>, n: int) -> Seq<char>
    decreases n,
{
    if n <= 0 {
        Seq::empty()
    } else {
        ended_lines(lines, n - 1) + lines[n - 1] + "\n"@
    }
}

/// The first lines of a text, and how many follow.
pub open spec fn preview(s: Seq<char>) -> Seq<char> {
    let lines = text::lines_of(s);
    if lines.len() > PREVIEW_LINES {
        text::joined(lines.take(PREVIEW_LINES as int), "\n"@) + "\n... ("@ + text::decimal(
            (lines.len() - PREVIEW_LINES) as nat,
        ) + " more lines)\n"@
    } else {
        text::joined(lines, "\n"@) + "\n"@
    }
}

/// What a tool returned, as it is written.
pub open spec fn tool_text(result: AgentToolResult, is_error: bool) -> Seq<char> {
    let head = if is_error {
        "error: "@
    } else {
        ""@
    };
    let diff = match result.details {
        Some(d) => json::json_text(d@, "diff"@),
        None => None,
    };
    match diff {
        Some(d) => head + ended_lines(text::lines_of(d), text::lines_of(d).len() as int),
        None => head + preview(messages::content_text(result.content@)),
    }
}

/// What a response used, as it is written.
pub open spec fn usage_text(u: Usage) -> Seq<char> {
    "["@ + messages::usage_note(
        u.input as nat,
        u.output as nat,
        u.cache_read as nat,
        u.cost as nat,
    ) + "]\n"@
}

/// How a response failed, as it is written.
pub open spec fn failure_text(m: AssistantMessage, prefix: Seq<char>) -> Seq<char> {
    (match m.error_message {
        Some(e) => prefix + "error: "@ + e@ + "\n"@,
        None => Seq::empty(),
    }) + (if m.stop_reason == StopReason::Length {
        prefix + "error: response was truncated before completion (output token limit)\n"@
    } else {
        Seq::empty()
    })
}

/// How a response ended and what it used, as it is written.
pub open spec fn turn_text(m: AssistantMessage, prefix: Seq<char>) -> Seq<char> {
    failure_text(m, prefix) + prefix + usage_text(m.usage)
}

/// What ends the reasoning, if any is open.
pub open spec fn closing(v: PlainView) -> Seq<char> {
    if v.in_thinking {
        separator(v.newlines as nat)
    } else {
        Seq::empty()
    }
}

/// What is written for an event, given how a tool call reads.
pub open spec fn written(v: PlainView, event: AgentEvent, described: Seq<char>) -> Seq<char> {
    match event {
        AgentEvent::MessageUpdate { event } => match event {
            AssistantMessageEvent::TextDelta(d) => closing(v) + d@,
            AssistantMessageEvent::ThinkingDelta(d) => d@,
            AssistantMessageEvent::ToolCallEnd(_) => (if v.in_thinking {
                separator(v.newlines as nat)
            } else {
                "\n"@
            }) + "["@ + described + "]\n"@,
            _ => Seq::empty(),
        },
        AgentEvent::ToolExecutionEnd { result, is_error, .. } => tool_text(*result, is_error),
        AgentEvent::TurnEnd { message, .. } => match message {
            AgentMessage::Llm(Message::Assistant(m)) => closing(v) + turn_text(
                *m,
                if v.in_thinking {
                    ""@
                } else {
                    "\n"@
                },
            ),
            _ => closing(v),
        },
        AgentEvent::CompactionStart { .. } => "compacting context...\n"@,
        AgentEvent::CompactionEnd { tokens_before, tokens_after, error, summary } =>
            notices::compaction_text(tokens_before, tokens_after, resources::opt(error)) + "\n"@ + (
            match (error, summary) {
                (None, Some(s)) => s@ + "\n\n"@,
                _ => Seq::empty(),
            }),
        AgentEvent::AutoRetry { attempt, max_attempts, delay_ms, error_message } => closing(v)
            + notices::retry_text(attempt, max_attempts, delay_ms, error_message@) + "\n"@,
        _ => Seq::empty(),
    }
}

/// What is kept in mind after an event.
pub open spec fn after(v: PlainView, event: AgentEvent) -> PlainView {
    match event {
        AgentEvent::MessageUpdate { event } => match event {
            AssistantMessageEvent::TextDelta(_) | AssistantMessageEvent::ToolCallEnd(_) =>
                PlainView { in_thinking: false, ..v },
            AssistantMessageEvent::ThinkingDelta(d) => PlainView {
                in_thinking: true,
                newlines: newlines_after(
                    if v.in_thinking {
                        v.newlines as nat
                    } else {
                        0
                    },
                    d@,
                ) as usize,
            },
            _ => v,
        },
        AgentEvent::TurnEnd { .. } | AgentEvent::AutoRetry { .. } => PlainView {
            in_thinking: false,
            ..v
        },
        _ => v,
    }
}

fn push_preview(out: &mut String, s: &str)
    ensures
        final(out)@ == old(out)@ + preview(s@),
{
    let ghost start = out@;
    let lines = split_lines(&chars_of(s));
    let ghost views = text::views(lines@);
    let n: usize = if lines.len() > PREVIEW_LINES {
        PREVIEW_LINES
    } else {
        lines.len()
    };
    let mut i: usize = 0;
    assert(out@ =~= start + text::joined(views.take(0), "\n"@));
    while i < n
        invariant
            i <= n <= lines@.len(),
            views == text::views(lines@),
            out@ == start + text::joined(views.take(i as int), "\n"@),
        decreases n - i,
    {
        let ghost now = views.take(i + 1);
        if i > 0 {
            out.push_str("\n");
        }
        push_range(out, &lines[i], 0, lines[i].len());
        assert(lines@[i as int]@.subrange(0, lines@[i as int]@.len() as int)
            =~= lines@[i as int]@);
        assert(now.drop_last() =~= views.take(i as int));
        assert(now.last() == lines@[i as int]@);
        assert(out@ =~= start + text::joined(now, "\n"@));
        i += 1;
    }
    assert(lines@.len() <= PREVIEW_LINES ==> views.take(n as int) =~= views);
    if lines.len() > PREVIEW_LINES {
        out.push_str("\n... (");
        out.push_str(decimal_text((lines.len() - PREVIEW_LINES) as u64).as_str());
        out.push_str(" more lines)\n");
    } else {
        out.push_str("\n");
    }
    proof {
        reveal_strlit("\n... (");
        assert(out@ =~= start + preview(s@));
    }
}

fn tool_output(result: &AgentToolResult, is_error: bool) -> (r: String)
    ensures
        r@ == tool_text(*result, is_error),
{
    let mut out = String::new();
    if is_error {
        out.push_str("error: ");
    } else {
        proof {
            reveal_strlit("");
        }
    }
    let ghost head = out@;
    assert(head =~= (if is_error {
        "error: "@
    } else {
        ""@
    }));
    let diff = match &result.details {
        Some(d) => json_text_field(d.as_str(), "diff"),
        None => None,
    };
    match diff {
        Some(d) => {
            let lines = split_lines(&chars_of(d.as_str()));
            let ghost views = text::views(lines@);
            let mut i: usize = 0;
            assert(out@ =~= head + ended_lines(views, 0));
            while i < lines.len()
                invariant
                    i <= lines@.len(),
                    views == text::views(lines@),
                    out@ == head + ended_lines(views, i as int),
                decreases lines@.len() - i,
            {
                push_range(&mut out, &lines[i], 0, lines[i].len());
                out.push_str("\n");
                assert(lines@[i as int]@.subrange(0, lines@[i as int]@.len() as int)
                    =~= lines@[i as int]@);
                assert(views[i as int] == lines@[i as int]@);
                assert(out@ =~= head + ended_lines(views, i + 1));
                i += 1;
            }
        },
        None => {
            let shown = text_of(&result.content);
            push_preview(&mut out, shown.as_str());
        },
    }
    out
}

fn usage_line(u: &Usage) -> (r: String)
    ensures
        r@ == usage_text(*u),
{
    concat3("[", usage_words(u.input, u.output, u.cache_read, u.cost).as_str(), "]\n")
}

fn failure_lines(m: &AssistantMessage, prefix: &str) -> (r: String)
    ensures
        r@ == failure_text(*m, prefix@),
{
    let mut out = String::new();
    if let Some(e) = &m.error_message {
        out.push_str(prefix);
        out.push_str("error: ");
        out.push_str(e.as_str());
        out.push_str("\n");
    }
    if m.stop_reason == StopReason::Length {
        out.push_str(prefix);
        out.push_str("error: response was truncated before completion (output token limit)\n");
    }
    assert(out@ =~= failure_text(*m, prefix@));
    out
}

fn push_turn(out: &mut String, m: &AssistantMessage, prefix: &str)
    ensures
        final(out)@ == old(out)@ + turn_text(*m, prefix@),
{
    let ghost start = out@;
    let failure = failure_lines(m, prefix);
    let usage = usage_line(&m.usage);
    out.push_str(failure.as_str());
    out.push_str(prefix);
    out.push_str(usage.as_str());
    assert(out@ =~= start + turn_text(*m, prefix@));
}

impl PlainView {
    /// Nothing was written yet.
    pub fn new() -> (r: PlainView)
        ensures
            r == (PlainView { in_thinking: false, newlines: 0 }),
    {
        PlainView { in_thinking: false, newlines: 0 }
    }

    /// Says what to write for an event. `described` is how the tool call of
    /// the event reads, where it holds one.
    pub fn render(&mut self, event: &AgentEvent, described: &str) -> (r: String)
        ensures
            r@ == written(*old(self), *event, described@),
            *final(self) == after(*old(self), *event),
    {
        let ghost before = *self;
        let mut out = String::new();
        match event {
            AgentEvent::MessageUpdate { event } => match event {
                AssistantMessageEvent::TextDelta(d) => {
                    if self.in_thinking {
                        out.push_str(reasoning_separator(self.newlines));
                        self.in_thinking = false;
                    }
                    out.push_str(d.as_str());
                },
                AssistantMessageEvent::ThinkingDelta(d) => {
                    if !self.in_thinking {
                        self.newlines = 0;
                    }
                    self.newlines = reasoning_newlines(self.newlines, d.as_str());
                    self.in_thinking = true;
                    out.push_str(d.as_str());
                },
                AssistantMessageEvent::ToolCallEnd(_) => {
                    if self.in_thinking {
                        out.push_str(reasoning_separator(self.newlines));
                        self.in_thinking = false;
                    } else {
                        out.push_str("\n");
                    }
                    out.push_str("[");
                    out.push_str(described);
                    out.push_str("]\n");
                },
                _ => {},
            },
            AgentEvent::ToolExecutionEnd { result, is_error, .. } => {
                let shown = tool_output(result, *is_error);
                out.push_str(shown.as_str());
            },
            AgentEvent::TurnEnd { message, .. } => {
                let ended = self.in_thinking;
                if ended {
                    out.push_str(reasoning_separator(self.newlines));
                    self.in_thinking = false;
                }
                if let AgentMessage::Llm(Message::Assistant(m)) = message {
                    push_turn(
                        &mut out,
                        m,
                        if ended {
                            ""
                        } else {
                            "\n"
                        },
                    );
                }
            },
            AgentEvent::CompactionStart { .. } => {
                out.push_str("compacting context...\n");
            },
            AgentEvent::CompactionEnd { tokens_before, tokens_after, error, summary } => {
                out.push_str(compaction_ended(*tokens_before, *tokens_after, error).as_str());
                out.push_str("\n");
                if error.is_none() {
                    if let Some(s) = summary {
                        out.push_str(s.as_str());
                        out.push_str("\n\n");
                    }
                }
            },
            AgentEvent::AutoRetry { attempt, max_attempts, delay_ms, error_message } => {
                if self.in_thinking {
                    out.push_str(reasoning_separator(self.newlines));
                    self.in_thinking = false;
                }
                let note = retry_notice(*attempt, *max_attempts, *delay_ms, error_message.as_str());
                out.push_str(note.as_str());
                out.push_str("\n");
            },
            _ => {},
        }
        assert(out@ =~= written(before, *event, described@));
        out
    }
}

/// What a session starts with, as it is written.
pub open spec fn banner_text(
    model_name: Seq<char>,
    provider: Seq<char>,
    cwd: Seq<char>,
    session_id: Seq<char>,
    restored: nat,
) -> Seq<char> {
    "cupel - "@ + model_name + " ("@ + provider
        + ")\ntools: read, grep, apply_patch, bash | cwd: "@ + cwd + " | 'exit' to quit\n\n"@ + (
    if restored > 0 {
        "resumed session "@ + session_id + " ("@ + text::decimal(restored) + " messages)\n\n"@
    } else {
        Seq::empty()
    })
}

/// Introduces a session, and says what was restored of an earlier one.
pub fn banner(model_name: &str, provider: &str, cwd: &str, session_id: &str, restored: usize) -> (r:
    String)
    ensures
        r@ == banner_text(model_name@, provider@, cwd@, session_id@, restored as nat),
{
    let mut out = concat2("cupel - ", model_name);
    out.push_str(" (");
    out.push_str(provider);
    out.push_str(")\ntools: read, grep, apply_patch, bash | cwd: ");
    out.push_str(cwd);
    out.push_str(" | 'exit' to quit\n\n");
    if restored > 0 {
        out.push_str("resumed session ");
        out.push_str(session_id);
        out.push_str(" (");
        out.push_str(decimal_text(restored as u64).as_str());
        out.push_str(" messages)\n\n");
    }
    assert(out@ =~= banner_text(model_name@, provider@, cwd@, session_id@, restored as nat));
    out
}

/// Text that starts with no slash is a prompt, as it was typed but for the
/// white space around it; nothing but white space is nothing.
pub proof fn law_what_is_no_command_is_a_prompt(line: Seq<char>, templates: Seq<TemplateView>)
    ensures
        text::is_blank(line) ==> action_of(line, templates) is Ignore,
        text::trim(line) == "exit"@ || text::trim(line) == "quit"@ ==> action_of(line, templates)
            is Quit,
        !text::is_blank(line) && text::trim(line)[0] != '/' && text::trim(line) != "exit"@
            && text::trim(line) != "quit"@ ==> action_of(line, templates)
            == LineActionView::Prompt(text::trim(line)),
{
    reveal_strlit("exit");
    reveal_strlit("quit");
}

proof fn lemma_command_line(name: Seq<char>, args: Seq<char>, templates: Seq<TemplateView>)
    requires
        forall|k: int| 0 <= k < name.len() ==> !text::is_white_space(#[trigger] name[k]),
        args.len() > 0,
        !text::is_white_space(args.last()),
    ensures
        ({
            let line = seq!['/'] + name + seq![' '] + args;
            text::trim(line) == line && line.len() > 0 && line[0] == '/' && line != "exit"@ && line
                != "quit"@ && text::head_and_rest(line.skip(1)) == (name, args)
        }),
{
    let line = seq!['/'] + name + seq![' '] + args;
    assert(line[0] == '/');
    assert(line.last() == args.last());
    text::lemma_leading_space(line);
    assert(!text::is_white_space('/'));
    assert(text::leading_space(line) == 0);
    assert(line.skip(0) =~= line);
    text::lemma_trim_end(line);
    assert(text::trim(line) =~= line);
    reveal_strlit("exit");
    reveal_strlit("quit");
    assert("exit"@[0] == 'e' && "quit"@[0] == 'q');
    assert(line.skip(1) =~= name + seq![' '] + args);
    text::law_the_head_is_the_first_word(name, ' ', args);
}

/// A review is asked for with everything that follows the command, taken
/// apart into arguments; the commands that need a screen say so; and what is
/// no command of the program's own is expanded by a template, or goes to the
/// model as it was typed.
pub proof fn law_commands_do_what_they_say(
    name: Seq<char>,
    args: Seq<char>,
    templates: Seq<TemplateView>,
)
    requires
        forall|k: int| 0 <= k < name.len() ==> !text::is_white_space(#[trigger] name[k]),
        args.len() > 0,
        !text::is_white_space(args.last()),
    ensures
        ({
            let line = seq!['/'] + name + seq![' '] + args;
            &&& name == "review"@ ==> action_of(line, templates) == LineActionView::Review(
                commands::args_of(args),
            )
            &&& name == "quit"@ ==> action_of(line, templates) is Quit
            &&& name == "new"@ || name == "model"@ || name == "provider"@ || name == "login"@ || name
                == "logout"@ || name == "thinking"@ || name == "session-id"@ || name
                == "hot-reload"@ || name == "usage"@ ==> action_of(line, templates)
                == LineActionView::Print(tui_only_text(name))
            &&& (forall|k: int| 0 <= k < 12 ==> #[trigger] commands::builtin_name(k) != name)
                && commands::expanded(line, templates) is None ==> action_of(line, templates)
                == LineActionView::Prompt(line)
            &&& (forall|k: int| 0 <= k < 12 ==> #[trigger] commands::builtin_name(k) != name)
                && commands::expanded(line, templates) is Some ==> action_of(line, templates)
                == LineActionView::Prompt(commands::expanded(line, templates).unwrap())
        }),
{
    lemma_command_line(name, args, templates);
    reveal_strlit("quit");
    reveal_strlit("help");
    reveal_strlit("review");
    reveal_strlit("new");
    reveal_strlit("model");
    reveal_strlit("provider");
    reveal_strlit("login");
    reveal_strlit("logout");
    reveal_strlit("thinking");
    reveal_strlit("session-id");
    reveal_strlit("hot-reload");
    reveal_strlit("usage");
    assert("quit"@[0] == 'q' && "help"@[0] == 'h' && "help"@[1] == 'e' && "review"@[0] == 'r');
    assert("new"@[0] == 'n' && "model"@[0] == 'm' && "provider"@[0] == 'p');
    assert("login"@[0] == 'l' && "logout"@[0] == 'l' && "thinking"@[0] == 't');
    assert("session-id"@[0] == 's' && "hot-reload"@[1] == 'o' && "usage"@[0] == 'u');
    assert(commands::builtin_name(0) == "help"@);
    assert(commands::builtin_name(1) == "new"@);
    assert(commands::builtin_name(2) == "model"@);
    assert(commands::builtin_name(3) == "provider"@);
    assert(commands::builtin_name(4) == "login"@);
    assert(commands::builtin_name(5) == "logout"@);
    assert(commands::builtin_name(6) == "thinking"@);
    assert(commands::builtin_name(7) == "session-id"@);
    assert(commands::builtin_name(8) == "hot-reload"@);
    assert(commands::builtin_name(9) == "usage"@);
    assert(commands::builtin_name(10) == "quit"@);
    assert(commands::builtin_name(11) == "review"@);
}

proof fn lemma_template_listed(list: Seq<TemplateView>, i: int, n: int)
    requires
        0 <= i < n <= list.len(),
        command_of(list[i].name) == PlainCommand::Prompt,
    ensures
        text::stands_in(
            "  /"@ + list[i].name + "  - "@ + list[i].description + "\n"@,
            template_help(list, n),
        ),
    decreases n,
{
    let part = "  /"@ + list[i].name + "  - "@ + list[i].description + "\n"@;
    let none = Seq::<char>::empty();
    let before = template_help(list, n - 1);
    let whole = template_help(list, n);
    if i == n - 1 {
        assert(whole =~= before + part + none);
        text::lemma_stands(part, whole, before, none);
    } else {
        lemma_template_listed(list, i, n - 1);
        let more = if command_of(list[n - 1].name) == PlainCommand::Prompt {
            help_line(list[n - 1].name, list[n - 1].description)
        } else {
            none
        };
        assert(whole =~= none + before + more);
        text::lemma_stands_wider(part, before, none, more);
    }
}

/// The help lists every template that no command of the program hides.
pub proof fn law_help_lists_every_template(list: Seq<TemplateView>, i: int)
    requires
        0 <= i < list.len(),
        forall|k: int| 0 <= k < 12 ==> #[trigger] commands::builtin_name(k) != list[i].name,
    ensures
        text::stands_in(
            "  /"@ + list[i].name + "  - "@ + list[i].description + "\n"@,
            builtin_help(BUILTIN_COUNT as int) + template_help(list, list.len() as int) + "\n"@,
        ),
{
    assert(commands::builtin_name(0) == "help"@);
    assert(commands::builtin_name(10) == "quit"@);
    assert(commands::builtin_name(11) == "review"@);
    lemma_template_listed(list, i, list.len() as int);
    text::lemma_stands_wider(
        "  /"@ + list[i].name + "  - "@ + list[i].description + "\n"@,
        template_help(list, list.len() as int),
        builtin_help(BUILTIN_COUNT as int),
        "\n"@,
    );
}

/// What was typed is cut into prompts without losing a character: each one
/// ends with its first line feed, or takes the rest. From a pipe everything
/// is one prompt.
pub proof fn law_prompts_are_cut_at_line_feeds(s: Seq<char>, piped: bool)
    ensures
        s.take(prompt_end(s, piped)) + s.skip(prompt_end(s, piped)) == s,
        piped ==> s.take(prompt_end(s, piped)) == s,
        !piped ==> forall|k: int|
            0 <= k < s.take(prompt_end(s, piped)).len() - 1 ==> (#[trigger] s.take(
                prompt_end(s, piped),
            )[k]) != '\n',
        !piped && s.contains('\n') ==> s.take(prompt_end(s, piped)).last() == '\n',
        s.len() > 0 ==> prompt_end(s, piped) > 0,
{
    text::lemma_find_from(s, '\n', 0);
    let at = text::find_from(s, '\n', 0);
    let n = prompt_end(s, piped);
    assert(s.take(n) + s.skip(n) =~= s);
    assert(piped ==> s.take(n) =~= s);
    if s.contains('\n') {
        let k = choose|k: int| 0 <= k < s.len() && s[k] == '\n';
        assert(at < s.len());
    }
}

/// The count of line feeds is that of the characters at the end.
pub proof fn law_line_feeds_are_counted_from_the_end(s: Seq<char>, n: nat)
    requires
        s.len() > 0 ==> s.last() != '\n',
    ensures
        trailing_newlines(s + text::repeated('\n', n)) == n,
    decreases n,
{
    let t = s + text::repeated('\n', n);
    if n > 0 {
        law_line_feeds_are_counted_from_the_end(s, (n - 1) as nat);
        assert(t.drop_last() =~= s + text::repeated('\n', (n - 1) as nat));
    } else {
        assert(t =~= s);
    }
}

/// Ten lines of what a tool gave are shown. Of more, the number that is left
/// out is told.
pub proof fn law_ten_lines_are_shown(lines: Seq<Seq<char>>, s: Seq<char>)
    requires
        text::lines_of(s) == lines,
    ensures
        lines.len() <= 10 ==> preview(s) == text::joined(lines, "\n"@) + "\n"@,
        lines.len() > 10 ==> preview(s) == text::joined(lines.take(10), "\n"@) + "\n... ("@
            + text::decimal((lines.len() - 10) as nat) + " more lines)\n"@,
{
}

proof fn lemma_ended_lines(lines: Seq<Seq<char>>, n: int)
    requires
        0 <= n <= lines.len(),
    ensures
        ended_lines(lines, n) == lines.take(n).map_values(|l: Seq<char>| l.push('\n')).flatten(),
    decreases n,
{
    let end = |l: Seq<char>| l.push('\n');
    reveal_strlit("\n");
    if n > 0 {
        lemma_ended_lines(lines, n - 1);
        let before = lines.take(n - 1).map_values(end);
        assert(lines.take(n).map_values(end) =~= before.push(lines[n - 1].push('\n')));
        before.lemma_flatten_push(lines[n - 1].push('\n'));
        assert(ended_lines(lines, n) =~= ended_lines(lines, n - 1) + lines[n - 1].push('\n'));
    } else {
        assert(lines.take(n).map_values(end) =~= Seq::empty());
    }
}

/// A diff is shown in full, every line of it on a line of its own, and an
/// error is announced as one.
pub proof fn law_diffs_are_shown_in_full(result: AgentToolResult, d: Seq<char>)
    requires
        result.details is Some,
        json::json_text(result.details.unwrap()@, "diff"@) == Some(d),
    ensures
        tool_text(result, false) == text::lines_of(d).map_values(
            |l: Seq<char>| l.push('\n'),
        ).flatten(),
        tool_text(result, true) == "error: "@ + text::lines_of(d).map_values(
            |l: Seq<char>| l.push('\n'),
        ).flatten(),
{
    let lines = text::lines_of(d);
    lemma_ended_lines(lines, lines.len() as int);
    assert(lines.take(lines.len() as int) =~= lines);
    reveal_strlit("");
    let all = ended_lines(lines, lines.len() as int);
    assert(""@ + all =~= all);
}

/// The piece of an answer that an event brings.
pub open spec fn said_in(event: AgentEvent) -> Option<Seq<char>> {
    match event {
        AgentEvent::MessageUpdate { event: AssistantMessageEvent::TextDelta(d) } => Some(d@),
        _ => None,
    }
}

/// What a view writes for events, one after the other.
pub open spec fn written_for(v: PlainView, events: Seq<AgentEvent>) -> Seq<char>
    decreases events.len(),
{
    if events.len() == 0 {
        Seq::empty()
    } else {
        written(v, events[0], Seq::empty()) + written_for(after(v, events[0]), events.drop_first())
    }
}

/// An answer that comes in pieces is written as the pieces in a row.
pub proof fn law_answers_are_written_piece_by_piece(v: PlainView, events: Seq<AgentEvent>)
    requires
        !v.in_thinking,
        forall|k: int| 0 <= k < events.len() ==> said_in(#[trigger] events[k]) is Some,
    ensures
        written_for(v, events) == events.map_values(
            |e: AgentEvent| said_in(e).unwrap(),
        ).flatten(),
    decreases events.len(),
{
    let piece = |e: AgentEvent| said_in(e).unwrap();
    let all = events.map_values(piece);
    if events.len() > 0 {
        let more = events.drop_first();
        assert forall|k: int| 0 <= k < more.len() implies said_in(#[trigger] more[k]) is Some by {
            assert(more[k] == events[k + 1]);
        }
        assert(said_in(events[0]) is Some);
        law_answers_are_written_piece_by_piece(after(v, events[0]), more);
        assert(all.drop_first() =~= more.map_values(piece));
        assert(all[0] == piece(events[0]));
        assert(written(v, events[0], Seq::empty()) =~= piece(events[0]));
    } else {
        assert(all =~= Seq::empty());
    }
}

/// What failed is told, an answer that was cut off is told as well, and a
/// turn in which nothing went wrong only says what it used.
pub proof fn law_failures_are_told(m: AssistantMessage, prefix: Seq<char>)
    ensures
        m.error_message is Some ==> text::stands_in(
            "error: "@ + m.error_message.unwrap()@ + "\n"@,
            turn_text(m, prefix),
        ),
        m.stop_reason == StopReason::Length ==> text::stands_in(
            "error: response was truncated before completion (output token limit)\n"@,
            turn_text(m, prefix),
        ),
        m.error_message is None && m.stop_reason != StopReason::Length ==> turn_text(m, prefix)
            == prefix + usage_text(m.usage),
{
    let none = Seq::<char>::empty();
    let first = match m.error_message {
        Some(e) => prefix + "error: "@ + e@ + "\n"@,
        None => none,
    };
    let cut = "error: response was truncated before completion (output token limit)\n"@;
    let second = if m.stop_reason == StopReason::Length {
        prefix + cut
    } else {
        none
    };
    let end = prefix + usage_text(m.usage);
    let whole = turn_text(m, prefix);
    assert(whole =~= first + second + end);
    if m.error_message is Some {
        let part = "error: "@ + m.error_message.unwrap()@ + "\n"@;
        assert(whole =~= prefix + part + (second + end));
        text::lemma_stands(part, whole, prefix, second + end);
    }
    if m.stop_reason == StopReason::Length {
        assert(whole =~= (first + prefix) + cut + end);
        text::lemma_stands(cut, whole, first + prefix, end);
    }
    if m.error_message is None && m.stop_reason != StopReason::Length {
        assert(whole =~= end);
    }
}

} // verus!
