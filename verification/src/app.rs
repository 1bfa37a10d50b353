//! The state of the interface, and what the events of the agent change of
//! it.
//!
//! Two sources of events, the terminal and the agent, change one state, and
//! the screen shows whatever the state says. What the interface cannot do by
//! itself it asks for: the program around it performs the request and
//! reports back.
use std::sync::Arc;

use vstd::prelude::*;

use crate::agent::{Agent, AgentView};
use crate::agent_loop::{AgentLoop, LoopAction};
use crate::autocomplete::{Autocomplete, AutocompleteView};
use crate::commands::{PromptTemplate, TemplateView};
use crate::compaction::plus;
use crate::credentials::{Credentials, CredentialsView};
use crate::input::{InputState, InputView};
use crate::json::json_text_field;
use crate::login::LoginFlow;
use crate::messages::{
    is_failure, text_of, usage_words, AgentMessage, AgentToolResult, AssistantContent,
    AssistantMessage, Message, ToolResultMessage, Usage, UserBody, UserMessage,
};
use crate::models::Model;
use crate::notices::{compaction_ended, compaction_started, retry_notice};
use crate::resources::{ContextFile, ContextFileView};
use crate::session::{RecorderView, SessionRecorder};
use crate::text::{chars_of, concat3, decimal_text, string_of};
use crate::transcript::{Cell, CellView, OutcomeView, ToolOutcome, ToolView, Transcript};
use crate::types::{AgentEvent, AssistantMessageEvent, CompactionReason};
use crate::{
    agent, agent_loop, autocomplete, commands, compaction, credentials, input, json, menus,
    messages, notices, providers, resources, session, text, transcript,
};

verus! {

/// How many characters of a tool call's arguments are shown.
pub const CALL_CHARS: usize = 200;

/// What the session used so far. The counts stop at the largest machine
/// number. The cost is in billionths of a dollar.
#[derive(Debug, Clone, Copy, PartialEq, Eq, Structural)]
pub struct Totals {
    pub input: u64,
    pub output: u64,
    pub cache_read: u64,
    pub cost: u64,
}

/// The sum of two counts.
pub open spec fn sum(a: u64, b: u64) -> u64 {
    compaction::capped((a + b) as nat) as u64
}

/// The totals with one more response.
pub open spec fn with_usage(t: Totals, u: Usage) -> Totals {
    Totals {
        input: sum(t.input, u.input),
        output: sum(t.output, u.output),
        cache_read: sum(t.cache_read, u.cache_read),
        cost: sum(t.cost, u.cost),
    }
}

impl Default for Totals {
    /// Nothing used.
    fn default() -> (r: Totals)
        ensures
            r == (Totals { input: 0, output: 0, cache_read: 0, cost: 0 }),
    {
        Totals { input: 0, output: 0, cache_read: 0, cost: 0 }
    }
}

impl Totals {
    /// Adds what a response used.
    pub fn note(&mut self, u: &Usage)
        ensures
            *final(self) == with_usage(*old(self), *u),
    {
        self.input = plus(self.input, u.input);
        self.output = plus(self.output, u.output);
        self.cache_read = plus(self.cache_read, u.cache_read);
        self.cost = plus(self.cost, u.cost);
    }
}

/// What a session knows of its surroundings.
pub struct SessionMeta {
    pub model_name: String,
    pub provider: String,
    pub cwd: String,
    pub templates: Vec<PromptTemplate>,
    pub models: Vec<Arc<Model>>,
    pub home: Option<String>,
    pub context_files: Vec<ContextFile>,
}

/// What a session knows of its surroundings.
pub struct MetaView {
    pub model_name: Seq<char>,
    pub provider: Seq<char>,
    pub cwd: Seq<char>,
    pub templates: Seq<TemplateView>,
    pub models: Seq<Arc<Model>>,
    pub home: Option<Seq<char>>,
    pub context_files: Seq<ContextFileView>,
}

impl View for SessionMeta {
    type V = MetaView;

    open spec fn view(&self) -> MetaView {
        MetaView {
            model_name: self.model_name@,
            provider: self.provider@,
            cwd: self.cwd@,
            templates: commands::template_views(self.templates@),
            models: self.models@,
            home: resources::opt(self.home),
            context_files: resources::context_views(self.context_files@),
        }
    }
}

/// What `/hot-reload` asks for.
#[derive(Debug)]
pub enum ReloadTarget {
    /// To bring the running session up to date.
    Current,
    /// To take up the session with this id.
    Resume(String),
}

/// What `/hot-reload` asks for.
pub enum ReloadView {
    Current,
    Resume(Seq<char>),
}

impl View for ReloadTarget {
    type V = ReloadView;

    open spec fn view(&self) -> ReloadView {
        match self {
            ReloadTarget::Current => ReloadView::Current,
            ReloadTarget::Resume(id) => ReloadView::Resume(id@),
        }
    }
}

/// What the interface asks of the program around it.
pub enum Request {
    /// Abort the run.
    Abort,
    /// Hand this to the run, which takes it up after the current turn.
    Steer(String),
    /// Gather what these arguments of `/review` name.
    Review(Vec<String>),
    /// List the sessions of the project.
    ListSessions,
    /// Store a key.
    SaveKey { provider: String, key: String },
    /// Start a login in the browser.
    LoginBrowser,
    /// Start a login on another device.
    LoginDevice,
    /// Give up the login.
    CancelLogin,
    /// Forget the stored login of a provider.
    Logout(String),
}

/// What the interface asks of the program around it.
pub enum RequestView {
    Abort,
    Steer(Seq<char>),
    Review(Seq<Seq<char>>),
    ListSessions,
    SaveKey { provider: Seq<char>, key: Seq<char> },
    LoginBrowser,
    LoginDevice,
    CancelLogin,
    Logout(Seq<char>),
}

impl View for Request {
    type V = RequestView;

    open spec fn view(&self) -> RequestView {
        match self {
            Request::Abort => RequestView::Abort,
            Request::Steer(s) => RequestView::Steer(s@),
            Request::Review(v) => RequestView::Review(text::texts(v@)),
            Request::ListSessions => RequestView::ListSessions,
            Request::SaveKey { provider, key } => RequestView::SaveKey {
                provider: provider@,
                key: key@,
            },
            Request::LoginBrowser => RequestView::LoginBrowser,
            Request::LoginDevice => RequestView::LoginDevice,
            Request::CancelLogin => RequestView::CancelLogin,
            Request::Logout(s) => RequestView::Logout(s@),
        }
    }
}

/// Views of requests.
pub open spec fn request_views(v: Seq<Request>) -> Seq<RequestView> {
    v.map_values(|x: Request| x@)
}

/// A part of the screen.
#[derive(Debug, Clone, Copy, PartialEq, Eq, Structural)]
pub struct Area {
    pub x: u16,
    pub y: u16,
    pub width: u16,
    pub height: u16,
}

/// What the last frame showed: the panes, how many rows there were in all,
/// which was the first one, and the cell of every row.
#[derive(Debug)]
pub struct Shown {
    pub chat: Area,
    pub tools: Option<Area>,
    pub total_lines: usize,
    pub top_line: usize,
    pub line_cells: Vec<Option<usize>>,
    pub line_tools: Vec<Option<usize>>,
}

/// Where a login is: `None` without one, else whether it waits for a pasted
/// text and which one it holds.
pub open spec fn login_view(o: Option<LoginFlow>) -> Option<(bool, Option<Seq<char>>)> {
    match o {
        Some(f) => Some((f.waits_for_code(), f.held())),
        None => None,
    }
}

/// The interface.
pub struct App {
    pub agent: Agent,
    pub meta: SessionMeta,
    pub credentials: Credentials,
    pub transcript: Transcript,
    pub input: InputState,
    pub autocomplete: Autocomplete,
    pub totals: Totals,
    pub recorder: SessionRecorder,
    pub login: Option<LoginFlow>,
    /// Whether a run is under way.
    pub running: bool,
    /// Whether the prompt that started the run is still to be announced. It
    /// is on the screen already.
    pub echo_due: bool,
    /// How many rows below the last visible one there are. Zero follows the
    /// output.
    pub scroll_from_bottom: usize,
    pub shown: Shown,
    pub should_quit: bool,
    /// A prompt that was accepted and not started yet.
    pub pending_prompt: Option<String>,
    pub pending_copy: Option<String>,
    pub pending_reload: Option<ReloadTarget>,
    pub selected_cell: Option<usize>,
    pub tools_expanded: bool,
    /// Whether the terminal reports the mouse. Where it does not, text can
    /// be selected with it.
    pub mouse_captured: bool,
    pub mouse_toggle_requested: bool,
    pub requests: Vec<Request>,
}

/// The interface.
#[verifier::ext_equal]
pub struct AppView {
    pub agent: AgentView,
    pub meta: MetaView,
    pub credentials: CredentialsView,
    pub cells: Seq<CellView>,
    pub input: InputView,
    pub popup: AutocompleteView,
    pub totals: Totals,
    pub recorder: RecorderView,
    pub login: Option<(bool, Option<Seq<char>>)>,
    pub running: bool,
    pub echo_due: bool,
    pub scroll: usize,
    pub shown: Shown,
    pub should_quit: bool,
    pub pending_prompt: Option<Seq<char>>,
    pub pending_copy: Option<Seq<char>>,
    pub pending_reload: Option<ReloadView>,
    pub selected: Option<usize>,
    pub tools_expanded: bool,
    pub mouse_captured: bool,
    pub mouse_toggle_requested: bool,
    pub requests: Seq<RequestView>,
}

/// The view of an optional reload target.
pub open spec fn opt_reload(o: Option<ReloadTarget>) -> Option<ReloadView> {
    match o {
        Some(t) => Some(t@),
        None => None,
    }
}

impl View for App {
    type V = AppView;

    open spec fn view(&self) -> AppView {
        AppView {
            agent: self.agent@,
            meta: self.meta@,
            credentials: self.credentials@,
            cells: self.transcript@,
            input: self.input@,
            popup: self.autocomplete@,
            totals: self.totals,
            recorder: self.recorder@,
            login: login_view(self.login),
            running: self.running,
            echo_due: self.echo_due,
            scroll: self.scroll_from_bottom,
            shown: self.shown,
            should_quit: self.should_quit,
            pending_prompt: resources::opt(self.pending_prompt),
            pending_copy: resources::opt(self.pending_copy),
            pending_reload: opt_reload(self.pending_reload),
            selected: self.selected_cell,
            tools_expanded: self.tools_expanded,
            mouse_captured: self.mouse_captured,
            mouse_toggle_requested: self.mouse_toggle_requested,
            requests: request_views(self.requests@),
        }
    }
}

/// The interface with one more notice.
pub open spec fn noted(v: AppView, s: Seq<char>) -> AppView {
    AppView { cells: v.cells.push(CellView::Notice(s)), ..v }
}

/// The interface with one more request.
pub open spec fn asking(v: AppView, r: RequestView) -> AppView {
    AppView { requests: v.requests.push(r), ..v }
}

// ---------------------------------------------------------------------------
// Cells of messages
// ---------------------------------------------------------------------------

/// A summary of at most `max` characters: one that is longer is cut, and ends
/// in dots where there is room for them.
pub open spec fn compacted(s: Seq<char>, max: nat) -> Seq<char> {
    if s.len() <= max {
        s
    } else if max >= 3 {
        s.take(max - 3) + "..."@
    } else {
        s.take(max as int)
    }
}

/// Cuts a summary to at most `max_chars` characters.
pub fn compact(s: &str, max_chars: usize) -> (r: String)
    ensures
        r@ == compacted(s@, max_chars as nat),
        r@.len() <= max_chars,
{
    let chars = chars_of(s);
    if chars.len() <= max_chars {
        return s.to_owned();
    }
    proof {
        reveal_strlit("...");
    }
    if max_chars < 3 {
        let out = string_of(&chars, 0, max_chars);
        assert(out@ =~= s@.take(max_chars as int));
        return out;
    }
    let mut out = string_of(&chars, 0, max_chars - 3);
    assert(out@ =~= s@.take(max_chars - 3));
    out.push_str("...");
    out
}

/// How a tool call is shown.
pub open spec fn call_header(name: Seq<char>, arguments: Seq<char>) -> Seq<char> {
    "["@ + name + "] "@ + compacted(arguments, CALL_CHARS as nat)
}

/// The cell of a tool call that nothing came of yet.
pub open spec fn call_cell(id: Seq<char>, name: Seq<char>, arguments: Seq<char>) -> CellView {
    CellView::Tool(
        ToolView {
            id,
            name,
            call: call_header(name, arguments),
            expanded: false,
            started_at: None,
            live: None,
            result: None,
        },
    )
}

/// The text of a message of the user, as it is shown.
pub open spec fn user_words(m: UserMessage) -> Seq<char> {
    match m.content {
        UserBody::Text(s) => s@,
        UserBody::Blocks(_) => "(rich message)"@,
    }
}

/// The cell of a piece of a response.
pub open spec fn content_cell(c: AssistantContent) -> CellView {
    match c {
        AssistantContent::Text(s) => CellView::Assistant(s@),
        AssistantContent::Thinking(s) => CellView::Thinking(s@),
        AssistantContent::ToolCall(call) => call_cell(call.id@, call.name@, call.arguments@),
    }
}

/// The cells of a response's pieces.
pub open spec fn content_cells(v: Seq<AssistantContent>) -> Seq<CellView> {
    v.map_values(|c: AssistantContent| content_cell(c))
}

/// The cell that ends a response: what went wrong, or what it used.
pub open spec fn ending_cell(m: AssistantMessage) -> CellView {
    if messages::failed(m.stop_reason) {
        CellView::Error(
            match m.error_message {
                Some(e) => e@,
                None => "unknown error"@,
            },
        )
    } else {
        CellView::Usage(
            "["@ + messages::usage_note(
                m.usage.input as nat,
                m.usage.output as nat,
                m.usage.cache_read as nat,
                m.usage.cost as nat,
            ) + "]"@,
        )
    }
}

/// The totals after a response: one that failed does not count.
pub open spec fn totals_after(t: Totals, m: AssistantMessage) -> Totals {
    if messages::failed(m.stop_reason) {
        t
    } else {
        with_usage(t, m.usage)
    }
}

/// The change that a tool reports in its details.
pub open spec fn diff_of(details: Option<String>) -> Option<Seq<char>> {
    match details {
        Some(d) => json::json_text(d@, "diff"@),
        None => None,
    }
}

/// What a tool result message says came of a call.
pub open spec fn outcome_of(m: ToolResultMessage) -> OutcomeView {
    OutcomeView {
        text: messages::content_text(m.content@),
        is_error: m.is_error,
        diff: diff_of(m.details),
        took: None,
    }
}

/// The cells and the totals after the first `n` messages of a history.
pub open spec fn replayed(
    cells: Seq<CellView>,
    totals: Totals,
    v: Seq<AgentMessage>,
    n: int,
) -> (Seq<CellView>, Totals)
    decreases n,
{
    if n <= 0 {
        (cells, totals)
    } else {
        let (before, t) = replayed(cells, totals, v, n - 1);
        match v[n - 1] {
            AgentMessage::Llm(Message::User(u)) => (before.push(CellView::User(user_words(*u))), t),
            AgentMessage::Llm(Message::Assistant(m)) => (
                (before + content_cells(m.content@)).push(ending_cell(*m)),
                totals_after(t, *m),
            ),
            AgentMessage::Llm(Message::ToolResult(m)) => (
                transcript::with_result(before, m.tool_call_id@, outcome_of(*m), 0),
                t,
            ),
            AgentMessage::Custom(_) => (before, t),
        }
    }
}

fn header_text(name: &str, arguments: &str) -> (r: String)
    ensures
        r@ == call_header(name@, arguments@),
{
    let mut out = concat3("[", name, "] ");
    out.push_str(compact(arguments, CALL_CHARS).as_str());
    out
}

fn new_call(id: &String, name: &String, arguments: &str) -> (r: Cell)
    ensures
        r@ == call_cell(id@, name@, arguments@),
{
    Cell::Tool {
        id: id.clone(),
        name: name.clone(),
        call: header_text(name.as_str(), arguments),
        expanded: false,
        started_at: None,
        live: None,
        result: None,
    }
}

fn words_of(m: &UserMessage) -> (r: String)
    ensures
        r@ == user_words(*m),
{
    match &m.content {
        UserBody::Text(s) => s.clone(),
        UserBody::Blocks(_) => "(rich message)".to_owned(),
    }
}

fn ending_of(m: &AssistantMessage) -> (r: Cell)
    ensures
        r@ == ending_cell(*m),
{
    if is_failure(m.stop_reason) {
        Cell::Error {
            text: match &m.error_message {
                Some(e) => e.clone(),
                None => "unknown error".to_owned(),
            },
        }
    } else {
        let words = usage_words(
            m.usage.input,
            m.usage.output,
            m.usage.cache_read,
            m.usage.cost,
        );
        Cell::Usage { text: concat3("[", words.as_str(), "]") }
    }
}

fn find_diff(details: &Option<String>) -> (r: Option<String>)
    ensures
        resources::opt(r) == diff_of(*details),
{
    match details {
        Some(d) => json_text_field(d.as_str(), "diff"),
        None => None,
    }
}

fn push_contents(t: &mut Transcript, v: &Vec<AssistantContent>)
    ensures
        final(t)@ == old(t)@ + content_cells(v@),
{
    let ghost start = t@;
    let mut i: usize = 0;
    assert(t@ =~= start + content_cells(v@).take(0));
    while i < v.len()
        invariant
            i <= v@.len(),
            t@ == start + content_cells(v@).take(i as int),
        decreases v@.len() - i,
    {
        let cell = match &v[i] {
            AssistantContent::Text(s) => Cell::Assistant { text: s.clone() },
            AssistantContent::Thinking(s) => Cell::Thinking { text: s.clone() },
            AssistantContent::ToolCall(call) => new_call(
                &call.id,
                &call.name,
                call.arguments.as_str(),
            ),
        };
        t.push(cell);
        assert(t@ =~= start + content_cells(v@).take(i + 1));
        i += 1;
    }
    assert(content_cells(v@).take(i as int) =~= content_cells(v@));
}

fn replay(t: &mut Transcript, totals: &mut Totals, v: &Vec<AgentMessage>)
    ensures
        (final(t)@, *final(totals)) == replayed(old(t)@, *old(totals), v@, v@.len() as int),
{
    let ghost cells = t@;
    let ghost start = *totals;
    let mut i: usize = 0;
    while i < v.len()
        invariant
            i <= v@.len(),
            (t@, *totals) == replayed(cells, start, v@, i as int),
        decreases v@.len() - i,
    {
        match &v[i] {
            AgentMessage::Llm(Message::User(u)) => {
                t.push(Cell::User { text: words_of(u) });
            },
            AgentMessage::Llm(Message::Assistant(m)) => {
                push_contents(t, &m.content);
                t.push(ending_of(m));
                if !is_failure(m.stop_reason) {
                    totals.note(&m.usage);
                }
            },
            AgentMessage::Llm(Message::ToolResult(m)) => {
                let outcome = ToolOutcome {
                    text: text_of(&m.content),
                    is_error: m.is_error,
                    diff: find_diff(&m.details),
                    took: None,
                };
                t.attach_tool_result(m.tool_call_id.as_str(), outcome, 0);
            },
            AgentMessage::Custom(_) => {},
        }
        i += 1;
    }
}

// ---------------------------------------------------------------------------
// The start
// ---------------------------------------------------------------------------

/// What a resumed session says first.
pub open spec fn resumed_text(id: Seq<char>, n: nat) -> Seq<char> {
    "resumed session "@ + id + " ("@ + text::decimal(n) + " messages)"@
}

/// The cells and the totals that a session starts with: those of its
/// history, behind a notice where there is one, and the warning.
pub open spec fn opening(
    id: Seq<char>,
    history: Seq<AgentMessage>,
    warning: Option<Seq<char>>,
) -> (Seq<CellView>, Totals) {
    let none = Totals { input: 0, output: 0, cache_read: 0, cost: 0 };
    let (cells, totals) = if history.len() > 0 {
        replayed(
            seq![CellView::Notice(resumed_text(id, history.len()))],
            none,
            history,
            history.len() as int,
        )
    } else {
        (Seq::empty(), none)
    };
    match warning {
        Some(w) => (cells.push(CellView::Notice(w)), totals),
        None => (cells, totals),
    }
}

/// The popup of a session: closed, with the commands, the models, the levels
/// of thinking, the providers and the sessions.
pub open spec fn opening_popup(m: MetaView, sessions: Seq<(String, u64)>) -> AutocompleteView {
    AutocompleteView {
        root: m.cwd,
        commands: menus::command_rows(m.templates),
        arguments: seq![
            ("model"@, menus::model_rows(m.models)),
            ("thinking"@, menus::level_rows()),
            (
                "provider"@,
                menus::provider_rows(providers::providers_of(m.models, m.models.len() as int)),
            ),
            (
                "hot-reload"@,
                menus::session_rows(menus::newest_first(sessions, sessions.len() as int)),
            ),
        ],
        session: None,
    }
}

/// Whether nothing was on the screen yet.
pub open spec fn is_blank_frame(s: Shown) -> bool {
    s.total_lines == 0 && s.top_line == 0 && s.line_cells@.len() == 0 && s.line_tools@.len() == 0
        && s.tools is None && s.chat == (Area { x: 0, y: 0, width: 0, height: 0 })
}

impl App {
    /// Whether the parts are sound: the cursor is within the input, the
    /// selected row is one of the popup's, and no tool call is noted twice.
    pub open spec fn wf(&self) -> bool {
        self.agent.wf() && input::input_ok(self.input@) && autocomplete::popup_ok(
            self.autocomplete@,
        )
    }

    /// The interface of a session. The history of a session that is resumed
    /// is shown again. `sessions` are the files of the project's sessions
    /// with their times.
    pub fn new(
        agent: Agent,
        meta: SessionMeta,
        credentials: Credentials,
        recorder: SessionRecorder,
        sessions: &Vec<(String, u64)>,
        startup_warning: Option<String>,
    ) -> (r: App)
        requires
            agent.wf(),
        ensures
            r.wf(),
            is_blank_frame(r@.shown),
            r@ == (AppView {
                agent: agent@,
                meta: meta@,
                credentials: credentials@,
                cells: opening(
                    recorder@.session_id,
                    agent@.state.messages,
                    resources::opt(startup_warning),
                ).0,
                input: input::no_input(),
                popup: opening_popup(meta@, sessions@),
                totals: opening(
                    recorder@.session_id,
                    agent@.state.messages,
                    resources::opt(startup_warning),
                ).1,
                recorder: recorder@,
                login: None,
                running: false,
                echo_due: false,
                scroll: 0,
                shown: r@.shown,
                should_quit: false,
                pending_prompt: None,
                pending_copy: None,
                pending_reload: None,
                selected: None,
                tools_expanded: false,
                mouse_captured: true,
                mouse_toggle_requested: false,
                requests: Seq::empty(),
            }),
    {
        let autocomplete = Autocomplete::new(meta.cwd.as_str()).with_commands(
            menus::command_candidates(&meta.templates),
        ).with_command_args("model", menus::model_candidates(&meta.models)).with_command_args(
            "thinking",
            menus::thinking_candidates(),
        ).with_command_args(
            "provider",
            menus::provider_candidates(&meta.models),
        ).with_command_args("hot-reload", menus::list_session_id_candidates(sessions));
        assert(autocomplete@.arguments =~= opening_popup(meta@, sessions@).arguments);
        let mut transcript = Transcript::default();
        let mut totals = Totals::default();
        let ghost history = agent@.state.messages;
        let n: usize = agent.state().messages.len();
        if n > 0 {
            let mut notice = concat3("resumed session ", recorder.session_id(), " (");
            notice.push_str(decimal_text(n as u64).as_str());
            notice.push_str(" messages)");
            transcript.push(Cell::Notice { text: notice });
            assert(transcript@ =~= seq![
                CellView::Notice(resumed_text(recorder@.session_id, history.len())),
            ]);
            replay(&mut transcript, &mut totals, &agent.state().messages);
        }
        if let Some(w) = startup_warning {
            transcript.push(Cell::Notice { text: w });
        }
        let r = App {
            agent,
            meta,
            credentials,
            transcript,
            input: InputState::default(),
            autocomplete,
            totals,
            recorder,
            login: None,
            running: false,
            echo_due: false,
            scroll_from_bottom: 0,
            shown: Shown {
                chat: Area { x: 0, y: 0, width: 0, height: 0 },
                tools: None,
                total_lines: 0,
                top_line: 0,
                line_cells: Vec::new(),
                line_tools: Vec::new(),
            },
            should_quit: false,
            pending_prompt: None,
            pending_copy: None,
            pending_reload: None,
            selected_cell: None,
            tools_expanded: false,
            mouse_captured: true,
            mouse_toggle_requested: false,
            requests: Vec::new(),
        };
        assert(r@.requests =~= Seq::empty());
        r
    }

    /// Adds a notice.
    pub fn notice(&mut self, text: String)
        requires
            old(self).wf(),
        ensures
            final(self).wf(),
            final(self)@ == noted(old(self)@, text@),
    {
        self.transcript.push(Cell::Notice { text });
    }

    /// Asks for something.
    pub fn ask(&mut self, request: Request)
        requires
            old(self).wf(),
        ensures
            final(self).wf(),
            final(self)@ == asking(old(self)@, request@),
    {
        let ghost before = self@;
        self.requests.push(request);
        assert(self@.requests =~= before.requests.push(request@));
    }

    /// Hands the requests over.
    pub fn take_requests(&mut self) -> (r: Vec<Request>)
        requires
            old(self).wf(),
        ensures
            final(self).wf(),
            request_views(r@) == old(self)@.requests,
            final(self)@ == (AppView { requests: Seq::empty(), ..old(self)@ }),
    {
        let mut out: Vec<Request> = Vec::new();
        std::mem::swap(&mut out, &mut self.requests);
        assert(self@.requests =~= Seq::empty());
        out
    }

    /// Hands over the prompt that was accepted.
    pub fn take_pending_prompt(&mut self) -> (r: Option<String>)
        requires
            old(self).wf(),
        ensures
            final(self).wf(),
            resources::opt(r) == old(self)@.pending_prompt,
            final(self)@ == (AppView { pending_prompt: None, ..old(self)@ }),
    {
        self.pending_prompt.take()
    }
}

// ---------------------------------------------------------------------------
// Runs
// ---------------------------------------------------------------------------

/// The interface once a run has started with a prompt.
pub open spec fn started(v: AppView, text: Seq<char>) -> AppView {
    AppView {
        agent: AgentView {
            state: agent::StateView {
                is_streaming: true,
                error_message: None,
                ..v.agent.state
            },
            ..v.agent
        },
        cells: v.cells.push(CellView::User(text)),
        running: true,
        echo_due: true,
        ..v
    }
}

/// The interface once a run has ended: trailing prose is the answer.
pub open spec fn finished(v: AppView) -> AppView {
    AppView {
        agent: AgentView {
            state: agent::StateView {
                is_streaming: false,
                pending: Set::empty(),
                ..v.agent.state
            },
            ..v.agent
        },
        cells: transcript::with_answer(v.cells),
        running: false,
        echo_due: false,
        ..v
    }
}

/// The cells after something that the model sent.
pub open spec fn cells_after_update(cells: Seq<CellView>, e: AssistantMessageEvent) -> Seq<CellView> {
    match e {
        AssistantMessageEvent::TextDelta(d) => transcript::with_assistant(cells, d@),
        AssistantMessageEvent::ThinkingDelta(d) => transcript::with_thinking(cells, d@),
        AssistantMessageEvent::ToolCallEnd(call) => cells.push(
            call_cell(call.id@, call.name@, call.arguments@),
        ),
        _ => cells,
    }
}

/// What came of a tool call.
pub open spec fn outcome_view(result: AgentToolResult, is_error: bool) -> OutcomeView {
    OutcomeView {
        text: messages::content_text(result.content@),
        is_error,
        diff: diff_of(result.details),
        took: None,
    }
}

/// What is on the screen after an event, and the totals.
pub open spec fn shown_after(v: AppView, event: AgentEvent, now: u64) -> AppView {
    match event {
        AgentEvent::MessageUpdate { event } => AppView {
            cells: cells_after_update(v.cells, event),
            ..v
        },
        AgentEvent::MessageEnd { message } => match message {
            AgentMessage::Llm(Message::User(u)) => if v.echo_due {
                AppView { echo_due: false, ..v }
            } else {
                AppView { cells: v.cells.push(CellView::User(user_words(*u))), ..v }
            },
            AgentMessage::Llm(Message::Assistant(m)) => AppView {
                cells: v.cells.push(ending_cell(*m)),
                totals: totals_after(v.totals, *m),
                ..v
            },
            _ => v,
        },
        AgentEvent::ToolExecutionStart { tool_call_id, .. } => AppView {
            cells: transcript::with_started(v.cells, tool_call_id@, now),
            ..v
        },
        AgentEvent::ToolExecutionUpdate { tool_call_id, partial, .. } => AppView {
            cells: transcript::with_progress(
                v.cells,
                tool_call_id@,
                messages::content_text(partial.content@),
            ),
            ..v
        },
        AgentEvent::ToolExecutionEnd { tool_call_id, result, is_error, .. } => AppView {
            cells: transcript::with_result(
                v.cells,
                tool_call_id@,
                outcome_view(*result, is_error),
                now,
            ),
            ..v
        },
        AgentEvent::CompactionStart { reason } => noted(
            v,
            match reason {
                CompactionReason::Threshold => "compacting context (context filling up)..."@,
                CompactionReason::Overflow => "compacting context (context overflow)..."@,
            },
        ),
        AgentEvent::CompactionEnd { tokens_before, tokens_after, error, summary } => {
            let said = noted(
                v,
                notices::compaction_text(tokens_before, tokens_after, resources::opt(error)),
            );
            match (error, summary) {
                (None, Some(s)) => AppView { cells: said.cells.push(CellView::Summary(s@)), ..said },
                _ => said,
            }
        },
        AgentEvent::AutoRetry { attempt, max_attempts, delay_ms, error_message } => noted(
            v,
            notices::retry_text(attempt, max_attempts, delay_ms, error_message@),
        ),
        AgentEvent::AgentEnd { .. } => finished(v),
        _ => v,
    }
}

/// The interface with an event noted in the agent's state.
pub open spec fn applied(v: AppView, event: AgentEvent) -> AppView {
    AppView {
        agent: AgentView { state: agent::reduced(v.agent.state, event), ..v.agent },
        ..v
    }
}

/// The interface after an event.
pub open spec fn after_event(v: AppView, event: AgentEvent, now: u64) -> AppView {
    shown_after(applied(v, event), event, now)
}

/// Whether an event brings a message that is to be recorded: every final
/// message but the prompt, which was recorded when the run started.
pub open spec fn is_recorded(v: AppView, event: AgentEvent) -> bool {
    event matches AgentEvent::MessageEnd { message } && !(messages::is_user(message) && v.echo_due)
}

impl App {
    /// Whether a run is under way.
    pub fn is_running(&self) -> (r: bool)
        ensures
            r == self@.running,
    {
        self.running
    }

    /// Starts the run of a prompt. The prompt leads what the run shows. A
    /// prompt that the agent refuses is answered with the reason.
    pub fn start_run(&mut self, prompt: &str, now: u64) -> (r: Option<
        (AgentLoop, Vec<AgentEvent>, LoopAction),
    >)
        requires
            old(self).wf(),
        ensures
            final(self).wf(),
            match r {
                Some((run, events, action)) => {
                    &&& !old(self)@.agent.state.is_streaming
                    &&& final(self)@ == started(old(self)@, prompt@)
                    &&& agent_loop::loop_ok(run@)
                    &&& run@.new.len() == 1
                    &&& messages::is_user_text(run@.new[0], prompt@, now)
                    &&& agent_loop::begins(
                        run@,
                        old(self)@.agent.state.messages + run@.new,
                        run@.new,
                    )
                    &&& events@ == agent_loop::all_ended(run@.new)
                    &&& action is AskSteering
                },
                None => old(self)@.agent.state.is_streaming && final(self)@ == (AppView {
                    cells: old(self)@.cells.push(
                        CellView::Error(
                            "agent is already processing a prompt; wait for completion"@,
                        ),
                    ),
                    ..old(self)@
                }),
            },
    {
        match self.agent.prompt_text(prompt, now) {
            Ok(run) => {
                self.transcript.push(Cell::User { text: prompt.to_owned() });
                self.running = true;
                self.echo_due = true;
                Some(run)
            },
            Err(e) => {
                self.transcript.push(Cell::Error { text: e.message().to_owned() });
                None
            },
        }
    }

    /// Ends the run.
    pub fn finish_run(&mut self)
        requires
            old(self).wf(),
        ensures
            final(self).wf(),
            final(self)@ == finished(old(self)@),
    {
        self.agent.finish();
        self.transcript.promote_final_answer();
        self.running = false;
        self.echo_due = false;
    }

    /// Notes an event of the run, and says whether its message is to be
    /// recorded.
    pub fn on_agent_event(&mut self, event: &AgentEvent, now: u64) -> (r: bool)
        requires
            old(self).wf(),
        ensures
            final(self).wf(),
            final(self)@ == after_event(old(self)@, *event, now),
            r == is_recorded(old(self)@, *event),
    {
        self.agent.apply(event);
        let mut recorded = false;
        match event {
            AgentEvent::MessageUpdate { event } => match event {
                AssistantMessageEvent::TextDelta(d) => {
                    self.transcript.append_assistant(d.as_str());
                },
                AssistantMessageEvent::ThinkingDelta(d) => {
                    self.transcript.append_thinking(d.as_str());
                },
                AssistantMessageEvent::ToolCallEnd(call) => {
                    self.transcript.push(new_call(&call.id, &call.name, call.arguments.as_str()));
                },
                _ => {},
            },
            AgentEvent::MessageEnd { message } => {
                recorded = true;
                match message {
                    AgentMessage::Llm(Message::User(u)) => {
                        if self.echo_due {
                            self.echo_due = false;
                            recorded = false;
                        } else {
                            self.transcript.push(Cell::User { text: words_of(u) });
                        }
                    },
                    AgentMessage::Llm(Message::Assistant(m)) => {
                        self.transcript.push(ending_of(m));
                        if !is_failure(m.stop_reason) {
                            self.totals.note(&m.usage);
                        }
                    },
                    _ => {},
                }
            },
            AgentEvent::ToolExecutionStart { tool_call_id, .. } => {
                self.transcript.mark_tool_started(tool_call_id.as_str(), now);
            },
            AgentEvent::ToolExecutionUpdate { tool_call_id, partial, .. } => {
                self.transcript.attach_tool_progress(
                    tool_call_id.as_str(),
                    text_of(&partial.content),
                );
            },
            AgentEvent::ToolExecutionEnd { tool_call_id, result, is_error, .. } => {
                let outcome = ToolOutcome {
                    text: text_of(&result.content),
                    is_error: *is_error,
                    diff: find_diff(&result.details),
                    took: None,
                };
                self.transcript.attach_tool_result(tool_call_id.as_str(), outcome, now);
            },
            AgentEvent::CompactionStart { reason } => {
                self.notice(compaction_started(*reason));
            },
            AgentEvent::CompactionEnd { tokens_before, tokens_after, error, summary } => {
                self.notice(compaction_ended(*tokens_before, *tokens_after, error));
                if error.is_none() {
                    if let Some(s) = summary {
                        self.transcript.push(Cell::Summary { text: s.clone() });
                    }
                }
            },
            AgentEvent::AutoRetry { attempt, max_attempts, delay_ms, error_message } => {
                self.notice(
                    retry_notice(*attempt, *max_attempts, *delay_ms, error_message.as_str()),
                );
            },
            AgentEvent::AgentEnd { .. } => {
                self.finish_run();
            },
            AgentEvent::TurnEnd { .. } => {},
        }
        recorded
    }
}

/// A run shows its prompt once: the cell is there when the run starts, and
/// the announcement of the prompt adds none.
pub proof fn law_prompts_are_shown_once(v: AppView, text: Seq<char>, m: AgentMessage, now: u64)
    requires
        messages::is_user_text(m, text, now),
    ensures
        after_event(started(v, text), AgentEvent::MessageEnd { message: m }, now).cells
            == v.cells.push(CellView::User(text)),
        !is_recorded(started(v, text), AgentEvent::MessageEnd { message: m }),
{
}

/// No event of the agent touches what the user is typing.
pub proof fn law_events_leave_the_input_alone(v: AppView, event: AgentEvent, now: u64)
    ensures
        after_event(v, event, now).input == v.input,
        after_event(v, event, now).popup == v.popup,
        after_event(v, event, now).scroll == v.scroll,
        after_event(v, event, now).pending_prompt == v.pending_prompt,
{
}

/// The transcript remains the whole conversation: every final message is
/// recorded, the prompt once when its run starts, and nothing else is.
/// Compaction in particular records nothing.
pub proof fn law_messages_are_recorded_and_nothing_else(v: AppView, event: AgentEvent)
    ensures
        is_recorded(v, event) ==> event is MessageEnd,
        event is MessageEnd && !v.echo_due ==> is_recorded(v, event),
        event is CompactionStart || event is CompactionEnd ==> !is_recorded(v, event),
{
}

/// A text that is too long is cut so that it has the length that is allowed,
/// dots included, and starts as before; any other stays whole.
pub proof fn law_compacted_texts_keep_their_beginning(s: Seq<char>, max: nat)
    ensures
        s.len() <= max ==> compacted(s, max) == s,
        s.len() > max ==> compacted(s, max).len() == max,
        s.len() > max && max >= 3 ==> compacted(s, max) == s.take(max - 3) + seq!['.', '.', '.'],
        s.len() > max && max < 3 ==> compacted(s, max) == s.take(max as int),
{
    reveal_strlit("...");
    if s.len() > max && max >= 3 {
        assert(compacted(s, max) =~= s.take(max - 3) + seq!['.', '.', '.']);
    }
}

/// A call is shown with its name and up to two hundred characters of its
/// arguments, and as one that has not started.
pub proof fn law_calls_show_name_and_arguments(
    id: Seq<char>,
    name: Seq<char>,
    arguments: Seq<char>,
)
    ensures
        call_cell(id, name, arguments) is Tool,
        ({
            let t = call_cell(id, name, arguments)->Tool_0;
            &&& t.id == id && t.name == name
            &&& arguments.len() <= 200 ==> t.call == "["@ + name + "] "@ + arguments
            &&& arguments.len() > 200 ==> t.call == "["@ + name + "] "@ + (arguments.take(197)
                + "..."@)
            &&& !t.expanded && t.started_at is None && t.live is None && t.result is None
        }),
{
}

/// Every piece of what a model said is shown, in its order and as what it
/// is.
pub proof fn law_every_piece_is_shown(v: Seq<AssistantContent>, k: int)
    requires
        0 <= k < v.len(),
    ensures
        content_cells(v).len() == v.len(),
        v[k] matches AssistantContent::Text(s) ==> content_cells(v)[k] == CellView::Assistant(s@),
        v[k] matches AssistantContent::Thinking(s) ==> content_cells(v)[k] == CellView::Thinking(
            s@,
        ),
        v[k] matches AssistantContent::ToolCall(c) ==> content_cells(v)[k] is Tool
            && content_cells(v)[k]->Tool_0.id == c.id@ && content_cells(v)[k]->Tool_0.name
            == c.name@,
{
}

/// What a message used, if it did not fail.
pub open spec fn used(m: AgentMessage) -> Option<Usage> {
    match m {
        AgentMessage::Llm(Message::Assistant(a)) => if a.stop_reason is Error || a.stop_reason
            is Aborted {
            None
        } else {
            Some(a.usage)
        },
        _ => None,
    }
}

/// What messages used of one kind, all taken together.
pub open spec fn used_up(v: Seq<AgentMessage>, kind: spec_fn(Usage) -> u64) -> nat {
    v.fold_left(
        0,
        |n: nat, m: AgentMessage|
            match used(m) {
                Some(u) => n + kind(u) as nat,
                None => n,
            },
    )
}

proof fn lemma_used_up(v: Seq<AgentMessage>, n: int, kind: spec_fn(Usage) -> u64)
    requires
        0 < n <= v.len(),
    ensures
        used_up(v.take(n), kind) == used_up(v.take(n - 1), kind) + (match used(v[n - 1]) {
            Some(u) => kind(u) as nat,
            None => 0,
        }),
{
    assert(v.take(n).drop_last() =~= v.take(n - 1));
    assert(v.take(n).last() == v[n - 1]);
}

proof fn lemma_replayed_totals(cells: Seq<CellView>, v: Seq<AgentMessage>, n: int)
    requires
        0 <= n <= v.len(),
    ensures
        ({
            let t = replayed(
                cells,
                Totals { input: 0, output: 0, cache_read: 0, cost: 0 },
                v,
                n,
            ).1;
            &&& t.input == compaction::capped(used_up(v.take(n), |u: Usage| u.input))
            &&& t.output == compaction::capped(used_up(v.take(n), |u: Usage| u.output))
            &&& t.cache_read == compaction::capped(used_up(v.take(n), |u: Usage| u.cache_read))
            &&& t.cost == compaction::capped(used_up(v.take(n), |u: Usage| u.cost))
        }),
    decreases n,
{
    if n > 0 {
        lemma_replayed_totals(cells, v, n - 1);
        lemma_used_up(v, n, |u: Usage| u.input);
        lemma_used_up(v, n, |u: Usage| u.output);
        lemma_used_up(v, n, |u: Usage| u.cache_read);
        lemma_used_up(v, n, |u: Usage| u.cost);
    } else {
        assert(v.take(n) =~= Seq::empty());
    }
}

/// The totals of a session that is taken up again are what all its answers
/// used together, those that failed left out, as far as the count goes.
pub proof fn law_totals_add_up(cells: Seq<CellView>, v: Seq<AgentMessage>)
    ensures
        ({
            let t = replayed(
                cells,
                Totals { input: 0, output: 0, cache_read: 0, cost: 0 },
                v,
                v.len() as int,
            ).1;
            &&& used_up(v, |u: Usage| u.input) <= u64::MAX ==> t.input == used_up(
                v,
                |u: Usage| u.input,
            )
            &&& used_up(v, |u: Usage| u.output) <= u64::MAX ==> t.output == used_up(
                v,
                |u: Usage| u.output,
            )
            &&& used_up(v, |u: Usage| u.cache_read) <= u64::MAX ==> t.cache_read == used_up(
                v,
                |u: Usage| u.cache_read,
            )
            &&& used_up(v, |u: Usage| u.cost) <= u64::MAX ==> t.cost == used_up(
                v,
                |u: Usage| u.cost,
            )
        }),
{
    lemma_replayed_totals(cells, v, v.len() as int);
    assert(v.take(v.len() as int) =~= v);
}

/// A history is shown message by message: what the first part shows is what
/// the second part goes on from.
pub proof fn law_histories_are_shown_in_order(
    cells: Seq<CellView>,
    totals: Totals,
    a: Seq<AgentMessage>,
    b: Seq<AgentMessage>,
    n: int,
)
    requires
        0 <= n <= b.len(),
    ensures
        ({
            let first = replayed(cells, totals, a, a.len() as int);
            replayed(cells, totals, a + b, a.len() + n) == replayed(first.0, first.1, b, n)
        }),
    decreases n,
{
    if n > 0 {
        law_histories_are_shown_in_order(cells, totals, a, b, n - 1);
        assert((a + b)[a.len() + n - 1] == b[n - 1]);
    } else {
        lemma_replayed_prefix(cells, totals, a, b, a.len() as int);
    }
}

proof fn lemma_replayed_prefix(
    cells: Seq<CellView>,
    totals: Totals,
    a: Seq<AgentMessage>,
    b: Seq<AgentMessage>,
    n: int,
)
    requires
        0 <= n <= a.len(),
    ensures
        replayed(cells, totals, a + b, n) == replayed(cells, totals, a, n),
    decreases n,
{
    if n > 0 {
        lemma_replayed_prefix(cells, totals, a, b, n - 1);
        assert((a + b)[n - 1] == a[n - 1]);
    }
}

/// Of a single message everything is shown: what the user said, or every
/// piece of an answer and how it ended. What the program noted for itself is
/// not.
pub proof fn law_every_message_is_shown(cells: Seq<CellView>, totals: Totals, m: AgentMessage)
    ensures
        m matches AgentMessage::Llm(Message::User(u)) ==> replayed(cells, totals, seq![m], 1) == (
            cells.push(CellView::User(user_words(*u))),
            totals,
        ),
        m matches AgentMessage::Llm(Message::Assistant(a)) ==> replayed(
            cells,
            totals,
            seq![m],
            1,
        ).0 == (cells + content_cells(a.content@)).push(ending_cell(*a)),
        m matches AgentMessage::Llm(Message::ToolResult(r)) ==> replayed(
            cells,
            totals,
            seq![m],
            1,
        ).0 == transcript::with_result(cells, r.tool_call_id@, outcome_of(*r), 0),
        m is Custom ==> replayed(cells, totals, seq![m], 1) == (cells, totals),
{
    reveal_with_fuel(replayed, 2);
}

/// An answer that failed ends with its error, any other with what it used.
pub proof fn law_answers_end_with_an_error_or_usage(m: AssistantMessage)
    ensures
        m.stop_reason is Error || m.stop_reason is Aborted <==> ending_cell(m) is Error,
        m.stop_reason is Error && m.error_message is Some ==> ending_cell(m) == CellView::Error(
            m.error_message.unwrap()@,
        ),
        !(ending_cell(m) is Error) ==> ending_cell(m) is Usage,
{
}

} // verus!
