//! The agent: its history and set-up between runs, and what the events of a
//! run change of them.
use std::sync::Arc;

use vstd::prelude::*;

use crate::agent_loop::{agent_loop, AgentLoop, AgentLoopConfig, LoopAction, LoopModel};
use crate::compaction::{AgentContext, CompactionConfig, ToolInfo};
use crate::messages::{share_all, AgentMessage, Message, ThinkingLevel};
use crate::models::Model;
use crate::text::same_str;
use crate::types::{AgentEvent, RetryConfig, ToolExecutionMode};
use crate::{agent_loop, messages, resources};

verus! {

/// What the agent knows between and during runs.
#[derive(Debug)]
pub struct AgentState {
    pub system_prompt: String,
    pub model: Arc<Model>,
    /// `None` is no thinking at all.
    pub thinking_level: Option<ThinkingLevel>,
    pub messages: Vec<AgentMessage>,
    /// Whether a run is under way.
    pub is_streaming: bool,
    /// The tool calls that are being executed, each once.
    pub pending_tool_calls: Vec<String>,
    /// What went wrong in the last turn that failed.
    pub error_message: Option<String>,
}

/// The state of an agent, in terms of texts and sequences.
#[verifier::ext_equal]
pub struct StateView {
    pub system_prompt: Seq<char>,
    pub model: Arc<Model>,
    pub thinking_level: Option<ThinkingLevel>,
    pub messages: Seq<AgentMessage>,
    pub is_streaming: bool,
    pub pending: Set<Seq<char>>,
    pub error_message: Option<Seq<char>>,
}

/// The texts of a list, in no order.
pub open spec fn ids(v: Seq<String>) -> Set<Seq<char>> {
    Set::new(|s: Seq<char>| exists|k: int| 0 <= k < v.len() && (#[trigger] v[k])@ == s)
}

/// Whether no text stands in a list twice.
pub open spec fn distinct(v: Seq<String>) -> bool {
    forall|i: int, j: int| 0 <= i < j < v.len() ==> (#[trigger] v[i])@ != (#[trigger] v[j])@
}

impl View for AgentState {
    type V = StateView;

    open spec fn view(&self) -> StateView {
        StateView {
            system_prompt: self.system_prompt@,
            model: self.model,
            thinking_level: self.thinking_level,
            messages: self.messages@,
            is_streaming: self.is_streaming,
            pending: ids(self.pending_tool_calls@),
            error_message: resources::opt(self.error_message),
        }
    }
}

/// Why a prompt is refused.
#[derive(Debug, Clone, Copy, PartialEq, Eq, Structural)]
pub enum AgentError {
    /// A run is under way.
    Busy,
}

impl AgentError {
    /// The error in words.
    pub fn message(&self) -> (r: &'static str)
        ensures
            r@ == "agent is already processing a prompt; wait for completion"@,
    {
        "agent is already processing a prompt; wait for completion"
    }
}

/// What an agent starts with.
pub struct AgentOptions {
    pub system_prompt: String,
    pub model: Arc<Model>,
    pub thinking_level: Option<ThinkingLevel>,
    pub tools: Vec<ToolInfo>,
    pub api_key: Option<String>,
    pub session_id: Option<String>,
    pub max_tokens: Option<u64>,
    pub tool_execution: ToolExecutionMode,
    pub retry: RetryConfig,
    pub compaction: CompactionConfig,
    pub messages: Vec<AgentMessage>,
}

impl AgentOptions {
    /// The options of an agent that has a model and nothing else.
    pub fn new(model: Arc<Model>) -> (r: AgentOptions)
        ensures
            r.model == model,
            r.system_prompt@.len() == 0,
            r.thinking_level is None,
            r.tools@.len() == 0,
            r.api_key is None,
            r.session_id is None,
            r.max_tokens is None,
            r.tool_execution == ToolExecutionMode::Parallel,
            r.retry == (RetryConfig { max_retries: 3, base_delay_ms: 2000 }),
            r.compaction == (CompactionConfig {
                enabled: true,
                reserve_tokens: 16_384,
                keep_recent_tokens: 20_000,
            }),
            r.messages@.len() == 0,
    {
        AgentOptions {
            system_prompt: String::new(),
            model,
            thinking_level: None,
            tools: Vec::new(),
            api_key: None,
            session_id: None,
            max_tokens: None,
            tool_execution: ToolExecutionMode::default(),
            retry: RetryConfig::default(),
            compaction: CompactionConfig::default(),
            messages: Vec::new(),
        }
    }
}

/// An agent.
pub struct Agent {
    state: AgentState,
    tools: Vec<ToolInfo>,
    api_key: Option<String>,
    session_id: Option<String>,
    max_tokens: Option<u64>,
    tool_execution: ToolExecutionMode,
    retry: RetryConfig,
    compaction: CompactionConfig,
}

/// An agent: its state, its tools, and what its runs are set up with.
#[verifier::ext_equal]
pub struct AgentView {
    pub state: StateView,
    pub tools: Seq<ToolInfo>,
    pub api_key: Option<Seq<char>>,
    pub session_id: Option<Seq<char>>,
    pub max_tokens: Option<u64>,
    pub tool_execution: ToolExecutionMode,
    pub retry: RetryConfig,
    pub compaction: CompactionConfig,
}

impl View for Agent {
    type V = AgentView;

    closed spec fn view(&self) -> AgentView {
        AgentView {
            state: self.state@,
            tools: self.tools@,
            api_key: resources::opt(self.api_key),
            session_id: resources::opt(self.session_id),
            max_tokens: self.max_tokens,
            tool_execution: self.tool_execution,
            retry: self.retry,
            compaction: self.compaction,
        }
    }
}

/// The state after an event: messages join the history, tool calls come and
/// go, and the error of a turn is kept.
pub open spec fn reduced(s: StateView, event: AgentEvent) -> StateView {
    match event {
        AgentEvent::MessageEnd { message } => StateView { messages: s.messages.push(message), ..s },
        AgentEvent::ToolExecutionStart { tool_call_id, .. } => StateView {
            pending: s.pending.insert(tool_call_id@),
            ..s
        },
        AgentEvent::ToolExecutionEnd { tool_call_id, .. } => StateView {
            pending: s.pending.remove(tool_call_id@),
            ..s
        },
        AgentEvent::TurnEnd { message, .. } => match message {
            AgentMessage::Llm(Message::Assistant(m)) => match m.error_message {
                Some(e) => StateView { error_message: Some(e@), ..s },
                None => s,
            },
            _ => s,
        },
        _ => s,
    }
}

/// The state after the first `n` events.
pub open spec fn reduced_all(s: StateView, events: Seq<AgentEvent>, n: int) -> StateView
    decreases n,
{
    if n <= 0 {
        s
    } else {
        reduced(reduced_all(s, events, n - 1), events[n - 1])
    }
}

/// The model as a run sees it.
pub open spec fn loop_model(m: Model) -> LoopModel {
    LoopModel {
        id: m.id,
        api: m.api,
        provider: m.provider,
        context_window: m.context_window,
        max_tokens: m.max_tokens,
    }
}

fn copy_tools(v: &Vec<ToolInfo>) -> (r: Vec<ToolInfo>)
    ensures
        r@ == v@,
{
    let mut out: Vec<ToolInfo> = Vec::new();
    let mut i: usize = 0;
    while i < v.len()
        invariant
            i <= v@.len(),
            out@ == v@.take(i as int),
        decreases v@.len() - i,
    {
        out.push(
            ToolInfo {
                name: v[i].name.clone(),
                description: v[i].description.clone(),
                parameters: v[i].parameters.clone(),
                sequential: v[i].sequential,
            },
        );
        assert(out@ =~= v@.take(i + 1));
        i += 1;
    }
    assert(out@ =~= v@);
    out
}

fn find_id(v: &Vec<String>, id: &str) -> (r: Option<usize>)
    ensures
        match r {
            Some(i) => i < v@.len() && v@[i as int]@ == id@,
            None => !ids(v@).contains(id@),
        },
{
    let mut i: usize = 0;
    while i < v.len()
        invariant
            i <= v@.len(),
            forall|k: int| 0 <= k < i ==> (#[trigger] v@[k])@ != id@,
        decreases v@.len() - i,
    {
        if same_str(v[i].as_str(), id) {
            return Some(i);
        }
        i += 1;
    }
    None
}

proof fn lemma_ids_push(v: Seq<String>, s: String)
    ensures
        ids(v.push(s)) == ids(v).insert(s@),
{
    assert forall|x: Seq<char>| ids(v.push(s)).contains(x) == ids(v).insert(s@).contains(x) by {
        if ids(v).contains(x) {
            let k = choose|k: int| 0 <= k < v.len() && (#[trigger] v[k])@ == x;
            assert(v.push(s)[k]@ == x);
        }
        if x == s@ {
            assert(v.push(s)[v.len() as int]@ == x);
        }
    }
    assert(ids(v.push(s)) =~= ids(v).insert(s@));
}

proof fn lemma_ids_remove(v: Seq<String>, i: int)
    requires
        0 <= i < v.len(),
        distinct(v),
    ensures
        ids(v.remove(i)) == ids(v).remove(v[i]@),
        distinct(v.remove(i)),
{
    let r = v.remove(i);
    assert forall|a: int, b: int| 0 <= a < b < r.len() implies (#[trigger] r[a])@ != (
    #[trigger] r[b])@ by {
        let x = if a < i {
            a
        } else {
            a + 1
        };
        let y = if b < i {
            b
        } else {
            b + 1
        };
        assert(v[x]@ != v[y]@);
    }
    assert forall|x: Seq<char>| ids(r).contains(x) == ids(v).remove(v[i]@).contains(x) by {
        if ids(r).contains(x) {
            let k = choose|k: int| 0 <= k < r.len() && (#[trigger] r[k])@ == x;
            let j = if k < i {
                k
            } else {
                k + 1
            };
            assert(v[j]@ == x);
        }
        if ids(v).contains(x) && x != v[i]@ {
            let k = choose|k: int| 0 <= k < v.len() && (#[trigger] v[k])@ == x;
            let j = if k < i {
                k
            } else {
                k - 1
            };
            assert(r[j]@ == x);
        }
    }
    assert(ids(r) =~= ids(v).remove(v[i]@));
}

impl Agent {
    /// Whether no tool call is noted twice.
    pub closed spec fn wf(&self) -> bool {
        distinct(self.state.pending_tool_calls@)
    }

    /// An agent that has not run yet.
    pub fn new(options: AgentOptions) -> (r: Agent)
        ensures
            r.wf(),
            r@ == (AgentView {
                state: StateView {
                    system_prompt: options.system_prompt@,
                    model: options.model,
                    thinking_level: options.thinking_level,
                    messages: options.messages@,
                    is_streaming: false,
                    pending: Set::empty(),
                    error_message: None,
                },
                tools: options.tools@,
                api_key: resources::opt(options.api_key),
                session_id: resources::opt(options.session_id),
                max_tokens: options.max_tokens,
                tool_execution: options.tool_execution,
                retry: options.retry,
                compaction: options.compaction,
            }),
    {
        let r = Agent {
            state: AgentState {
                system_prompt: options.system_prompt,
                model: options.model,
                thinking_level: options.thinking_level,
                messages: options.messages,
                is_streaming: false,
                pending_tool_calls: Vec::new(),
                error_message: None,
            },
            tools: options.tools,
            api_key: options.api_key,
            session_id: options.session_id,
            max_tokens: options.max_tokens,
            tool_execution: options.tool_execution,
            retry: options.retry,
            compaction: options.compaction,
        };
        assert(ids(r.state.pending_tool_calls@) =~= Set::empty());
        r
    }

    /// The state.
    pub fn state(&self) -> (r: &AgentState)
        ensures
            r@ == self@.state,
    {
        &self.state
    }

    /// Picks the model of future runs. A run under way keeps the one that it
    /// started with.
    pub fn set_model(&mut self, model: Arc<Model>)
        requires
            old(self).wf(),
        ensures
            final(self).wf(),
            final(self)@ == (AgentView {
                state: StateView { model, ..old(self)@.state },
                ..old(self)@
            }),
    {
        self.state.model = model;
    }

    /// Sets the key of future runs.
    pub fn set_api_key(&mut self, api_key: Option<String>)
        requires
            old(self).wf(),
        ensures
            final(self).wf(),
            final(self)@ == (AgentView { api_key: resources::opt(api_key), ..old(self)@ }),
    {
        self.api_key = api_key;
    }

    /// The key of future runs.
    pub fn api_key(&self) -> (r: Option<&str>)
        ensures
            match r {
                Some(k) => self@.api_key == Some(k@),
                None => self@.api_key is None,
            },
    {
        match &self.api_key {
            Some(k) => Some(k.as_str()),
            None => None,
        }
    }

    /// The id of the session.
    pub fn session_id(&self) -> (r: Option<&str>)
        ensures
            match r {
                Some(k) => self@.session_id == Some(k@),
                None => self@.session_id is None,
            },
    {
        match &self.session_id {
            Some(k) => Some(k.as_str()),
            None => None,
        }
    }

    /// The largest answer that runs ask for.
    pub fn max_tokens(&self) -> (r: Option<u64>)
        ensures
            r == self@.max_tokens,
    {
        self.max_tokens
    }

    /// Sets how hard the model thinks in future runs.
    pub fn set_thinking_level(&mut self, level: Option<ThinkingLevel>)
        requires
            old(self).wf(),
        ensures
            final(self).wf(),
            final(self)@ == (AgentView {
                state: StateView { thinking_level: level, ..old(self)@.state },
                ..old(self)@
            }),
    {
        self.state.thinking_level = level;
    }

    /// How hard the model thinks in future runs.
    pub fn thinking_level(&self) -> (r: Option<ThinkingLevel>)
        ensures
            r == self@.state.thinking_level,
    {
        self.state.thinking_level
    }

    /// Whether the model can think at all.
    pub fn model_supports_reasoning(&self) -> (r: bool)
        ensures
            r == self@.state.model.reasoning,
    {
        self.state.model.reasoning
    }

    /// Forgets the conversation.
    pub fn reset(&mut self)
        requires
            old(self).wf(),
        ensures
            final(self).wf(),
            final(self)@ == (AgentView {
                state: StateView { messages: Seq::empty(), error_message: None, ..old(self)@.state },
                ..old(self)@
            }),
    {
        self.state.messages = Vec::new();
        self.state.error_message = None;
    }

    /// Starts a run with new messages: hands out the run, what it announces
    /// first and its first action. While a run is under way there is no
    /// other.
    pub fn prompt(&mut self, prompts: Vec<AgentMessage>) -> (r: Result<
        (AgentLoop, Vec<AgentEvent>, LoopAction),
        AgentError,
    >)
        requires
            old(self).wf(),
        ensures
            final(self).wf(),
            match r {
                Ok((run, events, action)) => {
                    &&& !old(self)@.state.is_streaming
                    &&& final(self)@ == (AgentView {
                        state: StateView {
                            is_streaming: true,
                            error_message: None,
                            ..old(self)@.state
                        },
                        ..old(self)@
                    })
                    &&& agent_loop::loop_ok(run@)
                    &&& agent_loop::begins(run@, old(self)@.state.messages + prompts@, prompts@)
                    &&& run@.context.system_prompt@ == old(self)@.state.system_prompt
                    &&& run@.context.tools@ == old(self)@.tools
                    &&& run@.config == (AgentLoopConfig {
                        model: loop_model(*old(self)@.state.model),
                        thinking_level: old(self)@.state.thinking_level,
                        tool_execution: old(self)@.tool_execution,
                        retry: old(self)@.retry,
                        compaction: old(self)@.compaction,
                    })
                    &&& events@ == agent_loop::all_ended(prompts@)
                    &&& action is AskSteering
                },
                Err(e) => old(self)@.state.is_streaming && e == AgentError::Busy && final(self)@
                    == old(self)@,
            },
    {
        if self.state.is_streaming {
            return Err(AgentError::Busy);
        }
        let context = AgentContext {
            system_prompt: self.state.system_prompt.clone(),
            messages: share_all(&self.state.messages),
            tools: copy_tools(&self.tools),
        };
        let config = AgentLoopConfig {
            model: LoopModel {
                id: self.state.model.id.clone(),
                api: self.state.model.api.clone(),
                provider: self.state.model.provider.clone(),
                context_window: self.state.model.context_window,
                max_tokens: self.state.model.max_tokens,
            },
            thinking_level: self.state.thinking_level,
            tool_execution: self.tool_execution,
            retry: self.retry,
            compaction: self.compaction,
        };
        self.state.is_streaming = true;
        self.state.error_message = None;
        Ok(agent_loop(prompts, context, config))
    }

    /// Starts a run with a text of the user.
    pub fn prompt_text(&mut self, text: &str, now: u64) -> (r: Result<
        (AgentLoop, Vec<AgentEvent>, LoopAction),
        AgentError,
    >)
        requires
            old(self).wf(),
        ensures
            final(self).wf(),
            match r {
                Ok((run, events, action)) => {
                    &&& !old(self)@.state.is_streaming
                    &&& final(self)@ == (AgentView {
                        state: StateView {
                            is_streaming: true,
                            error_message: None,
                            ..old(self)@.state
                        },
                        ..old(self)@
                    })
                    &&& agent_loop::loop_ok(run@)
                    &&& run@.new.len() == 1
                    &&& messages::is_user_text(run@.new[0], text@, now)
                    &&& agent_loop::begins(run@, old(self)@.state.messages + run@.new, run@.new)
                    &&& run@.context.system_prompt@ == old(self)@.state.system_prompt
                    &&& run@.context.tools@ == old(self)@.tools
                    &&& run@.config == (AgentLoopConfig {
                        model: loop_model(*old(self)@.state.model),
                        thinking_level: old(self)@.state.thinking_level,
                        tool_execution: old(self)@.tool_execution,
                        retry: old(self)@.retry,
                        compaction: old(self)@.compaction,
                    })
                    &&& events@ == agent_loop::all_ended(run@.new)
                    &&& action is AskSteering
                },
                Err(e) => old(self)@.state.is_streaming && e == AgentError::Busy && final(self)@
                    == old(self)@,
            },
    {
        let mut prompts: Vec<AgentMessage> = Vec::new();
        prompts.push(AgentMessage::user_text(text.to_owned(), now));
        self.prompt(prompts)
    }

    /// Notes an event of the run.
    pub fn apply(&mut self, event: &AgentEvent)
        requires
            old(self).wf(),
        ensures
            final(self).wf(),
            final(self)@ == (AgentView {
                state: reduced(old(self)@.state, *event),
                ..old(self)@
            }),
    {
        let ghost before = self@;
        match event {
            AgentEvent::MessageEnd { message } => {
                self.state.messages.push(message.share());
            },
            AgentEvent::ToolExecutionStart { tool_call_id, .. } => {
                let ghost v = self.state.pending_tool_calls@;
                match find_id(&self.state.pending_tool_calls, tool_call_id.as_str()) {
                    Some(i) => {
                        assert(v[i as int]@ == tool_call_id@);
                        assert(ids(v).insert(tool_call_id@) =~= ids(v));
                    },
                    None => {
                        self.state.pending_tool_calls.push(tool_call_id.clone());
                        proof {
                            lemma_ids_push(v, *tool_call_id);
                            assert forall|i: int, j: int|
                                0 <= i < j < v.push(*tool_call_id).len() implies (
                            #[trigger] v.push(*tool_call_id)[i])@ != (#[trigger] v.push(
                                *tool_call_id,
                            )[j])@ by {
                                assert(v[i]@ == v.push(*tool_call_id)[i]@);
                                if j < v.len() {
                                    assert(v[j]@ == v.push(*tool_call_id)[j]@);
                                } else {
                                    assert(ids(v).contains(v[i]@));
                                }
                            }
                        }
                    },
                }
            },
            AgentEvent::ToolExecutionEnd { tool_call_id, .. } => {
                let ghost v = self.state.pending_tool_calls@;
                match find_id(&self.state.pending_tool_calls, tool_call_id.as_str()) {
                    Some(i) => {
                        self.state.pending_tool_calls.remove(i);
                        proof {
                            lemma_ids_remove(v, i as int);
                        }
                    },
                    None => {
                        assert(ids(v).remove(tool_call_id@) =~= ids(v));
                    },
                }
            },
            AgentEvent::TurnEnd { message, .. } => {
                if let AgentMessage::Llm(Message::Assistant(m)) = message {
                    if let Some(e) = &m.error_message {
                        self.state.error_message = Some(e.clone());
                    }
                }
            },
            _ => {},
        }
        assert(self@ =~= AgentView { state: reduced(before.state, *event), ..before });
    }

    /// Notes that the run is over.
    pub fn finish(&mut self)
        requires
            old(self).wf(),
        ensures
            final(self).wf(),
            final(self)@ == (AgentView {
                state: StateView { is_streaming: false, pending: Set::empty(), ..old(self)@.state },
                ..old(self)@
            }),
    {
        self.state.is_streaming = false;
        self.state.pending_tool_calls = Vec::new();
        assert(ids(self.state.pending_tool_calls@) =~= Set::empty());
    }
}

/// The history follows the announcements: after the events of a run it is
/// what it was before, and the messages that were announced, in order.
pub proof fn law_the_history_follows_the_events(s: StateView, events: Seq<AgentEvent>)
    ensures
        reduced_all(s, events, events.len() as int).messages == s.messages
            + agent_loop::messages_ended(events),
    decreases events.len(),
{
    if events.len() == 0 {
        assert(s.messages + agent_loop::messages_ended(events) =~= s.messages);
    } else {
        let n = events.len() as int;
        law_the_history_follows_the_events(s, events.drop_last());
        lemma_reduced_prefix(s, events, n - 1);
        assert(reduced_all(s, events, n).messages =~= s.messages + agent_loop::messages_ended(
            events,
        ));
    }
}

proof fn lemma_reduced_prefix(s: StateView, events: Seq<AgentEvent>, n: int)
    requires
        n < events.len(),
    ensures
        reduced_all(s, events.drop_last(), n) == reduced_all(s, events, n),
    decreases n,
{
    if n > 0 {
        lemma_reduced_prefix(s, events, n - 1);
    }
}

/// A tool call that ended is no longer noted, and one that started is, until
/// it ends.
pub proof fn law_tool_calls_come_and_go(s: StateView, event: AgentEvent)
    ensures
        event matches AgentEvent::ToolExecutionStart { tool_call_id, .. } ==> reduced(
            s,
            event,
        ).pending.contains(tool_call_id@),
        event matches AgentEvent::ToolExecutionEnd { tool_call_id, .. } ==> !reduced(
            s,
            event,
        ).pending.contains(tool_call_id@),
        forall|id: Seq<char>|
            s.pending.contains(id) && !(event matches AgentEvent::ToolExecutionEnd {
                tool_call_id,
                ..
            } && tool_call_id@ == id) ==> #[trigger] reduced(s, event).pending.contains(id),
{
}

/// The error of a turn is kept until the next run, and a turn without one
/// does not hide it; nothing that happens within a run changes the set-up.
pub proof fn law_errors_of_a_turn_are_kept(s: StateView, event: AgentEvent)
    ensures
        event matches AgentEvent::TurnEnd { message, .. } ==> (message matches AgentMessage::Llm(
            Message::Assistant(m),
        ) ==> (m.error_message matches Some(e) ==> reduced(s, event).error_message == Some(e@))
            && (m.error_message is None ==> reduced(s, event) == s)),
        !(event is TurnEnd) ==> reduced(s, event).error_message == s.error_message,
        reduced(s, event).model == s.model,
        reduced(s, event).system_prompt == s.system_prompt,
        reduced(s, event).thinking_level == s.thinking_level,
        reduced(s, event).is_streaming == s.is_streaming,
{
}

} // verus!
