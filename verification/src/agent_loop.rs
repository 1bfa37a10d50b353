//! The agent loop: ask the model, run the tools it calls, hand the results
//! back, and again, until the model stops calling tools and nothing is
//! queued.
//!
//! The loop decides; the program around it acts. Every step takes what the
//! last action brought back, announces what happened and names the next
//! action. A request that fails for a passing reason is made again after a
//! pause. A context that fills up is compacted before the next request, and
//! one that overflowed is compacted once and asked again.
use std::sync::Arc;

use vstd::prelude::*;

use crate::compaction::{
    compact, estimate_context_tokens, plan_compaction, should_compact, AgentContext,
    CompactionConfig, CompactionPlan,
};
use crate::messages::{
    is_failure, text_said, tool_calls, AgentMessage, AssistantContent, AssistantMessage, Message,
    StopReason, ThinkingLevel, ToolResultMessage, Usage,
};
use crate::tools::{BatchView, ToolAction, ToolBatch, ToolInput};
use crate::types::{
    backoff_ms, AgentEvent, AssistantMessageEvent, CompactionReason, RetryConfig, ToolExecutionMode,
};
use crate::{compaction, messages, tools, types};

verus! {

/// The model that the loop asks.
#[derive(Debug)]
pub struct LoopModel {
    pub id: String,
    pub api: String,
    pub provider: String,
    pub context_window: u64,
    pub max_tokens: u64,
}

/// What the loop needs to know besides the context.
#[derive(Debug)]
pub struct AgentLoopConfig {
    pub model: LoopModel,
    pub thinking_level: Option<ThinkingLevel>,
    pub tool_execution: ToolExecutionMode,
    pub retry: RetryConfig,
    pub compaction: CompactionConfig,
}

/// What a hook changes between two turns.
#[derive(Debug)]
pub struct TurnUpdate {
    pub model: Option<LoopModel>,
    pub thinking_level: Option<Option<ThinkingLevel>>,
}

/// What kind of failure a failed response is.
#[derive(Debug, Clone, Copy, PartialEq, Eq, Structural)]
pub enum Failure {
    /// It may go away by itself.
    Transient,
    /// The context does not fit.
    Overflow,
    /// Anything else.
    Final,
}

/// Why a run cannot go on from where it is.
#[derive(Debug, Clone, Copy, PartialEq, Eq, Structural)]
pub enum ContinueError {
    Empty,
    EndsWithAssistant,
}

impl ContinueError {
    /// The error in words.
    pub fn message(&self) -> (r: &'static str)
        ensures
            r@ == (match *self {
                ContinueError::Empty => "cannot continue: no messages in context"@,
                ContinueError::EndsWithAssistant => "cannot continue from message role: assistant"@,
            }),
    {
        match self {
            ContinueError::Empty => "cannot continue: no messages in context",
            ContinueError::EndsWithAssistant => "cannot continue from message role: assistant",
        }
    }
}

/// Why a run cannot go on from a history, if it cannot: there is nothing to
/// answer.
pub open spec fn continue_error(v: Seq<AgentMessage>) -> Option<ContinueError> {
    if v.len() == 0 {
        Some(ContinueError::Empty)
    } else if messages::is_assistant(v.last()) {
        Some(ContinueError::EndsWithAssistant)
    } else {
        None
    }
}

// ---------------------------------------------------------------------------
// One response
// ---------------------------------------------------------------------------

/// What to do with something that the model sent.
#[derive(Debug)]
pub enum StreamStep {
    /// Announce it.
    Forward(AgentEvent),
    /// Nothing.
    Skip,
    /// This is the response.
    Final(Arc<AssistantMessage>),
}

/// Sorts what the model sends: its pieces are announced, the end of it is
/// the response.
pub fn stream_step(event: AssistantMessageEvent) -> (r: StreamStep)
    ensures
        match event {
            AssistantMessageEvent::Start => r is Skip,
            AssistantMessageEvent::Done(m) => r == StreamStep::Final(m),
            AssistantMessageEvent::Error(m) => r == StreamStep::Final(m),
            e => r == StreamStep::Forward(AgentEvent::MessageUpdate { event: e }),
        },
{
    match event {
        AssistantMessageEvent::Start => StreamStep::Skip,
        AssistantMessageEvent::Done(m) => StreamStep::Final(m),
        AssistantMessageEvent::Error(m) => StreamStep::Final(m),
        e => StreamStep::Forward(AgentEvent::MessageUpdate { event: e }),
    }
}

/// Whether a message says that there was no response.
pub open spec fn is_error_message(m: AssistantMessage, model: LoopModel, error: Seq<char>, now: u64) -> bool {
    m.content@.len() == 0 && m.api == model.api && m.provider == model.provider && m.model
        == model.id && m.response_model is None && m.response_id is None && m.usage == (Usage {
        input: 0,
        output: 0,
        cache_read: 0,
        cache_write: 0,
        total_tokens: 0,
        cost: 0,
    }) && m.stop_reason == StopReason::Error && (m.error_message matches Some(e) && e@ == error)
        && m.timestamp == now
}

/// The message for a response that never came: no provider took the
/// request, or the answer broke off.
pub fn error_assistant_message(model: &LoopModel, error: String, now: u64) -> (r: AssistantMessage)
    ensures
        is_error_message(r, *model, error@, now),
{
    AssistantMessage {
        content: Vec::new(),
        api: model.api.clone(),
        provider: model.provider.clone(),
        model: model.id.clone(),
        response_model: None,
        response_id: None,
        usage: Usage::default(),
        stop_reason: StopReason::Error,
        error_message: Some(error),
        timestamp: now,
    }
}

/// The response of a stream: its end, or an error where it broke off.
pub fn final_message(ended: Option<Arc<AssistantMessage>>, model: &LoopModel, now: u64) -> (r: Arc<
    AssistantMessage,
>)
    ensures
        match ended {
            Some(m) => r == m,
            None => is_error_message(*r, *model, "stream closed before terminal event"@, now),
        },
{
    match ended {
        Some(m) => m,
        None => Arc::new(
            error_assistant_message(model, "stream closed before terminal event".to_owned(), now),
        ),
    }
}

// ---------------------------------------------------------------------------
// The loop
// ---------------------------------------------------------------------------

/// What the loop waits for.
#[derive(Debug)]
enum Phase {
    Steering,
    Requesting,
    Summarizing {
        reason: CompactionReason,
        plan: CompactionPlan,
        refused: Option<Arc<AssistantMessage>>,
    },
    Waiting { failed: Arc<AssistantMessage> },
    Running { message: Arc<AssistantMessage>, batch: ToolBatch },
    Turning,
    Following,
    Done,
}

/// What the loop waits for.
pub enum PhaseView {
    /// What was queued while it worked.
    Steering,
    /// The response of the model.
    Requesting,
    /// A summary.
    Summarizing {
        reason: CompactionReason,
        plan: CompactionPlan,
        refused: Option<Arc<AssistantMessage>>,
    },
    /// The end of a pause.
    Waiting { failed: Arc<AssistantMessage> },
    /// The tools.
    Running { message: Arc<AssistantMessage>, batch: BatchView },
    /// What the hooks say of the turn.
    Turning,
    /// What is to follow once it would stop.
    Following,
    /// Nothing.
    Done,
}

/// What the loop is told.
#[derive(Debug)]
pub enum LoopReply {
    Steering(Vec<AgentMessage>),
    Response { message: Arc<AssistantMessage>, failure: Failure },
    Summary(Result<Vec<AssistantContent>, String>),
    Waited { cancelled: bool },
    Tool(ToolInput),
    Turned { update: Option<TurnUpdate>, stop: bool },
    FollowUps(Vec<AgentMessage>),
}

/// What the loop asks for.
#[derive(Debug)]
pub enum LoopAction {
    AskSteering,
    Request,
    Summarize { prompt: String, max_tokens: u64 },
    Wait { delay_ms: u64 },
    Tool(ToolAction),
    AskTurn,
    AskFollowUps,
    Finished,
    Ignored,
}

/// A run of the agent.
#[derive(Debug)]
pub struct AgentLoop {
    context: AgentContext,
    new_messages: Vec<AgentMessage>,
    config: AgentLoopConfig,
    more: bool,
    attempt: u32,
    overflow_tried: bool,
    phase: Phase,
}

/// A run of the agent: the context, the messages that the run added, the
/// set-up, whether the last turn asked for another one, how often the
/// request was made again, whether an overflow was compacted already, and
/// what the run waits for.
pub struct LoopView {
    pub context: AgentContext,
    pub new: Seq<AgentMessage>,
    pub config: AgentLoopConfig,
    pub more: bool,
    pub attempt: u32,
    pub overflow_tried: bool,
    pub phase: PhaseView,
}

impl View for Phase {
    type V = PhaseView;

    closed spec fn view(&self) -> PhaseView {
        match self {
            Phase::Steering => PhaseView::Steering,
            Phase::Requesting => PhaseView::Requesting,
            Phase::Summarizing { reason, plan, refused } => PhaseView::Summarizing {
                reason: *reason,
                plan: *plan,
                refused: *refused,
            },
            Phase::Waiting { failed } => PhaseView::Waiting { failed: *failed },
            Phase::Running { message, batch } => PhaseView::Running {
                message: *message,
                batch: batch@,
            },
            Phase::Turning => PhaseView::Turning,
            Phase::Following => PhaseView::Following,
            Phase::Done => PhaseView::Done,
        }
    }
}

impl View for AgentLoop {
    type V = LoopView;

    closed spec fn view(&self) -> LoopView {
        LoopView {
            context: self.context,
            new: self.new_messages@,
            config: self.config,
            more: self.more,
            attempt: self.attempt,
            overflow_tried: self.overflow_tried,
            phase: self.phase@,
        }
    }
}

/// The retries stay within their budget, tools run in order, and a summary
/// that is awaited is one of this history.
pub open spec fn loop_ok(v: LoopView) -> bool {
    &&& v.attempt <= v.config.retry.max_retries
    &&& match v.phase {
        PhaseView::Running { batch, .. } => tools::batch_ok(batch),
        PhaseView::Summarizing { plan, reason, refused } => 0 < plan.cut
            <= v.context.messages@.len() && (reason == CompactionReason::Overflow <==> refused is Some),
        _ => true,
    }
}

/// The event that a message is now part of the history.
pub open spec fn ended(m: AgentMessage) -> AgentEvent {
    AgentEvent::MessageEnd { message: m }
}

/// The events that messages are now part of the history.
pub open spec fn all_ended(v: Seq<AgentMessage>) -> Seq<AgentEvent> {
    v.map_values(|m: AgentMessage| ended(m))
}

/// Whether an event is the end of a turn.
pub open spec fn is_turn_end(
    e: AgentEvent,
    m: Arc<AssistantMessage>,
    results: Seq<Arc<ToolResultMessage>>,
) -> bool {
    e matches AgentEvent::TurnEnd { message, tool_results } && message == AgentMessage::Llm(
        Message::Assistant(m),
    ) && tool_results@ == results
}

/// Whether an event is the end of a run.
pub open spec fn is_agent_end(e: AgentEvent, new: Seq<AgentMessage>) -> bool {
    e matches AgentEvent::AgentEnd { messages } && messages@ == new
}

/// Whether an event says that a compaction failed.
pub open spec fn is_compaction_failure(e: AgentEvent, tokens: nat, error: Seq<char>) -> bool {
    e matches AgentEvent::CompactionEnd { tokens_before, tokens_after, error: Some(s), summary: None }
        && tokens_before as nat == tokens && tokens_after as nat == tokens && s@ == error
}

/// Whether the history grew by messages, and nothing else of it changed.
pub open spec fn grew(before: LoopView, after: LoopView, v: Seq<AgentMessage>) -> bool {
    after.context.messages@ == before.context.messages@ + v && after.context.system_prompt
        == before.context.system_prompt && after.context.tools == before.context.tools && after.new
        == before.new + v
}

/// Whether a compaction was started for a reason, or could not be.
pub open spec fn starts_compaction(
    v: LoopView,
    reason: CompactionReason,
    failed: Option<Arc<AssistantMessage>>,
    events: Seq<AgentEvent>,
    action: LoopAction,
) -> bool {
    &&& events.len() == 1
    &&& events[0] == AgentEvent::CompactionStart { reason }
    &&& v.phase matches PhaseView::Summarizing { reason: r, plan, refused: f }
    &&& r == reason
    &&& f == failed
    &&& compaction::is_plan(
        plan,
        v.context,
        v.config.compaction,
        v.config.model.max_tokens as nat,
    )
    &&& action matches LoopAction::Summarize { prompt, max_tokens }
    &&& prompt@ == plan.prompt@
    &&& max_tokens == plan.max_tokens
}

/// Whether there is nothing that a compaction could summarize.
pub open spec fn nothing_to_compact(v: LoopView) -> bool {
    compaction::cut_index(
        v.context.messages@,
        v.config.compaction.keep_recent_tokens as nat,
    ) == 0
}

/// Whether the loop now asks the model, or first makes room for it.
pub open spec fn asks_model(v: LoopView, events: Seq<AgentEvent>, action: LoopAction) -> bool {
    let tokens = compaction::context_tokens(v.context);
    if !compaction::is_due(tokens, v.config.model.context_window as nat, v.config.compaction) {
        v.phase is Requesting && action is Request && events.len() == 0
    } else if nothing_to_compact(v) {
        v.phase is Requesting && action is Request && events.len() == 2 && events[0]
            == AgentEvent::CompactionStart {
            reason: CompactionReason::Threshold,
        } && is_compaction_failure(events[1], tokens, "nothing to compact"@)
    } else {
        starts_compaction(v, CompactionReason::Threshold, None, events, action)
    }
}

/// Whether the run ended with a response that failed.
pub open spec fn ends_failed(
    before: LoopView,
    after: LoopView,
    m: Arc<AssistantMessage>,
    events: Seq<AgentEvent>,
    action: LoopAction,
) -> bool {
    let said = AgentMessage::Llm(Message::Assistant(m));
    &&& grew(before, after, seq![said])
    &&& after.phase is Done
    &&& action is Finished
    &&& events.len() == 3
    &&& events[0] == ended(said)
    &&& is_turn_end(events[1], m, Seq::empty())
    &&& is_agent_end(events[2], after.new)
}

/// Whether the set-up stayed.
pub open spec fn same_setup(before: LoopView, after: LoopView) -> bool {
    after.config == before.config
}

/// The error that a failed response carries.
pub open spec fn error_of(m: AssistantMessage) -> Seq<char> {
    match m.error_message {
        Some(s) => s@,
        None => "unknown error"@,
    }
}

/// What a response leads to.
pub open spec fn responds(
    before: LoopView,
    m: Arc<AssistantMessage>,
    failure: Failure,
    after: LoopView,
    events: Seq<AgentEvent>,
    action: LoopAction,
) -> bool {
    let said = AgentMessage::Llm(Message::Assistant(m));
    &&& same_setup(before, after)
    &&& if messages::failed(m.stop_reason) {
        if m.stop_reason == StopReason::Error && failure == Failure::Overflow
            && before.config.compaction.enabled && !before.overflow_tried {
            if nothing_to_compact(before) {
                &&& events.len() == 5
                &&& events[0] == AgentEvent::CompactionStart { reason: CompactionReason::Overflow }
                &&& is_compaction_failure(
                    events[1],
                    compaction::context_tokens(before.context),
                    "nothing to compact"@,
                )
                &&& ends_failed(before, after, m, events.skip(2), action)
            } else {
                &&& after.context == before.context
                &&& after.new == before.new
                &&& after.more == before.more
                &&& after.attempt == before.attempt
                &&& after.overflow_tried
                &&& starts_compaction(after, CompactionReason::Overflow, Some(m), events, action)
            }
        } else if m.stop_reason == StopReason::Error && failure == Failure::Transient
            && before.attempt < before.config.retry.max_retries {
            let attempt = (before.attempt + 1) as u32;
            let delay = types::backoff(
                before.config.retry.base_delay_ms as nat,
                attempt as nat,
            );
            &&& after.context == before.context
            &&& after.new == before.new
            &&& after.more == before.more
            &&& after.attempt == attempt
            &&& after.overflow_tried == before.overflow_tried
            &&& after.phase == PhaseView::Waiting { failed: m }
            &&& events.len() == 1
            &&& events[0] matches AgentEvent::AutoRetry {
                attempt: a,
                max_attempts,
                delay_ms,
                error_message,
            }
            &&& a == attempt
            &&& max_attempts == before.config.retry.max_retries
            &&& delay_ms as nat == delay
            &&& error_message@ == error_of(*m)
            &&& action matches LoopAction::Wait { delay_ms: w }
            &&& w == delay_ms
        } else {
            ends_failed(before, after, m, events, action)
        }
    } else {
        let calls = messages::calls_of(*m);
        &&& grew(before, after, seq![said])
        &&& after.attempt == 0
        &&& !after.overflow_tried
        &&& events.len() >= 1
        &&& events[0] == ended(said)
        &&& if calls.len() == 0 {
            &&& events.len() == 2
            &&& is_turn_end(events[1], m, Seq::empty())
            &&& !after.more
            &&& after.phase is Turning
            &&& action is AskTurn
        } else {
            &&& events.len() == 1
            &&& after.more == before.more
            &&& after.phase matches PhaseView::Running { message, batch }
            &&& message == m
            &&& batch.calls == calls
            &&& batch.sequential == (before.config.tool_execution == ToolExecutionMode::Sequential
                || tools::wants_sequence(calls, before.context.tools@))
            &&& batch.slots.len() == 0
            &&& batch.results.len() == 0
            &&& batch.stage == tools::Stage::Preparing
            &&& action matches LoopAction::Tool(a)
            &&& a is Next
        }
    }
}

/// What a summary leads to: a history that starts with it, and another
/// request. A compaction that fails changes nothing; after an overflow it
/// ends the run with the error that the model gave.
pub open spec fn summarizes(
    before: LoopView,
    reason: CompactionReason,
    plan: CompactionPlan,
    failed: Option<Arc<AssistantMessage>>,
    reply: Result<Vec<AssistantContent>, String>,
    now: u64,
    after: LoopView,
    events: Seq<AgentEvent>,
    action: LoopAction,
) -> bool {
    &&& same_setup(before, after)
    &&& after.more == before.more
    &&& after.attempt == before.attempt
    &&& after.overflow_tried == before.overflow_tried
    &&& events.len() >= 1
    &&& match compaction::summary_of(reply) {
        Some(s) => {
            &&& after.new == before.new
            &&& after.context.system_prompt == before.context.system_prompt
            &&& after.context.tools == before.context.tools
            &&& after.context.messages@.len() > 0
            &&& messages::is_user_text(
                after.context.messages@[0],
                compaction::summary_message(s),
                now,
            )
            &&& after.context.messages@.skip(1) == before.context.messages@.skip(plan.cut as int)
            &&& events.len() == 1
            &&& events[0] matches AgentEvent::CompactionEnd {
                tokens_before,
                tokens_after,
                error: None,
                summary: Some(t),
            }
            &&& tokens_before == plan.tokens_before
            &&& tokens_after as nat == compaction::context_tokens(after.context)
            &&& t@ == s
            &&& after.phase is Requesting
            &&& action is Request
        },
        None => {
            &&& is_compaction_failure(
                events[0],
                plan.tokens_before as nat,
                match reply {
                    Ok(_) => "summarization failed: "@ + "summarization produced no text"@,
                    Err(s) => "summarization failed: "@ + s@,
                },
            )
            &&& match failed {
                Some(m) => ends_failed(before, after, m, events.skip(1), action),
                None => after.context == before.context && after.new == before.new && events.len()
                    == 1 && after.phase is Requesting && action is Request,
            }
        },
    }
}

/// Results as messages of the history.
pub open spec fn as_messages(v: Seq<Arc<ToolResultMessage>>) -> Seq<AgentMessage> {
    v.map_values(|m: Arc<ToolResultMessage>| AgentMessage::Llm(Message::ToolResult(m)))
}

/// What the tools lead to: results join the history as they are announced,
/// and the turn ends with the last of them.
pub open spec fn runs_tools(
    before: LoopView,
    m: Arc<AssistantMessage>,
    batch: BatchView,
    input: ToolInput,
    now: u64,
    after: LoopView,
    events: Seq<AgentEvent>,
    action: LoopAction,
) -> bool {
    exists|next: BatchView, told: Seq<AgentEvent>, asked: ToolAction| #[trigger]
        ran_tools(before, m, batch, input, now, after, events, action, next, told, asked)
}

/// What the tools lead to, given what the batch did.
pub open spec fn ran_tools(
    before: LoopView,
    m: Arc<AssistantMessage>,
    batch: BatchView,
    input: ToolInput,
    now: u64,
    after: LoopView,
    events: Seq<AgentEvent>,
    action: LoopAction,
    next: BatchView,
    told: Seq<AgentEvent>,
    asked: ToolAction,
) -> bool {
    &&& same_setup(before, after)
    &&& after.attempt == before.attempt
    &&& after.overflow_tried == before.overflow_tried
    &&& tools::steps(batch, input, before.context.tools@, now, next, told, asked)
    &&& batch.results.len() <= next.results.len()
    &&& grew(before, after, as_messages(next.results.skip(batch.results.len() as int)))
    &&& if asked is Finished {
        &&& events.len() == told.len() + 1
        &&& events.drop_last() == told
        &&& is_turn_end(events.last(), m, next.results)
        &&& after.more == !tools::all_terminate(next.slots)
        &&& after.phase is Turning
        &&& action is AskTurn
    } else {
        &&& events == told
        &&& after.more == before.more
        &&& after.phase == PhaseView::Running { message: m, batch: next }
        &&& action == LoopAction::Tool(asked)
    }
}

/// The set-up once a hook changed it.
pub open spec fn updated(c: AgentLoopConfig, u: Option<TurnUpdate>) -> AgentLoopConfig {
    match u {
        Some(u) => AgentLoopConfig {
            model: match u.model {
                Some(m) => m,
                None => c.model,
            },
            thinking_level: match u.thinking_level {
                Some(t) => t,
                None => c.thinking_level,
            },
            ..c
        },
        None => c,
    }
}

/// Whether queued messages joined the history and the model is asked.
pub open spec fn takes_turn(
    before: LoopView,
    v: Seq<AgentMessage>,
    after: LoopView,
    events: Seq<AgentEvent>,
    action: LoopAction,
) -> bool {
    &&& same_setup(before, after)
    &&& grew(before, after, v)
    &&& after.more == before.more
    &&& after.attempt == before.attempt
    &&& after.overflow_tried == before.overflow_tried
    &&& events.len() >= v.len()
    &&& events.take(v.len() as int) == all_ended(v)
    &&& asks_model(after, events.skip(v.len() as int), action)
}

/// What the loop does with what it is told.
pub open spec fn loop_steps(
    before: LoopView,
    reply: LoopReply,
    now: u64,
    after: LoopView,
    events: Seq<AgentEvent>,
    action: LoopAction,
) -> bool {
    match (before.phase, reply) {
        (PhaseView::Steering, LoopReply::Steering(v)) => if before.more || v@.len() > 0 {
            takes_turn(before, v@, after, events, action)
        } else {
            after == (LoopView { phase: PhaseView::Following, ..before }) && events.len() == 0
                && action is AskFollowUps
        },
        (PhaseView::Requesting, LoopReply::Response { message, failure }) => responds(
            before,
            message,
            failure,
            after,
            events,
            action,
        ),
        (PhaseView::Summarizing { reason, plan, refused }, LoopReply::Summary(r)) => summarizes(
            before,
            reason,
            plan,
            refused,
            r,
            now,
            after,
            events,
            action,
        ),
        (PhaseView::Waiting { failed }, LoopReply::Waited { cancelled }) => if cancelled {
            same_setup(before, after) && ends_failed(before, after, failed, events, action)
        } else {
            after == (LoopView { phase: PhaseView::Requesting, ..before }) && events.len() == 0
                && action is Request
        },
        (PhaseView::Running { message, batch }, LoopReply::Tool(input)) => runs_tools(
            before,
            message,
            batch,
            input,
            now,
            after,
            events,
            action,
        ),
        (PhaseView::Turning, LoopReply::Turned { update, stop }) => {
            &&& after.context == before.context
            &&& after.new == before.new
            &&& after.config == updated(before.config, update)
            &&& after.more == before.more
            &&& after.attempt == before.attempt
            &&& after.overflow_tried == before.overflow_tried
            &&& if stop {
                after.phase is Done && action is Finished && events.len() == 1 && is_agent_end(
                    events[0],
                    after.new,
                )
            } else {
                after.phase is Steering && action is AskSteering && events.len() == 0
            }
        },
        (PhaseView::Following, LoopReply::FollowUps(v)) => if v@.len() > 0 {
            takes_turn(LoopView { more: true, ..before }, v@, after, events, action)
        } else {
            after == (LoopView { phase: PhaseView::Done, ..before }) && action is Finished
                && events.len() == 1 && is_agent_end(events[0], after.new)
        },
        _ => after == before && events.len() == 0 && action is Ignored,
    }
}

/// A run that begins with a history.
pub open spec fn begins(
    after: LoopView,
    messages: Seq<AgentMessage>,
    new: Seq<AgentMessage>,
) -> bool {
    after.context.messages@ == messages && after.new == new && after.more && after.attempt == 0
        && !after.overflow_tried && after.phase is Steering
}

/// Starts a run with new messages: they join the history and are
/// announced.
pub fn agent_loop(prompts: Vec<AgentMessage>, context: AgentContext, config: AgentLoopConfig) -> (r: (
    AgentLoop,
    Vec<AgentEvent>,
    LoopAction,
))
    ensures
        loop_ok(r.0@),
        begins(r.0@, context.messages@ + prompts@, prompts@),
        r.0@.context.system_prompt == context.system_prompt,
        r.0@.context.tools == context.tools,
        r.0@.config == config,
        r.1@ == all_ended(prompts@),
        r.2 is AskSteering,
{
    let mut run = AgentLoop {
        context,
        new_messages: Vec::new(),
        config,
        more: true,
        attempt: 0,
        overflow_tried: false,
        phase: Phase::Steering,
    };
    let mut events: Vec<AgentEvent> = Vec::new();
    run.inject(prompts, &mut events);
    assert(events@ =~= all_ended(prompts@));
    assert(run.new_messages@ =~= prompts@);
    (run, events, LoopAction::AskSteering)
}

/// Goes on from a history without adding to it. The last message must be
/// one that the model can answer.
pub fn agent_loop_continue(context: AgentContext, config: AgentLoopConfig) -> (r: Result<
    (AgentLoop, LoopAction),
    ContinueError,
>)
    ensures
        match r {
            Ok(x) => continue_error(context.messages@) is None && loop_ok(x.0@) && begins(
                x.0@,
                context.messages@,
                Seq::empty(),
            ) && x.0@.context == context && x.0@.config == config && x.1 is AskSteering,
            Err(e) => continue_error(context.messages@) == Some(e),
        },
{
    let n: usize = context.messages.len();
    if n == 0 {
        return Err(ContinueError::Empty);
    }
    if let AgentMessage::Llm(Message::Assistant(_)) = &context.messages[n - 1] {
        return Err(ContinueError::EndsWithAssistant);
    }
    let run = AgentLoop {
        context,
        new_messages: Vec::new(),
        config,
        more: true,
        attempt: 0,
        overflow_tried: false,
        phase: Phase::Steering,
    };
    Ok((run, LoopAction::AskSteering))
}

impl AgentLoop {
    /// What the next request is made from.
    pub fn context(&self) -> (r: &AgentContext)
        ensures
            *r == self@.context,
    {
        &self.context
    }

    /// The set-up.
    pub fn config(&self) -> (r: &AgentLoopConfig)
        ensures
            *r == self@.config,
    {
        &self.config
    }

    /// The messages that the run added.
    pub fn new_messages(&self) -> (r: &Vec<AgentMessage>)
        ensures
            r@ == self@.new,
    {
        &self.new_messages
    }

    /// The tools that run.
    pub fn batch(&self) -> (r: Option<&ToolBatch>)
        ensures
            match r {
                Some(b) => self@.phase matches PhaseView::Running { batch, .. } && batch == b@,
                None => self@.phase !is Running,
            },
    {
        match &self.phase {
            Phase::Running { batch, .. } => Some(batch),
            _ => None,
        }
    }

    fn inject(&mut self, v: Vec<AgentMessage>, events: &mut Vec<AgentEvent>)
        ensures
            grew(old(self)@, final(self)@, v@),
            final(self).config == old(self).config,
            final(self).more == old(self).more,
            final(self).attempt == old(self).attempt,
            final(self).overflow_tried == old(self).overflow_tried,
            final(self).phase == old(self).phase,
            final(events)@ == old(events)@ + all_ended(v@),
    {
        let ghost before = self@;
        let ghost told = events@;
        let mut i: usize = 0;
        assert(events@ =~= told + all_ended(v@.take(0)));
        assert(self.context.messages@ =~= before.context.messages@ + v@.take(0));
        assert(self.new_messages@ =~= before.new + v@.take(0));
        while i < v.len()
            invariant
                i <= v@.len(),
                before == old(self)@,
                grew(before, self@, v@.take(i as int)),
                self.config == old(self).config,
                self.more == old(self).more,
                self.attempt == old(self).attempt,
                self.overflow_tried == old(self).overflow_tried,
                self.phase == old(self).phase,
                events@ == told + all_ended(v@.take(i as int)),
            decreases v@.len() - i,
        {
            let m = &v[i];
            events.push(AgentEvent::MessageEnd { message: m.share() });
            self.context.messages.push(m.share());
            self.new_messages.push(m.share());
            assert(v@.take(i + 1) =~= v@.take(i as int).push(v@[i as int]));
            assert(events@ =~= told + all_ended(v@.take(i + 1)));
            assert(self.context.messages@ =~= before.context.messages@ + v@.take(i + 1));
            assert(self.new_messages@ =~= before.new + v@.take(i + 1));
            i += 1;
        }
        assert(v@.take(v@.len() as int) =~= v@);
    }

    fn end_run(&mut self, events: &mut Vec<AgentEvent>) -> (r: LoopAction)
        ensures
            final(self)@ == (LoopView { phase: PhaseView::Done, ..old(self)@ }),
            final(events)@.len() == old(events)@.len() + 1,
            final(events)@.drop_last() == old(events)@,
            is_agent_end(final(events)@.last(), final(self)@.new),
            r is Finished,
    {
        let ghost told = events@;
        self.phase = Phase::Done;
        events.push(
            AgentEvent::AgentEnd { messages: messages::share_all(&self.new_messages) },
        );
        assert(events@.drop_last() =~= told);
        LoopAction::Finished
    }

    fn fail(&mut self, m: Arc<AssistantMessage>, events: &mut Vec<AgentEvent>) -> (r: LoopAction)
        ensures
            ends_failed(
                old(self)@,
                final(self)@,
                m,
                final(events)@.skip(old(events)@.len() as int),
                r,
            ),
            final(events)@.len() == old(events)@.len() + 3,
            final(events)@.take(old(events)@.len() as int) == old(events)@,
            final(self).config == old(self).config,
            final(self).more == old(self).more,
            final(self).attempt == old(self).attempt,
            final(self).overflow_tried == old(self).overflow_tried,
    {
        let ghost before = self@;
        let ghost told = events@;
        let said = AgentMessage::Llm(Message::Assistant(Arc::clone(&m)));
        events.push(AgentEvent::MessageEnd { message: said.share() });
        self.context.messages.push(said.share());
        self.new_messages.push(said.share());
        events.push(AgentEvent::TurnEnd { message: said, tool_results: Vec::new() });
        let action = self.end_run(events);
        proof {
            let s = AgentMessage::Llm(Message::Assistant(m));
            assert(self@.context.messages@ =~= before.context.messages@ + seq![s]);
            assert(self@.new =~= before.new + seq![s]);
            let tail = events@.skip(told.len() as int);
            assert(events@.take(told.len() as int) =~= told) by {
                assert forall|k: int| 0 <= k < told.len() implies events@[k] == told[k] by {
                    assert(events@[k] == events@.drop_last()[k]);
                }
            }
            assert(tail[0] == events@.drop_last()[told.len() as int]);
            assert(tail[1] == events@.drop_last()[told.len() as int + 1]);
            assert(tail[2] == events@.last());
        }
        action
    }

    fn start_compaction(
        &mut self,
        plan: CompactionPlan,
        reason: CompactionReason,
        failed: Option<Arc<AssistantMessage>>,
        events: &mut Vec<AgentEvent>,
    ) -> (r: LoopAction)
        requires
            compaction::is_plan(
                plan,
                old(self).context,
                old(self).config.compaction,
                old(self).config.model.max_tokens as nat,
            ),
        ensures
            final(self)@ == (LoopView {
                phase: PhaseView::Summarizing { reason, plan, refused: failed },
                ..old(self)@
            }),
            final(events)@ == old(events)@.push(AgentEvent::CompactionStart { reason }),
            starts_compaction(
                final(self)@,
                reason,
                failed,
                seq![AgentEvent::CompactionStart { reason }],
                r,
            ),
    {
        events.push(AgentEvent::CompactionStart { reason });
        let prompt = plan.prompt.clone();
        let max_tokens: u64 = plan.max_tokens;
        self.phase = Phase::Summarizing { reason, plan, refused: failed };
        LoopAction::Summarize { prompt, max_tokens }
    }

    fn ask_model(&mut self, events: &mut Vec<AgentEvent>) -> (r: LoopAction)
        ensures
            final(self)@ == (LoopView { phase: final(self)@.phase, ..old(self)@ }),
            final(events)@.len() >= old(events)@.len(),
            final(events)@.take(old(events)@.len() as int) == old(events)@,
            asks_model(
                final(self)@,
                final(events)@.skip(old(events)@.len() as int),
                r,
            ),
            loop_ok(old(self)@) ==> loop_ok(final(self)@),
    {
        let ghost told = events@;
        let tokens: u64 = estimate_context_tokens(&self.context);
        if !should_compact(tokens, self.config.model.context_window, &self.config.compaction) {
            self.phase = Phase::Requesting;
            assert(events@.take(told.len() as int) =~= told);
            assert(events@.skip(told.len() as int).len() == 0);
            return LoopAction::Request;
        }
        match plan_compaction(
            &self.context,
            &self.config.compaction,
            self.config.model.max_tokens,
        ) {
            Ok(plan) => {
                let action = self.start_compaction(
                    plan,
                    CompactionReason::Threshold,
                    None,
                    events,
                );
                assert(events@.take(told.len() as int) =~= told);
                assert(events@.skip(told.len() as int) =~= seq![
                    AgentEvent::CompactionStart { reason: CompactionReason::Threshold },
                ]);
                action
            },
            Err(_) => {
                self.phase = Phase::Requesting;
                events.push(AgentEvent::CompactionStart { reason: CompactionReason::Threshold });
                events.push(failed_compaction(tokens, "nothing to compact".to_owned()));
                assert(events@.take(told.len() as int) =~= told);
                LoopAction::Request
            },
        }
    }

    fn take_turn(&mut self, v: Vec<AgentMessage>, events: &mut Vec<AgentEvent>) -> (r: LoopAction)
        requires
            old(events)@.len() == 0,
            loop_ok(LoopView { phase: PhaseView::Requesting, ..old(self)@ }),
        ensures
            takes_turn(old(self)@, v@, final(self)@, final(events)@, r),
            loop_ok(final(self)@),
    {
        self.phase = Phase::Requesting;
        self.inject(v, events);
        assert(events@ =~= all_ended(v@));
        self.ask_model(events)
    }

    fn respond(
        &mut self,
        m: Arc<AssistantMessage>,
        failure: Failure,
        events: &mut Vec<AgentEvent>,
    ) -> (r: LoopAction)
        requires
            old(events)@.len() == 0,
            loop_ok(old(self)@),
            old(self)@.phase is Requesting,
        ensures
            responds(old(self)@, m, failure, final(self)@, final(events)@, r),
            loop_ok(final(self)@),
    {
        let ghost before = self@;
        if is_failure(m.stop_reason) {
            if m.stop_reason == StopReason::Error && failure == Failure::Overflow
                && self.config.compaction.enabled && !self.overflow_tried {
                match plan_compaction(
                    &self.context,
                    &self.config.compaction,
                    self.config.model.max_tokens,
                ) {
                    Ok(plan) => {
                        self.overflow_tried = true;
                        let action = self.start_compaction(
                            plan,
                            CompactionReason::Overflow,
                            Some(m),
                            events,
                        );
                        assert(events@ =~= seq![
                            AgentEvent::CompactionStart { reason: CompactionReason::Overflow },
                        ]);
                        return action;
                    },
                    Err(_) => {
                        let tokens: u64 = estimate_context_tokens(&self.context);
                        events.push(
                            AgentEvent::CompactionStart { reason: CompactionReason::Overflow },
                        );
                        events.push(failed_compaction(tokens, "nothing to compact".to_owned()));
                        let action = self.fail(m, events);
                        assert(events@[0] == events@.take(2)[0]);
                        assert(events@[1] == events@.take(2)[1]);
                        return action;
                    },
                }
            }
            if m.stop_reason == StopReason::Error && failure == Failure::Transient && self.attempt
                < self.config.retry.max_retries {
                let attempt: u32 = self.attempt + 1;
                let delay_ms: u64 = backoff_ms(self.config.retry.base_delay_ms, attempt);
                let error_message = match &m.error_message {
                    Some(s) => s.clone(),
                    None => "unknown error".to_owned(),
                };
                events.push(
                    AgentEvent::AutoRetry {
                        attempt,
                        max_attempts: self.config.retry.max_retries,
                        delay_ms,
                        error_message,
                    },
                );
                self.attempt = attempt;
                self.phase = Phase::Waiting { failed: m };
                return LoopAction::Wait { delay_ms };
            }
            let action = self.fail(m, events);
            assert(events@.skip(0) =~= events@);
            return action;
        }
        let said = AgentMessage::Llm(Message::Assistant(Arc::clone(&m)));
        events.push(AgentEvent::MessageEnd { message: said.share() });
        self.context.messages.push(said.share());
        self.new_messages.push(said.share());
        proof {
            let s = AgentMessage::Llm(Message::Assistant(m));
            assert(self@.context.messages@ =~= before.context.messages@ + seq![s]);
            assert(self@.new =~= before.new + seq![s]);
        }
        self.attempt = 0;
        self.overflow_tried = false;
        let calls = tool_calls(&m);
        if calls.len() == 0 {
            events.push(AgentEvent::TurnEnd { message: said, tool_results: Vec::new() });
            self.more = false;
            self.phase = Phase::Turning;
            return LoopAction::AskTurn;
        }
        let batch = ToolBatch::new(calls, &self.context.tools, self.config.tool_execution);
        self.phase = Phase::Running { message: m, batch };
        LoopAction::Tool(ToolAction::Next)
    }

    fn summarized(
        &mut self,
        reason: CompactionReason,
        plan: CompactionPlan,
        failed: Option<Arc<AssistantMessage>>,
        reply: Result<Vec<AssistantContent>, String>,
        now: u64,
        events: &mut Vec<AgentEvent>,
    ) -> (r: LoopAction)
        requires
            old(events)@.len() == 0,
            old(self)@.attempt <= old(self)@.config.retry.max_retries,
            plan.cut <= old(self)@.context.messages@.len(),
        ensures
            summarizes(
                old(self)@,
                reason,
                plan,
                failed,
                reply,
                now,
                final(self)@,
                final(events)@,
                r,
            ),
            loop_ok(final(self)@),
    {
        let ghost before = self@;
        let said: String = match &reply {
            Ok(content) => text_said(content),
            Err(_) => String::new(),
        };
        match compact(&mut self.context, &plan, reply, now) {
            Ok(outcome) => {
                events.push(
                    AgentEvent::CompactionEnd {
                        tokens_before: outcome.tokens_before,
                        tokens_after: outcome.tokens_after,
                        error: None,
                        summary: Some(said),
                    },
                );
                self.phase = Phase::Requesting;
                LoopAction::Request
            },
            Err(e) => {
                assert(self@.context == before.context);
                events.push(failed_compaction(plan.tokens_before, e.message()));
                match failed {
                    Some(m) => {
                        let action = self.fail(m, events);
                        assert(events@[0] == events@.take(1)[0]);
                        action
                    },
                    None => {
                        self.phase = Phase::Requesting;
                        LoopAction::Request
                    },
                }
            },
        }
    }

    fn run_tools(
        &mut self,
        m: Arc<AssistantMessage>,
        batch: ToolBatch,
        input: ToolInput,
        now: u64,
        events: &mut Vec<AgentEvent>,
    ) -> (r: LoopAction)
        requires
            old(events)@.len() == 0,
            old(self)@.attempt <= old(self)@.config.retry.max_retries,
            tools::batch_ok(batch@),
        ensures
            runs_tools(old(self)@, m, batch@, input, now, final(self)@, final(events)@, r),
            loop_ok(final(self)@),
    {
        let ghost before = self@;
        let mut batch = batch;
        let ghost first = batch@;
        let had: usize = batch.results().len();
        let (mut told, asked) = batch.advance(input, &self.context.tools, now);
        proof {
            lemma_results_grow(first, input, self.context.tools@, now, batch@, told@, asked);
        }
        let ghost said = told@;
        let ghost next = batch@;
        let results = batch.results();
        let mut i: usize = had;
        let ghost added = as_messages(results@.skip(had as int));
        assert(self.context.messages@ =~= before.context.messages@ + added.take(0));
        assert(self.new_messages@ =~= before.new + added.take(0));
        while i < results.len()
            invariant
                had <= i <= results@.len(),
                added == as_messages(results@.skip(had as int)),
                self.config == before.config,
                self.more == before.more,
                self.attempt == before.attempt,
                self.overflow_tried == before.overflow_tried,
                grew(before, self@, added.take(i - had)),
            decreases results@.len() - i,
        {
            self.context.messages.push(
                AgentMessage::Llm(Message::ToolResult(Arc::clone(&results[i]))),
            );
            self.new_messages.push(
                AgentMessage::Llm(Message::ToolResult(Arc::clone(&results[i]))),
            );
            proof {
                assert(added[i - had] == AgentMessage::Llm(Message::ToolResult(results@[i as int])));
                assert(added.take(i + 1 - had) =~= added.take(i - had).push(added[i - had]));
                assert(self.context.messages@ =~= before.context.messages@ + added.take(
                    i + 1 - had,
                ));
                assert(self.new_messages@ =~= before.new + added.take(i + 1 - had));
            }
            i += 1;
        }
        assert(added.take(added.len() as int) =~= added);
        events.append(&mut told);
        assert(events@ =~= said);
        if let ToolAction::Finished = asked {
            let mut list: Vec<Arc<ToolResultMessage>> = Vec::new();
            let mut k: usize = 0;
            while k < results.len()
                invariant
                    k <= results@.len(),
                    list@ == results@.take(k as int),
                decreases results@.len() - k,
            {
                list.push(Arc::clone(&results[k]));
                assert(list@ =~= results@.take(k + 1));
                k += 1;
            }
            assert(list@ =~= results@);
            events.push(
                AgentEvent::TurnEnd {
                    message: AgentMessage::Llm(Message::Assistant(Arc::clone(&m))),
                    tool_results: list,
                },
            );
            assert(events@.drop_last() =~= said);
            self.more = !batch.terminates();
            self.phase = Phase::Turning;
            assert(ran_tools(
                before,
                m,
                first,
                input,
                now,
                self@,
                events@,
                LoopAction::AskTurn,
                next,
                said,
                asked,
            ));
            return LoopAction::AskTurn;
        }
        self.phase = Phase::Running { message: m, batch };
        let action = LoopAction::Tool(asked);
        assert(ran_tools(
            before,
            m,
            first,
            input,
            now,
            self@,
            events@,
            action,
            next,
            said,
            asked,
        ));
        action
    }

    /// Takes what the last action brought back, and says what to announce
    /// and what to do next. What does not fit is ignored.
    pub fn advance(&mut self, reply: LoopReply, now: u64) -> (r: (Vec<AgentEvent>, LoopAction))
        requires
            loop_ok(old(self)@),
        ensures
            loop_ok(final(self)@),
            loop_steps(old(self)@, reply, now, final(self)@, r.0@, r.1),
    {
        let ghost before = self@;
        let mut events: Vec<AgentEvent> = Vec::new();
        let mut phase = Phase::Done;
        std::mem::swap(&mut phase, &mut self.phase);
        match (phase, reply) {
            (Phase::Steering, LoopReply::Steering(v)) => {
                self.phase = Phase::Steering;
                if self.more || v.len() > 0 {
                    let action = self.take_turn(v, &mut events);
                    (events, action)
                } else {
                    self.phase = Phase::Following;
                    (events, LoopAction::AskFollowUps)
                }
            },
            (Phase::Requesting, LoopReply::Response { message, failure }) => {
                self.phase = Phase::Requesting;
                let action = self.respond(message, failure, &mut events);
                (events, action)
            },
            (Phase::Summarizing { reason, plan, refused }, LoopReply::Summary(r)) => {
                let action = self.summarized(reason, plan, refused, r, now, &mut events);
                (events, action)
            },
            (Phase::Waiting { failed }, LoopReply::Waited { cancelled }) => {
                if cancelled {
                    let action = self.fail(failed, &mut events);
                    assert(events@.skip(0) =~= events@);
                    (events, action)
                } else {
                    self.phase = Phase::Requesting;
                    (events, LoopAction::Request)
                }
            },
            (Phase::Running { message, batch }, LoopReply::Tool(input)) => {
                let ghost mid = self@;
                let ghost first = batch@;
                let action = self.run_tools(message, batch, input, now, &mut events);
                proof {
                    let (next, told, asked) = choose|
                        next: BatchView,
                        told: Seq<AgentEvent>,
                        asked: ToolAction,
                    | #[trigger]
                        ran_tools(
                            mid,
                            message,
                            first,
                            input,
                            now,
                            self@,
                            events@,
                            action,
                            next,
                            told,
                            asked,
                        );
                    assert(ran_tools(
                        before,
                        message,
                        first,
                        input,
                        now,
                        self@,
                        events@,
                        action,
                        next,
                        told,
                        asked,
                    ));
                }
                (events, action)
            },
            (Phase::Turning, LoopReply::Turned { update, stop }) => {
                if let Some(u) = update {
                    if let Some(model) = u.model {
                        self.config.model = model;
                    }
                    if let Some(level) = u.thinking_level {
                        self.config.thinking_level = level;
                    }
                }
                if stop {
                    let action = self.end_run(&mut events);
                    (events, action)
                } else {
                    self.phase = Phase::Steering;
                    (events, LoopAction::AskSteering)
                }
            },
            (Phase::Following, LoopReply::FollowUps(v)) => {
                if v.len() > 0 {
                    self.phase = Phase::Following;
                    self.more = true;
                    let action = self.take_turn(v, &mut events);
                    (events, action)
                } else {
                    let action = self.end_run(&mut events);
                    (events, action)
                }
            },
            (phase, _) => {
                self.phase = phase;
                (events, LoopAction::Ignored)
            },
        }
    }
}

fn failed_compaction(tokens: u64, error: String) -> (r: AgentEvent)
    ensures
        is_compaction_failure(r, tokens as nat, error@),
{
    AgentEvent::CompactionEnd {
        tokens_before: tokens,
        tokens_after: tokens,
        error: Some(error),
        summary: None,
    }
}

proof fn lemma_results_grow(
    before: BatchView,
    input: ToolInput,
    tools: Seq<compaction::ToolInfo>,
    now: u64,
    after: BatchView,
    events: Seq<AgentEvent>,
    action: ToolAction,
)
    requires
        tools::batch_ok(before),
        tools::steps(before, input, tools, now, after, events, action),
    ensures
        before.results.len() <= after.results.len(),
{
}

// ---------------------------------------------------------------------------
// Laws
// ---------------------------------------------------------------------------

/// The messages that events announce as part of the history, in order.
pub open spec fn messages_ended(events: Seq<AgentEvent>) -> Seq<AgentMessage>
    decreases events.len(),
{
    if events.len() == 0 {
        Seq::empty()
    } else {
        let before = messages_ended(events.drop_last());
        match events.last() {
            AgentEvent::MessageEnd { message } => before.push(message),
            _ => before,
        }
    }
}

proof fn lemma_ended_add(a: Seq<AgentEvent>, b: Seq<AgentEvent>)
    ensures
        messages_ended(a + b) == messages_ended(a) + messages_ended(b),
    decreases b.len(),
{
    if b.len() == 0 {
        assert(a + b =~= a);
        assert(messages_ended(b) =~= Seq::empty());
        assert(messages_ended(a) + messages_ended(b) =~= messages_ended(a));
    } else {
        lemma_ended_add(a, b.drop_last());
        assert((a + b).drop_last() =~= a + b.drop_last());
        assert((a + b).last() == b.last());
        assert(messages_ended(a + b) =~= messages_ended(a) + messages_ended(b));
    }
}

proof fn lemma_all_ended(v: Seq<AgentMessage>)
    ensures
        messages_ended(all_ended(v)) == v,
    decreases v.len(),
{
    if v.len() == 0 {
        assert(messages_ended(all_ended(v)) =~= v);
    } else {
        lemma_all_ended(v.drop_last());
        assert(all_ended(v).drop_last() =~= all_ended(v.drop_last()));
        assert(messages_ended(all_ended(v)) =~= v);
    }
}

proof fn lemma_result_events(events: Seq<AgentEvent>, results: Seq<Arc<ToolResultMessage>>)
    requires
        tools::are_result_events(events, results),
    ensures
        messages_ended(events) == as_messages(results),
        forall|k: int| 0 <= k < events.len() ==> (#[trigger] events[k]) is MessageEnd,
    decreases events.len(),
{
    assert forall|k: int| 0 <= k < events.len() implies (#[trigger] events[k]) is MessageEnd by {
        assert(tools::is_result_event(events[k], results[k]));
    }
    if events.len() == 0 {
        assert(messages_ended(events) =~= as_messages(results));
    } else {
        let e = events.drop_last();
        let r = results.drop_last();
        assert forall|k: int| 0 <= k < r.len() implies tools::is_result_event(
            #[trigger] e[k],
            r[k],
        ) by {
            assert(tools::is_result_event(events[k], results[k]));
        }
        lemma_result_events(e, r);
        assert(tools::is_result_event(events[events.len() - 1], results[events.len() - 1]));
        assert(messages_ended(events) =~= as_messages(results));
    }
}

proof fn lemma_one(e: AgentEvent)
    ensures
        messages_ended(seq![e]) == (match e {
            AgentEvent::MessageEnd { message } => seq![message],
            _ => Seq::empty(),
        }),
{
    let s = seq![e];
    assert(s.drop_last() =~= Seq::empty());
    assert(messages_ended(s.drop_last()) =~= Seq::empty());
    assert(messages_ended(s) =~= (match e {
        AgentEvent::MessageEnd { message } => seq![message],
        _ => Seq::empty(),
    }));
}

proof fn lemma_first(events: Seq<AgentEvent>)
    requires
        events.len() > 0,
    ensures
        messages_ended(events) == (match events[0] {
            AgentEvent::MessageEnd { message } => seq![message] + messages_ended(events.skip(1)),
            _ => messages_ended(events.skip(1)),
        }),
{
    lemma_ended_add(seq![events[0]], events.skip(1));
    lemma_one(events[0]);
    assert(seq![events[0]] + events.skip(1) =~= events);
    assert(Seq::<AgentMessage>::empty() + messages_ended(events.skip(1)) =~= messages_ended(
        events.skip(1),
    ));
}

proof fn lemma_tool_events(
    before: BatchView,
    input: ToolInput,
    tools: Seq<compaction::ToolInfo>,
    now: u64,
    after: BatchView,
    events: Seq<AgentEvent>,
    action: ToolAction,
)
    requires
        tools::batch_ok(before),
        tools::steps(before, input, tools, now, after, events, action),
    ensures
        messages_ended(events) == as_messages(after.results.skip(before.results.len() as int)),
        forall|k: int| 0 <= k < events.len() ==> !((#[trigger] events[k]) is AgentEnd),
{
    let added = after.results.skip(before.results.len() as int);
    assert(after.results.skip(0) =~= after.results);
    if after.results == before.results {
        assert(as_messages(added) =~= Seq::empty());
    }
    if after.results.len() == before.results.len() + 1 && after.results.drop_last()
        == before.results {
        assert(as_messages(added) =~= seq![
            AgentMessage::Llm(Message::ToolResult(after.results.last())),
        ]);
    }
    assert(messages_ended(Seq::<AgentEvent>::empty()) =~= Seq::empty());
    if events.len() > 0 {
        lemma_first(events);
        let rest = events.skip(1);
        if rest.len() > 0 {
            lemma_first(rest);
            let rest2 = rest.skip(1);
            if rest2.len() > 0 {
                lemma_first(rest2);
                if rest2.len() == 1 {
                    assert(rest2.skip(1) =~= Seq::empty());
                }
                assert(rest2[0] == events[2]);
            } else {
                assert(rest2 =~= Seq::empty());
            }
            assert(rest[0] == events[1]);
        } else {
            assert(rest =~= Seq::empty());
        }
    } else {
        assert(events =~= Seq::empty());
    }
    let n = before.slots.len() as int;
    match (before.stage, input) {
        (tools::Stage::Preparing, ToolInput::Next { cancelled }) => {
            if n < before.calls.len() && !(n > 0 && cancelled) {
                assert(messages_ended(events) =~= as_messages(added));
            } else if tools::running(before.slots, n).len() == 0 {
                if before.sequential {
                    assert(messages_ended(events) =~= as_messages(added));
                } else {
                    lemma_result_events(events, after.results);
                    assert(added =~= after.results);
                }
            }
        },
        (tools::Stage::Running, ToolInput::Executed { slot, result, after: said }) => {
            if slot < n && before.slots[slot as int].outcome is None {
                if before.sequential {
                    assert(messages_ended(events) =~= as_messages(added));
                } else if tools::running(after.slots, n).len() == 0 {
                    lemma_result_events(events.skip(1), after.results);
                    assert(added =~= after.results);
                    assert forall|k: int| 0 <= k < events.len() implies !((
                    #[trigger] events[k]) is AgentEnd) by {
                        if k > 0 {
                            assert(events[k] == events.skip(1)[k - 1]);
                        }
                    }
                }
            }
        },
        _ => {
            assert(messages_ended(events) =~= as_messages(added));
        },
    }
}

proof fn lemma_asks_model(v: LoopView, events: Seq<AgentEvent>, action: LoopAction)
    requires
        asks_model(v, events, action),
    ensures
        messages_ended(events) == Seq::<AgentMessage>::empty(),
        forall|k: int| 0 <= k < events.len() ==> !((#[trigger] events[k]) is AgentEnd),
        v.phase !is Done,
{
    reveal_with_fuel(messages_ended, 3);
    assert(messages_ended(events) =~= Seq::empty());
}

proof fn lemma_ends_failed(
    before: LoopView,
    after: LoopView,
    m: Arc<AssistantMessage>,
    events: Seq<AgentEvent>,
    action: LoopAction,
)
    requires
        ends_failed(before, after, m, events, action),
    ensures
        messages_ended(events) == seq![AgentMessage::Llm(Message::Assistant(m))],
        !(events[0] is AgentEnd),
        !(events[1] is AgentEnd),
{
    reveal_with_fuel(messages_ended, 4);
    assert(messages_ended(events) =~= seq![AgentMessage::Llm(Message::Assistant(m))]);
}

proof fn lemma_takes_turn(
    before: LoopView,
    v: Seq<AgentMessage>,
    after: LoopView,
    events: Seq<AgentEvent>,
    action: LoopAction,
)
    requires
        takes_turn(before, v, after, events, action),
    ensures
        messages_ended(events) == v,
        forall|k: int| 0 <= k < events.len() ==> !((#[trigger] events[k]) is AgentEnd),
        after.phase !is Done,
{
    let n = v.len() as int;
    let head = events.take(n);
    let tail = events.skip(n);
    assert(head + tail =~= events);
    lemma_ended_add(head, tail);
    lemma_all_ended(v);
    lemma_asks_model(after, tail, action);
    assert(v + Seq::<AgentMessage>::empty() =~= v);
    assert forall|k: int| 0 <= k < events.len() implies !((#[trigger] events[k]) is AgentEnd) by {
        if k < n {
            assert(events[k] == head[k]);
            assert(head[k] == ended(v[k]));
        } else {
            assert(events[k] == tail[k - n]);
        }
    }
}

/// What a step adds to the run's messages is what it announces, message by
/// message and in order; the end of a run comes once, as the very last
/// event, and carries all of them.
pub proof fn law_runs_announce_everything_and_end_once(
    before: LoopView,
    reply: LoopReply,
    now: u64,
    after: LoopView,
    events: Seq<AgentEvent>,
    action: LoopAction,
)
    requires
        loop_ok(before),
        loop_steps(before, reply, now, after, events, action),
    ensures
        after.new == before.new + messages_ended(events),
        forall|k: int|
            0 <= k < events.len() && (#[trigger] events[k]) is AgentEnd ==> k == events.len() - 1
                && after.phase is Done,
        after.phase is Done && before.phase !is Done ==> events.len() > 0 && is_agent_end(
            events.last(),
            after.new,
        ),
        before.phase is Done ==> after == before && events.len() == 0,
{
    reveal_with_fuel(messages_ended, 3);
    let none = Seq::<AgentMessage>::empty();
    assert(before.new + none =~= before.new);
    if events.len() == 0 {
        assert(events =~= Seq::empty());
    }
    match (before.phase, reply) {
        (PhaseView::Steering, LoopReply::Steering(v)) => {
            if before.more || v@.len() > 0 {
                lemma_takes_turn(before, v@, after, events, action);
            }
        },
        (PhaseView::Requesting, LoopReply::Response { message, failure }) => {
            lemma_responds(before, message, failure, after, events, action);
        },
        (PhaseView::Summarizing { reason, plan, refused }, LoopReply::Summary(r)) => {
            if compaction::summary_of(r) is None && refused is Some {
                lemma_first(events);
                lemma_ends_failed(before, after, refused.unwrap(), events.skip(1), action);
                lemma_shifted(events, 1);
            } else {
                assert(messages_ended(events) =~= none);
            }
        },
        (PhaseView::Waiting { failed }, LoopReply::Waited { cancelled }) => {
            if cancelled {
                lemma_ends_failed(before, after, failed, events, action);
            }
        },
        (PhaseView::Running { message, batch }, LoopReply::Tool(input)) => {
            let (next, told, asked) = choose|
                next: BatchView,
                told: Seq<AgentEvent>,
                asked: ToolAction,
            | #[trigger]
                ran_tools(
                    before,
                    message,
                    batch,
                    input,
                    now,
                    after,
                    events,
                    action,
                    next,
                    told,
                    asked,
                );
            lemma_tool_events(batch, input, before.context.tools@, now, next, told, asked);
            if asked is Finished {
                assert forall|k: int| 0 <= k < events.len() implies !((
                #[trigger] events[k]) is AgentEnd) by {
                    if k < told.len() {
                        assert(events[k] == events.drop_last()[k]);
                    }
                }
            }
        },
        (PhaseView::Turning, LoopReply::Turned { update, stop }) => {
            if stop {
                assert(messages_ended(events) =~= none);
            }
        },
        (PhaseView::Following, LoopReply::FollowUps(v)) => {
            if v@.len() > 0 {
                lemma_takes_turn(LoopView { more: true, ..before }, v@, after, events, action);
            } else {
                assert(messages_ended(events) =~= none);
            }
        },
        _ => {},
    }
}

proof fn lemma_shifted(events: Seq<AgentEvent>, n: int)
    requires
        0 <= n < events.len(),
    ensures
        events.skip(n).last() == events.last(),
        forall|k: int| n <= k < events.len() ==> events.skip(n)[k - n] == #[trigger] events[k],
{
}

proof fn lemma_responds(
    before: LoopView,
    m: Arc<AssistantMessage>,
    failure: Failure,
    after: LoopView,
    events: Seq<AgentEvent>,
    action: LoopAction,
)
    requires
        before.phase is Requesting,
        responds(before, m, failure, after, events, action),
    ensures
        after.new == before.new + messages_ended(events),
        forall|k: int|
            0 <= k < events.len() && (#[trigger] events[k]) is AgentEnd ==> k == events.len() - 1
                && after.phase is Done,
        after.phase is Done ==> events.len() > 0 && is_agent_end(events.last(), after.new),
{
    let none = Seq::<AgentMessage>::empty();
    let said = seq![AgentMessage::Llm(Message::Assistant(m))];
    reveal_with_fuel(messages_ended, 3);
    assert(before.new + none =~= before.new);
    if messages::failed(m.stop_reason) {
        if m.stop_reason == StopReason::Error && failure == Failure::Overflow
            && before.config.compaction.enabled && !before.overflow_tried {
            if nothing_to_compact(before) {
                lemma_first(events);
                lemma_first(events.skip(1));
                assert(events.skip(1).skip(1) =~= events.skip(2));
                lemma_ends_failed(before, after, m, events.skip(2), action);
                lemma_shifted(events, 2);
            } else {
                assert(messages_ended(events) =~= none);
            }
        } else if m.stop_reason == StopReason::Error && failure == Failure::Transient
            && before.attempt < before.config.retry.max_retries {
            assert(messages_ended(events) =~= none);
        } else {
            lemma_ends_failed(before, after, m, events, action);
        }
    } else {
        assert(messages_ended(events) =~= said);
    }
}

/// A response that fails for a passing reason is asked for again at most as
/// often as the set-up allows, and never joins the history.
pub proof fn law_retries_are_bounded(
    before: LoopView,
    m: Arc<AssistantMessage>,
    failure: Failure,
    now: u64,
    after: LoopView,
    events: Seq<AgentEvent>,
    action: LoopAction,
)
    requires
        loop_ok(before),
        before.phase is Requesting,
        loop_steps(
            before,
            LoopReply::Response { message: m, failure },
            now,
            after,
            events,
            action,
        ),
        action is Wait,
    ensures
        after.attempt == before.attempt + 1,
        after.attempt <= before.config.retry.max_retries,
        after.context == before.context,
        after.new == before.new,
{
}

/// Whether states of a run follow from each other: the loop is told
/// `replies[k]` in `states[k]`, at the time `nows[k]`.
pub open spec fn follow(
    states: Seq<LoopView>,
    replies: Seq<LoopReply>,
    nows: Seq<u64>,
    events: Seq<Seq<AgentEvent>>,
    actions: Seq<LoopAction>,
) -> bool {
    &&& states.len() == replies.len() + 1
    &&& nows.len() == replies.len()
    &&& events.len() == replies.len()
    &&& actions.len() == replies.len()
    &&& forall|k: int| 0 <= k < states.len() ==> loop_ok(#[trigger] states[k])
    &&& forall|k: int|
        0 <= k < replies.len() ==> loop_steps(
            states[k],
            #[trigger] replies[k],
            nows[k],
            states[k + 1],
            events[k],
            actions[k],
        )
}

spec fn shared_calls(m: Arc<AssistantMessage>) -> Seq<messages::ToolCall> {
    messages::calls_of(*m)
}

/// Where the tools of a response stand: the history holds the response and
/// the results so far.
spec fn on_the_way(v: LoopView, base: Seq<AgentMessage>, m: Arc<AssistantMessage>) -> bool {
    let said = AgentMessage::Llm(Message::Assistant(m));
    let calls = shared_calls(m);
    match v.phase {
        PhaseView::Running { message, batch } => {
            &&& message == m
            &&& batch.calls == calls
            &&& batch.stage != tools::Stage::Finished
            &&& tools::nothing_skipped(batch)
            &&& v.context.messages@ == base.push(said) + as_messages(batch.results)
        },
        PhaseView::Turning => all_answered(v.context.messages@, base.push(said), calls),
        _ => false,
    }
}

/// Whether a history is `base` and then one result for each call, in order.
pub open spec fn all_answered(
    history: Seq<AgentMessage>,
    base: Seq<AgentMessage>,
    calls: Seq<messages::ToolCall>,
) -> bool {
    &&& history.len() == base.len() + calls.len()
    &&& history.take(base.len() as int) == base
    &&& forall|k: int|
        0 <= k < calls.len() ==> is_result_for(#[trigger] history[base.len() + k], calls[k])
}

/// Whether a message is the result of a call.
pub open spec fn is_result_for(m: AgentMessage, call: messages::ToolCall) -> bool {
    m matches AgentMessage::Llm(Message::ToolResult(r)) && r.tool_call_id == call.id && r.tool_name
        == call.name
}

proof fn lemma_on_the_way(
    before: LoopView,
    input: ToolInput,
    now: u64,
    after: LoopView,
    events: Seq<AgentEvent>,
    action: LoopAction,
    base: Seq<AgentMessage>,
    m: Arc<AssistantMessage>,
)
    requires
        loop_ok(before),
        loop_ok(after),
        on_the_way(before, base, m),
        loop_steps(before, LoopReply::Tool(input), now, after, events, action),
        !(input matches ToolInput::Next { cancelled: true }),
    ensures
        on_the_way(after, base, m),
{
    let said = AgentMessage::Llm(Message::Assistant(m));
    let calls = shared_calls(m);
    if let PhaseView::Running { message, batch } = before.phase {
        let (next, told, asked) = choose|
            next: BatchView,
            told: Seq<AgentEvent>,
            asked: ToolAction,
        | #[trigger]
            ran_tools(
                before,
                message,
                batch,
                input,
                now,
                after,
                events,
                action,
                next,
                told,
                asked,
            );
        tools::law_calls_are_announced_in_turn(
            batch,
            input,
            before.context.tools@,
            now,
            next,
            told,
            asked,
        );
        lemma_results_kept(batch, input, before.context.tools@, now, next, told, asked);
        let added = next.results.skip(batch.results.len() as int);
        assert(batch.results + added =~= next.results);
        assert(as_messages(next.results) =~= as_messages(batch.results) + as_messages(added));
        assert(after.context.messages@ =~= base.push(said) + as_messages(next.results));
        if asked is Finished {
            let history = after.context.messages@;
            let start = base.push(said);
            assert(history.take(start.len() as int) =~= start);
            assert forall|k: int| 0 <= k < calls.len() implies is_result_for(
                #[trigger] history[start.len() + k],
                calls[k],
            ) by {
                assert(history[start.len() + k] == as_messages(next.results)[k]);
                assert(next.results[k].tool_call_id == next.calls[k].id);
            }
        }
    }
}

proof fn lemma_results_kept(
    before: BatchView,
    input: ToolInput,
    tools: Seq<compaction::ToolInfo>,
    now: u64,
    after: BatchView,
    events: Seq<AgentEvent>,
    action: ToolAction,
)
    requires
        tools::batch_ok(before),
        tools::steps(before, input, tools, now, after, events, action),
        before.stage != tools::Stage::Finished,
    ensures
        before.results.len() <= after.results.len(),
        after.results.take(before.results.len() as int) == before.results,
        action is Finished <==> after.stage == tools::Stage::Finished,
{
    assert(after.results.take(before.results.len() as int) =~= before.results);
}

/// Every tool call of a response that did not fail is answered: a turn that
/// nobody aborts leaves the response in the history and behind it one result
/// for each call in it, in the order of the calls.
pub proof fn law_every_call_of_a_turn_is_answered(
    states: Seq<LoopView>,
    replies: Seq<LoopReply>,
    nows: Seq<u64>,
    events: Seq<Seq<AgentEvent>>,
    actions: Seq<LoopAction>,
    m: Arc<AssistantMessage>,
    failure: Failure,
)
    requires
        follow(states, replies, nows, events, actions),
        states[0].phase is Requesting,
        replies.len() > 0,
        replies[0] == (LoopReply::Response { message: m, failure }),
        m.stop_reason != StopReason::Error && m.stop_reason != StopReason::Aborted,
        forall|k: int|
            1 <= k < replies.len() ==> (#[trigger] replies[k]) is Tool && !(
            replies[k]->Tool_0 matches ToolInput::Next { cancelled: true }),
        states.last().phase is Turning,
    ensures
        ({
            let asked = m.content@.filter(|p: AssistantContent| p is ToolCall);
            let old = states[0].context.messages@;
            let new = states.last().context.messages@;
            &&& new.len() == old.len() + 1 + asked.len()
            &&& new.take(old.len() as int) == old
            &&& new[old.len() as int] == AgentMessage::Llm(Message::Assistant(m))
            &&& forall|k: int|
                0 <= k < asked.len() ==> is_result_for(
                    new[old.len() + 1 + k],
                    (#[trigger] asked[k])->ToolCall_0,
                )
        }),
{
    let base = states[0].context.messages@;
    let said = AgentMessage::Llm(Message::Assistant(m));
    let calls = shared_calls(m);
    lemma_way(states, replies, nows, events, actions, m, failure, replies.len() as int);
    assert(on_the_way(states.last(), base, m));
    let asked = m.content@.filter(|p: AssistantContent| p is ToolCall);
    messages::law_every_call_is_collected(m);
    assert(calls.map_values(|c: messages::ToolCall| AssistantContent::ToolCall(c)) == asked);
    assert(asked.len() == calls.len());
    let new = states.last().context.messages@;
    let start = base.push(said);
    assert(new.take(start.len() as int) == start);
    assert(new.take(base.len() as int) =~= start.take(base.len() as int));
    assert(start.take(base.len() as int) =~= base);
    assert(new[base.len() as int] == new.take(start.len() as int)[base.len() as int]);
    assert forall|k: int| 0 <= k < asked.len() implies is_result_for(
        new[base.len() + 1 + k],
        (#[trigger] asked[k])->ToolCall_0,
    ) by {
        assert(asked[k] == AssistantContent::ToolCall(calls[k]));
        assert(is_result_for(new[start.len() + k], calls[k]));
    }
}

proof fn lemma_way(
    states: Seq<LoopView>,
    replies: Seq<LoopReply>,
    nows: Seq<u64>,
    events: Seq<Seq<AgentEvent>>,
    actions: Seq<LoopAction>,
    m: Arc<AssistantMessage>,
    failure: Failure,
    n: int,
)
    requires
        follow(states, replies, nows, events, actions),
        states[0].phase is Requesting,
        1 <= n <= replies.len(),
        replies[0] == (LoopReply::Response { message: m, failure }),
        m.stop_reason != StopReason::Error && m.stop_reason != StopReason::Aborted,
        forall|k: int|
            1 <= k < replies.len() ==> (#[trigger] replies[k]) is Tool && !(
            replies[k]->Tool_0 matches ToolInput::Next { cancelled: true }),
    ensures
        on_the_way(states[n], states[0].context.messages@, m),
    decreases n,
{
    let base = states[0].context.messages@;
    let said = AgentMessage::Llm(Message::Assistant(m));
    assert(loop_ok(states[n - 1]) && loop_ok(states[n]));
    assert(loop_steps(
        states[n - 1],
        replies[n - 1],
        nows[n - 1],
        states[n - 1 + 1],
        events[n - 1],
        actions[n - 1],
    ));
    if n == 1 {
        assert(base + seq![said] =~= base.push(said));
        if let PhaseView::Running { message, batch } = states[1].phase {
            assert(as_messages(batch.results) =~= Seq::empty());
            assert(base.push(said) + as_messages(batch.results) =~= base.push(said));
        } else {
            assert(base.push(said).take(base.push(said).len() as int) =~= base.push(said));
        }
    } else {
        lemma_way(states, replies, nows, events, actions, m, failure, n - 1);
        let input = replies[n - 1]->Tool_0;
        lemma_on_the_way(
            states[n - 1],
            input,
            nows[n - 1],
            states[n],
            events[n - 1],
            actions[n - 1],
            base,
            m,
        );
    }
}

/// The history of a run only ever grows at its end, but for a summary that
/// takes the place of what came first: what was said last stays last.
pub proof fn law_what_was_said_stays(
    before: LoopView,
    reply: LoopReply,
    now: u64,
    after: LoopView,
    events: Seq<AgentEvent>,
    action: LoopAction,
)
    requires
        loop_ok(before),
        loop_steps(before, reply, now, after, events, action),
        !(reply is Summary),
    ensures
        before.context.messages@.len() <= after.context.messages@.len(),
        after.context.messages@.take(before.context.messages@.len() as int)
            == before.context.messages@,
        after.context.messages@.skip(before.context.messages@.len() as int) == messages_ended(
            events,
        ),
        after.context.system_prompt == before.context.system_prompt,
        after.context.tools == before.context.tools,
{
    law_runs_announce_everything_and_end_once(before, reply, now, after, events, action);
    let old = before.context.messages@;
    let new = after.context.messages@;
    let told = messages_ended(events);
    if after.new == before.new {
        assert(told =~= (before.new + told).skip(before.new.len() as int));
        assert(told =~= Seq::empty());
    }
    match (before.phase, reply) {
        (PhaseView::Running { message, batch }, LoopReply::Tool(input)) => {
            let (next, said, asked) = choose|
                next: BatchView,
                said: Seq<AgentEvent>,
                asked: ToolAction,
            | #[trigger]
                ran_tools(
                    before,
                    message,
                    batch,
                    input,
                    now,
                    after,
                    events,
                    action,
                    next,
                    said,
                    asked,
                );
            let added = as_messages(next.results.skip(batch.results.len() as int));
            assert(new == old + added);
            assert(added =~= (before.new + added).skip(before.new.len() as int));
            assert(told =~= (before.new + told).skip(before.new.len() as int));
        },
        _ => {
            let added = new.skip(old.len() as int);
            if new != old {
                assert(after.new =~= before.new + added);
                assert(added =~= (before.new + added).skip(before.new.len() as int));
                assert(told =~= (before.new + told).skip(before.new.len() as int));
            }
        },
    }
    assert(new.take(old.len() as int) =~= old);
    assert(new.skip(old.len() as int) =~= told);
}

/// A response that did not fail leads on to its tools if it asks for any,
/// whatever it says of why it stopped; without calls the turn is over.
pub proof fn law_calls_decide_the_turn(
    before: LoopView,
    m: Arc<AssistantMessage>,
    failure: Failure,
    now: u64,
    after: LoopView,
    events: Seq<AgentEvent>,
    action: LoopAction,
)
    requires
        loop_ok(before),
        before.phase is Requesting,
        loop_steps(before, LoopReply::Response { message: m, failure }, now, after, events, action),
        m.stop_reason != StopReason::Error && m.stop_reason != StopReason::Aborted,
    ensures
        (exists|i: int| 0 <= i < m.content@.len() && (#[trigger] m.content@[i]) is ToolCall) ==> (
        after.phase is Running && action is Tool),
        (forall|i: int| 0 <= i < m.content@.len() ==> !((#[trigger] m.content@[i]) is ToolCall))
            ==> (after.phase is Turning && action is AskTurn && !after.more),
        after.attempt == 0 && !after.overflow_tried,
{
    let calls = shared_calls(m);
    if exists|i: int| 0 <= i < m.content@.len() && (#[trigger] m.content@[i]) is ToolCall {
        let i = choose|i: int| 0 <= i < m.content@.len() && (#[trigger] m.content@[i]) is ToolCall;
        let call = m.content@[i]->ToolCall_0;
        assert(m.content@[i] == AssistantContent::ToolCall(call));
        messages::law_no_call_is_lost(m, call);
        assert(calls.len() > 0);
    } else if calls.len() > 0 {
        messages::law_no_call_is_lost(m, calls[0]);
        assert(calls.contains(calls[0]));
        let i = choose|i: int|
            0 <= i < m.content@.len() && m.content@[i] == AssistantContent::ToolCall(calls[0]);
        assert(m.content@[i] is ToolCall);
    }
}

/// A run goes on while its tools leave something to say: it asks the model
/// again after the tools unless they asked for the end, and stops only when
/// nothing is queued.
pub proof fn law_runs_go_on_while_there_is_work(
    before: LoopView,
    v: Vec<AgentMessage>,
    now: u64,
    after: LoopView,
    events: Seq<AgentEvent>,
    action: LoopAction,
)
    requires
        loop_ok(before),
    ensures
        before.phase is Steering && loop_steps(
            before,
            LoopReply::Steering(v),
            now,
            after,
            events,
            action,
        ) ==> (action is Request || action is Summarize <==> before.more || v@.len() > 0),
        before.phase is Following && loop_steps(
            before,
            LoopReply::FollowUps(v),
            now,
            after,
            events,
            action,
        ) ==> (action is Finished <==> v@.len() == 0) && (action is Request || action is Summarize
            <==> v@.len() > 0),
{
}

/// A response that fails for a passing reason is asked for again as long as
/// the set-up allows, after a pause; any other failure ends the run with it,
/// unless a compaction may help.
pub proof fn law_passing_failures_are_tried_again(
    before: LoopView,
    m: Arc<AssistantMessage>,
    failure: Failure,
    now: u64,
    after: LoopView,
    events: Seq<AgentEvent>,
    action: LoopAction,
)
    requires
        loop_ok(before),
        before.phase is Requesting,
        loop_steps(before, LoopReply::Response { message: m, failure }, now, after, events, action),
    ensures
        action is Wait <==> m.stop_reason == StopReason::Error && failure == Failure::Transient
            && before.attempt < before.config.retry.max_retries,
        m.stop_reason == StopReason::Aborted ==> action is Finished,
        m.stop_reason == StopReason::Error && failure == Failure::Final ==> action is Finished,
        action is Finished ==> after.context.messages@ == before.context.messages@.push(
            AgentMessage::Llm(Message::Assistant(m)),
        ),
{
    let said = AgentMessage::Llm(Message::Assistant(m));
    assert(before.context.messages@ + seq![said] =~= before.context.messages@.push(said));
}

/// A pause that was not aborted leads to the same request once more.
pub proof fn law_a_pause_changes_nothing(
    before: LoopView,
    now: u64,
    after: LoopView,
    events: Seq<AgentEvent>,
    action: LoopAction,
)
    requires
        before.phase is Waiting,
        loop_steps(before, LoopReply::Waited { cancelled: false }, now, after, events, action),
    ensures
        action is Request,
        events.len() == 0,
        after.context == before.context,
        after.config == before.config,
        after.attempt == before.attempt,
{
}

/// A conversation can be continued when something is left to be answered:
/// when it has a last message, and that is not the model's own.
pub proof fn law_only_open_conversations_are_continued(v: Seq<AgentMessage>)
    ensures
        continue_error(v) is None <==> v.len() > 0 && !(v.last() matches AgentMessage::Llm(
            Message::Assistant(_),
        )),
        continue_error(v) matches Some(ContinueError::Empty) <==> v.len() == 0,
{
}

/// An update changes the model or the level that it names, and leaves what it
/// does not name as it was.
pub proof fn law_updates_change_what_they_name(c: AgentLoopConfig, u: TurnUpdate)
    ensures
        updated(c, None) == c,
        u.model matches Some(m) ==> updated(c, Some(u)).model == m,
        u.model is None ==> updated(c, Some(u)).model == c.model,
        u.thinking_level matches Some(t) ==> updated(c, Some(u)).thinking_level == t,
        u.thinking_level is None ==> updated(c, Some(u)).thinking_level == c.thinking_level,
        updated(c, Some(u)).tool_execution == c.tool_execution,
        updated(c, Some(u)).retry == c.retry,
        updated(c, Some(u)).compaction == c.compaction,
{
}

} // verus!
