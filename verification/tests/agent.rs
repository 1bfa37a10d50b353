//! Whole runs of the agent, with a scripted model behind them.

use std::sync::Arc;

use cupel::agent::{Agent, AgentError, AgentOptions};
use cupel::agent_loop::{
    agent_loop, agent_loop_continue, final_message, stream_step, AgentLoop, AgentLoopConfig, ContinueError, Failure, LoopAction, LoopModel,
    LoopReply, StreamStep,
};
use cupel::compaction::{AgentContext, CompactionConfig, ToolInfo, COMPACTION_MARKER};
use cupel::messages::{
    convert_to_llm, text_of, AgentMessage, AgentToolResult, AssistantContent, AssistantMessage,
    Message, StopReason, ToolCall, Usage, UserBody,
};
use cupel::models::{InputModality, Model, ModelCost};
use cupel::tools::{ToolAction, ToolInput};
use cupel::types::{
    backoff_ms, drain, AgentEvent, AssistantMessageEvent, CompactionReason, NoHooks, QueueMode,
    RetryConfig, ToolExecutionMode,
};

fn user(text: &str) -> AgentMessage {
    AgentMessage::user_text(text.to_string(), 0)
}

fn assistant(content: Vec<AssistantContent>, stop: StopReason) -> AssistantMessage {
    AssistantMessage {
        content,
        api: "mock".into(),
        provider: "mock".into(),
        model: "mock-model".into(),
        response_model: None,
        response_id: None,
        usage: Usage::default(),
        stop_reason: stop,
        error_message: None,
        timestamp: 0,
    }
}

fn says(text: &str) -> AssistantMessage {
    assistant(vec![AssistantContent::Text(text.into())], StopReason::Stop)
}

fn fails(text: &str) -> AssistantMessage {
    let mut m = assistant(Vec::new(), StopReason::Error);
    m.error_message = Some(text.into());
    m
}

fn describe(message: &Message) -> String {
    match message {
        Message::User(u) => match &u.content {
            UserBody::Text(t) => format!("user:Text({t:?})"),
            UserBody::Blocks(_) => "user:Blocks".into(),
        },
        Message::Assistant(a) => format!(
            "assistant:{}",
            a.content
                .iter()
                .map(|c| match c {
                    AssistantContent::Text(t) => t.clone(),
                    AssistantContent::ToolCall(tc) => format!("call {}", tc.name),
                    AssistantContent::Thinking(_) => "thinking".into(),
                })
                .collect::<Vec<_>>()
                .join("+")
        ),
        Message::ToolResult(t) => {
            format!("tool_result:{}:{}", t.tool_name, text_of(&t.content))
        }
    }
}

/// A model that answers by a script, and remembers what it was asked.
struct Script {
    turns: Vec<(AssistantMessage, Failure)>,
    seen: Vec<Vec<String>>,
    calls: usize,
    /// What is collected in the place of a real clock.
    waits: Vec<u64>,
}

impl Script {
    fn new(mut turns: Vec<(AssistantMessage, Failure)>) -> Script {
        turns.reverse();
        Script { turns, seen: Vec::new(), calls: 0, waits: Vec::new() }
    }

    fn answer(&mut self, context: &AgentContext) -> LoopReply {
        self.calls += 1;
        let sent = convert_to_llm(&context.messages);
        self.seen.push(sent.iter().map(describe).collect());
        let (message, failure) = self.turns.pop().expect("the script has a turn left");
        LoopReply::Response { message: Arc::new(message), failure }
    }
}

/// Runs the loop to its end; every event goes to `tell`.
fn run(
    mut agent_loop: AgentLoop,
    mut action: LoopAction,
    script: &mut Script,
    tell: &mut dyn FnMut(AgentEvent),
) -> AgentLoop {
    let mut running: Vec<usize> = Vec::new();
    loop {
        let reply = match action {
            LoopAction::AskSteering => LoopReply::Steering(NoHooks.steering_messages()),
            LoopAction::Request => script.answer(agent_loop.context()),
            LoopAction::Summarize { .. } => LoopReply::Summary(Ok(vec![AssistantContent::Text(
                "## Goal\nSummarized history.".into(),
            )])),
            LoopAction::Wait { delay_ms } => {
                script.waits.push(delay_ms);
                LoopReply::Waited { cancelled: false }
            }
            LoopAction::Tool(ToolAction::Next) | LoopAction::Tool(ToolAction::Finished) => {
                LoopReply::Tool(ToolInput::Next { cancelled: false })
            }
            LoopAction::Tool(ToolAction::Judge { .. }) => LoopReply::Tool(ToolInput::Judged {
                before: NoHooks.before_tool_call(),
                cancelled: false,
            }),
            LoopAction::Tool(ToolAction::Execute { slots }) => {
                running = slots;
                let slot = running.remove(0);
                execute(&agent_loop, slot, tell)
            }
            LoopAction::Tool(ToolAction::Await) => {
                let slot = running.remove(0);
                execute(&agent_loop, slot, tell)
            }
            LoopAction::AskTurn => LoopReply::Turned {
                update: None,
                stop: NoHooks.should_stop_after_turn(),
            },
            LoopAction::AskFollowUps => LoopReply::FollowUps(NoHooks.follow_up_messages()),
            LoopAction::Finished => return agent_loop,
            LoopAction::Ignored => panic!("a reply was not expected"),
        };
        let (events, next) = agent_loop.advance(reply, 0);
        for e in events {
            tell(e);
        }
        action = next;
    }
}

/// The one tool: it answers with what it was called with.
fn execute(agent_loop: &AgentLoop, slot: usize, tell: &mut dyn FnMut(AgentEvent)) -> LoopReply {
    let call = agent_loop.batch().expect("a batch").call(slot).expect("a call");
    let args: serde_json::Value = serde_json::from_str(&call.arguments).expect("JSON");
    let text = args["text"].as_str().unwrap_or("").to_string();
    tell(AgentEvent::ToolExecutionUpdate {
        tool_call_id: call.id.clone(),
        tool_name: call.name.clone(),
        partial: Arc::new(AgentToolResult::text("echo: ".into())),
    });
    LoopReply::Tool(ToolInput::Executed {
        slot,
        result: Ok(AgentToolResult::text(format!("echo: {text}"))),
        after: None,
    })
}

fn loop_config(window: u64, retry: RetryConfig, compaction: CompactionConfig) -> AgentLoopConfig {
    AgentLoopConfig {
        model: LoopModel {
            id: "mock-model".into(),
            api: "mock".into(),
            provider: "mock".into(),
            context_window: window,
            max_tokens: 4096,
        },
        thinking_level: None,
        tool_execution: ToolExecutionMode::Parallel,
        retry,
        compaction,
    }
}

fn context(messages: Vec<AgentMessage>) -> AgentContext {
    AgentContext { system_prompt: String::new(), messages, tools: Vec::new() }
}

fn run_prompt(
    prompt: &str,
    history: Vec<AgentMessage>,
    config: AgentLoopConfig,
    script: &mut Script,
) -> Vec<AgentEvent> {
    let (agent_loop, mut events, action) =
        agent_loop(vec![user(prompt)], context(history), config);
    run(agent_loop, action, script, &mut |e| events.push(e));
    events
}

fn run_loop_with(script: &mut Script, retry: RetryConfig) -> Vec<AgentEvent> {
    let config = loop_config(100_000, retry, CompactionConfig::default());
    run_prompt("hello", Vec::new(), config, script)
}

fn fast_retry(max_retries: u32) -> RetryConfig {
    RetryConfig { max_retries, base_delay_ms: 1 }
}

fn auto_retries(events: &[AgentEvent]) -> Vec<(u32, u32)> {
    events
        .iter()
        .filter_map(|e| match e {
            AgentEvent::AutoRetry { attempt, max_attempts, .. } => {
                Some((*attempt, *max_attempts))
            }
            _ => None,
        })
        .collect()
}

fn last_stop_reason(events: &[AgentEvent]) -> Option<StopReason> {
    events.iter().rev().find_map(|e| match e {
        AgentEvent::MessageEnd { message: AgentMessage::Llm(Message::Assistant(a)) } => {
            Some(a.stop_reason)
        }
        _ => None,
    })
}

#[test]
fn transient_failure_is_retried_and_recovers() {
    let mut script = Script::new(vec![
        (fails("provider returned HTTP 529: Overloaded"), Failure::Transient),
        (says("recovered"), Failure::Final),
    ]);
    let events = run_loop_with(&mut script, fast_retry(3));

    assert_eq!(auto_retries(&events), vec![(1, 3)]);
    assert_eq!(script.calls, 2, "one failure + one retry");
    assert_eq!(last_stop_reason(&events), Some(StopReason::Stop));
    // The run ended normally, not in the error path.
    assert!(matches!(events.last(), Some(AgentEvent::AgentEnd { .. })));
}

#[test]
fn retry_budget_exhaustion_surfaces_the_error() {
    // Fails more times than the budget allows: 1 initial try + 2 retries.
    let turns = (0..10).map(|_| (fails("503 Service Unavailable"), Failure::Transient)).collect();
    let mut script = Script::new(turns);
    let events = run_loop_with(&mut script, fast_retry(2));

    assert_eq!(auto_retries(&events), vec![(1, 2), (2, 2)]);
    assert_eq!(script.calls, 3);
    assert_eq!(last_stop_reason(&events), Some(StopReason::Error));
    assert_eq!(script.waits, vec![backoff_ms(1, 1), backoff_ms(1, 2)]);
}

#[test]
fn non_retryable_errors_fail_immediately() {
    let mut script = Script::new(vec![(
        fails("insufficient_quota: check your plan and billing details"),
        Failure::Final,
    )]);
    let events = run_loop_with(&mut script, fast_retry(3));

    assert!(
        auto_retries(&events).is_empty(),
        "billing errors must not retry"
    );
    assert_eq!(script.calls, 1);
}

#[test]
fn retries_disabled_with_zero_budget() {
    let mut script = Script::new(vec![(fails("Overloaded"), Failure::Transient)]);
    let events = run_loop_with(&mut script, fast_retry(0));

    assert!(auto_retries(&events).is_empty());
    assert_eq!(script.calls, 1);
}

#[test]
fn delays_double_with_every_attempt() {
    assert_eq!(backoff_ms(1000, 1), 1000);
    assert_eq!(backoff_ms(1000, 2), 2000);
    assert_eq!(backoff_ms(1000, 4), 8000);
}

fn compaction_events(events: &[AgentEvent]) -> Vec<(CompactionReason, bool)> {
    let mut out = Vec::new();
    let mut pending: Option<CompactionReason> = None;
    for event in events {
        match event {
            AgentEvent::CompactionStart { reason } => pending = Some(*reason),
            AgentEvent::CompactionEnd { error, .. } => {
                if let Some(reason) = pending.take() {
                    out.push((reason, error.is_none()));
                }
            }
            _ => {}
        }
    }
    out
}

/// ~1000 estimated tokens of filler per message (4000 chars / 4).
fn big_history(count: usize) -> Vec<AgentMessage> {
    (0..count).map(|i| user(&format!("message {i}: {}", "x".repeat(4000)))).collect()
}

const SMALL: CompactionConfig =
    CompactionConfig { enabled: true, reserve_tokens: 1000, keep_recent_tokens: 500 };

#[test]
fn threshold_compaction_shrinks_the_request() {
    // Window 3000, reserve 1000 -> compaction at ~2000 estimated tokens.
    // Five ~1000-token messages of history is well past that.
    let mut script = Script::new(vec![(says("done"), Failure::Final)]);
    let config = loop_config(3000, fast_retry(0), SMALL);
    let events = run_prompt("current question", big_history(5), config, &mut script);

    assert_eq!(
        compaction_events(&events),
        vec![(CompactionReason::Threshold, true)]
    );
    // Exactly one turn request, and it was the compacted one: it starts with
    // the summary marker and carries far fewer messages than 5 + prompt.
    assert_eq!(script.seen.len(), 1);
    let first = &script.seen[0][0];
    assert!(
        first.starts_with(&format!("user:Text(\"{COMPACTION_MARKER}")),
        "request should start with the summary, got: {first:.60}"
    );
    assert!(
        script.seen[0].len() <= 3,
        "5 history messages should have collapsed, got {}",
        script.seen[0].len()
    );
    assert!(matches!(events.last(), Some(AgentEvent::AgentEnd { .. })));
}

#[test]
fn overflow_error_triggers_reactive_compaction_and_recovery() {
    let mut script = Script::new(vec![
        (
            fails("prompt is too long: 250000 tokens > 200000 maximum"),
            Failure::Overflow,
        ),
        (says("done"), Failure::Final),
    ]);
    // Threshold generous enough that proactive compaction does NOT fire
    // (window 100k), so only the reactive path runs.
    let config = loop_config(100_000, fast_retry(0), SMALL);
    let events = run_prompt("current question", big_history(4), config, &mut script);

    assert_eq!(
        compaction_events(&events),
        vec![(CompactionReason::Overflow, true)]
    );
    // Turn 1 failed with overflow, turn 2 (compacted) succeeded.
    assert_eq!(script.calls, 2);
    assert!(script.seen[1][0].starts_with(&format!("user:Text(\"{COMPACTION_MARKER}")));
    // The run recovered: last assistant message is a success.
    assert_eq!(last_stop_reason(&events), Some(StopReason::Stop));
}

#[test]
fn compaction_disabled_never_compacts() {
    let mut script = Script::new(vec![(says("done"), Failure::Final)]);
    let off = CompactionConfig { enabled: false, reserve_tokens: 16_384, keep_recent_tokens: 20_000 };
    let config = loop_config(3000, fast_retry(0), off);
    let events = run_prompt("current question", big_history(5), config, &mut script);
    assert!(compaction_events(&events).is_empty());
}

fn mock_model() -> Arc<Model> {
    Arc::new(Model {
        id: "mock-model".into(),
        name: "Mock".into(),
        api: "mock".into(),
        provider: "mock".into(),
        base_url: String::new(),
        reasoning: false,
        thinking_level_map: None,
        input: vec![InputModality::Text],
        cost: ModelCost { input: 0, output: 0, cached_read: 0, cached_write: 0, tiers: None },
        context_window: 100_000,
        max_tokens: 4096,
        headers: None,
        compat: None,
    })
}

fn ask(agent: &mut Agent, prompt: &str, script: &mut Script) -> Vec<AgentEvent> {
    let (agent_loop, started, action) = match agent.prompt_text(prompt, 0) {
        Ok(x) => x,
        Err(e) => panic!("{}", e.message()),
    };
    let mut events = Vec::new();
    {
        let mut tell = |e: AgentEvent| {
            agent.apply(&e);
            events.push(e);
        };
        for e in started {
            tell(e);
        }
        run(agent_loop, action, script, &mut tell);
    }
    agent.finish();
    events
}

fn two_turns() -> (Vec<AgentEvent>, Vec<Vec<String>>) {
    let call = ToolCall {
        id: "call_1".into(),
        name: "echo".into(),
        arguments: "{\"text\":\"ping\"}".into(),
    };
    let mut script = Script::new(vec![
        (assistant(vec![AssistantContent::ToolCall(call)], StopReason::ToolUse), Failure::Final),
        (says("done"), Failure::Final),
        (says("done"), Failure::Final),
    ]);
    let mut options = AgentOptions::new(mock_model());
    options.api_key = Some("test".into());
    options.tools = vec![ToolInfo {
        name: "echo".into(),
        description: "echo".into(),
        parameters: "{\"type\":\"object\"}".into(),
        sequential: false,
    }];
    let mut agent = Agent::new(options);
    let first_run = ask(&mut agent, "first question", &mut script);
    ask(&mut agent, "second question", &mut script);
    (first_run, script.seen)
}

#[test]
fn second_turn_replays_the_whole_first_turn() {
    let (_, contexts) = two_turns();
    assert_eq!(contexts.len(), 3);
    assert_eq!(
        contexts[2],
        vec![
            "user:Text(\"first question\")",
            "assistant:call echo",
            "tool_result:echo:echo: ping",
            "assistant:done",
            "user:Text(\"second question\")",
        ],
        "the provider must see the complete first turn"
    );
}

#[test]
fn tool_execution_announces_start_progress_and_end() {
    let (events, _) = two_turns();
    let lifecycle: Vec<String> = events
        .iter()
        .filter_map(|e| match e {
            AgentEvent::ToolExecutionStart { tool_call_id, .. } => {
                Some(format!("start {tool_call_id}"))
            }
            AgentEvent::ToolExecutionUpdate { tool_call_id, partial, .. } => {
                Some(format!("update {tool_call_id} {:?}", text_of(&partial.content)))
            }
            AgentEvent::ToolExecutionEnd { tool_call_id, .. } => {
                Some(format!("end {tool_call_id}"))
            }
            _ => None,
        })
        .collect();
    assert_eq!(
        lifecycle,
        vec!["start call_1", "update call_1 \"echo: \"", "end call_1"]
    );
}

#[test]
fn every_message_of_a_run_arrives_as_message_end() {
    let (events, _) = two_turns();
    let ended: Vec<String> = events
        .iter()
        .filter_map(|e| match e {
            AgentEvent::MessageEnd { message: AgentMessage::Llm(message) } => {
                Some(describe(message))
            }
            _ => None,
        })
        .collect();
    assert_eq!(
        ended,
        vec![
            "user:Text(\"first question\")",
            "assistant:call echo",
            "tool_result:echo:echo: ping",
            "assistant:done",
        ]
    );
    let ends = events
        .iter()
        .filter(|e| matches!(e, AgentEvent::AgentEnd { .. }))
        .count();
    assert_eq!(ends, 1);
}

#[test]
fn seeded_messages_reach_the_provider_and_survive_in_state() {
    let seed = vec![
        user("earlier question"),
        AgentMessage::Llm(Message::Assistant(Arc::new(says("earlier answer")))),
    ];
    let mut options = AgentOptions::new(mock_model());
    options.api_key = Some("test".into());
    options.messages = seed;
    let mut agent = Agent::new(options);
    assert_eq!(agent.state().messages.len(), 2);

    let mut script = Script::new(vec![(says("answer"), Failure::Final)]);
    ask(&mut agent, "new question", &mut script);

    assert_eq!(script.seen.len(), 1, "exactly one LLM call");
    let sent = &script.seen[0];
    assert!(sent.len() >= 3, "seed (2) + new prompt, got {}", sent.len());
    assert!(sent[0].contains("earlier question"));
    assert!(sent[1].contains("earlier answer"));
    assert!(sent[2].contains("new question"));

    let state: Vec<String> = convert_to_llm(&agent.state().messages).iter().map(describe).collect();
    assert_eq!(
        state,
        vec![
            "user:Text(\"earlier question\")",
            "assistant:earlier answer",
            "user:Text(\"new question\")",
            "assistant:answer",
        ]
    );
}

#[test]
fn a_busy_agent_takes_no_prompt() {
    let mut agent = Agent::new(AgentOptions::new(mock_model()));
    assert!(agent.prompt_text("one", 0).is_ok());
    assert!(agent.state().is_streaming);
    match agent.prompt_text("two", 0) {
        Err(e @ AgentError::Busy) => assert!(!e.message().is_empty()),
        Ok(_) => panic!("a run is going on"),
    }
    agent.finish();
    assert!(agent.prompt_text("two", 0).is_ok());
}

#[test]
fn unknown_tools_are_answered_with_an_error() {
    let call = ToolCall { id: "c".into(), name: "nope".into(), arguments: "{}".into() };
    let mut script = Script::new(vec![
        (assistant(vec![AssistantContent::ToolCall(call)], StopReason::ToolUse), Failure::Final),
        (says("done"), Failure::Final),
    ]);
    let events = run_loop_with(&mut script, fast_retry(0));
    let answered = events.iter().any(|e| match e {
        AgentEvent::ToolExecutionEnd { is_error, result, .. } => {
            *is_error && text_of(&result.content).contains("nope")
        }
        _ => false,
    });
    assert!(answered);
    assert_eq!(script.calls, 2, "the model hears of the error");
}

#[test]
fn only_unfinished_histories_can_be_resumed() {
    let config = || loop_config(1000, fast_retry(0), CompactionConfig::default());
    assert!(matches!(agent_loop_continue(context(vec![]), config()), Err(ContinueError::Empty)));
    let ended = vec![AgentMessage::Llm(Message::Assistant(Arc::new(says("done"))))];
    match agent_loop_continue(context(ended), config()) {
        Err(e @ ContinueError::EndsWithAssistant) => assert!(!e.message().is_empty()),
        _ => panic!("the model has spoken last"),
    }
    assert!(agent_loop_continue(context(vec![user("go on")]), config()).is_ok());
}

#[test]
fn queues_are_drained_whole_or_one_at_a_time() {
    let mut queue = vec![user("a"), user("b")];
    assert_eq!(drain(&mut queue, QueueMode::OneAtATime).len(), 1);
    assert_eq!(queue.len(), 1);
    queue.push(user("c"));
    assert_eq!(drain(&mut queue, QueueMode::All).len(), 2);
    assert!(queue.is_empty());
    assert!(drain(&mut queue, QueueMode::OneAtATime).is_empty());
}

#[test]
fn streams_end_with_the_message_they_built() {
    assert!(matches!(
        stream_step(AssistantMessageEvent::TextDelta("x".into())),
        StreamStep::Forward(AgentEvent::MessageUpdate { .. })
    ));
    match stream_step(AssistantMessageEvent::Done(Arc::new(says("x")))) {
        StreamStep::Final(m) => assert_eq!(m.stop_reason, StopReason::Stop),
        _ => panic!("the end carries the message"),
    }
    let model = loop_config(1000, fast_retry(0), CompactionConfig::default()).model;
    let kept = final_message(Some(Arc::new(says("x"))), &model, 9);
    assert_eq!(kept.stop_reason, StopReason::Stop);
    // A stream that breaks off is an error of its own.
    let broken = final_message(None, &model, 9);
    assert_eq!(broken.stop_reason, StopReason::Error);
    assert!(broken.error_message.is_some());
    assert_eq!(broken.timestamp, 9);
    assert_eq!(broken.model, "mock-model");
}
