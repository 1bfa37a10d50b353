//! What the agent is told, what it announces and how it is set up.
use std::sync::Arc;

use vstd::prelude::*;

use crate::messages::{
    AgentMessage, AgentToolResult, AssistantMessage, ToolCall, ToolResultMessage,
};

verus! {

/// How the tool calls of one response run.
#[derive(Debug, Clone, Copy, PartialEq, Eq, Structural)]
pub enum ToolExecutionMode {
    Sequential,
    Parallel,
}

impl Default for ToolExecutionMode {
    /// All at once.
    fn default() -> (r: ToolExecutionMode)
        ensures
            r == ToolExecutionMode::Parallel,
    {
        ToolExecutionMode::Parallel
    }
}

/// How many queued messages are handed out at a time.
#[derive(Debug, Clone, Copy, PartialEq, Eq, Structural)]
pub enum QueueMode {
    All,
    OneAtATime,
}

impl Default for QueueMode {
    /// One.
    fn default() -> (r: QueueMode)
        ensures
            r == QueueMode::OneAtATime,
    {
        QueueMode::OneAtATime
    }
}

/// How many messages a queue of that length hands out.
pub open spec fn handed_out(mode: QueueMode, n: nat) -> nat {
    match mode {
        QueueMode::All => n,
        QueueMode::OneAtATime => if n > 0 {
            1
        } else {
            0
        },
    }
}

/// Takes the next messages out of a queue, the oldest first.
pub fn drain(queue: &mut Vec<AgentMessage>, mode: QueueMode) -> (r: Vec<AgentMessage>)
    ensures
        r@ == old(queue)@.take(handed_out(mode, old(queue)@.len()) as int),
        final(queue)@ == old(queue)@.skip(handed_out(mode, old(queue)@.len()) as int),
{
    let mut out: Vec<AgentMessage> = Vec::new();
    let ghost before = queue@;
    match mode {
        QueueMode::All => {
            out.append(queue);
            assert(out@ =~= before.take(before.len() as int));
            assert(queue@ =~= before.skip(before.len() as int));
        },
        QueueMode::OneAtATime => {
            if queue.len() > 0 {
                out.push(queue.remove(0));
                assert(out@ =~= before.take(1));
                assert(queue@ =~= before.skip(1));
            } else {
                assert(out@ =~= before.take(0));
                assert(queue@ =~= before.skip(0));
            }
        },
    }
    out
}

/// What a hook says before a tool runs.
#[derive(Debug)]
pub struct BeforeToolCallResult {
    pub block: bool,
    pub reason: Option<String>,
}

impl Default for BeforeToolCallResult {
    /// Go ahead.
    fn default() -> (r: BeforeToolCallResult)
        ensures
            !r.block,
            r.reason is None,
    {
        BeforeToolCallResult { block: false, reason: None }
    }
}

/// What a hook changes of a result after a tool ran. What it leaves out
/// stays.
#[derive(Debug)]
pub struct AfterToolCallResult {
    pub content: Option<Arc<Vec<crate::messages::Content>>>,
    pub details: Option<String>,
    pub terminate: Option<bool>,
    pub is_error: Option<bool>,
}

/// How often a request that failed for a passing reason is made again, and
/// how long to wait first.
#[derive(Debug, Clone, Copy, PartialEq, Eq, Structural)]
pub struct RetryConfig {
    pub max_retries: u32,
    pub base_delay_ms: u64,
}

impl Default for RetryConfig {
    /// Three times, starting with two seconds.
    fn default() -> (r: RetryConfig)
        ensures
            r == (RetryConfig { max_retries: 3, base_delay_ms: 2000 }),
    {
        RetryConfig { max_retries: 3, base_delay_ms: 2000 }
    }
}

/// Twice as long for every attempt after the first, up to the largest
/// machine number.
pub open spec fn backoff(base: nat, attempt: nat) -> nat
    decreases attempt,
{
    if attempt <= 1 {
        base
    } else {
        let last = backoff(base, (attempt - 1) as nat);
        if last * 2 <= u64::MAX {
            last * 2
        } else {
            u64::MAX as nat
        }
    }
}

/// How long to wait before an attempt.
pub fn backoff_ms(base_delay_ms: u64, attempt: u32) -> (r: u64)
    ensures
        r as nat == backoff(base_delay_ms as nat, attempt as nat),
{
    let mut delay: u64 = base_delay_ms;
    let mut k: u32 = 1;
    while k < attempt
        invariant
            1 <= k,
            k <= attempt || k == 1,
            delay as nat == backoff(base_delay_ms as nat, k as nat),
        decreases attempt - k,
    {
        delay = if delay <= u64::MAX / 2 {
            delay * 2
        } else {
            u64::MAX
        };
        k += 1;
    }
    delay
}

/// Waiting never gets shorter.
pub proof fn law_backoff_grows(base: nat, a: nat, b: nat)
    requires
        a <= b,
        base <= u64::MAX,
    ensures
        backoff(base, a) <= backoff(base, b),
        backoff(base, b) <= u64::MAX,
    decreases b,
{
    if a < b {
        law_backoff_grows(base, a, (b - 1) as nat);
    } else if b > 1 {
        law_backoff_grows(base, (b - 1) as nat, (b - 1) as nat);
    }
}

/// Why the context is compacted.
#[derive(Debug, Clone, Copy, PartialEq, Eq, Structural)]
pub enum CompactionReason {
    Threshold,
    Overflow,
}

/// What a model sends while it answers.
#[derive(Debug)]
pub enum AssistantMessageEvent {
    Start,
    TextDelta(String),
    ThinkingDelta(String),
    ToolCallEnd(ToolCall),
    Done(Arc<AssistantMessage>),
    Error(Arc<AssistantMessage>),
    Other,
}

/// What the agent announces. `AgentEnd` is the last announcement of a run.
#[derive(Debug)]
pub enum AgentEvent {
    AgentEnd { messages: Vec<AgentMessage> },
    TurnEnd { message: AgentMessage, tool_results: Vec<Arc<ToolResultMessage>> },
    MessageUpdate { event: AssistantMessageEvent },
    MessageEnd { message: AgentMessage },
    CompactionStart { reason: CompactionReason },
    CompactionEnd {
        tokens_before: u64,
        tokens_after: u64,
        error: Option<String>,
        summary: Option<String>,
    },
    AutoRetry { attempt: u32, max_attempts: u32, delay_ms: u64, error_message: String },
    ToolExecutionStart { tool_call_id: String, tool_name: String },
    ToolExecutionUpdate { tool_call_id: String, tool_name: String, partial: Arc<AgentToolResult> },
    ToolExecutionEnd {
        tool_call_id: String,
        tool_name: String,
        result: Arc<AgentToolResult>,
        is_error: bool,
    },
}

/// The hooks of an agent that has none: nothing is vetoed, queued or
/// stopped.
#[derive(Debug, Clone, Copy, PartialEq, Eq, Structural)]
pub struct NoHooks;

impl NoHooks {
    /// Every tool may run.
    pub fn before_tool_call(&self) -> (r: Option<BeforeToolCallResult>)
        ensures
            r is None,
    {
        None
    }

    /// No run ends early.
    pub fn should_stop_after_turn(&self) -> (r: bool)
        ensures
            !r,
    {
        false
    }

    /// Nothing is queued.
    pub fn steering_messages(&self) -> (r: Vec<AgentMessage>)
        ensures
            r@.len() == 0,
    {
        Vec::new()
    }

    /// Nothing follows.
    pub fn follow_up_messages(&self) -> (r: Vec<AgentMessage>)
        ensures
            r@.len() == 0,
    {
        Vec::new()
    }
}

/// The wait doubles with every further attempt: the first one waits for the
/// base delay, and each one twice as long as the one before, as long as that
/// is a machine number.
pub proof fn law_waits_double(base: nat, attempt: nat)
    requires
        attempt >= 1,
        base * vstd::arithmetic::power2::pow2((attempt - 1) as nat) <= u64::MAX,
    ensures
        backoff(base, attempt) == base * vstd::arithmetic::power2::pow2((attempt - 1) as nat),
    decreases attempt,
{
    vstd::arithmetic::power2::lemma2_to64();
    if attempt > 1 {
        let n = (attempt - 1) as nat;
        vstd::arithmetic::power2::lemma_pow2_unfold(n);
        let p = vstd::arithmetic::power2::pow2((n - 1) as nat);
        assert(base * (2 * p) == 2 * (base * p)) by (nonlinear_arith);
        law_waits_double(base, n);
    } else {
        assert(base * 1 == base);
    }
}

/// A queue hands out its oldest messages, one at a time or all at once, and
/// keeps the others in their order: none is lost and none comes twice.
pub proof fn law_queues_hand_out_the_oldest(queue: Seq<AgentMessage>, mode: QueueMode)
    ensures
        queue.take(handed_out(mode, queue.len()) as int) + queue.skip(
            handed_out(mode, queue.len()) as int,
        ) == queue,
        mode is All ==> queue.skip(handed_out(mode, queue.len()) as int).len() == 0,
        mode is OneAtATime && queue.len() > 0 ==> queue.take(
            handed_out(mode, queue.len()) as int,
        ) == seq![queue[0]],
{
    let n = handed_out(mode, queue.len()) as int;
    assert(queue.take(n) + queue.skip(n) =~= queue);
    if mode is OneAtATime && queue.len() > 0 {
        assert(queue.take(n) =~= seq![queue[0]]);
    }
}

} // verus!
