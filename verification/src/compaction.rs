//! Compaction: keeping long sessions inside the model's context window by
//! replacing old history with a summary that a model writes.
//!
//! Estimates anchor on what the provider reported for the last good
//! response and only guess what came after it. Compaction is due once the
//! estimate exceeds the window less a reserve. The cut keeps a budget of
//! recent messages and falls on a message of the user where there is one,
//! so that no tool call is parted from its result. The summary comes back
//! as a message of the user behind a marker, and a later compaction updates
//! it in place of writing it anew.
use vstd::prelude::*;

use crate::messages::{
    is_failure, share_range, text_said, AgentMessage, AssistantContent, AssistantMessage, Content,
    Message, UserBody,
};
use crate::text::{
    chars_of, lemma_stands, lemma_stands_wider, push_range, stands_in, starts_with, string_of, trimmed,
};
use crate::{messages, text};

verus! {

/// What a summary message starts with.
pub const COMPACTION_MARKER: &'static str = "[Conversation summary - earlier history was compacted]";

/// The system prompt of a request for a summary.
pub const SUMMARIZATION_SYSTEM_PROMPT: &'static str = "You are a context summarization assistant. Your task is to read a conversation between a user and an AI assistant, then produce a structured summary following the exact format specified.\n\nDo NOT continue the conversation. Do NOT respond to any questions in the conversation. ONLY output the structured summary.";

/// Asks for a first summary.
pub const SUMMARIZATION_PROMPT: &'static str = "The messages above are a conversation to summarize. Create a structured context checkpoint summary that another LLM will use to continue the work.\n\nUse this EXACT format:\n\n## Goal\n[What is the user trying to accomplish? Can be multiple items if the session covers different tasks.]\n\n## Constraints & Preferences\n- [Any constraints, preferences, or requirements mentioned by user]\n- [Or \"(none)\" if none were mentioned]\n\n## Progress\n### Done\n- [x] [Completed tasks/changes]\n\n### In Progress\n- [ ] [Current work]\n\n### Blocked\n- [Issues preventing progress, if any]\n\n## Key Decisions\n- **[Decision]**: [Brief rationale]\n\n## Next Steps\n1. [Ordered list of what should happen next]\n\n## Critical Context\n- [Any data, examples, or references needed to continue]\n- [Or \"(none)\" if not applicable]\n\nKeep each section concise. Preserve exact file paths, function names, and error messages.";

/// Asks for an updated summary.
pub const UPDATE_SUMMARIZATION_PROMPT: &'static str = "The messages above are NEW conversation messages to incorporate into the existing summary provided in <previous-summary> tags.\n\nUpdate the existing structured summary with new information. RULES:\n- PRESERVE all existing information from the previous summary\n- ADD new progress, decisions, and context from the new messages\n- UPDATE the Progress section: move items from \"In Progress\" to \"Done\" when completed\n- UPDATE \"Next Steps\" based on what was accomplished\n- PRESERVE exact file paths, function names, and error messages\n- If something is no longer relevant, you may remove it\n\nUse the same EXACT format as the previous summary (Goal / Constraints & Preferences / Progress / Key Decisions / Next Steps / Critical Context).\n\nKeep each section concise. Preserve exact file paths, function names, and error messages.";

/// How many bytes of text count as one token.
pub const CHARS_PER_TOKEN: u64 = 4;

/// How many bytes of text an image counts as.
pub const ESTIMATED_IMAGE_CHARS: u64 = 4800;

/// How many characters of a tool result a request for a summary holds.
pub const SERIALIZED_TOOL_RESULT_CHARS: usize = 2000;

/// When to compact, and how much to keep.
#[derive(Debug, Clone, Copy, PartialEq, Eq, Structural)]
pub struct CompactionConfig {
    pub enabled: bool,
    pub reserve_tokens: u64,
    pub keep_recent_tokens: u64,
}

impl Default for CompactionConfig {
    /// On, with a reserve of 16384 tokens and 20000 tokens kept.
    fn default() -> (r: CompactionConfig)
        ensures
            r == (CompactionConfig {
                enabled: true,
                reserve_tokens: 16_384,
                keep_recent_tokens: 20_000,
            }),
    {
        CompactionConfig { enabled: true, reserve_tokens: 16_384, keep_recent_tokens: 20_000 }
    }
}

/// A tool, as a model is told of it. The parameters are JSON text.
#[derive(Debug)]
pub struct ToolInfo {
    pub name: String,
    pub description: String,
    pub parameters: String,
    pub sequential: bool,
}

/// What a request to the model is made from.
#[derive(Debug)]
pub struct AgentContext {
    pub system_prompt: String,
    pub messages: Vec<AgentMessage>,
    pub tools: Vec<ToolInfo>,
}

// ---------------------------------------------------------------------------
// Estimates
// ---------------------------------------------------------------------------

/// A count that stops at the largest machine number.
pub open spec fn capped(n: nat) -> nat {
    if n <= u64::MAX {
        n
    } else {
        u64::MAX as nat
    }
}

/// Adds two counts.
pub fn plus(a: u64, b: u64) -> (r: u64)
    ensures
        r as nat == capped((a + b) as nat),
{
    if a > u64::MAX - b {
        u64::MAX
    } else {
        a + b
    }
}

/// How many bytes a character takes in UTF-8.
pub open spec fn char_bytes(c: char) -> nat {
    if (c as int) < 0x80 {
        1
    } else if (c as int) < 0x800 {
        2
    } else if (c as int) < 0x10000 {
        3
    } else {
        4
    }
}

/// How many bytes a text takes in UTF-8.
pub open spec fn byte_len(s: Seq<char>) -> nat
    decreases s.len(),
{
    if s.len() == 0 {
        0
    } else {
        byte_len(s.drop_last()) + char_bytes(s.last())
    }
}

/// Counts the bytes of a text.
pub fn count_bytes(s: &str) -> (r: u64)
    ensures
        r as nat == capped(byte_len(s@)),
{
    let chars = chars_of(s);
    let mut n: u64 = 0;
    let mut i: usize = 0;
    while i < chars.len()
        invariant
            i <= chars@.len(),
            n as nat == capped(byte_len(chars@.take(i as int))),
        decreases chars@.len() - i,
    {
        assert(chars@.take(i + 1).drop_last() =~= chars@.take(i as int));
        let c: char = chars[i];
        let w: u64 = if '\u{80}' > c {
            1
        } else if '\u{800}' > c {
            2
        } else if '\u{10000}' > c {
            3
        } else {
            4
        };
        assert(w as nat == char_bytes(c));
        n = plus(n, w);
        i += 1;
    }
    assert(chars@.take(chars@.len() as int) =~= chars@);
    n
}

/// The bytes of the first `n` pieces of what the user or a tool says.
pub open spec fn content_bytes(v: Seq<Content>, n: int) -> nat
    decreases n,
{
    if n <= 0 {
        0
    } else {
        content_bytes(v, n - 1) + (match v[n - 1] {
            Content::Text(t) => byte_len(t@),
            Content::Image(_) => ESTIMATED_IMAGE_CHARS as nat,
        })
    }
}

/// The bytes of the first `n` pieces of what the model says.
pub open spec fn spoken_bytes(v: Seq<AssistantContent>, n: int) -> nat
    decreases n,
{
    if n <= 0 {
        0
    } else {
        spoken_bytes(v, n - 1) + (match v[n - 1] {
            AssistantContent::Text(t) => byte_len(t@),
            AssistantContent::Thinking(t) => byte_len(t@),
            AssistantContent::ToolCall(c) => byte_len(c.name@) + byte_len(c.arguments@),
        })
    }
}

/// The bytes of a message.
pub open spec fn message_bytes(m: AgentMessage) -> nat {
    match m {
        AgentMessage::Custom(c) => byte_len(c.payload@),
        AgentMessage::Llm(Message::User(u)) => match u.content {
            UserBody::Text(t) => byte_len(t@),
            UserBody::Blocks(b) => content_bytes(b@, b@.len() as int),
        },
        AgentMessage::Llm(Message::Assistant(a)) => spoken_bytes(
            a.content@,
            a.content@.len() as int,
        ),
        AgentMessage::Llm(Message::ToolResult(r)) => content_bytes(
            r.content@,
            r.content@.len() as int,
        ),
    }
}

/// How many tokens that many bytes are, rounded up.
pub open spec fn tokens_for(bytes: nat) -> nat {
    (bytes + CHARS_PER_TOKEN - 1) as nat / CHARS_PER_TOKEN as nat
}

/// The estimated tokens of a message.
pub open spec fn message_tokens(m: AgentMessage) -> nat {
    tokens_for(capped(message_bytes(m)))
}

fn to_tokens(bytes: u64) -> (r: u64)
    ensures
        r as nat == tokens_for(bytes as nat),
{
    let whole: u64 = bytes / 4;
    if bytes % 4 == 0 {
        whole
    } else {
        whole + 1
    }
}

fn count_content(v: &Vec<Content>) -> (r: u64)
    ensures
        r as nat == capped(content_bytes(v@, v@.len() as int)),
{
    let mut n: u64 = 0;
    let mut i: usize = 0;
    while i < v.len()
        invariant
            i <= v@.len(),
            n as nat == capped(content_bytes(v@, i as int)),
        decreases v@.len() - i,
    {
        let more: u64 = match &v[i] {
            Content::Text(t) => count_bytes(t.as_str()),
            Content::Image(_) => ESTIMATED_IMAGE_CHARS,
        };
        n = plus(n, more);
        i += 1;
    }
    n
}

fn count_spoken(v: &Vec<AssistantContent>) -> (r: u64)
    ensures
        r as nat == capped(spoken_bytes(v@, v@.len() as int)),
{
    let mut n: u64 = 0;
    let mut i: usize = 0;
    while i < v.len()
        invariant
            i <= v@.len(),
            n as nat == capped(spoken_bytes(v@, i as int)),
        decreases v@.len() - i,
    {
        let more: u64 = match &v[i] {
            AssistantContent::Text(t) => count_bytes(t.as_str()),
            AssistantContent::Thinking(t) => count_bytes(t.as_str()),
            AssistantContent::ToolCall(c) => plus(
                count_bytes(c.name.as_str()),
                count_bytes(c.arguments.as_str()),
            ),
        };
        n = plus(n, more);
        i += 1;
    }
    n
}

/// Estimates the tokens of a message.
pub fn estimate_message_tokens(m: &AgentMessage) -> (r: u64)
    ensures
        r as nat == message_tokens(*m),
{
    let bytes: u64 = match m {
        AgentMessage::Custom(c) => count_bytes(c.payload.as_str()),
        AgentMessage::Llm(Message::User(u)) => match &u.content {
            UserBody::Text(t) => count_bytes(t.as_str()),
            UserBody::Blocks(b) => count_content(b),
        },
        AgentMessage::Llm(Message::Assistant(a)) => count_spoken(&a.content),
        AgentMessage::Llm(Message::ToolResult(r)) => count_content(&r.content),
    };
    to_tokens(bytes)
}

/// The estimated tokens of the messages from `from` on.
pub open spec fn tail_tokens(v: Seq<AgentMessage>, from: int) -> nat
    decreases v.len() - from,
{
    if from >= v.len() {
        0
    } else {
        message_tokens(v[from]) + tail_tokens(v, from + 1)
    }
}

fn sum_tail(v: &Vec<AgentMessage>, from: usize) -> (r: u64)
    requires
        from <= v@.len(),
    ensures
        r as nat == capped(tail_tokens(v@, from as int)),
{
    let mut n: u64 = 0;
    let mut i: usize = v.len();
    while i > from
        invariant
            from <= i <= v@.len(),
            n as nat == capped(tail_tokens(v@, i as int)),
        decreases i,
    {
        i -= 1;
        n = plus(n, estimate_message_tokens(&v[i]));
    }
    n
}

/// The tokens that the provider reported for a response: its total, or the
/// sum of the parts where there is no total.
pub open spec fn reported_tokens(a: AssistantMessage) -> nat {
    if a.usage.total_tokens > 0 {
        a.usage.total_tokens as nat
    } else {
        capped((a.usage.input + a.usage.output + a.usage.cache_read + a.usage.cache_write) as nat)
    }
}

/// What a message says of the size of the context up to it: the usage of a
/// response that did not fail.
pub open spec fn anchored_tokens(m: AgentMessage) -> Option<nat> {
    match m {
        AgentMessage::Llm(Message::Assistant(a)) => if !messages::failed(a.stop_reason)
            && reported_tokens(*a) > 0 {
            Some(reported_tokens(*a))
        } else {
            None
        },
        _ => None,
    }
}

/// The last of the first `n` messages that reports the size of the context.
pub open spec fn anchor(v: Seq<AgentMessage>, n: int) -> Option<int>
    decreases n,
{
    if n <= 0 {
        None
    } else if anchored_tokens(v[n - 1]) is Some {
        Some(n - 1)
    } else {
        anchor(v, n - 1)
    }
}

/// The estimated tokens of the first `n` tools.
pub open spec fn tool_tokens(v: Seq<ToolInfo>, n: int) -> nat
    decreases n,
{
    if n <= 0 {
        0
    } else {
        tool_tokens(v, n - 1) + tokens_for(
            capped(byte_len(v[n - 1].description@) + byte_len(v[n - 1].parameters@)),
        )
    }
}

/// The estimated tokens of the next request: what was last reported and an
/// estimate of what came after it, or an estimate of everything, the system
/// prompt and the tools included.
pub open spec fn context_tokens(c: AgentContext) -> nat {
    match anchor(c.messages@, c.messages@.len() as int) {
        Some(i) => capped(
            anchored_tokens(c.messages@[i]).unwrap() + tail_tokens(c.messages@, i + 1),
        ),
        None => capped(
            tail_tokens(c.messages@, 0) + tokens_for(capped(byte_len(c.system_prompt@)))
                + tool_tokens(c.tools@, c.tools@.len() as int),
        ),
    }
}

fn reported(m: &AgentMessage) -> (r: Option<u64>)
    ensures
        match r {
            Some(n) => anchored_tokens(*m) == Some(n as nat),
            None => anchored_tokens(*m) is None,
        },
{
    match m {
        AgentMessage::Llm(Message::Assistant(a)) => {
            if is_failure(a.stop_reason) {
                return None;
            }
            let total: u64 = if a.usage.total_tokens > 0 {
                a.usage.total_tokens
            } else {
                plus(
                    plus(plus(a.usage.input, a.usage.output), a.usage.cache_read),
                    a.usage.cache_write,
                )
            };
            if total > 0 {
                Some(total)
            } else {
                None
            }
        },
        _ => None,
    }
}

/// Estimates the tokens of the next request.
pub fn estimate_context_tokens(context: &AgentContext) -> (r: u64)
    ensures
        r as nat == context_tokens(*context),
{
    let v = &context.messages;
    let mut n: usize = v.len();
    while n > 0
        invariant
            n <= v@.len(),
            v@ == context.messages@,
            anchor(v@, v@.len() as int) == anchor(v@, n as int),
        decreases n,
    {
        if let Some(total) = reported(&v[n - 1]) {
            return plus(total, sum_tail(v, n));
        }
        n -= 1;
    }
    let mut tokens: u64 = sum_tail(v, 0);
    let prompt: u64 = to_tokens(count_bytes(context.system_prompt.as_str()));
    tokens = plus(tokens, prompt);
    let mut k: usize = 0;
    while k < context.tools.len()
        invariant
            k <= context.tools@.len(),
            v@ == context.messages@,
            anchor(v@, v@.len() as int) is None,
            prompt as nat == tokens_for(capped(byte_len(context.system_prompt@))),
            tokens as nat == capped(
                tail_tokens(v@, 0) + prompt as nat + tool_tokens(context.tools@, k as int),
            ),
        decreases context.tools@.len() - k,
    {
        let tool = &context.tools[k];
        let bytes: u64 = plus(
            count_bytes(tool.description.as_str()),
            count_bytes(tool.parameters.as_str()),
        );
        tokens = plus(tokens, to_tokens(bytes));
        k += 1;
    }
    tokens
}

/// Whether a context of that size is due for compaction.
pub open spec fn is_due(tokens: nat, window: nat, config: CompactionConfig) -> bool {
    config.enabled && window > 0 && tokens + config.reserve_tokens > window && tokens > 0
}

/// Whether the context is due for compaction before the next request: it is
/// larger than the window less the reserve.
pub fn should_compact(context_tokens: u64, context_window: u64, config: &CompactionConfig) -> (r: bool)
    ensures
        r == is_due(context_tokens as nat, context_window as nat, *config),
{
    if !config.enabled || context_window == 0 {
        return false;
    }
    let limit: u64 = if context_window > config.reserve_tokens {
        context_window - config.reserve_tokens
    } else {
        0
    };
    context_tokens > limit
}

/// A context that is due stays due when it grows.
pub proof fn law_growth_keeps_compaction_due(a: nat, b: nat, window: nat, config: CompactionConfig)
    requires
        a <= b,
        is_due(a, window, config),
    ensures
        is_due(b, window, config),
{
}

// ---------------------------------------------------------------------------
// Where to cut
// ---------------------------------------------------------------------------

/// Whether a message starts a turn.
pub open spec fn starts_turn(m: AgentMessage) -> bool {
    match m {
        AgentMessage::Llm(Message::User(_)) => true,
        AgentMessage::Custom(_) => true,
        _ => false,
    }
}

/// Where the budget of recent messages starts: from the end back, until the
/// budget is spent. `spent` is what the messages from `n` on take.
pub open spec fn budget_start(v: Seq<AgentMessage>, n: int, spent: nat, keep: nat) -> int
    decreases n,
{
    if n <= 0 {
        0
    } else {
        let now = capped(spent + message_tokens(v[n - 1]));
        if now >= keep {
            n - 1
        } else {
            budget_start(v, n - 1, now, keep)
        }
    }
}

/// The first message from `from` on that starts a turn.
pub open spec fn next_turn(v: Seq<AgentMessage>, from: int) -> Option<int>
    decreases v.len() - from,
{
    if from >= v.len() {
        None
    } else if starts_turn(v[from]) {
        Some(from)
    } else {
        next_turn(v, from + 1)
    }
}

/// The first message to keep: the first one within the budget that starts a
/// turn, or the first one within the budget.
pub open spec fn cut_index(v: Seq<AgentMessage>, keep: nat) -> int {
    let start = budget_start(v, v.len() as int, 0, keep);
    match next_turn(v, start) {
        Some(i) => i,
        None => start,
    }
}

/// Finds the first message to keep.
pub fn find_cut_index(v: &Vec<AgentMessage>, keep_recent_tokens: u64) -> (r: usize)
    ensures
        r == cut_index(v@, keep_recent_tokens as nat),
        r <= v@.len(),
{
    let mut spent: u64 = 0;
    let mut start: usize = v.len();
    let mut go = true;
    while go && start > 0
        invariant
            start <= v@.len(),
            go ==> budget_start(v@, v@.len() as int, 0, keep_recent_tokens as nat) == budget_start(
                v@,
                start as int,
                spent as nat,
                keep_recent_tokens as nat,
            ),
            !go ==> budget_start(v@, v@.len() as int, 0, keep_recent_tokens as nat)
                == start as int,
        decreases (if go {
            1int
        } else {
            0int
        }), start,
    {
        spent = plus(spent, estimate_message_tokens(&v[start - 1]));
        start -= 1;
        if spent >= keep_recent_tokens {
            go = false;
        }
    }
    let mut i: usize = start;
    while i < v.len()
        invariant
            start <= i <= v@.len(),
            budget_start(v@, v@.len() as int, 0, keep_recent_tokens as nat) == start as int,
            next_turn(v@, start as int) == next_turn(v@, i as int),
        decreases v@.len() - i,
    {
        let boundary = match &v[i] {
            AgentMessage::Llm(Message::User(_)) => true,
            AgentMessage::Custom(_) => true,
            _ => false,
        };
        if boundary {
            return i;
        }
        i += 1;
    }
    start
}

/// The cut falls on a message that starts a turn wherever the budget holds
/// one, so that no tool call is parted from its result.
pub proof fn law_the_cut_starts_a_turn(v: Seq<AgentMessage>, keep: nat)
    ensures
        ({
            let start = budget_start(v, v.len() as int, 0, keep);
            let cut = cut_index(v, keep);
            0 <= start <= cut <= v.len() && ((exists|i: int|
                start <= i < v.len() && starts_turn(#[trigger] v[i])) ==> cut < v.len()
                && starts_turn(v[cut]))
        }),
{
    lemma_budget_start(v, v.len() as int, 0, keep);
    lemma_next_turn(v, budget_start(v, v.len() as int, 0, keep));
}

proof fn lemma_budget_start(v: Seq<AgentMessage>, n: int, spent: nat, keep: nat)
    requires
        0 <= n <= v.len(),
    ensures
        0 <= budget_start(v, n, spent, keep) <= n,
    decreases n,
{
    if n > 0 {
        let now = capped(spent + message_tokens(v[n - 1]));
        if now < keep {
            lemma_budget_start(v, n - 1, now, keep);
        }
    }
}

proof fn lemma_next_turn(v: Seq<AgentMessage>, from: int)
    requires
        0 <= from,
    ensures
        match next_turn(v, from) {
            Some(i) => from <= i < v.len() && starts_turn(v[i]),
            None => forall|i: int| from <= i < v.len() ==> !starts_turn(#[trigger] v[i]),
        },
    decreases v.len() - from,
{
    if from < v.len() && !starts_turn(v[from]) {
        lemma_next_turn(v, from + 1);
    }
}

/// A history that fits the budget is kept whole.
pub proof fn law_small_histories_are_kept(v: Seq<AgentMessage>, keep: nat)
    requires
        tail_tokens(v, 0) < keep,
        keep <= u64::MAX,
        v.len() > 0 ==> starts_turn(v[0]),
    ensures
        cut_index(v, keep) == 0,
{
    lemma_budget_unspent(v, v.len() as int, keep);
}

proof fn lemma_budget_unspent(v: Seq<AgentMessage>, n: int, keep: nat)
    requires
        0 <= n <= v.len(),
        tail_tokens(v, 0) < keep,
        keep <= u64::MAX,
    ensures
        budget_start(v, n, tail_tokens(v, n), keep) == 0,
        tail_tokens(v, n) <= tail_tokens(v, 0),
    decreases n,
{
    lemma_tail_shrinks(v, n);
    if n > 0 {
        lemma_tail_shrinks(v, n - 1);
        lemma_budget_unspent(v, n - 1, keep);
    }
}

proof fn lemma_tail_shrinks(v: Seq<AgentMessage>, n: int)
    requires
        0 <= n <= v.len(),
    ensures
        tail_tokens(v, n) <= tail_tokens(v, 0),
    decreases n,
{
    if n > 0 {
        lemma_tail_shrinks(v, n - 1);
    }
}

// ---------------------------------------------------------------------------
// The request for a summary
// ---------------------------------------------------------------------------

/// The first `n` pieces of the user, one per line.
pub open spec fn user_lines(v: Seq<Content>, n: int) -> Seq<char>
    decreases n,
{
    if n <= 0 {
        Seq::empty()
    } else {
        user_lines(v, n - 1) + (match v[n - 1] {
            Content::Text(t) => t@,
            Content::Image(_) => "(image)"@,
        }) + "\n"@
    }
}

/// The first `n` pieces of the model, one per line. Reasoning is left out.
pub open spec fn assistant_lines(v: Seq<AssistantContent>, n: int) -> Seq<char>
    decreases n,
{
    if n <= 0 {
        Seq::empty()
    } else {
        assistant_lines(v, n - 1) + (match v[n - 1] {
            AssistantContent::Text(t) => t@ + "\n"@,
            AssistantContent::Thinking(_) => Seq::empty(),
            AssistantContent::ToolCall(c) => "[tool call: "@ + c.name@ + " "@ + c.arguments@
                + "]\n"@,
        })
    }
}

/// The text of a tool, cut short where it is long.
pub open spec fn short_result(s: Seq<char>) -> Seq<char> {
    if s.len() > SERIALIZED_TOOL_RESULT_CHARS {
        s.take(SERIALIZED_TOOL_RESULT_CHARS as int) + "\n[...truncated]"@
    } else {
        s
    }
}

/// The first `n` pieces of a tool, one per line. Images are left out.
pub open spec fn result_lines(v: Seq<Content>, n: int) -> Seq<char>
    decreases n,
{
    if n <= 0 {
        Seq::empty()
    } else {
        result_lines(v, n - 1) + (match v[n - 1] {
            Content::Text(t) => short_result(t@) + "\n"@,
            Content::Image(_) => Seq::empty(),
        })
    }
}

/// A message as readable text.
pub open spec fn message_text(m: AgentMessage) -> Seq<char> {
    (match m {
        AgentMessage::Llm(Message::User(u)) => "[User]\n"@ + (match u.content {
            UserBody::Text(t) => t@,
            UserBody::Blocks(b) => user_lines(b@, b@.len() as int),
        }),
        AgentMessage::Llm(Message::Assistant(a)) => "[Assistant]\n"@ + assistant_lines(
            a.content@,
            a.content@.len() as int,
        ),
        AgentMessage::Llm(Message::ToolResult(r)) => "[Tool result: "@ + r.tool_name@ + "]\n"@
            + result_lines(r.content@, r.content@.len() as int),
        AgentMessage::Custom(c) => "["@ + c.kind@ + "]\n"@ + c.payload@ + "\n"@,
    }) + "\n"@
}

/// The first `n` messages as readable text.
pub open spec fn conversation_text(v: Seq<AgentMessage>, n: int) -> Seq<char>
    decreases n,
{
    if n <= 0 {
        Seq::empty()
    } else {
        conversation_text(v, n - 1) + message_text(v[n - 1])
    }
}

fn push_user_lines(out: &mut String, v: &Vec<Content>)
    ensures
        final(out)@ == old(out)@ + user_lines(v@, v@.len() as int),
{
    let ghost before = out@;
    let mut i: usize = 0;
    assert(out@ =~= before + user_lines(v@, 0));
    while i < v.len()
        invariant
            i <= v@.len(),
            out@ == before + user_lines(v@, i as int),
        decreases v@.len() - i,
    {
        match &v[i] {
            Content::Text(t) => out.push_str(t.as_str()),
            Content::Image(_) => out.push_str("(image)"),
        }
        out.push_str("\n");
        assert(out@ =~= before + user_lines(v@, i + 1));
        i += 1;
    }
}

fn push_assistant_lines(out: &mut String, v: &Vec<AssistantContent>)
    ensures
        final(out)@ == old(out)@ + assistant_lines(v@, v@.len() as int),
{
    let ghost before = out@;
    let mut i: usize = 0;
    assert(out@ =~= before + assistant_lines(v@, 0));
    while i < v.len()
        invariant
            i <= v@.len(),
            out@ == before + assistant_lines(v@, i as int),
        decreases v@.len() - i,
    {
        match &v[i] {
            AssistantContent::Text(t) => {
                out.push_str(t.as_str());
                out.push_str("\n");
            },
            AssistantContent::Thinking(_) => {},
            AssistantContent::ToolCall(c) => {
                out.push_str("[tool call: ");
                out.push_str(c.name.as_str());
                out.push_str(" ");
                out.push_str(c.arguments.as_str());
                out.push_str("]\n");
            },
        }
        assert(out@ =~= before + assistant_lines(v@, i + 1));
        i += 1;
    }
}

fn push_short_result(out: &mut String, s: &str)
    ensures
        final(out)@ == old(out)@ + short_result(s@),
{
    let chars = chars_of(s);
    if chars.len() > SERIALIZED_TOOL_RESULT_CHARS {
        let ghost before = out@;
        push_range(out, &chars, 0, SERIALIZED_TOOL_RESULT_CHARS);
        out.push_str("\n[...truncated]");
        assert(chars@.subrange(0, SERIALIZED_TOOL_RESULT_CHARS as int) =~= s@.take(
            SERIALIZED_TOOL_RESULT_CHARS as int,
        ));
        assert(out@ =~= before + short_result(s@));
    } else {
        out.push_str(s);
    }
}

fn push_result_lines(out: &mut String, v: &Vec<Content>)
    ensures
        final(out)@ == old(out)@ + result_lines(v@, v@.len() as int),
{
    let ghost before = out@;
    let mut i: usize = 0;
    assert(out@ =~= before + result_lines(v@, 0));
    while i < v.len()
        invariant
            i <= v@.len(),
            out@ == before + result_lines(v@, i as int),
        decreases v@.len() - i,
    {
        if let Content::Text(t) = &v[i] {
            push_short_result(out, t.as_str());
            out.push_str("\n");
        }
        assert(out@ =~= before + result_lines(v@, i + 1));
        i += 1;
    }
}

fn push_message(out: &mut String, m: &AgentMessage)
    ensures
        final(out)@ == old(out)@ + message_text(*m),
{
    let ghost before = out@;
    match m {
        AgentMessage::Llm(Message::User(u)) => {
            out.push_str("[User]\n");
            match &u.content {
                UserBody::Text(t) => out.push_str(t.as_str()),
                UserBody::Blocks(b) => push_user_lines(out, b),
            }
        },
        AgentMessage::Llm(Message::Assistant(a)) => {
            out.push_str("[Assistant]\n");
            push_assistant_lines(out, &a.content);
        },
        AgentMessage::Llm(Message::ToolResult(r)) => {
            out.push_str("[Tool result: ");
            out.push_str(r.tool_name.as_str());
            out.push_str("]\n");
            push_result_lines(out, &r.content);
        },
        AgentMessage::Custom(c) => {
            out.push_str("[");
            out.push_str(c.kind.as_str());
            out.push_str("]\n");
            out.push_str(c.payload.as_str());
            out.push_str("\n");
        },
    }
    out.push_str("\n");
    assert(out@ =~= before + message_text(*m));
}

/// Writes the first `n` messages as readable text.
pub fn serialize_conversation(v: &Vec<AgentMessage>, n: usize) -> (r: String)
    requires
        n <= v@.len(),
    ensures
        r@ == conversation_text(v@, n as int),
{
    let mut out = String::new();
    let mut i: usize = 0;
    while i < n
        invariant
            i <= n <= v@.len(),
            out@ == conversation_text(v@, i as int),
        decreases n - i,
    {
        push_message(&mut out, &v[i]);
        i += 1;
    }
    out
}

/// The summary that a message holds.
pub open spec fn summary_in(m: AgentMessage) -> Option<Seq<char>> {
    match m {
        AgentMessage::Llm(Message::User(u)) => match u.content {
            UserBody::Text(t) => if text::has_prefix(t@, COMPACTION_MARKER@) {
                Some(text::trim(t@.skip(COMPACTION_MARKER@.len() as int)))
            } else {
                None
            },
            UserBody::Blocks(_) => None,
        },
        _ => None,
    }
}

/// The first summary among the messages from `from` up to `n`.
pub open spec fn previous_summary(v: Seq<AgentMessage>, from: int, n: int) -> Option<Seq<char>>
    decreases n - from,
{
    if from >= n {
        None
    } else if summary_in(v[from]) is Some {
        summary_in(v[from])
    } else {
        previous_summary(v, from + 1, n)
    }
}

fn read_summary(m: &AgentMessage) -> (r: Option<String>)
    ensures
        match r {
            Some(s) => summary_in(*m) == Some(s@),
            None => summary_in(*m) is None,
        },
{
    match m {
        AgentMessage::Llm(Message::User(u)) => match &u.content {
            UserBody::Text(t) => {
                let chars = chars_of(t.as_str());
                if starts_with(&chars, COMPACTION_MARKER) {
                    let marker = chars_of(COMPACTION_MARKER);
                    let rest = text::slice(&chars, marker.len(), chars.len());
                    assert(rest@ =~= t@.skip(COMPACTION_MARKER@.len() as int));
                    let inner = trimmed(&rest);
                    Some(string_of(&inner, 0, inner.len()))
                } else {
                    None
                }
            },
            UserBody::Blocks(_) => None,
        },
        _ => None,
    }
}

/// The prompt that asks for a summary of the first `n` messages.
pub open spec fn summary_prompt(v: Seq<AgentMessage>, n: int) -> Seq<char> {
    let head = "<conversation>\n"@ + conversation_text(v, n) + "\n</conversation>\n\n"@;
    match previous_summary(v, 0, n) {
        Some(s) => head + "<previous-summary>\n"@ + s + "\n</previous-summary>\n\n"@
            + UPDATE_SUMMARIZATION_PROMPT@,
        None => head + SUMMARIZATION_PROMPT@,
    }
}

/// How long a summary may be: four fifths of the reserve, and no more than
/// the model can say.
pub open spec fn summary_limit(reserve: nat, model_max: nat) -> nat {
    let most = if model_max > 1 {
        model_max
    } else {
        1
    };
    if reserve * 8 / 10 < most {
        reserve * 8 / 10
    } else {
        most
    }
}

/// Why a compaction failed. The run goes on: the next request may still
/// fit.
#[derive(Debug)]
pub enum CompactionError {
    NothingToCompact,
    SummarizationFailed(String),
}

impl CompactionError {
    /// The error in words.
    pub fn message(&self) -> (r: String)
        ensures
            r@ == error_text(*self),
    {
        match self {
            CompactionError::NothingToCompact => "nothing to compact".to_owned(),
            CompactionError::SummarizationFailed(s) => text::concat2(
                "summarization failed: ",
                s.as_str(),
            ),
        }
    }
}

/// A compaction error in words.
pub open spec fn error_text(e: CompactionError) -> Seq<char> {
    match e {
        CompactionError::NothingToCompact => "nothing to compact"@,
        CompactionError::SummarizationFailed(s) => "summarization failed: "@ + s@,
    }
}

/// What a compaction did.
#[derive(Debug, Clone, Copy, PartialEq, Eq, Structural)]
pub struct CompactionOutcome {
    pub tokens_before: u64,
    pub tokens_after: u64,
    pub summarized_messages: usize,
}

/// A compaction that waits for its summary: what to ask for, and how long
/// the answer may be.
#[derive(Debug)]
pub struct CompactionPlan {
    pub tokens_before: u64,
    pub cut: usize,
    pub prompt: String,
    pub max_tokens: u64,
}

/// Whether a plan is the one for a context.
pub open spec fn is_plan(
    p: CompactionPlan,
    c: AgentContext,
    config: CompactionConfig,
    model_max: nat,
) -> bool {
    p.tokens_before as nat == context_tokens(c) && p.cut == cut_index(
        c.messages@,
        config.keep_recent_tokens as nat,
    ) && 0 < p.cut <= c.messages@.len() && p.prompt@ == summary_prompt(
        c.messages@,
        p.cut as int,
    ) && p.max_tokens as nat == summary_limit(config.reserve_tokens as nat, model_max)
}

/// Plans a compaction: everything before the cut is summarized. There is
/// nothing to do where the cut is at the start.
pub fn plan_compaction(context: &AgentContext, config: &CompactionConfig, model_max_tokens: u64) -> (r:
    Result<CompactionPlan, CompactionError>)
    ensures
        match r {
            Ok(p) => is_plan(p, *context, *config, model_max_tokens as nat),
            Err(e) => e is NothingToCompact && cut_index(
                context.messages@,
                config.keep_recent_tokens as nat,
            ) == 0,
        },
{
    let tokens_before: u64 = estimate_context_tokens(context);
    let cut: usize = find_cut_index(&context.messages, config.keep_recent_tokens);
    if cut == 0 {
        return Err(CompactionError::NothingToCompact);
    }
    let v = &context.messages;
    let mut prompt = "<conversation>\n".to_owned();
    let conversation = serialize_conversation(v, cut);
    prompt.push_str(conversation.as_str());
    prompt.push_str("\n</conversation>\n\n");
    let mut previous: Option<String> = None;
    let mut i: usize = 0;
    while i < cut && previous.is_none()
        invariant
            i <= cut <= v@.len(),
            v@ == context.messages@,
            match previous {
                Some(s) => previous_summary(v@, 0, cut as int) == Some(s@),
                None => previous_summary(v@, 0, cut as int) == previous_summary(
                    v@,
                    i as int,
                    cut as int,
                ),
            },
        decreases cut - i,
    {
        previous = read_summary(&v[i]);
        i += 1;
    }
    match &previous {
        Some(s) => {
            prompt.push_str("<previous-summary>\n");
            prompt.push_str(s.as_str());
            prompt.push_str("\n</previous-summary>\n\n");
            prompt.push_str(UPDATE_SUMMARIZATION_PROMPT);
        },
        None => prompt.push_str(SUMMARIZATION_PROMPT),
    }
    assert(prompt@ =~= summary_prompt(v@, cut as int));
    let share: u128 = config.reserve_tokens as u128 * 8 / 10;
    let most: u64 = if model_max_tokens > 1 {
        model_max_tokens
    } else {
        1
    };
    let max_tokens: u64 = if share < most as u128 {
        share as u64
    } else {
        most
    };
    Ok(CompactionPlan { tokens_before, cut, prompt, max_tokens })
}

/// The text of a summary message.
pub open spec fn summary_message(s: Seq<char>) -> Seq<char> {
    COMPACTION_MARKER@ + "\n\n"@ + s
}

/// Whether a reply holds a summary: it came back, with text that is not
/// blank.
pub open spec fn summary_of(reply: Result<Vec<AssistantContent>, String>) -> Option<Seq<char>> {
    match reply {
        Ok(content) => if text::is_blank(messages::spoken_text(content@)) {
            None
        } else {
            Some(messages::spoken_text(content@))
        },
        Err(_) => None,
    }
}

/// Finishes a compaction with the reply to its request: the summary takes
/// the place of everything before the cut. Without a summary the context
/// stays as it is.
pub fn compact(
    context: &mut AgentContext,
    plan: &CompactionPlan,
    reply: Result<Vec<AssistantContent>, String>,
    now: u64,
) -> (r: Result<CompactionOutcome, CompactionError>)
    requires
        plan.cut <= old(context).messages@.len(),
    ensures
        final(context).system_prompt == old(context).system_prompt,
        final(context).tools == old(context).tools,
        match (r, summary_of(reply)) {
            (Ok(outcome), Some(s)) => final(context).messages@.len() == old(
                context,
            ).messages@.len() - plan.cut + 1 && messages::is_user_text(
                final(context).messages@[0],
                summary_message(s),
                now,
            ) && final(context).messages@.skip(1) == old(context).messages@.skip(plan.cut as int)
                && outcome.tokens_before == plan.tokens_before && outcome.tokens_after as nat
                == context_tokens(*final(context)) && outcome.summarized_messages == plan.cut,
            (Err(e), None) => *final(context) == *old(context) && error_text(e) == (match reply {
                Ok(_) => "summarization failed: "@ + "summarization produced no text"@,
                Err(s) => "summarization failed: "@ + s@,
            }),
            _ => false,
        },
{
    let content = match reply {
        Ok(content) => content,
        Err(e) => return Err(CompactionError::SummarizationFailed(e)),
    };
    let summary = text_said(&content);
    if text::blank(summary.as_str()) {
        return Err(
            CompactionError::SummarizationFailed("summarization produced no text".to_owned()),
        );
    }
    let mut marked = COMPACTION_MARKER.to_owned();
    marked.push_str("\n\n");
    marked.push_str(summary.as_str());
    let ghost before = context.messages@;
    let n: usize = context.messages.len();
    let mut kept = share_range(&context.messages, plan.cut, n);
    let mut list: Vec<AgentMessage> = Vec::new();
    list.push(AgentMessage::user_text(marked, now));
    let ghost first = list@[0];
    list.append(&mut kept);
    assert(list@ =~= seq![first] + before.subrange(plan.cut as int, n as int));
    assert(list@.skip(1) =~= before.skip(plan.cut as int));
    context.messages = list;
    let tokens_after: u64 = estimate_context_tokens(context);
    Ok(
        CompactionOutcome {
            tokens_before: plan.tokens_before,
            tokens_after,
            summarized_messages: plan.cut,
        },
    )
}

/// A compaction loses no summary: the message it leaves behind is found
/// again, word for word but for the space around it.
pub proof fn law_summaries_are_found_again(m: AgentMessage, s: Seq<char>, now: u64)
    requires
        messages::is_user_text(m, summary_message(s), now),
    ensures
        summary_in(m) == Some(text::trim(s)),
{
    let whole = summary_message(s);
    let marker = COMPACTION_MARKER@;
    assert(whole =~= marker + ("\n\n"@ + s));
    assert(whole.take(marker.len() as int) =~= marker);
    assert(whole.skip(marker.len() as int) =~= "\n\n"@ + s);
    reveal_strlit("\n\n");
    assert("\n\n"@ =~= seq!['\n', '\n']);
    lemma_trim_after_line_end(seq!['\n'] + s);
    lemma_trim_after_line_end(s);
    assert(seq!['\n'] + (seq!['\n'] + s) =~= "\n\n"@ + s);
}

proof fn lemma_trim_after_line_end(s: Seq<char>)
    ensures
        text::trim(seq!['\n'] + s) == text::trim(s),
{
    let t = seq!['\n'] + s;
    assert(t.skip(1) =~= s);
    assert(text::leading_space(t) == text::leading_space(s) + 1);
    text::lemma_leading_space(s);
    assert(text::trim_start(t) =~= text::trim_start(s));
}

// ---------------------------------------------------------------------------
// Laws
// ---------------------------------------------------------------------------

proof fn lemma_encoding_grows(s: Seq<char>)
    requires
        s.len() > 0,
    ensures
        vstd::utf8::encode_utf8(s).len() == vstd::utf8::encode_utf8(s.drop_last()).len()
            + vstd::utf8::encode_scalar(s.last() as u32).len(),
    decreases s.len(),
{
    let head = s.drop_last();
    if s.len() == 1 {
        assert(head =~= Seq::empty());
        assert(s.drop_first() =~= Seq::empty());
    } else {
        lemma_encoding_grows(s.drop_first());
        assert(s.drop_first().drop_last() =~= head.drop_first());
        assert(head[0] == s[0]);
        assert(s.drop_first().last() == s.last());
    }
}

proof fn lemma_width(c: char)
    ensures
        char_bytes(c) == vstd::utf8::encode_scalar(c as u32).len(),
{
    assert(c as int == c as u32 as int);
}

/// The bytes of a text are those of its UTF-8 encoding.
pub proof fn law_bytes_are_those_of_the_encoding(s: Seq<char>)
    ensures
        byte_len(s) == vstd::utf8::encode_utf8(s).len(),
    decreases s.len(),
{
    if s.len() > 0 {
        law_bytes_are_those_of_the_encoding(s.drop_last());
        lemma_encoding_grows(s);
        lemma_width(s.last());
    }
}

/// Four bytes make a token, and a part of four counts as one: no tokens for
/// no bytes, and never more than needed.
pub proof fn law_four_bytes_make_a_token(bytes: nat)
    ensures
        bytes <= 4 * tokens_for(bytes) < bytes + 4,
{
}

/// A message of text is estimated by the bytes of the text.
pub proof fn law_text_is_estimated_by_its_bytes(m: AgentMessage, s: Seq<char>, now: u64)
    requires
        messages::is_user_text(m, s, now),
        vstd::utf8::encode_utf8(s).len() <= u64::MAX,
    ensures
        vstd::utf8::encode_utf8(s).len() <= 4 * message_tokens(m) < vstd::utf8::encode_utf8(s).len()
            + 4,
{
    law_bytes_are_those_of_the_encoding(s);
    law_four_bytes_make_a_token(byte_len(s));
}

proof fn lemma_content_prefix(v: Seq<Content>, w: Seq<Content>, n: int)
    requires
        0 <= n <= v.len(),
        n <= w.len(),
        v.take(n) == w.take(n),
    ensures
        content_bytes(v, n) == content_bytes(w, n),
    decreases n,
{
    if n > 0 {
        assert(v.take(n - 1) =~= v.take(n).drop_last());
        assert(w.take(n - 1) =~= w.take(n).drop_last());
        lemma_content_prefix(v, w, n - 1);
        assert(v.take(n)[n - 1] == v[n - 1]);
        assert(w.take(n)[n - 1] == w[n - 1]);
    }
}

/// One more piece adds its own bytes to a message: a text those of its
/// encoding, an image as many as 4800.
pub proof fn law_every_piece_is_estimated(v: Seq<Content>, p: Content)
    ensures
        content_bytes(v.push(p), v.len() as int + 1) == content_bytes(v, v.len() as int) + (match p {
            Content::Text(t) => vstd::utf8::encode_utf8(t@).len(),
            Content::Image(_) => 4800,
        }),
        content_bytes(Seq::empty(), 0) == 0,
{
    assert(v.push(p).take(v.len() as int) =~= v.take(v.len() as int));
    lemma_content_prefix(v.push(p), v, v.len() as int);
    if let Content::Text(t) = p {
        law_bytes_are_those_of_the_encoding(t@);
    }
}

proof fn lemma_spoken_prefix(v: Seq<AssistantContent>, w: Seq<AssistantContent>, n: int)
    requires
        0 <= n <= v.len(),
        n <= w.len(),
        v.take(n) == w.take(n),
    ensures
        spoken_bytes(v, n) == spoken_bytes(w, n),
    decreases n,
{
    if n > 0 {
        assert(v.take(n - 1) =~= v.take(n).drop_last());
        assert(w.take(n - 1) =~= w.take(n).drop_last());
        lemma_spoken_prefix(v, w, n - 1);
        assert(v.take(n)[n - 1] == v[n - 1]);
        assert(w.take(n)[n - 1] == w[n - 1]);
    }
}

/// One more piece of what the model says adds its own bytes: those of a
/// text, of reasoning, of the name and the arguments of a call.
pub proof fn law_every_spoken_piece_is_estimated(v: Seq<AssistantContent>, p: AssistantContent)
    ensures
        spoken_bytes(v.push(p), v.len() as int + 1) == spoken_bytes(v, v.len() as int) + (match p {
            AssistantContent::Text(t) => vstd::utf8::encode_utf8(t@).len(),
            AssistantContent::Thinking(t) => vstd::utf8::encode_utf8(t@).len(),
            AssistantContent::ToolCall(c) => vstd::utf8::encode_utf8(c.name@).len()
                + vstd::utf8::encode_utf8(c.arguments@).len(),
        }),
        spoken_bytes(Seq::empty(), 0) == 0,
{
    assert(v.push(p).take(v.len() as int) =~= v.take(v.len() as int));
    lemma_spoken_prefix(v.push(p), v, v.len() as int);
    match p {
        AssistantContent::Text(t) => law_bytes_are_those_of_the_encoding(t@),
        AssistantContent::Thinking(t) => law_bytes_are_those_of_the_encoding(t@),
        AssistantContent::ToolCall(c) => {
            law_bytes_are_those_of_the_encoding(c.name@);
            law_bytes_are_those_of_the_encoding(c.arguments@);
        },
    }
}

/// A message is estimated by the bytes of all its pieces.
pub proof fn law_messages_are_estimated_by_their_pieces(m: AgentMessage)
    ensures
        ({
            let bytes: nat = match m {
                AgentMessage::Llm(Message::User(u)) => match u.content {
                    UserBody::Text(t) => vstd::utf8::encode_utf8(t@).len(),
                    UserBody::Blocks(b) => content_bytes(b@, b@.len() as int),
                },
                AgentMessage::Llm(Message::Assistant(a)) => spoken_bytes(
                    a.content@,
                    a.content@.len() as int,
                ),
                AgentMessage::Llm(Message::ToolResult(r)) => content_bytes(
                    r.content@,
                    r.content@.len() as int,
                ),
                AgentMessage::Custom(c) => vstd::utf8::encode_utf8(c.payload@).len(),
            };
            bytes <= u64::MAX ==> bytes <= 4 * message_tokens(m) < bytes + 4
        }),
{
    match m {
        AgentMessage::Llm(Message::User(u)) => match u.content {
            UserBody::Text(t) => law_bytes_are_those_of_the_encoding(t@),
            UserBody::Blocks(_) => {},
        },
        AgentMessage::Custom(c) => law_bytes_are_those_of_the_encoding(c.payload@),
        _ => {},
    }
}

/// Whether a message reports the size of the context: a response that did
/// not fail and says what it used.
pub open spec fn reports_usage(m: AgentMessage) -> bool {
    m matches AgentMessage::Llm(Message::Assistant(a)) && a.stop_reason
        != messages::StopReason::Error && a.stop_reason != messages::StopReason::Aborted && (
    a.usage.total_tokens > 0 || a.usage.input > 0 || a.usage.output > 0 || a.usage.cache_read > 0
        || a.usage.cache_write > 0)
}

proof fn lemma_anchor_prefix(v: Seq<AgentMessage>, m: AgentMessage, n: int)
    requires
        0 <= n <= v.len(),
    ensures
        anchor(v.push(m), n) == anchor(v, n),
        anchor(v, n) matches Some(i) ==> 0 <= i < n,
    decreases n,
{
    if n > 0 {
        lemma_anchor_prefix(v, m, n - 1);
        assert(v.push(m)[n - 1] == v[n - 1]);
    }
}

proof fn lemma_tail_push(v: Seq<AgentMessage>, m: AgentMessage, from: int)
    requires
        0 <= from <= v.len(),
    ensures
        tail_tokens(v.push(m), from) == tail_tokens(v, from) + message_tokens(m),
    decreases v.len() - from,
{
    if from < v.len() {
        lemma_tail_push(v, m, from + 1);
        assert(v.push(m)[from] == v[from]);
    } else {
        assert(tail_tokens(v.push(m), from + 1) == 0);
        assert(v.push(m)[from] == m);
    }
}

/// A message that reports nothing raises the estimate of the context by its
/// own, whatever was reported before it.
pub proof fn law_what_follows_a_report_is_estimated(
    before: AgentContext,
    after: AgentContext,
    m: AgentMessage,
)
    requires
        after.messages@ == before.messages@.push(m),
        after.system_prompt@ == before.system_prompt@,
        after.tools@ == before.tools@,
        !reports_usage(m),
    ensures
        ({
            let sum = context_tokens(before) + message_tokens(m);
            context_tokens(after) == if sum <= u64::MAX {
                sum
            } else {
                u64::MAX as nat
            }
        }),
{
    let v = before.messages@;
    let n = v.len() as int;
    lemma_anchor_prefix(v, m, n);
    assert(v.push(m)[n] == m);
    assert(anchored_tokens(m) is None);
    assert(anchor(after.messages@, n + 1) == anchor(v, n));
    match anchor(v, n) {
        Some(i) => {
            lemma_tail_push(v, m, i + 1);
            assert(v.push(m)[i] == v[i]);
        },
        None => lemma_tail_push(v, m, 0),
    }
}

/// A response that reports what it used sets the estimate to that, whatever
/// was estimated before: its total, or the sum of its parts where there is
/// no total.
pub proof fn law_a_report_replaces_every_estimate(c: AgentContext)
    requires
        c.messages@.len() > 0,
        reports_usage(c.messages@.last()),
    ensures
        c.messages@.last() matches AgentMessage::Llm(Message::Assistant(a)) && ({
            let parts = a.usage.input + a.usage.output + a.usage.cache_read + a.usage.cache_write;
            &&& a.usage.total_tokens > 0 ==> context_tokens(c) == a.usage.total_tokens
            &&& a.usage.total_tokens == 0 && parts <= u64::MAX ==> context_tokens(c) == parts
        }),
{
    let n = c.messages@.len() as int;
    assert(anchor(c.messages@, n) == Some(n - 1));
    assert(tail_tokens(c.messages@, n) == 0);
}

proof fn lemma_tools_prefix(v: Seq<ToolInfo>, t: ToolInfo, n: int)
    requires
        0 <= n <= v.len(),
    ensures
        tool_tokens(v.push(t), n) == tool_tokens(v, n),
    decreases n,
{
    if n > 0 {
        lemma_tools_prefix(v, t, n - 1);
        assert(v.push(t)[n - 1] == v[n - 1]);
    }
}

/// Before anything is said, the estimate is that of the system prompt and
/// the tools: one more tool adds what its description and its parameters
/// take.
pub proof fn law_prompt_and_tools_are_estimated(
    before: AgentContext,
    after: AgentContext,
    tool: ToolInfo,
)
    requires
        before.messages@.len() == 0,
        after.messages@.len() == 0,
        after.system_prompt@ == before.system_prompt@,
        after.tools@ == before.tools@.push(tool),
        context_tokens(after) < u64::MAX,
        vstd::utf8::encode_utf8(tool.description@).len() + vstd::utf8::encode_utf8(
            tool.parameters@,
        ).len() <= u64::MAX,
        vstd::utf8::encode_utf8(before.system_prompt@).len() <= u64::MAX,
    ensures
        ({
            let bytes = vstd::utf8::encode_utf8(tool.description@).len() + vstd::utf8::encode_utf8(
                tool.parameters@,
            ).len();
            bytes <= 4 * (context_tokens(after) - context_tokens(before)) < bytes + 4
        }),
        before.tools@.len() == 0 ==> ({
            let bytes = vstd::utf8::encode_utf8(before.system_prompt@).len();
            bytes <= 4 * context_tokens(before) < bytes + 4
        }),
{
    let n = before.tools@.len() as int;
    lemma_tools_prefix(before.tools@, tool, n);
    assert(after.tools@[n] == tool);
    law_bytes_are_those_of_the_encoding(tool.description@);
    law_bytes_are_those_of_the_encoding(tool.parameters@);
    law_bytes_are_those_of_the_encoding(before.system_prompt@);
    assert(tail_tokens(before.messages@, 0) == 0);
    assert(tail_tokens(after.messages@, 0) == 0);
    assert(anchor(before.messages@, 0) is None);
    assert(anchor(after.messages@, 0) is None);
}

/// A context that leaves the reserve free is never compacted, and one that
/// does not is: the window less the reserve is the limit.
pub proof fn law_the_reserve_is_kept_free(tokens: nat, window: nat, config: CompactionConfig)
    requires
        window > 0,
    ensures
        config.enabled && config.reserve_tokens <= window ==> (is_due(tokens, window, config)
            <==> tokens > window - config.reserve_tokens),
        config.enabled && config.reserve_tokens > window ==> (is_due(tokens, window, config)
            <==> tokens > 0),
        !config.enabled ==> !is_due(tokens, window, config),
        !is_due(tokens, 0, config),
{
}

proof fn lemma_budget(v: Seq<AgentMessage>, n: int, keep: nat)
    requires
        0 <= n <= v.len(),
        tail_tokens(v, 0) <= u64::MAX,
        n < v.len() ==> tail_tokens(v, n) < keep,
    ensures
        ({
            let start = budget_start(v, n, tail_tokens(v, n), keep);
            &&& 0 <= start <= n
            &&& start > 0 ==> keep <= tail_tokens(v, start)
            &&& start + 1 < v.len() && start < n ==> tail_tokens(v, start + 1) < keep
        }),
    decreases n,
{
    if n > 0 {
        lemma_tail_shrinks(v, n - 1);
        let now = tail_tokens(v, n - 1);
        if now < keep {
            lemma_budget(v, n - 1, keep);
        }
    }
}

/// The recent messages that stay fill the budget, and one fewer would not:
/// they are as few as can be. A turn that starts within them is kept whole.
pub proof fn law_the_budget_is_filled(v: Seq<AgentMessage>, keep: nat)
    requires
        v.len() > 0,
        tail_tokens(v, 0) <= u64::MAX,
    ensures
        exists|start: int|
            {
                &&& 0 <= start <= cut_index(v, keep) <= v.len()
                &&& start > 0 ==> keep <= #[trigger] tail_tokens(v, start)
                &&& start + 1 < v.len() ==> tail_tokens(v, start + 1) < keep
                &&& forall|i: int|
                    start <= i < cut_index(v, keep) ==> (#[trigger] v[i]) is Llm && !(
                    v[i]->Llm_0 is User)
                &&& cut_index(v, keep) > start ==> cut_index(v, keep) < v.len() && (
                v[cut_index(v, keep)] is Custom || v[cut_index(v, keep)]->Llm_0 is User)
            },
{
    let start = budget_start(v, v.len() as int, 0, keep);
    lemma_budget(v, v.len() as int, keep);
    lemma_budget_start(v, v.len() as int, 0, keep);
    lemma_next_turn_first(v, start);
    assert(start < v.len());
    assert(start > 0 ==> keep <= tail_tokens(v, start));
}

proof fn lemma_next_turn_first(v: Seq<AgentMessage>, from: int)
    requires
        0 <= from,
    ensures
        match next_turn(v, from) {
            Some(i) => from <= i < v.len() && starts_turn(v[i]) && forall|j: int|
                from <= j < i ==> !starts_turn(#[trigger] v[j]),
            None => forall|j: int| from <= j < v.len() ==> !starts_turn(#[trigger] v[j]),
        },
    decreases v.len() - from,
{
    if from < v.len() && !starts_turn(v[from]) {
        lemma_next_turn_first(v, from + 1);
    }
}

proof fn lemma_message_stands(v: Seq<AgentMessage>, i: int, n: int)
    requires
        0 <= i < n <= v.len(),
    ensures
        stands_in(message_text(v[i]), conversation_text(v, n)),
    decreases n,
{
    let whole = conversation_text(v, n);
    if i == n - 1 {
        assert(whole =~= conversation_text(v, n - 1) + message_text(v[i]) + Seq::empty());
        lemma_stands(message_text(v[i]), whole, conversation_text(v, n - 1), Seq::empty());
    } else {
        lemma_message_stands(v, i, n - 1);
        lemma_stands_wider(
            message_text(v[i]),
            conversation_text(v, n - 1),
            Seq::empty(),
            message_text(v[n - 1]),
        );
        assert(whole =~= Seq::empty() + conversation_text(v, n - 1) + message_text(v[n - 1]));
    }
}

proof fn lemma_piece_stands(v: Seq<AssistantContent>, i: int, n: int)
    requires
        0 <= i < n <= v.len(),
    ensures
        v[i] matches AssistantContent::Text(t) ==> stands_in(t@, assistant_lines(v, n)),
        v[i] matches AssistantContent::ToolCall(c) ==> stands_in(c.name@, assistant_lines(v, n))
            && stands_in(c.arguments@, assistant_lines(v, n)),
    decreases n,
{
    let head = assistant_lines(v, n - 1);
    let whole = assistant_lines(v, n);
    if i == n - 1 {
        match v[i] {
            AssistantContent::Text(t) => {
                assert(whole =~= head + t@ + "\n"@);
                lemma_stands(t@, whole, head, "\n"@);
            },
            AssistantContent::ToolCall(c) => {
                let a = head + "[tool call: "@;
                assert(whole =~= a + c.name@ + (" "@ + c.arguments@ + "]\n"@));
                lemma_stands(c.name@, whole, a, " "@ + c.arguments@ + "]\n"@);
                let b = a + c.name@ + " "@;
                assert(whole =~= b + c.arguments@ + "]\n"@);
                lemma_stands(c.arguments@, whole, b, "]\n"@);
            },
            _ => {},
        }
    } else {
        lemma_piece_stands(v, i, n - 1);
        let more = whole.skip(head.len() as int);
        assert(whole =~= Seq::empty() + head + more);
        match v[i] {
            AssistantContent::Text(t) => lemma_stands_wider(t@, head, Seq::empty(), more),
            AssistantContent::ToolCall(c) => {
                lemma_stands_wider(c.name@, head, Seq::empty(), more);
                lemma_stands_wider(c.arguments@, head, Seq::empty(), more);
            },
            _ => {},
        }
    }
}

proof fn lemma_result_stands(v: Seq<Content>, i: int, n: int)
    requires
        0 <= i < n <= v.len(),
    ensures
        v[i] matches Content::Text(t) ==> stands_in(
            if t@.len() <= 2000 {
                t@
            } else {
                t@.take(2000)
            },
            result_lines(v, n),
        ),
    decreases n,
{
    let head = result_lines(v, n - 1);
    let whole = result_lines(v, n);
    if let Content::Text(t) = v[i] {
        let part = if t@.len() <= 2000 {
            t@
        } else {
            t@.take(2000)
        };
        if i == n - 1 {
            let rest = if t@.len() <= 2000 {
                "\n"@
            } else {
                "\n[...truncated]"@ + "\n"@
            };
            assert(whole =~= head + part + rest);
            lemma_stands(part, whole, head, rest);
        } else {
            lemma_result_stands(v, i, n - 1);
            let more = whole.skip(head.len() as int);
            assert(whole =~= Seq::empty() + head + more);
            lemma_stands_wider(part, head, Seq::empty(), more);
        }
    }
}

proof fn lemma_user_stands(v: Seq<Content>, i: int, n: int)
    requires
        0 <= i < n <= v.len(),
    ensures
        v[i] matches Content::Text(t) ==> stands_in(t@, user_lines(v, n)),
    decreases n,
{
    let head = user_lines(v, n - 1);
    let whole = user_lines(v, n);
    if let Content::Text(t) = v[i] {
        if i == n - 1 {
            assert(whole =~= head + t@ + "\n"@);
            lemma_stands(t@, whole, head, "\n"@);
        } else {
            lemma_user_stands(v, i, n - 1);
            let more = whole.skip(head.len() as int);
            assert(whole =~= Seq::empty() + head + more);
            lemma_stands_wider(t@, head, Seq::empty(), more);
        }
    }
}

/// Whether what a message says stands in a text: every text of the user, of
/// the model and of the program, every tool call with its arguments, and
/// every result up to 2000 characters.
pub open spec fn is_told_in(m: AgentMessage, whole: Seq<char>) -> bool {
    match m {
        AgentMessage::Llm(Message::User(u)) => match u.content {
            UserBody::Text(t) => stands_in(t@, whole),
            UserBody::Blocks(b) => forall|i: int|
                0 <= i < b@.len() && (#[trigger] b@[i]) is Text ==> stands_in(
                    b@[i]->Text_0@,
                    whole,
                ),
        },
        AgentMessage::Llm(Message::Assistant(a)) => forall|i: int|
            0 <= i < a.content@.len() ==> (match #[trigger] a.content@[i] {
                AssistantContent::Text(t) => stands_in(t@, whole),
                AssistantContent::Thinking(_) => true,
                AssistantContent::ToolCall(c) => stands_in(c.name@, whole) && stands_in(
                    c.arguments@,
                    whole,
                ),
            }),
        AgentMessage::Llm(Message::ToolResult(r)) => stands_in(r.tool_name@, whole) && forall|
            i: int,
        |
            0 <= i < r.content@.len() && (#[trigger] r.content@[i]) is Text ==> stands_in(
                if r.content@[i]->Text_0@.len() <= 2000 {
                    r.content@[i]->Text_0@
                } else {
                    r.content@[i]->Text_0@.take(2000)
                },
                whole,
            ),
        AgentMessage::Custom(c) => stands_in(c.kind@, whole) && stands_in(c.payload@, whole),
    }
}

proof fn lemma_told(m: AgentMessage)
    ensures
        is_told_in(m, message_text(m)),
{
    let whole = message_text(m);
    match m {
        AgentMessage::Llm(Message::User(u)) => match u.content {
            UserBody::Text(t) => {
                assert(whole =~= "[User]\n"@ + t@ + "\n"@);
                lemma_stands(t@, whole, "[User]\n"@, "\n"@);
            },
            UserBody::Blocks(b) => {
                let inner = user_lines(b@, b@.len() as int);
                assert(whole =~= "[User]\n"@ + inner + "\n"@);
                assert forall|i: int| 0 <= i < b@.len() && (#[trigger] b@[i]) is Text implies stands_in(
                    b@[i]->Text_0@,
                    whole,
                ) by {
                    lemma_user_stands(b@, i, b@.len() as int);
                    lemma_stands_wider(b@[i]->Text_0@, inner, "[User]\n"@, "\n"@);
                }
            },
        },
        AgentMessage::Llm(Message::Assistant(a)) => {
            let v = a.content@;
            let inner = assistant_lines(v, v.len() as int);
            assert(whole =~= "[Assistant]\n"@ + inner + "\n"@);
            assert forall|i: int| 0 <= i < v.len() implies (match #[trigger] v[i] {
                AssistantContent::Text(t) => stands_in(t@, whole),
                AssistantContent::Thinking(_) => true,
                AssistantContent::ToolCall(c) => stands_in(c.name@, whole) && stands_in(
                    c.arguments@,
                    whole,
                ),
            }) by {
                lemma_piece_stands(v, i, v.len() as int);
                match v[i] {
                    AssistantContent::Text(t) => lemma_stands_wider(
                        t@,
                        inner,
                        "[Assistant]\n"@,
                        "\n"@,
                    ),
                    AssistantContent::ToolCall(c) => {
                        lemma_stands_wider(c.name@, inner, "[Assistant]\n"@, "\n"@);
                        lemma_stands_wider(c.arguments@, inner, "[Assistant]\n"@, "\n"@);
                    },
                    _ => {},
                }
            }
        },
        AgentMessage::Llm(Message::ToolResult(r)) => {
            let v = r.content@;
            let inner = result_lines(v, v.len() as int);
            let head = "[Tool result: "@ + r.tool_name@ + "]\n"@;
            assert(whole =~= head + inner + "\n"@);
            assert(whole =~= "[Tool result: "@ + r.tool_name@ + ("]\n"@ + inner + "\n"@));
            lemma_stands(r.tool_name@, whole, "[Tool result: "@, "]\n"@ + inner + "\n"@);
            assert forall|i: int| 0 <= i < v.len() && (#[trigger] v[i]) is Text implies stands_in(
                if v[i]->Text_0@.len() <= 2000 {
                    v[i]->Text_0@
                } else {
                    v[i]->Text_0@.take(2000)
                },
                whole,
            ) by {
                lemma_result_stands(v, i, v.len() as int);
                let part = if v[i]->Text_0@.len() <= 2000 {
                    v[i]->Text_0@
                } else {
                    v[i]->Text_0@.take(2000)
                };
                lemma_stands_wider(part, inner, head, "\n"@);
            }
        },
        AgentMessage::Custom(c) => {
            let rest = "]\n"@ + c.payload@ + "\n"@ + "\n"@;
            assert(whole =~= "["@ + c.kind@ + rest);
            lemma_stands(c.kind@, whole, "["@, rest);
            let head = "["@ + c.kind@ + "]\n"@;
            assert(whole =~= head + c.payload@ + ("\n"@ + "\n"@));
            lemma_stands(c.payload@, whole, head, "\n"@ + "\n"@);
        },
    }
}

proof fn lemma_told_wider(m: AgentMessage, inner: Seq<char>, a: Seq<char>, b: Seq<char>)
    requires
        is_told_in(m, inner),
    ensures
        is_told_in(m, a + inner + b),
{
    let whole = a + inner + b;
    assert forall|part: Seq<char>| stands_in(part, inner) implies #[trigger] stands_in(
        part,
        whole,
    ) by {
        lemma_stands_wider(part, inner, a, b);
    }
}

/// The request for a summary holds all that is to be summarized: what every
/// message before the cut says, and the summary of an earlier compaction.
pub proof fn law_nothing_goes_unsummarized(v: Seq<AgentMessage>, n: int, i: int)
    requires
        0 <= i < n <= v.len(),
    ensures
        is_told_in(v[i], summary_prompt(v, n)),
        summary_in(v[i]) is Some && (forall|j: int|
            0 <= j < i ==> summary_in(#[trigger] v[j]) is None) ==> stands_in(
            summary_in(v[i]).unwrap(),
            summary_prompt(v, n),
        ),
{
    let whole = summary_prompt(v, n);
    let talk = conversation_text(v, n);
    let open = "<conversation>\n"@;
    let close = "\n</conversation>\n\n"@;
    lemma_told(v[i]);
    lemma_message_stands(v, i, n);
    let (a, b) = choose|a: Seq<char>, b: Seq<char>|
        talk == #[trigger] (a + message_text(v[i]) + b);
    lemma_told_wider(v[i], message_text(v[i]), a, b);
    let tail = whole.skip((open + talk).len() as int);
    assert(whole.take((open + talk).len() as int) =~= open + talk);
    assert(whole =~= open + talk + tail);
    lemma_told_wider(v[i], talk, open, tail);
    if summary_in(v[i]) is Some && (forall|j: int|
        0 <= j < i ==> summary_in(#[trigger] v[j]) is None) {
        lemma_first_summary(v, 0, i, n);
        let s = summary_in(v[i]).unwrap();
        let head = open + talk + close + "<previous-summary>\n"@;
        let rest = "\n</previous-summary>\n\n"@ + UPDATE_SUMMARIZATION_PROMPT@;
        assert(whole =~= head + s + rest);
        lemma_stands(s, whole, head, rest);
    }
}

proof fn lemma_first_summary(v: Seq<AgentMessage>, from: int, i: int, n: int)
    requires
        0 <= from <= i < n <= v.len(),
        summary_in(v[i]) is Some,
        forall|j: int| from <= j < i ==> summary_in(#[trigger] v[j]) is None,
    ensures
        previous_summary(v, from, n) == summary_in(v[i]),
    decreases i - from,
{
    if from < i {
        lemma_first_summary(v, from + 1, i, n);
    }
}

/// A summary may take no more than four fifths of the reserve, and no more
/// than the model can say; and it may take all of that.
pub proof fn law_summaries_fit_the_reserve(reserve: nat, model_max: nat)
    ensures
        10 * summary_limit(reserve, model_max) <= 8 * reserve,
        model_max > 0 ==> summary_limit(reserve, model_max) <= model_max,
        10 * (summary_limit(reserve, model_max) + 1) > 8 * reserve || summary_limit(
            reserve,
            model_max,
        ) == model_max || (model_max == 0 && summary_limit(reserve, model_max) == 1),
{
}

} // verus!
