//! What the agent, its model and its tools say to each other.
//!
//! Messages are shared, never changed: every list that holds one holds the
//! same value.
use std::sync::Arc;

use vstd::prelude::*;

use crate::text;

verus! {

/// Why a response ended.
#[derive(Debug, Clone, Copy, PartialEq, Eq, Structural)]
pub enum StopReason {
    Stop,
    Length,
    ToolUse,
    Error,
    Aborted,
}

/// How hard a model thinks.
#[derive(Debug, Clone, Copy, PartialEq, Eq, Structural)]
pub enum ThinkingLevel {
    Minimal,
    Low,
    Medium,
    High,
    XHigh,
}

/// What a response used. The cost is in billionths of a dollar.
#[derive(Debug, Clone, Copy, PartialEq, Eq, Structural)]
pub struct Usage {
    pub input: u64,
    pub output: u64,
    pub cache_read: u64,
    pub cache_write: u64,
    pub total_tokens: u64,
    pub cost: u64,
}

impl Default for Usage {
    /// Nothing used.
    fn default() -> (r: Usage)
        ensures
            r == (Usage {
                input: 0,
                output: 0,
                cache_read: 0,
                cache_write: 0,
                total_tokens: 0,
                cost: 0,
            }),
    {
        Usage { input: 0, output: 0, cache_read: 0, cache_write: 0, total_tokens: 0, cost: 0 }
    }
}

/// An image, encoded as text.
#[derive(Debug)]
pub struct ImageContent {
    pub data: String,
    pub mime_type: String,
}

/// A piece of what the user, or a tool, says.
#[derive(Debug)]
pub enum Content {
    Text(String),
    Image(ImageContent),
}

/// What the user says.
#[derive(Debug)]
pub enum UserBody {
    Text(String),
    Blocks(Vec<Content>),
}

/// A message of the user.
#[derive(Debug)]
pub struct UserMessage {
    pub content: UserBody,
    pub timestamp: u64,
}

/// A tool call that the model asks for. The arguments are JSON text.
#[derive(Debug)]
pub struct ToolCall {
    pub id: String,
    pub name: String,
    pub arguments: String,
}

/// A piece of what the model says.
#[derive(Debug)]
pub enum AssistantContent {
    Text(String),
    Thinking(String),
    ToolCall(ToolCall),
}

/// A message of the model.
#[derive(Debug)]
pub struct AssistantMessage {
    pub content: Vec<AssistantContent>,
    pub api: String,
    pub provider: String,
    pub model: String,
    pub response_model: Option<String>,
    pub response_id: Option<String>,
    pub usage: Usage,
    pub stop_reason: StopReason,
    pub error_message: Option<String>,
    pub timestamp: u64,
}

/// What a tool call came to, as the model sees it.
#[derive(Debug)]
pub struct ToolResultMessage {
    pub tool_call_id: String,
    pub tool_name: String,
    pub content: Arc<Vec<Content>>,
    pub details: Option<String>,
    pub is_error: bool,
    pub timestamp: u64,
}

/// A message that a model understands.
#[derive(Debug)]
pub enum Message {
    User(Arc<UserMessage>),
    Assistant(Arc<AssistantMessage>),
    ToolResult(Arc<ToolResultMessage>),
}

/// A message of the program's own. The payload is JSON text.
#[derive(Debug)]
pub struct CustomMessage {
    pub kind: String,
    pub payload: String,
    pub timestamp: u64,
}

/// A message in the agent's history.
#[derive(Debug)]
pub enum AgentMessage {
    Llm(Message),
    Custom(Arc<CustomMessage>),
}

/// What a tool returns. `terminate` asks for the end of the run.
#[derive(Debug)]
pub struct AgentToolResult {
    pub content: Arc<Vec<Content>>,
    pub details: Option<String>,
    pub terminate: bool,
}

/// Whether a message is text of the user.
pub open spec fn is_user_text(m: AgentMessage, s: Seq<char>, now: u64) -> bool {
    match m {
        AgentMessage::Llm(Message::User(u)) => match u.content {
            UserBody::Text(t) => t@ == s && u.timestamp == now,
            UserBody::Blocks(_) => false,
        },
        _ => false,
    }
}

/// Whether a message is one of the user's.
pub open spec fn is_user(m: AgentMessage) -> bool {
    m matches AgentMessage::Llm(Message::User(_))
}

/// Whether a message is one of the model's.
pub open spec fn is_assistant(m: AgentMessage) -> bool {
    m matches AgentMessage::Llm(Message::Assistant(_))
}

impl Message {
    /// The same message.
    pub fn share(&self) -> (r: Message)
        ensures
            r == *self,
    {
        match self {
            Message::User(m) => Message::User(Arc::clone(m)),
            Message::Assistant(m) => Message::Assistant(Arc::clone(m)),
            Message::ToolResult(m) => Message::ToolResult(Arc::clone(m)),
        }
    }
}

impl AgentMessage {
    /// The same message.
    pub fn share(&self) -> (r: AgentMessage)
        ensures
            r == *self,
    {
        match self {
            AgentMessage::Llm(m) => AgentMessage::Llm(m.share()),
            AgentMessage::Custom(m) => AgentMessage::Custom(Arc::clone(m)),
        }
    }

    /// Text of the user.
    pub fn user_text(text: String, now: u64) -> (r: AgentMessage)
        ensures
            is_user_text(r, text@, now),
    {
        AgentMessage::Llm(
            Message::User(Arc::new(UserMessage { content: UserBody::Text(text), timestamp: now })),
        )
    }
}

/// The same messages.
pub fn share_all(v: &Vec<AgentMessage>) -> (r: Vec<AgentMessage>)
    ensures
        r@ == v@,
{
    share_range(v, 0, v.len())
}

/// The same messages, from one index up to another.
pub fn share_range(v: &Vec<AgentMessage>, from: usize, to: usize) -> (r: Vec<AgentMessage>)
    requires
        from <= to <= v@.len(),
    ensures
        r@ == v@.subrange(from as int, to as int),
{
    let mut out: Vec<AgentMessage> = Vec::new();
    let mut i: usize = from;
    while i < to
        invariant
            from <= i <= to <= v@.len(),
            out@ == v@.subrange(from as int, i as int),
        decreases to - i,
    {
        out.push(v[i].share());
        i += 1;
    }
    out
}

impl AgentToolResult {
    /// A result that is one piece of text.
    pub fn text(text: String) -> (r: AgentToolResult)
        ensures
            is_text_result(r, text@),
    {
        let mut content: Vec<Content> = Vec::new();
        content.push(Content::Text(text));
        AgentToolResult { content: Arc::new(content), details: None, terminate: false }
    }
}

/// Whether a result is one piece of text, and does not ask for the end.
pub open spec fn is_text_result(r: AgentToolResult, s: Seq<char>) -> bool {
    r.content@.len() == 1 && (r.content@[0] matches Content::Text(t) && t@ == s) && r.details is None
        && !r.terminate
}

/// The messages that a model understands, in order.
pub open spec fn llm_messages(v: Seq<AgentMessage>) -> Seq<Message>
    decreases v.len(),
{
    if v.len() == 0 {
        Seq::empty()
    } else {
        match v.last() {
            AgentMessage::Llm(m) => llm_messages(v.drop_last()).push(m),
            AgentMessage::Custom(_) => llm_messages(v.drop_last()),
        }
    }
}

/// Keeps the messages that a model understands and drops the program's own.
pub fn convert_to_llm(v: &Vec<AgentMessage>) -> (r: Vec<Message>)
    ensures
        r@ == llm_messages(v@),
{
    let mut out: Vec<Message> = Vec::new();
    let mut i: usize = 0;
    while i < v.len()
        invariant
            i <= v@.len(),
            out@ == llm_messages(v@.take(i as int)),
        decreases v@.len() - i,
    {
        assert(v@.take(i + 1).drop_last() =~= v@.take(i as int));
        if let AgentMessage::Llm(m) = &v[i] {
            out.push(m.share());
        }
        i += 1;
    }
    assert(v@.take(v@.len() as int) =~= v@);
    out
}

/// The texts among the first `n` pieces.
pub open spec fn text_parts(v: Seq<Content>, n: int) -> Seq<Seq<char>>
    decreases n,
{
    if n <= 0 {
        Seq::empty()
    } else {
        match v[n - 1] {
            Content::Text(t) => text_parts(v, n - 1).push(t@),
            Content::Image(_) => text_parts(v, n - 1),
        }
    }
}

/// The text of a list of pieces: its texts, one per line.
pub open spec fn content_text(v: Seq<Content>) -> Seq<char> {
    text::joined(text_parts(v, v.len() as int), "\n"@)
}

/// Reads the text of a list of pieces, leaving images out.
pub fn text_of(v: &Vec<Content>) -> (r: String)
    ensures
        r@ == content_text(v@),
{
    let mut parts: Vec<String> = Vec::new();
    let mut i: usize = 0;
    while i < v.len()
        invariant
            i <= v@.len(),
            text::texts(parts@) == text_parts(v@, i as int),
        decreases v@.len() - i,
    {
        if let Content::Text(t) = &v[i] {
            let ghost before = parts@;
            parts.push(t.clone());
            assert(text::texts(parts@) =~= text::texts(before).push(t@));
        }
        i += 1;
    }
    text::join(&parts, "\n")
}

/// The texts among the first `n` pieces of what the model said.
pub open spec fn spoken_parts(v: Seq<AssistantContent>, n: int) -> Seq<Seq<char>>
    decreases n,
{
    if n <= 0 {
        Seq::empty()
    } else {
        match v[n - 1] {
            AssistantContent::Text(t) => spoken_parts(v, n - 1).push(t@),
            _ => spoken_parts(v, n - 1),
        }
    }
}

/// What the model said in text, one piece per line.
pub open spec fn spoken_text(v: Seq<AssistantContent>) -> Seq<char> {
    text::joined(spoken_parts(v, v.len() as int), "\n"@)
}

/// Reads what the model said in text, leaving reasoning and tool calls out.
pub fn text_said(v: &Vec<AssistantContent>) -> (r: String)
    ensures
        r@ == spoken_text(v@),
{
    let mut parts: Vec<String> = Vec::new();
    let mut i: usize = 0;
    while i < v.len()
        invariant
            i <= v@.len(),
            text::texts(parts@) == spoken_parts(v@, i as int),
        decreases v@.len() - i,
    {
        if let AssistantContent::Text(t) = &v[i] {
            let ghost before = parts@;
            parts.push(t.clone());
            assert(text::texts(parts@) =~= text::texts(before).push(t@));
        }
        i += 1;
    }
    text::join(&parts, "\n")
}

/// The tool calls among the first `n` pieces of what the model said.
pub open spec fn calls_among(v: Seq<AssistantContent>, n: int) -> Seq<ToolCall>
    decreases n,
{
    if n <= 0 {
        Seq::empty()
    } else {
        match v[n - 1] {
            AssistantContent::ToolCall(c) => calls_among(v, n - 1).push(c),
            _ => calls_among(v, n - 1),
        }
    }
}

/// The tool calls of a message, in order.
pub open spec fn calls_of(m: AssistantMessage) -> Seq<ToolCall> {
    calls_among(m.content@, m.content@.len() as int)
}

impl ToolCall {
    /// The same call.
    pub fn copy(&self) -> (r: ToolCall)
        ensures
            r == *self,
    {
        ToolCall { id: self.id.clone(), name: self.name.clone(), arguments: self.arguments.clone() }
    }
}

/// Collects the tool calls of a message.
pub fn tool_calls(m: &AssistantMessage) -> (r: Vec<ToolCall>)
    ensures
        r@ == calls_of(*m),
{
    let mut out: Vec<ToolCall> = Vec::new();
    let mut i: usize = 0;
    while i < m.content.len()
        invariant
            i <= m.content@.len(),
            out@ == calls_among(m.content@, i as int),
        decreases m.content@.len() - i,
    {
        if let AssistantContent::ToolCall(c) = &m.content[i] {
            out.push(c.copy());
        }
        i += 1;
    }
    out
}

/// Whether a response failed.
pub open spec fn failed(s: StopReason) -> bool {
    s == StopReason::Error || s == StopReason::Aborted
}

/// Whether a response failed.
pub fn is_failure(s: StopReason) -> (r: bool)
    ensures
        r == failed(s),
{
    s == StopReason::Error || s == StopReason::Aborted
}

// ---------------------------------------------------------------------------
// Money
// ---------------------------------------------------------------------------

/// The last four digits of a number below ten thousand, zeros included.
pub open spec fn four_digits(n: nat) -> Seq<char> {
    seq![
        text::digit(n as int / 1000 % 10),
        text::digit(n as int / 100 % 10),
        text::digit(n as int / 10 % 10),
        text::digit(n as int % 10),
    ]
}

/// An amount in billionths of a dollar, as dollars with four decimals,
/// rounded to the nearest (a half goes up).
pub open spec fn dollars(billionths: nat) -> Seq<char> {
    let units = (billionths + 50_000) / 100_000;
    text::decimal(units / 10_000) + "."@ + four_digits(units % 10_000)
}

/// Writes an amount in billionths of a dollar, with four decimals.
pub fn dollars_text(billionths: u64) -> (r: String)
    ensures
        r@ == dollars(billionths as nat),
{
    let units: u128 = (billionths as u128 + 50_000) / 100_000;
    let whole: u64 = (units / 10_000) as u64;
    let rest: u128 = units % 10_000;
    let mut out = text::decimal_text(whole);
    out.push_str(".");
    let ghost before = out@;
    out.push(text::digit_char((rest / 1000 % 10) as u8));
    out.push(text::digit_char((rest / 100 % 10) as u8));
    out.push(text::digit_char((rest / 10 % 10) as u8));
    out.push(text::digit_char((rest % 10) as u8));
    assert(out@ =~= before + four_digits(rest as nat));
    out
}

/// What a response used, as it is shown.
pub open spec fn usage_note(input: nat, output: nat, cached: nat, cost: nat) -> Seq<char> {
    text::decimal(input) + " in / "@ + text::decimal(output) + " out / "@ + text::decimal(cached)
        + " cached, $"@ + dollars(cost)
}

/// Shows what was used.
pub fn usage_words(input: u64, output: u64, cached: u64, cost: u64) -> (r: String)
    ensures
        r@ == usage_note(input as nat, output as nat, cached as nat, cost as nat),
{
    let mut out = text::decimal_text(input);
    out.push_str(" in / ");
    out.push_str(text::decimal_text(output).as_str());
    out.push_str(" out / ");
    out.push_str(text::decimal_text(cached).as_str());
    out.push_str(" cached, $");
    out.push_str(dollars_text(cost).as_str());
    out
}

// ---------------------------------------------------------------------------
// Laws
// ---------------------------------------------------------------------------

proof fn lemma_calls_among(v: Seq<AssistantContent>, n: int)
    requires
        0 <= n <= v.len(),
    ensures
        calls_among(v, n).map_values(|c: ToolCall| AssistantContent::ToolCall(c)) == v.take(
            n,
        ).filter(|p: AssistantContent| p is ToolCall),
    decreases n,
{
    reveal(Seq::filter);
    if n > 0 {
        lemma_calls_among(v, n - 1);
        assert(v.take(n).drop_last() =~= v.take(n - 1));
        assert(v.take(n).last() == v[n - 1]);
        if let AssistantContent::ToolCall(c) = v[n - 1] {
            assert(calls_among(v, n).map_values(|c: ToolCall| AssistantContent::ToolCall(c))
                =~= calls_among(v, n - 1).map_values(
                |c: ToolCall| AssistantContent::ToolCall(c),
            ).push(v[n - 1]));
        }
    } else {
        assert(v.take(n) =~= Seq::empty());
        assert(calls_among(v, n).map_values(|c: ToolCall| AssistantContent::ToolCall(c))
            =~= Seq::empty());
    }
}

/// The calls of a message are all the calls that the model made, in the
/// order in which it made them, and nothing else.
pub proof fn law_every_call_is_collected(m: Arc<AssistantMessage>)
    ensures
        calls_of(*m).map_values(|c: ToolCall| AssistantContent::ToolCall(c)) == m.content@.filter(
            |p: AssistantContent| p is ToolCall,
        ),
{
    lemma_calls_among(m.content@, m.content@.len() as int);
    assert(m.content@.take(m.content@.len() as int) =~= m.content@);
}

spec fn shared_calls(m: Arc<AssistantMessage>) -> Seq<ToolCall> {
    calls_of(*m)
}

/// Every call in a message is among its calls, and every one of these is in
/// the message.
pub proof fn law_no_call_is_lost(m: Arc<AssistantMessage>, call: ToolCall)
    ensures
        calls_of(*m).contains(call) <==> m.content@.contains(AssistantContent::ToolCall(call)),
{
    let p = |p: AssistantContent| p is ToolCall;
    let shown = shared_calls(m).map_values(|c: ToolCall| AssistantContent::ToolCall(c));
    law_every_call_is_collected(m);
    assert(shown == m.content@.filter(p));
    if shared_calls(m).contains(call) {
        let k = choose|k: int| 0 <= k < shared_calls(m).len() && shared_calls(m)[k] == call;
        assert(shown[k] == AssistantContent::ToolCall(call));
        m.content@.lemma_filter_contains_rev(p, shown[k]);
    }
    if m.content@.contains(AssistantContent::ToolCall(call)) {
        let i = choose|i: int|
            0 <= i < m.content@.len() && m.content@[i] == AssistantContent::ToolCall(call);
        m.content@.lemma_filter_contains(p, i);
        let k = choose|k: int| 0 <= k < shown.len() && shown[k] == m.content@[i];
        assert(shared_calls(m)[k] == call);
    }
}

/// The program's own messages are left out, and every other one stays, in
/// its place.
pub proof fn law_the_model_sees_all_but_the_programs_own(v: Seq<AgentMessage>)
    ensures
        llm_messages(v).map_values(|m: Message| AgentMessage::Llm(m)) == v.filter(
            |m: AgentMessage| m is Llm,
        ),
    decreases v.len(),
{
    reveal(Seq::filter);
    if v.len() == 0 {
        assert(llm_messages(v).map_values(|m: Message| AgentMessage::Llm(m)) =~= v.filter(
            |m: AgentMessage| m is Llm,
        ));
    } else {
        law_the_model_sees_all_but_the_programs_own(v.drop_last());
        if let AgentMessage::Llm(m) = v.last() {
            assert(llm_messages(v).map_values(|m: Message| AgentMessage::Llm(m)) =~= llm_messages(
                v.drop_last(),
            ).map_values(|m: Message| AgentMessage::Llm(m)).push(v.last()));
        }
    }
}

/// The texts of pieces are the pieces but for images, in order.
pub proof fn law_text_leaves_out_images_only(v: Seq<Content>)
    ensures
        text_parts(v, v.len() as int) == v.filter(|p: Content| p is Text).map_values(
            |p: Content| p->Text_0@,
        ),
{
    lemma_text_parts(v, v.len() as int);
    assert(v.take(v.len() as int) =~= v);
}

proof fn lemma_text_parts(v: Seq<Content>, n: int)
    requires
        0 <= n <= v.len(),
    ensures
        text_parts(v, n) == v.take(n).filter(|p: Content| p is Text).map_values(
            |p: Content| p->Text_0@,
        ),
    decreases n,
{
    reveal(Seq::filter);
    let shown = v.take(n).filter(|p: Content| p is Text).map_values(|p: Content| p->Text_0@);
    if n > 0 {
        lemma_text_parts(v, n - 1);
        assert(v.take(n).drop_last() =~= v.take(n - 1));
        assert(v.take(n).last() == v[n - 1]);
        assert(text_parts(v, n) =~= shown);
    } else {
        assert(v.take(n) =~= Seq::empty());
        assert(text_parts(v, n) =~= shown);
    }
}

/// What the model said in text is its pieces but for reasoning and calls, in
/// order.
pub proof fn law_said_is_every_text(v: Seq<AssistantContent>)
    ensures
        spoken_parts(v, v.len() as int) == v.filter(|p: AssistantContent| p is Text).map_values(
            |p: AssistantContent| p->Text_0@,
        ),
{
    lemma_spoken_parts(v, v.len() as int);
    assert(v.take(v.len() as int) =~= v);
}

proof fn lemma_spoken_parts(v: Seq<AssistantContent>, n: int)
    requires
        0 <= n <= v.len(),
    ensures
        spoken_parts(v, n) == v.take(n).filter(|p: AssistantContent| p is Text).map_values(
            |p: AssistantContent| p->Text_0@,
        ),
    decreases n,
{
    reveal(Seq::filter);
    let shown = v.take(n).filter(|p: AssistantContent| p is Text).map_values(
        |p: AssistantContent| p->Text_0@,
    );
    if n > 0 {
        lemma_spoken_parts(v, n - 1);
        assert(v.take(n).drop_last() =~= v.take(n - 1));
        assert(v.take(n).last() == v[n - 1]);
        assert(spoken_parts(v, n) =~= shown);
    } else {
        assert(v.take(n) =~= Seq::empty());
        assert(spoken_parts(v, n) =~= shown);
    }
}

/// The number that four decimal digits make.
pub open spec fn number_of(rest: Seq<char>) -> int {
    (rest[0] as int - '0' as int) * 1000 + (rest[1] as int - '0' as int) * 100 + (rest[2] as int
        - '0' as int) * 10 + (rest[3] as int - '0' as int)
}

/// Whether an amount is shown as these dollars and these four decimals, and
/// these come closest to it.
pub open spec fn is_shown_as(billionths: nat, whole: nat, rest: Seq<char>) -> bool {
    &&& dollars(billionths) == text::decimal(whole) + seq!['.'] + rest
    &&& rest.len() == 4
    &&& forall|k: int| 0 <= k < 4 ==> '0' <= #[trigger] rest[k] <= '9'
    &&& (whole * 10_000 + number_of(rest)) * 100_000 <= billionths + 50_000
    &&& billionths + 50_000 < (whole * 10_000 + number_of(rest) + 1) * 100_000
}

proof fn lemma_places(n: int)
    requires
        0 <= n < 10_000,
    ensures
        n == n / 1000 % 10 * 1000 + n / 100 % 10 * 100 + n / 10 % 10 * 10 + n % 10,
{
    let a = n / 10;
    let b = a / 10;
    let c = b / 10;
    assert(n / 100 == b);
    assert(n / 1000 == c);
    assert(c % 10 == c);
}

#[verifier::rlimit(50)]
#[verifier::spinoff_prover]
proof fn lemma_four_digits(n: nat)
    requires
        n < 10_000,
    ensures
        four_digits(n).len() == 4,
        forall|k: int| 0 <= k < 4 ==> '0' <= #[trigger] four_digits(n)[k] <= '9',
        number_of(four_digits(n)) == n,
{
    let a = n as int / 1000 % 10;
    let b = n as int / 100 % 10;
    let c = n as int / 10 % 10;
    let d = n as int % 10;
    lemma_places(n as int);
    lemma_digit_value(a);
    lemma_digit_value(b);
    lemma_digit_value(c);
    lemma_digit_value(d);
    let s = four_digits(n);
    assert(s[0] == text::digit(a) && s[1] == text::digit(b));
    assert(s[2] == text::digit(c) && s[3] == text::digit(d));
}

/// An amount is shown as whole dollars and four decimals, rounded to the
/// nearest, and up in the middle.
pub proof fn law_amounts_are_rounded_to_four_decimals(billionths: nat)
    ensures
        exists|whole: nat, rest: Seq<char>| is_shown_as(billionths, whole, rest),
{
    reveal_strlit(".");
    assert("."@ =~= seq!['.']);
    let units = (billionths + 50_000) / 100_000;
    let whole = units / 10_000;
    let n = units % 10_000;
    let rest = four_digits(n);
    lemma_four_digits(n);
    assert(dollars(billionths) == text::decimal(whole) + seq!['.'] + rest);
    assert(whole * 10_000 + number_of(rest) == units);
    assert(is_shown_as(billionths, whole, rest));
}

proof fn lemma_digit_value(d: int)
    requires
        0 <= d < 10,
    ensures
        '0' <= text::digit(d) <= '9',
        text::digit(d) as int - '0' as int == d,
{
}

} // verus!
