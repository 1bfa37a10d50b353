//! Running the tool calls of one response.
//!
//! Calls are announced and checked one by one, in the order of the response.
//! A call that does not pass is answered with an error at once. The others
//! run: one after the other if a tool asks for it, else all together. Ends
//! are announced as they come; the results become messages in the order of
//! the calls, so that every result stands where the model expects it.
use std::sync::Arc;

use vstd::prelude::*;

use crate::compaction::ToolInfo;
use crate::messages::{AgentMessage, AgentToolResult, Content, Message, ToolCall, ToolResultMessage};
use crate::text::{chars_of, concat3};
use crate::types::{AfterToolCallResult, AgentEvent, BeforeToolCallResult, ToolExecutionMode};
use crate::{messages, text};

verus! {

// ---------------------------------------------------------------------------
// One call
// ---------------------------------------------------------------------------

/// The first tool with this name.
pub open spec fn tool_named(tools: Seq<ToolInfo>, name: Seq<char>, from: int) -> Option<int>
    decreases tools.len() - from,
{
    if from >= tools.len() {
        None
    } else if tools[from].name@ == name {
        Some(from)
    } else {
        tool_named(tools, name, from + 1)
    }
}

/// Finds the first tool with this name.
pub fn find_tool(tools: &Vec<ToolInfo>, name: &str) -> (r: Option<usize>)
    ensures
        match r {
            Some(i) => tool_named(tools@, name@, 0) == Some(i as int) && i < tools@.len(),
            None => tool_named(tools@, name@, 0) is None,
        },
{
    let mut i: usize = 0;
    while i < tools.len()
        invariant
            i <= tools@.len(),
            tool_named(tools@, name@, 0) == tool_named(tools@, name@, i as int),
        decreases tools@.len() - i,
    {
        if text::same_str(tools[i].name.as_str(), name) {
            return Some(i);
        }
        i += 1;
    }
    None
}

/// Whether JSON text is an object.
pub open spec fn is_object(s: Seq<char>) -> bool {
    s.len() > 0 && s[0] == '{'
}

/// What is wrong with a call before anyone is asked: there is no such tool,
/// or its arguments are no object.
pub open spec fn call_error(call: ToolCall, tools: Seq<ToolInfo>) -> Option<Seq<char>> {
    if tool_named(tools, call.name@, 0) is None {
        Some("Tool "@ + call.name@ + " not found"@)
    } else if !is_object(call.arguments@) {
        Some("Tool "@ + call.name@ + " arguments must be a JSON object"@)
    } else {
        None
    }
}

/// Says what is wrong with a call before anyone is asked.
pub fn check_call(call: &ToolCall, tools: &Vec<ToolInfo>) -> (r: Option<String>)
    ensures
        crate::resources::opt(r) == call_error(*call, tools@),
{
    if find_tool(tools, call.name.as_str()).is_none() {
        return Some(concat3("Tool ", call.name.as_str(), " not found"));
    }
    let chars = chars_of(call.arguments.as_str());
    if chars.len() == 0 || chars[0] != '{' {
        return Some(concat3("Tool ", call.name.as_str(), " arguments must be a JSON object"));
    }
    None
}

/// What stands against a call once the hooks were asked: the run was
/// aborted, or a hook blocks it.
pub open spec fn objection(before: Option<BeforeToolCallResult>, cancelled: bool) -> Option<
    Seq<char>,
> {
    if cancelled {
        Some("Operation aborted"@)
    } else {
        match before {
            Some(b) => if b.block {
                match b.reason {
                    Some(s) => Some(s@),
                    None => Some("Tool execution was blocked"@),
                }
            } else {
                None
            },
            None => None,
        }
    }
}

/// Says what stands against a call once the hooks were asked.
pub fn judge_call(before: Option<BeforeToolCallResult>, cancelled: bool) -> (r: Option<String>)
    ensures
        crate::resources::opt(r) == objection(before, cancelled),
{
    if cancelled {
        return Some("Operation aborted".to_owned());
    }
    match before {
        Some(b) => if b.block {
            match b.reason {
                Some(s) => Some(s),
                None => Some("Tool execution was blocked".to_owned()),
            }
        } else {
            None
        },
        None => None,
    }
}

/// What a call came to.
#[derive(Debug)]
pub struct Outcome {
    pub result: Arc<AgentToolResult>,
    pub is_error: bool,
}

impl Outcome {
    fn share(&self) -> (r: Outcome)
        ensures
            r == *self,
    {
        Outcome { result: Arc::clone(&self.result), is_error: self.is_error }
    }
}

/// Whether pieces are one text.
pub open spec fn is_one_text(v: Seq<Content>, s: Seq<char>) -> bool {
    v.len() == 1 && (v[0] matches Content::Text(t) && t@ == s)
}

/// Whether an outcome is an error in words.
pub open spec fn is_error_outcome(o: Outcome, s: Seq<char>) -> bool {
    o.is_error && messages::is_text_result(*o.result, s)
}

/// Whether an outcome is what a tool returned, with what a hook changed of
/// it. A tool that fails returns its error as text.
pub open spec fn is_finalized(
    o: Outcome,
    result: Result<AgentToolResult, String>,
    after: Option<AfterToolCallResult>,
) -> bool {
    let changed_content = match after {
        Some(a) => a.content,
        None => None,
    };
    let changed_details = match after {
        Some(a) => a.details,
        None => None,
    };
    let changed_terminate = match after {
        Some(a) => a.terminate,
        None => None,
    };
    let changed_error = match after {
        Some(a) => a.is_error,
        None => None,
    };
    &&& match (changed_content, result) {
        (Some(c), _) => o.result.content == c,
        (None, Ok(r)) => o.result.content == r.content,
        (None, Err(e)) => is_one_text(o.result.content@, e@),
    }
    &&& o.result.details == (match (changed_details, result) {
        (Some(d), _) => Some(d),
        (None, Ok(r)) => r.details,
        (None, Err(_)) => None,
    })
    &&& o.result.terminate == (match (changed_terminate, result) {
        (Some(t), _) => t,
        (None, Ok(r)) => r.terminate,
        (None, Err(_)) => false,
    })
    &&& o.is_error == (match changed_error {
        Some(e) => e,
        None => result is Err,
    })
}

/// Makes an outcome of what a tool returned and what a hook changed of it.
pub fn finalize(result: Result<AgentToolResult, String>, after: Option<AfterToolCallResult>) -> (r:
    Outcome)
    ensures
        is_finalized(r, result, after),
{
    let (mut out, mut is_error) = match result {
        Ok(r) => (r, false),
        Err(e) => (AgentToolResult::text(e), true),
    };
    if let Some(a) = after {
        if let Some(content) = a.content {
            out.content = content;
        }
        if let Some(details) = a.details {
            out.details = Some(details);
        }
        if let Some(terminate) = a.terminate {
            out.terminate = terminate;
        }
        if let Some(e) = a.is_error {
            is_error = e;
        }
    }
    Outcome { result: Arc::new(out), is_error }
}

/// Whether a message hands the outcome of a call to the model.
pub open spec fn is_result_message(
    m: ToolResultMessage,
    call: ToolCall,
    o: Outcome,
    now: u64,
) -> bool {
    m.tool_call_id == call.id && m.tool_name == call.name && m.content == o.result.content
        && m.details == o.result.details && m.is_error == o.is_error && m.timestamp == now
}

/// Makes the message that hands the outcome of a call to the model.
pub fn tool_result_message(call: &ToolCall, o: &Outcome, now: u64) -> (r: ToolResultMessage)
    ensures
        is_result_message(r, *call, *o, now),
{
    let details: Option<String> = match &o.result.details {
        Some(s) => Some(s.clone()),
        None => None,
    };
    ToolResultMessage {
        tool_call_id: call.id.clone(),
        tool_name: call.name.clone(),
        content: Arc::clone(&o.result.content),
        details,
        is_error: o.is_error,
        timestamp: now,
    }
}

/// Whether the tools ask for one call at a time: some call names a tool that
/// does.
pub open spec fn wants_sequence(calls: Seq<ToolCall>, tools: Seq<ToolInfo>) -> bool {
    exists|k: int|
        0 <= k < calls.len() && (tool_named(tools, (#[trigger] calls[k]).name@, 0) matches Some(i)
            && tools[i].sequential)
}

/// Whether calls run one at a time.
pub fn runs_in_sequence(calls: &Vec<ToolCall>, tools: &Vec<ToolInfo>, mode: ToolExecutionMode) -> (r:
    bool)
    ensures
        r == (mode == ToolExecutionMode::Sequential || wants_sequence(calls@, tools@)),
{
    if mode == ToolExecutionMode::Sequential {
        return true;
    }
    let mut k: usize = 0;
    while k < calls.len()
        invariant
            k <= calls@.len(),
            forall|j: int|
                0 <= j < k ==> !(tool_named(tools@, (#[trigger] calls@[j]).name@, 0) matches Some(i)
                    && tools@[i].sequential),
        decreases calls@.len() - k,
    {
        if let Some(i) = find_tool(tools, calls[k].name.as_str()) {
            if tools[i].sequential {
                assert(tool_named(tools@, calls@[k as int].name@, 0) == Some(i as int));
                return true;
            }
        }
        k += 1;
    }
    false
}

// ---------------------------------------------------------------------------
// All calls of a response
// ---------------------------------------------------------------------------

/// A call that was announced, and what it came to.
#[derive(Debug)]
pub struct Slot {
    pub call: ToolCall,
    pub outcome: Option<Outcome>,
}

/// What a batch waits for.
#[derive(Debug, Clone, Copy, PartialEq, Eq, Structural)]
pub enum Stage {
    /// To be told to go on.
    Preparing,
    /// What the hooks say of a call.
    Judging,
    /// What a tool returns.
    Running,
    /// Nothing.
    Finished,
}

/// What a batch is told.
#[derive(Debug)]
pub enum ToolInput {
    /// Go on. The flag says whether the run was aborted.
    Next { cancelled: bool },
    /// What the hooks said.
    Judged { before: Option<BeforeToolCallResult>, cancelled: bool },
    /// What a tool returned, and what the hooks said of it.
    Executed {
        slot: usize,
        result: Result<AgentToolResult, String>,
        after: Option<AfterToolCallResult>,
    },
}

/// What a batch asks for.
#[derive(Debug)]
pub enum ToolAction {
    /// Tell it to go on.
    Next,
    /// Ask the hooks about the call of this number.
    Judge { slot: usize },
    /// Run the calls of these numbers, all together.
    Execute { slots: Vec<usize> },
    /// Wait for a tool that runs.
    Await,
    /// Nothing: all is done.
    Finished,
}

/// The calls of a response while they run.
#[derive(Debug)]
pub struct ToolBatch {
    calls: Vec<ToolCall>,
    sequential: bool,
    slots: Vec<Slot>,
    results: Vec<Arc<ToolResultMessage>>,
    stage: Stage,
}

/// The calls of a response while they run.
pub struct BatchView {
    pub calls: Seq<ToolCall>,
    pub sequential: bool,
    pub slots: Seq<Slot>,
    pub results: Seq<Arc<ToolResultMessage>>,
    pub stage: Stage,
}

impl View for ToolBatch {
    type V = BatchView;

    closed spec fn view(&self) -> BatchView {
        BatchView {
            calls: self.calls@,
            sequential: self.sequential,
            slots: self.slots@,
            results: self.results@,
            stage: self.stage,
        }
    }
}

/// Whether every slot has an outcome.
pub open spec fn all_done(slots: Seq<Slot>) -> bool {
    forall|k: int| 0 <= k < slots.len() ==> (#[trigger] slots[k]).outcome is Some
}

/// Whether results are those of the slots, in order.
pub open spec fn are_results(results: Seq<Arc<ToolResultMessage>>, slots: Seq<Slot>) -> bool {
    results.len() == slots.len() && forall|k: int|
        0 <= k < slots.len() ==> answers(*(#[trigger] results[k]), slots[k])
}

/// Whether a message answers a slot.
pub open spec fn answers(m: ToolResultMessage, slot: Slot) -> bool {
    slot.outcome matches Some(o) && is_result_message(m, slot.call, o, m.timestamp)
}

/// Slots are the first calls, in order. One at a time, all but the one that
/// runs are answered. In the end every announced call is answered.
pub open spec fn batch_ok(b: BatchView) -> bool {
    &&& b.slots.len() <= b.calls.len()
    &&& forall|k: int| 0 <= k < b.slots.len() ==> (#[trigger] b.slots[k]).call == b.calls[k]
    &&& b.stage == Stage::Judging ==> b.slots.len() < b.calls.len()
    &&& b.stage == Stage::Finished ==> are_results(b.results, b.slots)
    &&& (b.sequential && b.stage != Stage::Running) ==> are_results(b.results, b.slots)
    &&& (b.sequential && b.stage == Stage::Running) ==> b.slots.len() > 0
        && b.slots.last().outcome is None && are_results(b.results, b.slots.drop_last())
    &&& (!b.sequential && b.stage != Stage::Finished) ==> b.results.len() == 0
}

/// The event that a call starts.
pub open spec fn start_event(call: ToolCall) -> AgentEvent {
    AgentEvent::ToolExecutionStart { tool_call_id: call.id, tool_name: call.name }
}

/// The event that a call ends.
pub open spec fn end_event(call: ToolCall, o: Outcome) -> AgentEvent {
    AgentEvent::ToolExecutionEnd {
        tool_call_id: call.id,
        tool_name: call.name,
        result: o.result,
        is_error: o.is_error,
    }
}

/// Whether an event says that a result is now part of the history.
pub open spec fn is_result_event(e: AgentEvent, m: Arc<ToolResultMessage>) -> bool {
    e matches AgentEvent::MessageEnd { message: AgentMessage::Llm(Message::ToolResult(x)) } && x
        == m
}

/// Whether the events are those of results, in order.
pub open spec fn are_result_events(
    events: Seq<AgentEvent>,
    results: Seq<Arc<ToolResultMessage>>,
) -> bool {
    events.len() == results.len() && forall|k: int|
        0 <= k < results.len() ==> is_result_event(#[trigger] events[k], results[k])
}

/// Whether a call was answered: the slot has an outcome, its end is
/// announced and, one at a time, its message too.
pub open spec fn answered(
    before: BatchView,
    after: BatchView,
    events: Seq<AgentEvent>,
    k: int,
    now: u64,
) -> bool {
    let slot = after.slots[k];
    slot.outcome matches Some(o) && events.len() >= 1 && events[0] == end_event(slot.call, o) && (
    if before.sequential {
        after.results.len() == before.results.len() + 1 && after.results.drop_last()
            == before.results && is_result_message(*after.results.last(), slot.call, o, now)
            && events.len() == 2 && is_result_event(events[1], after.results.last())
    } else {
        true
    })
}

/// Whether a batch went on to a call: it is announced and checked, and a
/// call that does not pass is answered with an error.
pub open spec fn went_on(
    before: BatchView,
    after: BatchView,
    tools: Seq<ToolInfo>,
    now: u64,
    events: Seq<AgentEvent>,
    action: ToolAction,
) -> bool {
    let n = before.slots.len() as int;
    let call = before.calls[n];
    &&& events.len() >= 1
    &&& events[0] == start_event(call)
    &&& after.calls == before.calls
    &&& after.sequential == before.sequential
    &&& match call_error(call, tools) {
        Some(e) => {
            &&& after.slots.len() == n + 1
            &&& after.slots.drop_last() == before.slots
            &&& after.slots[n].call == call
            &&& after.slots[n].outcome matches Some(o)
            &&& is_error_outcome(o, e)
            &&& answered(before, after, events.skip(1), n, now)
            &&& !before.sequential ==> after.results == before.results && events.len() == 2
            &&& after.stage == Stage::Preparing
            &&& action is Next
        },
        None => {
            &&& after.slots == before.slots
            &&& after.results == before.results
            &&& after.stage == Stage::Judging
            &&& events.len() == 1
            &&& action matches ToolAction::Judge { slot }
            &&& slot == n
        },
    }
}

/// The numbers of the slots that still run, among the first `n`.
pub open spec fn running(slots: Seq<Slot>, n: int) -> Seq<int>
    decreases n,
{
    if n <= 0 {
        Seq::empty()
    } else if slots[n - 1].outcome is None {
        running(slots, n - 1).push(n - 1)
    } else {
        running(slots, n - 1)
    }
}

/// Numbers as integers.
pub open spec fn ints(v: Seq<usize>) -> Seq<int> {
    v.map_values(|x: usize| x as int)
}

/// Whether a batch came to its end: every announced call is answered, in
/// order, and where the messages were held back they are announced now.
pub open spec fn finished(
    before: BatchView,
    slots: Seq<Slot>,
    after: BatchView,
    events: Seq<AgentEvent>,
    now: u64,
) -> bool {
    &&& after.stage == Stage::Finished
    &&& after.calls == before.calls
    &&& after.sequential == before.sequential
    &&& after.slots == slots
    &&& are_results(after.results, slots)
    &&& if before.sequential {
        after.results == before.results && events.len() == 0
    } else {
        are_result_events(events, after.results) && forall|k: int|
            0 <= k < after.results.len() ==> (#[trigger] after.results[k]).timestamp == now
    }
}

/// Whether a batch did what it is told.
pub open spec fn steps(
    before: BatchView,
    input: ToolInput,
    tools: Seq<ToolInfo>,
    now: u64,
    after: BatchView,
    events: Seq<AgentEvent>,
    action: ToolAction,
) -> bool {
    let n = before.slots.len() as int;
    match (before.stage, input) {
        (Stage::Preparing, ToolInput::Next { cancelled }) => {
            if n < before.calls.len() && !(n > 0 && cancelled) {
                went_on(before, after, tools, now, events, action)
            } else if running(before.slots, n).len() == 0 {
                finished(before, before.slots, after, events, now) && action is Finished
            } else {
                after == (BatchView { stage: Stage::Running, ..before }) && events.len() == 0 && (
                action matches ToolAction::Execute { slots } && ints(slots@) == running(
                    before.slots,
                    n,
                ))
            }
        },
        (Stage::Judging, ToolInput::Judged { before: said, cancelled }) => {
            let call = before.calls[n];
            &&& after.calls == before.calls
            &&& after.sequential == before.sequential
            &&& after.slots.len() == n + 1
            &&& after.slots.drop_last() == before.slots
            &&& after.slots[n].call == call
            &&& match objection(said, cancelled) {
                Some(e) => {
                    &&& after.slots[n].outcome matches Some(o)
                    &&& is_error_outcome(o, e)
                    &&& answered(before, after, events, n, now)
                    &&& !before.sequential ==> after.results == before.results && events.len() == 1
                    &&& after.stage == Stage::Preparing
                    &&& action is Next
                },
                None => {
                    &&& after.slots[n].outcome is None
                    &&& after.results == before.results
                    &&& events.len() == 0
                    &&& if before.sequential {
                        after.stage == Stage::Running && (action matches ToolAction::Execute {
                            slots,
                        } && ints(slots@) == seq![n])
                    } else {
                        after.stage == Stage::Preparing && action is Next
                    }
                },
            }
        },
        (Stage::Running, ToolInput::Executed { slot, result, after: said }) => {
            if slot < n && before.slots[slot as int].outcome is None {
                let k = slot as int;
                &&& events.len() >= 1
                &&& after.calls == before.calls
                &&& after.sequential == before.sequential
                &&& after.slots.len() == n
                &&& after.slots[k].call == before.slots[k].call
                &&& forall|j: int| 0 <= j < n && j != k ==> after.slots[j] == before.slots[j]
                &&& after.slots[k].outcome matches Some(o)
                &&& is_finalized(o, result, said)
                &&& answered(before, after, events, k, now)
                &&& if before.sequential {
                    after.stage == Stage::Preparing && action is Next
                } else if running(after.slots, n).len() == 0 {
                    finished(before, after.slots, after, events.skip(1), now) && action is Finished
                } else {
                    after.stage == Stage::Running && after.results == before.results
                        && events.len() == 1 && action is Await
                }
            } else {
                after == before && events.len() == 0 && action is Await
            }
        },
        _ => after == before && events.len() == 0 && action is Await,
    }
}

proof fn lemma_running(slots: Seq<Slot>, n: int)
    requires
        0 <= n <= slots.len(),
    ensures
        running(slots, n).len() == 0 <==> forall|k: int|
            0 <= k < n ==> (#[trigger] slots[k]).outcome is Some,
        running(slots, n).len() <= n,
    decreases n,
{
    if n > 0 {
        lemma_running(slots, n - 1);
    }
}

impl ToolBatch {
    /// The calls of a response, none announced yet.
    pub fn new(calls: Vec<ToolCall>, tools: &Vec<ToolInfo>, mode: ToolExecutionMode) -> (r:
        ToolBatch)
        ensures
            r@ == (BatchView {
                calls: calls@,
                sequential: mode == ToolExecutionMode::Sequential || wants_sequence(
                    calls@,
                    tools@,
                ),
                slots: Seq::empty(),
                results: Seq::empty(),
                stage: Stage::Preparing,
            }),
            batch_ok(r@),
    {
        let sequential = runs_in_sequence(&calls, tools, mode);
        ToolBatch {
            calls,
            sequential,
            slots: Vec::new(),
            results: Vec::new(),
            stage: Stage::Preparing,
        }
    }

    /// The call of this number.
    pub fn call(&self, slot: usize) -> (r: Option<&ToolCall>)
        ensures
            match r {
                Some(c) => slot < self@.calls.len() && *c == self@.calls[slot as int],
                None => slot >= self@.calls.len(),
            },
    {
        if slot < self.calls.len() {
            Some(&self.calls[slot])
        } else {
            None
        }
    }

    /// The results so far, as messages, in order.
    pub fn results(&self) -> (r: &Vec<Arc<ToolResultMessage>>)
        ensures
            r@ == self@.results,
    {
        &self.results
    }

    /// Whether the run is to end: every call asked for it.
    pub fn terminates(&self) -> (r: bool)
        ensures
            r == all_terminate(self@.slots),
    {
        let n: usize = self.slots.len();
        if n == 0 {
            return false;
        }
        let mut k: usize = 0;
        while k < n
            invariant
                k <= n == self.slots@.len(),
                forall|j: int| 0 <= j < k ==> asks_to_end(#[trigger] self.slots@[j]),
            decreases n - k,
        {
            let asks = match &self.slots[k].outcome {
                Some(o) => o.result.terminate,
                None => false,
            };
            if !asks {
                assert(!asks_to_end(self.slots@[k as int]));
                return false;
            }
            k += 1;
        }
        true
    }

    fn answer(
        &mut self,
        k: usize,
        o: Outcome,
        now: u64,
        events: &mut Vec<AgentEvent>,
    )
        requires
            k < old(self).slots@.len(),
        ensures
            final(self).calls == old(self).calls,
            final(self).sequential == old(self).sequential,
            final(self).stage == old(self).stage,
            final(self).slots@ == old(self).slots@.update(
                k as int,
                Slot { call: old(self).slots@[k as int].call, outcome: Some(o) },
            ),
            final(events)@.len() >= old(events)@.len() + 1,
            final(events)@.take(old(events)@.len() as int) == old(events)@,
            final(events)@[old(events)@.len() as int] == end_event(
                old(self).slots@[k as int].call,
                o,
            ),
            if old(self).sequential {
                final(events)@.len() == old(events)@.len() + 2 && final(self).results@.len() == old(self).results@.len() + 1 && final(self).results@.drop_last() == old(self).results@
                    && is_result_message(
                    *final(self).results@.last(),
                    old(self).slots@[k as int].call,
                    o,
                    now,
                ) && is_result_event(
                    final(events)@[old(events)@.len() as int + 1],
                    final(self).results@.last(),
                )
            } else {
                final(events)@.len() == old(events)@.len() + 1 && final(self).results == old(self).results
            },
    {
        let ghost start = events@;
        let call = self.slots[k].call.copy();
        events.push(
            AgentEvent::ToolExecutionEnd {
                tool_call_id: call.id.clone(),
                tool_name: call.name.clone(),
                result: Arc::clone(&o.result),
                is_error: o.is_error,
            },
        );
        if self.sequential {
            let m = Arc::new(tool_result_message(&call, &o, now));
            events.push(
                AgentEvent::MessageEnd {
                    message: AgentMessage::Llm(Message::ToolResult(Arc::clone(&m))),
                },
            );
            let ghost before = self.results@;
            self.results.push(m);
            assert(self.results@.drop_last() =~= before);
        }
        assert(events@.take(start.len() as int) =~= start);
        self.slots.set(k, Slot { call, outcome: Some(o) });
    }

    fn finish(&mut self, now: u64, events: &mut Vec<AgentEvent>)
        requires
            all_done(old(self).slots@),
            old(self).sequential ==> are_results(old(self).results@, old(self).slots@),
            !old(self).sequential ==> old(self).results@.len() == 0,
        ensures
            final(self).calls == old(self).calls,
            final(self).sequential == old(self).sequential,
            final(self).slots == old(self).slots,
            final(self).stage == Stage::Finished,
            are_results(final(self).results@, final(self).slots@),
            final(events)@.len() >= old(events)@.len(),
            final(events)@.take(old(events)@.len() as int) == old(events)@,
            if old(self).sequential {
                final(self).results == old(self).results && *final(events) == *old(events)
            } else {
                are_result_events(
                    final(events)@.skip(old(events)@.len() as int),
                    final(self).results@,
                ) && forall|k: int|
                    0 <= k < final(self).results@.len() ==> (#[trigger] final(self).results@[k]).timestamp == now
            },
    {
        let ghost start = events@;
        self.stage = Stage::Finished;
        if self.sequential {
            assert(events@.take(start.len() as int) =~= start);
            return;
        }
        let mut k: usize = 0;
        while k < self.slots.len()
            invariant
                k <= self.slots@.len(),
                self.slots == old(self).slots,
                self.calls == old(self).calls,
                self.sequential == old(self).sequential,
                self.stage == Stage::Finished,
                all_done(self.slots@),
                self.results@.len() == k,
                forall|j: int| 0 <= j < k ==> answers(*(#[trigger] self.results@[j]), self.slots@[j]),
                forall|j: int| 0 <= j < k ==> (#[trigger] self.results@[j]).timestamp == now,
                events@.len() == start.len() + k,
                forall|j: int| 0 <= j < start.len() ==> events@[j] == start[j],
                forall|j: int|
                    0 <= j < k ==> is_result_event(
                        events@[start.len() + j],
                        #[trigger] self.results@[j],
                    ),
            decreases self.slots@.len() - k,
        {
            let ghost held = self.results@;
            let ghost told = events@;
            if let Some(o) = &self.slots[k].outcome {
                let m = Arc::new(tool_result_message(&self.slots[k].call, o, now));
                events.push(
                    AgentEvent::MessageEnd {
                        message: AgentMessage::Llm(Message::ToolResult(Arc::clone(&m))),
                    },
                );
                self.results.push(m);
            }
            assert forall|j: int| 0 <= j < k + 1 implies answers(
                *(#[trigger] self.results@[j]),
                self.slots@[j],
            ) && self.results@[j].timestamp == now && is_result_event(
                events@[start.len() + j],
                self.results@[j],
            ) by {
                if j < k {
                    assert(self.results@[j] == held[j]);
                    assert(events@[start.len() + j] == told[start.len() + j]);
                }
            }
            k += 1;
        }
        assert(events@.take(start.len() as int) =~= start);
        let ghost tail = events@.skip(start.len() as int);
        assert forall|j: int| 0 <= j < self.results@.len() implies is_result_event(
            #[trigger] tail[j],
            self.results@[j],
        ) by {
            assert(tail[j] == events@[start.len() + j]);
            assert(is_result_event(events@[start.len() + j], self.results@[j]));
        }
    }

    fn still_running(&self) -> (r: Vec<usize>)
        ensures
            ints(r@) == running(self.slots@, self.slots@.len() as int),
    {
        let mut out: Vec<usize> = Vec::new();
        let mut k: usize = 0;
        while k < self.slots.len()
            invariant
                k <= self.slots@.len(),
                ints(out@) == running(self.slots@, k as int),
            decreases self.slots@.len() - k,
        {
            if self.slots[k].outcome.is_none() {
                let ghost before = out@;
                out.push(k);
                assert(ints(out@) =~= ints(before).push(k as int));
            }
            k += 1;
        }
        out
    }

    fn error_outcome(e: String) -> (r: Outcome)
        ensures
            is_error_outcome(r, e@),
    {
        Outcome { result: Arc::new(AgentToolResult::text(e)), is_error: true }
    }

    /// Does what the batch is told, and says what it announces and asks for.
    pub fn advance(&mut self, input: ToolInput, tools: &Vec<ToolInfo>, now: u64) -> (r: (
        Vec<AgentEvent>,
        ToolAction,
    ))
        requires
            batch_ok(old(self)@),
        ensures
            batch_ok(final(self)@),
            steps(old(self)@, input, tools@, now, final(self)@, r.0@, r.1),
    {
        let ghost before = self@;
        let mut events: Vec<AgentEvent> = Vec::new();
        let n: usize = self.slots.len();
        match (self.stage, input) {
            (Stage::Preparing, ToolInput::Next { cancelled }) => {
                if n < self.calls.len() && !(n > 0 && cancelled) {
                    let call = self.calls[n].copy();
                    events.push(
                        AgentEvent::ToolExecutionStart {
                            tool_call_id: call.id.clone(),
                            tool_name: call.name.clone(),
                        },
                    );
                    match check_call(&call, tools) {
                        Some(e) => {
                            self.slots.push(Slot { call, outcome: None });
                            self.answer(n, Self::error_outcome(e), now, &mut events);
                            proof {
                                assert(events@[0] == events@.take(1)[0]);
                                assert(self.slots@.drop_last() =~= before.slots);
                                let rest = events@.skip(1);
                                assert(rest[0] == events@[1]);
                                if before.sequential {
                                    assert(rest[1] == events@[2]);
                                }
                                lemma_answered(before, self@, n as int);
                            }
                            (events, ToolAction::Next)
                        },
                        None => {
                            self.stage = Stage::Judging;
                            (events, ToolAction::Judge { slot: n })
                        },
                    }
                } else {
                    let waiting = self.still_running();
                    proof {
                        lemma_running(self.slots@, n as int);
                        assert(ints(waiting@).len() == waiting@.len());
                    }
                    if waiting.len() == 0 {
                        self.finish(now, &mut events);
                        assert(events@.skip(0) =~= events@);
                        (events, ToolAction::Finished)
                    } else {
                        proof {
                            if before.sequential {
                                let k = running(self.slots@, n as int)[0];
                                assert(forall|j: int|
                                    0 <= j < n ==> answers(
                                        *before.results[j],
                                        #[trigger] before.slots[j],
                                    ));
                            }
                        }
                        self.stage = Stage::Running;
                        (events, ToolAction::Execute { slots: waiting })
                    }
                }
            },
            (Stage::Judging, ToolInput::Judged { before: said, cancelled }) => {
                let call = self.calls[n].copy();
                self.slots.push(Slot { call, outcome: None });
                match judge_call(said, cancelled) {
                    Some(e) => {
                        self.answer(n, Self::error_outcome(e), now, &mut events);
                        self.stage = Stage::Preparing;
                        proof {
                            assert(self.slots@.drop_last() =~= before.slots);
                            lemma_answered(before, self@, n as int);
                        }
                        (events, ToolAction::Next)
                    },
                    None => {
                        assert(self.slots@.drop_last() =~= before.slots);
                        if self.sequential {
                            self.stage = Stage::Running;
                            let mut one: Vec<usize> = Vec::new();
                            one.push(n);
                            assert(ints(one@) =~= seq![n as int]);
                            (events, ToolAction::Execute { slots: one })
                        } else {
                            self.stage = Stage::Preparing;
                            (events, ToolAction::Next)
                        }
                    },
                }
            },
            (Stage::Running, ToolInput::Executed { slot, result, after: said }) => {
                if slot >= n || self.slots[slot].outcome.is_some() {
                    return (events, ToolAction::Await);
                }
                let o = finalize(result, said);
                proof {
                    if before.sequential && slot < n - 1 {
                        assert(before.slots.drop_last()[slot as int] == before.slots[slot as int]);
                        assert(answers(
                            *before.results[slot as int],
                            before.slots.drop_last()[slot as int],
                        ));
                    }
                }
                self.answer(slot, o, now, &mut events);
                if self.sequential {
                    self.stage = Stage::Preparing;
                    proof {
                        assert(slot == n - 1);
                        assert(self.slots@.drop_last() =~= before.slots.drop_last());
                        lemma_results_push(
                            before.results,
                            before.slots.drop_last(),
                            self.results@,
                            self.slots@,
                        );
                    }
                    return (events, ToolAction::Next);
                }
                let waiting = self.still_running();
                proof {
                    lemma_running(self.slots@, n as int);
                    assert(ints(waiting@).len() == waiting@.len());
                }
                if waiting.len() == 0 {
                    let ghost told = events@;
                    self.finish(now, &mut events);
                    assert(events@[0] == events@.take(1)[0]);
                    assert(events@.take(1) == told);
                    (events, ToolAction::Finished)
                } else {
                    (events, ToolAction::Await)
                }
            },
            _ => (events, ToolAction::Await),
        }
    }
}

/// Whether a slot asks for the end of the run.
pub open spec fn asks_to_end(slot: Slot) -> bool {
    slot.outcome matches Some(o) && o.result.terminate
}

/// Whether there are calls and every one of them asks for the end.
pub open spec fn all_terminate(slots: Seq<Slot>) -> bool {
    slots.len() > 0 && forall|k: int| 0 <= k < slots.len() ==> asks_to_end(#[trigger] slots[k])
}

proof fn lemma_results_push(
    results: Seq<Arc<ToolResultMessage>>,
    slots: Seq<Slot>,
    results2: Seq<Arc<ToolResultMessage>>,
    slots2: Seq<Slot>,
)
    requires
        are_results(results, slots),
        results2.len() == results.len() + 1,
        results2.drop_last() == results,
        slots2.len() == slots.len() + 1,
        slots2.drop_last() == slots,
        answers(*results2.last(), slots2.last()),
    ensures
        are_results(results2, slots2),
{
    assert forall|k: int| 0 <= k < slots2.len() implies answers(
        *(#[trigger] results2[k]),
        slots2[k],
    ) by {
        if k < slots.len() {
            assert(results2[k] == results[k]);
            assert(slots2[k] == slots[k]);
        }
    }
}

proof fn lemma_answered(before: BatchView, after: BatchView, n: int)
    requires
        batch_ok(before),
        n == before.slots.len(),
        before.sequential ==> are_results(before.results, before.slots),
        after.slots.len() == n + 1,
        after.slots.drop_last() == before.slots,
        before.sequential ==> after.results.len() == before.results.len() + 1
            && after.results.drop_last() == before.results && answers(
            *after.results.last(),
            after.slots.last(),
        ),
    ensures
        before.sequential ==> are_results(after.results, after.slots),
        forall|k: int| 0 <= k < n ==> (#[trigger] after.slots[k]).call == before.calls[k],
{
    if before.sequential {
        lemma_results_push(before.results, before.slots, after.results, after.slots);
    }
    assert forall|k: int| 0 <= k < n implies (#[trigger] after.slots[k]).call
        == before.calls[k] by {
        assert(after.slots[k] == before.slots[k]);
    }
}

/// When a batch is done, the results answer the announced calls one for
/// one, in the order in which the model asked.
pub proof fn law_results_follow_the_calls(b: BatchView)
    requires
        batch_ok(b),
        b.stage == Stage::Finished,
    ensures
        b.results.len() == b.slots.len() <= b.calls.len(),
        forall|k: int|
            0 <= k < b.results.len() ==> (#[trigger] b.results[k]).tool_call_id == b.calls[k].id
                && b.results[k].tool_name == b.calls[k].name,
{
    assert forall|k: int| 0 <= k < b.results.len() implies (#[trigger] b.results[k]).tool_call_id
        == b.calls[k].id && b.results[k].tool_name == b.calls[k].name by {
        assert(answers(*b.results[k], b.slots[k]));
        assert(b.slots[k].call == b.calls[k]);
    }
}

/// Whether no call was passed over so far: where all calls run together,
/// they do so only once every one of them was announced.
pub open spec fn nothing_skipped(b: BatchView) -> bool {
    (b.stage == Stage::Running && !b.sequential) || b.stage == Stage::Finished ==> b.slots.len()
        == b.calls.len()
}

/// How many calls were announced.
pub open spec fn announced(b: BatchView) -> int {
    if b.stage == Stage::Judging {
        b.slots.len() as int + 1
    } else {
        b.slots.len() as int
    }
}

proof fn lemma_starts(events: Seq<AgentEvent>, n: int)
    requires
        0 <= n <= events.len(),
        n <= 1,
        forall|k: int| 0 <= k < n ==> (#[trigger] events[k]) is ToolExecutionStart,
        forall|k: int| n <= k < events.len() ==> !((#[trigger] events[k]) is ToolExecutionStart),
    ensures
        events.filter(|e: AgentEvent| e is ToolExecutionStart) == events.take(n),
    decreases events.len(),
{
    reveal(Seq::filter);
    if events.len() > n {
        let rest = events.drop_last();
        assert forall|k: int| n <= k < rest.len() implies !((
        #[trigger] rest[k]) is ToolExecutionStart) by {
            assert(rest[k] == events[k]);
        }
        assert forall|k: int| 0 <= k < n implies (#[trigger] rest[k]) is ToolExecutionStart by {
            assert(rest[k] == events[k]);
        }
        lemma_starts(rest, n);
        assert(rest.take(n) =~= events.take(n));
    } else if n == 1 {
        assert(events.drop_last() =~= Seq::empty());
        assert(events.drop_last().filter(|e: AgentEvent| e is ToolExecutionStart)
            =~= Seq::empty());
        assert(events.filter(|e: AgentEvent| e is ToolExecutionStart) =~= events.take(n));
    } else {
        assert(events.filter(|e: AgentEvent| e is ToolExecutionStart) =~= events.take(n));
    }
}

/// A step announces the next call or none; the calls are announced one by
/// one, each in its turn, and a batch that nobody aborts comes to its end
/// with every call answered.
pub proof fn law_calls_are_announced_in_turn(
    before: BatchView,
    input: ToolInput,
    tools: Seq<ToolInfo>,
    now: u64,
    after: BatchView,
    events: Seq<AgentEvent>,
    action: ToolAction,
)
    requires
        batch_ok(before),
        steps(before, input, tools, now, after, events, action),
    ensures
        after.calls == before.calls,
        announced(before) <= announced(after) <= announced(before) + 1,
        announced(after) <= after.calls.len(),
        events.filter(|e: AgentEvent| e is ToolExecutionStart) == (if announced(after)
            > announced(before) {
            seq![
                AgentEvent::ToolExecutionStart {
                    tool_call_id: before.calls[announced(before)].id,
                    tool_name: before.calls[announced(before)].name,
                },
            ]
        } else {
            Seq::empty()
        }),
        nothing_skipped(before) && !(input matches ToolInput::Next { cancelled: true })
            ==> nothing_skipped(after),
        action is Finished ==> after.stage == Stage::Finished && after.results.len()
            == after.slots.len() && forall|k: int|
            0 <= k < after.results.len() ==> (#[trigger] after.results[k]).tool_call_id
                == after.calls[k].id && after.results[k].tool_name == after.calls[k].name,
{
    let n = before.slots.len() as int;
    let moves = announced(after) > announced(before);
    match (before.stage, input) {
        (Stage::Preparing, ToolInput::Next { cancelled }) => {
            if n < before.calls.len() && !(n > 0 && cancelled) {
                assert forall|k: int| 1 <= k < events.len() implies !((
                #[trigger] events[k]) is ToolExecutionStart) by {
                    assert(events.skip(1)[k - 1] == events[k]);
                    if k == 2 {
                        assert(events.skip(1)[1] == events[2]);
                    }
                }
                lemma_starts(events, 1);
                assert(events.take(1) =~= seq![start_event(before.calls[n])]);
            } else if running(before.slots, n).len() == 0 && !before.sequential {
                assert forall|k: int| 0 <= k < events.len() implies !((
                #[trigger] events[k]) is ToolExecutionStart) by {
                    assert(is_result_event(events[k], after.results[k]));
                }
                lemma_starts(events, 0);
                assert(events.take(0) =~= Seq::empty());
            } else {
                lemma_starts(events, 0);
                assert(events.take(0) =~= Seq::empty());
            }
        },
        (Stage::Running, ToolInput::Executed { slot, result, after: said }) => {
            if slot < n && before.slots[slot as int].outcome is None {
                assert forall|k: int| 0 <= k < events.len() implies !((
                #[trigger] events[k]) is ToolExecutionStart) by {
                    if k > 0 && !before.sequential && running(after.slots, n).len() == 0 {
                        assert(events.skip(1)[k - 1] == events[k]);
                        assert(is_result_event(events.skip(1)[k - 1], after.results[k - 1]));
                    }
                }
            }
            lemma_starts(events, 0);
            assert(events.take(0) =~= Seq::empty());
        },
        _ => {
            lemma_starts(events, 0);
            assert(events.take(0) =~= Seq::empty());
        },
    }
    if action is Finished {
        assert forall|k: int| 0 <= k < after.results.len() implies (
        #[trigger] after.results[k]).tool_call_id == after.calls[k].id
            && after.results[k].tool_name == after.calls[k].name by {
            assert(answers(*after.results[k], after.slots[k]));
            assert(before.slots[k].call == before.calls[k]);
            if before.stage == Stage::Running {
                let slot = input->Executed_slot as int;
                if k != slot {
                    assert(after.slots[k] == before.slots[k]);
                }
            }
        }
    }
}

/// All that was announced and has no answer yet is handed out to be run
/// together, each call once and in order.
pub proof fn law_what_waits_is_run(slots: Seq<Slot>, n: int)
    requires
        0 <= n <= slots.len(),
    ensures
        forall|k: int|
            running(slots, n).contains(k) <==> 0 <= k < n && (#[trigger] slots[k]).outcome is None,
        forall|i: int, j: int|
            0 <= i < j < running(slots, n).len() ==> (#[trigger] running(slots, n)[i])
                < #[trigger] running(slots, n)[j],
    decreases n,
{
    let r = running(slots, n);
    if n > 0 {
        law_what_waits_is_run(slots, n - 1);
        let p = running(slots, n - 1);
        assert forall|k: int|
            r.contains(k) <==> 0 <= k < n && (#[trigger] slots[k]).outcome is None by {
            if slots[n - 1].outcome is None {
                if k == n - 1 {
                    assert(r[r.len() - 1] == k);
                } else if p.contains(k) {
                    let i = choose|i: int| 0 <= i < p.len() && p[i] == k;
                    assert(r[i] == k);
                } else if r.contains(k) {
                    let i = choose|i: int| 0 <= i < r.len() && r[i] == k;
                    assert(p[i] == k);
                }
            }
        }
        assert forall|i: int, j: int| 0 <= i < j < r.len() implies (#[trigger] r[i])
            < #[trigger] r[j] by {
            assert(r[i] == p[i]);
            if j < p.len() {
                assert(r[j] == p[j]);
                assert(p[i] < p[j]);
            } else {
                assert(p.contains(p[i]));
                assert(slots[p[i]].outcome is None);
            }
        }
    }
}

/// A call is refused before anyone is asked exactly when no tool has its
/// name, or its arguments are no object; the refusal names the tool.
pub proof fn law_calls_are_refused_for_a_reason(call: ToolCall, tools: Seq<ToolInfo>)
    ensures
        call_error(call, tools) is None <==> (exists|i: int|
            0 <= i < tools.len() && (#[trigger] tools[i]).name@ == call.name@)
            && call.arguments@.len() > 0 && call.arguments@[0] == '{',
        call_error(call, tools) matches Some(e) ==> exists|a: Seq<char>, b: Seq<char>|
            e == #[trigger] (a + call.name@ + b),
{
    lemma_tool_named(tools, call.name@, 0);
}

proof fn lemma_tool_named(tools: Seq<ToolInfo>, name: Seq<char>, from: int)
    requires
        0 <= from,
    ensures
        match tool_named(tools, name, from) {
            Some(i) => from <= i < tools.len() && tools[i].name@ == name && forall|j: int|
                from <= j < i ==> (#[trigger] tools[j]).name@ != name,
            None => forall|j: int|
                from <= j < tools.len() ==> (#[trigger] tools[j]).name@ != name,
        },
    decreases tools.len() - from,
{
    if from < tools.len() && tools[from].name@ != name {
        lemma_tool_named(tools, name, from + 1);
    }
}

/// A name means the first tool that has it.
pub proof fn law_names_find_the_first_tool(tools: Seq<ToolInfo>, name: Seq<char>)
    ensures
        match tool_named(tools, name, 0) {
            Some(i) => 0 <= i < tools.len() && tools[i].name@ == name && forall|j: int|
                0 <= j < i ==> (#[trigger] tools[j]).name@ != name,
            None => forall|j: int| 0 <= j < tools.len() ==> (#[trigger] tools[j]).name@ != name,
        },
{
    lemma_tool_named(tools, name, 0);
}

/// Nothing stands against a call exactly when the run goes on and no hook
/// blocks it.
pub proof fn law_only_blocks_and_aborts_stop_a_call(
    before: Option<BeforeToolCallResult>,
    cancelled: bool,
)
    ensures
        objection(before, cancelled) is None <==> !cancelled && (before matches Some(b)
            ==> !b.block),
        !cancelled && (before matches Some(b) && b.block && b.reason is Some) ==> objection(
            before,
            cancelled,
        ) == Some(before.unwrap().reason.unwrap()@),
{
}

/// What a tool returned reaches the model as it is where no hook changed it,
/// and a failure reaches it as an error in the tool's own words.
pub proof fn law_results_pass_unchanged(o: Outcome, result: Result<AgentToolResult, String>)
    requires
        is_finalized(o, result, None),
    ensures
        result matches Ok(r) ==> o.result.content == r.content && o.result.details == r.details
            && o.result.terminate == r.terminate && !o.is_error,
        result matches Err(e) ==> o.is_error && !o.result.terminate && messages::content_text(
            o.result.content@,
        ) == e@,
{
    if let Err(e) = result {
        reveal_with_fuel(messages::text_parts, 2);
        assert(messages::text_parts(o.result.content@, 1) =~= seq![e@]);
    }
}

/// A run ends with its tools only if there are calls and every one of them
/// asked for it.
pub proof fn law_one_call_keeps_a_run_going(slots: Seq<Slot>, k: int)
    requires
        0 <= k < slots.len(),
        slots[k].outcome matches Some(o) ==> !o.result.terminate,
    ensures
        !all_terminate(slots),
        !all_terminate(Seq::empty()),
{
    assert(!asks_to_end(slots[k]));
}

/// One call of a tool that wants to run alone is enough for all to run one
/// after the other, whichever call that is; without such a tool they need
/// not.
pub proof fn law_one_tool_can_ask_for_turns(
    calls: Seq<ToolCall>,
    tools: Seq<ToolInfo>,
    k: int,
    i: int,
)
    ensures
        0 <= k < calls.len() && 0 <= i < tools.len() && tools[i].name@ == calls[k].name@
            && tools[i].sequential && (forall|j: int|
            0 <= j < i ==> (#[trigger] tools[j]).name@ != calls[k].name@) ==> wants_sequence(
            calls,
            tools,
        ),
        (forall|j: int| 0 <= j < tools.len() ==> !(#[trigger] tools[j]).sequential)
            ==> !wants_sequence(calls, tools),
{
    if 0 <= k < calls.len() {
        law_names_find_the_first_tool(tools, calls[k].name@);
    }
    if forall|j: int| 0 <= j < tools.len() ==> !(#[trigger] tools[j]).sequential {
        assert forall|n: int| 0 <= n < calls.len() implies !(tool_named(
            tools,
            (#[trigger] calls[n]).name@,
            0,
        ) matches Some(m) && tools[m].sequential) by {
            law_names_find_the_first_tool(tools, calls[n].name@);
        }
    }
}

} // verus!
