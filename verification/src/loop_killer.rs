//! The loop killer: blocks a tool call that repeats back to back, with
//! identical arguments, more often than the settings allow.
//!
//! Only calls in a row count: any other call in between starts over, so
//! that reading, editing and reading again stays allowed.
use vstd::prelude::*;

use crate::guard::BashGuard;
use crate::messages::ToolCall;
use crate::text::{concat3, decimal_text};
use crate::types::BeforeToolCallResult;
use crate::{guard, resources, text};

verus! {

/// Counts how often the same call came in a row.
#[derive(Debug)]
pub struct LoopKiller {
    limit: Option<u32>,
    last_key: Option<String>,
    seen: u32,
}

/// The limit, the last call and how often it came in a row.
pub struct LoopKillerView {
    pub limit: Option<u32>,
    pub last_key: Option<Seq<char>>,
    pub seen: u32,
}

impl View for LoopKiller {
    type V = LoopKillerView;

    closed spec fn view(&self) -> LoopKillerView {
        LoopKillerView {
            limit: self.limit,
            last_key: resources::opt(self.last_key),
            seen: self.seen,
        }
    }
}

/// What makes two calls the same: the name and the arguments, not the id.
pub open spec fn key_of(call: ToolCall) -> Seq<char> {
    call.name@ + "\n"@ + call.arguments@
}

/// How often a call came in a row, with this one.
pub open spec fn times(v: LoopKillerView, key: Seq<char>) -> u32 {
    if v.last_key == Some(key) {
        if v.seen < u32::MAX {
            (v.seen + 1) as u32
        } else {
            u32::MAX
        }
    } else {
        1
    }
}

/// The count after a call. Where it is switched off nothing is counted.
pub open spec fn noted(v: LoopKillerView, call: ToolCall) -> LoopKillerView {
    if v.limit is None {
        v
    } else {
        LoopKillerView { last_key: Some(key_of(call)), seen: times(v, key_of(call)), ..v }
    }
}

/// What the model is told of a repeated call.
pub open spec fn repeat_text(name: Seq<char>, seen: nat, limit: nat) -> Seq<char> {
    "Loop killer: this exact call ("@ + name
        + " with identical arguments) has now\n                been requested "@ + text::decimal(
        seen,
    ) + " times in a row; settings allow "@ + text::decimal(limit)
        + " repeats (loopKiller.maxRepeats). Repeating it will keep producing the same result. Take a DIFFERENT approach: change the arguments, use another\n                tool, work with what you already learned, or ask user how to proceed."@
}

/// The verdict on a call: blocked once it came more often than allowed.
pub open spec fn repeat_verdict(v: LoopKillerView, call: ToolCall) -> Option<Seq<char>> {
    match v.limit {
        Some(limit) => {
            let seen = times(v, key_of(call));
            if seen > limit {
                Some(repeat_text(call.name@, seen as nat, limit as nat))
            } else {
                None
            }
        },
        None => None,
    }
}

impl LoopKiller {
    /// A loop killer with a limit, or one that is switched off.
    pub fn new(limit: Option<u32>) -> (r: LoopKiller)
        ensures
            r@ == (LoopKillerView { limit, last_key: None, seen: 0 }),
    {
        LoopKiller { limit, last_key: None, seen: 0 }
    }

    /// Counts a call and says whether it is blocked, and why.
    pub fn note_call(&mut self, call: &ToolCall) -> (r: Option<String>)
        ensures
            final(self)@ == noted(old(self)@, *call),
            resources::opt(r) == repeat_verdict(old(self)@, *call),
    {
        let limit: u32 = match self.limit {
            Some(n) => n,
            None => return None,
        };
        let key = concat3(call.name.as_str(), "\n", call.arguments.as_str());
        let again = match &self.last_key {
            Some(last) => *last == key,
            None => false,
        };
        let seen: u32 = if again {
            if self.seen < u32::MAX {
                self.seen + 1
            } else {
                u32::MAX
            }
        } else {
            1
        };
        self.last_key = Some(key);
        self.seen = seen;
        if seen > limit {
            let mut out = concat3(
                "Loop killer: this exact call (",
                call.name.as_str(),
                " with identical arguments) has now\n                been requested ",
            );
            out.push_str(decimal_text(seen as u64).as_str());
            out.push_str(" times in a row; settings allow ");
            out.push_str(decimal_text(limit as u64).as_str());
            out.push_str(
                " repeats (loopKiller.maxRepeats). Repeating it will keep producing the same result. Take a DIFFERENT approach: change the arguments, use another\n                tool, work with what you already learned, or ask user how to proceed.",
            );
            Some(out)
        } else {
            None
        }
    }
}

/// The count after the same call came `n` times.
pub open spec fn noted_times(v: LoopKillerView, call: ToolCall, n: nat) -> LoopKillerView
    decreases n,
{
    if n == 0 {
        v
    } else {
        noted(noted_times(v, call, (n - 1) as nat), call)
    }
}

/// How often a call came in a row so far.
pub open spec fn in_a_row(v: LoopKillerView, call: ToolCall) -> nat {
    if v.last_key == Some(key_of(call)) {
        v.seen as nat
    } else {
        0
    }
}

/// Identical calls in a row run up to the limit, and every further one is
/// blocked, whatever was called before: those that came in a row already
/// count, and all others do not.
pub proof fn law_repeats_run_up_to_the_limit(v: LoopKillerView, call: ToolCall, n: nat)
    requires
        v.limit is Some,
        in_a_row(v, call) + n < u32::MAX,
    ensures
        ({
            let w = noted_times(v, call, n);
            let seen = in_a_row(v, call) + n;
            (repeat_verdict(w, call) is None) == (seen < v.limit.unwrap()) && w.limit == v.limit
                && in_a_row(w, call) == seen
        }),
    decreases n,
{
    if n > 0 {
        law_repeats_run_up_to_the_limit(v, call, (n - 1) as nat);
    }
}

/// Another call starts over.
pub proof fn law_another_call_starts_over(v: LoopKillerView, a: ToolCall, b: ToolCall)
    requires
        v.limit matches Some(n) && n >= 1,
        key_of(a) != key_of(b),
    ensures
        repeat_verdict(noted(v, a), b) is None,
        repeat_verdict(noted(noted(v, a), b), a) is None,
{
}

/// What stands before every tool call of a session.
#[derive(Debug)]
pub struct SessionHooks {
    guard: BashGuard,
    loop_killer: LoopKiller,
}

/// The deny list and the loop killer.
pub struct HooksView {
    pub rules: Seq<Seq<char>>,
    pub killer: LoopKillerView,
}

impl View for SessionHooks {
    type V = HooksView;

    closed spec fn view(&self) -> HooksView {
        HooksView { rules: self.guard@, killer: self.loop_killer@ }
    }
}

impl SessionHooks {
    /// Both together.
    pub fn new(guard: BashGuard, loop_killer: LoopKiller) -> (r: SessionHooks)
        ensures
            r@ == (HooksView { rules: guard@, killer: loop_killer@ }),
    {
        SessionHooks { guard, loop_killer }
    }

    /// Says whether a call may run. The loop killer counts every call, also
    /// those that the deny list blocks, and speaks first.
    pub fn before_tool_call(&mut self, call: &ToolCall) -> (r: Option<BeforeToolCallResult>)
        ensures
            final(self)@ == (HooksView { killer: noted(old(self)@.killer, *call), ..old(self)@ }),
            guard::answers(
                r,
                match repeat_verdict(old(self)@.killer, *call) {
                    Some(s) => Some(s),
                    None => guard::verdict(old(self)@.rules, *call),
                },
            ),
    {
        if let Some(reason) = self.loop_killer.note_call(call) {
            return Some(BeforeToolCallResult { block: true, reason: Some(reason) });
        }
        self.guard.before_tool_call(call)
    }
}

/// Two calls are the same when they name one tool with the same arguments,
/// whatever their ids; a difference in either makes them different.
pub proof fn law_calls_are_told_apart(a: ToolCall, b: ToolCall)
    requires
        !a.name@.contains('\n') && !b.name@.contains('\n'),
    ensures
        key_of(a) == key_of(b) <==> a.name@ == b.name@ && a.arguments@ == b.arguments@,
{
    reveal_strlit("\n");
    let x = key_of(a);
    let y = key_of(b);
    if x == y {
        let n = a.name@.len() as int;
        let m = b.name@.len() as int;
        assert(x[n] == '\n' && y[m] == '\n');
        if n < m {
            assert(y[n] == b.name@[n]);
            assert(b.name@.contains('\n'));
        }
        if m < n {
            assert(x[m] == a.name@[m]);
            assert(a.name@.contains('\n'));
        }
        assert(a.name@ =~= x.take(n));
        assert(b.name@ =~= y.take(n));
        assert(a.arguments@ =~= x.skip(n + 1));
        assert(b.arguments@ =~= y.skip(n + 1));
    }
}

/// A loop killer that is switched off blocks nothing and counts nothing.
pub proof fn law_switched_off_it_does_nothing(v: LoopKillerView, call: ToolCall)
    requires
        v.limit is None,
    ensures
        repeat_verdict(v, call) is None,
        noted(v, call) == v,
{
}

/// What the model is told names the tool and both numbers.
pub proof fn law_the_model_is_told_the_numbers(v: LoopKillerView, call: ToolCall)
    ensures
        repeat_verdict(v, call) matches Some(s) ==> (exists|
            a: Seq<char>,
            b: Seq<char>,
            c: Seq<char>,
            d: Seq<char>,
        |
            s == #[trigger] (a + call.name@ + b + text::decimal(times(v, key_of(call)) as nat) + c
                + text::decimal(v.limit.unwrap() as nat) + d)),
{
    if let Some(s) = repeat_verdict(v, call) {
        let a = "Loop killer: this exact call ("@;
        let b = " with identical arguments) has now\n                been requested "@;
        let c = " times in a row; settings allow "@;
        let d =
            " repeats (loopKiller.maxRepeats). Repeating it will keep producing the same result. Take a DIFFERENT approach: change the arguments, use another\n                tool, work with what you already learned, or ask user how to proceed."@;
        assert(s == a + call.name@ + b + text::decimal(times(v, key_of(call)) as nat) + c
            + text::decimal(v.limit.unwrap() as nat) + d);
    }
}

} // verus!
