//! Programs of the user that run when something happens in a session.
//!
//! Every executable file in `hooks/<event>/` below a root runs when the
//! event happens, in the order of the roots and of the names. It gets one
//! JSON object on its standard input. Hooks watch; they never veto.
use vstd::prelude::*;

use crate::{paths, resources, text};

verus! {

/// How long a hook may run, in milliseconds.
pub const HOOK_TIMEOUT_MS: u64 = 60_000;

/// What happened.
#[derive(Debug)]
pub enum HookEvent {
    SessionStart,
    UserPromptSubmit { prompt: String },
    Stop,
    SessionEnd,
}

/// The name of an event.
pub open spec fn event_name(e: HookEvent) -> Seq<char> {
    match e {
        HookEvent::SessionStart => "session-start"@,
        HookEvent::UserPromptSubmit { .. } => "user-prompt-submit"@,
        HookEvent::Stop => "stop"@,
        HookEvent::SessionEnd => "session-end"@,
    }
}

impl HookEvent {
    /// The name of the event, which is also the name of its directory.
    pub fn name(&self) -> (r: &'static str)
        ensures
            r@ == event_name(*self),
    {
        match self {
            HookEvent::SessionStart => "session-start",
            HookEvent::UserPromptSubmit { .. } => "user-prompt-submit",
            HookEvent::Stop => "stop",
            HookEvent::SessionEnd => "session-end",
        }
    }
}

/// What hooks are told of the session.
#[derive(Debug)]
pub struct HookConfig {
    pub roots: Vec<String>,
    pub session_id: String,
    pub session_ref: String,
    pub cwd: String,
}

/// What hooks are told of the session.
pub struct HookConfigView {
    pub roots: Seq<Seq<char>>,
    pub session_id: Seq<char>,
    pub session_ref: Seq<char>,
    pub cwd: Seq<char>,
}

impl View for HookConfig {
    type V = HookConfigView;

    open spec fn view(&self) -> HookConfigView {
        HookConfigView {
            roots: text::texts(self.roots@),
            session_id: self.session_id@,
            session_ref: self.session_ref@,
            cwd: self.cwd@,
        }
    }
}

/// What a hook is told. The prompt is there for prompts only.
#[derive(Debug)]
pub struct HookPayload {
    pub event: String,
    pub session_id: String,
    pub session_ref: String,
    pub cwd: String,
    pub timestamp: u64,
    pub prompt: Option<String>,
}

/// Makes what a hook is told.
pub fn payload(config: &HookConfig, event: &HookEvent, now: u64) -> (r: HookPayload)
    ensures
        r.event@ == event_name(*event),
        r.session_id@ == config.session_id@,
        r.session_ref@ == config.session_ref@,
        r.cwd@ == config.cwd@,
        r.timestamp == now,
        resources::opt(r.prompt) == (match *event {
            HookEvent::UserPromptSubmit { prompt } => Some(prompt@),
            _ => None,
        }),
{
    let prompt = match event {
        HookEvent::UserPromptSubmit { prompt } => Some(prompt.clone()),
        _ => None,
    };
    HookPayload {
        event: event.name().to_owned(),
        session_id: config.session_id.clone(),
        session_ref: config.session_ref.clone(),
        cwd: config.cwd.clone(),
        timestamp: now,
        prompt,
    }
}

/// The directory of an event below a root.
pub open spec fn hook_dir_of(root: Seq<char>, event: Seq<char>) -> Seq<char> {
    paths::joined(paths::joined(root, "hooks"@), event)
}

/// The directory of an event below a root.
pub fn hook_dir(root: &str, event: &str) -> (r: String)
    ensures
        r@ == hook_dir_of(root@, event@),
{
    paths::join(paths::join(root, "hooks").as_str(), event)
}

/// The paths of the executables among the first `n` entries of a directory.
pub open spec fn executables(dir: Seq<char>, entries: Seq<(String, bool)>, n: int) -> Seq<Seq<char>>
    decreases n,
{
    if n <= 0 {
        Seq::empty()
    } else if entries[n - 1].1 {
        executables(dir, entries, n - 1).push(paths::joined(dir, entries[n - 1].0@))
    } else {
        executables(dir, entries, n - 1)
    }
}

/// The hooks of the first `n` roots for an event: the executables of every
/// directory in order, one directory after the other.
pub open spec fn scripts_of(
    roots: Seq<Seq<char>>,
    event: Seq<char>,
    listings: Seq<Vec<(String, bool)>>,
    n: int,
) -> Seq<Seq<char>>
    decreases n,
{
    if n <= 0 {
        Seq::empty()
    } else {
        scripts_of(roots, event, listings, n - 1) + paths::sorted(
            executables(
                hook_dir_of(roots[n - 1], event),
                listings[n - 1]@,
                listings[n - 1]@.len() as int,
            ),
        )
    }
}

/// The hooks to run for an event, given what is in the directories: a name
/// for every file, and whether it can be executed.
pub fn hook_scripts(roots: &Vec<String>, event: &str, listings: &Vec<Vec<(String, bool)>>) -> (r: Vec<
    String,
>)
    requires
        roots@.len() == listings@.len(),
    ensures
        text::texts(r@) == scripts_of(
            text::texts(roots@),
            event@,
            listings@,
            roots@.len() as int,
        ),
{
    let ghost all = text::texts(roots@);
    let mut out: Vec<String> = Vec::new();
    let mut i: usize = 0;
    assert(text::texts(out@) =~= Seq::empty());
    while i < roots.len()
        invariant
            i <= roots@.len() == listings@.len(),
            all == text::texts(roots@),
            text::texts(out@) == scripts_of(all, event@, listings@, i as int),
        decreases roots@.len() - i,
    {
        assert(all[i as int] == roots@[i as int]@);
        let dir = hook_dir(roots[i].as_str(), event);
        let entries = &listings[i];
        let mut found: Vec<String> = Vec::new();
        let mut k: usize = 0;
        assert(text::texts(found@) =~= Seq::empty());
        while k < entries.len()
            invariant
                k <= entries@.len(),
                text::texts(found@) == executables(dir@, entries@, k as int),
            decreases entries@.len() - k,
        {
            if entries[k].1 {
                let ghost before = found@;
                let p = paths::join(dir.as_str(), entries[k].0.as_str());
                found.push(p);
                assert(text::texts(found@) =~= text::texts(before).push(p@));
            }
            k += 1;
        }
        let mut ordered = paths::sort_paths(found);
        let ghost before = out@;
        let ghost added = ordered@;
        out.append(&mut ordered);
        assert(text::texts(out@) =~= text::texts(before) + text::texts(added));
        i += 1;
    }
    out
}

proof fn lemma_executables(dir: Seq<char>, entries: Seq<(String, bool)>, n: int)
    requires
        0 <= n <= entries.len(),
    ensures
        executables(dir, entries, n) == entries.take(n).filter(
            |e: (String, bool)| e.1,
        ).map_values(|e: (String, bool)| paths::joined(dir, e.0@)),
    decreases n,
{
    reveal(Seq::filter);
    let shown = entries.take(n).filter(|e: (String, bool)| e.1).map_values(
        |e: (String, bool)| paths::joined(dir, e.0@),
    );
    if n > 0 {
        lemma_executables(dir, entries, n - 1);
        assert(entries.take(n).drop_last() =~= entries.take(n - 1));
        assert(entries.take(n).last() == entries[n - 1]);
        assert(executables(dir, entries, n) =~= shown);
    } else {
        assert(entries.take(n) =~= Seq::empty());
        assert(executables(dir, entries, n) =~= shown);
    }
}

/// Every file that can be executed is a hook, and no other is.
pub proof fn law_every_executable_is_a_hook(dir: Seq<char>, entries: Seq<(String, bool)>)
    ensures
        executables(dir, entries, entries.len() as int) == entries.filter(
            |e: (String, bool)| e.1,
        ).map_values(|e: (String, bool)| paths::joined(dir, e.0@)),
{
    lemma_executables(dir, entries, entries.len() as int);
    assert(entries.take(entries.len() as int) =~= entries);
}

/// The hooks of one root run before those of the next, each root's in the
/// order of their paths, and none is left out.
pub proof fn law_hooks_run_root_by_root(
    roots: Seq<Seq<char>>,
    event: Seq<char>,
    listings: Seq<Vec<(String, bool)>>,
    n: int,
)
    requires
        0 <= n < roots.len() == listings.len(),
    ensures
        ({
            let before = scripts_of(roots, event, listings, n);
            let after = scripts_of(roots, event, listings, n + 1);
            let here = executables(
                paths::joined(paths::joined(roots[n], "hooks"@), event),
                listings[n]@,
                listings[n]@.len() as int,
            );
            &&& after.len() == before.len() + here.len()
            &&& after.take(before.len() as int) == before
            &&& after.skip(before.len() as int).to_multiset() == here.to_multiset()
            &&& forall|i: int, j: int|
                before.len() <= i < j < after.len() ==> !paths::path_before(
                    #[trigger] after[j],
                    #[trigger] after[i],
                )
        }),
        scripts_of(roots, event, listings, 0) == Seq::<Seq<char>>::empty(),
{
    broadcast use vstd::seq_lib::group_to_multiset_ensures;

    let before = scripts_of(roots, event, listings, n);
    let after = scripts_of(roots, event, listings, n + 1);
    let here = executables(
        hook_dir_of(roots[n], event),
        listings[n]@,
        listings[n]@.len() as int,
    );
    let ordered = paths::sorted(here);
    paths::law_sorting_orders_and_keeps(here);
    assert(after.take(before.len() as int) =~= before);
    assert(after.skip(before.len() as int) =~= ordered);
    assert(ordered.to_multiset().len() == ordered.len());
    assert(here.to_multiset().len() == here.len());
    assert forall|i: int, j: int| before.len() <= i < j < after.len() implies !paths::path_before(
        #[trigger] after[j],
        #[trigger] after[i],
    ) by {
        assert(after[i] == ordered[i - before.len()]);
        assert(after[j] == ordered[j - before.len()]);
    }
}

/// Every kind of event has a directory of its own.
pub proof fn law_events_have_different_names(prompt: String)
    ensures
        event_name(HookEvent::SessionStart) == "session-start"@,
        event_name(HookEvent::UserPromptSubmit { prompt }) == "user-prompt-submit"@,
        event_name(HookEvent::Stop) == "stop"@,
        event_name(HookEvent::SessionEnd) == "session-end"@,
{
}

} // verus!
