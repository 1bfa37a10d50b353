//! The notices of the interface: lists and short reports, in words.
use std::sync::Arc;

use vstd::prelude::*;

use crate::commands::{builtin_commands, PromptTemplate, TemplateView, BUILTIN_COUNT};
use crate::credentials::{Credentials, CredentialsView};
use crate::dates::date_ymd;
use crate::durations::millis_text;
use crate::models::Model;
use crate::providers::catalog_providers;
use crate::session::SessionSummary;
use crate::text::{concat2, concat3, decimal_text, same_str};
use crate::types::CompactionReason;
use crate::{commands, credentials, dates, durations, providers, text};

verus! {

/// A command as the help lists it.
pub open spec fn command_line(name: Seq<char>, description: Seq<char>) -> Seq<char> {
    "\n  /"@ + name + "  - "@ + description
}

/// The first `n` built-in commands, one per line.
pub open spec fn builtin_lines(n: int) -> Seq<char>
    decreases n,
{
    if n <= 0 {
        Seq::empty()
    } else {
        builtin_lines(n - 1) + command_line(
            commands::builtin_name(n - 1),
            commands::builtin_description(n - 1),
        )
    }
}

/// The first `n` templates, one per line.
pub open spec fn template_lines(list: Seq<TemplateView>, n: int) -> Seq<char>
    decreases n,
{
    if n <= 0 {
        Seq::empty()
    } else {
        template_lines(list, n - 1) + command_line(list[n - 1].name, list[n - 1].description)
    }
}

/// All commands and templates.
pub open spec fn help_of(list: Seq<TemplateView>) -> Seq<char> {
    "commands:"@ + builtin_lines(BUILTIN_COUNT as int) + (if list.len() > 0 {
        "\nprompt templates:"@ + template_lines(list, list.len() as int)
    } else {
        Seq::empty()
    })
}

fn push_command(out: &mut String, name: &str, description: &str)
    ensures
        final(out)@ == old(out)@ + command_line(name@, description@),
{
    let ghost before = out@;
    out.push_str("\n  /");
    out.push_str(name);
    out.push_str("  - ");
    out.push_str(description);
    assert(out@ =~= before + command_line(name@, description@));
}

/// Lists all commands and templates.
pub fn help_notice(templates: &Vec<PromptTemplate>) -> (r: String)
    ensures
        r@ == help_of(commands::template_views(templates@)),
{
    let list = builtin_commands();
    let mut out = "commands:".to_owned();
    let ghost start = out@;
    let mut i: usize = 0;
    assert(out@ =~= start + builtin_lines(0));
    while i < list.len()
        invariant
            i <= list@.len(),
            list@.len() == BUILTIN_COUNT,
            forall|k: int|
                0 <= k < BUILTIN_COUNT ==> (#[trigger] list@[k]).name@ == commands::builtin_name(k)
                    && list@[k].description@ == commands::builtin_description(k),
            out@ == start + builtin_lines(i as int),
        decreases list@.len() - i,
    {
        push_command(&mut out, list[i].name, list[i].description);
        assert(out@ =~= start + builtin_lines(i + 1));
        i += 1;
    }
    let ghost views = commands::template_views(templates@);
    if templates.len() > 0 {
        out.push_str("\nprompt templates:");
        let ghost head = out@;
        let mut k: usize = 0;
        assert(out@ =~= head + template_lines(views, 0));
        while k < templates.len()
            invariant
                k <= templates@.len(),
                views == commands::template_views(templates@),
                out@ == head + template_lines(views, k as int),
            decreases templates@.len() - k,
        {
            assert(views[k as int] == templates@[k as int]@);
            push_command(
                &mut out,
                templates[k].name.as_str(),
                templates[k].description.as_str(),
            );
            assert(out@ =~= head + template_lines(views, k + 1));
            k += 1;
        }
    }
    assert(out@ =~= help_of(views));
    out
}

/// The first `n` models, one per line.
pub open spec fn model_lines(v: Seq<Arc<Model>>, n: int) -> Seq<char>
    decreases n,
{
    if n <= 0 {
        Seq::empty()
    } else {
        model_lines(v, n - 1) + "\n  "@ + v[n - 1].id@ + "  ("@ + v[n - 1].provider@ + ")"@
    }
}

/// Lists the models.
pub fn models_notice(v: &Vec<Arc<Model>>) -> (r: String)
    ensures
        r@ == "available models (/model <id>):"@ + model_lines(v@, v@.len() as int),
{
    let mut out = "available models (/model <id>):".to_owned();
    let ghost head = out@;
    let mut i: usize = 0;
    assert(out@ =~= head + model_lines(v@, 0));
    while i < v.len()
        invariant
            i <= v@.len(),
            out@ == head + model_lines(v@, i as int),
        decreases v@.len() - i,
    {
        out.push_str("\n  ");
        out.push_str(v[i].id.as_str());
        out.push_str("  (");
        out.push_str(v[i].provider.as_str());
        out.push_str(")");
        assert(out@ =~= head + model_lines(v@, i + 1));
        i += 1;
    }
    out
}

/// The first `n` providers with their default models and their credentials,
/// one per line.
pub open spec fn provider_lines(
    list: Seq<(String, Arc<Model>)>,
    c: CredentialsView,
    models: Seq<Arc<Model>>,
    n: int,
) -> Seq<char>
    decreases n,
{
    if n <= 0 {
        Seq::empty()
    } else {
        provider_lines(list, c, models, n - 1) + "\n  "@ + list[n - 1].0@ + "  - default "@ + list[n
            - 1].1.id@ + ", "@ + credentials::status_of(c, models, list[n - 1].0@)
    }
}

/// All providers with their credentials.
pub open spec fn providers_of(c: CredentialsView, models: Seq<Arc<Model>>) -> Seq<char> {
    let list = providers::providers_of(models, models.len() as int);
    "providers (/provider <name> [api-key]):"@ + provider_lines(
        list,
        c,
        models,
        list.len() as int,
    )
}

/// Lists the providers, each with its default model and its credentials.
pub fn providers_notice(c: &Credentials, models: &Vec<Arc<Model>>) -> (r: String)
    ensures
        r@ == providers_of(c@, models@),
{
    let list = catalog_providers(models);
    let mut out = "providers (/provider <name> [api-key]):".to_owned();
    let ghost head = out@;
    let mut i: usize = 0;
    assert(out@ =~= head + provider_lines(list@, c@, models@, 0));
    while i < list.len()
        invariant
            i <= list@.len(),
            out@ == head + provider_lines(list@, c@, models@, i as int),
        decreases list@.len() - i,
    {
        let status = c.status(models, list[i].0.as_str());
        out.push_str("\n  ");
        out.push_str(list[i].0.as_str());
        out.push_str("  - default ");
        out.push_str(list[i].1.id.as_str());
        out.push_str(", ");
        out.push_str(status.as_str());
        assert(out@ =~= head + provider_lines(list@, c@, models@, i + 1));
        i += 1;
    }
    out
}

/// A session as the listing shows it. The current one is marked.
pub open spec fn session_line(s: SessionSummary, current: Seq<char>) -> Seq<char> {
    (if s.id@ == current {
        "\n* "@
    } else {
        "\n  "@
    }) + s.id@ + "  "@ + dates::day_text(s.started_at as int / 1000 / 86_400) + "  "@
        + text::decimal(s.message_count as nat) + " msgs  "@ + s.model@ + "  "@ + s.label@
}

/// The first `n` sessions, one per line.
pub open spec fn session_lines(v: Seq<SessionSummary>, current: Seq<char>, n: int) -> Seq<char>
    decreases n,
{
    if n <= 0 {
        Seq::empty()
    } else {
        session_lines(v, current, n - 1) + session_line(v[n - 1], current)
    }
}

/// The current session, and all sessions of the project where they are kept.
pub open spec fn sessions_text(current: Seq<char>, kept: Option<Seq<SessionSummary>>) -> Seq<char> {
    "current session: "@ + current + " (resume later with `cupel --resume "@ + current + "`)"@ + (
    match kept {
        None => "\nsession persistence is disabled (no cupel home) - nothing to list"@,
        Some(v) => "\nsessions for this project ("@ + text::decimal(v.len()) + "):"@
            + session_lines(v, current, v.len() as int),
    })
}

fn push_session(out: &mut String, s: &SessionSummary, current: &str)
    ensures
        final(out)@ == old(out)@ + session_line(*s, current@),
{
    let ghost before = out@;
    if same_str(s.id.as_str(), current) {
        out.push_str("\n* ");
    } else {
        out.push_str("\n  ");
    }
    out.push_str(s.id.as_str());
    out.push_str("  ");
    out.push_str(date_ymd(s.started_at).as_str());
    out.push_str("  ");
    out.push_str(decimal_text(s.message_count as u64).as_str());
    out.push_str(" msgs  ");
    out.push_str(s.model.as_str());
    out.push_str("  ");
    out.push_str(s.label.as_str());
    assert(out@ =~= before + session_line(*s, current@));
}

/// Shows the current session, and lists all sessions of the project where
/// they are kept.
pub fn sessions_notice(current: &str, kept: &Option<Vec<SessionSummary>>) -> (r: String)
    ensures
        r@ == sessions_text(
            current@,
            match kept {
                Some(v) => Some(v@),
                None => None,
            },
        ),
{
    let mut out = concat3("current session: ", current, " (resume later with `cupel --resume ");
    out.push_str(current);
    out.push_str("`)");
    match kept {
        None => {
            out.push_str("\nsession persistence is disabled (no cupel home) - nothing to list");
        },
        Some(v) => {
            let ghost start = out@;
            let mut tail = concat3(
                "\nsessions for this project (",
                decimal_text(v.len() as u64).as_str(),
                "):",
            );
            let ghost head = tail@;
            let mut i: usize = 0;
            assert(tail@ =~= head + session_lines(v@, current@, 0));
            while i < v.len()
                invariant
                    i <= v@.len(),
                    tail@ == head + session_lines(v@, current@, i as int),
                decreases v@.len() - i,
            {
                push_session(&mut tail, &v[i], current);
                assert(tail@ =~= head + session_lines(v@, current@, i + 1));
                i += 1;
            }
            out.push_str(tail.as_str());
        },
    }
    out
}

/// What is said when compaction starts.
pub fn compaction_started(reason: CompactionReason) -> (r: String)
    ensures
        r@ == (match reason {
            CompactionReason::Threshold => "compacting context (context filling up)..."@,
            CompactionReason::Overflow => "compacting context (context overflow)..."@,
        }),
{
    match reason {
        CompactionReason::Threshold => "compacting context (context filling up)...".to_owned(),
        CompactionReason::Overflow => "compacting context (context overflow)...".to_owned(),
    }
}

/// What is said when compaction ended.
pub open spec fn compaction_text(before: u64, after: u64, error: Option<Seq<char>>) -> Seq<char> {
    match error {
        None => "context compacted: ~"@ + text::decimal((before / 1000) as nat) + "k -> ~"@
            + text::decimal((after / 1000) as nat) + "k tokens"@,
        Some(e) => "compaction failed: "@ + e,
    }
}

/// Says how compaction ended.
pub fn compaction_ended(before: u64, after: u64, error: &Option<String>) -> (r: String)
    ensures
        r@ == compaction_text(before, after, crate::resources::opt(*error)),
{
    match error {
        None => {
            let mut out = concat3(
                "context compacted: ~",
                decimal_text(before / 1000).as_str(),
                "k -> ~",
            );
            out.push_str(decimal_text(after / 1000).as_str());
            out.push_str("k tokens");
            out
        },
        Some(e) => concat2("compaction failed: ", e.as_str()),
    }
}

/// What is said of a retry.
pub open spec fn retry_text(attempt: u32, most: u32, delay_ms: u64, error: Seq<char>) -> Seq<char> {
    "retrying in "@ + durations::of_millis(delay_ms) + " (attempt "@ + text::decimal(
        attempt as nat,
    ) + "/"@ + text::decimal(most as nat) + "): "@ + error
}

/// Says that a request will be made again.
pub fn retry_notice(attempt: u32, most: u32, delay_ms: u64, error: &str) -> (r: String)
    ensures
        r@ == retry_text(attempt, most, delay_ms, error@),
{
    let mut out = concat3("retrying in ", millis_text(delay_ms).as_str(), " (attempt ");
    out.push_str(decimal_text(attempt as u64).as_str());
    out.push_str("/");
    out.push_str(decimal_text(most as u64).as_str());
    out.push_str("): ");
    out.push_str(error);
    out
}

proof fn lemma_builtin_line(i: int, n: int)
    requires
        0 <= i < n,
    ensures
        text::stands_in(
            command_line(commands::builtin_name(i), commands::builtin_description(i)),
            builtin_lines(n),
        ),
    decreases n,
{
    let part = command_line(commands::builtin_name(i), commands::builtin_description(i));
    let none = Seq::<char>::empty();
    let before = builtin_lines(n - 1);
    let whole = builtin_lines(n);
    if i == n - 1 {
        assert(whole =~= before + part + none);
        text::lemma_stands(part, whole, before, none);
    } else {
        lemma_builtin_line(i, n - 1);
        let more = command_line(commands::builtin_name(n - 1), commands::builtin_description(n - 1));
        assert(whole =~= none + before + more);
        text::lemma_stands_wider(part, before, none, more);
    }
}

proof fn lemma_template_line(list: Seq<TemplateView>, i: int, n: int)
    requires
        0 <= i < n <= list.len(),
    ensures
        text::stands_in(command_line(list[i].name, list[i].description), template_lines(list, n)),
    decreases n,
{
    let part = command_line(list[i].name, list[i].description);
    let none = Seq::<char>::empty();
    let before = template_lines(list, n - 1);
    let whole = template_lines(list, n);
    if i == n - 1 {
        assert(whole =~= before + part + none);
        text::lemma_stands(part, whole, before, none);
    } else {
        lemma_template_line(list, i, n - 1);
        let more = command_line(list[n - 1].name, list[n - 1].description);
        assert(whole =~= none + before + more);
        text::lemma_stands_wider(part, before, none, more);
    }
}

proof fn lemma_model_line(v: Seq<Arc<Model>>, i: int, n: int)
    requires
        0 <= i < n <= v.len(),
    ensures
        text::stands_in("\n  "@ + v[i].id@ + "  ("@ + v[i].provider@ + ")"@, model_lines(v, n)),
    decreases n,
{
    let part = "\n  "@ + v[i].id@ + "  ("@ + v[i].provider@ + ")"@;
    let none = Seq::<char>::empty();
    let before = model_lines(v, n - 1);
    let whole = model_lines(v, n);
    if i == n - 1 {
        assert(whole =~= before + part + none);
        text::lemma_stands(part, whole, before, none);
    } else {
        lemma_model_line(v, i, n - 1);
        let more = "\n  "@ + v[n - 1].id@ + "  ("@ + v[n - 1].provider@ + ")"@;
        assert(whole =~= none + before + more);
        text::lemma_stands_wider(part, before, none, more);
    }
}

proof fn lemma_provider_line(list: Seq<(String, Arc<Model>)>, c: CredentialsView, models: Seq<Arc<Model>>, i: int, n: int)
    requires
        0 <= i < n <= list.len(),
    ensures
        text::stands_in("\n  "@ + list[i].0@ + "  - default "@ + list[i].1.id@ + ", "@ + credentials::status_of(c, models, list[i].0@), provider_lines(list, c, models, n)),
    decreases n,
{
    let part = "\n  "@ + list[i].0@ + "  - default "@ + list[i].1.id@ + ", "@ + credentials::status_of(c, models, list[i].0@);
    let none = Seq::<char>::empty();
    let before = provider_lines(list, c, models, n - 1);
    let whole = provider_lines(list, c, models, n);
    if i == n - 1 {
        assert(whole =~= before + part + none);
        text::lemma_stands(part, whole, before, none);
    } else {
        lemma_provider_line(list, c, models, i, n - 1);
        let more = "\n  "@ + list[n - 1].0@ + "  - default "@ + list[n - 1].1.id@ + ", "@ + credentials::status_of(c, models, list[n - 1].0@);
        assert(whole =~= none + before + more);
        text::lemma_stands_wider(part, before, none, more);
    }
}

proof fn lemma_session_line(v: Seq<SessionSummary>, current: Seq<char>, i: int, n: int)
    requires
        0 <= i < n <= v.len(),
    ensures
        text::stands_in(session_line(v[i], current), session_lines(v, current, n)),
    decreases n,
{
    let part = session_line(v[i], current);
    let none = Seq::<char>::empty();
    let before = session_lines(v, current, n - 1);
    let whole = session_lines(v, current, n);
    if i == n - 1 {
        assert(whole =~= before + part + none);
        text::lemma_stands(part, whole, before, none);
    } else {
        lemma_session_line(v, current, i, n - 1);
        let more = session_line(v[n - 1], current);
        assert(whole =~= none + before + more);
        text::lemma_stands_wider(part, before, none, more);
    }
}

/// The help names every command of the program and every template, with what
/// it does.
pub proof fn law_help_names_every_command(list: Seq<TemplateView>, k: int)
    ensures
        0 <= k < 12 ==> text::stands_in(
            "\n  /"@ + commands::builtin_name(k) + "  - "@ + commands::builtin_description(k),
            help_of(list),
        ),
        0 <= k < list.len() ==> text::stands_in(
            "\n  /"@ + list[k].name + "  - "@ + list[k].description,
            help_of(list),
        ),
{
    let none = Seq::<char>::empty();
    let a = "commands:"@;
    let b = builtin_lines(12);
    let c = if list.len() > 0 {
        "\nprompt templates:"@ + template_lines(list, list.len() as int)
    } else {
        none
    };
    assert(help_of(list) =~= a + b + c);
    if 0 <= k < 12 {
        let part = "\n  /"@ + commands::builtin_name(k) + "  - "@ + commands::builtin_description(k);
        lemma_builtin_line(k, 12);
        text::lemma_stands_wider(part, b, a, c);
    }
    if 0 <= k < list.len() {
        let part = "\n  /"@ + list[k].name + "  - "@ + list[k].description;
        lemma_template_line(list, k, list.len() as int);
        let d = template_lines(list, list.len() as int);
        assert(help_of(list) =~= (a + b + "\nprompt templates:"@) + d + none);
        text::lemma_stands_wider(part, d, a + b + "\nprompt templates:"@, none);
    }
}

/// The list of models names every model with its provider.
pub proof fn law_every_model_is_named(v: Seq<Arc<Model>>, k: int)
    requires
        0 <= k < v.len(),
    ensures
        text::stands_in(
            "\n  "@ + v[k].id@ + "  ("@ + v[k].provider@ + ")"@,
            model_lines(v, v.len() as int),
        ),
{
    lemma_model_line(v, k, v.len() as int);
}

/// The list of providers names the provider of every model, and says whether
/// there is a key for it.
pub proof fn law_every_provider_is_named(c: CredentialsView, models: Seq<Arc<Model>>, k: int)
    requires
        0 <= k < models.len(),
        providers::first_of_its_provider(models, k),
    ensures
        text::stands_in(
            "\n  "@ + models[k].provider@ + "  - default "@ + models[k].id@ + ", "@
                + credentials::status_of(c, models, models[k].provider@),
            providers_of(c, models),
        ),
{
    let n = models.len() as int;
    let list = providers::providers_of(models, n);
    providers::law_every_provider_is_listed(models, n, k);
    let i = choose|i: int|
        0 <= i < list.len() && (#[trigger] list[i]) == (models[k].provider, models[k]);
    lemma_provider_line(list, c, models, i, list.len() as int);
    let part = "\n  "@ + models[k].provider@ + "  - default "@ + models[k].id@ + ", "@
        + credentials::status_of(c, models, models[k].provider@);
    let none = Seq::<char>::empty();
    let lines = provider_lines(list, c, models, list.len() as int);
    let head = "providers (/provider <name> [api-key]):"@;
    assert(providers_of(c, models) =~= head + lines + none);
    text::lemma_stands_wider(part, lines, head, none);
}

/// The list of sessions has a line for each, with its day, its number of
/// messages, its model and its label, and marks the one that is running.
pub proof fn law_every_session_is_listed(current: Seq<char>, v: Seq<SessionSummary>, k: int)
    requires
        0 <= k < v.len(),
    ensures
        text::stands_in(
            (if v[k].id@ == current {
                "\n* "@
            } else {
                "\n  "@
            }) + v[k].id@ + "  "@ + dates::day_text(v[k].started_at as int / 86_400_000) + "  "@
                + text::decimal(v[k].message_count as nat) + " msgs  "@ + v[k].model@ + "  "@
                + v[k].label@,
            sessions_text(current, Some(v)),
        ),
{
    let none = Seq::<char>::empty();
    let started = v[k].started_at as int;
    assert(started / 1000 / 86_400 == started / 86_400_000);
    lemma_session_line(v, current, k, v.len() as int);
    let lines = session_lines(v, current, v.len() as int);
    let head = "current session: "@ + current + " (resume later with `cupel --resume "@ + current
        + "`)"@ + ("\nsessions for this project ("@ + text::decimal(v.len()) + "):"@);
    assert(sessions_text(current, Some(v)) =~= head + lines + none);
    text::lemma_stands_wider(session_line(v[k], current), lines, head, none);
}

} // verus!
