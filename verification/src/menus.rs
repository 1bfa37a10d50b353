//! What the completion popup offers besides files.
use std::sync::Arc;

use vstd::prelude::*;

use crate::autocomplete::{Candidate, CandidateView};
use crate::commands::{builtin_commands, PromptTemplate, TemplateView, BUILTIN_COUNT};
use crate::levels::thinking_level_name;
use crate::messages::ThinkingLevel;
use crate::models::Model;
use crate::providers::catalog_providers;
use crate::text::{chars_of, concat3, string_of};
use crate::{autocomplete, commands, levels, providers, session};

verus! {

/// A row that is shown with a description.
pub open spec fn described(value: Seq<char>, description: Seq<char>) -> CandidateView {
    CandidateView { display: value + "  - "@ + description, value, is_dir: false }
}

fn describe(value: &str, description: &str) -> (r: Candidate)
    ensures
        r@ == described(value@, description@),
{
    Candidate {
        display: concat3(value, "  - ", description),
        value: value.to_owned(),
        is_dir: false,
    }
}

/// The commands, built-in ones first.
pub open spec fn command_rows(list: Seq<TemplateView>) -> Seq<CandidateView> {
    Seq::new(
        BUILTIN_COUNT as nat,
        |k: int| described(commands::builtin_name(k), commands::builtin_description(k)),
    ) + list.map_values(|t: TemplateView| described(t.name, t.description))
}

/// Offers the commands, built-in ones first.
pub fn command_candidates(templates: &Vec<PromptTemplate>) -> (r: Vec<Candidate>)
    ensures
        autocomplete::candidate_views(r@) == command_rows(commands::template_views(templates@)),
{
    let list = builtin_commands();
    let mut out: Vec<Candidate> = Vec::new();
    let mut i: usize = 0;
    while i < list.len()
        invariant
            i <= list@.len(),
            list@.len() == BUILTIN_COUNT,
            forall|k: int|
                0 <= k < BUILTIN_COUNT ==> (#[trigger] list@[k]).name@ == commands::builtin_name(k)
                    && list@[k].description@ == commands::builtin_description(k),
            out@.len() == i,
            forall|k: int|
                0 <= k < i ==> (#[trigger] out@[k])@ == described(
                    commands::builtin_name(k),
                    commands::builtin_description(k),
                ),
        decreases list@.len() - i,
    {
        out.push(describe(list[i].name, list[i].description));
        i += 1;
    }
    let ghost views = commands::template_views(templates@);
    let mut k: usize = 0;
    while k < templates.len()
        invariant
            k <= templates@.len(),
            views == commands::template_views(templates@),
            out@.len() == BUILTIN_COUNT + k,
            forall|j: int|
                0 <= j < BUILTIN_COUNT ==> (#[trigger] out@[j])@ == described(
                    commands::builtin_name(j),
                    commands::builtin_description(j),
                ),
            forall|j: int|
                BUILTIN_COUNT <= j < BUILTIN_COUNT + k ==> (#[trigger] out@[j])@ == described(
                    views[j - BUILTIN_COUNT].name,
                    views[j - BUILTIN_COUNT].description,
                ),
        decreases templates@.len() - k,
    {
        assert(views[k as int] == templates@[k as int]@);
        out.push(describe(templates[k].name.as_str(), templates[k].description.as_str()));
        k += 1;
    }
    assert(autocomplete::candidate_views(out@) =~= command_rows(views));
    out
}

/// The models.
pub open spec fn model_rows(v: Seq<Arc<Model>>) -> Seq<CandidateView> {
    v.map_values(
        |m: Arc<Model>|
            CandidateView {
                display: m.id@ + "  ("@ + m.provider@ + ")"@,
                value: m.id@,
                is_dir: false,
            },
    )
}

/// Offers the models.
pub fn model_candidates(v: &Vec<Arc<Model>>) -> (r: Vec<Candidate>)
    ensures
        autocomplete::candidate_views(r@) == model_rows(v@),
{
    let mut out: Vec<Candidate> = Vec::new();
    let mut i: usize = 0;
    while i < v.len()
        invariant
            i <= v@.len(),
            out@.len() == i,
            forall|k: int| 0 <= k < i ==> (#[trigger] out@[k])@ == model_rows(v@)[k],
        decreases v@.len() - i,
    {
        let mut display = concat3(v[i].id.as_str(), "  (", v[i].provider.as_str());
        display.push_str(")");
        out.push(Candidate { display, value: v[i].id.clone(), is_dir: false });
        i += 1;
    }
    assert(autocomplete::candidate_views(out@) =~= model_rows(v@));
    out
}

/// The levels of thinking, from the lowest.
pub open spec fn level_at(k: int) -> Option<ThinkingLevel> {
    if k == 0 {
        None
    } else if k == 1 {
        Some(ThinkingLevel::Minimal)
    } else if k == 2 {
        Some(ThinkingLevel::Low)
    } else if k == 3 {
        Some(ThinkingLevel::Medium)
    } else if k == 4 {
        Some(ThinkingLevel::High)
    } else {
        Some(ThinkingLevel::XHigh)
    }
}

/// What a level of thinking is.
pub open spec fn level_description(level: Option<ThinkingLevel>) -> Seq<char> {
    match level {
        None => "no extended thinking"@,
        Some(ThinkingLevel::Minimal) => "shortest thinking budget"@,
        Some(ThinkingLevel::Low) => "small thinking budget"@,
        Some(ThinkingLevel::Medium) => "moderate thinking budget"@,
        Some(ThinkingLevel::High) => "large thinking budget"@,
        Some(ThinkingLevel::XHigh) => "maximum thinking budget"@,
    }
}

/// The levels of thinking.
pub open spec fn level_rows() -> Seq<CandidateView> {
    Seq::new(
        6,
        |k: int| described(levels::name_of(level_at(k)), level_description(level_at(k))),
    )
}

fn level_row(level: Option<ThinkingLevel>) -> (r: Candidate)
    ensures
        r@ == described(levels::name_of(level), level_description(level)),
{
    let description = match level {
        None => "no extended thinking",
        Some(ThinkingLevel::Minimal) => "shortest thinking budget",
        Some(ThinkingLevel::Low) => "small thinking budget",
        Some(ThinkingLevel::Medium) => "moderate thinking budget",
        Some(ThinkingLevel::High) => "large thinking budget",
        Some(ThinkingLevel::XHigh) => "maximum thinking budget",
    };
    describe(thinking_level_name(level), description)
}

/// Offers the levels of thinking.
pub fn thinking_candidates() -> (r: Vec<Candidate>)
    ensures
        autocomplete::candidate_views(r@) == level_rows(),
{
    let out = vec![
        level_row(None),
        level_row(Some(ThinkingLevel::Minimal)),
        level_row(Some(ThinkingLevel::Low)),
        level_row(Some(ThinkingLevel::Medium)),
        level_row(Some(ThinkingLevel::High)),
        level_row(Some(ThinkingLevel::XHigh)),
    ];
    assert(autocomplete::candidate_views(out@) =~= level_rows());
    out
}

/// The providers with their default models.
pub open spec fn provider_rows(list: Seq<(String, Arc<Model>)>) -> Seq<CandidateView> {
    list.map_values(
        |p: (String, Arc<Model>)|
            CandidateView {
                display: p.0@ + "  (default "@ + p.1.id@ + ")"@,
                value: p.0@,
                is_dir: false,
            },
    )
}

/// Offers the providers.
pub fn provider_candidates(v: &Vec<Arc<Model>>) -> (r: Vec<Candidate>)
    ensures
        autocomplete::candidate_views(r@) == provider_rows(
            providers::providers_of(v@, v@.len() as int),
        ),
{
    let list = catalog_providers(v);
    let mut out: Vec<Candidate> = Vec::new();
    let mut i: usize = 0;
    while i < list.len()
        invariant
            i <= list@.len(),
            out@.len() == i,
            forall|k: int| 0 <= k < i ==> (#[trigger] out@[k])@ == provider_rows(list@)[k],
        decreases list@.len() - i,
    {
        let mut display = concat3(list[i].0.as_str(), "  (default ", list[i].1.id.as_str());
        display.push_str(")");
        out.push(Candidate { display, value: list[i].0.clone(), is_dir: false });
        i += 1;
    }
    assert(autocomplete::candidate_views(out@) =~= provider_rows(list@));
    out
}

/// Where a file belongs among files that stand from the newest to the
/// oldest: behind those that are as new.
pub open spec fn place_of(v: Seq<(Seq<char>, u64)>, modified: u64, from: int) -> int
    decreases v.len() - from,
{
    if from >= v.len() || v[from].1 < modified {
        from
    } else {
        place_of(v, modified, from + 1)
    }
}

/// The transcripts among the first `n` files, by their ids, from the newest
/// to the oldest.
pub open spec fn newest_first(files: Seq<(String, u64)>, n: int) -> Seq<(Seq<char>, u64)>
    decreases n,
{
    if n <= 0 {
        Seq::empty()
    } else {
        let before = newest_first(files, n - 1);
        let name = files[n - 1].0@;
        if session::is_transcript(name) {
            before.insert(
                place_of(before, files[n - 1].1, 0),
                (name.take(name.len() - 6), files[n - 1].1),
            )
        } else {
            before
        }
    }
}

/// Sessions as rows.
pub open spec fn session_rows(v: Seq<(Seq<char>, u64)>) -> Seq<CandidateView> {
    v.map_values(
        |p: (Seq<char>, u64)| CandidateView { display: p.0, value: p.0, is_dir: false },
    )
}

/// Views of files with their times.
pub open spec fn file_views(v: Seq<(String, u64)>) -> Seq<(Seq<char>, u64)> {
    v.map_values(|p: (String, u64)| (p.0@, p.1))
}

proof fn lemma_place(v: Seq<(Seq<char>, u64)>, modified: u64, from: int)
    requires
        0 <= from <= v.len(),
    ensures
        from <= place_of(v, modified, from) <= v.len(),
        forall|k: int| from <= k < place_of(v, modified, from) ==> (#[trigger] v[k]).1 >= modified,
        place_of(v, modified, from) < v.len() ==> v[place_of(v, modified, from)].1 < modified,
    decreases v.len() - from,
{
    if from < v.len() && v[from].1 >= modified {
        lemma_place(v, modified, from + 1);
    }
}

/// Offers the sessions of a project, the newest first, given the files of
/// its directory with their times.
pub fn list_session_id_candidates(files: &Vec<(String, u64)>) -> (r: Vec<Candidate>)
    ensures
        autocomplete::candidate_views(r@) == session_rows(
            newest_first(files@, files@.len() as int),
        ),
{
    let mut found: Vec<(String, u64)> = Vec::new();
    let mut i: usize = 0;
    assert(file_views(found@) =~= newest_first(files@, 0));
    while i < files.len()
        invariant
            i <= files@.len(),
            file_views(found@) == newest_first(files@, i as int),
        decreases files@.len() - i,
    {
        let ghost before = file_views(found@);
        let modified: u64 = files[i].1;
        if session::names_transcript(files[i].0.as_str()) {
            let chars = chars_of(files[i].0.as_str());
            let stem = string_of(&chars, 0, chars.len() - 6);
            assert(stem@ =~= files@[i as int].0@.take(files@[i as int].0@.len() - 6));
            let mut at: usize = 0;
            while at < found.len() && found[at].1 >= modified
                invariant
                    at <= found@.len(),
                    before == file_views(found@),
                    place_of(before, modified, 0) == place_of(before, modified, at as int),
                decreases found@.len() - at,
            {
                assert(before[at as int].1 == found@[at as int].1);
                at += 1;
            }
            assert(at < found@.len() ==> before[at as int].1 == found@[at as int].1);
            found.insert(at, (stem, modified));
            assert(file_views(found@) =~= before.insert(at as int, (stem@, modified)));
        }
        i += 1;
    }
    let mut out: Vec<Candidate> = Vec::new();
    let mut k: usize = 0;
    let ghost rows = session_rows(file_views(found@));
    while k < found.len()
        invariant
            k <= found@.len(),
            rows == session_rows(file_views(found@)),
            out@.len() == k,
            forall|j: int| 0 <= j < k ==> (#[trigger] out@[j])@ == rows[j],
        decreases found@.len() - k,
    {
        assert(file_views(found@)[k as int] == (found@[k as int].0@, found@[k as int].1));
        out.push(
            Candidate { display: found[k].0.clone(), value: found[k].0.clone(), is_dir: false },
        );
        k += 1;
    }
    assert(autocomplete::candidate_views(out@) =~= rows);
    out
}

/// The sessions stand from the newest to the oldest.
pub proof fn law_sessions_are_newest_first(files: Seq<(String, u64)>, n: int)
    requires
        0 <= n <= files.len(),
    ensures
        forall|i: int, j: int|
            0 <= i < j < newest_first(files, n).len() ==> (#[trigger] newest_first(files, n)[i]).1
                >= (#[trigger] newest_first(files, n)[j]).1,
    decreases n,
{
    if n > 0 {
        law_sessions_are_newest_first(files, n - 1);
        let before = newest_first(files, n - 1);
        let name = files[n - 1].0@;
        if session::is_transcript(name) {
            let at = place_of(before, files[n - 1].1, 0);
            lemma_place(before, files[n - 1].1, 0);
            let r = newest_first(files, n);
            assert forall|i: int, j: int| 0 <= i < j < r.len() implies (#[trigger] r[i]).1 >= (
            #[trigger] r[j]).1 by {
                let x = if i < at {
                    i
                } else {
                    i - 1
                };
                let y = if j < at {
                    j
                } else {
                    j - 1
                };
                if i != at && j != at {
                    assert(before[x].1 >= before[y].1);
                } else if i == at {
                    assert(before[at].1 >= before[y].1 || y == at);
                } else {
                    assert(before[i].1 >= files[n - 1].1);
                }
            }
        }
    }
}

proof fn lemma_place_bound(v: Seq<(Seq<char>, u64)>, modified: u64, from: int)
    requires
        0 <= from <= v.len(),
    ensures
        from <= place_of(v, modified, from) <= v.len(),
    decreases v.len() - from,
{
    if from < v.len() && v[from].1 >= modified {
        lemma_place_bound(v, modified, from + 1);
    }
}

proof fn lemma_sessions_kept(files: Seq<(String, u64)>, n: int)
    requires
        0 <= n <= files.len(),
    ensures
        newest_first(files, n).to_multiset() == files.take(n).filter(
            |f: (String, u64)| session::is_transcript(f.0@),
        ).map_values(|f: (String, u64)| (f.0@.take(f.0@.len() - 6), f.1)).to_multiset(),
    decreases n,
{
    broadcast use vstd::seq_lib::group_to_multiset_ensures;

    reveal(Seq::filter);
    let keep = |f: (String, u64)| session::is_transcript(f.0@);
    let stem = |f: (String, u64)| (f.0@.take(f.0@.len() - 6), f.1);
    if n > 0 {
        lemma_sessions_kept(files, n - 1);
        let before = newest_first(files, n - 1);
        let f = files[n - 1];
        assert(files.take(n).drop_last() =~= files.take(n - 1));
        assert(files.take(n).last() == f);
        if session::is_transcript(f.0@) {
            lemma_place_bound(before, f.1, 0);
            assert(files.take(n).filter(keep).map_values(stem) =~= files.take(n - 1).filter(
                keep,
            ).map_values(stem).push(stem(f)));
        }
    } else {
        assert(files.take(n) =~= Seq::empty());
        assert(files.take(n).filter(keep).map_values(stem) =~= Seq::empty());
        assert(newest_first(files, n) =~= Seq::empty());
    }
}

/// Every session of the project is offered, under its id and exactly once,
/// and no other file is.
pub proof fn law_every_session_is_offered(files: Seq<(String, u64)>)
    ensures
        newest_first(files, files.len() as int).to_multiset() == files.filter(
            |f: (String, u64)| session::is_transcript(f.0@),
        ).map_values(|f: (String, u64)| (f.0@.take(f.0@.len() - 6), f.1)).to_multiset(),
        session_rows(newest_first(files, files.len() as int)).len() == newest_first(
            files,
            files.len() as int,
        ).len(),
        forall|k: int|
            0 <= k < newest_first(files, files.len() as int).len() ==> (#[trigger] session_rows(
                newest_first(files, files.len() as int),
            )[k]).value == newest_first(files, files.len() as int)[k].0,
{
    lemma_sessions_kept(files, files.len() as int);
    assert(files.take(files.len() as int) =~= files);
}

/// Every command is offered: the twelve of the program first, then every
/// template, each under its name.
pub proof fn law_every_command_is_offered(list: Seq<TemplateView>, k: int)
    ensures
        command_rows(list).len() == 12 + list.len(),
        0 <= k < 12 ==> command_rows(list)[k].value == commands::builtin_name(k),
        0 <= k < list.len() ==> command_rows(list)[12 + k].value == list[k].name,
        0 <= k < list.len() ==> command_rows(list)[12 + k].display == list[k].name + "  - "@
            + list[k].description,
{
}

/// Every model is offered by its id, with its provider, and every provider
/// with the model that it starts with.
pub proof fn law_every_model_is_offered(v: Seq<Arc<Model>>, list: Seq<(String, Arc<Model>)>, k: int)
    ensures
        model_rows(v).len() == v.len(),
        provider_rows(list).len() == list.len(),
        0 <= k < v.len() ==> model_rows(v)[k].value == v[k].id@ && model_rows(v)[k].display
            == v[k].id@ + "  ("@ + v[k].provider@ + ")"@,
        0 <= k < list.len() ==> provider_rows(list)[k].value == list[k].0@
            && provider_rows(list)[k].display == list[k].0@ + "  (default "@ + list[k].1.id@
            + ")"@,
{
}

/// Every level is offered, under a word that stands for it.
pub proof fn law_every_level_is_offered(level: Option<ThinkingLevel>)
    ensures
        exists|k: int|
            0 <= k < level_rows().len() && levels::level_of((#[trigger] level_rows()[k]).value)
                == Some(level),
{
    levels::law_shown_levels_can_be_typed(level);
    let k = match level {
        None => 0int,
        Some(ThinkingLevel::Minimal) => 1,
        Some(ThinkingLevel::Low) => 2,
        Some(ThinkingLevel::Medium) => 3,
        Some(ThinkingLevel::High) => 4,
        Some(ThinkingLevel::XHigh) => 5,
    };
    assert(level_rows()[k].value == levels::name_of(level));
}

} // verus!
