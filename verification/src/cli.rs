//! The command line: its flags, and which model a session starts with.
use std::sync::Arc;

use vstd::prelude::*;

use crate::levels::level_named;
use crate::messages::ThinkingLevel;
use crate::models::{find_model, Model};
use crate::providers::{env_api_key, has_aws_credentials, is_keyless};
use crate::settings::{Settings, SettingsView};
use crate::text::{chars_of, concat2, concat3, decimal_text};
use crate::{levels, models, paths, providers, resources, settings, text};

verus! {

/// Which session to take up again.
#[derive(Debug)]
pub enum ResumeTarget {
    /// The newest one of this project.
    Latest,
    /// The one with this id.
    Id(String),
}

/// What the command line asks for.
#[derive(Debug)]
pub struct CliArgs {
    pub model: Option<String>,
    pub thinking: Option<ThinkingLevel>,
    pub plain: bool,
    pub resume: Option<ResumeTarget>,
}

/// Why a command line starts no session.
#[derive(Debug)]
pub enum CliStop {
    /// It asks for help.
    Help,
    /// It cannot be understood.
    Error(String),
}

/// Why a command line starts no session: help, or an error in words.
pub enum CliStopView {
    Help,
    Error(Seq<char>),
}

impl View for CliStop {
    type V = CliStopView;

    open spec fn view(&self) -> CliStopView {
        match self {
            CliStop::Help => CliStopView::Help,
            CliStop::Error(s) => CliStopView::Error(s@),
        }
    }
}

/// A word of the command line, by what it is.
pub enum Flag {
    Model,
    Thinking,
    Plain,
    Resume,
    Help,
    Unknown,
}

/// What a word of the command line is.
pub open spec fn flag_of(word: Seq<char>) -> Flag {
    if word == "--model"@ || word == "-m"@ {
        Flag::Model
    } else if word == "--thinking"@ || word == "-t"@ {
        Flag::Thinking
    } else if word == "--plain"@ {
        Flag::Plain
    } else if word == "--resume"@ || word == "-r"@ {
        Flag::Resume
    } else if word == "--help"@ || word == "-h"@ {
        Flag::Help
    } else {
        Flag::Unknown
    }
}

fn read_flag(word: &str) -> (r: Flag)
    ensures
        r == flag_of(word@),
{
    if text::same_str(word, "--model") || text::same_str(word, "-m") {
        Flag::Model
    } else if text::same_str(word, "--thinking") || text::same_str(word, "-t") {
        Flag::Thinking
    } else if text::same_str(word, "--plain") {
        Flag::Plain
    } else if text::same_str(word, "--resume") || text::same_str(word, "-r") {
        Flag::Resume
    } else if text::same_str(word, "--help") || text::same_str(word, "-h") {
        Flag::Help
    } else {
        Flag::Unknown
    }
}

/// Whether a word looks like a flag.
pub open spec fn is_flag(word: Seq<char>) -> bool {
    word.len() > 0 && word[0] == '-'
}

/// What the words from `i` on add to what was read before them.
pub open spec fn parsed(args: Seq<String>, i: int, so_far: CliArgs) -> Result<CliArgs, CliStopView>
    decreases args.len() - i,
{
    if i >= args.len() {
        Ok(so_far)
    } else {
        let last = i + 1 >= args.len();
        match flag_of(args[i]@) {
            Flag::Model => if last {
                Err(CliStopView::Error("--model requires a value"@))
            } else {
                parsed(args, i + 2, CliArgs { model: Some(args[i + 1]), ..so_far })
            },
            Flag::Thinking => if last {
                Err(CliStopView::Error("--thinking requires a value"@))
            } else {
                match levels::level_of(args[i + 1]@) {
                    Some(level) => parsed(args, i + 2, CliArgs { thinking: level, ..so_far }),
                    None => Err(CliStopView::Error("unknown thinking level: "@ + args[i + 1]@)),
                }
            },
            Flag::Plain => parsed(args, i + 1, CliArgs { plain: true, ..so_far }),
            Flag::Resume => if last || is_flag(args[i + 1]@) {
                parsed(args, i + 1, CliArgs { resume: Some(ResumeTarget::Latest), ..so_far })
            } else {
                parsed(
                    args,
                    i + 2,
                    CliArgs { resume: Some(ResumeTarget::Id(args[i + 1])), ..so_far },
                )
            },
            Flag::Help => Err(CliStopView::Help),
            Flag::Unknown => Err(CliStopView::Error("unknown argument: "@ + args[i]@)),
        }
    }
}

/// What an empty command line asks for.
pub open spec fn no_args() -> CliArgs {
    CliArgs { model: None, thinking: None, plain: false, resume: None }
}

/// Reads the words of the command line, without the program's name.
pub fn parse_args(args: &Vec<String>) -> (r: Result<CliArgs, CliStop>)
    ensures
        match (r, parsed(args@, 0, no_args())) {
            (Ok(a), Ok(b)) => a == b,
            (Err(a), Err(b)) => a@ == b,
            _ => false,
        },
{
    let mut out = CliArgs { model: None, thinking: None, plain: false, resume: None };
    let mut i: usize = 0;
    while i < args.len()
        invariant
            i <= args@.len(),
            parsed(args@, 0, no_args()) == parsed(args@, i as int, out),
        decreases args@.len() - i,
    {
        let last = args.len() - i == 1;
        match read_flag(args[i].as_str()) {
            Flag::Model => {
                if last {
                    return Err(CliStop::Error("--model requires a value".to_owned()));
                }
                out.model = Some(args[i + 1].clone());
                i += 2;
            },
            Flag::Thinking => {
                if last {
                    return Err(CliStop::Error("--thinking requires a value".to_owned()));
                }
                match level_named(args[i + 1].as_str()) {
                    Some(level) => {
                        out.thinking = level;
                    },
                    None => {
                        return Err(
                            CliStop::Error(
                                concat2("unknown thinking level: ", args[i + 1].as_str()),
                            ),
                        );
                    },
                }
                i += 2;
            },
            Flag::Plain => {
                out.plain = true;
                i += 1;
            },
            Flag::Resume => {
                let named = if last {
                    false
                } else {
                    let next = chars_of(args[i + 1].as_str());
                    !(next.len() > 0 && next[0] == '-')
                };
                if named {
                    out.resume = Some(ResumeTarget::Id(args[i + 1].clone()));
                    i += 2;
                } else {
                    out.resume = Some(ResumeTarget::Latest);
                    i += 1;
                }
            },
            Flag::Help => {
                return Err(CliStop::Help);
            },
            Flag::Unknown => {
                return Err(
                    CliStop::Error(concat2("unknown argument: ", args[i].as_str())),
                );
            },
        }
    }
    Ok(out)
}

/// The first `n` models as the help lists them.
pub open spec fn model_lines(v: Seq<Arc<Model>>, n: int) -> Seq<char>
    decreases n,
{
    if n <= 0 {
        Seq::empty()
    } else {
        model_lines(v, n - 1) + "  "@ + v[n - 1].id@ + " ("@ + v[n - 1].provider@ + ")\n"@
    }
}

/// The usage, and the models that can be asked for.
pub fn help_text(catalog: &Vec<Arc<Model>>) -> (r: String)
    ensures
        r@
            == "usage: cupel [--model <id>] [--thinking off|minimal|low|medium|high|xhigh] [--resume [id]] [--plain]\n\navailable models:\n"@
            + model_lines(catalog@, catalog@.len() as int),
{
    let mut out =
        "usage: cupel [--model <id>] [--thinking off|minimal|low|medium|high|xhigh] [--resume [id]] [--plain]\n\navailable models:\n".to_owned();
    let ghost head = out@;
    let mut i: usize = 0;
    assert(out@ =~= head + model_lines(catalog@, 0));
    while i < catalog.len()
        invariant
            i <= catalog@.len(),
            out@ == head + model_lines(catalog@, i as int),
        decreases catalog@.len() - i,
    {
        let ghost before = out@;
        out.push_str("  ");
        out.push_str(catalog[i].id.as_str());
        out.push_str(" (");
        out.push_str(catalog[i].provider.as_str());
        out.push_str(")\n");
        assert(out@ =~= head + model_lines(catalog@, i + 1));
        i += 1;
    }
    out
}

/// The key that a model starts with, if its provider has credentials at
/// all: none is needed where AWS credentials serve.
pub open spec fn startup_key(provider: Seq<char>, env: Seq<(String, String)>) -> Option<Option<Seq<char>>> {
    if provider == "amazon-bedrock"@ && providers::has_aws(env) {
        Some(None)
    } else {
        match providers::exported_key(env, provider) {
            Some(key) => Some(Some(key)),
            None => None,
        }
    }
}

/// The first model from `from` on whose provider has credentials.
pub open spec fn first_credentialed(
    v: Seq<Arc<Model>>,
    env: Seq<(String, String)>,
    from: int,
) -> Option<int>
    decreases v.len() - from,
{
    if from >= v.len() {
        None
    } else if startup_key(v[from].provider@, env) is Some {
        Some(from)
    } else {
        first_credentialed(v, env, from + 1)
    }
}

/// The first model from `from` on that takes no key.
pub open spec fn first_keyless(v: Seq<Arc<Model>>, from: int) -> Option<int>
    decreases v.len() - from,
{
    if from >= v.len() {
        None
    } else if providers::keyless(*v[from]) {
        Some(from)
    } else {
        first_keyless(v, from + 1)
    }
}

/// The model that a session starts with, by its place, and its key.
pub open spec fn selected(
    wanted: Option<Seq<char>>,
    v: Seq<Arc<Model>>,
    env: Seq<(String, String)>,
) -> Result<(int, Option<Seq<char>>), Seq<char>> {
    match wanted {
        Some(id) => match models::model_index(v, id, 0) {
            Some(i) => Ok((i, providers::exported_key(env, v[i].provider@))),
            None => Err("unknown model: "@ + id + " (see --help for the list)"@),
        },
        None => match first_credentialed(v, env, 0) {
            Some(i) => Ok((i, startup_key(v[i].provider@, env).unwrap())),
            None => match first_keyless(v, 0) {
                Some(i) => Ok((i, None)),
                None => Err(NO_CREDENTIALS@),
            },
        },
    }
}

/// What to say where no model can be picked.
pub const NO_CREDENTIALS: &'static str = "no credentials found: set ANTHROPIC_API_KEY, OPENAI_API_KEY, FIREWORKS_API_KEY, or AWS credentials, start a local server (ollama / llama-server - see README 'Local models'), or start with an explicit `--model <id>` and enter a key in the TUI via `/provider <name> <api-key>`";

/// Picks the model that a session starts with: the one that was asked for,
/// else the first one whose provider has credentials, else the first one
/// that takes no key.
pub fn select_model(args: &CliArgs, catalog: &Vec<Arc<Model>>, env: &Vec<(String, String)>) -> (r:
    Result<(Arc<Model>, Option<String>), String>)
    ensures
        match (r, selected(resources::opt(args.model), catalog@, env@)) {
            (Ok((m, key)), Ok((i, k))) => 0 <= i < catalog@.len() && m == catalog@[i]
                && resources::opt(key) == k,
            (Err(a), Err(b)) => a@ == b,
            _ => false,
        },
{
    if let Some(wanted) = &args.model {
        return match find_model(catalog, wanted.as_str()) {
            Some(i) => {
                let key = env_api_key(env, catalog[i].provider.as_str());
                Ok((Arc::clone(&catalog[i]), key))
            },
            None => Err(
                concat3("unknown model: ", wanted.as_str(), " (see --help for the list)"),
            ),
        };
    }
    let aws = has_aws_credentials(env);
    let mut i: usize = 0;
    while i < catalog.len()
        invariant
            i <= catalog@.len(),
            aws == providers::has_aws(env@),
            args.model is None,
            first_credentialed(catalog@, env@, 0) == first_credentialed(catalog@, env@, i as int),
        decreases catalog@.len() - i,
    {
        if text::same_str(catalog[i].provider.as_str(), "amazon-bedrock") && aws {
            return Ok((Arc::clone(&catalog[i]), None));
        }
        if let Some(key) = env_api_key(env, catalog[i].provider.as_str()) {
            return Ok((Arc::clone(&catalog[i]), Some(key)));
        }
        i += 1;
    }
    let mut k: usize = 0;
    while k < catalog.len()
        invariant
            k <= catalog@.len(),
            args.model is None,
            first_credentialed(catalog@, env@, 0) is None,
            first_keyless(catalog@, 0) == first_keyless(catalog@, k as int),
        decreases catalog@.len() - k,
    {
        if is_keyless(&catalog[k]) {
            return Ok((Arc::clone(&catalog[k]), None));
        }
        k += 1;
    }
    Err(NO_CREDENTIALS.to_owned())
}

/// What a session starts with: a model, its key, and what to warn of.
pub struct Startup {
    pub model: Arc<Model>,
    pub api_key: Option<String>,
    pub warning: Option<String>,
}

/// What a session starts with, the model by its place. A key that is not in
/// the environment is taken from the settings. Without credentials a session
/// on the screen starts with the first model all the same, and a warning: a
/// key can be entered there. A model that was asked for is never replaced.
pub open spec fn started_with(
    wanted: Option<Seq<char>>,
    plain: bool,
    v: Seq<Arc<Model>>,
    env: Seq<(String, String)>,
    stored: SettingsView,
) -> Result<(int, Option<Seq<char>>, Option<Seq<char>>), Seq<char>> {
    match selected(wanted, v, env) {
        Ok((i, Some(key))) => Ok((i, Some(key), None)),
        Ok((i, None)) => Ok((i, settings::value_under(stored.providers, v[i].provider@, 0), None)),
        Err(e) => if !plain && wanted is None && v.len() > 0 {
            Ok((0, None, Some(e)))
        } else {
            Err(e)
        },
    }
}

/// Decides what a session starts with.
pub fn start_with(
    args: &CliArgs,
    plain: bool,
    catalog: &Vec<Arc<Model>>,
    env: &Vec<(String, String)>,
    stored: &Settings,
) -> (r: Result<Startup, String>)
    ensures
        match (r, started_with(resources::opt(args.model), plain, catalog@, env@, stored@)) {
            (Ok(s), Ok((i, key, warning))) => 0 <= i < catalog@.len() && s.model == catalog@[i]
                && resources::opt(s.api_key) == key && resources::opt(s.warning) == warning,
            (Err(a), Err(b)) => a@ == b,
            _ => false,
        },
{
    match select_model(args, catalog, env) {
        Ok((model, Some(key))) => Ok(Startup { model, api_key: Some(key), warning: None }),
        Ok((model, None)) => {
            let api_key = match stored.api_key(model.provider.as_str()) {
                Some(key) => Some(key.to_owned()),
                None => None,
            };
            Ok(Startup { model, api_key, warning: None })
        },
        Err(e) => {
            if !plain && args.model.is_none() && catalog.len() > 0 {
                Ok(Startup { model: Arc::clone(&catalog[0]), api_key: None, warning: Some(e) })
            } else {
                Err(e)
            }
        },
    }
}

/// Where the transcript to take up is, given the directory of the project's
/// sessions, whether the named one is there, and the newest one.
pub fn resume_path(
    target: &ResumeTarget,
    dir: Option<String>,
    named_exists: bool,
    latest: Option<String>,
) -> (r: Result<String, String>)
    ensures
        match target {
            ResumeTarget::Id(id) => match (dir, r) {
                (Some(d), Ok(path)) => named_exists && path@ == paths::joined(d@, id@ + ".jsonl"@),
                (_, Err(e)) => !(dir is Some && named_exists) && e@ == "no session named "@ + id@
                    + " for this project"@,
                _ => false,
            },
            ResumeTarget::Latest => match (latest, r) {
                (Some(path), Ok(p)) => p == path,
                (None, Err(e)) => e@ == "no previous session to resume for this project"@,
                _ => false,
            },
        },
{
    match target {
        ResumeTarget::Id(id) => {
            if let Some(d) = dir {
                if named_exists {
                    return Ok(paths::join(d.as_str(), concat2(id.as_str(), ".jsonl").as_str()));
                }
            }
            Err(concat3("no session named ", id.as_str(), " for this project"))
        },
        ResumeTarget::Latest => match latest {
            Some(path) => Ok(path),
            None => Err("no previous session to resume for this project".to_owned()),
        },
    }
}

/// The id of a session that starts now.
pub fn fresh_session_id(now: u64) -> (r: String)
    ensures
        r@ == "cupel-"@ + text::decimal(now as nat),
{
    concat2("cupel-", decimal_text(now).as_str())
}

/// Credentials in the environment always beat a model that merely runs
/// nearby: a model without a key is picked only where no provider has
/// credentials.
pub proof fn law_credentials_come_first(v: Seq<Arc<Model>>, env: Seq<(String, String)>, k: int)
    requires
        0 <= k < v.len(),
        startup_key(v[k].provider@, env) is Some,
    ensures
        selected(None, v, env) matches Ok((i, key)) && 0 <= i <= k && startup_key(v[i].provider@, env)
            == Some(key),
{
    lemma_first_credentialed(v, env, 0, k);
}

proof fn lemma_first_credentialed(v: Seq<Arc<Model>>, env: Seq<(String, String)>, from: int, k: int)
    requires
        0 <= from <= k < v.len(),
        startup_key(v[k].provider@, env) is Some,
    ensures
        first_credentialed(v, env, from) matches Some(i) && from <= i <= k && startup_key(v[i].provider@, env)
            is Some,
    decreases k - from,
{
    if startup_key(v[from].provider@, env) is None {
        lemma_first_credentialed(v, env, from + 1, k);
    }
}

proof fn lemma_words_in_order(a: Seq<String>, b: Seq<String>, i: int, so_far: CliArgs)
    requires
        0 <= i <= a.len(),
        parsed(a, i, so_far) is Ok,
        b.len() > 0 ==> is_flag(b[0]@),
    ensures
        parsed(a + b, i, so_far) == parsed(b, 0, parsed(a, i, so_far)->Ok_0),
    decreases a.len() - i,
{
    let all = a + b;
    if i == a.len() {
        lemma_parsed_shift(a, b, 0, so_far);
    } else {
        assert(all[i] == a[i]);
        if i + 1 < a.len() {
            assert(all[i + 1] == a[i + 1]);
        } else if b.len() > 0 {
            assert(all[i + 1] == b[0]);
        }
        match flag_of(a[i]@) {
            Flag::Model => {
                lemma_words_in_order(a, b, i + 2, CliArgs { model: Some(a[i + 1]), ..so_far });
            },
            Flag::Thinking => {
                let level = levels::level_of(a[i + 1]@)->Some_0;
                lemma_words_in_order(a, b, i + 2, CliArgs { thinking: level, ..so_far });
            },
            Flag::Plain => {
                lemma_words_in_order(a, b, i + 1, CliArgs { plain: true, ..so_far });
            },
            Flag::Resume => {
                if i + 1 >= a.len() || is_flag(a[i + 1]@) {
                    lemma_words_in_order(
                        a,
                        b,
                        i + 1,
                        CliArgs { resume: Some(ResumeTarget::Latest), ..so_far },
                    );
                } else {
                    lemma_words_in_order(
                        a,
                        b,
                        i + 2,
                        CliArgs { resume: Some(ResumeTarget::Id(a[i + 1])), ..so_far },
                    );
                }
            },
            _ => {},
        }
    }
}

proof fn lemma_parsed_shift(a: Seq<String>, b: Seq<String>, j: int, so_far: CliArgs)
    requires
        0 <= j <= b.len(),
    ensures
        parsed(a + b, a.len() + j, so_far) == parsed(b, j, so_far),
    decreases b.len() - j,
{
    let all = a + b;
    let i = a.len() + j;
    if j < b.len() {
        assert(all[i] == b[j]);
        if j + 1 < b.len() {
            assert(all[i + 1] == b[j + 1]);
        }
        match flag_of(b[j]@) {
            Flag::Model => {
                if j + 1 < b.len() {
                    lemma_parsed_shift(a, b, j + 2, CliArgs { model: Some(b[j + 1]), ..so_far });
                }
            },
            Flag::Thinking => {
                if j + 1 < b.len() {
                    match levels::level_of(b[j + 1]@) {
                        Some(level) => {
                            lemma_parsed_shift(
                                a,
                                b,
                                j + 2,
                                CliArgs { thinking: level, ..so_far },
                            );
                        },
                        None => {},
                    }
                }
            },
            Flag::Plain => {
                lemma_parsed_shift(a, b, j + 1, CliArgs { plain: true, ..so_far });
            },
            Flag::Resume => {
                if j + 1 >= b.len() || is_flag(b[j + 1]@) {
                    lemma_parsed_shift(
                        a,
                        b,
                        j + 1,
                        CliArgs { resume: Some(ResumeTarget::Latest), ..so_far },
                    );
                } else {
                    lemma_parsed_shift(
                        a,
                        b,
                        j + 2,
                        CliArgs { resume: Some(ResumeTarget::Id(b[j + 1])), ..so_far },
                    );
                }
            },
            _ => {},
        }
    }
}

/// Arguments are read one after the other: what follows a flag is read as it
/// would be alone, on top of what came before. So flags come in any order,
/// and of two that say the same thing the later one counts.
pub proof fn law_arguments_are_read_in_turn(a: Seq<String>, b: Seq<String>, so_far: CliArgs)
    requires
        parsed(a, 0, so_far) is Ok,
        b.len() > 0 ==> is_flag(b[0]@),
    ensures
        parsed(a + b, 0, so_far) == parsed(b, 0, parsed(a, 0, so_far)->Ok_0),
{
    lemma_words_in_order(a, b, 0, so_far);
}

/// Every flag sets its own field and no other, in its long and in its short
/// form.
pub proof fn law_every_flag_sets_its_field(flag: String, value: String, so_far: CliArgs)
    ensures
        flag@ == "--model"@ || flag@ == "-m"@ ==> parsed(seq![flag, value], 0, so_far) == Ok::<
            CliArgs,
            CliStopView,
        >(CliArgs { model: Some(value), ..so_far }),
        (flag@ == "--thinking"@ || flag@ == "-t"@) && value@ == "high"@ ==> parsed(
            seq![flag, value],
            0,
            so_far,
        ) == Ok::<CliArgs, CliStopView>(
            CliArgs { thinking: Some(ThinkingLevel::High), ..so_far },
        ),
        (flag@ == "--thinking"@ || flag@ == "-t"@) && value@ == "off"@ ==> parsed(
            seq![flag, value],
            0,
            so_far,
        ) == Ok::<CliArgs, CliStopView>(CliArgs { thinking: None, ..so_far }),
        flag@ == "--plain"@ ==> parsed(seq![flag], 0, so_far) == Ok::<CliArgs, CliStopView>(
            CliArgs { plain: true, ..so_far },
        ),
        flag@ == "--resume"@ || flag@ == "-r"@ ==> parsed(seq![flag], 0, so_far) == Ok::<
            CliArgs,
            CliStopView,
        >(CliArgs { resume: Some(ResumeTarget::Latest), ..so_far }),
        (flag@ == "--resume"@ || flag@ == "-r"@) && value@.len() > 0 && value@[0] != '-'
            ==> parsed(seq![flag, value], 0, so_far) == Ok::<CliArgs, CliStopView>(
            CliArgs { resume: Some(ResumeTarget::Id(value)), ..so_far },
        ),
        flag@ == "--help"@ || flag@ == "-h"@ ==> parsed(seq![flag, value], 0, so_far) == Err::<
            CliArgs,
            CliStopView,
        >(CliStopView::Help),
        flag@.len() > 0 && flag@[0] != '-' ==> parsed(seq![flag, value], 0, so_far) == Err::<
            CliArgs,
            CliStopView,
        >(CliStopView::Error("unknown argument: "@ + flag@)),
        parsed(Seq::empty(), 0, so_far) == Ok::<CliArgs, CliStopView>(so_far),
{
    reveal_strlit("--model");
    reveal_strlit("-m");
    reveal_strlit("--thinking");
    reveal_strlit("-t");
    reveal_strlit("--plain");
    reveal_strlit("--resume");
    reveal_strlit("-r");
    reveal_strlit("--help");
    reveal_strlit("-h");
    reveal_strlit("off");
    reveal_strlit("minimal");
    reveal_strlit("low");
    reveal_strlit("medium");
    reveal_strlit("high");
    reveal_strlit("xhigh");
    reveal_with_fuel(parsed, 3);
    lemma_flag_words(flag@);
}

proof fn lemma_flag_words(w: Seq<char>)
    ensures
        w == "--model"@ || w == "-m"@ ==> flag_of(w) is Model,
        w == "--thinking"@ || w == "-t"@ ==> flag_of(w) is Thinking,
        w == "--plain"@ ==> flag_of(w) is Plain,
        w == "--resume"@ || w == "-r"@ ==> flag_of(w) is Resume,
        w == "--help"@ || w == "-h"@ ==> flag_of(w) is Help,
        w.len() > 0 && w[0] != '-' ==> flag_of(w) is Unknown,
{
    reveal_strlit("--model");
    reveal_strlit("-m");
    reveal_strlit("--thinking");
    reveal_strlit("-t");
    reveal_strlit("--plain");
    reveal_strlit("--resume");
    reveal_strlit("-r");
    reveal_strlit("--help");
    reveal_strlit("-h");
    assert("--model"@[2] == 'm' && "--thinking"@[2] == 't' && "--plain"@[2] == 'p');
    assert("--resume"@[2] == 'r' && "--help"@[2] == 'h');
    assert("-m"@[1] == 'm' && "-t"@[1] == 't' && "-r"@[1] == 'r' && "-h"@[1] == 'h');
    assert("--model"@[0] == '-' && "--thinking"@[0] == '-' && "--plain"@[0] == '-');
    assert("--resume"@[0] == '-' && "--help"@[0] == '-');
    assert("-m"@[0] == '-' && "-t"@[0] == '-' && "-r"@[0] == '-' && "-h"@[0] == '-');
}

/// A flag that needs a value and has none is an error that names the flag.
pub proof fn law_flags_ask_for_their_values(flag: String, so_far: CliArgs)
    ensures
        flag@ == "--model"@ || flag@ == "-m"@ ==> parsed(seq![flag], 0, so_far) == Err::<
            CliArgs,
            CliStopView,
        >(CliStopView::Error("--model requires a value"@)),
        flag@ == "--thinking"@ || flag@ == "-t"@ ==> parsed(seq![flag], 0, so_far) == Err::<
            CliArgs,
            CliStopView,
        >(CliStopView::Error("--thinking requires a value"@)),
{
    lemma_flag_words(flag@);
}

proof fn lemma_model_line(v: Seq<Arc<Model>>, i: int, n: int)
    requires
        0 <= i < n <= v.len(),
    ensures
        text::stands_in(
            "  "@ + v[i].id@ + " ("@ + v[i].provider@ + ")\n"@,
            model_lines(v, n),
        ),
    decreases n,
{
    let part = "  "@ + v[i].id@ + " ("@ + v[i].provider@ + ")\n"@;
    let none = Seq::<char>::empty();
    let before = model_lines(v, n - 1);
    let whole = model_lines(v, n);
    if i == n - 1 {
        assert(whole =~= before + part + none);
        text::lemma_stands(part, whole, before, none);
    } else {
        lemma_model_line(v, i, n - 1);
        let more = "  "@ + v[n - 1].id@ + " ("@ + v[n - 1].provider@ + ")\n"@;
        assert(whole =~= none + before + more);
        text::lemma_stands_wider(part, before, none, more);
    }
}

/// The help lists every model with its provider.
pub proof fn law_help_lists_every_model(v: Seq<Arc<Model>>, i: int)
    requires
        0 <= i < v.len(),
    ensures
        text::stands_in(
            "  "@ + v[i].id@ + " ("@ + v[i].provider@ + ")\n"@,
            model_lines(v, v.len() as int),
        ),
{
    lemma_model_line(v, i, v.len() as int);
}

/// A model that was asked for by its id is taken, with the key that is
/// exported for its provider; an id that no model has is an error.
pub proof fn law_the_model_asked_for_is_taken(
    v: Seq<Arc<Model>>,
    env: Seq<(String, String)>,
    id: Seq<char>,
    k: int,
)
    requires
        0 <= k <= v.len(),
        k < v.len() ==> v[k].id@ == id,
        forall|j: int| 0 <= j < k ==> (#[trigger] v[j]).id@ != id,
    ensures
        k < v.len() ==> selected(Some(id), v, env) == Ok::<
            (int, Option<Seq<char>>),
            Seq<char>,
        >((k, providers::exported_key(env, v[k].provider@))),
        k == v.len() ==> selected(Some(id), v, env) is Err,
{
    models::law_models_are_found_by_id(v, id);
}

proof fn lemma_credentialed_is_first(v: Seq<Arc<Model>>, env: Seq<(String, String)>, from: int)
    requires
        0 <= from <= v.len(),
    ensures
        match first_credentialed(v, env, from) {
            Some(i) => from <= i < v.len() && startup_key(v[i].provider@, env) is Some && forall|
                k: int,
            |
                from <= k < i ==> startup_key((#[trigger] v[k]).provider@, env) is None,
            None => forall|k: int|
                from <= k < v.len() ==> startup_key((#[trigger] v[k]).provider@, env) is None,
        },
    decreases v.len() - from,
{
    if from < v.len() && startup_key(v[from].provider@, env) is None {
        lemma_credentialed_is_first(v, env, from + 1);
    }
}

proof fn lemma_first_keyless(v: Seq<Arc<Model>>, from: int)
    requires
        0 <= from <= v.len(),
    ensures
        match first_keyless(v, from) {
            Some(i) => from <= i < v.len() && providers::keyless(*v[i]) && forall|k: int|
                from <= k < i ==> !providers::keyless(*(#[trigger] v[k])),
            None => forall|k: int| from <= k < v.len() ==> !providers::keyless(*(#[trigger] v[k])),
        },
    decreases v.len() - from,
{
    if from < v.len() {
        lemma_first_keyless(v, from + 1);
    }
}

/// Unless a model is asked for, the first one with credentials is taken; if
/// none has them the first that needs none; and without such a model there
/// is nothing to start with.
pub proof fn law_the_first_usable_model_is_taken(v: Seq<Arc<Model>>, env: Seq<(String, String)>)
    ensures
        match selected(None, v, env) {
            Ok((i, key)) => {
                &&& 0 <= i < v.len()
                &&& startup_key(v[i].provider@, env) is Some ==> startup_key(v[i].provider@, env)
                    == Some(key) && forall|k: int|
                    0 <= k < i ==> startup_key((#[trigger] v[k]).provider@, env) is None
                &&& startup_key(v[i].provider@, env) is None ==> key is None
                    && providers::keyless(*v[i]) && (forall|k: int|
                    0 <= k < i ==> !providers::keyless(*(#[trigger] v[k]))) && (forall|k: int|
                    0 <= k < v.len() ==> startup_key((#[trigger] v[k]).provider@, env) is None)
            },
            Err(_) => forall|k: int|
                0 <= k < v.len() ==> startup_key((#[trigger] v[k]).provider@, env) is None
                    && !providers::keyless(*v[k]),
        },
{
    lemma_credentialed_is_first(v, env, 0);
    lemma_first_keyless(v, 0);
}

/// A session on a screen starts even without credentials, with a warning and
/// the first model; one in plain mode, or one that asked for a model that
/// does not exist, does not. A key in the settings stands in for one that is
/// not exported.
pub proof fn law_sessions_start_if_they_can(
    wanted: Option<Seq<char>>,
    plain: bool,
    v: Seq<Arc<Model>>,
    env: Seq<(String, String)>,
    stored: SettingsView,
)
    ensures
        selected(wanted, v, env) matches Err(e) ==> {
            &&& !plain && wanted is None && v.len() > 0 ==> started_with(
                wanted,
                plain,
                v,
                env,
                stored,
            ) == Ok::<(int, Option<Seq<char>>, Option<Seq<char>>), Seq<char>>((0, None, Some(e)))
            &&& plain || wanted is Some ==> started_with(wanted, plain, v, env, stored) == Err::<
                (int, Option<Seq<char>>, Option<Seq<char>>),
                Seq<char>,
            >(e)
        },
        selected(wanted, v, env) matches Ok((i, key)) ==> {
            &&& started_with(wanted, plain, v, env, stored) is Ok
            &&& started_with(wanted, plain, v, env, stored)->Ok_0.0 == i
            &&& started_with(wanted, plain, v, env, stored)->Ok_0.2 is None
            &&& key is Some ==> started_with(wanted, plain, v, env, stored)->Ok_0.1 == key
            &&& key is None ==> started_with(wanted, plain, v, env, stored)->Ok_0.1
                == settings::value_under(stored.providers, v[i].provider@, 0)
        },
{
}

} // verus!
