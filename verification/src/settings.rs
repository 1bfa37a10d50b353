//! Settings that last: provider keys and the loop killer.
//!
//! Keys come from the user's own file only. A project's file may tune the
//! loop killer, but never supplies a key.
use vstd::prelude::*;

use crate::json::json_has_field;
use crate::text::{chars_of, concat2, concat3, is_before};
use crate::{json, paths, resources, text};

verus! {

/// How often the same tool call may repeat. Zero switches the loop killer
/// off.
#[derive(Debug, Clone, Copy, PartialEq, Eq, Structural)]
pub struct LoopKillerSettings {
    pub max_repeats: u32,
}

/// The settings. Keys are in the order of the providers' names, each once.
/// What is not known is carried along as JSON text.
pub struct Settings {
    pub providers: Vec<(String, String)>,
    pub loop_killer: Option<LoopKillerSettings>,
    pub extra: Vec<(String, String)>,
}

/// The settings.
pub struct SettingsView {
    pub providers: Seq<(Seq<char>, Seq<char>)>,
    pub loop_killer: Option<LoopKillerSettings>,
    pub extra: Seq<(Seq<char>, Seq<char>)>,
}

impl View for Settings {
    type V = SettingsView;

    open spec fn view(&self) -> SettingsView {
        SettingsView {
            providers: resources::pair_views(self.providers@),
            loop_killer: self.loop_killer,
            extra: resources::pair_views(self.extra@),
        }
    }
}

impl Default for Settings {
    /// Nothing set.
    fn default() -> (r: Settings)
        ensures
            r@ == (SettingsView {
                providers: Seq::empty(),
                loop_killer: None,
                extra: Seq::empty(),
            }),
    {
        let r = Settings { providers: Vec::new(), loop_killer: None, extra: Vec::new() };
        assert(r@.providers =~= Seq::empty());
        assert(r@.extra =~= Seq::empty());
        r
    }
}

/// Whether names are in order, each once.
pub open spec fn names_in_order(v: Seq<(Seq<char>, Seq<char>)>) -> bool {
    forall|i: int, j: int|
        0 <= i < j < v.len() ==> text::before((#[trigger] v[i]).0, (#[trigger] v[j]).0)
}

/// The first value from `from` on under a name.
pub open spec fn value_under(v: Seq<(Seq<char>, Seq<char>)>, name: Seq<char>, from: int) -> Option<
    Seq<char>,
>
    decreases v.len() - from,
{
    if from >= v.len() {
        None
    } else if v[from].0 == name {
        Some(v[from].1)
    } else {
        value_under(v, name, from + 1)
    }
}

/// Pairs with one more: it takes the place of the one with its name, or goes
/// where its name belongs.
pub open spec fn with_value(
    v: Seq<(Seq<char>, Seq<char>)>,
    name: Seq<char>,
    value: Seq<char>,
) -> Seq<(Seq<char>, Seq<char>)>
    decreases v.len(),
{
    if v.len() == 0 {
        seq![(name, value)]
    } else if v[0].0 == name {
        seq![(name, value)] + v.drop_first()
    } else if text::before(name, v[0].0) {
        seq![(name, value)] + v
    } else {
        seq![v[0]] + with_value(v.drop_first(), name, value)
    }
}

proof fn lemma_with_value_at(
    v: Seq<(Seq<char>, Seq<char>)>,
    name: Seq<char>,
    value: Seq<char>,
    at: int,
)
    requires
        0 <= at <= v.len(),
        forall|k: int|
            0 <= k < at ==> (#[trigger] v[k]).0 != name && !text::before(name, v[k].0),
        at < v.len() ==> v[at].0 == name || text::before(name, v[at].0),
    ensures
        with_value(v, name, value) == (if at < v.len() && v[at].0 == name {
            v.update(at, (name, value))
        } else {
            v.insert(at, (name, value))
        }),
    decreases v.len(),
{
    let r = if at < v.len() && v[at].0 == name {
        v.update(at, (name, value))
    } else {
        v.insert(at, (name, value))
    };
    if v.len() == 0 || at == 0 {
        assert(with_value(v, name, value) =~= r);
    } else {
        let rest = v.drop_first();
        assert(v[0].0 != name && !text::before(name, v[0].0));
        assert forall|k: int| 0 <= k < at - 1 implies (#[trigger] rest[k]).0 != name
            && !text::before(name, rest[k].0) by {
            assert(rest[k] == v[k + 1]);
        }
        lemma_with_value_at(rest, name, value, at - 1);
        assert(with_value(v, name, value) =~= r);
    }
}

/// The user's settings, with the project's loop killer where the project
/// has one.
pub open spec fn layers(home: SettingsView, project: SettingsView) -> SettingsView {
    SettingsView {
        loop_killer: if project.loop_killer is Some {
            project.loop_killer
        } else {
            home.loop_killer
        },
        ..home
    }
}

impl Settings {
    /// The stored key of a provider.
    pub fn api_key(&self, provider: &str) -> (r: Option<&str>)
        ensures
            match (r, value_under(self@.providers, provider@, 0)) {
                (Some(k), Some(s)) => k@ == s,
                (None, None) => true,
                _ => false,
            },
    {
        let mut i: usize = 0;
        while i < self.providers.len()
            invariant
                i <= self.providers@.len(),
                value_under(self@.providers, provider@, 0) == value_under(
                    self@.providers,
                    provider@,
                    i as int,
                ),
            decreases self.providers@.len() - i,
        {
            assert(self@.providers[i as int] == (
                self.providers@[i as int].0@,
                self.providers@[i as int].1@,
            ));
            if text::same_str(self.providers[i].0.as_str(), provider) {
                return Some(self.providers[i].1.as_str());
            }
            i += 1;
        }
        None
    }

    /// How often a call may repeat, unless the loop killer is off.
    pub fn loop_killer_max_repeats(&self) -> (r: Option<u32>)
        ensures
            r == (match self@.loop_killer {
                Some(s) => if s.max_repeats > 0 {
                    Some(s.max_repeats)
                } else {
                    None
                },
                None => None,
            }),
    {
        match self.loop_killer {
            Some(s) => if s.max_repeats > 0 {
                Some(s.max_repeats)
            } else {
                None
            },
            None => None,
        }
    }

    /// The settings of a session: the user's, with the project's loop killer
    /// where the project has one.
    pub fn layered(home: Settings, project: Settings) -> (r: Settings)
        ensures
            r@ == layers(home@, project@),
    {
        let loop_killer = match project.loop_killer {
            Some(s) => Some(s),
            None => home.loop_killer,
        };
        Settings { providers: home.providers, loop_killer, extra: home.extra }
    }

    /// Stores the key of a provider.
    pub fn set_key(&mut self, provider: &str, key: &str)
        ensures
            final(self)@ == (SettingsView {
                providers: with_value(old(self)@.providers, provider@, key@),
                ..old(self)@
            }),
    {
        let ghost before = self@.providers;
        let name = chars_of(provider);
        let mut at: usize = 0;
        let mut go = true;
        while go && at < self.providers.len()
            invariant
                at <= self.providers@.len(),
                name@ == provider@,
                *self == *old(self),
                before == self@.providers,
                forall|k: int|
                    0 <= k < at ==> (#[trigger] before[k]).0 != provider@ && !text::before(
                        provider@,
                        before[k].0,
                    ),
                !go ==> at < before.len() && (before[at as int].0 == provider@ || text::before(
                    provider@,
                    before[at as int].0,
                )),
            decreases (if go {
                1int
            } else {
                0int
            }), self.providers@.len() - at,
        {
            assert(before[at as int] == (
                self.providers@[at as int].0@,
                self.providers@[at as int].1@,
            ));
            let other = chars_of(self.providers[at].0.as_str());
            if text::same(&other, &name) || is_before(&name, &other) {
                go = false;
            } else {
                at += 1;
            }
        }
        proof {
            lemma_with_value_at(before, provider@, key@, at as int);
        }
        let pair = (provider.to_owned(), key.to_owned());
        let ghost was = self.providers@;
        if at < self.providers.len() && text::same_str(self.providers[at].0.as_str(), provider) {
            assert(before[at as int].0 == self.providers@[at as int].0@);
            self.providers.set(at, pair);
            assert(self@.providers =~= before.update(at as int, (provider@, key@)));
        } else {
            if at < self.providers.len() {
                assert(before[at as int].0 == self.providers@[at as int].0@);
            }
            self.providers.insert(at, pair);
            assert(self@.providers =~= before.insert(at as int, (provider@, key@)));
        }
    }

    /// The names of the providers that have a key, without the keys.
    pub fn provider_names(&self) -> (r: Vec<String>)
        ensures
            r@.len() == self@.providers.len(),
            forall|k: int|
                0 <= k < r@.len() ==> (#[trigger] r@[k])@ == self@.providers[k].0,
    {
        let mut out: Vec<String> = Vec::new();
        let mut i: usize = 0;
        while i < self.providers.len()
            invariant
                i <= self.providers@.len(),
                out@.len() == i,
                forall|k: int| 0 <= k < i ==> (#[trigger] out@[k])@ == self@.providers[k].0,
            decreases self.providers@.len() - i,
        {
            out.push(self.providers[i].0.clone());
            i += 1;
        }
        out
    }
}

/// A stored key is found again, every other key stays as it was, and the
/// order of the names is kept.
pub proof fn law_keys_are_found_again(
    v: Seq<(Seq<char>, Seq<char>)>,
    name: Seq<char>,
    value: Seq<char>,
    other: Seq<char>,
)
    requires
        names_in_order(v),
    ensures
        value_under(with_value(v, name, value), name, 0) == Some(value),
        other != name ==> value_under(with_value(v, name, value), other, 0) == value_under(
            v,
            other,
            0,
        ),
        names_in_order(with_value(v, name, value)),
    decreases v.len(),
{
    let w = with_value(v, name, value);
    if v.len() == 0 {
        assert(w.drop_first() =~= v);
        lemma_under_first(w, name);
        lemma_under_first(w, other);
        lemma_under_nothing(v, other);
    } else if v[0].0 == name {
        assert(w.drop_first() =~= v.drop_first());
        lemma_under_first(w, name);
        lemma_under_first(w, other);
        lemma_under_first(v, other);
        assert forall|i: int, j: int| 0 <= i < j < w.len() implies text::before(
            (#[trigger] w[i]).0,
            (#[trigger] w[j]).0,
        ) by {
            assert(w[j].0 == v[j].0);
            assert(w[i].0 == v[i].0);
            let x = v[i];
            let y = v[j];
        }
    } else if text::before(name, v[0].0) {
        assert(w.drop_first() =~= v);
        lemma_under_first(w, name);
        lemma_under_first(w, other);
        assert forall|i: int, j: int| 0 <= i < j < w.len() implies text::before(
            (#[trigger] w[i]).0,
            (#[trigger] w[j]).0,
        ) by {
            assert(w[j] == v[j - 1]);
            if i == 0 {
                if j > 1 {
                    assert(text::before(v[0].0, v[j - 1].0));
                    text::lemma_before_transitive(name, v[0].0, v[j - 1].0);
                }
            } else {
                assert(w[i] == v[i - 1]);
            }
        }
    } else {
        let rest = v.drop_first();
        assert forall|i: int, j: int| 0 <= i < j < rest.len() implies text::before(
            (#[trigger] rest[i]).0,
            (#[trigger] rest[j]).0,
        ) by {
            assert(rest[i] == v[i + 1]);
            assert(rest[j] == v[j + 1]);
        }
        law_keys_are_found_again(rest, name, value, other);
        let inner = with_value(rest, name, value);
        assert(w.drop_first() =~= inner);
        lemma_under_first(w, name);
        lemma_under_first(w, other);
        lemma_under_first(v, other);
        text::lemma_before_total(name, v[0].0);
        assert forall|i: int, j: int| 0 <= i < j < w.len() implies text::before(
            (#[trigger] w[i]).0,
            (#[trigger] w[j]).0,
        ) by {
            assert(w[j] == inner[j - 1]);
            if i == 0 {
                lemma_names(rest, name, value, j - 1);
                if inner[j - 1].0 != name {
                    let m = choose|m: int| 0 <= m < rest.len() && rest[m].0 == inner[j - 1].0;
                    assert(rest[m] == v[m + 1]);
                    assert(text::before(v[0].0, v[m + 1].0));
                }
            } else {
                assert(w[i] == inner[i - 1]);
            }
        }
    }
}

proof fn lemma_names(
    v: Seq<(Seq<char>, Seq<char>)>,
    name: Seq<char>,
    value: Seq<char>,
    k: int,
)
    requires
        0 <= k < with_value(v, name, value).len(),
    ensures
        with_value(v, name, value)[k].0 == name || exists|m: int|
            0 <= m < v.len() && v[m].0 == with_value(v, name, value)[k].0,
    decreases v.len(),
{
    let w = with_value(v, name, value);
    if v.len() > 0 {
        if v[0].0 == name {
            if k > 0 {
                assert(w[k] == v[k]);
            }
        } else if text::before(name, v[0].0) {
            if k > 0 {
                assert(w[k] == v[k - 1]);
            }
        } else {
            if k == 0 {
                assert(w[0] == v[0]);
            } else {
                let rest = v.drop_first();
                lemma_names(rest, name, value, k - 1);
                assert(w[k] == with_value(rest, name, value)[k - 1]);
                if w[k].0 != name {
                    let m = choose|m: int| 0 <= m < rest.len() && rest[m].0 == w[k].0;
                    assert(v[m + 1].0 == w[k].0);
                }
            }
        }
    }
}

proof fn lemma_under_nothing(v: Seq<(Seq<char>, Seq<char>)>, name: Seq<char>)
    requires
        v.len() == 0,
    ensures
        value_under(v, name, 0) is None,
{
}

proof fn lemma_under_first(v: Seq<(Seq<char>, Seq<char>)>, name: Seq<char>)
    requires
        v.len() > 0,
    ensures
        value_under(v, name, 0) == (if v[0].0 == name {
            Some(v[0].1)
        } else {
            value_under(v.drop_first(), name, 0)
        }),
{
    lemma_under_shift(v, name, 1);
}

proof fn lemma_under_shift(v: Seq<(Seq<char>, Seq<char>)>, name: Seq<char>, from: int)
    requires
        1 <= from <= v.len(),
    ensures
        value_under(v, name, from) == value_under(v.drop_first(), name, from - 1),
    decreases v.len() - from,
{
    if from < v.len() {
        assert(v[from] == v.drop_first()[from - 1]);
        if v[from].0 != name {
            lemma_under_shift(v, name, from + 1);
        }
    }
}

/// A project's file never supplies a key.
pub proof fn law_projects_supply_no_keys(home: SettingsView, project: SettingsView, name: Seq<char>)
    ensures
        value_under(layers(home, project).providers, name, 0) == value_under(
            home.providers,
            name,
            0,
        ),
{
}

// ---------------------------------------------------------------------------
// Files
// ---------------------------------------------------------------------------

/// Where the user's settings are.
pub fn settings_path(home: &str) -> (r: String)
    ensures
        r@ == paths::joined(home@, "settings.json"@),
{
    paths::join(home, "settings.json")
}

/// Where a project's settings are.
pub fn project_settings_path(cwd: &str) -> (r: String)
    ensures
        r@ == paths::joined(cwd@, ".cupel/settings.json"@),
{
    paths::join(cwd, ".cupel/settings.json")
}

/// Why something was not saved.
#[derive(Debug)]
pub enum SaveError {
    NoHome,
    Malformed { path: String, reason: String },
    Io { path: String, reason: String },
}

/// A save error in words.
pub open spec fn save_error_text(e: SaveError) -> Seq<char> {
    match e {
        SaveError::NoHome => "no cupel home resolvable - set CUPEL_HOME or home directory"@,
        SaveError::Malformed { path, reason } => path@ + " is not valid JSON ("@ + reason@
            + ") - fix or remove, then retry"@,
        SaveError::Io { path, reason } => "cannot write "@ + path@ + ": "@ + reason@,
    }
}

impl SaveError {
    /// The error in words.
    pub fn message(&self) -> (r: String)
        ensures
            r@ == save_error_text(*self),
    {
        match self {
            SaveError::NoHome => "no cupel home resolvable - set CUPEL_HOME or home directory".to_owned(),
            SaveError::Malformed { path, reason } => {
                let mut out = concat3(path.as_str(), " is not valid JSON (", reason.as_str());
                out.push_str(") - fix or remove, then retry");
                out
            },
            SaveError::Io { path, reason } => {
                let mut out = concat3("cannot write ", path.as_str(), ": ");
                out.push_str(reason.as_str());
                out
            },
        }
    }
}

/// What reading a file gave.
pub enum FileRead<T> {
    Missing,
    Unreadable(String),
    Malformed(String),
    Parsed(T),
}

/// What is wrong with a file, in words. A missing file is fine.
pub open spec fn file_problem<T>(path: Seq<char>, read: FileRead<T>) -> Option<Seq<char>> {
    match read {
        FileRead::Missing => None,
        FileRead::Parsed(_) => None,
        FileRead::Unreadable(w) => Some("cannot read "@ + path + ": "@ + w@),
        FileRead::Malformed(w) => Some(path + " is not valid: "@ + w@),
    }
}

/// Says what is wrong with a file.
pub fn file_error<T>(path: &str, read: &FileRead<T>) -> (r: Option<String>)
    ensures
        resources::opt(r) == file_problem(path@, *read),
{
    match read {
        FileRead::Missing => None,
        FileRead::Parsed(_) => None,
        FileRead::Unreadable(w) => {
            let mut out = concat3("cannot read ", path, ": ");
            out.push_str(w.as_str());
            Some(out)
        },
        FileRead::Malformed(w) => Some(concat3(path, " is not valid: ", w.as_str())),
    }
}

/// What a file of settings holds, if nothing is wrong with it: a missing one
/// sets nothing.
pub open spec fn held_settings(read: FileRead<Settings>) -> SettingsView {
    match read {
        FileRead::Parsed(s) => s@,
        _ => SettingsView { providers: Seq::empty(), loop_killer: None, extra: Seq::empty() },
    }
}

/// Takes the settings out of a file that was read. One that was written by
/// hand and has something wrong deserves an error.
pub fn load_settings(path: &str, read: FileRead<Settings>) -> (r: Result<Settings, String>)
    ensures
        match (file_problem(path@, read), r) {
            (None, Ok(s)) => s@ == held_settings(read),
            (Some(e), Err(m)) => m@ == e,
            _ => false,
        },
{
    if let Some(e) = file_error(path, &read) {
        return Err(e);
    }
    match read {
        FileRead::Parsed(s) => Ok(s),
        _ => Ok(Settings::default()),
    }
}

/// The user's settings, and what to warn of. A file with something wrong is
/// skipped.
pub fn load_home_settings(home: Option<&str>, read: FileRead<Settings>) -> (r: (
    Settings,
    Option<String>,
))
    ensures
        match home {
            None => r.0@ == held_settings(FileRead::Missing) && r.1 is None,
            Some(h) => {
                &&& r.0@ == held_settings(read)
                &&& resources::opt(r.1) == match file_problem(
                    paths::joined(h@, "settings.json"@),
                    read,
                ) {
                    Some(e) => Some(
                        "warning: ignoring settings file: "@ + e
                            + " (fix the JSON syntax, e.g. remove trailing commas)"@,
                    ),
                    None => None,
                }
            },
        },
{
    match home {
        None => (Settings::default(), None),
        Some(h) => match load_settings(settings_path(h).as_str(), read) {
            Ok(s) => (s, None),
            Err(e) => (
                Settings::default(),
                Some(
                    concat3(
                        "warning: ignoring settings file: ",
                        e.as_str(),
                        " (fix the JSON syntax, e.g. remove trailing commas)",
                    ),
                ),
            ),
        },
    }
}

/// The settings of a project, and what to warn of. A file with something
/// wrong is skipped.
pub fn load_project_settings(cwd: &str, read: FileRead<Settings>) -> (r: (
    Settings,
    Option<String>,
))
    ensures
        r.0@ == held_settings(read),
        resources::opt(r.1) == match file_problem(
            paths::joined(cwd@, ".cupel/settings.json"@),
            read,
        ) {
            Some(e) => Some("warning: ignoring project settings file: "@ + e),
            None => None,
        },
{
    match load_settings(project_settings_path(cwd).as_str(), read) {
        Ok(s) => (s, None),
        Err(e) => (
            Settings::default(),
            Some(concat2("warning: ignoring project settings file: ", e.as_str())),
        ),
    }
}

/// Prepares the file that stores one more key: the file is read afresh, a
/// missing one is empty, and one that does not parse is refused.
pub fn save_provider_key(
    home: Option<String>,
    read: FileRead<Settings>,
    provider: &str,
    key: &str,
) -> (r: Result<(String, Settings), SaveError>)
    ensures
        match (home, read, r) {
            (None, _, Err(e)) => e is NoHome,
            (Some(h), FileRead::Missing, Ok(x)) => x.0@ == paths::joined(h@, "settings.json"@)
                && x.1@ == (SettingsView {
                providers: seq![(provider@, key@)],
                loop_killer: None,
                extra: Seq::empty(),
            }),
            (Some(h), FileRead::Parsed(s), Ok(x)) => x.0@ == paths::joined(h@, "settings.json"@)
                && x.1@ == (SettingsView {
                providers: with_value(s@.providers, provider@, key@),
                ..s@
            }),
            (Some(h), FileRead::Unreadable(w), Err(SaveError::Io { path, reason })) => path@
                == paths::joined(h@, "settings.json"@) && reason@ == w@,
            (Some(h), FileRead::Malformed(w), Err(SaveError::Malformed { path, reason })) => path@
                == paths::joined(h@, "settings.json"@) && reason@ == w@,
            _ => false,
        },
{
    let home = match home {
        Some(h) => h,
        None => return Err(SaveError::NoHome),
    };
    let path = settings_path(home.as_str());
    let mut settings = match read {
        FileRead::Missing => Settings::default(),
        FileRead::Parsed(s) => s,
        FileRead::Unreadable(reason) => return Err(SaveError::Io { path, reason }),
        FileRead::Malformed(reason) => return Err(SaveError::Malformed { path, reason }),
    };
    settings.set_key(provider, key);
    Ok((path, settings))
}

/// The warning of a project's file that holds keys: these are ignored.
pub open spec fn keys_warning(path: Seq<char>, defines_providers: bool) -> Option<Seq<char>> {
    if defines_providers {
        Some(
            "warning: provider keys in "@ + path
                + " are ignored - API keys belong in ~/.cupel/settings.json only; remove them before they get commited"@,
        )
    } else {
        None
    }
}

/// Whether to warn of a project's file: it holds keys, and these are
/// ignored.
pub fn project_keys_warning(path: &str, defines_providers: bool) -> (r: Option<String>)
    ensures
        resources::opt(r) == keys_warning(path@, defines_providers),
{
    if defines_providers {
        Some(
            concat3(
                "warning: provider keys in ",
                path,
                " are ignored - API keys belong in ~/.cupel/settings.json only; remove them before they get commited",
            ),
        )
    } else {
        None
    }
}

/// Warns of keys in a project's file, given what the file holds, if it can be
/// read. One that is no JSON defines nothing.
pub fn warn_project_settings(cwd: &str, content: Option<&str>) -> (r: Option<String>)
    ensures
        resources::opt(r) == keys_warning(
            paths::joined(cwd@, ".cupel/settings.json"@),
            content matches Some(c) && json::json_has(c@, "providers"@),
        ),
{
    let defined = match content {
        Some(c) => json_has_field(c, "providers"),
        None => false,
    };
    project_keys_warning(project_settings_path(cwd).as_str(), defined)
}

proof fn lemma_under_is_stored(v: Seq<(Seq<char>, Seq<char>)>, name: Seq<char>, from: int)
    requires
        0 <= from <= v.len(),
    ensures
        match value_under(v, name, from) {
            Some(key) => exists|k: int| from <= k < v.len() && #[trigger] v[k] == (name, key),
            None => forall|k: int| from <= k < v.len() ==> (#[trigger] v[k]).0 != name,
        },
    decreases v.len() - from,
{
    if from < v.len() {
        if v[from].0 == name {
            assert(v[from] == (name, v[from].1));
        } else {
            lemma_under_is_stored(v, name, from + 1);
        }
    }
}

/// A key is found under a name exactly when the two are stored together.
pub proof fn law_stored_keys_are_the_keys_found(
    v: Seq<(Seq<char>, Seq<char>)>,
    name: Seq<char>,
    key: Seq<char>,
)
    requires
        names_in_order(v),
    ensures
        value_under(v, name, 0) == Some(key) <==> v.contains((name, key)),
        value_under(v, name, 0) is None <==> forall|k: int|
            0 <= k < v.len() ==> (#[trigger] v[k]).0 != name,
{
    lemma_under_is_stored(v, name, 0);
    if v.contains((name, key)) {
        let i = choose|i: int| 0 <= i < v.len() && v[i] == (name, key);
        assert(v[i].0 == name);
        assert(value_under(v, name, 0) is Some);
        let found = value_under(v, name, 0).unwrap();
        let j = choose|j: int| 0 <= j < v.len() && v[j] == (name, found);
        if i != j {
            text::lemma_before_total(name, name);
            if i < j {
                assert(text::before(v[i].0, v[j].0));
            } else {
                assert(text::before(v[j].0, v[i].0));
            }
        }
    }
}

/// Storing a key adds nothing but that key, and takes nothing but the one
/// that it replaces.
pub proof fn law_storing_touches_one_key(
    v: Seq<(Seq<char>, Seq<char>)>,
    name: Seq<char>,
    key: Seq<char>,
    other: (Seq<char>, Seq<char>),
)
    requires
        names_in_order(v),
    ensures
        other.0 != name ==> with_value(v, name, key).contains(other) == v.contains(other),
        other.0 == name ==> with_value(v, name, key).contains(other) == (other.1 == key),
        with_value(v, name, key).len() == v.len() + (if value_under(v, name, 0) is None {
            1int
        } else {
            0int
        }),
    decreases v.len(),
{
    let w = with_value(v, name, key);
    law_keys_are_found_again(v, name, key, other.0);
    law_stored_keys_are_the_keys_found(v, other.0, other.1);
    law_stored_keys_are_the_keys_found(w, other.0, other.1);
    lemma_stored_count(v, name, key);
}

proof fn lemma_stored_count(v: Seq<(Seq<char>, Seq<char>)>, name: Seq<char>, key: Seq<char>)
    requires
        names_in_order(v),
    ensures
        with_value(v, name, key).len() == v.len() + (if value_under(v, name, 0) is None {
            1int
        } else {
            0int
        }),
    decreases v.len(),
{
    if v.len() == 0 {
    } else {
        lemma_under_first(v, name);
        let rest = v.drop_first();
        assert forall|i: int, j: int| 0 <= i < j < rest.len() implies text::before(
            (#[trigger] rest[i]).0,
            (#[trigger] rest[j]).0,
        ) by {
            assert(rest[i] == v[i + 1] && rest[j] == v[j + 1]);
        }
        if v[0].0 == name {
        } else if text::before(name, v[0].0) {
            lemma_under_is_stored(v, name, 0);
            if value_under(v, name, 0) is Some {
                let key0 = value_under(v, name, 0).unwrap();
                let k = choose|k: int| 0 <= k < v.len() && v[k] == (name, key0);
                assert(text::before(v[0].0, v[k].0));
                text::lemma_before_total(name, v[0].0);
            }
        } else {
            lemma_stored_count(rest, name, key);
        }
    }
}

/// What the project says of the loop killer wins, what it does not say comes
/// from the user, and nothing else is taken from the project.
pub proof fn law_projects_tune_the_loop_killer_only(home: SettingsView, project: SettingsView)
    ensures
        project.loop_killer is Some ==> layers(home, project).loop_killer == project.loop_killer,
        project.loop_killer is None ==> layers(home, project) == home,
        layers(home, project).providers == home.providers,
        layers(home, project).extra == home.extra,
{
}

/// A file that is missing or was parsed has nothing wrong with it; any other
/// is reported with its path and the reason.
pub proof fn law_broken_files_are_reported<T>(path: Seq<char>, read: FileRead<T>)
    ensures
        file_problem(path, read) is None <==> read is Missing || read is Parsed,
        read matches FileRead::Unreadable(w) ==> file_problem(path, read) == Some(
            "cannot read "@ + path + ": "@ + w@,
        ),
        read matches FileRead::Malformed(w) ==> file_problem(path, read) == Some(
            path + " is not valid: "@ + w@,
        ),
{
}

} // verus!
