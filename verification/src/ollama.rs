//! Models that a local ollama server offers.
use std::sync::Arc;

use vstd::prelude::*;

use crate::json::json_texts_field;
use crate::models::{CompatValue, InputModality, Model, ModelCost};
use crate::text::{chars_of, concat2, slice, starts_with, string_of, to_text, trimmed};
use crate::{json, resources, text};

verus! {

/// The context window that a discovered model is given: what the server
/// itself uses unless told otherwise.
pub const DEFAULT_CONTEXT_WINDOW: u64 = 4096;

/// The text without trailing slashes.
pub open spec fn without_slashes(s: Seq<char>) -> Seq<char>
    decreases s.len(),
{
    if s.len() > 0 && s.last() == '/' {
        without_slashes(s.drop_last())
    } else {
        s
    }
}

/// An address with a scheme and without a trailing slash.
pub open spec fn normalized(raw: Seq<char>) -> Seq<char> {
    let t = without_slashes(text::trim(raw));
    if text::has_prefix(t, "http://"@) || text::has_prefix(t, "https://"@) {
        t
    } else {
        "http://"@ + t
    }
}

/// Gives an address a scheme and drops trailing slashes.
pub fn normalize_host(raw: &str) -> (r: String)
    ensures
        r@ == normalized(raw@),
{
    let t = trimmed(&chars_of(raw));
    let mut n: usize = t.len();
    assert(t@.take(n as int) =~= t@);
    while n > 0 && t[n - 1] == '/'
        invariant
            n <= t@.len(),
            without_slashes(t@) == without_slashes(t@.take(n as int)),
        decreases n,
    {
        assert(t@.take(n as int).drop_last() =~= t@.take(n - 1));
        n -= 1;
    }
    let host = slice(&t, 0, n);
    assert(host@ =~= t@.take(n as int));
    if starts_with(&host, "http://") || starts_with(&host, "https://") {
        to_text(&host)
    } else {
        concat2("http://", string_of(&host, 0, host.len()).as_str())
    }
}

/// Where the server is: where the environment says, unless that is blank,
/// else on this machine.
pub fn ollama_host(env_value: Option<String>) -> (r: String)
    ensures
        r@ == (match resources::opt(env_value) {
            Some(v) => if text::is_blank(v) {
                "http://localhost:11434"@
            } else {
                normalized(v)
            },
            None => "http://localhost:11434"@,
        }),
{
    match env_value {
        Some(v) => if text::blank(v.as_str()) {
            "http://localhost:11434".to_owned()
        } else {
            normalize_host(v.as_str())
        },
        None => "http://localhost:11434".to_owned(),
    }
}

/// The settings for the quirks of a local server: no key, and nothing in a
/// request that a strict server would refuse.
pub open spec fn is_local_compat(v: Seq<(String, CompatValue)>) -> bool {
    v.len() == 6 && is_off(v[0], "requiresApiKey"@) && is_off(v[1], "supportsStore"@) && is_off(
        v[2],
        "supportsDeveloperRole"@,
    ) && is_off(v[3], "supportsStrictMode"@) && is_off(v[4], "supportsReasoningEffort"@) && v[5].0@
        == "maxTokensField"@ && (v[5].1 matches CompatValue::Text(t) && t@ == "max_tokens"@)
}

/// Whether a setting is a switch that is off.
pub open spec fn is_off(c: (String, CompatValue), name: Seq<char>) -> bool {
    c.0@ == name && c.1 == CompatValue::Flag(false)
}

/// Whether a model is the catalog entry for a name that the server lists.
pub open spec fn is_local_model(m: Model, name: Seq<char>, host: Seq<char>) -> bool {
    &&& m.id@ == name
    &&& m.name@ == name
    &&& m.api@ == "openai-completions"@
    &&& m.provider@ == "ollama"@
    &&& m.base_url@ == host + "/v1"@
    &&& !m.reasoning
    &&& m.thinking_level_map is None
    &&& m.input@ == seq![InputModality::Text]
    &&& m.cost.input == 0
    &&& m.cost.output == 0
    &&& m.cost.cached_read == 0
    &&& m.cost.cached_write == 0
    &&& m.cost.tiers is None
    &&& m.context_window == DEFAULT_CONTEXT_WINDOW
    &&& m.max_tokens == DEFAULT_CONTEXT_WINDOW
    &&& m.headers is None
    &&& m.compat matches Some(v)
    &&& is_local_compat(v@)
}

fn off(name: &str) -> (r: (String, CompatValue))
    ensures
        is_off(r, name@),
{
    (name.to_owned(), CompatValue::Flag(false))
}

fn local_model(name: &str, host: &str) -> (r: Model)
    ensures
        is_local_model(r, name@, host@),
{
    let mut input: Vec<InputModality> = Vec::new();
    input.push(InputModality::Text);
    assert(input@ =~= seq![InputModality::Text]);
    let mut compat: Vec<(String, CompatValue)> = Vec::new();
    compat.push(off("requiresApiKey"));
    compat.push(off("supportsStore"));
    compat.push(off("supportsDeveloperRole"));
    compat.push(off("supportsStrictMode"));
    compat.push(off("supportsReasoningEffort"));
    compat.push(("maxTokensField".to_owned(), CompatValue::Text("max_tokens".to_owned())));
    Model {
        id: name.to_owned(),
        name: name.to_owned(),
        api: "openai-completions".to_owned(),
        provider: "ollama".to_owned(),
        base_url: concat2(host, "/v1"),
        reasoning: false,
        thinking_level_map: None,
        input,
        cost: ModelCost { input: 0, output: 0, cached_read: 0, cached_write: 0, tiers: None },
        context_window: DEFAULT_CONTEXT_WINDOW,
        max_tokens: DEFAULT_CONTEXT_WINDOW,
        headers: None,
        compat: Some(compat),
    }
}

/// The names among the first `n` entries of a listing.
pub open spec fn given_names(tags: Seq<Option<Seq<char>>>, n: int) -> Seq<Seq<char>>
    decreases n,
{
    if n <= 0 {
        Seq::empty()
    } else {
        match tags[n - 1] {
            Some(s) => given_names(tags, n - 1).push(s),
            None => given_names(tags, n - 1),
        }
    }
}

/// Makes catalog entries of a listing: one for every entry with a name.
pub fn models_named(tags: &Vec<Option<String>>, host: &str) -> (r: Vec<Arc<Model>>)
    ensures
        are_named(r@, json::opt_texts(tags@), host@),
{
    let ghost views = json::opt_texts(tags@);
    let mut out: Vec<Arc<Model>> = Vec::new();
    let mut i: usize = 0;
    while i < tags.len()
        invariant
            i <= tags@.len(),
            views == json::opt_texts(tags@),
            out@.len() == given_names(views, i as int).len(),
            forall|k: int|
                0 <= k < out@.len() ==> is_local_model(
                    *(#[trigger] out@[k]),
                    given_names(views, i as int)[k],
                    host@,
                ),
        decreases tags@.len() - i,
    {
        assert(views[i as int] == resources::opt(tags@[i as int]));
        if let Some(name) = &tags[i] {
            out.push(Arc::new(local_model(name.as_str(), host)));
        }
        i += 1;
    }
    out
}

/// The names in what the server answers, one for every entry of its list,
/// where the entry has one.
pub open spec fn tag_names(json: Seq<char>) -> Seq<Option<Seq<char>>> {
    match json::json_texts(json, "models"@, "name"@) {
        Some(names) => names,
        None => Seq::empty(),
    }
}

/// Reads what the server answers: a name for every entry of its list, where
/// the entry has one.
pub fn read_tags(json: &str) -> (r: Vec<Option<String>>)
    ensures
        json::opt_texts(r@) == tag_names(json@),
{
    match json_texts_field(json, "models", "name") {
        Some(names) => names,
        None => {
            let none: Vec<Option<String>> = Vec::new();
            assert(json::opt_texts(none@) =~= Seq::empty());
            none
        },
    }
}

/// Whether the models are the catalog entries for the names, where there are
/// names.
pub open spec fn are_named(models: Seq<Arc<Model>>, tags: Seq<Option<Seq<char>>>, host: Seq<char>) -> bool {
    &&& models.len() == given_names(tags, tags.len() as int).len()
    &&& forall|k: int|
        0 <= k < models.len() ==> is_local_model(
            *(#[trigger] models[k]),
            given_names(tags, tags.len() as int)[k],
            host,
        )
}

/// Makes catalog entries of what the server answers.
pub fn models_from_tags(json: &str, host: &str) -> (r: Vec<Arc<Model>>)
    ensures
        are_named(r@, tag_names(json@), host@),
{
    let tags = read_tags(json);
    models_named(&tags, host)
}

proof fn lemma_slashes(s: Seq<char>, n: nat)
    requires
        s.len() > 0 ==> s.last() != '/',
    ensures
        without_slashes(s + text::repeated('/', n)) == s,
    decreases n,
{
    let t = s + text::repeated('/', n);
    if n > 0 {
        lemma_slashes(s, (n - 1) as nat);
        assert(t.last() == '/');
        assert(t.drop_last() =~= s + text::repeated('/', (n - 1) as nat));
    } else {
        assert(t =~= s);
    }
}

/// A host keeps the scheme that it was given with and gets `http` otherwise.
/// White space around it and slashes at its end do not matter.
pub proof fn law_hosts_become_addresses(host: Seq<char>, slashes: nat)
    requires
        host.len() > 0,
        host.last() != '/',
        !text::is_white_space(host[0]) && !text::is_white_space(host.last()),
    ensures
        ({
            let given = host + text::repeated('/', slashes);
            let has_scheme = text::has_prefix(host, "http://"@) || text::has_prefix(
                host,
                "https://"@,
            );
            &&& has_scheme ==> normalized(given) == host
            &&& !has_scheme ==> normalized(given) == "http://"@ + host
            &&& normalized(seq![' '] + given) == normalized(given)
            &&& normalized(given.push('\n')) == normalized(given)
        }),
{
    let given = host + text::repeated('/', slashes);
    assert(!text::is_white_space('/'));
    assert(given[0] == host[0]);
    assert(given.last() == (if slashes == 0 {
        host.last()
    } else {
        '/'
    }));
    text::lemma_leading_space(given);
    assert(text::leading_space(given) == 0);
    assert(given.skip(0) =~= given);
    text::lemma_trim_end(given);
    assert(text::trim(given) =~= given);
    let a = seq![' '] + given;
    text::lemma_leading_space(a);
    assert(a[0] == ' ' && a[1] == given[0]);
    assert(text::leading_space(a) == 1);
    assert(a.skip(1) =~= given);
    let b = given.push('\n');
    text::lemma_leading_space(b);
    assert(b[0] == given[0]);
    assert(text::leading_space(b) == 0);
    assert(b.skip(0) =~= b);
    assert(b.drop_last() =~= given);
    assert(text::trim_end(b) == text::trim_end(given));
    lemma_slashes(host, slashes);
}

proof fn lemma_given_names(tags: Seq<Option<Seq<char>>>, n: int)
    requires
        0 <= n <= tags.len(),
    ensures
        given_names(tags, n).map_values(|s: Seq<char>| Some(s)) == tags.take(n).filter(
            |t: Option<Seq<char>>| t is Some,
        ),
    decreases n,
{
    reveal(Seq::filter);
    let keep = |t: Option<Seq<char>>| t is Some;
    let wrap = |s: Seq<char>| Some(s);
    if n > 0 {
        lemma_given_names(tags, n - 1);
        assert(tags.take(n).drop_last() =~= tags.take(n - 1));
        assert(tags.take(n).last() == tags[n - 1]);
        match tags[n - 1] {
            Some(s) => {
                assert(given_names(tags, n).map_values(wrap) =~= given_names(
                    tags,
                    n - 1,
                ).map_values(wrap).push(Some(s)));
            },
            None => {},
        }
    } else {
        assert(tags.take(n) =~= Seq::empty());
        assert(given_names(tags, n).map_values(wrap) =~= Seq::empty());
    }
}

/// Every entry with a name becomes a model, in its order, and one without a
/// name costs no other.
pub proof fn law_every_named_entry_is_a_model(tags: Seq<Option<Seq<char>>>)
    ensures
        given_names(tags, tags.len() as int).map_values(|s: Seq<char>| Some(s)) == tags.filter(
            |t: Option<Seq<char>>| t is Some,
        ),
{
    lemma_given_names(tags, tags.len() as int);
    assert(tags.take(tags.len() as int) =~= tags);
}

} // verus!
