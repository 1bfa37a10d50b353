//! Who serves which model, and where a key for it comes from.
use std::sync::Arc;

use vstd::prelude::*;

use crate::models::{CompatValue, Model};
use crate::text;

verus! {

/// The variable that holds a provider's key.
pub open spec fn key_variable(provider: Seq<char>) -> Option<Seq<char>> {
    if provider == "anthropic"@ {
        Some("ANTHROPIC_API_KEY"@)
    } else if provider == "openai"@ {
        Some("OPENAI_API_KEY"@)
    } else if provider == "fireworks"@ {
        Some("FIREWORKS_API_KEY"@)
    } else {
        None
    }
}

/// The variable that a provider's key is exported in, unless the provider
/// has credentials of another kind.
pub fn env_var_name(provider: &str) -> (r: Option<&'static str>)
    ensures
        match r {
            Some(s) => key_variable(provider@) == Some(s@),
            None => key_variable(provider@) is None,
        },
{
    if text::same_str(provider, "anthropic") {
        Some("ANTHROPIC_API_KEY")
    } else if text::same_str(provider, "openai") {
        Some("OPENAI_API_KEY")
    } else if text::same_str(provider, "fireworks") {
        Some("FIREWORKS_API_KEY")
    } else {
        None
    }
}

/// The first value under a name.
pub open spec fn value_of(v: Seq<(String, String)>, name: Seq<char>, from: int) -> Option<Seq<char>>
    decreases v.len() - from,
{
    if from >= v.len() {
        None
    } else if v[from].0@ == name {
        Some(v[from].1@)
    } else {
        value_of(v, name, from + 1)
    }
}

/// Looks a value up by its name.
pub fn lookup(v: &Vec<(String, String)>, name: &str) -> (r: Option<String>)
    ensures
        crate::resources::opt(r) == value_of(v@, name@, 0),
{
    let mut i: usize = 0;
    while i < v.len()
        invariant
            i <= v@.len(),
            value_of(v@, name@, 0) == value_of(v@, name@, i as int),
        decreases v@.len() - i,
    {
        if text::same_str(v[i].0.as_str(), name) {
            return Some(v[i].1.clone());
        }
        i += 1;
    }
    None
}

/// The exported key of a provider.
pub open spec fn exported_key(env: Seq<(String, String)>, provider: Seq<char>) -> Option<Seq<char>> {
    match key_variable(provider) {
        Some(name) => value_of(env, name, 0),
        None => None,
    }
}

/// The exported key of a provider, given the variables of the environment.
pub fn env_api_key(env: &Vec<(String, String)>, provider: &str) -> (r: Option<String>)
    ensures
        crate::resources::opt(r) == exported_key(env@, provider@),
{
    match env_var_name(provider) {
        Some(name) => lookup(env, name),
        None => None,
    }
}

/// Whether the environment names credentials for AWS.
pub open spec fn has_aws(env: Seq<(String, String)>) -> bool {
    value_of(env, "AWS_ACCESS_KEY_ID"@, 0) is Some || value_of(env, "AWS_PROFILE"@, 0) is Some
}

/// Whether the environment names credentials for AWS.
pub fn has_aws_credentials(env: &Vec<(String, String)>) -> (r: bool)
    ensures
        r == has_aws(env@),
{
    lookup(env, "AWS_ACCESS_KEY_ID").is_some() || lookup(env, "AWS_PROFILE").is_some()
}

/// The first provider from `from` on with this name.
pub open spec fn provider_index(
    v: Seq<(String, Arc<Model>)>,
    name: Seq<char>,
    from: int,
) -> Option<int>
    decreases v.len() - from,
{
    if from >= v.len() {
        None
    } else if v[from].0@ == name {
        Some(from)
    } else {
        provider_index(v, name, from + 1)
    }
}

/// Finds the first provider with this name.
pub fn find_provider(v: &Vec<(String, Arc<Model>)>, name: &str) -> (r: Option<usize>)
    ensures
        match r {
            Some(i) => i < v@.len() && provider_index(v@, name@, 0) == Some(i as int),
            None => provider_index(v@, name@, 0) is None,
        },
{
    let mut i: usize = 0;
    while i < v.len()
        invariant
            i <= v@.len(),
            provider_index(v@, name@, 0) == provider_index(v@, name@, i as int),
        decreases v@.len() - i,
    {
        if text::same_str(v[i].0.as_str(), name) {
            return Some(i);
        }
        i += 1;
    }
    None
}

/// The providers of the first `n` models, each with its first model, in the
/// order of the catalog.
pub open spec fn providers_of(v: Seq<Arc<Model>>, n: int) -> Seq<(String, Arc<Model>)>
    decreases n,
{
    if n <= 0 {
        Seq::empty()
    } else {
        let before = providers_of(v, n - 1);
        match provider_index(before, v[n - 1].provider@, 0) {
            Some(_) => before,
            None => before.push((v[n - 1].provider, v[n - 1])),
        }
    }
}

/// Lists the providers of a catalog, each with its first model, which is
/// its default.
pub fn catalog_providers(v: &Vec<Arc<Model>>) -> (r: Vec<(String, Arc<Model>)>)
    ensures
        r@ == providers_of(v@, v@.len() as int),
{
    let mut out: Vec<(String, Arc<Model>)> = Vec::new();
    let mut i: usize = 0;
    while i < v.len()
        invariant
            i <= v@.len(),
            out@ == providers_of(v@, i as int),
        decreases v@.len() - i,
    {
        if find_provider(&out, v[i].provider.as_str()).is_none() {
            out.push((v[i].provider.clone(), Arc::clone(&v[i])));
        }
        i += 1;
    }
    out
}

/// The index is that of the first provider with the name, if there is one.
pub proof fn lemma_provider_index(v: Seq<(String, Arc<Model>)>, name: Seq<char>, from: int)
    requires
        0 <= from,
    ensures
        match provider_index(v, name, from) {
            Some(i) => from <= i < v.len() && v[i].0@ == name,
            None => forall|k: int| from <= k < v.len() ==> (#[trigger] v[k]).0@ != name,
        },
    decreases v.len() - from,
{
    if from < v.len() && v[from].0@ != name {
        lemma_provider_index(v, name, from + 1);
    }
}

/// Every provider is listed once, with a model of its own.
pub proof fn law_providers_are_distinct(v: Seq<Arc<Model>>, n: int)
    requires
        0 <= n <= v.len(),
    ensures
        forall|i: int, j: int|
            0 <= i < j < providers_of(v, n).len() ==> (#[trigger] providers_of(v, n)[i]).0@ != (
            #[trigger] providers_of(v, n)[j]).0@,
        forall|i: int|
            0 <= i < providers_of(v, n).len() ==> (#[trigger] providers_of(v, n)[i]).0@
                == providers_of(v, n)[i].1.provider@,
    decreases n,
{
    if n > 0 {
        law_providers_are_distinct(v, n - 1);
        lemma_provider_index(providers_of(v, n - 1), v[n - 1].provider@, 0);
    }
}

/// What the settings for quirks say of keys: the first switch under
/// `requiresApiKey`.
pub open spec fn key_switch(v: Seq<(String, CompatValue)>, from: int) -> Option<bool>
    decreases v.len() - from,
{
    if from >= v.len() {
        None
    } else if v[from].0@ == "requiresApiKey"@ {
        match v[from].1 {
            CompatValue::Flag(b) => Some(b),
            _ => None,
        }
    } else {
        key_switch(v, from + 1)
    }
}

/// Whether a model's endpoint takes no key.
pub open spec fn keyless(m: Model) -> bool {
    match m.compat {
        Some(v) => key_switch(v@, 0) == Some(false),
        None => false,
    }
}

/// Whether a model's endpoint takes no key.
pub fn is_keyless(m: &Model) -> (r: bool)
    ensures
        r == keyless(*m),
{
    match &m.compat {
        Some(v) => {
            let mut i: usize = 0;
            while i < v.len()
                invariant
                    i <= v@.len(),
                    m.compat == Some(*v),
                    key_switch(v@, 0) == key_switch(v@, i as int),
                decreases v@.len() - i,
            {
                if text::same_str(v[i].0.as_str(), "requiresApiKey") {
                    return match &v[i].1 {
                        CompatValue::Flag(b) => !*b,
                        _ => false,
                    };
                }
                i += 1;
            }
            false
        },
        None => false,
    }
}

/// Whether a provider has models and none of them takes a key.
pub open spec fn keyless_provider(v: Seq<Arc<Model>>, provider: Seq<char>) -> bool {
    (exists|k: int| 0 <= k < v.len() && (#[trigger] v[k]).provider@ == provider) && forall|k: int|
        0 <= k < v.len() && (#[trigger] v[k]).provider@ == provider ==> keyless(*v[k])
}

/// Whether a provider has models and none of them takes a key.
pub fn provider_is_keyless(v: &Vec<Arc<Model>>, provider: &str) -> (r: bool)
    ensures
        r == keyless_provider(v@, provider@),
{
    let mut any = false;
    let mut i: usize = 0;
    while i < v.len()
        invariant
            i <= v@.len(),
            any == exists|k: int| 0 <= k < i && (#[trigger] v@[k]).provider@ == provider@,
            forall|k: int|
                0 <= k < i && (#[trigger] v@[k]).provider@ == provider@ ==> keyless(*v@[k]),
        decreases v@.len() - i,
    {
        if text::same_str(v[i].provider.as_str(), provider) {
            if !is_keyless(&v[i]) {
                assert(v@[i as int].provider@ == provider@);
                return false;
            }
            any = true;
            assert(v@[i as int].provider@ == provider@);
        }
        i += 1;
    }
    any
}

proof fn lemma_value_at(v: Seq<(String, String)>, name: Seq<char>, from: int, k: int)
    requires
        0 <= from <= k <= v.len(),
        k < v.len() ==> v[k].0@ == name,
        forall|j: int| from <= j < k ==> (#[trigger] v[j]).0@ != name,
    ensures
        value_of(v, name, from) == (if k < v.len() {
            Some(v[k].1@)
        } else {
            None
        }),
    decreases k - from,
{
    if from < k {
        assert(v[from].0@ != name);
        lemma_value_at(v, name, from + 1, k);
    }
}

/// The first variable of a name gives its value, and a name that no variable
/// has gives none.
pub proof fn law_the_first_variable_counts(v: Seq<(String, String)>, name: Seq<char>, k: int)
    requires
        0 <= k <= v.len(),
        k < v.len() ==> v[k].0@ == name,
        forall|j: int| 0 <= j < k ==> (#[trigger] v[j]).0@ != name,
    ensures
        k < v.len() ==> value_of(v, name, 0) == Some(v[k].1@),
        k == v.len() ==> value_of(v, name, 0) is None,
{
    lemma_value_at(v, name, 0, k);
}

/// Either a key or a profile makes AWS credentials.
pub proof fn law_a_key_or_a_profile_is_enough(env: Seq<(String, String)>, k: int)
    requires
        0 <= k < env.len(),
        env[k].0@ == "AWS_ACCESS_KEY_ID"@ || env[k].0@ == "AWS_PROFILE"@,
    ensures
        has_aws(env),
{
    lemma_value_is_there(env, env[k].0@, 0, k);
}

proof fn lemma_value_is_there(v: Seq<(String, String)>, name: Seq<char>, from: int, k: int)
    requires
        0 <= from <= k < v.len(),
        v[k].0@ == name,
    ensures
        value_of(v, name, from) is Some,
    decreases k - from,
{
    if from < k && v[from].0@ != name {
        lemma_value_is_there(v, name, from + 1, k);
    }
}

/// Whether no model before this one is from its provider.
pub open spec fn first_of_its_provider(v: Seq<Arc<Model>>, k: int) -> bool {
    forall|j: int| 0 <= j < k ==> (#[trigger] v[j]).provider@ != v[k].provider@
}

/// Every provider of a model is listed, with the first model that it has.
pub proof fn law_every_provider_is_listed(v: Seq<Arc<Model>>, n: int, k: int)
    requires
        0 <= k < n <= v.len(),
    ensures
        exists|i: int|
            0 <= i < providers_of(v, n).len() && (#[trigger] providers_of(v, n)[i]).0@
                == v[k].provider@,
        first_of_its_provider(v, k) ==> exists|i: int|
            0 <= i < providers_of(v, n).len() && (#[trigger] providers_of(v, n)[i]) == (
                v[k].provider,
                v[k],
            ),
    decreases n,
{
    let before = providers_of(v, n - 1);
    let all = providers_of(v, n);
    lemma_provider_index(before, v[n - 1].provider@, 0);
    if k == n - 1 {
        match provider_index(before, v[k].provider@, 0) {
            Some(i) => {
                assert(all[i].0@ == v[k].provider@);
                if first_of_its_provider(v, k) {
                    lemma_listed_comes_from(v, n - 1, i);
                }
            },
            None => {
                assert(all[before.len() as int] == (v[k].provider, v[k]));
            },
        }
    } else {
        law_every_provider_is_listed(v, n - 1, k);
        let i = choose|i: int|
            0 <= i < before.len() && (#[trigger] before[i]).0@ == v[k].provider@;
        assert(all[i] == before[i]);
        if first_of_its_provider(v, k) {
            let j = choose|j: int|
                0 <= j < before.len() && (#[trigger] before[j]) == (v[k].provider, v[k]);
            assert(all[j] == before[j]);
        }
    }
}

proof fn lemma_listed_comes_from(v: Seq<Arc<Model>>, n: int, i: int)
    requires
        0 <= n <= v.len(),
        0 <= i < providers_of(v, n).len(),
    ensures
        exists|j: int|
            0 <= j < n && (#[trigger] v[j]).provider@ == providers_of(v, n)[i].0@,
    decreases n,
{
    let before = providers_of(v, n - 1);
    if i < before.len() {
        lemma_listed_comes_from(v, n - 1, i);
        let j = choose|j: int|
            0 <= j < n - 1 && (#[trigger] v[j]).provider@ == before[i].0@;
        assert(v[j].provider@ == providers_of(v, n)[i].0@);
    } else {
        assert(v[n - 1].provider@ == providers_of(v, n)[i].0@);
    }
}

proof fn lemma_switch_at(v: Seq<(String, CompatValue)>, from: int, k: int)
    requires
        0 <= from <= k <= v.len(),
        k < v.len() ==> v[k].0@ == "requiresApiKey"@,
        forall|j: int| from <= j < k ==> (#[trigger] v[j]).0@ != "requiresApiKey"@,
    ensures
        key_switch(v, from) == (if k < v.len() {
            match v[k].1 {
                CompatValue::Flag(b) => Some(b),
                _ => None,
            }
        } else {
            None
        }),
    decreases k - from,
{
    if from < k {
        assert(v[from].0@ != "requiresApiKey"@);
        lemma_switch_at(v, from + 1, k);
    }
}

/// A model needs no key exactly when it says so; one that says nothing of
/// keys, or nothing at all, needs one.
pub proof fn law_models_say_that_they_need_no_key(m: Model, v: Vec<(String, CompatValue)>, k: int)
    requires
        m.compat == Some(v),
        0 <= k <= v@.len(),
        k < v@.len() ==> v@[k].0@ == "requiresApiKey"@,
        forall|j: int| 0 <= j < k ==> (#[trigger] v@[j]).0@ != "requiresApiKey"@,
    ensures
        keyless(m) <==> k < v@.len() && v@[k].1 == CompatValue::Flag(false),
        keyless(Model { compat: None, ..m }) == false,
{
    lemma_switch_at(v@, 0, k);
}

} // verus!
