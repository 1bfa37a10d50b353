//! Where the key for a provider comes from, and what may be said of it.
//!
//! A key that was entered in this session wins, then an exported one, then
//! one in the settings. Keys themselves are never shown.
use std::sync::Arc;

use vstd::prelude::*;

use crate::models::Model;
use crate::providers::{env_api_key, env_var_name, has_aws_credentials, provider_is_keyless};
use crate::settings::{Settings, SettingsView};
use crate::text::{concat2, concat3, same_str};
use crate::{providers, resources, settings, text};

verus! {

/// Everything that keys can come from.
pub struct Credentials {
    /// The keys that were entered in this session.
    pub session: Settings,
    /// The variables of the environment.
    pub env: Vec<(String, String)>,
    /// The settings.
    pub stored: Settings,
    /// Whether there is a subscription login.
    pub logged_in: bool,
}

/// Everything that keys can come from.
pub struct CredentialsView {
    pub session: SettingsView,
    pub env: Seq<(String, String)>,
    pub stored: SettingsView,
    pub logged_in: bool,
}

impl View for Credentials {
    type V = CredentialsView;

    open spec fn view(&self) -> CredentialsView {
        CredentialsView {
            session: self.session@,
            env: self.env@,
            stored: self.stored@,
            logged_in: self.logged_in,
        }
    }
}

/// The key for a provider.
pub open spec fn key_for(v: CredentialsView, provider: Seq<char>) -> Option<Seq<char>> {
    match settings::value_under(v.session.providers, provider, 0) {
        Some(key) => Some(key),
        None => match providers::exported_key(v.env, provider) {
            Some(key) => Some(key),
            None => settings::value_under(v.stored.providers, provider, 0),
        },
    }
}

/// Whether a provider has a place for a key. One that has credentials of
/// another kind, or needs none, has not.
pub open spec fn takes_key(models: Seq<Arc<Model>>, provider: Seq<char>) -> bool {
    provider != "amazon-bedrock"@ && provider != "openai-codex"@ && !providers::keyless_provider(
        models,
        provider,
    )
}

/// The name that stands for a provider's variable.
pub open spec fn variable_or(provider: Seq<char>, other: Seq<char>) -> Seq<char> {
    match providers::key_variable(provider) {
        Some(name) => name,
        None => other,
    }
}

/// What a listing says of a provider's credentials.
pub open spec fn status_of(
    v: CredentialsView,
    models: Seq<Arc<Model>>,
    provider: Seq<char>,
) -> Seq<char> {
    if provider == "amazon-bedrock"@ {
        if providers::has_aws(v.env) {
            "AWS credentials found"@
        } else {
            "no AWS credentials"@
        }
    } else if provider == "openai-codex"@ {
        if v.logged_in {
            "logged in"@
        } else {
            "not logged in (/login openai-codex)"@
        }
    } else if providers::keyless_provider(models, provider) {
        "local endpoint - no key required"@
    } else if settings::value_under(v.session.providers, provider, 0) is Some {
        "key entered this session"@
    } else if providers::exported_key(v.env, provider) is Some {
        variable_or(provider, "env"@) + " exported"@
    } else if settings::value_under(v.stored.providers, provider, 0) is Some {
        "key in settings.json"@
    } else {
        "no key ("@ + variable_or(provider, "env"@) + " unset)"@
    }
}

/// What a switch to a provider says of its credentials.
pub open spec fn source_of(
    v: CredentialsView,
    models: Seq<Arc<Model>>,
    provider: Seq<char>,
) -> Seq<char> {
    if provider == "amazon-bedrock"@ {
        "AWS credential chain"@
    } else if provider == "openai-codex"@ {
        if v.logged_in {
            "subscription login"@
        } else {
            "NOT LOGGED IN - use /login openai-codex"@
        }
    } else if providers::keyless_provider(models, provider) {
        "local endpoint - no key required"@
    } else if settings::value_under(v.session.providers, provider, 0) is Some {
        "using the key entered this session"@
    } else if providers::exported_key(v.env, provider) is Some {
        "using exported "@ + variable_or(provider, "env"@)
    } else if settings::value_under(v.stored.providers, provider, 0) is Some {
        "using the key in settings.json"@
    } else {
        "NO KEY - requests will fail; set one with /provider "@ + provider + " <api-key>"@
    }
}

/// Whether a provider has a place for a key.
pub fn accepts_key(models: &Vec<Arc<Model>>, provider: &str) -> (r: bool)
    ensures
        r == takes_key(models@, provider@),
{
    !same_str(provider, "amazon-bedrock") && !same_str(provider, "openai-codex")
        && !provider_is_keyless(models, provider)
}

fn variable_text(provider: &str) -> (r: &'static str)
    ensures
        r@ == variable_or(provider@, "env"@),
{
    match env_var_name(provider) {
        Some(name) => name,
        None => "env",
    }
}

impl Credentials {
    /// The key for a provider: entered in this session, else exported, else
    /// stored.
    pub fn resolve(&self, provider: &str) -> (r: Option<String>)
        ensures
            resources::opt(r) == key_for(self@, provider@),
    {
        if let Some(key) = self.session.api_key(provider) {
            return Some(key.to_owned());
        }
        if let Some(key) = env_api_key(&self.env, provider) {
            return Some(key);
        }
        match self.stored.api_key(provider) {
            Some(key) => Some(key.to_owned()),
            None => None,
        }
    }

    /// Notes a key that was entered in this session.
    pub fn enter(&mut self, provider: &str, key: &str)
        ensures
            final(self)@ == (CredentialsView {
                session: SettingsView {
                    providers: settings::with_value(
                        old(self)@.session.providers,
                        provider@,
                        key@,
                    ),
                    ..old(self)@.session
                },
                ..old(self)@
            }),
    {
        self.session.set_key(provider, key);
    }

    /// What a listing says of a provider's credentials.
    pub fn status(&self, models: &Vec<Arc<Model>>, provider: &str) -> (r: String)
        ensures
            r@ == status_of(self@, models@, provider@),
    {
        if same_str(provider, "amazon-bedrock") {
            return if has_aws_credentials(&self.env) {
                "AWS credentials found".to_owned()
            } else {
                "no AWS credentials".to_owned()
            };
        }
        if same_str(provider, "openai-codex") {
            return if self.logged_in {
                "logged in".to_owned()
            } else {
                "not logged in (/login openai-codex)".to_owned()
            };
        }
        if provider_is_keyless(models, provider) {
            return "local endpoint - no key required".to_owned();
        }
        if self.session.api_key(provider).is_some() {
            return "key entered this session".to_owned();
        }
        if env_api_key(&self.env, provider).is_some() {
            return concat2(variable_text(provider), " exported");
        }
        if self.stored.api_key(provider).is_some() {
            return "key in settings.json".to_owned();
        }
        concat3("no key (", variable_text(provider), " unset)")
    }

    /// What a switch to a provider says of its credentials.
    pub fn source(&self, models: &Vec<Arc<Model>>, provider: &str) -> (r: String)
        ensures
            r@ == source_of(self@, models@, provider@),
    {
        if same_str(provider, "amazon-bedrock") {
            return "AWS credential chain".to_owned();
        }
        if same_str(provider, "openai-codex") {
            return if self.logged_in {
                "subscription login".to_owned()
            } else {
                "NOT LOGGED IN - use /login openai-codex".to_owned()
            };
        }
        if provider_is_keyless(models, provider) {
            return "local endpoint - no key required".to_owned();
        }
        if self.session.api_key(provider).is_some() {
            return "using the key entered this session".to_owned();
        }
        if env_api_key(&self.env, provider).is_some() {
            return concat2("using exported ", variable_text(provider));
        }
        if self.stored.api_key(provider).is_some() {
            return "using the key in settings.json".to_owned();
        }
        concat3(
            "NO KEY - requests will fail; set one with /provider ",
            provider,
            " <api-key>",
        )
    }
}

/// A key that was entered in this session wins over every other one.
pub proof fn law_entered_keys_win(v: CredentialsView, provider: Seq<char>, key: Seq<char>)
    requires
        settings::names_in_order(v.session.providers),
    ensures
        key_for(
            CredentialsView {
                session: SettingsView {
                    providers: settings::with_value(v.session.providers, provider, key),
                    ..v.session
                },
                ..v
            },
            provider,
        ) == Some(key),
{
    settings::law_keys_are_found_again(v.session.providers, provider, key, provider);
}

/// Whether two sets of credentials know the same of a provider, but for the
/// keys themselves.
pub open spec fn alike(a: CredentialsView, b: CredentialsView, provider: Seq<char>) -> bool {
    (settings::value_under(a.session.providers, provider, 0) is Some <==> settings::value_under(
        b.session.providers,
        provider,
        0,
    ) is Some) && (providers::exported_key(a.env, provider) is Some <==> providers::exported_key(
        b.env,
        provider,
    ) is Some) && (settings::value_under(a.stored.providers, provider, 0) is Some
        <==> settings::value_under(b.stored.providers, provider, 0) is Some) && providers::has_aws(a.env)
        == providers::has_aws(b.env) && a.logged_in == b.logged_in
}

/// What is shown of credentials tells where a key is, never the key: it is
/// the same for every key.
pub proof fn law_nothing_shown_depends_on_a_key(
    a: CredentialsView,
    b: CredentialsView,
    models: Seq<Arc<Model>>,
    provider: Seq<char>,
)
    requires
        alike(a, b, provider),
    ensures
        status_of(a, models, provider) == status_of(b, models, provider),
        source_of(a, models, provider) == source_of(b, models, provider),
{
}

/// A key that was entered in this session comes first, an exported one next,
/// and one in the settings last.
pub proof fn law_keys_are_looked_up_in_order(v: CredentialsView, provider: Seq<char>)
    ensures
        ({
            let entered = settings::value_under(v.session.providers, provider, 0);
            let exported = providers::exported_key(v.env, provider);
            let stored = settings::value_under(v.stored.providers, provider, 0);
            &&& entered is Some ==> key_for(v, provider) == entered
            &&& entered is None && exported is Some ==> key_for(v, provider) == exported
            &&& entered is None && exported is None ==> key_for(v, provider) == stored
        }),
{
}

/// Where a provider takes a key and none is to be found, that is said, and
/// with which command one is set.
pub proof fn law_a_missing_key_is_reported(
    v: CredentialsView,
    models: Seq<Arc<Model>>,
    provider: Seq<char>,
)
    requires
        takes_key(models, provider),
        key_for(v, provider) is None,
    ensures
        text::has_prefix(status_of(v, models, provider), "no key ("@),
        source_of(v, models, provider) == "NO KEY - requests will fail; set one with /provider "@
            + provider + " <api-key>"@,
{
    let s = status_of(v, models, provider);
    assert(s.take("no key ("@.len() as int) =~= "no key ("@);
}

} // verus!
