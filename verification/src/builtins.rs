//! The built-in commands of the interface. They are handled on the spot and
//! never reach the model.
use std::sync::Arc;

use vstd::prelude::*;

use crate::agent::{AgentView, StateView};
use crate::app::{App, AppView, MetaView, ReloadTarget, ReloadView, Request, RequestView, Totals};
use crate::commands::parse_command_args;
use crate::credentials::{accepts_key, CredentialsView};
use crate::levels::level_named;
use crate::login::{LoginEvent, LoginFlow};
use crate::messages::{usage_words, ThinkingLevel};
use crate::models::{find_model, Model};
use crate::providers::{catalog_providers, find_provider};
use crate::session::SessionSummary;
use crate::settings::{SaveError, SettingsView};
use crate::text::{chars_of, concat2, concat3, split_head, to_text, trimmed};
use crate::transcript::{CellView, Transcript};
use crate::{
    app, commands, credentials, input, levels, login, messages, models, notices, providers,
    resources, settings, text, transcript,
};

verus! {

// ---------------------------------------------------------------------------
// Models and providers
// ---------------------------------------------------------------------------

/// The interface with another model: its key comes with it.
pub open spec fn switched(v: AppView, m: Arc<Model>) -> AppView {
    AppView {
        meta: MetaView { model_name: m.name@, provider: m.provider@, ..v.meta },
        agent: AgentView {
            api_key: credentials::key_for(v.credentials, m.provider@),
            state: StateView { model: m, ..v.agent.state },
            ..v.agent
        },
        ..v
    }
}

/// The interface with a key that was entered in this session. It is to be
/// stored.
pub open spec fn with_key(v: AppView, provider: Seq<char>, key: Seq<char>) -> AppView {
    app::asking(
        AppView {
            credentials: CredentialsView {
                session: SettingsView {
                    providers: settings::with_value(
                        v.credentials.session.providers,
                        provider,
                        key,
                    ),
                    ..v.credentials.session
                },
                ..v.credentials
            },
            ..v
        },
        RequestView::SaveKey { provider, key },
    )
}

/// The first two words of a text.
pub open spec fn two_words(args: Seq<char>) -> (Seq<char>, Option<Seq<char>>) {
    let (first, rest) = text::head_and_rest(text::trim(args));
    let second = text::head_and_rest(text::trim(rest)).0;
    (
        first,
        if second.len() > 0 {
            Some(second)
        } else {
            None
        },
    )
}

/// The interface once a key was entered for a provider, or not.
pub open spec fn key_entered(v: AppView, provider: Seq<char>, key: Option<Seq<char>>) -> AppView {
    match key {
        Some(k) => if credentials::takes_key(v.meta.models, provider) {
            with_key(v, provider, k)
        } else {
            app::noted(v, provider + " does not take an API key - key ignored"@)
        },
        None => v,
    }
}

/// The interface after `/provider`.
pub open spec fn after_provider(v: AppView, args: Seq<char>) -> AppView {
    let (name, key) = two_words(args);
    let list = providers::providers_of(v.meta.models, v.meta.models.len() as int);
    if name.len() == 0 {
        app::noted(v, notices::providers_of(v.credentials, v.meta.models))
    } else {
        match providers::provider_index(list, name, 0) {
            None => app::noted(
                v,
                "unknown provider: "@ + name + " (/provider lists them)"@,
            ),
            Some(i) => {
                let w = key_entered(v, name, key);
                app::noted(
                    switched(w, list[i].1),
                    "provider switched to "@ + name + " (model "@ + list[i].1.id@ + "; "@
                        + credentials::source_of(w.credentials, v.meta.models, name) + ")"@,
                )
            },
        }
    }
}

/// The interface after `/model`.
pub open spec fn after_model(v: AppView, args: Seq<char>) -> AppView {
    if args.len() == 0 {
        app::noted(
            v,
            "available models (/model <id>):"@ + notices::model_lines(
                v.meta.models,
                v.meta.models.len() as int,
            ),
        )
    } else {
        match models::model_index(v.meta.models, args, 0) {
            Some(i) => app::noted(
                switched(v, v.meta.models[i]),
                "model switched to "@ + args + " (takes effect next request)"@,
            ),
            None => app::noted(v, "unknown model: "@ + args + " (/model lists them)"@),
        }
    }
}

// ---------------------------------------------------------------------------
// The other commands
// ---------------------------------------------------------------------------

/// The interface after `/new`.
pub open spec fn after_new(v: AppView) -> AppView {
    if v.running {
        app::noted(v, "cannot clear while the agent is working (esc to abort first)"@)
    } else {
        app::noted(
            AppView {
                agent: AgentView {
                    state: StateView {
                        messages: Seq::empty(),
                        error_message: None,
                        ..v.agent.state
                    },
                    ..v.agent
                },
                cells: Seq::empty(),
                totals: Totals { input: 0, output: 0, cache_read: 0, cost: 0 },
                selected: None,
                ..v
            },
            "conversation cleared"@,
        )
    }
}

/// The interface after `/hot-reload`.
pub open spec fn after_reload(v: AppView, args: Seq<char>) -> AppView {
    if v.running {
        app::noted(v, "cannot hot-reload while the agent is working (esc to abort first)"@)
    } else {
        AppView {
            pending_reload: Some(
                if args.len() == 0 {
                    ReloadView::Current
                } else {
                    ReloadView::Resume(args)
                },
            ),
            ..v
        }
    }
}

/// The interface after `/thinking`.
pub open spec fn after_thinking(v: AppView, args: Seq<char>) -> AppView {
    match levels::level_of(args) {
        Some(level) => app::noted(
            AppView {
                agent: AgentView {
                    state: StateView { thinking_level: level, ..v.agent.state },
                    ..v.agent
                },
                ..v
            },
            "thinking level set to "@ + args,
        ),
        None => app::noted(v, "usage: /thinking off|minimal|low|medium|high|xhigh"@),
    }
}

/// The interface after `/login`: a login starts, or one that waits takes the
/// pasted text.
pub open spec fn after_login(v: AppView, args: Seq<char>) -> AppView {
    let (name, pasted) = two_words(args);
    if name != "openai-codex"@ {
        app::noted(v, "usage: /login openai-codex [redirect-url]"@)
    } else {
        match pasted {
            None => app::asking(
                AppView { login: Some((true, None)), ..v },
                RequestView::LoginBrowser,
            ),
            Some(p) => if p == "device"@ {
                app::asking(AppView { login: Some((false, None)), ..v }, RequestView::LoginDevice)
            } else {
                match v.login {
                    Some((true, _)) => app::noted(
                        AppView { login: Some((false, Some(p))), ..v },
                        "authorization code received - exchanging for tokens..."@,
                    ),
                    _ => app::noted(v, "no login is waiting for a code"@),
                }
            },
        }
    }
}

/// The interface after `/logout`.
pub open spec fn after_logout(v: AppView, args: Seq<char>) -> AppView {
    if text::trim(args) != "openai-codex"@ {
        app::noted(v, "usage: /logout openai-codex"@)
    } else {
        app::asking(v, RequestView::Logout("openai-codex"@))
    }
}

/// The interface after a built-in command, or nothing where the name is not
/// that of one.
#[verifier::opaque]
pub open spec fn after_builtin(v: AppView, name: Seq<char>, args: Seq<char>) -> Option<AppView> {
    if name == "help"@ {
        Some(app::noted(v, notices::help_of(v.meta.templates)))
    } else if name == "session-id"@ {
        Some(app::asking(v, RequestView::ListSessions))
    } else if name == "review"@ {
        Some(app::asking(v, RequestView::Review(commands::args_of(args))))
    } else if name == "usage"@ {
        Some(
            app::noted(
                v,
                "session totals: "@ + messages::usage_note(
                    v.totals.input as nat,
                    v.totals.output as nat,
                    v.totals.cache_read as nat,
                    v.totals.cost as nat,
                ),
            ),
        )
    } else if name == "new"@ {
        Some(after_new(v))
    } else if name == "model"@ {
        Some(after_model(v, args))
    } else if name == "provider"@ {
        Some(after_provider(v, args))
    } else if name == "hot-reload"@ {
        Some(after_reload(v, args))
    } else if name == "thinking"@ {
        Some(after_thinking(v, args))
    } else if name == "login"@ {
        Some(after_login(v, args))
    } else if name == "logout"@ {
        Some(after_logout(v, args))
    } else if name == "quit"@ {
        Some(AppView { should_quit: true, ..v })
    } else {
        None
    }
}

fn read_two_words(args: &str) -> (r: (String, Option<String>))
    ensures
        (r.0@, resources::opt(r.1)) == two_words(args@),
{
    let (first, rest) = split_head(&trimmed(&chars_of(args)));
    let (second, _others) = split_head(&trimmed(&rest));
    (
        to_text(&first),
        if second.len() > 0 {
            Some(to_text(&second))
        } else {
            None
        },
    )
}

impl App {
    /// Points the agent at a model, with the key of its provider.
    pub fn switch_model(&mut self, model: Arc<Model>)
        requires
            old(self).wf(),
        ensures
            final(self).wf(),
            final(self)@ == switched(old(self)@, model),
    {
        let ghost before = self@;
        let key = self.credentials.resolve(model.provider.as_str());
        self.meta.model_name = model.name.clone();
        self.meta.provider = model.provider.clone();
        self.agent.set_api_key(key);
        self.agent.set_model(model);
        assert(self@.agent =~= switched(before, model).agent);
    }

    /// `/provider`: lists the providers, or switches to one, with a key for
    /// it or without.
    pub fn handle_provider_command(&mut self, args: &str)
        requires
            old(self).wf(),
        ensures
            final(self).wf(),
            final(self)@ == after_provider(old(self)@, args@),
    {
        let (name, key) = read_two_words(args);
        if name.as_str().is_empty() {
            let list = notices::providers_notice(&self.credentials, &self.meta.models);
            self.notice(list);
            return;
        }
        let list = catalog_providers(&self.meta.models);
        let i = match find_provider(&list, name.as_str()) {
            Some(i) => i,
            None => {
                self.notice(
                    concat3("unknown provider: ", name.as_str(), " (/provider lists them)"),
                );
                return;
            },
        };
        if let Some(k) = key {
            if accepts_key(&self.meta.models, name.as_str()) {
                self.credentials.enter(name.as_str(), k.as_str());
                self.ask(Request::SaveKey { provider: name.clone(), key: k });
            } else {
                self.notice(concat2(name.as_str(), " does not take an API key - key ignored"));
            }
        }
        let source = self.credentials.source(&self.meta.models, name.as_str());
        let mut said = concat3("provider switched to ", name.as_str(), " (model ");
        said.push_str(list[i].1.id.as_str());
        said.push_str("; ");
        said.push_str(source.as_str());
        said.push_str(")");
        self.switch_model(Arc::clone(&list[i].1));
        self.notice(said);
    }

    /// `/model`: lists the models, or switches to one.
    pub fn handle_model_command(&mut self, args: &str)
        requires
            old(self).wf(),
        ensures
            final(self).wf(),
            final(self)@ == after_model(old(self)@, args@),
    {
        if args.is_empty() {
            let list = notices::models_notice(&self.meta.models);
            self.notice(list);
            return;
        }
        match find_model(&self.meta.models, args) {
            Some(i) => {
                let model = Arc::clone(&self.meta.models[i]);
                self.switch_model(model);
                self.notice(concat3("model switched to ", args, " (takes effect next request)"));
            },
            None => {
                self.notice(concat3("unknown model: ", args, " (/model lists them)"));
            },
        }
    }

    /// `/new`: clears the conversation, unless a run is under way.
    pub fn handle_new_command(&mut self)
        requires
            old(self).wf(),
        ensures
            final(self).wf(),
            final(self)@ == after_new(old(self)@),
    {
        if self.running {
            self.notice(
                "cannot clear while the agent is working (esc to abort first)".to_owned(),
            );
        } else {
            self.agent.reset();
            self.transcript = Transcript::default();
            self.totals = Totals::default();
            self.selected_cell = None;
            self.notice("conversation cleared".to_owned());
        }
    }

    /// `/login`: starts a login, or hands a pasted text to the one that
    /// waits.
    pub fn handle_login_command(&mut self, args: &str)
        requires
            old(self).wf(),
        ensures
            final(self).wf(),
            final(self)@ == after_login(old(self)@, args@),
    {
        let (name, pasted) = read_two_words(args);
        if !text::same_str(name.as_str(), "openai-codex") {
            self.notice("usage: /login openai-codex [redirect-url]".to_owned());
            return;
        }
        match pasted {
            None => {
                self.login = Some(LoginFlow::browser());
                self.ask(Request::LoginBrowser);
            },
            Some(p) => {
                if text::same_str(p.as_str(), "device") {
                    self.login = Some(LoginFlow::device());
                    self.ask(Request::LoginDevice);
                } else {
                    let taken = match &mut self.login {
                        Some(flow) => flow.submit_manual_code(p.as_str()),
                        None => false,
                    };
                    if taken {
                        self.notice(
                            "authorization code received - exchanging for tokens...".to_owned(),
                        );
                    } else {
                        self.notice("no login is waiting for a code".to_owned());
                    }
                }
            },
        }
    }

    /// Handles a built-in command. Says no where there is none of that name.
    pub fn handle_builtin(&mut self, name: &str, args: &str) -> (r: bool)
        requires
            old(self).wf(),
        ensures
            final(self).wf(),
            match after_builtin(old(self)@, name@, args@) {
                Some(w) => r && final(self)@ == w,
                None => !r && final(self)@ == old(self)@,
            },
    {
        proof {
            reveal(after_builtin);
        }
        if text::same_str(name, "help") {
            let list = notices::help_notice(&self.meta.templates);
            self.notice(list);
        } else if text::same_str(name, "session-id") {
            self.ask(Request::ListSessions);
        } else if text::same_str(name, "review") {
            self.ask(Request::Review(parse_command_args(args)));
        } else if text::same_str(name, "usage") {
            let words = usage_words(
                self.totals.input,
                self.totals.output,
                self.totals.cache_read,
                self.totals.cost,
            );
            self.notice(concat2("session totals: ", words.as_str()));
        } else if text::same_str(name, "new") {
            self.handle_new_command();
        } else if text::same_str(name, "model") {
            self.handle_model_command(args);
        } else if text::same_str(name, "provider") {
            self.handle_provider_command(args);
        } else if text::same_str(name, "hot-reload") {
            if self.running {
                self.notice(
                    "cannot hot-reload while the agent is working (esc to abort first)".to_owned(),
                );
            } else if args.is_empty() {
                self.pending_reload = Some(ReloadTarget::Current);
            } else {
                self.pending_reload = Some(ReloadTarget::Resume(args.to_owned()));
            }
        } else if text::same_str(name, "thinking") {
            match level_named(args) {
                Some(level) => {
                    self.agent.set_thinking_level(level);
                    self.notice(concat2("thinking level set to ", args));
                },
                None => {
                    self.notice("usage: /thinking off|minimal|low|medium|high|xhigh".to_owned());
                },
            }
        } else if text::same_str(name, "login") {
            self.handle_login_command(args);
        } else if text::same_str(name, "logout") {
            if text::is_str(&trimmed(&chars_of(args)), "openai-codex") {
                self.ask(Request::Logout("openai-codex".to_owned()));
            } else {
                self.notice("usage: /logout openai-codex".to_owned());
            }
        } else if text::same_str(name, "quit") {
            self.should_quit = true;
        } else {
            return false;
        }
        true
    }

    /// Notes how storing a key went.
    pub fn key_saved(&mut self, provider: &str, key: &str, saved: Result<String, SaveError>)
        requires
            old(self).wf(),
        ensures
            final(self).wf(),
            final(self)@ == (match saved {
                Ok(path) => app::noted(
                    AppView {
                        credentials: CredentialsView {
                            stored: SettingsView {
                                providers: settings::with_value(
                                    old(self)@.credentials.stored.providers,
                                    provider@,
                                    key@,
                                ),
                                ..old(self)@.credentials.stored
                            },
                            ..old(self)@.credentials
                        },
                        ..old(self)@
                    },
                    "key saved to "@ + path@,
                ),
                Err(e) => app::noted(
                    old(self)@,
                    "key not saved: "@ + settings::save_error_text(e)
                        + " - it is used for this session only"@,
                ),
            }),
    {
        match saved {
            Ok(path) => {
                self.credentials.stored.set_key(provider, key);
                self.notice(concat2("key saved to ", path.as_str()));
            },
            Err(e) => {
                self.notice(
                    concat3(
                        "key not saved: ",
                        e.message().as_str(),
                        " - it is used for this session only",
                    ),
                );
            },
        }
    }

    /// Shows the sessions of the project.
    pub fn sessions_listed(&mut self, kept: &Option<Vec<SessionSummary>>)
        requires
            old(self).wf(),
        ensures
            final(self).wf(),
            final(self)@ == app::noted(
                old(self)@,
                notices::sessions_text(
                    old(self)@.recorder.session_id,
                    match kept {
                        Some(v) => Some(v@),
                        None => None,
                    },
                ),
            ),
    {
        let said = notices::sessions_notice(self.recorder.session_id(), kept);
        self.notice(said);
    }

    /// Notes what a login reports.
    pub fn on_login_event(&mut self, event: LoginEvent)
        requires
            old(self).wf(),
        ensures
            final(self).wf(),
            final(self)@ == (match event {
                LoginEvent::Notice(s) => app::noted(old(self)@, s@),
                LoginEvent::Done(Ok(s)) => app::noted(
                    AppView {
                        login: None,
                        credentials: CredentialsView {
                            logged_in: true,
                            ..old(self)@.credentials
                        },
                        ..old(self)@
                    },
                    s@,
                ),
                LoginEvent::Done(Err(e)) => app::noted(
                    AppView { login: None, ..old(self)@ },
                    "login failed: "@ + e@,
                ),
            }),
    {
        match event {
            LoginEvent::Notice(s) => {
                self.notice(s);
            },
            LoginEvent::Done(Ok(s)) => {
                self.login = None;
                self.credentials.logged_in = true;
                self.notice(s);
            },
            LoginEvent::Done(Err(e)) => {
                self.login = None;
                self.notice(concat2("login failed: ", e.as_str()));
            },
        }
    }

    /// Notes how a logout went: whether a login was stored, or what went
    /// wrong.
    pub fn logged_out(&mut self, removed: Result<bool, SaveError>)
        requires
            old(self).wf(),
        ensures
            final(self).wf(),
            final(self)@ == (match removed {
                Ok(true) => app::noted(
                    AppView {
                        credentials: CredentialsView {
                            logged_in: false,
                            ..old(self)@.credentials
                        },
                        ..old(self)@
                    },
                    "logged out"@,
                ),
                Ok(false) => app::noted(old(self)@, "no login is stored"@),
                Err(e) => app::noted(
                    old(self)@,
                    "logout failed: "@ + settings::save_error_text(e),
                ),
            }),
    {
        match removed {
            Ok(true) => {
                self.credentials.logged_in = false;
                self.notice("logged out".to_owned());
            },
            Ok(false) => {
                self.notice("no login is stored".to_owned());
            },
            Err(e) => {
                self.notice(concat2("logout failed: ", e.message().as_str()));
            },
        }
    }
}

// ---------------------------------------------------------------------------
// Laws
// ---------------------------------------------------------------------------

/// Model and key travel together: after a switch the agent has the key that
/// the credentials give for the model's provider.
pub proof fn law_keys_travel_with_models(v: AppView, m: Arc<Model>)
    ensures
        switched(v, m).agent.state.model == m,
        switched(v, m).agent.api_key == credentials::key_for(v.credentials, m.provider@),
        switched(v, m).meta.provider == m.provider@,
{
}

/// A switch without a key stores nothing.
pub proof fn law_switching_without_a_key_stores_nothing(v: AppView, args: Seq<char>)
    requires
        two_words(args).1 is None,
    ensures
        after_provider(v, args).requests == v.requests,
        after_provider(v, args).credentials == v.credentials,
{
}

/// A key that is entered for a provider with a place for one is the key that
/// the agent uses from then on.
pub proof fn law_entered_keys_are_used(v: AppView, args: Seq<char>, key: Seq<char>)
    requires
        settings::names_in_order(v.credentials.session.providers),
        two_words(args).1 == Some(key),
        two_words(args).0.len() > 0,
        credentials::takes_key(v.meta.models, two_words(args).0),
        providers::provider_index(
            providers::providers_of(v.meta.models, v.meta.models.len() as int),
            two_words(args).0,
            0,
        ) is Some,
    ensures
        after_provider(v, args).agent.api_key == Some(key),
{
    let name = two_words(args).0;
    let list = providers::providers_of(v.meta.models, v.meta.models.len() as int);
    credentials::law_entered_keys_win(v.credentials, name, key);
    providers::law_providers_are_distinct(v.meta.models, v.meta.models.len() as int);
    providers::lemma_provider_index(list, name, 0);
}

/// Without a run, `/new` leaves nothing of the conversation, and with one it
/// leaves everything.
pub proof fn law_clearing_waits_for_the_run(v: AppView)
    ensures
        v.running ==> after_new(v).agent == v.agent && after_new(v).totals == v.totals,
        !v.running ==> after_new(v).agent.state.messages.len() == 0 && after_new(v).cells.len()
            == 1,
{
}

/// Whether a text is a single word.
pub open spec fn is_word(s: Seq<char>) -> bool {
    s.len() > 0 && forall|k: int| 0 <= k < s.len() ==> !text::is_white_space(#[trigger] s[k])
}

proof fn lemma_trim_inner(s: Seq<char>)
    requires
        s.len() > 0,
        !text::is_white_space(s[0]),
        !text::is_white_space(s.last()),
    ensures
        text::trim(s) == s,
{
    text::lemma_leading_space(s);
    assert(text::leading_space(s) == 0);
    assert(s.skip(0) =~= s);
    text::lemma_trim_end(s);
    assert(text::trim_end(s) =~= s);
}

/// Two words that were typed with a space between them come apart, and a
/// single one comes alone.
pub proof fn law_two_words_come_apart(first: Seq<char>, second: Seq<char>)
    requires
        is_word(first),
        is_word(second),
    ensures
        two_words(first + seq![' '] + second) == (first, Some(second)),
        two_words(first) == (first, None::<Seq<char>>),
        two_words(Seq::empty()).0.len() == 0,
{
    let both = first + seq![' '] + second;
    assert(both[0] == first[0]);
    assert(both.last() == second.last());
    lemma_trim_inner(both);
    lemma_trim_inner(first);
    lemma_trim_inner(second);
    text::law_the_head_is_the_first_word(first, ' ', second);
    text::law_the_head_is_the_first_word(second, ' ', second);
    let none = Seq::<char>::empty();
    text::lemma_leading_space(none);
    assert(none.skip(0) =~= none);
    text::lemma_trim_end(none);
    assert(text::trim(none) =~= none);
    text::law_the_head_is_the_first_word(none, ' ', none);
}

/// A model is switched to by its id. What it is not told by is no model, and
/// then nothing changes but that it is said.
pub proof fn law_models_are_switched_by_id(v: AppView, id: Seq<char>, k: int)
    requires
        id.len() > 0,
        0 <= k <= v.meta.models.len(),
        k < v.meta.models.len() ==> v.meta.models[k].id@ == id,
        forall|j: int| 0 <= j < k ==> (#[trigger] v.meta.models[j]).id@ != id,
    ensures
        k < v.meta.models.len() ==> after_model(v, id).agent.state.model == v.meta.models[k]
            && after_model(v, id).meta.provider == v.meta.models[k].provider@
            && after_model(v, id).agent.api_key == credentials::key_for(
            v.credentials,
            v.meta.models[k].provider@,
        ) && after_model(v, id).agent.state.messages == v.agent.state.messages,
        k == v.meta.models.len() ==> after_model(v, id) == (AppView {
            cells: v.cells.push(
                CellView::Notice("unknown model: "@ + id + " (/model lists them)"@),
            ),
            ..v
        }),
        after_model(v, id).cells.len() == v.cells.len() + 1,
{
    models::law_models_are_found_by_id(v.meta.models, id);
}

/// A provider is switched to by its name, with its first model.
pub proof fn law_providers_start_with_their_first_model(v: AppView, name: Seq<char>, k: int)
    requires
        is_word(name),
        0 <= k < v.meta.models.len(),
        v.meta.models[k].provider@ == name,
        providers::first_of_its_provider(v.meta.models, k),
    ensures
        after_provider(v, name).agent.state.model == v.meta.models[k],
        after_provider(v, name).meta.provider == name,
        after_provider(v, name).credentials == v.credentials,
{
    law_two_words_come_apart(name, name);
    let n = v.meta.models.len() as int;
    let list = providers::providers_of(v.meta.models, n);
    providers::law_every_provider_is_listed(v.meta.models, n, k);
    providers::law_providers_are_distinct(v.meta.models, n);
    providers::lemma_provider_index(list, name, 0);
    let i = choose|i: int|
        0 <= i < list.len() && (#[trigger] list[i]) == (
            v.meta.models[k].provider,
            v.meta.models[k],
        );
    match providers::provider_index(list, name, 0) {
        Some(j) => {
            if i < j {
                assert(list[i].0@ != list[j].0@);
            } else if j < i {
                assert(list[j].0@ != list[i].0@);
            }
        },
        None => {},
    }
}

/// A level is set by its word, and nothing else of the agent changes.
pub proof fn law_levels_are_set_by_their_words(v: AppView, level: Option<ThinkingLevel>)
    ensures
        after_thinking(v, levels::name_of(level)).agent == (AgentView {
            state: StateView { thinking_level: level, ..v.agent.state },
            ..v.agent
        }),
        after_thinking(v, levels::name_of(level)).cells.len() == v.cells.len() + 1,
{
    levels::law_shown_levels_can_be_typed(level);
}

/// A login starts in the browser or on another device, and a code that is
/// pasted goes to the login that waits for one.
pub proof fn law_logins_start_and_take_their_code(v: AppView, code: Seq<char>)
    requires
        is_word(code),
    ensures
        ({
            let started = after_login(v, "openai-codex"@);
            let pasted = after_login(v, "openai-codex"@ + seq![' '] + code);
            &&& started.requests == v.requests.push(RequestView::LoginBrowser)
            &&& started.login == Some((true, None::<Seq<char>>))
            &&& code == "device"@ ==> pasted.requests == v.requests.push(RequestView::LoginDevice)
            &&& code != "device"@ && v.login is Some && v.login.unwrap().0 ==> pasted.login
                == Some((false, Some(code))) && pasted.requests == v.requests
            &&& code != "device"@ && v.login is None ==> pasted.login is None && pasted.requests
                == v.requests
        }),
{
    reveal_strlit("openai-codex");
    let name = "openai-codex"@;
    assert(is_word(name)) by {
        assert forall|k: int| 0 <= k < name.len() implies !text::is_white_space(
            #[trigger] name[k],
        ) by {}
    }
    law_two_words_come_apart(name, code);
}

/// A reload waits for the run to end, and takes up the session that it names.
pub proof fn law_reloads_wait_for_the_run(v: AppView, id: Seq<char>)
    ensures
        v.running ==> after_reload(v, id).pending_reload == v.pending_reload,
        !v.running && id.len() > 0 ==> after_reload(v, id) == (AppView {
            pending_reload: Some(ReloadView::Resume(id)),
            ..v
        }),
        !v.running && id.len() == 0 ==> after_reload(v, id) == (AppView {
            pending_reload: Some(ReloadView::Current),
            ..v
        }),
{
}

/// The twelve commands of the program are the ones that it handles itself.
pub proof fn law_every_command_is_handled(v: AppView, name: Seq<char>, args: Seq<char>)
    ensures
        after_builtin(v, name, args) is Some <==> exists|k: int|
            0 <= k < 12 && #[trigger] commands::builtin_name(k) == name,
{
    reveal(after_builtin);
    assert(commands::builtin_name(0) == "help"@);
    assert(commands::builtin_name(1) == "new"@);
    assert(commands::builtin_name(2) == "model"@);
    assert(commands::builtin_name(3) == "provider"@);
    assert(commands::builtin_name(4) == "login"@);
    assert(commands::builtin_name(5) == "logout"@);
    assert(commands::builtin_name(6) == "thinking"@);
    assert(commands::builtin_name(7) == "session-id"@);
    assert(commands::builtin_name(8) == "hot-reload"@);
    assert(commands::builtin_name(9) == "usage"@);
    assert(commands::builtin_name(10) == "quit"@);
    assert(commands::builtin_name(11) == "review"@);
}

/// No command touches what is typed, and only clearing forgets messages.
pub proof fn law_commands_leave_the_input_alone(v: AppView, name: Seq<char>, args: Seq<char>)
    requires
        after_builtin(v, name, args) is Some,
    ensures
        after_builtin(v, name, args).unwrap().input == v.input,
        name != "new"@ ==> after_builtin(v, name, args).unwrap().agent.state.messages
            == v.agent.state.messages,
        name != "new"@ ==> after_builtin(v, name, args).unwrap().totals == v.totals,
        name != "new"@ ==> after_builtin(v, name, args).unwrap().cells.len() >= v.cells.len(),
{
    reveal(after_builtin);
}

} // verus!
