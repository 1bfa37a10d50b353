//! `/hot-reload`: a session with freshly loaded configuration.
//!
//! The running session is brought up to date in place, or another session is
//! taken up. In both cases the model, the level of thinking and the keys that
//! were entered carry over.
use std::sync::Arc;

use vstd::prelude::*;

use crate::agent::{Agent, AgentOptions, AgentView, StateView};
use crate::app::{App, AppView, MetaView, SessionMeta};
use crate::commands::PromptTemplate;
use crate::compaction::{CompactionConfig, ToolInfo};
use crate::credentials::{Credentials, CredentialsView};
use crate::deltas::context_delta;
use crate::messages::{share_all, AgentMessage};
use crate::models::Model;
use crate::resources::ContextFile;
use crate::session::{RecorderView, SessionRecorder};
use crate::settings::Settings;
use crate::text::{concat2, concat3};
use crate::transcript::CellView;
use crate::types::{RetryConfig, ToolExecutionMode};
use crate::{app, commands, credentials, deltas, input, messages, resources, session};

verus! {

/// What a session loads from disk.
pub struct Ingredients {
    pub system_prompt: String,
    pub tools: Vec<ToolInfo>,
    pub templates: Vec<PromptTemplate>,
    pub models: Vec<Arc<Model>>,
    pub settings: Settings,
    pub context_files: Vec<ContextFile>,
    pub logged_in: bool,
}

/// The credentials after a reload: what was entered stays, what is stored is
/// read again.
pub open spec fn fresh_credentials(v: CredentialsView, i: Ingredients) -> CredentialsView {
    CredentialsView { stored: i.settings@, logged_in: i.logged_in, ..v }
}

/// The surroundings after a reload.
pub open spec fn fresh_meta(v: AppView, i: Ingredients) -> MetaView {
    MetaView {
        model_name: v.agent.state.model.name@,
        provider: v.agent.state.model.provider@,
        templates: commands::template_views(i.templates@),
        models: i.models@,
        context_files: resources::context_views(i.context_files@),
        ..v.meta
    }
}

/// An agent after a reload, with this system prompt, session and history.
pub open spec fn fresh_agent(
    v: AppView,
    i: Ingredients,
    system_prompt: Seq<char>,
    id: Seq<char>,
    history: Seq<AgentMessage>,
) -> AgentView {
    AgentView {
        state: StateView {
            system_prompt,
            model: v.agent.state.model,
            thinking_level: v.agent.state.thinking_level,
            messages: history,
            is_streaming: false,
            pending: Set::empty(),
            error_message: None,
        },
        tools: i.tools@,
        api_key: credentials::key_for(
            fresh_credentials(v.credentials, i),
            v.agent.state.model.provider@,
        ),
        session_id: Some(id),
        max_tokens: None,
        tool_execution: ToolExecutionMode::Parallel,
        retry: RetryConfig { max_retries: 3, base_delay_ms: 2000 },
        compaction: CompactionConfig {
            enabled: true,
            reserve_tokens: 16_384,
            keep_recent_tokens: 20_000,
        },
    }
}

/// A recorder after a reload. It appends to the transcript of its session.
pub open spec fn fresh_recorder(v: AppView, id: Seq<char>, now: u64) -> RecorderView {
    session::fresh(v.meta.home, v.meta.cwd, id, v.agent.state.model.id@, now)
}

/// The interface after a reload, with a notice behind its history.
pub open spec fn reloaded(
    v: AppView,
    i: Ingredients,
    sessions: Seq<(String, u64)>,
    now: u64,
    agent: AgentView,
    id: Seq<char>,
    notice: Seq<char>,
    w: AppView,
) -> bool {
    let (cells, totals) = app::opening(id, agent.state.messages, None);
    app::is_blank_frame(w.shown) && w == app::noted(
        AppView {
            agent,
            meta: fresh_meta(v, i),
            credentials: fresh_credentials(v.credentials, i),
            cells,
            input: input::no_input(),
            popup: app::opening_popup(fresh_meta(v, i), sessions),
            totals,
            recorder: fresh_recorder(v, id, now),
            login: None,
            running: false,
            echo_due: false,
            scroll: 0,
            shown: w.shown,
            should_quit: false,
            pending_prompt: None,
            pending_copy: None,
            pending_reload: None,
            selected: None,
            tools_expanded: false,
            mouse_captured: v.mouse_captured,
            mouse_toggle_requested: false,
            requests: Seq::empty(),
        },
        notice,
    )
}

impl App {
    fn rebuild(
        self,
        fresh: Ingredients,
        system_prompt: String,
        id: String,
        history: Vec<AgentMessage>,
        sessions: &Vec<(String, u64)>,
        now: u64,
        notice: String,
    ) -> (r: App)
        requires
            self.wf(),
        ensures
            r.wf(),
            reloaded(
                self@,
                fresh,
                sessions@,
                now,
                fresh_agent(self@, fresh, system_prompt@, id@, history@),
                id@,
                notice@,
                r@,
            ),
    {
        let ghost before = self@;
        let model = Arc::clone(&self.agent.state().model);
        let thinking_level = self.agent.thinking_level();
        let credentials = Credentials {
            session: self.credentials.session,
            env: self.credentials.env,
            stored: fresh.settings,
            logged_in: fresh.logged_in,
        };
        let key = credentials.resolve(model.provider.as_str());
        let home = match &self.meta.home {
            Some(h) => Some(h.clone()),
            None => None,
        };
        let recorder = SessionRecorder::new(
            home,
            self.meta.cwd.as_str(),
            id.as_str(),
            model.id.as_str(),
            now,
        );
        let meta = SessionMeta {
            model_name: model.name.clone(),
            provider: model.provider.clone(),
            cwd: self.meta.cwd,
            templates: fresh.templates,
            models: fresh.models,
            home: self.meta.home,
            context_files: fresh.context_files,
        };
        let mut options = AgentOptions::new(model);
        options.system_prompt = system_prompt;
        options.thinking_level = thinking_level;
        options.tools = fresh.tools;
        options.api_key = key;
        options.session_id = Some(id);
        options.messages = history;
        let agent = Agent::new(options);
        let mut r = App::new(agent, meta, credentials, recorder, sessions, None);
        r.mouse_captured = self.mouse_captured;
        r.notice(notice);
        r
    }

    /// Brings the running session up to date: the same id, history and
    /// transcript, with fresh templates, models, rules and tools. Its system
    /// prompt stays; what changed in the context files is added to the
    /// conversation, and handed out for the transcript.
    pub fn reload_in_place(self, fresh: Ingredients, sessions: &Vec<(String, u64)>, now: u64) -> (r:
        (App, Option<AgentMessage>))
        requires
            self.wf(),
        ensures
            r.0.wf(),
            ({
                let delta = deltas::delta_of(
                    self@.meta.context_files,
                    resources::context_views(fresh.context_files@),
                );
                let v = self@;
                let history = match r.1 {
                    Some(m) => v.agent.state.messages.push(m),
                    None => v.agent.state.messages,
                };
                &&& match (delta, r.1) {
                    (Some(s), Some(m)) => messages::is_user_text(m, s, now),
                    (None, None) => true,
                    _ => false,
                }
                &&& reloaded(
                    v,
                    fresh,
                    sessions@,
                    now,
                    fresh_agent(
                        v,
                        fresh,
                        v.agent.state.system_prompt,
                        v.recorder.session_id,
                        history,
                    ),
                    v.recorder.session_id,
                    if delta is Some {
                        "configuration reloaded in place - context changes appended to the conversation"@
                    } else {
                        "configuration reloaded in place - no context file changes"@
                    },
                    r.0@,
                )
            }),
    {
        let delta = context_delta(&self.meta.context_files, &fresh.context_files);
        let mut history = share_all(&self.agent.state().messages);
        let system_prompt = self.agent.state().system_prompt.clone();
        let id = self.recorder.session_id().to_owned();
        match delta {
            Some(s) => {
                let m = AgentMessage::user_text(s, now);
                history.push(m.share());
                let r = self.rebuild(
                    fresh,
                    system_prompt,
                    id,
                    history,
                    sessions,
                    now,
                    "configuration reloaded in place - context changes appended to the conversation".to_owned(),
                );
                (r, Some(m))
            },
            None => {
                let r = self.rebuild(
                    fresh,
                    system_prompt,
                    id,
                    history,
                    sessions,
                    now,
                    "configuration reloaded in place - no context file changes".to_owned(),
                );
                (r, None)
            },
        }
    }

    /// Takes up another session with a fresh system prompt.
    pub fn reload_resume(
        self,
        fresh: Ingredients,
        id: String,
        history: Vec<AgentMessage>,
        sessions: &Vec<(String, u64)>,
        now: u64,
    ) -> (r: App)
        requires
            self.wf(),
        ensures
            r.wf(),
            reloaded(
                self@,
                fresh,
                sessions@,
                now,
                fresh_agent(self@, fresh, fresh.system_prompt@, id@, history@),
                id@,
                ".cupel configuration reloaded - resumed session "@ + id@,
                r@,
            ),
    {
        let notice = concat2(
            ".cupel configuration reloaded - resumed session ",
            id.as_str(),
        );
        let system_prompt = fresh.system_prompt.clone();
        self.rebuild(fresh, system_prompt, id, history, sessions, now, notice)
    }

    /// Says why a session cannot be taken up: there is none of that name, or
    /// its transcript cannot be read. Nothing else changes.
    pub fn resume_refused(&mut self, id: &str, error: Option<String>)
        requires
            old(self).wf(),
        ensures
            final(self).wf(),
            final(self)@ == app::noted(
                old(self)@,
                match error {
                    None => "no session named "@ + id@
                        + " for this project (/session-id lists them)"@,
                    Some(e) => "cannot resume "@ + id@ + ": "@ + e@,
                },
            ),
    {
        match error {
            None => {
                self.notice(
                    concat3(
                        "no session named ",
                        id,
                        " for this project (/session-id lists them)",
                    ),
                );
            },
            Some(e) => {
                let mut said = concat3("cannot resume ", id, ": ");
                said.push_str(e.as_str());
                self.notice(said);
            },
        }
    }
}

/// A reload carries the model, the level of thinking, the keys that were
/// entered and the mouse mode over.
pub proof fn law_reloading_keeps_what_was_chosen(
    v: AppView,
    i: Ingredients,
    sessions: Seq<(String, u64)>,
    now: u64,
    system_prompt: Seq<char>,
    history: Seq<AgentMessage>,
    id: Seq<char>,
    notice: Seq<char>,
    w: AppView,
)
    requires
        reloaded(
            v,
            i,
            sessions,
            now,
            fresh_agent(v, i, system_prompt, id, history),
            id,
            notice,
            w,
        ),
    ensures
        w.agent.state.model == v.agent.state.model,
        w.agent.state.thinking_level == v.agent.state.thinking_level,
        w.credentials.session == v.credentials.session,
        w.mouse_captured == v.mouse_captured,
        w.agent.state.messages == history,
{
}

/// A second reload without changes adds nothing to the conversation: the
/// files that were read last are what the next reading is held against.
pub proof fn law_updates_are_sent_once(v: AppView, i: Ingredients)
    requires
        forall|a: int, b: int|
            0 <= a < b < i.context_files@.len() ==> (#[trigger] i.context_files@[a]).path@ != (
            #[trigger] i.context_files@[b]).path@,
    ensures
        deltas::delta_of(
            fresh_meta(v, i).context_files,
            resources::context_views(i.context_files@),
        ) is None,
{
    let files = resources::context_views(i.context_files@);
    assert forall|a: int, b: int| 0 <= a < b < files.len() implies (#[trigger] files[a]).path != (
    #[trigger] files[b]).path by {
        assert(i.context_files@[a].path@ != i.context_files@[b].path@);
    }
    deltas::law_no_change_makes_no_update(files);
}

/// A reload takes over what was loaded afresh: the tools, the models, the
/// templates and the stored keys; and the key in use is looked up among
/// them.
pub proof fn law_reloading_takes_over_what_is_new(
    v: AppView,
    i: Ingredients,
    sessions: Seq<(String, u64)>,
    now: u64,
    system_prompt: Seq<char>,
    history: Seq<AgentMessage>,
    id: Seq<char>,
    notice: Seq<char>,
    w: AppView,
)
    requires
        reloaded(
            v,
            i,
            sessions,
            now,
            fresh_agent(v, i, system_prompt, id, history),
            id,
            notice,
            w,
        ),
    ensures
        w.agent.tools == i.tools@,
        w.agent.state.system_prompt == system_prompt,
        w.meta.models == i.models@,
        w.meta.templates == commands::template_views(i.templates@),
        w.meta.context_files == resources::context_views(i.context_files@),
        w.credentials.stored == i.settings@,
        w.credentials.logged_in == i.logged_in,
        w.agent.api_key == credentials::key_for(w.credentials, v.agent.state.model.provider@),
        w.recorder.session_id == id,
        w.cells.last() == CellView::Notice(notice),
        !w.running && w.pending_prompt is None && w.requests.len() == 0,
{
}

} // verus!
