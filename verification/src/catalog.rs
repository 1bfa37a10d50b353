//! The built-in catalog: which models there are, what is known of them here,
//! and how that is joined with what models.dev lists.
//!
//! Prices are in millionths of a dollar for a million tokens.
use std::sync::Arc;

use vstd::prelude::*;

use crate::models::CompatValue;
use crate::text::{concat2, concat3, same_str};
use crate::resources;

verus! {

/// Where models.dev lists its models.
pub const MODELS_DEV_URL: &'static str = "https://models.dev/api.json";

/// The protocols.
pub const ANTHROPIC_MESSAGES: &'static str = "anthropic-messages";

pub const OPENAI_RESPONSES: &'static str = "openai-responses";

pub const OPENAI_COMPLETIONS: &'static str = "openai-completions";

pub const OPENAI_CODEX_RESPONSES: &'static str = "openai-codex-responses";

pub const BEDROCK_CONVERSE_STREAM: &'static str = "bedrock-converse-stream";

/// The endpoints.
pub const ANTHROPIC_BASE_URL: &'static str = "https://api.anthropic.com";

pub const OPENAI_BASE_URL: &'static str = "https://api.openai.com/v1";

/// The region gives the endpoint.
pub const BEDROCK_BASE_URL: &'static str = "";

pub const FIREWORKS_ANTHROPIC_BASE_URL: &'static str = "https://api.fireworks.ai/inference";

pub const FIREWORKS_COMPLETIONS_BASE_URL: &'static str = "https://api.fireworks.ai/inference/v1";

pub const OPENROUTER_COMPLETIONS_BASE_URL: &'static str = "https://openrouter.ai/api/v1";

pub const OPENAI_CODEX_BASE_URL: &'static str = "https://chatgpt.com/backend-api";

// ---------------------------------------------------------------------------
// Curation
// ---------------------------------------------------------------------------

/// A map of levels that is written down for a model.
#[derive(Debug, Clone, Copy, PartialEq, Eq, Structural)]
pub enum PinnedLevels {
    /// Off is "none", there is no minimal level, and the lower levels are
    /// "high".
    Glm52,
    /// It cannot be switched off.
    AlwaysOn,
}

/// Where a model's map of levels comes from.
#[derive(Debug, Clone, Copy, PartialEq, Eq, Structural)]
pub enum Thinking {
    /// Thinking is a budget of tokens: there is no map.
    Budget,
    /// From the efforts that models.dev lists.
    FromEffort,
    /// It is written down.
    Explicit(PinnedLevels),
}

/// A set of quirks.
#[derive(Debug, Clone, Copy, PartialEq, Eq, Structural)]
pub enum Compat {
    Plain,
    FireworksAnthropic,
    FireworksCompletions,
    AdaptiveAnthropic,
    OpenrouterCompletions,
}

/// A model that the catalog has, with what models.dev does not know of it.
#[derive(Debug)]
pub struct Curated {
    pub id: String,
    /// The name, where it is not that of models.dev.
    pub rename: Option<String>,
    pub api: &'static str,
    pub base_url: &'static str,
    pub thinking: Thinking,
    pub compat: Compat,
}

/// A model that the catalog has.
pub struct CuratedView {
    pub id: Seq<char>,
    pub rename: Option<Seq<char>>,
    pub api: Seq<char>,
    pub base_url: Seq<char>,
    pub thinking: Thinking,
    pub compat: Compat,
}

impl View for Curated {
    type V = CuratedView;

    open spec fn view(&self) -> CuratedView {
        CuratedView {
            id: self.id@,
            rename: resources::opt(self.rename),
            api: self.api@,
            base_url: self.base_url@,
            thinking: self.thinking,
            compat: self.compat,
        }
    }
}

/// Views of curated models.
pub open spec fn curated_views(v: Seq<Curated>) -> Seq<CuratedView> {
    v.map_values(|c: Curated| c@)
}

/// A provider that the catalog has.
#[derive(Debug)]
pub struct CuratedProvider {
    /// Its name with models.dev.
    pub models_dev_id: &'static str,
    /// Its name here.
    pub cupel_id: &'static str,
    pub models: Vec<Curated>,
}

/// The pairs of a pinned map, in the order of their names.
pub open spec fn pinned_pairs(p: PinnedLevels) -> Seq<(Seq<char>, Option<Seq<char>>)> {
    match p {
        PinnedLevels::Glm52 => seq![
            ("low"@, Some("high"@)),
            ("medium"@, Some("high"@)),
            ("minimal"@, None),
            ("off"@, Some("none"@)),
            ("xhigh"@, Some("max"@)),
        ],
        PinnedLevels::AlwaysOn => seq![("off"@, None)],
    }
}

/// Views of a map of levels.
pub open spec fn level_views(v: Seq<(String, Option<String>)>) -> Seq<
    (Seq<char>, Option<Seq<char>>),
> {
    v.map_values(|p: (String, Option<String>)| (p.0@, resources::opt(p.1)))
}

pub(crate) fn level_pair(name: &str, value: Option<&str>) -> (r: (String, Option<String>))
    ensures
        r.0@ == name@,
        resources::opt(r.1) == (match value {
            Some(s) => Some(s@),
            None => None,
        }),
{
    (
        name.to_owned(),
        match value {
            Some(s) => Some(s.to_owned()),
            None => None,
        },
    )
}

pub(crate) fn pinned_levels(p: PinnedLevels) -> (r: Vec<(String, Option<String>)>)
    ensures
        level_views(r@) == pinned_pairs(p),
{
    let r = match p {
        PinnedLevels::Glm52 => vec![
            level_pair("low", Some("high")),
            level_pair("medium", Some("high")),
            level_pair("minimal", None),
            level_pair("off", Some("none")),
            level_pair("xhigh", Some("max")),
        ],
        PinnedLevels::AlwaysOn => vec![level_pair("off", None)],
    };
    assert(level_views(r@) =~= pinned_pairs(p));
    r
}

/// A quirk that is switched on or off, or a text.
pub enum QuirkView {
    Flag(bool),
    Text(Seq<char>),
    Other(Seq<char>),
}

/// Views of quirks.
pub open spec fn quirk_views(v: Seq<(String, CompatValue)>) -> Seq<(Seq<char>, QuirkView)> {
    v.map_values(
        |p: (String, CompatValue)|
            (
                p.0@,
                match p.1 {
                    CompatValue::Flag(b) => QuirkView::Flag(b),
                    CompatValue::Text(s) => QuirkView::Text(s@),
                    CompatValue::Other(s) => QuirkView::Other(s@),
                },
            ),
    )
}

/// The quirks of a set, in the order of their names.
pub open spec fn quirks(c: Compat) -> Option<Seq<(Seq<char>, QuirkView)>> {
    match c {
        Compat::Plain => None,
        Compat::FireworksAnthropic => Some(
            seq![
                ("sendSessionAffinityHeaders"@, QuirkView::Flag(true)),
                ("supportsCacheControlOnTools"@, QuirkView::Flag(false)),
                ("supportsEagerToolInputStreaming"@, QuirkView::Flag(false)),
                ("supportsLongCacheRetention"@, QuirkView::Flag(false)),
            ],
        ),
        Compat::FireworksCompletions => Some(
            seq![
                ("supportsDeveloperRole"@, QuirkView::Flag(false)),
                ("supportsStore"@, QuirkView::Flag(false)),
            ],
        ),
        Compat::AdaptiveAnthropic => Some(
            seq![
                ("forceAdaptiveThinking"@, QuirkView::Flag(true)),
                ("supportsTemperature"@, QuirkView::Flag(false)),
            ],
        ),
        Compat::OpenrouterCompletions => Some(
            seq![
                ("supportsDeveloperRole"@, QuirkView::Flag(false)),
                ("thinkingFormat"@, QuirkView::Text("openrouter"@)),
            ],
        ),
    }
}

/// The view of optional quirks.
pub open spec fn opt_quirks(o: Option<Vec<(String, CompatValue)>>) -> Option<
    Seq<(Seq<char>, QuirkView)>,
> {
    match o {
        Some(v) => Some(quirk_views(v@)),
        None => None,
    }
}

impl Compat {
    /// The quirks of a set.
    pub fn to_value(&self) -> (r: Option<Vec<(String, CompatValue)>>)
        ensures
            opt_quirks(r) == quirks(*self),
    {
        let r = match self {
            Compat::Plain => None,
            Compat::FireworksAnthropic => Some(
                vec![
                    ("sendSessionAffinityHeaders".to_owned(), CompatValue::Flag(true)),
                    ("supportsCacheControlOnTools".to_owned(), CompatValue::Flag(false)),
                    ("supportsEagerToolInputStreaming".to_owned(), CompatValue::Flag(false)),
                    ("supportsLongCacheRetention".to_owned(), CompatValue::Flag(false)),
                ],
            ),
            Compat::FireworksCompletions => Some(
                vec![
                    ("supportsDeveloperRole".to_owned(), CompatValue::Flag(false)),
                    ("supportsStore".to_owned(), CompatValue::Flag(false)),
                ],
            ),
            Compat::AdaptiveAnthropic => Some(
                vec![
                    ("forceAdaptiveThinking".to_owned(), CompatValue::Flag(true)),
                    ("supportsTemperature".to_owned(), CompatValue::Flag(false)),
                ],
            ),
            Compat::OpenrouterCompletions => Some(
                vec![
                    ("supportsDeveloperRole".to_owned(), CompatValue::Flag(false)),
                    ("thinkingFormat".to_owned(), CompatValue::Text("openrouter".to_owned())),
                ],
            ),
        };
        assert(r is Some ==> quirk_views(r->Some_0@) =~= quirks(*self)->Some_0);
        r
    }
}

/// A model of Anthropic's own endpoint.
pub open spec fn anthropic_row(id: Seq<char>, rename: Option<Seq<char>>) -> CuratedView {
    CuratedView {
        id,
        rename,
        api: ANTHROPIC_MESSAGES@,
        base_url: ANTHROPIC_BASE_URL@,
        thinking: Thinking::Budget,
        compat: Compat::Plain,
    }
}

/// A model of Anthropic's own endpoint that decides how much to think.
pub open spec fn adaptive_row(id: Seq<char>) -> CuratedView {
    CuratedView {
        id,
        rename: None,
        api: ANTHROPIC_MESSAGES@,
        base_url: ANTHROPIC_BASE_URL@,
        thinking: Thinking::FromEffort,
        compat: Compat::AdaptiveAnthropic,
    }
}

/// A model of OpenAI's own endpoint.
pub open spec fn openai_row(id: Seq<char>, rename: Option<Seq<char>>) -> CuratedView {
    CuratedView {
        id,
        rename,
        api: OPENAI_RESPONSES@,
        base_url: OPENAI_BASE_URL@,
        thinking: Thinking::FromEffort,
        compat: Compat::Plain,
    }
}

/// A model of Bedrock.
pub open spec fn bedrock_row(id: Seq<char>, rename: Option<Seq<char>>, thinking: Thinking) -> CuratedView {
    CuratedView {
        id,
        rename,
        api: BEDROCK_CONVERSE_STREAM@,
        base_url: BEDROCK_BASE_URL@,
        thinking,
        compat: Compat::Plain,
    }
}

/// A model of Fireworks behind Anthropic's protocol.
pub open spec fn fireworks_row(id: Seq<char>) -> CuratedView {
    CuratedView {
        id,
        rename: None,
        api: ANTHROPIC_MESSAGES@,
        base_url: FIREWORKS_ANTHROPIC_BASE_URL@,
        thinking: Thinking::Budget,
        compat: Compat::FireworksAnthropic,
    }
}

/// A GLM model of Fireworks.
pub open spec fn glm_row(id: Seq<char>) -> CuratedView {
    CuratedView {
        id,
        rename: None,
        api: OPENAI_COMPLETIONS@,
        base_url: FIREWORKS_COMPLETIONS_BASE_URL@,
        thinking: Thinking::Explicit(PinnedLevels::Glm52),
        compat: Compat::FireworksCompletions,
    }
}

/// A model of OpenRouter.
pub open spec fn openrouter_row(id: Seq<char>, thinking: Thinking) -> CuratedView {
    CuratedView {
        id,
        rename: None,
        api: OPENAI_COMPLETIONS@,
        base_url: OPENROUTER_COMPLETIONS_BASE_URL@,
        thinking,
        compat: Compat::OpenrouterCompletions,
    }
}

fn anthropic(id: String, rename: Option<String>) -> (r: Curated)
    ensures
        r@ == anthropic_row(id@, resources::opt(rename)),
{
    Curated {
        id,
        rename,
        api: ANTHROPIC_MESSAGES,
        base_url: ANTHROPIC_BASE_URL,
        thinking: Thinking::Budget,
        compat: Compat::Plain,
    }
}

fn adaptive(id: String) -> (r: Curated)
    ensures
        r@ == adaptive_row(id@),
{
    Curated {
        id,
        rename: None,
        api: ANTHROPIC_MESSAGES,
        base_url: ANTHROPIC_BASE_URL,
        thinking: Thinking::FromEffort,
        compat: Compat::AdaptiveAnthropic,
    }
}

fn bedrock(id: String, rename: Option<String>, thinking: Thinking) -> (r: Curated)
    ensures
        r@ == bedrock_row(id@, resources::opt(rename), thinking),
{
    Curated {
        id,
        rename,
        api: BEDROCK_CONVERSE_STREAM,
        base_url: BEDROCK_BASE_URL,
        thinking,
        compat: Compat::Plain,
    }
}

fn openai(id: &str, rename: Option<&str>) -> (r: Curated)
    ensures
        r@ == openai_row(
            id@,
            match rename {
                Some(s) => Some(s@),
                None => None,
            },
        ),
{
    Curated {
        id: id.to_owned(),
        rename: match rename {
            Some(s) => Some(s.to_owned()),
            None => None,
        },
        api: OPENAI_RESPONSES,
        base_url: OPENAI_BASE_URL,
        thinking: Thinking::FromEffort,
        compat: Compat::Plain,
    }
}

fn fireworks_anthropic(id: &str) -> (r: Curated)
    ensures
        r@ == fireworks_row(id@),
{
    Curated {
        id: id.to_owned(),
        rename: None,
        api: ANTHROPIC_MESSAGES,
        base_url: FIREWORKS_ANTHROPIC_BASE_URL,
        thinking: Thinking::Budget,
        compat: Compat::FireworksAnthropic,
    }
}

fn fireworks_glm(id: &str) -> (r: Curated)
    ensures
        r@ == glm_row(id@),
{
    Curated {
        id: id.to_owned(),
        rename: None,
        api: OPENAI_COMPLETIONS,
        base_url: FIREWORKS_COMPLETIONS_BASE_URL,
        thinking: Thinking::Explicit(PinnedLevels::Glm52),
        compat: Compat::FireworksCompletions,
    }
}

fn openrouter(id: &str, thinking: Thinking) -> (r: Curated)
    ensures
        r@ == openrouter_row(id@, thinking),
{
    Curated {
        id: id.to_owned(),
        rename: None,
        api: OPENAI_COMPLETIONS,
        base_url: OPENROUTER_COMPLETIONS_BASE_URL,
        thinking,
        compat: Compat::OpenrouterCompletions,
    }
}

/// Whether a provider is one with these names and models.
pub open spec fn is_provider(
    p: CuratedProvider,
    models_dev_id: Seq<char>,
    cupel_id: Seq<char>,
    models: Seq<CuratedView>,
) -> bool {
    p.models_dev_id@ == models_dev_id && p.cupel_id@ == cupel_id && curated_views(p.models@)
        == models
}

/// The models of Anthropic. `family` is what the ids of its models start
/// with, `title` what their names start with.
pub open spec fn anthropic_models(family: Seq<char>, title: Seq<char>) -> Seq<CuratedView> {
    seq![
        anthropic_row(family + "-sonnet-5"@, None),
        anthropic_row(family + "-opus-5"@, None),
        adaptive_row(family + "-fable-5"@),
        anthropic_row(family + "-haiku-4-5"@, Some(title + " Haiku 4.5"@)),
        anthropic_row(family + "-sonnet-4-6"@, None),
        anthropic_row(family + "-sonnet-4-5"@, Some(title + " Sonnet 4.5"@)),
    ]
}

/// The models of OpenAI.
pub open spec fn openai_models() -> Seq<CuratedView> {
    seq![
        openai_row("gpt-5.6-sol"@, Some("GPT-5.6 Solar"@)),
        openai_row("gpt-5.6-luna"@, None),
        openai_row("gpt-5.6-terra"@, None),
    ]
}

/// The models of Bedrock.
pub open spec fn bedrock_models(family: Seq<char>, title: Seq<char>) -> Seq<CuratedView> {
    seq![
        bedrock_row(
            "us.anthropic."@ + family + "-sonnet-4-5-20250929-v1:0"@,
            Some(title + " Sonnet 4.5 (Bedrock)"@),
            Thinking::Budget,
        ),
        bedrock_row(
            "us.anthropic."@ + family + "-sonnet-5"@,
            Some(title + " Sonnet 5 (Bedrock)"@),
            Thinking::FromEffort,
        ),
        bedrock_row(
            "us.anthropic."@ + family + "-fable-5"@,
            Some(title + " Fable 5 (Bedrock)"@),
            Thinking::FromEffort,
        ),
    ]
}

/// The models of Fireworks.
pub open spec fn fireworks_models() -> Seq<CuratedView> {
    seq![
        fireworks_row("accounts/fireworks/models/kimi-k2p7-code"@),
        fireworks_row("accounts/fireworks/models/deepseek-v4-flash-0731"@),
        fireworks_row("accounts/fireworks/models/deepseek-v4-pro-0813"@),
        fireworks_row("accounts/fireworks/models/kimi-k2p6"@),
        fireworks_row("accounts/fireworks/models/minimax-m3"@),
        fireworks_row("accounts/fireworks/models/qwen3p7-plus"@),
        fireworks_row("accounts/fireworks/models/kimi-k3"@),
        fireworks_row("accounts/fireworks/routers/kimi-k3-fast"@),
        glm_row("accounts/fireworks/models/glm-5p2"@),
        glm_row("accounts/fireworks/routers/glm-5p2-fast"@),
    ]
}

/// The models of OpenRouter.
pub open spec fn openrouter_models() -> Seq<CuratedView> {
    seq![
        openrouter_row("qwen/qwen3.8-max"@, Thinking::FromEffort),
        openrouter_row("moonshotai/kimi-k2.7-code"@, Thinking::Explicit(PinnedLevels::AlwaysOn)),
        openrouter_row("z-ai/glm-5.3"@, Thinking::FromEffort),
        openrouter_row("deepseek/deepseek-v4-pro"@, Thinking::FromEffort),
        openrouter_row("x-ai/grok-4.6"@, Thinking::FromEffort),
        openrouter_row("google/gemini-3.7-flash"@, Thinking::FromEffort),
    ]
}

/// The providers, in the order of the catalog. The first model of a provider
/// is its default. `family` and `title` are what Anthropic's models go by.
pub fn curated_providers(family: &str, title: &str) -> (r: Vec<CuratedProvider>)
    ensures
        r@.len() == 5,
        is_provider(r@[0], "anthropic"@, "anthropic"@, anthropic_models(family@, title@)),
        is_provider(r@[1], "openai"@, "openai"@, openai_models()),
        is_provider(r@[2], "amazon-bedrock"@, "amazon-bedrock"@, bedrock_models(family@, title@)),
        is_provider(r@[3], "fireworks-ai"@, "fireworks"@, fireworks_models()),
        is_provider(r@[4], "openrouter"@, "openrouter"@, openrouter_models()),
{
    let a = vec![
        anthropic(concat2(family, "-sonnet-5"), None),
        anthropic(concat2(family, "-opus-5"), None),
        adaptive(concat2(family, "-fable-5")),
        anthropic(concat2(family, "-haiku-4-5"), Some(concat2(title, " Haiku 4.5"))),
        anthropic(concat2(family, "-sonnet-4-6"), None),
        anthropic(concat2(family, "-sonnet-4-5"), Some(concat2(title, " Sonnet 4.5"))),
    ];
    assert(curated_views(a@) =~= anthropic_models(family@, title@));
    let b = vec![
        openai("gpt-5.6-sol", Some("GPT-5.6 Solar")),
        openai("gpt-5.6-luna", None),
        openai("gpt-5.6-terra", None),
    ];
    assert(curated_views(b@) =~= openai_models());
    let c = vec![
        bedrock(
            concat3("us.anthropic.", family, "-sonnet-4-5-20250929-v1:0"),
            Some(concat2(title, " Sonnet 4.5 (Bedrock)")),
            Thinking::Budget,
        ),
        bedrock(
            concat3("us.anthropic.", family, "-sonnet-5"),
            Some(concat2(title, " Sonnet 5 (Bedrock)")),
            Thinking::FromEffort,
        ),
        bedrock(
            concat3("us.anthropic.", family, "-fable-5"),
            Some(concat2(title, " Fable 5 (Bedrock)")),
            Thinking::FromEffort,
        ),
    ];
    assert(curated_views(c@) =~= bedrock_models(family@, title@));
    let d = vec![
        fireworks_anthropic("accounts/fireworks/models/kimi-k2p7-code"),
        fireworks_anthropic("accounts/fireworks/models/deepseek-v4-flash-0731"),
        fireworks_anthropic("accounts/fireworks/models/deepseek-v4-pro-0813"),
        fireworks_anthropic("accounts/fireworks/models/kimi-k2p6"),
        fireworks_anthropic("accounts/fireworks/models/minimax-m3"),
        fireworks_anthropic("accounts/fireworks/models/qwen3p7-plus"),
        fireworks_anthropic("accounts/fireworks/models/kimi-k3"),
        fireworks_anthropic("accounts/fireworks/routers/kimi-k3-fast"),
        fireworks_glm("accounts/fireworks/models/glm-5p2"),
        fireworks_glm("accounts/fireworks/routers/glm-5p2-fast"),
    ];
    assert(curated_views(d@) =~= fireworks_models());
    let e = vec![
        openrouter("qwen/qwen3.8-max", Thinking::FromEffort),
        openrouter("moonshotai/kimi-k2.7-code", Thinking::Explicit(PinnedLevels::AlwaysOn)),
        openrouter("z-ai/glm-5.3", Thinking::FromEffort),
        openrouter("deepseek/deepseek-v4-pro", Thinking::FromEffort),
        openrouter("x-ai/grok-4.6", Thinking::FromEffort),
        openrouter("google/gemini-3.7-flash", Thinking::FromEffort),
    ];
    assert(curated_views(e@) =~= openrouter_models());
    vec![
        CuratedProvider { models_dev_id: "anthropic", cupel_id: "anthropic", models: a },
        CuratedProvider { models_dev_id: "openai", cupel_id: "openai", models: b },
        CuratedProvider { models_dev_id: "amazon-bedrock", cupel_id: "amazon-bedrock", models: c },
        CuratedProvider { models_dev_id: "fireworks-ai", cupel_id: "fireworks", models: d },
        CuratedProvider { models_dev_id: "openrouter", cupel_id: "openrouter", models: e },
    ]
}

// ---------------------------------------------------------------------------
// What models.dev lists
// ---------------------------------------------------------------------------

/// How a model's thinking is switched.
#[derive(Debug)]
pub enum ReasoningOption {
    Toggle,
    /// The efforts, some of which may be null.
    Effort { values: Vec<Option<String>> },
    BudgetTokens,
    Unknown,
}

/// What a model can be shown.
#[derive(Debug)]
pub struct Modalities {
    pub input: Vec<String>,
}

/// Prices above a prompt size.
#[derive(Debug, Clone, Copy, PartialEq, Eq, Structural)]
pub struct TierCost {
    pub size: u64,
    pub input: i64,
    pub output: i64,
    pub cache_read: i64,
    pub cache_write: i64,
}

/// Prices.
#[derive(Debug)]
pub struct Cost {
    pub input: i64,
    pub output: i64,
    pub cache_read: i64,
    pub cache_write: i64,
    pub tiers: Vec<TierCost>,
}

/// How much a model reads and writes.
#[derive(Debug, Clone, Copy, PartialEq, Eq, Structural)]
pub struct Limit {
    pub context: u64,
    pub output: u64,
}

/// A model as models.dev lists it.
#[derive(Debug)]
pub struct ModelEntry {
    pub name: String,
    pub reasoning: bool,
    pub reasoning_options: Vec<ReasoningOption>,
    pub modalities: Modalities,
    pub cost: Option<Cost>,
    pub limit: Limit,
}

/// A provider as models.dev lists it: its models by their ids, each read, or
/// why it could not be.
#[derive(Debug)]
pub struct ProviderEntry {
    pub models: Vec<(String, Result<Arc<ModelEntry>, String>)>,
}

/// The list of models.dev, as far as it could be read.
#[derive(Debug)]
pub enum Listing {
    /// It is no JSON.
    Malformed(String),
    /// It is JSON, but no object.
    NotAnObject,
    /// The providers by their names, each read, or why it could not be.
    Providers(Vec<(String, Result<Arc<ProviderEntry>, String>)>),
}

/// std's debug form of a text: in quotes, with escapes.
pub uninterp spec fn debug_text(s: Seq<char>) -> Seq<char>;

/// std's formatting of a text with `{:?}`. It depends on the text alone.
#[verifier::external_body]
pub(crate) fn quoted(s: &str) -> (r: String)
    ensures
        r@ == debug_text(s@),
{
    format!("{s:?}")
}

/// The first entry from `from` on under a name.
pub open spec fn entry_under<T>(v: Seq<(String, T)>, name: Seq<char>, from: int) -> Option<T>
    decreases v.len() - from,
{
    if from >= v.len() {
        None
    } else if v[from].0@ == name {
        Some(v[from].1)
    } else {
        entry_under(v, name, from + 1)
    }
}

pub(crate) fn find_entry<T>(v: &Vec<(String, T)>, name: &str) -> (r: Option<usize>)
    ensures
        match r {
            Some(i) => i < v@.len() && entry_under(v@, name@, 0) == Some(v@[i as int].1),
            None => entry_under(v@, name@, 0) is None,
        },
{
    let mut i: usize = 0;
    while i < v.len()
        invariant
            i <= v@.len(),
            entry_under(v@, name@, 0) == entry_under(v@, name@, i as int),
        decreases v@.len() - i,
    {
        if same_str(v[i].0.as_str(), name) {
            return Some(i);
        }
        i += 1;
    }
    None
}

/// Why the first of the wanted providers from `from` on is not there, or
/// nothing.
pub open spec fn listing_error(
    v: Seq<(String, Result<Arc<ProviderEntry>, String>)>,
    wanted: Seq<&'static str>,
    from: int,
) -> Option<Seq<char>>
    decreases wanted.len() - from,
{
    if from >= wanted.len() {
        None
    } else {
        match entry_under(v, wanted[from]@, 0) {
            None => Some(
                "models.dev no longer\n                lists provider "@ + debug_text(
                    wanted[from]@,
                ),
            ),
            Some(Err(e)) => Some(
                "models.dev provider "@ + debug_text(wanted[from]@) + ": "@ + e@,
            ),
            Some(Ok(_)) => listing_error(v, wanted, from + 1),
        }
    }
}

/// Whether a list holds the wanted providers, in their order, as they are
/// listed.
pub open spec fn holds_wanted(
    r: Seq<(String, Arc<ProviderEntry>)>,
    v: Seq<(String, Result<Arc<ProviderEntry>, String>)>,
    wanted: Seq<&'static str>,
    n: int,
) -> bool {
    r.len() == n && forall|k: int|
        0 <= k < n ==> (#[trigger] r[k]).0@ == wanted[k]@ && entry_under(v, wanted[k]@, 0) == Some(
            Ok::<Arc<ProviderEntry>, String>(r[k].1),
        )
}

/// Takes the wanted providers from the list. Providers that nobody wants may
/// be as broken as they like.
pub fn parse_wanted(listing: &Listing, wanted: &Vec<&'static str>) -> (r: Result<
    Vec<(String, Arc<ProviderEntry>)>,
    String,
>)
    ensures
        match (listing, r) {
            (Listing::Malformed(e), Err(s)) => s@ == "models.dev JSON: "@ + e@,
            (Listing::NotAnObject, Err(s)) => s@
                == "models.dev JSON: top level is not an\n            object"@,
            (Listing::Providers(v), Ok(out)) => listing_error(v@, wanted@, 0) is None
                && holds_wanted(out@, v@, wanted@, wanted@.len() as int),
            (Listing::Providers(v), Err(s)) => listing_error(v@, wanted@, 0) == Some(s@),
            _ => false,
        },
{
    let v = match listing {
        Listing::Malformed(e) => {
            return Err(concat2("models.dev JSON: ", e.as_str()));
        },
        Listing::NotAnObject => {
            return Err("models.dev JSON: top level is not an\n            object".to_owned());
        },
        Listing::Providers(v) => v,
    };
    let mut out: Vec<(String, Arc<ProviderEntry>)> = Vec::new();
    let mut i: usize = 0;
    while i < wanted.len()
        invariant
            i <= wanted@.len(),
            *listing == Listing::Providers(*v),
            listing_error(v@, wanted@, 0) == listing_error(v@, wanted@, i as int),
            holds_wanted(out@, v@, wanted@, i as int),
        decreases wanted@.len() - i,
    {
        match find_entry(v, wanted[i]) {
            None => {
                return Err(
                    concat2(
                        "models.dev no longer\n                lists provider ",
                        quoted(wanted[i]).as_str(),
                    ),
                );
            },
            Some(k) => match &v[k].1 {
                Err(e) => {
                    let mut s = concat3("models.dev provider ", quoted(wanted[i]).as_str(), ": ");
                    s.push_str(e.as_str());
                    return Err(s);
                },
                Ok(p) => {
                    out.push((wanted[i].to_owned(), Arc::clone(p)));
                },
            },
        }
        i += 1;
    }
    Ok(out)
}

/// A model of a provider, or why there is none.
pub open spec fn model_of(
    p: ProviderEntry,
    provider_id: Seq<char>,
    model_id: Seq<char>,
) -> Result<Arc<ModelEntry>, Seq<char>> {
    match entry_under(p.models@, model_id, 0) {
        None => Err(
            "models.dev no longer lists "@ + provider_id + "/\n                "@ + model_id
                + " - update curation.rs"@,
        ),
        Some(Err(e)) => Err(
            "models.dev entry\n                "@ + provider_id + "/"@ + model_id + ": "@ + e@,
        ),
        Some(Ok(m)) => Ok(m),
    }
}

impl ProviderEntry {
    /// A model of the provider. A failure names it.
    pub fn model(&self, provider_id: &str, model_id: &str) -> (r: Result<Arc<ModelEntry>, String>)
        ensures
            match (r, model_of(*self, provider_id@, model_id@)) {
                (Ok(a), Ok(b)) => a == b,
                (Err(a), Err(b)) => a@ == b,
                _ => false,
            },
    {
        match find_entry(&self.models, model_id) {
            None => {
                let mut s = concat3(
                    "models.dev no longer lists ",
                    provider_id,
                    "/\n                ",
                );
                s.push_str(model_id);
                s.push_str(" - update curation.rs");
                Err(s)
            },
            Some(k) => match &self.models[k].1 {
                Err(e) => {
                    let mut s = concat3("models.dev entry\n                ", provider_id, "/");
                    s.push_str(model_id);
                    s.push_str(": ");
                    s.push_str(e.as_str());
                    Err(s)
                },
                Ok(m) => Ok(Arc::clone(m)),
            },
        }
    }
}

// ---------------------------------------------------------------------------
// Levels of thinking
// ---------------------------------------------------------------------------

/// Whether an effort is among the values.
pub open spec fn lists_effort(values: Seq<Option<String>>, name: Seq<char>) -> bool {
    exists|k: int| 0 <= k < values.len() && resources::opt(#[trigger] values[k]) == Some(name)
}

/// Whether an effort is among the options.
pub open spec fn supports(options: Seq<ReasoningOption>, name: Seq<char>) -> bool {
    exists|k: int|
        0 <= k < options.len() && (#[trigger] options[k] matches ReasoningOption::Effort { values }
            && lists_effort(values@, name))
}

/// Whether thinking can be toggled.
pub open spec fn can_toggle(options: Seq<ReasoningOption>) -> bool {
    exists|k: int| 0 <= k < options.len() && #[trigger] options[k] is Toggle
}

/// Whether any effort is one that a level stands for.
pub open spec fn has_known_effort(options: Seq<ReasoningOption>) -> bool {
    supports(options, "none"@) || supports(options, "minimal"@) || supports(options, "low"@)
        || supports(options, "medium"@) || supports(options, "high"@) || supports(
        options,
        "xhigh"@,
    )
}

/// A level that cannot be had, where its effort is not supported.
pub open spec fn unless_supported(options: Seq<ReasoningOption>, name: Seq<char>) -> Seq<
    (Seq<char>, Option<Seq<char>>),
> {
    if supports(options, name) {
        Seq::empty()
    } else {
        seq![(name, None)]
    }
}

/// What switching off stands for.
pub open spec fn off_entry(options: Seq<ReasoningOption>) -> Seq<(Seq<char>, Option<Seq<char>>)> {
    if supports(options, "none"@) {
        seq![("off"@, Some("none"@))]
    } else if can_toggle(options) {
        Seq::empty()
    } else {
        seq![("off"@, None)]
    }
}

/// The map of levels that efforts give, in the order of the levels' names. A
/// level that is supported has no entry, so that its own name is sent.
pub open spec fn effort_entries(options: Seq<ReasoningOption>) -> Seq<
    (Seq<char>, Option<Seq<char>>),
> {
    unless_supported(options, "high"@) + unless_supported(options, "low"@) + unless_supported(
        options,
        "medium"@,
    ) + unless_supported(options, "minimal"@) + off_entry(options) + unless_supported(
        options,
        "xhigh"@,
    )
}

/// The map of levels that efforts give, or none where there is nothing to
/// say.
pub open spec fn effort_map(options: Seq<ReasoningOption>) -> Option<
    Seq<(Seq<char>, Option<Seq<char>>)>,
> {
    if has_known_effort(options) && effort_entries(options).len() > 0 {
        Some(effort_entries(options))
    } else {
        None
    }
}

/// The view of an optional map of levels.
pub open spec fn opt_levels(o: Option<Vec<(String, Option<String>)>>) -> Option<
    Seq<(Seq<char>, Option<Seq<char>>)>,
> {
    match o {
        Some(v) => Some(level_views(v@)),
        None => None,
    }
}

fn find_effort(values: &Vec<Option<String>>, name: &str) -> (r: bool)
    ensures
        r == lists_effort(values@, name@),
{
    let mut i: usize = 0;
    while i < values.len()
        invariant
            i <= values@.len(),
            forall|k: int| 0 <= k < i ==> resources::opt(#[trigger] values@[k]) != Some(name@),
        decreases values@.len() - i,
    {
        if let Some(v) = &values[i] {
            if same_str(v.as_str(), name) {
                assert(resources::opt(values@[i as int]) == Some(name@));
                return true;
            }
        }
        i += 1;
    }
    false
}

fn find_support(options: &Vec<ReasoningOption>, name: &str) -> (r: bool)
    ensures
        r == supports(options@, name@),
{
    let mut i: usize = 0;
    while i < options.len()
        invariant
            i <= options@.len(),
            forall|k: int|
                0 <= k < i ==> !(#[trigger] options@[k] matches ReasoningOption::Effort { values }
                    && lists_effort(values@, name@)),
        decreases options@.len() - i,
    {
        if let ReasoningOption::Effort { values } = &options[i] {
            if find_effort(values, name) {
                assert(options@[i as int] matches ReasoningOption::Effort { values }
                    && lists_effort(values@, name@));
                return true;
            }
        }
        i += 1;
    }
    false
}

fn find_toggle(options: &Vec<ReasoningOption>) -> (r: bool)
    ensures
        r == can_toggle(options@),
{
    let mut i: usize = 0;
    while i < options.len()
        invariant
            i <= options@.len(),
            forall|k: int| 0 <= k < i ==> !(#[trigger] options@[k] is Toggle),
        decreases options@.len() - i,
    {
        if let ReasoningOption::Toggle = &options[i] {
            assert(options@[i as int] is Toggle);
            return true;
        }
        i += 1;
    }
    false
}

fn push_level(
    out: &mut Vec<(String, Option<String>)>,
    options: &Vec<ReasoningOption>,
    name: &str,
)
    ensures
        level_views(final(out)@) == level_views(old(out)@) + unless_supported(options@, name@),
{
    let ghost before = level_views(out@);
    if !find_support(options, name) {
        let pair = level_pair(name, None);
        let ghost shown = (pair.0@, resources::opt(pair.1));
        out.push(pair);
        assert(level_views(out@) =~= before.push(shown));
    }
    assert(level_views(out@) =~= before + unless_supported(options@, name@));
}

/// The map of levels that a model's efforts give. Without any effort that a
/// level stands for there is none, and every level can be had.
pub fn thinking_level_map_from_effort(options: &Vec<ReasoningOption>) -> (r: Option<
    Vec<(String, Option<String>)>,
>)
    ensures
        opt_levels(r) == effort_map(options@),
{
    let none = find_support(options, "none");
    let known = none || find_support(options, "minimal") || find_support(options, "low")
        || find_support(options, "medium") || find_support(options, "high") || find_support(
        options,
        "xhigh",
    );
    if !known {
        return None;
    }
    let mut out: Vec<(String, Option<String>)> = Vec::new();
    assert(level_views(out@) =~= Seq::empty());
    push_level(&mut out, options, "high");
    push_level(&mut out, options, "low");
    push_level(&mut out, options, "medium");
    push_level(&mut out, options, "minimal");
    let ghost before = level_views(out@);
    if none {
        out.push(level_pair("off", Some("none")));
    } else if !find_toggle(options) {
        out.push(level_pair("off", None));
    }
    assert(level_views(out@) =~= before + off_entry(options@));
    push_level(&mut out, options, "xhigh");
    assert(level_views(out@) =~= effort_entries(options@));
    assert(level_views(out@).len() == out@.len());
    if out.len() == 0 {
        None
    } else {
        Some(out)
    }
}

proof fn lemma_level_words()
    ensures
        "high"@ != "low"@ && "high"@ != "medium"@ && "high"@ != "minimal"@ && "high"@ != "off"@
            && "high"@ != "xhigh"@,
        "low"@ != "medium"@ && "low"@ != "minimal"@ && "low"@ != "off"@ && "low"@ != "xhigh"@,
        "medium"@ != "minimal"@ && "medium"@ != "off"@ && "medium"@ != "xhigh"@,
        "minimal"@ != "off"@ && "minimal"@ != "xhigh"@ && "off"@ != "xhigh"@,
{
    reveal_strlit("high");
    reveal_strlit("low");
    reveal_strlit("medium");
    reveal_strlit("minimal");
    reveal_strlit("off");
    reveal_strlit("xhigh");
    assert("high"@[0] == 'h' && "low"@[0] == 'l' && "medium"@[1] == 'e' && "minimal"@[1] == 'i');
    assert("off"@[0] == 'o' && "xhigh"@[0] == 'x' && "medium"@[0] == 'm' && "minimal"@[0] == 'm');
}

/// Levels that a model does not list are ruled out, and those that it lists
/// are not. Thinking can be switched off where the model lists that, or has a
/// switch.
pub proof fn law_levels_that_are_not_listed_are_ruled_out(options: Seq<ReasoningOption>)
    ensures
        ({
            let e = effort_entries(options);
            &&& e.contains(("high"@, None)) <==> !supports(options, "high"@)
            &&& e.contains(("low"@, None)) <==> !supports(options, "low"@)
            &&& e.contains(("medium"@, None)) <==> !supports(options, "medium"@)
            &&& e.contains(("minimal"@, None)) <==> !supports(options, "minimal"@)
            &&& e.contains(("xhigh"@, None)) <==> !supports(options, "xhigh"@)
            &&& e.contains(("off"@, Some("none"@))) <==> supports(options, "none"@)
            &&& e.contains(("off"@, None)) <==> !supports(options, "none"@) && !can_toggle(options)
        }),
{
    lemma_level_words();
    let a = unless_supported(options, "high"@);
    let b = unless_supported(options, "low"@);
    let c = unless_supported(options, "medium"@);
    let d = unless_supported(options, "minimal"@);
    let f = off_entry(options);
    let g = unless_supported(options, "xhigh"@);
    let e = effort_entries(options);
    assert(e =~= a + b + c + d + f + g);
    let n1 = a.len() as int;
    let n2 = n1 + b.len();
    let n3 = n2 + c.len();
    let n4 = n3 + d.len();
    let n5 = n4 + f.len();
    if a.len() > 0 {
        assert(e[0] == a[0]);
    }
    if b.len() > 0 {
        assert(e[n1] == b[0]);
    }
    if c.len() > 0 {
        assert(e[n2] == c[0]);
    }
    if d.len() > 0 {
        assert(e[n3] == d[0]);
    }
    if f.len() > 0 {
        assert(e[n4] == f[0]);
    }
    if g.len() > 0 {
        assert(e[n5] == g[0]);
    }
    assert forall|k: int| 0 <= k < e.len() implies (a.len() > 0 && e[k] == a[0]) || (b.len() > 0
        && e[k] == b[0]) || (c.len() > 0 && e[k] == c[0]) || (d.len() > 0 && e[k] == d[0]) || (
    f.len() > 0 && e[k] == f[0]) || (g.len() > 0 && e[k] == g[0]) by {
        if k < n1 {
        } else if k < n2 {
            assert(e[k] == b[k - n1]);
        } else if k < n3 {
            assert(e[k] == c[k - n2]);
        } else if k < n4 {
            assert(e[k] == d[k - n3]);
        } else if k < n5 {
            assert(e[k] == f[k - n4]);
        } else {
            assert(e[k] == g[k - n5]);
        }
    }
}

/// A model that lists no effort that is known here rules nothing out.
pub proof fn law_without_known_efforts_nothing_is_ruled_out(options: Seq<ReasoningOption>)
    requires
        forall|k: int| 0 <= k < options.len() ==> !((#[trigger] options[k]) is Effort),
    ensures
        effort_map(options) is None,
{
}

proof fn lemma_entry_at<T>(v: Seq<(String, T)>, name: Seq<char>, from: int, k: int)
    requires
        0 <= from <= k <= v.len(),
        k < v.len() ==> v[k].0@ == name,
        forall|j: int| from <= j < k ==> (#[trigger] v[j]).0@ != name,
    ensures
        entry_under(v, name, from) == (if k < v.len() {
            Some(v[k].1)
        } else {
            None
        }),
    decreases k - from,
{
    if from < k {
        assert(v[from].0@ != name);
        lemma_entry_at(v, name, from + 1, k);
    }
}

/// An entry is found under its name: the first that has it.
pub proof fn law_entries_are_found_by_name<T>(v: Seq<(String, T)>, name: Seq<char>, k: int)
    requires
        0 <= k <= v.len(),
        k < v.len() ==> v[k].0@ == name,
        forall|j: int| 0 <= j < k ==> (#[trigger] v[j]).0@ != name,
    ensures
        k < v.len() ==> entry_under(v, name, 0) == Some(v[k].1),
        k == v.len() ==> entry_under(v, name, 0) is None,
{
    lemma_entry_at(v, name, 0, k);
}

/// A listing is accepted exactly when every provider that is wanted is there
/// and was readable.
pub proof fn law_every_wanted_provider_is_needed(
    v: Seq<(String, Result<Arc<ProviderEntry>, String>)>,
    wanted: Seq<&'static str>,
    from: int,
)
    requires
        0 <= from <= wanted.len(),
    ensures
        listing_error(v, wanted, from) is None <==> forall|k: int|
            from <= k < wanted.len() ==> entry_under(v, (#[trigger] wanted[k])@, 0) is Some
                && entry_under(v, wanted[k]@, 0).unwrap() is Ok,
    decreases wanted.len() - from,
{
    if from < wanted.len() {
        law_every_wanted_provider_is_needed(v, wanted, from + 1);
        let first = entry_under(v, wanted[from]@, 0);
        if first is Some && first.unwrap() is Ok {
            assert(listing_error(v, wanted, from) == listing_error(v, wanted, from + 1));
        }
    }
}

} // verus!
