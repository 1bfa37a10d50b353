//! Building the catalog: what is curated joined with what models.dev lists,
//! the pinned models behind it, and the checks on the result.
use std::sync::Arc;

use vstd::prelude::*;

use crate::catalog::{
    thinking_level_map_from_effort, Curated, CuratedProvider, ModelEntry, ProviderEntry, QuirkView,
    Thinking, TierCost, OPENAI_CODEX_BASE_URL, OPENAI_CODEX_RESPONSES,
};
use crate::models::{CompatValue, CostTier, InputModality, Model, ModelCost};
use crate::text::{chars_of, concat2, concat3, join, same_str, starts_with};
use crate::{catalog, text};

verus! {

// ---------------------------------------------------------------------------
// One model
// ---------------------------------------------------------------------------

/// The modalities among the first `n` words that there is a name for.
pub open spec fn modalities_of(words: Seq<String>, n: int) -> Seq<InputModality>
    decreases n,
{
    if n <= 0 {
        Seq::empty()
    } else {
        let before = modalities_of(words, n - 1);
        if words[n - 1]@ == "text"@ {
            before.push(InputModality::Text)
        } else if words[n - 1]@ == "image"@ {
            before.push(InputModality::Image)
        } else {
            before
        }
    }
}

/// Reads modalities. Those that there is no name for are dropped.
pub fn input_modalities(words: &Vec<String>) -> (r: Vec<InputModality>)
    ensures
        r@ == modalities_of(words@, words@.len() as int),
{
    let mut out: Vec<InputModality> = Vec::new();
    let mut i: usize = 0;
    while i < words.len()
        invariant
            i <= words@.len(),
            out@ == modalities_of(words@, i as int),
        decreases words@.len() - i,
    {
        if same_str(words[i].as_str(), "text") {
            out.push(InputModality::Text);
        } else if same_str(words[i].as_str(), "image") {
            out.push(InputModality::Image);
        }
        i += 1;
    }
    out
}

/// A tier of prices.
pub open spec fn tier_of(t: TierCost) -> CostTier {
    CostTier {
        context_over: t.size,
        input: t.input,
        output: t.output,
        cached_read: t.cache_read,
        cached_write: t.cache_write,
    }
}

/// The tiers of prices, or none.
pub open spec fn tiers_of(v: Seq<TierCost>) -> Option<Seq<CostTier>> {
    if v.len() == 0 {
        None
    } else {
        Some(v.map_values(|t: TierCost| tier_of(t)))
    }
}

/// The view of optional tiers.
pub open spec fn opt_tiers(o: Option<Vec<CostTier>>) -> Option<Seq<CostTier>> {
    match o {
        Some(v) => Some(v@),
        None => None,
    }
}

fn read_tiers(v: &Vec<TierCost>) -> (r: Option<Vec<CostTier>>)
    ensures
        opt_tiers(r) == tiers_of(v@),
{
    if v.len() == 0 {
        return None;
    }
    let mut out: Vec<CostTier> = Vec::new();
    let mut i: usize = 0;
    while i < v.len()
        invariant
            i <= v@.len(),
            out@ == v@.take(i as int).map_values(|t: TierCost| tier_of(t)),
        decreases v@.len() - i,
    {
        let t = v[i];
        out.push(
            CostTier {
                context_over: t.size,
                input: t.input,
                output: t.output,
                cached_read: t.cache_read,
                cached_write: t.cache_write,
            },
        );
        assert(out@ =~= v@.take(i + 1).map_values(|t: TierCost| tier_of(t)));
        i += 1;
    }
    assert(v@.take(i as int) =~= v@);
    Some(out)
}

/// The map of levels of a curated model.
pub open spec fn levels_of(row: Curated, entry: ModelEntry) -> Option<
    Seq<(Seq<char>, Option<Seq<char>>)>,
> {
    match row.thinking {
        Thinking::Budget => None,
        Thinking::FromEffort => catalog::effort_map(entry.reasoning_options@),
        Thinking::Explicit(p) => Some(catalog::pinned_pairs(p)),
    }
}

/// Whether a model is a curated row joined with its entry.
pub open spec fn is_joined(
    m: Model,
    cupel_id: Seq<char>,
    row: Curated,
    entry: ModelEntry,
) -> bool {
    &&& m.id@ == row.id@
    &&& m.name@ == (match row.rename {
        Some(name) => name@,
        None => entry.name@,
    })
    &&& m.api@ == row.api@
    &&& m.provider@ == cupel_id
    &&& m.base_url@ == row.base_url@
    &&& m.reasoning == entry.reasoning
    &&& catalog::opt_levels(m.thinking_level_map) == levels_of(row, entry)
    &&& m.input@ == modalities_of(
        entry.modalities.input@,
        entry.modalities.input@.len() as int,
    )
    &&& entry.cost matches Some(c) && m.cost.input == c.input && m.cost.output == c.output
        && m.cost.cached_read == c.cache_read && m.cost.cached_write == c.cache_write && opt_tiers(
        m.cost.tiers,
    ) == tiers_of(c.tiers@)
    &&& m.context_window == entry.limit.context
    &&& m.max_tokens == entry.limit.output
    &&& m.headers is None
    &&& catalog::opt_quirks(m.compat) == catalog::quirks(row.compat)
}

/// Why a curated row cannot be joined with its entry, if it cannot.
pub open spec fn join_error(cupel_id: Seq<char>, row: Curated, entry: ModelEntry) -> Option<
    Seq<char>,
> {
    if entry.cost is None {
        Some(cupel_id + "/"@ + row.id@ + " has no cost data on models.dev"@)
    } else if modalities_of(
        entry.modalities.input@,
        entry.modalities.input@.len() as int,
    ).len() == 0 {
        Some(cupel_id + "/"@ + row.id@ + " has no text/iamge input modality"@)
    } else {
        None
    }
}

/// Joins a curated row with its entry. A model without prices, or that can
/// be shown nothing, is refused.
pub fn to_model(provider: &CuratedProvider, row: &Curated, entry: &ModelEntry) -> (r: Result<
    Model,
    String,
>)
    ensures
        match (r, join_error(provider.cupel_id@, *row, *entry)) {
            (Ok(m), None) => is_joined(m, provider.cupel_id@, *row, *entry),
            (Err(a), Some(b)) => a@ == b,
            _ => false,
        },
{
    let cost = match &entry.cost {
        Some(c) => c,
        None => {
            let mut s = concat3(provider.cupel_id, "/", row.id.as_str());
            s.push_str(" has no cost data on models.dev");
            return Err(s);
        },
    };
    let thinking_level_map = match row.thinking {
        Thinking::Budget => None,
        Thinking::FromEffort => thinking_level_map_from_effort(&entry.reasoning_options),
        Thinking::Explicit(p) => Some(catalog::pinned_levels(p)),
    };
    let input = input_modalities(&entry.modalities.input);
    if input.len() == 0 {
        let mut s = concat3(provider.cupel_id, "/", row.id.as_str());
        s.push_str(" has no text/iamge input modality");
        return Err(s);
    }
    Ok(
        Model {
            id: row.id.clone(),
            name: match &row.rename {
                Some(name) => name.clone(),
                None => entry.name.clone(),
            },
            api: row.api.to_owned(),
            provider: provider.cupel_id.to_owned(),
            base_url: row.base_url.to_owned(),
            reasoning: entry.reasoning,
            thinking_level_map,
            input,
            cost: ModelCost {
                input: cost.input,
                output: cost.output,
                cached_read: cost.cache_read,
                cached_write: cost.cache_write,
                tiers: read_tiers(&cost.tiers),
            },
            context_window: entry.limit.context,
            max_tokens: entry.limit.output,
            headers: None,
            compat: row.compat.to_value(),
        },
    )
}

// ---------------------------------------------------------------------------
// The join
// ---------------------------------------------------------------------------

/// What a curated row comes to: the entry to join it with, or an error.
pub open spec fn source_of(p: CuratedProvider, entry: ProviderEntry, k: int) -> Result<
    Arc<ModelEntry>,
    Seq<char>,
> {
    match catalog::model_of(entry, p.models_dev_id@, p.models@[k].id@) {
        Err(e) => Err(e),
        Ok(m) => match join_error(p.cupel_id@, p.models@[k], *m) {
            Some(e) => Err(e),
            None => Ok(m),
        },
    }
}

/// The first error among the rows of a provider from `k` on.
pub open spec fn rows_error(p: CuratedProvider, entry: ProviderEntry, k: int) -> Option<Seq<char>>
    decreases p.models@.len() - k,
{
    if k >= p.models@.len() {
        None
    } else {
        match source_of(p, entry, k) {
            Err(e) => Some(e),
            Ok(_) => rows_error(p, entry, k + 1),
        }
    }
}

/// The first error among the providers from `k` on.
pub open spec fn build_error(
    providers: Seq<CuratedProvider>,
    listed: Seq<(String, Arc<ProviderEntry>)>,
    k: int,
) -> Option<Seq<char>>
    decreases providers.len() - k,
{
    if k >= providers.len() {
        None
    } else {
        match catalog::entry_under(listed, providers[k].models_dev_id@, 0) {
            None => Some(
                "provider "@ + providers[k].models_dev_id@ + " missing from the parsed catalog"@,
            ),
            Some(entry) => match rows_error(providers[k], *entry, 0) {
                Some(e) => Some(e),
                None => build_error(providers, listed, k + 1),
            },
        }
    }
}

/// How many rows the first `k` providers have.
pub open spec fn rows_in(providers: Seq<CuratedProvider>, k: int) -> nat
    decreases k,
{
    if k <= 0 {
        0
    } else {
        rows_in(providers, k - 1) + providers[k - 1].models@.len()
    }
}

/// Whether a model is row `j` of a provider, joined with what is listed.
pub open spec fn is_row(
    m: Model,
    p: CuratedProvider,
    listed: Seq<(String, Arc<ProviderEntry>)>,
    j: int,
) -> bool {
    catalog::entry_under(listed, p.models_dev_id@, 0) matches Some(entry) && source_of(
        p,
        *entry,
        j,
    ) matches Ok(e) && is_joined(m, p.cupel_id@, p.models@[j], *e)
}

/// Whether these are the models of the first `k` providers, and of the first
/// `n` rows of the next one.
pub open spec fn are_built(
    models: Seq<Model>,
    providers: Seq<CuratedProvider>,
    listed: Seq<(String, Arc<ProviderEntry>)>,
    k: int,
    n: int,
) -> bool {
    &&& models.len() == rows_in(providers, k) + n
    &&& forall|p: int, j: int|
        #![trigger providers[p].models@[j]]
        0 <= p < k && 0 <= j < providers[p].models@.len() ==> is_row(
            models[rows_in(providers, p) + j],
            providers[p],
            listed,
            j,
        )
    &&& forall|j: int|
        0 <= j < n ==> is_row(
            #[trigger] models[rows_in(providers, k) + j],
            providers[k],
            listed,
            j,
        )
}

proof fn lemma_rows_in(providers: Seq<CuratedProvider>, p: int, k: int)
    requires
        0 <= p < k <= providers.len(),
    ensures
        rows_in(providers, p) + providers[p].models@.len() <= rows_in(providers, k),
    decreases k - p,
{
    if p + 1 < k {
        lemma_rows_in(providers, p, k - 1);
    }
}

proof fn lemma_built_push(
    models: Seq<Model>,
    m: Model,
    providers: Seq<CuratedProvider>,
    listed: Seq<(String, Arc<ProviderEntry>)>,
    k: int,
    n: int,
)
    requires
        0 <= k < providers.len(),
        0 <= n < providers[k].models@.len(),
        are_built(models, providers, listed, k, n),
        is_row(m, providers[k], listed, n),
    ensures
        are_built(models.push(m), providers, listed, k, n + 1),
{
    let all = models.push(m);
    assert forall|p: int, j: int|
        #![trigger providers[p].models@[j]]
        0 <= p < k && 0 <= j < providers[p].models@.len() implies is_row(
        all[rows_in(providers, p) + j],
        providers[p],
        listed,
        j,
    ) by {
        lemma_rows_in(providers, p, k);
        assert(all[rows_in(providers, p) + j] == models[rows_in(providers, p) + j]);
    }
    assert forall|j: int| 0 <= j < n + 1 implies is_row(
        #[trigger] all[rows_in(providers, k) + j],
        providers[k],
        listed,
        j,
    ) by {
        if j < n {
            assert(all[rows_in(providers, k) + j] == models[rows_in(providers, k) + j]);
        }
    }
}

proof fn lemma_built_next(
    models: Seq<Model>,
    providers: Seq<CuratedProvider>,
    listed: Seq<(String, Arc<ProviderEntry>)>,
    k: int,
)
    requires
        0 <= k < providers.len(),
        are_built(models, providers, listed, k, providers[k].models@.len() as int),
    ensures
        are_built(models, providers, listed, k + 1, 0),
{
    assert forall|p: int, j: int|
        #![trigger providers[p].models@[j]]
        0 <= p < k + 1 && 0 <= j < providers[p].models@.len() implies is_row(
        models[rows_in(providers, p) + j],
        providers[p],
        listed,
        j,
    ) by {
        if p == k {
            assert(is_row(models[rows_in(providers, k) + j], providers[k], listed, j));
        }
    }
}

/// Builds the models of the curated rows, in their order. The first row that
/// cannot be joined is an error that names it.
pub fn build_models(
    providers: &Vec<CuratedProvider>,
    listed: &Vec<(String, Arc<ProviderEntry>)>,
) -> (r: Result<Vec<Model>, String>)
    ensures
        match r {
            Ok(models) => build_error(providers@, listed@, 0) is None && are_built(
                models@,
                providers@,
                listed@,
                providers@.len() as int,
                0,
            ),
            Err(e) => build_error(providers@, listed@, 0) == Some(e@),
        },
{
    let mut out: Vec<Model> = Vec::new();
    let mut k: usize = 0;
    while k < providers.len()
        invariant
            k <= providers@.len(),
            are_built(out@, providers@, listed@, k as int, 0),
            build_error(providers@, listed@, 0) == build_error(providers@, listed@, k as int),
        decreases providers@.len() - k,
    {
        let p = &providers[k];
        let at = match catalog::find_entry(listed, p.models_dev_id) {
            Some(i) => i,
            None => {
                return Err(
                    concat3("provider ", p.models_dev_id, " missing from the parsed catalog"),
                );
            },
        };
        let entry = Arc::clone(&listed[at].1);
        let mut j: usize = 0;
        while j < p.models.len()
            invariant
                k < providers@.len(),
                *p == providers@[k as int],
                j <= p.models@.len(),
                catalog::entry_under(listed@, p.models_dev_id@, 0) == Some(entry),
                are_built(out@, providers@, listed@, k as int, j as int),
                build_error(providers@, listed@, 0) == build_error(providers@, listed@, k as int),
                rows_error(*p, *entry, 0) == rows_error(*p, *entry, j as int),
            decreases p.models@.len() - j,
        {
            let row = &p.models[j];
            let source = match entry.model(p.models_dev_id, row.id.as_str()) {
                Ok(m) => m,
                Err(e) => {
                    return Err(e);
                },
            };
            match to_model(p, row, &source) {
                Ok(m) => {
                    proof {
                        lemma_built_push(out@, m, providers@, listed@, k as int, j as int);
                    }
                    out.push(m);
                },
                Err(e) => {
                    return Err(e);
                },
            }
            j += 1;
        }
        proof {
            lemma_built_next(out@, providers@, listed@, k as int);
        }
        k += 1;
    }
    Ok(out)
}

// ---------------------------------------------------------------------------
// Pinned models
// ---------------------------------------------------------------------------

/// A subscription model, which models.dev does not list. Its prices are for
/// input, output, cached reading and cached writing.
#[derive(Debug, Clone, Copy)]
pub struct PinnedCodex {
    /// What the backend calls it.
    pub id: &'static str,
    pub name: &'static str,
    /// Whether it can be shown images.
    pub vision: bool,
    pub cost: (i64, i64, i64, i64),
    /// Whether long prompts are dearer.
    pub long_context_tier: bool,
    pub context_window: u64,
}

/// The subscription models. The first one is the default.
pub open spec fn codex_rows() -> Seq<PinnedCodex> {
    seq![
        PinnedCodex {
            id: "gpt-5.6-sol",
            name: "GPT-5.6 Sol",
            vision: true,
            cost: (5_000_000, 30_000_000, 500_000, 6_250_000),
            long_context_tier: true,
            context_window: 272_000,
        },
        PinnedCodex {
            id: "gpt-5.6-luna",
            name: "GPT-5.6 Luna",
            vision: true,
            cost: (200_000, 1_200_000, 20_000, 250_000),
            long_context_tier: true,
            context_window: 272_000,
        },
        PinnedCodex {
            id: "gpt-5.6-terra",
            name: "GPT-5.6 Terra",
            vision: true,
            cost: (2_000_000, 12_000_000, 200_000, 2_500_000),
            long_context_tier: true,
            context_window: 272_000,
        },
        PinnedCodex {
            id: "gpt-5.5",
            name: "GPT-5.5",
            vision: true,
            cost: (5_000_000, 30_000_000, 500_000, 0),
            long_context_tier: true,
            context_window: 272_000,
        },
        PinnedCodex {
            id: "gpt-5.4",
            name: "GPT-5.4",
            vision: true,
            cost: (2_500_000, 15_000_000, 250_000, 0),
            long_context_tier: true,
            context_window: 272_000,
        },
        PinnedCodex {
            id: "gpt-5.4-mini",
            name: "GPT-5.4 mini",
            vision: true,
            cost: (750_000, 4_500_000, 75_000, 0),
            long_context_tier: false,
            context_window: 272_000,
        },
        PinnedCodex {
            id: "gpt-5.3-codex-spark",
            name: "GPT-5.3 Codex Spark",
            vision: false,
            cost: (1_750_000, 14_000_000, 175_000, 0),
            long_context_tier: false,
            context_window: 128_000,
        },
    ]
}

/// The subscription models. The first one is the default.
pub fn pinned_codex() -> (r: Vec<PinnedCodex>)
    ensures
        r@ == codex_rows(),
{
    let r = vec![
        PinnedCodex {
            id: "gpt-5.6-sol",
            name: "GPT-5.6 Sol",
            vision: true,
            cost: (5_000_000, 30_000_000, 500_000, 6_250_000),
            long_context_tier: true,
            context_window: 272_000,
        },
        PinnedCodex {
            id: "gpt-5.6-luna",
            name: "GPT-5.6 Luna",
            vision: true,
            cost: (200_000, 1_200_000, 20_000, 250_000),
            long_context_tier: true,
            context_window: 272_000,
        },
        PinnedCodex {
            id: "gpt-5.6-terra",
            name: "GPT-5.6 Terra",
            vision: true,
            cost: (2_000_000, 12_000_000, 200_000, 2_500_000),
            long_context_tier: true,
            context_window: 272_000,
        },
        PinnedCodex {
            id: "gpt-5.5",
            name: "GPT-5.5",
            vision: true,
            cost: (5_000_000, 30_000_000, 500_000, 0),
            long_context_tier: true,
            context_window: 272_000,
        },
        PinnedCodex {
            id: "gpt-5.4",
            name: "GPT-5.4",
            vision: true,
            cost: (2_500_000, 15_000_000, 250_000, 0),
            long_context_tier: true,
            context_window: 272_000,
        },
        PinnedCodex {
            id: "gpt-5.4-mini",
            name: "GPT-5.4 mini",
            vision: true,
            cost: (750_000, 4_500_000, 75_000, 0),
            long_context_tier: false,
            context_window: 272_000,
        },
        PinnedCodex {
            id: "gpt-5.3-codex-spark",
            name: "GPT-5.3 Codex Spark",
            vision: false,
            cost: (1_750_000, 14_000_000, 175_000, 0),
            long_context_tier: false,
            context_window: 128_000,
        },
    ];
    assert(r@ =~= codex_rows());
    r
}

/// Whether a model is a subscription model: its id carries a prefix, the
/// backend's name for it stands among the quirks, and long prompts cost
/// twice as much to read and half as much again to answer.
pub open spec fn is_codex_model(m: Model, row: PinnedCodex) -> bool {
    &&& m.id@ == "codex/"@ + row.id@
    &&& m.name@ == row.name@
    &&& m.api@ == OPENAI_CODEX_RESPONSES@
    &&& m.provider@ == "openai-codex"@
    &&& m.base_url@ == OPENAI_CODEX_BASE_URL@
    &&& m.reasoning
    &&& catalog::opt_levels(m.thinking_level_map) == Some(seq![("minimal"@, Some("low"@))])
    &&& m.input@ == (if row.vision {
        seq![InputModality::Text, InputModality::Image]
    } else {
        seq![InputModality::Text]
    })
    &&& m.cost.input == row.cost.0
    &&& m.cost.output == row.cost.1
    &&& m.cost.cached_read == row.cost.2
    &&& m.cost.cached_write == row.cost.3
    &&& opt_tiers(m.cost.tiers) == (if row.long_context_tier {
        Some(
            seq![
                CostTier {
                    context_over: 272_000,
                    input: (row.cost.0 * 2) as i64,
                    output: (row.cost.1 * 3 / 2) as i64,
                    cached_read: (row.cost.2 * 2) as i64,
                    cached_write: (row.cost.3 * 2) as i64,
                },
            ],
        )
    } else {
        None
    })
    &&& m.context_window == row.context_window
    &&& m.max_tokens == 128_000
    &&& m.headers is None
    &&& catalog::opt_quirks(m.compat) == Some(
        seq![("requestModel"@, QuirkView::Text(row.id@))],
    )
}

/// Whether the prices of a row are plausible.
pub open spec fn is_priced(row: PinnedCodex) -> bool {
    0 <= row.cost.0 <= 1_000_000_000 && 0 <= row.cost.1 <= 1_000_000_000 && 0 <= row.cost.2
        <= 1_000_000_000 && 0 <= row.cost.3 <= 1_000_000_000
}

fn codex_model(row: &PinnedCodex) -> (r: Model)
    requires
        is_priced(*row),
    ensures
        is_codex_model(r, *row),
{
    let mut input: Vec<InputModality> = Vec::new();
    input.push(InputModality::Text);
    if row.vision {
        input.push(InputModality::Image);
    }
    assert(input@ =~= (if row.vision {
        seq![InputModality::Text, InputModality::Image]
    } else {
        seq![InputModality::Text]
    }));
    let tiers = if row.long_context_tier {
        let v = vec![
            CostTier {
                context_over: 272_000,
                input: row.cost.0 * 2,
                output: row.cost.1 * 3 / 2,
                cached_read: row.cost.2 * 2,
                cached_write: row.cost.3 * 2,
            },
        ];
        assert(v@ =~= seq![
            CostTier {
                context_over: 272_000,
                input: (row.cost.0 * 2) as i64,
                output: (row.cost.1 * 3 / 2) as i64,
                cached_read: (row.cost.2 * 2) as i64,
                cached_write: (row.cost.3 * 2) as i64,
            },
        ]);
        Some(v)
    } else {
        None
    };
    let levels = vec![catalog::level_pair("minimal", Some("low"))];
    assert(catalog::level_views(levels@) =~= seq![("minimal"@, Some("low"@))]);
    let compat = vec![("requestModel".to_owned(), CompatValue::Text(row.id.to_owned()))];
    assert(catalog::quirk_views(compat@) =~= seq![("requestModel"@, QuirkView::Text(row.id@))]);
    Model {
        id: concat2("codex/", row.id),
        name: row.name.to_owned(),
        api: OPENAI_CODEX_RESPONSES.to_owned(),
        provider: "openai-codex".to_owned(),
        base_url: OPENAI_CODEX_BASE_URL.to_owned(),
        reasoning: true,
        thinking_level_map: Some(levels),
        input,
        cost: ModelCost {
            input: row.cost.0,
            output: row.cost.1,
            cached_read: row.cost.2,
            cached_write: row.cost.3,
            tiers,
        },
        context_window: row.context_window,
        max_tokens: 128_000,
        headers: None,
        compat: Some(compat),
    }
}

/// The subscription models, in the order of their rows.
pub fn openai_codex_models() -> (r: Vec<Model>)
    ensures
        r@.len() == codex_rows().len(),
        forall|k: int|
            0 <= k < r@.len() ==> is_codex_model(#[trigger] r@[k], codex_rows()[k]),
{
    let rows = pinned_codex();
    assert(forall|k: int| 0 <= k < rows@.len() ==> is_priced(#[trigger] rows@[k]));
    let mut out: Vec<Model> = Vec::new();
    let mut i: usize = 0;
    while i < rows.len()
        invariant
            i <= rows@.len(),
            rows@ == codex_rows(),
            forall|k: int| 0 <= k < rows@.len() ==> is_priced(#[trigger] rows@[k]),
            out@.len() == i,
            forall|k: int| 0 <= k < i ==> is_codex_model(#[trigger] out@[k], codex_rows()[k]),
        decreases rows@.len() - i,
    {
        out.push(codex_model(&rows[i]));
        i += 1;
    }
    out
}

// ---------------------------------------------------------------------------
// Checks
// ---------------------------------------------------------------------------

/// Whether a protocol is one that there is.
pub open spec fn is_known_api(api: Seq<char>) -> bool {
    api == catalog::ANTHROPIC_MESSAGES@ || api == catalog::OPENAI_RESPONSES@ || api
        == catalog::OPENAI_COMPLETIONS@ || api == catalog::OPENAI_CODEX_RESPONSES@ || api
        == catalog::BEDROCK_CONVERSE_STREAM@
}

/// Whether an id stands among the first `n` models.
pub open spec fn is_seen(v: Seq<Arc<Model>>, id: Seq<char>, n: int) -> bool {
    exists|k: int| 0 <= k < n && (#[trigger] v[k]).id@ == id
}

/// One complaint, or none.
pub open spec fn if_so(wrong: bool, complaint: Seq<char>) -> Seq<Seq<char>> {
    if wrong {
        seq![complaint]
    } else {
        Seq::empty()
    }
}

/// What is wrong with an endpoint.
pub open spec fn url_errors(m: Model) -> Seq<Seq<char>> {
    if m.provider@ == "amazon-bedrock"@ {
        if_so(
            m.base_url@.len() > 0,
            m.id@ + ": bedrock baseUrl must stay empty (the SDK derives it)"@,
        )
    } else {
        if_so(
            !text::has_prefix(m.base_url@, "http"@),
            m.id@ + ": baseUrl "@ + catalog::debug_text(m.base_url@) + " is not an http(s) URL"@,
        )
    }
}

/// A list of complaints with those about model `k` behind it.
pub open spec fn with_errors(before: Seq<Seq<char>>, v: Seq<Arc<Model>>, k: int) -> Seq<Seq<char>> {
    let m = v[k];
    before + if_so(is_seen(v, m.id@, k), "duplicated id "@ + m.id@) + if_so(
        m.context_window == 0,
        m.id@ + ": contextWindow is 0"@,
    ) + if_so(m.max_tokens == 0, m.id@ + ": maxTokens is 0"@) + if_so(
        !is_known_api(m.api@),
        m.id@ + ": unkown api "@ + m.api@,
    ) + if_so(
        m.cost.input < 0 || m.cost.output < 0 || m.cost.cached_read < 0 || m.cost.cached_write < 0,
        m.id@ + ": negative cost"@,
    ) + url_errors(*m)
}

/// What is wrong with the first `n` models.
pub open spec fn errors_before(v: Seq<Arc<Model>>, n: int) -> Seq<Seq<char>>
    decreases n,
{
    if n <= 0 {
        Seq::empty()
    } else {
        with_errors(errors_before(v, n - 1), v, n - 1)
    }
}

/// Whether the catalog starts with the model that others are held against.
pub open spec fn starts_right(v: Seq<Arc<Model>>, family: Seq<char>) -> bool {
    v.len() > 0 && v[0].id@ == family + "-sonnet-5"@ && v[0].provider@ == "anthropic"@
}

/// Everything that is wrong with a catalog.
pub open spec fn all_errors(v: Seq<Arc<Model>>, family: Seq<char>) -> Seq<Seq<char>> {
    errors_before(v, v.len() as int) + if_so(
        !starts_right(v, family),
        "models[0] must be anthropic/"@ + (family + "-sonnet-5"@)
            + " (workspace test fixtures rely on it)"@,
    )
}

fn push_if(out: &mut Vec<String>, wrong: bool, complaint: String)
    ensures
        text::texts(final(out)@) == text::texts(old(out)@) + if_so(wrong, complaint@),
{
    let ghost before = text::texts(out@);
    if wrong {
        out.push(complaint);
    }
    assert(text::texts(out@) =~= before + if_so(wrong, complaint@));
}

fn find_seen(v: &Vec<Arc<Model>>, id: &str, n: usize) -> (r: bool)
    requires
        n <= v@.len(),
    ensures
        r == is_seen(v@, id@, n as int),
{
    let mut i: usize = 0;
    while i < n
        invariant
            i <= n <= v@.len(),
            forall|k: int| 0 <= k < i ==> (#[trigger] v@[k]).id@ != id@,
        decreases n - i,
    {
        if same_str(v[i].id.as_str(), id) {
            assert(v@[i as int].id@ == id@);
            return true;
        }
        i += 1;
    }
    false
}

fn knows_api(api: &str) -> (r: bool)
    ensures
        r == is_known_api(api@),
{
    same_str(api, catalog::ANTHROPIC_MESSAGES) || same_str(api, catalog::OPENAI_RESPONSES)
        || same_str(api, catalog::OPENAI_COMPLETIONS) || same_str(
        api,
        catalog::OPENAI_CODEX_RESPONSES,
    ) || same_str(api, catalog::BEDROCK_CONVERSE_STREAM)
}

fn push_url_errors(out: &mut Vec<String>, m: &Model)
    ensures
        text::texts(final(out)@) == text::texts(old(out)@) + url_errors(*m),
{
    if same_str(m.provider.as_str(), "amazon-bedrock") {
        let complaint = concat2(
            m.id.as_str(),
            ": bedrock baseUrl must stay empty (the SDK derives it)",
        );
        push_if(out, !m.base_url.as_str().is_empty(), complaint);
    } else {
        let mut complaint = concat3(
            m.id.as_str(),
            ": baseUrl ",
            catalog::quoted(m.base_url.as_str()).as_str(),
        );
        complaint.push_str(" is not an http(s) URL");
        push_if(out, !starts_with(&chars_of(m.base_url.as_str()), "http"), complaint);
    }
}

fn push_model_errors(out: &mut Vec<String>, v: &Vec<Arc<Model>>, k: usize)
    requires
        k < v@.len(),
    ensures
        text::texts(final(out)@) == with_errors(text::texts(old(out)@), v@, k as int),
{
    let m = Arc::clone(&v[k]);
    let id = m.id.as_str();
    push_if(out, find_seen(v, id, k), concat2("duplicated id ", id));
    push_if(out, m.context_window == 0, concat2(id, ": contextWindow is 0"));
    push_if(out, m.max_tokens == 0, concat2(id, ": maxTokens is 0"));
    push_if(out, !knows_api(m.api.as_str()), concat3(id, ": unkown api ", m.api.as_str()));
    push_if(
        out,
        m.cost.input < 0 || m.cost.output < 0 || m.cost.cached_read < 0 || m.cost.cached_write < 0,
        concat2(id, ": negative cost"),
    );
    push_url_errors(out, &m);
}

/// Checks a catalog that is to start with the first of Anthropic's models, and
/// reports everything that is wrong with it at once.
pub fn validate(v: &Vec<Arc<Model>>, family: &str) -> (r: Result<(), String>)
    ensures
        match r {
            Ok(_) => all_errors(v@, family@).len() == 0,
            Err(e) => all_errors(v@, family@).len() > 0 && e@ == "validation failed:\n  - "@ + text::joined(
                all_errors(v@, family@),
                "\n  - "@,
            ),
        },
{
    let mut errors: Vec<String> = Vec::new();
    let mut i: usize = 0;
    assert(text::texts(errors@) =~= errors_before(v@, 0));
    while i < v.len()
        invariant
            i <= v@.len(),
            text::texts(errors@) == errors_before(v@, i as int),
        decreases v@.len() - i,
    {
        push_model_errors(&mut errors, v, i);
        i += 1;
    }
    let first = concat2(family, "-sonnet-5");
    let right = v.len() > 0 && same_str(v[0].id.as_str(), first.as_str()) && same_str(
        v[0].provider.as_str(),
        "anthropic",
    );
    push_if(
        &mut errors,
        !right,
        concat3("models[0] must be anthropic/", first.as_str(), " (workspace test fixtures rely on it)"),
    );
    assert(text::texts(errors@).len() == errors@.len());
    if errors.len() == 0 {
        Ok(())
    } else {
        Err(concat2("validation failed:\n  - ", join(&errors, "\n  - ").as_str()))
    }
}

/// A catalog that passes has no id twice, so every model can be addressed by
/// its id.
pub proof fn law_ids_are_unique(v: Seq<Arc<Model>>, family: Seq<char>, i: int, j: int)
    requires
        all_errors(v, family).len() == 0,
        0 <= i < j < v.len(),
    ensures
        v[i].id@ != v[j].id@,
{
    lemma_errors_grow(v, j + 1, v.len() as int);
    if v[i].id@ == v[j].id@ {
        assert(is_seen(v, v[j].id@, j));
        assert(errors_before(v, j + 1).len() > 0);
    }
}

proof fn lemma_errors_grow(v: Seq<Arc<Model>>, k: int, n: int)
    requires
        0 <= k <= n,
    ensures
        errors_before(v, k).len() <= errors_before(v, n).len(),
    decreases n - k,
{
    if k < n {
        lemma_errors_grow(v, k, n - 1);
    }
}

proof fn lemma_modalities(words: Seq<String>, n: int)
    requires
        0 <= n <= words.len(),
    ensures
        modalities_of(words, n) == words.take(n).filter(
            |w: String| w@ == "text"@ || w@ == "image"@,
        ).map_values(
            |w: String|
                if w@ == "text"@ {
                    InputModality::Text
                } else {
                    InputModality::Image
                },
        ),
    decreases n,
{
    reveal(Seq::filter);
    let known = |w: String| w@ == "text"@ || w@ == "image"@;
    let read = |w: String|
        if w@ == "text"@ {
            InputModality::Text
        } else {
            InputModality::Image
        };
    if n > 0 {
        lemma_modalities(words, n - 1);
        let w = words[n - 1];
        assert(words.take(n).drop_last() =~= words.take(n - 1));
        assert(words.take(n).last() == w);
        let before = words.take(n - 1).filter(known);
        if known(w) {
            assert(before.push(w).map_values(read) =~= before.map_values(read).push(read(w)));
        }
    } else {
        assert(words.take(n).filter(known).map_values(read) =~= Seq::empty());
    }
}

/// A model takes what it lists of text and images, in that order, and
/// nothing else is known of it.
pub proof fn law_known_modalities_are_kept(words: Seq<String>)
    ensures
        modalities_of(words, words.len() as int) == words.filter(
            |w: String| w@ == "text"@ || w@ == "image"@,
        ).map_values(
            |w: String|
                if w@ == "text"@ {
                    InputModality::Text
                } else {
                    InputModality::Image
                },
        ),
{
    lemma_modalities(words, words.len() as int);
    assert(words.take(words.len() as int) =~= words);
}

proof fn lemma_own_complaints(before: Seq<Seq<char>>, v: Seq<Arc<Model>>, k: int)
    ensures
        with_errors(before, v, k) == before + with_errors(Seq::empty(), v, k),
{
    assert(with_errors(before, v, k) =~= before + with_errors(Seq::empty(), v, k));
}

proof fn lemma_complaints_stay(v: Seq<Arc<Model>>, k: int, n: int, c: Seq<char>)
    requires
        0 <= k < n <= v.len(),
        with_errors(Seq::empty(), v, k).contains(c),
    ensures
        errors_before(v, n).contains(c),
    decreases n,
{
    let before = errors_before(v, n - 1);
    let own = with_errors(Seq::empty(), v, n - 1);
    let all = errors_before(v, n);
    lemma_own_complaints(before, v, n - 1);
    if k == n - 1 {
        let i = choose|i: int| 0 <= i < own.len() && own[i] == c;
        assert(all[before.len() + i] == c);
    } else {
        lemma_complaints_stay(v, k, n - 1, c);
        let i = choose|i: int| 0 <= i < before.len() && before[i] == c;
        assert(all[i] == c);
    }
}

/// Every flaw of a model is reported.
pub proof fn law_every_flaw_is_reported(v: Seq<Arc<Model>>, family: Seq<char>, k: int)
    requires
        0 <= k < v.len(),
    ensures
        v[k].context_window == 0 ==> all_errors(v, family).contains(
            v[k].id@ + ": contextWindow is 0"@,
        ),
        v[k].max_tokens == 0 ==> all_errors(v, family).contains(v[k].id@ + ": maxTokens is 0"@),
        v[k].cost.input < 0 || v[k].cost.output < 0 || v[k].cost.cached_read < 0
            || v[k].cost.cached_write < 0 ==> all_errors(v, family).contains(
            v[k].id@ + ": negative cost"@,
        ),
        !is_known_api(v[k].api@) ==> all_errors(v, family).contains(
            v[k].id@ + ": unkown api "@ + v[k].api@,
        ),
        (exists|j: int| 0 <= j < k && (#[trigger] v[j]).id@ == v[k].id@) ==> all_errors(
            v,
            family,
        ).contains("duplicated id "@ + v[k].id@),
{
    let m = v[k];
    let e1 = if_so(is_seen(v, m.id@, k), "duplicated id "@ + m.id@);
    let e2 = if_so(m.context_window == 0, m.id@ + ": contextWindow is 0"@);
    let e3 = if_so(m.max_tokens == 0, m.id@ + ": maxTokens is 0"@);
    let e4 = if_so(!is_known_api(m.api@), m.id@ + ": unkown api "@ + m.api@);
    let e5 = if_so(
        m.cost.input < 0 || m.cost.output < 0 || m.cost.cached_read < 0 || m.cost.cached_write < 0,
        m.id@ + ": negative cost"@,
    );
    let own = with_errors(Seq::empty(), v, k);
    let e6 = own.skip((e1.len() + e2.len() + e3.len() + e4.len() + e5.len()) as int);
    let n1 = e1.len() as int;
    let n2 = n1 + e2.len();
    let n3 = n2 + e3.len();
    let n4 = n3 + e4.len();
    assert(own =~= e1 + e2 + e3 + e4 + e5 + e6);
    if e1.len() > 0 {
        assert(own[0] == e1[0]);
        lemma_reported(v, family, k, e1[0]);
    }
    if e2.len() > 0 {
        assert(own[n1] == e2[0]);
        lemma_reported(v, family, k, e2[0]);
    }
    if e3.len() > 0 {
        assert(own[n2] == e3[0]);
        lemma_reported(v, family, k, e3[0]);
    }
    if e4.len() > 0 {
        assert(own[n3] == e4[0]);
        lemma_reported(v, family, k, e4[0]);
    }
    if e5.len() > 0 {
        assert(own[n4] == e5[0]);
        lemma_reported(v, family, k, e5[0]);
    }
}

proof fn lemma_reported(v: Seq<Arc<Model>>, family: Seq<char>, k: int, c: Seq<char>)
    requires
        0 <= k < v.len(),
        with_errors(Seq::empty(), v, k).contains(c),
    ensures
        all_errors(v, family).contains(c),
{
    let n = v.len() as int;
    lemma_complaints_stay(v, k, n, c);
    let before = errors_before(v, n);
    let i = choose|i: int| 0 <= i < before.len() && before[i] == c;
    assert(all_errors(v, family)[i] == c);
}

/// A catalog without complaints has no model with a flaw, and starts with
/// the model that it has to start with.
pub proof fn law_accepted_catalogs_are_sound(v: Seq<Arc<Model>>, family: Seq<char>, k: int)
    requires
        all_errors(v, family).len() == 0,
        0 <= k < v.len(),
    ensures
        v[k].context_window > 0,
        v[k].max_tokens > 0,
        v[k].cost.input >= 0 && v[k].cost.output >= 0 && v[k].cost.cached_read >= 0
            && v[k].cost.cached_write >= 0,
        is_known_api(v[k].api@),
        v[0].id@ == family + "-sonnet-5"@ && v[0].provider@ == "anthropic"@,
{
    law_every_flaw_is_reported(v, family, k);
}

/// The catalog is built exactly when every curated row of a provider has an
/// entry that it can be joined with.
pub proof fn law_every_row_is_needed(p: CuratedProvider, entry: ProviderEntry, from: int)
    requires
        0 <= from <= p.models@.len(),
    ensures
        rows_error(p, entry, from) is None <==> forall|j: int|
            from <= j < p.models@.len() ==> #[trigger] source_of(p, entry, j) is Ok,
    decreases p.models@.len() - from,
{
    if from < p.models@.len() {
        lemma_rows_step(p, entry, from);
        law_every_row_is_needed(p, entry, from + 1);
    }
}

proof fn lemma_rows_step(p: CuratedProvider, entry: ProviderEntry, from: int)
    requires
        0 <= from < p.models@.len(),
    ensures
        source_of(p, entry, from) is Ok ==> rows_error(p, entry, from) == rows_error(
            p,
            entry,
            from + 1,
        ),
        source_of(p, entry, from) is Err ==> rows_error(p, entry, from) is Some,
{
}

} // verus!
