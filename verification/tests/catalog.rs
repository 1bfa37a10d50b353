//! Building the model catalog.

use std::sync::Arc;

use cupel::catalog::{
    curated_providers, parse_wanted, thinking_level_map_from_effort, Compat, Cost,
    Curated, CuratedProvider, Limit, Listing, Modalities, ModelEntry, ProviderEntry,
    ReasoningOption, Thinking, ANTHROPIC_MESSAGES, OPENAI_CODEX_RESPONSES,
};
use cupel::generate::{build_models, openai_codex_models, to_model, validate};
use cupel::models::{CompatValue, InputModality, Model};

const ID: &str = "bard-sonnet-5";

fn effort(values: &[&str]) -> ReasoningOption {
    ReasoningOption::Effort {
        values: values.iter().map(|v| Some((*v).to_string())).collect(),
    }
}

/// Prices are in millionths of a dollar per million tokens.
fn sonnet_entry() -> ModelEntry {
    ModelEntry {
        name: "Sonnet 5".into(),
        reasoning: true,
        reasoning_options: vec![
            ReasoningOption::Toggle,
            effort(&["low", "medium", "high", "xhigh", "max"]),
            ReasoningOption::Unknown,
        ],
        modalities: Modalities { input: vec!["text".into(), "image".into(), "pdf".into()] },
        cost: Some(Cost {
            input: 2_000_000,
            output: 10_000_000,
            cache_read: 200_000,
            cache_write: 2_500_000,
            tiers: Vec::new(),
        }),
        limit: Limit { context: 1_000_000, output: 128_000 },
    }
}

fn painter() -> ModelEntry {
    ModelEntry {
        name: "Painter".into(),
        reasoning: false,
        reasoning_options: Vec::new(),
        modalities: Modalities { input: vec!["image".into()] },
        cost: None,
        limit: Limit { context: 0, output: 0 },
    }
}

fn row() -> Curated {
    Curated {
        id: ID.into(),
        rename: None,
        api: ANTHROPIC_MESSAGES,
        base_url: "https://api.anthropic.com",
        thinking: Thinking::Budget,
        compat: Compat::Plain,
    }
}

fn provider() -> CuratedProvider {
    CuratedProvider { models_dev_id: "anthropic", cupel_id: "anthropic", models: vec![row()] }
}

fn listing() -> Listing {
    Listing::Providers(vec![
        (
            "anthropic".into(),
            Ok(Arc::new(ProviderEntry {
                models: vec![
                    (ID.into(), Ok(Arc::new(sonnet_entry()))),
                    ("paint-o-matic".into(), Ok(Arc::new(painter()))),
                ],
            })),
        ),
        ("weird-provider".into(), Err("invalid type: string".into())),
    ])
}

#[test]
fn to_model_maps_the_models_dev_fields() {
    let model = to_model(&provider(), &row(), &sonnet_entry()).expect("maps");
    assert_eq!(model.id, ID);
    assert_eq!(model.name, "Sonnet 5");
    assert_eq!(model.api.as_str(), ANTHROPIC_MESSAGES);
    assert_eq!(model.provider.as_str(), "anthropic");
    // pdf is dropped - cupel only models text and image input.
    assert_eq!(model.input, vec![InputModality::Text, InputModality::Image]);
    assert_eq!(model.cost.cached_write, 2_500_000);
    assert_eq!(model.context_window, 1_000_000);
    assert_eq!(model.max_tokens, 128_000);
    // Budget thinking: no map at all.
    assert!(model.thinking_level_map.is_none());
    assert!(model.compat.is_none());
}

#[test]
fn missing_cost_is_a_named_error() {
    let error = to_model(&provider(), &row(), &painter()).unwrap_err();
    assert!(error.contains("anthropic/bard-sonnet-5"), "{error}");
    assert!(error.contains("no cost data"), "{error}");
}

#[test]
fn build_models_walks_the_curation_table() {
    let catalog = parse_wanted(&listing(), &vec!["anthropic"]).expect("parses");
    let models = build_models(&vec![provider()], &catalog).expect("builds");
    assert_eq!(models.len(), 1);
    // A curated id models.dev dropped fails loudly, naming the fix.
    let empty = Listing::Providers(vec![(
        "anthropic".into(),
        Ok(Arc::new(ProviderEntry { models: Vec::new() })),
    )]);
    let gone = parse_wanted(&empty, &vec!["anthropic"]).expect("parses");
    let error = build_models(&vec![provider()], &gone).unwrap_err();
    assert!(error.contains("update curation.rs"), "{error}");
}

fn good() -> Model {
    to_model(&provider(), &row(), &sonnet_entry()).expect("maps")
}

#[test]
fn validate_collects_every_violation() {
    let mut broken = good();
    broken.context_window = 0;
    broken.base_url = "not-a-url".to_string();
    let all = vec![Arc::new(good()), Arc::new(broken), Arc::new(good())];
    let error = validate(&all, "bard").unwrap_err();
    assert!(error.contains("duplicated id bard-sonnet-5"), "{error}");
    assert!(error.contains("contextWindow is 0"), "{error}");
    assert!(error.contains("not an http(s) URL"), "{error}");
    assert!(error.contains("baseUrl \"not-a-url\""), "the address is quoted: {error}");

    // The order contract: anything but sonnet-5 first is an error.
    let mut renamed = good();
    renamed.id = "bard-opus-5".to_string();
    let error = validate(&vec![Arc::new(renamed)], "bard").unwrap_err();
    assert!(error.contains("models[0]"), "{error}");

    assert!(validate(&vec![Arc::new(good())], "bard").is_ok());
}

#[test]
fn codex_rows_are_pinned_namespaced_and_tiered() {
    let models = openai_codex_models();
    assert_eq!(models.len(), 7, "the explicit codex list");
    for model in &models {
        // The id namespacing contract that requests undo.
        let request_model = model
            .compat
            .as_ref()
            .and_then(|compat| compat.iter().find(|(k, _)| k == "requestModel"))
            .and_then(|(_, v)| match v {
                CompatValue::Text(t) => Some(t.clone()),
                _ => None,
            })
            .expect("every codex row pins requestModel");
        assert_eq!(model.id, format!("codex/{request_model}"));
        assert_eq!(model.api.as_str(), OPENAI_CODEX_RESPONSES);
        assert_eq!(model.provider.as_str(), "openai-codex");
    }
    let sol = &models[0];
    assert_eq!(sol.id, "codex/gpt-5.6-sol", "first row = /provider default");
    let tiers = sol.cost.tiers.as_ref().expect("long-context tier");
    assert_eq!(tiers[0].context_over, 272_000);
    assert_eq!(tiers[0].input, 10_000_000, "5.0 x2");
    assert_eq!(tiers[0].output, 45_000_000, "30.0 x1.5");
    let spark = models.last().expect("seven rows");
    assert_eq!(spark.context_window, 128_000);
    assert!(spark.cost.tiers.is_none(), "spark has no long-context tier");
    assert_eq!(spark.input, vec![InputModality::Text], "spark is text-only");
}

#[test]
fn parse_wanted_ignores_unrelated_broken_providers() {
    // "weird-provider" is malformed, but we never asked for it.
    let catalog = parse_wanted(&listing(), &vec!["anthropic"]).expect("wanted providers parse");
    assert_eq!(catalog.len(), 1);
    assert_eq!(catalog[0].0, "anthropic");
    assert_eq!(catalog[0].1.models.len(), 2);
}

#[test]
fn parse_wanted_fails_loudly_on_missing_or_broken_wanted_providers() {
    let missing = match parse_wanted(&listing(), &vec!["anthropic", "openai"]) {
        Err(e) => e,
        Ok(_) => panic!("openai is not listed"),
    };
    assert!(
        missing.contains("models.dev no longer\n                lists provider \"openai\""),
        "{missing}"
    );
    let broken = match parse_wanted(&listing(), &vec!["weird-provider"]) {
        Err(e) => e,
        Ok(_) => panic!("the entry is malformed"),
    };
    assert!(broken.contains("weird-provider"), "{broken}");
    assert!(parse_wanted(&Listing::NotAnObject, &vec!["anthropic"]).is_err());
    match parse_wanted(&Listing::Malformed("eof".into()), &vec!["anthropic"]) {
        Err(e) => assert!(e.contains("eof"), "{e}"),
        Ok(_) => panic!("not JSON"),
    }
}

#[test]
fn unknown_reasoning_option_types_are_tolerated() {
    let catalog = parse_wanted(&listing(), &vec!["anthropic"]).expect("fixture parses");
    let entry = catalog[0].1.model("anthropic", ID).expect("entry parses");
    assert_eq!(entry.reasoning_options.len(), 3);
    assert!(matches!(entry.reasoning_options[2], ReasoningOption::Unknown));
    // The sparse image model parses too; only cost is missing.
    let painter = catalog[0].1.model("anthropic", "paint-o-matic").expect("sparse entry parses");
    assert!(painter.cost.is_none());
    assert!(catalog[0].1.model("anthropic", "gone").is_err());
}

fn map_of(pairs: &[(&str, Option<&str>)]) -> Vec<(String, Option<String>)> {
    pairs
        .iter()
        .copied()
        .map(|(level, value)| (level.to_string(), value.map(str::to_string)))
        .collect()
}

/// A map has no order.
fn sorted(mut map: Vec<(String, Option<String>)>) -> Vec<(String, Option<String>)> {
    map.sort();
    map
}

#[test]
fn gpt56_shaped_effort_keeps_xhigh_by_omission() {
    // The trap this derivation exists for: xhigh must NOT appear in
    // the map when it is supported.
    let options = vec![effort(&["none", "low", "medium", "high", "xhigh", "max"])];
    let map = thinking_level_map_from_effort(&options).expect("map derived");
    assert_eq!(
        sorted(map),
        sorted(map_of(&[("off", Some("none")), ("minimal", None)]))
    );
}

#[test]
fn fable_shaped_effort_disables_off_without_a_toggle() {
    let options = vec![effort(&["low", "medium", "high", "xhigh", "max"])];
    let map = thinking_level_map_from_effort(&options).expect("map derived");
    assert_eq!(sorted(map), sorted(map_of(&[("off", None), ("minimal", None)])));
}

#[test]
fn budget_only_models_get_no_map() {
    assert!(thinking_level_map_from_effort(&vec![ReasoningOption::BudgetTokens]).is_none());
    assert!(thinking_level_map_from_effort(&vec![]).is_none());
}

#[test]
fn toggle_plus_full_effort_needs_no_map_at_all() {
    // Everything supported, off handled by the toggle: empty map
    // collapses to None.
    let options = vec![
        ReasoningOption::Toggle,
        effort(&["minimal", "low", "medium", "high", "xhigh"]),
    ];
    assert!(thinking_level_map_from_effort(&options).is_none());
}

#[test]
fn unusable_effort_values_mean_no_map() {
    let options = vec![ReasoningOption::Effort {
        values: vec![None, Some("default".to_string())],
    }];
    assert!(thinking_level_map_from_effort(&options).is_none());
}

#[test]
fn the_curated_table_starts_with_anthropic() {
    let providers = curated_providers("bard", "Bard");
    let ids: Vec<&str> = providers.iter().map(|p| p.cupel_id).collect();
    assert_eq!(ids, ["anthropic", "openai", "amazon-bedrock", "fireworks", "openrouter"]);
    let counts: Vec<usize> = providers.iter().map(|p| p.models.len()).collect();
    assert_eq!(counts, [6, 3, 3, 10, 6]);
    let anthropic: Vec<&str> = providers[0].models.iter().map(|m| m.id.as_str()).collect();
    assert_eq!(
        anthropic,
        [
            "bard-sonnet-5",
            "bard-opus-5",
            "bard-fable-5",
            "bard-haiku-4-5",
            "bard-sonnet-4-6",
            "bard-sonnet-4-5"
        ]
    );
    assert_eq!(providers[0].models[3].rename.as_deref(), Some("Bard Haiku 4.5"));
    let bedrock = &providers[2].models[0];
    assert_eq!(bedrock.id, "us.anthropic.bard-sonnet-4-5-20250929-v1:0");
    assert_eq!(bedrock.rename.as_deref(), Some("Bard Sonnet 4.5 (Bedrock)"));
    assert_eq!(providers[1].models[0].rename.as_deref(), Some("GPT-5.6 Solar"));
    let quirks = Compat::FireworksAnthropic.to_value();
    assert!(quirks.is_some());
    assert!(Compat::Plain.to_value().is_none());
}
