//! Providers, models and where their credentials come from.

use std::sync::Arc;

use cupel::models::{
    add_discovered, build_catalog, build_catalog_offline, filter_registered, find_model,
    load_models_file, load_user_models, merge_models, models_paths, CompatValue,
    InputModality, Model, ModelCost,
};
use cupel::ollama::{
    models_from_tags, models_named, normalize_host, ollama_host, read_tags, DEFAULT_CONTEXT_WINDOW,
};
use cupel::settings::FileRead;
use cupel::providers::{
    catalog_providers, env_api_key, env_var_name, has_aws_credentials, is_keyless,
    provider_is_keyless,
};

fn model(id: &str, provider: &str, api: &str, window: u64, keyless: Option<bool>) -> Arc<Model> {
    Arc::new(Model {
        id: id.into(),
        name: id.into(),
        api: api.into(),
        provider: provider.into(),
        base_url: "http://localhost:11434/v1".into(),
        reasoning: false,
        thinking_level_map: None,
        input: vec![InputModality::Text],
        cost: ModelCost { input: 0, output: 0, cached_read: 0, cached_write: 0, tiers: None },
        context_window: window,
        max_tokens: 4096,
        headers: None,
        compat: keyless.map(|k| vec![("requiresApiKey".to_string(), CompatValue::Flag(!k))]),
    })
}

fn local(id: &str, window: u64) -> Arc<Model> {
    model(id, "ollama", "openai-completions", window, Some(true))
}

/// A catalog with several providers, as the built-in one has.
fn catalog() -> Vec<Arc<Model>> {
    vec![
        model("sonnet-5", "anthropic", "anthropic-messages", 1000, None),
        model("opus-5", "anthropic", "anthropic-messages", 1000, None),
        model("gpt-5.6-sol", "openai", "openai-responses", 1000, None),
        model("us.sonnet-5", "amazon-bedrock", "bedrock-converse-stream", 1000, None),
        model("kimi-k3", "fireworks", "openai-completions", 1000, None),
    ]
}

#[test]
fn env_var_names_match_the_documented_providers() {
    assert_eq!(env_var_name("anthropic"), Some("ANTHROPIC_API_KEY"));
    assert_eq!(env_var_name("openai"), Some("OPENAI_API_KEY"));
    assert_eq!(env_var_name("fireworks"), Some("FIREWORKS_API_KEY"));
    // Bedrock has no key variable - the AWS chain handles it.
    assert_eq!(env_var_name("amazon-bedrock"), None);
    assert_eq!(env_var_name("unknown"), None);
}

#[test]
fn catalog_providers_are_distinct_with_a_default_model() {
    let providers = catalog_providers(&catalog());
    assert!(providers.len() >= 4, "anthropic/openai/bedrock/fireworks");
    // Catalog order: anthropic first, and each provider appears once.
    assert_eq!(providers[0].0, "anthropic");
    let mut names: Vec<&str> = providers.iter().map(|(n, _)| n.as_str()).collect();
    names.dedup();
    assert_eq!(names.len(), providers.len(), "no duplicates");
    // The default model actually belongs to its provider.
    for (name, model) in &providers {
        assert_eq!(model.provider.as_str(), name);
    }
    assert_eq!(providers[0].1.id, "sonnet-5", "the first one is the default");
}

#[test]
fn keyless_detection_reads_the_compat_flag() {
    assert!(!is_keyless(&catalog()[0]), "no compat = key required");
    assert!(is_keyless(&model("a", "p", "openai-completions", 1, Some(true))));
    assert!(!is_keyless(&model("a", "p", "openai-completions", 1, Some(false))));

    // A provider is keyless only when ALL of its models are.
    let keyless = local("local", 1000);
    let keyed = model("local-2", "ollama", "openai-completions", 1000, None);
    assert!(provider_is_keyless(&vec![Arc::clone(&keyless)], "ollama"));
    assert!(!provider_is_keyless(&vec![Arc::clone(&keyless), keyed], "ollama"));
    assert!(
        !provider_is_keyless(&vec![keyless], "unknown"),
        "no models = not keyless"
    );
}

#[test]
fn keys_come_from_the_environment() {
    let env = vec![("OPENAI_API_KEY".to_string(), "k1".to_string())];
    assert_eq!(env_api_key(&env, "openai"), Some("k1".to_string()));
    assert_eq!(env_api_key(&env, "anthropic"), None);
    assert_eq!(env_api_key(&env, "amazon-bedrock"), None);
    assert!(!has_aws_credentials(&env));
    let aws = vec![("AWS_PROFILE".to_string(), "p".to_string())];
    assert!(has_aws_credentials(&aws));
}

#[test]
fn normalize_host_adds_scheme_and_trims_slash() {
    assert_eq!(normalize_host("0.0.0.0:11434"), "http://0.0.0.0:11434");
    assert_eq!(normalize_host("http://box:11434/"), "http://box:11434");
    assert_eq!(normalize_host("https://remote/"), "https://remote");
}

#[test]
fn the_default_host_is_local() {
    assert_eq!(ollama_host(None), "http://localhost:11434");
    assert_eq!(ollama_host(Some("box:1".into())), "http://box:1");
}

#[test]
fn models_from_tags_maps_the_fixture() {
    // Shape of a real /api/tags response (fields we ignore elided).
    let json = r#"{
        "models": [
            {"name": "qwen3:8b", "size": 5200000000},
            {"name": "llama3.2:latest", "size": 2000000000}
        ]
    }"#;
    let models = models_from_tags(json, "http://localhost:11434");
    assert_eq!(models.len(), 2);
    assert_eq!(models[0].id, "qwen3:8b");
    assert_eq!(models[0].base_url, "http://localhost:11434/v1");
    assert_eq!(models[0].api.as_str(), "openai-completions");
    assert_eq!(models[0].provider.as_str(), "ollama");
    assert_eq!(models[0].context_window, DEFAULT_CONTEXT_WINDOW);
    assert_eq!(models[0].cost.input, 0, "local is free");
    let compat = models[0].compat.as_ref().unwrap();
    assert!(compat
        .iter()
        .any(|(k, v)| k == "requiresApiKey" && matches!(v, CompatValue::Flag(false))));
    assert_eq!(models[1].id, "llama3.2:latest");
}

#[test]
fn models_from_tags_tolerates_missing_or_odd_shapes() {
    assert!(models_from_tags("{}", "h").is_empty());
    assert!(models_from_tags(r#"{"models": []}"#, "h").is_empty());
    // Entries without a name are skipped, not fatal.
    let json = r#"{"models": [{"size": 1}, {"name": "ok:latest"}]}"#;
    assert_eq!(models_from_tags(json, "h").len(), 1);
    assert_eq!(read_tags(json), vec![None, Some("ok:latest".to_string())]);
    assert_eq!(models_named(&read_tags(json), "h").len(), 1);
    assert!(models_from_tags("not json", "h").is_empty());
    assert!(models_from_tags(r#"{"models": {"name": "x"}}"#, "h").is_empty());
}

#[test]
fn merge_replaces_by_id_in_place_and_appends_new() {
    let base = vec![local("a", 1000), local("b", 1000)];
    let overlay = vec![
        local("a", 9000), // overrides in place
        local("c", 1000), // appends
    ];
    let merged = merge_models(&vec![base, overlay]);
    let ids: Vec<&str> = merged.iter().map(|m| m.id.as_str()).collect();
    assert_eq!(ids, vec!["a", "b", "c"], "position of 'a' is preserved");
    assert_eq!(merged[0].context_window, 9000, "later layer won");
}

#[test]
fn unregistered_api_is_skipped() {
    let apis = vec!["openai-completions".to_string(), "anthropic-messages".to_string()];
    let odd = vec![model("x", "ollama", "grpc-magic", 1000, Some(true))];
    let (kept, skipped) = filter_registered(&odd, &apis);
    assert!(kept.is_empty());
    assert_eq!(skipped.len(), 1);
    // Sanity: a real api survives.
    let (kept, _) = filter_registered(&vec![local("y", 1000)], &apis);
    assert_eq!(kept.len(), 1);
}

#[test]
fn offline_catalog_layers_user_files_over_builtins() {
    // Home defines a new model; the project overrides a BUILTIN id.
    let home = vec![local("local-model", 8192)];
    let project = vec![model("sonnet-5", "anthropic", "anthropic-messages", 12_345, None)];
    let (layers, warnings) =
        load_user_models(vec![Ok(home), Err("bad.json is not valid".into()), Ok(project)]);
    assert_eq!(layers.len(), 2);
    assert_eq!(warnings, vec!["warning: ignoring models file: bad.json is not valid"]);
    let all = build_catalog_offline(catalog(), layers);
    let at = find_model(&all, "sonnet-5").unwrap();
    assert_eq!(all[at].context_window, 12_345, "project layer overrode builtin");
    assert!(find_model(&all, "local-model").is_some());
    // Builtins that nobody touched are still there.
    assert!(find_model(&all, "opus-5").is_some());
}

#[test]
fn merging_keeps_the_first_place_and_the_last_word() {
    let layers = vec![
        vec![local("a", 1), local("b", 2), local("a", 3)],
        vec![local("c", 4), local("b", 5)],
    ];
    let all: Vec<(String, u64)> =
        merge_models(&layers).iter().map(|m| (m.id.clone(), m.context_window)).collect();
    assert_eq!(all, vec![("a".into(), 3), ("b".into(), 5), ("c".into(), 4)]);
}

#[test]
fn missing_file_is_empty_and_malformed_is_an_error() {
    assert!(load_models_file("nope.json", FileRead::Missing).unwrap().is_empty());
    match load_models_file("bad.json", FileRead::Malformed("expected ident".into())) {
        Err(e) => assert_eq!(e, "bad.json is not valid: expected ident"),
        Ok(_) => panic!("a malformed file is an error"),
    }
    match load_models_file("bad.json", FileRead::Unreadable("denied".into())) {
        Err(e) => assert_eq!(e, "cannot read bad.json: denied"),
        Ok(_) => panic!("an unreadable file is an error"),
    }
    let read = FileRead::Parsed(vec![local("local-model", 8192)]);
    assert_eq!(load_models_file("good.json", read).unwrap().len(), 1);
    assert_eq!(
        models_paths(Some("/h"), "/proj"),
        vec!["/h/models.json", "/proj/.cupel/models.json"]
    );
    assert_eq!(models_paths(None, "/proj"), vec!["/proj/.cupel/models.json"]);
}

#[test]
fn a_catalog_is_layers_discoveries_and_what_is_served() {
    let apis = vec!["openai-completions".to_string(), "anthropic-messages".to_string()];
    let home = vec![local("local-model", 8192)];
    let project = vec![model("sonnet-5", "anthropic", "anthropic-messages", 12_345, None)];
    let found = vec![local("local-model", 1), local("found", 2)];
    let (all, skipped) = build_catalog(&vec![catalog(), home, project], &found, &apis);
    assert!(skipped.iter().all(|m| !apis.contains(&m.api)));
    assert!(all.iter().all(|m| apis.contains(&m.api)));
    let at = find_model(&all, "sonnet-5").unwrap();
    assert_eq!(all[at].context_window, 12_345);
    let at = find_model(&all, "local-model").unwrap();
    assert_eq!(all[at].context_window, 8192, "discovery ranks below what was written down");
    assert!(find_model(&all, "found").is_some());
}

#[test]
fn discovered_models_never_replace_configured_ones() {
    let known = vec![local("a", 7)];
    let all = add_discovered(known, &vec![local("a", 1), local("b", 2)]);
    assert_eq!(all.len(), 2);
    assert_eq!(all[0].context_window, 7);
    assert_eq!(all[1].id, "b");
}
