//! The command line.

use std::sync::Arc;

use cupel::cli::{
    fresh_session_id, help_text, parse_args, resume_path, select_model, start_with, CliArgs,
    CliStop, ResumeTarget,
};
use cupel::messages::ThinkingLevel;
use cupel::settings::Settings;
use cupel::models::{CompatValue, InputModality, Model, ModelCost};

fn parse(args: &[&str]) -> Result<CliArgs, CliStop> {
    parse_args(&args.iter().map(ToString::to_string).collect())
}

fn args(list: &[&str]) -> CliArgs {
    match parse(list) {
        Ok(a) => a,
        Err(_) => panic!("{list:?} is accepted"),
    }
}

#[test]
fn resume_flag_with_and_without_an_id() {
    assert!(args(&[]).resume.is_none());
    // Bare --resume = newest session of this project.
    assert!(matches!(args(&["--resume"]).resume, Some(ResumeTarget::Latest)));
    // With an id.
    match args(&["--resume", "cupel-123"]).resume {
        Some(ResumeTarget::Id(id)) => assert_eq!(id, "cupel-123"),
        other => panic!("expected Id, got {:?}", other.is_some()),
    }
    // Followed by another flag: the flag is NOT eaten as an id.
    let a = args(&["--resume", "--plain"]);
    assert!(matches!(a.resume, Some(ResumeTarget::Latest)));
    assert!(a.plain);
}

#[test]
fn unknown_arguments_still_error() {
    assert!(parse(&["--bogus"]).is_err());
    assert!(parse(&["--model"]).is_err(), "--model needs a value");
}

#[test]
fn errors_and_help_stop_the_program() {
    match parse(&["--bogus"]) {
        Err(CliStop::Error(e)) => assert!(e.contains("--bogus"), "{e}"),
        _ => panic!("an unknown flag is an error"),
    }
    assert!(matches!(parse(&["--help"]), Err(CliStop::Help)));
    match parse(&["--thinking", "enormous"]) {
        Err(CliStop::Error(e)) => assert!(e.contains("enormous"), "{e}"),
        _ => panic!("an unknown level is an error"),
    }
    assert!(matches!(
        args(&["--thinking", "high"]).thinking,
        Some(ThinkingLevel::High)
    ));
}

fn model(id: &str, provider: &str, keyless: bool) -> Arc<Model> {
    Arc::new(Model {
        id: id.into(),
        name: id.into(),
        api: "openai-completions".into(),
        provider: provider.into(),
        base_url: "http://localhost".into(),
        reasoning: false,
        thinking_level_map: None,
        input: vec![InputModality::Text],
        cost: ModelCost { input: 0, output: 0, cached_read: 0, cached_write: 0, tiers: None },
        context_window: 4096,
        max_tokens: 4096,
        headers: None,
        compat: if keyless {
            Some(vec![("requiresApiKey".to_string(), CompatValue::Flag(false))])
        } else {
            None
        },
    })
}

#[test]
fn select_model_falls_back_to_keyless_local_models() {
    let none: Vec<(String, String)> = Vec::new();
    let catalog = vec![model("qwen3:8b", "ollama", true), model("llama3:8b", "ollama", true)];
    // Pass 2: first keyless model wins, with no key.
    let (chosen, key) = select_model(&args(&[]), &catalog, &none).unwrap();
    assert_eq!(chosen.id, "qwen3:8b");
    assert!(key.is_none());

    // Explicit --model on a keyless entry also carries no key.
    let (chosen, key) = select_model(&args(&["--model", "llama3:8b"]), &catalog, &none).unwrap();
    assert_eq!(chosen.id, "llama3:8b");
    assert!(key.is_none());

    // Empty catalog: the error mentions the local-server escape hatch.
    let err = select_model(&args(&[]), &Vec::new(), &none).unwrap_err();
    assert!(err.contains("ollama"), "{err}");
}

#[test]
fn models_with_credentials_come_first() {
    let env = vec![("OPENAI_API_KEY".to_string(), "k".to_string())];
    let catalog = vec![
        model("sonnet-5", "anthropic", false),
        model("qwen3:8b", "ollama", true),
        model("gpt-5.6-sol", "openai", false),
    ];
    let (chosen, key) = select_model(&args(&[]), &catalog, &env).unwrap();
    assert_eq!(chosen.id, "gpt-5.6-sol");
    assert_eq!(key, Some("k".to_string()));
    assert!(select_model(&args(&["--model", "nope"]), &catalog, &env).is_err());
}

#[test]
fn sessions_start_with_stored_keys_or_a_warning() {
    let none: Vec<(String, String)> = Vec::new();
    let catalog = vec![model("sonnet-5", "anthropic", false), model("gpt", "openai", false)];
    let empty = Settings::default();
    // On the screen a session starts without credentials, with a warning.
    let start = start_with(&args(&[]), false, &catalog, &none, &empty).unwrap();
    assert_eq!(start.model.id, "sonnet-5");
    assert!(start.api_key.is_none());
    assert!(start.warning.unwrap().contains("no credentials found"));
    // In plain mode it does not, nor does an unknown model start anything.
    assert!(start_with(&args(&[]), true, &catalog, &none, &empty).is_err());
    assert!(start_with(&args(&["-m", "nope"]), false, &catalog, &none, &empty).is_err());
    // A stored key serves the model that was asked for; an exported one wins.
    let mut stored = Settings::default();
    stored.set_key("openai", "stored");
    let start = start_with(&args(&["-m", "gpt"]), false, &catalog, &none, &stored).unwrap();
    assert_eq!(start.api_key.as_deref(), Some("stored"));
    let env = vec![("OPENAI_API_KEY".to_string(), "exported".to_string())];
    let start = start_with(&args(&["-m", "gpt"]), false, &catalog, &env, &stored).unwrap();
    assert_eq!(start.api_key.as_deref(), Some("exported"));
    assert!(start.warning.is_none());
}

#[test]
fn the_help_lists_the_models() {
    let text = help_text(&vec![model("qwen3:8b", "ollama", true)]);
    assert!(text.contains("qwen3:8b"));
    assert!(text.contains("--resume"));
}

#[test]
fn resuming_needs_a_session() {
    let dir = Some("/h/sessions".to_string());
    let id = ResumeTarget::Id("cupel-1".into());
    assert_eq!(
        resume_path(&id, dir.clone(), true, None),
        Ok("/h/sessions/cupel-1.jsonl".to_string())
    );
    assert!(resume_path(&id, dir.clone(), false, None).is_err());
    assert_eq!(
        resume_path(&ResumeTarget::Latest, dir.clone(), false, Some("/x".into())),
        Ok("/x".to_string())
    );
    assert!(resume_path(&ResumeTarget::Latest, dir, false, None).is_err());
    assert!(resume_path(&id, None, true, None).is_err());
    assert_eq!(fresh_session_id(123), "cupel-123");
}
