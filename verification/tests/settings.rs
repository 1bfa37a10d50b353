//! Settings and stored logins.

use cupel::auth::{
    access_token, auth_path, credential, delete_credential, has_credential, needs_refresh,
    load_auth, open_auth, renewed, save_credential, OAuthCredential, TokenStep,
};
use cupel::settings::{
    load_home_settings, load_project_settings, load_settings, project_keys_warning,
    project_settings_path, save_provider_key, settings_path, warn_project_settings, FileRead,
    LoopKillerSettings, SaveError, Settings,
};

fn with_keys(keys: &[(&str, &str)]) -> Settings {
    let mut s = Settings::default();
    for (provider, key) in keys {
        s.set_key(provider, key);
    }
    s
}

fn saved(read: FileRead<Settings>, provider: &str, key: &str) -> (String, Settings) {
    match save_provider_key(Some("/home/u/.cupel".into()), read, provider, key) {
        Ok(x) => x,
        Err(e) => panic!("saved: {}", e.message()),
    }
}

#[test]
fn missing_file_loads_defaults() {
    let s = Settings::default();
    assert!(s.providers.is_empty());
    assert!(s.extra.is_empty());
    assert!(s.loop_killer.is_none());
}

#[test]
fn valid_file_parses_providers() {
    let s = with_keys(&[("anthropic", "sk-a"), ("fireworks", "fw-b")]);
    assert_eq!(s.api_key("anthropic"), Some("sk-a"));
    assert_eq!(s.api_key("fireworks"), Some("fw-b"));
    assert_eq!(s.api_key("unknown"), None);
}

#[test]
fn serialized_provider_order_is_deterministic() {
    let s = with_keys(&[("zeta", "z"), ("alpha", "a")]);
    let names: Vec<&str> = s.providers.iter().map(|(n, _)| n.as_str()).collect();
    assert_eq!(names, vec!["alpha", "zeta"], "keys are kept sorted");
}

#[test]
fn debug_never_prints_key_values() {
    let s = with_keys(&[("anthropic", "sk-a")]);
    let rendered = format!("{:?}", s.provider_names());
    assert!(rendered.contains("anthropic"), "{rendered}");
    assert!(!rendered.contains("sk-a"), "key value leaked: {rendered}");
}

#[test]
fn save_creates_the_home_dir_and_file() {
    let (path, s) = saved(FileRead::Missing, "anthropic", "sk-a");
    assert_eq!(path, "/home/u/.cupel/settings.json");
    assert_eq!(path, settings_path("/home/u/.cupel"));
    assert_eq!(s.api_key("anthropic"), Some("sk-a"));
}

#[test]
fn save_preserves_other_providers_and_unknown_fields() {
    let mut before = with_keys(&[("fireworks", "fw-1")]);
    before.extra.push(("editor".to_string(), "\"vim\"".to_string()));
    let (_, s) = saved(FileRead::Parsed(before), "anthropic", "sk-a");
    assert_eq!(s.api_key("fireworks"), Some("fw-1"));
    assert_eq!(s.api_key("anthropic"), Some("sk-a"));
    assert_eq!(s.extra, vec![("editor".to_string(), "\"vim\"".to_string())]);
}

#[test]
fn save_overwrites_the_same_provider() {
    let (_, first) = saved(FileRead::Missing, "anthropic", "old");
    let (_, second) = saved(FileRead::Parsed(first), "anthropic", "new");
    assert_eq!(second.providers.len(), 1);
    assert_eq!(second.api_key("anthropic"), Some("new"));
}

#[test]
fn save_refuses_a_malformed_file() {
    let r = save_provider_key(
        Some("/h".into()),
        FileRead::Malformed("expected value".into()),
        "anthropic",
        "sk-a",
    );
    match r {
        Err(SaveError::Malformed { path, reason }) => {
            assert_eq!(path, "/h/settings.json");
            assert_eq!(reason, "expected value");
        }
        _ => panic!("a malformed file is not overwritten"),
    }
}

#[test]
fn save_without_a_home_is_no_home() {
    let r = save_provider_key(None, FileRead::Missing, "anthropic", "sk-a");
    assert!(matches!(r, Err(SaveError::NoHome)));
}

#[test]
fn every_save_error_says_what_is_wrong() {
    let r = save_provider_key(
        Some("/h".into()),
        FileRead::Unreadable("permission denied".into()),
        "anthropic",
        "sk-a",
    );
    match r {
        Err(e @ SaveError::Io { .. }) => {
            let text = e.message();
            assert!(text.contains("/h/settings.json") && text.contains("permission denied"));
        }
        _ => panic!("an unreadable file is an error"),
    }
    assert!(!SaveError::NoHome.message().is_empty());
    let malformed = SaveError::Malformed { path: "/p".into(), reason: "why".into() };
    assert!(malformed.message().contains("/p") && malformed.message().contains("why"));
}

#[test]
fn project_settings_providers_detection() {
    let warned = |content: Option<&str>| warn_project_settings("/proj", content).is_some();
    assert!(!warned(None), "missing file");
    assert!(!warned(Some("{\"other\": 1}")), "no providers key");
    assert!(!warned(Some("{broken")), "malformed defines nothing");
    assert!(warned(Some("{\"providers\": {\"anthropic\": \"leak\"}}")));

    assert_eq!(project_settings_path("/proj"), "/proj/.cupel/settings.json");
    assert_eq!(project_keys_warning("/proj/.cupel/settings.json", false), None);
    let warning = project_keys_warning("/proj/.cupel/settings.json", true).expect("warned");
    assert!(warning.contains("/proj/.cupel/settings.json"));
    assert!(warning.contains("ignored"));
}

#[test]
fn malformed_files_are_errors_and_the_wrapper_defaults() {
    for bad in ["expected ident", "invalid type: sequence", "invalid type: integer"] {
        let read = || FileRead::Malformed(bad.to_string());
        match load_settings("/h/settings.json", read()) {
            Err(e) => assert_eq!(e, format!("/h/settings.json is not valid: {bad}")),
            Ok(_) => panic!("should reject: {bad}"),
        }
        let (settings, warning) = load_home_settings(Some("/h"), read());
        assert!(settings.providers.is_empty());
        assert!(warning.unwrap().contains(bad));
    }
    match load_settings("/h/settings.json", FileRead::Unreadable("denied".into())) {
        Err(e) => assert_eq!(e, "cannot read /h/settings.json: denied"),
        Ok(_) => panic!("an unreadable file is an error"),
    }
    // Without a home there is nothing to read.
    let (settings, warning) = load_home_settings(None, FileRead::Malformed("x".into()));
    assert!(settings.providers.is_empty() && warning.is_none());
}

#[test]
fn project_settings_load_warns_and_defaults_like_home() {
    let (missing, warning) = load_project_settings("/proj", FileRead::Missing);
    assert!(missing.providers.is_empty() && missing.loop_killer.is_none(), "missing = defaults");
    assert!(warning.is_none());

    let (broken, warning) = load_project_settings("/proj", FileRead::Malformed("bad".into()));
    assert!(broken.providers.is_empty() && broken.loop_killer.is_none(), "malformed = defaults");
    assert_eq!(
        warning.unwrap(),
        "warning: ignoring project settings file: /proj/.cupel/settings.json is not valid: bad"
    );

    let mut two = Settings::default();
    two.loop_killer = Some(LoopKillerSettings { max_repeats: 2 });
    let (loaded, _) = load_project_settings("/proj", FileRead::Parsed(two));
    assert_eq!(loaded.loop_killer_max_repeats(), Some(2));
}

#[test]
fn loop_killer_settings_parse_and_default_off() {
    let mut s = Settings::default();
    s.loop_killer = Some(LoopKillerSettings { max_repeats: 5 });
    assert_eq!(s.loop_killer_max_repeats(), Some(5));

    // Opt-in: absent section = off, explicit 0 = off.
    assert_eq!(Settings::default().loop_killer_max_repeats(), None);
    let mut zero = Settings::default();
    zero.loop_killer = Some(LoopKillerSettings { max_repeats: 0 });
    assert_eq!(zero.loop_killer_max_repeats(), None);
}

#[test]
fn save_does_not_inject_a_null_loop_killer() {
    let (_, s) = saved(FileRead::Missing, "anthropic", "sk-a");
    assert!(s.loop_killer.is_none());
}

#[test]
fn save_preserves_a_loop_killer_section() {
    let mut before = Settings::default();
    before.loop_killer = Some(LoopKillerSettings { max_repeats: 4 });
    let (_, s) = saved(FileRead::Parsed(before), "anthropic", "sk-a");
    assert_eq!(s.loop_killer_max_repeats(), Some(4));
    assert_eq!(s.api_key("anthropic"), Some("sk-a"));
}

#[test]
fn layered_project_overrides_loop_killer_but_never_supplies_keys() {
    let home = || {
        let mut h = with_keys(&[("anthropic", "sk-home")]);
        h.loop_killer = Some(LoopKillerSettings { max_repeats: 3 });
        h
    };
    // A hostile or careless project file: both a key AND a config.
    let mut project = with_keys(&[("anthropic", "sk-LEAKED")]);
    project.loop_killer = Some(LoopKillerSettings { max_repeats: 7 });

    let merged = Settings::layered(home(), project);
    assert_eq!(merged.loop_killer_max_repeats(), Some(7), "project wins");
    assert_eq!(
        merged.api_key("anthropic"),
        Some("sk-home"),
        "keys must stay home-only"
    );

    // Without a project section the home value stands.
    let merged = Settings::layered(home(), Settings::default());
    assert_eq!(merged.loop_killer_max_repeats(), Some(3));
}

fn credential_fixture(expires: u64) -> OAuthCredential {
    OAuthCredential {
        access: "access-1".to_string(),
        refresh: "refresh-1".to_string(),
        expires,
        account_id: "acc-1".to_string(),
    }
}

#[test]
fn save_load_delete_round_trip() {
    let (path, mut auth) = match open_auth(Some("/h".into()), FileRead::Missing) {
        Ok(x) => x,
        Err(_) => panic!("a missing file is empty"),
    };
    assert_eq!(path, "/h/auth.json");
    assert_eq!(path, auth_path("/h"));
    assert!(!has_credential(&auth, "openai-codex"), "empty start");

    save_credential(&mut auth, "openai-codex", credential_fixture(42));
    let stored = credential(&auth, "openai-codex").expect("stored");
    assert_eq!(stored.access, "access-1");
    assert_eq!(stored.expires, 42);
    // Unknown provider and no-home stay empty.
    assert!(credential(&auth, "anthropic").is_none());
    assert!(matches!(open_auth(None, FileRead::Missing), Err(SaveError::NoHome)));

    assert!(delete_credential(&mut auth, "openai-codex"));
    assert!(!has_credential(&auth, "openai-codex"));
    // Deleting again reports "was not there" instead of erroring.
    assert!(!delete_credential(&mut auth, "openai-codex"));
}

#[test]
fn malformed_files_load_empty_but_refuse_saves() {
    let read = || FileRead::Malformed("expected value".into());
    // Reading fails soft (a broken file must not crash startup)...
    let (all, warning) = load_auth(Some("/h"), read());
    assert!(all.is_empty());
    assert_eq!(
        warning.unwrap(),
        "ignoring auth file: /h/auth.json is not valid: expected value"
    );
    assert!(load_auth(None, read()).1.is_none());
    // ...but writing refuses to clobber the user's bytes.
    match open_auth(Some("/h".into()), read()) {
        Err(SaveError::Malformed { path, reason }) => {
            assert_eq!(path, "/h/auth.json");
            assert_eq!(reason, "/h/auth.json is not valid: expected value");
        }
        _ => panic!("a malformed file is not overwritten"),
    }
}

#[test]
fn refresh_decision_uses_the_five_minute_margin() {
    let now = 1_000_000_000;
    let margin = 5 * 60 * 1000;
    // Comfortably fresh: margin + 1ms of headroom.
    assert!(!needs_refresh(&credential_fixture(now + margin + 1), now));
    // Exactly on the line, inside it, and already expired.
    assert!(needs_refresh(&credential_fixture(now + margin), now));
    assert!(needs_refresh(&credential_fixture(now + 1), now));
    assert!(needs_refresh(&credential_fixture(now - 1), now));
}

#[test]
fn access_token_returns_the_stored_token_while_fresh() {
    match access_token(Some(credential_fixture(60 * 60 * 1000)), 0) {
        TokenStep::Use(t) => assert_eq!(t, "access-1"),
        _ => panic!("a fresh token is used"),
    }
    match access_token(Some(credential_fixture(1)), 0) {
        TokenStep::Renew(t) => assert_eq!(t, "refresh-1"),
        _ => panic!("an expiring token is renewed"),
    }
    // Not logged in: None, no panic.
    assert!(matches!(access_token(None, 0), TokenStep::NotLoggedIn));
}

#[test]
fn a_failed_renewal_falls_back_to_nothing() {
    let (token, kept) = renewed(Ok(credential_fixture(7))).unwrap();
    assert_eq!(token, "access-1");
    assert_eq!(kept.expires, 7);
    assert!(renewed(Err("offline".into())).is_none());
}

#[test]
fn logins_of_other_providers_are_left_alone() {
    let mut logins = Vec::new();
    save_credential(&mut logins, "one", credential_fixture(1));
    save_credential(&mut logins, "two", credential_fixture(2));
    save_credential(&mut logins, "one", credential_fixture(3));
    assert_eq!(logins.len(), 2);
    assert_eq!(credential(&logins, "one").unwrap().expires, 3);
    assert_eq!(credential(&logins, "two").unwrap().expires, 2);
    assert!(delete_credential(&mut logins, "one"));
    assert!(credential(&logins, "one").is_none());
    assert!(has_credential(&logins, "two"));
}
