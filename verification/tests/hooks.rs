//! Hooks around a session.

use cupel::hooks::{hook_dir, hook_scripts, payload, HookConfig, HookEvent};

#[test]
fn discovery_is_sorted_and_skips_non_executables() {
    let roots = vec!["/r".to_string()];
    let listing = vec![vec![
        ("c-disabled".to_string(), false),
        ("b-second".to_string(), true),
        ("a-first".to_string(), true),
    ]];
    let scripts = hook_scripts(&roots, "stop", &listing);
    assert_eq!(scripts, vec!["/r/hooks/stop/a-first", "/r/hooks/stop/b-second"]);
    // Missing event dir: empty, not an error.
    assert!(hook_scripts(&roots, "session-end", &vec![Vec::new()]).is_empty());
    assert_eq!(hook_dir("/r", "stop"), "/r/hooks/stop");
}

#[test]
fn roots_keep_their_order() {
    let roots = vec!["/home".to_string(), "/proj".to_string()];
    let listings = vec![vec![("z".to_string(), true)], vec![("a".to_string(), true)]];
    assert_eq!(
        hook_scripts(&roots, "stop", &listings),
        vec!["/home/hooks/stop/z", "/proj/hooks/stop/a"]
    );
}

#[test]
fn payloads_carry_the_prompt_of_a_prompt_only() {
    let config = HookConfig {
        roots: Vec::new(),
        session_id: "cupel-1".into(),
        session_ref: "/s/cupel-1.jsonl".into(),
        cwd: "/proj".into(),
    };
    let p = payload(&config, &HookEvent::UserPromptSubmit { prompt: "hi".into() }, 9);
    assert_eq!(p.event, "user-prompt-submit");
    assert_eq!(p.session_id, "cupel-1");
    assert_eq!(p.session_ref, "/s/cupel-1.jsonl");
    assert_eq!(p.cwd, "/proj");
    assert_eq!(p.timestamp, 9);
    assert_eq!(p.prompt, Some("hi".to_string()));
    let p = payload(&config, &HookEvent::Stop, 9);
    assert_eq!(p.event, "stop");
    assert_eq!(p.prompt, None);
    assert_eq!(HookEvent::SessionStart.name(), "session-start");
    assert_eq!(HookEvent::SessionEnd.name(), "session-end");
}
