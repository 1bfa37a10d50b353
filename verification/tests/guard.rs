//! What is refused before a tool runs.

use cupel::guard::{read_deny_file, BashGuard, DENY_FR, DENY_RF};
use cupel::loop_killer::{LoopKiller, SessionHooks};
use cupel::messages::ToolCall;

fn default_guard() -> BashGuard {
    BashGuard::new(&vec![DENY_RF.to_string(), DENY_FR.to_string()]).0
}

/// A call with the canonical text of its arguments.
fn call(name: &str, args: &str) -> ToolCall {
    let value: serde_json::Value = serde_json::from_str(args).expect("arguments are JSON");
    ToolCall { id: "call_1".into(), name: name.into(), arguments: value.to_string() }
}

#[test]
fn default_patterns_catch_recursive_force_deletes() {
    let guard = default_guard();
    for denied in [
        "rm -rf /",
        "rm -fr target",
        "rm -Rf .",
        "sudo rm -rf /var",
        "cd /tmp && rm -rf cache",
        "echo done\nrm -rf /", // second line must not slip through
    ] {
        assert!(guard.deny_match(denied).is_some(), "should block: {denied}");
    }
    for allowed in ["rm -r target", "rm file.txt", "cargo build", "grep rf ."] {
        assert!(
            guard.deny_match(allowed).is_none(),
            "should pass: {allowed}"
        );
    }
}

#[test]
fn config_files_extend_the_defaults() {
    let (guard, refused) = BashGuard::from_config(
        Some("# comment\n\ngit\\s+push\\s+--force\n".into()),
        Some("DROP\\s+TABLE\n".into()),
    );
    assert!(refused.is_empty());
    // Union: defaults AND both layers are all active.
    assert!(guard.deny_match("rm -rf /").is_some(), "defaults kept");
    assert!(guard.deny_match("git push --force").is_some(), "home rule");
    assert!(guard.deny_match("psql -c 'DROP TABLE x'").is_some());
    assert!(guard.deny_match("git push").is_none());
    assert_eq!(read_deny_file("# c\n\n a \n"), vec!["a"]);
}

#[test]
fn invalid_patterns_are_skipped_not_fatal() {
    let (guard, refused) =
        BashGuard::new(&vec!["[unclosed".to_string(), r"\brm\s+-rf".to_string()]);
    // The bad rule is dropped; the good one still guards.
    assert!(guard.deny_match("rm -rf /").is_some());
    assert!(guard.deny_match("[unclosed").is_none());
    assert_eq!(refused.len(), 1);
    assert_eq!(refused[0].0, "[unclosed");
    assert!(!refused[0].1.is_empty(), "the reason is told");
}

#[test]
fn hook_blocks_bash_only_and_names_the_pattern() {
    let guard = default_guard();
    // Denied bash command: blocked, reason names the pattern.
    let verdict = guard
        .before_tool_call(&call("bash", r#"{"command": "rm -rf /"}"#))
        .expect("verdict");
    assert!(verdict.block);
    assert!(verdict.reason.unwrap().contains("denylist"));

    // Harmless bash command and non-bash tools pass untouched.
    assert!(guard.before_tool_call(&call("bash", r#"{"command": "ls -la"}"#)).is_none());
    let write = guard.before_tool_call(&call("write", r#"{"path": "rm -rf", "content": ""}"#));
    assert!(write.is_none(), "guard only inspects bash");
    // A command that is not text has nothing to match.
    assert!(guard.before_tool_call(&call("bash", r#"{"command": 7}"#)).is_none());
}

#[test]
fn allows_up_to_the_limit_then_blocks() {
    let mut killer = LoopKiller::new(Some(2));
    let c = call("read", r#"{"path": "x"}"#);
    assert!(killer.note_call(&c).is_none());
    assert!(killer.note_call(&c).is_none());
    let reason = killer.note_call(&c).expect("third identical call blocks");
    assert!(reason.contains("Loop killer"), "{reason}");
    assert!(
        killer.note_call(&c).is_some(),
        "stays blocked while hammering"
    );
}

#[test]
fn a_different_call_resets_the_chain() {
    let mut killer = LoopKiller::new(Some(1));
    let a = call("read", r#"{"path": "a"}"#);
    let b = call("read", r#"{"path": "b"}"#);
    assert!(killer.note_call(&a).is_none());
    assert!(killer.note_call(&b).is_none(), "different args = new chain");
    assert!(killer.note_call(&a).is_none(), "read-edit-read stays legal");
    assert!(killer.note_call(&a).is_some(), "now a consecutive repeat");
}

#[test]
fn key_ignores_argument_order_and_call_id() {
    let mut killer = LoopKiller::new(Some(1));
    let mut first = call("grep", r#"{"pattern": "x", "path": "src"}"#);
    first.id = "call_1".into();
    let mut second = call("grep", r#"{"path": "src", "pattern": "x"}"#);
    second.id = "call_2".into();
    assert!(killer.note_call(&first).is_none());
    assert!(
        killer.note_call(&second).is_some(),
        "new id + reordered keys must still count as the same call"
    );
}

#[test]
fn disabled_killer_never_blocks() {
    let mut killer = LoopKiller::new(None);
    let c = call("read", r#"{"path": "x"}"#);
    for _ in 0..100 {
        assert!(killer.note_call(&c).is_none());
    }
}

#[test]
fn the_loop_killer_is_asked_before_the_guard() {
    let mut hooks = SessionHooks::new(default_guard(), LoopKiller::new(Some(1)));
    let c = call("bash", r#"{"command": "rm -rf /"}"#);
    let denied = hooks.before_tool_call(&c).expect("denied");
    assert!(denied.block);
    assert!(denied.reason.unwrap().contains("denylist"));
    // Hammering a denied command is a loop too.
    let looping = hooks.before_tool_call(&c).expect("a repeat");
    assert!(looping.reason.unwrap().contains("Loop killer"));
    assert!(hooks.before_tool_call(&call("bash", r#"{"command": "ls"}"#)).is_none());
}
