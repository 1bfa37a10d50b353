//! Logging in.

use cupel::login::{
    browser_notice, device_notice, finish, manual_input_to_code, parse_authorization_input,
    paste_only_notice, settle_code, CodeArrival, LoginFlow,
};
use cupel::settings::SaveError;

#[test]
fn manual_input_enforces_the_state_check() {
    // Right state (or none at all - a bare code) passes...
    assert_eq!(
        manual_input_to_code("http://localhost:1455/auth/callback?code=c1&state=s1", "s1"),
        Ok("c1".to_string())
    );
    assert_eq!(
        manual_input_to_code("bare-code", "s1"),
        Ok("bare-code".to_string())
    );
    // ...a foreign state or a codeless paste is refused.
    assert!(
        manual_input_to_code(
            "http://localhost:1455/auth/callback?code=c1&state=EVIL",
            "s1"
        )
        .unwrap_err()
        .contains("state mismatch")
    );
    assert!(manual_input_to_code("", "s1").is_err());
}

#[test]
fn manual_code_channel_is_single_use() {
    let mut flow = LoginFlow::browser();
    assert!(flow.submit_manual_code("first"), "first paste is accepted");
    assert_eq!(flow.take_pasted(), Some("first".to_string()));
    assert!(!flow.submit_manual_code("second"), "channel is spent");
    assert_eq!(flow.take_pasted(), None);

    // The device flow never takes a paste.
    let mut device = LoginFlow::device();
    assert!(!device.submit_manual_code("anything"));
}

#[test]
fn redirects_are_taken_apart() {
    assert_eq!(
        parse_authorization_input("http://x/cb?state=s&code=c"),
        (Some("c".to_string()), Some("s".to_string()))
    );
    assert_eq!(parse_authorization_input("  c1  "), (Some("c1".to_string()), None));
    assert_eq!(parse_authorization_input("   "), (None, None));
}

#[test]
fn whichever_code_comes_first_settles_the_login() {
    assert_eq!(settle_code(CodeArrival::Served(Ok("c".into())), "s"), Ok("c".to_string()));
    assert_eq!(
        settle_code(CodeArrival::Served(Err("no".into())), "s"),
        Err("no".to_string())
    );
    assert_eq!(settle_code(CodeArrival::Pasted("c".into()), "s"), Ok("c".to_string()));
    assert!(settle_code(CodeArrival::Dropped, "s").is_err());
}

#[test]
fn the_notices_name_what_they_are_about() {
    assert!(browser_notice("https://a/b").contains("https://a/b"));
    assert!(paste_only_notice("port in use").contains("port in use"));
    let text = device_notice("https://a/d", "ABCD");
    assert!(text.contains("https://a/d") && text.contains("ABCD"));
}

#[test]
fn a_login_ends_with_the_account_or_the_reason() {
    assert!(finish("acc-1", Ok("/h/auth.json".into())).is_ok());
    assert!(finish("acc-1", Err(SaveError::NoHome)).is_err());
}
