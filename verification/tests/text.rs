//! Text and small vocabularies.

use cupel::bootstrap::{tool_summaries, uses_login_token};
use cupel::levels::{level_named, thinking_level_name};
use cupel::menus::list_session_id_candidates;
use cupel::messages::{dollars_text, usage_words, ThinkingLevel};
use cupel::notices::{compaction_ended, compaction_started, retry_notice};
use cupel::paths::{absolute, equal, join, sort_paths};
use cupel::text::{
    blank, chars_of, decimal_text, find_str, is_space, split_lines, string_of, strip_prefix,
    trim_text,
};
use cupel::types::CompactionReason;

#[test]
fn white_space_is_that_of_unicode() {
    for n in 0..=0x10_FFFFu32 {
        if let Some(c) = char::from_u32(n) {
            assert_eq!(is_space(c), c.is_whitespace(), "{n:#x}");
        }
    }
}

#[test]
fn trimming_and_splitting_work_on_characters() {
    assert_eq!(trim_text("\u{a0} é \n"), "é");
    assert!(blank(" \t\n"));
    assert!(!blank("x"));
    let lines: Vec<String> = split_lines(&chars_of("a\r\nb\n\nc\n"))
        .iter()
        .map(|l| l.iter().collect())
        .collect();
    assert_eq!(lines, "a\r\nb\n\nc\n".lines().collect::<Vec<_>>());
    assert_eq!(find_str(&chars_of("héllo"), "llo"), Some(2));
    assert_eq!(string_of(&chars_of("héllo"), 1, 3), "él");
    assert_eq!(strip_prefix("--flag", "--"), Some("flag".to_string()));
    assert_eq!(strip_prefix("flag", "--"), None);
    assert_eq!(decimal_text(0), "0");
    assert_eq!(decimal_text(u64::MAX), u64::MAX.to_string());
}

#[test]
fn paths_join_and_sort_by_their_parts() {
    assert_eq!(join("/a", "b/c"), "/a/b/c");
    assert_eq!(join("/a/", "b"), "/a/b");
    assert_eq!(join("/a", "/b"), "/b");
    assert!(absolute("/x") && !absolute("x"));
    assert!(equal("/a//b/", "/a/b"));
    let sorted = sort_paths(vec!["a.b".into(), "a/c".into(), "a".into()]);
    assert_eq!(sorted, vec!["a", "a/c", "a.b"]);
}

#[test]
fn shown_levels_can_be_typed() {
    for level in [
        None,
        Some(ThinkingLevel::Minimal),
        Some(ThinkingLevel::Low),
        Some(ThinkingLevel::Medium),
        Some(ThinkingLevel::High),
        Some(ThinkingLevel::XHigh),
    ] {
        assert_eq!(level_named(thinking_level_name(level)), Some(level));
    }
    assert_eq!(level_named("enormous"), None);
}

#[test]
fn sessions_are_listed_newest_first() {
    let files = vec![
        ("cupel-1.jsonl".to_string(), 1),
        ("notes.txt".to_string(), 9),
        ("cupel-3.jsonl".to_string(), 3),
        ("cupel-2.jsonl".to_string(), 2),
    ];
    let values: Vec<String> =
        list_session_id_candidates(&files).into_iter().map(|c| c.value).collect();
    assert_eq!(values, vec!["cupel-3", "cupel-2", "cupel-1"]);
}

#[test]
fn money_is_shown_in_ten_thousandths() {
    assert_eq!(dollars_text(1_234_567_890), "1.2346");
    assert_eq!(dollars_text(0), "0.0000");
    let words = usage_words(10, 20, 30, 0);
    for part in ["10", "20", "30", "0.0000"] {
        assert!(words.contains(part), "{words}");
    }
}

#[test]
fn notices_tell_what_happens() {
    let a = compaction_started(CompactionReason::Threshold);
    let b = compaction_started(CompactionReason::Overflow);
    assert_ne!(a, b);
    let done = compaction_ended(5000, 1700, &None);
    assert_eq!(done, "context compacted: ~5k -> ~1k tokens");
    let failed = compaction_ended(5000, 5000, &Some("boom".into()));
    assert!(failed.contains("boom"), "{failed}");
    let retry = retry_notice(1, 3, 2000, "Overloaded");
    assert!(retry.contains("1/3") && retry.contains("2.0s") && retry.contains("Overloaded"), "{retry}");
}

#[test]
fn the_tools_are_summed_up() {
    let tools = tool_summaries();
    assert_eq!(tools.len(), 5);
    assert!(tools.iter().any(|(n, _)| n == "read"));
    assert!(uses_login_token("openai-codex"));
    assert!(!uses_login_token("openai"));
}
