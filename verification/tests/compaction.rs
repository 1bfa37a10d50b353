//! When the history is compacted, and what of it is kept.

use std::sync::Arc;

use cupel::compaction::{
    compact, estimate_context_tokens, estimate_message_tokens, find_cut_index, plan_compaction,
    serialize_conversation, should_compact, AgentContext, CompactionConfig, CompactionError,
    COMPACTION_MARKER,
};
use cupel::messages::{
    AgentMessage, AssistantContent, Content, Message, ToolResultMessage, UserBody,
};

fn user(text: &str) -> AgentMessage {
    AgentMessage::user_text(text.to_string(), 0)
}

fn body(m: &AgentMessage) -> String {
    match m {
        AgentMessage::Llm(Message::User(u)) => match &u.content {
            UserBody::Text(t) => t.clone(),
            UserBody::Blocks(_) => panic!("expected plain text"),
        },
        _ => panic!("expected a user message"),
    }
}

fn context(messages: Vec<AgentMessage>) -> AgentContext {
    AgentContext { system_prompt: String::new(), messages, tools: Vec::new() }
}

#[test]
fn threshold_respects_reserve() {
    let config = CompactionConfig::default();
    // Window 100k, reserve ~16k: 80k is fine, 90k must compact.
    assert!(!should_compact(80_000, 100_000, &config));
    assert!(should_compact(90_000, 100_000, &config));
    // Disabled never compacts.
    let disabled = CompactionConfig {
        enabled: false,
        reserve_tokens: config.reserve_tokens,
        keep_recent_tokens: config.keep_recent_tokens,
    };
    assert!(!should_compact(90_000, 100_000, &disabled));
}

#[test]
fn the_threshold_is_the_window_less_the_reserve() {
    let config = CompactionConfig { enabled: true, reserve_tokens: 10, keep_recent_tokens: 5 };
    assert!(!should_compact(90, 100, &config));
    assert!(should_compact(91, 100, &config));
    // A window smaller than the reserve leaves nothing over.
    assert!(should_compact(1, 5, &config));
    assert!(!should_compact(0, 5, &config));
}

#[test]
fn cut_index_lands_on_a_user_boundary() {
    // ~1000 tokens each (4000 chars); keep budget of 1500 tokens should
    // keep roughly the last two messages, cutting at the user boundary.
    let big = "x".repeat(4000);
    let messages = vec![user(&big), user(&big), user(&big), user(&big)];
    let cut = find_cut_index(&messages, 1500);
    assert_eq!(cut, 2);
}

#[test]
fn cut_index_zero_when_everything_fits_budget() {
    let messages = vec![user("short"), user("also short")];
    assert_eq!(find_cut_index(&messages, 20_000), 0);
}

fn tool_result(text: String) -> AgentMessage {
    AgentMessage::Llm(Message::ToolResult(Arc::new(ToolResultMessage {
        tool_call_id: "c".into(),
        tool_name: "bash".into(),
        content: Arc::new(vec![Content::Text(text)]),
        details: None,
        is_error: false,
        timestamp: 0,
    })))
}

#[test]
fn serialization_truncates_tool_results() {
    let long_result = tool_result("y".repeat(10_000));
    let text = serialize_conversation(&vec![long_result], 1);
    assert!(text.contains("[...truncated]"));
    assert!(text.len() < 5_000);
}

#[test]
fn short_tool_results_are_serialized_whole() {
    let text = serialize_conversation(&vec![user("hi"), tool_result("ok".into())], 2);
    assert!(text.contains("hi"));
    assert!(text.contains("ok"));
    assert!(!text.contains("[...truncated]"));
}

#[test]
fn tokens_are_estimated_from_characters() {
    assert_eq!(estimate_message_tokens(&user(&"x".repeat(4000))), 1000);
    assert_eq!(estimate_message_tokens(&user("")), 0);
}

#[test]
fn compacting_puts_the_summary_before_what_is_kept() {
    let big = "x".repeat(4000);
    let mut c = context(vec![user(&big), user(&big), user(&big), user("last")]);
    let config = CompactionConfig { enabled: true, reserve_tokens: 1000, keep_recent_tokens: 500 };
    let before = estimate_context_tokens(&c);
    let plan = match plan_compaction(&c, &config, 8192) {
        Ok(p) => p,
        Err(_) => panic!("there is something to compact"),
    };
    assert_eq!(plan.tokens_before, before);
    assert!(plan.cut > 0 && plan.cut < 4);
    let reply = Ok(vec![AssistantContent::Text("the summary".into())]);
    let cut = plan.cut;
    let outcome = match compact(&mut c, &plan, reply, 7) {
        Ok(o) => o,
        Err(_) => panic!("the summary has text"),
    };
    assert_eq!(outcome.summarized_messages, cut);
    assert_eq!(c.messages.len(), 4 - cut + 1);
    assert_eq!(body(&c.messages[0]), format!("{COMPACTION_MARKER}\n\nthe summary"));
    assert_eq!(body(&c.messages[c.messages.len() - 1]), "last");
    assert_eq!(outcome.tokens_after, estimate_context_tokens(&c));
    assert!(outcome.tokens_after < outcome.tokens_before);
}

#[test]
fn compaction_errors_are_told_apart() {
    let config = CompactionConfig { enabled: true, reserve_tokens: 1000, keep_recent_tokens: 500 };
    let short = context(vec![user("hi")]);
    match plan_compaction(&short, &config, 8192) {
        Err(CompactionError::NothingToCompact) => {}
        _ => panic!("nothing to compact"),
    }

    let big = "x".repeat(4000);
    let messages = vec![user(&big), user(&big), user("last")];
    let mut c = context(messages);
    let plan = match plan_compaction(&c, &config, 8192) {
        Ok(p) => p,
        Err(_) => panic!("there is something to compact"),
    };
    match compact(&mut c, &plan, Ok(vec![AssistantContent::Text("  \n".into())]), 0) {
        Err(CompactionError::SummarizationFailed(reason)) => {
            assert_eq!(reason, "summarization produced no text")
        }
        _ => panic!("a blank summary fails"),
    }
    assert_eq!(c.messages.len(), 3, "a failed compaction leaves the history alone");
    match compact(&mut c, &plan, Err("boom".into()), 0) {
        Err(e) => assert!(e.message().contains("boom")),
        Ok(_) => panic!("the request failed"),
    }
    assert_eq!(c.messages.len(), 3);
}
