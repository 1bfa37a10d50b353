//! What every session starts with.
use vstd::prelude::*;

use crate::text::same_str;

verus! {

/// How many tools there are.
pub const TOOL_COUNT: usize = 5;

/// The names of the tools, in the order of the system prompt.
pub open spec fn tool_name(k: int) -> Seq<char> {
    if k == 0 {
        "read"@
    } else if k == 1 {
        "bash"@
    } else if k == 2 {
        "edit"@
    } else if k == 3 {
        "write"@
    } else {
        "grep"@
    }
}

/// What the tools do, in a line.
pub open spec fn tool_summary(k: int) -> Seq<char> {
    if k == 0 {
        "Read file contents"@
    } else if k == 1 {
        "Execute bash commands (ls, find, cargo, etc.)"@
    } else if k == 2 {
        "Make precise file edits with exact text replacement, including multiple disjoint edits in one call"@
    } else if k == 3 {
        "Create or overwrite files"@
    } else {
        "Search file contents for patterns (respects .gitignore)"@
    }
}

/// The tools with what they do, as the system prompt lists them.
pub fn tool_summaries() -> (r: Vec<(String, String)>)
    ensures
        r@.len() == TOOL_COUNT,
        forall|k: int|
            0 <= k < TOOL_COUNT ==> (#[trigger] r@[k]).0@ == tool_name(k) && r@[k].1@
                == tool_summary(k),
{
    vec![
        ("read".to_owned(), "Read file contents".to_owned()),
        ("bash".to_owned(), "Execute bash commands (ls, find, cargo, etc.)".to_owned()),
        (
            "edit".to_owned(),
            "Make precise file edits with exact text replacement, including multiple disjoint edits in one call".to_owned(),
        ),
        ("write".to_owned(), "Create or overwrite files".to_owned()),
        (
            "grep".to_owned(),
            "Search file contents for patterns (respects .gitignore)".to_owned(),
        ),
    ]
}

/// Whether the key of a provider is a token of a stored login, which is
/// looked up before every request.
pub fn uses_login_token(provider: &str) -> (r: bool)
    ensures
        r == (provider@ == "openai-codex"@),
{
    same_str(provider, "openai-codex")
}

} // verus!
