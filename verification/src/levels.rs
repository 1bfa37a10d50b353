//! The words for how hard a model thinks. The command line, the `/thinking`
//! command and the footer share them.
use vstd::prelude::*;

use crate::messages::ThinkingLevel;
use crate::text;

verus! {

/// The word for a level.
pub open spec fn name_of(level: Option<ThinkingLevel>) -> Seq<char> {
    match level {
        None => "off"@,
        Some(ThinkingLevel::Minimal) => "minimal"@,
        Some(ThinkingLevel::Low) => "low"@,
        Some(ThinkingLevel::Medium) => "medium"@,
        Some(ThinkingLevel::High) => "high"@,
        Some(ThinkingLevel::XHigh) => "xhigh"@,
    }
}

/// The word for a level.
pub fn thinking_level_name(level: Option<ThinkingLevel>) -> (r: &'static str)
    ensures
        r@ == name_of(level),
{
    match level {
        None => "off",
        Some(ThinkingLevel::Minimal) => "minimal",
        Some(ThinkingLevel::Low) => "low",
        Some(ThinkingLevel::Medium) => "medium",
        Some(ThinkingLevel::High) => "high",
        Some(ThinkingLevel::XHigh) => "xhigh",
    }
}

/// The level that a word stands for.
pub open spec fn level_of(word: Seq<char>) -> Option<Option<ThinkingLevel>> {
    if word == "off"@ {
        Some(None)
    } else if word == "minimal"@ {
        Some(Some(ThinkingLevel::Minimal))
    } else if word == "low"@ {
        Some(Some(ThinkingLevel::Low))
    } else if word == "medium"@ {
        Some(Some(ThinkingLevel::Medium))
    } else if word == "high"@ {
        Some(Some(ThinkingLevel::High))
    } else if word == "xhigh"@ {
        Some(Some(ThinkingLevel::XHigh))
    } else {
        None
    }
}

/// The level that a word stands for: `None` for no word of the list, and
/// `Some(None)` for no thinking at all.
pub fn level_named(word: &str) -> (r: Option<Option<ThinkingLevel>>)
    ensures
        r == level_of(word@),
{
    if text::same_str(word, "off") {
        Some(None)
    } else if text::same_str(word, "minimal") {
        Some(Some(ThinkingLevel::Minimal))
    } else if text::same_str(word, "low") {
        Some(Some(ThinkingLevel::Low))
    } else if text::same_str(word, "medium") {
        Some(Some(ThinkingLevel::Medium))
    } else if text::same_str(word, "high") {
        Some(Some(ThinkingLevel::High))
    } else if text::same_str(word, "xhigh") {
        Some(Some(ThinkingLevel::XHigh))
    } else {
        None
    }
}

/// The word that is shown for a level is the one that sets it.
pub proof fn law_shown_levels_can_be_typed(level: Option<ThinkingLevel>)
    ensures
        level_of(name_of(level)) == Some(level),
{
    reveal_strlit("off");
    reveal_strlit("minimal");
    reveal_strlit("low");
    reveal_strlit("medium");
    reveal_strlit("high");
    reveal_strlit("xhigh");
    assert("off"@.len() == 3 && "low"@.len() == 3 && "high"@.len() == 4 && "xhigh"@.len() == 5);
    assert("medium"@.len() == 6 && "minimal"@.len() == 7);
    assert("off"@[0] == 'o' && "low"@[0] == 'l');
}

} // verus!
