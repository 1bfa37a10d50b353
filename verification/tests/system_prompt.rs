//! The system prompt.

use cupel::dates::{civil_from_days, date_of_seconds, date_ymd};
use cupel::resources::ContextFile;
use cupel::system_prompt::{build_system_prompt, escape_xml, Skill};

fn tools(name: &str, what: &str) -> Vec<(String, String)> {
    vec![(name.to_string(), what.to_string())]
}

const TODAY: &str = "2026-07-03";

#[test]
fn includes_tools_and_cwd() {
    let prompt = build_system_prompt(
        "/tmp/project",
        &tools("grep", "Search file contents for patterns"),
        &vec![],
        &vec![],
        TODAY,
    );
    assert!(prompt.contains("- grep: Search file contents for patterns"));
    assert!(prompt.contains("Current working directory: /tmp/project"));
    // Empty inputs add no empty sections.
    assert!(!prompt.contains("<project_context>"));
    assert!(!prompt.contains("<available_skills>"));
    assert!(prompt.contains(TODAY));
}

#[test]
fn context_files_are_embedded_eagerly() {
    let prompt = build_system_prompt(
        "/tmp/project",
        &tools("read", "Read files"),
        &vec![ContextFile {
            path: "/tmp/project/AGENTS.md".into(),
            content: "Always run cargo clippy.".to_string(),
        }],
        &vec![],
        TODAY,
    );
    assert!(prompt.contains("<project_instructions path=\"/tmp/project/AGENTS.md\">"));
    assert!(prompt.contains("Always run cargo clippy."));
}

fn skill() -> Skill {
    Skill {
        name: "commit<style>".to_string(),
        description: "How to write commits".to_string(),
        path: "/tmp/skills/commit-style/SKILL.md".into(),
    }
}

#[test]
fn skills_appear_as_catalog_only_when_read_tool_exists() {
    let with_read = build_system_prompt(
        "/tmp",
        &tools("read", "Read files"),
        &vec![],
        &vec![skill()],
        TODAY,
    );
    assert!(with_read.contains("<available_skills>"));
    assert!(with_read.contains("<location>/tmp/skills/commit-style/SKILL.md</location>"));
    // XML-sensitive characters in names are escaped.
    assert!(with_read.contains("<name>commit&lt;style&gt;</name>"));

    // No read tool -> the model couldn't load skills; omit the catalog.
    let without_read = build_system_prompt(
        "/tmp",
        &tools("grep", "Search"),
        &vec![],
        &vec![skill()],
        TODAY,
    );
    assert!(!without_read.contains("<available_skills>"));
}

#[test]
fn civil_date_known_value() {
    // 2026-07-03 is 20_637 days after the epoch.
    assert_eq!(civil_from_days(20_637), (2026, 7, 3));
}

#[test]
fn dates_are_written_year_first() {
    assert_eq!(civil_from_days(0), (1970, 1, 1));
    assert_eq!(civil_from_days(11_016), (2000, 2, 29));
    assert_eq!(civil_from_days(-1), (1969, 12, 31));
    assert_eq!(date_of_seconds(20_637 * 86_400 + 5), "2026-07-03");
    assert_eq!(date_ymd(20_637 * 86_400_000), "2026-07-03");
}

#[test]
fn xml_is_escaped() {
    assert_eq!(escape_xml("a<b>&\"c\""), "a&lt;b&gt;&amp;&quot;c&quot;");
}
