//! Context files and the roots they are looked for in.

use cupel::resources::{
    context_file_name, default_roots, load_context_files, resolve_config_home,
    resolve_default_roots, split_frontmatter,
};

#[test]
fn config_home_env_override_wins() {
    assert_eq!(
        resolve_config_home(Some("/custom/home".into()), Some("/u".into())),
        Some("/custom/home".to_string())
    );
    // Blank override falls through to the default.
    assert_eq!(
        resolve_config_home(Some("  ".into()), Some("/u".into())),
        Some("/u/.cupel".to_string())
    );
}

#[test]
fn config_home_defaults_to_dot_cupel_or_none() {
    assert_eq!(
        resolve_config_home(None, Some("/u".into())),
        Some("/u/.cupel".to_string())
    );
    assert_eq!(resolve_config_home(None, None), None);
}

#[test]
fn default_roots_end_with_the_project_cwd() {
    let roots = default_roots(None, Some("/u".into()), "/proj");
    assert_eq!(roots.last(), Some(&"/proj".to_string()));
    // At most three roots: cupel home (when one resolves), the project
    // `.cupel/` directory, and the cwd itself.
    assert!(roots.len() <= 3);
    assert_eq!(default_roots(None, None, "/proj").last(), Some(&"/proj".to_string()));
}

#[test]
fn resolve_default_roots_orders_home_dot_cupel_then_cwd() {
    let roots = resolve_default_roots(Some("/u/.cupel".into()), "/proj");
    assert_eq!(roots, vec!["/u/.cupel", "/proj/.cupel", "/proj"]);
}

#[test]
fn resolve_default_roots_dedups_overlapping_roots() {
    // Running cupel from `$HOME`: `<cwd>/.cupel` IS the cupel home.
    let roots = resolve_default_roots(Some("/u/.cupel".into()), "/u");
    assert_eq!(roots, vec!["/u/.cupel", "/u"]);

    // `CUPEL_HOME=$PWD`: the home IS the cwd. The cwd is claimed by the
    // home slot, so `.cupel/` ends up last - an accepted quirk of a
    // degenerate configuration; the point is nothing loads twice.
    let roots = resolve_default_roots(Some("/proj".into()), "/proj");
    assert_eq!(roots, vec!["/proj", "/proj/.cupel"]);
}

fn read(agents: Option<&str>, other: Option<&str>) -> Vec<Option<String>> {
    vec![agents.map(String::from), None, other.map(String::from), None]
}

#[test]
fn agents_files_win_over_the_other_name() {
    let roots = vec!["/p".to_string()];
    let reads = vec![read(Some("agents instructions"), Some("other instructions"))];
    let files = load_context_files(&roots, "NOTES", &reads);
    assert_eq!(files.len(), 1);
    assert_eq!(files[0].path, "/p/AGENTS.md");
    assert_eq!(files[0].content, "agents instructions");

    let reads = vec![read(None, Some("other instructions"))];
    let files = load_context_files(&roots, "NOTES", &reads);
    assert_eq!(files.len(), 1);
    assert_eq!(files[0].path, "/p/NOTES.md");
    assert_eq!(context_file_name("NOTES", 3), "NOTES.MD");
}

#[test]
fn missing_and_empty_context_files_are_skipped() {
    let roots = vec!["/p".to_string()];
    assert!(load_context_files(&roots, "NOTES", &vec![read(Some("   \n"), None)]).is_empty());
    assert!(load_context_files(&roots, "NOTES", &vec![read(None, None)]).is_empty());
}

#[test]
fn context_file_in_dot_cupel_loads_alongside_root() {
    // Same root order default_roots produces: `.cupel/` before the cwd,
    // so the repo-root file lands last (most authoritative) in the prompt.
    let roots = vec!["/p/.cupel".to_string(), "/p".to_string()];
    let reads = vec![
        read(Some("tucked-away instructions"), None),
        read(Some("root instructions"), None),
    ];
    let files = load_context_files(&roots, "NOTES", &reads);
    assert_eq!(files.len(), 2);
    assert_eq!(files[0].content, "tucked-away instructions");
    assert_eq!(files[1].content, "root instructions");
}

#[test]
fn front_matter_is_split_off() {
    let (pairs, body) = split_frontmatter("---\nname: fix\ndescription: \n---\nthe body");
    assert_eq!(pairs, vec![("name".to_string(), "fix".to_string())]);
    assert_eq!(body.trim(), "the body");
    let (pairs, body) = split_frontmatter("no front matter");
    assert!(pairs.is_empty());
    assert_eq!(body, "no front matter");
}
