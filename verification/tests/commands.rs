//! Slash commands and prompt templates.

use cupel::commands::{
    builtin_commands, expand_prompt_template, load_prompt_templates, merge_templates,
    parse_command_args, read_template, PromptFile,
    shorten, substitute_args,
};

fn args(list: &[&str]) -> Vec<String> {
    list.iter().map(|s| (*s).to_string()).collect()
}

#[test]
fn command_args_split_bash_style() {
    assert_eq!(parse_command_args("a b  c"), args(&["a", "b", "c"]));
    assert_eq!(
        parse_command_args("fix \"the parser bug\" now"),
        args(&["fix", "the parser bug", "now"])
    );
    assert_eq!(parse_command_args("'a b' c"), args(&["a b", "c"]));
    assert_eq!(parse_command_args(""), Vec::<String>::new());
}

#[test]
fn positional_and_all_args_substitute() {
    let a = args(&["one", "two", "three"]);
    assert_eq!(substitute_args("$1 and $2", &a), "one and two");
    assert_eq!(substitute_args("all: $@", &a), "all: one two three");
    assert_eq!(substitute_args("all: $ARGUMENTS", &a), "all: one two three");
    assert_eq!(substitute_args("missing: [$9]", &a), "missing: []");
    assert_eq!(substitute_args("price: $5.99", &args(&[])), "price: .99");
    assert_eq!(substitute_args("literal $ sign", &a), "literal $ sign");
}

#[test]
fn braced_forms_substitute() {
    let a = args(&["one", "two", "three", "four"]);
    assert_eq!(substitute_args("${2:-fallback}", &a), "two");
    assert_eq!(substitute_args("${9:-fallback}", &a), "fallback");
    assert_eq!(substitute_args("${@:2}", &a), "two three four");
    assert_eq!(substitute_args("${@:2:2}", &a), "two three");
    assert_eq!(substitute_args("${@:0}", &a), "one two three four");
    // Unrecognized braces stay literal.
    assert_eq!(substitute_args("${HOME}", &a), "${HOME}");
}

#[test]
fn templates_load_expand_and_project_overrides() {
    let file = |name: &str, root: &str, raw: &str| PromptFile {
        name: name.to_string(),
        is_file: true,
        raw: Some(raw.to_string()),
        path: format!("{root}/prompts/{name}"),
    };
    let mut files = vec![
        file("review.md", "/global", "---\ndescription: Review code\n---\nReview $1 carefully."),
        file("global-only.md", "/global", "Global body."),
        // `.cupel/` overrides the global template with the same name...
        file("review.md", "/project/.cupel", "Dot-cupel review."),
        // ...and the project root, being the LAST root, overrides both.
        file("review.md", "/project", "Project review of $@."),
    ];

    let templates = load_prompt_templates(&files);
    assert_eq!(templates.len(), 2);
    let review = templates.iter().find(|t| t.name == "review").unwrap();
    assert_eq!(review.content, "Project review of $@.");

    let expanded = expand_prompt_template("/review src/main.rs quickly", &templates).unwrap();
    assert_eq!(expanded, "Project review of src/main.rs quickly.");
    assert!(expand_prompt_template("/unknown", &templates).is_none());
    assert!(expand_prompt_template("no slash", &templates).is_none());

    // Only files with the right ending, and only those that can be read.
    files.push(file("notes.txt", "/project", "No template."));
    files.push(file(".md", "/project", "No name."));
    files.push(PromptFile { is_file: false, ..file("dir.md", "/project", "A directory.") });
    files.push(PromptFile { raw: None, ..file("secret.md", "/project", "") });
    assert_eq!(load_prompt_templates(&files).len(), 2);
}

#[test]
fn templates_are_described_by_their_front_matter() {
    let global = read_template(
        "fix",
        "---\ndescription: Fix something\n---\nGlobal fix: $ARGUMENTS",
        "/g/fix.md",
    );
    assert_eq!(global.name, "fix");
    assert_eq!(global.description, "Fix something");
    let project = read_template("fix", "Project fix: $ARGUMENTS", "/p/fix.md");
    let other = read_template("zap", "Zap $1", "/p/zap.md");
    let merged = merge_templates(vec![global, other, project]);
    assert_eq!(merged.len(), 2);
    assert_eq!(
        expand_prompt_template("/fix the bug", &merged),
        Some("Project fix: the bug".to_string())
    );
    assert_eq!(expand_prompt_template("/zap it now", &merged), Some("Zap it".to_string()));
}

#[test]
fn the_builtin_commands_have_distinct_names() {
    let all = builtin_commands();
    assert_eq!(all.len(), 12);
    for i in 0..all.len() {
        for j in 0..i {
            assert_ne!(all[i].name, all[j].name);
        }
    }
    assert!(all.iter().any(|c| c.name == "help"));
    assert!(all.iter().any(|c| c.name == "quit"));
}

#[test]
fn shortened_text_ends_in_an_ellipsis() {
    let text: Vec<char> = "abcdef".chars().collect();
    assert_eq!(shorten(&text, 6), "abcdef");
    assert!(shorten(&text, 5).starts_with("abcde"));
    assert_ne!(shorten(&text, 5), "abcde");
}
