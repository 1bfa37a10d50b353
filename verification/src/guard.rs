//! The deny list for bash commands.
//!
//! A command of which some line matches a rule is blocked, and the model is
//! told which rule it was. Rules are patterns of the search engine. The list
//! is the union of the built-in rules and those of the user's files: rules
//! never cancel each other. A match anywhere blocks, inside quotes too.
use vstd::prelude::*;

use crate::json::json_text_field;
use crate::messages::ToolCall;
use crate::search::{line_matches, pattern_error};
use crate::text::{chars_of, concat3, split_lines, to_text, trimmed};
use crate::types::BeforeToolCallResult;
use crate::{json, resources, search, text};

verus! {

/// The first built-in rule.
pub const DENY_RF: &'static str = "\\brm\\s+-[a-zA-Z]*[rR][a-zA-Z]*f";

/// The second built-in rule.
pub const DENY_FR: &'static str = "\\brm\\s+-[a-zA-Z]*f[a-zA-Z]*[rR]";

/// The rules of a file from its lines `from` on: one per line, without
/// blank lines and comments.
pub open spec fn rules_from(lines: Seq<Seq<char>>, from: int) -> Seq<Seq<char>>
    decreases lines.len() - from,
{
    if from >= lines.len() {
        Seq::empty()
    } else {
        let line = text::trim(lines[from]);
        let rest = rules_from(lines, from + 1);
        if line.len() == 0 || line[0] == '#' {
            rest
        } else {
            seq![line] + rest
        }
    }
}

/// The rules of a file.
pub open spec fn rules_in(content: Seq<char>) -> Seq<Seq<char>> {
    rules_from(text::lines_of(content), 0)
}

/// Reads the rules of a file.
pub fn read_deny_file(content: &str) -> (r: Vec<String>)
    ensures
        text::texts(r@) == rules_in(content@),
{
    let lines = split_lines(&chars_of(content));
    let ghost all = text::views(lines@);
    let mut out: Vec<String> = Vec::new();
    let mut i: usize = 0;
    assert(text::texts(out@) + rules_from(all, 0) =~= rules_from(all, 0));
    while i < lines.len()
        invariant
            i <= lines@.len(),
            all == text::views(lines@),
            all == text::lines_of(content@),
            text::texts(out@) + rules_from(all, i as int) == rules_in(content@),
        decreases lines@.len() - i,
    {
        assert(all[i as int] == lines@[i as int]@);
        let line = trimmed(&lines[i]);
        if !(line.len() == 0 || line[0] == '#') {
            let ghost before = text::texts(out@);
            out.push(to_text(&line));
            assert(text::texts(out@) =~= before.push(line@));
            assert(text::texts(out@) + rules_from(all, i + 1) =~= before + rules_from(
                all,
                i as int,
            ));
        }
        i += 1;
    }
    assert(text::texts(out@) + rules_from(all, i as int) =~= text::texts(out@));
    out
}

/// The patterns that compile, in order.
pub open spec fn valid_patterns(v: Seq<Seq<char>>, n: int) -> Seq<Seq<char>>
    decreases n,
{
    if n <= 0 {
        Seq::empty()
    } else if search::regex_error(v[n - 1], false) is None {
        valid_patterns(v, n - 1).push(v[n - 1])
    } else {
        valid_patterns(v, n - 1)
    }
}

/// The patterns that do not compile, with the reason, in order.
pub open spec fn invalid_patterns(v: Seq<Seq<char>>, n: int) -> Seq<(Seq<char>, Seq<char>)>
    decreases n,
{
    if n <= 0 {
        Seq::empty()
    } else {
        match search::regex_error(v[n - 1], false) {
            Some(e) => invalid_patterns(v, n - 1).push((v[n - 1], e)),
            None => invalid_patterns(v, n - 1),
        }
    }
}

/// Whether some line of a command, from `from` on, matches a rule.
pub open spec fn some_line_matches(rule: Seq<char>, lines: Seq<Seq<char>>) -> bool {
    exists|k: int| 0 <= k < lines.len() && search::regex_matches(rule, #[trigger] lines[k])
}

/// The first rule from `from` on that some line of a command matches.
pub open spec fn first_match(rules: Seq<Seq<char>>, command: Seq<char>, from: int) -> Option<int>
    decreases rules.len() - from,
{
    if from >= rules.len() {
        None
    } else if some_line_matches(rules[from], text::lines_of(command)) {
        Some(from)
    } else {
        first_match(rules, command, from + 1)
    }
}

/// The deny list.
#[derive(Debug)]
pub struct BashGuard {
    rules: Vec<String>,
}

impl View for BashGuard {
    type V = Seq<Seq<char>>;

    closed spec fn view(&self) -> Seq<Seq<char>> {
        text::texts(self.rules@)
    }
}

/// What the model is told of a blocked command.
pub open spec fn blocked_text(rule: Seq<char>) -> Seq<char> {
    "Command blocked by cupel's bash denylist (pattern: "@ + rule
        + "). Do not retry this command; choose a safer alternative or ask the user to run it themselves."@
}

/// The verdict on a call: only bash commands are looked at.
pub open spec fn verdict(rules: Seq<Seq<char>>, call: ToolCall) -> Option<Seq<char>> {
    if call.name@ != "bash"@ {
        None
    } else {
        match json::json_text(call.arguments@, "command"@) {
            Some(command) => match first_match(rules, command, 0) {
                Some(k) => Some(blocked_text(rules[k])),
                None => None,
            },
            None => None,
        }
    }
}

/// Whether a hook's answer blocks with a reason, or lets a call pass.
pub open spec fn answers(r: Option<BeforeToolCallResult>, reason: Option<Seq<char>>) -> bool {
    match reason {
        Some(s) => r matches Some(b) && b.block && (b.reason matches Some(t) && t@ == s),
        None => r is None,
    }
}

/// Views of pairs of texts.
pub open spec fn pairs(v: Seq<(String, String)>) -> Seq<(Seq<char>, Seq<char>)> {
    v.map_values(|p: (String, String)| (p.0@, p.1@))
}

/// All rules of the configuration, in order: the built-in ones, those of
/// the user and those of the project.
pub open spec fn all_rules(home: Option<Seq<char>>, project: Option<Seq<char>>) -> Seq<Seq<char>> {
    let first = seq![DENY_RF@, DENY_FR@];
    let second = match home {
        Some(c) => rules_in(c),
        None => Seq::empty(),
    };
    let third = match project {
        Some(c) => rules_in(c),
        None => Seq::empty(),
    };
    first + second + third
}

impl BashGuard {
    /// A deny list of patterns. Patterns that do not compile are left out
    /// and handed back with the reason: one typo must not disable the rest.
    pub fn new(patterns: &Vec<String>) -> (r: (BashGuard, Vec<(String, String)>))
        ensures
            r.0@ == valid_patterns(text::texts(patterns@), patterns@.len() as int),
            pairs(r.1@) == invalid_patterns(text::texts(patterns@), patterns@.len() as int),
    {
        let ghost all = text::texts(patterns@);
        let mut rules: Vec<String> = Vec::new();
        let mut rejected: Vec<(String, String)> = Vec::new();
        let mut i: usize = 0;
        assert(text::texts(rules@) =~= valid_patterns(all, 0));
        assert(pairs(rejected@) =~= invalid_patterns(all, 0));
        while i < patterns.len()
            invariant
                i <= patterns@.len(),
                all == text::texts(patterns@),
                text::texts(rules@) == valid_patterns(all, i as int),
                pairs(rejected@) == invalid_patterns(all, i as int),
            decreases patterns@.len() - i,
        {
            assert(all[i as int] == patterns@[i as int]@);
            match pattern_error(patterns[i].as_str(), false) {
                None => {
                    let ghost before = rules@;
                    rules.push(patterns[i].clone());
                    assert(text::texts(rules@) =~= text::texts(before).push(all[i as int]));
                },
                Some(e) => {
                    let ghost before = rejected@;
                    rejected.push((patterns[i].clone(), e));
                    assert(pairs(rejected@) =~= pairs(before).push((all[i as int], e@)));
                },
            }
            i += 1;
        }
        (BashGuard { rules }, rejected)
    }

    /// The deny list of the configuration, given what the two files hold.
    pub fn from_config(home: Option<String>, project: Option<String>) -> (r: (
        BashGuard,
        Vec<(String, String)>,
    ))
        ensures
            ({
                let all = all_rules(resources::opt(home), resources::opt(project));
                r.0@ == valid_patterns(all, all.len() as int) && pairs(r.1@) == invalid_patterns(
                    all,
                    all.len() as int,
                )
            }),
    {
        let mut patterns: Vec<String> = Vec::new();
        patterns.push(DENY_RF.to_owned());
        patterns.push(DENY_FR.to_owned());
        assert(text::texts(patterns@) =~= seq![DENY_RF@, DENY_FR@]);
        if let Some(c) = &home {
            let ghost before = patterns@;
            let mut more = read_deny_file(c.as_str());
            let ghost added = more@;
            patterns.append(&mut more);
            assert(text::texts(patterns@) =~= text::texts(before) + text::texts(added));
        }
        if let Some(c) = &project {
            let ghost before = patterns@;
            let mut more = read_deny_file(c.as_str());
            let ghost added = more@;
            patterns.append(&mut more);
            assert(text::texts(patterns@) =~= text::texts(before) + text::texts(added));
        }
        assert(text::texts(patterns@) =~= all_rules(
            resources::opt(home),
            resources::opt(project),
        ));
        Self::new(&patterns)
    }

    /// The first rule that some line of a command matches.
    pub fn deny_match(&self, command: &str) -> (r: Option<&str>)
        ensures
            match (r, first_match(self@, command@, 0)) {
                (Some(s), Some(k)) => 0 <= k < self@.len() && s@ == self@[k],
                (None, None) => true,
                _ => false,
            },
    {
        let lines = split_lines(&chars_of(command));
        let ghost all = text::views(lines@);
        let mut i: usize = 0;
        while i < self.rules.len()
            invariant
                i <= self.rules@.len(),
                all == text::views(lines@),
                all == text::lines_of(command@),
                first_match(self@, command@, 0) == first_match(self@, command@, i as int),
            decreases self.rules@.len() - i,
        {
            let rule = self.rules[i].as_str();
            assert(self@[i as int] == rule@);
            let mut k: usize = 0;
            while k < lines.len()
                invariant
                    k <= lines@.len(),
                    i < self.rules@.len(),
                    rule@ == self@[i as int],
                    all == text::views(lines@),
                    all == text::lines_of(command@),
                    first_match(self@, command@, 0) == first_match(self@, command@, i as int),
                    forall|j: int| 0 <= j < k ==> !search::regex_matches(rule@, #[trigger] all[j]),
                decreases lines@.len() - k,
            {
                assert(all[k as int] == lines@[k as int]@);
                if line_matches(rule, to_text(&lines[k]).as_str()) {
                    assert(search::regex_matches(rule@, all[k as int]));
                    assert(some_line_matches(self@[i as int], text::lines_of(command@)));
                    return Some(rule);
                }
                k += 1;
            }
            i += 1;
        }
        None
    }

    /// Says whether a tool call may run: a bash command that matches a rule
    /// may not, and the reason names the rule.
    pub fn before_tool_call(&self, call: &ToolCall) -> (r: Option<BeforeToolCallResult>)
        ensures
            answers(r, verdict(self@, *call)),
    {
        if !text::same_str(call.name.as_str(), "bash") {
            return None;
        }
        let command = match json_text_field(call.arguments.as_str(), "command") {
            Some(c) => c,
            None => return None,
        };
        match self.deny_match(command.as_str()) {
            Some(rule) => Some(
                BeforeToolCallResult {
                    block: true,
                    reason: Some(
                        concat3(
                            "Command blocked by cupel's bash denylist (pattern: ",
                            rule,
                            "). Do not retry this command; choose a safer alternative or ask the user to run it themselves.",
                        ),
                    ),
                },
            ),
            None => None,
        }
    }
}

proof fn lemma_valid(v: Seq<Seq<char>>, n: int, k: int)
    requires
        0 <= k < n <= v.len(),
        search::regex_error(v[k], false) is None,
    ensures
        valid_patterns(v, n).contains(v[k]),
    decreases n,
{
    let now = valid_patterns(v, n);
    if k == n - 1 {
        assert(now.last() == v[k]);
    } else {
        lemma_valid(v, n - 1, k);
        let before = valid_patterns(v, n - 1);
        let i = choose|i: int| 0 <= i < before.len() && before[i] == v[k];
        assert(now[i] == v[k]);
    }
}

/// Rules of different places never cancel each other: every rule that
/// compiles is in force, wherever it comes from.
pub proof fn law_rules_add_up(home: Option<Seq<char>>, project: Option<Seq<char>>, k: int)
    requires
        0 <= k < all_rules(home, project).len(),
        search::regex_error(all_rules(home, project)[k], false) is None,
    ensures
        valid_patterns(
            all_rules(home, project),
            all_rules(home, project).len() as int,
        ).contains(all_rules(home, project)[k]),
{
    let all = all_rules(home, project);
    lemma_valid(all, all.len() as int, k);
}

proof fn lemma_first_match(rules: Seq<Seq<char>>, command: Seq<char>, from: int, k: int)
    requires
        0 <= from <= k < rules.len(),
        some_line_matches(rules[k], text::lines_of(command)),
    ensures
        first_match(rules, command, from) is Some,
    decreases k - from,
{
    if from < k && !some_line_matches(rules[from], text::lines_of(command)) {
        lemma_first_match(rules, command, from + 1, k);
    }
}

/// A bash command is blocked as soon as one line of it matches one rule,
/// whatever stands on the other lines.
pub proof fn law_one_matching_line_blocks(
    rules: Seq<Seq<char>>,
    call: ToolCall,
    command: Seq<char>,
    k: int,
    j: int,
)
    requires
        call.name@ == "bash"@,
        json::json_text(call.arguments@, "command"@) == Some(command),
        0 <= k < rules.len(),
        0 <= j < text::lines_of(command).len(),
        search::regex_matches(rules[k], text::lines_of(command)[j]),
    ensures
        verdict(rules, call) is Some,
{
    lemma_first_match(rules, command, 0, k);
}

proof fn lemma_rules_from(lines: Seq<Seq<char>>, from: int)
    requires
        0 <= from <= lines.len(),
    ensures
        rules_from(lines, from) == lines.skip(from).map_values(
            |l: Seq<char>| text::trim(l),
        ).filter(|l: Seq<char>| l.len() > 0 && l[0] != '#'),
    decreases lines.len() - from,
{
    let f = |l: Seq<char>| text::trim(l);
    let p = |l: Seq<char>| l.len() > 0 && l[0] != '#';
    let trimmed_lines = lines.skip(from).map_values(f);
    if from < lines.len() {
        lemma_rules_from(lines, from + 1);
        let rest = lines.skip(from + 1).map_values(f);
        assert(trimmed_lines =~= seq![text::trim(lines[from])] + rest);
        rest.lemma_filter_prepend(text::trim(lines[from]), p);
        assert(seq![text::trim(lines[from])] + rest.filter(p) =~= seq![
            text::trim(lines[from]),
        ].add(rest.filter(p)));
    } else {
        reveal(Seq::filter);
        assert(trimmed_lines =~= Seq::empty());
        assert(trimmed_lines.filter(p) =~= Seq::empty());
    }
}

/// The rules of a file are its lines, trimmed, without those that are blank
/// and those that start with a hash; each of the others is a rule.
pub proof fn law_every_other_line_is_a_rule(content: Seq<char>)
    ensures
        rules_in(content) == text::lines_of(content).map_values(
            |l: Seq<char>| text::trim(l),
        ).filter(|l: Seq<char>| l.len() > 0 && l[0] != '#'),
{
    let lines = text::lines_of(content);
    lemma_rules_from(lines, 0);
    assert(lines.skip(0) =~= lines);
}

proof fn lemma_valid_patterns(v: Seq<Seq<char>>, n: int)
    requires
        0 <= n <= v.len(),
    ensures
        valid_patterns(v, n) == v.take(n).filter(
            |p: Seq<char>| search::regex_error(p, false) is None,
        ),
        invalid_patterns(v, n) == v.take(n).filter(
            |p: Seq<char>| search::regex_error(p, false) is Some,
        ).map_values(|p: Seq<char>| (p, search::regex_error(p, false).unwrap())),
    decreases n,
{
    reveal(Seq::filter);
    let bad = v.take(n).filter(|p: Seq<char>| search::regex_error(p, false) is Some).map_values(
        |p: Seq<char>| (p, search::regex_error(p, false).unwrap()),
    );
    if n > 0 {
        lemma_valid_patterns(v, n - 1);
        assert(v.take(n).drop_last() =~= v.take(n - 1));
        assert(v.take(n).last() == v[n - 1]);
        assert(invalid_patterns(v, n) =~= bad);
    } else {
        assert(v.take(n) =~= Seq::empty());
        assert(invalid_patterns(v, n) =~= bad);
    }
}

/// Every pattern is in force or handed back with the reason: one that does
/// not compile takes no other with it.
pub proof fn law_every_pattern_counts_or_is_refused(v: Seq<Seq<char>>)
    ensures
        valid_patterns(v, v.len() as int) == v.filter(
            |p: Seq<char>| search::regex_error(p, false) is None,
        ),
        invalid_patterns(v, v.len() as int) == v.filter(
            |p: Seq<char>| search::regex_error(p, false) is Some,
        ).map_values(|p: Seq<char>| (p, search::regex_error(p, false).unwrap())),
{
    lemma_valid_patterns(v, v.len() as int);
    assert(v.take(v.len() as int) =~= v);
}

/// Both files add their rules to the two that are always there: forced and
/// recursive removal, with the two letters in either order.
pub proof fn law_no_rule_is_lost(home: Seq<char>, project: Seq<char>, rule: Seq<char>)
    ensures
        all_rules(Some(home), Some(project)).contains(rule) <==> rule
            == "\\brm\\s+-[a-zA-Z]*[rR][a-zA-Z]*f"@ || rule
            == "\\brm\\s+-[a-zA-Z]*f[a-zA-Z]*[rR]"@ || rules_in(home).contains(rule) || rules_in(
            project,
        ).contains(rule),
        all_rules(None, Some(project)).contains(rule) <==> rule
            == "\\brm\\s+-[a-zA-Z]*[rR][a-zA-Z]*f"@ || rule
            == "\\brm\\s+-[a-zA-Z]*f[a-zA-Z]*[rR]"@ || rules_in(project).contains(rule),
        all_rules(Some(home), None).contains(rule) <==> rule
            == "\\brm\\s+-[a-zA-Z]*[rR][a-zA-Z]*f"@ || rule
            == "\\brm\\s+-[a-zA-Z]*f[a-zA-Z]*[rR]"@ || rules_in(home).contains(rule),
{
    let first = seq![DENY_RF@, DENY_FR@];
    let none = Seq::<Seq<char>>::empty();
    lemma_three(first, rules_in(home), rules_in(project), rule);
    lemma_three(first, none, rules_in(project), rule);
    lemma_three(first, rules_in(home), none, rule);
    assert(first[0] == DENY_RF@ && first[1] == DENY_FR@);
}

proof fn lemma_three(a: Seq<Seq<char>>, b: Seq<Seq<char>>, c: Seq<Seq<char>>, x: Seq<char>)
    ensures
        (a + b + c).contains(x) <==> a.contains(x) || b.contains(x) || c.contains(x),
{
    let all = a + b + c;
    if a.contains(x) {
        let i = choose|i: int| 0 <= i < a.len() && a[i] == x;
        assert(all[i] == x);
    }
    if b.contains(x) {
        let i = choose|i: int| 0 <= i < b.len() && b[i] == x;
        assert(all[a.len() + i] == x);
    }
    if c.contains(x) {
        let i = choose|i: int| 0 <= i < c.len() && c[i] == x;
        assert(all[a.len() + b.len() + i] == x);
    }
    if all.contains(x) {
        let i = choose|i: int| 0 <= i < all.len() && all[i] == x;
        if i < a.len() {
            assert(a[i] == x);
        } else if i < a.len() + b.len() {
            assert(b[i - a.len()] == x);
        } else {
            assert(c[i - a.len() - b.len()] == x);
        }
    }
}

proof fn lemma_first_match_is(rules: Seq<Seq<char>>, command: Seq<char>, from: int)
    requires
        0 <= from,
    ensures
        match first_match(rules, command, from) {
            Some(k) => from <= k < rules.len() && some_line_matches(
                rules[k],
                text::lines_of(command),
            ) && forall|j: int|
                from <= j < k ==> !some_line_matches(#[trigger] rules[j], text::lines_of(command)),
            None => forall|j: int|
                from <= j < rules.len() ==> !some_line_matches(
                    #[trigger] rules[j],
                    text::lines_of(command),
                ),
        },
    decreases rules.len() - from,
{
    if from < rules.len() && !some_line_matches(rules[from], text::lines_of(command)) {
        lemma_first_match_is(rules, command, from + 1);
    }
}

/// A call is blocked exactly when it runs a command in bash of which some
/// line matches some rule; the reason names the first such rule.
pub proof fn law_only_matching_commands_are_blocked(rules: Seq<Seq<char>>, call: ToolCall)
    ensures
        verdict(rules, call) is Some <==> call.name@ == "bash"@ && (json::json_text(
            call.arguments@,
            "command"@,
        ) matches Some(command) && exists|k: int, j: int|
            #![trigger rules[k], text::lines_of(command)[j]]
            0 <= k < rules.len() && 0 <= j < text::lines_of(command).len() && search::regex_matches(
                rules[k],
                text::lines_of(command)[j],
            )),
        verdict(rules, call) matches Some(reason) ==> exists|k: int|
            0 <= k < rules.len() && reason == blocked_text(#[trigger] rules[k]),
{
    if call.name@ == "bash"@ {
        if let Some(command) = json::json_text(call.arguments@, "command"@) {
            lemma_first_match_is(rules, command, 0);
            let lines = text::lines_of(command);
            if verdict(rules, call) is Some {
                let k = first_match(rules, command, 0).unwrap();
                let j = choose|j: int|
                    0 <= j < lines.len() && search::regex_matches(rules[k], #[trigger] lines[j]);
                assert(search::regex_matches(rules[k], lines[j]));
                assert(verdict(rules, call) == Some(blocked_text(rules[k])));
            }
            if exists|k: int, j: int|
                #![trigger rules[k], text::lines_of(command)[j]]
                0 <= k < rules.len() && 0 <= j < text::lines_of(command).len()
                    && search::regex_matches(rules[k], text::lines_of(command)[j]) {
                let (k, j) = choose|k: int, j: int|
                    #![trigger rules[k], text::lines_of(command)[j]]
                    0 <= k < rules.len() && 0 <= j < text::lines_of(command).len()
                        && search::regex_matches(rules[k], text::lines_of(command)[j]);
                assert(some_line_matches(rules[k], lines));
            }
        }
    }
}

/// The reason holds the rule itself.
pub proof fn law_the_reason_names_the_rule(rule: Seq<char>)
    ensures
        exists|a: Seq<char>, b: Seq<char>| blocked_text(rule) == #[trigger] (a + rule + b),
{
    let a = "Command blocked by cupel's bash denylist (pattern: "@;
    let b =
        "). Do not retry this command; choose a safer alternative or ask the user to run it themselves."@;
    assert(blocked_text(rule) == a + rule + b);
}

} // verus!
