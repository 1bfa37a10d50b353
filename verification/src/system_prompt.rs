//! The system prompt: what the model is told before a conversation starts.
//!
//! It lists the tools, gives advice for those that are there, holds the
//! project's instructions in full and the skills by name only, and ends with
//! the date and the working directory.
use vstd::prelude::*;

use crate::resources::ContextFile;
use crate::text::{chars_of, concat2, push_range, trimmed_end};
use crate::text;

verus! {

/// Instructions that the model reads when a task calls for them.
#[derive(Debug)]
pub struct Skill {
    pub name: String,
    pub description: String,
    pub path: String,
}

/// Whether there is a tool with this name.
pub open spec fn has_tool(tools: Seq<(String, String)>, name: Seq<char>) -> bool {
    exists|k: int| 0 <= k < tools.len() && (#[trigger] tools[k]).0@ == name
}

fn offers(tools: &Vec<(String, String)>, name: &str) -> (r: bool)
    ensures
        r == has_tool(tools@, name@),
{
    let mut k: usize = 0;
    while k < tools.len()
        invariant
            k <= tools@.len(),
            forall|j: int| 0 <= j < k ==> (#[trigger] tools@[j]).0@ != name@,
        decreases tools@.len() - k,
    {
        if text::same_str(tools[k].0.as_str(), name) {
            return true;
        }
        k += 1;
    }
    false
}

/// One line per tool.
pub open spec fn tool_lines(tools: Seq<(String, String)>) -> Seq<Seq<char>> {
    tools.map_values(|t: (String, String)| "- "@ + t.0@ + ": "@ + t.1@)
}

/// The list of the tools.
pub open spec fn tools_text(tools: Seq<(String, String)>) -> Seq<char> {
    if tools.len() == 0 {
        "(none)"@
    } else {
        text::joined(tool_lines(tools), "\n"@)
    }
}

/// Advice, given that something holds.
pub open spec fn when(b: bool, v: Seq<Seq<char>>) -> Seq<Seq<char>> {
    if b {
        v
    } else {
        Seq::empty()
    }
}

/// The advice that is given.
pub open spec fn guidelines(tools: Seq<(String, String)>) -> Seq<Seq<char>> {
    when(
        has_tool(tools, "grep"@),
        seq!["- Use grep to locate code before answering questions about it"@],
    ) + when(
        has_tool(tools, "read"@),
        seq!["- Use read to examine files instead of cat or sed"@],
    ) + when(
        has_tool(tools, "edit"@),
        seq![
            "- Use edit for precise changes (edits[].oldText must match exactly)"@,
            "- When changing multiple separate locations in one file, use one edit call with multiple entries in edits[] instead of multiple edit calls"@,
            "- Keep edits[].oldText as small as possible while still being unique in the file. Do not pad with large unchanged regions."@,
        ],
    ) + when(
        has_tool(tools, "write"@),
        seq!["- Use write only for new files or complete rewrites"@],
    ) + seq![
        "- Be concise in your responses"@,
        "- Show file paths clearly when working with files"@,
    ]
}

/// The first `n` context files, in full.
pub open spec fn context_text(files: Seq<ContextFile>, n: int) -> Seq<char>
    decreases n,
{
    if n <= 0 {
        Seq::empty()
    } else {
        context_text(files, n - 1) + "\n<project_instructions path=\""@ + files[n - 1].path@
            + "\">\n"@ + text::trim_end(files[n - 1].content@) + "\n</project_instructions>\n"@
    }
}

/// A character where markup is read.
pub open spec fn xml_char(c: char) -> Seq<char> {
    if c == '&' {
        "&amp;"@
    } else if c == '<' {
        "&lt;"@
    } else if c == '>' {
        "&gt;"@
    } else if c == '"' {
        "&quot;"@
    } else {
        seq![c]
    }
}

/// A text where markup is read.
pub open spec fn xml_text(s: Seq<char>) -> Seq<char>
    decreases s.len(),
{
    if s.len() == 0 {
        Seq::empty()
    } else {
        xml_text(s.drop_last()) + xml_char(s.last())
    }
}

/// Writes a text so that it can stand in markup.
pub fn escape_xml(s: &str) -> (r: String)
    ensures
        r@ == xml_text(s@),
{
    let chars = chars_of(s);
    let mut out = String::new();
    let mut i: usize = 0;
    while i < chars.len()
        invariant
            i <= chars@.len(),
            out@ == xml_text(chars@.take(i as int)),
        decreases chars@.len() - i,
    {
        assert(chars@.take(i + 1).drop_last() =~= chars@.take(i as int));
        let ghost before = out@;
        let c = chars[i];
        if c == '&' {
            out.push_str("&amp;");
        } else if c == '<' {
            out.push_str("&lt;");
        } else if c == '>' {
            out.push_str("&gt;");
        } else if c == '"' {
            out.push_str("&quot;");
        } else {
            out.push(c);
        }
        assert(out@ =~= before + xml_char(c));
        i += 1;
    }
    assert(chars@.take(chars@.len() as int) =~= chars@);
    out
}

/// What is escaped holds no markup: no angle bracket and no quote is left.
pub proof fn law_escaped_text_is_no_markup(s: Seq<char>)
    ensures
        forall|k: int|
            0 <= k < xml_text(s).len() ==> (#[trigger] xml_text(s)[k]) != '<' && xml_text(s)[k]
                != '>' && xml_text(s)[k] != '"',
    decreases s.len(),
{
    if s.len() > 0 {
        law_escaped_text_is_no_markup(s.drop_last());
        let head = xml_text(s.drop_last());
        let c = s.last();
        reveal_strlit("&amp;");
        reveal_strlit("&lt;");
        reveal_strlit("&gt;");
        reveal_strlit("&quot;");
        assert forall|k: int| 0 <= k < xml_text(s).len() implies (#[trigger] xml_text(s)[k]) != '<'
            && xml_text(s)[k] != '>' && xml_text(s)[k] != '"' by {
            if k < head.len() {
                assert(xml_text(s)[k] == head[k]);
            } else {
                assert(xml_text(s)[k] == xml_char(c)[k - head.len()]);
            }
        }
    }
}

/// The first `n` skills, by name.
pub open spec fn skills_text(skills: Seq<Skill>, n: int) -> Seq<char>
    decreases n,
{
    if n <= 0 {
        Seq::empty()
    } else {
        skills_text(skills, n - 1) + "\n  <skill>\n    <name>"@ + xml_text(skills[n - 1].name@)
            + "</name>\n    <description>"@ + xml_text(skills[n - 1].description@)
            + "</description>\n    <location>"@ + xml_text(skills[n - 1].path@)
            + "</location>\n  </skill>"@
    }
}

/// A path with forward slashes.
pub open spec fn forward(s: Seq<char>) -> Seq<char> {
    s.map_values(
        |c: char|
            if c == '\\' {
                '/'
            } else {
                c
            },
    )
}

fn forward_slashes(s: &str) -> (r: String)
    ensures
        r@ == forward(s@),
{
    let chars = chars_of(s);
    let mut out = String::new();
    let mut i: usize = 0;
    assert(out@ =~= forward(chars@).take(0));
    while i < chars.len()
        invariant
            i <= chars@.len(),
            out@ == forward(chars@).take(i as int),
        decreases chars@.len() - i,
    {
        if chars[i] == '\\' {
            out.push('/');
        } else {
            out.push(chars[i]);
        }
        assert(out@ =~= forward(chars@).take(i + 1));
        i += 1;
    }
    assert(forward(chars@).take(chars@.len() as int) =~= forward(chars@));
    out
}

/// The part of the prompt on the project.
pub open spec fn project_part(files: Seq<ContextFile>) -> Seq<char> {
    if files.len() == 0 {
        Seq::empty()
    } else {
        "\n\n<project_context>\n\nProject-specific instructions and guidelines:\n"@ + context_text(
            files,
            files.len() as int,
        ) + "\n</project_context>"@
    }
}

/// The part of the prompt on skills. Without a tool to read them there is
/// none.
pub open spec fn skills_part(tools: Seq<(String, String)>, skills: Seq<Skill>) -> Seq<char> {
    if has_tool(tools, "read"@) && skills.len() > 0 {
        "\n\nThe following skills provide specialized instructions for specific tasks.\nUse the read tool to load a skill's file when the task matches its description.\nWhen a skill file references a relative path, resolve it against the skill's directory and use that absolute path in tool commands.\n\n<available_skills>"@
            + skills_text(skills, skills.len() as int) + "\n</available_skills>"@
    } else {
        Seq::empty()
    }
}

/// The system prompt.
pub open spec fn prompt_text(
    cwd: Seq<char>,
    tools: Seq<(String, String)>,
    files: Seq<ContextFile>,
    skills: Seq<Skill>,
    date: Seq<char>,
) -> Seq<char> {
    "You are an expert coding assistant operating inside cupel, a coding agent harness. You help users by reading files, executing commands, editing code, and writing new files.\n\nAvailable tools:\n"@
        + tools_text(tools) + "\n\nGuidelines:\n"@ + text::joined(guidelines(tools), "\n"@)
        + project_part(files) + skills_part(tools, skills) + "\n\nCurrent date: "@ + date
        + "\nCurrent working directory: "@ + forward(cwd)
}

fn write_tools(tools: &Vec<(String, String)>) -> (r: String)
    ensures
        r@ == tools_text(tools@),
{
    if tools.len() == 0 {
        return "(none)".to_owned();
    }
    let mut lines: Vec<String> = Vec::new();
    let mut k: usize = 0;
    while k < tools.len()
        invariant
            k <= tools@.len(),
            lines@.len() == k,
            forall|j: int| 0 <= j < k ==> (#[trigger] lines@[j])@ == tool_lines(tools@)[j],
        decreases tools@.len() - k,
    {
        let mut line = concat2("- ", tools[k].0.as_str());
        line.push_str(": ");
        line.push_str(tools[k].1.as_str());
        lines.push(line);
        k += 1;
    }
    assert(text::texts(lines@) =~= tool_lines(tools@));
    text::join(&lines, "\n")
}

fn advise(out: &mut Vec<String>, line: &str)
    ensures
        text::texts(final(out)@) == text::texts(old(out)@) + seq![line@],
{
    let ghost before = out@;
    out.push(line.to_owned());
    assert(text::texts(out@) =~= text::texts(before) + seq![line@]);
}

fn write_guidelines(tools: &Vec<(String, String)>) -> (r: String)
    ensures
        r@ == text::joined(guidelines(tools@), "\n"@),
{
    let mut out: Vec<String> = Vec::new();
    let ghost t = tools@;
    assert(text::texts(out@) =~= Seq::empty());
    if offers(tools, "grep") {
        advise(&mut out, "- Use grep to locate code before answering questions about it");
    }
    if offers(tools, "read") {
        advise(&mut out, "- Use read to examine files instead of cat or sed");
    }
    if offers(tools, "edit") {
        advise(&mut out, "- Use edit for precise changes (edits[].oldText must match exactly)");
        advise(
            &mut out,
            "- When changing multiple separate locations in one file, use one edit call with multiple entries in edits[] instead of multiple edit calls",
        );
        advise(
            &mut out,
            "- Keep edits[].oldText as small as possible while still being unique in the file. Do not pad with large unchanged regions.",
        );
    }
    if offers(tools, "write") {
        advise(&mut out, "- Use write only for new files or complete rewrites");
    }
    advise(&mut out, "- Be concise in your responses");
    advise(&mut out, "- Show file paths clearly when working with files");
    assert(text::texts(out@) =~= guidelines(t));
    text::join(&out, "\n")
}

fn write_project(files: &Vec<ContextFile>) -> (r: String)
    ensures
        r@ == project_part(files@),
{
    let mut out = String::new();
    if files.len() == 0 {
        return out;
    }
    out.push_str("\n\n<project_context>\n\nProject-specific instructions and guidelines:\n");
    let ghost head = out@;
    let mut k: usize = 0;
    assert(out@ =~= head + context_text(files@, 0));
    while k < files.len()
        invariant
            k <= files@.len(),
            out@ == head + context_text(files@, k as int),
        decreases files@.len() - k,
    {
        out.push_str("\n<project_instructions path=\"");
        out.push_str(files[k].path.as_str());
        out.push_str("\">\n");
        let body = trimmed_end(&chars_of(files[k].content.as_str()));
        push_range(&mut out, &body, 0, body.len());
        assert(body@.subrange(0, body@.len() as int) =~= body@);
        out.push_str("\n</project_instructions>\n");
        assert(out@ =~= head + context_text(files@, k + 1));
        k += 1;
    }
    out.push_str("\n</project_context>");
    assert(out@ =~= project_part(files@));
    out
}

fn write_skills(tools: &Vec<(String, String)>, skills: &Vec<Skill>) -> (r: String)
    ensures
        r@ == skills_part(tools@, skills@),
{
    let mut out = String::new();
    if !offers(tools, "read") || skills.len() == 0 {
        return out;
    }
    out.push_str(
        "\n\nThe following skills provide specialized instructions for specific tasks.\nUse the read tool to load a skill's file when the task matches its description.\nWhen a skill file references a relative path, resolve it against the skill's directory and use that absolute path in tool commands.\n\n<available_skills>",
    );
    let ghost head = out@;
    let mut k: usize = 0;
    assert(out@ =~= head + skills_text(skills@, 0));
    while k < skills.len()
        invariant
            k <= skills@.len(),
            out@ == head + skills_text(skills@, k as int),
        decreases skills@.len() - k,
    {
        out.push_str("\n  <skill>\n    <name>");
        out.push_str(escape_xml(skills[k].name.as_str()).as_str());
        out.push_str("</name>\n    <description>");
        out.push_str(escape_xml(skills[k].description.as_str()).as_str());
        out.push_str("</description>\n    <location>");
        out.push_str(escape_xml(skills[k].path.as_str()).as_str());
        out.push_str("</location>\n  </skill>");
        assert(out@ =~= head + skills_text(skills@, k + 1));
        k += 1;
    }
    out.push_str("\n</available_skills>");
    assert(out@ =~= skills_part(tools@, skills@));
    out
}

/// Writes the system prompt.
pub fn build_system_prompt(
    cwd: &str,
    tools: &Vec<(String, String)>,
    context_files: &Vec<ContextFile>,
    skills: &Vec<Skill>,
    date: &str,
) -> (r: String)
    ensures
        r@ == prompt_text(cwd@, tools@, context_files@, skills@, date@),
{
    let mut out =
        "You are an expert coding assistant operating inside cupel, a coding agent harness. You help users by reading files, executing commands, editing code, and writing new files.\n\nAvailable tools:\n".to_owned();
    out.push_str(write_tools(tools).as_str());
    out.push_str("\n\nGuidelines:\n");
    out.push_str(write_guidelines(tools).as_str());
    out.push_str(write_project(context_files).as_str());
    out.push_str(write_skills(tools, skills).as_str());
    out.push_str("\n\nCurrent date: ");
    out.push_str(date);
    out.push_str("\nCurrent working directory: ");
    out.push_str(forward_slashes(cwd).as_str());
    out
}

/// Texts are escaped character by character: four characters are written by
/// name, every other one stands for itself.
pub proof fn law_escaping_is_by_the_character(a: Seq<char>, b: Seq<char>, c: char)
    ensures
        xml_text(a + b) == xml_text(a) + xml_text(b),
        xml_text(seq!['&']) == "&amp;"@,
        xml_text(seq!['<']) == "&lt;"@,
        xml_text(seq!['>']) == "&gt;"@,
        xml_text(seq!['"']) == "&quot;"@,
        c != '&' && c != '<' && c != '>' && c != '"' ==> xml_text(seq![c]) == seq![c],
    decreases b.len(),
{
    lemma_one_escaped('&');
    lemma_one_escaped('<');
    lemma_one_escaped('>');
    lemma_one_escaped('"');
    lemma_one_escaped(c);
    if b.len() == 0 {
        assert(a + b =~= a);
        assert(xml_text(a) + xml_text(b) =~= xml_text(a));
    } else {
        law_escaping_is_by_the_character(a, b.drop_last(), c);
        assert((a + b).drop_last() =~= a + b.drop_last());
        assert(xml_text(a + b) =~= xml_text(a) + (xml_text(b.drop_last()) + xml_char(b.last())));
    }
}

proof fn lemma_one_escaped(c: char)
    ensures
        xml_text(seq![c]) == xml_char(c),
{
    assert(seq![c].drop_last() =~= Seq::empty());
    assert(xml_text(Seq::empty()) =~= Seq::empty());
    assert(xml_text(seq![c]) =~= xml_char(c));
}

/// The parts of the prompt behind the greeting, the last of them being the
/// date and the working directory.
proof fn lemma_prompt_parts(
    cwd: Seq<char>,
    tools: Seq<(String, String)>,
    files: Seq<ContextFile>,
    skills: Seq<Skill>,
    date: Seq<char>,
    part: Seq<char>,
)
    ensures
        text::stands_in(part, tools_text(tools)) || text::stands_in(
            part,
            text::joined(guidelines(tools), "\n"@),
        ) || text::stands_in(part, project_part(files)) || text::stands_in(
            part,
            skills_part(tools, skills),
        ) ==> text::stands_in(part, prompt_text(cwd, tools, files, skills, date)),
{
    let p1 =
        "You are an expert coding assistant operating inside cupel, a coding agent harness. You help users by reading files, executing commands, editing code, and writing new files.\n\nAvailable tools:\n"@;
    let p2 = tools_text(tools);
    let p3 = "\n\nGuidelines:\n"@;
    let p4 = text::joined(guidelines(tools), "\n"@);
    let p5 = project_part(files);
    let p6 = skills_part(tools, skills);
    let p7 = "\n\nCurrent date: "@ + date + "\nCurrent working directory: "@ + forward(cwd);
    let whole = prompt_text(cwd, tools, files, skills, date);
    assert(whole =~= p1 + p2 + (p3 + p4 + p5 + p6 + p7));
    assert(whole =~= (p1 + p2 + p3) + p4 + (p5 + p6 + p7));
    assert(whole =~= (p1 + p2 + p3 + p4) + p5 + (p6 + p7));
    assert(whole =~= (p1 + p2 + p3 + p4 + p5) + p6 + p7);
    if text::stands_in(part, p2) {
        text::lemma_stands_wider(part, p2, p1, p3 + p4 + p5 + p6 + p7);
    }
    if text::stands_in(part, p4) {
        text::lemma_stands_wider(part, p4, p1 + p2 + p3, p5 + p6 + p7);
    }
    if text::stands_in(part, p5) {
        text::lemma_stands_wider(part, p5, p1 + p2 + p3 + p4, p6 + p7);
    }
    if text::stands_in(part, p6) {
        text::lemma_stands_wider(part, p6, p1 + p2 + p3 + p4 + p5, p7);
    }
}

/// The model is told of every tool, by name and with what it does.
pub proof fn law_every_tool_is_announced(
    cwd: Seq<char>,
    tools: Seq<(String, String)>,
    files: Seq<ContextFile>,
    skills: Seq<Skill>,
    date: Seq<char>,
    i: int,
)
    requires
        0 <= i < tools.len(),
    ensures
        text::stands_in(
            "- "@ + tools[i].0@ + ": "@ + tools[i].1@,
            prompt_text(cwd, tools, files, skills, date),
        ),
{
    let line = "- "@ + tools[i].0@ + ": "@ + tools[i].1@;
    assert(tool_lines(tools)[i] == line);
    text::lemma_stands_joined(tool_lines(tools), "\n"@, i);
    lemma_prompt_parts(cwd, tools, files, skills, date, line);
}

proof fn lemma_context_stands(files: Seq<ContextFile>, i: int, n: int)
    requires
        0 <= i < n <= files.len(),
    ensures
        text::stands_in(
            "<project_instructions path=\""@ + files[i].path@ + "\">\n"@ + text::trim_end(
                files[i].content@,
            ) + "\n</project_instructions>"@,
            context_text(files, n),
        ),
    decreases n,
{
    let part = "<project_instructions path=\""@ + files[i].path@ + "\">\n"@ + text::trim_end(
        files[i].content@,
    ) + "\n</project_instructions>"@;
    let before = context_text(files, n - 1);
    let whole = context_text(files, n);
    if i == n - 1 {
        reveal_strlit("<project_instructions path=\"");
        reveal_strlit("\n<project_instructions path=\"");
        reveal_strlit("\n</project_instructions>");
        reveal_strlit("\n</project_instructions>\n");
        assert("\n<project_instructions path=\""@ =~= seq!['\n']
            + "<project_instructions path=\""@);
        assert("\n</project_instructions>\n"@ =~= "\n</project_instructions>"@ + seq!['\n']);
        assert(whole =~= (before + seq!['\n']) + part + seq!['\n']);
        text::lemma_stands(part, whole, before + seq!['\n'], seq!['\n']);
    } else {
        lemma_context_stands(files, i, n - 1);
        let more = "\n<project_instructions path=\""@ + files[n - 1].path@ + "\">\n"@
            + text::trim_end(files[n - 1].content@) + "\n</project_instructions>\n"@;
        assert(whole =~= Seq::empty() + before + more);
        text::lemma_stands_wider(part, before, Seq::empty(), more);
    }
}

/// The model is told the instructions of every context file in full, with
/// the path that they come from.
pub proof fn law_every_instruction_is_told(
    cwd: Seq<char>,
    tools: Seq<(String, String)>,
    files: Seq<ContextFile>,
    skills: Seq<Skill>,
    date: Seq<char>,
    i: int,
)
    requires
        0 <= i < files.len(),
    ensures
        text::stands_in(
            "<project_instructions path=\""@ + files[i].path@ + "\">\n"@ + text::trim_end(
                files[i].content@,
            ) + "\n</project_instructions>"@,
            prompt_text(cwd, tools, files, skills, date),
        ),
{
    let part = "<project_instructions path=\""@ + files[i].path@ + "\">\n"@ + text::trim_end(
        files[i].content@,
    ) + "\n</project_instructions>"@;
    lemma_context_stands(files, i, files.len() as int);
    text::lemma_stands_wider(
        part,
        context_text(files, files.len() as int),
        "\n\n<project_context>\n\nProject-specific instructions and guidelines:\n"@,
        "\n</project_context>"@,
    );
    lemma_prompt_parts(cwd, tools, files, skills, date, part);
}

/// How a skill is announced.
pub open spec fn skill_entry(skill: Skill) -> Seq<char> {
    "<name>"@ + xml_text(skill.name@) + "</name>\n    <description>"@ + xml_text(
        skill.description@,
    ) + "</description>\n    <location>"@ + xml_text(skill.path@) + "</location>"@
}

proof fn lemma_skill_stands(skills: Seq<Skill>, i: int, n: int)
    requires
        0 <= i < n <= skills.len(),
    ensures
        text::stands_in(skill_entry(skills[i]), skills_text(skills, n)),
    decreases n,
{
    let part = skill_entry(skills[i]);
    let before = skills_text(skills, n - 1);
    let whole = skills_text(skills, n);
    if i == n - 1 {
        reveal_strlit("<name>");
        reveal_strlit("\n  <skill>\n    <name>");
        reveal_strlit("\n  <skill>\n    ");
        reveal_strlit("</location>");
        reveal_strlit("</location>\n  </skill>");
        reveal_strlit("\n  </skill>");
        assert("\n  <skill>\n    <name>"@ =~= "\n  <skill>\n    "@ + "<name>"@);
        assert("</location>\n  </skill>"@ =~= "</location>"@ + "\n  </skill>"@);
        assert(whole =~= (before + "\n  <skill>\n    "@) + part + "\n  </skill>"@);
        text::lemma_stands(part, whole, before + "\n  <skill>\n    "@, "\n  </skill>"@);
    } else {
        lemma_skill_stands(skills, i, n - 1);
        let last = skills[n - 1];
        let more = "\n  <skill>\n    <name>"@ + xml_text(last.name@)
            + "</name>\n    <description>"@ + xml_text(last.description@)
            + "</description>\n    <location>"@ + xml_text(last.path@)
            + "</location>\n  </skill>"@;
        assert(whole =~= Seq::empty() + before + more);
        text::lemma_stands_wider(part, before, Seq::empty(), more);
    }
}

/// A model that can read files is told of every skill, with its name, what it
/// is for and where it is; one that cannot is told of none.
pub proof fn law_skills_need_a_reader(
    cwd: Seq<char>,
    tools: Seq<(String, String)>,
    files: Seq<ContextFile>,
    skills: Seq<Skill>,
    date: Seq<char>,
    i: int,
)
    requires
        0 <= i < skills.len(),
    ensures
        has_tool(tools, "read"@) ==> text::stands_in(
            skill_entry(skills[i]),
            prompt_text(cwd, tools, files, skills, date),
        ),
        !has_tool(tools, "read"@) ==> prompt_text(cwd, tools, files, skills, date) == prompt_text(
            cwd,
            tools,
            files,
            Seq::empty(),
            date,
        ),
{
    if has_tool(tools, "read"@) {
        let part = skill_entry(skills[i]);
        lemma_skill_stands(skills, i, skills.len() as int);
        text::lemma_stands_wider(
            part,
            skills_text(skills, skills.len() as int),
            "\n\nThe following skills provide specialized instructions for specific tasks.\nUse the read tool to load a skill's file when the task matches its description.\nWhen a skill file references a relative path, resolve it against the skill's directory and use that absolute path in tool commands.\n\n<available_skills>"@,
            "\n</available_skills>"@,
        );
        lemma_prompt_parts(cwd, tools, files, skills, date, part);
    }
}

/// The prompt ends with the date and the working directory, written with
/// forward slashes.
pub proof fn law_prompts_end_with_date_and_place(
    cwd: Seq<char>,
    tools: Seq<(String, String)>,
    files: Seq<ContextFile>,
    skills: Seq<Skill>,
    date: Seq<char>,
)
    ensures
        text::has_suffix(
            prompt_text(cwd, tools, files, skills, date),
            "Current date: "@ + date + "\nCurrent working directory: "@ + forward(cwd),
        ),
        forward(cwd).len() == cwd.len(),
        forall|k: int|
            0 <= k < cwd.len() ==> (#[trigger] forward(cwd)[k]) == (if cwd[k] == '\\' {
                '/'
            } else {
                cwd[k]
            }),
{
    let end = "Current date: "@ + date + "\nCurrent working directory: "@ + forward(cwd);
    let whole = prompt_text(cwd, tools, files, skills, date);
    reveal_strlit("Current date: ");
    reveal_strlit("\n\nCurrent date: ");
    assert("\n\nCurrent date: "@ =~= seq!['\n', '\n'] + "Current date: "@);
    let p7 = "\n\nCurrent date: "@ + date + "\nCurrent working directory: "@ + forward(cwd);
    assert(p7 =~= seq!['\n', '\n'] + end);
    assert(whole.skip(whole.len() - end.len()) =~= end);
}

/// Advice on a tool is given when the tool is there, and a prompt without
/// tools has the two general pieces of advice only.
pub proof fn law_advice_follows_the_tools(tools: Seq<(String, String)>, i: int)
    requires
        0 <= i < tools.len(),
    ensures
        tools[i].0@ == "grep"@ ==> guidelines(tools).contains(
            "- Use grep to locate code before answering questions about it"@,
        ),
        tools[i].0@ == "read"@ ==> guidelines(tools).contains(
            "- Use read to examine files instead of cat or sed"@,
        ),
        tools[i].0@ == "edit"@ ==> guidelines(tools).contains(
            "- Use edit for precise changes (edits[].oldText must match exactly)"@,
        ),
        tools[i].0@ == "write"@ ==> guidelines(tools).contains(
            "- Use write only for new files or complete rewrites"@,
        ),
        guidelines(Seq::empty()) == seq![
            "- Be concise in your responses"@,
            "- Show file paths clearly when working with files"@,
        ],
        tools_text(Seq::empty()) == "(none)"@,
{
    let a = when(
        has_tool(tools, "grep"@),
        seq!["- Use grep to locate code before answering questions about it"@],
    );
    let b = when(
        has_tool(tools, "read"@),
        seq!["- Use read to examine files instead of cat or sed"@],
    );
    let c = when(
        has_tool(tools, "edit"@),
        seq![
            "- Use edit for precise changes (edits[].oldText must match exactly)"@,
            "- When changing multiple separate locations in one file, use one edit call with multiple entries in edits[] instead of multiple edit calls"@,
            "- Keep edits[].oldText as small as possible while still being unique in the file. Do not pad with large unchanged regions."@,
        ],
    );
    let d = when(
        has_tool(tools, "write"@),
        seq!["- Use write only for new files or complete rewrites"@],
    );
    let e = seq![
        "- Be concise in your responses"@,
        "- Show file paths clearly when working with files"@,
    ];
    let g = guidelines(tools);
    assert(g =~= a + b + c + d + e);
    if tools[i].0@ == "grep"@ {
        assert(has_tool(tools, "grep"@));
        assert(g[0] == a[0]);
    }
    if tools[i].0@ == "read"@ {
        assert(has_tool(tools, "read"@));
        assert(g[a.len() as int] == b[0]);
    }
    if tools[i].0@ == "edit"@ {
        assert(has_tool(tools, "edit"@));
        assert(g[(a.len() + b.len()) as int] == c[0]);
    }
    if tools[i].0@ == "write"@ {
        assert(has_tool(tools, "write"@));
        assert(g[(a.len() + b.len() + c.len()) as int] == d[0]);
    }
    let none = Seq::<(String, String)>::empty();
    assert(guidelines(none) =~= e);
}

} // verus!
