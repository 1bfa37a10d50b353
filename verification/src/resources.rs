//! Project context: standing instructions and where they come from.
//!
//! Context files ride in the system prompt of every request. They come from
//! up to three places, later ones being more specific: the cupel home, the
//! project's `.cupel` directory, the project itself.
use vstd::prelude::*;

use crate::text::{chars_of, concat2, slice, to_text};
use crate::{paths, text};

verus! {

/// One context file.
#[derive(Debug)]
pub struct ContextFile {
    pub path: String,
    pub content: String,
}

/// One context file.
pub struct ContextFileView {
    pub path: Seq<char>,
    pub content: Seq<char>,
}

impl View for ContextFile {
    type V = ContextFileView;

    open spec fn view(&self) -> ContextFileView {
        ContextFileView { path: self.path@, content: self.content@ }
    }
}

/// Views of context files.
pub open spec fn context_views(v: Seq<ContextFile>) -> Seq<ContextFileView> {
    v.map_values(|f: ContextFile| f@)
}

/// The view of an optional string.
pub open spec fn opt(o: Option<String>) -> Option<Seq<char>> {
    match o {
        Some(s) => Some(s@),
        None => None,
    }
}

// ---------------------------------------------------------------------------
// Roots
// ---------------------------------------------------------------------------

/// The cupel home: the override if it says something, else `.cupel` in the
/// home directory.
pub open spec fn config_home(env_value: Option<Seq<char>>, home: Option<Seq<char>>) -> Option<
    Seq<char>,
> {
    match env_value {
        Some(v) if !text::is_blank(v) => Some(v),
        _ => match home {
            Some(h) => Some(paths::joined(h, ".cupel"@)),
            None => None,
        },
    }
}

/// Resolves the cupel home.
pub fn resolve_config_home(env_value: Option<String>, home: Option<String>) -> (r: Option<String>)
    ensures
        opt(r) == config_home(opt(env_value), opt(home)),
{
    if let Some(v) = env_value {
        if !text::blank(v.as_str()) {
            return Some(v);
        }
    }
    match home {
        Some(h) => Some(paths::join(h.as_str(), ".cupel")),
        None => None,
    }
}

/// Whether a path is among the roots.
pub open spec fn has_root(roots: Seq<Seq<char>>, p: Seq<char>) -> bool {
    exists|k: int| 0 <= k < roots.len() && paths::same_path(#[trigger] roots[k], p)
}

/// The roots with one more, unless it is there already.
pub open spec fn with_root(roots: Seq<Seq<char>>, p: Seq<char>) -> Seq<Seq<char>> {
    if has_root(roots, p) {
        roots
    } else {
        roots.push(p)
    }
}

/// The places to look for resources, the more specific ones last.
pub open spec fn roots_of(home: Option<Seq<char>>, cwd: Seq<char>) -> Seq<Seq<char>> {
    let first = match home {
        Some(h) => seq![h],
        None => Seq::empty(),
    };
    with_root(with_root(first, paths::joined(cwd, ".cupel"@)), cwd)
}

/// Appends a root that is not there yet.
fn push_unique(roots: &mut Vec<String>, candidate: String)
    ensures
        text::texts(final(roots)@) == with_root(text::texts(old(roots)@), candidate@),
{
    let ghost before = text::texts(roots@);
    let mut i: usize = 0;
    while i < roots.len()
        invariant
            i <= roots@.len(),
            before == text::texts(roots@),
            before == text::texts(old(roots)@),
            forall|k: int| 0 <= k < i ==> !paths::same_path(#[trigger] before[k], candidate@),
        decreases roots@.len() - i,
    {
        assert(before[i as int] == roots@[i as int]@);
        if paths::equal(roots[i].as_str(), candidate.as_str()) {
            return;
        }
        i += 1;
    }
    roots.push(candidate);
    assert(text::texts(roots@) =~= before.push(candidate@));
}

/// The roots for a resolved home.
pub fn resolve_default_roots(home: Option<String>, cwd: &str) -> (r: Vec<String>)
    ensures
        text::texts(r@) == roots_of(opt(home), cwd@),
{
    let mut roots: Vec<String> = Vec::new();
    assert(text::texts(roots@) =~= Seq::empty());
    if let Some(h) = home {
        push_unique(&mut roots, h);
        assert(text::texts(roots@) =~= seq![h@]);
    }
    push_unique(&mut roots, paths::join(cwd, ".cupel"));
    push_unique(&mut roots, cwd.to_owned());
    roots
}

/// The roots for the override and the home directory that the environment
/// gives.
pub fn default_roots(env_value: Option<String>, home: Option<String>, cwd: &str) -> (r: Vec<String>)
    ensures
        text::texts(r@) == roots_of(config_home(opt(env_value), opt(home)), cwd@),
{
    resolve_default_roots(resolve_config_home(env_value, home), cwd)
}

/// Nothing is looked up twice, the working directory is among the roots, and
/// there are at most three.
pub proof fn law_roots_are_distinct(home: Option<Seq<char>>, cwd: Seq<char>)
    ensures
        has_root(roots_of(home, cwd), cwd),
        roots_of(home, cwd).len() <= 3,
        forall|j: int, k: int|
            0 <= j < k < roots_of(home, cwd).len() ==> !paths::same_path(
                #[trigger] roots_of(home, cwd)[j],
                #[trigger] roots_of(home, cwd)[k],
            ),
{
    let first = match home {
        Some(h) => seq![h],
        None => Seq::empty(),
    };
    let second = with_root(first, paths::joined(cwd, ".cupel"@));
    let all = with_root(second, cwd);
    if !has_root(second, cwd) {
        assert(paths::same_path(all.last(), cwd));
    }
}

// ---------------------------------------------------------------------------
// Context files
// ---------------------------------------------------------------------------

/// How many names a context file can have.
pub const CANDIDATES: usize = 4;

/// The names that a context file can have, the preferred ones first. `other`
/// is the stem of the name that is looked for where there is no `AGENTS` file.
pub open spec fn candidate_name(other: Seq<char>, j: int) -> Seq<char> {
    if j == 0 {
        "AGENTS.md"@
    } else if j == 1 {
        "AGENTS.MD"@
    } else if j == 2 {
        other + ".md"@
    } else {
        other + ".MD"@
    }
}

/// The name of a context file by its preference.
pub fn context_file_name(other: &str, j: usize) -> (r: String)
    ensures
        r@ == candidate_name(other@, j as int),
{
    if j == 0 {
        "AGENTS.md".to_owned()
    } else if j == 1 {
        "AGENTS.MD".to_owned()
    } else if j == 2 {
        concat2(other, ".md")
    } else {
        concat2(other, ".MD")
    }
}

/// The first file of a root that could be read, looking from name `j` on.
pub open spec fn first_read(read: Seq<Option<String>>, j: int) -> Option<int>
    decreases read.len() - j,
{
    if j >= read.len() {
        None
    } else if read[j] is Some {
        Some(j)
    } else {
        first_read(read, j + 1)
    }
}

/// What a root contributes: its first readable file, unless that is blank.
pub open spec fn root_context(
    root: Seq<char>,
    other: Seq<char>,
    read: Seq<Option<String>>,
) -> Seq<ContextFileView> {
    match first_read(read, 0) {
        Some(j) => {
            let content = read[j].unwrap()@;
            if text::is_blank(content) {
                Seq::empty()
            } else {
                seq![ContextFileView { path: paths::joined(root, candidate_name(other, j)), content }]
            }
        },
        None => Seq::empty(),
    }
}

/// What the first `n` roots contribute.
pub open spec fn all_context(
    roots: Seq<Seq<char>>,
    other: Seq<char>,
    reads: Seq<Vec<Option<String>>>,
    n: int,
) -> Seq<ContextFileView>
    decreases n,
{
    if n <= 0 {
        Seq::empty()
    } else {
        all_context(roots, other, reads, n - 1) + root_context(roots[n - 1], other, reads[n - 1]@)
    }
}

/// The context files of all roots. `reads` holds, for each root, what reading
/// each of the candidate names gave.
pub fn load_context_files(
    roots: &Vec<String>,
    other: &str,
    reads: &Vec<Vec<Option<String>>>,
) -> (r: Vec<ContextFile>)
    requires
        reads@.len() == roots@.len(),
    ensures
        context_views(r@) == all_context(text::texts(roots@), other@, reads@, roots@.len() as int),
{
    let mut out: Vec<ContextFile> = Vec::new();
    let mut i: usize = 0;
    assert(context_views(out@) =~= Seq::empty());
    while i < roots.len()
        invariant
            i <= roots@.len(),
            reads@.len() == roots@.len(),
            context_views(out@) == all_context(text::texts(roots@), other@, reads@, i as int),
        decreases roots@.len() - i,
    {
        let read = &reads[i];
        let ghost before = context_views(out@);
        assert(text::texts(roots@)[i as int] == roots@[i as int]@);
        let mut j: usize = 0;
        while j < read.len() && read[j].is_none()
            invariant
                j <= read@.len(),
                first_read(read@, 0) == first_read(read@, j as int),
            decreases read@.len() - j,
        {
            j += 1;
        }
        if j < read.len() {
            if let Some(content) = &read[j] {
                if !text::blank(content.as_str()) {
                    let file = ContextFile {
                        path: paths::join(roots[i].as_str(), context_file_name(other, j).as_str()),
                        content: content.clone(),
                    };
                    let ghost old_out = out@;
                    let ghost shown = file@;
                    out.push(file);
                    assert(context_views(out@) =~= context_views(old_out).push(shown));
                }
            }
        }
        assert(context_views(out@) =~= before + root_context(roots@[i as int]@, other@, read@));
        i += 1;
    }
    out
}

// ---------------------------------------------------------------------------
// Front matter
// ---------------------------------------------------------------------------

/// A key and its value, both trimmed, if the line has a colon and the value
/// is not blank.
pub open spec fn pair_of(line: Seq<char>) -> Option<(Seq<char>, Seq<char>)> {
    let at = text::find_from(line, ':', 0);
    if at < line.len() && !text::is_blank(line.skip(at + 1)) {
        Some((text::trim(line.take(at)), text::trim(line.skip(at + 1))))
    } else {
        None
    }
}

/// The pairs of the first `n` lines.
pub open spec fn pairs_of(lines: Seq<Seq<char>>, n: int) -> Seq<(Seq<char>, Seq<char>)>
    decreases n,
{
    if n <= 0 {
        Seq::empty()
    } else {
        match pair_of(lines[n - 1]) {
            Some(p) => pairs_of(lines, n - 1).push(p),
            None => pairs_of(lines, n - 1),
        }
    }
}

/// The text without line ends in front.
pub open spec fn skip_line_ends(s: Seq<char>) -> Seq<char>
    decreases s.len(),
{
    if s.len() > 0 && (s[0] == '\r' || s[0] == '\n') {
        skip_line_ends(s.drop_first())
    } else {
        s
    }
}

/// The pairs of the front matter, and the body behind it. A text that does
/// not open and close front matter is all body.
pub open spec fn front_matter(s: Seq<char>) -> (Seq<(Seq<char>, Seq<char>)>, Seq<char>) {
    if text::has_prefix(s, "---"@) {
        let rest = s.skip(3);
        match text::find_text(rest, "\n---"@, 0) {
            Some(end) => {
                let lines = text::lines_of(rest.take(end));
                (pairs_of(lines, lines.len() as int), skip_line_ends(rest.skip(end + 4)))
            },
            None => (Seq::empty(), s),
        }
    } else {
        (Seq::empty(), s)
    }
}

/// Views of pairs.
pub open spec fn pair_views(v: Seq<(String, String)>) -> Seq<(Seq<char>, Seq<char>)> {
    v.map_values(|p: (String, String)| (p.0@, p.1@))
}

/// Splits the front matter off a text: its key and value pairs, and the body.
pub fn split_frontmatter(content: &str) -> (r: (Vec<(String, String)>, String))
    ensures
        (pair_views(r.0@), r.1@) == front_matter(content@),
{
    let chars = chars_of(content);
    let mut pairs: Vec<(String, String)> = Vec::new();
    assert(pair_views(pairs@) =~= Seq::empty());
    if !text::starts_with(&chars, "---") {
        return (pairs, content.to_owned());
    }
    proof {
        reveal_strlit("---");
        reveal_strlit("\n---");
    }
    let rest = slice(&chars, 3, chars.len());
    assert(rest@ =~= chars@.skip(3));
    match text::find_str(&rest, "\n---") {
        None => (pairs, content.to_owned()),
        Some(end) => {
            let n: usize = rest.len();
            let matter = slice(&rest, 0, end);
            assert(matter@ =~= rest@.take(end as int));
            let lines = text::split_lines(&matter);
            let ghost ls = text::views(lines@);
            let mut i: usize = 0;
            while i < lines.len()
                invariant
                    i <= lines@.len(),
                    ls == text::views(lines@),
                    pair_views(pairs@) == pairs_of(ls, i as int),
                decreases lines@.len() - i,
            {
                let line = &lines[i];
                assert(ls[i as int] == line@);
                let at: usize = text::find_char(line, ':', 0);
                if at < line.len() {
                    let key = slice(line, 0, at);
                    let value = slice(line, at + 1, line.len());
                    assert(key@ =~= line@.take(at as int));
                    assert(value@ =~= line@.skip(at + 1));
                    let value = text::trimmed(&value);
                    if value.len() > 0 {
                        let key = text::trimmed(&key);
                        let p = (to_text(&key), to_text(&value));
                        let ghost before = pairs@;
                        let ghost shown = (p.0@, p.1@);
                        pairs.push(p);
                        assert(pair_views(pairs@) =~= pair_views(before).push(shown));
                    }
                }
                i += 1;
            }
            let mut from: usize = end + 4;
            while from < n && (rest[from] == '\r' || rest[from] == '\n')
                invariant
                    from <= n,
                    n == rest@.len(),
                    end + 4 <= n,
                    skip_line_ends(rest@.skip(end + 4)) == skip_line_ends(
                        rest@.skip(from as int),
                    ),
                decreases n - from,
            {
                assert(rest@.skip(from as int).drop_first() =~= rest@.skip(from + 1));
                from += 1;
            }
            let body = text::string_of(&rest, from, n);
            assert(body@ =~= rest@.skip(from as int));
            (pairs, body)
        },
    }
}

/// An override that says something is the home; otherwise it lies in the
/// user's own directory, and without that there is none.
pub proof fn law_the_override_comes_first(v: Seq<char>, home: Seq<char>)
    requires
        home.len() > 0 && home.last() != '/',
    ensures
        !text::is_blank(v) ==> config_home(Some(v), Some(home)) == Some(v) && config_home(
            Some(v),
            None,
        ) == Some(v),
        text::is_blank(v) ==> config_home(Some(v), Some(home)) == config_home(None, Some(home)),
        text::is_blank(v) ==> config_home(Some(v), None) is None,
        config_home(None, Some(home)) == Some(home + "/.cupel"@),
        config_home(None, None) is None,
{
    reveal_strlit(".cupel");
    reveal_strlit("/.cupel");
    reveal_strlit("/");
    assert(paths::joined(home, ".cupel"@) =~= home + "/.cupel"@);
}

/// The roots go from the general to the specific: the home, the project's own
/// directory, the project. A root that is there already is left out.
pub proof fn law_roots_grow_more_specific(home: Seq<char>, cwd: Seq<char>)
    ensures
        ({
            let own = paths::joined(cwd, ".cupel"@);
            &&& !paths::same_path(home, own) && !paths::same_path(home, cwd) && !paths::same_path(
                own,
                cwd,
            ) ==> roots_of(Some(home), cwd) == seq![home, own, cwd]
            &&& !paths::same_path(own, cwd) ==> roots_of(None, cwd) == seq![own, cwd]
            &&& paths::same_path(home, own) && !paths::same_path(home, cwd) ==> roots_of(
                Some(home),
                cwd,
            ) == seq![home, cwd]
        }),
        roots_of(Some(home), cwd)[0] == home,
{
    let own = paths::joined(cwd, ".cupel"@);
    let none = Seq::<Seq<char>>::empty();
    let one = seq![home];
    assert(one[0] == home);
    assert(has_root(one, own) <==> paths::same_path(home, own)) by {
        if paths::same_path(home, own) {
            assert(paths::same_path(one[0], own));
        }
    }
    assert(has_root(one, cwd) <==> paths::same_path(home, cwd)) by {
        if paths::same_path(home, cwd) {
            assert(paths::same_path(one[0], cwd));
        }
    }
    assert(!has_root(none, own));
    assert(none.push(own) =~= seq![own]);
    let two = one.push(own);
    assert(two =~= seq![home, own]);
    assert(two.push(cwd) =~= seq![home, own, cwd]);
    assert(seq![own].push(cwd) =~= seq![own, cwd]);
    assert(one.push(cwd) =~= seq![home, cwd]);
}

proof fn lemma_first_read(read: Seq<Option<String>>, from: int, j: int)
    requires
        0 <= from <= j <= read.len(),
        j < read.len() ==> read[j] is Some,
        forall|i: int| from <= i < j ==> (#[trigger] read[i]) is None,
    ensures
        first_read(read, from) == (if j < read.len() {
            Some(j)
        } else {
            None
        }),
    decreases j - from,
{
    if from < j {
        assert(read[from] is None);
        lemma_first_read(read, from + 1, j);
    }
}

/// The first name under which a root has a file decides: that file is taken
/// over as it is, unless it is blank, and no other file of the root is.
pub proof fn law_the_first_name_decides(
    root: Seq<char>,
    other: Seq<char>,
    read: Seq<Option<String>>,
    j: int,
)
    requires
        read.len() == 4,
        0 <= j < 4,
        read[j] is Some,
        forall|i: int| 0 <= i < j ==> (#[trigger] read[i]) is None,
    ensures
        ({
            let name = seq!["AGENTS.md"@, "AGENTS.MD"@, other + ".md"@, other + ".MD"@][j];
            let content = read[j].unwrap()@;
            &&& text::is_blank(content) ==> root_context(root, other, read).len() == 0
            &&& !text::is_blank(content) ==> root_context(root, other, read) == seq![
                ContextFileView { path: paths::joined(root, name), content },
            ]
        }),
{
    lemma_first_read(read, 0, j);
}

/// A root without any such file adds nothing.
pub proof fn law_roots_without_files_add_nothing(
    root: Seq<char>,
    other: Seq<char>,
    read: Seq<Option<String>>,
)
    requires
        forall|i: int| 0 <= i < read.len() ==> (#[trigger] read[i]) is None,
    ensures
        root_context(root, other, read).len() == 0,
{
    lemma_first_read(read, 0, read.len() as int);
}

proof fn lemma_all_context(
    roots: Seq<Seq<char>>,
    other: Seq<char>,
    reads: Seq<Vec<Option<String>>>,
    n: int,
)
    requires
        0 <= n <= roots.len(),
        reads.len() == roots.len(),
    ensures
        all_context(roots, other, reads, n) == Seq::new(
            n as nat,
            |i: int| root_context(roots[i], other, reads[i]@),
        ).flatten(),
    decreases n,
{
    let parts = Seq::new(n as nat, |i: int| root_context(roots[i], other, reads[i]@));
    if n > 0 {
        lemma_all_context(roots, other, reads, n - 1);
        let before = Seq::new(
            (n - 1) as nat,
            |i: int| root_context(roots[i], other, reads[i]@),
        );
        let last = root_context(roots[n - 1], other, reads[n - 1]@);
        assert(parts =~= before.push(last));
        before.lemma_flatten_push(last);
    }
}

/// The context is what the roots contribute, one after the other: no root is
/// passed over, and none hides another.
pub proof fn law_every_root_contributes(
    roots: Seq<Seq<char>>,
    other: Seq<char>,
    reads: Seq<Vec<Option<String>>>,
)
    requires
        reads.len() == roots.len(),
    ensures
        all_context(roots, other, reads, roots.len() as int) == Seq::new(
            roots.len(),
            |i: int| root_context(roots[i], other, reads[i]@),
        ).flatten(),
{
    lemma_all_context(roots, other, reads, roots.len() as int);
}

/// Whether a text neither starts nor ends with white space, and is one line.
pub open spec fn is_trim_line(s: Seq<char>) -> bool {
    s.len() > 0 && !text::is_white_space(s[0]) && !text::is_white_space(s.last()) && !s.contains(
        '\n',
    )
}

/// Whether keys and values can be written down one to a line.
pub open spec fn are_fields(pairs: Seq<(Seq<char>, Seq<char>)>) -> bool {
    forall|k: int|
        0 <= k < pairs.len() ==> is_trim_line((#[trigger] pairs[k]).0) && is_trim_line(pairs[k].1)
            && !pairs[k].0.contains(':') && pairs[k].0[0] != '-'
}

/// The lines of fields.
pub open spec fn field_lines(pairs: Seq<(Seq<char>, Seq<char>)>) -> Seq<Seq<char>> {
    pairs.map_values(|p: (Seq<char>, Seq<char>)| p.0 + seq![':', ' '] + p.1)
}

proof fn lemma_trim_line(s: Seq<char>)
    requires
        is_trim_line(s),
    ensures
        text::trim(s) == s,
        text::trim(seq![' '] + s) == s,
        !text::is_blank(seq![' '] + s),
{
    let t = seq![' '] + s;
    text::lemma_leading_space(s);
    text::lemma_leading_space(t);
    assert(t[0] == ' ' && t[1] == s[0]);
    assert(text::leading_space(s) == 0);
    assert(text::leading_space(t) == 1);
    assert(s.skip(0) =~= s);
    assert(t.skip(1) =~= s);
    text::lemma_trim_end(s);
    assert(text::trim_end(s) =~= s);
}

proof fn lemma_field(key: Seq<char>, value: Seq<char>)
    requires
        is_trim_line(key),
        is_trim_line(value),
        !key.contains(':'),
    ensures
        pair_of(key + seq![':', ' '] + value) == Some((key, value)),
{
    let line = key + seq![':', ' '] + value;
    let at = key.len() as int;
    assert(line[at] == ':');
    assert forall|k: int| 0 <= k < at implies line[k] != ':' by {
        assert(line[k] == key[k]);
        assert(key.contains(key[k]));
    }
    text::lemma_find_from_is(line, ':', 0, at);
    assert(line.take(at) =~= key);
    assert(line.skip(at + 1) =~= seq![' '] + value);
    lemma_trim_line(key);
    lemma_trim_line(value);
}

proof fn lemma_fields(pairs: Seq<(Seq<char>, Seq<char>)>, n: int)
    requires
        are_fields(pairs),
        0 <= n <= pairs.len(),
    ensures
        pairs_of(seq![Seq::<char>::empty()] + field_lines(pairs), n + 1) == pairs.take(n),
    decreases n,
{
    let lines = seq![Seq::<char>::empty()] + field_lines(pairs);
    if n == 0 {
        reveal_with_fuel(pairs_of, 2);
        let e = Seq::<char>::empty();
        text::lemma_find_from(e, ':', 0);
        assert(pair_of(lines[0]) is None);
        assert(pairs_of(lines, 0) =~= Seq::empty());
        assert(pairs.take(0) =~= Seq::empty());
    } else {
        lemma_fields(pairs, n - 1);
        let p = pairs[n - 1];
        lemma_field(p.0, p.1);
        assert(lines[n] == p.0 + seq![':', ' '] + p.1);
        assert(pairs.take(n - 1).push(p) =~= pairs.take(n));
    }
}

proof fn lemma_not_closed_before(lines: Seq<Seq<char>>, tail: Seq<char>, k: int)
    requires
        lines.len() > 0,
        forall|i: int|
            0 <= i < lines.len() ==> (#[trigger] lines[i]).len() > 0 && lines[i][0] != '-'
                && !lines[i].contains('\n'),
        0 <= k < 1 + text::joined(lines, seq!['\n']).len(),
    ensures
        !text::occurs_at(
            seq!['\n'] + text::joined(lines, seq!['\n']) + (seq!['\n', '-', '-', '-'] + tail),
            seq!['\n', '-', '-', '-'],
            k,
        ),
    decreases lines.len(),
{
    let mark = seq!['\n', '-', '-', '-'];
    let sep = seq!['\n'];
    let first = lines[0];
    let more = lines.drop_first();
    assert(lines =~= seq![first] + more);
    text::lemma_joined_front(first, more, sep);
    let end = mark + tail;
    let s = sep + text::joined(lines, sep) + end;
    let n = first.len() as int;
    let below = if more.len() == 0 {
        end
    } else {
        sep + text::joined(more, sep) + end
    };
    assert(s =~= sep + first + below);
    if text::occurs_at(s, mark, k) {
        let here = s.subrange(k, k + 4);
        assert(here[0] == '\n' && here[1] == '-');
        assert(s[k] == '\n' && s[k + 1] == '-');
        if k == 0 {
            assert(s[1] == first[0]);
        } else if k <= n {
            assert(s[k] == first[k - 1]);
            assert(first.contains(first[k - 1]));
        } else {
            assert(more.len() > 0);
            assert forall|i: int| 0 <= i < more.len() implies (#[trigger] more[i]).len() > 0
                && more[i][0] != '-' && !more[i].contains('\n') by {
                assert(more[i] == lines[i + 1]);
            }
            lemma_not_closed_before(more, tail, k - 1 - n);
            assert(below.subrange(k - 1 - n, k - 1 - n + 4) =~= here);
        }
    }
}

proof fn lemma_field_line(pairs: Seq<(Seq<char>, Seq<char>)>, i: int)
    requires
        are_fields(pairs),
        0 <= i < pairs.len(),
    ensures
        ({
            let line = field_lines(pairs)[i];
            line.len() > 0 && line[0] != '-' && !line.contains('\n') && line.last() != '\r'
        }),
{
    let line = field_lines(pairs)[i];
    let p = pairs[i];
    assert(line == p.0 + seq![':', ' '] + p.1);
    assert(line[0] == p.0[0]);
    assert(line.last() == p.1.last());
    if line.contains('\n') {
        let k = choose|k: int| 0 <= k < line.len() && line[k] == '\n';
        if k < p.0.len() {
            assert(p.0[k] == '\n');
        } else if k >= p.0.len() + 2 {
            assert(p.1[k - p.0.len() - 2] == '\n');
        }
    }
}

proof fn lemma_matter_lines(pairs: Seq<(Seq<char>, Seq<char>)>)
    requires
        are_fields(pairs),
        pairs.len() > 0,
    ensures
        ({
            let lines = text::lines_of(
                seq!['\n'] + text::joined(field_lines(pairs), seq!['\n']),
            );
            pairs_of(lines, lines.len() as int) == pairs
        }),
{
    let sep = seq!['\n'];
    let lines = field_lines(pairs);
    let e = Seq::<char>::empty();
    let more = seq![e] + lines;
    text::lemma_joined_front(e, lines, sep);
    assert(sep + text::joined(lines, sep) =~= e + sep + text::joined(lines, sep));
    assert forall|k: int| 0 <= k < more.len() implies !(#[trigger] more[k]).contains('\n') && (
    more[k].len() > 0 ==> more[k].last() != '\r') by {
        if k > 0 {
            assert(more[k] == lines[k - 1]);
            lemma_field_line(pairs, k - 1);
        }
    }
    assert(more.last() == lines[lines.len() - 1]);
    lemma_field_line(pairs, lines.len() - 1);
    text::law_lines_are_read_back(more);
    lemma_fields(pairs, pairs.len() as int);
    assert(pairs.take(pairs.len() as int) =~= pairs);
}

proof fn lemma_found_at(s: Seq<char>, p: Seq<char>, at: int)
    requires
        text::occurs_at(s, p, at),
        forall|k: int| 0 <= k < at ==> !(#[trigger] text::occurs_at(s, p, k)),
    ensures
        text::find_text(s, p, 0) == Some(at),
{
    text::lemma_find_text(s, p, 0);
}

proof fn lemma_matter_end(lines: Seq<Seq<char>>, tail: Seq<char>)
    requires
        lines.len() > 0,
        forall|i: int|
            0 <= i < lines.len() ==> (#[trigger] lines[i]).len() > 0 && lines[i][0] != '-'
                && !lines[i].contains('\n'),
    ensures
        text::find_text(
            seq!['\n'] + text::joined(lines, seq!['\n']) + (seq!['\n', '-', '-', '-'] + tail),
            seq!['\n', '-', '-', '-'],
            0,
        ) == Some(1 + text::joined(lines, seq!['\n']).len() as int),
{
    let mark = seq!['\n', '-', '-', '-'];
    let all = text::joined(lines, seq!['\n']);
    let rest = seq!['\n'] + all + (mark + tail);
    let end = 1 + all.len() as int;
    assert(text::occurs_at(rest, mark, end)) by {
        assert(rest.subrange(end, end + 4) =~= mark);
    }
    assert forall|k: int| 0 <= k < end implies !(#[trigger] text::occurs_at(rest, mark, k)) by {
        lemma_not_closed_before(lines, tail, k);
    }
    lemma_found_at(rest, mark, end);
}

/// Fields that were written down between two lines of dashes are read back,
/// each with its value and in their order, and what follows is the body.
pub proof fn law_front_matter_is_read_back(pairs: Seq<(Seq<char>, Seq<char>)>, body: Seq<char>)
    requires
        are_fields(pairs),
        pairs.len() > 0,
        body.len() > 0 ==> body[0] != '\r' && body[0] != '\n',
    ensures
        front_matter(
            seq!['-', '-', '-', '\n'] + text::joined(field_lines(pairs), seq!['\n']) + seq![
                '\n',
                '-',
                '-',
                '-',
                '\n',
            ] + body,
        ) == (pairs, body),
{
    let sep = seq!['\n'];
    let mark = seq!['\n', '-', '-', '-'];
    let lines = field_lines(pairs);
    let all = text::joined(lines, sep);
    let s = seq!['-', '-', '-', '\n'] + all + seq!['\n', '-', '-', '-', '\n'] + body;
    reveal_strlit("---");
    reveal_strlit("\n---");
    assert("---"@ =~= seq!['-', '-', '-']);
    assert("\n---"@ =~= mark);
    assert(s.take(3) =~= "---"@);
    let rest = s.skip(3);
    let tail = sep + body;
    assert(rest =~= sep + all + (mark + tail));
    assert forall|i: int| 0 <= i < lines.len() implies (#[trigger] lines[i]).len() > 0
        && lines[i][0] != '-' && !lines[i].contains('\n') by {
        lemma_field_line(pairs, i);
    }
    let end = 1 + all.len() as int;
    lemma_matter_end(lines, tail);
    assert(rest.take(end) =~= sep + all);
    lemma_matter_lines(pairs);
    assert(rest.skip(end + 4) =~= tail);
    assert(skip_line_ends(tail) == body) by {
        assert(tail.drop_first() =~= body);
        reveal_with_fuel(skip_line_ends, 2);
    }
}

/// A text that does not start with dashes, and one whose dashes are not
/// closed, is all body.
pub proof fn law_other_texts_are_all_body(s: Seq<char>)
    ensures
        s.len() < 3 || s[0] != '-' || s[1] != '-' || s[2] != '-' ==> front_matter(s) == (
            Seq::<(Seq<char>, Seq<char>)>::empty(),
            s,
        ),
        !s.contains('\n') ==> front_matter(s) == (Seq::<(Seq<char>, Seq<char>)>::empty(), s),
{
    reveal_strlit("---");
    reveal_strlit("\n---");
    if text::has_prefix(s, "---"@) {
        assert(s[0] == s.take(3)[0] && s[1] == s.take(3)[1] && s[2] == s.take(3)[2]);
        let rest = s.skip(3);
        text::lemma_find_text(rest, "\n---"@, 0);
        match text::find_text(rest, "\n---"@, 0) {
            Some(at) => {
                assert(rest.subrange(at, at + 4)[0] == '\n');
                assert(s[at + 3] == '\n');
            },
            None => {},
        }
    }
}

/// Lines without a colon, and those without a value, give no pair.
pub proof fn law_fields_need_a_value(line: Seq<char>)
    ensures
        !line.contains(':') ==> pair_of(line) is None,
        pair_of(line) matches Some(p) ==> p.1.len() > 0 && line.contains(':'),
{
    text::lemma_find_from(line, ':', 0);
    let at = text::find_from(line, ':', 0);
    if at < line.len() {
        assert(line[at] == ':');
    }
}

} // verus!
