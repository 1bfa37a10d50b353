//! Code search: what to look for, where, and when to stop.
//!
//! The program around this module walks the tree and reads the files; every
//! file's bytes come here. Matching is done by ripgrep's engine. What is
//! kept here are the budgets: a search stops at a number of matches, or at
//! a number of files with so many matches each.
use vstd::prelude::*;

use grep_regex::RegexMatcherBuilder;
use grep_searcher::sinks::UTF8;
use grep_searcher::{BinaryDetection, SearcherBuilder};
use ignore::overrides::OverrideBuilder;

use crate::text::{chars_of, concat2, starts_with, string_of};
use crate::{paths, resources, text};

verus! {

// ---------------------------------------------------------------------------
// The engine
// ---------------------------------------------------------------------------

/// Why a pattern does not compile, in the engine's words, if it does not.
pub uninterp spec fn regex_error(pattern: Seq<char>, ignore_case: bool) -> Option<Seq<char>>;

/// Whether a pattern matches somewhere in a line. A pattern that does not
/// compile matches nowhere.
pub uninterp spec fn regex_matches(pattern: Seq<char>, line: Seq<char>) -> bool;

/// The matching lines of a file with their numbers, the first `cap` of
/// them, and whether the search came to its end without an error.
pub uninterp spec fn grep_result(
    pattern: Seq<char>,
    ignore_case: bool,
    content: Seq<u8>,
    cap: nat,
) -> (Seq<(u64, Seq<char>)>, bool);

/// Calls `grep_regex::RegexMatcherBuilder::build`. The contract says that
/// whether a pattern compiles, and the error if it does not, depends on the
/// pattern and the case switch alone.
#[verifier::external_body]
pub(crate) fn pattern_error(pattern: &str, ignore_case: bool) -> (r: Option<String>)
    ensures
        resources::opt(r) == regex_error(pattern@, ignore_case),
{
    match RegexMatcherBuilder::new().case_insensitive(ignore_case).build(pattern) {
        Ok(_) => None,
        Err(e) => Some(e.to_string()),
    }
}

/// Why a glob is not one, in the words of the crate `ignore`, if it is not.
pub uninterp spec fn glob_error(place: Seq<char>, glob: Seq<char>) -> Option<Seq<char>>;

/// Calls `ignore::overrides::OverrideBuilder::add` and `build` for a search
/// at a place. The contract says that whether the glob is accepted, and the
/// error if it is not, depends on the place and the glob alone.
#[verifier::external_body]
fn glob_refusal(place: &str, glob: &str) -> (r: Option<String>)
    ensures
        resources::opt(r) == glob_error(place@, glob@),
{
    let mut builder = OverrideBuilder::new(place);
    match builder.add(glob) {
        Ok(b) => b.build().err().map(|e| e.to_string()),
        Err(e) => Some(e.to_string()),
    }
}

/// Calls `grep_matcher::Matcher::is_match` on a `grep_regex::RegexMatcher`.
/// The contract says that the answer depends on the pattern and the line
/// alone, and is no for a pattern that does not compile.
#[verifier::external_body]
pub(crate) fn line_matches(pattern: &str, line: &str) -> (r: bool)
    ensures
        r == regex_matches(pattern@, line@),
        r ==> regex_error(pattern@, false) is None,
{
    match RegexMatcherBuilder::new().build(pattern) {
        Ok(m) => grep_matcher::Matcher::is_match(&m, line.as_bytes()).unwrap_or(false),
        Err(_) => false,
    }
}

/// Lines that were found so far.
#[derive(Debug)]
pub struct Found {
    pub lines: Vec<(u64, String)>,
    pub cap: usize,
}

impl Found {
    /// Takes a line, and says whether to go on.
    pub fn note(&mut self, number: u64, line: &str) -> (r: bool)
        ensures
            final(self).cap == old(self).cap,
            final(self).lines@.len() == old(self).lines@.len() + 1,
            final(self).lines@.drop_last() == old(self).lines@,
            final(self).lines@.last().0 == number,
            final(self).lines@.last().1@ == line@,
            r == (final(self).lines@.len() < old(self).cap),
    {
        let ghost before = self.lines@;
        self.lines.push((number, line.to_owned()));
        assert(self.lines@.drop_last() =~= before);
        self.lines.len() < self.cap
    }
}

/// Found lines as plain values.
pub open spec fn found_views(v: Seq<(u64, String)>) -> Seq<(u64, Seq<char>)> {
    v.map_values(|x: (u64, String)| (x.0, x.1@))
}

/// Calls `grep_searcher::Searcher::search_reader` with the `UTF8` sink, line
/// numbers and binary detection on, over the bytes of a file. The contract
/// says that the lines depend on the pattern, the case switch, the bytes and
/// the cap alone, that the lines come in the order of the file, each once, so
/// that their numbers grow, and that the search stops once the sink says so,
/// which is when the cap is reached. Which lines these are is left unsaid.
#[verifier::external_body]
fn grep_content(pattern: &str, ignore_case: bool, content: &Vec<u8>, cap: usize) -> (r: (
    Vec<(u64, String)>,
    bool,
))
    requires
        cap > 0,
    ensures
        (found_views(r.0@), r.1) == grep_result(pattern@, ignore_case, content@, cap as nat),
        r.0@.len() <= cap,
        forall|i: int, j: int|
            0 <= i < j < r.0@.len() ==> (#[trigger] r.0@[i]).0 < (#[trigger] r.0@[j]).0,
{
    let mut found = Found { lines: Vec::new(), cap };
    let sink = UTF8(|number, line| Ok(found.note(number, line)));
    let mut builder = SearcherBuilder::new();
    let quit = BinaryDetection::quit(0);
    let mut searcher = builder.line_number(true).binary_detection(quit).build();
    let done = match RegexMatcherBuilder::new().case_insensitive(ignore_case).build(pattern) {
        Ok(m) => searcher.search_reader(&m, content.as_slice(), sink).is_ok(),
        Err(_) => true,
    };
    (found.lines, done)
}

// ---------------------------------------------------------------------------
// Queries
// ---------------------------------------------------------------------------

/// How much to look for before stopping.
#[derive(Debug, Clone, Copy, PartialEq, Eq, Structural)]
pub enum SearchLimit {
    Matches(usize),
    Files { max_files: usize, per_file: usize },
}

/// What to look for.
#[derive(Debug)]
pub struct SearchQuery {
    pub pattern: String,
    pub path: Option<String>,
    pub glob: Option<String>,
    pub ignore_case: bool,
    pub literal: bool,
    pub limit: SearchLimit,
}

/// One matching line.
#[derive(Debug)]
pub struct SearchMatch {
    pub path: String,
    pub line_number: u64,
    pub line: String,
}

/// What a search found.
#[derive(Debug)]
pub struct SearchOutcome {
    pub matches: Vec<SearchMatch>,
    pub limit_reached: bool,
}

/// Why a search failed.
#[derive(Debug)]
pub enum SearchError {
    PathNotFound(String),
    InvalidPattern(String),
    InvalidGlob(String),
    Aborted,
    Io(String),
}

/// A search error in words.
pub open spec fn search_error_text(e: SearchError) -> Seq<char> {
    match e {
        SearchError::PathNotFound(s) => "Path not found: "@ + s@,
        SearchError::InvalidPattern(s) => "Invalid pattern: "@ + s@,
        SearchError::InvalidGlob(s) => "Invalid glob: "@ + s@,
        SearchError::Aborted => "Operation aborted"@,
        SearchError::Io(s) => "Search failed: "@ + s@,
    }
}

impl SearchError {
    /// The error in words.
    pub fn message(&self) -> (r: String)
        ensures
            r@ == search_error_text(*self),
    {
        match self {
            SearchError::PathNotFound(s) => concat2("Path not found: ", s.as_str()),
            SearchError::InvalidPattern(s) => concat2("Invalid pattern: ", s.as_str()),
            SearchError::InvalidGlob(s) => concat2("Invalid glob: ", s.as_str()),
            SearchError::Aborted => "Operation aborted".to_owned(),
            SearchError::Io(s) => concat2("Search failed: ", s.as_str()),
        }
    }
}

/// A text without a prefix that it may have.
pub open spec fn without_prefix(s: Seq<char>, p: Seq<char>) -> Seq<char> {
    if text::has_prefix(s, p) {
        s.skip(p.len() as int)
    } else {
        s
    }
}

/// Where a path of a query leads: one `@` in front of it is dropped, `~`
/// stands for the home directory, and what is not absolute is below the
/// root.
pub open spec fn resolved(path: Seq<char>, root: Seq<char>, home: Option<Seq<char>>) -> Seq<char> {
    let p = without_prefix(path, "@"@);
    if text::has_prefix(p, "~/"@) && home is Some {
        paths::joined(home.unwrap(), p.skip(2))
    } else {
        paths::joined(root, p)
    }
}

/// Finds where a path of a query leads.
pub fn resolve_to_root(path: &str, root: &str, home: Option<String>) -> (r: String)
    ensures
        r@ == resolved(path@, root@, resources::opt(home)),
{
    let all = chars_of(path);
    proof {
        reveal_strlit("@");
        reveal_strlit("~/");
    }
    let from: usize = if starts_with(&all, "@") {
        1
    } else {
        0
    };
    let p = text::slice(&all, from, all.len());
    assert(p@ =~= without_prefix(path@, "@"@));
    if starts_with(&p, "~/") {
        if let Some(h) = home {
            let rest = string_of(&p, 2, p.len());
            assert(rest@ =~= p@.skip(2));
            return paths::join(h.as_str(), rest.as_str());
        }
    }
    let rest = string_of(&p, 0, p.len());
    assert(rest@ =~= p@);
    paths::join(root, rest.as_str())
}

/// Whether a character means something in a pattern.
pub open spec fn is_meta(c: char) -> bool {
    c == '\\' || c == '.' || c == '+' || c == '*' || c == '?' || c == '(' || c == ')' || c == '|'
        || c == '[' || c == ']' || c == '{' || c == '}' || c == '^' || c == '$' || c == '#' || c
        == '&' || c == '-' || c == '~'
}

/// A text with a backslash before every character that means something.
pub open spec fn escaped(s: Seq<char>) -> Seq<char>
    decreases s.len(),
{
    if s.len() == 0 {
        Seq::empty()
    } else if is_meta(s.last()) {
        escaped(s.drop_last()).push('\\').push(s.last())
    } else {
        escaped(s.drop_last()).push(s.last())
    }
}

/// Makes a pattern that matches a text as it is.
pub fn escape_regex(pattern: &str) -> (r: String)
    ensures
        r@ == escaped(pattern@),
{
    let chars = chars_of(pattern);
    let mut out = String::new();
    let mut i: usize = 0;
    while i < chars.len()
        invariant
            i <= chars@.len(),
            out@ == escaped(chars@.take(i as int)),
        decreases chars@.len() - i,
    {
        assert(chars@.take(i + 1).drop_last() =~= chars@.take(i as int));
        let c = chars[i];
        if c == '\\' || c == '.' || c == '+' || c == '*' || c == '?' || c == '(' || c == ')' || c
            == '|' || c == '[' || c == ']' || c == '{' || c == '}' || c == '^' || c == '$' || c
            == '#' || c == '&' || c == '-' || c == '~' {
            out.push('\\');
        }
        out.push(c);
        i += 1;
    }
    assert(chars@.take(chars@.len() as int) =~= chars@);
    out
}

/// The text that an escaped pattern stands for.
pub open spec fn unescaped(s: Seq<char>) -> Seq<char>
    decreases s.len(),
{
    if s.len() == 0 {
        Seq::empty()
    } else if s.len() >= 2 && is_meta(s.last()) && s[s.len() - 2] == '\\' {
        unescaped(s.drop_last().drop_last()).push(s.last())
    } else {
        unescaped(s.drop_last()).push(s.last())
    }
}

/// Escaping loses nothing: the text can be read back from the pattern.
pub proof fn law_escaping_loses_nothing(s: Seq<char>)
    ensures
        unescaped(escaped(s)) == s,
    decreases s.len(),
{
    if s.len() > 0 {
        let t = s.drop_last();
        let c = s.last();
        law_escaping_loses_nothing(t);
        let e = escaped(s);
        if is_meta(c) {
            assert(e.drop_last().drop_last() =~= escaped(t));
        } else {
            assert(e.drop_last() =~= escaped(t));
        }
        assert(unescaped(e) =~= s);
    } else {
        assert(unescaped(escaped(s)) =~= s);
    }
}

/// The pattern that the engine is given.
pub open spec fn engine_pattern(q: SearchQuery) -> Seq<char> {
    if q.literal {
        escaped(q.pattern@)
    } else {
        q.pattern@
    }
}

// ---------------------------------------------------------------------------
// A search
// ---------------------------------------------------------------------------

/// At least one.
pub open spec fn one_or(n: usize) -> usize {
    if n > 1 {
        n
    } else {
        1
    }
}

/// How many matches end a search.
pub open spec fn most_matches(l: SearchLimit) -> usize {
    match l {
        SearchLimit::Matches(n) => one_or(n),
        SearchLimit::Files { .. } => usize::MAX,
    }
}

/// How many files with matches end a search.
pub open spec fn most_files(l: SearchLimit) -> usize {
    match l {
        SearchLimit::Matches(_) => usize::MAX,
        SearchLimit::Files { max_files, .. } => one_or(max_files),
    }
}

/// How many matches of one file are kept.
pub open spec fn most_per_file(l: SearchLimit) -> usize {
    match l {
        SearchLimit::Matches(_) => usize::MAX,
        SearchLimit::Files { per_file, .. } => one_or(per_file),
    }
}

/// The line without its end.
pub open spec fn without_line_end(s: Seq<char>) -> Seq<char>
    decreases s.len(),
{
    if s.len() > 0 && (s.last() == '\r' || s.last() == '\n') {
        without_line_end(s.drop_last())
    } else {
        s
    }
}

fn trim_line_end(s: &str) -> (r: String)
    ensures
        r@ == without_line_end(s@),
{
    let chars = chars_of(s);
    let mut n: usize = chars.len();
    assert(chars@.take(n as int) =~= chars@);
    while n > 0 && (chars[n - 1] == '\r' || chars[n - 1] == '\n')
        invariant
            n <= chars@.len(),
            without_line_end(chars@) == without_line_end(chars@.take(n as int)),
        decreases n,
    {
        assert(chars@.take(n as int).drop_last() =~= chars@.take(n - 1));
        n -= 1;
    }
    let r = string_of(&chars, 0, n);
    assert(r@ =~= chars@.take(n as int));
    r
}

/// A match: path, line number, line.
pub struct MatchView {
    pub path: Seq<char>,
    pub line_number: u64,
    pub line: Seq<char>,
}

impl View for SearchMatch {
    type V = MatchView;

    open spec fn view(&self) -> MatchView {
        MatchView { path: self.path@, line_number: self.line_number, line: self.line@ }
    }
}

/// Views of matches.
pub open spec fn match_views(v: Seq<SearchMatch>) -> Seq<MatchView> {
    v.map_values(|m: SearchMatch| m@)
}

/// A search that runs.
#[derive(Debug)]
pub struct Search {
    pattern: String,
    ignore_case: bool,
    limit: SearchLimit,
    matches: Vec<SearchMatch>,
    count: usize,
    files: usize,
}

/// A search that runs: what is looked for, the matches so far, how many
/// lines were seen, and in how many files.
pub struct SearchView {
    pub pattern: Seq<char>,
    pub ignore_case: bool,
    pub limit: SearchLimit,
    pub matches: Seq<MatchView>,
    pub count: nat,
    pub files: nat,
}

impl View for Search {
    type V = SearchView;

    closed spec fn view(&self) -> SearchView {
        SearchView {
            pattern: self.pattern@,
            ignore_case: self.ignore_case,
            limit: self.limit,
            matches: match_views(self.matches@),
            count: self.count as nat,
            files: self.files as nat,
        }
    }
}

/// Whether a search has all that it may have.
pub open spec fn at_limit(v: SearchView) -> bool {
    v.count >= most_matches(v.limit) || v.files >= most_files(v.limit)
}

/// How many lines the next file may give.
pub open spec fn file_cap(v: SearchView) -> nat {
    let left = (most_matches(v.limit) - v.count) as nat;
    if left < most_per_file(v.limit) {
        left
    } else {
        most_per_file(v.limit) as nat
    }
}

/// The matches of a file.
pub open spec fn file_matches(path: Seq<char>, lines: Seq<(u64, Seq<char>)>) -> Seq<MatchView> {
    Seq::new(
        lines.len(),
        |k: int|
            MatchView { path, line_number: lines[k].0, line: without_line_end(lines[k].1) },
    )
}

/// A sum that stops at the largest machine number.
pub open spec fn capped_sum(a: nat, b: nat) -> nat {
    if a + b <= usize::MAX {
        a + b
    } else {
        usize::MAX as nat
    }
}

/// A search after one more file. The lines of a file that breaks off are
/// seen, but not kept.
pub open spec fn visited(v: SearchView, path: Seq<char>, content: Seq<u8>) -> SearchView {
    if at_limit(v) {
        v
    } else {
        let (lines, ok) = grep_result(v.pattern, v.ignore_case, content, file_cap(v));
        let count = capped_sum(v.count, lines.len());
        if ok && lines.len() > 0 {
            SearchView {
                matches: v.matches + file_matches(path, lines),
                count,
                files: v.files + 1,
                ..v
            }
        } else {
            SearchView { count, ..v }
        }
    }
}

/// Whether matches can be those of one file: of one path, in the order of its
/// lines, no more than a file may give, and without line ends.
pub open spec fn is_block(b: Seq<MatchView>, limit: SearchLimit) -> bool {
    &&& 0 < b.len() <= most_per_file(limit)
    &&& forall|i: int, j: int|
        0 <= i < j < b.len() ==> (#[trigger] b[i]).path == (#[trigger] b[j]).path
            && b[i].line_number < b[j].line_number
    &&& forall|i: int| 0 <= i < b.len() ==> !ends_a_line((#[trigger] b[i]).line)
}

/// Whether a text ends in a line end.
pub open spec fn ends_a_line(s: Seq<char>) -> bool {
    s.len() > 0 && (s.last() == '\r' || s.last() == '\n')
}

/// The matches of the first `n` files, one after the other.
pub open spec fn all_blocks(blocks: Seq<Seq<MatchView>>, n: int) -> Seq<MatchView>
    decreases n,
{
    if n <= 0 {
        Seq::empty()
    } else {
        all_blocks(blocks, n - 1) + blocks[n - 1]
    }
}

/// Whether the matches of a search are those of these files.
pub open spec fn made_of(v: SearchView, blocks: Seq<Seq<MatchView>>) -> bool {
    &&& blocks.len() == v.files
    &&& forall|k: int| 0 <= k < blocks.len() ==> is_block(#[trigger] blocks[k], v.limit)
    &&& v.matches == all_blocks(blocks, blocks.len() as int)
}

/// No more matches than lines were seen, no more lines and files than the
/// limit has room for, and the matches come file by file.
pub open spec fn search_ok(v: SearchView) -> bool {
    &&& v.matches.len() <= v.count <= most_matches(v.limit)
    &&& v.files <= v.matches.len()
    &&& v.files <= most_files(v.limit)
    &&& exists|blocks: Seq<Seq<MatchView>>| made_of(v, blocks)
}

/// The paths of matches.
pub open spec fn paths_of(v: Seq<MatchView>) -> Set<Seq<char>> {
    v.map_values(|m: MatchView| m.path).to_set()
}

proof fn lemma_no_line_end(s: Seq<char>)
    ensures
        !ends_a_line(without_line_end(s)),
    decreases s.len(),
{
    if ends_a_line(s) {
        lemma_no_line_end(s.drop_last());
    }
}

proof fn lemma_all_blocks(a: Seq<Seq<MatchView>>, b: Seq<MatchView>, n: int)
    requires
        0 <= n <= a.len(),
    ensures
        all_blocks(a.push(b), n) == all_blocks(a, n),
    decreases n,
{
    if n > 0 {
        lemma_all_blocks(a, b, n - 1);
    }
}

/// A file of matches keeps a search in order.
proof fn lemma_visited(v: SearchView, path: Seq<char>, lines: Seq<(u64, Seq<char>)>, w: SearchView)
    requires
        search_ok(v),
        0 < lines.len() <= most_per_file(v.limit),
        forall|i: int, j: int|
            0 <= i < j < lines.len() ==> (#[trigger] lines[i]).0 < (#[trigger] lines[j]).0,
        w.limit == v.limit,
        w.files == v.files + 1,
        w.matches == v.matches + file_matches(path, lines),
    ensures
        exists|blocks: Seq<Seq<MatchView>>| made_of(w, blocks),
        is_block(file_matches(path, lines), v.limit),
{
    let blocks = choose|blocks: Seq<Seq<MatchView>>| made_of(v, blocks);
    let b = file_matches(path, lines);
    assert forall|i: int| 0 <= i < b.len() implies !ends_a_line((#[trigger] b[i]).line) by {
        lemma_no_line_end(lines[i].1);
    }
    assert forall|i: int, j: int| 0 <= i < j < b.len() implies (#[trigger] b[i]).path == (
    #[trigger] b[j]).path && b[i].line_number < b[j].line_number by {
        assert(lines[i].0 < lines[j].0);
    }
    let more = blocks.push(b);
    lemma_all_blocks(blocks, b, blocks.len() as int);
    assert(made_of(w, more));
}

/// Where a match stands: in which file, and at which place among its matches.
proof fn lemma_block_of(blocks: Seq<Seq<MatchView>>, n: int, i: int) -> (r: (int, int))
    requires
        0 <= n <= blocks.len(),
        0 <= i < all_blocks(blocks, n).len(),
    ensures
        0 <= r.0 < n,
        0 <= r.1 < blocks[r.0].len(),
        all_blocks(blocks, n)[i] == blocks[r.0][r.1],
        i == all_blocks(blocks, r.0).len() + r.1,
    decreases n,
{
    let before = all_blocks(blocks, n - 1).len() as int;
    if i < before {
        lemma_block_of(blocks, n - 1, i)
    } else {
        (n - 1, i - before)
    }
}

proof fn lemma_blocks_grow(blocks: Seq<Seq<MatchView>>, m: int, n: int)
    requires
        m <= n,
    ensures
        all_blocks(blocks, m).len() <= all_blocks(blocks, n).len(),
    decreases n - m,
{
    if m < n {
        lemma_blocks_grow(blocks, m, n - 1);
    }
}

proof fn lemma_few_paths(v: SearchView, blocks: Seq<Seq<MatchView>>, n: int)
    requires
        made_of(v, blocks),
        0 <= n <= blocks.len(),
    ensures
        paths_of(all_blocks(blocks, n)).finite(),
        paths_of(all_blocks(blocks, n)).len() <= n,
    decreases n,
{
    if n <= 0 {
        assert(paths_of(all_blocks(blocks, n)) =~= Set::empty());
    } else {
        lemma_few_paths(v, blocks, n - 1);
        let a = all_blocks(blocks, n - 1);
        let b = blocks[n - 1];
        let whole = a + b;
        let p = b[0].path;
        let f = |m: MatchView| m.path;
        assert forall|q: Seq<char>|
            paths_of(whole).contains(q) implies paths_of(a).insert(p).contains(q) by {
            let i = choose|i: int| 0 <= i < whole.len() && whole.map_values(f)[i] == q;
            if i < a.len() {
                assert(a.map_values(f)[i] == q);
            } else {
                let j = i - a.len();
                assert(b[j].path == q);
                assert(j > 0 ==> b[0].path == b[j].path);
            }
        }
        assert forall|q: Seq<char>|
            paths_of(a).insert(p).contains(q) implies paths_of(whole).contains(q) by {
            if paths_of(a).contains(q) {
                let i = choose|i: int| 0 <= i < a.len() && a.map_values(f)[i] == q;
                assert(whole.map_values(f)[i] == q);
            } else {
                assert(whole.map_values(f)[a.len() as int] == q);
            }
        }
        assert(paths_of(whole) =~= paths_of(a).insert(p));
    }
}

/// A search keeps to its limits as a whole: it has no more matches than it
/// may have, they are of no more paths than it may have files, and no line
/// has its end. Where no two files have one path, no path has more matches
/// than a file may give, and the line numbers of a path grow. Where the files
/// come in the order of their paths, so do the matches.
pub proof fn law_searches_keep_to_their_limits(
    v: SearchView,
    blocks: Seq<Seq<MatchView>>,
    i: int,
    j: int,
)
    requires
        search_ok(v),
        made_of(v, blocks),
        0 <= i < j < v.matches.len(),
    ensures
        v.matches.len() <= most_matches(v.limit),
        paths_of(v.matches).finite() && paths_of(v.matches).len() <= most_files(v.limit),
        !ends_a_line(v.matches[i].line) && !ends_a_line(v.matches[j].line),
        (forall|a: int, b: int|
            0 <= a < b < blocks.len() ==> (#[trigger] blocks[a])[0].path != (
            #[trigger] blocks[b])[0].path) && v.matches[i].path == v.matches[j].path ==> j - i
            < most_per_file(v.limit) && v.matches[i].line_number < v.matches[j].line_number,
        (forall|a: int, b: int|
            0 <= a < b < blocks.len() ==> paths::path_before(
                (#[trigger] blocks[a])[0].path,
                (#[trigger] blocks[b])[0].path,
            )) ==> v.matches[i].path == v.matches[j].path || paths::path_before(
            v.matches[i].path,
            v.matches[j].path,
        ),
{
    let n = blocks.len() as int;
    lemma_few_paths(v, blocks, n);
    let (a, x) = lemma_block_of(blocks, n, i);
    let (b, y) = lemma_block_of(blocks, n, j);
    assert(is_block(blocks[a], v.limit) && is_block(blocks[b], v.limit));
    assert(blocks[a][x].path == blocks[a][0].path);
    assert(blocks[b][y].path == blocks[b][0].path);
    if a != b {
        if b < a {
            lemma_blocks_grow(blocks, b + 1, a);
        }
        let p = blocks[a][0].path;
        let q = blocks[b][0].path;
    } else {
        assert(x < y);
        assert(blocks[a][x].line_number < blocks[a][y].line_number);
    }
}

/// What is wrong with the glob of a query, if it has one.
pub open spec fn query_glob_error(query: SearchQuery, place: Seq<char>) -> Option<Seq<char>> {
    match query.glob {
        Some(g) => glob_error(place, g@),
        None => None,
    }
}

/// Whether a search went on by one file at most: what it had is still there,
/// and what came is of this path, in the order of its lines, no more than a
/// file may give.
pub open spec fn adds_one_file(v: SearchView, w: SearchView, path: Seq<char>) -> bool {
    let had = v.matches.len() as int;
    let more = w.matches.len() as int;
    &&& had <= more <= had + most_per_file(v.limit)
    &&& w.matches.take(had) == v.matches
    &&& forall|i: int| had <= i < more ==> (#[trigger] w.matches[i]).path == path
    &&& forall|i: int, j: int|
        had <= i < j < more ==> (#[trigger] w.matches[i]).line_number < (
        #[trigger] w.matches[j]).line_number
}

impl Search {
    /// Starts a search, given the place that the query leads to and whether
    /// it exists.
    pub fn start(query: &SearchQuery, place: &str, exists: bool) -> (r: Result<Search, SearchError>)
        ensures
            match r {
                Ok(s) => exists && regex_error(engine_pattern(*query), query.ignore_case) is None
                    && query_glob_error(*query, place@) is None && s@ == (SearchView {
                    pattern: engine_pattern(*query),
                    ignore_case: query.ignore_case,
                    limit: query.limit,
                    matches: Seq::empty(),
                    count: 0,
                    files: 0,
                }) && search_ok(s@),
                Err(SearchError::PathNotFound(p)) => !exists && p@ == place@,
                Err(SearchError::InvalidPattern(e)) => exists && regex_error(
                    engine_pattern(*query),
                    query.ignore_case,
                ) == Some(e@),
                Err(SearchError::InvalidGlob(e)) => exists && regex_error(
                    engine_pattern(*query),
                    query.ignore_case,
                ) is None && query_glob_error(*query, place@) == Some(e@),
                Err(_) => false,
            },
    {
        if !exists {
            return Err(SearchError::PathNotFound(place.to_owned()));
        }
        let pattern = if query.literal {
            escape_regex(query.pattern.as_str())
        } else {
            query.pattern.clone()
        };
        if let Some(e) = pattern_error(pattern.as_str(), query.ignore_case) {
            return Err(SearchError::InvalidPattern(e));
        }
        if let Some(glob) = &query.glob {
            if let Some(e) = glob_refusal(place, glob.as_str()) {
                return Err(SearchError::InvalidGlob(e));
            }
        }
        let s = Search {
            pattern,
            ignore_case: query.ignore_case,
            limit: query.limit,
            matches: Vec::new(),
            count: 0,
            files: 0,
        };
        assert(s@.matches =~= Seq::empty());
        assert(made_of(s@, Seq::empty()));
        Ok(s)
    }

    fn max_matches(&self) -> (r: usize)
        ensures
            r == most_matches(self@.limit),
            r > 0,
    {
        match self.limit {
            SearchLimit::Matches(n) => if n > 1 {
                n
            } else {
                1
            },
            SearchLimit::Files { .. } => usize::MAX,
        }
    }

    fn max_files(&self) -> (r: usize)
        ensures
            r == most_files(self@.limit),
    {
        match self.limit {
            SearchLimit::Matches(_) => usize::MAX,
            SearchLimit::Files { max_files, .. } => if max_files > 1 {
                max_files
            } else {
                1
            },
        }
    }

    fn per_file(&self) -> (r: usize)
        ensures
            r == most_per_file(self@.limit),
            r > 0,
    {
        match self.limit {
            SearchLimit::Matches(_) => usize::MAX,
            SearchLimit::Files { per_file, .. } => if per_file > 1 {
                per_file
            } else {
                1
            },
        }
    }

    /// Whether to look at another file. An aborted search is an error.
    pub fn wants_more(&self, cancelled: bool) -> (r: Result<bool, SearchError>)
        ensures
            match r {
                Ok(more) => !cancelled && more == !at_limit(self@),
                Err(e) => cancelled && e is Aborted,
            },
    {
        if cancelled {
            return Err(SearchError::Aborted);
        }
        Ok(!(self.count >= self.max_matches() || self.files >= self.max_files()))
    }

    /// Looks through a file. At the limit nothing is looked at.
    pub fn visit(&mut self, path: &str, content: &Vec<u8>)
        requires
            search_ok(old(self)@),
        ensures
            final(self)@ == visited(old(self)@, path@, content@),
            search_ok(final(self)@),
            adds_one_file(old(self)@, final(self)@, path@),
    {
        let ghost before = self@;
        let most: usize = self.max_matches();
        assert(before.matches.take(before.matches.len() as int) =~= before.matches);
        if self.count >= most || self.files >= self.max_files() {
            return;
        }
        let left: usize = most - self.count;
        let per: usize = self.per_file();
        let cap: usize = if left < per {
            left
        } else {
            per
        };
        let (lines, ok) = grep_content(self.pattern.as_str(), self.ignore_case, content, cap);
        let ghost found = found_views(lines@);
        let n: usize = lines.len();
        self.count = self.count + n;
        if !ok || n == 0 {
            proof {
                let blocks = choose|blocks: Seq<Seq<MatchView>>| made_of(before, blocks);
                assert(made_of(self@, blocks));
            }
            return;
        }
        let ghost kept = self.matches@;
        let mut k: usize = 0;
        assert(match_views(self.matches@) =~= before.matches + file_matches(path@, found).take(0));
        while k < n
            invariant
                k <= n == lines@.len(),
                found == found_views(lines@),
                self.pattern@ == before.pattern,
                self.ignore_case == before.ignore_case,
                self.limit == before.limit,
                self.files == before.files,
                self.count == before.count + n,
                match_views(self.matches@) == before.matches + file_matches(path@, found).take(
                    k as int,
                ),
            decreases n - k,
        {
            let ghost had = self.matches@;
            let line = trim_line_end(lines[k].1.as_str());
            self.matches.push(
                SearchMatch { path: path.to_owned(), line_number: lines[k].0, line },
            );
            proof {
                assert(found[k as int] == (lines@[k as int].0, lines@[k as int].1@));
                assert(match_views(self.matches@) =~= match_views(had).push(
                    file_matches(path@, found)[k as int],
                ));
                assert(file_matches(path@, found).take(k + 1) =~= file_matches(path@, found).take(
                    k as int,
                ).push(file_matches(path@, found)[k as int]));
                assert(match_views(self.matches@) =~= before.matches + file_matches(
                    path@,
                    found,
                ).take(k + 1));
            }
            k += 1;
        }
        assert(file_matches(path@, found).take(n as int) =~= file_matches(path@, found));
        assert(before.files <= before.matches.len());
        self.files = self.files + 1;
        proof {
            assert forall|i: int, j: int| 0 <= i < j < found.len() implies (#[trigger] found[i]).0
                < (#[trigger] found[j]).0 by {
                assert(lines@[i].0 < lines@[j].0);
            }
            lemma_visited(before, path@, found, self@);
            let b = file_matches(path@, found);
            assert(self@.matches.take(before.matches.len() as int) =~= before.matches);
            let had = before.matches.len() as int;
            assert forall|i: int, j: int| had <= i < j < self@.matches.len() implies (
            #[trigger] self@.matches[i]).line_number < (#[trigger] self@.matches[j]).line_number by {
                assert(self@.matches[i] == b[i - had] && self@.matches[j] == b[j - had]);
            }
        }
    }

    /// What the search found. A search that reached its limit says so.
    pub fn finish(self) -> (r: SearchOutcome)
        requires
            search_ok(self@),
        ensures
            match_views(r.matches@) == self@.matches,
            r.limit_reached == at_limit(self@),
            r.matches@.len() <= most_matches(self@.limit),
            paths_of(match_views(r.matches@)).finite(),
            paths_of(match_views(r.matches@)).len() <= most_files(self@.limit),
    {
        proof {
            let blocks = choose|blocks: Seq<Seq<MatchView>>| made_of(self@, blocks);
            lemma_few_paths(self@, blocks, blocks.len() as int);
        }
        let limit_reached = self.count >= self.max_matches() || self.files >= self.max_files();
        assert(self@.matches.len() == self.matches@.len());
        SearchOutcome { matches: self.matches, limit_reached }
    }
}

/// Where code is searched.
#[derive(Debug)]
pub struct GrepSearch {
    root: String,
}

/// Where code is searched.
impl View for GrepSearch {
    type V = Seq<char>;

    closed spec fn view(&self) -> Seq<char> {
        self.root@
    }
}

impl GrepSearch {
    /// Searches below a directory.
    pub fn new(root: &str) -> (r: GrepSearch)
        ensures
            r@ == root@,
    {
        GrepSearch { root: root.to_owned() }
    }

    /// Where a query looks: at its path, or at the root.
    pub fn place(&self, query: &SearchQuery, home: Option<String>) -> (r: String)
        ensures
            r@ == resolved(
                match query.path {
                    Some(p) => p@,
                    None => "."@,
                },
                self@,
                resources::opt(home),
            ),
    {
        match &query.path {
            Some(p) => resolve_to_root(p.as_str(), self.root.as_str(), home),
            None => resolve_to_root(".", self.root.as_str(), home),
        }
    }
}

/// A search at its limit stays as it is, whatever file comes next.
pub proof fn law_limits_stop_a_search(v: SearchView, path: Seq<char>, content: Seq<u8>)
    requires
        at_limit(v),
    ensures
        visited(v, path, content) == v,
{
}

/// The characters that mean something in a pattern.
pub open spec fn meta_characters() -> Seq<char> {
    seq![
        '\\',
        '.',
        '+',
        '*',
        '?',
        '(',
        ')',
        '|',
        '[',
        ']',
        '{',
        '}',
        '^',
        '$',
        '#',
        '&',
        '-',
        '~',
    ]
}

/// A pattern is escaped character by character: one that means something
/// gets a backslash in front, and any other stands as it is.
pub proof fn law_escaping_goes_by_the_character(a: Seq<char>, b: Seq<char>, c: char)
    ensures
        escaped(a + b) == escaped(a) + escaped(b),
        meta_characters().contains(c) ==> escaped(seq![c]) == seq!['\\', c],
        !meta_characters().contains(c) ==> escaped(seq![c]) == seq![c],
        escaped(Seq::empty()) == Seq::<char>::empty(),
    decreases b.len(),
{
    if b.len() == 0 {
        assert(a + b =~= a);
        assert(escaped(a) + escaped(b) =~= escaped(a));
    } else {
        law_escaping_goes_by_the_character(a, b.drop_last(), c);
        assert((a + b).drop_last() =~= a + b.drop_last());
        assert((a + b).last() == b.last());
        assert(escaped(a + b) =~= escaped(a) + escaped(b));
    }
    let one = seq![c];
    assert(one.drop_last() =~= Seq::empty());
    assert(escaped(one.drop_last()) =~= Seq::empty());
    let m = meta_characters();
    assert(m.contains(c) == is_meta(c)) by {
        if is_meta(c) {
            assert(m[0] == '\\' && m[1] == '.' && m[2] == '+' && m[3] == '*' && m[4] == '?' && m[5]
                == '(' && m[6] == ')' && m[7] == '|' && m[8] == '[' && m[9] == ']' && m[10] == '{'
                && m[11] == '}' && m[12] == '^' && m[13] == '$' && m[14] == '#' && m[15] == '&'
                && m[16] == '-' && m[17] == '~');
        }
    }
    if is_meta(c) {
        assert(escaped(one) =~= seq!['\\', c]);
    } else {
        assert(escaped(one) =~= seq![c]);
    }
}

/// A literal query is looked for as it is, and any other one as a pattern.
pub proof fn law_literal_queries_are_escaped(q: SearchQuery)
    ensures
        q.literal ==> unescaped(engine_pattern(q)) == q.pattern@ && engine_pattern(q) == escaped(
            q.pattern@,
        ),
        !q.literal ==> engine_pattern(q) == q.pattern@,
{
    law_escaping_loses_nothing(q.pattern@);
}

/// A limit of nothing is a limit of one, and every other limit is what it
/// says; what is not limited has no limit but the machine's.
pub proof fn law_limits_are_at_least_one(n: usize, files: usize, per_file: usize)
    ensures
        most_matches(SearchLimit::Matches(n)) == (if n == 0 {
            1
        } else {
            n
        }),
        most_files(SearchLimit::Matches(n)) == usize::MAX,
        most_per_file(SearchLimit::Matches(n)) == usize::MAX,
        most_matches(SearchLimit::Files { max_files: files, per_file }) == usize::MAX,
        most_files(SearchLimit::Files { max_files: files, per_file }) == (if files == 0 {
            1
        } else {
            files
        }),
        most_per_file(SearchLimit::Files { max_files: files, per_file }) == (if per_file == 0 {
            1
        } else {
            per_file
        }),
{
}

/// A line loses its end and nothing else: what is taken off is line ends,
/// and what stays does not end in one.
pub proof fn law_lines_lose_their_ends_only(s: Seq<char>)
    ensures
        without_line_end(s).len() <= s.len(),
        s.take(without_line_end(s).len() as int) == without_line_end(s),
        forall|k: int|
            without_line_end(s).len() <= k < s.len() ==> (#[trigger] s[k]) == '\r' || s[k] == '\n',
        without_line_end(s).len() > 0 ==> without_line_end(s).last() != '\r' && without_line_end(
            s,
        ).last() != '\n',
    decreases s.len(),
{
    if s.len() > 0 && (s.last() == '\r' || s.last() == '\n') {
        let t = s.drop_last();
        law_lines_lose_their_ends_only(t);
        assert(s.take(without_line_end(s).len() as int) =~= t.take(
            without_line_end(s).len() as int,
        ));
        assert forall|k: int| without_line_end(s).len() <= k < s.len() implies (#[trigger] s[k])
            == '\r' || s[k] == '\n' by {
            if k < t.len() {
                assert(t[k] == s[k]);
            }
        }
    } else {
        assert(s.take(s.len() as int) =~= s);
    }
}

/// Every line that the engine finds in a file becomes a match of that file:
/// its path, the number of the line and the line without its end, in order,
/// behind what was found before.
pub proof fn law_every_line_found_is_a_match(
    v: SearchView,
    path: Seq<char>,
    content: Seq<u8>,
    lines: Seq<(u64, Seq<char>)>,
    k: int,
)
    requires
        v.count < most_matches(v.limit),
        v.files < most_files(v.limit),
        grep_result(v.pattern, v.ignore_case, content, file_cap(v)) == (lines, true),
        0 <= k < lines.len(),
    ensures
        ({
            let w = visited(v, path, content);
            let had = v.matches.len() as int;
            &&& w.matches.len() == had + lines.len()
            &&& w.matches.take(had) == v.matches
            &&& w.matches[had + k].path == path
            &&& w.matches[had + k].line_number == lines[k].0
            &&& w.matches[had + k].line == without_line_end(lines[k].1)
            &&& w.files == v.files + 1
            &&& v.count + lines.len() <= usize::MAX ==> w.count == v.count + lines.len()
        }),
{
    let w = visited(v, path, content);
    assert(w.matches.take(v.matches.len() as int) =~= v.matches);
}

/// A file is searched for as many lines as are still wanted, and no more
/// than one file may give.
pub proof fn law_files_give_what_is_wanted(v: SearchView)
    requires
        v.count < most_matches(v.limit),
    ensures
        file_cap(v) <= most_per_file(v.limit),
        v.count + file_cap(v) <= most_matches(v.limit),
        file_cap(v) == most_per_file(v.limit) || v.count + file_cap(v) == most_matches(v.limit),
        file_cap(v) > 0,
{
}

/// A file without matches, or one that breaks off, adds none.
pub proof fn law_files_without_matches_add_nothing(
    v: SearchView,
    path: Seq<char>,
    content: Seq<u8>,
)
    requires
        ({
            let r = grep_result(v.pattern, v.ignore_case, content, file_cap(v));
            r.0.len() == 0 || !r.1
        }),
    ensures
        visited(v, path, content).matches == v.matches,
        visited(v, path, content).files == v.files,
        grep_result(v.pattern, v.ignore_case, content, file_cap(v)).0.len() == 0 && v.count
            <= usize::MAX ==> visited(v, path, content) == v,
{
}

/// One at sign in front of a path is dropped, and a tilde stands for the
/// home directory; everything else is below the root, unless it is absolute.
pub proof fn law_paths_lead_where_they_say(p: Seq<char>, root: Seq<char>, home: Seq<char>)
    ensures
        resolved(seq!['@'] + p, root, Some(home)) == (if text::has_prefix(p, "~/"@) {
            paths::joined(home, p.skip(2))
        } else {
            paths::joined(root, p)
        }),
        (p.len() == 0 || p[0] != '@') ==> resolved(p, root, Some(home)) == resolved(
            seq!['@'] + p,
            root,
            Some(home),
        ),
        resolved(seq!['~', '/'] + p, root, Some(home)) == paths::joined(home, p),
        resolved(seq!['~', '/'] + p, root, None) == paths::joined(root, seq!['~', '/'] + p),
{
    reveal_strlit("@");
    reveal_strlit("~/");
    let a = seq!['@'] + p;
    assert(a.take(1) =~= "@"@);
    assert(a.skip(1) =~= p);
    if p.len() == 0 || p[0] != '@' {
        if text::has_prefix(p, "@"@) {
            assert(p.take(1)[0] == p[0]);
        }
    }
    let t = seq!['~', '/'] + p;
    assert(t.take(2) =~= "~/"@);
    assert(t.skip(2) =~= p);
    if text::has_prefix(t, "@"@) {
        assert(t.take(1)[0] == t[0]);
    }
}

} // verus!
