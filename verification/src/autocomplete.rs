//! Completion: the state machine behind the popup above the input.
//!
//! The popup completes file references (`@path`), commands (`/name`) and the
//! arguments of commands. It opens while something is typed that can be
//! completed, narrows with every keystroke and closes when the cursor leaves.
//! Files are listed once per directory prefix; accepting a directory keeps
//! completing inside it.
use vstd::prelude::*;

use crate::fuzzy::rank_keys;
use crate::text::{chars_of, is_space, slice, string_of, to_text};
use crate::{fuzzy, resources, text};

verus! {

/// How many entries one listing of files holds at most.
pub const WALK_CAP: usize = 1000;

/// How many rows the popup shows.
pub const MAX_VISIBLE: usize = 8;

// ---------------------------------------------------------------------------
// Tokens
// ---------------------------------------------------------------------------

/// A file reference being typed: where its `@` stands, what follows it up to
/// the cursor, and whether it was opened with a quote.
#[derive(Debug, PartialEq, Eq)]
pub struct FileToken {
    pub start: usize,
    pub query: String,
    pub quoted: bool,
}

/// A file reference being typed.
pub struct FileTokenView {
    pub start: int,
    pub query: Seq<char>,
    pub quoted: bool,
}

impl View for FileToken {
    type V = FileTokenView;

    open spec fn view(&self) -> FileTokenView {
        FileTokenView { start: self.start as int, query: self.query@, quoted: self.quoted }
    }
}

/// Whether an `@` at `at` starts a token: at the start of the text, or right
/// behind white space.
pub open spec fn starts_token(s: Seq<char>, at: int) -> bool {
    s[at] == '@' && (at == 0 || text::is_white_space(s[at - 1]))
}

/// The text from `from` to `to`, where that is a range.
pub open spec fn part(s: Seq<char>, from: int, to: int) -> Seq<char> {
    if from <= to {
        s.subrange(from, to)
    } else {
        Seq::empty()
    }
}

/// Whether a token is still open: a quoted one until its closing quote, any
/// other one until white space or a quote.
pub open spec fn still_open(query: Seq<char>, quoted: bool) -> bool {
    forall|k: int|
        0 <= k < query.len() ==> (#[trigger] query[k]) != '"' && (quoted || !text::is_white_space(
            query[k],
        ))
}

/// The token that starts at `at`, if one does and it is still open at `end`.
pub open spec fn open_token(s: Seq<char>, at: int, end: int) -> Option<FileTokenView> {
    let quoted = at + 1 < s.len() && s[at + 1] == '"';
    let query = part(
        s,
        if quoted {
            at + 2
        } else {
            at + 1
        },
        end,
    );
    if starts_token(s, at) && still_open(query, quoted) {
        Some(FileTokenView { start: at, query, quoted })
    } else {
        None
    }
}

/// Of the tokens that start before `n` the last one that is still open at
/// `end`.
pub open spec fn nearest_token(s: Seq<char>, n: int, end: int) -> Option<FileTokenView>
    decreases n,
{
    if n <= 0 {
        None
    } else {
        match open_token(s, n - 1, end) {
            Some(t) => Some(t),
            None => nearest_token(s, n - 1, end),
        }
    }
}

/// The file reference that the cursor is in: the nearest one that is still
/// open.
pub open spec fn file_token(s: Seq<char>, cursor: int) -> Option<FileTokenView> {
    let end = if cursor < s.len() {
        cursor
    } else {
        s.len() as int
    };
    nearest_token(s, end, end)
}

/// The view of an optional token.
pub open spec fn opt_token(o: Option<FileToken>) -> Option<FileTokenView> {
    match o {
        Some(t) => Some(t@),
        None => None,
    }
}

fn check_token(chars: &Vec<char>, at: usize, end: usize) -> (r: Option<FileToken>)
    requires
        at < end <= chars@.len(),
    ensures
        opt_token(r) == open_token(chars@, at as int, end as int),
{
    let n: usize = chars.len();
    if chars[at] != '@' || (at > 0 && !is_space(chars[at - 1])) {
        return None;
    }
    let quoted = at + 1 < n && chars[at + 1] == '"';
    let from: usize = if quoted {
        if end - at >= 2 {
            at + 2
        } else {
            end
        }
    } else {
        at + 1
    };
    let query = slice(chars, from, end);
    assert(query@ =~= part(
        chars@,
        if quoted {
            at + 2
        } else {
            at + 1
        },
        end as int,
    ));
    let mut k: usize = 0;
    while k < query.len()
        invariant
            k <= query@.len(),
            forall|j: int|
                0 <= j < k ==> (#[trigger] query@[j]) != '"' && (quoted || !text::is_white_space(
                    query@[j],
                )),
            open_token(chars@, at as int, end as int) == (if still_open(query@, quoted) {
                Some(FileTokenView { start: at as int, query: query@, quoted })
            } else {
                None
            }),
        decreases query@.len() - k,
    {
        if query[k] == '"' || (!quoted && is_space(query[k])) {
            assert(!still_open(query@, quoted)) by {
                let bad = query@[k as int];
            }
            return None;
        }
        k += 1;
    }
    Some(FileToken { start: at, query: to_text(&query), quoted })
}

/// Finds the file reference that the cursor is in. Every `@` before the
/// cursor is examined, the nearest first: a quoted reference may hold spaces,
/// and stays open until its closing quote.
pub fn file_token_at_cursor(s: &str, cursor: usize) -> (r: Option<FileToken>)
    ensures
        opt_token(r) == file_token(s@, cursor as int),
{
    let chars = chars_of(s);
    let end: usize = if cursor < chars.len() {
        cursor
    } else {
        chars.len()
    };
    let mut n: usize = end;
    while n > 0
        invariant
            n <= end <= chars@.len(),
            chars@ == s@,
            file_token(s@, cursor as int) == nearest_token(s@, end as int, end as int),
            nearest_token(chars@, end as int, end as int) == nearest_token(
                chars@,
                n as int,
                end as int,
            ),
        decreases n,
    {
        n -= 1;
        if let Some(t) = check_token(&chars, n, end) {
            return Some(t);
        }
    }
    None
}

proof fn lemma_nearest_token(s: Seq<char>, n: int, end: int)
    ensures
        match nearest_token(s, n, end) {
            Some(t) => 0 <= t.start < n && open_token(s, t.start, end) == Some(t) && forall|k: int|
                t.start < k < n ==> #[trigger] open_token(s, k, end) is None,
            None => forall|k: int| 0 <= k < n ==> #[trigger] open_token(s, k, end) is None,
        },
    decreases n,
{
    if n > 0 && open_token(s, n - 1, end) is None {
        lemma_nearest_token(s, n - 1, end);
    }
}

/// A token starts a word, is still open at the cursor, and no token behind
/// it is. There is none only where no token is open.
pub proof fn law_tokens_start_words(s: Seq<char>, cursor: int, k: int)
    requires
        0 <= cursor <= s.len(),
        0 <= k < cursor,
    ensures
        match file_token(s, cursor) {
            Some(t) => {
                &&& 0 <= t.start < cursor
                &&& starts_token(s, t.start)
                &&& still_open(t.query, t.quoted)
                &&& open_token(s, t.start, cursor) == Some(t)
                &&& k > t.start ==> open_token(s, k, cursor) is None
            },
            None => open_token(s, k, cursor) is None,
        },
{
    lemma_nearest_token(s, cursor, cursor);
}

/// What is being completed.
#[derive(Debug)]
pub enum Source {
    /// Files below a directory prefix.
    Files { prefix: String },
    /// The commands.
    Commands,
    /// The arguments of a command.
    Arguments { command: String },
}

/// What is being completed.
pub enum SourceView {
    Files(Seq<char>),
    Commands,
    Arguments(Seq<char>),
}

impl View for Source {
    type V = SourceView;

    open spec fn view(&self) -> SourceView {
        match self {
            Source::Files { prefix } => SourceView::Files(prefix@),
            Source::Commands => SourceView::Commands,
            Source::Arguments { command } => SourceView::Arguments(command@),
        }
    }
}

/// What is being typed: where it starts, the text to match, whether it is
/// quoted, and what it is completed from.
pub struct TokenView {
    pub start: int,
    pub query: Seq<char>,
    pub quoted: bool,
    pub source: SourceView,
}

/// The directory part of a query: everything up to its last slash.
pub open spec fn directory_of(query: Seq<char>, n: int) -> Seq<char>
    decreases n,
{
    if n <= 0 {
        Seq::empty()
    } else if query[n - 1] == '/' {
        query.take(n)
    } else {
        directory_of(query, n - 1)
    }
}

/// The argument candidates of a command, if it has any.
pub open spec fn argument_index(
    args: Seq<(Seq<char>, Seq<CandidateView>)>,
    command: Seq<char>,
    from: int,
) -> Option<int>
    decreases args.len() - from,
{
    if from >= args.len() {
        None
    } else if args[from].0 == command {
        Some(from)
    } else {
        argument_index(args, command, from + 1)
    }
}

/// The command or command argument that the cursor is in: the first word of
/// a text that starts with a slash, or the second one if its command has
/// candidates for it.
pub open spec fn command_token(
    s: Seq<char>,
    cursor: int,
    args: Seq<(Seq<char>, Seq<CandidateView>)>,
) -> Option<TokenView> {
    let end = if cursor < s.len() {
        cursor
    } else {
        s.len() as int
    };
    let typed = s.take(end);
    if end >= 1 && s[0] == '/' {
        let space = text::find_space(typed, 1);
        if space >= end {
            Some(
                TokenView {
                    start: 0,
                    query: typed.skip(1),
                    quoted: false,
                    source: SourceView::Commands,
                },
            )
        } else {
            let command = typed.subrange(1, space);
            if argument_index(args, command, 0) is Some && text::find_space(typed, space + 1)
                >= end {
                Some(
                    TokenView {
                        start: space + 1,
                        query: typed.skip(space + 1),
                        quoted: false,
                        source: SourceView::Arguments(command),
                    },
                )
            } else {
                None
            }
        }
    } else {
        None
    }
}

/// What the cursor is in: a file reference goes before a command.
pub open spec fn token_of(
    s: Seq<char>,
    cursor: int,
    args: Seq<(Seq<char>, Seq<CandidateView>)>,
) -> Option<TokenView> {
    match file_token(s, cursor) {
        Some(t) => Some(
            TokenView {
                start: t.start,
                query: t.query,
                quoted: t.quoted,
                source: SourceView::Files(directory_of(t.query, t.query.len() as int)),
            },
        ),
        None => command_token(s, cursor, args),
    }
}

// ---------------------------------------------------------------------------
// Candidates
// ---------------------------------------------------------------------------

/// One entry that can be completed: what the popup shows, what is inserted
/// and matched, and whether it is a directory (these end in a slash).
#[derive(Debug)]
pub struct Candidate {
    pub display: String,
    pub value: String,
    pub is_dir: bool,
}

/// One entry that can be completed.
pub struct CandidateView {
    pub display: Seq<char>,
    pub value: Seq<char>,
    pub is_dir: bool,
}

impl View for Candidate {
    type V = CandidateView;

    open spec fn view(&self) -> CandidateView {
        CandidateView { display: self.display@, value: self.value@, is_dir: self.is_dir }
    }
}

/// Views of candidates.
pub open spec fn candidate_views(v: Seq<Candidate>) -> Seq<CandidateView> {
    v.map_values(|c: Candidate| c@)
}

/// The texts that candidates are matched by.
pub open spec fn values_of(v: Seq<CandidateView>) -> Seq<Seq<char>> {
    v.map_values(|c: CandidateView| c.value)
}

/// The entry for a file or a directory.
pub open spec fn file_row(prefix: Seq<char>, relative: Seq<char>, is_dir: bool) -> CandidateView {
    let path = if is_dir {
        prefix + relative + "/"@
    } else {
        prefix + relative
    };
    CandidateView { display: path, value: path, is_dir }
}

/// The entry for a file or a directory: the path relative to the project,
/// with a slash at the end of a directory.
pub fn file_candidate(prefix: &str, relative: &str, is_dir: bool) -> (r: Candidate)
    ensures
        r@ == file_row(prefix@, relative@, is_dir),
{
    let mut display = text::concat2(prefix, relative);
    if is_dir {
        display.push_str("/");
    }
    let value = display.clone();
    Candidate { display, value, is_dir }
}

/// The entries for the first `n` things that a walk found, at most `cap` of
/// them. The place where the walk started is not one of them.
pub open spec fn listed(prefix: Seq<char>, found: Seq<(String, bool)>, cap: nat, n: int) -> Seq<
    CandidateView,
>
    decreases n,
{
    if n <= 0 {
        Seq::empty()
    } else {
        let before = listed(prefix, found, cap, n - 1);
        if before.len() >= cap || found[n - 1].0@.len() == 0 {
            before
        } else {
            before.push(file_row(prefix, found[n - 1].0@, found[n - 1].1))
        }
    }
}

/// Lists what a walk found as candidates, at most `cap` of them. Paths are
/// relative to where the walk started, which is `prefix` below the project;
/// what is shown is relative to the project.
pub fn list_candidates(prefix: &str, found: &Vec<(String, bool)>, cap: usize) -> (r: Vec<Candidate>)
    ensures
        candidate_views(r@) == listed(prefix@, found@, cap as nat, found@.len() as int),
        r@.len() <= cap,
{
    let mut out: Vec<Candidate> = Vec::new();
    let mut i: usize = 0;
    assert(candidate_views(out@) =~= listed(prefix@, found@, cap as nat, 0));
    while i < found.len()
        invariant
            i <= found@.len(),
            out@.len() <= cap,
            candidate_views(out@) == listed(prefix@, found@, cap as nat, i as int),
        decreases found@.len() - i,
    {
        let ghost before = candidate_views(out@);
        assert(before.len() == out@.len());
        if out.len() < cap && !found[i].0.as_str().is_empty() {
            let c = file_candidate(prefix, found[i].0.as_str(), found[i].1);
            out.push(c);
            assert(candidate_views(out@) =~= before.push(c@));
        }
        i += 1;
    }
    out
}

fn copy_candidate(c: &Candidate) -> (r: Candidate)
    ensures
        r@ == c@,
{
    Candidate { display: c.display.clone(), value: c.value.clone(), is_dir: c.is_dir }
}

/// What accepting a row does to the input: which characters it replaces, by
/// what, and whether completion goes on inside a directory.
#[derive(Debug, PartialEq, Eq)]
pub struct Completion {
    pub start: usize,
    pub end: usize,
    pub insert: String,
    pub is_dir: bool,
}

// ---------------------------------------------------------------------------
// The popup
// ---------------------------------------------------------------------------

#[derive(Debug)]
struct Session {
    start: usize,
    query: String,
    quoted: bool,
    source: Source,
    candidates: Vec<Candidate>,
    matches: Vec<Candidate>,
    selected: usize,
}

/// An open popup.
pub struct SessionView {
    pub token: TokenView,
    pub candidates: Seq<CandidateView>,
    pub matches: Seq<CandidateView>,
    pub selected: int,
}

impl View for Session {
    type V = SessionView;

    closed spec fn view(&self) -> SessionView {
        SessionView {
            token: TokenView {
                start: self.start as int,
                query: self.query@,
                quoted: self.quoted,
                source: self.source@,
            },
            candidates: candidate_views(self.candidates@),
            matches: candidate_views(self.matches@),
            selected: self.selected as int,
        }
    }
}

/// The completion popup.
#[derive(Debug)]
pub struct Autocomplete {
    root: String,
    commands: Vec<Candidate>,
    arguments: Vec<(String, Vec<Candidate>)>,
    session: Option<Session>,
}

/// The completion popup.
pub struct AutocompleteView {
    pub root: Seq<char>,
    pub commands: Seq<CandidateView>,
    pub arguments: Seq<(Seq<char>, Seq<CandidateView>)>,
    pub session: Option<SessionView>,
}

/// Views of argument tables.
pub open spec fn argument_views(v: Seq<(String, Vec<Candidate>)>) -> Seq<
    (Seq<char>, Seq<CandidateView>),
> {
    v.map_values(|a: (String, Vec<Candidate>)| (a.0@, candidate_views(a.1@)))
}

impl View for Autocomplete {
    type V = AutocompleteView;

    closed spec fn view(&self) -> AutocompleteView {
        AutocompleteView {
            root: self.root@,
            commands: candidate_views(self.commands@),
            arguments: argument_views(self.arguments@),
            session: match self.session {
                Some(s) => Some(s@),
                None => None,
            },
        }
    }
}

/// Whether the files below a directory have to be listed for a token: the
/// popup is not open yet, or it shows something else.
pub open spec fn needs_source(session: Option<SessionView>, t: TokenView) -> bool {
    match session {
        Some(s) => s.token.source != t.source,
        None => true,
    }
}

/// The candidates for a token: what is there already, the files that were
/// listed, or one of the tables.
pub open spec fn candidates_for(
    v: AutocompleteView,
    t: TokenView,
    walked: Seq<CandidateView>,
) -> Seq<CandidateView> {
    if needs_source(v.session, t) {
        match t.source {
            SourceView::Files(_) => walked,
            SourceView::Commands => v.commands,
            SourceView::Arguments(command) => match argument_index(v.arguments, command, 0) {
                Some(i) => v.arguments[i].1,
                None => Seq::empty(),
            },
        }
    } else {
        v.session.unwrap().candidates
    }
}

/// The best matches, as many as the popup shows.
pub open spec fn best_matches(query: Seq<char>, candidates: Seq<CandidateView>) -> Seq<
    CandidateView,
> {
    let order = fuzzy::filtered(query, values_of(candidates));
    let n = if order.len() < MAX_VISIBLE {
        order.len()
    } else {
        MAX_VISIBLE as nat
    };
    Seq::new(n, |i: int| candidates[order[i]])
}

/// The last row, or zero.
pub open spec fn last_row(n: nat) -> int {
    if n > 0 {
        n - 1
    } else {
        0
    }
}

/// The popup after the input has changed. `walked` is the listing of the
/// files that `wanted_walk` asked for.
pub open spec fn refreshed(
    v: AutocompleteView,
    s: Seq<char>,
    cursor: int,
    walked: Seq<CandidateView>,
) -> AutocompleteView {
    match token_of(s, cursor, v.arguments) {
        None => AutocompleteView { session: None, ..v },
        Some(t) => {
            let candidates = candidates_for(v, t, walked);
            let matches = best_matches(t.query, candidates);
            let before = if needs_source(v.session, t) {
                0
            } else {
                v.session.unwrap().selected
            };
            let selected = if before < last_row(matches.len()) {
                before
            } else {
                last_row(matches.len())
            };
            AutocompleteView {
                session: Some(SessionView { token: t, candidates, matches, selected }),
                ..v
            }
        },
    }
}

/// The popup with the row above selected, if there is one.
pub open spec fn moved_up(v: AutocompleteView) -> AutocompleteView {
    match v.session {
        Some(s) => AutocompleteView {
            session: Some(
                SessionView {
                    selected: if s.selected > 0 {
                        s.selected - 1
                    } else {
                        0
                    },
                    ..s
                },
            ),
            ..v
        },
        None => v,
    }
}

/// The popup with the row below selected, if there is one.
pub open spec fn moved_down(v: AutocompleteView) -> AutocompleteView {
    match v.session {
        Some(s) => AutocompleteView {
            session: Some(
                SessionView {
                    selected: if s.selected + 1 < last_row(s.matches.len()) {
                        s.selected + 1
                    } else {
                        last_row(s.matches.len())
                    },
                    ..s
                },
            ),
            ..v
        },
        None => v,
    }
}

/// Whether the popup shows anything.
pub open spec fn is_visible(v: AutocompleteView) -> bool {
    v.session matches Some(s) && s.matches.len() > 0
}

/// What the accepted row inserts. A file reference is quoted where its path
/// has a space or it was opened with a quote; a directory leaves the quote
/// open. Everything but a directory is followed by a space.
pub open spec fn insertion(t: TokenView, c: CandidateView) -> Seq<char> {
    let body = match t.source {
        SourceView::Files(_) => {
            let quote = t.quoted || c.value.contains(' ');
            if quote && !c.is_dir {
                "@\""@ + c.value + "\""@
            } else if quote {
                "@\""@ + c.value
            } else {
                "@"@ + c.value
            }
        },
        SourceView::Commands => "/"@ + c.value,
        SourceView::Arguments(_) => c.value,
    };
    if c.is_dir {
        body
    } else {
        body + " "@
    }
}

/// The popup that is closed, for a project directory.
pub open spec fn closed_popup(root: Seq<char>) -> AutocompleteView {
    AutocompleteView { root, commands: Seq::empty(), arguments: Seq::empty(), session: None }
}

/// The selected row is one of the rows, if there are any.
pub open spec fn popup_ok(v: AutocompleteView) -> bool {
    v.session matches Some(s) ==> 0 <= s.selected <= last_row(s.matches.len())
}

fn same_source(a: &Source, b: &Source) -> (r: bool)
    ensures
        r == (a@ == b@),
{
    match (a, b) {
        (Source::Files { prefix: x }, Source::Files { prefix: y }) => *x == *y,
        (Source::Commands, Source::Commands) => true,
        (Source::Arguments { command: x }, Source::Arguments { command: y }) => *x == *y,
        _ => false,
    }
}

/// A token of any kind.
struct Token {
    start: usize,
    query: String,
    quoted: bool,
    source: Source,
}

impl View for Token {
    type V = TokenView;

    closed spec fn view(&self) -> TokenView {
        TokenView {
            start: self.start as int,
            query: self.query@,
            quoted: self.quoted,
            source: self.source@,
        }
    }
}

/// The directory part of a query.
fn directory(query: &str) -> (r: String)
    ensures
        r@ == directory_of(query@, query@.len() as int),
{
    let chars = chars_of(query);
    let mut n: usize = chars.len();
    while n > 0 && chars[n - 1] != '/'
        invariant
            n <= chars@.len(),
            directory_of(chars@, chars@.len() as int) == directory_of(chars@, n as int),
        decreases n,
    {
        n -= 1;
    }
    let r = string_of(&chars, 0, n);
    assert(n > 0 ==> r@ =~= chars@.take(n as int));
    assert(n == 0 ==> r@ =~= Seq::empty());
    r
}

impl Autocomplete {
    /// A popup that is closed, for a project directory.
    pub fn new(root: &str) -> (r: Autocomplete)
        ensures
            r@ == closed_popup(root@),
            popup_ok(r@),
    {
        let r = Autocomplete {
            root: root.to_owned(),
            commands: Vec::new(),
            arguments: Vec::new(),
            session: None,
        };
        assert(r@.commands =~= Seq::empty());
        assert(r@.arguments =~= Seq::empty());
        r
    }

    /// The popup with the commands it completes.
    pub fn with_commands(self, commands: Vec<Candidate>) -> (r: Autocomplete)
        ensures
            r@ == (AutocompleteView { commands: candidate_views(commands@), ..self@ }),
    {
        Autocomplete { commands, ..self }
    }

    /// The popup with the arguments of one more command.
    pub fn with_command_args(self, command: &str, candidates: Vec<Candidate>) -> (r: Autocomplete)
        ensures
            r@ == (AutocompleteView {
                arguments: self@.arguments.push((command@, candidate_views(candidates@))),
                ..self@
            }),
    {
        let ghost before = self.arguments@;
        let mut arguments = self.arguments;
        arguments.push((command.to_owned(), candidates));
        assert(argument_views(arguments@) =~= argument_views(before).push(
            (command@, candidate_views(candidates@)),
        ));
        Autocomplete { arguments, root: self.root, commands: self.commands, session: self.session }
    }

    /// The project directory.
    pub fn root(&self) -> (r: &str)
        ensures
            r@ == self@.root,
    {
        self.root.as_str()
    }

    /// Whether the popup is open.
    pub fn is_open(&self) -> (r: bool)
        ensures
            r == self@.session is Some,
    {
        self.session.is_some()
    }

    /// Closes the popup.
    pub fn close(&mut self)
        ensures
            final(self)@ == (AutocompleteView { session: None, ..old(self)@ }),
            popup_ok(final(self)@),
    {
        self.session = None;
    }

    /// The rows to draw and the selected one, unless there is nothing to
    /// draw.
    pub fn visible(&self) -> (r: Option<(&Vec<Candidate>, usize)>)
        ensures
            match (r, self@.session) {
                (Some(v), Some(s)) => s.matches.len() > 0 && candidate_views(v.0@) == s.matches
                    && v.1 == s.selected,
                (None, Some(s)) => s.matches.len() == 0,
                (None, None) => true,
                _ => false,
            },
    {
        match &self.session {
            Some(s) => {
                assert(s@.matches.len() == s.matches@.len());
                if s.matches.len() == 0 {
                    None
                } else {
                    Some((&s.matches, s.selected))
                }
            },
            None => None,
        }
    }

    /// Where the token starts.
    pub fn token_start(&self) -> (r: Option<usize>)
        ensures
            match (r, self@.session) {
                (Some(n), Some(s)) => n == s.token.start,
                (None, None) => true,
                _ => false,
            },
    {
        match &self.session {
            Some(s) => Some(s.start),
            None => None,
        }
    }

    /// One row up.
    pub fn move_up(&mut self)
        requires
            popup_ok(old(self)@),
        ensures
            popup_ok(final(self)@),
            final(self)@ == moved_up(old(self)@),
    {
        if let Some(s) = &mut self.session {
            if s.selected > 0 {
                s.selected = s.selected - 1;
            }
        }
    }

    /// One row down.
    pub fn move_down(&mut self)
        requires
            popup_ok(old(self)@),
        ensures
            popup_ok(final(self)@),
            final(self)@ == moved_down(old(self)@),
    {
        if let Some(s) = &mut self.session {
            let n: usize = s.matches.len();
            assert(s@.matches.len() == n);
            let last: usize = if n > 0 {
                n - 1
            } else {
                0
            };
            if s.selected < last {
                s.selected = s.selected + 1;
            } else {
                s.selected = last;
            }
        }
    }

    fn find_arguments(&self, command: &Vec<char>) -> (r: Option<usize>)
        ensures
            match r {
                Some(i) => argument_index(self@.arguments, command@, 0) == Some(i as int) && i
                    < self.arguments@.len(),
                None => argument_index(self@.arguments, command@, 0) is None,
            },
    {
        let mut i: usize = 0;
        while i < self.arguments.len()
            invariant
                i <= self.arguments@.len(),
                argument_index(self@.arguments, command@, 0) == argument_index(
                    self@.arguments,
                    command@,
                    i as int,
                ),
            decreases self.arguments@.len() - i,
        {
            assert(self@.arguments[i as int].0 == self.arguments@[i as int].0@);
            if text::is_str(command, self.arguments[i].0.as_str()) {
                return Some(i);
            }
            i += 1;
        }
        None
    }

    fn find_token(&self, s: &str, cursor: usize) -> (r: Option<Token>)
        ensures
            match r {
                Some(t) => token_of(s@, cursor as int, self@.arguments) == Some(t@),
                None => token_of(s@, cursor as int, self@.arguments) is None,
            },
    {
        if let Some(t) = file_token_at_cursor(s, cursor) {
            let prefix = directory(t.query.as_str());
            return Some(
                Token {
                    start: t.start,
                    query: t.query,
                    quoted: t.quoted,
                    source: Source::Files { prefix },
                },
            );
        }
        let chars = chars_of(s);
        let n: usize = chars.len();
        let end: usize = if cursor < n {
            cursor
        } else {
            n
        };
        if end == 0 || chars[0] != '/' {
            return None;
        }
        let typed = slice(&chars, 0, end);
        assert(typed@ =~= chars@.take(end as int));
        let space: usize = text::find_white(&typed, 1);
        if space >= end {
            let query = string_of(&typed, 1, end);
            assert(query@ =~= typed@.skip(1));
            return Some(Token { start: 0, query, quoted: false, source: Source::Commands });
        }
        let command = slice(&typed, 1, space);
        if self.find_arguments(&command).is_none() {
            return None;
        }
        let next: usize = text::find_white(&typed, space + 1);
        if next < end {
            return None;
        }
        let query = string_of(&typed, space + 1, end);
        assert(query@ =~= typed@.skip(space + 1));
        Some(
            Token {
                start: space + 1,
                query,
                quoted: false,
                source: Source::Arguments { command: to_text(&command) },
            },
        )
    }

    fn keeps_source(&self, t: &Token) -> (r: bool)
        ensures
            r == !needs_source(self@.session, t@),
    {
        match &self.session {
            Some(s) => same_source(&s.source, &t.source),
            None => false,
        }
    }

    /// The directory whose files have to be listed before the next
    /// `refresh`, relative to the project, if there is one.
    pub fn wanted_walk(&self, s: &str, cursor: usize) -> (r: Option<String>)
        ensures
            resources::opt(r) == (match token_of(s@, cursor as int, self@.arguments) {
                Some(t) => match t.source {
                    SourceView::Files(prefix) => if needs_source(self@.session, t) {
                        Some(prefix)
                    } else {
                        None
                    },
                    _ => None,
                },
                None => None,
            }),
    {
        match self.find_token(s, cursor) {
            Some(t) => {
                if self.keeps_source(&t) {
                    return None;
                }
                match t.source {
                    Source::Files { prefix } => Some(prefix),
                    _ => None,
                }
            },
            None => None,
        }
    }

    /// Brings the popup in line with the input: opens it, narrows it, or
    /// closes it. `walked` is the listing that `wanted_walk` asked for.
    pub fn refresh(&mut self, s: &str, cursor: usize, walked: Vec<Candidate>)
        requires
            popup_ok(old(self)@),
        ensures
            final(self)@ == refreshed(
                old(self)@,
                s@,
                cursor as int,
                candidate_views(walked@),
            ),
            popup_ok(final(self)@),
    {
        let ghost before = self@;
        let ghost listed = candidate_views(walked@);
        let token = match self.find_token(s, cursor) {
            Some(t) => t,
            None => {
                self.session = None;
                return;
            },
        };
        let ghost t = token@;
        let keep = self.keeps_source(&token);
        let mut selected: usize = 0;
        let candidates: Vec<Candidate>;
        let mut old_session: Option<Session> = None;
        std::mem::swap(&mut old_session, &mut self.session);
        if keep {
            let session = old_session.unwrap();
            selected = session.selected;
            candidates = session.candidates;
        } else {
            candidates = match &token.source {
                Source::Files { .. } => walked,
                Source::Commands => copy_candidates(&self.commands),
                Source::Arguments { command } => {
                    let name = chars_of(command.as_str());
                    match self.find_arguments(&name) {
                        Some(i) => {
                            assert(self@.arguments[i as int].1 == candidate_views(
                                self.arguments@[i as int].1@,
                            ));
                            copy_candidates(&self.arguments[i].1)
                        },
                        None => {
                            let none: Vec<Candidate> = Vec::new();
                            assert(candidate_views(none@) =~= Seq::empty());
                            none
                        },
                    }
                },
            };
        }
        assert(candidate_views(candidates@) == candidates_for(before, t, listed));
        let matches = best(token.query.as_str(), &candidates);
        let n: usize = matches.len();
        assert(candidate_views(matches@).len() == n);
        let last: usize = if n > 0 {
            n - 1
        } else {
            0
        };
        if selected > last {
            selected = last;
        }
        self.session = Some(
            Session {
                start: token.start,
                query: token.query,
                quoted: token.quoted,
                source: token.source,
                candidates,
                matches,
                selected,
            },
        );
    }

    /// The completion that the selected row gives.
    pub fn accept(&self, cursor: usize) -> (r: Option<Completion>)
        requires
            popup_ok(self@),
        ensures
            match (r, self@.session) {
                (Some(c), Some(s)) => s.matches.len() > 0 && c.start == s.token.start && c.end
                    == cursor && c.insert@ == insertion(s.token, s.matches[s.selected]) && c.is_dir
                    == s.matches[s.selected].is_dir,
                (None, Some(s)) => s.matches.len() == 0,
                (None, None) => true,
                _ => false,
            },
    {
        match &self.session {
            Some(s) => {
                assert(s@.matches.len() == s.matches@.len());
                if s.matches.len() == 0 {
                    return None;
                }
                assert(s@.matches[s.selected as int] == s.matches@[s.selected as int]@);
                let c = &s.matches[s.selected];
                let value = c.value.as_str();
                let mut insert = match &s.source {
                    Source::Files { .. } => {
                        let chars = chars_of(value);
                        let at: usize = text::find_char(&chars, ' ', 0);
                        proof {
                            text::lemma_find_from(chars@, ' ', 0);
                            if at < chars@.len() {
                                assert(chars@[at as int] == ' ');
                            }
                        }
                        let spaced = at < chars.len();
                        assert(spaced == chars@.contains(' '));
                        let quote = s.quoted || spaced;
                        if quote && !c.is_dir {
                            text::concat3("@\"", value, "\"")
                        } else if quote {
                            text::concat2("@\"", value)
                        } else {
                            text::concat2("@", value)
                        }
                    },
                    Source::Commands => text::concat2("/", value),
                    Source::Arguments { .. } => value.to_owned(),
                };
                if !c.is_dir {
                    insert.push_str(" ");
                }
                Some(Completion { start: s.start, end: cursor, insert, is_dir: c.is_dir })
            },
            None => None,
        }
    }
}

fn copy_candidates(v: &Vec<Candidate>) -> (r: Vec<Candidate>)
    ensures
        candidate_views(r@) == candidate_views(v@),
{
    let mut out: Vec<Candidate> = Vec::new();
    let mut i: usize = 0;
    while i < v.len()
        invariant
            i <= v@.len(),
            out@.len() == i,
            forall|k: int| 0 <= k < i ==> (#[trigger] out@[k])@ == v@[k]@,
        decreases v@.len() - i,
    {
        out.push(copy_candidate(&v[i]));
        i += 1;
    }
    assert(candidate_views(out@) =~= candidate_views(v@));
    out
}

/// The best matches of a query.
fn best(query: &str, candidates: &Vec<Candidate>) -> (r: Vec<Candidate>)
    ensures
        candidate_views(r@) == best_matches(query@, candidate_views(candidates@)),
{
    let ghost views = candidate_views(candidates@);
    let mut keys: Vec<String> = Vec::new();
    let mut i: usize = 0;
    while i < candidates.len()
        invariant
            i <= candidates@.len(),
            keys@.len() == i,
            forall|k: int| 0 <= k < i ==> (#[trigger] keys@[k])@ == candidates@[k].value@,
        decreases candidates@.len() - i,
    {
        keys.push(candidates[i].value.clone());
        i += 1;
    }
    assert(text::texts(keys@) =~= values_of(views));
    let order = rank_keys(query, &keys);
    let ghost ord = fuzzy::filtered(query@, values_of(views));
    let mut out: Vec<Candidate> = Vec::new();
    let mut j: usize = 0;
    while j < order.len() && j < MAX_VISIBLE
        invariant
            j <= order@.len(),
            j <= MAX_VISIBLE,
            out@.len() == j,
            keys@.len() == candidates@.len(),
            fuzzy::ints(order@) == ord,
            views == candidate_views(candidates@),
            forall|k: int| 0 <= k < order@.len() ==> (#[trigger] order@[k]) < keys@.len(),
            forall|k: int| 0 <= k < j ==> (#[trigger] out@[k])@ == views[ord[k]],
        decreases order@.len() - j,
    {
        assert(fuzzy::ints(order@)[j as int] == order@[j as int]);
        assert(views[order@[j as int] as int] == candidates@[order@[j as int] as int]@);
        out.push(copy_candidate(&candidates[order[j]]));
        j += 1;
    }
    assert(ord.len() == order@.len());
    assert(candidate_views(out@) =~= best_matches(query@, views));
    out
}

// ---------------------------------------------------------------------------
// Laws
// ---------------------------------------------------------------------------

/// Refreshing twice with the same input is refreshing once.
pub proof fn law_refresh_is_idempotent(
    v: AutocompleteView,
    s: Seq<char>,
    cursor: int,
    walked: Seq<CandidateView>,
    again: Seq<CandidateView>,
)
    requires
        popup_ok(v),
    ensures
        refreshed(refreshed(v, s, cursor, walked), s, cursor, again) == refreshed(
            v,
            s,
            cursor,
            walked,
        ),
{
}

/// Whether a text opens a quoted token and never closes it.
pub open spec fn leaves_open(s: Seq<char>) -> bool {
    exists|j: int| #[trigger] opens_quote(s, j)
}

/// Whether a quoted token starts at `j` and has no closing quote.
pub open spec fn opens_quote(s: Seq<char>, j: int) -> bool {
    &&& 0 <= j && j + 1 < s.len()
    &&& starts_token(s, j)
    &&& s[j + 1] == '"'
    &&& forall|k: int| j + 2 <= k < s.len() ==> s[k] != '"'
}

/// A file that was accepted closes the popup, quoted or not, and wherever in
/// the text it stands: behind the space that follows it there is no file
/// token, and outside a command line no token at all. Left out are the texts
/// in which an earlier quote is still open, and names that open a quote of
/// their own behind white space.
pub proof fn law_accepted_files_close_the_popup(
    s: Seq<char>,
    t: TokenView,
    c: CandidateView,
    rest: Seq<char>,
    args: Seq<(Seq<char>, Seq<CandidateView>)>,
)
    requires
        t.source is Files,
        !c.is_dir,
        0 <= t.start <= s.len(),
        t.start == 0 || text::is_white_space(s[t.start - 1]),
        file_token(s.take(t.start), t.start) is None,
        !leaves_open(insertion(t, c)),
    ensures
        ({
            let before = s.take(t.start) + insertion(t, c);
            let after = before + rest;
            let cursor = before.len() as int;
            file_token(after, cursor) is None && (after[0] != '/' ==> token_of(after, cursor, args)
                is None)
        }),
{
    reveal_strlit("@");
    reveal_strlit("@\"");
    reveal_strlit(" ");
    let head = s.take(t.start);
    let ins = insertion(t, c);
    let after = head + ins + rest;
    let start = t.start;
    let n = start + ins.len();
    assert(ins.len() >= 2 && ins[0] == '@' && ins.last() == ' ');
    assert(after[n - 1] == ' ');
    assert forall|k: int| 0 <= k < n implies #[trigger] open_token(after, k, n) is None by {
        if starts_token(after, k) {
            let quoted = k + 1 < after.len() && after[k + 1] == '"';
            let query = part(
                after,
                if quoted {
                    k + 2
                } else {
                    k + 1
                },
                n,
            );
            assert(k < n - 1);
            if k >= start {
                let j = k - start;
                assert(ins[j] == after[k]);
                assert(starts_token(ins, j)) by {
                    if j > 0 {
                        assert(ins[j - 1] == after[k - 1]);
                    }
                }
                if quoted {
                    assert(ins[j + 1] == after[k + 1]);
                    assert(!opens_quote(ins, j));
                    let q = choose|q: int| j + 2 <= q < ins.len() && ins[q] == '"';
                    assert(query[q - j - 2] == after[start + q]);
                } else {
                    assert(query[query.len() - 1] == after[n - 1]);
                }
            } else {
                lemma_nearest_token(head, start, start);
                assert(open_token(head, k, start) is None);
                assert(head[k] == after[k]);
                assert(starts_token(head, k)) by {
                    if k > 0 {
                        assert(head[k - 1] == after[k - 1]);
                    }
                }
                assert(head[start - 1] == s[start - 1]);
                assert(k + 1 < start);
                assert(head[k + 1] == after[k + 1]);
                let from = if quoted {
                    k + 2
                } else {
                    k + 1
                };
                let short = part(head, from, start);
                assert(!still_open(short, quoted));
                let bad = choose|bad: int|
                    0 <= bad < short.len() && !(short[bad] != '"' && (quoted
                        || !text::is_white_space(short[bad])));
                assert(query[bad] == short[bad]);
            }
        }
    }
    lemma_nearest_token(after, n, n);
}

/// Inside a text a token is open or not whatever stands before the text.
proof fn lemma_token_behind(head: Seq<char>, s: Seq<char>, j: int)
    requires
        0 < j < s.len(),
    ensures
        open_token(head + s, head.len() + j, (head + s).len() as int) is Some <==> open_token(
            s,
            j,
            s.len() as int,
        ) is Some,
{
    let all = head + s;
    let k = head.len() + j;
    assert(all[k] == s[j] && all[k - 1] == s[j - 1]);
    assert(k + 1 < all.len() ==> all[k + 1] == s[j + 1]);
    assert(part(all, k + 1, all.len() as int) =~= part(s, j + 1, s.len() as int));
    assert(part(all, k + 2, all.len() as int) =~= part(s, j + 2, s.len() as int));
}

/// A directory that was accepted keeps completing inside it: the token is
/// the reference to the directory, and what is listed is what is below it.
/// Left out are names that hold a quote or an open token of their own, and
/// names that hold white space and are not quoted.
pub proof fn law_accepted_directories_keep_completing(
    s: Seq<char>,
    t: TokenView,
    c: CandidateView,
    args: Seq<(Seq<char>, Seq<CandidateView>)>,
)
    requires
        t.source is Files,
        c.is_dir,
        c.value.len() > 0 && c.value.last() == '/',
        0 <= t.start <= s.len(),
        t.start == 0 || text::is_white_space(s[t.start - 1]),
        still_open(c.value, t.quoted || c.value.contains(' ')),
        forall|k: int|
            0 < k < c.value.len() ==> #[trigger] open_token(c.value, k, c.value.len() as int)
                is None,
    ensures
        ({
            let after = s.take(t.start) + insertion(t, c);
            token_of(after, after.len() as int, args) == Some(
                TokenView {
                    start: t.start,
                    query: c.value,
                    quoted: t.quoted || c.value.contains(' '),
                    source: SourceView::Files(c.value),
                },
            )
        }),
{
    reveal_strlit("@");
    reveal_strlit("@\"");
    let head = s.take(t.start);
    let ins = insertion(t, c);
    let after = head + ins;
    let start = t.start;
    let n = after.len() as int;
    let quoted = t.quoted || c.value.contains(' ');
    let lead = if quoted {
        2int
    } else {
        1int
    };
    assert(ins.len() == lead + c.value.len());
    assert(ins[0] == '@');
    assert forall|k: int| 0 <= k < c.value.len() implies after[start + lead + k] == c.value[k] by {
        assert(ins[lead + k] == c.value[k]);
    }
    assert(after[start] == '@');
    if start > 0 {
        assert(after[start - 1] == s[start - 1]);
    }
    if quoted {
        assert(after[start + 1] == '"');
    } else {
        assert(after[start + 1] == c.value[0]);
    }
    assert(part(after, start + lead, n) =~= c.value);
    assert(open_token(after, start, n) == Some(
        FileTokenView { start, query: c.value, quoted },
    ));
    assert forall|k: int| start < k < n implies #[trigger] open_token(after, k, n) is None by {
        let j = k - start - lead;
        if j > 0 {
            assert(open_token(c.value, j, c.value.len() as int) is None);
            lemma_token_behind(after.take(start + lead), c.value, j);
            assert(after.take(start + lead) + c.value =~= after);
        } else if j == 0 {
            assert(after[k - 1] == if quoted {
                '"'
            } else {
                '@'
            });
        }
    }
    lemma_nearest_token(after, n, n);
    let found = file_token(after, n);
    assert(found is Some);
    assert(found.unwrap().start == start);
    assert(c.value.take(c.value.len() as int) =~= c.value);
}

proof fn lemma_token_here(s: Seq<char>, at: int, n: int, end: int)
    requires
        0 <= at < n <= end <= s.len(),
        open_token(s, at, end) is Some,
        forall|k: int| at < k < n ==> s[k] != '@',
    ensures
        nearest_token(s, n, end) == open_token(s, at, end),
    decreases n - at,
{
    if n - 1 > at {
        assert(s[n - 1] != '@');
        lemma_token_here(s, at, n - 1, end);
    }
}

/// What follows an `@` at the start of a word, up to the cursor, is the file
/// reference being typed; between quotes it may hold white space.
pub proof fn law_references_are_what_follows_the_at_sign(
    a: Seq<char>,
    q: Seq<char>,
    args: Seq<(Seq<char>, Seq<CandidateView>)>,
)
    requires
        a.len() == 0 || text::is_white_space(a.last()),
        !q.contains('@') && !q.contains('"'),
    ensures
        file_token(a + seq!['@', '"'] + q, (a.len() + 2 + q.len()) as int) == Some(
            FileTokenView { start: a.len() as int, query: q, quoted: true },
        ),
        (forall|k: int| 0 <= k < q.len() ==> !text::is_white_space(#[trigger] q[k])) ==> file_token(
            a + seq!['@'] + q,
            (a.len() + 1 + q.len()) as int,
        ) == Some(FileTokenView { start: a.len() as int, query: q, quoted: false })
            && token_of(a + seq!['@'] + q, (a.len() + 1 + q.len()) as int, args) == Some(
            TokenView {
                start: a.len() as int,
                query: q,
                quoted: false,
                source: SourceView::Files(directory_of(q, q.len() as int)),
            },
        ),
{
    let at = a.len() as int;
    let s = a + seq!['@', '"'] + q;
    let end = s.len() as int;
    assert(s[at] == '@' && s[at + 1] == '"');
    if at > 0 {
        assert(s[at - 1] == a.last());
    }
    assert(s.subrange(at + 2, end) =~= q);
    assert forall|k: int| 0 <= k < q.len() implies (#[trigger] q[k]) != '"' && q[k] != '@' by {
        assert(q.contains(q[k]));
    }
    assert(still_open(q, true));
    assert forall|k: int| at < k < end implies s[k] != '@' by {
        if k > at + 1 {
            assert(s[k] == q[k - at - 2]);
        }
    }
    lemma_token_here(s, at, end, end);
    if forall|k: int| 0 <= k < q.len() ==> !text::is_white_space(#[trigger] q[k]) {
        let u = a + seq!['@'] + q;
        let stop = u.len() as int;
        assert(u[at] == '@');
        if at > 0 {
            assert(u[at - 1] == a.last());
        }
        if q.len() > 0 {
            assert(u[at + 1] == q[0]);
        }
        assert(u.subrange(at + 1, stop) =~= q);
        assert forall|k: int| at < k < stop implies u[k] != '@' by {
            assert(u[k] == q[k - at - 1]);
        }
        lemma_token_here(u, at, stop, stop);
    }
}

proof fn lemma_no_token(s: Seq<char>, n: int, end: int)
    requires
        0 <= n <= end <= s.len(),
        forall|k: int| 0 <= k < n ==> !starts_token(s, k),
    ensures
        nearest_token(s, n, end) is None,
    decreases n,
{
    if n > 0 {
        lemma_no_token(s, n - 1, end);
    }
}

/// The first word of a text that starts with a slash is the command being
/// typed.
pub proof fn law_the_first_word_is_the_command(
    word: Seq<char>,
    args: Seq<(Seq<char>, Seq<CandidateView>)>,
)
    requires
        forall|k: int| 0 <= k < word.len() ==> !text::is_white_space(#[trigger] word[k]),
    ensures
        token_of(seq!['/'] + word, (word.len() + 1) as int, args) == Some(
            TokenView { start: 0, query: word, quoted: false, source: SourceView::Commands },
        ),
{
    let s = seq!['/'] + word;
    let end = s.len() as int;
    assert(s[0] == '/');
    assert forall|k: int| 0 <= k < end implies !starts_token(s, k) by {
        if k > 1 {
            assert(s[k - 1] == word[k - 2]);
        }
    }
    lemma_no_token(s, end, end);
    assert(s.take(end) =~= s);
    assert forall|k: int| 1 <= k < end implies !text::is_white_space(#[trigger] s[k]) by {
        assert(s[k] == word[k - 1]);
    }
    text::lemma_find_space(s, 1);
    lemma_no_space(s, 1);
    assert(s.skip(1) =~= word);
}

proof fn lemma_no_space(s: Seq<char>, from: int)
    requires
        0 <= from <= s.len(),
        forall|k: int| from <= k < s.len() ==> !text::is_white_space(#[trigger] s[k]),
    ensures
        text::find_space(s, from) == s.len(),
    decreases s.len() - from,
{
    if from < s.len() {
        lemma_no_space(s, from + 1);
    }
}

proof fn lemma_space_found(s: Seq<char>, from: int, at: int)
    requires
        0 <= from <= at < s.len(),
        text::is_white_space(s[at]),
        forall|k: int| from <= k < at ==> !text::is_white_space(#[trigger] s[k]),
    ensures
        text::find_space(s, from) == at,
    decreases at - from,
{
    if from < at {
        lemma_space_found(s, from + 1, at);
    }
}

/// The second word behind a command that has arguments to offer is completed
/// from these; behind any other command nothing is.
pub proof fn law_the_second_word_is_an_argument(
    command: Seq<char>,
    word: Seq<char>,
    args: Seq<(Seq<char>, Seq<CandidateView>)>,
)
    requires
        forall|k: int| 0 <= k < command.len() ==> !text::is_white_space(#[trigger] command[k]),
        forall|k: int| 0 <= k < word.len() ==> !text::is_white_space(#[trigger] word[k]),
        word.len() > 0 ==> word[0] != '@',
    ensures
        token_of(
            seq!['/'] + command + seq![' '] + word,
            (command.len() + word.len() + 2) as int,
            args,
        ) == (if exists|i: int| 0 <= i < args.len() && (#[trigger] args[i]).0 == command {
            Some(
                TokenView {
                    start: command.len() as int + 2,
                    query: word,
                    quoted: false,
                    source: SourceView::Arguments(command),
                },
            )
        } else {
            None
        }),
{
    let s = seq!['/'] + command + seq![' '] + word;
    let end = s.len() as int;
    let space = command.len() as int + 1;
    assert(s[0] == '/');
    assert(s[space] == ' ');
    assert forall|k: int| 0 <= k < end implies !starts_token(s, k) by {
        if 1 < k <= space {
            assert(s[k - 1] == command[k - 2]);
        } else if k == space + 1 {
            assert(s[k] == word[0]);
        } else if k > space + 1 {
            assert(s[k - 1] == word[k - space - 2]);
        }
    }
    lemma_no_token(s, end, end);
    assert(s.take(end) =~= s);
    assert forall|k: int| 1 <= k < space implies !text::is_white_space(#[trigger] s[k]) by {
        assert(s[k] == command[k - 1]);
    }
    lemma_space_found(s, 1, space);
    assert forall|k: int| space + 1 <= k < end implies !text::is_white_space(#[trigger] s[k]) by {
        assert(s[k] == word[k - space - 1]);
    }
    lemma_no_space(s, space + 1);
    assert(s.subrange(1, space) =~= command);
    assert(s.skip(space + 1) =~= word);
    lemma_argument_index(args, command, 0);
}

proof fn lemma_argument_index(
    args: Seq<(Seq<char>, Seq<CandidateView>)>,
    command: Seq<char>,
    from: int,
)
    requires
        0 <= from,
    ensures
        match argument_index(args, command, from) {
            Some(i) => from <= i < args.len() && args[i].0 == command,
            None => forall|i: int| from <= i < args.len() ==> (#[trigger] args[i]).0 != command,
        },
    decreases args.len() - from,
{
    if from < args.len() && args[from].0 != command {
        lemma_argument_index(args, command, from + 1);
    }
}

/// The directory of a path is all of it up to its last slash.
pub proof fn law_directories_end_at_the_last_slash(dir: Seq<char>, name: Seq<char>)
    requires
        !name.contains('/'),
    ensures
        directory_of(dir + seq!['/'] + name, (dir.len() + 1 + name.len()) as int) == dir + seq![
            '/',
        ],
        directory_of(name, name.len() as int) == Seq::<char>::empty(),
{
    let path = dir + seq!['/'] + name;
    let n = dir.len() as int + 1;
    assert(path[n - 1] == '/');
    assert forall|k: int| n <= k < path.len() implies path[k] != '/' by {
        assert(path[k] == name[k - n]);
        assert(name.contains(name[k - n]));
    }
    lemma_directory(path, n, path.len() as int);
    assert(path.take(n) =~= dir + seq!['/']);
    assert forall|k: int| 0 <= k < name.len() implies name[k] != '/' by {
        assert(name.contains(name[k]));
    }
    lemma_directory(name, 0, name.len() as int);
}

proof fn lemma_directory(path: Seq<char>, n: int, m: int)
    requires
        0 <= n <= m <= path.len(),
        n > 0 ==> path[n - 1] == '/',
        forall|k: int| n <= k < m ==> path[k] != '/',
    ensures
        directory_of(path, m) == path.take(n),
    decreases m,
{
    if m > n {
        lemma_directory(path, n, m - 1);
    } else if n == 0 {
        assert(path.take(0) =~= Seq::empty());
    }
}

/// Everything that a walk found is listed, in its order, as long as there is
/// room: directories with a slash at their end, files as they are.
pub proof fn law_everything_found_is_listed(prefix: Seq<char>, found: Seq<(String, bool)>, n: int)
    requires
        0 <= n <= found.len(),
    ensures
        listed(prefix, found, n as nat, n) == found.take(n).filter(
            |f: (String, bool)| f.0@.len() > 0,
        ).map_values(
            |f: (String, bool)|
                CandidateView {
                    display: if f.1 {
                        prefix + f.0@ + seq!['/']
                    } else {
                        prefix + f.0@
                    },
                    value: if f.1 {
                        prefix + f.0@ + seq!['/']
                    } else {
                        prefix + f.0@
                    },
                    is_dir: f.1,
                },
        ),
{
    lemma_listed(prefix, found, n as nat, n);
}

spec fn entry(prefix: Seq<char>, f: (String, bool)) -> CandidateView {
    CandidateView {
        display: if f.1 {
            prefix + f.0@ + seq!['/']
        } else {
            prefix + f.0@
        },
        value: if f.1 {
            prefix + f.0@ + seq!['/']
        } else {
            prefix + f.0@
        },
        is_dir: f.1,
    }
}

proof fn lemma_listed(prefix: Seq<char>, found: Seq<(String, bool)>, cap: nat, n: int)
    requires
        0 <= n <= found.len(),
        n <= cap,
    ensures
        listed(prefix, found, cap, n).len() <= n,
        listed(prefix, found, cap, n) == found.take(n).filter(
            |f: (String, bool)| f.0@.len() > 0,
        ).map_values(
            |f: (String, bool)|
                CandidateView {
                    display: if f.1 {
                        prefix + f.0@ + seq!['/']
                    } else {
                        prefix + f.0@
                    },
                    value: if f.1 {
                        prefix + f.0@ + seq!['/']
                    } else {
                        prefix + f.0@
                    },
                    is_dir: f.1,
                },
        ),
    decreases n,
{
    reveal(Seq::filter);
    let shown = found.take(n).filter(|f: (String, bool)| f.0@.len() > 0).map_values(
        |f: (String, bool)|
            CandidateView {
                display: if f.1 {
                    prefix + f.0@ + seq!['/']
                } else {
                    prefix + f.0@
                },
                value: if f.1 {
                    prefix + f.0@ + seq!['/']
                } else {
                    prefix + f.0@
                },
                is_dir: f.1,
            },
    );
    if n > 0 {
        lemma_listed(prefix, found, cap, n - 1);
        assert(found.take(n).drop_last() =~= found.take(n - 1));
        assert(found.take(n).last() == found[n - 1]);
        reveal_strlit("/");
        assert("/"@ =~= seq!['/']);
        assert(file_row(prefix, found[n - 1].0@, found[n - 1].1) == entry(prefix, found[n - 1]));
        assert(listed(prefix, found, cap, n) =~= shown);
    } else {
        assert(found.take(n) =~= Seq::empty());
        assert(listed(prefix, found, cap, n) =~= shown);
    }
}

/// A listing stops where it is full: it is the beginning of the whole one.
pub proof fn law_a_full_listing_is_a_beginning(
    prefix: Seq<char>,
    found: Seq<(String, bool)>,
    cap: nat,
    n: int,
)
    requires
        0 <= n <= found.len(),
    ensures
        ({
            let all = listed(prefix, found, n as nat, n);
            listed(prefix, found, cap, n) == (if all.len() <= cap {
                all
            } else {
                all.take(cap as int)
            })
        }),
    decreases n,
{
    let all = listed(prefix, found, n as nat, n);
    if n > 0 {
        law_a_full_listing_is_a_beginning(prefix, found, cap, n - 1);
        lemma_listed(prefix, found, n as nat, n - 1);
        lemma_listed(prefix, found, (n - 1) as nat, n - 1);
        let before = listed(prefix, found, (n - 1) as nat, n - 1);
        assert(listed(prefix, found, n as nat, n - 1) == before);
        assert(listed(prefix, found, cap, n) =~= (if all.len() <= cap {
            all
        } else {
            all.take(cap as int)
        }));
    } else {
        assert(listed(prefix, found, cap, n) =~= all);
    }
}

/// The popup shows the eight best matches, or all of them where there are
/// fewer, the best first.
pub proof fn law_the_popup_shows_the_best_eight(query: Seq<char>, candidates: Seq<CandidateView>, i: int)
    ensures
        ({
            let order = fuzzy::filtered(query, values_of(candidates));
            let shown = best_matches(query, candidates);
            &&& shown.len() == if order.len() < 8 {
                order.len()
            } else {
                8
            }
            &&& 0 <= i < shown.len() ==> 0 <= order[i] < candidates.len() && shown[i]
                == candidates[order[i]] && fuzzy::matches_all(
                fuzzy::query_words(query),
                shown[i].value,
            )
        }),
{
    fuzzy::law_the_filter_gives_the_matches(query, values_of(candidates));
    let order = fuzzy::filtered(query, values_of(candidates));
    let shown = best_matches(query, candidates);
    if 0 <= i < shown.len() {
        assert(0 <= order[i] < values_of(candidates).len());
        assert(values_of(candidates)[order[i]] == candidates[order[i]].value);
    }
}

/// The selection moves by one row and stays within the rows; going down and
/// up again comes back.
pub proof fn law_the_selection_moves_by_one(v: AutocompleteView)
    requires
        popup_ok(v),
        v.session is Some,
        v.session.unwrap().matches.len() > 0,
    ensures
        ({
            let s = v.session.unwrap();
            let up = moved_up(v).session.unwrap().selected;
            let down = moved_down(v).session.unwrap().selected;
            &&& s.selected > 0 ==> up == s.selected - 1
            &&& s.selected == 0 ==> up == 0
            &&& s.selected < s.matches.len() - 1 ==> down == s.selected + 1 && moved_up(
                moved_down(v),
            ) == v
            &&& s.selected == s.matches.len() - 1 ==> down == s.selected
            &&& moved_up(v).session.unwrap().matches == s.matches
            &&& moved_down(v).session.unwrap().matches == s.matches
            &&& moved_up(v).session.unwrap().token == s.token
        }),
{
}

/// A popup narrows what it listed: typing on within one source keeps its
/// candidates and its row, and another source starts at the first row.
pub proof fn law_typing_narrows(
    v: AutocompleteView,
    s: Seq<char>,
    cursor: int,
    walked: Seq<CandidateView>,
)
    requires
        popup_ok(v),
        token_of(s, cursor, v.arguments) is Some,
    ensures
        ({
            let t = token_of(s, cursor, v.arguments).unwrap();
            let after = refreshed(v, s, cursor, walked).session.unwrap();
            &&& after.token == t
            &&& after.matches == best_matches(t.query, after.candidates)
            &&& v.session is Some && v.session.unwrap().token.source == t.source ==> after.candidates
                == v.session.unwrap().candidates && (v.session.unwrap().selected
                < after.matches.len() ==> after.selected == v.session.unwrap().selected)
            &&& (v.session is None || v.session.unwrap().token.source != t.source)
                ==> after.selected == 0 && (t.source is Files ==> after.candidates == walked) && (
            t.source is Commands ==> after.candidates == v.commands)
        }),
{
}

/// A command or an argument that is accepted is inserted as it is, with its
/// slash, and a space follows.
pub proof fn law_accepted_words_end_in_a_space(t: TokenView, c: CandidateView)
    requires
        !c.is_dir,
    ensures
        t.source is Commands ==> insertion(t, c) == seq!['/'] + c.value + seq![' '],
        t.source is Arguments ==> insertion(t, c) == c.value + seq![' '],
        t.source is Files && !t.quoted && !c.value.contains(' ') ==> insertion(t, c) == seq!['@']
            + c.value + seq![' '],
        t.source is Files && (t.quoted || c.value.contains(' ')) ==> insertion(t, c) == seq![
            '@',
            '"',
        ] + c.value + seq!['"', ' '],
{
    reveal_strlit("/");
    reveal_strlit(" ");
    reveal_strlit("@");
    reveal_strlit("@\"");
    reveal_strlit("\"");
    if t.source is Commands {
        assert(insertion(t, c) =~= seq!['/'] + c.value + seq![' ']);
    } else if t.source is Arguments {
        assert(insertion(t, c) =~= c.value + seq![' ']);
    } else if t.quoted || c.value.contains(' ') {
        assert(insertion(t, c) =~= seq!['@', '"'] + c.value + seq!['"', ' ']);
    } else {
        assert(insertion(t, c) =~= seq!['@'] + c.value + seq![' ']);
    }
}

/// Outside a file reference, text that does not start with a slash completes
/// nothing.
pub proof fn law_plain_text_completes_nothing(
    s: Seq<char>,
    cursor: int,
    args: Seq<(Seq<char>, Seq<CandidateView>)>,
)
    requires
        0 <= cursor <= s.len(),
        !s.contains('@'),
        s.len() == 0 || s[0] != '/',
    ensures
        token_of(s, cursor, args) is None,
{
    assert forall|k: int| 0 <= k < cursor implies !starts_token(s, k) by {
        assert(s.contains(s[k]));
    }
    lemma_no_token(s, cursor, cursor);
}

} // verus!
