//! Sessions on disk: where a conversation is kept, how it is read back and
//! when the hooks of a session run.
//!
//! A transcript is a file of lines: a header first, then one message per
//! line. It is made with the first prompt, never before, and only ever
//! grows.
use vstd::prelude::*;

use crate::hooks::{HookConfig, HookConfigView, HookEvent};
use crate::messages::{AgentMessage, Message, UserBody};
use crate::text::{chars_of, concat2, concat3, decimal_text, split_lines, to_text};
use crate::{hooks, paths, resources, text};

verus! {

/// The version of the transcript format.
pub const TRANSCRIPT_VERSION: u32 = 1;

/// The first line of a transcript: what the session started with.
#[derive(Debug)]
pub struct TranscriptHeader {
    pub version: u32,
    pub session_id: String,
    pub cwd: String,
    pub model: String,
    pub started_at: u64,
}

/// Whether a character stands for itself in the name of a directory.
pub open spec fn is_slug_char(c: char) -> bool {
    ('a' <= c && c <= 'z') || ('A' <= c && c <= 'Z') || ('0' <= c && c <= '9') || c == '_' || c
        == '-'
}

/// A path as the name of a directory: everything but letters, digits, `_`
/// and `-` becomes `-`.
pub open spec fn slug(s: Seq<char>) -> Seq<char> {
    s.map_values(
        |c: char|
            if is_slug_char(c) {
                c
            } else {
                '-'
            },
    )
}

/// Makes the name of a project's directory from its path.
pub fn project_slug(cwd: &str) -> (r: String)
    ensures
        r@ == slug(cwd@),
{
    let chars = chars_of(cwd);
    let mut out = String::new();
    let mut i: usize = 0;
    assert(out@ =~= slug(chars@).take(0));
    while i < chars.len()
        invariant
            i <= chars@.len(),
            out@ == slug(chars@).take(i as int),
        decreases chars@.len() - i,
    {
        let c = chars[i];
        let kept = ('a' <= c && c <= 'z') || ('A' <= c && c <= 'Z') || ('0' <= c && c <= '9') || c
            == '_' || c == '-';
        if kept {
            out.push(c);
        } else {
            out.push('-');
        }
        assert(out@ =~= slug(chars@).take(i + 1));
        i += 1;
    }
    assert(slug(chars@).take(chars@.len() as int) =~= slug(chars@));
    out
}

/// A slug is as long as the path, has only safe characters and is its own
/// slug.
pub proof fn law_slugs_are_safe(s: Seq<char>)
    ensures
        slug(s).len() == s.len(),
        forall|k: int| 0 <= k < slug(s).len() ==> is_slug_char(#[trigger] slug(s)[k]),
        slug(slug(s)) == slug(s),
{
    assert(slug(slug(s)) =~= slug(s));
}

/// Where the sessions of a project are kept.
pub open spec fn sessions_of(home: Option<Seq<char>>, cwd: Seq<char>) -> Option<Seq<char>> {
    match home {
        Some(h) => Some(paths::joined(paths::joined(h, "sessions"@), slug(cwd))),
        None => None,
    }
}

/// Where the sessions of a project are kept. Without a home there is no such
/// place.
pub fn sessions_dir(home: Option<String>, cwd: &str) -> (r: Option<String>)
    ensures
        resources::opt(r) == sessions_of(resources::opt(home), cwd@),
{
    match home {
        Some(h) => Some(
            paths::join(paths::join(h.as_str(), "sessions").as_str(), project_slug(cwd).as_str()),
        ),
        None => None,
    }
}

/// Whether a file is a transcript, by its name.
pub open spec fn is_transcript(name: Seq<char>) -> bool {
    text::has_suffix(name, ".jsonl"@) && name.len() > 6
}

/// Tests whether a file is a transcript, by its name.
pub fn names_transcript(name: &str) -> (r: bool)
    ensures
        r == is_transcript(name@),
        r ==> name@.len() > 6,
{
    proof {
        reveal_strlit(".jsonl");
    }
    let chars = chars_of(name);
    let n: usize = chars.len();
    if n <= 6 {
        return false;
    }
    let tail = text::slice(&chars, n - 6, n);
    assert(tail@ =~= name@.skip(n - 6));
    text::is_str(&tail, ".jsonl")
}

/// The newest transcript among the first `n` files; of equally new ones the
/// last.
pub open spec fn newest(files: Seq<(String, u64)>, n: int) -> Option<int>
    decreases n,
{
    if n <= 0 {
        None
    } else {
        let before = newest(files, n - 1);
        if is_transcript(files[n - 1].0@) {
            match before {
                Some(i) => if files[i].1 > files[n - 1].1 {
                    Some(i)
                } else {
                    Some(n - 1)
                },
                None => Some(n - 1),
            }
        } else {
            before
        }
    }
}

/// Finds the newest transcript of a directory, given its files and when they
/// were last changed.
pub fn find_latest(files: &Vec<(String, u64)>) -> (r: Option<usize>)
    ensures
        match r {
            Some(i) => i < files@.len() && newest(files@, files@.len() as int) == Some(i as int),
            None => newest(files@, files@.len() as int) is None,
        },
{
    let mut best: Option<usize> = None;
    let mut i: usize = 0;
    while i < files.len()
        invariant
            i <= files@.len(),
            match best {
                Some(k) => k < i && newest(files@, i as int) == Some(k as int),
                None => newest(files@, i as int) is None,
            },
        decreases files@.len() - i,
    {
        if names_transcript(files[i].0.as_str()) {
            best = match best {
                Some(k) => if files[k].1 > files[i].1 {
                    Some(k)
                } else {
                    Some(i)
                },
                None => Some(i),
            };
        }
        i += 1;
    }
    best
}

proof fn lemma_newest(files: Seq<(String, u64)>, n: int)
    requires
        0 <= n <= files.len(),
    ensures
        match newest(files, n) {
            Some(i) => 0 <= i < n && is_transcript(files[i].0@) && forall|k: int|
                0 <= k < n && is_transcript((#[trigger] files[k]).0@) ==> files[k].1 <= files[i].1,
            None => forall|k: int| 0 <= k < n ==> !is_transcript((#[trigger] files[k]).0@),
        },
    decreases n,
{
    if n > 0 {
        lemma_newest(files, n - 1);
    }
}

/// No transcript is newer than the one that is resumed.
pub proof fn law_the_newest_transcript_is_resumed(files: Seq<(String, u64)>)
    ensures
        match newest(files, files.len() as int) {
            Some(i) => 0 <= i < files.len() && is_transcript(files[i].0@) && forall|k: int|
                0 <= k < files.len() && is_transcript((#[trigger] files[k]).0@) ==> files[k].1
                    <= files[i].1,
            None => forall|k: int| 0 <= k < files.len() ==> !is_transcript((#[trigger] files[k]).0@),
        },
{
    lemma_newest(files, files.len() as int);
}

// ---------------------------------------------------------------------------
// Reading
// ---------------------------------------------------------------------------

/// A transcript in lines: the header and the messages, each with the number
/// of its line.
#[derive(Debug)]
pub struct TranscriptLines {
    pub header: String,
    pub messages: Vec<(usize, String)>,
}

/// The lines from `from` on that hold something, with their numbers.
pub open spec fn message_lines(lines: Seq<Seq<char>>, from: int) -> Seq<(int, Seq<char>)>
    decreases lines.len() - from,
{
    if from >= lines.len() {
        Seq::empty()
    } else if text::is_blank(lines[from]) {
        message_lines(lines, from + 1)
    } else {
        seq![(from + 1, lines[from])] + message_lines(lines, from + 1)
    }
}

/// Views of numbered lines.
pub open spec fn numbered(v: Seq<(usize, String)>) -> Seq<(int, Seq<char>)> {
    v.map_values(|x: (usize, String)| (x.0 as int, x.1@))
}

/// Parts a transcript into its lines. An empty one is an error, blank lines
/// are skipped.
pub fn split_transcript(content: &str) -> (r: Result<TranscriptLines, String>)
    ensures
        match r {
            Ok(t) => text::lines_of(content@).len() > 0 && t.header@ == text::lines_of(content@)[0]
                && numbered(t.messages@) == message_lines(text::lines_of(content@), 1),
            Err(e) => text::lines_of(content@).len() == 0 && e@ == "transcript is empty"@,
        },
{
    let lines = split_lines(&chars_of(content));
    let ghost all = text::views(lines@);
    if lines.len() == 0 {
        return Err("transcript is empty".to_owned());
    }
    assert(all[0] == lines@[0]@);
    let header = to_text(&lines[0]);
    let mut messages: Vec<(usize, String)> = Vec::new();
    let mut i: usize = 1;
    assert(numbered(messages@) + message_lines(all, 1) =~= message_lines(all, 1));
    while i < lines.len()
        invariant
            1 <= i <= lines@.len(),
            all == text::views(lines@),
            numbered(messages@) + message_lines(all, i as int) == message_lines(all, 1),
        decreases lines@.len() - i,
    {
        assert(all[i as int] == lines@[i as int]@);
        let line = to_text(&lines[i]);
        if !text::blank(line.as_str()) {
            let ghost before = numbered(messages@);
            messages.push((i + 1, line));
            assert(numbered(messages@) =~= before.push((i + 1, all[i as int])));
            assert(numbered(messages@) + message_lines(all, i + 1) =~= before + message_lines(
                all,
                i as int,
            ));
        }
        i += 1;
    }
    assert(numbered(messages@) + message_lines(all, i as int) =~= numbered(messages@));
    Ok(TranscriptLines { header, messages })
}

/// What to say of a version that is not understood.
pub open spec fn unsupported(version: u32) -> Seq<char> {
    "transcript version "@ + text::decimal(version as nat)
        + " is not supported (this cupel reads version "@ + text::decimal(
        TRANSCRIPT_VERSION as nat,
    ) + ")"@
}

/// Refuses a transcript of a version that is not understood.
pub fn check_header(header: &TranscriptHeader) -> (r: Result<(), String>)
    ensures
        match r {
            Ok(_) => header.version == TRANSCRIPT_VERSION,
            Err(e) => header.version != TRANSCRIPT_VERSION && e@ == unsupported(header.version),
        },
{
    if header.version == TRANSCRIPT_VERSION {
        return Ok(());
    }
    let mut out = concat3(
        "transcript version ",
        decimal_text(header.version as u64).as_str(),
        " is not supported (this cupel reads version ",
    );
    out.push_str(decimal_text(TRANSCRIPT_VERSION as u64).as_str());
    out.push_str(")");
    Err(out)
}

/// The messages among the first `n` lines that could be read.
pub open spec fn readable(v: Seq<Option<AgentMessage>>, n: int) -> Seq<AgentMessage>
    decreases n,
{
    if n <= 0 {
        Seq::empty()
    } else {
        match v[n - 1] {
            Some(m) => readable(v, n - 1).push(m),
            None => readable(v, n - 1),
        }
    }
}

/// Puts a transcript together from its header and its lines, as far as each
/// could be read. Without a header of a known version there is none; a
/// message that could not be read is left out.
pub fn load_transcript(
    header: Result<TranscriptHeader, String>,
    messages: Vec<Option<AgentMessage>>,
) -> (r: Result<(TranscriptHeader, Vec<AgentMessage>), String>)
    ensures
        match (header, r) {
            (Err(e), Err(m)) => m@ == "transcript header is not readable: "@ + e@,
            (Err(_), Ok(_)) => false,
            (Ok(h), Ok((kept, v))) => h.version == TRANSCRIPT_VERSION && kept == h && v@ == readable(
                messages@,
                messages@.len() as int,
            ),
            (Ok(h), Err(m)) => h.version != TRANSCRIPT_VERSION && m@ == unsupported(h.version),
        },
{
    let header = match header {
        Ok(h) => h,
        Err(e) => {
            return Err(concat2("transcript header is not readable: ", e.as_str()));
        },
    };
    match check_header(&header) {
        Ok(_) => {},
        Err(e) => {
            return Err(e);
        },
    }
    let ghost all = messages@;
    let mut rest = messages;
    let mut out: Vec<AgentMessage> = Vec::new();
    let mut i: usize = 0;
    while i < rest.len()
        invariant
            i <= rest@.len(),
            rest@.len() == all.len(),
            rest@.skip(i as int) == all.skip(i as int),
            out@ == readable(all, i as int),
        decreases rest@.len() - i,
    {
        assert(rest@[i as int] == rest@.skip(i as int)[0]);
        assert(all[i as int] == all.skip(i as int)[0]);
        let mut slot: Option<AgentMessage> = None;
        std::mem::swap(&mut slot, &mut rest[i]);
        if let Some(m) = slot {
            out.push(m);
        }
        i += 1;
        assert(rest@.skip(i as int) =~= all.skip(i as int)) by {
            assert forall|k: int| i <= k < all.len() implies rest@[k] == all[k] by {
                assert(all.skip(i - 1)[k - i + 1] == all[k]);
            }
        }
    }
    Ok((header, out))
}

// ---------------------------------------------------------------------------
// Writing
// ---------------------------------------------------------------------------

/// A line as it is written.
pub open spec fn written(line: Seq<char>) -> Seq<char> {
    line.push('\n')
}

/// The text of a transcript.
pub open spec fn transcript_text(header: Seq<char>, lines: Seq<Seq<char>>) -> Seq<char>
    decreases lines.len(),
{
    if lines.len() == 0 {
        written(header)
    } else {
        transcript_text(header, lines.drop_last()) + written(lines.last())
    }
}

/// What opening a transcript writes: a new one starts with its header, one
/// that is there already has it.
pub open spec fn opening(header: Seq<char>, exists: bool) -> Seq<char> {
    if exists {
        Seq::empty()
    } else {
        written(header)
    }
}

/// Gives what opening a transcript writes.
pub fn opening_text(header: &str, exists: bool) -> (r: String)
    ensures
        r@ == opening(header@, exists),
{
    let mut out = String::new();
    if !exists {
        out.push_str(header);
        out.push('\n');
        assert(out@ =~= written(header@));
    }
    out
}

/// What a message adds to a transcript.
pub fn line_text(line: &str) -> (r: String)
    ensures
        r@ == written(line@),
{
    let mut out = line.to_owned();
    out.push('\n');
    out
}

/// Whether a text is one line: it has no line feed, and does not end in a
/// carriage return.
pub open spec fn is_one_line(s: Seq<char>) -> bool {
    !s.contains('\n') && text::drop_cr(s) == s
}

proof fn lemma_written(s: Seq<char>, line: Seq<char>)
    requires
        is_one_line(line),
        text::split_on(s, '\n').last().len() == 0,
    ensures
        text::lines_of(s + written(line)) == text::lines_of(s).push(line),
        text::split_on(s + written(line), '\n').last().len() == 0,
{
    text::lemma_split_on(s, '\n');
    text::lemma_split_append(s, line, '\n');
    let parts = text::split_on(s, '\n');
    let more = text::split_on(s + written(line), '\n');
    assert(parts.last() + line =~= line);
    assert(more.drop_last() =~= parts.drop_last().push(line));
    assert(text::lines_of(s + written(line)) =~= text::lines_of(s).push(line));
}

proof fn lemma_transcript_lines(header: Seq<char>, lines: Seq<Seq<char>>)
    requires
        is_one_line(header),
        forall|i: int| 0 <= i < lines.len() ==> is_one_line(#[trigger] lines[i]),
    ensures
        text::lines_of(transcript_text(header, lines)) == seq![header] + lines,
        text::split_on(transcript_text(header, lines), '\n').last().len() == 0,
    decreases lines.len(),
{
    if lines.len() == 0 {
        let none = Seq::<char>::empty();
        text::lemma_split_on(none, '\n');
        text::lemma_find_from(none, '\n', 0);
        lemma_written(none, header);
        assert(none + written(header) =~= written(header));
        assert(text::lines_of(none) =~= Seq::empty());
        assert(seq![header] + lines =~= text::lines_of(none).push(header));
    } else {
        let before = lines.drop_last();
        assert forall|i: int| 0 <= i < before.len() implies is_one_line(#[trigger] before[i]) by {
            assert(before[i] == lines[i]);
        }
        lemma_transcript_lines(header, before);
        lemma_written(transcript_text(header, before), lines.last());
        assert(seq![header] + lines =~= (seq![header] + before).push(lines.last()));
    }
}

proof fn lemma_message_lines(all: Seq<Seq<char>>, from: int)
    requires
        0 <= from <= all.len(),
        forall|i: int| from <= i < all.len() ==> !text::is_blank(#[trigger] all[i]),
    ensures
        message_lines(all, from) == Seq::new(
            (all.len() - from) as nat,
            |i: int| (from + i + 1, all[from + i]),
        ),
    decreases all.len() - from,
{
    let want = Seq::new((all.len() - from) as nat, |i: int| (from + i + 1, all[from + i]));
    if from < all.len() {
        lemma_message_lines(all, from + 1);
        assert(message_lines(all, from) =~= want);
    } else {
        assert(message_lines(all, from) =~= want);
    }
}

/// What was recorded is read back: the lines of a transcript are its header
/// and its messages in their order, none lost and none added, and every
/// message has the number of its line.
pub proof fn law_transcripts_are_read_back(header: Seq<char>, lines: Seq<Seq<char>>)
    requires
        is_one_line(header),
        forall|i: int|
            0 <= i < lines.len() ==> is_one_line(#[trigger] lines[i]) && !text::is_blank(lines[i]),
    ensures
        ({
            let all = text::lines_of(transcript_text(header, lines));
            all.len() > 0 && all[0] == header && message_lines(all, 1) == Seq::new(
                lines.len(),
                |i: int| (i + 2, lines[i]),
            )
        }),
{
    lemma_transcript_lines(header, lines);
    let all = text::lines_of(transcript_text(header, lines));
    assert forall|i: int| 1 <= i < all.len() implies !text::is_blank(#[trigger] all[i]) by {
        assert(all[i] == lines[i - 1]);
    }
    lemma_message_lines(all, 1);
    assert(message_lines(all, 1) =~= Seq::new(lines.len(), |i: int| (i + 2, lines[i])));
}

/// A session that is taken up again goes on in the same transcript: opening
/// it writes no second header, and what is appended follows what was there.
pub proof fn law_resuming_appends(header: Seq<char>, lines: Seq<Seq<char>>, line: Seq<char>)
    ensures
        opening(header, false) == transcript_text(header, Seq::empty()),
        transcript_text(header, lines) + opening(header, true) + written(line) == transcript_text(
            header,
            lines.push(line),
        ),
{
    assert(lines.push(line).drop_last() =~= lines);
    assert(transcript_text(header, lines) + opening(header, true) =~= transcript_text(
        header,
        lines,
    ));
}

/// What is to be done for a session.
#[derive(Debug)]
pub enum RecorderAction {
    /// Open the transcript for appending, and write the header if it is new.
    Open,
    /// Append a message.
    Append,
    /// Run the hooks of an event and wait for them.
    Dispatch(HookEvent),
    /// Run the hooks of an event without waiting.
    Fire(HookEvent),
}

/// A session that is recorded.
#[derive(Debug)]
pub struct SessionRecorder {
    header: TranscriptHeader,
    path: Option<String>,
    open: bool,
    started: bool,
    hooks: HookConfig,
}

/// A session that is recorded: where, whether its file is open, and whether
/// it had a prompt.
pub struct RecorderView {
    pub version: u32,
    pub session_id: Seq<char>,
    pub cwd: Seq<char>,
    pub model: Seq<char>,
    pub started_at: u64,
    pub path: Option<Seq<char>>,
    pub open: bool,
    pub started: bool,
    pub hooks: HookConfigView,
}

impl View for SessionRecorder {
    type V = RecorderView;

    closed spec fn view(&self) -> RecorderView {
        RecorderView {
            version: self.header.version,
            session_id: self.header.session_id@,
            cwd: self.header.cwd@,
            model: self.header.model@,
            started_at: self.header.started_at,
            path: resources::opt(self.path),
            open: self.open,
            started: self.started,
            hooks: self.hooks@,
        }
    }
}

/// Where the transcript of a session is.
pub open spec fn transcript_path(home: Option<Seq<char>>, cwd: Seq<char>, id: Seq<char>) -> Option<
    Seq<char>,
> {
    match sessions_of(home, cwd) {
        Some(dir) => Some(paths::joined(dir, id + ".jsonl"@)),
        None => None,
    }
}

/// Where hooks are looked for: with the user, then with the project.
pub open spec fn hook_roots_of(home: Option<Seq<char>>, cwd: Seq<char>) -> Seq<Seq<char>> {
    match home {
        Some(h) => seq![h, paths::joined(cwd, ".cupel"@)],
        None => seq![paths::joined(cwd, ".cupel"@)],
    }
}

/// Whether the transcript still has to be opened.
pub open spec fn must_open(v: RecorderView) -> bool {
    !v.open && v.path is Some
}

/// What recording a message takes: it is appended, to a transcript that is
/// opened first where that is still to be done.
pub open spec fn recording(v: RecorderView, r: Seq<RecorderAction>) -> bool {
    if v.open {
        r.len() == 1 && r[0] is Append
    } else if v.path is Some {
        r.len() == 2 && r[0] is Open && r[1] is Append
    } else {
        r.len() == 0
    }
}

/// A session that nothing happened in yet.
pub open spec fn fresh(
    home: Option<Seq<char>>,
    cwd: Seq<char>,
    id: Seq<char>,
    model: Seq<char>,
    now: u64,
) -> RecorderView {
    RecorderView {
        version: TRANSCRIPT_VERSION,
        session_id: id,
        cwd,
        model,
        started_at: now,
        path: transcript_path(home, cwd, id),
        open: false,
        started: false,
        hooks: HookConfigView {
            roots: hook_roots_of(home, cwd),
            session_id: id,
            session_ref: match transcript_path(home, cwd, id) {
                Some(p) => p,
                None => Seq::empty(),
            },
            cwd,
        },
    }
}

/// A session after its transcript was to be opened.
pub open spec fn after_opening(v: RecorderView, ok: bool) -> RecorderView {
    if ok {
        RecorderView { open: true, ..v }
    } else {
        RecorderView { open: false, path: None, ..v }
    }
}

/// A session after a prompt.
pub open spec fn after_prompt(v: RecorderView) -> RecorderView {
    RecorderView { started: true, ..v }
}

/// Whether a session has no transcript.
pub open spec fn unrecorded(v: RecorderView) -> bool {
    !v.open && v.path is None
}

impl SessionRecorder {
    /// A session that nothing happened in yet. Nothing is written.
    pub fn new(home: Option<String>, cwd: &str, session_id: &str, model_id: &str, now: u64) -> (r:
        SessionRecorder)
        ensures
            r@ == fresh(resources::opt(home), cwd@, session_id@, model_id@, now),
    {
        let mut roots: Vec<String> = Vec::new();
        let ghost h = resources::opt(home);
        let dir: Option<String> = match &home {
            Some(x) => {
                roots.push(x.clone());
                sessions_dir(Some(x.clone()), cwd)
            },
            None => sessions_dir(None, cwd),
        };
        roots.push(paths::join(cwd, ".cupel"));
        assert(text::texts(roots@) =~= hook_roots_of(h, cwd@));
        let path = match dir {
            Some(d) => {
                let file = concat2(session_id, ".jsonl");
                Some(paths::join(d.as_str(), file.as_str()))
            },
            None => None,
        };
        let session_ref = match &path {
            Some(p) => p.clone(),
            None => String::new(),
        };
        assert(path is None ==> session_ref@ =~= Seq::empty());
        SessionRecorder {
            header: TranscriptHeader {
                version: TRANSCRIPT_VERSION,
                session_id: session_id.to_owned(),
                cwd: cwd.to_owned(),
                model: model_id.to_owned(),
                started_at: now,
            },
            path,
            open: false,
            started: false,
            hooks: HookConfig {
                roots,
                session_id: session_id.to_owned(),
                session_ref,
                cwd: cwd.to_owned(),
            },
        }
    }

    /// The id of the session.
    pub fn session_id(&self) -> (r: &str)
        ensures
            r@ == self@.session_id,
    {
        self.header.session_id.as_str()
    }

    /// What the transcript starts with.
    pub fn header(&self) -> (r: &TranscriptHeader)
        ensures
            r.version == self@.version,
            r.session_id@ == self@.session_id,
            r.cwd@ == self@.cwd,
            r.model@ == self@.model,
            r.started_at == self@.started_at,
    {
        &self.header
    }

    /// Where the transcript is.
    pub fn path(&self) -> (r: Option<&str>)
        ensures
            match (r, self@.path) {
                (Some(p), Some(s)) => p@ == s,
                (None, None) => true,
                _ => false,
            },
    {
        match &self.path {
            Some(p) => Some(p.as_str()),
            None => None,
        }
    }

    /// What hooks are told of the session.
    pub fn hooks(&self) -> (r: &HookConfig)
        ensures
            r@ == self@.hooks,
    {
        &self.hooks
    }

    /// Says how opening the transcript went. If it could not be opened
    /// nothing more is recorded.
    pub fn opened(&mut self, ok: bool)
        ensures
            final(self)@ == after_opening(old(self)@, ok),
    {
        self.open = ok;
        if !ok {
            self.path = None;
        }
    }

    /// A prompt is about to start a run: the transcript is made, the session
    /// is announced the first time, and the prompt every time.
    pub fn before_prompt(&mut self, prompt: &str) -> (r: Vec<RecorderAction>)
        ensures
            final(self)@ == after_prompt(old(self)@),
            ({
                let first = if must_open(old(self)@) {
                    1int
                } else {
                    0int
                };
                let second = if old(self)@.started {
                    0int
                } else {
                    1int
                };
                &&& r@.len() == first + second + 1
                &&& first == 1 ==> r@[0] is Open
                &&& second == 1 ==> (r@[first] matches RecorderAction::Dispatch(e)
                    && e is SessionStart)
                &&& r@.last() matches RecorderAction::Dispatch(e)
                &&& e matches HookEvent::UserPromptSubmit { prompt: p }
                &&& p@ == prompt@
            }),
    {
        let mut out: Vec<RecorderAction> = Vec::new();
        if !self.open && self.path.is_some() {
            out.push(RecorderAction::Open);
        }
        if !self.started {
            self.started = true;
            out.push(RecorderAction::Dispatch(HookEvent::SessionStart));
        }
        out.push(
            RecorderAction::Dispatch(HookEvent::UserPromptSubmit { prompt: prompt.to_owned() }),
        );
        out
    }

    /// A prompt was queued while the agent works.
    pub fn on_steer(&self, prompt: &str) -> (r: RecorderAction)
        ensures
            r matches RecorderAction::Fire(e) && (e matches HookEvent::UserPromptSubmit {
                prompt: p,
            } && p@ == prompt@),
    {
        RecorderAction::Fire(HookEvent::UserPromptSubmit { prompt: prompt.to_owned() })
    }

    /// A message is final: it is appended, if the session is kept at all.
    pub fn record(&self) -> (r: Vec<RecorderAction>)
        ensures
            recording(self@, r@),
    {
        let mut out: Vec<RecorderAction> = Vec::new();
        if self.open {
            out.push(RecorderAction::Append);
        } else if self.path.is_some() {
            out.push(RecorderAction::Open);
            out.push(RecorderAction::Append);
        }
        out
    }

    /// The agent is done.
    pub fn on_agent_end(&self) -> (r: RecorderAction)
        ensures
            r matches RecorderAction::Fire(e) && e is Stop,
    {
        RecorderAction::Fire(HookEvent::Stop)
    }

    /// The session ends. One that had no prompt ends in silence.
    pub fn end_session(&self) -> (r: Option<RecorderAction>)
        ensures
            match r {
                Some(a) => self@.started && (a matches RecorderAction::Dispatch(e)
                    && e is SessionEnd),
                None => !self@.started,
            },
    {
        if self.started {
            Some(RecorderAction::Dispatch(HookEvent::SessionEnd))
        } else {
            None
        }
    }
}

/// A session without a home keeps nothing, and neither does one whose
/// transcript could not be opened: there is nothing to open, a message leads
/// to no write, and no later prompt changes that.
pub proof fn law_no_home_keeps_nothing(
    cwd: Seq<char>,
    id: Seq<char>,
    model: Seq<char>,
    now: u64,
    v: RecorderView,
    r: Seq<RecorderAction>,
)
    ensures
        unrecorded(fresh(None, cwd, id, model, now)),
        unrecorded(after_opening(v, false)),
        unrecorded(v) ==> !must_open(v) && unrecorded(after_prompt(v)),
        unrecorded(v) && recording(v, r) ==> r.len() == 0,
{
}

// ---------------------------------------------------------------------------
// Listing
// ---------------------------------------------------------------------------

/// A session of a project.
#[derive(Debug)]
pub struct SessionSummary {
    pub id: String,
    pub started_at: u64,
    pub message_count: usize,
    pub model: String,
    pub label: String,
}

/// The first text of the user from `from` on.
pub open spec fn first_prompt(v: Seq<AgentMessage>, from: int) -> Option<Seq<char>>
    decreases v.len() - from,
{
    if from >= v.len() {
        None
    } else {
        match v[from] {
            AgentMessage::Llm(Message::User(u)) => match u.content {
                UserBody::Text(t) => Some(t@),
                UserBody::Blocks(_) => first_prompt(v, from + 1),
            },
            _ => first_prompt(v, from + 1),
        }
    }
}

/// The label of a session: the first line of its first prompt.
pub open spec fn label_of(v: Seq<AgentMessage>) -> Seq<char> {
    match first_prompt(v, 0) {
        Some(s) => {
            let lines = text::lines_of(text::trim(s));
            if lines.len() > 0 {
                lines[0]
            } else {
                Seq::empty()
            }
        },
        None => Seq::empty(),
    }
}

fn find_prompt(v: &Vec<AgentMessage>) -> (r: Option<String>)
    ensures
        resources::opt(r) == first_prompt(v@, 0),
{
    let mut i: usize = 0;
    while i < v.len()
        invariant
            i <= v@.len(),
            first_prompt(v@, 0) == first_prompt(v@, i as int),
        decreases v@.len() - i,
    {
        if let AgentMessage::Llm(Message::User(u)) = &v[i] {
            if let UserBody::Text(t) = &u.content {
                return Some(t.clone());
            }
        }
        i += 1;
    }
    None
}

/// Sums a session up for a listing.
pub fn summarize(header: &TranscriptHeader, messages: &Vec<AgentMessage>) -> (r: SessionSummary)
    ensures
        r.id@ == header.session_id@,
        r.started_at == header.started_at,
        r.message_count == messages@.len(),
        r.model@ == header.model@,
        r.label@ == label_of(messages@),
{
    let label = match find_prompt(messages) {
        Some(s) => {
            let lines = split_lines(&text::trimmed(&chars_of(s.as_str())));
            assert(text::views(lines@).len() == lines@.len());
            if lines.len() > 0 {
                assert(text::views(lines@)[0] == lines@[0]@);
                to_text(&lines[0])
            } else {
                let e = String::new();
                assert(e@ =~= Seq::empty());
                e
            }
        },
        None => String::new(),
    };
    SessionSummary {
        id: header.session_id.clone(),
        started_at: header.started_at,
        message_count: messages.len(),
        model: header.model.clone(),
        label,
    }
}

/// Letters, digits, `_` and `-` stay in a slug, and every other character
/// becomes `-`, each in its own place.
pub proof fn law_slugs_go_by_the_character(s: Seq<char>, k: int)
    requires
        0 <= k < s.len(),
    ensures
        slug(s).len() == s.len(),
        'a' <= s[k] <= 'z' || 'A' <= s[k] <= 'Z' || '0' <= s[k] <= '9' ==> slug(s)[k] == s[k],
        s[k] == '_' ==> slug(s)[k] == '_',
        s[k] == '/' || s[k] == '.' || s[k] == ' ' || s[k] == ':' || s[k] == '\\' ==> slug(s)[k]
            == '-',
        s[k] as int >= 128 ==> slug(s)[k] == '-',
        slug(s)[k] != s[k] ==> slug(s)[k] == '-',
{
    let c = s[k];
    assert(c as int >= 128 ==> !is_slug_char(c));
}

/// The transcript of a session lies below the home, in a directory that is
/// named after the project, and has the id of the session as its name.
pub proof fn law_transcripts_lie_below_the_home(home: Seq<char>, cwd: Seq<char>, id: Seq<char>)
    requires
        home.len() > 0 && home.last() != '/',
        cwd.len() > 0,
        id.len() > 0 && id[0] != '/',
    ensures
        transcript_path(Some(home), cwd, id) == Some(
            home + "/sessions/"@ + slug(cwd) + "/"@ + id + ".jsonl"@,
        ),
        transcript_path(None, cwd, id) is None,
        is_transcript(id + ".jsonl"@),
{
    reveal_strlit("sessions");
    reveal_strlit("/sessions/");
    reveal_strlit("/");
    reveal_strlit(".jsonl");
    law_slugs_are_safe(cwd);
    assert(is_slug_char(slug(cwd)[0]));
    assert(is_slug_char(slug(cwd)[slug(cwd).len() - 1]));
    let a = paths::joined(home, "sessions"@);
    assert(a =~= home + "/"@ + "sessions"@);
    let b = paths::joined(a, slug(cwd));
    assert(b =~= home + "/sessions/"@ + slug(cwd));
    assert(b.last() == slug(cwd).last());
    let file = id + ".jsonl"@;
    assert(file[0] == id[0]);
    assert(paths::joined(b, file) =~= home + "/sessions/"@ + slug(cwd) + "/"@ + id + ".jsonl"@);
    assert(file.skip(file.len() - 6) =~= ".jsonl"@);
}

/// A file is a transcript when something stands before `.jsonl` in its name.
pub proof fn law_transcripts_are_told_by_their_names(name: Seq<char>)
    ensures
        is_transcript(name) <==> name.len() > 6 && name == name.take(name.len() - 6) + seq![
            '.',
            'j',
            's',
            'o',
            'n',
            'l',
        ],
{
    reveal_strlit(".jsonl");
    let end = seq!['.', 'j', 's', 'o', 'n', 'l'];
    assert(".jsonl"@ =~= end);
    if name.len() > 6 {
        if is_transcript(name) {
            assert(name =~= name.take(name.len() - 6) + end);
        }
        if name == name.take(name.len() - 6) + end {
            assert(name.skip(name.len() - 6) =~= end);
        }
    }
}

proof fn lemma_last_of_the_newest(files: Seq<(String, u64)>, n: int)
    requires
        0 <= n <= files.len(),
    ensures
        newest(files, n) matches Some(i) ==> forall|k: int|
            i < k < n && is_transcript((#[trigger] files[k]).0@) ==> files[k].1 < files[i].1,
    decreases n,
{
    if n > 0 {
        lemma_last_of_the_newest(files, n - 1);
    }
}

/// Of transcripts that are equally new the last one is resumed.
pub proof fn law_of_equals_the_last_is_resumed(files: Seq<(String, u64)>, i: int)
    requires
        newest(files, files.len() as int) == Some(i),
    ensures
        forall|k: int|
            i < k < files.len() && is_transcript((#[trigger] files[k]).0@) ==> files[k].1
                < files[i].1,
{
    lemma_last_of_the_newest(files, files.len() as int);
}

proof fn lemma_message_lines_filter(lines: Seq<Seq<char>>, from: int)
    requires
        0 <= from <= lines.len(),
    ensures
        message_lines(lines, from).map_values(|x: (int, Seq<char>)| x.1) == lines.skip(
            from,
        ).filter(|l: Seq<char>| !text::is_blank(l)),
        forall|k: int|
            0 <= k < message_lines(lines, from).len() ==> from < (#[trigger] message_lines(
                lines,
                from,
            )[k]).0 <= lines.len() && lines[message_lines(lines, from)[k].0 - 1]
                == message_lines(lines, from)[k].1,
    decreases lines.len() - from,
{
    reveal(Seq::filter);
    let keep = |l: Seq<char>| !text::is_blank(l);
    let second = |x: (int, Seq<char>)| x.1;
    let all = message_lines(lines, from);
    if from >= lines.len() {
        assert(lines.skip(from) =~= Seq::empty());
        assert(all.map_values(second) =~= Seq::empty());
    } else {
        lemma_message_lines_filter(lines, from + 1);
        let more = message_lines(lines, from + 1);
        assert(lines.skip(from) =~= seq![lines[from]] + lines.skip(from + 1));
        lines.skip(from + 1).lemma_filter_prepend(lines[from], keep);
        if text::is_blank(lines[from]) {
        } else {
            assert(all =~= seq![(from + 1, lines[from])] + more);
            assert(all.map_values(second) =~= seq![lines[from]] + more.map_values(second));
            assert forall|k: int| 0 <= k < all.len() implies from < (#[trigger] all[k]).0
                <= lines.len() && lines[all[k].0 - 1] == all[k].1 by {
                if k > 0 {
                    assert(all[k] == more[k - 1]);
                }
            }
        }
    }
}

/// The messages of a transcript are its lines behind the first one, without
/// the blank ones and in their order, and each has the number under which an
/// editor shows it.
pub proof fn law_every_line_that_holds_something_is_read(lines: Seq<Seq<char>>)
    requires
        lines.len() > 0,
    ensures
        message_lines(lines, 1).map_values(|x: (int, Seq<char>)| x.1) == lines.skip(1).filter(
            |l: Seq<char>| !text::is_blank(l),
        ),
        forall|k: int|
            0 <= k < message_lines(lines, 1).len() ==> 1 < (#[trigger] message_lines(
                lines,
                1,
            )[k]).0 <= lines.len() && lines[message_lines(lines, 1)[k].0 - 1] == message_lines(
                lines,
                1,
            )[k].1,
{
    lemma_message_lines_filter(lines, 1);
}

proof fn lemma_readable(v: Seq<Option<AgentMessage>>, n: int)
    requires
        0 <= n <= v.len(),
    ensures
        readable(v, n).map_values(|m: AgentMessage| Some(m)) == v.take(n).filter(
            |m: Option<AgentMessage>| m is Some,
        ),
    decreases n,
{
    reveal(Seq::filter);
    let keep = |m: Option<AgentMessage>| m is Some;
    let wrap = |m: AgentMessage| Some(m);
    if n > 0 {
        lemma_readable(v, n - 1);
        assert(v.take(n).drop_last() =~= v.take(n - 1));
        assert(v.take(n).last() == v[n - 1]);
        match v[n - 1] {
            Some(m) => {
                assert(readable(v, n).map_values(wrap) =~= readable(v, n - 1).map_values(
                    wrap,
                ).push(Some(m)));
            },
            None => {},
        }
    } else {
        assert(v.take(n) =~= Seq::empty());
        assert(readable(v, n).map_values(wrap) =~= Seq::empty());
    }
}

/// Every message that could be read is taken up, in its order, and nothing
/// else: one broken line costs no other message.
pub proof fn law_only_broken_lines_are_lost(v: Seq<Option<AgentMessage>>)
    ensures
        readable(v, v.len() as int).map_values(|m: AgentMessage| Some(m)) == v.filter(
            |m: Option<AgentMessage>| m is Some,
        ),
{
    lemma_readable(v, v.len() as int);
    assert(v.take(v.len() as int) =~= v);
}

/// As long as a session has a place to be kept, every message is appended
/// exactly once, and the transcript is opened at most once before.
pub proof fn law_every_message_is_appended(v: RecorderView, r: Seq<RecorderAction>, ok: bool)
    requires
        v.open || v.path is Some,
        recording(v, r),
    ensures
        r.filter(|a: RecorderAction| a is Append).len() == 1,
        r.last() is Append,
        v.open ==> !(r[0] is Open),
        !v.open ==> r[0] is Open,
        !must_open(after_opening(v, ok)),
        after_opening(v, true).open && after_opening(v, true).path == v.path,
        after_opening(v, ok).started == v.started,
        after_prompt(v).started && after_prompt(v).open == v.open && after_prompt(v).path == v.path,
{
    reveal(Seq::filter);
    let keep = |a: RecorderAction| a is Append;
    assert(r.drop_last().len() <= 1);
    if r.len() == 2 {
        assert(r.drop_last().drop_last() =~= Seq::empty());
        assert(r.drop_last().last() == r[0]);
        assert(r.drop_last().drop_last().filter(keep) =~= Seq::empty());
        assert(!keep(r[0]));
        assert(r.drop_last().filter(keep) =~= Seq::empty());
    } else {
        assert(r.drop_last() =~= Seq::empty());
    }
    assert(r.filter(keep) =~= seq![r.last()]);
}

/// A session starts with nothing open and nothing announced, under its own
/// id, and looks for hooks with the user before the project.
pub proof fn law_sessions_start_fresh(
    home: Seq<char>,
    cwd: Seq<char>,
    id: Seq<char>,
    model: Seq<char>,
    now: u64,
)
    ensures
        ({
            let v = fresh(Some(home), cwd, id, model, now);
            &&& v.session_id == id && v.cwd == cwd && v.model == model && v.started_at == now
            &&& v.version == 1
            &&& !v.open && !v.started
            &&& must_open(v)
            &&& v.hooks.session_id == id && v.hooks.cwd == cwd
            &&& v.path == Some(v.hooks.session_ref)
            &&& v.hooks.roots == seq![home, paths::joined(cwd, ".cupel"@)]
        }),
        fresh(None, cwd, id, model, now).hooks.session_ref.len() == 0,
        fresh(None, cwd, id, model, now).hooks.roots == seq![paths::joined(cwd, ".cupel"@)],
{
}

/// Whether a message is a prompt in plain text.
pub open spec fn is_plain_prompt(m: AgentMessage) -> bool {
    match m {
        AgentMessage::Llm(Message::User(u)) => u.content is Text,
        _ => false,
    }
}

proof fn lemma_prompt_at(v: Seq<AgentMessage>, from: int, at: int, t: String)
    requires
        0 <= from <= at < v.len(),
        forall|k: int| from <= k < at ==> !is_plain_prompt(#[trigger] v[k]),
        v[at] matches AgentMessage::Llm(Message::User(u)) && u.content == UserBody::Text(t),
    ensures
        first_prompt(v, from) == Some(t@),
    decreases at - from,
{
    if from < at {
        assert(!is_plain_prompt(v[from]));
        lemma_prompt_at(v, from + 1, at, t);
    }
}

/// A session is listed under the first line of its first prompt, whatever
/// stands before that prompt and whatever follows it.
pub proof fn law_sessions_are_listed_by_their_first_prompt(
    v: Seq<AgentMessage>,
    at: int,
    t: String,
    line: Seq<char>,
    more: Seq<char>,
)
    requires
        0 <= at < v.len(),
        forall|k: int| 0 <= k < at ==> !is_plain_prompt(#[trigger] v[k]),
        v[at] matches AgentMessage::Llm(Message::User(u)) && u.content == UserBody::Text(t),
        t@ == line || t@ == line + seq!['\n'] + more,
        line.len() > 0 && !line.contains('\n'),
        !text::is_white_space(line[0]) && !text::is_white_space(line.last()),
    ensures
        label_of(v) == line,
{
    lemma_prompt_at(v, 0, at, t);
    let s = t@;
    assert(s[0] == line[0]);
    text::lemma_leading_space(s);
    assert(text::leading_space(s) == 0);
    assert(text::trim_start(s) =~= s);
    text::lemma_trim_end(s);
    let c = text::trim(s);
    let n = line.len() as int;
    assert(s[n - 1] == line.last());
    assert(c.len() >= n);
    assert(c.take(n) =~= line);
    if c.len() > n {
        assert(c[n] == '\n');
    }
    assert forall|k: int| 0 <= k < n implies c[k] != '\n' by {
        assert(c[k] == line[k]);
        assert(line.contains(line[k]));
    }
    text::lemma_find_from_is(c, '\n', 0, n);
    text::lemma_split_on(c, '\n');
    let parts = text::split_on(c, '\n');
    assert(!text::is_white_space('\n') || line.last() != '\r');
    if c.len() == n {
        assert(parts =~= seq![c]);
        assert(c =~= line);
        assert(text::lines_of(c) =~= seq![line]);
    } else {
        assert(parts[0] == line);
        text::lemma_split_on(c.skip(n + 1), '\n');
        assert(parts.len() >= 2);
        assert(parts.drop_last()[0] == line);
        assert(text::drop_cr(line) == line);
        assert(text::lines_of(c)[0] == line);
    }
}

} // verus!
