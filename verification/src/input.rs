//! The input editor: a small text buffer with a cursor and prompt history.
//!
//! The cursor counts characters, not bytes, so that no position ever falls
//! into the middle of a character.
use vstd::prelude::*;

use crate::text::{chars_of, to_text};
use crate::text;

verus! {

/// The editor.
pub struct InputState {
    buffer: String,
    cursor: usize,
    history: Vec<String>,
    history_index: Option<usize>,
    stash: String,
}

/// What the editor holds: the text, the cursor in characters from its start,
/// the submitted prompts from the oldest on, the place in them while they are
/// browsed, and what was being typed before that.
pub struct InputView {
    pub text: Seq<char>,
    pub cursor: int,
    pub history: Seq<Seq<char>>,
    pub index: Option<int>,
    pub stash: Seq<char>,
}

impl View for InputState {
    type V = InputView;

    closed spec fn view(&self) -> InputView {
        InputView {
            text: self.buffer@,
            cursor: self.cursor as int,
            history: text::texts(self.history@),
            index: match self.history_index {
                Some(i) => Some(i as int),
                None => None,
            },
            stash: self.stash@,
        }
    }
}

/// The cursor is within the text, the browsed entry is one of the history.
pub open spec fn input_ok(v: InputView) -> bool {
    0 <= v.cursor <= v.text.len() && (v.index matches Some(i) ==> 0 <= i < v.history.len())
}

/// The editor that nothing has been typed into.
pub open spec fn no_input() -> InputView {
    InputView {
        text: Seq::empty(),
        cursor: 0,
        history: Seq::empty(),
        index: None,
        stash: Seq::empty(),
    }
}

/// The start of the line that position `at` is on.
pub open spec fn line_start(s: Seq<char>, at: int) -> int
    decreases at,
{
    if at <= 0 {
        0
    } else if s[at - 1] == '\n' {
        at
    } else {
        line_start(s, at - 1)
    }
}

/// The line start lies at or before the position.
pub proof fn lemma_line_start(s: Seq<char>, at: int)
    requires
        0 <= at,
    ensures
        0 <= line_start(s, at) <= at,
        forall|k: int| line_start(s, at) <= k < at ==> s[k] != '\n',
        line_start(s, at) > 0 ==> s[line_start(s, at) - 1] == '\n',
    decreases at,
{
    if at > 0 && s[at - 1] != '\n' {
        lemma_line_start(s, at - 1);
    }
}

/// How many line feeds stand before position `at`.
pub open spec fn line_number(s: Seq<char>, at: int) -> nat
    decreases at,
{
    if at <= 0 {
        0
    } else if s[at - 1] == '\n' {
        line_number(s, at - 1) + 1
    } else {
        line_number(s, at - 1)
    }
}

/// The text with `piece` in place of the characters from `from` to `to`, the
/// cursor behind it.
pub open spec fn replaced(v: InputView, from: int, to: int, piece: Seq<char>) -> InputView {
    InputView {
        text: v.text.take(from) + piece + v.text.skip(to),
        cursor: from + piece.len(),
        index: None,
        ..v
    }
}

/// The editor with the character before the cursor gone.
pub open spec fn backspaced(v: InputView) -> InputView {
    if v.cursor == 0 {
        v
    } else {
        InputView { text: v.text.remove(v.cursor - 1), cursor: v.cursor - 1, ..v }
    }
}

/// The editor with the character at the cursor gone.
pub open spec fn deleted(v: InputView) -> InputView {
    if v.cursor >= v.text.len() {
        v
    } else {
        InputView { text: v.text.remove(v.cursor), ..v }
    }
}

/// The history once a text has been submitted: a blank text is not kept, nor
/// one that repeats the newest entry.
pub open spec fn remembered(history: Seq<Seq<char>>, t: Seq<char>) -> Seq<Seq<char>> {
    if text::is_blank(t) || (history.len() > 0 && history.last() == t) {
        history
    } else {
        history.push(t)
    }
}

/// The editor one step back in its history. The first step keeps what is
/// being typed.
pub open spec fn stepped_back(v: InputView) -> InputView {
    if v.history.len() == 0 {
        v
    } else {
        let next = match v.index {
            None => v.history.len() - 1,
            Some(i) => if i == 0 {
                0
            } else {
                i - 1
            },
        };
        InputView {
            text: v.history[next],
            cursor: v.history[next].len() as int,
            index: Some(next),
            stash: if v.index is None {
                v.text
            } else {
                v.stash
            },
            ..v
        }
    }
}

/// The editor one step forward; past the newest entry stands what was being
/// typed.
pub open spec fn stepped_forward(v: InputView) -> InputView {
    match v.index {
        None => v,
        Some(i) => if i + 1 < v.history.len() {
            InputView {
                text: v.history[i + 1],
                cursor: v.history[i + 1].len() as int,
                index: Some(i + 1),
                ..v
            }
        } else {
            InputView {
                text: v.stash,
                cursor: v.stash.len() as int,
                index: None,
                stash: Seq::empty(),
                ..v
            }
        },
    }
}

impl Default for InputState {
    /// An empty editor.
    fn default() -> (r: InputState)
        ensures
            r@ == no_input(),
    {
        let r = InputState {
            buffer: String::new(),
            cursor: 0,
            history: Vec::new(),
            history_index: None,
            stash: String::new(),
        };
        assert(r@.history =~= Seq::empty());
        r
    }
}

impl InputState {
    /// The text.
    pub fn text(&self) -> (r: &str)
        ensures
            r@ == self@.text,
    {
        self.buffer.as_str()
    }

    /// Whether there is no text.
    pub fn is_empty(&self) -> (r: bool)
        ensures
            r == (self@.text.len() == 0),
    {
        self.buffer.as_str().is_empty()
    }

    /// The cursor, in characters from the start.
    pub fn cursor(&self) -> (r: usize)
        ensures
            r == self@.cursor,
    {
        self.cursor
    }

    /// The cursor as line and column.
    pub fn cursor_line_col(&self) -> (r: (usize, usize))
        requires
            input_ok(self@),
        ensures
            r.0 == line_number(self@.text, self@.cursor),
            r.1 == self@.cursor - line_start(self@.text, self@.cursor),
    {
        let chars = chars_of(self.buffer.as_str());
        let mut line: usize = 0;
        let mut start: usize = 0;
        let mut i: usize = 0;
        while i < self.cursor
            invariant
                i <= self.cursor <= chars@.len(),
                chars@ == self@.text,
                line <= i,
                start <= i,
                line == line_number(chars@, i as int),
                start == line_start(chars@, i as int),
            decreases self.cursor - i,
        {
            if chars[i] == '\n' {
                line += 1;
                start = i + 1;
            }
            i += 1;
        }
        (line, self.cursor - start)
    }

    /// Inserts a character at the cursor.
    pub fn insert(&mut self, c: char)
        requires
            input_ok(old(self)@),
        ensures
            final(self)@ == replaced(old(self)@, old(self)@.cursor, old(self)@.cursor, seq![c]),
            input_ok(final(self)@),
    {
        let mut one = String::new();
        one.push(c);
        assert(one@ =~= seq![c]);
        let at: usize = self.cursor;
        self.replace_range(at, at, one.as_str());
    }

    /// Inserts a string at the cursor.
    pub fn insert_str(&mut self, s: &str)
        requires
            input_ok(old(self)@),
        ensures
            final(self)@ == replaced(old(self)@, old(self)@.cursor, old(self)@.cursor, s@),
            input_ok(final(self)@),
    {
        let at: usize = self.cursor;
        self.replace_range(at, at, s);
    }

    /// Replaces a range of characters and puts the cursor behind the new
    /// text.
    pub fn replace_range(&mut self, from: usize, to: usize, s: &str)
        requires
            input_ok(old(self)@),
            from <= to <= old(self)@.text.len(),
        ensures
            final(self)@ == replaced(old(self)@, from as int, to as int, s@),
            input_ok(final(self)@),
    {
        let chars = chars_of(self.buffer.as_str());
        let mut out = text::slice(&chars, 0, from);
        let mut piece = chars_of(s);
        out.append(&mut piece);
        let end: usize = out.len();
        let mut tail = text::slice(&chars, to, chars.len());
        out.append(&mut tail);
        assert(out@ =~= chars@.take(from as int) + s@ + chars@.skip(to as int));
        self.buffer = to_text(&out);
        self.cursor = end;
        self.history_index = None;
    }

    /// Backspace: removes the character before the cursor.
    pub fn delete_back(&mut self)
        requires
            input_ok(old(self)@),
        ensures
            final(self)@ == backspaced(old(self)@),
            input_ok(final(self)@),
    {
        if self.cursor == 0 {
            return;
        }
        let mut chars = chars_of(self.buffer.as_str());
        self.cursor = self.cursor - 1;
        let _gone = chars.remove(self.cursor);
        self.buffer = to_text(&chars);
    }

    /// Delete: removes the character at the cursor.
    pub fn delete_forward(&mut self)
        requires
            input_ok(old(self)@),
        ensures
            final(self)@ == deleted(old(self)@),
            input_ok(final(self)@),
    {
        let mut chars = chars_of(self.buffer.as_str());
        if self.cursor >= chars.len() {
            return;
        }
        let _gone = chars.remove(self.cursor);
        self.buffer = to_text(&chars);
    }

    /// One character to the left.
    pub fn move_left(&mut self)
        requires
            input_ok(old(self)@),
        ensures
            final(self)@ == (InputView {
                cursor: if old(self)@.cursor > 0 {
                    old(self)@.cursor - 1
                } else {
                    0
                },
                ..old(self)@
            }),
            input_ok(final(self)@),
    {
        if self.cursor > 0 {
            self.cursor = self.cursor - 1;
        }
    }

    /// One character to the right.
    pub fn move_right(&mut self)
        requires
            input_ok(old(self)@),
        ensures
            final(self)@ == (InputView {
                cursor: if old(self)@.cursor < old(self)@.text.len() {
                    old(self)@.cursor + 1
                } else {
                    old(self)@.cursor
                },
                ..old(self)@
            }),
            input_ok(final(self)@),
    {
        let n: usize = chars_of(self.buffer.as_str()).len();
        if self.cursor < n {
            self.cursor = self.cursor + 1;
        }
    }

    /// Home: the start of the current line.
    pub fn move_home(&mut self)
        requires
            input_ok(old(self)@),
        ensures
            final(self)@ == (InputView {
                cursor: line_start(old(self)@.text, old(self)@.cursor),
                ..old(self)@
            }),
            input_ok(final(self)@),
    {
        let chars = chars_of(self.buffer.as_str());
        let mut at: usize = self.cursor;
        while at > 0 && chars[at - 1] != '\n'
            invariant
                at <= chars@.len(),
                line_start(chars@, at as int) == line_start(chars@, self.cursor as int),
            decreases at,
        {
            at -= 1;
        }
        self.cursor = at;
    }

    /// End: the end of the current line.
    pub fn move_end(&mut self)
        requires
            input_ok(old(self)@),
        ensures
            final(self)@ == (InputView {
                cursor: text::find_from(old(self)@.text, '\n', old(self)@.cursor),
                ..old(self)@
            }),
            input_ok(final(self)@),
    {
        let chars = chars_of(self.buffer.as_str());
        self.cursor = text::find_char(&chars, '\n', self.cursor);
    }

    /// Takes the text for submission and records it in the history.
    pub fn submit(&mut self) -> (r: String)
        requires
            input_ok(old(self)@),
        ensures
            r@ == old(self)@.text,
            final(self)@ == (InputView {
                text: Seq::empty(),
                cursor: 0,
                index: None,
                history: remembered(old(self)@.history, old(self)@.text),
                ..old(self)@
            }),
            input_ok(final(self)@),
    {
        let ghost before = self@;
        let mut taken = String::new();
        std::mem::swap(&mut taken, &mut self.buffer);
        self.cursor = 0;
        self.history_index = None;
        let n: usize = self.history.len();
        assert(n > 0 ==> before.history.last() == self.history@.last()@);
        let repeats = n > 0 && self.history[n - 1] == taken;
        if !text::blank(taken.as_str()) && !repeats {
            let ghost h = self.history@;
            self.history.push(taken.clone());
            assert(text::texts(self.history@) =~= text::texts(h).push(taken@));
        }
        assert(self@.text =~= Seq::empty());
        taken
    }

    /// Up: one step back through the history.
    pub fn history_prev(&mut self)
        requires
            input_ok(old(self)@),
        ensures
            final(self)@ == stepped_back(old(self)@),
            input_ok(final(self)@),
    {
        let n: usize = self.history.len();
        if n == 0 {
            return;
        }
        let next: usize = match self.history_index {
            None => {
                self.stash = self.buffer.clone();
                n - 1
            },
            Some(i) => if i == 0 {
                0
            } else {
                i - 1
            },
        };
        self.history_index = Some(next);
        assert(self@.history[next as int] == self.history@[next as int]@);
        self.buffer = self.history[next].clone();
        self.cursor = chars_of(self.buffer.as_str()).len();
    }

    /// Down: one step forward through the history.
    pub fn history_next(&mut self)
        requires
            input_ok(old(self)@),
        ensures
            final(self)@ == stepped_forward(old(self)@),
            input_ok(final(self)@),
    {
        let n: usize = self.history.len();
        if let Some(i) = self.history_index {
            assert(self@.history.len() == n);
            if i + 1 < n {
                self.history_index = Some(i + 1);
                assert(self@.history[i + 1] == self.history@[i + 1]@);
                self.buffer = self.history[i + 1].clone();
            } else {
                self.history_index = None;
                let mut kept = String::new();
                std::mem::swap(&mut kept, &mut self.stash);
                self.buffer = kept;
                assert(self@.stash =~= Seq::empty());
            }
            self.cursor = chars_of(self.buffer.as_str()).len();
        }
    }
}

// ---------------------------------------------------------------------------
// Laws
// ---------------------------------------------------------------------------

/// Typing a character and deleting it again leaves text and cursor as they
/// were.
pub proof fn law_backspace_undoes_typing(v: InputView, c: char)
    requires
        input_ok(v),
    ensures
        ({
            let after = backspaced(replaced(v, v.cursor, v.cursor, seq![c]));
            after.text == v.text && after.cursor == v.cursor
        }),
{
    let typed = replaced(v, v.cursor, v.cursor, seq![c]);
    assert(typed.text.remove(typed.cursor - 1) =~= v.text);
}

/// Typing one text after another is typing both at once.
pub proof fn law_typing_joins(v: InputView, a: Seq<char>, b: Seq<char>)
    requires
        input_ok(v),
    ensures
        ({
            let once = replaced(v, v.cursor, v.cursor, a);
            replaced(once, once.cursor, once.cursor, b) == replaced(v, v.cursor, v.cursor, a + b)
        }),
{
    let once = replaced(v, v.cursor, v.cursor, a);
    let twice = replaced(once, once.cursor, once.cursor, b);
    assert(twice.text =~= replaced(v, v.cursor, v.cursor, a + b).text);
}

/// `n` steps back.
pub open spec fn back(v: InputView, n: nat) -> InputView
    decreases n,
{
    if n == 0 {
        v
    } else {
        stepped_back(back(v, (n - 1) as nat))
    }
}

/// `n` steps forward.
pub open spec fn forth(v: InputView, n: nat) -> InputView
    decreases n,
{
    if n == 0 {
        v
    } else {
        forth(stepped_forward(v), (n - 1) as nat)
    }
}

proof fn lemma_back(v: InputView, n: nat)
    requires
        v.index is None,
        1 <= n <= v.history.len(),
    ensures
        back(v, n).index == Some(v.history.len() - n),
        back(v, n).text == v.history[v.history.len() - n],
        back(v, n).stash == v.text,
        back(v, n).history == v.history,
    decreases n,
{
    if n > 1 {
        lemma_back(v, (n - 1) as nat);
    } else {
        assert(back(v, 0) == v);
    }
}

proof fn lemma_forth(v: InputView, n: nat)
    requires
        v.index == Some(v.history.len() - n),
        1 <= n <= v.history.len(),
    ensures
        forth(v, n).text == v.stash,
        forth(v, n).index is None,
        forth(v, n).cursor == v.stash.len(),
        forth(v, n).history == v.history,
    decreases n,
{
    let once = stepped_forward(v);
    if n > 1 {
        lemma_forth(once, (n - 1) as nat);
    } else {
        assert(forth(once, 0) == once);
    }
}

/// However far one goes back in the history, going forward as often brings
/// back what was being typed.
pub proof fn law_history_round_trip(v: InputView, n: nat)
    requires
        v.index is None,
        1 <= n <= v.history.len(),
    ensures
        forth(back(v, n), n).text == v.text,
        forth(back(v, n), n).index is None,
        forth(back(v, n), n).history == v.history,
{
    lemma_back(v, n);
    lemma_forth(back(v, n), n);
}

/// The history never holds the same prompt twice in a row, and no blank one.
pub open spec fn history_ok(history: Seq<Seq<char>>) -> bool {
    &&& forall|k: int| 0 <= k < history.len() ==> !text::is_blank(#[trigger] history[k])
    &&& forall|j: int, k: int|
        0 <= j && k == j + 1 && k < history.len() ==> #[trigger] history[j] != #[trigger] history[k]
}

/// Submitting keeps the history free of blank and repeated entries.
pub proof fn law_history_has_no_repeats(history: Seq<Seq<char>>, t: Seq<char>)
    requires
        history_ok(history),
    ensures
        history_ok(remembered(history, t)),
{
}

/// The number of a line is the number of line feeds before the cursor.
pub proof fn law_lines_are_counted_by_line_feeds(s: Seq<char>, at: int)
    requires
        0 <= at <= s.len(),
    ensures
        line_number(s, at) == s.take(at).filter(|c: char| c == '\n').len(),
        !s.subrange(line_start(s, at), at).contains('\n'),
        line_start(s, at) == 0 || s[line_start(s, at) - 1] == '\n',
    decreases at,
{
    reveal(Seq::filter);
    lemma_line_start(s, at);
    let feed = |c: char| c == '\n';
    if at > 0 {
        law_lines_are_counted_by_line_feeds(s, at - 1);
        assert(s.take(at).drop_last() =~= s.take(at - 1));
        assert(s.take(at).last() == s[at - 1]);
    } else {
        assert(s.take(at) =~= Seq::empty());
    }
    let line = s.subrange(line_start(s, at), at);
    if line.contains('\n') {
        let k = choose|k: int| 0 <= k < line.len() && line[k] == '\n';
        assert(s[line_start(s, at) + k] == '\n');
    }
}

/// What stands before and behind a replaced range stays, the new text stands
/// between them, and the cursor is behind it.
pub proof fn law_replacing_keeps_the_rest(v: InputView, from: int, to: int, piece: Seq<char>)
    requires
        0 <= from <= to <= v.text.len(),
    ensures
        ({
            let after = replaced(v, from, to, piece);
            &&& after.text.take(from) == v.text.take(from)
            &&& after.text.subrange(from, from + piece.len()) == piece
            &&& after.text.skip(from + piece.len()) == v.text.skip(to)
            &&& after.text.take(after.cursor) == v.text.take(from) + piece
            &&& after.history == v.history
        }),
{
    let after = replaced(v, from, to, piece);
    assert(after.text.take(from) =~= v.text.take(from));
    assert(after.text.subrange(from, from + piece.len()) =~= piece);
    assert(after.text.skip(from + piece.len()) =~= v.text.skip(to));
    assert(after.text.take(after.cursor) =~= v.text.take(from) + piece);
}

/// Deleting forward takes the character behind the cursor, as going over it
/// and deleting back would.
pub proof fn law_deleting_forward_is_deleting_back(v: InputView)
    requires
        input_ok(v),
        v.cursor < v.text.len(),
    ensures
        deleted(v) == backspaced(InputView { cursor: v.cursor + 1, ..v }),
        deleted(v).text == v.text.take(v.cursor) + v.text.skip(v.cursor + 1),
        deleted(v).cursor == v.cursor,
{
    assert(v.text.remove(v.cursor) =~= v.text.take(v.cursor) + v.text.skip(v.cursor + 1));
}

/// At the ends of the text there is nothing to delete.
pub proof fn law_nothing_is_deleted_at_the_ends(v: InputView)
    ensures
        v.cursor == 0 ==> backspaced(v) == v,
        v.cursor == v.text.len() ==> deleted(v) == v,
{
}

/// Every prompt that says something is remembered, last, unless it repeats
/// the one before it.
pub proof fn law_prompts_are_remembered(history: Seq<Seq<char>>, t: Seq<char>)
    ensures
        !text::is_blank(t) && (history.len() == 0 || history.last() != t) ==> remembered(history, t)
            == history.push(t),
        !text::is_blank(t) ==> remembered(history, t).last() == t,
        text::is_blank(t) ==> remembered(history, t) == history,
        remembered(remembered(history, t), t) == remembered(history, t),
{
}

/// Going back `n` times shows the `n`th latest prompt, whole and with the
/// cursor at its end, and going on at the oldest one stays there.
pub proof fn law_history_goes_back_one_by_one(v: InputView, n: nat)
    requires
        v.index is None,
        1 <= n,
        v.history.len() > 0,
    ensures
        n <= v.history.len() ==> back(v, n).text == v.history[v.history.len() - n],
        n > v.history.len() ==> back(v, n).text == v.history[0],
        back(v, n).cursor == back(v, n).text.len(),
        back(v, n).history == v.history,
        back(v, n).stash == v.text,
        back(v, n).index == Some(
            if n <= v.history.len() {
                v.history.len() - n
            } else {
                0
            },
        ),
    decreases n,
{
    reveal_with_fuel(back, 2);
    if n > 1 {
        law_history_goes_back_one_by_one(v, (n - 1) as nat);
    }
}

} // verus!
