//! What a frame shows: which rows, where the cursor stands, where the popup
//! goes, and what the status line says.
use vstd::prelude::*;

use crate::app::{App, AppView, Area, Shown};
use crate::autocomplete::{Candidate, CandidateView};
use crate::compaction::count_bytes;
use crate::levels::thinking_level_name;
use crate::lines::Line;
use crate::messages::dollars_text;
use crate::panes::{Columns, ColumnsView};
use crate::text::{chars_of, concat2, concat3, decimal_text, push_repeated, split_chars};
use crate::transcript::{Cell, CellView};
use crate::wrap::{range_width, wrap_chars};
use crate::{autocomplete, compaction, input, levels, lines, messages, panes, text, wrap};

verus! {

/// The share of the conversation in the width, in percent, while there are
/// tools beside it.
pub const CHAT_PANE_PERCENT: u16 = 60;

/// How many rows of input are visible at most.
pub const MAX_INPUT_ROWS: usize = 5;

// ---------------------------------------------------------------------------
// The input
// ---------------------------------------------------------------------------

/// How many rows the first `k` lines take.
pub open spec fn rows_before(lines: Seq<Seq<char>>, k: int, width: int) -> nat
    decreases k,
{
    if k <= 0 {
        0
    } else {
        rows_before(lines, k - 1, width) + wrap::wrapped(lines[k - 1], width).len()
    }
}

/// The row, from `i` on, and the column of a position in a wrapped line. A
/// position between two rows belongs to the second one.
pub open spec fn locate(rows: Seq<Seq<char>>, i: int, remaining: int) -> (int, nat)
    decreases rows.len() - i,
{
    if i + 1 >= rows.len() || remaining < rows[i].len() {
        (i, wrap::cols(rows[i].take(remaining)))
    } else {
        locate(rows, i + 1, remaining - rows[i].len())
    }
}

/// The row and the column of a position, counted from the start of line `k`.
pub open spec fn cursor_from(lines: Seq<Seq<char>>, k: int, remaining: int, width: int) -> (int, nat)
    decreases lines.len() - k,
{
    if k >= lines.len() {
        (rows_before(lines, k, width) as int, 0)
    } else if remaining <= lines[k].len() {
        let (i, c) = locate(wrap::wrapped(lines[k], width), 0, remaining);
        (rows_before(lines, k, width) + i, c)
    } else {
        cursor_from(lines, k + 1, remaining - lines[k].len() - 1, width)
    }
}

/// The row and the column of the cursor in a text that is wrapped.
pub open spec fn cursor_at(s: Seq<char>, cursor: int, width: int) -> (int, nat) {
    cursor_from(text::split_on(s, '\n'), 0, cursor, width)
}

/// How many characters the first `k` lines take, with their ends.
pub open spec fn span(lines: Seq<Seq<char>>, k: int) -> nat
    decreases k,
{
    if k <= 0 {
        0
    } else {
        span(lines, k - 1) + lines[k - 1].len() + 1
    }
}

proof fn lemma_span_shift(first: Seq<char>, rest: Seq<Seq<char>>, k: int)
    requires
        0 <= k <= rest.len(),
    ensures
        span(seq![first] + rest, k + 1) == first.len() + 1 + span(rest, k),
    decreases k,
{
    let all = seq![first] + rest;
    if k > 0 {
        lemma_span_shift(first, rest, k - 1);
        assert(all[k] == rest[k - 1]);
    } else {
        assert(all[0] == first);
        assert(span(all, 0) == 0);
    }
}

/// The lines of a text, with their ends, are as long as the text and one
/// more end.
pub proof fn lemma_span_total(s: Seq<char>)
    ensures
        span(text::split_on(s, '\n'), text::split_on(s, '\n').len() as int) == s.len() + 1,
    decreases s.len(),
{
    text::lemma_split_on(s, '\n');
    text::lemma_find_from(s, '\n', 0);
    let at = text::find_from(s, '\n', 0);
    if at >= s.len() {
        let one = seq![s];
        assert(span(one, 0) == 0);
        assert(span(one, 1) == s.len() + 1);
    } else {
        let rest = text::split_on(s.skip(at + 1), '\n');
        lemma_span_total(s.skip(at + 1));
        lemma_span_shift(s.take(at), rest, rest.len() as int);
    }
}

proof fn lemma_rows_span(lines: Seq<Seq<char>>, k: int, width: nat)
    requires
        0 <= k <= lines.len(),
    ensures
        rows_before(lines, k, width as int) <= span(lines, k),
    decreases k,
{
    if k > 0 {
        lemma_rows_span(lines, k - 1, width);
        wrap::law_rows_are_not_empty(lines[k - 1], width);
    }
}

fn locate_in(rows: &Vec<Vec<char>>, remaining: usize) -> (r: (usize, u128))
    requires
        rows@.len() >= 1,
        remaining <= wrap::concat(text::views(rows@)).len(),
        rows@.len() > 1 ==> forall|k: int| 0 <= k < rows@.len() ==> (#[trigger] rows@[k])@.len() > 0,
    ensures
        (r.0 as int, r.1 as nat) == locate(text::views(rows@), 0, remaining as int),
        r.0 < rows@.len(),
        r.0 <= remaining,
{
    let ghost views = text::views(rows@);
    let mut left: usize = remaining;
    let mut i: usize = 0;
    proof {
        lemma_tail_whole(views);
    }
    while rows.len() - i > 1 && left >= rows[i].len()
        invariant
            i < rows@.len(),
            views == text::views(rows@),
            left <= remaining,
            i <= remaining - left,
            left <= tail_len(views, i as int),
            rows@.len() > 1 ==> forall|k: int|
                0 <= k < rows@.len() ==> (#[trigger] rows@[k])@.len() > 0,
            locate(views, 0, remaining as int) == locate(views, i as int, left as int),
        decreases rows@.len() - i,
    {
        assert(views[i as int] == rows@[i as int]@);
        left = left - rows[i].len();
        i += 1;
    }
    assert(views[i as int] == rows@[i as int]@);
    proof {
        if i + 1 >= rows@.len() {
            assert(tail_len(views, i + 1) == 0);
        }
    }
    let column: u128 = range_width(&rows[i], 0, left);
    assert(rows@[i as int]@.subrange(0, left as int) =~= views[i as int].take(left as int));
    (i, column)
}

/// How many characters the rows from `i` on hold.
spec fn tail_len(rows: Seq<Seq<char>>, i: int) -> nat
    decreases rows.len() - i,
{
    if i >= rows.len() {
        0
    } else {
        rows[i].len() + tail_len(rows, i + 1)
    }
}

proof fn lemma_tail_whole(rows: Seq<Seq<char>>)
    ensures
        tail_len(rows, 0) == wrap::concat(rows).len(),
    decreases rows.len(),
{
    if rows.len() > 0 {
        lemma_tail_whole(rows.drop_last());
        lemma_tail_last(rows, 0);
    }
}

proof fn lemma_tail_last(rows: Seq<Seq<char>>, i: int)
    requires
        rows.len() > 0,
        0 <= i < rows.len(),
    ensures
        tail_len(rows, i) == tail_len(rows.drop_last(), i) + rows.last().len(),
    decreases rows.len() - i,
{
    if i + 1 < rows.len() {
        lemma_tail_last(rows, i + 1);
        assert(rows.drop_last()[i] == rows[i]);
    } else {
        assert(tail_len(rows, i + 1) == 0);
    }
}

/// Finds the row and the column of the cursor in the input as it is wrapped
/// on the screen. The cursor counts characters.
pub fn visual_cursor(s: &str, cursor: usize, width: usize) -> (r: (usize, u128))
    requires
        cursor <= s@.len(),
    ensures
        (r.0 as int, r.1 as nat) == cursor_at(s@, cursor as int, width as int),
{
    let chars = chars_of(s);
    let lines = split_chars(&chars, '\n');
    let ghost views = text::views(lines@);
    let mut remaining: usize = cursor;
    let mut row: usize = 0;
    let mut k: usize = 0;
    assert(span(views, 0) == 0);
    assert(rows_before(views, 0, width as int) == 0);
    while k < lines.len()
        invariant
            k <= lines@.len(),
            views == text::views(lines@),
            views == text::split_on(s@, '\n'),
            cursor <= s@.len(),
            row == rows_before(views, k as int, width as int),
            span(views, k as int) + remaining == cursor,
            cursor_at(s@, cursor as int, width as int) == cursor_from(
                views,
                k as int,
                remaining as int,
                width as int,
            ),
        decreases lines@.len() - k,
    {
        let ghost line = views[k as int];
        assert(line == lines@[k as int]@);
        let rows = wrap_chars(&lines[k], width);
        proof {
            lemma_rows_span(views, k as int, width as nat);
            lemma_rows_span(views, k + 1, width as nat);
            wrap::law_rows_are_not_empty(line, width as nat);
            wrap::law_wrap_keeps_every_character(line, width as nat);
            assert(text::views(rows@) =~= wrap::rows_view(rows@));
            assert forall|j: int| rows@.len() > 1 && 0 <= j < rows@.len() implies (
            #[trigger] rows@[j])@.len() > 0 by {
                assert(wrap::wrapped(line, width as int)[j] == rows@[j]@);
            }
        }
        if remaining <= lines[k].len() {
            let (i, column) = locate_in(&rows, remaining);
            return (row + i, column);
        }
        remaining = remaining - lines[k].len() - 1;
        row = row + rows.len();
        k += 1;
    }
    proof {
        lemma_span_total(s@);
    }
    (row, 0)
}

/// How many rows a text takes on the screen.
pub open spec fn row_count(s: Seq<char>, width: int) -> nat {
    let lines = text::split_on(s, '\n');
    rows_before(lines, lines.len() as int, width)
}

/// How many rows the input takes: as many as its text, but at least one and
/// at most five.
pub fn input_rows(s: &str, width: usize) -> (r: usize)
    ensures
        r == (if row_count(s@, width as int) < 1 {
            1
        } else if row_count(s@, width as int) > MAX_INPUT_ROWS {
            MAX_INPUT_ROWS as int
        } else {
            row_count(s@, width as int) as int
        }),
{
    let chars = chars_of(s);
    let lines = split_chars(&chars, '\n');
    let ghost views = text::views(lines@);
    let mut n: usize = 0;
    let mut k: usize = 0;
    assert(rows_before(views, 0, width as int) == 0);
    while k < lines.len()
        invariant
            k <= lines@.len(),
            views == text::views(lines@),
            views == text::split_on(s@, '\n'),
            n <= MAX_INPUT_ROWS,
            n < MAX_INPUT_ROWS ==> n == rows_before(views, k as int, width as int),
            n == MAX_INPUT_ROWS ==> rows_before(views, k as int, width as int) >= MAX_INPUT_ROWS,
        decreases lines@.len() - k,
    {
        assert(views[k as int] == lines@[k as int]@);
        let rows = wrap_chars(&lines[k], width);
        assert(wrap::rows_view(rows@).len() == rows@.len());
        if rows.len() >= MAX_INPUT_ROWS - n {
            n = MAX_INPUT_ROWS;
        } else {
            n = n + rows.len();
        }
        k += 1;
    }
    if n < 1 {
        1
    } else {
        n
    }
}

/// How far the input is scrolled so that the row of the cursor is visible.
pub fn input_scroll(cursor_row: usize, visible: usize) -> (r: usize)
    ensures
        r == (if visible > 0 && cursor_row >= visible {
            cursor_row - visible + 1
        } else if visible == 0 {
            cursor_row as int
        } else {
            0
        }),
{
    if visible == 0 {
        cursor_row
    } else if cursor_row >= visible {
        cursor_row - visible + 1
    } else {
        0
    }
}

/// The cursor stands on one of the rows of the text.
pub proof fn law_the_cursor_is_on_a_row(s: Seq<char>, cursor: int, width: nat)
    requires
        0 <= cursor <= s.len(),
    ensures
        0 <= cursor_at(s, cursor, width as int).0 < row_count(s, width as int),
{
    let lines = text::split_on(s, '\n');
    lemma_span_total(s);
    assert(span(lines, 0) == 0);
    lemma_cursor_row(lines, 0, cursor, width);
}

proof fn lemma_cursor_row(lines: Seq<Seq<char>>, k: int, remaining: int, width: nat)
    requires
        0 <= k <= lines.len(),
        0 <= remaining,
        span(lines, k) + remaining < span(lines, lines.len() as int),
    ensures
        0 <= cursor_from(lines, k, remaining, width as int).0 < rows_before(
            lines,
            lines.len() as int,
            width as int,
        ),
    decreases lines.len() - k,
{
    if k < lines.len() {
        lemma_rows_grow(lines, k + 1, lines.len() as int, width as int);
        if remaining <= lines[k].len() {
            let rows = wrap::wrapped(lines[k], width as int);
            wrap::law_rows_are_not_empty(lines[k], width);
            lemma_locate_row(rows, 0, remaining);
        } else {
            lemma_cursor_row(lines, k + 1, remaining - lines[k].len() - 1, width);
        }
    }
}

proof fn lemma_locate_row(rows: Seq<Seq<char>>, i: int, remaining: int)
    requires
        0 <= i < rows.len(),
    ensures
        i <= locate(rows, i, remaining).0 < rows.len(),
    decreases rows.len() - i,
{
    if !(i + 1 >= rows.len() || remaining < rows[i].len()) {
        lemma_locate_row(rows, i + 1, remaining - rows[i].len());
    }
}

proof fn lemma_rows_grow(lines: Seq<Seq<char>>, k: int, n: int, width: int)
    requires
        k <= n,
    ensures
        rows_before(lines, k, width) <= rows_before(lines, n, width),
    decreases n - k,
{
    if k < n {
        lemma_rows_grow(lines, k, n - 1, width);
    }
}

// ---------------------------------------------------------------------------
// The transcript
// ---------------------------------------------------------------------------

/// Whether there is a tool call among the cells.
pub open spec fn has_tools(cells: Seq<CellView>) -> bool {
    exists|k: int| 0 <= k < cells.len() && (#[trigger] cells[k]) is Tool
}

/// Which rows are visible: the last ones that fit, less those that were
/// scrolled over. One cannot scroll past the first row.
pub open spec fn window(total: int, height: int, scroll: int) -> (int, int, int) {
    let most = if total > height {
        total - height
    } else {
        0
    };
    let kept = if scroll > most {
        most
    } else {
        scroll
    };
    let end = total - kept;
    let start = if end > height {
        end - height
    } else {
        0
    };
    (start, end, kept)
}

/// The visible rows lie within the transcript and fill the pane where there
/// are enough of them.
pub proof fn law_the_window_is_full(total: int, height: int, scroll: int)
    requires
        0 <= total,
        0 <= height,
        0 <= scroll,
    ensures
        0 <= window(total, height, scroll).0 <= window(total, height, scroll).1 <= total,
        window(total, height, scroll).1 - window(total, height, scroll).0 == (if total < height {
            total
        } else {
            height
        }),
{
}

/// New rows do not move the window of one who reads further up, as long as
/// the scroll position grows with them.
pub proof fn law_reading_is_not_disturbed(total: int, more: int, height: int, scroll: int)
    requires
        0 <= total,
        0 <= more,
        0 <= height,
        0 <= scroll,
        scroll + height <= total,
    ensures
        window(total + more, height, scroll + more).0 == window(total, height, scroll).0,
{
}

/// What is visible of the transcript: the rows of both panes, whether there
/// is anything to scroll, and what the marker says.
#[derive(Debug)]
pub struct Visible {
    pub left: Vec<Line>,
    pub right: Vec<Line>,
    pub scrollbar: bool,
    pub marker: Option<String>,
}

/// The two panes of a transcript on these areas.
#[verifier::opaque]
pub open spec fn columns(v: AppView, chat: Area, tools: Option<Area>, now: u64) -> ColumnsView {
    let right = match tools {
        Some(a) => a.width,
        None => 0,
    };
    panes::columns_of(
        v.cells,
        panes::steps_of(v.cells),
        panes::steps_of(v.cells).len() as int,
        panes::Canvas {
            left_width: if chat.width < 10 {
                10
            } else {
                chat.width as int
            },
            right_width: if right < 10 {
                10
            } else {
                right as int
            },
            selected: panes::opt_int(v.selected),
            now,
        },
    )
}

impl App {
    /// Whether there is a tool call to show.
    pub fn has_tools(&self) -> (r: bool)
        ensures
            r == has_tools(self@.cells),
    {
        let mut i: usize = 0;
        while i < self.transcript.cells.len()
            invariant
                i <= self.transcript.cells@.len(),
                forall|k: int| 0 <= k < i ==> !((#[trigger] self@.cells[k]) is Tool),
            decreases self.transcript.cells@.len() - i,
        {
            assert(self@.cells[i as int] == self.transcript.cells@[i as int]@);
            if let Cell::Tool { .. } = &self.transcript.cells[i] {
                assert(self@.cells[i as int] is Tool);
                return true;
            }
            i += 1;
        }
        false
    }

    fn lay_out(&self, chat: Area, tools: Option<Area>, now: u64) -> (r: Columns)
        ensures
            r@ == columns(self@, chat, tools, now),
            r.left@.len() == r.right@.len(),
            r.left@.len() == r@.left.rows.len(),
            r.right@.len() == r@.right.rows.len(),
    {
        proof {
            reveal(columns);
        }
        let right_width: u16 = match tools {
            Some(a) => a.width,
            None => 0,
        };
        self.transcript.to_columns(chat.width, right_width, self.selected_cell, now)
    }

    /// Lays the transcript out on the inner areas of its panes, says what is
    /// visible of it, and keeps in mind what is where.
    pub fn show_transcript(&mut self, chat: Area, tools: Option<Area>, now: u64) -> (r: Visible)
        requires
            old(self).wf(),
        ensures
            final(self).wf(),
            ({
                let c = columns(old(self)@, chat, tools, now);
                let total = c.left.rows.len() as int;
                let (start, end, kept) = window(
                    total,
                    chat.height as int,
                    old(self)@.scroll as int,
                );
                &&& lines::line_views(r.left@) == c.left.rows.subrange(start, end)
                &&& lines::line_views(r.right@) == c.right.rows.subrange(start, end)
                &&& r.scrollbar == (total > chat.height)
                &&& match r.marker {
                    Some(m) => kept > 0 && m@ == " ↓ "@ + text::decimal(kept as nat) + " more "@,
                    None => kept == 0,
                }
                &&& final(self)@ == (AppView {
                    scroll: kept as usize,
                    shown: final(self)@.shown,
                    ..old(self)@
                })
                &&& final(self)@.shown.chat == chat
                &&& final(self)@.shown.tools == tools
                &&& final(self)@.shown.total_lines == total
                &&& final(self)@.shown.top_line == start
                &&& panes::opt_ints(final(self)@.shown.line_cells@) == c.left.at
                &&& panes::opt_ints(final(self)@.shown.line_tools@) == c.right.at
            }),
    {
        let columns = self.lay_out(chat, tools, now);
        let total: usize = columns.left.len();
        let height: usize = chat.height as usize;
        let most: usize = if total > height {
            total - height
        } else {
            0
        };
        if self.scroll_from_bottom > most {
            self.scroll_from_bottom = most;
        }
        let end: usize = total - self.scroll_from_bottom;
        let start: usize = if end > height {
            end - height
        } else {
            0
        };
        let ghost all = columns@;
        let mut left = columns.left;
        let mut right = columns.right;
        left.truncate(end);
        right.truncate(end);
        let left = left.split_off(start);
        let right = right.split_off(start);
        assert(lines::line_views(left@) =~= all.left.rows.subrange(start as int, end as int));
        assert(lines::line_views(right@) =~= all.right.rows.subrange(start as int, end as int));
        self.shown = Shown {
            chat,
            tools,
            total_lines: total,
            top_line: start,
            line_cells: columns.cell_at,
            line_tools: columns.tool_at,
        };
        let marker = if self.scroll_from_bottom > 0 {
            Some(
                concat3(
                    " ↓ ",
                    decimal_text(self.scroll_from_bottom as u64).as_str(),
                    " more ",
                ),
            )
        } else {
            None
        };
        Visible { left, right, scrollbar: total > height, marker }
    }
}

// ---------------------------------------------------------------------------
// The popup
// ---------------------------------------------------------------------------

/// How many of the first `n` characters are no line ends.
pub open spec fn visible_chars(s: Seq<char>, n: int) -> nat
    decreases n,
{
    if n <= 0 {
        0
    } else if s[n - 1] != '\n' {
        visible_chars(s, n - 1) + 1
    } else {
        visible_chars(s, n - 1)
    }
}

/// How wide the first `n` rows need the popup to be: a column of padding on
/// either side.
pub open spec fn rows_width(rows: Seq<CandidateView>, n: int) -> nat
    decreases n,
{
    if n <= 0 {
        0
    } else {
        let before = rows_width(rows, n - 1);
        let own = compaction::byte_len(rows[n - 1].display) + 2;
        if own > before {
            own
        } else {
            before
        }
    }
}

/// The smaller of two numbers.
pub open spec fn at_most(a: int, b: int) -> int {
    if a < b {
        a
    } else {
        b
    }
}

/// Where the popup goes: above the input, at the column of the token, as
/// high as it has rows and as the transcript allows, and within the screen.
pub open spec fn popup_place(v: AppView, transcript: Area, input: Area, width: u16) -> Option<Area> {
    match v.popup.session {
        Some(s) => if s.matches.len() > 0 && transcript.height > 0 {
            let height = at_most(s.matches.len() as int, transcript.height as int);
            let wide = at_most(
                rows_width(s.matches, s.matches.len() as int) as int,
                width as int,
            );
            let anchor = visible_chars(
                v.input.text,
                at_most(s.token.start, v.input.text.len() as int),
            );
            Some(
                Area {
                    x: at_most(input.x + 1 + anchor, width - wide) as u16,
                    y: (if input.y > height {
                        input.y - height
                    } else {
                        0
                    }) as u16,
                    width: wide as u16,
                    height: height as u16,
                },
            )
        } else {
            None
        },
        None => None,
    }
}

fn count_visible(chars: &Vec<char>, n: usize) -> (r: usize)
    requires
        n <= chars@.len(),
    ensures
        r == visible_chars(chars@, n as int),
        r <= n,
{
    let mut r: usize = 0;
    let mut i: usize = 0;
    while i < n
        invariant
            i <= n <= chars@.len(),
            r == visible_chars(chars@, i as int),
            r <= i,
        decreases n - i,
    {
        if chars[i] != '\n' {
            r += 1;
        }
        i += 1;
    }
    r
}

fn popup_width(rows: &Vec<Candidate>, most: u16) -> (r: u16)
    ensures
        r == at_most(
            rows_width(
                autocomplete::candidate_views(rows@),
                rows@.len() as int,
            ) as int,
            most as int,
        ),
{
    let ghost views = autocomplete::candidate_views(rows@);
    let mut w: u16 = 0;
    let mut i: usize = 0;
    while i < rows.len()
        invariant
            i <= rows@.len(),
            views == autocomplete::candidate_views(rows@),
            w == at_most(rows_width(views, i as int) as int, most as int),
        decreases rows@.len() - i,
    {
        assert(views[i as int] == rows@[i as int]@);
        let bytes: u64 = count_bytes(rows[i].display.as_str());
        let own: u16 = if bytes >= most as u64 || bytes + 2 >= most as u64 {
            most
        } else {
            (bytes + 2) as u16
        };
        if own > w {
            w = own;
        }
        i += 1;
    }
    w
}

impl App {
    /// Where the popup goes, if there is one.
    pub fn popup_area(&self, transcript: Area, input: Area, width: u16) -> (r: Option<Area>)
        requires
            self.wf(),
        ensures
            r == popup_place(self@, transcript, input, width),
    {
        let (rows, _selected) = match self.autocomplete.visible() {
            Some(v) => v,
            None => return None,
        };
        if transcript.height == 0 {
            return None;
        }
        let start: usize = match self.autocomplete.token_start() {
            Some(n) => n,
            None => 0,
        };
        let chars = chars_of(self.input.text());
        let n: usize = if start < chars.len() {
            start
        } else {
            chars.len()
        };
        let anchor: usize = count_visible(&chars, n);
        let height: u16 = if rows.len() < transcript.height as usize {
            rows.len() as u16
        } else {
            transcript.height
        };
        let wide: u16 = popup_width(rows, width);
        let room: u16 = width - wide;
        let x: u128 = input.x as u128 + 1 + anchor as u128;
        assert(autocomplete::candidate_views(rows@).len() == rows@.len());
        Some(
            Area {
                x: if x < room as u128 {
                    x as u16
                } else {
                    room
                },
                y: if input.y > height {
                    input.y - height
                } else {
                    0
                },
                width: wide,
                height,
            },
        )
    }
}

// ---------------------------------------------------------------------------
// The status line
// ---------------------------------------------------------------------------

/// What the status line says of thinking: nothing where the model cannot.
pub open spec fn thinking_part(v: AppView) -> Seq<char> {
    if v.agent.state.model.reasoning {
        " | thinking "@ + levels::name_of(v.agent.state.thinking_level)
    } else {
        Seq::empty()
    }
}

/// The left half of the status line.
pub open spec fn status_text(v: AppView) -> Seq<char> {
    " "@ + v.meta.model_name + " ("@ + v.meta.provider + ")"@ + thinking_part(v) + " | "@
        + v.recorder.session_id + " | "@ + (if v.running {
        "working"@
    } else {
        "idle"@
    }) + " | "@ + text::decimal(v.totals.input as nat) + " in / "@ + text::decimal(
        v.totals.output as nat,
    ) + " out / "@ + text::decimal(v.totals.cache_read as nat) + " cached | $"@
        + messages::dollars(v.totals.cost as nat)
}

/// The hints for keys. They tell what the wheel does.
pub open spec fn hints(v: AppView) -> Seq<char> {
    if v.mouse_captured {
        "enter send · alt+enter newline · @ file · / cmds · esc abort · click block · ctrl+o copy · ctrl+y select "@
    } else {
        "enter send · alt+enter newline · @ file · / cmds · esc abort · SELECTION MODE · ctrl+y scroll "@
    }
}

/// The status line: the hints stand at the right end, unless there is no
/// room for them.
pub open spec fn footer_text(v: AppView, width: nat) -> Seq<char> {
    let left = status_text(v);
    let right = hints(v);
    if left.len() + right.len() < width {
        left + text::repeated(' ', (width - left.len() - right.len()) as nat) + right
    } else {
        left
    }
}

impl App {
    fn thinking_note(&self) -> (r: String)
        ensures
            r@ == thinking_part(self@),
    {
        if self.agent.model_supports_reasoning() {
            concat2(" | thinking ", thinking_level_name(self.agent.thinking_level()))
        } else {
            String::new()
        }
    }

    fn who(&self) -> (r: String)
        ensures
            r@ == " "@ + self@.meta.model_name + " ("@ + self@.meta.provider + ")"@
                + thinking_part(self@) + " | "@ + self@.recorder.session_id,
    {
        let mut out = concat3(" ", self.meta.model_name.as_str(), " (");
        out.push_str(self.meta.provider.as_str());
        out.push_str(")");
        out.push_str(self.thinking_note().as_str());
        out.push_str(" | ");
        out.push_str(self.recorder.session_id());
        out
    }

    /// The left half of the status line.
    pub fn status(&self) -> (r: String)
        ensures
            r@ == status_text(self@),
    {
        let mut out = self.who();
        out.push_str(" | ");
        if self.running {
            out.push_str("working");
        } else {
            out.push_str("idle");
        }
        out.push_str(" | ");
        out.push_str(decimal_text(self.totals.input).as_str());
        out.push_str(" in / ");
        out.push_str(decimal_text(self.totals.output).as_str());
        out.push_str(" out / ");
        out.push_str(decimal_text(self.totals.cache_read).as_str());
        out.push_str(" cached | $");
        out.push_str(dollars_text(self.totals.cost).as_str());
        out
    }

    /// The status line for a screen of this width.
    pub fn footer(&self, width: u16) -> (r: String)
        ensures
            r@ == footer_text(self@, width as nat),
    {
        let mut out = self.status();
        let right = if self.mouse_captured {
            "enter send · alt+enter newline · @ file · / cmds · esc abort · click block · ctrl+o copy · ctrl+y select "
        } else {
            "enter send · alt+enter newline · @ file · / cmds · esc abort · SELECTION MODE · ctrl+y scroll "
        };
        let a: usize = chars_of(out.as_str()).len();
        let b: usize = chars_of(right).len();
        let room: usize = width as usize;
        if a < room && b < room - a {
            push_repeated(&mut out, ' ', room - a - b);
            out.push_str(right);
        }
        out
    }

    /// The title of the input.
    pub fn input_title(&self) -> (r: &'static str)
        ensures
            r@ == (if self@.running {
                " working "@
            } else {
                " prompt "@
            }),
    {
        if self.running {
            " working "
        } else {
            " prompt "
        }
    }
}

/// With the hints the status line is exactly as wide as the screen.
pub proof fn law_the_hints_end_at_the_edge(v: AppView, width: nat)
    ensures
        footer_text(v, width) == status_text(v) || footer_text(v, width).len() == width,
{
}

proof fn lemma_rows_before(lines: Seq<Seq<char>>, k: int, width: int)
    requires
        0 <= k <= lines.len(),
    ensures
        rows_before(lines, k, width) == lines.take(k).map_values(
            |l: Seq<char>| wrap::wrapped(l, width),
        ).flatten().len(),
    decreases k,
{
    let rows = |l: Seq<char>| wrap::wrapped(l, width);
    if k > 0 {
        lemma_rows_before(lines, k - 1, width);
        let before = lines.take(k - 1).map_values(rows);
        assert(lines.take(k).map_values(rows) =~= before.push(rows(lines[k - 1])));
        before.lemma_flatten_push(rows(lines[k - 1]));
    } else {
        assert(lines.take(k).map_values(rows) =~= Seq::empty());
    }
}

/// The input takes as many rows as its lines do, each wrapped by itself.
pub proof fn law_rows_of_the_input_are_those_of_its_lines(s: Seq<char>, width: int)
    ensures
        row_count(s, width) == text::split_on(s, '\n').map_values(
            |l: Seq<char>| wrap::wrapped(l, width),
        ).flatten().len(),
{
    let lines = text::split_on(s, '\n');
    lemma_rows_before(lines, lines.len() as int, width);
    assert(lines.take(lines.len() as int) =~= lines);
}

proof fn lemma_locate(rows: Seq<Seq<char>>, i: int, remaining: int)
    requires
        0 <= i < rows.len(),
        0 <= remaining <= rows.skip(i).flatten().len(),
    ensures
        ({
            let (at, col) = locate(rows, i, remaining);
            let behind = remaining - rows.subrange(i, at).flatten().len();
            &&& i <= at < rows.len()
            &&& 0 <= behind <= rows[at].len()
            &&& col == wrap::cols(rows[at].take(behind))
            &&& rows.subrange(i, at).flatten() + rows[at].take(behind) == rows.skip(
                i,
            ).flatten().take(remaining)
        }),
    decreases rows.len() - i,
{
    let all = rows.skip(i);
    let rest = rows.skip(i + 1);
    assert(all.drop_first() =~= rest);
    assert(all.first() == rows[i]);
    assert(all.flatten() == rows[i] + rest.flatten());
    let none = rows.subrange(i, i);
    assert(none =~= Seq::empty());
    if i + 1 >= rows.len() || remaining < rows[i].len() {
        if i + 1 >= rows.len() {
            assert(rest =~= Seq::empty());
            assert(rest.flatten() =~= Seq::empty());
        }
        assert(none.flatten() =~= Seq::empty());
        assert(none.flatten() + rows[i].take(remaining) =~= all.flatten().take(remaining));
    } else {
        lemma_locate(rows, i + 1, remaining - rows[i].len());
        let (at, col) = locate(rows, i, remaining);
        let inner = rows.subrange(i + 1, at);
        let outer = rows.subrange(i, at);
        assert(outer.drop_first() =~= inner);
        assert(outer.first() == rows[i]);
        assert(outer.flatten() == rows[i] + inner.flatten());
        let behind = remaining - outer.flatten().len();
        assert(outer.flatten() + rows[at].take(behind) =~= rows[i] + (inner.flatten()
            + rows[at].take(behind)));
        assert(all.flatten().take(remaining) =~= rows[i] + rest.flatten().take(
            remaining - rows[i].len(),
        ));
    }
}

proof fn lemma_cursor_line(lines: Seq<Seq<char>>, j: int, k: int, behind: int, width: int)
    requires
        0 <= j <= k < lines.len(),
        0 <= behind <= lines[k].len(),
    ensures
        ({
            let (i, c) = locate(wrap::wrapped(lines[k], width), 0, behind);
            cursor_from(lines, j, span(lines, k) - span(lines, j) + behind, width) == (
                rows_before(lines, k, width) + i,
                c,
            )
        }),
    decreases k - j,
{
    if j < k {
        lemma_span_grows(lines, j + 1, k);
        lemma_cursor_line(lines, j + 1, k, behind, width);
    }
}

proof fn lemma_span_grows(lines: Seq<Seq<char>>, j: int, k: int)
    requires
        0 <= j <= k,
    ensures
        span(lines, j) <= span(lines, k),
    decreases k - j,
{
    if j < k {
        lemma_span_grows(lines, j, k - 1);
    }
}

/// The cursor stands right behind what is before it on its line: on the row
/// to which the wrapped line runs up to there, after all rows of the lines
/// above, and in the column that the rest of that row takes.
pub proof fn law_the_cursor_stands_behind_the_text(s: Seq<char>, k: int, behind: int, width: nat)
    requires
        0 <= k < text::split_on(s, '\n').len(),
        0 <= behind <= text::split_on(s, '\n')[k].len(),
    ensures
        ({
            let lines = text::split_on(s, '\n');
            let rows = wrap::wrapped(lines[k], width as int);
            let (row, col) = cursor_at(s, span(lines, k) + behind, width as int);
            let at = row - rows_before(lines, k, width as int);
            let rest = behind - rows.take(at).flatten().len();
            &&& 0 <= at < rows.len()
            &&& 0 <= rest <= rows[at].len()
            &&& rows.take(at).flatten() + rows[at].take(rest) == lines[k].take(behind)
            &&& col == wrap::cols(rows[at].take(rest))
        }),
{
    let lines = text::split_on(s, '\n');
    let rows = wrap::wrapped(lines[k], width as int);
    wrap::law_wrap_keeps_every_character(lines[k], width);
    assert(rows.skip(0) =~= rows);
    assert(rows.len() > 0) by {
        if rows.len() == 0 {
            assert(wrap::wrapped(lines[k], width as int).len() > 0);
        }
    }
    lemma_locate(rows, 0, behind);
    lemma_cursor_line(lines, 0, k, behind, width as int);
    let (at, col) = locate(rows, 0, behind);
    assert(rows.subrange(0, at) =~= rows.take(at));
}

/// The popup is as wide as its widest row takes, unless the screen is not.
pub proof fn law_the_popup_is_as_wide_as_its_rows(rows: Seq<CandidateView>, n: int, k: int)
    requires
        0 <= k < n <= rows.len(),
    ensures
        compaction::byte_len(rows[k].display) + 2 <= rows_width(rows, n),
        exists|i: int|
            0 <= i < n && compaction::byte_len((#[trigger] rows[i]).display) + 2 == rows_width(
                rows,
                n,
            ),
    decreases n,
{
    let own = compaction::byte_len(rows[n - 1].display) + 2;
    if n == 1 {
        assert(rows_width(rows, 0) == 0);
        assert(compaction::byte_len(rows[0].display) + 2 == rows_width(rows, n));
    } else {
        law_the_popup_is_as_wide_as_its_rows(rows, n - 1, if k < n - 1 { k } else { 0 });
        let i = choose|i: int|
            0 <= i < n - 1 && compaction::byte_len((#[trigger] rows[i]).display) + 2 == rows_width(
                rows,
                n - 1,
            );
        if own > rows_width(rows, n - 1) {
            assert(compaction::byte_len(rows[n - 1].display) + 2 == rows_width(rows, n));
        } else {
            assert(compaction::byte_len(rows[i].display) + 2 == rows_width(rows, n));
        }
    }
}

/// The popup is there when there is something to offer. It stays on the
/// screen, ends right above the input where there is room, has a row for
/// every match where that fits, and starts where the word does that it
/// completes.
pub proof fn law_the_popup_stays_on_the_screen(
    v: AppView,
    transcript: Area,
    input: Area,
    width: u16,
)
    requires
        autocomplete::popup_ok(v.popup),
    ensures
        popup_place(v, transcript, input, width) is Some <==> v.popup.session is Some
            && v.popup.session.unwrap().matches.len() > 0 && transcript.height > 0,
        popup_place(v, transcript, input, width) matches Some(a) ==> {
            let s = v.popup.session.unwrap();
            &&& a.x + a.width <= width
            &&& 1 <= a.height <= transcript.height
            &&& a.height <= s.matches.len()
            &&& s.matches.len() <= transcript.height ==> a.height == s.matches.len()
            &&& a.height <= input.y ==> a.y + a.height == input.y
            &&& 0 <= s.token.start <= v.input.text.len() && input.x + 1 + s.token.start + a.width
                <= width && !v.input.text.contains('\n') ==> a.x == input.x + 1 + s.token.start
        },
{
    if v.popup.session is Some && v.popup.session.unwrap().matches.len() > 0
        && transcript.height > 0 {
        let s = v.popup.session.unwrap();
        let n = s.matches.len() as int;
        law_the_popup_is_as_wide_as_its_rows(s.matches, n, 0);
        if 0 <= s.token.start <= v.input.text.len() && !v.input.text.contains('\n') {
            lemma_all_visible(v.input.text, s.token.start);
        }
    }
}

proof fn lemma_all_visible(s: Seq<char>, n: int)
    requires
        0 <= n <= s.len(),
        !s.contains('\n'),
    ensures
        visible_chars(s, n) == n,
    decreases n,
{
    if n > 0 {
        lemma_all_visible(s, n - 1);
        assert(s.contains(s[n - 1]));
    }
}

proof fn lemma_stand_together(a: Seq<char>, b: Seq<char>, c: Seq<char>)
    ensures
        text::stands_in(a, a + b + c),
        text::stands_in(b, a + b + c),
        text::stands_in(c, a + b + c),
{
    let none = Seq::<char>::empty();
    assert(a + b + c =~= none + a + (b + c));
    text::lemma_stands(a, a + b + c, none, b + c);
    text::lemma_stands(b, a + b + c, a, c);
    assert(a + b + c =~= (a + b) + c + none);
    text::lemma_stands(c, a + b + c, a + b, none);
}

/// What the status line says of the session.
spec fn session_part(v: AppView) -> Seq<char> {
    " | "@ + v.recorder.session_id + " | "@ + (if v.running {
        "working"@
    } else {
        "idle"@
    }) + " | "@
}

/// What the status line says of what was used.
spec fn totals_part(v: AppView) -> Seq<char> {
    text::decimal(v.totals.input as nat) + " in / "@ + text::decimal(v.totals.output as nat)
        + " out / "@ + text::decimal(v.totals.cache_read as nat) + " cached | $"@
        + messages::dollars(v.totals.cost as nat)
}

proof fn lemma_status_parts(v: AppView)
    ensures
        status_text(v) == (" "@ + v.meta.model_name + " ("@ + v.meta.provider + ")"@
            + thinking_part(v)) + session_part(v) + totals_part(v),
{
    assert(status_text(v) =~= (" "@ + v.meta.model_name + " ("@ + v.meta.provider + ")"@
        + thinking_part(v)) + session_part(v) + totals_part(v));
}

/// The status line tells the model, the session and whether there is a run.
pub proof fn law_the_status_tells_what_goes_on(v: AppView)
    ensures
        text::stands_in(
            " "@ + v.meta.model_name + " ("@ + v.meta.provider + ")"@,
            status_text(v),
        ),
        v.agent.state.model.reasoning ==> text::stands_in(
            " | thinking "@ + levels::name_of(v.agent.state.thinking_level),
            status_text(v),
        ),
        v.running ==> text::stands_in(
            v.recorder.session_id + " | "@ + "working"@,
            status_text(v),
        ),
        !v.running ==> text::stands_in(v.recorder.session_id + " | "@ + "idle"@, status_text(v)),
{
    lemma_status_parts(v);
    let none = Seq::<char>::empty();
    let a = " "@ + v.meta.model_name + " ("@ + v.meta.provider + ")"@;
    let b = thinking_part(v);
    let x = a + b;
    let y = session_part(v);
    let z = totals_part(v);
    lemma_stand_together(a, b, none);
    assert(a + b + none =~= x);
    assert(x + y + z =~= none + x + (y + z));
    text::lemma_stands_wider(a, x, none, y + z);
    text::lemma_stands_wider(b, x, none, y + z);
    let run = if v.running {
        "working"@
    } else {
        "idle"@
    };
    let c = v.recorder.session_id + " | "@ + run;
    lemma_stand_together(" | "@, c, " | "@);
    assert(" | "@ + c + " | "@ =~= y);
    text::lemma_stands_wider(c, y, x, z);
}

/// The status line tells what was used so far.
pub proof fn law_the_status_tells_what_was_used(v: AppView)
    ensures
        text::stands_in(text::decimal(v.totals.input as nat) + " in / "@, status_text(v)),
        text::stands_in(text::decimal(v.totals.output as nat) + " out / "@, status_text(v)),
        text::stands_in(
            text::decimal(v.totals.cache_read as nat) + " cached | $"@ + messages::dollars(
                v.totals.cost as nat,
            ),
            status_text(v),
        ),
{
    lemma_status_parts(v);
    let none = Seq::<char>::empty();
    let x = " "@ + v.meta.model_name + " ("@ + v.meta.provider + ")"@ + thinking_part(v)
        + session_part(v);
    let z = totals_part(v);
    assert(status_text(v) =~= x + z + none);
    let d = text::decimal(v.totals.input as nat) + " in / "@;
    let e = text::decimal(v.totals.output as nat) + " out / "@;
    let f = text::decimal(v.totals.cache_read as nat) + " cached | $"@ + messages::dollars(
        v.totals.cost as nat,
    );
    lemma_stand_together(d, e, f);
    assert(d + e + f =~= z);
    text::lemma_stands_wider(d, z, x, none);
    text::lemma_stands_wider(e, z, x, none);
    text::lemma_stands_wider(f, z, x, none);
}

} // verus!
