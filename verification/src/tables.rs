//! Pipe tables: aligned columns, cells clipped where the width does not do.
use vstd::prelude::*;

use crate::emphasis::inline_spans;
use crate::lines::{Line, LineView, Span, SpanView};
use crate::text::{chars_of, slice, string_of};
use crate::theme::Style;
use crate::wrap::{columns_of, range_width};
use crate::{emphasis, layout, lines, text, theme, wrap};

verus! {

// ---------------------------------------------------------------------------
// Rows of the source
// ---------------------------------------------------------------------------

/// Whether a line is a row of a table.
pub open spec fn is_row(line: Seq<char>) -> bool {
    text::trim(line).len() > 0 && text::trim(line)[0] == '|'
}

/// Tests whether a line is a row of a table.
pub fn row_line(line: &Vec<char>) -> (r: bool)
    ensures
        r == is_row(line@),
{
    let t = text::trimmed(line);
    t.len() > 0 && t[0] == '|'
}

/// The characters of a separator row.
pub open spec fn is_separator_char(c: char) -> bool {
    c == '|' || c == '-' || c == ':' || c == ' '
}

/// A separator row: pipes, dashes, colons and spaces, with a dash among them.
pub open spec fn is_separator(line: Seq<char>) -> bool {
    let t = text::trim(line);
    is_row(line) && t.contains('-') && forall|k: int|
        0 <= k < t.len() ==> is_separator_char(#[trigger] t[k])
}

/// Tests for a separator row.
pub fn is_table_separator(line: &Vec<char>) -> (r: bool)
    ensures
        r == is_separator(line@),
{
    let t = text::trimmed(line);
    if t.len() == 0 || t[0] != '|' {
        return false;
    }
    let mut dash = false;
    let mut i: usize = 0;
    while i < t.len()
        invariant
            i <= t@.len(),
            t@ == text::trim(line@),
            dash <==> exists|k: int| 0 <= k < i && t@[k] == '-',
            forall|k: int| 0 <= k < i ==> is_separator_char(#[trigger] t@[k]),
        decreases t@.len() - i,
    {
        let c = t[i];
        if !(c == '|' || c == '-' || c == ':' || c == ' ') {
            assert(t@ == text::trim(line@));
            assert(!is_separator_char(text::trim(line@)[i as int]));
            return false;
        }
        if c == '-' {
            assert(t@[i as int] == '-');
            dash = true;
        }
        i += 1;
    }
    assert(dash <==> t@.contains('-'));
    dash
}

/// A row without the pipes at its two ends.
pub open spec fn inside_pipes(row: Seq<char>) -> Seq<char> {
    let t = text::trim(row);
    let a = if t.len() > 0 && t[0] == '|' {
        t.skip(1)
    } else {
        t
    };
    if a.len() > 0 && a.last() == '|' {
        a.drop_last()
    } else {
        a
    }
}

/// The cells of a row, trimmed.
pub open spec fn cells_of(row: Seq<char>) -> Seq<Seq<char>> {
    text::split_on(inside_pipes(row), '|').map_values(|c: Seq<char>| text::trim(c))
}

/// Splits a row into its cells.
pub fn split_cells(row: &Vec<char>) -> (r: Vec<Vec<char>>)
    ensures
        text::views(r@) == cells_of(row@),
        r@.len() >= 1,
{
    let t = text::trimmed(row);
    let from: usize = if t.len() > 0 && t[0] == '|' {
        1
    } else {
        0
    };
    let to: usize = if t.len() > from && t[t.len() - 1] == '|' {
        t.len() - 1
    } else {
        t.len()
    };
    let inner = slice(&t, from, to);
    assert(inner@ =~= inside_pipes(row@));
    let parts = text::split_chars(&inner, '|');
    let ghost ps = text::split_on(inside_pipes(row@), '|');
    let mut out: Vec<Vec<char>> = Vec::new();
    let mut i: usize = 0;
    while i < parts.len()
        invariant
            i <= parts@.len(),
            out@.len() == i,
            ps == text::views(parts@),
            text::views(out@) == ps.take(i as int).map_values(|c: Seq<char>| text::trim(c)),
        decreases parts@.len() - i,
    {
        let cell = text::trimmed(&parts[i]);
        let ghost before = out@;
        let ghost shown = cell@;
        out.push(cell);
        proof {
            assert(text::views(out@) =~= text::views(before).push(shown));
            assert(ps[i as int] == parts@[i as int]@);
            assert(ps.take(i + 1).map_values(|c: Seq<char>| text::trim(c)) =~= ps.take(
                i as int,
            ).map_values(|c: Seq<char>| text::trim(c)).push(text::trim(ps[i as int])));
        }
        i += 1;
    }
    assert(ps.take(i as int) =~= ps);
    out
}

/// Where the table that starts at `i` ends.
pub open spec fn table_end(source: Seq<Seq<char>>, i: int) -> int
    decreases source.len() - i,
{
    if i >= source.len() {
        source.len() as int
    } else if is_row(source[i]) {
        table_end(source, i + 1)
    } else {
        i
    }
}

/// A table ends within the source.
pub proof fn lemma_table_end(source: Seq<Seq<char>>, i: int)
    requires
        0 <= i <= source.len(),
    ensures
        i <= table_end(source, i) <= source.len(),
    decreases source.len() - i,
{
    if i < source.len() && is_row(source[i]) {
        lemma_table_end(source, i + 1);
    }
}

/// Finds where the table that starts at `i` ends.
pub fn find_table_end(source: &Vec<Vec<char>>, i: usize) -> (r: usize)
    requires
        i <= source@.len(),
    ensures
        r == table_end(text::views(source@), i as int),
        i <= r <= source@.len(),
{
    let mut k: usize = i;
    while k < source.len() && row_line(&source[k])
        invariant
            i <= k <= source@.len(),
            table_end(text::views(source@), i as int) == table_end(
                text::views(source@),
                k as int,
            ),
        decreases source@.len() - k,
    {
        assert(text::views(source@)[k as int] == source@[k as int]@);
        k += 1;
    }
    assert(k < source@.len() ==> text::views(source@)[k as int] == source@[k as int]@);
    k
}

// ---------------------------------------------------------------------------
// Cells
// ---------------------------------------------------------------------------

/// The columns of a cell.
pub open spec fn cell_cols(cell: Seq<SpanView>) -> nat {
    wrap::cols(lines::spans_text(cell))
}

/// The columns of a cell are those of its spans together.
pub proof fn lemma_cell_cols(cell: Seq<SpanView>)
    ensures
        cell_cols(cell) == lines::spans_cols(cell),
    decreases cell.len(),
{
    if cell.len() > 0 {
        lemma_cell_cols(cell.drop_last());
        wrap::lemma_cols_add(lines::spans_text(cell.drop_last()), cell.last().content);
    }
}

/// The columns of a cell.
fn segments_width(cell: &Vec<Span>) -> (w: u128)
    ensures
        w == cell_cols(lines::span_views(cell@)),
        w <= 3 * usize::MAX,
{
    let (chars, _styles) = layout::flatten(cell);
    assert(chars@.subrange(0, chars@.len() as int) =~= chars@);
    range_width(&chars, 0, chars.len())
}

/// How many characters from `i` on fit into `room` columns, as the position
/// behind them.
pub open spec fn fit_end(s: Seq<char>, i: int, room: int) -> int
    decreases s.len() - i,
{
    if i >= s.len() {
        s.len() as int
    } else if wrap::col(s[i]) > room {
        i
    } else {
        fit_end(s, i + 1, room - wrap::col(s[i]))
    }
}

/// What of the segments fits into `limit` columns, and how many columns that
/// takes. A segment stops at its first character that does not fit; the next
/// one takes what room is left.
pub open spec fn fitting(cell: Seq<SpanView>, limit: int) -> (Seq<SpanView>, int)
    decreases cell.len(),
{
    if cell.len() == 0 {
        (Seq::empty(), 0)
    } else {
        let (kept, used) = fitting(cell.drop_last(), limit);
        let last = cell.last();
        let n = fit_end(last.content, 0, limit - used);
        let piece = last.content.take(n);
        (
            if n > 0 {
                kept.push(SpanView { content: piece, style: last.style })
            } else {
                kept
            },
            used + wrap::cols(piece),
        )
    }
}

/// A cell in exactly `budget` columns: whole and padded where it fits, else
/// clipped, with an ellipsis at its end.
pub open spec fn clipped(cell: Seq<SpanView>, budget: int) -> Seq<SpanView> {
    let over = cell_cols(cell) > budget;
    let limit = if over {
        budget - 1
    } else {
        budget
    };
    let (kept, used) = fitting(cell, limit);
    let marked = if over {
        kept.push(SpanView { content: "…"@, style: Style { dim: true, ..theme::spec_plain() } })
    } else {
        kept
    };
    let taken = if over {
        used + 1
    } else {
        used
    };
    if taken < budget {
        marked.push(
            SpanView {
                content: text::repeated(' ', (budget - taken) as nat),
                style: theme::spec_plain(),
            },
        )
    } else {
        marked
    }
}

/// Clips or pads a cell to exactly `budget` columns.
pub fn clip_segments(cell: &Vec<Span>, budget: usize) -> (r: Vec<Span>)
    requires
        budget >= 1,
    ensures
        lines::span_views(r@) == clipped(lines::span_views(cell@), budget as int),
        lines::spans_cols(lines::span_views(r@)) == budget,
{
    broadcast use lines::group_views;

    let full: u128 = segments_width(cell);
    let over = full > budget as u128;
    let limit: usize = if over {
        budget - 1
    } else {
        budget
    };
    let mut out: Vec<Span> = Vec::new();
    let mut used: usize = 0;
    let mut k: usize = 0;
    assert(cell@.take(0) =~= Seq::empty());
    assert(lines::span_views(cell@.take(0)) =~= Seq::empty());
    assert(lines::span_views(out@) =~= Seq::empty());
    while k < cell.len()
        invariant
            k <= cell@.len(),
            used <= limit,
            lines::spans_cols(lines::span_views(out@)) == used,
            (lines::span_views(out@), used as int) == fitting(
                lines::span_views(cell@.take(k as int)),
                limit as int,
            ),
        decreases cell@.len() - k,
    {
        broadcast use lines::group_views;

        let ghost now = lines::span_views(cell@.take(k + 1));
        proof {
            assert(now.drop_last() =~= lines::span_views(cell@.take(k as int)));
            assert(now.last() == cell@[k as int]@);
        }
        let chars = chars_of(cell[k].content.as_str());
        let ghost used0 = used as int;
        let mut i: usize = 0;
        let mut fits = true;
        assert(chars@.take(0) =~= Seq::empty());
        while fits && i < chars.len()
            invariant
                i <= chars@.len(),
                used0 <= used <= limit,
                used == used0 + wrap::cols(chars@.take(i as int)),
                fits ==> fit_end(chars@, 0, limit - used0) == fit_end(
                    chars@,
                    i as int,
                    limit - used,
                ),
                !fits ==> fit_end(chars@, 0, limit - used0) == i,
            decreases chars@.len() - i, if fits {
                1int
            } else {
                0int
            },
        {
            let w: u128 = columns_of(chars[i]);
            if w > (limit - used) as u128 {
                fits = false;
            } else {
                assert(chars@.take(i + 1).drop_last() =~= chars@.take(i as int));
                assert(chars@.take(i + 1).last() == chars@[i as int]);
                used = used + w as usize;
                i += 1;
            }
        }
        assert(i == fit_end(chars@, 0, limit - used0));
        if i > 0 {
            let piece = string_of(&chars, 0, i);
            assert(piece@ =~= chars@.take(i as int));
            let ghost before = lines::span_views(out@);
            let s = lines::span(piece, cell[k].style);
            proof {
                lines::lemma_spans_push(before, s@);
            }
            out.push(s);
        }
        k += 1;
    }
    assert(cell@.take(k as int) =~= cell@);
    if over {
        let one: u128 = columns_of('…');
        let mark = lines::span("…".to_owned(), theme::chrome());
        proof {
            reveal_strlit("…");
            assert(wrap::cols("…"@.drop_last()) == 0);
            assert(wrap::cols("…"@) == 1);
            lines::lemma_spans_push(lines::span_views(out@), mark@);
        }
        out.push(mark);
        used = used + 1;
    } else {
        proof {
            lemma_cell_cols(lines::span_views(cell@));
        }
    }
    if used < budget {
        let pad = lines::span(lines::spaces(budget - used), theme::plain());
        proof {
            lines::lemma_spans_push(lines::span_views(out@), pad@);
        }
        out.push(pad);
    }
    out
}

// ---------------------------------------------------------------------------
// Column widths
// ---------------------------------------------------------------------------

/// The cells of a row.
pub open spec fn row_view(row: Seq<Vec<Span>>) -> Seq<Seq<SpanView>> {
    row.map_values(|c: Vec<Span>| lines::span_views(c@))
}

/// The rows of a table.
pub open spec fn table_view(rows: Seq<Vec<Vec<Span>>>) -> Seq<Seq<Seq<SpanView>>> {
    rows.map_values(|r: Vec<Vec<Span>>| row_view(r@))
}

/// The most cells that a row has.
pub open spec fn column_count(rows: Seq<Seq<Seq<SpanView>>>) -> nat
    decreases rows.len(),
{
    if rows.len() == 0 {
        0
    } else {
        let before = column_count(rows.drop_last());
        if rows.last().len() > before {
            rows.last().len()
        } else {
            before
        }
    }
}

/// The widest cell of column `c`, at least one column.
pub open spec fn column_width(rows: Seq<Seq<Seq<SpanView>>>, c: int) -> int
    decreases rows.len(),
{
    if rows.len() == 0 {
        1
    } else {
        let before = column_width(rows.drop_last(), c);
        if c < rows.last().len() && cell_cols(rows.last()[c]) > before {
            cell_cols(rows.last()[c]) as int
        } else {
            before
        }
    }
}

/// The natural widths of all columns.
pub open spec fn natural_widths(rows: Seq<Seq<Seq<SpanView>>>) -> Seq<int> {
    Seq::new(column_count(rows), |c: int| column_width(rows, c))
}

/// The sum of some widths.
pub open spec fn sum(widths: Seq<int>) -> int
    decreases widths.len(),
{
    if widths.len() == 0 {
        0
    } else {
        sum(widths.drop_last()) + widths.last()
    }
}

/// The columns of a whole row: the cells, and three columns for each joint.
pub open spec fn total_cols(widths: Seq<int>) -> int {
    sum(widths) + 3 * (widths.len() - 1)
}

/// The widest column; of several, the last.
pub open spec fn widest(widths: Seq<int>) -> int
    decreases widths.len(),
{
    if widths.len() <= 1 {
        0
    } else {
        let before = widest(widths.drop_last());
        if widths.last() >= widths[before] {
            widths.len() - 1
        } else {
            before
        }
    }
}

/// The widest column is one of them, and none is wider.
pub proof fn lemma_widest(widths: Seq<int>)
    requires
        widths.len() >= 1,
    ensures
        0 <= widest(widths) < widths.len(),
        forall|k: int| 0 <= k < widths.len() ==> #[trigger] widths[k] <= widths[widest(widths)],
    decreases widths.len(),
{
    if widths.len() > 1 {
        lemma_widest(widths.drop_last());
        let before = widest(widths.drop_last());
        assert forall|k: int| 0 <= k < widths.len() implies #[trigger] widths[k] <= widths[widest(widths)] by {
            if k < widths.len() - 1 {
                assert(widths.drop_last()[k] == widths[k]);
            }
        }
    }
}

proof fn lemma_sum_update(widths: Seq<int>, k: int, v: int)
    requires
        0 <= k < widths.len(),
    ensures
        sum(widths.update(k, v)) == sum(widths) - widths[k] + v,
    decreases widths.len(),
{
    if k == widths.len() - 1 {
        assert(widths.update(k, v).drop_last() =~= widths.drop_last());
    } else {
        assert(widths.update(k, v).drop_last() =~= widths.drop_last().update(k, v));
        lemma_sum_update(widths.drop_last(), k, v);
    }
}

proof fn lemma_sum_nonneg(widths: Seq<int>)
    requires
        forall|k: int| 0 <= k < widths.len() ==> widths[k] >= 0,
    ensures
        sum(widths) >= 0,
        forall|k: int| 0 <= k < widths.len() ==> #[trigger] widths[k] <= sum(widths),
    decreases widths.len(),
{
    if widths.len() > 0 {
        lemma_sum_nonneg(widths.drop_last());
        assert forall|k: int| 0 <= k < widths.len() implies #[trigger] widths[k] <= sum(widths) by {
            if k < widths.len() - 1 {
                assert(widths.drop_last()[k] == widths[k]);
            }
        }
    }
}

/// Widths taken from the widest column, one at a time, until the row fits or
/// no column has more than five left.
pub open spec fn shaved(widths: Seq<int>, width: int) -> Seq<int>
    decreases sum(widths),
    when widths.len() >= 1 && (forall|k: int| 0 <= k < widths.len() ==> widths[k] >= 0)
    via shaved_decreases
{
    let k = widest(widths);
    if total_cols(widths) <= width || widths[k] <= 5 {
        widths
    } else {
        shaved(widths.update(k, widths[k] - 1), width)
    }
}

#[via_fn]
proof fn shaved_decreases(widths: Seq<int>, width: int) {
    lemma_widest(widths);
    let k = widest(widths);
    lemma_sum_update(widths, k, widths[k] - 1);
    lemma_sum_nonneg(widths);
    if widths[k] > 5 {
        lemma_sum_nonneg(widths.update(k, widths[k] - 1));
    }
}

/// Widths as mathematical numbers.
pub open spec fn ints(v: Seq<u128>) -> Seq<int> {
    v.map_values(|x: u128| x as int)
}

/// Whether a row of these widths fits.
fn row_fits(widths: &Vec<u128>, width: usize) -> (r: bool)
    requires
        widths@.len() >= 1,
        forall|k: int| 0 <= k < widths@.len() ==> widths@[k] <= 3 * usize::MAX,
    ensures
        r == (total_cols(ints(widths@)) <= width),
{
    let mut total: u128 = 3 * (widths.len() as u128 - 1);
    if total > width as u128 {
        proof {
            assert forall|k: int| 0 <= k < ints(widths@).len() implies ints(widths@)[k] >= 0 by {}
            lemma_sum_nonneg(ints(widths@));
        }
        return false;
    }
    let mut i: usize = 0;
    assert(ints(widths@).take(0) =~= Seq::empty());
    while i < widths.len()
        invariant
            i <= widths@.len(),
            widths@.len() >= 1,
            forall|k: int| 0 <= k < widths@.len() ==> widths@[k] <= 3 * usize::MAX,
            total <= width,
            total == sum(ints(widths@).take(i as int)) + 3 * (widths@.len() - 1),
        decreases widths@.len() - i,
    {
        let ghost w = ints(widths@);
        proof {
            assert(w.take(i + 1).drop_last() =~= w.take(i as int));
            assert(w.take(i + 1).last() == widths@[i as int]);
        }
        total = total + widths[i];
        i += 1;
        if total > width as u128 {
            proof {
                lemma_sum_split(w, i as int);
                assert forall|k: int| 0 <= k < w.skip(i as int).len() implies w.skip(i as int)[k]
                    >= 0 by {}
                lemma_sum_nonneg(w.skip(i as int));
            }
            return false;
        }
    }
    assert(ints(widths@).take(i as int) =~= ints(widths@));
    true
}

proof fn lemma_sum_split(w: Seq<int>, i: int)
    requires
        0 <= i <= w.len(),
    ensures
        sum(w) == sum(w.take(i)) + sum(w.skip(i)),
    decreases w.len() - i,
{
    if i == w.len() {
        assert(w.take(i) =~= w);
        assert(w.skip(i) =~= Seq::empty());
    } else {
        assert(w.skip(i).len() > 0);
        assert(w.drop_last().take(i) =~= w.take(i));
        assert(w.drop_last().skip(i) =~= w.skip(i).drop_last());
        lemma_sum_split(w.drop_last(), i);
    }
}

fn find_widest(widths: &Vec<u128>) -> (r: usize)
    requires
        widths@.len() >= 1,
    ensures
        r == widest(ints(widths@)),
        r < widths@.len(),
{
    let mut best: usize = 0;
    let mut i: usize = 1;
    while i < widths.len()
        invariant
            1 <= i <= widths@.len(),
            best < i,
            best == widest(ints(widths@).take(i as int)),
        decreases widths@.len() - i,
    {
        let ghost w = ints(widths@);
        proof {
            assert(w.take(i + 1).drop_last() =~= w.take(i as int));
            assert(w.take(i + 1)[best as int] == widths@[best as int]);
            assert(w.take(i + 1).last() == widths@[i as int]);
        }
        if widths[i] >= widths[best] {
            best = i;
        }
        i += 1;
    }
    assert(ints(widths@).take(i as int) =~= ints(widths@));
    best
}

/// Final widths as mathematical numbers.
pub open spec fn usizes(v: Seq<usize>) -> Seq<int> {
    v.map_values(|x: usize| x as int)
}

/// Shaves the columns until a row fits.
fn shave(natural: Vec<u128>, width: usize) -> (r: Vec<usize>)
    requires
        natural@.len() >= 1,
        forall|k: int| 0 <= k < natural@.len() ==> 1 <= #[trigger] natural@[k] && natural@[k] <= 3 * usize::MAX,
    ensures
        usizes(r@) == shaved(ints(natural@), width as int),
        r@.len() == natural@.len(),
        forall|k: int| 0 <= k < r@.len() ==> r@[k] >= 1,
{
    let mut widths = natural;
    let ghost start = ints(natural@);
    let mut go = true;
    while go
        invariant
            widths@.len() == natural@.len(),
            widths@.len() >= 1,
            forall|k: int| 0 <= k < widths@.len() ==> 1 <= #[trigger] widths@[k] && widths@[k] <= 3 * usize::MAX,
            go ==> shaved(start, width as int) == shaved(ints(widths@), width as int),
            !go ==> shaved(start, width as int) == ints(widths@),
            !go ==> forall|k: int| 0 <= k < widths@.len() ==> widths@[k] <= width || widths@[k] <= 5,
        decreases sum(ints(widths@)), if go {
            1int
        } else {
            0int
        },
    {
        let ghost w = ints(widths@);
        proof {
            assert forall|k: int| 0 <= k < w.len() implies w[k] >= 0 by {}
            lemma_widest(w);
            lemma_sum_nonneg(w);
        }
        if row_fits(&widths, width) {
            go = false;
            proof {
                assert forall|k: int| 0 <= k < widths@.len() implies widths@[k] <= width
                    || widths@[k] <= 5 by {
                    assert(w[k] == widths@[k]);
                }
            }
        } else {
            let k: usize = find_widest(&widths);
            if widths[k] <= 5 {
                go = false;
                proof {
                    assert forall|j: int| 0 <= j < widths@.len() implies widths@[j] <= width
                        || widths@[j] <= 5 by {
                        assert(w[j] == widths@[j]);
                    }
                }
            } else {
                let less: u128 = widths[k] - 1;
                proof {
                    lemma_sum_update(w, k as int, less as int);
                    let w2 = w.update(k as int, less as int);
                    assert forall|j: int| 0 <= j < w2.len() implies w2[j] >= 0 by {}
                    lemma_sum_nonneg(w2);
                }
                widths.set(k, less);
                assert(ints(widths@) =~= w.update(k as int, less as int));
            }
        }
    }
    let mut out: Vec<usize> = Vec::new();
    let mut i: usize = 0;
    while i < widths.len()
        invariant
            i <= widths@.len(),
            out@.len() == i,
            forall|k: int|
                0 <= k < widths@.len() ==> 1 <= widths@[k] && (widths@[k] <= width || widths@[k]
                    <= 5),
            forall|k: int| 0 <= k < i ==> out@[k] == widths@[k] && out@[k] >= 1,
        decreases widths@.len() - i,
    {
        out.push(widths[i] as usize);
        i += 1;
    }
    assert(usizes(out@) =~= ints(widths@));
    out
}

/// The natural width of every column.
fn measure(rows: &Vec<Vec<Vec<Span>>>) -> (r: Vec<u128>)
    ensures
        ints(r@) == natural_widths(table_view(rows@)),
        forall|k: int| 0 <= k < r@.len() ==> 1 <= #[trigger] r@[k] && r@[k] <= 3 * usize::MAX,
{
    let ghost t = table_view(rows@);
    let mut columns: usize = 0;
    let mut i: usize = 0;
    assert(t.take(0) =~= Seq::empty());
    while i < rows.len()
        invariant
            i <= rows@.len(),
            t == table_view(rows@),
            columns == column_count(t.take(i as int)),
        decreases rows@.len() - i,
    {
        proof {
            assert(t.take(i + 1).drop_last() =~= t.take(i as int));
            assert(t.take(i + 1).last() == row_view(rows@[i as int]@));
        }
        if rows[i].len() > columns {
            columns = rows[i].len();
        }
        i += 1;
    }
    assert(t.take(i as int) =~= t);
    let mut widths: Vec<u128> = Vec::new();
    let mut c: usize = 0;
    while c < columns
        invariant
            c <= columns,
            widths@.len() == c,
            t == table_view(rows@),
            columns == column_count(t),
            forall|k: int|
                0 <= k < c ==> widths@[k] == column_width(t, k) && 1 <= #[trigger] widths@[k] && widths@[k] <= 3 * usize::MAX,
        decreases columns - c,
    {
        let mut w: u128 = 1;
        let mut j: usize = 0;
        assert(t.take(0) =~= Seq::empty());
        while j < rows.len()
            invariant
                j <= rows@.len(),
                t == table_view(rows@),
                w == column_width(t.take(j as int), c as int),
                1 <= w <= 3 * usize::MAX,
            decreases rows@.len() - j,
        {
            proof {
                assert(t.take(j + 1).drop_last() =~= t.take(j as int));
                assert(t.take(j + 1).last() == row_view(rows@[j as int]@));
            }
            if c < rows[j].len() {
                assert(row_view(rows@[j as int]@)[c as int] == lines::span_views(
                    rows@[j as int]@[c as int]@,
                ));
                let cell: u128 = segments_width(&rows[j][c]);
                if cell > w {
                    w = cell;
                }
            }
            j += 1;
        }
        assert(t.take(j as int) =~= t);
        widths.push(w);
        c += 1;
    }
    assert(ints(widths@) =~= natural_widths(t));
    widths
}

// ---------------------------------------------------------------------------
// Lines
// ---------------------------------------------------------------------------

/// The first `n` cells of a row, joined. A row that has fewer cells shows
/// empty ones.
pub open spec fn row_spans(row: Seq<Seq<SpanView>>, widths: Seq<int>, base: Style, n: int) -> Seq<
    SpanView,
>
    decreases n,
{
    if n <= 0 {
        Seq::empty()
    } else {
        let before = row_spans(row, widths, base, n - 1);
        let joined = if n > 1 {
            before.push(SpanView { content: " │ "@, style: base.patch(theme::md_rule()) })
        } else {
            before
        };
        let cell = if n - 1 < row.len() {
            row[n - 1]
        } else {
            Seq::empty()
        };
        joined + clipped(cell, widths[n - 1])
    }
}

/// A row as a line.
pub open spec fn row_line_view(row: Seq<Seq<SpanView>>, widths: Seq<int>, base: Style) -> LineView {
    lines::spans_line(row_spans(row, widths, base, widths.len() as int))
}

/// The rule under the header, aligned with the joints.
pub open spec fn rule_text(widths: Seq<int>) -> Seq<char> {
    text::joined(widths.map_values(|w: int| text::repeated('─', w as nat)), "─┼─"@)
}

/// The lines of a table: the header, the rule, the other rows.
pub open spec fn table_lines(rows: Seq<Seq<Seq<SpanView>>>, width: int, base: Style) -> Seq<
    LineView,
> {
    let widths = shaved(natural_widths(rows), width);
    seq![
        row_line_view(rows[0], widths, base),
        lines::styled_line(rule_text(widths), base.patch(theme::md_rule())),
    ] + rows.skip(1).map_values(|r: Seq<Seq<SpanView>>| row_line_view(r, widths, base))
}

/// The cells of the table in lines `i` to `end` of the source: the header in
/// bold, then every row behind the separator.
pub open spec fn table_rows(source: Seq<Seq<char>>, i: int, end: int, base: Style) -> Seq<
    Seq<Seq<SpanView>>,
> {
    Seq::new(
        (end - i - 1) as nat,
        |r: int|
            if r == 0 {
                row_cells(source[i], base.patch(theme::md_table_header()))
            } else {
                row_cells(source[i + r + 1], base)
            },
    )
}

/// The styled cells of one row.
pub open spec fn row_cells(row: Seq<char>, style: Style) -> Seq<Seq<SpanView>> {
    cells_of(row).map_values(|c: Seq<char>| emphasis::inline_of(c, style))
}

fn style_cells(row: &Vec<char>, style: Style) -> (r: Vec<Vec<Span>>)
    ensures
        row_view(r@) == row_cells(row@, style),
        r@.len() >= 1,
{
    let cells = split_cells(row);
    let mut out: Vec<Vec<Span>> = Vec::new();
    let mut i: usize = 0;
    while i < cells.len()
        invariant
            i <= cells@.len(),
            out@.len() == i,
            text::views(cells@) == cells_of(row@),
            forall|k: int|
                0 <= k < i ==> lines::span_views((#[trigger] out@[k])@) == emphasis::inline_of(
                    cells@[k]@,
                    style,
                ),
        decreases cells@.len() - i,
    {
        out.push(inline_spans(&cells[i], style));
        i += 1;
    }
    assert forall|k: int| 0 <= k < out@.len() implies row_view(out@)[k] == row_cells(
        row@,
        style,
    )[k] by {
        assert(text::views(cells@)[k] == cells@[k]@);
    }
    assert(row_view(out@) =~= row_cells(row@, style));
    out
}

/// One row of a table as a line of exactly the width of the table.
fn render_row(row: &Vec<Vec<Span>>, widths: &Vec<usize>, base: Style) -> (r: Line)
    requires
        widths@.len() >= 1,
        forall|k: int| 0 <= k < widths@.len() ==> widths@[k] >= 1,
    ensures
        r@ == row_line_view(row_view(row@), usizes(widths@), base),
        lines::spans_cols(r@.spans) == total_cols(usizes(widths@)),
{
    broadcast use lines::group_views;

    let ghost w = usizes(widths@);
    let ghost cells = row_view(row@);
    let mut spans: Vec<Span> = Vec::new();
    let mut i: usize = 0;
    let space: u128 = columns_of(' ');
    let bar: u128 = columns_of('│');
    proof {
        reveal_strlit(" │ ");
        lemma_joint_cols();
    }
    assert(lines::span_views(spans@) =~= Seq::empty());
    assert(w.take(0) =~= Seq::empty());
    while i < widths.len()
        invariant
            i <= widths@.len(),
            w == usizes(widths@),
            cells == row_view(row@),
            widths@.len() >= 1,
            wrap::cols(" │ "@) == 3,
            forall|k: int| 0 <= k < widths@.len() ==> widths@[k] >= 1,
            lines::span_views(spans@) == row_spans(cells, w, base, i as int),
            lines::spans_cols(lines::span_views(spans@)) == sum(w.take(i as int)) + if i == 0 {
                0
            } else {
                3 * (i - 1)
            },
        decreases widths@.len() - i,
    {
        broadcast use lines::group_views;

        if i > 0 {
            let joint = lines::span(" │ ".to_owned(), base.patch(theme::md_rule()));
            proof {
                lines::lemma_spans_push(lines::span_views(spans@), joint@);
            }
            spans.push(joint);
        }
        let empty: Vec<Span> = Vec::new();
        assert(lines::span_views(empty@) =~= Seq::empty());
        let mut clip = if i < row.len() {
            assert(cells[i as int] == lines::span_views(row@[i as int]@));
            clip_segments(&row[i], widths[i])
        } else {
            clip_segments(&empty, widths[i])
        };
        proof {
            lines::lemma_spans_add(lines::span_views(spans@), lines::span_views(clip@));
            assert(w.take(i + 1).drop_last() =~= w.take(i as int));
            assert(w.take(i + 1).last() == widths@[i as int]);
        }
        spans.append(&mut clip);
        i += 1;
    }
    assert(w.take(i as int) =~= w);
    lines::line(spans)
}

/// The joint of a row is three columns wide.
proof fn lemma_joint_cols()
    requires
        wrap::col(' ') == 1,
        wrap::col('│') == 1,
    ensures
        wrap::cols(" │ "@) == 3,
{
    reveal_strlit(" │ ");
    let s = " │ "@;
    let two = s.drop_last();
    let one = two.drop_last();
    assert(wrap::cols(s) == wrap::cols(two) + 1);
    assert(wrap::cols(two) == wrap::cols(one) + 1);
    assert(wrap::cols(one.drop_last()) == 0);
    assert(wrap::cols(one) == 1);
}

fn header_rule(widths: &Vec<usize>) -> (r: String)
    ensures
        r@ == rule_text(usizes(widths@)),
{
    let mut parts: Vec<String> = Vec::new();
    let ghost w = usizes(widths@);
    let mut i: usize = 0;
    while i < widths.len()
        invariant
            i <= widths@.len(),
            parts@.len() == i,
            forall|k: int|
                0 <= k < i ==> (#[trigger] parts@[k])@ == text::repeated('─', widths@[k] as nat),
        decreases widths@.len() - i,
    {
        let mut part = String::new();
        text::push_repeated(&mut part, '─', widths[i]);
        assert(part@ =~= text::repeated('─', widths@[i as int] as nat));
        parts.push(part);
        i += 1;
    }
    assert(text::texts(parts@) =~= w.map_values(|x: int| text::repeated('─', x as nat)));
    text::join(&parts, "─┼─")
}

/// Renders the table in lines `i` to `end` of the source. Every row is as
/// wide as every other.
pub fn render_table(
    out: &mut Vec<Line>,
    source: &Vec<Vec<char>>,
    i: usize,
    end: usize,
    width: usize,
    base: Style,
)
    requires
        i + 2 <= end <= source@.len(),
    ensures
        lines::line_views(final(out)@) == lines::line_views(old(out)@) + table_lines(
            table_rows(text::views(source@), i as int, end as int, base),
            width as int,
            base,
        ),
        forall|k: int|
            0 <= k < table_rows(text::views(source@), i as int, end as int, base).len()
                ==> lines::spans_cols(
                row_line_view(
                    #[trigger] table_rows(text::views(source@), i as int, end as int, base)[k],
                    shaved(
                        natural_widths(
                            table_rows(text::views(source@), i as int, end as int, base),
                        ),
                        width as int,
                    ),
                    base,
                ).spans,
            ) == total_cols(
                shaved(
                    natural_widths(table_rows(text::views(source@), i as int, end as int, base)),
                    width as int,
                ),
            ),
{
    broadcast use lines::group_views;

    let ghost src = text::views(source@);
    let ghost t = table_rows(src, i as int, end as int, base);
    let ghost start = lines::line_views(out@);
    let mut rows: Vec<Vec<Vec<Span>>> = Vec::new();
    rows.push(style_cells(&source[i], base.patch(theme::md_table_header())));
    assert(src[i as int] == source@[i as int]@);
    let mut j: usize = i + 2;
    while j < end
        invariant
            i + 2 <= j <= end <= source@.len(),
            src == text::views(source@),
            t == table_rows(src, i as int, end as int, base),
            rows@.len() == j - i - 1,
            rows@[0]@.len() >= 1,
            forall|k: int| 0 <= k < rows@.len() ==> row_view((#[trigger] rows@[k])@) == t[k],
        decreases end - j,
    {
        assert(src[j as int] == source@[j as int]@);
        rows.push(style_cells(&source[j], base));
        j += 1;
    }
    assert(table_view(rows@) =~= t);
    let natural = measure(&rows);
    proof {
        lemma_column_count(t);
        assert(t[0] == row_view(rows@[0]@));
    }
    let widths = shave(natural, width);
    let ghost w = shaved(natural_widths(t), width as int);
    let head = render_row(&rows[0], &widths, base);
    assert(head@ == row_line_view(t[0], w, base));
    out.push(head);
    out.push(lines::line_of(header_rule(&widths), base.patch(theme::md_rule())));
    let ghost shown = t.skip(1).map_values(|r: Seq<Seq<SpanView>>| row_line_view(r, w, base));
    let ghost head_lines = seq![
        row_line_view(t[0], w, base),
        lines::styled_line(rule_text(w), base.patch(theme::md_rule())),
    ];
    assert(lines::line_views(out@) =~= start + head_lines + shown.take(0));
    let mut r: usize = 1;
    while r < rows.len()
        invariant
            1 <= r <= rows@.len(),
            rows@.len() == t.len(),
            usizes(widths@) == w,
            widths@.len() >= 1,
            forall|k: int| 0 <= k < widths@.len() ==> widths@[k] >= 1,
            forall|k: int| 0 <= k < rows@.len() ==> row_view((#[trigger] rows@[k])@) == t[k],
            shown == t.skip(1).map_values(
                |x: Seq<Seq<SpanView>>| row_line_view(x, w, base),
            ),
            lines::line_views(out@) == start + head_lines + shown.take(r - 1),
            forall|k: int|
                0 <= k < r ==> lines::spans_cols(row_line_view(#[trigger] t[k], w, base).spans)
                    == total_cols(w),
        decreases rows@.len() - r,
    {
        broadcast use lines::group_views;

        let l = render_row(&rows[r], &widths, base);
        assert(row_view(rows@[r as int]@) == t[r as int]);
        proof {
            assert(shown[r - 1] == l@);
            assert(shown.take(r as int) =~= shown.take(r - 1).push(l@));
            assert(start + head_lines + shown.take(r as int) =~= (start + head_lines + shown.take(
                r - 1,
            )).push(l@));
        }
        out.push(l);
        r += 1;
    }
    assert(shown.take(r - 1) =~= shown);
    assert(start + head_lines + shown =~= start + (head_lines + shown));
}

proof fn lemma_column_count(rows: Seq<Seq<Seq<SpanView>>>)
    ensures
        forall|k: int| 0 <= k < rows.len() ==> (#[trigger] rows[k]).len() <= column_count(rows),
    decreases rows.len(),
{
    if rows.len() > 0 {
        lemma_column_count(rows.drop_last());
        assert forall|k: int| 0 <= k < rows.len() implies (#[trigger] rows[k]).len()
            <= column_count(rows) by {
            if k < rows.len() - 1 {
                assert(rows.drop_last()[k] == rows[k]);
            }
        }
    }
}

// ---------------------------------------------------------------------------
// Laws
// ---------------------------------------------------------------------------

proof fn lemma_trim_spaced(c: Seq<char>)
    requires
        c.len() > 0 ==> !text::is_white_space(c[0]) && !text::is_white_space(c.last()),
    ensures
        text::trim(seq![' '] + c + seq![' ']) == c,
{
    let s = seq![' '] + c + seq![' '];
    text::law_trimming_takes_the_white_space_off(s);
    let (i, j) = choose|i: int, j: int|
        {
            &&& 0 <= i <= j <= s.len()
            &&& text::trim(s) == #[trigger] s.subrange(i, j)
            &&& forall|k: int|
                0 <= k < i || j <= k < s.len() ==> text::is_white_space(#[trigger] s[k])
        };
    if c.len() > 0 {
        assert(s[1] == c[0]);
        assert(s[c.len() as int] == c.last());
        assert(i <= 1);
        assert(j >= c.len() + 1);
        if i == 0 {
            assert(text::trim(s)[0] == s[0]);
        }
        if j == s.len() {
            assert(text::trim(s).last() == s.last());
        }
        assert(text::trim(s) =~= c);
    } else {
        if i < j {
            assert(text::trim(s)[0] == s[i]);
        }
        assert(text::trim(s) =~= c);
    }
}

proof fn lemma_trim_tight(s: Seq<char>)
    requires
        s.len() > 0,
        !text::is_white_space(s[0]),
        !text::is_white_space(s.last()),
    ensures
        text::trim(s) == s,
{
    text::law_trimming_takes_the_white_space_off(s);
    let (i, j) = choose|i: int, j: int|
        {
            &&& 0 <= i <= j <= s.len()
            &&& text::trim(s) == #[trigger] s.subrange(i, j)
            &&& forall|k: int|
                0 <= k < i || j <= k < s.len() ==> text::is_white_space(#[trigger] s[k])
        };
    assert(i == 0) by {
        if i > 0 {
            assert(text::is_white_space(s[0]));
        }
    }
    assert(j == s.len()) by {
        if j < s.len() {
            assert(text::is_white_space(s[s.len() - 1]));
        }
    }
    assert(text::trim(s) =~= s);
}

/// The cells of a row are what was written between its pipes, without the
/// spaces around it.
pub proof fn law_rows_give_their_cells_back(cells: Seq<Seq<char>>)
    requires
        cells.len() > 0,
        forall|k: int|
            0 <= k < cells.len() ==> !(#[trigger] cells[k]).contains('|') && (cells[k].len() > 0
                ==> !text::is_white_space(cells[k][0]) && !text::is_white_space(cells[k].last())),
    ensures
        cells_of(
            seq!['|'] + text::joined(
                cells.map_values(|c: Seq<char>| seq![' '] + c + seq![' ']),
                seq!['|'],
            ) + seq!['|'],
        ) == cells,
{
    let spaced = cells.map_values(|c: Seq<char>| seq![' '] + c + seq![' ']);
    let inner = text::joined(spaced, seq!['|']);
    let row = seq!['|'] + inner + seq!['|'];
    assert(row[0] == '|' && row.last() == '|');
    lemma_trim_tight(row);
    assert(row.skip(1) =~= inner.push('|'));
    assert(inner.push('|').drop_last() =~= inner);
    assert(inside_pipes(row) == inner);
    assert forall|k: int| 0 <= k < spaced.len() implies !(#[trigger] spaced[k]).contains('|') by {
        assert(!cells[k].contains('|'));
        if spaced[k].contains('|') {
            let i = choose|i: int| 0 <= i < spaced[k].len() && spaced[k][i] == '|';
            assert(cells[k][i - 1] == '|');
        }
    }
    text::law_splitting_undoes_joining(spaced, '|');
    assert forall|k: int| 0 <= k < cells.len() implies text::trim(spaced[k])
        == #[trigger] cells[k] by {
        lemma_trim_spaced(cells[k]);
    }
    assert(cells_of(row) =~= cells);
}

/// A column is as wide as its widest cell, and never less than one column.
pub proof fn law_columns_take_their_widest_cell(rows: Seq<Seq<Seq<SpanView>>>, c: int)
    requires
        0 <= c,
    ensures
        column_width(rows, c) >= 1,
        forall|r: int|
            0 <= r < rows.len() && c < (#[trigger] rows[r]).len() ==> cell_cols(rows[r][c])
                <= column_width(rows, c),
        column_width(rows, c) == 1 || exists|r: int|
            0 <= r < rows.len() && c < (#[trigger] rows[r]).len() && cell_cols(rows[r][c])
                == column_width(rows, c),
    decreases rows.len(),
{
    if rows.len() > 0 {
        let front = rows.drop_last();
        law_columns_take_their_widest_cell(front, c);
        assert forall|r: int| 0 <= r < rows.len() && c < (#[trigger] rows[r]).len() implies cell_cols(
            rows[r][c],
        ) <= column_width(rows, c) by {
            if r < rows.len() - 1 {
                assert(front[r] == rows[r]);
            }
        }
        if column_width(rows, c) != 1 {
            if c < rows.last().len() && cell_cols(rows.last()[c]) == column_width(rows, c) {
                assert(rows[rows.len() - 1] == rows.last());
            } else {
                let r = choose|r: int|
                    0 <= r < front.len() && c < (#[trigger] front[r]).len() && cell_cols(
                        front[r][c],
                    ) == column_width(front, c);
                assert(rows[r] == front[r]);
            }
        }
    }
}

/// A table has a column for every cell of its longest row.
pub proof fn law_every_cell_has_a_column(rows: Seq<Seq<Seq<SpanView>>>)
    ensures
        forall|r: int| 0 <= r < rows.len() ==> (#[trigger] rows[r]).len() <= column_count(rows),
        rows.len() > 0 ==> exists|r: int|
            0 <= r < rows.len() && (#[trigger] rows[r]).len() == column_count(rows),
    decreases rows.len(),
{
    if rows.len() > 0 {
        let front = rows.drop_last();
        law_every_cell_has_a_column(front);
        assert forall|r: int| 0 <= r < rows.len() implies (#[trigger] rows[r]).len()
            <= column_count(rows) by {
            if r < rows.len() - 1 {
                assert(front[r] == rows[r]);
            }
        }
        if rows.last().len() >= column_count(front) {
            assert(rows[rows.len() - 1].len() == column_count(rows));
        } else {
            let r = choose|r: int|
                0 <= r < front.len() && (#[trigger] front[r]).len() == column_count(front);
            assert(rows[r] == front[r]);
        }
    }
}

/// Columns give up room only where a row would not fit, the widest first:
/// none grows, none is taken below five, and one that gave up room is at most
/// one column narrower than any other.
pub proof fn law_the_widest_columns_give_way(widths: Seq<int>, width: int)
    requires
        widths.len() >= 1,
        forall|k: int| 0 <= k < widths.len() ==> widths[k] >= 0,
    ensures
        shaved(widths, width).len() == widths.len(),
        total_cols(widths) <= width ==> shaved(widths, width) == widths,
        total_cols(shaved(widths, width)) <= width || forall|k: int|
            0 <= k < widths.len() ==> #[trigger] shaved(widths, width)[k] <= 5,
        forall|k: int|
            0 <= k < widths.len() ==> #[trigger] shaved(widths, width)[k] <= widths[k],
        forall|k: int|
            0 <= k < widths.len() && #[trigger] shaved(widths, width)[k] < widths[k] ==> shaved(
                widths,
                width,
            )[k] >= 5,
        forall|j: int, k: int|
            0 <= j < widths.len() && 0 <= k < widths.len() && #[trigger] shaved(widths, width)[k]
                < widths[k] ==> #[trigger] shaved(widths, width)[j] <= shaved(widths, width)[k]
                + 1,
        total_cols(widths) > width ==> (total_cols(shaved(widths, width)) >= width || forall|
            k: int,
        |
            0 <= k < widths.len() ==> #[trigger] shaved(widths, width)[k] <= 5),
    decreases sum(widths),
{
    lemma_widest(widths);
    lemma_sum_nonneg(widths);
    let k = widest(widths);
    if !(total_cols(widths) <= width || widths[k] <= 5) {
        let less = widths.update(k, widths[k] - 1);
        lemma_sum_update(widths, k, widths[k] - 1);
        lemma_sum_nonneg(less);
        law_the_widest_columns_give_way(less, width);
        let out = shaved(widths, width);
        assert(out == shaved(less, width));
        assert forall|i: int| 0 <= i < widths.len() implies #[trigger] out[i] <= widths[i] by {
            assert(out[i] <= less[i]);
        }
        assert forall|i: int| 0 <= i < widths.len() && #[trigger] out[i] < widths[i] implies out[i]
            >= 5 by {
            assert(out[i] <= less[i]);
        }
        assert forall|j: int, i: int|
            0 <= j < widths.len() && 0 <= i < widths.len() && #[trigger] out[i]
                < widths[i] implies #[trigger] out[j] <= out[i] + 1 by {
            assert(out[j] <= less[j]);
            if out[i] < less[i] {
            } else {
                assert(i == k);
                assert(widths[j] <= widths[k]);
            }
        }
    }
}

proof fn lemma_fit_end(s: Seq<char>, i: int, room: int)
    requires
        0 <= i <= s.len(),
        room >= 0,
    ensures
        ({
            let end = fit_end(s, i, room);
            &&& i <= end <= s.len()
            &&& wrap::cols(s.subrange(i, end)) <= room
            &&& end < s.len() ==> wrap::cols(s.subrange(i, end)) + wrap::col(s[end]) > room
        }),
    decreases s.len() - i,
{
    if i < s.len() && wrap::col(s[i]) <= room {
        lemma_fit_end(s, i + 1, room - wrap::col(s[i]));
        let end = fit_end(s, i, room);
        assert(s.subrange(i, end) =~= seq![s[i]] + s.subrange(i + 1, end));
        wrap::lemma_cols_add(seq![s[i]], s.subrange(i + 1, end));
        assert(seq![s[i]].drop_last() =~= Seq::empty());
        assert(wrap::cols(seq![s[i]].drop_last()) == 0);
        assert(wrap::cols(seq![s[i]]) == wrap::col(s[i]));
    } else if i < s.len() {
        assert(s.subrange(i, i) =~= Seq::empty());
        assert(wrap::cols(s.subrange(i, i)) == 0);
    } else {
        assert(s.subrange(i, i) =~= Seq::empty());
        assert(wrap::cols(s.subrange(i, i)) == 0);
    }
}

proof fn lemma_fitting_whole(cell: Seq<SpanView>, limit: int)
    requires
        lines::spans_cols(cell) <= limit,
    ensures
        lines::spans_text(fitting(cell, limit).0) == lines::spans_text(cell),
        fitting(cell, limit).1 == lines::spans_cols(cell),
    decreases cell.len(),
{
    if cell.len() > 0 {
        let front = cell.drop_last();
        lemma_fitting_whole(front, limit);
        let (kept, used) = fitting(front, limit);
        let last = cell.last();
        let s = last.content;
        lemma_fit_end(s, 0, limit - used);
        let n = fit_end(s, 0, limit - used);
        assert(s.subrange(0, n) =~= s.take(n));
        if n < s.len() {
            assert(s =~= s.take(n) + s.skip(n));
            wrap::lemma_cols_add(s.take(n), s.skip(n));
            assert(s.skip(n) =~= seq![s[n]] + s.skip(n + 1));
            wrap::lemma_cols_add(seq![s[n]], s.skip(n + 1));
            assert(seq![s[n]].drop_last() =~= Seq::empty());
            assert(wrap::cols(seq![s[n]].drop_last()) == 0);
            assert(false);
        }
        assert(s.take(n) =~= s);
        if n > 0 {
            lines::lemma_spans_push(kept, SpanView { content: s.take(n), style: last.style });
        } else {
            assert(lines::spans_text(kept) + s =~= lines::spans_text(kept));
        }
    } else {
        assert(lines::spans_text(fitting(cell, limit).0) =~= lines::spans_text(cell));
    }
}

/// A cell that fits its column is shown whole, with spaces behind it.
pub proof fn law_cells_that_fit_are_shown_whole(cell: Seq<SpanView>, budget: nat)
    requires
        cell_cols(cell) <= budget,
    ensures
        lines::spans_text(clipped(cell, budget as int)) == lines::spans_text(cell) + Seq::new(
            (budget - cell_cols(cell)) as nat,
            |i: int| ' ',
        ),
{
    lemma_cell_cols(cell);
    lemma_fitting_whole(cell, budget as int);
    let (kept, used) = fitting(cell, budget as int);
    let pad = SpanView {
        content: text::repeated(' ', (budget - used) as nat),
        style: theme::spec_plain(),
    };
    if used < budget {
        lines::lemma_spans_push(kept, pad);
    }
    assert(lines::spans_text(clipped(cell, budget as int)) =~= lines::spans_text(cell) + Seq::new(
        (budget - cell_cols(cell)) as nat,
        |i: int| ' ',
    ));
}

/// Text that does not fit its column keeps its beginning, as much of it as
/// leaves a column for the ellipsis that follows.
pub proof fn law_cells_that_do_not_fit_keep_their_beginning(s: Seq<char>, style: Style, budget: nat)
    requires
        wrap::cols(s) > budget,
        budget >= 1,
    ensures
        exists|n: int|
            {
                &&& 0 <= n < s.len()
                &&& wrap::cols(#[trigger] s.take(n)) < budget
                &&& wrap::cols(s.take(n)) + wrap::col(s[n]) >= budget
                &&& lines::spans_text(clipped(seq![SpanView { content: s, style }], budget as int))
                    == s.take(n) + seq!['…'] + Seq::new(
                    (budget - 1 - wrap::cols(s.take(n))) as nat,
                    |i: int| ' ',
                )
            },
{
    let one = SpanView { content: s, style };
    let cell = seq![one];
    assert(cell.drop_last() =~= Seq::empty());
    assert(fitting(cell.drop_last(), budget - 1) == (Seq::<SpanView>::empty(), 0int));
    assert(lines::spans_text(cell.drop_last()) =~= Seq::empty());
    assert(lines::spans_text(cell) =~= s);
    let n = fit_end(s, 0, budget - 1);
    lemma_fit_end(s, 0, budget - 1);
    assert(s.subrange(0, n) =~= s.take(n));
    if n == s.len() {
        assert(s.take(n) =~= s);
        assert(false);
    }
    let (kept, used) = fitting(cell, budget - 1);
    assert(used == wrap::cols(s.take(n)));
    if n > 0 {
        lines::lemma_spans_push(Seq::empty(), SpanView { content: s.take(n), style });
        assert(lines::spans_text(kept) =~= s.take(n));
    } else {
        assert(s.take(n) =~= Seq::empty());
        assert(lines::spans_text(kept) =~= s.take(n));
    }
    reveal_strlit("…");
    assert("…"@ =~= seq!['…']);
    let mark = SpanView { content: "…"@, style: Style { dim: true, ..theme::spec_plain() } };
    lines::lemma_spans_push(kept, mark);
    let pad = SpanView {
        content: text::repeated(' ', (budget - used - 1) as nat),
        style: theme::spec_plain(),
    };
    if used + 1 < budget {
        lines::lemma_spans_push(kept.push(mark), pad);
    }
    assert(lines::spans_text(clipped(cell, budget as int)) =~= s.take(n) + seq!['…'] + Seq::new(
        (budget - 1 - wrap::cols(s.take(n))) as nat,
        |i: int| ' ',
    ));
}

/// What is shown of the cell of a column: nothing of a cell that is missing.
pub open spec fn shown_cell(row: Seq<Seq<SpanView>>, widths: Seq<int>, c: int) -> Seq<char> {
    lines::spans_text(
        clipped(
            if c < row.len() {
                row[c]
            } else {
                Seq::empty()
            },
            widths[c],
        ),
    )
}

/// A row shows all its cells in order, with a bar between each two.
pub proof fn law_rows_show_every_cell(
    row: Seq<Seq<SpanView>>,
    widths: Seq<int>,
    base: Style,
    n: int,
)
    requires
        0 <= n <= widths.len(),
    ensures
        lines::spans_text(row_spans(row, widths, base, n)) == text::joined(
            Seq::new(n as nat, |c: int| shown_cell(row, widths, c)),
            seq![' ', '│', ' '],
        ),
    decreases n,
{
    let shown = Seq::new(n as nat, |c: int| shown_cell(row, widths, c));
    if n > 0 {
        law_rows_show_every_cell(row, widths, base, n - 1);
        let before = row_spans(row, widths, base, n - 1);
        let fewer = Seq::new((n - 1) as nat, |c: int| shown_cell(row, widths, c));
        assert(shown.drop_last() =~= fewer);
        let cell = clipped(
            if n - 1 < row.len() {
                row[n - 1]
            } else {
                Seq::empty()
            },
            widths[n - 1],
        );
        if n > 1 {
            reveal_strlit(" │ ");
            assert(" │ "@ =~= seq![' ', '│', ' ']);
            let joint = SpanView { content: " │ "@, style: base.patch(theme::md_rule()) };
            lines::lemma_spans_push(before, joint);
            lines::lemma_spans_add(before.push(joint), cell);
        } else {
            lines::lemma_spans_add(before, cell);
            assert(before =~= Seq::empty());
            assert(lines::spans_text(before) =~= Seq::empty());
            assert(Seq::<char>::empty() + lines::spans_text(cell) =~= lines::spans_text(cell));
        }
    } else {
        assert(lines::spans_text(row_spans(row, widths, base, n)) =~= text::joined(
            shown,
            seq![' ', '│', ' '],
        ));
    }
}

/// A table shows its lines in order: the header in bold, a rule in place of
/// the separator, and every row behind it.
pub proof fn law_tables_show_every_row(
    source: Seq<Seq<char>>,
    i: int,
    end: int,
    width: int,
    base: Style,
    r: int,
)
    requires
        0 <= i,
        i + 2 <= end <= source.len(),
        0 <= r < end - i,
    ensures
        ({
            let rows = table_rows(source, i, end, base);
            let shown = table_lines(rows, width, base);
            let widths = shaved(natural_widths(rows), width);
            &&& shown.len() == end - i
            &&& r == 0 ==> shown[r] == row_line_view(
                cells_of(source[i]).map_values(
                    |c: Seq<char>|
                        emphasis::inline_of(c, base.patch(theme::md_table_header())),
                ),
                widths,
                base,
            )
            &&& r == 1 ==> shown[r].spans == seq![
                SpanView {
                    content: text::joined(
                        widths.map_values(|w: int| Seq::new(w as nat, |k: int| '─')),
                        seq!['─', '┼', '─'],
                    ),
                    style: base.patch(theme::md_rule()),
                },
            ]
            &&& r > 1 ==> shown[r] == row_line_view(
                cells_of(source[i + r]).map_values(|c: Seq<char>| emphasis::inline_of(c, base)),
                widths,
                base,
            )
        }),
{
    let rows = table_rows(source, i, end, base);
    let shown = table_lines(rows, width, base);
    let widths = shaved(natural_widths(rows), width);
    if r == 1 {
        reveal_strlit("─┼─");
        assert("─┼─"@ =~= seq!['─', '┼', '─']);
        let a = widths.map_values(|w: int| text::repeated('─', w as nat));
        let b = widths.map_values(|w: int| Seq::new(w as nat, |k: int| '─'));
        assert forall|k: int| 0 <= k < a.len() implies a[k] == b[k] by {
            assert(a[k] =~= b[k]);
        }
        assert(a =~= b);
        assert(shown[r].spans =~= seq![
            SpanView { content: text::joined(b, "─┼─"@), style: base.patch(theme::md_rule()) },
        ]);
    } else if r > 1 {
        assert(shown[r] == row_line_view(rows[r - 1], widths, base));
    }
}

} // verus!
