//! Word wrapping of styled text.
//!
//! The same algorithm as for plain lines, on characters that each carry a
//! style: a word that crosses a style boundary is still one word. A prefix
//! (a bullet, a quotation bar) may lead the first row, and the rows below it
//! may hang.
use vstd::prelude::*;

use crate::lines::{Line, LineView, Span, SpanView};
use crate::text::chars_of;
use crate::theme::Style;
use crate::wrap::{columns_of, find_word_end, range_width};
use crate::{lines, text, theme, wrap};

verus! {

/// How rows are laid out: the width, the columns of the prefix if there is
/// one, and the hanging indent of the later rows.
pub struct Frame {
    pub width: int,
    pub prefix: Option<int>,
    pub indent: int,
}

/// Columns already taken at the start of a row.
pub open spec fn lead(f: Frame, first: bool) -> int {
    if first {
        match f.prefix {
            Some(w) => w,
            None => 0,
        }
    } else {
        f.indent
    }
}

/// Rows as ranges of the text: the finished ones, and where the current one
/// starts.
pub struct Rows {
    pub done: Seq<(int, int)>,
    pub start: int,
}

/// Cuts the characters from `i` to `end` into rows, each as full as it gets.
pub open spec fn cut_from(s: Seq<char>, i: int, end: int, f: Frame, r: Rows) -> Rows
    decreases end - i,
{
    if i >= end {
        r
    } else {
        let taken = lead(f, r.done.len() == 0) + wrap::cols(s.subrange(r.start, i));
        let next = if taken + wrap::col(s[i]) > f.width && r.start < i {
            Rows { done: r.done.push((r.start, i)), start: i }
        } else {
            r
        };
        cut_from(s, i + 1, end, f, next)
    }
}

/// Places the word from `from` to `end`: on the current row where it fits,
/// else on a new one, cut into rows where it is wider than a row.
pub open spec fn place_word(s: Seq<char>, from: int, end: int, f: Frame, r: Rows) -> Rows {
    let word = wrap::cols(s.subrange(from, end));
    if lead(f, r.done.len() == 0) + wrap::cols(s.subrange(r.start, from)) + word <= f.width {
        r
    } else {
        let fresh = if r.start < from || (r.done.len() == 0 && f.prefix is Some) {
            Rows { done: r.done.push((r.start, from)), start: from }
        } else {
            r
        };
        if word > f.width - f.indent && word > 0 {
            cut_from(s, from, end, f, fresh)
        } else {
            fresh
        }
    }
}

/// Places the words from `from` on.
pub open spec fn place_words(s: Seq<char>, from: int, f: Frame, r: Rows) -> Rows
    decreases s.len() - from,
{
    proof {
        if 0 <= from < s.len() {
            wrap::lemma_word_end(s, from + 1);
        }
    }
    if from < 0 || from >= s.len() {
        r
    } else {
        let end = wrap::word_end(s, from + 1);
        place_words(s, end, f, place_word(s, from, end, f, r))
    }
}

/// The rows of a text. An empty text is one empty word: behind a prefix that
/// is wider than the row, it has a row of its own.
pub open spec fn rows_of(s: Seq<char>, f: Frame) -> Seq<(int, int)> {
    let zero = Rows { done: Seq::empty(), start: 0 };
    let r = if s.len() == 0 {
        place_word(s, 0, 0, f, zero)
    } else {
        place_words(s, 0, f, zero)
    };
    r.done.push((r.start, s.len() as int))
}

/// Ranges of vectors, as mathematical ranges.
pub open spec fn ranges(v: Seq<(usize, usize)>) -> Seq<(int, int)> {
    v.map_values(|r: (usize, usize)| (r.0 as int, r.1 as int))
}

/// Every range lies within a text of length `n`.
pub open spec fn within(v: Seq<(usize, usize)>, n: nat) -> bool {
    forall|k: int| 0 <= k < v.len() ==> (#[trigger] v[k]).0 <= v[k].1 <= n
}

/// Lays out a text in rows.
pub fn layout_rows(chars: &Vec<char>, width: usize, prefix: Option<u128>, indent: usize) -> (r: Vec<
    (usize, usize),
>)
    requires
        prefix matches Some(w) ==> w <= 3 * usize::MAX,
    ensures
        ranges(r@) == rows_of(
            chars@,
            Frame {
                width: width as int,
                prefix: match prefix {
                    Some(w) => Some(w as int),
                    None => None,
                },
                indent: indent as int,
            },
        ),
        within(r@, chars@.len()),
        r@.len() >= 1,
{
    let ghost frame = Frame {
        width: width as int,
        prefix: match prefix {
            Some(w) => Some(w as int),
            None => None,
        },
        indent: indent as int,
    };
    let first_lead: u128 = match prefix {
        Some(w) => w,
        None => 0,
    };
    let ghost zero = Rows { done: Seq::empty(), start: 0 };
    let mut done: Vec<(usize, usize)> = Vec::new();
    let mut start: usize = 0;
    let mut from: usize = 0;
    let n: usize = chars.len();
    // Columns of the current row, with what leads it.
    let mut taken: u128 = first_lead;
    assert(ranges(done@) =~= Seq::empty());
    assert(chars@.subrange(0, 0) =~= Seq::empty());
    while from < n
        invariant
            start <= from <= n,
            n == chars@.len(),
            first_lead == lead(frame, true),
            first_lead <= 3 * usize::MAX,
            indent == frame.indent,
            width == frame.width,
            prefix is Some <==> frame.prefix is Some,
            within(done@, chars@.len()),
            taken == lead(frame, done@.len() == 0) + wrap::cols(
                chars@.subrange(start as int, from as int),
            ),
            taken <= 3 * usize::MAX + 3 * n,
            place_words(chars@, 0, frame, zero) == place_words(
                chars@,
                from as int,
                frame,
                Rows { done: ranges(done@), start: start as int },
            ),
        decreases n - from,
    {
        let end: usize = find_word_end(chars, from + 1);
        let word: u128 = range_width(chars, from, end);
        let ghost before = Rows { done: ranges(done@), start: start as int };
        assert(word <= 3 * n);
        if taken + word <= width as u128 {
            proof {
                assert(chars@.subrange(start as int, from as int) + chars@.subrange(
                    from as int,
                    end as int,
                ) =~= chars@.subrange(start as int, end as int));
                wrap::lemma_cols_add(
                    chars@.subrange(start as int, from as int),
                    chars@.subrange(from as int, end as int),
                );
            }
            taken = taken + word;
        } else {
            if start < from || (done.len() == 0 && prefix.is_some()) {
                let ghost old_done = done@;
                done.push((start, from));
                assert(ranges(done@) =~= ranges(old_done).push((start as int, from as int)));
                start = from;
                taken = indent as u128;
                assert(chars@.subrange(from as int, from as int) =~= Seq::empty());
            }
            assert(start == from);
            assert(chars@.subrange(from as int, from as int) =~= Seq::empty());
            let room: u128 = if width >= indent {
                (width - indent) as u128
            } else {
                0
            };
            if word > room {
                let ghost fresh = Rows { done: ranges(done@), start: start as int };
                let mut i: usize = from;
                while i < end
                    invariant
                        start <= i <= end <= n,
                        from <= i,
                        n == chars@.len(),
                        first_lead == lead(frame, true),
                        first_lead <= 3 * usize::MAX,
                        indent == frame.indent,
                        width == frame.width,
                        within(done@, chars@.len()),
                        taken == lead(frame, done@.len() == 0) + wrap::cols(
                            chars@.subrange(start as int, i as int),
                        ),
                        taken <= 3 * usize::MAX + 3 * i,
                        cut_from(chars@, from as int, end as int, frame, fresh) == cut_from(
                            chars@,
                            i as int,
                            end as int,
                            frame,
                            Rows { done: ranges(done@), start: start as int },
                        ),
                    decreases end - i,
                {
                    let w: u128 = columns_of(chars[i]);
                    if taken + w > width as u128 && start < i {
                        let ghost old_done = done@;
                        done.push((start, i));
                        assert(ranges(done@) =~= ranges(old_done).push((start as int, i as int)));
                        start = i;
                        taken = indent as u128;
                        assert(chars@.subrange(i as int, i as int) =~= Seq::empty());
                    }
                    proof {
                        let grown = chars@.subrange(start as int, i + 1);
                        assert(grown.drop_last() =~= chars@.subrange(start as int, i as int));
                        assert(grown.last() == chars@[i as int]);
                        assert(wrap::cols(grown) == wrap::cols(
                            chars@.subrange(start as int, i as int),
                        ) + wrap::col(chars@[i as int]));
                    }
                    taken = taken + w;
                    i += 1;
                }
            } else {
                taken = taken + word;
            }
        }
        assert(Rows { done: ranges(done@), start: start as int } == place_word(
            chars@,
            from as int,
            end as int,
            frame,
            before,
        ));
        from = end;
    }
    if n == 0 && prefix.is_some() && first_lead > width as u128 {
        done.push((0, 0));
        assert(ranges(done@) =~= seq![(0int, 0int)]);
        assert(zero.done.push((0int, 0int)) =~= seq![(0int, 0int)]);
    }
    let ghost old_done = done@;
    done.push((start, n));
    assert(ranges(done@) =~= ranges(old_done).push((start as int, n as int)));
    done
}

// ---------------------------------------------------------------------------
// Runs of one style
// ---------------------------------------------------------------------------

/// Where the run of equal styles around `i` ends.
pub open spec fn run_end(styles: Seq<Style>, i: int, end: int) -> int
    decreases end - i,
{
    if i + 1 >= end {
        end
    } else if styles[i + 1] != styles[i] {
        i + 1
    } else {
        run_end(styles, i + 1, end)
    }
}

/// A run ends behind its first character.
pub proof fn lemma_run_end(styles: Seq<Style>, i: int, end: int)
    requires
        i < end,
    ensures
        i < run_end(styles, i, end) <= end,
    decreases end - i,
{
    if i + 1 < end && styles[i + 1] == styles[i] {
        lemma_run_end(styles, i + 1, end);
    }
}

/// The characters from `i` to `end`, neighbours of one style in one span.
pub open spec fn runs(s: Seq<char>, styles: Seq<Style>, i: int, end: int) -> Seq<SpanView>
    decreases end - i,
{
    proof {
        if i < end {
            lemma_run_end(styles, i, end);
        }
    }
    if i >= end {
        Seq::empty()
    } else {
        let stop = run_end(styles, i, end);
        seq![SpanView { content: s.subrange(i, stop), style: styles[i] }] + runs(
            s,
            styles,
            stop,
            end,
        )
    }
}

/// Groups neighbours of one style into spans.
pub fn group_runs(chars: &Vec<char>, styles: &Vec<Style>, from: usize, end: usize) -> (r: Vec<Span>)
    requires
        from <= end <= chars@.len(),
        chars@.len() == styles@.len(),
    ensures
        lines::span_views(r@) == runs(chars@, styles@, from as int, end as int),
{
    broadcast use lines::group_views;

    let mut out: Vec<Span> = Vec::new();
    let mut i: usize = from;
    assert(lines::span_views(out@) + runs(chars@, styles@, from as int, end as int) =~= runs(
        chars@,
        styles@,
        from as int,
        end as int,
    ));
    while i < end
        invariant
            from <= i <= end <= chars@.len(),
            chars@.len() == styles@.len(),
            lines::span_views(out@) + runs(chars@, styles@, i as int, end as int) == runs(
                chars@,
                styles@,
                from as int,
                end as int,
            ),
        decreases end - i,
    {
        broadcast use lines::group_views;

        let mut stop: usize = i + 1;
        while stop < end && styles[stop] == styles[stop - 1]
            invariant
                i < stop <= end <= chars@.len(),
                chars@.len() == styles@.len(),
                run_end(styles@, i as int, end as int) == run_end(
                    styles@,
                    stop - 1,
                    end as int,
                ),
            decreases end - stop,
        {
            stop += 1;
        }
        let ghost before = lines::span_views(out@);
        let s = lines::span(text::string_of(chars, i, stop), styles[i]);
        let ghost shown = s@;
        out.push(s);
        proof {
            assert(lines::span_views(out@) + runs(chars@, styles@, stop as int, end as int)
                =~= before + (seq![shown] + runs(chars@, styles@, stop as int, end as int)));
        }
        i = stop;
    }
    assert(lines::span_views(out@) + Seq::empty() =~= lines::span_views(out@));
    out
}

// ---------------------------------------------------------------------------
// Lines
// ---------------------------------------------------------------------------

/// The text of some segments, character by character.
pub open spec fn seg_chars(segments: Seq<SpanView>) -> Seq<char> {
    lines::spans_text(segments)
}

/// The style of every character of some segments.
pub open spec fn seg_styles(segments: Seq<SpanView>) -> Seq<Style>
    decreases segments.len(),
{
    if segments.len() == 0 {
        Seq::empty()
    } else {
        seg_styles(segments.drop_last()) + Seq::new(
            segments.last().content.len(),
            |i: int| segments.last().style,
        )
    }
}

/// There is a style for every character.
pub proof fn lemma_seg_lens(segments: Seq<SpanView>)
    ensures
        seg_chars(segments).len() == seg_styles(segments).len(),
    decreases segments.len(),
{
    if segments.len() > 0 {
        lemma_seg_lens(segments.drop_last());
    }
}

/// What leads row `k`: the prefix on the first, the indent on the others.
pub open spec fn row_lead(k: int, prefix: Option<SpanView>, indent: int) -> Seq<SpanView> {
    if k == 0 {
        match prefix {
            Some(p) => seq![p],
            None => Seq::empty(),
        }
    } else if indent > 0 {
        seq![SpanView { content: text::repeated(' ', indent as nat), style: theme::spec_plain() }]
    } else {
        Seq::empty()
    }
}

/// The lines of a wrapped text.
pub open spec fn wrapped_lines(
    segments: Seq<SpanView>,
    width: int,
    prefix: Option<SpanView>,
    indent: int,
) -> Seq<LineView> {
    let s = seg_chars(segments);
    let styles = seg_styles(segments);
    let rows = rows_of(
        s,
        Frame {
            width,
            prefix: match prefix {
                Some(p) => Some(wrap::cols(p.content) as int),
                None => None,
            },
            indent,
        },
    );
    Seq::new(
        rows.len(),
        |k: int|
            lines::spans_line(
                row_lead(k, prefix, indent) + runs(s, styles, rows[k].0, rows[k].1),
            ),
    )
}

/// Spreads segments into characters and their styles.
pub fn flatten(segments: &Vec<Span>) -> (r: (Vec<char>, Vec<Style>))
    ensures
        r.0@ == seg_chars(lines::span_views(segments@)),
        r.1@ == seg_styles(lines::span_views(segments@)),
        r.0@.len() == r.1@.len(),
{
    let mut chars: Vec<char> = Vec::new();
    let mut styles: Vec<Style> = Vec::new();
    let mut i: usize = 0;
    while i < segments.len()
        invariant
            i <= segments@.len(),
            chars@ == seg_chars(lines::span_views(segments@.take(i as int))),
            styles@ == seg_styles(lines::span_views(segments@.take(i as int))),
        decreases segments@.len() - i,
    {
        let style = segments[i].style;
        let mut content = chars_of(segments[i].content.as_str());
        let n: usize = content.len();
        let ghost now = lines::span_views(segments@.take(i + 1));
        let ghost styles0 = styles@;
        proof {
            assert(now.drop_last() =~= lines::span_views(segments@.take(i as int)));
            assert(now.last() == segments@[i as int]@);
        }
        chars.append(&mut content);
        let mut k: usize = 0;
        while k < n
            invariant
                k <= n,
                styles@ == styles0 + Seq::new(k as nat, |j: int| style),
            decreases n - k,
        {
            styles.push(style);
            k += 1;
            assert(styles@ =~= styles0 + Seq::new(k as nat, |j: int| style));
        }
        assert(styles@ =~= seg_styles(now));
        i += 1;
    }
    assert(segments@.take(i as int) =~= segments@);
    proof {
        lemma_seg_lens(lines::span_views(segments@));
    }
    (chars, styles)
}

/// Word-wraps styled segments and appends the lines. `prefix` leads the
/// first line; the lines below it hang by `indent` columns.
pub fn push_wrapped_spans(
    out: &mut Vec<Line>,
    segments: &Vec<Span>,
    width: usize,
    prefix: Option<(&str, Style)>,
    indent: usize,
)
    ensures
        lines::line_views(final(out)@) == lines::line_views(old(out)@) + wrapped_lines(
            lines::span_views(segments@),
            width as int,
            match prefix {
                Some(p) => Some(SpanView { content: p.0@, style: p.1 }),
                None => None,
            },
            indent as int,
        ),
{
    broadcast use lines::group_views;

    let ghost prefix_view = match prefix {
        Some(p) => Some(SpanView { content: p.0@, style: p.1 }),
        None => None,
    };
    let ghost segs = lines::span_views(segments@);
    let ghost whole = wrapped_lines(segs, width as int, prefix_view, indent as int);
    let ghost start = lines::line_views(out@);
    let (chars, styles) = flatten(segments);
    let prefix_width: Option<u128> = match prefix {
        Some((p, _)) => {
            let pc = chars_of(p);
            let w: u128 = range_width(&pc, 0, pc.len());
            assert(pc@.subrange(0, pc@.len() as int) =~= pc@);
            Some(w)
        },
        None => None,
    };
    let rows = layout_rows(&chars, width, prefix_width, indent);
    let mut k: usize = 0;
    assert(start + whole.take(0) =~= start);
    while k < rows.len()
        invariant
            k <= rows@.len(),
            rows@.len() == whole.len(),
            within(rows@, chars@.len()),
            chars@.len() == styles@.len(),
            chars@ == seg_chars(segs),
            styles@ == seg_styles(segs),
            prefix_view == (match prefix {
                Some(p) => Some(SpanView { content: p.0@, style: p.1 }),
                None => None,
            }),
            whole == wrapped_lines(segs, width as int, prefix_view, indent as int),
            forall|j: int|
                0 <= j < rows@.len() ==> whole[j] == lines::spans_line(
                    row_lead(j, prefix_view, indent as int) + runs(
                        chars@,
                        styles@,
                        (#[trigger] rows@[j]).0 as int,
                        rows@[j].1 as int,
                    ),
                ),
            lines::line_views(out@) == start + whole.take(k as int),
        decreases rows@.len() - k,
    {
        broadcast use lines::group_views;

        let mut spans: Vec<Span> = Vec::new();
        if k == 0 {
            match prefix {
                Some((p, style)) => {
                    spans.push(lines::span(p.to_owned(), style));
                },
                None => {},
            }
        } else if indent > 0 {
            spans.push(lines::span(lines::spaces(indent), theme::plain()));
        }
        assert(lines::span_views(spans@) =~= row_lead(k as int, prefix_view, indent as int));
        let (a, b) = rows[k];
        assert(rows@[k as int].0 <= rows@[k as int].1 <= chars@.len());
        let mut grouped = group_runs(&chars, &styles, a, b);
        spans.append(&mut grouped);
        let ghost before = out@;
        out.push(lines::line(spans));
        proof {
            assert(out@.last()@ == whole[k as int]);
            assert(whole.take(k + 1) =~= whole.take(k as int).push(whole[k as int]));
            assert(start + whole.take(k + 1) =~= (start + whole.take(k as int)).push(
                whole[k as int],
            ));
        }
        k += 1;
    }
    assert(whole.take(k as int) =~= whole);
}

// ---------------------------------------------------------------------------
// Laws
// ---------------------------------------------------------------------------

/// The rows before `start` cover a text up to there without gap or overlap.
pub open spec fn covers(done: Seq<(int, int)>, start: int) -> bool {
    &&& forall|k: int| 0 <= k < done.len() ==> 0 <= (#[trigger] done[k]).0 <= done[k].1
    &&& done.len() > 0 ==> done[0].0 == 0
    &&& forall|j: int, k: int|
        0 <= j && k == j + 1 && k < done.len() ==> (#[trigger] done[k]).0 == (#[trigger] done[j]).1
    &&& start == if done.len() == 0 {
        0
    } else {
        done.last().1
    }
}

proof fn lemma_cut_covers(s: Seq<char>, i: int, end: int, f: Frame, r: Rows)
    requires
        covers(r.done, r.start),
        0 <= r.start <= i <= end,
    ensures
        ({
            let after = cut_from(s, i, end, f, r);
            covers(after.done, after.start) && 0 <= after.start <= end
        }),
    decreases end - i,
{
    if i < end {
        let next = Rows { done: r.done.push((r.start, i)), start: i };
        assert(covers(next.done, next.start));
        let taken = lead(f, r.done.len() == 0) + wrap::cols(s.subrange(r.start, i));
        if taken + wrap::col(s[i]) > f.width && r.start < i {
            lemma_cut_covers(s, i + 1, end, f, next);
        } else {
            lemma_cut_covers(s, i + 1, end, f, r);
        }
    }
}

proof fn lemma_words_cover(s: Seq<char>, from: int, f: Frame, r: Rows)
    requires
        covers(r.done, r.start),
        0 <= r.start <= from <= s.len(),
    ensures
        ({
            let after = place_words(s, from, f, r);
            covers(after.done, after.start) && 0 <= after.start <= s.len()
        }),
    decreases s.len() - from,
{
    if from < s.len() {
        wrap::lemma_word_end(s, from + 1);
        let end = wrap::word_end(s, from + 1);
        let next = Rows { done: r.done.push((r.start, from)), start: from };
        assert(covers(next.done, next.start));
        lemma_cut_covers(s, from, end, f, next);
        lemma_cut_covers(s, from, end, f, r);
        lemma_words_cover(s, end, f, place_word(s, from, end, f, r));
    }
}

/// Wrapping loses nothing: the rows cover the text from its start to its end
/// without gap or overlap.
pub proof fn law_rows_cover_the_text(s: Seq<char>, f: Frame)
    ensures
        covers(rows_of(s, f), s.len() as int),
{
    let zero = Rows { done: Seq::empty(), start: 0 };
    lemma_words_cover(s, 0, f, zero);
    if s.len() == 0 {
        assert(s.subrange(0, 0) =~= Seq::empty());
        assert(covers(zero.done.push((0int, 0int)), 0));
    }
}

/// The texts of rows.
pub open spec fn row_texts(s: Seq<char>, rows: Seq<(int, int)>) -> Seq<Seq<char>> {
    rows.map_values(|r: (int, int)| s.subrange(r.0, r.1))
}

/// The frame of a text without prefix and without indent.
pub open spec fn bare(width: int) -> Frame {
    Frame { width, prefix: None, indent: 0 }
}

/// What has been filled up to `i`, as rows of plain text.
pub open spec fn as_fill(s: Seq<char>, r: Rows, i: int) -> wrap::Fill {
    wrap::Fill { rows: row_texts(s, r.done), row: s.subrange(r.start, i) }
}

proof fn lemma_done_push(s: Seq<char>, done: Seq<(int, int)>, a: int, b: int)
    ensures
        row_texts(s, done.push((a, b))) == row_texts(s, done).push(s.subrange(a, b)),
{
    assert(row_texts(s, done.push((a, b))) =~= row_texts(s, done).push(s.subrange(a, b)));
}

proof fn lemma_cut_is_hard_split(s: Seq<char>, i: int, end: int, width: int, r: Rows)
    requires
        width >= 0,
        0 <= r.start <= i <= end <= s.len(),
    ensures
        ({
            let after = cut_from(s, i, end, bare(width), r);
            &&& 0 <= after.start <= end
            &&& as_fill(s, after, end) == wrap::hard_split(
                s.subrange(i, end),
                width,
                as_fill(s, r, i),
            )
        }),
    decreases end - i,
{
    let f = as_fill(s, r, i);
    if i < end {
        let c = s[i];
        assert(s.subrange(i, end)[0] == c);
        assert(s.subrange(i, end).drop_first() =~= s.subrange(i + 1, end));
        assert(s.subrange(r.start, i).push(c) =~= s.subrange(r.start, i + 1));
        assert(s.subrange(i, i + 1) =~= seq![c]);
        lemma_done_push(s, r.done, r.start, i);
        let next = if wrap::cols(s.subrange(r.start, i)) + wrap::col(c) > width && r.start < i {
            Rows { done: r.done.push((r.start, i)), start: i }
        } else {
            r
        };
        lemma_cut_is_hard_split(s, i + 1, end, width, next);
    } else {
        assert(s.subrange(i, end) =~= Seq::empty());
    }
}

proof fn lemma_places_alike(s: Seq<char>, from: int, end: int, width: int, r: Rows)
    requires
        width >= 0,
        0 <= r.start <= from < end <= s.len(),
    ensures
        ({
            let after = place_word(s, from, end, bare(width), r);
            &&& 0 <= after.start <= end
            &&& as_fill(s, after, end) == wrap::place(
                s.subrange(from, end),
                width,
                as_fill(s, r, from),
            )
        }),
{
    let word = s.subrange(from, end);
    assert(s.subrange(r.start, from) + word =~= s.subrange(r.start, end));
    assert(s.subrange(from, from) =~= Seq::empty());
    lemma_done_push(s, r.done, r.start, from);
    let fresh = if r.start < from {
        Rows { done: r.done.push((r.start, from)), start: from }
    } else {
        r
    };
    assert(fresh.start == from);
    lemma_cut_is_hard_split(s, from, end, width, fresh);
}

proof fn lemma_fills_alike(s: Seq<char>, from: int, width: int, r: Rows)
    requires
        width >= 0,
        0 <= r.start <= from <= s.len(),
    ensures
        ({
            let after = place_words(s, from, bare(width), r);
            &&& 0 <= after.start <= s.len()
            &&& as_fill(s, after, s.len() as int) == wrap::fill_from(
                s,
                from,
                width,
                as_fill(s, r, from),
            )
        }),
    decreases s.len() - from,
{
    if from < s.len() {
        wrap::lemma_word_end(s, from + 1);
        let end = wrap::word_end(s, from + 1);
        lemma_places_alike(s, from, end, width, r);
        lemma_fills_alike(s, end, width, place_word(s, from, end, bare(width), r));
    }
}

proof fn lemma_row_not_empty(s: Seq<char>, from: int, width: int, r: Rows)
    requires
        width >= 0,
        0 <= r.start <= from <= s.len(),
        s.len() > 0,
        from > 0 ==> r.start < from,
    ensures
        place_words(s, from, bare(width), r).start < s.len(),
    decreases s.len() - from,
{
    if from < s.len() {
        wrap::lemma_word_end(s, from + 1);
        let end = wrap::word_end(s, from + 1);
        let fresh = if r.start < from {
            Rows { done: r.done.push((r.start, from)), start: from }
        } else {
            r
        };
        lemma_cut_start(s, from, end, bare(width), fresh);
        lemma_places_alike(s, from, end, width, r);
        lemma_row_not_empty(s, end, width, place_word(s, from, end, bare(width), r));
    }
}

proof fn lemma_cut_start(s: Seq<char>, i: int, end: int, f: Frame, r: Rows)
    requires
        r.start < end,
        i <= end,
    ensures
        cut_from(s, i, end, f, r).start < end,
    decreases end - i,
{
    if i < end {
        let next = Rows { done: r.done.push((r.start, i)), start: i };
        lemma_cut_start(s, i + 1, end, f, r);
        lemma_cut_start(s, i + 1, end, f, next);
    }
}

/// Styled text without prefix and indent breaks into rows exactly where
/// plain text does.
pub proof fn law_styled_text_wraps_like_plain_text(s: Seq<char>, width: nat)
    ensures
        row_texts(s, rows_of(s, bare(width as int))) == wrap::wrapped(s, width as int),
{
    let zero = Rows { done: Seq::empty(), start: 0 };
    let r = place_words(s, 0, bare(width as int), zero);
    lemma_fills_alike(s, 0, width as int, zero);
    assert(row_texts(s, zero.done) =~= Seq::empty());
    assert(s.subrange(0, 0) =~= Seq::empty());
    lemma_done_push(s, r.done, r.start, s.len() as int);
    if s.len() > 0 {
        lemma_row_not_empty(s, 0, width as int, zero);
    }
}

/// The line of a text in one style is one span per row.
pub proof fn law_one_style_gives_one_span_per_row(s: Seq<char>, style: Style, width: nat)
    requires
        s.len() > 0,
    ensures
        wrapped_lines(seq![SpanView { content: s, style }], width as int, None, 0) == Seq::new(
            wrap::wrapped(s, width as int).len(),
            |k: int| lines::styled_line(wrap::wrapped(s, width as int)[k], style),
        ),
{
    let segs = seq![SpanView { content: s, style }];
    assert(segs.drop_last() =~= Seq::empty());
    assert(lines::spans_text(segs.drop_last()) =~= Seq::empty());
    assert(seg_chars(segs) =~= s);
    let styles = seg_styles(segs);
    assert(seg_styles(segs.drop_last()) =~= Seq::empty());
    assert(styles =~= Seq::new(s.len(), |i: int| style));
    law_styled_text_wraps_like_plain_text(s, width);
    law_rows_cover_the_text(s, bare(width as int));
    let rows = rows_of(s, bare(width as int));
    let lhs = wrapped_lines(segs, width as int, None, 0);
    let rhs = Seq::new(
        wrap::wrapped(s, width as int).len(),
        |k: int| lines::styled_line(wrap::wrapped(s, width as int)[k], style),
    );
    assert(lhs.len() == rhs.len());
    assert forall|k: int| 0 <= k < lhs.len() implies lhs[k] == rhs[k] by {
        let (a, b) = rows[k];
        assert(wrap::wrapped(s, width as int)[k] == s.subrange(a, b));
        lemma_rows_not_empty(s, width, k);
        lemma_ends_bounded(rows, k, s.len() as int);
        lemma_single_run(s, styles, style, a, b);
        assert(Seq::<SpanView>::empty() + runs(s, styles, a, b) =~= runs(s, styles, a, b));
    }
    assert(lhs =~= rhs);
}

proof fn lemma_ends_bounded(rows: Seq<(int, int)>, k: int, n: int)
    requires
        covers(rows, n),
        0 <= k < rows.len(),
    ensures
        0 <= rows[k].0 <= rows[k].1 <= n,
    decreases rows.len() - k,
{
    if k + 1 < rows.len() {
        lemma_ends_bounded(rows, k + 1, n);
        assert(rows[k + 1].0 == rows[k].1);
    }
}

proof fn lemma_single_run(s: Seq<char>, styles: Seq<Style>, style: Style, a: int, b: int)
    requires
        0 <= a < b <= styles.len(),
        styles.len() == s.len(),
        forall|k: int| 0 <= k < styles.len() ==> styles[k] == style,
    ensures
        runs(s, styles, a, b) == seq![SpanView { content: s.subrange(a, b), style }],
{
    lemma_run_to_end(styles, style, a, b);
    assert(runs(s, styles, b, b) =~= Seq::empty());
    assert(seq![SpanView { content: s.subrange(a, b), style }] + Seq::<SpanView>::empty() =~= seq![
        SpanView { content: s.subrange(a, b), style },
    ]);
}

proof fn lemma_run_to_end(styles: Seq<Style>, style: Style, i: int, end: int)
    requires
        0 <= i < end <= styles.len(),
        forall|k: int| 0 <= k < styles.len() ==> styles[k] == style,
    ensures
        run_end(styles, i, end) == end,
    decreases end - i,
{
    if i + 1 < end {
        lemma_run_to_end(styles, style, i + 1, end);
    }
}

/// No row of a non-empty text is empty.
proof fn lemma_rows_not_empty(s: Seq<char>, width: nat, k: int)
    requires
        s.len() > 0,
        0 <= k < rows_of(s, bare(width as int)).len(),
    ensures
        rows_of(s, bare(width as int))[k].0 < rows_of(s, bare(width as int))[k].1,
{
    let zero = Rows { done: Seq::empty(), start: 0 };
    lemma_row_not_empty(s, 0, width as int, zero);
    lemma_done_not_empty(s, 0, width as int, zero);
}

/// Every finished row holds something.
spec fn all_filled(done: Seq<(int, int)>) -> bool {
    forall|k: int| 0 <= k < done.len() ==> (#[trigger] done[k]).0 < done[k].1
}

proof fn lemma_done_not_empty(s: Seq<char>, from: int, width: int, r: Rows)
    requires
        all_filled(r.done),
        0 <= r.start <= from <= s.len(),
        width >= 0,
    ensures
        all_filled(place_words(s, from, bare(width), r).done),
    decreases s.len() - from,
{
    if from < s.len() {
        wrap::lemma_word_end(s, from + 1);
        let end = wrap::word_end(s, from + 1);
        let fresh = if r.start < from {
            Rows { done: r.done.push((r.start, from)), start: from }
        } else {
            r
        };
        assert(all_filled(fresh.done));
        lemma_cut_filled(s, from, end, bare(width), fresh);
        lemma_places_alike(s, from, end, width, r);
        lemma_done_not_empty(s, end, width, place_word(s, from, end, bare(width), r));
    }
}

proof fn lemma_cut_filled(s: Seq<char>, i: int, end: int, f: Frame, r: Rows)
    requires
        all_filled(r.done),
    ensures
        all_filled(cut_from(s, i, end, f, r).done),
    decreases end - i,
{
    if i < end {
        let next = Rows { done: r.done.push((r.start, i)), start: i };
        lemma_cut_filled(s, i + 1, end, f, r);
        if r.start < i {
            assert(all_filled(next.done));
            lemma_cut_filled(s, i + 1, end, f, next);
        }
    }
}

proof fn lemma_run_is_even(styles: Seq<Style>, i: int, end: int)
    requires
        i < end,
    ensures
        forall|k: int| i <= k < run_end(styles, i, end) ==> styles[k] == styles[i],
        run_end(styles, i, end) < end ==> styles[run_end(styles, i, end)] != styles[i],
    decreases end - i,
{
    if i + 1 < end && styles[i + 1] == styles[i] {
        lemma_run_is_even(styles, i + 1, end);
    }
}

proof fn lemma_seg_styles_front(first: SpanView, rest: Seq<SpanView>)
    ensures
        seg_styles(seq![first] + rest) == Seq::new(first.content.len(), |k: int| first.style)
            + seg_styles(rest),
        lines::spans_text(seq![first] + rest) == first.content + lines::spans_text(rest),
    decreases rest.len(),
{
    let all = seq![first] + rest;
    if rest.len() == 0 {
        let none = Seq::<SpanView>::empty();
        assert(all.drop_last() =~= none);
        assert(all.last() == first);
        assert(rest =~= none);
        assert(seg_styles(none) =~= Seq::empty());
        assert(lines::spans_text(none) =~= Seq::empty());
        assert(seg_styles(all) =~= Seq::new(first.content.len(), |k: int| first.style)
            + seg_styles(rest));
        assert(lines::spans_text(all) =~= first.content + lines::spans_text(rest));
    } else {
        lemma_seg_styles_front(first, rest.drop_last());
        assert(all.drop_last() =~= seq![first] + rest.drop_last());
        assert(all.last() == rest.last());
        assert(seg_styles(all) =~= Seq::new(first.content.len(), |k: int| first.style)
            + seg_styles(rest));
        assert(lines::spans_text(all) =~= first.content + lines::spans_text(rest));
    }
}

/// Characters that are grouped into spans stay the same, in their order and
/// each in its own style, and neighbours in one style are in one span.
pub proof fn law_grouping_keeps_text_and_style(s: Seq<char>, styles: Seq<Style>, i: int, end: int)
    requires
        0 <= i <= end <= s.len(),
        s.len() == styles.len(),
    ensures
        lines::spans_text(runs(s, styles, i, end)) == s.subrange(i, end),
        seg_styles(runs(s, styles, i, end)) == styles.subrange(i, end),
        forall|j: int, k: int|
            0 <= j && k == j + 1 && k < runs(s, styles, i, end).len() ==> (#[trigger] runs(
                s,
                styles,
                i,
                end,
            )[j]).style != (#[trigger] runs(s, styles, i, end)[k]).style,
        i < end ==> runs(s, styles, i, end).len() > 0 && runs(s, styles, i, end)[0].style
            == styles[i],
    decreases end - i,
{
    let all = runs(s, styles, i, end);
    if i >= end {
        assert(s.subrange(i, end) =~= Seq::empty());
        assert(styles.subrange(i, end) =~= Seq::empty());
    } else {
        lemma_run_end(styles, i, end);
        lemma_run_is_even(styles, i, end);
        let stop = run_end(styles, i, end);
        let first = SpanView { content: s.subrange(i, stop), style: styles[i] };
        let rest = runs(s, styles, stop, end);
        law_grouping_keeps_text_and_style(s, styles, stop, end);
        assert(all =~= seq![first] + rest);
        lemma_seg_styles_front(first, rest);
        assert(s.subrange(i, stop) + s.subrange(stop, end) =~= s.subrange(i, end));
        assert(Seq::new(first.content.len(), |k: int| first.style) + styles.subrange(stop, end)
            =~= styles.subrange(i, end));
        assert forall|j: int, k: int| 0 <= j && k == j + 1 && k < all.len() implies (
        #[trigger] all[j]).style != (#[trigger] all[k]).style by {
            assert(all[k] == rest[k - 1]);
            if j > 0 {
                assert(all[j] == rest[j - 1]);
            } else {
                assert(stop < end);
            }
        }
    }
}

/// Whether the rows fit beside what leads them. A row of one character, or
/// of characters without a width, may stick out.
spec fn fitting(s: Seq<char>, f: Frame, done: Seq<(int, int)>) -> bool {
    forall|k: int|
        0 <= k < done.len() ==> row_fits(s, f, k == 0, (#[trigger] done[k]).0, done[k].1)
}

/// Whether a row fits beside what leads it.
pub open spec fn row_fits(s: Seq<char>, f: Frame, first: bool, from: int, to: int) -> bool {
    lead(f, first) + wrap::cols(s.subrange(from, to)) <= f.width || to - from <= 1 || wrap::cols(
        s.subrange(from, to),
    ) == 0
}

proof fn lemma_cut_fits(s: Seq<char>, i: int, end: int, f: Frame, r: Rows)
    requires
        0 <= r.start <= i <= end <= s.len(),
        fitting(s, f, r.done),
        lead(f, r.done.len() == 0) + wrap::cols(s.subrange(r.start, i)) <= f.width || i - r.start
            <= 1,
    ensures
        ({
            let out = cut_from(s, i, end, f, r);
            &&& fitting(s, f, out.done)
            &&& 0 <= out.start <= end
            &&& row_fits(s, f, out.done.len() == 0, out.start, end)
        }),
    decreases end - i,
{
    if i < end {
        let taken = lead(f, r.done.len() == 0) + wrap::cols(s.subrange(r.start, i));
        let next = if taken + wrap::col(s[i]) > f.width && r.start < i {
            Rows { done: r.done.push((r.start, i)), start: i }
        } else {
            r
        };
        assert(row_fits(s, f, r.done.len() == 0, r.start, i));
        if taken + wrap::col(s[i]) > f.width && r.start < i {
            assert forall|k: int| 0 <= k < next.done.len() implies row_fits(
                s,
                f,
                k == 0,
                (#[trigger] next.done[k]).0,
                next.done[k].1,
            ) by {
                if k < r.done.len() {
                    assert(next.done[k] == r.done[k]);
                }
            }
        } else {
            let one = s.subrange(i, i + 1);
            assert(s.subrange(r.start, i + 1) =~= s.subrange(r.start, i) + one);
            wrap::lemma_cols_add(s.subrange(r.start, i), one);
            lemma_cols_of_one(s[i]);
            assert(one =~= seq![s[i]]);
        }
        lemma_cut_fits(s, i + 1, end, f, next);
    }
}

proof fn lemma_cols_of_one(c: char)
    ensures
        wrap::cols(seq![c]) == wrap::col(c),
{
    assert(seq![c].drop_last() =~= Seq::empty());
    reveal_with_fuel(wrap::cols, 2);
}

proof fn lemma_place_fits(s: Seq<char>, from: int, end: int, f: Frame, r: Rows)
    requires
        0 <= r.start <= from <= end <= s.len(),
        f.indent >= 0,
        fitting(s, f, r.done),
        row_fits(s, f, r.done.len() == 0, r.start, from),
    ensures
        ({
            let out = place_word(s, from, end, f, r);
            &&& fitting(s, f, out.done)
            &&& 0 <= out.start <= end
            &&& row_fits(s, f, out.done.len() == 0, out.start, end)
        }),
{
    let word = wrap::cols(s.subrange(from, end));
    let head = s.subrange(r.start, from);
    assert(s.subrange(r.start, end) =~= head + s.subrange(from, end));
    wrap::lemma_cols_add(head, s.subrange(from, end));
    if lead(f, r.done.len() == 0) + wrap::cols(head) + word <= f.width {
    } else {
        let fresh = if r.start < from || (r.done.len() == 0 && f.prefix is Some) {
            Rows { done: r.done.push((r.start, from)), start: from }
        } else {
            r
        };
        assert(fitting(s, f, fresh.done)) by {
            assert forall|k: int| 0 <= k < fresh.done.len() implies row_fits(
                s,
                f,
                k == 0,
                (#[trigger] fresh.done[k]).0,
                fresh.done[k].1,
            ) by {
                if k < r.done.len() {
                    assert(fresh.done[k] == r.done[k]);
                }
            }
        }
        assert(fresh.start == from);
        if word > f.width - f.indent && word > 0 {
            lemma_cut_fits(s, from, end, f, fresh);
        }
    }
}

proof fn lemma_words_fit(s: Seq<char>, from: int, f: Frame, r: Rows)
    requires
        0 <= r.start <= from <= s.len(),
        f.indent >= 0,
        fitting(s, f, r.done),
        row_fits(s, f, r.done.len() == 0, r.start, from),
    ensures
        ({
            let out = place_words(s, from, f, r);
            &&& fitting(s, f, out.done)
            &&& row_fits(s, f, out.done.len() == 0, out.start, s.len() as int)
        }),
    decreases s.len() - from,
{
    if from < s.len() {
        wrap::lemma_word_end(s, from + 1);
        let end = wrap::word_end(s, from + 1);
        lemma_place_fits(s, from, end, f, r);
        lemma_words_fit(s, end, f, place_word(s, from, end, f, r));
    }
}

/// Every row fits beside what leads it, the prefix on the first row and the
/// indent on the others, unless a single character does not.
pub proof fn law_rows_fit_beside_their_lead(s: Seq<char>, f: Frame, k: int)
    requires
        f.indent >= 0,
        0 <= k < rows_of(s, f).len(),
    ensures
        row_fits(s, f, k == 0, rows_of(s, f)[k].0, rows_of(s, f)[k].1),
{
    let zero = Rows { done: Seq::empty(), start: 0 };
    assert(s.subrange(0, 0) =~= Seq::empty());
    assert(wrap::cols(s.subrange(0, 0)) == 0);
    let r = if s.len() == 0 {
        place_word(s, 0, 0, f, zero)
    } else {
        place_words(s, 0, f, zero)
    };
    if s.len() == 0 {
        lemma_place_fits(s, 0, 0, f, zero);
    } else {
        lemma_words_fit(s, 0, f, zero);
    }
    let all = rows_of(s, f);
    if k < r.done.len() {
        assert(all[k] == r.done[k]);
    } else {
        assert(all[k] == (r.start, s.len() as int));
    }
}

/// Each row shows its part of the text, in the styles that the text has,
/// behind what leads it: the prefix first, then the indent.
pub proof fn law_rows_show_their_part(
    segments: Seq<SpanView>,
    width: int,
    prefix: Option<SpanView>,
    indent: nat,
    k: int,
)
    requires
        0 <= k < wrapped_lines(segments, width, prefix, indent as int).len(),
    ensures
        ({
            let row = rows_of(
                lines::spans_text(segments),
                Frame {
                    width,
                    prefix: match prefix {
                        Some(p) => Some(wrap::cols(p.content) as int),
                        None => None,
                    },
                    indent: indent as int,
                },
            )[k];
            let shown = wrapped_lines(segments, width, prefix, indent as int)[k].spans;
            let part = lines::spans_text(segments).subrange(row.0, row.1);
            &&& k == 0 && prefix is Some ==> lines::spans_text(shown) == prefix.unwrap().content
                + part && shown[0] == prefix.unwrap()
            &&& k == 0 && prefix is None ==> lines::spans_text(shown) == part && seg_styles(shown)
                == seg_styles(segments).subrange(row.0, row.1)
            &&& k > 0 ==> lines::spans_text(shown) == text::repeated(' ', indent) + part
        }),
{
    let f = Frame {
        width,
        prefix: match prefix {
            Some(p) => Some(wrap::cols(p.content) as int),
            None => None,
        },
        indent: indent as int,
    };
    let s = seg_chars(segments);
    let styles = seg_styles(segments);
    lemma_seg_lens(segments);
    law_rows_cover_the_text(s, f);
    let rows = rows_of(s, f);
    lemma_ends_bounded(rows, k, s.len() as int);
    let row = rows[k];
    law_grouping_keeps_text_and_style(s, styles, row.0, row.1);
    let shown = wrapped_lines(segments, width, prefix, indent as int)[k].spans;
    let body = runs(s, styles, row.0, row.1);
    let head = row_lead(k, prefix, indent as int);
    assert(shown =~= head + body);
    let part = s.subrange(row.0, row.1);
    if head.len() == 1 {
        lemma_seg_styles_front(head[0], body);
        assert(head + body =~= seq![head[0]] + body);
    } else {
        assert(head + body =~= body);
        if k > 0 {
            assert(text::repeated(' ', indent) + part =~= part);
        }
    }
}

} // verus!
