//! Markdown for assistant prose: the small, regular slice of it that models
//! write.
//!
//! Every accent is a patch on the style of the cell, so that plain text looks
//! as if there were no markdown at all. What is not closed yet (a fence, an
//! emphasis) styles everything behind it; the next delta corrects that.
use vstd::prelude::*;

use crate::emphasis::inline_spans;
use crate::layout::push_wrapped_spans;
use crate::lines::{Line, LineView, SpanView};
use crate::text::{chars_of, slice, string_of};
use crate::theme::Style;
use crate::wrap::{range_width, wrap_chars};
use crate::{emphasis, layout, lines, tables, text, theme, wrap};

verus! {

// ---------------------------------------------------------------------------
// Blocks
// ---------------------------------------------------------------------------

/// How many times `c` leads the text.
pub open spec fn run_len(s: Seq<char>, c: char) -> nat
    decreases s.len(),
{
    if s.len() > 0 && s[0] == c {
        1 + run_len(s.drop_first(), c)
    } else {
        0
    }
}

proof fn lemma_run_len_is(s: Seq<char>, c: char, n: int)
    requires
        0 <= n <= s.len(),
        forall|k: int| 0 <= k < n ==> s[k] == c,
        n < s.len() ==> s[n] != c,
    ensures
        run_len(s, c) == n,
    decreases s.len(),
{
    if n > 0 {
        lemma_run_len_is(s.drop_first(), c, n - 1);
    }
}

/// Counts how many times `c` leads the text.
fn count_run(chars: &Vec<char>, c: char) -> (n: usize)
    ensures
        n == run_len(chars@, c),
        n <= chars@.len(),
{
    let mut i: usize = 0;
    while i < chars.len() && chars[i] == c
        invariant
            i <= chars@.len(),
            forall|k: int| 0 <= k < i ==> chars@[k] == c,
        decreases chars@.len() - i,
    {
        i += 1;
    }
    proof {
        lemma_run_len_is(chars@, c, i as int);
    }
    i
}

/// Whether a character is an ASCII digit.
pub open spec fn is_digit(c: char) -> bool {
    '0' <= c <= '9'
}

/// How many digits lead the text.
pub open spec fn digits_len(s: Seq<char>) -> nat
    decreases s.len(),
{
    if s.len() > 0 && is_digit(s[0]) {
        1 + digits_len(s.drop_first())
    } else {
        0
    }
}

/// A run of digits that ends at another character, or at the end, is all the
/// digits that lead.
pub proof fn lemma_digits_len_is(s: Seq<char>, n: int)
    requires
        0 <= n <= s.len(),
        forall|k: int| 0 <= k < n ==> is_digit(#[trigger] s[k]),
        n < s.len() ==> !is_digit(s[n]),
    ensures
        digits_len(s) == n,
    decreases s.len(),
{
    if n > 0 {
        let t = s.drop_first();
        assert forall|k: int| 0 <= k < n - 1 implies is_digit(#[trigger] t[k]) by {
            assert(t[k] == s[k + 1]);
        }
        lemma_digits_len_is(t, n - 1);
    }
}

/// The digits that lead a text are digits, and only those.
pub proof fn lemma_digits_len(s: Seq<char>)
    ensures
        digits_len(s) <= s.len(),
        forall|k: int| 0 <= k < digits_len(s) ==> is_digit(#[trigger] s[k]),
    decreases s.len(),
{
    if s.len() > 0 && is_digit(s[0]) {
        lemma_digits_len(s.drop_first());
        assert forall|k: int| 0 <= k < digits_len(s) implies is_digit(#[trigger] s[k]) by {
            if k > 0 {
                assert(s[k] == s.drop_first()[k - 1]);
            }
        }
    }
}

/// Counts how many digits lead the text.
pub fn count_digits(chars: &Vec<char>) -> (n: usize)
    ensures
        n == digits_len(chars@),
        n <= chars@.len(),
{
    let mut i: usize = 0;
    while i < chars.len() && '0' <= chars[i] && chars[i] <= '9'
        invariant
            i <= chars@.len(),
            forall|k: int| 0 <= k < i ==> is_digit(#[trigger] chars@[k]),
        decreases chars@.len() - i,
    {
        i += 1;
    }
    proof {
        lemma_digits_len_is(chars@, i as int);
    }
    i
}

/// The marker and the text of a list item: a bullet for `- `, `* ` and `+ `,
/// the number with its dot for up to three digits.
pub open spec fn list_marker(t: Seq<char>) -> Option<(Seq<char>, Seq<char>)> {
    let d = digits_len(t) as int;
    if t.len() >= 2 && (t[0] == '-' || t[0] == '*' || t[0] == '+') && t[1] == ' ' {
        Some((seq!['•'], t.skip(2)))
    } else if 0 < d <= 3 && d + 1 < t.len() && t[d] == '.' && t[d + 1] == ' ' {
        Some((t.take(d + 1), t.skip(d + 2)))
    } else {
        None
    }
}

/// Splits a list item into its marker and its text.
pub fn split_list_marker(t: &Vec<char>) -> (r: Option<(String, Vec<char>)>)
    ensures
        r is Some <==> list_marker(t@) is Some,
        r matches Some(m) ==> (m.0@, m.1@) == list_marker(t@).unwrap(),
        r matches Some(m) ==> m.0@.len() <= 4,
{
    let n: usize = t.len();
    if n >= 2 && (t[0] == '-' || t[0] == '*' || t[0] == '+') && t[1] == ' ' {
        let mut marker = String::new();
        marker.push('•');
        assert(marker@ =~= seq!['•']);
        return Some((marker, slice(t, 2, n)));
    }
    let d: usize = count_digits(t);
    if 0 < d && d <= 3 && d + 1 < n && t[d] == '.' && t[d + 1] == ' ' {
        let marker = string_of(t, 0, d + 1);
        assert(t@.subrange(0, d + 1) =~= t@.take(d + 1));
        return Some((marker, slice(t, d + 2, n)));
    }
    None
}

/// The UTF-8 length of a character.
pub open spec fn utf8_len(c: char) -> nat {
    if '\u{80}' > c {
        1
    } else if '\u{800}' > c {
        2
    } else if '\u{10000}' > c {
        3
    } else {
        4
    }
}

/// The UTF-8 length of the first `n` characters.
pub open spec fn bytes_of(s: Seq<char>, n: int) -> nat
    decreases n,
{
    if n <= 0 {
        0
    } else {
        bytes_of(s, n - 1) + utf8_len(s[n - 1])
    }
}

/// How deep a list item is nested: one level per two bytes of indent, at
/// most four.
pub open spec fn nesting(line: Seq<char>) -> nat {
    let bytes = bytes_of(line, text::leading_space(line) as int);
    if bytes / 2 < 4 {
        bytes / 2
    } else {
        4
    }
}

fn nesting_level(line: &Vec<char>) -> (r: usize)
    ensures
        r == nesting(line@),
        r <= 4,
{
    let n: usize = text::count_leading_space(line);
    let mut bytes: u128 = 0;
    let mut i: usize = 0;
    while i < n
        invariant
            i <= n <= line@.len(),
            bytes == bytes_of(line@, i as int),
            bytes <= 4 * i,
        decreases n - i,
    {
        let c = line[i];
        bytes = bytes + if '\u{80}' > c {
            1
        } else if '\u{800}' > c {
            2
        } else if '\u{10000}' > c {
            3
        } else {
            4
        };
        i += 1;
    }
    if bytes / 2 < 4 {
        (bytes / 2) as usize
    } else {
        4
    }
}

/// What a line is.
pub enum BlockView {
    Blank,
    Heading { level: nat, text: Seq<char> },
    Rule,
    Quote { text: Seq<char> },
    Item { prefix: Seq<char>, text: Seq<char> },
    Paragraph,
}

/// Three or more of the same marker, and nothing else.
pub open spec fn is_rule(t: Seq<char>) -> bool {
    t.len() >= 3 && (t[0] == '-' || t[0] == '*' || t[0] == '_') && forall|k: int|
        0 <= k < t.len() ==> #[trigger] t[k] == t[0]
}

/// What a line is. A heading has one to six hashes and a space; a quotation
/// starts with `>`, nested ones collapse into it.
pub open spec fn block_of(line: Seq<char>) -> BlockView {
    let t = text::trim_start(line);
    let h = run_len(t, '#') as int;
    if text::is_blank(line) {
        BlockView::Blank
    } else if 1 <= h <= 6 && h < t.len() && t[h] == ' ' {
        BlockView::Heading { level: h as nat, text: text::trim_start(t.skip(h + 1)) }
    } else if is_rule(t) {
        BlockView::Rule
    } else if t.len() > 0 && t[0] == '>' {
        BlockView::Quote { text: text::trim_start(t.skip(run_len(t, '>') as int)) }
    } else if list_marker(t) is Some {
        let (marker, rest) = list_marker(t).unwrap();
        BlockView::Item {
            prefix: text::repeated(' ', 2 * nesting(line)) + marker + " "@,
            text: rest,
        }
    } else {
        BlockView::Paragraph
    }
}

/// What a line is.
pub enum Block {
    Blank,
    Heading { level: usize, text: Vec<char> },
    Rule,
    Quote { text: Vec<char> },
    Item { prefix: String, text: Vec<char> },
    Paragraph,
}

impl View for Block {
    type V = BlockView;

    open spec fn view(&self) -> BlockView {
        match self {
            Block::Blank => BlockView::Blank,
            Block::Heading { level, text } => BlockView::Heading {
                level: *level as nat,
                text: text@,
            },
            Block::Rule => BlockView::Rule,
            Block::Quote { text } => BlockView::Quote { text: text@ },
            Block::Item { prefix, text } => BlockView::Item { prefix: prefix@, text: text@ },
            Block::Paragraph => BlockView::Paragraph,
        }
    }
}

/// Tells what a line is.
pub fn classify(line: &Vec<char>) -> (r: Block)
    ensures
        r@ == block_of(line@),
        r matches Block::Item { prefix, .. } ==> prefix@.len() <= 13,
{
    let t = text::trimmed_start(line);
    let n: usize = t.len();
    proof {
        text::lemma_blank(line@);
        text::lemma_leading_space(line@);
    }
    if n == 0 {
        return Block::Blank;
    }
    let h: usize = count_run(&t, '#');
    if 1 <= h && h <= 6 && h < n && t[h] == ' ' {
        let rest = slice(&t, h + 1, n);
        return Block::Heading { level: h, text: text::trimmed_start(&rest) };
    }
    let first = t[0];
    if n >= 3 && (first == '-' || first == '*' || first == '_') {
        let run: usize = count_run(&t, first);
        if run == n {
            proof {
                lemma_run_len(t@, first);
            }
            return Block::Rule;
        }
        proof {
            lemma_run_len(t@, first);
        }
    }
    if first == '>' {
        let run: usize = count_run(&t, '>');
        let rest = slice(&t, run, n);
        return Block::Quote { text: text::trimmed_start(&rest) };
    }
    match split_list_marker(&t) {
        Some((marker, rest)) => {
            let level: usize = nesting_level(line);
            let mut prefix = String::new();
            text::push_repeated(&mut prefix, ' ', 2 * level);
            prefix.push_str(marker.as_str());
            prefix.push_str(" ");
            proof {
                reveal_strlit(" ");
                assert(prefix@ =~= text::repeated(' ', 2 * nesting(line@)) + marker@ + " "@);
            }
            Block::Item { prefix, text: rest }
        },
        None => Block::Paragraph,
    }
}

proof fn lemma_run_len(s: Seq<char>, c: char)
    ensures
        run_len(s, c) <= s.len(),
        forall|k: int| 0 <= k < run_len(s, c) ==> s[k] == c,
        run_len(s, c) < s.len() ==> s[run_len(s, c) as int] != c,
    decreases s.len(),
{
    if s.len() > 0 && s[0] == c {
        lemma_run_len(s.drop_first(), c);
        let n = run_len(s.drop_first(), c);
        assert forall|k: int| 0 <= k < run_len(s, c) implies s[k] == c by {
            if k > 0 {
                assert(s[k] == s.drop_first()[k - 1]);
            }
        }
        if run_len(s, c) < s.len() {
            assert(s[run_len(s, c) as int] == s.drop_first()[n as int]);
        }
    }
}

/// The lines of a text outside code and tables.
pub open spec fn block_lines(line: Seq<char>, width: int, base: Style) -> Seq<LineView> {
    match block_of(line) {
        BlockView::Blank => seq![lines::empty_line()],
        BlockView::Heading { level, text } => {
            let style = if level <= 2 {
                base.patch(theme::md_heading())
            } else {
                base.patch(theme::md_bold())
            };
            layout::wrapped_lines(emphasis::inline_of(text, style), width, None, 0)
        },
        BlockView::Rule => seq![
            lines::styled_line(text::repeated('─', width as nat), base.patch(theme::md_rule())),
        ],
        BlockView::Quote { text } => {
            let style = base.patch(theme::md_quote());
            layout::wrapped_lines(
                emphasis::inline_of(text, style),
                width,
                Some(SpanView { content: "▌ "@, style }),
                2,
            )
        },
        BlockView::Item { prefix, text } => layout::wrapped_lines(
            emphasis::inline_of(text, base),
            width,
            Some(SpanView { content: prefix, style: base.patch(theme::md_bullet()) }),
            wrap::cols(prefix) as int,
        ),
        BlockView::Paragraph => layout::wrapped_lines(
            emphasis::inline_of(line, base),
            width,
            None,
            0,
        ),
    }
}

/// Renders one line that is neither code nor part of a table.
pub fn render_block_line(out: &mut Vec<Line>, line: &Vec<char>, width: usize, base: Style)
    ensures
        lines::line_views(final(out)@) == lines::line_views(old(out)@) + block_lines(
            line@,
            width as int,
            base,
        ),
{
    broadcast use lines::group_views;

    let ghost start = lines::line_views(out@);
    match classify(line) {
        Block::Blank => {
            out.push(lines::blank_line());
            assert(lines::line_views(out@) =~= start + seq![lines::empty_line()]);
        },
        Block::Heading { level, text } => {
            let style = if level <= 2 {
                base.patch(theme::md_heading())
            } else {
                base.patch(theme::md_bold())
            };
            let segments = inline_spans(&text, style);
            push_wrapped_spans(out, &segments, width, None, 0);
        },
        Block::Rule => {
            let mut rule = String::new();
            text::push_repeated(&mut rule, '─', width);
            assert(rule@ =~= text::repeated('─', width as nat));
            out.push(lines::line_of(rule, base.patch(theme::md_rule())));
            assert(lines::line_views(out@) =~= start + block_lines(line@, width as int, base));
        },
        Block::Quote { text } => {
            let style = base.patch(theme::md_quote());
            let segments = inline_spans(&text, style);
            push_wrapped_spans(out, &segments, width, Some(("▌ ", style)), 2);
        },
        Block::Item { prefix, text } => {
            let segments = inline_spans(&text, base);
            let pc = chars_of(prefix.as_str());
            let hang: u128 = range_width(&pc, 0, pc.len());
            assert(pc@.subrange(0, pc@.len() as int) =~= pc@);
            push_wrapped_spans(
                out,
                &segments,
                width,
                Some((prefix.as_str(), base.patch(theme::md_bullet()))),
                hang as usize,
            );
        },
        Block::Paragraph => {
            let segments = inline_spans(line, base);
            push_wrapped_spans(out, &segments, width, None, 0);
        },
    }
}

// ---------------------------------------------------------------------------
// Code
// ---------------------------------------------------------------------------

/// The text with four spaces for every tab.
pub open spec fn expand_tabs(s: Seq<char>) -> Seq<char>
    decreases s.len(),
{
    if s.len() == 0 {
        Seq::empty()
    } else if s.last() == '\t' {
        expand_tabs(s.drop_last()) + "    "@
    } else {
        expand_tabs(s.drop_last()).push(s.last())
    }
}

/// A code line as it is shown: one space in front, tabs expanded.
pub open spec fn code_text(line: Seq<char>) -> Seq<char> {
    " "@ + expand_tabs(line)
}

/// A row of code, padded to the full width.
pub open spec fn panel_row(row: Seq<char>, width: int) -> LineView {
    let pad = if wrap::cols(row) <= width {
        width - wrap::cols(row)
    } else {
        0
    };
    lines::styled_line(row + text::repeated(' ', pad as nat), theme::md_code_block())
}

/// One column less, where there is one.
pub open spec fn one_less(width: int) -> int {
    if width > 0 {
        width - 1
    } else {
        0
    }
}

/// The rows of a code line: a full width panel.
pub open spec fn code_lines(line: Seq<char>, width: int) -> Seq<LineView> {
    wrap::wrapped(code_text(line), one_less(width)).map_values(
        |row: Seq<char>| panel_row(row, width),
    )
}

/// The code text of a line.
fn shown_code(line: &Vec<char>) -> (r: Vec<char>)
    ensures
        r@ == code_text(line@),
{
    let mut out: Vec<char> = chars_of(" ");
    let mut i: usize = 0;
    assert(line@.take(0) =~= Seq::empty());
    assert(out@ =~= " "@ + expand_tabs(line@.take(0)));
    while i < line.len()
        invariant
            i <= line@.len(),
            out@ == " "@ + expand_tabs(line@.take(i as int)),
        decreases line@.len() - i,
    {
        let ghost now = line@.take(i + 1);
        let ghost before = out@;
        assert(now.drop_last() =~= line@.take(i as int));
        if line[i] == '\t' {
            let mut tab = chars_of("    ");
            out.append(&mut tab);
        } else {
            out.push(line[i]);
        }
        assert(out@ =~= " "@ + expand_tabs(now));
        i += 1;
    }
    assert(line@.take(i as int) =~= line@);
    out
}

/// Renders one line of fenced code. Wherever the panel has room for a
/// character at all, every row of it is exactly as wide as the panel.
pub fn push_code_line(out: &mut Vec<Line>, line: &Vec<char>, width: usize)
    ensures
        lines::line_views(final(out)@) == lines::line_views(old(out)@) + code_lines(
            line@,
            width as int,
        ),
        width >= 4 ==> forall|k: int|
            0 <= k < code_lines(line@, width as int).len() ==> lines::spans_cols(
                (#[trigger] code_lines(line@, width as int)[k]).spans,
            ) == width,
{
    broadcast use lines::group_views;

    let shown = shown_code(line);
    let inner: usize = if width > 0 {
        width - 1
    } else {
        0
    };
    let rows = wrap_chars(&shown, inner);
    let ghost whole = code_lines(line@, width as int);
    let ghost start = lines::line_views(out@);
    let mut k: usize = 0;
    assert(start + whole.take(0) =~= start);
    while k < rows.len()
        invariant
            k <= rows@.len(),
            rows@.len() == whole.len(),
            shown@ == code_text(line@),
            whole == code_lines(line@, width as int),
            inner == one_less(width as int),
            wrap::rows_view(rows@) == wrap::wrapped(shown@, inner as int),
            lines::line_views(out@) == start + whole.take(k as int),
            width >= 4 ==> forall|j: int|
                0 <= j < k ==> lines::spans_cols((#[trigger] whole[j]).spans) == width,
        decreases rows@.len() - k,
    {
        broadcast use lines::group_views;

        let row = &rows[k];
        let w: u128 = range_width(row, 0, row.len());
        assert(row@.subrange(0, row@.len() as int) =~= row@);
        let pad: usize = if w <= width as u128 {
            width - w as usize
        } else {
            0
        };
        let mut content = text::to_text(row);
        let padding = lines::spaces(pad);
        content.push_str(padding.as_str());
        let l = lines::line_of(content, theme::md_code_block());
        proof {
            assert(wrap::rows_view(rows@)[k as int] == row@);
            assert(whole[k as int] == panel_row(row@, width as int));
            assert(l@ == whole[k as int]);
            wrap::law_rows_fit_the_width(shown@, inner as nat, k as int);
            wrap::lemma_cols_add(row@, padding@);
            lemma_one_span_cols(l@.spans[0]);
            assert(l@.spans =~= seq![l@.spans[0]]);
            assert(whole.take(k + 1) =~= whole.take(k as int).push(whole[k as int]));
            assert(start + whole.take(k + 1) =~= (start + whole.take(k as int)).push(
                whole[k as int],
            ));
        }
        out.push(l);
        k += 1;
    }
    assert(whole.take(k as int) =~= whole);
}

/// One span is as wide as its text.
proof fn lemma_one_span_cols(s: SpanView)
    ensures
        lines::spans_cols(seq![s]) == wrap::cols(s.content),
{
    lines::lemma_spans_push(Seq::empty(), s);
    assert(Seq::<SpanView>::empty().push(s) =~= seq![s]);
    assert(lines::spans_cols(Seq::<SpanView>::empty()) == 0);
}

// ---------------------------------------------------------------------------
// The whole text
// ---------------------------------------------------------------------------

/// Whether a line opens or closes fenced code.
pub open spec fn is_fence(line: Seq<char>) -> bool {
    text::has_prefix(text::trim_start(line), "```"@)
}

/// Whether a table starts at line `i`: a row, and a separator behind it.
pub open spec fn starts_table(source: Seq<Seq<char>>, i: int) -> bool {
    let t = text::trim_start(source[i]);
    t.len() > 0 && t[0] == '|' && i + 1 < source.len() && tables::is_separator(source[i + 1])
}

/// A line that starts with a pipe is a row.
proof fn lemma_pipe_row(line: Seq<char>)
    requires
        text::trim_start(line).len() > 0,
        text::trim_start(line)[0] == '|',
    ensures
        tables::is_row(line),
{
    let t = text::trim_start(line);
    text::lemma_trim_end(t);
    if text::trim_end(t).len() == 0 {
        assert(text::is_white_space(t[0]));
    }
}

/// A table holds at least its header and its separator.
pub proof fn lemma_table_has_two_lines(source: Seq<Seq<char>>, i: int)
    requires
        0 <= i < source.len(),
        starts_table(source, i),
    ensures
        i + 2 <= tables::table_end(source, i) <= source.len(),
{
    lemma_pipe_row(source[i]);
    tables::lemma_table_end(source, i + 2);
    assert(tables::table_end(source, i) == tables::table_end(source, i + 1));
    assert(tables::table_end(source, i + 1) == tables::table_end(source, i + 2));
}

/// The lines from line `i` of the source on.
pub open spec fn render_from(
    source: Seq<Seq<char>>,
    i: int,
    in_code: bool,
    width: int,
    base: Style,
) -> Seq<LineView>
    decreases source.len() - i,
{
    proof {
        if 0 <= i < source.len() && starts_table(source, i) {
            lemma_table_has_two_lines(source, i);
        }
    }
    if i < 0 || i >= source.len() {
        Seq::empty()
    } else if is_fence(source[i]) {
        render_from(source, i + 1, !in_code, width, base)
    } else if in_code {
        code_lines(source[i], width) + render_from(source, i + 1, in_code, width, base)
    } else if starts_table(source, i) {
        let end = tables::table_end(source, i);
        tables::table_lines(tables::table_rows(source, i, end, base), width, base) + render_from(
            source,
            end,
            in_code,
            width,
            base,
        )
    } else {
        block_lines(source[i], width, base) + render_from(source, i + 1, in_code, width, base)
    }
}

/// The lines of a markdown text. There is always at least one.
pub open spec fn rendered(s: Seq<char>, width: int, base: Style) -> Seq<LineView> {
    let shown = render_from(text::split_on(s, '\n'), 0, false, width, base);
    if shown.len() == 0 {
        seq![lines::empty_line()]
    } else {
        shown
    }
}

/// Renders markdown into wrapped, styled lines. `base` is the style of the
/// cell.
pub fn render(s: &str, width: usize, base: Style) -> (r: Vec<Line>)
    ensures
        lines::line_views(r@) == rendered(s@, width as int, base),
        r@.len() >= 1,
{
    broadcast use lines::group_views;

    let chars = chars_of(s);
    let source = text::split_chars(&chars, '\n');
    let ghost src = text::views(source@);
    let ghost whole = render_from(src, 0, false, width as int, base);
    let mut out: Vec<Line> = Vec::new();
    let mut in_code = false;
    let mut i: usize = 0;
    assert(lines::line_views(out@) + whole =~= whole);
    while i < source.len()
        invariant
            i <= source@.len(),
            src == text::views(source@),
            lines::line_views(out@) + render_from(src, i as int, in_code, width as int, base)
                == whole,
        decreases source@.len() - i,
    {
        assert(src[i as int] == source@[i as int]@);
        let ghost before = lines::line_views(out@);
        let ghost rest = render_from(src, i as int, in_code, width as int, base);
        let trimmed = text::trimmed_start(&source[i]);
        if text::starts_with(&trimmed, "```") {
            in_code = !in_code;
            i += 1;
        } else if in_code {
            push_code_line(&mut out, &source[i], width);
            proof {
                let part = code_lines(src[i as int], width as int);
                let tail = render_from(src, i + 1, in_code, width as int, base);
                assert(before + (part + tail) =~= (before + part) + tail);
            }
            i += 1;
        } else if trimmed.len() > 0 && trimmed[0] == '|' && i + 1 < source.len()
            && tables::is_table_separator(&source[i + 1]) {
            assert(src[i + 1] == source@[i + 1]@);
            proof {
                lemma_table_has_two_lines(src, i as int);
            }
            let end: usize = tables::find_table_end(&source, i);
            tables::render_table(&mut out, &source, i, end, width, base);
            proof {
                let part = tables::table_lines(
                    tables::table_rows(src, i as int, end as int, base),
                    width as int,
                    base,
                );
                let tail = render_from(src, end as int, in_code, width as int, base);
                assert(before + (part + tail) =~= (before + part) + tail);
            }
            i = end;
        } else {
            assert(i + 1 < source@.len() ==> src[i + 1] == source@[i + 1]@);
            render_block_line(&mut out, &source[i], width, base);
            proof {
                let part = block_lines(src[i as int], width as int, base);
                let tail = render_from(src, i + 1, in_code, width as int, base);
                assert(before + (part + tail) =~= (before + part) + tail);
            }
            i += 1;
        }
    }
    assert(lines::line_views(out@) + Seq::empty() =~= lines::line_views(out@));
    assert(lines::line_views(out@).len() == out@.len());
    if out.len() == 0 {
        out.push(lines::blank_line());
        assert(lines::line_views(out@) =~= seq![lines::empty_line()]);
    }
    out
}

// ---------------------------------------------------------------------------
// Laws
// ---------------------------------------------------------------------------

/// Plain text in a style, wrapped: one line of one span per row.
pub open spec fn plain_rows(line: Seq<char>, width: int, style: Style) -> Seq<LineView> {
    wrap::wrapped(line, width).map_values(|row: Seq<char>| lines::styled_line(row, style))
}

/// A line without markup: a paragraph in which no delimiter takes effect.
pub open spec fn is_plain(line: Seq<char>, base: Style) -> bool {
    &&& block_of(line) is Paragraph
    &&& emphasis::inline_of(line, base) == seq![SpanView { content: line, style: base }]
}

/// A line without markup looks as if there were no markdown: one span per
/// row, in the style of the cell, broken where plain text breaks.
pub proof fn law_plain_text_is_untouched(line: Seq<char>, width: nat, base: Style)
    requires
        is_plain(line, base),
    ensures
        block_lines(line, width as int, base) == plain_rows(line, width as int, base),
{
    text::lemma_blank(line);
    assert(line.len() > 0);
    layout::law_one_style_gives_one_span_per_row(line, base, width);
    assert(block_lines(line, width as int, base) =~= plain_rows(line, width as int, base));
}

/// A line that holds none of the markup characters and does not start like
/// a block is plain.
pub proof fn law_what_counts_as_plain(line: Seq<char>, base: Style)
    requires
        !text::is_blank(line),
        forall|k: int| 0 <= k < line.len() ==> emphasis::is_literal(#[trigger] line[k]),
        ({
            let first = text::trim_start(line)[0];
            first != '#' && first != '>' && first != '-' && first != '+' && !is_digit(first)
        }),
    ensures
        is_plain(line, base),
{
    emphasis::law_literal_text_is_one_segment(line, base);
    let t = text::trim_start(line);
    text::lemma_blank(line);
    text::lemma_leading_space(line);
    assert(t[0] == line[text::leading_space(line) as int]);
    assert(emphasis::is_literal(t[0]));
    assert(run_len(t, '#') == 0);
    assert(digits_len(t) == 0);
}

/// A single line of plain text renders as plain rows.
pub proof fn law_plain_line_renders_plainly(s: Seq<char>, width: nat, base: Style)
    requires
        is_plain(s, base),
        forall|k: int| 0 <= k < s.len() ==> s[k] != '\n',
        !is_fence(s),
    ensures
        rendered(s, width as int, base) == plain_rows(s, width as int, base),
{
    text::lemma_split_on(s, '\n');
    text::lemma_find_from_is(s, '\n', 0, s.len() as int);
    let source = text::split_on(s, '\n');
    assert(source == seq![s]);
    assert(!starts_table(source, 0));
    assert(render_from(source, 1, false, width as int, base) =~= Seq::empty());
    law_plain_text_is_untouched(s, width, base);
    assert(render_from(source, 0, false, width as int, base) =~= block_lines(
        s,
        width as int,
        base,
    ));
    lemma_wrapped_not_empty(s, width);
}

proof fn lemma_wrapped_not_empty(s: Seq<char>, width: nat)
    ensures
        wrap::wrapped(s, width as int).len() >= 1,
{
}

/// A fence that is not closed yet shows everything behind it as code.
pub proof fn law_unclosed_fence_streams_as_code(
    source: Seq<Seq<char>>,
    i: int,
    width: int,
    base: Style,
)
    requires
        0 <= i < source.len(),
        forall|k: int| i <= k < source.len() ==> !is_fence(#[trigger] source[k]),
    ensures
        render_from(source, i, true, width, base) == code_lines(source[i], width) + render_from(
            source,
            i + 1,
            true,
            width,
            base,
        ),
{
}

/// Tabs are expanded character by character: a tab takes four spaces, and
/// every other character stands unchanged.
pub proof fn law_tabs_take_four_spaces(a: Seq<char>, b: Seq<char>)
    ensures
        expand_tabs(a + b) == expand_tabs(a) + expand_tabs(b),
        expand_tabs(seq!['\t']) == seq![' ', ' ', ' ', ' '],
        !a.contains('\t') ==> expand_tabs(a) == a,
    decreases a.len() + b.len(),
{
    reveal_strlit("    ");
    assert("    "@ =~= seq![' ', ' ', ' ', ' ']);
    let tab = seq!['\t'];
    assert(tab.drop_last() =~= Seq::empty());
    assert(expand_tabs(tab.drop_last()) =~= Seq::empty());
    assert(expand_tabs(tab) =~= seq![' ', ' ', ' ', ' ']);
    if b.len() == 0 {
        assert(a + b =~= a);
        assert(expand_tabs(a) + expand_tabs(b) =~= expand_tabs(a));
        if a.len() > 0 && !a.contains('\t') {
            let front = a.drop_last();
            assert(!front.contains('\t')) by {
                if front.contains('\t') {
                    let k = choose|k: int| 0 <= k < front.len() && front[k] == '\t';
                    assert(a[k] == '\t');
                }
            }
            law_tabs_take_four_spaces(front, Seq::empty());
            assert(a.contains(a.last()));
            assert(expand_tabs(a) =~= a);
        } else if a.len() == 0 {
            assert(expand_tabs(a) =~= a);
        }
    } else {
        law_tabs_take_four_spaces(a, b.drop_last());
        assert((a + b).drop_last() =~= a + b.drop_last());
        assert((a + b).last() == b.last());
        assert(expand_tabs(a + b) =~= expand_tabs(a) + expand_tabs(b));
    }
}

/// How many tabs a text holds.
pub open spec fn tabs_in(s: Seq<char>) -> nat {
    s.filter(|c: char| c == '\t').len()
}

/// A code line is shown with one space in front and three further columns
/// for each tab: nothing of it is dropped.
pub proof fn law_code_lines_keep_their_length(line: Seq<char>)
    ensures
        code_text(line).len() == 1 + line.len() + 3 * tabs_in(line),
        code_text(line)[0] == ' ',
    decreases line.len(),
{
    reveal(Seq::filter);
    reveal_strlit(" ");
    reveal_strlit("    ");
    if line.len() > 0 {
        law_code_lines_keep_their_length(line.drop_last());
    }
}

proof fn lemma_tabs(k: nat)
    ensures
        expand_tabs(Seq::new(k, |i: int| '\t')) == Seq::new(4 * k, |i: int| ' '),
    decreases k,
{
    let tabs = Seq::new(k, |i: int| '\t');
    if k == 0 {
        assert(expand_tabs(tabs) =~= Seq::new(4 * k, |i: int| ' '));
    } else {
        let fewer = Seq::new((k - 1) as nat, |i: int| '\t');
        lemma_tabs((k - 1) as nat);
        reveal_strlit("    ");
        assert(tabs.drop_last() =~= fewer);
        assert(expand_tabs(tabs) =~= Seq::new(4 * k, |i: int| ' '));
    }
}

/// Indentation by tabs is kept: a line of `k` tabs and then text without
/// tabs is shown as one space, four spaces for each tab, and the text.
pub proof fn law_indented_code_stays_indented(k: nat, s: Seq<char>)
    requires
        !s.contains('\t'),
    ensures
        code_text(Seq::new(k, |i: int| '\t') + s) == seq![' '] + Seq::new(4 * k, |i: int| ' ') + s,
{
    let tabs = Seq::new(k, |i: int| '\t');
    law_tabs_take_four_spaces(tabs, s);
    law_tabs_take_four_spaces(s, Seq::empty());
    lemma_tabs(k);
    reveal_strlit(" ");
    assert(code_text(tabs + s) =~= seq![' '] + Seq::new(4 * k, |i: int| ' ') + s);
}

/// The rows of a code line hold its shown text, from its start to its end,
/// each with nothing but spaces behind it, in the style of a panel.
pub proof fn law_code_rows_hold_the_line(line: Seq<char>, width: nat, k: int)
    requires
        0 <= k < code_lines(line, width as int).len(),
    ensures
        ({
            let rows = wrap::wrapped(code_text(line), one_less(width as int));
            let shown = code_lines(line, width as int);
            &&& rows.flatten() == code_text(line)
            &&& shown.len() == rows.len()
            &&& shown[k].spans.len() == 1
            &&& shown[k].spans[0].style == theme::md_code_block()
            &&& rows[k].len() <= shown[k].spans[0].content.len()
            &&& shown[k].spans[0].content.take(rows[k].len() as int) == rows[k]
            &&& forall|i: int|
                rows[k].len() <= i < shown[k].spans[0].content.len()
                    ==> #[trigger] shown[k].spans[0].content[i] == ' '
        }),
{
    let rows = wrap::wrapped(code_text(line), one_less(width as int));
    let shown = code_lines(line, width as int);
    wrap::law_wrap_keeps_every_character(code_text(line), one_less(width as int) as nat);
    assert(shown[k] == panel_row(rows[k], width as int));
    assert(shown[k].spans[0].content.take(rows[k].len() as int) =~= rows[k]);
}

proof fn lemma_code_block(source: Seq<Seq<char>>, i: int, end: int, width: int, base: Style)
    requires
        0 <= i <= end < source.len(),
        is_fence(source[end]),
        forall|k: int| i <= k < end ==> !is_fence(#[trigger] source[k]),
    ensures
        render_from(source, i, true, width, base) == source.subrange(i, end).map_values(
            |line: Seq<char>| code_lines(line, width),
        ).flatten() + render_from(source, end + 1, false, width, base),
    decreases end - i,
{
    let shown = source.subrange(i, end).map_values(|line: Seq<char>| code_lines(line, width));
    let rest = render_from(source, end + 1, false, width, base);
    if i < end {
        lemma_code_block(source, i + 1, end, width, base);
        let behind = source.subrange(i + 1, end).map_values(
            |line: Seq<char>| code_lines(line, width),
        );
        assert(shown.drop_first() =~= behind);
        assert(shown.first() == code_lines(source[i], width));
        assert(!is_fence(source[i]));
        assert(shown.flatten() + rest =~= code_lines(source[i], width) + (behind.flatten()
            + rest));
    } else {
        assert(shown =~= Seq::empty());
        assert(shown.flatten() =~= Seq::empty());
        assert(shown.flatten() + rest =~= rest);
    }
}

/// Fenced code is shown line by line as code, and the fences are not shown;
/// behind the closing fence the text goes on as before.
pub proof fn law_fenced_code_is_shown_as_code(
    source: Seq<Seq<char>>,
    i: int,
    end: int,
    width: int,
    base: Style,
)
    requires
        0 <= i < end < source.len(),
        is_fence(source[i]),
        is_fence(source[end]),
        forall|k: int| i < k < end ==> !is_fence(#[trigger] source[k]),
    ensures
        render_from(source, i, false, width, base) == source.subrange(i + 1, end).map_values(
            |line: Seq<char>| code_lines(line, width),
        ).flatten() + render_from(source, end + 1, false, width, base),
{
    lemma_code_block(source, i + 1, end, width, base);
}

/// A fence is a line of three backticks, with white space before it and
/// anything behind.
pub proof fn law_what_is_a_fence(indent: Seq<char>, rest: Seq<char>)
    requires
        forall|k: int| 0 <= k < indent.len() ==> text::is_white_space(#[trigger] indent[k]),
    ensures
        is_fence(indent + seq!['`', '`', '`'] + rest),
        rest.len() > 0 && rest[0] != '`' && !text::is_white_space(rest[0]) ==> !is_fence(
            indent + rest,
        ),
{
    reveal_strlit("```");
    let line = indent + seq!['`', '`', '`'] + rest;
    lemma_indented(indent, seq!['`', '`', '`'] + rest);
    assert(line =~= indent + (seq!['`', '`', '`'] + rest));
    assert((seq!['`', '`', '`'] + rest).take(3) =~= "```"@);
    if rest.len() > 0 && rest[0] != '`' && !text::is_white_space(rest[0]) {
        lemma_indented(indent, rest);
        if is_fence(indent + rest) {
            assert(rest.take(3)[0] == rest[0]);
        }
    }
}

proof fn lemma_indented(indent: Seq<char>, rest: Seq<char>)
    requires
        rest.len() > 0,
        !text::is_white_space(rest[0]),
        forall|k: int| 0 <= k < indent.len() ==> text::is_white_space(#[trigger] indent[k]),
    ensures
        text::trim_start(indent + rest) == rest,
        text::leading_space(indent + rest) == indent.len(),
        !text::is_blank(indent + rest),
{
    let line = indent + rest;
    text::lemma_leading_space(line);
    text::lemma_blank(line);
    let n = text::leading_space(line) as int;
    if n < indent.len() {
        assert(line[n] == indent[n]);
    }
    if n > indent.len() {
        assert(line[indent.len() as int] == rest[0]);
    }
    assert(line.skip(n) =~= rest);
}

/// Outside code and tables every line is shown on its own, in order.
pub proof fn law_other_lines_are_shown_one_by_one(
    source: Seq<Seq<char>>,
    i: int,
    width: int,
    base: Style,
)
    requires
        0 <= i <= source.len(),
        forall|k: int|
            i <= k < source.len() ==> !is_fence(#[trigger] source[k]) && !starts_table(source, k),
    ensures
        render_from(source, i, false, width, base) == source.skip(i).map_values(
            |line: Seq<char>| block_lines(line, width, base),
        ).flatten(),
    decreases source.len() - i,
{
    let shown = source.skip(i).map_values(|line: Seq<char>| block_lines(line, width, base));
    if i < source.len() {
        law_other_lines_are_shown_one_by_one(source, i + 1, width, base);
        let behind = source.skip(i + 1).map_values(
            |line: Seq<char>| block_lines(line, width, base),
        );
        assert(shown.drop_first() =~= behind);
        assert(shown.first() == block_lines(source[i], width, base));
        assert(!is_fence(source[i]) && !starts_table(source, i));
    } else {
        assert(shown =~= Seq::empty());
        assert(render_from(source, i, false, width, base) =~= shown.flatten());
    }
}

#[verifier::rlimit(50)]
#[verifier::spinoff_prover]
proof fn lemma_hashes(level: nat, s: Seq<char>)
    requires
        level > 0,
        s.len() > 0 ==> s[0] != '#',
    ensures
        ({
            let line = Seq::new(level, |i: int| '#') + s;
            &&& text::trim_start(line) == line
            &&& !text::is_blank(line)
            &&& run_len(line, '#') == level
            &&& line.len() == level + s.len()
            &&& s.len() > 0 ==> line[level as int] == s[0]
            &&& s.len() > 0 ==> line.skip(level as int + 1) == s.skip(1)
        }),
{
    let line = Seq::new(level, |i: int| '#') + s;
    assert(line[0] == '#');
    lemma_indented(Seq::empty(), line);
    assert(Seq::<char>::empty() + line =~= line);
    if s.len() > 0 {
        assert(line[level as int] == s[0]);
        assert(line.skip(level as int + 1) =~= s.skip(1));
    }
    lemma_run_len_is(line, '#', level as int);
}

/// One to six hashes and a space make a heading of that level; the hashes
/// are not part of its text. More make none.
pub proof fn law_hashes_make_headings(level: nat, s: Seq<char>)
    requires
        level > 0,
    ensures
        level <= 6 ==> block_of(Seq::new(level, |i: int| '#') + (seq![' '] + s))
            == (BlockView::Heading { level, text: text::trim_start(s) }),
        level > 6 ==> !(block_of(Seq::new(level, |i: int| '#') + (seq![' '] + s)) is Heading),
{
    lemma_hashes(level, seq![' '] + s);
    assert((seq![' '] + s).skip(1) =~= s);
}

/// Hashes without a space behind them make no heading.
pub proof fn law_hashtags_are_no_headings(level: nat, s: Seq<char>)
    requires
        level > 0,
        s.len() > 0 && s[0] != ' ' && s[0] != '#',
    ensures
        !(block_of(Seq::new(level, |i: int| '#') + s) is Heading),
{
    lemma_hashes(level, s);
}

/// Three or more dashes, asterisks or underscores, all of one kind and
/// nothing else, make a rule.
pub proof fn law_three_of_a_kind_make_a_rule(c: char, n: nat)
    requires
        c == '-' || c == '*' || c == '_',
    ensures
        n >= 3 ==> block_of(Seq::new(n, |i: int| c)) is Rule,
        n < 3 ==> !(block_of(Seq::new(n, |i: int| c)) is Rule),
{
    let line = Seq::new(n, |i: int| c);
    if n > 0 {
        lemma_indented(Seq::empty(), line);
        assert(Seq::<char>::empty() + line =~= line);
        assert(run_len(line, '#') == 0);
    } else {
        text::lemma_blank(line);
    }
}

/// What follows a `>` is a quotation, without the mark and the space behind
/// it; further marks collapse into the first.
pub proof fn law_quotations_lose_their_mark(n: nat, s: Seq<char>)
    requires
        n > 0,
        s.len() > 0 ==> s[0] != '>',
    ensures
        block_of(Seq::new(n, |i: int| '>') + s) == (BlockView::Quote { text: text::trim_start(s) }),
{
    let marks = Seq::new(n, |i: int| '>');
    let line = marks + s;
    assert(line[0] == '>');
    lemma_indented(Seq::empty(), line);
    assert(Seq::<char>::empty() + line =~= line);
    assert(run_len(line, '#') == 0);
    assert forall|k: int| 0 <= k < n implies line[k] == '>' by {}
    if s.len() > 0 {
        assert(line[n as int] == s[0]);
    }
    lemma_run_len_is(line, '>', n as int);
    assert(line.skip(n as int) =~= s);
}

proof fn lemma_bytes_of_spaces(s: Seq<char>, n: int)
    requires
        0 <= n <= s.len(),
        forall|k: int| 0 <= k < n ==> #[trigger] s[k] == ' ',
    ensures
        bytes_of(s, n) == n,
    decreases n,
{
    if n > 0 {
        lemma_bytes_of_spaces(s, n - 1);
        assert(s[n - 1] == ' ');
    }
}

/// A list item keeps its text and shows a bullet in front of it, two
/// columns deeper for every two spaces of indentation, four times at most.
pub proof fn law_items_show_their_depth(indent: nat, c: char, s: Seq<char>)
    requires
        c == '-' || c == '*' || c == '+',
        s.len() > 0 && !text::is_white_space(s[0]) && s[0] != c,
    ensures
        block_of(Seq::new(indent, |i: int| ' ') + seq![c, ' '] + s) == (BlockView::Item {
            prefix: Seq::new(
                (2 * if indent / 2 < 4 {
                    indent / 2
                } else {
                    4
                }) as nat,
                |i: int| ' ',
            ) + seq!['•', ' '],
            text: s,
        }),
{
    let spaces = Seq::new(indent, |i: int| ' ');
    let t = seq![c, ' '] + s;
    let line = spaces + seq![c, ' '] + s;
    assert(line =~= spaces + t);
    lemma_indented(spaces, t);
    assert(t[0] == c && t[1] == ' ');
    assert(run_len(t, '#') == 0);
    assert(!is_rule(t)) by {
        if is_rule(t) {
            assert(t[1] == t[0]);
        }
    }
    assert(t.skip(2) =~= s);
    assert forall|k: int| 0 <= k < indent implies #[trigger] line[k] == ' ' by {
        assert(line[k] == spaces[k]);
    }
    lemma_bytes_of_spaces(line, indent as int);
    reveal_strlit(" ");
    let level: nat = if indent / 2 < 4 {
        indent / 2
    } else {
        4
    };
    assert(text::repeated(' ', 2 * level) + seq!['•'] + " "@ =~= Seq::new(
        2 * level,
        |i: int| ' ',
    ) + seq!['•', ' ']);
}

/// A number of up to three digits with a dot and a space is a list item that
/// keeps its number.
pub proof fn law_numbered_items_keep_their_number(n: nat, s: Seq<char>)
    requires
        n < 1000,
    ensures
        list_marker(text::decimal(n) + seq!['.', ' '] + s) == Some(
            (text::decimal(n) + seq!['.'], s),
        ),
{
    let d = text::decimal(n);
    let t = d + seq!['.', ' '] + s;
    text::law_decimals_read_as_their_number(n);
    assert forall|k: int| 0 <= k < d.len() implies is_digit(#[trigger] t[k]) by {
        assert(t[k] == d[k]);
    }
    assert(t[d.len() as int] == '.' && t[d.len() as int + 1] == ' ');
    lemma_digits_len_is(t, d.len() as int);
    reveal_with_fuel(text::decimal, 4);
    assert(d.len() <= 3);
    assert(t[0] == d[0]);
    assert(t.take(d.len() as int + 1) =~= d + seq!['.']);
    assert(t.skip(d.len() as int + 2) =~= s);
}

/// The style of a heading shows its rank: the first two levels are
/// underlined, and every one is bold.
pub proof fn law_blocks_are_styled_by_kind(line: Seq<char>, width: nat, base: Style)
    ensures
        block_of(line) matches BlockView::Heading { level, text } ==> block_lines(
            line,
            width as int,
            base,
        ) == layout::wrapped_lines(
            emphasis::inline_of(
                text,
                if level <= 2 {
                    base.patch(theme::md_heading())
                } else {
                    base.patch(theme::md_bold())
                },
            ),
            width as int,
            None,
            0,
        ),
        block_of(line) is Rule ==> block_lines(line, width as int, base).len() == 1 && block_lines(
            line,
            width as int,
            base,
        )[0].spans == seq![
            SpanView {
                content: Seq::new(width, |i: int| '─'),
                style: base.patch(theme::md_rule()),
            },
        ],
        block_of(line) is Blank ==> block_lines(line, width as int, base).len() == 1 && block_lines(
            line,
            width as int,
            base,
        )[0].spans.len() == 0,
{
    if block_of(line) is Rule {
        assert(text::repeated('─', width) =~= Seq::new(width, |i: int| '─'));
        assert(block_lines(line, width as int, base)[0].spans =~= seq![
            SpanView {
                content: Seq::new(width, |i: int| '─'),
                style: base.patch(theme::md_rule()),
            },
        ]);
    }
}

/// A text of markdown is rendered line by line of its own lines: no line of
/// it is lost in the splitting.
pub proof fn law_every_line_is_rendered(parts: Seq<Seq<char>>, width: int, base: Style)
    requires
        parts.len() > 0,
        forall|k: int| 0 <= k < parts.len() ==> !(#[trigger] parts[k]).contains('\n'),
        render_from(parts, 0, false, width, base).len() > 0,
    ensures
        rendered(text::joined(parts, seq!['\n']), width, base) == render_from(
            parts,
            0,
            false,
            width,
            base,
        ),
{
    text::law_splitting_undoes_joining(parts, '\n');
}

} // verus!
