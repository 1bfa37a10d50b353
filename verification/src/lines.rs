//! Styled lines: what a pane shows, row by row.
use vstd::prelude::*;

use crate::text::push_repeated;
use crate::theme::Style;
use crate::{text, theme, wrap};

verus! {

/// A run of text in one style.
#[derive(Debug)]
pub struct Span {
    pub content: String,
    pub style: Style,
}

/// One row: spans side by side, over a style of the whole row.
#[derive(Debug)]
pub struct Line {
    pub spans: Vec<Span>,
    pub style: Style,
}

/// What a span shows.
pub struct SpanView {
    pub content: Seq<char>,
    pub style: Style,
}

/// What a line shows.
pub struct LineView {
    pub spans: Seq<SpanView>,
    pub style: Style,
}

impl View for Span {
    type V = SpanView;

    open spec fn view(&self) -> SpanView {
        SpanView { content: self.content@, style: self.style }
    }
}

/// Views of spans.
pub open spec fn span_views(s: Seq<Span>) -> Seq<SpanView> {
    s.map_values(|x: Span| x@)
}

impl View for Line {
    type V = LineView;

    open spec fn view(&self) -> LineView {
        LineView { spans: span_views(self.spans@), style: self.style }
    }
}

/// Views of lines.
pub open spec fn line_views(s: Seq<Line>) -> Seq<LineView> {
    s.map_values(|x: Line| x@)
}

/// A line of the given spans, without a style of its own.
pub open spec fn spans_line(spans: Seq<SpanView>) -> LineView {
    LineView { spans, style: theme::spec_plain() }
}

/// A line of one span.
pub open spec fn styled_line(content: Seq<char>, style: Style) -> LineView {
    spans_line(seq![SpanView { content, style }])
}

/// The line that shows nothing.
pub open spec fn empty_line() -> LineView {
    spans_line(Seq::empty())
}

/// The text of some spans, side by side.
pub open spec fn spans_text(spans: Seq<SpanView>) -> Seq<char>
    decreases spans.len(),
{
    if spans.len() == 0 {
        Seq::empty()
    } else {
        spans_text(spans.drop_last()) + spans.last().content
    }
}

/// The columns of some spans, side by side.
pub open spec fn spans_cols(spans: Seq<SpanView>) -> nat
    decreases spans.len(),
{
    if spans.len() == 0 {
        0
    } else {
        spans_cols(spans.drop_last()) + wrap::cols(spans.last().content)
    }
}

/// Appending a span appends its text and adds its columns.
pub proof fn lemma_spans_push(spans: Seq<SpanView>, s: SpanView)
    ensures
        spans_text(spans.push(s)) == spans_text(spans) + s.content,
        spans_cols(spans.push(s)) == spans_cols(spans) + wrap::cols(s.content),
{
    assert(spans.push(s).drop_last() =~= spans);
}

/// Spans in a row: texts join and columns add up.
pub proof fn lemma_spans_add(a: Seq<SpanView>, b: Seq<SpanView>)
    ensures
        spans_text(a + b) == spans_text(a) + spans_text(b),
        spans_cols(a + b) == spans_cols(a) + spans_cols(b),
    decreases b.len(),
{
    if b.len() == 0 {
        assert(a + b =~= a);
        assert(spans_text(a) + spans_text(b) =~= spans_text(a));
    } else {
        assert((a + b).drop_last() =~= a + b.drop_last());
        lemma_spans_add(a, b.drop_last());
        assert(spans_text(a + b) =~= spans_text(a) + spans_text(b));
    }
}

/// Pushing keeps the views in step.
pub broadcast proof fn lemma_span_views_push(v: Seq<Span>, x: Span)
    ensures
        #[trigger] span_views(v.push(x)) == span_views(v).push(x@),
{
    assert(span_views(v.push(x)) =~= span_views(v).push(x@));
}

/// Pushing keeps the views in step.
pub broadcast proof fn lemma_line_views_push(v: Seq<Line>, x: Line)
    ensures
        #[trigger] line_views(v.push(x)) == line_views(v).push(x@),
{
    assert(line_views(v.push(x)) =~= line_views(v).push(x@));
}

/// Concatenation keeps the views in step.
pub broadcast proof fn lemma_span_views_add(v: Seq<Span>, w: Seq<Span>)
    ensures
        #[trigger] span_views(v + w) == span_views(v) + span_views(w),
{
    assert(span_views(v + w) =~= span_views(v) + span_views(w));
}

/// Concatenation keeps the views in step.
pub broadcast proof fn lemma_line_views_add(v: Seq<Line>, w: Seq<Line>)
    ensures
        #[trigger] line_views(v + w) == line_views(v) + line_views(w),
{
    assert(line_views(v + w) =~= line_views(v) + line_views(w));
}

pub broadcast group group_views {
    lemma_span_views_push,
    lemma_line_views_push,
    lemma_span_views_add,
    lemma_line_views_add,
}

/// A span.
pub fn span(content: String, style: Style) -> (r: Span)
    ensures
        r@ == (SpanView { content: content@, style }),
{
    Span { content, style }
}

/// A line without a style of its own.
pub fn line(spans: Vec<Span>) -> (r: Line)
    ensures
        r@ == spans_line(span_views(spans@)),
        r.spans == spans,
{
    Line { spans, style: theme::plain() }
}

/// A line of one span.
pub fn line_of(content: String, style: Style) -> (r: Line)
    ensures
        r@ == styled_line(content@, style),
{
    let mut spans: Vec<Span> = Vec::new();
    spans.push(Span { content, style });
    assert(span_views(spans@) =~= seq![SpanView { content: content@, style }]);
    line(spans)
}

/// The line that shows nothing.
pub fn blank_line() -> (r: Line)
    ensures
        r@ == empty_line(),
{
    let spans: Vec<Span> = Vec::new();
    assert(span_views(spans@) =~= Seq::empty());
    line(spans)
}

/// `n` spaces, which are `n` columns wide.
pub fn spaces(n: usize) -> (r: String)
    ensures
        r@ == text::repeated(' ', n as nat),
        wrap::cols(r@) == n,
{
    let one: u128 = wrap::columns_of(' ');
    assert(one == 1);
    proof {
        lemma_cols_repeated(' ', n as nat);
    }
    let mut out = String::new();
    push_repeated(&mut out, ' ', n);
    assert(out@ =~= text::repeated(' ', n as nat));
    out
}

/// `n` copies of a character that takes one column are `n` columns wide.
pub proof fn lemma_cols_repeated(c: char, n: nat)
    requires
        wrap::col(c) == 1,
    ensures
        wrap::cols(text::repeated(c, n)) == n,
    decreases n,
{
    if n > 0 {
        lemma_cols_repeated(c, (n - 1) as nat);
        assert(text::repeated(c, n).drop_last() =~= text::repeated(c, (n - 1) as nat));
    }
}

/// The text of spans is that of one after the other.
pub proof fn law_spans_are_read_in_a_row(spans: Seq<SpanView>)
    ensures
        spans_text(spans) == spans.map_values(|s: SpanView| s.content).flatten(),
        spans_cols(spans) == wrap::cols(spans_text(spans)),
    decreases spans.len(),
{
    let content = |s: SpanView| s.content;
    if spans.len() > 0 {
        law_spans_are_read_in_a_row(spans.drop_last());
        let before = spans.drop_last().map_values(content);
        assert(spans.map_values(content) =~= before.push(spans.last().content));
        before.lemma_flatten_push(spans.last().content);
        wrap::lemma_cols_add(spans_text(spans.drop_last()), spans.last().content);
    } else {
        assert(spans.map_values(content) =~= Seq::empty());
    }
}

} // verus!
