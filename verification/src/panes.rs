//! The two panes of the transcript, row by row.
use vstd::prelude::*;

use crate::durations::nanos_text;
use crate::lines::{Line, LineView};
use crate::text::{chars_of, same_str};
use crate::theme::Style;
use crate::transcript::{Cell, CellView, OutcomeView, ToolOutcome, ToolView, Transcript};
use crate::wrap::wrap_chars;
use crate::{durations, lines, markdown, text, theme, transcript, wrap};

verus! {

/// How many lines of a tool result the preview shows.
pub const TOOL_PREVIEW_LINES: usize = 6;

// ---------------------------------------------------------------------------
// Bands
// ---------------------------------------------------------------------------

/// One horizontal band of the view: conversation cells on the left, the tool
/// calls they led to on the right, and the number of the band if it has
/// tools.
#[derive(Debug)]
pub struct Step {
    pub left: Vec<usize>,
    pub right: Vec<usize>,
    pub marker: Option<usize>,
}

/// One band.
pub struct StepView {
    pub left: Seq<int>,
    pub right: Seq<int>,
    pub marker: Option<int>,
}

/// Indices as mathematical numbers.
pub open spec fn ints(v: Seq<usize>) -> Seq<int> {
    v.map_values(|x: usize| x as int)
}

impl View for Step {
    type V = StepView;

    open spec fn view(&self) -> StepView {
        StepView {
            left: ints(self.left@),
            right: ints(self.right@),
            marker: match self.marker {
                Some(n) => Some(n as int),
                None => None,
            },
        }
    }
}

/// Views of bands.
pub open spec fn step_views(v: Seq<Step>) -> Seq<StepView> {
    v.map_values(|s: Step| s@)
}

/// The band without cells.
pub open spec fn no_step() -> StepView {
    StepView { left: Seq::empty(), right: Seq::empty(), marker: None }
}

/// Whether a cell starts a new band: every prompt does, and conversation
/// that follows tool calls.
pub open spec fn breaks_band(out: Seq<StepView>, cell: CellView) -> bool {
    out.len() == 0 || cell is User || (!(cell is Tool) && out.last().right.len() > 0)
}

/// The number of the last band with tools once a cell is there. A prompt
/// starts over.
pub open spec fn band_number(out: Seq<StepView>, number: int, cell: CellView) -> int {
    let n = if cell is User {
        0
    } else {
        number
    };
    if cell is Tool && (out.len() == 0 || out.last().right.len() == 0) {
        n + 1
    } else {
        n
    }
}

/// The bands once cell `i` has found its place.
pub open spec fn banded(out: Seq<StepView>, number: int, i: int, cell: CellView) -> Seq<StepView> {
    let base = if breaks_band(out, cell) {
        out.push(no_step())
    } else {
        out
    };
    let last = base.last();
    let placed = if cell is Tool {
        StepView {
            right: last.right.push(i),
            marker: if last.right.len() == 0 {
                Some(band_number(out, number, cell))
            } else {
                last.marker
            },
            ..last
        }
    } else {
        StepView { left: last.left.push(i), ..last }
    };
    base.drop_last().push(placed)
}

/// The bands of the cells from `i` on.
pub open spec fn steps_from(cells: Seq<CellView>, i: int, out: Seq<StepView>, number: int) -> Seq<
    StepView,
>
    decreases cells.len() - i,
{
    if i >= cells.len() {
        out
    } else {
        steps_from(
            cells,
            i + 1,
            banded(out, number, i, cells[i]),
            band_number(out, number, cells[i]),
        )
    }
}

/// The bands of a transcript.
pub open spec fn steps_of(cells: Seq<CellView>) -> Seq<StepView> {
    steps_from(cells, 0, Seq::empty(), 0)
}

/// Every index in the bands is one of `n` cells.
pub open spec fn steps_within(steps: Seq<Step>, n: nat) -> bool {
    forall|s: int, k: int|
        #![trigger steps[s].left@[k]]
        0 <= s < steps.len() && 0 <= k < steps[s].left@.len() ==> steps[s].left@[k] < n
}

/// The same for the right side.
pub open spec fn steps_within_right(steps: Seq<Step>, n: nat) -> bool {
    forall|s: int, k: int|
        #![trigger steps[s].right@[k]]
        0 <= s < steps.len() && 0 <= k < steps[s].right@.len() ==> steps[s].right@[k] < n
}

impl Transcript {
    /// Groups the cells into bands.
    pub fn steps(&self) -> (r: Vec<Step>)
        ensures
            step_views(r@) == steps_of(self@),
            steps_within(r@, self@.len()),
            steps_within_right(r@, self@.len()),
    {
        let mut out: Vec<Step> = Vec::new();
        let mut number: usize = 0;
        let mut i: usize = 0;
        assert(step_views(out@) =~= Seq::empty());
        while i < self.cells.len()
            invariant
                i <= self.cells@.len(),
                number <= i,
                steps_within(out@, self@.len()),
                steps_within_right(out@, self@.len()),
                steps_of(self@) == steps_from(self@, i as int, step_views(out@), number as int),
            decreases self.cells@.len() - i,
        {
            let ghost cell = self@[i as int];
            assert(cell == self.cells@[i as int]@);
            let ghost before = step_views(out@);
            let ghost number0 = number as int;
            let is_tool = matches!(&self.cells[i], Cell::Tool { .. });
            let is_user = matches!(&self.cells[i], Cell::User { .. });
            if is_user {
                number = 0;
            }
            let n: usize = out.len();
            assert(n > 0 ==> before.last() == out@.last()@);
            let break_band = n == 0 || is_user || (!is_tool && out[n - 1].right.len() > 0);
            if break_band {
                let ghost kept = out@;
                out.push(Step { left: Vec::new(), right: Vec::new(), marker: None });
                assert(out@.last()@ == no_step()) by {
                    assert(ints(out@.last().left@) =~= Seq::empty());
                    assert(ints(out@.last().right@) =~= Seq::empty());
                }
                assert(step_views(out@) =~= before.push(no_step()));
            }
            let ghost base = step_views(out@);
            let last: usize = out.len() - 1;
            assert(base.last() == out@[last as int]@);
            let ghost step0 = out@[last as int];
            if is_tool {
                if out[last].right.len() == 0 {
                    number = number + 1;
                    out[last].marker = Some(number);
                }
                out[last].right.push(i);
                assert(ints(out@[last as int].right@) =~= ints(step0.right@).push(i as int));
            } else {
                out[last].left.push(i);
                assert(ints(out@[last as int].left@) =~= ints(step0.left@).push(i as int));
            }
            assert(step_views(out@) =~= banded(before, number0, i as int, cell));
            i += 1;
        }
        out
    }
}

// ---------------------------------------------------------------------------
// Laws of the bands
// ---------------------------------------------------------------------------

/// The cells on the left of all bands, in order.
pub open spec fn lefts(steps: Seq<StepView>) -> Seq<int>
    decreases steps.len(),
{
    if steps.len() == 0 {
        Seq::empty()
    } else {
        lefts(steps.drop_last()) + steps.last().left
    }
}

/// The cells on the right of all bands, in order.
pub open spec fn rights(steps: Seq<StepView>) -> Seq<int>
    decreases steps.len(),
{
    if steps.len() == 0 {
        Seq::empty()
    } else {
        rights(steps.drop_last()) + steps.last().right
    }
}

/// Of the first `n` cells those that are, or are not, tool calls.
pub open spec fn indices_of(cells: Seq<CellView>, n: int, tools: bool) -> Seq<int>
    decreases n,
{
    if n <= 0 {
        Seq::empty()
    } else if (cells[n - 1] is Tool) == tools {
        indices_of(cells, n - 1, tools).push(n - 1)
    } else {
        indices_of(cells, n - 1, tools)
    }
}

/// A band has a number exactly when it has tools.
pub open spec fn numbered(steps: Seq<StepView>) -> bool {
    forall|k: int|
        0 <= k < steps.len() ==> ((#[trigger] steps[k]).marker is Some <==> steps[k].right.len()
            > 0)
}

proof fn lemma_banded(out: Seq<StepView>, number: int, i: int, cell: CellView)
    requires
        numbered(out),
    ensures
        lefts(banded(out, number, i, cell)) == if cell is Tool {
            lefts(out)
        } else {
            lefts(out).push(i)
        },
        rights(banded(out, number, i, cell)) == if cell is Tool {
            rights(out).push(i)
        } else {
            rights(out)
        },
        numbered(banded(out, number, i, cell)),
{
    let base = if breaks_band(out, cell) {
        out.push(no_step())
    } else {
        out
    };
    assert(out.push(no_step()).drop_last() =~= out);
    let after = banded(out, number, i, cell);
    assert(after.drop_last() =~= base.drop_last());
    assert(lefts(base) =~= lefts(out));
    assert(rights(base) =~= rights(out));
    assert(lefts(after) =~= if cell is Tool {
        lefts(base)
    } else {
        lefts(base).push(i)
    });
    assert(rights(after) =~= if cell is Tool {
        rights(base).push(i)
    } else {
        rights(base)
    });
    assert(numbered(base));
    assert forall|k: int| 0 <= k < after.len() implies ((#[trigger] after[k]).marker is Some
        <==> after[k].right.len() > 0) by {
        if k < after.len() - 1 {
            assert(after[k] == base[k]);
        } else {
            assert(base[k] == base.last());
        }
    }
}

proof fn lemma_steps_from(cells: Seq<CellView>, i: int, out: Seq<StepView>, number: int)
    requires
        0 <= i <= cells.len(),
        numbered(out),
        lefts(out) == indices_of(cells, i, false),
        rights(out) == indices_of(cells, i, true),
    ensures
        lefts(steps_from(cells, i, out, number)) == indices_of(cells, cells.len() as int, false),
        rights(steps_from(cells, i, out, number)) == indices_of(cells, cells.len() as int, true),
        numbered(steps_from(cells, i, out, number)),
    decreases cells.len() - i,
{
    if i < cells.len() {
        lemma_banded(out, number, i, cells[i]);
        lemma_steps_from(
            cells,
            i + 1,
            banded(out, number, i, cells[i]),
            band_number(out, number, cells[i]),
        );
    }
}

/// Every cell has exactly one place: the left sides of the bands hold the
/// conversation in order, the right sides the tool calls in order.
pub proof fn law_every_cell_has_one_place(cells: Seq<CellView>)
    ensures
        lefts(steps_of(cells)) == indices_of(cells, cells.len() as int, false),
        rights(steps_of(cells)) == indices_of(cells, cells.len() as int, true),
{
    assert(lefts(Seq::empty()) =~= indices_of(cells, 0, false));
    assert(rights(Seq::empty()) =~= indices_of(cells, 0, true));
    lemma_steps_from(cells, 0, Seq::empty(), 0);
}

/// A band carries a number exactly when there are tool calls in it.
pub proof fn law_bands_with_tools_are_numbered(cells: Seq<CellView>)
    ensures
        numbered(steps_of(cells)),
{
    assert(lefts(Seq::empty()) =~= indices_of(cells, 0, false));
    assert(rights(Seq::empty()) =~= indices_of(cells, 0, true));
    lemma_steps_from(cells, 0, Seq::empty(), 0);
}

/// The first tool call behind a prompt opens band number one, whatever came
/// before.
pub proof fn law_numbers_restart_at_a_prompt(out: Seq<StepView>, number: int, prompt: CellView, i: int, tool: CellView)
    requires
        prompt is User,
        tool is Tool,
    ensures
        ({
            let after = banded(out, number, i, prompt);
            band_number(after, band_number(out, number, prompt), tool) == 1
        }),
{
    let after = banded(out, number, i, prompt);
    assert(after.last().right.len() == 0);
}

// ---------------------------------------------------------------------------
// Lines of a cell
// ---------------------------------------------------------------------------

/// Some lines of text, wrapped, in one style.
pub open spec fn rows_of_parts(parts: Seq<Seq<char>>, width: int, style: Style) -> Seq<LineView>
    decreases parts.len(),
{
    if parts.len() == 0 {
        Seq::empty()
    } else {
        rows_of_parts(parts.drop_last(), width, style) + markdown::plain_rows(
            parts.last(),
            width,
            style,
        )
    }
}

/// A text, wrapped, in one style.
pub open spec fn text_lines(s: Seq<char>, width: int, style: Style) -> Seq<LineView> {
    rows_of_parts(text::split_on(s, '\n'), width, style)
}

/// Wraps a text and appends the lines, all in one style.
pub fn push_wrapped(out: &mut Vec<Line>, s: &str, width: usize, style: Style)
    ensures
        lines::line_views(final(out)@) == lines::line_views(old(out)@) + text_lines(
            s@,
            width as int,
            style,
        ),
{
    broadcast use lines::group_views;

    let chars = chars_of(s);
    let parts = text::split_chars(&chars, '\n');
    let ghost ps = text::views(parts@);
    let ghost start = lines::line_views(out@);
    let mut i: usize = 0;
    assert(ps.take(0) =~= Seq::empty());
    assert(start + rows_of_parts(ps.take(0), width as int, style) =~= start);
    while i < parts.len()
        invariant
            i <= parts@.len(),
            ps == text::views(parts@),
            lines::line_views(out@) == start + rows_of_parts(
                ps.take(i as int),
                width as int,
                style,
            ),
        decreases parts@.len() - i,
    {
        let rows = wrap_chars(&parts[i], width);
        let ghost before = lines::line_views(out@);
        let ghost shown = markdown::plain_rows(ps[i as int], width as int, style);
        proof {
            assert(ps[i as int] == parts@[i as int]@);
            assert(ps.take(i + 1).drop_last() =~= ps.take(i as int));
            assert(before + shown.take(0) =~= before);
        }
        let mut k: usize = 0;
        while k < rows.len()
            invariant
                k <= rows@.len(),
                wrap::rows_view(rows@) == wrap::wrapped(ps[i as int], width as int),
                shown == markdown::plain_rows(ps[i as int], width as int, style),
                lines::line_views(out@) == before + shown.take(k as int),
            decreases rows@.len() - k,
        {
            broadcast use lines::group_views;

            let l = lines::line_of(text::to_text(&rows[k]), style);
            proof {
                assert(wrap::rows_view(rows@)[k as int] == rows@[k as int]@);
                assert(l@ == shown[k as int]);
                assert(before + shown.take(k + 1) =~= (before + shown.take(k as int)).push(l@));
            }
            out.push(l);
            k += 1;
        }
        proof {
            assert(shown.take(k as int) =~= shown);
            assert(start + rows_of_parts(ps.take(i + 1), width as int, style) =~= before + shown);
        }
        i += 1;
    }
    assert(ps.take(i as int) =~= ps);
}

/// The lines of a conversation cell; a tool call has none here.
pub open spec fn conversation_view(cell: CellView, width: int) -> Seq<LineView> {
    match cell {
        CellView::User(t) => text_lines("> "@ + t, width, theme::task()),
        CellView::Assistant(t) => markdown::rendered(t, width, theme::assistant()),
        CellView::Answer(t) => markdown::rendered(t, width, theme::answer()),
        CellView::Thinking(t) => text_lines(t, width, theme::reasoning()),
        CellView::Error(t) => text_lines("error: "@ + t, width, theme::error()),
        CellView::Notice(t) => text_lines(t, width, theme::notice()),
        CellView::Usage(t) => text_lines(t, width, theme::detail()),
        CellView::Summary(t) => text_lines("[context summary]"@, width, theme::notice())
            + markdown::rendered(t, width, theme::reasoning()),
        CellView::Tool(_) => Seq::empty(),
    }
}

/// Renders a conversation cell.
pub fn conversation_lines(cell: &Cell, width: usize) -> (r: Vec<Line>)
    ensures
        lines::line_views(r@) == conversation_view(cell@, width as int),
{
    let mut out: Vec<Line> = Vec::new();
    assert(lines::line_views(out@) =~= Seq::empty());
    match cell {
        Cell::User { text } => {
            push_wrapped(&mut out, text::concat2("> ", text.as_str()).as_str(), width, theme::task());
        },
        Cell::Assistant { text } => {
            return markdown::render(text.as_str(), width, theme::assistant());
        },
        Cell::Answer { text } => {
            return markdown::render(text.as_str(), width, theme::answer());
        },
        Cell::Thinking { text } => {
            push_wrapped(&mut out, text.as_str(), width, theme::reasoning());
        },
        Cell::Error { text } => {
            push_wrapped(
                &mut out,
                text::concat2("error: ", text.as_str()).as_str(),
                width,
                theme::error(),
            );
        },
        Cell::Notice { text } => {
            push_wrapped(&mut out, text.as_str(), width, theme::notice());
        },
        Cell::Usage { text } => {
            push_wrapped(&mut out, text.as_str(), width, theme::detail());
        },
        Cell::Summary { text } => {
            push_wrapped(&mut out, "[context summary]", width, theme::notice());
            let mut body = markdown::render(text.as_str(), width, theme::reasoning());
            proof {
                lines::lemma_line_views_add(out@, body@);
            }
            out.append(&mut body);
        },
        Cell::Tool { .. } => {},
    }
    assert(lines::line_views(out@) =~= conversation_view(cell@, width as int));
    out
}

/// Whether the output of a tool is read from its end: only that of the shell
/// is.
pub open spec fn tail_first(name: Seq<char>) -> bool {
    name == "bash"@
}

/// Whether a tool's output is read from its end.
pub fn previews_the_tail(tool_name: &str) -> (r: bool)
    ensures
        r == tail_first(tool_name@),
{
    same_str(tool_name, "bash")
}

/// Each line between `before` and `after`, wrapped.
pub open spec fn framed_lines(
    parts: Seq<Seq<char>>,
    before: Seq<char>,
    after: Seq<char>,
    width: int,
    style: Style,
) -> Seq<LineView>
    decreases parts.len(),
{
    if parts.len() == 0 {
        Seq::empty()
    } else {
        framed_lines(parts.drop_last(), before, after, width, style) + text_lines(
            before + parts.last() + after,
            width,
            style,
        )
    }
}

/// Appends lines `from` to `to`, each between `before` and `after`.
fn push_framed(
    out: &mut Vec<Line>,
    parts: &Vec<Vec<char>>,
    from: usize,
    to: usize,
    before: &str,
    after: &str,
    width: usize,
    style: Style,
)
    requires
        from <= to <= parts@.len(),
    ensures
        lines::line_views(final(out)@) == lines::line_views(old(out)@) + framed_lines(
            text::views(parts@).subrange(from as int, to as int),
            before@,
            after@,
            width as int,
            style,
        ),
{
    let ghost start = lines::line_views(out@);
    let ghost ps = text::views(parts@);
    let mut i: usize = from;
    assert(ps.subrange(from as int, from as int) =~= Seq::empty());
    assert(start + framed_lines(
        ps.subrange(from as int, from as int),
        before@,
        after@,
        width as int,
        style,
    ) =~= start);
    while i < to
        invariant
            from <= i <= to <= parts@.len(),
            ps == text::views(parts@),
            lines::line_views(out@) == start + framed_lines(
                ps.subrange(from as int, i as int),
                before@,
                after@,
                width as int,
                style,
            ),
        decreases to - i,
    {
        let part = text::to_text(&parts[i]);
        let s = text::concat3(before, part.as_str(), after);
        let ghost mid = lines::line_views(out@);
        push_wrapped(out, s.as_str(), width, style);
        proof {
            let now = ps.subrange(from as int, i + 1);
            assert(now.drop_last() =~= ps.subrange(from as int, i as int));
            assert(now.last() == parts@[i as int]@);
            assert(start + framed_lines(now, before@, after@, width as int, style) =~= mid
                + text_lines(s@, width as int, style));
        }
        i += 1;
    }
}

/// How many lines the preview leaves out.
pub open spec fn hidden_lines(n: nat) -> int {
    if n > TOOL_PREVIEW_LINES {
        n - TOOL_PREVIEW_LINES
    } else {
        0
    }
}

/// The style of a diff line, by its first character.
pub open spec fn diff_style(line: Seq<char>) -> Style {
    if line.len() > 0 && line[0] == '+' {
        theme::diff_add()
    } else if line.len() > 0 && line[0] == '-' {
        theme::diff_del()
    } else {
        theme::diff_ctx()
    }
}

/// The lines of a diff.
pub open spec fn diff_lines(parts: Seq<Seq<char>>, width: int) -> Seq<LineView>
    decreases parts.len(),
{
    if parts.len() == 0 {
        Seq::empty()
    } else {
        diff_lines(parts.drop_last(), width) + text_lines(
            "  "@ + parts.last(),
            width,
            diff_style(parts.last()),
        )
    }
}

/// Appends a diff, each line in the style of its marker.
pub fn push_diff(out: &mut Vec<Line>, diff: &str, width: usize)
    ensures
        lines::line_views(final(out)@) == lines::line_views(old(out)@) + diff_lines(
            text::lines_of(diff@),
            width as int,
        ),
{
    let chars = chars_of(diff);
    let parts = text::split_lines(&chars);
    let ghost ps = text::views(parts@);
    let ghost start = lines::line_views(out@);
    let mut i: usize = 0;
    assert(ps.take(0) =~= Seq::empty());
    assert(start + diff_lines(ps.take(0), width as int) =~= start);
    while i < parts.len()
        invariant
            i <= parts@.len(),
            ps == text::views(parts@),
            lines::line_views(out@) == start + diff_lines(ps.take(i as int), width as int),
        decreases parts@.len() - i,
    {
        let part = &parts[i];
        let style = if part.len() > 0 && part[0] == '+' {
            theme::diff_add()
        } else if part.len() > 0 && part[0] == '-' {
            theme::diff_del()
        } else {
            theme::diff_ctx()
        };
        let shown = text::to_text(part);
        let s = text::concat2("  ", shown.as_str());
        let ghost mid = lines::line_views(out@);
        push_wrapped(out, s.as_str(), width, style);
        proof {
            let now = ps.take(i + 1);
            assert(now.drop_last() =~= ps.take(i as int));
            assert(now.last() == part@);
            assert(start + diff_lines(now, width as int) =~= mid + text_lines(
                s@,
                width as int,
                style,
            ));
        }
        i += 1;
    }
    assert(ps.take(i as int) =~= ps);
}

/// The lines of a result: all of them when there are few or the cell is
/// expanded; else the last ones of a shell, the first ones of anything else,
/// and a line that says how many are left out.
pub open spec fn result_lines(t: ToolView, outcome: OutcomeView, width: int) -> Seq<LineView> {
    let style = if outcome.is_error {
        theme::error()
    } else {
        theme::detail()
    };
    let parts = text::lines_of(outcome.text);
    let n = parts.len();
    let hidden = hidden_lines(n);
    if t.expanded || hidden == 0 {
        framed_lines(parts.subrange(0, n as int), " "@, " "@, width, style)
    } else if tail_first(t.name) {
        text_lines(
            "  ... ("@ + text::decimal(hidden as nat) + " earlier lines, ctrl+t to expand)"@,
            width,
            theme::detail(),
        ) + framed_lines(parts.subrange(hidden, n as int), "  "@, ""@, width, style)
    } else {
        framed_lines(
            parts.subrange(0, TOOL_PREVIEW_LINES as int),
            "  "@,
            ""@,
            width,
            style,
        ) + text_lines(
            "  ... ("@ + text::decimal(hidden as nat) + " more lines, ctrl+t to expand)"@,
            width,
            theme::detail(),
        )
    }
}

/// The lines of a call that is still running: the end of its progress, and
/// its clock.
pub open spec fn running_lines(t: ToolView, width: int, now: u64) -> Seq<LineView> {
    let live = match t.live {
        Some(s) => {
            let parts = text::lines_of(s);
            framed_lines(
                parts.subrange(hidden_lines(parts.len()), parts.len() as int),
                "  "@,
                ""@,
                width,
                theme::detail(),
            )
        },
        None => Seq::empty(),
    };
    let waiting = match t.started_at {
        Some(s) => "  ... running "@ + durations::of_nanos(transcript::elapsed(s, now)),
        None => "  ..."@,
    };
    live + text_lines(waiting, width, theme::detail())
}

/// The lines of a tool call: its header, then what came of it. A diff stands
/// for the result text; a shell call also shows what it took.
pub open spec fn tool_view(t: ToolView, width: int, now: u64) -> Seq<LineView> {
    text_lines(t.call, width, theme::tool_header()) + match t.result {
        None => running_lines(t, width, now),
        Some(outcome) => match outcome.diff {
            Some(diff) => diff_lines(text::lines_of(diff), width),
            None => result_lines(t, outcome, width) + match outcome.took {
                Some(took) => if tail_first(t.name) {
                    text_lines("  took "@ + durations::of_nanos(took), width, theme::detail())
                } else {
                    Seq::empty()
                },
                None => Seq::empty(),
            },
        },
    }
}

/// Appends the result of a call.
fn push_result(out: &mut Vec<Line>, name: &str, expanded: bool, outcome: &ToolOutcome, width: usize)
    ensures
        forall|t: ToolView|
            #![trigger result_lines(t, outcome@, width as int)]
            t.name == name@ && t.expanded == expanded ==> lines::line_views(final(out)@)
                == lines::line_views(old(out)@) + result_lines(t, outcome@, width as int),
{
    let ghost start = lines::line_views(out@);
    let style = if outcome.is_error {
        theme::error()
    } else {
        theme::detail()
    };
    let chars = chars_of(outcome.text.as_str());
    let parts = text::split_lines(&chars);
    let n: usize = parts.len();
    assert(text::views(parts@).len() == n);
    let hidden: usize = if n > TOOL_PREVIEW_LINES {
        n - TOOL_PREVIEW_LINES
    } else {
        0
    };
    if expanded || hidden == 0 {
        push_framed(out, &parts, 0, n, " ", " ", width, style);
    } else if previews_the_tail(name) {
        let count = text::decimal_text(hidden as u64);
        let s = text::concat3("  ... (", count.as_str(), " earlier lines, ctrl+t to expand)");
        push_wrapped(out, s.as_str(), width, theme::detail());
        let ghost mid = text_lines(s@, width as int, theme::detail());
        push_framed(out, &parts, hidden, n, "  ", "", width, style);
        assert(lines::line_views(out@) =~= start + (mid + framed_lines(
            text::views(parts@).subrange(hidden as int, n as int),
            "  "@,
            ""@,
            width as int,
            style,
        )));
    } else {
        push_framed(out, &parts, 0, TOOL_PREVIEW_LINES, "  ", "", width, style);
        let ghost mid = framed_lines(
            text::views(parts@).subrange(0, TOOL_PREVIEW_LINES as int),
            "  "@,
            ""@,
            width as int,
            style,
        );
        let count = text::decimal_text(hidden as u64);
        let s = text::concat3("  ... (", count.as_str(), " more lines, ctrl+t to expand)");
        push_wrapped(out, s.as_str(), width, theme::detail());
        assert(lines::line_views(out@) =~= start + (mid + text_lines(
            s@,
            width as int,
            theme::detail(),
        )));
    }
}

/// Appends what a running call shows.
fn push_running(
    out: &mut Vec<Line>,
    started_at: Option<u64>,
    live: &Option<String>,
    width: usize,
    now: u64,
)
    ensures
        forall|t: ToolView|
            #![trigger running_lines(t, width as int, now)]
            t.started_at == started_at && t.live == transcript::opt_text(*live)
                ==> lines::line_views(final(out)@) == lines::line_views(old(out)@) + running_lines(
                t,
                width as int,
                now,
            ),
{
    let ghost start = lines::line_views(out@);
    let ghost mut shown: Seq<LineView> = Seq::empty();
    if let Some(s) = live {
        let chars = chars_of(s.as_str());
        let parts = text::split_lines(&chars);
        let n: usize = parts.len();
        assert(text::views(parts@).len() == n);
        let hidden: usize = if n > TOOL_PREVIEW_LINES {
            n - TOOL_PREVIEW_LINES
        } else {
            0
        };
        push_framed(out, &parts, hidden, n, "  ", "", width, theme::detail());
        proof {
            shown = framed_lines(
                text::lines_of(s@).subrange(hidden as int, n as int),
                "  "@,
                ""@,
                width as int,
                theme::detail(),
            );
        }
    }
    assert(lines::line_views(out@) =~= start + shown);
    let waiting = match started_at {
        Some(s) => {
            let took = nanos_text(
                if now >= s {
                    now - s
                } else {
                    0
                },
            );
            text::concat2("  ... running ", took.as_str())
        },
        None => "  ...".to_owned(),
    };
    push_wrapped(out, waiting.as_str(), width, theme::detail());
    assert(lines::line_views(out@) =~= start + (shown + text_lines(
        waiting@,
        width as int,
        theme::detail(),
    )));
}

/// Renders a tool cell; any other cell has no lines here.
pub fn tool_lines(cell: &Cell, width: usize, now: u64) -> (r: Vec<Line>)
    ensures
        lines::line_views(r@) == match cell@ {
            CellView::Tool(t) => tool_view(t, width as int, now),
            _ => Seq::empty(),
        },
{
    let mut out: Vec<Line> = Vec::new();
    assert(lines::line_views(out@) =~= Seq::empty());
    if let Cell::Tool { name, call, expanded, started_at, live, result, .. } = cell {
        let ghost t = cell@->Tool_0;
        push_wrapped(&mut out, call.as_str(), width, theme::tool_header());
        let ghost head = text_lines(t.call, width as int, theme::tool_header());
        assert(lines::line_views(out@) =~= head);
        match result {
            None => {
                push_running(&mut out, *started_at, live, width, now);
                assert(lines::line_views(out@) == head + running_lines(t, width as int, now));
            },
            Some(outcome) => {
                match &outcome.diff {
                    Some(diff) => {
                        push_diff(&mut out, diff.as_str(), width);
                    },
                    None => {
                        push_result(&mut out, name.as_str(), *expanded, outcome, width);
                        let ghost body = result_lines(t, outcome@, width as int);
                        assert(lines::line_views(out@) == head + body);
                        if let Some(took) = outcome.took {
                            if previews_the_tail(name.as_str()) {
                                let secs = nanos_text(took);
                                let s = text::concat2("  took ", secs.as_str());
                                push_wrapped(&mut out, s.as_str(), width, theme::detail());
                            }
                        }
                        assert(lines::line_views(out@) =~= tool_view(t, width as int, now));
                    },
                }
            },
        }
    }
    out
}

// ---------------------------------------------------------------------------
// The panes
// ---------------------------------------------------------------------------

/// The two aligned panes, and for each row the cell that it shows.
#[derive(Debug)]
pub struct Columns {
    pub left: Vec<Line>,
    pub right: Vec<Line>,
    pub cell_at: Vec<Option<usize>>,
    pub tool_at: Vec<Option<usize>>,
}

/// One pane: its rows, and the cell of each row.
pub struct PaneView {
    pub rows: Seq<LineView>,
    pub at: Seq<Option<int>>,
}

/// The two panes.
pub struct ColumnsView {
    pub left: PaneView,
    pub right: PaneView,
}

/// The index in an entry, as a mathematical number.
pub open spec fn opt_int(o: Option<usize>) -> Option<int> {
    match o {
        Some(n) => Some(n as int),
        None => None,
    }
}

/// Entries as mathematical numbers.
pub open spec fn opt_ints(v: Seq<Option<usize>>) -> Seq<Option<int>> {
    v.map_values(|o: Option<usize>| opt_int(o))
}

impl View for Columns {
    type V = ColumnsView;

    open spec fn view(&self) -> ColumnsView {
        ColumnsView {
            left: PaneView { rows: lines::line_views(self.left@), at: opt_ints(self.cell_at@) },
            right: PaneView { rows: lines::line_views(self.right@), at: opt_ints(self.tool_at@) },
        }
    }
}

/// The pane without rows.
pub open spec fn no_rows() -> PaneView {
    PaneView { rows: Seq::empty(), at: Seq::empty() }
}

/// A pane with one more row that belongs to no cell.
pub open spec fn with_row(p: PaneView, row: LineView) -> PaneView {
    PaneView { rows: p.rows.push(row), at: p.at.push(None) }
}

/// A pane with the rows of a cell at its end.
pub open spec fn with_cell(p: PaneView, rows: Seq<LineView>, index: int) -> PaneView {
    PaneView {
        rows: p.rows + rows,
        at: p.at + Seq::new(rows.len(), |i: int| Some(index)),
    }
}

/// A pane with blank rows up to `n`.
pub open spec fn padded(p: PaneView, n: nat) -> PaneView
    decreases n - p.rows.len(),
{
    if p.rows.len() >= n {
        p
    } else {
        padded(with_row(p, lines::empty_line()), n)
    }
}

/// Two panes in a row.
pub open spec fn stacked(a: PaneView, b: PaneView) -> PaneView {
    PaneView { rows: a.rows + b.rows, at: a.at + b.at }
}

/// What the panes are drawn for.
pub struct Canvas {
    pub left_width: int,
    pub right_width: int,
    pub selected: Option<int>,
    pub now: u64,
}

/// The rows of a cell, tinted if it is the selected one.
pub open spec fn tinted(rows: Seq<LineView>, selected: bool) -> Seq<LineView> {
    if selected {
        rows.map_values(
            |l: LineView| LineView { style: l.style.patch(theme::selected()), ..l },
        )
    } else {
        rows
    }
}

/// The left side of a band: its first `n` cells with a blank row between
/// each two.
pub open spec fn left_side(cells: Seq<CellView>, indices: Seq<int>, n: int, c: Canvas) -> PaneView
    decreases n,
{
    if n <= 0 {
        no_rows()
    } else {
        let before = left_side(cells, indices, n - 1, c);
        let index = indices[n - 1];
        let spaced = if n > 1 {
            with_row(before, lines::empty_line())
        } else {
            before
        };
        with_cell(
            spaced,
            tinted(
                conversation_view(cells[index], c.left_width),
                c.selected == Some(index),
            ),
            index,
        )
    }
}

/// The lines of a cell in the right pane.
pub open spec fn tool_rows(cell: CellView, c: Canvas) -> Seq<LineView> {
    match cell {
        CellView::Tool(t) => tool_view(t, c.right_width, c.now),
        _ => Seq::empty(),
    }
}

/// The right side of a band.
pub open spec fn right_side(cells: Seq<CellView>, indices: Seq<int>, n: int, c: Canvas) -> PaneView
    decreases n,
{
    if n <= 0 {
        no_rows()
    } else {
        let before = right_side(cells, indices, n - 1, c);
        let index = indices[n - 1];
        let spaced = if n > 1 {
            with_row(before, lines::empty_line())
        } else {
            before
        };
        with_cell(spaced, tool_rows(cells[index], c), index)
    }
}

/// The rule that opens a band with tools.
pub open spec fn rule_view(number: int, width: int) -> LineView {
    let label = "─ "@ + text::decimal(number as nat) + " "@;
    let fill = if width > label.len() {
        width - label.len()
    } else {
        0
    };
    lines::styled_line(label + text::repeated('─', fill as nat), theme::step_rule())
}

/// Both panes with one band at their end: a blank row in front unless it is
/// the first, the same rule on the same row on both sides, then the two
/// sides, the shorter one padded.
pub open spec fn with_band(
    cols: ColumnsView,
    cells: Seq<CellView>,
    step: StepView,
    c: Canvas,
) -> ColumnsView {
    let spaced = if cols.left.rows.len() > 0 {
        ColumnsView {
            left: with_row(cols.left, lines::empty_line()),
            right: with_row(cols.right, lines::empty_line()),
        }
    } else {
        cols
    };
    let ruled = match step.marker {
        Some(number) => ColumnsView {
            left: with_row(spaced.left, rule_view(number, c.left_width)),
            right: with_row(spaced.right, rule_view(number, c.right_width)),
        },
        None => spaced,
    };
    let l = left_side(cells, step.left, step.left.len() as int, c);
    let r = right_side(cells, step.right, step.right.len() as int, c);
    ColumnsView {
        left: stacked(ruled.left, padded(l, r.rows.len())),
        right: stacked(ruled.right, padded(r, l.rows.len())),
    }
}

/// Both panes with the first `n` bands.
pub open spec fn columns_of(cells: Seq<CellView>, steps: Seq<StepView>, n: int, c: Canvas) -> ColumnsView
    decreases n,
{
    if n <= 0 {
        ColumnsView { left: no_rows(), right: no_rows() }
    } else {
        with_band(columns_of(cells, steps, n - 1, c), cells, steps[n - 1], c)
    }
}

/// The rows of a pane and their cells are in step.
pub open spec fn in_step(p: PaneView) -> bool {
    p.rows.len() == p.at.len()
}

proof fn lemma_padded(p: PaneView, n: nat)
    requires
        in_step(p),
    ensures
        in_step(padded(p, n)),
        padded(p, n).rows.len() == if p.rows.len() >= n {
            p.rows.len()
        } else {
            n
        },
    decreases n - p.rows.len(),
{
    if p.rows.len() < n {
        lemma_padded(with_row(p, lines::empty_line()), n);
    }
}

proof fn lemma_sides_in_step(cells: Seq<CellView>, indices: Seq<int>, n: int, c: Canvas)
    ensures
        in_step(left_side(cells, indices, n, c)),
        in_step(right_side(cells, indices, n, c)),
    decreases n,
{
    if n > 0 {
        lemma_sides_in_step(cells, indices, n - 1, c);
    }
}

/// One shared window can slice both panes: they have the same height, and
/// the cell of every row is known.
pub proof fn law_panes_have_the_same_height(
    cells: Seq<CellView>,
    steps: Seq<StepView>,
    n: int,
    c: Canvas,
)
    ensures
        in_step(columns_of(cells, steps, n, c).left),
        in_step(columns_of(cells, steps, n, c).right),
        columns_of(cells, steps, n, c).left.rows.len() == columns_of(
            cells,
            steps,
            n,
            c,
        ).right.rows.len(),
    decreases n,
{
    if n > 0 {
        law_panes_have_the_same_height(cells, steps, n - 1, c);
        let step = steps[n - 1];
        let l = left_side(cells, step.left, step.left.len() as int, c);
        let r = right_side(cells, step.right, step.right.len() as int, c);
        lemma_sides_in_step(cells, step.left, step.left.len() as int, c);
        lemma_sides_in_step(cells, step.right, step.right.len() as int, c);
        lemma_padded(l, r.rows.len());
        lemma_padded(r, l.rows.len());
    }
}

/// Whether some row of a pane belongs to a cell.
pub open spec fn shows(p: PaneView, index: int) -> bool {
    p.at.contains(Some(index))
}

proof fn lemma_some_lines(s: Seq<char>, width: int, style: Style)
    ensures
        text_lines(s, width, style).len() > 0,
{
    text::lemma_split_on(s, '\n');
}

proof fn lemma_cell_lines(cell: CellView, c: Canvas)
    ensures
        !(cell is Tool) ==> conversation_view(cell, c.left_width).len() > 0,
        cell is Tool ==> tool_rows(cell, c).len() > 0,
{
    match cell {
        CellView::User(t) => lemma_some_lines("> "@ + t, c.left_width, theme::task()),
        CellView::Thinking(t) => lemma_some_lines(t, c.left_width, theme::reasoning()),
        CellView::Error(t) => lemma_some_lines("error: "@ + t, c.left_width, theme::error()),
        CellView::Notice(t) => lemma_some_lines(t, c.left_width, theme::notice()),
        CellView::Usage(t) => lemma_some_lines(t, c.left_width, theme::detail()),
        CellView::Tool(t) => lemma_some_lines(t.call, c.right_width, theme::tool_header()),
        _ => {},
    }
}

proof fn lemma_shows_added(a: Seq<Option<int>>, b: Seq<Option<int>>, index: int)
    ensures
        a.contains(Some(index)) || b.contains(Some(index)) ==> (a + b).contains(Some(index)),
{
    if a.contains(Some(index)) {
        let k = choose|k: int| 0 <= k < a.len() && a[k] == Some(index);
        assert((a + b)[k] == Some(index));
    } else if b.contains(Some(index)) {
        let k = choose|k: int| 0 <= k < b.len() && b[k] == Some(index);
        assert((a + b)[a.len() + k] == Some(index));
    }
}

proof fn lemma_shows_row(p: PaneView, row: LineView, index: int)
    ensures
        shows(p, index) ==> shows(with_row(p, row), index),
{
    lemma_shows_added(p.at, seq![None], index);
    assert(p.at.push(None) =~= p.at + seq![None]);
}

proof fn lemma_shows_cell(p: PaneView, rows: Seq<LineView>, cell: int, index: int)
    ensures
        shows(p, index) ==> shows(with_cell(p, rows, cell), index),
        rows.len() > 0 ==> shows(with_cell(p, rows, cell), cell),
{
    let more = Seq::new(rows.len(), |i: int| Some(cell));
    lemma_shows_added(p.at, more, index);
    lemma_shows_added(p.at, more, cell);
    if rows.len() > 0 {
        assert(more[0] == Some(cell));
    }
}

proof fn lemma_shows_padded(p: PaneView, n: nat, index: int)
    ensures
        shows(p, index) ==> shows(padded(p, n), index),
    decreases n - p.rows.len(),
{
    if p.rows.len() < n {
        lemma_shows_row(p, lines::empty_line(), index);
        lemma_shows_padded(with_row(p, lines::empty_line()), n, index);
    }
}

proof fn lemma_sides_show(cells: Seq<CellView>, indices: Seq<int>, n: int, k: int, c: Canvas)
    requires
        0 <= k < n <= indices.len(),
    ensures
        !(cells[indices[k]] is Tool) ==> shows(left_side(cells, indices, n, c), indices[k]),
        cells[indices[k]] is Tool ==> shows(right_side(cells, indices, n, c), indices[k]),
    decreases n,
{
    let index = indices[k];
    let last = indices[n - 1];
    let l = left_side(cells, indices, n - 1, c);
    let r = right_side(cells, indices, n - 1, c);
    lemma_cell_lines(cells[last], c);
    lemma_shows_row(l, lines::empty_line(), index);
    lemma_shows_row(r, lines::empty_line(), index);
    let blank_l = if n > 1 {
        with_row(l, lines::empty_line())
    } else {
        l
    };
    let blank_r = if n > 1 {
        with_row(r, lines::empty_line())
    } else {
        r
    };
    let rows = tinted(
        conversation_view(cells[last], c.left_width),
        c.selected == Some(last),
    );
    lemma_shows_cell(blank_l, rows, last, index);
    lemma_shows_cell(blank_r, tool_rows(cells[last], c), last, index);
    if k < n - 1 {
        lemma_sides_show(cells, indices, n - 1, k, c);
    }
}

proof fn lemma_band_shows(
    cols: ColumnsView,
    cells: Seq<CellView>,
    step: StepView,
    c: Canvas,
    index: int,
)
    ensures
        shows(cols.left, index) || (step.left.contains(index) && !(cells[index] is Tool))
            ==> shows(with_band(cols, cells, step, c).left, index),
        shows(cols.right, index) || (step.right.contains(index) && cells[index] is Tool) ==> shows(
            with_band(cols, cells, step, c).right,
            index,
        ),
{
    let spaced = if cols.left.rows.len() > 0 {
        ColumnsView {
            left: with_row(cols.left, lines::empty_line()),
            right: with_row(cols.right, lines::empty_line()),
        }
    } else {
        cols
    };
    lemma_shows_row(cols.left, lines::empty_line(), index);
    lemma_shows_row(cols.right, lines::empty_line(), index);
    let ruled = match step.marker {
        Some(number) => {
            lemma_shows_row(spaced.left, rule_view(number, c.left_width), index);
            lemma_shows_row(spaced.right, rule_view(number, c.right_width), index);
            ColumnsView {
                left: with_row(spaced.left, rule_view(number, c.left_width)),
                right: with_row(spaced.right, rule_view(number, c.right_width)),
            }
        },
        None => spaced,
    };
    let l = left_side(cells, step.left, step.left.len() as int, c);
    let r = right_side(cells, step.right, step.right.len() as int, c);
    if step.left.contains(index) {
        let k = choose|k: int| 0 <= k < step.left.len() && step.left[k] == index;
        lemma_sides_show(cells, step.left, step.left.len() as int, k, c);
    }
    if step.right.contains(index) {
        let k = choose|k: int| 0 <= k < step.right.len() && step.right[k] == index;
        lemma_sides_show(cells, step.right, step.right.len() as int, k, c);
    }
    lemma_shows_padded(l, r.rows.len(), index);
    lemma_shows_padded(r, l.rows.len(), index);
    lemma_shows_added(ruled.left.at, padded(l, r.rows.len()).at, index);
    lemma_shows_added(ruled.right.at, padded(r, l.rows.len()).at, index);
}

proof fn lemma_columns_show(cells: Seq<CellView>, steps: Seq<StepView>, n: int, c: Canvas, index: int)
    requires
        0 <= n <= steps.len(),
    ensures
        lefts(steps.take(n)).contains(index) && !(cells[index] is Tool) ==> shows(
            columns_of(cells, steps, n, c).left,
            index,
        ),
        rights(steps.take(n)).contains(index) && cells[index] is Tool ==> shows(
            columns_of(cells, steps, n, c).right,
            index,
        ),
    decreases n,
{
    if n > 0 {
        lemma_columns_show(cells, steps, n - 1, c, index);
        lemma_band_shows(columns_of(cells, steps, n - 1, c), cells, steps[n - 1], c, index);
        let now = steps.take(n);
        assert(now.drop_last() =~= steps.take(n - 1));
        let a = lefts(steps.take(n - 1));
        let b = rights(steps.take(n - 1));
        let step = steps[n - 1];
        if lefts(now).contains(index) {
            let k = choose|k: int| 0 <= k < lefts(now).len() && lefts(now)[k] == index;
            if k < a.len() {
                assert(a[k] == index);
            } else {
                assert(step.left[k - a.len()] == index);
            }
        }
        if rights(now).contains(index) {
            let k = choose|k: int| 0 <= k < rights(now).len() && rights(now)[k] == index;
            if k < b.len() {
                assert(b[k] == index);
            } else {
                assert(step.right[k - b.len()] == index);
            }
        }
    }
}

proof fn lemma_index_listed(cells: Seq<CellView>, n: int, index: int)
    requires
        0 <= index < n <= cells.len(),
    ensures
        indices_of(cells, n, cells[index] is Tool).contains(index),
    decreases n,
{
    let tools = cells[index] is Tool;
    let v = indices_of(cells, n, tools);
    if index == n - 1 {
        assert(v[v.len() - 1] == index);
    } else {
        lemma_index_listed(cells, n - 1, index);
        let before = indices_of(cells, n - 1, tools);
        let k = choose|k: int| 0 <= k < before.len() && before[k] == index;
        assert(v[k] == index);
    }
}

/// Every cell can be seen and clicked, whatever it holds, be it nothing: it
/// has a row, a tool call in the right pane and any other cell in the left
/// one.
pub proof fn law_every_cell_has_a_row(cells: Seq<CellView>, index: int, c: Canvas)
    requires
        0 <= index < cells.len(),
    ensures
        ({
            let steps = steps_of(cells);
            let cols = columns_of(cells, steps, steps.len() as int, c);
            if cells[index] is Tool {
                shows(cols.right, index)
            } else {
                shows(cols.left, index)
            }
        }),
{
    let steps = steps_of(cells);
    law_every_cell_has_one_place(cells);
    lemma_index_listed(cells, cells.len() as int, index);
    assert(steps.take(steps.len() as int) =~= steps);
    lemma_columns_show(cells, steps, steps.len() as int, c, index);
}

/// A band rule.
pub fn band_rule(number: usize, width: usize) -> (r: Line)
    ensures
        r@ == rule_view(number as int, width as int),
{
    let count = text::decimal_text(number as u64);
    let label = text::concat3("─ ", count.as_str(), " ");
    let len: usize = chars_of(label.as_str()).len();
    let mut content = label;
    let fill: usize = if width > len {
        width - len
    } else {
        0
    };
    text::push_repeated(&mut content, '─', fill);
    lines::line_of(content, theme::step_rule())
}

/// One pane being filled.
struct Pane {
    rows: Vec<Line>,
    at: Vec<Option<usize>>,
}

impl View for Pane {
    type V = PaneView;

    closed spec fn view(&self) -> PaneView {
        PaneView { rows: lines::line_views(self.rows@), at: opt_ints(self.at@) }
    }
}

impl Pane {
    fn new() -> (r: Pane)
        ensures
            r@ == no_rows(),
    {
        let r = Pane { rows: Vec::new(), at: Vec::new() };
        assert(r@.rows =~= Seq::empty());
        assert(r@.at =~= Seq::empty());
        r
    }

    fn push_row(&mut self, row: Line)
        ensures
            final(self)@ == with_row(old(self)@, row@),
    {
        broadcast use lines::group_views;

        let ghost before = self.at@;
        self.rows.push(row);
        self.at.push(None);
        assert(opt_ints(self.at@) =~= opt_ints(before).push(None));
    }

    fn push_cell(&mut self, rows: Vec<Line>, index: usize)
        ensures
            final(self)@ == with_cell(old(self)@, lines::line_views(rows@), index as int),
    {
        broadcast use lines::group_views;

        let ghost before = self@;
        let n: usize = rows.len();
        let ghost shown = lines::line_views(rows@);
        let mut rest = rows;
        self.rows.append(&mut rest);
        let mut k: usize = 0;
        assert(self@.at =~= before.at + Seq::new(0, |i: int| Some(index as int)));
        while k < n
            invariant
                k <= n,
                self@.at == before.at + Seq::new(k as nat, |i: int| Some(index as int)),
                lines::line_views(self.rows@) == before.rows + shown,
            decreases n - k,
        {
            let ghost mid = self@.at;
            self.at.push(Some(index));
            k += 1;
            assert(self@.at =~= mid.push(Some(index as int)));
            assert(self@.at =~= before.at + Seq::new(k as nat, |i: int| Some(index as int)));
        }
    }

    fn pad(&mut self, n: usize)
        ensures
            final(self)@ == padded(old(self)@, n as nat),
    {
        let ghost before = self@;
        while self.rows.len() < n
            invariant
                padded(before, n as nat) == padded(self@, n as nat),
            decreases n - self.rows@.len(),
        {
            let ghost mid = self@;
            self.push_row(lines::blank_line());
            assert(mid.rows.len() < n);
        }
        assert(self@.rows.len() >= n);
    }

    fn stack(&mut self, other: Pane)
        ensures
            final(self)@ == stacked(old(self)@, other@),
    {
        broadcast use lines::group_views;

        let ghost at0 = self.at@;
        let ghost at1 = other.at@;
        let mut other = other;
        self.rows.append(&mut other.rows);
        self.at.append(&mut other.at);
        assert(opt_ints(self.at@) =~= opt_ints(at0) + opt_ints(at1));
    }
}

/// Tints the rows of the selected cell. The style of a row lies under its
/// spans, so that these keep their colors.
fn tint(rows: Vec<Line>) -> (r: Vec<Line>)
    ensures
        lines::line_views(r@) == tinted(lines::line_views(rows@), true),
{
    let ghost before = lines::line_views(rows@);
    let mut rows = rows;
    let mut i: usize = 0;
    while i < rows.len()
        invariant
            i <= rows@.len(),
            rows@.len() == before.len(),
            forall|k: int|
                0 <= k < i ==> (#[trigger] rows@[k])@ == (LineView {
                    style: before[k].style.patch(theme::selected()),
                    ..before[k]
                }),
            forall|k: int| i <= k < rows@.len() ==> (#[trigger] rows@[k])@ == before[k],
        decreases rows@.len() - i,
    {
        let style = rows[i].style.patch(theme::selected());
        rows[i].style = style;
        i += 1;
    }
    assert(lines::line_views(rows@) =~= tinted(before, true));
    rows
}

impl Transcript {
    fn left_pane(&self, indices: &Vec<usize>, width: usize, selected: Option<usize>) -> (r: Pane)
        requires
            forall|k: int| 0 <= k < indices@.len() ==> (#[trigger] indices@[k]) < self@.len(),
        ensures
            forall|c: Canvas|
                #![trigger left_side(self@, ints(indices@), indices@.len() as int, c)]
                c.left_width == width && c.selected == opt_int(selected) ==> r@ == left_side(
                    self@,
                    ints(indices@),
                    indices@.len() as int,
                    c,
                ),
    {
        let mut pane = Pane::new();
        let mut i: usize = 0;
        while i < indices.len()
            invariant
                i <= indices@.len(),
                forall|k: int| 0 <= k < indices@.len() ==> (#[trigger] indices@[k]) < self@.len(),
                forall|c: Canvas|
                    #![trigger left_side(self@, ints(indices@), i as int, c)]
                    c.left_width == width && c.selected == opt_int(selected) ==> pane@ == left_side(
                        self@,
                        ints(indices@),
                        i as int,
                        c,
                    ),
            decreases indices@.len() - i,
        {
            let ghost before = pane@;
            if i > 0 {
                pane.push_row(lines::blank_line());
            }
            let index: usize = indices[i];
            assert(ints(indices@)[i as int] == index);
            assert(self@[index as int] == self.cells@[index as int]@);
            let rows = conversation_lines(&self.cells[index], width);
            let is_selected = match selected {
                Some(s) => s == index,
                None => false,
            };
            let rows = if is_selected {
                tint(rows)
            } else {
                rows
            };
            pane.push_cell(rows, index);
            proof {
                assert forall|c: Canvas|
                    c.left_width == width && c.selected == opt_int(selected) implies pane@
                    == #[trigger] left_side(self@, ints(indices@), i + 1, c) by {
                    assert(before == left_side(self@, ints(indices@), i as int, c));
                }
            }
            i += 1;
        }
        pane
    }

    fn right_pane(&self, indices: &Vec<usize>, width: usize, now: u64) -> (r: Pane)
        requires
            forall|k: int| 0 <= k < indices@.len() ==> (#[trigger] indices@[k]) < self@.len(),
        ensures
            forall|c: Canvas|
                #![trigger right_side(self@, ints(indices@), indices@.len() as int, c)]
                c.right_width == width && c.now == now ==> r@ == right_side(
                    self@,
                    ints(indices@),
                    indices@.len() as int,
                    c,
                ),
    {
        let mut pane = Pane::new();
        let mut i: usize = 0;
        while i < indices.len()
            invariant
                i <= indices@.len(),
                forall|k: int| 0 <= k < indices@.len() ==> (#[trigger] indices@[k]) < self@.len(),
                forall|c: Canvas|
                    #![trigger right_side(self@, ints(indices@), i as int, c)]
                    c.right_width == width && c.now == now ==> pane@ == right_side(
                        self@,
                        ints(indices@),
                        i as int,
                        c,
                    ),
            decreases indices@.len() - i,
        {
            let ghost before = pane@;
            if i > 0 {
                pane.push_row(lines::blank_line());
            }
            let index: usize = indices[i];
            assert(ints(indices@)[i as int] == index);
            assert(self@[index as int] == self.cells@[index as int]@);
            let rows = tool_lines(&self.cells[index], width, now);
            pane.push_cell(rows, index);
            proof {
                assert forall|c: Canvas| c.right_width == width && c.now == now implies pane@
                    == #[trigger] right_side(self@, ints(indices@), i + 1, c) by {
                    assert(before == right_side(self@, ints(indices@), i as int, c));
                }
            }
            i += 1;
        }
        pane
    }

    /// Renders the two aligned panes. Neither is narrower than ten columns.
    /// The rows of the selected cell are tinted. Both panes have the same
    /// height.
    pub fn to_columns(
        &self,
        left_width: u16,
        right_width: u16,
        selected: Option<usize>,
        now: u64,
    ) -> (r: Columns)
        ensures
            r@ == columns_of(
                self@,
                steps_of(self@),
                steps_of(self@).len() as int,
                Canvas {
                    left_width: if left_width < 10 {
                        10
                    } else {
                        left_width as int
                    },
                    right_width: if right_width < 10 {
                        10
                    } else {
                        right_width as int
                    },
                    selected: opt_int(selected),
                    now,
                },
            ),
            r.left@.len() == r.right@.len(),
            r.left@.len() == r.cell_at@.len(),
            r.right@.len() == r.tool_at@.len(),
    {
        let lw: usize = if left_width < 10 {
            10
        } else {
            left_width as usize
        };
        let rw: usize = if right_width < 10 {
            10
        } else {
            right_width as usize
        };
        let ghost c = Canvas {
            left_width: lw as int,
            right_width: rw as int,
            selected: opt_int(selected),
            now,
        };
        let steps = self.steps();
        let mut left = Pane::new();
        let mut right = Pane::new();
        let mut i: usize = 0;
        while i < steps.len()
            invariant
                i <= steps@.len(),
                c == (Canvas {
                    left_width: lw as int,
                    right_width: rw as int,
                    selected: opt_int(selected),
                    now,
                }),
                step_views(steps@) == steps_of(self@),
                steps_within(steps@, self@.len()),
                steps_within_right(steps@, self@.len()),
                (ColumnsView { left: left@, right: right@ }) == columns_of(
                    self@,
                    steps_of(self@),
                    i as int,
                    c,
                ),
            decreases steps@.len() - i,
        {
            let ghost sv = steps_of(self@)[i as int];
            assert(sv == steps@[i as int]@);
            if left.rows.len() > 0 {
                left.push_row(lines::blank_line());
                right.push_row(lines::blank_line());
            }
            let step = &steps[i];
            if let Some(number) = step.marker {
                left.push_row(band_rule(number, lw));
                right.push_row(band_rule(number, rw));
            }
            assert forall|k: int| 0 <= k < step.left@.len() implies (#[trigger] step.left@[k])
                < self@.len() by {
                assert(steps@[i as int].left@[k] < self@.len());
            }
            assert forall|k: int| 0 <= k < step.right@.len() implies (#[trigger] step.right@[k])
                < self@.len() by {
                assert(steps@[i as int].right@[k] < self@.len());
            }
            let mut l = self.left_pane(&step.left, lw, selected);
            let mut r = self.right_pane(&step.right, rw, now);
            assert(l@ == left_side(self@, sv.left, sv.left.len() as int, c));
            assert(r@ == right_side(self@, sv.right, sv.right.len() as int, c));
            let lh: usize = l.rows.len();
            let rh: usize = r.rows.len();
            assert(lh == l@.rows.len() && rh == r@.rows.len());
            l.pad(rh);
            r.pad(lh);
            left.stack(l);
            right.stack(r);
            i += 1;
        }
        proof {
            law_panes_have_the_same_height(
                self@,
                steps_of(self@),
                steps_of(self@).len() as int,
                c,
            );
        }
        Columns { left: left.rows, right: right.rows, cell_at: left.at, tool_at: right.at }
    }
}

proof fn lemma_rows_of_parts(parts: Seq<Seq<char>>, width: int, style: Style)
    ensures
        rows_of_parts(parts, width, style) == parts.map_values(
            |p: Seq<char>| markdown::plain_rows(p, width, style),
        ).flatten(),
    decreases parts.len(),
{
    let draw = |p: Seq<char>| markdown::plain_rows(p, width, style);
    if parts.len() > 0 {
        lemma_rows_of_parts(parts.drop_last(), width, style);
        let before = parts.drop_last().map_values(draw);
        assert(parts.map_values(draw) =~= before.push(draw(parts.last())));
        before.lemma_flatten_push(draw(parts.last()));
    } else {
        assert(parts.map_values(draw) =~= Seq::empty());
    }
}

/// Every line of a text is drawn, one after the other and in one style.
pub proof fn law_every_line_is_drawn(s: Seq<char>, width: int, style: Style)
    ensures
        text_lines(s, width, style) == text::split_on(s, '\n').map_values(
            |p: Seq<char>| markdown::plain_rows(p, width, style),
        ).flatten(),
{
    lemma_rows_of_parts(text::split_on(s, '\n'), width, style);
}

/// Every line of what a tool gave is drawn, with the same around each.
pub proof fn law_every_line_is_framed(
    parts: Seq<Seq<char>>,
    before: Seq<char>,
    after: Seq<char>,
    width: int,
    style: Style,
)
    ensures
        framed_lines(parts, before, after, width, style) == parts.map_values(
            |p: Seq<char>| text_lines(before + p + after, width, style),
        ).flatten(),
    decreases parts.len(),
{
    let draw = |p: Seq<char>| text_lines(before + p + after, width, style);
    if parts.len() > 0 {
        law_every_line_is_framed(parts.drop_last(), before, after, width, style);
        let earlier = parts.drop_last().map_values(draw);
        assert(parts.map_values(draw) =~= earlier.push(draw(parts.last())));
        earlier.lemma_flatten_push(draw(parts.last()));
    } else {
        assert(parts.map_values(draw) =~= Seq::empty());
    }
}

/// Every line of a diff is drawn, the added ones, the removed ones and the
/// others each in a style of their own.
pub proof fn law_diffs_are_drawn_line_by_line(parts: Seq<Seq<char>>, width: int)
    ensures
        diff_lines(parts, width) == parts.map_values(
            |p: Seq<char>|
                text_lines(
                    "  "@ + p,
                    width,
                    if p.len() > 0 && p[0] == '+' {
                        theme::diff_add()
                    } else if p.len() > 0 && p[0] == '-' {
                        theme::diff_del()
                    } else {
                        theme::diff_ctx()
                    },
                ),
        ).flatten(),
    decreases parts.len(),
{
    let draw = |p: Seq<char>|
        text_lines(
            "  "@ + p,
            width,
            if p.len() > 0 && p[0] == '+' {
                theme::diff_add()
            } else if p.len() > 0 && p[0] == '-' {
                theme::diff_del()
            } else {
                theme::diff_ctx()
            },
        );
    if parts.len() > 0 {
        law_diffs_are_drawn_line_by_line(parts.drop_last(), width);
        let earlier = parts.drop_last().map_values(draw);
        assert(parts.map_values(draw) =~= earlier.push(draw(parts.last())));
        earlier.lemma_flatten_push(draw(parts.last()));
    } else {
        assert(parts.map_values(draw) =~= Seq::empty());
    }
}

/// Six lines of a result are shown until it is opened: the last ones of a
/// shell command, and the first ones of any other. The number that is left
/// out is told. A result that is opened, or is that short, is shown whole.
pub proof fn law_results_show_six_lines(
    t: ToolView,
    outcome: OutcomeView,
    width: int,
    lines: Seq<Seq<char>>,
)
    requires
        lines == text::lines_of(outcome.text),
    ensures
        ({
            let style = if outcome.is_error {
                theme::error()
            } else {
                theme::detail()
            };
            let n = lines.len() as int;
            let shown = result_lines(t, outcome, width);
            &&& t.expanded || n <= 6 ==> shown == framed_lines(lines, " "@, " "@, width, style)
            &&& !t.expanded && n > 6 && t.name == "bash"@ ==> shown == text_lines(
                "  ... ("@ + text::decimal((n - 6) as nat) + " earlier lines, ctrl+t to expand)"@,
                width,
                theme::detail(),
            ) + framed_lines(lines.skip(n - 6), "  "@, ""@, width, style)
            &&& !t.expanded && n > 6 && t.name != "bash"@ ==> shown == framed_lines(
                lines.take(6),
                "  "@,
                ""@,
                width,
                style,
            ) + text_lines(
                "  ... ("@ + text::decimal((n - 6) as nat) + " more lines, ctrl+t to expand)"@,
                width,
                theme::detail(),
            )
        }),
{
    let n = lines.len() as int;
    assert(lines.subrange(0, n) =~= lines);
    if n > 6 {
        assert(lines.subrange(n - 6, n) =~= lines.skip(n - 6));
        assert(lines.subrange(0, 6) =~= lines.take(6));
    }
}

/// A running call shows the last six lines that it gave so far, and that it
/// runs.
pub proof fn law_running_calls_show_their_last_lines(
    t: ToolView,
    live: Seq<char>,
    lines: Seq<Seq<char>>,
    width: int,
    now: u64,
)
    requires
        t.live == Some(live),
        lines == text::lines_of(live),
    ensures
        ({
            let shown = if lines.len() <= 6 {
                lines
            } else {
                lines.skip(lines.len() - 6)
            };
            let waiting = match t.started_at {
                Some(s) => "  ... running "@ + durations::of_nanos(transcript::elapsed(s, now)),
                None => "  ..."@,
            };
            running_lines(t, width, now) == framed_lines(
                shown,
                "  "@,
                ""@,
                width,
                theme::detail(),
            ) + text_lines(waiting, width, theme::detail())
        }),
{
    let n = lines.len() as int;
    if n <= 6 {
        assert(lines.subrange(0, n) =~= lines);
    } else {
        assert(lines.subrange(n - 6, n) =~= lines.skip(n - 6));
    }
}

/// Bands with calls are counted up: what is said after calls opens a new
/// band, the calls that follow get the next number, and further calls stay
/// in their band under the same number.
pub proof fn law_bands_are_counted_up(
    out: Seq<StepView>,
    number: int,
    said: CellView,
    call: CellView,
    i: int,
)
    requires
        out.len() > 0,
        out.last().right.len() > 0,
        !(said is User) && !(said is Tool),
        call is Tool,
    ensures
        ({
            let after = banded(out, number, i, said);
            let count = band_number(out, number, said);
            let then = banded(after, count, i + 1, call);
            let next = band_number(after, count, call);
            let more = banded(then, next, i + 2, call);
            &&& after.len() == out.len() + 1
            &&& after.drop_last() == out
            &&& after.last().left == seq![i] && after.last().right.len() == 0
            &&& then.len() == after.len()
            &&& then.last().right == seq![i + 1] && then.last().marker == Some(number + 1)
            &&& next == number + 1
            &&& more.len() == then.len()
            &&& more.last().right == seq![i + 1, i + 2] && more.last().marker == Some(number + 1)
            &&& band_number(then, next, call) == number + 1
        }),
{
    let after = banded(out, number, i, said);
    assert(out.push(no_step()).drop_last() =~= out);
    assert(Seq::<int>::empty().push(i) =~= seq![i]);
    assert(after.drop_last() =~= out);
    let count = band_number(out, number, said);
    let then = banded(after, count, i + 1, call);
    assert(Seq::<int>::empty().push(i + 1) =~= seq![i + 1]);
    assert(then.last().right =~= seq![i + 1]);
    let next = band_number(after, count, call);
    let more = banded(then, next, i + 2, call);
    assert(seq![i + 1].push(i + 2) =~= seq![i + 1, i + 2]);
    assert(more.last().right =~= seq![i + 1, i + 2]);
}

/// Marking a selection changes no text.
pub proof fn law_a_selection_keeps_the_text(rows: Seq<LineView>, selected: bool)
    ensures
        tinted(rows, selected).len() == rows.len(),
        forall|k: int|
            0 <= k < rows.len() ==> (#[trigger] tinted(rows, selected)[k]).spans == rows[k].spans,
        !selected ==> tinted(rows, selected) == rows,
{
}

/// Whether rows stand in a pane, all of them and in a row, and lead to their
/// cell.
pub open spec fn drawn(p: PaneView, rows: Seq<LineView>, index: int) -> bool {
    exists|from: int| drawn_at(p, rows, index, from)
}

/// Whether rows stand in a pane from this row on.
pub open spec fn drawn_at(p: PaneView, rows: Seq<LineView>, index: int, from: int) -> bool {
    &&& 0 <= from
    &&& from + rows.len() <= p.rows.len()
    &&& from + rows.len() <= p.at.len()
    &&& forall|k: int|
        0 <= k < rows.len() ==> p.rows[from + k] == #[trigger] rows[k] && p.at[from + k] == Some(
            index,
        )
}

proof fn lemma_drawn_below(p: PaneView, q: PaneView, rows: Seq<LineView>, index: int)
    requires
        drawn(p, rows, index),
    ensures
        drawn(stacked(p, q), rows, index),
{
    let from = choose|from: int| drawn_at(p, rows, index, from);
    assert(drawn_at(stacked(p, q), rows, index, from));
}

proof fn lemma_drawn_above(p: PaneView, q: PaneView, rows: Seq<LineView>, index: int)
    requires
        in_step(p),
        drawn(q, rows, index),
    ensures
        drawn(stacked(p, q), rows, index),
{
    let from = choose|from: int| drawn_at(q, rows, index, from);
    let n = p.rows.len() as int;
    let r = stacked(p, q);
    assert forall|k: int| 0 <= k < rows.len() implies r.rows[n + from + k] == #[trigger] rows[k]
        && r.at[n + from + k] == Some(index) by {
        assert(q.rows[from + k] == rows[k]);
        assert(r.rows[n + (from + k)] == q.rows[from + k]);
        assert(r.at[n + (from + k)] == q.at[from + k]);
    }
    assert(drawn_at(r, rows, index, n + from));
}

proof fn lemma_drawn_row(p: PaneView, row: LineView, rows: Seq<LineView>, index: int)
    requires
        drawn(p, rows, index),
    ensures
        drawn(with_row(p, row), rows, index),
{
    let from = choose|from: int| drawn_at(p, rows, index, from);
    assert(drawn_at(with_row(p, row), rows, index, from));
}

proof fn lemma_drawn_padded(p: PaneView, n: nat, rows: Seq<LineView>, index: int)
    requires
        drawn(p, rows, index),
    ensures
        drawn(padded(p, n), rows, index),
    decreases n - p.rows.len(),
{
    if p.rows.len() < n {
        lemma_drawn_row(p, lines::empty_line(), rows, index);
        lemma_drawn_padded(with_row(p, lines::empty_line()), n, rows, index);
    }
}

proof fn lemma_drawn_cell(
    p: PaneView,
    own: Seq<LineView>,
    at: int,
    rows: Seq<LineView>,
    index: int,
)
    requires
        in_step(p),
    ensures
        in_step(with_cell(p, own, at)),
        drawn(p, rows, index) ==> drawn(with_cell(p, own, at), rows, index),
        drawn(with_cell(p, own, at), own, at),
{
    let q = PaneView { rows: own, at: Seq::new(own.len(), |i: int| Some(at)) };
    assert(with_cell(p, own, at) == stacked(p, q));
    assert(drawn_at(q, own, at, 0));
    lemma_drawn_above(p, q, own, at);
    if drawn(p, rows, index) {
        lemma_drawn_below(p, q, rows, index);
    }
}

proof fn lemma_sides_drawn(cells: Seq<CellView>, indices: Seq<int>, n: int, k: int, c: Canvas)
    requires
        0 <= k < n <= indices.len(),
    ensures
        in_step(left_side(cells, indices, n, c)),
        in_step(right_side(cells, indices, n, c)),
        drawn(
            left_side(cells, indices, n, c),
            tinted(
                conversation_view(cells[indices[k]], c.left_width),
                c.selected == Some(indices[k]),
            ),
            indices[k],
        ),
        drawn(right_side(cells, indices, n, c), tool_rows(cells[indices[k]], c), indices[k]),
    decreases n,
{
    let index = indices[k];
    let left_rows = tinted(
        conversation_view(cells[index], c.left_width),
        c.selected == Some(index),
    );
    let right_rows = tool_rows(cells[index], c);
    let l = left_side(cells, indices, n - 1, c);
    let r = right_side(cells, indices, n - 1, c);
    let last = indices[n - 1];
    if n > 1 {
        lemma_sides_drawn(cells, indices, n - 1, if k < n - 1 { k } else { 0 }, c);
    }
    let spaced_l = if n > 1 {
        with_row(l, lines::empty_line())
    } else {
        l
    };
    let spaced_r = if n > 1 {
        with_row(r, lines::empty_line())
    } else {
        r
    };
    if k < n - 1 {
        lemma_drawn_row(l, lines::empty_line(), left_rows, index);
        lemma_drawn_row(r, lines::empty_line(), right_rows, index);
    }
    lemma_drawn_cell(
        spaced_l,
        tinted(conversation_view(cells[last], c.left_width), c.selected == Some(last)),
        last,
        left_rows,
        index,
    );
    lemma_drawn_cell(spaced_r, tool_rows(cells[last], c), last, right_rows, index);
}

proof fn lemma_columns_drawn(
    cells: Seq<CellView>,
    steps: Seq<StepView>,
    n: int,
    j: int,
    k: int,
    right: bool,
    c: Canvas,
)
    requires
        0 <= j < n <= steps.len(),
        0 <= k < (if right {
            steps[j].right.len()
        } else {
            steps[j].left.len()
        }),
    ensures
        !right ==> drawn(
            columns_of(cells, steps, n, c).left,
            tinted(
                conversation_view(cells[steps[j].left[k]], c.left_width),
                c.selected == Some(steps[j].left[k]),
            ),
            steps[j].left[k],
        ),
        right ==> drawn(
            columns_of(cells, steps, n, c).right,
            tool_rows(cells[steps[j].right[k]], c),
            steps[j].right[k],
        ),
    decreases n,
{
    let cols = columns_of(cells, steps, n - 1, c);
    law_panes_have_the_same_height(cells, steps, n - 1, c);
    let step = steps[n - 1];
    let index = if right {
        steps[j].right[k]
    } else {
        steps[j].left[k]
    };
    let rows = if right {
        tool_rows(cells[index], c)
    } else {
        tinted(conversation_view(cells[index], c.left_width), c.selected == Some(index))
    };
    let spaced = if cols.left.rows.len() > 0 {
        ColumnsView {
            left: with_row(cols.left, lines::empty_line()),
            right: with_row(cols.right, lines::empty_line()),
        }
    } else {
        cols
    };
    let ruled = match step.marker {
        Some(number) => ColumnsView {
            left: with_row(spaced.left, rule_view(number, c.left_width)),
            right: with_row(spaced.right, rule_view(number, c.right_width)),
        },
        None => spaced,
    };
    let l = left_side(cells, step.left, step.left.len() as int, c);
    let r = right_side(cells, step.right, step.right.len() as int, c);
    let low_l = padded(l, r.rows.len());
    let low_r = padded(r, l.rows.len());
    if j == n - 1 {
        if right {
            lemma_sides_drawn(cells, step.right, step.right.len() as int, k, c);
            lemma_drawn_padded(r, l.rows.len(), rows, index);
            lemma_drawn_above(ruled.right, low_r, rows, index);
        } else {
            lemma_sides_drawn(cells, step.left, step.left.len() as int, k, c);
            lemma_drawn_padded(l, r.rows.len(), rows, index);
            lemma_drawn_above(ruled.left, low_l, rows, index);
        }
    } else {
        lemma_columns_drawn(cells, steps, n - 1, j, k, right, c);
        if right {
            lemma_drawn_row(cols.right, lines::empty_line(), rows, index);
            match step.marker {
                Some(number) => {
                    lemma_drawn_row(
                        spaced.right,
                        rule_view(number, c.right_width),
                        rows,
                        index,
                    );
                },
                None => {},
            }
            lemma_drawn_below(ruled.right, low_r, rows, index);
        } else {
            lemma_drawn_row(cols.left, lines::empty_line(), rows, index);
            match step.marker {
                Some(number) => {
                    lemma_drawn_row(spaced.left, rule_view(number, c.left_width), rows, index);
                },
                None => {},
            }
            lemma_drawn_below(ruled.left, low_l, rows, index);
        }
    }
}

proof fn lemma_in_some_step(steps: Seq<StepView>, index: int, right: bool) -> (place: (int, int))
    requires
        right ==> rights(steps).contains(index),
        !right ==> lefts(steps).contains(index),
    ensures
        0 <= place.0 < steps.len(),
        right ==> 0 <= place.1 < steps[place.0].right.len() && steps[place.0].right[place.1]
            == index,
        !right ==> 0 <= place.1 < steps[place.0].left.len() && steps[place.0].left[place.1]
            == index,
    decreases steps.len(),
{
    let all = if right {
        rights(steps)
    } else {
        lefts(steps)
    };
    let before = if right {
        rights(steps.drop_last())
    } else {
        lefts(steps.drop_last())
    };
    let k = choose|k: int| 0 <= k < all.len() && all[k] == index;
    if k < before.len() {
        assert(before[k] == index);
        lemma_in_some_step(steps.drop_last(), index, right)
    } else {
        (steps.len() - 1, k - before.len())
    }
}

/// Every cell is drawn in full: all the rows that it takes stand in its pane
/// without a gap, a call on the right and any other cell on the left, and a
/// click on any of them leads to it.
pub proof fn law_every_cell_is_drawn_in_full(cells: Seq<CellView>, index: int, c: Canvas)
    requires
        0 <= index < cells.len(),
    ensures
        ({
            let steps = steps_of(cells);
            let cols = columns_of(cells, steps, steps.len() as int, c);
            &&& cells[index] is Tool ==> drawn(
                cols.right,
                tool_view(cells[index]->Tool_0, c.right_width, c.now),
                index,
            )
            &&& !(cells[index] is Tool) ==> drawn(
                cols.left,
                tinted(
                    conversation_view(cells[index], c.left_width),
                    c.selected == Some(index),
                ),
                index,
            )
        }),
{
    let steps = steps_of(cells);
    law_every_cell_has_one_place(cells);
    lemma_index_listed(cells, cells.len() as int, index);
    let right = cells[index] is Tool;
    let place = lemma_in_some_step(steps, index, right);
    lemma_columns_drawn(cells, steps, steps.len() as int, place.0, place.1, right, c);
}

} // verus!
