//! The transcript: what there is to draw.
//!
//! Agent events say what happened; the transcript says what to show, as a
//! list of cells. The view has two panes: conversation on the left, tool
//! traffic on the right. Cells are grouped into bands, and every band takes
//! the same rows in both panes. That alignment, and the number that a band
//! carries, is what ties a tool call to the reasoning that led to it.
use vstd::prelude::*;

use crate::text::same_str;

verus! {

/// One visual block of the conversation. Times are in nanoseconds of a clock
/// that never runs backwards.
#[derive(Debug)]
pub enum Cell {
    User { text: String },
    Assistant { text: String },
    Answer { text: String },
    Thinking { text: String },
    Tool {
        id: String,
        name: String,
        call: String,
        expanded: bool,
        started_at: Option<u64>,
        live: Option<String>,
        result: Option<ToolOutcome>,
    },
    Error { text: String },
    Notice { text: String },
    Usage { text: String },
    Summary { text: String },
}

/// What a tool call came to.
#[derive(Debug)]
pub struct ToolOutcome {
    pub text: String,
    pub is_error: bool,
    pub diff: Option<String>,
    pub took: Option<u64>,
}

/// What a tool call came to.
pub struct OutcomeView {
    pub text: Seq<char>,
    pub is_error: bool,
    pub diff: Option<Seq<char>>,
    pub took: Option<u64>,
}

/// A tool call.
pub struct ToolView {
    pub id: Seq<char>,
    pub name: Seq<char>,
    pub call: Seq<char>,
    pub expanded: bool,
    pub started_at: Option<u64>,
    pub live: Option<Seq<char>>,
    pub result: Option<OutcomeView>,
}

/// One visual block of the conversation.
pub enum CellView {
    User(Seq<char>),
    Assistant(Seq<char>),
    Answer(Seq<char>),
    Thinking(Seq<char>),
    Tool(ToolView),
    Error(Seq<char>),
    Notice(Seq<char>),
    Usage(Seq<char>),
    Summary(Seq<char>),
}

/// The view of an optional string.
pub open spec fn opt_text(o: Option<String>) -> Option<Seq<char>> {
    match o {
        Some(s) => Some(s@),
        None => None,
    }
}

impl View for ToolOutcome {
    type V = OutcomeView;

    open spec fn view(&self) -> OutcomeView {
        OutcomeView {
            text: self.text@,
            is_error: self.is_error,
            diff: opt_text(self.diff),
            took: self.took,
        }
    }
}

/// The view of an optional outcome.
pub open spec fn opt_outcome(o: Option<ToolOutcome>) -> Option<OutcomeView> {
    match o {
        Some(x) => Some(x@),
        None => None,
    }
}

impl View for Cell {
    type V = CellView;

    open spec fn view(&self) -> CellView {
        match self {
            Cell::User { text } => CellView::User(text@),
            Cell::Assistant { text } => CellView::Assistant(text@),
            Cell::Answer { text } => CellView::Answer(text@),
            Cell::Thinking { text } => CellView::Thinking(text@),
            Cell::Tool { id, name, call, expanded, started_at, live, result } => CellView::Tool(
                ToolView {
                    id: id@,
                    name: name@,
                    call: call@,
                    expanded: *expanded,
                    started_at: *started_at,
                    live: opt_text(*live),
                    result: opt_outcome(*result),
                },
            ),
            Cell::Error { text } => CellView::Error(text@),
            Cell::Notice { text } => CellView::Notice(text@),
            Cell::Usage { text } => CellView::Usage(text@),
            Cell::Summary { text } => CellView::Summary(text@),
        }
    }
}

/// All cells.
#[derive(Debug)]
pub struct Transcript {
    pub cells: Vec<Cell>,
}

impl View for Transcript {
    type V = Seq<CellView>;

    open spec fn view(&self) -> Seq<CellView> {
        self.cells@.map_values(|c: Cell| c@)
    }
}

impl Default for Transcript {
    /// No cells.
    fn default() -> (r: Transcript)
        ensures
            r@ == Seq::<CellView>::empty(),
    {
        let r = Transcript { cells: Vec::new() };
        assert(r@ =~= Seq::<CellView>::empty());
        r
    }
}

// ---------------------------------------------------------------------------
// Changing cells
// ---------------------------------------------------------------------------

/// The cells once assistant text has streamed in: it grows the last cell if
/// that is assistant prose, else it starts a new one.
pub open spec fn with_assistant(cells: Seq<CellView>, delta: Seq<char>) -> Seq<CellView> {
    if cells.len() > 0 && cells.last() is Assistant {
        cells.drop_last().push(CellView::Assistant(cells.last()->Assistant_0 + delta))
    } else {
        cells.push(CellView::Assistant(delta))
    }
}

/// The same for reasoning.
pub open spec fn with_thinking(cells: Seq<CellView>, delta: Seq<char>) -> Seq<CellView> {
    if cells.len() > 0 && cells.last() is Thinking {
        cells.drop_last().push(CellView::Thinking(cells.last()->Thinking_0 + delta))
    } else {
        cells.push(CellView::Thinking(delta))
    }
}

/// Whether a cell is the tool call with this id.
pub open spec fn is_tool_with(cell: CellView, id: Seq<char>) -> bool {
    cell is Tool && cell->Tool_0.id == id
}

/// The last tool call with this id.
pub open spec fn last_tool(cells: Seq<CellView>, id: Seq<char>) -> Option<int>
    decreases cells.len(),
{
    if cells.len() == 0 {
        None
    } else if is_tool_with(cells.last(), id) {
        Some(cells.len() - 1)
    } else {
        last_tool(cells.drop_last(), id)
    }
}

/// `last_tool` finds such a call, and there is none behind it.
pub proof fn lemma_last_tool(cells: Seq<CellView>, id: Seq<char>)
    ensures
        match last_tool(cells, id) {
            Some(i) => 0 <= i < cells.len() && is_tool_with(cells[i], id) && forall|k: int|
                i < k < cells.len() ==> !is_tool_with(#[trigger] cells[k], id),
            None => forall|k: int|
                0 <= k < cells.len() ==> !is_tool_with(#[trigger] cells[k], id),
        },
    decreases cells.len(),
{
    if cells.len() > 0 && !is_tool_with(cells.last(), id) {
        let rest = cells.drop_last();
        lemma_last_tool(rest, id);
        assert forall|k: int|
            (match last_tool(cells, id) {
                Some(i) => i,
                None => -1,
            }) < k < cells.len() implies !is_tool_with(#[trigger] cells[k], id) by {
            if k < cells.len() - 1 {
                assert(rest[k] == cells[k]);
            }
        }
    }
}

/// The cells with one tool call changed.
pub open spec fn with_tool(cells: Seq<CellView>, i: int, t: ToolView) -> Seq<CellView> {
    cells.update(i, CellView::Tool(t))
}

/// The nanoseconds from one time to a later one.
pub open spec fn elapsed(from: u64, now: u64) -> u64 {
    if now >= from {
        (now - from) as u64
    } else {
        0
    }
}

/// The cells once a call has started.
pub open spec fn with_started(cells: Seq<CellView>, id: Seq<char>, now: u64) -> Seq<CellView> {
    match last_tool(cells, id) {
        Some(i) => with_tool(
            cells,
            i,
            ToolView { started_at: Some(now), ..cells[i]->Tool_0 },
        ),
        None => cells,
    }
}

/// The cells once a running call has reported progress. A call that is
/// finished takes no more of it.
pub open spec fn with_progress(cells: Seq<CellView>, id: Seq<char>, text: Seq<char>) -> Seq<
    CellView,
> {
    match last_tool(cells, id) {
        Some(i) => if cells[i]->Tool_0.result is None {
            with_tool(cells, i, ToolView { live: Some(text), ..cells[i]->Tool_0 })
        } else {
            cells
        },
        None => cells,
    }
}

/// The cells once a call has finished: its clock, if it was started, becomes
/// what it took, and its progress is gone.
pub open spec fn with_result(
    cells: Seq<CellView>,
    id: Seq<char>,
    outcome: OutcomeView,
    now: u64,
) -> Seq<CellView> {
    match last_tool(cells, id) {
        Some(i) => {
            let t = cells[i]->Tool_0;
            let took = match t.started_at {
                Some(s) => Some(elapsed(s, now)),
                None => None,
            };
            with_tool(
                cells,
                i,
                ToolView {
                    live: None,
                    result: Some(OutcomeView { took, ..outcome }),
                    ..t
                },
            )
        },
        None => cells,
    }
}

/// A cell with its expansion set, if it is a tool call.
pub open spec fn expanded_cell(cell: CellView, expanded: bool) -> CellView {
    match cell {
        CellView::Tool(t) => CellView::Tool(ToolView { expanded, ..t }),
        _ => cell,
    }
}

/// Where the final answer would stand: the last cell that is neither usage
/// nor a notice.
pub open spec fn last_substantive(cells: Seq<CellView>) -> Option<int>
    decreases cells.len(),
{
    if cells.len() == 0 {
        None
    } else if cells.last() is Usage || cells.last() is Notice {
        last_substantive(cells.drop_last())
    } else {
        Some(cells.len() - 1)
    }
}

/// The last substantive cell is one of the cells.
pub proof fn lemma_last_substantive(cells: Seq<CellView>)
    ensures
        last_substantive(cells) matches Some(i) ==> 0 <= i < cells.len(),
    decreases cells.len(),
{
    if cells.len() > 0 && (cells.last() is Usage || cells.last() is Notice) {
        lemma_last_substantive(cells.drop_last());
    }
}

/// The cells once a run has ended: trailing assistant prose becomes the
/// answer. A run that ended in anything else has none.
pub open spec fn with_answer(cells: Seq<CellView>) -> Seq<CellView> {
    match last_substantive(cells) {
        Some(i) => match cells[i] {
            CellView::Assistant(text) => cells.update(i, CellView::Answer(text)),
            _ => cells,
        },
        None => cells,
    }
}

/// The text that a copy of a cell gives.
pub open spec fn copied(cell: CellView) -> Option<Seq<char>> {
    match cell {
        CellView::User(t) => Some(t),
        CellView::Assistant(t) => Some(t),
        CellView::Answer(t) => Some(t),
        CellView::Thinking(t) => Some(t),
        CellView::Error(t) => Some(t),
        CellView::Notice(t) => Some(t),
        CellView::Usage(t) => Some(t),
        CellView::Summary(t) => Some(t),
        CellView::Tool(_) => None,
    }
}

impl Transcript {
    /// Appends a cell.
    pub fn push(&mut self, cell: Cell)
        ensures
            final(self)@ == old(self)@.push(cell@),
    {
        let ghost before = self@;
        self.cells.push(cell);
        assert(self@ =~= before.push(cell@));
    }

    /// Appends a delta to the last assistant cell, or starts one.
    pub fn append_assistant(&mut self, delta: &str)
        ensures
            final(self)@ == with_assistant(old(self)@, delta@),
    {
        let ghost before = self@;
        let n: usize = self.cells.len();
        if n > 0 {
            assert(before.last() == self.cells@.last()@);
            if let Cell::Assistant { text } = &mut self.cells[n - 1] {
                text.push_str(delta);
                assert(self@ =~= with_assistant(before, delta@));
                return;
            }
        }
        self.push(Cell::Assistant { text: delta.to_owned() });
    }

    /// Appends a delta to the last reasoning cell, or starts one.
    pub fn append_thinking(&mut self, delta: &str)
        ensures
            final(self)@ == with_thinking(old(self)@, delta@),
    {
        let ghost before = self@;
        let n: usize = self.cells.len();
        if n > 0 {
            assert(before.last() == self.cells@.last()@);
            if let Cell::Thinking { text } = &mut self.cells[n - 1] {
                text.push_str(delta);
                assert(self@ =~= with_thinking(before, delta@));
                return;
            }
        }
        self.push(Cell::Thinking { text: delta.to_owned() });
    }

    /// The tool cell of a call, searched from the end.
    fn find_tool(&self, tool_call_id: &str) -> (r: Option<usize>)
        ensures
            r is Some <==> last_tool(self@, tool_call_id@) is Some,
            r matches Some(i) ==> last_tool(self@, tool_call_id@) == Some(i as int) && i
                < self.cells@.len() && self.cells@[i as int] is Tool,
    {
        let mut i: usize = self.cells.len();
        assert(self@.take(i as int) =~= self@);
        while i > 0
            invariant
                i <= self.cells@.len(),
                last_tool(self@, tool_call_id@) == last_tool(
                    self@.take(i as int),
                    tool_call_id@,
                ),
            decreases i,
        {
            let ghost now = self@.take(i as int);
            assert(now.drop_last() =~= self@.take(i - 1));
            assert(now.last() == self.cells@[i - 1]@);
            if let Cell::Tool { id, .. } = &self.cells[i - 1] {
                if same_str(id.as_str(), tool_call_id) {
                    return Some(i - 1);
                }
            }
            i -= 1;
        }
        None
    }

    /// The loop started executing a call: its clock starts.
    pub fn mark_tool_started(&mut self, tool_call_id: &str, now: u64)
        ensures
            final(self)@ == with_started(old(self)@, tool_call_id@, now),
    {
        let ghost before = self@;
        if let Some(i) = self.find_tool(tool_call_id) {
            assert(before[i as int] == self.cells@[i as int]@);
            if let Cell::Tool { started_at, .. } = &mut self.cells[i] {
                *started_at = Some(now);
            }
            assert(self@ =~= with_started(before, tool_call_id@, now));
        }
    }

    /// A progress snapshot of a running tool.
    pub fn attach_tool_progress(&mut self, tool_call_id: &str, text: String)
        ensures
            final(self)@ == with_progress(old(self)@, tool_call_id@, text@),
    {
        let ghost before = self@;
        if let Some(i) = self.find_tool(tool_call_id) {
            assert(before[i as int] == self.cells@[i as int]@);
            if let Cell::Tool { live, result, .. } = &mut self.cells[i] {
                if result.is_none() {
                    *live = Some(text);
                }
            }
            assert(self@ =~= with_progress(before, tool_call_id@, text@));
        }
    }

    /// Attaches a finished result to its tool cell.
    pub fn attach_tool_result(&mut self, tool_call_id: &str, outcome: ToolOutcome, now: u64)
        ensures
            final(self)@ == with_result(old(self)@, tool_call_id@, outcome@, now),
    {
        let ghost before = self@;
        if let Some(i) = self.find_tool(tool_call_id) {
            assert(before[i as int] == self.cells@[i as int]@);
            if let Cell::Tool { started_at, live, result, .. } = &mut self.cells[i] {
                let took: Option<u64> = match started_at {
                    Some(s) => Some(
                        if now >= *s {
                            now - *s
                        } else {
                            0
                        },
                    ),
                    None => None,
                };
                *live = None;
                *result = Some(ToolOutcome { took, ..outcome });
            }
            assert(self@ =~= with_result(before, tool_call_id@, outcome@, now));
        }
    }

    /// Flips one tool cell between preview and full result.
    pub fn toggle_tool(&mut self, index: usize)
        ensures
            final(self)@ == if index < old(self)@.len() && old(self)@[index as int] is Tool {
                old(self)@.update(
                    index as int,
                    expanded_cell(
                        old(self)@[index as int],
                        !old(self)@[index as int]->Tool_0.expanded,
                    ),
                )
            } else {
                old(self)@
            },
    {
        let ghost before = self@;
        if index < self.cells.len() {
            assert(before[index as int] == self.cells@[index as int]@);
            if let Cell::Tool { expanded, .. } = &mut self.cells[index] {
                *expanded = !*expanded;
            }
            assert(self@ =~= if before[index as int] is Tool {
                before.update(
                    index as int,
                    expanded_cell(before[index as int], !before[index as int]->Tool_0.expanded),
                )
            } else {
                before
            });
        }
    }

    /// Expands or collapses every tool cell.
    pub fn set_all_tools_expanded(&mut self, expanded: bool)
        ensures
            final(self)@ == old(self)@.map_values(|c: CellView| expanded_cell(c, expanded)),
    {
        let ghost before = self@;
        let mut i: usize = 0;
        while i < self.cells.len()
            invariant
                i <= self.cells@.len(),
                self.cells@.len() == before.len(),
                forall|k: int|
                    0 <= k < i ==> (#[trigger] self.cells@[k])@ == expanded_cell(
                        before[k],
                        expanded,
                    ),
                forall|k: int|
                    i <= k < before.len() ==> (#[trigger] self.cells@[k])@ == before[k],
            decreases self.cells@.len() - i,
        {
            if let Cell::Tool { expanded: e, .. } = &mut self.cells[i] {
                *e = expanded;
            }
            i += 1;
        }
        assert(self@ =~= before.map_values(|c: CellView| expanded_cell(c, expanded)));
    }

    /// Promotes the trailing assistant prose to the answer. It walks back
    /// over usage and notices, and stops at anything else.
    pub fn promote_final_answer(&mut self)
        ensures
            final(self)@ == with_answer(old(self)@),
    {
        let ghost before = self@;
        let mut i: usize = self.cells.len();
        assert(before.take(i as int) =~= before);
        while i > 0
            invariant
                i <= self.cells@.len(),
                before == old(self)@,
                self@ == before,
                self.cells@.len() == before.len(),
                last_substantive(before) == last_substantive(before.take(i as int)),
            decreases i,
        {
            let ghost now = before.take(i as int);
            assert(now.drop_last() =~= before.take(i - 1));
            assert(now.last() == self.cells@[i - 1]@);
            match &mut self.cells[i - 1] {
                Cell::Usage { .. } => {},
                Cell::Notice { .. } => {},
                Cell::Assistant { text } => {
                    let mut moved = String::new();
                    std::mem::swap(&mut moved, text);
                    self.cells.set(i - 1, Cell::Answer { text: moved });
                    assert(self@ =~= with_answer(before));
                    return;
                },
                _ => {
                    return;
                },
            }
            i -= 1;
        }
    }

    /// The raw text that a copy of a cell places on the clipboard: as the
    /// model wrote it. Tool cells stay out of it.
    pub fn copy_text(&self, index: usize) -> (r: Option<&str>)
        ensures
            index >= self@.len() ==> r is None,
            index < self@.len() ==> match (r, copied(self@[index as int])) {
                (Some(t), Some(c)) => t@ == c,
                (None, None) => true,
                _ => false,
            },
    {
        if index >= self.cells.len() {
            return None;
        }
        assert(self@[index as int] == self.cells@[index as int]@);
        match &self.cells[index] {
            Cell::User { text } => Some(text.as_str()),
            Cell::Assistant { text } => Some(text.as_str()),
            Cell::Answer { text } => Some(text.as_str()),
            Cell::Thinking { text } => Some(text.as_str()),
            Cell::Error { text } => Some(text.as_str()),
            Cell::Notice { text } => Some(text.as_str()),
            Cell::Usage { text } => Some(text.as_str()),
            Cell::Summary { text } => Some(text.as_str()),
            Cell::Tool { .. } => None,
        }
    }
}

// ---------------------------------------------------------------------------
// Laws
// ---------------------------------------------------------------------------

/// How assistant text is cut into deltas does not matter: two deltas in a
/// row give what one delta with both texts gives.
pub proof fn law_deltas_join(cells: Seq<CellView>, a: Seq<char>, b: Seq<char>)
    ensures
        with_assistant(with_assistant(cells, a), b) == with_assistant(cells, a + b),
        with_thinking(with_thinking(cells, a), b) == with_thinking(cells, a + b),
{
    let x = with_assistant(cells, a);
    let y = with_thinking(cells, a);
    if cells.len() > 0 && cells.last() is Assistant {
        assert(cells.last()->Assistant_0 + a + b =~= cells.last()->Assistant_0 + (a + b));
        assert(x.drop_last() =~= cells.drop_last());
    } else {
        assert(x.drop_last() =~= cells);
    }
    if cells.len() > 0 && cells.last() is Thinking {
        assert(cells.last()->Thinking_0 + a + b =~= cells.last()->Thinking_0 + (a + b));
        assert(y.drop_last() =~= cells.drop_last());
    } else {
        assert(y.drop_last() =~= cells);
    }
}

/// A call that is finished takes no more progress.
pub proof fn law_finished_calls_are_final(
    cells: Seq<CellView>,
    id: Seq<char>,
    outcome: OutcomeView,
    now: u64,
    text: Seq<char>,
)
    ensures
        with_progress(with_result(cells, id, outcome, now), id, text) == with_result(
            cells,
            id,
            outcome,
            now,
        ),
{
    lemma_last_tool(cells, id);
    if let Some(i) = last_tool(cells, id) {
        let t = cells[i]->Tool_0;
        let after = with_result(cells, id, outcome, now);
        assert(is_tool_with(after[i], id));
        lemma_last_tool(after, id);
        assert forall|k: int| i < k < after.len() implies !is_tool_with(
            #[trigger] after[k],
            id,
        ) by {
            assert(after[k] == cells[k]);
        }
        assert(last_tool(after, id) == Some(i));
    }
}

/// Expanding is undone by collapsing, and the other way round.
pub proof fn law_toggling_twice_changes_nothing(cell: CellView)
    requires
        cell is Tool,
    ensures
        expanded_cell(
            expanded_cell(cell, !cell->Tool_0.expanded),
            cell->Tool_0.expanded,
        ) == cell,
{
}

/// A run has one answer: promoting it again changes nothing.
pub proof fn law_promoting_twice_changes_nothing(cells: Seq<CellView>)
    ensures
        with_answer(with_answer(cells)) == with_answer(cells),
{
    lemma_last_substantive(cells);
    if let Some(i) = last_substantive(cells) {
        if cells[i] is Assistant {
            let after = with_answer(cells);
            lemma_same_end(cells, after, i);
        }
    }
}

proof fn lemma_same_end(a: Seq<CellView>, b: Seq<CellView>, i: int)
    requires
        a.len() == b.len(),
        last_substantive(a) == Some(i),
        0 <= i < a.len(),
        b[i] is Answer,
        forall|k: int| i < k < a.len() ==> a[k] == b[k],
    ensures
        last_substantive(b) == Some(i),
    decreases a.len(),
{
    if i < a.len() - 1 {
        assert(a.last() == b.last());
        if a.last() is Usage || a.last() is Notice {
            lemma_same_end(a.drop_last(), b.drop_last(), i);
        }
    } else {
        assert(b.last() == b[i]);
    }
}

/// What a model says or thinks is kept to the last character: a piece
/// continues a cell of its kind that is the last one, and starts one
/// otherwise. No other cell changes.
pub proof fn law_pieces_continue_their_own_kind(cells: Seq<CellView>, so_far: Seq<char>, delta: Seq<char>)
    ensures
        with_assistant(cells.push(CellView::Assistant(so_far)), delta) == cells.push(
            CellView::Assistant(so_far + delta),
        ),
        with_thinking(cells.push(CellView::Thinking(so_far)), delta) == cells.push(
            CellView::Thinking(so_far + delta),
        ),
        with_assistant(cells.push(CellView::Thinking(so_far)), delta) == cells.push(
            CellView::Thinking(so_far),
        ).push(CellView::Assistant(delta)),
        with_thinking(cells.push(CellView::Assistant(so_far)), delta) == cells.push(
            CellView::Assistant(so_far),
        ).push(CellView::Thinking(delta)),
        with_assistant(cells.push(CellView::Answer(so_far)), delta) == cells.push(
            CellView::Answer(so_far),
        ).push(CellView::Assistant(delta)),
        with_assistant(Seq::empty(), delta) == seq![CellView::Assistant(delta)],
        with_thinking(Seq::empty(), delta) == seq![CellView::Thinking(delta)],
{
    assert(cells.push(CellView::Assistant(so_far)).drop_last() =~= cells);
    assert(cells.push(CellView::Thinking(so_far)).drop_last() =~= cells);
    let none = Seq::<CellView>::empty();
    assert(none.push(CellView::Assistant(delta)) =~= seq![CellView::Assistant(delta)]);
    assert(none.push(CellView::Thinking(delta)) =~= seq![CellView::Thinking(delta)]);
}

/// A result goes to the latest call with its id: the call keeps what it was
/// and stops being live, the time that it took is that since it started, and
/// no other cell changes.
pub proof fn law_results_reach_their_call(
    cells: Seq<CellView>,
    i: int,
    t: ToolView,
    outcome: OutcomeView,
    now: u64,
)
    requires
        0 <= i < cells.len(),
        cells[i] == CellView::Tool(t),
        forall|k: int|
            i < k < cells.len() ==> !((#[trigger] cells[k]) is Tool && cells[k]->Tool_0.id == t.id),
    ensures
        ({
            let after = with_result(cells, t.id, outcome, now);
            &&& after.len() == cells.len()
            &&& forall|k: int| 0 <= k < cells.len() && k != i ==> (#[trigger] after[k]) == cells[k]
            &&& after[i] is Tool
            &&& after[i]->Tool_0.id == t.id && after[i]->Tool_0.name == t.name
                && after[i]->Tool_0.call == t.call && after[i]->Tool_0.expanded == t.expanded
            &&& after[i]->Tool_0.live is None
            &&& after[i]->Tool_0.result is Some
            &&& after[i]->Tool_0.result.unwrap().text == outcome.text
            &&& after[i]->Tool_0.result.unwrap().is_error == outcome.is_error
            &&& after[i]->Tool_0.result.unwrap().diff == outcome.diff
            &&& t.started_at is None ==> after[i]->Tool_0.result.unwrap().took is None
            &&& t.started_at is Some && t.started_at.unwrap() <= now
                ==> after[i]->Tool_0.result.unwrap().took == Some(
                (now - t.started_at.unwrap()) as u64,
            )
            &&& t.started_at is Some && t.started_at.unwrap() > now
                ==> after[i]->Tool_0.result.unwrap().took == Some(0u64)
        }),
{
    lemma_latest_call(cells, i, t);
}

proof fn lemma_latest_call(cells: Seq<CellView>, i: int, t: ToolView)
    requires
        0 <= i < cells.len(),
        cells[i] == CellView::Tool(t),
        forall|k: int|
            i < k < cells.len() ==> !((#[trigger] cells[k]) is Tool && cells[k]->Tool_0.id == t.id),
    ensures
        last_tool(cells, t.id) == Some(i),
{
    lemma_last_tool(cells, t.id);
    assert(is_tool_with(cells[i], t.id));
    match last_tool(cells, t.id) {
        Some(j) => {
            if j > i {
                assert(is_tool_with(cells[j], t.id));
            }
        },
        None => {},
    }
}

/// A call that starts, or that gives something away while it runs, is
/// changed in that one respect, and no other cell is.
pub proof fn law_calls_change_one_thing_at_a_time(
    cells: Seq<CellView>,
    i: int,
    t: ToolView,
    now: u64,
    text: Seq<char>,
)
    requires
        0 <= i < cells.len(),
        cells[i] == CellView::Tool(t),
        forall|k: int|
            i < k < cells.len() ==> !((#[trigger] cells[k]) is Tool && cells[k]->Tool_0.id == t.id),
    ensures
        with_started(cells, t.id, now) == cells.update(
            i,
            CellView::Tool(ToolView { started_at: Some(now), ..t }),
        ),
        t.result is None ==> with_progress(cells, t.id, text) == cells.update(
            i,
            CellView::Tool(ToolView { live: Some(text), ..t }),
        ),
        t.result is Some ==> with_progress(cells, t.id, text) == cells,
{
    lemma_latest_call(cells, i, t);
}

/// What belongs to a call that is not there changes nothing.
pub proof fn law_unknown_calls_change_nothing(
    cells: Seq<CellView>,
    id: Seq<char>,
    outcome: OutcomeView,
    now: u64,
    text: Seq<char>,
)
    requires
        forall|k: int|
            0 <= k < cells.len() ==> !((#[trigger] cells[k]) is Tool && cells[k]->Tool_0.id == id),
    ensures
        with_result(cells, id, outcome, now) == cells,
        with_started(cells, id, now) == cells,
        with_progress(cells, id, text) == cells,
{
    lemma_last_tool(cells, id);
}

proof fn lemma_substantive_at(cells: Seq<CellView>, i: int)
    requires
        0 <= i < cells.len(),
        !(cells[i] is Usage) && !(cells[i] is Notice),
        forall|k: int|
            i < k < cells.len() ==> (#[trigger] cells[k]) is Usage || cells[k] is Notice,
    ensures
        last_substantive(cells) == Some(i),
    decreases cells.len(),
{
    if i < cells.len() - 1 {
        assert(cells[cells.len() - 1] is Usage || cells[cells.len() - 1] is Notice);
        assert forall|k: int| i < k < cells.drop_last().len() implies (
        #[trigger] cells.drop_last()[k]) is Usage || cells.drop_last()[k] is Notice by {
            assert(cells.drop_last()[k] == cells[k]);
        }
        lemma_substantive_at(cells.drop_last(), i);
    }
}

/// The last thing that was said becomes the answer, with its text as it is,
/// though notes may follow it. Where something else came last, nothing is
/// an answer.
pub proof fn law_the_last_word_is_the_answer(cells: Seq<CellView>, i: int)
    requires
        0 <= i < cells.len(),
        !(cells[i] is Usage) && !(cells[i] is Notice),
        forall|k: int|
            i < k < cells.len() ==> (#[trigger] cells[k]) is Usage || cells[k] is Notice,
    ensures
        cells[i] is Assistant ==> with_answer(cells) == cells.update(
            i,
            CellView::Answer(cells[i]->Assistant_0),
        ),
        !(cells[i] is Assistant) ==> with_answer(cells) == cells,
{
    lemma_substantive_at(cells, i);
}

/// A call is opened and closed without changing anything else of it; other
/// cells cannot be opened.
pub proof fn law_opening_changes_nothing_else(cell: CellView, expanded: bool)
    ensures
        cell is Tool ==> expanded_cell(cell, expanded) == CellView::Tool(
            ToolView { expanded, ..cell->Tool_0 },
        ),
        !(cell is Tool) ==> expanded_cell(cell, expanded) == cell,
{
}

/// Everything but a call can be copied, as the text that it holds.
pub proof fn law_texts_are_copied_as_they_are(t: Seq<char>, call: ToolView)
    ensures
        copied(CellView::User(t)) == Some(t),
        copied(CellView::Assistant(t)) == Some(t),
        copied(CellView::Answer(t)) == Some(t),
        copied(CellView::Thinking(t)) == Some(t),
        copied(CellView::Error(t)) == Some(t),
        copied(CellView::Notice(t)) == Some(t),
        copied(CellView::Usage(t)) == Some(t),
        copied(CellView::Summary(t)) == Some(t),
        copied(CellView::Tool(call)) is None,
{
}

} // verus!
