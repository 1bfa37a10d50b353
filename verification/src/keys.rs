//! Keys, the mouse and pasted text.
//!
//! Handling a key never waits. Where the popup has to follow a change of the
//! input, the handler says so: the caller lists the files that
//! `wanted_walk` names and calls `refresh`.
use vstd::prelude::*;

use crate::app::{App, AppView, Area, Request, RequestView};
use crate::autocomplete::{AutocompleteView, Candidate};
use crate::commands::expand_prompt_template;
use crate::input::InputView;
use crate::text::{chars_of, concat2, is_str, slice, split_head, to_text, trimmed};
use crate::transcript::{Cell, CellView};
use crate::{app, autocomplete, builtins, commands, input, resources, text, transcript};

verus! {

/// How many rows a notch of the wheel scrolls.
pub const WHEEL_ROWS: usize = 3;

/// A key.
#[derive(Debug, Clone, Copy, PartialEq, Eq, Structural)]
pub enum Key {
    Char(char),
    Enter,
    Esc,
    Tab,
    Up,
    Down,
    Left,
    Right,
    Home,
    End,
    Backspace,
    Delete,
    PageUp,
    PageDown,
    Other,
}

/// Something that the terminal reports.
pub enum TerminalEvent {
    Key { key: Key, ctrl: bool, alt: bool },
    Paste(String),
    WheelUp,
    WheelDown,
    Click { column: u16, row: u16 },
    Other,
}

// ---------------------------------------------------------------------------
// Scrolling
// ---------------------------------------------------------------------------

/// The furthest that one can scroll up.
pub open spec fn max_scroll(v: AppView) -> int {
    if v.shown.total_lines > v.shown.chat.height {
        v.shown.total_lines - v.shown.chat.height
    } else {
        0
    }
}

/// The interface scrolled up by some rows, down by a negative number of
/// them. It stops at the first and at the last row.
pub open spec fn scrolled(v: AppView, delta: int) -> AppView {
    let next = v.scroll + delta;
    AppView {
        scroll: (if next < 0 {
            0
        } else if next > max_scroll(v) {
            max_scroll(v)
        } else {
            next
        }) as usize,
        ..v
    }
}

/// How many rows the key for a page up scrolls: half a pane, one row at
/// least.
pub open spec fn page(v: AppView) -> int {
    if v.shown.chat.height / 2 > 1 {
        (v.shown.chat.height / 2) as int
    } else {
        1
    }
}

/// How many rows the key for a page down scrolls: half a pane, which is none
/// of a pane with a single row.
pub open spec fn page_down(v: AppView) -> int {
    (v.shown.chat.height / 2) as int
}

// ---------------------------------------------------------------------------
// Prompts
// ---------------------------------------------------------------------------

/// The interface once a prompt was sent: it waits to be started, or it is
/// queued while a run is under way. Either way the view follows the output.
pub open spec fn sent(v: AppView, s: Seq<char>) -> AppView {
    if v.running {
        AppView {
            scroll: 0,
            ..app::noted(app::asking(v, RequestView::Steer(s)), "queued: "@ + s)
        }
    } else {
        AppView { pending_prompt: Some(s), scroll: 0, ..v }
    }
}

/// The interface once a line was submitted: commands are handled on the
/// spot, templates are expanded, everything else is a prompt.
#[verifier::opaque]
pub open spec fn dispatched(v: AppView, line: Seq<char>) -> AppView {
    let s = text::trim(line);
    if s.len() == 0 {
        v
    } else if s == "exit"@ || s == "quit"@ {
        AppView { should_quit: true, ..v }
    } else if s[0] != '/' {
        sent(v, s)
    } else {
        let (name, rest) = text::head_and_rest(s.skip(1));
        match builtins::after_builtin(v, name, text::trim(rest)) {
            Some(w) => AppView { scroll: 0, ..w },
            None => match commands::expanded(s, v.meta.templates) {
                Some(e) => sent(v, e),
                None => sent(v, s),
            },
        }
    }
}

/// The interface with an empty input, once its text was taken.
pub open spec fn taken(v: AppView) -> AppView {
    AppView {
        input: InputView {
            text: Seq::empty(),
            cursor: 0,
            index: None,
            history: input::remembered(v.input.history, v.input.text),
            ..v.input
        },
        popup: AutocompleteView { session: None, ..v.popup },
        ..v
    }
}

/// The interface once the input was submitted.
pub open spec fn submitted(v: AppView) -> AppView {
    dispatched(taken(v), v.input.text)
}

// ---------------------------------------------------------------------------
// Copying
// ---------------------------------------------------------------------------

/// The last answer.
pub open spec fn last_answer(cells: Seq<CellView>) -> Option<Seq<char>>
    decreases cells.len(),
{
    if cells.len() == 0 {
        None
    } else {
        match cells.last() {
            CellView::Answer(s) => Some(s),
            _ => last_answer(cells.drop_last()),
        }
    }
}

/// What a copy takes: the selected block, or the last answer.
pub open spec fn to_copy(v: AppView) -> Option<Seq<char>> {
    match v.selected {
        Some(i) => if i < v.cells.len() {
            transcript::copied(v.cells[i as int])
        } else {
            None
        },
        None => last_answer(v.cells),
    }
}

/// The interface once a copy was asked for.
pub open spec fn copied(v: AppView) -> AppView {
    match to_copy(v) {
        Some(s) => app::noted(AppView { pending_copy: Some(s), ..v }, "copied to the clipboard"@),
        None => app::noted(v, "nothing to copy"@),
    }
}

// ---------------------------------------------------------------------------
// Keys
// ---------------------------------------------------------------------------

/// The interface with another input.
pub open spec fn with_input(v: AppView, i: InputView) -> AppView {
    AppView { input: i, ..v }
}

/// The interface with a closed popup.
pub open spec fn popup_closed(v: AppView) -> AppView {
    AppView { popup: AutocompleteView { session: None, ..v.popup }, ..v }
}

/// The interface once the selected row was accepted.
pub open spec fn accepted(v: AppView) -> AppView {
    match v.popup.session {
        Some(s) => if s.token.start <= v.input.cursor {
            with_input(
                v,
                input::replaced(
                    v.input,
                    s.token.start,
                    v.input.cursor,
                    autocomplete::insertion(s.token, s.matches[s.selected]),
                ),
            )
        } else {
            v
        },
        None => v,
    }
}

/// Whether the popup takes a key for itself while it is visible.
pub open spec fn popup_takes(key: Key, ctrl: bool, alt: bool) -> bool {
    match key {
        Key::Esc => true,
        Key::Up => true,
        Key::Down => true,
        Key::Tab => true,
        Key::Enter => !ctrl && !alt,
        _ => false,
    }
}

/// The interface after a key that the popup took, and whether the popup has
/// to follow the input.
pub open spec fn after_popup_key(v: AppView, key: Key) -> (AppView, bool) {
    match key {
        Key::Esc => (popup_closed(v), false),
        Key::Up => (AppView { popup: autocomplete::moved_up(v.popup), ..v }, false),
        Key::Down => (AppView { popup: autocomplete::moved_down(v.popup), ..v }, false),
        _ => (accepted(v), true),
    }
}

/// The interface after Escape: a run is aborted, else a login is given up,
/// else the selection is dropped.
pub open spec fn escaped(v: AppView) -> AppView {
    if v.running {
        app::asking(v, RequestView::Abort)
    } else if v.login is Some {
        app::noted(
            app::asking(AppView { login: None, ..v }, RequestView::CancelLogin),
            "login cancelled"@,
        )
    } else {
        AppView { selected: None, ..v }
    }
}

/// The interface after a character, typed alone or with Control or Alt, and
/// whether the popup has to follow the input.
pub open spec fn after_char(v: AppView, c: char, ctrl: bool, alt: bool) -> (AppView, bool) {
    let i = v.input;
    if ctrl {
        if c == 'c' {
            (
                if v.running {
                    app::asking(v, RequestView::Abort)
                } else {
                    AppView { should_quit: true, ..v }
                },
                false,
            )
        } else if c == 'd' {
            (
                if i.text.len() == 0 && !v.running {
                    AppView { should_quit: true, ..v }
                } else {
                    v
                },
                false,
            )
        } else if c == 'y' {
            (AppView { mouse_toggle_requested: true, ..v }, false)
        } else if c == 'o' {
            (copied(v), false)
        } else if c == 't' {
            (
                AppView {
                    tools_expanded: !v.tools_expanded,
                    cells: v.cells.map_values(
                        |x: CellView| transcript::expanded_cell(x, !v.tools_expanded),
                    ),
                    ..v
                },
                false,
            )
        } else if c == 'a' {
            (
                with_input(v, InputView { cursor: input::line_start(i.text, i.cursor), ..i }),
                v.popup.session is Some,
            )
        } else if c == 'e' {
            (
                with_input(v, InputView { cursor: text::find_from(i.text, '\n', i.cursor), ..i }),
                v.popup.session is Some,
            )
        } else {
            (v, false)
        }
    } else if alt {
        (v, false)
    } else {
        (with_input(v, input::replaced(i, i.cursor, i.cursor, seq![c])), true)
    }
}

/// The editor after a key that deletes or moves.
pub open spec fn edited(i: InputView, key: Key) -> InputView {
    match key {
        Key::Backspace => input::backspaced(i),
        Key::Delete => input::deleted(i),
        Key::Left => InputView {
            cursor: if i.cursor > 0 {
                i.cursor - 1
            } else {
                0
            },
            ..i
        },
        Key::Right => InputView {
            cursor: if i.cursor < i.text.len() {
                i.cursor + 1
            } else {
                i.cursor
            },
            ..i
        },
        Key::Home => InputView { cursor: input::line_start(i.text, i.cursor), ..i },
        Key::End => InputView { cursor: text::find_from(i.text, '\n', i.cursor), ..i },
        Key::Up => input::stepped_back(i),
        Key::Down => input::stepped_forward(i),
        _ => i,
    }
}

/// The interface after a key that edits, and whether the popup has to follow
/// the input. Moving the cursor opens no popup; going through the history
/// closes it.
pub open spec fn after_edit(v: AppView, key: Key) -> (AppView, bool) {
    let w = with_input(v, edited(v.input, key));
    match key {
        Key::Backspace => (w, true),
        Key::Delete => (w, true),
        Key::Up => (popup_closed(w), false),
        Key::Down => (popup_closed(w), false),
        Key::Left => (w, v.popup.session is Some),
        Key::Right => (w, v.popup.session is Some),
        Key::Home => (w, v.popup.session is Some),
        Key::End => (w, v.popup.session is Some),
        _ => (v, false),
    }
}

/// The interface after a key that the popup did not take, and whether the
/// popup has to follow the input.
pub open spec fn after_plain_key(v: AppView, key: Key, ctrl: bool, alt: bool) -> (AppView, bool) {
    match key {
        Key::Char(c) => after_char(v, c, ctrl, alt),
        Key::Esc => (escaped(v), false),
        Key::PageUp => (scrolled(v, page(v)), false),
        Key::PageDown => (scrolled(v, -page_down(v)), false),
        Key::Enter => if alt {
            (
                with_input(
                    v,
                    input::replaced(v.input, v.input.cursor, v.input.cursor, seq!['\n']),
                ),
                true,
            )
        } else {
            (submitted(v), false)
        },
        _ => after_edit(v, key),
    }
}

/// The interface after a key, and whether the popup has to follow the input.
/// A visible popup takes the keys that it needs, and no others.
pub open spec fn after_key(v: AppView, key: Key, ctrl: bool, alt: bool) -> (AppView, bool) {
    if autocomplete::is_visible(v.popup) && popup_takes(key, ctrl, alt) {
        after_popup_key(v, key)
    } else {
        after_plain_key(v, key, ctrl, alt)
    }
}

/// The row of a pane that a point of the screen is on.
pub open spec fn row_at(area: Area, top: usize, column: u16, row: u16) -> Option<int> {
    if area.x <= column && column < area.x + area.width && area.y <= row && row < area.y
        + area.height {
        Some(top + (row - area.y))
    } else {
        None
    }
}

/// The entry of a row, if the row has one.
pub open spec fn entry(v: Seq<Option<usize>>, row: int) -> Option<usize> {
    if row < v.len() {
        v[row]
    } else {
        None
    }
}

/// The interface after a click: in the conversation it selects the block
/// under it, among the tools it expands or collapses one.
pub open spec fn clicked(v: AppView, column: u16, row: u16) -> AppView {
    match row_at(v.shown.chat, v.shown.top_line, column, row) {
        Some(line) => AppView { selected: entry(v.shown.line_cells@, line), ..v },
        None => match v.shown.tools {
            Some(area) => match row_at(area, v.shown.top_line, column, row) {
                Some(line) => match entry(v.shown.line_tools@, line) {
                    Some(k) => if k < v.cells.len() && v.cells[k as int] is Tool {
                        AppView {
                            cells: v.cells.update(
                                k as int,
                                transcript::expanded_cell(
                                    v.cells[k as int],
                                    !v.cells[k as int]->Tool_0.expanded,
                                ),
                            ),
                            ..v
                        }
                    } else {
                        v
                    },
                    None => v,
                },
                None => v,
            },
            None => v,
        },
    }
}

/// The interface after something that the terminal reports, and whether the
/// popup has to follow the input.
pub open spec fn after_terminal(v: AppView, event: TerminalEvent) -> (AppView, bool) {
    match event {
        TerminalEvent::Key { key, ctrl, alt } => after_key(v, key, ctrl, alt),
        TerminalEvent::Paste(s) => (
            with_input(v, input::replaced(v.input, v.input.cursor, v.input.cursor, s@)),
            true,
        ),
        TerminalEvent::WheelUp => (scrolled(v, WHEEL_ROWS as int), false),
        TerminalEvent::WheelDown => (scrolled(v, -WHEEL_ROWS), false),
        TerminalEvent::Click { column, row } => (clicked(v, column, row), false),
        TerminalEvent::Other => (v, false),
    }
}

impl App {
    fn max_scroll(&self) -> (r: usize)
        ensures
            r == max_scroll(self@),
    {
        let height: usize = self.shown.chat.height as usize;
        if self.shown.total_lines > height {
            self.shown.total_lines - height
        } else {
            0
        }
    }

    /// Scrolls up by some rows.
    pub fn scroll_up(&mut self, rows: usize)
        requires
            old(self).wf(),
        ensures
            final(self).wf(),
            final(self)@ == scrolled(old(self)@, rows as int),
    {
        let most: usize = self.max_scroll();
        if self.scroll_from_bottom > most || rows > most - self.scroll_from_bottom {
            self.scroll_from_bottom = most;
        } else {
            self.scroll_from_bottom = self.scroll_from_bottom + rows;
        }
    }

    /// Scrolls down by some rows.
    pub fn scroll_down(&mut self, rows: usize)
        requires
            old(self).wf(),
        ensures
            final(self).wf(),
            final(self)@ == scrolled(old(self)@, -rows),
    {
        let most: usize = self.max_scroll();
        let next: usize = if self.scroll_from_bottom > rows {
            self.scroll_from_bottom - rows
        } else {
            0
        };
        self.scroll_from_bottom = if next > most {
            most
        } else {
            next
        };
    }

    fn page(&self) -> (r: usize)
        ensures
            r == page(self@),
    {
        let half: usize = (self.shown.chat.height / 2) as usize;
        if half > 1 {
            half
        } else {
            1
        }
    }

    /// Hands a prompt to the agent: it waits to be started, or it is queued
    /// while a run is under way.
    pub fn send(&mut self, prompt: &str)
        requires
            old(self).wf(),
        ensures
            final(self).wf(),
            final(self)@ == sent(old(self)@, prompt@),
    {
        if self.running {
            self.ask(Request::Steer(prompt.to_owned()));
            self.notice(concat2("queued: ", prompt));
        } else {
            self.pending_prompt = Some(prompt.to_owned());
        }
        self.scroll_from_bottom = 0;
    }

    /// Takes the prompt of a review, or says why there is none.
    pub fn review_built(&mut self, built: Result<String, String>)
        requires
            old(self).wf(),
        ensures
            final(self).wf(),
            final(self)@ == (match built {
                Ok(prompt) => sent(old(self)@, prompt@),
                Err(e) => app::noted(old(self)@, e@),
            }),
    {
        match built {
            Ok(prompt) => self.send(prompt.as_str()),
            Err(e) => self.notice(e),
        }
    }

    fn dispatch(&mut self, line: &str)
        requires
            old(self).wf(),
        ensures
            final(self).wf(),
            final(self)@ == dispatched(old(self)@, line@),
    {
        proof {
            reveal(dispatched);
        }
        let s = trimmed(&chars_of(line));
        if s.len() == 0 {
            return;
        }
        if is_str(&s, "exit") || is_str(&s, "quit") {
            self.should_quit = true;
            return;
        }
        let whole = to_text(&s);
        if s[0] != '/' {
            self.send(whole.as_str());
            return;
        }
        let behind = slice(&s, 1, s.len());
        assert(behind@ =~= s@.skip(1));
        let (head, rest) = split_head(&behind);
        let name = to_text(&head);
        let args = to_text(&trimmed(&rest));
        if self.handle_builtin(name.as_str(), args.as_str()) {
            self.scroll_from_bottom = 0;
            return;
        }
        match expand_prompt_template(whole.as_str(), &self.meta.templates) {
            Some(e) => self.send(e.as_str()),
            None => self.send(whole.as_str()),
        }
    }

    /// Enter: takes the input and dispatches it.
    pub fn submit(&mut self)
        requires
            old(self).wf(),
        ensures
            final(self).wf(),
            final(self)@ == submitted(old(self)@),
    {
        self.autocomplete.close();
        let line = self.input.submit();
        self.dispatch(line.as_str());
    }

    /// Puts the selected block, or the last answer, up for the clipboard.
    pub fn copy(&mut self)
        requires
            old(self).wf(),
        ensures
            final(self).wf(),
            final(self)@ == copied(old(self)@),
    {
        let found: Option<String> = match self.selected_cell {
            Some(i) => match self.transcript.copy_text(i) {
                Some(s) => Some(s.to_owned()),
                None => None,
            },
            None => find_answer(&self.transcript.cells),
        };
        match found {
            Some(s) => {
                self.pending_copy = Some(s);
                self.notice("copied to the clipboard".to_owned());
            },
            None => {
                self.notice("nothing to copy".to_owned());
            },
        }
    }

    fn on_popup_key(&mut self, key: Key) -> (r: bool)
        requires
            old(self).wf(),
            autocomplete::is_visible(old(self)@.popup),
        ensures
            final(self).wf(),
            (final(self)@, r) == after_popup_key(old(self)@, key),
    {
        match key {
            Key::Esc => {
                self.autocomplete.close();
                false
            },
            Key::Up => {
                self.autocomplete.move_up();
                false
            },
            Key::Down => {
                self.autocomplete.move_down();
                false
            },
            _ => {
                let cursor: usize = self.input.cursor();
                if let Some(c) = self.autocomplete.accept(cursor) {
                    if c.start <= c.end {
                        self.input.replace_range(c.start, c.end, c.insert.as_str());
                    }
                }
                true
            },
        }
    }

    fn on_escape(&mut self)
        requires
            old(self).wf(),
        ensures
            final(self).wf(),
            final(self)@ == escaped(old(self)@),
    {
        if self.running {
            self.ask(Request::Abort);
        } else if self.login.is_some() {
            self.login = None;
            self.ask(Request::CancelLogin);
            self.notice("login cancelled".to_owned());
        } else {
            self.selected_cell = None;
        }
    }

    fn on_char(&mut self, c: char, ctrl: bool, alt: bool) -> (r: bool)
        requires
            old(self).wf(),
        ensures
            final(self).wf(),
            (final(self)@, r) == after_char(old(self)@, c, ctrl, alt),
    {
        if ctrl {
            if c == 'c' {
                if self.running {
                    self.ask(Request::Abort);
                } else {
                    self.should_quit = true;
                }
                false
            } else if c == 'd' {
                if self.input.is_empty() && !self.running {
                    self.should_quit = true;
                }
                false
            } else if c == 'y' {
                self.mouse_toggle_requested = true;
                false
            } else if c == 'o' {
                self.copy();
                false
            } else if c == 't' {
                let expanded = !self.tools_expanded;
                self.tools_expanded = expanded;
                self.transcript.set_all_tools_expanded(expanded);
                false
            } else if c == 'a' {
                self.input.move_home();
                self.autocomplete.is_open()
            } else if c == 'e' {
                self.input.move_end();
                self.autocomplete.is_open()
            } else {
                false
            }
        } else if alt {
            false
        } else {
            self.input.insert(c);
            true
        }
    }

    fn on_edit(&mut self, key: Key) -> (r: bool)
        requires
            old(self).wf(),
        ensures
            final(self).wf(),
            (final(self)@, r) == after_edit(old(self)@, key),
    {
        match key {
            Key::Backspace => {
                self.input.delete_back();
                true
            },
            Key::Delete => {
                self.input.delete_forward();
                true
            },
            Key::Left => {
                self.input.move_left();
                self.autocomplete.is_open()
            },
            Key::Right => {
                self.input.move_right();
                self.autocomplete.is_open()
            },
            Key::Home => {
                self.input.move_home();
                self.autocomplete.is_open()
            },
            Key::End => {
                self.input.move_end();
                self.autocomplete.is_open()
            },
            Key::Up => {
                self.input.history_prev();
                self.autocomplete.close();
                false
            },
            Key::Down => {
                self.input.history_next();
                self.autocomplete.close();
                false
            },
            _ => false,
        }
    }

    /// Handles a key. Says whether the popup has to follow the input.
    pub fn on_key(&mut self, key: Key, ctrl: bool, alt: bool) -> (r: bool)
        requires
            old(self).wf(),
        ensures
            final(self).wf(),
            (final(self)@, r) == after_key(old(self)@, key, ctrl, alt),
    {
        let taken = match key {
            Key::Esc => true,
            Key::Up => true,
            Key::Down => true,
            Key::Tab => true,
            Key::Enter => !ctrl && !alt,
            _ => false,
        };
        if taken && self.autocomplete.visible().is_some() {
            return self.on_popup_key(key);
        }
        match key {
            Key::Char(c) => self.on_char(c, ctrl, alt),
            Key::Esc => {
                self.on_escape();
                false
            },
            Key::PageUp => {
                let rows: usize = self.page();
                self.scroll_up(rows);
                false
            },
            Key::PageDown => {
                let rows: usize = (self.shown.chat.height / 2) as usize;
                self.scroll_down(rows);
                false
            },
            Key::Enter => {
                if alt {
                    self.input.insert('\n');
                    true
                } else {
                    self.submit();
                    false
                }
            },
            _ => self.on_edit(key),
        }
    }

    fn on_click(&mut self, column: u16, row: u16)
        requires
            old(self).wf(),
        ensures
            final(self).wf(),
            final(self)@ == clicked(old(self)@, column, row),
    {
        let top: usize = self.shown.top_line;
        if contains(self.shown.chat, column, row) {
            let offset: usize = (row - self.shown.chat.y) as usize;
            self.selected_cell = find_entry(&self.shown.line_cells, top, offset);
            return;
        }
        if let Some(area) = self.shown.tools {
            if contains(area, column, row) {
                let offset: usize = (row - area.y) as usize;
                if let Some(k) = find_entry(&self.shown.line_tools, top, offset) {
                    self.transcript.toggle_tool(k);
                }
            }
        }
    }

    /// Handles something that the terminal reports. Says whether the popup
    /// has to follow the input.
    pub fn on_terminal_event(&mut self, event: TerminalEvent) -> (r: bool)
        requires
            old(self).wf(),
        ensures
            final(self).wf(),
            (final(self)@, r) == after_terminal(old(self)@, event),
    {
        match event {
            TerminalEvent::Key { key, ctrl, alt } => self.on_key(key, ctrl, alt),
            TerminalEvent::Paste(s) => {
                self.input.insert_str(s.as_str());
                true
            },
            TerminalEvent::WheelUp => {
                self.scroll_up(WHEEL_ROWS);
                false
            },
            TerminalEvent::WheelDown => {
                self.scroll_down(WHEEL_ROWS);
                false
            },
            TerminalEvent::Click { column, row } => {
                self.on_click(column, row);
                false
            },
            TerminalEvent::Other => false,
        }
    }

    /// The directory whose files have to be listed before the popup can
    /// follow the input, relative to the project, if there is one.
    pub fn wanted_walk(&self) -> (r: Option<String>)
        requires
            self.wf(),
        ensures
            resources::opt(r) == (match autocomplete::token_of(
                self@.input.text,
                self@.input.cursor,
                self@.popup.arguments,
            ) {
                Some(t) => match t.source {
                    autocomplete::SourceView::Files(prefix) => if autocomplete::needs_source(
                        self@.popup.session,
                        t,
                    ) {
                        Some(prefix)
                    } else {
                        None
                    },
                    _ => None,
                },
                None => None,
            }),
    {
        self.autocomplete.wanted_walk(self.input.text(), self.input.cursor())
    }

    /// Lets the popup follow the input. `walked` is the listing that
    /// `wanted_walk` asked for.
    pub fn refresh(&mut self, walked: Vec<Candidate>)
        requires
            old(self).wf(),
        ensures
            final(self).wf(),
            final(self)@ == (AppView {
                popup: autocomplete::refreshed(
                    old(self)@.popup,
                    old(self)@.input.text,
                    old(self)@.input.cursor,
                    autocomplete::candidate_views(walked@),
                ),
                ..old(self)@
            }),
    {
        let cursor: usize = self.input.cursor();
        self.autocomplete.refresh(self.input.text(), cursor, walked);
    }

    /// Notes that the terminal reports the mouse now, or no longer, and says
    /// which.
    pub fn apply_mouse_toggle(&mut self) -> (r: bool)
        requires
            old(self).wf(),
        ensures
            final(self).wf(),
            r == !old(self)@.mouse_captured,
            final(self)@ == app::noted(
                AppView {
                    mouse_toggle_requested: false,
                    mouse_captured: !old(self)@.mouse_captured,
                    ..old(self)@
                },
                if old(self)@.mouse_captured {
                    "selection mode - select and copy with the mouse; ctrl+y to re-enable wheel scrolling"@
                } else {
                    "mouse capture on - wheel scrolls; ctrl+y to select/copy text"@
                },
            ),
    {
        self.mouse_toggle_requested = false;
        self.mouse_captured = !self.mouse_captured;
        if self.mouse_captured {
            self.notice("mouse capture on - wheel scrolls; ctrl+y to select/copy text".to_owned());
        } else {
            self.notice(
                "selection mode - select and copy with the mouse; ctrl+y to re-enable wheel scrolling".to_owned(),
            );
        }
        self.mouse_captured
    }
}

fn contains(area: Area, column: u16, row: u16) -> (r: bool)
    ensures
        r == row_at(area, 0, column, row) is Some,
        r ==> area.y <= row,
{
    area.x <= column && (column - area.x) < area.width && area.y <= row && (row - area.y)
        < area.height
}

fn find_entry(v: &Vec<Option<usize>>, top: usize, offset: usize) -> (r: Option<usize>)
    ensures
        r == entry(v@, top + offset),
{
    let n: usize = v.len();
    if top < n && offset < n - top {
        v[top + offset]
    } else {
        None
    }
}

fn find_answer(cells: &Vec<Cell>) -> (r: Option<String>)
    ensures
        resources::opt(r) == last_answer(cells@.map_values(|c: Cell| c@)),
{
    let ghost views = cells@.map_values(|c: Cell| c@);
    let mut i: usize = cells.len();
    assert(views.take(i as int) =~= views);
    while i > 0
        invariant
            i <= cells@.len(),
            views == cells@.map_values(|c: Cell| c@),
            last_answer(views) == last_answer(views.take(i as int)),
        decreases i,
    {
        assert(views.take(i as int).drop_last() =~= views.take(i - 1));
        assert(views.take(i as int).last() == cells@[i - 1]@);
        if let Cell::Answer { text } = &cells[i - 1] {
            return Some(text.clone());
        }
        i -= 1;
    }
    None
}

// ---------------------------------------------------------------------------
// Laws
// ---------------------------------------------------------------------------

/// One cannot scroll past either end.
pub proof fn law_scrolling_stays_on_the_page(v: AppView, delta: int)
    ensures
        0 <= scrolled(v, delta).scroll <= max_scroll(v),
{
}

/// Scrolling up and down again by as much leads back, unless an end was in
/// the way.
pub proof fn law_scrolling_back_undoes_scrolling(v: AppView, rows: int)
    requires
        0 <= rows,
        v.scroll + rows <= max_scroll(v),
    ensures
        scrolled(scrolled(v, rows), -rows) == v,
{
}

/// Enter with a visible popup submits nothing.
pub proof fn law_accepting_submits_nothing(v: AppView)
    requires
        autocomplete::is_visible(v.popup),
    ensures
        after_key(v, Key::Enter, false, false).0.pending_prompt == v.pending_prompt,
        after_key(v, Key::Enter, false, false).0.cells == v.cells,
        after_key(v, Key::Enter, false, false).0.should_quit == v.should_quit,
{
}

/// Escape closes a visible popup and does nothing else: it does not abort
/// the run.
pub proof fn law_escape_closes_the_popup_first(v: AppView)
    requires
        autocomplete::is_visible(v.popup),
    ensures
        after_key(v, Key::Esc, false, false).0 == popup_closed(v),
{
}

/// Pasted text is put into the input and never submitted, whatever it
/// holds.
pub proof fn law_pasting_submits_nothing(v: AppView, s: String)
    ensures
        after_terminal(v, TerminalEvent::Paste(s)).0 == with_input(
            v,
            input::replaced(v.input, v.input.cursor, v.input.cursor, s@),
        ),
{
}

/// While a run is under way a prompt starts no other one.
pub proof fn law_prompts_wait_for_the_run(v: AppView, s: Seq<char>)
    requires
        v.running,
    ensures
        sent(v, s).pending_prompt == v.pending_prompt,
        sent(v, s).requests == v.requests.push(RequestView::Steer(s)),
{
}

/// Built-in commands never reach the model.
pub proof fn law_builtins_stay_local(v: AppView, line: Seq<char>)
    requires
        text::trim(line).len() > 0,
        text::trim(line)[0] == '/',
        builtins::after_builtin(
            v,
            text::head_and_rest(text::trim(line).skip(1)).0,
            text::trim(text::head_and_rest(text::trim(line).skip(1)).1),
        ) is Some,
    ensures
        dispatched(v, line).pending_prompt == v.pending_prompt,
{
    reveal(dispatched);
    reveal(builtins::after_builtin);
    reveal_strlit("exit");
    reveal_strlit("quit");
}

/// A prompt that is typed while nothing runs goes to the agent, as it was
/// typed but for the white space around it; nothing else changes but that
/// the view goes to the end.
pub proof fn law_prompts_go_to_the_agent(v: AppView, line: Seq<char>)
    requires
        !v.running,
        !text::is_blank(line),
        text::trim(line)[0] != '/',
        text::trim(line) != "exit"@ && text::trim(line) != "quit"@,
    ensures
        dispatched(v, line) == (AppView { pending_prompt: Some(text::trim(line)), scroll: 0, ..v }),
{
    reveal(dispatched);
}

/// A line with nothing on it does nothing, and the words for leaving leave.
pub proof fn law_blank_lines_do_nothing(v: AppView, line: Seq<char>)
    ensures
        text::is_blank(line) ==> dispatched(v, line) == v,
        text::trim(line) == "exit"@ || text::trim(line) == "quit"@ ==> dispatched(v, line) == (
        AppView { should_quit: true, ..v }),
{
    reveal(dispatched);
    reveal_strlit("exit");
    reveal_strlit("quit");
}

/// A command that is not the program's own is sent as its template says, or
/// as it was typed where there is none.
pub proof fn law_other_commands_are_prompts(v: AppView, line: Seq<char>)
    requires
        !v.running,
        !text::is_blank(line),
        text::trim(line)[0] == '/',
        builtins::after_builtin(
            v,
            text::head_and_rest(text::trim(line).skip(1)).0,
            text::trim(text::head_and_rest(text::trim(line).skip(1)).1),
        ) is None,
    ensures
        commands::expanded(text::trim(line), v.meta.templates) is None
            ==> dispatched(v, line).pending_prompt == Some(text::trim(line)),
        commands::expanded(text::trim(line), v.meta.templates) is Some
            ==> dispatched(v, line).pending_prompt == commands::expanded(
            text::trim(line),
            v.meta.templates,
        ),
{
    reveal(dispatched);
    reveal_strlit("exit");
    reveal_strlit("quit");
    assert("exit"@[0] == 'e' && "quit"@[0] == 'q');
}

/// What is submitted leaves the input empty and stays in the history.
pub proof fn law_submitting_takes_the_input(v: AppView)
    requires
        !v.running,
        !text::is_blank(v.input.text),
        text::trim(v.input.text)[0] != '/',
        text::trim(v.input.text) != "exit"@ && text::trim(v.input.text) != "quit"@,
        !autocomplete::is_visible(v.popup),
    ensures
        ({
            let after = after_key(v, Key::Enter, false, false).0;
            &&& after.pending_prompt == Some(text::trim(v.input.text))
            &&& after.input.text.len() == 0
            &&& after.input.cursor == 0
            &&& after.input.history.len() > 0 && after.input.history.last() == v.input.text
            &&& after.cells == v.cells
        }),
{
    law_prompts_go_to_the_agent(taken(v), v.input.text);
}

/// A character that is typed stands where the cursor was, with the cursor
/// behind it, and the text around it stays; so does a pasted text.
pub proof fn law_what_is_typed_is_inserted(v: AppView, c: char, s: String)
    requires
        input::input_ok(v.input),
    ensures
        ({
            let before = v.input.text.take(v.input.cursor);
            let behind = v.input.text.skip(v.input.cursor);
            let typed = after_key(v, Key::Char(c), false, false).0.input;
            let pasted = after_terminal(v, TerminalEvent::Paste(s)).0.input;
            let split = after_plain_key(v, Key::Enter, false, true).0.input;
            &&& typed.text == before + seq![c] + behind && typed.cursor == v.input.cursor + 1
            &&& pasted.text == before + s@ + behind && pasted.cursor == v.input.cursor + s@.len()
            &&& split.text == before + seq!['\n'] + behind && split.cursor == v.input.cursor + 1
        }),
{
}

proof fn lemma_last_answer(cells: Seq<CellView>, i: int)
    requires
        0 <= i < cells.len(),
        cells[i] is Answer,
        forall|k: int| i < k < cells.len() ==> !((#[trigger] cells[k]) is Answer),
    ensures
        last_answer(cells) == Some(cells[i]->Answer_0),
    decreases cells.len(),
{
    if i < cells.len() - 1 {
        assert(!(cells[cells.len() - 1] is Answer));
        assert forall|k: int| i < k < cells.drop_last().len() implies !((
        #[trigger] cells.drop_last()[k]) is Answer) by {
            assert(cells.drop_last()[k] == cells[k]);
        }
        lemma_last_answer(cells.drop_last(), i);
    }
}

proof fn lemma_no_answer(cells: Seq<CellView>)
    requires
        forall|k: int| 0 <= k < cells.len() ==> !((#[trigger] cells[k]) is Answer),
    ensures
        last_answer(cells) is None,
    decreases cells.len(),
{
    if cells.len() > 0 {
        assert(!(cells[cells.len() - 1] is Answer));
        assert forall|k: int| 0 <= k < cells.drop_last().len() implies !((
        #[trigger] cells.drop_last()[k]) is Answer) by {
            assert(cells.drop_last()[k] == cells[k]);
        }
        lemma_no_answer(cells.drop_last());
    }
}

/// The latest answer is copied where nothing is selected, and the text of
/// the selected cell otherwise. Copying changes no cell, it only says so.
pub proof fn law_the_latest_answer_is_copied(v: AppView, i: int)
    requires
        v.selected is None,
        0 <= i < v.cells.len(),
        v.cells[i] is Answer,
        forall|k: int| i < k < v.cells.len() ==> !((#[trigger] v.cells[k]) is Answer),
    ensures
        copied(v).pending_copy == Some(v.cells[i]->Answer_0),
        copied(v).cells == v.cells.push(CellView::Notice("copied to the clipboard"@)),
{
    lemma_last_answer(v.cells, i);
}

/// Where there is no answer and nothing is selected, nothing is copied.
pub proof fn law_without_an_answer_nothing_is_copied(v: AppView)
    requires
        v.selected is None,
        forall|k: int| 0 <= k < v.cells.len() ==> !((#[trigger] v.cells[k]) is Answer),
    ensures
        copied(v).pending_copy == v.pending_copy,
        copied(v).cells == v.cells.push(CellView::Notice("nothing to copy"@)),
{
    lemma_no_answer(v.cells);
}

/// The wheel moves the view by three rows and a page key by half a page, as
/// far as there is something to see; nothing else changes.
pub proof fn law_the_wheel_moves_three_rows(v: AppView)
    ensures
        v.scroll + 3 <= max_scroll(v) ==> after_terminal(v, TerminalEvent::WheelUp).0 == (AppView {
            scroll: (v.scroll + 3) as usize,
            ..v
        }),
        3 <= v.scroll <= max_scroll(v) ==> after_terminal(v, TerminalEvent::WheelDown).0 == (
        AppView { scroll: (v.scroll - 3) as usize, ..v }),
        v.scroll < 3 ==> after_terminal(v, TerminalEvent::WheelDown).0.scroll == 0,
        v.scroll + v.shown.chat.height / 2 <= max_scroll(v) && v.shown.chat.height >= 2
            ==> after_plain_key(v, Key::PageUp, false, false).0.scroll == v.scroll
            + v.shown.chat.height / 2,
{
}

/// A click in the conversation selects what stands in that row, a click on a
/// call in the other pane opens or closes it, and any other click changes
/// nothing.
pub proof fn law_clicks_hit_what_is_shown(v: AppView, column: u16, row: u16)
    ensures
        ({
            let chat = v.shown.chat;
            let in_chat = chat.x <= column < chat.x + chat.width && chat.y <= row < chat.y
                + chat.height;
            let line = v.shown.top_line + (row - chat.y);
            &&& in_chat && line < v.shown.line_cells@.len() ==> clicked(v, column, row) == (AppView {
                selected: v.shown.line_cells@[line],
                ..v
            })
            &&& !in_chat ==> clicked(v, column, row).selected == v.selected
            &&& !in_chat && v.shown.tools is None ==> clicked(v, column, row) == v
            &&& clicked(v, column, row).cells.len() == v.cells.len()
            &&& clicked(v, column, row).input == v.input
            &&& forall|k: int|
                0 <= k < v.cells.len() && !(v.cells[k] is Tool) ==> (#[trigger] clicked(
                    v,
                    column,
                    row,
                ).cells[k]) == v.cells[k]
        }),
{
}

/// A run is aborted by escape and by ctrl-c; without a run ctrl-c leaves the
/// program.
pub proof fn law_runs_can_be_aborted(v: AppView)
    requires
        !autocomplete::is_visible(v.popup),
    ensures
        v.running ==> after_key(v, Key::Esc, false, false).0.requests == v.requests.push(
            RequestView::Abort,
        ),
        v.running ==> after_key(v, Key::Char('c'), true, false).0.requests == v.requests.push(
            RequestView::Abort,
        ) && after_key(v, Key::Char('c'), true, false).0.should_quit == v.should_quit,
        !v.running ==> after_key(v, Key::Char('c'), true, false).0 == (AppView {
            should_quit: true,
            ..v
        }),
        !v.running && v.login is None ==> after_key(v, Key::Esc, false, false).0 == (AppView {
            selected: None,
            ..v
        }),
{
}

} // verus!
