//! The palette: every style that the transcript and its chrome use, in one
//! place.
//!
//! - A task and its answer are the emphasized endpoints of a turn.
//! - Reasoning and tool traffic are the receded middle.
//! - Errors and notices keep their conventional terminal colors.
use vstd::prelude::*;

verus! {

/// The terminal colors in use.
#[derive(Clone, Copy, PartialEq, Eq, Structural, Debug)]
pub enum Color {
    Black,
    Red,
    Green,
    Yellow,
    Blue,
    Magenta,
    Cyan,
    DarkGray,
    LightGreen,
    Indexed(u8),
}

/// How a piece of text looks: colors where they are set, and the modifiers
/// that are switched on.
#[derive(Clone, Copy, PartialEq, Eq, Structural, Debug)]
pub struct Style {
    pub fg: Option<Color>,
    pub bg: Option<Color>,
    pub bold: bool,
    pub dim: bool,
    pub italic: bool,
    pub underlined: bool,
    pub reversed: bool,
    pub crossed_out: bool,
}

/// The style that sets nothing.
pub open spec fn spec_plain() -> Style {
    Style {
        fg: None,
        bg: None,
        bold: false,
        dim: false,
        italic: false,
        underlined: false,
        reversed: false,
        crossed_out: false,
    }
}

/// `over` wins where it sets a color; modifiers add up.
pub open spec fn spec_patch(under: Style, over: Style) -> Style {
    Style {
        fg: if over.fg is Some {
            over.fg
        } else {
            under.fg
        },
        bg: if over.bg is Some {
            over.bg
        } else {
            under.bg
        },
        bold: under.bold || over.bold,
        dim: under.dim || over.dim,
        italic: under.italic || over.italic,
        underlined: under.underlined || over.underlined,
        reversed: under.reversed || over.reversed,
        crossed_out: under.crossed_out || over.crossed_out,
    }
}

/// A style that only sets the foreground.
pub open spec fn spec_fg(c: Color) -> Style {
    Style { fg: Some(c), ..spec_plain() }
}

/// A style that only sets the background.
pub open spec fn spec_bg(c: Color) -> Style {
    Style { bg: Some(c), ..spec_plain() }
}

/// The style that sets nothing.
#[verifier::allow_in_spec]
pub fn plain() -> Style
    returns
        spec_plain(),
{
    Style {
        fg: None,
        bg: None,
        bold: false,
        dim: false,
        italic: false,
        underlined: false,
        reversed: false,
        crossed_out: false,
    }
}

/// A style that only sets the foreground.
#[verifier::allow_in_spec]
pub fn fg(c: Color) -> Style
    returns
        spec_fg(c),
{
    Style { fg: Some(c), ..plain() }
}

/// A style that only sets the background.
#[verifier::allow_in_spec]
pub fn bg(c: Color) -> Style
    returns
        spec_bg(c),
{
    Style { bg: Some(c), ..plain() }
}

impl Style {
    /// Lays `over` on this style: what it sets wins, what it leaves open
    /// shows through.
    #[verifier::allow_in_spec]
    pub fn patch(self, over: Style) -> Style
        returns
            spec_patch(self, over),
    {
        Style {
            fg: if over.fg.is_some() {
                over.fg
            } else {
                self.fg
            },
            bg: if over.bg.is_some() {
                over.bg
            } else {
                self.bg
            },
            bold: self.bold || over.bold,
            dim: self.dim || over.dim,
            italic: self.italic || over.italic,
            underlined: self.underlined || over.underlined,
            reversed: self.reversed || over.reversed,
            crossed_out: self.crossed_out || over.crossed_out,
        }
    }
}

/// The user's task opening a turn.
#[verifier::allow_in_spec]
pub fn task() -> Style
    returns
        spec_fg(Color::LightGreen),
{
    fg(Color::LightGreen)
}

/// Assistant prose between tool calls: plain.
#[verifier::allow_in_spec]
pub fn assistant() -> Style
    returns
        spec_plain(),
{
    plain()
}

/// The final answer of a turn.
#[verifier::allow_in_spec]
pub fn answer() -> Style
    returns
        spec_fg(Color::Magenta),
{
    fg(Color::Magenta)
}

/// Model reasoning: present but visually receded.
#[verifier::allow_in_spec]
pub fn reasoning() -> Style
    returns
        (Style { italic: true, ..spec_fg(Color::DarkGray) }),
{
    Style { italic: true, ..fg(Color::DarkGray) }
}

/// The header line of a tool call.
#[verifier::allow_in_spec]
pub fn tool_header() -> Style
    returns
        spec_fg(Color::Cyan),
{
    fg(Color::Cyan)
}

/// Detail lines: pending markers, tool output, overflow notes, usage.
#[verifier::allow_in_spec]
pub fn detail() -> Style
    returns
        spec_plain(),
{
    plain()
}

/// Errors and failed tool results.
#[verifier::allow_in_spec]
pub fn error() -> Style
    returns
        spec_fg(Color::Red),
{
    fg(Color::Red)
}

/// Status notices.
#[verifier::allow_in_spec]
pub fn notice() -> Style
    returns
        spec_fg(Color::Yellow),
{
    fg(Color::Yellow)
}

/// An added line of a diff.
#[verifier::allow_in_spec]
pub fn diff_add() -> Style
    returns
        spec_fg(Color::Green),
{
    fg(Color::Green)
}

/// A removed line of a diff.
#[verifier::allow_in_spec]
pub fn diff_del() -> Style
    returns
        spec_fg(Color::Red),
{
    fg(Color::Red)
}

/// An unchanged line of a diff.
#[verifier::allow_in_spec]
pub fn diff_ctx() -> Style
    returns
        spec_plain(),
{
    plain()
}

/// The input border while a run is active.
#[verifier::allow_in_spec]
pub fn input_border_busy() -> Style
    returns
        spec_fg(Color::Yellow),
{
    fg(Color::Yellow)
}

/// The input border while idle.
#[verifier::allow_in_spec]
pub fn input_border_idle() -> Style
    returns
        spec_fg(Color::DarkGray),
{
    fg(Color::DarkGray)
}

/// Box titles and the footer line.
#[verifier::allow_in_spec]
pub fn chrome() -> Style
    returns
        (Style { dim: true, ..spec_plain() }),
{
    Style { dim: true, ..plain() }
}

/// The overlay that counts the lines below while scrolled up.
#[verifier::allow_in_spec]
pub fn scroll_marker() -> Style
    returns
        (Style { bg: Some(Color::Yellow), ..spec_fg(Color::Black) }),
{
    Style { bg: Some(Color::Yellow), ..fg(Color::Black) }
}

/// Borders and titles of the two transcript panes.
#[verifier::allow_in_spec]
pub fn pane_border() -> Style
    returns
        spec_fg(Color::DarkGray),
{
    fg(Color::DarkGray)
}

/// The numbered rule that ties a reasoning step to its tool calls.
#[verifier::allow_in_spec]
pub fn step_rule() -> Style
    returns
        spec_fg(Color::DarkGray),
{
    fg(Color::DarkGray)
}

/// The background of the selected conversation block. It sets nothing but
/// the background, so that every span keeps its own color.
#[verifier::allow_in_spec]
pub fn selected() -> Style
    returns
        spec_bg(Color::Indexed(237)),
{
    bg(Color::Indexed(237))
}

/// The scrollbar thumb.
#[verifier::allow_in_spec]
pub fn scrollbar_thumb() -> Style
    returns
        spec_fg(Color::DarkGray),
{
    fg(Color::DarkGray)
}

/// The selected row of the completion popup.
#[verifier::allow_in_spec]
pub fn popup_selected() -> Style
    returns
        (Style { reversed: true, ..spec_plain() }),
{
    Style { reversed: true, ..plain() }
}

/// The other rows of the completion popup.
#[verifier::allow_in_spec]
pub fn popup_row() -> Style
    returns
        spec_fg(Color::Cyan),
{
    fg(Color::Cyan)
}

/// Headings of the first two levels.
#[verifier::allow_in_spec]
pub fn md_heading() -> Style
    returns
        (Style { bold: true, underlined: true, ..spec_plain() }),
{
    Style { bold: true, underlined: true, ..plain() }
}

/// Bold text, and the deeper headings.
#[verifier::allow_in_spec]
pub fn md_bold() -> Style
    returns
        (Style { bold: true, ..spec_plain() }),
{
    Style { bold: true, ..plain() }
}

/// Italic text.
#[verifier::allow_in_spec]
pub fn md_italic() -> Style
    returns
        (Style { italic: true, ..spec_plain() }),
{
    Style { italic: true, ..plain() }
}

/// Struck out text.
#[verifier::allow_in_spec]
pub fn md_strike() -> Style
    returns
        (Style { crossed_out: true, ..spec_plain() }),
{
    Style { crossed_out: true, ..plain() }
}

/// Inline code.
#[verifier::allow_in_spec]
pub fn md_code() -> Style
    returns
        spec_fg(Color::Cyan),
{
    fg(Color::Cyan)
}

/// Fenced code: a full width panel with a background of its own.
#[verifier::allow_in_spec]
pub fn md_code_block() -> Style
    returns
        spec_bg(Color::Indexed(235)),
{
    bg(Color::Indexed(235))
}

/// Quotations.
#[verifier::allow_in_spec]
pub fn md_quote() -> Style
    returns
        (Style { dim: true, italic: true, ..spec_plain() }),
{
    Style { dim: true, italic: true, ..plain() }
}

/// List bullets and numbers.
#[verifier::allow_in_spec]
pub fn md_bullet() -> Style
    returns
        spec_fg(Color::Cyan),
{
    fg(Color::Cyan)
}

/// The label of a link.
#[verifier::allow_in_spec]
pub fn md_link() -> Style
    returns
        (Style { underlined: true, ..spec_fg(Color::Blue) }),
{
    Style { underlined: true, ..fg(Color::Blue) }
}

/// The target shown behind a link whose label differs from it.
#[verifier::allow_in_spec]
pub fn md_link_url() -> Style
    returns
        (Style { dim: true, ..spec_plain() }),
{
    Style { dim: true, ..plain() }
}

/// Table separators and horizontal rules.
#[verifier::allow_in_spec]
pub fn md_rule() -> Style
    returns
        (Style { dim: true, ..spec_plain() }),
{
    Style { dim: true, ..plain() }
}

/// The header row of a table.
#[verifier::allow_in_spec]
pub fn md_table_header() -> Style
    returns
        (Style { bold: true, ..spec_plain() }),
{
    Style { bold: true, ..plain() }
}

/// Patching with a style that sets nothing changes nothing, and patching a
/// style that sets nothing gives the patch.
pub proof fn law_patch_identity(s: Style)
    ensures
        s.patch(plain()) == s,
        plain().patch(s) == s,
{
}

/// Patches stack: laying two styles on one after the other is laying on the
/// two patched together.
pub proof fn law_patch_associative(a: Style, b: Style, c: Style)
    ensures
        a.patch(b).patch(c) == a.patch(b.patch(c)),
{
}

/// An accent that sets no foreground leaves the color of the cell alone.
pub proof fn law_accents_keep_the_cell_color(base: Style)
    ensures
        base.patch(md_heading()).fg == base.fg,
        base.patch(md_bold()).fg == base.fg,
        base.patch(md_italic()).fg == base.fg,
        base.patch(md_strike()).fg == base.fg,
        base.patch(md_quote()).fg == base.fg,
        base.patch(md_table_header()).fg == base.fg,
        base.patch(selected()).fg == base.fg,
{
}

/// What is laid on wins where it sets a color, and nothing that is switched
/// on goes out.
pub proof fn law_patches_win(under: Style, over: Style)
    ensures
        over.fg is Some ==> under.patch(over).fg == over.fg,
        over.bg is Some ==> under.patch(over).bg == over.bg,
        over.fg is None ==> under.patch(over).fg == under.fg,
        over.bg is None ==> under.patch(over).bg == under.bg,
        under.patch(over).bold == (under.bold || over.bold),
        under.patch(over).dim == (under.dim || over.dim),
        under.patch(over).italic == (under.italic || over.italic),
        under.patch(over).underlined == (under.underlined || over.underlined),
        under.patch(over).reversed == (under.reversed || over.reversed),
        under.patch(over).crossed_out == (under.crossed_out || over.crossed_out),
{
}

/// Every accent of the markup shows on every cell, and no two of the inline
/// ones look alike on plain text.
pub proof fn law_accents_show(base: Style)
    ensures
        base.patch(md_bold()).bold,
        base.patch(md_italic()).italic,
        base.patch(md_strike()).crossed_out,
        base.patch(md_heading()).bold && base.patch(md_heading()).underlined,
        base.patch(md_quote()).italic && base.patch(md_quote()).dim,
        base.patch(md_code()).fg == Some(Color::Cyan),
        base.patch(md_link()).underlined && base.patch(md_link()).fg == Some(Color::Blue),
        base.patch(md_bullet()).fg == Some(Color::Cyan),
        base.patch(md_table_header()).bold,
        base.patch(selected()).bg == selected().bg && selected().bg is Some,
        md_code_block().bg is Some,
        diff_add() != diff_del() && diff_add() != diff_ctx() && diff_del() != diff_ctx(),
        error() != notice() && error() != detail() && task() != answer(),
{
}

} // verus!
