//! Inline markdown: one line of text to styled segments.
//!
//! Delimiters toggle flags, and the text between two toggles shares one
//! style. Every accent is a patch on the base style. A delimiter that is not
//! closed styles the rest of the line: in a stream the closing half may just
//! not have arrived yet.
use vstd::prelude::*;

use crate::lines::{Span, SpanView};
use crate::text::{find_char, is_space, string_of};
use crate::theme::Style;
use crate::{lines, text, theme};

verus! {

/// Whether a character is alphanumeric by Unicode.
pub uninterp spec fn is_alphanumeric(c: char) -> bool;

/// `char::is_alphanumeric` of std. It depends on the character alone; of the
/// ASCII characters it holds of the letters and the digits.
#[verifier::external_body]
fn alphanumeric(c: char) -> (r: bool)
    ensures
        r == is_alphanumeric(c),
        c < '\u{80}' ==> r == (('0' <= c && c <= '9') || ('A' <= c && c <= 'Z') || ('a' <= c && c
            <= 'z')),
{
    c.is_alphanumeric()
}

/// The ASCII punctuation characters.
pub open spec fn is_punctuation(c: char) -> bool {
    ||| '!' <= c <= '/'
    ||| ':' <= c <= '@'
    ||| '[' <= c <= '`'
    ||| '{' <= c <= '~'
}

/// Whether a character is ASCII punctuation.
pub fn punctuation(c: char) -> (r: bool)
    ensures
        r == is_punctuation(c),
{
    ('!' <= c && c <= '/') || (':' <= c && c <= '@') || ('[' <= c && c <= '`') || ('{' <= c && c
        <= '~')
}

/// The base style with the accents that are switched on.
pub open spec fn accented(base: Style, bold: bool, italic: bool, strike: bool) -> Style {
    let a = if bold {
        base.patch(theme::md_bold())
    } else {
        base
    };
    let b = if italic {
        a.patch(theme::md_italic())
    } else {
        a
    };
    if strike {
        b.patch(theme::md_strike())
    } else {
        b
    }
}

/// The effective style for the current flags.
pub fn inline_style(base: Style, bold: bool, italic: bool, strike: bool) -> (r: Style)
    ensures
        r == accented(base, bold, italic, strike),
{
    let mut style = base;
    if bold {
        style = style.patch(theme::md_bold());
    }
    if italic {
        style = style.patch(theme::md_italic());
    }
    if strike {
        style = style.patch(theme::md_strike());
    }
    style
}

// ---------------------------------------------------------------------------
// Links
// ---------------------------------------------------------------------------

/// A link `[label](target)` in a text: its label, its target, and where the
/// text goes on behind it.
pub struct LinkView {
    pub label: Seq<char>,
    pub url: Seq<char>,
    pub next: int,
}

/// The link that starts at `at`, if one does. Neither the label nor the
/// target nests: the label ends at the first `]`, the target at the first
/// `)`.
pub open spec fn link_at(s: Seq<char>, at: int) -> Option<LinkView> {
    let close = text::find_from(s, ']', at);
    if close + 1 < s.len() && s[close + 1] == '(' {
        let end = text::find_from(s, ')', close + 2);
        if end < s.len() {
            Some(
                LinkView {
                    label: s.subrange(at + 1, close),
                    url: s.subrange(close + 2, end),
                    next: end + 1,
                },
            )
        } else {
            None
        }
    } else {
        None
    }
}

/// Parses the link that starts at `at`: label, target, and the number of
/// characters it takes.
pub fn parse_link(chars: &Vec<char>, at: usize) -> (r: Option<(String, String, usize)>)
    requires
        at < chars@.len(),
        chars@[at as int] == '[',
    ensures
        r is Some <==> link_at(chars@, at as int) is Some,
        r matches Some(l) ==> ({
            let link = link_at(chars@, at as int).unwrap();
            l.0@ == link.label && l.1@ == link.url && at + l.2 == link.next && l.2 > 0
                && link.next <= chars@.len()
        }),
{
    proof {
        text::lemma_find_from(chars@, ']', at as int);
    }
    let close: usize = find_char(chars, ']', at);
    if close >= chars.len() || close + 1 >= chars.len() || chars[close + 1] != '(' {
        return None;
    }
    proof {
        text::lemma_find_from(chars@, ')', close + 2);
    }
    let end: usize = find_char(chars, ')', close + 2);
    if end >= chars.len() {
        return None;
    }
    let label = string_of(chars, at + 1, close);
    let url = string_of(chars, close + 2, end);
    Some((label, url, end + 1 - at))
}

// ---------------------------------------------------------------------------
// The scan
// ---------------------------------------------------------------------------

/// Where the scan of a line stands: finished segments, pending text, flags.
pub struct InlineView {
    pub segments: Seq<SpanView>,
    pub current: Seq<char>,
    pub bold: bool,
    pub italic: bool,
    pub strike: bool,
    pub code: bool,
}

/// The segments once the pending text is closed off in a style.
pub open spec fn flushed(segments: Seq<SpanView>, current: Seq<char>, style: Style) -> Seq<
    SpanView,
> {
    if current.len() > 0 {
        segments.push(SpanView { content: current, style })
    } else {
        segments
    }
}

/// The scan with the pending text closed off in a style.
pub open spec fn flush_view(st: InlineView, style: Style) -> InlineView {
    InlineView {
        segments: flushed(st.segments, st.current, style),
        current: Seq::empty(),
        ..st
    }
}

/// The scan with one more pending character.
pub open spec fn keep(st: InlineView, c: char) -> InlineView {
    InlineView { current: st.current.push(c), ..st }
}

/// Whether a single `*` or `_` at `i` is a delimiter. An underscore inside a
/// word is not; else it opens before a character that is no space and closes
/// after one.
pub open spec fn is_single_delimiter(s: Seq<char>, i: int, italic: bool) -> bool {
    let intraword = s[i] == '_' && i > 0 && is_alphanumeric(s[i - 1]) && i + 1 < s.len()
        && is_alphanumeric(s[i + 1]);
    let can_open = i + 1 < s.len() && !text::is_white_space(s[i + 1]);
    let can_close = i > 0 && !text::is_white_space(s[i - 1]);
    !intraword && (if italic {
        can_close
    } else {
        can_open
    })
}

/// The segments of a link: its label, and its target where that says more.
pub open spec fn with_link(segments: Seq<SpanView>, link: LinkView, base: Style) -> Seq<SpanView> {
    let labelled = segments.push(
        SpanView { content: link.label, style: base.patch(theme::md_link()) },
    );
    if link.url.len() > 0 && link.url != link.label {
        labelled.push(
            SpanView {
                content: " ("@ + link.url + ")"@,
                style: base.patch(theme::md_link_url()),
            },
        )
    } else {
        labelled
    }
}

/// One step of the scan at position `i`: where it goes on, and its state
/// there.
pub open spec fn inline_step(s: Seq<char>, i: int, base: Style, st: InlineView) -> (
    int,
    InlineView,
) {
    let c = s[i];
    let style = accented(base, st.bold, st.italic, st.strike);
    let doubled = i + 1 < s.len() && s[i + 1] == c;
    if st.code {
        if c == '`' {
            (i + 1, InlineView { code: false, ..flush_view(st, base.patch(theme::md_code())) })
        } else {
            (i + 1, keep(st, c))
        }
    } else if c == '\\' && i + 1 < s.len() && is_punctuation(s[i + 1]) {
        (i + 2, keep(st, s[i + 1]))
    } else if c == '`' {
        (i + 1, InlineView { code: true, ..flush_view(st, style) })
    } else if c == '~' && doubled {
        (i + 2, InlineView { strike: !st.strike, ..flush_view(st, style) })
    } else if (c == '*' || c == '_') && doubled {
        (i + 2, InlineView { bold: !st.bold, ..flush_view(st, style) })
    } else if (c == '*' || c == '_') && is_single_delimiter(s, i, st.italic) {
        (i + 1, InlineView { italic: !st.italic, ..flush_view(st, style) })
    } else if c == '[' && link_at(s, i) is Some {
        let link = link_at(s, i).unwrap();
        let f = flush_view(st, style);
        (link.next, InlineView { segments: with_link(f.segments, link, base), ..f })
    } else {
        (i + 1, keep(st, c))
    }
}

/// A step goes on.
pub proof fn lemma_step_advances(s: Seq<char>, i: int, base: Style, st: InlineView)
    requires
        0 <= i < s.len(),
    ensures
        i < inline_step(s, i, base, st).0 <= s.len(),
{
    if s[i] == '[' {
        text::lemma_find_from(s, ']', i);
        let close = text::find_from(s, ']', i);
        if close + 1 < s.len() {
            text::lemma_find_from(s, ')', close + 2);
        }
    }
}

/// What the scan gives at the end of the line.
pub open spec fn inline_end(base: Style, st: InlineView) -> Seq<SpanView> {
    let style = if st.code {
        base.patch(theme::md_code())
    } else {
        accented(base, st.bold, st.italic, st.strike)
    };
    let segments = flushed(st.segments, st.current, style);
    if segments.len() == 0 {
        seq![SpanView { content: Seq::empty(), style: base }]
    } else {
        segments
    }
}

/// What the scan gives from `i` on.
pub open spec fn inline_from(s: Seq<char>, i: int, base: Style, st: InlineView) -> Seq<SpanView>
    decreases s.len() - i,
{
    proof {
        if 0 <= i < s.len() {
            lemma_step_advances(s, i, base, st);
        }
    }
    if i < 0 || i >= s.len() {
        inline_end(base, st)
    } else {
        let (next, after) = inline_step(s, i, base, st);
        inline_from(s, next, base, after)
    }
}

/// The scan at the start of a line.
pub open spec fn inline_start() -> InlineView {
    InlineView {
        segments: Seq::empty(),
        current: Seq::empty(),
        bold: false,
        italic: false,
        strike: false,
        code: false,
    }
}

/// The styled segments of a line.
pub open spec fn inline_of(s: Seq<char>, base: Style) -> Seq<SpanView> {
    inline_from(s, 0, base, inline_start())
}

/// Where the scan of a line stands.
struct Inline {
    segments: Vec<Span>,
    current: String,
    bold: bool,
    italic: bool,
    strike: bool,
    code: bool,
}

impl View for Inline {
    type V = InlineView;

    closed spec fn view(&self) -> InlineView {
        InlineView {
            segments: lines::span_views(self.segments@),
            current: self.current@,
            bold: self.bold,
            italic: self.italic,
            strike: self.strike,
            code: self.code,
        }
    }
}

/// Closes the pending run of characters into a segment.
fn flush(st: &mut Inline, style: Style)
    ensures
        final(st)@ == flush_view(old(st)@, style),
{
    broadcast use lines::group_views;

    let mut content = String::new();
    std::mem::swap(&mut content, &mut st.current);
    if !content.as_str().is_empty() {
        st.segments.push(lines::span(content, style));
    }
    assert(st@.current =~= Seq::empty());
}

/// One step of the scan.
fn step(chars: &Vec<char>, i: usize, base: Style, st: &mut Inline) -> (next: usize)
    requires
        i < chars@.len(),
    ensures
        (next as int, final(st)@) == inline_step(chars@, i as int, base, old(st)@),
        i < next <= chars@.len(),
{
    broadcast use lines::group_views;

    let n: usize = chars.len();
    let c = chars[i];
    if st.code {
        if c == '`' {
            flush(st, base.patch(theme::md_code()));
            st.code = false;
        } else {
            st.current.push(c);
        }
        return i + 1;
    }
    let style = inline_style(base, st.bold, st.italic, st.strike);
    let doubled = i + 1 < n && chars[i + 1] == c;
    if c == '\\' && i + 1 < n && punctuation(chars[i + 1]) {
        st.current.push(chars[i + 1]);
        return i + 2;
    }
    if c == '`' {
        flush(st, style);
        st.code = true;
        return i + 1;
    }
    if c == '~' && doubled {
        flush(st, style);
        st.strike = !st.strike;
        return i + 2;
    }
    if c == '*' || c == '_' {
        if doubled {
            flush(st, style);
            st.bold = !st.bold;
            return i + 2;
        }
        let intraword = c == '_' && i > 0 && alphanumeric(chars[i - 1]) && i + 1 < chars.len()
            && alphanumeric(chars[i + 1]);
        let can_open = i + 1 < n && !is_space(chars[i + 1]);
        let can_close = i > 0 && !is_space(chars[i - 1]);
        if !intraword && ((!st.italic && can_open) || (st.italic && can_close)) {
            flush(st, style);
            st.italic = !st.italic;
        } else {
            st.current.push(c);
        }
        return i + 1;
    }
    if c == '[' {
        match parse_link(chars, i) {
            Some((label, url, consumed)) => {
                flush(st, style);
                let differs = !url.as_str().is_empty() && url != label;
                st.segments.push(lines::span(label, base.patch(theme::md_link())));
                if differs {
                    st.segments.push(
                        lines::span(
                            text::concat3(" (", url.as_str(), ")"),
                            base.patch(theme::md_link_url()),
                        ),
                    );
                }
                return i + consumed;
            },
            None => {},
        }
    }
    st.current.push(c);
    i + 1
}

/// Splits one line of markdown into styled segments.
pub fn inline_spans(chars: &Vec<char>, base: Style) -> (r: Vec<Span>)
    ensures
        lines::span_views(r@) == inline_of(chars@, base),
        r@.len() >= 1,
{
    broadcast use lines::group_views;

    let mut st = Inline {
        segments: Vec::new(),
        current: String::new(),
        bold: false,
        italic: false,
        strike: false,
        code: false,
    };
    let mut i: usize = 0;
    assert(st@.segments =~= Seq::empty());
    while i < chars.len()
        invariant
            i <= chars@.len(),
            inline_of(chars@, base) == inline_from(chars@, i as int, base, st@),
        decreases chars@.len() - i,
    {
        i = step(chars, i, base, &mut st);
    }
    let style = if st.code {
        base.patch(theme::md_code())
    } else {
        inline_style(base, st.bold, st.italic, st.strike)
    };
    flush(&mut st, style);
    if st.segments.len() == 0 {
        st.segments.push(lines::span(String::new(), base));
        assert(lines::span_views(st.segments@) =~= seq![
            SpanView { content: Seq::empty(), style: base },
        ]);
    }
    st.segments
}

// ---------------------------------------------------------------------------
// Laws
// ---------------------------------------------------------------------------

/// A character that never means anything but itself.
pub open spec fn is_literal(c: char) -> bool {
    c != '\\' && c != '`' && c != '~' && c != '*' && c != '_' && c != '['
}

proof fn lemma_literal_from(s: Seq<char>, i: int, base: Style)
    requires
        0 <= i <= s.len(),
        forall|k: int| 0 <= k < s.len() ==> is_literal(#[trigger] s[k]),
    ensures
        inline_from(s, i, base, InlineView { current: s.take(i), ..inline_start() }) == inline_end(
            base,
            InlineView { current: s, ..inline_start() },
        ),
    decreases s.len() - i,
{
    if i < s.len() {
        assert(is_literal(s[i]));
        assert(s.take(i).push(s[i]) =~= s.take(i + 1));
        lemma_literal_from(s, i + 1, base);
    } else {
        assert(s.take(i) =~= s);
    }
}

/// Text without any markup character is one segment in the base style.
pub proof fn law_literal_text_is_one_segment(s: Seq<char>, base: Style)
    requires
        forall|k: int| 0 <= k < s.len() ==> is_literal(#[trigger] s[k]),
    ensures
        inline_of(s, base) == seq![SpanView { content: s, style: base }],
{
    assert(s.take(0) =~= Seq::empty());
    lemma_literal_from(s, 0, base);
    assert(Seq::<SpanView>::empty().push(SpanView { content: s, style: base }) =~= seq![
        SpanView { content: s, style: base },
    ]);
    if s.len() == 0 {
        assert(s =~= Seq::empty());
    }
}

proof fn lemma_literal_run(s: Seq<char>, i: int, j: int, base: Style, st: InlineView)
    requires
        0 <= i <= j <= s.len(),
        !st.code,
        forall|k: int| i <= k < j ==> is_literal(#[trigger] s[k]),
    ensures
        inline_from(s, i, base, st) == inline_from(
            s,
            j,
            base,
            InlineView { current: st.current + s.subrange(i, j), ..st },
        ),
    decreases j - i,
{
    if i < j {
        assert(is_literal(s[i]));
        let next = keep(st, s[i]);
        lemma_literal_run(s, i + 1, j, base, next);
        assert(next.current + s.subrange(i + 1, j) =~= st.current + s.subrange(i, j));
    } else {
        assert(st.current + s.subrange(i, j) =~= st.current);
    }
}

proof fn lemma_code_run(s: Seq<char>, i: int, j: int, base: Style, st: InlineView)
    requires
        0 <= i <= j <= s.len(),
        st.code,
        forall|k: int| i <= k < j ==> #[trigger] s[k] != '`',
    ensures
        inline_from(s, i, base, st) == inline_from(
            s,
            j,
            base,
            InlineView { current: st.current + s.subrange(i, j), ..st },
        ),
    decreases j - i,
{
    if i < j {
        assert(s[i] != '`');
        let next = keep(st, s[i]);
        lemma_code_run(s, i + 1, j, base, next);
        assert(next.current + s.subrange(i + 1, j) =~= st.current + s.subrange(i, j));
    } else {
        assert(st.current + s.subrange(i, j) =~= st.current);
    }
}

/// Whether a text holds nothing but characters that mean themselves.
pub open spec fn all_literal(s: Seq<char>) -> bool {
    forall|k: int| 0 <= k < s.len() ==> is_literal(#[trigger] s[k])
}

/// Three segments: text in the style of the cell, text in another style, and
/// text in the style of the cell again.
pub open spec fn accent_between(
    a: Seq<char>,
    s: Seq<char>,
    b: Seq<char>,
    base: Style,
    style: Style,
) -> Seq<SpanView> {
    seq![
        SpanView { content: a, style: base },
        SpanView { content: s, style },
        SpanView { content: b, style: base },
    ]
}

proof fn lemma_delimited(
    a: Seq<char>,
    mark: Seq<char>,
    s: Seq<char>,
    b: Seq<char>,
    base: Style,
    bold: bool,
    italic: bool,
    strike: bool,
)
    requires
        a.len() > 0 && s.len() > 0 && b.len() > 0,
        all_literal(a) && all_literal(s) && all_literal(b),
        ({
            let t = a + mark + s + mark + b;
            let at = a.len() as int;
            let again = at + mark.len() + s.len();
            &&& 0 < mark.len()
            &&& forall|st: InlineView|
                #![trigger inline_step(t, at, base, st)]
                !st.code && !st.bold && !st.italic && !st.strike ==> inline_step(t, at, base, st)
                    == (at + mark.len(), (InlineView {
                    bold,
                    italic,
                    strike,
                    ..flush_view(st, base)
                }))
            &&& forall|st: InlineView|
                #![trigger inline_step(t, again, base, st)]
                !st.code && st.bold == bold && st.italic == italic && st.strike == strike
                    ==> inline_step(t, again, base, st) == (again + mark.len(), (InlineView {
                    bold: false,
                    italic: false,
                    strike: false,
                    ..flush_view(st, accented(base, bold, italic, strike))
                }))
        }),
    ensures
        inline_of(a + mark + s + mark + b, base) == accent_between(
            a,
            s,
            b,
            base,
            accented(base, bold, italic, strike),
        ),
{
    let t = a + mark + s + mark + b;
    let style = accented(base, bold, italic, strike);
    let at = a.len() as int;
    let from = at + mark.len();
    let again = from + s.len();
    let behind = again + mark.len();
    let st0 = inline_start();
    assert forall|k: int| 0 <= k < at implies is_literal(#[trigger] t[k]) by {
        assert(t[k] == a[k]);
    }
    lemma_literal_run(t, 0, at, base, st0);
    let st1 = InlineView { current: st0.current + t.subrange(0, at), ..st0 };
    assert(st1.current =~= a);
    let (n1, st2) = inline_step(t, at, base, st1);
    assert(st2.segments =~= seq![SpanView { content: a, style: base }]);
    assert forall|k: int| from <= k < again implies is_literal(#[trigger] t[k]) by {
        assert(t[k] == s[k - from]);
    }
    lemma_literal_run(t, from, again, base, st2);
    let st3 = InlineView { current: st2.current + t.subrange(from, again), ..st2 };
    assert(st3.current =~= s);
    let (n2, st4) = inline_step(t, again, base, st3);
    assert(st4.segments =~= seq![
        SpanView { content: a, style: base },
        SpanView { content: s, style },
    ]);
    assert forall|k: int| behind <= k < t.len() implies is_literal(#[trigger] t[k]) by {
        assert(t[k] == b[k - behind]);
    }
    lemma_literal_run(t, behind, t.len() as int, base, st4);
    let st5 = InlineView { current: st4.current + t.subrange(behind, t.len() as int), ..st4 };
    assert(st5.current =~= b);
    assert(inline_end(base, st5) =~= accent_between(a, s, b, base, style));
}

/// Text between two double asterisks or two double underscores is bold, and
/// text between two double tildes is struck through. The delimiters are not
/// shown, and the text around them keeps the style of the cell.
pub proof fn law_doubled_delimiters_style_what_they_enclose(
    a: Seq<char>,
    s: Seq<char>,
    b: Seq<char>,
    base: Style,
)
    requires
        a.len() > 0 && s.len() > 0 && b.len() > 0,
        all_literal(a) && all_literal(s) && all_literal(b),
    ensures
        inline_of(a + seq!['*', '*'] + s + seq!['*', '*'] + b, base) == accent_between(
            a,
            s,
            b,
            base,
            base.patch(theme::md_bold()),
        ),
        inline_of(a + seq!['_', '_'] + s + seq!['_', '_'] + b, base) == accent_between(
            a,
            s,
            b,
            base,
            base.patch(theme::md_bold()),
        ),
        inline_of(a + seq!['~', '~'] + s + seq!['~', '~'] + b, base) == accent_between(
            a,
            s,
            b,
            base,
            base.patch(theme::md_strike()),
        ),
{
    let at = a.len() as int;
    let again = at + 2 + s.len();
    let t = a + seq!['*', '*'] + s + seq!['*', '*'] + b;
    assert(t[at] == '*' && t[at + 1] == '*' && t[again] == '*' && t[again + 1] == '*');
    lemma_delimited(a, seq!['*', '*'], s, b, base, true, false, false);
    let u = a + seq!['_', '_'] + s + seq!['_', '_'] + b;
    assert(u[at] == '_' && u[at + 1] == '_' && u[again] == '_' && u[again + 1] == '_');
    lemma_delimited(a, seq!['_', '_'], s, b, base, true, false, false);
    let v = a + seq!['~', '~'] + s + seq!['~', '~'] + b;
    assert(v[at] == '~' && v[at + 1] == '~' && v[again] == '~' && v[again + 1] == '~');
    lemma_delimited(a, seq!['~', '~'], s, b, base, false, false, true);
}

/// Text between two asterisks that stand right at it is italic.
pub proof fn law_single_asterisks_make_italics(
    a: Seq<char>,
    s: Seq<char>,
    b: Seq<char>,
    base: Style,
)
    requires
        a.len() > 0 && s.len() > 0 && b.len() > 0,
        all_literal(a) && all_literal(s) && all_literal(b),
        !text::is_white_space(s[0]),
        !text::is_white_space(s.last()),
    ensures
        inline_of(a + seq!['*'] + s + seq!['*'] + b, base) == accent_between(
            a,
            s,
            b,
            base,
            base.patch(theme::md_italic()),
        ),
{
    let at = a.len() as int;
    let again = at + 1 + s.len();
    let t = a + seq!['*'] + s + seq!['*'] + b;
    assert(t[at] == '*' && t[again] == '*');
    assert(t[at + 1] == s[0]);
    assert(t[again - 1] == s.last());
    assert(t[again + 1] == b[0]);
    assert(is_literal(s[0]) && is_literal(b[0]));
    lemma_delimited(a, seq!['*'], s, b, base, false, true, false);
}

/// An asterisk with white space behind it opens nothing and is shown.
pub proof fn law_loose_asterisks_are_shown(a: Seq<char>, c: char, b: Seq<char>, base: Style)
    requires
        all_literal(a) && all_literal(b),
        text::is_white_space(c),
    ensures
        inline_of(a + seq!['*', c] + b, base) == seq![
            SpanView { content: a + seq!['*', c] + b, style: base },
        ],
{
    let t = a + seq!['*', c] + b;
    let at = a.len() as int;
    let st0 = inline_start();
    assert forall|k: int| 0 <= k < at implies is_literal(#[trigger] t[k]) by {
        assert(t[k] == a[k]);
    }
    lemma_literal_run(t, 0, at, base, st0);
    let st1 = InlineView { current: st0.current + t.subrange(0, at), ..st0 };
    assert(t[at] == '*' && t[at + 1] == c);
    let st2 = keep(st1, '*');
    assert(inline_step(t, at, base, st1) == (at + 1, st2));
    assert forall|k: int| at + 1 <= k < t.len() implies is_literal(#[trigger] t[k]) by {
        if k > at + 1 {
            assert(t[k] == b[k - at - 2]);
        }
    }
    lemma_literal_run(t, at + 1, t.len() as int, base, st2);
    let st3 = InlineView {
        current: st2.current + t.subrange(at + 1, t.len() as int),
        ..st2
    };
    assert(st3.current =~= t);
    assert(inline_end(base, st3) =~= seq![SpanView { content: t, style: base }]);
}

/// Text between two backticks is code, just as it is written: no markup
/// takes effect in it.
pub proof fn law_code_is_taken_as_written(a: Seq<char>, s: Seq<char>, b: Seq<char>, base: Style)
    requires
        a.len() > 0 && s.len() > 0 && b.len() > 0,
        all_literal(a) && all_literal(b),
        !s.contains('`'),
    ensures
        inline_of(a + seq!['`'] + s + seq!['`'] + b, base) == accent_between(
            a,
            s,
            b,
            base,
            base.patch(theme::md_code()),
        ),
{
    let t = a + seq!['`'] + s + seq!['`'] + b;
    let at = a.len() as int;
    let again = at + 1 + s.len();
    let st0 = inline_start();
    assert forall|k: int| 0 <= k < at implies is_literal(#[trigger] t[k]) by {
        assert(t[k] == a[k]);
    }
    lemma_literal_run(t, 0, at, base, st0);
    let st1 = InlineView { current: st0.current + t.subrange(0, at), ..st0 };
    assert(st1.current =~= a);
    assert(t[at] == '`' && t[again] == '`');
    let st2 = inline_step(t, at, base, st1).1;
    assert(st2.segments =~= seq![SpanView { content: a, style: base }]);
    assert forall|k: int| at + 1 <= k < again implies #[trigger] t[k] != '`' by {
        assert(t[k] == s[k - at - 1]);
        assert(s.contains(s[k - at - 1]));
    }
    lemma_code_run(t, at + 1, again, base, st2);
    let st3 = InlineView { current: st2.current + t.subrange(at + 1, again), ..st2 };
    assert(st3.current =~= s);
    let st4 = inline_step(t, again, base, st3).1;
    let style = base.patch(theme::md_code());
    assert(st4.segments =~= seq![
        SpanView { content: a, style: base },
        SpanView { content: s, style },
    ]);
    assert forall|k: int| again + 1 <= k < t.len() implies is_literal(#[trigger] t[k]) by {
        assert(t[k] == b[k - again - 1]);
    }
    lemma_literal_run(t, again + 1, t.len() as int, base, st4);
    let st5 = InlineView {
        current: st4.current + t.subrange(again + 1, t.len() as int),
        ..st4
    };
    assert(st5.current =~= b);
    assert(inline_end(base, st5) =~= accent_between(a, s, b, base, style));
}

/// A link shows its label, and its target behind it in brackets where that
/// says more.
pub proof fn law_links_show_label_and_target(
    a: Seq<char>,
    label: Seq<char>,
    url: Seq<char>,
    b: Seq<char>,
    base: Style,
)
    requires
        a.len() > 0 && b.len() > 0,
        all_literal(a) && all_literal(b),
        !label.contains(']'),
        !url.contains(')'),
    ensures
        inline_of(a + seq!['['] + label + seq![']', '('] + url + seq![')'] + b, base) == (if url.len()
            > 0 && url != label {
            seq![
                SpanView { content: a, style: base },
                SpanView { content: label, style: base.patch(theme::md_link()) },
                SpanView {
                    content: seq![' ', '('] + url + seq![')'],
                    style: base.patch(theme::md_link_url()),
                },
                SpanView { content: b, style: base },
            ]
        } else {
            accent_between(a, label, b, base, base.patch(theme::md_link()))
        }),
{
    let t = a + seq!['['] + label + seq![']', '('] + url + seq![')'] + b;
    let at = a.len() as int;
    let close = at + 1 + label.len();
    let end = close + 2 + url.len();
    assert(t[at] == '[' && t[close] == ']' && t[close + 1] == '(' && t[end] == ')');
    assert forall|k: int| at <= k < close implies t[k] != ']' by {
        if k > at {
            assert(t[k] == label[k - at - 1]);
            assert(label.contains(label[k - at - 1]));
        }
    }
    assert forall|k: int| close + 2 <= k < end implies t[k] != ')' by {
        assert(t[k] == url[k - close - 2]);
        assert(url.contains(url[k - close - 2]));
    }
    text::lemma_find_from_is(t, ']', at, close);
    text::lemma_find_from_is(t, ')', close + 2, end);
    assert(t.subrange(at + 1, close) =~= label);
    assert(t.subrange(close + 2, end) =~= url);
    let st0 = inline_start();
    assert forall|k: int| 0 <= k < at implies is_literal(#[trigger] t[k]) by {
        assert(t[k] == a[k]);
    }
    lemma_literal_run(t, 0, at, base, st0);
    let st1 = InlineView { current: st0.current + t.subrange(0, at), ..st0 };
    assert(st1.current =~= a);
    let st2 = inline_step(t, at, base, st1).1;
    reveal_strlit(" (");
    reveal_strlit(")");
    assert(" ("@ =~= seq![' ', '(']);
    assert(")"@ =~= seq![')']);
    assert forall|k: int| end + 1 <= k < t.len() implies is_literal(#[trigger] t[k]) by {
        assert(t[k] == b[k - end - 1]);
    }
    lemma_literal_run(t, end + 1, t.len() as int, base, st2);
    let st3 = InlineView { current: st2.current + t.subrange(end + 1, t.len() as int), ..st2 };
    assert(st3.current =~= b);
    if url.len() > 0 && url != label {
        assert(inline_end(base, st3) =~= seq![
            SpanView { content: a, style: base },
            SpanView { content: label, style: base.patch(theme::md_link()) },
            SpanView {
                content: seq![' ', '('] + url + seq![')'],
                style: base.patch(theme::md_link_url()),
            },
            SpanView { content: b, style: base },
        ]);
    } else {
        assert(inline_end(base, st3) =~= accent_between(
            a,
            label,
            b,
            base,
            base.patch(theme::md_link()),
        ));
    }
}

/// A backslash takes the meaning from the punctuation behind it and is not
/// shown itself.
pub proof fn law_escaped_punctuation_is_literal(a: Seq<char>, c: char, b: Seq<char>, base: Style)
    requires
        all_literal(a) && all_literal(b),
        is_punctuation(c),
    ensures
        inline_of(a + seq!['\\', c] + b, base) == seq![
            SpanView { content: a + seq![c] + b, style: base },
        ],
{
    let t = a + seq!['\\', c] + b;
    let at = a.len() as int;
    let st0 = inline_start();
    assert forall|k: int| 0 <= k < at implies is_literal(#[trigger] t[k]) by {
        assert(t[k] == a[k]);
    }
    lemma_literal_run(t, 0, at, base, st0);
    let st1 = InlineView { current: st0.current + t.subrange(0, at), ..st0 };
    assert(t[at] == '\\' && t[at + 1] == c);
    let st2 = keep(st1, c);
    assert(inline_step(t, at, base, st1) == (at + 2, st2));
    assert forall|k: int| at + 2 <= k < t.len() implies is_literal(#[trigger] t[k]) by {
        assert(t[k] == b[k - at - 2]);
    }
    lemma_literal_run(t, at + 2, t.len() as int, base, st2);
    let st3 = InlineView {
        current: st2.current + t.subrange(at + 2, t.len() as int),
        ..st2
    };
    assert(st3.current =~= a + seq![c] + b);
    assert(inline_end(base, st3) =~= seq![
        SpanView { content: a + seq![c] + b, style: base },
    ]);
}

/// A delimiter that is not closed styles the rest of the line.
pub proof fn law_open_delimiters_style_the_rest(a: Seq<char>, s: Seq<char>, base: Style)
    requires
        a.len() > 0 && s.len() > 0,
        all_literal(a) && all_literal(s),
    ensures
        inline_of(a + seq!['*', '*'] + s, base) == seq![
            SpanView { content: a, style: base },
            SpanView { content: s, style: base.patch(theme::md_bold()) },
        ],
        inline_of(a + seq!['`'] + s, base) == seq![
            SpanView { content: a, style: base },
            SpanView { content: s, style: base.patch(theme::md_code()) },
        ],
{
    let at = a.len() as int;
    let st0 = inline_start();
    let t = a + seq!['*', '*'] + s;
    assert forall|k: int| 0 <= k < at implies is_literal(#[trigger] t[k]) by {
        assert(t[k] == a[k]);
    }
    lemma_literal_run(t, 0, at, base, st0);
    let st1 = InlineView { current: st0.current + t.subrange(0, at), ..st0 };
    assert(st1.current =~= a);
    assert(t[at] == '*' && t[at + 1] == '*');
    let st2 = inline_step(t, at, base, st1).1;
    assert forall|k: int| at + 2 <= k < t.len() implies is_literal(#[trigger] t[k]) by {
        assert(t[k] == s[k - at - 2]);
    }
    lemma_literal_run(t, at + 2, t.len() as int, base, st2);
    let st3 = InlineView {
        current: st2.current + t.subrange(at + 2, t.len() as int),
        ..st2
    };
    assert(st3.current =~= s);
    assert(inline_end(base, st3) =~= seq![
        SpanView { content: a, style: base },
        SpanView { content: s, style: base.patch(theme::md_bold()) },
    ]);
    let u = a + seq!['`'] + s;
    assert forall|k: int| 0 <= k < at implies is_literal(#[trigger] u[k]) by {
        assert(u[k] == a[k]);
    }
    lemma_literal_run(u, 0, at, base, st0);
    let su1 = InlineView { current: st0.current + u.subrange(0, at), ..st0 };
    assert(su1.current =~= a);
    assert(u[at] == '`');
    let su2 = inline_step(u, at, base, su1).1;
    assert forall|k: int| at + 1 <= k < u.len() implies #[trigger] u[k] != '`' by {
        assert(u[k] == s[k - at - 1]);
        assert(is_literal(s[k - at - 1]));
    }
    lemma_code_run(u, at + 1, u.len() as int, base, su2);
    let su3 = InlineView {
        current: su2.current + u.subrange(at + 1, u.len() as int),
        ..su2
    };
    assert(su3.current =~= s);
    assert(inline_end(base, su3) =~= seq![
        SpanView { content: a, style: base },
        SpanView { content: s, style: base.patch(theme::md_code()) },
    ]);
}

} // verus!
