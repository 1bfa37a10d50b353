//! Word wrapping by display columns.
//!
//! A line is cut into words that own their trailing spaces, and the words are
//! filled greedily into rows. A word that is wider than a whole row is cut at
//! the column where the row is full.
use unicode_width::UnicodeWidthChar;
use vstd::prelude::*;

use crate::text::{chars_of, slice, to_text};

verus! {

/// The number of terminal columns that a character takes, or `None` for a
/// control character, as the crate `unicode-width` has it.
pub uninterp spec fn char_columns(c: char) -> Option<usize>;

/// `UnicodeWidthChar::width` of the crate `unicode-width`. It depends on the
/// character alone. A printable ASCII character takes one column, an ASCII
/// control character has no width, and no character takes more than three.
/// The ellipsis, the bullet, the quotation bar and the lines of a table belong
/// to the ambiguous characters, which take one column.
#[verifier::external_body]
fn char_width(c: char) -> (r: Option<usize>)
    ensures
        r == char_columns(c),
        r matches Some(w) ==> w <= 3,
        '\u{20}' <= c && c < '\u{7f}' ==> r == Some(1usize),
        c < '\u{20}' ==> r is None,
        is_drawn(c) ==> r == Some(1usize),
{
    UnicodeWidthChar::width(c)
}

/// The characters outside ASCII that are used to draw.
pub open spec fn is_drawn(c: char) -> bool {
    c == '…' || c == '•' || c == '▌' || c == '─' || c == '│' || c == '┼'
}

/// The columns of one character; a control character takes none.
pub open spec fn col(c: char) -> nat {
    match char_columns(c) {
        Some(w) => w as nat,
        None => 0,
    }
}

/// The columns of a text.
pub open spec fn cols(s: Seq<char>) -> nat
    decreases s.len(),
{
    if s.len() == 0 {
        0
    } else {
        cols(s.drop_last()) + col(s.last())
    }
}

/// The columns of one character.
pub fn columns_of(c: char) -> (w: u128)
    ensures
        w == col(c),
        w <= 3,
        '\u{20}' <= c && c < '\u{7f}' ==> w == 1,
        is_drawn(c) ==> w == 1,
{
    match char_width(c) {
        Some(w) => w as u128,
        None => 0,
    }
}

/// The columns of two texts in a row add up.
pub proof fn lemma_cols_add(a: Seq<char>, b: Seq<char>)
    ensures
        cols(a + b) == cols(a) + cols(b),
    decreases b.len(),
{
    if b.len() == 0 {
        assert(a + b =~= a);
    } else {
        assert((a + b).drop_last() =~= a + b.drop_last());
        lemma_cols_add(a, b.drop_last());
    }
}

/// Sums up the columns of a range.
pub fn range_width(chars: &Vec<char>, from: usize, to: usize) -> (w: u128)
    requires
        from <= to <= chars@.len(),
    ensures
        w == cols(chars@.subrange(from as int, to as int)),
        w <= 3 * (to - from),
{
    let mut w: u128 = 0;
    let mut i: usize = from;
    while i < to
        invariant
            from <= i <= to <= chars@.len(),
            w == cols(chars@.subrange(from as int, i as int)),
            w <= 3 * (i - from),
        decreases to - i,
    {
        assert(chars@.subrange(from as int, i + 1).drop_last() =~= chars@.subrange(
            from as int,
            i as int,
        ));
        w = w + columns_of(chars[i]);
        i += 1;
    }
    w
}

/// The display columns of a string.
pub fn display_width(text: &str) -> (w: u128)
    ensures
        w == cols(text@),
{
    let chars = chars_of(text);
    assert(chars@.subrange(0, chars@.len() as int) =~= chars@);
    range_width(&chars, 0, chars.len())
}

// ---------------------------------------------------------------------------
// Words
// ---------------------------------------------------------------------------

/// Where the word that starts at `from` ends: at the first other character
/// behind a space, or at the end of the line. `i` is where to look on.
pub open spec fn word_end(s: Seq<char>, i: int) -> int
    decreases s.len() - i,
{
    if i >= s.len() {
        s.len() as int
    } else if i > 0 && s[i - 1] == ' ' && s[i] != ' ' {
        i
    } else {
        word_end(s, i + 1)
    }
}

/// A word ends within the line, behind its first character.
pub proof fn lemma_word_end(s: Seq<char>, i: int)
    requires
        0 <= i <= s.len(),
    ensures
        i <= word_end(s, i) <= s.len(),
    decreases s.len() - i,
{
    if i < s.len() && !(i > 0 && s[i - 1] == ' ' && s[i] != ' ') {
        lemma_word_end(s, i + 1);
    }
}

/// The words of a line from `start` on, each with its trailing spaces. An
/// empty line is one empty word.
pub open spec fn words_from(s: Seq<char>, start: int) -> Seq<Seq<char>>
    decreases s.len() - start,
{
    proof {
        if 0 <= start < s.len() {
            lemma_word_end(s, start + 1);
        }
    }
    if start < 0 || start >= s.len() {
        seq![Seq::empty()]
    } else {
        let end = word_end(s, start + 1);
        if end >= s.len() {
            seq![s.skip(start)]
        } else {
            seq![s.subrange(start, end)] + words_from(s, end)
        }
    }
}

/// The words of a line.
pub open spec fn words(s: Seq<char>) -> Seq<Seq<char>> {
    words_from(s, 0)
}

/// Finds where the word around `i` ends.
pub fn find_word_end(chars: &Vec<char>, i: usize) -> (r: usize)
    requires
        i <= chars@.len(),
    ensures
        r == word_end(chars@, i as int),
        i <= r <= chars@.len(),
{
    let mut k: usize = i;
    while k < chars.len()
        invariant
            i <= k <= chars@.len(),
            word_end(chars@, i as int) == word_end(chars@, k as int),
        decreases chars@.len() - k,
    {
        if k > 0 && chars[k - 1] == ' ' && chars[k] != ' ' {
            return k;
        }
        k += 1;
    }
    k
}

// ---------------------------------------------------------------------------
// Filling rows
// ---------------------------------------------------------------------------

/// Rows that are finished, and the row being filled.
pub struct Fill {
    pub rows: Seq<Seq<char>>,
    pub row: Seq<char>,
}

/// Puts the characters of an overlong word one by one, starting a new row
/// whenever the next character would not fit.
pub open spec fn hard_split(word: Seq<char>, width: int, f: Fill) -> Fill
    decreases word.len(),
{
    if word.len() == 0 {
        f
    } else {
        let c = word[0];
        let next = if cols(f.row) + col(c) > width && f.row.len() > 0 {
            Fill { rows: f.rows.push(f.row), row: seq![c] }
        } else {
            Fill { rows: f.rows, row: f.row.push(c) }
        };
        hard_split(word.drop_first(), width, next)
    }
}

/// Puts one word: on the current row where it fits, else on a new one, cut
/// into rows where it is wider than a row.
pub open spec fn place(word: Seq<char>, width: int, f: Fill) -> Fill {
    if cols(f.row) + cols(word) <= width {
        Fill { rows: f.rows, row: f.row + word }
    } else {
        let rows = if f.row.len() > 0 {
            f.rows.push(f.row)
        } else {
            f.rows
        };
        if cols(word) > width {
            hard_split(word, width, Fill { rows, row: Seq::empty() })
        } else {
            Fill { rows, row: word }
        }
    }
}

/// Puts the words from `start` on, one after the other.
pub open spec fn fill_from(s: Seq<char>, start: int, width: int, f: Fill) -> Fill
    decreases s.len() - start,
{
    proof {
        if 0 <= start < s.len() {
            lemma_word_end(s, start + 1);
        }
    }
    if start < 0 || start >= s.len() {
        f
    } else {
        let end = word_end(s, start + 1);
        fill_from(s, end, width, place(s.subrange(start, end), width, f))
    }
}

/// The rows of a line of text, at most `width` columns each where words and
/// characters allow. An empty line is one empty row.
pub open spec fn wrapped(s: Seq<char>, width: int) -> Seq<Seq<char>> {
    let f = fill_from(s, 0, width, Fill { rows: Seq::empty(), row: Seq::empty() });
    if f.row.len() > 0 || f.rows.len() == 0 {
        f.rows.push(f.row)
    } else {
        f.rows
    }
}

/// Views of the rows.
pub open spec fn rows_view(rows: Seq<Vec<char>>) -> Seq<Seq<char>> {
    rows.map_values(|r: Vec<char>| r@)
}

/// Wraps a line of characters.
pub fn wrap_chars(chars: &Vec<char>, width: usize) -> (r: Vec<Vec<char>>)
    ensures
        rows_view(r@) == wrapped(chars@, width as int),
        r@.len() >= 1,
{
    let mut rows: Vec<Vec<char>> = Vec::new();
    let mut row: Vec<char> = Vec::new();
    let mut row_width: u128 = 0;
    let mut start: usize = 0;
    let ghost zero = Fill { rows: Seq::empty(), row: Seq::empty() };
    assert(rows_view(rows@) =~= Seq::empty());
    while start < chars.len()
        invariant
            start <= chars@.len(),
            row_width == cols(row@),
            row_width <= width + 3,
            fill_from(chars@, 0, width as int, zero) == fill_from(
                chars@,
                start as int,
                width as int,
                Fill { rows: rows_view(rows@), row: row@ },
            ),
        decreases chars@.len() - start,
    {
        let end: usize = find_word_end(chars, start + 1);
        let word_width: u128 = range_width(chars, start, end);
        let ghost word = chars@.subrange(start as int, end as int);
        let ghost before = Fill { rows: rows_view(rows@), row: row@ };
        if row_width + word_width <= width as u128 {
            let mut piece = slice(chars, start, end);
            proof {
                lemma_cols_add(row@, word);
            }
            row.append(&mut piece);
            row_width = row_width + word_width;
        } else {
            if row.len() > 0 {
                let mut done: Vec<char> = Vec::new();
                std::mem::swap(&mut done, &mut row);
                let ghost old_rows = rows@;
                let ghost shown = done@;
                rows.push(done);
                assert(rows_view(rows@) =~= rows_view(old_rows).push(shown));
                row_width = 0;
            }
            assert(row@ =~= Seq::empty());
            if word_width > width as u128 {
                let ghost fresh = Fill { rows: rows_view(rows@), row: row@ };
                let mut i: usize = start;
                assert(chars@.subrange(start as int, end as int) =~= word);
                while i < end
                    invariant
                        start <= i <= end <= chars@.len(),
                        row_width == cols(row@),
                        row_width <= width + 3,
                        hard_split(word, width as int, fresh) == hard_split(
                            chars@.subrange(i as int, end as int),
                            width as int,
                            Fill { rows: rows_view(rows@), row: row@ },
                        ),
                    decreases end - i,
                {
                    let c = chars[i];
                    let w: u128 = columns_of(c);
                    let ghost rest = chars@.subrange(i as int, end as int);
                    assert(rest.drop_first() =~= chars@.subrange(i + 1, end as int));
                    if row_width + w > width as u128 && row.len() > 0 {
                        let mut done: Vec<char> = Vec::new();
                        std::mem::swap(&mut done, &mut row);
                        let ghost old_rows = rows@;
                        let ghost shown = done@;
                        rows.push(done);
                        assert(rows_view(rows@) =~= rows_view(old_rows).push(shown));
                        row_width = 0;
                    }
                    let ghost r0 = row@;
                    assert(row_width == cols(r0));
                    row.push(c);
                    row_width = row_width + w;
                    proof {
                        assert(row@.drop_last() =~= r0);
                        assert(cols(row@) == cols(r0) + col(c));
                        assert(r0.len() == 0 ==> row@ =~= seq![c]);
                    }
                    i += 1;
                }
                assert(chars@.subrange(end as int, end as int) =~= Seq::empty());
            } else {
                let mut piece = slice(chars, start, end);
                row.append(&mut piece);
                assert(row@ =~= word);
                row_width = word_width;
            }
        }
        assert(Fill { rows: rows_view(rows@), row: row@ } == place(word, width as int, before));
        start = end;
    }
    if row.len() > 0 || rows.len() == 0 {
        let ghost old_rows = rows@;
        let ghost shown = row@;
        rows.push(row);
        assert(rows_view(rows@) =~= rows_view(old_rows).push(shown));
    }
    rows
}

/// Greedy word wrap of one line by display width.
pub fn wrap_line(line: &str, width: usize) -> (r: Vec<String>)
    ensures
        crate::text::texts(r@) == wrapped(line@, width as int),
        r@.len() >= 1,
{
    let chars = chars_of(line);
    let rows = wrap_chars(&chars, width);
    let mut out: Vec<String> = Vec::new();
    let mut i: usize = 0;
    while i < rows.len()
        invariant
            i <= rows@.len(),
            out@.len() == i,
            crate::text::texts(out@) == rows_view(rows@).take(i as int),
        decreases rows@.len() - i,
    {
        let ghost before = out@;
        let t = to_text(&rows[i]);
        let ghost shown = t@;
        out.push(t);
        proof {
            assert(crate::text::texts(out@) =~= crate::text::texts(before).push(shown));
            assert(rows_view(rows@).take(i + 1) =~= rows_view(rows@).take(i as int).push(
                rows_view(rows@)[i as int],
            ));
        }
        i += 1;
    }
    assert(rows_view(rows@).take(i as int) =~= rows_view(rows@));
    out
}

/// Splits a line into words that keep their trailing spaces.
pub fn split_keeping_spaces(line: &str) -> (r: Vec<String>)
    ensures
        crate::text::texts(r@) == words(line@),
{
    let chars = chars_of(line);
    let mut out: Vec<String> = Vec::new();
    let mut start: usize = 0;
    assert(crate::text::texts(out@) + words(line@) =~= words(line@));
    loop
        invariant
            start <= chars@.len(),
            chars@ == line@,
            start < chars@.len() || chars@.len() == 0,
            crate::text::texts(out@) + words_from(chars@, start as int) == words(chars@),
        decreases chars@.len() - start,
    {
        let end: usize = if start < chars.len() {
            find_word_end(&chars, start + 1)
        } else {
            start
        };
        let ghost before = out@;
        let t = crate::text::string_of(&chars, start, end);
        let ghost shown = t@;
        out.push(t);
        assert(crate::text::texts(out@) =~= crate::text::texts(before).push(shown));
        if end == chars.len() {
            assert(shown =~= words_from(chars@, start as int)[0]);
            assert(crate::text::texts(out@) =~= crate::text::texts(before) + words_from(
                chars@,
                start as int,
            ));
            return out;
        }
        assert(crate::text::texts(out@) + words_from(chars@, end as int)
            =~= crate::text::texts(before) + (seq![shown] + words_from(chars@, end as int)));
        start = end;
    }
}

// ---------------------------------------------------------------------------
// Laws
// ---------------------------------------------------------------------------

/// All pieces in a row.
pub open spec fn concat(pieces: Seq<Seq<char>>) -> Seq<char>
    decreases pieces.len(),
{
    if pieces.len() == 0 {
        Seq::empty()
    } else {
        concat(pieces.drop_last()) + pieces.last()
    }
}

/// Appending a piece appends its text.
pub proof fn lemma_concat_push(pieces: Seq<Seq<char>>, p: Seq<char>)
    ensures
        concat(pieces.push(p)) == concat(pieces) + p,
{
    assert(pieces.push(p).drop_last() =~= pieces);
}

/// A single piece is its own text.
pub proof fn lemma_concat_one(p: Seq<char>)
    ensures
        concat(seq![p]) == p,
{
    lemma_concat_push(Seq::empty(), p);
    assert(Seq::<Seq<char>>::empty().push(p) =~= seq![p]);
    assert(concat(Seq::<Seq<char>>::empty()) + p =~= p);
}

/// Everything that a fill holds.
pub open spec fn held(f: Fill) -> Seq<char> {
    concat(f.rows) + f.row
}

/// A row fits, or it is a single character that is wider than a row.
pub open spec fn row_fits(row: Seq<char>, width: int) -> bool {
    cols(row) <= width || row.len() == 1
}

/// All rows of a fill fit.
pub open spec fn fill_fits(f: Fill, width: int) -> bool {
    row_fits(f.row, width) && forall|k: int|
        0 <= k < f.rows.len() ==> row_fits(#[trigger] f.rows[k], width)
}

proof fn lemma_hard_split(word: Seq<char>, width: int, f: Fill)
    requires
        width >= 0,
    ensures
        held(hard_split(word, width, f)) == held(f) + word,
        fill_fits(f, width) ==> fill_fits(hard_split(word, width, f), width),
    decreases word.len(),
{
    if word.len() == 0 {
        assert(held(f) + word =~= held(f));
    } else {
        let c = word[0];
        let next = if cols(f.row) + col(c) > width && f.row.len() > 0 {
            Fill { rows: f.rows.push(f.row), row: seq![c] }
        } else {
            Fill { rows: f.rows, row: f.row.push(c) }
        };
        if cols(f.row) + col(c) > width && f.row.len() > 0 {
            lemma_concat_push(f.rows, f.row);
        } else {
            assert(f.row.push(c).drop_last() =~= f.row);
        }
        assert(held(next) =~= held(f).push(c));
        lemma_hard_split(word.drop_first(), width, next);
        assert(held(f).push(c) + word.drop_first() =~= held(f) + word);
    }
}

proof fn lemma_place(word: Seq<char>, width: int, f: Fill)
    requires
        width >= 0,
    ensures
        held(place(word, width, f)) == held(f) + word,
        fill_fits(f, width) ==> fill_fits(place(word, width, f), width),
{
    lemma_cols_add(f.row, word);
    if cols(f.row) + cols(word) <= width {
        assert(concat(f.rows) + (f.row + word) =~= held(f) + word);
    } else {
        let rows = if f.row.len() > 0 {
            f.rows.push(f.row)
        } else {
            f.rows
        };
        lemma_concat_push(f.rows, f.row);
        let fresh = Fill { rows, row: Seq::empty() };
        assert(held(fresh) =~= held(f));
        if cols(word) > width {
            lemma_hard_split(word, width, fresh);
        }
    }
}

proof fn lemma_fill_from(s: Seq<char>, start: int, width: int, f: Fill)
    requires
        width >= 0,
        0 <= start <= s.len(),
    ensures
        held(fill_from(s, start, width, f)) == held(f) + s.skip(start),
        fill_fits(f, width) ==> fill_fits(fill_from(s, start, width, f), width),
    decreases s.len() - start,
{
    if start >= s.len() {
        assert(held(f) + s.skip(start) =~= held(f));
    } else {
        lemma_word_end(s, start + 1);
        let end = word_end(s, start + 1);
        let word = s.subrange(start, end);
        lemma_place(word, width, f);
        lemma_fill_from(s, end, width, place(word, width, f));
        assert(held(f) + word + s.skip(end) =~= held(f) + s.skip(start));
    }
}

proof fn lemma_concat_is_flatten(v: Seq<Seq<char>>)
    ensures
        concat(v) == v.flatten(),
    decreases v.len(),
{
    if v.len() > 0 {
        lemma_concat_is_flatten(v.drop_last());
        v.drop_last().lemma_flatten_push(v.last());
        assert(v.drop_last().push(v.last()) =~= v);
    } else {
        assert(concat(v) =~= v.flatten());
    }
}

/// Wrapping loses nothing and adds nothing: the rows of a line, put together
/// again, are the line.
pub proof fn law_wrap_keeps_every_character(s: Seq<char>, width: nat)
    ensures
        concat(wrapped(s, width as int)) == s,
        wrapped(s, width as int).flatten() == s,
{
    lemma_concat_is_flatten(wrapped(s, width as int));
    let zero = Fill { rows: Seq::empty(), row: Seq::empty() };
    lemma_fill_from(s, 0, width as int, zero);
    let f = fill_from(s, 0, width as int, zero);
    lemma_concat_push(f.rows, f.row);
    assert(held(zero) + s.skip(0) =~= s);
    assert(concat(wrapped(s, width as int)) =~= held(f));
}

/// No row is wider than asked for, except a row that holds nothing but one
/// character too wide for any row.
pub proof fn law_rows_fit_the_width(s: Seq<char>, width: nat, k: int)
    requires
        0 <= k < wrapped(s, width as int).len(),
    ensures
        row_fits(wrapped(s, width as int)[k], width as int),
{
    let zero = Fill { rows: Seq::empty(), row: Seq::empty() };
    lemma_fill_from(s, 0, width as int, zero);
    assert(cols(zero.row) == 0);
}

/// Whether the finished rows of a fill hold something, each.
spec fn rows_filled(f: Fill) -> bool {
    forall|k: int| 0 <= k < f.rows.len() ==> (#[trigger] f.rows[k]).len() > 0
}

proof fn lemma_split_filled(word: Seq<char>, width: int, f: Fill)
    requires
        rows_filled(f),
    ensures
        rows_filled(hard_split(word, width, f)),
    decreases word.len(),
{
    if word.len() > 0 {
        let c = word[0];
        let next = if cols(f.row) + col(c) > width && f.row.len() > 0 {
            Fill { rows: f.rows.push(f.row), row: seq![c] }
        } else {
            Fill { rows: f.rows, row: f.row.push(c) }
        };
        lemma_split_filled(word.drop_first(), width, next);
    }
}

proof fn lemma_fill_filled(s: Seq<char>, start: int, width: int, f: Fill)
    requires
        0 <= start <= s.len(),
        rows_filled(f),
    ensures
        rows_filled(fill_from(s, start, width, f)),
    decreases s.len() - start,
{
    if start < s.len() {
        lemma_word_end(s, start + 1);
        let end = word_end(s, start + 1);
        let word = s.subrange(start, end);
        let rows = if f.row.len() > 0 {
            f.rows.push(f.row)
        } else {
            f.rows
        };
        lemma_split_filled(word, width, Fill { rows, row: Seq::empty() });
        lemma_fill_filled(s, end, width, place(word, width, f));
    }
}

proof fn lemma_concat_len(pieces: Seq<Seq<char>>)
    requires
        forall|k: int| 0 <= k < pieces.len() ==> (#[trigger] pieces[k]).len() > 0,
    ensures
        pieces.len() <= concat(pieces).len(),
    decreases pieces.len(),
{
    if pieces.len() > 0 {
        lemma_concat_len(pieces.drop_last());
    }
}

/// The rows of a line that is not empty are not empty either, so there are
/// no more of them than characters.
pub proof fn law_rows_are_not_empty(s: Seq<char>, width: nat)
    ensures
        s.len() > 0 ==> forall|k: int|
            0 <= k < wrapped(s, width as int).len() ==> (#[trigger] wrapped(s, width as int)[k]).len()
                > 0,
        1 <= wrapped(s, width as int).len() <= s.len() + 1,
        s.len() > 0 ==> wrapped(s, width as int).len() <= s.len(),
{
    let zero = Fill { rows: Seq::empty(), row: Seq::empty() };
    let f = fill_from(s, 0, width as int, zero);
    lemma_fill_filled(s, 0, width as int, zero);
    law_wrap_keeps_every_character(s, width);
    if s.len() > 0 {
        if f.row.len() == 0 && f.rows.len() == 0 {
            lemma_concat_one(f.row);
            assert(wrapped(s, width as int) =~= seq![f.row]);
            assert(false);
        }
        lemma_concat_len(wrapped(s, width as int));
    }
}

/// Where the row behind row `k` begins in the line.
pub open spec fn row_end(rows: Seq<Seq<char>>, k: int) -> int {
    concat(rows.take(k + 1)).len() as int
}

/// Whether row `k` has no room for what follows it: the next word, or what
/// is left of a word that is cut.
pub open spec fn is_full(s: Seq<char>, rows: Seq<Seq<char>>, k: int, width: int) -> bool {
    let at = row_end(rows, k);
    cols(rows[k]) + cols(s.subrange(at, word_end(s, at + 1))) > width
}

/// Whether all finished rows of a fill are full.
spec fn rows_full(s: Seq<char>, rows: Seq<Seq<char>>, width: int) -> bool {
    forall|k: int| 0 <= k < rows.len() ==> #[trigger] is_full(s, rows, k, width)
}

proof fn lemma_push_full(s: Seq<char>, rows: Seq<Seq<char>>, row: Seq<char>, width: int)
    requires
        rows_full(s, rows, width),
        ({
            let at = (concat(rows) + row).len() as int;
            cols(row) + cols(s.subrange(at, word_end(s, at + 1))) > width
        }),
    ensures
        rows_full(s, rows.push(row), width),
{
    let all = rows.push(row);
    assert forall|k: int| 0 <= k < all.len() implies #[trigger] is_full(s, all, k, width) by {
        if k < rows.len() {
            assert(all.take(k + 1) =~= rows.take(k + 1));
            assert(is_full(s, rows, k, width));
        } else {
            assert(all.take(k + 1) =~= all);
            lemma_concat_push(rows, row);
        }
    }
}

/// Inside a word the end of the word is the same.
proof fn lemma_inside_word(s: Seq<char>, i: int, k: int)
    requires
        0 <= i <= k <= word_end(s, i),
        i <= s.len(),
    ensures
        word_end(s, k) == word_end(s, i),
    decreases k - i,
{
    if i < k {
        lemma_word_end(s, i);
        lemma_inside_word(s, i + 1, k);
    }
}

proof fn lemma_split_full(s: Seq<char>, at: int, end: int, width: int, f: Fill)
    requires
        0 <= at <= end <= s.len(),
        at < end ==> word_end(s, at + 1) == end,
        held(f).len() == at,
        rows_full(s, f.rows, width),
    ensures
        rows_full(s, hard_split(s.subrange(at, end), width, f).rows, width),
    decreases end - at,
{
    let word = s.subrange(at, end);
    if at < end {
        let c = word[0];
        let rest = s.subrange(at + 1, end);
        assert(word.drop_first() =~= rest);
        assert(word =~= seq![c] + rest);
        lemma_cols_add(seq![c], rest);
        assert(seq![c].drop_last() =~= Seq::empty());
        assert(cols(Seq::<char>::empty()) == 0);
        assert(cols(seq![c]) == cols(seq![c].drop_last()) + col(seq![c].last()));
        if at + 1 < end {
            lemma_inside_word(s, at + 1, at + 2);
        }
        if cols(f.row) + col(c) > width && f.row.len() > 0 {
            lemma_push_full(s, f.rows, f.row, width);
            lemma_concat_push(f.rows, f.row);
            lemma_split_full(
                s,
                at + 1,
                end,
                width,
                Fill { rows: f.rows.push(f.row), row: seq![c] },
            );
        } else {
            lemma_split_full(s, at + 1, end, width, Fill { rows: f.rows, row: f.row.push(c) });
        }
    }
}

proof fn lemma_fill_full(s: Seq<char>, start: int, width: int, f: Fill)
    requires
        width >= 0,
        0 <= start <= s.len(),
        held(f).len() == start,
        rows_full(s, f.rows, width),
    ensures
        rows_full(s, fill_from(s, start, width, f).rows, width),
    decreases s.len() - start,
{
    if start < s.len() {
        lemma_word_end(s, start + 1);
        let end = word_end(s, start + 1);
        let word = s.subrange(start, end);
        lemma_place(word, width, f);
        if cols(f.row) + cols(word) > width {
            let rows = if f.row.len() > 0 {
                f.rows.push(f.row)
            } else {
                f.rows
            };
            if f.row.len() > 0 {
                lemma_push_full(s, f.rows, f.row, width);
                lemma_concat_push(f.rows, f.row);
            }
            if cols(word) > width {
                lemma_split_full(s, start, end, width, Fill { rows, row: Seq::empty() });
            }
        }
        lemma_fill_full(s, end, width, place(word, width, f));
    }
}

/// Rows are filled greedily: no row but the last has room for the word that
/// follows it, or for what is left of a word that is cut.
pub proof fn law_rows_are_filled(s: Seq<char>, width: nat, k: int)
    requires
        0 <= k,
        k + 1 < wrapped(s, width as int).len(),
    ensures
        is_full(s, wrapped(s, width as int), k, width as int),
{
    let zero = Fill { rows: Seq::empty(), row: Seq::empty() };
    lemma_fill_full(s, 0, width as int, zero);
    let f = fill_from(s, 0, width as int, zero);
    let rows = wrapped(s, width as int);
    assert(is_full(s, f.rows, k, width as int));
    assert(rows.take(k + 1) =~= f.rows.take(k + 1));
}

/// A line that fits is a single row.
pub proof fn law_short_lines_pass_through(s: Seq<char>, width: nat)
    requires
        cols(s) <= width,
    ensures
        wrapped(s, width as int) == seq![s],
{
    let zero = Fill { rows: Seq::empty(), row: Seq::empty() };
    lemma_fill_short(s, 0, width as int);
    assert(s.take(0) =~= Seq::empty());
    assert(s.take(s.len() as int) =~= s);
    assert(Seq::<Seq<char>>::empty().push(s) =~= seq![s]);
}

proof fn lemma_fill_short(s: Seq<char>, start: int, width: int)
    requires
        0 <= start <= s.len(),
        cols(s) <= width,
    ensures
        fill_from(s, start, width, Fill { rows: Seq::empty(), row: s.take(start) }) == (Fill {
            rows: Seq::empty(),
            row: s.take(s.len() as int),
        }),
    decreases s.len() - start,
{
    if start < s.len() {
        lemma_word_end(s, start + 1);
        let end = word_end(s, start + 1);
        let word = s.subrange(start, end);
        assert(s.take(start) + word =~= s.take(end));
        lemma_cols_add(s.take(start), word);
        lemma_cols_add(s.take(end), s.skip(end));
        assert(s.take(end) + s.skip(end) =~= s);
        lemma_fill_short(s, end, width);
    }
}

/// The words of a line, put together again, are the line.
pub proof fn law_words_keep_every_character(s: Seq<char>)
    ensures
        concat(words(s)) == s,
{
    lemma_words_from(s, 0);
    assert(s.skip(0) =~= s);
}

proof fn lemma_words_from(s: Seq<char>, start: int)
    requires
        0 <= start <= s.len(),
    ensures
        concat(words_from(s, start)) == s.skip(start),
    decreases s.len() - start,
{
    if start >= s.len() {
        lemma_concat_one(Seq::empty());
        assert(s.skip(start) =~= Seq::empty());
    } else {
        lemma_word_end(s, start + 1);
        let end = word_end(s, start + 1);
        if end >= s.len() {
            lemma_concat_one(s.skip(start));
        } else {
            lemma_words_from(s, end);
            lemma_concat_front(s.subrange(start, end), words_from(s, end));
            assert(s.subrange(start, end) + s.skip(end) =~= s.skip(start));
        }
    }
}

/// A piece in front comes first.
pub proof fn lemma_concat_front(p: Seq<char>, pieces: Seq<Seq<char>>)
    ensures
        concat(seq![p] + pieces) == p + concat(pieces),
    decreases pieces.len(),
{
    if pieces.len() == 0 {
        lemma_concat_one(p);
        assert(seq![p] + pieces =~= seq![p]);
        assert(p + concat(pieces) =~= p);
    } else {
        assert((seq![p] + pieces).drop_last() =~= seq![p] + pieces.drop_last());
        lemma_concat_front(p, pieces.drop_last());
        assert(concat(seq![p] + pieces) =~= p + concat(pieces));
    }
}

} // verus!
