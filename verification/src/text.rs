//! Text as sequences of characters.
//!
//! A string is specified by its view, a `Seq<char>`. Functions that look at
//! single characters first spread the string into a `Vec<char>`.
use vstd::prelude::*;

verus! {

/// `String::push` appends one character.
pub assume_specification[ String::push ](s: &mut String, c: char)
    ensures
        final(s)@ == old(s)@.push(c),
;

/// `String::push_str` appends all characters of a string slice.
pub assume_specification[ String::push_str ](s: &mut String, t: &str)
    ensures
        final(s)@ == old(s)@ + t@,
;

// ---------------------------------------------------------------------------
// Moving between strings and characters
// ---------------------------------------------------------------------------

/// All characters of a string, in order.
pub fn chars_of(s: &str) -> (r: Vec<char>)
    ensures
        r@ == s@,
{
    let mut out: Vec<char> = Vec::new();
    for c in it: s.chars()
        invariant
            out@ == it.seq().take(it.index()),
            it.seq() == s@,
    {
        out.push(c);
    }
    out
}

/// The string made of a range of characters.
pub fn string_of(chars: &Vec<char>, from: usize, to: usize) -> (r: String)
    requires
        from <= to <= chars@.len(),
    ensures
        r@ == chars@.subrange(from as int, to as int),
{
    let mut out = String::new();
    push_range(&mut out, chars, from, to);
    out
}

/// The string made of all the characters.
pub fn to_text(chars: &Vec<char>) -> (r: String)
    ensures
        r@ == chars@,
{
    let mut out = String::new();
    push_range(&mut out, chars, 0, chars.len());
    assert(chars@.subrange(0, chars@.len() as int) =~= chars@);
    assert(Seq::<char>::empty() + chars@ =~= chars@);
    out
}

/// Appends a range of characters to a string.
pub fn push_range(out: &mut String, chars: &Vec<char>, from: usize, to: usize)
    requires
        from <= to <= chars@.len(),
    ensures
        final(out)@ == old(out)@ + chars@.subrange(from as int, to as int),
{
    let ghost start = out@;
    let mut i: usize = from;
    assert(start =~= start + chars@.subrange(from as int, from as int));
    while i < to
        invariant
            from <= i <= to <= chars@.len(),
            out@ == start + chars@.subrange(from as int, i as int),
        decreases to - i,
    {
        out.push(chars[i]);
        i += 1;
    }
}

/// A copy of a range of characters.
pub fn slice(chars: &Vec<char>, from: usize, to: usize) -> (r: Vec<char>)
    requires
        from <= to <= chars@.len(),
    ensures
        r@ == chars@.subrange(from as int, to as int),
{
    let mut out: Vec<char> = Vec::new();
    let mut i: usize = from;
    while i < to
        invariant
            from <= i <= to <= chars@.len(),
            out@ == chars@.subrange(from as int, i as int),
        decreases to - i,
    {
        out.push(chars[i]);
        i += 1;
    }
    out
}

/// Whether two character vectors hold the same text.
pub fn same(a: &Vec<char>, b: &Vec<char>) -> (r: bool)
    ensures
        r == (a@ == b@),
{
    if a.len() != b.len() {
        return false;
    }
    let mut i: usize = 0;
    while i < a.len()
        invariant
            i <= a@.len(),
            a@.len() == b@.len(),
            forall|k: int| 0 <= k < i ==> a@[k] == b@[k],
        decreases a@.len() - i,
    {
        if a[i] != b[i] {
            return false;
        }
        i += 1;
    }
    assert(a@ =~= b@);
    true
}

/// Whether two string slices hold the same text.
pub fn same_str(a: &str, b: &str) -> (r: bool)
    ensures
        r == (a@ == b@),
{
    let x = chars_of(a);
    let y = chars_of(b);
    same(&x, &y)
}

/// Whether the characters spell exactly this string.
pub fn is_str(a: &Vec<char>, b: &str) -> (r: bool)
    ensures
        r == (a@ == b@),
{
    let y = chars_of(b);
    same(a, &y)
}

/// An owned copy of a string slice.
pub fn owned(s: &str) -> (r: String)
    ensures
        r@ == s@,
{
    s.to_owned()
}

/// `a` followed by `b`.
pub fn concat2(a: &str, b: &str) -> (r: String)
    ensures
        r@ == a@ + b@,
{
    let mut out = a.to_owned();
    out.push_str(b);
    out
}

/// `a`, `b` and `c` in a row.
pub fn concat3(a: &str, b: &str, c: &str) -> (r: String)
    ensures
        r@ == a@ + b@ + c@,
{
    let mut out = a.to_owned();
    out.push_str(b);
    out.push_str(c);
    out
}

// ---------------------------------------------------------------------------
// Repetition
// ---------------------------------------------------------------------------

/// `n` times the character `c`.
pub open spec fn repeated(c: char, n: nat) -> Seq<char> {
    Seq::new(n, |i: int| c)
}

/// Appends `n` copies of a character.
pub fn push_repeated(out: &mut String, c: char, n: usize)
    ensures
        final(out)@ == old(out)@ + repeated(c, n as nat),
{
    let ghost start = out@;
    let mut i: usize = 0;
    assert(start =~= start + repeated(c, 0));
    while i < n
        invariant
            i <= n,
            out@ == start + repeated(c, i as nat),
        decreases n - i,
    {
        out.push(c);
        i += 1;
        assert(out@ =~= start + repeated(c, i as nat));
    }
}

// ---------------------------------------------------------------------------
// White space
// ---------------------------------------------------------------------------

/// The characters with the Unicode property White_Space.
pub open spec fn is_white_space(c: char) -> bool {
    ||| '\u{9}' <= c <= '\u{d}'
    ||| c == '\u{20}'
    ||| c == '\u{85}'
    ||| c == '\u{a0}'
    ||| c == '\u{1680}'
    ||| '\u{2000}' <= c <= '\u{200a}'
    ||| c == '\u{2028}'
    ||| c == '\u{2029}'
    ||| c == '\u{202f}'
    ||| c == '\u{205f}'
    ||| c == '\u{3000}'
}

/// Whether a character is white space.
pub fn is_space(c: char) -> (r: bool)
    ensures
        r == is_white_space(c),
{
    ('\u{9}' <= c && c <= '\u{d}') || c == '\u{20}' || c == '\u{85}' || c == '\u{a0}' || c
        == '\u{1680}' || ('\u{2000}' <= c && c <= '\u{200a}') || c == '\u{2028}' || c == '\u{2029}'
        || c == '\u{202f}' || c == '\u{205f}' || c == '\u{3000}'
}

/// How many white space characters lead the text.
pub open spec fn leading_space(s: Seq<char>) -> nat
    decreases s.len(),
{
    if s.len() > 0 && is_white_space(s[0]) {
        1 + leading_space(s.drop_first())
    } else {
        0
    }
}

/// The text without leading white space.
pub open spec fn trim_start(s: Seq<char>) -> Seq<char> {
    s.skip(leading_space(s) as int)
}

/// The text without trailing white space.
pub open spec fn trim_end(s: Seq<char>) -> Seq<char>
    decreases s.len(),
{
    if s.len() > 0 && is_white_space(s.last()) {
        trim_end(s.drop_last())
    } else {
        s
    }
}

/// The text without leading and trailing white space.
pub open spec fn trim(s: Seq<char>) -> Seq<char> {
    trim_end(trim_start(s))
}

/// What leads the text up to the first other character is white space, and
/// only that.
pub proof fn lemma_leading_space(s: Seq<char>)
    ensures
        leading_space(s) <= s.len(),
        forall|k: int| 0 <= k < leading_space(s) ==> is_white_space(#[trigger] s[k]),
        leading_space(s) < s.len() ==> !is_white_space(s[leading_space(s) as int]),
    decreases s.len(),
{
    if s.len() > 0 && is_white_space(s[0]) {
        lemma_leading_space(s.drop_first());
        let n = leading_space(s.drop_first());
        assert forall|k: int| 0 <= k < leading_space(s) implies is_white_space(#[trigger] s[k]) by {
            if k > 0 {
                assert(s[k] == s.drop_first()[k - 1]);
            }
        }
        if leading_space(s) < s.len() {
            assert(s[leading_space(s) as int] == s.drop_first()[n as int]);
        }
    }
}

/// A run of white space ending at another character, or at the end, is the
/// leading space.
proof fn lemma_leading_space_is(s: Seq<char>, n: int)
    requires
        0 <= n <= s.len(),
        forall|k: int| 0 <= k < n ==> is_white_space(#[trigger] s[k]),
        n < s.len() ==> !is_white_space(s[n]),
    ensures
        leading_space(s) == n,
    decreases s.len(),
{
    if n > 0 {
        let t = s.drop_first();
        assert forall|k: int| 0 <= k < n - 1 implies is_white_space(#[trigger] t[k]) by {
            assert(t[k] == s[k + 1]);
        }
        lemma_leading_space_is(t, n - 1);
    }
}

/// `trim_end` keeps a prefix.
pub proof fn lemma_trim_end(s: Seq<char>)
    ensures
        trim_end(s).len() <= s.len(),
        trim_end(s) == s.take(trim_end(s).len() as int),
        forall|k: int|
            trim_end(s).len() <= k < s.len() ==> is_white_space(#[trigger] s[k]),
        trim_end(s).len() > 0 ==> !is_white_space(trim_end(s).last()),
    decreases s.len(),
{
    if s.len() > 0 && is_white_space(s.last()) {
        lemma_trim_end(s.drop_last());
        assert(s.drop_last().take(trim_end(s).len() as int) =~= s.take(trim_end(s).len() as int));
        assert forall|k: int| trim_end(s).len() <= k < s.len() implies is_white_space(
            #[trigger] s[k],
        ) by {
            if k < s.len() - 1 {
                assert(s[k] == s.drop_last()[k]);
            }
        }
    } else {
        assert(s.take(s.len() as int) =~= s);
    }
}

/// Counts the leading white space.
pub fn count_leading_space(chars: &Vec<char>) -> (n: usize)
    ensures
        n == leading_space(chars@),
        n <= chars@.len(),
{
    let mut i: usize = 0;
    while i < chars.len() && is_space(chars[i])
        invariant
            i <= chars@.len(),
            forall|k: int| 0 <= k < i ==> is_white_space(#[trigger] chars@[k]),
        decreases chars@.len() - i,
    {
        i += 1;
    }
    proof {
        lemma_leading_space_is(chars@, i as int);
    }
    i
}

/// The text without leading white space.
pub fn trimmed_start(chars: &Vec<char>) -> (r: Vec<char>)
    ensures
        r@ == trim_start(chars@),
{
    let n: usize = count_leading_space(chars);
    slice(chars, n, chars.len())
}

/// The text without trailing white space.
pub fn trimmed_end(chars: &Vec<char>) -> (r: Vec<char>)
    ensures
        r@ == trim_end(chars@),
{
    let mut end: usize = chars.len();
    assert(chars@.take(end as int) =~= chars@);
    while end > 0 && is_space(chars[end - 1])
        invariant
            end <= chars@.len(),
            trim_end(chars@.take(end as int)) == trim_end(chars@),
        decreases end,
    {
        assert(chars@.take(end as int).drop_last() =~= chars@.take(end as int - 1));
        end -= 1;
    }
    assert(chars@.take(end as int) =~= chars@.subrange(0, end as int));
    slice(chars, 0, end)
}

/// The text without leading and trailing white space.
pub fn trimmed(chars: &Vec<char>) -> (r: Vec<char>)
    ensures
        r@ == trim(chars@),
{
    let t = trimmed_start(chars);
    trimmed_end(&t)
}

/// The trimmed text as a string.
pub fn trim_text(s: &str) -> (r: String)
    ensures
        r@ == trim(s@),
{
    let chars = chars_of(s);
    let t = trimmed(&chars);
    to_text(&t)
}

/// A text is blank when nothing is left of it after trimming.
pub open spec fn is_blank(s: Seq<char>) -> bool {
    trim(s).len() == 0
}

/// A blank text is white space throughout.
pub proof fn lemma_blank(s: Seq<char>)
    ensures
        is_blank(s) <==> forall|k: int| 0 <= k < s.len() ==> is_white_space(#[trigger] s[k]),
        is_blank(s) <==> leading_space(s) == s.len(),
{
    let t = trim_start(s);
    lemma_leading_space(s);
    lemma_trim_end(t);
    if leading_space(s) < s.len() {
        assert(t[0] == s[leading_space(s) as int]);
    }
}

/// Whether a string is blank.
pub fn blank(s: &str) -> (r: bool)
    ensures
        r == is_blank(s@),
{
    let chars = chars_of(s);
    let n: usize = count_leading_space(&chars);
    proof {
        lemma_blank(s@);
    }
    n == chars.len()
}

// ---------------------------------------------------------------------------
// Searching
// ---------------------------------------------------------------------------

/// The first position of `c` at or after `from`, or the length.
pub open spec fn find_from(s: Seq<char>, c: char, from: int) -> int
    decreases s.len() - from,
{
    if from >= s.len() {
        s.len() as int
    } else if s[from] == c {
        from
    } else {
        find_from(s, c, from + 1)
    }
}

/// `find_from` is the first occurrence.
pub proof fn lemma_find_from(s: Seq<char>, c: char, from: int)
    requires
        0 <= from <= s.len(),
    ensures
        from <= find_from(s, c, from) <= s.len(),
        find_from(s, c, from) < s.len() ==> s[find_from(s, c, from)] == c,
        forall|k: int| from <= k < find_from(s, c, from) ==> s[k] != c,
    decreases s.len() - from,
{
    if from < s.len() && s[from] != c {
        lemma_find_from(s, c, from + 1);
    }
}

/// The only position with these properties is the first occurrence.
pub proof fn lemma_find_from_is(s: Seq<char>, c: char, from: int, at: int)
    requires
        0 <= from <= at <= s.len(),
        at < s.len() ==> s[at] == c,
        forall|k: int| from <= k < at ==> s[k] != c,
    ensures
        find_from(s, c, from) == at,
    decreases s.len() - from,
{
    if from < at {
        lemma_find_from_is(s, c, from + 1, at);
    }
}

/// Finds the first position of a character at or after `from`.
pub fn find_char(chars: &Vec<char>, c: char, from: usize) -> (r: usize)
    requires
        from <= chars@.len(),
    ensures
        r == find_from(chars@, c, from as int),
        from <= r <= chars@.len(),
{
    let mut i: usize = from;
    while i < chars.len() && chars[i] != c
        invariant
            from <= i <= chars@.len(),
            find_from(chars@, c, from as int) == find_from(chars@, c, i as int),
        decreases chars@.len() - i,
    {
        i += 1;
    }
    i
}

/// Whether the text starts with this string.
pub open spec fn has_prefix(s: Seq<char>, p: Seq<char>) -> bool {
    p.len() <= s.len() && s.take(p.len() as int) == p
}

/// Whether the text ends with this string.
pub open spec fn has_suffix(s: Seq<char>, p: Seq<char>) -> bool {
    p.len() <= s.len() && s.skip(s.len() - p.len()) == p
}

/// Tests for a prefix.
pub fn starts_with(chars: &Vec<char>, p: &str) -> (r: bool)
    ensures
        r == has_prefix(chars@, p@),
{
    let q = chars_of(p);
    if q.len() > chars.len() {
        return false;
    }
    let mut i: usize = 0;
    while i < q.len()
        invariant
            i <= q@.len() <= chars@.len(),
            q@ == p@,
            forall|k: int| 0 <= k < i ==> q@[k] == chars@[k],
        decreases q@.len() - i,
    {
        if q[i] != chars[i] {
            assert(chars@.take(q@.len() as int)[i as int] != p@[i as int]);
            return false;
        }
        i += 1;
    }
    assert(chars@.take(q@.len() as int) =~= q@);
    true
}

/// The part of a string behind a prefix.
pub fn strip_prefix(s: &str, p: &str) -> (r: Option<String>)
    ensures
        r is Some <==> has_prefix(s@, p@),
        r matches Some(rest) ==> rest@ == s@.skip(p@.len() as int),
{
    let chars = chars_of(s);
    if starts_with(&chars, p) {
        let q = chars_of(p);
        Some(string_of(&chars, q.len(), chars.len()))
    } else {
        None
    }
}

/// Whether a part of the text, from `at` on, spells `p`.
pub open spec fn occurs_at(s: Seq<char>, p: Seq<char>, at: int) -> bool {
    0 <= at && at + p.len() <= s.len() && s.subrange(at, at + p.len()) == p
}

/// Tests whether `p` stands in `chars` at `at`.
pub fn is_at(chars: &Vec<char>, p: &Vec<char>, at: usize) -> (r: bool)
    requires
        at <= chars@.len(),
    ensures
        r == occurs_at(chars@, p@, at as int),
{
    if p.len() > chars.len() - at {
        return false;
    }
    let mut i: usize = 0;
    while i < p.len()
        invariant
            i <= p@.len(),
            at + p.len() <= chars.len(),
            forall|k: int| 0 <= k < i ==> p@[k] == chars@[at + k],
        decreases p@.len() - i,
    {
        if p[i] != chars[at + i] {
            assert(chars@.subrange(at as int, at + p@.len())[i as int] != p@[i as int]);
            return false;
        }
        i += 1;
    }
    assert(chars@.subrange(at as int, at + p@.len()) =~= p@);
    true
}

/// The first position at or after `from` where `p` stands, if any.
pub open spec fn find_text(s: Seq<char>, p: Seq<char>, from: int) -> Option<int>
    decreases s.len() + 1 - from,
{
    if from > s.len() {
        None
    } else if occurs_at(s, p, from) {
        Some(from)
    } else {
        find_text(s, p, from + 1)
    }
}

/// Finds the first occurrence of a string.
pub fn find_str(chars: &Vec<char>, p: &str) -> (r: Option<usize>)
    ensures
        r is Some <==> find_text(chars@, p@, 0) is Some,
        r matches Some(at) ==> find_text(chars@, p@, 0) == Some(at as int),
        r matches Some(at) ==> occurs_at(chars@, p@, at as int),
{
    let q = chars_of(p);
    let mut i: usize = 0;
    loop
        invariant
            i <= chars@.len(),
            q@ == p@,
            find_text(chars@, p@, 0) == find_text(chars@, p@, i as int),
        decreases chars@.len() - i,
    {
        if is_at(chars, &q, i) {
            return Some(i);
        }
        if i == chars.len() {
            assert(find_text(chars@, p@, i + 1) is None);
            return None;
        }
        i += 1;
    }
}

// ---------------------------------------------------------------------------
// Splitting and joining
// ---------------------------------------------------------------------------

/// The pieces between the occurrences of `c`. There is always at least one.
pub open spec fn split_on(s: Seq<char>, c: char) -> Seq<Seq<char>>
    decreases s.len(),
{
    proof {
        lemma_find_from(s, c, 0);
    }
    let at = find_from(s, c, 0);
    if at >= s.len() {
        seq![s]
    } else {
        seq![s.take(at)] + split_on(s.skip(at + 1), c)
    }
}

/// The definition of `split_on` always applies.
pub proof fn lemma_split_on(s: Seq<char>, c: char)
    ensures
        ({
            let at = find_from(s, c, 0);
            0 <= at <= s.len() && split_on(s, c) == if at >= s.len() {
                seq![s]
            } else {
                seq![s.take(at)] + split_on(s.skip(at + 1), c)
            }
        }),
        split_on(s, c).len() >= 1,
{
    lemma_find_from(s, c, 0);
}

/// What is appended to a text before one more `c` belongs to its last piece.
pub proof fn lemma_split_append(s: Seq<char>, t: Seq<char>, c: char)
    requires
        !t.contains(c),
    ensures
        split_on(s + t.push(c), c) == split_on(s, c).drop_last() + seq![
            split_on(s, c).last() + t,
            Seq::empty(),
        ],
    decreases s.len(),
{
    let all = s + t.push(c);
    lemma_split_on(s, c);
    lemma_split_on(all, c);
    lemma_find_from(s, c, 0);
    lemma_find_from(all, c, 0);
    let at = find_from(s, c, 0);
    let end = find_from(all, c, 0);
    let stop = s.len() + t.len();
    assert(all[stop as int] == c);
    if at >= s.len() {
        assert forall|k: int| 0 <= k < stop implies all[k] != c by {
            if k >= s.len() {
                assert(t.contains(t[k - s.len()]));
            } else {
                assert(all[k] == s[k]);
            }
        }
        assert(end == stop);
        assert(all.take(end) =~= s + t);
        assert(all.skip(end + 1) =~= Seq::empty());
        lemma_split_on(Seq::empty(), c);
        lemma_find_from(Seq::empty(), c, 0);
        assert(split_on(all, c) =~= seq![s + t, Seq::empty()]);
        assert(split_on(s, c).drop_last() =~= Seq::empty());
    } else {
        assert(all[at] == s[at]);
        assert forall|k: int| 0 <= k < at implies all[k] != c by {
            assert(all[k] == s[k]);
        }
        assert(end == at);
        let rest = s.skip(at + 1);
        assert(all.take(at) =~= s.take(at));
        assert(all.skip(at + 1) =~= rest + t.push(c));
        lemma_split_append(rest, t, c);
        lemma_split_on(rest, c);
        assert(split_on(s, c).drop_last() =~= seq![s.take(at)] + split_on(rest, c).drop_last());
        assert(split_on(s, c).last() == split_on(rest, c).last());
    }
}

/// Views of a vector of character vectors.
pub open spec fn views(v: Seq<Vec<char>>) -> Seq<Seq<char>> {
    v.map_values(|x: Vec<char>| x@)
}

/// Views of a sequence of strings.
pub open spec fn texts(v: Seq<String>) -> Seq<Seq<char>> {
    v.map_values(|x: String| x@)
}

/// Splits at every occurrence of a character.
pub fn split_chars(chars: &Vec<char>, c: char) -> (r: Vec<Vec<char>>)
    ensures
        views(r@) == split_on(chars@, c),
        r@.len() >= 1,
{
    let mut out: Vec<Vec<char>> = Vec::new();
    let mut start: usize = 0;
    assert(chars@.skip(0) =~= chars@);
    assert(views(out@) + split_on(chars@, c) =~= split_on(chars@, c));
    loop
        invariant
            start <= chars@.len(),
            views(out@) + split_on(chars@.skip(start as int), c) == split_on(chars@, c),
        decreases chars@.len() - start,
    {
        let at: usize = find_char(chars, c, start);
        let piece = slice(chars, start, at);
        let ghost before = out@;
        let ghost rest = chars@.skip(start as int);
        proof {
            lemma_split_on(rest, c);
            lemma_find_from(chars@, c, start as int);
            lemma_find_from_is(rest, c, 0, at - start);
            assert(rest.take(at - start) =~= piece@);
        }
        out.push(piece);
        assert(views(out@) =~= views(before).push(piece@));
        if at == chars.len() {
            assert(rest =~= piece@);
            assert(views(out@) =~= views(before) + seq![rest]);
            return out;
        }
        proof {
            assert(rest.skip(at - start + 1) =~= chars@.skip(at + 1));
            assert(views(out@) + split_on(chars@.skip(at + 1), c) =~= views(before) + (seq![
                piece@,
            ] + split_on(chars@.skip(at + 1), c)));
        }
        start = at + 1;
    }
}

/// A line without the carriage return that ends it.
pub open spec fn drop_cr(s: Seq<char>) -> Seq<char> {
    if s.len() > 0 && s.last() == '\r' {
        s.drop_last()
    } else {
        s
    }
}

/// The lines of a text. Every line ends at a line feed, or at a carriage
/// return and a line feed; what follows the last line feed is a line only
/// when it is not empty.
pub open spec fn lines_of(s: Seq<char>) -> Seq<Seq<char>> {
    let parts = split_on(s, '\n');
    let ended = parts.drop_last().map_values(|p: Seq<char>| drop_cr(p));
    if parts.last().len() == 0 {
        ended
    } else {
        ended.push(parts.last())
    }
}

/// Splits a text into its lines.
pub fn split_lines(chars: &Vec<char>) -> (r: Vec<Vec<char>>)
    ensures
        views(r@) == lines_of(chars@),
{
    let parts = split_chars(chars, '\n');
    let ghost ps = views(parts@);
    let mut out: Vec<Vec<char>> = Vec::new();
    let mut i: usize = 0;
    while i < parts.len() - 1
        invariant
            i <= parts@.len() - 1,
            ps == views(parts@),
            ps.len() == parts@.len(),
            views(out@) == ps.take(i as int).map_values(|p: Seq<char>| drop_cr(p)),
        decreases parts@.len() - i,
    {
        let part = &parts[i];
        let n: usize = part.len();
        let line = if n > 0 && part[n - 1] == '\r' {
            slice(part, 0, n - 1)
        } else {
            slice(part, 0, n)
        };
        assert(part@ == ps[i as int]);
        assert(line@ =~= drop_cr(ps[i as int]));
        let ghost before = out@;
        let ghost shown = line@;
        out.push(line);
        proof {
            assert(views(out@) =~= views(before).push(shown));
            assert(ps.take(i + 1) =~= ps.take(i as int).push(ps[i as int]));
            assert(ps.take(i + 1).map_values(|p: Seq<char>| drop_cr(p)) =~= ps.take(
                i as int,
            ).map_values(|p: Seq<char>| drop_cr(p)).push(drop_cr(ps[i as int])));
        }
        i += 1;
    }
    assert(ps.take(i as int) =~= ps.drop_last());
    let tail = &parts[parts.len() - 1];
    assert(tail@ == ps.last());
    if tail.len() > 0 {
        let ghost before = out@;
        let line = slice(tail, 0, tail.len());
        assert(line@ =~= tail@);
        out.push(line);
        assert(views(out@) =~= views(before).push(ps.last()));
    }
    out
}

/// The pieces with a separator between each two.
pub open spec fn joined(parts: Seq<Seq<char>>, sep: Seq<char>) -> Seq<char>
    decreases parts.len(),
{
    if parts.len() == 0 {
        Seq::empty()
    } else if parts.len() == 1 {
        parts[0]
    } else {
        joined(parts.drop_last(), sep) + sep + parts.last()
    }
}

/// Joins strings with a separator.
pub fn join(parts: &Vec<String>, sep: &str) -> (r: String)
    ensures
        r@ == joined(texts(parts@), sep@),
{
    let mut out = String::new();
    let mut i: usize = 0;
    while i < parts.len()
        invariant
            i <= parts@.len(),
            out@ == joined(texts(parts@.take(i as int)), sep@),
        decreases parts@.len() - i,
    {
        let ghost now = texts(parts@.take(i + 1));
        if i > 0 {
            out.push_str(sep);
        }
        out.push_str(parts[i].as_str());
        proof {
            assert(now.drop_last() =~= texts(parts@.take(i as int)));
            assert(now.last() == parts@[i as int]@);
            assert(out@ =~= joined(now, sep@));
        }
        i += 1;
    }
    assert(parts@.take(i as int) =~= parts@);
    out
}

// ---------------------------------------------------------------------------
// Numbers
// ---------------------------------------------------------------------------

/// The decimal digit for a number below ten.
pub open spec fn digit(d: int) -> char {
    (('0' as int) + d) as char
}

/// A number in decimal.
pub open spec fn decimal(n: nat) -> Seq<char>
    decreases n,
{
    if n < 10 {
        seq![digit(n as int)]
    } else {
        decimal(n / 10).push(digit((n % 10) as int))
    }
}

/// The decimal digit for a number below ten.
pub fn digit_char(d: u8) -> (r: char)
    requires
        d < 10,
    ensures
        r == digit(d as int),
{
    (48u8 + d) as char
}

/// Writes a number in decimal.
pub fn decimal_text(n: u64) -> (r: String)
    ensures
        r@ == decimal(n as nat),
    decreases n,
{
    if n < 10 {
        let mut out = String::new();
        out.push(digit_char(n as u8));
        assert(out@ =~= seq![digit(n as int)]);
        out
    } else {
        let mut out = decimal_text(n / 10);
        out.push(digit_char((n % 10) as u8));
        out
    }
}

// ---------------------------------------------------------------------------
// Order
// ---------------------------------------------------------------------------

/// Whether `a` comes before `b` in the order of their characters.
pub open spec fn before(a: Seq<char>, b: Seq<char>) -> bool
    decreases a.len(),
{
    if b.len() == 0 {
        false
    } else if a.len() == 0 {
        true
    } else if a[0] == b[0] {
        before(a.drop_first(), b.drop_first())
    } else {
        a[0] < b[0]
    }
}

/// The order is strict and total.
pub proof fn lemma_before_total(a: Seq<char>, b: Seq<char>)
    ensures
        before(a, b) ==> !before(b, a) && a != b,
        a != b ==> before(a, b) || before(b, a),
    decreases a.len(),
{
    if a.len() > 0 && b.len() > 0 {
        lemma_before_total(a.drop_first(), b.drop_first());
        if a[0] == b[0] && a.drop_first() == b.drop_first() {
            assert(a =~= seq![a[0]] + a.drop_first());
            assert(b =~= seq![b[0]] + b.drop_first());
        }
    } else if a.len() == 0 && b.len() == 0 {
        assert(a =~= b);
    }
}

/// The order is transitive.
pub proof fn lemma_before_transitive(a: Seq<char>, b: Seq<char>, c: Seq<char>)
    requires
        before(a, b),
        before(b, c),
    ensures
        before(a, c),
    decreases a.len(),
{
    if a.len() > 0 && a[0] == b[0] && b[0] == c[0] {
        lemma_before_transitive(a.drop_first(), b.drop_first(), c.drop_first());
    }
}

/// Tests whether one text comes before another.
pub fn is_before(a: &Vec<char>, b: &Vec<char>) -> (r: bool)
    ensures
        r == before(a@, b@),
{
    let mut i: usize = 0;
    assert(a@.skip(0) =~= a@);
    assert(b@.skip(0) =~= b@);
    loop
        invariant
            i <= a@.len(),
            i <= b@.len(),
            before(a@, b@) == before(a@.skip(i as int), b@.skip(i as int)),
        decreases a@.len() - i,
    {
        if i == b.len() {
            return false;
        }
        if i == a.len() {
            return true;
        }
        assert(a@.skip(i as int)[0] == a@[i as int]);
        assert(b@.skip(i as int)[0] == b@[i as int]);
        if a[i] != b[i] {
            return a[i] < b[i];
        }
        assert(a@.skip(i as int).drop_first() =~= a@.skip(i + 1));
        assert(b@.skip(i as int).drop_first() =~= b@.skip(i + 1));
        i += 1;
    }
}

// ---------------------------------------------------------------------------
// Words
// ---------------------------------------------------------------------------

/// The first white space at or after `from`, or the length.
pub open spec fn find_space(s: Seq<char>, from: int) -> int
    decreases s.len() - from,
{
    if from >= s.len() {
        s.len() as int
    } else if is_white_space(s[from]) {
        from
    } else {
        find_space(s, from + 1)
    }
}

/// The first white space lies within the text.
pub proof fn lemma_find_space(s: Seq<char>, from: int)
    requires
        0 <= from <= s.len(),
    ensures
        from <= find_space(s, from) <= s.len(),
    decreases s.len() - from,
{
    if from < s.len() && !is_white_space(s[from]) {
        lemma_find_space(s, from + 1);
    }
}

/// Finds the first white space at or after `from`.
pub fn find_white(chars: &Vec<char>, from: usize) -> (r: usize)
    requires
        from <= chars@.len(),
    ensures
        r == find_space(chars@, from as int),
        from <= r <= chars@.len(),
{
    let mut i: usize = from;
    while i < chars.len() && !is_space(chars[i])
        invariant
            from <= i <= chars@.len(),
            find_space(chars@, from as int) == find_space(chars@, i as int),
        decreases chars@.len() - i,
    {
        i += 1;
    }
    i
}

/// The first word of a text, and what follows the white space character
/// behind it.
pub open spec fn head_and_rest(s: Seq<char>) -> (Seq<char>, Seq<char>) {
    let at = find_space(s, 0);
    if at < s.len() {
        (s.take(at), s.skip(at + 1))
    } else {
        (s, Seq::empty())
    }
}

/// Splits a text at its first white space.
pub fn split_head(chars: &Vec<char>) -> (r: (Vec<char>, Vec<char>))
    ensures
        (r.0@, r.1@) == head_and_rest(chars@),
{
    let n: usize = chars.len();
    let at: usize = find_white(chars, 0);
    let head = slice(chars, 0, at);
    let rest = if at < n {
        slice(chars, at + 1, n)
    } else {
        Vec::new()
    };
    proof {
        lemma_find_space(chars@, 0);
        if at < n {
            assert(head@ =~= chars@.take(at as int));
            assert(rest@ =~= chars@.skip(at + 1));
        } else {
            assert(head@ =~= chars@);
            assert(rest@ =~= Seq::empty());
        }
    }
    (head, rest)
}

// ---------------------------------------------------------------------------
// Laws
// ---------------------------------------------------------------------------

/// Joining can also be read from the front.
pub proof fn lemma_joined_front(first: Seq<char>, rest: Seq<Seq<char>>, sep: Seq<char>)
    ensures
        joined(seq![first] + rest, sep) == (if rest.len() == 0 {
            first
        } else {
            first + sep + joined(rest, sep)
        }),
    decreases rest.len(),
{
    let all = seq![first] + rest;
    if rest.len() > 0 {
        lemma_joined_front(first, rest.drop_last(), sep);
        assert(all.drop_last() =~= seq![first] + rest.drop_last());
        assert(all.last() == rest.last());
        if rest.len() == 1 {
            assert(rest.drop_last() =~= Seq::empty());
        } else {
            assert(joined(all, sep) =~= first + sep + joined(rest, sep));
        }
    }
}

/// Joining the pieces of a text with what it was split at gives it back.
pub proof fn law_joining_undoes_splitting(s: Seq<char>, c: char)
    ensures
        joined(split_on(s, c), seq![c]) == s,
    decreases s.len(),
{
    lemma_split_on(s, c);
    lemma_find_from(s, c, 0);
    let at = find_from(s, c, 0);
    if at < s.len() {
        let rest = s.skip(at + 1);
        law_joining_undoes_splitting(rest, c);
        lemma_split_on(rest, c);
        lemma_joined_front(s.take(at), split_on(rest, c), seq![c]);
        assert(s =~= s.take(at) + seq![c] + rest);
    }
}

/// Splitting a joined text gives its pieces back, where no piece holds the
/// separator.
pub proof fn law_splitting_undoes_joining(parts: Seq<Seq<char>>, c: char)
    requires
        parts.len() > 0,
        forall|k: int| 0 <= k < parts.len() ==> !(#[trigger] parts[k]).contains(c),
    ensures
        split_on(joined(parts, seq![c]), c) == parts,
    decreases parts.len(),
{
    let first = parts[0];
    let rest = parts.drop_first();
    let s = joined(parts, seq![c]);
    assert(parts =~= seq![first] + rest);
    lemma_joined_front(first, rest, seq![c]);
    lemma_split_on(s, c);
    assert forall|k: int| 0 <= k < first.len() implies first[k] != c by {
        assert(first.contains(first[k]));
    }
    if rest.len() == 0 {
        assert(s == first);
        lemma_find_from(s, c, 0);
        assert(split_on(s, c) =~= parts);
    } else {
        assert forall|k: int| 0 <= k < rest.len() implies !(#[trigger] rest[k]).contains(c) by {
            assert(rest[k] == parts[k + 1]);
        }
        law_splitting_undoes_joining(rest, c);
        let n = first.len() as int;
        assert(s[n] == c);
        lemma_find_from_is(s, c, 0, n);
        assert(s.take(n) =~= first);
        assert(s.skip(n + 1) =~= joined(rest, seq![c]));
        assert(split_on(s, c) =~= parts);
    }
}

/// No piece of a split text holds what it was split at.
pub proof fn law_pieces_are_free_of_the_separator(s: Seq<char>, c: char, k: int)
    requires
        0 <= k < split_on(s, c).len(),
    ensures
        !split_on(s, c)[k].contains(c),
    decreases s.len(),
{
    lemma_split_on(s, c);
    lemma_find_from(s, c, 0);
    let at = find_from(s, c, 0);
    if at < s.len() {
        if k > 0 {
            law_pieces_are_free_of_the_separator(s.skip(at + 1), c, k - 1);
        }
    }
}

/// Joined texts keep their order and nothing but separators comes between:
/// two lists joined are both joined texts, one behind the other.
pub proof fn law_joining_lists(a: Seq<Seq<char>>, b: Seq<Seq<char>>, sep: Seq<char>)
    requires
        a.len() > 0,
        b.len() > 0,
    ensures
        joined(a + b, sep) == joined(a, sep) + sep + joined(b, sep),
        joined(seq![a[0]], sep) == a[0],
        joined(Seq::empty(), sep) == Seq::<char>::empty(),
    decreases a.len(),
{
    let rest = a.drop_first();
    assert(a =~= seq![a[0]] + rest);
    lemma_joined_front(a[0], rest, sep);
    lemma_joined_front(a[0], rest + b, sep);
    assert(a + b =~= seq![a[0]] + (rest + b));
    if rest.len() == 0 {
        assert(rest + b =~= b);
    } else {
        law_joining_lists(rest, b, sep);
        assert(joined(a + b, sep) =~= joined(a, sep) + sep + joined(b, sep));
    }
}

/// Trimming takes white space off both ends, all of it, and nothing else.
pub proof fn law_trimming_takes_the_white_space_off(s: Seq<char>)
    ensures
        exists|i: int, j: int|
            {
                &&& 0 <= i <= j <= s.len()
                &&& trim(s) == #[trigger] s.subrange(i, j)
                &&& forall|k: int| 0 <= k < i || j <= k < s.len() ==> is_white_space(#[trigger] s[k])
            },
        trim(s).len() > 0 ==> !is_white_space(trim(s)[0]) && !is_white_space(trim(s).last()),
{
    lemma_leading_space(s);
    let i = leading_space(s) as int;
    let t = trim_start(s);
    lemma_trim_end(t);
    let j = i + trim(s).len();
    assert(trim(s) =~= s.subrange(i, j));
    assert forall|k: int| 0 <= k < i || j <= k < s.len() implies is_white_space(
        #[trigger] s[k],
    ) by {
        if k >= j {
            assert(t[k - i] == s[k]);
        }
    }
    if trim(s).len() > 0 {
        assert(trim(s)[0] == s[i]);
    }
}

/// A text comes before another where it first differs by a smaller
/// character, or where it is a true beginning of the other.
pub proof fn law_texts_are_ordered_by_the_first_difference(a: Seq<char>, b: Seq<char>, n: int)
    requires
        0 <= n <= a.len(),
        n <= b.len(),
        a.take(n) == b.take(n),
    ensures
        n < a.len() && n < b.len() && a[n] != b[n] ==> before(a, b) == (a[n] < b[n]),
        n == a.len() ==> before(a, b) == (n < b.len()),
    decreases n,
{
    if n > 0 {
        assert(a.take(n)[0] == a[0] && b.take(n)[0] == b[0]);
        let x = a.drop_first();
        let y = b.drop_first();
        assert(x.take(n - 1) =~= a.take(n).drop_first());
        assert(y.take(n - 1) =~= b.take(n).drop_first());
        law_texts_are_ordered_by_the_first_difference(x, y, n - 1);
        if n < a.len() && n < b.len() {
            assert(x[n - 1] == a[n] && y[n - 1] == b[n]);
        }
    }
}

/// A number in decimal reads as that number: digits only, and no zero in
/// front.
pub proof fn law_decimals_read_as_their_number(n: nat)
    ensures
        decimal(n).fold_left(0int, |v: int, c: char| v * 10 + (c as int - '0' as int)) == n,
        forall|k: int| 0 <= k < decimal(n).len() ==> '0' <= (#[trigger] decimal(n)[k]) <= '9',
        n > 0 ==> decimal(n)[0] != '0',
        decimal(n).len() > 0,
    decreases n,
{
    reveal_with_fuel(Seq::fold_left, 2);
    let f = |v: int, c: char| v * 10 + (c as int - '0' as int);
    if n >= 10 {
        law_decimals_read_as_their_number(n / 10);
        assert(decimal(n).drop_last() =~= decimal(n / 10));
        assert(decimal(n)[0] == decimal(n / 10)[0]);
        assert forall|k: int| 0 <= k < decimal(n).len() implies '0' <= (#[trigger] decimal(n)[k])
            <= '9' by {
            if k < decimal(n / 10).len() {
                assert(decimal(n)[k] == decimal(n / 10)[k]);
            }
        }
    } else {
        assert(decimal(n).drop_last() =~= Seq::empty());
    }
}

/// `find_text` is the first occurrence.
pub proof fn lemma_find_text(s: Seq<char>, p: Seq<char>, from: int)
    requires
        0 <= from <= s.len() + 1,
    ensures
        match find_text(s, p, from) {
            Some(at) => from <= at && occurs_at(s, p, at) && forall|k: int|
                from <= k < at ==> !occurs_at(s, p, k),
            None => forall|k: int| from <= k <= s.len() ==> !occurs_at(s, p, k),
        },
    decreases s.len() + 1 - from,
{
    if from <= s.len() && !occurs_at(s, p, from) {
        lemma_find_text(s, p, from + 1);
    }
}

/// The first place where a text stands is the end of the shortest beginning
/// that it can follow.
pub proof fn law_texts_are_found_where_they_first_stand(
    s: Seq<char>,
    p: Seq<char>,
    a: Seq<char>,
    b: Seq<char>,
)
    requires
        s == a + p + b,
    ensures
        find_text(s, p, 0) matches Some(at) && 0 <= at <= a.len() && s.subrange(at, at + p.len())
            == p,
{
    lemma_find_text(s, p, 0);
    assert(s.subrange(a.len() as int, (a.len() + p.len()) as int) =~= p);
    assert(occurs_at(s, p, a.len() as int));
}

/// The lines of a text written line by line are those lines, whether the
/// last one is ended or not.
pub proof fn law_lines_are_read_back(lines: Seq<Seq<char>>)
    requires
        lines.len() > 0,
        forall|k: int|
            0 <= k < lines.len() ==> !(#[trigger] lines[k]).contains('\n') && (lines[k].len() > 0
                ==> lines[k].last() != '\r'),
    ensures
        lines.last().len() > 0 ==> lines_of(joined(lines, seq!['\n'])) == lines,
        lines_of(joined(lines, seq!['\n']).push('\n')) == lines,
        lines_of(Seq::empty()) == Seq::<Seq<char>>::empty(),
{
    let s = joined(lines, seq!['\n']);
    law_splitting_undoes_joining(lines, '\n');
    let cut = |p: Seq<char>| drop_cr(p);
    assert(lines.drop_last().map_values(cut) =~= lines.drop_last());
    if lines.last().len() > 0 {
        assert(lines.drop_last().push(lines.last()) =~= lines);
    }
    let more = lines.push(Seq::empty());
    assert(more.drop_last() =~= lines);
    assert forall|k: int| 0 <= k < more.len() implies !(#[trigger] more[k]).contains('\n') by {
        if k < lines.len() {
            assert(more[k] == lines[k]);
        }
    }
    law_splitting_undoes_joining(more, '\n');
    assert(joined(more, seq!['\n']) =~= s.push('\n'));
    assert(lines.map_values(cut) =~= lines);
    lemma_split_on(Seq::empty(), '\n');
    lemma_find_from(Seq::empty(), '\n', 0);
    assert(split_on(Seq::empty(), '\n') =~= seq![Seq::empty()]);
    assert(lines_of(Seq::empty()) =~= Seq::empty());
}

/// The first word is what stands before the first white space, and the rest
/// is all behind it.
pub proof fn law_the_head_is_the_first_word(word: Seq<char>, c: char, rest: Seq<char>)
    requires
        is_white_space(c),
        forall|k: int| 0 <= k < word.len() ==> !is_white_space(#[trigger] word[k]),
    ensures
        head_and_rest(word + seq![c] + rest) == (word, rest),
        head_and_rest(word) == (word, Seq::<char>::empty()),
{
    let s = word + seq![c] + rest;
    lemma_space_at(s, 0, word.len() as int);
    assert(s.take(word.len() as int) =~= word);
    assert(s.skip(word.len() as int + 1) =~= rest);
    lemma_space_at(word, 0, word.len() as int);
}

proof fn lemma_space_at(s: Seq<char>, from: int, at: int)
    requires
        0 <= from <= at <= s.len(),
        at < s.len() ==> is_white_space(s[at]),
        forall|k: int| from <= k < at ==> !is_white_space(#[trigger] s[k]),
    ensures
        find_space(s, from) == at,
    decreases at - from,
{
    if from < at {
        lemma_space_at(s, from + 1, at);
    }
}

/// Whether a text stands in another one.
pub open spec fn stands_in(part: Seq<char>, whole: Seq<char>) -> bool {
    exists|a: Seq<char>, b: Seq<char>| whole == #[trigger] (a + part + b)
}

/// Where a text is pieced together, its pieces stand in it.
pub proof fn lemma_stands(part: Seq<char>, whole: Seq<char>, a: Seq<char>, b: Seq<char>)
    requires
        whole == a + part + b,
    ensures
        stands_in(part, whole),
{
}

/// What stands in a part stands in the whole.
pub proof fn lemma_stands_wider(part: Seq<char>, whole: Seq<char>, a: Seq<char>, b: Seq<char>)
    requires
        stands_in(part, whole),
    ensures
        stands_in(part, a + whole + b),
{
    let (x, y) = choose|x: Seq<char>, y: Seq<char>| whole == #[trigger] (x + part + y);
    assert(a + whole + b =~= (a + x) + part + (y + b));
    lemma_stands(part, a + whole + b, a + x, y + b);
}

/// What was joined stands in the result.
pub proof fn lemma_stands_joined(parts: Seq<Seq<char>>, sep: Seq<char>, i: int)
    requires
        0 <= i < parts.len(),
    ensures
        stands_in(parts[i], joined(parts, sep)),
    decreases parts.len(),
{
    let none = Seq::<char>::empty();
    if parts.len() == 1 {
        assert(parts[0] =~= none + parts[0] + none);
        lemma_stands(parts[0], parts[0], none, none);
    } else {
        let before = joined(parts.drop_last(), sep);
        let whole = joined(parts, sep);
        if i == parts.len() - 1 {
            assert(whole =~= (before + sep) + parts[i] + none);
            lemma_stands(parts[i], whole, before + sep, none);
        } else {
            lemma_stands_joined(parts.drop_last(), sep, i);
            assert(whole =~= none + before + (sep + parts.last()));
            lemma_stands_wider(parts[i], before, none, sep + parts.last());
        }
    }
}

} // verus!
