//! Slash commands: `/name args` in the input.
//!
//! There are two kinds. Built-ins are handled by the frontend and never reach
//! the model. Prompt templates are markdown files whose body, with the
//! arguments substituted, is sent as the prompt. Anything else that starts
//! with a slash is literal text: a typo becomes a question, not an error.
use vstd::prelude::*;

use crate::text::{chars_of, is_space, same_str, slice, string_of};
use crate::{markdown, resources, text};

verus! {

// ---------------------------------------------------------------------------
// Arguments
// ---------------------------------------------------------------------------

/// Where the split of an argument string stands: finished arguments, the one
/// being read, and the quote that is open.
pub struct ArgsView {
    pub done: Seq<Seq<char>>,
    pub current: Seq<char>,
    pub quote: Option<char>,
}

/// The finished arguments with the one being read, unless that is empty.
pub open spec fn args_with_current(st: ArgsView) -> Seq<Seq<char>> {
    if st.current.len() > 0 {
        st.done.push(st.current)
    } else {
        st.done
    }
}

/// The split after one more character. A quote opens, and the same quote
/// closes; white space outside quotes ends an argument.
pub open spec fn args_step(st: ArgsView, c: char) -> ArgsView {
    match st.quote {
        Some(q) => if c == q {
            ArgsView { quote: None, ..st }
        } else {
            ArgsView { current: st.current.push(c), ..st }
        },
        None => if c == '"' || c == '\'' {
            ArgsView { quote: Some(c), ..st }
        } else if text::is_white_space(c) {
            ArgsView { done: args_with_current(st), current: Seq::empty(), ..st }
        } else {
            ArgsView { current: st.current.push(c), ..st }
        },
    }
}

/// The split after the first `n` characters.
pub open spec fn args_after(s: Seq<char>, n: int) -> ArgsView
    decreases n,
{
    if n <= 0 {
        ArgsView { done: Seq::empty(), current: Seq::empty(), quote: None }
    } else {
        args_step(args_after(s, n - 1), s[n - 1])
    }
}

/// The arguments in a string.
pub open spec fn args_of(s: Seq<char>) -> Seq<Seq<char>> {
    args_with_current(args_after(s, s.len() as int))
}

/// Splits an argument string the way a shell does: white space separates,
/// single or double quotes group.
pub fn parse_command_args(args: &str) -> (r: Vec<String>)
    ensures
        text::texts(r@) == args_of(args@),
{
    let chars = chars_of(args);
    let mut out: Vec<String> = Vec::new();
    let mut current = String::new();
    let mut quote: Option<char> = None;
    let mut i: usize = 0;
    assert(text::texts(out@) =~= Seq::empty());
    while i < chars.len()
        invariant
            i <= chars@.len(),
            (ArgsView { done: text::texts(out@), current: current@, quote }) == args_after(
                chars@,
                i as int,
            ),
        decreases chars@.len() - i,
    {
        let c = chars[i];
        match quote {
            Some(q) => {
                if c == q {
                    quote = None;
                } else {
                    current.push(c);
                }
            },
            None => {
                if c == '"' || c == '\'' {
                    quote = Some(c);
                } else if is_space(c) {
                    if !current.as_str().is_empty() {
                        let mut done = String::new();
                        std::mem::swap(&mut done, &mut current);
                        let ghost before = out@;
                        let ghost shown = done@;
                        out.push(done);
                        assert(text::texts(out@) =~= text::texts(before).push(shown));
                    }
                    assert(current@ =~= Seq::empty());
                } else {
                    current.push(c);
                }
            },
        }
        i += 1;
    }
    if !current.as_str().is_empty() {
        let ghost before = out@;
        let ghost shown = current@;
        out.push(current);
        assert(text::texts(out@) =~= text::texts(before).push(shown));
    }
    out
}

/// No argument is empty.
pub proof fn law_arguments_are_not_empty(s: Seq<char>)
    ensures
        forall|k: int| 0 <= k < args_of(s).len() ==> (#[trigger] args_of(s)[k]).len() > 0,
{
    lemma_done_not_empty(s, s.len() as int);
}

proof fn lemma_done_not_empty(s: Seq<char>, n: int)
    ensures
        forall|k: int|
            0 <= k < args_after(s, n).done.len() ==> (#[trigger] args_after(s, n).done[k]).len()
                > 0,
    decreases n,
{
    if n > 0 {
        lemma_done_not_empty(s, n - 1);
    }
}

// ---------------------------------------------------------------------------
// Numbers in templates
// ---------------------------------------------------------------------------

/// Whether every character is a digit.
pub open spec fn all_digits(s: Seq<char>) -> bool {
    forall|k: int| 0 <= k < s.len() ==> markdown::is_digit(#[trigger] s[k])
}

/// The number that some digits spell.
pub open spec fn digits_value(s: Seq<char>) -> nat
    decreases s.len(),
{
    if s.len() == 0 {
        0
    } else {
        digits_value(s.drop_last()) * 10 + (s.last() as int - '0' as int) as nat
    }
}

/// A number without the plus in front of it.
pub open spec fn without_plus(s: Seq<char>) -> Seq<char> {
    if s.len() > 1 && s[0] == '+' {
        s.skip(1)
    } else {
        s
    }
}

/// The number that a text spells: digits, with or without a plus in front,
/// that fit a machine word.
pub open spec fn number_of(s: Seq<char>) -> Option<nat> {
    let digits = without_plus(s);
    if digits.len() > 0 && all_digits(digits) && digits_value(digits) <= usize::MAX {
        Some(digits_value(digits))
    } else {
        None
    }
}

proof fn lemma_value_grows(s: Seq<char>, n: int)
    requires
        all_digits(s),
        0 <= n <= s.len(),
    ensures
        digits_value(s.take(n)) <= digits_value(s),
    decreases s.len() - n,
{
    if n < s.len() {
        lemma_value_grows(s, n + 1);
        assert(s.take(n + 1).drop_last() =~= s.take(n));
        assert(markdown::is_digit(s[n]));
    } else {
        assert(s.take(n) =~= s);
    }
}

/// Reads a number.
pub fn parse_number(s: &Vec<char>) -> (r: Option<usize>)
    ensures
        r is Some <==> number_of(s@) is Some,
        r matches Some(v) ==> number_of(s@) == Some(v as nat),
{
    let n: usize = s.len();
    let from: usize = if n > 1 && s[0] == '+' {
        1
    } else {
        0
    };
    let digits = slice(s, from, n);
    let ghost d = without_plus(s@);
    assert(digits@ =~= d);
    if digits.len() == 0 {
        return None;
    }
    let mut value: usize = 0;
    let mut i: usize = 0;
    // A value that does not fit cannot become smaller again, but a character
    // that is no digit may still follow: either way there is no number.
    assert(d.take(0) =~= Seq::empty());
    while i < digits.len()
        invariant
            i <= digits@.len(),
            digits@ == d,
            d == without_plus(s@),
            forall|k: int| 0 <= k < i ==> markdown::is_digit(#[trigger] d[k]),
            value == digits_value(d.take(i as int)),
        decreases digits@.len() - i,
    {
        let c = digits[i];
        if !('0' <= c && c <= '9') {
            assert(!markdown::is_digit(d[i as int]));
            return None;
        }
        let v: u128 = (c as u32 - '0' as u32) as u128;
        let next: u128 = value as u128 * 10 + v;
        proof {
            assert(d.take(i + 1).drop_last() =~= d.take(i as int));
            assert(d.take(i + 1).last() == c);
        }
        if next > usize::MAX as u128 {
            proof {
                if all_digits(d) {
                    lemma_value_grows(d, i + 1);
                }
            }
            return None;
        }
        value = next as usize;
        i += 1;
    }
    assert(d.take(i as int) =~= d);
    Some(value)
}

// ---------------------------------------------------------------------------
// Substitution
// ---------------------------------------------------------------------------

/// Argument number `n`, counted from one.
pub open spec fn positional(args: Seq<Seq<char>>, n: nat) -> Option<Seq<char>> {
    if 1 <= n <= args.len() {
        Some(args[n - 1])
    } else {
        None
    }
}

/// At most `len` arguments from number `start` on, joined with spaces.
pub open spec fn sliced_args(args: Seq<Seq<char>>, start: nat, len: Option<nat>) -> Seq<char> {
    let from = if start == 0 {
        0
    } else {
        start - 1
    };
    let rest = if from <= args.len() {
        args.skip(from)
    } else {
        Seq::empty()
    };
    let part = match len {
        Some(l) => if l < rest.len() {
            rest.take(l as int)
        } else {
            rest
        },
        None => rest,
    };
    text::joined(part, " "@)
}

/// What stands for `${inner}`: an argument or its default (`N:-default`),
/// arguments from one on (`@:N`), some of them (`@:N:L`). `None` leaves the
/// text as it is.
pub open spec fn braced(inner: Seq<char>, args: Seq<Seq<char>>) -> Option<Seq<char>> {
    match text::find_text(inner, ":-"@, 0) {
        Some(at) => match number_of(inner.take(at)) {
            Some(n) => match positional(args, n) {
                Some(v) => if v.len() > 0 {
                    Some(v)
                } else {
                    Some(inner.skip(at + 2))
                },
                None => Some(inner.skip(at + 2)),
            },
            None => None,
        },
        None => if text::has_prefix(inner, "@:"@) {
            let spec = inner.skip(2);
            let colon = text::find_from(spec, ':', 0);
            let start = number_of(spec.take(colon));
            if colon >= spec.len() {
                match start {
                    Some(n) => Some(sliced_args(args, n, None)),
                    None => None,
                }
            } else {
                match (start, number_of(spec.skip(colon + 1))) {
                    (Some(n), Some(l)) => Some(sliced_args(args, n, Some(l))),
                    _ => None,
                }
            }
        } else {
            None
        },
    }
}

/// What stands at a `$` at position `i`, and where the template goes on.
pub open spec fn dollar(s: Seq<char>, i: int, args: Seq<Seq<char>>) -> (Seq<char>, int) {
    if i + 1 < s.len() && s[i + 1] == '{' {
        let close = text::find_from(s, '}', i + 2);
        if close < s.len() && braced(s.subrange(i + 2, close), args) is Some {
            (braced(s.subrange(i + 2, close), args).unwrap(), close + 1)
        } else {
            (seq!['$'], i + 1)
        }
    } else if text::has_prefix(s.skip(i + 1), "ARGUMENTS"@) {
        (text::joined(args, " "@), i + 10)
    } else if i + 1 < s.len() && s[i + 1] == '@' {
        (text::joined(args, " "@), i + 2)
    } else {
        let d = markdown::digits_len(s.skip(i + 1)) as int;
        if d == 0 {
            (seq!['$'], i + 1)
        } else {
            (
                match number_of(s.subrange(i + 1, i + 1 + d)) {
                    Some(n) => match positional(args, n) {
                        Some(v) => v,
                        None => Seq::empty(),
                    },
                    None => Seq::empty(),
                },
                i + 1 + d,
            )
        }
    }
}

/// A placeholder takes at least one character.
pub proof fn lemma_dollar(s: Seq<char>, i: int, args: Seq<Seq<char>>)
    requires
        0 <= i < s.len(),
    ensures
        i < dollar(s, i, args).1 <= s.len(),
{
    reveal_strlit("ARGUMENTS");
    markdown::lemma_digits_len(s.skip(i + 1));
    if i + 1 < s.len() && s[i + 1] == '{' {
        text::lemma_find_from(s, '}', i + 2);
    }
}

/// The template from position `i` on, with its placeholders replaced. What
/// an argument holds is not looked at again.
pub open spec fn substituted_from(s: Seq<char>, i: int, args: Seq<Seq<char>>) -> Seq<char>
    decreases s.len() - i,
{
    proof {
        if 0 <= i < s.len() {
            lemma_dollar(s, i, args);
        }
    }
    if i < 0 || i >= s.len() {
        Seq::empty()
    } else if s[i] == '$' {
        let (piece, next) = dollar(s, i, args);
        piece + substituted_from(s, next, args)
    } else {
        seq![s[i]] + substituted_from(s, i + 1, args)
    }
}

/// A template with its placeholders replaced.
pub open spec fn substituted(s: Seq<char>, args: Seq<Seq<char>>) -> Seq<char> {
    substituted_from(s, 0, args)
}

/// Joins some of the arguments.
fn join_range(args: &Vec<String>, from: usize, to: usize) -> (r: String)
    requires
        from <= to <= args@.len(),
    ensures
        r@ == text::joined(text::texts(args@).subrange(from as int, to as int), " "@),
{
    let mut part: Vec<String> = Vec::new();
    let mut i: usize = from;
    while i < to
        invariant
            from <= i <= to <= args@.len(),
            part@.len() == i - from,
            text::texts(part@) == text::texts(args@).subrange(from as int, i as int),
        decreases to - i,
    {
        let ghost before = part@;
        part.push(args[i].clone());
        proof {
            assert(text::texts(part@) =~= text::texts(before).push(args@[i as int]@));
            assert(text::texts(args@).subrange(from as int, i + 1) =~= text::texts(
                args@,
            ).subrange(from as int, i as int).push(args@[i as int]@));
        }
        i += 1;
    }
    text::join(&part, " ")
}

/// Argument number `n`, counted from one.
fn argument(args: &Vec<String>, n: usize) -> (r: Option<String>)
    ensures
        r is Some <==> positional(text::texts(args@), n as nat) is Some,
        r matches Some(v) ==> positional(text::texts(args@), n as nat) == Some(v@),
{
    if n >= 1 && n <= args.len() {
        assert(text::texts(args@)[n - 1] == args@[n - 1]@);
        Some(args[n - 1].clone())
    } else {
        None
    }
}

/// The `${...}` forms.
pub fn substitute_braced(inner: &Vec<char>, args: &Vec<String>) -> (r: Option<String>)
    ensures
        r is Some <==> braced(inner@, text::texts(args@)) is Some,
        r matches Some(v) ==> braced(inner@, text::texts(args@)) == Some(v@),
{
    let ghost list = text::texts(args@);
    if let Some(at) = text::find_str(inner, ":-") {
        proof {
            reveal_strlit(":-");
        }
        let end: usize = inner.len();
        assert(at + 2 <= end);
        let number = slice(inner, 0, at);
        assert(number@ =~= inner@.take(at as int));
        return match parse_number(&number) {
            Some(n) => {
                let fallback = string_of(inner, at + 2, end);
                assert(fallback@ =~= inner@.skip(at + 2));
                match argument(args, n) {
                    Some(v) => if v.as_str().is_empty() {
                        Some(fallback)
                    } else {
                        Some(v)
                    },
                    None => Some(fallback),
                }
            },
            None => None,
        };
    }
    if !text::starts_with(inner, "@:") {
        return None;
    }
    proof {
        reveal_strlit("@:");
    }
    let spec_part = slice(inner, 2, inner.len());
    assert(spec_part@ =~= inner@.skip(2));
    let colon: usize = text::find_char(&spec_part, ':', 0);
    let start_part = slice(&spec_part, 0, colon);
    assert(start_part@ =~= spec_part@.take(colon as int));
    let length: Option<usize> = if colon < spec_part.len() {
        let length_part = slice(&spec_part, colon + 1, spec_part.len());
        assert(length_part@ =~= spec_part@.skip(colon + 1));
        match parse_number(&length_part) {
            Some(l) => Some(l),
            None => {
                return None;
            },
        }
    } else {
        None
    };
    match parse_number(&start_part) {
        Some(n) => {
            let from: usize = if n == 0 {
                0
            } else {
                n - 1
            };
            let count: usize = args.len();
            let from: usize = if from <= count {
                from
            } else {
                count
            };
            let to: usize = match length {
                Some(l) => if l < count - from {
                    from + l
                } else {
                    count
                },
                None => count,
            };
            proof {
                let len = match length {
                    Some(l) => Some(l as nat),
                    None => None,
                };
                let start = if n == 0 {
                    0
                } else {
                    n - 1
                };
                let rest = if start <= list.len() {
                    list.skip(start)
                } else {
                    Seq::empty()
                };
                assert(rest =~= list.subrange(from as int, count as int));
                if length is Some && length.unwrap() < rest.len() {
                    assert(rest.take(length.unwrap() as int) =~= list.subrange(
                        from as int,
                        to as int,
                    ));
                }
            }
            Some(join_range(args, from, to))
        },
        None => None,
    }
}

/// Substitutes the placeholders of a template, in one pass:
///
/// - `$1`, `$2`, ...: an argument, empty when missing
/// - `$@` and `$ARGUMENTS`: all arguments, joined with spaces
/// - `${N:-default}`: argument N, or the default when it is missing or empty
/// - `${@:N}`: the arguments from N on
/// - `${@:N:L}`: at most L arguments from N on
pub fn substitute_args(content: &str, args: &Vec<String>) -> (r: String)
    ensures
        r@ == substituted(content@, text::texts(args@)),
{
    let ghost list = text::texts(args@);
    let all_args = text::join(args, " ");
    let chars = chars_of(content);
    let n: usize = chars.len();
    let mut out = String::new();
    let mut i: usize = 0;
    assert(out@ + substituted(chars@, list) =~= substituted(chars@, list));
    while i < n
        invariant
            i <= n,
            n == chars@.len(),
            chars@ == content@,
            list == text::texts(args@),
            all_args@ == text::joined(list, " "@),
            out@ + substituted_from(chars@, i as int, list) == substituted(chars@, list),
        decreases n - i,
    {
        let ghost before = out@;
        let ghost rest = substituted_from(chars@, i as int, list);
        if chars[i] != '$' {
            out.push(chars[i]);
            assert(out@ + substituted_from(chars@, i + 1, list) =~= before + (seq![
                chars@[i as int],
            ] + substituted_from(chars@, i + 1, list)));
            i += 1;
            continue;
        }
        proof {
            lemma_dollar(chars@, i as int, list);
        }
        let ghost step = dollar(chars@, i as int, list);
        let mut next: usize = i + 1;
        let mut piece = String::new();
        if i + 1 < n && chars[i + 1] == '{' {
            let close: usize = text::find_char(&chars, '}', i + 2);
            let mut literal = true;
            if close < n {
                let inner = slice(&chars, i + 2, close);
                if let Some(replacement) = substitute_braced(&inner, args) {
                    piece = replacement;
                    next = close + 1;
                    literal = false;
                }
            }
            if literal {
                piece.push('$');
                assert(piece@ =~= seq!['$']);
            }
        } else {
            let behind = slice(&chars, i + 1, n);
            assert(behind@ =~= chars@.skip(i + 1));
            if text::starts_with(&behind, "ARGUMENTS") {
                proof {
                    reveal_strlit("ARGUMENTS");
                }
                piece = all_args.clone();
                next = i + 10;
            } else if i + 1 < n && chars[i + 1] == '@' {
                piece = all_args.clone();
                next = i + 2;
            } else {
                let d: usize = markdown::count_digits(&behind);
                if d == 0 {
                    piece.push('$');
                    assert(piece@ =~= seq!['$']);
                } else {
                    let digits = slice(&chars, i + 1, i + 1 + d);
                    if let Some(index) = parse_number(&digits) {
                        if let Some(value) = argument(args, index) {
                            piece = value;
                        }
                    }
                    next = i + 1 + d;
                }
            }
        }
        assert((piece@, next as int) == step);
        out.push_str(piece.as_str());
        assert(out@ + substituted_from(chars@, next as int, list) =~= before + (piece@
            + substituted_from(chars@, next as int, list)));
        i = next;
    }
    assert(out@ + Seq::empty() =~= out@);
    out
}

/// A template without a dollar sign is sent as it is.
pub proof fn law_plain_templates_are_literal(s: Seq<char>, args: Seq<Seq<char>>)
    requires
        forall|k: int| 0 <= k < s.len() ==> s[k] != '$',
    ensures
        substituted(s, args) == s,
{
    lemma_literal_from(s, 0, args);
    assert(s.skip(0) =~= s);
}

proof fn lemma_literal_from(s: Seq<char>, i: int, args: Seq<Seq<char>>)
    requires
        0 <= i <= s.len(),
        forall|k: int| 0 <= k < s.len() ==> s[k] != '$',
    ensures
        substituted_from(s, i, args) == s.skip(i),
    decreases s.len() - i,
{
    if i < s.len() {
        lemma_literal_from(s, i + 1, args);
        assert(seq![s[i]] + s.skip(i + 1) =~= s.skip(i));
    } else {
        assert(s.skip(i) =~= Seq::empty());
    }
}

/// Counting starts at one: a slice from zero is a slice from one.
pub proof fn law_slices_count_from_one(args: Seq<Seq<char>>, len: Option<nat>)
    ensures
        sliced_args(args, 0, len) == sliced_args(args, 1, len),
{
}

// ---------------------------------------------------------------------------
// Templates
// ---------------------------------------------------------------------------

/// A prompt that `/name` invokes, from `prompts/<name>.md`.
#[derive(Debug)]
pub struct PromptTemplate {
    pub name: String,
    pub description: String,
    /// The body, with its placeholders.
    pub content: String,
    pub path: String,
}

/// A prompt that `/name` invokes.
pub struct TemplateView {
    pub name: Seq<char>,
    pub description: Seq<char>,
    pub content: Seq<char>,
    pub path: Seq<char>,
}

impl View for PromptTemplate {
    type V = TemplateView;

    open spec fn view(&self) -> TemplateView {
        TemplateView {
            name: self.name@,
            description: self.description@,
            content: self.content@,
            path: self.path@,
        }
    }
}

/// Views of templates.
pub open spec fn template_views(v: Seq<PromptTemplate>) -> Seq<TemplateView> {
    v.map_values(|t: PromptTemplate| t@)
}

/// The value of a key.
pub open spec fn lookup(pairs: Seq<(Seq<char>, Seq<char>)>, key: Seq<char>, from: int) -> Option<
    Seq<char>,
>
    decreases pairs.len() - from,
{
    if from >= pairs.len() {
        None
    } else if pairs[from].0 == key {
        Some(pairs[from].1)
    } else {
        lookup(pairs, key, from + 1)
    }
}

/// The first line that is not blank, trimmed.
pub open spec fn first_line(lines: Seq<Seq<char>>, from: int) -> Option<Seq<char>>
    decreases lines.len() - from,
{
    if from >= lines.len() {
        None
    } else if !text::is_blank(lines[from]) {
        Some(text::trim(lines[from]))
    } else {
        first_line(lines, from + 1)
    }
}

/// The first `max` characters of a text, with dots on top where it is longer.
pub open spec fn shortened(s: Seq<char>, max: nat) -> Seq<char> {
    if s.len() <= max {
        s
    } else {
        s.take(max as int) + "..."@
    }
}

/// Takes the first `max` characters of a text, with dots on top where it is
/// longer.
pub fn shorten(chars: &Vec<char>, max: usize) -> (r: String)
    ensures
        r@ == shortened(chars@, max as nat),
{
    if chars.len() <= max {
        return text::to_text(chars);
    }
    let mut out = string_of(chars, 0, max);
    assert(out@ =~= chars@.take(max as int));
    out.push_str("...");
    out
}

/// The description of a template: what its front matter says, else its first
/// line, the first sixty characters of it with dots on top where it is longer.
pub open spec fn description_of(pairs: Seq<(Seq<char>, Seq<char>)>, body: Seq<char>) -> Seq<char> {
    match lookup(pairs, "description"@, 0) {
        Some(d) => d,
        None => match first_line(text::lines_of(body), 0) {
            Some(line) => shortened(line, 60),
            None => Seq::empty(),
        },
    }
}

/// The template that a file holds.
pub open spec fn template_of(name: Seq<char>, raw: Seq<char>, path: Seq<char>) -> TemplateView {
    let (pairs, body) = resources::front_matter(raw);
    TemplateView {
        name,
        description: description_of(pairs, body),
        content: text::trim(body),
        path,
    }
}

/// Reads the template that a file holds. `name` is the file's name without
/// its extension.
pub fn read_template(name: &str, raw: &str, path: &str) -> (r: PromptTemplate)
    ensures
        r@ == template_of(name@, raw@, path@),
{
    let (pairs, body) = resources::split_frontmatter(raw);
    let ghost pv = resources::pair_views(pairs@);
    let mut described: Option<String> = None;
    let mut i: usize = 0;
    while i < pairs.len() && described.is_none()
        invariant
            i <= pairs@.len(),
            pv == resources::pair_views(pairs@),
            match described {
                Some(d) => lookup(pv, "description"@, 0) == Some(d@),
                None => lookup(pv, "description"@, 0) == lookup(pv, "description"@, i as int),
            },
        decreases pairs@.len() - i,
    {
        assert(pv[i as int] == (pairs@[i as int].0@, pairs@[i as int].1@));
        if same_str(pairs[i].0.as_str(), "description") {
            described = Some(pairs[i].1.clone());
        }
        i += 1;
    }
    let body_chars = chars_of(body.as_str());
    let description = match described {
        Some(d) => d,
        None => {
            let lines = text::split_lines(&body_chars);
            let ghost ls = text::views(lines@);
            let mut found: Option<String> = None;
            let mut k: usize = 0;
            while k < lines.len() && found.is_none()
                invariant
                    k <= lines@.len(),
                    ls == text::views(lines@),
                    match found {
                        Some(d) => first_line(ls, 0) matches Some(l) && d@ == shortened(l, 60),
                        None => first_line(ls, 0) == first_line(ls, k as int),
                    },
                decreases lines@.len() - k,
            {
                assert(ls[k as int] == lines@[k as int]@);
                let line = text::trimmed(&lines[k]);
                if line.len() > 0 {
                    found = Some(shorten(&line, 60));
                }
                k += 1;
            }
            match found {
                Some(d) => d,
                None => {
                    let none = String::new();
                    assert(none@ =~= Seq::empty());
                    none
                },
            }
        },
    };
    let content = text::trim_text(body.as_str());
    PromptTemplate { name: name.to_owned(), description, content, path: path.to_owned() }
}

/// The templates with one more: it takes the place of the one with the same
/// name, or its place in the order of the names.
pub open spec fn with_template(list: Seq<TemplateView>, t: TemplateView) -> Seq<TemplateView>
    decreases list.len(),
{
    if list.len() == 0 {
        seq![t]
    } else if list[0].name == t.name {
        seq![t] + list.drop_first()
    } else if text::before(t.name, list[0].name) {
        seq![t] + list
    } else {
        seq![list[0]] + with_template(list.drop_first(), t)
    }
}

/// The templates of all files, in the order of their names. Of several with
/// one name the last file has it.
pub open spec fn merged_templates(loaded: Seq<TemplateView>) -> Seq<TemplateView>
    decreases loaded.len(),
{
    if loaded.len() == 0 {
        Seq::empty()
    } else {
        with_template(merged_templates(loaded.drop_last()), loaded.last())
    }
}

/// Puts a template in its place.
fn place_template(list: &mut Vec<PromptTemplate>, t: PromptTemplate)
    ensures
        template_views(final(list)@) == with_template(template_views(old(list)@), t@),
{
    let ghost before = template_views(list@);
    let name = chars_of(t.name.as_str());
    let mut i: usize = 0;
    assert(before.take(0) + with_template(before.skip(0), t@) =~= with_template(before, t@)) by {
        assert(before.skip(0) =~= before);
    }
    while i < list.len()
        invariant
            i <= list@.len(),
            name@ == t@.name,
            before == template_views(list@),
            before == template_views(old(list)@),
            before.take(i as int) + with_template(before.skip(i as int), t@) == with_template(
                before,
                t@,
            ),
        decreases list@.len() - i,
    {
        let ghost rest = before.skip(i as int);
        assert(rest[0] == list@[i as int]@);
        let other = chars_of(list[i].name.as_str());
        if text::same(&other, &name) {
            list.set(i, t);
            assert(template_views(list@) =~= before.take(i as int) + (seq![t@]
                + rest.drop_first()));
            return;
        }
        if text::is_before(&name, &other) {
            list.insert(i, t);
            assert(template_views(list@) =~= before.take(i as int) + (seq![t@] + rest));
            return;
        }
        proof {
            assert(rest.drop_first() =~= before.skip(i + 1));
            assert(before.take(i + 1) + with_template(before.skip(i + 1), t@) =~= before.take(
                i as int,
            ) + (seq![rest[0]] + with_template(before.skip(i + 1), t@)));
        }
        i += 1;
    }
    let ghost kept = list@;
    list.push(t);
    assert(before.skip(i as int) =~= Seq::empty());
    assert(template_views(list@) =~= before.take(i as int) + seq![t@]);
}

/// Merges the templates of all files: later ones win, and the result is in
/// the order of the names.
pub fn merge_templates(loaded: Vec<PromptTemplate>) -> (r: Vec<PromptTemplate>)
    ensures
        template_views(r@) == merged_templates(template_views(loaded@)),
{
    let ghost all = template_views(loaded@);
    let mut out: Vec<PromptTemplate> = Vec::new();
    let mut rest = loaded;
    let ghost mut n: int = 0;
    assert(template_views(out@) =~= Seq::empty());
    assert(all.take(0) =~= Seq::empty());
    assert(all.skip(0) =~= all);
    while rest.len() > 0
        invariant
            n + rest@.len() == all.len(),
            0 <= n,
            template_views(rest@) == all.skip(n),
            template_views(out@) == merged_templates(all.take(n)),
        decreases rest@.len(),
    {
        let ghost r0 = rest@;
        let t = rest.remove(0);
        proof {
            assert(template_views(r0)[0] == all[n]);
            assert(template_views(rest@) =~= template_views(r0).skip(1));
            assert(all.skip(n).skip(1) =~= all.skip(n + 1));
            assert(all.take(n + 1).drop_last() =~= all.take(n));
        }
        place_template(&mut out, t);
        proof {
            n = n + 1;
        }
    }
    assert(all.take(n) =~= all);
    out
}

/// A file of a directory of templates: its name, whether it is a file at all,
/// what it holds if it can be read, and where it is.
#[derive(Debug)]
pub struct PromptFile {
    pub name: String,
    pub is_file: bool,
    pub raw: Option<String>,
    pub path: String,
}

/// The name of the template that a file holds, by the file's name.
pub open spec fn template_name(file: Seq<char>) -> Option<Seq<char>> {
    if text::has_suffix(file, ".md"@) && file.len() > 3 {
        Some(file.take(file.len() - 3))
    } else {
        None
    }
}

/// The template of a file, if it holds one.
pub open spec fn file_template(f: PromptFile) -> Option<TemplateView> {
    match (template_name(f.name@), f.raw) {
        (Some(name), Some(raw)) if f.is_file => Some(template_of(name, raw@, f.path@)),
        _ => None,
    }
}

/// The templates of the first `n` files.
pub open spec fn file_templates(files: Seq<PromptFile>, n: int) -> Seq<TemplateView>
    decreases n,
{
    if n <= 0 {
        Seq::empty()
    } else {
        match file_template(files[n - 1]) {
            Some(t) => file_templates(files, n - 1).push(t),
            None => file_templates(files, n - 1),
        }
    }
}

fn load_template(f: &PromptFile) -> (r: Option<PromptTemplate>)
    ensures
        match r {
            Some(t) => file_template(*f) == Some(t@),
            None => file_template(*f) is None,
        },
{
    proof {
        reveal_strlit(".md");
    }
    let chars = chars_of(f.name.as_str());
    let n: usize = chars.len();
    if n <= 3 || !f.is_file {
        return None;
    }
    let tail = text::slice(&chars, n - 3, n);
    assert(tail@ =~= f.name@.skip(n - 3));
    if !text::is_str(&tail, ".md") {
        return None;
    }
    let name = text::string_of(&chars, 0, n - 3);
    assert(name@ =~= f.name@.take(n - 3));
    match &f.raw {
        Some(raw) => Some(read_template(name.as_str(), raw.as_str(), f.path.as_str())),
        None => None,
    }
}

/// Loads the templates of the files of all roots, the more specific roots
/// last. A template replaces an earlier one of its name, and the result is in
/// the order of the names.
pub fn load_prompt_templates(files: &Vec<PromptFile>) -> (r: Vec<PromptTemplate>)
    ensures
        template_views(r@) == merged_templates(file_templates(files@, files@.len() as int)),
{
    let mut loaded: Vec<PromptTemplate> = Vec::new();
    let mut i: usize = 0;
    assert(template_views(loaded@) =~= Seq::empty());
    while i < files.len()
        invariant
            i <= files@.len(),
            template_views(loaded@) == file_templates(files@, i as int),
        decreases files@.len() - i,
    {
        if let Some(t) = load_template(&files[i]) {
            let ghost before = template_views(loaded@);
            let ghost shown = t@;
            loaded.push(t);
            assert(template_views(loaded@) =~= before.push(shown));
        }
        i += 1;
    }
    merge_templates(loaded)
}

/// Whether templates stand in the order of their names, each name once.
pub open spec fn in_name_order(list: Seq<TemplateView>) -> bool {
    forall|j: int, k: int|
        0 <= j < k < list.len() ==> text::before(
            (#[trigger] list[j]).name,
            (#[trigger] list[k]).name,
        )
}

proof fn lemma_with_template_order(list: Seq<TemplateView>, t: TemplateView)
    requires
        in_name_order(list),
    ensures
        in_name_order(with_template(list, t)),
        forall|k: int|
            0 <= k < with_template(list, t).len() ==> (#[trigger] with_template(list, t)[k]) == t
                || list.contains(with_template(list, t)[k]),
        with_template(list, t).contains(t),
    decreases list.len(),
{
    let r = with_template(list, t);
    if list.len() == 0 {
        assert(r[0] == t);
    } else if list[0].name == t.name {
        assert(r[0] == t);
        assert forall|k: int| 0 <= k < r.len() implies (#[trigger] r[k]) == t || list.contains(
            r[k],
        ) by {
            if k > 0 {
                assert(r[k] == list[k]);
            }
        }
    } else if text::before(t.name, list[0].name) {
        assert(r[0] == t);
        assert forall|j: int, k: int| 0 <= j < k < r.len() implies text::before(
            (#[trigger] r[j]).name,
            (#[trigger] r[k]).name,
        ) by {
            if j == 0 {
                if k > 1 {
                    assert(r[k] == list[k - 1]);
                    text::lemma_before_transitive(t.name, list[0].name, list[k - 1].name);
                }
            } else {
                assert(r[j] == list[j - 1] && r[k] == list[k - 1]);
            }
        }
        assert forall|k: int| 0 <= k < r.len() implies (#[trigger] r[k]) == t || list.contains(
            r[k],
        ) by {
            if k > 0 {
                assert(r[k] == list[k - 1]);
            }
        }
    } else {
        let tail = list.drop_first();
        let rt = with_template(tail, t);
        assert(in_name_order(tail)) by {
            assert forall|j: int, k: int| 0 <= j < k < tail.len() implies text::before(
                (#[trigger] tail[j]).name,
                (#[trigger] tail[k]).name,
            ) by {
                assert(tail[j] == list[j + 1] && tail[k] == list[k + 1]);
            }
        }
        lemma_with_template_order(tail, t);
        text::lemma_before_total(t.name, list[0].name);
        assert forall|j: int, k: int| 0 <= j < k < r.len() implies text::before(
            (#[trigger] r[j]).name,
            (#[trigger] r[k]).name,
        ) by {
            assert(r[k] == rt[k - 1]);
            if j == 0 {
                if rt[k - 1] != t {
                    let m = choose|m: int| 0 <= m < tail.len() && tail[m] == rt[k - 1];
                    assert(tail.contains(rt[k - 1]));
                    assert(list[m + 1] == tail[m]);
                }
            } else {
                assert(r[j] == rt[j - 1]);
            }
        }
        assert forall|k: int| 0 <= k < r.len() implies (#[trigger] r[k]) == t || list.contains(
            r[k],
        ) by {
            if k == 0 {
                assert(r[k] == list[0]);
            } else {
                assert(r[k] == rt[k - 1]);
                if rt[k - 1] != t {
                    assert(tail.contains(rt[k - 1]));
                    let m = choose|m: int| 0 <= m < tail.len() && tail[m] == rt[k - 1];
                    assert(list[m + 1] == tail[m]);
                }
            }
        }
        let m = choose|m: int| 0 <= m < rt.len() && rt[m] == t;
        assert(r[m + 1] == t);
    }
}

/// The merged templates stand in the order of their names, each name once.
pub proof fn law_templates_are_in_name_order(loaded: Seq<TemplateView>)
    ensures
        in_name_order(merged_templates(loaded)),
    decreases loaded.len(),
{
    if loaded.len() > 0 {
        law_templates_are_in_name_order(loaded.drop_last());
        lemma_with_template_order(merged_templates(loaded.drop_last()), loaded.last());
    }
}

/// The first template with a name, looking from `from` on.
pub open spec fn find_template(list: Seq<TemplateView>, name: Seq<char>, from: int) -> Option<
    TemplateView,
>
    decreases list.len() - from,
{
    if from >= list.len() {
        None
    } else if list[from].name == name {
        Some(list[from])
    } else {
        find_template(list, name, from + 1)
    }
}

/// The last of the first `n` templates that has a name.
pub open spec fn last_template(loaded: Seq<TemplateView>, name: Seq<char>, n: int) -> Option<
    TemplateView,
>
    decreases n,
{
    if n <= 0 {
        None
    } else if loaded[n - 1].name == name {
        Some(loaded[n - 1])
    } else {
        last_template(loaded, name, n - 1)
    }
}

proof fn lemma_find_shift(list: Seq<TemplateView>, name: Seq<char>, from: int)
    requires
        1 <= from <= list.len(),
    ensures
        find_template(list, name, from) == find_template(list.drop_first(), name, from - 1),
    decreases list.len() - from,
{
    if from < list.len() {
        assert(list[from] == list.drop_first()[from - 1]);
        if list[from].name != name {
            lemma_find_shift(list, name, from + 1);
        }
    }
}

proof fn lemma_find_first(t: TemplateView, list: Seq<TemplateView>, name: Seq<char>)
    ensures
        find_template(seq![t] + list, name, 0) == (if t.name == name {
            Some(t)
        } else {
            find_template(list, name, 0)
        }),
{
    let all = seq![t] + list;
    lemma_find_shift(all, name, 1);
    assert(all.drop_first() =~= list);
}

proof fn lemma_find_placed(list: Seq<TemplateView>, t: TemplateView, name: Seq<char>)
    ensures
        find_template(with_template(list, t), name, 0) == (if t.name == name {
            Some(t)
        } else {
            find_template(list, name, 0)
        }),
    decreases list.len(),
{
    if list.len() == 0 {
        lemma_find_first(t, list, name);
        assert(seq![t] + list =~= seq![t]);
    } else {
        let rest = list.drop_first();
        lemma_find_first(list[0], rest, name);
        assert(seq![list[0]] + rest =~= list);
        if list[0].name == t.name {
            lemma_find_first(t, rest, name);
        } else if text::before(t.name, list[0].name) {
            lemma_find_first(t, list, name);
        } else {
            lemma_find_placed(rest, t, name);
            lemma_find_first(list[0], with_template(rest, t), name);
        }
    }
}

/// The most specific file wins, name by name: under every name that some
/// file has, the template of the last such file is found, and under any
/// other name none.
pub proof fn law_the_last_template_wins(loaded: Seq<TemplateView>, name: Seq<char>)
    ensures
        find_template(merged_templates(loaded), name, 0) == last_template(
            loaded,
            name,
            loaded.len() as int,
        ),
    decreases loaded.len(),
{
    if loaded.len() > 0 {
        let before = loaded.drop_last();
        law_the_last_template_wins(before, name);
        lemma_find_placed(merged_templates(before), loaded.last(), name);
        lemma_last_template(before, loaded, name, before.len() as int);
    }
}

proof fn lemma_last_template(
    a: Seq<TemplateView>,
    b: Seq<TemplateView>,
    name: Seq<char>,
    n: int,
)
    requires
        n <= a.len() <= b.len(),
        forall|k: int| 0 <= k < n ==> a[k] == b[k],
    ensures
        last_template(a, name, n) == last_template(b, name, n),
    decreases n,
{
    if n > 0 {
        lemma_last_template(a, b, name, n - 1);
    }
}

/// What `/name args` expands to, if it names a template.
pub open spec fn expanded(s: Seq<char>, list: Seq<TemplateView>) -> Option<Seq<char>> {
    if s.len() > 0 && s[0] == '/' {
        let (name, args) = text::head_and_rest(s.skip(1));
        match find_template(list, name, 0) {
            Some(t) => Some(substituted(t.content, args_of(args))),
            None => None,
        }
    } else {
        None
    }
}

/// Expands `/name args` against the templates.
pub fn expand_prompt_template(s: &str, templates: &Vec<PromptTemplate>) -> (r: Option<String>)
    ensures
        resources::opt(r) == expanded(s@, template_views(templates@)),
{
    let chars = chars_of(s);
    let n: usize = chars.len();
    if n == 0 || chars[0] != '/' {
        return None;
    }
    let behind = slice(&chars, 1, n);
    assert(behind@ =~= chars@.skip(1));
    let (name, args) = text::split_head(&behind);
    let ghost list = template_views(templates@);
    let mut i: usize = 0;
    while i < templates.len()
        invariant
            i <= templates@.len(),
            list == template_views(templates@),
            chars@ == s@,
            s@.len() > 0,
            s@[0] == '/',
            (name@, args@) == text::head_and_rest(s@.skip(1)),
            find_template(list, name@, 0) == find_template(list, name@, i as int),
        decreases templates@.len() - i,
    {
        assert(list[i as int] == templates@[i as int]@);
        if text::is_str(&name, templates[i].name.as_str()) {
            let args_text = text::to_text(&args);
            let list_args = parse_command_args(args_text.as_str());
            return Some(substitute_args(templates[i].content.as_str(), &list_args));
        }
        i += 1;
    }
    None
}

// ---------------------------------------------------------------------------
// Built-ins
// ---------------------------------------------------------------------------

/// A command that the frontend handles.
#[derive(Debug)]
pub struct BuiltinCommand {
    pub name: &'static str,
    pub description: &'static str,
}

/// How many built-in commands there are.
pub const BUILTIN_COUNT: usize = 12;

/// The names of the built-in commands, in the order of the help.
pub open spec fn builtin_name(k: int) -> Seq<char> {
    if k == 0 {
        "help"@
    } else if k == 1 {
        "new"@
    } else if k == 2 {
        "model"@
    } else if k == 3 {
        "provider"@
    } else if k == 4 {
        "login"@
    } else if k == 5 {
        "logout"@
    } else if k == 6 {
        "thinking"@
    } else if k == 7 {
        "session-id"@
    } else if k == 8 {
        "hot-reload"@
    } else if k == 9 {
        "usage"@
    } else if k == 10 {
        "quit"@
    } else {
        "review"@
    }
}

/// What the help says of each built-in command.
pub open spec fn builtin_description(k: int) -> Seq<char> {
    if k == 0 {
        "List all commands and prompt templates"@
    } else if k == 1 {
        "Clear the conversation and start fresh"@
    } else if k == 2 {
        "Switch model: /model <id> (no argument lists them)"@
    } else if k == 3 {
        "Switch provider: /provider <name> [api-key] (no argument lists them)"@
    } else if k == 4 {
        "Log in with a subscription: /login openai-codex [redirect-url]"@
    } else if k == 5 {
        "Forget a stored login: /logout openai-codex"@
    } else if k == 6 {
        "Set thinking level: /thinking off|minimal|low|medium|high|xhigh"@
    } else if k == 7 {
        "Show the session id and list this project's sessions"@
    } else if k == 8 {
        "Apply configuration changes: /hot-reload [session-id]"@
    } else if k == 9 {
        "Show session token and cost totals"@
    } else if k == 10 {
        "Quit cupel"@
    } else {
        "Review code: /review [path...] or /review --diff"@
    }
}

/// The built-in commands.
pub fn builtin_commands() -> (r: Vec<BuiltinCommand>)
    ensures
        r@.len() == BUILTIN_COUNT,
        forall|k: int|
            0 <= k < BUILTIN_COUNT ==> (#[trigger] r@[k]).name@ == builtin_name(k)
                && r@[k].description@ == builtin_description(k),
{
    vec![
        BuiltinCommand { name: "help", description: "List all commands and prompt templates" },
        BuiltinCommand { name: "new", description: "Clear the conversation and start fresh" },
        BuiltinCommand {
            name: "model",
            description: "Switch model: /model <id> (no argument lists them)",
        },
        BuiltinCommand {
            name: "provider",
            description: "Switch provider: /provider <name> [api-key] (no argument lists them)",
        },
        BuiltinCommand {
            name: "login",
            description: "Log in with a subscription: /login openai-codex [redirect-url]",
        },
        BuiltinCommand {
            name: "logout",
            description: "Forget a stored login: /logout openai-codex",
        },
        BuiltinCommand {
            name: "thinking",
            description: "Set thinking level: /thinking off|minimal|low|medium|high|xhigh",
        },
        BuiltinCommand {
            name: "session-id",
            description: "Show the session id and list this project's sessions",
        },
        BuiltinCommand {
            name: "hot-reload",
            description: "Apply configuration changes: /hot-reload [session-id]",
        },
        BuiltinCommand { name: "usage", description: "Show session token and cost totals" },
        BuiltinCommand { name: "quit", description: "Quit cupel" },
        BuiltinCommand {
            name: "review",
            description: "Review code: /review [path...] or /review --diff",
        },
    ]
}

// ---------------------------------------------------------------------------
// Laws
// ---------------------------------------------------------------------------

/// The split goes on from a state over some more characters.
spec fn args_from(st: ArgsView, s: Seq<char>) -> ArgsView
    decreases s.len(),
{
    if s.len() == 0 {
        st
    } else {
        args_step(args_from(st, s.drop_last()), s.last())
    }
}

spec fn args_start() -> ArgsView {
    ArgsView { done: Seq::empty(), current: Seq::empty(), quote: None }
}

proof fn lemma_args_from(s: Seq<char>, n: int)
    requires
        0 <= n <= s.len(),
    ensures
        args_after(s, n) == args_from(args_start(), s.take(n)),
    decreases n,
{
    if n > 0 {
        lemma_args_from(s, n - 1);
        assert(s.take(n).drop_last() =~= s.take(n - 1));
        assert(s.take(n).last() == s[n - 1]);
    } else {
        assert(s.take(0) =~= Seq::empty());
    }
}

proof fn lemma_args_of(s: Seq<char>)
    ensures
        args_of(s) == args_with_current(args_from(args_start(), s)),
{
    lemma_args_from(s, s.len() as int);
    assert(s.take(s.len() as int) =~= s);
}

proof fn lemma_args_add(st: ArgsView, a: Seq<char>, b: Seq<char>)
    ensures
        args_from(st, a + b) == args_from(args_from(st, a), b),
    decreases b.len(),
{
    if b.len() == 0 {
        assert(a + b =~= a);
    } else {
        lemma_args_add(st, a, b.drop_last());
        assert((a + b).drop_last() =~= a + b.drop_last());
        assert((a + b).last() == b.last());
    }
}

proof fn lemma_args_one(st: ArgsView, c: char)
    ensures
        args_from(st, seq![c]) == args_step(st, c),
{
    assert(seq![c].drop_last() =~= Seq::empty());
    assert(args_from(st, seq![c].drop_last()) == st);
}

proof fn lemma_args_inside(st: ArgsView, q: char, s: Seq<char>)
    requires
        st.quote == Some(q),
        !s.contains(q),
    ensures
        args_from(st, s) == (ArgsView { current: st.current + s, ..st }),
    decreases s.len(),
{
    if s.len() == 0 {
        assert(st.current + s =~= st.current);
    } else {
        let front = s.drop_last();
        assert(!front.contains(q)) by {
            if front.contains(q) {
                let k = choose|k: int| 0 <= k < front.len() && front[k] == q;
                assert(s[k] == q);
            }
        }
        lemma_args_inside(st, q, front);
        assert(s.contains(s.last()));
        assert((st.current + front).push(s.last()) =~= st.current + s);
    }
}

proof fn lemma_args_plain(st: ArgsView, s: Seq<char>)
    requires
        st.quote is None,
        is_plain_word(s),
    ensures
        args_from(st, s) == (ArgsView { current: st.current + s, ..st }),
    decreases s.len(),
{
    if s.len() == 0 {
        assert(st.current + s =~= st.current);
    } else {
        let front = s.drop_last();
        assert forall|k: int| 0 <= k < front.len() implies !text::is_white_space(
            #[trigger] front[k],
        ) && front[k] != '"' && front[k] != '\'' by {
            assert(front[k] == s[k]);
        }
        lemma_args_plain(st, front);
        assert(s[s.len() - 1] == s.last());
        assert((st.current + front).push(s.last()) =~= st.current + s);
    }
}

proof fn lemma_args_quoted(st: ArgsView, q: char, s: Seq<char>)
    requires
        st.quote is None,
        q == '"' || q == '\'',
        !s.contains(q),
    ensures
        args_from(st, quoted_with(q, s)) == (ArgsView { current: st.current + s, ..st }),
{
    lemma_args_add(st, seq![q] + s, seq![q]);
    lemma_args_add(st, seq![q], s);
    lemma_args_one(st, q);
    let inside = args_step(st, q);
    lemma_args_inside(inside, q, s);
    lemma_args_one(args_from(inside, s), q);
}

/// A text without white space and without quotes.
pub open spec fn is_plain_word(s: Seq<char>) -> bool {
    forall|k: int|
        0 <= k < s.len() ==> !text::is_white_space(#[trigger] s[k]) && s[k] != '"' && s[k] != '\''
}

/// A text between two quotes.
pub open spec fn quoted_with(q: char, s: Seq<char>) -> Seq<char> {
    seq![q] + s + seq![q]
}

/// Whether a text is written so that it is one argument: as it is, where it
/// has neither white space nor quotes, or between two quotes of the kind
/// that it does not hold.
pub open spec fn is_written(written: Seq<char>, s: Seq<char>) -> bool {
    ||| written == s && is_plain_word(s)
    ||| written == quoted_with('"', s) && !s.contains('"')
    ||| written == quoted_with('\'', s) && !s.contains('\'')
}

proof fn lemma_args_written(st: ArgsView, written: Seq<char>, s: Seq<char>)
    requires
        st.quote is None,
        is_written(written, s),
    ensures
        args_from(st, written) == (ArgsView { current: st.current + s, ..st }),
{
    if written == s && is_plain_word(s) {
        lemma_args_plain(st, s);
    } else if written == quoted_with('"', s) && !s.contains('"') {
        lemma_args_quoted(st, '"', s);
    } else {
        lemma_args_quoted(st, '\'', s);
    }
}

/// Quoting is undone: a text between two quotes of one kind is one argument,
/// with all that it holds, quotes of the other kind and white space too.
pub proof fn law_quoted_text_is_one_argument(q: char, s: Seq<char>)
    requires
        q == '"' || q == '\'',
        s.len() > 0,
        !s.contains(q),
    ensures
        args_of(seq![q] + s + seq![q]) == seq![s],
        args_of(seq![q] + s) == seq![s],
{
    let st = args_start();
    lemma_args_of(seq![q] + s + seq![q]);
    lemma_args_quoted(st, q, s);
    assert(st.current + s =~= s);
    assert(args_of(seq![q] + s + seq![q]) =~= seq![s]);
    lemma_args_of(seq![q] + s);
    lemma_args_add(st, seq![q], s);
    lemma_args_one(st, q);
    lemma_args_inside(args_step(st, q), q, s);
    assert(args_of(seq![q] + s) =~= seq![s]);
}

/// What stands side by side without white space between is one argument:
/// quotes may start and end within a word.
pub proof fn law_quotes_may_stand_within_a_word(
    a: Seq<char>,
    q: char,
    s: Seq<char>,
    b: Seq<char>,
)
    requires
        q == '"' || q == '\'',
        is_plain_word(a),
        is_plain_word(b),
        !s.contains(q),
        (a + s + b).len() > 0,
    ensures
        args_of(a + quoted_with(q, s) + b) == seq![a + s + b],
{
    let st = args_start();
    lemma_args_of(a + quoted_with(q, s) + b);
    lemma_args_add(st, a + quoted_with(q, s), b);
    lemma_args_add(st, a, quoted_with(q, s));
    lemma_args_plain(st, a);
    let one = args_from(st, a);
    lemma_args_quoted(one, q, s);
    let two = args_from(one, quoted_with(q, s));
    lemma_args_plain(two, b);
    assert(two.current + b =~= a + s + b);
    assert(args_of(a + quoted_with(q, s) + b) =~= seq![a + s + b]);
}

proof fn lemma_arguments(written: Seq<Seq<char>>, args: Seq<Seq<char>>, c: char)
    requires
        text::is_white_space(c),
        written.len() == args.len(),
        args.len() > 0,
        forall|k: int|
            0 <= k < args.len() ==> (#[trigger] args[k]).len() > 0 && is_written(
                written[k],
                args[k],
            ),
    ensures
        args_from(args_start(), text::joined(written, seq![c])) == (ArgsView {
            done: args.drop_last(),
            current: args.last(),
            quote: None,
        }),
    decreases args.len(),
{
    let st = args_start();
    let n = args.len() as int;
    assert(args[n - 1].len() > 0);
    if n == 1 {
        lemma_args_written(st, written[0], args[0]);
        assert(st.current + args[0] =~= args[0]);
        assert(args.drop_last() =~= Seq::empty());
    } else {
        let w = written.drop_last();
        let a = args.drop_last();
        assert forall|k: int| 0 <= k < a.len() implies (#[trigger] a[k]).len() > 0 && is_written(
            w[k],
            a[k],
        ) by {
            assert(a[k] == args[k]);
        }
        lemma_arguments(w, a, c);
        let front = text::joined(w, seq![c]);
        lemma_args_add(st, front + seq![c], written.last());
        lemma_args_add(st, front, seq![c]);
        let one = args_from(st, front);
        lemma_args_one(one, c);
        let two = args_step(one, c);
        assert(c != '"' && c != '\'');
        assert(a.drop_last().push(a.last()) =~= a);
        assert(two == (ArgsView { done: a, current: Seq::empty(), quote: None }));
        assert(two.done =~= a);
        lemma_args_written(two, written[n - 1], args[n - 1]);
        assert(two.current + args[n - 1] =~= args[n - 1]);
    }
}

/// Arguments come back as they were written: plain or quoted, with white
/// space between them.
pub proof fn law_arguments_come_back(written: Seq<Seq<char>>, args: Seq<Seq<char>>, c: char)
    requires
        text::is_white_space(c),
        written.len() == args.len(),
        forall|k: int|
            0 <= k < args.len() ==> (#[trigger] args[k]).len() > 0 && is_written(
                written[k],
                args[k],
            ),
    ensures
        args_of(text::joined(written, seq![c])) == args,
{
    lemma_args_of(text::joined(written, seq![c]));
    if args.len() > 0 {
        lemma_arguments(written, args, c);
        assert(args[args.len() - 1].len() > 0);
        assert(args.drop_last().push(args.last()) =~= args);
    } else {
        assert(args_of(text::joined(written, seq![c])) =~= args);
    }
}

/// Further white space between arguments changes nothing.
pub proof fn law_white_space_does_not_add_up(a: Seq<char>, c: char)
    requires
        text::is_white_space(c),
        is_plain_word(a),
    ensures
        args_of(a.push(c)) == args_of(a),
        args_of(seq![c] + a) == args_of(a),
{
    let st = args_start();
    lemma_args_of(a);
    lemma_args_of(a.push(c));
    lemma_args_of(seq![c] + a);
    assert(c != '"' && c != '\'');
    assert(a.push(c) =~= a + seq![c]);
    lemma_args_add(st, a, seq![c]);
    lemma_args_plain(st, a);
    lemma_args_one(args_from(st, a), c);
    lemma_args_add(st, seq![c], a);
    lemma_args_one(st, c);
    assert(args_step(st, c).current =~= st.current);
    assert(args_step(st, c).done =~= st.done);
    assert(args_step(st, c) == st);
}

// Placeholders.

proof fn lemma_digits_value(n: nat)
    ensures
        digits_value(text::decimal(n)) == n,
    decreases n,
{
    if n >= 10 {
        lemma_digits_value(n / 10);
        assert(text::decimal(n).drop_last() =~= text::decimal(n / 10));
        assert(text::decimal(n).last() == text::digit((n % 10) as int));
    } else {
        assert(text::decimal(n).drop_last() =~= Seq::empty());
        assert(digits_value(text::decimal(n).drop_last()) == 0);
        assert(text::decimal(n).last() == text::digit(n as int));
    }
}

/// A number that was written in decimal is read as that number.
pub proof fn law_numbers_are_read_back(n: nat)
    requires
        n <= usize::MAX,
    ensures
        number_of(text::decimal(n)) == Some(n),
        number_of(seq!['+'] + text::decimal(n)) == Some(n),
{
    let d = text::decimal(n);
    text::law_decimals_read_as_their_number(n);
    lemma_digits_value(n);
    assert('0' <= d[0]);
    assert(without_plus(d) == d);
    assert forall|k: int| 0 <= k < d.len() implies markdown::is_digit(#[trigger] d[k]) by {}
    assert((seq!['+'] + d).skip(1) =~= d);
}

proof fn lemma_find_shift_by(p: Seq<char>, s: Seq<char>, c: char, i: int)
    requires
        0 <= i,
    ensures
        text::find_from(p + s, c, p.len() + i) == p.len() + text::find_from(s, c, i),
    decreases s.len() - i,
{
    if i < s.len() {
        assert((p + s)[p.len() + i] == s[i]);
        if s[i] != c {
            lemma_find_shift_by(p, s, c, i + 1);
        }
    }
}

proof fn lemma_dollar_shift(p: Seq<char>, s: Seq<char>, i: int, args: Seq<Seq<char>>)
    requires
        0 <= i < s.len(),
    ensures
        dollar(p + s, p.len() + i, args) == (
            dollar(s, i, args).0,
            p.len() + dollar(s, i, args).1,
        ),
{
    let t = p + s;
    let j = p.len() + i;
    assert(t.skip(j + 1) =~= s.skip(i + 1));
    if i + 1 < s.len() {
        assert(t[j + 1] == s[i + 1]);
        lemma_find_shift_by(p, s, '}', i + 2);
        text::lemma_find_from(s, '}', i + 2);
        let close = text::find_from(s, '}', i + 2);
        if close < s.len() {
            assert(t.subrange(j + 2, p.len() + close) =~= s.subrange(i + 2, close));
        }
    }
    let d = markdown::digits_len(s.skip(i + 1)) as int;
    markdown::lemma_digits_len(s.skip(i + 1));
    assert(t.subrange(j + 1, j + 1 + d) =~= s.subrange(i + 1, i + 1 + d));
}

proof fn lemma_substituted_shift(p: Seq<char>, s: Seq<char>, i: int, args: Seq<Seq<char>>)
    requires
        0 <= i <= s.len(),
    ensures
        substituted_from(p + s, p.len() + i, args) == substituted_from(s, i, args),
    decreases s.len() - i,
{
    if i < s.len() {
        assert((p + s)[p.len() + i] == s[i]);
        if s[i] == '$' {
            lemma_dollar(s, i, args);
            lemma_dollar_shift(p, s, i, args);
            lemma_substituted_shift(p, s, dollar(s, i, args).1, args);
        } else {
            lemma_substituted_shift(p, s, i + 1, args);
        }
    }
}

/// What stands before the first dollar sign stays, and what follows is
/// substituted on its own.
pub proof fn law_text_before_a_placeholder_stays(
    a: Seq<char>,
    s: Seq<char>,
    args: Seq<Seq<char>>,
)
    requires
        !a.contains('$'),
    ensures
        substituted(a + s, args) == a + substituted(s, args),
    decreases a.len(),
{
    if a.len() == 0 {
        assert(a + s =~= s);
        assert(a + substituted(s, args) =~= substituted(s, args));
    } else {
        let rest = a.drop_first();
        let t = a + s;
        assert(!rest.contains('$')) by {
            if rest.contains('$') {
                let k = choose|k: int| 0 <= k < rest.len() && rest[k] == '$';
                assert(a[k + 1] == '$');
            }
        }
        assert(a.contains(a[0]));
        law_text_before_a_placeholder_stays(rest, s, args);
        assert(t =~= seq![a[0]] + (rest + s));
        lemma_substituted_shift(seq![a[0]], rest + s, 0, args);
        assert(substituted(t, args) =~= a + substituted(s, args));
    }
}

proof fn lemma_placeholder(
    mark: Seq<char>,
    rest: Seq<char>,
    piece: Seq<char>,
    args: Seq<Seq<char>>,
)
    requires
        mark.len() > 0,
        mark[0] == '$',
        dollar(mark + rest, 0, args) == (piece, mark.len() as int),
    ensures
        substituted(mark + rest, args) == piece + substituted(rest, args),
{
    lemma_substituted_shift(mark, rest, 0, args);
}

/// `$@` and `$ARGUMENTS` stand for all arguments with spaces between.
pub proof fn law_all_arguments(rest: Seq<char>, args: Seq<Seq<char>>)
    ensures
        substituted("$@"@ + rest, args) == text::joined(args, seq![' ']) + substituted(rest, args),
        substituted("$ARGUMENTS"@ + rest, args) == text::joined(args, seq![' ']) + substituted(
            rest,
            args,
        ),
{
    reveal_strlit("$@");
    reveal_strlit("$ARGUMENTS");
    reveal_strlit("ARGUMENTS");
    reveal_strlit(" ");
    assert(" "@ =~= seq![' ']);
    let s = "$@"@ + rest;
    assert(s[0] == '$' && s[1] == '@');
    assert(s.skip(1)[0] == '@');
    assert(!text::has_prefix(s.skip(1), "ARGUMENTS"@)) by {
        if text::has_prefix(s.skip(1), "ARGUMENTS"@) {
            assert(s.skip(1).take(9)[0] == s.skip(1)[0]);
        }
    }
    lemma_placeholder("$@"@, rest, text::joined(args, " "@), args);
    let t = "$ARGUMENTS"@ + rest;
    assert(t[0] == '$' && t[1] == 'A');
    assert(t.skip(1).take(9) =~= "ARGUMENTS"@);
    lemma_placeholder("$ARGUMENTS"@, rest, text::joined(args, " "@), args);
}

/// `$1`, `$2` and so on stand for the argument of that number, counted from
/// one, and for nothing where there is none.
pub proof fn law_numbered_arguments(n: nat, rest: Seq<char>, args: Seq<Seq<char>>)
    requires
        n <= usize::MAX,
        rest.len() > 0 ==> !('0' <= rest[0] <= '9'),
    ensures
        substituted(seq!['$'] + text::decimal(n) + rest, args) == (if 1 <= n <= args.len() {
            args[n - 1]
        } else {
            Seq::empty()
        }) + substituted(rest, args),
{
    reveal_strlit("ARGUMENTS");
    let d = text::decimal(n);
    let mark = seq!['$'] + d;
    let s = mark + rest;
    text::law_decimals_read_as_their_number(n);
    law_numbers_are_read_back(n);
    let behind = s.skip(1);
    assert(behind =~= d + rest);
    assert(s[1] == d[0]);
    assert(!text::has_prefix(behind, "ARGUMENTS"@)) by {
        if text::has_prefix(behind, "ARGUMENTS"@) {
            assert(behind.take(9)[0] == behind[0]);
        }
    }
    assert forall|k: int| 0 <= k < d.len() implies markdown::is_digit(#[trigger] behind[k]) by {
        assert(behind[k] == d[k]);
    }
    if rest.len() > 0 {
        assert(behind[d.len() as int] == rest[0]);
    }
    markdown::lemma_digits_len_is(behind, d.len() as int);
    assert(s.subrange(1, 1 + d.len() as int) =~= d);
    let piece = if 1 <= n <= args.len() {
        args[n - 1]
    } else {
        Seq::empty()
    };
    lemma_placeholder(mark, rest, piece, args);
}

proof fn lemma_braces(
    inner: Seq<char>,
    rest: Seq<char>,
    piece: Seq<char>,
    args: Seq<Seq<char>>,
)
    requires
        !inner.contains('}'),
        braced(inner, args) == Some(piece),
    ensures
        substituted(seq!['$', '{'] + inner + seq!['}'] + rest, args) == piece + substituted(
            rest,
            args,
        ),
{
    let mark = seq!['$', '{'] + inner + seq!['}'];
    let s = mark + rest;
    let close = 2 + inner.len() as int;
    assert(s[0] == '$' && s[1] == '{' && s[close] == '}');
    assert forall|k: int| 2 <= k < close implies s[k] != '}' by {
        assert(s[k] == inner[k - 2]);
        assert(inner.contains(inner[k - 2]));
    }
    text::lemma_find_from_is(s, '}', 2, close);
    assert(s.subrange(2, close) =~= inner);
    lemma_placeholder(mark, rest, piece, args);
}

/// `${N:-default}` stands for argument N, or for the default where that is
/// missing or empty.
pub proof fn law_defaults_stand_in(n: nat, default: Seq<char>, rest: Seq<char>, args: Seq<Seq<char>>)
    requires
        n <= usize::MAX,
        !default.contains('}'),
    ensures
        substituted(
            seq!['$', '{'] + (text::decimal(n) + ":-"@ + default) + seq!['}'] + rest,
            args,
        ) == (if 1 <= n <= args.len() && args[n - 1].len() > 0 {
            args[n - 1]
        } else {
            default
        }) + substituted(rest, args),
{
    reveal_strlit(":-");
    let d = text::decimal(n);
    let inner = d + ":-"@ + default;
    let at = d.len() as int;
    text::law_decimals_read_as_their_number(n);
    law_numbers_are_read_back(n);
    text::lemma_find_text(inner, ":-"@, 0);
    assert(inner.subrange(at, at + 2) =~= ":-"@);
    assert(text::occurs_at(inner, ":-"@, at));
    assert forall|k: int| 0 <= k < at implies !text::occurs_at(inner, ":-"@, k) by {
        if text::occurs_at(inner, ":-"@, k) {
            assert(inner.subrange(k, k + 2)[0] == inner[k]);
            assert(inner[k] == d[k]);
        }
    }
    assert(text::find_text(inner, ":-"@, 0) == Some(at));
    assert(inner.take(at) =~= d);
    assert(inner.skip(at + 2) =~= default);
    assert(!inner.contains('}')) by {
        if inner.contains('}') {
            let k = choose|k: int| 0 <= k < inner.len() && inner[k] == '}';
            if k < at {
                assert(inner[k] == d[k]);
            } else if k >= at + 2 {
                assert(default[k - at - 2] == '}');
            } else {
                assert(inner[k] == ":-"@[k - at]);
            }
        }
    }
    let piece = if 1 <= n <= args.len() && args[n - 1].len() > 0 {
        args[n - 1]
    } else {
        default
    };
    lemma_braces(inner, rest, piece, args);
}

proof fn lemma_no_default(inner: Seq<char>)
    requires
        !inner.contains('-'),
    ensures
        text::find_text(inner, ":-"@, 0) is None,
{
    reveal_strlit(":-");
    text::lemma_find_text(inner, ":-"@, 0);
    assert forall|k: int| 0 <= k <= inner.len() implies !text::occurs_at(inner, ":-"@, k) by {
        if text::occurs_at(inner, ":-"@, k) {
            assert(inner.subrange(k, k + 2)[1] == inner[k + 1]);
            assert(inner.contains(inner[k + 1]));
        }
    }
}

/// `${@:N}` stands for the arguments from number N on, and `${@:N:L}` for at
/// most L of them, with spaces between.
#[verifier::rlimit(50)]
#[verifier::spinoff_prover]
pub proof fn law_slices_of_arguments(n: nat, l: nat, rest: Seq<char>, args: Seq<Seq<char>>)
    requires
        1 <= n <= usize::MAX,
        l <= usize::MAX,
    ensures
        substituted(seq!['$', '{'] + ("@:"@ + text::decimal(n)) + seq!['}'] + rest, args)
            == text::joined(
            if n <= args.len() {
                args.subrange(n - 1, args.len() as int)
            } else {
                Seq::empty()
            },
            seq![' '],
        ) + substituted(rest, args),
        substituted(
            seq!['$', '{'] + ("@:"@ + text::decimal(n) + seq![':'] + text::decimal(l)) + seq!['}']
                + rest,
            args,
        ) == text::joined(
            if n > args.len() {
                Seq::empty()
            } else if n - 1 + l <= args.len() {
                args.subrange(n - 1, n - 1 + l)
            } else {
                args.subrange(n - 1, args.len() as int)
            },
            seq![' '],
        ) + substituted(rest, args),
{
    reveal_strlit("@:");
    reveal_strlit(" ");
    assert(" "@ =~= seq![' ']);
    let d = text::decimal(n);
    let e = text::decimal(l);
    text::law_decimals_read_as_their_number(n);
    text::law_decimals_read_as_their_number(l);
    law_numbers_are_read_back(n);
    law_numbers_are_read_back(l);
    let one = "@:"@ + d;
    let two = "@:"@ + d + seq![':'] + e;
    assert forall|k: int| 0 <= k < one.len() implies one[k] != '-' && one[k] != '}' by {
        if k >= 2 {
            assert(one[k] == d[k - 2]);
        }
    }
    assert forall|k: int| 0 <= k < two.len() implies two[k] != '-' && two[k] != '}' by {
        if k >= 3 + d.len() {
            assert(two[k] == e[k - 3 - d.len()]);
        } else if 2 <= k < 2 + d.len() {
            assert(two[k] == d[k - 2]);
        }
    }
    lemma_no_default(one);
    lemma_no_default(two);
    assert(one.take(2) =~= "@:"@);
    assert(two.take(2) =~= "@:"@);
    let a = one.skip(2);
    let b = two.skip(2);
    assert(a =~= d);
    assert(b =~= d + seq![':'] + e);
    assert forall|k: int| 0 <= k < d.len() implies a[k] != ':' && b[k] != ':' by {
        assert(a[k] == d[k] && b[k] == d[k]);
    }
    text::lemma_find_from(a, ':', 0);
    assert(a.take(a.len() as int) =~= d);
    text::lemma_find_from_is(b, ':', 0, d.len() as int);
    assert(b.take(d.len() as int) =~= d);
    assert(b.skip(d.len() as int + 1) =~= e);
    let from = n - 1;
    if n <= args.len() {
        assert(args.skip(from) =~= args.subrange(from, args.len() as int));
        if l < args.len() - from {
            assert(args.skip(from).take(l as int) =~= args.subrange(from, from + l));
        } else if from + l == args.len() {
            assert(args.subrange(from, from + l) =~= args.skip(from));
        }
    } else if from == args.len() {
        assert(args.skip(from) =~= Seq::empty());
    }
    lemma_braces(one, rest, sliced_args(args, n, None), args);
    lemma_braces(two, rest, sliced_args(args, n, Some(l)), args);
}

/// A dollar sign that starts no placeholder stays.
pub proof fn law_other_dollars_stay(c: char, rest: Seq<char>, args: Seq<Seq<char>>)
    requires
        c != '{' && c != '@' && c != '$' && c != 'A' && !('0' <= c <= '9'),
    ensures
        substituted(seq!['$', c] + rest, args) == seq!['$', c] + substituted(rest, args),
        substituted(seq!['$'], args) == seq!['$'],
{
    reveal_strlit("ARGUMENTS");
    let s = seq!['$', c] + rest;
    assert(s[0] == '$' && s[1] == c);
    let behind = s.skip(1);
    assert(behind =~= seq![c] + rest);
    assert(!text::has_prefix(behind, "ARGUMENTS"@)) by {
        if text::has_prefix(behind, "ARGUMENTS"@) {
            assert(behind.take(9)[0] == behind[0]);
        }
    }
    markdown::lemma_digits_len_is(behind, 0);
    assert(s =~= seq!['$'] + behind);
    lemma_placeholder(seq!['$'], behind, seq!['$'], args);
    assert(!seq![c].contains('$'));
    law_text_before_a_placeholder_stays(seq![c], rest, args);
    assert(seq!['$'] + (seq![c] + substituted(rest, args)) =~= seq!['$', c] + substituted(
        rest,
        args,
    ));
    let one = seq!['$'];
    assert(one.skip(1) =~= Seq::empty());
    markdown::lemma_digits_len_is(one.skip(1), 0);
    assert(one + Seq::<char>::empty() =~= one);
    lemma_placeholder(one, Seq::empty(), one, args);
    assert(substituted(Seq::empty(), args) =~= Seq::empty());
}

proof fn lemma_find_template(list: Seq<TemplateView>, name: Seq<char>, from: int, k: int)
    requires
        0 <= from <= k < list.len(),
        list[k].name == name,
        forall|j: int| from <= j < k ==> (#[trigger] list[j]).name != name,
    ensures
        find_template(list, name, from) == Some(list[k]),
    decreases k - from,
{
    if from < k {
        lemma_find_template(list, name, from + 1, k);
    }
}

/// `/name args` is the body of the template of that name with its arguments
/// in place.
pub proof fn law_templates_expand_with_their_arguments(
    list: Seq<TemplateView>,
    k: int,
    args: Seq<char>,
)
    requires
        0 <= k < list.len(),
        forall|j: int| 0 <= j < k ==> (#[trigger] list[j]).name != list[k].name,
        forall|j: int|
            0 <= j < list[k].name.len() ==> !text::is_white_space(#[trigger] list[k].name[j]),
    ensures
        expanded(seq!['/'] + list[k].name + seq![' '] + args, list) == Some(
            substituted(list[k].content, args_of(args)),
        ),
        expanded(seq!['/'] + list[k].name, list) == Some(
            substituted(list[k].content, Seq::empty()),
        ),
{
    let name = list[k].name;
    let s = seq!['/'] + name + seq![' '] + args;
    assert(s.skip(1) =~= name + seq![' '] + args);
    text::law_the_head_is_the_first_word(name, ' ', args);
    lemma_find_template(list, name, 0, k);
    let t = seq!['/'] + name;
    assert(t.skip(1) =~= name);
    assert(args_of(Seq::empty()) =~= Seq::empty());
}

/// Text that does not start with a slash, or names no template, is no
/// template: it stays what it is.
pub proof fn law_other_text_is_literal(s: Seq<char>, list: Seq<TemplateView>)
    requires
        s.len() == 0 || s[0] != '/' || forall|k: int|
            0 <= k < list.len() ==> (#[trigger] list[k]).name != text::head_and_rest(s.skip(1)).0,
    ensures
        expanded(s, list) is None,
{
    if s.len() > 0 && s[0] == '/' {
        lemma_not_found(list, text::head_and_rest(s.skip(1)).0, 0);
    }
}

proof fn lemma_not_found(list: Seq<TemplateView>, name: Seq<char>, from: int)
    requires
        0 <= from,
        forall|k: int| 0 <= k < list.len() ==> (#[trigger] list[k]).name != name,
    ensures
        find_template(list, name, from) is None,
    decreases list.len() - from,
{
    if from < list.len() {
        lemma_not_found(list, name, from + 1);
    }
}

/// Only files that can be read and are named `<name>.md` hold templates, and
/// each holds the one of its name.
pub proof fn law_files_name_their_templates(f: PromptFile)
    ensures
        file_template(f) is Some <==> f.is_file && f.raw is Some && exists|name: Seq<char>|
            name.len() > 0 && f.name@ == #[trigger] (name + ".md"@),
        file_template(f) matches Some(t) ==> f.name@ == t.name + ".md"@ && t.path == f.path@,
{
    reveal_strlit(".md");
    let n = f.name@.len() as int;
    if n > 3 {
        assert(f.name@ =~= f.name@.take(n - 3) + f.name@.skip(n - 3));
    }
    if exists|name: Seq<char>| name.len() > 0 && f.name@ == #[trigger] (name + ".md"@) {
        let name = choose|name: Seq<char>| name.len() > 0 && f.name@ == #[trigger] (name + ".md"@);
        assert(f.name@.skip(n - 3) =~= ".md"@);
    }
    if file_template(f) is Some {
        let name = f.name@.take(n - 3);
        assert(f.name@ == name + ".md"@);
    }
}

/// A text that fits is shown whole; a longer one keeps exactly as many of
/// its first characters, and three dots follow.
pub proof fn law_long_texts_are_cut_and_dotted(s: Seq<char>, max: nat)
    ensures
        s.len() <= max ==> shortened(s, max) == s,
        s.len() > max ==> shortened(s, max).len() == max + 3 && shortened(s, max).take(max as int)
            == s.take(max as int) && shortened(s, max).skip(max as int) == seq!['.', '.', '.'],
{
    reveal_strlit("...");
    if s.len() > max {
        assert(shortened(s, max).take(max as int) =~= s.take(max as int));
        assert(shortened(s, max).skip(max as int) =~= seq!['.', '.', '.']);
    }
}

proof fn lemma_lookup_at(
    pairs: Seq<(Seq<char>, Seq<char>)>,
    key: Seq<char>,
    from: int,
    k: int,
)
    requires
        0 <= from <= k <= pairs.len(),
        k < pairs.len() ==> pairs[k].0 == key,
        forall|j: int| from <= j < k ==> (#[trigger] pairs[j]).0 != key,
    ensures
        lookup(pairs, key, from) == (if k < pairs.len() {
            Some(pairs[k].1)
        } else {
            None
        }),
    decreases k - from,
{
    if from < k {
        assert(pairs[from].0 != key);
        lemma_lookup_at(pairs, key, from + 1, k);
    }
}

proof fn lemma_first_line_at(lines: Seq<Seq<char>>, from: int, k: int)
    requires
        0 <= from <= k < lines.len(),
        !text::is_blank(lines[k]),
        forall|j: int| from <= j < k ==> text::is_blank(#[trigger] lines[j]),
    ensures
        first_line(lines, from) == Some(text::trim(lines[k])),
    decreases k - from,
{
    if from < k {
        assert(text::is_blank(lines[from]));
        lemma_first_line_at(lines, from + 1, k);
    }
}

/// A template is described by its field of that name, and without one by the
/// first line of its body that says something, up to sixty characters of it.
pub proof fn law_templates_are_described(
    pairs: Seq<(Seq<char>, Seq<char>)>,
    body: Seq<char>,
    k: int,
    line: int,
)
    requires
        0 <= k <= pairs.len(),
        k < pairs.len() ==> pairs[k].0 == "description"@,
        forall|j: int| 0 <= j < k ==> (#[trigger] pairs[j]).0 != "description"@,
        0 <= line < text::lines_of(body).len(),
        !text::is_blank(text::lines_of(body)[line]),
        forall|j: int| 0 <= j < line ==> text::is_blank(#[trigger] text::lines_of(body)[j]),
    ensures
        k < pairs.len() ==> description_of(pairs, body) == pairs[k].1,
        k == pairs.len() && text::trim(text::lines_of(body)[line]).len() <= 60 ==> description_of(
            pairs,
            body,
        ) == text::trim(text::lines_of(body)[line]),
        k == pairs.len() && text::trim(text::lines_of(body)[line]).len() > 60
            ==> text::has_prefix(
            description_of(pairs, body),
            text::trim(text::lines_of(body)[line]).take(60),
        ),
{
    lemma_lookup_at(pairs, "description"@, 0, k);
    lemma_first_line_at(text::lines_of(body), 0, line);
    let t = text::trim(text::lines_of(body)[line]);
    if k == pairs.len() && t.len() > 60 {
        assert(description_of(pairs, body).take(60) =~= t.take(60));
    }
}

} // verus!
