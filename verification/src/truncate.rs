//! Cutting long texts short: whole lines from the start, as many as fit.
use vstd::prelude::*;

use crate::compaction::{count_bytes, plus};
use crate::text::{chars_of, concat2, decimal_text, split_chars, to_text};
use crate::{compaction, text};

verus! {

/// How many lines a text may have unless told otherwise.
pub const DEFAULT_MAX_LINES: usize = 2000;

/// How many bytes a text may have unless told otherwise.
pub const DEFAULT_MAX_BYTES: u32 = 51_200;

/// What a text is cut to.
#[derive(Debug, Clone, Copy, PartialEq, Eq, Structural)]
pub struct TruncationOptions {
    pub max_lines: Option<usize>,
    pub max_bytes: Option<u32>,
}

/// A text that was cut, or not.
#[derive(Debug)]
pub struct Truncation {
    pub content: String,
    pub truncated: bool,
    pub output_lines: usize,
    pub total_lines: usize,
    pub output_bytes: u64,
    pub total_bytes: u64,
}

/// The lines of a text: what stands between line ends, without an empty
/// rest.
pub open spec fn pieces(s: Seq<char>) -> Seq<Seq<char>> {
    let all = text::split_on(s, '\n');
    if all.len() > 0 && all.last().len() == 0 {
        all.drop_last()
    } else {
        all
    }
}

/// Whether the first `k` lines fit.
pub open spec fn fits(lines: Seq<Seq<char>>, k: int, max_lines: nat, max_bytes: nat) -> bool {
    k <= max_lines && compaction::byte_len(text::joined(lines.take(k), "\n"@)) <= max_bytes
}

/// How many lines are kept: from the start, as long as they fit.
pub open spec fn kept_lines(lines: Seq<Seq<char>>, from: int, max_lines: nat, max_bytes: nat) -> int
    decreases lines.len() - from,
{
    if from < lines.len() && fits(lines, from + 1, max_lines, max_bytes) {
        kept_lines(lines, from + 1, max_lines, max_bytes)
    } else {
        from
    }
}

/// How many lines are allowed.
pub open spec fn line_limit(o: TruncationOptions) -> nat {
    match o.max_lines {
        Some(n) => n as nat,
        None => DEFAULT_MAX_LINES as nat,
    }
}

/// How many bytes are allowed.
pub open spec fn byte_limit(o: TruncationOptions) -> nat {
    match o.max_bytes {
        Some(n) => n as nat,
        None => DEFAULT_MAX_BYTES as nat,
    }
}

/// Whether a result is a text cut to its first lines.
pub open spec fn is_cut(t: Truncation, s: Seq<char>, o: TruncationOptions) -> bool {
    let lines = pieces(s);
    let k = kept_lines(
        lines,
        0,
        line_limit(o),
        byte_limit(o),
    );
    &&& t.total_lines == lines.len()
    &&& t.output_lines == k
    &&& t.truncated == (k < lines.len())
    &&& t.content@ == (if k < lines.len() {
        text::joined(lines.take(k), "\n"@)
    } else {
        s
    })
    &&& t.output_bytes as nat == compaction::capped(compaction::byte_len(t.content@))
    &&& t.total_bytes as nat == compaction::capped(compaction::byte_len(s))
}

proof fn lemma_bytes_add(a: Seq<char>, b: Seq<char>)
    ensures
        compaction::byte_len(a + b) == compaction::byte_len(a) + compaction::byte_len(b),
    decreases b.len(),
{
    if b.len() == 0 {
        assert(a + b =~= a);
    } else {
        lemma_bytes_add(a, b.drop_last());
        assert((a + b).drop_last() =~= a + b.drop_last());
    }
}

proof fn lemma_next_line(lines: Seq<Seq<char>>, k: int)
    requires
        0 <= k < lines.len(),
    ensures
        ({
            let kept = text::joined(lines.take(k), "\n"@);
            let longer = text::joined(lines.take(k + 1), "\n"@);
            if k == 0 {
                longer == lines[0] && compaction::byte_len(kept) == 0
            } else {
                longer == kept + "\n"@ + lines[k] && compaction::byte_len(longer)
                    == compaction::byte_len(kept) + 1 + compaction::byte_len(lines[k])
            }
        }),
{
    let kept = text::joined(lines.take(k), "\n"@);
    let all = lines.take(k + 1);
    assert(all.drop_last() =~= lines.take(k));
    assert(all.last() == lines[k]);
    if k > 0 {
        reveal_strlit("\n");
        lemma_bytes_add(kept, "\n"@);
        lemma_bytes_add(kept + "\n"@, lines[k]);
        assert("\n"@.drop_last() =~= Seq::empty());
        assert("\n"@.last() == '\n');
        assert(compaction::byte_len("\n"@.drop_last()) == 0);
        assert(compaction::byte_len("\n"@) == 1);
    }
}

/// Cuts a text to its first lines.
pub fn truncate_head(s: &str, options: TruncationOptions) -> (r: Truncation)
    ensures
        is_cut(r, s@, options),
{
    let max_lines: usize = match options.max_lines {
        Some(n) => n,
        None => DEFAULT_MAX_LINES,
    };
    let max_bytes: u32 = match options.max_bytes {
        Some(n) => n,
        None => DEFAULT_MAX_BYTES,
    };
    let chars = chars_of(s);
    let all = split_chars(&chars, '\n');
    let ghost whole = text::views(all@);
    proof {
        text::lemma_split_on(chars@, '\n');
    }
    let mut total: usize = all.len();
    if total > 0 && all[total - 1].len() == 0 {
        assert(whole.last() == all@[total - 1]@);
        total -= 1;
    } else if total > 0 {
        assert(whole.last() == all@[total - 1]@);
    }
    let ghost lines = pieces(s@);
    assert(lines =~= whole.take(total as int));
    let mut content = String::new();
    // The bytes of what is kept.
    let mut size: u64 = 0;
    let mut k: usize = 0;
    let mut go = true;
    assert(text::joined(lines.take(0), "\n"@) =~= Seq::empty());
    while go && k < total
        invariant
            k <= total == lines.len(),
            total <= all@.len(),
            whole == text::views(all@),
            lines =~= whole.take(total as int),
            content@ == text::joined(lines.take(k as int), "\n"@),
            size as nat == compaction::byte_len(content@),
            size <= max_bytes,
            go ==> kept_lines(lines, 0, max_lines as nat, max_bytes as nat) == kept_lines(
                lines,
                k as int,
                max_lines as nat,
                max_bytes as nat,
            ),
            !go ==> kept_lines(lines, 0, max_lines as nat, max_bytes as nat) == k as int,
        decreases (if go {
            1int
        } else {
            0int
        }), total - k,
    {
        let line = to_text(&all[k]);
        let between: u64 = if k > 0 {
            1
        } else {
            0
        };
        let grown: u64 = plus(size + between, count_bytes(line.as_str()));
        proof {
            assert(lines[k as int] == all@[k as int]@);
            lemma_next_line(lines, k as int);
        }
        if k < max_lines && grown <= max_bytes as u64 {
            if k > 0 {
                content.push_str("\n");
            }
            content.push_str(line.as_str());
            size = grown;
            k += 1;
        } else {
            go = false;
        }
    }
    let truncated = k < total;
    let out = if truncated {
        content
    } else {
        s.to_owned()
    };
    let output_bytes: u64 = count_bytes(out.as_str());
    let total_bytes: u64 = count_bytes(s);
    Truncation {
        content: out,
        truncated,
        output_lines: k,
        total_lines: total,
        output_bytes,
        total_bytes,
    }
}

/// A text in parts: whole units and tenths.
pub open spec fn in_units(bytes: nat, unit: nat) -> Seq<char> {
    let tenths = (bytes * 10 + unit / 2) / unit;
    text::decimal(tenths / 10) + "."@ + text::decimal(tenths % 10)
}

/// A number of bytes in words.
pub open spec fn size_text(bytes: nat) -> Seq<char> {
    if bytes < 1024 {
        text::decimal(bytes) + "B"@
    } else if bytes < 1_048_576 {
        in_units(bytes, 1024) + "KB"@
    } else {
        in_units(bytes, 1_048_576) + "MB"@
    }
}

/// Writes a number of bytes in words.
pub fn format_size(bytes: u64) -> (r: String)
    ensures
        r@ == size_text(bytes as nat),
{
    if bytes < 1024 {
        return concat2(decimal_text(bytes).as_str(), "B");
    }
    let unit: u128 = if bytes < 1_048_576 {
        1024
    } else {
        1_048_576
    };
    let tenths: u128 = (bytes as u128 * 10 + unit / 2) / unit;
    let mut out = decimal_text((tenths / 10) as u64);
    out.push_str(".");
    out.push_str(decimal_text((tenths % 10) as u64).as_str());
    if bytes < 1_048_576 {
        out.push_str("KB");
    } else {
        out.push_str("MB");
    }
    out
}

// ---------------------------------------------------------------------------
// Laws
// ---------------------------------------------------------------------------

proof fn lemma_kept(lines: Seq<Seq<char>>, from: int, max_lines: nat, max_bytes: nat)
    requires
        0 <= from <= lines.len(),
        from > 0 ==> fits(lines, from, max_lines, max_bytes),
    ensures
        ({
            let k = kept_lines(lines, from, max_lines, max_bytes);
            &&& from <= k <= lines.len()
            &&& k > 0 ==> fits(lines, k, max_lines, max_bytes)
            &&& k < lines.len() ==> !fits(lines, k + 1, max_lines, max_bytes)
        }),
    decreases lines.len() - from,
{
    if from < lines.len() && fits(lines, from + 1, max_lines, max_bytes) {
        lemma_kept(lines, from + 1, max_lines, max_bytes);
    }
}

/// A cut keeps as many lines as fit: no more of them than allowed, no more
/// bytes than allowed, and with the next line there would be.
pub proof fn law_cuts_keep_all_that_fits(s: Seq<char>, o: TruncationOptions)
    ensures
        ({
            let lines = pieces(s);
            let k = kept_lines(lines, 0, line_limit(o), byte_limit(o));
            let kept = text::joined(lines.take(k), seq!['\n']);
            let more = text::joined(lines.take(k + 1), seq!['\n']);
            let most_lines: nat = match o.max_lines {
                Some(n) => n as nat,
                None => 2000,
            };
            let most_bytes: nat = match o.max_bytes {
                Some(n) => n as nat,
                None => 51_200,
            };
            &&& 0 <= k <= lines.len()
            &&& k <= most_lines
            &&& vstd::utf8::encode_utf8(kept).len() <= most_bytes
            &&& k < lines.len() ==> k + 1 > most_lines || vstd::utf8::encode_utf8(more).len()
                > most_bytes
        }),
{
    let lines = pieces(s);
    lemma_kept(lines, 0, line_limit(o), byte_limit(o));
    let k = kept_lines(lines, 0, line_limit(o), byte_limit(o));
    reveal_strlit("\n");
    assert("\n"@ =~= seq!['\n']);
    compaction::law_bytes_are_those_of_the_encoding(text::joined(lines.take(k), "\n"@));
    compaction::law_bytes_are_those_of_the_encoding(text::joined(lines.take(k + 1), "\n"@));
    if k == 0 {
        assert(text::joined(lines.take(0), "\n"@) =~= Seq::empty());
    }
}

/// The lines of a text written line by line are those lines, with or without
/// a last line end.
pub proof fn law_pieces_are_the_lines(lines: Seq<Seq<char>>)
    requires
        lines.len() > 0,
        forall|k: int| 0 <= k < lines.len() ==> !(#[trigger] lines[k]).contains('\n'),
        lines.last().len() > 0,
    ensures
        pieces(text::joined(lines, seq!['\n'])) == lines,
        pieces(text::joined(lines, seq!['\n']).push('\n')) == lines,
{
    text::law_splitting_undoes_joining(lines, '\n');
    let more = lines.push(Seq::empty());
    assert forall|k: int| 0 <= k < more.len() implies !(#[trigger] more[k]).contains('\n') by {
        if k < lines.len() {
            assert(more[k] == lines[k]);
        }
    }
    assert(more.drop_last() =~= lines);
    text::law_splitting_undoes_joining(more, '\n');
    assert(text::joined(more, seq!['\n']) =~= text::joined(lines, seq!['\n']).push('\n'));
}

/// A text within its limits is not cut at all.
pub proof fn law_short_texts_stay_whole(t: Truncation, s: Seq<char>, o: TruncationOptions)
    requires
        is_cut(t, s, o),
    ensures
        !t.truncated ==> t.content@ == s && t.output_lines == t.total_lines,
        t.truncated <==> t.output_lines < t.total_lines,
        (forall|k: int|
            0 < k <= pieces(s).len() ==> #[trigger] fits(
                pieces(s),
                k,
                line_limit(o),
                byte_limit(o),
            )) ==> !t.truncated,
{
    lemma_kept(pieces(s), 0, line_limit(o), byte_limit(o));
}

/// A size in words is the number of bytes below a kilobyte, and above it the
/// nearest tenth of a kilobyte or of a megabyte.
pub proof fn law_sizes_are_rounded_to_a_tenth(bytes: nat)
    ensures
        bytes < 1024 ==> size_text(bytes) == text::decimal(bytes) + seq!['B'],
        1024 <= bytes < 1_048_576 ==> exists|t: nat|
            {
                &&& -512 <= bytes * 10 - t * 1024 <= 512
                &&& size_text(bytes) == #[trigger] text::decimal(t / 10) + seq!['.']
                    + text::decimal(t % 10) + seq!['K', 'B']
            },
        bytes >= 1_048_576 ==> exists|t: nat|
            {
                &&& -524_288 <= bytes * 10 - t * 1_048_576 <= 524_288
                &&& size_text(bytes) == #[trigger] text::decimal(t / 10) + seq!['.']
                    + text::decimal(t % 10) + seq!['M', 'B']
            },
{
    reveal_strlit("B");
    reveal_strlit(".");
    reveal_strlit("KB");
    reveal_strlit("MB");
    assert("B"@ =~= seq!['B']);
    assert("."@ =~= seq!['.']);
    assert("KB"@ =~= seq!['K', 'B']);
    assert("MB"@ =~= seq!['M', 'B']);
    if bytes >= 1_048_576 {
        let t = (bytes * 10 + 524_288) / 1_048_576;
        assert(size_text(bytes) == text::decimal(t / 10) + seq!['.'] + text::decimal(t % 10) + seq![
            'M',
            'B',
        ]);
    } else if bytes >= 1024 {
        let t = (bytes * 10 + 512) / 1024;
        assert(size_text(bytes) == text::decimal(t / 10) + seq!['.'] + text::decimal(t % 10) + seq![
            'K',
            'B',
        ]);
    }
}

} // verus!
