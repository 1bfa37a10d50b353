//! Fuzzy matching for completions.
//!
//! A query matches when all of its characters appear in order in the
//! candidate, and a score ranks the matches. Scores count in tenths of a
//! point, and lower is better, because they are mostly penalties:
//!
//! - a streak of adjacent matches earns 5 points times its length,
//! - a gap between two matches costs 2 points for each character in it,
//! - a match right behind a word boundary earns 10 points,
//! - a later position costs a tenth of a point per character,
//! - a candidate that is the query earns 100 points.
//!
//! A query of letters and digits that does not match is tried once more with
//! the two halves swapped, at a penalty of 5 points: `v2` and `2v` find the
//! same things.
use vstd::prelude::*;

use crate::text::{chars_of, is_space, same, slice};
use crate::text;

verus! {

/// The lowercase form of a character.
pub uninterp spec fn lowercase_of(c: char) -> Seq<char>;

/// `char::to_lowercase` of std. It depends on the character alone; an ASCII
/// capital gives its small letter, any other ASCII character itself.
#[verifier::external_body]
fn lowercase(c: char) -> (r: Vec<char>)
    ensures
        r@ == lowercase_of(c),
        'A' <= c && c <= 'Z' ==> r@ == seq![(c as u32 + 32) as char],
        c < '\u{80}' && !('A' <= c && c <= 'Z') ==> r@ == seq![c],
{
    c.to_lowercase().collect()
}

/// A text in lowercase.
pub open spec fn lowered(s: Seq<char>) -> Seq<char>
    decreases s.len(),
{
    if s.len() == 0 {
        Seq::empty()
    } else {
        lowered(s.drop_last()) + lowercase_of(s.last())
    }
}

/// Puts a text into lowercase.
pub fn lower(chars: &Vec<char>) -> (r: Vec<char>)
    ensures
        r@ == lowered(chars@),
{
    let mut out: Vec<char> = Vec::new();
    let mut i: usize = 0;
    assert(chars@.take(0) =~= Seq::empty());
    while i < chars.len()
        invariant
            i <= chars@.len(),
            out@ == lowered(chars@.take(i as int)),
        decreases chars@.len() - i,
    {
        assert(chars@.take(i + 1).drop_last() =~= chars@.take(i as int));
        let mut l = lowercase(chars[i]);
        out.append(&mut l);
        i += 1;
    }
    assert(chars@.take(i as int) =~= chars@);
    out
}

// ---------------------------------------------------------------------------
// Scores
// ---------------------------------------------------------------------------

/// No score goes beyond this, one way or the other. No text that fits into
/// memory comes near it.
pub const SCORE_LIMIT: i128 = 1_000_000_000_000_000_000_000_000_000_000;

/// The longest streak that is counted.
pub const STREAK_LIMIT: u32 = 4_294_967_295;

/// A score within its limits.
pub open spec fn bounded(x: int) -> int {
    if x > SCORE_LIMIT {
        SCORE_LIMIT as int
    } else if x < -SCORE_LIMIT {
        -SCORE_LIMIT
    } else {
        x
    }
}

fn add_bounded(score: i128, delta: i128) -> (r: i128)
    requires
        -SCORE_LIMIT <= score <= SCORE_LIMIT,
        -SCORE_LIMIT <= delta <= SCORE_LIMIT,
    ensures
        r == bounded(score + delta),
        -SCORE_LIMIT <= r <= SCORE_LIMIT,
{
    let x: i128 = score + delta;
    if x > SCORE_LIMIT {
        SCORE_LIMIT
    } else if x < -SCORE_LIMIT {
        -SCORE_LIMIT
    } else {
        x
    }
}

/// The characters behind which a word starts.
pub open spec fn is_boundary(c: char) -> bool {
    c == ' ' || c == '\t' || c == '\n' || c == '-' || c == '_' || c == '.' || c == '/' || c == ':'
}

/// Where a match stands: the next character of the query, the last match and
/// the streak it ends.
pub struct MatchView {
    pub next: int,
    pub last: Option<int>,
    pub streak: int,
    pub score: int,
}

/// The streak once position `i` matches.
pub open spec fn streak_at(m: MatchView, i: int) -> int {
    match m.last {
        Some(last) if last + 1 == i => if m.streak < STREAK_LIMIT {
            m.streak + 1
        } else {
            m.streak
        },
        _ => 0,
    }
}

/// What a match at position `i` adds to the score.
pub open spec fn gain(c: Seq<char>, m: MatchView, i: int) -> int {
    let near = match m.last {
        Some(last) => if last + 1 == i {
            -50 * streak_at(m, i)
        } else {
            20 * (i - last - 1)
        },
        None => 0,
    };
    let boundary: int = if i == 0 || is_boundary(c[i - 1]) {
        -100
    } else {
        0
    };
    near + boundary + i
}

/// The match after position `i` of the candidate.
pub open spec fn match_step(q: Seq<char>, c: Seq<char>, m: MatchView, i: int) -> MatchView {
    if m.next < q.len() && c[i] == q[m.next] {
        MatchView {
            next: m.next + 1,
            last: Some(i),
            streak: streak_at(m, i),
            score: bounded(m.score + gain(c, m, i)),
        }
    } else {
        m
    }
}

/// The match after the first `n` positions of the candidate.
pub open spec fn matched(q: Seq<char>, c: Seq<char>, n: int) -> MatchView
    decreases n,
{
    if n <= 0 {
        MatchView { next: 0, last: None, streak: 0, score: 0 }
    } else {
        match_step(q, c, matched(q, c, n - 1), n - 1)
    }
}

/// The score of a query, if its characters appear in order. An empty query
/// matches everything.
pub open spec fn subsequence_score(q: Seq<char>, c: Seq<char>) -> Option<int> {
    let m = matched(q, c, c.len() as int);
    if q.len() == 0 {
        Some(0)
    } else if m.next < q.len() {
        None
    } else if q == c {
        Some(bounded(m.score - 1000))
    } else {
        Some(m.score)
    }
}

/// The view of an optional score.
pub open spec fn opt_score(o: Option<i128>) -> Option<int> {
    match o {
        Some(s) => Some(s as int),
        None => None,
    }
}

/// Scores one lowercase query against one lowercase candidate.
pub fn score_subsequence(q: &Vec<char>, c: &Vec<char>) -> (r: Option<i128>)
    ensures
        opt_score(r) == subsequence_score(q@, c@),
        r matches Some(s) ==> -SCORE_LIMIT <= s <= SCORE_LIMIT,
{
    if q.len() == 0 {
        return Some(0);
    }
    let mut next: usize = 0;
    let mut score: i128 = 0;
    let mut last: Option<usize> = None;
    let mut streak: u32 = 0;
    let mut i: usize = 0;
    while i < c.len()
        invariant
            i <= c@.len(),
            next <= q@.len(),
            q@.len() > 0,
            -SCORE_LIMIT <= score <= SCORE_LIMIT,
            last matches Some(l) ==> l < i,
            (MatchView {
                next: next as int,
                last: match last {
                    Some(l) => Some(l as int),
                    None => None,
                },
                streak: streak as int,
                score: score as int,
            }) == matched(q@, c@, i as int),
        decreases c@.len() - i,
    {
        let n: usize = c.len();
        if next < q.len() && c[i] == q[next] {
            let boundary = i == 0 || {
                let p = c[i - 1];
                p == ' ' || p == '\t' || p == '\n' || p == '-' || p == '_' || p == '.' || p == '/'
                    || p == ':'
            };
            let mut delta: i128 = 0;
            match last {
                Some(l) => {
                    if l + 1 == i {
                        if streak < STREAK_LIMIT {
                            streak = streak + 1;
                        }
                        let s: i128 = streak as i128;
                        assert(0 <= s <= 4_294_967_295);
                        delta = 0 - 50 * s;
                    } else {
                        streak = 0;
                        delta = 20 * ((i - l - 1) as i128);
                    }
                },
                None => {
                    streak = 0;
                },
            }
            if boundary {
                delta = delta - 100;
            }
            let at: i128 = i as i128;
            assert(0 <= at <= 18_446_744_073_709_551_615);
            delta = delta + at;
            score = add_bounded(score, delta);
            last = Some(i);
            next = next + 1;
        }
        i += 1;
    }
    if next < q.len() {
        return None;
    }
    if same(q, c) {
        score = add_bounded(score, -1000);
    }
    Some(score)
}

// ---------------------------------------------------------------------------
// Swapped halves
// ---------------------------------------------------------------------------

/// An ASCII letter.
pub open spec fn is_letter(c: char) -> bool {
    ('a' <= c <= 'z') || ('A' <= c <= 'Z')
}

/// An ASCII digit.
pub open spec fn is_digit(c: char) -> bool {
    '0' <= c <= '9'
}

/// All characters from `from` to `to` are digits.
pub open spec fn digits_in(s: Seq<char>, from: int, to: int) -> bool {
    forall|k: int| from <= k < to ==> is_digit(#[trigger] s[k])
}

/// All characters from `from` to `to` are letters.
pub open spec fn letters_in(s: Seq<char>, from: int, to: int) -> bool {
    forall|k: int| from <= k < to ==> is_letter(#[trigger] s[k])
}

/// Whether a query is letters and then digits, or digits and then letters,
/// some of both, with the second half starting at `at`.
pub open spec fn has_halves(q: Seq<char>, at: int) -> bool {
    0 < at < q.len() && ((letters_in(q, 0, at) && digits_in(q, at, q.len() as int)) || (digits_in(
        q,
        0,
        at,
    ) && letters_in(q, at, q.len() as int)))
}

/// A query of two halves with these swapped.
pub open spec fn swapped_at(q: Seq<char>, at: int) -> Seq<char> {
    q.skip(at) + q.take(at)
}

/// There is at most one place where a query falls into halves.
pub proof fn lemma_halves_unique(q: Seq<char>, a: int, b: int)
    requires
        has_halves(q, a),
        has_halves(q, b),
    ensures
        a == b,
{
    if a < b {
        assert(q[a] == q[a] && q[a - 1] == q[a - 1]);
        assert(is_letter(q[a]) || is_digit(q[a]));
        assert(is_letter(q[a - 1]) || is_digit(q[a - 1]));
    } else if b < a {
        assert(is_letter(q[b]) || is_digit(q[b]));
        assert(is_letter(q[b - 1]) || is_digit(q[b - 1]));
    }
}

fn letter(c: char) -> (r: bool)
    ensures
        r == is_letter(c),
{
    ('a' <= c && c <= 'z') || ('A' <= c && c <= 'Z')
}

fn digit(c: char) -> (r: bool)
    ensures
        r == is_digit(c),
{
    '0' <= c && c <= '9'
}

/// `abc123` gives `123abc` and the other way round; anything else gives
/// nothing.
pub fn swap_letter_digit_halves(q: &Vec<char>) -> (r: Option<Vec<char>>)
    ensures
        r is Some <==> exists|at: int| has_halves(q@, at),
        r matches Some(v) ==> exists|at: int|
            has_halves(q@, at) && v@ == #[trigger] swapped_at(q@, at),
{
    let n: usize = q.len();
    if n == 0 {
        return None;
    }
    let digits_first = digit(q[0]);
    if !digits_first && !letter(q[0]) {
        assert forall|at: int| !has_halves(q@, at) by {
            if has_halves(q@, at) {
                assert(is_letter(q@[0]) || is_digit(q@[0]));
            }
        }
        return None;
    }
    let mut at: usize = 1;
    while at < n && ((digits_first && digit(q[at])) || (!digits_first && letter(q[at])))
        invariant
            1 <= at <= n,
            n == q@.len(),
            digits_first ==> digits_in(q@, 0, at as int),
            !digits_first ==> letters_in(q@, 0, at as int),
        decreases n - at,
    {
        at += 1;
    }
    let mut k: usize = at;
    while k < n && ((digits_first && letter(q[k])) || (!digits_first && digit(q[k])))
        invariant
            1 <= at <= k <= n,
            n == q@.len(),
            digits_first ==> letters_in(q@, at as int, k as int),
            !digits_first ==> digits_in(q@, at as int, k as int),
        decreases n - k,
    {
        k += 1;
    }
    if at == n || k < n {
        assert forall|b: int| !has_halves(q@, b) by {
            if has_halves(q@, b) {
                assert(is_letter(q@[0]) || is_digit(q@[0]));
                if b < at {
                    assert(is_letter(q@[b]) || is_digit(q@[b]));
                } else if b > at {
                    assert(at < n);
                    assert(is_letter(q@[at as int]) || is_digit(q@[at as int]));
                } else {
                    assert(is_letter(q@[k as int]) || is_digit(q@[k as int]));
                }
            }
        }
        return None;
    }
    let mut out = slice(q, at, n);
    let mut front = slice(q, 0, at);
    out.append(&mut front);
    assert(has_halves(q@, at as int));
    assert(out@ =~= swapped_at(q@, at as int));
    Some(out)
}

/// Swapping twice gives the query back.
pub proof fn law_swapping_twice_is_the_identity(q: Seq<char>, at: int)
    requires
        has_halves(q, at),
    ensures
        has_halves(swapped_at(q, at), q.len() - at),
        swapped_at(swapped_at(q, at), q.len() - at) == q,
{
    let s = swapped_at(q, at);
    let b = q.len() - at;
    assert(s.skip(b) + s.take(b) =~= q);
    assert forall|k: int| 0 <= k < b implies #[trigger] s[k] == q[at + k] by {}
    assert forall|k: int| b <= k < s.len() implies #[trigger] s[k] == q[k - b] by {}
}

// ---------------------------------------------------------------------------
// Queries
// ---------------------------------------------------------------------------

/// The score of one query word against a candidate: as it is, else with its
/// halves swapped.
pub open spec fn word_score(query: Seq<char>, candidate: Seq<char>) -> Option<int> {
    let q = lowered(query);
    let c = lowered(candidate);
    match subsequence_score(q, c) {
        Some(s) => Some(s),
        None => if exists|at: int| has_halves(q, at) {
            let at = choose|at: int| has_halves(q, at);
            match subsequence_score(swapped_at(q, at), c) {
                Some(s) => Some(bounded(s + 50)),
                None => None,
            }
        } else {
            None
        },
    }
}

/// Scores one candidate against one query word. Lower scores rank first.
pub fn fuzzy_score(query: &str, candidate: &str) -> (r: Option<i128>)
    ensures
        opt_score(r) == word_score(query@, candidate@),
        r matches Some(s) ==> -SCORE_LIMIT <= s <= SCORE_LIMIT,
{
    let q = lower(&chars_of(query));
    let c = lower(&chars_of(candidate));
    if let Some(s) = score_subsequence(&q, &c) {
        return Some(s);
    }
    match swap_letter_digit_halves(&q) {
        Some(swapped) => {
            proof {
                let at = choose|at: int| has_halves(q@, at);
                let b = choose|b: int| has_halves(q@, b) && swapped@ == #[trigger] swapped_at(
                    q@,
                    b,
                );
                lemma_halves_unique(q@, at, b);
            }
            match score_subsequence(&swapped, &c) {
                Some(s) => Some(add_bounded(s, 50)),
                None => None,
            }
        },
        None => None,
    }
}

/// Whether a character separates the words of a query.
pub open spec fn separates(c: char) -> bool {
    text::is_white_space(c) || c == '/'
}

/// The words of a query after its first `n` characters: finished ones, and
/// the one being read.
pub open spec fn words_after(s: Seq<char>, n: int) -> (Seq<Seq<char>>, Seq<char>)
    decreases n,
{
    if n <= 0 {
        (Seq::empty(), Seq::empty())
    } else {
        let (done, current) = words_after(s, n - 1);
        if separates(s[n - 1]) {
            (
                if current.len() > 0 {
                    done.push(current)
                } else {
                    done
                },
                Seq::empty(),
            )
        } else {
            (done, current.push(s[n - 1]))
        }
    }
}

/// The words of a query.
pub open spec fn query_words(s: Seq<char>) -> Seq<Seq<char>> {
    let (done, current) = words_after(s, s.len() as int);
    if current.len() > 0 {
        done.push(current)
    } else {
        done
    }
}

/// Splits a query into words, at white space and slashes.
pub fn split_query(query: &str) -> (r: Vec<String>)
    ensures
        text::texts(r@) == query_words(query@),
{
    let chars = chars_of(query);
    let mut out: Vec<String> = Vec::new();
    let mut current = String::new();
    let mut i: usize = 0;
    assert(text::texts(out@) =~= Seq::empty());
    while i < chars.len()
        invariant
            i <= chars@.len(),
            (text::texts(out@), current@) == words_after(chars@, i as int),
        decreases chars@.len() - i,
    {
        let c = chars[i];
        if is_space(c) || c == '/' {
            if !current.as_str().is_empty() {
                let mut done = String::new();
                std::mem::swap(&mut done, &mut current);
                let ghost before = out@;
                let ghost shown = done@;
                out.push(done);
                assert(text::texts(out@) =~= text::texts(before).push(shown));
            }
            assert(current@ =~= Seq::empty());
        } else {
            current.push(c);
        }
        i += 1;
    }
    if !current.as_str().is_empty() {
        let ghost before = out@;
        let ghost shown = current@;
        out.push(current);
        assert(text::texts(out@) =~= text::texts(before).push(shown));
    }
    out
}

/// The sum of the scores of the first `n` words, if all of them match.
pub open spec fn total_score(words: Seq<Seq<char>>, n: int, candidate: Seq<char>) -> Option<int>
    decreases n,
{
    if n <= 0 {
        Some(0)
    } else {
        match (total_score(words, n - 1, candidate), word_score(words[n - 1], candidate)) {
            (Some(a), Some(b)) => Some(bounded(a + b)),
            _ => None,
        }
    }
}

/// Scores a candidate against all words.
fn score_words(words: &Vec<String>, candidate: &str) -> (r: Option<i128>)
    ensures
        opt_score(r) == total_score(text::texts(words@), words@.len() as int, candidate@),
{
    let mut total: i128 = 0;
    let mut i: usize = 0;
    while i < words.len()
        invariant
            i <= words@.len(),
            -SCORE_LIMIT <= total <= SCORE_LIMIT,
            total_score(text::texts(words@), i as int, candidate@) == Some(total as int),
        decreases words@.len() - i,
    {
        assert(text::texts(words@)[i as int] == words@[i as int]@);
        match fuzzy_score(words[i].as_str(), candidate) {
            Some(s) => {
                total = add_bounded(total, s);
            },
            None => {
                proof {
                    lemma_no_total(text::texts(words@), i + 1, words@.len() as int, candidate@);
                }
                return None;
            },
        }
        i += 1;
    }
    Some(total)
}

proof fn lemma_no_total(words: Seq<Seq<char>>, k: int, n: int, candidate: Seq<char>)
    requires
        0 <= k <= n,
        total_score(words, k, candidate) is None,
    ensures
        total_score(words, n, candidate) is None,
    decreases n - k,
{
    if k < n {
        lemma_no_total(words, k + 1, n, candidate);
    }
}

// ---------------------------------------------------------------------------
// Ranking
// ---------------------------------------------------------------------------

/// A ranking with one more entry: behind every entry that scores no worse.
pub open spec fn ranked_with(list: Seq<(int, int)>, x: (int, int)) -> Seq<(int, int)>
    decreases list.len(),
{
    if list.len() == 0 || list.last().1 <= x.1 {
        list.push(x)
    } else {
        ranked_with(list.drop_last(), x).push(list.last())
    }
}

/// The ranking of the first `n` candidates: position and score of each that
/// matches all words.
pub open spec fn ranking(words: Seq<Seq<char>>, keys: Seq<Seq<char>>, n: int) -> Seq<(int, int)>
    decreases n,
{
    if n <= 0 {
        Seq::empty()
    } else {
        let before = ranking(words, keys, n - 1);
        match total_score(words, words.len() as int, keys[n - 1]) {
            Some(s) => ranked_with(before, (n - 1, s)),
            None => before,
        }
    }
}

/// Which candidates match a query, the best first. A query without words
/// leaves them all, in their order.
pub open spec fn filtered(query: Seq<char>, keys: Seq<Seq<char>>) -> Seq<int> {
    let words = query_words(query);
    if words.len() == 0 {
        Seq::new(keys.len(), |i: int| i)
    } else {
        ranking(words, keys, keys.len() as int).map_values(|x: (int, int)| x.0)
    }
}

/// Entries of a ranking as mathematical numbers.
pub open spec fn entries(v: Seq<(usize, i128)>) -> Seq<(int, int)> {
    v.map_values(|x: (usize, i128)| (x.0 as int, x.1 as int))
}

/// Indices as mathematical numbers.
pub open spec fn ints(v: Seq<usize>) -> Seq<int> {
    v.map_values(|x: usize| x as int)
}

/// Puts an entry in its place.
fn insert_ranked(list: &mut Vec<(usize, i128)>, index: usize, score: i128)
    ensures
        entries(final(list)@) == ranked_with(entries(old(list)@), (index as int, score as int)),
        final(list)@.len() == old(list)@.len() + 1,
        forall|k: int|
            0 <= k < final(list)@.len() ==> (#[trigger] final(list)@[k]).0 == index || exists|j: int|
                0 <= j < old(list)@.len() && old(list)@[j].0 == final(list)@[k].0,
{
    let ghost before = entries(list@);
    let ghost x = (index as int, score as int);
    let mut at: usize = list.len();
    assert(before.take(at as int) =~= before);
    assert(ranked_with(before, x) =~= ranked_with(before.take(at as int), x) + before.skip(
        at as int,
    ));
    while at > 0 && list[at - 1].1 > score
        invariant
            at <= list@.len(),
            before == entries(list@),
            list@ == old(list)@,
            x == (index as int, score as int),
            ranked_with(before, x) == ranked_with(before.take(at as int), x) + before.skip(
                at as int,
            ),
        decreases at,
    {
        proof {
            let now = before.take(at as int);
            assert(now.last() == before[at - 1]);
            assert(now.drop_last() =~= before.take(at - 1));
            assert(ranked_with(before.take(at - 1), x).push(now.last()) + before.skip(at as int)
                =~= ranked_with(before.take(at - 1), x) + before.skip(at - 1));
        }
        at -= 1;
    }
    let ghost l0 = list@;
    list.insert(at, (index, score));
    proof {
        let now = before.take(at as int);
        if at > 0 {
            assert(now.last() == before[at - 1]);
        }
        assert(ranked_with(now, x) == now.push(x));
        assert(entries(list@) =~= now.push(x) + before.skip(at as int));
        assert forall|k: int| 0 <= k < list@.len() implies (#[trigger] list@[k]).0 == index
            || exists|j: int| 0 <= j < l0.len() && l0[j].0 == list@[k].0 by {
            if k < at {
                assert(list@[k] == l0[k]);
            } else if k > at {
                assert(list@[k] == l0[k - 1]);
            }
        }
    }
}

/// Filters and ranks: all words of the query must match, their scores add
/// up, and equal scores keep the order of the candidates. The result holds
/// positions in `keys`.
pub fn rank_keys(query: &str, keys: &Vec<String>) -> (r: Vec<usize>)
    ensures
        ints(r@) == filtered(query@, text::texts(keys@)),
        forall|k: int| 0 <= k < r@.len() ==> (#[trigger] r@[k]) < keys@.len(),
{
    let words = split_query(query);
    let mut out: Vec<usize> = Vec::new();
    let mut i: usize = 0;
    if words.len() == 0 {
        while i < keys.len()
            invariant
                i <= keys@.len(),
                out@.len() == i,
                forall|k: int| 0 <= k < i ==> (#[trigger] out@[k]) == k,
            decreases keys@.len() - i,
        {
            out.push(i);
            i += 1;
        }
        assert(text::texts(words@).len() == 0);
        assert(ints(out@) =~= Seq::new(keys@.len(), |k: int| k));
        return out;
    }
    let ghost ws = text::texts(words@);
    let ghost ks = text::texts(keys@);
    let mut ranked: Vec<(usize, i128)> = Vec::new();
    assert(entries(ranked@) =~= Seq::empty());
    while i < keys.len()
        invariant
            i <= keys@.len(),
            ws == text::texts(words@),
            ks == text::texts(keys@),
            entries(ranked@) == ranking(ws, ks, i as int),
            forall|k: int| 0 <= k < ranked@.len() ==> (#[trigger] ranked@[k]).0 < i,
        decreases keys@.len() - i,
    {
        assert(ks[i as int] == keys@[i as int]@);
        if let Some(score) = score_words(&words, keys[i].as_str()) {
            insert_ranked(&mut ranked, i, score);
        }
        i += 1;
    }
    let mut j: usize = 0;
    while j < ranked.len()
        invariant
            j <= ranked@.len(),
            out@.len() == j,
            forall|k: int| 0 <= k < ranked@.len() ==> (#[trigger] ranked@[k]).0 < keys@.len(),
            forall|k: int| 0 <= k < j ==> (#[trigger] out@[k]) == ranked@[k].0,
        decreases ranked@.len() - j,
    {
        out.push(ranked[j].0);
        j += 1;
    }
    assert(ints(out@) =~= entries(ranked@).map_values(|x: (int, int)| x.0));
    out
}

/// Whether `keys` are what `key` gives for the items.
pub open spec fn keyed_by<T, F: Fn(&T) -> &str>(key: F, items: Seq<T>, keys: Seq<Seq<char>>) -> bool {
    keys.len() == items.len() && forall|i: int|
        0 <= i < items.len() ==> is_key(key, items[i], #[trigger] keys[i])
}

/// Whether `key` gives this text for an item.
pub open spec fn is_key<T, F: Fn(&T) -> &str>(key: F, item: T, s: Seq<char>) -> bool {
    exists|k: &str| #[trigger] key.ensures((&item,), k) && k@ == s
}

/// Filters and ranks items by a text that each has.
pub fn fuzzy_filter<'a, T, F: Fn(&T) -> &str>(query: &str, items: &'a Vec<T>, key: F) -> (r: Vec<
    &'a T,
>)
    requires
        forall|x: &T| key.requires((x,)),
    ensures
        exists|keys: Seq<Seq<char>>|
            #![trigger filtered(query@, keys)]
            keyed_by(key, items@, keys) && r@.len() == filtered(query@, keys).len() && forall|k: int|
                0 <= k < r@.len() ==> *(#[trigger] r@[k]) == items@[filtered(query@, keys)[k]],
{
    let mut keys: Vec<String> = Vec::new();
    let mut i: usize = 0;
    while i < items.len()
        invariant
            i <= items@.len(),
            keys@.len() == i,
            forall|x: &T| key.requires((x,)),
            forall|j: int| 0 <= j < i ==> is_key(key, items@[j], (#[trigger] keys@[j])@),
        decreases items@.len() - i,
    {
        let k = key(&items[i]);
        let owned = k.to_owned();
        assert(is_key(key, items@[i as int], owned@));
        keys.push(owned);
        i += 1;
    }
    let order = rank_keys(query, &keys);
    let mut out: Vec<&'a T> = Vec::new();
    let mut j: usize = 0;
    while j < order.len()
        invariant
            j <= order@.len(),
            out@.len() == j,
            keys@.len() == items@.len(),
            forall|k: int| 0 <= k < order@.len() ==> (#[trigger] order@[k]) < keys@.len(),
            forall|k: int| 0 <= k < j ==> *(#[trigger] out@[k]) == items@[order@[k] as int],
        decreases order@.len() - j,
    {
        out.push(&items[order[j]]);
        j += 1;
    }
    proof {
        let ks = text::texts(keys@);
        assert(keyed_by(key, items@, ks)) by {
            assert forall|i: int| 0 <= i < items@.len() implies is_key(
                key,
                items@[i],
                #[trigger] ks[i],
            ) by {
                assert(ks[i] == keys@[i]@);
            }
        }
        assert forall|k: int| 0 <= k < out@.len() implies *(#[trigger] out@[k])
            == items@[filtered(query@, ks)[k]] by {
            assert(ints(order@)[k] == order@[k]);
        }
    }
    out
}

// ---------------------------------------------------------------------------
// Laws
// ---------------------------------------------------------------------------

/// Better scores first; equal scores in the order of the candidates.
pub open spec fn in_rank_order(list: Seq<(int, int)>) -> bool {
    forall|j: int, k: int|
        0 <= j < k < list.len() ==> (#[trigger] list[j]).1 < (#[trigger] list[k]).1 || (list[j].1
            == list[k].1 && list[j].0 < list[k].0)
}

proof fn lemma_ranked_with(list: Seq<(int, int)>, x: (int, int))
    requires
        in_rank_order(list),
        forall|k: int| 0 <= k < list.len() ==> (#[trigger] list[k]).0 < x.0,
    ensures
        in_rank_order(ranked_with(list, x)),
        ranked_with(list, x).len() == list.len() + 1,
        forall|k: int|
            0 <= k < ranked_with(list, x).len() ==> (#[trigger] ranked_with(list, x)[k]) == x
                || list.contains(ranked_with(list, x)[k]),
        ranked_with(list, x).contains(x),
    decreases list.len(),
{
    let r = ranked_with(list, x);
    if list.len() == 0 || list.last().1 <= x.1 {
        assert(r[list.len() as int] == x);
        assert forall|k: int| 0 <= k < r.len() implies (#[trigger] r[k]) == x || list.contains(
            r[k],
        ) by {
            if k < list.len() {
                assert(r[k] == list[k]);
            }
        }
        assert forall|j: int, k: int| 0 <= j < k < r.len() implies (#[trigger] r[j]).1
            < (#[trigger] r[k]).1 || (r[j].1 == r[k].1 && r[j].0 < r[k].0) by {
            assert(r[j] == list[j]);
            if k == list.len() && j < list.len() - 1 {
                assert(list[j].1 <= list[list.len() - 1].1);
            }
        }
    } else {
        let rest = list.drop_last();
        assert(in_rank_order(rest)) by {
            assert forall|j: int, k: int| 0 <= j < k < rest.len() implies (#[trigger] rest[j]).1
                < (#[trigger] rest[k]).1 || (rest[j].1 == rest[k].1 && rest[j].0 < rest[k].0) by {
                assert(rest[j] == list[j] && rest[k] == list[k]);
            }
        }
        assert forall|k: int| 0 <= k < rest.len() implies (#[trigger] rest[k]).0 < x.0 by {
            assert(rest[k] == list[k]);
        }
        lemma_ranked_with(rest, x);
        let rr = ranked_with(rest, x);
        assert forall|k: int| 0 <= k < r.len() implies (#[trigger] r[k]) == x || list.contains(
            r[k],
        ) by {
            if k < rr.len() {
                assert(r[k] == rr[k]);
                if rr[k] != x {
                    assert(rest.contains(rr[k]));
                    let m = choose|m: int| 0 <= m < rest.len() && rest[m] == rr[k];
                    assert(list[m] == rr[k]);
                }
            } else {
                assert(r[k] == list.last());
            }
        }
        assert forall|j: int, k: int| 0 <= j < k < r.len() implies (#[trigger] r[j]).1
            < (#[trigger] r[k]).1 || (r[j].1 == r[k].1 && r[j].0 < r[k].0) by {
            assert(r[j] == rr[j]);
            if k < rr.len() {
                assert(r[k] == rr[k]);
            } else {
                assert(r[k] == list.last());
                if rr[j] != x {
                    assert(rest.contains(rr[j]));
                    let m = choose|m: int| 0 <= m < rest.len() && rest[m] == rr[j];
                    assert(list[m] == rr[j]);
                    assert(list[m].1 <= list[list.len() - 1].1);
                }
            }
        }
        let m = choose|m: int| 0 <= m < rr.len() && rr[m] == x;
        assert(r[m] == x);
    }
}

/// The ranking stands in order: better scores first, and of equal scores the
/// earlier candidate. It holds only candidates that match all words.
pub proof fn law_ranking_is_ordered(words: Seq<Seq<char>>, keys: Seq<Seq<char>>, n: int)
    requires
        0 <= n <= keys.len(),
    ensures
        in_rank_order(ranking(words, keys, n)),
        forall|k: int|
            0 <= k < ranking(words, keys, n).len() ==> {
                let x = #[trigger] ranking(words, keys, n)[k];
                0 <= x.0 < n && total_score(words, words.len() as int, keys[x.0]) == Some(x.1)
            },
    decreases n,
{
    if n > 0 {
        law_ranking_is_ordered(words, keys, n - 1);
        let before = ranking(words, keys, n - 1);
        match total_score(words, words.len() as int, keys[n - 1]) {
            Some(s) => {
                assert forall|k: int| 0 <= k < before.len() implies (#[trigger] before[k]).0 < n
                    - 1 by {}
                lemma_ranked_with(before, (n - 1, s));
                let r = ranking(words, keys, n);
                assert forall|k: int| 0 <= k < r.len() implies {
                    let x = #[trigger] r[k];
                    0 <= x.0 < n && total_score(words, words.len() as int, keys[x.0]) == Some(x.1)
                } by {
                    if r[k] != (n - 1, s) {
                        assert(before.contains(r[k]));
                        let m = choose|m: int| 0 <= m < before.len() && before[m] == r[k];
                        assert(before[m] == r[k]);
                    }
                }
            },
            None => {},
        }
    }
}

/// Every candidate that matches all words is in the ranking.
pub proof fn law_every_match_is_ranked(
    words: Seq<Seq<char>>,
    keys: Seq<Seq<char>>,
    n: int,
    i: int,
)
    requires
        0 <= i < n <= keys.len(),
        total_score(words, words.len() as int, keys[i]) is Some,
    ensures
        exists|k: int| 0 <= k < ranking(words, keys, n).len() && (#[trigger] ranking(
            words,
            keys,
            n,
        )[k]).0 == i,
    decreases n,
{
    let r = ranking(words, keys, n);
    let before = ranking(words, keys, n - 1);
    law_ranking_is_ordered(words, keys, n - 1);
    if i == n - 1 {
        let s = total_score(words, words.len() as int, keys[i]).unwrap();
        assert forall|k: int| 0 <= k < before.len() implies (#[trigger] before[k]).0 < n - 1 by {}
        lemma_ranked_with(before, (n - 1, s));
        let m = choose|m: int| 0 <= m < r.len() && r[m] == (n - 1, s);
        assert(r[m].0 == i);
    } else {
        law_every_match_is_ranked(words, keys, n - 1, i);
        let k = choose|k: int| 0 <= k < before.len() && (#[trigger] before[k]).0 == i;
        if let Some(s) = total_score(words, words.len() as int, keys[n - 1]) {
            lemma_ranked_keeps(before, (n - 1, s), k);
            let m = choose|m: int| 0 <= m < r.len() && r[m] == before[k];
            assert(r[m].0 == i);
        } else {
            assert(r[k].0 == i);
        }
    }
}

proof fn lemma_ranked_keeps(list: Seq<(int, int)>, x: (int, int), k: int)
    requires
        0 <= k < list.len(),
    ensures
        exists|m: int| 0 <= m < ranked_with(list, x).len() && ranked_with(list, x)[m] == list[k],
    decreases list.len(),
{
    let r = ranked_with(list, x);
    if list.last().1 <= x.1 {
        assert(r[k] == list[k]);
    } else if k == list.len() - 1 {
        assert(r[r.len() - 1] == list[k]);
    } else {
        lemma_ranked_keeps(list.drop_last(), x, k);
        let rr = ranked_with(list.drop_last(), x);
        let m = choose|m: int| 0 <= m < rr.len() && rr[m] == list.drop_last()[k];
        assert(r[m] == list[k]);
    }
}

/// Whether the characters of a query appear in a candidate in their order.
pub open spec fn appears_in_order(q: Seq<char>, c: Seq<char>) -> bool {
    exists|at: Seq<int>| #[trigger] places(q, c, at)
}

/// Whether these are places of the characters of a query, one behind the
/// other.
pub open spec fn places(q: Seq<char>, c: Seq<char>, at: Seq<int>) -> bool {
    &&& at.len() == q.len()
    &&& forall|k: int| 0 <= k < at.len() ==> 0 <= #[trigger] at[k] < c.len() && c[at[k]] == q[k]
    &&& forall|j: int, k: int| 0 <= j < k < at.len() ==> #[trigger] at[j] < #[trigger] at[k]
}

proof fn lemma_matches_all(q: Seq<char>, c: Seq<char>, at: Seq<int>, n: int)
    requires
        places(q, c, at),
        0 <= n <= c.len(),
    ensures
        0 <= matched(q, c, n).next <= q.len(),
        forall|k: int| 0 <= k < at.len() && #[trigger] at[k] < n ==> matched(q, c, n).next > k,
    decreases n,
{
    if n > 0 {
        lemma_matches_all(q, c, at, n - 1);
        let m = matched(q, c, n - 1);
        assert forall|k: int| 0 <= k < at.len() && #[trigger] at[k] < n implies matched(
            q,
            c,
            n,
        ).next > k by {
            if at[k] == n - 1 {
                if k > 0 {
                    assert(at[k - 1] < at[k]);
                }
                assert(m.next >= k);
            }
        }
    }
}

proof fn lemma_matched_places(q: Seq<char>, c: Seq<char>, n: int) -> (at: Seq<int>)
    requires
        0 <= n <= c.len(),
    ensures
        0 <= matched(q, c, n).next <= q.len(),
        at.len() == matched(q, c, n).next,
        forall|k: int| 0 <= k < at.len() ==> 0 <= #[trigger] at[k] < n && c[at[k]] == q[k],
        forall|j: int, k: int| 0 <= j < k < at.len() ==> #[trigger] at[j] < #[trigger] at[k],
    decreases n,
{
    if n > 0 {
        let before = lemma_matched_places(q, c, n - 1);
        let m = matched(q, c, n - 1);
        if m.next < q.len() && c[n - 1] == q[m.next] {
            let at = before.push(n - 1);
            assert forall|j: int, k: int| 0 <= j < k < at.len() implies #[trigger] at[j]
                < #[trigger] at[k] by {
                assert(at[j] == before[j]);
                if k < before.len() {
                    assert(at[k] == before[k]);
                }
            }
            assert forall|k: int| 0 <= k < at.len() implies 0 <= #[trigger] at[k] < n && c[at[k]]
                == q[k] by {
                if k < before.len() {
                    assert(at[k] == before[k]);
                }
            }
            at
        } else {
            before
        }
    } else {
        Seq::empty()
    }
}

/// A query matches a candidate exactly when its characters appear there in
/// their order, with whatever between them.
pub proof fn law_matches_are_subsequences(q: Seq<char>, c: Seq<char>)
    ensures
        subsequence_score(q, c) is Some <==> appears_in_order(q, c),
{
    let m = matched(q, c, c.len() as int);
    let at = lemma_matched_places(q, c, c.len() as int);
    if m.next == q.len() {
        assert(places(q, c, at));
    }
    if q.len() == 0 {
        assert(places(q, c, Seq::empty()));
    }
    if appears_in_order(q, c) {
        let known = choose|at: Seq<int>| places(q, c, at);
        lemma_matches_all(q, c, known, c.len() as int);
        if q.len() > 0 {
            assert(known[q.len() - 1] < c.len());
        }
    }
}

proof fn lemma_matched_stays(q: Seq<char>, c: Seq<char>, from: int, to: int)
    requires
        0 <= from <= to <= c.len(),
        ({
            let m = matched(q, c, from);
            m.next >= q.len() || forall|k: int| from <= k < to ==> #[trigger] c[k] != q[m.next]
        }),
    ensures
        matched(q, c, to) == matched(q, c, from),
    decreases to - from,
{
    if from < to {
        lemma_matched_stays(q, c, from, to - 1);
        assert(c[to - 1] == c[to - 1]);
    }
}

/// What a match earns for its place, in tenths of a point: a tenth of a
/// point is lost per character before it, and ten points are earned at the
/// start and behind a space, a line end, a dash, an underscore, a dot, a
/// slash or a colon.
pub open spec fn place_value(c: Seq<char>, i: int) -> int {
    if i == 0 || seq![' ', '\t', '\n', '-', '_', '.', '/', ':'].contains(c[i - 1]) {
        i - 100
    } else {
        i
    }
}

proof fn lemma_place_value(c: Seq<char>, i: int)
    requires
        0 <= i < c.len(),
    ensures
        place_value(c, i) == i + (if i == 0 || is_boundary(c[i - 1]) {
            -100int
        } else {
            0int
        }),
{
    let marks = seq![' ', '\t', '\n', '-', '_', '.', '/', ':'];
    if i > 0 {
        let p = c[i - 1];
        if is_boundary(p) {
            assert(marks[0] == ' ' && marks[1] == '\t' && marks[2] == '\n' && marks[3] == '-'
                && marks[4] == '_' && marks[5] == '.' && marks[6] == '/' && marks[7] == ':');
            assert(marks.contains(p));
        }
    }
}

/// A query of two characters scores its two places, 5 points for standing
/// side by side or else minus 2 points for each character between, and 100
/// points for being all of the candidate. Lower is better.
pub proof fn law_two_characters_score_their_places(q: Seq<char>, c: Seq<char>, i: int, j: int)
    requires
        q.len() == 2,
        0 <= i < j < c.len() <= 18_446_744_073_709_551_615,
        c[i] == q[0],
        c[j] == q[1],
        forall|k: int| 0 <= k < i ==> #[trigger] c[k] != q[0],
        forall|k: int| i < k < j ==> #[trigger] c[k] != q[1],
    ensures
        subsequence_score(q, c) == Some(
            place_value(c, i) + place_value(c, j) + (if j == i + 1 {
                -50int
            } else {
                20 * (j - i - 1)
            }) + (if c.len() == 2 {
                -1000int
            } else {
                0int
            }),
        ),
{
    lemma_place_value(c, i);
    lemma_place_value(c, j);
    lemma_matched_stays(q, c, 0, i);
    assert(matched(q, c, i + 1).next == 1);
    lemma_matched_stays(q, c, i + 1, j);
    assert(matched(q, c, j + 1).next == 2);
    lemma_matched_stays(q, c, j + 1, c.len() as int);
    if c.len() == 2 {
        assert(q =~= c);
    }
}

/// A query of one character scores the first place where it stands, and 100
/// points for being all of the candidate.
pub proof fn law_one_character_scores_its_first_place(q: Seq<char>, c: Seq<char>, i: int)
    requires
        q.len() == 1,
        0 <= i < c.len() <= 18_446_744_073_709_551_615,
        c[i] == q[0],
        forall|k: int| 0 <= k < i ==> #[trigger] c[k] != q[0],
    ensures
        subsequence_score(q, c) == Some(
            place_value(c, i) + (if c.len() == 1 {
                -1000int
            } else {
                0int
            }),
        ),
{
    lemma_place_value(c, i);
    lemma_matched_stays(q, c, 0, i);
    assert(matched(q, c, i + 1).next == 1);
    lemma_matched_stays(q, c, i + 1, c.len() as int);
    if c.len() == 1 {
        assert(q =~= c);
    }
}

proof fn lemma_prefix_match(q: Seq<char>, c: Seq<char>, n: int)
    requires
        1 <= n <= q.len() <= 4_294_967_295,
        q.len() <= c.len(),
        c.take(q.len() as int) == q,
        forall|k: int| 0 <= k < q.len() - 1 ==> !is_boundary(#[trigger] q[k]),
    ensures
        ({
            let m = matched(q, c, n);
            &&& m.next == n
            &&& m.last == Some(n - 1)
            &&& m.streak == n - 1
            &&& 2 * m.score == -200 - 49 * (n * (n - 1))
        }),
    decreases n,
{
    assert(c.take(q.len() as int)[n - 1] == c[n - 1]);
    if n == 1 {
        assert(matched(q, c, 0).next == 0);
    } else {
        lemma_prefix_match(q, c, n - 1);
        let m = matched(q, c, n - 1);
        assert(c.take(q.len() as int)[n - 2] == c[n - 2]);
        assert(!is_boundary(q[n - 2]));
        let k = n - 1;
        assert(n * (n - 1) == k * (k - 1) + 2 * k) by (nonlinear_arith)
            requires
                n == k + 1,
        ;
        assert(0 <= k * (k - 1) <= 4_294_967_295 * 4_294_967_295) by (nonlinear_arith)
            requires
                1 <= k <= 4_294_967_295,
        ;
        assert(gain(c, m, n - 1) == -50 * k + k);
    }
}

/// A query that starts the candidate earns 10 points for its start, and for
/// each further character 5 points times the length of the streak so far,
/// less a tenth of a point per place: longer is better, faster and faster.
pub proof fn law_streaks_grow(q: Seq<char>, rest: Seq<char>)
    requires
        1 <= q.len() <= 4_294_967_295,
        rest.len() > 0,
        forall|k: int| 0 <= k < q.len() - 1 ==> !is_boundary(#[trigger] q[k]),
    ensures
        subsequence_score(q, q + rest) matches Some(s) && 2 * s == -200 - 49 * (q.len() * (q.len()
            - 1)),
{
    let c = q + rest;
    assert(c.take(q.len() as int) =~= q);
    lemma_prefix_match(q, c, q.len() as int);
    lemma_matched_stays(q, c, q.len() as int, c.len() as int);
}

/// A candidate that is the query scores 100 points better than the same
/// match in a longer one.
pub proof fn law_being_the_query_earns_a_hundred_points(q: Seq<char>, rest: Seq<char>)
    requires
        1 <= q.len() <= 4_294_967_295,
        rest.len() > 0,
        forall|k: int| 0 <= k < q.len() - 1 ==> !is_boundary(#[trigger] q[k]),
    ensures
        subsequence_score(q, q) matches Some(a) && (subsequence_score(q, q + rest) matches Some(b)
            && a == b - 1000),
{
    let c = q + rest;
    assert(c.take(q.len() as int) =~= q);
    assert(q.take(q.len() as int) =~= q);
    lemma_prefix_match(q, c, q.len() as int);
    lemma_prefix_match(q, q, q.len() as int);
    lemma_matched_stays(q, c, q.len() as int, c.len() as int);
    let n = q.len() as int;
    assert(0 <= n * (n - 1) <= 4_294_967_295 * 4_294_967_295) by (nonlinear_arith)
        requires
            1 <= n <= 4_294_967_295,
    ;
}

/// Capitals do not matter: texts that are the same in lowercase score the
/// same.
pub proof fn law_capitals_do_not_matter(
    q: Seq<char>,
    c: Seq<char>,
    q2: Seq<char>,
    c2: Seq<char>,
)
    requires
        lowered(q) == lowered(q2),
        lowered(c) == lowered(c2),
    ensures
        word_score(q, c) == word_score(q2, c2),
{
}

/// A text in lowercase is its characters in lowercase, one by one.
pub proof fn law_lowercase_goes_by_the_character(a: Seq<char>, b: Seq<char>)
    ensures
        lowered(a + b) == lowered(a) + lowered(b),
        a.len() == 1 ==> lowered(a) == lowercase_of(a[0]),
    decreases b.len(),
{
    if b.len() == 0 {
        assert(a + b =~= a);
        assert(lowered(a) + lowered(b) =~= lowered(a));
    } else {
        law_lowercase_goes_by_the_character(a, b.drop_last());
        assert((a + b).drop_last() =~= a + b.drop_last());
        assert(lowered(a + b) =~= lowered(a) + lowered(b));
    }
    if a.len() == 1 {
        assert(a.drop_last() =~= Seq::empty());
        assert(lowered(a.drop_last()) =~= Seq::empty());
        assert(lowered(a) =~= lowercase_of(a[0]));
    }
}

/// A query whose halves had to be swapped scores 5 points worse than the
/// swapped query itself, and a query that matches as it stands is not
/// swapped.
pub proof fn law_swapping_costs_five_points(
    query: Seq<char>,
    other: Seq<char>,
    candidate: Seq<char>,
    at: int,
)
    requires
        has_halves(lowered(query), at),
        lowered(other) == lowered(query).skip(at) + lowered(query).take(at),
        appears_in_order(lowered(other), lowered(candidate)),
    ensures
        appears_in_order(lowered(query), lowered(candidate)) ==> word_score(query, candidate)
            == subsequence_score(lowered(query), lowered(candidate)),
        !appears_in_order(lowered(query), lowered(candidate)) ==> (word_score(other, candidate)
            matches Some(s) && word_score(query, candidate) == Some(bounded(s + 50))),
{
    let q = lowered(query);
    let c = lowered(candidate);
    law_matches_are_subsequences(q, c);
    law_matches_are_subsequences(lowered(other), c);
    let b = choose|b: int| has_halves(q, b);
    lemma_halves_unique(q, at, b);
}

/// A word matches as it stands, or with its halves swapped where it is
/// letters and digits; nothing else does.
pub proof fn law_what_a_word_matches(query: Seq<char>, candidate: Seq<char>)
    ensures
        word_score(query, candidate) is Some <==> (appears_in_order(
            lowered(query),
            lowered(candidate),
        ) || exists|at: int| #[trigger]
            has_halves(lowered(query), at) && appears_in_order(
                lowered(query).skip(at) + lowered(query).take(at),
                lowered(candidate),
            )),
{
    let q = lowered(query);
    let c = lowered(candidate);
    law_matches_are_subsequences(q, c);
    if exists|at: int| has_halves(q, at) {
        let at = choose|at: int| has_halves(q, at);
        law_matches_are_subsequences(swapped_at(q, at), c);
        if exists|b: int| #[trigger]
            has_halves(q, b) && appears_in_order(q.skip(b) + q.take(b), c) {
            let b = choose|b: int| #[trigger]
                has_halves(q, b) && appears_in_order(q.skip(b) + q.take(b), c);
            lemma_halves_unique(q, at, b);
        }
    }
}

// The words of a query.

proof fn lemma_words_prefix(s: Seq<char>, t: Seq<char>, n: int)
    requires
        0 <= n <= s.len(),
        n <= t.len(),
        s.take(n) == t.take(n),
    ensures
        words_after(s, n) == words_after(t, n),
    decreases n,
{
    if n > 0 {
        assert(s.take(n - 1) =~= s.take(n).drop_last());
        assert(t.take(n - 1) =~= t.take(n).drop_last());
        lemma_words_prefix(s, t, n - 1);
        assert(s.take(n)[n - 1] == s[n - 1]);
        assert(t.take(n)[n - 1] == t[n - 1]);
    }
}

proof fn lemma_words_behind(a: Seq<char>, b: Seq<char>, n: int)
    requires
        0 <= n <= b.len(),
        words_after(a, a.len() as int).1.len() == 0,
    ensures
        words_after(a + b, a.len() + n).0 == words_after(a, a.len() as int).0 + words_after(
            b,
            n,
        ).0,
        words_after(a + b, a.len() + n).1 == words_after(b, n).1,
    decreases n,
{
    let s = a + b;
    if n == 0 {
        assert(s.take(a.len() as int) =~= a.take(a.len() as int));
        lemma_words_prefix(s, a, a.len() as int);
        assert(words_after(a, a.len() as int).0 + words_after(b, 0).0 =~= words_after(
            a,
            a.len() as int,
        ).0);
        assert(words_after(s, a.len() as int).1 =~= words_after(b, 0).1);
    } else {
        lemma_words_behind(a, b, n - 1);
        assert(s[a.len() + n - 1] == b[n - 1]);
        let old = words_after(a, a.len() as int).0;
        let (done, current) = words_after(b, n - 1);
        assert(old + done.push(current) =~= (old + done).push(current));
    }
}

/// A query falls into words at white space and at slashes: the words on
/// either side of one are the words of the two sides.
pub proof fn law_separators_part_the_words(a: Seq<char>, c: char, b: Seq<char>)
    requires
        text::is_white_space(c) || c == '/',
    ensures
        query_words(a + seq![c] + b) == query_words(a) + query_words(b),
{
    let front = a.push(c);
    assert(a + seq![c] + b =~= front + b);
    assert(front.take(a.len() as int) =~= a.take(a.len() as int));
    lemma_words_prefix(front, a, a.len() as int);
    assert(words_after(front, front.len() as int).1.len() == 0);
    assert(words_after(front, front.len() as int).0 == query_words(a));
    lemma_words_behind(front, b, b.len() as int);
    let (done, current) = words_after(b, b.len() as int);
    assert(query_words(a) + done.push(current) =~= (query_words(a) + done).push(current));
}

proof fn lemma_one_word(s: Seq<char>, n: int)
    requires
        0 <= n <= s.len(),
        forall|k: int|
            0 <= k < s.len() ==> !text::is_white_space(#[trigger] s[k]) && s[k] != '/',
    ensures
        words_after(s, n).0.len() == 0,
        words_after(s, n).1 == s.take(n),
    decreases n,
{
    if n > 0 {
        lemma_one_word(s, n - 1);
        assert(s[n - 1] == s[n - 1]);
        assert(s.take(n) =~= s.take(n - 1).push(s[n - 1]));
    } else {
        assert(s.take(0) =~= Seq::empty());
    }
}

/// A text without white space and slashes is one word, and an empty one is
/// none.
pub proof fn law_words_stay_whole(s: Seq<char>)
    requires
        forall|k: int|
            0 <= k < s.len() ==> !text::is_white_space(#[trigger] s[k]) && s[k] != '/',
    ensures
        query_words(s) == (if s.len() > 0 {
            seq![s]
        } else {
            Seq::empty()
        }),
{
    lemma_one_word(s, s.len() as int);
    assert(s.take(s.len() as int) =~= s);
    if s.len() > 0 {
        assert(query_words(s) =~= seq![s]);
    } else {
        assert(query_words(s) =~= Seq::empty());
    }
}

// The score of a query.

/// The scores of words, where all of them match.
pub open spec fn scores_of(words: Seq<Seq<char>>, candidate: Seq<char>) -> Seq<int> {
    words.map_values(|w: Seq<char>| word_score(w, candidate).unwrap())
}

/// How far the scores may add up, one way or the other.
pub open spec fn reach(scores: Seq<int>) -> int {
    scores.fold_left(
        0int,
        |sum: int, x: int|
            sum + if x >= 0 {
                x
            } else {
                -x
            },
    )
}

proof fn lemma_total_prefix(a: Seq<Seq<char>>, b: Seq<Seq<char>>, n: int, candidate: Seq<char>)
    requires
        0 <= n <= a.len(),
        n <= b.len(),
        a.take(n) == b.take(n),
    ensures
        total_score(a, n, candidate) == total_score(b, n, candidate),
    decreases n,
{
    if n > 0 {
        assert(a.take(n - 1) =~= a.take(n).drop_last());
        assert(b.take(n - 1) =~= b.take(n).drop_last());
        lemma_total_prefix(a, b, n - 1, candidate);
        assert(a.take(n)[n - 1] == a[n - 1]);
        assert(b.take(n)[n - 1] == b[n - 1]);
    }
}

/// A query matches exactly when every word of it does, and its score is the
/// sum of the scores of all its words.
pub proof fn law_the_scores_of_all_words_add_up(words: Seq<Seq<char>>, candidate: Seq<char>)
    ensures
        total_score(words, words.len() as int, candidate) is Some <==> forall|k: int|
            0 <= k < words.len() ==> word_score(#[trigger] words[k], candidate) is Some,
        (forall|k: int| 0 <= k < words.len() ==> word_score(#[trigger] words[k], candidate) is Some)
            && reach(scores_of(words, candidate)) <= SCORE_LIMIT ==> total_score(
            words,
            words.len() as int,
            candidate,
        ) == Some(scores_of(words, candidate).fold_left(0int, |sum: int, x: int| sum + x)),
        -reach(scores_of(words, candidate)) <= scores_of(words, candidate).fold_left(
            0int,
            |sum: int, x: int| sum + x,
        ) <= reach(scores_of(words, candidate)),
    decreases words.len(),
{
    let scores = scores_of(words, candidate);
    reveal_with_fuel(Seq::fold_left, 2);
    if words.len() > 0 {
        let front = words.drop_last();
        let n = words.len() as int;
        law_the_scores_of_all_words_add_up(front, candidate);
        assert(scores.drop_last() =~= scores_of(front, candidate));
        assert(front.take(n - 1) =~= words.take(n - 1));
        lemma_total_prefix(front, words, n - 1, candidate);
        if forall|k: int| 0 <= k < words.len() ==> word_score(#[trigger] words[k], candidate) is Some {
            assert forall|k: int| 0 <= k < front.len() implies word_score(
                #[trigger] front[k],
                candidate,
            ) is Some by {
                assert(front[k] == words[k]);
            }
            assert(word_score(words[n - 1], candidate) is Some);
        }
        if total_score(words, n, candidate) is Some {
            assert forall|k: int| 0 <= k < words.len() implies word_score(
                #[trigger] words[k],
                candidate,
            ) is Some by {
                if k < n - 1 {
                    assert(front[k] == words[k]);
                }
            }
        }
    }
}

proof fn lemma_scores_permuted(a: Seq<Seq<char>>, b: Seq<Seq<char>>, candidate: Seq<char>)
    requires
        a.to_multiset() == b.to_multiset(),
    ensures
        scores_of(a, candidate).to_multiset() == scores_of(b, candidate).to_multiset(),
    decreases a.len(),
{
    broadcast use vstd::seq_lib::group_to_multiset_ensures;

    if a.len() == 0 {
        assert(a.to_multiset().len() == a.len());
        assert(b.to_multiset().len() == b.len());
        assert(scores_of(a, candidate) =~= scores_of(b, candidate));
    } else {
        let w = a.last();
        let x = word_score(w, candidate).unwrap();
        assert(a.to_multiset().count(w) > 0);
        assert(b.contains(w));
        let i = choose|i: int| 0 <= i < b.len() && b[i] == w;
        let rest = b.remove(i);
        let front = a.drop_last();
        assert(a =~= front.push(w));
        assert(front.to_multiset() =~= a.to_multiset().remove(w));
        assert(rest.to_multiset() =~= b.to_multiset().remove(w));
        lemma_scores_permuted(front, rest, candidate);
        let sa = scores_of(a, candidate);
        let sb = scores_of(b, candidate);
        assert(sa =~= scores_of(front, candidate).push(x));
        assert(sb.remove(i) =~= scores_of(rest, candidate));
        assert(sb[i] == x);
        assert(sb.remove(i).to_multiset() =~= sb.to_multiset().remove(x));
        assert(sa.to_multiset() =~= scores_of(front, candidate).to_multiset().insert(x));
        assert(sb.contains(x));
        assert(sb.to_multiset().remove(x).insert(x) =~= sb.to_multiset());
    }
}

/// The order of the words does not matter, to what matches or to the score.
pub proof fn law_the_order_of_words_does_not_matter(
    a: Seq<Seq<char>>,
    b: Seq<Seq<char>>,
    candidate: Seq<char>,
)
    requires
        a.to_multiset() == b.to_multiset(),
        reach(scores_of(a, candidate)) <= SCORE_LIMIT,
    ensures
        total_score(a, a.len() as int, candidate) == total_score(b, b.len() as int, candidate),
{
    broadcast use vstd::seq_lib::group_to_multiset_ensures;

    law_the_scores_of_all_words_add_up(a, candidate);
    law_the_scores_of_all_words_add_up(b, candidate);
    lemma_scores_permuted(a, b, candidate);
    let sum = |sum: int, x: int| sum + x;
    let far = |sum: int, x: int|
        sum + if x >= 0 {
            x
        } else {
            -x
        };
    assert(vstd::seq_lib::commutative_foldl(sum));
    assert(vstd::seq_lib::commutative_foldl(far));
    let sa = scores_of(a, candidate);
    let sb = scores_of(b, candidate);
    vstd::seq_lib::lemma_fold_left_permutation(sa, sb, sum, 0int);
    vstd::seq_lib::lemma_fold_left_permutation(sa, sb, far, 0int);
    assert(reach(sa) == sa.fold_left(0int, far));
    assert(reach(sb) == sb.fold_left(0int, far));
    let all_a = forall|k: int| 0 <= k < a.len() ==> word_score(#[trigger] a[k], candidate) is Some;
    let all_b = forall|k: int| 0 <= k < b.len() ==> word_score(#[trigger] b[k], candidate) is Some;
    if all_a {
        assert forall|k: int| 0 <= k < b.len() implies word_score(#[trigger] b[k], candidate) is Some by {
            assert(b.contains(b[k]));
            assert(b.to_multiset().count(b[k]) > 0);
            assert(a.contains(b[k]));
        }
    }
    if all_b {
        assert forall|k: int| 0 <= k < a.len() implies word_score(#[trigger] a[k], candidate) is Some by {
            assert(a.contains(a[k]));
            assert(a.to_multiset().count(a[k]) > 0);
            assert(b.contains(a[k]));
        }
    }
}

/// Two words score their sum, in either order.
pub proof fn law_two_words_score_their_sum(a: Seq<char>, b: Seq<char>, candidate: Seq<char>)
    ensures
        total_score(seq![a, b], 2, candidate) == (match (
            word_score(a, candidate),
            word_score(b, candidate),
        ) {
            (Some(x), Some(y)) => Some(bounded(x + y)),
            _ => None,
        }),
        total_score(seq![a, b], 2, candidate) == total_score(seq![b, a], 2, candidate),
        total_score(seq![a], 1, candidate) == word_score(a, candidate),
{
    reveal_with_fuel(total_score, 3);
    lemma_word_bounds(a, candidate);
    lemma_word_bounds(b, candidate);
    assert(seq![a, b][0] == a && seq![a, b][1] == b);
    assert(seq![b, a][0] == b && seq![b, a][1] == a);
    assert(seq![a][0] == a);
}

proof fn lemma_score_bounds(q: Seq<char>, c: Seq<char>, n: int)
    ensures
        -SCORE_LIMIT <= matched(q, c, n).score <= SCORE_LIMIT,
    decreases n,
{
    if n > 0 {
        lemma_score_bounds(q, c, n - 1);
    }
}

proof fn lemma_word_bounds(query: Seq<char>, candidate: Seq<char>)
    ensures
        word_score(query, candidate) matches Some(s) ==> -SCORE_LIMIT <= s <= SCORE_LIMIT,
{
    let q = lowered(query);
    let c = lowered(candidate);
    lemma_score_bounds(q, c, c.len() as int);
}

/// A ranking goes by the words whatever their order: two queries with the
/// same words rank the same candidates in the same way.
pub proof fn law_rankings_ignore_the_order_of_words(
    a: Seq<Seq<char>>,
    b: Seq<Seq<char>>,
    keys: Seq<Seq<char>>,
    n: int,
)
    requires
        0 <= n <= keys.len(),
        a.to_multiset() == b.to_multiset(),
        forall|k: int|
            0 <= k < keys.len() ==> reach(scores_of(a, #[trigger] keys[k])) <= SCORE_LIMIT,
    ensures
        ranking(a, keys, n) == ranking(b, keys, n),
    decreases n,
{
    if n > 0 {
        law_rankings_ignore_the_order_of_words(a, b, keys, n - 1);
        assert(reach(scores_of(a, keys[n - 1])) <= SCORE_LIMIT);
        law_the_order_of_words_does_not_matter(a, b, keys[n - 1]);
    }
}

/// A filter gives each candidate that matches every word, once, and no
/// other; a query without words gives all of them in their order.
pub proof fn law_the_filter_gives_the_matches(query: Seq<char>, keys: Seq<Seq<char>>)
    ensures
        query_words(query).len() == 0 ==> filtered(query, keys) == Seq::new(
            keys.len(),
            |i: int| i,
        ),
        forall|k: int|
            0 <= k < filtered(query, keys).len() ==> 0 <= #[trigger] filtered(query, keys)[k]
                < keys.len() && matches_all(query_words(query), keys[filtered(query, keys)[k]]),
        forall|i: int|
            0 <= i < keys.len() && matches_all(query_words(query), #[trigger] keys[i])
                ==> filtered(query, keys).contains(i),
        forall|j: int, k: int|
            0 <= j < k < filtered(query, keys).len() ==> #[trigger] filtered(query, keys)[j]
                != #[trigger] filtered(query, keys)[k],
{
    let words = query_words(query);
    let out = filtered(query, keys);
    let n = keys.len() as int;
    if words.len() > 0 {
        let r = ranking(words, keys, n);
        law_ranking_is_ordered(words, keys, n);
        assert forall|k: int| 0 <= k < out.len() implies 0 <= #[trigger] out[k] < keys.len()
            && matches_all(words, keys[out[k]]) by {
            let x = r[k];
            law_the_scores_of_all_words_add_up(words, keys[x.0]);
        }
        assert forall|i: int| 0 <= i < keys.len() && matches_all(words, #[trigger] keys[i]) implies out.contains(
            i,
        ) by {
            law_the_scores_of_all_words_add_up(words, keys[i]);
            law_every_match_is_ranked(words, keys, n, i);
            let k = choose|k: int| 0 <= k < r.len() && (#[trigger] r[k]).0 == i;
            assert(out[k] == i);
        }
        assert forall|j: int, k: int| 0 <= j < k < out.len() implies #[trigger] out[j]
            != #[trigger] out[k] by {
            let x = r[j];
            let y = r[k];
            assert(total_score(words, words.len() as int, keys[x.0]) == Some(x.1));
            assert(total_score(words, words.len() as int, keys[y.0]) == Some(y.1));
        }
    } else {
        assert forall|i: int| 0 <= i < keys.len() implies out.contains(i) by {
            assert(out[i] == i);
        }
    }
}

/// Whether every word matches a candidate.
pub open spec fn matches_all(words: Seq<Seq<char>>, candidate: Seq<char>) -> bool {
    forall|k: int| 0 <= k < words.len() ==> word_score(#[trigger] words[k], candidate) is Some
}

} // verus!
