//! What changed in the project's standing instructions, as a compact diff.
//!
//! A session embeds its context files once. When they change on disk only
//! the changed lines are sent, with a little of what stands around them.
use vstd::prelude::*;

use crate::resources::{ContextFile, ContextFileView};
use crate::text::{chars_of, concat2, decimal_text, push_range, same, same_str, split_lines};
use crate::{resources, text};

verus! {

/// What an update of the context starts with.
pub const CONTEXT_UPDATE_MARKER: &'static str = "[context update]";

/// How many unchanged lines are shown on either side of a change.
pub const CONTEXT_LINES: usize = 2;

/// A line of a diff: kept, removed or added.
#[derive(Debug, Clone, Copy, PartialEq, Eq, Structural)]
pub enum Tag {
    Keep,
    Remove,
    Add,
}

// ---------------------------------------------------------------------------
// The diff
// ---------------------------------------------------------------------------

/// How many lines two texts can share from these lines on.
pub open spec fn shared(a: Seq<Seq<char>>, b: Seq<Seq<char>>, i: int, j: int) -> nat
    decreases a.len() - i + b.len() - j,
{
    if i < 0 || j < 0 || i >= a.len() || j >= b.len() {
        0
    } else if a[i] == b[j] {
        shared(a, b, i + 1, j + 1) + 1
    } else {
        let x = shared(a, b, i + 1, j);
        let y = shared(a, b, i, j + 1);
        if x > y {
            x
        } else {
            y
        }
    }
}

/// The lines that turn one text into another, from these lines on: as many
/// as possible are kept, and removals come before additions.
pub open spec fn script(a: Seq<Seq<char>>, b: Seq<Seq<char>>, i: int, j: int) -> Seq<
    (Tag, Seq<char>),
>
    decreases a.len() - i + b.len() - j,
{
    if i < 0 || j < 0 || i > a.len() || j > b.len() || (i == a.len() && j == b.len()) {
        Seq::empty()
    } else if i == a.len() {
        seq![(Tag::Add, b[j])] + script(a, b, i, j + 1)
    } else if j == b.len() {
        seq![(Tag::Remove, a[i])] + script(a, b, i + 1, j)
    } else if a[i] == b[j] {
        seq![(Tag::Keep, a[i])] + script(a, b, i + 1, j + 1)
    } else if shared(a, b, i + 1, j) >= shared(a, b, i, j + 1) {
        seq![(Tag::Remove, a[i])] + script(a, b, i + 1, j)
    } else {
        seq![(Tag::Add, b[j])] + script(a, b, i, j + 1)
    }
}

/// Views of the rows of a diff.
pub open spec fn row_views(v: Seq<(Tag, Vec<char>)>) -> Seq<(Tag, Seq<char>)> {
    v.map_values(|r: (Tag, Vec<char>)| (r.0, r.1@))
}

proof fn lemma_shared_bound(a: Seq<Seq<char>>, b: Seq<Seq<char>>, i: int, j: int)
    requires
        0 <= i <= a.len(),
        0 <= j <= b.len(),
    ensures
        shared(a, b, i, j) <= a.len() - i,
    decreases a.len() - i + b.len() - j,
{
    if i < a.len() && j < b.len() {
        if a[i] == b[j] {
            lemma_shared_bound(a, b, i + 1, j + 1);
        } else {
            lemma_shared_bound(a, b, i + 1, j);
            lemma_shared_bound(a, b, i, j + 1);
        }
    }
}

/// A row of the table of `shared`. Row `k` belongs to the line with `k` lines
/// behind it in the first text, and within it entry `l` to the line with `l`
/// lines behind it in the second.
spec fn is_row(row: Seq<usize>, a: Seq<Seq<char>>, b: Seq<Seq<char>>, k: int, n: int) -> bool {
    row.len() == n && forall|l: int|
        0 <= l < n ==> #[trigger] row[l] == shared(a, b, a.len() - 1 - k, b.len() - 1 - l)
}

/// Whether these are the first `n` rows of the table.
spec fn is_table(t: Seq<Vec<usize>>, a: Seq<Seq<char>>, b: Seq<Seq<char>>, n: int) -> bool {
    t.len() == n && forall|k: int|
        0 <= k < n ==> is_row((#[trigger] t[k])@, a, b, k, b.len() as int)
}

fn shared_table(a: &Vec<Vec<char>>, b: &Vec<Vec<char>>) -> (r: Vec<Vec<usize>>)
    ensures
        is_table(r@, text::views(a@), text::views(b@), a@.len() as int),
{
    let n: usize = a.len();
    let m: usize = b.len();
    let ghost x = text::views(a@);
    let ghost y = text::views(b@);
    let mut table: Vec<Vec<usize>> = Vec::new();
    let mut k: usize = 0;
    while k < n
        invariant
            n == a@.len(),
            m == b@.len(),
            x == text::views(a@),
            y == text::views(b@),
            k <= n,
            is_table(table@, x, y, k as int),
        decreases n - k,
    {
        let mut row: Vec<usize> = Vec::new();
        let mut l: usize = 0;
        while l < m
            invariant
                n == a@.len(),
                m == b@.len(),
                x == text::views(a@),
                y == text::views(b@),
                k < n,
                l <= m,
                is_table(table@, x, y, k as int),
                is_row(row@, x, y, k as int, l as int),
            decreases m - l,
        {
            let ghost i = n - 1 - k;
            let ghost j = m - 1 - l;
            assert(x[i] == a@[i]@);
            assert(y[j] == b@[j]@);
            assert(k > 0 ==> is_row(table@[k - 1]@, x, y, k - 1, m as int));
            assert(k == 0 ==> shared(x, y, i + 1, j) == 0 && shared(x, y, i + 1, j + 1) == 0);
            assert(l == 0 ==> shared(x, y, i, j + 1) == 0 && shared(x, y, i + 1, j + 1) == 0);
            let value: usize = if same(&a[n - 1 - k], &b[m - 1 - l]) {
                proof {
                    lemma_shared_bound(x, y, i + 1, j + 1);
                }
                if k == 0 || l == 0 {
                    1
                } else {
                    table[k - 1][l - 1] + 1
                }
            } else {
                let p: usize = if k == 0 {
                    0
                } else {
                    table[k - 1][l]
                };
                let q: usize = if l == 0 {
                    0
                } else {
                    row[l - 1]
                };
                if p > q {
                    p
                } else {
                    q
                }
            };
            assert(value == shared(x, y, i, j));
            row.push(value);
            l += 1;
        }
        table.push(row);
        k += 1;
    }
    table
}

fn shared_from(
    table: &Vec<Vec<usize>>,
    n: usize,
    m: usize,
    i: usize,
    j: usize,
    Ghost(a): Ghost<Seq<Seq<char>>>,
    Ghost(b): Ghost<Seq<Seq<char>>>,
) -> (r: usize)
    requires
        n == a.len(),
        m == b.len(),
        is_table(table@, a, b, n as int),
    ensures
        r == shared(a, b, i as int, j as int),
{
    if i >= n || j >= m {
        return 0;
    }
    assert(is_row(table@[n - 1 - i]@, a, b, n - 1 - i, m as int));
    table[n - 1 - i][m - 1 - j]
}

fn edit_rows(a: &Vec<Vec<char>>, b: &Vec<Vec<char>>) -> (r: Vec<(Tag, Vec<char>)>)
    ensures
        row_views(r@) == script(text::views(a@), text::views(b@), 0, 0),
{
    let n: usize = a.len();
    let m: usize = b.len();
    let ghost x = text::views(a@);
    let ghost y = text::views(b@);
    let table = shared_table(a, b);
    let mut out: Vec<(Tag, Vec<char>)> = Vec::new();
    let mut i: usize = 0;
    let mut j: usize = 0;
    assert(row_views(out@) + script(x, y, 0, 0) =~= script(x, y, 0, 0));
    while i < n || j < m
        invariant
            n == a@.len(),
            m == b@.len(),
            x == text::views(a@),
            y == text::views(b@),
            i <= n,
            j <= m,
            is_table(table@, x, y, n as int),
            row_views(out@) + script(x, y, i as int, j as int) == script(x, y, 0, 0),
        decreases n - i + m - j,
    {
        let ghost before = row_views(out@);
        let ghost rest = script(x, y, i as int, j as int);
        assert(i < n ==> x[i as int] == a@[i as int]@);
        assert(j < m ==> y[j as int] == b@[j as int]@);
        let tag = if i == n {
            Tag::Add
        } else if j == m {
            Tag::Remove
        } else if same(&a[i], &b[j]) {
            Tag::Keep
        } else {
            let down: usize = shared_from(&table, n, m, i + 1, j, Ghost(x), Ghost(y));
            let right: usize = shared_from(&table, n, m, i, j + 1, Ghost(x), Ghost(y));
            if down >= right {
                Tag::Remove
            } else {
                Tag::Add
            }
        };
        let line = match tag {
            Tag::Add => text::slice(&b[j], 0, b[j].len()),
            _ => text::slice(&a[i], 0, a[i].len()),
        };
        let ghost shown = line@;
        assert(tag == Tag::Add ==> shown =~= y[j as int]);
        assert(tag != Tag::Add ==> shown =~= x[i as int]);
        out.push((tag, line));
        assert(row_views(out@) =~= before.push((tag, shown)));
        match tag {
            Tag::Add => {
                j += 1;
            },
            Tag::Remove => {
                i += 1;
            },
            Tag::Keep => {
                i += 1;
                j += 1;
            },
        }
        assert(rest =~= seq![(tag, shown)] + script(x, y, i as int, j as int));
        assert(row_views(out@) + script(x, y, i as int, j as int) =~= before + rest);
    }
    assert(row_views(out@) + script(x, y, i as int, j as int) =~= row_views(out@));
    out
}

// ---------------------------------------------------------------------------
// Hunks
// ---------------------------------------------------------------------------

/// Whether a row is shown: it is a change, or stands close to one.
pub open spec fn is_shown(rows: Seq<(Tag, Seq<char>)>, k: int) -> bool {
    exists|j: int|
        0 <= j < rows.len() && k - CONTEXT_LINES <= j && j <= k + CONTEXT_LINES && (
        #[trigger] rows[j]).0 != Tag::Keep
}

/// How many of the first `n` rows stand in the old text, or in the new one.
pub open spec fn lines_in(rows: Seq<(Tag, Seq<char>)>, absent: Tag, n: int) -> nat
    decreases n,
{
    if n <= 0 {
        0
    } else if rows[n - 1].0 != absent {
        lines_in(rows, absent, n - 1) + 1
    } else {
        lines_in(rows, absent, n - 1)
    }
}

/// The mark of a row.
pub open spec fn mark(t: Tag) -> Seq<char> {
    match t {
        Tag::Keep => " "@,
        Tag::Remove => "-"@,
        Tag::Add => "+"@,
    }
}

/// The shown rows among the first `n`. A group of them starts with where it
/// is in the old text and in the new one.
pub open spec fn hunks(rows: Seq<(Tag, Seq<char>)>, n: int) -> Seq<char>
    decreases n,
{
    if n <= 0 {
        Seq::empty()
    } else {
        let before = hunks(rows, n - 1);
        if is_shown(rows, n - 1) {
            before + (if n == 1 || !is_shown(rows, n - 2) {
                "@@ -"@ + text::decimal(lines_in(rows, Tag::Add, n - 1) + 1) + " +"@
                    + text::decimal(lines_in(rows, Tag::Remove, n - 1) + 1) + " @@\n"@
            } else {
                Seq::empty()
            }) + mark(rows[n - 1].0) + rows[n - 1].1 + "\n"@
        } else {
            before
        }
    }
}

fn row_is_shown(rows: &Vec<(Tag, Vec<char>)>, k: usize) -> (r: bool)
    requires
        k < rows@.len(),
    ensures
        r == is_shown(row_views(rows@), k as int),
{
    let ghost views = row_views(rows@);
    let mut j: usize = if k > CONTEXT_LINES {
        k - CONTEXT_LINES
    } else {
        0
    };
    let ghost first = j as int;
    while j < rows.len() && (j <= k || j - k <= CONTEXT_LINES)
        invariant
            k < rows@.len(),
            views == row_views(rows@),
            first <= j,
            first == (if k > CONTEXT_LINES {
                k - CONTEXT_LINES
            } else {
                0
            }),
            j <= rows@.len(),
            forall|i: int| first <= i < j ==> (#[trigger] views[i]).0 == Tag::Keep,
        decreases rows@.len() - j,
    {
        assert(views[j as int].0 == rows@[j as int].0);
        if rows[j].0 != Tag::Keep {
            assert(views[j as int].0 != Tag::Keep);
            return true;
        }
        j += 1;
    }
    false
}

fn push_hunks(out: &mut String, rows: &Vec<(Tag, Vec<char>)>)
    ensures
        final(out)@ == old(out)@ + hunks(row_views(rows@), rows@.len() as int),
{
    let ghost start = out@;
    let ghost views = row_views(rows@);
    let mut in_old: u64 = 0;
    let mut in_new: u64 = 0;
    let mut last = false;
    let mut k: usize = 0;
    assert(out@ =~= start + hunks(views, 0));
    while k < rows.len()
        invariant
            k <= rows@.len(),
            views == row_views(rows@),
            in_old == lines_in(views, Tag::Add, k as int),
            in_new == lines_in(views, Tag::Remove, k as int),
            in_old <= k,
            in_new <= k,
            last == (k > 0 && is_shown(views, k - 1)),
            out@ == start + hunks(views, k as int),
        decreases rows@.len() - k,
    {
        let ghost before = out@;
        assert(views[k as int] == (rows@[k as int].0, rows@[k as int].1@));
        let shown = row_is_shown(rows, k);
        if shown {
            if !last {
                out.push_str("@@ -");
                out.push_str(decimal_text(in_old + 1).as_str());
                out.push_str(" +");
                out.push_str(decimal_text(in_new + 1).as_str());
                out.push_str(" @@\n");
            }
            out.push_str(
                match rows[k].0 {
                    Tag::Keep => " ",
                    Tag::Remove => "-",
                    Tag::Add => "+",
                },
            );
            push_range(out, &rows[k].1, 0, rows[k].1.len());
            out.push_str("\n");
            assert(rows@[k as int].1@.subrange(0, rows@[k as int].1@.len() as int)
                =~= rows@[k as int].1@);
        }
        assert(out@ =~= start + hunks(views, k + 1));
        if rows[k].0 != Tag::Add {
            in_old = in_old + 1;
        }
        if rows[k].0 != Tag::Remove {
            in_new = in_new + 1;
        }
        last = shown;
        k += 1;
    }
}

// ---------------------------------------------------------------------------
// Files
// ---------------------------------------------------------------------------

/// What changed in a file, or nothing where its lines are the same.
pub open spec fn file_delta(path: Seq<char>, before: Seq<char>, after: Seq<char>) -> Seq<char> {
    let a = text::lines_of(before);
    let b = text::lines_of(after);
    if a == b {
        Seq::empty()
    } else {
        let rows = script(a, b, 0, 0);
        "--- "@ + path + "\n+++ "@ + path + "\n"@ + hunks(rows, rows.len() as int)
    }
}

/// The content of the first file from `from` on with this path, or nothing.
pub open spec fn content_at(v: Seq<ContextFileView>, path: Seq<char>, from: int) -> Option<Seq<char>>
    decreases v.len() - from,
{
    if from >= v.len() {
        None
    } else if v[from].path == path {
        Some(v[from].content)
    } else {
        content_at(v, path, from + 1)
    }
}

/// The content of a file that may not be there.
pub open spec fn content_or(o: Option<Seq<char>>) -> Seq<char> {
    match o {
        Some(s) => s,
        None => Seq::empty(),
    }
}

/// What changed in the first `n` files that are there now.
pub open spec fn changed_files(
    before: Seq<ContextFileView>,
    after: Seq<ContextFileView>,
    n: int,
) -> Seq<char>
    decreases n,
{
    if n <= 0 {
        Seq::empty()
    } else {
        let f = after[n - 1];
        changed_files(before, after, n - 1) + file_delta(
            f.path,
            content_or(content_at(before, f.path, 0)),
            f.content,
        )
    }
}

/// The first `n` files that are gone.
pub open spec fn removed_files(
    before: Seq<ContextFileView>,
    after: Seq<ContextFileView>,
    n: int,
) -> Seq<char>
    decreases n,
{
    if n <= 0 {
        Seq::empty()
    } else {
        let f = before[n - 1];
        let rest = removed_files(before, after, n - 1);
        if content_at(after, f.path, 0) is Some {
            rest
        } else {
            rest + file_delta(f.path, f.content, Seq::empty())
        }
    }
}

/// All that changed, or nothing.
pub open spec fn delta_of(before: Seq<ContextFileView>, after: Seq<ContextFileView>) -> Option<
    Seq<char>,
> {
    let body = changed_files(before, after, after.len() as int) + removed_files(
        before,
        after,
        before.len() as int,
    );
    if body.len() == 0 {
        None
    } else {
        Some(
            CONTEXT_UPDATE_MARKER@
                + " The project instructions changed on disk. Only what changed is shown:\n\n"@
                + body,
        )
    }
}

proof fn lemma_views_equal(a: Seq<Vec<char>>, b: Seq<Vec<char>>)
    requires
        a.len() == b.len(),
        forall|k: int| 0 <= k < a.len() ==> (#[trigger] a[k])@ == b[k]@,
    ensures
        text::views(a) == text::views(b),
{
    assert(text::views(a) =~= text::views(b));
}

fn same_lines(a: &Vec<Vec<char>>, b: &Vec<Vec<char>>) -> (r: bool)
    ensures
        r == (text::views(a@) == text::views(b@)),
{
    if a.len() != b.len() {
        assert(text::views(a@).len() != text::views(b@).len());
        return false;
    }
    let mut k: usize = 0;
    while k < a.len()
        invariant
            k <= a@.len(),
            a@.len() == b@.len(),
            forall|j: int| 0 <= j < k ==> (#[trigger] a@[j])@ == b@[j]@,
        decreases a@.len() - k,
    {
        if !same(&a[k], &b[k]) {
            assert(text::views(a@)[k as int] != text::views(b@)[k as int]);
            return false;
        }
        k += 1;
    }
    proof {
        lemma_views_equal(a@, b@);
    }
    true
}

fn push_file_delta(out: &mut String, path: &str, before: &str, after: &str)
    ensures
        final(out)@ == old(out)@ + file_delta(path@, before@, after@),
{
    let ghost start = out@;
    let a = split_lines(&chars_of(before));
    let b = split_lines(&chars_of(after));
    if same_lines(&a, &b) {
        assert(out@ =~= start + file_delta(path@, before@, after@));
        return;
    }
    let rows = edit_rows(&a, &b);
    assert(row_views(rows@).len() == rows@.len());
    out.push_str("--- ");
    out.push_str(path);
    out.push_str("\n+++ ");
    out.push_str(path);
    out.push_str("\n");
    push_hunks(out, &rows);
    assert(out@ =~= start + file_delta(path@, before@, after@));
}

fn find_content(v: &Vec<ContextFile>, path: &str) -> (r: Option<usize>)
    ensures
        match r {
            Some(i) => i < v@.len() && content_at(resources::context_views(v@), path@, 0) == Some(
                v@[i as int].content@,
            ),
            None => content_at(resources::context_views(v@), path@, 0) is None,
        },
{
    let ghost views = resources::context_views(v@);
    let mut i: usize = 0;
    while i < v.len()
        invariant
            i <= v@.len(),
            views == resources::context_views(v@),
            content_at(views, path@, 0) == content_at(views, path@, i as int),
        decreases v@.len() - i,
    {
        assert(views[i as int] == v@[i as int]@);
        if same_str(v[i].path.as_str(), path) {
            return Some(i);
        }
        i += 1;
    }
    None
}

/// Says what changed between two readings of the context files: the changed
/// lines with two lines around them, never the whole of a long file.
pub fn context_delta(before: &Vec<ContextFile>, after: &Vec<ContextFile>) -> (r: Option<String>)
    ensures
        resources::opt(r) == delta_of(
            resources::context_views(before@),
            resources::context_views(after@),
        ),
{
    let ghost x = resources::context_views(before@);
    let ghost y = resources::context_views(after@);
    let mut body = String::new();
    let mut i: usize = 0;
    while i < after.len()
        invariant
            i <= after@.len(),
            x == resources::context_views(before@),
            y == resources::context_views(after@),
            body@ == changed_files(x, y, i as int),
        decreases after@.len() - i,
    {
        assert(y[i as int] == after@[i as int]@);
        match find_content(before, after[i].path.as_str()) {
            Some(k) => {
                push_file_delta(
                    &mut body,
                    after[i].path.as_str(),
                    before[k].content.as_str(),
                    after[i].content.as_str(),
                );
            },
            None => {
                proof {
                    reveal_strlit("");
                    assert(""@ =~= Seq::<char>::empty());
                }
                push_file_delta(&mut body, after[i].path.as_str(), "", after[i].content.as_str());
            },
        }
        i += 1;
    }
    let ghost head = body@;
    let mut k: usize = 0;
    assert(body@ =~= head + removed_files(x, y, 0));
    while k < before.len()
        invariant
            k <= before@.len(),
            x == resources::context_views(before@),
            y == resources::context_views(after@),
            body@ == head + removed_files(x, y, k as int),
        decreases before@.len() - k,
    {
        assert(x[k as int] == before@[k as int]@);
        if find_content(after, before[k].path.as_str()).is_none() {
            proof {
                reveal_strlit("");
                assert(""@ =~= Seq::<char>::empty());
            }
            push_file_delta(
                &mut body,
                before[k].path.as_str(),
                before[k].content.as_str(),
                "",
            );
        }
        assert(body@ =~= head + removed_files(x, y, k + 1));
        k += 1;
    }
    if body.as_str().is_empty() {
        return None;
    }
    let mut out = concat2(
        CONTEXT_UPDATE_MARKER,
        " The project instructions changed on disk. Only what changed is shown:\n\n",
    );
    out.push_str(body.as_str());
    Some(out)
}

// ---------------------------------------------------------------------------
// Laws
// ---------------------------------------------------------------------------

/// The lines of a diff that are not of one kind, in order.
pub open spec fn without(rows: Seq<(Tag, Seq<char>)>, t: Tag) -> Seq<Seq<char>>
    decreases rows.len(),
{
    if rows.len() == 0 {
        Seq::empty()
    } else if rows[0].0 != t {
        seq![rows[0].1] + without(rows.drop_first(), t)
    } else {
        without(rows.drop_first(), t)
    }
}

/// A diff holds both texts: without its additions it is the old one, without
/// its removals the new one.
pub proof fn law_a_diff_holds_both_texts(a: Seq<Seq<char>>, b: Seq<Seq<char>>, i: int, j: int)
    requires
        0 <= i <= a.len(),
        0 <= j <= b.len(),
    ensures
        without(script(a, b, i, j), Tag::Add) == a.skip(i),
        without(script(a, b, i, j), Tag::Remove) == b.skip(j),
    decreases a.len() - i + b.len() - j,
{
    let rows = script(a, b, i, j);
    if i >= a.len() && j >= b.len() {
        assert(a.skip(i) =~= Seq::empty());
        assert(b.skip(j) =~= Seq::empty());
    } else {
        let (x, y) = match rows[0].0 {
            Tag::Keep => (i + 1, j + 1),
            Tag::Remove => (i + 1, j),
            Tag::Add => (i, j + 1),
        };
        law_a_diff_holds_both_texts(a, b, x, y);
        assert(rows.drop_first() =~= script(a, b, x, y));
        if i < a.len() {
            assert(seq![a[i]] + a.skip(i + 1) =~= a.skip(i));
        }
        if j < b.len() {
            assert(seq![b[j]] + b.skip(j + 1) =~= b.skip(j));
        }
    }
}

/// Files that did not change make no update.
pub proof fn law_no_change_makes_no_update(v: Seq<ContextFileView>)
    requires
        forall|i: int, j: int|
            0 <= i < j < v.len() ==> (#[trigger] v[i]).path != (#[trigger] v[j]).path,
    ensures
        delta_of(v, v) is None,
{
    lemma_nothing_changed(v, v.len() as int);
    lemma_nothing_removed(v, v.len() as int);
}

proof fn lemma_found(v: Seq<ContextFileView>, from: int, k: int)
    requires
        0 <= from <= k < v.len(),
        forall|i: int, j: int|
            0 <= i < j < v.len() ==> (#[trigger] v[i]).path != (#[trigger] v[j]).path,
    ensures
        content_at(v, v[k].path, from) == Some(v[k].content),
    decreases k - from,
{
    if from < k {
        lemma_found(v, from + 1, k);
    }
}

proof fn lemma_nothing_changed(v: Seq<ContextFileView>, n: int)
    requires
        0 <= n <= v.len(),
        forall|i: int, j: int|
            0 <= i < j < v.len() ==> (#[trigger] v[i]).path != (#[trigger] v[j]).path,
    ensures
        changed_files(v, v, n).len() == 0,
    decreases n,
{
    if n > 0 {
        lemma_nothing_changed(v, n - 1);
        lemma_found(v, 0, n - 1);
    }
}

proof fn lemma_nothing_removed(v: Seq<ContextFileView>, n: int)
    requires
        0 <= n <= v.len(),
        forall|i: int, j: int|
            0 <= i < j < v.len() ==> (#[trigger] v[i]).path != (#[trigger] v[j]).path,
    ensures
        removed_files(v, v, n).len() == 0,
    decreases n,
{
    if n > 0 {
        lemma_nothing_removed(v, n - 1);
        lemma_found(v, 0, n - 1);
    }
}

/// Whether two texts share lines at the places that are listed, in order.
pub open spec fn share_at(a: Seq<Seq<char>>, b: Seq<Seq<char>>, p: Seq<int>, q: Seq<int>) -> bool {
    &&& p.len() == q.len()
    &&& forall|k: int|
        0 <= k < p.len() ==> 0 <= #[trigger] p[k] < a.len() && 0 <= q[k] < b.len() && a[p[k]]
            == b[q[k]]
    &&& forall|k: int, l: int| 0 <= k < l < p.len() ==> #[trigger] p[k] < #[trigger] p[l]
    &&& forall|k: int, l: int| 0 <= k < l < q.len() ==> #[trigger] q[k] < #[trigger] q[l]
}

proof fn lemma_shared_is_most(
    a: Seq<Seq<char>>,
    b: Seq<Seq<char>>,
    i: int,
    j: int,
    p: Seq<int>,
    q: Seq<int>,
)
    requires
        0 <= i <= a.len(),
        0 <= j <= b.len(),
        share_at(a, b, p, q),
        p.len() > 0 ==> p[0] >= i && q[0] >= j,
    ensures
        p.len() <= shared(a, b, i, j),
    decreases a.len() - i + b.len() - j,
{
    if p.len() > 0 {
        assert(a[p[0]] == b[q[0]]);
        if a[i] == b[j] {
            let x = p.drop_first();
            let y = q.drop_first();
            assert(share_at(a, b, x, y)) by {
                assert forall|k: int| 0 <= k < x.len() implies 0 <= #[trigger] x[k] < a.len() && 0
                    <= y[k] < b.len() && a[x[k]] == b[y[k]] by {
                    assert(x[k] == p[k + 1] && y[k] == q[k + 1]);
                }
                assert forall|k: int, l: int| 0 <= k < l < x.len() implies #[trigger] x[k]
                    < #[trigger] x[l] by {
                    assert(x[k] == p[k + 1] && x[l] == p[l + 1]);
                }
                assert forall|k: int, l: int| 0 <= k < l < y.len() implies #[trigger] y[k]
                    < #[trigger] y[l] by {
                    assert(y[k] == q[k + 1] && y[l] == q[l + 1]);
                }
            }
            if x.len() > 0 {
                assert(x[0] == p[1] && y[0] == q[1]);
                assert(p[0] < p[1] && q[0] < q[1]);
            }
            lemma_shared_is_most(a, b, i + 1, j + 1, x, y);
        } else if p[0] > i {
            lemma_shared_is_most(a, b, i + 1, j, p, q);
        } else {
            assert(q[0] > j);
            lemma_shared_is_most(a, b, i, j + 1, p, q);
        }
    }
}

proof fn lemma_kept_is_shared(a: Seq<Seq<char>>, b: Seq<Seq<char>>, i: int, j: int)
    requires
        0 <= i <= a.len(),
        0 <= j <= b.len(),
    ensures
        script(a, b, i, j).filter(|r: (Tag, Seq<char>)| r.0 == Tag::Keep).len() == shared(
            a,
            b,
            i,
            j,
        ),
    decreases a.len() - i + b.len() - j,
{
    reveal(Seq::filter);
    let keep = |r: (Tag, Seq<char>)| r.0 == Tag::Keep;
    if i == a.len() && j == b.len() {
        assert(script(a, b, i, j).filter(keep) =~= Seq::empty());
    } else if i == a.len() {
        lemma_kept_is_shared(a, b, i, j + 1);
        script(a, b, i, j + 1).lemma_filter_prepend((Tag::Add, b[j]), keep);
    } else if j == b.len() {
        lemma_kept_is_shared(a, b, i + 1, j);
        script(a, b, i + 1, j).lemma_filter_prepend((Tag::Remove, a[i]), keep);
    } else if a[i] == b[j] {
        lemma_kept_is_shared(a, b, i + 1, j + 1);
        script(a, b, i + 1, j + 1).lemma_filter_prepend((Tag::Keep, a[i]), keep);
    } else if shared(a, b, i + 1, j) >= shared(a, b, i, j + 1) {
        lemma_kept_is_shared(a, b, i + 1, j);
        script(a, b, i + 1, j).lemma_filter_prepend((Tag::Remove, a[i]), keep);
    } else {
        lemma_kept_is_shared(a, b, i, j + 1);
        script(a, b, i, j + 1).lemma_filter_prepend((Tag::Add, b[j]), keep);
    }
}

/// A diff is as small as it can be: however lines of the two texts are
/// paired up in order, it keeps at least as many.
pub proof fn law_diffs_keep_all_they_can(
    a: Seq<Seq<char>>,
    b: Seq<Seq<char>>,
    p: Seq<int>,
    q: Seq<int>,
)
    requires
        share_at(a, b, p, q),
    ensures
        p.len() <= script(a, b, 0, 0).filter(|r: (Tag, Seq<char>)| r.0 == Tag::Keep).len(),
{
    if p.len() > 0 {
        assert(p[0] >= 0);
    }
    lemma_shared_is_most(a, b, 0, 0, p, q);
    lemma_kept_is_shared(a, b, 0, 0);
}

proof fn lemma_row_shown(rows: Seq<(Tag, Seq<char>)>, k: int, n: int)
    requires
        0 <= k < n <= rows.len(),
        is_shown(rows, k),
    ensures
        text::stands_in(mark(rows[k].0) + rows[k].1 + "\n"@, hunks(rows, n)),
    decreases n,
{
    let part = mark(rows[k].0) + rows[k].1 + "\n"@;
    let none = Seq::<char>::empty();
    let before = hunks(rows, n - 1);
    let whole = hunks(rows, n);
    let more = if is_shown(rows, n - 1) {
        (if n == 1 || !is_shown(rows, n - 2) {
            "@@ -"@ + text::decimal(lines_in(rows, Tag::Add, n - 1) + 1) + " +"@ + text::decimal(
                lines_in(rows, Tag::Remove, n - 1) + 1,
            ) + " @@\n"@
        } else {
            none
        }) + (mark(rows[n - 1].0) + rows[n - 1].1 + "\n"@)
    } else {
        none
    };
    assert(whole =~= before + more);
    if k == n - 1 {
        let head = if n == 1 || !is_shown(rows, n - 2) {
            "@@ -"@ + text::decimal(lines_in(rows, Tag::Add, n - 1) + 1) + " +"@ + text::decimal(
                lines_in(rows, Tag::Remove, n - 1) + 1,
            ) + " @@\n"@
        } else {
            none
        };
        assert(whole =~= (before + head) + part + none);
        text::lemma_stands(part, whole, before + head, none);
    } else {
        lemma_row_shown(rows, k, n - 1);
        assert(whole =~= none + before + more);
        text::lemma_stands_wider(part, before, none, more);
    }
}

/// Every line that was added or taken away is shown with its sign, and so
/// are the two lines before and behind it.
pub proof fn law_every_change_is_shown(rows: Seq<(Tag, Seq<char>)>, j: int, k: int)
    requires
        0 <= j < rows.len(),
        0 <= k < rows.len(),
        rows[j].0 != Tag::Keep,
        j - 2 <= k <= j + 2,
    ensures
        rows[k].0 == Tag::Add ==> text::stands_in(
            "+"@ + rows[k].1 + "\n"@,
            hunks(rows, rows.len() as int),
        ),
        rows[k].0 == Tag::Remove ==> text::stands_in(
            "-"@ + rows[k].1 + "\n"@,
            hunks(rows, rows.len() as int),
        ),
        rows[k].0 == Tag::Keep ==> text::stands_in(
            " "@ + rows[k].1 + "\n"@,
            hunks(rows, rows.len() as int),
        ),
{
    assert(is_shown(rows, k));
    lemma_row_shown(rows, k, rows.len() as int);
}

/// A line that has no change among the two lines before and behind it is
/// left out.
pub proof fn law_what_is_far_from_a_change_is_left_out(rows: Seq<(Tag, Seq<char>)>, k: int)
    requires
        0 <= k < rows.len(),
        forall|j: int|
            0 <= j < rows.len() && k - 2 <= j <= k + 2 ==> (#[trigger] rows[j]).0 == Tag::Keep,
    ensures
        hunks(rows, k + 1) == hunks(rows, k),
{
}

proof fn lemma_lines_in(rows: Seq<(Tag, Seq<char>)>, absent: Tag, n: int)
    requires
        0 <= n <= rows.len(),
    ensures
        lines_in(rows, absent, n) == rows.take(n).filter(
            |r: (Tag, Seq<char>)| r.0 != absent,
        ).len(),
    decreases n,
{
    reveal(Seq::filter);
    let keep = |r: (Tag, Seq<char>)| r.0 != absent;
    if n > 0 {
        lemma_lines_in(rows, absent, n - 1);
        assert(rows.take(n).drop_last() =~= rows.take(n - 1));
        assert(rows.take(n).last() == rows[n - 1]);
    } else {
        assert(rows.take(n).filter(keep) =~= Seq::empty());
    }
}

/// Where lines are shown again after some were left out, it is said with
/// which line that is in either text.
pub proof fn law_hunks_say_where_they_start(rows: Seq<(Tag, Seq<char>)>, k: int)
    requires
        0 <= k < rows.len(),
        is_shown(rows, k),
        k == 0 || !is_shown(rows, k - 1),
    ensures
        hunks(rows, k + 1) == hunks(rows, k) + "@@ -"@ + text::decimal(
            rows.take(k).filter(|r: (Tag, Seq<char>)| r.0 != Tag::Add).len() + 1,
        ) + " +"@ + text::decimal(
            rows.take(k).filter(|r: (Tag, Seq<char>)| r.0 != Tag::Remove).len() + 1,
        ) + " @@\n"@ + mark(rows[k].0) + rows[k].1 + "\n"@,
{
    lemma_lines_in(rows, Tag::Add, k);
    lemma_lines_in(rows, Tag::Remove, k);
    let x = "@@ -"@ + text::decimal(lines_in(rows, Tag::Add, k) + 1) + " +"@ + text::decimal(
        lines_in(rows, Tag::Remove, k) + 1,
    ) + " @@\n"@;
    assert(hunks(rows, k + 1) =~= hunks(rows, k) + x + mark(rows[k].0) + rows[k].1 + "\n"@);
}

proof fn lemma_changed_stands(
    before: Seq<ContextFileView>,
    after: Seq<ContextFileView>,
    i: int,
    n: int,
)
    requires
        0 <= i < n <= after.len(),
    ensures
        text::stands_in(
            file_delta(
                after[i].path,
                content_or(content_at(before, after[i].path, 0)),
                after[i].content,
            ),
            changed_files(before, after, n),
        ),
    decreases n,
{
    let none = Seq::<char>::empty();
    let part = file_delta(
        after[i].path,
        content_or(content_at(before, after[i].path, 0)),
        after[i].content,
    );
    let earlier = changed_files(before, after, n - 1);
    let whole = changed_files(before, after, n);
    if i == n - 1 {
        assert(whole =~= earlier + part + none);
        text::lemma_stands(part, whole, earlier, none);
    } else {
        lemma_changed_stands(before, after, i, n - 1);
        let f = after[n - 1];
        let more = file_delta(f.path, content_or(content_at(before, f.path, 0)), f.content);
        assert(whole =~= none + earlier + more);
        text::lemma_stands_wider(part, earlier, none, more);
    }
}

proof fn lemma_removed_stands(
    before: Seq<ContextFileView>,
    after: Seq<ContextFileView>,
    i: int,
    n: int,
)
    requires
        0 <= i < n <= before.len(),
        content_at(after, before[i].path, 0) is None,
    ensures
        text::stands_in(
            file_delta(before[i].path, before[i].content, Seq::empty()),
            removed_files(before, after, n),
        ),
    decreases n,
{
    let none = Seq::<char>::empty();
    let part = file_delta(before[i].path, before[i].content, none);
    let earlier = removed_files(before, after, n - 1);
    let whole = removed_files(before, after, n);
    if i == n - 1 {
        assert(whole =~= earlier + part + none);
        text::lemma_stands(part, whole, earlier, none);
    } else {
        lemma_removed_stands(before, after, i, n - 1);
        let f = before[n - 1];
        let more = if content_at(after, f.path, 0) is Some {
            none
        } else {
            file_delta(f.path, f.content, none)
        };
        assert(whole =~= none + earlier + more);
        text::lemma_stands_wider(part, earlier, none, more);
    }
}

proof fn lemma_content_at(v: Seq<ContextFileView>, path: Seq<char>, from: int)
    requires
        0 <= from <= v.len(),
    ensures
        match content_at(v, path, from) {
            Some(c) => exists|k: int|
                from <= k < v.len() && (#[trigger] v[k]).path == path && v[k].content == c,
            None => forall|k: int| from <= k < v.len() ==> (#[trigger] v[k]).path != path,
        },
    decreases v.len() - from,
{
    if from < v.len() && v[from].path != path {
        lemma_content_at(v, path, from + 1);
    }
}

proof fn lemma_told(body: Seq<char>, head: Seq<char>, part: Seq<char>)
    requires
        text::stands_in(part, body),
        part.len() > 0,
    ensures
        body.len() > 0,
        text::stands_in(part, head + body),
{
    let none = Seq::<char>::empty();
    let (x, y) = choose|x: Seq<char>, y: Seq<char>| body == #[trigger] (x + part + y);
    assert(head + body =~= head + body + none);
    text::lemma_stands_wider(part, body, head, none);
}

/// Every file whose lines changed is told of, with its path and the diff of
/// its lines; one that is new is compared with nothing.
pub proof fn law_every_changed_file_is_told(
    before: Seq<ContextFileView>,
    after: Seq<ContextFileView>,
    i: int,
    was: Seq<char>,
)
    requires
        0 <= i < after.len(),
        content_at(before, after[i].path, 0) == Some(was) || (was.len() == 0 && forall|k: int|
            0 <= k < before.len() ==> (#[trigger] before[k]).path != after[i].path),
        text::lines_of(was) != text::lines_of(after[i].content),
    ensures
        ({
            let rows = script(text::lines_of(was), text::lines_of(after[i].content), 0, 0);
            delta_of(before, after) matches Some(told) && text::stands_in(
                "--- "@ + after[i].path + "\n+++ "@ + after[i].path + "\n"@ + hunks(
                    rows,
                    rows.len() as int,
                ),
                told,
            )
        }),
{
    lemma_content_at(before, after[i].path, 0);
    let found = content_or(content_at(before, after[i].path, 0));
    assert(found =~= was);
    let part = file_delta(after[i].path, was, after[i].content);
    reveal_strlit("--- ");
    assert(part.len() > 0);
    lemma_changed_stands(before, after, i, after.len() as int);
    let none = Seq::<char>::empty();
    let x = changed_files(before, after, after.len() as int);
    let y = removed_files(before, after, before.len() as int);
    assert(x + y =~= none + x + y);
    text::lemma_stands_wider(part, x, none, y);
    lemma_told(
        x + y,
        CONTEXT_UPDATE_MARKER@
            + " The project instructions changed on disk. Only what changed is shown:\n\n"@,
        part,
    );
}

/// A file that is gone is told of as well: all its lines are taken away.
pub proof fn law_every_removed_file_is_told(
    before: Seq<ContextFileView>,
    after: Seq<ContextFileView>,
    i: int,
)
    requires
        0 <= i < before.len(),
        forall|k: int| 0 <= k < after.len() ==> (#[trigger] after[k]).path != before[i].path,
        text::lines_of(before[i].content).len() > 0,
    ensures
        ({
            let rows = script(text::lines_of(before[i].content), Seq::empty(), 0, 0);
            delta_of(before, after) matches Some(told) && text::stands_in(
                "--- "@ + before[i].path + "\n+++ "@ + before[i].path + "\n"@ + hunks(
                    rows,
                    rows.len() as int,
                ),
                told,
            )
        }),
{
    lemma_content_at(after, before[i].path, 0);
    let none = Seq::<char>::empty();
    text::lemma_split_on(none, '\n');
    text::lemma_find_from(none, '\n', 0);
    assert(text::lines_of(none) =~= Seq::empty());
    let part = file_delta(before[i].path, before[i].content, none);
    reveal_strlit("--- ");
    assert(part.len() > 0);
    lemma_removed_stands(before, after, i, before.len() as int);
    let x = changed_files(before, after, after.len() as int);
    let y = removed_files(before, after, before.len() as int);
    assert(x + y =~= x + y + none);
    text::lemma_stands_wider(part, y, x, none);
    lemma_told(
        x + y,
        CONTEXT_UPDATE_MARKER@
            + " The project instructions changed on disk. Only what changed is shown:\n\n"@,
        part,
    );
}

} // verus!
