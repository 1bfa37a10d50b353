//! Slash-separated paths as text.
use vstd::prelude::*;

use crate::text::{chars_of, same};
use crate::text;

verus! {

/// A path below another: an absolute one stays as it is, any other goes
/// behind the base, with a slash between them where none is there.
pub open spec fn joined(base: Seq<char>, rel: Seq<char>) -> Seq<char> {
    if rel.len() > 0 && rel[0] == '/' {
        rel
    } else if base.len() > 0 && base.last() != '/' {
        base + "/"@ + rel
    } else {
        base + rel
    }
}

/// Joins two paths.
pub fn join(base: &str, rel: &str) -> (r: String)
    ensures
        r@ == joined(base@, rel@),
{
    let b = chars_of(base);
    let q = chars_of(rel);
    if q.len() > 0 && q[0] == '/' {
        return rel.to_owned();
    }
    if b.len() > 0 && b[b.len() - 1] != '/' {
        return text::concat3(base, "/", rel);
    }
    text::concat2(base, rel)
}

/// Whether a path starts at the root.
pub open spec fn is_absolute(p: Seq<char>) -> bool {
    p.len() > 0 && p[0] == '/'
}

/// Tests whether a path starts at the root.
pub fn absolute(p: &str) -> (r: bool)
    ensures
        r == is_absolute(p@),
{
    let c = chars_of(p);
    c.len() > 0 && c[0] == '/'
}

/// Whether a part of a path counts: empty parts do not, nor does a dot,
/// except at the very start of a relative path.
pub open spec fn counts(parts: Seq<Seq<char>>, k: int) -> bool {
    parts[k].len() > 0 && (parts[k] != "."@ || k == 0)
}

/// Of the first `n` parts of a path those that count.
pub open spec fn counted(parts: Seq<Seq<char>>, n: int) -> Seq<Seq<char>>
    decreases n,
{
    if n <= 0 {
        Seq::empty()
    } else if counts(parts, n - 1) {
        counted(parts, n - 1).push(parts[n - 1])
    } else {
        counted(parts, n - 1)
    }
}

/// The parts of a path that count.
pub open spec fn components(p: Seq<char>) -> Seq<Seq<char>> {
    let parts = text::split_on(p, '/');
    counted(parts, parts.len() as int)
}

/// Whether two paths are the same, part by part.
pub open spec fn same_path(a: Seq<char>, b: Seq<char>) -> bool {
    is_absolute(a) == is_absolute(b) && components(a) == components(b)
}

/// The parts of a path that count.
fn parts_of(p: &Vec<char>) -> (r: Vec<Vec<char>>)
    ensures
        text::views(r@) == components(p@),
{
    let parts = text::split_chars(p, '/');
    let ghost ps = text::views(parts@);
    let mut out: Vec<Vec<char>> = Vec::new();
    let mut i: usize = 0;
    assert(text::views(out@) =~= Seq::empty());
    while i < parts.len()
        invariant
            i <= parts@.len(),
            ps == text::views(parts@),
            text::views(out@) == counted(ps, i as int),
        decreases parts@.len() - i,
    {
        let part = &parts[i];
        assert(ps[i as int] == part@);
        if part.len() > 0 && (i == 0 || !text::is_str(part, ".")) {
            let copy = text::slice(part, 0, part.len());
            assert(copy@ =~= part@);
            let ghost before = out@;
            out.push(copy);
            assert(text::views(out@) =~= text::views(before).push(part@));
        }
        i += 1;
    }
    out
}

/// Tests whether two paths are the same.
pub fn equal(a: &str, b: &str) -> (r: bool)
    ensures
        r == same_path(a@, b@),
{
    if absolute(a) != absolute(b) {
        return false;
    }
    let x = parts_of(&chars_of(a));
    let y = parts_of(&chars_of(b));
    if x.len() != y.len() {
        assert(text::views(x@).len() != text::views(y@).len());
        return false;
    }
    let mut i: usize = 0;
    while i < x.len()
        invariant
            i <= x@.len(),
            x@.len() == y@.len(),
            text::views(x@) == components(a@),
            text::views(y@) == components(b@),
            forall|k: int| 0 <= k < i ==> (#[trigger] x@[k])@ == y@[k]@,
        decreases x@.len() - i,
    {
        if !same(&x[i], &y[i]) {
            assert(text::views(x@)[i as int] != text::views(y@)[i as int]);
            return false;
        }
        i += 1;
    }
    assert(text::views(x@) =~= text::views(y@));
    true
}

/// A path is the same as itself; the order does not matter.
pub proof fn law_same_path_is_an_equivalence(a: Seq<char>, b: Seq<char>, c: Seq<char>)
    ensures
        same_path(a, a),
        same_path(a, b) ==> same_path(b, a),
        same_path(a, b) && same_path(b, c) ==> same_path(a, c),
{
}

// ---------------------------------------------------------------------------
// Order
// ---------------------------------------------------------------------------

/// Whether parts come before other parts: the first pair that differs
/// decides, and what ends first comes first.
pub open spec fn parts_before(a: Seq<Seq<char>>, b: Seq<Seq<char>>) -> bool
    decreases a.len(),
{
    if b.len() == 0 {
        false
    } else if a.len() == 0 {
        true
    } else if a[0] == b[0] {
        parts_before(a.drop_first(), b.drop_first())
    } else {
        text::before(a[0], b[0])
    }
}

/// Whether a path comes before another: those from the root first, then
/// part by part.
pub open spec fn path_before(a: Seq<char>, b: Seq<char>) -> bool {
    if is_absolute(a) != is_absolute(b) {
        is_absolute(a)
    } else {
        parts_before(components(a), components(b))
    }
}

/// Tests whether a path comes before another.
pub fn is_path_before(a: &str, b: &str) -> (r: bool)
    ensures
        r == path_before(a@, b@),
{
    if absolute(a) != absolute(b) {
        return absolute(a);
    }
    let x = parts_of(&chars_of(a));
    let y = parts_of(&chars_of(b));
    let ghost xs = text::views(x@);
    let ghost ys = text::views(y@);
    let mut i: usize = 0;
    assert(xs.skip(0) =~= xs);
    assert(ys.skip(0) =~= ys);
    loop
        invariant
            i <= x@.len(),
            i <= y@.len(),
            xs == text::views(x@),
            ys == text::views(y@),
            parts_before(xs, ys) == parts_before(xs.skip(i as int), ys.skip(i as int)),
            path_before(a@, b@) == parts_before(xs, ys),
        decreases x@.len() - i,
    {
        if i == y.len() {
            return false;
        }
        if i == x.len() {
            return true;
        }
        assert(xs.skip(i as int)[0] == x@[i as int]@);
        assert(ys.skip(i as int)[0] == y@[i as int]@);
        if !same(&x[i], &y[i]) {
            return text::is_before(&x[i], &y[i]);
        }
        assert(xs.skip(i as int).drop_first() =~= xs.skip(i + 1));
        assert(ys.skip(i as int).drop_first() =~= ys.skip(i + 1));
        i += 1;
    }
}

proof fn lemma_parts_before(a: Seq<Seq<char>>, b: Seq<Seq<char>>, c: Seq<Seq<char>>)
    ensures
        parts_before(a, b) ==> !parts_before(b, a),
        !parts_before(b, a) && !parts_before(c, b) ==> !parts_before(c, a),
    decreases a.len() + b.len() + c.len(),
{
    if a.len() > 0 && b.len() > 0 {
        text::lemma_before_total(a[0], b[0]);
    }
    if b.len() > 0 && c.len() > 0 {
        text::lemma_before_total(b[0], c[0]);
    }
    if a.len() > 0 && c.len() > 0 {
        text::lemma_before_total(a[0], c[0]);
    }
    if a.len() > 0 && b.len() > 0 && c.len() > 0 {
        lemma_parts_before(a.drop_first(), b.drop_first(), c.drop_first());
        if text::before(c[0], b[0]) && text::before(b[0], a[0]) {
            text::lemma_before_transitive(c[0], b[0], a[0]);
        }
        if text::before(a[0], b[0]) && text::before(b[0], c[0]) {
            text::lemma_before_transitive(a[0], b[0], c[0]);
        }
        if text::before(c[0], a[0]) && text::before(a[0], b[0]) {
            text::lemma_before_transitive(c[0], a[0], b[0]);
        }
    } else if a.len() > 0 && b.len() > 0 {
        lemma_parts_before(a.drop_first(), b.drop_first(), c);
    }
}

/// No two paths come before each other, and what is not before something
/// that is not before a third is not before that either.
pub proof fn law_path_order(a: Seq<char>, b: Seq<char>, c: Seq<char>)
    ensures
        path_before(a, b) ==> !path_before(b, a),
        !path_before(b, a) && !path_before(c, b) ==> !path_before(c, a),
{
    lemma_parts_before(components(a), components(b), components(c));
}

/// A list with a path put in before the first one that comes after it.
pub open spec fn with_path(list: Seq<Seq<char>>, p: Seq<char>) -> Seq<Seq<char>>
    decreases list.len(),
{
    if list.len() == 0 {
        seq![p]
    } else if path_before(p, list[0]) {
        seq![p] + list
    } else {
        seq![list[0]] + with_path(list.drop_first(), p)
    }
}

/// Paths in order.
pub open spec fn sorted(v: Seq<Seq<char>>) -> Seq<Seq<char>>
    decreases v.len(),
{
    if v.len() == 0 {
        Seq::empty()
    } else {
        with_path(sorted(v.drop_last()), v.last())
    }
}

proof fn lemma_with_path_at(list: Seq<Seq<char>>, p: Seq<char>, at: int)
    requires
        0 <= at <= list.len(),
        forall|k: int| 0 <= k < at ==> !path_before(p, #[trigger] list[k]),
        at < list.len() ==> path_before(p, list[at]),
    ensures
        with_path(list, p) == list.insert(at, p),
    decreases list.len(),
{
    if list.len() == 0 {
        assert(with_path(list, p) =~= list.insert(at, p));
    } else if at == 0 {
        assert(with_path(list, p) =~= list.insert(at, p));
    } else {
        let rest = list.drop_first();
        assert(!path_before(p, list[0]));
        assert forall|k: int| 0 <= k < at - 1 implies !path_before(p, #[trigger] rest[k]) by {
            assert(rest[k] == list[k + 1]);
        }
        lemma_with_path_at(rest, p, at - 1);
        assert(with_path(list, p) =~= list.insert(at, p));
    }
}

/// Puts paths in order. Of equal ones the first stays first.
pub fn sort_paths(v: Vec<String>) -> (r: Vec<String>)
    ensures
        text::texts(r@) == sorted(text::texts(v@)),
{
    let ghost all = text::texts(v@);
    let mut out: Vec<String> = Vec::new();
    let mut i: usize = 0;
    assert(text::texts(out@) =~= sorted(all.take(0)));
    while i < v.len()
        invariant
            i <= v@.len(),
            all == text::texts(v@),
            text::texts(out@) == sorted(all.take(i as int)),
        decreases v@.len() - i,
    {
        let p = v[i].as_str();
        assert(all[i as int] == p@);
        let ghost list = text::texts(out@);
        let mut at: usize = 0;
        while at < out.len() && !is_path_before(p, out[at].as_str())
            invariant
                at <= out@.len(),
                list == text::texts(out@),
                forall|k: int| 0 <= k < at ==> !path_before(p@, #[trigger] list[k]),
            decreases out@.len() - at,
        {
            assert(list[at as int] == out@[at as int]@);
            at += 1;
        }
        if at < out.len() {
            assert(list[at as int] == out@[at as int]@);
        }
        proof {
            lemma_with_path_at(list, p@, at as int);
            assert(all.take(i + 1).drop_last() =~= all.take(i as int));
        }
        out.insert(at, v[i].clone());
        assert(text::texts(out@) =~= list.insert(at as int, p@));
        i += 1;
    }
    assert(all.take(v@.len() as int) =~= all);
    out
}

/// Whether no path comes before an earlier one.
pub open spec fn in_order(v: Seq<Seq<char>>) -> bool {
    forall|i: int, j: int| 0 <= i < j < v.len() ==> !path_before(#[trigger] v[j], #[trigger] v[i])
}

proof fn lemma_with_path(list: Seq<Seq<char>>, p: Seq<char>)
    requires
        in_order(list),
    ensures
        in_order(with_path(list, p)),
        with_path(list, p).to_multiset() == list.to_multiset().insert(p),
        forall|k: int|
            0 <= k < with_path(list, p).len() ==> (#[trigger] with_path(list, p)[k]) == p
                || list.contains(with_path(list, p)[k]),
    decreases list.len(),
{
    broadcast use vstd::seq_lib::group_to_multiset_ensures;

    let w = with_path(list, p);
    if list.len() == 0 {
        assert(w =~= list.push(p));
    } else if path_before(p, list[0]) {
        assert(w =~= list.insert(0, p));
        assert forall|i: int, j: int| 0 <= i < j < w.len() implies !path_before(
            #[trigger] w[j],
            #[trigger] w[i],
        ) by {
            if i == 0 {
                assert(w[j] == list[j - 1]);
                law_path_order(p, list[0], list[j - 1]);
                if j > 1 {
                    assert(!path_before(list[j - 1], list[0]));
                }
            } else {
                assert(w[i] == list[i - 1]);
                assert(w[j] == list[j - 1]);
            }
        }
        assert(w.to_multiset() =~= list.to_multiset().insert(p)) by {
            assert(w =~= seq![p] + list);
            vstd::seq_lib::lemma_multiset_commutative(seq![p], list);
            assert(seq![p] =~= Seq::<Seq<char>>::empty().push(p));
            assert(Seq::<Seq<char>>::empty().to_multiset() =~= vstd::multiset::Multiset::empty());
        }
        assert forall|k: int| 0 <= k < w.len() implies (#[trigger] w[k]) == p || list.contains(
            w[k],
        ) by {
            if k > 0 {
                assert(w[k] == list[k - 1]);
            }
        }
    } else {
        let rest = list.drop_first();
        let inner = with_path(rest, p);
        assert forall|i: int, j: int| 0 <= i < j < rest.len() implies !path_before(
            #[trigger] rest[j],
            #[trigger] rest[i],
        ) by {
            assert(rest[i] == list[i + 1]);
            assert(rest[j] == list[j + 1]);
        }
        lemma_with_path(rest, p);
        assert(w =~= seq![list[0]] + inner);
        assert forall|i: int, j: int| 0 <= i < j < w.len() implies !path_before(
            #[trigger] w[j],
            #[trigger] w[i],
        ) by {
            assert(w[j] == inner[j - 1]);
            if i == 0 {
                if inner[j - 1] != p {
                    let m = choose|m: int| 0 <= m < rest.len() && rest[m] == inner[j - 1];
                    assert(rest[m] == list[m + 1]);
                    assert(!path_before(list[m + 1], list[0]));
                }
            } else {
                assert(w[i] == inner[i - 1]);
            }
        }
        vstd::seq_lib::lemma_multiset_commutative(seq![list[0]], inner);
        vstd::seq_lib::lemma_multiset_commutative(seq![list[0]], rest);
        assert(list =~= seq![list[0]] + rest);
        assert(w.to_multiset() =~= list.to_multiset().insert(p));
        assert forall|k: int| 0 <= k < w.len() implies (#[trigger] w[k]) == p || list.contains(
            w[k],
        ) by {
            if k > 0 {
                assert(w[k] == inner[k - 1]);
                if inner[k - 1] != p {
                    let m = choose|m: int| 0 <= m < rest.len() && rest[m] == inner[k - 1];
                    assert(list[m + 1] == rest[m]);
                }
            } else {
                assert(list[0] == w[0]);
            }
        }
    }
}

/// Sorting puts paths in order and loses none of them.
pub proof fn law_sorting_orders_and_keeps(v: Seq<Seq<char>>)
    ensures
        in_order(sorted(v)),
        sorted(v).to_multiset() == v.to_multiset(),
    decreases v.len(),
{
    broadcast use vstd::seq_lib::group_to_multiset_ensures;

    if v.len() > 0 {
        law_sorting_orders_and_keeps(v.drop_last());
        lemma_with_path(sorted(v.drop_last()), v.last());
        assert(v =~= v.drop_last().push(v.last()));
    } else {
        assert(sorted(v) =~= v);
    }
}

// ---------------------------------------------------------------------------
// Below a directory
// ---------------------------------------------------------------------------

/// The first part from `from` on that counts, or the end.
pub open spec fn next_part(parts: Seq<Seq<char>>, from: int) -> int
    decreases parts.len() - from,
{
    if from >= parts.len() {
        parts.len() as int
    } else if counts(parts, from) {
        from
    } else {
        next_part(parts, from + 1)
    }
}

/// Where what follows the first `n` parts that count begins.
pub open spec fn behind(parts: Seq<Seq<char>>, n: int) -> int
    decreases n,
{
    if n <= 0 {
        0
    } else {
        let at = next_part(parts, behind(parts, n - 1));
        if at < parts.len() {
            at + 1
        } else {
            at
        }
    }
}

/// Where the last part that counts among the first `n` ends.
pub open spec fn last_end(parts: Seq<Seq<char>>, n: int) -> int
    decreases n,
{
    if n <= 0 {
        0
    } else if counts(parts, n - 1) {
        n
    } else {
        last_end(parts, n - 1)
    }
}

/// A path without the directory that it is below, if it is: what stands from
/// the first part behind the directory's to the last one.
pub open spec fn rest_of(path: Seq<char>, base: Seq<char>) -> Option<Seq<char>> {
    let a = components(path);
    let b = components(base);
    if is_absolute(path) == is_absolute(base) && b.len() <= a.len() && a.take(b.len() as int) == b {
        let parts = text::split_on(path, '/');
        let from = next_part(parts, behind(parts, b.len() as int));
        let end = last_end(parts, parts.len() as int);
        Some(
            if from < end {
                text::joined(parts.subrange(from, end), "/"@)
            } else {
                Seq::empty()
            },
        )
    } else {
        None
    }
}

fn find_part(parts: &Vec<Vec<char>>, from: usize) -> (r: usize)
    ensures
        r == next_part(text::views(parts@), from as int),
        r <= parts@.len(),
{
    let ghost ps = text::views(parts@);
    let mut i: usize = from;
    while i < parts.len()
        invariant
            ps == text::views(parts@),
            next_part(ps, from as int) == next_part(ps, i as int),
        decreases parts@.len() - i,
    {
        assert(ps[i as int] == parts@[i as int]@);
        if parts[i].len() > 0 && (i == 0 || !text::is_str(&parts[i], ".")) {
            return i;
        }
        i += 1;
    }
    parts.len()
}

fn find_end(parts: &Vec<Vec<char>>) -> (r: usize)
    ensures
        r == last_end(text::views(parts@), parts@.len() as int),
        r <= parts@.len(),
{
    let ghost ps = text::views(parts@);
    let mut i: usize = parts.len();
    while i > 0
        invariant
            i <= parts@.len(),
            ps == text::views(parts@),
            last_end(ps, parts@.len() as int) == last_end(ps, i as int),
        decreases i,
    {
        let k: usize = i - 1;
        assert(ps[k as int] == parts@[k as int]@);
        if parts[k].len() > 0 && (k == 0 || !text::is_str(&parts[k], ".")) {
            return i;
        }
        i = k;
    }
    0
}

/// Takes the directory that a path is below off the path.
pub fn strip_base(path: &str, base: &str) -> (r: Option<String>)
    ensures
        match r {
            Some(s) => rest_of(path@, base@) == Some(s@),
            None => rest_of(path@, base@) is None,
        },
{
    if absolute(path) != absolute(base) {
        return None;
    }
    let chars = chars_of(path);
    let a = parts_of(&chars);
    let b = parts_of(&chars_of(base));
    let ghost av = components(path@);
    let ghost bv = components(base@);
    if b.len() > a.len() {
        assert(bv.len() > av.len());
        return None;
    }
    let parts = text::split_chars(&chars, '/');
    let ghost ps = text::views(parts@);
    let mut at: usize = 0;
    let mut i: usize = 0;
    while i < b.len()
        invariant
            i <= b@.len() <= a@.len(),
            text::views(a@) == av,
            text::views(b@) == bv,
            ps == text::views(parts@),
            av == components(path@),
            bv == components(base@),
            at == behind(ps, i as int),
            forall|k: int| 0 <= k < i ==> av[k] == #[trigger] bv[k],
        decreases b@.len() - i,
    {
        assert(av[i as int] == a@[i as int]@ && bv[i as int] == b@[i as int]@);
        if !same(&a[i], &b[i]) {
            assert(av.take(bv.len() as int)[i as int] != bv[i as int]);
            return None;
        }
        at = find_part(&parts, at);
        if at < parts.len() {
            at += 1;
        }
        i += 1;
    }
    assert(av.take(bv.len() as int) =~= bv);
    let from: usize = find_part(&parts, at);
    let end: usize = find_end(&parts);
    let mut out: Vec<String> = Vec::new();
    let mut k: usize = from;
    assert(text::texts(out@) =~= ps.subrange(from as int, from as int));
    while k < end
        invariant
            from <= parts@.len(),
            end <= parts@.len(),
            from <= k,
            k <= end || out@.len() == 0,
            ps == text::views(parts@),
            from <= end ==> k <= end && text::texts(out@) == ps.subrange(from as int, k as int),
        decreases end - k,
    {
        let ghost before = text::texts(out@);
        let piece = text::to_text(&parts[k]);
        assert(piece@ == ps[k as int]);
        out.push(piece);
        assert(text::texts(out@) =~= before.push(ps[k as int]));
        assert(ps.subrange(from as int, k + 1) =~= ps.subrange(from as int, k as int).push(
            ps[k as int],
        ));
        k += 1;
    }
    if from < end {
        Some(text::join(&out, "/"))
    } else {
        Some(String::new())
    }
}

// ---------------------------------------------------------------------------
// Laws
// ---------------------------------------------------------------------------

/// Whether texts can be the parts of a path: not empty, no dot alone, and
/// without a slash.
pub open spec fn are_parts(parts: Seq<Seq<char>>) -> bool {
    forall|k: int|
        0 <= k < parts.len() ==> (#[trigger] parts[k]).len() > 0 && parts[k] != "."@
            && !parts[k].contains('/')
}

proof fn lemma_slash()
    ensures
        "/"@ == seq!['/'],
{
    reveal_strlit("/");
    assert("/"@ =~= seq!['/']);
}

proof fn lemma_split_joined(base: Seq<char>, parts: Seq<Seq<char>>)
    requires
        parts.len() > 0,
        are_parts(parts),
    ensures
        text::split_on(base + seq!['/'] + text::joined(parts, seq!['/']), '/') == text::split_on(
            base,
            '/',
        ) + parts,
{
    let front = text::split_on(base, '/');
    text::lemma_split_on(base, '/');
    text::law_joining_undoes_splitting(base, '/');
    text::law_joining_lists(front, parts, seq!['/']);
    let all = front + parts;
    assert forall|k: int| 0 <= k < all.len() implies !(#[trigger] all[k]).contains('/') by {
        if k < front.len() {
            text::law_pieces_are_free_of_the_separator(base, '/', k);
        } else {
            assert(all[k] == parts[k - front.len()]);
        }
    }
    text::law_splitting_undoes_joining(all, '/');
}

proof fn lemma_counted_prefix(a: Seq<Seq<char>>, b: Seq<Seq<char>>, n: int)
    requires
        0 <= n <= a.len(),
        n <= b.len(),
        forall|k: int| 0 <= k < n ==> a[k] == b[k],
    ensures
        counted(a, n) == counted(b, n),
        last_end(a, n) == last_end(b, n),
        0 <= last_end(a, n) <= n,
    decreases n,
{
    if n > 0 {
        lemma_counted_prefix(a, b, n - 1);
    }
}

proof fn lemma_counted_all(front: Seq<Seq<char>>, parts: Seq<Seq<char>>, n: int)
    requires
        front.len() > 0,
        are_parts(parts),
        0 <= n <= parts.len(),
    ensures
        counted(front + parts, front.len() + n) == counted(front, front.len() as int)
            + parts.take(n),
        n > 0 ==> last_end(front + parts, front.len() + n) == front.len() + n,
    decreases n,
{
    let all = front + parts;
    if n == 0 {
        lemma_counted_prefix(all, front, front.len() as int);
        assert(parts.take(0) =~= Seq::empty());
        assert(counted(front, front.len() as int) + parts.take(0) =~= counted(
            front,
            front.len() as int,
        ));
    } else {
        lemma_counted_all(front, parts, n - 1);
        let k = front.len() + n - 1;
        assert(all[k] == parts[n - 1]);
        assert(counts(all, k));
        assert(parts.take(n) =~= parts.take(n - 1).push(parts[n - 1]));
        assert(counted(all, k + 1) =~= counted(front, front.len() as int) + parts.take(n));
    }
}

proof fn lemma_next_part(parts: Seq<Seq<char>>, from: int, at: int)
    requires
        0 <= from <= at < parts.len(),
        counts(parts, at),
        forall|k: int| from <= k < at ==> !counts(parts, k),
    ensures
        next_part(parts, from) == at,
    decreases at - from,
{
    if from < at {
        lemma_next_part(parts, from + 1, at);
    }
}

proof fn lemma_last_end(parts: Seq<Seq<char>>, n: int)
    requires
        0 <= n <= parts.len(),
    ensures
        0 <= last_end(parts, n) <= n,
        forall|k: int| last_end(parts, n) <= k < n ==> !counts(parts, k),
        behind(parts, counted(parts, n).len() as int) == last_end(parts, n),
    decreases n,
{
    if n > 0 {
        lemma_last_end(parts, n - 1);
        if counts(parts, n - 1) {
            lemma_next_part(parts, last_end(parts, n - 1), n - 1);
        }
    }
}

/// A path that was joined to a directory is below it, and what is left
/// without the directory is what was joined.
pub proof fn law_what_was_joined_is_below(base: Seq<char>, parts: Seq<Seq<char>>)
    requires
        base.len() > 0,
        base.last() != '/',
        parts.len() > 0,
        are_parts(parts),
    ensures
        rest_of(joined(base, text::joined(parts, seq!['/'])), base) == Some(
            text::joined(parts, seq!['/']),
        ),
        joined(base, text::joined(parts, seq!['/'])) == base + seq!['/'] + text::joined(
            parts,
            seq!['/'],
        ),
{
    lemma_slash();
    let rel = text::joined(parts, seq!['/']);
    lemma_joined_start(parts);
    let path = joined(base, rel);
    assert(path == base + seq!['/'] + rel);
    lemma_split_joined(base, parts);
    let front = text::split_on(base, '/');
    text::lemma_split_on(base, '/');
    let all = front + parts;
    let n = front.len() as int;
    let m = all.len() as int;
    lemma_counted_all(front, parts, parts.len() as int);
    assert(parts.take(parts.len() as int) =~= parts);
    let a = components(path);
    let b = components(base);
    assert(a == b + parts);
    assert(a.take(b.len() as int) =~= b);
    assert(path[0] == base[0]);
    lemma_counted_prefix(all, front, n);
    lemma_last_end(all, n);
    assert(counts(all, n)) by {
        assert(all[n] == parts[0]);
    }
    lemma_next_part(all, last_end(all, n), n);
    assert(all.subrange(n, m) =~= parts);
}

proof fn lemma_joined_start(parts: Seq<Seq<char>>)
    requires
        parts.len() > 0,
        are_parts(parts),
    ensures
        text::joined(parts, seq!['/']).len() > 0,
        text::joined(parts, seq!['/'])[0] != '/',
{
    let rest = parts.drop_first();
    assert(parts =~= seq![parts[0]] + rest);
    text::lemma_joined_front(parts[0], rest, seq!['/']);
    assert(parts[0].contains(parts[0][0]));
}

/// An absolute path stays what it is wherever it is joined.
pub proof fn law_absolute_paths_stay(base: Seq<char>, rel: Seq<char>)
    requires
        rel.len() > 0 && rel[0] == '/',
    ensures
        joined(base, rel) == rel,
{
}

/// A path is its parts: two paths are the same when their parts are, and a
/// path written part by part has these parts.
pub proof fn law_paths_are_their_parts(parts: Seq<Seq<char>>)
    requires
        parts.len() > 0,
        are_parts(parts),
    ensures
        components(text::joined(parts, seq!['/'])) == parts,
        components(seq!['/'] + text::joined(parts, seq!['/'])) == parts,
        !is_absolute(text::joined(parts, seq!['/'])),
        is_absolute(seq!['/'] + text::joined(parts, seq!['/'])),
{
    let rel = text::joined(parts, seq!['/']);
    lemma_joined_start(parts);
    assert forall|k: int| 0 <= k < parts.len() implies !(#[trigger] parts[k]).contains('/') by {}
    text::law_splitting_undoes_joining(parts, '/');
    lemma_counted_whole(parts, parts.len() as int);
    assert(parts.take(parts.len() as int) =~= parts);
    let none = Seq::<char>::empty();
    lemma_split_joined(none, parts);
    assert(none + seq!['/'] + rel =~= seq!['/'] + rel);
    text::lemma_split_on(none, '/');
    text::lemma_find_from(none, '/', 0);
    let front = text::split_on(none, '/');
    assert(front =~= seq![none]);
    lemma_counted_all(front, parts, parts.len() as int);
    assert(!counts(front, 0));
    assert(counted(front, 0) =~= Seq::empty());
    assert(counted(front, 1) =~= Seq::empty());
    assert(counted(front, 1) + parts =~= parts);
}

proof fn lemma_counted_whole(parts: Seq<Seq<char>>, n: int)
    requires
        are_parts(parts),
        0 <= n <= parts.len(),
    ensures
        counted(parts, n) == parts.take(n),
    decreases n,
{
    if n > 0 {
        lemma_counted_whole(parts, n - 1);
        assert(parts[n - 1].len() > 0);
        assert(parts.take(n) =~= parts.take(n - 1).push(parts[n - 1]));
    } else {
        assert(parts.take(0) =~= Seq::empty());
    }
}

/// Paths are ordered by their first part that differs, and a directory comes
/// before what is in it.
pub proof fn law_paths_are_ordered_part_by_part(a: Seq<Seq<char>>, b: Seq<Seq<char>>, n: int)
    requires
        0 <= n <= a.len(),
        n <= b.len(),
        a.take(n) == b.take(n),
    ensures
        n < a.len() && n < b.len() && a[n] != b[n] ==> parts_before(a, b) == text::before(
            a[n],
            b[n],
        ),
        n == a.len() ==> parts_before(a, b) == (n < b.len()),
    decreases n,
{
    if n > 0 {
        assert(a.take(n)[0] == a[0] && b.take(n)[0] == b[0]);
        let x = a.drop_first();
        let y = b.drop_first();
        assert(x.take(n - 1) =~= a.take(n).drop_first());
        assert(y.take(n - 1) =~= b.take(n).drop_first());
        law_paths_are_ordered_part_by_part(x, y, n - 1);
        if n < a.len() && n < b.len() {
            assert(x[n - 1] == a[n] && y[n - 1] == b[n]);
        }
    }
}

} // verus!
