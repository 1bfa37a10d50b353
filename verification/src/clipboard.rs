//! Text for the clipboard of the terminal.
//!
//! A terminal takes text for its clipboard in a control sequence, in base 64:
//! three bytes in four digits, and `=` for what is missing of the last three.
use vstd::prelude::*;

verus! {

/// The digit of a number below 64.
pub open spec fn digit(n: int) -> char {
    if n < 26 {
        (n + 65) as char
    } else if n < 52 {
        (n + 71) as char
    } else if n < 62 {
        (n - 4) as char
    } else if n == 62 {
        '+'
    } else {
        '/'
    }
}

/// The four digits for the first three bytes, or for as many as there are.
pub open spec fn group(b: Seq<u8>) -> Seq<char> {
    if b.len() == 1 {
        seq![digit((b[0] / 4) as int), digit(b[0] % 4 * 16), '=', '=']
    } else if b.len() == 2 {
        seq![digit((b[0] / 4) as int), digit(b[0] % 4 * 16 + b[1] / 16), digit(b[1] % 16 * 4), '=']
    } else {
        seq![
            digit((b[0] / 4) as int),
            digit(b[0] % 4 * 16 + b[1] / 16),
            digit(b[1] % 16 * 4 + b[2] / 64),
            digit((b[2] % 64) as int),
        ]
    }
}

/// Bytes in base 64.
pub open spec fn encoded(b: Seq<u8>) -> Seq<char>
    decreases b.len(),
{
    if b.len() == 0 {
        Seq::empty()
    } else if b.len() <= 3 {
        group(b)
    } else {
        group(b) + encoded(b.skip(3))
    }
}

/// The digit of a number below 64.
fn digit_of(n: u8) -> (r: char)
    requires
        n < 64,
    ensures
        r == digit(n as int),
{
    if n < 26 {
        (n + 65) as char
    } else if n < 52 {
        (n + 71) as char
    } else if n < 62 {
        (n - 4) as char
    } else if n == 62 {
        '+'
    } else {
        '/'
    }
}

/// The control sequence that hands bytes to the clipboard of the terminal.
pub fn copy_sequence(bytes: &Vec<u8>) -> (r: String)
    ensures
        r@ == "\u{1b}]52;c;"@ + encoded(bytes@) + "\u{7}"@,
{
    let mut out = String::new();
    out.push_str("\u{1b}]52;c;");
    let ghost head = "\u{1b}]52;c;"@;
    let n: usize = bytes.len();
    let mut i: usize = 0;
    assert(bytes@.skip(0) =~= bytes@);
    while i < n
        invariant
            i <= n == bytes@.len(),
            out@ + encoded(bytes@.skip(i as int)) == head + encoded(bytes@),
        decreases n - i,
    {
        let ghost rest = bytes@.skip(i as int);
        let ghost before = out@;
        let a: u8 = bytes[i];
        out.push(digit_of(a / 4));
        if n - i == 1 {
            out.push(digit_of(a % 4 * 16));
            out.push('=');
            out.push('=');
        } else {
            let b: u8 = bytes[i + 1];
            out.push(digit_of(a % 4 * 16 + b / 16));
            if n - i == 2 {
                out.push(digit_of(b % 16 * 4));
                out.push('=');
            } else {
                let c: u8 = bytes[i + 2];
                out.push(digit_of(b % 16 * 4 + c / 64));
                out.push(digit_of(c % 64));
            }
        }
        assert(out@ =~= before + group(rest));
        if n - i > 3 {
            i += 3;
            assert(rest.skip(3) =~= bytes@.skip(i as int));
        } else {
            i = n;
            assert(bytes@.skip(n as int) =~= Seq::empty());
        }
        assert(out@ + encoded(bytes@.skip(i as int)) =~= before + encoded(rest));
    }
    assert(bytes@.skip(n as int) =~= Seq::empty());
    assert(out@ =~= head + encoded(bytes@));
    out.push_str("\u{7}");
    out
}

proof fn lemma_group(a: Seq<u8>, b: Seq<u8>)
    requires
        a.len() > 0,
        b.len() > 0,
        group(a) == group(b),
    ensures
        a.len() <= 3 && b.len() <= 3 ==> a == b,
        a.len() > 3 && b.len() > 3 ==> a.take(3) == b.take(3),
        a.len() < 3 ==> b.len() == a.len(),
        b.len() < 3 ==> b.len() == a.len(),
{
    let x = group(a);
    let y = group(b);
    assert(x[0] == y[0] && x[1] == y[1] && x[2] == y[2] && x[3] == y[3]);
    if a.len() <= 3 && b.len() <= 3 {
        assert(a =~= b);
    }
    if a.len() > 3 && b.len() > 3 {
        assert(a.take(3) =~= b.take(3));
    }
}

/// Nothing is lost on the way to the clipboard: no two texts are written
/// alike.
pub proof fn law_encoding_loses_nothing(a: Seq<u8>, b: Seq<u8>)
    requires
        encoded(a) == encoded(b),
    ensures
        a == b,
    decreases a.len(),
{
    assert(a.len() > 0 ==> encoded(a).len() >= group(a).len());
    assert(b.len() > 0 ==> encoded(b).len() >= group(b).len());
    if a.len() == 0 || b.len() == 0 {
        assert(a.len() == 0 && b.len() == 0);
        assert(a =~= b);
    } else {
        assert(encoded(a).take(4) =~= group(a));
        assert(encoded(b).take(4) =~= group(b));
        lemma_group(a, b);
        assert(a.len() > 3 ==> encoded(a).skip(4) =~= encoded(a.skip(3)));
        assert(b.len() > 3 ==> encoded(b).skip(4) =~= encoded(b.skip(3)));
        assert(a.len() > 3 ==> encoded(a.skip(3)).len() >= 4);
        assert(b.len() > 3 ==> encoded(b.skip(3)).len() >= 4);
        if a.len() > 3 && b.len() > 3 {
            law_encoding_loses_nothing(a.skip(3), b.skip(3));
            assert(a =~= a.take(3) + a.skip(3));
            assert(b =~= b.take(3) + b.skip(3));
        }
    }
}

/// The number that a digit stands for: the capital letters come first, then
/// the small ones, the decimal digits, `+` and `/`.
pub open spec fn value(c: char) -> int {
    if 'A' <= c <= 'Z' {
        c as int - 'A' as int
    } else if 'a' <= c <= 'z' {
        c as int - 'a' as int + 26
    } else if '0' <= c <= '9' {
        c as int - '0' as int + 52
    } else if c == '+' {
        62
    } else {
        63
    }
}

proof fn lemma_value(n: int)
    requires
        0 <= n < 64,
    ensures
        value(digit(n)) == n,
        digit(n) != '=',
{
}

/// Three bytes and their four digits are the same number.
pub proof fn law_four_digits_hold_three_bytes(b: Seq<u8>, more: Seq<u8>)
    requires
        b.len() == 3,
    ensures
        ({
            let s = encoded(b + more);
            &&& s.len() >= 4
            &&& value(s[0]) * 262_144 + value(s[1]) * 4096 + value(s[2]) * 64 + value(s[3]) == b[0]
                * 65_536 + b[1] * 256 + b[2]
            &&& s.skip(4) == encoded(more)
        }),
{
    let all = b + more;
    assert(all[0] == b[0] && all[1] == b[1] && all[2] == b[2]);
    lemma_value((b[0] / 4) as int);
    lemma_value(b[0] % 4 * 16 + b[1] / 16);
    lemma_value(b[1] % 16 * 4 + b[2] / 64);
    lemma_value((b[2] % 64) as int);
    assert(all.skip(3) =~= more);
    assert(group(all) == group(b));
    if more.len() == 0 {
        assert(all =~= b);
        assert(encoded(all).skip(4) =~= Seq::empty());
        assert(encoded(more) =~= Seq::empty());
    } else {
        assert(encoded(all) =~= group(b) + encoded(more));
        assert(encoded(all).skip(4) =~= encoded(more));
    }
}

/// What is left of less than three bytes is filled up: one byte takes two
/// digits and two signs for what is missing, two bytes take three and one.
pub proof fn law_what_is_missing_is_marked(a: u8, b: u8)
    ensures
        ({
            let one = encoded(seq![a]);
            let two = encoded(seq![a, b]);
            &&& one.len() == 4 && one[2] == '=' && one[3] == '='
            &&& value(one[0]) * 64 + value(one[1]) == a * 16
            &&& two.len() == 4 && two[2] != '=' && two[3] == '='
            &&& value(two[0]) * 4096 + value(two[1]) * 64 + value(two[2]) == (a * 256 + b) * 4
            &&& encoded(Seq::empty()).len() == 0
        }),
{
    lemma_value((a / 4) as int);
    lemma_value(a % 4 * 16);
    lemma_value(a % 4 * 16 + b / 16);
    lemma_value(b % 16 * 4);
}

} // verus!
