//! Numbers and characters as text.

use crate::words::{lemma_words_skip, words_lt, Words};
use vstd::prelude::*;
use vstd::string::*;

verus! {

/// The character of a decimal digit.
pub open spec fn digit(d: int) -> char {
    ('0' as int + d) as char
}

/// A number in decimal, without leading zeros.
pub open spec fn digits(n: nat) -> Seq<char>
    decreases n,
{
    if n < 10 {
        seq![digit(n as int)]
    } else {
        digits(n / 10).push(digit((n % 10) as int))
    }
}

/// Append one digit.
fn push_digit(s: &mut String, d: u64)
    requires
        d < 10,
    ensures
        final(s)@ == old(s)@.push(digit(d as int)),
{
    proof {
        reveal_strlit("0");
        reveal_strlit("1");
        reveal_strlit("2");
        reveal_strlit("3");
        reveal_strlit("4");
        reveal_strlit("5");
        reveal_strlit("6");
        reveal_strlit("7");
        reveal_strlit("8");
        reveal_strlit("9");
    }
    let lit: &str = match d {
        0 => "0",
        1 => "1",
        2 => "2",
        3 => "3",
        4 => "4",
        5 => "5",
        6 => "6",
        7 => "7",
        8 => "8",
        _ => "9",
    };
    assert(lit@ =~= seq![digit(d as int)]);
    s.append(lit);
    assert(s@ =~= old(s)@.push(digit(d as int)));
}

/// Append a number in decimal.
pub fn push_number(s: &mut String, n: u64)
    ensures
        final(s)@ == old(s)@ + digits(n as nat),
    decreases n,
{
    if n < 10 {
        push_digit(s, n);
        assert(s@ =~= old(s)@ + digits(n as nat));
    } else {
        push_number(s, n / 10);
        push_digit(s, n % 10);
        assert(s@ =~= old(s)@ + digits(n as nat));
    }
}

/// A number in decimal.
pub fn number(n: u64) -> (s: String)
    ensures
        s@ == digits(n as nat),
{
    let mut s = String::new();
    push_number(&mut s, n);
    assert(s@ =~= digits(n as nat));
    s
}

/// A number in decimal, with zeros in front up to a width.
pub open spec fn padded(n: nat, width: nat) -> Seq<char>
    decreases width,
{
    if digits(n).len() >= width || width == 0 {
        digits(n)
    } else {
        seq!['0'] + padded(n, (width - 1) as nat)
    }
}

/// How many digits a number has, up to a limit.
fn digit_count(n: u64, limit: u64) -> (c: u64)
    ensures
        c == (if digits(n as nat).len() < limit {
            digits(n as nat).len() as int
        } else {
            limit as int
        }),
    decreases n,
{
    if limit == 0 {
        0
    } else if n < 10 {
        1
    } else {
        1 + digit_count(n / 10, limit - 1)
    }
}

/// Append a number in decimal, with zeros in front up to a width.
pub fn push_padded(s: &mut String, n: u64, width: u64)
    ensures
        final(s)@ == old(s)@ + padded(n as nat, width as nat),
{
    let c: u64 = digit_count(n, width);
    let mut w: u64 = width;
    while w > c
        invariant
            c == digits(n as nat).len() || c == width,
            c <= digits(n as nat).len(),
            c <= w,
            w <= width,
            s@ + padded(n as nat, w as nat) == old(s)@ + padded(n as nat, width as nat),
        decreases w,
    {
        let ghost s0 = s@;
        push_digit(s, 0);
        assert(s0 + padded(n as nat, w as nat) =~= s@ + padded(n as nat, (w - 1) as nat));
        w -= 1;
    }
    push_number(s, n);
}

/// The code points of a text.
pub open spec fn code_points(s: Seq<char>) -> Seq<u32> {
    Seq::new(s.len(), |i: int| s[i] as u32)
}

/// Whether one text sorts before another: at the first place they differ, with
/// a text sorting before its own extensions.
pub open spec fn sorts_before(a: Seq<char>, b: Seq<char>) -> bool {
    words_lt(code_points(a), code_points(b))
}

proof fn lemma_code_point(c: char)
    ensures
        c as u32 as int == c as int,
{
}

proof fn lemma_same_char(a: char, b: char)
    requires
        a as u32 == b as u32,
    ensures
        a == b,
{
    lemma_code_point(a);
    lemma_code_point(b);
}

/// Texts with the same code points are the same.
pub proof fn lemma_code_points(a: Seq<char>, b: Seq<char>)
    requires
        code_points(a) == code_points(b),
    ensures
        a == b,
{
    assert(a.len() == code_points(a).len() && b.len() == code_points(b).len());
    assert forall|i: int| 0 <= i < a.len() implies a[i] == b[i] by {
        assert(code_points(a)[i] == a[i] as u32 && code_points(b)[i] == b[i] as u32);
        lemma_same_char(a[i], b[i]);
    }
    assert(a =~= b);
}

/// Texts sort by the first place at which they differ.
pub proof fn lemma_sorts_at(a: Seq<char>, b: Seq<char>, i: int)
    requires
        0 <= i < a.len(),
        i < b.len(),
        forall|j: int| 0 <= j < i ==> a[j] == b[j],
        (a[i] as int) < (b[i] as int),
    ensures
        sorts_before(a, b),
{
    let p = code_points(a);
    let q = code_points(b);
    assert forall|j: int| 0 <= j < i implies p[j] == q[j] by {
        assert(a[j] == b[j]);
    }
    lemma_words_skip(p, q, i);
    lemma_code_point(a[i]);
    lemma_code_point(b[i]);
    assert(p.skip(i)[0] == p[i] && q.skip(i)[0] == q[i]);
}

/// The code points of a text.
pub fn text_words(s: &str) -> (w: Words)
    ensures
        w.0@ == code_points(s@),
{
    let n: usize = s.unicode_len();
    let mut v: Vec<u32> = Vec::new();
    let mut i: usize = 0;
    while i < n
        invariant
            i <= n,
            n == s@.len(),
            v@ == code_points(s@).take(i as int),
        decreases n - i,
    {
        v.push(s.get_char(i) as u32);
        i += 1;
        assert(v@ =~= code_points(s@).take(i as int));
    }
    assert(v@ =~= code_points(s@));
    Words(v)
}

/// A number of at most two digits, padded to two.
pub proof fn lemma_two_digits(n: nat)
    requires
        n < 100,
    ensures
        padded(n, 2) == seq![digit(n as int / 10), digit(n as int % 10)],
{
    reveal_with_fuel(digits, 3);
    reveal_with_fuel(padded, 3);
    assert(padded(n, 2) =~= seq![digit(n as int / 10), digit(n as int % 10)]);
}

/// A number of at most three digits, padded to three.
pub proof fn lemma_three_digits(n: nat)
    requires
        n < 1000,
    ensures
        padded(n, 3) == seq![
            digit(n as int / 100),
            digit(n as int / 10 % 10),
            digit(n as int % 10),
        ],
{
    reveal_with_fuel(digits, 4);
    reveal_with_fuel(padded, 4);
    assert(padded(n, 3) =~= seq![
        digit(n as int / 100),
        digit(n as int / 10 % 10),
        digit(n as int % 10),
    ]);
}

/// A number of at most four digits, padded to four.
pub proof fn lemma_four_digits(n: nat)
    requires
        n < 10000,
    ensures
        padded(n, 4) == seq![
            digit(n as int / 1000),
            digit(n as int / 100 % 10),
            digit(n as int / 10 % 10),
            digit(n as int % 10),
        ],
{
    reveal_with_fuel(digits, 5);
    reveal_with_fuel(padded, 5);
    assert(padded(n, 4) =~= seq![
        digit(n as int / 1000),
        digit(n as int / 100 % 10),
        digit(n as int / 10 % 10),
        digit(n as int % 10),
    ]);
}

/// The characters of a string.
pub fn characters(s: &str) -> (v: Vec<char>)
    ensures
        v@ == s@,
{
    let n: usize = s.unicode_len();
    let mut v: Vec<char> = Vec::new();
    let mut i: usize = 0;
    while i < n
        invariant
            i <= n,
            n == s@.len(),
            v@ == s@.take(i as int),
        decreases n - i,
    {
        v.push(s.get_char(i));
        i += 1;
        assert(v@ =~= s@.take(i as int));
    }
    assert(v@ =~= s@);
    v
}

/// Whether a list of characters spells a string.
pub fn spells(v: &Vec<char>, s: &str) -> (b: bool)
    ensures
        b == (v@ == s@),
{
    let w = characters(s);
    if v.len() != w.len() {
        return false;
    }
    let mut i: usize = 0;
    while i < v.len()
        invariant
            i <= v@.len(),
            v@.len() == w@.len(),
            w@ == s@,
            forall|j: int| 0 <= j < i ==> v@[j] == w@[j],
        decreases v@.len() - i,
    {
        if v[i] != w[i] {
            return false;
        }
        i += 1;
    }
    assert(v@ =~= w@);
    true
}

} // verus!
