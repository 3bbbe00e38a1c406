//! Taking texts apart: at a separator, into pieces, and into numbers.

use crate::text::{digit, digits};
use vstd::prelude::*;
use vstd::string::*;

verus! {

/// The first place from `i` on that holds a character, or the end.
pub open spec fn first_at(s: Seq<char>, c: char, i: int) -> int
    decreases s.len() - i,
{
    if i >= s.len() || i < 0 {
        s.len() as int
    } else if s[i] == c {
        i
    } else {
        first_at(s, c, i + 1)
    }
}

/// The last place before `i` that holds a character, or none.
pub open spec fn last_at(s: Seq<char>, c: char, i: int) -> int
    decreases i,
{
    if i <= 0 {
        -1
    } else if s[i - 1] == c {
        i - 1
    } else {
        last_at(s, c, i - 1)
    }
}

/// A text cut at the first of a character, if it holds one.
pub open spec fn cut(s: Seq<char>, c: char) -> Option<(Seq<char>, Seq<char>)> {
    let i = first_at(s, c, 0);
    if i < s.len() {
        Some((s.take(i), s.skip(i + 1)))
    } else {
        None
    }
}

/// A text cut at the last of a character, if it holds one.
pub open spec fn cut_last(s: Seq<char>, c: char) -> Option<(Seq<char>, Seq<char>)> {
    let i = last_at(s, c, s.len() as int);
    if i >= 0 {
        Some((s.take(i), s.skip(i + 1)))
    } else {
        None
    }
}

pub proof fn lemma_first_at(s: Seq<char>, c: char, i: int)
    requires
        0 <= i <= s.len(),
    ensures
        i <= first_at(s, c, i) <= s.len(),
        first_at(s, c, i) < s.len() ==> s[first_at(s, c, i)] == c,
        forall|j: int| i <= j < first_at(s, c, i) ==> s[j] != c,
    decreases s.len() - i,
{
    if i < s.len() && s[i] != c {
        lemma_first_at(s, c, i + 1);
    }
}

/// The pieces of a text between a separator, at least one.
pub open spec fn pieces(s: Seq<char>, c: char) -> Seq<Seq<char>>
    decreases s.len(),
{
    proof {
        lemma_first_at(s, c, 0);
    }
    let i = first_at(s, c, 0);
    if i < s.len() {
        seq![s.take(i)] + pieces(s.skip(i + 1), c)
    } else {
        seq![s]
    }
}

proof fn lemma_pieces(s: Seq<char>, c: char)
    ensures
        ({
            let i = first_at(s, c, 0);
            if i < s.len() {
                pieces(s, c) == seq![s.take(i)] + pieces(s.skip(i + 1), c)
            } else {
                pieces(s, c) == seq![s]
            }
        }),
{
    lemma_first_at(s, c, 0);
}

/// Part of a list of characters.
pub fn part(v: &Vec<char>, a: usize, b: usize) -> (w: Vec<char>)
    requires
        a <= b <= v@.len(),
    ensures
        w@ == v@.subrange(a as int, b as int),
{
    let mut w: Vec<char> = Vec::new();
    let mut i: usize = a;
    while i < b
        invariant
            a <= i <= b,
            b <= v@.len(),
            w@ == v@.subrange(a as int, i as int),
        decreases b - i,
    {
        w.push(v[i]);
        i += 1;
        assert(w@ =~= v@.subrange(a as int, i as int));
    }
    w
}

/// The first place from `i` on that holds a character, or the end.
pub fn find_from(v: &Vec<char>, c: char, i: usize) -> (j: usize)
    requires
        i <= v@.len(),
    ensures
        j == first_at(v@, c, i as int),
        i <= j <= v@.len(),
{
    let mut j: usize = i;
    while j < v.len() && v[j] != c
        invariant
            i <= j <= v@.len(),
            first_at(v@, c, i as int) == first_at(v@, c, j as int),
        decreases v@.len() - j,
    {
        j += 1;
    }
    j
}

/// Cut at the first of a character.
pub fn split_once(v: &Vec<char>, c: char) -> (r: Option<(Vec<char>, Vec<char>)>)
    ensures
        r is Some == cut(v@, c) is Some,
        r matches Some(x) ==> (x.0@, x.1@) == cut(v@, c)->Some_0,
{
    let i: usize = find_from(v, c, 0);
    if i < v.len() {
        let a = part(v, 0, i);
        let b = part(v, i + 1, v.len());
        assert(a@ =~= v@.take(i as int));
        assert(b@ =~= v@.skip(i + 1));
        Some((a, b))
    } else {
        None
    }
}

/// Cut at the last of a character.
pub fn rsplit_once(v: &Vec<char>, c: char) -> (r: Option<(Vec<char>, Vec<char>)>)
    ensures
        r is Some == cut_last(v@, c) is Some,
        r matches Some(x) ==> (x.0@, x.1@) == cut_last(v@, c)->Some_0,
{
    let mut i: usize = v.len();
    while i > 0
        invariant
            i <= v@.len(),
            last_at(v@, c, v@.len() as int) == last_at(v@, c, i as int),
        decreases i,
    {
        if v[i - 1] == c {
            let a = part(v, 0, i - 1);
            let b = part(v, i, v.len());
            assert(a@ =~= v@.take(i - 1));
            assert(b@ =~= v@.skip(i as int));
            return Some((a, b));
        }
        i -= 1;
    }
    None
}

/// The texts of a list of character lists.
pub open spec fn texts(v: Seq<Vec<char>>) -> Seq<Seq<char>> {
    Seq::new(v.len(), |i: int| v[i]@)
}

/// The pieces of a text between a separator.
pub fn split(v: &Vec<char>, c: char) -> (out: Vec<Vec<char>>)
    ensures
        texts(out@) == pieces(v@, c),
        out@.len() >= 1,
{
    let n: usize = v.len();
    let mut out: Vec<Vec<char>> = Vec::new();
    let mut at: usize = 0;
    assert(v@.skip(0) =~= v@);
    assert(texts(out@) + pieces(v@, c) =~= pieces(v@, c));
    loop
        invariant
            at <= n,
            n == v@.len(),
            texts(out@) + pieces(v@.skip(at as int), c) == pieces(v@, c),
        decreases n - at + 1,
    {
        let i: usize = find_from(v, c, at);
        let ghost rest = v@.skip(at as int);
        proof {
            lemma_first_skip(v@, c, at as int);
            lemma_first_at(rest, c, 0);
            lemma_pieces(rest, c);
        }
        let piece = part(v, at, i);
        assert(piece@ =~= rest.take(i - at));
        let ghost o1 = texts(out@);
        out.push(piece);
        assert(texts(out@) =~= o1.push(piece@));
        if i >= n {
            assert(rest.take(i - at) =~= rest);
            assert(texts(out@) =~= o1 + pieces(rest, c));
            return out;
        }
        assert(rest.skip(i - at + 1) =~= v@.skip(i + 1));
        assert(pieces(rest, c) == seq![rest.take(i - at)] + pieces(rest.skip(i - at + 1), c));
        assert(texts(out@) + pieces(v@.skip(i + 1), c) =~= o1 + pieces(rest, c));
        at = i + 1;
    }
}

proof fn lemma_first_skip(s: Seq<char>, c: char, a: int)
    requires
        0 <= a <= s.len(),
    ensures
        first_at(s, c, a) == a + first_at(s.skip(a), c, 0),
{
    lemma_first_at(s, c, a);
    lemma_first_at(s.skip(a), c, 0);
    let i = first_at(s, c, a);
    let j = first_at(s.skip(a), c, 0);
    if i < a + j {
        assert(s.skip(a)[i - a] == s[i]);
    } else if a + j < i {
        assert(s.skip(a)[j] == s[a + j]);
    }
}

// ---- numbers -------------------------------------------------------------

/// Whether a character is a decimal digit.
pub open spec fn is_digit(c: char) -> bool {
    '0' <= c && c <= '9'
}

/// Whether a text is decimal digits throughout.
pub open spec fn all_digits(s: Seq<char>) -> bool {
    forall|i: int| 0 <= i < s.len() ==> is_digit(#[trigger] s[i])
}

/// The number decimal digits spell.
pub open spec fn spelled(s: Seq<char>) -> nat
    decreases s.len(),
{
    if s.len() == 0 {
        0
    } else {
        spelled(s.drop_last()) * 10 + (s.last() as nat - '0' as nat) as nat
    }
}

/// A text without a leading plus sign.
pub open spec fn unsigned(s: Seq<char>) -> Seq<char> {
    if s.len() > 0 && s[0] == '+' {
        s.skip(1)
    } else {
        s
    }
}

/// The number a text reads as: decimal digits, at least one, with a plus sign
/// in front allowed, and no larger than a limit.
pub open spec fn read_number(s: Seq<char>, limit: nat) -> Option<nat> {
    let d = unsigned(s);
    if d.len() > 0 && all_digits(d) && spelled(d) <= limit {
        Some(spelled(d))
    } else {
        None
    }
}

proof fn lemma_spelled_grows(s: Seq<char>, i: int)
    requires
        0 <= i <= s.len(),
    ensures
        spelled(s.take(i)) <= spelled(s),
    decreases s.len() - i,
{
    if i < s.len() {
        lemma_spelled_grows(s, i + 1);
        assert(s.take(i + 1).drop_last() =~= s.take(i));
    } else {
        assert(s.take(i) =~= s);
    }
}

proof fn lemma_spelled_digits(n: nat)
    ensures
        spelled(digits(n)) == n,
        digits(n).len() > 0,
        all_digits(digits(n)),
    decreases n,
{
    let d = digits(n);
    if n < 10 {
        assert(d.drop_last() =~= Seq::empty());
        assert(d.last() == digit(n as int));
        assert(spelled(Seq::<char>::empty()) == 0);
        lemma_digit(n as int);
    } else {
        lemma_spelled_digits(n / 10);
        assert(d.drop_last() =~= digits(n / 10));
        lemma_digit((n % 10) as int);
        assert forall|i: int| 0 <= i < d.len() implies is_digit(#[trigger] d[i]) by {
            if i < d.len() - 1 {
                assert(d[i] == digits(n / 10)[i]);
            }
        }
    }
}

proof fn lemma_digit(d: int)
    requires
        0 <= d < 10,
    ensures
        is_digit(digit(d)),
        (digit(d) as nat - '0' as nat) as nat == d,
{
}

/// A number written in decimal reads back as itself, if it is within the limit.
pub proof fn numbers_read_back(n: nat, limit: nat)
    requires
        n <= limit,
    ensures
        read_number(digits(n), limit) == Some(n),
        all_digits(digits(n)),
        digits(n).len() > 0,
        spelled(digits(n)) == n,
{
    lemma_spelled_digits(n);
    assert(is_digit(digits(n)[0]));
    assert(unsigned(digits(n)) == digits(n));
}

/// The number a text reads as, up to a limit.
pub fn parse_number(v: &Vec<char>, limit: u64) -> (n: Option<u64>)
    ensures
        n is Some == read_number(v@, limit as nat) is Some,
        n matches Some(x) ==> x == read_number(v@, limit as nat)->Some_0,
{
    let len: usize = v.len();
    let start: usize = if len > 0 && v[0] == '+' {
        1
    } else {
        0
    };
    let ghost d = unsigned(v@);
    assert(d =~= v@.skip(start as int));
    if start >= len {
        return None;
    }
    let mut n: u128 = 0;
    let mut i: usize = start;
    assert(d.take(0) =~= Seq::empty());
    while i < len
        invariant
            start <= i <= len,
            len == v@.len(),
            d == v@.skip(start as int),
            d == unsigned(v@),
            d.len() == len - start,
            d.len() > 0,
            forall|j: int| 0 <= j < i - start ==> is_digit(#[trigger] d[j]),
            n == spelled(d.take(i - start)),
            n <= limit,
        decreases len - i,
    {
        let c: char = v[i];
        assert(d[i - start] == c);
        if !('0' <= c && c <= '9') {
            assert(!is_digit(d[i - start]));
            return None;
        }
        let k: u32 = c as u32 - '0' as u32;
        assert(d.take(i - start + 1).drop_last() =~= d.take(i - start));
        n = n * 10 + k as u128;
        if n > limit as u128 {
            proof {
                lemma_spelled_grows(d, i - start + 1);
            }
            return None;
        }
        i += 1;
    }
    assert(d.take(d.len() as int) =~= d);
    Some(n as u64)
}

// ---- beginnings and ends -------------------------------------------------

/// Whether a text begins with another.
pub open spec fn begins(s: Seq<char>, t: Seq<char>) -> bool {
    s.len() >= t.len() && s.take(t.len() as int) == t
}

/// Whether a text ends with another.
pub open spec fn ends(s: Seq<char>, t: Seq<char>) -> bool {
    s.len() >= t.len() && s.skip(s.len() - t.len()) == t
}

/// Whether a text begins with another.
pub fn starts_with(v: &Vec<char>, t: &str) -> (b: bool)
    ensures
        b == begins(v@, t@),
{
    let m: usize = t.unicode_len();
    if v.len() < m {
        return false;
    }
    let head = part(v, 0, m);
    assert(head@ =~= v@.take(m as int));
    crate::text::spells(&head, t)
}

/// Whether a text ends with another.
pub fn ends_with(v: &Vec<char>, t: &str) -> (b: bool)
    ensures
        b == ends(v@, t@),
{
    let m: usize = t.unicode_len();
    let n: usize = v.len();
    if n < m {
        return false;
    }
    let tail = part(v, n - m, n);
    assert(tail@ =~= v@.skip(n - m));
    crate::text::spells(&tail, t)
}

/// Whether a text holds a character.
pub fn holds(v: &Vec<char>, c: char) -> (b: bool)
    ensures
        b == v@.contains(c),
{
    let i: usize = find_from(v, c, 0);
    proof {
        lemma_first_at(v@, c, 0);
        if v@.contains(c) {
            let k = v@.index_of(c);
            assert(v@[k] == c);
        }
    }
    i < v.len()
}

/// `String::push`: the string with a character appended.
#[verifier::external_body]
fn push_char(s: &mut String, c: char)
    ensures
        final(s)@ == old(s)@.push(c),
{
    s.push(c);
}

/// A list of characters as a string.
pub fn to_text(v: &Vec<char>) -> (s: String)
    ensures
        s@ == v@,
{
    let mut s = String::new();
    let mut i: usize = 0;
    assert(s@ =~= v@.take(0));
    while i < v.len()
        invariant
            i <= v@.len(),
            s@ == v@.take(i as int),
        decreases v@.len() - i,
    {
        push_char(&mut s, v[i]);
        i += 1;
        assert(s@ =~= v@.take(i as int));
    }
    assert(v@.take(v@.len() as int) =~= v@);
    s
}

} // verus!
