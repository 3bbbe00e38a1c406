//! What a run prints: counts, durations, and what is wrong with its options.

use crate::fields::{begins, part, starts_with};
use crate::text::{
    characters, digit, digits, lemma_three_digits, number, padded, push_number, push_padded,
};
use vstd::prelude::*;
use vstd::string::*;

verus! {

/// A number in decimal with its digits grouped in threes.
pub open spec fn grouped(n: nat) -> Seq<char>
    decreases n,
{
    if n < 1000 {
        digits(n)
    } else {
        grouped(n / 1000).push(',') + padded(n % 1000, 3)
    }
}

fn push_grouped(s: &mut String, n: u64)
    ensures
        final(s)@ == old(s)@ + grouped(n as nat),
    decreases n,
{
    if n < 1000 {
        push_number(s, n);
    } else {
        proof {
            reveal_strlit(",");
        }
        push_grouped(s, n / 1000);
        s.append(",");
        push_padded(s, n % 1000, 3);
        assert(s@ =~= old(s)@ + grouped(n as nat));
    }
}

/// A number with its digits grouped in threes.
pub fn thousands(n: u64) -> (s: String)
    ensures
        s@ == grouped(n as nat),
{
    let mut s = String::new();
    push_grouped(&mut s, n);
    assert(s@ =~= grouped(n as nat));
    s
}

/// A text with its commas left out.
pub open spec fn ungrouped(s: Seq<char>) -> Seq<char>
    decreases s.len(),
{
    if s.len() == 0 {
        Seq::empty()
    } else if s.last() == ',' {
        ungrouped(s.drop_last())
    } else {
        ungrouped(s.drop_last()).push(s.last())
    }
}

proof fn lemma_ungrouped_add(a: Seq<char>, b: Seq<char>)
    ensures
        ungrouped(a + b) == ungrouped(a) + ungrouped(b),
    decreases b.len(),
{
    if b.len() == 0 {
        assert(a + b =~= a);
        assert(ungrouped(a) + ungrouped(b) =~= ungrouped(a));
    } else {
        lemma_ungrouped_add(a, b.drop_last());
        assert((a + b).drop_last() =~= a + b.drop_last());
        assert((a + b).last() == b.last());
        assert(ungrouped(a + b) =~= ungrouped(a) + ungrouped(b));
    }
}

proof fn lemma_no_commas(n: nat)
    ensures
        ungrouped(digits(n)) == digits(n),
    decreases n,
{
    let d = digits(n);
    assert(digit((n % 10) as int) != ',');
    if n < 10 {
        assert(d.drop_last() =~= Seq::<char>::empty());
        assert(ungrouped(Seq::<char>::empty()) =~= Seq::<char>::empty());
        assert(n % 10 == n);
        assert(ungrouped(d) =~= d);
    } else {
        lemma_no_commas(n / 10);
        assert(d.drop_last() =~= digits(n / 10));
        assert(ungrouped(d) =~= d);
    }
}

proof fn lemma_last_three(n: nat)
    requires
        n >= 1000,
    ensures
        digits(n) == digits(n / 1000) + padded(n % 1000, 3),
        ungrouped(padded(n % 1000, 3)) == padded(n % 1000, 3),
{
    let m = n % 1000;
    lemma_three_digits(m);
    let t = padded(m, 3);
    let a = digit(m as int / 100);
    let b = digit(m as int / 10 % 10);
    let c = digit(m as int % 10);
    assert(t =~= seq![a, b, c]);
    assert(n / 10 / 10 == n / 100 && n / 100 / 10 == n / 1000);
    assert(n / 10 % 10 == m / 10 % 10);
    assert(n / 100 % 10 == m / 100);
    assert(digits(n) == digits(n / 10).push(c));
    assert(digits(n / 10) == digits(n / 100).push(b));
    assert(digits(n / 100) == digits(n / 1000).push(a));
    assert(digits(n) =~= digits(n / 1000) + t);
    assert(a != ',' && b != ',' && c != ',');
    assert(t.drop_last() =~= seq![a, b]);
    assert(seq![a, b].drop_last() =~= seq![a]);
    assert(seq![a].drop_last() =~= Seq::<char>::empty());
    reveal_with_fuel(ungrouped, 4);
    assert(ungrouped(t) =~= t);
}

/// Grouping adds commas and changes nothing else.
pub proof fn grouping_keeps_the_digits(n: nat)
    ensures
        ungrouped(grouped(n)) == digits(n),
    decreases n,
{
    if n < 1000 {
        lemma_no_commas(n);
    } else {
        grouping_keeps_the_digits(n / 1000);
        lemma_last_three(n);
        let g = grouped(n / 1000);
        lemma_ungrouped_add(g.push(','), padded(n % 1000, 3));
        assert(g.push(',').drop_last() =~= g);
    }
}

// ---- durations -----------------------------------------------------------

/// A duration, at the shortest that is honest: `1h 04m 12s`, `04m 12s` or `12s`.
pub open spec fn clock(s: nat) -> Seq<char> {
    let h = s / 3600;
    let m = s % 3600 / 60;
    let sec = s % 60;
    if h > 0 {
        digits(h) + "h "@ + padded(m, 2) + "m "@ + padded(sec, 2) + "s"@
    } else if m > 0 {
        padded(m, 2) + "m "@ + padded(sec, 2) + "s"@
    } else {
        digits(sec) + "s"@
    }
}

/// A duration in whole seconds, at the shortest that is honest: `1h 04m 12s`,
/// `04m 12s` or `12s`.
pub fn hms(secs: u64) -> (s: String)
    ensures
        s@ == clock(secs as nat),
{
    let h: u64 = secs / 3600;
    let m: u64 = secs % 3600 / 60;
    let sec: u64 = secs % 60;
    let mut s = String::new();
    if h > 0 {
        push_number(&mut s, h);
        s.append("h ");
        push_padded(&mut s, m, 2);
        s.append("m ");
        push_padded(&mut s, sec, 2);
        s.append("s");
    } else if m > 0 {
        push_padded(&mut s, m, 2);
        s.append("m ");
        push_padded(&mut s, sec, 2);
        s.append("s");
    } else {
        push_number(&mut s, sec);
        s.append("s");
    }
    assert(s@ =~= clock(secs as nat));
    s
}

// ---- options -------------------------------------------------------------

/// A text without its leading dashes.
pub open spec fn undashed(s: Seq<char>) -> Seq<char>
    decreases s.len(),
{
    if s.len() > 0 && s[0] == '-' {
        undashed(s.skip(1))
    } else {
        s
    }
}

fn without_dashes(v: &Vec<char>) -> (w: Vec<char>)
    ensures
        w@ == undashed(v@),
{
    let mut i: usize = 0;
    assert(v@.skip(0) =~= v@);
    while i < v.len() && v[i] == '-'
        invariant
            i <= v@.len(),
            undashed(v@.skip(i as int)) == undashed(v@),
        decreases v@.len() - i,
    {
        assert(v@.skip(i as int).skip(1) =~= v@.skip(i + 1));
        i += 1;
    }
    let w = part(v, i, v.len());
    assert(w@ =~= v@.skip(i as int));
    w
}

/// The texts of a list of strings.
pub open spec fn words(v: Seq<String>) -> Seq<Seq<char>> {
    Seq::new(v.len(), |i: int| v[i]@)
}

/// Whether an argument is an option that is not known.
pub open spec fn unknown(a: Seq<char>, known: Seq<Seq<char>>) -> bool {
    begins(a, "--"@) && !known.contains(a)
}

/// Whether one of two options begins with the other, dashes aside.
pub open spec fn close(a: Seq<char>, k: Seq<char>) -> bool {
    begins(undashed(k), undashed(a)) || begins(undashed(a), undashed(k))
}

/// The first `n` known options close to an argument, with a word between them.
pub open spec fn suggestions(a: Seq<char>, known: Seq<Seq<char>>, n: int) -> Seq<char>
    decreases n,
{
    if n <= 0 {
        Seq::empty()
    } else {
        let rest = suggestions(a, known, n - 1);
        if !close(a, known[n - 1]) {
            rest
        } else if exists|i: int| 0 <= i < n - 1 && close(a, #[trigger] known[i]) {
            rest + " or "@ + known[n - 1]
        } else {
            known[n - 1]
        }
    }
}

/// What is said of an option that is not known.
pub open spec fn complaint(a: Seq<char>, known: Seq<Seq<char>>) -> Seq<char> {
    if exists|i: int| 0 <= i < known.len() && close(a, #[trigger] known[i]) {
        "unknown option "@ + a + "; did you mean "@ + suggestions(a, known, known.len() as int)
            + "?"@
    } else {
        "unknown option "@ + a + "; --help lists them"@
    }
}

fn is_close(a: &Vec<char>, k: &Vec<char>) -> (b: bool)
    ensures
        b == close(a@, k@),
{
    let x = without_dashes(a);
    let y = without_dashes(k);
    prefixes(&y, &x) || prefixes(&x, &y)
}

fn prefixes(s: &Vec<char>, t: &Vec<char>) -> (b: bool)
    ensures
        b == begins(s@, t@),
{
    if s.len() < t.len() {
        return false;
    }
    let mut i: usize = 0;
    while i < t.len()
        invariant
            i <= t@.len(),
            t@.len() <= s@.len(),
            forall|j: int| 0 <= j < i ==> s@[j] == t@[j],
        decreases t@.len() - i,
    {
        if s[i] != t[i] {
            assert(s@.take(t@.len() as int)[i as int] != t@[i as int]);
            return false;
        }
        i += 1;
    }
    assert(s@.take(t@.len() as int) =~= t@);
    true
}

fn complain(a: &String, known: &Vec<String>) -> (s: String)
    ensures
        s@ == complaint(a@, words(known@)),
{
    let arg = characters(a.as_str());
    let ghost ks = words(known@);
    let mut near = String::new();
    let mut any = false;
    let mut i: usize = 0;
    assert(near@ =~= suggestions(a@, ks, 0));
    while i < known.len()
        invariant
            i <= known@.len(),
            arg@ == a@,
            ks == words(known@),
            near@ == suggestions(a@, ks, i as int),
            any == exists|j: int| 0 <= j < i && close(a@, #[trigger] ks[j]),
        decreases known@.len() - i,
    {
        let k = characters(known[i].as_str());
        assert(ks[i as int] == known@[i as int]@);
        if is_close(&arg, &k) {
            let ghost n0 = near@;
            if any {
                near.append(" or ");
                near.append(known[i].as_str());
            } else {
                near = known[i].clone();
            }
            assert(near@ == suggestions(a@, ks, i + 1));
            any = true;
            assert(close(a@, ks[i as int]));
        } else {
            proof {
                if exists|j: int| 0 <= j < i + 1 && close(a@, #[trigger] ks[j]) {
                    let j = choose|j: int| 0 <= j < i + 1 && close(a@, #[trigger] ks[j]);
                    assert(j < i);
                }
            }
        }
        i += 1;
    }
    let mut s = String::new();
    s.append("unknown option ");
    s.append(a.as_str());
    if any {
        s.append("; did you mean ");
        s.append(near.as_str());
        s.append("?");
    } else {
        s.append("; --help lists them");
    }
    assert(s@ =~= complaint(a@, ks));
    s
}

/// Refuse the first option that is not known, and say which known ones are
/// close to it.
pub fn reject_unknown_flags(args: &Vec<String>, known: &Vec<String>) -> (r: Result<(), String>)
    ensures
        r is Ok <==> forall|i: int|
            0 <= i < args@.len() ==> !unknown(#[trigger] args@[i]@, words(known@)),
        r matches Err(s) ==> exists|i: int|
            0 <= i < args@.len() && unknown(#[trigger] args@[i]@, words(known@)) && (forall|j: int|
                0 <= j < i ==> !unknown(#[trigger] args@[j]@, words(known@))) && s@ == complaint(
                args@[i]@,
                words(known@),
            ),
{
    let ghost ks = words(known@);
    let mut i: usize = 0;
    while i < args.len()
        invariant
            i <= args@.len(),
            ks == words(known@),
            forall|j: int| 0 <= j < i ==> !unknown(#[trigger] args@[j]@, ks),
        decreases args@.len() - i,
    {
        let a = characters(args[i].as_str());
        if starts_with(&a, "--") {
            let mut found = false;
            let mut k: usize = 0;
            while k < known.len()
                invariant
                    k <= known@.len(),
                    i < args@.len(),
                    ks == words(known@),
                    found == exists|j: int| 0 <= j < k && #[trigger] ks[j] == args@[i as int]@,
                decreases known@.len() - k,
            {
                assert(ks[k as int] == known@[k as int]@);
                if known[k] == args[i] {
                    found = true;
                    assert(ks[k as int] == args@[i as int]@);
                }
                k += 1;
            }
            if !found {
                assert(!ks.contains(args@[i as int]@));
                assert(unknown(args@[i as int]@, ks));
                return Err(complain(&args[i], known));
            }
            assert(ks.contains(args@[i as int]@));
        }
        i += 1;
    }
    Ok(())
}

// ---- batch sizes ---------------------------------------------------------

/// So many of a character.
pub open spec fn repeated(c: char, n: int) -> Seq<char> {
    Seq::new(
        (if n < 0 {
            0
        } else {
            n
        }) as nat,
        |i: int| c,
    )
}

/// A number set to the right of a width.
pub open spec fn set_right(n: nat, width: int) -> Seq<char> {
    repeated(' ', width - digits(n).len()) + digits(n)
}

/// A number set to the left of a width.
pub open spec fn set_left(n: nat, width: int) -> Seq<char> {
    digits(n) + repeated(' ', width - digits(n).len())
}

/// The sum of the first counts.
pub open spec fn sum_of(hist: Seq<u64>, k: int) -> nat
    decreases k,
{
    if k <= 0 {
        0
    } else {
        sum_of(hist, k - 1) + hist[k - 1] as nat
    }
}

/// The smallest size of a bucket.
pub open spec fn low_size(k: int) -> nat
    decreases k,
{
    if k <= 0 {
        1
    } else {
        2 * low_size(k - 1)
    }
}

/// The largest size of a bucket: one less than the smallest of the next, and for
/// the last one the largest batch there was, if that is larger.
pub open spec fn high_size(k: int, max_batch: usize) -> nat {
    if k == 11 {
        if max_batch < low_size(k) {
            low_size(k)
        } else {
            max_batch as nat
        }
    } else {
        (2 * low_size(k) - 1) as nat
    }
}

/// How long a bucket's bar is: its share of forty marks, to the nearest, halves
/// up.
pub open spec fn bar_length(c: nat, total: nat) -> int {
    (80 * c + total) as int / (2 * total) as int
}

/// The line of a bucket.
pub open spec fn bucket_line(k: int, c: u64, total: nat, max_batch: usize) -> Seq<char> {
    "  "@ + set_right(low_size(k), 5) + "-"@ + set_left(high_size(k, max_batch), 5) + " "@ + set_right(
        c as nat,
        9,
    ) + "  "@ + repeated('#', bar_length(c as nat, total)) + "\n"@
}

/// The lines of the first buckets, those that hold something.
pub open spec fn bucket_lines(hist: Seq<u64>, k: int, total: nat, max_batch: usize) -> Seq<char>
    decreases k,
{
    if k <= 0 {
        Seq::empty()
    } else {
        bucket_lines(hist, k - 1, total, max_batch) + if hist[k - 1] == 0 {
            Seq::empty()
        } else {
            bucket_line(k - 1, hist[k - 1], total, max_batch)
        }
    }
}

/// The sizes of batches as a histogram.
pub open spec fn histogram_text(hist: Seq<u64>, max_batch: usize) -> Seq<char> {
    if sum_of(hist, 12) == 0 {
        "  (no batches)"@
    } else {
        bucket_lines(hist, 12, sum_of(hist, 12), max_batch)
    }
}

fn push_repeated(s: &mut String, mark: &str, c: Ghost<char>, n: u64)
    requires
        mark@ == seq![c@],
    ensures
        final(s)@ == old(s)@ + repeated(c@, n as int),
{
    let ghost was = s@;
    let mut i: u64 = 0;
    assert(s@ =~= was + repeated(c@, 0));
    while i < n
        invariant
            i <= n,
            mark@ == seq![c@],
            s@ == was + repeated(c@, i as int),
        decreases n - i,
    {
        s.append(mark);
        i += 1;
        assert(s@ =~= was + repeated(c@, i as int));
    }
}

fn push_right(s: &mut String, n: u64, width: u64)
    ensures
        final(s)@ == old(s)@ + set_right(n as nat, width as int),
{
    let ghost was = s@;
    let t = number(n);
    let len: u64 = t.as_str().unicode_len() as u64;
    proof {
        reveal_strlit(" ");
        assert(" "@ =~= seq![' ']);
    }
    if len < width {
        push_repeated(s, " ", Ghost(' '), width - len);
    } else {
        assert(s@ =~= was + repeated(' ', width - len));
    }
    s.append(t.as_str());
    assert(s@ =~= was + set_right(n as nat, width as int));
}

fn push_left(s: &mut String, n: u64, width: u64)
    ensures
        final(s)@ == old(s)@ + set_left(n as nat, width as int),
{
    let ghost was = s@;
    let t = number(n);
    let len: u64 = t.as_str().unicode_len() as u64;
    proof {
        reveal_strlit(" ");
        assert(" "@ =~= seq![' ']);
    }
    s.append(t.as_str());
    let ghost mid = s@;
    if len < width {
        push_repeated(s, " ", Ghost(' '), width - len);
    } else {
        assert(s@ =~= mid + repeated(' ', width - len));
    }
    assert(s@ =~= was + set_left(n as nat, width as int));
}

proof fn lemma_sum_grows(hist: Seq<u64>, j: int, k: int)
    requires
        0 <= j <= k,
    ensures
        sum_of(hist, j) <= sum_of(hist, k),
    decreases k - j,
{
    if j < k {
        lemma_sum_grows(hist, j, k - 1);
    }
}

proof fn lemma_low(k: int)
    requires
        0 <= k <= 12,
    ensures
        1 <= low_size(k) <= 4096,
{
    reveal_with_fuel(low_size, 14);
}

fn bar_of(c: u64, total: u64) -> (n: u64)
    requires
        0 < total,
        c <= total,
    ensures
        n == bar_length(c as nat, total as nat),
{
    proof {
        let (n, d) = (80 * c + total, 2 * total as int);
        assert(n <= 41 * d) by (nonlinear_arith)
            requires
                n == 80 * c + total,
                d == 2 * total,
                c <= total,
        ;
        assert(n / d <= 41) by (nonlinear_arith)
            requires
                0 <= n <= 41 * d,
                d > 0,
        ;
    }
    ((80 * (c as u128) + total as u128) / (2 * (total as u128))) as u64
}

fn push_bucket(s: &mut String, k: usize, lo: u64, c: u64, total: u64, max_batch: usize)
    requires
        k < 12,
        lo == low_size(k as int),
        0 < total,
        c <= total,
    ensures
        final(s)@ == old(s)@ + bucket_line(k as int, c, total as nat, max_batch),
{
    proof {
        lemma_low(k as int);
        reveal_strlit("#");
        assert("#"@ =~= seq!['#']);
    }
    let hi: u64 = if k == 11 {
        if (max_batch as u64) < lo {
            lo
        } else {
            max_batch as u64
        }
    } else {
        2 * lo - 1
    };
    let bar: u64 = bar_of(c, total);
    let ghost s0 = s@;
    s.append("  ");
    push_right(s, lo, 5);
    s.append("-");
    push_left(s, hi, 5);
    s.append(" ");
    push_right(s, c, 9);
    s.append("  ");
    push_repeated(s, "#", Ghost('#'), bar);
    s.append("\n");
    assert(s@ =~= s0 + bucket_line(k as int, c, total as nat, max_batch));
}

/// The sizes of batches as a histogram, in buckets that double.
pub fn histogram(hist: &[u64; 12], max_batch: usize) -> (s: String)
    requires
        sum_of(hist@, 12) <= u64::MAX,
    ensures
        s@ == histogram_text(hist@, max_batch),
{
    let mut total: u64 = 0;
    let mut i: usize = 0;
    while i < 12
        invariant
            i <= 12,
            sum_of(hist@, 12) <= u64::MAX,
            total == sum_of(hist@, i as int),
        decreases 12 - i,
    {
        proof {
            lemma_sum_grows(hist@, i + 1, 12);
        }
        total = total + hist[i];
        i += 1;
    }
    let mut s = String::new();
    if total == 0 {
        s.append("  (no batches)");
        assert(s@ =~= "  (no batches)"@);
        return s;
    }
    let mut lo: u64 = 1;
    let mut k: usize = 0;
    assert(s@ =~= bucket_lines(hist@, 0, total as nat, max_batch));
    while k < 12
        invariant
            k <= 12,
            0 < total,
            total == sum_of(hist@, 12),
            lo == low_size(k as int),
            s@ == bucket_lines(hist@, k as int, total as nat, max_batch),
        decreases 12 - k,
    {
        let c: u64 = hist[k];
        let ghost s0 = s@;
        if c != 0 {
            proof {
                lemma_sum_grows(hist@, k + 1, 12);
            }
            push_bucket(&mut s, k, lo, c, total, max_batch);
        }
        proof {
            lemma_low(k as int);
        }
        lo = 2 * lo;
        k += 1;
        assert(s@ =~= s0 + if c == 0 {
            Seq::empty()
        } else {
            bucket_line(k - 1, c, total as nat, max_batch)
        });
    }
    s
}

// ---- searches ------------------------------------------------------------

/// How deep a search looked, and at how many of its root moves.
pub open spec fn depth_text(depth: u8, deepened: nat, beam: nat) -> Seq<char> {
    if deepened < beam {
        "depth "@ + digits(depth as nat) + " on "@ + digits(deepened) + "/"@ + digits(beam) + ", else "@
            + digits((depth - 1) as nat)
    } else {
        "depth "@ + digits(depth as nat) + " on top "@ + digits(beam)
    }
}

/// What a search did, in words.
pub open spec fn search_text(
    depth: u8,
    deepened: nat,
    beam: nat,
    moves: nat,
    restated: nat,
    nodes: nat,
    cutoffs: nat,
    ms: nat,
) -> Seq<char> {
    depth_text(depth, deepened, beam) + " of all "@ + digits(moves) + " root moves"@ + (if restated > 0 {
        " ("@ + digits(restated) + " restatements)"@
    } else {
        Seq::empty()
    }) + " · "@ + digits(nodes) + " nodes, "@ + digits(cutoffs) + " cutoffs · "@ + digits(ms) + " ms"@
}

/// What a search did, in words: how deep it looked at how many of its root moves,
/// how many of those only restate another, and what it took.
pub fn search_note(
    depth: u8,
    deepened: usize,
    beam: usize,
    moves: usize,
    restated: usize,
    nodes: u64,
    cutoffs: u64,
    ms: u64,
) -> (s: String)
    requires
        depth > 0,
    ensures
        s@ == search_text(
            depth,
            deepened as nat,
            beam as nat,
            moves as nat,
            restated as nat,
            nodes as nat,
            cutoffs as nat,
            ms as nat,
        ),
{
    let mut s = String::new();
    s.append("depth ");
    push_number(&mut s, depth as u64);
    if deepened < beam {
        s.append(" on ");
        push_number(&mut s, deepened as u64);
        s.append("/");
        push_number(&mut s, beam as u64);
        s.append(", else ");
        push_number(&mut s, (depth - 1) as u64);
    } else {
        s.append(" on top ");
        push_number(&mut s, beam as u64);
    }
    assert(s@ =~= depth_text(depth, deepened as nat, beam as nat));
    let ghost head = s@;
    s.append(" of all ");
    push_number(&mut s, moves as u64);
    s.append(" root moves");
    let ghost mid = s@;
    if restated > 0 {
        s.append(" (");
        push_number(&mut s, restated as u64);
        s.append(" restatements)");
        assert(s@ =~= mid + (" ("@ + digits(restated as nat) + " restatements)"@));
    } else {
        assert(s@ =~= mid + Seq::empty());
    }
    s.append(" · ");
    push_number(&mut s, nodes);
    s.append(" nodes, ");
    push_number(&mut s, cutoffs);
    s.append(" cutoffs · ");
    push_number(&mut s, ms);
    s.append(" ms");
    assert(s@ =~= search_text(
        depth,
        deepened as nat,
        beam as nat,
        moves as nat,
        restated as nat,
        nodes as nat,
        cutoffs as nat,
        ms as nat,
    ));
    s
}

} // verus!
