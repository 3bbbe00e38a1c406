//! What reports print, and what is kept of a search for training, stated apart
//! from how either is put together.

use crate::agents::{
    all_placed, best_pairs, kept, pair_at, pair_counts, pair_picks_fit, places_by, visited_pairs,
    visits_total, Visited,
};
use crate::book::Rulebook;
use crate::effect::{after_all, Effect};
use crate::ids::PlayerId;
use crate::queue::{bucket_of, halvings};
use crate::report::{
    bar_length, bucket_line, clock, close, complaint, depth_text, grouped, high_size, low_size,
    repeated, search_text, set_left, set_right, suggestions, undashed,
};
use crate::search::best_first;
use crate::state::GameState;
use crate::text::{digits, lemma_three_digits, padded};
use vstd::prelude::*;

verus! {

// ---- numbers in a report -------------------------------------------------

/// So many hours, minutes and seconds are printed as that many of each, the
/// hours only where there are some, the minutes where there are some or hours
/// come before them.
pub proof fn clocks_show_hours_minutes_and_seconds(h: nat, m: nat, sec: nat)
    requires
        m < 60,
        sec < 60,
    ensures
        h > 0 ==> clock(3600 * h + 60 * m + sec) == digits(h) + "h "@ + padded(m, 2) + "m "@ + padded(
            sec,
            2,
        ) + "s"@,
        h == 0 && m > 0 ==> clock(60 * m + sec) == padded(m, 2) + "m "@ + padded(sec, 2) + "s"@,
        h == 0 && m == 0 ==> clock(sec) == digits(sec) + "s"@,
{
    let s = 3600 * h + 60 * m + sec;
    assert(s / 3600 == h);
    assert(s % 3600 / 60 == m);
    assert(s % 60 == sec);
}

proof fn lemma_grouped_short(n: nat)
    requires
        n < 1000,
    ensures
        1 <= digits(n).len() <= 3,
        forall|i: int| 0 <= i < digits(n).len() ==> #[trigger] digits(n)[i] != ',',
{
    reveal_with_fuel(digits, 4);
}

/// The commas of a grouped number stand before every three digits from the
/// right, and nowhere else; it begins and ends with a digit.
pub proof fn commas_stand_before_every_three_digits(n: nat, i: int)
    requires
        0 <= i < grouped(n).len(),
    ensures
        grouped(n)[i] == ',' <==> (grouped(n).len() - i) % 4 == 0,
        grouped(n).len() % 4 != 0,
    decreases n,
{
    if n < 1000 {
        lemma_grouped_short(n);
    } else {
        let g = grouped(n / 1000);
        let t = padded(n % 1000, 3);
        lemma_three_digits(n % 1000);
        assert(t.len() == 3);
        assert(grouped(n) == g.push(',') + t);
        assert(grouped(n).len() == g.len() + 4);
        if g.len() > 0 {
            commas_stand_before_every_three_digits(n / 1000, 0);
        } else {
            lemma_grouped_some(n / 1000);
        }
        if i < g.len() {
            commas_stand_before_every_three_digits(n / 1000, i);
            assert(grouped(n)[i] == g[i]);
        } else if i == g.len() {
            assert(grouped(n)[i] == ',');
        } else {
            assert(grouped(n)[i] == t[i - g.len() - 1]);
        }
    }
}

proof fn lemma_grouped_some(n: nat)
    ensures
        grouped(n).len() > 0,
    decreases n,
{
    if n < 1000 {
        lemma_grouped_short(n);
    } else {
        lemma_grouped_some(n / 1000);
    }
}

/// Stripping a name takes off its dashes and nothing behind them.
pub proof fn only_leading_dashes_are_stripped(s: Seq<char>) -> (n: nat)
    ensures
        s == repeated('-', n as int) + undashed(s),
        undashed(s).len() > 0 ==> undashed(s)[0] != '-',
    decreases s.len(),
{
    if s.len() > 0 && s[0] == '-' {
        let m = only_leading_dashes_are_stripped(s.skip(1));
        let n = m + 1;
        assert(s =~= seq!['-'] + s.skip(1));
        assert(repeated('-', n as int) =~= seq!['-'] + repeated('-', m as int));
        assert(s =~= repeated('-', n as int) + undashed(s));
        n
    } else {
        assert(s =~= repeated('-', 0) + undashed(s));
        0
    }
}

/// A name is close to another where one goes on from the other, dashes aside.
pub proof fn close_names_go_on_from_one_another(a: Seq<char>, k: Seq<char>)
    ensures
        close(a, k) <==> (exists|tail: Seq<char>| undashed(k) == #[trigger] (undashed(a) + tail)) || (
        exists|tail: Seq<char>| undashed(a) == #[trigger] (undashed(k) + tail)),
        close(a, k) == close(k, a),
{
    let (x, y) = (undashed(a), undashed(k));
    if crate::fields::begins(y, x) {
        let tail = y.skip(x.len() as int);
        assert(y =~= x + tail);
    }
    if crate::fields::begins(x, y) {
        let tail = x.skip(y.len() as int);
        assert(x =~= y + tail);
    }
    if exists|tail: Seq<char>| y == #[trigger] (x + tail) {
        let tail = choose|tail: Seq<char>| y == #[trigger] (x + tail);
        assert(y.take(x.len() as int) =~= x);
    }
    if exists|tail: Seq<char>| x == #[trigger] (y + tail) {
        let tail = choose|tail: Seq<char>| x == #[trigger] (y + tail);
        assert(x.take(y.len() as int) =~= y);
    }
}

proof fn lemma_no_suggestion(a: Seq<char>, known: Seq<Seq<char>>, n: int)
    requires
        0 <= n <= known.len(),
        forall|i: int| 0 <= i < n ==> !close(a, #[trigger] known[i]),
    ensures
        suggestions(a, known, n) == Seq::<char>::empty(),
    decreases n,
{
    if n > 0 {
        lemma_no_suggestion(a, known, n - 1);
        assert(!close(a, known[n - 1]));
    }
}

proof fn lemma_one_suggestion(a: Seq<char>, known: Seq<Seq<char>>, k: int, n: int)
    requires
        0 <= k < n <= known.len(),
        close(a, known[k]),
        forall|i: int| 0 <= i < n && i != k ==> !close(a, #[trigger] known[i]),
    ensures
        suggestions(a, known, n) == known[k],
    decreases n,
{
    if k == n - 1 {
        lemma_no_suggestion(a, known, n - 1);
    } else {
        lemma_one_suggestion(a, known, k, n - 1);
        assert(!close(a, known[n - 1]));
    }
}

/// An unknown option that is close to no known one is referred to the help, and
/// one that is close to one alone is answered with it.
pub proof fn unknown_options_are_answered_with_what_is_close(
    a: Seq<char>,
    known: Seq<Seq<char>>,
    k: int,
)
    ensures
        (forall|i: int| 0 <= i < known.len() ==> !close(a, #[trigger] known[i])) ==> complaint(a, known)
            == "unknown option "@ + a + "; --help lists them"@,
        0 <= k < known.len() && close(a, known[k]) && (forall|i: int|
            0 <= i < known.len() && i != k ==> !close(a, #[trigger] known[i])) ==> complaint(a, known)
            == "unknown option "@ + a + "; did you mean "@ + known[k] + "?"@,
{
    if 0 <= k < known.len() && close(a, known[k]) && (forall|i: int|
        0 <= i < known.len() && i != k ==> !close(a, #[trigger] known[i])) {
        lemma_one_suggestion(a, known, k, known.len() as int);
    }
}

/// Every further close option is named behind those before it.
pub proof fn close_options_are_all_named(a: Seq<char>, known: Seq<Seq<char>>, i: int, n: int)
    requires
        0 <= i < n < known.len(),
        close(a, known[i]),
    ensures
        suggestions(a, known, n + 1) == if close(a, known[n]) {
            suggestions(a, known, n) + " or "@ + known[n]
        } else {
            suggestions(a, known, n)
        },
{
}

// ---- the histogram -------------------------------------------------------

/// The sizes of a histogram's lines: the first holds size one alone, each begins
/// where the one before ends and, short of the last, is twice as wide; the last
/// goes up to the largest batch.
pub proof fn histogram_lines_meet(k: int, max_batch: usize)
    requires
        0 <= k < 12,
    ensures
        low_size(0) == 1,
        high_size(0, max_batch) == 1,
        k < 11 ==> low_size(k + 1) == high_size(k, max_batch) + 1,
        k < 10 ==> high_size(k + 1, max_batch) - high_size(k, max_batch) == 2 * (high_size(
            k,
            max_batch,
        ) + 1 - low_size(k)),
        low_size(11) == 2048,
        max_batch >= 2048 ==> high_size(11, max_batch) == max_batch,
        low_size(k) <= high_size(k, max_batch),
{
    reveal_with_fuel(low_size, 13);
}

proof fn lemma_in_bucket(n: nat)
    requires
        n >= 1,
    ensures
        low_size(halvings(n) as int) <= n < 2 * low_size(halvings(n) as int),
    decreases n,
{
    if n > 1 {
        lemma_in_bucket(n / 2);
        assert(low_size(halvings(n) as int) == 2 * low_size(halvings(n / 2) as int));
    }
}

proof fn lemma_low_grows(a: int, b: int)
    requires
        0 <= a <= b,
    ensures
        1 <= low_size(a) <= low_size(b),
    decreases b,
{
    if a < b {
        lemma_low_grows(a, b - 1);
    } else if a > 0 {
        lemma_low_grows(a - 1, b - 1);
    }
}

/// A batch is counted on the histogram's line whose sizes it lies between.
pub proof fn batches_are_counted_on_their_line(n: nat, max_batch: usize)
    requires
        1 <= n <= max_batch,
    ensures
        0 <= bucket_of(n) < 12,
        low_size(bucket_of(n)) <= n <= high_size(bucket_of(n), max_batch),
{
    lemma_in_bucket(n);
    if halvings(n) >= 11 {
        lemma_low_grows(11, halvings(n) as int);
    }
}

/// A bar is as long as the count's part of forty, to the nearest whole one, a
/// half rounded up: all the count is forty long.
pub proof fn bars_are_parts_of_forty(c: nat, total: nat)
    requires
        0 < total,
        c <= total,
    ensures
        -(total as int) < 2 * total * bar_length(c, total) - 80 * c <= total,
        c == total ==> bar_length(c, total) == 40,
        0 <= bar_length(c, total) <= 40,
{
    let d = 2 * total as int;
    let x = 80 * c + total as int;
    let b = bar_length(c, total);
    vstd::arithmetic::div_mod::lemma_fundamental_div_mod(x, d);
    let r = x % d;
    assert(x == d * b + r);
    assert(0 <= r < d);
    assert(2 * total * b == d * b);
    assert(b <= 40) by (nonlinear_arith)
        requires
            x == d * b + r,
            0 <= r,
            d > 0,
            2 * x <= 80 * d + d,
    ;
    assert(b >= 0) by (nonlinear_arith)
        requires
            x == d * b + r,
            r < d,
            d > 0,
            x >= 0,
    ;
    if c == total {
        assert(b >= 40) by (nonlinear_arith)
            requires
                x == d * b + r,
                r < d,
                d > 0,
                2 * x == 80 * d + d,
        ;
    }
}

/// A number set to a side of a column keeps its digits and is filled up with
/// spaces on the other side, to the column's width where it is not wider.
pub proof fn numbers_are_set_in_columns(n: nat, width: int, i: int)
    requires
        0 <= width,
    ensures
        digits(n).len() <= width ==> set_right(n, width).len() == width && set_left(n, width).len()
            == width,
        digits(n).len() >= width ==> set_right(n, width) == digits(n) && set_left(n, width) == digits(
            n,
        ),
        0 <= i < digits(n).len() ==> set_left(n, width)[i] == digits(n)[i],
        digits(n).len() <= i < width ==> set_left(n, width)[i] == ' ',
        0 <= i < width - digits(n).len() ==> set_right(n, width)[i] == ' ',
        width - digits(n).len() <= i < width && 0 <= i ==> set_right(n, width)[i] == digits(n)[i - (
        if digits(n).len() <= width {
            width - digits(n).len()
        } else {
            0
        })],
{
    if digits(n).len() >= width {
        assert(set_right(n, width) =~= digits(n));
        assert(set_left(n, width) =~= digits(n));
    }
}

/// A line of the histogram gives its sizes and its count in columns, and its bar
/// behind them.
pub proof fn lines_give_sizes_and_count(k: int, c: u64, total: nat, max_batch: usize)
    ensures
        bucket_line(k, c, total, max_batch) == "  "@ + set_right(low_size(k), 5) + "-"@ + set_left(
            high_size(k, max_batch),
            5,
        ) + " "@ + set_right(c as nat, 9) + "  "@ + repeated('#', bar_length(c as nat, total)) + "\n"@,
{
}

/// A line of the histogram ends with its bar.
pub proof fn lines_end_with_their_bar(k: int, c: u64, total: nat, max_batch: usize)
    requires
        0 < total,
        c <= total,
    ensures
        ({
            let line = bucket_line(k, c, total, max_batch);
            let n = bar_length(c as nat, total);
            &&& line.len() > n
            &&& line.last() == '\n'
            &&& forall|i: int| line.len() - 1 - n <= i < line.len() - 1 ==> #[trigger] line[i] == '#'
        }),
{
    reveal_strlit("\n");
    bars_are_parts_of_forty(c as nat, total);
}

/// The note on a search says how deep it went, on how many of the turns.
pub proof fn notes_say_how_deep_a_search_went(
    depth: u8,
    deepened: nat,
    beam: nat,
    moves: nat,
    restated: nat,
    nodes: nat,
    cutoffs: nat,
    ms: nat,
)
    requires
        depth > 0,
    ensures
        deepened >= beam ==> depth_text(depth, deepened, beam) == "depth "@ + digits(depth as nat)
            + " on top "@ + digits(beam),
        deepened < beam ==> depth_text(depth, deepened, beam) == "depth "@ + digits(depth as nat)
            + " on "@ + digits(deepened) + "/"@ + digits(beam) + ", else "@ + digits(
            (depth - 1) as nat,
        ),
        restated == 0 ==> search_text(depth, deepened, beam, moves, restated, nodes, cutoffs, ms)
            == depth_text(depth, deepened, beam) + " of all "@ + digits(moves) + " root moves"@ + " · "@
            + digits(nodes) + " nodes, "@ + digits(cutoffs) + " cutoffs · "@ + digits(ms) + " ms"@,
        restated > 0 ==> search_text(depth, deepened, beam, moves, restated, nodes, cutoffs, ms)
            == depth_text(depth, deepened, beam) + " of all "@ + digits(moves) + " root moves"@ + (" ("@
            + digits(restated) + " restatements)"@) + " · "@ + digits(nodes) + " nodes, "@ + digits(
            cutoffs,
        ) + " cutoffs · "@ + digits(ms) + " ms"@,
{
    let head = depth_text(depth, deepened, beam) + " of all "@ + digits(moves) + " root moves"@;
    assert(head + Seq::<char>::empty() =~= head);
}

// ---- the draft -----------------------------------------------------------

/// Keeping two tiles is taking all that the first gives and then all that the
/// second gives.
pub proof fn kept_tiles_are_taken_one_after_the_other(
    rules: Rulebook,
    g: GameState,
    p: PlayerId,
    first: Seq<Effect>,
    second: Seq<Effect>,
)
    ensures
        kept(rules, g, p, first, second) == after_all(rules, g, p, first + second),
    decreases second.len(),
{
    if second.len() == 0 {
        assert(first + second =~= first);
    } else {
        kept_tiles_are_taken_one_after_the_other(rules, g, p, first, second.drop_last());
        assert((first + second).drop_last() =~= first + second.drop_last());
    }
}

/// The twelve ordered pairs are listed by their first place, and among those by
/// their second.
pub proof fn pairs_are_listed_in_order(k: int, l: int)
    requires
        0 <= k < l < 12,
    ensures
        pair_at(k).0 < pair_at(l).0 || (pair_at(k).0 == pair_at(l).0 && pair_at(k).1 < pair_at(l).1),
        0 <= pair_at(k).0 < 4,
        0 <= pair_at(k).1 < 4,
        pair_at(k).0 != pair_at(k).1,
{
}

/// Three picks leave the four places each once, the first pick last.
pub proof fn picks_put_every_place_once(picks: Seq<usize>, x: int, y: int)
    requires
        pair_picks_fit(picks),
        0 <= x < y < 4,
    ensures
        places_by(picks, 3).len() == 4,
        places_by(picks, 3)[x] < 4,
        places_by(picks, 3)[x] != places_by(picks, 3)[y],
        places_by(picks, 3)[3] == picks[0],
{
    reveal_with_fuel(places_by, 4);
}

// ---- training targets ----------------------------------------------------

/// What a record holds of an edge: its place, and its visits as far as they fit.
pub open spec fn held_for(v: Visited, x: (u16, u16)) -> bool {
    &&& x.0 == v.place->Some_0 as int % 65536
    &&& v.count <= 65535 ==> x.1 == v.count
    &&& v.count > 65535 ==> x.1 == 65535
}

/// Every edge that was visited has its pair, and every pair is that of a visited
/// edge.
pub proof fn visited_edges_have_their_pairs(v: Seq<Visited>, x: (u16, u16))
    ensures
        visited_pairs(v).contains(x) <==> exists|i: int|
            0 <= i < v.len() && (#[trigger] v[i]).count > 0 && held_for(v[i], x),
        visited_pairs(v).len() <= v.len(),
    decreases v.len(),
{
    if v.len() > 0 {
        let d = v.drop_last();
        visited_edges_have_their_pairs(d, x);
        let rest = visited_pairs(d);
        let all = visited_pairs(v);
        if v.last().count > 0 {
            assert(all == rest.push(all.last()));
            assert(held_for(v.last(), all.last()));
            if all.contains(x) {
                let j = choose|j: int| 0 <= j < all.len() && all[j] == x;
                if j == rest.len() {
                    assert(held_for(v[v.len() - 1], x));
                } else {
                    assert(rest[j] == x);
                    let i = choose|i: int|
                        0 <= i < d.len() && (#[trigger] d[i]).count > 0 && held_for(d[i], x);
                    assert(v[i] == d[i]);
                }
            }
            if exists|i: int| 0 <= i < v.len() && (#[trigger] v[i]).count > 0 && held_for(v[i], x) {
                let i = choose|i: int|
                    0 <= i < v.len() && (#[trigger] v[i]).count > 0 && held_for(v[i], x);
                if i < d.len() {
                    assert(d[i] == v[i]);
                    let j = choose|j: int| 0 <= j < rest.len() && rest[j] == x;
                    assert(all[j] == x);
                } else {
                    assert(all.last() == x);
                    assert(all[rest.len() as int] == x);
                }
            }
        } else {
            assert(all == rest);
            if all.contains(x) {
                let i = choose|i: int|
                    0 <= i < d.len() && (#[trigger] d[i]).count > 0 && held_for(d[i], x);
                assert(v[i] == d[i]);
            }
            if exists|i: int| 0 <= i < v.len() && (#[trigger] v[i]).count > 0 && held_for(v[i], x) {
                let i = choose|i: int|
                    0 <= i < v.len() && (#[trigger] v[i]).count > 0 && held_for(v[i], x);
                assert(d[i] == v[i]);
            }
        }
    }
}

/// A record keeps up to twenty-four pairs, the most visited first, and leaves out
/// none with more visits than one it keeps.
pub proof fn records_keep_the_most_visited(
    all: Seq<(u16, u16)>,
    pairs: Seq<(u16, u16)>,
    i: int,
    x: (u16, u16),
)
    requires
        best_pairs(all, pairs),
        all.len() <= usize::MAX,
        0 <= i < pairs.len(),
    ensures
        pairs.len() <= 24,
        all.len() <= 24 ==> pairs.len() == all.len(),
        all.len() > 24 ==> pairs.len() == 24,
        all.contains(pairs[i]),
        forall|j: int| 0 <= j < i ==> (#[trigger] pairs[j]).1 >= pairs[i].1,
        all.contains(x) && !pairs.contains(x) ==> x.1 <= pairs[i].1,
{
    let idx = choose|idx: Seq<usize>| #[trigger]
        best_first(pair_counts(all), idx) && pairs.len() == (if all.len() < 24 {
            all.len() as int
        } else {
            24
        }) && forall|i: int| 0 <= i < pairs.len() ==> #[trigger] pairs[i] == all[idx[i] as int];
    let counts = pair_counts(all);
    assert forall|j: int| 0 <= j < idx.len() implies (#[trigger] idx[j]) < all.len() by {
        assert(idx.contains(idx[j]));
    }
    assert(pairs[i] == all[idx[i] as int]);
    assert(counts[idx[i] as int] == pairs[i].1);
    assert forall|j: int| 0 <= j < i implies (#[trigger] pairs[j]).1 >= pairs[i].1 by {
        assert(pairs[j] == all[idx[j] as int]);
        assert(counts[idx[j] as int] == pairs[j].1);
    }
    if all.contains(x) && !pairs.contains(x) {
        let w = choose|w: int| 0 <= w < all.len() && all[w] == x;
        assert(idx.contains(w as usize));
        let j = choose|j: int| 0 <= j < idx.len() && idx[j] == w as usize;
        if j < pairs.len() {
            assert(pairs[j] == x);
        }
        assert(counts[idx[j] as int] == x.1);
    }
}

proof fn lemma_total_holds(v: Seq<Visited>, i: int)
    requires
        0 <= i < v.len(),
    ensures
        visits_total(v) >= v[i].count,
        visits_total(v) >= 0,
    decreases v.len(),
{
    reveal_with_fuel(visits_total, 2);
    if i < v.len() - 1 {
        lemma_total_holds(v.drop_last(), i);
        assert(v.drop_last()[i] == v[i]);
    } else if v.len() > 1 {
        lemma_total_holds(v.drop_last(), 0);
    }
}

/// The visits of a node are those of its edges together: one more visit of an
/// edge is one more of the node, and no node has fewer than one of its edges.
pub proof fn node_visits_are_those_of_its_edges(v: Seq<Visited>, i: int, more: u32)
    requires
        0 <= i < v.len(),
        v[i].count + more <= u32::MAX,
    ensures
        visits_total(v) >= v[i].count,
        visits_total(v.update(i, (Visited { place: v[i].place, count: (v[i].count + more) as u32 })))
            == visits_total(v) + more,
    decreases v.len(),
{
    lemma_total_holds(v, i);
    let n = Visited { place: v[i].place, count: (v[i].count + more) as u32 };
    let u = v.update(i, n);
    if i == v.len() - 1 {
        assert(u.drop_last() =~= v.drop_last());
    } else {
        node_visits_are_those_of_its_edges(v.drop_last(), i, more);
        assert(u.drop_last() =~= v.drop_last().update(i, n));
    }
}

/// A visited edge that cannot be found again spoils its node, and one that was
/// never visited does not.
pub proof fn only_visited_edges_must_be_found(v: Seq<Visited>, x: Visited)
    ensures
        x.count > 0 && x.place is None ==> !all_placed(v.push(x)),
        x.count == 0 || x.place is Some ==> all_placed(v.push(x)) == all_placed(v),
{
    let w = v.push(x);
    if x.count > 0 && x.place is None {
        assert(w[v.len() as int] == x);
    } else {
        if all_placed(v) {
            assert forall|i: int| 0 <= i < w.len() && (#[trigger] w[i]).count > 0 implies w[i].place is Some by {
                if i < v.len() {
                    assert(w[i] == v[i]);
                }
            }
        }
        if all_placed(w) {
            assert forall|i: int| 0 <= i < v.len() && (#[trigger] v[i]).count > 0 implies v[i].place is Some by {
                assert(w[i] == v[i]);
            }
        }
    }
}

} // verus!
