//! What searching finds: the value of best play, and which moves are looked at.

use crate::ids::WorkerId;
use crate::moves::{Placement, Play};
use crate::search::{
    beam_of, best_first, best_of, better, finished, handed_on, proves, renewed, repeats,
    round_end, stored, value, width, Bound, Entry, Frame, Kids, Tree, HIGH, LOW,
};
use crate::state::GameState;
use crate::turns::{play_words, same_play, times};
use crate::words::words_lt;
use vstd::prelude::*;

verus! {

// ---- best play -----------------------------------------------------------

/// Whether a position is one of those a mover can go to.
pub open spec fn among(kids: Kids, t: Tree) -> bool
    decreases kids,
{
    match kids {
        Kids::End => false,
        Kids::Then { kid, rest } => kid == t || among(*rest, t),
    }
}

/// Whether every position a mover can go to is scored between the bounds.
pub open spec fn all_within(kids: Kids) -> bool
    decreases kids,
{
    match kids {
        Kids::End => true,
        Kids::Then { kid, rest } => -0x4000_0000_0000_0000 <= value(kid) <= 0x4000_0000_0000_0000
            && all_within(*rest),
    }
}

proof fn lemma_best_of(maximizing: bool, best: int, kids: Kids)
    ensures
        forall|t: Tree| #[trigger]
            among(kids, t) ==> (maximizing ==> best_of(maximizing, best, kids) >= value(t)) && (
            !maximizing ==> best_of(maximizing, best, kids) <= value(t)),
        maximizing ==> best_of(maximizing, best, kids) >= best,
        !maximizing ==> best_of(maximizing, best, kids) <= best,
        best_of(maximizing, best, kids) == best || exists|t: Tree| #[trigger]
            among(kids, t) && best_of(maximizing, best, kids) == value(t),
    decreases kids,
{
    if let Kids::Then { kid, rest } = kids {
        let b = better(maximizing, best, value(kid));
        lemma_best_of(maximizing, b, *rest);
        let r = best_of(maximizing, b, *rest);
        assert forall|t: Tree| #[trigger] among(kids, t) implies (maximizing ==> r >= value(t)) && (
        !maximizing ==> r <= value(t)) by {
            if among(*rest, t) {
            }
        }
        if r == b {
            if b != best {
                assert(among(kids, kid));
            }
        } else {
            let t = choose|t: Tree| #[trigger] among(*rest, t) && r == value(t);
            assert(among(kids, t));
        }
    }
}

/// A position is worth the best of those its mover can go to: the highest where the
/// mover is the one searched for, the lowest where it plays against it. A leaf is
/// worth its score.
pub proof fn best_play_goes_to_the_best_position(maximizing: bool, kids: Box<Kids>, v: i64)
    requires
        !(*kids is End),
        all_within(*kids),
    ensures
        ({
            let t = Tree::Node { maximizing, kids };
            &&& forall|k: Tree| #[trigger]
                among(*kids, k) && maximizing ==> value(t) >= value(k)
            &&& forall|k: Tree| #[trigger]
                among(*kids, k) && !maximizing ==> value(t) <= value(k)
            &&& exists|k: Tree| #[trigger] among(*kids, k) && value(t) == value(k)
        }),
        value(Tree::Leaf(v)) == v,
{
    let start = if maximizing {
        LOW as int
    } else {
        HIGH as int
    };
    lemma_best_of(maximizing, start, *kids);
    let r = best_of(maximizing, start, *kids);
    if r == start {
        let k = kids->Then_kid;
        assert(among(*kids, k));
        assert(value(k) == r);
    }
}

/// What a window proves: inside it the score itself, at its upper edge that the
/// score is no lower, at its lower edge that it is no higher. Between the bounds of
/// all scores what is found is the score.
pub proof fn windows_prove_scores(alpha: int, beta: int, found: int, t: int)
    requires
        alpha < beta,
        proves(alpha, beta, found, t),
    ensures
        alpha < found < beta ==> found == t,
        found >= beta ==> t >= found,
        found <= alpha ==> t <= found,
        alpha < t < beta ==> found == t,
{
}

/// What is stored of a searched node is true of its score, and settles another
/// window only where it proves what searching that would: a score that was found
/// settles any, a bound only where it lies outside.
pub proof fn stored_scores_settle_only_what_they_prove(
    f: Frame,
    t: int,
    alpha: int,
    beta: int,
)
    requires
        f.alpha0 < f.beta0,
        alpha < beta,
        proves(f.alpha0 as int, f.beta0 as int, f.best as int, t),
    ensures
        ({
            let e = stored(f);
            &&& e.value == f.best
            &&& e.settles(alpha, beta) ==> (alpha < e.value < beta ==> t == e.value) && (e.value >= beta
                ==> t >= e.value) && (e.value <= alpha ==> t <= e.value)
            &&& f.alpha0 < f.best < f.beta0 ==> e.settles(alpha, beta) && t == e.value
            &&& f.best >= f.beta0 && f.best >= beta ==> e.settles(alpha, beta)
            &&& f.best <= f.alpha0 && f.best <= alpha ==> e.settles(alpha, beta)
            &&& e.bound is Lower <==> f.best >= f.beta0
            &&& e.bound is Upper <==> f.best <= f.alpha0
        }),
{
}

/// What a stored score says: that the score is this, at least this, or at most
/// this.
pub proof fn bounds_say_what_they_bound(v: i64, t: int)
    ensures
        (Entry { value: v, bound: Bound::Exact }).holds(t) <==> t == v,
        (Entry { value: v, bound: Bound::Lower }).holds(t) <==> v <= t,
        (Entry { value: v, bound: Bound::Upper }).holds(t) <==> t <= v,
{
}

// ---- the beam ------------------------------------------------------------

/// The moves searched at a ply: as many as configured for it, the last number
/// repeating, and three where none is.
pub proof fn widths_repeat_past_the_end(widths: Seq<usize>, ply: int)
    requires
        0 <= ply,
    ensures
        ply < widths.len() ==> width(widths, ply) == widths[ply],
        ply >= widths.len() && widths.len() > 0 ==> width(widths, ply) == widths[widths.len() - 1],
        widths.len() == 0 ==> width(widths, ply) == 3,
{
}

/// Scores best first: each place once, a higher score before a lower one, and of
/// equal ones the earlier first.
pub proof fn better_scores_come_first(scores: Seq<i64>, idx: Seq<usize>, i: int, j: int)
    requires
        best_first(scores, idx),
        0 <= i < j < idx.len(),
    ensures
        idx.len() == scores.len(),
        idx[i] < scores.len() && idx[j] < scores.len() && idx[i] != idx[j],
        scores[idx[i] as int] >= scores[idx[j] as int],
        scores[idx[i] as int] == scores[idx[j] as int] ==> idx[i] < idx[j],
{
    assert(idx.contains(idx[i]));
    assert(idx.contains(idx[j]));
}

proof fn lemma_beam(ms: Seq<Play>, order: Seq<usize>, w: int, chosen: Seq<usize>)
    requires
        w >= 1,
        chosen.len() <= w,
    ensures
        ({
            let out = beam_of(ms, order, w, chosen);
            &&& chosen.len() <= out.len() <= w
            &&& out.take(chosen.len() as int) == chosen
            &&& forall|i: int| chosen.len() <= i < out.len() ==> order.contains(#[trigger] out[i])
            &&& forall|k: int|
                0 <= k < order.len() ==> out.contains(#[trigger] order[k]) || out.len() == w
                    || repeats(ms, out, order[k])
        }),
    decreases order.len(),
{
    let out = beam_of(ms, order, w, chosen);
    assert(chosen.take(chosen.len() as int) =~= chosen);
    if order.len() > 0 && chosen.len() < w {
        let rest = order.drop_first();
        let k0 = order[0];
        let next = if repeats(ms, chosen, k0) {
            chosen
        } else {
            chosen.push(k0)
        };
        lemma_beam(ms, rest, w, next);
        assert(out == beam_of(ms, rest, w, next));
        assert(out.take(chosen.len() as int) =~= next.take(chosen.len() as int)) by {
            assert(out.take(next.len() as int) == next);
            assert forall|i: int| 0 <= i < chosen.len() implies out[i] == next[i] by {
                assert(out.take(next.len() as int)[i] == next[i]);
            }
        }
        assert(next.take(chosen.len() as int) =~= chosen);
        assert forall|i: int| chosen.len() <= i < out.len() implies order.contains(
            #[trigger] out[i],
        ) by {
            if i < next.len() {
                assert(out.take(next.len() as int)[i] == next[i]);
                assert(order[0] == out[i]);
            } else {
                assert(rest.contains(out[i]));
                assert(order[rest.index_of(out[i]) + 1] == out[i]);
            }
        }
        assert forall|k: int| 0 <= k < order.len() implies out.contains(#[trigger] order[k])
            || out.len() == w || repeats(ms, out, order[k]) by {
            if k == 0 {
                if repeats(ms, chosen, k0) {
                    let i = choose|i: int|
                        0 <= i < chosen.len() && same_play(
                            ms[#[trigger] chosen[i] as int],
                            ms[k0 as int],
                        );
                    assert(out.take(chosen.len() as int)[i] == chosen[i]);
                    assert(same_play(ms[out[i] as int], ms[k0 as int]));
                } else {
                    assert(out.take(next.len() as int)[chosen.len() as int] == k0);
                    assert(out[chosen.len() as int] == k0);
                }
            } else {
                assert(rest[k - 1] == order[k]);
            }
        }
    }
}

/// A beam holds no more than its width, only moves of the order, the first of it
/// always; and a move of the order is left out only where one that does the same is
/// in, or the beam is full.
pub proof fn beams_hold_the_best_that_differ(ms: Seq<Play>, order: Seq<usize>, w: int, k: int)
    requires
        w >= 1,
        0 <= k < order.len(),
    ensures
        ({
            let out = beam_of(ms, order, w, Seq::empty());
            &&& 1 <= out.len() <= w
            &&& out[0] == order[0]
            &&& forall|i: int| 0 <= i < out.len() ==> order.contains(#[trigger] out[i])
            &&& out.contains(order[k]) || out.len() == w || exists|i: int|
                0 <= i < out.len() && same_play(ms[#[trigger] out[i] as int], ms[order[k] as int])
        }),
{
    let none = Seq::<usize>::empty();
    lemma_beam(ms, order, w, none);
    let out = beam_of(ms, order, w, none);
    let first = none.push(order[0]);
    assert(!repeats(ms, none, order[0]));
    assert(out == beam_of(ms, order.drop_first(), w, first));
    lemma_beam(ms, order.drop_first(), w, first);
    assert(out.take(1) == first);
    assert(out.take(1)[0] == order[0]);
}

/// Two moves do the same where they beg and cost the same and either take the same
/// spots, each as often, or are the same retrieval or pity.
pub proof fn moves_do_the_same_by_the_spots_they_take(a: Play, b: Play, s: Placement)
    ensures
        same_play(a, b) ==> a.beg == b.beg && a.corn_cost == b.corn_cost,
        same_play(a, b) && a.kind is Place ==> b.kind is Place && times(a.kind->Place_0, s) == times(
            b.kind->Place_0,
            s,
        ) && a.kind->Place_0.len() == b.kind->Place_0.len(),
        same_play(a, b) && !(a.kind is Place) ==> a == b,
        a == b ==> same_play(a, b),
{
}

/// How often a spot is taken: once for each worker put there.
pub proof fn spots_are_counted_once_a_worker(
    v: Seq<(WorkerId, Placement)>,
    w: WorkerId,
    s: Placement,
    t: Placement,
)
    ensures
        times(Seq::empty(), s) == 0,
        times(v.push((w, s)), s) == times(v, s) + 1,
        t != s ==> times(v.push((w, t)), s) == times(v, s),
{
    assert(v.push((w, s)).drop_last() =~= v);
    assert(v.push((w, t)).drop_last() =~= v);
}

// ---- deepening -----------------------------------------------------------

/// An iteration renews the scores it finished and leaves the others; it counts as
/// many as it finished.
pub proof fn iterations_renew_what_they_finish(
    prev: Seq<i64>,
    found: Seq<Option<i64>>,
    i: int,
    v: i64,
)
    requires
        0 <= i < prev.len(),
    ensures
        i < found.len() && found[i] == Some(v) ==> renewed(prev, found, i) == v,
        i >= found.len() || found[i] is None ==> renewed(prev, found, i) == prev[i],
        finished(found.push(Some(v))) == finished(found) + 1,
        finished(found.push(None)) == finished(found),
        finished(Seq::empty()) == 0,
{
    assert(found.push(Some(v)).drop_last() =~= found);
    assert(found.push(None).drop_last() =~= found);
}

// ---- rounds --------------------------------------------------------------

/// The seat goes to the next in turn and nothing else changes; the round ends where
/// it comes back to the seat that began it.
pub proof fn seats_follow_one_another(g: GameState)
    requires
        g.current.ok(),
    ensures
        ({
            let (h, over) = handed_on(g);
            &&& g.current.0 < 3 ==> h.current.0 == g.current.0 + 1
            &&& g.current.0 == 3 ==> h.current.0 == 0
            &&& over <==> h.current == g.first_player
            &&& h == (GameState { current: h.current, ..g })
        }),
{
}

/// A round ends two days on only where that can be had and is worth more to the
/// claimer than a day on, and the next begins with the seat that has the marker.
pub proof fn rounds_end_as_the_claimer_prefers(
    one: GameState,
    two: Option<GameState>,
    m1: i64,
    m2: i64,
)
    ensures
        ({
            let r = round_end(one, two, m1, m2);
            &&& r.current == r.first_player
            &&& two is None || m2 <= m1 ==> r == (GameState { current: one.first_player, ..one })
            &&& m2 > m1 ==> (two matches Some(h) ==> r == (GameState { current: h.first_player, ..h }))
        }),
{
}

// ---- the order of moves --------------------------------------------------

/// Placements sort before retrievals, and both before pity.
pub proof fn placements_sort_first_and_pity_last(a: Play, b: Play)
    ensures
        a.kind is Place && b.kind is Retrieve ==> words_lt(play_words(a), play_words(b)),
        a.kind is Retrieve && b.kind is Pity ==> words_lt(play_words(a), play_words(b)),
        a.kind is Place && b.kind is Pity ==> words_lt(play_words(a), play_words(b)),
{
    assert(play_words(a).len() > 0 && play_words(b).len() > 0);
    if a.kind is Place {
        assert(play_words(a)[0] == 0);
    }
    if a.kind is Retrieve {
        assert(play_words(a)[0] == 1);
    }
    if b.kind is Retrieve {
        assert(play_words(b)[0] == 1);
    }
    if b.kind is Pity {
        assert(play_words(b)[0] == 2);
    }
}

} // verus!
