//! What drawn values make of a turn, stated apart from how the turn is put
//! together from them.

use crate::book::Rulebook;
use crate::effect::{after_all, Effect};
use crate::ids::{PlayerId, WorkerId};
use crate::legal::{placed_all, taken_all};
use crate::listing::{may_go, price_from, spot_price, spots_are_the_lowest_free_spaces};
use crate::lists::only;
use crate::moves::{spots_list, worker_list, Placement, Play};
use crate::offers::{lemma_in_both, lemma_in_only};
use crate::sampling::{
    cheap_spots, first_result, picks_fit, placing, placing_all, reordered, taking, way_taken, within,
};
use crate::state::{available_list, retrieved, GameState};
use vstd::prelude::*;

verus! {

// ---- placing -------------------------------------------------------------

proof fn lemma_cheap(s: Seq<Placement>, spare: int, x: Placement)
    ensures
        cheap_spots(s, spare).contains(x) <==> s.contains(x) && spot_price(x) <= spare,
    decreases s.len(),
{
    if s.len() > 0 {
        let d = s.drop_last();
        lemma_cheap(d, spare, x);
        lemma_in_both(cheap_spots(d, spare), only(s.last().cost() <= spare, s.last()), x);
        lemma_in_only(s.last().cost() <= spare, s.last(), x);
        assert(s =~= d + seq![s.last()]);
        lemma_in_both(d, seq![s.last()], x);
        assert(seq![s.last()].contains(x) <==> x == s.last()) by {
            assert(seq![s.last()][0] == s.last());
        }
    }
}

/// The spots to choose from are those a worker may go to for no more than is to
/// spare.
pub proof fn spots_to_choose_from_can_be_paid(g: GameState, spare: int, spot: Placement)
    ensures
        within(g, spare).contains(spot) <==> may_go(g, spot) && spot_price(spot) <= spare,
{
    lemma_cheap(spots_list(g), spare, spot);
    spots_are_the_lowest_free_spaces(g, spot);
}

proof fn lemma_price_push(v: Seq<(WorkerId, Placement)>, x: (WorkerId, Placement), n: int)
    requires
        0 <= n <= v.len(),
    ensures
        price_from(v.push(x), n) == price_from(v, n) + v.len() + spot_price(x.1),
    decreases v.len() - n,
{
    let w = v.push(x);
    if n < v.len() {
        lemma_price_push(v, x, n + 1);
        assert(w[n] == v[n]);
    } else {
        assert(price_from(w, n + 1) == 0);
    }
}

/// Whether workers are put down as drawn values say: in order, each on the spot
/// picked for it out of those that can be paid, and each after the first because
/// a value said so.
pub open spec fn put_as_drawn(
    g: GameState,
    avail: Seq<WorkerId>,
    budget: int,
    goes: Seq<bool>,
    picks: Seq<usize>,
    put: Seq<(WorkerId, Placement)>,
    k: int,
) -> bool {
    let h = placed_all(g, put.take(k));
    let spare = budget - price_from(put.take(k), 0) - k;
    &&& put[k].0 == avail[k]
    &&& k > 0 ==> goes[k - 1]
    &&& 0 <= picks[k] < within(h, spare).len()
    &&& put[k].1 == within(h, spare)[picks[k] as int]
    &&& may_go(h, put[k].1)
    &&& spot_price(put[k].1) <= spare
}

proof fn lemma_placing(
    g0: GameState,
    avail: Seq<WorkerId>,
    cost: int,
    budget: int,
    put: Seq<(WorkerId, Placement)>,
    goes: Seq<bool>,
    picks: Seq<usize>,
)
    requires
        put.len() <= avail.len(),
        cost == price_from(put, 0),
        put.len() == 0 || cost <= budget,
        forall|k: int|
            0 <= k < put.len() ==> #[trigger] put_as_drawn(g0, avail, budget, goes, picks, put, k),
    ensures
        ({
            let r = placing(placed_all(g0, put), avail, cost, budget, put, goes, picks);
            &&& put.len() <= r.put.len() <= avail.len()
            &&& r.cost == price_from(r.put, 0)
            &&& r.put.len() == 0 || r.cost <= budget
            &&& forall|k: int|
                0 <= k < r.put.len() ==> #[trigger] put_as_drawn(
                    g0,
                    avail,
                    budget,
                    goes,
                    picks,
                    r.put,
                    k,
                )
            &&& r.lasted && r.put.len() < avail.len() ==> (r.put.len() > 0 && r.put.len()
                <= goes.len() && !goes[r.put.len() - 1]) || forall|spot: Placement| #[trigger]
                may_go(placed_all(g0, r.put), spot) ==> r.cost + r.put.len() + spot_price(spot)
                    > budget
        }),
    decreases avail.len() - put.len(),
{
    let k = put.len() as int;
    let g = placed_all(g0, put);
    let spare = budget - cost - k;
    let spots = within(g, spare);
    if k >= avail.len() {
    } else if k > goes.len() {
    } else if k > 0 && !goes[k - 1] {
    } else if spots.len() == 0 {
        assert forall|spot: Placement| #[trigger] may_go(g, spot) implies cost + k + spot_price(spot)
            > budget by {
            spots_to_choose_from_can_be_paid(g, spare, spot);
            assert(!spots.contains(spot));
        }
    } else if k >= picks.len() || picks[k] >= spots.len() {
    } else {
        let spot = spots[picks[k] as int];
        let next = put.push((avail[k], spot));
        assert(spots.contains(spot));
        spots_to_choose_from_can_be_paid(g, spare, spot);
        lemma_price_push(put, (avail[k], spot), 0);
        assert(next.drop_last() =~= put);
        assert(put.take(k) =~= put);
        assert forall|j: int| 0 <= j < next.len() implies #[trigger] put_as_drawn(
            g0,
            avail,
            budget,
            goes,
            picks,
            next,
            j,
        ) by {
            assert(next.take(j) =~= put.take(j));
            if j < k {
                assert(put_as_drawn(g0, avail, budget, goes, picks, put, j));
                assert(next[j] == put[j]);
            }
        }
        lemma_placing(g0, avail, cost + k + spot.cost(), budget, next, goes, picks);
    }
}

/// A drawn placement puts the workers in hand down in order, each on the spot
/// picked for it out of those that can be paid; it costs what its spots and its
/// number of workers cost, never more than there is; and it ends with the last
/// worker in hand, where a value says so, or where nothing can be paid.
pub proof fn drawn_placements_go_on_as_long_as_they_are_told(
    g: GameState,
    p: PlayerId,
    budget: int,
    goes: Seq<bool>,
    picks: Seq<usize>,
    k: int,
)
    ensures
        ({
            let avail = available_list(g, p);
            let r = placing_all(g, p, budget, goes, picks);
            &&& r.put.len() <= avail.len()
            &&& r.cost == price_from(r.put, 0)
            &&& r.put.len() == 0 || r.cost <= budget
            &&& 0 <= k < r.put.len() ==> put_as_drawn(g, avail, budget, goes, picks, r.put, k)
            &&& r.lasted && r.put.len() < avail.len() ==> (r.put.len() > 0 && r.put.len()
                <= goes.len() && !goes[r.put.len() - 1]) || forall|spot: Placement| #[trigger]
                may_go(placed_all(g, r.put), spot) ==> r.cost + r.put.len() + spot_price(spot) > budget
        }),
{
    let none = Seq::<(WorkerId, Placement)>::empty();
    assert(price_from(none, 0) == 0);
    assert(placed_all(g, none) == g);
    lemma_placing(g, available_list(g, p), 0, budget, none, goes, picks);
}

// ---- retrieving ----------------------------------------------------------

/// Whether a worker is picked up as drawn values say: one of the order, which
/// stands on a gear, doing what was picked for it out of what it may do in the
/// position that those before it leave.
pub open spec fn took_as_drawn(
    rules: Rulebook,
    g: GameState,
    p: PlayerId,
    order: Seq<WorkerId>,
    picks: Seq<usize>,
    took: Seq<(WorkerId, Seq<Effect>)>,
    k: int,
) -> bool {
    let h = taken_all(rules, g, p, took.take(k));
    exists|n: int|
        0 <= n < order.len() && n < picks.len() && took[k].0 == #[trigger] order[n] && (
        h.workers[order[n].0 as int].space() matches Some((gear, pos)) && picks[n] < worker_list(
            rules,
            h,
            p,
            gear,
            pos.0 as int,
        ).len() && took[k].1 == worker_list(rules, h, p, gear, pos.0 as int)[picks[n] as int])
}

proof fn lemma_taking(
    rules: Rulebook,
    g0: GameState,
    p: PlayerId,
    order: Seq<WorkerId>,
    n: int,
    took: Seq<(WorkerId, Seq<Effect>)>,
    goes: Seq<bool>,
    picks: Seq<usize>,
)
    requires
        0 <= n,
        took.len() <= n,
        forall|k: int|
            0 <= k < took.len() ==> #[trigger] took_as_drawn(rules, g0, p, order, picks, took, k),
    ensures
        ({
            let r = taking(rules, taken_all(rules, g0, p, took), p, order, n, took, goes, picks);
            &&& took.len() <= r.took.len()
            &&& r.took.len() <= n || r.took.len() <= order.len()
            &&& forall|k: int|
                0 <= k < r.took.len() ==> #[trigger] took_as_drawn(
                    rules,
                    g0,
                    p,
                    order,
                    picks,
                    r.took,
                    k,
                )
        }),
    decreases order.len() - n,
{
    let g = taken_all(rules, g0, p, took);
    if n >= order.len() {
    } else if n > goes.len() {
    } else if n > 0 && !goes[n - 1] {
    } else {
        match g.workers[order[n].0 as int].space() {
            None => {
                lemma_taking(rules, g0, p, order, n + 1, took, goes, picks);
            },
            Some((gear, pos)) => {
                let list = worker_list(rules, g, p, gear, pos.0 as int);
                if n >= picks.len() || picks[n] >= list.len() {
                } else {
                    let choice = list[picks[n] as int];
                    let next = took.push((order[n], choice));
                    assert(next.drop_last() =~= took);
                    assert(taken_all(rules, g0, p, next) == retrieved(
                        after_all(rules, g, p, choice),
                        order[n],
                    ));
                    assert(took.take(took.len() as int) =~= took);
                    assert forall|j: int| 0 <= j < next.len() implies #[trigger] took_as_drawn(
                        rules,
                        g0,
                        p,
                        order,
                        picks,
                        next,
                        j,
                    ) by {
                        assert(next.take(j) =~= took.take(j));
                        if j < took.len() {
                            assert(took_as_drawn(rules, g0, p, order, picks, took, j));
                            assert(next[j] == took[j]);
                        } else {
                            assert(next[j].0 == order[n]);
                        }
                    }
                    lemma_taking(rules, g0, p, order, n + 1, next, goes, picks);
                }
            },
        }
    }
}

/// A drawn retrieval picks up workers of the order alone, each doing what was
/// picked for it out of what it may do there and then.
pub proof fn drawn_retrievals_do_what_is_picked(
    rules: Rulebook,
    g: GameState,
    p: PlayerId,
    order: Seq<WorkerId>,
    goes: Seq<bool>,
    picks: Seq<usize>,
    k: int,
)
    ensures
        ({
            let r = taking(rules, g, p, order, 0, Seq::empty(), goes, picks);
            &&& r.took.len() <= order.len()
            &&& 0 <= k < r.took.len() ==> took_as_drawn(rules, g, p, order, picks, r.took, k)
        }),
{
    let none = Seq::<(WorkerId, Seq<Effect>)>::empty();
    assert(taken_all(rules, g, p, none) == g);
    lemma_taking(rules, g, p, order, 0, none, goes, picks);
}

/// Where a value says to stop no more workers are picked up, and where it says to
/// go on the next is, if it stands on a gear.
pub proof fn drawn_retrievals_go_on_as_long_as_they_are_told(
    rules: Rulebook,
    g: GameState,
    p: PlayerId,
    order: Seq<WorkerId>,
    n: int,
    took: Seq<(WorkerId, Seq<Effect>)>,
    goes: Seq<bool>,
    picks: Seq<usize>,
)
    requires
        0 <= n < order.len(),
        n <= goes.len(),
    ensures
        n > 0 && !goes[n - 1] ==> taking(rules, g, p, order, n, took, goes, picks).took == took,
        n == 0 || goes[n - 1] ==> (g.workers[order[n].0 as int].space() is Some && taking(
            rules,
            g,
            p,
            order,
            n,
            took,
            goes,
            picks,
        ).lasted ==> taking(rules, g, p, order, n, took, goes, picks).took.len() > took.len()),
{
    if n == 0 || goes[n - 1] {
        if let Some((gear, pos)) = g.workers[order[n].0 as int].space() {
            let list = worker_list(rules, g, p, gear, pos.0 as int);
            if n < picks.len() && picks[n] < list.len() {
                let choice = list[picks[n] as int];
                lemma_took_grows(
                    rules,
                    retrieved(after_all(rules, g, p, choice), order[n]),
                    p,
                    order,
                    n + 1,
                    took.push((order[n], choice)),
                    goes,
                    picks,
                );
            }
        }
    }
}

proof fn lemma_took_grows(
    rules: Rulebook,
    g: GameState,
    p: PlayerId,
    order: Seq<WorkerId>,
    n: int,
    took: Seq<(WorkerId, Seq<Effect>)>,
    goes: Seq<bool>,
    picks: Seq<usize>,
)
    requires
        0 <= n,
    ensures
        taking(rules, g, p, order, n, took, goes, picks).took.len() >= took.len(),
    decreases order.len() - n,
{
    if n < order.len() && n <= goes.len() && (n == 0 || goes[n - 1]) {
        match g.workers[order[n].0 as int].space() {
            None => {
                lemma_took_grows(rules, g, p, order, n + 1, took, goes, picks);
            },
            Some((gear, pos)) => {
                let list = worker_list(rules, g, p, gear, pos.0 as int);
                if n < picks.len() && picks[n] < list.len() {
                    let choice = list[picks[n] as int];
                    lemma_took_grows(
                        rules,
                        retrieved(after_all(rules, g, p, choice), order[n]),
                        p,
                        order,
                        n + 1,
                        took.push((order[n], choice)),
                        goes,
                        picks,
                    );
                }
            },
        }
    }
}

// ---- order and choice ----------------------------------------------------

proof fn lemma_settled(s: Seq<WorkerId>, picks: Seq<usize>, k: int, l: int)
    requires
        picks_fit(picks, s.len() as int),
        0 < k <= l <= picks.len(),
    ensures
        reordered(s, picks, l).len() == s.len(),
        reordered(s, picks, k - 1).len() == s.len(),
        reordered(s, picks, l)[s.len() - k] == reordered(s, picks, k - 1)[picks[k - 1] as int],
    decreases l,
{
    assert(picks[l - 1] < s.len() - (l - 1));
    if k < l {
        lemma_settled(s, picks, k, l - 1);
    } else if k > 1 {
        lemma_settled(s, picks, k - 1, k - 1);
    }
}

/// Putting workers in a drawn order settles the places from the last down: each
/// gets the worker that stood where its pick says, and keeps it.
pub proof fn places_are_settled_from_the_last_down(s: Seq<WorkerId>, picks: Seq<usize>, k: int)
    requires
        picks_fit(picks, s.len() as int),
        0 < k <= picks.len(),
    ensures
        reordered(s, picks, picks.len() as int)[s.len() - k] == reordered(s, picks, k - 1)[picks[k
            - 1] as int],
        reordered(s, picks, picks.len() as int)[s.len() - 1] == s[picks[0] as int],
        reordered(s, picks, 0) == s,
{
    lemma_settled(s, picks, k, picks.len() as int);
    lemma_settled(s, picks, 1, picks.len() as int);
}

/// Of the two ways to act, the one to be tried first is taken where it can be,
/// and the other where only it can.
pub proof fn the_way_tried_first_is_preferred(taken: Option<Play>, placed: Option<Play>)
    ensures
        taken is Some ==> way_taken(true, taken, placed) == taken,
        placed is Some ==> way_taken(false, taken, placed) == placed,
        taken is None ==> way_taken(true, taken, placed) == placed,
        placed is None ==> way_taken(false, taken, placed) == taken,
{
}

/// The first try that came to something is the one that counts; where none did,
/// the last resort is.
pub proof fn the_first_try_that_works_counts(
    results: Seq<Option<Play>>,
    resort: Option<Play>,
    k: int,
)
    requires
        0 <= k <= results.len(),
        forall|i: int| 0 <= i < k ==> (#[trigger] results[i]) is None,
        k < results.len() ==> results[k] is Some,
    ensures
        k < results.len() ==> first_result(results, resort) == results[k],
        k == results.len() ==> first_result(results, resort) == resort,
    decreases k,
{
    if k > 0 {
        assert(results[0] is None);
        let rest = results.drop_first();
        assert forall|i: int| 0 <= i < k - 1 implies (#[trigger] rest[i]) is None by {
            assert(rest[i] == results[i + 1]);
        }
        the_first_try_that_works_counts(rest, resort, k - 1);
    }
}

} // verus!
