//! Which moves there are, and which are legal: what placements cost, where workers
//! may go, who may beg, and who is pitied.

use crate::book::Rulebook;
use crate::effect::{affordable_all, Effect};
use crate::ids::{Gear, PlayerId, Pos, Temple, WorkerId};
use crate::legal::{
    fault_of, placed_all, placing_fault, taken_all, taking_fault,
};
use crate::lists::{flat, only};
use crate::moves::{
    beg_list, begged, begs, cheapest, gear_spots, legal_list, normal_list, pities, pity_list,
    place_each, place_list, put_at, spots_list, Kind, Placement, Play,
};
use crate::offers::{lemma_in_both, lemma_in_flat, lemma_in_only, lemma_may_step, mark};
use crate::state::{
    available_list, board_list, can_step, free_from, lowest_free_space, workers_where, GameState,
    WorkerLoc,
};
use vstd::prelude::*;

verus! {

// ---- workers and spaces --------------------------------------------------

/// A gear's row on the board.
pub open spec fn row_of(gear: Gear) -> int {
    match gear {
        Gear::Palenque => 0,
        Gear::Yaxchilan => 1,
        Gear::Tikal => 2,
        Gear::Uxmal => 3,
        Gear::Chichen => 4,
    }
}

/// Whether a space is the lowest of its gear that holds no worker.
pub open spec fn lowest_space(g: GameState, gear: Gear, pos: Pos) -> bool {
    let row = g.gears[row_of(gear)].occ;
    &&& pos.0 < (if gear == Gear::Chichen {
        11int
    } else {
        8
    })
    &&& row[pos.0 as int] == 255
    &&& forall|j: int| 0 <= j < pos.0 ==> #[trigger] row[j] != 255
}

proof fn lemma_lowest(g: GameState, gear: Gear, k: int, pos: Pos)
    requires
        0 <= k,
        forall|j: int| 0 <= j < k && j < 11 ==> #[trigger] g.gears[row_of(gear)].occ[j] != 255,
    ensures
        free_from(g, gear, k) == Some(pos) <==> lowest_space(g, gear, pos),
    decreases gear.spaces() - k,
{
    let row = g.gears[row_of(gear)].occ;
    assert(row_of(gear) == gear.rank());
    if k < gear.spaces() {
        if row[k] == 255 {
            if lowest_space(g, gear, pos) && pos.0 != k {
                if k < pos.0 {
                    assert(row[k] != 255);
                } else {
                    assert(row[pos.0 as int] != 255);
                }
            }
            if pos.0 == k {
                assert(pos == Pos(k as u8));
            }
        } else {
            lemma_lowest(g, gear, k + 1, pos);
        }
    } else {
        if lowest_space(g, gear, pos) {
            assert(row[pos.0 as int] != 255);
        }
    }
}

/// Whether a worker may go to a spot: the lowest free space of a gear, or the
/// first player space while nobody holds it.
pub open spec fn may_go(g: GameState, spot: Placement) -> bool {
    match spot {
        Placement::Gear(gear, pos) => lowest_space(g, gear, pos),
        Placement::FirstPlayer => g.first_player_space is None,
    }
}

/// The spots on offer are exactly those a worker may go to.
pub proof fn spots_are_the_lowest_free_spaces(g: GameState, spot: Placement)
    ensures
        spots_list(g).contains(spot) <==> may_go(g, spot),
{
    let f = gear_spots(g);
    let last = only(g.first_player_space is None, Placement::FirstPlayer);
    lemma_in_both(flat(5, f), last, spot);
    lemma_in_only(g.first_player_space is None, Placement::FirstPlayer, spot);
    lemma_in_flat(5, f, spot);
    assert forall|i: int| 0 <= i < 5 implies (#[trigger] f(i).contains(spot) <==> (spot matches Placement::Gear(
        gear,
        pos,
    ) && gear == Gear::at(i) && lowest_free_space(g, Gear::at(i)) == Some(pos))) by {
        if let Some(pos) = lowest_free_space(g, Gear::at(i)) {
            assert(f(i)[0] == Placement::Gear(Gear::at(i), pos));
        }
    }
    match spot {
        Placement::Gear(gear, pos) => {
            lemma_lowest(g, gear, 0, pos);
            if flat(5, f).contains(spot) {
                let i = choose|i: int| 0 <= i < 5 && #[trigger] f(i).contains(spot);
                assert(Gear::at(i) == gear);
            }
            if lowest_space(g, gear, pos) {
                let i = gear.rank();
                assert(Gear::at(i) == gear);
                assert(spot == Placement::Gear(Gear::at(i), pos));
                assert(f(i).contains(spot));
            }
        },
        Placement::FirstPlayer => {
            if flat(5, f).contains(spot) {
                let i = choose|i: int| 0 <= i < 5 && #[trigger] f(i).contains(spot);
                assert(f(i).contains(spot));
            }
        },
    }
}

proof fn lemma_where(
    g: GameState,
    p: PlayerId,
    f: spec_fn(WorkerLoc) -> bool,
    k: nat,
)
    requires
        p.ok(),
        k <= 6,
    ensures
        ({
            let s = workers_where(g, p, f, k);
            &&& forall|w: WorkerId| #[trigger]
                s.contains(w) <==> 6 * p.0 <= w.0 < 6 * p.0 + k && f(g.workers[w.0 as int])
            &&& forall|i: int, j: int| 0 <= i < j < s.len() ==> (#[trigger] s[i]).0 < (
            #[trigger] s[j]).0
        }),
    decreases k,
{
    if k > 0 {
        lemma_where(g, p, f, (k - 1) as nat);
        let r = workers_where(g, p, f, (k - 1) as nat);
        let s = workers_where(g, p, f, k);
        let x = WorkerId((6 * p.0 + k - 1) as u8);
        assert forall|w: WorkerId| #[trigger]
            s.contains(w) <==> 6 * p.0 <= w.0 < 6 * p.0 + k && f(g.workers[w.0 as int]) by {
            if f(g.workers[x.0 as int]) {
                assert(s =~= r + seq![x]);
                lemma_in_both(r, seq![x], w);
                assert(seq![x][0] == x);
            }
            assert(r.contains(w) <==> 6 * p.0 <= w.0 < 6 * p.0 + k - 1 && f(g.workers[w.0 as int]));
            if w.0 == x.0 {
                assert(w == x);
            }
        }
        assert forall|i: int, j: int| 0 <= i < j < s.len() implies (#[trigger] s[i]).0 < (
        #[trigger] s[j]).0 by {
            assert(r.contains(r[i]));
            if j < r.len() {
                assert(r[i].0 < r[j].0);
            }
        }
    } else {
        assert(workers_where(g, p, f, 0).len() == 0);
    }
}

/// The workers in hand and those on gears are a seat's own six that are there,
/// lowest first.
pub proof fn workers_are_listed_by_where_they_are(g: GameState, p: PlayerId, w: WorkerId)
    requires
        p.ok(),
    ensures
        available_list(g, p).contains(w) <==> 6 * p.0 <= w.0 < 6 * p.0 + 6 && g.workers[w.0 as int]
            == WorkerLoc::Available,
        board_list(g, p).contains(w) <==> 6 * p.0 <= w.0 < 6 * p.0 + 6 && g.workers[w.0 as int] is OnGear,
        forall|i: int, j: int|
            0 <= i < j < available_list(g, p).len() ==> (#[trigger] available_list(g, p)[i]).0 < (
            #[trigger] available_list(g, p)[j]).0,
        forall|i: int, j: int|
            0 <= i < j < board_list(g, p).len() ==> (#[trigger] board_list(g, p)[i]).0 < (
            #[trigger] board_list(g, p)[j]).0,
{
    lemma_where(g, p, |l: WorkerLoc| l == WorkerLoc::Available, 6);
    lemma_where(g, p, |l: WorkerLoc| l is OnGear, 6);
}

// ---- begging -------------------------------------------------------------

/// A seat may always start without begging, and may beg on a temple exactly where
/// it has fewer than three corn and stands above the bottom.
pub proof fn only_the_poor_may_beg(rules: Rulebook, g: GameState, p: PlayerId, t: Temple)
    requires
        p.ok(),
    ensures
        beg_list(rules, g, p).contains(None),
        beg_list(rules, g, p).contains(Some(t)) <==> g.players[p.0 as int].corn < 3 && mark(g, p, t)
            > 0,
        beg_list(rules, g, p)[0] is None,
{
    let f = begs(rules, g, p);
    let first = seq![None::<Temple>];
    let more: Seq<Option<Temple>> = if g.players[p.0 as int].corn < 3 {
        flat(3, f)
    } else {
        Seq::empty()
    };
    assert(beg_list(rules, g, p) == first + more);
    assert((first + more)[0] == None::<Temple>);
    lemma_in_both(first, more, Some(t));
    lemma_in_flat(3, f, Some(t));
    assert forall|i: int| 0 <= i < 3 implies (#[trigger] f(i).contains(Some(t)) <==> mark(
        g,
        p,
        Temple::at(i),
    ) > 0 && t == Temple::at(i)) by {
        lemma_may_step(rules, g, p, Temple::at(i));
        lemma_in_only(
            can_step(rules, g, p, Temple::at(i), -1),
            Some(Temple::at(i)),
            Some(t),
        );
    }
    if mark(g, p, t) > 0 {
        let i = t.rank();
        assert(Temple::at(i) == t);
        assert(f(i).contains(Some(t)));
    }
}

// ---- placements ----------------------------------------------------------

/// What a spot costs by itself: its number on the gear, and nothing for the first
/// player space.
pub open spec fn spot_price(spot: Placement) -> int {
    match spot {
        Placement::Gear(_, pos) => pos.0 as int,
        Placement::FirstPlayer => 0,
    }
}

/// What placements cost from the `n`-th on: each its spot, and nothing more for the
/// first, one more for the second, two more for the third and so on.
pub open spec fn price_from(v: Seq<(WorkerId, Placement)>, n: int) -> int
    decreases v.len() - n,
{
    if n < 0 || n >= v.len() {
        0
    } else {
        n + spot_price(v[n].1) + price_from(v, n + 1)
    }
}

/// Whether a placement fits in the position that those before it leave: the worker
/// is in hand, and may go where it goes.
pub open spec fn fits(g: GameState, v: Seq<(WorkerId, Placement)>, i: int) -> bool {
    let h = placed_all(g, v.take(i));
    h.workers[v[i].0.0 as int] == WorkerLoc::Available && may_go(h, v[i].1)
}

proof fn lemma_next(g: GameState, v: Seq<(WorkerId, Placement)>, n: int)
    requires
        0 <= n < v.len(),
    ensures
        placed_all(g, v.take(n + 1)) == put_at(placed_all(g, v.take(n)), v[n].0, v[n].1),
{
    assert(v.take(n + 1).drop_last() =~= v.take(n));
}

proof fn lemma_placing_fault(
    g: GameState,
    v: Seq<(WorkerId, Placement)>,
    n: int,
    cost: int,
    claimed: u8,
)
    requires
        0 <= n <= v.len(),
    ensures
        placing_fault(placed_all(g, v.take(n)), v, n, cost, claimed) is None <==> cost + price_from(
            v,
            n,
        ) == claimed && forall|i: int| n <= i < v.len() ==> #[trigger] fits(g, v, i),
    decreases v.len() - n,
{
    if n < v.len() {
        let h = placed_all(g, v.take(n));
        let (w, spot) = v[n];
        lemma_next(g, v, n);
        lemma_placing_fault(g, v, n + 1, cost + n + spot.cost(), claimed);
        if let Placement::Gear(gear, pos) = spot {
            lemma_lowest(h, gear, 0, pos);
        }
        if fits(g, v, n) && (forall|i: int| n + 1 <= i < v.len() ==> #[trigger] fits(g, v, i)) {
            assert forall|i: int| n <= i < v.len() implies #[trigger] fits(g, v, i) by {}
        }
        if forall|i: int| n <= i < v.len() ==> #[trigger] fits(g, v, i) {
            assert(fits(g, v, n));
        }
    }
}

/// Whether a seat may start its turn this way.
pub open spec fn may_start(g: GameState, p: PlayerId, beg: Option<Temple>) -> bool {
    beg matches Some(t) ==> g.players[p.0 as int].corn < 3 && mark(g, p, t) > 0
}

/// What a seat has to spend once it has started its turn.
pub open spec fn hand_after(g: GameState, p: PlayerId, beg: Option<Temple>) -> int {
    if beg is Some {
        3
    } else {
        g.players[p.0 as int].corn as int
    }
}

/// A placement move is legal exactly where the seat may start that way, places
/// somebody, claims what the placements cost and has it, and every placement fits.
pub proof fn placements_are_legal_where_they_fit_and_are_paid(
    rules: Rulebook,
    g: GameState,
    p: PlayerId,
    m: Play,
    v: Seq<(WorkerId, Placement)>,
)
    requires
        p.ok(),
        m.kind == Kind::Place(v),
    ensures
        fault_of(rules, g, p, m) is None <==> may_start(g, p, m.beg) && v.len() > 0 && m.corn_cost
            == price_from(v, 0) && m.corn_cost <= hand_after(g, p, m.beg) && forall|i: int|
            0 <= i < v.len() ==> #[trigger] fits(begged(rules, g, p, m.beg), v, i),
{
    let h = begged(rules, g, p, m.beg);
    if let Some(t) = m.beg {
        lemma_may_step(rules, g, p, t);
    }
    assert(v.take(0) =~= Seq::<(WorkerId, Placement)>::empty());
    assert(placed_all(h, v.take(0)) == h);
    lemma_placing_fault(h, v, 0, 0, m.corn_cost);
}

/// What a placement costs does not depend on what else is placed after it, and no
/// more is paid early than in the end.
proof fn lemma_price_prefix(v: Seq<(WorkerId, Placement)>, w: Seq<(WorkerId, Placement)>, n: int)
    requires
        0 <= n <= v.len() <= w.len(),
        w.take(v.len() as int) == v,
    ensures
        price_from(w, n) == price_from(v, n) + price_from(w, v.len() as int),
        price_from(v, n) >= 0,
    decreases v.len() - n,
{
    if n < v.len() {
        lemma_price_prefix(v, w, n + 1);
        assert(v[n] == w.take(v.len() as int)[n]);
    }
}

proof fn lemma_price_nonnegative(v: Seq<(WorkerId, Placement)>, n: int)
    requires
        0 <= n,
    ensures
        price_from(v, n) >= 0,
    decreases v.len() - n,
{
    if n < v.len() {
        lemma_price_nonnegative(v, n + 1);
    }
}

/// Whether a move places the first workers of a list, in order, on spots they may
/// go to one after another, for what that costs, within a budget.
pub open spec fn places_in_order(
    g: GameState,
    avail: Seq<WorkerId>,
    budget: int,
    beg: Option<Temple>,
    v: Seq<(WorkerId, Placement)>,
    m: Play,
) -> bool {
    &&& m.kind == Kind::Place(v)
    &&& m.beg == beg
    &&& 0 < v.len() <= avail.len()
    &&& m.corn_cost == price_from(v, 0)
    &&& price_from(v, 0) <= budget
    &&& forall|i: int| 0 <= i < v.len() ==> (#[trigger] v[i]).0 == avail[i] && may_go(
        placed_all(g, v.take(i)),
        v[i].1,
    )
}

proof fn lemma_in_places(
    g: GameState,
    avail: Seq<WorkerId>,
    cost: int,
    budget: int,
    beg: Option<Temple>,
    cur: Seq<(WorkerId, Placement)>,
    m: Play,
)
    requires
        cur.len() <= avail.len(),
        cost == price_from(cur, 0),
        0 <= cost <= budget <= 255,
        forall|i: int| 0 <= i < cur.len() ==> (#[trigger] cur[i]).0 == avail[i] && may_go(
            placed_all(g, cur.take(i)),
            cur[i].1,
        ),
    ensures
        place_list(placed_all(g, cur), avail, cost, budget, beg, cur).contains(m) <==> (m.kind matches Kind::Place(
            v,
        ) && v.len() >= cur.len() && v.take(cur.len() as int) == cur && places_in_order(
            g,
            avail,
            budget,
            beg,
            v,
            m,
        )),
    decreases avail.len() - cur.len(),
{
    let here = Play { kind: Kind::Place(cur), beg, corn_cost: cost as u8 };
    let head = only(cur.len() > 0, here);
    let h = placed_all(g, cur);
    let k = cur.len() as int;
    lemma_in_only(cur.len() > 0, here, m);
    assert(cur.take(k) =~= cur);
    let v = m.kind->Place_0;
    if k < avail.len() {
        let f = place_each(h, avail, cost, budget, beg, cur);
        let n = spots_list(h).len() as int;
        lemma_in_both(head, flat(n, f), m);
        lemma_in_flat(n, f, m);
        assert forall|i: int| 0 <= i < n implies (#[trigger] f(i).contains(m) <==> (m.kind matches Kind::Place(
            v,
        ) && v.len() >= k + 1 && v.take(k + 1) == cur.push((avail[k], spots_list(h)[i]))
            && places_in_order(g, avail, budget, beg, v, m))) by {
            let spot = spots_list(h)[i];
            let more = cur.push((avail[k], spot));
            assert(spots_list(h).contains(spot));
            spots_are_the_lowest_free_spaces(h, spot);
            lemma_more(g, avail, cur, spot);
            if cost + k + spot.cost() <= budget {
                lemma_in_places(g, avail, cost + (k + spot.cost()), budget, beg, more, m);
            } else if m.kind is Place && v.len() >= k + 1 && v.take(k + 1) == more {
                lemma_price_prefix(more, v, 0);
                lemma_price_nonnegative(v, k + 1);
            }
        }
        if flat(n, f).contains(m) {
            let i = choose|i: int| 0 <= i < n && #[trigger] f(i).contains(m);
            let more = cur.push((avail[k], spots_list(h)[i]));
            assert(v.take(k) =~= v.take(k + 1).take(k));
            assert(more.take(k) =~= cur);
        }
        if m.kind is Place && v.len() >= k && v.take(k) == cur && places_in_order(
            g,
            avail,
            budget,
            beg,
            v,
            m,
        ) {
            if v.len() == k {
                assert(v =~= cur);
            } else {
                assert(v[k].0 == avail[k] && may_go(placed_all(g, v.take(k)), v[k].1));
                spots_are_the_lowest_free_spaces(h, v[k].1);
                let i = spots_list(h).index_of(v[k].1);
                assert(v.take(k + 1) =~= cur.push((avail[k], spots_list(h)[i])));
                assert(f(i).contains(m));
            }
        }
    } else {
        lemma_in_both(head, Seq::empty(), m);
        if m.kind is Place && v.len() >= k && v.take(k) == cur && places_in_order(
            g,
            avail,
            budget,
            beg,
            v,
            m,
        ) {
            assert(v =~= cur);
        }
    }
}

proof fn lemma_more(
    g: GameState,
    avail: Seq<WorkerId>,
    cur: Seq<(WorkerId, Placement)>,
    spot: Placement,
)
    requires
        cur.len() < avail.len(),
        may_go(placed_all(g, cur), spot),
        forall|i: int| 0 <= i < cur.len() ==> (#[trigger] cur[i]).0 == avail[i] && may_go(
            placed_all(g, cur.take(i)),
            cur[i].1,
        ),
    ensures
        ({
            let k = cur.len() as int;
            let more = cur.push((avail[k], spot));
            &&& placed_all(g, more) == put_at(placed_all(g, cur), avail[k], spot)
            &&& price_from(more, 0) == price_from(cur, 0) + k + spot.cost()
            &&& forall|i: int| 0 <= i < more.len() ==> (#[trigger] more[i]).0 == avail[i] && may_go(
                placed_all(g, more.take(i)),
                more[i].1,
            )
        }),
{
    let k = cur.len() as int;
    let more = cur.push((avail[k], spot));
    assert(more.drop_last() =~= cur);
    assert(more.take(k) =~= cur);
    lemma_price_prefix(cur, more, 0);
    assert(price_from(more, k) == k + spot_price(spot) + price_from(more, k + 1));
    assert forall|i: int| 0 <= i < more.len() implies (#[trigger] more[i]).0 == avail[i] && may_go(
        placed_all(g, more.take(i)),
        more[i].1,
    ) by {
        if i < k {
            assert(cur[i].0 == avail[i] && may_go(placed_all(g, cur.take(i)), cur[i].1));
            assert(more.take(i) =~= cur.take(i));
        }
    }
}

/// The placements that generation finds after a start of the turn are exactly those
/// that put the workers in hand down in order, on spots they may go to, for what it
/// costs, which is no more than the seat has.
pub proof fn every_affordable_placement_is_found(
    rules: Rulebook,
    g: GameState,
    p: PlayerId,
    beg: Option<Temple>,
    m: Play,
)
    requires
        p.ok(),
    ensures
        ({
            let h = begged(rules, g, p, beg);
            place_list(
                h,
                available_list(h, p),
                0,
                hand_after(g, p, beg),
                beg,
                Seq::empty(),
            ).contains(m) <==> exists|v: Seq<(WorkerId, Placement)>| #[trigger]
                places_in_order(h, available_list(h, p), hand_after(g, p, beg), beg, v, m)
        }),
        begged(rules, g, p, beg).players[p.0 as int].corn == hand_after(g, p, beg),
{
    let h = begged(rules, g, p, beg);
    let none = Seq::<(WorkerId, Placement)>::empty();
    assert(placed_all(h, none) == h);
    assert(price_from(none, 0) == 0);
    lemma_in_places(h, available_list(h, p), 0, hand_after(g, p, beg), beg, none, m);
    if exists|v: Seq<(WorkerId, Placement)>| #[trigger]
        places_in_order(h, available_list(h, p), hand_after(g, p, beg), beg, v, m) {
        let v = choose|v: Seq<(WorkerId, Placement)>| #[trigger]
            places_in_order(h, available_list(h, p), hand_after(g, p, beg), beg, v, m);
        assert(v.take(0) =~= none);
    }
    if place_list(h, available_list(h, p), 0, hand_after(g, p, beg), beg, none).contains(m) {
        let v = m.kind->Place_0;
        assert(places_in_order(h, available_list(h, p), hand_after(g, p, beg), beg, v, m));
    }
}

// ---- retrievals ----------------------------------------------------------

/// Whether a retrieval can be made in the position that those before it leave: the
/// worker stands on a gear, and what it does can be paid for.
pub open spec fn can_take(
    rules: Rulebook,
    g: GameState,
    p: PlayerId,
    v: Seq<(WorkerId, Seq<Effect>)>,
    i: int,
) -> bool {
    let h = taken_all(rules, g, p, v.take(i));
    h.workers[v[i].0.0 as int] is OnGear && affordable_all(rules, h, p, v[i].1)
}

proof fn lemma_taking_fault(
    rules: Rulebook,
    g: GameState,
    p: PlayerId,
    v: Seq<(WorkerId, Seq<Effect>)>,
    n: int,
)
    requires
        0 <= n <= v.len(),
    ensures
        taking_fault(rules, taken_all(rules, g, p, v.take(n)), p, v, n) is None <==> forall|i: int|
            n <= i < v.len() ==> #[trigger] can_take(rules, g, p, v, i),
    decreases v.len() - n,
{
    if n < v.len() {
        assert(v.take(n + 1).drop_last() =~= v.take(n));
        lemma_taking_fault(rules, g, p, v, n + 1);
        if can_take(rules, g, p, v, n) && (forall|i: int|
            n + 1 <= i < v.len() ==> #[trigger] can_take(rules, g, p, v, i)) {
            assert forall|i: int| n <= i < v.len() implies #[trigger] can_take(rules, g, p, v, i) by {}
        }
        if forall|i: int| n <= i < v.len() ==> #[trigger] can_take(rules, g, p, v, i) {
            assert(can_take(rules, g, p, v, n));
        }
    }
}

/// A retrieval move is legal exactly where the seat may start that way, picks
/// somebody up, and can make each retrieval when it comes to it.
pub proof fn retrievals_are_legal_where_each_can_be_made(
    rules: Rulebook,
    g: GameState,
    p: PlayerId,
    m: Play,
    v: Seq<(WorkerId, Seq<Effect>)>,
)
    requires
        p.ok(),
        m.kind == Kind::Retrieve(v),
    ensures
        fault_of(rules, g, p, m) is None <==> may_start(g, p, m.beg) && v.len() > 0 && forall|i: int|
            0 <= i < v.len() ==> #[trigger] can_take(rules, begged(rules, g, p, m.beg), p, v, i),
{
    let h = begged(rules, g, p, m.beg);
    if let Some(t) = m.beg {
        lemma_may_step(rules, g, p, t);
    }
    assert(v.take(0) =~= Seq::<(WorkerId, Seq<Effect>)>::empty());
    assert(taken_all(rules, h, p, v.take(0)) == h);
    lemma_taking_fault(rules, h, p, v, 0);
}

// ---- pity ----------------------------------------------------------------

proof fn lemma_cheapest(s: Seq<Placement>, k: int)
    requires
        0 <= k <= s.len(),
    ensures
        forall|i: int| k <= i < s.len() ==> cheapest(s, k) <= spot_price(#[trigger] s[i]),
        k < s.len() ==> exists|i: int| k <= i < s.len() && cheapest(s, k) == spot_price(#[trigger] s[i]),
    decreases s.len() - k,
{
    if k < s.len() {
        lemma_cheapest(s, k + 1);
        assert(spot_price(s[k]) == s[k].cost());
        if s[k].cost() < cheapest(s, k + 1) {
            assert(cheapest(s, k) == spot_price(s[k]));
        } else if k + 1 < s.len() {
            let i = choose|i: int|
                k + 1 <= i < s.len() && cheapest(s, k + 1) == spot_price(#[trigger] s[i]);
            assert(cheapest(s, k) == spot_price(s[i]));
        } else {
            assert(cheapest(s, k + 1) == 255);
            assert(s[k].cost() == 255);
            assert(cheapest(s, k) == spot_price(s[k]));
        }
    }
}

/// A seat in pity puts its first worker in hand on a spot that none is cheaper
/// than, for all its corn and without begging; every such spot is offered.
pub proof fn pity_is_for_the_cheapest_spots(g: GameState, p: PlayerId, m: Play)
    requires
        p.ok(),
    ensures
        pity_list(g, p).contains(m) <==> available_list(g, p).len() > 0 && m.beg is None
            && m.corn_cost == g.players[p.0 as int].corn && (m.kind matches Kind::Pity(w, spot) && w
            == available_list(g, p)[0] && may_go(g, spot) && forall|other: Placement| #[trigger]
            may_go(g, other) ==> spot_price(spot) <= spot_price(other)),
{
    let avail = available_list(g, p);
    if avail.len() > 0 {
        let spots = spots_list(g);
        let f = pities(g, p, avail[0]);
        let n = spots.len() as int;
        lemma_in_flat(n, f, m);
        lemma_cheapest(spots, 0);
        let least = cheapest(spots, 0);
        assert forall|i: int| 0 <= i < n implies (#[trigger] f(i).contains(m) <==> spot_price(
            spots[i],
        ) == least && m == (Play {
            kind: Kind::Pity(avail[0], spots[i]),
            beg: None,
            corn_cost: g.players[p.0 as int].corn,
        })) by {
            lemma_in_only(
                spots[i].cost() == least,
                Play {
                    kind: Kind::Pity(avail[0], spots[i]),
                    beg: None,
                    corn_cost: g.players[p.0 as int].corn,
                },
                m,
            );
        }
        assert forall|s: Placement| #[trigger] may_go(g, s) implies least <= spot_price(s) by {
            spots_are_the_lowest_free_spaces(g, s);
            assert(spots[spots.index_of(s)] == s);
        }
        if flat(n, f).contains(m) {
            let i = choose|i: int| 0 <= i < n && #[trigger] f(i).contains(m);
            assert(spots.contains(spots[i]));
            spots_are_the_lowest_free_spaces(g, spots[i]);
        }
        if m.kind matches Kind::Pity(w, spot) && w == avail[0] && m.beg is None && m.corn_cost
            == g.players[p.0 as int].corn && may_go(g, spot) && (forall|other: Placement| #[trigger]
            may_go(g, other) ==> spot_price(spot) <= spot_price(other)) {
            let spot = m.kind->Pity_1;
            spots_are_the_lowest_free_spaces(g, spot);
            let i = spots.index_of(spot);
            let j = choose|j: int| 0 <= j < n && least == spot_price(#[trigger] spots[j]);
            assert(spots.contains(spots[j]));
            spots_are_the_lowest_free_spaces(g, spots[j]);
            assert(may_go(g, spots[j]));
            assert(least <= spot_price(spots[i]));
            assert(f(i).contains(m));
        }
    } else {
        assert(!pity_list(g, p).contains(m));
    }
}

/// A pity move is legal exactly where the seat may start that way, has no ordinary
/// move, and puts a worker that is in hand on the lowest free space of a gear or
/// first in line.
pub proof fn pity_is_legal_where_nothing_else_is(
    rules: Rulebook,
    g: GameState,
    p: PlayerId,
    m: Play,
    w: WorkerId,
    spot: Placement,
)
    requires
        p.ok(),
        m.kind == Kind::Pity(w, spot),
    ensures
        fault_of(rules, g, p, m) is None <==> may_start(g, p, m.beg) && normal_list(
            rules,
            g,
            p,
        ).len() == 0 && g.workers[w.0 as int] == WorkerLoc::Available && (spot matches Placement::Gear(
            gear,
            pos,
        ) ==> lowest_space(g, gear, pos)),
{
    let h = begged(rules, g, p, m.beg);
    if let Some(t) = m.beg {
        lemma_may_step(rules, g, p, t);
    }
    assert(h.workers == g.workers && h.gears == g.gears);
    if let Placement::Gear(gear, pos) = spot {
        lemma_lowest(h, gear, 0, pos);
    }
}

/// The legal moves are the ordinary ones, and those of pity only where there is no
/// ordinary one.
pub proof fn pity_comes_only_where_nothing_else_can_be_done(
    rules: Rulebook,
    g: GameState,
    p: PlayerId,
)
    ensures
        normal_list(rules, g, p).len() > 0 ==> legal_list(rules, g, p) == normal_list(rules, g, p),
        normal_list(rules, g, p).len() == 0 ==> legal_list(rules, g, p) == pity_list(g, p),
{
}

} // verus!
