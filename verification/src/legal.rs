//! Playing moves and checking them.

use crate::book::{effects_ok, Rulebook};
use crate::effect::{affordable_all, after_all, Choice, Effect};
use crate::ids::{Gear, PlayerId, Pos, Temple, WorkerId};
use crate::moves::{
    begged, has_normal_move, normal_list, put_at, Kind, Move, MoveKind, Placement, Placements,
    Play, Retrievals,
};
use crate::lists::{flat, only};
use crate::moves::{
    beg_list, begs, gear_spots, legal_list, load, normal_upto, picking_up_lightens_the_gears,
    pities, pity_list, place_each, place_list, retrieve_over, retrieve_taking, retrieve_walk, spots_list,
    worker_list, workers_ok,
};
use crate::moves::{
    do_beg, lemma_begged_ok, lemma_retrieved_ok, lemma_workers_where, put_worker,
};
use crate::state::{
    available_list, board_list, can_step, lowest_free_space, retrieved, set_player, workers_where,
    GameState, Player, WorkerLoc,
};
use vstd::prelude::*;

verus! {

// ---- playing a move ------------------------------------------------------

/// A position after workers are placed one by one.
pub open spec fn placed_all(g: GameState, v: Seq<(WorkerId, Placement)>) -> GameState
    decreases v.len(),
{
    if v.len() == 0 {
        g
    } else {
        put_at(placed_all(g, v.drop_last()), v.last().0, v.last().1)
    }
}

/// A position after workers are picked up one by one, each doing its choice.
pub open spec fn taken_all(
    rules: Rulebook,
    g: GameState,
    p: PlayerId,
    v: Seq<(WorkerId, Seq<Effect>)>,
) -> GameState
    decreases v.len(),
{
    if v.len() == 0 {
        g
    } else {
        let h = taken_all(rules, g, p, v.drop_last());
        retrieved(after_all(rules, h, p, v.last().1), v.last().0)
    }
}

/// A position with a seat's corn set.
pub open spec fn corn_set(g: GameState, p: PlayerId, corn: u8) -> GameState {
    let pl = g.players[p.0 as int];
    set_player(g, p, Player { corn, ..pl })
}

/// A position after a move.
pub open spec fn played(rules: Rulebook, g: GameState, p: PlayerId, m: Play) -> GameState {
    let h = begged(rules, g, p, m.beg);
    let corn = h.players[p.0 as int].corn;
    match m.kind {
        Kind::Place(v) => placed_all(
            corn_set(
                h,
                p,
                if corn >= m.corn_cost {
                    (corn - m.corn_cost) as u8
                } else {
                    0
                },
            ),
            v,
        ),
        Kind::Retrieve(v) => taken_all(rules, h, p, v),
        Kind::Pity(w, spot) => put_at(corn_set(h, p, 0), w, spot),
    }
}

/// Whether placements name only workers and spaces that exist.
pub open spec fn placements_ok(v: Seq<(WorkerId, Placement)>) -> bool {
    forall|i: int| 0 <= i < v.len() ==> (#[trigger] v[i]).0.ok() && v[i].1.ok()
}

/// Whether retrievals name only workers, spaces and cards that exist.
pub open spec fn retrievals_ok(v: Seq<(WorkerId, Seq<Effect>)>) -> bool {
    forall|i: int| 0 <= i < v.len() ==> (#[trigger] v[i]).0.ok() && effects_ok(v[i].1)
}

/// Whether a move names only workers, spaces and cards that exist.
pub open spec fn play_ok(m: Play) -> bool {
    match m.kind {
        Kind::Place(v) => placements_ok(v),
        Kind::Retrieve(v) => retrievals_ok(v),
        Kind::Pity(w, spot) => w.ok() && spot.ok(),
    }
}

fn spot_exists(spot: Placement) -> (b: bool)
    ensures
        b == spot.ok(),
{
    match spot {
        Placement::Gear(Gear::Chichen, pos) => pos.0 < 11,
        Placement::Gear(_, pos) => pos.0 < 8,
        Placement::FirstPlayer => true,
    }
}

pub(crate) fn effect_exists(e: Effect) -> (b: bool)
    ensures
        b == e.ok(),
{
    match e {
        Effect::TakePalenqueTile(pos, _) => pos.0 < 8,
        Effect::BurnPalenqueWood(pos) => pos.0 < 8,
        Effect::FillChichen(pos) => pos.0 < 16,
        Effect::Build(id) => 1 <= id.0 && id.0 <= 32,
        Effect::TakeMonument(id) => 1 <= id.0 && id.0 <= 13,
        _ => true,
    }
}

fn choice_exists(c: &Choice) -> (b: bool)
    ensures
        b == effects_ok(c@),
{
    let n: usize = c.0.len();
    let mut i: usize = 0;
    while i < n
        invariant
            i <= n,
            n == c@.len(),
            forall|j: int| 0 <= j < i ==> (#[trigger] c@[j]).ok(),
        decreases n - i,
    {
        let e = c.0.at(i);
        assert(e == c@[i as int]);
        if !effect_exists(e) {
            return false;
        }
        i += 1;
    }
    true
}

fn placements_exist(v: &Placements) -> (b: bool)
    ensures
        b == placements_ok(v@),
{
    let n: usize = v.len();
    let mut i: usize = 0;
    while i < n
        invariant
            i <= n,
            n == v@.len(),
            forall|j: int| 0 <= j < i ==> (#[trigger] v@[j]).0.ok() && v@[j].1.ok(),
        decreases n - i,
    {
        let (w, spot) = v.at(i);
        assert((w, spot) == v@[i as int]);
        if w.0 >= 24 || !spot_exists(spot) {
            return false;
        }
        i += 1;
    }
    true
}

fn retrievals_exist(v: &Retrievals) -> (b: bool)
    ensures
        b == retrievals_ok(v@),
{
    let n: usize = v.len();
    let mut i: usize = 0;
    while i < n
        invariant
            i <= n,
            n == v@.len(),
            forall|j: int| 0 <= j < i ==> (#[trigger] v@[j]).0.ok() && effects_ok(v@[j].1),
        decreases n - i,
    {
        let e = v.at(i);
        assert(v@[i as int] == (e.0, e.1@));
        if e.0.0 >= 24 || !choice_exists(&e.1) {
            return false;
        }
        i += 1;
    }
    true
}

/// Whether a move names only workers, spaces and cards that exist, and so can be
/// played.
pub fn playable(m: &Move) -> (b: bool)
    ensures
        b == play_ok(m@),
{
    match &m.kind {
        MoveKind::Place(v) => placements_exist(v),
        MoveKind::Retrieve(v) => retrievals_exist(v),
        MoveKind::Pity { worker, spot } => worker.0 < 24 && spot_exists(*spot),
    }
}

fn set_corn(g: &mut GameState, p: PlayerId, corn: u8)
    requires
        p.ok(),
    ensures
        *final(g) == corn_set(*old(g), p, corn),
        old(g).ok() ==> final(g).ok(),
{
    g.players[p.idx()].corn = corn;
    assert(g.players =~= corn_set(*old(g), p, corn).players);
}

fn place_all(g: &mut GameState, v: &Placements)
    requires
        placements_ok(v@),
    ensures
        *final(g) == placed_all(*old(g), v@),
        old(g).ok() ==> final(g).ok(),
{
    let n: usize = v.len();
    let mut i: usize = 0;
    while i < n
        invariant
            i <= n,
            n == v@.len(),
            placements_ok(v@),
            *g == placed_all(*old(g), v@.take(i as int)),
            old(g).ok() ==> g.ok(),
        decreases n - i,
    {
        let (w, spot) = v.at(i);
        assert(v@[i as int].0.ok());
        put_worker(g, w, spot);
        i += 1;
        assert(v@.take(i as int).drop_last() =~= v@.take(i - 1));
    }
    assert(v@.take(n as int) =~= v@);
}

fn take_all(rules: &Rulebook, g: &mut GameState, p: PlayerId, v: &Retrievals)
    requires
        p.ok(),
        old(g).ok(),
        retrievals_ok(v@),
    ensures
        *final(g) == taken_all(*rules, *old(g), p, v@),
        final(g).ok(),
{
    let n: usize = v.len();
    let mut i: usize = 0;
    while i < n
        invariant
            i <= n,
            p.ok(),
            n == v@.len(),
            retrievals_ok(v@),
            *g == taken_all(*rules, *old(g), p, v@.take(i as int)),
            g.ok(),
        decreases n - i,
    {
        let e = v.at(i);
        assert(v@[i as int] == (e.0, e.1@));
        proof {
            lemma_retrieved_ok(*rules, *g, p, e.1@, e.0);
        }
        e.1.apply(rules, g, p);
        g.retrieve_worker(e.0);
        i += 1;
        assert(v@.take(i as int).drop_last() =~= v@.take(i - 1));
    }
    assert(v@.take(n as int) =~= v@);
}

/// Play a move.
pub fn apply_move(rules: &Rulebook, g: &mut GameState, p: PlayerId, m: &Move)
    requires
        p.ok(),
        old(g).ok(),
        play_ok(m@),
    ensures
        *final(g) == played(*rules, *old(g), p, m@),
        final(g).ok(),
{
    proof {
        lemma_begged_ok(*rules, *g, p, m.beg);
    }
    do_beg(rules, g, p, m.beg);
    match &m.kind {
        MoveKind::Place(v) => {
            let corn: u8 = g.players[p.idx()].corn;
            let left: u8 = if corn >= m.corn_cost {
                corn - m.corn_cost
            } else {
                0
            };
            set_corn(g, p, left);
            place_all(g, v);
        },
        MoveKind::Retrieve(v) => take_all(rules, g, p, v),
        MoveKind::Pity { worker, spot } => {
            set_corn(g, p, 0);
            put_worker(g, *worker, *spot);
        },
    }
}

// ---- checking a move -----------------------------------------------------

/// What is wrong with a move.
#[derive(Clone, Copy, PartialEq, Eq, Debug, Structural)]
pub enum Fault {
    /// Begged while holding three corn or more.
    BeggedRich(Temple),
    /// Begged from the bottom of the track.
    BeggedBottom(Temple),
    /// A placement move with no workers.
    NoPlacements,
    /// A placement that costs more corn than the seat has.
    TooDear { cost: u8, have: u8 },
    /// Placed a worker that is not in hand.
    NotInHand { worker: WorkerId, loc: WorkerLoc },
    /// Placed on a space that is not the lowest free one of its gear.
    NotLowest { gear: Gear, pos: Pos },
    /// Placed on the first player space while somebody holds it.
    FirstTaken,
    /// Claims a corn cost other than what the placements cost.
    WrongCost { claimed: u8, real: u64 },
    /// Pity taken while an ordinary move exists.
    PityNotDue,
    /// Pity taken with a worker that is not in hand.
    PityNotInHand(WorkerId),
    /// Pity taken on a space that is not the lowest free one of its gear.
    PityNotLowest,
    /// A retrieval move with no workers.
    NoRetrievals,
    /// Picked up a worker that is not on a gear.
    NotOnGear { worker: WorkerId, loc: WorkerLoc },
    /// A choice whose payments cannot all be met.
    Unaffordable(WorkerId),
}

/// What is wrong with begging, if anything.
pub open spec fn beg_fault(rules: Rulebook, g: GameState, p: PlayerId, beg: Option<Temple>) -> Option<
    Fault,
> {
    match beg {
        Some(t) => if g.players[p.0 as int].corn >= 3 {
            Some(Fault::BeggedRich(t))
        } else if !can_step(rules, g, p, t, -1) {
            Some(Fault::BeggedBottom(t))
        } else {
            None
        },
        None => None,
    }
}

/// What is wrong with the placements from the `n`-th on, if anything, once
/// those before it have cost `cost`.
pub open spec fn placing_fault(
    g: GameState,
    v: Seq<(WorkerId, Placement)>,
    n: int,
    cost: int,
    claimed: u8,
) -> Option<Fault>
    decreases v.len() - n,
{
    if n < 0 || n >= v.len() {
        if cost != claimed {
            Some(Fault::WrongCost { claimed, real: cost as u64 })
        } else {
            None
        }
    } else {
        let (w, spot) = v[n];
        if g.workers[w.0 as int] != WorkerLoc::Available {
            Some(Fault::NotInHand { worker: w, loc: g.workers[w.0 as int] })
        } else {
            match spot {
                Placement::Gear(gear, pos) => if lowest_free_space(g, gear) != Some(pos) {
                    Some(Fault::NotLowest { gear, pos })
                } else {
                    placing_fault(put_at(g, w, spot), v, n + 1, cost + n + spot.cost(), claimed)
                },
                Placement::FirstPlayer => if g.first_player_space is Some {
                    Some(Fault::FirstTaken)
                } else {
                    placing_fault(put_at(g, w, spot), v, n + 1, cost + n + spot.cost(), claimed)
                },
            }
        }
    }
}

/// What is wrong with the retrievals from the `n`-th on, if anything.
pub open spec fn taking_fault(
    rules: Rulebook,
    g: GameState,
    p: PlayerId,
    v: Seq<(WorkerId, Seq<Effect>)>,
    n: int,
) -> Option<Fault>
    decreases v.len() - n,
{
    if n < 0 || n >= v.len() {
        None
    } else {
        let (w, s) = v[n];
        if !(g.workers[w.0 as int] is OnGear) {
            Some(Fault::NotOnGear { worker: w, loc: g.workers[w.0 as int] })
        } else if !affordable_all(rules, g, p, s) {
            Some(Fault::Unaffordable(w))
        } else {
            taking_fault(rules, retrieved(after_all(rules, g, p, s), w), p, v, n + 1)
        }
    }
}

/// What is wrong with a pity move, if anything.
pub open spec fn pity_fault(
    rules: Rulebook,
    g: GameState,
    h: GameState,
    p: PlayerId,
    w: WorkerId,
    spot: Placement,
) -> Option<Fault> {
    if normal_list(rules, g, p).len() > 0 {
        Some(Fault::PityNotDue)
    } else if h.workers[w.0 as int] != WorkerLoc::Available {
        Some(Fault::PityNotInHand(w))
    } else {
        match spot {
            Placement::Gear(gear, pos) => if lowest_free_space(h, gear) != Some(pos) {
                Some(Fault::PityNotLowest)
            } else {
                None
            },
            Placement::FirstPlayer => None,
        }
    }
}

/// What is wrong with a move, if anything: the first thing found, paying for
/// it step by step and clamping nothing.
pub open spec fn fault_of(rules: Rulebook, g: GameState, p: PlayerId, m: Play) -> Option<Fault> {
    match beg_fault(rules, g, p, m.beg) {
        Some(f) => Some(f),
        None => {
            let h = begged(rules, g, p, m.beg);
            let corn = h.players[p.0 as int].corn;
            match m.kind {
                Kind::Place(v) => if v.len() == 0 {
                    Some(Fault::NoPlacements)
                } else if corn < m.corn_cost {
                    Some(Fault::TooDear { cost: m.corn_cost, have: corn })
                } else {
                    placing_fault(h, v, 0, 0, m.corn_cost)
                },
                Kind::Retrieve(v) => if v.len() == 0 {
                    Some(Fault::NoRetrievals)
                } else {
                    taking_fault(rules, h, p, v, 0)
                },
                Kind::Pity(w, spot) => pity_fault(rules, g, h, p, w, spot),
            }
        },
    }
}

fn check_places(g: &GameState, v: &Placements, claimed: u8) -> (r: Result<(), Fault>)
    requires
        g.ok(),
        forall|i: int| 0 <= i < v@.len() ==> (#[trigger] v@[i]).0.ok(),
    ensures
        match placing_fault(*g, v@, 0, 0, claimed) {
            Some(f) => r == Err::<(), Fault>(f),
            None => r is Ok,
        },
{
    let mut probe = *g;
    proof {
        lemma_in_hand_most(probe, 24);
    }
    let mut cost: u64 = 0;
    let n: usize = v.len();
    let mut i: usize = 0;
    while i < n
        invariant
            i <= n,
            n == v@.len(),
            probe.ok(),
            forall|i: int| 0 <= i < v@.len() ==> (#[trigger] v@[i]).0.ok(),
            in_hand(probe, 24) + i <= 24,
            cost <= 40 * i,
            placing_fault(*g, v@, 0, 0, claimed) == placing_fault(
                probe,
                v@,
                i as int,
                cost as int,
                claimed,
            ),
        decreases n - i,
    {
        let (w, spot) = v.at(i);
        assert(v@[i as int].0.ok());
        let loc = probe.loc(w);
        if loc != WorkerLoc::Available {
            return Err(Fault::NotInHand { worker: w, loc });
        }
        let ghost was = probe;
        match spot {
            Placement::Gear(gear, pos) => {
                match probe.lowest_free(gear) {
                    Some(q) => {
                        if q != pos {
                            return Err(Fault::NotLowest { gear, pos });
                        }
                    },
                    None => {
                        return Err(Fault::NotLowest { gear, pos });
                    },
                }
            },
            Placement::FirstPlayer => {
                if probe.first_player_space.is_some() {
                    return Err(Fault::FirstTaken);
                }
            },
        }
        put_worker(&mut probe, w, spot);
        proof {
            lemma_in_hand(was, w, spot, 24);
        }
        cost = cost + i as u64 + spot.space_cost() as u64;
        i += 1;
    }
    if cost != claimed as u64 {
        return Err(Fault::WrongCost { claimed, real: cost });
    }
    Ok(())
}

/// How many of the first `k` workers are in hand.
spec fn in_hand(g: GameState, k: int) -> nat
    decreases k,
{
    if k <= 0 {
        0
    } else {
        in_hand(g, k - 1) + if g.workers[k - 1] == WorkerLoc::Available {
            1nat
        } else {
            0
        }
    }
}

proof fn lemma_in_hand_most(g: GameState, k: int)
    requires
        0 <= k,
    ensures
        in_hand(g, k) <= k,
    decreases k,
{
    if k > 0 {
        lemma_in_hand_most(g, k - 1);
    }
}

/// Placing a worker takes it out of hand.
proof fn lemma_in_hand(g: GameState, w: WorkerId, spot: Placement, k: int)
    requires
        w.ok(),
        0 <= k <= 24,
        g.workers[w.0 as int] == WorkerLoc::Available,
    ensures
        in_hand(put_at(g, w, spot), k) + (if w.0 < k {
            1int
        } else {
            0
        }) == in_hand(g, k),
    decreases k,
{
    if k > 0 {
        lemma_in_hand(g, w, spot, k - 1);
    }
}

fn check_takes(rules: &Rulebook, g: &GameState, p: PlayerId, v: &Retrievals) -> (r: Result<
    (),
    Fault,
>)
    requires
        p.ok(),
        g.ok(),
        forall|i: int| 0 <= i < v@.len() ==> (#[trigger] v@[i]).0.ok() && effects_ok(v@[i].1),
    ensures
        match taking_fault(*rules, *g, p, v@, 0) {
            Some(f) => r == Err::<(), Fault>(f),
            None => r is Ok,
        },
{
    let mut probe = *g;
    let n: usize = v.len();
    let mut i: usize = 0;
    while i < n
        invariant
            i <= n,
            p.ok(),
            n == v@.len(),
            probe.ok(),
            forall|i: int| 0 <= i < v@.len() ==> (#[trigger] v@[i]).0.ok() && effects_ok(v@[i].1),
            taking_fault(*rules, *g, p, v@, 0) == taking_fault(*rules, probe, p, v@, i as int),
        decreases n - i,
    {
        let e = v.at(i);
        assert(v@[i as int] == (e.0, e.1@));
        let w = e.0;
        let loc = probe.loc(w);
        if loc.on_board().is_none() {
            return Err(Fault::NotOnGear { worker: w, loc });
        }
        if !e.1.affordable(rules, &probe, p) {
            return Err(Fault::Unaffordable(w));
        }
        proof {
            lemma_retrieved_ok(*rules, probe, p, e.1@, w);
        }
        e.1.apply(rules, &mut probe, p);
        probe.retrieve_worker(w);
        i += 1;
    }
    Ok(())
}

/// Verify that a move is actually payable, step by step, without clamping.
///
/// Playing a move clamps at zero so a bad one can never corrupt the position;
/// this is what turns an unaffordable move into a loud failure.
pub fn check_move(rules: &Rulebook, g: &GameState, p: PlayerId, m: &Move) -> (r: Result<(), Fault>)
    requires
        p.ok(),
        rules.ok(),
        g.ok(),
        play_ok(m@),
    ensures
        match fault_of(*rules, *g, p, m@) {
            Some(f) => r == Err::<(), Fault>(f),
            None => r is Ok,
        },
{
    let mut probe = *g;
    if let Some(t) = m.beg {
        if probe.players[p.idx()].corn >= 3 {
            return Err(Fault::BeggedRich(t));
        }
        if !probe.can_temple_step(rules, p, t, -1) {
            return Err(Fault::BeggedBottom(t));
        }
    }
    proof {
        lemma_begged_ok(*rules, *g, p, m.beg);
    }
    do_beg(rules, &mut probe, p, m.beg);
    match &m.kind {
        MoveKind::Place(v) => {
            if v.len() == 0 {
                return Err(Fault::NoPlacements);
            }
            let have: u8 = probe.players[p.idx()].corn;
            if have < m.corn_cost {
                return Err(Fault::TooDear { cost: m.corn_cost, have });
            }
            check_places(&probe, v, m.corn_cost)
        },
        MoveKind::Pity { worker, spot } => {
            if has_normal_move(rules, g, p) {
                return Err(Fault::PityNotDue);
            }
            if probe.loc(*worker) != WorkerLoc::Available {
                return Err(Fault::PityNotInHand(*worker));
            }
            if let Placement::Gear(gear, pos) = *spot {
                match probe.lowest_free(gear) {
                    Some(q) => {
                        if q != pos {
                            return Err(Fault::PityNotLowest);
                        }
                    },
                    None => {
                        return Err(Fault::PityNotLowest);
                    },
                }
            }
            Ok(())
        },
        MoveKind::Retrieve(v) => {
            if v.len() == 0 {
                return Err(Fault::NoRetrievals);
            }
            check_takes(rules, &probe, p, v)
        },
    }
}

// ---- what generation promises --------------------------------------------

/// Whether the workers of a list from the `n`-th on are in hand, and none is
/// listed twice.
pub open spec fn ready(g: GameState, avail: Seq<WorkerId>, n: int) -> bool {
    &&& avail.no_duplicates()
    &&& forall|i: int|
        n <= i < avail.len() ==> (#[trigger] avail[i]).ok() && g.workers[avail[i].0 as int]
            == WorkerLoc::Available
}

/// Where a worker may be put passes the check of where it is put.
pub(crate) proof fn lemma_spot_open(g: GameState, i: int)
    requires
        0 <= i < spots_list(g).len(),
    ensures
        match spots_list(g)[i] {
            Placement::Gear(gear, pos) => lowest_free_space(g, gear) == Some(pos),
            Placement::FirstPlayer => g.first_player_space is None,
        },
{
    let gears = flat(5, gear_spots(g));
    if i < gears.len() {
        lemma_gear_spot(g, 5, i);
    }
}

proof fn lemma_gear_spot(g: GameState, n: int, i: int)
    requires
        0 <= n <= 5,
        0 <= i < flat(n, gear_spots(g)).len(),
    ensures
        flat(n, gear_spots(g))[i] matches Placement::Gear(gear, pos) && lowest_free_space(g, gear)
            == Some(pos),
    decreases n,
{
    let f = gear_spots(g);
    if n > 0 {
        if i < flat(n - 1, f).len() {
            lemma_gear_spot(g, n - 1, i);
        } else {
            assert(flat(n, f)[i] == f(n - 1)[i - flat(n - 1, f).len()]);
        }
    }
}

/// Every way generation goes on placing passes the check from where it stands,
/// and costs no more than the budget.
proof fn lemma_placements_pass(
    g: GameState,
    avail: Seq<WorkerId>,
    cost: int,
    budget: int,
    beg: Option<Temple>,
    cur: Seq<(WorkerId, Placement)>,
    m: Play,
)
    requires
        place_list(g, avail, cost, budget, beg, cur).contains(m),
        ready(g, avail, cur.len() as int),
        0 <= cost <= budget <= 255,
        cur.len() <= avail.len(),
    ensures
        m.beg == beg,
        m.corn_cost <= budget,
        m.kind matches Kind::Place(v) && v.len() >= cur.len() && v.take(cur.len() as int) == cur
            && v.len() > 0 && placing_fault(g, v, cur.len() as int, cost, m.corn_cost) is None,
    decreases avail.len() - cur.len(),
{
    let here = Play { kind: Kind::Place(cur), beg, corn_cost: cost as u8 };
    let head = only(cur.len() > 0, here);
    let all = place_list(g, avail, cost, budget, beg, cur);
    let k = all.index_of(m);
    if k < head.len() {
        assert(m == here);
        assert(cur.take(cur.len() as int) =~= cur);
    } else {
        let f = place_each(g, avail, cost, budget, beg, cur);
        let n = spots_list(g).len() as int;
        let rest = flat(n, f);
        assert(cur.len() < avail.len());
        assert(all =~= head + rest);
        assert(rest[k - head.len()] == m);
        assert(rest.contains(m));
        let i = lemma_flat_part(n, f, m);
        let spot = spots_list(g)[i];
        let w = avail[cur.len() as int];
        let more = cur.push((w, spot));
        let step = cur.len() + spot.cost();
        let h = put_at(g, w, spot);
        lemma_spot_open(g, i);
        assert(ready(h, avail, more.len() as int)) by {
            assert forall|j: int| more.len() <= j < avail.len() implies (#[trigger] avail[j]).ok()
                && h.workers[avail[j].0 as int] == WorkerLoc::Available by {
                assert(avail[j].ok());
                assert(avail[j] != w);
                assert(w.ok());
                assert(avail[j].0 != w.0);
            }
        }
        lemma_placements_pass(h, avail, cost + step, budget, beg, more, m);
        let v = m.kind->Place_0;
        assert(v.take(more.len() as int) == more);
        assert(v[cur.len() as int] == more[cur.len() as int]);
        assert(v.take(cur.len() as int) =~= cur) by {
            assert forall|j: int| 0 <= j < cur.len() implies v[j] == cur[j] by {
                assert(v.take(more.len() as int)[j] == more[j]);
            }
        }
    }
}

/// The part of a concatenation that holds an element.
pub(crate) proof fn lemma_flat_part<A>(n: int, f: spec_fn(int) -> Seq<A>, a: A) -> (i: int)
    requires
        flat(n, f).contains(a),
    ensures
        0 <= i < n,
        f(i).contains(a),
    decreases n,
{
    if n <= 0 {
        assert(false);
        0
    } else {
        let x = flat(n - 1, f);
        let k = flat(n, f).index_of(a);
        if k < x.len() {
            assert(x[k] == a);
            lemma_flat_part(n - 1, f, a)
        } else {
            assert(f(n - 1)[k - x.len()] == a);
            n - 1
        }
    }
}

/// The workers in hand are listed once each.
proof fn lemma_available_ready(g: GameState, p: PlayerId, k: nat)
    requires
        p.ok(),
        k <= 6,
    ensures
        ready(g, workers_where(g, p, |l: WorkerLoc| l == WorkerLoc::Available, k), 0),
    decreases k,
{
    let f = |l: WorkerLoc| l == WorkerLoc::Available;
    lemma_workers_where(g, p, f, k);
    if k > 0 {
        lemma_available_ready(g, p, (k - 1) as nat);
        lemma_workers_where(g, p, f, (k - 1) as nat);
        let s = workers_where(g, p, f, k);
        let rest = workers_where(g, p, f, (k - 1) as nat);
        assert forall|i: int, j: int| 0 <= i < s.len() && 0 <= j < s.len() && i != j implies s[i]
            != s[j] by {
            if i < rest.len() && j < rest.len() {
                assert(rest[i] != rest[j]);
            } else if i < rest.len() {
                assert(rest[i].0 < 6 * p.0 + k - 1);
            } else if j < rest.len() {
                assert(rest[j].0 < 6 * p.0 + k - 1);
            }
        }
    }
}

/// A way to start a turn that generation offers passes the check.
pub(crate) proof fn lemma_beg_passes(rules: Rulebook, g: GameState, p: PlayerId, beg: Option<Temple>)
    requires
        beg_list(rules, g, p).contains(beg),
    ensures
        beg_fault(rules, g, p, beg) is None,
{
    if let Some(t) = beg {
        let k = beg_list(rules, g, p).index_of(beg);
        let f = begs(rules, g, p);
        assert(k > 0);
        assert(flat(3, f)[k - 1] == beg);
        assert(flat(3, f).contains(beg));
        let i = lemma_flat_part(3, f, beg);
        assert(f(i)[0] == beg);
    }
}

/// Every placement that generation finds passes the check: its workers are in
/// hand, its spaces are the lowest free ones when they are taken, and it costs
/// exactly the corn it claims, which the seat has.
pub proof fn generated_placements_are_legal(
    rules: Rulebook,
    g: GameState,
    p: PlayerId,
    beg: Option<Temple>,
    m: Play,
)
    requires
        p.ok(),
        beg_list(rules, g, p).contains(beg),
        ({
            let h = begged(rules, g, p, beg);
            place_list(
                h,
                available_list(h, p),
                0,
                h.players[p.0 as int].corn as int,
                beg,
                Seq::empty(),
            ).contains(m)
        }),
    ensures
        fault_of(rules, g, p, m) is None,
{
    let h = begged(rules, g, p, beg);
    lemma_beg_passes(rules, g, p, beg);
    lemma_available_ready(h, p, 6);
    lemma_placements_pass(
        h,
        available_list(h, p),
        0,
        h.players[p.0 as int].corn as int,
        beg,
        Seq::empty(),
        m,
    );
}

/// Every pity move that generation finds passes the check when nothing else
/// was found.
pub proof fn generated_pity_is_legal(rules: Rulebook, g: GameState, p: PlayerId, m: Play)
    requires
        p.ok(),
        normal_list(rules, g, p).len() == 0,
        pity_list(g, p).contains(m),
    ensures
        fault_of(rules, g, p, m) is None,
        m.corn_cost == g.players[p.0 as int].corn,
        m.beg is None,
{
    let avail = available_list(g, p);
    let f = pities(g, p, avail[0]);
    let i = lemma_flat_part(spots_list(g).len() as int, f, m);
    assert(f(i)[0] == m);
    lemma_spot_open(g, i);
    lemma_available_ready(g, p, 6);
    assert(avail[0].ok());
}

/// A seat with an ordinary move is never offered pity.
pub proof fn pity_is_a_last_resort(rules: Rulebook, g: GameState, p: PlayerId, m: Play)
    requires
        p.ok(),
        legal_list(rules, g, p).contains(m),
        m.kind is Pity,
    ensures
        normal_list(rules, g, p).len() == 0,
{
    if normal_list(rules, g, p).len() > 0 {
        lemma_normal_has_no_pity(rules, g, p, beg_list(rules, g, p).len(), m);
    }
}

proof fn lemma_normal_has_no_pity(rules: Rulebook, g: GameState, p: PlayerId, k: nat, m: Play)
    requires
        p.ok(),
        k <= beg_list(rules, g, p).len(),
        normal_upto(rules, g, p, k).0.contains(m),
    ensures
        !(m.kind is Pity),
    decreases k,
{
    if k > 0 {
        let (found, mid) = normal_upto(rules, g, p, (k - 1) as nat);
        let beg = beg_list(rules, g, p)[k - 1];
        assert(beg_list(rules, g, p).contains(beg));
        let probe = begged(rules, g, p, beg);
        let budget = probe.players[p.0 as int].corn as int;
        let places = place_list(
            probe,
            available_list(probe, p),
            0,
            budget,
            beg,
            Seq::empty(),
        );
        let takes = retrieve_walk(
            rules,
            probe,
            p,
            board_list(probe, p),
            Seq::empty(),
            beg,
            mid,
        ).0;
        let all = normal_upto(rules, g, p, k).0;
        assert(all =~= found + (places + takes));
        let i = all.index_of(m);
        if i < found.len() {
            assert(found[i] == m);
            lemma_normal_has_no_pity(rules, g, p, (k - 1) as nat, m);
        } else if i < found.len() + places.len() {
            assert(places[i - found.len()] == m);
            lemma_available_ready(probe, p, 6);
            lemma_placements_pass(
                probe,
                available_list(probe, p),
                0,
                budget,
                beg,
                Seq::empty(),
                m,
            );
        } else {
            assert(takes[i - found.len() - places.len()] == m);
            lemma_workers_where(probe, p, |l: WorkerLoc| l is OnGear, 6);
            lemma_walk_retrieves(
                rules,
                probe,
                p,
                board_list(probe, p),
                Seq::empty(),
                beg,
                mid,
                m,
            );
        }
    }
}

/// Whether retrievals from the `n`-th on each pick up a worker that stands on a
/// gear and do something that worker may do there.
pub open spec fn takes_on_offer(
    rules: Rulebook,
    g: GameState,
    p: PlayerId,
    v: Seq<(WorkerId, Seq<Effect>)>,
    n: int,
) -> bool
    decreases v.len() - n,
{
    n < 0 || n >= v.len() || {
        let (w, s) = v[n];
        &&& w.ok()
        &&& g.workers[w.0 as int] matches WorkerLoc::OnGear { gear, pos } && worker_list(
            rules,
            g,
            p,
            gear,
            pos.0 as int,
        ).contains(s)
        &&& takes_on_offer(rules, retrieved(after_all(rules, g, p, s), w), p, v, n + 1)
    }
}

/// Whether a move is a retrieval that goes on from `cur` with what is on offer.
pub open spec fn goes_on(
    rules: Rulebook,
    g: GameState,
    p: PlayerId,
    cur: Seq<(WorkerId, Seq<Effect>)>,
    beg: Option<Temple>,
    m: Play,
) -> bool {
    &&& m.beg == beg
    &&& m.corn_cost == 0
    &&& m.kind matches Kind::Retrieve(v) && v.len() > 0 && v.len() >= cur.len() && v.take(
        cur.len() as int,
    ) == cur && takes_on_offer(rules, g, p, v, cur.len() as int)
}

/// Every move of a retrieval walk goes on from where the walk stands.
proof fn lemma_walk_retrieves(
    rules: Rulebook,
    g: GameState,
    p: PlayerId,
    board: Seq<WorkerId>,
    cur: Seq<(WorkerId, Seq<Effect>)>,
    beg: Option<Temple>,
    reached: Set<GameState>,
    m: Play,
)
    requires
        p.ok(),
        workers_ok(board),
        retrieve_walk(rules, g, p, board, cur, beg, reached).0.contains(m),
    ensures
        goes_on(rules, g, p, cur, beg, m),
    decreases load(g, board), 2 * board.len() + 2, 0int,
{
    let all = retrieve_walk(rules, g, p, board, cur, beg, reached).0;
    let k = all.index_of(m);
    let here = Play { kind: Kind::Retrieve(cur), beg, corn_cost: 0 };
    let head = only(cur.len() > 0, here);
    let from = if cur.len() > 0 {
        reached.insert(g)
    } else {
        reached
    };
    let rest = retrieve_over(rules, g, p, board, cur, beg, from, board.len()).0;
    assert(all =~= head + rest);
    if k < head.len() {
        assert(m == here);
        assert(cur.take(cur.len() as int) =~= cur);
    } else {
        assert(rest[k - head.len()] == m);
        lemma_over_retrieves(rules, g, p, board, cur, beg, from, board.len(), m);
    }
}

proof fn lemma_over_retrieves(
    rules: Rulebook,
    g: GameState,
    p: PlayerId,
    board: Seq<WorkerId>,
    cur: Seq<(WorkerId, Seq<Effect>)>,
    beg: Option<Temple>,
    reached: Set<GameState>,
    k: nat,
    m: Play,
)
    requires
        p.ok(),
        workers_ok(board),
        k <= board.len(),
        retrieve_over(rules, g, p, board, cur, beg, reached, k).0.contains(m),
    ensures
        goes_on(rules, g, p, cur, beg, m),
    decreases load(g, board), 2 * k + 1, 0int,
{
    if k > 0 {
        let all = retrieve_over(rules, g, p, board, cur, beg, reached, k).0;
        let (found, mid) = retrieve_over(rules, g, p, board, cur, beg, reached, (k - 1) as nat);
        let i = all.index_of(m);
        if i < found.len() {
            assert(found[i] == m);
            lemma_over_retrieves(rules, g, p, board, cur, beg, reached, (k - 1) as nat, m);
        } else {
            let at = g.workers[board[k - 1].0 as int].space()->Some_0;
            let n = worker_list(rules, g, p, at.0, (at.1).0 as int).len();
            let more = retrieve_taking(rules, g, p, board, cur, beg, mid, (k - 1) as nat, n).0;
            assert(all =~= found + more);
            assert(more[i - found.len()] == m);
            lemma_taking_retrieves(rules, g, p, board, cur, beg, mid, (k - 1) as nat, n, m);
        }
    }
}

proof fn lemma_taking_retrieves(
    rules: Rulebook,
    g: GameState,
    p: PlayerId,
    board: Seq<WorkerId>,
    cur: Seq<(WorkerId, Seq<Effect>)>,
    beg: Option<Temple>,
    reached: Set<GameState>,
    k: nat,
    c: nat,
    m: Play,
)
    requires
        p.ok(),
        workers_ok(board),
        k < board.len(),
        g.workers[board[k as int].0 as int] is OnGear,
        ({
            let at = g.workers[board[k as int].0 as int].space()->Some_0;
            c <= worker_list(rules, g, p, at.0, (at.1).0 as int).len()
        }),
        retrieve_taking(rules, g, p, board, cur, beg, reached, k, c).0.contains(m),
    ensures
        goes_on(rules, g, p, cur, beg, m),
    decreases load(g, board), 2 * k + 2, c,
{
    if c > 0 {
        let all = retrieve_taking(rules, g, p, board, cur, beg, reached, k, c).0;
        let (found, mid) = retrieve_taking(
            rules,
            g,
            p,
            board,
            cur,
            beg,
            reached,
            k,
            (c - 1) as nat,
        );
        let i = all.index_of(m);
        if i < found.len() {
            assert(found[i] == m);
            lemma_taking_retrieves(
                rules,
                g,
                p,
                board,
                cur,
                beg,
                reached,
                k,
                (c - 1) as nat,
                m,
            );
        } else {
            let w = board[k as int];
            assert(w.ok());
            let at = g.workers[w.0 as int].space()->Some_0;
            let list = worker_list(rules, g, p, at.0, (at.1).0 as int);
            let choice = list[c - 1];
            let h = retrieved(after_all(rules, g, p, choice), w);
            let next = cur.push((w, choice));
            picking_up_lightens_the_gears(rules, g, p, choice, board, k as int);
            let more = retrieve_walk(rules, h, p, board, next, beg, mid).0;
            assert(all =~= found + more);
            assert(more[i - found.len()] == m);
            lemma_walk_retrieves(rules, h, p, board, next, beg, mid, m);
            let v = m.kind->Retrieve_0;
            assert(v.take(next.len() as int) == next);
            assert(v[cur.len() as int] == v.take(next.len() as int)[cur.len() as int]);
            assert(list.contains(choice));
            assert(v.take(cur.len() as int) =~= cur) by {
                assert forall|j: int| 0 <= j < cur.len() implies v[j] == cur[j] by {
                    assert(v.take(next.len() as int)[j] == next[j]);
                }
            }
        }
    }
}

/// Every retrieval that generation finds picks up workers that stand on gears,
/// each doing something it may do in the position the ones before it leave.
pub proof fn generated_retrievals_are_on_offer(
    rules: Rulebook,
    g: GameState,
    p: PlayerId,
    beg: Option<Temple>,
    reached: Set<GameState>,
    m: Play,
)
    requires
        p.ok(),
        ({
            let h = begged(rules, g, p, beg);
            retrieve_walk(rules, h, p, board_list(h, p), Seq::empty(), beg, reached).0.contains(m)
        }),
    ensures
        goes_on(rules, begged(rules, g, p, beg), p, Seq::empty(), beg, m),
{
    let h = begged(rules, g, p, beg);
    lemma_workers_where(h, p, |l: WorkerLoc| l is OnGear, 6);
    lemma_walk_retrieves(
        rules,
        h,
        p,
        board_list(h, p),
        Seq::empty(),
        beg,
        reached,
        m,
    );
}

} // verus!
