//! Drawing one legal move without enumerating the rest.
//!
//! This is a rollout policy, not a uniform sample of the legal moves. It walks
//! the same steps as the enumeration and asks the same generators, but decides
//! at each step rather than branching.

use crate::affordable::{cards_ok, lemma_free_along, lemma_offers_pass, payoffs_due, payoffs_free};
use crate::book::{effects_ok, Rulebook};
use crate::effect::{after_all, Choice, Effect};
use crate::ids::{Gear, PlayerId, Temple, WorkerId};
use crate::legal::{
    fault_of, generated_pity_is_legal, generated_placements_are_legal, goes_on,
    lemma_beg_passes, lemma_flat_part, play_ok, takes_on_offer,
};
use crate::lists::{flat, only};
use crate::moves::{
    beg_list, beg_options, begged, begs, choices_for_worker, do_beg,
    doing_nothing_is_always_an_option, effects_leave_the_gears_alone, gear_spots, lemma_begged_ok,
    lemma_retrieved_ok, lemma_workers_where, normal_list, normal_upto, open_spots, pity_list,
    pity_moves, place_each, place_list, plays, put_at, put_worker, retrieve_walk, spots_list,
    worker_list, workers_ok, Kind, Move, MoveKind, Placement, Placements, Play, Retrievals,
};
use crate::order::views;
use crate::plan::{exchanged, lemma_exchange_keeps};
use crate::playable::drawn_moves_can_be_played;
use crate::state::{
    available_list, board_list, free_from, retrieved, workers_where, GameState, WorkerLoc,
};
use rand::rngs::StdRng;
use rand::Rng;
use vstd::prelude::*;

verus! {

/// The standard generator of random numbers.
#[verifier::external_type_specification]
#[verifier::external_body]
pub struct ExStdRng(StdRng);

/// `Rng::gen_range` over `0..n`: a number below `n`.
#[verifier::external_body]
pub(crate) fn draw(rng: &mut StdRng, n: usize) -> (k: usize)
    requires
        n > 0,
    ensures
        k < n,
{
    rng.gen_range(0..n)
}

/// `Rng::gen_ratio`: true `num` times in `den`. What a draw gives is chance;
/// only a share of none and a share of all are certain.
#[verifier::external_body]
fn chance(rng: &mut StdRng, num: u32, den: u32) -> (b: bool)
    requires
        0 < den,
        num <= den,
    ensures
        num == 0 ==> !b,
        num == den ==> b,
{
    rng.gen_ratio(num, den)
}

// ---- placements ----------------------------------------------------------

/// Whether a seat can place anything for a budget.
pub open spec fn can_place(g: GameState, p: PlayerId, budget: int) -> bool {
    available_list(g, p).len() > 0 && exists|i: int|
        0 <= i < spots_list(g).len() && (#[trigger] spots_list(g)[i]).cost() <= budget
}

/// Whether a move goes on placing from where it stands.
spec fn places_on(
    g: GameState,
    avail: Seq<WorkerId>,
    cost: int,
    budget: int,
    beg: Option<Temple>,
    cur: Seq<(WorkerId, Placement)>,
    m: Play,
) -> bool {
    place_list(g, avail, cost, budget, beg, cur).contains(m)
}

/// Placing one more worker is one of the ways to go on.
proof fn lemma_place_step(
    g: GameState,
    avail: Seq<WorkerId>,
    cost: int,
    budget: int,
    beg: Option<Temple>,
    cur: Seq<(WorkerId, Placement)>,
    i: int,
    m: Play,
)
    requires
        cur.len() < avail.len(),
        0 <= i < spots_list(g).len(),
        ({
            let spot = spots_list(g)[i];
            let w = avail[cur.len() as int];
            let step = cur.len() + spot.cost();
            cost + step <= budget && places_on(
                put_at(g, w, spot),
                avail,
                cost + step,
                budget,
                beg,
                cur.push((w, spot)),
                m,
            )
        }),
    ensures
        places_on(g, avail, cost, budget, beg, cur, m),
{
    let f = place_each(g, avail, cost, budget, beg, cur);
    let n = spots_list(g).len() as int;
    let head = only(cur.len() > 0, Play { kind: Kind::Place(cur), beg, corn_cost: cost as u8 });
    assert(f(i).contains(m));
    lemma_flat_has(n, f, i, m);
    let all = place_list(g, avail, cost, budget, beg, cur);
    assert(all =~= head + flat(n, f));
    let k = flat(n, f).index_of(m);
    assert(all[head.len() + k] == m);
}

proof fn lemma_flat_has<A>(n: int, f: spec_fn(int) -> Seq<A>, k: int, a: A)
    requires
        0 <= k < n,
        f(k).contains(a),
    ensures
        flat(n, f).contains(a),
    decreases n,
{
    let x = flat(n - 1, f);
    let y = f(n - 1);
    if k < n - 1 {
        lemma_flat_has(n - 1, f, k, a);
        assert((x + y)[x.index_of(a)] == a);
    } else {
        assert((x + y)[x.len() + y.index_of(a)] == a);
    }
}

/// Stopping is one of the ways to go on once something is placed.
proof fn lemma_place_stop(
    g: GameState,
    avail: Seq<WorkerId>,
    cost: int,
    budget: int,
    beg: Option<Temple>,
    cur: Seq<(WorkerId, Placement)>,
)
    requires
        cur.len() > 0,
    ensures
        places_on(
            g,
            avail,
            cost,
            budget,
            beg,
            cur,
            Play { kind: Kind::Place(cur), beg, corn_cost: cost as u8 },
        ),
{
    let m = Play { kind: Kind::Place(cur), beg, corn_cost: cost as u8 };
    assert(place_list(g, avail, cost, budget, beg, cur)[0] == m);
}

/// The spots of a list that cost no more than what is to spare, in order.
pub open spec fn cheap_spots(s: Seq<Placement>, spare: int) -> Seq<Placement>
    decreases s.len(),
{
    if s.len() == 0 {
        Seq::empty()
    } else {
        cheap_spots(s.drop_last(), spare) + only(s.last().cost() <= spare, s.last())
    }
}

/// The spots a further worker can be put on with so much corn to spare.
pub open spec fn within(g: GameState, spare: int) -> Seq<Placement> {
    cheap_spots(spots_list(g), spare)
}

/// The cheap spots of a list are those of its spots that are cheap.
proof fn lemma_cheap(s: Seq<Placement>, spare: int)
    ensures
        forall|k: int|
            0 <= k < cheap_spots(s, spare).len() ==> (#[trigger] cheap_spots(s, spare)[k]).cost()
                <= spare && s.contains(cheap_spots(s, spare)[k]),
        cheap_spots(s, spare).len() == 0 <==> forall|i: int|
            0 <= i < s.len() ==> (#[trigger] s[i]).cost() > spare,
    decreases s.len(),
{
    if s.len() > 0 {
        let rest = s.drop_last();
        lemma_cheap(rest, spare);
        let out = cheap_spots(s, spare);
        let some = cheap_spots(rest, spare);
        assert forall|k: int| 0 <= k < out.len() implies (#[trigger] out[k]).cost() <= spare
            && s.contains(out[k]) by {
            if k < some.len() {
                assert(out[k] == some[k]);
                assert(s[rest.index_of(some[k])] == some[k]);
            } else {
                assert(s[s.len() - 1] == out[k]);
            }
        }
        if some.len() == 0 && s.last().cost() > spare {
            assert forall|i: int| 0 <= i < s.len() implies (#[trigger] s[i]).cost() > spare by {
                if i < rest.len() {
                    assert(rest[i].cost() > spare);
                }
            }
        }
        if forall|i: int| 0 <= i < s.len() ==> (#[trigger] s[i]).cost() > spare {
            assert forall|i: int| 0 <= i < rest.len() implies (#[trigger] rest[i]).cost()
                > spare by {
                assert(s[i].cost() > spare);
            }
            assert(s[s.len() - 1].cost() > spare);
        }
    }
}

/// The spots a further worker can be put on with so much corn to spare.
fn spots_within(g: &GameState, spare: u8) -> (out: Vec<Placement>)
    ensures
        out@ == within(*g, spare as int),
        forall|k: int| 0 <= k < out@.len() ==> (#[trigger] out@[k]).ok(),
{
    let all = open_spots(g);
    let mut out: Vec<Placement> = Vec::new();
    let mut i: usize = 0;
    assert(all@.take(0) =~= Seq::empty());
    while i < all.len()
        invariant
            i <= all@.len(),
            all@ == spots_list(*g),
            forall|k: int| 0 <= k < all@.len() ==> (#[trigger] all@[k]).ok(),
            forall|k: int| 0 <= k < out@.len() ==> (#[trigger] out@[k]).ok(),
            out@ == cheap_spots(all@.take(i as int), spare as int),
        decreases all@.len() - i,
    {
        let ghost was = out@;
        if all[i].space_cost() <= spare {
            out.push(all[i]);
        }
        i += 1;
        assert(all@.take(i as int).drop_last() =~= all@.take(i - 1));
        assert(out@ =~= was + only(all@[i - 1].cost() <= spare, all@[i - 1]));
    }
    assert(all@.take(i as int) =~= all@);
    out
}

/// What drawn values make of a turn of placing.
pub struct Placing {
    /// Where the workers went.
    pub put: Seq<(WorkerId, Placement)>,
    /// What they cost.
    pub cost: int,
    /// Whether the values lasted, each pick naming a spot.
    pub lasted: bool,
}

/// Placing from where it stands: a worker goes to the spot picked for it out of
/// those it can afford, and after each the next value says whether another does.
pub open spec fn placing(
    g: GameState,
    avail: Seq<WorkerId>,
    cost: int,
    budget: int,
    put: Seq<(WorkerId, Placement)>,
    goes: Seq<bool>,
    picks: Seq<usize>,
) -> Placing
    decreases avail.len() - put.len(),
{
    let k = put.len() as int;
    let spots = within(g, budget - cost - k);
    if k >= avail.len() {
        Placing { put, cost, lasted: true }
    } else if k > goes.len() {
        Placing { put, cost, lasted: false }
    } else if k > 0 && !goes[k - 1] {
        Placing { put, cost, lasted: true }
    } else if spots.len() == 0 {
        Placing { put, cost, lasted: true }
    } else if k >= picks.len() || picks[k] >= spots.len() {
        Placing { put, cost, lasted: false }
    } else {
        let spot = spots[picks[k] as int];
        placing(
            put_at(g, avail[k], spot),
            avail,
            cost + k + spot.cost(),
            budget,
            put.push((avail[k], spot)),
            goes,
            picks,
        )
    }
}

/// The same from the start of a turn.
pub open spec fn placing_all(
    g: GameState,
    p: PlayerId,
    budget: int,
    goes: Seq<bool>,
    picks: Seq<usize>,
) -> Placing {
    placing(g, available_list(g, p), 0, budget, Seq::empty(), goes, picks)
}

/// The move that drawn values make: none where nothing was placed.
pub open spec fn placed_by(
    g: GameState,
    p: PlayerId,
    budget: int,
    beg: Option<Temple>,
    goes: Seq<bool>,
    picks: Seq<usize>,
) -> Option<Play> {
    let r = placing_all(g, p, budget, goes, picks);
    if r.put.len() == 0 {
        None
    } else {
        Some(Play { kind: Kind::Place(r.put), beg, corn_cost: r.cost as u8 })
    }
}

/// A move as it is seen, if there is one.
pub open spec fn play_of(m: Option<Move>) -> Option<Play> {
    match m {
        Some(x) => Some(x@),
        None => None,
    }
}

/// What drawn values place is one of the ways to go on placing.
proof fn lemma_placing_listed(
    g: GameState,
    avail: Seq<WorkerId>,
    cost: int,
    budget: int,
    beg: Option<Temple>,
    put: Seq<(WorkerId, Placement)>,
    goes: Seq<bool>,
    picks: Seq<usize>,
)
    requires
        0 <= cost <= budget,
        put.len() <= avail.len(),
    ensures
        ({
            let r = placing(g, avail, cost, budget, put, goes, picks);
            &&& 0 <= r.cost <= budget
            &&& put.len() <= r.put.len() <= avail.len()
            &&& r.put.len() > 0 ==> places_on(
                g,
                avail,
                cost,
                budget,
                beg,
                put,
                Play { kind: Kind::Place(r.put), beg, corn_cost: r.cost as u8 },
            )
            &&& r.lasted && r.put.len() == put.len() && put.len() == 0 ==> avail.len() == 0 || within(
                g,
                budget - cost,
            ).len() == 0
            &&& r.put.len() > put.len() && put.len() == 0 ==> within(g, budget - cost).len() > 0
        }),
    decreases avail.len() - put.len(),
{
    let r = placing(g, avail, cost, budget, put, goes, picks);
    let k = put.len() as int;
    let spots = within(g, budget - cost - k);
    lemma_cheap(spots_list(g), budget - cost - k);
    if k >= avail.len() || k > goes.len() || (k > 0 && !goes[k - 1]) || k >= picks.len() || picks[k]
        >= spots.len() {
        if put.len() > 0 {
            lemma_place_stop(g, avail, cost, budget, beg, put);
        }
    } else {
        let spot = spots[picks[k] as int];
        let i = spots_list(g).index_of(spot);
        let more = put.push((avail[k], spot));
        let h = put_at(g, avail[k], spot);
        lemma_placing_listed(h, avail, cost + k + spot.cost(), budget, beg, more, goes, picks);
        assert(spots_list(g)[i] == spot);
        lemma_place_step(
            g,
            avail,
            cost,
            budget,
            beg,
            put,
            i,
            Play { kind: Kind::Place(r.put), beg, corn_cost: r.cost as u8 },
        );
    }
}

/// What is placed from the start of a turn, and when anything is.
proof fn lemma_placed(
    g: GameState,
    p: PlayerId,
    budget: int,
    beg: Option<Temple>,
    goes: Seq<bool>,
    picks: Seq<usize>,
)
    requires
        0 <= budget,
    ensures
        placed_by(g, p, budget, beg, goes, picks) matches Some(m) ==> can_place(g, p, budget)
            && place_list(g, available_list(g, p), 0, budget, beg, Seq::empty()).contains(m),
        placing_all(g, p, budget, goes, picks).lasted ==> (placed_by(
            g,
            p,
            budget,
            beg,
            goes,
            picks,
        ) is Some <==> can_place(g, p, budget)),
{
    let avail = available_list(g, p);
    lemma_placing_listed(g, avail, 0, budget, beg, Seq::empty(), goes, picks);
    let spots = within(g, budget);
    lemma_cheap(spots_list(g), budget);
    if spots.len() > 0 {
        let i = spots_list(g).index_of(spots[0]);
        assert(spots_list(g)[i].cost() <= budget);
    }
}

/// Put the next worker on a spot.
fn place_one(
    probe: &mut GameState,
    put: &mut Placements,
    w: WorkerId,
    spot: Placement,
    used: u8,
) -> (cost: u8)
    requires
        w.ok(),
        spot.ok(),
        used + spot.cost() <= 255,
    ensures
        *final(probe) == put_at(*old(probe), w, spot),
        old(probe).ok() ==> final(probe).ok(),
        final(put)@ == old(put)@.push((w, spot)),
        cost == used + spot.cost(),
{
    put_worker(probe, w, spot);
    put.push((w, spot));
    used + spot.space_cost()
}

/// The placement move that drawn values make. After the first worker, `goes` says
/// whether each further one is placed, and `picks` which of the spots it can
/// afford each goes to.
pub fn place_drawn(
    g: &GameState,
    p: PlayerId,
    budget: u8,
    beg: Option<Temple>,
    goes: &Vec<bool>,
    picks: &Vec<usize>,
) -> (m: Option<Move>)
    requires
        p.ok(),
        g.ok(),
    ensures
        play_of(m) == placed_by(*g, p, budget as int, beg, goes@, picks@),
{
    let avail = g.available(p);
    proof {
        lemma_workers_where(*g, p, |l: WorkerLoc| l == WorkerLoc::Available, 6);
    }
    let mut probe = *g;
    let mut put = Placements::new();
    let mut cost: u8 = 0;
    let mut going = true;
    let mut k: usize = 0;
    assert(put@ =~= Seq::empty());
    while k < avail.len() && going
        invariant
            k == put@.len(),
            k <= avail@.len() <= 6,
            avail@ == available_list(*g, p),
            forall|i: int| 0 <= i < avail@.len() ==> (#[trigger] avail@[i]).ok(),
            probe.ok(),
            cost <= budget,
            cost <= 16 * k,
            placing_all(*g, p, budget as int, goes@, picks@).put == (if going {
                placing(probe, avail@, cost as int, budget as int, put@, goes@, picks@).put
            } else {
                put@
            }),
            placing_all(*g, p, budget as int, goes@, picks@).cost == (if going {
                placing(probe, avail@, cost as int, budget as int, put@, goes@, picks@).cost
            } else {
                cost as int
            }),
        decreases
                avail@.len() - k,
                if going {
                    1int
                } else {
                    0
                },
    {
        let used: u8 = cost + k as u8;
        if k > goes.len() || (k > 0 && !goes[k - 1]) {
            going = false;
        } else if used > budget {
            proof {
                lemma_cheap(spots_list(probe), budget - cost - k);
                let spots = within(probe, budget - cost - k);
                if spots.len() > 0 {
                    assert(spots[0].cost() < 0);
                }
            }
            going = false;
        } else {
            let spots = spots_within(&probe, budget - used);
            if k >= picks.len() || picks[k] >= spots.len() {
                going = false;
            } else {
                let spot = spots[picks[k]];
                proof {
                    lemma_cheap(spots_list(probe), (budget - used) as int);
                    assert(spots@[picks@[k as int] as int].ok());
                }
                cost = place_one(&mut probe, &mut put, avail[k], spot, used);
                k += 1;
            }
        }
    }
    if put.len() == 0 {
        return None;
    }
    Some(Move { kind: MoveKind::Place(put), beg, corn_cost: cost })
}

/// Whether values continue those drawn so far.
spec fn continues(goes: Seq<bool>, picks: Seq<usize>, gs: Seq<bool>, ps: Seq<usize>) -> bool {
    &&& goes.len() <= gs.len()
    &&& picks.len() <= ps.len()
    &&& forall|i: int| 0 <= i < goes.len() ==> gs[i] == #[trigger] goes[i]
    &&& forall|i: int| 0 <= i < picks.len() ==> ps[i] == #[trigger] picks[i]
}

/// Whether a placement move is what some values make of a turn, none of them
/// wanting.
pub open spec fn placement_drawn(
    g: GameState,
    p: PlayerId,
    budget: int,
    beg: Option<Temple>,
    goes: Seq<bool>,
    picks: Seq<usize>,
    m: Option<Play>,
) -> bool {
    &&& placing_all(g, p, budget, goes, picks).lasted
    &&& m == placed_by(g, p, budget, beg, goes, picks)
}

/// Draw one placement move.
///
/// The number of workers is geometric: after the first, each further one is
/// placed eleven times in twenty, as long as one can be.
pub fn sample_placement(
    g: &GameState,
    p: PlayerId,
    budget: u8,
    beg: Option<Temple>,
    rng: &mut StdRng,
) -> (m: Option<Move>)
    requires
        p.ok(),
        g.ok(),
    ensures
        exists|goes: Seq<bool>, picks: Seq<usize>| #[trigger]
            placement_drawn(*g, p, budget as int, beg, goes, picks, play_of(m)),
        m is Some <==> can_place(*g, p, budget as int),
        m matches Some(x) ==> place_list(
            *g,
            available_list(*g, p),
            0,
            budget as int,
            beg,
            Seq::empty(),
        ).contains(x@),
{
    let avail = g.available(p);
    proof {
        lemma_workers_where(*g, p, |l: WorkerLoc| l == WorkerLoc::Available, 6);
    }
    let ghost mut goes: Seq<bool> = Seq::empty();
    let ghost mut picks: Seq<usize> = Seq::empty();
    let mut probe = *g;
    let mut put = Placements::new();
    let mut cost: u8 = 0;
    let mut going = true;
    let mut k: usize = 0;
    assert(put@ =~= Seq::empty());
    while k < avail.len() && going
        invariant
            k == put@.len(),
            k <= avail@.len() <= 6,
            avail@ == available_list(*g, p),
            forall|i: int| 0 <= i < avail@.len() ==> (#[trigger] avail@[i]).ok(),
            probe.ok(),
            cost <= budget,
            cost <= 16 * k,
            picks.len() == k,
            going ==> goes.len() == (if k == 0 {
                0
            } else {
                k - 1
            }),
            forall|gs: Seq<bool>, ps: Seq<usize>| #[trigger]
                continues(goes, picks, gs, ps) ==> placing_all(*g, p, budget as int, gs, ps) == (
                if going {
                    placing(probe, avail@, cost as int, budget as int, put@, gs, ps)
                } else {
                    Placing { put: put@, cost: cost as int, lasted: true }
                }),
        decreases
                avail@.len() - k,
                if going {
                    1int
                } else {
                    0
                },
    {
        let on = k == 0 || chance(rng, 11, 20);
        let ghost goes0 = goes;
        let ghost picks0 = picks;
        proof {
            if k > 0 {
                goes = goes.push(on);
            }
            assert forall|gs: Seq<bool>, ps: Seq<usize>| #[trigger]
                continues(goes, picks0, gs, ps) implies continues(goes0, picks0, gs, ps) && (k > 0
                ==> gs[k - 1] == on) by {
                assert forall|i: int| 0 <= i < goes0.len() implies gs[i] == #[trigger] goes0[i] by {
                    assert(goes[i] == goes0[i]);
                }
                if k > 0 {
                    assert(goes[k - 1] == on);
                }
            }
        }
        if !on {
            going = false;
        } else {
            let used: u8 = cost + k as u8;
            if used > budget {
                proof {
                    lemma_cheap(spots_list(probe), budget - cost - k);
                    let spots = within(probe, budget - cost - k);
                    if spots.len() > 0 {
                        assert(spots[0].cost() < 0);
                    }
                }
                going = false;
            } else {
                let spots = spots_within(&probe, budget - used);
                if spots.len() == 0 {
                    going = false;
                } else {
                    let i: usize = draw(rng, spots.len());
                    let spot = spots[i];
                    proof {
                        lemma_cheap(spots_list(probe), (budget - used) as int);
                        assert(spots@[i as int].ok());
                        picks = picks.push(i);
                        assert forall|gs: Seq<bool>, ps: Seq<usize>| #[trigger]
                            continues(goes, picks, gs, ps) implies continues(goes, picks0, gs, ps)
                            && ps[k as int] == i by {
                            assert forall|j: int| 0 <= j < picks0.len() implies ps[j]
                                == #[trigger] picks0[j] by {
                                assert(picks[j] == picks0[j]);
                            }
                            assert(picks[k as int] == i);
                        }
                    }
                    cost = place_one(&mut probe, &mut put, avail[k], spot, used);
                    k += 1;
                }
            }
        }
    }
    let m = if put.len() == 0 {
        None
    } else {
        Some(Move { kind: MoveKind::Place(put), beg, corn_cost: cost })
    };
    proof {
        assert(continues(goes, picks, goes, picks));
        assert(placement_drawn(*g, p, budget as int, beg, goes, picks, play_of(m)));
        lemma_placed(*g, p, budget as int, beg, goes, picks);
    }
    m
}

// ---- retrievals ----------------------------------------------------------

/// Whether every worker of a list from the `n`-th on stands on a gear, and none
/// is listed twice.
spec fn standing(g: GameState, board: Seq<WorkerId>, n: int) -> bool {
    &&& board.no_duplicates()
    &&& forall|i: int|
        n <= i < board.len() ==> (#[trigger] board[i]).ok() && g.workers[board[i].0 as int] is OnGear
}

/// Whether picks can put a list of so many in order: one for each place from the
/// last down to the second, no higher than the place.
pub open spec fn picks_fit(picks: Seq<usize>, n: int) -> bool {
    &&& picks.len() == (if n > 1 {
        n - 1
    } else {
        0
    })
    &&& forall|k: int| 0 <= k < picks.len() ==> (#[trigger] picks[k]) < n - k
}

/// A list after its first `k` picks: from the last place down, each place is
/// exchanged with the one picked for it.
pub open spec fn reordered(s: Seq<WorkerId>, picks: Seq<usize>, k: int) -> Seq<WorkerId>
    decreases k,
{
    if k <= 0 {
        s
    } else {
        exchanged(reordered(s, picks, k - 1), s.len() - k, picks[k - 1] as int)
    }
}

/// Picks name no worker twice, and none that is not listed.
proof fn lemma_reordered(s: Seq<WorkerId>, picks: Seq<usize>, k: int)
    requires
        picks_fit(picks, s.len() as int),
        0 <= k <= picks.len(),
    ensures
        reordered(s, picks, k).len() == s.len(),
        reordered(s, picks, k).to_multiset() == s.to_multiset(),
    decreases k,
{
    if k > 0 {
        lemma_reordered(s, picks, k - 1);
        assert(picks[k - 1] < s.len() - (k - 1));
        lemma_exchange_keeps(reordered(s, picks, k - 1), s.len() - k, picks[k - 1] as int);
    }
}

proof fn lemma_reordered_standing(g: GameState, s: Seq<WorkerId>, picks: Seq<usize>, k: int)
    requires
        picks_fit(picks, s.len() as int),
        0 <= k <= picks.len(),
        standing(g, s, 0),
    ensures
        standing(g, reordered(s, picks, k), 0),
    decreases k,
{
    if k > 0 {
        lemma_reordered(s, picks, k - 1);
        lemma_reordered_standing(g, s, picks, k - 1);
        let was = reordered(s, picks, k - 1);
        let i = s.len() - k;
        let j = picks[k - 1] as int;
        assert(picks[k - 1] < s.len() - (k - 1));
        let out = exchanged(was, i, j);
        assert forall|x: int, y: int| 0 <= x < out.len() && 0 <= y < out.len() && x != y implies out[x]
            != out[y] by {
            let fx = if x == j {
                i
            } else if x == i {
                j
            } else {
                x
            };
            let fy = if y == j {
                i
            } else if y == i {
                j
            } else {
                y
            };
            assert(out[x] == was[fx] && out[y] == was[fy]);
            assert(fx != fy);
        }
    }
}

/// Put a list of workers in the order that picks give it.
pub fn reorder(board: Vec<WorkerId>, picks: &Vec<usize>) -> (out: Vec<WorkerId>)
    requires
        picks_fit(picks@, board@.len() as int),
    ensures
        out@ == reordered(board@, picks@, picks@.len() as int),
        out@.len() == board@.len(),
        out@.to_multiset() == board@.to_multiset(),
{
    let n: usize = board.len();
    let mut out = board;
    let mut k: usize = 0;
    while k < picks.len()
        invariant
            k <= picks@.len(),
            n == board@.len(),
            picks_fit(picks@, n as int),
            out@.len() == n,
            out@ == reordered(board@, picks@, k as int),
        decreases picks@.len() - k,
    {
        assert(picks@[k as int] < n - k);
        let i: usize = n - 1 - k;
        let j: usize = picks[k];
        let a = out[i];
        let b = out[j];
        let ghost was = out@;
        out.set(i, b);
        out.set(j, a);
        k += 1;
        assert(out@ =~= exchanged(was, i as int, j as int));
    }
    proof {
        lemma_reordered(board@, picks@, picks@.len() as int);
    }
    out
}

/// Put a list of workers in a random order: the order that drawn picks give it.
fn shuffle(board: Vec<WorkerId>, g: &GameState, rng: &mut StdRng) -> (out: Vec<WorkerId>)
    requires
        standing(*g, board@, 0),
    ensures
        standing(*g, out@, 0),
        out@.len() == board@.len(),
        out@.to_multiset() == board@.to_multiset(),
        exists|picks: Seq<usize>| #[trigger]
            picks_fit(picks, board@.len() as int) && out@ == reordered(
                board@,
                picks,
                picks.len() as int,
            ),
{
    let n: usize = board.len();
    let mut picks: Vec<usize> = Vec::new();
    let mut i: usize = n;
    while i > 1
        invariant
            i <= n,
            n > 0 ==> i > 0,
            picks@.len() == n - i,
            forall|k: int| 0 <= k < picks@.len() ==> (#[trigger] picks@[k]) < n - k,
        decreases i,
    {
        picks.push(draw(rng, i));
        i -= 1;
    }
    proof {
        lemma_reordered_standing(*g, board@, picks@, picks@.len() as int);
    }
    reorder(board, &picks)
}

/// The workers on gears are listed once each.
proof fn lemma_board_standing(g: GameState, p: PlayerId, k: nat)
    requires
        p.ok(),
        k <= 6,
    ensures
        standing(g, workers_where(g, p, |l: WorkerLoc| l is OnGear, k), 0),
    decreases k,
{
    let f = |l: WorkerLoc| l is OnGear;
    lemma_workers_where(g, p, f, k);
    if k > 0 {
        lemma_board_standing(g, p, (k - 1) as nat);
        lemma_workers_where(g, p, f, (k - 1) as nat);
        let s = workers_where(g, p, f, k);
        let rest = workers_where(g, p, f, (k - 1) as nat);
        assert forall|i: int, j: int| 0 <= i < s.len() && 0 <= j < s.len() && i != j implies s[i]
            != s[j] by {
            if i < rest.len() && j < rest.len() {
                assert(rest[i] != rest[j]);
            } else if i < rest.len() {
                assert(rest[i].0 < 6 * p.0 + k - 1);
            } else if j < rest.len() {
                assert(rest[j].0 < 6 * p.0 + k - 1);
            }
        }
    }
}

/// Picking the `n`-th worker up leaves the later ones standing.
proof fn lemma_still_standing(
    rules: Rulebook,
    g: GameState,
    p: PlayerId,
    board: Seq<WorkerId>,
    n: int,
    s: Seq<Effect>,
)
    requires
        p.ok(),
        0 <= n < board.len(),
        standing(g, board, n),
    ensures
        standing(retrieved(after_all(rules, g, p, s), board[n]), board, n + 1),
{
    let h = retrieved(after_all(rules, g, p, s), board[n]);
    assert(board[n].ok());
    assert forall|i: int| n + 1 <= i < board.len() implies (#[trigger] board[i]).ok()
        && h.workers[board[i].0 as int] is OnGear by {
        assert(board[i].ok());
        assert(board[i] != board[n]);
        effects_leave_the_gears_alone(rules, g, p, s, board[i].0 as int);
        effects_leave_the_gears_alone(rules, g, p, s, board[n].0 as int);
    }
}

/// What drawn values make of a turn of retrieving.
pub struct Taking {
    /// Who was picked up, and what each did.
    pub took: Seq<(WorkerId, Seq<Effect>)>,
    /// Whether the values lasted, each pick naming a choice.
    pub lasted: bool,
}

/// Retrieving from the `n`-th worker of an order on: each worker that stands on a
/// gear does what is picked for it out of what it may do there, and before each
/// but the first a value says whether there is another.
pub open spec fn taking(
    rules: Rulebook,
    g: GameState,
    p: PlayerId,
    order: Seq<WorkerId>,
    n: int,
    took: Seq<(WorkerId, Seq<Effect>)>,
    goes: Seq<bool>,
    picks: Seq<usize>,
) -> Taking
    decreases order.len() - n,
{
    if n < 0 || n >= order.len() {
        Taking { took, lasted: true }
    } else if n > goes.len() {
        Taking { took, lasted: false }
    } else if n > 0 && !goes[n - 1] {
        Taking { took, lasted: true }
    } else {
        match g.workers[order[n].0 as int].space() {
            None => taking(rules, g, p, order, n + 1, took, goes, picks),
            Some((gear, pos)) => {
                let list = worker_list(rules, g, p, gear, pos.0 as int);
                if n >= picks.len() || picks[n] >= list.len() {
                    Taking { took, lasted: false }
                } else {
                    let choice = list[picks[n] as int];
                    taking(
                        rules,
                        retrieved(after_all(rules, g, p, choice), order[n]),
                        p,
                        order,
                        n + 1,
                        took.push((order[n], choice)),
                        goes,
                        picks,
                    )
                }
            },
        }
    }
}

/// The move that drawn values make: none where nobody was picked up.
pub open spec fn taken_by(
    rules: Rulebook,
    g: GameState,
    p: PlayerId,
    beg: Option<Temple>,
    order: Seq<WorkerId>,
    goes: Seq<bool>,
    picks: Seq<usize>,
) -> Option<Play> {
    let r = taking(rules, g, p, order, 0, Seq::empty(), goes, picks);
    if r.took.len() == 0 {
        None
    } else {
        Some(Play { kind: Kind::Retrieve(r.took), beg, corn_cost: 0 })
    }
}

/// What drawn values take is on offer, and nothing stops short of a worker.
proof fn lemma_taking_offered(
    rules: Rulebook,
    g: GameState,
    p: PlayerId,
    order: Seq<WorkerId>,
    n: int,
    took: Seq<(WorkerId, Seq<Effect>)>,
    goes: Seq<bool>,
    picks: Seq<usize>,
)
    requires
        workers_ok(order),
        0 <= n,
    ensures
        ({
            let v = taking(rules, g, p, order, n, took, goes, picks).took;
            &&& v.len() >= took.len()
            &&& v.take(took.len() as int) == took
            &&& takes_on_offer(rules, g, p, v, took.len() as int)
        }),
    decreases order.len() - n,
{
    let r = taking(rules, g, p, order, n, took, goes, picks);
    assert(took.take(took.len() as int) =~= took);
    if n < order.len() && n <= goes.len() && (n > 0 ==> goes[n - 1]) {
        let w = order[n];
        assert(w.ok());
        match g.workers[w.0 as int].space() {
            None => lemma_taking_offered(rules, g, p, order, n + 1, took, goes, picks),
            Some((gear, pos)) => {
                let list = worker_list(rules, g, p, gear, pos.0 as int);
                if n < picks.len() && picks[n] < list.len() {
                    let choice = list[picks[n] as int];
                    let h = retrieved(after_all(rules, g, p, choice), w);
                    let more = took.push((w, choice));
                    lemma_taking_offered(rules, h, p, order, n + 1, more, goes, picks);
                    let v = r.took;
                    assert(v.take(more.len() as int)[took.len() as int] == (w, choice));
                    assert(list.contains(choice));
                    assert(v.take(took.len() as int) =~= took) by {
                        assert forall|j: int| 0 <= j < took.len() implies v[j] == took[j] by {
                            assert(v.take(more.len() as int)[j] == more[j]);
                        }
                    }
                }
            },
        }
    }
}

/// Pick a worker up and let it do what it does.
fn take_one(
    rules: &Rulebook,
    probe: &mut GameState,
    p: PlayerId,
    took: &mut Retrievals,
    w: WorkerId,
    choice: Choice,
)
    requires
        p.ok(),
        w.ok(),
        old(probe).ok(),
        effects_ok(choice@),
    ensures
        *final(probe) == retrieved(after_all(*rules, *old(probe), p, choice@), w),
        final(probe).ok(),
        final(took)@ == old(took)@.push((w, choice@)),
{
    proof {
        lemma_retrieved_ok(*rules, *probe, p, choice@, w);
    }
    choice.apply(rules, probe, p);
    probe.retrieve_worker(w);
    took.add_one(w, choice);
}

/// The retrieval move that drawn values make of an order of workers. After the
/// first, `goes` says whether each further one is picked up, and `picks` which of
/// the things it may do each does.
pub fn take_drawn(
    rules: &Rulebook,
    g: &GameState,
    p: PlayerId,
    beg: Option<Temple>,
    order: &Vec<WorkerId>,
    goes: &Vec<bool>,
    picks: &Vec<usize>,
) -> (m: Option<Move>)
    requires
        p.ok(),
        rules.ok(),
        g.ok(),
        workers_ok(order@),
    ensures
        play_of(m) == taken_by(*rules, *g, p, beg, order@, goes@, picks@),
{
    let mut probe = *g;
    let mut took = Retrievals::new();
    let mut going = true;
    let mut n: usize = 0;
    assert(took@ =~= Seq::empty());
    while n < order.len() && going
        invariant
            n <= order@.len(),
            p.ok(),
            rules.ok(),
            probe.ok(),
            workers_ok(order@),
            taking(*rules, *g, p, order@, 0, Seq::empty(), goes@, picks@).took == (if going {
                taking(*rules, probe, p, order@, n as int, took@, goes@, picks@).took
            } else {
                took@
            }),
        decreases
                order@.len() - n,
                if going {
                    1int
                } else {
                    0
                },
    {
        if n > goes.len() || (n > 0 && !goes[n - 1]) {
            going = false;
        } else {
            let w = order[n];
            assert(w.ok());
            if let Some((gear, pos)) = probe.loc(w).on_board() {
                let choices = choices_for_worker(rules, &probe, p, gear, pos);
                let ghost list = views(choices@);
                assert(list.len() == choices@.len());
                if n >= picks.len() || picks[n] >= choices.len() {
                    going = false;
                } else {
                    let choice = choices[picks[n]].clone();
                    assert(choice@ == list[picks@[n as int] as int]);
                    take_one(rules, &mut probe, p, &mut took, w, choice);
                    n += 1;
                }
            } else {
                n += 1;
            }
        }
    }
    if took.len() == 0 {
        return None;
    }
    Some(Move { kind: MoveKind::Retrieve(took), beg, corn_cost: 0 })
}

/// Whether a retrieval move is what some values make of a turn, none of them
/// wanting: an order of the workers on the board, and what each does.
pub open spec fn retrieval_drawn(
    rules: Rulebook,
    g: GameState,
    p: PlayerId,
    beg: Option<Temple>,
    shuffled: Seq<usize>,
    goes: Seq<bool>,
    picks: Seq<usize>,
    m: Option<Play>,
) -> bool {
    let board = board_list(g, p);
    let order = reordered(board, shuffled, shuffled.len() as int);
    &&& picks_fit(shuffled, board.len() as int)
    &&& taking(rules, g, p, order, 0, Seq::empty(), goes, picks).lasted
    &&& m == taken_by(rules, g, p, beg, order, goes, picks)
}

/// Draw one retrieval move.
///
/// Order matters, so the order itself is drawn. After the first worker, each
/// further one is picked up nine times in twenty.
pub fn sample_retrieval(
    rules: &Rulebook,
    g: &GameState,
    p: PlayerId,
    beg: Option<Temple>,
    rng: &mut StdRng,
) -> (m: Option<Move>)
    requires
        p.ok(),
        rules.ok(),
        g.ok(),
    ensures
        exists|shuffled: Seq<usize>, goes: Seq<bool>, picks: Seq<usize>| #[trigger]
            retrieval_drawn(*rules, *g, p, beg, shuffled, goes, picks, play_of(m)),
        m is Some <==> board_list(*g, p).len() > 0,
        m matches Some(x) ==> goes_on(*rules, *g, p, Seq::empty(), beg, x@),
{
    let found = g.on_board(p);
    proof {
        lemma_board_standing(*g, p, 6);
    }
    let order = shuffle(found, g, rng);
    let ghost shuffled = choose|shuffled: Seq<usize>| #[trigger]
        picks_fit(shuffled, found@.len() as int) && order@ == reordered(
            found@,
            shuffled,
            shuffled.len() as int,
        );
    let ghost mut goes: Seq<bool> = Seq::empty();
    let ghost mut picks: Seq<usize> = Seq::empty();
    let mut probe = *g;
    let mut took = Retrievals::new();
    let mut going = true;
    let mut n: usize = 0;
    assert(took@ =~= Seq::empty());
    while n < order.len() && going
        invariant
            n <= order@.len(),
            n == took@.len(),
            order@.len() > 0 ==> going || n > 0,
            p.ok(),
            rules.ok(),
            probe.ok(),
            standing(probe, order@, n as int),
            picks.len() == n,
            going ==> goes.len() == (if n == 0 {
                0
            } else {
                n - 1
            }),
            forall|gs: Seq<bool>, ps: Seq<usize>| #[trigger]
                continues(goes, picks, gs, ps) ==> taking(
                    *rules,
                    *g,
                    p,
                    order@,
                    0,
                    Seq::empty(),
                    gs,
                    ps,
                ) == (if going {
                    taking(*rules, probe, p, order@, n as int, took@, gs, ps)
                } else {
                    Taking { took: took@, lasted: true }
                }),
        decreases
                order@.len() - n,
                if going {
                    1int
                } else {
                    0
                },
    {
        let on = n == 0 || chance(rng, 9, 20);
        let ghost goes0 = goes;
        let ghost picks0 = picks;
        proof {
            if n > 0 {
                goes = goes.push(on);
            }
            assert forall|gs: Seq<bool>, ps: Seq<usize>| #[trigger]
                continues(goes, picks0, gs, ps) implies continues(goes0, picks0, gs, ps) && (n > 0
                ==> gs[n - 1] == on) by {
                assert forall|i: int| 0 <= i < goes0.len() implies gs[i] == #[trigger] goes0[i] by {
                    assert(goes[i] == goes0[i]);
                }
                if n > 0 {
                    assert(goes[n - 1] == on);
                }
            }
        }
        if !on {
            going = false;
        } else {
            let w = order[n];
            assert(w.ok());
            if let Some((gear, pos)) = probe.loc(w).on_board() {
                let choices = choices_for_worker(rules, &probe, p, gear, pos);
                let ghost list = views(choices@);
                proof {
                    doing_nothing_is_always_an_option(*rules, probe, p, gear, pos.0 as int);
                    assert(list.len() == choices@.len());
                }
                let k: usize = draw(rng, choices.len());
                let choice = choices[k].clone();
                proof {
                    assert(choice@ == list[k as int]);
                    lemma_still_standing(*rules, probe, p, order@, n as int, choice@);
                    picks = picks.push(k);
                    assert forall|gs: Seq<bool>, ps: Seq<usize>| #[trigger]
                        continues(goes, picks, gs, ps) implies continues(goes, picks0, gs, ps)
                        && ps[n as int] == k by {
                        assert forall|j: int| 0 <= j < picks0.len() implies ps[j]
                            == #[trigger] picks0[j] by {
                            assert(picks[j] == picks0[j]);
                        }
                        assert(picks[n as int] == k);
                    }
                }
                take_one(rules, &mut probe, p, &mut took, w, choice);
                n += 1;
            } else {
                assert(false);
                going = false;
            }
        }
    }
    let m = if took.len() == 0 {
        None
    } else {
        Some(Move { kind: MoveKind::Retrieve(took), beg, corn_cost: 0 })
    };
    proof {
        assert(continues(goes, picks, goes, picks));
        assert(retrieval_drawn(*rules, *g, p, beg, shuffled, goes, picks, play_of(m)));
        assert(workers_ok(order@));
        lemma_taking_offered(*rules, *g, p, order@, 0, Seq::empty(), goes, picks);
        assert(took@.take(0) =~= Seq::empty());
    }
    m
}

// ---- whole moves ---------------------------------------------------------

/// Whether a seat that starts its turn in one way can place or retrieve.
pub open spec fn can_act(rules: Rulebook, g: GameState, p: PlayerId, beg: Option<Temple>) -> bool {
    let h = begged(rules, g, p, beg);
    can_place(h, p, h.players[p.0 as int].corn as int) || board_list(h, p).len() > 0
}

/// Whether a seat can place or retrieve in any way at all.
pub open spec fn can_act_somehow(rules: Rulebook, g: GameState, p: PlayerId) -> bool {
    exists|i: int|
        0 <= i < beg_list(rules, g, p).len() && can_act(
            rules,
            g,
            p,
            #[trigger] beg_list(rules, g, p)[i],
        )
}

/// Whether a move places or retrieves as the generators offer it, once a turn has
/// started in one way.
pub open spec fn offered(
    rules: Rulebook,
    g: GameState,
    p: PlayerId,
    beg: Option<Temple>,
    m: Play,
) -> bool {
    let h = begged(rules, g, p, beg);
    ||| place_list(
        h,
        available_list(h, p),
        0,
        h.players[p.0 as int].corn as int,
        beg,
        Seq::empty(),
    ).contains(m)
    ||| goes_on(rules, h, p, Seq::empty(), beg, m)
}

/// Whether a move can be drawn: after some start of the turn it places or retrieves
/// as the generators offer it, or nothing does and it is one for pity.
pub open spec fn drawable(rules: Rulebook, g: GameState, p: PlayerId, m: Play) -> bool {
    if can_act_somehow(rules, g, p) {
        exists|i: int|
            0 <= i < beg_list(rules, g, p).len() && offered(
                rules,
                g,
                p,
                #[trigger] beg_list(rules, g, p)[i],
                m,
            )
    } else {
        pity_list(g, p).contains(m)
    }
}

/// Begging on one temple opens what begging on another opens.
proof fn lemma_begs_alike(rules: Rulebook, g: GameState, p: PlayerId, a: Temple, b: Temple)
    requires
        p.ok(),
    ensures
        can_act(rules, g, p, Some(a)) == can_act(rules, g, p, Some(b)),
{
    let x = begged(rules, g, p, Some(a));
    let y = begged(rules, g, p, Some(b));
    assert(x.workers == y.workers && x.gears == y.gears);
    assert(x.first_player_space == y.first_player_space);
    lemma_same_workers(x, y, p, |l: WorkerLoc| l == WorkerLoc::Available, 6);
    lemma_same_workers(x, y, p, |l: WorkerLoc| l is OnGear, 6);
    lemma_same_spots(x, y);
}

proof fn lemma_same_workers(
    x: GameState,
    y: GameState,
    p: PlayerId,
    f: spec_fn(WorkerLoc) -> bool,
    k: nat,
)
    requires
        x.workers == y.workers,
    ensures
        workers_where(x, p, f, k) == workers_where(y, p, f, k),
    decreases k,
{
    if k > 0 {
        lemma_same_workers(x, y, p, f, (k - 1) as nat);
    }
}

proof fn lemma_same_spots(x: GameState, y: GameState)
    requires
        x.gears == y.gears,
        x.first_player_space == y.first_player_space,
    ensures
        spots_list(x) == spots_list(y),
{
    let f = gear_spots(x);
    let h = gear_spots(y);
    assert forall|i: int| #![trigger f(i)] f(i) == h(i) by {
        lemma_same_free(x, y, Gear::at(i), 0);
    }
    lemma_flat_same(5, f, h);
}

proof fn lemma_same_free(x: GameState, y: GameState, gear: Gear, k: int)
    requires
        x.gears == y.gears,
    ensures
        free_from(x, gear, k) == free_from(y, gear, k),
    decreases gear.spaces() - k,
{
    if k < gear.spaces() {
        lemma_same_free(x, y, gear, k + 1);
    }
}

proof fn lemma_flat_same<A>(n: int, f: spec_fn(int) -> Seq<A>, h: spec_fn(int) -> Seq<A>)
    requires
        forall|i: int| #![trigger f(i)] f(i) == h(i),
    ensures
        flat(n, f) == flat(n, h),
    decreases n,
{
    if n > 0 {
        lemma_flat_same(n - 1, f, h);
        assert(f(n - 1) == h(n - 1));
    }
}

/// Where nothing can be placed, generation finds no placement.
proof fn lemma_no_place(
    g: GameState,
    p: PlayerId,
    budget: int,
    beg: Option<Temple>,
)
    requires
        !can_place(g, p, budget),
    ensures
        place_list(g, available_list(g, p), 0, budget, beg, Seq::empty()).len() == 0,
{
    let avail = available_list(g, p);
    let none = Seq::<(WorkerId, Placement)>::empty();
    if avail.len() > 0 {
        let f = place_each(g, avail, 0, budget, beg, none);
        let n = spots_list(g).len() as int;
        assert forall|i: int| 0 <= i < n implies #[trigger] f(i).len() == 0 by {
            assert(spots_list(g)[i].cost() > budget);
        }
        lemma_flat_none(n, f);
    }
}

proof fn lemma_flat_none<A>(n: int, f: spec_fn(int) -> Seq<A>)
    requires
        forall|i: int| 0 <= i < n ==> #[trigger] f(i).len() == 0,
    ensures
        flat(n, f).len() == 0,
    decreases n,
{
    if n > 0 {
        lemma_flat_none(n - 1, f);
    }
}

/// A seat that can neither place nor retrieve in any way has no ordinary move.
pub proof fn nothing_to_do_is_no_ordinary_move(rules: Rulebook, g: GameState, p: PlayerId)
    requires
        p.ok(),
        !can_act_somehow(rules, g, p),
    ensures
        normal_list(rules, g, p).len() == 0,
{
    lemma_nothing_upto(rules, g, p, beg_list(rules, g, p).len());
}

proof fn lemma_nothing_upto(rules: Rulebook, g: GameState, p: PlayerId, k: nat)
    requires
        p.ok(),
        !can_act_somehow(rules, g, p),
        k <= beg_list(rules, g, p).len(),
    ensures
        normal_upto(rules, g, p, k).0.len() == 0,
    decreases k,
{
    if k > 0 {
        lemma_nothing_upto(rules, g, p, (k - 1) as nat);
        let beg = beg_list(rules, g, p)[k - 1];
        assert(!can_act(rules, g, p, beg));
        let h = begged(rules, g, p, beg);
        lemma_no_place(h, p, h.players[p.0 as int].corn as int, beg);
        let mid = normal_upto(rules, g, p, (k - 1) as nat).1;
        let board = board_list(h, p);
        assert(workers_ok(board));
        assert(retrieve_walk(rules, h, p, board, Seq::empty(), beg, mid).0.len() == 0);
    }
}

/// Whether drawn values can order so many ways to start a turn: each names one
/// that begs.
pub open spec fn beg_picks_fit(n: int, first: Option<usize>, last: usize) -> bool {
    &&& first matches Some(k) ==> 1 <= k < n
    &&& n > 1 ==> 1 <= last < n
}

/// The ways to start a turn in the order that drawn values give: perhaps begging
/// up front, then not begging, then begging where that is possible.
pub open spec fn beg_ordered(
    all: Seq<Option<Temple>>,
    first: Option<usize>,
    last: usize,
) -> Seq<Option<Temple>> {
    (match first {
        Some(k) => seq![all[k as int]],
        None => Seq::empty(),
    }) + seq![None] + only(all.len() > 1, all[last as int])
}

/// Whether ways to start a turn stand in the order they are tried in: begging at
/// most once before not begging, and once after where it is possible.
pub open spec fn tried_in_order(all: Seq<Option<Temple>>, tries: Seq<Option<Temple>>) -> bool {
    exists|first: Seq<Option<Temple>>, last: Seq<Option<Temple>>| #[trigger]
        tried_round(all, first, last) && tries == first + seq![None] + last
}

/// Whether these may be tried before and after not begging.
pub open spec fn tried_round(
    all: Seq<Option<Temple>>,
    first: Seq<Option<Temple>>,
    last: Seq<Option<Temple>>,
) -> bool {
    &&& first.len() <= 1
    &&& all.len() == 1 ==> first.len() == 0
    &&& last.len() == (if all.len() > 1 {
        1int
    } else {
        0int
    })
    &&& forall|i: int| 0 <= i < first.len() ==> (#[trigger] first[i]) is Some && all.contains(first[i])
    &&& forall|i: int| 0 <= i < last.len() ==> (#[trigger] last[i]) is Some && all.contains(last[i])
}

/// Put the ways to start a turn in the order that drawn values give.
pub fn beg_order(all: &Vec<Option<Temple>>, first: Option<usize>, last: usize) -> (out: Vec<
    Option<Temple>,
>)
    requires
        beg_picks_fit(all@.len() as int, first, last),
    ensures
        out@ == beg_ordered(all@, first, last),
{
    let mut out: Vec<Option<Temple>> = Vec::new();
    if let Some(k) = first {
        out.push(all[k]);
    }
    out.push(None);
    if all.len() > 1 {
        out.push(all[last]);
    }
    assert(out@ =~= beg_ordered(all@, first, last));
    out
}

/// The ways to start a turn in the order they should be tried: begging rarely
/// up front, otherwise only once nothing else works.
pub fn beg_candidates(
    rules: &Rulebook,
    g: &GameState,
    p: PlayerId,
    rng: &mut StdRng,
) -> (out: Vec<Option<Temple>>)
    requires
        p.ok(),
    ensures
        exists|first: Option<usize>, last: usize| #[trigger]
            beg_picks_fit(beg_list(*rules, *g, p).len() as int, first, last) && out@ == beg_ordered(
                beg_list(*rules, *g, p),
                first,
                last,
            ),
        tried_in_order(beg_list(*rules, *g, p), out@),
{
    let all = beg_options(rules, g, p);
    let more: usize = all.len() - 1;
    let first: Option<usize> = if more > 0 && chance(rng, 3, 20) {
        Some(1 + draw(rng, more))
    } else {
        None
    };
    let last: usize = if more > 0 {
        1 + draw(rng, more)
    } else {
        0
    };
    proof {
        assert(beg_picks_fit(all@.len() as int, first, last));
        lemma_tried_in_order(*rules, *g, p, first, last);
    }
    beg_order(&all, first, last)
}

/// The order that drawn values give is one to try.
proof fn lemma_tried_in_order(
    rules: Rulebook,
    g: GameState,
    p: PlayerId,
    first: Option<usize>,
    last: usize,
)
    requires
        beg_picks_fit(beg_list(rules, g, p).len() as int, first, last),
    ensures
        tried_in_order(beg_list(rules, g, p), beg_ordered(beg_list(rules, g, p), first, last)),
{
    let all = beg_list(rules, g, p);
    let a = match first {
        Some(k) => seq![all[k as int]],
        None => Seq::empty(),
    };
    let b = only(all.len() > 1, all[last as int]);
    if let Some(k) = first {
        lemma_beg_some(rules, g, p, k as int);
        assert(all.contains(all[k as int]));
    }
    if all.len() > 1 {
        lemma_beg_some(rules, g, p, last as int);
        assert(all.contains(all[last as int]));
    }
    assert(tried_round(all, a, b));
}

/// Every way to start a turn but the first is begging.
proof fn lemma_beg_some(rules: Rulebook, g: GameState, p: PlayerId, k: int)
    requires
        0 < k < beg_list(rules, g, p).len(),
    ensures
        beg_list(rules, g, p)[k] is Some,
{
    let f = begs(rules, g, p);
    let beg = beg_list(rules, g, p)[k];
    assert(flat(3, f)[k - 1] == beg);
    assert(flat(3, f).contains(beg));
    let i = lemma_flat_part(3, f, beg);
    assert(f(i)[0] == beg);
}

/// Of a retrieval and a placement that were drawn, the one that is played: the
/// kind that comes first, or the other where that one gave nothing.
pub open spec fn way_taken(first: bool, taken: Option<Play>, placed: Option<Play>) -> Option<Play> {
    if first {
        if taken is Some {
            taken
        } else {
            placed
        }
    } else {
        if placed is Some {
            placed
        } else {
            taken
        }
    }
}

/// Of a retrieval and a placement that were drawn, the one that is played.
pub fn either_way(first: bool, taken: Option<Move>, placed: Option<Move>) -> (m: Option<Move>)
    ensures
        play_of(m) == way_taken(first, play_of(taken), play_of(placed)),
{
    let (one, other) = if first {
        (taken, placed)
    } else {
        (placed, taken)
    };
    if one.is_some() {
        one
    } else {
        other
    }
}

/// Whether these were drawn for a way to start a turn: a retrieval and a placement,
/// where the one that comes first gave nothing or the other was not asked for.
pub open spec fn way_drawn(
    rules: Rulebook,
    g: GameState,
    p: PlayerId,
    beg: Option<Temple>,
    first: bool,
    taken: Option<Play>,
    placed: Option<Play>,
) -> bool {
    let h = begged(rules, g, p, beg);
    let budget = h.players[p.0 as int].corn as int;
    &&& (!first && placed is Some) || exists|shuffled: Seq<usize>, goes: Seq<bool>, picks: Seq<usize>|
     #[trigger]
        retrieval_drawn(rules, h, p, beg, shuffled, goes, picks, taken)
    &&& (first && taken is Some) || exists|goes: Seq<bool>, picks: Seq<usize>| #[trigger]
        placement_drawn(h, p, budget, beg, goes, picks, placed)
}

/// What a tried way to start a turn gave.
fn try_beg(
    rules: &Rulebook,
    g: &GameState,
    p: PlayerId,
    beg: Option<Temple>,
    rng: &mut StdRng,
) -> (m: Option<Move>)
    requires
        p.ok(),
        rules.ok(),
        g.ok(),
        beg_list(*rules, *g, p).contains(beg),
    ensures
        m is Some <==> can_act(*rules, *g, p, beg),
        exists|first: bool, taken: Option<Play>, placed: Option<Play>| #[trigger]
            way_drawn(*rules, *g, p, beg, first, taken, placed) && play_of(m) == way_taken(
                first,
                taken,
                placed,
            ),
        m matches Some(x) ==> offered(*rules, *g, p, beg, x@),
        m matches Some(x) ==> (payoffs_free(*rules) || payoffs_due(*rules, *g, p, x@) ==> fault_of(
            *rules,
            *g,
            p,
            x@,
        ) is None),
{
    let mut probe = *g;
    proof {
        lemma_begged_ok(*rules, *g, p, beg);
    }
    do_beg(rules, &mut probe, p, beg);
    let budget: u8 = probe.players[p.idx()].corn;
    let first = chance(rng, 1, 2);
    let mut taken: Option<Move> = None;
    let mut placed: Option<Move> = None;
    if first {
        taken = sample_retrieval(rules, &probe, p, beg, rng);
    }
    if taken.is_none() {
        placed = sample_placement(&probe, p, budget, beg, rng);
    }
    if !first && placed.is_none() {
        taken = sample_retrieval(rules, &probe, p, beg, rng);
    }
    proof {
        assert(way_drawn(*rules, *g, p, beg, first, play_of(taken), play_of(placed)));
        if placed is Some {
            generated_placements_are_legal(*rules, *g, p, beg, placed->Some_0@);
        }
        if taken is Some && (payoffs_free(*rules) || payoffs_due(*rules, *g, p, taken->Some_0@)) {
            lemma_beg_passes(*rules, *g, p, beg);
            assert(cards_ok(probe));
            if payoffs_free(*rules) {
                lemma_free_along(*rules, probe, p, taken->Some_0@.kind->Retrieve_0, 0);
            }
            lemma_offers_pass(*rules, probe, p, taken->Some_0@.kind->Retrieve_0, 0);
        }
    }
    either_way(first, taken, placed)
}

/// The first of some results that is one, or else the last resort.
pub open spec fn first_result(results: Seq<Option<Play>>, resort: Option<Play>) -> Option<Play>
    decreases results.len(),
{
    if results.len() == 0 {
        resort
    } else if results[0] is Some {
        results[0]
    } else {
        first_result(results.drop_first(), resort)
    }
}

/// What drawing gave, as it is seen.
pub open spec fn all_seen(v: Seq<Option<Move>>) -> Seq<Option<Play>> {
    Seq::new(v.len(), |i: int| play_of(v[i]))
}

/// The first of some results that is one, or else the last resort.
pub fn first_that_worked(results: &Vec<Option<Move>>, resort: Option<Move>) -> (m: Option<Move>)
    ensures
        play_of(m) == first_result(all_seen(results@), play_of(resort)),
{
    let ghost list = all_seen(results@);
    let mut i: usize = 0;
    assert(list.skip(0) =~= list);
    while i < results.len()
        invariant
            i <= results@.len(),
            list == all_seen(results@),
            first_result(list, play_of(resort)) == first_result(list.skip(i as int), play_of(resort)),
        decreases results@.len() - i,
    {
        assert(list.skip(i as int)[0] == play_of(results@[i as int]));
        if let Some(m) = &results[i] {
            return Some(m.clone());
        }
        assert(list.skip(i as int).drop_first() =~= list.skip(i + 1));
        i += 1;
    }
    assert(list.skip(i as int) =~= Seq::empty());
    resort
}

/// Whether results were drawn for ways to start a turn, tried one after another
/// until one worked.
pub open spec fn tries_drawn(
    rules: Rulebook,
    g: GameState,
    p: PlayerId,
    tries: Seq<Option<Temple>>,
    results: Seq<Option<Play>>,
) -> bool {
    &&& results.len() <= tries.len()
    &&& forall|k: int|
        0 <= k < results.len() ==> try_drawn(rules, g, p, tries[k], #[trigger] results[k])
    &&& forall|k: int| 0 <= k < results.len() - 1 ==> (#[trigger] results[k]) is None
    &&& results.len() < tries.len() ==> results.len() > 0 && results.last() is Some
}

/// Whether a result was drawn for one way to start a turn.
pub open spec fn try_drawn(
    rules: Rulebook,
    g: GameState,
    p: PlayerId,
    beg: Option<Temple>,
    m: Option<Play>,
) -> bool {
    &&& m is Some <==> can_act(rules, g, p, beg)
    &&& m matches Some(x) ==> offered(rules, g, p, beg, x)
    &&& exists|first: bool, taken: Option<Play>, placed: Option<Play>| #[trigger]
        way_drawn(rules, g, p, beg, first, taken, placed) && m == way_taken(first, taken, placed)
}

/// Whether a move was drawn: the ways to start a turn were tried in their order,
/// and where none worked it is one for pity, if there is any.
pub open spec fn turn_drawn(
    rules: Rulebook,
    g: GameState,
    p: PlayerId,
    tries: Seq<Option<Temple>>,
    results: Seq<Option<Play>>,
    pity: Option<Play>,
    m: Option<Play>,
) -> bool {
    &&& tried_in_order(beg_list(rules, g, p), tries)
    &&& tries_drawn(rules, g, p, tries, results)
    &&& pity matches Some(x) ==> pity_list(g, p).contains(x)
    &&& m is None ==> pity_list(g, p).len() == 0
    &&& m == first_result(results, pity)
}

/// Results that came to nothing leave the last resort.
proof fn lemma_no_result(results: Seq<Option<Play>>, resort: Option<Play>)
    requires
        forall|k: int| 0 <= k < results.len() ==> (#[trigger] results[k]) is None,
    ensures
        first_result(results, resort) == resort,
    decreases results.len(),
{
    if results.len() > 0 {
        lemma_no_result(results.drop_first(), resort);
    }
}

/// The one result there is, behind those that came to nothing.
proof fn lemma_last_result(results: Seq<Option<Play>>, resort: Option<Play>)
    requires
        results.len() > 0,
        forall|k: int| 0 <= k < results.len() - 1 ==> (#[trigger] results[k]) is None,
        results.last() is Some,
    ensures
        first_result(results, resort) == results.last(),
    decreases results.len(),
{
    if results.len() > 1 {
        lemma_last_result(results.drop_first(), resort);
    }
}

/// Where not begging and begging both lead nowhere, nothing does.
proof fn lemma_tried_all(
    rules: Rulebook,
    g: GameState,
    p: PlayerId,
    tries: Seq<Option<Temple>>,
)
    requires
        p.ok(),
        tried_in_order(beg_list(rules, g, p), tries),
        forall|k: int| 0 <= k < tries.len() ==> !can_act(rules, g, p, #[trigger] tries[k]),
    ensures
        !can_act_somehow(rules, g, p),
{
    let list = beg_list(rules, g, p);
    let (first, last) = choose|first: Seq<Option<Temple>>, last: Seq<Option<Temple>>| #[trigger]
        tried_round(list, first, last) && tries == first + seq![None] + last;
    assert forall|k: int| 0 <= k < list.len() implies !can_act(rules, g, p, #[trigger] list[k]) by {
        if k == 0 {
            assert(tries[first.len() as int] == None::<Temple>);
            assert(!can_act(rules, g, p, tries[first.len() as int]));
        } else {
            lemma_beg_some(rules, g, p, k);
            assert(tries[first.len() as int + 1] == last[0]);
            assert(!can_act(rules, g, p, tries[first.len() as int + 1]));
            lemma_begs_alike(rules, g, p, last[0]->Some_0, list[k]->Some_0);
        }
    }
}

/// The ways that are tried are ways to start a turn.
proof fn lemma_tries_listed(rules: Rulebook, g: GameState, p: PlayerId, tries: Seq<Option<Temple>>)
    requires
        tried_in_order(beg_list(rules, g, p), tries),
    ensures
        forall|k: int|
            0 <= k < tries.len() ==> beg_list(rules, g, p).contains(#[trigger] tries[k]),
{
    let list = beg_list(rules, g, p);
    let (first, last) = choose|first: Seq<Option<Temple>>, last: Seq<Option<Temple>>| #[trigger]
        tried_round(list, first, last) && tries == first + seq![None] + last;
    assert(list[0] == None::<Temple>);
    assert forall|k: int| 0 <= k < tries.len() implies list.contains(#[trigger] tries[k]) by {
        if k < first.len() {
            assert(tries[k] == first[k]);
        } else if k > first.len() {
            assert(tries[k] == last[k - first.len() - 1]);
        }
    }
}

/// Draw one legal move without enumerating the rest.
///
/// Begging is tried as a fallback, plus a small voluntary chance. A seat that
/// can do nothing else is pitied, for passing is not legal.
pub fn sample_legal_move(
    rules: &Rulebook,
    g: &GameState,
    p: PlayerId,
    rng: &mut StdRng,
) -> (m: Option<Move>)
    requires
        p.ok(),
        rules.ok(),
        g.ok(),
    ensures
        m is None <==> !can_act_somehow(*rules, *g, p) && pity_list(*g, p).len() == 0,
        exists|
            tries: Seq<Option<Temple>>,
            results: Seq<Option<Play>>,
            pity: Option<Play>,
        | #[trigger]
            turn_drawn(*rules, *g, p, tries, results, pity, play_of(m)),
        m matches Some(x) ==> drawable(*rules, *g, p, x@) && play_ok(x@),
        m matches Some(x) ==> (payoffs_free(*rules) || payoffs_due(*rules, *g, p, x@) ==> fault_of(
            *rules,
            *g,
            p,
            x@,
        ) is None),
{
    let tries = beg_candidates(rules, g, p, rng);
    let mut results: Vec<Option<Move>> = Vec::new();
    let mut found = false;
    let mut i: usize = 0;
    proof {
        lemma_tries_listed(*rules, *g, p, tries@);
    }
    while i < tries.len() && !found
        invariant
            i <= tries@.len(),
            results@.len() == i,
            p.ok(),
            rules.ok(),
            g.ok(),
            forall|k: int|
                0 <= k < tries@.len() ==> beg_list(*rules, *g, p).contains(#[trigger] tries@[k]),
            forall|k: int|
                0 <= k < i ==> try_drawn(*rules, *g, p, tries@[k], #[trigger] all_seen(results@)[k]),
            forall|k: int| 0 <= k < i - 1 ==> (#[trigger] all_seen(results@)[k]) is None,
            found ==> i > 0 && all_seen(results@)[i - 1] is Some,
            !found && i > 0 ==> all_seen(results@)[i - 1] is None,
            found ==> (payoffs_free(*rules) || payoffs_due(
                *rules,
                *g,
                p,
                all_seen(results@)[i - 1]->Some_0,
            )) ==> fault_of(
                *rules,
                *g,
                p,
                all_seen(results@)[i - 1]->Some_0,
            ) is None,
        decreases
                tries@.len() - i,
                if found {
                    0int
                } else {
                    1
                },
    {
        let m = try_beg(rules, g, p, tries[i], rng);
        let ghost was = all_seen(results@);
        found = m.is_some();
        assert(try_drawn(*rules, *g, p, tries@[i as int], play_of(m)));
        results.push(m);
        i += 1;
        assert(all_seen(results@) =~= was.push(play_of(m)));
    }
    let ghost list = all_seen(results@);
    let mut pity: Option<Move> = None;
    if !found {
        proof {
            assert forall|k: int| 0 <= k < tries@.len() implies !can_act(
                *rules,
                *g,
                p,
                #[trigger] tries@[k],
            ) by {
                assert(try_drawn(*rules, *g, p, tries@[k], list[k]));
            }
            lemma_tried_all(*rules, *g, p, tries@);
            nothing_to_do_is_no_ordinary_move(*rules, *g, p);
        }
        let all = pity_moves(g, p);
        assert(plays(all@).len() == all@.len());
        if all.len() > 0 {
            let k: usize = draw(rng, all.len());
            pity = Some(all[k].clone());
            proof {
                assert(plays(all@)[k as int] == all@[k as int]@);
                assert(pity_list(*g, p).contains(all@[k as int]@));
                generated_pity_is_legal(*rules, *g, p, all@[k as int]@);
            }
        }
    }
    proof {
        if found {
            lemma_last_result(list, play_of(pity));
            let at = tries@[i - 1];
            let k = beg_list(*rules, *g, p).index_of(at);
            assert(try_drawn(*rules, *g, p, at, list[i - 1]));
            assert(can_act(*rules, *g, p, beg_list(*rules, *g, p)[k]));
            assert(offered(*rules, *g, p, beg_list(*rules, *g, p)[k], list[i - 1]->Some_0));
            drawn_moves_can_be_played(*rules, *g, p, list[i - 1]->Some_0);
        } else {
            lemma_no_result(list, play_of(pity));
            if pity is Some {
                drawn_moves_can_be_played(*rules, *g, p, pity->Some_0@);
            }
        }
        let m = first_result(list, play_of(pity));
        assert(tries_drawn(*rules, *g, p, tries@, list));
        assert(turn_drawn(*rules, *g, p, tries@, list, play_of(pity), m));
    }
    first_that_worked(&results, pity)
}

// ---- several draws -------------------------------------------------------

/// A list with each of some drawn moves behind it that is not yet there, once, in
/// the order they came.
pub open spec fn with_new(ms: Seq<Play>, drawn: Seq<Play>) -> Seq<Play>
    decreases drawn.len(),
{
    if drawn.len() == 0 {
        ms
    } else {
        let s = with_new(ms, drawn.drop_last());
        if s.contains(drawn.last()) {
            s
        } else {
            s.push(drawn.last())
        }
    }
}

/// A list starts what it grows to; what is added is drawn, and new.
pub proof fn new_moves_come_behind(ms: Seq<Play>, drawn: Seq<Play>)
    ensures
        ({
            let s = with_new(ms, drawn);
            &&& ms.len() <= s.len() <= ms.len() + drawn.len()
            &&& s.take(ms.len() as int) == ms
            &&& ms.len() == 0 && drawn.len() > 0 ==> s.len() > 0
            &&& forall|i: int| ms.len() <= i < s.len() ==> drawn.contains(#[trigger] s[i])
            &&& forall|x: Play| #[trigger] drawn.contains(x) ==> s.contains(x)
            &&& forall|i: int, j: int|
                0 <= i < j && ms.len() <= j < s.len() ==> #[trigger] s[i] != #[trigger] s[j]
        }),
    decreases drawn.len(),
{
    if drawn.len() == 0 {
        assert(ms.take(ms.len() as int) =~= ms);
    } else {
        let rest = drawn.drop_last();
        let last = drawn.last();
        new_moves_come_behind(ms, rest);
        let r = with_new(ms, rest);
        let s = with_new(ms, drawn);
        assert(s.take(ms.len() as int) =~= r.take(ms.len() as int));
        assert(drawn[drawn.len() - 1] == last);
        assert forall|i: int| ms.len() <= i < s.len() implies drawn.contains(#[trigger] s[i]) by {
            if i < r.len() {
                assert(rest.contains(r[i]));
                assert(drawn[rest.index_of(r[i])] == r[i]);
            }
        }
        assert forall|x: Play| #[trigger] drawn.contains(x) implies s.contains(x) by {
            let k = drawn.index_of(x);
            if k < rest.len() {
                assert(rest[k] == x);
                assert(rest.contains(x));
                assert(s[r.index_of(x)] == x);
            } else if !r.contains(last) {
                assert(s[r.len() as int] == x);
            }
        }
        assert forall|i: int, j: int| 0 <= i < j && ms.len() <= j < s.len() implies #[trigger] s[i]
            != #[trigger] s[j] by {
            if j < r.len() {
                assert(r[i] != r[j]);
            } else {
                assert(r.contains(r[i]));
            }
        }
    }
}

/// A list of moves with each of some drawn ones behind it that is not yet there,
/// once, in the order they came.
pub fn with_drawn(ms: Vec<Move>, drawn: Vec<Move>) -> (out: Vec<Move>)
    ensures
        plays(out@) == with_new(plays(ms@), plays(drawn@)),
{
    let ghost start = plays(ms@);
    let ghost list = plays(drawn@);
    let mut out = ms;
    let mut k: usize = 0;
    assert(list.take(0) =~= Seq::empty());
    while k < drawn.len()
        invariant
            k <= drawn@.len(),
            list == plays(drawn@),
            plays(out@) == with_new(start, list.take(k as int)),
        decreases drawn@.len() - k,
    {
        let mut there = false;
        let mut j: usize = 0;
        while j < out.len()
            invariant
                j <= out@.len(),
                k < drawn@.len(),
                there == exists|x: int| 0 <= x < j && #[trigger] plays(out@)[x] == drawn@[k as int]@,
            decreases out@.len() - j,
        {
            let same = out[j].same(&drawn[k]);
            assert(plays(out@)[j as int] == out@[j as int]@);
            if same {
                there = true;
            }
            j += 1;
        }
        let ghost was = plays(out@);
        proof {
            assert(list.take(k + 1).drop_last() =~= list.take(k as int));
            assert(list.take(k + 1).last() == drawn@[k as int]@);
            assert(there == was.contains(drawn@[k as int]@));
        }
        if !there {
            out.push(drawn[k].clone());
            assert(plays(out@) =~= was.push(drawn@[k as int]@));
        }
        k += 1;
    }
    assert(list.take(k as int) =~= list);
    out
}

/// Whether moves are so many draws of the rollout policy, or none where there is
/// nothing to draw.
pub open spec fn drawn_times(
    rules: Rulebook,
    g: GameState,
    p: PlayerId,
    k: int,
    drawn: Seq<Play>,
) -> bool {
    &&& drawn.len() == (if !can_act_somehow(rules, g, p) && pity_list(g, p).len() == 0 {
        0
    } else {
        k
    })
    &&& forall|i: int| 0 <= i < drawn.len() ==> drawable(rules, g, p, #[trigger] drawn[i])
    &&& forall|i: int|
        0 <= i < drawn.len() && payoffs_free(rules) ==> fault_of(
            rules,
            g,
            p,
            #[trigger] drawn[i],
        ) is None
}

/// Draw so many moves.
pub(crate) fn draw_moves(
    rules: &Rulebook,
    g: &GameState,
    p: PlayerId,
    k: usize,
    rng: &mut StdRng,
) -> (drawn: Vec<Move>)
    requires
        p.ok(),
        rules.ok(),
        g.ok(),
    ensures
        drawn_times(*rules, *g, p, k as int, plays(drawn@)),
{
    let mut drawn: Vec<Move> = Vec::new();
    while drawn.len() < k
        invariant
            drawn@.len() <= k,
            p.ok(),
            rules.ok(),
            g.ok(),
            drawn@.len() > 0 ==> can_act_somehow(*rules, *g, p) || pity_list(*g, p).len() > 0,
            forall|i: int|
                0 <= i < drawn@.len() ==> drawable(*rules, *g, p, #[trigger] plays(drawn@)[i]),
            forall|i: int|
                0 <= i < drawn@.len() && payoffs_free(*rules) ==> fault_of(
                    *rules,
                    *g,
                    p,
                    #[trigger] plays(drawn@)[i],
                ) is None,
        decreases k - drawn@.len(),
    {
        match sample_legal_move(rules, g, p, rng) {
            Some(m) => {
                let ghost was = plays(drawn@);
                drawn.push(m);
                assert(plays(drawn@) =~= was.push(m@));
            },
            None => {
                return drawn;
            },
        }
    }
    drawn
}

} // verus!
