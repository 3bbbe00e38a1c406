//! What effects and moves come to: who pays, who gains, where workers end up,
//! and what stays as it was.

use crate::book::Rulebook;
use crate::effect::{after, after_all, chained_effects_compose, locked_from, Effect};
use crate::ids::{
    BuildingId, Gear, MonumentId, PlayerId, Pos, Resource, Science, Temple, TileKind, WorkerId,
};
use crate::legal::{corn_set, placed_all, play_ok, played, taken_all};
use crate::moves::{begged, put_at, Kind, Placement, Play};
use crate::state::{can_step, retrieved, top_taken, GameState, Player, WorkerLoc};
use vstd::prelude::*;

verus! {

// ---- what stays as it was ------------------------------------------------

/// Whether two positions differ at most in what belongs to one seat and in what
/// all seats share: the other seats hold, have climbed and know what they did.
pub open spec fn others_keep(g: GameState, h: GameState, p: PlayerId) -> bool {
    &&& forall|q: int| 0 <= q < 4 && q != p.0 ==> #[trigger] h.players[q] == g.players[q]
    &&& forall|q: int| 0 <= q < 4 && q != p.0 ==> #[trigger] h.research[q] == g.research[q]
    &&& forall|t: int, q: int|
        0 <= t < 3 && 0 <= q < 4 && q != p.0 ==> #[trigger] h.temples[t][q] == g.temples[t][q]
    &&& forall|w: int|
        0 <= w < 24 && !(6 * p.0 <= w < 6 * p.0 + 6) ==> #[trigger] h.workers[w] == g.workers[w]
}

/// Whether the calendar, the decks and the turn order are as they were.
pub open spec fn table_keeps(g: GameState, h: GameState) -> bool {
    &&& h.age1 == g.age1 && h.age2 == g.age2 && h.monument_deck == g.monument_deck
    &&& h.accumulated_corn == g.accumulated_corn
    &&& h.current == g.current && h.first_player == g.first_player
    &&& h.age == g.age && h.day == g.day && h.over == g.over
}

/// Whether a number moved by `n` and was held between `low` and `high`.
pub open spec fn moved_by(from: int, to: int, n: int, low: int, high: int) -> bool {
    &&& low <= from + n <= high ==> to - from == n
    &&& from + n < low ==> to == low
    &&& from + n > high ==> to == high
}

// ---- effects -------------------------------------------------------------

/// Corn, points and the worker allowances move by what the effect says, held to
/// what a byte or a score can hold, and nothing else moves.
pub proof fn counted_effects_move_one_count(rules: Rulebook, g: GameState, p: PlayerId, e: Effect)
    requires
        p.ok(),
    ensures
        ({
            let h = after(rules, g, p, e);
            let a = g.players[p.0 as int];
            let b = h.players[p.0 as int];
            match e {
                Effect::Corn(n) => moved_by(a.corn as int, b.corn as int, n as int, 0, 255) && b == (
                Player { corn: b.corn, ..a }),
                Effect::SetCorn(n) => b == (Player { corn: n, ..a }),
                Effect::Points(n) => moved_by(
                    a.points as int,
                    b.points as int,
                    n as int,
                    -32768,
                    32767,
                ) && b == (Player { points: b.points, ..a }),
                Effect::FreeWorker(n) => moved_by(
                    a.free_workers as int,
                    b.free_workers as int,
                    n as int,
                    0,
                    255,
                ) && b == (Player { free_workers: b.free_workers, ..a }),
                Effect::WorkerDiscount(n) => moved_by(
                    a.worker_discount as int,
                    b.worker_discount as int,
                    n as int,
                    0,
                    255,
                ) && b == (Player { worker_discount: b.worker_discount, ..a }),
                _ => true,
            }
        }),
        e is Corn || e is SetCorn || e is Points || e is FreeWorker || e is WorkerDiscount ==> after(
            rules,
            g,
            p,
            e,
        ) == (GameState { players: after(rules, g, p, e).players, ..g }),
        others_keep(g, after(rules, g, p, e), p) || !(e is Corn || e is SetCorn || e is Points
            || e is FreeWorker || e is WorkerDiscount),
{
    reveal(after);
}

/// A resource moves by what the effect says. Skulls come out of the bank and no
/// more come than it holds; those paid do not go back.
pub proof fn resources_move_between_seat_and_bank(
    rules: Rulebook,
    g: GameState,
    p: PlayerId,
    r: Resource,
    n: i8,
    k: int,
)
    requires
        p.ok(),
        r == Resource::Wood ==> k == 0,
        r == Resource::Stone ==> k == 1,
        r == Resource::Gold ==> k == 2,
        r == Resource::Skull ==> k == 3,
    ensures
        ({
            let h = after(rules, g, p, Effect::Res(r, n));
            let a = g.players[p.0 as int];
            let b = h.players[p.0 as int];
            let bank = g.skulls_remaining as int;
            &&& k < 3 ==> moved_by(a.res[k] as int, b.res[k] as int, n as int, 0, 255)
                && h.skulls_remaining == bank
            &&& k == 3 && 0 < n <= bank ==> moved_by(
                a.res[3] as int,
                b.res[3] as int,
                n as int,
                0,
                255,
            ) && h.skulls_remaining == bank - n
            &&& k == 3 && n > bank ==> moved_by(a.res[3] as int, b.res[3] as int, bank, 0, 255)
                && h.skulls_remaining == 0
            &&& k == 3 && n <= 0 ==> moved_by(a.res[3] as int, b.res[3] as int, n as int, 0, 255)
                && h.skulls_remaining == bank
            &&& forall|i: int| 0 <= i < 4 && i != k ==> b.res[i] == a.res[i]
            &&& b == (Player { res: b.res, ..a })
            &&& h == (GameState {
                players: h.players,
                skulls_remaining: h.skulls_remaining,
                ..g
            })
            &&& others_keep(g, h, p)
        }),
{
    reveal(after);
}

/// Whether some seat but one stands on the top step of track `k` or above it.
pub open spec fn top_held(g: GameState, p: PlayerId, k: int, top: int) -> bool {
    exists|q: int| 0 <= q < 4 && q != p.0 && (#[trigger] g.temples[k][q]) >= top
}

/// A step on a temple: down as far as the bottom; up no further than asked, never
/// past the top, never onto a top step that another seat stands on, and the whole
/// way wherever none of these forbids it. No other marker moves.
pub proof fn temple_steps_stay_on_the_track(
    rules: Rulebook,
    g: GameState,
    p: PlayerId,
    t: Temple,
    d: i8,
    k: int,
)
    requires
        p.ok(),
        t == Temple::Brown ==> k == 0,
        t == Temple::Yellow ==> k == 1,
        t == Temple::Green ==> k == 2,
    ensures
        ({
            let h = after(rules, g, p, Effect::TempleStep(t, d));
            let from = g.temples[k][p.0 as int] as int;
            let to = h.temples[k][p.0 as int] as int;
            let top = rules.tops[k] as int;
            let held = top_held(g, p, k, top);
            &&& d < 0 ==> to == (if from + d < 0 {
                0
            } else {
                from + d
            })
            &&& d >= 0 ==> from <= to <= from + d
            &&& d >= 0 && to > from ==> to <= top && (held ==> to < top)
            &&& d >= 0 && from + d <= top && (from + d < top || !held) ==> to == from + d
            &&& d >= 0 && from < top && from + d >= top ==> to == (if held {
                top - 1
            } else {
                top
            })
            &&& can_step(rules, g, p, t, d as int) <==> to == from + d
            &&& forall|i: int, q: int|
                0 <= i < 3 && 0 <= q < 4 && (i != k || q != p.0) ==> h.temples[i][q]
                    == g.temples[i][q]
            &&& h == (GameState { temples: h.temples, ..g })
            &&& others_keep(g, h, p)
        }),
{
    reveal(after);
    let top = rules.tops[k] as int;
    assert(t.rank() == k);
    assert(top_held(g, p, k, top) == top_taken(rules, g, p, t));
}

/// An advance goes one level up, to the third at most, on its own track alone.
pub proof fn advances_go_one_level_up(
    rules: Rulebook,
    g: GameState,
    p: PlayerId,
    s: Science,
    k: int,
)
    requires
        p.ok(),
        s == Science::Agriculture ==> k == 0,
        s == Science::Extraction ==> k == 1,
        s == Science::Architecture ==> k == 2,
        s == Science::Theology ==> k == 3,
    ensures
        ({
            let h = after(rules, g, p, Effect::AdvanceResearch(s));
            let from = g.research[p.0 as int][k];
            let to = h.research[p.0 as int][k];
            &&& from < 3 ==> to == from + 1
            &&& from >= 3 ==> to == from
            &&& forall|q: int, i: int|
                0 <= q < 4 && 0 <= i < 4 && (q != p.0 || i != k) ==> h.research[q][i]
                    == g.research[q][i]
            &&& h == (GameState { research: h.research, ..g })
        }),
{
    reveal(after);
}

/// Unlocking brings the seat's first locked worker to hand, and no other.
pub proof fn unlocking_frees_the_first_locked_worker(rules: Rulebook, g: GameState, p: PlayerId)
    requires
        p.ok(),
    ensures
        ({
            let h = after(rules, g, p, Effect::UnlockWorker);
            let none = forall|k: int|
                0 <= k < 6 ==> #[trigger] g.workers[6 * p.0 + k] != WorkerLoc::Locked;
            &&& none ==> h == g
            &&& h == (GameState { workers: h.workers, ..g })
            &&& !none ==> exists|k: int|
                0 <= k < 6 && #[trigger] g.workers[6 * p.0 + k] == WorkerLoc::Locked
                    && h.workers[6 * p.0 + k] == WorkerLoc::Available && (forall|j: int|
                    0 <= j < k ==> #[trigger] g.workers[6 * p.0 + j] != WorkerLoc::Locked) && (
                forall|w: int|
                    0 <= w < 24 && w != 6 * p.0 + k ==> #[trigger] h.workers[w] == g.workers[w])
        }),
{
    reveal(after);
    lemma_locked_from(g, p, 0);
}

proof fn lemma_locked_from(g: GameState, p: PlayerId, k: int)
    requires
        p.ok(),
        0 <= k <= 6,
    ensures
        match locked_from(g, p, k) {
            None => forall|j: int|
                k <= j < 6 ==> #[trigger] g.workers[6 * p.0 + j] != WorkerLoc::Locked,
            Some(w) => k <= w - 6 * p.0 < 6 && g.workers[6 * p.0 + (w - 6 * p.0)]
                == WorkerLoc::Locked && forall|j: int|
                k <= j < w - 6 * p.0 ==> #[trigger] g.workers[6 * p.0 + j] != WorkerLoc::Locked,
        },
    decreases 6 - k,
{
    if k < 6 {
        lemma_locked_from(g, p, k + 1);
    }
}

/// A tile taken leaves its space and comes to the seat; one burned only leaves.
pub proof fn tiles_leave_the_jungle(
    rules: Rulebook,
    g: GameState,
    p: PlayerId,
    pos: Pos,
)
    requires
        p.ok(),
        pos.0 < 8,
    ensures
        ({
            let st = g.palenque[pos.0 as int];
            let a = g.players[p.0 as int];
            let c = after(rules, g, p, Effect::TakePalenqueTile(pos, TileKind::Corn));
            let w = after(rules, g, p, Effect::TakePalenqueTile(pos, TileKind::Wood));
            let b = after(rules, g, p, Effect::BurnPalenqueWood(pos));
            &&& moved_by(st.corn as int, c.palenque[pos.0 as int].corn as int, -1, 0, 255)
            &&& c.palenque[pos.0 as int].wood == st.wood
            &&& moved_by(a.corn_tiles as int, c.players[p.0 as int].corn_tiles as int, 1, 0, 255)
            &&& c.players[p.0 as int] == (Player {
                corn_tiles: c.players[p.0 as int].corn_tiles,
                ..a
            })
            &&& moved_by(st.wood as int, w.palenque[pos.0 as int].wood as int, -1, 0, 255)
            &&& w.palenque[pos.0 as int].corn == st.corn
            &&& moved_by(a.wood_tiles as int, w.players[p.0 as int].wood_tiles as int, 1, 0, 255)
            &&& w.players[p.0 as int] == (Player {
                wood_tiles: w.players[p.0 as int].wood_tiles,
                ..a
            })
            &&& moved_by(st.wood as int, b.palenque[pos.0 as int].wood as int, -1, 0, 255)
            &&& b.palenque[pos.0 as int].corn == st.corn
            &&& b.players == g.players
            &&& forall|i: int|
                0 <= i < 8 && i != pos.0 ==> #[trigger] c.palenque[i] == g.palenque[i]
            &&& forall|i: int|
                0 <= i < 8 && i != pos.0 ==> #[trigger] w.palenque[i] == g.palenque[i]
            &&& forall|i: int|
                0 <= i < 8 && i != pos.0 ==> #[trigger] b.palenque[i] == g.palenque[i]
            &&& c == (GameState { palenque: c.palenque, players: c.players, ..g })
            &&& w == (GameState { palenque: w.palenque, players: w.players, ..g })
            &&& b == (GameState { palenque: b.palenque, ..g })
            &&& others_keep(g, c, p) && others_keep(g, w, p)
        }),
{
    reveal(after);
}

/// A skull put down fills its space and no other.
pub proof fn skulls_fill_their_space(
    rules: Rulebook,
    g: GameState,
    p: PlayerId,
    pos: Pos,
    k: u8,
)
    requires
        pos.0 < 16,
        k < 16,
    ensures
        ({
            let h = after(rules, g, p, Effect::FillChichen(pos));
            &&& (h.chichen_filled >> k) & 1 == 1 <==> k == pos.0 || (g.chichen_filled >> k) & 1 == 1
            &&& h == (GameState { chichen_filled: h.chichen_filled, ..g })
        }),
{
    reveal(after);
    let f = g.chichen_filled;
    let b = pos.0;
    assert(((f | (1u16 << b)) >> k) & 1 == 1 <==> k == b || (f >> k) & 1 == 1) by (bit_vector)
        requires
            b < 16,
            k < 16,
    ;
}

/// A building taken leaves the display and is owned; no other card is touched.
pub proof fn buildings_come_off_the_display(
    rules: Rulebook,
    g: GameState,
    p: PlayerId,
    id: BuildingId,
    k: u32,
)
    requires
        p.ok(),
        id.ok(),
        k < 32,
    ensures
        ({
            let h = after(rules, g, p, Effect::Build(id));
            let a = g.players[p.0 as int];
            let b = h.players[p.0 as int];
            &&& (b.buildings >> k) & 1 == 1 <==> k == id.0 - 1 || (a.buildings >> k) & 1 == 1
            &&& forall|i: int|
                0 <= i < 6 ==> #[trigger] h.buildings_up[i] == (if g.buildings_up[i] == Some(id) {
                    None
                } else {
                    g.buildings_up[i]
                })
            &&& b == (Player { buildings: b.buildings, ..a })
            &&& h == (GameState { buildings_up: h.buildings_up, players: h.players, ..g })
            &&& others_keep(g, h, p)
        }),
{
    reveal(after);
    let f = g.players[p.0 as int].buildings;
    let b: u32 = (id.0 - 1) as u32;
    assert(((f | (1u32 << b)) >> k) & 1 == 1 <==> k == b || (f >> k) & 1 == 1) by (bit_vector)
        requires
            b < 32,
            k < 32,
    ;
}

/// A monument taken leaves the display and is owned; no other card is touched.
pub proof fn monuments_come_off_the_display(
    rules: Rulebook,
    g: GameState,
    p: PlayerId,
    id: MonumentId,
    k: u16,
)
    requires
        p.ok(),
        id.ok(),
        k < 16,
    ensures
        ({
            let h = after(rules, g, p, Effect::TakeMonument(id));
            let a = g.players[p.0 as int];
            let b = h.players[p.0 as int];
            &&& (b.monuments >> k) & 1 == 1 <==> k == id.0 - 1 || (a.monuments >> k) & 1 == 1
            &&& forall|i: int|
                0 <= i < 6 ==> #[trigger] h.monuments_up[i] == (if g.monuments_up[i] == Some(id) {
                    None
                } else {
                    g.monuments_up[i]
                })
            &&& b == (Player { monuments: b.monuments, ..a })
            &&& h == (GameState { monuments_up: h.monuments_up, players: h.players, ..g })
            &&& others_keep(g, h, p)
        }),
{
    reveal(after);
    let f = g.players[p.0 as int].monuments;
    let b: u16 = (id.0 - 1) as u16;
    assert(((f | (1u16 << b)) >> k) & 1 == 1 <==> k == b || (f >> k) & 1 == 1) by (bit_vector)
        requires
            b < 16,
            k < 16,
    ;
}

/// One effect is that effect; effects one after another are each in the position
/// the ones before it left.
pub proof fn effects_are_taken_in_order(
    rules: Rulebook,
    g: GameState,
    p: PlayerId,
    e: Effect,
    s: Seq<Effect>,
)
    ensures
        after_all(rules, g, p, Seq::empty()) == g,
        after_all(rules, g, p, seq![e]) == after(rules, g, p, e),
        after_all(rules, g, p, seq![e] + s) == after_all(rules, after(rules, g, p, e), p, s),
        after_all(rules, g, p, s + seq![e]) == after(rules, after_all(rules, g, p, s), p, e),
{
    assert(seq![e].drop_last() =~= Seq::<Effect>::empty());
    assert(after_all(rules, g, p, seq![e].drop_last()) == g);
    chained_effects_compose(rules, g, p, seq![e], s);
    assert((s + seq![e]).drop_last() =~= s);
}

/// Effects touch what belongs to the seat that takes them and what all share, and
/// never the calendar, the decks or the turn order.
pub proof fn effects_leave_the_others_alone(
    rules: Rulebook,
    g: GameState,
    p: PlayerId,
    s: Seq<Effect>,
)
    requires
        p.ok(),
    ensures
        others_keep(g, after_all(rules, g, p, s), p),
        table_keeps(g, after_all(rules, g, p, s)),
        after_all(rules, g, p, s).gears == g.gears,
        after_all(rules, g, p, s).first_player_space == g.first_player_space,
    decreases s.len(),
{
    if s.len() > 0 {
        effects_leave_the_others_alone(rules, g, p, s.drop_last());
        let h = after_all(rules, g, p, s.drop_last());
        let e = s.last();
        reveal(after);
        if e is UnlockWorker {
            lemma_locked_from(h, p, 0);
        }
        let k = after(rules, h, p, e);
        assert(others_keep(h, k, p));
        assert(others_keep(g, k, p)) by {
            assert forall|q: int| 0 <= q < 4 && q != p.0 implies #[trigger] k.players[q]
                == g.players[q] by {
                assert(h.players[q] == g.players[q]);
            }
            assert forall|q: int| 0 <= q < 4 && q != p.0 implies #[trigger] k.research[q]
                == g.research[q] by {
                assert(h.research[q] == g.research[q]);
            }
            assert forall|w: int|
                0 <= w < 24 && !(6 * p.0 <= w < 6 * p.0 + 6) implies #[trigger] k.workers[w]
                == g.workers[w] by {
                assert(h.workers[w] == g.workers[w]);
            }
        }
    }
}

/// The points among some effects.
pub open spec fn points_among(s: Seq<Effect>) -> int
    decreases s.len(),
{
    if s.len() == 0 {
        0
    } else {
        points_among(s.drop_last()) + match s.last() {
            Effect::Points(n) => n as int,
            _ => 0,
        }
    }
}

/// A seat's score moves by the points among the effects it takes.
pub proof fn scores_move_by_the_points_taken(
    rules: Rulebook,
    g: GameState,
    p: PlayerId,
    s: Seq<Effect>,
)
    requires
        p.ok(),
        -32768 + 128 * s.len() <= g.players[p.0 as int].points <= 32767 - 128 * s.len(),
    ensures
        after_all(rules, g, p, s).players[p.0 as int].points == g.players[p.0 as int].points
            + points_among(s),
        -128 * s.len() <= points_among(s) <= 127 * s.len(),
    decreases s.len(),
{
    if s.len() > 0 {
        scores_move_by_the_points_taken(rules, g, p, s.drop_last());
        reveal(after);
    }
}

// ---- begging -------------------------------------------------------------

/// Begging fills the seat's hand up to three corn and costs it one step on the
/// temple it begs on, and nothing else.
pub proof fn begging_costs_a_step(rules: Rulebook, g: GameState, p: PlayerId, t: Temple, k: int)
    requires
        p.ok(),
        t == Temple::Brown ==> k == 0,
        t == Temple::Yellow ==> k == 1,
        t == Temple::Green ==> k == 2,
    ensures
        ({
            let h = begged(rules, g, p, Some(t));
            &&& h.players[p.0 as int] == (Player { corn: 3, ..g.players[p.0 as int] })
            &&& g.temples[k][p.0 as int] > 0 ==> h.temples[k][p.0 as int] == g.temples[k][p.0 as int]
                - 1
            &&& g.temples[k][p.0 as int] == 0 ==> h.temples[k][p.0 as int] == 0
            &&& forall|i: int, q: int|
                0 <= i < 3 && 0 <= q < 4 && (i != k || q != p.0) ==> h.temples[i][q]
                    == g.temples[i][q]
            &&& others_keep(g, h, p)
            &&& h == (GameState { players: h.players, temples: h.temples, ..g })
        }),
        begged(rules, g, p, None) == g,
{
}

// ---- placements ----------------------------------------------------------

/// Whether a worker stands where a placement put it.
pub open spec fn stands_at(g: GameState, w: WorkerId, spot: Placement) -> bool {
    match spot {
        Placement::Gear(gear, pos) => g.workers[w.0 as int] == (WorkerLoc::OnGear { gear, pos }),
        Placement::FirstPlayer => g.workers[w.0 as int] == WorkerLoc::FirstPlayerSpace,
    }
}

/// Whether a spot is marked as held by a worker.
pub open spec fn holds(g: GameState, w: WorkerId, spot: Placement) -> bool {
    match spot {
        Placement::Gear(gear, pos) => g.gears[gear.rank()].occ[pos.0 as int] == w.0,
        Placement::FirstPlayer => g.first_player_space == Some(w),
    }
}

proof fn lemma_put(g: GameState, w: WorkerId, spot: Placement)
    requires
        w.ok(),
        spot.ok(),
    ensures
        ({
            let h = put_at(g, w, spot);
            &&& stands_at(h, w, spot)
            &&& holds(h, w, spot)
            &&& h == (GameState {
                workers: h.workers,
                gears: h.gears,
                first_player_space: h.first_player_space,
                ..g
            })
            &&& forall|i: int| 0 <= i < 24 && i != w.0 ==> #[trigger] h.workers[i] == g.workers[i]
            &&& forall|u: WorkerId, s: Placement|
                s.ok() && s != spot ==> #[trigger] holds(h, u, s) == holds(g, u, s)
        }),
{
}

proof fn lemma_placed_all(g: GameState, v: Seq<(WorkerId, Placement)>)
    requires
        forall|i: int| 0 <= i < v.len() ==> (#[trigger] v[i]).0.ok() && v[i].1.ok(),
    ensures
        ({
            let h = placed_all(g, v);
            &&& h == (GameState {
                workers: h.workers,
                gears: h.gears,
                first_player_space: h.first_player_space,
                ..g
            })
            &&& forall|w: int|
                0 <= w < 24 && (forall|i: int| 0 <= i < v.len() ==> (#[trigger] v[i]).0.0 != w)
                    ==> #[trigger] h.workers[w] == g.workers[w]
            &&& forall|i: int|
                0 <= i < v.len() && (forall|j: int|
                    0 <= j < v.len() && j != i ==> (#[trigger] v[j]).0 != v[i].0) ==> stands_at(
                    h,
                    (#[trigger] v[i]).0,
                    v[i].1,
                )
            &&& forall|i: int|
                0 <= i < v.len() && (forall|j: int|
                    0 <= j < v.len() && j != i ==> (#[trigger] v[j]).1 != v[i].1) ==> holds(
                    h,
                    (#[trigger] v[i]).0,
                    v[i].1,
                )
        }),
    decreases v.len(),
{
    if v.len() > 0 {
        let r = v.drop_last();
        assert forall|i: int| 0 <= i < r.len() implies (#[trigger] r[i]).0.ok() && r[i].1.ok() by {
            assert(v[i].0.ok());
        }
        lemma_placed_all(g, r);
        let f = placed_all(g, r);
        let n = v.len() - 1;
        let (w, spot) = v[n];
        assert(v[n].0.ok() && v[n].1.ok());
        lemma_put(f, w, spot);
        let h = placed_all(g, v);
        assert(h == put_at(f, w, spot));
        assert forall|x: int|
            0 <= x < 24 && (forall|i: int| 0 <= i < v.len() ==> (#[trigger] v[i]).0.0 != x) implies
            #[trigger] h.workers[x] == g.workers[x] by {
            assert(v[n].0.0 != x);
            assert forall|i: int| 0 <= i < r.len() implies (#[trigger] r[i]).0.0 != x by {
                assert(v[i].0.0 != x);
            }
            assert(f.workers[x] == g.workers[x]);
        }
        assert forall|i: int|
            0 <= i < v.len() && (forall|j: int|
                0 <= j < v.len() && j != i ==> (#[trigger] v[j]).0 != v[i].0) implies stands_at(
            h,
            (#[trigger] v[i]).0,
            v[i].1,
        ) by {
            if i < n {
                assert forall|j: int| 0 <= j < r.len() && j != i implies (#[trigger] r[j]).0
                    != r[i].0 by {
                    assert(v[j].0 != v[i].0);
                }
                assert(stands_at(f, r[i].0, r[i].1));
                assert(v[n].0 != v[i].0);
                assert(v[i].0.ok());
            }
        }
        assert forall|i: int|
            0 <= i < v.len() && (forall|j: int|
                0 <= j < v.len() && j != i ==> (#[trigger] v[j]).1 != v[i].1) implies holds(
            h,
            (#[trigger] v[i]).0,
            v[i].1,
        ) by {
            if i < n {
                assert forall|j: int| 0 <= j < r.len() && j != i implies (#[trigger] r[j]).1
                    != r[i].1 by {
                    assert(v[j].1 != v[i].1);
                }
                assert(holds(f, r[i].0, r[i].1));
                assert(v[n].1 != v[i].1);
                assert(v[i].1.ok());
            }
        }
    }
}

/// A seat pays what its placements claim: after the move its corn and the cost
/// come to what it had in hand, which is three corn where it begged.
pub proof fn placements_are_paid_for(
    rules: Rulebook,
    g: GameState,
    p: PlayerId,
    m: Play,
)
    requires
        p.ok(),
        play_ok(m),
        m.kind is Place,
    ensures
        ({
            let h = played(rules, g, p, m);
            let hand: int = if m.beg is Some {
                3
            } else {
                g.players[p.0 as int].corn as int
            };
            &&& m.corn_cost <= hand ==> h.players[p.0 as int].corn + m.corn_cost == hand
            &&& m.corn_cost > hand ==> h.players[p.0 as int].corn == 0
        }),
{
    let k = begged(rules, g, p, m.beg);
    let v = m.kind->Place_0;
    let corn = k.players[p.0 as int].corn;
    lemma_placed_all(
        corn_set(
            k,
            p,
            if corn >= m.corn_cost {
                (corn - m.corn_cost) as u8
            } else {
                0
            },
        ),
        v,
    );
}

/// A placement move puts each worker it names where it says, marks each space it
/// names, and changes nothing but that, the corn and the step of a beg.
pub proof fn placements_put_workers_down(
    rules: Rulebook,
    g: GameState,
    p: PlayerId,
    m: Play,
    v: Seq<(WorkerId, Placement)>,
    i: int,
)
    requires
        p.ok(),
        play_ok(m),
        m.kind == Kind::Place(v),
        0 <= i < v.len(),
    ensures
        ({
            let h = played(rules, g, p, m);
            &&& (forall|j: int| 0 <= j < v.len() && j != i ==> (#[trigger] v[j]).0 != v[i].0)
                ==> stands_at(h, v[i].0, v[i].1)
            &&& (forall|j: int| 0 <= j < v.len() && j != i ==> (#[trigger] v[j]).1 != v[i].1)
                ==> holds(h, v[i].0, v[i].1)
            &&& forall|w: int|
                0 <= w < 24 && (forall|j: int| 0 <= j < v.len() ==> (#[trigger] v[j]).0.0 != w)
                    ==> #[trigger] h.workers[w] == g.workers[w]
            &&& h.players[p.0 as int] == (Player {
                corn: h.players[p.0 as int].corn,
                ..g.players[p.0 as int]
            })
            &&& forall|q: int| 0 <= q < 4 && q != p.0 ==> #[trigger] h.players[q] == g.players[q]
            &&& m.beg is None ==> h.temples == g.temples
            &&& h == (GameState {
                players: h.players,
                workers: h.workers,
                gears: h.gears,
                temples: h.temples,
                first_player_space: h.first_player_space,
                ..g
            })
        }),
{
    let k = begged(rules, g, p, m.beg);
    let corn = k.players[p.0 as int].corn;
    let f = corn_set(
        k,
        p,
        if corn >= m.corn_cost {
            (corn - m.corn_cost) as u8
        } else {
            0
        },
    );
    lemma_placed_all(f, v);
    assert(f.workers == g.workers);
}

/// A seat that is pitied gives up all its corn, and its worker stands where the
/// move says.
pub proof fn pity_takes_all_the_corn(
    rules: Rulebook,
    g: GameState,
    p: PlayerId,
    m: Play,
    w: WorkerId,
    spot: Placement,
)
    requires
        p.ok(),
        w.ok(),
        spot.ok(),
        m.kind == Kind::Pity(w, spot),
    ensures
        ({
            let h = played(rules, g, p, m);
            &&& h.players[p.0 as int] == (Player { corn: 0, ..g.players[p.0 as int] })
            &&& stands_at(h, w, spot)
            &&& holds(h, w, spot)
            &&& forall|q: int| 0 <= q < 4 && q != p.0 ==> #[trigger] h.players[q] == g.players[q]
            &&& forall|i: int| 0 <= i < 24 && i != w.0 ==> #[trigger] h.workers[i] == g.workers[i]
            &&& table_keeps(g, h)
        }),
{
    let k = begged(rules, g, p, m.beg);
    lemma_put(corn_set(k, p, 0), w, spot);
}

// ---- retrievals ----------------------------------------------------------

/// The points among the effects of some retrievals.
pub open spec fn points_taken(v: Seq<(WorkerId, Seq<Effect>)>) -> int
    decreases v.len(),
{
    if v.len() == 0 {
        0
    } else {
        points_taken(v.drop_last()) + points_among(v.last().1)
    }
}

/// How many effects some retrievals have.
pub open spec fn effects_taken(v: Seq<(WorkerId, Seq<Effect>)>) -> nat
    decreases v.len(),
{
    if v.len() == 0 {
        0
    } else {
        effects_taken(v.drop_last()) + v.last().1.len()
    }
}

proof fn lemma_taken_all(
    rules: Rulebook,
    g: GameState,
    p: PlayerId,
    v: Seq<(WorkerId, Seq<Effect>)>,
)
    requires
        p.ok(),
        forall|i: int| 0 <= i < v.len() ==> (#[trigger] v[i]).0.ok(),
    ensures
        ({
            let h = taken_all(rules, g, p, v);
            &&& table_keeps(g, h)
            &&& forall|i: int|
                0 <= i < v.len() ==> h.workers[(#[trigger] v[i]).0.0 as int] == WorkerLoc::Available
            &&& forall|w: int|
                0 <= w < 24 && (forall|i: int| 0 <= i < v.len() ==> (#[trigger] v[i]).0.0 != w)
                    ==> #[trigger] h.workers[w] == g.workers[w] || (g.workers[w]
                    == WorkerLoc::Locked && h.workers[w] == WorkerLoc::Available)
            &&& forall|q: int| 0 <= q < 4 && q != p.0 ==> #[trigger] h.players[q] == g.players[q]
            &&& forall|q: int| 0 <= q < 4 && q != p.0 ==> #[trigger] h.research[q] == g.research[q]
            &&& h.first_player_space == g.first_player_space
        }),
    decreases v.len(),
{
    if v.len() > 0 {
        let r = v.drop_last();
        assert forall|i: int| 0 <= i < r.len() implies (#[trigger] r[i]).0.ok() by {
            assert(v[i].0.ok());
        }
        lemma_taken_all(rules, g, p, r);
        let f = taken_all(rules, g, p, r);
        let n = v.len() - 1;
        let (w, s) = v[n];
        assert(v[n].0.ok());
        let a = after_all(rules, f, p, s);
        effects_leave_the_others_alone(rules, f, p, s);
        lemma_workers_after(rules, f, p, s);
        let h = retrieved(a, w);
        assert(h == taken_all(rules, g, p, v));
        assert forall|i: int| 0 <= i < v.len() implies h.workers[(#[trigger] v[i]).0.0 as int]
            == WorkerLoc::Available by {
            assert(v[i].0.ok());
            if i < n {
                assert(f.workers[r[i].0.0 as int] == WorkerLoc::Available);
                assert(a.workers[r[i].0.0 as int] == WorkerLoc::Available);
            }
        }
        assert forall|x: int|
            0 <= x < 24 && (forall|i: int| 0 <= i < v.len() ==> (#[trigger] v[i]).0.0 != x) implies
            #[trigger] h.workers[x] == g.workers[x] || (g.workers[x] == WorkerLoc::Locked
            && h.workers[x] == WorkerLoc::Available) by {
            assert(v[n].0.0 != x);
            assert forall|i: int| 0 <= i < r.len() implies (#[trigger] r[i]).0.0 != x by {
                assert(v[i].0.0 != x);
            }
            assert(f.workers[x] == g.workers[x] || (g.workers[x] == WorkerLoc::Locked
                && f.workers[x] == WorkerLoc::Available));
            assert(a.workers[x] == f.workers[x] || (f.workers[x] == WorkerLoc::Locked
                && a.workers[x] == WorkerLoc::Available));
        }
        assert forall|q: int| 0 <= q < 4 && q != p.0 implies #[trigger] h.players[q]
            == g.players[q] by {
            assert(f.players[q] == g.players[q]);
            assert(a.players[q] == f.players[q]);
        }
        assert forall|q: int| 0 <= q < 4 && q != p.0 implies #[trigger] h.research[q]
            == g.research[q] by {
            assert(f.research[q] == g.research[q]);
            assert(a.research[q] == f.research[q]);
        }
    }
}

/// Effects move no worker but bring locked ones to hand.
proof fn lemma_workers_after(rules: Rulebook, g: GameState, p: PlayerId, s: Seq<Effect>)
    requires
        p.ok(),
    ensures
        forall|w: int|
            0 <= w < 24 ==> #[trigger] after_all(rules, g, p, s).workers[w] == g.workers[w] || (
            g.workers[w] == WorkerLoc::Locked && after_all(rules, g, p, s).workers[w]
                == WorkerLoc::Available),
    decreases s.len(),
{
    if s.len() > 0 {
        lemma_workers_after(rules, g, p, s.drop_last());
        let h = after_all(rules, g, p, s.drop_last());
        reveal(after);
        lemma_locked_from(h, p, 0);
        let k = after(rules, h, p, s.last());
        assert forall|w: int| 0 <= w < 24 implies #[trigger] k.workers[w] == g.workers[w] || (
        g.workers[w] == WorkerLoc::Locked && k.workers[w] == WorkerLoc::Available) by {
            assert(h.workers[w] == g.workers[w] || (g.workers[w] == WorkerLoc::Locked
                && h.workers[w] == WorkerLoc::Available));
        }
    }
}

/// A retrieval move brings every worker it names back to hand, brings no other
/// worker off a gear, and leaves what the other seats hold alone.
pub proof fn retrievals_bring_workers_back(
    rules: Rulebook,
    g: GameState,
    p: PlayerId,
    m: Play,
    v: Seq<(WorkerId, Seq<Effect>)>,
)
    requires
        p.ok(),
        play_ok(m),
        m.kind == Kind::Retrieve(v),
    ensures
        ({
            let h = played(rules, g, p, m);
            &&& forall|i: int|
                0 <= i < v.len() ==> h.workers[(#[trigger] v[i]).0.0 as int] == WorkerLoc::Available
            &&& forall|w: int|
                0 <= w < 24 && (forall|i: int| 0 <= i < v.len() ==> (#[trigger] v[i]).0.0 != w)
                    ==> #[trigger] h.workers[w] == g.workers[w] || (g.workers[w]
                    == WorkerLoc::Locked && h.workers[w] == WorkerLoc::Available)
            &&& forall|q: int| 0 <= q < 4 && q != p.0 ==> #[trigger] h.players[q] == g.players[q]
            &&& h.first_player_space == g.first_player_space
            &&& table_keeps(g, h)
        }),
{
    let k = begged(rules, g, p, m.beg);
    lemma_taken_all(rules, k, p, v);
    assert(k.workers == g.workers);
    assert(forall|q: int| 0 <= q < 4 && q != p.0 ==> #[trigger] k.players[q] == g.players[q]);
}

proof fn lemma_points_taken(
    rules: Rulebook,
    g: GameState,
    p: PlayerId,
    v: Seq<(WorkerId, Seq<Effect>)>,
)
    requires
        p.ok(),
        -32768 + 128 * effects_taken(v) <= g.players[p.0 as int].points <= 32767 - 128
            * effects_taken(v),
    ensures
        taken_all(rules, g, p, v).players[p.0 as int].points == g.players[p.0 as int].points
            + points_taken(v),
        -128 * effects_taken(v) <= points_taken(v) <= 128 * effects_taken(v),
    decreases v.len(),
{
    if v.len() > 0 {
        let r = v.drop_last();
        lemma_points_taken(rules, g, p, r);
        let f = taken_all(rules, g, p, r);
        scores_move_by_the_points_taken(rules, f, p, v.last().1);
        let a = after_all(rules, f, p, v.last().1);
        assert(retrieved(a, v.last().0).players == a.players);
    }
}

/// A retrieval move scores the points among what its workers do.
pub proof fn retrievals_score_their_points(
    rules: Rulebook,
    g: GameState,
    p: PlayerId,
    m: Play,
    v: Seq<(WorkerId, Seq<Effect>)>,
)
    requires
        p.ok(),
        m.kind == Kind::Retrieve(v),
        -32768 + 128 * effects_taken(v) <= g.players[p.0 as int].points <= 32767 - 128
            * effects_taken(v),
    ensures
        played(rules, g, p, m).players[p.0 as int].points == g.players[p.0 as int].points
            + points_taken(v),
{
    let k = begged(rules, g, p, m.beg);
    assert(k.players[p.0 as int].points == g.players[p.0 as int].points);
    lemma_points_taken(rules, k, p, v);
}

/// One worker picked up: the effects are taken in the position the beg left, and
/// then the worker comes off its space, which is free again.
pub proof fn one_retrieval_is_its_effects_and_a_free_space(
    rules: Rulebook,
    g: GameState,
    p: PlayerId,
    m: Play,
    w: WorkerId,
    s: Seq<Effect>,
    gear: Gear,
    pos: Pos,
)
    requires
        p.ok(),
        w.ok(),
        pos.0 < 11,
        m.kind == Kind::Retrieve(seq![(w, s)]),
        g.workers[w.0 as int] == (WorkerLoc::OnGear { gear, pos }),
    ensures
        ({
            let h = played(rules, g, p, m);
            let a = after_all(rules, begged(rules, g, p, m.beg), p, s);
            &&& h.workers[w.0 as int] == WorkerLoc::Available
            &&& h.gears[gear.rank()].occ[pos.0 as int] == 255
            &&& forall|i: int|
                0 <= i < 11 && i != pos.0 ==> h.gears[gear.rank()].occ[i]
                    == g.gears[gear.rank()].occ[i]
            &&& forall|k: int| 0 <= k < 5 && k != gear.rank() ==> h.gears[k] == g.gears[k]
            &&& h == (GameState { workers: h.workers, gears: h.gears, ..a })
        }),
{
    let k = begged(rules, g, p, m.beg);
    let v = seq![(w, s)];
    assert(v.drop_last() =~= Seq::<(WorkerId, Seq<Effect>)>::empty());
    assert(taken_all(rules, k, p, v.drop_last()) == k);
    effects_leave_the_others_alone(rules, k, p, s);
    lemma_workers_after(rules, k, p, s);
    let a = after_all(rules, k, p, s);
    assert(a.workers[w.0 as int] == g.workers[w.0 as int]);
}

} // verus!
