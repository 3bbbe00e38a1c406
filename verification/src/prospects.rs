//! What a plan goes by: which spaces a seat can still reach, what it can still
//! convert, how far along each line it is, and what a prior is steered by.

use crate::book::Rulebook;
use crate::commitment::{greatest, hand_value, level, spread_of, starting_climb, unlocked};
use crate::effect::Effect;
use crate::ids::{Gear, PlayerId, Resource, Science, Temple};
use crate::moves::Placement;
use crate::phase::Step;
use crate::plan::{
    advances, bits_set, convertible, days_left, has_spare, held_to, interval, into,
    is_food_day, is_spare, larger, leads,
    open_from, placement_serves, prize, progress, reach, ride, scoring_age, serves, skulls_open,
    soonest,
    sooner, span, steered, temple_part, touches, Fraction, Line, Schedule, Steer, KNOTS,
};
use crate::state::{GameState, WorkerLoc};
use vstd::prelude::*;

verus! {

// ---- the calendar --------------------------------------------------------

/// Everyone is fed on the eighth, fourteenth, twenty-first and twenty-seventh day,
/// and on no other.
pub proof fn the_four_food_days(d: int)
    ensures
        is_food_day(d) <==> d == 8 || d == 14 || d == 21 || d == 27,
{
}

/// The first age is scored on the fourteenth day and the second on the
/// twenty-seventh: before a scoring day its age is next, and after the last none.
pub proof fn ages_are_scored_on_their_days(day: u8)
    ensures
        day <= 13 ==> scoring_age(day) == Some(1u8),
        14 <= day <= 26 ==> scoring_age(day) == Some(2u8),
        day >= 27 ==> scoring_age(day) is None,
{
}

// ---- getting there -------------------------------------------------------

/// How many spaces a gear has.
pub open spec fn last_space(gear: Gear) -> int {
    if gear == Gear::Chichen {
        10
    } else {
        7
    }
}

/// Whether one of a seat's workers is carried to a space or past it in so many
/// days: it stands on the gear, the gear turns one space a day, and it is not
/// carried off the end or past the twenty-seventh day.
pub open spec fn carried_in(
    g: GameState,
    p: PlayerId,
    gear: Gear,
    space: int,
    i: int,
    d: int,
) -> bool {
    &&& 0 <= i < 6
    &&& d >= 0
    &&& g.workers[6 * p.0 + i] matches WorkerLoc::OnGear { gear: on, pos } && on == gear && (if pos.0
        >= space {
        d == 0
    } else {
        d == space - pos.0
    }) && pos.0 + d <= last_space(gear)
    &&& g.day + d <= 27
}

/// Whether one of a seat's workers is in hand or on the first player space.
pub open spec fn has_one_to_place(g: GameState, p: PlayerId) -> bool {
    exists|i: int|
        0 <= i < 6 && (#[trigger] g.workers[6 * p.0 + i] == WorkerLoc::Available || g.workers[6 * p.0
            + i] == WorkerLoc::FirstPlayerSpace)
}

/// Whether a seat can still act on a space or past it: a worker is carried there,
/// or one can be placed and carried there from the bottom, a day for the placing
/// and a day for each space.
pub open spec fn gets_there(g: GameState, p: PlayerId, gear: Gear, space: int) -> bool {
    &&& g.day < 27
    &&& {
        ||| exists|i: int, d: int| #[trigger] carried_in(g, p, gear, space, i, d)
        ||| has_one_to_place(g, p) && space <= last_space(gear) && g.day + 1 + space <= 27
    }
}

proof fn lemma_soonest(g: GameState, p: PlayerId, gear: Gear, m: int, k: int)
    requires
        p.ok(),
        0 <= k <= 6,
        g.day < 27,
    ensures
        match soonest(g, p, gear, m, k) {
            None => forall|i: int, d: int| i < k ==> !#[trigger] carried_in(g, p, gear, m, i, d),
            Some(x) => (exists|i: int| i < k && #[trigger] carried_in(g, p, gear, m, i, x)) && forall|
                i: int,
                d: int,
            | i < k && #[trigger] carried_in(g, p, gear, m, i, d) ==> x <= d,
        },
    decreases k,
{
    if k > 0 {
        lemma_soonest(g, p, gear, m, k - 1);
        let a = soonest(g, p, gear, m, k - 1);
        let b = ride(gear, m, days_left(g), g.workers[6 * p.0 + k - 1]);
        let r = soonest(g, p, gear, m, k);
        assert(r == sooner(a, b));
        assert forall|d: int| #[trigger] carried_in(g, p, gear, m, k - 1, d) <==> b == Some(d) by {}
        assert forall|i: int, d: int| i < k && #[trigger] carried_in(g, p, gear, m, i, d) implies (
        r is Some && r->Some_0 <= d) by {
            if i == k - 1 {
                assert(b == Some(d));
            }
        }
        if let Some(x) = r {
            if a is Some && a->Some_0 == x {
                let i = choose|i: int| i < k - 1 && #[trigger] carried_in(g, p, gear, m, i, x);
                assert(carried_in(g, p, gear, m, i, x));
            } else {
                assert(b == Some(x));
                assert(carried_in(g, p, gear, m, k - 1, x));
            }
        }
    }
}

/// A space is in reach exactly where the seat gets there in time, and as soon as
/// the first of its workers is carried there; only where none is does one have to
/// be placed.
pub proof fn spaces_in_reach(g: GameState, p: PlayerId, gear: Gear, space: int)
    requires
        p.ok(),
        0 <= space,
    ensures
        reach(g, p, gear, space) is Some <==> gets_there(g, p, gear, space),
        reach(g, p, gear, space) matches Some(d) ==> {
            let carried = exists|i: int, x: int| #[trigger] carried_in(g, p, gear, space, i, x);
            &&& carried ==> exists|i: int| #[trigger] carried_in(g, p, gear, space, i, d)
            &&& forall|i: int, x: int| #[trigger] carried_in(g, p, gear, space, i, x) ==> d <= x
            &&& !carried ==> d == 1 + space
        },
{
    if g.day < 27 {
        lemma_soonest(g, p, gear, space, 6);
        let s = soonest(g, p, gear, space, 6);
        if let Some(x) = s {
            let i = choose|i: int| i < 6 && #[trigger] carried_in(g, p, gear, space, i, x);
            assert(carried_in(g, p, gear, space, i, x));
        }
        assert(has_spare(g, p, 6) == has_one_to_place(g, p)) by {
            if has_one_to_place(g, p) {
                let i = choose|i: int|
                    0 <= i < 6 && (#[trigger] g.workers[6 * p.0 + i] == WorkerLoc::Available
                        || g.workers[6 * p.0 + i] == WorkerLoc::FirstPlayerSpace);
                assert(is_spare(g.workers[6 * p.0 + i]));
            }
        }
    }
}

/// Whether a seat can still put skulls down: some space of Chichen Itza is empty,
/// and it gets to the lowest such.
pub open spec fn skulls_go_down(g: GameState, p: PlayerId) -> bool {
    exists|k: int|
        1 <= k <= 9 && #[trigger] lowest_empty(g, k) && gets_there(g, p, Gear::Chichen, k)
}

/// Whether a space of Chichen Itza is empty and every one below it full.
pub open spec fn lowest_empty(g: GameState, k: int) -> bool {
    &&& (g.chichen_filled >> (k as u8)) & 1 != 1
    &&& forall|j: int| 1 <= j < k ==> #[trigger] (g.chichen_filled >> (j as u8)) & 1 == 1
}

proof fn lemma_open_from(g: GameState, k: int)
    requires
        1 <= k <= 10,
    ensures
        match open_from(g, k) {
            None => forall|j: int| k <= j <= 9 ==> #[trigger] (g.chichen_filled >> (j as u8)) & 1 == 1,
            Some(x) => k <= x <= 9 && (g.chichen_filled >> (x as u8)) & 1 != 1 && forall|j: int|
                k <= j < x ==> #[trigger] (g.chichen_filled >> (j as u8)) & 1 == 1,
        },
    decreases 10 - k,
{
    if k <= 9 {
        lemma_open_from(g, k + 1);
    }
}

proof fn lemma_skulls_go_down(g: GameState, p: PlayerId)
    requires
        p.ok(),
    ensures
        skulls_open(g, p) <==> skulls_go_down(g, p),
{
    lemma_open_from(g, 1);
    match open_from(g, 1) {
        Some(x) => {
            assert(lowest_empty(g, x));
            spaces_in_reach(g, p, Gear::Chichen, x);
            if skulls_go_down(g, p) {
                let k = choose|k: int|
                    1 <= k <= 9 && #[trigger] lowest_empty(g, k) && gets_there(
                        g,
                        p,
                        Gear::Chichen,
                        k,
                    );
                if k < x {
                    assert((g.chichen_filled >> (k as u8)) & 1 == 1);
                }
                if x < k {
                    assert((g.chichen_filled >> (x as u8)) & 1 == 1);
                }
            }
        },
        None => {
            if skulls_go_down(g, p) {
                let k = choose|k: int|
                    1 <= k <= 9 && #[trigger] lowest_empty(g, k) && gets_there(
                        g,
                        p,
                        Gear::Chichen,
                        k,
                    );
                assert((g.chichen_filled >> (k as u8)) & 1 == 1);
            }
        },
    }
}

// ---- converting ----------------------------------------------------------

/// A seat's wood, stone and gold, no more than nine counted.
pub open spec fn blocks_counted(g: GameState, p: PlayerId) -> int {
    let n = g.players[p.0 as int].res[0] + g.players[p.0 as int].res[1] + g.players[p.0 as int].res[2];
    if n > 9 {
        9
    } else {
        n
    }
}

/// A seat's corn, no more than sixteen counted.
pub open spec fn corn_counted(g: GameState, p: PlayerId) -> int {
    if g.players[p.0 as int].corn > 16 {
        16
    } else {
        g.players[p.0 as int].corn as int
    }
}

/// What can be converted is part of what is held: blocks where the seat gets to
/// build, skulls where it gets to put them down, and corn while two days are left,
/// a block weighing as much as four corn and a skull as much as eight. The whole is
/// all of it, convertible or not.
pub proof fn holdings_convert_where_a_worker_gets_to(g: GameState, p: PlayerId)
    requires
        p.ok(),
    ensures
        ({
            let (some, all) = convertible(g, p);
            let skulls = g.players[p.0 as int].res[3];
            let build = gets_there(g, p, Gear::Tikal, 2);
            let down = skulls_go_down(g, p);
            let turn = g.day <= 25;
            &&& all == 4 * blocks_counted(g, p) + 8 * skulls + corn_counted(g, p)
            &&& build && down && turn ==> some == all
            &&& !build ==> all - some >= 4 * blocks_counted(g, p)
            &&& !down ==> all - some >= 8 * skulls
            &&& !turn ==> all - some >= corn_counted(g, p)
            &&& build ==> some >= 4 * blocks_counted(g, p)
            &&& down ==> some >= 8 * skulls
            &&& turn ==> some >= corn_counted(g, p)
            &&& !build && !down && !turn ==> some == 0
            &&& 0 <= some <= all
        }),
{
    spaces_in_reach(g, p, Gear::Tikal, 2);
    lemma_skulls_go_down(g, p);
}

/// A seat that holds only skulls and cannot put one down can convert nothing, and
/// one that can put them down converts all.
pub proof fn skulls_convert_only_where_they_go_down(g: GameState, p: PlayerId)
    requires
        p.ok(),
        blocks_counted(g, p) == 0,
        corn_counted(g, p) == 0,
        g.players[p.0 as int].res[3] > 0,
    ensures
        !skulls_go_down(g, p) ==> convertible(g, p).0 == 0 && convertible(g, p).1 > 0,
        skulls_go_down(g, p) ==> convertible(g, p).0 == convertible(g, p).1,
{
    holdings_convert_where_a_worker_gets_to(g, p);
    spaces_in_reach(g, p, Gear::Tikal, 2);
    lemma_skulls_go_down(g, p);
}

/// A seat that holds only blocks converts all of them or nothing, by whether it
/// gets to the second space of Tikal.
pub proof fn blocks_convert_only_where_a_worker_builds(g: GameState, p: PlayerId)
    requires
        p.ok(),
        blocks_counted(g, p) > 0,
        corn_counted(g, p) == 0,
        g.players[p.0 as int].res[3] == 0,
    ensures
        !gets_there(g, p, Gear::Tikal, 2) ==> convertible(g, p).0 == 0 && convertible(g, p).1 > 0,
        gets_there(g, p, Gear::Tikal, 2) ==> convertible(g, p).0 == convertible(g, p).1,
{
    spaces_in_reach(g, p, Gear::Tikal, 2);
}

// ---- the lines -----------------------------------------------------------

/// Whether a share is so many parts of a whole, and all of it where there are
/// more.
pub open spec fn parts(f: Fraction, n: int, of: int) -> bool {
    f.den == of && f.num == (if n > of {
        of
    } else {
        n
    })
}

/// The skull line is nothing where no skull goes down; else a skull counts two
/// sixths and a level of theology one.
pub proof fn the_skull_line(rules: Rulebook, g: GameState, p: PlayerId)
    requires
        p.ok(),
    ensures
        !skulls_go_down(g, p) ==> progress(rules, g, p, Line::Skulls).num == 0,
        skulls_go_down(g, p) ==> parts(
            progress(rules, g, p, Line::Skulls),
            2 * g.players[p.0 as int].res[3] + g.research[p.0 as int][3],
            6,
        ),
{
    lemma_skulls_go_down(g, p);
}

/// The construction line is nothing where no worker gets to build; else a level of
/// architecture and a building count one sixth and a monument two.
pub proof fn the_construction_line(rules: Rulebook, g: GameState, p: PlayerId)
    requires
        p.ok(),
    ensures
        ({
            let pl = g.players[p.0 as int];
            let f = progress(rules, g, p, Line::Construction);
            &&& !gets_there(g, p, Gear::Tikal, 2) ==> f.num == 0
            &&& gets_there(g, p, Gear::Tikal, 2) ==> parts(
                f,
                g.research[p.0 as int][2] + bits_set(pl.buildings as nat) + 2 * bits_set(
                    pl.monuments as nat,
                ),
                6,
            )
        }),
{
    spaces_in_reach(g, p, Gear::Tikal, 2);
}

/// Cards are counted bit by bit.
pub proof fn cards_are_counted_once_each(n: nat)
    ensures
        bits_set(0) == 0,
        bits_set(2 * n) == bits_set(n),
        bits_set(2 * n + 1) == bits_set(n) + 1,
    decreases n,
{
    if n > 0 {
        assert((2 * n) % 2 == 0 && (2 * n) / 2 == n);
    }
    assert((2 * n + 1) % 2 == 1 && (2 * n + 1) / 2 == n);
}

/// What the top of a temple pays: brown six and then two, yellow two and then six,
/// green four both times.
pub proof fn temples_pay_their_prizes(age: u8)
    ensures
        prize(Temple::Brown, 1) == 6 && prize(Temple::Yellow, 1) == 2 && prize(Temple::Green, 1) == 4,
        prize(Temple::Brown, 2) == 2 && prize(Temple::Yellow, 2) == 6 && prize(Temple::Green, 2) == 4,
{
}

/// The temple line is that of the temple which is farthest along: the steps above
/// the first of those there are, weighed by the prize against six.
pub proof fn the_temple_line(
    rules: Rulebook,
    g: GameState,
    p: PlayerId,
    t: Temple,
    age: u8,
    k: int,
)
    requires
        p.ok(),
        t == Temple::Brown ==> k == 0,
        t == Temple::Yellow ==> k == 1,
        t == Temple::Green ==> k == 2,
        forall|u: Temple| rules.tops[#[trigger] u.rank()] > 1,
        scoring_age(g.day) == Some(age),
    ensures
        ({
            let part = temple_part(rules, g, p, t, age);
            let up = if g.temples[k][p.0 as int] > 1 {
                g.temples[k][p.0 as int] - 1
            } else {
                0
            };
            let pays: int = match t {
                Temple::Brown => if age == 1 {
                    6
                } else {
                    2
                },
                Temple::Yellow => if age == 1 {
                    2
                } else {
                    6
                },
                Temple::Green => 4,
            };
            &&& parts(part, up * pays, (rules.tops[k] - 1) * 6)
            &&& !progress(rules, g, p, Line::Temples).below(part)
        }),
        exists|u: Temple|
            progress(rules, g, p, Line::Temples) == #[trigger] temple_part(rules, g, p, u, age),
{
    assert(rules.tops[t.rank()] > 1);
    assert(t.rank() == k);
    let up = if g.temples[k][p.0 as int] > 1 {
        g.temples[k][p.0 as int] - 1
    } else {
        0
    };
    let top = rules.tops[k] - 1;
    assert(0 <= up * prize(t, age) <= 255 * 6) by (nonlinear_arith)
        requires
            0 <= up <= 255,
            0 <= prize(t, age) <= 6,
    ;
    assert(top * 6 <= 255 * 6);
    let a = temple_part(rules, g, p, Temple::Brown, age);
    let b = temple_part(rules, g, p, Temple::Yellow, age);
    let c = temple_part(rules, g, p, Temple::Green, age);
    lemma_part_ok(rules, g, p, Temple::Brown, age);
    lemma_part_ok(rules, g, p, Temple::Yellow, age);
    lemma_part_ok(rules, g, p, Temple::Green, age);
    lemma_not_below(a, b, c);
}

proof fn lemma_part_ok(rules: Rulebook, g: GameState, p: PlayerId, t: Temple, age: u8)
    requires
        rules.tops[t.rank()] > 1,
    ensures
        temple_part(rules, g, p, t, age).den > 0,
{
}

proof fn lemma_not_below(a: Fraction, b: Fraction, c: Fraction)
    requires
        a.den > 0,
        b.den > 0,
        c.den > 0,
    ensures
        ({
            let m = larger(larger(a, b), c);
            !m.below(a) && !m.below(b) && !m.below(c)
        }),
{
    let (an, ad, bn, bd, cn, cd) = (
        a.num as int,
        a.den as int,
        b.num as int,
        b.den as int,
        c.num as int,
        c.den as int,
    );
    assert(an * bd < bn * ad ==> !(bn * ad < an * bd));
    assert(an * bd < bn * ad && bn * cd < cn * bd ==> an * cd < cn * ad) by (nonlinear_arith)
        requires
            ad > 0,
            bd > 0,
            cd > 0,
            an >= 0,
            bn >= 0,
            cn >= 0,
    ;
    assert(bn * ad <= an * bd && an * cd < cn * ad ==> bn * cd < cn * bd) by (nonlinear_arith)
        requires
            ad > 0,
            bd > 0,
            cd > 0,
            an >= 0,
            bn >= 0,
            cn >= 0,
    ;
    assert(an * ad == an * ad);
}

/// The line that leads is behind none of the three, and ahead of each that comes
/// before it in the order skulls, construction, temples.
pub proof fn the_leader_is_farthest_along(f: [Fraction; 3], l: Line)
    requires
        leads(f, l),
    ensures
        ({
            let k: int = match l {
                Line::Skulls => 0,
                Line::Construction => 1,
                Line::Temples => 2,
            };
            let m = f[k];
            &&& m.num * f[0].den >= f[0].num * m.den
            &&& m.num * f[1].den >= f[1].num * m.den
            &&& m.num * f[2].den >= f[2].num * m.den
            &&& k > 0 ==> m.num * f[0].den > f[0].num * m.den
            &&& k > 1 ==> m.num * f[1].den > f[1].num * m.den
        }),
{
    let m = f[l.rank()];
    assert(!m.below(f[0]) && !m.below(f[1]) && !m.below(f[2]));
    if l.rank() > 0 {
        assert(f[0].below(m));
    }
    if l.rank() > 1 {
        assert(f[1].below(m));
    }
}

// ---- steering ------------------------------------------------------------

/// Whether an effect is for skulls: a skull gained, one put down, or theology.
pub open spec fn for_skulls(e: Effect) -> bool {
    match e {
        Effect::Res(Resource::Skull, n) => n > 0,
        Effect::FillChichen(_) => true,
        Effect::AdvanceResearch(Science::Theology) => true,
        _ => false,
    }
}

/// Whether an effect is for construction: a card taken, or architecture.
pub open spec fn for_construction(e: Effect) -> bool {
    match e {
        Effect::Build(_) => true,
        Effect::TakeMonument(_) => true,
        Effect::AdvanceResearch(Science::Architecture) => true,
        _ => false,
    }
}

/// Whether an effect is for a temple: a step up, on the named one if one is named.
pub open spec fn for_temples(e: Effect, target: Option<Temple>) -> bool {
    match e {
        Effect::TempleStep(t, n) => n > 0 && (target matches Some(u) ==> u == t),
        _ => false,
    }
}

/// A step advances the lines that some effect of it is for, and a step without
/// effects none.
pub proof fn steps_advance_what_their_effects_are_for(step: Step, target: Option<Temple>)
    ensures
        match step {
            Step::Take(c) => {
                &&& advances(step, Line::Skulls, target) <==> exists|i: int|
                    0 <= i < c@.len() && for_skulls(#[trigger] c@[i])
                &&& advances(step, Line::Construction, target) <==> exists|i: int|
                    0 <= i < c@.len() && for_construction(#[trigger] c@[i])
                &&& advances(step, Line::Temples, target) <==> exists|i: int|
                    0 <= i < c@.len() && for_temples(#[trigger] c@[i], target)
            },
            _ => !advances(step, Line::Skulls, target) && !advances(
                step,
                Line::Construction,
                target,
            ) && !advances(step, Line::Temples, target),
        },
{
    if let Step::Take(c) = step {
        assert forall|i: int| 0 <= i < c@.len() implies (serves(
            #[trigger] c@[i],
            Line::Skulls,
            target,
        ) <==> for_skulls(c@[i])) && (serves(c@[i], Line::Construction, target)
            <==> for_construction(c@[i])) && (serves(c@[i], Line::Temples, target)
            <==> for_temples(c@[i], target)) by {}
        if exists|i: int| 0 <= i < c@.len() && for_skulls(#[trigger] c@[i]) {
            let i = choose|i: int| 0 <= i < c@.len() && for_skulls(#[trigger] c@[i]);
            assert(serves(c@[i], Line::Skulls, target));
        }
        if exists|i: int| 0 <= i < c@.len() && for_construction(#[trigger] c@[i]) {
            let i = choose|i: int| 0 <= i < c@.len() && for_construction(#[trigger] c@[i]);
            assert(serves(c@[i], Line::Construction, target));
        }
        if exists|i: int| 0 <= i < c@.len() && for_temples(#[trigger] c@[i], target) {
            let i = choose|i: int| 0 <= i < c@.len() && for_temples(#[trigger] c@[i], target);
            assert(serves(c@[i], Line::Temples, target));
        }
    }
}

/// A placement serves the lines of its gear: Yaxchilan skulls, Chichen Itza skulls
/// and temples, Tikal construction and temples, the other two none.
pub proof fn placements_serve_the_lines_of_their_gear(step: Step)
    ensures
        ({
            let on = |gear: Gear|
                step matches Step::Place(Placement::Gear(at, _)) && at == gear;
            &&& placement_serves(step, Line::Skulls) <==> on(Gear::Yaxchilan) || on(Gear::Chichen)
            &&& placement_serves(step, Line::Construction) <==> on(Gear::Tikal)
            &&& placement_serves(step, Line::Temples) <==> on(Gear::Chichen) || on(Gear::Tikal)
        }),
{
}

/// A plan keeps an edge that touches no line, raises one that touches the leading
/// line, and lowers one that touches only others; a blind one raises every edge
/// that touches any. Placements count only where they are asked to.
pub proof fn plans_raise_what_serves_the_leader(
    step: Step,
    leader: Line,
    target: Option<Temple>,
    place: bool,
    blind: bool,
)
    ensures
        ({
            let on = |l: Line| advances(step, l, target) || (place && placement_serves(step, l));
            let any = on(Line::Skulls) || on(Line::Construction) || on(Line::Temples);
            let s = steered(step, leader, target, place, blind);
            &&& s == Steer::Keep <==> !any
            &&& s == Steer::Raise <==> any && (blind || on(leader))
            &&& s == Steer::Lower <==> any && !blind && !on(leader)
        }),
{
    assert(touches(step, leader, target, place) ==> (touches(step, Line::Skulls, target, place)
        || touches(step, Line::Construction, target, place) || touches(
        step,
        Line::Temples,
        target,
        place,
    )));
}

// ---- schedules and drafts ------------------------------------------------

/// A schedule's weights go straight from one knot to the next, the knots on the
/// days 0, 8, 14, 21 and 27, and stay at the last; each is counted as often as the
/// days between the two knots.
pub proof fn schedules_bend_on_the_scoring_and_food_days(s: Schedule, day: u8, i: int)
    requires
        0 <= i < 8,
    ensures
        day < 8 ==> s.weight(day, i) == s.w[0][i] * (8 - day) + s.w[1][i] * day && span(day) == 8,
        8 <= day < 14 ==> s.weight(day, i) == s.w[1][i] * (14 - day) + s.w[2][i] * (day - 8) && span(
            day,
        ) == 6,
        14 <= day < 21 ==> s.weight(day, i) == s.w[2][i] * (21 - day) + s.w[3][i] * (day - 14)
            && span(day) == 7,
        21 <= day < 27 ==> s.weight(day, i) == s.w[3][i] * (27 - day) + s.w[4][i] * (day - 21)
            && span(day) == 6,
        day >= 27 ==> s.weight(day, i) == s.w[4][i] * 6 && span(day) == 6,
{
    assert(KNOTS[0] == 0 && KNOTS[1] == 8 && KNOTS[2] == 14 && KNOTS[3] == 21 && KNOTS[4] == 27);
    let x = s.w[interval(day)][i] as int;
    let y = s.w[interval(day) + 1][i] as int;
    assert(s.weight(day, i) == x * (span(day) - into(day)) + y * into(day));
    if day >= 27 {
        assert(into(day) == 6 && span(day) == 6);
        assert(x * 0 == 0);
    }
}

/// A fitted weight is held between nothing and four.
pub proof fn fitted_weights_stay_between_nothing_and_four(x: i32)
    ensures
        0 <= held_to(x) <= 400,
        0 <= x <= 400 ==> held_to(x) == x,
        x < 0 ==> held_to(x) == 0,
        x > 400 ==> held_to(x) == 400,
{
}

/// The smallest of three.
pub open spec fn least_of(a: u8, b: u8, c: u8) -> int {
    if a <= b && a <= c {
        a as int
    } else if b <= c {
        b as int
    } else {
        c as int
    }
}

/// Two hands with the same workers, temples and tracks differ in worth by what they
/// hold: in hundredths 45 a corn, 90, 110 and 140 a wood, stone and gold and 60 more
/// for each set of the three, 400 a skull, 200 a free worker and 40 a tile.
pub proof fn hands_differ_by_what_they_hold(
    g: GameState,
    h: GameState,
    p: PlayerId,
    climbed: [i16; 3],
)
    requires
        p.ok(),
        g.workers == h.workers,
        g.temples == h.temples,
        g.research == h.research,
    ensures
        ({
            let a = g.players[p.0 as int];
            let b = h.players[p.0 as int];
            hand_value(h, p, climbed) - hand_value(g, p, climbed) == 45 * (b.corn - a.corn) + 90 * (
            b.res[0] - a.res[0]) + 110 * (b.res[1] - a.res[1]) + 140 * (b.res[2] - a.res[2]) + 60 * (
            least_of(b.res[0], b.res[1], b.res[2]) - least_of(a.res[0], a.res[1], a.res[2])) + 400
                * (b.res[3] - a.res[3]) + 200 * (b.free_workers - a.free_workers) + 40 * ((
            b.corn_tiles + b.wood_tiles) - (a.corn_tiles + a.wood_tiles))
        }),
{
    lemma_unlocked_same(g, h, p, 6);
    let c1 = climbed[Temple::Brown.rank()] as int;
    let c2 = climbed[Temple::Yellow.rank()] as int;
    let c3 = climbed[Temple::Green.rank()] as int;
    assert(starting_climb(g, p, Temple::Brown, c1)
        == starting_climb(h, p, Temple::Brown, c1));
    assert(starting_climb(g, p, Temple::Yellow, c2)
        == starting_climb(h, p, Temple::Yellow, c2));
    assert(starting_climb(g, p, Temple::Green, c3)
        == starting_climb(h, p, Temple::Green, c3));
}

proof fn lemma_unlocked_same(g: GameState, h: GameState, p: PlayerId, k: int)
    requires
        g.workers == h.workers,
    ensures
        unlocked(g, p, k) == unlocked(h, p, k),
    decreases k,
{
    if k > 0 {
        lemma_unlocked_same(g, h, p, k - 1);
    }
}

/// The unlocked workers are those of a seat's six that are not locked.
pub proof fn unlocked_workers_are_counted_once_each(g: GameState, p: PlayerId)
    ensures
        ({
            let on = |k: int|
                if g.workers[6 * p.0 + k] == WorkerLoc::Locked {
                    0int
                } else {
                    1
                };
            unlocked(g, p, 6) == on(0) + on(1) + on(2) + on(3) + on(4) + on(5)
        }),
{
    reveal_with_fuel(unlocked, 7);
}

/// A hand that holds nothing is worth its workers above three at 450, its levels at
/// 160, and its steps above the first: the points climbed and a quarter of the
/// prize of the first age, six, two and four, for each.
pub proof fn bare_hands_are_worth_workers_levels_and_steps(
    g: GameState,
    p: PlayerId,
    climbed: [i16; 3],
)
    requires
        p.ok(),
        g.players[p.0 as int].corn == 0,
        g.players[p.0 as int].res@ == seq![0u8, 0u8, 0u8, 0u8],
        g.players[p.0 as int].free_workers == 0,
        g.players[p.0 as int].corn_tiles == 0,
        g.players[p.0 as int].wood_tiles == 0,
    ensures
        ({
            let q = p.0 as int;
            let step = |k: int, pays: int|
                if g.temples[k][q] > 1 {
                    100 * climbed[k] + 25 * pays * (g.temples[k][q] - 1)
                } else {
                    0
                };
            hand_value(g, p, climbed) == 450 * unlocked(g, p, 6) - 1350 + 160 * (g.research[q][0]
                + g.research[q][1] + g.research[q][2] + g.research[q][3]) + step(0, 6) + step(1, 2)
                + step(2, 4)
        }),
{
    let pl = g.players[p.0 as int];
    assert(pl.res@[0] == 0 && pl.res@[1] == 0 && pl.res@[2] == 0 && pl.res@[3] == 0);
    assert(pl.res[0] == 0 && pl.res[1] == 0 && pl.res[2] == 0 && pl.res[3] == 0);
}

/// A lead counts for nothing over the last two days, and before that in proportion
/// to the days left.
pub proof fn leads_count_by_the_days_left(f: [Fraction; 3], left: int, more: int)
    requires
        left > 2,
        more > 2,
    ensures
        spread_of(f, 2).0 == 0 && spread_of(f, 1).0 == 0 && spread_of(f, 0).0 == 0,
        spread_of(f, left).0 * more == spread_of(f, more).0 * left,
        spread_of(f, left).1 == spread_of(f, more).1,
        spread_of(f, left).1 == 81 * (f[0].den * (f[1].den * f[2].den)),
{
    let d = 3 * greatest(
        level(f, 0),
        level(f, 1),
        level(f, 2),
    ) - (level(f, 0) + level(f, 1)
        + level(f, 2));
    assert((d * left) * more == (d * more) * left) by (nonlinear_arith);
}

} // verus!
