//! What the spaces of the five gears offer, in numbers.
//!
//! Each law says of a choice whether a space offers it: the corn and the blocks it
//! yields, the temple it steps on, the points it scores, and what it takes.

use crate::book::Rulebook;
use crate::dominance::{collapsed, collapsing_keeps_every_choice};
use crate::effect::{after_all, Effect};
use crate::ids::{Gear, PlayerId, Pos, Resource, Temple, TileKind};
use crate::legal::lemma_flat_part;
use crate::lists::{flat, only, or_skip_list};
use crate::options::{building_list, exchange_list, research_list};
use crate::outcomes::top_held;
use crate::spaces::chichen::{
    chichen_low, devotions, devotions_on, devotions_with, spot_cores, spot_counted, spot_foreseen,
    spot_plain,
};
use crate::spaces::palenque::{digs, palenque_plain};
use crate::spaces::raw_list;
use crate::spaces::tikal::{steps_from, steps_paying, steps_with, tikal_plain, two_steps_list};
use crate::spaces::uxmal::{
    corn_builds_list, mirror_list, paid_steps, paid_steps_list, uxmal_plain,
};
use crate::spaces::yaxchilan::yaxchilan_plain;
use crate::state::{can_step, top_taken, GameState};
use vstd::prelude::*;

verus! {

// ---- membership ----------------------------------------------------------

pub(crate) proof fn lemma_in_both<A>(a: Seq<A>, b: Seq<A>, x: A)
    ensures
        (a + b).contains(x) <==> a.contains(x) || b.contains(x),
{
    let s = a + b;
    if s.contains(x) {
        let k = s.index_of(x);
        if k < a.len() {
            assert(a[k] == x);
        } else {
            assert(b[k - a.len()] == x);
        }
    }
    if a.contains(x) {
        assert(s[a.index_of(x)] == x);
    }
    if b.contains(x) {
        assert(s[a.len() + b.index_of(x)] == x);
    }
}

pub(crate) proof fn lemma_in_only<A>(on: bool, a: A, x: A)
    ensures
        only(on, a).contains(x) <==> on && x == a,
{
    if on {
        assert(only(on, a)[0] == a);
    }
}

pub(crate) proof fn lemma_in_flat<A>(n: int, f: spec_fn(int) -> Seq<A>, x: A)
    ensures
        flat(n, f).contains(x) <==> exists|i: int| 0 <= i < n && #[trigger] f(i).contains(x),
{
    if flat(n, f).contains(x) {
        let i = lemma_flat_part(n, f, x);
        assert(f(i).contains(x));
    }
    if exists|i: int| 0 <= i < n && #[trigger] f(i).contains(x) {
        let i = choose|i: int| 0 <= i < n && #[trigger] f(i).contains(x);
        lemma_flat_holds(n, f, i, x);
    }
}

pub(crate) proof fn lemma_flat_holds<A>(n: int, f: spec_fn(int) -> Seq<A>, k: int, x: A)
    requires
        0 <= k < n,
        f(k).contains(x),
    ensures
        flat(n, f).contains(x),
    decreases n,
{
    lemma_in_both(flat(n - 1, f), f(n - 1), x);
    if k < n - 1 {
        lemma_flat_holds(n - 1, f, k, x);
    }
}

pub(crate) proof fn lemma_in_or_skip(s: Seq<Seq<Effect>>, c: Seq<Effect>)
    ensures
        or_skip_list(s).contains(c) <==> s.contains(c) || (s.len() == 0 && c == Seq::<
            Effect,
        >::empty()),
{
    if s.len() == 0 {
        assert(or_skip_list(s)[0] == Seq::<Effect>::empty());
    }
}

pub(crate) proof fn lemma_in_one(a: Seq<Effect>, c: Seq<Effect>)
    ensures
        seq![a].contains(c) <==> c == a,
{
    assert(seq![a][0] == a);
}

/// How far a seat has climbed a temple: brown, yellow, green.
pub open spec fn mark(g: GameState, p: PlayerId, t: Temple) -> int {
    match t {
        Temple::Brown => g.temples[0][p.0 as int] as int,
        Temple::Yellow => g.temples[1][p.0 as int] as int,
        Temple::Green => g.temples[2][p.0 as int] as int,
    }
}

/// Whether a seat can take a step up a temple: it stays below the top, or reaches
/// a top that no other seat holds.
pub open spec fn may_climb(rules: Rulebook, g: GameState, p: PlayerId, t: Temple) -> bool {
    let k: int = match t {
        Temple::Brown => 0,
        Temple::Yellow => 1,
        Temple::Green => 2,
    };
    climbs_on(g, p, k, rules.tops[k] as int)
}

/// The same on track `k` with its top step.
pub open spec fn climbs_on(g: GameState, p: PlayerId, k: int, top: int) -> bool {
    let at = g.temples[k][p.0 as int];
    at + 1 < top || (at + 1 == top && !top_held(g, p, k, top))
}

/// A step up is one that the track allows, and a step down one from above the
/// bottom.
pub(crate) proof fn lemma_may_step(rules: Rulebook, g: GameState, p: PlayerId, t: Temple)
    requires
        p.ok(),
    ensures
        can_step(rules, g, p, t, 1) <==> may_climb(rules, g, p, t),
        can_step(rules, g, p, t, -1) <==> mark(g, p, t) > 0,
{
    let k = t.rank();
    assert(top_held(g, p, k, rules.tops[k] as int) == top_taken(rules, g, p, t));
}

// ---- Palenque ------------------------------------------------------------

/// What agriculture adds on a green corn space: one from the first level, three
/// from the third.
pub open spec fn green_corn(g: GameState, p: PlayerId) -> int {
    let a = g.research[p.0 as int][0];
    if a >= 3 {
        3
    } else if a >= 1 {
        1
    } else {
        0
    }
}

/// Fishing yields three corn, one more from the second level of agriculture.
pub proof fn fishing_yields_three_corn(rules: Rulebook, g: GameState, p: PlayerId, c: Seq<Effect>)
    requires
        p.ok(),
    ensures
        raw_list(rules, g, p, Gear::Palenque, 0).contains(c) <==> c == Seq::<Effect>::empty(),
        raw_list(rules, g, p, Gear::Palenque, 1).contains(c) <==> c == seq![
            Effect::Corn(if g.research[p.0 as int][0] >= 2 { 4i16 } else { 3i16 }),
        ],
{
    lemma_in_one(Seq::empty(), c);
    lemma_in_one(palenque_plain(rules, g, p)(1)[0], c);
    assert(raw_list(rules, g, p, Gear::Palenque, 1)[0] =~= seq![
        Effect::Corn(if g.research[p.0 as int][0] >= 2 { 4i16 } else { 3i16 }),
    ]);
}

/// The first field yields four corn with a tile, and what agriculture adds; with
/// no tile left it yields the same corn from the second level on and else nothing.
pub proof fn the_first_field_yields_four_corn(
    rules: Rulebook,
    g: GameState,
    p: PlayerId,
    c: Seq<Effect>,
)
    requires
        p.ok(),
    ensures
        ({
            let corn = Effect::Corn((4 + green_corn(g, p)) as i16);
            raw_list(rules, g, p, Gear::Palenque, 2).contains(c) <==> c == (if g.palenque[2].corn
                > 0 {
                seq![corn, Effect::TakePalenqueTile(Pos(2), TileKind::Corn)]
            } else if g.research[p.0 as int][0] >= 2 {
                seq![corn]
            } else {
                Seq::empty()
            })
        }),
{
    lemma_in_one(palenque_plain(rules, g, p)(2)[0], c);
}

/// The corn a jungle space yields before agriculture adds to it.
pub open spec fn jungle_harvest(pos: int) -> int {
    if pos == 3 {
        5
    } else if pos == 4 {
        7
    } else {
        9
    }
}

/// The wood a jungle space yields before extraction adds to it.
pub open spec fn jungle_timber(pos: int) -> int {
    if pos == 3 {
        2
    } else if pos == 4 {
        3
    } else {
        4
    }
}

/// Whether a jungle space lets a seat do this: take the wood, dig the corn out
/// from under it by burning the wood and angering a temple, take the corn that
/// shows, or harvest without a tile from the second level of agriculture.
pub open spec fn jungle_allows(g: GameState, p: PlayerId, pos: int, c: Seq<Effect>) -> bool {
    let st = g.palenque[pos];
    let at = Pos(pos as u8);
    let corn = Effect::Corn((jungle_harvest(pos) + green_corn(g, p)) as i16);
    let wood = Effect::Res(
        Resource::Wood,
        (jungle_timber(pos) + if g.research[p.0 as int][1] >= 1 {
            1int
        } else {
            0
        }) as i8,
    );
    ||| st.wood > 0 && c == seq![wood, Effect::TakePalenqueTile(at, TileKind::Wood)]
    ||| st.wood > 0 && st.corn > 0 && exists|t: Temple|
        mark(g, p, t) > 0 && c == #[trigger] dug_out(corn, at, t)
    ||| st.corn > st.wood && c == seq![corn, Effect::TakePalenqueTile(at, TileKind::Corn)]
    ||| st.corn <= st.wood && g.research[p.0 as int][0] >= 2 && c == seq![corn]
}

/// Corn dug out from under wood, and the step down it costs.
pub open spec fn dug_out(corn: Effect, at: Pos, t: Temple) -> Seq<Effect> {
    seq![
        corn,
        Effect::TakePalenqueTile(at, TileKind::Corn),
        Effect::BurnPalenqueWood(at),
        Effect::TempleStep(t, -1i8),
    ]
}

proof fn lemma_in_digs(rules: Rulebook, g: GameState, p: PlayerId, pos: int, c: Seq<Effect>)
    requires
        p.ok(),
        3 <= pos < 6,
    ensures
        flat(3, digs(rules, g, p, pos)).contains(c) <==> exists|t: Temple|
            mark(g, p, t) > 0 && c == #[trigger] dug_out(
                Effect::Corn((jungle_harvest(pos) + green_corn(g, p)) as i16),
                Pos(pos as u8),
                t,
            ),
{
    let f = digs(rules, g, p, pos);
    let corn = Effect::Corn((jungle_harvest(pos) + green_corn(g, p)) as i16);
    let at = Pos(pos as u8);
    lemma_in_flat(3, f, c);
    assert forall|i: int| 0 <= i < 3 implies (#[trigger] f(i).contains(c) <==> mark(
        g,
        p,
        Temple::at(i),
    ) > 0 && c == dug_out(corn, at, Temple::at(i))) by {
        lemma_may_step(rules, g, p, Temple::at(i));
        lemma_in_only(
            can_step(rules, g, p, Temple::at(i), -1),
            dug_out(corn, at, Temple::at(i)),
            c,
        );
        assert(f(i) =~= only(
            can_step(rules, g, p, Temple::at(i), -1),
            dug_out(corn, at, Temple::at(i)),
        ));
    }
    if exists|t: Temple| mark(g, p, t) > 0 && c == #[trigger] dug_out(corn, at, t) {
        let t = choose|t: Temple| mark(g, p, t) > 0 && c == #[trigger] dug_out(corn, at, t);
        let i = t.rank();
        assert(Temple::at(i) == t);
        assert(f(i).contains(c));
    }
    if flat(3, f).contains(c) {
        let i = choose|i: int| 0 <= i < 3 && #[trigger] f(i).contains(c);
        assert(c == dug_out(corn, at, Temple::at(i)));
    }
}

/// A jungle space offers exactly what it allows: five, seven and nine corn, two,
/// three and four wood on the third, fourth and fifth space. It offers nothing
/// only where it allows nothing.
pub proof fn the_jungle_yields_corn_and_wood(
    rules: Rulebook,
    g: GameState,
    p: PlayerId,
    pos: int,
    c: Seq<Effect>,
)
    requires
        p.ok(),
        3 <= pos < 6,
    ensures
        raw_list(rules, g, p, Gear::Palenque, pos).contains(c) <==> jungle_allows(g, p, pos, c) || (
        c == Seq::<Effect>::empty() && forall|d: Seq<Effect>| !jungle_allows(g, p, pos, d)),
{
    let st = g.palenque[pos];
    let at = Pos(pos as u8);
    let corn = Effect::Corn((jungle_harvest(pos) + green_corn(g, p)) as i16);
    let wood = Effect::Res(
        Resource::Wood,
        (jungle_timber(pos) + if g.research[p.0 as int][1] >= 1 {
            1int
        } else {
            0
        }) as i8,
    );
    let dug: Seq<Seq<Effect>> = if st.wood > 0 && st.corn > 0 {
        flat(3, digs(rules, g, p, pos))
    } else {
        Seq::empty()
    };
    let a = only(st.wood > 0, seq![wood, Effect::TakePalenqueTile(at, TileKind::Wood)]);
    let b = only(
        st.corn > st.wood,
        seq![corn, Effect::TakePalenqueTile(at, TileKind::Corn)],
    );
    let e = only(g.research[p.0 as int][0] >= 2 && !(st.corn > st.wood), seq![corn]);
    let all = a + dug + b + e;
    assert(raw_list(rules, g, p, Gear::Palenque, pos) =~= or_skip_list(all));
    assert forall|d: Seq<Effect>| #[trigger] all.contains(d) <==> jungle_allows(g, p, pos, d) by {
        lemma_in_both(a + dug + b, e, d);
        lemma_in_both(a + dug, b, d);
        lemma_in_both(a, dug, d);
        lemma_in_only(st.wood > 0, seq![wood, Effect::TakePalenqueTile(at, TileKind::Wood)], d);
        lemma_in_only(
            st.corn > st.wood,
            seq![corn, Effect::TakePalenqueTile(at, TileKind::Corn)],
            d,
        );
        lemma_in_only(g.research[p.0 as int][0] >= 2 && !(st.corn > st.wood), seq![corn], d);
        lemma_in_digs(rules, g, p, pos, d);
    }
    lemma_in_or_skip(all, c);
    assert(all.contains(c) <==> jungle_allows(g, p, pos, c));
    if all.len() > 0 {
        assert(all.contains(all[0]));
        assert(jungle_allows(g, p, pos, all[0]));
    } else {
        assert forall|d: Seq<Effect>| !jungle_allows(g, p, pos, d) by {
            assert(!all.contains(d));
        }
    }
}

// ---- Yaxchilan -----------------------------------------------------------

/// Yaxchilan yields a wood; a stone and a corn; a gold and two corn; a skull, two
/// from the third level of theology, and none from an empty bank; and a gold, a
/// stone and two corn. Extraction adds one wood, stone and gold from its first,
/// second and third level.
pub proof fn yaxchilan_yields_blocks(g: GameState, rules: Rulebook, p: PlayerId, c: Seq<Effect>)
    requires
        p.ok(),
    ensures
        ({
            let x = g.research[p.0 as int][1];
            let wood = Effect::Res(Resource::Wood, if x >= 1 { 2i8 } else { 1i8 });
            let stone = Effect::Res(Resource::Stone, if x >= 2 { 2i8 } else { 1i8 });
            let gold = Effect::Res(Resource::Gold, if x >= 3 { 2i8 } else { 1i8 });
            let skulls = Effect::Res(
                Resource::Skull,
                if g.research[p.0 as int][3] >= 3 { 2i8 } else { 1i8 },
            );
            let none = Seq::<Effect>::empty();
            &&& raw_list(rules, g, p, Gear::Yaxchilan, 0).contains(c) <==> c == none
            &&& raw_list(rules, g, p, Gear::Yaxchilan, 1).contains(c) <==> c == seq![wood]
            &&& raw_list(rules, g, p, Gear::Yaxchilan, 2).contains(c) <==> c == seq![
                stone,
                Effect::Corn(1),
            ]
            &&& raw_list(rules, g, p, Gear::Yaxchilan, 3).contains(c) <==> c == seq![
                gold,
                Effect::Corn(2),
            ]
            &&& raw_list(rules, g, p, Gear::Yaxchilan, 4).contains(c) <==> c == (
            if g.skulls_remaining == 0 {
                none
            } else {
                seq![skulls]
            })
            &&& raw_list(rules, g, p, Gear::Yaxchilan, 5).contains(c) <==> c == seq![
                gold,
                stone,
                Effect::Corn(2),
            ]
        }),
{
    let f = yaxchilan_plain(g, p);
    lemma_in_one(f(0)[0], c);
    lemma_in_one(f(1)[0], c);
    lemma_in_one(f(2)[0], c);
    lemma_in_one(f(3)[0], c);
    lemma_in_one(f(4)[0], c);
    lemma_in_one(f(5)[0], c);
}

// ---- Chichen Itza --------------------------------------------------------

/// The temple, the points and the block of each space of Chichen Itza.
pub open spec fn skull_reward(k: int) -> (Temple, i8, bool) {
    if k == 1 {
        (Temple::Brown, 4, false)
    } else if k == 2 {
        (Temple::Brown, 5, false)
    } else if k == 3 {
        (Temple::Brown, 6, false)
    } else if k == 4 {
        (Temple::Green, 7, false)
    } else if k == 5 {
        (Temple::Green, 8, false)
    } else if k == 6 {
        (Temple::Green, 8, true)
    } else if k == 7 {
        (Temple::Yellow, 10, false)
    } else if k == 8 {
        (Temple::Yellow, 11, true)
    } else {
        (Temple::Yellow, 13, true)
    }
}

/// Whether this is a skull put down on space `k`: the skull paid, the step up the
/// space's temple, its points, the space filled, and one block of the seat's choice
/// where the space grants one.
pub open spec fn skull_put(k: int, c: Seq<Effect>) -> bool {
    let (temple, points, block) = skull_reward(k);
    let base = seq![
        Effect::Res(Resource::Skull, -1i8),
        Effect::TempleStep(temple, 1i8),
        Effect::Points(points),
        Effect::FillChichen(Pos(k as u8)),
    ];
    if block {
        ||| c == base.push(Effect::Res(Resource::Wood, 1i8))
        ||| c == base.push(Effect::Res(Resource::Stone, 1i8))
        ||| c == base.push(Effect::Res(Resource::Gold, 1i8))
    } else {
        c == base
    }
}

/// Whether this is a skull put down with a block paid for one more step, the block
/// held and the step open once the skull is down.
pub open spec fn devoted(
    rules: Rulebook,
    g: GameState,
    p: PlayerId,
    core: Seq<Effect>,
    b: int,
    t: Temple,
    c: Seq<Effect>,
) -> bool {
    let h = after_all(rules, g, p, core);
    &&& 0 <= b < 3
    &&& h.players[p.0 as int].res[b] > 0
    &&& may_climb(rules, h, p, t)
    &&& c == core.push(
        Effect::Res(
            if b == 0 {
                Resource::Wood
            } else if b == 1 {
                Resource::Stone
            } else {
                Resource::Gold
            },
            -1i8,
        ),
    ).push(Effect::TempleStep(t, 1i8))
}

/// Whether a seat can do this with a skull on space `k`: it has a skull, the space
/// is empty, and from the second level of theology it may pay a block as well.
pub open spec fn skull_allows(
    rules: Rulebook,
    g: GameState,
    p: PlayerId,
    k: int,
    c: Seq<Effect>,
) -> bool {
    &&& g.players[p.0 as int].res[3] > 0
    &&& (g.chichen_filled >> (k as u8)) & 1 != 1
    &&& skull_put(k, c) || (g.research[p.0 as int][3] >= 2 && exists|
        core: Seq<Effect>,
        b: int,
        t: Temple,
    | skull_put(k, core) && #[trigger] devoted(rules, g, p, core, b, t, c))
}

proof fn lemma_in_cores(k: int, c: Seq<Effect>)
    requires
        1 <= k <= 9,
    ensures
        spot_cores(k).contains(c) <==> skull_put(k, c),
{
    let s = spot_cores(k);
    if s.contains(c) {
        let i = s.index_of(c);
        assert(s[i] == c);
    }
    if skull_put(k, c) {
        if skull_reward(k).2 {
            assert(s[0] == c || s[1] == c || s[2] == c);
        } else {
            assert(s[0] == c);
        }
    }
}

proof fn lemma_in_devotions(
    rules: Rulebook,
    g: GameState,
    p: PlayerId,
    core: Seq<Effect>,
    c: Seq<Effect>,
)
    requires
        p.ok(),
    ensures
        flat(3, devotions_with(rules, g, p, core)).contains(c) <==> exists|b: int, t: Temple|
            #[trigger] devoted(rules, g, p, core, b, t, c),
{
    let h = after_all(rules, g, p, core);
    let f = devotions_with(rules, g, p, core);
    lemma_in_flat(3, f, c);
    assert forall|b: int| 0 <= b < 3 implies (#[trigger] f(b).contains(c) <==> exists|t: Temple|
        #[trigger] devoted(rules, g, p, core, b, t, c)) by {
        let ft = devotions_on(rules, g, p, core, b);
        lemma_in_flat(3, ft, c);
        assert forall|i: int| 0 <= i < 3 implies (#[trigger] ft(i).contains(c) <==> may_climb(
            rules,
            h,
            p,
            Temple::at(i),
        ) && c == core.push(Effect::Res(Resource::at(b), (-1) as i8)).push(
            Effect::TempleStep(Temple::at(i), 1),
        )) by {
            lemma_may_step(rules, h, p, Temple::at(i));
            lemma_in_only(
                can_step(rules, h, p, Temple::at(i), 1),
                core.push(Effect::Res(Resource::at(b), (-1) as i8)).push(
                    Effect::TempleStep(Temple::at(i), 1),
                ),
                c,
            );
        }
        if f(b).contains(c) {
            let i = choose|i: int| 0 <= i < 3 && #[trigger] ft(i).contains(c);
            assert(devoted(rules, g, p, core, b, Temple::at(i), c));
        }
        if exists|t: Temple| #[trigger] devoted(rules, g, p, core, b, t, c) {
            let t = choose|t: Temple| #[trigger] devoted(rules, g, p, core, b, t, c);
            let i = t.rank();
            assert(Temple::at(i) == t);
            assert(ft(i).contains(c));
        }
    }
    if flat(3, f).contains(c) {
        let b = choose|b: int| 0 <= b < 3 && #[trigger] f(b).contains(c);
        let t = choose|t: Temple| #[trigger] devoted(rules, g, p, core, b, t, c);
        assert(devoted(rules, g, p, core, b, t, c));
    }
    if exists|b: int, t: Temple| #[trigger] devoted(rules, g, p, core, b, t, c) {
        let (b, t) = choose|b: int, t: Temple| #[trigger] devoted(rules, g, p, core, b, t, c);
        assert(f(b).contains(c));
    }
}

proof fn lemma_in_spot(rules: Rulebook, g: GameState, p: PlayerId, k: int, c: Seq<Effect>)
    requires
        p.ok(),
        1 <= k <= 9,
    ensures
        spot_plain(rules, g, p)(k).contains(c) <==> skull_allows(rules, g, p, k, c),
{
    let cores = spot_cores(k);
    let f = devotions(rules, g, p, k);
    let more = flat(cores.len() as int, f);
    lemma_in_cores(k, c);
    lemma_in_both(cores, more, c);
    lemma_in_flat(cores.len() as int, f, c);
    assert forall|i: int| 0 <= i < cores.len() implies (#[trigger] f(i).contains(c) <==> exists|
        b: int,
        t: Temple,
    | #[trigger] devoted(rules, g, p, cores[i], b, t, c)) by {
        lemma_in_devotions(rules, g, p, cores[i], c);
    }
    if more.contains(c) {
        let i = choose|i: int| 0 <= i < cores.len() && #[trigger] f(i).contains(c);
        let (b, t) = choose|b: int, t: Temple| #[trigger]
            devoted(rules, g, p, cores[i], b, t, c);
        assert(cores.contains(cores[i]));
        lemma_in_cores(k, cores[i]);
        assert(skull_put(k, cores[i]) && devoted(rules, g, p, cores[i], b, t, c));
    }
    if exists|core: Seq<Effect>, b: int, t: Temple|
        skull_put(k, core) && #[trigger] devoted(rules, g, p, core, b, t, c) {
        let (core, b, t) = choose|core: Seq<Effect>, b: int, t: Temple|
            skull_put(k, core) && #[trigger] devoted(rules, g, p, core, b, t, c);
        lemma_in_cores(k, core);
        let i = cores.index_of(core);
        assert(devoted(rules, g, p, cores[i], b, t, c));
        assert(f(i).contains(c));
    }
}

/// Whether a space of Chichen Itza lets a seat do this: put a skull on it, or,
/// from the first level of theology, on the next space up, and from the last on
/// any.
pub open spec fn chichen_allows(
    rules: Rulebook,
    g: GameState,
    p: PlayerId,
    pos: int,
    c: Seq<Effect>,
) -> bool {
    let foresees = g.research[p.0 as int][3] >= 1;
    ||| 1 <= pos <= 9 && skull_allows(rules, g, p, pos, c)
    ||| foresees && 0 <= pos < 9 && skull_allows(rules, g, p, pos + 1, c)
    ||| foresees && pos == 9 && exists|k: int|
        1 <= k <= 9 && #[trigger] skull_allows(rules, g, p, k, c)
}

/// Chichen Itza offers exactly what it allows: the first three spaces step up the
/// brown temple for four, five and six points, the next three up the green one for
/// seven, eight and eight, the last three up the yellow one for ten, eleven and
/// thirteen, the sixth, eighth and ninth with a block.
pub proof fn chichen_takes_a_skull_for_a_step_and_points(
    rules: Rulebook,
    g: GameState,
    p: PlayerId,
    pos: int,
    c: Seq<Effect>,
)
    requires
        p.ok(),
        0 <= pos <= 9,
    ensures
        raw_list(rules, g, p, Gear::Chichen, pos).contains(c) <==> chichen_allows(
            rules,
            g,
            p,
            pos,
            c,
        ) || (c == Seq::<Effect>::empty() && (pos == 0 || forall|d: Seq<Effect>|
            !chichen_allows(rules, g, p, pos, d))),
{
    if pos == 0 {
        let tail: Seq<Seq<Effect>> = if g.research[p.0 as int][3] >= 1 {
            spot_plain(rules, g, p)(1)
        } else {
            Seq::empty()
        };
        let first = seq![Seq::<Effect>::empty()];
        assert(raw_list(rules, g, p, Gear::Chichen, 0) == first + tail);
        lemma_in_both(first, tail, c);
        lemma_in_one(Seq::empty(), c);
        lemma_in_spot(rules, g, p, 1, c);
    } else {
        let fore = spot_foreseen(rules, g, p, pos);
        let own = spot_plain(rules, g, p)(pos);
        let all = fore + own;
        assert(raw_list(rules, g, p, Gear::Chichen, pos) == or_skip_list(all));
        assert forall|d: Seq<Effect>| #[trigger]
            all.contains(d) <==> chichen_allows(rules, g, p, pos, d) by {
            lemma_in_both(fore, own, d);
            lemma_in_spot(rules, g, p, pos, d);
            if pos < 9 {
                lemma_in_spot(rules, g, p, pos + 1, d);
            } else {
                let f = spot_counted(rules, g, p);
                lemma_in_flat(9, f, d);
                assert forall|i: int| 0 <= i < 9 implies (#[trigger] f(i).contains(d)
                    <==> skull_allows(rules, g, p, i + 1, d)) by {
                    lemma_in_spot(rules, g, p, i + 1, d);
                }
                if exists|k: int| 1 <= k <= 9 && #[trigger] skull_allows(rules, g, p, k, d) {
                    let k = choose|k: int|
                        1 <= k <= 9 && #[trigger] skull_allows(rules, g, p, k, d);
                    assert(f(k - 1).contains(d));
                }
            }
        }
        lemma_in_or_skip(all, c);
        assert(all.contains(c) <==> chichen_allows(rules, g, p, pos, c));
        if all.len() > 0 {
            assert(all.contains(all[0]));
            assert(chichen_allows(rules, g, p, pos, all[0]));
        } else {
            assert forall|d: Seq<Effect>| !chichen_allows(rules, g, p, pos, d) by {
                assert(!all.contains(d));
            }
        }
    }
}

// ---- Tikal and Uxmal -----------------------------------------------------

/// One of the three blocks by its place: wood, stone, gold.
pub open spec fn block(b: int) -> Resource {
    if b == 0 {
        Resource::Wood
    } else if b == 1 {
        Resource::Stone
    } else {
        Resource::Gold
    }
}

/// Whether this pays one block that the seat holds for a step on each of two
/// different temples, in the order brown, yellow, green.
pub open spec fn double_step(
    rules: Rulebook,
    g: GameState,
    p: PlayerId,
    b: int,
    t: Temple,
    u: Temple,
    c: Seq<Effect>,
) -> bool {
    &&& 0 <= b < 3
    &&& g.players[p.0 as int].res[b] > 0
    &&& (t == Temple::Brown && u != Temple::Brown) || (t == Temple::Yellow && u == Temple::Green)
    &&& may_climb(rules, g, p, t)
    &&& may_climb(rules, g, p, u)
    &&& c == seq![
        Effect::Res(block(b), -1i8),
        Effect::TempleStep(t, 1i8),
        Effect::TempleStep(u, 1i8),
    ]
}

/// The fifth space of Tikal takes one block for two steps on different temples.
pub proof fn tikal_trades_a_block_for_two_steps(
    rules: Rulebook,
    g: GameState,
    p: PlayerId,
    c: Seq<Effect>,
)
    requires
        p.ok(),
    ensures
        ({
            let some = exists|b: int, t: Temple, u: Temple| #[trigger]
                double_step(rules, g, p, b, t, u, c);
            raw_list(rules, g, p, Gear::Tikal, 5).contains(c) <==> some || (c == Seq::<
                Effect,
            >::empty() && forall|d: Seq<Effect>, b: int, t: Temple, u: Temple|
                !#[trigger] double_step(rules, g, p, b, t, u, d))
        }),
{
    let all = two_steps_list(rules, g, p);
    assert(raw_list(rules, g, p, Gear::Tikal, 5) == or_skip_list(all));
    assert forall|d: Seq<Effect>| #[trigger]
        all.contains(d) <==> exists|b: int, t: Temple, u: Temple| #[trigger]
        double_step(rules, g, p, b, t, u, d) by {
        lemma_in_two_steps(rules, g, p, d);
    }
    lemma_in_or_skip(all, c);
    assert(all.contains(c) <==> exists|b: int, t: Temple, u: Temple| #[trigger]
        double_step(rules, g, p, b, t, u, c));
    if all.len() > 0 {
        assert(all.contains(all[0]));
        let (b, t, u) = choose|b: int, t: Temple, u: Temple| #[trigger]
            double_step(rules, g, p, b, t, u, all[0]);
        assert(double_step(rules, g, p, b, t, u, all[0]));
    } else {
        assert forall|d: Seq<Effect>, b: int, t: Temple, u: Temple| !#[trigger]
            double_step(rules, g, p, b, t, u, d) by {
            assert(!all.contains(d));
        }
    }
}

proof fn lemma_in_two_steps(rules: Rulebook, g: GameState, p: PlayerId, c: Seq<Effect>)
    requires
        p.ok(),
    ensures
        two_steps_list(rules, g, p).contains(c) <==> exists|b: int, t: Temple, u: Temple| #[trigger]
            double_step(rules, g, p, b, t, u, c),
{
    let fb = steps_paying(rules, g, p);
    lemma_in_flat(3, fb, c);
    assert forall|b: int, a: int, k: int| 0 <= b < 3 && 0 <= a < 3 && 0 <= k < 2 - a implies (
    #[trigger] steps_with(rules, g, p, b, a)(k).contains(c) <==> may_climb(
        rules,
        g,
        p,
        Temple::at(a),
    ) && may_climb(rules, g, p, Temple::at(a + 1 + k)) && c == seq![
        Effect::Res(block(b), -1i8),
        Effect::TempleStep(Temple::at(a), 1i8),
        Effect::TempleStep(Temple::at(a + 1 + k), 1i8),
    ]) by {
        lemma_second_step(rules, g, p, b, a, k, c);
    }
    if two_steps_list(rules, g, p).contains(c) {
        let b = choose|b: int| 0 <= b < 3 && #[trigger] fb(b).contains(c);
        let fa = steps_from(rules, g, p, b);
        lemma_in_flat(3, fa, c);
        let a = choose|a: int| 0 <= a < 3 && #[trigger] fa(a).contains(c);
        let fk = steps_with(rules, g, p, b, a);
        lemma_in_flat(2 - a, fk, c);
        let k = choose|k: int| 0 <= k < 2 - a && #[trigger] fk(k).contains(c);
        assert(double_step(rules, g, p, b, Temple::at(a), Temple::at(a + 1 + k), c));
    }
    if exists|b: int, t: Temple, u: Temple| #[trigger] double_step(rules, g, p, b, t, u, c) {
        let (b, t, u) = choose|b: int, t: Temple, u: Temple| #[trigger]
            double_step(rules, g, p, b, t, u, c);
        let a = t.rank();
        let k = u.rank() - a - 1;
        assert(Temple::at(a) == t && Temple::at(a + 1 + k) == u);
        let fk = steps_with(rules, g, p, b, a);
        assert(fk(k).contains(c));
        lemma_in_flat(2 - a, fk, c);
        let fa = steps_from(rules, g, p, b);
        assert(fa(a).contains(c));
        lemma_in_flat(3, fa, c);
        assert(fb(b).contains(c));
    }
}

proof fn lemma_second_step(
    rules: Rulebook,
    g: GameState,
    p: PlayerId,
    b: int,
    a: int,
    k: int,
    c: Seq<Effect>,
)
    requires
        p.ok(),
        0 <= b < 3,
        0 <= a < 3,
        0 <= k < 2 - a,
    ensures
        steps_with(rules, g, p, b, a)(k).contains(c) <==> may_climb(rules, g, p, Temple::at(a))
            && may_climb(rules, g, p, Temple::at(a + 1 + k)) && c == seq![
            Effect::Res(block(b), -1i8),
            Effect::TempleStep(Temple::at(a), 1i8),
            Effect::TempleStep(Temple::at(a + 1 + k), 1i8),
        ],
{
    let t = Temple::at(a);
    let u = Temple::at(a + 1 + k);
    let h = crate::state::temple_stepped(rules, g, p, t, 1);
    lemma_may_step(rules, g, p, t);
    lemma_may_step(rules, h, p, u);
    lemma_may_step(rules, g, p, u);
    let j = u.rank();
    assert(j != t.rank());
    assert(h.temples[j] == g.temples[j]);
    let top = rules.tops[j] as int;
    assert(top_held(h, p, j, top) == top_held(g, p, j, top));
    lemma_in_only(
        can_step(rules, g, p, t, 1) && can_step(rules, h, p, u, 1),
        seq![
            Effect::Res(block(b), -1i8),
            Effect::TempleStep(t, 1i8),
            Effect::TempleStep(u, 1i8),
        ],
        c,
    );
}

/// Tikal's other spaces: nothing; one advance; one building; one advance or two.
/// What cannot be done at all is passed over.
pub proof fn tikal_researches_and_builds(
    rules: Rulebook,
    g: GameState,
    p: PlayerId,
    c: Seq<Effect>,
)
    ensures
        ({
            let one = research_list(rules, g, p, 1, false);
            let two = research_list(rules, g, p, 2, false);
            let builds = building_list(rules, g, p, None, true, 1);
            let none = Seq::<Effect>::empty();
            &&& raw_list(rules, g, p, Gear::Tikal, 0).contains(c) <==> c == none
            &&& raw_list(rules, g, p, Gear::Tikal, 1).contains(c) <==> one.contains(c) || (
            one.len() == 0 && c == none)
            &&& raw_list(rules, g, p, Gear::Tikal, 2).contains(c) <==> builds.contains(c) || (
            builds.len() == 0 && c == none)
            &&& raw_list(rules, g, p, Gear::Tikal, 3).contains(c) <==> one.contains(c)
                || two.contains(c) || (one.len() == 0 && two.len() == 0 && c == none)
        }),
{
    let one = research_list(rules, g, p, 1, false);
    let two = research_list(rules, g, p, 2, false);
    let builds = building_list(rules, g, p, None, true, 1);
    let both = one + two;
    lemma_in_one(Seq::empty(), c);
    lemma_in_or_skip(one, c);
    lemma_in_or_skip(builds, c);
    lemma_in_or_skip(collapsed(both), c);
    lemma_in_both(one, two, c);
    collapsing_keeps_every_choice(both, both.len() as int);
    assert(both.take(both.len() as int) =~= both);
    assert(collapsed(both).contains(c) <==> both.contains(c));
    if both.len() > 0 {
        assert(both.contains(both[0]));
        assert(collapsed(both).contains(both[0]));
        assert(collapsed(both).len() > 0);
    }
    if collapsed(both).len() > 0 {
        assert(collapsed(both).contains(collapsed(both)[0]));
        assert(both.contains(collapsed(both)[0]));
        assert(both.len() > 0);
    }
}

/// Uxmal sells a temple step for three corn, opens the exchange, brings a worker,
/// and sells buildings and other actions for corn.
#[verifier::rlimit(40)]
pub proof fn uxmal_deals_in_corn(rules: Rulebook, g: GameState, p: PlayerId, c: Seq<Effect>)
    requires
        p.ok(),
    ensures
        ({
            let none = Seq::<Effect>::empty();
            let rich = g.players[p.0 as int].corn >= 3;
            let trades = exchange_list(g, p);
            let bought = corn_builds_list(rules, g, p);
            let mirrored = mirror_list(rules, g, p, 1);
            &&& raw_list(rules, g, p, Gear::Uxmal, 0).contains(c) <==> c == none
            &&& raw_list(rules, g, p, Gear::Uxmal, 1).contains(c) <==> (rich && exists|t: Temple|
                may_climb(rules, g, p, t) && c == #[trigger] bought_step(t)) || (c == none && !(rich
                && exists|t: Temple| #[trigger] may_climb(rules, g, p, t)))
            &&& raw_list(rules, g, p, Gear::Uxmal, 2).contains(c) <==> trades.contains(c) || (
            trades.len() == 0 && c == none)
            &&& raw_list(rules, g, p, Gear::Uxmal, 3).contains(c) <==> c == seq![
                Effect::UnlockWorker,
            ]
            &&& raw_list(rules, g, p, Gear::Uxmal, 4).contains(c) <==> bought.contains(c) || (
            bought.len() == 0 && c == none)
            &&& raw_list(rules, g, p, Gear::Uxmal, 5).contains(c) <==> mirrored.contains(c) || (
            mirrored.len() == 0 && c == none)
        }),
{
    lemma_in_one(Seq::empty(), c);
    lemma_in_one(seq![Effect::UnlockWorker], c);
    lemma_in_or_skip(exchange_list(g, p), c);
    lemma_in_or_skip(corn_builds_list(rules, g, p), c);
    lemma_in_or_skip(mirror_list(rules, g, p, 1), c);
    let all = paid_steps_list(rules, g, p);
    lemma_in_or_skip(all, c);
    let f = paid_steps(rules, g, p);
    let rich = g.players[p.0 as int].corn >= 3;
    assert forall|d: Seq<Effect>| #[trigger] all.contains(d) <==> rich && exists|t: Temple|
        may_climb(rules, g, p, t) && d == #[trigger] bought_step(t) by {
        lemma_in_flat(3, f, d);
        assert forall|i: int| 0 <= i < 3 implies (#[trigger] f(i).contains(d) <==> may_climb(
            rules,
            g,
            p,
            Temple::at(i),
        ) && d == bought_step(Temple::at(i))) by {
            lemma_may_step(rules, g, p, Temple::at(i));
            lemma_in_only(
                can_step(rules, g, p, Temple::at(i), 1),
                bought_step(Temple::at(i)),
                d,
            );
        }
        if exists|t: Temple| may_climb(rules, g, p, t) && d == #[trigger] bought_step(t) {
            let t = choose|t: Temple|
                may_climb(rules, g, p, t) && d == #[trigger] bought_step(t);
            let i = t.rank();
            assert(Temple::at(i) == t);
            assert(f(i).contains(d));
        }
    }
    assert(all.contains(c) <==> rich && exists|t: Temple|
        may_climb(rules, g, p, t) && c == #[trigger] bought_step(t));
    if all.len() > 0 {
        assert(all.contains(all[0]));
    }
    if rich && exists|t: Temple| #[trigger] may_climb(rules, g, p, t) {
        let t = choose|t: Temple| #[trigger] may_climb(rules, g, p, t);
        assert(all.contains(bought_step(t)));
        assert(all.len() > 0);
    }
}

/// Three corn for a step up.
pub open spec fn bought_step(t: Temple) -> Seq<Effect> {
    seq![Effect::Corn(-3i16), Effect::TempleStep(t, 1i8)]
}

// ---- the free spaces -----------------------------------------------------

/// From the sixth space of a small gear on, and on the tenth of Chichen Itza, a
/// worker may do what any space below offers, and nothing else.
pub proof fn free_spaces_offer_what_is_below(
    rules: Rulebook,
    g: GameState,
    p: PlayerId,
    gear: Gear,
    pos: int,
    c: Seq<Effect>,
)
    requires
        gear == Gear::Chichen ==> pos >= 10,
        gear != Gear::Chichen ==> pos >= 6,
    ensures
        raw_list(rules, g, p, gear, pos).contains(c) <==> exists|i: int|
            0 <= i < (if gear == Gear::Chichen {
                10int
            } else {
                6
            }) && #[trigger] raw_list(rules, g, p, gear, i).contains(c),
{
    let n: int = if gear == Gear::Chichen {
        10
    } else {
        6
    };
    let f = match gear {
        Gear::Palenque => palenque_plain(rules, g, p),
        Gear::Yaxchilan => yaxchilan_plain(g, p),
        Gear::Tikal => tikal_plain(rules, g, p, 1),
        Gear::Uxmal => uxmal_plain(rules, g, p, 1),
        Gear::Chichen => chichen_low(rules, g, p),
    };
    lemma_in_flat(n, f, c);
    assert forall|i: int| 0 <= i < n implies #[trigger] raw_list(rules, g, p, gear, i) == f(i) by {}
    if exists|i: int| 0 <= i < n && #[trigger] f(i).contains(c) {
        let i = choose|i: int| 0 <= i < n && #[trigger] f(i).contains(c);
        assert(raw_list(rules, g, p, gear, i).contains(c));
    }
    if exists|i: int| 0 <= i < n && #[trigger] raw_list(rules, g, p, gear, i).contains(c) {
        let i = choose|i: int| 0 <= i < n && #[trigger] raw_list(rules, g, p, gear, i).contains(c);
        assert(f(i).contains(c));
    }
}

} // verus!
