//! Palenque: corn and wood from the jungle.

use crate::book::Rulebook;
use crate::dominance::all_ok;
use crate::effect::{Choice, Effect};
use crate::ids::{Color, PlayerId, Pos, Resource, Science, Temple, TileKind};
use crate::lists::{flat, just, only, or_skip, or_skip_list, put, put_all};
use crate::order::views;
use crate::research::{corn_extra, gather_extra};
use crate::state::{can_step, GameState};
use vstd::prelude::*;

verus! {

/// Corn a jungle space yields before bonuses.
pub open spec fn jungle_corn(pos: int) -> int {
    2 * pos - 1
}

/// Wood a jungle space yields before bonuses.
pub open spec fn jungle_wood(pos: int) -> int {
    pos - 1
}

/// The corn effect of a space that yields `base` and is boosted by its colour.
pub open spec fn corn_of(g: GameState, p: PlayerId, base: int, space: Color) -> Effect {
    Effect::Corn((base + corn_extra(g, p, space)) as i16)
}

/// Digging the corn out from under a wood tile, at the cost of a step down each
/// temple the seat can fall on.
pub open spec fn digs(
    rules: Rulebook,
    g: GameState,
    p: PlayerId,
    pos: int,
) -> spec_fn(int) -> Seq<Seq<Effect>> {
    |i: int|
        only(
            can_step(rules, g, p, Temple::at(i), -1),
            seq![
                corn_of(g, p, jungle_corn(pos), Color::Green),
                Effect::TakePalenqueTile(Pos(pos as u8), TileKind::Corn),
                Effect::BurnPalenqueWood(Pos(pos as u8)),
                Effect::TempleStep(Temple::at(i), (-1) as i8),
            ],
        )
}

/// What a jungle space offers: its wood, the corn under it, the corn showing,
/// or irrigated corn when none shows.
pub open spec fn jungle_list(rules: Rulebook, g: GameState, p: PlayerId, pos: int) -> Seq<
    Seq<Effect>,
> {
    let stack = g.palenque[pos];
    let at = Pos(pos as u8);
    let corn = corn_of(g, p, jungle_corn(pos), Color::Green);
    let wood = Effect::Res(
        Resource::Wood,
        (jungle_wood(pos) + gather_extra(g, p, Resource::Wood)) as i8,
    );
    let dug: Seq<Seq<Effect>> = if stack.wood > 0 && stack.corn > 0 {
        flat(3, digs(rules, g, p, pos))
    } else {
        Seq::empty()
    };
    or_skip_list(
        only(stack.wood > 0, seq![wood, Effect::TakePalenqueTile(at, TileKind::Wood)]) + dug + only(
            stack.shows_corn(),
            seq![corn, Effect::TakePalenqueTile(at, TileKind::Corn)],
        ) + only(g.lvl(p, Science::Agriculture) >= 2 && !stack.shows_corn(), seq![corn]),
    )
}

/// What each of the six plain spaces offers.
pub open spec fn palenque_plain(rules: Rulebook, g: GameState, p: PlayerId) -> spec_fn(int) -> Seq<
    Seq<Effect>,
> {
    |pos: int|
        if pos == 0 {
            seq![Seq::<Effect>::empty()]
        } else if pos == 1 {
            seq![seq![corn_of(g, p, 3, Color::Blue)]]
        } else if pos == 2 {
            let corn = corn_of(g, p, 4, Color::Green);
            if g.palenque[2].corn > 0 {
                seq![seq![corn, Effect::TakePalenqueTile(Pos(2), TileKind::Corn)]]
            } else if g.lvl(p, Science::Agriculture) >= 2 {
                seq![seq![corn]]
            } else {
                seq![Seq::<Effect>::empty()]
            }
        } else {
            jungle_list(rules, g, p, pos)
        }
}

/// What a Palenque space offers; from the sixth on, everything below.
pub open spec fn palenque_list(rules: Rulebook, g: GameState, p: PlayerId, pos: int) -> Seq<
    Seq<Effect>,
> {
    if pos < 6 {
        palenque_plain(rules, g, p)(pos)
    } else {
        flat(6, palenque_plain(rules, g, p))
    }
}

/// What a Palenque space offers.
pub fn at(rules: &Rulebook, g: &GameState, p: PlayerId, pos: Pos) -> (out: Vec<Choice>)
    requires
        p.ok(),
    ensures
        views(out@) == palenque_list(*rules, *g, p, pos.0 as int),
        all_ok(views(out@)),
    decreases
            if pos.0 >= 6 {
                1int
            } else {
                0
            },
{
    match pos.0 {
        0 => just(Choice::skip()),
        // A plain corn space: no tile involved, so nothing can exhaust it.
        1 => just(Choice::one(Effect::Corn(3 + g.corn_bonus(p, Color::Blue) as i16))),
        2 => {
            let corn: i16 = 4 + g.corn_bonus(p, Color::Green) as i16;
            if g.palenque[2].corn > 0 {
                let c = Choice::one(Effect::Corn(corn)).with(
                    Effect::TakePalenqueTile(Pos(2), TileKind::Corn),
                );
                assert(c@ =~= seq![
                    corn_of(*g, p, 4, Color::Green),
                    Effect::TakePalenqueTile(Pos(2), TileKind::Corn),
                ]);
                just(c)
            } else if g.irrigation(p) {
                just(Choice::one(Effect::Corn(corn)))
            } else {
                just(Choice::skip())
            }
        },
        3 | 4 | 5 => jungle(rules, g, p, pos),
        _ => {
            let ghost f = palenque_plain(*rules, *g, p);
            let mut out: Vec<Choice> = Vec::new();
            let mut i: u8 = 0;
            assert(views(out@) =~= flat(0, f));
            while i < 6
                invariant
                    i <= 6,
                    p.ok(),
                    pos.0 >= 6,
                    f == palenque_plain(*rules, *g, p),
                    views(out@) == flat(i as int, f),
                    all_ok(views(out@)),
                decreases 6 - i,
            {
                let below = at(rules, g, p, Pos(i));
                put_all(&mut out, &below);
                i += 1;
            }
            out
        },
    }
}

/// What a jungle space offers.
pub fn jungle(rules: &Rulebook, g: &GameState, p: PlayerId, pos: Pos) -> (out: Vec<Choice>)
    requires
        p.ok(),
        3 <= pos.0 <= 5,
    ensures
        views(out@) == jungle_list(*rules, *g, p, pos.0 as int),
        all_ok(views(out@)),
{
    let corn: i16 = 2 * pos.0 as i16 - 1 + g.corn_bonus(p, Color::Green) as i16;
    let wood: i8 = pos.0 as i8 - 1 + g.resource_bonus(p, Resource::Wood);
    let stack = g.palenque[pos.idx()];
    let ghost corn_e = corn_of(*g, p, jungle_corn(pos.0 as int), Color::Green);
    let ghost part1 = only(
        stack.wood > 0,
        seq![Effect::Res(Resource::Wood, wood), Effect::TakePalenqueTile(pos, TileKind::Wood)],
    );
    let mut out: Vec<Choice> = Vec::new();
    if stack.wood > 0 {
        let c = Choice::one(Effect::Res(Resource::Wood, wood)).with(
            Effect::TakePalenqueTile(pos, TileKind::Wood),
        );
        assert(c@ =~= seq![
            Effect::Res(Resource::Wood, wood),
            Effect::TakePalenqueTile(pos, TileKind::Wood),
        ]);
        put(&mut out, c);
    }
    assert(views(out@) =~= part1);
    let ghost f = digs(*rules, *g, p, pos.0 as int);
    // Digging the corn out from under a wood tile consumes one of each. The
    // burned wood goes back to the box, so it is not taken as a tile.
    if stack.wood > 0 && stack.corn > 0 {
        let mut i: usize = 0;
        assert(views(out@) =~= part1 + flat(0, f));
        while i < 3
            invariant
                i <= 3,
                p.ok(),
                3 <= pos.0 <= 5,
                Effect::Corn(corn) == corn_of(*g, p, jungle_corn(pos.0 as int), Color::Green),
                f == digs(*rules, *g, p, pos.0 as int),
                views(out@) == part1 + flat(i as int, f),
                all_ok(views(out@)),
            decreases 3 - i,
        {
            let t = Temple::from_idx(i);
            let ghost o1 = views(out@);
            if g.can_temple_step(rules, p, t, -1) {
                let c = Choice::one(Effect::Corn(corn)).with(
                    Effect::TakePalenqueTile(pos, TileKind::Corn),
                ).with(Effect::BurnPalenqueWood(pos)).with(Effect::TempleStep(t, -1));
                assert(c@ =~= seq![
                    Effect::Corn(corn),
                    Effect::TakePalenqueTile(pos, TileKind::Corn),
                    Effect::BurnPalenqueWood(pos),
                    Effect::TempleStep(t, (-1) as i8),
                ]);
                put(&mut out, c);
            }
            assert(views(out@) =~= o1 + f(i as int));
            i += 1;
            assert(views(out@) =~= part1 + flat(i as int, f));
        }
    }
    let ghost dug = if stack.wood > 0 && stack.corn > 0 {
        flat(3, f)
    } else {
        Seq::empty()
    };
    assert(views(out@) =~= part1 + dug);
    if stack.corn_showing() {
        let c = Choice::one(Effect::Corn(corn)).with(Effect::TakePalenqueTile(pos, TileKind::Corn));
        assert(c@ =~= seq![corn_e, Effect::TakePalenqueTile(pos, TileKind::Corn)]);
        put(&mut out, c);
    }
    // Irrigation harvests corn with no tile at all, but only when there is no
    // corn tile to be had.
    if g.irrigation(p) && !stack.corn_showing() {
        put(&mut out, Choice::one(Effect::Corn(corn)));
    }
    proof {
        let tail = only(
            stack.shows_corn(),
            seq![corn_e, Effect::TakePalenqueTile(pos, TileKind::Corn)],
        ) + only(
            g.lvl(p, Science::Agriculture) >= 2 && !stack.shows_corn(),
            seq![corn_e],
        );
        assert(views(out@) =~= part1 + dug + tail);
        assert(part1 + dug + tail =~= part1 + dug + only(
            stack.shows_corn(),
            seq![corn_e, Effect::TakePalenqueTile(pos, TileKind::Corn)],
        ) + only(g.lvl(p, Science::Agriculture) >= 2 && !stack.shows_corn(), seq![corn_e]));
    }
    or_skip(out)
}

} // verus!
