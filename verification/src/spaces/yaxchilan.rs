//! Yaxchilan: raw resources.

use crate::dominance::all_ok;
use crate::effect::{Choice, Effect};
use crate::ids::{PlayerId, Pos, Resource, Science};
use crate::lists::{flat, just, put_all};
use crate::order::views;
use crate::research::gather_extra;
use crate::state::GameState;
use vstd::prelude::*;

verus! {

/// One of a block, boosted by the extraction track.
pub open spec fn block_of(g: GameState, p: PlayerId, r: Resource) -> Effect {
    Effect::Res(r, (1 + gather_extra(g, p, r)) as i8)
}

/// What each of the six plain spaces offers. The extraction track never boosts
/// skulls, but theology's third level grants an extra one here; with an empty
/// bank the skull space does nothing.
pub open spec fn yaxchilan_plain(g: GameState, p: PlayerId) -> spec_fn(int) -> Seq<Seq<Effect>> {
    |pos: int|
        if pos == 0 {
            seq![Seq::<Effect>::empty()]
        } else if pos == 1 {
            seq![seq![block_of(g, p, Resource::Wood)]]
        } else if pos == 2 {
            seq![seq![block_of(g, p, Resource::Stone), Effect::Corn(1)]]
        } else if pos == 3 {
            seq![seq![block_of(g, p, Resource::Gold), Effect::Corn(2)]]
        } else if pos == 4 {
            if g.skulls_remaining == 0 {
                seq![Seq::<Effect>::empty()]
            } else if g.lvl(p, Science::Theology) >= 3 {
                seq![seq![Effect::Res(Resource::Skull, 2)]]
            } else {
                seq![seq![Effect::Res(Resource::Skull, 1)]]
            }
        } else {
            seq![
                seq![
                    block_of(g, p, Resource::Gold),
                    block_of(g, p, Resource::Stone),
                    Effect::Corn(2),
                ],
            ]
        }
}

/// What a Yaxchilan space offers; from the sixth on, everything below.
pub open spec fn yaxchilan_list(g: GameState, p: PlayerId, pos: int) -> Seq<Seq<Effect>> {
    if pos < 6 {
        yaxchilan_plain(g, p)(pos)
    } else {
        flat(6, yaxchilan_plain(g, p))
    }
}

/// What a Yaxchilan space offers.
pub fn at(g: &GameState, p: PlayerId, pos: Pos) -> (out: Vec<Choice>)
    requires
        p.ok(),
    ensures
        views(out@) == yaxchilan_list(*g, p, pos.0 as int),
        all_ok(views(out@)),
    decreases
            if pos.0 >= 6 {
                1int
            } else {
                0
            },
{
    match pos.0 {
        0 => just(Choice::skip()),
        1 => just(
            Choice::one(Effect::Res(Resource::Wood, 1 + g.resource_bonus(p, Resource::Wood))),
        ),
        2 => {
            let c = Choice::one(
                Effect::Res(Resource::Stone, 1 + g.resource_bonus(p, Resource::Stone)),
            ).with(Effect::Corn(1));
            assert(c@ =~= seq![block_of(*g, p, Resource::Stone), Effect::Corn(1)]);
            just(c)
        },
        3 => {
            let c = Choice::one(
                Effect::Res(Resource::Gold, 1 + g.resource_bonus(p, Resource::Gold)),
            ).with(Effect::Corn(2));
            assert(c@ =~= seq![block_of(*g, p, Resource::Gold), Effect::Corn(2)]);
            just(c)
        },
        4 => {
            if g.skulls_remaining == 0 {
                just(Choice::skip())
            } else {
                let n: i8 = if g.has_level(p, Science::Theology, 3) {
                    2
                } else {
                    1
                };
                just(Choice::one(Effect::Res(Resource::Skull, n)))
            }
        },
        5 => {
            let c = Choice::one(
                Effect::Res(Resource::Gold, 1 + g.resource_bonus(p, Resource::Gold)),
            ).with(Effect::Res(Resource::Stone, 1 + g.resource_bonus(p, Resource::Stone))).with(
                Effect::Corn(2),
            );
            assert(c@ =~= seq![
                block_of(*g, p, Resource::Gold),
                block_of(*g, p, Resource::Stone),
                Effect::Corn(2),
            ]);
            just(c)
        },
        _ => {
            let ghost f = yaxchilan_plain(*g, p);
            let mut out: Vec<Choice> = Vec::new();
            let mut i: u8 = 0;
            assert(views(out@) =~= flat(0, f));
            while i < 6
                invariant
                    i <= 6,
                    p.ok(),
                    pos.0 >= 6,
                    f == yaxchilan_plain(*g, p),
                    views(out@) == flat(i as int, f),
                    all_ok(views(out@)),
                decreases 6 - i,
            {
                let below = at(g, p, Pos(i));
                put_all(&mut out, &below);
                i += 1;
            }
            out
        },
    }
}

} // verus!
