//! Chichen Itza: spend skulls for temples and points.

use crate::book::{effects_ok, Rulebook};
use crate::dominance::all_ok;
use crate::effect::{after_all, Choice, Effect};
use crate::ids::{PlayerId, Pos, Resource, Science, Temple};
use crate::lists::{flat, just, only, or_skip, or_skip_list, put, put_all};
use crate::order::views;
use crate::state::{can_step, GameState};
use vstd::prelude::*;

verus! {

/// The temple a space steps on: brown for the first three, green for the next
/// three, yellow for the last three.
pub open spec fn spot_temple(pos: int) -> Temple {
    if pos <= 3 {
        Temple::Brown
    } else if pos <= 6 {
        Temple::Green
    } else {
        Temple::Yellow
    }
}

/// The points a space scores.
pub open spec fn spot_points(pos: int) -> int {
    if pos <= 5 {
        pos + 3
    } else if pos == 6 {
        8
    } else if pos == 7 {
        10
    } else if pos == 8 {
        11
    } else {
        13
    }
}

/// Whether a space also grants a block of the seat's choice.
pub open spec fn spot_block(pos: int) -> bool {
    pos == 6 || pos == 8 || pos == 9
}

/// Whether a space already holds its skull.
pub open spec fn spot_full(g: GameState, pos: int) -> bool {
    (g.chichen_filled >> (pos as u8)) & 1 == 1
}

/// A skull put down: the step, the points, and the space filled.
pub open spec fn spot_base(pos: int) -> Seq<Effect> {
    seq![
        Effect::Res(Resource::Skull, (-1) as i8),
        Effect::TempleStep(spot_temple(pos), 1),
        Effect::Points(spot_points(pos) as i8),
        Effect::FillChichen(Pos(pos as u8)),
    ]
}

/// A skull put down, with the block granted where the space grants one.
pub open spec fn spot_cores(pos: int) -> Seq<Seq<Effect>> {
    if spot_block(pos) {
        seq![
            spot_base(pos).push(Effect::Res(Resource::Wood, 1)),
            spot_base(pos).push(Effect::Res(Resource::Stone, 1)),
            spot_base(pos).push(Effect::Res(Resource::Gold, 1)),
        ]
    } else {
        seq![spot_base(pos)]
    }
}

/// A core with a block paid for one more step, by the temple stepped on.
pub open spec fn devotions_on(
    rules: Rulebook,
    g: GameState,
    p: PlayerId,
    core: Seq<Effect>,
    b: int,
) -> spec_fn(int) -> Seq<Seq<Effect>> {
    |t: int|
        only(
            can_step(rules, after_all(rules, g, p, core), p, Temple::at(t), 1),
            core.push(Effect::Res(Resource::at(b), (-1) as i8)).push(
                Effect::TempleStep(Temple::at(t), 1),
            ),
        )
}

/// A core with a block paid for one more step, by the block paid. The block is
/// one the seat holds once the core has been taken.
pub open spec fn devotions_with(
    rules: Rulebook,
    g: GameState,
    p: PlayerId,
    core: Seq<Effect>,
) -> spec_fn(int) -> Seq<Seq<Effect>> {
    |b: int|
        if after_all(rules, g, p, core).players[p.0 as int].res[b] == 0 {
            Seq::empty()
        } else {
            flat(3, devotions_on(rules, g, p, core, b))
        }
}

/// The paid extra steps of a space, core by core.
pub open spec fn devotions(
    rules: Rulebook,
    g: GameState,
    p: PlayerId,
    pos: int,
) -> spec_fn(int) -> Seq<Seq<Effect>> {
    |i: int| flat(3, devotions_with(rules, g, p, spot_cores(pos)[i]))
}

/// What one space offers by itself: nothing if it is full or the seat has no
/// skull, otherwise each core, and for the devout each core with a step paid.
pub open spec fn spot_plain(rules: Rulebook, g: GameState, p: PlayerId) -> spec_fn(int) -> Seq<
    Seq<Effect>,
> {
    |pos: int|
        if spot_full(g, pos) || g.players[p.0 as int].res[3] == 0 {
            Seq::empty()
        } else if g.lvl(p, Science::Theology) >= 2 {
            spot_cores(pos) + flat(spot_cores(pos).len() as int, devotions(rules, g, p, pos))
        } else {
            spot_cores(pos)
        }
}

/// What foresight adds to a space: the next one up, or any space from the last.
pub open spec fn spot_foreseen(rules: Rulebook, g: GameState, p: PlayerId, pos: int) -> Seq<
    Seq<Effect>,
> {
    if g.lvl(p, Science::Theology) < 1 {
        Seq::empty()
    } else if pos < 9 {
        spot_plain(rules, g, p)(pos + 1)
    } else {
        flat(9, spot_counted(rules, g, p))
    }
}

/// The nine spaces, counted from zero.
pub open spec fn spot_counted(rules: Rulebook, g: GameState, p: PlayerId) -> spec_fn(int) -> Seq<
    Seq<Effect>,
> {
    |i: int| spot_plain(rules, g, p)(i + 1)
}

/// What each of the spaces below the free one offers.
pub open spec fn chichen_low(rules: Rulebook, g: GameState, p: PlayerId) -> spec_fn(int) -> Seq<
    Seq<Effect>,
> {
    |pos: int|
        if pos == 0 {
            seq![Seq::<Effect>::empty()] + if g.lvl(p, Science::Theology) >= 1 {
                spot_plain(rules, g, p)(1)
            } else {
                Seq::empty()
            }
        } else {
            or_skip_list(spot_foreseen(rules, g, p, pos) + spot_plain(rules, g, p)(pos))
        }
}

/// What a Chichen Itza space offers; the tenth is free to act as any below.
pub open spec fn chichen_list(rules: Rulebook, g: GameState, p: PlayerId, pos: int) -> Seq<
    Seq<Effect>,
> {
    if pos < 10 {
        chichen_low(rules, g, p)(pos)
    } else {
        flat(10, chichen_low(rules, g, p))
    }
}

/// What a Chichen Itza space offers.
pub fn at(rules: &Rulebook, g: &GameState, p: PlayerId, pos: Pos) -> (out: Vec<Choice>)
    requires
        p.ok(),
        g.ok(),
    ensures
        views(out@) == chichen_list(*rules, *g, p, pos.0 as int),
        all_ok(views(out@)),
    decreases
            if pos.0 >= 10 {
                1int
            } else {
                0
            },
{
    if pos.0 == 0 {
        // The entry space has no action of its own, but foresight still lets a
        // seat look one space up from it.
        let mut out = just(Choice::skip());
        if g.foresight(p) {
            let next = spot(rules, g, p, Pos(1), false);
            put_all(&mut out, &next);
        }
        assert(views(out@) =~= chichen_list(*rules, *g, p, 0));
        return out;
    }
    if pos.0 < 10 {
        return or_skip(spot(rules, g, p, pos, true));
    }
    let ghost f = chichen_low(*rules, *g, p);
    let mut out: Vec<Choice> = Vec::new();
    let mut i: u8 = 0;
    assert(views(out@) =~= flat(0, f));
    while i < 10
        invariant
            i <= 10,
            p.ok(),
            g.ok(),
            pos.0 >= 10,
            f == chichen_low(*rules, *g, p),
            views(out@) == flat(i as int, f),
            all_ok(views(out@)),
        decreases 10 - i,
    {
        let below = at(rules, g, p, Pos(i));
        put_all(&mut out, &below);
        i += 1;
    }
    out
}

/// The cores of a space.
fn cores_of(pos: Pos) -> (out: Vec<Choice>)
    requires
        1 <= pos.0 <= 9,
    ensures
        views(out@) == spot_cores(pos.0 as int),
        all_ok(views(out@)),
{
    let (temple, points): (Temple, i8) = match pos.0 {
        1 => (Temple::Brown, 4),
        2 => (Temple::Brown, 5),
        3 => (Temple::Brown, 6),
        4 => (Temple::Green, 7),
        5 => (Temple::Green, 8),
        6 => (Temple::Green, 8),
        7 => (Temple::Yellow, 10),
        8 => (Temple::Yellow, 11),
        _ => (Temple::Yellow, 13),
    };
    let base = Choice::one(Effect::Res(Resource::Skull, -1)).with(
        Effect::TempleStep(temple, 1),
    ).with(Effect::Points(points)).with(Effect::FillChichen(pos));
    assert(base@ =~= spot_base(pos.0 as int));
    if pos.0 == 6 || pos.0 == 8 || pos.0 == 9 {
        let mut out = just(base.clone().with(Effect::Res(Resource::Wood, 1)));
        put(&mut out, base.clone().with(Effect::Res(Resource::Stone, 1)));
        put(&mut out, base.with(Effect::Res(Resource::Gold, 1)));
        assert(views(out@) =~= spot_cores(pos.0 as int));
        out
    } else {
        just(base)
    }
}

/// Add a core's paid extra steps.
fn devote(rules: &Rulebook, g: &GameState, p: PlayerId, core: &Choice, out: &mut Vec<Choice>)
    requires
        p.ok(),
        effects_ok(core@),
        all_ok(views(old(out)@)),
    ensures
        views(final(out)@) == views(old(out)@) + flat(3, devotions_with(*rules, *g, p, core@)),
        all_ok(views(final(out)@)),
{
    let mut probe = *g;
    core.apply(rules, &mut probe, p);
    let ghost fb = devotions_with(*rules, *g, p, core@);
    let mut b: usize = 0;
    assert(views(out@) =~= views(old(out)@) + flat(0, fb));
    while b < 3
        invariant
            b <= 3,
            p.ok(),
            effects_ok(core@),
            probe == after_all(*rules, *g, p, core@),
            fb == devotions_with(*rules, *g, p, core@),
            views(out@) == views(old(out)@) + flat(b as int, fb),
            all_ok(views(out@)),
        decreases 3 - b,
    {
        let ghost ob = views(out@);
        if probe.players[p.idx()].res[b] != 0 {
            let ghost ft = devotions_on(*rules, *g, p, core@, b as int);
            let r = Resource::from_idx(b);
            let mut t: usize = 0;
            assert(views(out@) =~= ob + flat(0, ft));
            while t < 3
                invariant
                    t <= 3,
                    b < 3,
                    p.ok(),
                    effects_ok(core@),
                    r == Resource::at(b as int),
                    probe == after_all(*rules, *g, p, core@),
                    ft == devotions_on(*rules, *g, p, core@, b as int),
                    views(out@) == ob + flat(t as int, ft),
                    all_ok(views(out@)),
                decreases 3 - t,
            {
                let ghost ot = views(out@);
                let temple = Temple::from_idx(t);
                if probe.can_temple_step(rules, p, temple, 1) {
                    put(
                        out,
                        core.clone().with(Effect::Res(r, -1)).with(Effect::TempleStep(temple, 1)),
                    );
                }
                proof {
                    assert(views(out@) =~= ot + ft(t as int));
                    assert(views(out@) =~= ob + flat(t + 1, ft));
                }
                t += 1;
            }
        }
        proof {
            assert(views(out@) =~= ob + fb(b as int));
            assert(views(out@) =~= views(old(out)@) + flat(b + 1, fb));
        }
        b += 1;
    }
}

/// What one of the nine spaces offers, with what foresight adds when it may.
///
/// A temple step that cannot be taken is wasted, not refused: the skull still
/// goes down and the points and block are still collected.
pub fn spot(
    rules: &Rulebook,
    g: &GameState,
    p: PlayerId,
    pos: Pos,
    can_foresee: bool,
) -> (out: Vec<Choice>)
    requires
        p.ok(),
        1 <= pos.0 <= 9,
    ensures
        views(out@) == (if can_foresee {
            spot_foreseen(*rules, *g, p, pos.0 as int)
        } else {
            Seq::empty()
        }) + spot_plain(*rules, *g, p)(pos.0 as int),
        all_ok(views(out@)),
    decreases
            if can_foresee {
                1int
            } else {
                0
            },
{
    let ghost fore = if can_foresee {
        spot_foreseen(*rules, *g, p, pos.0 as int)
    } else {
        Seq::empty()
    };
    let mut out: Vec<Choice> = Vec::new();
    // Foresight lets a blocked seat use the next space up.
    if can_foresee && g.foresight(p) {
        if pos.0 < 9 {
            let next = spot(rules, g, p, Pos(pos.0 + 1), false);
            put_all(&mut out, &next);
        } else {
            let ghost f = spot_counted(*rules, *g, p);
            let mut i: u8 = 1;
            assert(views(out@) =~= flat(0, f));
            while i <= 9
                invariant
                    1 <= i <= 10,
                    p.ok(),
                    can_foresee,
                    f == spot_counted(*rules, *g, p),
                    views(out@) == flat(i - 1, f),
                    all_ok(views(out@)),
                decreases 10 - i,
            {
                let ghost o1 = views(out@);
                let next = spot(rules, g, p, Pos(i), false);
                put_all(&mut out, &next);
                assert(views(out@) =~= o1 + f(i - 1));
                i += 1;
            }
        }
    }
    assert(views(out@) =~= fore);
    if g.chichen_is_full(pos) || g.players[p.idx()].res[3] == 0 {
        assert(views(out@) =~= fore + spot_plain(*rules, *g, p)(pos.0 as int));
        return out;
    }
    let cores = cores_of(pos);
    put_all(&mut out, &cores);
    let ghost base = views(out@);
    // A devout seat may pay a block for one more step. The block is looked for
    // in the position the core reaches, so one the core grants can be spent.
    if g.devout(p) {
        let ghost f = devotions(*rules, *g, p, pos.0 as int);
        let mut i: usize = 0;
        assert(views(out@) =~= base + flat(0, f));
        while i < cores.len()
            invariant
                i <= cores@.len(),
                p.ok(),
                views(cores@) == spot_cores(pos.0 as int),
                all_ok(views(cores@)),
                f == devotions(*rules, *g, p, pos.0 as int),
                views(out@) == base + flat(i as int, f),
                all_ok(views(out@)),
            decreases cores@.len() - i,
        {
            let ghost o1 = views(out@);
            assert(views(cores@)[i as int] == cores@[i as int]@);
            devote(rules, g, p, &cores[i], &mut out);
            proof {
                assert(views(out@) =~= o1 + f(i as int));
                assert(views(out@) =~= base + flat(i + 1, f));
            }
            i += 1;
        }
    }
    assert(views(out@) =~= fore + spot_plain(*rules, *g, p)(pos.0 as int));
    out
}

} // verus!
