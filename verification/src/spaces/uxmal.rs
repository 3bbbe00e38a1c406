//! Uxmal: trade, workers, and the mirror.

use crate::book::{effects_ok, Rulebook};
use crate::dominance::{all_ok, dedup, lemma_sorted_ok};
use crate::effect::{after_all, choices_keep_positions_sound, Choice, Effect};
use crate::ids::{PlayerId, Pos, Science, Temple};
use crate::lists::{each_after, flat, just, lead_each, only, or_skip, or_skip_list, put, put_all};
use crate::options::{
    corn_exchange, exchange_list, expand_payoff, lemma_shown_ok, payoff_list,
};
use crate::order::{sorted_unique, views};
use crate::research::bonus_list;
use crate::spaces::palenque::palenque_list;
use crate::spaces::tikal::tikal_list;
use crate::spaces::yaxchilan::yaxchilan_list;
use crate::spaces::MAX_DEPTH;
use crate::state::{can_step, set_player, shown, GameState, Player};
use vstd::prelude::*;

verus! {

/// Three corn for a step on each temple the seat can climb.
pub open spec fn paid_steps(rules: Rulebook, g: GameState, p: PlayerId) -> spec_fn(int) -> Seq<
    Seq<Effect>,
> {
    |t: int|
        only(
            can_step(rules, g, p, Temple::at(t), 1),
            seq![Effect::Corn((-3) as i16), Effect::TempleStep(Temple::at(t), 1)],
        )
}

/// Three corn for one temple step.
pub open spec fn paid_steps_list(rules: Rulebook, g: GameState, p: PlayerId) -> Seq<Seq<Effect>> {
    if g.players[p.0 as int].corn < 3 {
        Seq::empty()
    } else {
        flat(3, paid_steps(rules, g, p))
    }
}

/// What a card costs in corn: two for each block, less two for a maxed
/// architecture track.
pub open spec fn corn_price(g: GameState, p: PlayerId, cost: [i8; 4]) -> int {
    let full = 2 * (cost[0] + cost[1] + cost[2]);
    let price = if g.lvl(p, Science::Architecture) >= 3 {
        full - 2
    } else {
        full
    };
    if price < 0 {
        0
    } else {
        price
    }
}

/// The purchases of each face-up building the seat has the corn for.
pub open spec fn corn_builds(rules: Rulebook, g: GameState, p: PlayerId) -> spec_fn(int) -> Seq<
    Seq<Effect>,
>
    decreases 0int, 7int,
{
    |i: int|
        {
            let id = shown(g.buildings_up@, 0)[i];
            let price = corn_price(g, p, rules.bdef(id).cost);
            if price > g.players[p.0 as int].corn {
                Seq::empty()
            } else {
                let base = seq![Effect::Corn((-price) as i16), Effect::Build(id)] + bonus_list(
                    g,
                    p,
                );
                each_after(
                    base,
                    payoff_list(
                        rules,
                        after_all(rules, g, p, base),
                        p,
                        id,
                        rules.bdef(id).payoff,
                        0,
                    ),
                )
            }
        }
}

/// Buy a building outright with corn.
pub open spec fn corn_builds_list(rules: Rulebook, g: GameState, p: PlayerId) -> Seq<Seq<Effect>>
    decreases 0int, 8int,
{
    sorted_unique(flat(shown(g.buildings_up@, 0).len() as int, corn_builds(rules, g, p)))
}

/// The choices of a list that do something.
pub open spec fn acting(s: Seq<Seq<Effect>>) -> Seq<Seq<Effect>>
    decreases s.len(),
{
    if s.len() == 0 {
        Seq::empty()
    } else if s.last().len() == 0 {
        acting(s.drop_last())
    } else {
        acting(s.drop_last()).push(s.last())
    }
}

/// What the mirror copies of the three other gears, space by space.
pub open spec fn mirrored_gears(
    rules: Rulebook,
    g: GameState,
    p: PlayerId,
    depth: nat,
) -> spec_fn(int) -> Seq<Seq<Effect>>
    decreases depth, 1int,
    when depth > 0
{
    |i: int|
        palenque_list(rules, g, p, i) + yaxchilan_list(g, p, i) + tikal_list(
            rules,
            g,
            p,
            i,
            (depth - 1) as nat,
        )
}

/// What the mirror copies of its own gear, space by space from the first.
pub open spec fn mirrored_uxmal(
    rules: Rulebook,
    g: GameState,
    p: PlayerId,
    depth: nat,
) -> spec_fn(int) -> Seq<Seq<Effect>>
    decreases depth, 1int,
    when depth > 0
{
    |i: int| uxmal_list(rules, g, p, i + 1, (depth - 1) as nat)
}

/// A position with the mirror's corn already paid.
pub open spec fn fee_paid(g: GameState, p: PlayerId) -> GameState {
    let pl = g.players[p.0 as int];
    set_player(g, p, Player { corn: (pl.corn - 1) as u8, ..pl })
}

/// The mirror: one corn for one action of the Palenque, Yaxchilan, Tikal or
/// Uxmal gear, generated against the position with that corn already paid.
pub open spec fn mirror_list(rules: Rulebook, g: GameState, p: PlayerId, depth: nat) -> Seq<
    Seq<Effect>,
>
    decreases depth, 2int,
{
    if depth == 0 || g.players[p.0 as int].corn == 0 {
        Seq::empty()
    } else {
        let probe = fee_paid(g, p);
        each_after(
            seq![Effect::Corn((-1) as i16)],
            acting(
                flat(6, mirrored_gears(rules, probe, p, depth)) + flat(
                    4,
                    mirrored_uxmal(rules, probe, p, depth),
                ),
            ),
        )
    }
}

/// What each of the six plain spaces offers.
pub open spec fn uxmal_plain(
    rules: Rulebook,
    g: GameState,
    p: PlayerId,
    depth: nat,
) -> spec_fn(int) -> Seq<Seq<Effect>>
    decreases depth, 11int,
{
    |pos: int|
        if pos == 0 {
            seq![Seq::<Effect>::empty()]
        } else if pos == 1 {
            or_skip_list(paid_steps_list(rules, g, p))
        } else if pos == 2 {
            or_skip_list(exchange_list(g, p))
        } else if pos == 3 {
            seq![seq![Effect::UnlockWorker]]
        } else if pos == 4 {
            or_skip_list(corn_builds_list(rules, g, p))
        } else {
            or_skip_list(mirror_list(rules, g, p, depth))
        }
}

/// What an Uxmal space offers; from the sixth on, everything below.
pub open spec fn uxmal_list(
    rules: Rulebook,
    g: GameState,
    p: PlayerId,
    pos: int,
    depth: nat,
) -> Seq<Seq<Effect>>
    decreases depth, 12int,
{
    if pos < 6 {
        uxmal_plain(rules, g, p, depth)(pos)
    } else {
        flat(6, uxmal_plain(rules, g, p, depth))
    }
}

/// What an Uxmal space offers.
pub fn at(rules: &Rulebook, g: &GameState, p: PlayerId, pos: Pos) -> (out: Vec<Choice>)
    requires
        p.ok(),
        rules.ok(),
        g.ok(),
    ensures
        views(out@) == uxmal_list(*rules, *g, p, pos.0 as int, MAX_DEPTH as nat),
        all_ok(views(out@)),
{
    at_d(rules, g, p, pos, MAX_DEPTH)
}

/// What an Uxmal space offers; `depth` bounds how far chains may nest.
pub fn at_d(
    rules: &Rulebook,
    g: &GameState,
    p: PlayerId,
    pos: Pos,
    depth: u8,
) -> (out: Vec<Choice>)
    requires
        p.ok(),
        rules.ok(),
        g.ok(),
    ensures
        views(out@) == uxmal_list(*rules, *g, p, pos.0 as int, depth as nat),
        all_ok(views(out@)),
    decreases
            depth,
            if pos.0 >= 6 {
                13int
            } else {
                12
            },
{
    match pos.0 {
        0 => just(Choice::skip()),
        1 => or_skip(pay_for_temple(rules, g, p)),
        2 => or_skip(corn_exchange(g, p)),
        3 => just(Choice::one(Effect::UnlockWorker)),
        4 => or_skip(build_with_corn(rules, g, p)),
        5 => or_skip(mirror_choices(rules, g, p, depth)),
        _ => {
            let ghost f = uxmal_plain(*rules, *g, p, depth as nat);
            let mut out: Vec<Choice> = Vec::new();
            let mut i: u8 = 0;
            assert(views(out@) =~= flat(0, f));
            while i < 6
                invariant
                    i <= 6,
                    p.ok(),
                    rules.ok(),
                    g.ok(),
                    pos.0 >= 6,
                    f == uxmal_plain(*rules, *g, p, depth as nat),
                    views(out@) == flat(i as int, f),
                    all_ok(views(out@)),
                decreases 6 - i,
            {
                let below = at_d(rules, g, p, Pos(i), depth);
                put_all(&mut out, &below);
                i += 1;
            }
            out
        },
    }
}

/// Three corn for one temple step.
pub fn pay_for_temple(rules: &Rulebook, g: &GameState, p: PlayerId) -> (out: Vec<Choice>)
    requires
        p.ok(),
    ensures
        views(out@) == paid_steps_list(*rules, *g, p),
        all_ok(views(out@)),
{
    let mut out: Vec<Choice> = Vec::new();
    if g.players[p.idx()].corn < 3 {
        assert(views(out@) =~= Seq::empty());
        return out;
    }
    let ghost f = paid_steps(*rules, *g, p);
    let mut t: usize = 0;
    assert(views(out@) =~= flat(0, f));
    while t < 3
        invariant
            t <= 3,
            p.ok(),
            f == paid_steps(*rules, *g, p),
            views(out@) == flat(t as int, f),
            all_ok(views(out@)),
        decreases 3 - t,
    {
        let ghost o1 = views(out@);
        let temple = Temple::from_idx(t);
        if g.can_temple_step(rules, p, temple, 1) {
            let c = Choice::one(Effect::Corn(-3)).with(Effect::TempleStep(temple, 1));
            assert(c@ =~= seq![Effect::Corn((-3) as i16), Effect::TempleStep(temple, 1)]);
            put(&mut out, c);
        }
        assert(views(out@) =~= o1 + f(t as int));
        t += 1;
    }
    out
}

/// Buy a building outright with corn: two corn for each block of its cost, less
/// two for a maxed architecture track.
pub fn build_with_corn(rules: &Rulebook, g: &GameState, p: PlayerId) -> (out: Vec<Choice>)
    requires
        p.ok(),
        rules.ok(),
        g.ok(),
    ensures
        views(out@) == corn_builds_list(*rules, *g, p),
        all_ok(views(out@)),
    decreases 0int, 8int,
{
    let corn: i32 = g.players[p.idx()].corn as i32;
    let mut out: Vec<Choice> = Vec::new();
    let up = g.face_up_buildings();
    let ghost f = corn_builds(*rules, *g, p);
    proof {
        lemma_shown_ok(*g, 0);
    }
    let mut i: usize = 0;
    assert(views(out@) =~= flat(0, f));
    while i < up.len()
        invariant
            i <= up@.len(),
            p.ok(),
            rules.ok(),
            g.ok(),
            corn == g.players[p.0 as int].corn,
            up@ == shown(g.buildings_up@, 0),
            forall|j: int| 0 <= j < up@.len() ==> (#[trigger] up@[j]).ok(),
            f == corn_builds(*rules, *g, p),
            views(out@) == flat(i as int, f),
            all_ok(views(out@)),
        decreases up@.len() - i,
    {
        let id = up[i];
        let ghost o1 = views(out@);
        assert(id.ok());
        let d = rules.building(id);
        let mut price: i32 = 2 * (d.cost[0] as i32 + d.cost[1] as i32 + d.cost[2] as i32);
        if g.builder(p) {
            price = price - 2;
        }
        if price < 0 {
            price = 0;
        }
        if price <= corn {
            let mut base = Choice::one(Effect::Corn(-(price as i16))).with(Effect::Build(id));
            let extra = Choice(g.build_bonus(p));
            base.extend(&extra);
            assert(base@ =~= seq![Effect::Corn((-price) as i16), Effect::Build(id)] + bonus_list(
                *g,
                p,
            ));
            let mut probe = *g;
            base.apply(rules, &mut probe, p);
            proof {
                choices_keep_positions_sound(*rules, *g, p, base@);
            }
            let tails = expand_payoff(rules, &probe, p, id, &d.payoff, 0);
            let built = lead_each(&base, &tails);
            proof {
                assert forall|k: int| 0 <= k < views(built@).len() implies effects_ok(
                    #[trigger] views(built@)[k],
                ) by {
                    assert(effects_ok(views(tails@)[k]));
                }
            }
            put_all(&mut out, &built);
        }
        proof {
            assert(views(out@) =~= o1 + f(i as int));
        }
        i += 1;
    }
    proof {
        lemma_sorted_ok(views(out@));
    }
    dedup(out)
}

/// The choices of a list that do something, each with the mirror's corn in
/// front of it.
fn with_fee(v: &Vec<Choice>) -> (out: Vec<Choice>)
    requires
        all_ok(views(v@)),
    ensures
        views(out@) == each_after(seq![Effect::Corn((-1) as i16)], acting(views(v@))),
        all_ok(views(out@)),
{
    let ghost s = views(v@);
    let fee = Choice::one(Effect::Corn(-1));
    let mut out: Vec<Choice> = Vec::new();
    let mut i: usize = 0;
    assert(views(out@) =~= each_after(fee@, acting(s.take(0))));
    while i < v.len()
        invariant
            i <= v@.len(),
            s == views(v@),
            all_ok(s),
            fee@ == seq![Effect::Corn((-1) as i16)],
            views(out@) == each_after(fee@, acting(s.take(i as int))),
            all_ok(views(out@)),
        decreases v@.len() - i,
    {
        let ghost o1 = views(out@);
        proof {
            assert(effects_ok(s[i as int]));
            assert(s.take(i + 1).drop_last() =~= s.take(i as int));
        }
        if !v[i].is_skip() {
            put(&mut out, fee.clone().chain(&v[i]));
        }
        i += 1;
        assert(views(out@) =~= each_after(fee@, acting(s.take(i as int))));
    }
    assert(s.take(i as int) =~= s);
    out
}

/// The mirror: pay one corn to perform one action on the Palenque, Yaxchilan,
/// Tikal or Uxmal gear.
///
/// This copies the space definitions rather than the board, so it offers the
/// strongest version of each action whatever is showing. The fee leads each
/// choice, so that its payment is looked for before the action spends.
pub fn mirror_choices(rules: &Rulebook, g: &GameState, p: PlayerId, depth: u8) -> (out: Vec<
    Choice,
>)
    requires
        p.ok(),
        rules.ok(),
        g.ok(),
    ensures
        views(out@) == mirror_list(*rules, *g, p, depth as nat),
        all_ok(views(out@)),
    decreases depth, 2int,
{
    if depth == 0 || g.players[p.idx()].corn == 0 {
        let out: Vec<Choice> = Vec::new();
        assert(views(out@) =~= Seq::empty());
        return out;
    }
    let mut probe = *g;
    probe.players[p.idx()].corn = probe.players[p.idx()].corn - 1;
    proof {
        assert(probe.players =~= fee_paid(*g, p).players);
        assert(probe == fee_paid(*g, p));
        assert(probe.ok());
    }
    let mut all: Vec<Choice> = Vec::new();
    let ghost fg = mirrored_gears(*rules, probe, p, depth as nat);
    let mut i: u8 = 0;
    assert(views(all@) =~= flat(0, fg));
    while i < 6
        invariant
            i <= 6,
            depth > 0,
            p.ok(),
            rules.ok(),
            probe.ok(),
            fg == mirrored_gears(*rules, probe, p, depth as nat),
            views(all@) == flat(i as int, fg),
            all_ok(views(all@)),
        decreases 6 - i,
    {
        let ghost o1 = views(all@);
        let a = crate::spaces::palenque::at(rules, &probe, p, Pos(i));
        put_all(&mut all, &a);
        let b = crate::spaces::yaxchilan::at(&probe, p, Pos(i));
        put_all(&mut all, &b);
        let c = crate::spaces::tikal::at_d(rules, &probe, p, Pos(i), depth - 1);
        put_all(&mut all, &c);
        proof {
            assert(views(all@) =~= o1 + fg(i as int));
        }
        i += 1;
    }
    let ghost base = views(all@);
    let ghost fu = mirrored_uxmal(*rules, probe, p, depth as nat);
    let mut k: u8 = 1;
    assert(views(all@) =~= base + flat(0, fu));
    while k < 5
        invariant
            1 <= k <= 5,
            depth > 0,
            p.ok(),
            rules.ok(),
            probe.ok(),
            fu == mirrored_uxmal(*rules, probe, p, depth as nat),
            views(all@) == base + flat(k - 1, fu),
            all_ok(views(all@)),
        decreases 5 - k,
    {
        let ghost o1 = views(all@);
        let a = at_d(rules, &probe, p, Pos(k), depth - 1);
        put_all(&mut all, &a);
        proof {
            assert(views(all@) =~= o1 + fu(k - 1));
            assert(views(all@) =~= base + flat(k as int, fu));
        }
        k += 1;
    }
    with_fee(&all)
}

} // verus!
