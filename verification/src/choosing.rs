//! What a picked-up worker may choose from: its own space or a lower one for corn,
//! and what is left once the choices that are merely poorer are dropped.

use crate::book::Rulebook;
use crate::dominance::{
    as_rich, beats, pruned_list_holds, pruning_keeps_a_better_choice, stands_for, structure,
    survives, undominated, wealth,
};
use crate::effect::{affordable_all, after_all, payable_at, Effect};
use crate::ids::{Gear, PlayerId, Resource, TileKind};
use crate::lists::{each_after, flat};
use crate::moves::{corn_paid, stepping_down, worker_list, worker_raw};
use crate::offers::{lemma_in_both, lemma_in_flat, lemma_in_one};
use crate::order::effect_lt;
use crate::outcomes::points_among;
use crate::spaces::raw_list;
use crate::spaces::uxmal::acting;
use crate::state::{GameState, Player};
use vstd::array::spec_array_update;
use vstd::prelude::*;

verus! {

// ---- paying --------------------------------------------------------------

/// Effects can be afforded exactly where each payment among them can be met in the
/// position the effects before it leave: the corn and the resources paid are
/// there.
pub proof fn payments_are_met_when_they_come(
    rules: Rulebook,
    g: GameState,
    p: PlayerId,
    s: Seq<Effect>,
)
    ensures
        affordable_all(rules, g, p, s) <==> forall|j: int|
            0 <= j < s.len() ==> #[trigger] met_at(rules, g, p, s, j),
{
    reveal(payable_at);
    if affordable_all(rules, g, p, s) {
        assert forall|j: int| 0 <= j < s.len() implies #[trigger] met_at(rules, g, p, s, j) by {
            assert(payable_at(rules, g, p, s, j));
        }
    }
    if forall|j: int| 0 <= j < s.len() ==> #[trigger] met_at(rules, g, p, s, j) {
        assert forall|j: int| 0 <= j < s.len() implies payable_at(rules, g, p, s, j) by {
            assert(met_at(rules, g, p, s, j));
        }
    }
}

/// Whether the payment at one place of a list of effects can be met.
pub open spec fn met_at(
    rules: Rulebook,
    g: GameState,
    p: PlayerId,
    s: Seq<Effect>,
    j: int,
) -> bool {
    let pl = after_all(rules, g, p, s.take(j)).players[p.0 as int];
    match s[j] {
        Effect::Corn(n) => pl.corn + n >= 0,
        Effect::Res(Resource::Wood, n) => pl.res[0] + n >= 0,
        Effect::Res(Resource::Stone, n) => pl.res[1] + n >= 0,
        Effect::Res(Resource::Gold, n) => pl.res[2] + n >= 0,
        Effect::Res(Resource::Skull, n) => pl.res[3] + n >= 0,
        _ => true,
    }
}

// ---- stepping down -------------------------------------------------------

proof fn lemma_in_acting(s: Seq<Seq<Effect>>, c: Seq<Effect>)
    ensures
        acting(s).contains(c) <==> s.contains(c) && c.len() > 0,
    decreases s.len(),
{
    if s.len() > 0 {
        let r = s.drop_last();
        lemma_in_acting(r, c);
        assert(s =~= r + seq![s.last()]);
        lemma_in_both(r, seq![s.last()], c);
        assert(seq![s.last()][0] == s.last());
        let a = acting(r);
        assert(a.push(s.last()) =~= a + seq![s.last()]);
        lemma_in_both(a, seq![s.last()], c);
    }
}

/// A position with so much of a seat's corn already paid.
pub open spec fn after_fee(g: GameState, p: PlayerId, fee: int) -> GameState {
    let pl = g.players[p.0 as int];
    GameState {
        players: spec_array_update(
            g.players,
            p.0 as int,
            Player { corn: (pl.corn - fee) as u8, ..pl },
        ),
        ..g
    }
}

/// Whether this steps down so many spaces, a corn for each, and does there what
/// that space offers once the corn is paid.
pub open spec fn stepped_down(
    rules: Rulebook,
    g: GameState,
    p: PlayerId,
    gear: Gear,
    pos: int,
    fee: int,
    d: Seq<Effect>,
    c: Seq<Effect>,
) -> bool {
    &&& 1 <= fee <= pos
    &&& fee <= g.players[p.0 as int].corn
    &&& raw_list(rules, after_fee(g, p, fee), p, gear, pos - fee).contains(d)
    &&& d.len() > 0
    &&& c == seq![Effect::Corn((-fee) as i16)] + d
}

/// Before pruning a worker may do nothing, do what its own space offers, or step
/// down for a corn a space and do something there. On the free spaces, which repeat
/// what is below, there is no stepping down.
pub proof fn workers_may_step_down_for_corn(
    rules: Rulebook,
    g: GameState,
    p: PlayerId,
    gear: Gear,
    pos: int,
    c: Seq<Effect>,
)
    requires
        0 <= pos < 256,
    ensures
        ({
            let repeats = if gear == Gear::Chichen {
                pos >= 10
            } else {
                pos >= 6
            };
            worker_raw(rules, g, p, gear, pos).contains(c) <==> c == Seq::<Effect>::empty()
                || raw_list(rules, g, p, gear, pos).contains(c) || (!repeats && exists|
                fee: int,
                d: Seq<Effect>,
            | #[trigger] stepped_down(rules, g, p, gear, pos, fee, d, c))
        }),
{
    let repeats = if gear == Gear::Chichen {
        pos >= 10
    } else {
        pos >= 6
    };
    let none = seq![Seq::<Effect>::empty()];
    let own = raw_list(rules, g, p, gear, pos);
    let f = stepping_down(rules, g, p, gear, pos);
    let down = flat(pos + 1, f);
    lemma_in_one(Seq::empty(), c);
    lemma_in_both(none, own, c);
    lemma_in_both(none, down, c);
    lemma_in_flat(pos + 1, f, c);
    if !repeats {
        if down.contains(c) {
            let j = choose|j: int| 0 <= j < pos + 1 && #[trigger] f(j).contains(c);
            let fee = pos - j;
            if fee > 0 {
                let h = corn_paid(g, p, fee);
                assert(h == after_fee(g, p, fee));
                let list = acting(raw_list(rules, h, p, gear, j));
                let v = each_after(seq![Effect::Corn((-fee) as i16)], list);
                assert(f(j) == v);
                let i = v.index_of(c);
                let d = list[i];
                assert(list.contains(d));
                lemma_in_acting(raw_list(rules, h, p, gear, j), d);
                assert(stepped_down(rules, g, p, gear, pos, fee, d, c));
            }
        }
        if own.contains(c) {
            assert(f(pos).contains(c));
        }
        if exists|fee: int, d: Seq<Effect>| #[trigger]
            stepped_down(rules, g, p, gear, pos, fee, d, c) {
            let (fee, d) = choose|fee: int, d: Seq<Effect>| #[trigger]
                stepped_down(rules, g, p, gear, pos, fee, d, c);
            let j = pos - fee;
            let h = corn_paid(g, p, fee);
            assert(h == after_fee(g, p, fee));
            let list = acting(raw_list(rules, h, p, gear, j));
            lemma_in_acting(raw_list(rules, h, p, gear, j), d);
            let i = list.index_of(d);
            assert(each_after(seq![Effect::Corn((-fee) as i16)], list)[i] == c);
            assert(f(j).contains(c));
        }
    }
}

// ---- pruning -------------------------------------------------------------

/// The corn among some effects.
pub open spec fn corn_among(c: Seq<Effect>) -> int
    decreases c.len(),
{
    if c.len() == 0 {
        0
    } else {
        corn_among(c.drop_last()) + match c.last() {
            Effect::Corn(n) => n as int,
            _ => 0,
        }
    }
}

/// How much of one resource there is among some effects.
pub open spec fn resource_among(c: Seq<Effect>, r: Resource) -> int
    decreases c.len(),
{
    if c.len() == 0 {
        0
    } else {
        resource_among(c.drop_last(), r) + match c.last() {
            Effect::Res(x, n) => if x == r {
                n as int
            } else {
                0
            },
            _ => 0,
        }
    }
}

/// Effects without the corn, and where everything liquid is priced without the
/// points and the blocks either. Skulls always stay.
pub open spec fn besides_wealth(c: Seq<Effect>, wide: bool) -> Seq<Effect>
    decreases c.len(),
{
    if c.len() == 0 {
        Seq::empty()
    } else {
        let rest = besides_wealth(c.drop_last(), wide);
        let dropped = match c.last() {
            Effect::Corn(_) => true,
            Effect::Points(_) => wide,
            Effect::Res(Resource::Skull, _) => false,
            Effect::Res(_, _) => wide,
            _ => false,
        };
        if dropped {
            rest
        } else {
            rest.push(c.last())
        }
    }
}

/// Whether one choice brings in no less than another: of corn, and where everything
/// liquid is priced of each block and of points.
pub open spec fn no_poorer(a: Seq<Effect>, b: Seq<Effect>, wide: bool) -> bool {
    &&& corn_among(a) >= corn_among(b)
    &&& wide ==> resource_among(a, Resource::Wood) >= resource_among(b, Resource::Wood)
        && resource_among(a, Resource::Stone) >= resource_among(b, Resource::Stone)
        && resource_among(a, Resource::Gold) >= resource_among(b, Resource::Gold)
        && points_among(a) >= points_among(b)
}

proof fn lemma_wealth(c: Seq<Effect>, wide: bool)
    ensures
        structure(c, wide) == besides_wealth(c, wide),
        wealth(c, wide, 0) == corn_among(c),
        wide ==> wealth(c, wide, 1) == resource_among(c, Resource::Wood) && wealth(c, wide, 2)
            == resource_among(c, Resource::Stone) && wealth(c, wide, 3) == resource_among(
            c,
            Resource::Gold,
        ) && wealth(c, wide, 4) == points_among(c),
        !wide ==> wealth(c, wide, 1) == 0 && wealth(c, wide, 2) == 0 && wealth(c, wide, 3) == 0
            && wealth(c, wide, 4) == 0,
    decreases c.len(),
{
    if c.len() > 0 {
        lemma_wealth(c.drop_last(), wide);
    }
}

proof fn lemma_rich(a: Seq<Effect>, b: Seq<Effect>, wide: bool)
    ensures
        as_rich(a, b, wide) <==> no_poorer(a, b, wide),
{
    lemma_wealth(a, wide);
    lemma_wealth(b, wide);
    if as_rich(a, b, wide) {
        assert(wealth(a, wide, 0) >= wealth(b, wide, 0));
        assert(wealth(a, wide, 1) >= wealth(b, wide, 1));
        assert(wealth(a, wide, 2) >= wealth(b, wide, 2));
        assert(wealth(a, wide, 3) >= wealth(b, wide, 3));
        assert(wealth(a, wide, 4) >= wealth(b, wide, 4));
    }
    if no_poorer(a, b, wide) {
        assert forall|k: int| 0 <= k < 5 implies #[trigger] wealth(a, wide, k) >= wealth(
            b,
            wide,
            k,
        ) by {
            assert(k == 0 || k == 1 || k == 2 || k == 3 || k == 4);
        }
    }
}

/// Pruning adds nothing. With no pruning it drops nothing. For whatever it drops it
/// keeps a choice that does the same besides corn, or besides everything liquid
/// where that is priced, and brings in no less; doing nothing stands for itself
/// alone.
pub proof fn pruning_drops_only_what_is_no_richer(
    s: Seq<Seq<Effect>>,
    prune: u8,
    c: Seq<Effect>,
)
    ensures
        undominated(s, prune).contains(c) ==> s.contains(c),
        prune == 0 && s.contains(c) ==> undominated(s, prune).contains(c),
        s.contains(c) ==> exists|d: Seq<Effect>| #[trigger]
            undominated(s, prune).contains(d) && besides_wealth(d, prune >= 2) == besides_wealth(
                c,
                prune >= 2,
            ) && no_poorer(d, c, prune >= 2) && (d.len() == 0 <==> c.len() == 0),
{
    pruned_list_holds(s, prune);
    let wide = prune >= 2;
    if s.contains(c) {
        pruning_keeps_a_better_choice(s, prune, c);
        let d = choose|d: Seq<Effect>| #[trigger]
            undominated(s, prune).contains(d) && stands_for(d, c, wide);
        lemma_rich(d, c, wide);
        lemma_wealth(d, wide);
        lemma_wealth(c, wide);
        assert(undominated(s, prune).contains(d) && besides_wealth(d, wide) == besides_wealth(
            c,
            wide,
        ) && no_poorer(d, c, wide) && (d.len() == 0 <==> c.len() == 0));
    }
}

/// Where there is pruning, no kept choice is poorer than another that does the same:
/// it brings in less of nothing.
pub proof fn pruning_keeps_nothing_poorer(
    s: Seq<Seq<Effect>>,
    prune: u8,
    c: Seq<Effect>,
    d: Seq<Effect>,
)
    requires
        prune >= 1,
        undominated(s, prune).contains(c),
        s.contains(d),
        c.len() > 0,
        d.len() > 0,
        besides_wealth(d, prune >= 2) == besides_wealth(c, prune >= 2),
        no_poorer(d, c, prune >= 2),
    ensures
        no_poorer(c, d, prune >= 2),
{
    let wide = prune >= 2;
    pruned_list_holds(s, prune);
    assert(survives(s, c, wide));
    let i = s.index_of(d);
    assert(!beats(s[i], c, wide));
    lemma_rich(d, c, wide);
    lemma_rich(c, d, wide);
    lemma_wealth(c, wide);
    lemma_wealth(d, wide);
}

/// What a worker is offered is what it may do, pruned: nothing that it may not do,
/// and for everything it may do something that does the same and brings in no
/// less.
pub proof fn workers_are_offered_no_less(
    rules: Rulebook,
    g: GameState,
    p: PlayerId,
    gear: Gear,
    pos: int,
    c: Seq<Effect>,
)
    ensures
        worker_list(rules, g, p, gear, pos).contains(c) ==> worker_raw(
            rules,
            g,
            p,
            gear,
            pos,
        ).contains(c),
        rules.prune == 0 && worker_raw(rules, g, p, gear, pos).contains(c) ==> worker_list(
            rules,
            g,
            p,
            gear,
            pos,
        ).contains(c),
        worker_raw(rules, g, p, gear, pos).contains(c) ==> exists|d: Seq<Effect>| #[trigger]
            worker_list(rules, g, p, gear, pos).contains(d) && besides_wealth(d, rules.prune >= 2)
                == besides_wealth(c, rules.prune >= 2) && no_poorer(d, c, rules.prune >= 2),
{
    let raw = worker_raw(rules, g, p, gear, pos);
    let wide = rules.prune >= 2;
    pruning_drops_only_what_is_no_richer(raw, rules.prune, c);
    if raw.contains(c) {
        let d = choose|d: Seq<Effect>| #[trigger]
            undominated(raw, rules.prune).contains(d) && besides_wealth(d, wide) == besides_wealth(
                c,
                wide,
            ) && no_poorer(d, c, wide) && (d.len() == 0 <==> c.len() == 0);
        assert(worker_list(rules, g, p, gear, pos).contains(d));
    }
}

// ---- the order of effects ------------------------------------------------

/// The place of an effect's kind in the order of effects.
pub open spec fn kind_of(e: Effect) -> int {
    match e {
        Effect::Corn(_) => 0,
        Effect::SetCorn(_) => 1,
        Effect::Res(_, _) => 2,
        Effect::Points(_) => 3,
        Effect::TempleStep(_, _) => 4,
        Effect::AdvanceResearch(_) => 5,
        Effect::UnlockWorker => 6,
        Effect::FreeWorker(_) => 7,
        Effect::WorkerDiscount(_) => 8,
        Effect::TakePalenqueTile(_, _) => 9,
        Effect::BurnPalenqueWood(_) => 10,
        Effect::FillChichen(_) => 11,
        Effect::Build(_) => 12,
        Effect::TakeMonument(_) => 13,
    }
}

/// Effects sort by their kind, in the order the kinds are declared in, and within a
/// kind by what they name and then by how much.
pub proof fn effects_sort_as_they_are_declared(a: Effect, b: Effect)
    ensures
        kind_of(a) < kind_of(b) ==> effect_lt(a, b) && !effect_lt(b, a),
        !effect_lt(a, a),
        a != b ==> effect_lt(a, b) || effect_lt(b, a),
        (a matches Effect::Corn(m) && b matches Effect::Corn(n) && m < n) ==> effect_lt(a, b),
        (a matches Effect::Points(m) && b matches Effect::Points(n) && m < n) ==> effect_lt(a, b),
        (a matches Effect::Res(r, m) && b matches Effect::Res(s, n) && r == s && m < n)
            ==> effect_lt(a, b),
        (a matches Effect::Res(Resource::Wood, _) && b matches Effect::Res(s, _) && s
            != Resource::Wood) ==> effect_lt(a, b),
        (a matches Effect::Res(r, _) && b matches Effect::Res(Resource::Skull, _) && r
            != Resource::Skull) ==> effect_lt(a, b),
        (a matches Effect::Res(Resource::Stone, _) && b matches Effect::Res(Resource::Gold, _))
            ==> effect_lt(a, b),
        (a matches Effect::Build(x) && b matches Effect::Build(y) && x.0 < y.0) ==> effect_lt(a, b),
        (a matches Effect::TakePalenqueTile(x, TileKind::Corn) && b matches Effect::TakePalenqueTile(
            y,
            TileKind::Wood,
        ) && x == y) ==> effect_lt(a, b),
{
}

} // verus!
