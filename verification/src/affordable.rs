//! Generation never offers what cannot be paid.
//!
//! Every choice a space offers can be paid for, effect by effect, in the
//! position it is offered in, so playing a generated choice never clamps.

use crate::book::{cost_ok, Payoff, Rulebook};
use crate::dominance::{
    by_position, collapsed, collapsing_keeps_every_choice, pruned_list_holds, undominated,
};
use crate::effect::{
    affordable_all, after, after_all, byte, chained_effects_compose, payable_at, Effect,
};
use crate::ids::{
    empty_bundle, BuildingId, Bundle, Gear, PlayerId, Resource, Science, Temple, WorkerId,
};
use crate::legal::{
    fault_of, generated_pity_is_legal, generated_placements_are_legal,
    generated_retrievals_are_on_offer, lemma_beg_passes, lemma_flat_part,
    takes_on_offer, taking_fault,
};
use crate::lists::{each_after, each_then, flat, only, or_skip_list};
use crate::moves::{
    beg_list, begged, corn_paid, legal_list, lemma_begged_ok, normal_list, normal_upto, place_list,
    retrieve_walk, stepping_down, worker_list, worker_raw, Kind, Play,
};
use crate::options::{
    bill, build_base, buys_back, building_list, builds_for, builds_of, buys_from, buys_taking,
    chains, chains_gaining, chains_on, chains_paying, climbs, costs_list, discounts, exchange_list,
    free_track_list, granted, monument_list, monument_offers, net_of, owing, payoff_list,
    pays_exactly, price, proceeds, purse, reopens, research_list, settled, spent, splits,
    splits_are_exact, stepped, stepped_on, top_list, topped, trade, trades_buying, trades_gold,
    trades_selling, trades_stone, trades_wood, walk_start, with_step, worth, Walk,
};
use crate::order::{sorted_unique, sorted_unique_keeps};
use crate::research::bonus_list;
use crate::spaces::chichen::{
    chichen_list, chichen_low, devotions, devotions_on, devotions_with, spot_cores, spot_counted,
    spot_foreseen, spot_plain,
};
use crate::spaces::palenque::{digs, jungle_list, palenque_list, palenque_plain};
use crate::spaces::tikal::{
    build_two_list, first_built, plain_pairs, raised_pairs, steps_from, steps_paying, steps_with, tikal_list,
    tikal_plain, two_steps_list,
};
use crate::spaces::uxmal::{
    acting, corn_builds, corn_builds_list, corn_price, fee_paid, mirror_list, mirrored_gears,
    mirrored_uxmal, paid_steps, paid_steps_list, uxmal_list, uxmal_plain,
};
use crate::spaces::yaxchilan::{yaxchilan_list, yaxchilan_plain};
use crate::spaces::{raw_list, MAX_DEPTH};
use crate::state::{
    available_list, board_list, retrieved, shown, GameState, Player, WorkerLoc,
};
use vstd::array::spec_array_update;
use vstd::prelude::*;

verus! {

/// Whether every choice of a list can be paid for in a position.
pub open spec fn all_affordable(
    rules: Rulebook,
    g: GameState,
    p: PlayerId,
    s: Seq<Seq<Effect>>,
) -> bool {
    forall|i: int| 0 <= i < s.len() ==> affordable_all(rules, g, p, #[trigger] s[i])
}

/// Whether an effect takes nothing from the seat.
pub open spec fn free(e: Effect) -> bool {
    match e {
        Effect::Corn(n) => n >= 0,
        Effect::Res(_, n) => n >= 0,
        _ => true,
    }
}

/// Whether a list of effects takes nothing from the seat.
pub open spec fn all_free(s: Seq<Effect>) -> bool {
    forall|i: int| 0 <= i < s.len() ==> free(#[trigger] s[i])
}

/// Whether the fixed part of a payoff takes nothing.
pub open spec fn payoff_free(payoff: Payoff) -> bool {
    match payoff {
        Payoff::Fixed(v) => all_free(v@),
        Payoff::FreeTrack(_, v) => all_free(v@),
        Payoff::FreeAny(_, v) => all_free(v@),
        Payoff::BuildAnother => true,
        Payoff::CornExchange(v) => all_free(v@),
        Payoff::Mirror(v) => all_free(v@),
    }
}

/// Whether the fixed part of every building's payoff takes nothing.
pub open spec fn payoffs_free(rules: Rulebook) -> bool {
    forall|i: int|
        0 <= i < rules.buildings@.len() ==> payoff_free((#[trigger] rules.buildings@[i]).payoff)
}

/// What a payoff hands over at its end, whatever was chosen before.
pub open spec fn payoff_tail(payoff: Payoff) -> Seq<Effect> {
    match payoff {
        Payoff::Fixed(v) => v@,
        Payoff::FreeTrack(_, v) => v@,
        Payoff::FreeAny(_, v) => v@,
        Payoff::BuildAnother => Seq::empty(),
        Payoff::CornExchange(v) => v@,
        Payoff::Mirror(v) => v@,
    }
}

/// Whether a card's payoff can be paid after some effects.
pub open spec fn tail_paid(
    rules: Rulebook,
    g: GameState,
    p: PlayerId,
    s: Seq<Effect>,
    id: BuildingId,
) -> bool {
    affordable_all(rules, after_all(rules, g, p, s), p, payoff_tail(rules.bdef(id).payoff))
}

/// Whether a card's payoff can be paid, whatever else is paid for before.
pub open spec fn due_now(rules: Rulebook, g: GameState, p: PlayerId, id: BuildingId) -> bool {
    forall|s: Seq<Effect>|
        affordable_all(rules, g, p, s) ==> #[trigger] tail_paid(rules, g, p, s, id)
}

/// Whether every card's payoff can be paid when it falls due: after any effects
/// that can be paid for and build the card.
pub open spec fn due(rules: Rulebook, g: GameState, p: PlayerId) -> bool {
    forall|s: Seq<Effect>, id: BuildingId|
        id.ok() && affordable_all(rules, g, p, s) && s.contains(Effect::Build(id))
            ==> #[trigger] tail_paid(rules, g, p, s, id)
}

fn list_is_free(v: &Vec<Effect>) -> (b: bool)
    ensures
        b == all_free(v@),
{
    let mut i: usize = 0;
    while i < v.len()
        invariant
            i <= v@.len(),
            forall|j: int| 0 <= j < i ==> free(#[trigger] v@[j]),
        decreases v@.len() - i,
    {
        let taken = match v[i] {
            Effect::Corn(n) => n < 0,
            Effect::Res(_, n) => n < 0,
            _ => false,
        };
        if taken {
            assert(!free(v@[i as int]));
            return false;
        }
        i += 1;
    }
    true
}

fn payoff_is_free(payoff: &Payoff) -> (b: bool)
    ensures
        b == payoff_free(*payoff),
{
    match payoff {
        Payoff::Fixed(v) => list_is_free(v),
        Payoff::FreeTrack(_, v) => list_is_free(v),
        Payoff::FreeAny(_, v) => list_is_free(v),
        Payoff::BuildAnother => true,
        Payoff::CornExchange(v) => list_is_free(v),
        Payoff::Mirror(v) => list_is_free(v),
    }
}

/// Whether the fixed part of every building's payoff takes nothing, so that every
/// generated move passes the check.
pub fn payoffs_are_free(rules: &Rulebook) -> (b: bool)
    ensures
        b == payoffs_free(*rules),
{
    let mut i: usize = 0;
    while i < rules.buildings.len()
        invariant
            i <= rules.buildings@.len(),
            forall|j: int| 0 <= j < i ==> payoff_free((#[trigger] rules.buildings@[j]).payoff),
        decreases rules.buildings@.len() - i,
    {
        let d = &rules.buildings[i];
        assert(*d == rules.buildings@[i as int]);
        if !payoff_is_free(&d.payoff) {
            return false;
        }
        i += 1;
    }
    true
}

/// What takes nothing can always be paid for.
proof fn lemma_free(rules: Rulebook, g: GameState, p: PlayerId, s: Seq<Effect>)
    requires
        all_free(s),
    ensures
        affordable_all(rules, g, p, s),
{
    reveal(payable_at);
    assert forall|j: int| 0 <= j < s.len() implies payable_at(rules, g, p, s, j) by {
        assert(free(s[j]));
    }
}

/// Two lists of effects, one after the other.
proof fn lemma_then(rules: Rulebook, g: GameState, p: PlayerId, a: Seq<Effect>, b: Seq<Effect>)
    requires
        affordable_all(rules, g, p, a),
        affordable_all(rules, after_all(rules, g, p, a), p, b),
    ensures
        affordable_all(rules, g, p, a + b),
{
    reveal(payable_at);
    let h = after_all(rules, g, p, a);
    assert forall|j: int| 0 <= j < (a + b).len() implies payable_at(rules, g, p, a + b, j) by {
        if j < a.len() {
            assert((a + b).take(j) =~= a.take(j));
            assert(payable_at(rules, g, p, a, j));
        } else {
            let k = j - a.len();
            assert((a + b).take(j) =~= a + b.take(k));
            chained_effects_compose(rules, g, p, a, b.take(k));
            assert(payable_at(rules, h, p, b, k));
        }
    }
}

/// One effect that the seat can pay for.
proof fn lemma_one(rules: Rulebook, g: GameState, p: PlayerId, e: Effect)
    requires
        e.paid_by(g.players[p.0 as int]),
    ensures
        affordable_all(rules, g, p, seq![e]),
        after_all(rules, g, p, seq![e]) == after(rules, g, p, e),
{
    reveal(payable_at);
    assert(seq![e].take(0) =~= Seq::<Effect>::empty());
    assert(seq![e].drop_last() =~= Seq::<Effect>::empty());
    reveal_with_fuel(after_all, 2);
}

/// A list of effects with one more behind it.
proof fn lemma_push(rules: Rulebook, g: GameState, p: PlayerId, s: Seq<Effect>, e: Effect)
    requires
        affordable_all(rules, g, p, s),
        e.paid_by(after_all(rules, g, p, s).players[p.0 as int]),
    ensures
        affordable_all(rules, g, p, s.push(e)),
        after_all(rules, g, p, s.push(e)) == after(rules, after_all(rules, g, p, s), p, e),
{
    let h = after_all(rules, g, p, s);
    lemma_one(rules, h, p, e);
    lemma_then(rules, g, p, s, seq![e]);
    assert(s + seq![e] =~= s.push(e));
    assert(s.push(e).drop_last() =~= s);
}

/// A sequence with a fixed head in front of each choice.
proof fn lemma_each_after(
    rules: Rulebook,
    g: GameState,
    p: PlayerId,
    head: Seq<Effect>,
    s: Seq<Seq<Effect>>,
)
    requires
        affordable_all(rules, g, p, head),
        all_affordable(rules, after_all(rules, g, p, head), p, s),
    ensures
        all_affordable(rules, g, p, each_after(head, s)),
{
    assert forall|i: int| 0 <= i < s.len() implies affordable_all(
        rules,
        g,
        p,
        #[trigger] each_after(head, s)[i],
    ) by {
        assert(affordable_all(rules, after_all(rules, g, p, head), p, s[i]));
        lemma_then(rules, g, p, head, s[i]);
    }
}

/// Choices that can be paid for stay so with a card's tail behind each.
proof fn lemma_each_then(
    rules: Rulebook,
    g: GameState,
    p: PlayerId,
    s: Seq<Seq<Effect>>,
    id: BuildingId,
)
    requires
        all_affordable(rules, g, p, s),
        due_now(rules, g, p, id),
    ensures
        all_affordable(rules, g, p, each_then(s, payoff_tail(rules.bdef(id).payoff))),
{
    let tail = payoff_tail(rules.bdef(id).payoff);
    assert forall|i: int| 0 <= i < s.len() implies affordable_all(
        rules,
        g,
        p,
        #[trigger] each_then(s, tail)[i],
    ) by {
        assert(affordable_all(rules, g, p, s[i]));
        assert(tail_paid(rules, g, p, s[i], id));
        lemma_then(rules, g, p, s[i], tail);
    }
}

/// A list that holds only what an affordable list holds.
proof fn lemma_subset(
    rules: Rulebook,
    g: GameState,
    p: PlayerId,
    a: Seq<Seq<Effect>>,
    b: Seq<Seq<Effect>>,
)
    requires
        forall|c: Seq<Effect>| #[trigger] a.contains(c) ==> b.contains(c),
        all_affordable(rules, g, p, b),
    ensures
        all_affordable(rules, g, p, a),
{
    assert forall|i: int| 0 <= i < a.len() implies affordable_all(
        rules,
        g,
        p,
        #[trigger] a[i],
    ) by {
        assert(a.contains(a[i]));
        assert(b.contains(a[i]));
        assert(affordable_all(rules, g, p, b[b.index_of(a[i])]));
    }
}

proof fn lemma_collapsed(rules: Rulebook, g: GameState, p: PlayerId, s: Seq<Seq<Effect>>)
    requires
        all_affordable(rules, g, p, s),
    ensures
        all_affordable(rules, g, p, collapsed(s)),
{
    collapsing_keeps_every_choice(s, s.len() as int);
    assert(s.take(s.len() as int) =~= s);
    lemma_subset(rules, g, p, collapsed(s), s);
}

proof fn lemma_sorted(rules: Rulebook, g: GameState, p: PlayerId, s: Seq<Seq<Effect>>)
    requires
        all_affordable(rules, g, p, s),
    ensures
        all_affordable(rules, g, p, sorted_unique(s)),
{
    sorted_unique_keeps(s);
    lemma_subset(rules, g, p, sorted_unique(s), s);
}

proof fn lemma_undominated(
    rules: Rulebook,
    g: GameState,
    p: PlayerId,
    s: Seq<Seq<Effect>>,
    prune: u8,
)
    requires
        all_affordable(rules, g, p, s),
    ensures
        all_affordable(rules, g, p, undominated(s, prune)),
{
    pruned_list_holds(s, prune);
    lemma_subset(rules, g, p, undominated(s, prune), s);
}

proof fn lemma_by_position(
    rules: Rulebook,
    g: GameState,
    p: PlayerId,
    s: Seq<Seq<Effect>>,
    n: int,
)
    requires
        all_affordable(rules, g, p, s),
        0 <= n <= s.len(),
    ensures
        all_affordable(rules, g, p, by_position(rules, g, p, s, n)),
    decreases n,
{
    if n > 0 {
        lemma_by_position(rules, g, p, s, n - 1);
        assert(affordable_all(rules, g, p, s[n - 1]));
    }
}

proof fn lemma_or_skip(rules: Rulebook, g: GameState, p: PlayerId, s: Seq<Seq<Effect>>)
    requires
        all_affordable(rules, g, p, s),
    ensures
        all_affordable(rules, g, p, or_skip_list(s)),
{
    lemma_free(rules, g, p, Seq::<Effect>::empty());
}

/// A concatenation whose parts are affordable.
proof fn lemma_flat(
    rules: Rulebook,
    g: GameState,
    p: PlayerId,
    n: int,
    f: spec_fn(int) -> Seq<Seq<Effect>>,
)
    requires
        forall|i: int| 0 <= i < n ==> all_affordable(rules, g, p, #[trigger] f(i)),
    ensures
        all_affordable(rules, g, p, flat(n, f)),
    decreases n,
{
    if n > 0 {
        lemma_flat(rules, g, p, n - 1, f);
        lemma_concat(rules, g, p, flat(n - 1, f), f(n - 1));
    }
}

proof fn lemma_concat(
    rules: Rulebook,
    g: GameState,
    p: PlayerId,
    a: Seq<Seq<Effect>>,
    b: Seq<Seq<Effect>>,
)
    requires
        all_affordable(rules, g, p, a),
        all_affordable(rules, g, p, b),
    ensures
        all_affordable(rules, g, p, a + b),
{
    assert forall|i: int| 0 <= i < (a + b).len() implies affordable_all(
        rules,
        g,
        p,
        #[trigger] (a + b)[i],
    ) by {
        if i < a.len() {
            assert((a + b)[i] == a[i]);
        } else {
            assert((a + b)[i] == b[i - a.len()]);
        }
    }
}

/// What moving a resource leaves of the seat's holdings.
proof fn lemma_after_res(rules: Rulebook, g: GameState, p: PlayerId, r: Resource, n: i8)
    requires
        p.ok(),
    ensures
        ({
            let was = g.players[p.0 as int];
            let now = after(rules, g, p, Effect::Res(r, n)).players[p.0 as int];
            &&& now.corn == was.corn
            &&& forall|i: int| 0 <= i < 4 && i != r.rank() ==> #[trigger] now.res[i] == was.res[i]
            &&& r != Resource::Skull ==> now.res[r.rank()] == byte(was.res[r.rank()] + n)
        }),
{
    reveal(after);
}

/// Settling a bill takes exactly the blocks it names.
proof fn lemma_bill(rules: Rulebook, g: GameState, p: PlayerId, pay: Bundle)
    requires
        p.ok(),
        forall|i: int| 0 <= i < 3 ==> 0 <= #[trigger] pay[i] <= g.players[p.0 as int].res[i],
    ensures
        affordable_all(rules, g, p, bill(pay)),
        ({
            let was = g.players[p.0 as int];
            let now = after_all(rules, g, p, bill(pay)).players[p.0 as int];
            &&& now.corn == was.corn
            &&& forall|i: int| 0 <= i < 3 ==> #[trigger] now.res[i] == was.res[i] - pay[i]
        }),
{
    let pl = g.players[p.0 as int];
    assert(0 <= pay[0] <= pl.res[0]);
    assert(0 <= pay[1] <= pl.res[1]);
    assert(0 <= pay[2] <= pl.res[2]);
    let e0 = Effect::Res(Resource::Wood, (-pay[0]) as i8);
    let e1 = Effect::Res(Resource::Stone, (-pay[1]) as i8);
    let e2 = Effect::Res(Resource::Gold, (-pay[2]) as i8);
    let a = only(pay[0] > 0, e0);
    let b = only(pay[1] > 0, e1);
    let c = only(pay[2] > 0, e2);
    lemma_free(rules, g, p, Seq::<Effect>::empty());
    let g1 = after_all(rules, g, p, a);
    if pay[0] > 0 {
        lemma_one(rules, g, p, e0);
        lemma_after_res(rules, g, p, Resource::Wood, (-pay[0]) as i8);
    } else {
        assert(a =~= Seq::<Effect>::empty());
    }
    let p1 = g1.players[p.0 as int];
    assert(p1.res[0] == pl.res[0] - pay[0] && p1.res[1] == pl.res[1] && p1.res[2] == pl.res[2]);
    let g2 = after_all(rules, g1, p, b);
    lemma_free(rules, g1, p, Seq::<Effect>::empty());
    if pay[1] > 0 {
        lemma_one(rules, g1, p, e1);
        lemma_after_res(rules, g1, p, Resource::Stone, (-pay[1]) as i8);
    } else {
        assert(b =~= Seq::<Effect>::empty());
    }
    let p2 = g2.players[p.0 as int];
    assert(p2.res[0] == p1.res[0] && p2.res[1] == pl.res[1] - pay[1] && p2.res[2] == pl.res[2]);
    lemma_then(rules, g, p, a, b);
    chained_effects_compose(rules, g, p, a, b);
    let g3 = after_all(rules, g2, p, c);
    lemma_free(rules, g2, p, Seq::<Effect>::empty());
    if pay[2] > 0 {
        lemma_one(rules, g2, p, e2);
        lemma_after_res(rules, g2, p, Resource::Gold, (-pay[2]) as i8);
    } else {
        assert(c =~= Seq::<Effect>::empty());
    }
    let p3 = g3.players[p.0 as int];
    assert(p3.res[0] == p2.res[0] && p3.res[1] == p2.res[1] && p3.res[2] == pl.res[2] - pay[2]);
    lemma_then(rules, g, p, a + b, c);
    chained_effects_compose(rules, g, p, a + b, c);
    assert(bill(pay) =~= a + b + c);
}

// ---- research ------------------------------------------------------------

/// An effect that is not a resource leaves the seat's resources alone.
proof fn lemma_after_keeps_res(rules: Rulebook, g: GameState, p: PlayerId, e: Effect)
    requires
        p.ok(),
        !(e is Res),
    ensures
        after(rules, g, p, e).players[p.0 as int].res == g.players[p.0 as int].res,
{
    reveal(after);
}

/// A payoff leaves at least the blocks a chain counts on.
proof fn lemma_gain(
    rules: Rulebook,
    g: GameState,
    p: PlayerId,
    res: [u8; 4],
    gain: Seq<Effect>,
)
    requires
        p.ok(),
        all_free(gain),
        forall|i: int| 0 <= i < 3 ==> #[trigger] res[i] <= g.players[p.0 as int].res[i],
    ensures
        forall|i: int|
            0 <= i < 3 ==> #[trigger] granted(res, gain)[i] <= after_all(
                rules,
                g,
                p,
                gain,
            ).players[p.0 as int].res[i],
    decreases gain.len(),
{
    if gain.len() > 0 {
        let rest = gain.drop_last();
        let e = gain.last();
        assert(free(gain[gain.len() - 1]));
        assert forall|i: int| 0 <= i < rest.len() implies free(#[trigger] rest[i]) by {
            assert(free(gain[i]));
        }
        lemma_gain(rules, g, p, res, rest);
        let h = after_all(rules, g, p, rest);
        let r0 = granted(res, rest);
        match e {
            Effect::Res(r, d) => {
                lemma_after_res(rules, h, p, r, d);
                assert forall|i: int| 0 <= i < 3 implies #[trigger] granted(res, gain)[i]
                    <= after_all(rules, g, p, gain).players[p.0 as int].res[i] by {
                    assert(r0[i] <= h.players[p.0 as int].res[i]);
                }
            },
            _ => {
                lemma_after_keeps_res(rules, h, p, e);
            },
        }
    }
}

/// A payoff that hands over no resource leaves a chain's count alone.
proof fn lemma_no_gain(res: [u8; 4], gain: Seq<Effect>)
    requires
        !reopens(gain),
    ensures
        granted(res, gain) == res,
    decreases gain.len(),
{
    if gain.len() > 0 {
        let rest = gain.drop_last();
        assert(!(gain[gain.len() - 1] is Res));
        assert(!reopens(rest)) by {
            if reopens(rest) {
                let i = choose|i: int| 0 <= i < rest.len() && (#[trigger] rest[i]) is Res;
                assert(gain[i] is Res);
            }
        }
        lemma_no_gain(res, rest);
    }
}

/// The payoffs past the top of a track take nothing.
proof fn lemma_top_free(rules: Rulebook, g: GameState, p: PlayerId, s: Science)
    ensures
        forall|i: int|
            0 <= i < top_list(rules, g, p, s).len() ==> all_free(
                #[trigger] top_list(rules, g, p, s)[i],
            ),
{
    let v = top_list(rules, g, p, s);
    assert forall|i: int| 0 <= i < v.len() implies all_free(#[trigger] v[i]) by {
        if s == Science::Agriculture {
            let c = flat(3, climbs(rules, g, p));
            if c.len() > 0 {
                assert(c.contains(c[i]));
                let k = lemma_flat_part(3, climbs(rules, g, p), c[i]);
            }
        }
    }
}

/// Whether the blocks a chain counts on, and those it owes, are no more than
/// the seat has, with room to owe for `n` more advances.
spec fn covered(pl: Player, res: [u8; 4], owed: Bundle, n: int) -> bool {
    &&& forall|i: int| 0 <= i < 3 ==> 0 <= #[trigger] owed[i] && res[i] + owed[i] <= pl.res[i]
    &&& forall|i: int| 0 <= i < 3 ==> #[trigger] owed[i] + 3 * n <= 120
}

/// Whether a chain counts on no more than the seat will have.
spec fn counts_on(pl: Player, w: Walk, n: int) -> bool {
    covered(pl, w.res, w.owed, n)
}

/// What a chain still owes after an advance.
spec fn still_owed(rules: Rulebook, w: Walk, pay: Bundle, gain: Seq<Effect>) -> Bundle {
    if rules.prune >= 1 && !reopens(gain) {
        owing(w.owed, pay)
    } else {
        empty_bundle()
    }
}

/// Every chain of advances can be paid for.
proof fn lemma_chains(
    rules: Rulebook,
    g: GameState,
    p: PlayerId,
    n: int,
    free: bool,
    w: Walk,
    acc: Seq<Effect>,
)
    requires
        p.ok(),
        0 <= n <= 40,
        affordable_all(rules, g, p, acc),
        counts_on(after_all(rules, g, p, acc).players[p.0 as int], w, n),
    ensures
        all_affordable(rules, g, p, chains(rules, g, p, n, free, w, acc)),
    decreases n, 2int,
{
    let h = after_all(rules, g, p, acc);
    if n == 0 {
        assert forall|i: int| 0 <= i < 3 implies 0 <= #[trigger] w.owed[i]
            <= h.players[p.0 as int].res[i] by {}
        lemma_bill(rules, h, p, w.owed);
        lemma_then(rules, g, p, acc, bill(w.owed));
    } else {
        let f = chains_on(rules, g, p, n, free, w, acc);
        assert forall|s: int| 0 <= s < 4 implies all_affordable(
            rules,
            g,
            p,
            #[trigger] f(s),
        ) by {
            let pays = splits(w.res, price(free, w.lvls[s]));
            let fp = chains_paying(rules, g, p, n, free, w, acc, s);
            assert forall|i: int| 0 <= i < pays.len() implies all_affordable(
                rules,
                g,
                p,
                #[trigger] fp(i),
            ) by {
                assert(pays.contains(pays[i]));
                splits_are_exact(w.res, price(free, w.lvls[s]), pays[i]);
                lemma_chain_paid(rules, g, p, n, free, w, acc, s, pays[i]);
            }
            lemma_flat(rules, g, p, pays.len() as int, fp);
        }
        lemma_flat(rules, g, p, 4, f);
    }
}

/// Every chain whose next advance is paid for in one way can be paid for.
proof fn lemma_chain_paid(
    rules: Rulebook,
    g: GameState,
    p: PlayerId,
    n: int,
    free: bool,
    w: Walk,
    acc: Seq<Effect>,
    s: int,
    pay: Bundle,
)
    requires
        p.ok(),
        0 < n <= 40,
        0 <= s < 4,
        affordable_all(rules, g, p, acc),
        counts_on(after_all(rules, g, p, acc).players[p.0 as int], w, n),
        pays_exactly(w.res, price(free, w.lvls[s]), pay),
    ensures
        w.lvls[s] < 3 ==> all_affordable(
            rules,
            g,
            p,
            chains(
                rules,
                g,
                p,
                n - 1,
                free,
                stepped(rules, w, s, pay),
                (acc + settled(rules, w, pay, Seq::empty())).push(
                    Effect::AdvanceResearch(Science::at(s)),
                ),
            ),
        ),
        w.lvls[s] >= 3 ==> all_affordable(
            rules,
            g,
            p,
            flat(
                top_list(rules, g, p, Science::at(s)).len() as int,
                chains_gaining(rules, g, p, n, free, w, acc, s, pay),
            ),
        ),
    decreases n, 1int,
{
    if w.lvls[s] < 3 {
        let none = Seq::<Effect>::empty();
        assert(!reopens(none));
        let e = Effect::AdvanceResearch(Science::at(s));
        let acc1 = acc + settled(rules, w, pay, none);
        lemma_settled(rules, g, p, n, free, w, acc, s, pay, none);
        lemma_push(rules, g, p, acc1, e);
        lemma_after_keeps_res(rules, after_all(rules, g, p, acc1), p, e);
        let w2 = stepped(rules, w, s, pay);
        lemma_chains(rules, g, p, n - 1, free, w2, acc1.push(e));
    } else {
        let tops = top_list(rules, g, p, Science::at(s));
        let f = chains_gaining(rules, g, p, n, free, w, acc, s, pay);
        lemma_top_free(rules, g, p, Science::at(s));
        assert forall|j: int| 0 <= j < tops.len() implies all_affordable(
            rules,
            g,
            p,
            #[trigger] f(j),
        ) by {
            let gain = tops[j];
            assert(all_free(gain));
            let acc1 = acc + settled(rules, w, pay, gain);
            lemma_settled(rules, g, p, n, free, w, acc, s, pay, gain);
            let h1 = after_all(rules, g, p, acc1);
            lemma_free(rules, h1, p, gain);
            lemma_then(rules, g, p, acc1, gain);
            chained_effects_compose(rules, g, p, acc1, gain);
            let w2 = topped(rules, w, s, pay, gain);
            lemma_topped(rules, h1, p, n, w, s, pay, gain);
            lemma_chains(rules, g, p, n - 1, free, w2, acc1 + gain);
        }
        lemma_flat(rules, g, p, tops.len() as int, f);
    }
}

/// What a chain counts on once it has settled what it settles before an
/// advance.
proof fn lemma_settled(
    rules: Rulebook,
    g: GameState,
    p: PlayerId,
    n: int,
    free: bool,
    w: Walk,
    acc: Seq<Effect>,
    s: int,
    pay: Bundle,
    gain: Seq<Effect>,
)
    requires
        p.ok(),
        0 < n <= 40,
        0 <= s < 4,
        affordable_all(rules, g, p, acc),
        counts_on(after_all(rules, g, p, acc).players[p.0 as int], w, n),
        pays_exactly(w.res, price(free, w.lvls[s]), pay),
    ensures
        ({
            let acc1 = acc + settled(rules, w, pay, gain);
            &&& affordable_all(rules, g, p, acc1)
            &&& covered(
                after_all(rules, g, p, acc1).players[p.0 as int],
                spent(w.res, pay),
                still_owed(rules, w, pay, gain),
                n - 1,
            )
        }),
{
    let h = after_all(rules, g, p, acc);
    let pl = h.players[p.0 as int];
    assert(price(free, w.lvls[s]) <= 3);
    assert forall|i: int| 0 <= i < 3 implies 0 <= #[trigger] pay[i] <= 3 && 0 <= w.owed[i]
        && w.owed[i] + 3 * n <= 120 && w.res[i] + w.owed[i] <= pl.res[i] && pay[i]
        <= w.res[i] by {
        assert(0 <= pay[0] && 0 <= pay[1] && 0 <= pay[2]);
        assert(w.owed[i] + 3 * n <= 120);
    }
    assert(pay[0] <= 3 && pay[1] <= 3 && pay[2] <= 3);
    let o = owing(w.owed, pay);
    assert(o[0] == w.owed[0] + pay[0] && o[1] == w.owed[1] + pay[1] && o[2] == w.owed[2] + pay[2]);
    let sp = spent(w.res, pay);
    assert(sp[0] == w.res[0] - pay[0] && sp[1] == w.res[1] - pay[1] && sp[2] == w.res[2] - pay[2]);
    if rules.prune == 0 {
        assert forall|i: int| 0 <= i < 3 implies 0 <= #[trigger] pay[i] <= pl.res[i] by {}
        lemma_bill(rules, h, p, pay);
        lemma_then(rules, g, p, acc, bill(pay));
        chained_effects_compose(rules, g, p, acc, bill(pay));
    } else if reopens(gain) {
        assert forall|i: int| 0 <= i < 3 implies 0 <= #[trigger] o[i] <= pl.res[i] by {
            assert(0 <= pay[i]);
        }
        lemma_bill(rules, h, p, o);
        lemma_then(rules, g, p, acc, bill(o));
        chained_effects_compose(rules, g, p, acc, bill(o));
    } else {
        assert(acc + settled(rules, w, pay, gain) =~= acc);
    }
    let acc1 = acc + settled(rules, w, pay, gain);
    let now = after_all(rules, g, p, acc1).players[p.0 as int];
    let left = still_owed(rules, w, pay, gain);
    assert(left[0] == 0 || left == o);
    assert forall|i: int| 0 <= i < 3 implies 0 <= #[trigger] left[i] && sp[i] + left[i]
        <= now.res[i] && left[i] + 3 * (n - 1) <= 120 by {
        assert(0 <= pay[i]);
    }
}

/// What a chain counts on after a payoff past the top.
proof fn lemma_topped(
    rules: Rulebook,
    g: GameState,
    p: PlayerId,
    n: int,
    w: Walk,
    s: int,
    pay: Bundle,
    gain: Seq<Effect>,
)
    requires
        p.ok(),
        0 < n <= 40,
        all_free(gain),
        covered(
            g.players[p.0 as int],
            spent(w.res, pay),
            still_owed(rules, w, pay, gain),
            n - 1,
        ),
    ensures
        counts_on(
            after_all(rules, g, p, gain).players[p.0 as int],
            topped(rules, w, s, pay, gain),
            n - 1,
        ),
{
    let w2 = topped(rules, w, s, pay, gain);
    let pl = g.players[p.0 as int];
    let sp = spent(w.res, pay);
    let left = still_owed(rules, w, pay, gain);
    assert(w2.owed == left);
    if reopens(gain) {
        assert forall|i: int| 0 <= i < 3 implies #[trigger] sp[i] <= pl.res[i] by {
            assert(0 <= left[i]);
        }
        lemma_gain(rules, g, p, sp, gain);
        assert forall|i: int| 0 <= i < 3 implies 0 <= #[trigger] w2.owed[i] && w2.res[i]
            + w2.owed[i] <= after_all(rules, g, p, gain).players[p.0 as int].res[i] by {
            assert(w2.owed[i] == 0);
            assert(granted(sp, gain)[i] <= after_all(rules, g, p, gain).players[p.0 as int].res[i]);
        }
    } else {
        lemma_no_gain(sp, gain);
        lemma_keeps_res(rules, g, p, gain);
        assert forall|i: int| 0 <= i < 3 implies 0 <= #[trigger] w2.owed[i] && w2.res[i]
            + w2.owed[i] <= after_all(rules, g, p, gain).players[p.0 as int].res[i] by {
            assert(0 <= left[i]);
        }
    }
    assert forall|i: int| 0 <= i < 3 implies #[trigger] w2.owed[i] + 3 * (n - 1) <= 120 by {
        assert(left[i] + 3 * (n - 1) <= 120);
    }
}

/// Effects that are no resources leave the seat's resources alone.
proof fn lemma_keeps_res(rules: Rulebook, g: GameState, p: PlayerId, s: Seq<Effect>)
    requires
        p.ok(),
        !reopens(s),
    ensures
        after_all(rules, g, p, s).players[p.0 as int].res == g.players[p.0 as int].res,
    decreases s.len(),
{
    if s.len() > 0 {
        let rest = s.drop_last();
        assert(!(s[s.len() - 1] is Res));
        assert(!reopens(rest)) by {
            if reopens(rest) {
                let i = choose|i: int| 0 <= i < rest.len() && (#[trigger] rest[i]) is Res;
                assert(s[i] is Res);
            }
        }
        lemma_keeps_res(rules, g, p, rest);
        lemma_after_keeps_res(rules, after_all(rules, g, p, rest), p, s.last());
    }
}

/// Every research choice can be paid for.
proof fn lemma_research(rules: Rulebook, g: GameState, p: PlayerId, n: int, free: bool)
    requires
        p.ok(),
        0 <= n <= 40,
    ensures
        all_affordable(rules, g, p, research_list(rules, g, p, n, free)),
{
    let w = walk_start(g, p);
    let none = Seq::<Effect>::empty();
    lemma_free(rules, g, p, none);
    lemma_chains(rules, g, p, n, free, w, none);
    lemma_collapsed(rules, g, p, chains(rules, g, p, n, free, w, none));
}

/// Every free advance can be paid for.
proof fn lemma_free_track(rules: Rulebook, g: GameState, p: PlayerId, s: Science)
    ensures
        all_affordable(rules, g, p, free_track_list(rules, g, p, s)),
{
    let v = free_track_list(rules, g, p, s);
    lemma_top_free(rules, g, p, s);
    assert forall|i: int| 0 <= i < v.len() implies affordable_all(
        rules,
        g,
        p,
        #[trigger] v[i],
    ) by {
        assert(all_free(v[i]));
        lemma_free(rules, g, p, v[i]);
    }
}

/// A card's cost that the seat can pay settles.
proof fn lemma_cost(rules: Rulebook, g: GameState, p: PlayerId, cost: Bundle)
    requires
        p.ok(),
        g.players[p.0 as int].pays(cost),
    ensures
        affordable_all(rules, g, p, bill(cost)),
{
    let pl = g.players[p.0 as int];
    // A bill asks only for the kinds a cost names.
    let owed: Bundle = [
        if cost[0] > 0 {
            cost[0]
        } else {
            0i8
        },
        if cost[1] > 0 {
            cost[1]
        } else {
            0i8
        },
        if cost[2] > 0 {
            cost[2]
        } else {
            0i8
        },
        0i8,
    ];
    assert(bill(owed) =~= bill(cost));
    assert(cost[0] <= pl.res[0] && cost[1] <= pl.res[1] && cost[2] <= pl.res[2]);
    assert forall|i: int| 0 <= i < 3 implies 0 <= #[trigger] owed[i] <= pl.res[i] by {}
    lemma_bill(rules, g, p, owed);
}

/// Every monument on offer can be paid for.
proof fn lemma_monuments(rules: Rulebook, g: GameState, p: PlayerId)
    requires
        p.ok(),
    ensures
        all_affordable(rules, g, p, monument_list(rules, g, p)),
{
    let up = shown(g.monuments_up@, 0);
    let f = monument_offers(rules, g, p);
    assert forall|i: int| 0 <= i < up.len() implies all_affordable(
        rules,
        g,
        p,
        #[trigger] f(i),
    ) by {
        let id = up[i];
        let cost = rules.mdef(id).cost;
        if g.players[p.0 as int].pays(cost) {
            lemma_cost(rules, g, p, cost);
            lemma_push(rules, g, p, bill(cost), Effect::TakeMonument(id));
        }
    }
    lemma_flat(rules, g, p, up.len() as int, f);
}

// ---- the exchange --------------------------------------------------------

/// What blocks of the kinds from `idx` on cost in corn.
spec fn cost_from(b: [u8; 3], idx: int) -> int {
    (if idx <= 0 {
        b[0] * 2
    } else {
        0
    }) + (if idx <= 1 {
        b[1] * 3
    } else {
        0
    }) + (if idx <= 2 {
        b[2] * 4
    } else {
        0
    })
}

/// A purchase spends no more than its budget.
proof fn lemma_buys(budget: int, idx: int, cur: [u8; 3], b: [u8; 3])
    requires
        0 <= idx <= 3,
        0 <= budget <= 255,
        buys_from(budget, idx, cur).contains(b),
    ensures
        forall|i: int| 0 <= i < idx ==> #[trigger] b[i] == cur[i],
        cost_from(b, idx) <= budget,
    decreases 3 - idx,
{
    if idx == 3 {
        assert(b == cur);
    } else {
        let f = buys_taking(budget, idx, cur);
        let take = lemma_flat_part(1 + budget / worth(idx), f, b);
        assert(take <= budget / worth(idx));
        assert(0 <= take * worth(idx) <= budget && take <= 127) by (nonlinear_arith)
            requires
                0 <= take <= budget / worth(idx),
                0 <= budget <= 255,
                worth(idx) >= 2,
        ;
        let c2 = spec_array_update(cur, idx, take as u8);
        lemma_buys(budget - take * worth(idx), idx + 1, c2, b);
        assert(b[idx] == c2[idx]);
        assert forall|i: int| 0 <= i < idx implies #[trigger] b[i] == cur[i] by {
            assert(b[i] == c2[i]);
        }
        assert(cost_from(b, idx) == b[idx] * worth(idx) + cost_from(b, idx + 1));
    }
}

/// Selling no more than is held is never short of it, even where a count
/// outgrows the byte that carries it.
proof fn lemma_net(sold: u8, buy: u8, held: u8)
    requires
        sold <= held,
        buy <= 127,
        sold > 0 ==> buy == 0,
    ensures
        held + ((buy - sold) as i8) >= 0,
{
    let x: i16 = (buy - sold) as i16;
    assert(x == buy - sold);
    assert(-255 <= x < -128 ==> (x as i8) > 0) by (bit_vector);
    assert(-128 <= x <= 127 ==> (x as i8) == x) by (bit_vector);
}

/// One leg of a trade.
proof fn lemma_leg(
    rules: Rulebook,
    g: GameState,
    p: PlayerId,
    r: Resource,
    n: i8,
    s: Seq<Effect>,
)
    requires
        p.ok(),
        r != Resource::Skull,
        g.players[p.0 as int].res[r.rank()] + n >= 0,
        s == only(n != 0, Effect::Res(r, n)),
    ensures
        ({
            let was = g.players[p.0 as int];
            let now = after_all(rules, g, p, s).players[p.0 as int];
            &&& affordable_all(rules, g, p, s)
            &&& now.corn == was.corn
            &&& forall|i: int| 0 <= i < 4 && i != r.rank() ==> #[trigger] now.res[i] == was.res[i]
        }),
{
    lemma_free(rules, g, p, Seq::<Effect>::empty());
    if n != 0 {
        lemma_one(rules, g, p, Effect::Res(r, n));
        lemma_after_res(rules, g, p, r, n);
    }
}

/// Every trade can be paid for.
proof fn lemma_trade(
    rules: Rulebook,
    g: GameState,
    p: PlayerId,
    sold: [u8; 3],
    buy: [u8; 3],
)
    requires
        p.ok(),
        forall|i: int| 0 <= i < 3 ==> #[trigger] sold[i] <= g.players[p.0 as int].res[i],
        forall|i: int| 0 <= i < 3 ==> #[trigger] buy[i] <= 127,
        !buys_back(sold, buy),
        proceeds(buy) <= g.players[p.0 as int].corn + proceeds(sold),
    ensures
        affordable_all(rules, g, p, trade(sold, buy)),
{
    let pl = g.players[p.0 as int];
    assert(sold[0] <= pl.res[0] && sold[1] <= pl.res[1] && sold[2] <= pl.res[2]);
    assert(buy[0] <= 127 && buy[1] <= 127 && buy[2] <= 127);
    let n0 = net_of(sold, buy, 0);
    let n1 = net_of(sold, buy, 1);
    let n2 = net_of(sold, buy, 2);
    lemma_net(sold[0], buy[0], pl.res[0]);
    lemma_net(sold[1], buy[1], pl.res[1]);
    lemma_net(sold[2], buy[2], pl.res[2]);
    let a = only(n0 != 0, Effect::Res(Resource::Wood, n0));
    let b = only(n1 != 0, Effect::Res(Resource::Stone, n1));
    let c = only(n2 != 0, Effect::Res(Resource::Gold, n2));
    lemma_leg(rules, g, p, Resource::Wood, n0, a);
    let g1 = after_all(rules, g, p, a);
    assert(g1.players[p.0 as int].res[1] == pl.res[1]);
    assert(g1.players[p.0 as int].res[2] == pl.res[2]);
    lemma_leg(rules, g1, p, Resource::Stone, n1, b);
    let g2 = after_all(rules, g1, p, b);
    assert(g2.players[p.0 as int].res[2] == g1.players[p.0 as int].res[2]);
    lemma_leg(rules, g2, p, Resource::Gold, n2, c);
    let g3 = after_all(rules, g2, p, c);
    lemma_then(rules, g, p, a, b);
    chained_effects_compose(rules, g, p, a, b);
    lemma_then(rules, g, p, a + b, c);
    chained_effects_compose(rules, g, p, a + b, c);
    let net = proceeds(sold) - proceeds(buy);
    let d = only(net != 0, Effect::Corn(net as i16));
    lemma_free(rules, g3, p, Seq::<Effect>::empty());
    if net != 0 {
        assert(-3000 < net < 3000);
        lemma_one(rules, g3, p, Effect::Corn(net as i16));
    }
    lemma_then(rules, g, p, a + b + c, d);
    assert(trade(sold, buy) =~= a + b + c + d);
}

/// Every exchange can be paid for.
proof fn lemma_exchange(rules: Rulebook, g: GameState, p: PlayerId)
    requires
        p.ok(),
    ensures
        all_affordable(rules, g, p, exchange_list(g, p)),
{
    let pl = g.players[p.0 as int];
    let fw = trades_wood(pl);
    assert forall|w: int| 0 <= w < 1 + pl.res[0] implies all_affordable(
        rules,
        g,
        p,
        #[trigger] fw(w),
    ) by {
        let fs = trades_stone(pl, w);
        assert forall|st: int| 0 <= st < 1 + pl.res[1] implies all_affordable(
            rules,
            g,
            p,
            #[trigger] fs(st),
        ) by {
            let fg = trades_gold(pl, w, st);
            assert forall|gd: int| 0 <= gd < 1 + pl.res[2] implies all_affordable(
                rules,
                g,
                p,
                #[trigger] fg(gd),
            ) by {
                lemma_selling(rules, g, p, [w as u8, st as u8, gd as u8]);
            }
            lemma_flat(rules, g, p, 1 + pl.res[2], fg);
        }
        lemma_flat(rules, g, p, 1 + pl.res[1], fs);
    }
    lemma_flat(rules, g, p, 1 + pl.res[0], fw);
    lemma_collapsed(rules, g, p, flat(1 + pl.res[0], fw));
}

proof fn lemma_selling(rules: Rulebook, g: GameState, p: PlayerId, sold: [u8; 3])
    requires
        p.ok(),
        forall|i: int| 0 <= i < 3 ==> #[trigger] sold[i] <= g.players[p.0 as int].res[i],
    ensures
        all_affordable(rules, g, p, trades_selling(g.players[p.0 as int].corn, sold)),
{
    let corn = g.players[p.0 as int].corn;
    let none = [0u8, 0u8, 0u8];
    let budget = purse(corn, sold);
    let buys = buys_from(budget, 0, none);
    let f = trades_buying(corn, sold);
    assert forall|i: int| 0 <= i < buys.len() implies all_affordable(
        rules,
        g,
        p,
        #[trigger] f(i),
    ) by {
        let buy = buys[i];
        assert(buys.contains(buy));
        lemma_buys(budget, 0, none, buy);
        assert(proceeds(buy) == cost_from(buy, 0));
        assert forall|k: int| 0 <= k < 3 implies #[trigger] buy[k] <= 127 by {}
        if !buys_back(sold, buy) {
            lemma_trade(rules, g, p, sold, buy);
        }
    }
    lemma_flat(rules, g, p, buys.len() as int, f);
}

// ---- buildings, Tikal and Uxmal ------------------------------------------

/// Whether every face-up building is a card.
pub open spec fn cards_ok(g: GameState) -> bool {
    forall|i: int| 0 <= i < 6 ==> (#[trigger] g.buildings_up[i] matches Some(id) ==> id.ok())
}

/// Effects turn no card up.
pub(crate) proof fn lemma_cards(rules: Rulebook, g: GameState, p: PlayerId, s: Seq<Effect>)
    requires
        cards_ok(g),
    ensures
        cards_ok(after_all(rules, g, p, s)),
    decreases s.len(),
{
    if s.len() > 0 {
        lemma_cards(rules, g, p, s.drop_last());
        let h = after_all(rules, g, p, s.drop_last());
        let k = after(rules, h, p, s.last());
        reveal(after);
        assert forall|i: int| 0 <= i < 6 implies (#[trigger] k.buildings_up[i] matches Some(id)
            ==> id.ok()) by {
            assert(h.buildings_up[i] matches Some(id) ==> id.ok());
        }
    }
}

pub(crate) proof fn lemma_shown_cards(g: GameState, k: int)
    requires
        cards_ok(g),
        0 <= k <= 6,
    ensures
        forall|j: int|
            0 <= j < shown(g.buildings_up@, k).len() ==> (#[trigger] shown(
                g.buildings_up@,
                k,
            )[j]).ok(),
    decreases 6 - k,
{
    if k < 6 {
        lemma_shown_cards(g, k + 1);
        let up = g.buildings_up@;
        let rest = shown(up, k + 1);
        assert(up[k] == g.buildings_up[k]);
        assert forall|j: int| 0 <= j < shown(up, k).len() implies (#[trigger] shown(
            up,
            k,
        )[j]).ok() by {
            if up[k] is Some && j > 0 {
                assert(shown(up, k)[j] == rest[j - 1]);
            } else if up[k] is None {
                assert(shown(up, k)[j] == rest[j]);
            }
        }
    }
}

/// What may be paid for a card can be paid.
proof fn lemma_costs(
    rules: Rulebook,
    g: GameState,
    p: PlayerId,
    cost: Bundle,
    discount: bool,
    k: int,
)
    requires
        cost_ok(cost),
        0 <= k < costs_list(rules, g, p, cost, discount).len(),
    ensures
        g.players[p.0 as int].pays(costs_list(rules, g, p, cost, discount)[k]),
        forall|i: int|
            0 <= i < 4 ==> 0 <= #[trigger] costs_list(rules, g, p, cost, discount)[k][i],
{
    let pl = g.players[p.0 as int];
    let v = costs_list(rules, g, p, cost, discount);
    let c = v[k];
    assert(v.contains(c));
    let f = discounts(pl, cost);
    if c != cost {
        assert(flat(3, f).contains(c)) by {
            let first = only(rules.prune == 0 && pl.pays(cost), cost);
            assert(v =~= first + flat(3, f));
            assert(flat(3, f)[k - first.len()] == c);
        }
        let r = lemma_flat_part(3, f, c);
        assert(f(r)[0] == c);
        assert forall|i: int| 0 <= i < 4 implies 0 <= #[trigger] c[i] by {
            assert(0 <= cost[i]);
        }
    } else {
        if !pl.pays(cost) {
            let first = only(rules.prune == 0 && pl.pays(cost), cost);
            assert(v =~= first + flat(3, f));
            assert(flat(3, f)[k - first.len()] == c);
            assert(flat(3, f).contains(c));
            let r = lemma_flat_part(3, f, c);
            assert(f(r)[0] == c);
        }
        assert forall|i: int| 0 <= i < 4 implies 0 <= #[trigger] c[i] by {
            assert(0 <= cost[i]);
        }
    }
}

/// What a card costs before its payoff can be paid.
proof fn lemma_base(
    rules: Rulebook,
    g: GameState,
    p: PlayerId,
    id: BuildingId,
    cost: Bundle,
    bonus: bool,
)
    requires
        p.ok(),
        g.players[p.0 as int].pays(cost),
        forall|i: int| 0 <= i < 4 ==> 0 <= #[trigger] cost[i],
    ensures
        affordable_all(rules, g, p, build_base(g, p, id, cost, bonus)),
{
    lemma_cost(rules, g, p, cost);
    let a = bill(cost).push(Effect::Build(id));
    lemma_push(rules, g, p, bill(cost), Effect::Build(id));
    let extra = if bonus {
        bonus_list(g, p)
    } else {
        Seq::empty()
    };
    lemma_free(rules, after_all(rules, g, p, a), p, extra);
    lemma_then(rules, g, p, a, extra);
}

/// Payoffs that take nothing can be paid when they fall due.
pub proof fn free_payoffs_can_be_paid(rules: Rulebook, g: GameState, p: PlayerId)
    requires
        rules.ok(),
        payoffs_free(rules),
    ensures
        due(rules, g, p),
{
    assert forall|s: Seq<Effect>, id: BuildingId|
        id.ok() && affordable_all(rules, g, p, s) && s.contains(Effect::Build(id)) implies
        #[trigger] tail_paid(rules, g, p, s, id) by {
        assert(payoff_free(rules.buildings@[id.0 - 1].payoff));
        lemma_free(
            rules,
            after_all(rules, g, p, s),
            p,
            payoff_tail(rules.bdef(id).payoff),
        );
    }
}

/// What can be paid when it falls due still can after effects that can be paid for.
proof fn lemma_due_later(rules: Rulebook, g: GameState, p: PlayerId, head: Seq<Effect>)
    requires
        due(rules, g, p),
        affordable_all(rules, g, p, head),
    ensures
        due(rules, after_all(rules, g, p, head), p),
{
    let h = after_all(rules, g, p, head);
    assert forall|s: Seq<Effect>, id: BuildingId|
        id.ok() && affordable_all(rules, h, p, s) && s.contains(Effect::Build(id)) implies
        #[trigger] tail_paid(rules, h, p, s, id) by {
        lemma_then(rules, g, p, head, s);
        chained_effects_compose(rules, g, p, head, s);
        let k = s.index_of(Effect::Build(id));
        assert((head + s)[head.len() + k] == Effect::Build(id));
        assert(tail_paid(rules, g, p, head + s, id));
    }
}

/// Once a card is built its payoff is due.
proof fn lemma_due_after(
    rules: Rulebook,
    g: GameState,
    p: PlayerId,
    head: Seq<Effect>,
    id: BuildingId,
)
    requires
        id.ok(),
        due(rules, g, p),
        affordable_all(rules, g, p, head),
        head.contains(Effect::Build(id)),
    ensures
        due(rules, after_all(rules, g, p, head), p),
        due_now(rules, after_all(rules, g, p, head), p, id),
{
    lemma_due_later(rules, g, p, head);
    let h = after_all(rules, g, p, head);
    assert forall|s: Seq<Effect>| affordable_all(rules, h, p, s) implies #[trigger] tail_paid(
        rules,
        h,
        p,
        s,
        id,
    ) by {
        lemma_then(rules, g, p, head, s);
        chained_effects_compose(rules, g, p, head, s);
        let k = head.index_of(Effect::Build(id));
        assert((head + s)[k] == Effect::Build(id));
        assert(tail_paid(rules, g, p, head + s, id));
    }
}

/// Every construction can be paid for.
proof fn lemma_buildings(
    rules: Rulebook,
    g: GameState,
    p: PlayerId,
    exclude: Option<BuildingId>,
    bonus: bool,
    depth: nat,
)
    requires
        p.ok(),
        rules.ok(),
        due(rules, g, p),
        cards_ok(g),
    ensures
        all_affordable(rules, g, p, building_list(rules, g, p, exclude, bonus, depth)),
    decreases depth, 6int,
{
    let up = shown(g.buildings_up@, 0);
    let f = builds_of(rules, g, p, exclude, bonus, depth);
    lemma_shown_cards(g, 0);
    assert forall|i: int| 0 <= i < up.len() implies all_affordable(
        rules,
        g,
        p,
        #[trigger] f(i),
    ) by {
        let id = up[i];
        assert(id.ok());
        let cost = rules.bdef(id).cost;
        assert(cost_ok(rules.buildings@[id.0 - 1].cost));
        let costs = costs_list(rules, g, p, cost, bonus);
        let fc = builds_for(rules, g, p, id, bonus, depth);
        assert forall|k: int| 0 <= k < costs.len() implies all_affordable(
            rules,
            g,
            p,
            #[trigger] fc(k),
        ) by {
            lemma_costs(rules, g, p, cost, bonus, k);
            let base = build_base(g, p, id, costs[k], bonus);
            lemma_base(rules, g, p, id, costs[k], bonus);
            let h = after_all(rules, g, p, base);
            lemma_cards(rules, g, p, base);
            assert(base[bill(costs[k]).len() as int] == Effect::Build(id));
            lemma_due_after(rules, g, p, base, id);
            lemma_payoff(rules, h, p, id, id, depth);
            lemma_each_after(
                rules,
                g,
                p,
                base,
                payoff_list(rules, h, p, id, rules.bdef(id).payoff, depth),
            );
        }
        lemma_flat(rules, g, p, costs.len() as int, fc);
    }
    lemma_flat(rules, g, p, up.len() as int, f);
    lemma_sorted(rules, g, p, flat(up.len() as int, f));
}

/// Everything a card's payoff offers can be paid for.
proof fn lemma_payoff(
    rules: Rulebook,
    g: GameState,
    p: PlayerId,
    id: BuildingId,
    self_id: BuildingId,
    depth: nat,
)
    requires
        p.ok(),
        rules.ok(),
        due(rules, g, p),
        due_now(rules, g, p, id),
        cards_ok(g),
        id.ok(),
    ensures
        all_affordable(
            rules,
            g,
            p,
            payoff_list(rules, g, p, self_id, rules.bdef(id).payoff, depth),
        ),
    decreases depth, 3int,
{
    let payoff = rules.bdef(id).payoff;
    assert(rules.buildings@[id.0 - 1].payoff == payoff);
    let none = Seq::<Effect>::empty();
    lemma_free(rules, g, p, none);
    assert(tail_paid(rules, g, p, none, id));
    match payoff {
        Payoff::Fixed(v) => {},
        Payoff::FreeTrack(s, v) => {
            lemma_free_track(rules, g, p, s);
            lemma_each_then(rules, g, p, free_track_list(rules, g, p, s), id);
        },
        Payoff::FreeAny(n, v) => {
            assert(payoff.ok());
            lemma_research(rules, g, p, n as int, true);
            lemma_each_then(rules, g, p, research_list(rules, g, p, n as int, true), id);
        },
        Payoff::BuildAnother => {
            lemma_free(rules, g, p, Seq::<Effect>::empty());
            if depth > 0 {
                let seconds = building_list(rules, g, p, Some(self_id), true, (depth - 1) as nat);
                lemma_buildings(rules, g, p, Some(self_id), true, (depth - 1) as nat);
                let f = with_step(rules, g, p, seconds);
                assert forall|i: int| 0 <= i < seconds.len() implies all_affordable(
                    rules,
                    g,
                    p,
                    #[trigger] f(i),
                ) by {
                    let second = seconds[i];
                    assert(affordable_all(rules, g, p, second));
                    let fs = stepped_on(rules, g, p, second);
                    assert forall|t: int| 0 <= t < 3 implies all_affordable(
                        rules,
                        g,
                        p,
                        #[trigger] fs(t),
                    ) by {
                        lemma_push(
                            rules,
                            g,
                            p,
                            second,
                            Effect::TempleStep(Temple::at(t), 1),
                        );
                    }
                    lemma_flat(rules, g, p, 3, fs);
                }
                lemma_flat(rules, g, p, seconds.len() as int, f);
                lemma_or_skip(rules, g, p, flat(seconds.len() as int, f));
            }
        },
        Payoff::CornExchange(v) => {
            lemma_exchange(rules, g, p);
            lemma_each_then(rules, g, p, exchange_list(g, p), id);
        },
        Payoff::Mirror(v) => {
            lemma_mirror(rules, g, p, depth);
            lemma_each_then(rules, g, p, mirror_list(rules, g, p, depth), id);
        },
    }
}

/// The choices of an affordable list that do something.
proof fn lemma_acting(rules: Rulebook, g: GameState, p: PlayerId, s: Seq<Seq<Effect>>)
    requires
        all_affordable(rules, g, p, s),
    ensures
        all_affordable(rules, g, p, acting(s)),
    decreases s.len(),
{
    if s.len() > 0 {
        let rest = s.drop_last();
        assert forall|i: int| 0 <= i < rest.len() implies affordable_all(
            rules,
            g,
            p,
            #[trigger] rest[i],
        ) by {
            assert(affordable_all(rules, g, p, s[i]));
        }
        lemma_acting(rules, g, p, rest);
        assert(affordable_all(rules, g, p, s[s.len() - 1]));
    }
}

/// Paying corn that the seat has.
proof fn lemma_fee(rules: Rulebook, g: GameState, p: PlayerId, fee: int)
    requires
        p.ok(),
        0 <= fee <= g.players[p.0 as int].corn,
    ensures
        affordable_all(rules, g, p, seq![Effect::Corn((-fee) as i16)]),
        after_all(rules, g, p, seq![Effect::Corn((-fee) as i16)]) == corn_paid(g, p, fee),
{
    let e = Effect::Corn((-fee) as i16);
    lemma_one(rules, g, p, e);
    reveal(after);
}

/// Every mirrored action can be paid for, its corn first.
proof fn lemma_mirror(rules: Rulebook, g: GameState, p: PlayerId, depth: nat)
    requires
        p.ok(),
        rules.ok(),
        due(rules, g, p),
        cards_ok(g),
    ensures
        all_affordable(rules, g, p, mirror_list(rules, g, p, depth)),
    decreases depth, 2int,
{
    if depth > 0 && g.players[p.0 as int].corn > 0 {
        let h = fee_paid(g, p);
        let fee = seq![Effect::Corn((-1) as i16)];
        lemma_fee(rules, g, p, 1);
        assert(h == corn_paid(g, p, 1));
        assert(cards_ok(h));
        lemma_due_later(rules, g, p, fee);
        let d = (depth - 1) as nat;
        let fg = mirrored_gears(rules, h, p, depth);
        assert forall|i: int| 0 <= i < 6 implies all_affordable(
            rules,
            h,
            p,
            #[trigger] fg(i),
        ) by {
            lemma_palenque(rules, h, p, i);
            lemma_yaxchilan(rules, h, p, i);
            lemma_tikal(rules, h, p, i, d);
            let a = palenque_list(rules, h, p, i);
            let b = yaxchilan_list(h, p, i);
            lemma_concat(rules, h, p, a, b);
            lemma_concat(rules, h, p, a + b, tikal_list(rules, h, p, i, d));
        }
        lemma_flat(rules, h, p, 6, fg);
        let fu = mirrored_uxmal(rules, h, p, depth);
        assert forall|i: int| 0 <= i < 4 implies all_affordable(
            rules,
            h,
            p,
            #[trigger] fu(i),
        ) by {
            lemma_uxmal(rules, h, p, i + 1, d);
        }
        lemma_flat(rules, h, p, 4, fu);
        let all = flat(6, fg) + flat(4, fu);
        lemma_concat(rules, h, p, flat(6, fg), flat(4, fu));
        lemma_acting(rules, h, p, all);
        lemma_each_after(rules, g, p, fee, acting(all));
    }
}

/// Everything Palenque offers can be paid for.
proof fn lemma_palenque(rules: Rulebook, g: GameState, p: PlayerId, pos: int)
    requires
        pos >= 0,
    ensures
        all_affordable(rules, g, p, palenque_list(rules, g, p, pos)),
{
    let f = palenque_plain(rules, g, p);
    assert forall|i: int| 0 <= i < 6 implies all_affordable(rules, g, p, #[trigger] f(i)) by {
        assert forall|k: int| 0 <= k < f(i).len() implies affordable_all(
            rules,
            g,
            p,
            #[trigger] f(i)[k],
        ) by {
            lemma_palenque_free(rules, g, p, i, k);
            lemma_free(rules, g, p, f(i)[k]);
        }
    }
    lemma_flat(rules, g, p, 6, f);
}

proof fn lemma_palenque_free(rules: Rulebook, g: GameState, p: PlayerId, pos: int, k: int)
    requires
        0 <= pos < 6,
        0 <= k < palenque_plain(rules, g, p)(pos).len(),
    ensures
        all_free(palenque_plain(rules, g, p)(pos)[k]),
{
    let s = palenque_plain(rules, g, p)(pos);
    let c = s[k];
    if pos >= 3 {
        let dug = flat(3, digs(rules, g, p, pos));
        assert(s == jungle_list(rules, g, p, pos));
        if dug.contains(c) {
            let t = lemma_flat_part(3, digs(rules, g, p, pos), c);
            assert(digs(rules, g, p, pos)(t)[0] == c);
        } else {
            assert forall|i: int| 0 <= i < c.len() implies free(#[trigger] c[i]) by {
                lemma_jungle_parts(rules, g, p, pos, k);
            }
        }
    }
}

proof fn lemma_jungle_parts(rules: Rulebook, g: GameState, p: PlayerId, pos: int, k: int)
    requires
        3 <= pos < 6,
        0 <= k < jungle_list(rules, g, p, pos).len(),
    ensures
        flat(3, digs(rules, g, p, pos)).contains(jungle_list(rules, g, p, pos)[k]) || all_free(
            jungle_list(rules, g, p, pos)[k],
        ),
{
    let stack = g.palenque[pos];
    let s = jungle_list(rules, g, p, pos);
    let dug: Seq<Seq<Effect>> = if stack.wood > 0 && stack.corn > 0 {
        flat(3, digs(rules, g, p, pos))
    } else {
        Seq::empty()
    };
    let lead: int = if stack.wood > 0 {
        1
    } else {
        0
    };
    if lead <= k < lead + dug.len() {
        assert(s[k] == dug[k - lead]);
        assert(dug.contains(s[k]));
    }
}

/// Everything Yaxchilan offers can be paid for.
proof fn lemma_yaxchilan(rules: Rulebook, g: GameState, p: PlayerId, pos: int)
    requires
        pos >= 0,
    ensures
        all_affordable(rules, g, p, yaxchilan_list(g, p, pos)),
{
    let f = yaxchilan_plain(g, p);
    assert forall|i: int| 0 <= i < 6 implies all_affordable(rules, g, p, #[trigger] f(i)) by {
        assert forall|k: int| 0 <= k < f(i).len() implies affordable_all(
            rules,
            g,
            p,
            #[trigger] f(i)[k],
        ) by {
            assert(all_free(f(i)[k]));
            lemma_free(rules, g, p, f(i)[k]);
        }
    }
    lemma_flat(rules, g, p, 6, f);
}

/// Everything Tikal offers can be paid for.
proof fn lemma_tikal(rules: Rulebook, g: GameState, p: PlayerId, pos: int, depth: nat)
    requires
        p.ok(),
        rules.ok(),
        due(rules, g, p),
        cards_ok(g),
        pos >= 0,
    ensures
        all_affordable(rules, g, p, tikal_list(rules, g, p, pos, depth)),
    decreases depth, 12int,
{
    let f = tikal_plain(rules, g, p, depth);
    assert forall|i: int| 0 <= i < 6 implies all_affordable(rules, g, p, #[trigger] f(i)) by {
        lemma_free(rules, g, p, Seq::<Effect>::empty());
        if i == 1 {
            lemma_research(rules, g, p, 1, false);
            lemma_or_skip(rules, g, p, research_list(rules, g, p, 1, false));
        } else if i == 2 {
            lemma_buildings(rules, g, p, None, true, depth);
            lemma_or_skip(rules, g, p, building_list(rules, g, p, None, true, depth));
        } else if i == 3 {
            let a = research_list(rules, g, p, 1, false);
            let b = research_list(rules, g, p, 2, false);
            lemma_research(rules, g, p, 1, false);
            lemma_research(rules, g, p, 2, false);
            lemma_concat(rules, g, p, a, b);
            lemma_collapsed(rules, g, p, a + b);
            lemma_or_skip(rules, g, p, collapsed(a + b));
        } else if i == 4 {
            lemma_build_two(rules, g, p, depth);
            lemma_or_skip(rules, g, p, build_two_list(rules, g, p, depth));
        } else if i == 5 {
            lemma_two_steps(rules, g, p);
            lemma_or_skip(rules, g, p, two_steps_list(rules, g, p));
        }
    }
    lemma_flat(rules, g, p, 6, f);
}

/// Every double build can be paid for.
proof fn lemma_build_two(rules: Rulebook, g: GameState, p: PlayerId, depth: nat)
    requires
        p.ok(),
        rules.ok(),
        due(rules, g, p),
        cards_ok(g),
    ensures
        all_affordable(rules, g, p, build_two_list(rules, g, p, depth)),
    decreases depth, 10int,
{
    let firsts = building_list(rules, g, p, None, true, depth);
    let bare = building_list(rules, g, p, None, false, depth);
    lemma_buildings(rules, g, p, None, true, depth);
    lemma_buildings(rules, g, p, None, false, depth);
    let fp = plain_pairs(rules, g, p, firsts);
    assert forall|i: int| 0 <= i < firsts.len() implies all_affordable(
        rules,
        g,
        p,
        #[trigger] fp(i),
    ) by {
        let first = firsts[i];
        let h = after_all(rules, g, p, first);
        lemma_cards(rules, g, p, first);
        lemma_due_later(rules, g, p, first);
        lemma_buildings(rules, h, p, first_built(first), false, 0);
        lemma_each_after(
            rules,
            g,
            p,
            first,
            building_list(rules, h, p, first_built(first), false, 0),
        );
    }
    lemma_flat(rules, g, p, firsts.len() as int, fp);
    let fr = raised_pairs(rules, g, p, bare);
    assert forall|i: int| 0 <= i < bare.len() implies all_affordable(
        rules,
        g,
        p,
        #[trigger] fr(i),
    ) by {
        let first = bare[i];
        let h = after_all(rules, g, p, first);
        lemma_cards(rules, g, p, first);
        lemma_due_later(rules, g, p, first);
        lemma_buildings(rules, h, p, first_built(first), true, 0);
        lemma_each_after(
            rules,
            g,
            p,
            first,
            building_list(rules, h, p, first_built(first), true, 0),
        );
    }
    lemma_flat(rules, g, p, bare.len() as int, fr);
    let a = flat(firsts.len() as int, fp);
    let b = flat(bare.len() as int, fr);
    lemma_concat(rules, g, p, a, b);
    let pairs = a + b;
    lemma_by_position(rules, g, p, pairs, pairs.len() as int);
    let kept = if rules.prune >= 2 {
        by_position(rules, g, p, pairs, pairs.len() as int)
    } else {
        pairs
    };
    lemma_concat(rules, g, p, firsts, kept);
    lemma_monuments(rules, g, p);
    lemma_concat(rules, g, p, firsts + kept, monument_list(rules, g, p));
}

/// Every pair of temple steps can be paid for.
proof fn lemma_two_steps(rules: Rulebook, g: GameState, p: PlayerId)
    requires
        p.ok(),
    ensures
        all_affordable(rules, g, p, two_steps_list(rules, g, p)),
{
    let fb = steps_paying(rules, g, p);
    assert forall|block: int| 0 <= block < 3 implies all_affordable(
        rules,
        g,
        p,
        #[trigger] fb(block),
    ) by {
        let fa = steps_from(rules, g, p, block);
        if g.players[p.0 as int].res[block] > 0 {
            assert forall|a: int| 0 <= a < 3 implies all_affordable(
                rules,
                g,
                p,
                #[trigger] fa(a),
            ) by {
                let fk = steps_with(rules, g, p, block, a);
                assert forall|k: int| 0 <= k < 2 - a implies all_affordable(
                    rules,
                    g,
                    p,
                    #[trigger] fk(k),
                ) by {
                    let pay = Effect::Res(Resource::at(block), (-1) as i8);
                    let up = Effect::TempleStep(Temple::at(a), 1);
                    let up2 = Effect::TempleStep(Temple::at(a + 1 + k), 1);
                    lemma_one(rules, g, p, pay);
                    lemma_push(rules, g, p, seq![pay], up);
                    lemma_push(rules, g, p, seq![pay].push(up), up2);
                    assert(seq![pay].push(up).push(up2) =~= seq![pay, up, up2]);
                }
                lemma_flat(rules, g, p, 2 - a, fk);
            }
            lemma_flat(rules, g, p, 3, fa);
        }
    }
    lemma_flat(rules, g, p, 3, fb);
}

/// Everything Uxmal offers can be paid for.
proof fn lemma_uxmal(rules: Rulebook, g: GameState, p: PlayerId, pos: int, depth: nat)
    requires
        p.ok(),
        rules.ok(),
        due(rules, g, p),
        cards_ok(g),
        pos >= 0,
    ensures
        all_affordable(rules, g, p, uxmal_list(rules, g, p, pos, depth)),
    decreases depth, 12int,
{
    let f = uxmal_plain(rules, g, p, depth);
    assert forall|i: int| 0 <= i < 6 implies all_affordable(rules, g, p, #[trigger] f(i)) by {
        lemma_free(rules, g, p, Seq::<Effect>::empty());
        if i == 1 {
            lemma_paid_steps(rules, g, p);
            lemma_or_skip(rules, g, p, paid_steps_list(rules, g, p));
        } else if i == 2 {
            lemma_exchange(rules, g, p);
            lemma_or_skip(rules, g, p, exchange_list(g, p));
        } else if i == 3 {
            lemma_free(rules, g, p, seq![Effect::UnlockWorker]);
        } else if i == 4 {
            lemma_corn_builds(rules, g, p);
            lemma_or_skip(rules, g, p, corn_builds_list(rules, g, p));
        } else if i == 5 {
            lemma_mirror(rules, g, p, depth);
            lemma_or_skip(rules, g, p, mirror_list(rules, g, p, depth));
        }
    }
    lemma_flat(rules, g, p, 6, f);
}

proof fn lemma_paid_steps(rules: Rulebook, g: GameState, p: PlayerId)
    requires
        p.ok(),
    ensures
        all_affordable(rules, g, p, paid_steps_list(rules, g, p)),
{
    if g.players[p.0 as int].corn >= 3 {
        let f = paid_steps(rules, g, p);
        assert forall|t: int| 0 <= t < 3 implies all_affordable(
            rules,
            g,
            p,
            #[trigger] f(t),
        ) by {
            let pay = Effect::Corn((-3) as i16);
            let up = Effect::TempleStep(Temple::at(t), 1);
            lemma_one(rules, g, p, pay);
            lemma_push(rules, g, p, seq![pay], up);
            assert(seq![pay].push(up) =~= seq![pay, up]);
        }
        lemma_flat(rules, g, p, 3, f);
    }
}

proof fn lemma_corn_builds(rules: Rulebook, g: GameState, p: PlayerId)
    requires
        p.ok(),
        rules.ok(),
        due(rules, g, p),
        cards_ok(g),
    ensures
        all_affordable(rules, g, p, corn_builds_list(rules, g, p)),
    decreases 0int, 8int,
{
    let up = shown(g.buildings_up@, 0);
    let f = corn_builds(rules, g, p);
    lemma_shown_cards(g, 0);
    assert forall|i: int| 0 <= i < up.len() implies all_affordable(
        rules,
        g,
        p,
        #[trigger] f(i),
    ) by {
        let id = up[i];
        assert(id.ok());
        let cost = rules.bdef(id).cost;
        assert(cost_ok(rules.buildings@[id.0 - 1].cost));
        let price = corn_price(g, p, cost);
        if price <= g.players[p.0 as int].corn {
            let pay = Effect::Corn((-price) as i16);
            let card = Effect::Build(id);
            let base = seq![pay, card] + bonus_list(g, p);
            lemma_one(rules, g, p, pay);
            lemma_push(rules, g, p, seq![pay], card);
            assert(seq![pay].push(card) =~= seq![pay, card]);
            lemma_free(rules, after_all(rules, g, p, seq![pay, card]), p, bonus_list(g, p));
            lemma_then(rules, g, p, seq![pay, card], bonus_list(g, p));
            let h = after_all(rules, g, p, base);
            lemma_cards(rules, g, p, base);
            assert(base[1] == card);
            lemma_due_after(rules, g, p, base, id);
            lemma_payoff(rules, h, p, id, id, 0);
            lemma_each_after(
                rules,
                g,
                p,
                base,
                payoff_list(rules, h, p, id, rules.bdef(id).payoff, 0),
            );
        }
    }
    lemma_flat(rules, g, p, up.len() as int, f);
    lemma_sorted(rules, g, p, flat(up.len() as int, f));
}

// ---- Chichen Itza --------------------------------------------------------

/// A skull put down can be paid for by a seat that has one.
proof fn lemma_core(rules: Rulebook, g: GameState, p: PlayerId, pos: int, i: int)
    requires
        p.ok(),
        1 <= pos <= 9,
        g.players[p.0 as int].res[3] > 0,
        0 <= i < spot_cores(pos).len(),
    ensures
        affordable_all(rules, g, p, spot_cores(pos)[i]),
{
    let core = spot_cores(pos)[i];
    let pay = Effect::Res(Resource::Skull, (-1) as i8);
    lemma_one(rules, g, p, pay);
    let rest = core.skip(1);
    assert(core =~= seq![pay] + rest);
    assert(all_free(rest));
    lemma_free(rules, after_all(rules, g, p, seq![pay]), p, rest);
    lemma_then(rules, g, p, seq![pay], rest);
}

/// Everything one Chichen Itza space offers by itself can be paid for.
proof fn lemma_spot(rules: Rulebook, g: GameState, p: PlayerId, pos: int)
    requires
        p.ok(),
        1 <= pos <= 9,
    ensures
        all_affordable(rules, g, p, spot_plain(rules, g, p)(pos)),
{
    if g.players[p.0 as int].res[3] > 0 {
        let cores = spot_cores(pos);
        assert forall|i: int| 0 <= i < cores.len() implies affordable_all(
            rules,
            g,
            p,
            #[trigger] cores[i],
        ) by {
            lemma_core(rules, g, p, pos, i);
        }
        let f = devotions(rules, g, p, pos);
        assert forall|i: int| 0 <= i < cores.len() implies all_affordable(
            rules,
            g,
            p,
            #[trigger] f(i),
        ) by {
            let core = cores[i];
            let h = after_all(rules, g, p, core);
            let fb = devotions_with(rules, g, p, core);
            assert forall|b: int| 0 <= b < 3 implies all_affordable(
                rules,
                g,
                p,
                #[trigger] fb(b),
            ) by {
                if h.players[p.0 as int].res[b] > 0 {
                    let ft = devotions_on(rules, g, p, core, b);
                    assert forall|t: int| 0 <= t < 3 implies all_affordable(
                        rules,
                        g,
                        p,
                        #[trigger] ft(t),
                    ) by {
                        let pay = Effect::Res(Resource::at(b), (-1) as i8);
                        let up = Effect::TempleStep(Temple::at(t), 1);
                        lemma_push(rules, g, p, core, pay);
                        lemma_push(rules, g, p, core.push(pay), up);
                    }
                    lemma_flat(rules, g, p, 3, ft);
                }
            }
            lemma_flat(rules, g, p, 3, fb);
        }
        lemma_flat(rules, g, p, cores.len() as int, f);
        lemma_concat(rules, g, p, cores, flat(cores.len() as int, f));
    }
}

/// Everything Chichen Itza offers can be paid for.
proof fn lemma_chichen(rules: Rulebook, g: GameState, p: PlayerId, pos: int)
    requires
        p.ok(),
        pos >= 0,
    ensures
        all_affordable(rules, g, p, chichen_list(rules, g, p, pos)),
{
    let f = chichen_low(rules, g, p);
    lemma_free(rules, g, p, Seq::<Effect>::empty());
    assert forall|i: int| 0 <= i < 10 implies all_affordable(rules, g, p, #[trigger] f(i)) by {
        if i == 0 {
            lemma_spot(rules, g, p, 1);
            let tail = if g.lvl(p, Science::Theology) >= 1 {
                spot_plain(rules, g, p)(1)
            } else {
                Seq::empty()
            };
            lemma_concat(rules, g, p, seq![Seq::<Effect>::empty()], tail);
        } else {
            let fore = spot_foreseen(rules, g, p, i);
            if i < 9 {
                lemma_spot(rules, g, p, i + 1);
            } else {
                let fc = spot_counted(rules, g, p);
                assert forall|k: int| 0 <= k < 9 implies all_affordable(
                    rules,
                    g,
                    p,
                    #[trigger] fc(k),
                ) by {
                    lemma_spot(rules, g, p, k + 1);
                }
                lemma_flat(rules, g, p, 9, fc);
            }
            lemma_spot(rules, g, p, i);
            let own = spot_plain(rules, g, p)(i);
            lemma_concat(rules, g, p, fore, own);
            lemma_or_skip(rules, g, p, fore + own);
        }
    }
    lemma_flat(rules, g, p, 10, f);
}

// ---- what generation promises --------------------------------------------

/// Everything a space offers can be paid for in the position it is offered in.
pub proof fn spaces_offer_what_can_be_paid(
    rules: Rulebook,
    g: GameState,
    p: PlayerId,
    gear: Gear,
    pos: int,
)
    requires
        p.ok(),
        rules.ok(),
        due(rules, g, p),
        cards_ok(g),
        pos >= 0,
    ensures
        all_affordable(rules, g, p, raw_list(rules, g, p, gear, pos)),
        all_affordable(
            rules,
            g,
            p,
            undominated(raw_list(rules, g, p, gear, pos), rules.prune),
        ),
{
    let d = MAX_DEPTH as nat;
    match gear {
        Gear::Palenque => lemma_palenque(rules, g, p, pos),
        Gear::Yaxchilan => lemma_yaxchilan(rules, g, p, pos),
        Gear::Tikal => lemma_tikal(rules, g, p, pos, d),
        Gear::Uxmal => lemma_uxmal(rules, g, p, pos, d),
        Gear::Chichen => lemma_chichen(rules, g, p, pos),
    }
    lemma_undominated(rules, g, p, raw_list(rules, g, p, gear, pos), rules.prune);
}

/// Everything a worker may do when it is picked up can be paid for.
pub proof fn workers_are_offered_what_can_be_paid(
    rules: Rulebook,
    g: GameState,
    p: PlayerId,
    gear: Gear,
    pos: int,
)
    requires
        p.ok(),
        rules.ok(),
        due(rules, g, p),
        cards_ok(g),
        0 <= pos < 256,
    ensures
        all_affordable(rules, g, p, worker_list(rules, g, p, gear, pos)),
{
    lemma_free(rules, g, p, Seq::<Effect>::empty());
    spaces_offer_what_can_be_paid(rules, g, p, gear, pos);
    let f = stepping_down(rules, g, p, gear, pos);
    assert forall|j: int| 0 <= j < pos + 1 implies all_affordable(
        rules,
        g,
        p,
        #[trigger] f(j),
    ) by {
        let fee = pos - j;
        if 0 < fee <= g.players[p.0 as int].corn {
            let h = corn_paid(g, p, fee);
            lemma_fee(rules, g, p, fee);
            assert(cards_ok(h));
            lemma_due_later(rules, g, p, seq![Effect::Corn((-fee) as i16)]);
            spaces_offer_what_can_be_paid(rules, h, p, gear, j);
            lemma_acting(rules, h, p, raw_list(rules, h, p, gear, j));
            lemma_each_after(
                rules,
                g,
                p,
                seq![Effect::Corn((-fee) as i16)],
                acting(raw_list(rules, h, p, gear, j)),
            );
        }
    }
    lemma_flat(rules, g, p, pos + 1, f);
    let first = seq![Seq::<Effect>::empty()];
    lemma_concat(rules, g, p, first, raw_list(rules, g, p, gear, pos));
    lemma_concat(rules, g, p, first, flat(pos + 1, f));
    lemma_undominated(rules, g, p, worker_raw(rules, g, p, gear, pos), rules.prune);
}

/// Retrievals that take what is on offer pass the check.
pub(crate) proof fn lemma_offers_pass(
    rules: Rulebook,
    g: GameState,
    p: PlayerId,
    v: Seq<(WorkerId, Seq<Effect>)>,
    n: int,
)
    requires
        p.ok(),
        rules.ok(),
        due_along(rules, g, p, v, n),
        cards_ok(g),
        0 <= n,
        takes_on_offer(rules, g, p, v, n),
    ensures
        taking_fault(rules, g, p, v, n) is None,
    decreases v.len() - n,
{
    if n < v.len() {
        let (w, s) = v[n];
        if let WorkerLoc::OnGear { gear, pos } = g.workers[w.0 as int] {
            let list = worker_list(rules, g, p, gear, pos.0 as int);
            workers_are_offered_what_can_be_paid(rules, g, p, gear, pos.0 as int);
            assert(affordable_all(rules, g, p, list[list.index_of(s)]));
            let a = after_all(rules, g, p, s);
            lemma_cards(rules, g, p, s);
            let h = retrieved(a, w);
            assert(h.buildings_up == a.buildings_up);
            lemma_offers_pass(rules, h, p, v, n + 1);
        }
    }
}

/// Whether every payoff of a retrieval can be paid when it falls due.
pub open spec fn due_along(
    rules: Rulebook,
    g: GameState,
    p: PlayerId,
    v: Seq<(WorkerId, Seq<Effect>)>,
    n: int,
) -> bool
    decreases v.len() - n,
{
    n < 0 || n >= v.len() || {
        &&& due(rules, g, p)
        &&& due_along(rules, retrieved(after_all(rules, g, p, v[n].1), v[n].0), p, v, n + 1)
    }
}

/// Whether every payoff of a move can be paid when it falls due.
pub open spec fn payoffs_due(rules: Rulebook, g: GameState, p: PlayerId, m: Play) -> bool {
    match m.kind {
        Kind::Retrieve(v) => due_along(rules, begged(rules, g, p, m.beg), p, v, 0),
        _ => true,
    }
}

/// Payoffs that take nothing can be paid whenever they fall due.
pub(crate) proof fn lemma_free_along(
    rules: Rulebook,
    g: GameState,
    p: PlayerId,
    v: Seq<(WorkerId, Seq<Effect>)>,
    n: int,
)
    requires
        rules.ok(),
        payoffs_free(rules),
    ensures
        due_along(rules, g, p, v, n),
    decreases v.len() - n,
{
    if 0 <= n < v.len() {
        free_payoffs_can_be_paid(rules, g, p);
        lemma_free_along(
            rules,
            retrieved(after_all(rules, g, p, v[n].1), v[n].0),
            p,
            v,
            n + 1,
        );
    }
}

/// Every move that generation finds passes the check where each payoff in it can be
/// paid when it falls due: it can be paid for step by step, names workers and
/// spaces as they stand when it comes to them, and is pity only when nothing else
/// is possible.
pub proof fn generated_moves_pass_where_payoffs_can_be_paid(
    rules: Rulebook,
    g: GameState,
    p: PlayerId,
    m: Play,
)
    requires
        p.ok(),
        rules.ok(),
        payoffs_due(rules, g, p, m),
        g.ok(),
        legal_list(rules, g, p).contains(m),
    ensures
        fault_of(rules, g, p, m) is None,
{
    if normal_list(rules, g, p).len() > 0 {
        lemma_normal_legal(rules, g, p, beg_list(rules, g, p).len(), m);
    } else {
        generated_pity_is_legal(rules, g, p, m);
    }
}

/// Every move that generation finds passes the check where no payoff takes
/// anything.
pub proof fn generated_moves_are_legal(rules: Rulebook, g: GameState, p: PlayerId, m: Play)
    requires
        p.ok(),
        rules.ok(),
        payoffs_free(rules),
        g.ok(),
        legal_list(rules, g, p).contains(m),
    ensures
        fault_of(rules, g, p, m) is None,
{
    if let Kind::Retrieve(v) = m.kind {
        lemma_free_along(rules, begged(rules, g, p, m.beg), p, v, 0);
    }
    generated_moves_pass_where_payoffs_can_be_paid(rules, g, p, m);
}

proof fn lemma_normal_legal(rules: Rulebook, g: GameState, p: PlayerId, k: nat, m: Play)
    requires
        p.ok(),
        rules.ok(),
        payoffs_due(rules, g, p, m),
        g.ok(),
        k <= beg_list(rules, g, p).len(),
        normal_upto(rules, g, p, k).0.contains(m),
    ensures
        fault_of(rules, g, p, m) is None,
    decreases k,
{
    if k > 0 {
        let (found, mid) = normal_upto(rules, g, p, (k - 1) as nat);
        let beg = beg_list(rules, g, p)[k - 1];
        assert(beg_list(rules, g, p).contains(beg));
        let h = begged(rules, g, p, beg);
        let places = place_list(
            h,
            available_list(h, p),
            0,
            h.players[p.0 as int].corn as int,
            beg,
            Seq::empty(),
        );
        let takes = retrieve_walk(rules, h, p, board_list(h, p), Seq::empty(), beg, mid).0;
        let all = normal_upto(rules, g, p, k).0;
        assert(all =~= found + (places + takes));
        let i = all.index_of(m);
        if i < found.len() {
            assert(found[i] == m);
            lemma_normal_legal(rules, g, p, (k - 1) as nat, m);
        } else if i < found.len() + places.len() {
            assert(places[i - found.len()] == m);
            generated_placements_are_legal(rules, g, p, beg, m);
        } else {
            assert(takes[i - found.len() - places.len()] == m);
            generated_retrievals_are_on_offer(rules, g, p, beg, mid, m);
            lemma_beg_passes(rules, g, p, beg);
            lemma_begged_ok(rules, g, p, beg);
            assert(cards_ok(h));
            lemma_offers_pass(rules, h, p, m.kind->Retrieve_0, 0);
        }
    }
}

} // verus!
