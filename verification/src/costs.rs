//! What advancing, building, monuments and trades cost.
//!
//! Each law counts what an offered choice takes and holds it against what it
//! gives: so many blocks for so many levels, a card's price for the card, and corn
//! for corn's worth.

use crate::book::{Payoff, Rulebook};
use crate::dominance::{collapsed, collapsing_keeps_every_choice};
use crate::effect::{after_all, Effect};
use crate::ids::{empty_bundle, BuildingId, Bundle, MonumentId, PlayerId, Resource, Science, Temple};
use crate::lists::{each_after, each_then, flat, only};
use crate::offers::{
    lemma_in_both, lemma_in_flat, lemma_in_one, lemma_in_only, lemma_in_or_skip, lemma_may_step,
    may_climb,
};
use crate::options::{
    bill, build_base, building_list, builds_for, builds_of, chains, chains_gaining, chains_on,
    chains_paying, climbs, costs_list, discounts, free_track_list, monument_list, monument_offers,
    owing, pays_exactly, payoff_list, price, research_list, settled, splits, splits_are_exact,
    stepped, stepped_on, top_list, topped, walk_start, with_step, Walk,
};
use crate::order::sorted_unique_keeps;
use crate::state::{can_step, shown, GameState};
use vstd::array::spec_array_update;
use vstd::prelude::*;

verus! {

// ---- counting ------------------------------------------------------------

/// The blocks and skulls that effects take.
pub open spec fn blocks_paid(c: Seq<Effect>) -> int
    decreases c.len(),
{
    if c.len() == 0 {
        0
    } else {
        blocks_paid(c.drop_last()) + match c.last() {
            Effect::Res(_, n) => if n < 0 {
                -(n as int)
            } else {
                0
            },
            _ => 0,
        }
    }
}

/// How often effects advance a track.
pub open spec fn times_advanced(c: Seq<Effect>, s: Science) -> int
    decreases c.len(),
{
    if c.len() == 0 {
        0
    } else {
        times_advanced(c.drop_last(), s) + if c.last() == Effect::AdvanceResearch(s) {
            1int
        } else {
            0
        }
    }
}

/// How often effects advance any track.
pub open spec fn advances_made(c: Seq<Effect>) -> int
    decreases c.len(),
{
    if c.len() == 0 {
        0
    } else {
        advances_made(c.drop_last()) + if c.last() is AdvanceResearch {
            1int
        } else {
            0
        }
    }
}

/// A seat's level on a track.
pub open spec fn level_of(g: GameState, p: PlayerId, s: Science) -> int {
    match s {
        Science::Agriculture => g.research[p.0 as int][0] as int,
        Science::Extraction => g.research[p.0 as int][1] as int,
        Science::Architecture => g.research[p.0 as int][2] as int,
        Science::Theology => g.research[p.0 as int][3] as int,
    }
}

/// What the advances among effects cost: one block to reach the first level, two
/// the second, three the third.
pub open spec fn climb_cost(g: GameState, p: PlayerId, c: Seq<Effect>) -> int
    decreases c.len(),
{
    if c.len() == 0 {
        0
    } else {
        climb_cost(g, p, c.drop_last()) + match c.last() {
            Effect::AdvanceResearch(s) => level_of(g, p, s) + times_advanced(c.drop_last(), s) + 1,
            _ => 0,
        }
    }
}

proof fn lemma_counts_join(g: GameState, p: PlayerId, a: Seq<Effect>, b: Seq<Effect>)
    requires
        forall|i: int| 0 <= i < b.len() ==> !((#[trigger] b[i]) is AdvanceResearch),
    ensures
        blocks_paid(a + b) == blocks_paid(a) + blocks_paid(b),
        advances_made(a + b) == advances_made(a),
        climb_cost(g, p, a + b) == climb_cost(g, p, a),
        forall|s: Science| #[trigger] times_advanced(a + b, s) == times_advanced(a, s),
    decreases b.len(),
{
    if b.len() == 0 {
        assert(a + b =~= a);
    } else {
        let r = b.drop_last();
        assert((a + b).drop_last() =~= a + r);
        assert((a + b).last() == b[b.len() - 1]);
        lemma_counts_join(g, p, a, r);
        assert forall|s: Science| #[trigger] times_advanced(a + b, s) == times_advanced(a, s) by {
            assert(times_advanced(a + r, s) == times_advanced(a, s));
        }
    }
}

proof fn lemma_counts_push(g: GameState, p: PlayerId, a: Seq<Effect>, s: Science)
    ensures
        ({
            let b = a.push(Effect::AdvanceResearch(s));
            &&& blocks_paid(b) == blocks_paid(a)
            &&& advances_made(b) == advances_made(a) + 1
            &&& climb_cost(g, p, b) == climb_cost(g, p, a) + level_of(g, p, s) + times_advanced(a, s)
                + 1
            &&& times_advanced(b, s) == times_advanced(a, s) + 1
            &&& forall|t: Science| t != s ==> #[trigger] times_advanced(b, t) == times_advanced(a, t)
        }),
{
    let b = a.push(Effect::AdvanceResearch(s));
    assert(b.drop_last() =~= a);
}

/// What a payment of blocks takes.
proof fn lemma_bill_paid(pay: Bundle)
    requires
        forall|i: int| 0 <= i < 3 ==> 0 <= #[trigger] pay[i],
    ensures
        blocks_paid(bill(pay)) == pay[0] + pay[1] + pay[2],
        forall|i: int| 0 <= i < bill(pay).len() ==> (#[trigger] bill(pay)[i]) is Res,
{
    let x = only(pay[0] > 0, Effect::Res(Resource::Wood, (-pay[0]) as i8));
    let y = only(pay[1] > 0, Effect::Res(Resource::Stone, (-pay[1]) as i8));
    let z = only(pay[2] > 0, Effect::Res(Resource::Gold, (-pay[2]) as i8));
    lemma_paid_join(x + y, z);
    lemma_paid_join(x, y);
    lemma_paid_one(pay[0] > 0, Effect::Res(Resource::Wood, (-pay[0]) as i8));
    lemma_paid_one(pay[1] > 0, Effect::Res(Resource::Stone, (-pay[1]) as i8));
    lemma_paid_one(pay[2] > 0, Effect::Res(Resource::Gold, (-pay[2]) as i8));
    assert(pay[0] >= 0 && pay[1] >= 0 && pay[2] >= 0);
}

proof fn lemma_paid_one(on: bool, e: Effect)
    ensures
        blocks_paid(only(on, e)) == (if on && e is Res && e->Res_1 < 0 {
            -(e->Res_1 as int)
        } else {
            0
        }),
{
    let s = only(on, e);
    if on {
        assert(s.drop_last() =~= Seq::<Effect>::empty());
        assert(blocks_paid(s.drop_last()) == 0);
    }
}

proof fn lemma_paid_join(a: Seq<Effect>, b: Seq<Effect>)
    ensures
        blocks_paid(a + b) == blocks_paid(a) + blocks_paid(b),
    decreases b.len(),
{
    if b.len() == 0 {
        assert(a + b =~= a);
    } else {
        assert((a + b).drop_last() =~= a + b.drop_last());
        lemma_paid_join(a, b.drop_last());
    }
}

// ---- past the top --------------------------------------------------------

/// Whether a track that is already at its third level gives this for a further
/// advance: a temple step, two blocks, three points, or a skull.
pub open spec fn top_gives(rules: Rulebook, g: GameState, p: PlayerId, s: Science, c: Seq<Effect>) -> bool {
    match s {
        Science::Agriculture => (exists|t: Temple|
            may_climb(rules, g, p, t) && c == #[trigger] one_step(t)) || (c == one_step(
            Temple::Brown,
        ) && forall|t: Temple| !#[trigger] may_climb(rules, g, p, t)),
        Science::Extraction => {
            ||| c == two_blocks(Resource::Wood, Resource::Wood)
            ||| c == two_blocks(Resource::Wood, Resource::Stone)
            ||| c == two_blocks(Resource::Wood, Resource::Gold)
            ||| c == two_blocks(Resource::Stone, Resource::Stone)
            ||| c == two_blocks(Resource::Stone, Resource::Gold)
            ||| c == two_blocks(Resource::Gold, Resource::Gold)
        },
        Science::Architecture => c == seq![Effect::Points(3i8)],
        Science::Theology => c == seq![Effect::Res(Resource::Skull, 1i8)],
    }
}

/// One step up a temple.
pub open spec fn one_step(t: Temple) -> Seq<Effect> {
    seq![Effect::TempleStep(t, 1i8)]
}

/// Two blocks gained.
pub open spec fn two_blocks(a: Resource, b: Resource) -> Seq<Effect> {
    seq![Effect::Res(a, 1i8), Effect::Res(b, 1i8)]
}

proof fn lemma_in_top(rules: Rulebook, g: GameState, p: PlayerId, s: Science, c: Seq<Effect>)
    requires
        p.ok(),
    ensures
        top_list(rules, g, p, s).contains(c) <==> top_gives(rules, g, p, s, c),
{
    let list = top_list(rules, g, p, s);
    match s {
        Science::Agriculture => {
            let f = climbs(rules, g, p);
            let v = flat(3, f);
            assert forall|d: Seq<Effect>| #[trigger] v.contains(d) <==> exists|t: Temple|
                may_climb(rules, g, p, t) && d == #[trigger] one_step(t) by {
                lemma_in_flat(3, f, d);
                assert forall|i: int| 0 <= i < 3 implies (#[trigger] f(i).contains(d)
                    <==> may_climb(rules, g, p, Temple::at(i)) && d == one_step(Temple::at(i))) by {
                    lemma_may_step(rules, g, p, Temple::at(i));
                    lemma_in_only(
                        can_step(rules, g, p, Temple::at(i), 1),
                        one_step(Temple::at(i)),
                        d,
                    );
                }
                if exists|t: Temple| may_climb(rules, g, p, t) && d == #[trigger] one_step(t) {
                    let t = choose|t: Temple|
                        may_climb(rules, g, p, t) && d == #[trigger] one_step(t);
                    let i = t.rank();
                    assert(Temple::at(i) == t);
                    assert(f(i).contains(d));
                }
            }
            lemma_in_one(one_step(Temple::Brown), c);
            if v.len() > 0 {
                assert(v.contains(v[0]));
                let t = choose|t: Temple|
                    may_climb(rules, g, p, t) && v[0] == #[trigger] one_step(t);
                assert(may_climb(rules, g, p, t));
            } else {
                assert forall|t: Temple| !#[trigger] may_climb(rules, g, p, t) by {
                    assert(!v.contains(one_step(t)));
                }
            }
            assert(v.contains(c) <==> exists|t: Temple|
                may_climb(rules, g, p, t) && c == #[trigger] one_step(t));
        },
        Science::Extraction => {
            if list.contains(c) {
                let i = list.index_of(c);
                assert(0 <= i < 6 && list[i] == c);
            }
            assert(list[0] == two_blocks(Resource::Wood, Resource::Wood));
            assert(list[1] == two_blocks(Resource::Wood, Resource::Stone));
            assert(list[2] == two_blocks(Resource::Wood, Resource::Gold));
            assert(list[3] == two_blocks(Resource::Stone, Resource::Stone));
            assert(list[4] == two_blocks(Resource::Stone, Resource::Gold));
            assert(list[5] == two_blocks(Resource::Gold, Resource::Gold));
        },
        Science::Architecture => {
            lemma_in_one(seq![Effect::Points(3i8)], c);
        },
        Science::Theology => {
            lemma_in_one(seq![Effect::Res(Resource::Skull, 1i8)], c);
        },
    }
}

/// A free advance on a named track goes one level up below the third, and past it
/// gives what the top of the track gives.
pub proof fn free_tracks_go_up_or_pay_out(
    rules: Rulebook,
    g: GameState,
    p: PlayerId,
    s: Science,
    c: Seq<Effect>,
)
    requires
        p.ok(),
    ensures
        level_of(g, p, s) < 3 ==> (free_track_list(rules, g, p, s).contains(c) <==> c == seq![
            Effect::AdvanceResearch(s),
        ]),
        level_of(g, p, s) >= 3 ==> (free_track_list(rules, g, p, s).contains(c) <==> top_gives(
            rules,
            g,
            p,
            s,
            c,
        )),
{
    lemma_in_one(seq![Effect::AdvanceResearch(s)], c);
    lemma_in_top(rules, g, p, s, c);
}

proof fn lemma_top_counts(rules: Rulebook, g: GameState, p: PlayerId, s: Science, c: Seq<Effect>)
    requires
        p.ok(),
        top_list(rules, g, p, s).contains(c),
    ensures
        blocks_paid(c) == 0,
        forall|i: int| 0 <= i < c.len() ==> !((#[trigger] c[i]) is AdvanceResearch),
{
    lemma_in_top(rules, g, p, s, c);
    assert(1 <= c.len() <= 2);
    if c.len() == 1 {
        assert(c.drop_last() =~= Seq::<Effect>::empty());
    } else {
        assert(c.drop_last() =~= seq![c[0]]);
        assert(seq![c[0]].drop_last() =~= Seq::<Effect>::empty());
        assert(blocks_paid(Seq::<Effect>::empty()) == 0);
        assert(blocks_paid(seq![c[0]]) == 0);
    }
    assert(blocks_paid(Seq::<Effect>::empty()) == 0);
}

// ---- research ------------------------------------------------------------

/// Where a chain of advances stands: its levels are those its effects lead to, and
/// what it has paid and owes is what its advances cost.
spec fn adds_up(g: GameState, p: PlayerId, w: Walk, acc: Seq<Effect>, free: bool, done: int) -> bool {
    let owed = w.owed[0] + w.owed[1] + w.owed[2];
    &&& forall|s: Science| w.lvls[s.rank()] == level_of(g, p, s) + #[trigger] times_advanced(acc, s)
    &&& advances_made(acc) <= done
    &&& blocks_paid(acc) + owed == (if free {
        0
    } else {
        climb_cost(g, p, acc) + (done - advances_made(acc))
    })
}

/// Whether the bill a chain carries leaves room for `n` more advances, and is
/// nothing where bills are settled at once.
spec fn room(rules: Rulebook, w: Walk, n: int) -> bool {
    &&& forall|i: int| 0 <= i < 3 ==> 0 <= #[trigger] w.owed[i] && w.owed[i] + 3 * n <= 120
    &&& rules.prune == 0 ==> w.owed[0] == 0 && w.owed[1] == 0 && w.owed[2] == 0
}

/// Whether a finished chain of `total` advances adds up.
pub open spec fn chain_adds_up(
    g: GameState,
    p: PlayerId,
    free: bool,
    total: int,
    c: Seq<Effect>,
) -> bool {
    &&& advances_made(c) <= total
    &&& blocks_paid(c) == (if free {
        0
    } else {
        climb_cost(g, p, c) + (total - advances_made(c))
    })
}

proof fn lemma_chains(
    rules: Rulebook,
    g: GameState,
    p: PlayerId,
    n: int,
    free: bool,
    w: Walk,
    acc: Seq<Effect>,
    total: int,
    c: Seq<Effect>,
)
    requires
        p.ok(),
        0 <= n <= 40,
        room(rules, w, n),
        adds_up(g, p, w, acc, free, total - n),
        chains(rules, g, p, n, free, w, acc).contains(c),
    ensures
        chain_adds_up(g, p, free, total, c),
    decreases n,
{
    if n == 0 {
        let b = bill(w.owed);
        lemma_in_one(acc + b, c);
        lemma_bill_paid(w.owed);
        lemma_counts_join(g, p, acc, b);
    } else {
        let f = chains_on(rules, g, p, n, free, w, acc);
        lemma_in_flat(4, f, c);
        let s = choose|s: int| 0 <= s < 4 && #[trigger] f(s).contains(c);
        let pays = splits(w.res, price(free, w.lvls[s]));
        let fp = chains_paying(rules, g, p, n, free, w, acc, s);
        lemma_in_flat(pays.len() as int, fp, c);
        let i = choose|i: int| 0 <= i < pays.len() && #[trigger] fp(i).contains(c);
        let pay = pays[i];
        assert(pays.contains(pay));
        splits_are_exact(w.res, price(free, w.lvls[s]), pay);
        assert(pay[0] >= 0 && pay[1] >= 0 && pay[2] >= 0);
        let sc = Science::at(s);
        assert(sc.rank() == s);
        assert(w.lvls[s] == level_of(g, p, sc) + times_advanced(acc, sc));
        if w.lvls[s] < 3 {
            lemma_step(rules, g, p, n, free, w, acc, total, s, pay);
            lemma_chains(
                rules,
                g,
                p,
                n - 1,
                free,
                stepped(rules, w, s, pay),
                (acc + settled(rules, w, pay, Seq::empty())).push(Effect::AdvanceResearch(sc)),
                total,
                c,
            );
        } else {
            let tops = top_list(rules, g, p, sc);
            let fg = chains_gaining(rules, g, p, n, free, w, acc, s, pay);
            lemma_in_flat(tops.len() as int, fg, c);
            let j = choose|j: int| 0 <= j < tops.len() && #[trigger] fg(j).contains(c);
            let gain = tops[j];
            assert(tops.contains(gain));
            lemma_gain(rules, g, p, n, free, w, acc, total, s, pay, gain);
            lemma_chains(
                rules,
                g,
                p,
                n - 1,
                free,
                topped(rules, w, s, pay, gain),
                acc + settled(rules, w, pay, gain) + gain,
                total,
                c,
            );
        }
    }
}

proof fn lemma_step(
    rules: Rulebook,
    g: GameState,
    p: PlayerId,
    n: int,
    free: bool,
    w: Walk,
    acc: Seq<Effect>,
    total: int,
    s: int,
    pay: Bundle,
)
    requires
        0 < n <= 40,
        0 <= s < 4,
        w.lvls[s] < 3,
        room(rules, w, n),
        adds_up(g, p, w, acc, free, total - n),
        pays_exactly(w.res, price(free, w.lvls[s]), pay),
    ensures
        room(rules, stepped(rules, w, s, pay), n - 1),
        adds_up(
            g,
            p,
            stepped(rules, w, s, pay),
            (acc + settled(rules, w, pay, Seq::empty())).push(
                Effect::AdvanceResearch(Science::at(s)),
            ),
            free,
            total - n + 1,
        ),
{
    let none = Seq::<Effect>::empty();
    let sc = Science::at(s);
    let set = settled(rules, w, pay, none);
    assert(pay[0] >= 0 && pay[1] >= 0 && pay[2] >= 0);
    lemma_bill_paid(pay);
    let a = acc + set;
    lemma_counts_join(g, p, acc, set);
    lemma_counts_push(g, p, a, sc);
    let b = a.push(Effect::AdvanceResearch(sc));
    let w2 = stepped(rules, w, s, pay);
    assert(w.owed[0] >= 0 && w.owed[1] >= 0 && w.owed[2] >= 0);
    assert(w.owed[0] + 3 * n <= 120 && w.owed[1] + 3 * n <= 120 && w.owed[2] + 3 * n <= 120);
    assert(blocks_paid(none) == 0);
    let z = empty_bundle();
    assert(z[0] == 0 && z[1] == 0 && z[2] == 0);
    assert(times_advanced(a, sc) == times_advanced(acc, sc));
    assert(w.lvls[sc.rank()] == level_of(g, p, sc) + times_advanced(acc, sc));
    assert forall|t: Science| w2.lvls[t.rank()] == level_of(g, p, t) + #[trigger] times_advanced(
        b,
        t,
    ) by {
        assert(w.lvls[t.rank()] == level_of(g, p, t) + times_advanced(acc, t));
        assert(times_advanced(a, t) == times_advanced(acc, t));
        if t != sc {
            assert(t.rank() != s);
        }
    }
}

proof fn lemma_gain(
    rules: Rulebook,
    g: GameState,
    p: PlayerId,
    n: int,
    free: bool,
    w: Walk,
    acc: Seq<Effect>,
    total: int,
    s: int,
    pay: Bundle,
    gain: Seq<Effect>,
)
    requires
        p.ok(),
        0 < n <= 40,
        0 <= s < 4,
        w.lvls[s] >= 3,
        room(rules, w, n),
        adds_up(g, p, w, acc, free, total - n),
        pays_exactly(w.res, price(free, w.lvls[s]), pay),
        top_list(rules, g, p, Science::at(s)).contains(gain),
    ensures
        room(rules, topped(rules, w, s, pay, gain), n - 1),
        adds_up(
            g,
            p,
            topped(rules, w, s, pay, gain),
            acc + settled(rules, w, pay, gain) + gain,
            free,
            total - n + 1,
        ),
{
    let set = settled(rules, w, pay, gain);
    assert(pay[0] >= 0 && pay[1] >= 0 && pay[2] >= 0);
    assert(w.owed[0] >= 0 && w.owed[1] >= 0 && w.owed[2] >= 0);
    assert(w.owed[0] + 3 * n <= 120 && w.owed[1] + 3 * n <= 120 && w.owed[2] + 3 * n <= 120);
    lemma_bill_paid(pay);
    let more = owing(w.owed, pay);
    assert(more[0] == w.owed[0] + pay[0] && more[1] == w.owed[1] + pay[1] && more[2] == w.owed[2]
        + pay[2]);
    lemma_bill_paid(more);
    lemma_top_counts(rules, g, p, Science::at(s), gain);
    assert(blocks_paid(Seq::<Effect>::empty()) == 0);
    lemma_counts_join(g, p, acc, set);
    lemma_counts_join(g, p, acc + set, gain);
    let b = acc + set + gain;
    let w2 = topped(rules, w, s, pay, gain);
    assert forall|t: Science| w2.lvls[t.rank()] == level_of(g, p, t) + #[trigger] times_advanced(
        b,
        t,
    ) by {
        assert(w.lvls[t.rank()] == level_of(g, p, t) + times_advanced(acc, t));
        assert(times_advanced(acc + set, t) == times_advanced(acc, t));
    }
    let z = empty_bundle();
    assert(z[0] == 0 && z[1] == 0 && z[2] == 0);
}

/// Every offered chain of advances takes exactly the blocks it costs: one, two and
/// three for the three levels of a track, and one for each payoff past the third.
/// Free advances take none.
pub proof fn advances_cost_their_blocks(
    rules: Rulebook,
    g: GameState,
    p: PlayerId,
    n: int,
    free: bool,
    c: Seq<Effect>,
)
    requires
        p.ok(),
        0 <= n <= 40,
        research_list(rules, g, p, n, free).contains(c),
    ensures
        chain_adds_up(g, p, free, n, c),
{
    let none = Seq::<Effect>::empty();
    let w = walk_start(g, p);
    let all = chains(rules, g, p, n, free, w, none);
    collapsing_keeps_every_choice(all, all.len() as int);
    assert(all.take(all.len() as int) =~= all);
    assert(collapsed(all).contains(c));
    assert(all.contains(c));
    let z = empty_bundle();
    assert(z[0] == 0 && z[1] == 0 && z[2] == 0);
    assert forall|s: Science| w.lvls[s.rank()] == level_of(g, p, s) + #[trigger] times_advanced(
        none,
        s,
    ) by {
        assert(times_advanced(none, s) == 0);
    }
    assert(blocks_paid(none) == 0 && climb_cost(g, p, none) == 0 && advances_made(none) == 0);
    lemma_chains(rules, g, p, n, free, w, none, n, c);
}

/// Blocks paid, wood, stone and gold in that order, none that are nothing.
pub open spec fn payment(b: Bundle) -> Seq<Effect> {
    (if b[0] > 0 {
        seq![Effect::Res(Resource::Wood, (-b[0]) as i8)]
    } else {
        Seq::empty()
    }) + (if b[1] > 0 {
        seq![Effect::Res(Resource::Stone, (-b[1]) as i8)]
    } else {
        Seq::empty()
    }) + (if b[2] > 0 {
        seq![Effect::Res(Resource::Gold, (-b[2]) as i8)]
    } else {
        Seq::empty()
    })
}

/// A seat is offered one advance on every track below its third level that it can
/// pay for, in every way it can pay: as many blocks as the level it reaches.
pub proof fn every_advance_is_offered(
    rules: Rulebook,
    g: GameState,
    p: PlayerId,
    s: Science,
    b: Bundle,
)
    requires
        p.ok(),
        level_of(g, p, s) < 3,
        b[3] == 0,
        forall|i: int| 0 <= i < 3 ==> 0 <= #[trigger] b[i] <= g.players[p.0 as int].res[i],
        b[0] + b[1] + b[2] == level_of(g, p, s) + 1,
    ensures
        research_list(rules, g, p, 1, false).contains(
            if rules.prune >= 1 {
                seq![Effect::AdvanceResearch(s)] + payment(b)
            } else {
                payment(b) + seq![Effect::AdvanceResearch(s)]
            },
        ),
{
    let none = Seq::<Effect>::empty();
    let w = walk_start(g, p);
    let k = s.rank();
    let all = chains(rules, g, p, 1, false, w, none);
    let pays = splits(w.res, price(false, w.lvls[k]));
    splits_are_exact(w.res, price(false, w.lvls[k]), b);
    assert(pays.contains(b));
    let i = pays.index_of(b);
    assert(Science::at(k) == s);
    let c = if rules.prune >= 1 {
        seq![Effect::AdvanceResearch(s)] + payment(b)
    } else {
        payment(b) + seq![Effect::AdvanceResearch(s)]
    };
    let w2 = stepped(rules, w, k, b);
    let next = (none + settled(rules, w, b, none)).push(Effect::AdvanceResearch(s));
    let z = empty_bundle();
    assert(z[0] == 0 && z[1] == 0 && z[2] == 0 && z[3] == 0);
    assert(bill(b) =~= payment(b));
    assert(bill(z) =~= none);
    if rules.prune >= 1 {
        assert(w2.owed =~= b);
        assert(next =~= seq![Effect::AdvanceResearch(s)]);
    } else {
        assert(next =~= payment(b) + seq![Effect::AdvanceResearch(s)]);
    }
    let last = chains(rules, g, p, 0, false, w2, next);
    assert(last[0] =~= c);
    assert(last.contains(c));
    let fp = chains_paying(rules, g, p, 1, false, w, none, k);
    assert(fp(i) == last);
    lemma_in_flat(pays.len() as int, fp, c);
    let f = chains_on(rules, g, p, 1, false, w, none);
    assert(f(k).contains(c));
    lemma_in_flat(4, f, c);
    collapsing_keeps_every_choice(all, all.len() as int);
    assert(all.take(all.len() as int) =~= all);
    assert(collapsed(all).contains(c));
}

// ---- cards ---------------------------------------------------------------

/// Whether a card lies face up.
pub open spec fn face_up<T>(up: [Option<T>; 6], id: T) -> bool {
    exists|i: int| 0 <= i < 6 && #[trigger] up[i] == Some(id)
}

proof fn lemma_in_shown<T>(up: Seq<Option<T>>, k: int, id: T)
    requires
        0 <= k <= up.len(),
    ensures
        shown(up, k).contains(id) <==> exists|i: int|
            k <= i < up.len() && #[trigger] up[i] == Some(id),
    decreases up.len() - k,
{
    if k < up.len() {
        lemma_in_shown(up, k + 1, id);
        if let Some(x) = up[k] {
            lemma_in_both(seq![x], shown(up, k + 1), id);
            assert(seq![x][0] == x);
        }
    }
}

proof fn lemma_face_up<T>(up: [Option<T>; 6], id: T)
    ensures
        shown(up@, 0).contains(id) <==> face_up(up, id),
{
    lemma_in_shown(up@, 0, id);
    if exists|i: int| 0 <= i < up@.len() && #[trigger] up@[i] == Some(id) {
        let i = choose|i: int| 0 <= i < up@.len() && #[trigger] up@[i] == Some(id);
        assert(up[i] == Some(id));
    }
    if face_up(up, id) {
        let i = choose|i: int| 0 <= i < 6 && #[trigger] up[i] == Some(id);
        assert(up@[i] == Some(id));
    }
}

/// Whether a seat holds a bundle: as much of each kind as it asks for.
pub open spec fn holds_bundle(g: GameState, p: PlayerId, b: Bundle) -> bool {
    let res = g.players[p.0 as int].res;
    b[0] <= res[0] && b[1] <= res[1] && b[2] <= res[2] && b[3] <= res[3]
}

proof fn lemma_holds_bundle(g: GameState, p: PlayerId, b: Bundle)
    ensures
        g.players[p.0 as int].pays(b) <==> holds_bundle(g, p, b),
{
    let pl = g.players[p.0 as int];
    if pl.pays(b) {
        assert(b[0] <= pl.res[0]);
        assert(b[1] <= pl.res[1]);
        assert(b[2] <= pl.res[2]);
        assert(b[3] <= pl.res[3]);
    }
}

/// A seat is offered exactly the face-up monuments whose blocks it holds, each for
/// the blocks it asks for.
pub proof fn monuments_are_sold_at_their_price(
    rules: Rulebook,
    g: GameState,
    p: PlayerId,
    c: Seq<Effect>,
)
    requires
        p.ok(),
    ensures
        monument_list(rules, g, p).contains(c) <==> exists|id: MonumentId| #[trigger]
            face_up(g.monuments_up, id) && holds_bundle(g, p, rules.mdef(id).cost) && c == payment(
                rules.mdef(id).cost,
            ) + seq![Effect::TakeMonument(id)],
{
    let up = shown(g.monuments_up@, 0);
    let f = monument_offers(rules, g, p);
    lemma_in_flat(up.len() as int, f, c);
    assert forall|i: int| 0 <= i < up.len() implies (#[trigger] f(i).contains(c) <==> holds_bundle(
        g,
        p,
        rules.mdef(up[i]).cost,
    ) && c == payment(rules.mdef(up[i]).cost) + seq![Effect::TakeMonument(up[i])]) by {
        let cost = rules.mdef(up[i]).cost;
        lemma_holds_bundle(g, p, cost);
        lemma_in_only(
            g.players[p.0 as int].pays(cost),
            bill(cost).push(Effect::TakeMonument(up[i])),
            c,
        );
        assert(bill(cost).push(Effect::TakeMonument(up[i])) =~= payment(cost) + seq![
            Effect::TakeMonument(up[i]),
        ]);
    }
    if monument_list(rules, g, p).contains(c) {
        let i = choose|i: int| 0 <= i < up.len() && #[trigger] f(i).contains(c);
        assert(up.contains(up[i]));
        lemma_face_up(g.monuments_up, up[i]);
        assert(face_up(g.monuments_up, up[i]));
    }
    if exists|id: MonumentId| #[trigger]
        face_up(g.monuments_up, id) && holds_bundle(g, p, rules.mdef(id).cost) && c == payment(
            rules.mdef(id).cost,
        ) + seq![Effect::TakeMonument(id)] {
        let id = choose|id: MonumentId| #[trigger]
            face_up(g.monuments_up, id) && holds_bundle(g, p, rules.mdef(id).cost) && c == payment(
                rules.mdef(id).cost,
            ) + seq![Effect::TakeMonument(id)];
        lemma_face_up(g.monuments_up, id);
        let i = up.index_of(id);
        assert(f(i).contains(c));
    }
}

/// Whether a bundle is a card's price with one block knocked off that the price
/// asks for.
pub open spec fn one_less(cost: Bundle, b: Bundle, r: int) -> bool {
    &&& 0 <= r < 3
    &&& cost[r] > 0
    &&& b[r] == cost[r] - 1
    &&& forall|i: int| 0 <= i < 4 && i != r ==> b[i] == #[trigger] cost[i]
}

/// Whether a seat may pay this for a card: the price less one block, for a maxed
/// architecture track where the discount counts, or else the price itself. With
/// nothing pruned the price itself may always be paid.
pub open spec fn fair_price(
    rules: Rulebook,
    g: GameState,
    p: PlayerId,
    cost: Bundle,
    discount: bool,
    b: Bundle,
) -> bool {
    let cheap = discount && g.research[p.0 as int][2] >= 3;
    &&& holds_bundle(g, p, b)
    &&& (cheap && exists|r: int| #[trigger] one_less(cost, b, r)) || (b == cost && (rules.prune == 0
        || !(cheap && exists|d: Bundle, r: int|
        holds_bundle(g, p, d) && #[trigger] one_less(cost, d, r))))
}

/// What a card costs: what `costs_list` holds is exactly what may be paid.
pub proof fn cards_cost_their_price_or_a_block_less(
    rules: Rulebook,
    g: GameState,
    p: PlayerId,
    cost: Bundle,
    discount: bool,
    b: Bundle,
)
    requires
        p.ok(),
    ensures
        costs_list(rules, g, p, cost, discount).contains(b) <==> fair_price(
            rules,
            g,
            p,
            cost,
            discount,
            b,
        ),
{
    let pl = g.players[p.0 as int];
    let f = discounts(pl, cost);
    let cheap = discount && g.research[p.0 as int][2] >= 3;
    let less = flat(3, f);
    assert forall|d: Bundle| #[trigger] less.contains(d) <==> holds_bundle(g, p, d) && exists|r: int|
        #[trigger] one_less(cost, d, r) by {
        lemma_in_flat(3, f, d);
        lemma_holds_bundle(g, p, d);
        assert forall|r: int| 0 <= r < 3 implies (#[trigger] f(r).contains(d) <==> pl.pays(d)
            && one_less(cost, d, r)) by {
            let want = spec_array_update(cost, r, (cost[r] - 1) as i8);
            lemma_in_only(cost[r] > 0 && pl.pays(want), want, d);
            if one_less(cost, d, r) {
                assert forall|i: int| 0 <= i < 4 implies d[i] == want[i] by {
                    if i != r {
                        assert(d[i] == cost[i]);
                    }
                }
                assert(d =~= want);
            }
            if d == want && cost[r] > 0 {
                assert forall|i: int| 0 <= i < 4 && i != r implies d[i] == #[trigger] cost[i] by {}
                assert(one_less(cost, d, r));
            }
        }
        if exists|r: int| #[trigger] one_less(cost, d, r) {
            let r = choose|r: int| #[trigger] one_less(cost, d, r);
            assert(f(r).contains(d) <==> pl.pays(d));
        }
    }
    let a = only(rules.prune == 0 && pl.pays(cost), cost);
    let v = a + if cheap {
        less
    } else {
        Seq::empty()
    };
    lemma_holds_bundle(g, p, b);
    lemma_holds_bundle(g, p, cost);
    lemma_in_only(rules.prune == 0 && pl.pays(cost), cost, b);
    lemma_in_only(pl.pays(cost), cost, b);
    lemma_in_both(a, less, b);
    assert(a + Seq::empty() =~= a);
    assert(less.contains(b) <==> holds_bundle(g, p, b) && exists|r: int| #[trigger]
        one_less(cost, b, r));
    if less.len() > 0 {
        assert(less.contains(less[0]));
        let r = choose|r: int| #[trigger] one_less(cost, less[0], r);
        assert(holds_bundle(g, p, less[0]) && one_less(cost, less[0], r));
    }
    if exists|d: Bundle, r: int| holds_bundle(g, p, d) && #[trigger] one_less(cost, d, r) {
        let (d, r) = choose|d: Bundle, r: int|
            holds_bundle(g, p, d) && #[trigger] one_less(cost, d, r);
        assert(less.contains(d));
        assert(less.len() > 0);
    }
}

/// What architecture hands over with a building: a corn from its first level, and
/// two points from its second.
pub open spec fn building_bonus(g: GameState, p: PlayerId) -> Seq<Effect> {
    let l = g.research[p.0 as int][2];
    if l >= 2 {
        seq![Effect::Corn(1i16), Effect::Points(2i8)]
    } else if l >= 1 {
        seq![Effect::Corn(1i16)]
    } else {
        Seq::empty()
    }
}

/// A building paid for and taken, with the bonus where it counts.
pub open spec fn bought(
    g: GameState,
    p: PlayerId,
    id: BuildingId,
    b: Bundle,
    bonus: bool,
) -> Seq<Effect> {
    payment(b) + seq![Effect::Build(id)] + if bonus {
        building_bonus(g, p)
    } else {
        Seq::empty()
    }
}

proof fn lemma_bought(g: GameState, p: PlayerId, id: BuildingId, b: Bundle, bonus: bool)
    ensures
        build_base(g, p, id, b, bonus) == bought(g, p, id, b, bonus),
{
    assert(build_base(g, p, id, b, bonus) =~= bought(g, p, id, b, bonus));
}

proof fn lemma_in_after(head: Seq<Effect>, s: Seq<Seq<Effect>>, c: Seq<Effect>)
    ensures
        each_after(head, s).contains(c) <==> exists|d: Seq<Effect>| #[trigger]
            s.contains(d) && c == head + d,
{
    let v = each_after(head, s);
    if v.contains(c) {
        let i = v.index_of(c);
        assert(s.contains(s[i]));
    }
    if exists|d: Seq<Effect>| #[trigger] s.contains(d) && c == head + d {
        let d = choose|d: Seq<Effect>| #[trigger] s.contains(d) && c == head + d;
        assert(v[s.index_of(d)] == c);
    }
}

proof fn lemma_in_then(s: Seq<Seq<Effect>>, tail: Seq<Effect>, c: Seq<Effect>)
    ensures
        each_then(s, tail).contains(c) <==> exists|d: Seq<Effect>| #[trigger]
            s.contains(d) && c == d + tail,
{
    let v = each_then(s, tail);
    if v.contains(c) {
        let i = v.index_of(c);
        assert(s.contains(s[i]));
    }
    if exists|d: Seq<Effect>| #[trigger] s.contains(d) && c == d + tail {
        let d = choose|d: Seq<Effect>| #[trigger] s.contains(d) && c == d + tail;
        assert(v[s.index_of(d)] == c);
    }
}

/// Whether this builds a card: it lies face up and is not the one left out, what is
/// paid is a fair price, and behind the card stands what its payoff offers in the
/// position that leaves.
pub open spec fn construction(
    rules: Rulebook,
    g: GameState,
    p: PlayerId,
    exclude: Option<BuildingId>,
    bonus: bool,
    depth: nat,
    id: BuildingId,
    b: Bundle,
    rest: Seq<Effect>,
    c: Seq<Effect>,
) -> bool {
    let base = bought(g, p, id, b, bonus);
    &&& face_up(g.buildings_up, id)
    &&& exclude != Some(id)
    &&& fair_price(rules, g, p, rules.bdef(id).cost, bonus, b)
    &&& payoff_list(
        rules,
        after_all(rules, g, p, base),
        p,
        id,
        rules.bdef(id).payoff,
        depth,
    ).contains(rest)
    &&& c == base + rest
}

/// The buildings on offer are exactly the constructions of face-up cards.
pub proof fn buildings_are_sold_at_their_price(
    rules: Rulebook,
    g: GameState,
    p: PlayerId,
    exclude: Option<BuildingId>,
    bonus: bool,
    depth: nat,
    c: Seq<Effect>,
)
    requires
        p.ok(),
    ensures
        building_list(rules, g, p, exclude, bonus, depth).contains(c) <==> exists|
            id: BuildingId,
            b: Bundle,
            rest: Seq<Effect>,
        | #[trigger] construction(rules, g, p, exclude, bonus, depth, id, b, rest, c),
{
    let up = shown(g.buildings_up@, 0);
    let f = builds_of(rules, g, p, exclude, bonus, depth);
    let all = flat(up.len() as int, f);
    sorted_unique_keeps(all);
    assert(building_list(rules, g, p, exclude, bonus, depth).contains(c) <==> all.contains(c));
    lemma_in_flat(up.len() as int, f, c);
    if all.contains(c) {
        let i = choose|i: int| 0 <= i < up.len() && #[trigger] f(i).contains(c);
        let id = up[i];
        assert(up.contains(id));
        lemma_face_up(g.buildings_up, id);
        let costs = costs_list(rules, g, p, rules.bdef(id).cost, bonus);
        let fc = builds_for(rules, g, p, id, bonus, depth);
        lemma_in_flat(costs.len() as int, fc, c);
        let k = choose|k: int| 0 <= k < costs.len() && #[trigger] fc(k).contains(c);
        let b = costs[k];
        assert(costs.contains(b));
        cards_cost_their_price_or_a_block_less(rules, g, p, rules.bdef(id).cost, bonus, b);
        lemma_bought(g, p, id, b, bonus);
        let base = bought(g, p, id, b, bonus);
        let pays = payoff_list(
            rules,
            after_all(rules, g, p, base),
            p,
            id,
            rules.bdef(id).payoff,
            depth,
        );
        lemma_in_after(base, pays, c);
        let rest = choose|d: Seq<Effect>| #[trigger] pays.contains(d) && c == base + d;
        assert(construction(rules, g, p, exclude, bonus, depth, id, b, rest, c));
    }
    if exists|id: BuildingId, b: Bundle, rest: Seq<Effect>| #[trigger]
        construction(rules, g, p, exclude, bonus, depth, id, b, rest, c) {
        let (id, b, rest) = choose|id: BuildingId, b: Bundle, rest: Seq<Effect>| #[trigger]
            construction(rules, g, p, exclude, bonus, depth, id, b, rest, c);
        lemma_face_up(g.buildings_up, id);
        let i = up.index_of(id);
        let costs = costs_list(rules, g, p, rules.bdef(id).cost, bonus);
        cards_cost_their_price_or_a_block_less(rules, g, p, rules.bdef(id).cost, bonus, b);
        let k = costs.index_of(b);
        let fc = builds_for(rules, g, p, id, bonus, depth);
        lemma_bought(g, p, id, b, bonus);
        let base = bought(g, p, id, b, bonus);
        let pays = payoff_list(
            rules,
            after_all(rules, g, p, base),
            p,
            id,
            rules.bdef(id).payoff,
            depth,
        );
        assert(pays.contains(rest));
        lemma_in_after(base, pays, c);
        assert(fc(k).contains(c));
        lemma_in_flat(costs.len() as int, fc, c);
        assert(f(i).contains(c));
    }
}

/// A second building with the temple step it comes with: up a temple the seat can
/// climb, or none where it can climb none.
pub open spec fn second_built(
    rules: Rulebook,
    g: GameState,
    p: PlayerId,
    second: Seq<Effect>,
    c: Seq<Effect>,
) -> bool {
    ||| exists|t: Temple|
        may_climb(rules, g, p, t) && c == #[trigger] second.push(Effect::TempleStep(t, 1i8))
    ||| c == second && forall|t: Temple| !#[trigger] may_climb(rules, g, p, t)
}

/// What a card's payoff offers, card by card: its effects as they stand; a free
/// advance, free advances or a trade and then its effects; another building; or
/// another gear's action and then its effects, which may also be taken alone.
pub proof fn payoffs_hand_over_what_the_card_says(
    rules: Rulebook,
    g: GameState,
    p: PlayerId,
    id: BuildingId,
    payoff: Payoff,
    depth: nat,
    c: Seq<Effect>,
)
    requires
        p.ok(),
    ensures
        ({
            let list = payoff_list(rules, g, p, id, payoff, depth);
            match payoff {
                Payoff::Fixed(v) => list.contains(c) <==> c == v@,
                Payoff::FreeTrack(s, v) => list.contains(c) <==> exists|d: Seq<Effect>| #[trigger]
                    free_track_list(rules, g, p, s).contains(d) && c == d + v@,
                Payoff::FreeAny(n, v) => list.contains(c) <==> exists|d: Seq<Effect>| #[trigger]
                    research_list(rules, g, p, n as int, true).contains(d) && c == d + v@,
                Payoff::BuildAnother => {
                    let seconds = building_list(rules, g, p, Some(id), true, (depth - 1) as nat);
                    &&& depth == 0 ==> (list.contains(c) <==> c == Seq::<Effect>::empty())
                    &&& depth > 0 && seconds.len() == 0 ==> (list.contains(c) <==> c == Seq::<
                        Effect,
                    >::empty())
                    &&& depth > 0 && seconds.len() > 0 ==> (list.contains(c) <==> exists|
                        d: Seq<Effect>,
                    | #[trigger] seconds.contains(d) && second_built(rules, g, p, d, c))
                },
                Payoff::CornExchange(v) => list.contains(c) <==> exists|d: Seq<Effect>| #[trigger]
                    crate::options::exchange_list(g, p).contains(d) && c == d + v@,
                Payoff::Mirror(v) => list.contains(c) <==> c == v@ || exists|d: Seq<Effect>|
                    #[trigger]
                    crate::spaces::uxmal::mirror_list(rules, g, p, depth).contains(d) && c == d + v@,
            }
        }),
{
    match payoff {
        Payoff::Fixed(v) => {
            lemma_in_one(v@, c);
        },
        Payoff::FreeTrack(s, v) => {
            lemma_in_then(free_track_list(rules, g, p, s), v@, c);
        },
        Payoff::FreeAny(n, v) => {
            lemma_in_then(research_list(rules, g, p, n as int, true), v@, c);
        },
        Payoff::BuildAnother => {
            lemma_in_one(Seq::empty(), c);
            if depth > 0 {
                let seconds = building_list(rules, g, p, Some(id), true, (depth - 1) as nat);
                let f = with_step(rules, g, p, seconds);
                let n = seconds.len() as int;
                let all = flat(n, f);
                lemma_in_or_skip(all, c);
                lemma_in_flat(n, f, c);
                assert forall|i: int, d: Seq<Effect>| 0 <= i < n implies (#[trigger] f(i).contains(d)
                    <==> second_built(rules, g, p, seconds[i], d)) by {
                    lemma_in_second(rules, g, p, seconds, i, d);
                }
                if n == 0 {
                    assert(all.len() == 0);
                    assert(!all.contains(c));
                } else {
                    lemma_second_some(rules, g, p, seconds, 0);
                    let d = f(0)[0];
                    assert(f(0).contains(d));
                    lemma_in_flat(n, f, d);
                    assert(all.contains(d));
                    assert(all.len() > 0);
                }
                if all.contains(c) {
                    let i = choose|i: int| 0 <= i < n && #[trigger] f(i).contains(c);
                    assert(seconds.contains(seconds[i]));
                }
                if exists|d: Seq<Effect>| #[trigger]
                    seconds.contains(d) && second_built(rules, g, p, d, c) {
                    let d = choose|d: Seq<Effect>| #[trigger]
                        seconds.contains(d) && second_built(rules, g, p, d, c);
                    let i = seconds.index_of(d);
                    assert(f(i).contains(c));
                }
            }
        },
        Payoff::CornExchange(v) => {
            lemma_in_then(crate::options::exchange_list(g, p), v@, c);
        },
        Payoff::Mirror(v) => {
            let m = each_then(crate::spaces::uxmal::mirror_list(rules, g, p, depth), v@);
            lemma_in_then(crate::spaces::uxmal::mirror_list(rules, g, p, depth), v@, c);
            assert(m.push(v@) =~= m + seq![v@]);
            lemma_in_both(m, seq![v@], c);
            lemma_in_one(v@, c);
        },
    }
}

proof fn lemma_second_some(
    rules: Rulebook,
    g: GameState,
    p: PlayerId,
    seconds: Seq<Seq<Effect>>,
    i: int,
)
    ensures
        with_step(rules, g, p, seconds)(i).len() > 0,
{
}

proof fn lemma_in_second(
    rules: Rulebook,
    g: GameState,
    p: PlayerId,
    seconds: Seq<Seq<Effect>>,
    i: int,
    c: Seq<Effect>,
)
    requires
        p.ok(),
        0 <= i < seconds.len(),
    ensures
        with_step(rules, g, p, seconds)(i).contains(c) <==> second_built(
            rules,
            g,
            p,
            seconds[i],
            c,
        ),
{
    let second = seconds[i];
    let f = stepped_on(rules, g, p, second);
    let v = flat(3, f);
    assert forall|d: Seq<Effect>| #[trigger] v.contains(d) <==> exists|t: Temple|
        may_climb(rules, g, p, t) && d == #[trigger] second.push(Effect::TempleStep(t, 1i8)) by {
        lemma_in_flat(3, f, d);
        assert forall|k: int| 0 <= k < 3 implies (#[trigger] f(k).contains(d) <==> may_climb(
            rules,
            g,
            p,
            Temple::at(k),
        ) && d == second.push(Effect::TempleStep(Temple::at(k), 1i8))) by {
            lemma_may_step(rules, g, p, Temple::at(k));
            lemma_in_only(
                can_step(rules, g, p, Temple::at(k), 1),
                second.push(Effect::TempleStep(Temple::at(k), 1)),
                d,
            );
        }
        if exists|t: Temple|
            may_climb(rules, g, p, t) && d == #[trigger] second.push(Effect::TempleStep(t, 1i8)) {
            let t = choose|t: Temple|
                may_climb(rules, g, p, t) && d == #[trigger] second.push(
                    Effect::TempleStep(t, 1i8),
                );
            let k = t.rank();
            assert(Temple::at(k) == t);
            assert(f(k).contains(d));
        }
    }
    lemma_in_one(second, c);
    assert(v.contains(c) <==> exists|t: Temple|
        may_climb(rules, g, p, t) && c == #[trigger] second.push(Effect::TempleStep(t, 1i8)));
    if v.len() > 0 {
        assert(v.contains(v[0]));
        let t = choose|t: Temple|
            may_climb(rules, g, p, t) && v[0] == #[trigger] second.push(
                Effect::TempleStep(t, 1i8),
            );
        assert(may_climb(rules, g, p, t));
    } else {
        assert forall|t: Temple| !#[trigger] may_climb(rules, g, p, t) by {
            assert(!v.contains(second.push(Effect::TempleStep(t, 1i8))));
        }
    }
}

} // verus!
