//! Every move that generation finds or the rollout policy draws can be played:
//! each worker, space and card it names exists.

use crate::affordable::{cards_ok, lemma_cards, lemma_shown_cards};
use crate::book::{effects_ok, Payoff, Rulebook};
use crate::dominance::{
    all_ok, by_position, lemma_by_position_ok, lemma_collapsed_ok, lemma_sorted_ok,
    lemma_undominated_ok,
};
use crate::effect::{after, after_all, Effect};
use crate::ids::{BuildingId, Bundle, Gear, PlayerId, Science, Temple, WorkerId};
use crate::legal::{
    generated_retrievals_are_on_offer, goes_on, lemma_flat_part, lemma_spot_open, play_ok,
    takes_on_offer,
};
use crate::lists::{flat, only};
use crate::moves::{
    beg_list, begged, corn_paid, legal_list, lemma_begged_ok, lemma_workers_where, normal_list, normal_upto,
    pities, pity_list, place_each, place_list, put_at, retrieve_walk, spots_list, stepping_down,
    worker_list, worker_raw, workers_ok, Kind, Placement, Play,
};
use crate::options::{
    bill, build_base, building_list, builds_for, builds_of, buys_from, chains, chains_gaining,
    chains_on, chains_paying, climbs, costs_list, exchange_list, free_track_list,
    lemma_each_then_ok, monument_list, monument_offers, payoff_list, price, purse, research_list,
    settled, splits, stepped, stepped_on, top_list, topped, trade, trades_buying, trades_gold,
    trades_selling, trades_stone, trades_wood, walk_start, with_step, Walk,
};
use crate::research::bonus_list;
use crate::sampling::{can_act_somehow, drawable, offered};
use crate::spaces::chichen::{
    chichen_list, chichen_low, devotions, devotions_on, devotions_with, spot_base, spot_cores,
    spot_counted, spot_foreseen, spot_plain,
};
use crate::spaces::palenque::{digs, jungle_list, palenque_list, palenque_plain};
use crate::spaces::tikal::{
    build_two_list, first_built, lemma_each_after_ok, plain_pairs, raised_pairs, steps_from,
    steps_paying, steps_with, tikal_list, tikal_plain, two_steps_list,
};
use crate::spaces::uxmal::{
    acting, corn_builds, corn_builds_list, corn_price, fee_paid, mirror_list, mirrored_gears,
    mirrored_uxmal, paid_steps, uxmal_list, uxmal_plain,
};
use crate::spaces::yaxchilan::{yaxchilan_list, yaxchilan_plain};
use crate::spaces::{raw_list, MAX_DEPTH};
use crate::state::{available_list, board_list, free_from, retrieved, shown, GameState, WorkerLoc};
use vstd::prelude::*;

verus! {

// ---- lists ---------------------------------------------------------------

/// Whether every face-up card exists.
pub open spec fn table_ok(g: GameState) -> bool {
    &&& cards_ok(g)
    &&& forall|i: int| 0 <= i < 6 ==> (#[trigger] g.monuments_up[i] matches Some(id) ==> id.ok())
}

/// Effects turn no card up.
proof fn lemma_table(rules: Rulebook, g: GameState, p: PlayerId, s: Seq<Effect>)
    requires
        table_ok(g),
    ensures
        table_ok(after_all(rules, g, p, s)),
    decreases s.len(),
{
    lemma_cards(rules, g, p, s);
    if s.len() > 0 {
        lemma_table(rules, g, p, s.drop_last());
        let h = after_all(rules, g, p, s.drop_last());
        let k = after(rules, h, p, s.last());
        reveal(after);
        assert forall|i: int| 0 <= i < 6 implies (#[trigger] k.monuments_up[i] matches Some(id)
            ==> id.ok()) by {
            assert(h.monuments_up[i] matches Some(id) ==> id.ok());
        }
    }
}

proof fn lemma_shown_monuments(g: GameState, k: int)
    requires
        table_ok(g),
        0 <= k <= 6,
    ensures
        forall|j: int|
            0 <= j < shown(g.monuments_up@, k).len() ==> (#[trigger] shown(
                g.monuments_up@,
                k,
            )[j]).ok(),
    decreases 6 - k,
{
    if k < 6 {
        lemma_shown_monuments(g, k + 1);
        let up = g.monuments_up@;
        let rest = shown(up, k + 1);
        assert(up[k] == g.monuments_up[k]);
        assert forall|j: int| 0 <= j < shown(up, k).len() implies (#[trigger] shown(
            up,
            k,
        )[j]).ok() by {
            if up[k] is Some && j > 0 {
                assert(shown(up, k)[j] == rest[j - 1]);
            } else if up[k] is None {
                assert(shown(up, k)[j] == rest[j]);
            }
        }
    }
}

/// A concatenation whose parts are sound.
proof fn lemma_flat(n: int, f: spec_fn(int) -> Seq<Seq<Effect>>)
    requires
        forall|i: int| 0 <= i < n ==> all_ok(#[trigger] f(i)),
    ensures
        all_ok(flat(n, f)),
    decreases n,
{
    if n > 0 {
        lemma_flat(n - 1, f);
        lemma_concat(flat(n - 1, f), f(n - 1));
    }
}

proof fn lemma_concat(a: Seq<Seq<Effect>>, b: Seq<Seq<Effect>>)
    requires
        all_ok(a),
        all_ok(b),
    ensures
        all_ok(a + b),
{
    assert forall|i: int| 0 <= i < (a + b).len() implies effects_ok(#[trigger] (a + b)[i]) by {
        if i < a.len() {
            assert((a + b)[i] == a[i]);
        } else {
            assert((a + b)[i] == b[i - a.len()]);
        }
    }
}

/// The choices of a sound list that do something.
proof fn lemma_acting(s: Seq<Seq<Effect>>)
    requires
        all_ok(s),
    ensures
        all_ok(acting(s)),
    decreases s.len(),
{
    if s.len() > 0 {
        let rest = s.drop_last();
        assert forall|i: int| 0 <= i < rest.len() implies effects_ok(#[trigger] rest[i]) by {
            assert(effects_ok(s[i]));
        }
        lemma_acting(rest);
        assert(effects_ok(s[s.len() - 1]));
    }
}

// ---- research, monuments and the exchange --------------------------------

proof fn lemma_top(rules: Rulebook, g: GameState, p: PlayerId, s: Science)
    ensures
        all_ok(top_list(rules, g, p, s)),
{
    let f = climbs(rules, g, p);
    assert forall|i: int| 0 <= i < 3 implies all_ok(#[trigger] f(i)) by {}
    lemma_flat(3, f);
}

proof fn lemma_chains(
    rules: Rulebook,
    g: GameState,
    p: PlayerId,
    n: int,
    free: bool,
    w: Walk,
    acc: Seq<Effect>,
)
    requires
        effects_ok(acc),
    ensures
        all_ok(chains(rules, g, p, n, free, w, acc)),
    decreases n,
{
    if n > 0 {
        let f = chains_on(rules, g, p, n, free, w, acc);
        assert forall|s: int| 0 <= s < 4 implies all_ok(#[trigger] f(s)) by {
            let pays = splits(w.res, price(free, w.lvls[s]));
            let fp = chains_paying(rules, g, p, n, free, w, acc, s);
            assert forall|i: int| 0 <= i < pays.len() implies all_ok(#[trigger] fp(i)) by {
                if w.lvls[s] < 3 {
                    lemma_chains(
                        rules,
                        g,
                        p,
                        n - 1,
                        free,
                        stepped(rules, w, s, pays[i]),
                        (acc + settled(rules, w, pays[i], Seq::empty())).push(
                            Effect::AdvanceResearch(Science::at(s)),
                        ),
                    );
                } else {
                    let tops = top_list(rules, g, p, Science::at(s));
                    let fg = chains_gaining(rules, g, p, n, free, w, acc, s, pays[i]);
                    lemma_top(rules, g, p, Science::at(s));
                    assert forall|j: int| 0 <= j < tops.len() implies all_ok(#[trigger] fg(j)) by {
                        assert(effects_ok(tops[j]));
                        lemma_chains(
                            rules,
                            g,
                            p,
                            n - 1,
                            free,
                            topped(rules, w, s, pays[i], tops[j]),
                            acc + settled(rules, w, pays[i], tops[j]) + tops[j],
                        );
                    }
                    lemma_flat(tops.len() as int, fg);
                }
            }
            lemma_flat(pays.len() as int, fp);
        }
        lemma_flat(4, f);
    }
}

proof fn lemma_research(rules: Rulebook, g: GameState, p: PlayerId, n: int, free: bool)
    ensures
        all_ok(research_list(rules, g, p, n, free)),
{
    let none = Seq::<Effect>::empty();
    lemma_chains(rules, g, p, n, free, walk_start(g, p), none);
    lemma_collapsed_ok(chains(rules, g, p, n, free, walk_start(g, p), none));
}

proof fn lemma_monuments(rules: Rulebook, g: GameState, p: PlayerId)
    requires
        table_ok(g),
    ensures
        all_ok(monument_list(rules, g, p)),
{
    let up = shown(g.monuments_up@, 0);
    let f = monument_offers(rules, g, p);
    lemma_shown_monuments(g, 0);
    assert forall|i: int| 0 <= i < up.len() implies all_ok(#[trigger] f(i)) by {
        assert(up[i].ok());
    }
    lemma_flat(up.len() as int, f);
}

proof fn lemma_selling(corn: u8, sold: [u8; 3])
    ensures
        all_ok(trades_selling(corn, sold)),
{
    let buys = buys_from(purse(corn, sold), 0, [0u8, 0u8, 0u8]);
    let f = trades_buying(corn, sold);
    assert forall|i: int| 0 <= i < buys.len() implies all_ok(#[trigger] f(i)) by {
        assert(effects_ok(trade(sold, buys[i])));
    }
    lemma_flat(buys.len() as int, f);
}

proof fn lemma_exchange(g: GameState, p: PlayerId)
    ensures
        all_ok(exchange_list(g, p)),
{
    let pl = g.players[p.0 as int];
    let fw = trades_wood(pl);
    assert forall|w: int| 0 <= w < 1 + pl.res[0] implies all_ok(#[trigger] fw(w)) by {
        let fs = trades_stone(pl, w);
        assert forall|st: int| 0 <= st < 1 + pl.res[1] implies all_ok(#[trigger] fs(st)) by {
            let fg = trades_gold(pl, w, st);
            assert forall|gd: int| 0 <= gd < 1 + pl.res[2] implies all_ok(#[trigger] fg(gd)) by {
                lemma_selling(pl.corn, [w as u8, st as u8, gd as u8]);
            }
            lemma_flat(1 + pl.res[2], fg);
        }
        lemma_flat(1 + pl.res[1], fs);
    }
    lemma_flat(1 + pl.res[0], fw);
    lemma_collapsed_ok(flat(1 + pl.res[0], fw));
}

// ---- buildings, Tikal and Uxmal ------------------------------------------

proof fn lemma_buildings(
    rules: Rulebook,
    g: GameState,
    p: PlayerId,
    exclude: Option<BuildingId>,
    bonus: bool,
    depth: nat,
)
    requires
        rules.ok(),
        table_ok(g),
    ensures
        all_ok(building_list(rules, g, p, exclude, bonus, depth)),
    decreases depth, 6int,
{
    let up = shown(g.buildings_up@, 0);
    let f = builds_of(rules, g, p, exclude, bonus, depth);
    lemma_shown_cards(g, 0);
    assert forall|i: int| 0 <= i < up.len() implies all_ok(#[trigger] f(i)) by {
        assert(up[i].ok());
        lemma_builds(rules, g, p, up[i], bonus, depth);
    }
    lemma_flat(up.len() as int, f);
    lemma_sorted_ok(flat(up.len() as int, f));
}

proof fn lemma_base(g: GameState, p: PlayerId, id: BuildingId, cost: Bundle, bonus: bool)
    requires
        id.ok(),
    ensures
        effects_ok(build_base(g, p, id, cost, bonus)),
{
    assert(effects_ok(bill(cost)));
    assert(effects_ok(bonus_list(g, p)));
}

proof fn lemma_builds(
    rules: Rulebook,
    g: GameState,
    p: PlayerId,
    id: BuildingId,
    bonus: bool,
    depth: nat,
)
    requires
        rules.ok(),
        table_ok(g),
        id.ok(),
    ensures
        all_ok(
            flat(
                costs_list(rules, g, p, rules.bdef(id).cost, bonus).len() as int,
                builds_for(rules, g, p, id, bonus, depth),
            ),
        ),
    decreases depth, 5int,
{
    let costs = costs_list(rules, g, p, rules.bdef(id).cost, bonus);
    let f = builds_for(rules, g, p, id, bonus, depth);
    assert forall|k: int| 0 <= k < costs.len() implies all_ok(#[trigger] f(k)) by {
        let base = build_base(g, p, id, costs[k], bonus);
        lemma_base(g, p, id, costs[k], bonus);
        let h = after_all(rules, g, p, base);
        lemma_table(rules, g, p, base);
        lemma_payoff(rules, h, p, id, id, depth);
        lemma_each_after_ok(base, payoff_list(rules, h, p, id, rules.bdef(id).payoff, depth));
    }
    lemma_flat(costs.len() as int, f);
}

proof fn lemma_payoff(
    rules: Rulebook,
    g: GameState,
    p: PlayerId,
    id: BuildingId,
    self_id: BuildingId,
    depth: nat,
)
    requires
        rules.ok(),
        table_ok(g),
        id.ok(),
    ensures
        all_ok(payoff_list(rules, g, p, self_id, rules.bdef(id).payoff, depth)),
    decreases depth, 3int,
{
    let payoff = rules.bdef(id).payoff;
    assert(rules.buildings@[id.0 - 1].payoff == payoff);
    assert(payoff.ok());
    match payoff {
        Payoff::Fixed(v) => {},
        Payoff::FreeTrack(s, v) => {
            lemma_top(rules, g, p, s);
            lemma_each_then_ok(free_track_list(rules, g, p, s), v@);
        },
        Payoff::FreeAny(n, v) => {
            lemma_research(rules, g, p, n as int, true);
            lemma_each_then_ok(research_list(rules, g, p, n as int, true), v@);
        },
        Payoff::BuildAnother => {
            if depth > 0 {
                let seconds = building_list(rules, g, p, Some(self_id), true, (depth - 1) as nat);
                lemma_buildings(rules, g, p, Some(self_id), true, (depth - 1) as nat);
                let f = with_step(rules, g, p, seconds);
                assert forall|i: int| 0 <= i < seconds.len() implies all_ok(#[trigger] f(i)) by {
                    assert(effects_ok(seconds[i]));
                    let fs = stepped_on(rules, g, p, seconds[i]);
                    assert forall|t: int| 0 <= t < 3 implies all_ok(#[trigger] fs(t)) by {}
                    lemma_flat(3, fs);
                }
                lemma_flat(seconds.len() as int, f);
            }
        },
        Payoff::CornExchange(v) => {
            lemma_exchange(g, p);
            lemma_each_then_ok(exchange_list(g, p), v@);
        },
        Payoff::Mirror(v) => {
            lemma_mirror(rules, g, p, depth);
            lemma_each_then_ok(mirror_list(rules, g, p, depth), v@);
        },
    }
}

proof fn lemma_mirror(rules: Rulebook, g: GameState, p: PlayerId, depth: nat)
    requires
        rules.ok(),
        table_ok(g),
    ensures
        all_ok(mirror_list(rules, g, p, depth)),
    decreases depth, 2int,
{
    if depth > 0 && g.players[p.0 as int].corn > 0 {
        let h = fee_paid(g, p);
        assert(table_ok(h));
        let d = (depth - 1) as nat;
        let fg = mirrored_gears(rules, h, p, depth);
        assert forall|i: int| 0 <= i < 6 implies all_ok(#[trigger] fg(i)) by {
            lemma_palenque(rules, h, p, i);
            lemma_yaxchilan(h, p, i);
            lemma_tikal(rules, h, p, i, d);
            let a = palenque_list(rules, h, p, i);
            let b = yaxchilan_list(h, p, i);
            lemma_concat(a, b);
            lemma_concat(a + b, tikal_list(rules, h, p, i, d));
        }
        lemma_flat(6, fg);
        let fu = mirrored_uxmal(rules, h, p, depth);
        assert forall|i: int| 0 <= i < 4 implies all_ok(#[trigger] fu(i)) by {
            lemma_uxmal(rules, h, p, i + 1, d);
        }
        lemma_flat(4, fu);
        let all = flat(6, fg) + flat(4, fu);
        lemma_concat(flat(6, fg), flat(4, fu));
        lemma_acting(all);
        lemma_each_after_ok(seq![Effect::Corn((-1) as i16)], acting(all));
    }
}

proof fn lemma_palenque(rules: Rulebook, g: GameState, p: PlayerId, pos: int)
    requires
        pos >= 0,
    ensures
        all_ok(palenque_list(rules, g, p, pos)),
{
    let f = palenque_plain(rules, g, p);
    assert forall|i: int| 0 <= i < 6 implies all_ok(#[trigger] f(i)) by {
        if i >= 3 {
            lemma_jungle(rules, g, p, i);
        }
    }
    lemma_flat(6, f);
}

proof fn lemma_jungle(rules: Rulebook, g: GameState, p: PlayerId, pos: int)
    requires
        3 <= pos < 6,
    ensures
        all_ok(jungle_list(rules, g, p, pos)),
{
    let f = digs(rules, g, p, pos);
    assert forall|i: int| 0 <= i < 3 implies all_ok(#[trigger] f(i)) by {}
    lemma_flat(3, f);
    let s = jungle_list(rules, g, p, pos);
    let stack = g.palenque[pos];
    let dug: Seq<Seq<Effect>> = if stack.wood > 0 && stack.corn > 0 {
        flat(3, f)
    } else {
        Seq::empty()
    };
    let lead: int = if stack.wood > 0 {
        1
    } else {
        0
    };
    assert forall|k: int| 0 <= k < s.len() implies effects_ok(#[trigger] s[k]) by {
        if lead <= k < lead + dug.len() {
            assert(s[k] == dug[k - lead]);
        }
    }
}

proof fn lemma_yaxchilan(g: GameState, p: PlayerId, pos: int)
    requires
        pos >= 0,
    ensures
        all_ok(yaxchilan_list(g, p, pos)),
{
    let f = yaxchilan_plain(g, p);
    assert forall|i: int| 0 <= i < 6 implies all_ok(#[trigger] f(i)) by {}
    lemma_flat(6, f);
}

proof fn lemma_tikal(rules: Rulebook, g: GameState, p: PlayerId, pos: int, depth: nat)
    requires
        rules.ok(),
        table_ok(g),
        pos >= 0,
    ensures
        all_ok(tikal_list(rules, g, p, pos, depth)),
    decreases depth, 12int,
{
    let f = tikal_plain(rules, g, p, depth);
    assert forall|i: int| 0 <= i < 6 implies all_ok(#[trigger] f(i)) by {
        if i == 1 {
            lemma_research(rules, g, p, 1, false);
        } else if i == 2 {
            lemma_buildings(rules, g, p, None, true, depth);
        } else if i == 3 {
            let a = research_list(rules, g, p, 1, false);
            let b = research_list(rules, g, p, 2, false);
            lemma_research(rules, g, p, 1, false);
            lemma_research(rules, g, p, 2, false);
            lemma_concat(a, b);
            lemma_collapsed_ok(a + b);
        } else if i == 4 {
            lemma_build_two(rules, g, p, depth);
        } else if i == 5 {
            lemma_two_steps(rules, g, p);
        }
    }
    lemma_flat(6, f);
}

proof fn lemma_build_two(rules: Rulebook, g: GameState, p: PlayerId, depth: nat)
    requires
        rules.ok(),
        table_ok(g),
    ensures
        all_ok(build_two_list(rules, g, p, depth)),
    decreases depth, 10int,
{
    let firsts = building_list(rules, g, p, None, true, depth);
    let bare = building_list(rules, g, p, None, false, depth);
    lemma_buildings(rules, g, p, None, true, depth);
    lemma_buildings(rules, g, p, None, false, depth);
    let fp = plain_pairs(rules, g, p, firsts);
    assert forall|i: int| 0 <= i < firsts.len() implies all_ok(#[trigger] fp(i)) by {
        let first = firsts[i];
        let h = after_all(rules, g, p, first);
        lemma_table(rules, g, p, first);
        lemma_buildings(rules, h, p, first_built(first), false, 0);
        lemma_each_after_ok(first, building_list(rules, h, p, first_built(first), false, 0));
    }
    lemma_flat(firsts.len() as int, fp);
    let fr = raised_pairs(rules, g, p, bare);
    assert forall|i: int| 0 <= i < bare.len() implies all_ok(#[trigger] fr(i)) by {
        let first = bare[i];
        let h = after_all(rules, g, p, first);
        lemma_table(rules, g, p, first);
        lemma_buildings(rules, h, p, first_built(first), true, 0);
        lemma_each_after_ok(first, building_list(rules, h, p, first_built(first), true, 0));
    }
    lemma_flat(bare.len() as int, fr);
    let a = flat(firsts.len() as int, fp);
    let b = flat(bare.len() as int, fr);
    lemma_concat(a, b);
    let pairs = a + b;
    lemma_by_position_ok(rules, g, p, pairs, pairs.len() as int);
    let kept = if rules.prune >= 2 {
        by_position(rules, g, p, pairs, pairs.len() as int)
    } else {
        pairs
    };
    lemma_concat(firsts, kept);
    lemma_monuments(rules, g, p);
    lemma_concat(firsts + kept, monument_list(rules, g, p));
}

proof fn lemma_two_steps(rules: Rulebook, g: GameState, p: PlayerId)
    ensures
        all_ok(two_steps_list(rules, g, p)),
{
    let fb = steps_paying(rules, g, p);
    assert forall|block: int| 0 <= block < 3 implies all_ok(#[trigger] fb(block)) by {
        let fa = steps_from(rules, g, p, block);
        assert forall|a: int| 0 <= a < 3 implies all_ok(#[trigger] fa(a)) by {
            let fk = steps_with(rules, g, p, block, a);
            assert forall|k: int| 0 <= k < 2 - a implies all_ok(#[trigger] fk(k)) by {}
            lemma_flat(2 - a, fk);
        }
        lemma_flat(3, fa);
    }
    lemma_flat(3, fb);
}

proof fn lemma_uxmal(rules: Rulebook, g: GameState, p: PlayerId, pos: int, depth: nat)
    requires
        rules.ok(),
        table_ok(g),
        pos >= 0,
    ensures
        all_ok(uxmal_list(rules, g, p, pos, depth)),
    decreases depth, 12int,
{
    let f = uxmal_plain(rules, g, p, depth);
    assert forall|i: int| 0 <= i < 6 implies all_ok(#[trigger] f(i)) by {
        if i == 1 {
            let fs = paid_steps(rules, g, p);
            assert forall|t: int| 0 <= t < 3 implies all_ok(#[trigger] fs(t)) by {}
            lemma_flat(3, fs);
        } else if i == 2 {
            lemma_exchange(g, p);
        } else if i == 4 {
            lemma_corn_builds(rules, g, p);
        } else if i == 5 {
            lemma_mirror(rules, g, p, depth);
        }
    }
    lemma_flat(6, f);
}

proof fn lemma_corn_builds(rules: Rulebook, g: GameState, p: PlayerId)
    requires
        rules.ok(),
        table_ok(g),
    ensures
        all_ok(corn_builds_list(rules, g, p)),
    decreases 0int, 8int,
{
    let up = shown(g.buildings_up@, 0);
    let f = corn_builds(rules, g, p);
    lemma_shown_cards(g, 0);
    assert forall|i: int| 0 <= i < up.len() implies all_ok(#[trigger] f(i)) by {
        let id = up[i];
        assert(id.ok());
        let price = corn_price(g, p, rules.bdef(id).cost);
        let base = seq![Effect::Corn((-price) as i16), Effect::Build(id)] + bonus_list(g, p);
        assert(effects_ok(base));
        let h = after_all(rules, g, p, base);
        lemma_table(rules, g, p, base);
        lemma_payoff(rules, h, p, id, id, 0);
        lemma_each_after_ok(base, payoff_list(rules, h, p, id, rules.bdef(id).payoff, 0));
    }
    lemma_flat(up.len() as int, f);
    lemma_sorted_ok(flat(up.len() as int, f));
}

// ---- Chichen Itza --------------------------------------------------------

proof fn lemma_spot(rules: Rulebook, g: GameState, p: PlayerId, pos: int)
    requires
        1 <= pos <= 9,
    ensures
        all_ok(spot_plain(rules, g, p)(pos)),
{
    let cores = spot_cores(pos);
    assert(effects_ok(spot_base(pos)));
    assert(all_ok(cores));
    let f = devotions(rules, g, p, pos);
    assert forall|i: int| 0 <= i < cores.len() implies all_ok(#[trigger] f(i)) by {
        let core = cores[i];
        let fb = devotions_with(rules, g, p, core);
        assert forall|b: int| 0 <= b < 3 implies all_ok(#[trigger] fb(b)) by {
            let ft = devotions_on(rules, g, p, core, b);
            assert forall|t: int| 0 <= t < 3 implies all_ok(#[trigger] ft(t)) by {}
            lemma_flat(3, ft);
        }
        lemma_flat(3, fb);
    }
    lemma_flat(cores.len() as int, f);
    lemma_concat(cores, flat(cores.len() as int, f));
}

proof fn lemma_chichen(rules: Rulebook, g: GameState, p: PlayerId, pos: int)
    requires
        pos >= 0,
    ensures
        all_ok(chichen_list(rules, g, p, pos)),
{
    let f = chichen_low(rules, g, p);
    assert forall|i: int| 0 <= i < 10 implies all_ok(#[trigger] f(i)) by {
        if i == 0 {
            lemma_spot(rules, g, p, 1);
            let tail = if g.lvl(p, Science::Theology) >= 1 {
                spot_plain(rules, g, p)(1)
            } else {
                Seq::empty()
            };
            lemma_concat(seq![Seq::<Effect>::empty()], tail);
        } else {
            let fore = spot_foreseen(rules, g, p, i);
            if i < 9 {
                lemma_spot(rules, g, p, i + 1);
            } else {
                let fc = spot_counted(rules, g, p);
                assert forall|k: int| 0 <= k < 9 implies all_ok(#[trigger] fc(k)) by {
                    lemma_spot(rules, g, p, k + 1);
                }
                lemma_flat(9, fc);
            }
            lemma_spot(rules, g, p, i);
            lemma_concat(fore, spot_plain(rules, g, p)(i));
        }
    }
    lemma_flat(10, f);
}

// ---- what generation promises --------------------------------------------

/// Everything a space offers names spaces and cards that exist.
pub proof fn spaces_offer_what_exists(
    rules: Rulebook,
    g: GameState,
    p: PlayerId,
    gear: Gear,
    pos: int,
)
    requires
        rules.ok(),
        table_ok(g),
        pos >= 0,
    ensures
        all_ok(raw_list(rules, g, p, gear, pos)),
{
    let d = MAX_DEPTH as nat;
    match gear {
        Gear::Palenque => lemma_palenque(rules, g, p, pos),
        Gear::Yaxchilan => lemma_yaxchilan(g, p, pos),
        Gear::Tikal => lemma_tikal(rules, g, p, pos, d),
        Gear::Uxmal => lemma_uxmal(rules, g, p, pos, d),
        Gear::Chichen => lemma_chichen(rules, g, p, pos),
    }
}

/// Everything a worker may do when it is picked up names spaces and cards that
/// exist.
pub proof fn workers_are_offered_what_exists(
    rules: Rulebook,
    g: GameState,
    p: PlayerId,
    gear: Gear,
    pos: int,
)
    requires
        rules.ok(),
        table_ok(g),
        pos >= 0,
    ensures
        all_ok(worker_list(rules, g, p, gear, pos)),
{
    spaces_offer_what_exists(rules, g, p, gear, pos);
    let f = stepping_down(rules, g, p, gear, pos);
    assert forall|j: int| 0 <= j < pos + 1 implies all_ok(#[trigger] f(j)) by {
        let fee = pos - j;
        let h = corn_paid(g, p, fee);
        assert(table_ok(h));
        spaces_offer_what_exists(rules, h, p, gear, j);
        lemma_acting(raw_list(rules, h, p, gear, j));
        lemma_each_after_ok(
            seq![Effect::Corn((-fee) as i16)],
            acting(raw_list(rules, h, p, gear, j)),
        );
    }
    lemma_flat(pos + 1, f);
    let first = seq![Seq::<Effect>::empty()];
    lemma_concat(first, raw_list(rules, g, p, gear, pos));
    lemma_concat(first, flat(pos + 1, f));
    lemma_undominated_ok(worker_raw(rules, g, p, gear, pos), rules.prune);
}

/// Where a worker may be put is a space.
proof fn lemma_free_space(g: GameState, gear: Gear, k: int)
    requires
        0 <= k,
    ensures
        free_from(g, gear, k) matches Some(pos) ==> pos.0 < gear.spaces(),
    decreases gear.spaces() - k,
{
    if k < gear.spaces() {
        lemma_free_space(g, gear, k + 1);
    }
}

proof fn lemma_spot_ok(g: GameState, i: int)
    requires
        0 <= i < spots_list(g).len(),
    ensures
        spots_list(g)[i].ok(),
{
    lemma_spot_open(g, i);
    if let Placement::Gear(gear, pos) = spots_list(g)[i] {
        lemma_free_space(g, gear, 0);
    }
}

/// Every way generation goes on placing names workers and spaces that exist.
proof fn lemma_placements_ok(
    g: GameState,
    avail: Seq<WorkerId>,
    cost: int,
    budget: int,
    beg: Option<Temple>,
    cur: Seq<(WorkerId, Placement)>,
    m: Play,
)
    requires
        place_list(g, avail, cost, budget, beg, cur).contains(m),
        workers_ok(avail),
        forall|i: int| 0 <= i < cur.len() ==> (#[trigger] cur[i]).0.ok() && cur[i].1.ok(),
    ensures
        play_ok(m),
    decreases avail.len() - cur.len(),
{
    let here = Play { kind: Kind::Place(cur), beg, corn_cost: cost as u8 };
    let head = only(cur.len() > 0, here);
    let all = place_list(g, avail, cost, budget, beg, cur);
    let k = all.index_of(m);
    if k < head.len() {
        assert(m == here);
    } else {
        let f = place_each(g, avail, cost, budget, beg, cur);
        let n = spots_list(g).len() as int;
        let rest = flat(n, f);
        assert(cur.len() < avail.len());
        assert(all =~= head + rest);
        assert(rest[k - head.len()] == m);
        assert(rest.contains(m));
        let i = lemma_flat_part(n, f, m);
        let spot = spots_list(g)[i];
        let w = avail[cur.len() as int];
        lemma_spot_ok(g, i);
        assert(w.ok());
        lemma_placements_ok(
            put_at(g, w, spot),
            avail,
            cost + cur.len() + spot.cost(),
            budget,
            beg,
            cur.push((w, spot)),
            m,
        );
    }
}

/// Retrievals that take what is on offer name workers, spaces and cards that
/// exist.
proof fn lemma_takes_ok(
    rules: Rulebook,
    g: GameState,
    p: PlayerId,
    v: Seq<(WorkerId, Seq<Effect>)>,
    n: int,
)
    requires
        rules.ok(),
        table_ok(g),
        0 <= n,
        takes_on_offer(rules, g, p, v, n),
    ensures
        forall|i: int| n <= i < v.len() ==> (#[trigger] v[i]).0.ok() && effects_ok(v[i].1),
    decreases v.len() - n,
{
    if n < v.len() {
        let (w, s) = v[n];
        if let WorkerLoc::OnGear { gear, pos } = g.workers[w.0 as int] {
            let list = worker_list(rules, g, p, gear, pos.0 as int);
            workers_are_offered_what_exists(rules, g, p, gear, pos.0 as int);
            assert(effects_ok(list[list.index_of(s)]));
            let a = after_all(rules, g, p, s);
            lemma_table(rules, g, p, s);
            let h = retrieved(a, w);
            assert(table_ok(h));
            lemma_takes_ok(rules, h, p, v, n + 1);
        }
    }
}

/// What the generators offer once a turn has started can be played.
pub proof fn offered_moves_can_be_played(
    rules: Rulebook,
    g: GameState,
    p: PlayerId,
    beg: Option<Temple>,
    m: Play,
)
    requires
        p.ok(),
        rules.ok(),
        g.ok(),
        offered(rules, g, p, beg, m),
    ensures
        play_ok(m),
{
    let h = begged(rules, g, p, beg);
    lemma_begged_ok(rules, g, p, beg);
    if goes_on(rules, h, p, Seq::empty(), beg, m) {
        lemma_takes_ok(rules, h, p, m.kind->Retrieve_0, 0);
    } else {
        lemma_workers_where(h, p, |l: WorkerLoc| l == WorkerLoc::Available, 6);
        lemma_placements_ok(
            h,
            available_list(h, p),
            0,
            h.players[p.0 as int].corn as int,
            beg,
            Seq::empty(),
            m,
        );
    }
}

/// A pity move can be played.
pub proof fn pity_can_be_played(g: GameState, p: PlayerId, m: Play)
    requires
        p.ok(),
        pity_list(g, p).contains(m),
    ensures
        play_ok(m),
{
    let avail = available_list(g, p);
    let f = pities(g, p, avail[0]);
    let i = lemma_flat_part(spots_list(g).len() as int, f, m);
    assert(f(i)[0] == m);
    lemma_spot_ok(g, i);
    lemma_workers_where(g, p, |l: WorkerLoc| l == WorkerLoc::Available, 6);
    assert(avail[0].ok());
}

/// Every ordinary move that generation finds is one that the generators offer
/// after some start of the turn.
pub proof fn ordinary_moves_are_offered(rules: Rulebook, g: GameState, p: PlayerId, m: Play)
    requires
        p.ok(),
        normal_list(rules, g, p).contains(m),
    ensures
        exists|i: int|
            0 <= i < beg_list(rules, g, p).len() && offered(
                rules,
                g,
                p,
                #[trigger] beg_list(rules, g, p)[i],
                m,
            ),
{
    lemma_upto_offered(rules, g, p, beg_list(rules, g, p).len(), m);
}

proof fn lemma_upto_offered(rules: Rulebook, g: GameState, p: PlayerId, k: nat, m: Play)
    requires
        p.ok(),
        k <= beg_list(rules, g, p).len(),
        normal_upto(rules, g, p, k).0.contains(m),
    ensures
        exists|i: int|
            0 <= i < beg_list(rules, g, p).len() && offered(
                rules,
                g,
                p,
                #[trigger] beg_list(rules, g, p)[i],
                m,
            ),
    decreases k,
{
    if k > 0 {
        let (found, mid) = normal_upto(rules, g, p, (k - 1) as nat);
        let beg = beg_list(rules, g, p)[k - 1];
        let h = begged(rules, g, p, beg);
        let places = place_list(
            h,
            available_list(h, p),
            0,
            h.players[p.0 as int].corn as int,
            beg,
            Seq::empty(),
        );
        let takes = retrieve_walk(rules, h, p, board_list(h, p), Seq::empty(), beg, mid).0;
        let all = normal_upto(rules, g, p, k).0;
        assert(all =~= found + (places + takes));
        let i = all.index_of(m);
        if i < found.len() {
            assert(found[i] == m);
            lemma_upto_offered(rules, g, p, (k - 1) as nat, m);
        } else if i < found.len() + places.len() {
            assert(places[i - found.len()] == m);
            assert(offered(rules, g, p, beg_list(rules, g, p)[k - 1], m));
        } else {
            assert(takes[i - found.len() - places.len()] == m);
            generated_retrievals_are_on_offer(rules, g, p, beg, mid, m);
            assert(offered(rules, g, p, beg_list(rules, g, p)[k - 1], m));
        }
    }
}

/// Every move that generation finds can be played: each worker, space and card
/// it names exists.
pub proof fn generated_moves_can_be_played(rules: Rulebook, g: GameState, p: PlayerId, m: Play)
    requires
        p.ok(),
        rules.ok(),
        g.ok(),
        legal_list(rules, g, p).contains(m) || pity_list(g, p).contains(m),
    ensures
        play_ok(m),
{
    if normal_list(rules, g, p).contains(m) {
        ordinary_moves_are_offered(rules, g, p, m);
        let i = choose|i: int|
            0 <= i < beg_list(rules, g, p).len() && offered(
                rules,
                g,
                p,
                #[trigger] beg_list(rules, g, p)[i],
                m,
            );
        offered_moves_can_be_played(rules, g, p, beg_list(rules, g, p)[i], m);
    } else {
        pity_can_be_played(g, p, m);
    }
}

/// Every move that can be drawn can be played.
pub proof fn drawn_moves_can_be_played(rules: Rulebook, g: GameState, p: PlayerId, m: Play)
    requires
        p.ok(),
        rules.ok(),
        g.ok(),
        drawable(rules, g, p, m),
    ensures
        play_ok(m),
{
    if can_act_somehow(rules, g, p) {
        let i = choose|i: int|
            0 <= i < beg_list(rules, g, p).len() && offered(
                rules,
                g,
                p,
                #[trigger] beg_list(rules, g, p)[i],
                m,
            );
        offered_moves_can_be_played(rules, g, p, beg_list(rules, g, p)[i], m);
    } else {
        pity_can_be_played(g, p, m);
    }
}

} // verus!
