//! What corn buys: blocks and back, buildings, and the actions of other gears.
//! And what two buildings at once come to.

use crate::book::Rulebook;
use crate::costs::{building_bonus, face_up};
use crate::dominance::{by_position, collapsed, collapsing_keeps_every_choice};
use crate::effect::{after_all, Effect};
use crate::ids::{BuildingId, Bundle, Gear, PlayerId, Resource, Science};
use crate::lists::{each_after, flat};
use crate::offers::{lemma_in_both, lemma_in_flat, lemma_in_only, lemma_in_or_skip};
use crate::options::{
    building_list, buys_back, buys_from, buys_taking, exchange_list, monument_list, payoff_list,
    purse, trade, trades_buying, trades_gold, trades_selling, trades_stone, trades_wood, worth,
};
use crate::order::sorted_unique_keeps;
use crate::spaces::palenque::palenque_list;
use crate::spaces::raw_list;
use crate::spaces::tikal::{
    build_two_list, first_built, plain_pairs, raised_pairs, tikal_list,
};
use crate::spaces::uxmal::{
    acting, corn_builds, corn_builds_list, corn_price, fee_paid, mirror_list, mirrored_gears,
    mirrored_uxmal, uxmal_list,
};
use crate::spaces::yaxchilan::yaxchilan_list;
use crate::state::{shown, GameState, Player};
use vstd::array::spec_array_update;
use vstd::prelude::*;

verus! {

// ---- the exchange --------------------------------------------------------

/// What blocks are worth in corn: two for a wood, three for a stone, four for a
/// gold.
pub open spec fn corn_worth(b: [u8; 3]) -> int {
    2 * b[0] + 3 * b[1] + 4 * b[2]
}

/// What effects bring in, counted in corn.
pub open spec fn corn_gained(c: Seq<Effect>) -> int
    decreases c.len(),
{
    if c.len() == 0 {
        0
    } else {
        corn_gained(c.drop_last()) + match c.last() {
            Effect::Corn(n) => n as int,
            Effect::Res(Resource::Wood, n) => 2 * n,
            Effect::Res(Resource::Stone, n) => 3 * n,
            Effect::Res(Resource::Gold, n) => 4 * n,
            _ => 0,
        }
    }
}

/// One kind of block moved, if it moves at all.
pub open spec fn block_moved(r: Resource, n: int) -> Seq<Effect> {
    if n != 0 {
        seq![Effect::Res(r, n as i8)]
    } else {
        Seq::empty()
    }
}

/// Blocks sold and others bought: the difference of each kind, and the corn left
/// over or paid on top.
pub open spec fn swap(sold: [u8; 3], buy: [u8; 3]) -> Seq<Effect> {
    let corn = corn_worth(sold) - corn_worth(buy);
    block_moved(Resource::Wood, buy[0] - sold[0]) + block_moved(
        Resource::Stone,
        buy[1] - sold[1],
    ) + block_moved(Resource::Gold, buy[2] - sold[2]) + if corn != 0 {
        seq![Effect::Corn(corn as i16)]
    } else {
        Seq::empty()
    }
}

/// Whether a seat can make this trade: it holds what it sells, what it buys is
/// worth no more than its corn and what it sold, as far as a byte counts, and it
/// buys back nothing it sells.
pub open spec fn can_swap(g: GameState, p: PlayerId, sold: [u8; 3], buy: [u8; 3]) -> bool {
    let pl = g.players[p.0 as int];
    &&& sold[0] <= pl.res[0] && sold[1] <= pl.res[1] && sold[2] <= pl.res[2]
    &&& corn_worth(buy) <= pl.corn + corn_worth(sold)
    &&& corn_worth(buy) <= 255
    &&& sold[0] == 0 || buy[0] == 0
    &&& sold[1] == 0 || buy[1] == 0
    &&& sold[2] == 0 || buy[2] == 0
}

spec fn worth_from(b: [u8; 3], idx: int) -> int {
    (if idx <= 0 {
        2 * b[0]
    } else {
        0
    }) + (if idx <= 1 {
        3 * b[1]
    } else {
        0
    }) + (if idx <= 2 {
        4 * b[2]
    } else {
        0
    })
}

proof fn lemma_in_buys(budget: int, idx: int, cur: [u8; 3], b: [u8; 3])
    requires
        0 <= idx <= 3,
        0 <= budget <= 255,
    ensures
        buys_from(budget, idx, cur).contains(b) <==> worth_from(b, idx) <= budget && (forall|i: int|
            0 <= i < idx ==> #[trigger] b[i] == cur[i]),
    decreases 3 - idx,
{
    if idx == 3 {
        assert(seq![cur][0] == cur);
        if forall|i: int| 0 <= i < idx ==> #[trigger] b[i] == cur[i] {
            assert(b =~= cur);
        }
        if buys_from(budget, idx, cur).contains(b) {
            assert(b == cur);
        }
    } else {
        let f = buys_taking(budget, idx, cur);
        let n = 1 + budget / worth(idx);
        lemma_in_flat(n, f, b);
        assert forall|take: int| 0 <= take < n implies (#[trigger] f(take).contains(b)
            <==> worth_from(b, idx + 1) <= budget - take * worth(idx) && b[idx] == take && (forall|
            i: int,
        | 0 <= i < idx ==> #[trigger] b[i] == cur[i])) by {
            assert(0 <= take * worth(idx) <= budget) by (nonlinear_arith)
                requires
                    0 <= take < 1 + budget / worth(idx),
                    worth(idx) == 2 || worth(idx) == 3 || worth(idx) == 4,
                    budget >= 0,
            ;
            assert(take <= 255) by (nonlinear_arith)
                requires
                    0 <= take * worth(idx) <= budget,
                    budget <= 255,
                    worth(idx) >= 2,
            ;
            let next = spec_array_update(cur, idx, take as u8);
            lemma_in_buys(budget - take * worth(idx), idx + 1, next, b);
            if forall|i: int| 0 <= i < idx + 1 ==> #[trigger] b[i] == next[i] {
                assert(b[idx] == next[idx]);
                assert forall|i: int| 0 <= i < idx implies #[trigger] b[i] == cur[i] by {
                    assert(b[i] == next[i]);
                }
            }
            if b[idx] == take && (forall|i: int| 0 <= i < idx ==> #[trigger] b[i] == cur[i]) {
                assert forall|i: int| 0 <= i < idx + 1 implies #[trigger] b[i] == next[i] by {}
            }
        }
        if worth_from(b, idx) <= budget && (forall|i: int| 0 <= i < idx ==> #[trigger] b[i]
            == cur[i]) {
            let take = b[idx] as int;
            assert(idx == 0 || idx == 1 || idx == 2);
            assert(take * worth(idx) + worth_from(b, idx + 1) == worth_from(b, idx)) by {
                if idx == 0 {
                    assert(take * worth(0) == 2 * b[0]);
                } else if idx == 1 {
                    assert(take * worth(1) == 3 * b[1]);
                } else {
                    assert(take * worth(2) == 4 * b[2]);
                }
            }
            assert(take < n) by (nonlinear_arith)
                requires
                    take * worth(idx) <= budget,
                    n == 1 + budget / worth(idx),
                    worth(idx) == 2 || worth(idx) == 3 || worth(idx) == 4,
            ;
            assert(f(take).contains(b));
        }
        if exists|take: int| 0 <= take < n && #[trigger] f(take).contains(b) {
            let take = choose|take: int| 0 <= take < n && #[trigger] f(take).contains(b);
            if idx == 0 {
                assert(take * worth(0) == 2 * b[0]);
            } else if idx == 1 {
                assert(take * worth(1) == 3 * b[1]);
            } else {
                assert(take * worth(2) == 4 * b[2]);
            }
        }
    }
}

proof fn lemma_swap(sold: [u8; 3], buy: [u8; 3])
    requires
        forall|i: int| 0 <= i < 3 ==> #[trigger] sold[i] <= 127 && buy[i] <= 127,
    ensures
        trade(sold, buy) == swap(sold, buy),
{
    assert(sold[0] <= 127 && sold[1] <= 127 && sold[2] <= 127);
    assert(trade(sold, buy) =~= swap(sold, buy));
}

/// The trades on offer are exactly those a seat can make.
#[verifier::rlimit(40)]
pub proof fn trades_are_those_a_seat_can_make(g: GameState, p: PlayerId, c: Seq<Effect>)
    requires
        p.ok(),
        forall|i: int| 0 <= i < 3 ==> #[trigger] g.players[p.0 as int].res[i] <= 127,
    ensures
        exchange_list(g, p).contains(c) <==> exists|sold: [u8; 3], buy: [u8; 3]| #[trigger]
            can_swap(g, p, sold, buy) && c == swap(sold, buy),
{
    let pl = g.players[p.0 as int];
    let fw = trades_wood(pl);
    let all = flat(1 + pl.res[0], fw);
    collapsing_keeps_every_choice(all, all.len() as int);
    assert(all.take(all.len() as int) =~= all);
    assert(collapsed(all).contains(c) <==> all.contains(c));
    assert(pl.res[0] <= 127 && pl.res[1] <= 127 && pl.res[2] <= 127);
    lemma_in_flat(1 + pl.res[0], fw, c);
    if all.contains(c) {
        let w = choose|w: int| 0 <= w < 1 + pl.res[0] && #[trigger] fw(w).contains(c);
        let fs = trades_stone(pl, w);
        lemma_in_flat(1 + pl.res[1], fs, c);
        let st = choose|st: int| 0 <= st < 1 + pl.res[1] && #[trigger] fs(st).contains(c);
        let fg = trades_gold(pl, w, st);
        lemma_in_flat(1 + pl.res[2], fg, c);
        let gd = choose|gd: int| 0 <= gd < 1 + pl.res[2] && #[trigger] fg(gd).contains(c);
        let sold = [w as u8, st as u8, gd as u8];
        let buy = lemma_selling(g, p, sold, c);
        assert(can_swap(g, p, sold, buy) && c == swap(sold, buy));
    }
    if exists|sold: [u8; 3], buy: [u8; 3]| #[trigger]
        can_swap(g, p, sold, buy) && c == swap(sold, buy) {
        let (sold, buy) = choose|sold: [u8; 3], buy: [u8; 3]| #[trigger]
            can_swap(g, p, sold, buy) && c == swap(sold, buy);
        lemma_sold(g, p, sold, buy);
        let fg = trades_gold(pl, sold[0] as int, sold[1] as int);
        assert([sold[0], sold[1], sold[2]] =~= sold);
        assert(fg(sold[2] as int).contains(c));
        lemma_in_flat(1 + pl.res[2], fg, c);
        let fs = trades_stone(pl, sold[0] as int);
        assert(fs(sold[1] as int).contains(c));
        lemma_in_flat(1 + pl.res[1], fs, c);
        assert(fw(sold[0] as int).contains(c));
    }
}

proof fn lemma_selling(g: GameState, p: PlayerId, sold: [u8; 3], c: Seq<Effect>) -> (buy: [u8; 3])
    requires
        p.ok(),
        forall|i: int| 0 <= i < 3 ==> #[trigger] sold[i] <= 127,
        sold[0] <= g.players[p.0 as int].res[0],
        sold[1] <= g.players[p.0 as int].res[1],
        sold[2] <= g.players[p.0 as int].res[2],
        trades_selling(g.players[p.0 as int].corn, sold).contains(c),
    ensures
        can_swap(g, p, sold, buy),
        c == swap(sold, buy),
{
    let corn = g.players[p.0 as int].corn;
    let none = [0u8, 0u8, 0u8];
    let budget = purse(corn, sold);
    let buys = buys_from(budget, 0, none);
    let f = trades_buying(corn, sold);
    lemma_in_flat(buys.len() as int, f, c);
    let i = choose|i: int| 0 <= i < buys.len() && #[trigger] f(i).contains(c);
    let buy = buys[i];
    assert(buys.contains(buy));
    lemma_in_buys(budget, 0, none, buy);
    lemma_in_only(!buys_back(sold, buy), trade(sold, buy), c);
    assert forall|k: int| 0 <= k < 3 implies #[trigger] sold[k] <= 127 && buy[k] <= 127 by {}
    lemma_swap(sold, buy);
    buy
}

proof fn lemma_sold(g: GameState, p: PlayerId, sold: [u8; 3], buy: [u8; 3])
    requires
        p.ok(),
        forall|i: int| 0 <= i < 3 ==> #[trigger] g.players[p.0 as int].res[i] <= 127,
        can_swap(g, p, sold, buy),
    ensures
        trades_selling(g.players[p.0 as int].corn, sold).contains(swap(sold, buy)),
{
    let pl = g.players[p.0 as int];
    let corn = pl.corn;
    let none = [0u8, 0u8, 0u8];
    let budget = purse(corn, sold);
    let buys = buys_from(budget, 0, none);
    assert(pl.res[0] <= 127 && pl.res[1] <= 127 && pl.res[2] <= 127);
    lemma_in_buys(budget, 0, none, buy);
    assert(buys.contains(buy));
    let i = buys.index_of(buy);
    let f = trades_buying(corn, sold);
    assert forall|k: int| 0 <= k < 3 implies #[trigger] sold[k] <= 127 && buy[k] <= 127 by {}
    lemma_swap(sold, buy);
    lemma_in_only(!buys_back(sold, buy), trade(sold, buy), swap(sold, buy));
    assert(f(i).contains(swap(sold, buy)));
    lemma_in_flat(buys.len() as int, f, swap(sold, buy));
}

proof fn lemma_gained_join(a: Seq<Effect>, b: Seq<Effect>)
    ensures
        corn_gained(a + b) == corn_gained(a) + corn_gained(b),
    decreases b.len(),
{
    if b.len() == 0 {
        assert(a + b =~= a);
    } else {
        assert((a + b).drop_last() =~= a + b.drop_last());
        lemma_gained_join(a, b.drop_last());
    }
}

proof fn lemma_gained_one(e: Effect)
    ensures
        corn_gained(seq![e]) == (match e {
            Effect::Corn(n) => n as int,
            Effect::Res(Resource::Wood, n) => 2 * n,
            Effect::Res(Resource::Stone, n) => 3 * n,
            Effect::Res(Resource::Gold, n) => 4 * n,
            _ => 0,
        }),
{
    assert(seq![e].drop_last() =~= Seq::<Effect>::empty());
    assert(corn_gained(Seq::<Effect>::empty()) == 0);
}

/// A trade gives as much as it takes: counted in corn, at two for a wood, three for
/// a stone and four for a gold, it comes to nothing.
pub proof fn trades_give_what_they_take(g: GameState, p: PlayerId, c: Seq<Effect>)
    requires
        p.ok(),
        forall|i: int| 0 <= i < 3 ==> #[trigger] g.players[p.0 as int].res[i] <= 127,
        exchange_list(g, p).contains(c),
    ensures
        corn_gained(c) == 0,
{
    trades_are_those_a_seat_can_make(g, p, c);
    let (sold, buy) = choose|sold: [u8; 3], buy: [u8; 3]| #[trigger]
        can_swap(g, p, sold, buy) && c == swap(sold, buy);
    let pl = g.players[p.0 as int];
    assert(pl.res[0] <= 127 && pl.res[1] <= 127 && pl.res[2] <= 127);
    let a = block_moved(Resource::Wood, buy[0] - sold[0]);
    let b = block_moved(Resource::Stone, buy[1] - sold[1]);
    let d = block_moved(Resource::Gold, buy[2] - sold[2]);
    let corn = corn_worth(sold) - corn_worth(buy);
    let e: Seq<Effect> = if corn != 0 {
        seq![Effect::Corn(corn as i16)]
    } else {
        Seq::empty()
    };
    lemma_gained_join(a + b + d, e);
    lemma_gained_join(a + b, d);
    lemma_gained_join(a, b);
    assert(corn_gained(Seq::<Effect>::empty()) == 0);
    lemma_gained_one(Effect::Res(Resource::Wood, (buy[0] - sold[0]) as i8));
    lemma_gained_one(Effect::Res(Resource::Stone, (buy[1] - sold[1]) as i8));
    lemma_gained_one(Effect::Res(Resource::Gold, (buy[2] - sold[2]) as i8));
    lemma_gained_one(Effect::Corn(corn as i16));
}

// ---- buildings for corn --------------------------------------------------

/// What a card costs in corn: two for each block, two less for a maxed
/// architecture track, and never less than nothing.
pub open spec fn price_in_corn(g: GameState, p: PlayerId, cost: Bundle) -> int {
    let full = 2 * cost[0] + 2 * cost[1] + 2 * cost[2] - if g.research[p.0 as int][2] >= 3 {
        2int
    } else {
        0
    };
    if full < 0 {
        0
    } else {
        full
    }
}

/// Whether this buys a card with corn the seat has: the corn, the card, the bonus
/// of architecture, and what the card's payoff then offers.
pub open spec fn corn_purchase(
    rules: Rulebook,
    g: GameState,
    p: PlayerId,
    id: BuildingId,
    rest: Seq<Effect>,
    c: Seq<Effect>,
) -> bool {
    let cost = price_in_corn(g, p, rules.bdef(id).cost);
    let base = seq![Effect::Corn((-cost) as i16), Effect::Build(id)] + building_bonus(g, p);
    &&& cost <= g.players[p.0 as int].corn
    &&& payoff_list(
        rules,
        after_all(rules, g, p, base),
        p,
        id,
        rules.bdef(id).payoff,
        0,
    ).contains(rest)
    &&& c == base + rest
}

/// Whether this buys a face-up card with corn the seat has.
pub open spec fn bought_with_corn(
    rules: Rulebook,
    g: GameState,
    p: PlayerId,
    id: BuildingId,
    rest: Seq<Effect>,
    c: Seq<Effect>,
) -> bool {
    face_up(g.buildings_up, id) && corn_purchase(rules, g, p, id, rest, c)
}

proof fn lemma_in_after(head: Seq<Effect>, s: Seq<Seq<Effect>>, c: Seq<Effect>)
    ensures
        each_after(head, s).contains(c) <==> exists|d: Seq<Effect>| #[trigger]
            s.contains(d) && c == head + d,
{
    let v = each_after(head, s);
    if v.contains(c) {
        let i = v.index_of(c);
        assert(s.contains(s[i]));
    }
    if exists|d: Seq<Effect>| #[trigger] s.contains(d) && c == head + d {
        let d = choose|d: Seq<Effect>| #[trigger] s.contains(d) && c == head + d;
        assert(v[s.index_of(d)] == c);
    }
}

proof fn lemma_shown_card(g: GameState, id: BuildingId)
    ensures
        shown(g.buildings_up@, 0).contains(id) <==> face_up(g.buildings_up, id),
{
    lemma_shown_from(g.buildings_up@, 0, id);
    if exists|i: int| 0 <= i < 6 && #[trigger] g.buildings_up@[i] == Some(id) {
        let i = choose|i: int| 0 <= i < 6 && #[trigger] g.buildings_up@[i] == Some(id);
        assert(g.buildings_up[i] == Some(id));
    }
    if face_up(g.buildings_up, id) {
        let i = choose|i: int| 0 <= i < 6 && #[trigger] g.buildings_up[i] == Some(id);
        assert(g.buildings_up@[i] == Some(id));
    }
}

proof fn lemma_shown_from(up: Seq<Option<BuildingId>>, k: int, id: BuildingId)
    requires
        0 <= k <= up.len(),
    ensures
        shown(up, k).contains(id) <==> exists|i: int|
            k <= i < up.len() && #[trigger] up[i] == Some(id),
    decreases up.len() - k,
{
    if k < up.len() {
        lemma_shown_from(up, k + 1, id);
        if let Some(x) = up[k] {
            lemma_in_both(seq![x], shown(up, k + 1), id);
            assert(seq![x][0] == x);
        }
    }
}

/// The buildings that corn buys are exactly those the seat has the corn for.
pub proof fn corn_buys_buildings_at_two_a_block(
    rules: Rulebook,
    g: GameState,
    p: PlayerId,
    c: Seq<Effect>,
)
    requires
        p.ok(),
    ensures
        corn_builds_list(rules, g, p).contains(c) <==> exists|id: BuildingId, rest: Seq<Effect>|
            #[trigger] bought_with_corn(rules, g, p, id, rest, c),
{
    let up = shown(g.buildings_up@, 0);
    let f = corn_builds(rules, g, p);
    let all = flat(up.len() as int, f);
    sorted_unique_keeps(all);
    assert(corn_builds_list(rules, g, p).contains(c) <==> all.contains(c));
    lemma_in_flat(up.len() as int, f, c);
    assert forall|i: int| 0 <= i < up.len() implies (#[trigger] f(i).contains(c) <==> exists|
        rest: Seq<Effect>,
    | #[trigger] corn_purchase(rules, g, p, up[i], rest, c)) by {
        let id = up[i];
        let cost = price_in_corn(g, p, rules.bdef(id).cost);
        assert(cost == corn_price(g, p, rules.bdef(id).cost));
        assert(building_bonus(g, p) =~= crate::research::bonus_list(g, p));
        let base = seq![Effect::Corn((-cost) as i16), Effect::Build(id)] + building_bonus(g, p);
        let pays = payoff_list(
            rules,
            after_all(rules, g, p, base),
            p,
            id,
            rules.bdef(id).payoff,
            0,
        );
        lemma_in_after(base, pays, c);
        if f(i).contains(c) {
            let rest = choose|d: Seq<Effect>| #[trigger] pays.contains(d) && c == base + d;
            assert(corn_purchase(rules, g, p, id, rest, c));
        }
        if exists|rest: Seq<Effect>| #[trigger] corn_purchase(rules, g, p, id, rest, c) {
            let rest = choose|rest: Seq<Effect>| #[trigger]
                corn_purchase(rules, g, p, id, rest, c);
            assert(pays.contains(rest));
        }
    }
    if all.contains(c) {
        let i = choose|i: int| 0 <= i < up.len() && #[trigger] f(i).contains(c);
        let id = up[i];
        assert(up.contains(id));
        lemma_shown_card(g, id);
        let rest = choose|rest: Seq<Effect>| #[trigger] corn_purchase(rules, g, p, id, rest, c);
        assert(bought_with_corn(rules, g, p, id, rest, c));
    }
    if exists|id: BuildingId, rest: Seq<Effect>| #[trigger]
        bought_with_corn(rules, g, p, id, rest, c) {
        let (id, rest) = choose|id: BuildingId, rest: Seq<Effect>| #[trigger]
            bought_with_corn(rules, g, p, id, rest, c);
        lemma_shown_card(g, id);
        let i = up.index_of(id);
        assert(corn_purchase(rules, g, p, up[i], rest, c));
        assert(f(i).contains(c));
    }
}

// ---- the mirror ----------------------------------------------------------

proof fn lemma_in_acting(s: Seq<Seq<Effect>>, c: Seq<Effect>)
    ensures
        acting(s).contains(c) <==> s.contains(c) && c.len() > 0,
    decreases s.len(),
{
    if s.len() > 0 {
        let r = s.drop_last();
        lemma_in_acting(r, c);
        assert(s =~= r + seq![s.last()]);
        lemma_in_both(r, seq![s.last()], c);
        assert(seq![s.last()][0] == s.last());
        let a = acting(r);
        assert(a.push(s.last()) =~= a + seq![s.last()]);
        lemma_in_both(a, seq![s.last()], c);
    }
}

/// Whether a gear's space offers this to a mirror with so many copies left.
pub open spec fn copied(
    rules: Rulebook,
    g: GameState,
    p: PlayerId,
    depth: nat,
    gear: Gear,
    i: int,
    d: Seq<Effect>,
) -> bool {
    match gear {
        Gear::Palenque => 0 <= i < 6 && palenque_list(rules, g, p, i).contains(d),
        Gear::Yaxchilan => 0 <= i < 6 && yaxchilan_list(g, p, i).contains(d),
        Gear::Tikal => 0 <= i < 6 && tikal_list(rules, g, p, i, depth).contains(d),
        Gear::Uxmal => 1 <= i < 5 && uxmal_list(rules, g, p, i, depth).contains(d),
        Gear::Chichen => false,
    }
}

/// The mirror takes one corn for an action of Palenque, Yaxchilan, Tikal or Uxmal
/// that does something, as it is once that corn is paid. Chichen Itza and the
/// mirror itself are not copied, nor is anything without the corn.
pub proof fn mirrors_copy_for_one_corn(
    rules: Rulebook,
    g: GameState,
    p: PlayerId,
    depth: nat,
    c: Seq<Effect>,
)
    requires
        p.ok(),
    ensures
        ({
            let pl = g.players[p.0 as int];
            let paid = GameState {
                players: spec_array_update(
                    g.players,
                    p.0 as int,
                    Player { corn: (pl.corn - 1) as u8, ..pl },
                ),
                ..g
            };
            mirror_list(rules, g, p, depth).contains(c) <==> depth > 0 && pl.corn > 0 && exists|
                gear: Gear,
                i: int,
                d: Seq<Effect>,
            | #[trigger]
                copied(rules, paid, p, (depth - 1) as nat, gear, i, d) && d.len() > 0 && c == seq![
                    Effect::Corn(-1i16),
                ] + d
        }),
{
    let pl = g.players[p.0 as int];
    if depth > 0 && pl.corn > 0 {
        let h = fee_paid(g, p);
        let low = (depth - 1) as nat;
        let fg = mirrored_gears(rules, h, p, depth);
        let fu = mirrored_uxmal(rules, h, p, depth);
        let all = flat(6, fg) + flat(4, fu);
        let fee = seq![Effect::Corn(-1i16)];
        lemma_in_after(fee, acting(all), c);
        if mirror_list(rules, g, p, depth).contains(c) {
            let d = choose|d: Seq<Effect>| #[trigger] acting(all).contains(d) && c == fee + d;
            lemma_in_acting(all, d);
            lemma_in_both(flat(6, fg), flat(4, fu), d);
            lemma_in_flat(6, fg, d);
            lemma_in_flat(4, fu, d);
            if flat(6, fg).contains(d) {
                let i = choose|i: int| 0 <= i < 6 && #[trigger] fg(i).contains(d);
                lemma_three(rules, h, p, depth, i, d);
                if palenque_list(rules, h, p, i).contains(d) {
                    assert(copied(rules, h, p, low, Gear::Palenque, i, d));
                } else if yaxchilan_list(h, p, i).contains(d) {
                    assert(copied(rules, h, p, low, Gear::Yaxchilan, i, d));
                } else {
                    assert(copied(rules, h, p, low, Gear::Tikal, i, d));
                }
            } else {
                let i = choose|i: int| 0 <= i < 4 && #[trigger] fu(i).contains(d);
                assert(copied(rules, h, p, low, Gear::Uxmal, i + 1, d));
            }
        }
        if exists|gear: Gear, i: int, d: Seq<Effect>| #[trigger]
            copied(rules, h, p, low, gear, i, d) && d.len() > 0 && c == fee + d {
            let (gear, i, d) = choose|gear: Gear, i: int, d: Seq<Effect>| #[trigger]
                copied(rules, h, p, low, gear, i, d) && d.len() > 0 && c == fee + d;
            if gear == Gear::Uxmal {
                assert(fu(i - 1).contains(d));
                lemma_in_flat(4, fu, d);
            } else {
                lemma_three(rules, h, p, depth, i, d);
                assert(fg(i).contains(d));
                lemma_in_flat(6, fg, d);
            }
            lemma_in_both(flat(6, fg), flat(4, fu), d);
            lemma_in_acting(all, d);
            assert(acting(all).contains(d));
        }
    }
}

proof fn lemma_three(
    rules: Rulebook,
    h: GameState,
    p: PlayerId,
    depth: nat,
    i: int,
    d: Seq<Effect>,
)
    requires
        depth > 0,
    ensures
        mirrored_gears(rules, h, p, depth)(i).contains(d) <==> palenque_list(
            rules,
            h,
            p,
            i,
        ).contains(d) || yaxchilan_list(h, p, i).contains(d) || tikal_list(
            rules,
            h,
            p,
            i,
            (depth - 1) as nat,
        ).contains(d),
{
    let a = palenque_list(rules, h, p, i);
    let b = yaxchilan_list(h, p, i);
    let t = tikal_list(rules, h, p, i, (depth - 1) as nat);
    lemma_in_both(a + b, t, d);
    lemma_in_both(a, b, d);
}

// ---- two buildings at once -----------------------------------------------

/// Whether a choice builds this card before any other.
pub open spec fn builds_first(s: Seq<Effect>, id: BuildingId) -> bool {
    exists|i: int|
        0 <= i < s.len() && #[trigger] s[i] == Effect::Build(id) && forall|j: int|
            0 <= j < i ==> !((#[trigger] s[j]) is Build)
}

proof fn lemma_first_built(s: Seq<Effect>)
    ensures
        match first_built(s) {
            Some(id) => builds_first(s, id),
            None => forall|j: int| 0 <= j < s.len() ==> !((#[trigger] s[j]) is Build),
        },
    decreases s.len(),
{
    if s.len() > 0 {
        let r = s.drop_first();
        lemma_first_built(r);
        match s[0] {
            Effect::Build(id) => {
                assert(builds_first(s, id)) by {
                    assert(s[0] == Effect::Build(id));
                }
            },
            _ => {
                if let Some(id) = first_built(r) {
                    let i = choose|i: int|
                        0 <= i < r.len() && #[trigger] r[i] == Effect::Build(id) && forall|j: int|
                            0 <= j < i ==> !((#[trigger] r[j]) is Build);
                    assert(s[i + 1] == Effect::Build(id));
                    assert forall|j: int| 0 <= j < i + 1 implies !((#[trigger] s[j]) is Build) by {
                        if j > 0 {
                            assert(!(r[j - 1] is Build));
                        }
                    }
                } else {
                    assert forall|j: int| 0 <= j < s.len() implies !((#[trigger] s[j]) is Build) by {
                        if j > 0 {
                            assert(!(r[j - 1] is Build));
                        }
                    }
                }
            },
        }
    }
}

/// Whether this builds two: a first building with the bonus and then another
/// without, or, where the first raises the architecture track, a first without
/// the bonus and then another with it. The second is chosen in the position the
/// first leaves and is not the first again.
pub open spec fn two_built(
    rules: Rulebook,
    g: GameState,
    p: PlayerId,
    first: Seq<Effect>,
    second: Seq<Effect>,
    left_out: Option<BuildingId>,
    c: Seq<Effect>,
) -> bool {
    let h = after_all(rules, g, p, first);
    &&& match left_out {
        Some(id) => builds_first(first, id),
        None => forall|j: int| 0 <= j < first.len() ==> !((#[trigger] first[j]) is Build),
    }
    &&& c == first + second
    &&& {
        ||| building_list(rules, g, p, None, true, 1).contains(first) && building_list(
            rules,
            h,
            p,
            left_out,
            false,
            0,
        ).contains(second)
        ||| building_list(rules, g, p, None, false, 1).contains(first)
            && h.research[p.0 as int][2] > g.research[p.0 as int][2] && building_list(
            rules,
            h,
            p,
            left_out,
            true,
            0,
        ).contains(second)
    }
}

proof fn lemma_in_pairs(rules: Rulebook, g: GameState, p: PlayerId, c: Seq<Effect>)
    ensures
        ({
            let firsts = building_list(rules, g, p, None, true, 1);
            let bare = building_list(rules, g, p, None, false, 1);
            let pairs = flat(firsts.len() as int, plain_pairs(rules, g, p, firsts)) + flat(
                bare.len() as int,
                raised_pairs(rules, g, p, bare),
            );
            &&& pairs.contains(c) ==> exists|
                first: Seq<Effect>,
                second: Seq<Effect>,
                out: Option<BuildingId>,
            | #[trigger] two_built(rules, g, p, first, second, out, c)
            &&& (exists|first: Seq<Effect>, second: Seq<Effect>| #[trigger]
                two_built(rules, g, p, first, second, first_built(first), c)) ==> pairs.contains(c)
        }),
{
    let firsts = building_list(rules, g, p, None, true, 1);
    let bare = building_list(rules, g, p, None, false, 1);
    let fp = plain_pairs(rules, g, p, firsts);
    let fr = raised_pairs(rules, g, p, bare);
    let a = flat(firsts.len() as int, fp);
    let b = flat(bare.len() as int, fr);
    lemma_in_both(a, b, c);
    lemma_in_flat(firsts.len() as int, fp, c);
    lemma_in_flat(bare.len() as int, fr, c);
    if a.contains(c) {
        let i = choose|i: int| 0 <= i < firsts.len() && #[trigger] fp(i).contains(c);
        let first = firsts[i];
        assert(firsts.contains(first));
        lemma_first_built(first);
        let h = after_all(rules, g, p, first);
        let list = building_list(rules, h, p, first_built(first), false, 0);
        lemma_in_after(first, list, c);
        let second = choose|d: Seq<Effect>| #[trigger] list.contains(d) && c == first + d;
        assert(two_built(rules, g, p, first, second, first_built(first), c));
    }
    if b.contains(c) {
        let i = choose|i: int| 0 <= i < bare.len() && #[trigger] fr(i).contains(c);
        let first = bare[i];
        assert(bare.contains(first));
        lemma_first_built(first);
        let h = after_all(rules, g, p, first);
        assert(h.lvl(p, Science::Architecture) == h.research[p.0 as int][2]);
        assert(g.lvl(p, Science::Architecture) == g.research[p.0 as int][2]);
        let list = building_list(rules, h, p, first_built(first), true, 0);
        lemma_in_after(first, list, c);
        let second = choose|d: Seq<Effect>| #[trigger] list.contains(d) && c == first + d;
        assert(two_built(rules, g, p, first, second, first_built(first), c));
    }
    if exists|first: Seq<Effect>, second: Seq<Effect>| #[trigger]
        two_built(rules, g, p, first, second, first_built(first), c) {
        let (first, second) = choose|first: Seq<Effect>, second: Seq<Effect>| #[trigger]
            two_built(rules, g, p, first, second, first_built(first), c);
        let h = after_all(rules, g, p, first);
        assert(h.lvl(p, Science::Architecture) == h.research[p.0 as int][2]);
        assert(g.lvl(p, Science::Architecture) == g.research[p.0 as int][2]);
        let plain = building_list(rules, h, p, first_built(first), false, 0);
        let raised = building_list(rules, h, p, first_built(first), true, 0);
        lemma_in_after(first, plain, c);
        lemma_in_after(first, raised, c);
        if firsts.contains(first) && plain.contains(second) {
            let i = firsts.index_of(first);
            assert(fp(i).contains(c));
        } else {
            let i = bare.index_of(first);
            assert(fr(i).contains(c));
        }
    }
}

proof fn lemma_by_position_in(
    rules: Rulebook,
    g: GameState,
    p: PlayerId,
    s: Seq<Seq<Effect>>,
    n: int,
    c: Seq<Effect>,
)
    requires
        0 <= n <= s.len(),
        by_position(rules, g, p, s, n).contains(c),
    ensures
        s.contains(c),
    decreases n,
{
    if n > 0 {
        let out = by_position(rules, g, p, s, n);
        let r = by_position(rules, g, p, s, n - 1);
        let k = out.index_of(c);
        if k < r.len() {
            assert(r[k] == c);
            lemma_by_position_in(rules, g, p, s, n - 1, c);
        } else {
            assert(s[n - 1] == c);
        }
    }
}

/// The fourth space of Tikal offers one building, two, or a monument, and nothing
/// only where there is none of these. Every single building and monument is there;
/// every pair is, where pairs that reach one position are not dropped.
pub proof fn tikal_builds_one_or_two_or_a_monument(
    rules: Rulebook,
    g: GameState,
    p: PlayerId,
    c: Seq<Effect>,
)
    ensures
        raw_list(rules, g, p, Gear::Tikal, 4).contains(c) ==> c == Seq::<Effect>::empty()
            || building_list(rules, g, p, None, true, 1).contains(c) || monument_list(
            rules,
            g,
            p,
        ).contains(c) || exists|
            first: Seq<Effect>,
            second: Seq<Effect>,
            out: Option<BuildingId>,
        | #[trigger] two_built(rules, g, p, first, second, out, c),
        building_list(rules, g, p, None, true, 1).contains(c) ==> raw_list(
            rules,
            g,
            p,
            Gear::Tikal,
            4,
        ).contains(c),
        monument_list(rules, g, p).contains(c) ==> raw_list(rules, g, p, Gear::Tikal, 4).contains(c),
        rules.prune < 2 && (exists|first: Seq<Effect>, second: Seq<Effect>| #[trigger]
            two_built(rules, g, p, first, second, first_built(first), c)) ==> raw_list(
            rules,
            g,
            p,
            Gear::Tikal,
            4,
        ).contains(c),
        c == Seq::<Effect>::empty() && (building_list(rules, g, p, None, true, 1).len() > 0
            || monument_list(rules, g, p).len() > 0) && !building_list(
            rules,
            g,
            p,
            None,
            true,
            1,
        ).contains(c) && !monument_list(rules, g, p).contains(c) && !(exists|
            first: Seq<Effect>,
            second: Seq<Effect>,
            out: Option<BuildingId>,
        | #[trigger] two_built(rules, g, p, first, second, out, c)) ==> !raw_list(
            rules,
            g,
            p,
            Gear::Tikal,
            4,
        ).contains(c),
{
    let firsts = building_list(rules, g, p, None, true, 1);
    let bare = building_list(rules, g, p, None, false, 1);
    let pairs = flat(firsts.len() as int, plain_pairs(rules, g, p, firsts)) + flat(
        bare.len() as int,
        raised_pairs(rules, g, p, bare),
    );
    let kept = if rules.prune >= 2 {
        by_position(rules, g, p, pairs, pairs.len() as int)
    } else {
        pairs
    };
    let all = build_two_list(rules, g, p, 1);
    assert(all == firsts + kept + monument_list(rules, g, p));
    lemma_in_or_skip(all, c);
    lemma_in_both(firsts + kept, monument_list(rules, g, p), c);
    lemma_in_both(firsts, kept, c);
    lemma_in_pairs(rules, g, p, c);
    if kept.contains(c) && rules.prune >= 2 {
        lemma_by_position_in(rules, g, p, pairs, pairs.len() as int, c);
    }
}

} // verus!
