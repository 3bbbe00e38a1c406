//! Shared option builders: research, buildings, monuments.
//!
//! Everything here runs at generation time against a position it only reads,
//! and everything it returns is fully resolved data.

pub use crate::dominance::{
    choice_digest, dedup, dedup_by_position, dedup_unordered, dominated_dedup, is_wealth,
    pruning_on, same_group, wide_pruning_on, Key,
};
use crate::effect::{after_all, choices_keep_positions_sound, Choice, Effect};
use crate::book::{cost_ok, effects_ok, Payoff, Rulebook};
use crate::dominance::{all_ok, collapsed, lemma_collapsed_ok, lemma_sorted_ok};
use crate::ids::{empty_bundle, BuildingId, Bundle, PlayerId, Resource, Science, Temple, TileKind};
use crate::lists::{
    chain_each, each_after, each_then, flat, just, lead_each, only, or_skip, or_skip_list, put,
    put_all,
};
use crate::order::{packed, sorted_unique, views};
use crate::research::bonus_list;
use crate::spaces::uxmal::{mirror_choices, mirror_list};
use crate::state::{can_step, shown, GameState, Player};
use vstd::array::spec_array_update;
use vstd::prelude::*;

verus! {

/// One effect as a word that sorts the way effects do.
pub fn pack(e: Effect) -> (w: u32)
    ensures
        w == packed(e),
{
    let (tag, payload): (u32, u32) = match e {
        Effect::Corn(n) => (0, (n as i32 + 32768) as u32),
        Effect::SetCorn(n) => (1, n as u32),
        Effect::Res(r, n) => (2, r.idx() as u32 * 512 + (n as i32 + 128) as u32),
        Effect::Points(n) => (3, (n as i32 + 128) as u32),
        Effect::TempleStep(t, n) => (4, t.idx() as u32 * 512 + (n as i32 + 128) as u32),
        Effect::AdvanceResearch(s) => (5, s.idx() as u32),
        Effect::UnlockWorker => (6, 0),
        Effect::FreeWorker(n) => (7, (n as i32 + 128) as u32),
        Effect::WorkerDiscount(n) => (8, (n as i32 + 128) as u32),
        Effect::TakePalenqueTile(pos, k) => (
            9,
            pos.0 as u32 * 512 + match k {
                TileKind::Corn => 0u32,
                TileKind::Wood => 1u32,
            },
        ),
        Effect::BurnPalenqueWood(pos) => (10, pos.0 as u32),
        Effect::FillChichen(pos) => (11, pos.0 as u32),
        Effect::Build(b) => (12, b.0 as u32),
        Effect::TakeMonument(m) => (13, m.0 as u32),
    };
    tag * 1048576 + payload
}

// ---- paying in blocks ----------------------------------------------------

/// Every way to pay `left` blocks out of the kinds from `idx` on, the first
/// kind rising slowest, on top of what `cur` already pays.
pub open spec fn splits_from(res: [u8; 4], idx: int, left: int, cur: Bundle) -> Seq<Bundle>
    decreases 3 - idx, 1int,
{
    if left == 0 {
        seq![cur]
    } else if idx >= 3 {
        Seq::empty()
    } else {
        flat(
            1 + if left < res[idx] {
                left
            } else {
                res[idx] as int
            },
            splits_taking(res, idx, left, cur),
        )
    }
}

/// The same ways to pay, by how many blocks of kind `idx` they take.
pub open spec fn splits_taking(
    res: [u8; 4],
    idx: int,
    left: int,
    cur: Bundle,
) -> spec_fn(int) -> Seq<Bundle>
    decreases 3 - idx, 0int,
    when idx < 3
{
    |take: int| splits_from(res, idx + 1, left - take, spec_array_update(cur, idx, take as i8))
}

/// Every distinct way to pay `n` blocks.
pub open spec fn splits(res: [u8; 4], n: int) -> Seq<Bundle> {
    splits_from(res, 0, n, empty_bundle())
}

/// Whether a bundle pays exactly `n` blocks out of what is held.
pub open spec fn pays_exactly(res: [u8; 4], n: int, b: Bundle) -> bool {
    &&& b[3] == 0
    &&& b[0] + b[1] + b[2] == n
    &&& forall|i: int| 0 <= i < 3 ==> 0 <= #[trigger] b[i] <= res[i]
}

/// What a concatenation holds, some part of it holds.
proof fn lemma_flat_contains<A>(n: int, f: spec_fn(int) -> Seq<A>, a: A)
    ensures
        flat(n, f).contains(a) <==> exists|i: int| 0 <= i < n && (#[trigger] f(i)).contains(a),
    decreases n,
{
    if n > 0 {
        lemma_flat_contains(n - 1, f, a);
        let x = flat(n - 1, f);
        let y = f(n - 1);
        if (x + y).contains(a) {
            let k = (x + y).index_of(a);
            if k < x.len() {
                assert(x[k] == a);
            } else {
                assert(y[k - x.len()] == a);
            }
        }
        if x.contains(a) {
            assert((x + y)[x.index_of(a)] == a);
        }
        if y.contains(a) {
            assert((x + y)[x.len() + y.index_of(a)] == a);
        }
    }
}

/// What a split from `idx` on holds: the kinds before keep what they paid, the
/// rest pay what is left out of what is held.
proof fn lemma_splits_from(res: [u8; 4], idx: int, left: int, cur: Bundle, b: Bundle)
    requires
        0 <= idx <= 3,
        0 <= left <= 127,
        forall|i: int| idx <= i < 4 ==> #[trigger] cur[i] == 0,
    ensures
        splits_from(res, idx, left, cur).contains(b) <==> {
            &&& forall|i: int| 0 <= i < idx ==> #[trigger] b[i] == cur[i]
            &&& forall|i: int| idx <= i < 3 ==> 0 <= #[trigger] b[i] <= res[i]
            &&& b[3] == 0
            &&& left == (if idx <= 0 {
                b[0] as int
            } else {
                0
            }) + (if idx <= 1 {
                b[1] as int
            } else {
                0
            }) + (if idx <= 2 {
                b[2] as int
            } else {
                0
            })
        },
    decreases 3 - idx,
{
    let out = splits_from(res, idx, left, cur);
    if left == 0 {
        assert(out[0] == cur);
        if forall|i: int| 0 <= i < 4 ==> #[trigger] b[i] == cur[i] {
            assert(b =~= cur);
        }
        if (forall|i: int| 0 <= i < idx ==> #[trigger] b[i] == cur[i]) && (forall|i: int|
            idx <= i < 3 ==> 0 <= #[trigger] b[i] <= res[i]) && b[3] == 0 && (if idx <= 0 {
            b[0] as int
        } else {
            0
        }) + (if idx <= 1 {
            b[1] as int
        } else {
            0
        }) + (if idx <= 2 {
            b[2] as int
        } else {
            0
        }) == 0 {
            assert forall|i: int| 0 <= i < 4 implies #[trigger] b[i] == cur[i] by {
                if idx <= i < 3 {
                    assert(cur[i] == 0);
                    assert(0 <= b[0] || idx > 0);
                    assert(0 <= b[1] || idx > 1);
                    assert(0 <= b[2] || idx > 2);
                }
            }
            assert(b =~= cur);
        }
    } else if idx < 3 {
        let f = splits_taking(res, idx, left, cur);
        let m = 1 + if left < res[idx] {
            left
        } else {
            res[idx] as int
        };
        lemma_flat_contains(m, f, b);
        assert forall|take: int| 0 <= take < m implies #[trigger] f(take).contains(b) <==> {
            &&& forall|i: int| 0 <= i < idx ==> #[trigger] b[i] == cur[i]
            &&& b[idx] == take
            &&& forall|i: int| idx < i < 3 ==> 0 <= #[trigger] b[i] <= res[i]
            &&& b[3] == 0
            &&& left - take == (if idx <= 0 {
                b[1] as int
            } else {
                0
            }) + (if idx <= 1 {
                b[2] as int
            } else {
                0
            })
        } by {
            let c2 = spec_array_update(cur, idx, take as i8);
            assert forall|i: int| idx + 1 <= i < 4 implies #[trigger] c2[i] == 0 by {
                assert(cur[i] == 0);
            }
            lemma_splits_from(res, idx + 1, left - take, c2, b);
            assert(c2[idx] == take);
            assert forall|i: int| 0 <= i < idx implies #[trigger] c2[i] == cur[i] by {}
            if f(take).contains(b) {
                assert(b[idx] == c2[idx]);
                assert forall|i: int| 0 <= i < idx implies #[trigger] b[i] == cur[i] by {
                    assert(c2[i] == cur[i]);
                }
            }
            if (forall|i: int| 0 <= i < idx ==> #[trigger] b[i] == cur[i]) && b[idx] == take {
                assert forall|i: int| 0 <= i < idx + 1 implies #[trigger] b[i] == c2[i] by {
                    if i < idx {
                        assert(c2[i] == cur[i]);
                    }
                }
            }
        }
        if out.contains(b) {
            let take = choose|take: int| 0 <= take < m && (#[trigger] f(take)).contains(b);
            assert(b[idx] == take);
        }
        if (forall|i: int| 0 <= i < idx ==> #[trigger] b[i] == cur[i]) && (forall|i: int|
            idx <= i < 3 ==> 0 <= #[trigger] b[i] <= res[i]) && b[3] == 0 && left == (if idx <= 0 {
            b[0] as int
        } else {
            0
        }) + (if idx <= 1 {
            b[1] as int
        } else {
            0
        }) + (if idx <= 2 {
            b[2] as int
        } else {
            0
        }) {
            assert(0 <= b[idx] <= res[idx]);
            assert(idx <= 1 ==> 0 <= b[2]);
            assert(idx <= 0 ==> 0 <= b[1]);
            assert(f(b[idx] as int).contains(b));
        }
    }
}

/// The splits of a bill are exactly the bundles that pay it.
pub proof fn splits_are_exact(res: [u8; 4], n: int, b: Bundle)
    requires
        0 <= n <= 127,
    ensures
        splits(res, n).contains(b) <==> pays_exactly(res, n, b),
{
    lemma_splits_from(res, 0, n, empty_bundle(), b);
}

fn split_rest(res: &[u8; 4], idx: usize, left: u8, cur: Bundle, out: &mut Vec<Bundle>)
    requires
        idx <= 3,
        left <= 127,
    ensures
        final(out)@ == old(out)@ + splits_from(*res, idx as int, left as int, cur),
    decreases 3 - idx,
{
    if left == 0 {
        out.push(cur);
        assert(out@ =~= old(out)@ + seq![cur]);
        return;
    }
    if idx >= 3 {
        assert(out@ =~= old(out)@ + Seq::<Bundle>::empty());
        return;
    }
    let most: u8 = if left < res[idx] {
        left
    } else {
        res[idx]
    };
    let ghost f = splits_taking(*res, idx as int, left as int, cur);
    let mut take: u8 = 0;
    assert(out@ =~= old(out)@ + flat(0, f));
    while take <= most
        invariant
            idx < 3,
            0 < left <= 127,
            most <= left,
            take <= most + 1,
            f == splits_taking(*res, idx as int, left as int, cur),
            out@ == old(out)@ + flat(take as int, f),
        decreases most + 1 - take,
    {
        let mut c = cur;
        c[idx] = take as i8;
        assert(c =~= spec_array_update(cur, idx as int, take as i8));
        let ghost o1 = out@;
        split_rest(res, idx + 1, left - take, c, out);
        proof {
            assert(out@ == o1 + f(take as int));
            assert(out@ =~= old(out)@ + flat(take + 1, f));
        }
        take += 1;
    }
}

/// Every distinct way to pay `n` blocks out of what is held.
///
/// Combinations, not permutations: paying wood then stone and stone then wood
/// are one way to pay.
pub fn pay_blocks(res: [u8; 4], n: u8) -> (out: Vec<Bundle>)
    requires
        n <= 127,
    ensures
        out@ == splits(res, n as int),
        forall|i: int| 0 <= i < out@.len() ==> pays_exactly(res, n as int, #[trigger] out@[i]),
{
    let mut out: Vec<Bundle> = Vec::new();
    let empty: Bundle = [0, 0, 0, 0];
    assert(empty =~= empty_bundle());
    split_rest(&res, 0, n, empty, &mut out);
    proof {
        assert(out@ =~= splits(res, n as int));
        assert forall|i: int| 0 <= i < out@.len() implies pays_exactly(
            res,
            n as int,
            #[trigger] out@[i],
        ) by {
            splits_are_exact(res, n as int, out@[i]);
            assert(splits(res, n as int).contains(out@[i]));
        }
    }
    out
}

/// The effects that settle a bill, block kinds in order.
pub open spec fn bill(pay: Bundle) -> Seq<Effect> {
    only(pay[0] > 0, Effect::Res(Resource::Wood, (-pay[0]) as i8)) + only(
        pay[1] > 0,
        Effect::Res(Resource::Stone, (-pay[1]) as i8),
    ) + only(pay[2] > 0, Effect::Res(Resource::Gold, (-pay[2]) as i8))
}

/// Add the effects that settle a bill.
fn payment_effects(pay: Bundle, into: &mut Choice)
    ensures
        final(into)@ == old(into)@ + bill(pay),
{
    if pay[0] > 0 {
        into.0.push(Effect::Res(Resource::Wood, -pay[0]));
    }
    if pay[1] > 0 {
        into.0.push(Effect::Res(Resource::Stone, -pay[1]));
    }
    if pay[2] > 0 {
        into.0.push(Effect::Res(Resource::Gold, -pay[2]));
    }
    assert(into@ =~= old(into)@ + bill(pay));
}

// ---- research ------------------------------------------------------------

/// A step up each temple the seat can climb.
pub open spec fn climbs(rules: Rulebook, g: GameState, p: PlayerId) -> spec_fn(int) -> Seq<
    Seq<Effect>,
> {
    |i: int|
        only(
            can_step(rules, g, p, Temple::at(i), 1),
            seq![Effect::TempleStep(Temple::at(i), 1)],
        )
}

/// The one-off payoffs for advancing a track that is already at level three. A
/// temple step that cannot be taken is wasted, not withheld, so the brown one
/// is still offered when none can.
pub open spec fn top_list(rules: Rulebook, g: GameState, p: PlayerId, s: Science) -> Seq<
    Seq<Effect>,
> {
    match s {
        Science::Agriculture => {
            let v = flat(3, climbs(rules, g, p));
            if v.len() == 0 {
                seq![seq![Effect::TempleStep(Temple::Brown, 1)]]
            } else {
                v
            }
        },
        Science::Extraction => seq![
            seq![Effect::Res(Resource::Wood, 1), Effect::Res(Resource::Wood, 1)],
            seq![Effect::Res(Resource::Wood, 1), Effect::Res(Resource::Stone, 1)],
            seq![Effect::Res(Resource::Wood, 1), Effect::Res(Resource::Gold, 1)],
            seq![Effect::Res(Resource::Stone, 1), Effect::Res(Resource::Stone, 1)],
            seq![Effect::Res(Resource::Stone, 1), Effect::Res(Resource::Gold, 1)],
            seq![Effect::Res(Resource::Gold, 1), Effect::Res(Resource::Gold, 1)],
        ],
        Science::Architecture => seq![seq![Effect::Points(3)]],
        Science::Theology => seq![seq![Effect::Res(Resource::Skull, 1)]],
    }
}

/// The one-off payoffs for advancing a track that is already at level three.
fn top_payoffs(rules: &Rulebook, g: &GameState, p: PlayerId, s: Science) -> (out: Vec<Choice>)
    requires
        p.ok(),
    ensures
        views(out@) == top_list(*rules, *g, p, s),
        all_ok(views(out@)),
{
    let mut out: Vec<Choice> = Vec::new();
    match s {
        Science::Agriculture => {
            let ghost f = climbs(*rules, *g, p);
            let mut i: usize = 0;
            assert(views(out@) =~= flat(0, f));
            while i < 3
                invariant
                    i <= 3,
                    p.ok(),
                    f == climbs(*rules, *g, p),
                    views(out@) == flat(i as int, f),
                    all_ok(views(out@)),
                decreases 3 - i,
            {
                let t = Temple::from_idx(i);
                if g.can_temple_step(rules, p, t, 1) {
                    put(&mut out, Choice::one(Effect::TempleStep(t, 1)));
                }
                i += 1;
                assert(views(out@) =~= flat(i as int, f));
            }
            if out.len() == 0 {
                put(&mut out, Choice::one(Effect::TempleStep(Temple::Brown, 1)));
                assert(views(out@) =~= top_list(*rules, *g, p, s));
            }
        },
        Science::Extraction => {
            let mut a: usize = 0;
            let ghost want = top_list(*rules, *g, p, s);
            assert(views(out@) =~= want.take(0));
            while a < 3
                invariant
                    a <= 3,
                    s == Science::Extraction,
                    want == top_list(*rules, *g, p, s),
                    a == 0 ==> views(out@) == want.take(0),
                    a == 1 ==> views(out@) == want.take(3),
                    a == 2 ==> views(out@) == want.take(5),
                    a == 3 ==> views(out@) == want.take(6),
                decreases 3 - a,
            {
                let ghost base = views(out@);
                let ra = Resource::from_idx(a);
                let mut b: usize = a;
                assert(base =~= base + want.subrange(base.len() as int, base.len() as int));
                while b < 3
                    invariant
                        a <= b <= 3,
                        a < 3,
                        s == Science::Extraction,
                        want == top_list(*rules, *g, p, s),
                        want.len() == 6,
                        base.len() == (if a == 0 {
                            0int
                        } else if a == 1 {
                            3
                        } else {
                            5
                        }),
                        ra == Resource::at(a as int),
                        views(out@) == base + want.subrange(
                            base.len() as int,
                            base.len() + (b - a),
                        ),
                    decreases 3 - b,
                {
                    let rb = Resource::from_idx(b);
                    let c = Choice::one(Effect::Res(ra, 1)).with(Effect::Res(rb, 1));
                    assert(c@ =~= want[base.len() + (b - a)]);
                    put(&mut out, c);
                    b += 1;
                    assert(views(out@) =~= base + want.subrange(
                        base.len() as int,
                        base.len() + (b - a),
                    ));
                }
                a += 1;
                assert(views(out@) =~= want.take(base.len() + (4 - a)));
            }
            assert(views(out@) =~= want);
        },
        Science::Architecture => {
            put(&mut out, Choice::one(Effect::Points(3)));
            assert(views(out@) =~= top_list(*rules, *g, p, s));
        },
        Science::Theology => {
            put(&mut out, Choice::one(Effect::Res(Resource::Skull, 1)));
            assert(views(out@) =~= top_list(*rules, *g, p, s));
        },
    }
    out
}

/// Where a chain of advances has got to.
#[derive(Clone, Copy)]
pub struct Walk {
    /// Blocks still in hand.
    pub res: [u8; 4],
    /// Levels reached.
    pub lvls: [u8; 4],
    /// The lowest track the next advance may take: two independent advances
    /// are one decision, so they are only walked in track order.
    pub floor: usize,
    /// Blocks owed and not yet settled: which advance a block pays for is no
    /// decision either, so the bill is carried and settled in one go.
    pub owed: Bundle,
}

/// What an advance costs: one, two, three blocks for the levels, and one for
/// the payoff past the third.
pub open spec fn price(free: bool, lvl: u8) -> int {
    if free {
        0
    } else if lvl >= 3 {
        1
    } else {
        lvl + 1
    }
}

/// Blocks left after a payment.
pub open spec fn spent(res: [u8; 4], pay: Bundle) -> [u8; 4] {
    [
        (res[0] - pay[0]) as u8,
        (res[1] - pay[1]) as u8,
        (res[2] - pay[2]) as u8,
        res[3],
    ]
}

/// A bill with a payment added to it.
pub open spec fn owing(owed: Bundle, pay: Bundle) -> Bundle {
    [(owed[0] + pay[0]) as i8, (owed[1] + pay[1]) as i8, (owed[2] + pay[2]) as i8, owed[3]]
}

/// Blocks in hand after a payoff is handed over.
pub open spec fn granted(res: [u8; 4], gain: Seq<Effect>) -> [u8; 4]
    decreases gain.len(),
{
    if gain.len() == 0 {
        res
    } else {
        let r0 = granted(res, gain.drop_last());
        match gain.last() {
            Effect::Res(r, d) => spec_array_update(
                r0,
                r.rank(),
                ((if r0[r.rank()] + d < 0 {
                    0
                } else {
                    r0[r.rank()] + d
                }) % 256) as u8,
            ),
            _ => r0,
        }
    }
}

/// Whether a payoff hands over a resource, which may be what pays for a track
/// the walk has already passed.
pub open spec fn reopens(gain: Seq<Effect>) -> bool {
    exists|i: int| 0 <= i < gain.len() && (#[trigger] gain[i]) is Res
}

/// Where a chain stands, and what it has done, after paying for an advance to
/// a level below the top.
pub open spec fn stepped(rules: Rulebook, w: Walk, s: int, pay: Bundle) -> Walk {
    Walk {
        res: spent(w.res, pay),
        lvls: spec_array_update(w.lvls, s, (w.lvls[s] + 1) as u8),
        floor: s as usize,
        owed: if rules.prune >= 1 {
            owing(w.owed, pay)
        } else {
            empty_bundle()
        },
    }
}

/// Where a chain stands after paying for a payoff past the top.
pub open spec fn topped(rules: Rulebook, w: Walk, s: int, pay: Bundle, gain: Seq<Effect>) -> Walk {
    Walk {
        res: granted(spent(w.res, pay), gain),
        lvls: w.lvls,
        floor: if reopens(gain) {
            0
        } else {
            s as usize
        },
        owed: if rules.prune >= 1 && !reopens(gain) {
            owing(w.owed, pay)
        } else {
            empty_bundle()
        },
    }
}

/// The payments a chain settles before an advance, rather than carrying them:
/// everything when nothing is pruned, and the whole bill before a payoff that
/// hands over a resource.
pub open spec fn settled(rules: Rulebook, w: Walk, pay: Bundle, gain: Seq<Effect>) -> Seq<Effect> {
    if rules.prune == 0 {
        bill(pay)
    } else if reopens(gain) {
        bill(owing(w.owed, pay))
    } else {
        Seq::empty()
    }
}

/// Every chain of `n` more advances.
pub open spec fn chains(
    rules: Rulebook,
    g: GameState,
    p: PlayerId,
    n: int,
    free: bool,
    w: Walk,
    acc: Seq<Effect>,
) -> Seq<Seq<Effect>>
    decreases n, 3int,
{
    if n <= 0 {
        seq![acc + bill(w.owed)]
    } else {
        flat(4, chains_on(rules, g, p, n, free, w, acc))
    }
}

/// The same chains, by the track of the next advance.
pub open spec fn chains_on(
    rules: Rulebook,
    g: GameState,
    p: PlayerId,
    n: int,
    free: bool,
    w: Walk,
    acc: Seq<Effect>,
) -> spec_fn(int) -> Seq<Seq<Effect>>
    decreases n, 2int,
    when n > 0
{
    |s: int|
        if rules.prune >= 1 && s < w.floor {
            Seq::empty()
        } else {
            flat(
                splits(w.res, price(free, w.lvls[s])).len() as int,
                chains_paying(rules, g, p, n, free, w, acc, s),
            )
        }
}

/// The same chains on one track, by how the next advance is paid for.
pub open spec fn chains_paying(
    rules: Rulebook,
    g: GameState,
    p: PlayerId,
    n: int,
    free: bool,
    w: Walk,
    acc: Seq<Effect>,
    s: int,
) -> spec_fn(int) -> Seq<Seq<Effect>>
    decreases n, 1int,
    when n > 0
{
    |i: int|
        {
            let pay = splits(w.res, price(free, w.lvls[s]))[i];
            if w.lvls[s] < 3 {
                chains(
                    rules,
                    g,
                    p,
                    n - 1,
                    free,
                    stepped(rules, w, s, pay),
                    (acc + settled(rules, w, pay, Seq::empty())).push(
                        Effect::AdvanceResearch(Science::at(s)),
                    ),
                )
            } else {
                flat(
                    top_list(rules, g, p, Science::at(s)).len() as int,
                    chains_gaining(rules, g, p, n, free, w, acc, s, pay),
                )
            }
        }
}

/// The same chains on one maxed track and one payment, by the payoff taken.
pub open spec fn chains_gaining(
    rules: Rulebook,
    g: GameState,
    p: PlayerId,
    n: int,
    free: bool,
    w: Walk,
    acc: Seq<Effect>,
    s: int,
    pay: Bundle,
) -> spec_fn(int) -> Seq<Seq<Effect>>
    decreases n, 0int,
    when n > 0
{
    |j: int|
        {
            let gain = top_list(rules, g, p, Science::at(s))[j];
            chains(
                rules,
                g,
                p,
                n - 1,
                free,
                topped(rules, w, s, pay, gain),
                acc + settled(rules, w, pay, gain) + gain,
            )
        }
}

/// Where a seat's chain of advances starts.
pub open spec fn walk_start(g: GameState, p: PlayerId) -> Walk {
    Walk {
        res: g.players[p.0 as int].res,
        lvls: g.research[p.0 as int],
        floor: 0,
        owed: empty_bundle(),
    }
}

/// `n` research advances, each on any track; `free` waives the block cost.
pub open spec fn research_list(
    rules: Rulebook,
    g: GameState,
    p: PlayerId,
    n: int,
    free: bool,
) -> Seq<Seq<Effect>> {
    collapsed(chains(rules, g, p, n, free, walk_start(g, p), Seq::empty()))
}

/// Whether a carried bill leaves room for `n` more advances.
spec fn bill_fits(owed: Bundle, n: int) -> bool {
    forall|i: int| 0 <= i < 4 ==> 0 <= #[trigger] owed[i] && owed[i] + 3 * n <= 120
}

fn spend(res: [u8; 4], pay: Bundle, Ghost(n): Ghost<int>) -> (out: [u8; 4])
    requires
        pays_exactly(res, n, pay),
    ensures
        out == spent(res, pay),
{
    let out: [u8; 4] = [
        (res[0] as i16 - pay[0] as i16) as u8,
        (res[1] as i16 - pay[1] as i16) as u8,
        (res[2] as i16 - pay[2] as i16) as u8,
        res[3],
    ];
    assert(out =~= spent(res, pay));
    out
}

fn owe(owed: Bundle, pay: Bundle, Ghost(n): Ghost<int>) -> (out: Bundle)
    requires
        n >= 1,
        bill_fits(owed, n),
        forall|i: int| 0 <= i < 3 ==> 0 <= #[trigger] pay[i] <= 3,
    ensures
        out == owing(owed, pay),
        bill_fits(out, n - 1),
{
    assert(owed[0] + 3 * n <= 120 && owed[1] + 3 * n <= 120 && owed[2] + 3 * n <= 120);
    assert(pay[0] <= 3 && pay[1] <= 3 && pay[2] <= 3);
    assert(pay[0] >= 0 && pay[1] >= 0 && pay[2] >= 0);
    assert(owed[0] >= 0 && owed[1] >= 0 && owed[2] >= 0 && owed[3] >= 0);
    assert(owed[3] + 3 * n <= 120);
    let out: Bundle = [owed[0] + pay[0], owed[1] + pay[1], owed[2] + pay[2], owed[3]];
    assert(out =~= owing(owed, pay));
    assert forall|i: int| 0 <= i < 4 implies 0 <= #[trigger] out[i] && out[i] + 3 * (n - 1)
        <= 120 by {}
    out
}

fn grant(res: [u8; 4], gain: &Choice) -> (out: [u8; 4])
    ensures
        out == granted(res, gain@),
{
    let mut out = res;
    let n: usize = gain.0.len();
    let mut i: usize = 0;
    assert(gain@.take(0) =~= Seq::empty());
    while i < n
        invariant
            i <= n,
            n == gain@.len(),
            out == granted(res, gain@.take(i as int)),
        decreases n - i,
    {
        let ghost o0 = out;
        proof {
            assert(gain@.take(i + 1).drop_last() =~= gain@.take(i as int));
        }
        if let Effect::Res(r, d) = gain.0.at(i) {
            let x: i32 = out[r.idx()] as i32 + d as i32;
            let y: i32 = if x < 0 {
                0
            } else {
                x
            };
            out[r.idx()] = (y % 256) as u8;
            proof {
                assert(out =~= spec_array_update(o0, r.rank(), (y % 256) as u8));
            }
        }
        i += 1;
    }
    assert(gain@.take(n as int) =~= gain@);
    out
}

fn grants_any(gain: &Choice) -> (b: bool)
    ensures
        b == reopens(gain@),
{
    let n: usize = gain.0.len();
    let mut i: usize = 0;
    while i < n
        invariant
            i <= n,
            n == gain@.len(),
            forall|j: int| 0 <= j < i ==> !((#[trigger] gain@[j]) is Res),
        decreases n - i,
    {
        if let Effect::Res(_, _) = gain.0.at(i) {
            assert(gain@[i as int] is Res);
            return true;
        }
        i += 1;
    }
    false
}

/// Add every chain of `n` more advances.
fn recurse(
    rules: &Rulebook,
    g: &GameState,
    p: PlayerId,
    n: u8,
    free: bool,
    w: Walk,
    acc: &Choice,
    out: &mut Vec<Choice>,
)
    requires
        p.ok(),
        bill_fits(w.owed, n as int),
        effects_ok(acc@),
        all_ok(views(old(out)@)),
    ensures
        views(final(out)@) == views(old(out)@) + chains(
            *rules,
            *g,
            p,
            n as int,
            free,
            w,
            acc@,
        ),
        all_ok(views(final(out)@)),
    decreases n, 3int,
{
    if n == 0 {
        let mut done = acc.clone();
        payment_effects(w.owed, &mut done);
        put(out, done);
        assert(views(out@) =~= views(old(out)@) + seq![acc@ + bill(w.owed)]);
        return;
    }
    let ghost f = chains_on(*rules, *g, p, n as int, free, w, acc@);
    let mut s: usize = 0;
    assert(views(out@) =~= views(old(out)@) + flat(0, f));
    while s < 4
        invariant
            effects_ok(acc@),
            all_ok(views(out@)),
            s <= 4,
            p.ok(),
            n > 0,
            bill_fits(w.owed, n as int),
            f == chains_on(*rules, *g, p, n as int, free, w, acc@),
            views(out@) == views(old(out)@) + flat(s as int, f),
        decreases 4 - s,
    {
        let ghost o1 = views(out@);
        if !(pruning_on(rules.prune) && s < w.floor) {
            recurse_on(rules, g, p, n, free, w, acc, s, out);
        }
        proof {
            assert(views(out@) =~= o1 + f(s as int));
            assert(views(out@) =~= views(old(out)@) + flat(s + 1, f));
        }
        s += 1;
    }
}

/// Add every chain whose next advance is on track `s`.
fn recurse_on(
    rules: &Rulebook,
    g: &GameState,
    p: PlayerId,
    n: u8,
    free: bool,
    w: Walk,
    acc: &Choice,
    s: usize,
    out: &mut Vec<Choice>,
)
    requires
        p.ok(),
        n > 0,
        s < 4,
        bill_fits(w.owed, n as int),
        effects_ok(acc@),
        all_ok(views(old(out)@)),
    ensures
        views(final(out)@) == views(old(out)@) + flat(
            splits(w.res, price(free, w.lvls[s as int])).len() as int,
            chains_paying(*rules, *g, p, n as int, free, w, acc@, s as int),
        ),
        all_ok(views(final(out)@)),
    decreases n, 2int,
{
    let lvl: u8 = w.lvls[s];
    let blocks: u8 = if free {
        0
    } else if lvl >= 3 {
        1
    } else {
        lvl + 1
    };
    let pays = pay_blocks(w.res, blocks);
    let ghost f = chains_paying(*rules, *g, p, n as int, free, w, acc@, s as int);
    let mut i: usize = 0;
    assert(views(out@) =~= views(old(out)@) + flat(0, f));
    while i < pays.len()
        invariant
            effects_ok(acc@),
            all_ok(views(out@)),
            i <= pays@.len(),
            p.ok(),
            n > 0,
            s < 4,
            lvl == w.lvls[s as int],
            blocks == price(free, lvl),
            blocks <= 3,
            bill_fits(w.owed, n as int),
            pays@ == splits(w.res, blocks as int),
            forall|j: int|
                0 <= j < pays@.len() ==> pays_exactly(w.res, blocks as int, #[trigger] pays@[j]),
            f == chains_paying(*rules, *g, p, n as int, free, w, acc@, s as int),
            views(out@) == views(old(out)@) + flat(i as int, f),
        decreases pays@.len() - i,
    {
        let ghost o1 = views(out@);
        let pay = pays[i];
        proof {
            assert(pays_exactly(w.res, blocks as int, pay));
            assert(pay[0] >= 0 && pay[1] >= 0 && pay[2] >= 0);
        }
        if lvl < 3 {
            let defer = pruning_on(rules.prune);
            let mut next = acc.clone();
            if !defer {
                payment_effects(pay, &mut next);
            }
            assert(next@ =~= acc@ + settled(*rules, w, pay, Seq::empty()));
            next.0.push(Effect::AdvanceResearch(Science::from_idx(s)));
            let mut lvls = w.lvls;
            lvls[s] = lvl + 1;
            assert(lvls =~= spec_array_update(w.lvls, s as int, (lvl + 1) as u8));
            let empty: Bundle = [0, 0, 0, 0];
            assert(empty =~= empty_bundle());
            let owed = if defer {
                owe(w.owed, pay, Ghost(n as int))
            } else {
                empty
            };
            let w2 = Walk { res: spend(w.res, pay, Ghost(blocks as int)), lvls, floor: s, owed };
            proof {
                lemma_bill_fits(w.owed, n as int);
                assert(w2 == stepped(*rules, w, s as int, pay));
            }
            recurse(rules, g, p, n - 1, free, w2, &next, out);
        } else {
            recurse_top(rules, g, p, n, free, w, acc, s, pay, Ghost(blocks as int), out);
        }
        proof {
            assert(views(out@) =~= o1 + f(i as int));
            assert(views(out@) =~= views(old(out)@) + flat(i + 1, f));
        }
        i += 1;
    }
}

/// A bill that has room for some advances fits, and so does an empty one.
proof fn lemma_bill_fits(owed: Bundle, n: int)
    requires
        bill_fits(owed, n),
    ensures
        3 * n <= 120,
        n <= 40 ==> bill_fits(empty_bundle(), n - 1),
{
    assert(owed[0] + 3 * n <= 120);
    let e = empty_bundle();
    assert forall|i: int| 0 <= i < 4 implies 0 <= #[trigger] e[i] && e[i] + 3 * (n - 1)
        <= 120 by {}
}

/// Add every chain that takes a payoff past the top of track `s` next.
fn recurse_top(
    rules: &Rulebook,
    g: &GameState,
    p: PlayerId,
    n: u8,
    free: bool,
    w: Walk,
    acc: &Choice,
    s: usize,
    pay: Bundle,
    Ghost(blocks): Ghost<int>,
    out: &mut Vec<Choice>,
)
    requires
        p.ok(),
        n > 0,
        s < 4,
        0 <= blocks <= 3,
        bill_fits(w.owed, n as int),
        pays_exactly(w.res, blocks, pay),
        effects_ok(acc@),
        all_ok(views(old(out)@)),
    ensures
        views(final(out)@) == views(old(out)@) + flat(
            top_list(*rules, *g, p, Science::at(s as int)).len() as int,
            chains_gaining(*rules, *g, p, n as int, free, w, acc@, s as int, pay),
        ),
        all_ok(views(final(out)@)),
    decreases n, 1int,
{
    let gains = top_payoffs(rules, g, p, Science::from_idx(s));
    let defer = pruning_on(rules.prune);
    let ghost f = chains_gaining(*rules, *g, p, n as int, free, w, acc@, s as int, pay);
    let empty: Bundle = [0, 0, 0, 0];
    assert(empty =~= empty_bundle());
    let mut j: usize = 0;
    assert(views(out@) =~= views(old(out)@) + flat(0, f));
    while j < gains.len()
        invariant
            effects_ok(acc@),
            all_ok(views(out@)),
            j <= gains@.len(),
            p.ok(),
            n > 0,
            s < 4,
            0 <= blocks <= 3,
            bill_fits(w.owed, n as int),
            pays_exactly(w.res, blocks, pay),
            defer == (rules.prune >= 1),
            empty == empty_bundle(),
            views(gains@) == top_list(*rules, *g, p, Science::at(s as int)),
            all_ok(views(gains@)),
            f == chains_gaining(*rules, *g, p, n as int, free, w, acc@, s as int, pay),
            views(out@) == views(old(out)@) + flat(j as int, f),
        decreases gains@.len() - j,
    {
        let ghost o1 = views(out@);
        let gain = &gains[j];
        assert(gain@ == top_list(*rules, *g, p, Science::at(s as int))[j as int]);
        assert(effects_ok(views(gains@)[j as int]));
        proof {
            assert(pay[0] >= 0 && pay[1] >= 0 && pay[2] >= 0);
            lemma_bill_fits(w.owed, n as int);
        }
        let reopen = grants_any(gain);
        let owed2 = owe(w.owed, pay, Ghost(n as int));
        let mut next = acc.clone();
        if !defer {
            payment_effects(pay, &mut next);
        } else if reopen {
            payment_effects(owed2, &mut next);
        }
        assert(next@ =~= acc@ + settled(*rules, w, pay, gain@));
        next.extend(gain);
        let w2 = Walk {
            res: grant(spend(w.res, pay, Ghost(blocks)), gain),
            lvls: w.lvls,
            floor: if reopen {
                0
            } else {
                s
            },
            owed: if defer && !reopen {
                owed2
            } else {
                empty
            },
        };
        assert(w2 == topped(*rules, w, s as int, pay, gain@));
        recurse(rules, g, p, n - 1, free, w2, &next, out);
        proof {
            assert(views(out@) =~= o1 + f(j as int));
            assert(views(out@) =~= views(old(out)@) + flat(j + 1, f));
        }
        j += 1;
    }
}

/// `n` research advances, each on any track; `free` waives the block cost.
pub fn research_choices(
    rules: &Rulebook,
    g: &GameState,
    p: PlayerId,
    n: u8,
    free: bool,
) -> (out: Vec<Choice>)
    requires
        p.ok(),
        n <= 40,
    ensures
        views(out@) == research_list(*rules, *g, p, n as int, free),
        all_ok(views(out@)),
{
    let mut out: Vec<Choice> = Vec::new();
    let empty: Bundle = [0, 0, 0, 0];
    assert(empty =~= empty_bundle());
    let w = Walk {
        res: g.players[p.idx()].res,
        lvls: g.research[p.idx()],
        floor: 0,
        owed: empty,
    };
    assert(w == walk_start(*g, p));
    let acc = Choice::new();
    recurse(rules, g, p, n, free, w, &acc, &mut out);
    proof {
        let want = chains(*rules, *g, p, n as int, free, walk_start(*g, p), Seq::empty());
        assert(views(out@) =~= want);
        lemma_collapsed_ok(want);
    }
    dedup_unordered(out)
}

/// One free advance on a named track: the payoff past the top if the track is
/// maxed, otherwise a plain advance.
pub open spec fn free_track_list(
    rules: Rulebook,
    g: GameState,
    p: PlayerId,
    s: Science,
) -> Seq<Seq<Effect>> {
    if g.lvl(p, s) >= 3 {
        top_list(rules, g, p, s)
    } else {
        seq![seq![Effect::AdvanceResearch(s)]]
    }
}

/// One free advance on a named track.
pub fn free_track(rules: &Rulebook, g: &GameState, p: PlayerId, s: Science) -> (out: Vec<Choice>)
    requires
        p.ok(),
    ensures
        views(out@) == free_track_list(*rules, *g, p, s),
        all_ok(views(out@)),
{
    if g.has_level(p, s, 3) {
        top_payoffs(rules, g, p, s)
    } else {
        just(Choice::one(Effect::AdvanceResearch(s)))
    }
}

// ---- monuments and the exchange ------------------------------------------

/// The choice of each face-up monument the seat can afford.
pub open spec fn monument_offers(
    rules: Rulebook,
    g: GameState,
    p: PlayerId,
) -> spec_fn(int) -> Seq<Seq<Effect>> {
    |i: int|
        {
            let id = shown(g.monuments_up@, 0)[i];
            let cost = rules.mdef(id).cost;
            only(
                g.players[p.0 as int].pays(cost),
                bill(cost).push(Effect::TakeMonument(id)),
            )
        }
}

/// Every face-up monument the seat can afford.
pub open spec fn monument_list(rules: Rulebook, g: GameState, p: PlayerId) -> Seq<Seq<Effect>> {
    flat(shown(g.monuments_up@, 0).len() as int, monument_offers(rules, g, p))
}

/// Every face-up monument the seat can afford.
pub fn monument_choices(rules: &Rulebook, g: &GameState, p: PlayerId) -> (out: Vec<Choice>)
    requires
        p.ok(),
        rules.ok(),
        g.ok(),
    ensures
        views(out@) == monument_list(*rules, *g, p),
        all_ok(views(out@)),
{
    let mut out: Vec<Choice> = Vec::new();
    let up = g.face_up_monuments();
    let ghost f = monument_offers(*rules, *g, p);
    proof {
        lemma_shown_ok_m(*g, 0);
    }
    let mut i: usize = 0;
    assert(views(out@) =~= flat(0, f));
    while i < up.len()
        invariant
            i <= up@.len(),
            p.ok(),
            rules.ok(),
            up@ == shown(g.monuments_up@, 0),
            forall|j: int| 0 <= j < up@.len() ==> (#[trigger] up@[j]).ok(),
            f == monument_offers(*rules, *g, p),
            views(out@) == flat(i as int, f),
            all_ok(views(out@)),
        decreases up@.len() - i,
    {
        let id = up[i];
        let ghost o1 = views(out@);
        assert(id.ok());
        let cost = rules.monument(id).cost;
        if g.players[p.idx()].can_pay(cost) {
            let mut c = Choice::new();
            payment_effects(cost, &mut c);
            c.0.push(Effect::TakeMonument(id));
            assert(c@ =~= bill(cost).push(Effect::TakeMonument(id)));
            put(&mut out, c);
        }
        proof {
            assert(views(out@) =~= o1 + f(i as int));
        }
        i += 1;
    }
    out
}

/// Every face-up monument is a card.
pub(crate) proof fn lemma_shown_ok_m(g: GameState, k: int)
    requires
        g.ok(),
        0 <= k <= 6,
    ensures
        forall|j: int|
            0 <= j < shown(g.monuments_up@, k).len() ==> (#[trigger] shown(
                g.monuments_up@,
                k,
            )[j]).ok(),
    decreases 6 - k,
{
    if k < 6 {
        lemma_shown_ok_m(g, k + 1);
        let up = g.monuments_up@;
        let rest = shown(up, k + 1);
        assert(up[k] == g.monuments_up[k]);
        assert forall|j: int| 0 <= j < shown(up, k).len() implies (#[trigger] shown(
            up,
            k,
        )[j]).ok() by {
            if up[k] is Some && j > 0 {
                assert(shown(up, k)[j] == rest[j - 1]);
            } else if up[k] is None {
                assert(shown(up, k)[j] == rest[j]);
            }
        }
    }
}

/// Every face-up building is a card.
pub(crate) proof fn lemma_shown_ok(g: GameState, k: int)
    requires
        g.ok(),
        0 <= k <= 6,
    ensures
        forall|j: int|
            0 <= j < shown(g.buildings_up@, k).len() ==> (#[trigger] shown(
                g.buildings_up@,
                k,
            )[j]).ok(),
    decreases 6 - k,
{
    if k < 6 {
        lemma_shown_ok(g, k + 1);
        let up = g.buildings_up@;
        let rest = shown(up, k + 1);
        assert(up[k] == g.buildings_up[k]);
        assert forall|j: int| 0 <= j < shown(up, k).len() implies (#[trigger] shown(
            up,
            k,
        )[j]).ok() by {
            if up[k] is Some && j > 0 {
                assert(shown(up, k)[j] == rest[j - 1]);
            } else if up[k] is None {
                assert(shown(up, k)[j] == rest[j]);
            }
        }
    }
}

/// What a block is worth in corn: wood two, stone three, gold four.
pub open spec fn worth(i: int) -> int {
    i + 2
}

/// Every way to spend up to `budget` corn on the kinds from `idx` on.
pub open spec fn buys_from(budget: int, idx: int, cur: [u8; 3]) -> Seq<[u8; 3]>
    decreases 3 - idx, 1int,
{
    if idx >= 3 {
        seq![cur]
    } else {
        flat(1 + budget / worth(idx), buys_taking(budget, idx, cur))
    }
}

/// The same ways to spend, by how many blocks of kind `idx` they buy.
pub open spec fn buys_taking(budget: int, idx: int, cur: [u8; 3]) -> spec_fn(int) -> Seq<[u8; 3]>
    decreases 3 - idx, 0int,
    when idx < 3
{
    |take: int|
        buys_from(budget - take * worth(idx), idx + 1, spec_array_update(cur, idx, take as u8))
}

/// Corn got for blocks sold.
pub open spec fn proceeds(sold: [u8; 3]) -> int {
    sold[0] * 2 + sold[1] * 3 + sold[2] * 4
}

/// How many of one kind a trade moves, as the effect that carries it holds it.
pub open spec fn net_of(sold: [u8; 3], buy: [u8; 3], i: int) -> i8 {
    (buy[i] - sold[i]) as i8
}

/// The effects of selling some blocks and buying others.
pub open spec fn trade(sold: [u8; 3], buy: [u8; 3]) -> Seq<Effect> {
    let net = proceeds(sold) - proceeds(buy);
    only(net_of(sold, buy, 0) != 0, Effect::Res(Resource::Wood, net_of(sold, buy, 0))) + only(
        net_of(sold, buy, 1) != 0,
        Effect::Res(Resource::Stone, net_of(sold, buy, 1)),
    ) + only(net_of(sold, buy, 2) != 0, Effect::Res(Resource::Gold, net_of(sold, buy, 2))) + only(
        net != 0,
        Effect::Corn(net as i16),
    )
}

/// Whether a trade buys back a kind it sells, which is legal but pointless.
pub open spec fn buys_back(sold: [u8; 3], buy: [u8; 3]) -> bool {
    ||| sold[0] > 0 && buy[0] > 0
    ||| sold[1] > 0 && buy[1] > 0
    ||| sold[2] > 0 && buy[2] > 0
}

/// The corn a trade can draw on, as far as a byte counts.
pub open spec fn purse(corn: u8, sold: [u8; 3]) -> int {
    if corn + proceeds(sold) > 255 {
        255
    } else {
        corn + proceeds(sold)
    }
}

/// The trades that sell one bundle, by what they buy.
pub open spec fn trades_buying(corn: u8, sold: [u8; 3]) -> spec_fn(int) -> Seq<Seq<Effect>> {
    |i: int|
        {
            let buy = buys_from(purse(corn, sold), 0, [0u8, 0u8, 0u8])[i];
            only(!buys_back(sold, buy), trade(sold, buy))
        }
}

/// Every trade that sells one bundle.
pub open spec fn trades_selling(corn: u8, sold: [u8; 3]) -> Seq<Seq<Effect>> {
    flat(
        buys_from(purse(corn, sold), 0, [0u8, 0u8, 0u8]).len() as int,
        trades_buying(corn, sold),
    )
}

/// Trades by gold sold.
pub open spec fn trades_gold(pl: Player, w: int, st: int) -> spec_fn(int) -> Seq<Seq<Effect>> {
    |gd: int| trades_selling(pl.corn, [w as u8, st as u8, gd as u8])
}

/// Trades by stone sold, and then gold.
pub open spec fn trades_stone(pl: Player, w: int) -> spec_fn(int) -> Seq<Seq<Effect>> {
    |st: int| flat(1 + pl.res[2], trades_gold(pl, w, st))
}

/// Trades by wood sold, then stone, then gold.
pub open spec fn trades_wood(pl: Player) -> spec_fn(int) -> Seq<Seq<Effect>> {
    |w: int| flat(1 + pl.res[1], trades_stone(pl, w))
}

/// Every way to sell some of what is held, crossed with every way to spend the
/// proceeds. Doing nothing is among them.
pub open spec fn exchange_list(g: GameState, p: PlayerId) -> Seq<Seq<Effect>> {
    let pl = g.players[p.0 as int];
    collapsed(flat(1 + pl.res[0], trades_wood(pl)))
}

fn buy_rest(budget: u8, idx: usize, cur: [u8; 3], out: &mut Vec<[u8; 3]>)
    requires
        idx <= 3,
        forall|i: int| 0 <= i < 3 ==> #[trigger] cur[i] <= 127,
    ensures
        final(out)@ == old(out)@ + buys_from(budget as int, idx as int, cur),
    decreases 3 - idx,
{
    if idx == 3 {
        out.push(cur);
        assert(out@ =~= old(out)@ + seq![cur]);
        return;
    }
    let price: u8 = idx as u8 + 2;
    let most: u8 = budget / price;
    assert(most <= 127) by (nonlinear_arith)
        requires
            most == budget / price,
            price >= 2,
    ;
    let ghost f = buys_taking(budget as int, idx as int, cur);
    let mut take: u8 = 0;
    assert(out@ =~= old(out)@ + flat(0, f));
    while take <= most
        invariant
            idx < 3,
            price == worth(idx as int),
            most == budget / price,
            take <= most + 1,
            most <= 127,
            forall|i: int| 0 <= i < 3 ==> #[trigger] cur[i] <= 127,
            f == buys_taking(budget as int, idx as int, cur),
            out@ == old(out)@ + flat(take as int, f),
        decreases most + 1 - take,
    {
        let mut c = cur;
        c[idx] = take;
        assert(c =~= spec_array_update(cur, idx as int, take));
        assert(take * price <= budget) by (nonlinear_arith)
            requires
                take <= most,
                most == budget / price,
                price >= 2,
        ;
        let ghost o1 = out@;
        buy_rest(budget - take * price, idx + 1, c, out);
        proof {
            assert(out@ == o1 + f(take as int));
            assert(out@ =~= old(out)@ + flat(take + 1, f));
        }
        take += 1;
    }
}

/// Add every trade that sells one bundle.
fn sell(corn: u8, sold: [u8; 3], out: &mut Vec<Choice>)
    requires
        all_ok(views(old(out)@)),
    ensures
        views(final(out)@) == views(old(out)@) + trades_selling(corn, sold),
        all_ok(views(final(out)@)),
{
    let gained: u32 = sold[0] as u32 * 2 + sold[1] as u32 * 3 + sold[2] as u32 * 4;
    let budget: u8 = if corn as u32 + gained > 255 {
        255
    } else {
        (corn as u32 + gained) as u8
    };
    let mut bought: Vec<[u8; 3]> = Vec::new();
    let none: [u8; 3] = [0, 0, 0];
    assert(none =~= [0u8, 0u8, 0u8]);
    buy_rest(budget, 0, none, &mut bought);
    let ghost all = buys_from(purse(corn, sold), 0, [0u8, 0u8, 0u8]);
    assert(bought@ =~= all);
    let ghost f = trades_buying(corn, sold);
    let mut i: usize = 0;
    assert(views(out@) =~= views(old(out)@) + flat(0, f));
    while i < bought.len()
        invariant
            i <= bought@.len(),
            gained == proceeds(sold),
            bought@ == all,
            all == buys_from(purse(corn, sold), 0, [0u8, 0u8, 0u8]),
            f == trades_buying(corn, sold),
            views(out@) == views(old(out)@) + flat(i as int, f),
            all_ok(views(out@)),
        decreases bought@.len() - i,
    {
        let buy = bought[i];
        let ghost o1 = views(out@);
        let back = (sold[0] > 0 && buy[0] > 0) || (sold[1] > 0 && buy[1] > 0) || (sold[2] > 0
            && buy[2] > 0);
        if !back {
            let spent: u32 = buy[0] as u32 * 2 + buy[1] as u32 * 3 + buy[2] as u32 * 4;
            let net: i32 = gained as i32 - spent as i32;
            let a: i8 = (buy[0] as i16 - sold[0] as i16) as i8;
            let b: i8 = (buy[1] as i16 - sold[1] as i16) as i8;
            let d: i8 = (buy[2] as i16 - sold[2] as i16) as i8;
            let mut c = Choice::new();
            if a != 0 {
                c.0.push(Effect::Res(Resource::Wood, a));
            }
            if b != 0 {
                c.0.push(Effect::Res(Resource::Stone, b));
            }
            if d != 0 {
                c.0.push(Effect::Res(Resource::Gold, d));
            }
            if net != 0 {
                c.0.push(Effect::Corn(net as i16));
            }
            assert(c@ =~= trade(sold, buy));
            put(out, c);
        }
        proof {
            assert(views(out@) =~= o1 + f(i as int));
            assert(views(out@) =~= views(old(out)@) + flat(i + 1, f));
        }
        i += 1;
    }
}

/// Exchange corn and blocks, in either direction.
///
/// The table is symmetric: wood is worth two corn, stone three, gold four. A
/// seat may sell blocks for corn, buy blocks with corn, or do both at once.
pub fn corn_exchange(g: &GameState, p: PlayerId) -> (out: Vec<Choice>)
    requires
        p.ok(),
    ensures
        views(out@) == exchange_list(*g, p),
        all_ok(views(out@)),
{
    let pl = g.players[p.idx()];
    let mut out: Vec<Choice> = Vec::new();
    let ghost fw = trades_wood(pl);
    let mut w: u16 = 0;
    assert(views(out@) =~= flat(0, fw));
    while w <= pl.res[0] as u16
        invariant
            w <= pl.res[0] + 1,
            fw == trades_wood(pl),
            views(out@) == flat(w as int, fw),
            all_ok(views(out@)),
        decreases pl.res[0] + 1 - w,
    {
        let ghost ow = views(out@);
        let ghost fs = trades_stone(pl, w as int);
        let mut st: u16 = 0;
        assert(views(out@) =~= ow + flat(0, fs));
        while st <= pl.res[1] as u16
            invariant
                w <= pl.res[0],
                st <= pl.res[1] + 1,
                fs == trades_stone(pl, w as int),
                views(out@) == ow + flat(st as int, fs),
                all_ok(views(out@)),
            decreases pl.res[1] + 1 - st,
        {
            let ghost os = views(out@);
            let ghost fg = trades_gold(pl, w as int, st as int);
            let mut gd: u16 = 0;
            assert(views(out@) =~= os + flat(0, fg));
            while gd <= pl.res[2] as u16
                invariant
                    w <= pl.res[0],
                    st <= pl.res[1],
                    gd <= pl.res[2] + 1,
                    fg == trades_gold(pl, w as int, st as int),
                    views(out@) == os + flat(gd as int, fg),
                    all_ok(views(out@)),
                decreases pl.res[2] + 1 - gd,
            {
                let ghost og = views(out@);
                let sold: [u8; 3] = [w as u8, st as u8, gd as u8];
                sell(pl.corn, sold, &mut out);
                proof {
                    assert(sold =~= [w as u8, st as u8, gd as u8]);
                    assert(views(out@) == og + fg(gd as int));
                    assert(views(out@) =~= os + flat(gd + 1, fg));
                }
                gd += 1;
            }
            proof {
                assert(views(out@) == os + fs(st as int));
                assert(views(out@) =~= ow + flat(st + 1, fs));
            }
            st += 1;
        }
        proof {
            assert(views(out@) == ow + fw(w as int));
        }
        w += 1;
    }
    proof {
        lemma_collapsed_ok(views(out@));
    }
    dedup_unordered(out)
}

// ---- buildings -----------------------------------------------------------

/// A cost with one block of kind `r` knocked off, where it asks for one.
pub open spec fn discounts(pl: Player, cost: Bundle) -> spec_fn(int) -> Seq<Bundle> {
    |r: int|
        {
            let less = spec_array_update(cost, r, (cost[r] - 1) as i8);
            only(cost[r] > 0 && pl.pays(less), less)
        }
}

/// What a seat may pay for a card: every one-block discount the architecture
/// track allows, or the listed cost when it allows none. Declining a discount
/// is no decision, so the full price beside one is offered only unpruned.
pub open spec fn costs_list(
    rules: Rulebook,
    g: GameState,
    p: PlayerId,
    cost: Bundle,
    discount: bool,
) -> Seq<Bundle> {
    let pl = g.players[p.0 as int];
    let v = only(rules.prune == 0 && pl.pays(cost), cost) + if discount && g.lvl(
        p,
        Science::Architecture,
    ) >= 3 {
        flat(3, discounts(pl, cost))
    } else {
        Seq::empty()
    };
    if v.len() == 0 {
        only(pl.pays(cost), cost)
    } else {
        v
    }
}

fn affordable_costs(
    rules: &Rulebook,
    g: &GameState,
    p: PlayerId,
    cost: Bundle,
    discount: bool,
) -> (out: Vec<Bundle>)
    requires
        p.ok(),
        cost_ok(cost),
    ensures
        out@ == costs_list(*rules, *g, p, cost, discount),
{
    let pl = g.players[p.idx()];
    let mut out: Vec<Bundle> = Vec::new();
    if !pruning_on(rules.prune) && pl.can_pay(cost) {
        out.push(cost);
    }
    let ghost first = only(rules.prune == 0 && pl.pays(cost), cost);
    assert(out@ =~= first);
    if discount && g.builder(p) {
        let ghost f = discounts(pl, cost);
        let mut r: usize = 0;
        assert(out@ =~= first + flat(0, f));
        while r < 3
            invariant
                r <= 3,
                cost_ok(cost),
                f == discounts(pl, cost),
                out@ == first + flat(r as int, f),
            decreases 3 - r,
        {
            let ghost o1 = out@;
            if cost[r] > 0 {
                let mut c = cost;
                c[r] = cost[r] - 1;
                assert(c =~= spec_array_update(cost, r as int, (cost[r as int] - 1) as i8));
                if pl.can_pay(c) {
                    out.push(c);
                }
            }
            proof {
                assert(out@ =~= o1 + f(r as int));
                assert(out@ =~= first + flat(r + 1, f));
            }
            r += 1;
        }
    }
    proof {
        let v = first + if discount && g.lvl(p, Science::Architecture) >= 3 {
            flat(3, discounts(pl, cost))
        } else {
            Seq::empty()
        };
        assert(out@ =~= v);
    }
    if out.len() == 0 && pl.can_pay(cost) {
        out.push(cost);
    }
    assert(out@ =~= costs_list(*rules, *g, p, cost, discount));
    out
}

/// The effects of building a card before its payoff: the cost, the card, and
/// the architecture bonus where it applies.
pub open spec fn build_base(
    g: GameState,
    p: PlayerId,
    id: BuildingId,
    cost: Bundle,
    bonus: bool,
) -> Seq<Effect> {
    bill(cost).push(Effect::Build(id)) + if bonus {
        bonus_list(g, p)
    } else {
        Seq::empty()
    }
}

/// Every way to construct one of the face-up buildings.
pub open spec fn building_list(
    rules: Rulebook,
    g: GameState,
    p: PlayerId,
    exclude: Option<BuildingId>,
    bonus: bool,
    depth: nat,
) -> Seq<Seq<Effect>>
    decreases depth, 6int,
{
    sorted_unique(
        flat(
            shown(g.buildings_up@, 0).len() as int,
            builds_of(rules, g, p, exclude, bonus, depth),
        ),
    )
}

/// The same constructions, by the card built.
pub open spec fn builds_of(
    rules: Rulebook,
    g: GameState,
    p: PlayerId,
    exclude: Option<BuildingId>,
    bonus: bool,
    depth: nat,
) -> spec_fn(int) -> Seq<Seq<Effect>>
    decreases depth, 5int,
{
    |i: int|
        {
            let id = shown(g.buildings_up@, 0)[i];
            if exclude == Some(id) {
                Seq::empty()
            } else {
                flat(
                    costs_list(rules, g, p, rules.bdef(id).cost, bonus).len() as int,
                    builds_for(rules, g, p, id, bonus, depth),
                )
            }
        }
}

/// The constructions of one card, by what is paid. The payoff is expanded
/// against the position with the cost already paid and the card taken, so
/// anything it spends is checked against what is left.
pub open spec fn builds_for(
    rules: Rulebook,
    g: GameState,
    p: PlayerId,
    id: BuildingId,
    bonus: bool,
    depth: nat,
) -> spec_fn(int) -> Seq<Seq<Effect>>
    decreases depth, 4int,
{
    |k: int|
        {
            let cost = costs_list(rules, g, p, rules.bdef(id).cost, bonus)[k];
            let base = build_base(g, p, id, cost, bonus);
            each_after(
                base,
                payoff_list(
                    rules,
                    after_all(rules, g, p, base),
                    p,
                    id,
                    rules.bdef(id).payoff,
                    depth,
                ),
            )
        }
}

/// A second building with a step on each temple the seat can climb.
pub open spec fn stepped_on(
    rules: Rulebook,
    g: GameState,
    p: PlayerId,
    second: Seq<Effect>,
) -> spec_fn(int) -> Seq<Seq<Effect>> {
    |t: int|
        only(
            can_step(rules, g, p, Temple::at(t), 1),
            second.push(Effect::TempleStep(Temple::at(t), 1)),
        )
}

/// A second building with its temple step; with none to climb the step is
/// wasted, but the build still happens.
pub open spec fn with_step(
    rules: Rulebook,
    g: GameState,
    p: PlayerId,
    seconds: Seq<Seq<Effect>>,
) -> spec_fn(int) -> Seq<Seq<Effect>> {
    |i: int|
        {
            let v = flat(3, stepped_on(rules, g, p, seconds[i]));
            if v.len() == 0 {
                seq![seconds[i]]
            } else {
                v
            }
        }
}

/// The concrete choices a building's payoff offers. Another building is built
/// with the architecture bonus, as any that is not half of a double build. The
/// mirror is a privilege, not a cost, so its bare tail is always on offer beside
/// the mirrored actions.
pub open spec fn payoff_list(
    rules: Rulebook,
    g: GameState,
    p: PlayerId,
    self_id: BuildingId,
    payoff: Payoff,
    depth: nat,
) -> Seq<Seq<Effect>>
    decreases depth, 3int,
{
    match payoff {
        Payoff::Fixed(v) => seq![v@],
        Payoff::FreeTrack(s, tail) => each_then(free_track_list(rules, g, p, s), tail@),
        Payoff::FreeAny(n, tail) => each_then(
            research_list(rules, g, p, n as int, true),
            tail@,
        ),
        Payoff::BuildAnother => if depth == 0 {
            seq![Seq::<Effect>::empty()]
        } else {
            let seconds = building_list(rules, g, p, Some(self_id), true, (depth - 1) as nat);
            or_skip_list(flat(seconds.len() as int, with_step(rules, g, p, seconds)))
        },
        Payoff::CornExchange(tail) => each_then(exchange_list(g, p), tail@),
        Payoff::Mirror(tail) => each_then(mirror_list(rules, g, p, depth), tail@).push(tail@),
    }
}

/// Every way to construct one of the face-up buildings.
///
/// `exclude` skips a card mid-way through a double build. `bonus` applies the
/// architecture-track reward, which the second half of the double build of a
/// gear's space does not get, unless the first half raised the track. A building
/// that a card's payoff hands out is a construction of its own, and gets it.
pub fn building_choices(
    rules: &Rulebook,
    g: &GameState,
    p: PlayerId,
    exclude: Option<BuildingId>,
    bonus: bool,
    depth: u8,
) -> (out: Vec<Choice>)
    requires
        p.ok(),
        rules.ok(),
        g.ok(),
    ensures
        views(out@) == building_list(*rules, *g, p, exclude, bonus, depth as nat),
        all_ok(views(out@)),
    decreases depth, 6int,
{
    let mut out: Vec<Choice> = Vec::new();
    let up = g.face_up_buildings();
    let ghost f = builds_of(*rules, *g, p, exclude, bonus, depth as nat);
    proof {
        lemma_shown_ok(*g, 0);
    }
    let mut i: usize = 0;
    assert(views(out@) =~= flat(0, f));
    while i < up.len()
        invariant
            i <= up@.len(),
            p.ok(),
            rules.ok(),
            g.ok(),
            up@ == shown(g.buildings_up@, 0),
            forall|j: int| 0 <= j < up@.len() ==> (#[trigger] up@[j]).ok(),
            f == builds_of(*rules, *g, p, exclude, bonus, depth as nat),
            views(out@) == flat(i as int, f),
            all_ok(views(out@)),
        decreases up@.len() - i,
    {
        let id = up[i];
        let ghost o1 = views(out@);
        assert(id.ok());
        let skip = match exclude {
            Some(x) => x == id,
            None => false,
        };
        if !skip {
            build_card(rules, g, p, id, bonus, depth, &mut out);
        }
        proof {
            assert(views(out@) =~= o1 + f(i as int));
        }
        i += 1;
    }
    proof {
        lemma_sorted_ok(views(out@));
    }
    dedup(out)
}

/// Add every way to construct one card.
fn build_card(
    rules: &Rulebook,
    g: &GameState,
    p: PlayerId,
    id: BuildingId,
    bonus: bool,
    depth: u8,
    out: &mut Vec<Choice>,
)
    requires
        p.ok(),
        rules.ok(),
        g.ok(),
        id.ok(),
        all_ok(views(old(out)@)),
    ensures
        views(final(out)@) == views(old(out)@) + flat(
            costs_list(*rules, *g, p, rules.bdef(id).cost, bonus).len() as int,
            builds_for(*rules, *g, p, id, bonus, depth as nat),
        ),
        all_ok(views(final(out)@)),
    decreases depth, 5int,
{
    let d = rules.building(id);
    let costs = affordable_costs(rules, g, p, d.cost, bonus);
    let ghost f = builds_for(*rules, *g, p, id, bonus, depth as nat);
    let mut k: usize = 0;
    assert(views(out@) =~= views(old(out)@) + flat(0, f));
    while k < costs.len()
        invariant
            k <= costs@.len(),
            p.ok(),
            rules.ok(),
            g.ok(),
            id.ok(),
            *d == rules.bdef(id),
            d.payoff.ok(),
            costs@ == costs_list(*rules, *g, p, rules.bdef(id).cost, bonus),
            f == builds_for(*rules, *g, p, id, bonus, depth as nat),
            views(out@) == views(old(out)@) + flat(k as int, f),
            all_ok(views(out@)),
        decreases costs@.len() - k,
    {
        let ghost o1 = views(out@);
        let mut base = Choice::new();
        payment_effects(costs[k], &mut base);
        base.0.push(Effect::Build(id));
        if bonus {
            let extra = Choice(g.build_bonus(p));
            base.extend(&extra);
        }
        assert(base@ =~= build_base(*g, p, id, costs@[k as int], bonus));
        let mut probe = *g;
        base.apply(rules, &mut probe, p);
        proof {
            choices_keep_positions_sound(*rules, *g, p, base@);
        }
        let tails = expand_payoff(rules, &probe, p, id, &d.payoff, depth);
        let built = lead_each(&base, &tails);
        proof {
            assert forall|i: int| 0 <= i < views(built@).len() implies effects_ok(
                #[trigger] views(built@)[i],
            ) by {
                assert(effects_ok(views(tails@)[i]));
            }
        }
        put_all(out, &built);
        proof {
            assert(views(out@) =~= o1 + f(k as int));
            assert(views(out@) =~= views(old(out)@) + flat(k + 1, f));
        }
        k += 1;
    }
}

/// A list with a sound tail behind each choice stays sound.
pub(crate) proof fn lemma_each_then_ok(s: Seq<Seq<Effect>>, tail: Seq<Effect>)
    requires
        all_ok(s),
        effects_ok(tail),
    ensures
        all_ok(each_then(s, tail)),
{
    assert forall|i: int| 0 <= i < s.len() implies effects_ok(
        #[trigger] each_then(s, tail)[i],
    ) by {
        assert(effects_ok(s[i]));
    }
}

/// Turn a building's payoff into the concrete choices it offers.
pub fn expand_payoff(
    rules: &Rulebook,
    g: &GameState,
    p: PlayerId,
    self_id: BuildingId,
    payoff: &Payoff,
    depth: u8,
) -> (out: Vec<Choice>)
    requires
        p.ok(),
        rules.ok(),
        g.ok(),
        payoff.ok(),
    ensures
        views(out@) == payoff_list(*rules, *g, p, self_id, *payoff, depth as nat),
        all_ok(views(out@)),
    decreases depth, 3int,
{
    match payoff {
        Payoff::Fixed(v) => {
            let c = Choice::of(v.as_slice());
            just(c)
        },
        Payoff::FreeTrack(s, v) => {
            let tail = Choice::of(v.as_slice());
            let list = free_track(rules, g, p, *s);
            proof {
                lemma_each_then_ok(views(list@), tail@);
            }
            chain_each(&list, &tail)
        },
        Payoff::FreeAny(n, v) => {
            let tail = Choice::of(v.as_slice());
            let list = research_choices(rules, g, p, *n, true);
            proof {
                lemma_each_then_ok(views(list@), tail@);
            }
            chain_each(&list, &tail)
        },
        Payoff::BuildAnother => {
            if depth == 0 {
                return just(Choice::skip());
            }
            let seconds = building_choices(rules, g, p, Some(self_id), true, depth - 1);
            let out = step_each(rules, g, p, &seconds);
            or_skip(out)
        },
        Payoff::CornExchange(v) => {
            let tail = Choice::of(v.as_slice());
            let list = corn_exchange(g, p);
            proof {
                lemma_each_then_ok(views(list@), tail@);
            }
            chain_each(&list, &tail)
        },
        Payoff::Mirror(v) => {
            let tail = Choice::of(v.as_slice());
            let list = mirror_choices(rules, g, p, depth);
            proof {
                lemma_each_then_ok(views(list@), tail@);
            }
            let mut out = chain_each(&list, &tail);
            put(&mut out, tail);
            out
        },
    }
}

/// Every second building with its temple step.
fn step_each(rules: &Rulebook, g: &GameState, p: PlayerId, seconds: &Vec<Choice>) -> (out: Vec<
    Choice,
>)
    requires
        p.ok(),
        all_ok(views(seconds@)),
    ensures
        views(out@) == flat(
            seconds@.len() as int,
            with_step(*rules, *g, p, views(seconds@)),
        ),
        all_ok(views(out@)),
{
    let ghost s = views(seconds@);
    let ghost f = with_step(*rules, *g, p, s);
    let mut out: Vec<Choice> = Vec::new();
    let mut i: usize = 0;
    assert(views(out@) =~= flat(0, f));
    while i < seconds.len()
        invariant
            i <= seconds@.len(),
            p.ok(),
            s == views(seconds@),
            all_ok(s),
            f == with_step(*rules, *g, p, s),
            views(out@) == flat(i as int, f),
            all_ok(views(out@)),
        decreases seconds@.len() - i,
    {
        let ghost o1 = views(out@);
        let ghost ft = stepped_on(*rules, *g, p, s[i as int]);
        assert(effects_ok(s[i as int]));
        let mut t: usize = 0;
        assert(views(out@) =~= o1 + flat(0, ft));
        while t < 3
            invariant
                t <= 3,
                i < seconds@.len(),
                p.ok(),
                s == views(seconds@),
                effects_ok(s[i as int]),
                ft == stepped_on(*rules, *g, p, s[i as int]),
                views(out@) == o1 + flat(t as int, ft),
                all_ok(views(out@)),
            decreases 3 - t,
        {
            let ghost o2 = views(out@);
            let temple = Temple::from_idx(t);
            if g.can_temple_step(rules, p, temple, 1) {
                put(&mut out, seconds[i].clone().with(Effect::TempleStep(temple, 1)));
            }
            proof {
                assert(views(out@) =~= o2 + ft(t as int));
                assert(views(out@) =~= o1 + flat(t + 1, ft));
            }
            t += 1;
        }
        let ghost o3 = views(out@);
        if !(g.can_temple_step(rules, p, Temple::Brown, 1) || g.can_temple_step(
            rules,
            p,
            Temple::Yellow,
            1,
        ) || g.can_temple_step(rules, p, Temple::Green, 1)) {
            put(&mut out, seconds[i].clone());
        }
        proof {
            reveal_with_fuel(flat, 4);
            assert(views(out@) =~= o1 + f(i as int));
        }
        i += 1;
    }
    out
}

/// How many monument cards there are.
pub fn n_monuments(rules: &Rulebook) -> (n: usize)
    ensures
        n == rules.monuments@.len(),
{
    rules.monuments.len()
}

} // verus!
