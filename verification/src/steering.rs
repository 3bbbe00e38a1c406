//! Where a choice leads: the lines it cannot set back.

use crate::book::{effects_ok, Rulebook};
use crate::effect::{after, after_all, locked_from, Effect};
use crate::ids::{Gear, PlayerId, Science, Temple};
use crate::plan::{
    bits_set, climb, days_left, is_spare, larger, nothing, progress, reach, scoring_age, share,
    soonest, temple_part, Fraction, Line,
};
use crate::state::{temple_after, GameState, WorkerLoc};
use vstd::prelude::*;

verus! {

/// Whether a position has all a seat's lines are built on that another has:
/// the same day, no worker gone, and no less research, building or climbing.
pub open spec fn builds_on(g: GameState, h: GameState, p: PlayerId) -> bool {
    let (a, b) = (g.players[p.0 as int], h.players[p.0 as int]);
    &&& h.day == g.day
    &&& forall|i: int|
        0 <= i < 24 ==> (#[trigger] h.workers[i]) == g.workers[i] || (g.workers[i]
            == WorkerLoc::Locked && h.workers[i] == WorkerLoc::Available)
    &&& h.lvl(p, Science::Architecture) >= g.lvl(p, Science::Architecture)
    &&& bits_set(b.buildings as nat) >= bits_set(a.buildings as nat)
    &&& bits_set(b.monuments as nat) >= bits_set(a.monuments as nat)
}

/// Whether a seat stands no lower on any temple.
pub open spec fn climbs_on(g: GameState, h: GameState, p: PlayerId) -> bool {
    h.day == g.day && forall|t: Temple|
        h.temples[#[trigger] t.rank()][p.0 as int] >= g.temples[t.rank()][p.0 as int]
}

/// Marking more never leaves fewer marks.
proof fn lemma_more_bits(x: u32, m: u32)
    ensures
        bits_set((x | m) as nat) >= bits_set(x as nat),
    decreases x as nat + m as nat,
{
    let y = x | m;
    if x == 0 && m == 0 {
        assert(0u32 | 0u32 == 0u32) by (bit_vector);
    } else {
        assert((x | m) / 2 == (x / 2) | (m / 2)) by (bit_vector);
        assert((x | m) % 2 >= x % 2) by (bit_vector);
        lemma_more_bits(x / 2, m / 2);
        if y == 0 {
            assert((x | m) == 0u32 ==> x == 0u32) by (bit_vector);
        }
    }
}

proof fn lemma_more_bits_short(x: u16, m: u16)
    ensures
        bits_set((x | m) as nat) >= bits_set(x as nat),
{
    let (a, b) = (x as u32, m as u32);
    assert((x | m) as u32 == (x as u32) | (m as u32)) by (bit_vector);
    lemma_more_bits(a, b);
}

proof fn lemma_locked(g: GameState, p: PlayerId, k: int)
    requires
        p.ok(),
        0 <= k <= 6,
    ensures
        locked_from(g, p, k) matches Some(w) ==> 0 <= w < 24 && g.workers[w] == WorkerLoc::Locked,
    decreases 6 - k,
{
    if k < 6 && g.workers[6 * p.0 + k] != WorkerLoc::Locked {
        lemma_locked(g, p, k + 1);
    }
}

/// No effect takes away what building is built on.
proof fn lemma_builds_on(rules: Rulebook, g: GameState, p: PlayerId, e: Effect)
    requires
        p.ok(),
        e.ok(),
    ensures
        builds_on(g, after(rules, g, p, e), p),
{
    reveal(after);
    let h = after(rules, g, p, e);
    let a = g.players[p.0 as int];
    match e {
        Effect::Build(id) => {
            lemma_more_bits(a.buildings, 1u32 << ((id.0 - 1) as u32));
        },
        Effect::TakeMonument(id) => {
            lemma_more_bits_short(a.monuments, 1u16 << ((id.0 - 1) as u16));
        },
        Effect::UnlockWorker => {
            lemma_locked(g, p, 0);
        },
        _ => {},
    }
}

/// No effect but a step down takes a seat down a temple.
proof fn lemma_climbs_on(rules: Rulebook, g: GameState, p: PlayerId, e: Effect)
    requires
        p.ok(),
        e matches Effect::TempleStep(t, n) ==> n >= 0,
    ensures
        climbs_on(g, after(rules, g, p, e), p),
{
    reveal(after);
    let h = after(rules, g, p, e);
    assert forall|t: Temple| h.temples[#[trigger] t.rank()][p.0 as int]
        >= g.temples[t.rank()][p.0 as int] by {
        if let Effect::TempleStep(u, n) = e {
            assert(temple_after(rules, g, p, u, n as int) >= g.temples[u.rank()][p.0 as int]);
            assert(temple_after(rules, g, p, u, n as int) <= 255);
        }
    }
}

proof fn lemma_builds_on_all(rules: Rulebook, g: GameState, p: PlayerId, s: Seq<Effect>)
    requires
        p.ok(),
        effects_ok(s),
    ensures
        builds_on(g, after_all(rules, g, p, s), p),
    decreases s.len(),
{
    if s.len() > 0 {
        let d = s.drop_last();
        lemma_builds_on_all(rules, g, p, d);
        let m = after_all(rules, g, p, d);
        assert(s[s.len() - 1].ok());
        lemma_builds_on(rules, m, p, s.last());
        let h = after(rules, m, p, s.last());
        assert forall|i: int| 0 <= i < 24 implies (#[trigger] h.workers[i]) == g.workers[i] || (
        g.workers[i] == WorkerLoc::Locked && h.workers[i] == WorkerLoc::Available) by {
            assert(m.workers[i] == g.workers[i] || (g.workers[i] == WorkerLoc::Locked
                && m.workers[i] == WorkerLoc::Available));
        }
    }
}

proof fn lemma_climbs_on_all(rules: Rulebook, g: GameState, p: PlayerId, s: Seq<Effect>)
    requires
        p.ok(),
        forall|i: int| 0 <= i < s.len() ==> (#[trigger] s[i] matches Effect::TempleStep(t, n) ==> n >= 0),
    ensures
        climbs_on(g, after_all(rules, g, p, s), p),
    decreases s.len(),
{
    if s.len() > 0 {
        let d = s.drop_last();
        lemma_climbs_on_all(rules, g, p, d);
        let m = after_all(rules, g, p, d);
        assert(s[s.len() - 1] == s.last());
        lemma_climbs_on(rules, m, p, s.last());
        let h = after(rules, m, p, s.last());
        assert forall|t: Temple| h.temples[#[trigger] t.rank()][p.0 as int]
            >= g.temples[t.rank()][p.0 as int] by {
            assert(m.temples[t.rank()][p.0 as int] >= g.temples[t.rank()][p.0 as int]);
        }
    }
}

proof fn lemma_soonest_kept(g: GameState, h: GameState, p: PlayerId, gear: Gear, m: int, k: int)
    requires
        p.ok(),
        0 <= k <= 6,
        builds_on(g, h, p),
    ensures
        soonest(h, p, gear, m, k) == soonest(g, p, gear, m, k),
    decreases k,
{
    if k > 0 {
        lemma_soonest_kept(g, h, p, gear, m, k - 1);
        let i = 6 * p.0 + k - 1;
        assert(h.workers[i] == g.workers[i] || (g.workers[i] == WorkerLoc::Locked && h.workers[i]
            == WorkerLoc::Available));
        assert(days_left(h) == days_left(g));
    }
}

proof fn lemma_reach_kept(g: GameState, h: GameState, p: PlayerId, gear: Gear, m: int)
    requires
        p.ok(),
        builds_on(g, h, p),
        reach(g, p, gear, m) is Some,
    ensures
        reach(h, p, gear, m) is Some,
{
    lemma_soonest_kept(g, h, p, gear, m, 6);
    if soonest(g, p, gear, m, 6) is None {
        let i = choose|i: int| 0 <= i < 6 && is_spare(#[trigger] g.workers[6 * p.0 + i]);
        assert(h.workers[6 * p.0 + i] == g.workers[6 * p.0 + i]);
        assert(is_spare(h.workers[6 * p.0 + i]));
    }
}

/// Not being smaller carries over.
proof fn lemma_not_below(a: Fraction, b: Fraction, c: Fraction)
    requires
        b.den > 0,
        !a.below(b),
        !b.below(c),
    ensures
        !a.below(c),
{
    let (an, ad, bn, bd, cn, cd) = (
        a.num as int,
        a.den as int,
        b.num as int,
        b.den as int,
        c.num as int,
        c.den as int,
    );
    assert(an * cd >= cn * ad) by (nonlinear_arith)
        requires
            an >= 0,
            ad >= 0,
            bn >= 0,
            cn >= 0,
            cd >= 0,
            bd > 0,
            an * bd >= bn * ad,
            bn * cd >= cn * bd,
    ;
}

proof fn lemma_larger(a: Fraction, b: Fraction)
    ensures
        !larger(a, b).below(a),
        !larger(a, b).below(b),
{
    assert(a.num * a.den == a.num * a.den);
}

/// A share of the same whole grows with its parts.
proof fn lemma_part_kept(rules: Rulebook, g: GameState, h: GameState, p: PlayerId, t: Temple, age: u8)
    requires
        p.ok(),
        climb(rules, t) > 0,
        climbs_on(g, h, p),
    ensures
        !temple_part(rules, h, p, t, age).below(temple_part(rules, g, p, t, age)),
        temple_part(rules, h, p, t, age).den > 0,
{
    let (x, y) = (
        temple_part(rules, g, p, t, age),
        temple_part(rules, h, p, t, age),
    );
    assert(h.temples[t.rank()][p.0 as int] >= g.temples[t.rank()][p.0 as int]);
    assert(x.den == y.den);
    assert(x.num <= y.num);
    assert(x.num * y.den <= y.num * x.den) by (nonlinear_arith)
        requires
            x.num <= y.num,
            x.den == y.den,
    ;
}

proof fn lemma_not_below_nothing(a: Fraction)
    ensures
        !a.below(nothing()),
{
    assert(0 * a.den == 0);
}

proof fn lemma_shares(n: int, m: int)
    requires
        0 <= n <= m,
    ensures
        !share(m, 6).below(share(n, 6)),
{
    let (x, y) = (share(n, 6), share(m, 6));
    assert(x.den == 6 && y.den == 6);
    assert(x.num <= y.num);
    assert(x.num * y.den <= y.num * x.den) by (nonlinear_arith)
        requires
            x.num <= y.num,
            x.den == y.den,
    ;
}

/// Whatever line a step of a worker serves, it sets building back in no way, and
/// climbing only by a step down a temple. Skulls are another matter: filling a
/// space of Chichen Itza serves that line by spending what it counts.
pub proof fn steps_set_no_line_back(
    rules: Rulebook,
    g: GameState,
    p: PlayerId,
    s: Seq<Effect>,
    l: Line,
)
    requires
        p.ok(),
        effects_ok(s),
        forall|u: Temple| #[trigger] climb(rules, u) > 0,
        l == Line::Construction || (l == Line::Temples && forall|i: int|
            0 <= i < s.len() ==> (#[trigger] s[i] matches Effect::TempleStep(t, n) ==> n >= 0)),
    ensures
        !progress(rules, after_all(rules, g, p, s), p, l).below(progress(rules, g, p, l)),
{
    let h = after_all(rules, g, p, s);
    if l == Line::Construction {
        lemma_builds_on_all(rules, g, p, s);
        if reach(g, p, Gear::Tikal, 2) is Some {
            lemma_reach_kept(g, h, p, Gear::Tikal, 2);
            let (a, b) = (g.players[p.0 as int], h.players[p.0 as int]);
            lemma_shares(
                g.lvl(p, Science::Architecture) + bits_set(a.buildings as nat) + 2 * bits_set(
                    a.monuments as nat,
                ),
                h.lvl(p, Science::Architecture) + bits_set(b.buildings as nat) + 2 * bits_set(
                    b.monuments as nat,
                ),
            );
        } else {
            lemma_not_below_nothing(progress(rules, h, p, l));
        }
    } else {
        lemma_climbs_on_all(rules, g, p, s);
        if scoring_age(g.day) is Some {
            let age = scoring_age(g.day)->Some_0;
            let part = |q: GameState, t: Temple| temple_part(rules, q, p, t, age);
            let (a, b, c) = (
                part(g, Temple::Brown),
                part(g, Temple::Yellow),
                part(g, Temple::Green),
            );
            let (x, y, z) = (
                part(h, Temple::Brown),
                part(h, Temple::Yellow),
                part(h, Temple::Green),
            );
            lemma_part_kept(rules, g, h, p, Temple::Brown, age);
            lemma_part_kept(rules, g, h, p, Temple::Yellow, age);
            lemma_part_kept(rules, g, h, p, Temple::Green, age);
            let m = larger(x, y);
            let best = larger(m, z);
            lemma_larger(x, y);
            lemma_larger(m, z);
            lemma_not_below(best, m, x);
            lemma_not_below(best, m, y);
            lemma_not_below(best, x, a);
            lemma_not_below(best, y, b);
            lemma_not_below(best, z, c);
        } else {
            lemma_not_below_nothing(progress(rules, h, p, l));
        }
    }
}

} // verus!
