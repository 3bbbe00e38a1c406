//! Collapsing and pruning lists of choices.
//!
//! Generation is naturally redundant: several routes reach the same bundle of
//! effects, and many of the rest are beaten outright by a neighbour. What is
//! collapsed or pruned here never reaches the search.

use crate::book::{effects_ok, Rulebook};
use crate::effect::{after_all, Choice, Effect};
use crate::ids::{PlayerId, Resource};
use crate::options::pack;
use crate::order::{
    ascending, ascending_is_canonical, choice_lt, covers_range, in_order, lemma_choice_total, lemma_choice_trans, packed,
    sort_unique, sorted_positions, sorted_unique, sorted_unique_keeps, views, Ranked,
};
use crate::positions::Positions;
use crate::seen::SeenDigests;
use crate::state::GameState;
use vstd::prelude::*;

verus! {

// ---- pruning -------------------------------------------------------------

/// Whether generation prunes at all.
pub fn pruning_on(prune: u8) -> (b: bool)
    ensures
        b == (prune >= 1),
{
    prune >= 1
}

/// Whether generation prices everything liquid rather than corn alone.
pub fn wide_pruning_on(prune: u8) -> (b: bool)
    ensures
        b == (prune >= 2),
{
    prune >= 2
}

/// Whether an effect only moves liquid wealth, and so is priced rather than
/// structural. Skulls are drawn from a shared bank, so they stay structural.
pub open spec fn liquid(e: Effect, wide: bool) -> bool {
    match e {
        Effect::Corn(_) => true,
        Effect::Points(_) => wide,
        Effect::Res(r, _) => wide && r != Resource::Skull,
        _ => false,
    }
}

/// Whether an effect only moves liquid wealth.
pub fn is_wealth(e: &Effect, wide: bool) -> (b: bool)
    ensures
        b == liquid(*e, wide),
{
    match e {
        Effect::Corn(_) => true,
        Effect::Points(_) => wide,
        Effect::Res(r, _) => wide && *r != Resource::Skull,
        _ => false,
    }
}

/// The structural effects of a choice, in order.
pub open spec fn structure(s: Seq<Effect>, wide: bool) -> Seq<Effect>
    decreases s.len(),
{
    if s.len() == 0 {
        Seq::empty()
    } else if liquid(s.last(), wide) {
        structure(s.drop_last(), wide)
    } else {
        structure(s.drop_last(), wide).push(s.last())
    }
}

/// What an effect moves on one of the five axes corn, wood, stone, gold and
/// points.
pub open spec fn liquid_on(e: Effect, wide: bool, axis: int) -> int {
    match e {
        Effect::Corn(n) => if axis == 0 {
            n as int
        } else {
            0
        },
        Effect::Res(r, n) => if wide && r != Resource::Skull && axis == 1 + r.rank() {
            n as int
        } else {
            0
        },
        Effect::Points(n) => if wide && axis == 4 {
            n as int
        } else {
            0
        },
        _ => 0,
    }
}

/// What a choice moves in total on one axis.
pub open spec fn wealth(s: Seq<Effect>, wide: bool, axis: int) -> int
    decreases s.len(),
{
    if s.len() == 0 {
        0
    } else {
        wealth(s.drop_last(), wide, axis) + liquid_on(s.last(), wide, axis)
    }
}

/// Whether two choices differ in nothing but liquid wealth. The skip is alone
/// in its group.
pub open spec fn alike(a: Seq<Effect>, b: Seq<Effect>, wide: bool) -> bool {
    (a.len() == 0) == (b.len() == 0) && structure(a, wide) == structure(b, wide)
}

/// Whether one choice moves at least as much as another on every axis.
pub open spec fn as_rich(a: Seq<Effect>, b: Seq<Effect>, wide: bool) -> bool {
    forall|k: int| 0 <= k < 5 ==> #[trigger] wealth(a, wide, k) >= wealth(b, wide, k)
}

/// Whether one choice makes another pointless: it differs in nothing but
/// wealth, is no poorer on any axis, and either is richer on one or is the
/// earlier spelling of the same position.
pub open spec fn beats(a: Seq<Effect>, b: Seq<Effect>, wide: bool) -> bool {
    &&& alike(a, b, wide)
    &&& as_rich(a, b, wide)
    &&& as_rich(b, a, wide) ==> choice_lt(a, b)
}

/// Whether nothing in a list beats a choice.
pub open spec fn survives(s: Seq<Seq<Effect>>, c: Seq<Effect>, wide: bool) -> bool {
    forall|i: int| 0 <= i < s.len() ==> !beats(#[trigger] s[i], c, wide)
}

/// The choices of a list that nothing in it beats, in list order, among the
/// first `n`.
pub open spec fn survivors(s: Seq<Seq<Effect>>, wide: bool, n: int) -> Seq<Seq<Effect>>
    decreases n,
{
    if n <= 0 {
        Seq::empty()
    } else if survives(s, s[n - 1], wide) {
        survivors(s, wide, n - 1).push(s[n - 1])
    } else {
        survivors(s, wide, n - 1)
    }
}

/// What is left of a list of choices once everything beaten is dropped, in
/// canonical order. At pruning level zero only exact duplicates go.
pub open spec fn undominated(s: Seq<Seq<Effect>>, prune: u8) -> Seq<Seq<Effect>> {
    if prune >= 1 {
        sorted_unique(survivors(s, prune >= 2, s.len() as int))
    } else {
        sorted_unique(s)
    }
}

/// Sort and deduplicate.
pub fn dedup(v: Vec<Choice>) -> (out: Vec<Choice>)
    ensures
        views(out@) == sorted_unique(views(v@)),
{
    sort_unique(&v)
}

/// One step of an order-sensitive digest.
pub open spec fn digest_step(h: u64, e: Effect) -> u64 {
    let a = h ^ (packed(e) as u64);
    let b = a.wrapping_mul(0xff51_afd7_ed55_8ccd);
    b ^ (b >> 33)
}

/// The digest of a list of effects from a seed.
pub open spec fn digest_from(seed: u64, s: Seq<Effect>) -> u64
    decreases s.len(),
{
    if s.len() == 0 {
        seed
    } else {
        digest_step(digest_from(seed, s.drop_last()), s.last())
    }
}

fn step_digest(h: u64, e: Effect) -> (d: u64)
    ensures
        d == digest_step(h, e),
{
    let a: u64 = h ^ (pack(e) as u64);
    let b: u64 = a.wrapping_mul(0xff51_afd7_ed55_8ccd);
    b ^ (b >> 33)
}

/// The digest of a whole choice, seeded with its length.
pub open spec fn whole_digest(s: Seq<Effect>) -> u64 {
    digest_from(0xcbf2_9ce4_8422_2325u64 ^ (s.len() as u64), s)
}

/// An order-sensitive digest of a whole choice, wealth counted in.
pub fn choice_digest(c: &Choice) -> (h: u64)
    ensures
        h == whole_digest(c@),
{
    let n: usize = c.0.len();
    let ghost seed = 0xcbf2_9ce4_8422_2325u64 ^ (n as u64);
    let mut h: u64 = 0xcbf2_9ce4_8422_2325u64 ^ (n as u64);
    let mut i: usize = 0;
    while i < n
        invariant
            i <= n,
            n == c@.len(),
            h == digest_from(seed, c@.take(i as int)),
        decreases n - i,
    {
        h = step_digest(h, c.0.at(i));
        i += 1;
        proof {
            assert(c@.take(i as int).drop_last() =~= c@.take(i - 1));
        }
    }
    assert(c@.take(n as int) =~= c@);
    h
}

/// What a choice looks like to the dominance test.
#[derive(Clone, Copy)]
pub struct Key {
    /// The digest of the structural effects, the skip seeded apart.
    pub group: u64,
    /// Net corn, wood, stone, gold and points.
    pub w: [i128; 5],
    /// The five nets added up.
    pub sum: i128,
}

/// The digest a choice's dominance group is found by.
pub open spec fn group_digest(s: Seq<Effect>, wide: bool) -> u64 {
    digest_from(
        if s.len() == 0 {
            0x9e37_79b9_7f4a_7c15
        } else {
            0
        },
        structure(s, wide),
    )
}

impl Key {
    /// Whether this is the summary of a choice.
    pub open spec fn sums_up(self, s: Seq<Effect>, wide: bool) -> bool {
        &&& self.group == group_digest(s, wide)
        &&& forall|k: int| 0 <= k < 5 ==> #[trigger] self.w[k] == wealth(s, wide, k)
        &&& self.sum == self.w[0] + self.w[1] + self.w[2] + self.w[3] + self.w[4]
    }

    /// Summarise a choice in one pass.
    pub fn of(c: &Choice, wide: bool) -> (k: Key)
        ensures
            k.sums_up(c@, wide),
    {
        let n: usize = c.0.len();
        let seed: u64 = if n == 0 {
            0x9e37_79b9_7f4a_7c15
        } else {
            0
        };
        let mut group: u64 = seed;
        let mut w: [i128; 5] = [0, 0, 0, 0, 0];
        let mut i: usize = 0;
        while i < n
            invariant
                i <= n,
                n == c@.len(),
                group == digest_from(seed, structure(c@.take(i as int), wide)),
                forall|k: int|
                    0 <= k < 5 ==> #[trigger] w[k] == wealth(c@.take(i as int), wide, k),
                forall|k: int|
                    0 <= k < 5 ==> -32768 * (i as int) <= #[trigger] w[k] <= 32768 * (i as int),
            decreases n - i,
        {
            let e = c.0.at(i);
            let ghost w0 = w;
            proof {
                let s = c@.take(i + 1);
                assert(s.drop_last() =~= c@.take(i as int));
                assert(s.last() == e);
                assert(i < 0x1_0000_0000_0000_0000);
                assert(w[0] + 0 == w[0] && w[4] + 0 == w[4]);
                assert(w[1] + 0 == w[1] && w[2] + 0 == w[2] && w[3] + 0 == w[3]);
            }
            match e {
                Effect::Corn(m) => {
                    w[0] = w[0] + m as i128;
                },
                Effect::Res(r, m) if wide && r != Resource::Skull => {
                    w[1 + r.idx()] = w[1 + r.idx()] + m as i128;
                },
                Effect::Points(m) if wide => {
                    w[4] = w[4] + m as i128;
                },
                _ => {
                    group = step_digest(group, e);
                    proof {
                        let s = c@.take(i + 1);
                        let st = structure(s, wide);
                        assert(st.drop_last() =~= structure(s.drop_last(), wide));
                    }
                },
            }
            i += 1;
            proof {
                assert forall|k: int| 0 <= k < 5 implies #[trigger] w[k] == w0[k] + liquid_on(
                    e,
                    wide,
                    k,
                ) by {}
            }
        }
        assert(c@.take(n as int) =~= c@);
        assert(n < 0x1_0000_0000_0000_0000);
        let sum: i128 = w[0] + w[1] + w[2] + w[3] + w[4];
        Key { group, w, sum }
    }
}

/// The structural effects of a choice, in order.
fn structural(c: &Choice, wide: bool) -> (v: Vec<Effect>)
    ensures
        v@ == structure(c@, wide),
{
    let n: usize = c.0.len();
    let mut v: Vec<Effect> = Vec::new();
    let mut i: usize = 0;
    while i < n
        invariant
            i <= n,
            n == c@.len(),
            v@ == structure(c@.take(i as int), wide),
        decreases n - i,
    {
        let e = c.0.at(i);
        proof {
            assert(c@.take(i + 1).drop_last() =~= c@.take(i as int));
        }
        if !is_wealth(&e, wide) {
            v.push(e);
        }
        i += 1;
    }
    assert(c@.take(n as int) =~= c@);
    v
}

/// The exact test a group digest stands in for: both or neither the skip, and
/// the same structural effects in the same order.
pub fn same_group(a: &Choice, b: &Choice, wide: bool) -> (r: bool)
    ensures
        r == alike(a@, b@, wide),
{
    if a.is_skip() != b.is_skip() {
        return false;
    }
    let x = structural(a, wide);
    let y = structural(b, wide);
    if x.len() != y.len() {
        return false;
    }
    let mut i: usize = 0;
    while i < x.len()
        invariant
            i <= x@.len(),
            x@.len() == y@.len(),
            x@ == structure(a@, wide),
            y@ == structure(b@, wide),
            forall|j: int| 0 <= j < i ==> x@[j] == y@[j],
        decreases x@.len() - i,
    {
        if x[i] != y[i] {
            return false;
        }
        i += 1;
    }
    assert(x@ =~= y@);
    true
}

impl Ranked for Key {
    /// Group first, then total wealth moved, most first: a choice that beats
    /// another moves at least as much in total, so it comes up no later.
    open spec fn before(a: Key, b: Key) -> bool {
        a.group < b.group || (a.group == b.group && a.sum > b.sum)
    }

    proof fn one_way(a: Key, b: Key) {
    }

    proof fn onward(a: Key, b: Key, c: Key) {
    }

    fn less(&self, other: &Key) -> (b: bool) {
        self.group < other.group || (self.group == other.group && self.sum > other.sum)
    }
}

/// Nothing beats itself.
proof fn lemma_beats_irreflexive(a: Seq<Effect>, wide: bool)
    ensures
        !beats(a, a, wide),
{
    lemma_choice_total(a, a);
}

/// Beating is transitive.
pub proof fn beating_is_transitive(a: Seq<Effect>, b: Seq<Effect>, c: Seq<Effect>, wide: bool)
    requires
        beats(a, b, wide),
        beats(b, c, wide),
    ensures
        beats(a, c, wide),
{
    assert(as_rich(a, c, wide)) by {
        assert forall|k: int| 0 <= k < 5 implies #[trigger] wealth(a, wide, k) >= wealth(
            c,
            wide,
            k,
        ) by {
            assert(wealth(a, wide, k) >= wealth(b, wide, k));
            assert(wealth(b, wide, k) >= wealth(c, wide, k));
        }
    }
    if as_rich(c, a, wide) {
        assert forall|k: int| 0 <= k < 5 implies #[trigger] wealth(b, wide, k) >= wealth(
            a,
            wide,
            k,
        ) by {
            assert(wealth(b, wide, k) >= wealth(c, wide, k));
            assert(wealth(c, wide, k) >= wealth(a, wide, k));
        }
        assert forall|k: int| 0 <= k < 5 implies #[trigger] wealth(c, wide, k) >= wealth(
            b,
            wide,
            k,
        ) by {
            assert(wealth(c, wide, k) >= wealth(a, wide, k));
            assert(wealth(a, wide, k) >= wealth(b, wide, k));
        }
        lemma_choice_trans(a, b, c);
    }
}

/// Whether one choice stands for another: it is the other or beats it.
pub open spec fn stands_for(a: Seq<Effect>, b: Seq<Effect>, wide: bool) -> bool {
    a == b || beats(a, b, wide)
}

/// Whether an index is among the first `t` of a visiting order.
spec fn visited(idx: Seq<usize>, t: int, r: int) -> bool {
    exists|s: int| 0 <= s < t && #[trigger] idx[s] == r
}

/// What the sweep knows after visiting the first `t` places of its order.
#[verifier::opaque]
spec fn swept(
    v: Seq<Choice>,
    keys: Seq<Key>,
    idx: Seq<usize>,
    keep: Seq<bool>,
    t: int,
    wide: bool,
) -> bool {
    &&& keep.len() == v.len()
    &&& forall|r: int| 0 <= r < v.len() && #[trigger] keep[r] ==> visited(idx, t, r)
    &&& forall|r: int| #[trigger]
        visited(idx, t, r) ==> exists|f: int|
            0 <= f < v.len() && #[trigger] keep[f] && stands_for(v[f]@, v[r]@, wide)
    &&& forall|f: int, h: int|
        0 <= f < v.len() && 0 <= h < v.len() && f != h && #[trigger] keep[f] && #[trigger] keep[h]
            ==> !(alike(v[f]@, v[h]@, wide) && as_rich(v[f]@, v[h]@, wide))
}

/// Whether the front lists exactly the kept choices of one group.
#[verifier::opaque]
spec fn fronts(
    v: Seq<Choice>,
    keys: Seq<Key>,
    keep: Seq<bool>,
    front: Seq<usize>,
    group: u64,
) -> bool {
    &&& front.no_duplicates()
    &&& forall|i: int|
        0 <= i < front.len() ==> (#[trigger] front[i]) < v.len() && keep[front[i] as int]
            && keys[front[i] as int].group == group
    &&& forall|r: int|
        0 <= r < v.len() && #[trigger] keep[r] && keys[r].group == group ==> front.contains(
            r as usize,
        )
}

/// Whether a summary moves at least as much as another on every axis.
fn richer(a: &Key, b: &Key) -> (r: bool)
    ensures
        r == forall|k: int| 0 <= k < 5 ==> #[trigger] a.w[k] >= b.w[k],
{
    let mut k: usize = 0;
    while k < 5
        invariant
            k <= 5,
            forall|j: int| 0 <= j < k ==> #[trigger] a.w[j] >= b.w[j],
        decreases 5 - k,
    {
        if a.w[k] < b.w[k] {
            return false;
        }
        k += 1;
    }
    true
}

/// Comparing summaries compares the choices they sum up.
proof fn lemma_richer(a: Key, b: Key, s: Seq<Effect>, t: Seq<Effect>, wide: bool)
    requires
        a.sums_up(s, wide),
        b.sums_up(t, wide),
    ensures
        (forall|k: int| 0 <= k < 5 ==> #[trigger] a.w[k] >= b.w[k]) == as_rich(s, t, wide),
        as_rich(s, t, wide) ==> a.sum >= b.sum,
        as_rich(s, t, wide) && a.sum == b.sum ==> as_rich(t, s, wide),
        alike(s, t, wide) ==> a.group == b.group,
{
    if forall|k: int| 0 <= k < 5 ==> #[trigger] a.w[k] >= b.w[k] {
        assert forall|k: int| 0 <= k < 5 implies #[trigger] wealth(s, wide, k) >= wealth(
            t,
            wide,
            k,
        ) by {
            assert(a.w[k] >= b.w[k]);
        }
    }
    if as_rich(s, t, wide) {
        assert forall|k: int| 0 <= k < 5 implies #[trigger] a.w[k] >= b.w[k] by {
            assert(wealth(s, wide, k) >= wealth(t, wide, k));
        }
        assert(a.w[0] >= b.w[0] && a.w[1] >= b.w[1] && a.w[2] >= b.w[2] && a.w[3] >= b.w[3]
            && a.w[4] >= b.w[4]);
        if a.sum == b.sum {
            assert forall|k: int| 0 <= k < 5 implies #[trigger] wealth(t, wide, k) >= wealth(
                s,
                wide,
                k,
            ) by {
                assert(a.w[k] == b.w[k]);
            }
        }
    }
}

/// Visiting one more place.
proof fn lemma_visit(idx: Seq<usize>, t: int)
    requires
        0 <= t < idx.len(),
        idx.no_duplicates(),
    ensures
        !visited(idx, t, idx[t] as int),
        forall|r: int| #[trigger]
            visited(idx, t + 1, r) <==> visited(idx, t, r) || r == idx[t],
{
    assert forall|r: int| #[trigger] visited(idx, t + 1, r) <==> visited(idx, t, r) || r
        == idx[t] by {
        if visited(idx, t, r) {
            let s = choose|s: int| 0 <= s < t && #[trigger] idx[s] == r;
            assert(0 <= s < t + 1 && idx[s] == r);
        }
        if r == idx[t] {
            assert(0 <= t < t + 1 && idx[t] == r);
        }
    }
}

/// A visited choice that a kept one stands for changes nothing.
proof fn lemma_sweep_drop(
    v: Seq<Choice>,
    keys: Seq<Key>,
    idx: Seq<usize>,
    keep: Seq<bool>,
    t: int,
    wide: bool,
    f: int,
)
    requires
        swept(v, keys, idx, keep, t, wide),
        0 <= t < idx.len(),
        idx.no_duplicates(),
        0 <= f < v.len(),
        keep[f],
        stands_for(v[f]@, v[idx[t] as int]@, wide),
    ensures
        swept(v, keys, idx, keep, t + 1, wide),
{
    reveal(swept);
    lemma_visit(idx, t);
    assert forall|r: int| #[trigger] visited(idx, t + 1, r) implies exists|h: int|
        0 <= h < v.len() && #[trigger] keep[h] && stands_for(v[h]@, v[r]@, wide) by {
        if r == idx[t] {
            assert(keep[f] && stands_for(v[f]@, v[r]@, wide));
        }
    }
}

/// A visited choice that is the earlier spelling of a kept one takes its place.
proof fn lemma_sweep_replace(
    v: Seq<Choice>,
    keys: Seq<Key>,
    idx: Seq<usize>,
    keep: Seq<bool>,
    t: int,
    wide: bool,
    f: int,
)
    requires
        swept(v, keys, idx, keep, t, wide),
        0 <= t < idx.len(),
        idx.no_duplicates(),
        idx[t] < v.len(),
        0 <= f < v.len(),
        keep[f],
        alike(v[f]@, v[idx[t] as int]@, wide),
        as_rich(v[f]@, v[idx[t] as int]@, wide),
        as_rich(v[idx[t] as int]@, v[f]@, wide),
        choice_lt(v[idx[t] as int]@, v[f]@),
    ensures
        swept(v, keys, idx, keep.update(f, false).update(idx[t] as int, true), t + 1, wide),
{
    reveal(swept);
    lemma_visit(idx, t);
    let r = idx[t] as int;
    let k2 = keep.update(f, false).update(r, true);
    assert(!keep[r]);
    assert(f != r);
    assert(beats(v[r]@, v[f]@, wide));
    assert forall|q: int| #[trigger] visited(idx, t + 1, q) implies exists|h: int|
        0 <= h < v.len() && #[trigger] k2[h] && stands_for(v[h]@, v[q]@, wide) by {
        if q == r {
            assert(k2[r] && stands_for(v[r]@, v[q]@, wide));
        } else {
            assert(visited(idx, t, q));
            let h = choose|h: int|
                0 <= h < v.len() && #[trigger] keep[h] && stands_for(v[h]@, v[q]@, wide);
            if h == f {
                if v[f]@ != v[q]@ {
                    beating_is_transitive(v[r]@, v[f]@, v[q]@, wide);
                }
                assert(k2[r] && stands_for(v[r]@, v[q]@, wide));
            } else {
                assert(k2[h] && stands_for(v[h]@, v[q]@, wide));
            }
        }
    }
    assert forall|a: int, b: int|
        0 <= a < v.len() && 0 <= b < v.len() && a != b && #[trigger] k2[a] && #[trigger] k2[b]
            implies !(alike(v[a]@, v[b]@, wide) && as_rich(v[a]@, v[b]@, wide)) by {
        if a == r {
            assert(keep[f] && keep[b]);
            if alike(v[r]@, v[b]@, wide) && as_rich(v[r]@, v[b]@, wide) {
                lemma_as_rich_trans(v[f]@, v[r]@, v[b]@, wide);
            }
        } else if b == r {
            assert(keep[a] && keep[f]);
            if alike(v[a]@, v[r]@, wide) && as_rich(v[a]@, v[r]@, wide) {
                lemma_as_rich_trans(v[a]@, v[r]@, v[f]@, wide);
            }
        } else {
            assert(keep[a] && keep[b]);
        }
    }
    assert forall|q: int| 0 <= q < v.len() && #[trigger] k2[q] implies visited(idx, t + 1, q) by {
        if q != r {
            assert(keep[q]);
        }
    }
}

proof fn lemma_as_rich_trans(a: Seq<Effect>, b: Seq<Effect>, c: Seq<Effect>, wide: bool)
    requires
        as_rich(a, b, wide),
        as_rich(b, c, wide),
    ensures
        as_rich(a, c, wide),
{
    assert forall|k: int| 0 <= k < 5 implies #[trigger] wealth(a, wide, k) >= wealth(
        c,
        wide,
        k,
    ) by {
        assert(wealth(a, wide, k) >= wealth(b, wide, k));
        assert(wealth(b, wide, k) >= wealth(c, wide, k));
    }
}

/// A visited choice that nothing kept is alike to and as rich as is kept.
proof fn lemma_sweep_add(
    v: Seq<Choice>,
    keys: Seq<Key>,
    idx: Seq<usize>,
    keep: Seq<bool>,
    t: int,
    wide: bool,
)
    requires
        swept(v, keys, idx, keep, t, wide),
        0 <= t < idx.len(),
        idx.no_duplicates(),
        idx[t] < v.len(),
        keys.len() == v.len(),
        forall|i: int| 0 <= i < v.len() ==> (#[trigger] keys[i]).sums_up(v[i]@, wide),
        in_order(keys, idx),
        forall|f: int|
            0 <= f < v.len() && #[trigger] keep[f] && keys[f].group == keys[idx[t] as int].group
                ==> !(alike(v[f]@, v[idx[t] as int]@, wide) && as_rich(
                v[f]@,
                v[idx[t] as int]@,
                wide,
            )),
    ensures
        swept(v, keys, idx, keep.update(idx[t] as int, true), t + 1, wide),
{
    reveal(swept);
    lemma_visit(idx, t);
    let r = idx[t] as int;
    let k2 = keep.update(r, true);
    assert(!keep[r]);
    assert forall|q: int| #[trigger] visited(idx, t + 1, q) implies exists|h: int|
        0 <= h < v.len() && #[trigger] k2[h] && stands_for(v[h]@, v[q]@, wide) by {
        if q == r {
            assert(k2[r] && stands_for(v[r]@, v[q]@, wide));
        } else {
            assert(visited(idx, t, q));
            let h = choose|h: int|
                0 <= h < v.len() && #[trigger] keep[h] && stands_for(v[h]@, v[q]@, wide);
            assert(k2[h] && stands_for(v[h]@, v[q]@, wide));
        }
    }
    assert forall|a: int, b: int|
        0 <= a < v.len() && 0 <= b < v.len() && a != b && #[trigger] k2[a] && #[trigger] k2[b]
            implies !(alike(v[a]@, v[b]@, wide) && as_rich(v[a]@, v[b]@, wide)) by {
        if a == r {
            assert(keep[b]);
            if alike(v[r]@, v[b]@, wide) && as_rich(v[r]@, v[b]@, wide) {
                lemma_richer(keys[r], keys[b], v[r]@, v[b]@, wide);
                assert(visited(idx, t, b));
                let s = choose|s: int| 0 <= s < t && #[trigger] idx[s] == b;
                assert(!Key::before(keys[idx[t] as int], keys[idx[s] as int]));
            }
        } else if b == r {
            assert(keep[a]);
            if alike(v[a]@, v[r]@, wide) && as_rich(v[a]@, v[r]@, wide) {
                lemma_richer(keys[a], keys[r], v[a]@, v[r]@, wide);
            }
        } else {
            assert(keep[a] && keep[b]);
        }
    }
    assert forall|q: int| 0 <= q < v.len() && #[trigger] k2[q] implies visited(idx, t + 1, q) by {
        if q != r {
            assert(keep[q]);
        }
    }
}

/// The first place of the front that is alike to a choice and as rich.
fn dominator(
    v: &Vec<Choice>,
    keys: &Vec<Key>,
    front: &Vec<usize>,
    r: usize,
    wide: bool,
) -> (at: Option<usize>)
    requires
        r < v@.len(),
        keys@.len() == v@.len(),
        forall|i: int| 0 <= i < v@.len() ==> (#[trigger] keys@[i]).sums_up(v@[i]@, wide),
        forall|i: int| 0 <= i < front@.len() ==> #[trigger] front@[i] < v@.len(),
    ensures
        match at {
            Some(i) => i < front@.len() && alike(v@[front@[i as int] as int]@, v@[r as int]@, wide)
                && as_rich(v@[front@[i as int] as int]@, v@[r as int]@, wide),
            None => forall|i: int|
                0 <= i < front@.len() ==> !(alike(
                    v@[#[trigger] front@[i] as int]@,
                    v@[r as int]@,
                    wide,
                ) && as_rich(v@[front@[i] as int]@, v@[r as int]@, wide)),
        },
{
    let mut i: usize = 0;
    while i < front.len()
        invariant
            i <= front@.len(),
            r < v@.len(),
            keys@.len() == v@.len(),
            forall|i: int| 0 <= i < v@.len() ==> (#[trigger] keys@[i]).sums_up(v@[i]@, wide),
            forall|i: int| 0 <= i < front@.len() ==> #[trigger] front@[i] < v@.len(),
            forall|j: int|
                0 <= j < i ==> !(alike(v@[#[trigger] front@[j] as int]@, v@[r as int]@, wide)
                    && as_rich(v@[front@[j] as int]@, v@[r as int]@, wide)),
        decreases front@.len() - i,
    {
        let f: usize = front[i];
        proof {
            lemma_richer(keys@[f as int], keys@[r as int], v@[f as int]@, v@[r as int]@, wide);
        }
        if richer(&keys[f], &keys[r]) && same_group(&v[f], &v[r], wide) {
            return Some(i);
        }
        i += 1;
    }
    None
}

/// A place just reached has not been kept.
proof fn lemma_unkept(
    v: Seq<Choice>,
    keys: Seq<Key>,
    idx: Seq<usize>,
    keep: Seq<bool>,
    t: int,
    wide: bool,
)
    requires
        swept(v, keys, idx, keep, t, wide),
        0 <= t < idx.len(),
        idx.no_duplicates(),
        idx[t] < v.len(),
    ensures
        !keep[idx[t] as int],
{
    reveal(swept);
    lemma_visit(idx, t);
}

/// A group just reached has nothing kept in it.
proof fn lemma_new_group(
    v: Seq<Choice>,
    keys: Seq<Key>,
    idx: Seq<usize>,
    keep: Seq<bool>,
    t: int,
    wide: bool,
)
    requires
        swept(v, keys, idx, keep, t, wide),
        0 <= t < idx.len(),
        idx.no_duplicates(),
        in_order(keys, idx),
        t > 0 ==> keys[idx[t - 1] as int].group != keys[idx[t] as int].group,
    ensures
        fronts(v, keys, keep, Seq::empty(), keys[idx[t] as int].group),
{
    reveal(swept);
    reveal(fronts);
    let g = keys[idx[t] as int].group;
    assert forall|q: int| 0 <= q < v.len() && #[trigger] keep[q] implies keys[q].group != g by {
        assert(visited(idx, t, q));
        let s = choose|s: int| 0 <= s < t && #[trigger] idx[s] == q;
        assert(!Key::before(keys[idx[t] as int], keys[idx[t - 1] as int]));
        if s < t - 1 {
            assert(!Key::before(keys[idx[t - 1] as int], keys[idx[s] as int]));
        }
    }
}

/// Replacing a kept choice in the front.
proof fn lemma_front_replace(
    v: Seq<Choice>,
    keys: Seq<Key>,
    keep: Seq<bool>,
    front: Seq<usize>,
    group: u64,
    i: int,
    r: usize,
)
    requires
        fronts(v, keys, keep, front, group),
        keep.len() == v.len(),
        v.len() <= usize::MAX,
        0 <= i < front.len(),
        r < v.len(),
        !keep[r as int],
        keys[r as int].group == group,
    ensures
        fronts(
            v,
            keys,
            keep.update(front[i] as int, false).update(r as int, true),
            front.update(i, r),
            group,
        ),
{
    reveal(fronts);
    let k2 = keep.update(front[i] as int, false).update(r as int, true);
    let f2 = front.update(i, r);
    assert(!front.contains(r)) by {
        if front.contains(r) {
            let x = front.index_of(r);
            assert(keep[front[x] as int]);
        }
    }
    assert forall|q: int|
        0 <= q < v.len() && #[trigger] k2[q] && keys[q].group == group implies f2.contains(
        q as usize,
    ) by {
        if q == r {
            assert(f2[i] == r);
        } else {
            assert(keep[q]);
            let x = front.index_of(q as usize);
            assert(f2[x] == q);
        }
    }
}

/// Adding a kept choice to the front.
proof fn lemma_front_add(
    v: Seq<Choice>,
    keys: Seq<Key>,
    keep: Seq<bool>,
    front: Seq<usize>,
    group: u64,
    r: usize,
)
    requires
        fronts(v, keys, keep, front, group),
        keep.len() == v.len(),
        v.len() <= usize::MAX,
        r < v.len(),
        !keep[r as int],
        keys[r as int].group == group,
    ensures
        fronts(v, keys, keep.update(r as int, true), front.push(r), group),
{
    reveal(fronts);
    let k2 = keep.update(r as int, true);
    let f2 = front.push(r);
    assert(!front.contains(r)) by {
        if front.contains(r) {
            let x = front.index_of(r);
            assert(keep[front[x] as int]);
        }
    }
    assert forall|q: int|
        0 <= q < v.len() && #[trigger] k2[q] && keys[q].group == group implies f2.contains(
        q as usize,
    ) by {
        if q == r {
            assert(f2[front.len() as int] == r);
        } else {
            assert(keep[q]);
            let x = front.index_of(q as usize);
            assert(f2[x] == q);
        }
    }
}

/// Mark the choices nothing beats, one spelling of each: one forward pass over
/// the groups, richest first, keeping a front of what is not yet beaten.
fn sweep(v: &Vec<Choice>, keys: &Vec<Key>, idx: &Vec<usize>, wide: bool) -> (keep: Vec<bool>)
    requires
        keys@.len() == v@.len(),
        forall|i: int| 0 <= i < v@.len() ==> (#[trigger] keys@[i]).sums_up(v@[i]@, wide),
        covers_range(idx@, 0, v@.len() as int),
        in_order(keys@, idx@),
        idx@.len() == v@.len(),
    ensures
        keep@.len() == v@.len(),
        swept(v@, keys@, idx@, keep@, idx@.len() as int, wide),
{
    let mut keep: Vec<bool> = Vec::new();
    let mut n: usize = 0;
    while n < v.len()
        invariant
            n <= v@.len(),
            keep@.len() == n,
            forall|i: int| 0 <= i < n ==> !#[trigger] keep@[i],
        decreases v@.len() - n,
    {
        keep.push(false);
        n += 1;
    }
    let mut front: Vec<usize> = Vec::new();
    let mut group: u64 = 0;
    let mut t: usize = 0;
    proof {
        reveal(swept);
        reveal(fronts);
    }
    while t < idx.len()
        invariant
            t <= idx@.len(),
            keys@.len() == v@.len(),
            keep@.len() == v@.len(),
            forall|i: int| 0 <= i < v@.len() ==> (#[trigger] keys@[i]).sums_up(v@[i]@, wide),
            covers_range(idx@, 0, v@.len() as int),
            in_order(keys@, idx@),
            idx@.len() == v@.len(),
            swept(v@, keys@, idx@, keep@, t as int, wide),
            fronts(v@, keys@, keep@, front@, group),
            t > 0 ==> keys@[idx@[t - 1] as int].group == group,
        decreases idx@.len() - t,
    {
        proof {
            assert(idx@.contains(idx@[t as int]));
            lemma_unkept(v@, keys@, idx@, keep@, t as int, wide);
        }
        let r: usize = idx[t];
        if t == 0 || keys[r].group != group {
            proof {
                lemma_new_group(v@, keys@, idx@, keep@, t as int, wide);
            }
            front = Vec::new();
            assert(front@ =~= Seq::empty());
            group = keys[r].group;
        }
        proof {
            assert forall|i: int| 0 <= i < front@.len() implies #[trigger] front@[i] < v@.len()
                && keep@[front@[i] as int] by {
                reveal(fronts);
            }
        }
        match dominator(v, keys, &front, r, wide) {
            Some(i) => {
                let f: usize = front[i];
                proof {
                    lemma_richer(keys@[r as int], keys@[f as int], v@[r as int]@, v@[f as int]@, wide);
                    lemma_choice_total(v@[r as int]@, v@[f as int]@);
                }
                if richer(&keys[r], &keys[f]) && v[r].less(&v[f]) {
                    proof {
                        lemma_sweep_replace(v@, keys@, idx@, keep@, t as int, wide, f as int);
                        lemma_front_replace(v@, keys@, keep@, front@, group, i as int, r);
                    }
                    keep.set(f, false);
                    keep.set(r, true);
                    front.set(i, r);
                } else {
                    proof {
                        lemma_sweep_drop(v@, keys@, idx@, keep@, t as int, wide, f as int);
                    }
                }
            },
            None => {
                proof {
                    assert forall|f: int|
                        0 <= f < v@.len() && #[trigger] keep@[f] && keys@[f].group
                            == keys@[r as int].group implies !(alike(v@[f]@, v@[r as int]@, wide)
                        && as_rich(v@[f]@, v@[r as int]@, wide)) by {
                        reveal(fronts);
                        let x = front@.index_of(f as usize);
                        assert(front@[x] == f);
                    }
                    lemma_sweep_add(v@, keys@, idx@, keep@, t as int, wide);
                    lemma_front_add(v@, keys@, keep@, front@, group, r);
                }
                front.push(r);
                keep.set(r, true);
            },
        }
        t += 1;
    }
    keep
}

/// The survivors of a list are the choices in it that nothing in it beats.
proof fn lemma_survivors(s: Seq<Seq<Effect>>, wide: bool, n: int)
    requires
        0 <= n <= s.len(),
    ensures
        forall|c: Seq<Effect>| #[trigger]
            survivors(s, wide, n).contains(c) <==> s.take(n).contains(c) && survives(s, c, wide),
    decreases n,
{
    let out = survivors(s, wide, n);
    if n > 0 {
        lemma_survivors(s, wide, n - 1);
        let rest = survivors(s, wide, n - 1);
        assert forall|c: Seq<Effect>| #[trigger] out.contains(c) <==> s.take(n).contains(c)
            && survives(s, c, wide) by {
            if out.contains(c) {
                let k = out.index_of(c);
                if k < rest.len() {
                    assert(rest[k] == c);
                    assert(rest.contains(c));
                    let m = s.take(n - 1).index_of(c);
                    assert(s.take(n)[m] == c);
                } else {
                    assert(s.take(n)[n - 1] == c);
                }
            }
            if s.take(n).contains(c) && survives(s, c, wide) {
                let k = s.take(n).index_of(c);
                if k < n - 1 {
                    assert(s.take(n - 1)[k] == c);
                    assert(rest.contains(c));
                    assert(out[rest.index_of(c)] == c);
                } else {
                    assert(out[rest.len() as int] == c);
                }
            }
        }
    }
}

/// What a pruned list holds: at level zero everything the list held, above it
/// exactly the choices nothing in the list beats.
pub proof fn pruned_list_holds(s: Seq<Seq<Effect>>, prune: u8)
    ensures
        ascending(undominated(s, prune)),
        prune == 0 ==> forall|c: Seq<Effect>| #[trigger]
            undominated(s, prune).contains(c) <==> s.contains(c),
        prune >= 1 ==> forall|c: Seq<Effect>| #[trigger]
            undominated(s, prune).contains(c) <==> s.contains(c) && survives(s, c, prune >= 2),
{
    lemma_survivors(s, prune >= 2, s.len() as int);
    assert(s.take(s.len() as int) =~= s);
    sorted_unique_keeps(s);
    sorted_unique_keeps(survivors(s, prune >= 2, s.len() as int));
}

/// Sort, deduplicate, and drop every choice another choice makes pointless.
///
/// Two choices that agree on every effect except how much corn, how many
/// blocks and how many points they move are not two decisions: whoever takes
/// the poorer one reaches exactly the position the other reaches, poorer. The
/// skip is exempt, being alone in its group.
pub fn dominated_dedup(prune: u8, v: Vec<Choice>) -> (out: Vec<Choice>)
    ensures
        views(out@) == undominated(views(v@), prune),
{
    if !pruning_on(prune) {
        return dedup(v);
    }
    let wide = wide_pruning_on(prune);
    let mut keys: Vec<Key> = Vec::new();
    let mut i: usize = 0;
    while i < v.len()
        invariant
            i <= v@.len(),
            keys@.len() == i,
            forall|j: int| 0 <= j < i ==> (#[trigger] keys@[j]).sums_up(v@[j]@, wide),
        decreases v@.len() - i,
    {
        keys.push(Key::of(&v[i], wide));
        i += 1;
    }
    let idx = sorted_positions(&keys);
    let keep = sweep(&v, &keys, &idx, wide);
    let mut kept: Vec<Choice> = Vec::new();
    let mut r: usize = 0;
    while r < v.len()
        invariant
            r <= v@.len(),
            keep@.len() == v@.len(),
            forall|q: int|
                0 <= q < r && #[trigger] keep@[q] ==> views(kept@).contains(v@[q]@),
            forall|c: Seq<Effect>| #[trigger]
                views(kept@).contains(c) ==> exists|q: int|
                    0 <= q < r && #[trigger] keep@[q] && v@[q]@ == c,
        decreases v@.len() - r,
    {
        let ghost before = views(kept@);
        if keep[r] {
            kept.push(v[r].clone());
            proof {
                let now = views(kept@);
                assert(now =~= before.push(v@[r as int]@));
                assert(now[before.len() as int] == v@[r as int]@);
                assert forall|q: int|
                    0 <= q < r + 1 && #[trigger] keep@[q] implies now.contains(v@[q]@) by {
                    if q < r {
                        assert(now[before.index_of(v@[q]@)] == v@[q]@);
                    }
                }
                assert forall|c: Seq<Effect>| #[trigger] now.contains(c) implies exists|q: int|
                    0 <= q < r + 1 && #[trigger] keep@[q] && v@[q]@ == c by {
                    let k = now.index_of(c);
                    if k < before.len() {
                        assert(before[k] == c);
                        assert(before.contains(c));
                        let q = choose|q: int| 0 <= q < r && #[trigger] keep@[q] && v@[q]@ == c;
                        assert(keep@[q]);
                    } else {
                        assert(keep@[r as int] && v@[r as int]@ == c);
                    }
                }
            }
        }
        r += 1;
    }
    let out = sort_unique(&kept);
    proof {
        let s = views(v@);
        let a = views(kept@);
        let b = survivors(s, wide, s.len() as int);
        lemma_kept(v@, keys@, idx@, keep@, wide);
        lemma_survivors(s, wide, s.len() as int);
        assert(s.take(s.len() as int) =~= s);
        sorted_unique_keeps(a);
        sorted_unique_keeps(b);
        assert forall|c: Seq<Effect>| #[trigger] sorted_unique(a).contains(c) <==> sorted_unique(
            b,
        ).contains(c) by {
            if a.contains(c) {
                let q = choose|q: int| 0 <= q < v@.len() && #[trigger] keep@[q] && v@[q]@ == c;
                assert(keep@[q]);
                assert(s[q] == c);
                assert(b.contains(c));
            }
            if b.contains(c) {
                assert(s.contains(c) && survives(s, c, wide));
                let q = choose|q: int| 0 <= q < v@.len() && #[trigger] keep@[q] && v@[q]@ == c;
                assert(keep@[q]);
                assert(a.contains(c));
            }
        }
        ascending_is_canonical(sorted_unique(a), sorted_unique(b));
    }
    out
}

/// What the finished sweep kept: exactly the choices nothing beats.
proof fn lemma_kept(
    v: Seq<Choice>,
    keys: Seq<Key>,
    idx: Seq<usize>,
    keep: Seq<bool>,
    wide: bool,
)
    requires
        swept(v, keys, idx, keep, idx.len() as int, wide),
        covers_range(idx, 0, v.len() as int),
        v.len() <= usize::MAX,
    ensures
        forall|q: int| 0 <= q < v.len() && #[trigger] keep[q] ==> survives(views(v), v[q]@, wide),
        forall|c: Seq<Effect>|
            views(v).contains(c) && #[trigger] survives(views(v), c, wide) ==> exists|q: int|
                0 <= q < v.len() && #[trigger] keep[q] && v[q]@ == c,
{
    reveal(swept);
    let s = views(v);
    let n = idx.len() as int;
    assert forall|r: int| 0 <= r < v.len() implies #[trigger] visited(idx, n, r) by {
        assert(idx.contains(r as usize));
        let k = idx.index_of(r as usize);
        assert(0 <= k < n && idx[k] == r);
    }
    assert forall|q: int| 0 <= q < v.len() && #[trigger] keep[q] implies survives(
        s,
        v[q]@,
        wide,
    ) by {
        assert forall|i: int| 0 <= i < s.len() implies !beats(#[trigger] s[i], v[q]@, wide) by {
            if beats(s[i], v[q]@, wide) {
                assert(visited(idx, n, i));
                let f = choose|f: int|
                    0 <= f < v.len() && #[trigger] keep[f] && stands_for(v[f]@, v[i]@, wide);
                assert(keep[f]);
                if v[f]@ != v[i]@ {
                    beating_is_transitive(v[f]@, v[i]@, v[q]@, wide);
                }
                assert(beats(v[f]@, v[q]@, wide));
                lemma_beats_irreflexive(v[q]@, wide);
            }
        }
    }
    assert forall|c: Seq<Effect>|
        s.contains(c) && #[trigger] survives(s, c, wide) implies exists|q: int|
        0 <= q < v.len() && #[trigger] keep[q] && v[q]@ == c by {
        let r = s.index_of(c);
        assert(visited(idx, n, r));
        let f = choose|f: int|
            0 <= f < v.len() && #[trigger] keep[f] && stands_for(v[f]@, v[r]@, wide);
        assert(s[f] == v[f]@);
        assert(!beats(s[f], c, wide));
        assert(keep[f] && v[f]@ == c);
    }
}

/// How many of the first `n` choices of a list beat a choice.
spec fn beaters(s: Seq<Seq<Effect>>, c: Seq<Effect>, wide: bool, n: int) -> nat
    decreases n,
{
    if n <= 0 {
        0
    } else if beats(s[n - 1], c, wide) {
        beaters(s, c, wide, n - 1) + 1
    } else {
        beaters(s, c, wide, n - 1)
    }
}

/// What beats a choice is beaten by fewer than the choice is.
proof fn lemma_fewer_beaters(
    s: Seq<Seq<Effect>>,
    k: int,
    c: Seq<Effect>,
    wide: bool,
    n: int,
)
    requires
        0 <= k < s.len(),
        0 <= n <= s.len(),
        beats(s[k], c, wide),
    ensures
        beaters(s, s[k], wide, n) <= beaters(s, c, wide, n),
        k < n ==> beaters(s, s[k], wide, n) < beaters(s, c, wide, n),
    decreases n,
{
    if n > 0 {
        lemma_fewer_beaters(s, k, c, wide, n - 1);
        if beats(s[n - 1], s[k], wide) {
            beating_is_transitive(s[n - 1], s[k], c, wide);
        }
        if k == n - 1 {
            lemma_beats_irreflexive(s[k], wide);
        }
    }
}

/// A choice is beaten by a surviving one, or survives itself.
proof fn lemma_survivor_above(s: Seq<Seq<Effect>>, k: int, wide: bool) -> (j: int)
    requires
        0 <= k < s.len(),
    ensures
        0 <= j < s.len(),
        survives(s, s[j], wide),
        stands_for(s[j], s[k], wide),
    decreases beaters(s, s[k], wide, s.len() as int),
{
    if survives(s, s[k], wide) {
        k
    } else {
        let i = choose|i: int| 0 <= i < s.len() && beats(#[trigger] s[i], s[k], wide);
        lemma_fewer_beaters(s, i, s[k], wide, s.len() as int);
        let j = lemma_survivor_above(s, i, wide);
        if s[j] != s[i] {
            beating_is_transitive(s[j], s[i], s[k], wide);
        }
        j
    }
}

/// Pruning never loses a position: whatever it drops, something it keeps is
/// that choice or beats it.
pub proof fn pruning_keeps_a_better_choice(s: Seq<Seq<Effect>>, prune: u8, c: Seq<Effect>)
    requires
        s.contains(c),
    ensures
        exists|d: Seq<Effect>| #[trigger]
            undominated(s, prune).contains(d) && stands_for(d, c, prune >= 2),
{
    pruned_list_holds(s, prune);
    if prune == 0 {
        assert(undominated(s, prune).contains(c) && stands_for(c, c, prune >= 2));
    } else {
        let k = s.index_of(c);
        let j = lemma_survivor_above(s, k, prune >= 2);
        assert(s.contains(s[j]));
        assert(undominated(s, prune).contains(s[j]) && stands_for(s[j], c, prune >= 2));
    }
}

/// Doing nothing is never pruned away.
pub proof fn pruning_keeps_the_skip(s: Seq<Seq<Effect>>, prune: u8)
    requires
        s.contains(Seq::<Effect>::empty()),
    ensures
        undominated(s, prune).contains(Seq::<Effect>::empty()),
{
    let skip = Seq::<Effect>::empty();
    pruned_list_holds(s, prune);
    assert forall|i: int| 0 <= i < s.len() implies !beats(#[trigger] s[i], skip, prune >= 2) by {
        if beats(s[i], skip, prune >= 2) {
            assert(s[i] =~= skip);
            lemma_beats_irreflexive(skip, prune >= 2);
        }
    }
}

/// What pruning leaves depends on which choices a list holds and on nothing
/// else about it.
pub proof fn pruning_ignores_order(a: Seq<Seq<Effect>>, b: Seq<Seq<Effect>>, prune: u8)
    requires
        forall|c: Seq<Effect>| #[trigger] a.contains(c) <==> b.contains(c),
    ensures
        undominated(a, prune) == undominated(b, prune),
{
    pruned_list_holds(a, prune);
    pruned_list_holds(b, prune);
    let wide = prune >= 2;
    assert forall|c: Seq<Effect>| #[trigger] undominated(a, prune).contains(c) <==> undominated(
        b,
        prune,
    ).contains(c) by {
        if prune >= 1 {
            assert(survives(a, c, wide) == survives(b, c, wide)) by {
                if !survives(a, c, wide) {
                    let i = choose|i: int| 0 <= i < a.len() && beats(#[trigger] a[i], c, wide);
                    assert(a.contains(a[i]));
                    assert(b.contains(a[i]));
                    let j = b.index_of(a[i]);
                    assert(beats(b[j], c, wide));
                }
                if !survives(b, c, wide) {
                    let i = choose|i: int| 0 <= i < b.len() && beats(#[trigger] b[i], c, wide);
                    assert(b.contains(b[i]));
                    assert(a.contains(b[i]));
                    let j = a.index_of(b[i]);
                    assert(beats(a[j], c, wide));
                }
            }
        }
        assert(a.contains(c) == b.contains(c));
    }
    ascending_is_canonical(undominated(a, prune), undominated(b, prune));
}

/// Pruning part of a list first changes nothing about what pruning the whole
/// leaves.
pub proof fn pruning_in_parts(a: Seq<Seq<Effect>>, b: Seq<Seq<Effect>>, prune: u8)
    ensures
        undominated(undominated(a, prune) + b, prune) == undominated(a + b, prune),
{
    let wide = prune >= 2;
    let u = undominated(a, prune);
    let x = u + b;
    let y = a + b;
    pruned_list_holds(a, prune);
    pruned_list_holds(x, prune);
    pruned_list_holds(y, prune);
    assert forall|c: Seq<Effect>| #[trigger] x.contains(c) <==> u.contains(c) || b.contains(c) by {
        lemma_concat_contains(u, b, c);
    }
    assert forall|c: Seq<Effect>| #[trigger] y.contains(c) <==> a.contains(c) || b.contains(c) by {
        lemma_concat_contains(a, b, c);
    }
    if prune == 0 {
        pruning_ignores_order(x, y, prune);
    } else {
        assert forall|c: Seq<Effect>| #[trigger] undominated(x, prune).contains(c)
            <==> undominated(y, prune).contains(c) by {
            assert(survives(x, c, wide) == survives(y, c, wide)) by {
                if !survives(x, c, wide) {
                    let i = choose|i: int| 0 <= i < x.len() && beats(#[trigger] x[i], c, wide);
                    assert(x.contains(x[i]));
                    assert(y.contains(x[i]));
                    let j = y.index_of(x[i]);
                    assert(beats(y[j], c, wide));
                }
                if !survives(y, c, wide) {
                    let i = choose|i: int| 0 <= i < y.len() && beats(#[trigger] y[i], c, wide);
                    assert(y.contains(y[i]));
                    if b.contains(y[i]) {
                        assert(x.contains(y[i]));
                        let j = x.index_of(y[i]);
                        assert(beats(x[j], c, wide));
                    } else {
                        pruning_keeps_a_better_choice(a, prune, y[i]);
                        let d = choose|d: Seq<Effect>| #[trigger]
                            u.contains(d) && stands_for(d, y[i], wide);
                        if d != y[i] {
                            beating_is_transitive(d, y[i], c, wide);
                        }
                        assert(x.contains(d));
                        let j = x.index_of(d);
                        assert(beats(x[j], c, wide));
                    }
                }
            }
            if y.contains(c) && survives(y, c, wide) && !b.contains(c) {
                assert forall|i: int| 0 <= i < a.len() implies !beats(#[trigger] a[i], c, wide) by {
                    assert(y[i] == a[i]);
                }
                assert(u.contains(c));
            }
        }
        ascending_is_canonical(undominated(x, prune), undominated(y, prune));
    }
}

/// What the concatenation of two lists holds.
proof fn lemma_concat_contains(a: Seq<Seq<Effect>>, b: Seq<Seq<Effect>>, c: Seq<Effect>)
    ensures
        (a + b).contains(c) <==> a.contains(c) || b.contains(c),
{
    if (a + b).contains(c) {
        let k = (a + b).index_of(c);
        if k < a.len() {
            assert(a[k] == c);
        } else {
            assert(b[k - a.len()] == c);
        }
    }
    if a.contains(c) {
        assert((a + b)[a.index_of(c)] == c);
    }
    if b.contains(c) {
        assert((a + b)[a.len() + b.index_of(c)] == c);
    }
}

// ---- collapsing duplicates -----------------------------------------------

/// The last choice of a list that has a given digest.
pub open spec fn latest_like(kept: Seq<Seq<Effect>>, d: u64) -> Option<Seq<Effect>>
    decreases kept.len(),
{
    if kept.len() == 0 {
        None
    } else if whole_digest(kept.last()) == d {
        Some(kept.last())
    } else {
        latest_like(kept.drop_last(), d)
    }
}

/// Whether a choice is recognised as one already kept. A short list is searched
/// whole; a long one only remembers the last choice of each digest, so a digest
/// that two different choices share can leave a duplicate standing.
pub open spec fn recognised(kept: Seq<Seq<Effect>>, c: Seq<Effect>, long: bool) -> bool {
    if long {
        latest_like(kept, whole_digest(c)) == Some(c)
    } else {
        kept.contains(c)
    }
}

/// The first `n` choices of a list without those recognised as seen before.
pub open spec fn collapsed_to(s: Seq<Seq<Effect>>, n: int) -> Seq<Seq<Effect>>
    decreases n,
{
    if n <= 0 {
        Seq::empty()
    } else {
        let kept = collapsed_to(s, n - 1);
        if recognised(kept, s[n - 1], s.len() > 16) {
            kept
        } else {
            kept.push(s[n - 1])
        }
    }
}

/// A list of choices with its duplicates collapsed, in first-seen order.
pub open spec fn collapsed(s: Seq<Seq<Effect>>) -> Seq<Seq<Effect>> {
    collapsed_to(s, s.len() as int)
}

/// A choice found by its digest is in the list.
proof fn lemma_latest_like(kept: Seq<Seq<Effect>>, d: u64)
    ensures
        latest_like(kept, d) matches Some(c) ==> kept.contains(c) && whole_digest(c) == d,
        latest_like(kept, d) is None ==> forall|i: int|
            0 <= i < kept.len() ==> whole_digest(#[trigger] kept[i]) != d,
    decreases kept.len(),
{
    if kept.len() > 0 {
        let rest = kept.drop_last();
        lemma_latest_like(rest, d);
        assert(kept[kept.len() - 1] == kept.last());
        if whole_digest(kept.last()) != d {
            if let Some(c) = latest_like(rest, d) {
                assert(kept[rest.index_of(c)] == c);
            } else {
                assert forall|i: int| 0 <= i < kept.len() implies whole_digest(#[trigger] kept[i])
                    != d by {
                    if i < rest.len() {
                        assert(rest[i] == kept[i]);
                    }
                }
            }
        }
    }
}

/// Collapsing loses no choice and adds none, and in a list of at most sixteen
/// it leaves nothing standing twice.
pub proof fn collapsing_keeps_every_choice(s: Seq<Seq<Effect>>, n: int)
    requires
        0 <= n <= s.len(),
    ensures
        forall|c: Seq<Effect>| #[trigger]
            collapsed_to(s, n).contains(c) <==> s.take(n).contains(c),
        s.len() <= 16 ==> collapsed_to(s, n).no_duplicates(),
        collapsed_to(s, n).len() <= n,
    decreases n,
{
    if n > 0 {
        collapsing_keeps_every_choice(s, n - 1);
        let kept = collapsed_to(s, n - 1);
        let out = collapsed_to(s, n);
        let c0 = s[n - 1];
        if s.len() > 16 {
            lemma_latest_like(kept, whole_digest(c0));
        }
        assert forall|c: Seq<Effect>| #[trigger] out.contains(c) <==> s.take(n).contains(c) by {
            if out.contains(c) {
                let k = out.index_of(c);
                if k < kept.len() {
                    assert(kept[k] == c);
                    assert(kept.contains(c));
                    assert(s.take(n)[s.take(n - 1).index_of(c)] == c);
                } else {
                    assert(s.take(n)[n - 1] == c);
                }
            }
            if s.take(n).contains(c) {
                let k = s.take(n).index_of(c);
                if k < n - 1 {
                    assert(s.take(n - 1)[k] == c);
                    assert(kept.contains(c));
                    assert(out[kept.index_of(c)] == c);
                } else if recognised(kept, c0, s.len() > 16) {
                    assert(kept.contains(c0));
                } else {
                    assert(out[kept.len() as int] == c);
                }
            }
        }
    } else {
        assert(s.take(0) =~= Seq::empty());
    }
}

/// Collapsing a list before pruning it changes nothing about what pruning
/// leaves, whatever the digests do.
pub proof fn collapsing_is_invisible_to_pruning(s: Seq<Seq<Effect>>, prune: u8)
    ensures
        undominated(collapsed(s), prune) == undominated(s, prune),
{
    collapsing_keeps_every_choice(s, s.len() as int);
    assert(s.take(s.len() as int) =~= s);
    pruning_ignores_order(collapsed(s), s, prune);
}

/// Whether a list of choices holds one.
fn holds(v: &Vec<Choice>, c: &Choice) -> (b: bool)
    ensures
        b == views(v@).contains(c@),
{
    let mut k: usize = 0;
    while k < v.len()
        invariant
            k <= v@.len(),
            forall|j: int| 0 <= j < k ==> views(v@)[j] != c@,
        decreases v@.len() - k,
    {
        if v[k].same(c) {
            assert(views(v@)[k as int] == c@);
            return true;
        }
        k += 1;
    }
    false
}

/// Collapse exact duplicates, imposing no order.
pub fn dedup_unordered(v: Vec<Choice>) -> (out: Vec<Choice>)
    ensures
        views(out@) == collapsed(views(v@)),
{
    let ghost s = views(v@);
    let mut out: Vec<Choice> = Vec::new();
    if v.len() <= 16 {
        let mut r: usize = 0;
        assert(views(out@) =~= Seq::empty());
        while r < v.len()
            invariant
                r <= v@.len(),
                v@.len() <= 16,
                s == views(v@),
                views(out@) == collapsed_to(s, r as int),
            decreases v@.len() - r,
        {
            let ghost kept = views(out@);
            if !holds(&out, &v[r]) {
                out.push(v[r].clone());
                assert(views(out@) =~= kept.push(s[r as int]));
            }
            r += 1;
        }
        return out;
    }
    let mut seen = SeenDigests::new();
    let mut r: usize = 0;
    assert(views(out@) =~= Seq::empty());
    while r < v.len()
        invariant
            r <= v@.len(),
            v@.len() > 16,
            s == views(v@),
            views(out@) == collapsed_to(s, r as int),
            forall|d: u64| #[trigger]
                seen@.contains_key(d) <==> latest_like(views(out@), d) is Some,
            forall|d: u64| #[trigger]
                seen@.contains_key(d) ==> seen@[d] < out@.len() && Some(out@[seen@[d] as int]@)
                    == latest_like(views(out@), d),
        decreases v@.len() - r,
    {
        let ghost kept = views(out@);
        let d: u64 = choice_digest(&v[r]);
        let known = match seen.get(d) {
            Some(i) => {
                assert(seen@.contains_key(d));
                out[i].same(&v[r])
            },
            None => {
                assert(!seen@.contains_key(d));
                false
            },
        };
        if !known {
            let ghost was = seen@;
            seen.insert(d, out.len());
            out.push(v[r].clone());
            proof {
                let now = views(out@);
                assert(now =~= kept.push(s[r as int]));
                assert(now.drop_last() =~= kept);
                assert forall|e: u64| #[trigger] seen@.contains_key(e) <==> latest_like(now, e) is Some by {
                    if e != d {
                        assert(was.contains_key(e) == seen@.contains_key(e));
                    }
                }
                assert forall|e: u64| #[trigger] seen@.contains_key(e) implies seen@[e] < out@.len()
                    && Some(out@[seen@[e] as int]@) == latest_like(now, e) by {
                    if e != d {
                        assert(was.contains_key(e));
                    }
                }
            }
        }
        r += 1;
    }
    out
}

/// The first `n` choices of a list without those that reach a position an
/// earlier one reaches.
pub open spec fn by_position(
    rules: Rulebook,
    g: GameState,
    p: PlayerId,
    s: Seq<Seq<Effect>>,
    n: int,
) -> Seq<Seq<Effect>>
    decreases n,
{
    if n <= 0 {
        Seq::empty()
    } else {
        let kept = by_position(rules, g, p, s, n - 1);
        if exists|i: int|
            0 <= i < n - 1 && after_all(rules, g, p, #[trigger] s[i]) == after_all(
                rules,
                g,
                p,
                s[n - 1],
            ) {
            kept
        } else {
            kept.push(s[n - 1])
        }
    }
}

/// Drop every choice that lands in a position an earlier one already reaches.
///
/// Two choices that leave the table in the same state are the same move for
/// every purpose downstream; all that is lost is one of two spellings.
pub fn dedup_by_position(
    rules: &Rulebook,
    g: &GameState,
    p: PlayerId,
    v: Vec<Choice>,
) -> (out: Vec<Choice>)
    requires
        p.ok(),
        all_ok(views(v@)),
    ensures
        views(out@) == by_position(*rules, *g, p, views(v@), v@.len() as int),
{
    let ghost s = views(v@);
    let mut seen = Positions::new();
    let mut out: Vec<Choice> = Vec::new();
    let mut r: usize = 0;
    assert(views(out@) =~= Seq::empty());
    while r < v.len()
        invariant
            r <= v@.len(),
            p.ok(),
            s == views(v@),
            all_ok(s),
            seen.ok(),
            views(out@) == by_position(*rules, *g, p, s, r as int),
            forall|q: GameState| #[trigger]
                seen@.contains(q) <==> exists|i: int|
                    0 <= i < r && after_all(*rules, *g, p, #[trigger] s[i]) == q,
        decreases v@.len() - r,
    {
        let ghost kept = views(out@);
        let ghost was = seen@;
        let mut probe = *g;
        assert(effects_ok(s[r as int]));
        v[r].apply(rules, &mut probe, p);
        if seen.insert(probe) {
            out.push(v[r].clone());
            assert(views(out@) =~= kept.push(s[r as int]));
        }
        proof {
            assert(probe == after_all(*rules, *g, p, s[r as int]));
            assert forall|q: GameState| #[trigger] seen@.contains(q) <==> exists|i: int|
                0 <= i < r + 1 && after_all(*rules, *g, p, #[trigger] s[i]) == q by {
                if was.contains(q) {
                    let i = choose|i: int|
                        0 <= i < r && after_all(*rules, *g, p, #[trigger] s[i]) == q;
                    assert(0 <= i < r + 1 && after_all(*rules, *g, p, s[i]) == q);
                }
                if q == probe {
                    assert(after_all(*rules, *g, p, s[r as int]) == q);
                }
            }
        }
        r += 1;
    }
    out
}

/// Dropping by position reaches every position the list reached.
pub proof fn positions_are_kept(
    rules: Rulebook,
    g: GameState,
    p: PlayerId,
    s: Seq<Seq<Effect>>,
    n: int,
    k: int,
)
    requires
        0 <= k < n <= s.len(),
    ensures
        exists|j: int|
            0 <= j < by_position(rules, g, p, s, n).len() && after_all(
                rules,
                g,
                p,
                #[trigger] by_position(rules, g, p, s, n)[j],
            ) == after_all(rules, g, p, s[k]),
    decreases n, k,
{
    let out = by_position(rules, g, p, s, n);
    let kept = by_position(rules, g, p, s, n - 1);
    if k < n - 1 {
        positions_are_kept(rules, g, p, s, n - 1, k);
        let j = choose|j: int|
            0 <= j < kept.len() && after_all(rules, g, p, #[trigger] kept[j]) == after_all(
                rules,
                g,
                p,
                s[k],
            );
        assert(out[j] == kept[j]);
    } else if exists|i: int|
        0 <= i < n - 1 && after_all(rules, g, p, #[trigger] s[i]) == after_all(
            rules,
            g,
            p,
            s[n - 1],
        ) {
        let i = choose|i: int|
            0 <= i < n - 1 && after_all(rules, g, p, #[trigger] s[i]) == after_all(
                rules,
                g,
                p,
                s[n - 1],
            );
        positions_are_kept(rules, g, p, s, n - 1, i);
    } else {
        assert(out[kept.len() as int] == s[k]);
    }
}

/// Whether every effect of every choice of a list names something that exists.
pub open spec fn all_ok(s: Seq<Seq<Effect>>) -> bool {
    forall|i: int| 0 <= i < s.len() ==> effects_ok(#[trigger] s[i])
}

/// A list that holds only what a sound list holds is sound.
proof fn lemma_subset_ok(a: Seq<Seq<Effect>>, b: Seq<Seq<Effect>>)
    requires
        forall|c: Seq<Effect>| #[trigger] a.contains(c) ==> b.contains(c),
        all_ok(b),
    ensures
        all_ok(a),
{
    assert forall|i: int| 0 <= i < a.len() implies effects_ok(#[trigger] a[i]) by {
        assert(a.contains(a[i]));
        assert(b.contains(a[i]));
        assert(effects_ok(b[b.index_of(a[i])]));
    }
}

/// Collapsing keeps a list sound.
pub proof fn lemma_collapsed_ok(s: Seq<Seq<Effect>>)
    requires
        all_ok(s),
    ensures
        all_ok(collapsed(s)),
{
    collapsing_keeps_every_choice(s, s.len() as int);
    assert(s.take(s.len() as int) =~= s);
    lemma_subset_ok(collapsed(s), s);
}

/// Sorting keeps a list sound.
pub proof fn lemma_sorted_ok(s: Seq<Seq<Effect>>)
    requires
        all_ok(s),
    ensures
        all_ok(sorted_unique(s)),
{
    sorted_unique_keeps(s);
    lemma_subset_ok(sorted_unique(s), s);
}

/// Pruning keeps a list sound.
pub proof fn lemma_undominated_ok(s: Seq<Seq<Effect>>, prune: u8)
    requires
        all_ok(s),
    ensures
        all_ok(undominated(s, prune)),
{
    pruned_list_holds(s, prune);
    lemma_subset_ok(undominated(s, prune), s);
}

/// Dropping by position keeps a list sound.
pub proof fn lemma_by_position_ok(
    rules: Rulebook,
    g: GameState,
    p: PlayerId,
    s: Seq<Seq<Effect>>,
    n: int,
)
    requires
        all_ok(s),
        0 <= n <= s.len(),
    ensures
        all_ok(by_position(rules, g, p, s, n)),
    decreases n,
{
    if n > 0 {
        lemma_by_position_ok(rules, g, p, s, n - 1);
        assert(effects_ok(s[n - 1]));
    }
}

} // verus!
