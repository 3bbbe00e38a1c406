//! Orders: what sorts before what, a merge sort over any of them, and the
//! canonical order of choices.

use crate::effect::{Choice, Effect};
use crate::ids::TileKind;
use crate::options::pack;
use vstd::prelude::*;

verus! {

/// Values that sort by a strict weak order.
pub trait Ranked: Sized {
    /// Whether `a` sorts before `b`.
    spec fn before(a: Self, b: Self) -> bool;

    /// No two values sort before each other.
    proof fn one_way(a: Self, b: Self)
        requires
            Self::before(a, b),
        ensures
            !Self::before(b, a),
    ;

    /// Not sorting after is transitive.
    proof fn onward(a: Self, b: Self, c: Self)
        requires
            !Self::before(b, a),
            !Self::before(c, b),
        ensures
            !Self::before(c, a),
    ;

    /// Whether this value sorts before another.
    fn less(&self, other: &Self) -> (b: bool)
        ensures
            b == Self::before(*self, *other),
    ;
}

/// Whether an index list names every position of `lo..hi` once.
pub open spec fn covers_range(idx: Seq<usize>, lo: int, hi: int) -> bool {
    &&& idx.no_duplicates()
    &&& forall|k: usize| #[trigger] idx.contains(k) <==> lo <= k < hi
}

/// Whether an index list visits values in order.
pub open spec fn in_order<T: Ranked>(v: Seq<T>, idx: Seq<usize>) -> bool {
    forall|i: int, j: int|
        0 <= i < j < idx.len() ==> !T::before(v[#[trigger] idx[j] as int], v[#[trigger] idx[i] as int])
}

/// Whether a value is among the first `n` of a list.
spec fn among(s: Seq<usize>, n: int, k: usize) -> bool {
    exists|x: int| 0 <= x < n && #[trigger] s[x] == k
}

/// Merge two ordered index lists over neighbouring ranges.
fn merge<T: Ranked>(
    v: &Vec<T>,
    a: Vec<usize>,
    b: Vec<usize>,
    Ghost(lo): Ghost<int>,
    Ghost(mid): Ghost<int>,
    Ghost(hi): Ghost<int>,
) -> (out: Vec<usize>)
    requires
        0 <= lo <= mid <= hi <= v@.len(),
        covers_range(a@, lo, mid),
        covers_range(b@, mid, hi),
        in_order(v@, a@),
        in_order(v@, b@),
        a@.len() == mid - lo,
        b@.len() == hi - mid,
    ensures
        covers_range(out@, lo, hi),
        in_order(v@, out@),
        out@.len() == hi - lo,
{
    let mut out: Vec<usize> = Vec::new();
    let mut i: usize = 0;
    let mut j: usize = 0;
    proof {
        assert forall|k: int| 0 <= k < a@.len() implies lo <= #[trigger] a@[k] < mid by {
            assert(a@.contains(a@[k]));
        }
        assert forall|k: int| 0 <= k < b@.len() implies mid <= #[trigger] b@[k] < hi by {
            assert(b@.contains(b@[k]));
        }
    }
    while i < a.len() || j < b.len()
        invariant
            i <= a@.len(),
            j <= b@.len(),
            out@.len() == i + j,
            0 <= lo <= mid <= hi <= v@.len(),
            forall|k: int| 0 <= k < a@.len() ==> lo <= #[trigger] a@[k] < mid,
            forall|k: int| 0 <= k < b@.len() ==> mid <= #[trigger] b@[k] < hi,
            a@.no_duplicates(),
            b@.no_duplicates(),
            in_order(v@, a@),
            in_order(v@, b@),
            in_order(v@, out@),
            out@.no_duplicates(),
            forall|k: int|
                0 <= k < out@.len() ==> among(a@, i as int, #[trigger] out@[k])
                    || among(b@, j as int, out@[k]),
            forall|x: int| 0 <= x < i ==> out@.contains(#[trigger] a@[x]),
            forall|x: int| 0 <= x < j ==> out@.contains(#[trigger] b@[x]),
            forall|k: int, x: int|
                0 <= k < out@.len() && i <= x < a@.len() ==> !T::before(
                    v@[#[trigger] a@[x] as int],
                    v@[#[trigger] out@[k] as int],
                ),
            forall|k: int, x: int|
                0 <= k < out@.len() && j <= x < b@.len() ==> !T::before(
                    v@[#[trigger] b@[x] as int],
                    v@[#[trigger] out@[k] as int],
                ),
        decreases a@.len() - i + b@.len() - j,
    {
        let take_b = if i >= a.len() {
            true
        } else if j >= b.len() {
            false
        } else {
            v[b[j]].less(&v[a[i]])
        };
        let ghost o0 = out@;
        if take_b {
            proof {
                assert forall|x: int| i <= x < a@.len() implies !T::before(
                    v@[#[trigger] a@[x] as int],
                    v@[b@[j as int] as int],
                ) by {
                    if i < x {
                        T::one_way(v@[b@[j as int] as int], v@[a@[i as int] as int]);
                        T::onward(v@[b@[j as int] as int], v@[a@[i as int] as int], v@[a@[x] as int]);
                    } else {
                        T::one_way(v@[b@[j as int] as int], v@[a@[i as int] as int]);
                    }
                }
                lemma_fresh(v@, out@, a@, b@, i as int, j as int, mid, true);
            }
            out.push(b[j]);
            j += 1;
        } else {
            proof {
                assert forall|x: int| j <= x < b@.len() implies !T::before(
                    v@[#[trigger] b@[x] as int],
                    v@[a@[i as int] as int],
                ) by {
                    if j < x {
                        T::onward(v@[a@[i as int] as int], v@[b@[j as int] as int], v@[b@[x] as int]);
                    }
                }
                lemma_fresh(v@, out@, a@, b@, i as int, j as int, mid, false);
            }
            out.push(a[i]);
            i += 1;
        }
        proof {
            let last = out@.last();
            assert(out@ =~= o0.push(last));
            assert(out@[o0.len() as int] == last);
            assert forall|k: int| 0 <= k < out@.len() implies among(a@, i as int, #[trigger] out@[k])
                || among(b@, j as int, out@[k]) by {
                if k < o0.len() {
                    assert(out@[k] == o0[k]);
                } else if take_b {
                    assert(b@[j - 1] == out@[k]);
                } else {
                    assert(a@[i - 1] == out@[k]);
                }
            }
            assert forall|x: int| 0 <= x < i implies out@.contains(#[trigger] a@[x]) by {
                if o0.contains(a@[x]) {
                    let k = o0.index_of(a@[x]);
                    assert(out@[k] == a@[x]);
                }
            }
            assert forall|x: int| 0 <= x < j implies out@.contains(#[trigger] b@[x]) by {
                if o0.contains(b@[x]) {
                    let k = o0.index_of(b@[x]);
                    assert(out@[k] == b@[x]);
                }
            }
        }
    }
    proof {
        assert forall|k: usize| #[trigger] out@.contains(k) <==> lo <= k < hi by {
            if lo <= k < mid {
                assert(a@.contains(k));
                let x = a@.index_of(k);
                assert(out@.contains(a@[x]));
            }
            if mid <= k < hi {
                assert(b@.contains(k));
                let x = b@.index_of(k);
                assert(out@.contains(b@[x]));
            }
        }
    }
    out
}

/// The next index taken by a merge was not taken before.
proof fn lemma_fresh<T: Ranked>(
    v: Seq<T>,
    out: Seq<usize>,
    a: Seq<usize>,
    b: Seq<usize>,
    i: int,
    j: int,
    mid: int,
    from_b: bool,
)
    requires
        0 <= i <= a.len(),
        0 <= j <= b.len(),
        from_b ==> j < b.len(),
        !from_b ==> i < a.len(),
        forall|k: int| 0 <= k < a.len() ==> #[trigger] a[k] < mid,
        forall|k: int| 0 <= k < b.len() ==> mid <= #[trigger] b[k],
        a.no_duplicates(),
        b.no_duplicates(),
        forall|k: int|
            0 <= k < out.len() ==> among(a, i, #[trigger] out[k]) || among(b, j, out[k]),
    ensures
        from_b ==> !out.contains(b[j]),
        !from_b ==> !out.contains(a[i]),
{
    if from_b && out.contains(b[j]) {
        let k = out.index_of(b[j]);
        assert(out[k] == b[j]);
    }
    if !from_b && out.contains(a[i]) {
        let k = out.index_of(a[i]);
        assert(out[k] == a[i]);
    }
}

/// The positions `lo..hi`, ordered by the values they hold.
fn sort_range<T: Ranked>(v: &Vec<T>, lo: usize, hi: usize) -> (out: Vec<usize>)
    requires
        lo <= hi <= v@.len(),
    ensures
        covers_range(out@, lo as int, hi as int),
        in_order(v@, out@),
        out@.len() == hi - lo,
    decreases hi - lo,
{
    let mut out: Vec<usize> = Vec::new();
    if lo == hi {
        return out;
    }
    if lo + 1 == hi {
        out.push(lo);
        assert(out@[0] == lo);
        return out;
    }
    let mid: usize = lo + (hi - lo) / 2;
    let a = sort_range(v, lo, mid);
    let b = sort_range(v, mid, hi);
    merge(v, a, b, Ghost(lo as int), Ghost(mid as int), Ghost(hi as int))
}

/// Every position of a list, ordered by the values they hold.
pub fn sorted_positions<T: Ranked>(v: &Vec<T>) -> (out: Vec<usize>)
    ensures
        covers_range(out@, 0, v@.len() as int),
        in_order(v@, out@),
        out@.len() == v@.len(),
{
    sort_range(v, 0, v.len())
}

// ---- the order of choices ------------------------------------------------

/// Where an effect stands among the variants.
pub open spec fn variant(e: Effect) -> int {
    match e {
        Effect::Corn(_) => 0,
        Effect::SetCorn(_) => 1,
        Effect::Res(_, _) => 2,
        Effect::Points(_) => 3,
        Effect::TempleStep(_, _) => 4,
        Effect::AdvanceResearch(_) => 5,
        Effect::UnlockWorker => 6,
        Effect::FreeWorker(_) => 7,
        Effect::WorkerDiscount(_) => 8,
        Effect::TakePalenqueTile(_, _) => 9,
        Effect::BurnPalenqueWood(_) => 10,
        Effect::FillChichen(_) => 11,
        Effect::Build(_) => 12,
        Effect::TakeMonument(_) => 13,
    }
}

/// Where a tile kind stands: corn, then wood.
pub open spec fn tile_rank(k: TileKind) -> int {
    match k {
        TileKind::Corn => 0,
        TileKind::Wood => 1,
    }
}

/// Whether one effect sorts before another: by variant, and within a variant
/// field by field.
pub open spec fn effect_lt(a: Effect, b: Effect) -> bool {
    match (a, b) {
        (Effect::Corn(x), Effect::Corn(y)) => x < y,
        (Effect::SetCorn(x), Effect::SetCorn(y)) => x < y,
        (Effect::Res(r, x), Effect::Res(s, y)) => r.rank() < s.rank() || (r == s && x < y),
        (Effect::Points(x), Effect::Points(y)) => x < y,
        (Effect::TempleStep(r, x), Effect::TempleStep(s, y)) => r.rank() < s.rank() || (r == s && x
            < y),
        (Effect::AdvanceResearch(x), Effect::AdvanceResearch(y)) => x.rank() < y.rank(),
        (Effect::FreeWorker(x), Effect::FreeWorker(y)) => x < y,
        (Effect::WorkerDiscount(x), Effect::WorkerDiscount(y)) => x < y,
        (Effect::TakePalenqueTile(r, x), Effect::TakePalenqueTile(s, y)) => r.0 < s.0 || (r == s
            && tile_rank(x) < tile_rank(y)),
        (Effect::BurnPalenqueWood(x), Effect::BurnPalenqueWood(y)) => x.0 < y.0,
        (Effect::FillChichen(x), Effect::FillChichen(y)) => x.0 < y.0,
        (Effect::Build(x), Effect::Build(y)) => x.0 < y.0,
        (Effect::TakeMonument(x), Effect::TakeMonument(y)) => x.0 < y.0,
        _ => variant(a) < variant(b),
    }
}

/// What an effect packs to: its variant above bit twenty, its fields below,
/// signed fields biased to be non-negative.
pub open spec fn packed(e: Effect) -> int {
    variant(e) * 1048576 + match e {
        Effect::Corn(n) => n + 32768,
        Effect::SetCorn(n) => n as int,
        Effect::Res(r, n) => r.rank() * 512 + (n + 128),
        Effect::Points(n) => n + 128,
        Effect::TempleStep(t, n) => t.rank() * 512 + (n + 128),
        Effect::AdvanceResearch(s) => s.rank(),
        Effect::UnlockWorker => 0,
        Effect::FreeWorker(n) => n + 128,
        Effect::WorkerDiscount(n) => n + 128,
        Effect::TakePalenqueTile(pos, k) => pos.0 * 512 + tile_rank(k),
        Effect::BurnPalenqueWood(pos) => pos.0 as int,
        Effect::FillChichen(pos) => pos.0 as int,
        Effect::Build(b) => b.0 as int,
        Effect::TakeMonument(m) => m.0 as int,
    }
}

/// Packing keeps the order of effects.
pub proof fn packed_order_matches(a: Effect, b: Effect)
    ensures
        effect_lt(a, b) <==> packed(a) < packed(b),
{
}

/// No two effects pack to the same word.
pub proof fn packing_loses_nothing(a: Effect, b: Effect)
    ensures
        packed(a) == packed(b) ==> a == b,
        0 <= packed(a) < 14680064,
{
}

/// Whether one list of effects sorts before another: at the first place they
/// differ, with a list sorting before its own extensions.
pub open spec fn choice_lt(a: Seq<Effect>, b: Seq<Effect>) -> bool
    decreases a.len(),
{
    if b.len() == 0 {
        false
    } else if a.len() == 0 {
        true
    } else {
        effect_lt(a[0], b[0]) || (a[0] == b[0] && choice_lt(a.drop_first(), b.drop_first()))
    }
}

/// Of two different choices exactly one sorts before the other.
pub proof fn lemma_choice_total(a: Seq<Effect>, b: Seq<Effect>)
    ensures
        choice_lt(a, b) ==> !choice_lt(b, a),
        choice_lt(a, b) ==> a != b,
        a == b || choice_lt(a, b) || choice_lt(b, a),
    decreases a.len(),
{
    if a.len() > 0 && b.len() > 0 {
        packed_order_matches(a[0], b[0]);
        packed_order_matches(b[0], a[0]);
        packing_loses_nothing(a[0], b[0]);
        lemma_choice_total(a.drop_first(), b.drop_first());
        if a[0] == b[0] && a.drop_first() == b.drop_first() {
            assert(a =~= seq![a[0]] + a.drop_first());
            assert(b =~= seq![b[0]] + b.drop_first());
        }
    } else if a.len() == 0 && b.len() == 0 {
        assert(a =~= b);
    }
}

/// Sorting before is transitive on choices.
pub proof fn lemma_choice_trans(a: Seq<Effect>, b: Seq<Effect>, c: Seq<Effect>)
    requires
        choice_lt(a, b),
        choice_lt(b, c),
    ensures
        choice_lt(a, c),
    decreases a.len(),
{
    if a.len() > 0 {
        packed_order_matches(a[0], b[0]);
        packed_order_matches(b[0], c[0]);
        packed_order_matches(a[0], c[0]);
        if a[0] == b[0] && b[0] == c[0] {
            lemma_choice_trans(a.drop_first(), b.drop_first(), c.drop_first());
        }
    }
}

/// Comparing from the first place two lists may differ.
proof fn lemma_choice_skip(a: Seq<Effect>, b: Seq<Effect>, i: int)
    requires
        0 <= i <= a.len(),
        i <= b.len(),
        forall|j: int| 0 <= j < i ==> a[j] == b[j],
    ensures
        choice_lt(a, b) == choice_lt(a.skip(i), b.skip(i)),
    decreases i,
{
    if i == 0 {
        assert(a.skip(0) =~= a);
        assert(b.skip(0) =~= b);
    } else {
        packed_order_matches(a[0], b[0]);
        lemma_choice_skip(a.drop_first(), b.drop_first(), i - 1);
        assert(a.drop_first().skip(i - 1) =~= a.skip(i));
        assert(b.drop_first().skip(i - 1) =~= b.skip(i));
    }
}

impl Ranked for Choice {
    open spec fn before(a: Choice, b: Choice) -> bool {
        choice_lt(a@, b@)
    }

    proof fn one_way(a: Choice, b: Choice) {
        lemma_choice_total(a@, b@);
    }

    proof fn onward(a: Choice, b: Choice, c: Choice) {
        lemma_choice_total(a@, b@);
        lemma_choice_total(b@, c@);
        lemma_choice_total(a@, c@);
        if choice_lt(a@, b@) && choice_lt(b@, c@) {
            lemma_choice_trans(a@, b@, c@);
        }
    }

    fn less(&self, other: &Choice) -> (b: bool) {
        let n: usize = self.0.len();
        let m: usize = other.0.len();
        let mut i: usize = 0;
        while i < n && i < m
            invariant
                i <= n,
                i <= m,
                n == self@.len(),
                m == other@.len(),
                forall|j: int| 0 <= j < i ==> self@[j] == other@[j],
            decreases n - i,
        {
            let x = self.0.at(i);
            let y = other.0.at(i);
            if x != y {
                proof {
                    lemma_choice_skip(self@, other@, i as int);
                    packed_order_matches(x, y);
                }
                return pack(x) < pack(y);
            }
            i += 1;
        }
        proof {
            lemma_choice_skip(self@, other@, i as int);
        }
        n < m
    }
}

/// The effect lists of a list of choices.
pub open spec fn views(v: Seq<Choice>) -> Seq<Seq<Effect>> {
    Seq::new(v.len(), |i: int| v[i]@)
}

/// Whether a list of choices ascends strictly, so that nothing stands twice.
pub open spec fn ascending(s: Seq<Seq<Effect>>) -> bool {
    forall|i: int, j: int| 0 <= i < j < s.len() ==> choice_lt(#[trigger] s[i], #[trigger] s[j])
}

/// An ascending list with one choice put in its place, unless it is there.
pub open spec fn inserted(s: Seq<Seq<Effect>>, c: Seq<Effect>) -> Seq<Seq<Effect>>
    decreases s.len(),
{
    if s.len() == 0 {
        seq![c]
    } else if s.last() == c {
        s
    } else if choice_lt(s.last(), c) {
        s.push(c)
    } else {
        inserted(s.drop_last(), c).push(s.last())
    }
}

/// The distinct choices of a list in canonical order.
pub open spec fn sorted_unique(s: Seq<Seq<Effect>>) -> Seq<Seq<Effect>>
    decreases s.len(),
{
    if s.len() == 0 {
        Seq::empty()
    } else {
        inserted(sorted_unique(s.drop_last()), s.last())
    }
}

/// Inserting keeps a list ascending and adds exactly one choice.
proof fn lemma_inserted(s: Seq<Seq<Effect>>, c: Seq<Effect>)
    requires
        ascending(s),
    ensures
        ascending(inserted(s, c)),
        forall|x: Seq<Effect>| #[trigger]
            inserted(s, c).contains(x) <==> s.contains(x) || x == c,
    decreases s.len(),
{
    let out = inserted(s, c);
    if s.len() == 0 {
        assert(out[0] == c);
    } else if s.last() == c {
        assert(s.contains(c));
    } else if choice_lt(s.last(), c) {
        assert forall|i: int, j: int| 0 <= i < j < out.len() implies choice_lt(
            #[trigger] out[i],
            #[trigger] out[j],
        ) by {
            if j == s.len() && i < s.len() - 1 {
                lemma_choice_trans(s[i], s.last(), c);
            }
        }
        assert forall|x: Seq<Effect>| #[trigger] out.contains(x) <==> s.contains(x) || x == c by {
            if s.contains(x) {
                assert(out[s.index_of(x)] == x);
            }
            if x == c {
                assert(out[s.len() as int] == x);
            }
        }
    } else {
        let rest = s.drop_last();
        lemma_inserted(rest, c);
        lemma_choice_total(s.last(), c);
        let r = inserted(rest, c);
        assert forall|i: int, j: int| 0 <= i < j < out.len() implies choice_lt(
            #[trigger] out[i],
            #[trigger] out[j],
        ) by {
            if j == r.len() {
                assert(r.contains(r[i]));
                if rest.contains(r[i]) {
                    let k = rest.index_of(r[i]);
                    assert(s[k] == r[i]);
                    assert(choice_lt(s[k], s[s.len() - 1]));
                }
            }
        }
        assert forall|x: Seq<Effect>| #[trigger] out.contains(x) <==> s.contains(x) || x == c by {
            if out.contains(x) {
                let k = out.index_of(x);
                if k < r.len() {
                    assert(r.contains(x));
                    if rest.contains(x) {
                        assert(s[rest.index_of(x)] == x);
                    }
                } else {
                    assert(s[s.len() - 1] == x);
                }
            }
            if s.contains(x) || x == c {
                if x == s.last() {
                    assert(out[r.len() as int] == x);
                } else {
                    if s.contains(x) {
                        let k = s.index_of(x);
                        assert(rest[k] == x);
                    }
                    assert(r.contains(x));
                    assert(out[r.index_of(x)] == x);
                }
            }
        }
    }
}

/// The canonical list ascends and holds exactly what the list held.
pub proof fn sorted_unique_keeps(s: Seq<Seq<Effect>>)
    ensures
        ascending(sorted_unique(s)),
        forall|x: Seq<Effect>| #[trigger] sorted_unique(s).contains(x) <==> s.contains(x),
    decreases s.len(),
{
    if s.len() > 0 {
        let rest = s.drop_last();
        sorted_unique_keeps(rest);
        lemma_inserted(sorted_unique(rest), s.last());
        assert forall|x: Seq<Effect>| #[trigger] sorted_unique(s).contains(x) <==> s.contains(x) by {
            if s.contains(x) {
                let k = s.index_of(x);
                if k < rest.len() {
                    assert(rest[k] == x);
                }
            }
            if rest.contains(x) {
                assert(s[rest.index_of(x)] == x);
            }
            if x == s.last() {
                assert(s[s.len() - 1] == x);
            }
        }
    }
}

/// Two ascending lists that hold the same choices are the same list.
pub proof fn ascending_is_canonical(a: Seq<Seq<Effect>>, b: Seq<Seq<Effect>>)
    requires
        ascending(a),
        ascending(b),
        forall|x: Seq<Effect>| #[trigger] a.contains(x) <==> b.contains(x),
    ensures
        a == b,
    decreases a.len(),
{
    if a.len() == 0 {
        if b.len() > 0 {
            assert(b.contains(b[0]));
            assert(a.contains(b[0]));
        }
        assert(a =~= b);
    } else {
        assert(a.contains(a.last()));
        assert(b.contains(a.last()));
        assert(b.contains(b.last()));
        assert(a.contains(b.last()));
        let i = a.index_of(b.last());
        let j = b.index_of(a.last());
        lemma_choice_total(a.last(), b.last());
        if i < a.len() - 1 {
            assert(choice_lt(a[i], a[a.len() - 1]));
            if j < b.len() - 1 {
                assert(choice_lt(b[j], b[b.len() - 1]));
            }
        }
        assert(a.last() == b.last());
        let a0 = a.drop_last();
        let b0 = b.drop_last();
        assert forall|x: Seq<Effect>| #[trigger] a0.contains(x) <==> b0.contains(x) by {
            if a0.contains(x) {
                let k = a0.index_of(x);
                assert(a[k] == x);
                assert(choice_lt(a[k], a[a.len() - 1]));
                lemma_choice_total(a[k], a.last());
                assert(a.contains(x));
                assert(b.contains(x));
                let m = b.index_of(x);
                assert(b0[m] == x);
            }
            if b0.contains(x) {
                let k = b0.index_of(x);
                assert(b[k] == x);
                assert(choice_lt(b[k], b[b.len() - 1]));
                lemma_choice_total(b[k], b.last());
                assert(b.contains(x));
                assert(a.contains(x));
                let m = a.index_of(x);
                assert(a0[m] == x);
            }
        }
        ascending_is_canonical(a0, b0);
        assert(a =~= a0.push(a.last()));
        assert(b =~= b0.push(b.last()));
    }
}

/// The distinct choices of a list in canonical order.
pub fn sort_unique(v: &Vec<Choice>) -> (out: Vec<Choice>)
    ensures
        views(out@) == sorted_unique(views(v@)),
{
    let idx = sorted_positions(v);
    let mut out: Vec<Choice> = Vec::new();
    let mut k: usize = 0;
    while k < idx.len()
        invariant
            k <= idx@.len(),
            covers_range(idx@, 0, v@.len() as int),
            in_order(v@, idx@),
            idx@.len() == v@.len(),
            ascending(views(out@)),
            k > 0 ==> out@.len() > 0 && out@.last()@ == v@[idx@[k - 1] as int]@,
            k == 0 ==> out@.len() == 0,
            forall|j: int| 0 <= j < k ==> views(out@).contains(v@[#[trigger] idx@[j] as int]@),
            forall|i: int|
                0 <= i < out@.len() ==> views(v@).contains(#[trigger] out@[i]@),
        decreases idx@.len() - k,
    {
        proof {
            assert(idx@.contains(idx@[k as int]));
            if k > 0 {
                assert(idx@.contains(idx@[k - 1]));
            }
        }
        let at: usize = idx[k];
        let fresh = k == 0 || !v[idx[k - 1]].same(&v[at]);
        let ghost o0 = views(out@);
        if fresh {
            proof {
                if k > 0 {
                    lemma_choice_total(v@[idx@[k - 1] as int]@, v@[at as int]@);
                    assert(choice_lt(o0.last(), v@[at as int]@));
                    assert forall|i: int| 0 <= i < o0.len() implies choice_lt(
                        #[trigger] o0[i],
                        v@[at as int]@,
                    ) by {
                        if i < o0.len() - 1 {
                            assert(choice_lt(o0[i], o0[o0.len() - 1]));
                            lemma_choice_trans(o0[i], o0.last(), v@[at as int]@);
                        }
                    }
                }
                assert(views(v@)[at as int] == v@[at as int]@);
            }
            out.push(v[at].clone());
            assert(views(out@) =~= o0.push(v@[at as int]@));
        }
        proof {
            let o1 = views(out@);
            assert forall|j: int| 0 <= j < k + 1 implies o1.contains(v@[#[trigger] idx@[j] as int]@) by {
                if j < k {
                    assert(o0.contains(v@[idx@[j] as int]@));
                    assert(o1[o0.index_of(v@[idx@[j] as int]@)] == v@[idx@[j] as int]@);
                } else {
                    assert(o1[o1.len() - 1] == v@[at as int]@);
                }
            }
        }
        k += 1;
    }
    proof {
        let a = views(out@);
        let s = views(v@);
        sorted_unique_keeps(s);
        assert forall|x: Seq<Effect>| #[trigger] a.contains(x) <==> sorted_unique(s).contains(x) by {
            if a.contains(x) {
                assert(out@[a.index_of(x)]@ == x);
            }
            if s.contains(x) {
                let r = s.index_of(x);
                assert(idx@.contains(r as usize));
                let j = idx@.index_of(r as usize);
                assert(a.contains(v@[idx@[j] as int]@));
            }
        }
        ascending_is_canonical(a, sorted_unique(s));
    }
    out
}

} // verus!
