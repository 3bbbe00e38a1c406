//! Which whole turns are read out of a search tree and how they are counted, and
//! what is kept of the shards they are written to.

use crate::arena::Graph;
use crate::descent::Path;
use crate::moves::Play;
use crate::offers::lemma_in_both;
use crate::shards::{names_shard, shard_name, Prune};
use crate::turnlines::{
    all_open, ending_here, entry_for, going_on, lines_at, merged, merged_turns_differ, open_on, ranks,
    Line,
};
use crate::turns::{same_effect_is_an_equivalence, same_play};
use vstd::prelude::*;

verus! {

// ---- turns in a tree -----------------------------------------------------

/// Whether an edge was followed to a node.
pub open spec fn followed(g: Graph, i: u32, e: int) -> bool {
    0 <= e < g[i as int].active && g[i as int].edges[e].n > 0 && g[i as int].edges[e].child is Some
}

/// The node an edge leads to.
pub open spec fn behind(g: Graph, i: u32, e: int) -> u32 {
    g[i as int].edges[e].child->Some_0
}

/// Whether edges spell a turn from a node on, with the visits of the last: each
/// open and followed, each but the last to a node of the same turn, from which
/// the next one goes, and the last out of the turn.
pub open spec fn spells_turn(g: Graph, i: u32, q: Path, visits: u32) -> bool
    decreases q.len(),
{
    &&& q.len() > 0
    &&& q[0].0 == i
    &&& followed(g, i, q[0].1 as int)
    &&& if q.len() == 1 {
        !g[behind(g, i, q[0].1 as int) as int].in_root_turn && visits
            == g[i as int].edges[q[0].1 as int].n
    } else {
        g[behind(g, i, q[0].1 as int) as int].in_root_turn && spells_turn(
            g,
            behind(g, i, q[0].1 as int),
            q.drop_first(),
            visits,
        )
    }
}

proof fn lemma_in_ending(g: Graph, i: u32, p: Path, k: int, x: Line)
    requires
        0 <= k <= g[i as int].active,
    ensures
        ending_here(g, i, p, k).contains(x) <==> exists|e: int|
            0 <= e < k && #[trigger] followed(g, i, e) && !g[behind(g, i, e) as int].in_root_turn
                && x.0 == p.push((i, e as usize)) && x.1 == g[i as int].edges[e].n,
    decreases k,
{
    if k > 0 {
        lemma_in_ending(g, i, p, k - 1, x);
        let e = k - 1;
        let before = ending_here(g, i, p, k - 1);
        let all = ending_here(g, i, p, k);
        if followed(g, i, e) && !g[behind(g, i, e) as int].in_root_turn {
            let y = (p.push((i, e as usize)), g[i as int].edges[e].n);
            assert(all == before.push(y));
            assert(all =~= before + seq![y]);
            lemma_in_both(before, seq![y], x);
            assert(seq![y].contains(x) <==> x == y) by {
                assert(seq![y][0] == y);
            }
        } else {
            assert(all == before);
        }
    }
}

proof fn lemma_in_going(g: Graph, i: u32, p: Path, k: int, room: nat, x: Line)
    requires
        0 <= k <= g[i as int].active,
        room > 0,
    ensures
        going_on(g, i, p, k, room).contains(x) <==> exists|e: int|
            0 <= e < k && #[trigger] followed(g, i, e) && g[behind(g, i, e) as int].in_root_turn
                && lines_at(g, behind(g, i, e), p.push((i, e as usize)), (room - 1) as nat).contains(
                x,
            ),
    decreases k,
{
    if k > 0 {
        lemma_in_going(g, i, p, k - 1, room, x);
        let e = k - 1;
        let rest = going_on(g, i, p, k - 1, room);
        if followed(g, i, e) && g[behind(g, i, e) as int].in_root_turn {
            let here = lines_at(g, behind(g, i, e), p.push((i, e as usize)), (room - 1) as nat);
            assert(going_on(g, i, p, k, room) == here + rest);
            lemma_in_both(here, rest, x);
        } else {
            assert(going_on(g, i, p, k, room) == rest);
        }
    }
}

/// Whether a line is some edges that spell a turn, behind those that led to it.
pub open spec fn goes_behind(g: Graph, i: u32, p: Path, q: Path, x: Line) -> bool {
    x.0 == p + q && spells_turn(g, i, q, x.1)
}

/// The turns read out of a tree from a node on are exactly those that open and
/// followed edges spell, each with the visits of its last edge, no longer than
/// there is room for.
pub proof fn turns_are_those_the_edges_spell(g: Graph, i: u32, p: Path, room: nat, x: Line)
    ensures
        lines_at(g, i, p, room).contains(x) <==> exists|q: Path| #[trigger]
            goes_behind(g, i, p, q, x) && q.len() <= room,
    decreases room,
{
    if room > 0 {
        let n = g[i as int].active as int;
        let a = ending_here(g, i, p, n);
        let b = going_on(g, i, p, n, room);
        lemma_in_both(a, b, x);
        lemma_in_ending(g, i, p, n, x);
        lemma_in_going(g, i, p, n, room, x);
        if a.contains(x) {
            let e = choose|e: int|
                0 <= e < n && #[trigger] followed(g, i, e) && !g[behind(g, i, e) as int].in_root_turn
                    && x.0 == p.push((i, e as usize)) && x.1 == g[i as int].edges[e].n;
            let q = seq![(i, e as usize)];
            assert(x.0 =~= p + q);
            assert(goes_behind(g, i, p, q, x));
        } else if b.contains(x) {
            let e = choose|e: int|
                0 <= e < n && #[trigger] followed(g, i, e) && g[behind(g, i, e) as int].in_root_turn
                    && lines_at(g, behind(g, i, e), p.push((i, e as usize)), (room - 1) as nat).contains(
                    x,
                );
            let p2 = p.push((i, e as usize));
            turns_are_those_the_edges_spell(g, behind(g, i, e), p2, (room - 1) as nat, x);
            let q2 = choose|q: Path| #[trigger]
                goes_behind(g, behind(g, i, e), p2, q, x) && q.len() <= room - 1;
            let q = seq![(i, e as usize)] + q2;
            assert(x.0 =~= p + q);
            assert(q.drop_first() =~= q2);
            assert(q2.len() > 0);
            assert(goes_behind(g, i, p, q, x));
        }
        if exists|q: Path| #[trigger] goes_behind(g, i, p, q, x) && q.len() <= room {
            let q = choose|q: Path| #[trigger] goes_behind(g, i, p, q, x) && q.len() <= room;
            let e = q[0].1 as int;
            assert(followed(g, i, e));
            assert(q[0] == (i, e as usize));
            if q.len() == 1 {
                assert(x.0 =~= p.push((i, e as usize)));
            } else {
                let p2 = p.push((i, e as usize));
                let q2 = q.drop_first();
                assert(x.0 =~= p2 + q2);
                assert(goes_behind(g, behind(g, i, e), p2, q2, x));
                turns_are_those_the_edges_spell(g, behind(g, i, e), p2, (room - 1) as nat, x);
            }
        }
    } else {
        assert(lines_at(g, i, p, room) == Seq::<Line>::empty());
        assert(!lines_at(g, i, p, room).contains(x));
        if exists|q: Path| #[trigger] goes_behind(g, i, p, q, x) && q.len() <= room {
            let q = choose|q: Path| #[trigger] goes_behind(g, i, p, q, x) && q.len() <= room;
            assert(q.len() > 0);
        }
    }
}

/// Whether edges lead from a node to another of the same turn.
pub open spec fn stays_in_turn(g: Graph, i: u32, q: Path, end: u32) -> bool
    decreases q.len(),
{
    if q.len() == 0 {
        end == i
    } else {
        &&& q[0].0 == i
        &&& followed(g, i, q[0].1 as int)
        &&& g[behind(g, i, q[0].1 as int) as int].in_root_turn
        &&& stays_in_turn(g, behind(g, i, q[0].1 as int), q.drop_first(), end)
    }
}

proof fn lemma_open_on(g: Graph, i: u32, k: int, room: nat)
    requires
        0 <= k <= g[i as int].active,
        room > 0,
    ensures
        open_on(g, i, k, room) <==> forall|e: int|
            0 <= e < k && #[trigger] followed(g, i, e) && g[behind(g, i, e) as int].in_root_turn
                ==> all_open(g, behind(g, i, e), (room - 1) as nat),
    decreases k,
{
    if k > 0 {
        lemma_open_on(g, i, k - 1, room);
        let e = k - 1;
        if open_on(g, i, k, room) {
            assert forall|e: int|
                0 <= e < k && #[trigger] followed(g, i, e) && g[behind(
                    g,
                    i,
                    e,
                ) as int].in_root_turn implies all_open(g, behind(g, i, e), (room - 1) as nat) by {}
        }
        if forall|e: int|
            0 <= e < k && #[trigger] followed(g, i, e) && g[behind(g, i, e) as int].in_root_turn
                ==> all_open(g, behind(g, i, e), (room - 1) as nat) {
            assert(followed(g, i, e) && g[behind(g, i, e) as int].in_root_turn ==> all_open(
                g,
                behind(g, i, e),
                (room - 1) as nat,
            ));
        }
    }
}

/// A tree is said to be open where every node that the turn can be followed to,
/// within the room there is, has as many edges open as there are legal steps.
pub proof fn open_trees_have_every_step_open(g: Graph, i: u32, room: nat)
    ensures
        all_open(g, i, room) <==> forall|q: Path, end: u32| #[trigger]
            stays_in_turn(g, i, q, end) && q.len() < room ==> g[end as int].active
                >= g[end as int].n_legal,
    decreases room,
{
    if room > 0 {
        let n = g[i as int].active as int;
        lemma_open_on(g, i, n, room);
        if all_open(g, i, room) {
            assert forall|q: Path, end: u32| #[trigger] stays_in_turn(g, i, q, end) && q.len()
                < room implies g[end as int].active >= g[end as int].n_legal by {
                if q.len() > 0 {
                    let e = q[0].1 as int;
                    assert(followed(g, i, e));
                    open_trees_have_every_step_open(g, behind(g, i, e), (room - 1) as nat);
                    assert(stays_in_turn(g, behind(g, i, e), q.drop_first(), end));
                }
            }
        }
        if forall|q: Path, end: u32| #[trigger]
            stays_in_turn(g, i, q, end) && q.len() < room ==> g[end as int].active
                >= g[end as int].n_legal {
            assert(stays_in_turn(g, i, Seq::empty(), i));
            assert forall|e: int|
                0 <= e < n && #[trigger] followed(g, i, e) && g[behind(
                    g,
                    i,
                    e,
                ) as int].in_root_turn implies all_open(g, behind(g, i, e), (room - 1) as nat) by {
                let b = behind(g, i, e);
                open_trees_have_every_step_open(g, b, (room - 1) as nat);
                assert forall|q: Path, end: u32| #[trigger] stays_in_turn(g, b, q, end) && q.len()
                    < room - 1 implies g[end as int].active >= g[end as int].n_legal by {
                    let longer = seq![(i, e as usize)] + q;
                    assert(longer.drop_first() =~= q);
                    assert(stays_in_turn(g, i, longer, end));
                }
            }
        }
    }
}

/// A ranking keeps as many lines as asked for, or all of them, and at least one
/// where there is one; those with more visits come first, then those worth more,
/// and none left out has more visits than one kept.
pub proof fn rankings_put_the_most_visited_first(
    lines: Seq<Line>,
    values: Seq<i64>,
    keep: usize,
    idx: Seq<usize>,
    i: int,
    j: int,
    out: usize,
)
    requires
        ranks(lines, values, keep, idx),
        0 <= i < j < idx.len(),
    ensures
        idx.len() <= lines.len(),
        keep >= lines.len() ==> idx.len() == lines.len(),
        1 <= keep <= lines.len() ==> idx.len() == keep,
        lines[idx[i] as int].1 >= lines[idx[j] as int].1,
        lines[idx[i] as int].1 == lines[idx[j] as int].1 ==> values[idx[i] as int]
            >= values[idx[j] as int],
        idx[i] < lines.len(),
        idx[i] != idx[j],
        out < lines.len() && !idx.contains(out) ==> lines[idx[j] as int].1 >= lines[out as int].1,
{
    let len = if keep < 1 {
        if lines.len() < 1 {
            0
        } else {
            1
        }
    } else if keep < lines.len() {
        keep as int
    } else {
        lines.len() as int
    };
    let all = choose|all: Seq<usize>| #[trigger]
        crate::order::covers_range(all, 0, lines.len() as int) && all.len() == lines.len() && (forall|
            i: int,
            j: int,
        |
            0 <= i < j < all.len() ==> <crate::turnlines::LineRank as crate::order::Ranked>::before(
                crate::turnlines::rank_of(lines, values, #[trigger] all[i] as int),
                crate::turnlines::rank_of(lines, values, #[trigger] all[j] as int),
            )) && idx == all.take(len);
    assert(idx[i] == all[i] && idx[j] == all[j]);
    assert(all.contains(all[i]));
    if out < lines.len() && !idx.contains(out) {
        assert(all.contains(out));
        let k = choose|k: int| 0 <= k < all.len() && all[k] == out;
        if k < len {
            assert(idx[k] == out);
        }
        assert(j < k);
    }
}

// ---- turns taken together ------------------------------------------------

/// The visits of those of the first turns that do the same as a turn.
pub open spec fn visits_alike(ms: Seq<Play>, visits: Seq<u32>, m: Play, n: int) -> nat
    decreases n,
{
    if n <= 0 {
        0
    } else {
        visits_alike(ms, visits, m, n - 1) + (if same_play(ms[n - 1], m) {
            visits[n - 1] as nat
        } else {
            0
        })
    }
}

proof fn lemma_entry(ms: Seq<Play>, found: Seq<(usize, nat)>, m: Play, k: int)
    requires
        0 <= k,
    ensures
        entry_for(ms, found, m, k) matches Some(j) ==> k <= j < found.len() && same_play(
            ms[found[j].0 as int],
            m,
        ),
        entry_for(ms, found, m, k) is None ==> forall|j: int|
            k <= j < found.len() ==> !same_play(ms[(#[trigger] found[j]).0 as int], m),
    decreases found.len() - k,
{
    if k < found.len() && !same_play(ms[found[k].0 as int], m) {
        lemma_entry(ms, found, m, k + 1);
    }
}

proof fn lemma_unlike(ms: Seq<Play>, visits: Seq<u32>, m: Play, n: int)
    requires
        forall|j: int| 0 <= j < n ==> !same_play(#[trigger] ms[j], m),
    ensures
        visits_alike(ms, visits, m, n) == 0,
    decreases n,
{
    if n > 0 {
        assert(!same_play(ms[n - 1], m));
        lemma_unlike(ms, visits, m, n - 1);
    }
}

/// Every turn is counted in an entry that does the same.
pub proof fn every_turn_has_an_entry(ms: Seq<Play>, visits: Seq<u32>, n: int, j: int) -> (k: int)
    requires
        0 <= j < n <= usize::MAX,
    ensures
        0 <= k < merged(ms, visits, n).len(),
        same_play(ms[merged(ms, visits, n)[k].0 as int], ms[j]),
    decreases n,
{
    let r = merged(ms, visits, n - 1);
    lemma_entry(ms, r, ms[n - 1], 0);
    let found = entry_for(ms, r, ms[n - 1], 0);
    if j < n - 1 {
        let k = every_turn_has_an_entry(ms, visits, n - 1, j);
        assert(merged(ms, visits, n)[k].0 == r[k].0);
        k
    } else {
        same_effect_is_an_equivalence(ms[j], ms[j], ms[j]);
        match found {
            Some(k) => k,
            None => r.len() as int,
        }
    }
}

/// An entry names the first turn that does what it does and has the visits of
/// all that do.
pub proof fn entries_have_the_visits_of_all_that_do_the_same(
    ms: Seq<Play>,
    visits: Seq<u32>,
    n: int,
    k: int,
)
    requires
        0 <= n <= usize::MAX,
        0 <= k < merged(ms, visits, n).len(),
    ensures
        merged(ms, visits, n)[k].0 < n,
        merged(ms, visits, n)[k].1 == visits_alike(
            ms,
            visits,
            ms[merged(ms, visits, n)[k].0 as int],
            n,
        ),
        forall|j: int|
            0 <= j < merged(ms, visits, n)[k].0 ==> !same_play(
                #[trigger] ms[j],
                ms[merged(ms, visits, n)[k].0 as int],
            ),
    decreases n,
{
    if n > 0 {
        let r = merged(ms, visits, n - 1);
        let m = ms[n - 1];
        lemma_entry(ms, r, m, 0);
        match entry_for(ms, r, m, 0) {
            Some(f) => {
                entries_have_the_visits_of_all_that_do_the_same(ms, visits, n - 1, k);
                let a = ms[r[k].0 as int];
                let b = ms[r[f].0 as int];
                same_effect_is_an_equivalence(b, m, a);
                if k != f && same_play(m, a) {
                    same_effect_is_an_equivalence(a, b, a);
                    same_effect_is_an_equivalence(b, a, b);
                    if k < f {
                        merged_turns_differ(ms, visits, n - 1, k, f);
                    } else {
                        merged_turns_differ(ms, visits, n - 1, f, k);
                    }
                }
            },
            None => {
                if k < r.len() {
                    entries_have_the_visits_of_all_that_do_the_same(ms, visits, n - 1, k);
                    let a = ms[r[k].0 as int];
                    same_effect_is_an_equivalence(m, a, m);
                } else {
                    same_effect_is_an_equivalence(m, m, m);
                    assert forall|j: int| 0 <= j < n - 1 implies !same_play(#[trigger] ms[j], m) by {
                        if same_play(ms[j], m) {
                            let e = every_turn_has_an_entry(ms, visits, n - 1, j);
                            same_effect_is_an_equivalence(ms[r[e].0 as int], ms[j], m);
                        }
                    }
                    lemma_unlike(ms, visits, m, n - 1);
                }
            },
        }
    }
}

// ---- shards --------------------------------------------------------------

/// What a shard is sealed under is the name of a shard.
pub proof fn sealed_shards_are_shards(generation: u32, seq: u32, stamped: Seq<char>)
    ensures
        names_shard(shard_name(generation, seq, stamped)),
{
    let s = shard_name(generation, seq, stamped);
    assert(s.skip(s.len() - 4) =~= seq!['.', 't', 'z', 'r']);
}

/// The newest shard never goes, nor one that was settled before; all the others
/// may.
pub proof fn the_newest_shard_stays(p: Prune, k: int)
    requires
        0 <= k < p.files@.len(),
    ensures
        k < p.next ==> !p.may_go(k),
        p.newest is Some && p.newest->Some_0@ == p.files@[k].name@ ==> !p.may_go(k),
        k >= p.next && (p.newest is None || p.newest->Some_0@ != p.files@[k].name@) ==> p.may_go(k),
{
}

} // verus!
