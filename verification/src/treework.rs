//! What a tree search does to its tree: which edges it opens, what a simulation
//! counts, which step it picks, and what is left of a tree that is carried on.

use crate::arena::{fresh, kept, Edge, Graph, NodeView};
use crate::descent::{
    backed, backed_edge, keeps_edges, last_best, lesser, may_pick, open_visits, opened, times,
    value_floor, visit_share, visits_of, Path,
};
use crate::nodekey::NodeKey;
use crate::phase::Step;
use crate::search::best_first;
use vstd::prelude::*;

verus! {

// ---- opening edges -------------------------------------------------------

/// A node opens one edge after another as long as it has the visits the next one
/// asks for and there is room: every edge it opened had them, and the next one has
/// not.
pub proof fn edges_open_as_visits_come(active: int, visits: int, cap: int, need: Seq<u32>, k: int)
    requires
        0 <= active,
    ensures
        ({
            let r = opened(active, visits, cap, need);
            &&& r >= active
            &&& r > active ==> r <= cap && r <= need.len()
            &&& active <= k < r ==> visits >= need[k]
            &&& r < cap && r < need.len() ==> visits < need[r]
        }),
    decreases cap - active,
{
    if !(active >= cap || active >= need.len() || visits < need[active]) {
        edges_open_as_visits_come(active + 1, visits, cap, need, k);
    }
}

/// A new node has been visited by nothing and has its first edges open, as many as
/// it may have. Where only one step is legal it needs no value.
pub proof fn new_nodes_start_empty(
    key: NodeKey,
    steps: Seq<Step>,
    n_legal: u32,
    in_root_turn: bool,
    max_edges: usize,
    e: int,
)
    requires
        0 <= e < steps.len() <= usize::MAX,
    ensures
        ({
            let n = fresh(key, steps, n_legal, in_root_turn, max_edges);
            &&& n.key == key && n.visits == 0 && !n.terminal && n.in_root_turn == in_root_turn
            &&& n.n_legal == n_legal
            &&& n.edges.len() == steps.len()
            &&& n.edges[e].step == steps[e] && n.edges[e].child is None && n.edges[e].n == 0
                && n.edges[e].vloss == 0
            &&& n.active <= max_edges && n.active <= steps.len() && (n.active == max_edges || n.active
                == steps.len())
            &&& n.valued <==> n_legal != 1
        }),
{
}

// ---- simulations ---------------------------------------------------------

/// How often a path takes an edge and leaves a node: once for each of its steps
/// that does.
pub proof fn paths_are_counted_step_by_step(p: Path, i: u32, e: usize, j: int, f: int)
    ensures
        times(Seq::empty(), j, f) == 0 && visits_of(Seq::empty(), j) == 0,
        times(p.push((i, e)), j, f) == times(p, j, f) + (if i == j && e == f {
            1nat
        } else {
            0
        }),
        visits_of(p.push((i, e)), j) == visits_of(p, j) + (if i == j {
            1nat
        } else {
            0
        }),
{
    assert(p.push((i, e)).drop_last() =~= p);
}

/// What a simulation leaves behind on an edge and a node: each edge it took is
/// visited once more for each time and keeps no virtual loss; the node it ended at
/// is visited once more, every other once for each time it was left; nothing else
/// changes.
pub proof fn simulations_count_what_they_pass(g: Graph, p: Path, leaf: u32, i: int, e: int)
    requires
        0 <= i < g.len(),
        0 <= e < g[i].edges.len(),
        g[i].edges[e].vloss <= g[i].edges[e].n,
        g[i].edges[e].n + times(p, i, e) <= u32::MAX,
        g[i].visits + visits_of(p, i) < u32::MAX,
    ensures
        ({
            let h = backed(g, p, leaf);
            let a = g[i].edges[e];
            let b = h[i].edges[e];
            &&& h.len() == g.len()
            &&& times(p, i, e) > 0 ==> b.n + a.vloss == a.n + times(p, i, e) && b.vloss == 0
            &&& times(p, i, e) == 0 ==> b == a
            &&& b.step == a.step && b.child == a.child
            &&& i == leaf ==> h[i].visits == g[i].visits + 1
            &&& i != leaf ==> h[i].visits == g[i].visits + visits_of(p, i)
            &&& h[i].key == g[i].key && h[i].active == g[i].active && h[i].terminal == g[i].terminal
                && h[i].valued == g[i].valued && h[i].n_legal == g[i].n_legal
            &&& h[i].edges.len() == g[i].edges.len()
        }),
{
    let h = backed(g, p, leaf);
    assert(h[i].edges[e] == backed_edge(g[i].edges[e], times(p, i, e)));
}

// ---- picking -------------------------------------------------------------

/// The pick is one that counts, none that counts is better, and none behind it is
/// as good.
pub proof fn the_last_of_the_best_is_picked(v: Seq<i64>, counts: Seq<bool>, at: int, j: int)
    requires
        last_best(v, counts, at),
        0 <= j < v.len(),
        counts[j],
    ensures
        counts[at],
        v[at] >= v[j],
        j > at ==> v[at] > v[j],
{
}

/// Visits are added up edge by edge.
pub proof fn open_visits_add_up(edges: Seq<Edge>, k: int)
    requires
        0 <= k < edges.len(),
    ensures
        open_visits(edges, 0) == 0,
        open_visits(edges, k + 1) == open_visits(edges, k) + edges[k].n,
{
}

/// An open edge may be picked by its value where it was visited at all and has a
/// hundredth of the visits, rounded down.
pub proof fn only_visited_edges_are_picked_by_value(n: NodeView, e: int)
    requires
        0 <= e < n.active,
    ensures
        ({
            let all = open_visits(n.edges, n.active as int);
            may_pick(n)[e] <==> n.edges[e].n >= 1 && 100 * (n.edges[e].n + 1) > all
        }),
        value_floor(n) >= 1,
{
    let all = open_visits(n.edges, n.active as int) as int;
    let x = n.edges[e].n as int;
    let t = all / 100;
    assert(100 * t <= all < 100 * t + 100);
    if x >= t {
        assert(100 * (x + 1) > all);
    } else {
        assert(100 * (x + 1) <= 100 * t);
    }
}

/// An edge's share is its visits of all the open ones, and an equal one each where
/// there are none.
pub proof fn shares_are_visits_of_all(n: NodeView, e: int)
    ensures
        ({
            let all = open_visits(n.edges, n.active as int);
            &&& all > 0 ==> visit_share(n, e) == (n.edges[e].n as int, all as int)
            &&& all == 0 ==> visit_share(n, e) == (1int, n.active as int)
        }),
{
}

/// A node with few steps keeps them all as they came; one with many keeps the best
/// by their keys, as many as it may ever open, none worse than one it lets go.
pub proof fn nodes_keep_their_best_edges(
    keys: Seq<i64>,
    max_edges: usize,
    widen_cap: usize,
    idx: Seq<usize>,
    i: int,
    k: usize,
)
    requires
        keeps_edges(keys, max_edges, widen_cap, idx),
        keys.len() <= usize::MAX,
        0 <= i < idx.len(),
        k < keys.len(),
        !idx.contains(k),
    ensures
        keys.len() > max_edges,
        idx.len() == (if widen_cap > max_edges {
            widen_cap as int
        } else {
            max_edges as int
        }),
        idx[i] < keys.len(),
        keys[idx[i] as int] >= keys[k as int],
{
    if keys.len() <= max_edges {
        assert(idx[k as int] == k);
        assert(false);
    }
    let room: int = if widen_cap > max_edges {
        widen_cap as int
    } else {
        max_edges as int
    };
    let all = choose|all: Seq<usize>| #[trigger]
        best_first(keys, all) && idx == all.take(lesser(keys.len() as int, room));
    assert(all.contains(k));
    let j = all.index_of(k);
    if keys.len() <= room {
        assert(idx =~= all);
        assert(false);
    }
    if j < room {
        assert(idx[j] == k);
        assert(false);
    }
    assert(idx[i] == all[i]);
    assert(all.contains(all[i]));
    assert(i < j);
    assert(keys[all[i] as int] >= keys[all[j] as int]);
}

/// A node with few steps keeps them all in the order they came.
pub proof fn few_edges_are_all_kept(
    keys: Seq<i64>,
    max_edges: usize,
    widen_cap: usize,
    idx: Seq<usize>,
    i: int,
)
    requires
        keeps_edges(keys, max_edges, widen_cap, idx),
        keys.len() <= max_edges,
        0 <= i < keys.len(),
    ensures
        idx.len() == keys.len(),
        idx[i] == i,
{
}

// ---- carrying a tree on --------------------------------------------------

/// A node that is carried on is as it was, and leads to the nodes it led to under
/// their new numbers.
pub proof fn carried_trees_are_as_they_were(g: Graph, order: Seq<u32>, k: int, e: int)
    requires
        0 <= k < order.len() <= u32::MAX,
        order[k] < g.len(),
        0 <= e < g[order[k] as int].edges.len(),
        g[order[k] as int].edges[e].child matches Some(c) ==> order.contains(c),
    ensures
        ({
            let h = kept(g, order);
            let a = g[order[k] as int];
            let b = h[k];
            &&& h.len() == order.len()
            &&& b.key == a.key && b.visits == a.visits && b.active == a.active && b.terminal
                == a.terminal && b.valued == a.valued && b.n_legal == a.n_legal
            &&& b.edges.len() == a.edges.len()
            &&& b.edges[e].step == a.edges[e].step && b.edges[e].n == a.edges[e].n
                && b.edges[e].vloss == a.edges[e].vloss
            &&& a.edges[e].child is None <==> b.edges[e].child is None
            &&& a.edges[e].child matches Some(c) ==> (b.edges[e].child matches Some(d) && d
                < order.len() && order[d as int] == c)
        }),
{
    let a = g[order[k] as int];
    if let Some(c) = a.edges[e].child {
        let d = order.index_of(c);
        assert(0 <= d < order.len() && order[d] == c);
    }
}

} // verus!
