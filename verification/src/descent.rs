//! One simulation of a tree search: down along edges, with a virtual loss on each
//! while it is under way, and back up with the result.

use crate::arena::{edge_ok, graph_ok, keys_differ, node_ok, Arena, Edge, Graph, NodeView};
use crate::search::{best_first, by_score};
use vstd::prelude::*;

verus! {

/// The edges followed so far, from the root.
pub struct Descent {
    pub root: u32,
    pub path: Vec<(u32, usize)>,
}

pub type Path = Seq<(u32, usize)>;

/// How often a path takes an edge.
pub open spec fn times(p: Path, i: int, e: int) -> nat
    decreases p.len(),
{
    if p.len() == 0 {
        0
    } else {
        times(p.drop_last(), i, e) + if p.last().0 == i && p.last().1 == e {
            1nat
        } else {
            0
        }
    }
}

/// How often a path leaves a node.
pub open spec fn visits_of(p: Path, i: int) -> nat
    decreases p.len(),
{
    if p.len() == 0 {
        0
    } else {
        visits_of(p.drop_last(), i) + if p.last().0 == i {
            1nat
        } else {
            0
        }
    }
}

/// Whether a path's edges are there and have been followed.
pub open spec fn path_ok(g: Graph, p: Path) -> bool {
    forall|k: int|
        0 <= k < p.len() ==> {
            &&& (#[trigger] p[k]).0 < g.len()
            &&& p[k].1 < g[p[k].0 as int].edges.len()
        }
}

/// The node a descent stands at: where its last edge leads, or the root.
pub open spec fn stands(g: Graph, root: u32, p: Path) -> Option<u32> {
    if p.len() == 0 {
        Some(root)
    } else {
        g[p.last().0 as int].edges[p.last().1 as int].child
    }
}

/// An edge of a graph replaced.
pub open spec fn with_edge(g: Graph, i: int, e: int, edge: Edge) -> Graph {
    g.update(i, NodeView { edges: g[i].edges.update(e, edge), ..g[i] })
}

/// Whether no virtual loss rests on any edge.
pub open spec fn settled(g: Graph) -> bool {
    forall|i: int, e: int|
        0 <= i < g.len() && 0 <= e < g[i].edges.len() ==> (#[trigger] g[i].edges[e]).vloss == 0
}

/// Whether virtual loss rests only on the edges of a path, and none of it is
/// more than the visits it is counted in.
pub open spec fn lent(g: Graph, p: Path) -> bool {
    forall|i: int, e: int|
        0 <= i < g.len() && 0 <= e < g[i].edges.len() ==> {
            &&& (#[trigger] g[i].edges[e]).vloss <= g[i].edges[e].n
            &&& g[i].edges[e].vloss > 0 ==> times(p, i, e) > 0
        }
}

/// How many edges a node has open once it may open more: each next one is
/// admitted at a number of visits of its own.
pub open spec fn opened(active: int, visits: int, cap: int, need: Seq<u32>) -> int
    decreases cap - active,
{
    if active >= cap || active >= need.len() || visits < need[active] {
        active
    } else {
        opened(active + 1, visits, cap, need)
    }
}

/// The lesser of two numbers.
pub open spec fn lesser(a: int, b: int) -> int {
    if a < b {
        a
    } else {
        b
    }
}

proof fn lemma_opened(active: int, visits: int, cap: int, need: Seq<u32>)
    requires
        0 <= active,
    ensures
        opened(active, visits, cap, need) >= active,
        active <= cap ==> opened(active, visits, cap, need) <= cap,
    decreases cap - active,
{
    if !(active >= cap || active >= need.len() || visits < need[active]) {
        lemma_opened(active + 1, visits, cap, need);
    }
}

/// A graph stays one when an edge leads nowhere else than to a node there is.
proof fn lemma_with_edge(g: Graph, i: int, e: int, edge: Edge)
    requires
        graph_ok(g),
        0 <= i < g.len(),
        0 <= e < g[i].edges.len(),
        edge_ok(edge, g.len() as int),
    ensures
        graph_ok(with_edge(g, i, e, edge)),
{
    let h = with_edge(g, i, e, edge);
    assert forall|k: int| 0 <= k < h.len() implies node_ok(#[trigger] h[k], h.len() as int) by {
        assert(node_ok(g[k], g.len() as int));
        assert forall|x: int| 0 <= x < h[k].edges.len() implies edge_ok(
            #[trigger] h[k].edges[x],
            h.len() as int,
        ) by {
            assert(edge_ok(g[k].edges[x], g.len() as int));
        }
    }
    assert forall|a: int, b: int|
        0 <= a < b < h.len() && !(#[trigger] h[a]).terminal && !(#[trigger] h[b]).terminal implies h[a].key
        != h[b].key by {
        assert(g[a].terminal == h[a].terminal && g[b].terminal == h[b].terminal);
        assert(g[a].key == h[a].key && g[b].key == h[b].key);
    }
}

/// An index that files a graph files one with the same keys and ends.
proof fn lemma_files_same(t: crate::seen::NodeIndex, g: Graph, h: Graph)
    requires
        crate::arena::files(t, g),
        g.len() == h.len(),
        forall|i: int|
            0 <= i < g.len() ==> (#[trigger] h[i]).key == g[i].key && h[i].terminal == g[i].terminal,
    ensures
        crate::arena::files(t, h),
{
    assert forall|d: u64, i: u32| #[trigger]
        crate::seen::filed_under(t, d).contains(i) <==> i < h.len() && !h[i as int].terminal
        && h[i as int].key.word() == d by {
        if i < g.len() {
            assert(h[i as int].key == g[i as int].key);
        }
    }
}

impl Descent {
    /// A descent that has not begun.
    pub fn new(root: u32) -> (d: Descent)
        ensures
            d.root == root,
            d.path@ == Seq::<(u32, usize)>::empty(),
    {
        Descent { root, path: Vec::new() }
    }

    /// How many edges it has followed.
    pub fn depth(&self) -> (n: usize)
        ensures
            n == self.path@.len(),
    {
        self.path.len()
    }
}

impl Arena {
    /// The node a descent stands at.
    pub fn cursor(&self, d: &Descent) -> (r: Option<u32>)
        requires
            path_ok(self@, d.path@),
        ensures
            r == stands(self@, d.root, d.path@),
    {
        let n: usize = d.path.len();
        if n == 0 {
            return Some(d.root);
        }
        let (i, e) = d.path[n - 1];
        assert(d.path@[n - 1] == d.path@.last());
        assert(self@[i as int] == self.nodes@[i as int]@);
        self.nodes[i as usize].edges[e].child
    }

    /// Whether a descent ends at a node: the game is over there, or it has gone
    /// deep enough.
    pub fn ends_at(&self, d: &Descent, idx: u32, max_depth: u32) -> (b: bool)
        requires
            idx < self@.len(),
        ensures
            b == (d.path@.len() >= max_depth || self@[idx as int].terminal),
    {
        assert(self@[idx as int] == self.nodes@[idx as int]@);
        d.path.len() as u64 >= max_depth as u64 || self.nodes[idx as usize].terminal
    }

    /// Opens more edges of a node, one for each number of visits it has reached.
    pub fn widen(&mut self, idx: u32, widen_cap: usize, need: &Vec<u32>)
        requires
            old(self).wf(),
            idx < old(self)@.len(),
        ensures
            final(self).wf(),
            final(self).same_counters(*old(self)),
            ({
                let n = old(self)@[idx as int];
                let cap = lesser(n.edges.len() as int, widen_cap as int);
                final(self)@ == old(self)@.update(
                    idx as int,
                    NodeView {
                        active: opened(n.active as int, n.visits as int, cap, need@) as usize,
                        ..n
                    },
                )
            }),
    {
        let ghost g = self@;
        let i: usize = idx as usize;
        let ghost n = g[idx as int];
        assert(n == self.nodes@[idx as int]@);
        assert(node_ok(n, g.len() as int));
        let len: usize = self.nodes[i].edges.len();
        let cap: usize = if len < widen_cap {
            len
        } else {
            widen_cap
        };
        let visits: u32 = self.nodes[i].visits;
        let mut active: usize = self.nodes[i].active;
        while active < cap && active < need.len() && visits >= need[active]
            invariant
                active <= n.edges.len(),
                cap <= n.edges.len(),
                opened(n.active as int, n.visits as int, cap as int, need@) == opened(
                    active as int,
                    visits as int,
                    cap as int,
                    need@,
                ),
            decreases cap - active,
        {
            active += 1;
        }
        self.nodes[i].active = active;
        proof {
            let h = g.update(idx as int, NodeView { active, ..n });
            assert(self@ =~= h);
            assert forall|k: int| 0 <= k < h.len() implies node_ok(#[trigger] h[k], h.len() as int) by {
                assert(node_ok(g[k], g.len() as int));
            }
            assert(keys_differ(h)) by {
                assert forall|a: int, b: int|
                    0 <= a < b < h.len() && !(#[trigger] h[a]).terminal && !(#[trigger] h[b]).terminal implies h[a].key
                    != h[b].key by {
                    assert(g[a].terminal == h[a].terminal && g[b].terminal == h[b].terminal);
                }
            }
            lemma_files_same(self.index, g, h);
        }
    }

    /// Follows an edge of the node the descent stands at, and lays a virtual loss
    /// on it.
    pub fn take(&mut self, d: &mut Descent, idx: u32, e: usize, loss: u32)
        requires
            old(self).wf(),
            idx < old(self)@.len(),
            e < old(self)@[idx as int].edges.len(),
            old(self)@[idx as int].edges[e as int].n + loss <= u32::MAX,
            old(self)@[idx as int].edges[e as int].vloss + loss <= u32::MAX,
        ensures
            final(self).wf(),
            final(self).same_counters(*old(self)),
            ({
                let edge = old(self)@[idx as int].edges[e as int];
                final(self)@ == with_edge(
                    old(self)@,
                    idx as int,
                    e as int,
                    Edge { n: (edge.n + loss) as u32, vloss: (edge.vloss + loss) as u32, ..edge },
                )
            }),
            final(d).root == old(d).root,
            final(d).path@ == old(d).path@.push((idx, e)),
    {
        let ghost g = self@;
        let i: usize = idx as usize;
        assert(g[idx as int] == self.nodes@[idx as int]@);
        let ghost edge = g[idx as int].edges[e as int];
        let n: u32 = self.nodes[i].edges[e].n;
        let v: u32 = self.nodes[i].edges[e].vloss;
        self.nodes[i].edges[e].n = n + loss;
        self.nodes[i].edges[e].vloss = v + loss;
        d.path.push((idx, e));
        proof {
            let now = Edge { n: (edge.n + loss) as u32, vloss: (edge.vloss + loss) as u32, ..edge };
            let h = with_edge(g, idx as int, e as int, now);
            assert(self@[idx as int].edges =~= h[idx as int].edges);
            assert(self@ =~= h);
            assert(node_ok(g[idx as int], g.len() as int));
            assert(edge_ok(edge, g.len() as int));
            lemma_with_edge(g, idx as int, e as int, now);
            lemma_files_same(self.index, g, h);
        }
    }

    /// Lets an edge lead to a node.
    pub fn link(&mut self, idx: u32, e: usize, child: u32)
        requires
            old(self).wf(),
            idx < old(self)@.len(),
            e < old(self)@[idx as int].edges.len(),
            child < old(self)@.len(),
        ensures
            final(self).wf(),
            final(self).same_counters(*old(self)),
            final(self)@ == with_edge(
                old(self)@,
                idx as int,
                e as int,
                Edge { child: Some(child), ..old(self)@[idx as int].edges[e as int] },
            ),
    {
        let ghost g = self@;
        let i: usize = idx as usize;
        assert(g[idx as int] == self.nodes@[idx as int]@);
        self.nodes[i].edges[e].child = Some(child);
        proof {
            let now = Edge { child: Some(child), ..g[idx as int].edges[e as int] };
            let h = with_edge(g, idx as int, e as int, now);
            assert(self@[idx as int].edges =~= h[idx as int].edges);
            assert(self@ =~= h);
            lemma_with_edge(g, idx as int, e as int, now);
            lemma_files_same(self.index, g, h);
        }
    }
}

// ---- backing up ----------------------------------------------------------

/// An edge once a path has been backed up: what it was lent is taken back, and
/// each time the path takes it counts as a visit.
pub open spec fn backed_edge(x: Edge, t: nat) -> Edge {
    if t == 0 {
        x
    } else {
        Edge { n: (x.n - x.vloss + t) as u32, vloss: 0, ..x }
    }
}

/// A node once a path has been backed up. The node the path ends at counts one
/// visit, and every other one visit each time the path leaves it.
pub open spec fn backed_node(n: NodeView, p: Path, leaf: u32, i: int) -> NodeView {
    NodeView {
        edges: Seq::new(n.edges.len(), |e: int| backed_edge(n.edges[e], times(p, i, e))),
        visits: (n.visits + if i == leaf {
            1
        } else {
            visits_of(p, i) as int
        }) as u32,
        ..n
    }
}

/// A graph once a path has been backed up.
pub open spec fn backed(g: Graph, p: Path, leaf: u32) -> Graph {
    Seq::new(g.len(), |i: int| backed_node(g[i], p, leaf, i))
}

/// Whether counts can take a path more.
pub open spec fn has_room(g: Graph, len: int) -> bool {
    &&& forall|i: int| 0 <= i < g.len() ==> (#[trigger] g[i]).visits + len < u32::MAX
    &&& forall|i: int, e: int|
        0 <= i < g.len() && 0 <= e < g[i].edges.len() ==> (#[trigger] g[i].edges[e]).n + len
            < u32::MAX
}

proof fn lemma_times(p: Path, i: int, e: int)
    ensures
        times(p, i, e) <= visits_of(p, i) <= p.len(),
    decreases p.len(),
{
    if p.len() > 0 {
        lemma_times(p.drop_last(), i, e);
    }
}

proof fn lemma_backed_ok(g: Graph, p: Path, leaf: u32)
    requires
        graph_ok(g),
    ensures
        graph_ok(backed(g, p, leaf)),
{
    let h = backed(g, p, leaf);
    assert forall|k: int| 0 <= k < h.len() implies node_ok(#[trigger] h[k], h.len() as int) by {
        assert(node_ok(g[k], g.len() as int));
        assert forall|x: int| 0 <= x < h[k].edges.len() implies edge_ok(
            #[trigger] h[k].edges[x],
            h.len() as int,
        ) by {
            assert(edge_ok(g[k].edges[x], g.len() as int));
        }
    }
    assert forall|a: int, b: int|
        0 <= a < b < h.len() && !(#[trigger] h[a]).terminal && !(#[trigger] h[b]).terminal implies h[a].key
        != h[b].key by {
        assert(g[a].terminal == h[a].terminal && g[b].terminal == h[b].terminal);
        assert(g[a].key == h[a].key && g[b].key == h[b].key);
    }
}

/// One more edge of a path backed up.
proof fn lemma_backed_step(g: Graph, p: Path, leaf: u32, k: int, h: Graph)
    requires
        path_ok(g, p),
        has_room(g, p.len() as int),
        0 <= k < p.len(),
        g[p[k].0 as int].edges[p[k].1 as int].vloss <= g[p[k].0 as int].edges[p[k].1 as int].n,
        h.len() == g.len(),
        ({
            let b = backed(g, p.take(k), leaf);
            let (i, e) = (p[k].0 as int, p[k].1 as int);
            let x = b[i].edges[e];
            let y = Edge { n: (x.n - x.vloss + 1) as u32, vloss: 0, ..x };
            h == b.update(
                i,
                NodeView {
                    edges: b[i].edges.update(e, y),
                    visits: if i == leaf {
                        b[i].visits
                    } else {
                        (b[i].visits + 1) as u32
                    },
                    ..b[i]
                },
            )
        }),
    ensures
        h == backed(g, p.take(k + 1), leaf),
{
    let (q, r) = (p.take(k), p.take(k + 1));
    let b = backed(g, q, leaf);
    let c = backed(g, r, leaf);
    assert(r.drop_last() =~= q);
    assert(r.last() == p[k]);
    let (i, e) = (p[k].0 as int, p[k].1 as int);
    assert forall|a: int| 0 <= a < g.len() implies h[a] == c[a] by {
        lemma_times(q, a, 0);
        assert(g[a].visits + p.len() < u32::MAX);
        assert forall|x: int| 0 <= x < g[a].edges.len() implies h[a].edges[x] == c[a].edges[x] by {
            lemma_times(q, a, x);
            assert(g[a].edges[x].n + p.len() < u32::MAX);
            if a == i && x == e {
                assert(times(r, a, x) == times(q, a, x) + 1);
            } else {
                assert(times(r, a, x) == times(q, a, x));
            }
        }
        assert(h[a].edges =~= c[a].edges);
        if a == i {
            assert(visits_of(r, a) == visits_of(q, a) + 1);
        } else {
            assert(visits_of(r, a) == visits_of(q, a));
        }
        assert(h[a] =~= c[a]);
    }
    assert(h =~= c);
}

impl Arena {
    /// Backs up a descent that ends at a node: takes back what it lent and counts
    /// the visits.
    pub fn backup(&mut self, d: &Descent, leaf: u32)
        requires
            old(self).wf(),
            path_ok(old(self)@, d.path@),
            lent(old(self)@, d.path@),
            has_room(old(self)@, d.path@.len() as int),
            leaf < old(self)@.len(),
        ensures
            final(self).wf(),
            final(self).same_counters(*old(self)),
            final(self)@ == backed(old(self)@, d.path@, leaf),
    {
        let ghost g = self@;
        let ghost p = d.path@;
        let len: usize = d.path.len();
        let l: usize = leaf as usize;
        assert(g[leaf as int] == self.nodes@[leaf as int]@);
        assert(g[leaf as int].visits + p.len() < u32::MAX);
        let seen: u32 = self.nodes[l].visits;
        self.nodes[l].visits = seen + 1;
        proof {
            let b = backed(g, p.take(0), leaf);
            assert forall|a: int| 0 <= a < g.len() implies self@[a] == b[a] by {
                assert forall|x: int| 0 <= x < g[a].edges.len() implies self@[a].edges[x]
                    == b[a].edges[x] by {
                    assert(times(p.take(0), a, x) == 0);
                }
                assert(visits_of(p.take(0), a) == 0);
                assert(self@[a].edges =~= b[a].edges);
                assert(self@[a] =~= b[a]);
            }
            assert(self@ =~= b);
        }
        let mut k: usize = 0;
        while k < len
            invariant
                k <= len,
                len == p.len(),
                p == d.path@,
                g.len() == self@.len(),
                graph_ok(g),
                path_ok(g, p),
                lent(g, p),
                has_room(g, p.len() as int),
                leaf < g.len(),
                self.same_counters(*old(self)),
                self.index == old(self).index,
                self@ == backed(g, p.take(k as int), leaf),
            decreases len - k,
        {
            let (idx, e) = d.path[k];
            let i: usize = idx as usize;
            let ghost b = self@;
            let ghost x = g[idx as int].edges[e as int];
            proof {
                assert(p[k as int] == (idx, e));
                assert(x.vloss <= x.n);
                assert(b[idx as int] == self.nodes@[idx as int]@);
                lemma_times(p.take(k as int), idx as int, e as int);
                assert(x.n + p.len() < u32::MAX);
                assert(g[idx as int].visits + p.len() < u32::MAX);
                assert(b[idx as int].edges[e as int] == backed_edge(
                    x,
                    times(p.take(k as int), idx as int, e as int),
                ));
            }
            if idx != leaf {
                let v: u32 = self.nodes[i].visits;
                self.nodes[i].visits = v + 1;
            }
            let n: u32 = self.nodes[i].edges[e].n;
            let lost: u32 = self.nodes[i].edges[e].vloss;
            self.nodes[i].edges[e].n = n - lost + 1;
            self.nodes[i].edges[e].vloss = 0;
            proof {
                let z = b[idx as int].edges[e as int];
                let y = Edge { n: (z.n - z.vloss + 1) as u32, vloss: 0, ..z };
                let h = b.update(
                    idx as int,
                    NodeView {
                        edges: b[idx as int].edges.update(e as int, y),
                        visits: if idx == leaf {
                            b[idx as int].visits
                        } else {
                            (b[idx as int].visits + 1) as u32
                        },
                        ..b[idx as int]
                    },
                );
                assert(self@[idx as int].edges =~= h[idx as int].edges);
                assert(self@[idx as int] =~= h[idx as int]);
                assert(self@ =~= h);
                lemma_backed_step(g, p, leaf, k as int, self@);
            }
            k += 1;
        }
        proof {
            assert(p.take(len as int) =~= p);
            lemma_backed_ok(g, p, leaf);
            lemma_files_same(self.index, g, self@);
        }
    }

    /// Counts a descent of a depth.
    pub fn count_descent(&mut self, reached: u32)
        requires
            old(self).wf(),
            old(self).depth_sum + reached <= u64::MAX,
            old(self).depth_n < u64::MAX,
        ensures
            final(self).wf(),
            final(self)@ == old(self)@,
            final(self).reused == old(self).reused,
            final(self).discarded == old(self).discarded,
            final(self).deepest == (if reached > old(self).deepest {
                reached
            } else {
                old(self).deepest
            }),
            final(self).depth_sum == old(self).depth_sum + reached,
            final(self).depth_n == old(self).depth_n + 1,
    {
        if reached > self.deepest {
            self.deepest = reached;
        }
        self.depth_sum = self.depth_sum + reached as u64;
        self.depth_n = self.depth_n + 1;
        assert(self@ =~= old(self)@);
    }
}

// ---- laws ----------------------------------------------------------------

/// Following an edge lends only on the path.
pub proof fn taking_lends_on_the_path(g: Graph, p: Path, i: u32, e: usize, loss: u32)
    requires
        lent(g, p),
        i < g.len(),
        e < g[i as int].edges.len(),
        g[i as int].edges[e as int].n + loss <= u32::MAX,
    ensures
        ({
            let edge = g[i as int].edges[e as int];
            lent(
                with_edge(
                    g,
                    i as int,
                    e as int,
                    Edge { n: (edge.n + loss) as u32, vloss: (edge.vloss + loss) as u32, ..edge },
                ),
                p.push((i, e)),
            )
        }),
{
    let edge = g[i as int].edges[e as int];
    let now = Edge { n: (edge.n + loss) as u32, vloss: (edge.vloss + loss) as u32, ..edge };
    let h = with_edge(g, i as int, e as int, now);
    let q = p.push((i, e));
    assert(q.drop_last() =~= p);
    assert forall|a: int, x: int| 0 <= a < h.len() && 0 <= x < h[a].edges.len() implies (
    #[trigger] h[a].edges[x]).vloss <= h[a].edges[x].n && (h[a].edges[x].vloss > 0 ==> times(q, a, x)
        > 0) by {
        assert(g[a].edges[x].vloss <= g[a].edges[x].n);
        assert(times(q, a, x) >= times(p, a, x));
    }
}

/// Between simulations no virtual loss rests anywhere: backing a path up takes
/// back everything that was lent on it.
pub proof fn backing_up_settles(g: Graph, p: Path, leaf: u32)
    requires
        lent(g, p),
    ensures
        settled(backed(g, p, leaf)),
{
    let h = backed(g, p, leaf);
    assert forall|i: int, e: int| 0 <= i < h.len() && 0 <= e < h[i].edges.len() implies (
    #[trigger] h[i].edges[e]).vloss == 0 by {
        assert(g[i].edges[e].vloss > 0 ==> times(p, i, e) > 0);
    }
}

/// The virtual loss leaves no trace: whatever was lent, an edge ends up with the
/// visits it had before the descent and one for each time the path takes it.
pub proof fn losses_leave_no_trace(x: Edge, lent: u32, t: nat)
    requires
        x.vloss == 0,
        t > 0,
        x.n + lent <= u32::MAX,
        x.n + t <= u32::MAX,
    ensures
        backed_edge(Edge { n: (x.n + lent) as u32, vloss: lent, ..x }, t) == (Edge {
            n: (x.n + t) as u32,
            ..x
        }),
{
}

// ---- reading the tree ----------------------------------------------------

/// The virtual loss on the edges of a node.
pub open spec fn node_residue(edges: Seq<Edge>) -> nat
    decreases edges.len(),
{
    if edges.len() == 0 {
        0
    } else {
        node_residue(edges.drop_last()) + edges.last().vloss as nat
    }
}

/// The virtual loss on the edges of a graph.
pub open spec fn residue(g: Graph) -> nat
    decreases g.len(),
{
    if g.len() == 0 {
        0
    } else {
        residue(g.drop_last()) + node_residue(g.last().edges)
    }
}

/// Visits of the open edges of a node.
pub open spec fn open_visits(edges: Seq<Edge>, active: int) -> nat
    decreases active,
{
    if active <= 0 {
        0
    } else {
        open_visits(edges, active - 1) + edges[active - 1].n as nat
    }
}

proof fn lemma_node_residue(edges: Seq<Edge>, k: int)
    requires
        0 <= k <= edges.len(),
    ensures
        node_residue(edges.take(k)) <= node_residue(edges),
    decreases edges.len() - k,
{
    if k < edges.len() {
        lemma_node_residue(edges, k + 1);
        assert(edges.take(k + 1).drop_last() =~= edges.take(k));
    } else {
        assert(edges.take(k) =~= edges);
    }
}

proof fn lemma_residue(g: Graph, k: int)
    requires
        0 <= k <= g.len(),
    ensures
        residue(g.take(k)) <= residue(g),
    decreases g.len() - k,
{
    if k < g.len() {
        lemma_residue(g, k + 1);
        assert(g.take(k + 1).drop_last() =~= g.take(k));
    } else {
        assert(g.take(k) =~= g);
    }
}

/// A settled graph has no residue.
pub proof fn settled_graphs_have_no_residue(g: Graph)
    requires
        settled(g),
    ensures
        residue(g) == 0,
    decreases g.len(),
{
    if g.len() > 0 {
        let d = g.drop_last();
        assert forall|i: int, e: int| 0 <= i < d.len() && 0 <= e < d[i].edges.len() implies (
        #[trigger] d[i].edges[e]).vloss == 0 by {
            assert(g[i].edges[e].vloss == 0);
        }
        settled_graphs_have_no_residue(d);
        let last = g.len() - 1;
        assert forall|e: int| 0 <= e < g[last].edges.len() implies (
        #[trigger] g[last].edges[e]).vloss == 0 by {}
        lemma_no_node_residue(g[last].edges);
    }
}

proof fn lemma_no_node_residue(edges: Seq<Edge>)
    requires
        forall|e: int| 0 <= e < edges.len() ==> (#[trigger] edges[e]).vloss == 0,
    ensures
        node_residue(edges) == 0,
    decreases edges.len(),
{
    if edges.len() > 0 {
        lemma_no_node_residue(edges.drop_last());
        assert(edges[edges.len() - 1].vloss == 0);
    }
}

/// Whether a place is the last of the best among those that count.
pub open spec fn last_best(v: Seq<i64>, counts: Seq<bool>, at: int) -> bool {
    &&& 0 <= at < v.len()
    &&& counts[at]
    &&& forall|j: int| 0 <= j < v.len() && counts[j] ==> v[j] <= #[trigger] v[at]
    &&& forall|j: int| at < j < v.len() && counts[j] ==> v[j] < #[trigger] v[at]
}

fn pick_last_best(v: &Vec<i64>, counts: &Vec<bool>) -> (r: Option<usize>)
    requires
        v@.len() == counts@.len(),
    ensures
        match r {
            Some(at) => last_best(v@, counts@, at as int),
            None => forall|j: int| 0 <= j < v@.len() ==> !#[trigger] counts@[j],
        },
{
    let mut best: Option<usize> = None;
    let mut i: usize = 0;
    while i < v.len()
        invariant
            i <= v@.len(),
            v@.len() == counts@.len(),
            match best {
                Some(at) => at < i && counts@[at as int] && (forall|j: int|
                    0 <= j < i && counts@[j] ==> v@[j] <= #[trigger] v@[at as int]) && (forall|j: int|
                    at < j < i && counts@[j] ==> v@[j] < #[trigger] v@[at as int]),
                None => forall|j: int| 0 <= j < i ==> !#[trigger] counts@[j],
            },
        decreases v@.len() - i,
    {
        if counts[i] {
            match best {
                Some(at) => {
                    if v[i] >= v[at] {
                        best = Some(i);
                    }
                },
                None => {
                    best = Some(i);
                },
            }
        }
        i += 1;
    }
    best
}

/// The visits of a node's open edges.
pub open spec fn open_counts(n: NodeView) -> Seq<i64> {
    Seq::new(n.active as nat, |e: int| n.edges[e].n as i64)
}

/// Whether every place counts.
pub open spec fn all_count(n: nat) -> Seq<bool> {
    Seq::new(n, |e: int| true)
}

/// The visits an edge needs to be picked by its value: a hundredth of those of
/// the open edges, and at least one.
pub open spec fn value_floor(n: NodeView) -> int {
    let t = open_visits(n.edges, n.active as int) / 100;
    if t < 1 {
        1
    } else {
        t as int
    }
}

/// Which of a node's open edges may be picked by their value.
pub open spec fn may_pick(n: NodeView) -> Seq<bool> {
    Seq::new(n.active as nat, |e: int| n.edges[e].n >= value_floor(n))
}

proof fn lemma_open_visits(edges: Seq<Edge>, a: int)
    requires
        0 <= a <= edges.len(),
    ensures
        open_visits(edges, a) <= a * u32::MAX,
    decreases a,
{
    if a > 0 {
        lemma_open_visits(edges, a - 1);
    }
}

impl Arena {
    /// The virtual loss that rests anywhere.
    pub fn virtual_loss_residue(&self) -> (r: u32)
        requires
            residue(self@) <= u32::MAX,
        ensures
            r == residue(self@),
    {
        let ghost g = self@;
        let mut r: u32 = 0;
        let mut i: usize = 0;
        assert(g.take(0) =~= Seq::empty());
        while i < self.nodes.len()
            invariant
                i <= self.nodes@.len(),
                g == self@,
                residue(g) <= u32::MAX,
                r == residue(g.take(i as int)),
            decreases self.nodes@.len() - i,
        {
            let ghost edges = self.nodes@[i as int].edges@;
            let base: u32 = r;
            proof {
                assert(g[i as int].edges == edges);
                assert(g.take(i + 1).drop_last() =~= g.take(i as int));
                lemma_residue(g, i + 1);
                assert(edges.take(0) =~= Seq::empty());
            }
            let mut e: usize = 0;
            while e < self.nodes[i].edges.len()
                invariant
                    i < self.nodes@.len(),
                    edges == self.nodes@[i as int].edges@,
                    e <= edges.len(),
                    base + node_residue(edges) <= u32::MAX,
                    r == base + node_residue(edges.take(e as int)),
                decreases edges.len() - e,
            {
                proof {
                    assert(edges.take(e + 1).drop_last() =~= edges.take(e as int));
                    lemma_node_residue(edges, e + 1);
                }
                r = r + self.nodes[i].edges[e].vloss;
                e += 1;
            }
            assert(edges.take(e as int) =~= edges);
            i += 1;
        }
        assert(g.take(i as int) =~= g);
        r
    }

    /// The most visited open edge of a node, the last of several, or none where
    /// no edge is open.
    pub fn most_visited(&self, idx: u32) -> (r: Option<usize>)
        requires
            self.wf(),
            idx < self@.len(),
        ensures
            ({
                let n = self@[idx as int];
                match r {
                    Some(at) => last_best(open_counts(n), all_count(n.active as nat), at as int),
                    None => n.active == 0,
                }
            }),
    {
        let ghost n = self@[idx as int];
        let i: usize = idx as usize;
        assert(n == self.nodes@[idx as int]@);
        assert(node_ok(n, self@.len() as int));
        let active: usize = self.nodes[i].active;
        let mut v: Vec<i64> = Vec::new();
        let mut c: Vec<bool> = Vec::new();
        let mut e: usize = 0;
        while e < active
            invariant
                e <= active,
                active == n.active,
                active <= n.edges.len(),
                i < self.nodes@.len(),
                n == self.nodes@[i as int]@,
                v@.len() == e,
                c@.len() == e,
                forall|j: int| 0 <= j < e ==> #[trigger] v@[j] == n.edges[j].n as i64,
                forall|j: int| 0 <= j < e ==> #[trigger] c@[j],
            decreases active - e,
        {
            v.push(self.nodes[i].edges[e].n as i64);
            c.push(true);
            e += 1;
        }
        assert(v@ =~= open_counts(n));
        assert(c@ =~= all_count(n.active as nat));
        assert(active > 0 ==> c@[0]);
        pick_last_best(&v, &c)
    }

    /// The open edge of a node with the best value, the last of several, among
    /// those with a hundredth of the visits, or none where no edge has them.
    pub fn best_by_value(&self, idx: u32, values: &Vec<i64>) -> (r: Option<usize>)
        requires
            self.wf(),
            idx < self@.len(),
            values@.len() == self@[idx as int].active,
        ensures
            ({
                let n = self@[idx as int];
                match r {
                    Some(at) => last_best(values@, may_pick(n), at as int),
                    None => forall|e: int| 0 <= e < n.active ==> !#[trigger] may_pick(n)[e],
                }
            }),
    {
        let ghost n = self@[idx as int];
        let i: usize = idx as usize;
        assert(n == self.nodes@[idx as int]@);
        assert(node_ok(n, self@.len() as int));
        let active: usize = self.nodes[i].active;
        let mut total: u128 = 0;
        let mut e: usize = 0;
        while e < active
            invariant
                e <= active,
                active == n.active,
                active <= n.edges.len(),
                i < self.nodes@.len(),
                n == self.nodes@[i as int]@,
                total == open_visits(n.edges, e as int),
            decreases active - e,
        {
            proof {
                lemma_open_visits(n.edges, e + 1);
            }
            total = total + self.nodes[i].edges[e].n as u128;
            e += 1;
        }
        let part: u128 = total / 100;
        let floor: u128 = if part < 1 {
            1
        } else {
            part
        };
        assert(floor == value_floor(n));
        let mut c: Vec<bool> = Vec::new();
        let mut k: usize = 0;
        while k < active
            invariant
                k <= active,
                active == n.active,
                active <= n.edges.len(),
                floor == value_floor(n),
                i < self.nodes@.len(),
                n == self.nodes@[i as int]@,
                c@.len() == k,
                forall|j: int| 0 <= j < k ==> #[trigger] c@[j] == (n.edges[j].n >= value_floor(n)),
            decreases active - k,
        {
            c.push(self.nodes[i].edges[k].n as u128 >= floor);
            k += 1;
        }
        assert(c@ =~= may_pick(n));
        pick_last_best(values, &c)
    }

    /// For every node that is no end of the game, how many steps are legal and
    /// how many edges are open.
    pub fn node_widths(&self) -> (v: Vec<(u32, usize)>)
        ensures
            v@ == widths(self@),
    {
        let ghost g = self@;
        let mut v: Vec<(u32, usize)> = Vec::new();
        let mut i: usize = 0;
        assert(g.take(0) =~= Seq::empty());
        while i < self.nodes.len()
            invariant
                i <= self.nodes@.len(),
                g == self@,
                v@ == widths(g.take(i as int)),
            decreases self.nodes@.len() - i,
        {
            assert(g[i as int] == self.nodes@[i as int]@);
            assert(g.take(i + 1).drop_last() =~= g.take(i as int));
            if !self.nodes[i].terminal {
                v.push((self.nodes[i].n_legal, self.nodes[i].active));
            }
            i += 1;
        }
        assert(g.take(i as int) =~= g);
        v
    }
}

/// The share of the visits an open edge has: its own of all of them, and an equal
/// one each where nothing was visited.
pub open spec fn visit_share(n: NodeView, e: int) -> (int, int) {
    let total = open_visits(n.edges, n.active as int) as int;
    if total == 0 {
        (1, n.active as int)
    } else {
        (n.edges[e].n as int, total)
    }
}

/// The shares of a node's open edges add up to one.
pub proof fn shares_add_up(n: NodeView)
    requires
        n.active > 0,
    ensures
        open_visits(n.edges, n.active as int) > 0 ==> sum_of_shares(n, n.active as int)
            == open_visits(n.edges, n.active as int),
        open_visits(n.edges, n.active as int) == 0 ==> sum_of_shares(n, n.active as int) == n.active,
{
    lemma_sum_of_shares(n, n.active as int);
}

/// The first shares of a node added up, over their common denominator.
pub open spec fn sum_of_shares(n: NodeView, k: int) -> int
    decreases k,
{
    if k <= 0 {
        0
    } else {
        sum_of_shares(n, k - 1) + visit_share(n, k - 1).0
    }
}

proof fn lemma_sum_of_shares(n: NodeView, k: int)
    requires
        0 <= k <= n.active,
    ensures
        open_visits(n.edges, n.active as int) > 0 ==> sum_of_shares(n, k) == open_visits(n.edges, k),
        open_visits(n.edges, n.active as int) == 0 ==> sum_of_shares(n, k) == k,
    decreases k,
{
    if k > 0 {
        lemma_sum_of_shares(n, k - 1);
    }
}

impl Arena {
    /// The shares of the visits that a node's open edges have, each over the
    /// number given with them.
    pub fn policy(&self, idx: u32) -> (r: (Vec<u32>, u128))
        requires
            self.wf(),
            idx < self@.len(),
        ensures
            r.0@.len() == self@[idx as int].active,
            forall|e: int|
                0 <= e < r.0@.len() ==> (#[trigger] r.0@[e] as int, r.1 as int) == visit_share(
                    self@[idx as int],
                    e,
                ),
    {
        let ghost n = self@[idx as int];
        let i: usize = idx as usize;
        assert(n == self.nodes@[idx as int]@);
        assert(node_ok(n, self@.len() as int));
        let active: usize = self.nodes[i].active;
        let mut total: u128 = 0;
        let mut v: Vec<u32> = Vec::new();
        let mut e: usize = 0;
        while e < active
            invariant
                e <= active,
                active == n.active,
                active <= n.edges.len(),
                i < self.nodes@.len(),
                n == self.nodes@[i as int]@,
                total == open_visits(n.edges, e as int),
                v@.len() == e,
                forall|j: int| 0 <= j < e ==> #[trigger] v@[j] == n.edges[j].n,
            decreases active - e,
        {
            proof {
                lemma_open_visits(n.edges, e + 1);
            }
            let count: u32 = self.nodes[i].edges[e].n;
            v.push(count);
            total = total + count as u128;
            e += 1;
        }
        if total > 0 {
            return (v, total);
        }
        let mut even: Vec<u32> = Vec::new();
        let mut k: usize = 0;
        while k < active
            invariant
                k <= active,
                even@.len() == k,
                forall|j: int| 0 <= j < k ==> #[trigger] even@[j] == 1,
            decreases active - k,
        {
            even.push(1);
            k += 1;
        }
        (even, active as u128)
    }

    /// The deepest descent, the sum of the depths and how many there were, in
    /// steps of a turn.
    pub fn depth_stats(&self) -> (r: (u32, u64, u64))
        ensures
            r == (self.deepest, self.depth_sum, self.depth_n),
    {
        (self.deepest, self.depth_sum, self.depth_n)
    }
}

/// The widths of the nodes that are no ends of the game.
pub open spec fn widths(g: Graph) -> Seq<(u32, usize)>
    decreases g.len(),
{
    if g.len() == 0 {
        Seq::empty()
    } else if g.last().terminal {
        widths(g.drop_last())
    } else {
        widths(g.drop_last()).push((g.last().n_legal, g.last().active))
    }
}

/// Whether an index list is the edges a node keeps, in the order they are opened:
/// all of them as they came where they are few, and otherwise the best by their
/// keys, equal ones as they came, as many as there is room for.
pub open spec fn keeps_edges(
    keys: Seq<i64>,
    max_edges: usize,
    widen_cap: usize,
    idx: Seq<usize>,
) -> bool {
    if keys.len() <= max_edges {
        idx == Seq::new(keys.len(), |i: int| i as usize)
    } else {
        exists|all: Seq<usize>| #[trigger]
            best_first(keys, all) && idx == all.take(
                lesser(
                    keys.len() as int,
                    if widen_cap > max_edges {
                        widen_cap as int
                    } else {
                        max_edges as int
                    },
                ),
            )
    }
}

/// The edges a node keeps, in the order they are opened.
pub fn select_edges(keys: &Vec<i64>, max_edges: usize, widen_cap: usize) -> (idx: Vec<usize>)
    ensures
        keeps_edges(keys@, max_edges, widen_cap, idx@),
{
    let n: usize = keys.len();
    if n <= max_edges {
        let mut idx: Vec<usize> = Vec::new();
        let mut i: usize = 0;
        while i < n
            invariant
                i <= n,
                idx@ == Seq::new(i as nat, |k: int| k as usize),
            decreases n - i,
        {
            idx.push(i);
            i += 1;
            assert(idx@ =~= Seq::new(i as nat, |k: int| k as usize));
        }
        return idx;
    }
    let mut idx = by_score(keys);
    let ghost all = idx@;
    let room: usize = if widen_cap > max_edges {
        widen_cap
    } else {
        max_edges
    };
    if idx.len() > room {
        idx.truncate(room);
    }
    assert(best_first(keys@, all));
    assert(idx@ =~= all.take(
        lesser(
            n as int,
            if widen_cap > max_edges {
                widen_cap as int
            } else {
                max_edges as int
            },
        ),
    ));
    idx
}

} // verus!
