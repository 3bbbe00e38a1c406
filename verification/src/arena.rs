//! The nodes of a tree search: a graph in one list, where positions reached along
//! different paths share a node.

use crate::nodekey::NodeKey;
use crate::phase::{Phase, Step};
use crate::seen::{filed_under, nodes_filed, NodeIndex};
use crate::state::GameState;
use vstd::prelude::*;

verus! {

/// One step out of a node.
pub struct Edge {
    pub step: Step,
    /// The node it leads to, once it has been followed.
    pub child: Option<u32>,
    /// Visits, with the virtual loss that rests on it.
    pub n: u32,
    /// Virtual loss that rests on it.
    pub vloss: u32,
}

/// One position of the search, with the place in the turn it stands at.
pub struct Node {
    pub key: NodeKey,
    pub edges: Vec<Edge>,
    /// How many edges are open.
    pub active: usize,
    /// How many steps are legal, those not kept as edges too.
    pub n_legal: u32,
    pub visits: u32,
    /// Whether it was evaluated. A node with a single step is not.
    pub valued: bool,
    /// Whether the game is over.
    pub terminal: bool,
    /// Whether it belongs to the turn that is being searched.
    pub in_root_turn: bool,
}

/// A node as plain values.
#[verifier::ext_equal]
pub struct NodeView {
    pub key: NodeKey,
    pub edges: Seq<Edge>,
    pub active: usize,
    pub n_legal: u32,
    pub visits: u32,
    pub valued: bool,
    pub terminal: bool,
    pub in_root_turn: bool,
}

impl View for Node {
    type V = NodeView;

    open spec fn view(&self) -> NodeView {
        NodeView {
            key: self.key,
            edges: self.edges@,
            active: self.active,
            n_legal: self.n_legal,
            visits: self.visits,
            valued: self.valued,
            terminal: self.terminal,
            in_root_turn: self.in_root_turn,
        }
    }
}

pub type Graph = Seq<NodeView>;

/// The nodes of a search.
pub struct Arena {
    pub nodes: Vec<Node>,
    pub index: NodeIndex,
    /// Nodes the last search kept from the one before, and nodes it let go.
    pub reused: usize,
    pub discarded: usize,
    /// The deepest descent, the sum of the depths, and how many there were.
    pub deepest: u32,
    pub depth_sum: u64,
    pub depth_n: u64,
}

impl View for Arena {
    type V = Graph;

    open spec fn view(&self) -> Graph {
        Seq::new(self.nodes@.len(), |i: int| self.nodes@[i]@)
    }
}

/// Whether an edge leads nowhere or to a node there is.
pub open spec fn edge_ok(e: Edge, len: int) -> bool {
    e.child matches Some(c) ==> c < len
}

/// A node whose edges lead to nodes there are.
pub open spec fn node_ok(n: NodeView, len: int) -> bool {
    &&& n.active <= n.edges.len()
    &&& forall|e: int| 0 <= e < n.edges.len() ==> edge_ok(#[trigger] n.edges[e], len)
}

/// Whether no two nodes that are not ends of the game have the same key.
pub open spec fn keys_differ(g: Graph) -> bool {
    forall|i: int, j: int|
        0 <= i < j < g.len() && !(#[trigger] g[i]).terminal && !(#[trigger] g[j]).terminal
            ==> g[i].key != g[j].key
}

/// Whether an index files exactly the nodes that are not ends of the game, each
/// under its word.
pub open spec fn files(t: NodeIndex, g: Graph) -> bool {
    &&& forall|d: u64, i: u32|
        #[trigger] filed_under(t, d).contains(i) <==> i < g.len() && !g[i as int].terminal
            && g[i as int].key.word() == d
    &&& forall|d: u64| (#[trigger] filed_under(t, d)).no_duplicates()
}

/// Different numbers below a bound are no more than it.
pub proof fn lemma_few(b: Seq<u32>, n: int)
    requires
        b.no_duplicates(),
        forall|j: int| 0 <= j < b.len() ==> (#[trigger] b[j]) < n,
        0 <= n,
    ensures
        b.len() <= n,
{
    let m = Seq::new(b.len(), |j: int| b[j] as int);
    assert(m.no_duplicates()) by {
        assert forall|i: int, j: int| 0 <= i < m.len() && 0 <= j < m.len() && i != j implies m[i]
            != m[j] by {
            assert(b[i] != b[j]);
        }
    }
    m.unique_seq_to_set();
    vstd::set_lib::lemma_int_range(0, n);
    assert(m.to_set().subset_of(vstd::set_lib::set_int_range(0, n))) by {
        assert forall|x: int| m.to_set().contains(x) implies vstd::set_lib::set_int_range(
            0,
            n,
        ).contains(x) by {
            let j = m.index_of(x);
            assert(b[j] < n);
        }
    }
    vstd::set_lib::lemma_len_subset(m.to_set(), vstd::set_lib::set_int_range(0, n));
}

/// A graph whose edges lead to nodes there are.
pub open spec fn graph_ok(g: Graph) -> bool {
    &&& g.len() <= u32::MAX
    &&& forall|i: int| 0 <= i < g.len() ==> node_ok(#[trigger] g[i], g.len() as int)
    &&& keys_differ(g)
}

/// What a search finds under a key.
pub enum Probe {
    /// The game is over there.
    Over,
    /// A node there is.
    Known(u32),
    /// No node yet.
    Fresh,
}

impl Arena {
    pub open spec fn wf(&self) -> bool {
        graph_ok(self@) && files(self.index, self@)
    }

    /// An arena without nodes.
    pub fn new() -> (a: Arena)
        ensures
            a.wf(),
            a@ == Seq::<NodeView>::empty(),
            a.reused == 0,
            a.discarded == 0,
            a.deepest == 0,
            a.depth_sum == 0,
            a.depth_n == 0,
    {
        let a = Arena {
            nodes: Vec::new(),
            index: NodeIndex::new(),
            reused: 0,
            discarded: 0,
            deepest: 0,
            depth_sum: 0,
            depth_n: 0,
        };
        assert(a@ =~= Seq::<NodeView>::empty());
        a
    }

    /// How many nodes there are.
    pub fn arena_len(&self) -> (n: usize)
        ensures
            n == self@.len(),
    {
        self.nodes.len()
    }

    /// The nodes the last search kept from the one before, and those it let go.
    pub fn reuse_stats(&self) -> (r: (usize, usize))
        ensures
            r == (self.reused, self.discarded),
    {
        (self.reused, self.discarded)
    }

    /// The node with a key, if there is one: of those filed under the key's
    /// word, the one whose whole key it is.
    pub fn find(&self, key: &NodeKey) -> (r: Option<u32>)
        requires
            self.wf(),
        ensures
            match r {
                Some(i) => i < self@.len() && !self@[i as int].terminal && self@[i as int].key
                    == *key,
                None => forall|i: int|
                    0 <= i < self@.len() && !(#[trigger] self@[i]).terminal ==> self@[i].key
                        != *key,
            },
    {
        let d: u64 = key.digest();
        let ghost b = filed_under(self.index, d);
        proof {
            assert forall|j: int| 0 <= j < b.len() implies (#[trigger] b[j]) < self@.len() by {
                assert(b.contains(b[j]));
            }
            lemma_few(b, self@.len() as int);
        }
        let mut k: usize = 0;
        let mut hit: Option<u32> = None;
        let mut more = true;
        while more
            invariant
                self.wf(),
                d == key.word(),
                b == filed_under(self.index, d),
                k <= b.len() <= u32::MAX,
                !more && hit is None ==> k == b.len(),
                hit matches Some(i) ==> i < self@.len() && !self@[i as int].terminal
                    && self@[i as int].key == *key,
                more ==> hit is None,
                forall|j: int| 0 <= j < k ==> self@[#[trigger] b[j] as int].key != *key,
            decreases b.len() - k + if more {
                1int
            } else {
                0
            },
        {
            match self.index.at(d, k) {
                Some(i) => {
                    assert(b.contains(b[k as int]));
                    assert(self@[i as int] == self.nodes@[i as int]@);
                    if self.nodes[i as usize].key.same(key) {
                        hit = Some(i);
                        more = false;
                    } else {
                        k += 1;
                    }
                },
                None => {
                    more = false;
                },
            }
        }
        if hit.is_some() {
            return hit;
        }
        proof {
            assert forall|i: int| 0 <= i < self@.len() && !(#[trigger] self@[i]).terminal implies self@[i].key
                != *key by {
                if self@[i].key == *key {
                    assert(b.contains(i as u32));
                    let j = b.index_of(i as u32);
                    assert(b[j] == i as u32);
                }
            }
        }
        None
    }
    /// What there is under a key. An end of the game is never filed.
    pub fn probe(&self, key: &NodeKey) -> (p: Probe)
        requires
            self.wf(),
        ensures
            match p {
                Probe::Over => key.state.over,
                Probe::Known(i) => !key.state.over && i < self@.len() && !self@[i as int].terminal
                    && self@[i as int].key == *key,
                Probe::Fresh => !key.state.over && forall|i: int|
                    0 <= i < self@.len() && !(#[trigger] self@[i]).terminal ==> self@[i].key
                        != *key,
            },
    {
        if key.state.over {
            return Probe::Over;
        }
        match self.find(key) {
            Some(i) => Probe::Known(i),
            None => Probe::Fresh,
        }
    }

    /// Lets every node go.
    pub fn clear(&mut self)
        ensures
            final(self).wf(),
            final(self)@ == Seq::<NodeView>::empty(),
            final(self).reused == 0,
            final(self).discarded == 0,
            final(self).deepest == old(self).deepest,
            final(self).depth_sum == old(self).depth_sum,
            final(self).depth_n == old(self).depth_n,
    {
        self.nodes = Vec::new();
        self.index.clear();
        self.reused = 0;
        self.discarded = 0;
        assert(self@ =~= Seq::<NodeView>::empty());
    }

    /// Adds the end of a game.
    pub fn push_terminal(&mut self, state: GameState) -> (idx: u32)
        requires
            old(self).wf(),
            old(self)@.len() < u32::MAX,
        ensures
            final(self).wf(),
            idx == old(self)@.len(),
            final(self)@ == old(self)@.push(ending(state)),
            final(self).same_counters(*old(self)),
    {
        let ghost g = self@;
        let idx: u32 = self.nodes.len() as u32;
        let key = NodeKey { state, phase: Phase::Beg, turn: state.current, done: 0 };
        let node = Node {
            key,
            edges: Vec::new(),
            active: 0,
            n_legal: 0,
            visits: 0,
            valued: true,
            terminal: true,
            in_root_turn: false,
        };
        self.nodes.push(node);
        proof {
            assert(node@.edges =~= Seq::empty());
            assert(node@ == ending(state));
            assert(self@ =~= g.push(node@));
            lemma_pushed(g, node@);
            assert forall|d: u64, i: u32| #[trigger] filed_under(self.index, d).contains(i) <==> i
                < self@.len() && !self@[i as int].terminal && self@[i as int].key.word() == d by {
                if i < g.len() {
                    assert(self@[i as int] == g[i as int]);
                }
            }
        }
        idx
    }

    /// Adds a node with its edges in the order they are to be opened. A node with
    /// a single legal step is not evaluated.
    pub fn add_node(
        &mut self,
        key: NodeKey,
        steps: Vec<Step>,
        n_legal: u32,
        in_root_turn: bool,
        max_edges: usize,
    ) -> (idx: u32)
        requires
            old(self).wf(),
            old(self)@.len() < u32::MAX,
            forall|i: int|
                0 <= i < old(self)@.len() && !(#[trigger] old(self)@[i]).terminal ==> old(self)@[i].key
                    != key,
        ensures
            final(self).wf(),
            idx == old(self)@.len(),
            final(self)@ == old(self)@.push(fresh(key, steps@, n_legal, in_root_turn, max_edges)),
            final(self).same_counters(*old(self)),
    {
        let ghost g = self@;
        let idx: u32 = self.nodes.len() as u32;
        let count: usize = steps.len();
        let edges = new_edges(steps);
        let active: usize = if count < max_edges {
            count
        } else {
            max_edges
        };
        let node = Node {
            key,
            edges,
            active,
            n_legal,
            visits: 0,
            valued: n_legal != 1,
            terminal: false,
            in_root_turn,
        };
        let d: u64 = node.key.digest();
        let ghost t0 = self.index;
        self.index.file(d, idx);
        self.nodes.push(node);
        proof {
            assert(node@.edges =~= fresh(key, steps@, n_legal, in_root_turn, max_edges).edges);
            assert(node@ == fresh(key, steps@, n_legal, in_root_turn, max_edges));
            assert(self@ =~= g.push(node@));
            lemma_pushed(g, node@);
            lemma_filed(t0, self.index, g, node@, d);
        }
        idx
    }

    pub open spec fn same_counters(&self, other: Arena) -> bool {
        &&& self.reused == other.reused
        &&& self.discarded == other.discarded
        &&& self.deepest == other.deepest
        &&& self.depth_sum == other.depth_sum
        &&& self.depth_n == other.depth_n
    }
}

/// A step not followed yet.
pub open spec fn unvisited(step: Step) -> Edge {
    Edge { step, child: None, n: 0, vloss: 0 }
}

/// The end of a game.
pub open spec fn ending(state: GameState) -> NodeView {
    NodeView {
        key: NodeKey { state, phase: Phase::Beg, turn: state.current, done: 0 },
        edges: Seq::empty(),
        active: 0,
        n_legal: 0,
        visits: 0,
        valued: true,
        terminal: true,
        in_root_turn: false,
    }
}

/// A node nothing has visited.
pub open spec fn fresh(
    key: NodeKey,
    steps: Seq<Step>,
    n_legal: u32,
    in_root_turn: bool,
    max_edges: usize,
) -> NodeView {
    NodeView {
        key,
        edges: Seq::new(steps.len(), |i: int| unvisited(steps[i])),
        active: if steps.len() < max_edges {
            steps.len() as usize
        } else {
            max_edges
        },
        n_legal,
        visits: 0,
        valued: n_legal != 1,
        terminal: false,
        in_root_turn,
    }
}

fn new_edges(steps: Vec<Step>) -> (v: Vec<Edge>)
    ensures
        v@ == Seq::new(steps@.len(), |i: int| unvisited(steps@[i])),
{
    let ghost all = steps@;
    let mut left = steps;
    let mut rev: Vec<Edge> = Vec::new();
    while left.len() > 0
        invariant
            left@.len() + rev@.len() == all.len(),
            left@ == all.take(left@.len() as int),
            forall|i: int|
                0 <= i < rev@.len() ==> #[trigger] rev@[i] == unvisited(all[all.len() - 1 - i]),
        decreases left@.len(),
    {
        let ghost l0 = left@;
        match left.pop() {
            Some(step) => {
                assert(step == all[l0.len() - 1]);
                assert(left@ =~= all.take(left@.len() as int));
                rev.push(Edge { step, child: None, n: 0, vloss: 0 });
            },
            None => {},
        }
    }
    let ghost back = rev@;
    let mut v: Vec<Edge> = Vec::new();
    while rev.len() > 0
        invariant
            rev@.len() + v@.len() == all.len(),
            back.len() == all.len(),
            rev@ == back.take(rev@.len() as int),
            forall|i: int|
                0 <= i < back.len() ==> #[trigger] back[i] == unvisited(all[all.len() - 1 - i]),
            forall|i: int| 0 <= i < v@.len() ==> #[trigger] v@[i] == unvisited(all[i]),
        decreases rev@.len(),
    {
        let ghost r0 = rev@;
        match rev.pop() {
            Some(e) => {
                assert(e == back[r0.len() - 1]);
                assert(rev@ =~= back.take(rev@.len() as int));
                v.push(e);
            },
            None => {},
        }
    }
    assert(v@ =~= Seq::new(all.len(), |i: int| unvisited(all[i])));
    v
}

/// A graph with a node added whose edges lead to nodes there are.
proof fn lemma_pushed(g: Graph, n: NodeView)
    requires
        graph_ok(g),
        g.len() < u32::MAX,
        node_ok(n, g.len() as int),
        n.terminal || forall|i: int|
            0 <= i < g.len() && !(#[trigger] g[i]).terminal ==> g[i].key != n.key,
    ensures
        graph_ok(g.push(n)),
{
    let h = g.push(n);
    assert forall|i: int| 0 <= i < h.len() implies node_ok(#[trigger] h[i], h.len() as int) by {
        if i < g.len() {
            assert(h[i] == g[i]);
            assert(node_ok(g[i], g.len() as int));
            assert forall|e: int| 0 <= e < h[i].edges.len() implies edge_ok(
                #[trigger] h[i].edges[e],
                h.len() as int,
            ) by {
                assert(edge_ok(g[i].edges[e], g.len() as int));
            }
        } else {
            assert forall|e: int| 0 <= e < n.edges.len() implies edge_ok(
                #[trigger] n.edges[e],
                h.len() as int,
            ) by {
                assert(edge_ok(n.edges[e], g.len() as int));
            }
        }
    }
    assert forall|i: int, j: int|
        0 <= i < j < h.len() && !(#[trigger] h[i]).terminal && !(#[trigger] h[j]).terminal implies h[i].key
        != h[j].key by {
        assert(h[i] == g[i]);
        if j < g.len() {
            assert(h[j] == g[j]);
        }
    }
}

/// Filing a new node keeps an index right.
proof fn lemma_filed(t0: NodeIndex, t1: NodeIndex, g: Graph, n: NodeView, d: u64)
    requires
        files(t0, g),
        g.len() < u32::MAX,
        !n.terminal,
        d == n.key.word(),
        nodes_filed(t1) == nodes_filed(t0).insert(d, filed_under(t0, d).push(g.len() as u32)),
    ensures
        files(t1, g.push(n)),
{
    let h = g.push(n);
    let idx = g.len() as u32;
    let b0 = filed_under(t0, d);
    let b1 = b0.push(idx);
    assert(filed_under(t1, d) == b1);
    assert(!b0.contains(idx));
    assert forall|e: u64, i: u32| #[trigger] filed_under(t1, e).contains(i) <==> i < h.len()
        && !h[i as int].terminal && h[i as int].key.word() == e by {
        if i < g.len() {
            assert(h[i as int] == g[i as int]);
        }
        if e == d {
            if b1.contains(i) {
                let k = b1.index_of(i);
                if k < b0.len() {
                    assert(b0[k] == i);
                    assert(b0.contains(i));
                }
            }
            if b0.contains(i) {
                let k = b0.index_of(i);
                assert(b1[k] == i);
            }
            assert(b1[b0.len() as int] == idx);
        } else {
            assert(filed_under(t1, e) == filed_under(t0, e));
        }
        assert(filed_under(t0, e).contains(i) <==> i < g.len() && !g[i as int].terminal
            && g[i as int].key.word() == e);
    }
    assert forall|e: u64| (#[trigger] filed_under(t1, e)).no_duplicates() by {
        if e == d {
            assert(b0.no_duplicates());
            assert forall|x: int, y: int| 0 <= x < b1.len() && 0 <= y < b1.len() && x != y implies b1[x]
                != b1[y] by {
                if x < b0.len() {
                    assert(b0.contains(b0[x]));
                }
                if y < b0.len() {
                    assert(b0.contains(b0[y]));
                }
            }
        } else {
            assert(filed_under(t1, e) == filed_under(t0, e));
        }
    }
}

// ---- keeping a subtree ---------------------------------------------------

/// Whether an edge of a node leads to another.
pub open spec fn leads(g: Graph, i: int, j: int) -> bool {
    exists|e: int| 0 <= e < g[i].edges.len() && (#[trigger] g[i].edges[e]).child == Some(j as u32)
}

/// Whether nodes follow one another along edges.
pub open spec fn walk(g: Graph, p: Seq<int>) -> bool {
    &&& p.len() > 0
    &&& forall|k: int| 0 <= k < p.len() ==> 0 <= #[trigger] p[k] < g.len()
    &&& forall|k: int| 0 < k < p.len() ==> leads(g, p[k - 1], #[trigger] p[k])
}

/// Whether a node can be reached.
pub open spec fn reachable(g: Graph, root: int, i: int) -> bool {
    exists|p: Seq<int>| #[trigger] walk(g, p) && p[0] == root && p.last() == i
}

/// Whether a list names exactly the nodes that can be reached, each once, the
/// root first.
pub open spec fn sweeps(g: Graph, root: int, order: Seq<u32>) -> bool {
    &&& order.len() > 0
    &&& order[0] == root
    &&& order.no_duplicates()
    &&& forall|k: int| 0 <= k < order.len() ==> (#[trigger] order[k]) < g.len()
    &&& forall|i: int|
        0 <= i < g.len() ==> (order.contains(i as u32) <==> #[trigger] reachable(g, root, i))
}

/// A list with those of the first `k` nodes that the edges of one lead to that it
/// does not name yet, in the order of the edges.
pub open spec fn extended(g: Graph, order: Seq<u32>, i: int, k: int) -> Seq<u32>
    decreases k,
{
    if k <= 0 {
        order
    } else {
        let before = extended(g, order, i, k - 1);
        match g[i].edges[k - 1].child {
            Some(c) => if before.contains(c) {
                before
            } else {
                before.push(c)
            },
            None => before,
        }
    }
}

/// The nodes that can be reached, breadth first, once those before place `i` of a
/// list have been looked at.
pub open spec fn breadth_first(g: Graph, order: Seq<u32>, i: int) -> Seq<u32>
    decreases g.len() - i,
{
    if i < 0 || i >= order.len() || i >= g.len() {
        order
    } else {
        let at = order[i] as int;
        breadth_first(g, extended(g, order, at, g[at].edges.len() as int), i + 1)
    }
}

/// An edge with its node's new number.
pub open spec fn moved_edge(e: Edge, order: Seq<u32>) -> Edge {
    Edge {
        child: match e.child {
            Some(c) => Some(order.index_of(c) as u32),
            None => None,
        },
        ..e
    }
}

/// A node with the new numbers of the nodes it leads to.
pub open spec fn moved(n: NodeView, order: Seq<u32>) -> NodeView {
    NodeView { edges: Seq::new(n.edges.len(), |e: int| moved_edge(n.edges[e], order)), ..n }
}

/// A graph of which only the listed nodes are kept, numbered as listed.
pub open spec fn kept(g: Graph, order: Seq<u32>) -> Graph {
    Seq::new(order.len(), |k: int| moved(g[order[k] as int], order))
}

/// Whether a numbering and a list of the numbered agree.
spec fn numbers(mapping: Seq<Option<u32>>, order: Seq<u32>) -> bool {
    &&& forall|k: int|
        0 <= k < order.len() ==> (#[trigger] order[k]) < mapping.len() && mapping[order[k] as int]
            == Some(k as u32)
    &&& forall|c: int|
        0 <= c < mapping.len() ==> (#[trigger] mapping[c] matches Some(k) ==> k < order.len()
            && order[k as int] == c)
}

/// Whether every edge of a node, up to one, leads to a numbered node.
spec fn followed(g: Graph, mapping: Seq<Option<u32>>, i: int, to: int) -> bool {
    forall|e: int|
        0 <= e < to && e < g[i].edges.len() ==> ((#[trigger] g[i].edges[e]).child matches Some(
            c,
        ) ==> c < mapping.len() && mapping[c as int] is Some)
}

proof fn lemma_numbers_few(mapping: Seq<Option<u32>>, order: Seq<u32>)
    requires
        numbers(mapping, order),
        mapping.len() <= u32::MAX,
        order.len() <= u32::MAX + 1,
    ensures
        order.no_duplicates(),
        order.len() <= mapping.len(),
{
    assert forall|x: int, y: int| 0 <= x < order.len() && 0 <= y < order.len() && x != y implies order[x]
        != order[y] by {
        assert(mapping[order[x] as int] == Some(x as u32));
        assert(mapping[order[y] as int] == Some(y as u32));
    }
    lemma_few(order, mapping.len() as int);
}

/// A numbering that misses no node an edge leads to misses none that a walk ends
/// at.
proof fn lemma_closed(
    g: Graph,
    p: Seq<int>,
    mapping: Seq<Option<u32>>,
    order: Seq<u32>,
)
    requires
        graph_ok(g),
        mapping.len() == g.len(),
        numbers(mapping, order),
        walk(g, p),
        order.contains(p[0] as u32),
        forall|x: int|
            0 <= x < order.len() ==> followed(
                g,
                mapping,
                #[trigger] order[x] as int,
                g[order[x] as int].edges.len() as int,
            ),
    ensures
        order.contains(p.last() as u32),
    decreases p.len(),
{
    if p.len() > 1 {
        let q = p.drop_last();
        assert(walk(g, q)) by {
            assert forall|k: int| 0 < k < q.len() implies leads(g, q[k - 1], #[trigger] q[k]) by {
                assert(leads(g, p[k - 1], p[k]));
            }
        }
        lemma_closed(g, q, mapping, order);
        let (j, i) = (q.last(), p.last());
        assert(leads(g, p[p.len() - 1 - 1], p[p.len() - 1]));
        let x = order.index_of(j as u32);
        assert(order[x] == j);
        assert(followed(g, mapping, order[x] as int, g[order[x] as int].edges.len() as int));
        let e = choose|e: int|
            0 <= e < g[j].edges.len() && (#[trigger] g[j].edges[e]).child == Some(i as u32);
        assert(mapping[i] is Some);
        let y = mapping[i]->Some_0;
        assert(order[y as int] == i);
    }
}

proof fn lemma_reach_on(g: Graph, root: int, i: int, j: int)
    requires
        0 <= j < g.len(),
        reachable(g, root, i),
        leads(g, i, j),
    ensures
        reachable(g, root, j),
{
    let p = choose|p: Seq<int>| #[trigger] walk(g, p) && p[0] == root && p.last() == i;
    let q = p.push(j);
    assert(walk(g, q)) by {
        assert forall|k: int| 0 < k < q.len() implies leads(g, q[k - 1], #[trigger] q[k]) by {
            if k < p.len() {
                assert(leads(g, p[k - 1], p[k]));
            }
        }
    }
    assert(q.last() == j);
}

impl Arena {
    /// The nodes that can be reached from one, breadth first, and their numbers
    /// in that order.
    fn sweep(&self, root: u32) -> (r: (Vec<u32>, Vec<Option<u32>>))
        requires
            graph_ok(self@),
            root < self@.len(),
        ensures
            sweeps(self@, root as int, r.0@),
            r.0@ == breadth_first(self@, seq![root], 0),
            r.1@.len() == self@.len(),
            numbers(r.1@, r.0@),
            forall|x: int|
                0 <= x < r.0@.len() ==> followed(
                    self@,
                    r.1@,
                    #[trigger] r.0@[x] as int,
                    self@[r.0@[x] as int].edges.len() as int,
                ),
    {
        let ghost g = self@;
        let n: usize = self.nodes.len();
        let mut mapping: Vec<Option<u32>> = Vec::new();
        let mut m: usize = 0;
        while m < n
            invariant
                m <= n,
                mapping@.len() == m,
                forall|c: int| 0 <= c < m ==> #[trigger] mapping@[c] == None::<u32>,
            decreases n - m,
        {
            mapping.push(None);
            m += 1;
        }
        let mut order: Vec<u32> = Vec::new();
        mapping.set(root as usize, Some(0));
        order.push(root);
        proof {
            assert(walk(g, seq![root as int]));
            assert(reachable(g, root as int, root as int)) by {
                assert(seq![root as int][0] == root && seq![root as int].last() == root);
            }
            assert(order@[0] == root);
            assert(order@ =~= seq![root]);
        }
        let mut i: usize = 0;
        while i < order.len()
            invariant
                graph_ok(g),
                breadth_first(g, seq![root], 0) == breadth_first(g, order@, i as int),
                g == self@,
                n == g.len(),
                n == self.nodes@.len(),
                n <= u32::MAX,
                root < n,
                mapping@.len() == n,
                i <= order@.len() <= n,
                order@.len() > 0,
                order@[0] == root,
                numbers(mapping@, order@),
                forall|k: int|
                    0 <= k < order@.len() ==> reachable(g, root as int, #[trigger] order@[k] as int),
                forall|x: int|
                    0 <= x < i ==> followed(
                        g,
                        mapping@,
                        #[trigger] order@[x] as int,
                        g[order@[x] as int].edges.len() as int,
                    ),
            decreases n - i,
        {
            let old: usize = order[i] as usize;
            assert(g[old as int] == self.nodes@[old as int]@);
            assert(node_ok(g[old as int], n as int));
            let count: usize = self.nodes[old].edges.len();
            let ghost before = order@;
            let mut e: usize = 0;
            while e < count
                invariant
                    graph_ok(g),
                    g == self@,
                    n == g.len(),
                    n == self.nodes@.len(),
                    n <= u32::MAX,
                    root < n,
                    old < n,
                    order@ == extended(g, before, old as int, e as int),
                    old == order@[i as int],
                    g[old as int] == self.nodes@[old as int]@,
                    node_ok(g[old as int], n as int),
                    reachable(g, root as int, old as int),
                    count == g[old as int].edges.len(),
                    e <= count,
                    mapping@.len() == n,
                    i < order@.len() <= n,
                    order@[0] == root,
                    numbers(mapping@, order@),
                    forall|k: int|
                        0 <= k < order@.len() ==> reachable(
                            g,
                            root as int,
                            #[trigger] order@[k] as int,
                        ),
                    forall|x: int|
                        0 <= x < i ==> followed(
                            g,
                            mapping@,
                            #[trigger] order@[x] as int,
                            g[order@[x] as int].edges.len() as int,
                        ),
                    followed(g, mapping@, old as int, e as int),
                decreases count - e,
            {
                assert(edge_ok(g[old as int].edges[e as int], n as int));
                match self.nodes[old].edges[e].child {
                    Some(c) => {
                        proof {
                            if order@.contains(c) {
                                let k = order@.index_of(c);
                                assert(order@[k] == c);
                                assert(mapping@[order@[k] as int] == Some(k as u32));
                            }
                        }
                        if mapping[c as usize].is_none() {
                            let ghost (m0, o0) = (mapping@, order@);
                            let at: u32 = order.len() as u32;
                            mapping.set(c as usize, Some(at));
                            order.push(c);
                            proof {
                                assert(leads(g, old as int, c as int));
                                lemma_reach_on(g, root as int, old as int, c as int);
                                assert(numbers(mapping@, order@)) by {
                                    assert forall|k: int| 0 <= k < order@.len() implies (
                                    #[trigger] order@[k]) < mapping@.len()
                                        && mapping@[order@[k] as int] == Some(k as u32) by {
                                        if k < o0.len() {
                                            assert(order@[k] == o0[k]);
                                            assert(m0[o0[k] as int] == Some(k as u32));
                                        }
                                    }
                                    assert forall|x: int| 0 <= x < mapping@.len() implies (
                                    #[trigger] mapping@[x] matches Some(k) ==> k < order@.len()
                                        && order@[k as int] == x) by {
                                        if x != c {
                                            assert(mapping@[x] == m0[x]);
                                        }
                                    }
                                }
                                lemma_numbers_few(mapping@, order@);
                                assert forall|x: int| 0 <= x < i implies followed(
                                    g,
                                    mapping@,
                                    #[trigger] order@[x] as int,
                                    g[order@[x] as int].edges.len() as int,
                                ) by {
                                    assert(order@[x] == o0[x]);
                                    lemma_still_followed(
                                        g,
                                        m0,
                                        mapping@,
                                        o0[x] as int,
                                        g[o0[x] as int].edges.len() as int,
                                    );
                                }
                                lemma_still_followed(g, m0, mapping@, old as int, e as int);
                            }
                        } else {
                            assert(order@[mapping@[c as int]->Some_0 as int] == c);
                        }
                    },
                    None => {},
                }
                e += 1;
            }
            i += 1;
        }
        proof {
            lemma_numbers_few(mapping@, order@);
            assert(order@.contains(root)) by {
                assert(order@[0] == root);
            }
            assert forall|k: int| 0 <= k < g.len() implies (order@.contains(k as u32)
                <==> #[trigger] reachable(g, root as int, k)) by {
                if order@.contains(k as u32) {
                    let x = order@.index_of(k as u32);
                    assert(order@[x] == k);
                }
                if reachable(g, root as int, k) {
                    let p = choose|p: Seq<int>| #[trigger]
                        walk(g, p) && p[0] == root as int && p.last() == k;
                    lemma_closed(g, p, mapping@, order@);
                }
            }
        }
        (order, mapping)
    }
}

proof fn lemma_still_followed(
    g: Graph,
    m0: Seq<Option<u32>>,
    m1: Seq<Option<u32>>,
    i: int,
    to: int,
)
    requires
        followed(g, m0, i, to),
        m0.len() == m1.len(),
        forall|c: int| 0 <= c < m0.len() && m0[c] is Some ==> #[trigger] m1[c] is Some,
    ensures
        followed(g, m1, i, to),
{
    assert forall|e: int| 0 <= e < to && e < g[i].edges.len() implies ((
    #[trigger] g[i].edges[e]).child matches Some(c) ==> c < m1.len() && m1[c as int] is Some) by {}
}

/// Where a node stands in a list that names it once.
proof fn lemma_place(order: Seq<u32>, k: int)
    requires
        order.no_duplicates(),
        0 <= k < order.len(),
    ensures
        order.index_of(order[k]) == k,
{
    assert(order.contains(order[k]));
}

/// A node with its edges renumbered.
fn renumber(n: Node, mapping: &Vec<Option<u32>>, Ghost(order): Ghost<Seq<u32>>) -> (m: Node)
    requires
        numbers(mapping@, order),
        order.no_duplicates(),
        order.len() <= u32::MAX,
        forall|e: int|
            0 <= e < n@.edges.len() ==> ((#[trigger] n@.edges[e]).child matches Some(c) ==> c
                < mapping@.len() && mapping@[c as int] is Some),
    ensures
        m@ == moved(n@, order),
{
    let ghost was = n@;
    let mut m = n;
    let mut e: usize = 0;
    while e < m.edges.len()
        invariant
            numbers(mapping@, order),
            order.no_duplicates(),
            order.len() <= u32::MAX,
            forall|x: int|
                0 <= x < was.edges.len() ==> ((#[trigger] was.edges[x]).child matches Some(c) ==> c
                    < mapping@.len() && mapping@[c as int] is Some),
            e <= m.edges@.len(),
            m.edges@.len() == was.edges.len(),
            m@ == (NodeView { edges: m.edges@, ..was }),
            forall|x: int| 0 <= x < e ==> #[trigger] m.edges@[x] == moved_edge(was.edges[x], order),
            forall|x: int| e <= x < m.edges@.len() ==> #[trigger] m.edges@[x] == was.edges[x],
        decreases m.edges@.len() - e,
    {
        let ghost e0 = was.edges[e as int];
        match m.edges[e].child {
            Some(c) => {
                let at = mapping[c as usize];
                proof {
                    let k = at->Some_0;
                    assert(order[k as int] == c);
                    lemma_place(order, k as int);
                }
                m.edges[e].child = at;
            },
            None => {},
        }
        assert(m.edges@[e as int] == moved_edge(e0, order));
        e += 1;
    }
    assert(m@ =~= moved(was, order));
    m
}

/// The nodes in the order from last to first, each in a slot of its own.
fn in_slots(nodes: Vec<Node>) -> (slots: Vec<Option<Node>>)
    ensures
        slots@.len() == nodes@.len(),
        forall|k: int|
            0 <= k < slots@.len() ==> #[trigger] slots@[k] == Some(nodes@[nodes@.len() - 1 - k]),
{
    let ghost all = nodes@;
    let mut left = nodes;
    let mut slots: Vec<Option<Node>> = Vec::new();
    while left.len() > 0
        invariant
            left@.len() + slots@.len() == all.len(),
            left@ == all.take(left@.len() as int),
            forall|k: int|
                0 <= k < slots@.len() ==> #[trigger] slots@[k] == Some(all[all.len() - 1 - k]),
        decreases left@.len(),
    {
        let ghost l0 = left@;
        match left.pop() {
            Some(n) => {
                assert(n == all[l0.len() - 1]);
                assert(left@ =~= all.take(left@.len() as int));
                slots.push(Some(n));
            },
            None => {},
        }
    }
    slots
}

proof fn lemma_kept_ok(g: Graph, root: int, order: Seq<u32>)
    requires
        graph_ok(g),
        0 <= root < g.len(),
        sweeps(g, root, order),
    ensures
        graph_ok(kept(g, order)),
{
    let h = kept(g, order);
    lemma_few(order, g.len() as int);
    assert forall|k: int| 0 <= k < h.len() implies node_ok(#[trigger] h[k], h.len() as int) by {
        let old = order[k] as int;
        assert(node_ok(g[old], g.len() as int));
        assert(reachable(g, root, old)) by {
            assert(order.contains(order[k]));
        }
        assert forall|e: int| 0 <= e < h[k].edges.len() implies edge_ok(
            #[trigger] h[k].edges[e],
            h.len() as int,
        ) by {
            let f = g[old].edges[e];
            assert(edge_ok(f, g.len() as int));
            if f.child is Some {
                let c = f.child->Some_0;
                assert(leads(g, old, c as int));
                lemma_reach_on(g, root, old, c as int);
                assert(order.contains(c));
                let y = order.index_of(c);
                assert(0 <= y < order.len());
            }
        }
    }
    assert forall|i: int, j: int|
        0 <= i < j < h.len() && !(#[trigger] h[i]).terminal && !(#[trigger] h[j]).terminal implies h[i].key
        != h[j].key by {
        let (a, b) = (order[i] as int, order[j] as int);
        assert(order[i] != order[j]);
        assert(g[a].terminal == h[i].terminal && g[b].terminal == h[j].terminal);
        if a < b {
            assert(g[a].key != g[b].key);
        } else {
            assert(g[b].key != g[a].key);
        }
    }
}

/// Adding the end of a game keeps an index right.
proof fn lemma_not_filed(t: NodeIndex, g: Graph, n: NodeView)
    requires
        files(t, g),
        n.terminal,
    ensures
        files(t, g.push(n)),
{
    let h = g.push(n);
    assert forall|d: u64, i: u32| #[trigger] filed_under(t, d).contains(i) <==> i < h.len()
        && !h[i as int].terminal && h[i as int].key.word() == d by {
        if i < g.len() {
            assert(h[i as int] == g[i as int]);
        }
    }
}

impl Arena {
    /// Files every node anew.
    fn refile(&mut self)
        requires
            graph_ok(old(self)@),
        ensures
            final(self)@ == old(self)@,
            final(self).wf(),
            final(self).same_counters(*old(self)),
    {
        let ghost g = self@;
        self.index.clear();
        let n: usize = self.nodes.len();
        let mut k: usize = 0;
        assert(files(self.index, g.take(0)));
        while k < n
            invariant
                k <= n,
                n == g.len(),
                g == self@,
                g == old(self)@,
                graph_ok(g),
                self.same_counters(*old(self)),
                files(self.index, g.take(k as int)),
            decreases n - k,
        {
            let ghost t0 = self.index;
            let ghost p = g.take(k as int);
            proof {
                assert(node_ok(g[k as int], n as int));
                assert(g[k as int] == self.nodes@[k as int]@);
                assert(p.push(g[k as int]) =~= g.take(k + 1));
            }
            if self.nodes[k].terminal {
                proof {
                    lemma_not_filed(t0, p, g[k as int]);
                }
            } else {
                let d: u64 = self.nodes[k].key.digest();
                self.index.file(d, k as u32);
                proof {
                    lemma_filed(t0, self.index, p, g[k as int], d);
                }
            }
            k += 1;
        }
        assert(g.take(n as int) =~= g);
    }

    /// Keeps only the nodes that can be reached from one, which becomes the
    /// first, the others behind it breadth first, and gives the numbers they had. Nothing that was learned of them is
    /// lost.
    pub fn retain_subtree(&mut self, root: u32) -> (order: Vec<u32>)
        requires
            old(self).wf(),
            root < old(self)@.len(),
        ensures
            final(self).wf(),
            sweeps(old(self)@, root as int, order@),
            order@ == breadth_first(old(self)@, seq![root], 0),
            final(self)@ == kept(old(self)@, order@),
            final(self).same_counters(*old(self)),
    {
        let ghost g = self@;
        let (order, mapping) = self.sweep(root);
        proof {
            lemma_few(order@, g.len() as int);
        }
        let n: usize = self.nodes.len();
        let mut all: Vec<Node> = Vec::new();
        std::mem::swap(&mut all, &mut self.nodes);
        let ghost nodes = all@;
        assert(forall|i: int| 0 <= i < n ==> g[i] == (#[trigger] nodes[i])@);
        let mut slots = in_slots(all);
        let mut out: Vec<Node> = Vec::new();
        let mut k: usize = 0;
        while k < order.len()
            invariant
                graph_ok(g),
                n == g.len(),
                n == nodes.len(),
                order@.len() <= n,
                n <= u32::MAX,
                k <= order@.len(),
                order@.no_duplicates(),
                mapping@.len() == n,
                numbers(mapping@, order@),
                forall|i: int| 0 <= i < n ==> g[i] == (#[trigger] nodes[i])@,
                forall|x: int|
                    0 <= x < order@.len() ==> (#[trigger] order@[x]) < n && followed(
                        g,
                        mapping@,
                        order@[x] as int,
                        g[order@[x] as int].edges.len() as int,
                    ),
                slots@.len() == n,
                forall|x: int|
                    k <= x < order@.len() ==> slots@[n - 1 - (#[trigger] order@[x]) as int] == Some(
                        nodes[order@[x] as int],
                    ),
                out@.len() == k,
                forall|x: int|
                    0 <= x < k ==> (#[trigger] out@[x])@ == moved(g[order@[x] as int], order@),
            decreases order@.len() - k,
        {
            let at: usize = n - 1 - order[k] as usize;
            let ghost s0 = slots@;
            slots.push(None);
            let taken = slots.swap_remove(at);
            assert(slots@ =~= s0.update(at as int, None));
            match taken {
                Some(node) => {
                    assert(node == nodes[order@[k as int] as int]);
                    assert(node@ == g[order@[k as int] as int]);
                    assert(followed(
                        g,
                        mapping@,
                        order@[k as int] as int,
                        g[order@[k as int] as int].edges.len() as int,
                    ));
                    let m = renumber(node, &mapping, Ghost(order@));
                    out.push(m);
                },
                None => {
                    assert(false);
                },
            }
            proof {
                assert forall|x: int| k + 1 <= x < order@.len() implies slots@[n - 1 - (
                #[trigger] order@[x]) as int] == Some(nodes[order@[x] as int]) by {
                    assert(order@[x] != order@[k as int]);
                }
            }
            k += 1;
        }
        self.nodes = out;
        assert(self@ =~= kept(g, order@));
        proof {
            lemma_kept_ok(g, root as int, order@);
        }
        self.refile();
        order
    }

    /// Sets a search up at a node. Where the node is there already, from a search
    /// of the same turn, and may be used again, what can be reached from it is
    /// kept and it becomes the first node: the numbers the kept nodes had are
    /// returned. Otherwise every node is let go.
    pub fn begin(&mut self, key: &NodeKey, reuse: bool) -> (r: Option<Vec<u32>>)
        requires
            old(self).wf(),
        ensures
            final(self).wf(),
            r is Some <==> reuse && exists|i: int|
                0 <= i < old(self)@.len() && !(#[trigger] old(self)@[i]).terminal
                    && old(self)@[i].key == *key && old(self)@[i].in_root_turn,
            r matches Some(order) ==> {
                &&& sweeps(old(self)@, order@[0] as int, order@)
                &&& order@ == breadth_first(old(self)@, seq![order@[0]], 0)
                &&& old(self)@[order@[0] as int].key == *key
                &&& old(self)@[order@[0] as int].in_root_turn
                &&& !old(self)@[order@[0] as int].terminal
                &&& final(self)@ == kept(old(self)@, order@)
                &&& final(self).reused == order@.len()
                &&& final(self).discarded == old(self)@.len() - order@.len()
            },
            r is None ==> final(self)@ == Seq::<NodeView>::empty() && final(self).reused == 0
                && final(self).discarded == 0,
            final(self).deepest == 0,
            final(self).depth_sum == 0,
            final(self).depth_n == 0,
    {
        let ghost g = self@;
        self.deepest = 0;
        self.depth_sum = 0;
        self.depth_n = 0;
        assert(self@ =~= g);
        let hit: Option<u32> = if reuse {
            self.find(key)
        } else {
            None
        };
        match hit {
            Some(i) => {
                assert(g[i as int] == self.nodes@[i as int]@);
                if self.nodes[i as usize].in_root_turn {
                    let before: usize = self.nodes.len();
                    let order = self.retain_subtree(i);
                    proof {
                        lemma_few(order@, g.len() as int);
                        assert(order@[0] == i);
                        assert(self@.len() == order@.len());
                    }
                    self.reused = self.nodes.len();
                    self.discarded = before - self.nodes.len();
                    assert(self@ =~= kept(g, order@));
                    return Some(order);
                }
                proof {
                    assert forall|j: int|
                        0 <= j < g.len() && !(#[trigger] g[j]).terminal && g[j].key == *key implies !g[j].in_root_turn by {
                        if j < i {
                            assert(g[j].key != g[i as int].key);
                        } else if j > i {
                            assert(g[i as int].key != g[j].key);
                        }
                    }
                }
            },
            None => {},
        }
        self.clear();
        None
    }
}

} // verus!
