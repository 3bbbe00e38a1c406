//! Whole turns read out of a search tree: every path from the root to the end of
//! its turn that the search has walked.

use crate::arena::{edge_ok, graph_ok, node_ok, Arena, Edge, Graph};
use crate::descent::Path;
use crate::moves::{plays, Move, Play};
use crate::order::{covers_range, sorted_positions, Ranked};
use crate::search::{best_first, by_score};
use crate::turns::same_play;
use vstd::prelude::*;

verus! {

/// One whole turn the search walked, as the edges that spell it.
pub struct TurnLine {
    pub path: Vec<(u32, usize)>,
    /// Visits of its last edge.
    pub visits: u32,
}

pub type Line = (Path, u32);

impl View for TurnLine {
    type V = Line;

    open spec fn view(&self) -> Line {
        (self.path@, self.visits)
    }
}

/// Lines as plain values.
pub open spec fn line_views(v: Seq<TurnLine>) -> Seq<Line> {
    Seq::new(v.len(), |i: int| v[i]@)
}

/// Whether an edge has been walked.
pub open spec fn walked(e: Edge) -> bool {
    e.n > 0 && e.child is Some
}

/// Whether an edge ends the turn: the node it leads to belongs to another.
pub open spec fn commits(g: Graph, e: Edge) -> bool {
    !g[e.child->Some_0 as int].in_root_turn
}

/// The turns that end with one of the first `k` edges of a node.
pub open spec fn ending_here(g: Graph, i: u32, p: Path, k: int) -> Seq<Line>
    decreases k,
{
    if k <= 0 {
        Seq::empty()
    } else {
        let e = g[i as int].edges[k - 1];
        let before = ending_here(g, i, p, k - 1);
        if walked(e) && commits(g, e) {
            before.push((p.push((i, (k - 1) as usize)), e.n))
        } else {
            before
        }
    }
}

/// The turns that go on through one of the first `k` edges of a node, the last
/// edge first.
pub open spec fn going_on(g: Graph, i: u32, p: Path, k: int, room: nat) -> Seq<Line>
    decreases room, 0int, k,
{
    if k <= 0 || room == 0 {
        Seq::empty()
    } else {
        let e = g[i as int].edges[k - 1];
        let rest = going_on(g, i, p, k - 1, room);
        if walked(e) && !commits(g, e) {
            lines_at(g, e.child->Some_0, p.push((i, (k - 1) as usize)), (room - 1) as nat) + rest
        } else {
            rest
        }
    }
}

/// The turns walked from a node on, behind the edges that led to it, no path
/// through more nodes than there is room for.
pub open spec fn lines_at(g: Graph, i: u32, p: Path, room: nat) -> Seq<Line>
    decreases room, 1int, 0int,
{
    if room == 0 {
        Seq::empty()
    } else {
        ending_here(g, i, p, g[i as int].active as int) + going_on(
            g,
            i,
            p,
            g[i as int].active as int,
            room,
        )
    }
}

/// Whether every node on the way had all of its legal steps open, among those
/// behind the first `k` edges of a node.
pub open spec fn open_on(g: Graph, i: u32, k: int, room: nat) -> bool
    decreases room, 0int, k,
{
    if k <= 0 || room == 0 {
        true
    } else {
        let e = g[i as int].edges[k - 1];
        &&& open_on(g, i, k - 1, room)
        &&& walked(e) && !commits(g, e) ==> all_open(g, e.child->Some_0, (room - 1) as nat)
    }
}

/// Whether every node from one on had all of its legal steps open.
pub open spec fn all_open(g: Graph, i: u32, room: nat) -> bool
    decreases room, 1int, 0int,
{
    room > 0 ==> {
        &&& g[i as int].active >= g[i as int].n_legal
        &&& open_on(g, i, g[i as int].active as int, room)
    }
}

/// The visits of lines together.
pub open spec fn walks(v: Seq<Line>) -> nat
    decreases v.len(),
{
    if v.len() == 0 {
        0
    } else {
        walks(v.drop_last()) + v.last().1 as nat
    }
}

fn extended(p: &Vec<(u32, usize)>, i: u32, e: usize) -> (q: Vec<(u32, usize)>)
    ensures
        q@ == p@.push((i, e)),
{
    let mut q: Vec<(u32, usize)> = Vec::new();
    let mut k: usize = 0;
    while k < p.len()
        invariant
            k <= p@.len(),
            q@ == p@.take(k as int),
        decreases p@.len() - k,
    {
        q.push(p[k]);
        k += 1;
        assert(q@ =~= p@.take(k as int));
    }
    q.push((i, e));
    assert(q@ =~= p@.push((i, e)));
    q
}

impl Arena {
    /// Appends the turns walked from a node on, and tells whether every node on
    /// the way had all of its legal steps open.
    fn gather(
        &self,
        idx: u32,
        path: &Vec<(u32, usize)>,
        room: usize,
        out: &mut Vec<TurnLine>,
    ) -> (open: bool)
        requires
            graph_ok(self@),
            idx < self@.len(),
        ensures
            line_views(final(out)@) == line_views(old(out)@) + lines_at(
                self@,
                idx,
                path@,
                room as nat,
            ),
            open == all_open(self@, idx, room as nat),
        decreases room,
    {
        let ghost g = self@;
        let ghost was = line_views(out@);
        if room == 0 {
            assert(line_views(out@) =~= was + lines_at(g, idx, path@, 0));
            return true;
        }
        let i: usize = idx as usize;
        let ghost n = g[idx as int];
        assert(n == self.nodes@[idx as int]@);
        assert(node_ok(n, g.len() as int));
        let active: usize = self.nodes[i].active;
        let mut open = active as u64 >= self.nodes[i].n_legal as u64;
        let mut k: usize = 0;
        assert(line_views(out@) =~= was + ending_here(g, idx, path@, 0));
        while k < active
            invariant
                k <= active,
                graph_ok(g),
                g == self@,
                i == idx,
                i < self.nodes@.len(),
                n == g[idx as int],
                n == self.nodes@[i as int]@,
                node_ok(n, g.len() as int),
                active == n.active,
                line_views(out@) == was + ending_here(g, idx, path@, k as int),
            decreases active - k,
        {
            let ghost e = n.edges[k as int];
            let ghost o0 = line_views(out@);
            assert(edge_ok(e, g.len() as int));
            match self.nodes[i].edges[k].child {
                Some(c) => {
                    assert(g[c as int] == self.nodes@[c as int]@);
                    if self.nodes[i].edges[k].n > 0 && !self.nodes[c as usize].in_root_turn {
                        let line = TurnLine {
                            path: extended(path, idx, k),
                            visits: self.nodes[i].edges[k].n,
                        };
                        out.push(line);
                        assert(line_views(out@) =~= o0.push(line@));
                        assert(o0.push(line@) =~= was + ending_here(g, idx, path@, k + 1));
                    }
                },
                None => {},
            }
            k += 1;
        }
        let ghost here = line_views(out@);
        let mut m: usize = active;
        assert(here + going_on(g, idx, path@, active as int, room as nat) =~= line_views(out@)
            + going_on(g, idx, path@, m as int, room as nat));
        let ghost first = open;
        while m > 0
            invariant
                m <= active,
                0 < room,
                graph_ok(g),
                g == self@,
                i == idx,
                i < self.nodes@.len(),
                n == g[idx as int],
                n == self.nodes@[i as int]@,
                node_ok(n, g.len() as int),
                active == n.active,
                here + going_on(g, idx, path@, active as int, room as nat) == line_views(out@)
                    + going_on(g, idx, path@, m as int, room as nat),
                (first && open_on(g, idx, active as int, room as nat)) == (open && open_on(
                    g,
                    idx,
                    m as int,
                    room as nat,
                )),
            decreases m,
        {
            let k2: usize = m - 1;
            let ghost e = n.edges[k2 as int];
            let ghost o0 = line_views(out@);
            assert(edge_ok(e, g.len() as int));
            match self.nodes[i].edges[k2].child {
                Some(c) => {
                    assert(g[c as int] == self.nodes@[c as int]@);
                    if self.nodes[i].edges[k2].n > 0 && self.nodes[c as usize].in_root_turn {
                        let next = extended(path, idx, k2);
                        let below = self.gather(c, &next, room - 1, out);
                        open = open && below;
                        proof {
                            let found = lines_at(g, c, next@, (room - 1) as nat);
                            let rest = going_on(g, idx, path@, k2 as int, room as nat);
                            assert(line_views(out@) + rest =~= o0 + (found + rest));
                        }
                    }
                },
                None => {},
            }
            m = k2;
        }
        assert(line_views(out@) =~= here + going_on(g, idx, path@, active as int, room as nat));
        assert(line_views(out@) =~= was + lines_at(g, idx, path@, room as nat));
        open
    }

    /// Every whole turn walked from a node on, and whether all legal steps were
    /// open on the way. No path passes through more nodes than there are.
    pub fn turn_lines(&self, root: u32) -> (r: (Vec<TurnLine>, bool))
        requires
            self.wf(),
            root < self@.len(),
        ensures
            line_views(r.0@) == lines_at(self@, root, Seq::empty(), self@.len()),
            r.1 == all_open(self@, root, self@.len()),
    {
        let mut out: Vec<TurnLine> = Vec::new();
        let start: Vec<(u32, usize)> = Vec::new();
        assert(line_views(out@) =~= Seq::empty());
        assert(start@ =~= Seq::empty());
        let n: usize = self.nodes.len();
        let open = self.gather(root, &start, n, &mut out);
        assert(line_views(out@) =~= lines_at(self@, root, Seq::empty(), self@.len()));
        (out, open)
    }
}

// ---- ranking -------------------------------------------------------------

/// A line's place in a ranking: more visits go first, then a higher value, then
/// the line found first.
#[derive(Clone, Copy)]
pub struct LineRank {
    pub at: usize,
    pub visits: u32,
    pub value: i64,
}

impl Ranked for LineRank {
    open spec fn before(a: LineRank, b: LineRank) -> bool {
        a.visits > b.visits || (a.visits == b.visits && (a.value > b.value || (a.value == b.value
            && a.at < b.at)))
    }

    proof fn one_way(a: LineRank, b: LineRank) {
    }

    proof fn onward(a: LineRank, b: LineRank, c: LineRank) {
    }

    fn less(&self, other: &LineRank) -> (b: bool) {
        self.visits > other.visits || (self.visits == other.visits && (self.value > other.value || (
        self.value == other.value && self.at < other.at)))
    }
}

/// Where a line stands in a ranking.
pub open spec fn rank_of(lines: Seq<Line>, values: Seq<i64>, at: int) -> LineRank {
    LineRank { at: at as usize, visits: lines[at].1, value: values[at] }
}

/// Whether an index list is a ranking's first lines.
pub open spec fn ranks(lines: Seq<Line>, values: Seq<i64>, keep: usize, idx: Seq<usize>) -> bool {
    exists|all: Seq<usize>| #[trigger]
        covers_range(all, 0, lines.len() as int) && all.len() == lines.len() && (forall|i: int, j: int|
            0 <= i < j < all.len() ==> LineRank::before(
                rank_of(lines, values, #[trigger] all[i] as int),
                rank_of(lines, values, #[trigger] all[j] as int),
            )) && idx == all.take(
            if keep < 1 {
                if lines.len() < 1 {
                    0
                } else {
                    1
                }
            } else if keep < lines.len() {
                keep as int
            } else {
                lines.len() as int
            },
        )
}

/// The first lines of a ranking, at least one of them kept.
pub fn rank_lines(lines: &Vec<TurnLine>, values: &Vec<i64>, keep: usize) -> (idx: Vec<usize>)
    requires
        values@.len() == lines@.len(),
    ensures
        ranks(line_views(lines@), values@, keep, idx@),
{
    let ghost lv = line_views(lines@);
    let mut v: Vec<LineRank> = Vec::new();
    let mut i: usize = 0;
    while i < lines.len()
        invariant
            i <= lines@.len(),
            values@.len() == lines@.len(),
            lv == line_views(lines@),
            v@.len() == i,
            forall|j: int| 0 <= j < i ==> #[trigger] v@[j] == rank_of(lv, values@, j),
        decreases lines@.len() - i,
    {
        v.push(LineRank { at: i, visits: lines[i].visits, value: values[i] });
        i += 1;
    }
    let mut idx = sorted_positions(&v);
    let ghost all = idx@;
    proof {
        assert forall|i: int, j: int| 0 <= i < j < all.len() implies LineRank::before(
            rank_of(lv, values@, #[trigger] all[i] as int),
            rank_of(lv, values@, #[trigger] all[j] as int),
        ) by {
            assert(all.contains(all[i]) && all.contains(all[j]));
            assert(all[i] != all[j]);
            assert(!LineRank::before(v@[all[j] as int], v@[all[i] as int]));
        }
    }
    let room: usize = if keep < 1 {
        1
    } else {
        keep
    };
    if idx.len() > room {
        idx.truncate(room);
    }
    assert(covers_range(all, 0, lv.len() as int));
    assert(idx@ =~= all.take(
        if keep < 1 {
            if lv.len() < 1 {
                0
            } else {
                1
            }
        } else if keep < lv.len() {
            keep as int
        } else {
            lv.len() as int
        },
    ));
    idx
}

/// The visits of lines together.
pub fn committed(lines: &Vec<TurnLine>) -> (n: u32)
    requires
        walks(line_views(lines@)) <= u32::MAX,
    ensures
        n == walks(line_views(lines@)),
{
    let ghost lv = line_views(lines@);
    let mut n: u32 = 0;
    let mut i: usize = 0;
    assert(lv.take(0) =~= Seq::empty());
    while i < lines.len()
        invariant
            i <= lines@.len(),
            lv == line_views(lines@),
            walks(lv) <= u32::MAX,
            n == walks(lv.take(i as int)),
        decreases lines@.len() - i,
    {
        proof {
            assert(lv.take(i + 1).drop_last() =~= lv.take(i as int));
            assert(lv[i as int] == lines@[i as int]@);
            lemma_walks(lv, i + 1);
        }
        n = n + lines[i].visits;
        i += 1;
    }
    assert(lv.take(i as int) =~= lv);
    n
}

proof fn lemma_walks(v: Seq<Line>, k: int)
    requires
        0 <= k <= v.len(),
    ensures
        walks(v.take(k)) <= walks(v),
    decreases v.len() - k,
{
    if k < v.len() {
        lemma_walks(v, k + 1);
        assert(v.take(k + 1).drop_last() =~= v.take(k));
    } else {
        assert(v.take(k) =~= v);
    }
}

// ---- laws ----------------------------------------------------------------

/// Whether a number falls along every edge within the turn, so that no path
/// comes back to where it was.
pub open spec fn falls(g: Graph, height: Seq<nat>) -> bool {
    &&& height.len() == g.len()
    &&& forall|i: int, e: int|
        0 <= i < g.len() && 0 <= e < g[i].edges.len() && walked(#[trigger] g[i].edges[e]) && !commits(
            g,
            g[i].edges[e],
        ) ==> height[g[i].edges[e].child->Some_0 as int] < height[i]
}

/// Where no path comes back to where it was, no turn is missed: more room finds
/// nothing more.
pub proof fn no_turn_is_missed(g: Graph, height: Seq<nat>, i: u32, p: Path, room: nat, more: nat)
    requires
        graph_ok(g),
        falls(g, height),
        i < g.len(),
        height[i as int] < room,
        room <= more,
    ensures
        lines_at(g, i, p, room) == lines_at(g, i, p, more),
    decreases room, 1int, 0int,
{
    assert(node_ok(g[i as int], g.len() as int));
    lemma_going_on(g, height, i, p, g[i as int].active as int, room, more);
}

proof fn lemma_going_on(
    g: Graph,
    height: Seq<nat>,
    i: u32,
    p: Path,
    k: int,
    room: nat,
    more: nat,
)
    requires
        graph_ok(g),
        falls(g, height),
        i < g.len(),
        0 <= k <= g[i as int].edges.len(),
        height[i as int] < room,
        room <= more,
    ensures
        going_on(g, i, p, k, room) == going_on(g, i, p, k, more),
    decreases room, 0int, k,
{
    if k > 0 {
        lemma_going_on(g, height, i, p, k - 1, room, more);
        let e = g[i as int].edges[k - 1];
        assert(node_ok(g[i as int], g.len() as int));
        assert(edge_ok(e, g.len() as int));
        if walked(e) && !commits(g, e) {
            let c = e.child->Some_0;
            assert(height[c as int] < height[i as int]);
            no_turn_is_missed(
                g,
                height,
                c,
                p.push((i, (k - 1) as usize)),
                (room - 1) as nat,
                (more - 1) as nat,
            );
        }
    }
}

// ---- whole turns by their effect -----------------------------------------

/// The first entry from `k` on whose turn does what another does, if there is
/// one.
pub open spec fn entry_for(ms: Seq<Play>, found: Seq<(usize, nat)>, m: Play, k: int) -> Option<int>
    decreases found.len() - k,
{
    if k < 0 || k >= found.len() {
        None
    } else if same_play(ms[found[k].0 as int], m) {
        Some(k)
    } else {
        entry_for(ms, found, m, k + 1)
    }
}

/// The first turns with those that do the same taken together: each by the first
/// that does it, with the visits of all that do.
pub open spec fn merged(ms: Seq<Play>, visits: Seq<u32>, n: int) -> Seq<(usize, nat)>
    decreases n,
{
    if n <= 0 {
        Seq::empty()
    } else {
        let r = merged(ms, visits, n - 1);
        match entry_for(ms, r, ms[n - 1], 0) {
            Some(k) => r.update(k, (r[k].0, r[k].1 + visits[n - 1] as nat)),
            None => r.push(((n - 1) as usize, visits[n - 1] as nat)),
        }
    }
}

/// The visits of the first turns together.
pub open spec fn visit_sum(visits: Seq<u32>, n: int) -> nat
    decreases n,
{
    if n <= 0 {
        0
    } else {
        visit_sum(visits, n - 1) + visits[n - 1] as nat
    }
}

/// The visits of entries together.
pub open spec fn entry_sum(r: Seq<(usize, nat)>) -> nat
    decreases r.len(),
{
    if r.len() == 0 {
        0
    } else {
        entry_sum(r.drop_last()) + r.last().1
    }
}

proof fn lemma_entry_update(r: Seq<(usize, nat)>, k: int, more: nat)
    requires
        0 <= k < r.len(),
    ensures
        entry_sum(r.update(k, (r[k].0, r[k].1 + more))) == entry_sum(r) + more,
    decreases r.len(),
{
    let u = r.update(k, (r[k].0, r[k].1 + more));
    if k == r.len() - 1 {
        assert(u.drop_last() =~= r.drop_last());
    } else {
        lemma_entry_update(r.drop_last(), k, more);
        assert(u.drop_last() =~= r.drop_last().update(k, (r[k].0, r[k].1 + more)));
    }
}

proof fn lemma_entry_for(ms: Seq<Play>, found: Seq<(usize, nat)>, m: Play, k: int)
    requires
        0 <= k,
    ensures
        entry_for(ms, found, m, k) matches Some(j) ==> k <= j < found.len() && same_play(
            ms[found[j].0 as int],
            m,
        ),
        entry_for(ms, found, m, k) is None ==> forall|j: int|
            k <= j < found.len() ==> !same_play(ms[(#[trigger] found[j]).0 as int], m),
    decreases found.len() - k,
{
    if k < found.len() && !same_play(ms[found[k].0 as int], m) {
        lemma_entry_for(ms, found, m, k + 1);
    }
}

/// Taking turns together loses no visit.
pub proof fn merging_keeps_the_visits(ms: Seq<Play>, visits: Seq<u32>, n: int)
    requires
        0 <= n,
    ensures
        entry_sum(merged(ms, visits, n)) == visit_sum(visits, n),
    decreases n,
{
    if n > 0 {
        merging_keeps_the_visits(ms, visits, n - 1);
        let r = merged(ms, visits, n - 1);
        lemma_entry_for(ms, r, ms[n - 1], 0);
        match entry_for(ms, r, ms[n - 1], 0) {
            Some(k) => {
                lemma_entry_update(r, k, visits[n - 1] as nat);
            },
            None => {
                let p = r.push(((n - 1) as usize, visits[n - 1] as nat));
                assert(p.drop_last() =~= r);
            },
        }
    }
}

/// No two entries do the same.
pub proof fn merged_turns_differ(ms: Seq<Play>, visits: Seq<u32>, n: int, i: int, j: int)
    requires
        0 <= n <= usize::MAX,
        0 <= i < j < merged(ms, visits, n).len(),
    ensures
        !same_play(
            ms[merged(ms, visits, n)[i].0 as int],
            ms[merged(ms, visits, n)[j].0 as int],
        ),
    decreases n,
{
    if n > 0 {
        let r = merged(ms, visits, n - 1);
        lemma_entry_for(ms, r, ms[n - 1], 0);
        match entry_for(ms, r, ms[n - 1], 0) {
            Some(k) => {
                merged_turns_differ(ms, visits, n - 1, i, j);
            },
            None => {
                if j < r.len() {
                    merged_turns_differ(ms, visits, n - 1, i, j);
                } else {
                    assert(!same_play(ms[r[i].0 as int], ms[n - 1]));
                }
            },
        }
    }
}

/// Entries as plain values.
pub open spec fn entry_views(v: Seq<(usize, u64)>) -> Seq<(usize, nat)> {
    Seq::new(v.len(), |i: int| (v[i].0, v[i].1 as nat))
}

proof fn lemma_entry_bound(r: Seq<(usize, nat)>, k: int)
    requires
        0 <= k < r.len(),
    ensures
        r[k].1 <= entry_sum(r),
    decreases r.len(),
{
    if k < r.len() - 1 {
        lemma_entry_bound(r.drop_last(), k);
    }
}

proof fn lemma_visit_sum(visits: Seq<u32>, n: int)
    requires
        0 <= n <= visits.len(),
    ensures
        visit_sum(visits, n) <= n * 0xFFFF_FFFF,
    decreases n,
{
    if n > 0 {
        lemma_visit_sum(visits, n - 1);
    }
}

/// Turns with those that do the same taken together, in the order they came.
pub fn merge_turns(ms: &Vec<Move>, visits: &Vec<u32>) -> (r: Vec<(usize, u64)>)
    requires
        ms@.len() == visits@.len(),
        visits@.len() <= 0x7FFF_FFFF,
    ensures
        entry_views(r@) == merged(plays(ms@), visits@, ms@.len() as int),
{
    let ghost all = plays(ms@);
    let mut r: Vec<(usize, u64)> = Vec::new();
    let mut n: usize = 0;
    assert(entry_views(r@) =~= Seq::empty());
    while n < ms.len()
        invariant
            n <= ms@.len(),
            ms@.len() == visits@.len(),
            visits@.len() <= 0x7FFF_FFFF,
            all == plays(ms@),
            entry_views(r@) == merged(all, visits@, n as int),
            forall|k: int| 0 <= k < r@.len() ==> (#[trigger] r@[k]).0 < n,
        decreases ms@.len() - n,
    {
        let ghost rv = entry_views(r@);
        let ghost m = all[n as int];
        assert(m == ms@[n as int]@);
        let mut k: usize = 0;
        let mut hit = false;
        while !hit && k < r.len()
            invariant
                k <= r@.len(),
                n < ms@.len(),
                all == plays(ms@),
                rv == entry_views(r@),
                m == ms@[n as int]@,
                forall|j: int| 0 <= j < r@.len() ==> (#[trigger] r@[j]).0 < n,
                entry_for(all, rv, m, 0) == entry_for(all, rv, m, k as int),
                hit ==> k < r@.len() && entry_for(all, rv, m, k as int) == Some(k as int),
            decreases r@.len() - k + if hit {
                0int
            } else {
                1
            },
        {
            let at: usize = r[k].0;
            assert(rv[k as int].0 == at);
            assert(all[at as int] == ms@[at as int]@);
            if ms[at].same_effect(&ms[n]) {
                hit = true;
            } else {
                k += 1;
            }
        }
        proof {
            merging_keeps_the_visits(all, visits@, n as int);
            lemma_visit_sum(visits@, n as int);
        }
        if hit {
            proof {
                lemma_entry_bound(rv, k as int);
                assert(n * 0xFFFF_FFFF <= 0x7FFF_FFFF * 0xFFFF_FFFF) by (nonlinear_arith)
                    requires
                        n <= 0x7FFF_FFFF,
                ;
            }
            let at: usize = r[k].0;
            let sum: u64 = r[k].1;
            r.set(k, (at, sum + visits[n] as u64));
            assert(entry_views(r@) =~= rv.update(
                k as int,
                (rv[k as int].0, rv[k as int].1 + visits@[n as int] as nat),
            ));
        } else {
            r.push((n, visits[n] as u64));
            assert(entry_views(r@) =~= rv.push((n, visits@[n as int] as nat)));
        }
        n += 1;
    }
    r
}

/// The scores of entries.
pub open spec fn entry_scores(r: Seq<(usize, u64)>) -> Seq<i64> {
    Seq::new(r.len(), |i: int| r[i].1 as i64)
}

/// The most visited entries, best first, equal ones as they came, no more than
/// asked for.
pub fn best_turns(r: &Vec<(usize, u64)>, keep: usize) -> (idx: Vec<usize>)
    requires
        forall|i: int| 0 <= i < r@.len() ==> (#[trigger] r@[i]).1 <= i64::MAX,
    ensures
        exists|all: Seq<usize>| #[trigger]
            best_first(entry_scores(r@), all) && idx@ == all.take(
                if keep < r@.len() {
                    keep as int
                } else {
                    r@.len() as int
                },
            ),
{
    let mut scores: Vec<i64> = Vec::new();
    let mut i: usize = 0;
    while i < r.len()
        invariant
            i <= r@.len(),
            forall|j: int| 0 <= j < r@.len() ==> (#[trigger] r@[j]).1 <= i64::MAX,
            scores@ == entry_scores(r@).take(i as int),
        decreases r@.len() - i,
    {
        assert(r@[i as int].1 <= i64::MAX);
        scores.push(r[i].1 as i64);
        i += 1;
        assert(scores@ =~= entry_scores(r@).take(i as int));
    }
    assert(scores@ =~= entry_scores(r@));
    let mut idx = by_score(&scores);
    let ghost all = idx@;
    if idx.len() > keep {
        idx.truncate(keep);
    }
    assert(idx@ =~= all.take(
        if keep < r@.len() {
            keep as int
        } else {
            r@.len() as int
        },
    ));
    assert(best_first(entry_scores(r@), all));
    idx
}

} // verus!
