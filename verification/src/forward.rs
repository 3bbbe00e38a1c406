//! The shape of a forward pass: which stem reads which columns, what each node
//! of a batch still needs, and where the second stage's scores go.

use crate::checkpoint::Geometry;
use crate::net::{select, survives, Arch, TOP_K};
use crate::phase::Phase;
use vstd::prelude::*;

verus! {

/// Where the parts of a position's features begin.
#[derive(Clone, Copy, PartialEq, Eq, Debug, Structural)]
pub struct Offsets {
    pub board: usize,
    pub players: usize,
    pub bslots: usize,
    pub mslots: usize,
    pub global: usize,
    pub reserved: usize,
    /// How many of the global features are not in reserve.
    pub global_w: usize,
}

/// Which layer a stem applies.
#[derive(Clone, Copy, PartialEq, Eq, Debug, Structural)]
pub enum StemLayer {
    Board,
    Player,
    Building,
    Monument,
    Global,
}

/// One product of the fused row: a layer over some columns of the features.
#[derive(Clone, Copy, PartialEq, Eq, Debug, Structural)]
pub struct Stem {
    pub layer: StemLayer,
    /// The first feature it reads, and how many.
    pub from: usize,
    pub inp: usize,
    /// The first column of the layer's weights it uses.
    pub at: usize,
    /// The first column it writes, and how many.
    pub col: usize,
    pub out: usize,
    /// Whether it adds to what the columns hold.
    pub adds: bool,
}

impl Offsets {
    /// Every part lies within the features.
    pub open spec fn ok(self, g: Geometry) -> bool {
        &&& self.board + g.board_w <= g.d_in
        &&& self.players + 4 * g.player_w <= g.d_in
        &&& self.bslots + 6 * g.bslot_w <= g.d_in
        &&& self.mslots + 6 * g.mslot_w <= g.d_in
        &&& self.global_w <= g.global_w
        &&& self.global + self.global_w <= g.d_in
        &&& self.reserved + (g.global_w - self.global_w) <= g.d_in
    }
}

/// The products of the fused row: the board, each player in turn with the same
/// weights, each building and each monument on display, and the globals in two
/// parts, the reserve added to the rest.
pub open spec fn stem(a: Arch, g: Geometry, o: Offsets, k: int) -> Stem {
    if k == 0 {
        Stem {
            layer: StemLayer::Board,
            from: o.board,
            inp: g.board_w,
            at: 0,
            col: 0,
            out: a.board,
            adds: false,
        }
    } else if k < 5 {
        Stem {
            layer: StemLayer::Player,
            from: (o.players + (k - 1) * g.player_w) as usize,
            inp: g.player_w,
            at: 0,
            col: (a.board + (k - 1) * a.player) as usize,
            out: a.player,
            adds: false,
        }
    } else if k < 11 {
        Stem {
            layer: StemLayer::Building,
            from: (o.bslots + (k - 5) * g.bslot_w) as usize,
            inp: g.bslot_w,
            at: 0,
            col: (a.board + 4 * a.player + (k - 5) * a.bslot) as usize,
            out: a.bslot,
            adds: false,
        }
    } else if k < 17 {
        Stem {
            layer: StemLayer::Monument,
            from: (o.mslots + (k - 11) * g.mslot_w) as usize,
            inp: g.mslot_w,
            at: 0,
            col: (a.board + 4 * a.player + 6 * a.bslot + (k - 11) * a.mslot) as usize,
            out: a.mslot,
            adds: false,
        }
    } else {
        Stem {
            layer: StemLayer::Global,
            from: if k == 17 {
                o.global
            } else {
                o.reserved
            },
            inp: if k == 17 {
                o.global_w
            } else {
                (g.global_w - o.global_w) as usize
            },
            at: if k == 17 {
                0
            } else {
                o.global_w
            },
            col: (a.board + 4 * a.player + 6 * a.bslot + 6 * a.mslot) as usize,
            out: a.globals,
            adds: k == 18,
        }
    }
}

/// The products of the fused row, in order.
pub fn stems(a: &Arch, g: &Geometry, o: &Offsets) -> (v: Vec<Stem>)
    requires
        a.fused() <= usize::MAX,
        o.ok(*g),
    ensures
        v@ == Seq::new(19, |k: int| stem(*a, *g, *o, k)),
{
    let ghost all = Seq::new(19, |k: int| stem(*a, *g, *o, k));
    let mut v: Vec<Stem> = Vec::new();
    v.push(
        Stem {
            layer: StemLayer::Board,
            from: o.board,
            inp: g.board_w,
            at: 0,
            col: 0,
            out: a.board,
            adds: false,
        },
    );
    assert(v@ =~= all.take(1));
    push_run(&mut v, StemLayer::Player, o.players, g.player_w, a.board, a.player, 4);
    assert(v@ =~= all.take(5));
    push_run(
        &mut v,
        StemLayer::Building,
        o.bslots,
        g.bslot_w,
        a.board + 4 * a.player,
        a.bslot,
        6,
    );
    assert(v@ =~= all.take(11));
    push_run(
        &mut v,
        StemLayer::Monument,
        o.mslots,
        g.mslot_w,
        a.board + 4 * a.player + 6 * a.bslot,
        a.mslot,
        6,
    );
    assert(v@ =~= all.take(17));
    let col: usize = a.board + 4 * a.player + 6 * a.bslot + 6 * a.mslot;
    v.push(
        Stem {
            layer: StemLayer::Global,
            from: o.global,
            inp: o.global_w,
            at: 0,
            col,
            out: a.globals,
            adds: false,
        },
    );
    v.push(
        Stem {
            layer: StemLayer::Global,
            from: o.reserved,
            inp: g.global_w - o.global_w,
            at: o.global_w,
            col,
            out: a.globals,
            adds: true,
        },
    );
    assert(v@ =~= all);
    v
}

/// Appends one product for each of several parts that share a layer.
fn push_run(
    v: &mut Vec<Stem>,
    layer: StemLayer,
    from: usize,
    inp: usize,
    col: usize,
    out: usize,
    n: usize,
)
    requires
        n <= 6,
        from + n * inp <= usize::MAX,
        col + n * out <= usize::MAX,
    ensures
        final(v)@ == old(v)@ + Seq::new(
            n as nat,
            |i: int|
                Stem {
                    layer,
                    from: (from + i * inp) as usize,
                    inp,
                    at: 0,
                    col: (col + i * out) as usize,
                    out,
                    adds: false,
                },
        ),
{
    let ghost was = v@;
    let ghost run = Seq::new(
        n as nat,
        |i: int|
            Stem {
                layer,
                from: (from + i * inp) as usize,
                inp,
                at: 0,
                col: (col + i * out) as usize,
                out,
                adds: false,
            },
    );
    let mut i: usize = 0;
    let mut f: usize = from;
    let mut c: usize = col;
    assert(v@ =~= was + run.take(0));
    while i < n
        invariant
            i <= n,
            n <= 6,
            run.len() == n,
            forall|k: int|
                0 <= k < n ==> #[trigger] run[k] == (Stem {
                    layer,
                    from: (from + k * inp) as usize,
                    inp,
                    at: 0,
                    col: (col + k * out) as usize,
                    out,
                    adds: false,
                }),
            f == from + i * inp,
            c == col + i * out,
            from + n * inp <= usize::MAX,
            col + n * out <= usize::MAX,
            v@ == was + run.take(i as int),
        decreases n - i,
    {
        v.push(Stem { layer, from: f, inp, at: 0, col: c, out, adds: false });
        proof {
            assert((i + 1) * inp <= n * inp) by (nonlinear_arith)
                requires
                    i + 1 <= n,
            ;
            assert((i + 1) * out <= n * out) by (nonlinear_arith)
                requires
                    i + 1 <= n,
            ;
            assert((i + 1) * inp == i * inp + inp) by (nonlinear_arith);
            assert((i + 1) * out == i * out + out) by (nonlinear_arith);
        }
        f = f + inp;
        c = c + out;
        i += 1;
        assert(v@ =~= was + run.take(i as int));
    }
    assert(run.take(n as int) =~= run);
}

/// The stems write the fused row from end to end: each begins where the one
/// before it ends, the last part of the globals on top of the first, and the row
/// ends with them.
pub proof fn stems_fill_the_row(a: Arch, g: Geometry, o: Offsets, k: int)
    requires
        a.fused() <= usize::MAX,
        0 <= k < 19,
    ensures
        k == 0 ==> stem(a, g, o, k).col == 0,
        0 < k < 18 ==> stem(a, g, o, k).col == stem(a, g, o, k - 1).col + stem(a, g, o, k - 1).out,
        k >= 17 ==> stem(a, g, o, k).col + stem(a, g, o, k).out == a.fused(),
        stem(a, g, o, k).adds == (k == 18),
{
    lemma_steps(k - 1, a.player as int, 4);
    lemma_steps(k - 5, a.bslot as int, 6);
    lemma_steps(k - 11, a.mslot as int, 6);
    lemma_steps(k - 2, a.player as int, 4);
    lemma_steps(k - 6, a.bslot as int, 6);
    lemma_steps(k - 12, a.mslot as int, 6);
}

proof fn lemma_steps(i: int, w: int, n: int)
    requires
        0 <= w,
    ensures
        i * w == (i - 1) * w + w,
        0 <= i <= n ==> 0 <= i * w <= n * w,
        i == 0 ==> i * w == 0,
{
    assert(i * w == (i - 1) * w + w) by (nonlinear_arith);
    if 0 <= i <= n {
        assert(0 <= i * w <= n * w) by (nonlinear_arith)
            requires
                0 <= i <= n,
                0 <= w,
        ;
    }
}

// ---- planning a batch ----------------------------------------------------

/// A head of fixed size.
#[derive(Clone, Copy, PartialEq, Eq, Debug, Structural)]
pub enum Head {
    Beg,
    Mode,
    Place,
    Who,
    ExtraDay,
}

/// How a node's edges are scored.
pub enum EdgeSpec {
    /// All alike.
    Uniform,
    /// By the slots of a head that the edges name.
    Fixed { head: Head, idx: Vec<u16> },
    /// By the features of the candidates, scored by the first stage.
    Pointer { scores: Vec<i64> },
}

/// What is still to be done for a node's priors.
pub enum Plan {
    /// There are no edges.
    Empty,
    /// There is one edge, and it is certain.
    Sure,
    /// Every one of so many edges is as likely.
    Uniform { n: usize },
    /// The likelihoods of the named slots of a head.
    Masked { head: Head, idx: Vec<u16> },
    /// A node that waits for the second stage.
    Ptr {
        /// The node's row in the batch.
        row: usize,
        n: usize,
        /// Its stretch of the batch's kept candidates, which is its stretch of
        /// the second stage's rows too.
        keep: (usize, usize),
        cell: usize,
        phase: Phase,
    },
}

/// Whether a phase's edges are scored by their features.
pub open spec fn points(phase: Phase) -> bool {
    phase is Take || phase is DraftTile
}

/// Whether any node of a batch is scored by its candidates' features.
pub fn any_pointer(phases: &Vec<Phase>) -> (b: bool)
    ensures
        b == exists|i: int| 0 <= i < phases@.len() && points(#[trigger] phases@[i]),
{
    let mut i: usize = 0;
    while i < phases.len()
        invariant
            i <= phases@.len(),
            forall|j: int| 0 <= j < i ==> !points(#[trigger] phases@[j]),
        decreases phases@.len() - i,
    {
        let p = phases[i];
        match p {
            Phase::Take { .. } | Phase::DraftTile { .. } => {
                assert(points(phases@[i as int]));
                return true;
            },
            _ => {},
        }
        i += 1;
    }
    false
}

/// The cell a node's query is keyed on: the one its worker stands on where it
/// takes an action, and the last one, which stands for no cell, everywhere else.
pub fn query_cell(phase: Phase, stands: Option<usize>, n_who: usize) -> (c: usize)
    requires
        n_who > 0,
    ensures
        c == if phase is Take && stands is Some {
            stands->Some_0
        } else {
            (n_who - 1) as usize
        },
{
    match (phase, stands) {
        (Phase::Take { .. }, Some(c)) => c,
        _ => n_who - 1,
    }
}

/// The candidates of a batch that the second stage scores, node by node.
pub struct Planner {
    pub keep: Vec<usize>,
}

/// Whether a plan is what a node needs, with the kept candidates before and
/// after it.
pub open spec fn plans(
    p: Plan,
    before: Seq<usize>,
    after: Seq<usize>,
    row: usize,
    n: usize,
    spec: EdgeSpec,
    ready: bool,
    cell: usize,
    phase: Phase,
) -> bool {
    if n == 0 {
        p is Empty && after == before
    } else if n == 1 {
        p is Sure && after == before
    } else {
        match spec {
            EdgeSpec::Uniform => p == (Plan::Uniform { n }) && after == before,
            EdgeSpec::Fixed { head, idx } => p == (Plan::Masked { head, idx }) && after == before,
            EdgeSpec::Pointer { scores } => if !ready {
                p == (Plan::Uniform { n }) && after == before
            } else {
                &&& p is Ptr
                &&& p->row == row
                &&& p->Ptr_n == n
                &&& p->cell == cell
                &&& p->phase == phase
                &&& p->keep.0 == before.len()
                &&& p->keep.1 == after.len()
                &&& after.len() >= before.len()
                &&& after.take(before.len() as int) == before
                &&& survives(scores@, after.skip(before.len() as int))
            },
        }
    }
}

impl Planner {
    /// No node planned yet.
    pub fn new() -> (p: Planner)
        ensures
            p.keep@.len() == 0,
    {
        Planner { keep: Vec::new() }
    }

    /// Plans one node of the batch. Where the queries of the batch are not
    /// there, its edges are all alike.
    pub fn node(
        &mut self,
        row: usize,
        n: usize,
        spec: EdgeSpec,
        ready: bool,
        cell: usize,
        phase: Phase,
    ) -> (p: Plan)
        ensures
            plans(p, old(self).keep@, final(self).keep@, row, n, spec, ready, cell, phase),
    {
        if n == 0 {
            return Plan::Empty;
        }
        if n == 1 {
            return Plan::Sure;
        }
        match spec {
            EdgeSpec::Uniform => Plan::Uniform { n },
            EdgeSpec::Fixed { head, idx } => Plan::Masked { head, idx },
            EdgeSpec::Pointer { scores } => {
                if !ready {
                    return Plan::Uniform { n };
                }
                let ghost before = self.keep@;
                let from: usize = self.keep.len();
                let mut kept = select(&scores);
                let ghost k = kept@;
                self.keep.append(&mut kept);
                assert(self.keep@.take(before.len() as int) =~= before);
                assert(self.keep@.skip(before.len() as int) =~= k);
                let to: usize = self.keep.len();
                Plan::Ptr { row, n, keep: (from, to), cell, phase }
            },
        }
    }
}

/// Where each of so many edges gets its likelihood: from the score of the kept
/// candidate it is, or from the mass shared among those not kept.
pub fn scatter(n: usize, kept: &Vec<usize>) -> (v: Vec<Option<usize>>)
    requires
        forall|r: int| 0 <= r < kept@.len() ==> (#[trigger] kept@[r]) < n,
        forall|i: int, j: int| 0 <= i < j < kept@.len() ==> #[trigger] kept@[i] < #[trigger] kept@[j],
    ensures
        v@.len() == n,
        forall|r: int| 0 <= r < kept@.len() ==> v@[#[trigger] kept@[r] as int] == Some(r as usize),
        forall|j: int|
            0 <= j < n && !kept@.contains(j as usize) ==> #[trigger] v@[j] == None::<usize>,
{
    let mut v: Vec<Option<usize>> = Vec::new();
    let mut i: usize = 0;
    while i < n
        invariant
            i <= n,
            v@.len() == i,
            forall|j: int| 0 <= j < i ==> #[trigger] v@[j] == None::<usize>,
        decreases n - i,
    {
        v.push(None);
        i += 1;
    }
    let mut r: usize = 0;
    while r < kept.len()
        invariant
            r <= kept@.len(),
            v@.len() == n,
            forall|q: int| 0 <= q < kept@.len() ==> (#[trigger] kept@[q]) < n,
            forall|i: int, j: int|
                0 <= i < j < kept@.len() ==> #[trigger] kept@[i] < #[trigger] kept@[j],
            forall|q: int| 0 <= q < r ==> v@[#[trigger] kept@[q] as int] == Some(q as usize),
            forall|j: int|
                0 <= j < n && !kept@.contains(j as usize) ==> #[trigger] v@[j] == None::<usize>,
        decreases kept@.len() - r,
    {
        let at: usize = kept[r];
        assert(kept@.contains(at));
        v.set(at, Some(r));
        r += 1;
    }
    v
}

/// A node with no more candidates than the second stage takes keeps all of them,
/// so none of its edges shares in the mass left over.
pub proof fn short_lists_are_scored_whole(scores: Seq<i64>, kept: Seq<usize>, j: usize)
    requires
        survives(scores, kept),
        scores.len() <= TOP_K,
        j < scores.len(),
    ensures
        kept.contains(j),
{
    assert(kept.len() == scores.len());
    assert forall|i: int| 0 <= i < kept.len() implies kept[i] >= i by {
        lemma_at_least(kept, i);
    }
    lemma_at_most(kept, scores.len() as int, j as int);
    assert(kept[j as int] == j);
}

proof fn lemma_at_least(kept: Seq<usize>, i: int)
    requires
        forall|a: int, b: int| 0 <= a < b < kept.len() ==> #[trigger] kept[a] < #[trigger] kept[b],
        0 <= i < kept.len(),
    ensures
        kept[i] >= i,
    decreases i,
{
    if i > 0 {
        lemma_at_least(kept, i - 1);
        assert(kept[i - 1] < kept[i]);
    }
}

proof fn lemma_at_most(kept: Seq<usize>, n: int, i: int)
    requires
        forall|a: int, b: int| 0 <= a < b < kept.len() ==> #[trigger] kept[a] < #[trigger] kept[b],
        forall|a: int| 0 <= a < kept.len() ==> (#[trigger] kept[a]) < n,
        kept.len() == n,
        0 <= i < n,
    ensures
        kept[i] <= i,
    decreases n - i,
{
    if i < n - 1 {
        lemma_at_most(kept, n, i + 1);
        assert(kept[i] < kept[i + 1]);
    } else {
        assert(kept[i] < n);
    }
}

} // verus!
