//! The network's shape: its layers, the tensors a checkpoint holds, how nodes
//! are batched, and which candidates the expensive stage looks at.

use crate::effect::Choice;
use crate::ids::PlayerId;
use crate::phase::{Phase, Step};
use crate::search::{best_first, by_score};
use crate::state::GameState;
use crate::text::{digits, push_number};
use vstd::prelude::*;
use vstd::string::*;

verus! {

/// The portable matrix kernel.
pub struct Portable;

/// The platform's matrix kernel.
pub struct Accelerate;

impl Portable {
    /// The kernel's name.
    pub fn name(&self) -> (s: &'static str)
        ensures
            s@ == "portable"@,
    {
        "portable"
    }
}

impl Accelerate {
    /// The kernel's name.
    pub fn name(&self) -> (s: &'static str)
        ensures
            s@ == "accelerate"@,
    {
        "accelerate"
    }
}

/// Components a final score is split into.
pub const N_DECOMP: usize = 6;

/// Candidates the first stage keeps for the second.
pub const TOP_K: usize = 64;

/// Layer widths.
#[derive(Clone, Copy, PartialEq, Eq, Debug, Structural)]
pub struct Arch {
    pub width: usize,
    pub blocks: usize,
    pub board: usize,
    pub player: usize,
    pub bslot: usize,
    pub mslot: usize,
    pub globals: usize,
    pub value_hidden: usize,
    /// Width of keys and queries.
    pub key: usize,
}

/// The main network's widths.
pub open spec fn main_widths() -> Arch {
    Arch {
        width: 512,
        blocks: 6,
        board: 192,
        player: 96,
        bslot: 48,
        mslot: 32,
        globals: 128,
        value_hidden: 256,
        key: 128,
    }
}

/// The small network's widths.
pub open spec fn small_widths() -> Arch {
    Arch {
        width: 384,
        blocks: 4,
        board: 144,
        player: 72,
        bslot: 36,
        mslot: 24,
        globals: 96,
        value_hidden: 192,
        key: 96,
    }
}

impl Arch {
    /// The main network's widths.
    pub fn main() -> (a: Arch)
        ensures
            a == main_widths(),
    {
        Arch {
            width: 512,
            blocks: 6,
            board: 192,
            player: 96,
            bslot: 48,
            mslot: 32,
            globals: 128,
            value_hidden: 256,
            key: 128,
        }
    }

    /// The small network's widths.
    pub fn small() -> (a: Arch)
        ensures
            a == small_widths(),
    {
        Arch {
            width: 384,
            blocks: 4,
            board: 144,
            player: 72,
            bslot: 36,
            mslot: 24,
            globals: 96,
            value_hidden: 192,
            key: 96,
        }
    }

    /// Width of the stems side by side: the board, four players, six buildings,
    /// six monuments and the globals.
    pub open spec fn fused(self) -> int {
        self.board + 4 * self.player + 6 * self.bslot + 6 * self.mslot + self.globals
    }

    /// Width of the stems side by side.
    pub fn fuse(&self) -> (n: usize)
        requires
            self.fused() <= usize::MAX,
        ensures
            n == self.fused(),
    {
        self.board + 4 * self.player + 6 * self.bslot + 6 * self.mslot + self.globals
    }

    /// How the widths print.
    pub fn tag(&self) -> (s: String)
        ensures
            s@ == "w"@ + digits(self.width as nat) + "b"@ + digits(self.blocks as nat),
    {
        let mut s = String::new();
        s.append("w");
        push_number(&mut s, self.width as u64);
        s.append("b");
        push_number(&mut s, self.blocks as u64);
        assert(s@ =~= "w"@ + digits(self.width as nat) + "b"@ + digits(self.blocks as nat));
        s
    }
}

// ---- queries -------------------------------------------------------------

/// One position to evaluate.
pub struct Query<'a> {
    pub state: &'a GameState,
    pub phase: Phase,
    /// Whose turn it is.
    pub turn: PlayerId,
    pub n_edges: usize,
    /// The candidate list the caller already built, if it did.
    pub candidates: Option<&'a [Choice]>,
    /// The edges, in the order the tree lists them, if the caller has them.
    pub steps: Option<&'a [Step]>,
}

impl<'a> Query<'a> {
    /// A query with only a count.
    pub fn new(state: &'a GameState, phase: Phase, turn: PlayerId, n_edges: usize) -> (q: Query<
        'a,
    >)
        ensures
            q.state == state,
            q.phase == phase,
            q.turn == turn,
            q.n_edges == n_edges,
            q.candidates is None,
            q.steps is None,
    {
        Query { state, phase, turn, n_edges, candidates: None, steps: None }
    }

    /// A query with the edges the tree lists.
    pub fn with_steps(
        state: &'a GameState,
        phase: Phase,
        turn: PlayerId,
        steps: &'a [Step],
    ) -> (q: Query<'a>)
        ensures
            q.state == state,
            q.phase == phase,
            q.turn == turn,
            q.n_edges == steps@.len(),
            q.candidates is None,
            q.steps == Some(steps),
    {
        Query { state, phase, turn, n_edges: steps.len(), candidates: None, steps: Some(steps) }
    }
}

/// A request standing in a queue, with nothing borrowed.
pub struct Req {
    pub state: GameState,
    pub phase: Phase,
    pub turn: PlayerId,
    pub n_edges: usize,
    /// Empty where the caller only had a count.
    pub steps: Vec<Step>,
}

impl Req {
    /// The query a request stands for.
    pub fn query(&self) -> (q: Query<'_>)
        ensures
            q.state == self.state,
            q.phase == self.phase,
            q.turn == self.turn,
            q.candidates is None,
            self.steps@.len() == 0 ==> q.n_edges == self.n_edges && q.steps is None,
            self.steps@.len() > 0 ==> q.n_edges == self.steps@.len() && q.steps is Some
                && q.steps->Some_0@ == self.steps@,
    {
        if self.steps.len() == 0 {
            Query::new(&self.state, self.phase, self.turn, self.n_edges)
        } else {
            Query::with_steps(&self.state, self.phase, self.turn, self.steps.as_slice())
        }
    }
}

/// A request of a search thread: a position and how many edges it has.
pub struct EvalRequest {
    pub state: GameState,
    pub phase: Phase,
    pub turn: PlayerId,
    pub n_edges: usize,
}

impl EvalRequest {
    /// The query a request stands for.
    pub fn query(&self) -> (q: Query<'_>)
        ensures
            q.state == self.state,
            q.phase == self.phase,
            q.turn == self.turn,
            q.n_edges == self.n_edges,
            q.candidates is None,
            q.steps is None,
    {
        Query::new(&self.state, self.phase, self.turn, self.n_edges)
    }
}

/// How a batcher trades latency for batch size.
#[derive(Clone, Copy, PartialEq, Eq, Debug, Structural)]
pub struct BatchConfig {
    /// The largest batch.
    pub max_batch: usize,
    /// How long a short batch is held open, in microseconds. Zero is never.
    pub max_wait_us: u64,
    pub threads: usize,
}

impl Default for BatchConfig {
    fn default() -> (c: BatchConfig)
        ensures
            c.max_batch == 128,
            c.max_wait_us == 200,
            c.threads == 1,
    {
        BatchConfig { max_batch: 128, max_wait_us: 200, threads: 1 }
    }
}

impl BatchConfig {
    /// Sized for so many games at once: each has one descent outstanding, so the
    /// games are the ceiling on the batch.
    pub fn for_games(games: usize) -> (c: BatchConfig)
        ensures
            c.max_batch == (if games < 1 {
                1
            } else if games > 256 {
                256
            } else {
                games
            }),
            c.max_wait_us == 200,
            c.threads == 1,
    {
        let max_batch: usize = if games < 1 {
            1
        } else if games > 256 {
            256
        } else {
            games
        };
        BatchConfig { max_batch, max_wait_us: 200, threads: 1 }
    }

    /// The configuration a pool runs: at least one thread and a batch of one.
    pub fn sound(self) -> (c: BatchConfig)
        ensures
            c.max_batch == (if self.max_batch == 0 {
                1
            } else {
                self.max_batch
            }),
            c.threads == (if self.threads == 0 {
                1
            } else {
                self.threads
            }),
            c.max_wait_us == self.max_wait_us,
    {
        BatchConfig {
            max_batch: if self.max_batch == 0 {
                1
            } else {
                self.max_batch
            },
            threads: if self.threads == 0 {
                1
            } else {
                self.threads
            },
            max_wait_us: self.max_wait_us,
        }
    }
}

// ---- perspective ---------------------------------------------------------

/// How many places round from the mover a seat sits.
pub open spec fn seat_off(mover: PlayerId, seat: int) -> int {
    (seat + 4 - mover.0) % 4
}

/// Values in perspective order, the mover's first, as values in seat order.
pub fn rotate_value(rel: [u32; 4], mover: PlayerId) -> (v: [u32; 4])
    requires
        mover.ok(),
    ensures
        forall|s: int| 0 <= s < 4 ==> #[trigger] v[s] == rel[seat_off(mover, s)],
{
    let m: usize = mover.idx();
    [rel[(4 - m) % 4], rel[(5 - m) % 4], rel[(6 - m) % 4], rel[(7 - m) % 4]]
}

/// The mover sits at the front of its own perspective, and no two seats share a
/// place in it.
pub proof fn perspectives_are_rotations(mover: PlayerId, a: int, b: int)
    requires
        mover.ok(),
        0 <= a < 4,
        0 <= b < 4,
    ensures
        seat_off(mover, mover.0 as int) == 0,
        seat_off(mover, a) == seat_off(mover, b) ==> a == b,
{
}

// ---- candidates ----------------------------------------------------------

/// Whether a list of candidates is what the first stage keeps: in order, as many
/// as may be kept, and none left out scoring more than one kept. Which of
/// several equals is kept is not promised.
pub open spec fn survives(scores: Seq<i64>, kept: Seq<usize>) -> bool {
    &&& kept.len() == (if scores.len() < TOP_K {
        scores.len() as int
    } else {
        TOP_K as int
    })
    &&& forall|i: int| 0 <= i < kept.len() ==> (#[trigger] kept[i]) < scores.len()
    &&& forall|i: int, j: int| 0 <= i < j < kept.len() ==> #[trigger] kept[i] < #[trigger] kept[j]
    &&& forall|k: usize, i: int|
        k < scores.len() && !kept.contains(k) && 0 <= i < kept.len() ==> #[trigger] scores[k as int]
            <= scores[#[trigger] kept[i] as int]
}

/// The candidates the first stage keeps for the second, in candidate order.
pub fn select(scores: &Vec<i64>) -> (kept: Vec<usize>)
    ensures
        survives(scores@, kept@),
{
    let n: usize = scores.len();
    let order = by_score(scores);
    let ghost idx = order@;
    let top: usize = if n < TOP_K {
        n
    } else {
        TOP_K
    };
    let mut stays: Vec<bool> = Vec::new();
    let mut i: usize = 0;
    while i < n
        invariant
            i <= n,
            stays@.len() == i,
            forall|j: int| 0 <= j < i ==> !#[trigger] stays@[j],
        decreases n - i,
    {
        stays.push(false);
        i += 1;
    }
    let mut r: usize = 0;
    while r < top
        invariant
            r <= top,
            top <= n,
            n == idx.len(),
            n == stays@.len(),
            n == scores@.len(),
            order@ == idx,
            best_first(scores@, idx),
            forall|k: int|
                0 <= k < n ==> (#[trigger] stays@[k] <==> exists|j: int|
                    0 <= j < r && #[trigger] idx[j] == k),
        decreases top - r,
    {
        proof {
            assert(idx.contains(idx[r as int]));
        }
        let at: usize = order[r];
        let ghost s0 = stays@;
        stays.set(at, true);
        proof {
            assert forall|k: int| 0 <= k < n implies (#[trigger] stays@[k] <==> exists|j: int|
                0 <= j < r + 1 && #[trigger] idx[j] == k) by {
                if k == at {
                    assert(idx[r as int] == k);
                } else {
                    assert(stays@[k] == s0[k]);
                    if exists|j: int| 0 <= j < r + 1 && #[trigger] idx[j] == k {
                        let j = choose|j: int| 0 <= j < r + 1 && #[trigger] idx[j] == k;
                        assert(j < r);
                    }
                }
            }
        }
        r += 1;
    }
    let mut kept: Vec<usize> = Vec::new();
    let mut k: usize = 0;
    while k < n
        invariant
            k <= n,
            n == stays@.len(),
            forall|i: int|
                0 <= i < kept@.len() ==> (#[trigger] kept@[i]) < k && stays@[kept@[i] as int],
            forall|i: int, j: int|
                0 <= i < j < kept@.len() ==> #[trigger] kept@[i] < #[trigger] kept@[j],
            forall|j: usize| j < k && #[trigger] stays@[j as int] ==> kept@.contains(j),
        decreases n - k,
    {
        let ghost k0 = kept@;
        if stays[k] {
            kept.push(k);
            proof {
                assert forall|j: usize| j < k + 1 && #[trigger] stays@[j as int] implies kept@.contains(j) by {
                    if j == k {
                        assert(kept@[kept@.len() - 1] == k);
                    } else {
                        assert(k0.contains(j));
                        let x = k0.index_of(j);
                        assert(kept@[x] == j);
                    }
                }
            }
        }
        k += 1;
    }
    proof {
        assert forall|j: int| 0 <= j < n implies (#[trigger] idx[j]) < n by {
            assert(idx.contains(idx[j]));
        }
        lemma_kept_count(idx, stays@, kept@, top as int, n as int);
        assert forall|a: usize, i: int|
            a < scores@.len() && !kept@.contains(a) && 0 <= i < kept@.len() implies #[trigger] scores@[a as int]
            <= scores@[#[trigger] kept@[i] as int] by {
            assert(idx.contains(a));
            let x = idx.index_of(a);
            assert(idx[x] == a);
            if x < top {
                assert(stays@[a as int]);
            }
            let b = kept@[i];
            assert(stays@[b as int]);
            let y = choose|j: int| 0 <= j < top && #[trigger] idx[j] == b;
            assert(y < x);
            assert(idx[y] == b);
        }
    }
    kept
}

/// The marked places are as many as were marked.
proof fn lemma_kept_count(
    idx: Seq<usize>,
    stays: Seq<bool>,
    kept: Seq<usize>,
    top: int,
    n: int,
)
    requires
        0 <= top <= n,
        n == idx.len(),
        n == stays.len(),
        idx.no_duplicates(),
        forall|j: int| 0 <= j < n ==> (#[trigger] idx[j]) < n,
        forall|k: int|
            0 <= k < n ==> (#[trigger] stays[k] <==> exists|j: int|
                0 <= j < top && #[trigger] idx[j] == k),
        forall|i: int| 0 <= i < kept.len() ==> (#[trigger] kept[i]) < n && stays[kept[i] as int],
        forall|i: int, j: int|
            0 <= i < j < kept.len() ==> #[trigger] kept[i] < #[trigger] kept[j],
        forall|j: usize| j < n && #[trigger] stays[j as int] ==> kept.contains(j),
    ensures
        kept.len() == top,
{
    let a = idx.take(top);
    assert(a.no_duplicates());
    assert(kept.no_duplicates());
    a.unique_seq_to_set();
    kept.unique_seq_to_set();
    assert forall|k: usize| a.to_set().contains(k) == kept.to_set().contains(k) by {
        if a.contains(k) {
            let j = a.index_of(k);
            assert(idx[j] == k);
            assert(stays[k as int]);
            assert(kept.contains(k));
        }
        if kept.contains(k) {
            let i = kept.index_of(k);
            assert(stays[kept[i] as int]);
            let j = choose|j: int| 0 <= j < top && #[trigger] idx[j] == k;
            assert(a[j] == k);
        }
    }
    assert(a.to_set() =~= kept.to_set());
}

} // verus!
