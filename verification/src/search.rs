//! Paranoid search over whole turns: the pruning window, what a table entry
//! proves, which moves are looked at and in what order, and the end of a round.
//!
//! Scores are whole numbers that order as the evaluation does.

use crate::affordable::payoffs_free;
use crate::book::Rulebook;
use crate::ids::PlayerId;
use crate::legal::fault_of;
use crate::moves::{first_of, legal_list, plays, visit_legal_moves, Move, Play};
use crate::order::{covers_range, sorted_positions, Ranked};
use crate::positions::ScoreTable;
use crate::sampling::{
    draw_moves, drawable, drawn_times, new_moves_come_behind, with_drawn, with_new,
};
use crate::state::GameState;
use crate::turns::same_play;
use rand::rngs::StdRng;
use vstd::prelude::*;

verus! {

/// How opponents are modelled.
#[derive(Clone, Copy, PartialEq, Eq, Debug, Structural)]
pub enum Opponents {
    /// They minimise the root player's margin together.
    Paranoid,
    /// Each plays its own best move.
    Greedy,
}

/// How wide the search is at each ply, and when it must stop.
pub struct Config {
    /// Plies to look ahead, the root's own move being the first.
    pub max_depth: u8,
    /// Moves searched at each ply. Past the end the last entry repeats.
    pub widths: Vec<usize>,
    /// Moves enumerated at an interior node before the walk is cut short.
    pub interior_cap: usize,
    /// Draws mixed in where the walk was cut short.
    pub top_up: usize,
    /// The budget of one search, in milliseconds.
    pub budget_ms: u64,
    /// Ranked root moves to report.
    pub keep: usize,
    pub opponents: Opponents,
    pub cache: bool,
    pub own_width: bool,
    pub keep_tt: bool,
    pub beam_first: bool,
    pub opp_width: usize,
    pub cap_per_width: Option<usize>,
}

impl Default for Config {
    fn default() -> (c: Config)
        ensures
            c.max_depth == 4,
            c.widths@ == seq![12usize, 6, 4, 3, 2],
            c.interior_cap == 3000,
            c.top_up == 24,
            c.budget_ms == 1500,
            c.keep == 10,
            c.opponents == Opponents::Paranoid,
            !c.cache,
            !c.own_width,
            !c.keep_tt,
            !c.beam_first,
            c.opp_width == 3,
            c.cap_per_width is None,
    {
        let widths: Vec<usize> = vec![12, 6, 4, 3, 2];
        assert(widths@ =~= seq![12usize, 6, 4, 3, 2]);
        Config {
            max_depth: 4,
            widths,
            interior_cap: 3000,
            top_up: 24,
            budget_ms: 1500,
            keep: 10,
            opponents: Opponents::Paranoid,
            cache: false,
            own_width: false,
            keep_tt: false,
            beam_first: false,
            opp_width: 3,
            cap_per_width: None,
        }
    }
}

/// Moves searched at a ply.
pub open spec fn width(widths: Seq<usize>, ply: int) -> usize {
    if ply < widths.len() {
        widths[ply]
    } else if widths.len() > 0 {
        widths.last()
    } else {
        3
    }
}

impl Config {
    /// The same search with another budget.
    pub fn with_budget_ms(self, ms: u64) -> (c: Config)
        ensures
            c == (Config { budget_ms: ms, ..self }),
    {
        let mut c = self;
        c.budget_ms = ms;
        c
    }

    /// The same search to another depth, of at least one ply.
    pub fn with_depth(self, d: u8) -> (c: Config)
        ensures
            c == (Config {
                max_depth: if d == 0 {
                    1
                } else {
                    d
                },
                ..self
            }),
    {
        let mut c = self;
        c.max_depth = if d == 0 {
            1
        } else {
            d
        };
        c
    }

    /// Moves searched at a ply, the last configured width repeating past the
    /// end.
    pub fn width_at(&self, ply: usize) -> (w: usize)
        ensures
            w == width(self.widths@, ply as int),
    {
        let n: usize = self.widths.len();
        if ply < n {
            self.widths[ply]
        } else if n > 0 {
            self.widths[n - 1]
        } else {
            3
        }
    }
}

/// What one search did.
#[derive(Clone, Copy)]
pub struct Stats {
    /// Interior nodes whose children were searched.
    pub nodes: u64,
    /// Leaves scored by the evaluator.
    pub leaves: u64,
    /// Branches pruning never had to look at.
    pub cutoffs: u64,
    /// Nodes answered from the table.
    pub tt_hits: u64,
    /// The deepest ply reached.
    pub depth: u8,
    /// Root moves searched to that depth.
    pub deepened: usize,
    /// Whether the budget cut the last iteration short.
    pub partial: bool,
    /// Legal moves at the root.
    pub root_moves: usize,
    pub elapsed_ms: u64,
}

// ---- pruning -------------------------------------------------------------

/// Below every score, and above every score.
pub const LOW: i64 = -0x4000_0000_0000_0000;

pub const HIGH: i64 = 0x4000_0000_0000_0000;

/// A tree of positions. The children of a node are a list, first to last.
pub enum Tree {
    /// A position that is scored as it stands.
    Leaf(i64),
    /// A position whose mover picks among what follows.
    Node { maximizing: bool, kids: Box<Kids> },
}

/// The positions a mover can go to.
pub enum Kids {
    End,
    Then { kid: Tree, rest: Box<Kids> },
}

/// The better of two scores for the mover.
pub open spec fn better(maximizing: bool, a: int, b: int) -> int {
    if (maximizing && a < b) || (!maximizing && b < a) {
        b
    } else {
        a
    }
}

/// The score of a position under best play by both sides.
pub open spec fn value(t: Tree) -> int
    decreases t,
{
    match t {
        Tree::Leaf(v) => v as int,
        Tree::Node { maximizing, kids } => best_of(
            maximizing,
            if maximizing {
                LOW as int
            } else {
                HIGH as int
            },
            *kids,
        ),
    }
}

/// The best of a score and a list of positions for the mover.
pub open spec fn best_of(maximizing: bool, best: int, kids: Kids) -> int
    decreases kids,
{
    match kids {
        Kids::End => best,
        Kids::Then { kid, rest } => best_of(
            maximizing,
            better(maximizing, best, value(kid)),
            *rest,
        ),
    }
}

/// What a search of a window proves of a position's score: the score itself
/// inside the window, and a bound on it outside.
pub open spec fn proves(alpha: int, beta: int, found: int, t: int) -> bool {
    &&& found <= alpha ==> t <= found
    &&& found >= beta ==> t >= found
    &&& alpha < found < beta ==> t == found
}

/// A node being searched: its window as it stands, and the best found so far.
#[derive(Clone, Copy)]
pub struct Frame {
    pub maximizing: bool,
    /// The window the node was entered with.
    pub alpha0: i64,
    pub beta0: i64,
    pub alpha: i64,
    pub beta: i64,
    pub best: i64,
}

/// What a stored score says.
#[derive(Clone, Copy, PartialEq, Eq, Debug, Structural)]
pub enum Bound {
    Exact,
    /// The true score is at least this.
    Lower,
    /// The true score is at most this.
    Upper,
}

/// A stored score.
#[derive(Clone, Copy, PartialEq, Eq, Debug, Structural)]
pub struct Entry {
    pub value: i64,
    pub bound: Bound,
}

impl Entry {
    /// Whether what the entry says is true of a score.
    pub open spec fn holds(self, t: int) -> bool {
        match self.bound {
            Bound::Exact => t == self.value,
            Bound::Lower => t >= self.value,
            Bound::Upper => t <= self.value,
        }
    }

    /// Whether the entry settles a window.
    pub open spec fn settles(self, alpha: int, beta: int) -> bool {
        match self.bound {
            Bound::Exact => true,
            Bound::Lower => self.value >= beta,
            Bound::Upper => self.value <= alpha,
        }
    }

    /// The score the entry answers a window with, where it settles it.
    pub fn probe(self, alpha: i64, beta: i64) -> (v: Option<i64>)
        ensures
            v is Some <==> self.settles(alpha as int, beta as int),
            v matches Some(x) ==> x == self.value,
    {
        let hit = match self.bound {
            Bound::Exact => true,
            Bound::Lower => self.value >= beta,
            Bound::Upper => self.value <= alpha,
        };
        if hit {
            Some(self.value)
        } else {
            None
        }
    }
}

/// What a closed frame's score is stored as: a bound where it fell outside the
/// window the node was entered with.
pub open spec fn stored(f: Frame) -> Entry {
    Entry {
        value: f.best,
        bound: if f.best <= f.alpha0 {
            Bound::Upper
        } else if f.best >= f.beta0 {
            Bound::Lower
        } else {
            Bound::Exact
        },
    }
}

impl Frame {
    /// What holds of a frame throughout: its window is the one it was entered
    /// with, narrowed by the best found so far.
    pub open spec fn ok(self) -> bool {
        &&& LOW <= self.alpha0 < self.beta0 <= HIGH
        &&& self.alpha == (if self.maximizing && self.best > self.alpha0 {
            self.best
        } else {
            self.alpha0
        })
        &&& self.beta == (if !self.maximizing && self.best < self.beta0 {
            self.best
        } else {
            self.beta0
        })
    }

    /// A node entered with a window.
    pub fn enter(maximizing: bool, alpha: i64, beta: i64) -> (f: Frame)
        requires
            LOW <= alpha < beta <= HIGH,
        ensures
            f.ok(),
            f.maximizing == maximizing,
            f.alpha0 == alpha,
            f.beta0 == beta,
            f.best == (if maximizing {
                LOW
            } else {
                HIGH
            }),
            f.alpha < f.beta,
    {
        Frame {
            maximizing,
            alpha0: alpha,
            beta0: beta,
            alpha,
            beta,
            best: if maximizing {
                LOW
            } else {
                HIGH
            },
        }
    }

    /// Take in a child's score, and say whether the rest can be left out.
    pub fn take(&mut self, v: i64) -> (cut: bool)
        requires
            old(self).ok(),
        ensures
            final(self).ok(),
            final(self).maximizing == old(self).maximizing,
            final(self).alpha0 == old(self).alpha0,
            final(self).beta0 == old(self).beta0,
            final(self).best == better(old(self).maximizing, old(self).best as int, v as int),
            cut == (final(self).alpha >= final(self).beta),
    {
        if self.maximizing {
            if v > self.best {
                self.best = v;
            }
            if self.best > self.alpha {
                self.alpha = self.best;
            }
        } else {
            if v < self.best {
                self.best = v;
            }
            if self.best < self.beta {
                self.beta = self.best;
            }
        }
        self.alpha >= self.beta
    }

    /// What the node's score is worth storing as.
    pub fn close(&self) -> (e: Entry)
        requires
            self.ok(),
        ensures
            e == stored(*self),
            e.value == self.best,
            e.bound == (if self.best <= self.alpha0 {
                Bound::Upper
            } else if self.best >= self.beta0 {
                Bound::Lower
            } else {
                Bound::Exact
            }),
    {
        let bound = if self.best <= self.alpha0 {
            Bound::Upper
        } else if self.best >= self.beta0 {
            Bound::Lower
        } else {
            Bound::Exact
        };
        Entry { value: self.best, bound }
    }
}

/// What a searched window proves is what the entry made of it says.
pub proof fn stored_scores_are_true(alpha: int, beta: int, e: Entry, t: int)
    requires
        alpha < beta,
        proves(alpha, beta, e.value as int, t),
        e.bound == (if e.value <= alpha {
            Bound::Upper
        } else if e.value >= beta {
            Bound::Lower
        } else {
            Bound::Exact
        }),
    ensures
        e.holds(t),
{
}

/// An entry that is true and settles a window proves as much as searching the
/// window would.
pub proof fn settled_windows_are_proved(alpha: int, beta: int, e: Entry, t: int)
    requires
        alpha < beta,
        e.holds(t),
        e.settles(alpha, beta),
    ensures
        proves(alpha, beta, e.value as int, t),
{
}

proof fn lemma_best_of_only_improves(maximizing: bool, best: int, kids: Kids)
    ensures
        maximizing ==> best_of(maximizing, best, kids) >= best,
        !maximizing ==> best_of(maximizing, best, kids) <= best,
    decreases kids,
{
    if let Kids::Then { kid, rest } = kids {
        lemma_best_of_only_improves(maximizing, better(maximizing, best, value(kid)), *rest);
    }
}

/// Search a tree within a window. Whatever is left out could not have changed
/// what the result proves.
pub fn ab(t: &Tree, alpha: i64, beta: i64) -> (v: i64)
    requires
        LOW <= alpha < beta <= HIGH,
    ensures
        proves(alpha as int, beta as int, v as int, value(*t)),
    decreases t,
{
    match t {
        Tree::Leaf(v) => *v,
        Tree::Node { maximizing, kids } => {
            let frame = Frame::enter(*maximizing, alpha, beta);
            ab_kids(frame, kids, Ghost(frame.best as int))
        },
    }
}

/// Search what is left of a node's children. `seen` is the true best of those
/// already searched.
fn ab_kids(frame: Frame, kids: &Kids, Ghost(seen): Ghost<int>) -> (v: i64)
    requires
        frame.ok(),
        frame.alpha < frame.beta,
        proves(frame.alpha0 as int, frame.beta0 as int, frame.best as int, seen),
    ensures
        proves(
            frame.alpha0 as int,
            frame.beta0 as int,
            v as int,
            best_of(frame.maximizing, seen, *kids),
        ),
    decreases kids,
{
    match kids {
        Kids::End => frame.best,
        Kids::Then { kid, rest } => {
            let v: i64 = ab(kid, frame.alpha, frame.beta);
            let mut next = frame;
            let cut = next.take(v);
            let ghost now = better(frame.maximizing, seen, value(*kid));
            assert(proves(frame.alpha0 as int, frame.beta0 as int, next.best as int, now));
            if cut {
                proof {
                    lemma_best_of_only_improves(frame.maximizing, now, **rest);
                }
                next.best
            } else {
                ab_kids(next, rest, Ghost(now))
            }
        },
    }
}

// ---- ordering ------------------------------------------------------------

/// A scored place in a list. It goes before another with a smaller score, and
/// before a later one with the same score.
#[derive(Clone, Copy)]
pub struct Scored {
    pub at: usize,
    pub score: i64,
}

impl Ranked for Scored {
    open spec fn before(a: Scored, b: Scored) -> bool {
        a.score > b.score || (a.score == b.score && a.at < b.at)
    }

    proof fn one_way(a: Scored, b: Scored) {
    }

    proof fn onward(a: Scored, b: Scored, c: Scored) {
    }

    fn less(&self, other: &Scored) -> (b: bool) {
        self.score > other.score || (self.score == other.score && self.at < other.at)
    }
}

/// Whether an index list visits scores best first, equal ones in the order they
/// came.
pub open spec fn best_first(scores: Seq<i64>, idx: Seq<usize>) -> bool {
    &&& covers_range(idx, 0, scores.len() as int)
    &&& idx.len() == scores.len()
    &&& forall|i: int, j: int|
        0 <= i < j < idx.len() ==> {
            let x = #[trigger] idx[i] as int;
            let y = #[trigger] idx[j] as int;
            scores[x] > scores[y] || (scores[x] == scores[y] && x < y)
        }
}

/// The places of a list of scores, best first, equal scores in the order they
/// came.
pub fn by_score(scores: &Vec<i64>) -> (idx: Vec<usize>)
    ensures
        best_first(scores@, idx@),
{
    let mut v: Vec<Scored> = Vec::new();
    let mut i: usize = 0;
    while i < scores.len()
        invariant
            i <= scores@.len(),
            v@.len() == i,
            forall|j: int|
                0 <= j < i ==> (#[trigger] v@[j]).at == j && v@[j].score == scores@[j],
        decreases scores@.len() - i,
    {
        v.push(Scored { at: i, score: scores[i] });
        i += 1;
    }
    let idx = sorted_positions(&v);
    proof {
        assert forall|i: int, j: int| 0 <= i < j < idx@.len() implies ({
            let x = #[trigger] idx@[i] as int;
            let y = #[trigger] idx@[j] as int;
            scores@[x] > scores@[y] || (scores@[x] == scores@[y] && x < y)
        }) by {
            assert(idx@.contains(idx@[i]) && idx@.contains(idx@[j]));
            let x = idx@[i] as int;
            let y = idx@[j] as int;
            assert(x != y);
            assert(!Scored::before(v@[y], v@[x]));
        }
    }
    idx
}

/// Whether a move does what one already chosen does.
pub open spec fn repeats(ms: Seq<Play>, chosen: Seq<usize>, k: usize) -> bool {
    exists|i: int| 0 <= i < chosen.len() && same_play(ms[#[trigger] chosen[i] as int], ms[k as int])
}

/// The first moves of an order that differ in effect, up to a width.
pub open spec fn beam_of(ms: Seq<Play>, order: Seq<usize>, width: int, chosen: Seq<usize>) -> Seq<
    usize,
>
    decreases order.len(),
{
    if order.len() == 0 || chosen.len() >= width {
        chosen
    } else if repeats(ms, chosen, order[0]) {
        beam_of(ms, order.drop_first(), width, chosen)
    } else {
        beam_of(ms, order.drop_first(), width, chosen.push(order[0]))
    }
}

/// The moves an interior node looks at: the best by the mover's own estimate
/// that differ in what they do, at least one of them.
pub fn beam(ms: &Vec<Move>, scores: &Vec<i64>, width: usize) -> (chosen: Vec<usize>)
    requires
        ms@.len() == scores@.len(),
    ensures
        exists|idx: Seq<usize>| #[trigger]
            best_first(scores@, idx) && chosen@ == beam_of(
                plays(ms@),
                idx,
                if width == 0 {
                    1
                } else {
                    width as int
                },
                Seq::empty(),
            ),
{
    let width: usize = if width == 0 {
        1
    } else {
        width
    };
    let idx = by_score(scores);
    let ghost ps = plays(ms@);
    let mut chosen: Vec<usize> = Vec::new();
    let mut i: usize = 0;
    assert(idx@.skip(0) =~= idx@);
    while i < idx.len() && chosen.len() < width
        invariant
            i <= idx@.len(),
            ms@.len() == scores@.len(),
            covers_range(idx@, 0, scores@.len() as int),
            ps == plays(ms@),
            forall|j: int| 0 <= j < chosen@.len() ==> (#[trigger] chosen@[j]) < ms@.len(),
            beam_of(ps, idx@.skip(i as int), width as int, chosen@) == beam_of(
                ps,
                idx@,
                width as int,
                Seq::empty(),
            ),
        decreases idx@.len() - i,
    {
        let k: usize = idx[i];
        proof {
            assert(idx@.contains(idx@[i as int]));
        }
        let mut seen = false;
        let mut j: usize = 0;
        while j < chosen.len()
            invariant
                j <= chosen@.len(),
                k < ms@.len(),
                ps == plays(ms@),
                forall|x: int| 0 <= x < chosen@.len() ==> (#[trigger] chosen@[x]) < ms@.len(),
                seen == exists|x: int|
                    0 <= x < j && same_play(ps[#[trigger] chosen@[x] as int], ps[k as int]),
            decreases chosen@.len() - j,
        {
            let same = ms[chosen[j]].same_effect(&ms[k]);
            assert(ps[chosen@[j as int] as int] == ms@[chosen@[j as int] as int]@);
            if same {
                seen = true;
            }
            j += 1;
        }
        assert(seen == repeats(ps, chosen@, k));
        assert(idx@.skip(i as int).drop_first() =~= idx@.skip(i + 1));
        assert(idx@.skip(i as int)[0] == k);
        if !seen {
            chosen.push(k);
        }
        i += 1;
    }
    chosen
}

proof fn lemma_beam_differs(ms: Seq<Play>, order: Seq<usize>, width: int, chosen: Seq<usize>)
    requires
        forall|i: int, j: int|
            0 <= i < j < chosen.len() ==> !same_play(
                ms[#[trigger] chosen[i] as int],
                ms[#[trigger] chosen[j] as int],
            ),
    ensures
        forall|i: int, j: int|
            #![trigger beam_of(ms, order, width, chosen)[i], beam_of(ms, order, width, chosen)[j]]
            0 <= i < j < beam_of(ms, order, width, chosen).len() ==> !same_play(
                ms[beam_of(ms, order, width, chosen)[i] as int],
                ms[beam_of(ms, order, width, chosen)[j] as int],
            ),
        beam_of(ms, order, width, chosen).len() <= (if chosen.len() > width {
            chosen.len() as int
        } else {
            width
        }),
    decreases order.len(),
{
    if order.len() == 0 || chosen.len() >= width {
    } else if repeats(ms, chosen, order[0]) {
        lemma_beam_differs(ms, order.drop_first(), width, chosen);
    } else {
        let c = chosen.push(order[0]);
        assert forall|i: int, j: int| 0 <= i < j < c.len() implies !same_play(
            ms[#[trigger] c[i] as int],
            ms[#[trigger] c[j] as int],
        ) by {
            if j == chosen.len() {
                assert(!same_play(ms[chosen[i] as int], ms[order[0] as int]));
            } else {
                assert(c[i] == chosen[i] && c[j] == chosen[j]);
            }
        }
        lemma_beam_differs(ms, order.drop_first(), width, c);
    }
}

/// No two moves of a beam do the same thing, and it is no wider than asked.
pub proof fn beams_hold_different_moves(ms: Seq<Play>, order: Seq<usize>, width: int)
    requires
        width >= 1,
    ensures
        forall|i: int, j: int|
            #![trigger beam_of(ms, order, width, Seq::empty())[i], beam_of(
                ms,
                order,
                width,
                Seq::empty(),
            )[j]]
            0 <= i < j < beam_of(ms, order, width, Seq::empty()).len() ==> !same_play(
                ms[beam_of(ms, order, width, Seq::empty())[i] as int],
                ms[beam_of(ms, order, width, Seq::empty())[j] as int],
            ),
        beam_of(ms, order, width, Seq::empty()).len() <= width,
{
    lemma_beam_differs(ms, order, width, Seq::empty());
}

/// What an interior node may look at: the first legal moves in their fixed
/// order, and, where that cut the list short, so many draws of the rollout policy,
/// each that is new behind them once. They are legal.
pub open spec fn gathered(
    rules: Rulebook,
    g: GameState,
    p: PlayerId,
    cap: usize,
    top_up: usize,
    ms: Seq<Play>,
) -> bool {
    let listed = first_of(legal_list(rules, g, p), Some(cap));
    let n = listed.len() as int;
    &&& n <= ms.len() <= n + top_up
    &&& ms.take(n) == listed
    &&& n < cap ==> ms.len() == n
    &&& n == cap ==> exists|drawn: Seq<Play>| #[trigger]
        drawn_times(rules, g, p, top_up as int, drawn) && ms == with_new(listed, drawn)
    &&& forall|i: int| n <= i < ms.len() ==> drawable(rules, g, p, #[trigger] ms[i])
    &&& forall|i: int|
        n <= i < ms.len() && payoffs_free(rules) ==> fault_of(rules, g, p, #[trigger] ms[i]) is None
    &&& forall|i: int, j: int| 0 <= i < j && n <= j < ms.len() ==> #[trigger] ms[i] != #[trigger] ms[j]
}

/// The moves an interior node scores. The walk stops after `cap` moves, or one
/// where the cap is none; a walk that was cut short is a prefix rather than a
/// sample, so draws from the rollout policy are mixed in.
pub fn candidates(
    rules: &Rulebook,
    g: &GameState,
    mover: PlayerId,
    cap: usize,
    top_up: usize,
    rng: &mut StdRng,
) -> (ms: Vec<Move>)
    requires
        mover.ok(),
        rules.ok(),
        g.ok(),
    ensures
        gathered(
            *rules,
            *g,
            mover,
            if cap == 0 {
                1
            } else {
                cap
            },
            top_up,
            plays(ms@),
        ),
{
    let most: usize = if cap == 0 {
        1
    } else {
        cap
    };
    let ms = visit_legal_moves(rules, g, mover, Some(most));
    let n: usize = ms.len();
    let ghost listed = plays(ms@);
    assert(listed.take(n as int) =~= listed);
    if n < most {
        return ms;
    }
    let drawn = draw_moves(rules, g, mover, top_up, rng);
    proof {
        let list = plays(drawn@);
        let out = with_new(listed, list);
        new_moves_come_behind(listed, list);
        assert forall|i: int| n <= i < out.len() implies drawable(
            *rules,
            *g,
            mover,
            #[trigger] out[i],
        ) && (payoffs_free(*rules) ==> fault_of(*rules, *g, mover, out[i]) is None) by {
            let k = list.index_of(out[i]);
            assert(list[k] == out[i]);
        }
        assert(drawn_times(*rules, *g, mover, top_up as int, list));
    }
    with_drawn(ms, drawn)
}

// ---- deepening -----------------------------------------------------------

/// A move's score after an iteration: the new one where the iteration finished
/// it, and the one it had otherwise.
pub open spec fn renewed(prev: Seq<i64>, found: Seq<Option<i64>>, i: int) -> i64 {
    if i < found.len() && found[i] is Some {
        found[i]->Some_0
    } else {
        prev[i]
    }
}

/// How many of a beam an iteration finished.
pub open spec fn finished(found: Seq<Option<i64>>) -> nat
    decreases found.len(),
{
    if found.len() == 0 {
        0
    } else {
        finished(found.drop_last()) + if found.last() is Some {
            1nat
        } else {
            0
        }
    }
}

/// The root after one iteration, as places in the list before it.
pub struct Deepened {
    /// The new order, best first.
    pub order: Vec<usize>,
    /// The scores, place for place as they were listed before.
    pub scores: Vec<i64>,
    /// How many moves the iteration finished.
    pub done: usize,
}

/// Fold one iteration into the root's ranking. The scores found are those of
/// the best moves, in order, with nothing where the budget ran out. An
/// iteration that finished nothing is discarded.
pub fn deepen(prev: &Vec<i64>, found: &Vec<Option<i64>>) -> (d: Option<Deepened>)
    requires
        found@.len() <= prev@.len(),
    ensures
        d is None <==> finished(found@) == 0,
        d matches Some(r) ==> {
            &&& r.scores@.len() == prev@.len()
            &&& forall|i: int|
                0 <= i < prev@.len() ==> #[trigger] r.scores@[i] == renewed(prev@, found@, i)
            &&& best_first(r.scores@, r.order@)
            &&& r.done == finished(found@)
        },
{
    let mut scores: Vec<i64> = Vec::new();
    let mut done: usize = 0;
    let mut i: usize = 0;
    assert(found@.take(0) =~= Seq::empty());
    while i < prev.len()
        invariant
            i <= prev@.len(),
            found@.len() <= prev@.len(),
            scores@.len() == i,
            forall|j: int| 0 <= j < i ==> #[trigger] scores@[j] == renewed(prev@, found@, j),
            done == finished(
                found@.take(
                    if i < found@.len() {
                        i as int
                    } else {
                        found@.len() as int
                    },
                ),
            ),
            done <= i,
        decreases prev@.len() - i,
    {
        let mut s: i64 = prev[i];
        if i < found.len() {
            assert(found@.take(i + 1).drop_last() =~= found@.take(i as int));
            if let Some(v) = found[i] {
                s = v;
                done += 1;
            }
        }
        scores.push(s);
        i += 1;
    }
    assert(found@.take(found@.len() as int) =~= found@);
    if done == 0 {
        return None;
    }
    let order = by_score(&scores);
    Some(Deepened { order, scores, done })
}

// ---- the end of a round --------------------------------------------------

/// A position with the seat handed on, and whether that ends the round.
pub open spec fn handed_on(g: GameState) -> (GameState, bool) {
    let next = PlayerId(((g.current.0 + 1) % 4) as u8);
    (GameState { current: next, ..g }, next == g.first_player)
}

/// Hand the seat on. True where that ends the round.
pub fn advance_seat(g: &mut GameState) -> (over: bool)
    requires
        old(g).current.ok(),
    ensures
        final(g).current.ok(),
        final(g).current.0 as int == (old(g).current.0 + 1) % 4,
        *final(g) == (GameState { current: final(g).current, ..*old(g) }),
        over == (final(g).current == old(g).first_player),
        (*final(g), over) == handed_on(*old(g)),
{
    g.current = g.current.next(1);
    g.current == g.first_player
}

/// Whether the claimer takes the extra day: where the position two days on is
/// worth more to it than the one a day on.
pub fn prefers_extra_day(after_one: i64, after_two: i64) -> (b: bool)
    ensures
        b == (after_two > after_one),
{
    after_two > after_one
}

/// The position a round ends in, given the positions one and two days on and what
/// the claimer makes of each.
pub open spec fn round_end(
    one: GameState,
    two: Option<GameState>,
    m1: i64,
    m2: i64,
) -> GameState {
    let c = match two {
        Some(g) => if m2 > m1 {
            g
        } else {
            one
        },
        None => one,
    };
    GameState { current: c.first_player, ..c }
}

/// The position a round ends in: two days on where the claimer may take the extra
/// day and prefers it, and otherwise a day on. The turn goes to the seat that
/// begins the next round, which is another one where the marker moved.
pub fn next_round(one: GameState, two: Option<GameState>, m1: i64, m2: i64) -> (r: GameState)
    ensures
        ({
            let c = if two is Some && m2 > m1 {
                two->Some_0
            } else {
                one
            };
            r == (GameState { current: c.first_player, ..c })
        }),
        r == round_end(one, two, m1, m2),
{
    let mut r = match two {
        Some(g) => if prefers_extra_day(m1, m2) {
            g
        } else {
            one
        },
        None => one,
    };
    r.current = r.first_player;
    r
}

// ---- one search ----------------------------------------------------------

/// What to do at a node.
pub enum Visit {
    /// Score the position as it stands.
    Score,
    /// The table has its score.
    Known(i64),
    /// Search its children within a window.
    Open(Frame),
}

/// One search: what it was asked, what it remembers and what it did.
pub struct Search {
    pub cfg: Config,
    pub root: PlayerId,
    pub table: ScoreTable,
    pub stats: Stats,
    /// Set when the budget ran out: what is found from then on is not stored.
    pub out_of_time: bool,
}

/// The counters of a search that has done nothing.
pub open spec fn no_stats() -> Stats {
    Stats {
        nodes: 0,
        leaves: 0,
        cutoffs: 0,
        tt_hits: 0,
        depth: 0,
        deepened: 0,
        partial: false,
        root_moves: 0,
        elapsed_ms: 0,
    }
}

fn fresh_stats() -> (s: Stats)
    ensures
        s == no_stats(),
{
    Stats {
        nodes: 0,
        leaves: 0,
        cutoffs: 0,
        tt_hits: 0,
        depth: 0,
        deepened: 0,
        partial: false,
        root_moves: 0,
        elapsed_ms: 0,
    }
}

impl Search {
    /// Whether the counters can still count.
    pub open spec fn has_room(self) -> bool {
        &&& self.stats.nodes < u64::MAX
        &&& self.stats.leaves < u64::MAX
        &&& self.stats.cutoffs < u64::MAX
        &&& self.stats.tt_hits < u64::MAX
    }

    /// A search that has looked at nothing.
    pub fn new(cfg: Config) -> (s: Search)
        ensures
            s.cfg == cfg,
            s.root == PlayerId(0),
            s.table.ok(),
            s.table@ == Map::<(GameState, u8), Entry>::empty(),
            s.stats == no_stats(),
            !s.out_of_time,
    {
        Search {
            cfg,
            root: PlayerId(0),
            table: ScoreTable::new(),
            stats: fresh_stats(),
            out_of_time: false,
        }
    }

    /// Forget every stored score.
    pub fn clear(&mut self)
        ensures
            final(self).table.ok(),
            final(self).table@ == Map::<(GameState, u8), Entry>::empty(),
            final(self).cfg == old(self).cfg,
            final(self).root == old(self).root,
            final(self).stats == old(self).stats,
            final(self).out_of_time == old(self).out_of_time,
    {
        self.table = ScoreTable::new();
    }

    /// Begin a search for a seat: nothing counted and nothing remembered.
    pub fn begin(&mut self, p: PlayerId)
        ensures
            final(self).table.ok(),
            final(self).table@ == Map::<(GameState, u8), Entry>::empty(),
            final(self).cfg == old(self).cfg,
            final(self).root == p,
            final(self).stats == no_stats(),
            !final(self).out_of_time,
    {
        self.table = ScoreTable::new();
        self.root = p;
        self.stats = fresh_stats();
        self.out_of_time = false;
    }

    /// What to do at a node entered with a window, `expired` telling whether the
    /// budget is spent. The mover maximises where it is the root player and
    /// minimises otherwise.
    pub fn enter(&mut self, g: &GameState, depth: u8, expired: bool, alpha: i64, beta: i64) -> (v:
        Visit)
        requires
            LOW <= alpha < beta <= HIGH,
            old(self).has_room(),
            old(self).table.ok(),
        ensures
            final(self).cfg == old(self).cfg,
            final(self).root == old(self).root,
            final(self).table == old(self).table,
            final(self).out_of_time == (old(self).out_of_time || (expired && !g.over && depth > 0)),
            v is Score <==> g.over || depth == 0 || expired,
            final(self).stats == (match v {
                Visit::Score => Stats {
                    leaves: (old(self).stats.leaves + 1) as u64,
                    ..old(self).stats
                },
                Visit::Known(_) => Stats {
                    tt_hits: (old(self).stats.tt_hits + 1) as u64,
                    ..old(self).stats
                },
                Visit::Open(_) => old(self).stats,
            }),
            !(v is Score) ==> (v is Known <==> old(self).table@.contains_key((*g, depth))
                && old(self).table@[(*g, depth)].settles(alpha as int, beta as int)),
            v matches Visit::Known(x) ==> x == old(self).table@[(*g, depth)].value,
            v matches Visit::Open(f) ==> f.ok() && f.maximizing == (g.current == old(self).root)
                && f.alpha0 == alpha && f.beta0 == beta && f.alpha < f.beta && f.best == (if f.maximizing {
                LOW
            } else {
                HIGH
            }),
    {
        if g.over || depth == 0 {
            self.stats.leaves = self.stats.leaves + 1;
            return Visit::Score;
        }
        if expired {
            self.out_of_time = true;
            self.stats.leaves = self.stats.leaves + 1;
            return Visit::Score;
        }
        if let Some(e) = self.table.get(g, depth) {
            if let Some(x) = e.probe(alpha, beta) {
                self.stats.tt_hits = self.stats.tt_hits + 1;
                return Visit::Known(x);
            }
        }
        Visit::Open(Frame::enter(g.current == self.root, alpha, beta))
    }

    /// Count an opened node: one with children is a node, one without a leaf.
    pub fn expand(&mut self, children: usize)
        requires
            old(self).has_room(),
        ensures
            *final(self) == (Search {
                cfg: final(self).cfg,
                table: final(self).table,
                stats: if children == 0 {
                    Stats { leaves: (old(self).stats.leaves + 1) as u64, ..old(self).stats }
                } else {
                    Stats { nodes: (old(self).stats.nodes + 1) as u64, ..old(self).stats }
                },
                ..*old(self)
            }),
            final(self).cfg == old(self).cfg,
            final(self).table == old(self).table,
    {
        if children == 0 {
            self.stats.leaves = self.stats.leaves + 1;
        } else {
            self.stats.nodes = self.stats.nodes + 1;
        }
    }

    /// Take a child's score into its parent, and say whether the rest of the
    /// children can be left out.
    pub fn absorb(&mut self, frame: &mut Frame, v: i64) -> (cut: bool)
        requires
            old(self).has_room(),
            old(frame).ok(),
        ensures
            final(frame).ok(),
            final(frame).maximizing == old(frame).maximizing,
            final(frame).alpha0 == old(frame).alpha0,
            final(frame).beta0 == old(frame).beta0,
            final(frame).best == better(old(frame).maximizing, old(frame).best as int, v as int),
            cut == (final(frame).alpha >= final(frame).beta),
            final(self).stats == (if cut {
                Stats { cutoffs: (old(self).stats.cutoffs + 1) as u64, ..old(self).stats }
            } else {
                old(self).stats
            }),
            final(self).cfg == old(self).cfg,
            final(self).root == old(self).root,
            final(self).table == old(self).table,
            final(self).out_of_time == old(self).out_of_time,
    {
        let cut = frame.take(v);
        if cut {
            self.stats.cutoffs = self.stats.cutoffs + 1;
        }
        cut
    }

    /// Leave a node: its score, stored unless the budget ran out.
    pub fn leave(&mut self, g: &GameState, depth: u8, frame: &Frame) -> (v: i64)
        requires
            frame.ok(),
            old(self).table.ok(),
        ensures
            v == frame.best,
            final(self).table.ok(),
            !old(self).out_of_time ==> final(self).table@ == old(self).table@.insert(
                (*g, depth),
                stored(*frame),
            ),
            final(self).table@ == (if old(self).out_of_time {
                old(self).table@
            } else {
                old(self).table@.insert(
                    (*g, depth),
                    Entry {
                        value: frame.best,
                        bound: if frame.best <= frame.alpha0 {
                            Bound::Upper
                        } else if frame.best >= frame.beta0 {
                            Bound::Lower
                        } else {
                            Bound::Exact
                        },
                    },
                )
            }),
            final(self).cfg == old(self).cfg,
            final(self).root == old(self).root,
            final(self).stats == old(self).stats,
            final(self).out_of_time == old(self).out_of_time,
    {
        if !self.out_of_time {
            let e = frame.close();
            self.table.insert(g, depth, e);
        }
        frame.best
    }
}

} // verus!
