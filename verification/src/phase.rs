//! Where in a turn a position sits.
//!
//! A turn is not one decision. Factored into a chain of them, its widest node
//! is thousands of times narrower than the flat list of moves; `Phase` names
//! where in that chain a position stands, and carries only what the edges
//! there depend on.

use crate::effect::Choice;
use crate::ids::{PlayerId, Temple, WorkerId};
use crate::moves::Placement;
use crate::state::GameState;
use vstd::prelude::*;

verus! {

/// Where in a turn a position sits. Every variant belongs to the seat to move
/// except `ExtraDay`, whose mover is the claimer named in it.
#[derive(Clone, Copy, PartialEq, Eq, Hash, Debug)]
pub enum Phase {
    /// Start of a turn: beg for corn, or don't.
    Beg,
    /// Place workers or retrieve them.
    Mode,
    /// `n` workers already placed this turn.
    Placing { n: u8 },
    /// Choosing which worker to pick up next.
    PickWorker,
    /// A worker is picked and its action not yet chosen.
    Take { worker: WorkerId },
    /// Between rounds: the claimer may advance the calendar a second day.
    ExtraDay { claimer: PlayerId },
    /// The gods take pity.
    PityPlace,
    /// Setup: two picks in sequence among the tiles dealt.
    DraftTile { dealt: [u8; 4], kept: u8 },
}

/// How many phases there are.
pub const PHASES: usize = 8;

impl Phase {
    /// Whose decision this is.
    pub open spec fn decider(self, turn: PlayerId) -> PlayerId {
        match self {
            Phase::ExtraDay { claimer } => claimer,
            _ => turn,
        }
    }

    /// The phase's dense index.
    pub open spec fn index(self) -> u8 {
        match self {
            Phase::Beg => 0,
            Phase::Mode => 1,
            Phase::Placing { .. } => 2,
            Phase::PickWorker => 3,
            Phase::Take { .. } => 4,
            Phase::ExtraDay { .. } => 5,
            Phase::PityPlace => 6,
            Phase::DraftTile { .. } => 7,
        }
    }

    /// Whose decision this is. Differs from the turn holder only between
    /// rounds.
    pub fn mover(self, turn: PlayerId) -> (p: PlayerId)
        ensures
            p == self.decider(turn),
    {
        match self {
            Phase::ExtraDay { claimer } => claimer,
            _ => turn,
        }
    }

    /// A dense index for a phase embedding.
    pub fn tag(self) -> (t: u8)
        ensures
            t == self.index(),
            t < PHASES,
    {
        match self {
            Phase::Beg => 0,
            Phase::Mode => 1,
            Phase::Placing { .. } => 2,
            Phase::PickWorker => 3,
            Phase::Take { .. } => 4,
            Phase::ExtraDay { .. } => 5,
            Phase::PityPlace => 6,
            Phase::DraftTile { .. } => 7,
        }
    }
}

/// What a turn may be spent on.
#[derive(Clone, Copy, PartialEq, Eq, Hash, Debug, Structural)]
pub enum ModeChoice {
    Place,
    Retrieve,
    Pity,
}

/// One edge out of a phase.
pub enum Step {
    Beg(Option<Temple>),
    Mode(ModeChoice),
    Place(Placement),
    StopPlacing,
    PickWorker(WorkerId),
    Take(Choice),
    StopRetrieving,
    Pity(Placement),
    ExtraDay(bool),
    DraftTile(u8),
}

/// Whether two steps do the same.
pub open spec fn same_step(a: Step, b: Step) -> bool {
    match (a, b) {
        (Step::Beg(x), Step::Beg(y)) => x == y,
        (Step::Mode(x), Step::Mode(y)) => x == y,
        (Step::Place(x), Step::Place(y)) => x == y,
        (Step::StopPlacing, Step::StopPlacing) => true,
        (Step::PickWorker(x), Step::PickWorker(y)) => x == y,
        (Step::Take(x), Step::Take(y)) => x@ == y@,
        (Step::StopRetrieving, Step::StopRetrieving) => true,
        (Step::Pity(x), Step::Pity(y)) => x == y,
        (Step::ExtraDay(x), Step::ExtraDay(y)) => x == y,
        (Step::DraftTile(x), Step::DraftTile(y)) => x == y,
        _ => false,
    }
}

impl Step {
    /// Whether two steps do the same.
    pub fn same(&self, other: &Step) -> (b: bool)
        ensures
            b == same_step(*self, *other),
    {
        match (self, other) {
            (Step::Beg(x), Step::Beg(y)) => match (x, y) {
                (Some(s), Some(t)) => *s == *t,
                (None, None) => true,
                _ => false,
            },
            (Step::Mode(x), Step::Mode(y)) => *x == *y,
            (Step::Place(x), Step::Place(y)) => *x == *y,
            (Step::StopPlacing, Step::StopPlacing) => true,
            (Step::PickWorker(x), Step::PickWorker(y)) => *x == *y,
            (Step::Take(x), Step::Take(y)) => x.same(y),
            (Step::StopRetrieving, Step::StopRetrieving) => true,
            (Step::Pity(x), Step::Pity(y)) => *x == *y,
            (Step::ExtraDay(x), Step::ExtraDay(y)) => *x == *y,
            (Step::DraftTile(x), Step::DraftTile(y)) => *x == *y,
            _ => false,
        }
    }

    /// The same step again.
    pub fn again(&self) -> (s: Step)
        ensures
            same_step(s, *self),
    {
        match self {
            Step::Beg(t) => Step::Beg(*t),
            Step::Mode(m) => Step::Mode(*m),
            Step::Place(p) => Step::Place(*p),
            Step::StopPlacing => Step::StopPlacing,
            Step::PickWorker(w) => Step::PickWorker(*w),
            Step::Take(c) => Step::Take(c.clone()),
            Step::StopRetrieving => Step::StopRetrieving,
            Step::Pity(p) => Step::Pity(*p),
            Step::ExtraDay(b) => Step::ExtraDay(*b),
            Step::DraftTile(t) => Step::DraftTile(*t),
        }
    }
}

/// One node awaiting evaluation, with the edges the search already listed.
pub struct Query<'a> {
    pub state: &'a GameState,
    pub phase: Phase,
    pub turn: PlayerId,
    pub edges: &'a [Step],
}

/// The stand-in evaluator built on the heuristic.
pub struct HeuristicEvaluator;

} // verus!
