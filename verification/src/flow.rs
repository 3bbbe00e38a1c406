//! The flow of a game: whose turn it is, when a round closes, how many days the
//! calendar moves, and when the game is given up as broken.

use crate::ids::PlayerId;
use vstd::prelude::*;

verus! {

/// What happens next in a game.
#[derive(Clone, Copy, PartialEq, Eq, Debug, Structural)]
pub enum Act {
    /// A seat takes its turn.
    Turn(PlayerId),
    /// The first-player space is resolved.
    Resolve,
    /// A seat that may take the extra day is asked.
    Ask(PlayerId),
    /// The calendar moves so many days, in one go: a food day passed over
    /// resolves on the round landed on.
    Advance(u8),
    /// The game has ended.
    Finish,
}

/// Rounds after which a game is given up.
pub const MOST_ROUNDS: u32 = 200;

/// Where a game stands between one act and the next.
#[derive(Clone, Copy, PartialEq, Eq, Debug, Structural)]
pub struct Flow {
    pub act: Act,
    /// Who began the round.
    pub first: PlayerId,
    /// Turns the round still has.
    pub left: u8,
    pub rounds: u32,
    /// Whether the game was given up.
    pub aborted: bool,
}

/// Where a game stands once a turn was taken.
pub open spec fn turn_taken(f: Flow) -> Flow {
    Flow {
        act: if f.left <= 1 {
            Act::Resolve
        } else {
            Act::Turn(PlayerId(((f.first.0 + 5 - f.left) % 4) as u8))
        },
        left: (f.left - 1) as u8,
        ..f
    }
}

/// Where a game stands once the first-player space was resolved.
pub open spec fn space_resolved(f: Flow, claimer: Option<PlayerId>) -> Flow {
    Flow {
        act: match claimer {
            Some(p) => Act::Ask(p),
            None => Act::Advance(1),
        },
        ..f
    }
}

/// Where a game stands once the seat that was asked has answered.
pub open spec fn day_answered(f: Flow, take: bool) -> Flow {
    Flow {
        act: Act::Advance(
            if take {
                2
            } else {
                1
            },
        ),
        ..f
    }
}

/// Where a game stands once the calendar has moved.
pub open spec fn calendar_moved(f: Flow, over: bool, first: PlayerId) -> Flow {
    Flow {
        act: if over || f.rounds >= MOST_ROUNDS {
            Act::Finish
        } else {
            Act::Turn(first)
        },
        first,
        left: 4,
        rounds: (f.rounds + 1) as u32,
        aborted: f.rounds >= MOST_ROUNDS,
    }
}

impl Flow {
    /// What holds throughout: turns go round the table from the seat that began
    /// the round, and no game runs longer than it may.
    pub open spec fn ok(self) -> bool {
        &&& self.first.ok()
        &&& self.left <= 4
        &&& self.rounds <= MOST_ROUNDS + 1
        &&& self.rounds == MOST_ROUNDS + 1 ==> self.act is Finish
        &&& self.aborted <==> self.rounds == MOST_ROUNDS + 1
        &&& match self.act {
            Act::Turn(p) => 1 <= self.left && p.ok() && p.0 == (self.first.0 + 4 - self.left) % 4,
            Act::Ask(p) => p.ok() && self.left == 0,
            Act::Advance(d) => (d == 1 || d == 2) && self.left == 0,
            Act::Resolve => self.left == 0,
            Act::Finish => true,
        }
    }

    /// The start of a game.
    pub fn start(over: bool, first: PlayerId) -> (f: Flow)
        requires
            first.ok(),
        ensures
            f.ok(),
            f.rounds == 0,
            f.first == first,
            f.left == 4,
            f.act == (if over {
                Act::Finish
            } else {
                Act::Turn(first)
            }),
    {
        Flow {
            act: if over {
                Act::Finish
            } else {
                Act::Turn(first)
            },
            first,
            left: 4,
            rounds: 0,
            aborted: false,
        }
    }

    /// A turn was taken: the next seat's, or the end of the round.
    pub fn played(self) -> (f: Flow)
        requires
            self.ok(),
            self.act is Turn,
        ensures
            f.ok(),
            f.left == self.left - 1,
            f.first == self.first,
            f.rounds == self.rounds,
            f == turn_taken(self),
            self.left == 1 ==> f.act is Resolve,
            self.left > 1 ==> f.act == Act::Turn(PlayerId(((self.first.0 + 5 - self.left) % 4) as u8)),
    {
        let left: u8 = self.left - 1;
        let act = if left == 0 {
            Act::Resolve
        } else {
            Act::Turn(PlayerId((self.first.0 + 4 - left) % 4))
        };
        Flow { act, left, ..self }
    }

    /// The first-player space was resolved, `claimer` being a seat that claimed
    /// it and may take the extra day.
    pub fn resolved(self, claimer: Option<PlayerId>) -> (f: Flow)
        requires
            self.ok(),
            self.act is Resolve,
            claimer matches Some(p) ==> p.ok(),
        ensures
            f.ok(),
            f == space_resolved(self, claimer),
            f.act == (match claimer {
                Some(p) => Act::Ask(p),
                None => Act::Advance(1),
            }),
            f.first == self.first,
            f.rounds == self.rounds,
    {
        let act = match claimer {
            Some(p) => Act::Ask(p),
            None => Act::Advance(1),
        };
        Flow { act, ..self }
    }

    /// The seat that was asked has answered.
    pub fn answered(self, take: bool) -> (f: Flow)
        requires
            self.ok(),
            self.act is Ask,
        ensures
            f.ok(),
            f == day_answered(self, take),
            f.act == Act::Advance(
                if take {
                    2
                } else {
                    1
                },
            ),
            f.first == self.first,
            f.rounds == self.rounds,
    {
        Flow {
            act: Act::Advance(
                if take {
                    2
                } else {
                    1
                },
            ),
            ..self
        }
    }

    /// The calendar has moved. The next round begins with `first`, unless the
    /// game is over or has run too long.
    pub fn advanced(self, over: bool, first: PlayerId) -> (f: Flow)
        requires
            self.ok(),
            self.act is Advance,
            first.ok(),
        ensures
            f.ok(),
            f == calendar_moved(self, over, first),
            f.rounds == self.rounds + 1,
            f.aborted <==> self.rounds == MOST_ROUNDS,
            f.act == (if over || self.rounds == MOST_ROUNDS {
                Act::Finish
            } else {
                Act::Turn(first)
            }),
            f.first == first,
            f.left == 4,
    {
        let rounds: u32 = self.rounds + 1;
        let aborted = rounds > MOST_ROUNDS;
        Flow {
            act: if over || aborted {
                Act::Finish
            } else {
                Act::Turn(first)
            },
            first,
            left: 4,
            rounds,
            aborted,
        }
    }
}

/// A round that begins with a seat goes round the table from it, a turn for each of
/// the four, and then closes.
pub proof fn rounds_go_round_the_table(f: Flow)
    requires
        f.ok(),
        f.act == Act::Turn(f.first),
        f.left == 4,
    ensures
        ({
            let a = turn_taken(f);
            let b = turn_taken(a);
            let c = turn_taken(b);
            let d = turn_taken(c);
            &&& a.act matches Act::Turn(p) && p.0 == (f.first.0 + 1) % 4
            &&& b.act matches Act::Turn(p) && p.0 == (f.first.0 + 2) % 4
            &&& c.act matches Act::Turn(p) && p.0 == (f.first.0 + 3) % 4
            &&& d.act is Resolve
            &&& d.rounds == f.rounds && d.first == f.first && d.left == 0
            &&& a.left == 3 && b.left == 2 && c.left == 1
        }),
{
}

/// Between two rounds the calendar moves one day, and two only where a seat that
/// claimed the first-player space was asked and took the extra one.
pub proof fn only_the_claimer_adds_a_day(f: Flow, claimer: Option<PlayerId>, take: bool)
    requires
        f.ok(),
        f.act is Resolve,
    ensures
        ({
            let asked = space_resolved(f, claimer);
            &&& claimer is None ==> asked.act == Act::Advance(1u8)
            &&& claimer matches Some(p) ==> asked.act == Act::Ask(p)
            &&& take ==> day_answered(asked, take).act == Act::Advance(2u8)
            &&& !take ==> day_answered(asked, take).act == Act::Advance(1u8)
            &&& asked.rounds == f.rounds && asked.first == f.first
        }),
{
}

/// Once the calendar has moved the next round begins with its first seat, unless
/// the game is over or two hundred rounds have been played; a game is given up in
/// that last case alone.
pub proof fn games_end_or_go_on(f: Flow, over: bool, first: PlayerId)
    requires
        f.ok(),
        f.act is Advance,
    ensures
        ({
            let n = calendar_moved(f, over, first);
            &&& n.act is Finish <==> over || f.rounds == 200
            &&& !(n.act is Finish) ==> n.act == Act::Turn(first) && n.first == first && n.left == 4
            &&& n.rounds == f.rounds + 1
            &&& n.aborted <==> f.rounds == 200
        }),
{
}

/// In a round every seat takes exactly one turn: the `k`-th is taken by the seat
/// `k` places round from the first.
pub proof fn every_seat_moves_once_a_round(first: PlayerId, seat: PlayerId)
    requires
        first.ok(),
        seat.ok(),
    ensures
        exists|k: int| 0 <= k < 4 && (#[trigger] (first.0 + k)) % 4 == seat.0,
        forall|i: int, j: int|
            0 <= i < j < 4 ==> (#[trigger] (first.0 + i)) % 4 != (#[trigger] (first.0 + j)) % 4,
{
    let k = (seat.0 + 4 - first.0) % 4;
    assert((first.0 + k) % 4 == seat.0);
}

} // verus!
