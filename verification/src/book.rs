//! The rulebook: card definitions, temple heights and the pruning level that
//! move generation runs at.

use crate::effect::Effect;
use crate::ids::{BuildingId, Bundle, MonumentId, Science};
use crate::legal::effect_exists;
use vstd::prelude::*;

verus! {

/// What a building hands over when it is built.
pub enum Payoff {
    /// Exactly these effects.
    Fixed(Vec<Effect>),
    /// One free advance on a named track, then these effects.
    FreeTrack(Science, Vec<Effect>),
    /// Free advances on any tracks, then these effects.
    FreeAny(u8, Vec<Effect>),
    /// A second building, and a step on a temple with it.
    BuildAnother,
    /// A corn exchange, then these effects.
    CornExchange(Vec<Effect>),
    /// An action of another gear for one corn, then these effects.
    Mirror(Vec<Effect>),
}

/// Whether every effect of a list names a space or a card that exists.
pub open spec fn effects_ok(s: Seq<Effect>) -> bool {
    forall|i: int| 0 <= i < s.len() ==> (#[trigger] s[i]).ok()
}

impl Payoff {
    /// Whether every effect the payoff carries names something that exists.
    pub open spec fn ok(self) -> bool {
        match self {
            Payoff::Fixed(v) => effects_ok(v@),
            Payoff::FreeTrack(_, v) => effects_ok(v@),
            Payoff::FreeAny(n, v) => n <= 4 && effects_ok(v@),
            Payoff::BuildAnother => true,
            Payoff::CornExchange(v) => effects_ok(v@),
            Payoff::Mirror(v) => effects_ok(v@),
        }
    }
}

/// A building card.
pub struct BuildingDef {
    pub cost: Bundle,
    pub payoff: Payoff,
}

/// A monument card.
pub struct MonumentDef {
    pub cost: Bundle,
}

/// Everything generation reads that is not on the table.
pub struct Rulebook {
    /// The thirty-two building cards, card `id` at `id - 1`.
    pub buildings: Vec<BuildingDef>,
    /// The thirteen monument cards, card `id` at `id - 1`.
    pub monuments: Vec<MonumentDef>,
    /// The top step of each temple.
    pub tops: [u8; 3],
    /// How hard generation prunes: 0 keeps everything, 1 prices corn alone,
    /// 2 prices everything liquid.
    pub prune: u8,
}

/// Whether a card cost is a bundle of blocks: no negative entries, no skulls
/// owed below zero, and small enough to add up in a byte.
pub open spec fn cost_ok(c: Bundle) -> bool {
    forall|i: int| 0 <= i < 4 ==> 0 <= #[trigger] c[i] <= 30
}

fn cost_is_sound(c: Bundle) -> (b: bool)
    ensures
        b == cost_ok(c),
{
    let mut i: usize = 0;
    while i < 4
        invariant
            i <= 4,
            forall|j: int| 0 <= j < i ==> 0 <= #[trigger] c[j] <= 30,
        decreases 4 - i,
    {
        if c[i] < 0 || c[i] > 30 {
            assert(!(0 <= c[i as int] <= 30));
            return false;
        }
        i += 1;
    }
    true
}

fn effects_are_sound(v: &Vec<Effect>) -> (b: bool)
    ensures
        b == effects_ok(v@),
{
    let mut i: usize = 0;
    while i < v.len()
        invariant
            i <= v@.len(),
            forall|j: int| 0 <= j < i ==> (#[trigger] v@[j]).ok(),
        decreases v@.len() - i,
    {
        if !effect_exists(v[i]) {
            assert(!v@[i as int].ok());
            return false;
        }
        i += 1;
    }
    true
}

impl Payoff {
    fn is_sound(&self) -> (b: bool)
        ensures
            b == self.ok(),
    {
        match self {
            Payoff::Fixed(v) => effects_are_sound(v),
            Payoff::FreeTrack(_, v) => effects_are_sound(v),
            Payoff::FreeAny(n, v) => *n <= 4 && effects_are_sound(v),
            Payoff::BuildAnother => true,
            Payoff::CornExchange(v) => effects_are_sound(v),
            Payoff::Mirror(v) => effects_are_sound(v),
        }
    }
}

impl Rulebook {
    /// Whether the book defines every card, with costs that can be paid.
    pub open spec fn ok(self) -> bool {
        &&& self.buildings@.len() == 32
        &&& self.monuments@.len() == 13
        &&& forall|i: int|
            0 <= i < 32 ==> cost_ok((#[trigger] self.buildings@[i]).cost)
                && self.buildings@[i].payoff.ok()
        &&& forall|i: int| 0 <= i < 13 ==> cost_ok((#[trigger] self.monuments@[i]).cost)
    }

    /// Whether the book defines every card, with costs that can be paid.
    pub fn is_sound(&self) -> (b: bool)
        ensures
            b == self.ok(),
    {
        if self.buildings.len() != 32 || self.monuments.len() != 13 {
            return false;
        }
        let mut i: usize = 0;
        while i < 32
            invariant
                i <= 32,
                self.buildings@.len() == 32,
                forall|j: int|
                    0 <= j < i ==> cost_ok((#[trigger] self.buildings@[j]).cost)
                        && self.buildings@[j].payoff.ok(),
            decreases 32 - i,
        {
            let d = &self.buildings[i];
            assert(*d == self.buildings@[i as int]);
            if !cost_is_sound(d.cost) || !d.payoff.is_sound() {
                return false;
            }
            i += 1;
        }
        let mut k: usize = 0;
        while k < 13
            invariant
                k <= 13,
                self.monuments@.len() == 13,
                forall|j: int| 0 <= j < k ==> cost_ok((#[trigger] self.monuments@[j]).cost),
            decreases 13 - k,
        {
            let d = &self.monuments[k];
            assert(*d == self.monuments@[k as int]);
            if !cost_is_sound(d.cost) {
                return false;
            }
            k += 1;
        }
        true
    }

    /// A building's definition.
    pub open spec fn bdef(self, id: BuildingId) -> BuildingDef {
        self.buildings@[id.0 - 1]
    }

    /// A monument's definition.
    pub open spec fn mdef(self, id: MonumentId) -> MonumentDef {
        self.monuments@[id.0 - 1]
    }

    /// A building's definition.
    pub fn building(&self, id: BuildingId) -> (d: &BuildingDef)
        requires
            self.ok(),
            id.ok(),
        ensures
            *d == self.bdef(id),
            cost_ok(d.cost),
            d.payoff.ok(),
    {
        &self.buildings[id.0 as usize - 1]
    }

    /// A monument's definition.
    pub fn monument(&self, id: MonumentId) -> (d: &MonumentDef)
        requires
            self.ok(),
            id.ok(),
        ensures
            *d == self.mdef(id),
            cost_ok(d.cost),
    {
        &self.monuments[id.0 as usize - 1]
    }
}

} // verus!
