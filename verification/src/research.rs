//! Queries over the four science tracks.
//!
//! These are read-only derivations from `GameState::research`. Every one of
//! them is asked during generation, so its answer is baked into an effect.

use crate::effect::{Effect, Effects};
use crate::ids::{Color, PlayerId, Resource, Science};
use crate::state::GameState;
use vstd::prelude::*;

verus! {

/// Extra corn on a corn space of a colour.
pub open spec fn corn_extra(g: GameState, p: PlayerId, space: Color) -> int {
    let l = g.lvl(p, Science::Agriculture);
    match space {
        Color::Blue => if l >= 2 {
            1
        } else {
            0
        },
        Color::Green => if l >= 3 {
            3
        } else if l >= 1 {
            1
        } else {
            0
        },
        _ => 0,
    }
}

/// Extra units when gathering a resource.
pub open spec fn gather_extra(g: GameState, p: PlayerId, r: Resource) -> int {
    let l = g.lvl(p, Science::Extraction);
    match r {
        Resource::Wood => if l >= 1 {
            1
        } else {
            0
        },
        Resource::Stone => if l >= 2 {
            1
        } else {
            0
        },
        Resource::Gold => if l >= 3 {
            1
        } else {
            0
        },
        Resource::Skull => 0,
    }
}

/// The bonus for constructing a building.
pub open spec fn bonus_list(g: GameState, p: PlayerId) -> Seq<Effect> {
    let l = g.lvl(p, Science::Architecture);
    (if l >= 1 {
        seq![Effect::Corn(1)]
    } else {
        Seq::<Effect>::empty()
    }) + (if l >= 2 {
        seq![Effect::Points(2)]
    } else {
        Seq::<Effect>::empty()
    })
}

impl GameState {
    /// Extra corn on a corn space, by that space's colour.
    pub fn corn_bonus(&self, p: PlayerId, space: Color) -> (n: i8)
        requires
            p.ok(),
        ensures
            n == corn_extra(*self, p, space),
            0 <= n <= 3,
    {
        match space {
            Color::Blue => if self.has_level(p, Science::Agriculture, 2) {
                1
            } else {
                0
            },
            Color::Green => {
                if self.has_level(p, Science::Agriculture, 3) {
                    3
                } else if self.has_level(p, Science::Agriculture, 1) {
                    1
                } else {
                    0
                }
            },
            _ => 0,
        }
    }

    /// Extra units when gathering a block. Skulls are never boosted.
    pub fn resource_bonus(&self, p: PlayerId, r: Resource) -> (n: i8)
        requires
            p.ok(),
        ensures
            n == gather_extra(*self, p, r),
            0 <= n <= 1,
    {
        let needed: u8 = match r {
            Resource::Wood => 1,
            Resource::Stone => 2,
            Resource::Gold => 3,
            Resource::Skull => {
                return 0;
            },
        };
        if self.has_level(p, Science::Extraction, needed) {
            1
        } else {
            0
        }
    }

    /// Take corn from Palenque even with no tiles left.
    pub fn irrigation(&self, p: PlayerId) -> (b: bool)
        requires
            p.ok(),
        ensures
            b == (self.lvl(p, Science::Agriculture) >= 2),
    {
        self.has_level(p, Science::Agriculture, 2)
    }

    /// Use the next Chichen space up when yours is taken.
    pub fn foresight(&self, p: PlayerId) -> (b: bool)
        requires
            p.ok(),
        ensures
            b == (self.lvl(p, Science::Theology) >= 1),
    {
        self.has_level(p, Science::Theology, 1)
    }

    /// Pay a block alongside a skull for an extra temple step.
    pub fn devout(&self, p: PlayerId) -> (b: bool)
        requires
            p.ok(),
        ensures
            b == (self.lvl(p, Science::Theology) >= 2),
    {
        self.has_level(p, Science::Theology, 2)
    }

    /// Build for one block less.
    pub fn builder(&self, p: PlayerId) -> (b: bool)
        requires
            p.ok(),
        ensures
            b == (self.lvl(p, Science::Architecture) >= 3),
    {
        self.has_level(p, Science::Architecture, 3)
    }

    /// The bonus for constructing a building, resolved now rather than when the
    /// building goes up.
    pub fn build_bonus(&self, p: PlayerId) -> (out: Effects)
        requires
            p.ok(),
        ensures
            out@ == bonus_list(*self, p),
    {
        let mut out = Effects::new();
        if self.has_level(p, Science::Architecture, 1) {
            out.push(Effect::Corn(1));
        }
        if self.has_level(p, Science::Architecture, 2) {
            out.push(Effect::Points(2));
        }
        assert(out@ =~= bonus_list(*self, p));
        out
    }
}

} // verus!
