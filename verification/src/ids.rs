//! The names of things: players, workers, gears, temples, tracks and cards.
//!
//! Every identifier is a small `Copy` value, so a position is plain data and a
//! probe of it is a copy.

use vstd::prelude::*;

verus! {

/// Seats at the table.
pub const N_PLAYERS: usize = 4;

/// Workers on the table, six to a seat.
pub const N_WORKERS: usize = 24;

/// Workers of one seat.
pub const WORKERS_EACH: usize = 6;

/// Spaces on the longest gear.
pub const MAX_GEAR_SPACES: usize = 11;

/// Cards face up in each of the two displays.
pub const N_DISPLAY: usize = 6;

/// A bundle of the four resources, in `Resource` order.
pub type Bundle = [i8; 4];

/// The bundle that moves nothing.
pub open spec fn empty_bundle() -> Bundle {
    [0i8, 0i8, 0i8, 0i8]
}

/// A seat, `0..N_PLAYERS`.
#[derive(Clone, Copy, PartialEq, Eq, PartialOrd, Ord, Hash, Debug, Structural)]
pub struct PlayerId(pub u8);

impl PlayerId {
    /// Whether this names a seat.
    pub open spec fn ok(self) -> bool {
        self.0 < 4
    }

    /// The seat as an array index.
    pub fn idx(self) -> (i: usize)
        ensures
            i == self.0,
    {
        self.0 as usize
    }

    /// The seat `k` places further round the table.
    pub fn next(self, k: u8) -> (q: PlayerId)
        requires
            self.ok(),
            k < 4,
        ensures
            q.ok(),
            q.0 as int == (self.0 + k) % 4,
    {
        PlayerId((self.0 + k) % 4)
    }
}

/// A worker, `0..N_WORKERS`; seat `s` owns workers `6s..6s+6`.
#[derive(Clone, Copy, PartialEq, Eq, PartialOrd, Ord, Hash, Debug, Structural)]
pub struct WorkerId(pub u8);

impl WorkerId {
    /// Whether this names a worker.
    pub open spec fn ok(self) -> bool {
        self.0 < 24
    }
}

/// A space on a gear, counted from the entry space.
#[derive(Clone, Copy, PartialEq, Eq, PartialOrd, Ord, Hash, Debug, Structural)]
pub struct Pos(pub u8);

impl Pos {
    /// The space as an array index.
    pub fn idx(self) -> (i: usize)
        ensures
            i == self.0,
    {
        self.0 as usize
    }
}

/// A building card, numbered from one.
#[derive(Clone, Copy, PartialEq, Eq, PartialOrd, Ord, Hash, Debug, Structural)]
pub struct BuildingId(pub u8);

impl BuildingId {
    /// Whether this names one of the thirty-two building cards.
    pub open spec fn ok(self) -> bool {
        1 <= self.0 <= 32
    }
}

/// A monument card, numbered from one.
#[derive(Clone, Copy, PartialEq, Eq, PartialOrd, Ord, Hash, Debug, Structural)]
pub struct MonumentId(pub u8);

impl MonumentId {
    /// Whether this names one of the thirteen monument cards.
    pub open spec fn ok(self) -> bool {
        1 <= self.0 <= 13
    }
}

/// The five gears, in board order.
#[derive(Clone, Copy, PartialEq, Eq, PartialOrd, Ord, Hash, Debug, Structural)]
pub enum Gear {
    Palenque,
    Yaxchilan,
    Tikal,
    Uxmal,
    Chichen,
}

impl Gear {
    /// Where the gear stands in board order.
    pub open spec fn rank(self) -> int {
        match self {
            Gear::Palenque => 0,
            Gear::Yaxchilan => 1,
            Gear::Tikal => 2,
            Gear::Uxmal => 3,
            Gear::Chichen => 4,
        }
    }

    /// The gear at a place in board order.
    pub open spec fn at(i: int) -> Gear {
        if i == 0 {
            Gear::Palenque
        } else if i == 1 {
            Gear::Yaxchilan
        } else if i == 2 {
            Gear::Tikal
        } else if i == 3 {
            Gear::Uxmal
        } else {
            Gear::Chichen
        }
    }

    /// How many spaces the gear has: eight on the small gears, eleven on
    /// Chichen Itza.
    pub open spec fn spaces(self) -> int {
        match self {
            Gear::Chichen => 11,
            _ => 8,
        }
    }

    /// The gear as an array index.
    pub fn idx(self) -> (i: usize)
        ensures
            i == self.rank(),
            i < 5,
    {
        match self {
            Gear::Palenque => 0,
            Gear::Yaxchilan => 1,
            Gear::Tikal => 2,
            Gear::Uxmal => 3,
            Gear::Chichen => 4,
        }
    }

    /// The gear with a given array index; anything past the end is Chichen
    /// Itza.
    pub fn from_idx(i: usize) -> (g: Gear)
        ensures
            g == Gear::at(i as int),
    {
        match i {
            0 => Gear::Palenque,
            1 => Gear::Yaxchilan,
            2 => Gear::Tikal,
            3 => Gear::Uxmal,
            _ => Gear::Chichen,
        }
    }

    /// How many spaces the gear has.
    pub fn size(self) -> (n: u8)
        ensures
            n == self.spaces(),
    {
        match self {
            Gear::Chichen => 11,
            _ => 8,
        }
    }

    /// The gear's name as it appears in a move log.
    pub fn name(self) -> (s: &'static str)
        ensures
            s@ == self.label(),
    {
        match self {
            Gear::Palenque => "Palenque",
            Gear::Yaxchilan => "Yaxchilan",
            Gear::Tikal => "Tikal",
            Gear::Uxmal => "Uxmal",
            Gear::Chichen => "Chichen",
        }
    }

    /// The characters of the gear's name.
    pub open spec fn label(self) -> Seq<char> {
        match self {
            Gear::Palenque => "Palenque"@,
            Gear::Yaxchilan => "Yaxchilan"@,
            Gear::Tikal => "Tikal"@,
            Gear::Uxmal => "Uxmal"@,
            Gear::Chichen => "Chichen"@,
        }
    }
}

/// The three temples.
#[derive(Clone, Copy, PartialEq, Eq, PartialOrd, Ord, Hash, Debug, Structural)]
pub enum Temple {
    Brown,
    Yellow,
    Green,
}

impl Temple {
    /// Where the temple stands in the fixed order brown, yellow, green.
    pub open spec fn rank(self) -> int {
        match self {
            Temple::Brown => 0,
            Temple::Yellow => 1,
            Temple::Green => 2,
        }
    }

    /// The temple at a place in that order.
    pub open spec fn at(i: int) -> Temple {
        if i == 0 {
            Temple::Brown
        } else if i == 1 {
            Temple::Yellow
        } else {
            Temple::Green
        }
    }

    /// The temple as an array index.
    pub fn idx(self) -> (i: usize)
        ensures
            i == self.rank(),
            i < 3,
    {
        match self {
            Temple::Brown => 0,
            Temple::Yellow => 1,
            Temple::Green => 2,
        }
    }

    /// The temple with a given array index; anything past the end is green.
    pub fn from_idx(i: usize) -> (t: Temple)
        ensures
            t == Temple::at(i as int),
    {
        match i {
            0 => Temple::Brown,
            1 => Temple::Yellow,
            _ => Temple::Green,
        }
    }
}

/// The four science tracks.
#[derive(Clone, Copy, PartialEq, Eq, PartialOrd, Ord, Hash, Debug, Structural)]
pub enum Science {
    Agriculture,
    Extraction,
    Architecture,
    Theology,
}

impl Science {
    /// Where the track stands in the fixed order.
    pub open spec fn rank(self) -> int {
        match self {
            Science::Agriculture => 0,
            Science::Extraction => 1,
            Science::Architecture => 2,
            Science::Theology => 3,
        }
    }

    /// The track at a place in that order.
    pub open spec fn at(i: int) -> Science {
        if i == 0 {
            Science::Agriculture
        } else if i == 1 {
            Science::Extraction
        } else if i == 2 {
            Science::Architecture
        } else {
            Science::Theology
        }
    }

    /// The track as an array index.
    pub fn idx(self) -> (i: usize)
        ensures
            i == self.rank(),
            i < 4,
    {
        match self {
            Science::Agriculture => 0,
            Science::Extraction => 1,
            Science::Architecture => 2,
            Science::Theology => 3,
        }
    }

    /// The track with a given array index; anything past the end is theology.
    pub fn from_idx(i: usize) -> (s: Science)
        ensures
            s == Science::at(i as int),
    {
        match i {
            0 => Science::Agriculture,
            1 => Science::Extraction,
            2 => Science::Architecture,
            _ => Science::Theology,
        }
    }
}

/// The three building blocks and the skull.
#[derive(Clone, Copy, PartialEq, Eq, PartialOrd, Ord, Hash, Debug, Structural)]
pub enum Resource {
    Wood,
    Stone,
    Gold,
    Skull,
}

impl Resource {
    /// Where the resource stands in the fixed order wood, stone, gold, skull.
    pub open spec fn rank(self) -> int {
        match self {
            Resource::Wood => 0,
            Resource::Stone => 1,
            Resource::Gold => 2,
            Resource::Skull => 3,
        }
    }

    /// The resource at a place in that order; the first three are the blocks.
    pub open spec fn at(i: int) -> Resource {
        if i == 0 {
            Resource::Wood
        } else if i == 1 {
            Resource::Stone
        } else if i == 2 {
            Resource::Gold
        } else {
            Resource::Skull
        }
    }

    /// The resource as an array index.
    pub fn idx(self) -> (i: usize)
        ensures
            i == self.rank(),
            i < 4,
    {
        match self {
            Resource::Wood => 0,
            Resource::Stone => 1,
            Resource::Gold => 2,
            Resource::Skull => 3,
        }
    }

    /// The resource with a given array index; anything past the end is a skull.
    pub fn from_idx(i: usize) -> (r: Resource)
        ensures
            r == Resource::at(i as int),
    {
        match i {
            0 => Resource::Wood,
            1 => Resource::Stone,
            2 => Resource::Gold,
            _ => Resource::Skull,
        }
    }
}

/// Player colours; two of them also name the corn spaces.
#[derive(Clone, Copy, PartialEq, Eq, PartialOrd, Ord, Hash, Debug, Structural)]
pub enum Color {
    Red,
    Green,
    Blue,
    Yellow,
}

/// The two kinds of Palenque tile.
#[derive(Clone, Copy, PartialEq, Eq, PartialOrd, Ord, Hash, Debug, Structural)]
pub enum TileKind {
    Corn,
    Wood,
}

} // verus!
