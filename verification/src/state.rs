//! The position: everything on the table, as one `Copy` value.

use crate::book::Rulebook;
use crate::ids::{
    BuildingId, Color, Gear, MonumentId, PlayerId, Pos, Resource, Science, Temple, WorkerId,
};
use vstd::array::spec_array_update;
use vstd::prelude::*;

verus! {

/// The mark of a space that holds no worker.
pub const NO_WORKER: u8 = 255;

/// One seat's holdings.
#[derive(Clone, Copy, PartialEq, Eq, Hash, Debug)]
pub struct Player {
    pub color: Color,
    pub corn: u8,
    /// Wood, stone, gold, skull.
    pub res: [u8; 4],
    pub points: i16,
    pub corn_tiles: u8,
    pub wood_tiles: u8,
    pub free_workers: u8,
    pub worker_discount: u8,
    pub may_skip_day: bool,
    /// Owned buildings, bit `id - 1`.
    pub buildings: u32,
    /// Owned monuments, bit `id - 1`.
    pub monuments: u16,
}

impl Player {
    /// How much of a resource the seat holds.
    pub fn get(&self, r: Resource) -> (n: u8)
        ensures
            n == self.res[r.rank()],
    {
        self.res[r.idx()]
    }

    /// Whether the seat holds a bundle's worth of each resource.
    pub open spec fn pays(self, cost: [i8; 4]) -> bool {
        forall|i: int| 0 <= i < 4 ==> cost[i] <= self.res[i]
    }

    /// Whether the seat can pay a bundle.
    pub fn can_pay(&self, cost: [i8; 4]) -> (b: bool)
        ensures
            b == self.pays(cost),
    {
        let mut i: usize = 0;
        while i < 4
            invariant
                i <= 4,
                forall|j: int| 0 <= j < i ==> cost[j] <= self.res[j],
            decreases 4 - i,
        {
            if cost[i] as i16 > self.res[i] as i16 {
                return false;
            }
            i += 1;
        }
        true
    }
}

/// Where a worker is.
#[derive(Clone, Copy, PartialEq, Eq, Hash, Debug, Structural)]
pub enum WorkerLoc {
    Locked,
    Available,
    OnGear { gear: Gear, pos: Pos },
    FirstPlayerSpace,
}

impl WorkerLoc {
    /// The gear space the worker stands on, if it stands on one.
    pub fn on_board(self) -> (at: Option<(Gear, Pos)>)
        ensures
            at == self.space(),
    {
        match self {
            WorkerLoc::OnGear { gear, pos } => Some((gear, pos)),
            _ => None,
        }
    }

    /// The gear space the worker stands on, if it stands on one.
    pub open spec fn space(self) -> Option<(Gear, Pos)> {
        match self {
            WorkerLoc::OnGear { gear, pos } => Some((gear, pos)),
            _ => None,
        }
    }

    /// Whether a space named here exists on its gear.
    pub open spec fn ok(self) -> bool {
        match self {
            WorkerLoc::OnGear { gear, pos } => pos.0 < gear.spaces(),
            _ => true,
        }
    }
}

/// Which worker stands on each space of a gear.
#[derive(Clone, Copy, PartialEq, Eq, Hash, Debug)]
pub struct GearState {
    pub occ: [u8; 11],
}

/// The tiles left on one Palenque space.
#[derive(Clone, Copy, PartialEq, Eq, Hash, Debug, Structural)]
pub struct TileStack {
    pub corn: u8,
    pub wood: u8,
}

impl TileStack {
    /// Whether a corn tile lies uncovered.
    pub open spec fn shows_corn(self) -> bool {
        self.corn > self.wood
    }

    /// Whether a corn tile lies uncovered.
    pub fn corn_showing(self) -> (b: bool)
        ensures
            b == self.shows_corn(),
    {
        self.corn > self.wood
    }
}

/// A shuffled deck and how far it has been drawn.
#[derive(Clone, Copy, PartialEq, Eq, Hash, Debug)]
pub struct Deck<const N: usize> {
    pub ids: [u8; N],
    pub next: u8,
}

/// The whole position.
#[derive(Clone, Copy, PartialEq, Eq, Hash, Debug)]
pub struct GameState {
    pub players: [Player; 4],
    pub workers: [WorkerLoc; 24],
    pub gears: [GearState; 5],
    /// Steps climbed, by temple and then seat.
    pub temples: [[u8; 4]; 3],
    /// Research levels, by seat and then track.
    pub research: [[u8; 4]; 4],
    pub palenque: [TileStack; 8],
    /// Chichen Itza spaces that hold a skull, bit `pos`.
    pub chichen_filled: u16,
    pub age1: Deck<14>,
    pub age2: Deck<18>,
    pub monument_deck: Deck<13>,
    pub buildings_up: [Option<BuildingId>; 6],
    pub monuments_up: [Option<MonumentId>; 6],
    pub first_player_space: Option<WorkerId>,
    pub accumulated_corn: u8,
    pub skulls_remaining: u8,
    pub current: PlayerId,
    pub first_player: PlayerId,
    pub age: u8,
    pub day: u8,
    pub over: bool,
}

/// A position with one seat's holdings replaced.
pub open spec fn set_player(g: GameState, p: PlayerId, pl: Player) -> GameState {
    GameState { players: spec_array_update(g.players, p.0 as int, pl), ..g }
}

/// A position with one worker moved.
pub open spec fn set_worker(g: GameState, w: WorkerId, loc: WorkerLoc) -> GameState {
    GameState { workers: spec_array_update(g.workers, w.0 as int, loc), ..g }
}

/// A position with one gear space marked.
pub open spec fn set_space(g: GameState, gear: Gear, pos: Pos, mark: u8) -> GameState {
    let row = g.gears[gear.rank()];
    GameState {
        gears: spec_array_update(
            g.gears,
            gear.rank(),
            GearState { occ: spec_array_update(row.occ, pos.0 as int, mark) },
        ),
        ..g
    }
}

/// A position after a worker is put on a gear space.
pub open spec fn placed(g: GameState, w: WorkerId, gear: Gear, pos: Pos) -> GameState {
    set_space(set_worker(g, w, WorkerLoc::OnGear { gear, pos }), gear, pos, w.0)
}

/// A position after a worker claims the first player space.
pub open spec fn placed_first(g: GameState, w: WorkerId) -> GameState {
    GameState {
        first_player_space: Some(w),
        ..set_worker(g, w, WorkerLoc::FirstPlayerSpace)
    }
}

/// A position after a worker comes back to hand, freeing its gear space.
pub open spec fn retrieved(g: GameState, w: WorkerId) -> GameState {
    match g.workers[w.0 as int] {
        WorkerLoc::OnGear { gear, pos } => set_space(
            set_worker(g, w, WorkerLoc::Available),
            gear,
            pos,
            NO_WORKER,
        ),
        _ => set_worker(g, w, WorkerLoc::Available),
    }
}

/// Whether some other seat stands on the top step of a temple.
pub open spec fn top_taken(rules: Rulebook, g: GameState, p: PlayerId, t: Temple) -> bool {
    exists|q: int|
        0 <= q < 4 && q != p.0 && (#[trigger] g.temples[t.rank()][q]) >= rules.tops[t.rank()]
}

/// Where a seat stands on a temple after moving `d` steps: never below the
/// bottom, never past the top, and never onto a top step someone else holds.
pub open spec fn temple_after(
    rules: Rulebook,
    g: GameState,
    p: PlayerId,
    t: Temple,
    d: int,
) -> int {
    let at = g.temples[t.rank()][p.0 as int] as int;
    let top = rules.tops[t.rank()] as int;
    let high = if top_taken(rules, g, p, t) {
        top - 1
    } else {
        top
    };
    if d < 0 {
        if at + d < 0 {
            0
        } else {
            at + d
        }
    } else if at + d <= high {
        at + d
    } else if at <= high {
        high
    } else {
        at
    }
}

/// Whether a seat can move the whole of `d` steps on a temple.
pub open spec fn can_step(rules: Rulebook, g: GameState, p: PlayerId, t: Temple, d: int) -> bool {
    temple_after(rules, g, p, t, d) == g.temples[t.rank()][p.0 as int] + d
}

/// A position after a seat moves `d` steps on a temple.
pub open spec fn temple_stepped(
    rules: Rulebook,
    g: GameState,
    p: PlayerId,
    t: Temple,
    d: int,
) -> GameState {
    let row = g.temples[t.rank()];
    GameState {
        temples: spec_array_update(
            g.temples,
            t.rank(),
            spec_array_update(row, p.0 as int, temple_after(rules, g, p, t, d) as u8),
        ),
        ..g
    }
}

/// The workers of a seat whose place satisfies `f`, lowest id first, among its
/// first `k`.
pub open spec fn workers_where(
    g: GameState,
    p: PlayerId,
    f: spec_fn(WorkerLoc) -> bool,
    k: nat,
) -> Seq<WorkerId>
    decreases k,
{
    if k == 0 {
        Seq::empty()
    } else {
        let w = WorkerId((6 * p.0 + k - 1) as u8);
        let rest = workers_where(g, p, f, (k - 1) as nat);
        if f(g.workers[w.0 as int]) {
            rest.push(w)
        } else {
            rest
        }
    }
}

/// The seat's workers in hand, lowest id first.
pub open spec fn available_list(g: GameState, p: PlayerId) -> Seq<WorkerId> {
    workers_where(g, p, |l: WorkerLoc| l == WorkerLoc::Available, 6)
}

/// The seat's workers on gears, lowest id first.
pub open spec fn board_list(g: GameState, p: PlayerId) -> Seq<WorkerId> {
    workers_where(g, p, |l: WorkerLoc| l is OnGear, 6)
}

/// The lowest space of a gear, from `k` up, that holds no worker.
pub open spec fn free_from(g: GameState, gear: Gear, k: int) -> Option<Pos>
    decreases gear.spaces() - k,
{
    if k >= gear.spaces() {
        None
    } else if g.gears[gear.rank()].occ[k] == NO_WORKER {
        Some(Pos(k as u8))
    } else {
        free_from(g, gear, k + 1)
    }
}

/// The lowest space of a gear that holds no worker.
pub open spec fn lowest_free_space(g: GameState, gear: Gear) -> Option<Pos> {
    free_from(g, gear, 0)
}

/// The cards of a display from slot `k` on, empty slots skipped.
pub open spec fn shown<T>(up: Seq<Option<T>>, k: int) -> Seq<T>
    decreases up.len() - k,
{
    if k < 0 || k >= up.len() {
        Seq::empty()
    } else {
        match up[k] {
            Some(id) => seq![id] + shown(up, k + 1),
            None => shown(up, k + 1),
        }
    }
}

impl GameState {
    /// Whether every worker that stands on a gear stands on a space of it, and
    /// every face-up card exists.
    pub open spec fn ok(self) -> bool {
        &&& forall|i: int| 0 <= i < 24 ==> (#[trigger] self.workers[i]).ok()
        &&& forall|i: int|
            0 <= i < 6 ==> (#[trigger] self.buildings_up[i] matches Some(id) ==> id.ok())
        &&& forall|i: int|
            0 <= i < 6 ==> (#[trigger] self.monuments_up[i] matches Some(id) ==> id.ok())
    }

    /// Whether every worker that stands on a gear stands on a space of it, and
    /// every face-up card exists.
    pub fn is_sound(&self) -> (b: bool)
        ensures
            b == self.ok(),
    {
        let mut i: usize = 0;
        while i < 24
            invariant
                i <= 24,
                forall|j: int| 0 <= j < i ==> (#[trigger] self.workers[j]).ok(),
            decreases 24 - i,
        {
            if let WorkerLoc::OnGear { gear, pos } = self.workers[i] {
                if pos.0 >= gear.size() {
                    assert(!self.workers[i as int].ok());
                    return false;
                }
            }
            i += 1;
        }
        let mut k: usize = 0;
        while k < 6
            invariant
                k <= 6,
                forall|j: int|
                    0 <= j < k ==> (#[trigger] self.buildings_up[j] matches Some(id) ==> id.ok()),
                forall|j: int|
                    0 <= j < k ==> (#[trigger] self.monuments_up[j] matches Some(id) ==> id.ok()),
            decreases 6 - k,
        {
            if let Some(id) = self.buildings_up[k] {
                if id.0 < 1 || id.0 > 32 {
                    assert(!id.ok() && self.buildings_up[k as int] == Some(id));
                    return false;
                }
            }
            if let Some(id) = self.monuments_up[k] {
                if id.0 < 1 || id.0 > 13 {
                    assert(!id.ok() && self.monuments_up[k as int] == Some(id));
                    return false;
                }
            }
            k += 1;
        }
        true
    }

    /// A seat's level on a science track.
    pub open spec fn lvl(self, p: PlayerId, s: Science) -> u8 {
        self.research[p.0 as int][s.rank()]
    }

    /// A seat's level on a science track.
    pub fn level(&self, p: PlayerId, s: Science) -> (n: u8)
        requires
            p.ok(),
        ensures
            n == self.lvl(p, s),
    {
        self.research[p.idx()][s.idx()]
    }

    /// Whether a seat has reached a level on a science track.
    pub fn has_level(&self, p: PlayerId, s: Science, n: u8) -> (b: bool)
        requires
            p.ok(),
        ensures
            b == (self.lvl(p, s) >= n),
    {
        self.research[p.idx()][s.idx()] >= n
    }

    /// Where a worker is.
    pub fn loc(&self, w: WorkerId) -> (l: WorkerLoc)
        requires
            w.ok(),
        ensures
            l == self.workers[w.0 as int],
    {
        self.workers[w.0 as usize]
    }

    /// Steps a seat has climbed on a temple.
    pub fn temple_pos(&self, p: PlayerId, t: Temple) -> (n: u8)
        requires
            p.ok(),
        ensures
            n == self.temples[t.rank()][p.0 as int],
    {
        self.temples[t.idx()][p.idx()]
    }

    /// Where a seat would stand on a temple after moving `d` steps.
    fn temple_landing(&self, rules: &Rulebook, p: PlayerId, t: Temple, d: i8) -> (n: i16)
        requires
            p.ok(),
        ensures
            n == temple_after(*rules, *self, p, t, d as int),
            0 <= n <= 255,
    {
        let row = self.temples[t.idx()];
        let at: i16 = row[p.idx()] as i16;
        let top: i16 = rules.tops[t.idx()] as i16;
        let mut taken = false;
        let mut q: usize = 0;
        while q < 4
            invariant
                q <= 4,
                p.ok(),
                row == self.temples[t.rank()],
                top == rules.tops[t.rank()],
                taken == exists|r: int|
                    0 <= r < q && r != p.0 && (#[trigger] self.temples[t.rank()][r])
                        >= rules.tops[t.rank()],
            decreases 4 - q,
        {
            if q != p.idx() && row[q] as i16 >= top {
                taken = true;
                assert(self.temples[t.rank()][q as int] >= rules.tops[t.rank()]);
            }
            q += 1;
        }
        assert(taken == top_taken(*rules, *self, p, t));
        let high: i16 = if taken {
            top - 1
        } else {
            top
        };
        let to: i16 = at + d as i16;
        if d < 0 {
            if to < 0 {
                0
            } else {
                to
            }
        } else if to <= high {
            to
        } else if at <= high {
            high
        } else {
            at
        }
    }

    /// Whether a seat can move the whole of `d` steps on a temple.
    pub fn can_temple_step(&self, rules: &Rulebook, p: PlayerId, t: Temple, d: i8) -> (b: bool)
        requires
            p.ok(),
        ensures
            b == can_step(*rules, *self, p, t, d as int),
    {
        let to: i16 = self.temple_landing(rules, p, t, d);
        to == self.temples[t.idx()][p.idx()] as i16 + d as i16
    }

    /// Move a seat `d` steps on a temple, as far as the track allows.
    pub fn temple_step(&mut self, rules: &Rulebook, p: PlayerId, t: Temple, d: i8)
        requires
            p.ok(),
        ensures
            *final(self) == temple_stepped(*rules, *old(self), p, t, d as int),
    {
        let to: i16 = self.temple_landing(rules, p, t, d);
        self.temples[t.idx()][p.idx()] = to as u8;
        proof {
            let want = temple_stepped(*rules, *old(self), p, t, d as int);
            assert(self.temples[t.rank()] =~= want.temples[t.rank()]);
            assert(self.temples =~= want.temples);
        }
    }

    /// The seat's workers in hand, lowest id first.
    pub fn available(&self, p: PlayerId) -> (v: Vec<WorkerId>)
        requires
            p.ok(),
        ensures
            v@ == available_list(*self, p),
    {
        let ghost f = |l: WorkerLoc| l == WorkerLoc::Available;
        let mut v: Vec<WorkerId> = Vec::new();
        let mut k: u8 = 0;
        while k < 6
            invariant
                k <= 6,
                p.ok(),
                f == (|l: WorkerLoc| l == WorkerLoc::Available),
                v@ == workers_where(*self, p, f, k as nat),
            decreases 6 - k,
        {
            let w = WorkerId(6 * p.0 + k);
            match self.workers[w.0 as usize] {
                WorkerLoc::Available => v.push(w),
                _ => {},
            }
            k += 1;
        }
        v
    }

    /// The seat's workers on gears, lowest id first.
    pub fn on_board(&self, p: PlayerId) -> (v: Vec<WorkerId>)
        requires
            p.ok(),
        ensures
            v@ == board_list(*self, p),
    {
        let ghost f = |l: WorkerLoc| l is OnGear;
        let mut v: Vec<WorkerId> = Vec::new();
        let mut k: u8 = 0;
        while k < 6
            invariant
                k <= 6,
                p.ok(),
                f == (|l: WorkerLoc| l is OnGear),
                v@ == workers_where(*self, p, f, k as nat),
            decreases 6 - k,
        {
            let w = WorkerId(6 * p.0 + k);
            match self.workers[w.0 as usize] {
                WorkerLoc::OnGear { .. } => v.push(w),
                _ => {},
            }
            k += 1;
        }
        v
    }

    /// The lowest space of a gear that holds no worker.
    pub fn lowest_free(&self, gear: Gear) -> (pos: Option<Pos>)
        ensures
            pos == lowest_free_space(*self, gear),
            pos matches Some(q) ==> q.0 < gear.spaces(),
    {
        let n: u8 = gear.size();
        let mut k: u8 = 0;
        while k < n
            invariant
                k <= n,
                n == gear.spaces(),
                lowest_free_space(*self, gear) == free_from(*self, gear, k as int),
            decreases n - k,
        {
            if self.gears[gear.idx()].occ[k as usize] == NO_WORKER {
                return Some(Pos(k));
            }
            k += 1;
        }
        None
    }

    /// Whether a Chichen Itza space already holds its skull.
    pub fn chichen_is_full(&self, pos: Pos) -> (b: bool)
        requires
            pos.0 < 16,
        ensures
            b == ((self.chichen_filled >> pos.0) & 1 == 1),
    {
        (self.chichen_filled >> pos.0) & 1 == 1
    }

    /// The face-up buildings, in display order.
    pub fn face_up_buildings(&self) -> (v: Vec<BuildingId>)
        ensures
            v@ == shown(self.buildings_up@, 0),
    {
        let mut v: Vec<BuildingId> = Vec::new();
        let mut k: usize = 0;
        while k < 6
            invariant
                k <= 6,
                v@ + shown(self.buildings_up@, k as int) == shown(self.buildings_up@, 0),
            decreases 6 - k,
        {
            if let Some(id) = self.buildings_up[k] {
                proof {
                    assert(v@ + (seq![id] + shown(self.buildings_up@, k + 1)) =~= v@.push(id)
                        + shown(self.buildings_up@, k + 1));
                }
                v.push(id);
            }
            k += 1;
        }
        v
    }

    /// The face-up monuments, in display order.
    pub fn face_up_monuments(&self) -> (v: Vec<MonumentId>)
        ensures
            v@ == shown(self.monuments_up@, 0),
    {
        let mut v: Vec<MonumentId> = Vec::new();
        let mut k: usize = 0;
        while k < 6
            invariant
                k <= 6,
                v@ + shown(self.monuments_up@, k as int) == shown(self.monuments_up@, 0),
            decreases 6 - k,
        {
            if let Some(id) = self.monuments_up[k] {
                proof {
                    assert(v@ + (seq![id] + shown(self.monuments_up@, k + 1)) =~= v@.push(id)
                        + shown(self.monuments_up@, k + 1));
                }
                v.push(id);
            }
            k += 1;
        }
        v
    }

    /// Put a worker on a gear space.
    pub fn place_worker(&mut self, w: WorkerId, gear: Gear, pos: Pos)
        requires
            w.ok(),
            pos.0 < 11,
        ensures
            *final(self) == placed(*old(self), w, gear, pos),
    {
        self.workers[w.0 as usize] = WorkerLoc::OnGear { gear, pos };
        self.gears[gear.idx()].occ[pos.idx()] = w.0;
        proof {
            let want = placed(*old(self), w, gear, pos);
            assert(self.workers =~= want.workers);
            assert(self.gears[gear.rank()].occ =~= want.gears[gear.rank()].occ);
            assert(self.gears =~= want.gears);
        }
    }

    /// Put a worker on the first player space.
    pub fn place_on_first_player(&mut self, w: WorkerId)
        requires
            w.ok(),
        ensures
            *final(self) == placed_first(*old(self), w),
    {
        self.workers[w.0 as usize] = WorkerLoc::FirstPlayerSpace;
        self.first_player_space = Some(w);
        proof {
            assert(self.workers =~= placed_first(*old(self), w).workers);
        }
    }

    /// Bring a worker back to hand.
    pub fn retrieve_worker(&mut self, w: WorkerId)
        requires
            w.ok(),
            old(self).workers[w.0 as int].ok(),
        ensures
            *final(self) == retrieved(*old(self), w),
    {
        if let Some((gear, pos)) = self.workers[w.0 as usize].on_board() {
            self.gears[gear.idx()].occ[pos.idx()] = NO_WORKER;
        }
        self.workers[w.0 as usize] = WorkerLoc::Available;
        proof {
            let want = retrieved(*old(self), w);
            assert(self.workers =~= want.workers);
            if let WorkerLoc::OnGear { gear, pos } = old(self).workers[w.0 as int] {
                assert(self.gears[gear.rank()].occ =~= want.gears[gear.rank()].occ);
            }
            assert(self.gears =~= want.gears);
        }
    }
}

} // verus!
