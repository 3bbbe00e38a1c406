//! Effects, the resolved vocabulary of everything an action does, and choices,
//! which are lists of them.
//!
//! Every value in an effect is settled when it is generated: `Effect::Corn(7)`
//! is seven corn, not "however much the agriculture level implies".

use crate::book::{effects_ok, Rulebook};
use crate::ids::{BuildingId, MonumentId, PlayerId, Pos, Resource, Science, Temple, TileKind};
use crate::state::{set_player, temple_stepped, GameState, Player, TileStack, WorkerLoc};
use smallvec::SmallVec;
use vstd::array::spec_array_update;
use vstd::prelude::*;

verus! {

/// One resolved change to the position of the player who takes it.
#[derive(Clone, Copy, PartialEq, Eq, PartialOrd, Ord, Hash, Debug, Structural)]
pub enum Effect {
    Corn(i16),
    SetCorn(u8),
    Res(Resource, i8),
    Points(i8),
    TempleStep(Temple, i8),
    AdvanceResearch(Science),
    UnlockWorker,
    FreeWorker(i8),
    WorkerDiscount(i8),
    TakePalenqueTile(Pos, TileKind),
    BurnPalenqueWood(Pos),
    FillChichen(Pos),
    Build(BuildingId),
    TakeMonument(MonumentId),
}

impl Effect {
    /// Whether the effect names a space or a card that exists.
    pub open spec fn ok(self) -> bool {
        match self {
            Effect::TakePalenqueTile(pos, _) => pos.0 < 8,
            Effect::BurnPalenqueWood(pos) => pos.0 < 8,
            Effect::FillChichen(pos) => pos.0 < 16,
            Effect::Build(id) => id.ok(),
            Effect::TakeMonument(id) => id.ok(),
            _ => true,
        }
    }
}

/// A list of effects, held inline up to eight of them.
#[verifier::external_body]
pub struct Effects {
    inner: SmallVec<[Effect; 8]>,
}

/// What a list of effects holds, in order.
pub uninterp spec fn effect_list(e: Effects) -> Seq<Effect>;

impl View for Effects {
    type V = Seq<Effect>;

    open spec fn view(&self) -> Seq<Effect> {
        effect_list(*self)
    }
}

impl Effects {
    /// `SmallVec::new`: the empty list.
    #[verifier::external_body]
    pub(crate) fn new() -> (e: Effects)
        ensures
            effect_list(e) == Seq::<Effect>::empty(),
    {
        Effects { inner: SmallVec::new() }
    }

    /// `SmallVec::len`: how many effects the list holds.
    #[verifier::external_body]
    pub(crate) fn len(&self) -> (n: usize)
        ensures
            n == effect_list(*self).len(),
    {
        self.inner.len()
    }

    /// `SmallVec::push`: the list with one more effect at its end.
    #[verifier::external_body]
    pub(crate) fn push(&mut self, e: Effect)
        ensures
            effect_list(*final(self)) == effect_list(*old(self)).push(e),
    {
        self.inner.push(e);
    }

    /// Indexing a `SmallVec`: the effect at position `i`.
    #[verifier::external_body]
    pub(crate) fn at(&self, i: usize) -> (e: Effect)
        requires
            i < effect_list(*self).len(),
        ensures
            e == effect_list(*self)[i as int],
    {
        self.inner[i]
    }
}

/// A number held to the range of a byte.
pub open spec fn byte(x: int) -> u8 {
    if x < 0 {
        0
    } else if x > 255 {
        255
    } else {
        x as u8
    }
}

/// A number held to the range of a score.
pub open spec fn score(x: int) -> i16 {
    if x < -32768 {
        i16::MIN
    } else if x > 32767 {
        i16::MAX
    } else {
        x as i16
    }
}

fn to_byte(x: i32) -> (b: u8)
    ensures
        b == byte(x as int),
{
    if x < 0 {
        0
    } else if x > 255 {
        255
    } else {
        x as u8
    }
}

/// How much of a resource a gain or a payment moves: a skull gain is capped by
/// what the bank still holds.
pub open spec fn moved(g: GameState, r: Resource, n: int) -> int {
    if r == Resource::Skull && n > g.skulls_remaining {
        g.skulls_remaining as int
    } else {
        n
    }
}

/// A position after a seat gains or pays a resource.
pub open spec fn res_moved(g: GameState, p: PlayerId, r: Resource, n: int) -> GameState {
    let pl = g.players[p.0 as int];
    let k = moved(g, r, n);
    let paid = set_player(
        g,
        p,
        Player { res: spec_array_update(pl.res, r.rank(), byte(pl.res[r.rank()] + k)), ..pl },
    );
    if r == Resource::Skull && n > 0 {
        GameState { skulls_remaining: (g.skulls_remaining - k) as u8, ..paid }
    } else {
        paid
    }
}

/// The first of a seat's workers, from its `k`-th, that is still locked.
pub open spec fn locked_from(g: GameState, p: PlayerId, k: int) -> Option<int>
    decreases 6 - k,
{
    if k >= 6 {
        None
    } else if g.workers[6 * p.0 + k] == WorkerLoc::Locked {
        Some(6 * p.0 + k)
    } else {
        locked_from(g, p, k + 1)
    }
}

/// One slot of a display, emptied if it shows the card.
pub open spec fn drop_card<T>(slot: Option<T>, id: T) -> Option<T> {
    if slot == Some(id) {
        None
    } else {
        slot
    }
}

/// A display with one card taken off it.
pub open spec fn without<T>(up: [Option<T>; 6], id: T) -> [Option<T>; 6] {
    [
        drop_card(up[0], id),
        drop_card(up[1], id),
        drop_card(up[2], id),
        drop_card(up[3], id),
        drop_card(up[4], id),
        drop_card(up[5], id),
    ]
}

/// A position after a seat advances on a science track, which stops at the
/// third level.
pub open spec fn advanced(g: GameState, p: PlayerId, s: Science) -> GameState {
    let row = g.research[p.0 as int];
    let l = row[s.rank()];
    let up = if l < 3 {
        (l + 1) as u8
    } else {
        l
    };
    GameState {
        research: spec_array_update(
            g.research,
            p.0 as int,
            spec_array_update(row, s.rank(), up),
        ),
        ..g
    }
}

/// A position after a seat's lowest locked worker comes to hand.
pub open spec fn unlocked(g: GameState, p: PlayerId) -> GameState {
    match locked_from(g, p, 0) {
        Some(w) => GameState {
            workers: spec_array_update(g.workers, w, WorkerLoc::Available),
            ..g
        },
        None => g,
    }
}

/// A position with one Palenque space's tiles replaced.
pub open spec fn set_tiles(g: GameState, pos: Pos, st: TileStack) -> GameState {
    GameState { palenque: spec_array_update(g.palenque, pos.0 as int, st), ..g }
}

/// A position after a seat takes a tile off a Palenque space.
pub open spec fn tile_taken(g: GameState, p: PlayerId, pos: Pos, k: TileKind) -> GameState {
    let pl = g.players[p.0 as int];
    let st = g.palenque[pos.0 as int];
    match k {
        TileKind::Corn => set_tiles(
            set_player(g, p, Player { corn_tiles: byte(pl.corn_tiles + 1), ..pl }),
            pos,
            TileStack { corn: byte(st.corn - 1), ..st },
        ),
        TileKind::Wood => set_tiles(
            set_player(g, p, Player { wood_tiles: byte(pl.wood_tiles + 1), ..pl }),
            pos,
            TileStack { wood: byte(st.wood - 1), ..st },
        ),
    }
}

/// A position after a seat takes a building card.
pub open spec fn built(g: GameState, p: PlayerId, id: BuildingId) -> GameState {
    let pl = g.players[p.0 as int];
    GameState {
        buildings_up: without(g.buildings_up, id),
        ..set_player(
            g,
            p,
            Player { buildings: pl.buildings | (1u32 << ((id.0 - 1) as u32)), ..pl },
        )
    }
}

/// A position after a seat takes a monument card.
pub open spec fn monument_taken(g: GameState, p: PlayerId, id: MonumentId) -> GameState {
    let pl = g.players[p.0 as int];
    GameState {
        monuments_up: without(g.monuments_up, id),
        ..set_player(
            g,
            p,
            Player { monuments: pl.monuments | (1u16 << ((id.0 - 1) as u16)), ..pl },
        )
    }
}

/// What one effect does to the position of the seat that takes it. Nothing
/// falls below zero and nothing outgrows the byte that holds it.
#[verifier::opaque]
pub open spec fn after(rules: Rulebook, g: GameState, p: PlayerId, e: Effect) -> GameState {
    let pl = g.players[p.0 as int];
    match e {
        Effect::Corn(n) => set_player(g, p, Player { corn: byte(pl.corn + n), ..pl }),
        Effect::SetCorn(n) => set_player(g, p, Player { corn: n, ..pl }),
        Effect::Res(r, n) => res_moved(g, p, r, n as int),
        Effect::Points(n) => set_player(g, p, Player { points: score(pl.points + n), ..pl }),
        Effect::TempleStep(t, n) => temple_stepped(rules, g, p, t, n as int),
        Effect::AdvanceResearch(s) => advanced(g, p, s),
        Effect::UnlockWorker => unlocked(g, p),
        Effect::FreeWorker(n) => set_player(
            g,
            p,
            Player { free_workers: byte(pl.free_workers + n), ..pl },
        ),
        Effect::WorkerDiscount(n) => set_player(
            g,
            p,
            Player { worker_discount: byte(pl.worker_discount + n), ..pl },
        ),
        Effect::TakePalenqueTile(pos, k) => tile_taken(g, p, pos, k),
        Effect::BurnPalenqueWood(pos) => {
            let st = g.palenque[pos.0 as int];
            set_tiles(g, pos, TileStack { wood: byte(st.wood - 1), ..st })
        },
        Effect::FillChichen(pos) => GameState {
            chichen_filled: g.chichen_filled | (1u16 << pos.0),
            ..g
        },
        Effect::Build(id) => built(g, p, id),
        Effect::TakeMonument(id) => monument_taken(g, p, id),
    }
}

/// What a list of effects does, in order.
pub open spec fn after_all(rules: Rulebook, g: GameState, p: PlayerId, s: Seq<Effect>) -> GameState
    decreases s.len(),
{
    if s.len() == 0 {
        g
    } else {
        after(rules, after_all(rules, g, p, s.drop_last()), p, s.last())
    }
}

impl GameState {
    /// Replace a seat's holdings.
    fn put_player(&mut self, p: PlayerId, pl: Player)
        requires
            p.ok(),
        ensures
            *final(self) == set_player(*old(self), p, pl),
    {
        self.players[p.idx()] = pl;
        assert(self.players =~= set_player(*old(self), p, pl).players);
    }

    /// Gain or pay a resource.
    fn move_res(&mut self, p: PlayerId, r: Resource, n: i8)
        requires
            p.ok(),
        ensures
            *final(self) == res_moved(*old(self), p, r, n as int),
    {
        let ghost g0 = *self;
        let bank: u8 = self.skulls_remaining;
        let mut k: i32 = n as i32;
        if r == Resource::Skull && n as i32 > bank as i32 {
            k = bank as i32;
        }
        let mut pl = self.players[p.idx()];
        pl.res[r.idx()] = to_byte(pl.res[r.idx()] as i32 + k);
        proof {
            let was = g0.players[p.0 as int];
            assert(pl.res =~= spec_array_update(was.res, r.rank(), byte(was.res[r.rank()] + k)));
        }
        self.put_player(p, pl);
        if r == Resource::Skull && n > 0 {
            self.skulls_remaining = (bank as i32 - k) as u8;
        }
    }

    /// Advance on a science track.
    fn advance(&mut self, p: PlayerId, s: Science)
        requires
            p.ok(),
        ensures
            *final(self) == advanced(*old(self), p, s),
    {
        let ghost want = advanced(*self, p, s);
        let l: u8 = self.research[p.idx()][s.idx()];
        if l < 3 {
            self.research[p.idx()][s.idx()] = l + 1;
        }
        assert(self.research[p.0 as int] =~= want.research[p.0 as int]);
        assert(self.research =~= want.research);
    }

    /// Bring the lowest locked worker to hand.
    fn unlock_worker(&mut self, p: PlayerId)
        requires
            p.ok(),
        ensures
            *final(self) == unlocked(*old(self), p),
    {
        let ghost g0 = *self;
        let mut k: usize = 0;
        while k < 6
            invariant
                k <= 6,
                p.ok(),
                *self == g0,
                g0 == *old(self),
                locked_from(g0, p, 0) == locked_from(g0, p, k as int),
            decreases 6 - k,
        {
            let w: usize = 6 * p.idx() + k;
            if self.workers[w] == WorkerLoc::Locked {
                self.workers[w] = WorkerLoc::Available;
                assert(self.workers =~= unlocked(g0, p).workers);
                return;
            }
            k += 1;
        }
    }

    /// Replace the tiles of a Palenque space.
    fn put_tiles(&mut self, pos: Pos, st: TileStack)
        requires
            pos.0 < 8,
        ensures
            *final(self) == set_tiles(*old(self), pos, st),
    {
        self.palenque[pos.idx()] = st;
        assert(self.palenque =~= set_tiles(*old(self), pos, st).palenque);
    }

    /// Take a tile off a Palenque space.
    fn take_tile(&mut self, p: PlayerId, pos: Pos, k: TileKind)
        requires
            p.ok(),
            pos.0 < 8,
        ensures
            *final(self) == tile_taken(*old(self), p, pos, k),
    {
        let mut pl = self.players[p.idx()];
        let mut st = self.palenque[pos.idx()];
        match k {
            TileKind::Corn => {
                pl.corn_tiles = to_byte(pl.corn_tiles as i32 + 1);
                st.corn = to_byte(st.corn as i32 - 1);
            },
            TileKind::Wood => {
                pl.wood_tiles = to_byte(pl.wood_tiles as i32 + 1);
                st.wood = to_byte(st.wood as i32 - 1);
            },
        }
        self.put_player(p, pl);
        self.put_tiles(pos, st);
    }

    /// Take a building card.
    fn take_building(&mut self, p: PlayerId, id: BuildingId)
        requires
            p.ok(),
            id.ok(),
        ensures
            *final(self) == built(*old(self), p, id),
    {
        let ghost g0 = *self;
        let mut k: usize = 0;
        while k < 6
            invariant
                k <= 6,
                *self == (GameState { buildings_up: self.buildings_up, ..g0 }),
                forall|i: int|
                    0 <= i < k ==> self.buildings_up[i] == drop_card(g0.buildings_up[i], id),
                forall|i: int| k <= i < 6 ==> self.buildings_up[i] == g0.buildings_up[i],
            decreases 6 - k,
        {
            if let Some(b) = self.buildings_up[k] {
                if b == id {
                    self.buildings_up[k] = None;
                }
            }
            k += 1;
        }
        assert(self.buildings_up =~= without(g0.buildings_up, id));
        let mut pl = self.players[p.idx()];
        pl.buildings = pl.buildings | (1u32 << (id.0 as u32 - 1));
        self.put_player(p, pl);
    }

    /// Take a monument card.
    fn take_monument(&mut self, p: PlayerId, id: MonumentId)
        requires
            p.ok(),
            id.ok(),
        ensures
            *final(self) == monument_taken(*old(self), p, id),
    {
        let ghost g0 = *self;
        let mut k: usize = 0;
        while k < 6
            invariant
                k <= 6,
                *self == (GameState { monuments_up: self.monuments_up, ..g0 }),
                forall|i: int|
                    0 <= i < k ==> self.monuments_up[i] == drop_card(g0.monuments_up[i], id),
                forall|i: int| k <= i < 6 ==> self.monuments_up[i] == g0.monuments_up[i],
            decreases 6 - k,
        {
            if let Some(b) = self.monuments_up[k] {
                if b == id {
                    self.monuments_up[k] = None;
                }
            }
            k += 1;
        }
        assert(self.monuments_up =~= without(g0.monuments_up, id));
        let mut pl = self.players[p.idx()];
        pl.monuments = pl.monuments | (1u16 << (id.0 as u16 - 1));
        self.put_player(p, pl);
    }
}

impl Effect {
    /// Whether the seat holds what the effect takes from it.
    pub open spec fn paid_by(self, pl: Player) -> bool {
        match self {
            Effect::Corn(n) => pl.corn + n >= 0,
            Effect::Res(r, n) => pl.res[r.rank()] + n >= 0,
            _ => true,
        }
    }

    /// Whether the seat holds what the effect takes from it.
    pub fn payable(self, pl: &Player) -> (b: bool)
        ensures
            b == self.paid_by(*pl),
    {
        match self {
            Effect::Corn(n) => pl.corn as i32 + n as i32 >= 0,
            Effect::Res(r, n) => pl.res[r.idx()] as i32 + n as i32 >= 0,
            _ => true,
        }
    }

    /// Change the position of the seat that takes the effect.
    pub fn apply(self, rules: &Rulebook, g: &mut GameState, p: PlayerId)
        requires
            p.ok(),
            self.ok(),
        ensures
            *final(g) == after(*rules, *old(g), p, self),
    {
        reveal(after);
        let mut pl = g.players[p.idx()];
        match self {
            Effect::Corn(n) => {
                pl.corn = to_byte(pl.corn as i32 + n as i32);
                g.put_player(p, pl);
            },
            Effect::SetCorn(n) => {
                pl.corn = n;
                g.put_player(p, pl);
            },
            Effect::Res(r, n) => g.move_res(p, r, n),
            Effect::Points(n) => {
                let x: i32 = pl.points as i32 + n as i32;
                pl.points = if x < -32768 {
                    i16::MIN
                } else if x > 32767 {
                    i16::MAX
                } else {
                    x as i16
                };
                g.put_player(p, pl);
            },
            Effect::TempleStep(t, n) => g.temple_step(rules, p, t, n),
            Effect::AdvanceResearch(s) => g.advance(p, s),
            Effect::UnlockWorker => g.unlock_worker(p),
            Effect::FreeWorker(n) => {
                pl.free_workers = to_byte(pl.free_workers as i32 + n as i32);
                g.put_player(p, pl);
            },
            Effect::WorkerDiscount(n) => {
                pl.worker_discount = to_byte(pl.worker_discount as i32 + n as i32);
                g.put_player(p, pl);
            },
            Effect::TakePalenqueTile(pos, k) => g.take_tile(p, pos, k),
            Effect::BurnPalenqueWood(pos) => {
                let mut st = g.palenque[pos.idx()];
                st.wood = to_byte(st.wood as i32 - 1);
                g.put_tiles(pos, st);
            },
            Effect::FillChichen(pos) => {
                g.chichen_filled = g.chichen_filled | (1u16 << pos.0);
            },
            Effect::Build(id) => g.take_building(p, id),
            Effect::TakeMonument(id) => g.take_monument(p, id),
        }
    }
}

/// One option a space offers: a list of effects, taken in order. The empty
/// list is the skip.
pub struct Choice(pub Effects);

impl View for Choice {
    type V = Seq<Effect>;

    open spec fn view(&self) -> Seq<Effect> {
        self.0@
    }
}

impl Clone for Choice {
    fn clone(&self) -> (c: Self)
        ensures
            c@ == self@,
    {
        let mut c = Choice::new();
        c.extend(self);
        assert(c@ =~= self@);
        c
    }
}

impl Choice {
    /// The choice with no effects yet.
    pub fn new() -> (c: Choice)
        ensures
            c@ == Seq::<Effect>::empty(),
    {
        Choice(Effects::new())
    }

    /// Pick the worker up and do nothing.
    pub fn skip() -> (c: Choice)
        ensures
            c@ == Seq::<Effect>::empty(),
    {
        Choice::new()
    }

    /// A choice of one effect.
    pub fn one(e: Effect) -> (c: Choice)
        ensures
            c@ == seq![e],
    {
        let mut c = Choice::new();
        c.0.push(e);
        assert(c@ =~= seq![e]);
        c
    }

    /// A choice of these effects in this order.
    pub fn of(effects: &[Effect]) -> (c: Choice)
        ensures
            c@ == effects@,
    {
        let mut c = Choice::new();
        let mut i: usize = 0;
        while i < effects.len()
            invariant
                i <= effects.len(),
                c@ == effects@.take(i as int),
            decreases effects.len() - i,
        {
            c.0.push(effects[i]);
            i += 1;
            assert(c@ =~= effects@.take(i as int));
        }
        assert(c@ =~= effects@);
        c
    }

    /// Put another choice's effects behind this one's.
    pub fn extend(&mut self, tail: &Choice)
        ensures
            final(self)@ == old(self)@ + tail@,
    {
        let n: usize = tail.0.len();
        let mut i: usize = 0;
        while i < n
            invariant
                i <= n,
                n == tail@.len(),
                self@ == old(self)@ + tail@.take(i as int),
            decreases n - i,
        {
            self.0.push(tail.0.at(i));
            i += 1;
            assert(self@ =~= old(self)@ + tail@.take(i as int));
        }
        assert(self@ =~= old(self)@ + tail@);
    }

    /// This choice with one more effect behind it.
    pub fn with(self, e: Effect) -> (c: Choice)
        ensures
            c@ == self@.push(e),
    {
        let mut c = self;
        c.0.push(e);
        c
    }

    /// This choice with another's effects behind it.
    pub fn chain(self, tail: &Choice) -> (c: Choice)
        ensures
            c@ == self@ + tail@,
    {
        let mut c = self;
        c.extend(tail);
        c
    }

    /// The effects as a plain list.
    pub fn to_list(&self) -> (v: Vec<Effect>)
        ensures
            v@ == self@,
    {
        let n: usize = self.0.len();
        let mut v: Vec<Effect> = Vec::new();
        let mut i: usize = 0;
        while i < n
            invariant
                i <= n,
                n == self@.len(),
                v@ == self@.take(i as int),
            decreases n - i,
        {
            v.push(self.0.at(i));
            i += 1;
            assert(v@ =~= self@.take(i as int));
        }
        assert(v@ =~= self@);
        v
    }

    /// Whether this is the skip.
    pub fn is_skip(&self) -> (b: bool)
        ensures
            b == (self@.len() == 0),
    {
        self.0.len() == 0
    }

    /// Whether two choices are the same list of effects.
    pub fn same(&self, other: &Choice) -> (b: bool)
        ensures
            b == (self@ == other@),
    {
        let n: usize = self.0.len();
        if n != other.0.len() {
            return false;
        }
        let mut i: usize = 0;
        while i < n
            invariant
                i <= n,
                n == self@.len(),
                n == other@.len(),
                forall|j: int| 0 <= j < i ==> self@[j] == other@[j],
            decreases n - i,
        {
            if self.0.at(i) != other.0.at(i) {
                return false;
            }
            i += 1;
        }
        assert(self@ =~= other@);
        true
    }

    /// Take every effect in order.
    pub fn apply(&self, rules: &Rulebook, g: &mut GameState, p: PlayerId)
        requires
            p.ok(),
            effects_ok(self@),
        ensures
            *final(g) == after_all(*rules, *old(g), p, self@),
    {
        let n: usize = self.0.len();
        let mut i: usize = 0;
        while i < n
            invariant
                i <= n,
                p.ok(),
                effects_ok(self@),
                n == self@.len(),
                *g == after_all(*rules, *old(g), p, self@.take(i as int)),
            decreases n - i,
        {
            let e = self.0.at(i);
            e.apply(rules, g, p);
            i += 1;
            proof {
                let s = self@.take(i as int);
                assert(s.drop_last() =~= self@.take(i - 1));
                assert(s.last() == e);
            }
        }
        assert(self@.take(n as int) =~= self@);
    }

    /// Whether every payment among the effects can be met when its turn comes.
    pub fn affordable(&self, rules: &Rulebook, g: &GameState, p: PlayerId) -> (b: bool)
        requires
            p.ok(),
            effects_ok(self@),
        ensures
            b == affordable_all(*rules, *g, p, self@),
    {
        let mut probe = *g;
        let n: usize = self.0.len();
        let mut i: usize = 0;
        while i < n
            invariant
                i <= n,
                p.ok(),
                effects_ok(self@),
                n == self@.len(),
                probe == after_all(*rules, *g, p, self@.take(i as int)),
                forall|j: int| 0 <= j < i ==> payable_at(*rules, *g, p, self@, j),
            decreases n - i,
        {
            let e = self.0.at(i);
            reveal(payable_at);
            if !e.payable(&probe.players[p.idx()]) {
                assert(!payable_at(*rules, *g, p, self@, i as int));
                return false;
            }
            assert(payable_at(*rules, *g, p, self@, i as int));
            e.apply(rules, &mut probe, p);
            i += 1;
            proof {
                let s = self@.take(i as int);
                assert(s.drop_last() =~= self@.take(i - 1));
                assert(s.last() == e);
            }
        }
        true
    }
}

/// Whether the payment at one place of a list of effects can be met once the
/// effects before it have been taken.
#[verifier::opaque]
pub open spec fn payable_at(
    rules: Rulebook,
    g: GameState,
    p: PlayerId,
    s: Seq<Effect>,
    j: int,
) -> bool {
    s[j].paid_by(after_all(rules, g, p, s.take(j)).players[p.0 as int])
}

/// Whether every payment in a list of effects can be met when its turn comes.
pub open spec fn affordable_all(
    rules: Rulebook,
    g: GameState,
    p: PlayerId,
    s: Seq<Effect>,
) -> bool {
    forall|j: int| 0 <= j < s.len() ==> payable_at(rules, g, p, s, j)
}

/// An effect leaves a sound position sound.
pub proof fn effects_keep_positions_sound(
    rules: Rulebook,
    g: GameState,
    p: PlayerId,
    e: Effect,
)
    requires
        g.ok(),
        p.ok(),
        e.ok(),
    ensures
        after(rules, g, p, e).ok(),
{
    reveal(after);
    let h = after(rules, g, p, e);
    if e == Effect::UnlockWorker {
        lemma_locked_from(g, p, 0);
    }
    assert forall|i: int| 0 <= i < 24 implies (#[trigger] h.workers[i]).ok() by {
        assert(g.workers[i].ok());
    }
    assert forall|i: int| 0 <= i < 6 implies (#[trigger] h.buildings_up[i] matches Some(id)
        ==> id.ok()) by {
        assert(g.buildings_up[i] matches Some(id) ==> id.ok());
    }
    assert forall|i: int| 0 <= i < 6 implies (#[trigger] h.monuments_up[i] matches Some(id)
        ==> id.ok()) by {
        assert(g.monuments_up[i] matches Some(id) ==> id.ok());
    }
}

proof fn lemma_locked_from(g: GameState, p: PlayerId, k: int)
    requires
        p.ok(),
        0 <= k,
    ensures
        locked_from(g, p, k) matches Some(w) ==> 0 <= w < 24,
    decreases 6 - k,
{
    if k < 6 {
        lemma_locked_from(g, p, k + 1);
    }
}

/// A list of effects leaves a sound position sound.
pub proof fn choices_keep_positions_sound(
    rules: Rulebook,
    g: GameState,
    p: PlayerId,
    s: Seq<Effect>,
)
    requires
        g.ok(),
        p.ok(),
        effects_ok(s),
    ensures
        after_all(rules, g, p, s).ok(),
    decreases s.len(),
{
    if s.len() > 0 {
        assert(effects_ok(s.drop_last()));
        choices_keep_positions_sound(rules, g, p, s.drop_last());
        effects_keep_positions_sound(
            rules,
            after_all(rules, g, p, s.drop_last()),
            p,
            s.last(),
        );
    }
}

/// Taking one list of effects and then another is taking both as one.
pub proof fn chained_effects_compose(
    rules: Rulebook,
    g: GameState,
    p: PlayerId,
    a: Seq<Effect>,
    b: Seq<Effect>,
)
    ensures
        after_all(rules, g, p, a + b) == after_all(rules, after_all(rules, g, p, a), p, b),
    decreases b.len(),
{
    if b.len() == 0 {
        assert(a + b =~= a);
    } else {
        chained_effects_compose(rules, g, p, a, b.drop_last());
        assert((a + b).drop_last() =~= a + b.drop_last());
        assert((a + b).last() == b.last());
    }
}

} // verus!
