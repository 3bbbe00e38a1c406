//! Keys of search nodes: when two nodes are the same, and the word they are
//! filed under.
//!
//! The word only has to spread. Nodes filed under the same word are told apart
//! by the whole key, so the word may leave out what cannot change within a
//! search: which worker stands where is told by the workers alone, the decks are
//! only ever drawn from, and colours are fixed.

use crate::ids::PlayerId;
use crate::phase::Phase;
use crate::state::{Deck, GameState, Player, WorkerLoc};
use vstd::prelude::*;

verus! {

// ---- equality ------------------------------------------------------------

fn same_bytes<const N: usize>(a: &[u8; N], b: &[u8; N]) -> (r: bool)
    ensures
        r == (*a == *b),
{
    let mut i: usize = 0;
    while i < N
        invariant
            i <= N,
            forall|j: int| 0 <= j < i ==> a[j] == b[j],
        decreases N - i,
    {
        if a[i] != b[i] {
            return false;
        }
        i += 1;
    }
    assert(*a =~= *b);
    true
}

fn same_deck<const N: usize>(a: &Deck<N>, b: &Deck<N>) -> (r: bool)
    ensures
        r == (*a == *b),
{
    a.next == b.next && same_bytes(&a.ids, &b.ids)
}

fn same_player(a: &Player, b: &Player) -> (r: bool)
    ensures
        r == (*a == *b),
{
    a.color == b.color && a.corn == b.corn && same_bytes(&a.res, &b.res) && a.points == b.points
        && a.corn_tiles == b.corn_tiles && a.wood_tiles == b.wood_tiles && a.free_workers
        == b.free_workers && a.worker_discount == b.worker_discount && a.may_skip_day
        == b.may_skip_day && a.buildings == b.buildings && a.monuments == b.monuments
}

fn same_players(a: &GameState, b: &GameState) -> (r: bool)
    ensures
        r == (a.players == b.players),
{
    let mut i: usize = 0;
    while i < 4
        invariant
            i <= 4,
            forall|j: int| 0 <= j < i ==> a.players[j] == b.players[j],
        decreases 4 - i,
    {
        if !same_player(&a.players[i], &b.players[i]) {
            return false;
        }
        i += 1;
    }
    assert(a.players =~= b.players);
    true
}

fn same_workers(a: &GameState, b: &GameState) -> (r: bool)
    ensures
        r == (a.workers == b.workers),
{
    let mut i: usize = 0;
    while i < 24
        invariant
            i <= 24,
            forall|j: int| 0 <= j < i ==> a.workers[j] == b.workers[j],
        decreases 24 - i,
    {
        if a.workers[i] != b.workers[i] {
            return false;
        }
        i += 1;
    }
    assert(a.workers =~= b.workers);
    true
}

fn same_gears(a: &GameState, b: &GameState) -> (r: bool)
    ensures
        r == (a.gears == b.gears),
{
    let mut i: usize = 0;
    while i < 5
        invariant
            i <= 5,
            forall|j: int| 0 <= j < i ==> a.gears[j] == b.gears[j],
        decreases 5 - i,
    {
        if !same_bytes(&a.gears[i].occ, &b.gears[i].occ) {
            return false;
        }
        i += 1;
    }
    assert(a.gears =~= b.gears);
    true
}

fn same_standing(a: &GameState, b: &GameState) -> (r: bool)
    ensures
        r == (a.temples == b.temples && a.research == b.research),
{
    let mut i: usize = 0;
    while i < 3
        invariant
            i <= 3,
            forall|j: int| 0 <= j < i ==> a.temples[j] == b.temples[j],
        decreases 3 - i,
    {
        if !same_bytes(&a.temples[i], &b.temples[i]) {
            return false;
        }
        i += 1;
    }
    assert(a.temples =~= b.temples);
    let mut k: usize = 0;
    while k < 4
        invariant
            k <= 4,
            forall|j: int| 0 <= j < k ==> a.research[j] == b.research[j],
        decreases 4 - k,
    {
        if !same_bytes(&a.research[k], &b.research[k]) {
            return false;
        }
        k += 1;
    }
    assert(a.research =~= b.research);
    true
}

fn same_displays(a: &GameState, b: &GameState) -> (r: bool)
    ensures
        r == (a.palenque == b.palenque && a.buildings_up == b.buildings_up && a.monuments_up
            == b.monuments_up),
{
    let mut i: usize = 0;
    while i < 8
        invariant
            i <= 8,
            forall|j: int| 0 <= j < i ==> a.palenque[j] == b.palenque[j],
        decreases 8 - i,
    {
        if a.palenque[i] != b.palenque[i] {
            return false;
        }
        i += 1;
    }
    assert(a.palenque =~= b.palenque);
    let mut k: usize = 0;
    while k < 6
        invariant
            k <= 6,
            forall|j: int| 0 <= j < k ==> a.buildings_up[j] == b.buildings_up[j],
            forall|j: int| 0 <= j < k ==> a.monuments_up[j] == b.monuments_up[j],
        decreases 6 - k,
    {
        let same_b = match (a.buildings_up[k], b.buildings_up[k]) {
            (Some(x), Some(y)) => x == y,
            (None, None) => true,
            _ => false,
        };
        let same_m = match (a.monuments_up[k], b.monuments_up[k]) {
            (Some(x), Some(y)) => x == y,
            (None, None) => true,
            _ => false,
        };
        if !same_b || !same_m {
            return false;
        }
        k += 1;
    }
    assert(a.buildings_up =~= b.buildings_up);
    assert(a.monuments_up =~= b.monuments_up);
    true
}

/// Whether two positions agree in everything.
pub fn same_position(a: &GameState, b: &GameState) -> (r: bool)
    ensures
        r == (*a == *b),
{
    let same_space = match (a.first_player_space, b.first_player_space) {
        (Some(x), Some(y)) => x == y,
        (None, None) => true,
        _ => false,
    };
    a.day == b.day && a.age == b.age && a.over == b.over && a.current == b.current && a.first_player
        == b.first_player && a.chichen_filled == b.chichen_filled && a.accumulated_corn
        == b.accumulated_corn && a.skulls_remaining == b.skulls_remaining && same_space
        && same_workers(a, b) && same_players(a, b) && same_gears(a, b) && same_standing(a, b)
        && same_displays(a, b) && same_deck(&a.age1, &b.age1) && same_deck(&a.age2, &b.age2)
        && same_deck(&a.monument_deck, &b.monument_deck)
}

/// Whether two phases agree in everything.
pub fn same_phase(a: Phase, b: Phase) -> (r: bool)
    ensures
        r == (a == b),
{
    match (a, b) {
        (Phase::Beg, Phase::Beg) => true,
        (Phase::Mode, Phase::Mode) => true,
        (Phase::PickWorker, Phase::PickWorker) => true,
        (Phase::PityPlace, Phase::PityPlace) => true,
        (Phase::Placing { n: x }, Phase::Placing { n: y }) => x == y,
        (Phase::Take { worker: x }, Phase::Take { worker: y }) => x == y,
        (Phase::ExtraDay { claimer: x }, Phase::ExtraDay { claimer: y }) => x == y,
        (Phase::DraftTile { dealt: x, kept: k }, Phase::DraftTile { dealt: y, kept: l }) => k == l
            && same_bytes(&x, &y),
        _ => false,
    }
}

/// What makes a node the same node.
#[derive(Clone, Copy)]
pub struct NodeKey {
    pub state: GameState,
    pub phase: Phase,
    pub turn: PlayerId,
    pub done: u8,
}

impl NodeKey {
    /// Whether two nodes are the same node.
    pub fn same(&self, other: &NodeKey) -> (r: bool)
        ensures
            r == (*self == *other),
    {
        self.done == other.done && self.turn == other.turn && same_phase(self.phase, other.phase)
            && same_position(&self.state, &other.state)
    }
}

// ---- words ---------------------------------------------------------------

/// Folds a word into another.
pub open spec fn mixed(h: u64, x: u64) -> u64 {
    (h ^ x).wrapping_mul(0x0100_0000_01b3)
}

fn mix(h: u64, x: u64) -> (r: u64)
    ensures
        r == mixed(h, x),
{
    (h ^ x).wrapping_mul(0x0100_0000_01b3)
}

/// The byte at a place, zero past the end.
pub open spec fn byte_or_zero(b: Seq<u8>, i: int) -> u64 {
    if 0 <= i < b.len() {
        b[i] as u64
    } else {
        0
    }
}

/// Eight bytes as a word, low byte first, with zeros past the end.
pub open spec fn word_at(b: Seq<u8>, i: int) -> u64 {
    (byte_or_zero(b, i) + 0x100 * byte_or_zero(b, i + 1) + 0x1_0000 * byte_or_zero(b, i + 2)
        + 0x100_0000 * byte_or_zero(b, i + 3) + 0x1_0000_0000 * byte_or_zero(b, i + 4)
        + 0x100_0000_0000 * byte_or_zero(b, i + 5) + 0x1_0000_0000_0000 * byte_or_zero(b, i + 6)
        + 0x100_0000_0000_0000 * byte_or_zero(b, i + 7)) as u64
}

/// Folds bytes into a word, eight at a time.
pub open spec fn mixed_bytes(h: u64, b: Seq<u8>, i: int) -> u64
    decreases b.len() + 8 - i,
{
    if i >= b.len() {
        h
    } else {
        mixed_bytes(mixed(h, word_at(b, i)), b, i + 8)
    }
}

fn byte_at(b: &[u8], i: usize) -> (r: u64)
    ensures
        r == byte_or_zero(b@, i as int),
        r < 256,
{
    if i < b.len() {
        b[i] as u64
    } else {
        0
    }
}

fn mix_bytes(h: u64, b: &[u8]) -> (r: u64)
    requires
        b@.len() <= 24,
    ensures
        r == mixed_bytes(h, b@, 0),
{
    let n: usize = b.len();
    let mut w: u64 = h;
    let mut i: usize = 0;
    while i < n
        invariant
            n == b@.len(),
            n <= 24,
            i <= 32,
            mixed_bytes(h, b@, 0) == mixed_bytes(w, b@, i as int),
        decreases n + 8 - i,
    {
        let x: u64 = byte_at(b, i) + 0x100 * byte_at(b, i + 1) + 0x1_0000 * byte_at(b, i + 2)
            + 0x100_0000 * byte_at(b, i + 3) + 0x1_0000_0000 * byte_at(b, i + 4) + 0x100_0000_0000
            * byte_at(b, i + 5) + 0x1_0000_0000_0000 * byte_at(b, i + 6) + 0x100_0000_0000_0000
            * byte_at(b, i + 7);
        w = mix(w, x);
        i += 8;
    }
    w
}

/// A worker's whole location in one byte.
pub open spec fn worker_code(w: WorkerLoc) -> u8 {
    match w {
        WorkerLoc::Locked => 0,
        WorkerLoc::Available => 1,
        WorkerLoc::FirstPlayerSpace => 2,
        WorkerLoc::OnGear { gear, pos } => ((3 + gear.rank() * 11 + pos.0) as u32) as u8,
    }
}

fn worker_byte(w: WorkerLoc) -> (b: u8)
    ensures
        b == worker_code(w),
{
    match w {
        WorkerLoc::Locked => 0,
        WorkerLoc::Available => 1,
        WorkerLoc::FirstPlayerSpace => 2,
        WorkerLoc::OnGear { gear, pos } => {
            let n: u32 = 3 + gear.idx() as u32 * 11 + pos.0 as u32;
            #[verifier::truncate]
            (n as u8)
        },
    }
}

/// Locations that exist have codes of their own.
pub proof fn locations_have_their_own_codes(a: WorkerLoc, b: WorkerLoc)
    requires
        a.ok(),
        b.ok(),
        worker_code(a) == worker_code(b),
    ensures
        a == b,
{
}

/// A seat's holdings folded into a word.
pub open spec fn mixed_player(h: u64, p: Player) -> u64 {
    mixed(
        mixed(
            mixed(
                h,
                p.corn as u64 | (p.res[0] as u64) << 8 | (p.res[1] as u64) << 16 | (p.res[2] as u64)
                    << 24 | (p.res[3] as u64) << 32 | (p.points as u16 as u64) << 40 | (
                p.corn_tiles as u64) << 56,
            ),
            p.buildings as u64 | (p.monuments as u64) << 32 | (p.wood_tiles as u64) << 48 | (
            p.free_workers as u64) << 56,
        ),
        p.worker_discount as u64 | (if p.may_skip_day {
            1u64
        } else {
            0u64
        }) << 8,
    )
}

fn mix_player(h: u64, p: &Player) -> (r: u64)
    ensures
        r == mixed_player(h, *p),
{
    let skip: u64 = if p.may_skip_day {
        1
    } else {
        0
    };
    let a: u64 = mix(
        h,
        p.corn as u64 | (p.res[0] as u64) << 8 | (p.res[1] as u64) << 16 | (p.res[2] as u64) << 24 | (
        p.res[3] as u64) << 32 | (p.points as u16 as u64) << 40 | (p.corn_tiles as u64) << 56,
    );
    let b: u64 = mix(
        a,
        p.buildings as u64 | (p.monuments as u64) << 32 | (p.wood_tiles as u64) << 48 | (
        p.free_workers as u64) << 56,
    );
    mix(b, p.worker_discount as u64 | skip << 8)
}

/// A number with room below it for none.
pub open spec fn one_up(o: Option<u8>) -> u64 {
    match o {
        Some(v) => (v + 1) as u64,
        None => 0,
    }
}

fn up_one(o: Option<u8>) -> (r: u64)
    ensures
        r == one_up(o),
{
    match o {
        Some(v) => v as u64 + 1,
        None => 0,
    }
}

/// A flag as a number.
pub open spec fn flag(b: bool) -> u64 {
    if b {
        1
    } else {
        0
    }
}

/// The number of a card on display, if there is one.
pub open spec fn building_no(g: GameState, i: int) -> Option<u8> {
    match g.buildings_up[i] {
        Some(b) => Some(b.0),
        None => None,
    }
}

pub open spec fn monument_no(g: GameState, i: int) -> Option<u8> {
    match g.monuments_up[i] {
        Some(b) => Some(b.0),
        None => None,
    }
}

/// The cards on display, side by side in a word.
pub open spec fn buildings_word(g: GameState) -> u64 {
    one_up(building_no(g, 0)) ^ one_up(building_no(g, 1)) << 9 ^ one_up(building_no(g, 2)) << 18
        ^ one_up(building_no(g, 3)) << 27 ^ one_up(building_no(g, 4)) << 36 ^ one_up(
        building_no(g, 5),
    ) << 45
}

pub open spec fn monuments_word(g: GameState) -> u64 {
    one_up(monument_no(g, 0)) ^ one_up(monument_no(g, 1)) << 9 ^ one_up(monument_no(g, 2)) << 18
        ^ one_up(monument_no(g, 3)) << 27 ^ one_up(monument_no(g, 4)) << 36 ^ one_up(
        monument_no(g, 5),
    ) << 45
}

/// The rest of a position that can change within a search.
pub open spec fn table_word(g: GameState) -> u64 {
    g.chichen_filled as u64 | (g.accumulated_corn as u64) << 16 | (g.skulls_remaining as u64) << 24
        | one_up(
        match g.first_player_space {
            Some(w) => Some(w.0),
            None => None,
        },
    ) << 32 | (g.current.0 as u64) << 40 | (g.first_player.0 as u64) << 43 | (g.age as u64) << 46 | (
    g.day as u64) << 48 | flag(g.over) << 56 | (g.age1.next as u64) << 57
}

pub open spec fn worker_codes(g: GameState) -> Seq<u8> {
    Seq::new(24, |i: int| worker_code(g.workers[i]))
}

/// The seats from one on folded into a word.
pub open spec fn mixed_players(h: u64, g: GameState, i: int) -> u64
    decreases 4 - i,
{
    if i < 0 || i >= 4 {
        h
    } else {
        mixed_players(mixed_player(h, g.players[i]), g, i + 1)
    }
}

/// The temples from one on folded into a word.
pub open spec fn mixed_temples(h: u64, g: GameState, i: int) -> u64
    decreases 3 - i,
{
    if i < 0 || i >= 3 {
        h
    } else {
        mixed_temples(mixed_bytes(h, g.temples[i]@, 0), g, i + 1)
    }
}

/// The research of the seats from one on folded into a word.
pub open spec fn mixed_research(h: u64, g: GameState, i: int) -> u64
    decreases 4 - i,
{
    if i < 0 || i >= 4 {
        h
    } else {
        mixed_research(mixed_bytes(h, g.research[i]@, 0), g, i + 1)
    }
}

/// The tiles from a space on folded into a word.
pub open spec fn mixed_tiles(h: u64, g: GameState, i: int) -> u64
    decreases 8 - i,
{
    if i < 0 || i >= 8 {
        h
    } else {
        mixed_tiles(
            mixed(h, g.palenque[i].corn as u64 | (g.palenque[i].wood as u64) << 8),
            g,
            i + 1,
        )
    }
}

/// Everything about a position that can change within a search, folded into a
/// word.
pub open spec fn position_word(g: GameState) -> u64 {
    let a = mixed_bytes(0xcbf2_9ce4_8422_2325, worker_codes(g), 0);
    let b = mixed_research(mixed_temples(mixed_players(a, g, 0), g, 0), g, 0);
    let c = mixed(mixed(mixed_tiles(b, g, 0), buildings_word(g)), monuments_word(g));
    mixed(c, table_word(g)) ^ mixed(0, g.age2.next as u64 | (g.monument_deck.next as u64) << 8)
}

/// A phase with what it carries.
pub open spec fn payload(p: Phase) -> u64 {
    match p {
        Phase::Placing { n } => n as u64,
        Phase::Take { worker } => worker.0 as u64,
        Phase::ExtraDay { claimer } => claimer.0 as u64,
        Phase::DraftTile { dealt, kept } => dealt[0] as u64 | (dealt[1] as u64) << 8 | (
        dealt[2] as u64) << 16 | (dealt[3] as u64) << 24 | (kept as u64) << 32,
        _ => 0,
    }
}

impl NodeKey {
    /// Where in the turn the node stands, as a word.
    pub open spec fn place_word(self) -> u64 {
        self.phase.index() as u64 | (self.turn.0 as u64) << 8 | (self.done as u64) << 16 | payload(
            self.phase,
        ) << 24
    }

    /// The word the node is filed under.
    pub open spec fn word(self) -> u64 {
        mixed(position_word(self.state), self.place_word())
    }

    fn phase_word(&self) -> (w: u64)
        ensures
            w == self.place_word(),
    {
        let carried: u64 = match self.phase {
            Phase::Placing { n } => n as u64,
            Phase::Take { worker } => worker.0 as u64,
            Phase::ExtraDay { claimer } => claimer.0 as u64,
            Phase::DraftTile { dealt, kept } => dealt[0] as u64 | (dealt[1] as u64) << 8 | (
            dealt[2] as u64) << 16 | (dealt[3] as u64) << 24 | (kept as u64) << 32,
            _ => 0,
        };
        self.phase.tag() as u64 | (self.turn.0 as u64) << 8 | (self.done as u64) << 16 | carried << 24
    }

    /// The word the node is filed under.
    pub fn digest(&self) -> (w: u64)
        ensures
            w == self.word(),
    {
        mix(state_digest(&self.state), self.phase_word())
    }
}

fn display_words(g: &GameState) -> (r: (u64, u64))
    ensures
        r.0 == buildings_word(*g),
        r.1 == monuments_word(*g),
{
    let mut b: [u64; 6] = [0; 6];
    let mut m: [u64; 6] = [0; 6];
    let mut i: usize = 0;
    while i < 6
        invariant
            i <= 6,
            forall|j: int| 0 <= j < i ==> b[j] == one_up(building_no(*g, j)),
            forall|j: int| 0 <= j < i ==> m[j] == one_up(monument_no(*g, j)),
        decreases 6 - i,
    {
        b[i] = match g.buildings_up[i] {
            Some(x) => up_one(Some(x.0)),
            None => 0,
        };
        m[i] = match g.monuments_up[i] {
            Some(x) => up_one(Some(x.0)),
            None => 0,
        };
        i += 1;
    }
    (
        b[0] ^ b[1] << 9 ^ b[2] << 18 ^ b[3] << 27 ^ b[4] << 36 ^ b[5] << 45,
        m[0] ^ m[1] << 9 ^ m[2] << 18 ^ m[3] << 27 ^ m[4] << 36 ^ m[5] << 45,
    )
}

fn state_digest(g: &GameState) -> (w: u64)
    ensures
        w == position_word(*g),
{
    let mut codes: Vec<u8> = Vec::new();
    let mut i: usize = 0;
    while i < 24
        invariant
            i <= 24,
            codes@ == worker_codes(*g).take(i as int),
        decreases 24 - i,
    {
        codes.push(worker_byte(g.workers[i]));
        i += 1;
        assert(codes@ =~= worker_codes(*g).take(i as int));
    }
    assert(codes@ =~= worker_codes(*g));
    let a: u64 = mix_bytes(0xcbf2_9ce4_8422_2325, codes.as_slice());
    let mut h: u64 = a;
    let mut p: usize = 0;
    while p < 4
        invariant
            p <= 4,
            mixed_players(a, *g, 0) == mixed_players(h, *g, p as int),
        decreases 4 - p,
    {
        h = mix_player(h, &g.players[p]);
        p += 1;
    }
    let b: u64 = h;
    let mut t: usize = 0;
    while t < 3
        invariant
            t <= 3,
            mixed_temples(b, *g, 0) == mixed_temples(h, *g, t as int),
        decreases 3 - t,
    {
        h = mix_bytes(h, g.temples[t].as_slice());
        t += 1;
    }
    let c: u64 = h;
    let mut r: usize = 0;
    while r < 4
        invariant
            r <= 4,
            mixed_research(c, *g, 0) == mixed_research(h, *g, r as int),
        decreases 4 - r,
    {
        h = mix_bytes(h, g.research[r].as_slice());
        r += 1;
    }
    let d: u64 = h;
    let mut k: usize = 0;
    while k < 8
        invariant
            k <= 8,
            mixed_tiles(d, *g, 0) == mixed_tiles(h, *g, k as int),
        decreases 8 - k,
    {
        h = mix(h, g.palenque[k].corn as u64 | (g.palenque[k].wood as u64) << 8);
        k += 1;
    }
    let up = display_words(g);
    h = mix(mix(h, up.0), up.1);
    let space: u64 = match g.first_player_space {
        Some(w) => up_one(Some(w.0)),
        None => 0,
    };
    let over: u64 = if g.over {
        1
    } else {
        0
    };
    mix(
        h,
        g.chichen_filled as u64 | (g.accumulated_corn as u64) << 16 | (g.skulls_remaining as u64)
            << 24 | space << 32 | (g.current.0 as u64) << 40 | (g.first_player.0 as u64) << 43 | (
        g.age as u64) << 46 | (g.day as u64) << 48 | over << 56 | (g.age1.next as u64) << 57,
    ) ^ mix(0, g.age2.next as u64 | (g.monument_deck.next as u64) << 8)
}

} // verus!
