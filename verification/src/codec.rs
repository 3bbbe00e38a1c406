//! A position as bytes.
//!
//! Field by field, little endian, at fixed offsets: the layout is stated here
//! and nowhere else, so it survives whatever the compiler does with the struct.

use crate::ids::{BuildingId, Color, Gear, MonumentId, PlayerId, Pos, WorkerId};
use crate::phase::Phase;
use crate::state::{Deck, GameState, GearState, Player, TileStack, WorkerLoc, NO_WORKER};
use vstd::prelude::*;

verus! {

/// Bytes of one seat: colour, corn, four resources, points, two tile counts,
/// free workers, discount, the first-player tile face, and the two bitsets.
pub const PLAYER_BYTES: usize = 1 + 1 + 4 + 2 + 1 + 1 + 1 + 1 + 1 + 4 + 2;

/// Bytes of a whole position.
pub const STATE_BYTES: usize = 293;

/// Where each part of a position starts.
pub const AT_WORKERS: usize = 76;

pub const AT_GEARS: usize = 124;

pub const AT_TEMPLES: usize = 179;

pub const AT_RESEARCH: usize = 191;

pub const AT_PALENQUE: usize = 207;

pub const AT_CHICHEN: usize = 223;

pub const AT_AGE1: usize = 225;

pub const AT_AGE2: usize = 240;

pub const AT_MONUMENTS: usize = 259;

pub const AT_BUILDINGS_UP: usize = 273;

pub const AT_MONUMENTS_UP: usize = 279;

pub const AT_REST: usize = 285;

/// The low byte of a number, and the ones above it.
pub open spec fn byte_of(n: int, k: int) -> u8 {
    if k == 0 {
        (n % 256) as u8
    } else if k == 1 {
        (n / 256 % 256) as u8
    } else if k == 2 {
        (n / 65536 % 256) as u8
    } else {
        (n / 16777216 % 256) as u8
    }
}

/// A score as a non-negative number of two bytes.
pub open spec fn unsigned16(v: i16) -> int {
    if v < 0 {
        v + 65536
    } else {
        v as int
    }
}

/// A colour's number.
pub open spec fn color_number(c: Color) -> u8 {
    match c {
        Color::Red => 0,
        Color::Green => 1,
        Color::Blue => 2,
        Color::Yellow => 3,
    }
}

/// Byte `k` of a seat.
pub open spec fn player_byte(p: Player, k: int) -> u8 {
    if k == 0 {
        color_number(p.color)
    } else if k == 1 {
        p.corn
    } else if k < 6 {
        p.res[k - 2]
    } else if k < 8 {
        byte_of(unsigned16(p.points), k - 6)
    } else if k == 8 {
        p.corn_tiles
    } else if k == 9 {
        p.wood_tiles
    } else if k == 10 {
        p.free_workers
    } else if k == 11 {
        p.worker_discount
    } else if k == 12 {
        if p.may_skip_day {
            1
        } else {
            0
        }
    } else if k < 17 {
        byte_of(p.buildings as int, k - 13)
    } else {
        byte_of(p.monuments as int, k - 17)
    }
}

/// The two bytes of a worker's place: what kind it is, and for a gear space
/// the gear's number times sixteen plus the space.
pub open spec fn worker_bytes(w: WorkerLoc, k: int) -> u8 {
    match w {
        WorkerLoc::Locked => 0,
        WorkerLoc::Available => if k == 0 {
            1
        } else {
            0
        },
        WorkerLoc::OnGear { gear, pos } => if k == 0 {
            2
        } else {
            (gear.rank() * 16 + pos.0) as u8
        },
        WorkerLoc::FirstPlayerSpace => if k == 0 {
            3
        } else {
            0
        },
    }
}

/// Byte `k` of what follows the displays.
pub open spec fn rest_byte(g: GameState, k: int) -> u8 {
    if k == 0 {
        match g.first_player_space {
            Some(w) => w.0,
            None => NO_WORKER,
        }
    } else if k == 1 {
        g.accumulated_corn
    } else if k == 2 {
        g.skulls_remaining
    } else if k == 3 {
        g.current.0
    } else if k == 4 {
        g.first_player.0
    } else if k == 5 {
        g.age
    } else if k == 6 {
        g.day
    } else if g.over {
        1
    } else {
        0
    }
}

/// Byte `i` of a position.
pub open spec fn state_byte(g: GameState, i: int) -> u8 {
    if i < AT_WORKERS {
        player_byte(g.players[i / 19], i % 19)
    } else if i < AT_GEARS {
        worker_bytes(g.workers[(i - AT_WORKERS) / 2], (i - AT_WORKERS) % 2)
    } else if i < AT_TEMPLES {
        g.gears[(i - AT_GEARS) / 11].occ[(i - AT_GEARS) % 11]
    } else if i < AT_RESEARCH {
        g.temples[(i - AT_TEMPLES) / 4][(i - AT_TEMPLES) % 4]
    } else if i < AT_PALENQUE {
        g.research[(i - AT_RESEARCH) / 4][(i - AT_RESEARCH) % 4]
    } else if i < AT_CHICHEN {
        if (i - AT_PALENQUE) % 2 == 0 {
            g.palenque[(i - AT_PALENQUE) / 2].corn
        } else {
            g.palenque[(i - AT_PALENQUE) / 2].wood
        }
    } else if i < AT_AGE1 {
        byte_of(g.chichen_filled as int, i - AT_CHICHEN)
    } else if i < AT_AGE2 {
        if i - AT_AGE1 < 14 {
            g.age1.ids[i - AT_AGE1]
        } else {
            g.age1.next
        }
    } else if i < AT_MONUMENTS {
        if i - AT_AGE2 < 18 {
            g.age2.ids[i - AT_AGE2]
        } else {
            g.age2.next
        }
    } else if i < AT_BUILDINGS_UP {
        if i - AT_MONUMENTS < 13 {
            g.monument_deck.ids[i - AT_MONUMENTS]
        } else {
            g.monument_deck.next
        }
    } else if i < AT_MONUMENTS_UP {
        match g.buildings_up[i - AT_BUILDINGS_UP] {
            Some(id) => id.0,
            None => 0,
        }
    } else if i < AT_REST {
        match g.monuments_up[i - AT_MONUMENTS_UP] {
            Some(id) => id.0,
            None => 0,
        }
    } else {
        rest_byte(g, i - AT_REST)
    }
}

/// A position as bytes.
pub open spec fn state_bytes(g: GameState) -> Seq<u8> {
    Seq::new(293, |i: int| state_byte(g, i))
}

pub(crate) fn low_byte(n: u32, k: usize) -> (b: u8)
    requires
        k < 4,
    ensures
        b == byte_of(n as int, k as int),
{
    if k == 0 {
        (n % 256) as u8
    } else if k == 1 {
        (n / 256 % 256) as u8
    } else if k == 2 {
        (n / 65536 % 256) as u8
    } else {
        (n / 16777216 % 256) as u8
    }
}

/// A colour's number.
pub fn color_idx(c: Color) -> (n: u8)
    ensures
        n == color_number(c),
        n < 4,
{
    match c {
        Color::Red => 0,
        Color::Green => 1,
        Color::Blue => 2,
        Color::Yellow => 3,
    }
}

fn flag(b: bool) -> (n: u8)
    ensures
        n == (if b {
            1u8
        } else {
            0u8
        }),
{
    if b {
        1
    } else {
        0
    }
}

pub(crate) fn to_unsigned16(v: i16) -> (n: u32)
    ensures
        n == unsigned16(v),
{
    if v < 0 {
        (v as i32 + 65536) as u32
    } else {
        v as u32
    }
}

fn encode_player(p: &Player, k: usize) -> (b: u8)
    requires
        k < 19,
    ensures
        b == player_byte(*p, k as int),
{
    if k == 0 {
        color_idx(p.color)
    } else if k == 1 {
        p.corn
    } else if k < 6 {
        p.res[k - 2]
    } else if k < 8 {
        low_byte(to_unsigned16(p.points), k - 6)
    } else if k == 8 {
        p.corn_tiles
    } else if k == 9 {
        p.wood_tiles
    } else if k == 10 {
        p.free_workers
    } else if k == 11 {
        p.worker_discount
    } else if k == 12 {
        flag(p.may_skip_day)
    } else if k < 17 {
        low_byte(p.buildings, k - 13)
    } else {
        low_byte(p.monuments as u32, k - 17)
    }
}

fn encode_worker(w: WorkerLoc, k: usize) -> (b: u8)
    requires
        w.ok(),
        k < 2,
    ensures
        b == worker_bytes(w, k as int),
{
    match w {
        WorkerLoc::Locked => 0,
        WorkerLoc::Available => if k == 0 {
            1
        } else {
            0
        },
        WorkerLoc::OnGear { gear, pos } => if k == 0 {
            2
        } else {
            gear.idx() as u8 * 16 + pos.0
        },
        WorkerLoc::FirstPlayerSpace => if k == 0 {
            3
        } else {
            0
        },
    }
}

pub(crate) fn encode_byte(g: &GameState, i: usize) -> (b: u8)
    requires
        i < STATE_BYTES,
        g.ok(),
    ensures
        b == state_byte(*g, i as int),
{
    if i < AT_WORKERS {
        encode_player(&g.players[i / 19], i % 19)
    } else if i < AT_GEARS {
        let w: usize = (i - AT_WORKERS) / 2;
        assert(g.workers[w as int].ok());
        encode_worker(g.workers[w], (i - AT_WORKERS) % 2)
    } else if i < AT_TEMPLES {
        g.gears[(i - AT_GEARS) / 11].occ[(i - AT_GEARS) % 11]
    } else if i < AT_RESEARCH {
        g.temples[(i - AT_TEMPLES) / 4][(i - AT_TEMPLES) % 4]
    } else if i < AT_PALENQUE {
        g.research[(i - AT_RESEARCH) / 4][(i - AT_RESEARCH) % 4]
    } else if i < AT_CHICHEN {
        let st = g.palenque[(i - AT_PALENQUE) / 2];
        if (i - AT_PALENQUE) % 2 == 0 {
            st.corn
        } else {
            st.wood
        }
    } else if i < AT_AGE1 {
        low_byte(g.chichen_filled as u32, i - AT_CHICHEN)
    } else if i < AT_AGE2 {
        if i - AT_AGE1 < 14 {
            g.age1.ids[i - AT_AGE1]
        } else {
            g.age1.next
        }
    } else if i < AT_MONUMENTS {
        if i - AT_AGE2 < 18 {
            g.age2.ids[i - AT_AGE2]
        } else {
            g.age2.next
        }
    } else if i < AT_BUILDINGS_UP {
        if i - AT_MONUMENTS < 13 {
            g.monument_deck.ids[i - AT_MONUMENTS]
        } else {
            g.monument_deck.next
        }
    } else if i < AT_MONUMENTS_UP {
        match g.buildings_up[i - AT_BUILDINGS_UP] {
            Some(id) => id.0,
            None => 0,
        }
    } else if i < AT_REST {
        match g.monuments_up[i - AT_MONUMENTS_UP] {
            Some(id) => id.0,
            None => 0,
        }
    } else {
        let k: usize = i - AT_REST;
        if k == 0 {
            match g.first_player_space {
                Some(w) => w.0,
                None => NO_WORKER,
            }
        } else if k == 1 {
            g.accumulated_corn
        } else if k == 2 {
            g.skulls_remaining
        } else if k == 3 {
            g.current.0
        } else if k == 4 {
            g.first_player.0
        } else if k == 5 {
            g.age
        } else if k == 6 {
            g.day
        } else {
            flag(g.over)
        }
    }
}

/// Write a position into the first `STATE_BYTES` of a buffer; the rest of the
/// buffer is left as it was.
pub fn encode_state(g: &GameState, out: &mut [u8])
    requires
        g.ok(),
        old(out)@.len() >= STATE_BYTES,
    ensures
        final(out)@ == state_bytes(*g) + old(out)@.skip(STATE_BYTES as int),
{
    let mut i: usize = 0;
    while i < STATE_BYTES
        invariant
            i <= STATE_BYTES,
            g.ok(),
            out@.len() == old(out)@.len(),
            out@.len() >= STATE_BYTES,
            forall|j: int| 0 <= j < i ==> out@[j] == state_byte(*g, j),
            forall|j: int| i <= j < out@.len() ==> out@[j] == old(out)@[j],
        decreases STATE_BYTES - i,
    {
        let b: u8 = encode_byte(g, i);
        out[i] = b;
        i += 1;
    }
    assert(out@ =~= state_bytes(*g) + old(out)@.skip(STATE_BYTES as int));
}

// ---- reading a position back ---------------------------------------------

/// Two bytes as a number, low byte first.
pub open spec fn le16(b: Seq<u8>, i: int) -> int {
    b[i] + 256 * b[i + 1]
}

/// Four bytes as a number, low byte first.
pub open spec fn le32(b: Seq<u8>, i: int) -> int {
    b[i] + 256 * b[i + 1] + 65536 * b[i + 2] + 16777216 * b[i + 3]
}

/// A number of two bytes as a score.
pub open spec fn signed16(n: int) -> i16 {
    if n >= 32768 {
        (n - 65536) as i16
    } else {
        n as i16
    }
}

/// The colour with a number.
pub open spec fn color_at(n: u8) -> Color {
    if n == 0 {
        Color::Red
    } else if n == 1 {
        Color::Green
    } else if n == 2 {
        Color::Blue
    } else {
        Color::Yellow
    }
}

/// The seat whose bytes start at `i`.
pub open spec fn player_at(b: Seq<u8>, i: int) -> Player {
    Player {
        color: color_at(b[i]),
        corn: b[i + 1],
        res: [b[i + 2], b[i + 3], b[i + 4], b[i + 5]],
        points: signed16(le16(b, i + 6)),
        corn_tiles: b[i + 8],
        wood_tiles: b[i + 9],
        free_workers: b[i + 10],
        worker_discount: b[i + 11],
        may_skip_day: b[i + 12] != 0,
        buildings: le32(b, i + 13) as u32,
        monuments: le16(b, i + 17) as u16,
    }
}

/// The place a worker's two bytes name.
pub open spec fn worker_at(b: Seq<u8>, i: int) -> WorkerLoc {
    if b[i] == 0 {
        WorkerLoc::Locked
    } else if b[i] == 1 {
        WorkerLoc::Available
    } else if b[i] == 2 {
        WorkerLoc::OnGear { gear: Gear::at(b[i + 1] as int / 16), pos: Pos(b[i + 1] % 16) }
    } else {
        WorkerLoc::FirstPlayerSpace
    }
}

/// The card a display byte names; zero is an empty slot.
pub open spec fn building_at(b: Seq<u8>, i: int) -> Option<BuildingId> {
    if b[i] != 0 {
        Some(BuildingId(b[i]))
    } else {
        None
    }
}

/// The card a display byte names; zero is an empty slot.
pub open spec fn monument_at(b: Seq<u8>, i: int) -> Option<MonumentId> {
    if b[i] != 0 {
        Some(MonumentId(b[i]))
    } else {
        None
    }
}

/// Whether a position is the one some bytes hold.
pub open spec fn reads_as(b: Seq<u8>, g: GameState) -> bool {
    &&& forall|p: int| 0 <= p < 4 ==> #[trigger] g.players[p] == player_at(b, 19 * p)
    &&& forall|w: int| 0 <= w < 24 ==> #[trigger] g.workers[w] == worker_at(b, AT_WORKERS + 2 * w)
    &&& forall|r: int, k: int|
        0 <= r < 5 && 0 <= k < 11 ==> #[trigger] g.gears[r].occ[k] == b[AT_GEARS + 11 * r + k]
    &&& forall|t: int, p: int|
        0 <= t < 3 && 0 <= p < 4 ==> #[trigger] g.temples[t][p] == b[AT_TEMPLES + 4 * t + p]
    &&& forall|p: int, s: int|
        0 <= p < 4 && 0 <= s < 4 ==> #[trigger] g.research[p][s] == b[AT_RESEARCH + 4 * p + s]
    &&& forall|k: int|
        0 <= k < 8 ==> #[trigger] g.palenque[k] == (TileStack {
            corn: b[AT_PALENQUE + 2 * k],
            wood: b[AT_PALENQUE + 2 * k + 1],
        })
    &&& g.chichen_filled == le16(b, AT_CHICHEN as int)
    &&& forall|k: int| 0 <= k < 14 ==> #[trigger] g.age1.ids[k] == b[AT_AGE1 + k]
    &&& g.age1.next == b[AT_AGE1 + 14]
    &&& forall|k: int| 0 <= k < 18 ==> #[trigger] g.age2.ids[k] == b[AT_AGE2 + k]
    &&& g.age2.next == b[AT_AGE2 + 18]
    &&& forall|k: int| 0 <= k < 13 ==> #[trigger] g.monument_deck.ids[k] == b[AT_MONUMENTS + k]
    &&& g.monument_deck.next == b[AT_MONUMENTS + 13]
    &&& forall|k: int|
        0 <= k < 6 ==> #[trigger] g.buildings_up[k] == building_at(b, AT_BUILDINGS_UP + k)
    &&& forall|k: int|
        0 <= k < 6 ==> #[trigger] g.monuments_up[k] == monument_at(b, AT_MONUMENTS_UP + k)
    &&& g.first_player_space == (if b[AT_REST as int] != NO_WORKER {
        Some(WorkerId(b[AT_REST as int]))
    } else {
        None
    })
    &&& g.accumulated_corn == b[AT_REST + 1]
    &&& g.skulls_remaining == b[AT_REST + 2]
    &&& g.current == PlayerId(b[AT_REST + 3])
    &&& g.first_player == PlayerId(b[AT_REST + 4])
    &&& g.age == b[AT_REST + 5]
    &&& g.day == b[AT_REST + 6]
    &&& g.over == (b[AT_REST + 7] != 0)
}

/// Whether bytes hold a position: every colour and every gear they name exists.
pub open spec fn readable(b: Seq<u8>) -> bool {
    &&& b.len() >= STATE_BYTES
    &&& forall|p: int| 0 <= p < 4 ==> #[trigger] b[19 * p] < 4
    &&& forall|w: int|
        0 <= w < 24 && b[AT_WORKERS + 2 * w] == 2 ==> #[trigger] b[AT_WORKERS + 2 * w + 1] < 80
}

pub(crate) fn read16(b: &[u8], i: usize) -> (n: u16)
    requires
        i + 2 <= b@.len(),
    ensures
        n == le16(b@, i as int),
{
    b[i] as u16 + 256 * (b[i + 1] as u16)
}

pub(crate) fn read32(b: &[u8], i: usize) -> (n: u32)
    requires
        i + 4 <= b@.len(),
    ensures
        n == le32(b@, i as int),
{
    b[i] as u32 + 256 * (b[i + 1] as u32) + 65536 * (b[i + 2] as u32) + 16777216 * (b[i + 3] as u32)
}

pub(crate) fn read_score(b: &[u8], i: usize) -> (n: i16)
    requires
        i + 2 <= b@.len(),
    ensures
        n == signed16(le16(b@, i as int)),
{
    let n: u16 = read16(b, i);
    if n >= 32768 {
        (n as i32 - 65536) as i16
    } else {
        n as i16
    }
}

fn read_player(b: &[u8], i: usize) -> (p: Player)
    requires
        i + 19 <= b@.len(),
    ensures
        p == player_at(b@, i as int),
{
    let color = match b[i] {
        0 => Color::Red,
        1 => Color::Green,
        2 => Color::Blue,
        _ => Color::Yellow,
    };
    let p = Player {
        color,
        corn: b[i + 1],
        res: [b[i + 2], b[i + 3], b[i + 4], b[i + 5]],
        points: read_score(b, i + 6),
        corn_tiles: b[i + 8],
        wood_tiles: b[i + 9],
        free_workers: b[i + 10],
        worker_discount: b[i + 11],
        may_skip_day: b[i + 12] != 0,
        buildings: read32(b, i + 13),
        monuments: read16(b, i + 17),
    };
    assert(p.res =~= player_at(b@, i as int).res);
    p
}

fn read_worker(b: &[u8], i: usize) -> (w: WorkerLoc)
    requires
        i + 2 <= b@.len(),
        b@[i as int] == 2 ==> b@[i + 1] < 80,
    ensures
        w == worker_at(b@, i as int),
{
    match b[i] {
        0 => WorkerLoc::Locked,
        1 => WorkerLoc::Available,
        2 => WorkerLoc::OnGear {
            gear: Gear::from_idx((b[i + 1] / 16) as usize),
            pos: Pos(b[i + 1] % 16),
        },
        _ => WorkerLoc::FirstPlayerSpace,
    }
}

/// `N` bytes from `i` on.
fn read_bytes<const N: usize>(b: &[u8], i: usize) -> (out: [u8; N])
    requires
        i + N <= b@.len(),
    ensures
        forall|k: int| 0 <= k < N ==> #[trigger] out[k] == b@[i + k],
{
    let len: usize = b.len();
    let mut out: [u8; N] = [0u8; N];
    let mut k: usize = 0;
    while k < N
        invariant
            k <= N,
            len == b@.len(),
            i + N <= len,
            forall|j: int| 0 <= j < k ==> #[trigger] out[j] == b@[i + j],
        decreases N - k,
    {
        out[k] = b[i + k];
        k += 1;
    }
    out
}

fn read_workers(b: &[u8]) -> (out: [WorkerLoc; 24])
    requires
        readable(b@),
    ensures
        forall|w: int| 0 <= w < 24 ==> #[trigger] out[w] == worker_at(b@, AT_WORKERS + 2 * w),
{
    let mut out: [WorkerLoc; 24] = [WorkerLoc::Locked; 24];
    let mut w: usize = 0;
    while w < 24
        invariant
            w <= 24,
            readable(b@),
            forall|j: int| 0 <= j < w ==> #[trigger] out[j] == worker_at(b@, AT_WORKERS + 2 * j),
        decreases 24 - w,
    {
        assert(b@[AT_WORKERS + 2 * w] == 2 ==> b@[AT_WORKERS + 2 * w + 1] < 80);
        out[w] = read_worker(b, AT_WORKERS + 2 * w);
        w += 1;
    }
    out
}

fn read_gears(b: &[u8]) -> (out: [GearState; 5])
    requires
        b@.len() >= STATE_BYTES,
    ensures
        forall|r: int, k: int|
            0 <= r < 5 && 0 <= k < 11 ==> #[trigger] out[r].occ[k] == b@[AT_GEARS + 11 * r + k],
{
    let none = GearState { occ: [0u8; 11] };
    let mut out: [GearState; 5] = [none; 5];
    let mut r: usize = 0;
    while r < 5
        invariant
            r <= 5,
            b@.len() >= STATE_BYTES,
            forall|j: int, k: int|
                0 <= j < r && 0 <= k < 11 ==> #[trigger] out[j].occ[k] == b@[AT_GEARS + 11 * j + k],
        decreases 5 - r,
    {
        out[r] = GearState { occ: read_bytes::<11>(b, AT_GEARS + 11 * r) };
        r += 1;
    }
    out
}

fn read_tiles(b: &[u8]) -> (out: [TileStack; 8])
    requires
        b@.len() >= STATE_BYTES,
    ensures
        forall|k: int|
            0 <= k < 8 ==> #[trigger] out[k] == (TileStack {
                corn: b@[AT_PALENQUE + 2 * k],
                wood: b@[AT_PALENQUE + 2 * k + 1],
            }),
{
    let none = TileStack { corn: 0, wood: 0 };
    let mut out: [TileStack; 8] = [none; 8];
    let mut k: usize = 0;
    while k < 8
        invariant
            k <= 8,
            b@.len() >= STATE_BYTES,
            forall|j: int|
                0 <= j < k ==> #[trigger] out[j] == (TileStack {
                    corn: b@[AT_PALENQUE + 2 * j],
                    wood: b@[AT_PALENQUE + 2 * j + 1],
                }),
        decreases 8 - k,
    {
        out[k] = TileStack { corn: b[AT_PALENQUE + 2 * k], wood: b[AT_PALENQUE + 2 * k + 1] };
        k += 1;
    }
    out
}

fn read_building(b: &[u8], i: usize) -> (c: Option<BuildingId>)
    requires
        i < b@.len(),
    ensures
        c == building_at(b@, i as int),
{
    if b[i] != 0 {
        Some(BuildingId(b[i]))
    } else {
        None
    }
}

fn read_monument(b: &[u8], i: usize) -> (c: Option<MonumentId>)
    requires
        i < b@.len(),
    ensures
        c == monument_at(b@, i as int),
{
    if b[i] != 0 {
        Some(MonumentId(b[i]))
    } else {
        None
    }
}

/// Read a position back from its bytes.
pub fn decode_state(b: &[u8]) -> (g: GameState)
    requires
        readable(b@),
    ensures
        reads_as(b@, g),
{
    let fps: u8 = b[AT_REST];
    GameState {
        players: [
            read_player(b, 0),
            read_player(b, 19),
            read_player(b, 38),
            read_player(b, 57),
        ],
        workers: read_workers(b),
        gears: read_gears(b),
        temples: [
            read_bytes::<4>(b, AT_TEMPLES),
            read_bytes::<4>(b, AT_TEMPLES + 4),
            read_bytes::<4>(b, AT_TEMPLES + 8),
        ],
        research: [
            read_bytes::<4>(b, AT_RESEARCH),
            read_bytes::<4>(b, AT_RESEARCH + 4),
            read_bytes::<4>(b, AT_RESEARCH + 8),
            read_bytes::<4>(b, AT_RESEARCH + 12),
        ],
        palenque: read_tiles(b),
        chichen_filled: read16(b, AT_CHICHEN),
        age1: Deck { ids: read_bytes::<14>(b, AT_AGE1), next: b[AT_AGE1 + 14] },
        age2: Deck { ids: read_bytes::<18>(b, AT_AGE2), next: b[AT_AGE2 + 18] },
        monument_deck: Deck { ids: read_bytes::<13>(b, AT_MONUMENTS), next: b[AT_MONUMENTS + 13] },
        buildings_up: [
            read_building(b, AT_BUILDINGS_UP),
            read_building(b, AT_BUILDINGS_UP + 1),
            read_building(b, AT_BUILDINGS_UP + 2),
            read_building(b, AT_BUILDINGS_UP + 3),
            read_building(b, AT_BUILDINGS_UP + 4),
            read_building(b, AT_BUILDINGS_UP + 5),
        ],
        monuments_up: [
            read_monument(b, AT_MONUMENTS_UP),
            read_monument(b, AT_MONUMENTS_UP + 1),
            read_monument(b, AT_MONUMENTS_UP + 2),
            read_monument(b, AT_MONUMENTS_UP + 3),
            read_monument(b, AT_MONUMENTS_UP + 4),
            read_monument(b, AT_MONUMENTS_UP + 5),
        ],
        first_player_space: if fps != NO_WORKER {
            Some(WorkerId(fps))
        } else {
            None
        },
        accumulated_corn: b[AT_REST + 1],
        skulls_remaining: b[AT_REST + 2],
        current: PlayerId(b[AT_REST + 3]),
        first_player: PlayerId(b[AT_REST + 4]),
        age: b[AT_REST + 5],
        day: b[AT_REST + 6],
        over: b[AT_REST + 7] != 0,
    }
}

/// Bytes hold one position.
pub proof fn bytes_hold_one_position(b: Seq<u8>, g: GameState, h: GameState)
    requires
        reads_as(b, g),
        reads_as(b, h),
    ensures
        g == h,
{
    assert(g.players =~= h.players);
    assert(g.workers =~= h.workers);
    assert forall|r: int| 0 <= r < 5 implies g.gears[r] == h.gears[r] by {
        assert forall|k: int| 0 <= k < 11 implies g.gears[r].occ[k] == h.gears[r].occ[k] by {}
        assert(g.gears[r].occ =~= h.gears[r].occ);
    }
    assert(g.gears =~= h.gears);
    assert forall|t: int| 0 <= t < 3 implies g.temples[t] == h.temples[t] by {
        assert forall|p: int| 0 <= p < 4 implies g.temples[t][p] == h.temples[t][p] by {}
        assert(g.temples[t] =~= h.temples[t]);
    }
    assert(g.temples =~= h.temples);
    assert forall|p: int| 0 <= p < 4 implies g.research[p] == h.research[p] by {
        assert forall|s: int| 0 <= s < 4 implies g.research[p][s] == h.research[p][s] by {}
        assert(g.research[p] =~= h.research[p]);
    }
    assert(g.research =~= h.research);
    assert(g.palenque =~= h.palenque);
    assert(g.age1.ids =~= h.age1.ids);
    assert(g.age2.ids =~= h.age2.ids);
    assert(g.monument_deck.ids =~= h.monument_deck.ids);
    assert(g.buildings_up =~= h.buildings_up);
    assert(g.monuments_up =~= h.monuments_up);
}

/// The bytes of a number add up to it.
pub proof fn lemma_bytes32(n: u32)
    ensures
        byte_of(n as int, 0) + 256 * byte_of(n as int, 1) + 65536 * byte_of(n as int, 2)
            + 16777216 * byte_of(n as int, 3) == n,
{
}

proof fn lemma_bytes16(n: int)
    requires
        0 <= n < 65536,
    ensures
        byte_of(n, 0) + 256 * byte_of(n, 1) == n,
{
}

/// A seat reads back from its bytes.
proof fn lemma_player_back(g: GameState, b: Seq<u8>, p: int)
    requires
        0 <= p < 4,
        b.len() >= 293,
        forall|i: int| 0 <= i < 293 ==> #[trigger] b[i] == state_byte(g, i),
    ensures
        player_at(b, 19 * p) == g.players[p],
        b[19 * p] < 4,
{
    let pl = g.players[p];
    let o = 19 * p;
    assert forall|k: int| 0 <= k < 19 implies #[trigger] b[o + k] == player_byte(pl, k) by {
        assert((o + k) / 19 == p && (o + k) % 19 == k) by (nonlinear_arith)
            requires
                o == 19 * p,
                0 <= k < 19,
        ;
        assert(b[o + k] == state_byte(g, o + k));
    }
    assert(b[o + 0] == player_byte(pl, 0));
    assert(b[o + 1] == player_byte(pl, 1));
    assert(b[o + 2] == player_byte(pl, 2));
    assert(b[o + 3] == player_byte(pl, 3));
    assert(b[o + 4] == player_byte(pl, 4));
    assert(b[o + 5] == player_byte(pl, 5));
    assert(b[o + 6] == player_byte(pl, 6));
    assert(b[o + 7] == player_byte(pl, 7));
    assert(b[o + 8] == player_byte(pl, 8));
    assert(b[o + 9] == player_byte(pl, 9));
    assert(b[o + 10] == player_byte(pl, 10));
    assert(b[o + 11] == player_byte(pl, 11));
    assert(b[o + 12] == player_byte(pl, 12));
    assert(b[o + 13] == player_byte(pl, 13));
    assert(b[o + 14] == player_byte(pl, 14));
    assert(b[o + 15] == player_byte(pl, 15));
    assert(b[o + 16] == player_byte(pl, 16));
    assert(b[o + 17] == player_byte(pl, 17));
    assert(b[o + 18] == player_byte(pl, 18));
    lemma_bytes16(unsigned16(pl.points));
    lemma_bytes16(pl.monuments as int);
    lemma_bytes32(pl.buildings);
    assert(player_at(b, o).res =~= pl.res);
}

/// A worker's place reads back from its bytes.
proof fn lemma_worker_back(g: GameState, b: Seq<u8>, w: int)
    requires
        0 <= w < 24,
        g.ok(),
        b.len() >= 293,
        forall|i: int| 0 <= i < 293 ==> #[trigger] b[i] == state_byte(g, i),
    ensures
        worker_at(b, AT_WORKERS + 2 * w) == g.workers[w],
        b[AT_WORKERS + 2 * w] == 2 ==> b[AT_WORKERS + 2 * w + 1] < 80,
{
    let i = AT_WORKERS + 2 * w;
    assert(g.workers[w].ok());
    assert(b[i] == state_byte(g, i));
    assert(b[i + 1] == state_byte(g, i + 1));
}

/// The parts of a position held as rows of bytes read back.
proof fn lemma_rows_back(g: GameState, b: Seq<u8>)
    requires
        b.len() >= 293,
        forall|i: int| 0 <= i < 293 ==> #[trigger] b[i] == state_byte(g, i),
    ensures
        forall|r: int, k: int|
            0 <= r < 5 && 0 <= k < 11 ==> #[trigger] g.gears[r].occ[k] == b[AT_GEARS + 11 * r + k],
        forall|t: int, p: int|
            0 <= t < 3 && 0 <= p < 4 ==> #[trigger] g.temples[t][p] == b[AT_TEMPLES + 4 * t + p],
        forall|p: int, s: int|
            0 <= p < 4 && 0 <= s < 4 ==> #[trigger] g.research[p][s] == b[AT_RESEARCH + 4 * p + s],
        forall|k: int|
            0 <= k < 8 ==> #[trigger] g.palenque[k] == (TileStack {
                corn: b[AT_PALENQUE + 2 * k],
                wood: b[AT_PALENQUE + 2 * k + 1],
            }),
{
    assert forall|r: int, k: int| 0 <= r < 5 && 0 <= k < 11 implies #[trigger] g.gears[r].occ[k]
        == b[AT_GEARS + 11 * r + k] by {
        let i = AT_GEARS + 11 * r + k;
        assert((11 * r + k) / 11 == r && (11 * r + k) % 11 == k) by (nonlinear_arith)
            requires
                0 <= k < 11,
        ;
        assert(b[i] == state_byte(g, i));
    }
    assert forall|t: int, p: int| 0 <= t < 3 && 0 <= p < 4 implies #[trigger] g.temples[t][p]
        == b[AT_TEMPLES + 4 * t + p] by {
        let i = AT_TEMPLES + 4 * t + p;
        assert(b[i] == state_byte(g, i));
    }
    assert forall|p: int, s: int| 0 <= p < 4 && 0 <= s < 4 implies #[trigger] g.research[p][s]
        == b[AT_RESEARCH + 4 * p + s] by {
        let i = AT_RESEARCH + 4 * p + s;
        assert(b[i] == state_byte(g, i));
    }
    assert forall|k: int| 0 <= k < 8 implies #[trigger] g.palenque[k] == (TileStack {
        corn: b[AT_PALENQUE + 2 * k],
        wood: b[AT_PALENQUE + 2 * k + 1],
    }) by {
        let i = AT_PALENQUE + 2 * k;
        assert(b[i] == state_byte(g, i));
        assert(b[i + 1] == state_byte(g, i + 1));
    }
}

/// Whether a position's first player space, if held, is held by a worker.
pub open spec fn first_space_ok(g: GameState) -> bool {
    g.first_player_space matches Some(w) ==> w.ok()
}

/// What is written reads back: the bytes of a position, whatever stands behind
/// them, hold exactly that position.
pub proof fn positions_round_trip(g: GameState, b: Seq<u8>)
    requires
        g.ok(),
        first_space_ok(g),
        b.len() >= STATE_BYTES,
        b.take(STATE_BYTES as int) == state_bytes(g),
    ensures
        readable(b),
        reads_as(b, g),
{
    assert forall|i: int| 0 <= i < 293 implies #[trigger] b[i] == state_byte(g, i) by {
        assert(b.take(293)[i] == b[i]);
    }
    assert forall|p: int| 0 <= p < 4 implies #[trigger] g.players[p] == player_at(b, 19 * p) by {
        lemma_player_back(g, b, p);
    }
    assert forall|p: int| 0 <= p < 4 implies #[trigger] b[19 * p] < 4 by {
        lemma_player_back(g, b, p);
    }
    assert forall|w: int| 0 <= w < 24 implies #[trigger] g.workers[w] == worker_at(
        b,
        AT_WORKERS + 2 * w,
    ) by {
        lemma_worker_back(g, b, w);
    }
    assert forall|w: int|
        0 <= w < 24 && b[AT_WORKERS + 2 * w] == 2 implies #[trigger] b[AT_WORKERS + 2 * w + 1]
        < 80 by {
        lemma_worker_back(g, b, w);
    }
    lemma_rows_back(g, b);
    assert(b[223] == state_byte(g, 223) && b[224] == state_byte(g, 224));
    lemma_bytes16(g.chichen_filled as int);
    assert forall|k: int| 0 <= k < 14 implies #[trigger] g.age1.ids[k] == b[AT_AGE1 + k] by {
        assert(b[AT_AGE1 + k] == state_byte(g, AT_AGE1 + k));
    }
    assert(b[AT_AGE1 + 14] == state_byte(g, AT_AGE1 + 14));
    assert forall|k: int| 0 <= k < 18 implies #[trigger] g.age2.ids[k] == b[AT_AGE2 + k] by {
        assert(b[AT_AGE2 + k] == state_byte(g, AT_AGE2 + k));
    }
    assert(b[AT_AGE2 + 18] == state_byte(g, AT_AGE2 + 18));
    assert forall|k: int| 0 <= k < 13 implies #[trigger] g.monument_deck.ids[k] == b[AT_MONUMENTS
        + k] by {
        assert(b[AT_MONUMENTS + k] == state_byte(g, AT_MONUMENTS + k));
    }
    assert(b[AT_MONUMENTS + 13] == state_byte(g, AT_MONUMENTS + 13));
    assert forall|k: int| 0 <= k < 6 implies #[trigger] g.buildings_up[k] == building_at(
        b,
        AT_BUILDINGS_UP + k,
    ) by {
        assert(b[AT_BUILDINGS_UP + k] == state_byte(g, AT_BUILDINGS_UP + k));
        assert(g.buildings_up[k] matches Some(id) ==> id.ok());
    }
    assert forall|k: int| 0 <= k < 6 implies #[trigger] g.monuments_up[k] == monument_at(
        b,
        AT_MONUMENTS_UP + k,
    ) by {
        assert(b[AT_MONUMENTS_UP + k] == state_byte(g, AT_MONUMENTS_UP + k));
        assert(g.monuments_up[k] matches Some(id) ==> id.ok());
    }
    assert(b[285] == state_byte(g, 285) && b[286] == state_byte(g, 286) && b[287] == state_byte(
        g,
        287,
    ) && b[288] == state_byte(g, 288) && b[289] == state_byte(g, 289) && b[290] == state_byte(
        g,
        290,
    ) && b[291] == state_byte(g, 291) && b[292] == state_byte(g, 292));
}

// ---- phases --------------------------------------------------------------

/// A phase's payload as five bytes.
pub open spec fn phase_args(p: Phase) -> [u8; 5] {
    match p {
        Phase::Placing { n } => [n, 0u8, 0u8, 0u8, 0u8],
        Phase::Take { worker } => [worker.0, 0u8, 0u8, 0u8, 0u8],
        Phase::ExtraDay { claimer } => [claimer.0, 0u8, 0u8, 0u8, 0u8],
        Phase::DraftTile { dealt, kept } => [dealt[0], dealt[1], dealt[2], dealt[3], kept],
        _ => [0u8, 0u8, 0u8, 0u8, 0u8],
    }
}

/// The phase a tag and a payload name.
pub open spec fn phase_at(tag: u8, a: [u8; 5]) -> Phase {
    if tag == 0 {
        Phase::Beg
    } else if tag == 1 {
        Phase::Mode
    } else if tag == 2 {
        Phase::Placing { n: a[0] }
    } else if tag == 3 {
        Phase::PickWorker
    } else if tag == 4 {
        Phase::Take { worker: WorkerId(a[0]) }
    } else if tag == 5 {
        Phase::ExtraDay { claimer: PlayerId(a[0]) }
    } else if tag == 6 {
        Phase::PityPlace
    } else {
        Phase::DraftTile { dealt: [a[0], a[1], a[2], a[3]], kept: a[4] }
    }
}

/// A phase as its tag and a fixed five-byte payload.
pub fn encode_phase(p: Phase) -> (r: (u8, [u8; 5]))
    ensures
        r.0 == p.index(),
        r.1 == phase_args(p),
{
    let mut a: [u8; 5] = [0, 0, 0, 0, 0];
    match p {
        Phase::Placing { n } => {
            a[0] = n;
        },
        Phase::Take { worker } => {
            a[0] = worker.0;
        },
        Phase::ExtraDay { claimer } => {
            a[0] = claimer.0;
        },
        Phase::DraftTile { dealt, kept } => {
            a[0] = dealt[0];
            a[1] = dealt[1];
            a[2] = dealt[2];
            a[3] = dealt[3];
            a[4] = kept;
        },
        _ => {},
    }
    assert(a =~= phase_args(p));
    (p.tag(), a)
}

/// The phase a tag and a payload name.
pub fn decode_phase(tag: u8, a: [u8; 5]) -> (p: Phase)
    ensures
        p == phase_at(tag, a),
{
    match tag {
        0 => Phase::Beg,
        1 => Phase::Mode,
        2 => Phase::Placing { n: a[0] },
        3 => Phase::PickWorker,
        4 => Phase::Take { worker: WorkerId(a[0]) },
        5 => Phase::ExtraDay { claimer: PlayerId(a[0]) },
        6 => Phase::PityPlace,
        _ => {
            let dealt: [u8; 4] = [a[0], a[1], a[2], a[3]];
            assert(dealt =~= [a[0], a[1], a[2], a[3]]);
            Phase::DraftTile { dealt, kept: a[4] }
        },
    }
}

/// Every phase reads back from its tag and payload.
pub proof fn phases_round_trip(p: Phase)
    ensures
        phase_at(p.index(), phase_args(p)) == p,
{
    if let Phase::DraftTile { dealt, kept } = p {
        assert([dealt[0], dealt[1], dealt[2], dealt[3]] =~= dealt);
    }
}

} // verus!
