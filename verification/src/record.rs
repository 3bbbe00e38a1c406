//! The replay record format and the bookkeeping of a shard of records.
//!
//! A shard is a fixed header followed by fixed-size records, little endian, no
//! compression and no framing: a shard cut short is still good up to its last
//! whole record, and two shards concatenate.
//!
//! Fractional numbers travel as the bits they are stored in.

pub use crate::codec::{decode_phase, decode_state, encode_phase, encode_state};
pub use crate::codec::{PLAYER_BYTES, STATE_BYTES};
use crate::codec::{
    byte_of, encode_byte, first_space_ok, le16, le32, low_byte, phase_args, phase_at,
    phases_round_trip, positions_round_trip, read32, read_score, readable, reads_as, signed16,
    state_byte, state_bytes, to_unsigned16, unsigned16,
};
use crate::ids::PlayerId;
use crate::phase::Phase;
use crate::state::GameState;
use vstd::prelude::*;

verus! {

/// The position always takes this much of a record, live bytes then zeros.
pub const STATE_SLOT: usize = 320;

/// Visit pairs kept for a node.
pub const MAX_VISITS: usize = 24;

/// Bytes of a record.
pub const RECORD_BYTES: usize = 512;

/// Bytes of a shard header.
pub const HEADER_BYTES: usize = 64;

/// The layout's version.
pub const FORMAT_VERSION: u16 = 1;

/// No usable policy target: the record is a value target only.
pub const POLICY_NONE: u8 = 0;

/// The visits index the search tree's edges.
pub const POLICY_TREE_EDGE: u8 = 1;

/// The node began a turn.
pub const TURN_ROOT: u8 = 1;

/// The node got the full simulation budget.
pub const FULL_BUDGET: u8 = 2;

/// One decision on the played path, before the game's outcome is known.
pub struct Node {
    pub state: GameState,
    /// Whose turn it is.
    pub turn: PlayerId,
    pub phase: Phase,
    /// Workers already resolved this turn. Where the next worker is picked the
    /// edges depend on it, and only there does it travel.
    pub done: u8,
    pub policy_kind: u8,
    pub n_edges: u16,
    pub total_visits: u32,
    /// Edge index and visit count, best first.
    pub visits: Vec<(u16, u16)>,
    /// The agent's own estimate for each seat, as stored bits.
    pub root_value: [u32; 4],
    pub flags: u8,
    /// The temperature in hundredths.
    pub temperature: u8,
}

impl Node {
    /// A value-only node: no policy target, just "this position, that outcome".
    pub fn value_only(state: GameState, turn: PlayerId, phase: Phase, value: [u32; 4]) -> (n: Node)
        ensures
            n.state == state,
            n.turn == turn,
            n.phase == phase,
            n.root_value == value,
            n.done == 0,
            n.policy_kind == POLICY_NONE,
            n.n_edges == 0,
            n.total_visits == 0,
            n.visits@.len() == 0,
            n.flags == TURN_ROOT,
            n.temperature == 0,
    {
        Node {
            state,
            turn,
            phase,
            done: 0,
            policy_kind: POLICY_NONE,
            n_edges: 0,
            total_visits: 0,
            visits: Vec::new(),
            root_value: value,
            flags: TURN_ROOT,
            temperature: 0,
        }
    }
}

/// What the driver knows of a record beyond its node.
#[derive(Clone, Copy)]
pub struct Trailer {
    pub game_id: u64,
    pub node_idx: u16,
    pub scores: [i16; 4],
    /// The policy-loss weight, as stored bits.
    pub policy_weight: u32,
    /// The squashed outcome for each seat, as stored bits.
    pub z_rel: [u32; 4],
    pub rules_version: u32,
}

/// How many visit pairs a node's record holds.
pub open spec fn pairs_kept(n: Node) -> int {
    if n.visits@.len() > 24 {
        24
    } else {
        n.visits@.len() as int
    }
}

/// Byte `k` of a visit pair.
pub open spec fn pair_byte(v: (u16, u16), k: int) -> u8 {
    if k < 2 {
        byte_of(v.0 as int, k)
    } else {
        byte_of(v.1 as int, k - 2)
    }
}

/// The payload a node's phase travels with.
pub open spec fn node_args(n: Node) -> [u8; 5] {
    if n.phase is PickWorker {
        [n.done, 0u8, 0u8, 0u8, 0u8]
    } else {
        phase_args(n.phase)
    }
}

/// Byte `k` of a number of eight bytes.
pub open spec fn byte8(n: u64, k: int) -> u8 {
    if k < 4 {
        byte_of(n as int % 0x1_0000_0000, k)
    } else {
        byte_of(n as int / 0x1_0000_0000, k - 4)
    }
}

/// Byte `i` of a record.
pub open spec fn record_byte(n: Node, t: Trailer, i: int) -> u8 {
    if i < 293 {
        state_byte(n.state, i)
    } else if i < 320 {
        0
    } else if i < 328 {
        byte8(t.game_id, i - 320)
    } else if i < 330 {
        byte_of(t.node_idx as int, i - 328)
    } else if i == 330 {
        n.turn.0
    } else if i == 331 {
        n.phase.decider(n.turn).0
    } else if i == 332 {
        n.phase.index()
    } else if i < 338 {
        node_args(n)[i - 333]
    } else if i == 338 {
        n.policy_kind
    } else if i == 339 {
        n.flags
    } else if i < 342 {
        byte_of(n.n_edges as int, i - 340)
    } else if i < 344 {
        byte_of(pairs_kept(n), i - 342)
    } else if i < 348 {
        byte_of(n.total_visits as int, i - 344)
    } else if i < 444 {
        if (i - 348) / 4 < pairs_kept(n) {
            pair_byte(n.visits@[(i - 348) / 4], (i - 348) % 4)
        } else {
            0
        }
    } else if i < 448 {
        byte_of(t.policy_weight as int, i - 444)
    } else if i < 450 {
        byte_of(n.state.day as int, i - 448)
    } else if i == 450 {
        n.temperature
    } else if i == 451 {
        0
    } else if i < 460 {
        byte_of(unsigned16(t.scores[(i - 452) / 2]), (i - 452) % 2)
    } else if i < 476 {
        byte_of(t.z_rel[(i - 460) / 4] as int, (i - 460) % 4)
    } else if i < 492 {
        0
    } else if i < 508 {
        byte_of(n.root_value[(i - 492) / 4] as int, (i - 492) % 4)
    } else {
        byte_of(t.rules_version as int, i - 508)
    }
}

/// A node and its game's trailer as a record.
pub open spec fn record_bytes(n: Node, t: Trailer) -> Seq<u8> {
    Seq::new(512, |i: int| record_byte(n, t, i))
}

fn record_at(n: &Node, t: &Trailer, args: &[u8; 5], i: usize) -> (b: u8)
    requires
        i < RECORD_BYTES,
        n.state.ok(),
        *args == node_args(*n),
    ensures
        b == record_byte(*n, *t, i as int),
{
    let pairs: usize = if n.visits.len() > 24 {
        24
    } else {
        n.visits.len()
    };
    if i < 293 {
        encode_byte(&n.state, i)
    } else if i < 320 {
        0
    } else if i < 324 {
        low_byte((t.game_id % 0x1_0000_0000) as u32, i - 320)
    } else if i < 328 {
        low_byte((t.game_id / 0x1_0000_0000) as u32, i - 324)
    } else if i < 330 {
        low_byte(t.node_idx as u32, i - 328)
    } else if i == 330 {
        n.turn.0
    } else if i == 331 {
        n.phase.mover(n.turn).0
    } else if i == 332 {
        n.phase.tag()
    } else if i < 338 {
        args[i - 333]
    } else if i == 338 {
        n.policy_kind
    } else if i == 339 {
        n.flags
    } else if i < 342 {
        low_byte(n.n_edges as u32, i - 340)
    } else if i < 344 {
        low_byte(pairs as u32, i - 342)
    } else if i < 348 {
        low_byte(n.total_visits, i - 344)
    } else if i < 444 {
        let k: usize = (i - 348) / 4;
        let j: usize = (i - 348) % 4;
        if k < pairs {
            let (edge, count) = n.visits[k];
            if j < 2 {
                low_byte(edge as u32, j)
            } else {
                low_byte(count as u32, j - 2)
            }
        } else {
            0
        }
    } else if i < 448 {
        low_byte(t.policy_weight, i - 444)
    } else if i < 450 {
        low_byte(n.state.day as u32, i - 448)
    } else if i == 450 {
        n.temperature
    } else if i == 451 {
        0
    } else if i < 460 {
        low_byte(to_unsigned16(t.scores[(i - 452) / 2]), (i - 452) % 2)
    } else if i < 476 {
        low_byte(t.z_rel[(i - 460) / 4], (i - 460) % 4)
    } else if i < 492 {
        0
    } else if i < 508 {
        low_byte(n.root_value[(i - 492) / 4], (i - 492) % 4)
    } else {
        low_byte(t.rules_version, i - 508)
    }
}

/// Write one node and its game's trailer as a record. The win shares are known
/// only once per game: they stay zero until `patch_win_share` puts them in.
pub fn write_record(out: &mut [u8; 512], n: &Node, t: &Trailer)
    requires
        n.state.ok(),
    ensures
        final(out)@ == record_bytes(*n, *t),
{
    let (_, mut args) = encode_phase(n.phase);
    if let Phase::PickWorker = n.phase {
        args[0] = n.done;
    }
    assert(args =~= node_args(*n));
    let mut i: usize = 0;
    while i < 512
        invariant
            i <= 512,
            n.state.ok(),
            args == node_args(*n),
            forall|j: int| 0 <= j < i ==> out@[j] == record_byte(*n, *t, j),
        decreases 512 - i,
    {
        let b: u8 = record_at(n, t, &args, i);
        out[i] = b;
        i += 1;
    }
    assert(out@ =~= record_bytes(*n, *t));
}

/// A record with its win shares put in.
pub open spec fn patched(b: Seq<u8>, ws: [u32; 4]) -> Seq<u8> {
    Seq::new(
        512,
        |i: int|
            if 476 <= i < 492 {
                byte_of(ws[(i - 476) / 4] as int, (i - 476) % 4)
            } else {
                b[i]
            },
    )
}

/// Put the win shares, as stored bits, into a record already written.
pub fn patch_win_share(out: &mut [u8; 512], ws: [u32; 4])
    ensures
        final(out)@ == patched(old(out)@, ws),
{
    let mut i: usize = 476;
    while i < 492
        invariant
            476 <= i <= 492,
            forall|j: int|
                476 <= j < i ==> out@[j] == byte_of(ws[(j - 476) / 4] as int, (j - 476) % 4),
            forall|j: int| 0 <= j < 476 || i <= j < 512 ==> out@[j] == old(out)@[j],
        decreases 492 - i,
    {
        let b: u8 = low_byte(ws[(i - 476) / 4], (i - 476) % 4);
        out[i] = b;
        i += 1;
    }
    assert(out@ =~= patched(old(out)@, ws));
}

/// What a record gives back to a reader here.
pub struct ReadRecord {
    pub state: GameState,
    pub turn: PlayerId,
    pub phase: Phase,
    /// The retrieval counter.
    pub done: u8,
    pub scores: [i16; 4],
    pub rules_version: u32,
}

/// Whether something read is what a record holds.
pub open spec fn record_reads_as(b: Seq<u8>, r: ReadRecord) -> bool {
    &&& reads_as(b, r.state)
    &&& r.turn == PlayerId(b[330])
    &&& r.phase == phase_at(b[332], [b[333], b[334], b[335], b[336], b[337]])
    &&& r.done == (if r.phase is PickWorker {
        b[333]
    } else {
        0
    })
    &&& forall|i: int| 0 <= i < 4 ==> #[trigger] r.scores[i] == signed16(le16(b, 452 + 2 * i))
    &&& r.rules_version == le32(b, 508)
}

/// Read back the parts of a record that are needed here.
pub fn read_record(b: &[u8]) -> (r: ReadRecord)
    requires
        b@.len() >= RECORD_BYTES,
        readable(b@),
    ensures
        record_reads_as(b@, r),
{
    let args: [u8; 5] = [b[333], b[334], b[335], b[336], b[337]];
    assert(args =~= [b@[333], b@[334], b@[335], b@[336], b@[337]]);
    let phase = decode_phase(b[332], args);
    let done: u8 = match phase {
        Phase::PickWorker => b[333],
        _ => 0,
    };
    ReadRecord {
        state: decode_state(b),
        turn: PlayerId(b[330]),
        phase,
        done,
        scores: [read_score(b, 452), read_score(b, 454), read_score(b, 456), read_score(b, 458)],
        rules_version: read32(b, 508),
    }
}

/// Putting the win shares in changes nothing that a reader here takes from the
/// record, and the shares are found where they were put.
pub proof fn win_shares_disturb_nothing(b: Seq<u8>, ws: [u32; 4], r: ReadRecord)
    requires
        b.len() == 512,
    ensures
        readable(patched(b, ws)) == readable(b),
        record_reads_as(patched(b, ws), r) == record_reads_as(b, r),
        forall|i: int| 0 <= i < 4 ==> le32(patched(b, ws), 476 + 4 * i) == #[trigger] ws[i],
{
    let c = patched(b, ws);
    assert(forall|i: int| 0 <= i < 476 ==> c[i] == b[i]);
    assert(forall|i: int| 492 <= i < 512 ==> c[i] == b[i]);
    assert forall|i: int| 0 <= i < 4 implies le32(c, 476 + 4 * i) == #[trigger] ws[i] by {
        let o = 476 + 4 * i;
        assert(c[o] == byte_of(ws[i] as int, 0) && c[o + 1] == byte_of(ws[i] as int, 1) && c[o + 2]
            == byte_of(ws[i] as int, 2) && c[o + 3] == byte_of(ws[i] as int, 3));
    }
    assert(c.take(293) =~= b.take(293));
}

/// A record gives back what was written: the position, the seat, the phase, the
/// retrieval counter where it travels, the scores and the rules version.
pub proof fn records_round_trip(n: Node, t: Trailer, r: ReadRecord)
    requires
        n.state.ok(),
        first_space_ok(n.state),
        record_reads_as(record_bytes(n, t), r),
    ensures
        readable(record_bytes(n, t)),
        r.state == n.state,
        r.turn == n.turn,
        r.phase == n.phase,
        n.phase is PickWorker ==> r.done == n.done,
        !(n.phase is PickWorker) ==> r.done == 0,
        r.scores == t.scores,
        r.rules_version == t.rules_version,
{
    let b = record_bytes(n, t);
    assert(b.take(293) =~= state_bytes(n.state));
    positions_round_trip(n.state, b);
    crate::codec::bytes_hold_one_position(b, r.state, n.state);
    assert(b[330] == record_byte(n, t, 330));
    assert(b[332] == record_byte(n, t, 332));
    assert(b[333] == record_byte(n, t, 333));
    assert([b[333], b[334], b[335], b[336], b[337]] =~= node_args(n));
    phases_round_trip(n.phase);
    assert forall|i: int| 0 <= i < 4 implies #[trigger] r.scores[i] == t.scores[i] by {
        let o = 452 + 2 * i;
        assert(b[o] == record_byte(n, t, o));
        assert(b[o + 1] == record_byte(n, t, o + 1));
    }
    assert(r.scores =~= t.scores);
    assert(b[508] == record_byte(n, t, 508) && b[509] == record_byte(n, t, 509) && b[510]
        == record_byte(n, t, 510) && b[511] == record_byte(n, t, 511));
}

// ---- shards --------------------------------------------------------------

/// The first four bytes of a shard.
pub open spec fn magic() -> Seq<u8> {
    seq![0x54u8, 0x5Au8, 0x5Au8, 0x52u8]
}

/// Byte `i` of a shard header.
pub open spec fn header_byte(
    generation: u32,
    producer: Seq<u8>,
    now: u64,
    rules_version: u32,
    i: int,
) -> u8 {
    if i < 4 {
        magic()[i]
    } else if i < 6 {
        byte_of(FORMAT_VERSION as int, i - 4)
    } else if i < 8 {
        byte_of(HEADER_BYTES as int, i - 6)
    } else if i < 12 {
        byte_of(RECORD_BYTES as int, i - 8)
    } else if i < 16 {
        byte_of(rules_version as int, i - 12)
    } else if i < 18 {
        byte_of(STATE_BYTES as int, i - 16)
    } else if i < 20 {
        byte_of(4, i - 18)
    } else if i < 22 {
        byte_of(MAX_VISITS as int, i - 20)
    } else if i < 24 {
        0
    } else if i < 32 {
        byte8(now, i - 24)
    } else if i < 36 {
        byte_of(generation as int, i - 32)
    } else if i - 36 < producer.len() {
        producer[i - 36]
    } else {
        0
    }
}

/// A shard header. A producer's name is cut off where the header ends.
pub fn header(generation: u32, producer: &[u8], now: u64, rules_version: u32) -> (h: [u8; 64])
    ensures
        h@ == Seq::new(
            64,
            |i: int| header_byte(generation, producer@, now, rules_version, i),
        ),
{
    let mut h: [u8; 64] = [0u8; 64];
    let mut i: usize = 0;
    while i < 64
        invariant
            i <= 64,
            forall|j: int|
                0 <= j < i ==> h@[j] == header_byte(generation, producer@, now, rules_version, j),
        decreases 64 - i,
    {
        let b: u8 = if i == 0 {
            0x54
        } else if i < 3 {
            0x5A
        } else if i == 3 {
            0x52
        } else if i < 6 {
            low_byte(FORMAT_VERSION as u32, i - 4)
        } else if i < 8 {
            low_byte(HEADER_BYTES as u32, i - 6)
        } else if i < 12 {
            low_byte(RECORD_BYTES as u32, i - 8)
        } else if i < 16 {
            low_byte(rules_version, i - 12)
        } else if i < 18 {
            low_byte(STATE_BYTES as u32, i - 16)
        } else if i < 20 {
            low_byte(4, i - 18)
        } else if i < 22 {
            low_byte(MAX_VISITS as u32, i - 20)
        } else if i < 24 {
            0
        } else if i < 28 {
            low_byte((now % 0x1_0000_0000) as u32, i - 24)
        } else if i < 32 {
            low_byte((now / 0x1_0000_0000) as u32, i - 28)
        } else if i < 36 {
            low_byte(generation, i - 32)
        } else if i - 36 < producer.len() {
            producer[i - 36]
        } else {
            0
        };
        h[i] = b;
        i += 1;
    }
    assert(h@ =~= Seq::new(
        64,
        |i: int| header_byte(generation, producer@, now, rules_version, i),
    ));
    h
}

/// Whether bytes start with a shard header.
pub open spec fn is_shard(b: Seq<u8>) -> bool {
    b.len() >= 64 && b.take(4) == magic()
}

/// Record `i` of a shard.
pub open spec fn shard_record(b: Seq<u8>, i: int) -> Seq<u8> {
    b.subrange(64 + 512 * i, 64 + 512 * (i + 1))
}

/// The rules version and the records of a shard, or nothing for bytes that are
/// not one. A partial record at the end is dropped rather than failed on.
pub fn read_shard(buf: &[u8]) -> (r: Option<(u32, Vec<[u8; 512]>)>)
    ensures
        r is Some <==> is_shard(buf@),
        r matches Some(x) ==> {
            &&& x.0 == le32(buf@, 12)
            &&& x.1@.len() == (buf@.len() - 64) / 512
            &&& forall|i: int| 0 <= i < x.1@.len() ==> (#[trigger] x.1@[i])@ == shard_record(buf@, i)
        },
{
    let len: usize = buf.len();
    if len < 64 {
        return None;
    }
    if buf[0] != 0x54 || buf[1] != 0x5A || buf[2] != 0x5A || buf[3] != 0x52 {
        proof {
            if buf@.take(4) == magic() {
                assert(buf@.take(4)[0] == magic()[0] && buf@.take(4)[1] == magic()[1]
                    && buf@.take(4)[2] == magic()[2] && buf@.take(4)[3] == magic()[3]);
            }
        }
        return None;
    }
    assert(buf@.take(4) =~= magic());
    let rules: u32 = read32(buf, 12);
    let n: usize = (len - 64) / 512;
    let mut out: Vec<[u8; 512]> = Vec::new();
    let mut i: usize = 0;
    while i < n
        invariant
            i <= n,
            len == buf@.len(),
            len >= 64,
            n == (len - 64) / 512,
            out@.len() == i,
            forall|j: int| 0 <= j < i ==> (#[trigger] out@[j])@ == shard_record(buf@, j),
        decreases n - i,
    {
        let mut r: [u8; 512] = [0u8; 512];
        let mut k: usize = 0;
        while k < 512
            invariant
                k <= 512,
                i < n,
                len == buf@.len(),
                n == (len - 64) / 512,
                len >= 64,
                forall|j: int| 0 <= j < k ==> r@[j] == buf@[64 + 512 * i + j],
            decreases 512 - k,
        {
            r[k] = buf[64 + 512 * i + k];
            k += 1;
        }
        assert(r@ =~= shard_record(buf@, i as int));
        out.push(r);
        i += 1;
    }
    Some((rules, out))
}

/// Shards concatenate with whatever stands behind them: reading the front of a
/// longer run of bytes finds the same records.
pub proof fn longer_shards_keep_their_records(a: Seq<u8>, b: Seq<u8>, i: int)
    requires
        is_shard(a),
        0 <= i < (a.len() - 64) / 512,
    ensures
        is_shard(a + b),
        i < ((a + b).len() - 64) / 512,
        shard_record(a + b, i) == shard_record(a, i),
{
    assert((a + b).take(4) =~= a.take(4));
    assert(shard_record(a + b, i) =~= shard_record(a, i));
}

} // verus!
