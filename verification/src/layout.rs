//! Where everything lies in a record, a position and a shard header.
//!
//! Numbers are written low byte first, scores in two's complement.

use crate::codec::{
    byte_of, color_number, phase_args, player_byte, state_byte, state_bytes, unsigned16,
};
use crate::ids::{Color, Gear, PlayerId};
use crate::phase::Phase;
use crate::record::{
    byte8, header_byte, is_shard, magic, patched, record_byte, record_bytes, shard_record, Node,
    Trailer,
};
use crate::state::{GameState, Player, WorkerLoc};
use vstd::prelude::*;

verus! {

/// Two bytes as a number.
pub open spec fn word2(b: Seq<u8>, i: int) -> int {
    b[i] + 256 * b[i + 1]
}

/// Four bytes as a number.
pub open spec fn word4(b: Seq<u8>, i: int) -> int {
    b[i] + 256 * b[i + 1] + 65536 * b[i + 2] + 16777216 * b[i + 3]
}

/// Eight bytes as a number.
pub open spec fn word8(b: Seq<u8>, i: int) -> int {
    word4(b, i) + 4294967296 * word4(b, i + 4)
}

/// Two bytes as a score.
pub open spec fn score2(b: Seq<u8>, i: int) -> int {
    if word2(b, i) < 32768 {
        word2(b, i)
    } else {
        word2(b, i) - 65536
    }
}

proof fn lemma_word2(b: Seq<u8>, i: int, v: int)
    requires
        0 <= v < 65536,
        b[i] == byte_of(v, 0),
        b[i + 1] == byte_of(v, 1),
    ensures
        word2(b, i) == v,
{
}

proof fn lemma_word4(b: Seq<u8>, i: int, v: int)
    requires
        0 <= v < 4294967296,
        b[i] == byte_of(v, 0),
        b[i + 1] == byte_of(v, 1),
        b[i + 2] == byte_of(v, 2),
        b[i + 3] == byte_of(v, 3),
    ensures
        word4(b, i) == v,
{
}

proof fn lemma_word8(b: Seq<u8>, i: int, v: u64)
    requires
        forall|k: int| 0 <= k < 8 ==> b[i + k] == #[trigger] byte8(v, k),
    ensures
        word8(b, i) == v,
{
    let lo = v as int % 0x1_0000_0000;
    let hi = v as int / 0x1_0000_0000;
    assert(b[i + 0] == byte8(v, 0) && b[i + 1] == byte8(v, 1) && b[i + 2] == byte8(v, 2) && b[i + 3]
        == byte8(v, 3));
    assert(b[i + 4] == byte8(v, 4) && b[i + 5] == byte8(v, 5) && b[i + 6] == byte8(v, 6) && b[i + 7]
        == byte8(v, 7));
    lemma_word4(b, i, lo);
    lemma_word4(b, i + 4, hi);
}

proof fn lemma_score2(b: Seq<u8>, i: int, v: i16)
    requires
        b[i] == byte_of(unsigned16(v), 0),
        b[i + 1] == byte_of(unsigned16(v), 1),
    ensures
        score2(b, i) == v,
{
    lemma_word2(b, i, unsigned16(v));
}

// ---- phases --------------------------------------------------------------

/// The number of each phase, and what its five bytes hold.
pub proof fn phases_have_their_numbers(p: Phase)
    ensures
        ({
            let a = phase_args(p);
            match p {
                Phase::Beg => p.index() == 0 && a@ == seq![0u8, 0u8, 0u8, 0u8, 0u8],
                Phase::Mode => p.index() == 1 && a@ == seq![0u8, 0u8, 0u8, 0u8, 0u8],
                Phase::Placing { n } => p.index() == 2 && a@ == seq![n, 0u8, 0u8, 0u8, 0u8],
                Phase::PickWorker => p.index() == 3 && a@ == seq![0u8, 0u8, 0u8, 0u8, 0u8],
                Phase::Take { worker } => p.index() == 4 && a@ == seq![
                    worker.0,
                    0u8,
                    0u8,
                    0u8,
                    0u8,
                ],
                Phase::ExtraDay { claimer } => p.index() == 5 && a@ == seq![
                    claimer.0,
                    0u8,
                    0u8,
                    0u8,
                    0u8,
                ],
                Phase::PityPlace => p.index() == 6 && a@ == seq![0u8, 0u8, 0u8, 0u8, 0u8],
                Phase::DraftTile { dealt, kept } => p.index() == 7 && a@ == seq![
                    dealt[0],
                    dealt[1],
                    dealt[2],
                    dealt[3],
                    kept,
                ],
            }
        }),
{
    let a = phase_args(p);
    assert(a@.len() == 5);
    match p {
        Phase::Placing { n } => assert(a@ =~= seq![n, 0u8, 0u8, 0u8, 0u8]),
        Phase::Take { worker } => assert(a@ =~= seq![worker.0, 0u8, 0u8, 0u8, 0u8]),
        Phase::ExtraDay { claimer } => assert(a@ =~= seq![claimer.0, 0u8, 0u8, 0u8, 0u8]),
        Phase::DraftTile { dealt, kept } => assert(a@ =~= seq![
            dealt[0],
            dealt[1],
            dealt[2],
            dealt[3],
            kept,
        ]),
        _ => assert(a@ =~= seq![0u8, 0u8, 0u8, 0u8, 0u8]),
    }
}

/// The decision between rounds is its claimer's, and every other that of the seat
/// whose turn it is.
pub proof fn phases_are_decided_by_the_turn_or_the_claimer(p: Phase, turn: PlayerId)
    ensures
        match p {
            Phase::ExtraDay { claimer } => p.decider(turn) == claimer,
            _ => p.decider(turn) == turn,
        },
{
}

// ---- records -------------------------------------------------------------

/// How many visit pairs a record has room for, at most.
pub open spec fn pairs_in(n: Node) -> int {
    if n.visits@.len() <= 24 {
        n.visits@.len() as int
    } else {
        24
    }
}

proof fn lemma_bytes(n: Node, t: Trailer, i: int)
    requires
        0 <= i < 508,
    ensures
        record_bytes(n, t)[i] == record_byte(n, t, i),
        record_bytes(n, t)[i + 1] == record_byte(n, t, i + 1),
        record_bytes(n, t)[i + 2] == record_byte(n, t, i + 2),
        record_bytes(n, t)[i + 3] == record_byte(n, t, i + 3),
{
}

/// A record holds its position, its node and its game's numbers where a reader
/// looks for them.
pub proof fn records_hold_their_numbers(n: Node, t: Trailer)
    ensures
        ({
            let b = record_bytes(n, t);
            &&& b.len() == 512
            &&& b.take(293) == state_bytes(n.state)
            &&& forall|i: int| 293 <= i < 320 ==> #[trigger] b[i] == 0
            &&& word8(b, 320) == t.game_id
            &&& word2(b, 328) == t.node_idx
            &&& b[330] == n.turn.0
            &&& b[331] == (match n.phase {
                Phase::ExtraDay { claimer } => claimer.0,
                _ => n.turn.0,
            })
            &&& b[332] == n.phase.index()
            &&& b[338] == n.policy_kind
            &&& b[339] == n.flags
            &&& word2(b, 340) == n.n_edges
            &&& word2(b, 342) == pairs_in(n)
            &&& word4(b, 344) == n.total_visits
            &&& word4(b, 444) == t.policy_weight
            &&& word2(b, 448) == n.state.day
            &&& b[450] == n.temperature
            &&& b[451] == 0
            &&& word4(b, 508) == t.rules_version
        }),
{
    let b = record_bytes(n, t);
    assert(b.take(293) =~= state_bytes(n.state));
    assert forall|k: int| 0 <= k < 8 implies b[320 + k] == #[trigger] byte8(t.game_id, k) by {}
    lemma_word8(b, 320, t.game_id);
    lemma_word2(b, 328, t.node_idx as int);
    lemma_word2(b, 340, n.n_edges as int);
    lemma_word2(b, 342, pairs_in(n));
    lemma_word4(b, 344, n.total_visits as int);
    lemma_word4(b, 444, t.policy_weight as int);
    lemma_word2(b, 448, n.state.day as int);
    lemma_word4(b, 508, t.rules_version as int);
}

/// A record holds its phase's five bytes, with the retrieval counter in front where
/// the next worker is picked.
pub proof fn records_hold_their_phase(n: Node, t: Trailer, k: int)
    requires
        0 <= k < 5,
    ensures
        record_bytes(n, t)[333 + k] == (if n.phase is PickWorker {
            if k == 0 {
                n.done
            } else {
                0
            }
        } else {
            phase_args(n.phase)[k]
        }),
{
    assert(record_bytes(n, t)[333 + k] == record_byte(n, t, 333 + k));
}

/// A record holds each kept visit as its edge and its count, best first, and zeros
/// behind the last.
pub proof fn records_hold_their_visits(n: Node, t: Trailer, k: int)
    requires
        0 <= k < 24,
    ensures
        k < pairs_in(n) ==> word2(record_bytes(n, t), 348 + 4 * k) == n.visits@[k].0 && word2(
            record_bytes(n, t),
            350 + 4 * k,
        ) == n.visits@[k].1,
        k >= pairs_in(n) ==> word4(record_bytes(n, t), 348 + 4 * k) == 0,
{
    let o = 348 + 4 * k;
    lemma_bytes(n, t, o);
    assert((o - 348) / 4 == k && (o + 1 - 348) / 4 == k && (o + 2 - 348) / 4 == k && (o + 3 - 348)
        / 4 == k);
    assert((o - 348) % 4 == 0 && (o + 1 - 348) % 4 == 1 && (o + 2 - 348) % 4 == 2 && (o + 3 - 348)
        % 4 == 3);
}

/// A record holds each seat's score, outcome and estimate in seat order, and room
/// for its win share.
pub proof fn records_hold_every_seats_numbers(n: Node, t: Trailer, q: int)
    requires
        0 <= q < 4,
    ensures
        score2(record_bytes(n, t), 452 + 2 * q) == t.scores[q],
        word4(record_bytes(n, t), 460 + 4 * q) == t.z_rel[q],
        word4(record_bytes(n, t), 476 + 4 * q) == 0,
        word4(record_bytes(n, t), 492 + 4 * q) == n.root_value[q],
{
    let b = record_bytes(n, t);
    lemma_seat_score(n, t, q);
    lemma_seat_words(n, t, q);
    lemma_score2(b, 452 + 2 * q, t.scores[q]);
    lemma_word4(b, 460 + 4 * q, t.z_rel[q] as int);
    lemma_word4(b, 492 + 4 * q, n.root_value[q] as int);
    assert(b[476 + 4 * q] == 0 && b[477 + 4 * q] == 0 && b[478 + 4 * q] == 0 && b[479 + 4 * q] == 0);
}

proof fn lemma_seat_score(n: Node, t: Trailer, q: int)
    requires
        0 <= q < 4,
    ensures
        record_bytes(n, t)[452 + 2 * q] == byte_of(unsigned16(t.scores[q]), 0),
        record_bytes(n, t)[452 + 2 * q + 1] == byte_of(unsigned16(t.scores[q]), 1),
{
    assert(record_bytes(n, t)[452 + 2 * q] == record_byte(n, t, 452 + 2 * q));
    assert(record_bytes(n, t)[453 + 2 * q] == record_byte(n, t, 453 + 2 * q));
}

proof fn lemma_seat_words(n: Node, t: Trailer, q: int)
    requires
        0 <= q < 4,
    ensures
        forall|k: int|
            0 <= k < 4 ==> record_bytes(n, t)[460 + 4 * q + k] == #[trigger] byte_of(
                t.z_rel[q] as int,
                k,
            ),
        forall|k: int|
            0 <= k < 4 ==> record_bytes(n, t)[492 + 4 * q + k] == #[trigger] byte_of(
                n.root_value[q] as int,
                k,
            ),
{
    assert forall|k: int| 0 <= k < 4 implies record_bytes(n, t)[460 + 4 * q + k]
        == #[trigger] byte_of(t.z_rel[q] as int, k) by {
        assert((4 * q + k) / 4 == q && (4 * q + k) % 4 == k);
        assert(record_bytes(n, t)[460 + 4 * q + k] == record_byte(n, t, 460 + 4 * q + k));
    }
    assert forall|k: int| 0 <= k < 4 implies record_bytes(n, t)[492 + 4 * q + k]
        == #[trigger] byte_of(n.root_value[q] as int, k) by {
        assert((4 * q + k) / 4 == q && (4 * q + k) % 4 == k);
        assert(record_bytes(n, t)[492 + 4 * q + k] == record_byte(n, t, 492 + 4 * q + k));
    }
}

/// Win shares go where a record left room for them, in seat order, and change no
/// other byte.
pub proof fn win_shares_go_where_there_is_room(b: Seq<u8>, ws: [u32; 4], q: int, i: int)
    requires
        b.len() == 512,
        0 <= q < 4,
        0 <= i < 512,
    ensures
        word4(patched(b, ws), 476 + 4 * q) == ws[q],
        !(476 <= i < 492) ==> patched(b, ws)[i] == b[i],
        patched(b, ws).len() == 512,
{
    let c = patched(b, ws);
    let o = 476 + 4 * q;
    let v = ws[q] as int;
    assert(c[o] == byte_of(v, 0) && c[o + 1] == byte_of(v, 1) && c[o + 2]
        == byte_of(v, 2) && c[o + 3] == byte_of(v, 3));
}

// ---- headers -------------------------------------------------------------

/// A shard header starts with its mark and names the format, its own length, that
/// of a record and of a position, the seats, the visits kept, when and by whom it
/// was made.
pub proof fn headers_name_the_format(
    generation: u32,
    producer: Seq<u8>,
    now: u64,
    rules_version: u32,
    b: Seq<u8>,
)
    requires
        b == Seq::new(64, |i: int| header_byte(generation, producer, now, rules_version, i)),
    ensures
        b.len() == 64,
        b[0] == 0x54 && b[1] == 0x5A && b[2] == 0x5A && b[3] == 0x52,
        word2(b, 4) == 1,
        word2(b, 6) == 64,
        word4(b, 8) == 512,
        word4(b, 12) == rules_version,
        word2(b, 16) == 293,
        word2(b, 18) == 4,
        word2(b, 20) == 24,
        word2(b, 22) == 0,
        word8(b, 24) == now,
        word4(b, 32) == generation,
        forall|i: int|
            36 <= i < 64 ==> #[trigger] b[i] == (if i - 36 < producer.len() {
                producer[i - 36]
            } else {
                0
            }),
        is_shard(b),
{
    assert(forall|i: int|
        0 <= i < 64 ==> #[trigger] b[i] == header_byte(
            generation,
            producer,
            now,
            rules_version,
            i,
        ));
    lemma_word2(b, 4, 1);
    lemma_word2(b, 6, 64);
    lemma_word4(b, 8, 512);
    lemma_word4(b, 12, rules_version as int);
    lemma_word2(b, 16, 293);
    lemma_word2(b, 18, 4);
    lemma_word2(b, 20, 24);
    assert forall|k: int| 0 <= k < 8 implies b[24 + k] == #[trigger] byte8(now, k) by {}
    lemma_word8(b, 24, now);
    lemma_word4(b, 32, generation as int);
    assert(b.take(4) =~= magic());
}

/// Bytes are a shard when they hold a whole header that starts with its mark; its
/// records follow one another from there.
pub proof fn shards_start_with_their_mark(b: Seq<u8>, i: int, k: int)
    requires
        0 <= i,
        0 <= k < 512,
        64 + 512 * (i + 1) <= b.len(),
    ensures
        is_shard(b) <==> b[0] == 0x54 && b[1] == 0x5A && b[2] == 0x5A && b[3] == 0x52,
        shard_record(b, i).len() == 512,
        shard_record(b, i)[k] == b[64 + 512 * i + k],
{
    if b[0] == 0x54 && b[1] == 0x5A && b[2] == 0x5A && b[3] == 0x52 {
        assert(b.take(4) =~= magic());
    }
    if b.take(4) == magic() {
        assert(b.take(4)[0] == magic()[0] && b.take(4)[1] == magic()[1] && b.take(4)[2]
            == magic()[2] && b.take(4)[3] == magic()[3]);
    }
}

// ---- positions -----------------------------------------------------------

proof fn lemma_state_bytes(g: GameState, i: int)
    requires
        0 <= i < 293,
    ensures
        state_bytes(g)[i] == state_byte(g, i),
{
}

/// A position holds each seat in nineteen bytes: the colour, the corn, the four
/// resources, the score, the tiles, the workers' allowances, whether a day may be
/// skipped, and the cards.
pub proof fn positions_hold_every_seat(g: GameState, q: int)
    requires
        0 <= q < 4,
    ensures
        ({
            let b = state_bytes(g);
            let o = 19 * q;
            let pl = g.players[q];
            &&& b.len() == 293
            &&& b[o] == (match pl.color {
                Color::Red => 0u8,
                Color::Green => 1,
                Color::Blue => 2,
                Color::Yellow => 3,
            })
            &&& b[o + 1] == pl.corn
            &&& b[o + 2] == pl.res[0] && b[o + 3] == pl.res[1] && b[o + 4] == pl.res[2] && b[o + 5]
                == pl.res[3]
            &&& score2(b, o + 6) == pl.points
            &&& b[o + 8] == pl.corn_tiles && b[o + 9] == pl.wood_tiles
            &&& b[o + 10] == pl.free_workers && b[o + 11] == pl.worker_discount
            &&& b[o + 12] == (if pl.may_skip_day {
                1u8
            } else {
                0
            })
            &&& word4(b, o + 13) == pl.buildings
            &&& word2(b, o + 17) == pl.monuments
        }),
{
    let o = 19 * q;
    let b = state_bytes(g);
    assert forall|k: int| 0 <= k < 19 implies b[o + k] == #[trigger] player_byte(
        g.players[q],
        k,
    ) by {
        lemma_state_bytes(g, o + k);
        assert((o + k) / 19 == q && (o + k) % 19 == k) by (nonlinear_arith)
            requires
                o == 19 * q,
                0 <= k < 19,
                0 <= q,
        ;
    }
    let pl = g.players[q];
    lemma_seat_bytes(b, o, pl);
}

proof fn lemma_seat_bytes(b: Seq<u8>, o: int, pl: Player)
    requires
        forall|k: int| 0 <= k < 19 ==> b[o + k] == #[trigger] player_byte(pl, k),
    ensures
        b[o] == color_number(pl.color),
        b[o + 1] == pl.corn,
        b[o + 2] == pl.res[0] && b[o + 3] == pl.res[1] && b[o + 4] == pl.res[2] && b[o + 5]
            == pl.res[3],
        score2(b, o + 6) == pl.points,
        b[o + 8] == pl.corn_tiles && b[o + 9] == pl.wood_tiles,
        b[o + 10] == pl.free_workers && b[o + 11] == pl.worker_discount,
        b[o + 12] == (if pl.may_skip_day {
            1u8
        } else {
            0
        }),
        word4(b, o + 13) == pl.buildings,
        word2(b, o + 17) == pl.monuments,
{
    assert(b[o + 0] == player_byte(pl, 0));
    assert(b[o + 1] == player_byte(pl, 1));
    assert(b[o + 2] == player_byte(pl, 2) && b[o + 3] == player_byte(pl, 3));
    assert(b[o + 4] == player_byte(pl, 4) && b[o + 5] == player_byte(pl, 5));
    assert(b[o + 6] == player_byte(pl, 6) && b[o + 7] == player_byte(pl, 7));
    assert(b[o + 8] == player_byte(pl, 8) && b[o + 9] == player_byte(pl, 9));
    assert(b[o + 10] == player_byte(pl, 10) && b[o + 11] == player_byte(pl, 11));
    assert(b[o + 12] == player_byte(pl, 12));
    assert(b[o + 13] == player_byte(pl, 13) && b[o + 14] == player_byte(pl, 14));
    assert(b[o + 15] == player_byte(pl, 15) && b[o + 16] == player_byte(pl, 16));
    assert(b[o + 17] == player_byte(pl, 17) && b[o + 18] == player_byte(pl, 18));
    lemma_score2(b, o + 6, pl.points);
    lemma_word4(b, o + 13, pl.buildings as int);
    lemma_word2(b, o + 17, pl.monuments as int);
}

/// A position holds each worker's place in two bytes: locked, in hand, on a gear
/// with the gear and the space, or on the first player space.
pub proof fn positions_hold_every_worker(g: GameState, w: int)
    requires
        0 <= w < 24,
        g.ok(),
    ensures
        ({
            let b = state_bytes(g);
            let kind = b[76 + 2 * w];
            let at = b[77 + 2 * w];
            match g.workers[w] {
                WorkerLoc::Locked => kind == 0 && at == 0,
                WorkerLoc::Available => kind == 1 && at == 0,
                WorkerLoc::OnGear { gear, pos } => kind == 2 && at == (match gear {
                    Gear::Palenque => 0int,
                    Gear::Yaxchilan => 16,
                    Gear::Tikal => 32,
                    Gear::Uxmal => 48,
                    Gear::Chichen => 64,
                }) + pos.0,
                WorkerLoc::FirstPlayerSpace => kind == 3 && at == 0,
            }
        }),
{
    lemma_state_bytes(g, 76 + 2 * w);
    lemma_state_bytes(g, 77 + 2 * w);
    assert(g.workers[w].ok());
}

/// A position holds the gears, the temples, the tracks and the jungle row by row.
pub proof fn positions_hold_the_board(g: GameState, r: int, k: int)
    requires
        0 <= r,
        0 <= k,
    ensures
        r < 5 && k < 11 ==> state_bytes(g)[124 + 11 * r + k] == g.gears[r].occ[k],
        r < 3 && k < 4 ==> state_bytes(g)[179 + 4 * r + k] == g.temples[r][k],
        r < 4 && k < 4 ==> state_bytes(g)[191 + 4 * r + k] == g.research[r][k],
        r < 8 ==> state_bytes(g)[207 + 2 * r] == g.palenque[r].corn && state_bytes(g)[208 + 2 * r]
            == g.palenque[r].wood,
        word2(state_bytes(g), 223) == g.chichen_filled,
{
    if r < 5 && k < 11 {
        lemma_state_bytes(g, 124 + 11 * r + k);
        assert((11 * r + k) / 11 == r && (11 * r + k) % 11 == k) by (nonlinear_arith)
            requires
                0 <= k < 11,
                0 <= r,
        ;
    }
    if r < 3 && k < 4 {
        lemma_state_bytes(g, 179 + 4 * r + k);
    }
    if r < 4 && k < 4 {
        lemma_state_bytes(g, 191 + 4 * r + k);
    }
    if r < 8 {
        lemma_state_bytes(g, 207 + 2 * r);
        lemma_state_bytes(g, 208 + 2 * r);
    }
    lemma_state_bytes(g, 223);
    lemma_state_bytes(g, 224);
}

/// A position holds the decks with how far they are drawn, the displays with zero
/// for an empty slot, and the calendar.
pub proof fn positions_hold_the_cards_and_the_calendar(g: GameState, k: int)
    requires
        0 <= k,
    ensures
        ({
            let b = state_bytes(g);
            &&& k < 14 ==> b[225 + k] == g.age1.ids[k]
            &&& b[239] == g.age1.next
            &&& k < 18 ==> b[240 + k] == g.age2.ids[k]
            &&& b[258] == g.age2.next
            &&& k < 13 ==> b[259 + k] == g.monument_deck.ids[k]
            &&& b[272] == g.monument_deck.next
            &&& k < 6 ==> b[273 + k] == (match g.buildings_up[k] {
                Some(id) => id.0,
                None => 0u8,
            })
            &&& k < 6 ==> b[279 + k] == (match g.monuments_up[k] {
                Some(id) => id.0,
                None => 0u8,
            })
            &&& b[285] == (match g.first_player_space {
                Some(w) => w.0,
                None => 255u8,
            })
            &&& b[286] == g.accumulated_corn
            &&& b[287] == g.skulls_remaining
            &&& b[288] == g.current.0
            &&& b[289] == g.first_player.0
            &&& b[290] == g.age
            &&& b[291] == g.day
            &&& b[292] == (if g.over {
                1u8
            } else {
                0
            })
        }),
{
    if k < 14 {
        lemma_state_bytes(g, 225 + k);
    }
    if k < 18 {
        lemma_state_bytes(g, 240 + k);
    }
    if k < 13 {
        lemma_state_bytes(g, 259 + k);
    }
    if k < 6 {
        lemma_state_bytes(g, 273 + k);
        lemma_state_bytes(g, 279 + k);
    }
    lemma_state_bytes(g, 239);
    lemma_state_bytes(g, 258);
    lemma_state_bytes(g, 272);
}

} // verus!
