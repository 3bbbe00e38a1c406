//! What the words that nodes are filed under tell apart.

use crate::nodekey::{
    building_no, buildings_word, flag, mixed, mixed_bytes, mixed_player, mixed_players,
    mixed_research, mixed_temples, mixed_tiles, monument_no, monuments_word, one_up, payload,
    table_word, word_at, NodeKey,
};
use crate::phase::Phase;
use crate::state::GameState;
use vstd::prelude::*;

verus! {

proof fn lemma_parts(i: u64, t: u64, d: u64, p: u64)
    requires
        i < 256,
        t < 256,
        d < 256,
        p < 0x100_0000_0000,
    ensures
        (i | t << 8 | d << 16 | p << 24) & 0xff == i,
        ((i | t << 8 | d << 16 | p << 24) >> 8) & 0xff == t,
        ((i | t << 8 | d << 16 | p << 24) >> 16) & 0xff == d,
        ((i | t << 8 | d << 16 | p << 24) >> 24) == p,
{
    assert((i | t << 8 | d << 16 | p << 24) & 0xff == i && ((i | t << 8 | d << 16 | p << 24) >> 8)
        & 0xff == t && ((i | t << 8 | d << 16 | p << 24) >> 16) & 0xff == d && ((i | t << 8 | d << 16
        | p << 24) >> 24) == p) by (bit_vector)
        requires
            i < 256,
            t < 256,
            d < 256,
            p < 0x100_0000_0000,
    ;
}

proof fn lemma_dealt(a: u64, b: u64, c: u64, d: u64, k: u64)
    requires
        a < 256,
        b < 256,
        c < 256,
        d < 256,
        k < 256,
    ensures
        (a | b << 8 | c << 16 | d << 24 | k << 32) & 0xff == a,
        ((a | b << 8 | c << 16 | d << 24 | k << 32) >> 8) & 0xff == b,
        ((a | b << 8 | c << 16 | d << 24 | k << 32) >> 16) & 0xff == c,
        ((a | b << 8 | c << 16 | d << 24 | k << 32) >> 24) & 0xff == d,
        ((a | b << 8 | c << 16 | d << 24 | k << 32) >> 32) == k,
        (a | b << 8 | c << 16 | d << 24 | k << 32) < 0x100_0000_0000,
{
    assert((a | b << 8 | c << 16 | d << 24 | k << 32) & 0xff == a && ((a | b << 8 | c << 16 | d << 24
        | k << 32) >> 8) & 0xff == b && ((a | b << 8 | c << 16 | d << 24 | k << 32) >> 16) & 0xff == c
        && ((a | b << 8 | c << 16 | d << 24 | k << 32) >> 24) & 0xff == d && ((a | b << 8 | c << 16
        | d << 24 | k << 32) >> 32) == k && (a | b << 8 | c << 16 | d << 24 | k << 32)
        < 0x100_0000_0000) by (bit_vector)
        requires
            a < 256,
            b < 256,
            c < 256,
            d < 256,
            k < 256,
    ;
}

proof fn lemma_payload(p: Phase)
    ensures
        payload(p) < 0x100_0000_0000,
{
    if let Phase::DraftTile { dealt, kept } = p {
        lemma_dealt(
            dealt[0] as u64,
            dealt[1] as u64,
            dealt[2] as u64,
            dealt[3] as u64,
            kept as u64,
        );
    }
}

/// Whether two phases are the same decision about the same things.
pub open spec fn alike(a: Phase, b: Phase) -> bool {
    match (a, b) {
        (Phase::Beg, Phase::Beg) => true,
        (Phase::Mode, Phase::Mode) => true,
        (Phase::PickWorker, Phase::PickWorker) => true,
        (Phase::PityPlace, Phase::PityPlace) => true,
        (Phase::Placing { n }, Phase::Placing { n: m }) => n == m,
        (Phase::Take { worker }, Phase::Take { worker: w }) => worker == w,
        (Phase::ExtraDay { claimer }, Phase::ExtraDay { claimer: c }) => claimer == c,
        (Phase::DraftTile { dealt, kept }, Phase::DraftTile { dealt: d, kept: k }) => kept == k
            && forall|i: int| 0 <= i < 4 ==> #[trigger] dealt[i] == d[i],
        _ => false,
    }
}

/// Nodes at different places of a turn, at another decision, with another seat to
/// move or with another number of workers done, have different words for their
/// place.
pub proof fn places_of_a_turn_have_their_own_words(a: NodeKey, b: NodeKey)
    requires
        a.place_word() == b.place_word(),
    ensures
        a.turn == b.turn,
        a.done == b.done,
        alike(a.phase, b.phase),
{
    lemma_payload(a.phase);
    lemma_payload(b.phase);
    lemma_parts(a.phase.index() as u64, a.turn.0 as u64, a.done as u64, payload(a.phase));
    lemma_parts(b.phase.index() as u64, b.turn.0 as u64, b.done as u64, payload(b.phase));
    assert(a.phase.index() == b.phase.index());
    assert(payload(a.phase) == payload(b.phase));
    if let Phase::DraftTile { dealt, kept } = a.phase {
        lemma_dealt(
            dealt[0] as u64,
            dealt[1] as u64,
            dealt[2] as u64,
            dealt[3] as u64,
            kept as u64,
        );
    }
    if let Phase::DraftTile { dealt, kept } = b.phase {
        lemma_dealt(
            dealt[0] as u64,
            dealt[1] as u64,
            dealt[2] as u64,
            dealt[3] as u64,
            kept as u64,
        );
    }
}

proof fn lemma_six(a: u64, b: u64, c: u64, d: u64, e: u64, f: u64)
    requires
        a < 512,
        b < 512,
        c < 512,
        d < 512,
        e < 512,
        f < 512,
    ensures
        ({
            let w = a ^ b << 9 ^ c << 18 ^ d << 27 ^ e << 36 ^ f << 45;
            &&& w & 0x1ff == a
            &&& (w >> 9) & 0x1ff == b
            &&& (w >> 18) & 0x1ff == c
            &&& (w >> 27) & 0x1ff == d
            &&& (w >> 36) & 0x1ff == e
            &&& (w >> 45) == f
        }),
{
    let w = a ^ b << 9 ^ c << 18 ^ d << 27 ^ e << 36 ^ f << 45;
    assert(w & 0x1ff == a && (w >> 9) & 0x1ff == b && (w >> 18) & 0x1ff == c && (w >> 27) & 0x1ff == d
        && (w >> 36) & 0x1ff == e && (w >> 45) == f) by (bit_vector)
        requires
            w == a ^ b << 9 ^ c << 18 ^ d << 27 ^ e << 36 ^ f << 45,
            a < 512,
            b < 512,
            c < 512,
            d < 512,
            e < 512,
            f < 512,
    ;
}

/// Displays with other cards, or with cards elsewhere, have different words.
pub proof fn displays_have_their_own_words(g: GameState, h: GameState, i: int)
    requires
        0 <= i < 6,
    ensures
        buildings_word(g) == buildings_word(h) ==> g.buildings_up[i] == h.buildings_up[i],
        monuments_word(g) == monuments_word(h) ==> g.monuments_up[i] == h.monuments_up[i],
{
    lemma_six(
        one_up(building_no(g, 0)),
        one_up(building_no(g, 1)),
        one_up(building_no(g, 2)),
        one_up(building_no(g, 3)),
        one_up(building_no(g, 4)),
        one_up(building_no(g, 5)),
    );
    lemma_six(
        one_up(building_no(h, 0)),
        one_up(building_no(h, 1)),
        one_up(building_no(h, 2)),
        one_up(building_no(h, 3)),
        one_up(building_no(h, 4)),
        one_up(building_no(h, 5)),
    );
    lemma_six(
        one_up(monument_no(g, 0)),
        one_up(monument_no(g, 1)),
        one_up(monument_no(g, 2)),
        one_up(monument_no(g, 3)),
        one_up(monument_no(g, 4)),
        one_up(monument_no(g, 5)),
    );
    lemma_six(
        one_up(monument_no(h, 0)),
        one_up(monument_no(h, 1)),
        one_up(monument_no(h, 2)),
        one_up(monument_no(h, 3)),
        one_up(monument_no(h, 4)),
        one_up(monument_no(h, 5)),
    );
}

proof fn lemma_table(
    f: u64,
    c: u64,
    s: u64,
    w: u64,
    p: u64,
    q: u64,
    age: u64,
    day: u64,
    over: u64,
    n: u64,
)
    requires
        f < 0x1_0000,
        c < 256,
        s < 256,
        w < 256,
        p < 8,
        q < 8,
        age < 4,
        day < 256,
        over < 2,
        n < 128,
    ensures
        ({
            let x = f | c << 16 | s << 24 | w << 32 | p << 40 | q << 43 | age << 46 | day << 48 | over
                << 56 | n << 57;
            &&& x & 0xffff == f
            &&& (x >> 16) & 0xff == c
            &&& (x >> 24) & 0xff == s
            &&& (x >> 32) & 0xff == w
            &&& (x >> 40) & 7 == p
            &&& (x >> 43) & 7 == q
            &&& (x >> 46) & 3 == age
            &&& (x >> 48) & 0xff == day
            &&& (x >> 56) & 1 == over
            &&& (x >> 57) == n
        }),
{
    let x = f | c << 16 | s << 24 | w << 32 | p << 40 | q << 43 | age << 46 | day << 48 | over << 56 | n
        << 57;
    assert(x & 0xffff == f && (x >> 16) & 0xff == c && (x >> 24) & 0xff == s && (x >> 32) & 0xff == w
        && (x >> 40) & 7 == p && (x >> 43) & 7 == q && (x >> 46) & 3 == age && (x >> 48) & 0xff == day
        && (x >> 56) & 1 == over && (x >> 57) == n) by (bit_vector)
        requires
            x == f | c << 16 | s << 24 | w << 32 | p << 40 | q << 43 | age << 46 | day << 48 | over << 56
                | n << 57,
            f < 0x1_0000,
            c < 256,
            s < 256,
            w < 256,
            p < 8,
            q < 8,
            age < 4,
            day < 256,
            over < 2,
            n < 128,
    ;
}

/// The number a space of the first player is filed by.
pub open spec fn holder_no(g: GameState) -> u64 {
    match g.first_player_space {
        Some(w) => (w.0 + 1) as u64,
        None => 0,
    }
}

proof fn lemma_table_of(g: GameState)
    requires
        g.current.0 < 4,
        g.first_player.0 < 4,
        g.age < 4,
        g.age1.next < 128,
        g.first_player_space matches Some(w) ==> w.0 < 24,
    ensures
        ({
            let x = table_word(g);
            &&& x & 0xffff == g.chichen_filled
            &&& (x >> 16) & 0xff == g.accumulated_corn
            &&& (x >> 24) & 0xff == g.skulls_remaining
            &&& (x >> 32) & 0xff == holder_no(g)
            &&& (x >> 40) & 7 == g.current.0
            &&& (x >> 43) & 7 == g.first_player.0
            &&& (x >> 46) & 3 == g.age
            &&& (x >> 48) & 0xff == g.day
            &&& (x >> 56) & 1 == flag(g.over)
            &&& (x >> 57) == g.age1.next
        }),
{
    lemma_table(
        g.chichen_filled as u64,
        g.accumulated_corn as u64,
        g.skulls_remaining as u64,
        holder_no(g),
        g.current.0 as u64,
        g.first_player.0 as u64,
        g.age as u64,
        g.day as u64,
        flag(g.over),
        g.age1.next as u64,
    );
}

/// Tables that differ in the skulls put down, the corn or the skulls left, the
/// first player's space, who moves, who is first, the age, the day, whether the
/// game is over or how far the cards are dealt have different words.
pub proof fn tables_have_their_own_words(g: GameState, h: GameState)
    requires
        table_word(g) == table_word(h),
        g.current.0 < 4 && h.current.0 < 4,
        g.first_player.0 < 4 && h.first_player.0 < 4,
        g.age < 4 && h.age < 4,
        g.age1.next < 128 && h.age1.next < 128,
        g.first_player_space matches Some(w) ==> w.0 < 24,
        h.first_player_space matches Some(w) ==> w.0 < 24,
    ensures
        g.chichen_filled == h.chichen_filled,
        g.accumulated_corn == h.accumulated_corn,
        g.skulls_remaining == h.skulls_remaining,
        g.first_player_space == h.first_player_space,
        g.current == h.current,
        g.first_player == h.first_player,
        g.age == h.age,
        g.day == h.day,
        g.over == h.over,
        g.age1.next == h.age1.next,
{
    lemma_table_of(g);
    lemma_table_of(h);
}

/// Bytes are taken eight at a time, the lowest first, and what is missing of the
/// last eight counts as zero.
pub proof fn bytes_are_taken_eight_at_a_time(b: Seq<u8>, h: u64, i: int)
    requires
        0 <= i,
    ensures
        i + 8 <= b.len() ==> word_at(b, i) == b[i] + 0x100 * b[i + 1] + 0x1_0000 * b[i + 2] + 0x100_0000
            * b[i + 3] + 0x1_0000_0000 * b[i + 4] + 0x100_0000_0000 * b[i + 5] + 0x1_0000_0000_0000
            * b[i + 6] + 0x100_0000_0000_0000 * b[i + 7],
        i + 4 == b.len() ==> word_at(b, i) == b[i] + 0x100 * b[i + 1] + 0x1_0000 * b[i + 2]
            + 0x100_0000 * b[i + 3],
        i >= b.len() ==> mixed_bytes(h, b, i) == h,
        i < b.len() ==> mixed_bytes(h, b, i) == mixed_bytes(
            (h ^ word_at(b, i)).wrapping_mul(0x0100_0000_01b3),
            b,
            i + 8,
        ),
{
}

/// A position's word takes in every seat, every temple, every track and every
/// space of the jungle, one after the other.
pub proof fn every_row_is_taken_in(g: GameState, h: u64)
    ensures
        mixed_players(h, g, 0) == mixed_player(
            mixed_player(
                mixed_player(mixed_player(h, g.players[0]), g.players[1]),
                g.players[2],
            ),
            g.players[3],
        ),
        mixed_temples(h, g, 0) == mixed_bytes(
            mixed_bytes(mixed_bytes(h, g.temples[0]@, 0), g.temples[1]@, 0),
            g.temples[2]@,
            0,
        ),
        mixed_research(h, g, 0) == mixed_bytes(
            mixed_bytes(
                mixed_bytes(mixed_bytes(h, g.research[0]@, 0), g.research[1]@, 0),
                g.research[2]@,
                0,
            ),
            g.research[3]@,
            0,
        ),
        forall|i: int|
            0 <= i < 8 ==> #[trigger] mixed_tiles(h, g, i) == mixed_tiles(
                mixed(h, g.palenque[i].corn as u64 | (g.palenque[i].wood as u64) << 8),
                g,
                i + 1,
            ),
        mixed_tiles(h, g, 8) == h,
{
    reveal_with_fuel(mixed_players, 5);
    reveal_with_fuel(mixed_temples, 4);
    reveal_with_fuel(mixed_research, 5);
}

} // verus!
