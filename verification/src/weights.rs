//! What a network is made of, what is planned for a batch, and what effects are
//! priced at, stated apart from how each is worked out.

use crate::bundle::Contents;
use crate::checkpoint::{
    back, block, blocks, drawn, front, loaded, manifest, misfits, note, noted_arch, noted_number,
    noted_version, place_of, policy_heads, pointer_head, value_heads, Geometry, Init, LoadFailure,
    Named, SlotShape,
};
use crate::effect::Effect;
use crate::fields::numbers_read_back;
use crate::forward::{plans, points, stem, EdgeSpec, Offsets, Plan, StemLayer};
use crate::ids::{PlayerId, Resource, Science, Temple};
use crate::net::{seat_off, survives, Arch};
use crate::phase::Phase;
use crate::pricing::EffectPrice;
use crate::text::digits;
use vstd::prelude::*;

verus! {

// ---- perspective ---------------------------------------------------------

/// Going round the table from the mover counts the places of its perspective.
pub proof fn perspectives_go_round_from_the_mover(mover: PlayerId, k: int)
    requires
        mover.ok(),
        0 <= k < 4,
    ensures
        seat_off(mover, (mover.0 + k) % 4) == k,
        forall|seat: int| 0 <= seat < 4 ==> (mover.0 + #[trigger] seat_off(mover, seat)) % 4 == seat,
{
}

// ---- the fused row -------------------------------------------------------

/// Each product of the fused row reads its own features: the board's, the four
/// players' one after the other, the six buildings', the six monuments', and the
/// globals in two parts that use the layer's columns between them.
pub proof fn stems_read_their_own_features(a: Arch, g: Geometry, o: Offsets, k: int)
    requires
        o.ok(g),
        g.d_in <= usize::MAX,
        0 <= k < 19,
    ensures
        ({
            let s = stem(a, g, o, k);
            &&& s.layer == StemLayer::Board <==> k == 0
            &&& s.layer == StemLayer::Player <==> 1 <= k <= 4
            &&& s.layer == StemLayer::Building <==> 5 <= k <= 10
            &&& s.layer == StemLayer::Monument <==> 11 <= k <= 16
            &&& s.layer == StemLayer::Global <==> 17 <= k
            &&& s.layer == StemLayer::Board ==> s.inp == g.board_w && s.out == a.board && s.from
                == o.board
            &&& s.layer == StemLayer::Player ==> s.inp == g.player_w && s.out == a.player
            &&& s.layer == StemLayer::Building ==> s.inp == g.bslot_w && s.out == a.bslot
            &&& s.layer == StemLayer::Monument ==> s.inp == g.mslot_w && s.out == a.mslot
            &&& s.layer == StemLayer::Global ==> s.out == a.globals
            &&& k < 18 ==> s.at == 0
            &&& s.from + s.inp <= g.d_in
        }),
        stem(a, g, o, 1).from == o.players,
        stem(a, g, o, 5).from == o.bslots,
        stem(a, g, o, 11).from == o.mslots,
        stem(a, g, o, 17).from == o.global,
        stem(a, g, o, 18).from == o.reserved,
        k != 0 && k != 4 && k != 10 && k < 16 ==> stem(a, g, o, k + 1).from == stem(a, g, o, k).from
            + stem(a, g, o, k).inp,
        stem(a, g, o, 17).inp == o.global_w,
        stem(a, g, o, 18).at == stem(a, g, o, 17).inp,
        stem(a, g, o, 17).inp + stem(a, g, o, 18).inp == g.global_w,
{
    lemma_read(k - 1, g.player_w as int, 4);
    lemma_read(k - 5, g.bslot_w as int, 6);
    lemma_read(k - 11, g.mslot_w as int, 6);
    lemma_read(0, g.player_w as int, 4);
    lemma_read(0, g.bslot_w as int, 6);
    lemma_read(0, g.mslot_w as int, 6);
}

proof fn lemma_read(i: int, w: int, n: int)
    requires
        0 <= w,
    ensures
        (i + 1) * w == i * w + w,
        0 <= i < n ==> 0 <= i * w && i * w + w <= n * w,
        i == 0 ==> i * w == 0,
{
    assert((i + 1) * w == i * w + w) by (nonlinear_arith);
    if 0 <= i < n {
        assert(0 <= i * w && i * w + w <= n * w) by (nonlinear_arith)
            requires
                0 <= i < n,
                0 <= w,
        ;
    }
}

// ---- planning a batch ----------------------------------------------------

/// Edges are scored by what they do where an action or a tile is chosen, and
/// nowhere else.
pub proof fn only_actions_and_tiles_are_scored_by_what_they_do(phase: Phase)
    ensures
        phase == Phase::Beg || phase == Phase::Mode || phase == Phase::PickWorker || phase
            == Phase::PityPlace ==> !points(phase),
        phase is Placing || phase is ExtraDay ==> !points(phase),
        phase is Take || phase is DraftTile ==> points(phase),
{
}

/// A node without edges is empty and one with a single edge is sure of it; of the
/// others, those told apart by nothing are all alike, those of a fixed head take
/// its slots, and those scored by what they do wait for the second stage, with
/// their candidates behind those already kept. No other plan keeps any.
pub proof fn nodes_are_planned_by_their_edges(
    p: Plan,
    before: Seq<usize>,
    after: Seq<usize>,
    row: usize,
    n: usize,
    spec: EdgeSpec,
    ready: bool,
    cell: usize,
    phase: Phase,
    i: int,
)
    requires
        plans(p, before, after, row, n, spec, ready, cell, phase),
    ensures
        p is Empty <==> n == 0,
        p is Sure <==> n == 1,
        p is Uniform <==> n > 1 && (spec is Uniform || (spec is Pointer && !ready)),
        p is Masked <==> n > 1 && spec is Fixed,
        p is Ptr <==> n > 1 && spec is Pointer && ready,
        p is Uniform ==> p->Uniform_n == n,
        p is Masked ==> p->head == spec->head && p->Masked_idx == spec->Fixed_idx,
        !(p is Ptr) ==> after == before,
        0 <= i < before.len() ==> i < after.len() && after[i] == before[i],
        p is Ptr ==> p->keep.0 == before.len() && p->keep.1 == after.len(),
        p is Ptr ==> after.len() == before.len() + (if spec->scores@.len() < 64 {
            spec->scores@.len()
        } else {
            64
        }),
        p is Ptr && before.len() <= i < after.len() ==> after[i] < spec->scores@.len(),
{
    if p is Ptr {
        let tail = after.skip(before.len() as int);
        assert(survives(spec->scores@, tail));
        if before.len() <= i < after.len() {
            assert(after[i] == tail[i - before.len()]);
        }
        if 0 <= i < before.len() {
            assert(after.take(before.len() as int)[i] == after[i]);
        }
    }
}

/// Of two candidates the one that scores more is never left out for the other.
pub proof fn better_candidates_survive(scores: Seq<i64>, kept: Seq<usize>, a: usize, b: usize)
    requires
        survives(scores, kept),
        a < scores.len(),
        b < scores.len(),
        scores[a as int] > scores[b as int],
    ensures
        kept.contains(b) ==> kept.contains(a),
        kept.len() <= 64,
        scores.len() <= 64 ==> kept.len() == scores.len(),
{
    if kept.contains(b) && !kept.contains(a) {
        let i = choose|i: int| 0 <= i < kept.len() && kept[i] == b;
        assert(scores[a as int] <= scores[kept[i] as int]);
    }
}

// ---- the tensors ---------------------------------------------------------

/// Whether a list holds a layer at a place: its weights, a row for each output,
/// and behind them its biases, which start at zero.
pub open spec fn holds_layer(
    m: Seq<SlotShape>,
    at: int,
    name: Seq<char>,
    out: int,
    inp: int,
    head: bool,
) -> bool {
    &&& m[at].name == name + ".weight"@
    &&& m[at].shape.len() == 2 && m[at].shape[0] == out && m[at].shape[1] == inp
    &&& m[at].init == Init::Spread { out: out as usize, inp: inp as usize, head }
    &&& m[at + 1].name == name + ".bias"@
    &&& m[at + 1].shape.len() == 1 && m[at + 1].shape[0] == out
    &&& m[at + 1].init == Init::Zero
}

/// Whether a list holds a normalisation at a place: its gains, which start at
/// one, and behind them its biases, which start at zero.
pub open spec fn holds_norm(m: Seq<SlotShape>, at: int, name: Seq<char>, w: int) -> bool {
    &&& m[at].name == name + ".weight"@
    &&& m[at].shape.len() == 1 && m[at].shape[0] == w
    &&& m[at].init == Init::One
    &&& m[at + 1].name == name + ".bias"@
    &&& m[at + 1].shape.len() == 1 && m[at + 1].shape[0] == w
    &&& m[at + 1].init == Init::Zero
}

/// Whether a list holds a table without biases at a place.
pub open spec fn holds_table(
    m: Seq<SlotShape>,
    at: int,
    name: Seq<char>,
    rows: int,
    cols: int,
    init: Init,
) -> bool {
    &&& m[at].name == name
    &&& m[at].shape.len() == 2 && m[at].shape[0] == rows && m[at].shape[1] == cols
    &&& m[at].init == init
}

proof fn lemma_lengths(a: Arch, g: Geometry)
    ensures
        front(a, g).len() == 14,
        value_heads(a).len() == 12,
        policy_heads(a, g).len() == 10,
        pointer_head(a, g).len() == 10,
        back(a, g).len() == 32,
{
}

proof fn lemma_blocks_long(from: nat, n: nat, w: usize, j: int)
    requires
        from <= n,
    ensures
        blocks(from, n, w).len() == 6 * (n - from),
        0 <= j < 6 * (n - from) ==> blocks(from, n, w)[j] == block((from + j / 6) as nat, w)[j % 6],
    decreases n - from,
{
    if from < n {
        lemma_blocks_long(from + 1, n, w, j - 6);
        assert(block(from, w).len() == 6);
    }
}

/// A network begins with the five stems, each from its features to its width,
/// and the layer that joins them, which takes each stem's width as often as the
/// stem is applied.
pub proof fn networks_begin_with_their_stems(a: Arch, g: Geometry)
    requires
        a.board + 4 * a.player + 6 * a.bslot + 6 * a.mslot + a.globals <= usize::MAX,
    ensures
        ({
            let m = manifest(a, g);
            let joined = a.board + 4 * a.player + 6 * a.bslot + 6 * a.mslot + a.globals;
            &&& m.len() == 46 + 6 * a.blocks
            &&& holds_layer(m, 0, "stem.board"@, a.board as int, g.board_w as int, false)
            &&& holds_layer(m, 2, "stem.player"@, a.player as int, g.player_w as int, false)
            &&& holds_layer(m, 4, "stem.bslot"@, a.bslot as int, g.bslot_w as int, false)
            &&& holds_layer(m, 6, "stem.mslot"@, a.mslot as int, g.mslot_w as int, false)
            &&& holds_layer(m, 8, "stem.global"@, a.globals as int, g.global_w as int, false)
            &&& holds_layer(m, 10, "fuse"@, a.width as int, joined, false)
            &&& holds_norm(m, 12, "fuse.norm"@, a.width as int)
        }),
{
    lemma_lengths(a, g);
    lemma_blocks_long(0, a.blocks as nat, a.width, 0);
    let m = manifest(a, g);
    assert forall|i: int| 0 <= i < 14 implies #[trigger] m[i] == front(a, g)[i] by {}
    lemma_front_holds(a, g);
    assert(m[0] == front(a, g)[0] && m[1] == front(a, g)[1] && m[2] == front(a, g)[2]);
    assert(m[3] == front(a, g)[3] && m[4] == front(a, g)[4] && m[5] == front(a, g)[5]);
    assert(m[6] == front(a, g)[6] && m[7] == front(a, g)[7] && m[8] == front(a, g)[8]);
    assert(m[9] == front(a, g)[9] && m[10] == front(a, g)[10] && m[11] == front(a, g)[11]);
    assert(m[12] == front(a, g)[12] && m[13] == front(a, g)[13]);
}

proof fn lemma_front_holds(a: Arch, g: Geometry)
    requires
        a.board + 4 * a.player + 6 * a.bslot + 6 * a.mslot + a.globals <= usize::MAX,
    ensures
        ({
            let m = front(a, g);
            let joined = a.board + 4 * a.player + 6 * a.bslot + 6 * a.mslot + a.globals;
            &&& holds_layer(m, 0, "stem.board"@, a.board as int, g.board_w as int, false)
            &&& holds_layer(m, 2, "stem.player"@, a.player as int, g.player_w as int, false)
            &&& holds_layer(m, 4, "stem.bslot"@, a.bslot as int, g.bslot_w as int, false)
            &&& holds_layer(m, 6, "stem.mslot"@, a.mslot as int, g.mslot_w as int, false)
            &&& holds_layer(m, 8, "stem.global"@, a.globals as int, g.global_w as int, false)
            &&& holds_layer(m, 10, "fuse"@, a.width as int, joined, false)
            &&& holds_norm(m, 12, "fuse.norm"@, a.width as int)
        }),
{
}

/// Each block of the trunk normalises, multiplies, normalises and multiplies
/// again, at the trunk's width throughout; its second product starts at zero.
pub proof fn blocks_are_two_products(a: Arch, g: Geometry, b: nat)
    requires
        b < a.blocks,
    ensures
        ({
            let m = manifest(a, g);
            let at = (14 + 6 * b) as int;
            let name = "trunk."@ + digits(b);
            let w = a.width as int;
            let spread = Init::Spread { out: a.width, inp: a.width, head: false };
            &&& holds_norm(m, at, name + ".norm1"@, w)
            &&& holds_table(m, at + 2, name + ".fc1.weight"@, w, w, spread)
            &&& holds_norm(m, at + 3, name + ".norm2"@, w)
            &&& holds_table(m, at + 5, name + ".fc2.weight"@, w, w, Init::Zero)
        }),
{
    lemma_lengths(a, g);
    let m = manifest(a, g);
    let at = (14 + 6 * b) as int;
    assert forall|r: int| 0 <= r < 6 implies #[trigger] m[at + r] == block(b, a.width)[r] by {
        lemma_blocks_long(0, a.blocks as nat, a.width, 6 * b + r);
        assert((6 * b + r) / 6 == b && (6 * b + r) % 6 == r);
    }
    assert(m[at + 0] == block(b, a.width)[0]);
    assert(m[at + 1] == block(b, a.width)[1]);
    assert(m[at + 2] == block(b, a.width)[2]);
    assert(m[at + 3] == block(b, a.width)[3]);
    assert(m[at + 4] == block(b, a.width)[4]);
    assert(m[at + 5] == block(b, a.width)[5]);
}

proof fn lemma_behind(a: Arch, g: Geometry, r: int)
    requires
        0 <= r < 32,
    ensures
        manifest(a, g)[14 + 6 * a.blocks + r] == back(a, g)[r],
{
    lemma_lengths(a, g);
    lemma_blocks_long(0, a.blocks as nat, a.width, 0);
}

/// Behind the trunk come the value heads: four values, four scores, four ranks
/// of four seats and six parts of four, all from one hidden layer.
pub proof fn value_heads_share_a_hidden_layer(a: Arch, g: Geometry)
    ensures
        ({
            let m = manifest(a, g);
            let at = 14 + 6 * a.blocks;
            let h = a.value_hidden as int;
            &&& holds_norm(m, at, "trunk.norm"@, a.width as int)
            &&& holds_layer(m, at + 2, "value.fc"@, h, a.width as int, false)
            &&& holds_layer(m, at + 4, "value.rel"@, 4, h, true)
            &&& holds_layer(m, at + 6, "value.score"@, 4, h, true)
            &&& holds_layer(m, at + 8, "value.rank"@, 16, h, true)
            &&& holds_layer(m, at + 10, "value.decomp"@, 24, h, true)
        }),
{
    lemma_lengths(a, g);
    let at = 14 + 6 * a.blocks;
    let m = manifest(a, g);
    assert forall|r: int| 0 <= r < 12 implies #[trigger] m[at + r] == value_heads(a)[r] by {
        lemma_behind(a, g, r);
    }
    assert(m[at + 0] == value_heads(a)[0] && m[at + 1] == value_heads(a)[1]);
    assert(m[at + 2] == value_heads(a)[2] && m[at + 3] == value_heads(a)[3]);
    assert(m[at + 4] == value_heads(a)[4] && m[at + 5] == value_heads(a)[5]);
    assert(m[at + 6] == value_heads(a)[6] && m[at + 7] == value_heads(a)[7]);
    assert(m[at + 8] == value_heads(a)[8] && m[at + 9] == value_heads(a)[9]);
    assert(m[at + 10] == value_heads(a)[10] && m[at + 11] == value_heads(a)[11]);
}

/// Then the heads of fixed size, straight from the trunk: begging is refused or
/// done at one of three temples, a turn places, retrieves or takes pity, a day is
/// added or not, and a worker goes to a gear or is picked by its cell.
pub proof fn fixed_heads_have_a_slot_for_each_edge(a: Arch, g: Geometry)
    ensures
        ({
            let m = manifest(a, g);
            let at = 26 + 6 * a.blocks;
            let w = a.width as int;
            &&& holds_layer(m, at, "policy.beg"@, 4, w, true)
            &&& holds_layer(m, at + 2, "policy.mode"@, 3, w, true)
            &&& holds_layer(m, at + 4, "policy.place"@, g.n_place as int, w, true)
            &&& holds_layer(m, at + 6, "policy.extra_day"@, 2, w, true)
            &&& holds_layer(m, at + 8, "policy.who"@, g.n_who as int, w, true)
        }),
{
    lemma_lengths(a, g);
    let at = 26 + 6 * a.blocks;
    let m = manifest(a, g);
    let v = policy_heads(a, g);
    assert forall|r: int| 0 <= r < 10 implies #[trigger] m[at + r] == v[r] by {
        lemma_behind(a, g, 12 + r);
    }
    assert(m[at + 0] == v[0] && m[at + 1] == v[1] && m[at + 2] == v[2] && m[at + 3] == v[3]);
    assert(m[at + 4] == v[4] && m[at + 5] == v[5] && m[at + 6] == v[6] && m[at + 7] == v[7]);
    assert(m[at + 8] == v[8] && m[at + 9] == v[9]);
}

/// Last come the parts that score candidates by their features: a quick query, a
/// deep one, what is added for a cell and for each of the eight phases, and the
/// two layers of the keys.
pub proof fn candidates_are_scored_by_queries_and_keys(a: Arch, g: Geometry)
    ensures
        ({
            let m = manifest(a, g);
            let at = 36 + 6 * a.blocks;
            let (w, k, d) = (a.width as int, a.key as int, g.d_choice as int);
            &&& holds_layer(m, at, "ptr.q_fast"@, d, w, true)
            &&& holds_layer(m, at + 2, "ptr.q_deep"@, k, w, true)
            &&& holds_table(m, at + 4, "ptr.cell_emb"@, g.n_who as int, k, Init::Zero)
            &&& holds_table(m, at + 5, "ptr.step_emb"@, 8, k, Init::Zero)
            &&& holds_layer(m, at + 6, "ptr.key1"@, k, d, false)
            &&& holds_layer(m, at + 8, "ptr.key2"@, k, k, false)
        }),
{
    lemma_lengths(a, g);
    let at = 36 + 6 * a.blocks;
    let m = manifest(a, g);
    let v = pointer_head(a, g);
    assert forall|r: int| 0 <= r < 10 implies #[trigger] m[at + r] == v[r] by {
        lemma_behind(a, g, 22 + r);
    }
    assert(m[at + 0] == v[0] && m[at + 1] == v[1] && m[at + 2] == v[2] && m[at + 3] == v[3]);
    assert(m[at + 4] == v[4] && m[at + 5] == v[5] && m[at + 6] == v[6] && m[at + 7] == v[7]);
    assert(m[at + 8] == v[8] && m[at + 9] == v[9]);
}

// ---- reading a checkpoint ------------------------------------------------

/// Whether a key is that of one of a network's widths.
pub open spec fn names_width(key: Seq<char>) -> bool {
    key == "width"@ || key == "blocks"@ || key == "board"@ || key == "player"@ || key == "bslot"@
        || key == "mslot"@ || key == "globals"@ || key == "value_hidden"@ || key == "key"@
}

/// A checkpoint that says nothing of its widths has the main network's, and one
/// that says nothing of its version is of the first.
pub proof fn unnoted_networks_have_the_main_widths(meta: Seq<(Seq<char>, Seq<char>)>)
    requires
        forall|i: int| 0 <= i < meta.len() ==> !names_width((#[trigger] meta[i]).0),
        forall|i: int| 0 <= i < meta.len() ==> (#[trigger] meta[i]).0 != "format_version"@,
    ensures
        ({
            let a = noted_arch(meta);
            &&& a.width == 512 && a.blocks == 6 && a.board == 192 && a.player == 96 && a.bslot == 48
            &&& a.mslot == 32 && a.globals == 128 && a.value_hidden == 256 && a.key == 128
        }),
        noted_version(meta) == 1,
{
    lemma_unnoted(meta, "width"@, 0);
    lemma_unnoted(meta, "blocks"@, 0);
    lemma_unnoted(meta, "board"@, 0);
    lemma_unnoted(meta, "player"@, 0);
    lemma_unnoted(meta, "bslot"@, 0);
    lemma_unnoted(meta, "mslot"@, 0);
    lemma_unnoted(meta, "globals"@, 0);
    lemma_unnoted(meta, "value_hidden"@, 0);
    lemma_unnoted(meta, "key"@, 0);
    lemma_unnoted(meta, "format_version"@, 0);
}

proof fn lemma_unnoted(meta: Seq<(Seq<char>, Seq<char>)>, key: Seq<char>, i: int)
    requires
        forall|j: int| 0 <= j < meta.len() ==> (#[trigger] meta[j]).0 != key,
        0 <= i,
    ensures
        place_of(meta, key, i) is None,
    decreases meta.len() - i,
{
    if i < meta.len() {
        assert(meta[i].0 != key);
        lemma_unnoted(meta, key, i + 1);
    }
}

proof fn lemma_first_place<T>(v: Seq<(Seq<char>, T)>, name: Seq<char>, i: int, k: int)
    requires
        0 <= i <= k < v.len(),
        v[k].0 == name,
        forall|j: int| 0 <= j < k ==> (#[trigger] v[j]).0 != name,
    ensures
        place_of(v, name, i) == Some(k),
    decreases k - i,
{
    if i < k {
        assert(v[i].0 != name);
        lemma_first_place(v, name, i + 1, k);
    }
}

/// A note that spells a number gives that number, and one that spells none is
/// passed over.
pub proof fn notes_give_their_numbers(
    meta: Seq<(Seq<char>, Seq<char>)>,
    key: Seq<char>,
    k: int,
    n: usize,
    other: usize,
)
    requires
        0 <= k < meta.len(),
        meta[k].0 == key,
        forall|j: int| 0 <= j < k ==> (#[trigger] meta[j]).0 != key,
    ensures
        note(meta, key) == Some(meta[k].1),
        meta[k].1 == digits(n as nat) ==> noted_number(meta, key, other) == n,
        meta[k].1.len() == 0 ==> noted_number(meta, key, other) == other,
        meta[k].1 == digits(n as nat) ==> misfits(meta, key, other) == (n != other),
{
    lemma_first_place(meta, key, 0, k);
    numbers_read_back(n as nat, usize::MAX as nat);
}

/// A checkpoint of another format, of a later version or for other features is
/// refused, whatever tensors it holds.
pub proof fn strange_checkpoints_are_refused(c: Contents, g: Geometry)
    ensures
        note(c.meta, "format"@) is Some && note(c.meta, "format"@)->Some_0 != "tzolkin-net"@
            ==> loaded(c, g) == Err::<(Arch, Seq<Seq<u32>>), LoadFailure>(
            LoadFailure::Format(note(c.meta, "format"@)->Some_0),
        ),
        noted_version(c.meta) > 1 ==> loaded(c, g) is Err,
        misfits(c.meta, "d_in"@, g.d_in) || misfits(c.meta, "d_choice"@, g.d_choice) || misfits(
            c.meta,
            "n_who"@,
            g.n_who,
        ) ==> loaded(c, g) is Err,
{
}

proof fn lemma_drawn_count(ts: Named, slots: Seq<SlotShape>, got: Seq<Seq<u32>>)
    ensures
        drawn(ts, slots, got) matches Ok((rest, all)) ==> {
            &&& ts.len() == rest.len() + slots.len()
            &&& all.len() == got.len() + slots.len()
            &&& forall|i: int| 0 <= i < got.len() ==> #[trigger] all[i] == got[i]
        },
    decreases slots.len(),
{
    if slots.len() > 0 {
        if let Some(i) = place_of(ts, slots[0].name, 0) {
            lemma_place_fits(ts, slots[0].name, 0);
            if ts[i].1.shape == slots[0].shape {
                let more = got.push(ts[i].1.data);
                lemma_drawn_count(ts.remove(i), slots.drop_first(), more);
                if let Ok((rest, all)) = drawn(ts.remove(i), slots.drop_first(), more) {
                    assert forall|j: int| 0 <= j < got.len() implies #[trigger] all[j] == got[j] by {
                        assert(all[j] == more[j]);
                    }
                }
            }
        }
    }
}

proof fn lemma_place_fits<T>(v: Seq<(Seq<char>, T)>, name: Seq<char>, i: int)
    requires
        0 <= i,
    ensures
        place_of(v, name, i) matches Some(k) ==> i <= k < v.len() && v[k].0 == name,
    decreases v.len() - i,
{
    if i < v.len() {
        lemma_place_fits(v, name, i + 1);
    }
}

proof fn lemma_drawn_from(ts: Named, slots: Seq<SlotShape>, got: Seq<Seq<u32>>, k: int)
    requires
        0 <= k < slots.len(),
        drawn(ts, slots, got) is Ok,
    ensures
        exists|i: int|
            0 <= i < ts.len() && (#[trigger] ts[i]).0 == slots[k].name && ts[i].1.shape
                == slots[k].shape && ts[i].1.data == drawn(ts, slots, got)->Ok_0.1[got.len() + k],
    decreases slots.len(),
{
    let i = place_of(ts, slots[0].name, 0)->Some_0;
    lemma_place_fits(ts, slots[0].name, 0);
    let more = got.push(ts[i].1.data);
    let less = ts.remove(i);
    if k == 0 {
        lemma_drawn_count(less, slots.drop_first(), more);
        assert(drawn(ts, slots, got)->Ok_0.1[got.len() as int] == more[got.len() as int]);
        assert(ts[i].1.data == drawn(ts, slots, got)->Ok_0.1[got.len() + k]);
    } else {
        lemma_drawn_from(less, slots.drop_first(), more, k - 1);
        let j = choose|j: int|
            0 <= j < less.len() && (#[trigger] less[j]).0 == slots[k].name && less[j].1.shape
                == slots[k].shape && less[j].1.data == drawn(ts, slots, got)->Ok_0.1[got.len() + k];
        assert(less[j] == ts[if j < i {
            j
        } else {
            j + 1
        }]);
    }
}

/// The weights of a network that loads are those the checkpoint holds under the
/// manifest's names, in its order and in its shapes, and the checkpoint holds no
/// others.
pub proof fn loaded_weights_are_those_under_their_names(c: Contents, g: Geometry, k: int)
    requires
        loaded(c, g) is Ok,
        0 <= k < manifest(noted_arch(c.meta), g).len(),
    ensures
        loaded(c, g)->Ok_0.0 == noted_arch(c.meta),
        c.tensors.len() == manifest(noted_arch(c.meta), g).len(),
        loaded(c, g)->Ok_0.1.len() == c.tensors.len(),
        exists|i: int|
            0 <= i < c.tensors.len() && (#[trigger] c.tensors[i]).0 == manifest(
                noted_arch(c.meta),
                g,
            )[k].name && c.tensors[i].1.shape == manifest(noted_arch(c.meta), g)[k].shape
                && c.tensors[i].1.data == loaded(c, g)->Ok_0.1[k],
{
    let m = manifest(noted_arch(c.meta), g);
    lemma_drawn_count(c.tensors, m, Seq::empty());
    lemma_drawn_from(c.tensors, m, Seq::empty(), k);
}

// ---- prices --------------------------------------------------------------

/// An effect that comes in amounts is worth nothing where the amount is nothing,
/// and one price more for each one more.
pub proof fn amounts_are_priced_by_the_piece(p: EffectPrice, n: i8, c: i16, k: int)
    requires
        0 <= n < 127,
        0 <= c < 32767,
        0 <= k < 4,
    ensures
        p.worth(Effect::Corn(0)) == 0,
        p.worth(Effect::Corn((c + 1) as i16)) == p.worth(Effect::Corn(c)) + p.corn,
        p.worth(Effect::Points(0)) == 0,
        p.worth(Effect::Points((n + 1) as i8)) == p.worth(Effect::Points(n)) + p.points,
        ({
            let r = [Resource::Wood, Resource::Stone, Resource::Gold, Resource::Skull][k];
            &&& p.worth(Effect::Res(r, 0)) == 0
            &&& p.worth(Effect::Res(r, (n + 1) as i8)) == p.worth(Effect::Res(r, n)) + p.res[k]
        }),
        k < 3 ==> ({
            let t = [Temple::Brown, Temple::Yellow, Temple::Green][k];
            &&& p.worth(Effect::TempleStep(t, 0)) == 0
            &&& p.worth(Effect::TempleStep(t, (n + 1) as i8)) == p.worth(Effect::TempleStep(t, n))
                + p.temple[k]
        }),
        p.worth(
            Effect::AdvanceResearch(
                [
                    Science::Agriculture,
                    Science::Extraction,
                    Science::Architecture,
                    Science::Theology,
                ][k],
            ),
        ) == p.science[k],
{
    lemma_one_more(c as int, p.corn as int);
    lemma_one_more(n as int, p.points as int);
    lemma_one_more(n as int, p.res[k] as int);
    if k < 3 {
        lemma_one_more(n as int, p.temple[k] as int);
    }
}

/// The other effects are worth their own price, those that come in amounts once
/// for each.
pub proof fn every_effect_has_its_own_price(p: EffectPrice, e: Effect, n: i8, u: u8)
    requires
        0 <= n < 127,
        u < 255,
    ensures
        p.worth(Effect::SetCorn(0)) == 0,
        p.worth(Effect::SetCorn((u + 1) as u8)) == p.worth(Effect::SetCorn(u)) + p.corn,
        p.worth(Effect::FreeWorker(0)) == 0,
        p.worth(Effect::FreeWorker((n + 1) as i8)) == p.worth(Effect::FreeWorker(n)) + p.free_worker,
        p.worth(Effect::WorkerDiscount(0)) == 0,
        p.worth(Effect::WorkerDiscount((n + 1) as i8)) == p.worth(Effect::WorkerDiscount(n))
            + p.worker_discount,
        e is UnlockWorker ==> p.worth(e) == p.unlock_worker,
        e is TakePalenqueTile ==> p.worth(e) == p.palenque_tile,
        e is BurnPalenqueWood ==> p.worth(e) == p.burn_wood,
        e is FillChichen ==> p.worth(e) == p.fill_chichen,
        e is Build ==> p.worth(e) == p.build,
        e is TakeMonument ==> p.worth(e) == p.monument,
{
    lemma_one_more(u as int, p.corn as int);
    lemma_one_more(n as int, p.free_worker as int);
    lemma_one_more(n as int, p.worker_discount as int);
}

proof fn lemma_one_more(n: int, price: int)
    ensures
        (n + 1) * price == n * price + price,
        0 * price == 0,
{
    assert((n + 1) * price == n * price + price) by (nonlinear_arith);
}

} // verus!
