//! What the bytes of a checkpoint hold and which are refused, stated apart from
//! how they are read and written, and the small laws of drawn turns and setups.

use crate::bundle::{
    body, bundle_read, bundle_written, data_of, item_bytes, le64, length_bytes, offset, padded_out,
    tensor_from, volume, BundleFault, Contents, TensorShape,
};
use crate::ids::{PlayerId, Temple};
use crate::layout::{word4, word8};
use crate::moves::Kind;
use crate::net::{main_widths, small_widths};
use crate::sampling::{beg_ordered, placed_by, placing_all};
use crate::state::GameState;
use vstd::prelude::*;

verus! {

// ---- bytes ---------------------------------------------------------------

proof fn lemma_four(n: int, b: Seq<u8>, i: int)
    requires
        0 <= n < 0x1_0000_0000,
        b[i] == crate::codec::byte_of(n, 0),
        b[i + 1] == crate::codec::byte_of(n, 1),
        b[i + 2] == crate::codec::byte_of(n, 2),
        b[i + 3] == crate::codec::byte_of(n, 3),
    ensures
        word4(b, i) == n,
{
}

/// The length of a header stands in front of it, in eight bytes, the lowest
/// first.
pub proof fn headers_follow_their_length(n: nat)
    requires
        n < 0x1_0000_0000_0000_0000,
    ensures
        length_bytes(n).len() == 8,
        word8(length_bytes(n), 0) == n,
        le64(length_bytes(n), 0) == n,
{
    let b = length_bytes(n);
    lemma_four(n as int % 0x1_0000_0000, b, 0);
    lemma_four(n as int / 0x1_0000_0000, b, 4);
}

/// A header is filled up with spaces to the next multiple of eight.
pub proof fn headers_are_filled_up_with_spaces(b: Seq<u8>, i: int)
    ensures
        padded_out(b).len() % 8 == 0,
        b.len() <= padded_out(b).len() < b.len() + 8,
        0 <= i < b.len() ==> padded_out(b)[i] == b[i],
        b.len() <= i < padded_out(b).len() ==> padded_out(b)[i] == 32,
{
}

/// A tensor's weights are words of four bytes, the lowest first, and read back
/// from wherever they are written.
pub proof fn weights_are_words_of_four_bytes(data: Seq<u32>, front: Seq<u8>, back: Seq<u8>, i: int)
    requires
        0 <= i < data.len(),
    ensures
        item_bytes(data).len() == 4 * data.len(),
        word4(item_bytes(data), 4 * i) == data[i],
        data_of(front + item_bytes(data) + back, front.len() as int, data.len() as int)[i] == data[i],
{
    let b = item_bytes(data);
    assert((4 * i) / 4 == i && (4 * i + 1) / 4 == i && (4 * i + 2) / 4 == i && (4 * i + 3) / 4 == i);
    lemma_four(data[i] as int, b, 4 * i);
    let all = front + b + back;
    let at = front.len() + 4 * i;
    assert(all[at] == b[4 * i] && all[at + 1] == b[4 * i + 1] && all[at + 2] == b[4 * i + 2] && all[at
        + 3] == b[4 * i + 3]);
}

/// A shape holds as many weights as its sides multiply to; no sides hold one.
pub proof fn shapes_hold_the_product_of_their_sides(n: usize, m: usize)
    ensures
        volume(Seq::empty()) == 1,
        volume(seq![n]) == n,
        volume(seq![n, m]) == n * m,
{
    reveal_with_fuel(volume, 3);
    assert(seq![n].drop_last() =~= Seq::empty());
    assert(seq![n, m].drop_last() =~= seq![n]);
    assert(1 * n as nat == n);
}

/// Tensors lie one behind another: each begins where the one before it ends, and
/// is four bytes for each of its weights.
pub proof fn tensors_lie_one_behind_another(ts: Seq<(Seq<char>, TensorShape)>, i: int)
    requires
        0 <= i < ts.len(),
    ensures
        offset(ts, 0) == 0,
        offset(ts, i + 1) == offset(ts, i) + 4 * ts[i].1.data.len(),
        offset(ts, ts.len() as int) == body(ts).len(),
{
    assert(ts.take(0) =~= Seq::empty());
    assert(ts.take(i + 1).drop_last() =~= ts.take(i));
    assert(ts.take(i + 1).last() == ts[i]);
    assert(ts.take(ts.len() as int) =~= ts);
}

/// A tensor is read where it is of singles, has a shape and a place, lies within
/// the bytes and is as long as its shape says; every other is refused, by its
/// name and for the first of these that it lacks.
pub proof fn tensors_are_read_where_they_fit(
    b: Seq<u8>,
    start: int,
    name: Seq<char>,
    dtype: Option<Seq<char>>,
    shape: Option<Seq<usize>>,
    offsets: Option<(u64, u64)>,
)
    ensures
        ({
            let r = tensor_from(b, start, name, dtype, shape, offsets);
            let singles = dtype is Some && dtype->Some_0 == "F32"@;
            let (from, to) = offsets->Some_0;
            let within = from <= to && start + to <= b.len();
            let long = to - from == 4 * volume(shape->Some_0);
            &&& r is Ok <==> singles && shape is Some && offsets is Some && within && long
            &&& !singles ==> r == Err::<TensorShape, _>((BundleFault::Dtype, name))
            &&& singles && shape is None ==> r == Err::<TensorShape, _>((BundleFault::NoShape, name))
            &&& singles && shape is Some && offsets is None ==> r == Err::<TensorShape, _>(
                (BundleFault::NoOffsets, name),
            )
            &&& singles && shape is Some && offsets is Some && !within ==> r == Err::<TensorShape, _>(
                (BundleFault::Range, name),
            )
            &&& singles && shape is Some && offsets is Some && within && !long ==> r == Err::<
                TensorShape,
                _,
            >((BundleFault::Size, name))
            &&& r is Ok ==> r->Ok_0.shape == shape->Some_0 && r->Ok_0.data.len() == volume(
                shape->Some_0,
            )
            &&& r is Ok ==> forall|i: int|
                0 <= i < r->Ok_0.data.len() ==> #[trigger] r->Ok_0.data[i] == word4(
                    b,
                    start + from + 4 * i,
                ) as u32
        }),
{
}

/// Bytes that are too few for a length, or fewer than their length says, hold no
/// checkpoint.
pub proof fn cut_checkpoints_are_refused(b: Seq<u8>)
    ensures
        b.len() < 8 ==> bundle_read(b) == Err::<Contents, _>((BundleFault::Short, Seq::<char>::empty())),
        b.len() >= 8 && word8(b, 0) + 8 > b.len() ==> bundle_read(b) is Err,
        b.len() >= 8 && b.len() < word8(b, 0) + 8 <= usize::MAX ==> bundle_read(b) == Err::<
            Contents,
            _,
        >((BundleFault::PastEnd, Seq::<char>::empty())),
{
}

/// A checkpoint ends with its tensors, behind a header whose length is a multiple
/// of eight.
pub proof fn checkpoints_end_with_their_tensors(c: Contents) -> (n: nat)
    ensures
        n % 8 == 0,
        bundle_written(c).len() == 8 + n + body(c.tensors).len(),
        n < 0x1_0000_0000_0000_0000 ==> word8(bundle_written(c), 0) == n,
        bundle_written(c).skip((8 + n) as int) == body(c.tensors),
{
    let header = padded_out(crate::json::object_written(crate::bundle::header_entries(c)));
    let n = header.len();
    headers_are_filled_up_with_spaces(
        crate::json::object_written(crate::bundle::header_entries(c)),
        0,
    );
    let all = bundle_written(c);
    assert(all.skip((8 + n) as int) =~= body(c.tensors));
    if n < 0x1_0000_0000_0000_0000 {
        headers_follow_their_length(n);
        assert forall|k: int| 0 <= k < 8 implies #[trigger] all[k] == length_bytes(n)[k] by {}
    }
    n
}

// ---- setups --------------------------------------------------------------

/// The small network is three quarters as wide as the main one in every part,
/// with four blocks for six.
pub proof fn the_small_network_is_three_quarters_of_the_main_one()
    ensures
        ({
            let (m, s) = (main_widths(), small_widths());
            &&& m.width == 512 && m.board == 192 && m.player == 96 && m.bslot == 48 && m.mslot == 32
            &&& m.globals == 128 && m.value_hidden == 256 && m.key == 128
            &&& m.blocks == 6 && s.blocks == 4
            &&& 4 * s.width == 3 * m.width && 4 * s.board == 3 * m.board && 4 * s.player == 3 * m.player
            &&& 4 * s.bslot == 3 * m.bslot && 4 * s.mslot == 3 * m.mslot && 4 * s.globals == 3
                * m.globals
            &&& 4 * s.value_hidden == 3 * m.value_hidden && 4 * s.key == 3 * m.key
        }),
{
}

/// A drawn placement is a turn where it puts anyone down, for what that costs and
/// with the begging it began with.
pub proof fn drawn_placements_are_turns_where_anyone_goes(
    g: GameState,
    p: PlayerId,
    budget: int,
    beg: Option<Temple>,
    goes: Seq<bool>,
    picks: Seq<usize>,
)
    ensures
        ({
            let r = placing_all(g, p, budget, goes, picks);
            let m = placed_by(g, p, budget, beg, goes, picks);
            &&& m is Some <==> r.put.len() > 0
            &&& m matches Some(x) ==> x.beg == beg && x.kind == Kind::Place(r.put) && (0 <= r.cost < 256
                ==> x.corn_cost == r.cost)
        }),
{
}

/// Begging is tried before not begging only where it is told to be, and once more
/// behind it wherever there is a way to.
pub proof fn not_begging_is_always_tried(
    all: Seq<Option<Temple>>,
    first: Option<usize>,
    last: usize,
)
    requires
        all.len() > 0,
    ensures
        ({
            let s = beg_ordered(all, first, last);
            let at = if first is Some {
                1int
            } else {
                0
            };
            &&& s.len() == at + 1 + (if all.len() > 1 {
                1int
            } else {
                0
            })
            &&& s[at] == None::<Temple>
            &&& first is Some ==> s[0] == all[first->Some_0 as int]
            &&& all.len() > 1 ==> s[at + 1] == all[last as int]
        }),
{
}

} // verus!
