//! Checkpoints: named tensors behind a JSON header, in the safetensors layout.
//!
//! ```text
//!   offset 0   8 bytes, low byte first   the header's length
//!   offset 8   the header                JSON, padded with spaces
//!   behind it  the tensors' data         back to back
//! ```
//!
//! Numbers in tensors are held as the bits they are stored in.

use crate::codec::{byte_of, le32, lemma_bytes32, low_byte, read32};
use crate::json::{
    byte_views, is_json, items, json_items, json_members, json_number, json_text, holds_members,
    json_valid, keys_ascend, lemma_alike_shallow, member_views, members, number,
    numbers_written, object_written, reads_alike, shallow, spaces, text, text_seen, text_written,
    write_numbers, write_object, write_text,
};
use crate::order::Ranked;
use crate::text::{code_points, lemma_code_points, sorts_before, text_words};
use crate::words::{lemma_words_total, lemma_words_trans};
use vstd::prelude::*;
use vstd::string::*;

verus! {

/// A named tensor's shape and data, row by row.
pub struct Tensor {
    pub shape: Vec<usize>,
    pub data: Vec<u32>,
}

/// A tensor as plain values.
#[verifier::ext_equal]
pub struct TensorShape {
    pub shape: Seq<usize>,
    pub data: Seq<u32>,
}

impl View for Tensor {
    type V = TensorShape;

    open spec fn view(&self) -> TensorShape {
        TensorShape { shape: self.shape@, data: self.data@ }
    }
}

/// A checkpoint in memory: its tensors and its notes, each in the order of their
/// names.
pub struct Bundle {
    pub tensors: Vec<(String, Tensor)>,
    pub meta: Vec<(String, String)>,
}

/// A checkpoint as plain values.
#[verifier::ext_equal]
pub struct Contents {
    pub tensors: Seq<(Seq<char>, TensorShape)>,
    pub meta: Seq<(Seq<char>, Seq<char>)>,
}

/// Named tensors as plain values.
pub open spec fn tensor_views(v: Seq<(String, Tensor)>) -> Seq<(Seq<char>, TensorShape)> {
    Seq::new(v.len(), |i: int| (v[i].0@, v[i].1@))
}

/// Notes as plain values.
pub open spec fn note_views(v: Seq<(String, String)>) -> Seq<(Seq<char>, Seq<char>)> {
    Seq::new(v.len(), |i: int| (v[i].0@, v[i].1@))
}

impl View for Bundle {
    type V = Contents;

    open spec fn view(&self) -> Contents {
        Contents { tensors: tensor_views(self.tensors@), meta: note_views(self.meta@) }
    }
}

/// What is wrong with the bytes of a checkpoint.
#[derive(Clone, Copy, PartialEq, Eq, Debug, Structural)]
pub enum BundleFault {
    /// Too short for a header's length.
    Short,
    /// The header's length overflows.
    Overflow,
    /// The header runs past the end.
    PastEnd,
    /// The header is no JSON.
    Header,
    /// The header is no object.
    NotObject,
    /// A tensor that does not hold fractions of four bytes.
    Dtype,
    NoShape,
    NoOffsets,
    /// Offsets out of range.
    Range,
    /// Bytes that do not fit the shape.
    Size,
}

/// What is wrong, and with which tensor.
pub struct BundleError {
    pub fault: BundleFault,
    pub name: String,
}

impl View for BundleError {
    type V = (BundleFault, Seq<char>);

    open spec fn view(&self) -> (BundleFault, Seq<char>) {
        (self.fault, self.name@)
    }
}

pub type Failure = (BundleFault, Seq<char>);

/// Eight bytes as a number, low byte first.
pub open spec fn le64(b: Seq<u8>, i: int) -> int {
    le32(b, i) + 0x1_0000_0000 * le32(b, i + 4)
}

/// The member of an object with a key, if there is one.
pub open spec fn member(b: Seq<u8>, key: Seq<char>) -> Option<Seq<u8>> {
    match json_members(b) {
        Some(ms) => found(ms, key, 0),
        None => None,
    }
}

/// The first member from place `i` on with a key.
pub open spec fn found(ms: Seq<(Seq<char>, Seq<u8>)>, key: Seq<char>, i: int) -> Option<Seq<u8>>
    decreases ms.len() - i,
{
    if i < 0 || i >= ms.len() {
        None
    } else if ms[i].0 == key {
        Some(ms[i].1)
    } else {
        found(ms, key, i + 1)
    }
}

/// A whole number, with zero in place of what is none.
pub open spec fn or_zero(b: Seq<u8>) -> u64 {
    match json_number(b) {
        Some(n) => n,
        None => 0,
    }
}

/// The dimensions of a list of numbers.
pub open spec fn dims(ns: Seq<Seq<u8>>) -> Seq<usize> {
    Seq::new(ns.len(), |i: int| or_zero(ns[i]) as usize)
}

/// How many items a shape holds.
pub open spec fn volume(shape: Seq<usize>) -> nat
    decreases shape.len(),
{
    if shape.len() == 0 {
        1
    } else {
        volume(shape.drop_last()) * shape.last() as nat
    }
}

/// The number at a place of a list of numbers, with zero in place of what is
/// none.
pub open spec fn number_at(ns: Seq<Seq<u8>>, i: int) -> u64 {
    if i < ns.len() {
        or_zero(ns[i])
    } else {
        0
    }
}

/// The items of a stretch of bytes.
pub open spec fn data_of(b: Seq<u8>, lo: int, n: int) -> Seq<u32> {
    Seq::new(n as nat, |i: int| le32(b, lo + 4 * i) as u32)
}

/// The tensor that a type, a shape and offsets into the data describe, the data
/// beginning at `start`.
pub open spec fn tensor_from(
    b: Seq<u8>,
    start: int,
    name: Seq<char>,
    dtype: Option<Seq<char>>,
    shape: Option<Seq<usize>>,
    offsets: Option<(u64, u64)>,
) -> Result<TensorShape, Failure> {
    if dtype != Some("F32"@) {
        Err((BundleFault::Dtype, name))
    } else if shape is None {
        Err((BundleFault::NoShape, name))
    } else if offsets is None {
        Err((BundleFault::NoOffsets, name))
    } else {
        let (b0, b1) = offsets->Some_0;
        let d = shape->Some_0;
        if b1 < b0 || start + b1 > b.len() {
            Err((BundleFault::Range, name))
        } else if b1 - b0 != 4 * volume(d) {
            Err((BundleFault::Size, name))
        } else {
            Ok(TensorShape { shape: d, data: data_of(b, start + b0, (b1 - b0) / 4) })
        }
    }
}

/// The text a member of an entry is.
pub open spec fn dtype_of(entry: Seq<u8>) -> Option<Seq<char>> {
    match member(entry, "dtype"@) {
        Some(d) => json_text(d),
        None => None,
    }
}

/// The shape an entry gives.
pub open spec fn shape_of(entry: Seq<u8>) -> Option<Seq<usize>> {
    match member(entry, "shape"@) {
        Some(s) => match json_items(s) {
            Some(ns) => Some(dims(ns)),
            None => None,
        },
        None => None,
    }
}

/// The offsets an entry gives.
pub open spec fn offsets_of(entry: Seq<u8>) -> Option<(u64, u64)> {
    match member(entry, "data_offsets"@) {
        Some(o) => match json_items(o) {
            Some(ns) => Some((number_at(ns, 0), number_at(ns, 1))),
            None => None,
        },
        None => None,
    }
}

/// The tensor an entry of the header describes, the data beginning at `start`.
pub open spec fn tensor_read(b: Seq<u8>, start: int, name: Seq<char>, entry: Seq<u8>) -> Result<
    TensorShape,
    Failure,
> {
    tensor_from(b, start, name, dtype_of(entry), shape_of(entry), offsets_of(entry))
}

/// The notes of a header's metadata: its members that are texts.
pub open spec fn notes(ms: Seq<(Seq<char>, Seq<u8>)>) -> Seq<(Seq<char>, Seq<char>)>
    decreases ms.len(),
{
    if ms.len() == 0 {
        Seq::empty()
    } else {
        let rest = notes(ms.drop_last());
        match json_text(ms.last().1) {
            Some(t) => rest.push((ms.last().0, t)),
            None => rest,
        }
    }
}

/// The notes of a metadata entry, none where it is no object.
pub open spec fn notes_of(entry: Seq<u8>) -> Seq<(Seq<char>, Seq<char>)> {
    match json_members(entry) {
        Some(ms) => notes(ms),
        None => Seq::empty(),
    }
}

/// What the header's entries from place `i` on add to a checkpoint.
pub open spec fn entries_read(
    b: Seq<u8>,
    start: int,
    ms: Seq<(Seq<char>, Seq<u8>)>,
    i: int,
    got: Contents,
) -> Result<Contents, Failure>
    decreases ms.len() - i,
{
    if i < 0 || i >= ms.len() {
        Ok(got)
    } else if ms[i].0 == "__metadata__"@ {
        entries_read(b, start, ms, i + 1, Contents { meta: got.meta + notes_of(ms[i].1), ..got })
    } else {
        match tensor_read(b, start, ms[i].0, ms[i].1) {
            Err(e) => Err(e),
            Ok(t) => entries_read(
                b,
                start,
                ms,
                i + 1,
                Contents { tensors: got.tensors.push((ms[i].0, t)), ..got },
            ),
        }
    }
}

/// Nothing read yet.
pub open spec fn nothing_read() -> Contents {
    Contents { tensors: Seq::empty(), meta: Seq::empty() }
}

/// The checkpoint bytes hold.
pub open spec fn bundle_read(b: Seq<u8>) -> Result<Contents, Failure> {
    let n = le64(b, 0);
    if b.len() < 8 {
        Err((BundleFault::Short, Seq::empty()))
    } else if 8 + n > usize::MAX {
        Err((BundleFault::Overflow, Seq::empty()))
    } else if 8 + n > b.len() {
        Err((BundleFault::PastEnd, Seq::empty()))
    } else {
        let header = b.subrange(8, 8 + n);
        if !json_valid(header) {
            Err((BundleFault::Header, Seq::empty()))
        } else {
            match json_members(header) {
                None => Err((BundleFault::NotObject, Seq::empty())),
                Some(ms) => entries_read(b, 8 + n, ms, 0, nothing_read()),
            }
        }
    }
}

// ---- reading -------------------------------------------------------------

fn fail<T>(fault: BundleFault, name: &str) -> (r: Result<T, BundleError>)
    ensures
        r is Err,
        r->Err_0@ == (fault, name@),
{
    let mut s = String::new();
    s.append(name);
    assert(s@ =~= name@);
    Err(BundleError { fault, name: s })
}

fn copy_bytes(b: &[u8], lo: usize, hi: usize) -> (v: Vec<u8>)
    requires
        lo <= hi <= b@.len(),
    ensures
        v@ == b@.subrange(lo as int, hi as int),
{
    let mut v: Vec<u8> = Vec::new();
    let mut i: usize = lo;
    while i < hi
        invariant
            lo <= i <= hi,
            hi <= b@.len(),
            v@ == b@.subrange(lo as int, i as int),
        decreases hi - i,
    {
        v.push(b[i]);
        i += 1;
        assert(v@ =~= b@.subrange(lo as int, i as int));
    }
    v
}

fn member_of(entry: &Vec<u8>, key: &str) -> (r: Option<Vec<u8>>)
    ensures
        r is Some == member(entry@, key@) is Some,
        r matches Some(v) ==> v@ == member(entry@, key@)->Some_0,
{
    let ms = match members(entry.as_slice()) {
        Some(ms) => ms,
        None => {
            return None;
        },
    };
    let mut want = String::new();
    want.append(key);
    assert(want@ =~= key@);
    let ghost all = member_views(ms@);
    let mut i: usize = 0;
    while i < ms.len()
        invariant
            i <= ms@.len(),
            all == member_views(ms@),
            json_members(entry@) == Some(all),
            want@ == key@,
            found(all, key@, 0) == found(all, key@, i as int),
        decreases ms@.len() - i,
    {
        assert(all[i as int] == (ms@[i as int].0@, ms@[i as int].1@));
        if ms[i].0 == want {
            let v = copy_bytes(ms[i].1.as_slice(), 0, ms[i].1.len());
            assert(v@ =~= ms@[i as int].1@);
            return Some(v);
        }
        i += 1;
    }
    None
}

fn numbers_of(ns: &Vec<Vec<u8>>) -> (v: Vec<u64>)
    ensures
        v@.len() == ns@.len(),
        forall|i: int| 0 <= i < v@.len() ==> #[trigger] v@[i] == or_zero(byte_views(ns@)[i]),
{
    let mut v: Vec<u64> = Vec::new();
    let mut i: usize = 0;
    while i < ns.len()
        invariant
            i <= ns@.len(),
            v@.len() == i,
            forall|j: int| 0 <= j < i ==> #[trigger] v@[j] == or_zero(byte_views(ns@)[j]),
        decreases ns@.len() - i,
    {
        assert(byte_views(ns@)[i as int] == ns@[i as int]@);
        let n: u64 = match number(ns[i].as_slice()) {
            Some(n) => n,
            None => 0,
        };
        v.push(n);
        i += 1;
    }
    v
}

fn dtype_in(entry: &Vec<u8>) -> (r: Option<String>)
    ensures
        text_seen(r) == dtype_of(entry@),
{
    match member_of(entry, "dtype") {
        Some(d) => text(d.as_slice()),
        None => None,
    }
}

fn shape_in(entry: &Vec<u8>) -> (r: Option<Vec<usize>>)
    ensures
        r is Some == shape_of(entry@) is Some,
        r matches Some(v) ==> v@ == shape_of(entry@)->Some_0,
{
    let s = match member_of(entry, "shape") {
        Some(s) => s,
        None => {
            return None;
        },
    };
    let ns = match items(s.as_slice()) {
        Some(ns) => ns,
        None => {
            return None;
        },
    };
    let vs = numbers_of(&ns);
    let mut d: Vec<usize> = Vec::new();
    let mut i: usize = 0;
    while i < vs.len()
        invariant
            i <= vs@.len(),
            vs@.len() == ns@.len(),
            forall|j: int| 0 <= j < vs@.len() ==> #[trigger] vs@[j] == or_zero(byte_views(ns@)[j]),
            d@ == dims(byte_views(ns@)).take(i as int),
        decreases vs@.len() - i,
    {
        d.push(vs[i] as usize);
        i += 1;
        assert(d@ =~= dims(byte_views(ns@)).take(i as int));
    }
    assert(d@ =~= dims(byte_views(ns@)));
    Some(d)
}

fn offsets_in(entry: &Vec<u8>) -> (r: Option<(u64, u64)>)
    ensures
        r == offsets_of(entry@),
{
    let o = match member_of(entry, "data_offsets") {
        Some(o) => o,
        None => {
            return None;
        },
    };
    let ns = match items(o.as_slice()) {
        Some(ns) => ns,
        None => {
            return None;
        },
    };
    let vs = numbers_of(&ns);
    let a: u64 = if vs.len() > 0 {
        vs[0]
    } else {
        0
    };
    let b: u64 = if vs.len() > 1 {
        vs[1]
    } else {
        0
    };
    Some((a, b))
}

proof fn lemma_volume_zero(shape: Seq<usize>, i: int)
    requires
        0 <= i < shape.len(),
        shape[i] == 0,
    ensures
        volume(shape) == 0,
    decreases shape.len(),
{
    if i < shape.len() - 1 {
        lemma_volume_zero(shape.drop_last(), i);
    } else {
        assert(volume(shape.drop_last()) * 0nat == 0) by (nonlinear_arith);
    }
}

proof fn lemma_volume_grows(shape: Seq<usize>, i: int)
    requires
        0 <= i <= shape.len(),
        forall|j: int| 0 <= j < shape.len() ==> #[trigger] shape[j] > 0,
    ensures
        volume(shape.take(i)) <= volume(shape),
    decreases shape.len(),
{
    if i == shape.len() {
        assert(shape.take(i) =~= shape);
    } else {
        let d = shape.drop_last();
        lemma_volume_grows(d, i);
        assert(d.take(i) =~= shape.take(i));
        let a = volume(d);
        let b = shape.last() as nat;
        assert(a <= a * b) by (nonlinear_arith)
            requires
                b >= 1,
        ;
    }
}

/// Whether a shape holds so many items.
fn holds_items(shape: &Vec<usize>, n: u64) -> (b: bool)
    ensures
        b == (volume(shape@) == n),
{
    let mut i: usize = 0;
    while i < shape.len()
        invariant
            i <= shape@.len(),
            forall|j: int| 0 <= j < i ==> #[trigger] shape@[j] > 0,
        decreases shape@.len() - i,
    {
        if shape[i] == 0 {
            proof {
                lemma_volume_zero(shape@, i as int);
            }
            return n == 0;
        }
        i += 1;
    }
    let mut v: u128 = 1;
    let mut k: usize = 0;
    assert(shape@.take(0) =~= Seq::empty());
    while k < shape.len()
        invariant
            k <= shape@.len(),
            forall|j: int| 0 <= j < shape@.len() ==> #[trigger] shape@[j] > 0,
            v == volume(shape@.take(k as int)),
            v <= 0xFFFF_FFFF_FFFF_FFFF,
        decreases shape@.len() - k,
    {
        let d: usize = shape[k];
        assert(v * d <= 0xFFFF_FFFF_FFFF_FFFF * 0xFFFF_FFFF_FFFF_FFFF) by (nonlinear_arith)
            requires
                v <= 0xFFFF_FFFF_FFFF_FFFF,
                d <= 0xFFFF_FFFF_FFFF_FFFF,
        ;
        assert(shape@.take(k + 1).drop_last() =~= shape@.take(k as int));
        v = v * d as u128;
        k += 1;
        if v > 0xFFFF_FFFF_FFFF_FFFF {
            proof {
                lemma_volume_grows(shape@, k as int);
            }
            return false;
        }
    }
    assert(shape@.take(shape@.len() as int) =~= shape@);
    v == n as u128
}

impl Bundle {
    /// Names in order, each once.
    pub open spec fn ordered(&self) -> bool {
        names_ascend(self@.tensors) && names_ascend(self@.meta)
    }
}

/// Whether a result is what a reading says, by view.
pub open spec fn tensor_agrees(
    r: Result<Tensor, BundleError>,
    m: Result<TensorShape, Failure>,
) -> bool {
    match (r, m) {
        (Ok(a), Ok(b)) => a@ == b,
        (Err(e), Err(f)) => e@ == f,
        _ => false,
    }
}

/// Cut a tensor out of a checkpoint's bytes, given what its entry says. The data
/// begins at `start`.
pub fn cut_tensor(
    buf: &[u8],
    start: usize,
    name: &str,
    dtype: Option<String>,
    shape: Option<Vec<usize>>,
    offsets: Option<(u64, u64)>,
) -> (r: Result<Tensor, BundleError>)
    requires
        start <= buf@.len(),
    ensures
        tensor_agrees(
            r,
            tensor_from(
                buf@,
                start as int,
                name@,
                text_seen(dtype),
                match shape {
                    Some(s) => Some(s@),
                    None => None,
                },
                offsets,
            ),
        ),
{
    let mut want = String::new();
    want.append("F32");
    assert(want@ =~= "F32"@);
    let fits = match dtype {
        Some(d) => d == want,
        None => false,
    };
    if !fits {
        return fail(BundleFault::Dtype, name);
    }
    let shape = match shape {
        Some(s) => s,
        None => {
            return fail(BundleFault::NoShape, name);
        },
    };
    let (b0, b1) = match offsets {
        Some(o) => o,
        None => {
            return fail(BundleFault::NoOffsets, name);
        },
    };
    let len: usize = buf.len();
    if b1 < b0 || b1 > (len - start) as u64 {
        return fail(BundleFault::Range, name);
    }
    let bytes: u64 = b1 - b0;
    if bytes % 4 != 0 || !holds_items(&shape, bytes / 4) {
        return fail(BundleFault::Size, name);
    }
    let n: usize = (bytes / 4) as usize;
    let lo: usize = start + b0 as usize;
    let mut data: Vec<u32> = Vec::new();
    let mut i: usize = 0;
    while i < n
        invariant
            i <= n,
            len == buf@.len(),
            lo + 4 * n <= len,
            data@ == data_of(buf@, lo as int, n as int).take(i as int),
        decreases n - i,
    {
        data.push(read32(buf, lo + 4 * i));
        i += 1;
        assert(data@ =~= data_of(buf@, lo as int, n as int).take(i as int));
    }
    assert(data@ =~= data_of(buf@, lo as int, n as int));
    Ok(Tensor { shape, data })
}

/// Whether names ascend.
pub open spec fn names_ascend<T>(v: Seq<(Seq<char>, T)>) -> bool {
    forall|i: int, j: int|
        0 <= i < j < v.len() ==> sorts_before((#[trigger] v[i]).0, (#[trigger] v[j]).0)
}

proof fn lemma_notes_ascend(ms: Seq<(Seq<char>, Seq<u8>)>)
    requires
        keys_ascend(ms),
    ensures
        names_ascend(notes(ms)),
        forall|k: int|
            0 <= k < notes(ms).len() ==> exists|j: int|
                0 <= j < ms.len() && #[trigger] ms[j].0 == (#[trigger] notes(ms)[k]).0,
    decreases ms.len(),
{
    if ms.len() > 0 {
        let d = ms.drop_last();
        let last = ms.len() - 1;
        lemma_notes_ascend(d);
        assert forall|k: int| 0 <= k < notes(ms).len() implies exists|j: int|
            0 <= j < ms.len() && #[trigger] ms[j].0 == (#[trigger] notes(ms)[k]).0 by {
            if k < notes(d).len() {
                assert(notes(ms)[k] == notes(d)[k]);
                let j = choose|j: int| 0 <= j < d.len() && #[trigger] d[j].0 == notes(d)[k].0;
                assert(ms[j] == d[j]);
                assert(ms[j].0 == notes(ms)[k].0);
            } else {
                assert(ms[last].0 == notes(ms)[k].0);
            }
        }
        assert forall|a: int, b: int| 0 <= a < b < notes(ms).len() implies sorts_before(
            (#[trigger] notes(ms)[a]).0,
            (#[trigger] notes(ms)[b]).0,
        ) by {
            assert(notes(ms)[a] == notes(d)[a]);
            if b < notes(d).len() {
                assert(notes(ms)[b] == notes(d)[b]);
            } else {
                let j = choose|j: int| 0 <= j < d.len() && #[trigger] d[j].0 == notes(d)[a].0;
                assert(ms[j] == d[j]);
                assert(sorts_before(ms[j].0, ms[last].0));
            }
        }
    }
}

fn read_notes(entry: &Vec<u8>, out: &mut Vec<(String, String)>)
    ensures
        names_ascend(notes_of(entry@)),
        note_views(final(out)@) == note_views(old(out)@) + notes_of(entry@),
{
    let ms = match members(entry.as_slice()) {
        Some(ms) => ms,
        None => {
            assert(note_views(out@) =~= note_views(old(out)@) + notes_of(entry@));
            return;
        },
    };
    let ghost all = member_views(ms@);
    proof {
        lemma_notes_ascend(all);
    }
    let mut i: usize = 0;
    assert(all.take(0) =~= Seq::empty());
    assert(note_views(out@) =~= note_views(old(out)@) + notes(all.take(0)));
    while i < ms.len()
        invariant
            i <= ms@.len(),
            all == member_views(ms@),
            note_views(out@) == note_views(old(out)@) + notes(all.take(i as int)),
        decreases ms@.len() - i,
    {
        assert(all[i as int] == (ms@[i as int].0@, ms@[i as int].1@));
        assert(all.take(i + 1).drop_last() =~= all.take(i as int));
        let ghost o1 = note_views(out@);
        match text(ms[i].1.as_slice()) {
            Some(t) => {
                out.push((ms[i].0.clone(), t));
                assert(note_views(out@) =~= o1.push((ms@[i as int].0@, t@)));
                assert(note_views(out@) =~= note_views(old(out)@) + notes(all.take(i + 1)));
            },
            None => {},
        }
        i += 1;
    }
    assert(all.take(ms@.len() as int) =~= all);
}

/// Whether a result is what a reading says, by view.
pub open spec fn bundle_agrees(r: Result<Bundle, BundleError>, m: Result<Contents, Failure>) -> bool {
    match (r, m) {
        (Ok(a), Ok(b)) => a@ == b,
        (Err(e), Err(f)) => e@ == f,
        _ => false,
    }
}

fn read_entries(buf: &[u8], start: usize, ms: &Vec<(String, Vec<u8>)>) -> (r: Result<
    Bundle,
    BundleError,
>)
    requires
        start <= buf@.len(),
        keys_ascend(member_views(ms@)),
    ensures
        bundle_agrees(
            r,
            entries_read(buf@, start as int, member_views(ms@), 0, nothing_read()),
        ),
        r matches Ok(b) ==> b.ordered(),
{
    let ghost all = member_views(ms@);
    let mut out = Bundle { tensors: Vec::new(), meta: Vec::new() };
    let mut meta_key = String::new();
    meta_key.append("__metadata__");
    assert(meta_key@ =~= "__metadata__"@);
    assert(out@ =~= nothing_read());
    let mut i: usize = 0;
    while i < ms.len()
        invariant
            i <= ms@.len(),
            start <= buf@.len(),
            all == member_views(ms@),
            meta_key@ == "__metadata__"@,
            keys_ascend(all),
            out.ordered(),
            forall|j: int, k: int|
                0 <= j < out@.tensors.len() && i <= k < all.len() ==> sorts_before(
                    (#[trigger] out@.tensors[j]).0,
                    (#[trigger] all[k]).0,
                ),
            out@.meta.len() == 0 || forall|k: int|
                i <= k < all.len() ==> (#[trigger] all[k]).0 != "__metadata__"@,
            entries_read(buf@, start as int, all, 0, nothing_read()) == entries_read(
                buf@,
                start as int,
                all,
                i as int,
                out@,
            ),
        decreases ms@.len() - i,
    {
        assert(all[i as int] == (ms@[i as int].0@, ms@[i as int].1@));
        let ghost c0 = out@;
        if ms[i].0 == meta_key {
            read_notes(&ms[i].1, &mut out.meta);
            assert(out@ =~= (Contents { meta: c0.meta + notes_of(ms@[i as int].1@), ..c0 }));
            assert(out@.meta =~= notes_of(ms@[i as int].1@));
            proof {
                lemma_words_total(code_points("__metadata__"@), code_points("__metadata__"@));
                assert forall|k: int| i < k < all.len() implies (#[trigger] all[k]).0
                    != "__metadata__"@ by {
                    assert(sorts_before(all[i as int].0, all[k].0));
                }
            }
        } else {
            let dtype = dtype_in(&ms[i].1);
            let shape = shape_in(&ms[i].1);
            let offsets = offsets_in(&ms[i].1);
            match cut_tensor(buf, start, ms[i].0.as_str(), dtype, shape, offsets) {
                Ok(t) => {
                    out.tensors.push((ms[i].0.clone(), t));
                    assert(out@ =~= (Contents {
                        tensors: c0.tensors.push((ms@[i as int].0@, t@)),
                        ..c0
                    }));
                },
                Err(e) => {
                    return Err(e);
                },
            }
        }
        i += 1;
    }
    Ok(out)
}

impl Bundle {
    /// Read a checkpoint.
    pub fn parse(buf: &[u8]) -> (r: Result<Bundle, BundleError>)
        ensures
            bundle_agrees(r, bundle_read(buf@)),
            r matches Ok(b) ==> b.ordered(),
    {
        proof {
            reveal_strlit("");
        }
        assert(""@ =~= Seq::<char>::empty());
        let len: usize = buf.len();
        if len < 8 {
            return fail(BundleFault::Short, "");
        }
        let lo: u32 = read32(buf, 0);
        let hi: u32 = read32(buf, 4);
        let n: u64 = lo as u64 + 0x1_0000_0000 * hi as u64;
        if n > (usize::MAX - 8) as u64 {
            return fail(BundleFault::Overflow, "");
        }
        let start: usize = 8 + n as usize;
        if start > len {
            return fail(BundleFault::PastEnd, "");
        }
        let header = copy_bytes(buf, 8, start);
        if !is_json(header.as_slice()) {
            return fail(BundleFault::Header, "");
        }
        match members(header.as_slice()) {
            None => fail(BundleFault::NotObject, ""),
            Some(ms) => read_entries(buf, start, &ms),
        }
    }
}

// ---- writing -------------------------------------------------------------

/// Items as bytes, low byte first.
pub open spec fn item_bytes(data: Seq<u32>) -> Seq<u8> {
    Seq::new(4 * data.len(), |i: int| byte_of(data[i / 4] as int, i % 4))
}

/// The data of a list of tensors, back to back.
pub open spec fn body(ts: Seq<(Seq<char>, TensorShape)>) -> Seq<u8>
    decreases ts.len(),
{
    if ts.len() == 0 {
        Seq::empty()
    } else {
        body(ts.drop_last()) + item_bytes(ts.last().1.data)
    }
}

/// A checkpoint that reads back as it was written: every shape is that of its
/// data, and no tensor is called as the notes are.
pub open spec fn sound(c: Contents) -> bool {
    &&& forall|i: int|
        0 <= i < c.tensors.len() ==> volume((#[trigger] c.tensors[i]).1.shape)
            == c.tensors[i].1.data.len()
    &&& forall|i: int| 0 <= i < c.tensors.len() ==> (#[trigger] c.tensors[i]).0 != "__metadata__"@
}

/// Where a tensor's data begins.
pub open spec fn offset(ts: Seq<(Seq<char>, TensorShape)>, i: int) -> int {
    body(ts.take(i)).len() as int
}

/// Whether a header carries the notes: there are some, and no tensor takes
/// their key.
pub open spec fn noted(c: Contents) -> bool {
    c.meta.len() > 0 && forall|i: int|
        0 <= i < c.tensors.len() ==> (#[trigger] c.tensors[i]).0 != "__metadata__"@
}

/// The entry of a tensor, with the notes at place `m`.
pub open spec fn entry_place(i: int, m: int) -> int {
    if i < m {
        i
    } else {
        i + 1
    }
}

/// Whether a header's entries are those of a checkpoint, the notes at place `m`.
pub open spec fn lists_at(ms: Seq<(Seq<char>, Seq<u8>)>, c: Contents, m: int) -> bool {
    let n = c.tensors.len() as int;
    &&& 0 <= m <= n
    &&& ms.len() == n + if noted(c) {
        1int
    } else {
        0
    }
    &&& if noted(c) {
        ms[m].0 == "__metadata__"@ && notes_of(ms[m].1) == c.meta
    } else {
        m == n
    }
    &&& forall|i: int|
        0 <= i < n ==> ms[entry_place(i, m)].0 == (#[trigger] c.tensors[i]).0 && describes(
            ms[entry_place(i, m)].1,
            c.tensors[i].1.shape,
            offset(c.tensors, i),
            offset(c.tensors, i + 1),
        )
}

/// Whether a header's entries are those of a checkpoint.
pub open spec fn lists(ms: Seq<(Seq<char>, Seq<u8>)>, c: Contents) -> bool {
    exists|m: int| #[trigger] lists_at(ms, c, m)
}

/// Whether an entry of a header describes a tensor at a place.
pub open spec fn describes(e: Seq<u8>, shape: Seq<usize>, from: int, to: int) -> bool {
    &&& dtype_of(e) == Some("F32"@)
    &&& shape_of(e) == Some(shape)
    &&& offsets_of(e) == Some((from as u64, to as u64))
}

/// A shape as written.
pub open spec fn dims_written(shape: Seq<usize>) -> Seq<u64> {
    Seq::new(shape.len(), |i: int| shape[i] as u64)
}

/// The bytes of an entry that describes a tensor at a place.
pub open spec fn entry_written(shape: Seq<usize>, from: u64, to: u64) -> Seq<u8> {
    object_written(
        seq![
            ("data_offsets"@, numbers_written(seq![from, to])),
            ("dtype"@, text_written("F32"@)),
            ("shape"@, numbers_written(dims_written(shape))),
        ],
    )
}

/// The bytes of the notes.
pub open spec fn notes_written(meta: Seq<(Seq<char>, Seq<char>)>) -> Seq<u8> {
    object_written(Seq::new(meta.len(), |i: int| (meta[i].0, text_written(meta[i].1))))
}

/// The entries of the tensors, in the order of their names.
pub open spec fn tensor_entries(ts: Seq<(Seq<char>, TensorShape)>) -> Seq<(Seq<char>, Seq<u8>)> {
    Seq::new(
        ts.len(),
        |i: int|
            (
                ts[i].0,
                entry_written(ts[i].1.shape, offset(ts, i) as u64, offset(ts, i + 1) as u64),
            ),
    )
}

/// The first place from `i` on whose name does not sort before the key of the
/// notes.
pub open spec fn notes_place(ts: Seq<(Seq<char>, TensorShape)>, i: int) -> int
    decreases ts.len() - i,
{
    if i < 0 || i >= ts.len() {
        ts.len() as int
    } else if sorts_before(ts[i].0, "__metadata__"@) {
        notes_place(ts, i + 1)
    } else {
        i
    }
}

/// The entries of a header, in the order of their keys.
pub open spec fn header_entries(c: Contents) -> Seq<(Seq<char>, Seq<u8>)> {
    if noted(c) {
        tensor_entries(c.tensors).insert(
            notes_place(c.tensors, 0),
            ("__metadata__"@, notes_written(c.meta)),
        )
    } else {
        tensor_entries(c.tensors)
    }
}

/// Bytes with spaces behind them up to a multiple of eight.
pub open spec fn padded_out(b: Seq<u8>) -> Seq<u8> {
    b + spaces(((8 - b.len() % 8) % 8) as nat)
}

/// A number of eight bytes, low byte first.
pub open spec fn length_bytes(n: nat) -> Seq<u8> {
    Seq::new(
        8,
        |k: int|
            if k < 4 {
                byte_of(n as int % 0x1_0000_0000, k)
            } else {
                byte_of(n as int / 0x1_0000_0000, k - 4)
            },
    )
}

/// The bytes of a checkpoint.
pub open spec fn bundle_written(c: Contents) -> Seq<u8> {
    let header = padded_out(object_written(header_entries(c)));
    length_bytes(header.len()) + header + body(c.tensors)
}

proof fn lemma_found_alike(
    x: Seq<(Seq<char>, Seq<u8>)>,
    y: Seq<(Seq<char>, Seq<u8>)>,
    key: Seq<char>,
    i: int,
    d: nat,
)
    requires
        x.len() == y.len(),
        forall|k: int|
            0 <= k < x.len() ==> (#[trigger] x[k]).0 == y[k].0 && reads_alike(x[k].1, y[k].1, d),
    ensures
        found(x, key, i) is Some == found(y, key, i) is Some,
        found(x, key, i) is Some ==> reads_alike(
            found(x, key, i)->Some_0,
            found(y, key, i)->Some_0,
            d,
        ),
    decreases x.len() - i,
{
    if 0 <= i < x.len() && x[i].0 != key {
        lemma_found_alike(x, y, key, i + 1, d);
    }
}

proof fn lemma_member_alike(a: Seq<u8>, b: Seq<u8>, key: Seq<char>, d: nat)
    requires
        reads_alike(a, b, d + 1),
    ensures
        member(a, key) is Some == member(b, key) is Some,
        member(a, key) is Some ==> reads_alike(member(a, key)->Some_0, member(b, key)->Some_0, d),
{
    if json_members(a) is Some && json_members(b) is Some {
        lemma_found_alike(json_members(a)->Some_0, json_members(b)->Some_0, key, 0, d);
    }
}

proof fn lemma_items_alike(a: Seq<u8>, b: Seq<u8>)
    requires
        reads_alike(a, b, 1),
    ensures
        json_items(a) is Some == json_items(b) is Some,
        json_items(a) is Some ==> dims(json_items(a)->Some_0) == dims(json_items(b)->Some_0),
        json_items(a) is Some ==> json_items(a)->Some_0.len() == json_items(b)->Some_0.len(),
        json_items(a) is Some ==> forall|i: int|
            0 <= i < json_items(a)->Some_0.len() ==> number_at(json_items(a)->Some_0, i)
                == #[trigger] number_at(json_items(b)->Some_0, i),
{
    if json_items(a) is Some {
        let x = json_items(a)->Some_0;
        let y = json_items(b)->Some_0;
        assert forall|i: int| 0 <= i < x.len() implies json_number(#[trigger] x[i]) == json_number(
            y[i],
        ) by {
            assert(reads_alike(x[i], y[i], 0));
        }
        assert(dims(x) =~= dims(y));
    }
}

proof fn lemma_describes_alike(a: Seq<u8>, b: Seq<u8>, shape: Seq<usize>, from: int, to: int)
    requires
        reads_alike(a, b, 3),
        describes(b, shape, from, to),
    ensures
        describes(a, shape, from, to),
{
    lemma_member_alike(a, b, "dtype"@, 2);
    lemma_member_alike(a, b, "shape"@, 2);
    lemma_member_alike(a, b, "data_offsets"@, 2);
    let sa = member(a, "shape"@)->Some_0;
    let sb = member(b, "shape"@)->Some_0;
    lemma_weaker(sa, sb, 2, 1);
    lemma_items_alike(sa, sb);
    let oa = member(a, "data_offsets"@)->Some_0;
    let ob = member(b, "data_offsets"@)->Some_0;
    lemma_weaker(oa, ob, 2, 1);
    lemma_items_alike(oa, ob);
    assert(number_at(json_items(oa)->Some_0, 0) == number_at(json_items(ob)->Some_0, 0));
    assert(number_at(json_items(oa)->Some_0, 1) == number_at(json_items(ob)->Some_0, 1));
}

proof fn lemma_weaker(a: Seq<u8>, b: Seq<u8>, d: nat, e: nat)
    requires
        reads_alike(a, b, d),
        e <= d,
    ensures
        reads_alike(a, b, e),
    decreases d,
{
    if e > 0 {
        if json_items(a) is Some {
            let x = json_items(a)->Some_0;
            let y = json_items(b)->Some_0;
            assert forall|i: int| 0 <= i < x.len() implies reads_alike(
                #[trigger] x[i],
                y[i],
                (e - 1) as nat,
            ) by {
                lemma_weaker(x[i], y[i], (d - 1) as nat, (e - 1) as nat);
            }
        }
        if json_members(a) is Some {
            let x = json_members(a)->Some_0;
            let y = json_members(b)->Some_0;
            assert forall|i: int| 0 <= i < x.len() implies (#[trigger] x[i]).0 == y[i].0
                && reads_alike(x[i].1, y[i].1, (e - 1) as nat) by {
                lemma_weaker(x[i].1, y[i].1, (d - 1) as nat, (e - 1) as nat);
            }
        }
    }
}

proof fn lemma_notes_alike(x: Seq<(Seq<char>, Seq<u8>)>, y: Seq<(Seq<char>, Seq<u8>)>)
    requires
        x.len() == y.len(),
        forall|k: int|
            0 <= k < x.len() ==> (#[trigger] x[k]).0 == y[k].0 && json_text(x[k].1) == json_text(
                y[k].1,
            ),
    ensures
        notes(x) == notes(y),
    decreases x.len(),
{
    if x.len() > 0 {
        lemma_notes_alike(x.drop_last(), y.drop_last());
    }
}

/// The bytes of an entry that describes a tensor.
fn write_entry(shape: &Vec<usize>, from: u64, to: u64) -> (e: Vec<u8>)
    ensures
        e@ == entry_written(shape@, from, to),
        describes(e@, shape@, from as int, to as int),
        shallow(e@, 2),
{
    let mut dims64: Vec<u64> = Vec::new();
    let mut i: usize = 0;
    while i < shape.len()
        invariant
            i <= shape@.len(),
            dims64@.len() == i,
            forall|j: int| 0 <= j < i ==> #[trigger] dims64@[j] == shape@[j] as u64,
        decreases shape@.len() - i,
    {
        dims64.push(shape[i] as u64);
        i += 1;
    }
    let mut ends64: Vec<u64> = Vec::new();
    ends64.push(from);
    ends64.push(to);
    let b_off = write_numbers(&ends64);
    let b_type = write_text("F32");
    let b_shape = write_numbers(&dims64);
    let ghost (g0, g1, g2) = (b_off@, b_type@, b_shape@);
    let mut k0 = String::new();
    k0.append("data_offsets");
    let mut k1 = String::new();
    k1.append("dtype");
    let mut k2 = String::new();
    k2.append("shape");
    assert(k0@ =~= "data_offsets"@ && k1@ =~= "dtype"@ && k2@ =~= "shape"@);
    let mut given: Vec<(String, Vec<u8>)> = Vec::new();
    given.push((k0, b_off));
    given.push((k1, b_type));
    given.push((k2, b_shape));
    let ghost gv = member_views(given@);
    proof {
        reveal_strlit("data_offsets");
        reveal_strlit("dtype");
        reveal_strlit("shape");
        assert(gv[0] == ("data_offsets"@, g0));
        assert(gv[1] == ("dtype"@, g1));
        assert(gv[2] == ("shape"@, g2));
        assert(ends64@ =~= seq![from, to]);
        assert(dims64@ =~= dims_written(shape@));
        assert(gv =~= seq![
            ("data_offsets"@, numbers_written(seq![from, to])),
            ("dtype"@, text_written("F32"@)),
            ("shape"@, numbers_written(dims_written(shape@))),
        ]);
        crate::text::lemma_sorts_at("data_offsets"@, "dtype"@, 1);
        crate::text::lemma_sorts_at("dtype"@, "shape"@, 0);
        crate::text::lemma_sorts_at("data_offsets"@, "shape"@, 0);
        assert(keys_ascend(gv));
        assert forall|j: int| 0 <= j < 2 implies shallow(#[trigger] json_items(g0)->Some_0[j], 0) by {
            assert(json_number(json_items(g0)->Some_0[j]) == Some(ends64@[j]));
        }
        assert(shallow(g0, 1));
        assert forall|j: int| 0 <= j < dims64@.len() implies shallow(
            #[trigger] json_items(g2)->Some_0[j],
            0,
        ) by {
            assert(json_number(json_items(g2)->Some_0[j]) == Some(dims64@[j]));
        }
        assert(shallow(g2, 1));
        lemma_deeper(g0, 1, 3);
        lemma_deeper(g2, 1, 3);
        assert(shallow(g1, 3));
        assert forall|j: int| 0 <= j < given@.len() implies shallow((#[trigger] given@[j]).1@, 3) by {
            assert(gv[j].1 == given@[j].1@);
        }
    }
    let e = write_object(&given);
    proof {
        assert(e@ + spaces(0) =~= e@);
        let ms = json_members(e@)->Some_0;
        assert(holds_members(json_members(e@ + spaces(0)), gv));
        assert(ms[0].0 == gv[0].0 && reads_alike(ms[0].1, gv[0].1, 1));
        assert(ms[1].0 == gv[1].0 && reads_alike(ms[1].1, gv[1].1, 1));
        assert(ms[2].0 == gv[2].0 && reads_alike(ms[2].1, gv[2].1, 1));
        assert("dtype"@.len() != "data_offsets"@.len());
        assert("shape"@[0] != "dtype"@[0]);
        assert("shape"@[0] != "data_offsets"@[0]);
        reveal_with_fuel(found, 4);
        assert(member(e@, "data_offsets"@) == Some(ms[0].1));
        assert(member(e@, "dtype"@) == Some(ms[1].1));
        assert(member(e@, "shape"@) == Some(ms[2].1));
        lemma_items_alike(ms[0].1, g0);
        lemma_items_alike(ms[2].1, g2);
        let d = dims(json_items(g2)->Some_0);
        assert forall|j: int| 0 <= j < shape@.len() implies d[j] == shape@[j] by {
            assert(json_number(json_items(g2)->Some_0[j]) == Some(dims64@[j]));
        }
        assert(d =~= shape@);
        assert(json_number(json_items(g0)->Some_0[0]) == Some(ends64@[0]));
        assert(json_number(json_items(g0)->Some_0[1]) == Some(ends64@[1]));
        assert(number_at(json_items(g0)->Some_0, 0) == from);
        assert(number_at(json_items(g0)->Some_0, 1) == to);
        lemma_alike_shallow(ms[0].1, gv[0].1, 1);
        lemma_alike_shallow(ms[2].1, gv[2].1, 1);
        assert(json_text(ms[1].1) is Some);
        assert forall|j: int| 0 <= j < ms.len() implies shallow((#[trigger] ms[j]).1, 1) by {
        }
    }
    e
}

proof fn lemma_deeper(b: Seq<u8>, d: nat, e: nat)
    requires
        shallow(b, d),
        d <= e,
    ensures
        shallow(b, e),
    decreases d,
{
    if d > 0 {
        if json_items(b) is Some {
            let x = json_items(b)->Some_0;
            assert forall|i: int| 0 <= i < x.len() && shallow(x[i], (d - 1) as nat) implies shallow(
                #[trigger] x[i],
                (e - 1) as nat,
            ) by {
                lemma_deeper(x[i], (d - 1) as nat, (e - 1) as nat);
            }
        }
        if json_members(b) is Some {
            let x = json_members(b)->Some_0;
            assert forall|i: int| 0 <= i < x.len() && shallow(x[i].1, (d - 1) as nat) implies shallow(
                (#[trigger] x[i]).1,
                (e - 1) as nat,
            ) by {
                lemma_deeper(x[i].1, (d - 1) as nat, (e - 1) as nat);
            }
        }
    }
}

proof fn lemma_body_len(ts: Seq<(Seq<char>, TensorShape)>, i: int)
    requires
        0 <= i < ts.len(),
    ensures
        offset(ts, i + 1) == offset(ts, i) + 4 * ts[i].1.data.len(),
        body(ts.take(i + 1)) == body(ts.take(i)) + item_bytes(ts[i].1.data),
{
    assert(ts.take(i + 1).drop_last() =~= ts.take(i));
}

/// A tensor's data stands in the body where its offsets say.
proof fn lemma_body_at(ts: Seq<(Seq<char>, TensorShape)>, i: int)
    requires
        0 <= i < ts.len(),
    ensures
        offset(ts, i + 1) <= body(ts).len(),
        forall|j: int|
            0 <= j < 4 * ts[i].1.data.len() ==> #[trigger] body(ts)[offset(ts, i) + j]
                == item_bytes(ts[i].1.data)[j],
    decreases ts.len(),
{
    lemma_body_len(ts, i);
    if i == ts.len() - 1 {
        assert(ts.take(i + 1) =~= ts);
    } else {
        let d = ts.drop_last();
        lemma_body_at(d, i);
        assert(d.take(i) =~= ts.take(i));
        assert(d.take(i + 1) =~= ts.take(i + 1));
        assert forall|j: int| 0 <= j < 4 * ts[i].1.data.len() implies #[trigger] body(ts)[offset(
            ts,
            i,
        ) + j] == item_bytes(ts[i].1.data)[j] by {
            assert(body(d)[offset(d, i) + j] == item_bytes(d[i].1.data)[j]);
        }
    }
}

proof fn lemma_items_back(b: Seq<u8>, lo: int, data: Seq<u32>)
    requires
        0 <= lo,
        lo + 4 * data.len() <= b.len(),
        forall|j: int| 0 <= j < 4 * data.len() ==> #[trigger] b[lo + j] == item_bytes(data)[j],
    ensures
        data_of(b, lo, data.len() as int) == data,
{
    assert forall|i: int| 0 <= i < data.len() implies le32(b, lo + 4 * i) as u32 == data[i] by {
        let at = lo + 4 * i;
        assert(b[lo + (4 * i)] == byte_of(data[i] as int, 0));
        assert(b[lo + (4 * i + 1)] == byte_of(data[i] as int, 1));
        assert(b[lo + (4 * i + 2)] == byte_of(data[i] as int, 2));
        assert(b[lo + (4 * i + 3)] == byte_of(data[i] as int, 3));
        lemma_bytes32(data[i]);
        assert(le32(b, at) == data[i]);
    }
    assert(data_of(b, lo, data.len() as int) =~= data);
}

/// An entry that describes a tensor reads as it.
proof fn lemma_entry_back(
    b: Seq<u8>,
    start: int,
    ts: Seq<(Seq<char>, TensorShape)>,
    t: int,
    name: Seq<char>,
    e: Seq<u8>,
)
    requires
        0 <= start,
        b.len() <= usize::MAX,
        b.len() == start + body(ts).len(),
        b.skip(start) == body(ts),
        0 <= t < ts.len(),
        describes(e, ts[t].1.shape, offset(ts, t), offset(ts, t + 1)),
        volume(ts[t].1.shape) == ts[t].1.data.len(),
    ensures
        tensor_read(b, start, name, e) == Ok::<TensorShape, Failure>(ts[t].1),
{
    let one = ts[t].1;
    let lo = offset(ts, t);
    lemma_body_len(ts, t);
    lemma_body_at(ts, t);
    assert forall|j: int| 0 <= j < 4 * one.data.len() implies #[trigger] b[start + lo + j]
        == item_bytes(one.data)[j] by {
        assert(body(ts)[offset(ts, t) + j] == item_bytes(one.data)[j]);
        assert(b.skip(start)[lo + j] == b[start + (lo + j)]);
        assert(start + (lo + j) == start + lo + j);
    }
    lemma_items_back(b, start + lo, one.data);
    let hi = offset(ts, t + 1);
    assert(lo as u64 == lo && hi as u64 == hi);
    assert((hi - lo) / 4 == one.data.len());
}

/// What the entries from place `i` on add, once those before it have been read.
proof fn lemma_entries_back(
    b: Seq<u8>,
    start: int,
    ms: Seq<(Seq<char>, Seq<u8>)>,
    c: Contents,
    m: int,
    i: int,
)
    requires
        0 <= start,
        b.len() <= usize::MAX,
        b.len() == start + body(c.tensors).len(),
        b.skip(start) == body(c.tensors),
        lists_at(ms, c, m),
        sound(c),
        0 <= i <= ms.len(),
    ensures
        entries_read(
            b,
            start,
            ms,
            i,
            Contents {
                tensors: c.tensors.take(
                    if i <= m {
                        i
                    } else {
                        i - 1
                    },
                ),
                meta: if i <= m {
                    Seq::empty()
                } else {
                    c.meta
                },
            },
        ) == Ok::<Contents, Failure>(c),
    decreases ms.len() - i,
{
    let n = c.tensors.len() as int;
    let t = if i <= m {
        i
    } else {
        i - 1
    };
    let got = Contents {
        tensors: c.tensors.take(t),
        meta: if i <= m {
            Seq::empty()
        } else {
            c.meta
        },
    };
    if i == ms.len() {
        assert(c.tensors.take(n) =~= c.tensors);
        assert(!noted(c) ==> c.meta =~= Seq::empty());
    } else if noted(c) && i == m {
        assert(got.meta + notes_of(ms[i].1) =~= c.meta);
        lemma_entries_back(b, start, ms, c, m, i + 1);
    } else {
        assert(entry_place(t, m) == i);
        assert(ms[i].0 == c.tensors[t].0);
        assert(ms[i].0 != "__metadata__"@);
        let one = c.tensors[t].1;
        lemma_entry_back(b, start, c.tensors, t, ms[i].0, ms[i].1);
        assert(got.tensors.push((ms[i].0, one)) =~= c.tensors.take(t + 1));
        lemma_entries_back(b, start, ms, c, m, i + 1);
    }
}

/// Bytes that hold a checkpoint's header and body read back as it.
proof fn lemma_written(b: Seq<u8>, c: Contents)
    requires
        b.len() <= usize::MAX,
        8 <= 8 + le64(b, 0) <= b.len(),
        json_valid(b.subrange(8, 8 + le64(b, 0))),
        json_members(b.subrange(8, 8 + le64(b, 0))) is Some,
        lists(json_members(b.subrange(8, 8 + le64(b, 0)))->Some_0, c),
        b.skip(8 + le64(b, 0)) == body(c.tensors),
        sound(c),
    ensures
        bundle_read(b) == Ok::<Contents, Failure>(c),
{
    let start = 8 + le64(b, 0);
    let ms = json_members(b.subrange(8, start))->Some_0;
    let m = choose|m: int| #[trigger] lists_at(ms, c, m);
    assert(b.skip(start).len() == b.len() - start);
    lemma_entries_back(b, start, ms, c, m, 0);
    assert(c.tensors.take(0) =~= Seq::empty());
}

/// Appends items to bytes.
fn push_items(out: &mut Vec<u8>, data: &Vec<u32>)
    ensures
        final(out)@ == old(out)@ + item_bytes(data@),
{
    let ghost was = out@;
    let ghost all = item_bytes(data@);
    let mut i: usize = 0;
    assert(out@ =~= was + all.take(0));
    while i < data.len()
        invariant
            i <= data@.len(),
            all == item_bytes(data@),
            out@ == was + all.take(4 * i),
        decreases data@.len() - i,
    {
        let ghost before = out@;
        out.push(low_byte(data[i], 0));
        out.push(low_byte(data[i], 1));
        out.push(low_byte(data[i], 2));
        out.push(low_byte(data[i], 3));
        proof {
            let k = 4 * i as int;
            assert(all[k] == byte_of(data@[i as int] as int, 0));
            assert(all[k + 1] == byte_of(data@[i as int] as int, 1));
            assert(all[k + 2] == byte_of(data@[i as int] as int, 2));
            assert(all[k + 3] == byte_of(data@[i as int] as int, 3));
            assert(out@ =~= was + all.take(k + 4));
        }
        i += 1;
    }
    assert(all.take(4 * data@.len() as int) =~= all);
}

proof fn lemma_notes_all(x: Seq<(Seq<char>, Seq<u8>)>, want: Seq<(Seq<char>, Seq<char>)>)
    requires
        x.len() == want.len(),
        forall|k: int|
            0 <= k < x.len() ==> (#[trigger] x[k]).0 == want[k].0 && json_text(x[k].1) == Some(
                want[k].1,
            ),
    ensures
        notes(x) == want,
    decreases x.len(),
{
    if x.len() > 0 {
        lemma_notes_all(x.drop_last(), want.drop_last());
        assert(notes(x) =~= want);
    } else {
        assert(want =~= Seq::empty());
    }
}

/// The bytes of the notes.
fn write_notes(meta: &Vec<(String, String)>) -> (e: Vec<u8>)
    requires
        names_ascend(note_views(meta@)),
    ensures
        e@ == notes_written(note_views(meta@)),
        notes_of(e@) == note_views(meta@),
        json_members(e@) is Some,
        shallow(e@, 2),
{
    let ghost want = note_views(meta@);
    let mut given: Vec<(String, Vec<u8>)> = Vec::new();
    let mut i: usize = 0;
    while i < meta.len()
        invariant
            i <= meta@.len(),
            want == note_views(meta@),
            given@.len() == i,
            forall|j: int|
                0 <= j < i ==> (#[trigger] given@[j]).0@ == want[j].0 && json_text(given@[j].1@)
                    == Some(want[j].1) && given@[j].1@ == text_written(want[j].1),
        decreases meta@.len() - i,
    {
        assert(want[i as int] == (meta@[i as int].0@, meta@[i as int].1@));
        given.push((meta[i].0.clone(), write_text(meta[i].1.as_str())));
        i += 1;
    }
    let ghost gv = member_views(given@);
    proof {
        assert(gv =~= Seq::new(want.len(), |i: int| (want[i].0, text_written(want[i].1))));
        assert forall|a: int, b: int| 0 <= a < b < gv.len() implies sorts_before(
            (#[trigger] gv[a]).0,
            (#[trigger] gv[b]).0,
        ) by {
            assert(gv[a].0 == given@[a].0@ && gv[b].0 == given@[b].0@);
            assert(sorts_before(want[a].0, want[b].0));
        }
        assert forall|j: int| 0 <= j < given@.len() implies shallow((#[trigger] given@[j]).1@, 3) by {
            assert(json_text(given@[j].1@) is Some);
        }
    }
    let e = write_object(&given);
    proof {
        assert(e@ + spaces(0) =~= e@);
        let ms = json_members(e@)->Some_0;
        assert(holds_members(json_members(e@ + spaces(0)), gv));
        assert forall|k: int| 0 <= k < ms.len() implies (#[trigger] ms[k]).0 == want[k].0 && json_text(
            ms[k].1,
        ) == Some(want[k].1) && shallow(ms[k].1, 1) by {
            assert(reads_alike(ms[k].1, gv[k].1, 0));
            assert(gv[k].1 == given@[k].1@);
            assert(gv[k].0 == given@[k].0@);
        }
        lemma_notes_all(ms, want);
    }
    e
}

/// The entries of a checkpoint's tensors, and their data.
fn write_tensors(tensors: &Vec<(String, Tensor)>) -> (r: (Vec<(String, Vec<u8>)>, Vec<u8>))
    ensures
        r.1@ == body(tensor_views(tensors@)),
        r.0@.len() == tensors@.len(),
        member_views(r.0@) == tensor_entries(tensor_views(tensors@)),
        forall|j: int|
            0 <= j < tensors@.len() ==> (#[trigger] r.0@[j]).0@ == tensors@[j].0@ && shallow(
                r.0@[j].1@,
                2,
            ) && describes(
                r.0@[j].1@,
                tensors@[j].1.shape@,
                offset(tensor_views(tensors@), j),
                offset(tensor_views(tensors@), j + 1),
            ),
{
    let ghost ts = tensor_views(tensors@);
    let mut entries: Vec<(String, Vec<u8>)> = Vec::new();
    let mut data: Vec<u8> = Vec::new();
    let mut i: usize = 0;
    assert(data@ =~= body(ts.take(0)));
    while i < tensors.len()
        invariant
            i <= tensors@.len(),
            ts == tensor_views(tensors@),
            data@ == body(ts.take(i as int)),
            entries@.len() == i,
            forall|j: int|
                0 <= j < i ==> (#[trigger] entries@[j]).1@ == tensor_entries(ts)[j].1,
            forall|j: int|
                0 <= j < i ==> (#[trigger] entries@[j]).0@ == tensors@[j].0@ && shallow(
                    entries@[j].1@,
                    2,
                ) && describes(
                    entries@[j].1@,
                    tensors@[j].1.shape@,
                    offset(ts, j),
                    offset(ts, j + 1),
                ),
        decreases tensors@.len() - i,
    {
        proof {
            assert(ts[i as int] == (tensors@[i as int].0@, tensors@[i as int].1@));
            lemma_body_len(ts, i as int);
        }
        let from: u64 = data.len() as u64;
        push_items(&mut data, &tensors[i].1.data);
        let to: u64 = data.len() as u64;
        entries.push((tensors[i].0.clone(), write_entry(&tensors[i].1.shape, from, to)));
        i += 1;
    }
    assert(ts.take(tensors@.len() as int) =~= ts);
    assert(member_views(entries@) =~= tensor_entries(ts));
    (entries, data)
}

proof fn lemma_lists_alike(
    x: Seq<(Seq<char>, Seq<u8>)>,
    y: Seq<(Seq<char>, Seq<u8>)>,
    c: Contents,
)
    requires
        holds_members(Some(x), y),
        lists(y, c),
    ensures
        lists(x, c),
{
    let m = choose|m: int| #[trigger] lists_at(y, c, m);
    let n = c.tensors.len() as int;
    if noted(c) {
        assert(x[m].0 == y[m].0);
        assert(reads_alike(x[m].1, y[m].1, 1));
        let (a, b) = (json_members(x[m].1), json_members(y[m].1));
        if a is Some {
            assert forall|k: int| 0 <= k < a->Some_0.len() implies (#[trigger] a->Some_0[k]).0
                == b->Some_0[k].0 && json_text(a->Some_0[k].1) == json_text(b->Some_0[k].1) by {
                assert(reads_alike(a->Some_0[k].1, b->Some_0[k].1, 0));
            }
            lemma_notes_alike(a->Some_0, b->Some_0);
        }
    }
    assert forall|i: int| 0 <= i < n implies x[entry_place(i, m)].0 == (#[trigger] c.tensors[i]).0
        && describes(
        x[entry_place(i, m)].1,
        c.tensors[i].1.shape,
        offset(c.tensors, i),
        offset(c.tensors, i + 1),
    ) by {
        let k = entry_place(i, m);
        assert(x[k].0 == y[k].0);
        assert(reads_alike(x[k].1, y[k].1, 3));
        lemma_describes_alike(
            x[k].1,
            y[k].1,
            c.tensors[i].1.shape,
            offset(c.tensors, i),
            offset(c.tensors, i + 1),
        );
    }
    assert(lists_at(x, c, m));
}

/// Appends spaces up to a multiple of eight.
fn pad(v: &mut Vec<u8>)
    ensures
        final(v)@.len() >= old(v)@.len(),
        final(v)@ == old(v)@ + spaces((final(v)@.len() - old(v)@.len()) as nat),
        final(v)@.len() % 8 == 0,
        final(v)@ == padded_out(old(v)@),
{
    let ghost was = v@;
    let mut n: usize = 0;
    assert(v@ =~= was + spaces(0));
    while v.len() % 8 != 0
        invariant
            v@ == was + spaces(n as nat),
            n < 8,
            was.len() % 8 == 0 ==> n == 0,
            was.len() % 8 != 0 ==> n <= 8 - was.len() % 8,
        decreases 8 - n,
    {
        v.push(32);
        n += 1;
        assert(v@ =~= was + spaces(n as nat));
    }
}

proof fn lemma_length_back(b: Seq<u8>, lo: u32, hi: u32)
    requires
        b.len() >= 8,
        forall|k: int| 0 <= k < 4 ==> #[trigger] b[k] == byte_of(lo as int, k),
        forall|k: int| 4 <= k < 8 ==> #[trigger] b[k] == byte_of(hi as int, k - 4),
    ensures
        le64(b, 0) == lo + 0x1_0000_0000 * hi,
{
    lemma_bytes32(lo);
    lemma_bytes32(hi);
}

impl Bundle {
    /// The header's entries in the order of their keys: the tensors', and the
    /// notes where they fall unless a tensor takes their key.
    fn with_notes(&self, plain: Vec<(String, Vec<u8>)>) -> (r: Vec<(String, Vec<u8>)>)
        requires
            self.ordered(),
            plain@.len() == self@.tensors.len(),
            member_views(plain@) == tensor_entries(self@.tensors),
            forall|j: int|
                0 <= j < plain@.len() ==> (#[trigger] plain@[j]).0@ == self@.tensors[j].0 && shallow(
                    plain@[j].1@,
                    2,
                ) && describes(
                    plain@[j].1@,
                    self@.tensors[j].1.shape,
                    offset(self@.tensors, j),
                    offset(self@.tensors, j + 1),
                ),
        ensures
            member_views(r@) == header_entries(self@),
            keys_ascend(member_views(r@)),
            lists(member_views(r@), self@),
            forall|j: int| 0 <= j < r@.len() ==> shallow((#[trigger] r@[j]).1@, 2),
    {
        let mut entries = plain;
        let ghost ts = self@.tensors;
        let ghost key = "__metadata__"@;
        let ghost n = ts.len() as int;
        let words = text_words("__metadata__");
        let mut m: usize = 0;
        let mut going = true;
        while going
            invariant
                m <= entries@.len(),
                entries@ == plain@,
                plain@.len() == n,
                n == ts.len(),
                ts == self@.tensors,
                key == "__metadata__"@,
                words.0@ == code_points(key),
                forall|j: int| 0 <= j < n ==> (#[trigger] plain@[j]).0@ == ts[j].0,
                forall|j: int| 0 <= j < m ==> sorts_before((#[trigger] ts[j]).0, key),
                going || m == n || !sorts_before(ts[m as int].0, key),
                notes_place(ts, 0) == notes_place(ts, m as int),
            decreases entries@.len() - m + if going {
                1int
            } else {
                0
            },
        {
            if m < entries.len() {
                let ghost e = entries@[m as int];
                assert(e.0@ == ts[m as int].0);
                let w = text_words(entries[m].0.as_str());
                if w.less(&words) {
                    m += 1;
                } else {
                    going = false;
                }
            } else {
                going = false;
            }
        }
        let clash = m < entries.len() && {
            let w = text_words(entries[m].0.as_str());
            proof {
                assert(entries@[m as int].0@ == ts[m as int].0);
                lemma_words_total(code_points(ts[m as int].0), code_points(key));
                if !sorts_before(key, ts[m as int].0) {
                    lemma_code_points(ts[m as int].0, key);
                }
                if ts[m as int].0 == key {
                    lemma_words_total(code_points(key), code_points(key));
                }
            }
            !words.less(&w)
        };
        let ghost pv = member_views(plain@);
        proof {
            assert(clash ==> ts[m as int].0 == key);
            assert forall|a: int, b: int| 0 <= a < b < pv.len() implies sorts_before(
                (#[trigger] pv[a]).0,
                (#[trigger] pv[b]).0,
            ) by {
                assert(pv[a].0 == plain@[a].0@ && pv[b].0 == plain@[b].0@);
                assert(sorts_before(ts[a].0, ts[b].0));
            }
            assert forall|j: int| m <= j < n && !clash implies sorts_before(
                key,
                (#[trigger] ts[j]).0,
            ) by {
                if j > m {
                    assert(sorts_before(ts[m as int].0, ts[j].0));
                    lemma_words_trans(
                        code_points(key),
                        code_points(ts[m as int].0),
                        code_points(ts[j].0),
                    );
                }
            }
            lemma_words_total(code_points(key), code_points(key));
            assert(!clash ==> forall|j: int| 0 <= j < n ==> (#[trigger] ts[j]).0 != key);
        }
        if self.meta.len() > 0 && !clash {
            assert(self@.meta.len() > 0);
            assert(noted(self@));
            let mut k = String::new();
            k.append("__metadata__");
            assert(k@ =~= key);
            let notes_bytes = write_notes(&self.meta);
            let ghost nb = notes_bytes@;
            entries.insert(m, (k, notes_bytes));
            proof {
                let ev = member_views(entries@);
                assert(ev =~= pv.insert(m as int, (key, nb)));
                assert(notes_place(ts, 0) == m);
                assert forall|a: int, b: int| 0 <= a < b < ev.len() implies sorts_before(
                    (#[trigger] ev[a]).0,
                    (#[trigger] ev[b]).0,
                ) by {
                    let (x, y) = (
                        if a < m {
                            a
                        } else {
                            a - 1
                        },
                        if b < m {
                            b
                        } else {
                            b - 1
                        },
                    );
                    if a == m {
                        assert(pv[y].0 == plain@[y].0@);
                        assert(sorts_before(key, ts[y].0));
                    } else if b == m {
                        assert(pv[x].0 == plain@[x].0@);
                        assert(sorts_before(ts[x].0, key));
                    } else {
                        assert(sorts_before(pv[x].0, pv[y].0));
                    }
                }
                assert forall|i: int| 0 <= i < n implies ev[entry_place(i, m as int)].0 == (
                #[trigger] ts[i]).0 && describes(
                    ev[entry_place(i, m as int)].1,
                    ts[i].1.shape,
                    offset(ts, i),
                    offset(ts, i + 1),
                ) by {
                    assert(ev[entry_place(i, m as int)] == pv[i]);
                    assert(pv[i] == (plain@[i].0@, plain@[i].1@));
                }
                assert(ev[m as int] == (key, nb));
                assert(lists_at(ev, self@, m as int));
                assert(entries@[m as int].1@ == nb);
                assert forall|j: int| 0 <= j < entries@.len() implies shallow(
                    (#[trigger] entries@[j]).1@,
                    2,
                ) by {
                    if j != m {
                        let x = if j < m {
                            j
                        } else {
                            j - 1
                        };
                        assert(entries@[j] == plain@[x]);
                    }
                }
            }
        } else {
            proof {
                assert(self@.meta.len() == self.meta@.len());
                assert(!noted(self@)) by {
                    if clash {
                        assert(ts[m as int].0 == key);
                    }
                }
                assert forall|i: int| 0 <= i < n implies pv[entry_place(i, n)].0 == (
                #[trigger] ts[i]).0 && describes(
                    pv[entry_place(i, n)].1,
                    ts[i].1.shape,
                    offset(ts, i),
                    offset(ts, i + 1),
                ) by {
                    assert(pv[i] == (plain@[i].0@, plain@[i].1@));
                }
                assert(lists_at(pv, self@, n));
            }
        }
        entries
    }

    /// The bytes of the checkpoint: a header, padded so that the data starts at a
    /// multiple of eight, and the data of the tensors back to back.
    ///
    /// A checkpoint reads back as it was written, and written again it is the same
    /// byte for byte.
    pub fn to_bytes(&self) -> (r: Vec<u8>)
        requires
            self.ordered(),
        ensures
            r@ == bundle_written(self@),
            8 <= 8 + le64(r@, 0) <= r@.len(),
            le64(r@, 0) % 8 == 0,
            json_valid(r@.subrange(8, 8 + le64(r@, 0))),
            json_members(r@.subrange(8, 8 + le64(r@, 0))) is Some,
            lists(json_members(r@.subrange(8, 8 + le64(r@, 0)))->Some_0, self@),
            r@.skip(8 + le64(r@, 0)) == body(self@.tensors),
            sound(self@) ==> bundle_read(r@) == Ok::<Contents, Failure>(self@),
            sound(self@) ==> forall|c: Contents|
                bundle_read(r@) == Ok::<Contents, Failure>(c) ==> #[trigger] bundle_written(c) == r@,
    {
        let (plain, data) = write_tensors(&self.tensors);
        assert forall|j: int| 0 <= j < plain@.len() implies (#[trigger] plain@[j]).0@
            == self@.tensors[j].0 && self@.tensors[j].1.shape == self.tensors@[j].1.shape@ by {}
        let entries = self.with_notes(plain);
        let ghost ev = member_views(entries@);
        assert forall|j: int| 0 <= j < entries@.len() implies shallow((#[trigger] entries@[j]).1@, 3) by {
            lemma_deeper(entries@[j].1@, 2, 3);
        }
        let mut header = write_object(&entries);
        let ghost bare = header@;
        pad(&mut header);
        let ghost n = (header@.len() - bare.len()) as nat;
        let len: u64 = header.len() as u64;
        let lo: u32 = (len % 0x1_0000_0000) as u32;
        let hi: u32 = (len / 0x1_0000_0000) as u32;
        let mut out: Vec<u8> = Vec::new();
        let mut k: usize = 0;
        while k < 8
            invariant
                k <= 8,
                out@.len() == k,
                forall|j: int|
                    0 <= j < k ==> #[trigger] out@[j] == if j < 4 {
                        byte_of(lo as int, j)
                    } else {
                        byte_of(hi as int, j - 4)
                    },
            decreases 8 - k,
        {
            if k < 4 {
                out.push(low_byte(lo, k));
            } else {
                out.push(low_byte(hi, k - 4));
            }
            k += 1;
        }
        let ghost head = out@;
        let mut tail = data;
        out.append(&mut header);
        out.append(&mut tail);
        let total: usize = out.len();
        proof {
            let h = bare + spaces(n);
            let d = body(self@.tensors);
            assert(out@ =~= head + h + d);
            assert(head =~= length_bytes(h.len()));
            assert(h == padded_out(bare));
            assert(out@ == bundle_written(self@));
            lemma_length_back(out@, lo, hi);
            assert(le64(out@, 0) == h.len());
            assert(out@.subrange(8, 8 + h.len() as int) =~= h);
            assert(out@.skip(8 + h.len() as int) =~= d);
            assert(holds_members(json_members(bare + spaces(n)), ev));
            lemma_lists_alike(json_members(h)->Some_0, ev, self@);
            if sound(self@) {
                lemma_written(out@, self@);
            }
        }
        out
    }
}

} // verus!
