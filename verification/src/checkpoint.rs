//! What a checkpoint of the network holds: the tensors with their shapes, how
//! they start before training, and loading and saving them.

use crate::bundle::{
    names_ascend, note_views, sound, tensor_views, volume, Bundle, Contents, Tensor, TensorShape,
};
use crate::fields::{first_at, is_digit, numbers_read_back, parse_number, read_number, spelled};
use crate::net::{Arch, N_DECOMP};
use crate::phase::PHASES;
use crate::order::Ranked;
use crate::text::{
    characters, code_points, digits, lemma_code_points, lemma_sorts_at, number, push_number,
    sorts_before, text_words,
};
use crate::words::{lemma_words_skip, lemma_words_total, lemma_words_trans};
use vstd::prelude::*;
use vstd::string::*;

verus! {

/// The revision of the checkpoint layout that this build writes, and the newest
/// that it reads.
pub const FORMAT_VERSION: u32 = 1;

/// The widths of the encoder: what the network reads.
#[derive(Clone, Copy, PartialEq, Eq, Debug, Structural)]
pub struct Geometry {
    /// Features of a position.
    pub d_in: usize,
    /// Features of a candidate.
    pub d_choice: usize,
    /// Board cells, and one for stopping.
    pub n_who: usize,
    /// Gears a worker can be placed on, as the placing head counts them.
    pub n_place: usize,
    pub board_w: usize,
    pub player_w: usize,
    pub bslot_w: usize,
    pub mslot_w: usize,
    /// Global features, those kept in reserve with them.
    pub global_w: usize,
}

/// How a tensor starts before training.
#[derive(Clone, Copy, PartialEq, Eq, Debug, Structural)]
pub enum Init {
    Zero,
    One,
    /// Evenly spread round zero, as wide as the root of six over the sum of the
    /// two widths; a tenth of that for a head.
    Spread { out: usize, inp: usize, head: bool },
}

/// A tensor a checkpoint must hold.
pub struct Slot {
    pub name: String,
    pub shape: Vec<usize>,
    pub init: Init,
}

/// A tensor a checkpoint must hold, as plain values.
#[verifier::ext_equal]
pub struct SlotShape {
    pub name: Seq<char>,
    pub shape: Seq<usize>,
    pub init: Init,
}

impl View for Slot {
    type V = SlotShape;

    open spec fn view(&self) -> SlotShape {
        SlotShape { name: self.name@, shape: self.shape@, init: self.init }
    }
}

/// Tensors as plain values.
pub open spec fn slot_views(v: Seq<Slot>) -> Seq<SlotShape> {
    Seq::new(v.len(), |i: int| v[i]@)
}

/// A tensor of two dimensions.
pub open spec fn grid(name: Seq<char>, rows: usize, cols: usize, init: Init) -> Seq<SlotShape> {
    seq![SlotShape { name, shape: seq![rows, cols], init }]
}

/// A tensor of one dimension.
pub open spec fn row(name: Seq<char>, n: usize, init: Init) -> Seq<SlotShape> {
    seq![SlotShape { name, shape: seq![n], init }]
}

/// A layer's weights, a row for each output, and its offsets.
pub open spec fn layer(name: Seq<char>, out: usize, inp: usize, head: bool) -> Seq<SlotShape> {
    grid(name + ".weight"@, out, inp, Init::Spread { out, inp, head }) + row(
        name + ".bias"@,
        out,
        Init::Zero,
    )
}

/// A normalisation's scale and offset.
pub open spec fn norm(name: Seq<char>, w: usize) -> Seq<SlotShape> {
    row(name + ".weight"@, w, Init::One) + row(name + ".bias"@, w, Init::Zero)
}

impl Arch {
    /// Width of the stems side by side, or the largest width there is.
    pub open spec fn stems(self) -> usize {
        if self.fused() <= usize::MAX {
            self.fused() as usize
        } else {
            usize::MAX
        }
    }
}

/// The tensors in front of the trunk.
pub open spec fn front(a: Arch, g: Geometry) -> Seq<SlotShape> {
    layer("stem.board"@, a.board, g.board_w, false) + layer(
        "stem.player"@,
        a.player,
        g.player_w,
        false,
    ) + layer("stem.bslot"@, a.bslot, g.bslot_w, false) + layer(
        "stem.mslot"@,
        a.mslot,
        g.mslot_w,
        false,
    ) + layer("stem.global"@, a.globals, g.global_w, false) + layer(
        "fuse"@,
        a.width,
        a.stems(),
        false,
    ) + norm("fuse.norm"@, a.width)
}

/// How the names of a block begin.
pub open spec fn block_name(i: nat) -> Seq<char> {
    "trunk."@ + digits(i)
}

/// The tensors of a block of the trunk.
pub open spec fn block(i: nat, w: usize) -> Seq<SlotShape> {
    norm(block_name(i) + ".norm1"@, w) + grid(
        block_name(i) + ".fc1.weight"@,
        w,
        w,
        Init::Spread { out: w, inp: w, head: false },
    ) + norm(block_name(i) + ".norm2"@, w) + grid(block_name(i) + ".fc2.weight"@, w, w, Init::Zero)
}

/// The tensors of the blocks from one on.
pub open spec fn blocks(from: nat, n: nat, w: usize) -> Seq<SlotShape>
    decreases n - from,
{
    if from >= n {
        Seq::empty()
    } else {
        block(from, w) + blocks(from + 1, n, w)
    }
}

/// The tensors of the value heads.
pub open spec fn value_heads(a: Arch) -> Seq<SlotShape> {
    norm("trunk.norm"@, a.width) + layer("value.fc"@, a.value_hidden, a.width, false) + layer(
        "value.rel"@,
        4,
        a.value_hidden,
        true,
    ) + layer("value.score"@, 4, a.value_hidden, true) + layer(
        "value.rank"@,
        16,
        a.value_hidden,
        true,
    ) + layer("value.decomp"@, 24, a.value_hidden, true)
}

/// The tensors of the policy heads.
pub open spec fn policy_heads(a: Arch, g: Geometry) -> Seq<SlotShape> {
    layer("policy.beg"@, 4, a.width, true) + layer("policy.mode"@, 3, a.width, true) + layer(
        "policy.place"@,
        g.n_place,
        a.width,
        true,
    ) + layer("policy.extra_day"@, 2, a.width, true) + layer("policy.who"@, g.n_who, a.width, true)
}

/// The tensors of the pointer head.
pub open spec fn pointer_head(a: Arch, g: Geometry) -> Seq<SlotShape> {
    layer("ptr.q_fast"@, g.d_choice, a.width, true) + layer("ptr.q_deep"@, a.key, a.width, true)
        + grid("ptr.cell_emb"@, g.n_who, a.key, Init::Zero) + grid(
        "ptr.step_emb"@,
        PHASES,
        a.key,
        Init::Zero,
    ) + layer("ptr.key1"@, a.key, g.d_choice, false) + layer("ptr.key2"@, a.key, a.key, false)
}

/// The tensors behind the trunk.
pub open spec fn back(a: Arch, g: Geometry) -> Seq<SlotShape> {
    value_heads(a) + policy_heads(a, g) + pointer_head(a, g)
}

/// The exact tensors a checkpoint must hold, in the order in which they are
/// drawn before training.
pub open spec fn manifest(a: Arch, g: Geometry) -> Seq<SlotShape> {
    front(a, g) + (blocks(0, a.blocks as nat, a.width) + back(a, g))
}

// ---- listing -------------------------------------------------------------

fn push_grid(v: &mut Vec<Slot>, name: String, rows: usize, cols: usize, init: Init)
    ensures
        slot_views(final(v)@) == slot_views(old(v)@) + grid(name@, rows, cols, init),
{
    let mut shape: Vec<usize> = Vec::new();
    shape.push(rows);
    shape.push(cols);
    assert(shape@ =~= seq![rows, cols]);
    v.push(Slot { name, shape, init });
    assert(slot_views(v@) =~= slot_views(old(v)@) + grid(name@, rows, cols, init));
}

fn push_row(v: &mut Vec<Slot>, name: String, n: usize, init: Init)
    ensures
        slot_views(final(v)@) == slot_views(old(v)@) + row(name@, n, init),
{
    let mut shape: Vec<usize> = Vec::new();
    shape.push(n);
    assert(shape@ =~= seq![n]);
    v.push(Slot { name, shape, init });
    assert(slot_views(v@) =~= slot_views(old(v)@) + row(name@, n, init));
}

fn joined(a: &str, b: &str) -> (s: String)
    ensures
        s@ == a@ + b@,
{
    let mut s = String::new();
    s.append(a);
    s.append(b);
    assert(s@ =~= a@ + b@);
    s
}

fn push_layer(v: &mut Vec<Slot>, name: &str, out: usize, inp: usize, head: bool)
    ensures
        slot_views(final(v)@) == slot_views(old(v)@) + layer(name@, out, inp, head),
{
    push_grid(v, joined(name, ".weight"), out, inp, Init::Spread { out, inp, head });
    push_row(v, joined(name, ".bias"), out, Init::Zero);
    assert(slot_views(v@) =~= slot_views(old(v)@) + layer(name@, out, inp, head));
}

fn push_norm(v: &mut Vec<Slot>, name: &str, w: usize)
    ensures
        slot_views(final(v)@) == slot_views(old(v)@) + norm(name@, w),
{
    push_row(v, joined(name, ".weight"), w, Init::One);
    push_row(v, joined(name, ".bias"), w, Init::Zero);
    assert(slot_views(v@) =~= slot_views(old(v)@) + norm(name@, w));
}

impl Arch {
    fn stem_width(&self) -> (n: usize)
        ensures
            n == self.stems(),
    {
        let n: u128 = self.board as u128 + 4 * (self.player as u128) + 6 * (self.bslot as u128) + 6 * (
        self.mslot as u128) + self.globals as u128;
        if n <= usize::MAX as u128 {
            n as usize
        } else {
            usize::MAX
        }
    }
}

fn push_front(v: &mut Vec<Slot>, a: &Arch, g: &Geometry)
    ensures
        slot_views(final(v)@) == slot_views(old(v)@) + front(*a, *g),
{
    let ghost was = slot_views(v@);
    push_layer(v, "stem.board", a.board, g.board_w, false);
    push_layer(v, "stem.player", a.player, g.player_w, false);
    push_layer(v, "stem.bslot", a.bslot, g.bslot_w, false);
    push_layer(v, "stem.mslot", a.mslot, g.mslot_w, false);
    push_layer(v, "stem.global", a.globals, g.global_w, false);
    push_layer(v, "fuse", a.width, a.stem_width(), false);
    push_norm(v, "fuse.norm", a.width);
    assert(slot_views(v@) =~= was + front(*a, *g));
}

fn push_block(v: &mut Vec<Slot>, i: usize, w: usize)
    ensures
        slot_views(final(v)@) == slot_views(old(v)@) + block(i as nat, w),
{
    let ghost was = slot_views(v@);
    let mut base = String::new();
    base.append("trunk.");
    push_number(&mut base, i as u64);
    assert(base@ =~= block_name(i as nat));
    let n1 = joined(base.as_str(), ".norm1");
    push_norm(v, n1.as_str(), w);
    push_grid(
        v,
        joined(base.as_str(), ".fc1.weight"),
        w,
        w,
        Init::Spread { out: w, inp: w, head: false },
    );
    let n2 = joined(base.as_str(), ".norm2");
    push_norm(v, n2.as_str(), w);
    push_grid(v, joined(base.as_str(), ".fc2.weight"), w, w, Init::Zero);
    assert(slot_views(v@) =~= was + block(i as nat, w));
}

fn push_back(v: &mut Vec<Slot>, a: &Arch, g: &Geometry)
    ensures
        slot_views(final(v)@) == slot_views(old(v)@) + back(*a, *g),
{
    let ghost was = slot_views(v@);
    push_norm(v, "trunk.norm", a.width);
    push_layer(v, "value.fc", a.value_hidden, a.width, false);
    push_layer(v, "value.rel", 4, a.value_hidden, true);
    push_layer(v, "value.score", 4, a.value_hidden, true);
    push_layer(v, "value.rank", 16, a.value_hidden, true);
    push_layer(v, "value.decomp", 4 * N_DECOMP, a.value_hidden, true);
    assert(slot_views(v@) =~= was + value_heads(*a));
    let ghost half = slot_views(v@);
    push_layer(v, "policy.beg", 4, a.width, true);
    push_layer(v, "policy.mode", 3, a.width, true);
    push_layer(v, "policy.place", g.n_place, a.width, true);
    push_layer(v, "policy.extra_day", 2, a.width, true);
    push_layer(v, "policy.who", g.n_who, a.width, true);
    assert(slot_views(v@) =~= half + policy_heads(*a, *g));
    let ghost most = slot_views(v@);
    push_layer(v, "ptr.q_fast", g.d_choice, a.width, true);
    push_layer(v, "ptr.q_deep", a.key, a.width, true);
    push_grid(v, joined("ptr.cell_emb", ""), g.n_who, a.key, Init::Zero);
    push_grid(v, joined("ptr.step_emb", ""), PHASES, a.key, Init::Zero);
    push_layer(v, "ptr.key1", a.key, g.d_choice, false);
    push_layer(v, "ptr.key2", a.key, a.key, false);
    proof {
        reveal_strlit("");
        assert("ptr.cell_emb"@ + ""@ =~= "ptr.cell_emb"@);
        assert("ptr.step_emb"@ + ""@ =~= "ptr.step_emb"@);
    }
    assert(slot_views(v@) =~= most + pointer_head(*a, *g));
    assert(slot_views(v@) =~= was + back(*a, *g));
}

/// The exact tensors a checkpoint must hold, with how each starts.
pub fn tensor_manifest(a: Arch, g: Geometry) -> (v: Vec<Slot>)
    ensures
        slot_views(v@) == manifest(a, g),
{
    let mut v: Vec<Slot> = Vec::new();
    assert(slot_views(v@) =~= Seq::empty());
    push_front(&mut v, &a, &g);
    let ghost n = a.blocks as nat;
    let mut i: usize = 0;
    assert(slot_views(v@) + blocks(0, n, a.width) =~= front(a, g) + blocks(0, n, a.width));
    while i < a.blocks
        invariant
            i <= a.blocks,
            n == a.blocks,
            slot_views(v@) + blocks(i as nat, n, a.width) == front(a, g) + blocks(0, n, a.width),
        decreases a.blocks - i,
    {
        let ghost was = slot_views(v@);
        push_block(&mut v, i, a.width);
        i += 1;
        assert(slot_views(v@) + blocks(i as nat, n, a.width) =~= was + (block(
            (i - 1) as nat,
            a.width,
        ) + blocks(i as nat, n, a.width)));
    }
    assert(slot_views(v@) =~= slot_views(v@) + blocks(i as nat, n, a.width));
    push_back(&mut v, &a, &g);
    assert(slot_views(v@) =~= manifest(a, g));
    v
}

// ---- loading -------------------------------------------------------------

/// Why a checkpoint does not load.
pub enum LoadError {
    /// The format is another one.
    Format(String),
    /// The revision is newer than this build reads.
    Newer(u32),
    /// A width of the encoder is another one.
    Geometry(String, usize),
    /// A tensor is missing.
    Missing(String),
    /// A tensor has another shape.
    Shape(String),
    /// There is a tensor that the network does not have.
    Extra(String),
}

/// Why a checkpoint does not load, as plain values.
pub enum LoadFailure {
    Format(Seq<char>),
    Newer(u32),
    Geometry(Seq<char>, usize),
    Missing(Seq<char>),
    Shape(Seq<char>),
    Extra(Seq<char>),
}

impl View for LoadError {
    type V = LoadFailure;

    open spec fn view(&self) -> LoadFailure {
        match self {
            LoadError::Format(s) => LoadFailure::Format(s@),
            LoadError::Newer(v) => LoadFailure::Newer(*v),
            LoadError::Geometry(s, n) => LoadFailure::Geometry(s@, *n),
            LoadError::Missing(s) => LoadFailure::Missing(s@),
            LoadError::Shape(s) => LoadFailure::Shape(s@),
            LoadError::Extra(s) => LoadFailure::Extra(s@),
        }
    }
}

/// The place of a name, the first from `i` on, if there is one.
pub open spec fn place_of<T>(v: Seq<(Seq<char>, T)>, name: Seq<char>, i: int) -> Option<int>
    decreases v.len() - i,
{
    if i < 0 || i >= v.len() {
        None
    } else if v[i].0 == name {
        Some(i)
    } else {
        place_of(v, name, i + 1)
    }
}

/// The note with a key, if there is one.
pub open spec fn note(meta: Seq<(Seq<char>, Seq<char>)>, key: Seq<char>) -> Option<Seq<char>> {
    match place_of(meta, key, 0) {
        Some(i) => Some(meta[i].1),
        None => None,
    }
}

/// The number a note with a key spells, or a default.
pub open spec fn noted_number(
    meta: Seq<(Seq<char>, Seq<char>)>,
    key: Seq<char>,
    default: usize,
) -> usize {
    match note(meta, key) {
        Some(s) => match read_number(s, usize::MAX as nat) {
            Some(n) => n as usize,
            None => default,
        },
        None => default,
    }
}

/// Whether a width of the encoder that the notes give is another one.
pub open spec fn misfits(
    meta: Seq<(Seq<char>, Seq<char>)>,
    key: Seq<char>,
    want: usize,
) -> bool {
    note(meta, key) is Some && noted_number(meta, key, 0) != want
}

/// The widths the notes give, those of the main network where they give none.
pub open spec fn noted_arch(meta: Seq<(Seq<char>, Seq<char>)>) -> Arch {
    Arch {
        width: noted_number(meta, "width"@, 512),
        blocks: noted_number(meta, "blocks"@, 6),
        board: noted_number(meta, "board"@, 192),
        player: noted_number(meta, "player"@, 96),
        bslot: noted_number(meta, "bslot"@, 48),
        mslot: noted_number(meta, "mslot"@, 32),
        globals: noted_number(meta, "globals"@, 128),
        value_hidden: noted_number(meta, "value_hidden"@, 256),
        key: noted_number(meta, "key"@, 128),
    }
}

/// The revision the notes give, its low four bytes.
pub open spec fn noted_version(meta: Seq<(Seq<char>, Seq<char>)>) -> u32 {
    (noted_number(meta, "format_version"@, 1) as int % 0x1_0000_0000) as u32
}

pub type Named = Seq<(Seq<char>, TensorShape)>;

/// Takes the listed tensors out of others, one by one: what is left, and the
/// data of those taken behind what was there.
pub open spec fn drawn(ts: Named, slots: Seq<SlotShape>, got: Seq<Seq<u32>>) -> Result<
    (Named, Seq<Seq<u32>>),
    LoadFailure,
>
    decreases slots.len(),
{
    if slots.len() == 0 {
        Ok((ts, got))
    } else {
        match place_of(ts, slots[0].name, 0) {
            None => Err(LoadFailure::Missing(slots[0].name)),
            Some(i) => if ts[i].1.shape != slots[0].shape {
                Err(LoadFailure::Shape(slots[0].name))
            } else {
                drawn(ts.remove(i), slots.drop_first(), got.push(ts[i].1.data))
            },
        }
    }
}

/// The widths and the weights a checkpoint gives, the weights in the order of
/// the manifest.
pub open spec fn loaded(c: Contents, g: Geometry) -> Result<(Arch, Seq<Seq<u32>>), LoadFailure> {
    if note(c.meta, "format"@) is Some && note(c.meta, "format"@) != Some("tzolkin-net"@) {
        Err(LoadFailure::Format(note(c.meta, "format"@)->Some_0))
    } else if noted_version(c.meta) > FORMAT_VERSION {
        Err(LoadFailure::Newer(noted_version(c.meta)))
    } else if misfits(c.meta, "d_in"@, g.d_in) {
        Err(LoadFailure::Geometry("d_in"@, noted_number(c.meta, "d_in"@, 0)))
    } else if misfits(c.meta, "d_choice"@, g.d_choice) {
        Err(LoadFailure::Geometry("d_choice"@, noted_number(c.meta, "d_choice"@, 0)))
    } else if misfits(c.meta, "n_who"@, g.n_who) {
        Err(LoadFailure::Geometry("n_who"@, noted_number(c.meta, "n_who"@, 0)))
    } else {
        let a = noted_arch(c.meta);
        match drawn(c.tensors, manifest(a, g), Seq::empty()) {
            Err(e) => Err(e),
            Ok((rest, got)) => if rest.len() > 0 {
                Err(LoadFailure::Extra(rest[0].0))
            } else {
                Ok((a, got))
            },
        }
    }
}

/// Lists of numbers as plain values.
pub open spec fn weight_views(v: Seq<Vec<u32>>) -> Seq<Seq<u32>> {
    Seq::new(v.len(), |i: int| v[i]@)
}

/// A network's widths and weights, in the order of the manifest.
pub struct Net {
    pub arch: Arch,
    pub label: String,
    pub weights: Vec<Vec<u32>>,
}

fn find_note(meta: &Vec<(String, String)>, key: &str) -> (r: Option<usize>)
    ensures
        r is Some == place_of(note_views(meta@), key@, 0) is Some,
        r matches Some(i) ==> i < meta@.len() && place_of(
            note_views(meta@),
            key@,
            0,
        ) == Some(i as int),
{
    let ghost all = note_views(meta@);
    let want = joined(key, "");
    proof {
        reveal_strlit("");
        assert(key@ + ""@ =~= key@);
    }
    let mut i: usize = 0;
    while i < meta.len()
        invariant
            i <= meta@.len(),
            all == note_views(meta@),
            want@ == key@,
            place_of(all, key@, 0) == place_of(all, key@, i as int),
        decreases meta@.len() - i,
    {
        assert(all[i as int].0 == meta@[i as int].0@);
        if meta[i].0 == want {
            return Some(i);
        }
        i += 1;
    }
    None
}

fn number_noted(meta: &Vec<(String, String)>, key: &str, default: usize) -> (n: usize)
    ensures
        n == noted_number(note_views(meta@), key@, default),
{
    match find_note(meta, key) {
        Some(i) => {
            let cs = characters(meta[i].1.as_str());
            match parse_number(&cs, usize::MAX as u64) {
                Some(n) => n as usize,
                None => default,
            }
        },
        None => default,
    }
}

fn arch_noted(meta: &Vec<(String, String)>) -> (a: Arch)
    ensures
        a == noted_arch(note_views(meta@)),
{
    Arch {
        width: number_noted(meta, "width", 512),
        blocks: number_noted(meta, "blocks", 6),
        board: number_noted(meta, "board", 192),
        player: number_noted(meta, "player", 96),
        bslot: number_noted(meta, "bslot", 48),
        mslot: number_noted(meta, "mslot", 32),
        globals: number_noted(meta, "globals", 128),
        value_hidden: number_noted(meta, "value_hidden", 256),
        key: number_noted(meta, "key", 128),
    }
}

/// Whether two shapes are the same.
fn same_shape(a: &Vec<usize>, b: &Vec<usize>) -> (r: bool)
    ensures
        r == (a@ == b@),
{
    if a.len() != b.len() {
        return false;
    }
    let mut i: usize = 0;
    while i < a.len()
        invariant
            i <= a@.len(),
            a@.len() == b@.len(),
            forall|j: int| 0 <= j < i ==> a@[j] == b@[j],
        decreases a@.len() - i,
    {
        if a[i] != b[i] {
            return false;
        }
        i += 1;
    }
    assert(a@ =~= b@);
    true
}

/// Tensors not taken yet, and the data of those taken.
struct Draw {
    rest: Vec<(String, Tensor)>,
    got: Vec<Vec<u32>>,
}

impl Draw {
    spec fn named(&self) -> Named {
        tensor_views(self.rest@)
    }

    spec fn data(&self) -> Seq<Seq<u32>> {
        weight_views(self.got@)
    }

    /// Takes one tensor out, which must have a shape.
    fn take(&mut self, slot: &Slot) -> (r: Result<(), LoadError>)
        ensures
            match r {
                Ok(_) => forall|more: Seq<SlotShape>|
                    drawn(
                        final(self).named(),
                        more,
                        final(self).data(),
                    ) == #[trigger] drawn(old(self).named(), seq![slot@] + more, old(self).data()),
                Err(e) => forall|more: Seq<SlotShape>|
                    #[trigger] drawn(old(self).named(), seq![slot@] + more, old(self).data()) == Err::<
                        (Named, Seq<Seq<u32>>),
                        LoadFailure,
                    >(e@),
            },
    {
        let ghost ts = self.named();
        let ghost data = self.data();
        let n: usize = self.rest.len();
        let mut i: usize = 0;
        assert forall|more: Seq<SlotShape>| true implies (#[trigger] (seq![slot@] + more))[0] == slot@
            && (seq![slot@] + more).drop_first() == more && (seq![slot@] + more).len() > 0 by {
            assert((seq![slot@] + more).drop_first() =~= more);
        }
        while i < n && !(self.rest[i].0 == slot.name)
            invariant
                i <= n,
                n == self.rest@.len(),
                ts == tensor_views(self.rest@),
                *self == *old(self),
                place_of(ts, slot@.name, 0) == place_of(ts, slot@.name, i as int),
            decreases n - i,
        {
            assert(ts[i as int].0 == self.rest@[i as int].0@);
            i += 1;
        }
        if i == n {
            assert(place_of(ts, slot@.name, 0) is None);
            return Err(LoadError::Missing(slot.name.clone()));
        }
        assert(ts[i as int] == (self.rest@[i as int].0@, self.rest@[i as int].1@));
        assert(place_of(ts, slot@.name, 0) == Some(i as int));
        if !same_shape(&self.rest[i].1.shape, &slot.shape) {
            return Err(LoadError::Shape(slot.name.clone()));
        }
        let (_, t) = self.rest.remove(i);
        self.got.push(t.data);
        assert(self.named() =~= ts.remove(i as int));
        assert(self.data() =~= data.push(ts[i as int].1.data));
        Ok(())
    }

    /// Takes the listed tensors out.
    fn take_all(&mut self, slots: &Vec<Slot>) -> (r: Result<(), LoadError>)
        ensures
            match r {
                Ok(_) => forall|more: Seq<SlotShape>|
                    drawn(
                        final(self).named(),
                        more,
                        final(self).data(),
                    ) == #[trigger] drawn(
                        old(self).named(),
                        slot_views(slots@) + more,
                        old(self).data(),
                    ),
                Err(e) => forall|more: Seq<SlotShape>|
                    #[trigger] drawn(
                        old(self).named(),
                        slot_views(slots@) + more,
                        old(self).data(),
                    ) == Err::<(Named, Seq<Seq<u32>>), LoadFailure>(e@),
            },
    {
        let ghost all = slot_views(slots@);
        let ghost ts = self.named();
        let ghost data = self.data();
        let mut i: usize = 0;
        assert(all.skip(0) =~= all);
        while i < slots.len()
            invariant
                i <= slots@.len(),
                all == slot_views(slots@),
                ts == old(self).named(),
                data == old(self).data(),
                forall|more: Seq<SlotShape>|
                    drawn(self.named(), all.skip(i as int) + more, self.data()) == #[trigger] drawn(
                        ts,
                        all + more,
                        data,
                    ),
            decreases slots@.len() - i,
        {
            let ghost (t0, d0) = (self.named(), self.data());
            let r = self.take(&slots[i]);
            proof {
                assert forall|more: Seq<SlotShape>| true implies drawn(
                    t0,
                    seq![slots@[i as int]@] + (all.skip(i + 1) + more),
                    d0,
                ) == #[trigger] drawn(ts, all + more, data) by {
                    assert(seq![slots@[i as int]@] + (all.skip(i + 1) + more) =~= all.skip(i as int)
                        + more);
                }
            }
            match r {
                Ok(_) => {},
                Err(e) => {
                    return Err(e);
                },
            }
            i += 1;
        }
        proof {
            assert forall|more: Seq<SlotShape>| true implies drawn(self.named(), more, self.data())
                == #[trigger] drawn(ts, all + more, data) by {
                assert(all.skip(i as int) + more =~= more);
            }
        }
        Ok(())
    }
}

// ---- names ---------------------------------------------------------------

/// What tells the names outside the blocks apart: the length and two of the
/// letters.
spec fn name_code(s: Seq<char>) -> int {
    s.len() * 65536 + (s[5] as int) * 256 + s[7] as int
}

/// Which of the names outside the blocks has a code.
spec fn name_place(c: int) -> int {
    if c == 1139297 {
        0
    } else if c == 1008225 {
        1
    } else if c == 1208417 {
        2
    } else if c == 1077345 {
        3
    } else if c == 1139308 {
        4
    } else if c == 1008236 {
        5
    } else if c == 1142124 {
        6
    } else if c == 1011052 {
        7
    } else if c == 1206127 {
        8
    } else if c == 1075055 {
        9
    } else if c == 751465 {
        10
    } else if c == 615009 {
        11
    } else if c == 1076850 {
        12
    } else if c == 945778 {
        13
    } else if c == 1125999 {
        14
    } else if c == 994927 {
        15
    } else if c == 994915 {
        16
    } else if c == 863843 {
        17
    } else if c == 1060453 {
        18
    } else if c == 929381 {
        19
    } else if c == 1191523 {
        20
    } else if c == 1060451 {
        21
    } else if c == 1125985 {
        22
    } else if c == 994913 {
        23
    } else if c == 1257061 {
        24
    } else if c == 1125989 {
        25
    } else if c == 1145186 {
        26
    } else if c == 1014114 {
        27
    } else if c == 1210733 {
        28
    } else if c == 1079661 {
        29
    } else if c == 1276272 {
        30
    } else if c == 1145200 {
        31
    } else if c == 1538405 {
        32
    } else if c == 1407333 {
        33
    } else if c == 1145207 {
        34
    } else if c == 1014135 {
        35
    } else if c == 1138529 {
        36
    } else if c == 1007457 {
        37
    } else if c == 1138533 {
        38
    } else if c == 1007461 {
        39
    } else if c == 812396 {
        40
    } else if c == 816240 {
        41
    } else if c == 1008945 {
        42
    } else if c == 877873 {
        43
    } else if c == 1008946 {
        44
    } else if c == 877874 {
        45
    } else {
        -1
    }
}

/// Whether a name is not that of a tensor of a block.
spec fn fixed_name(s: Seq<char>) -> bool {
    s.len() >= 9 && (s[0] != 't' || s[6] == 'n')
}

proof fn lemma_front_names(a: Arch, g: Geometry)
    ensures
        front(a, g).len() == 14,
        forall|i: int|
            0 <= i < 14 ==> name_place(name_code((#[trigger] front(a, g)[i]).name)) == 0 + i
                && fixed_name(front(a, g)[i].name),
{
    reveal_strlit(".bias");
    reveal_strlit(".weight");
    reveal_strlit("fuse");
    reveal_strlit("fuse.norm");
    reveal_strlit("stem.board");
    reveal_strlit("stem.bslot");
    reveal_strlit("stem.global");
    reveal_strlit("stem.mslot");
    reveal_strlit("stem.player");
    let v = front(a, g);
    assert(v[0].name == "stem.board"@ + ".weight"@);
    assert(v[1].name == "stem.board"@ + ".bias"@);
    assert(v[2].name == "stem.player"@ + ".weight"@);
    assert(v[3].name == "stem.player"@ + ".bias"@);
    assert(v[4].name == "stem.bslot"@ + ".weight"@);
    assert(v[5].name == "stem.bslot"@ + ".bias"@);
    assert(v[6].name == "stem.mslot"@ + ".weight"@);
    assert(v[7].name == "stem.mslot"@ + ".bias"@);
    assert(v[8].name == "stem.global"@ + ".weight"@);
    assert(v[9].name == "stem.global"@ + ".bias"@);
    assert(v[10].name == "fuse"@ + ".weight"@);
    assert(v[11].name == "fuse"@ + ".bias"@);
    assert(v[12].name == "fuse.norm"@ + ".weight"@);
    assert(v[13].name == "fuse.norm"@ + ".bias"@);
    assert forall|i: int| 0 <= i < 14 implies name_place(name_code((#[trigger] v[i]).name)) == 0 + i
        && fixed_name(v[i].name) by {
        assert(name_code(v[0].name) == 1139297);
        assert(name_code(v[1].name) == 1008225);
        assert(name_code(v[2].name) == 1208417);
        assert(name_code(v[3].name) == 1077345);
        assert(name_code(v[4].name) == 1139308);
        assert(name_code(v[5].name) == 1008236);
        assert(name_code(v[6].name) == 1142124);
        assert(name_code(v[7].name) == 1011052);
        assert(name_code(v[8].name) == 1206127);
        assert(name_code(v[9].name) == 1075055);
        assert(name_code(v[10].name) == 751465);
        assert(name_code(v[11].name) == 615009);
        assert(name_code(v[12].name) == 1076850);
        assert(name_code(v[13].name) == 945778);
    }
}

proof fn lemma_value_names(a: Arch)
    ensures
        value_heads(a).len() == 12,
        forall|i: int|
            0 <= i < 12 ==> name_place(name_code((#[trigger] value_heads(a)[i]).name)) == 14 + i
                && fixed_name(value_heads(a)[i].name),
{
    reveal_strlit(".bias");
    reveal_strlit(".weight");
    reveal_strlit("trunk.norm");
    reveal_strlit("value.decomp");
    reveal_strlit("value.fc");
    reveal_strlit("value.rank");
    reveal_strlit("value.rel");
    reveal_strlit("value.score");
    let v = value_heads(a);
    assert(v[0].name == "trunk.norm"@ + ".weight"@);
    assert(v[1].name == "trunk.norm"@ + ".bias"@);
    assert(v[2].name == "value.fc"@ + ".weight"@);
    assert(v[3].name == "value.fc"@ + ".bias"@);
    assert(v[4].name == "value.rel"@ + ".weight"@);
    assert(v[5].name == "value.rel"@ + ".bias"@);
    assert(v[6].name == "value.score"@ + ".weight"@);
    assert(v[7].name == "value.score"@ + ".bias"@);
    assert(v[8].name == "value.rank"@ + ".weight"@);
    assert(v[9].name == "value.rank"@ + ".bias"@);
    assert(v[10].name == "value.decomp"@ + ".weight"@);
    assert(v[11].name == "value.decomp"@ + ".bias"@);
    assert forall|i: int| 0 <= i < 12 implies name_place(name_code((#[trigger] v[i]).name)) == 14 + i
        && fixed_name(v[i].name) by {
        assert(name_code(v[0].name) == 1125999);
        assert(name_code(v[1].name) == 994927);
        assert(name_code(v[2].name) == 994915);
        assert(name_code(v[3].name) == 863843);
        assert(name_code(v[4].name) == 1060453);
        assert(name_code(v[5].name) == 929381);
        assert(name_code(v[6].name) == 1191523);
        assert(name_code(v[7].name) == 1060451);
        assert(name_code(v[8].name) == 1125985);
        assert(name_code(v[9].name) == 994913);
        assert(name_code(v[10].name) == 1257061);
        assert(name_code(v[11].name) == 1125989);
    }
}

proof fn lemma_policy_names(a: Arch, g: Geometry)
    ensures
        policy_heads(a, g).len() == 10,
        forall|i: int|
            0 <= i < 10 ==> name_place(name_code((#[trigger] policy_heads(a, g)[i]).name)) == 26 + i
                && fixed_name(policy_heads(a, g)[i].name),
{
    reveal_strlit(".bias");
    reveal_strlit(".weight");
    reveal_strlit("policy.beg");
    reveal_strlit("policy.extra_day");
    reveal_strlit("policy.mode");
    reveal_strlit("policy.place");
    reveal_strlit("policy.who");
    let v = policy_heads(a, g);
    assert(v[0].name == "policy.beg"@ + ".weight"@);
    assert(v[1].name == "policy.beg"@ + ".bias"@);
    assert(v[2].name == "policy.mode"@ + ".weight"@);
    assert(v[3].name == "policy.mode"@ + ".bias"@);
    assert(v[4].name == "policy.place"@ + ".weight"@);
    assert(v[5].name == "policy.place"@ + ".bias"@);
    assert(v[6].name == "policy.extra_day"@ + ".weight"@);
    assert(v[7].name == "policy.extra_day"@ + ".bias"@);
    assert(v[8].name == "policy.who"@ + ".weight"@);
    assert(v[9].name == "policy.who"@ + ".bias"@);
    assert forall|i: int| 0 <= i < 10 implies name_place(name_code((#[trigger] v[i]).name)) == 26 + i
        && fixed_name(v[i].name) by {
        assert(name_code(v[0].name) == 1145186);
        assert(name_code(v[1].name) == 1014114);
        assert(name_code(v[2].name) == 1210733);
        assert(name_code(v[3].name) == 1079661);
        assert(name_code(v[4].name) == 1276272);
        assert(name_code(v[5].name) == 1145200);
        assert(name_code(v[6].name) == 1538405);
        assert(name_code(v[7].name) == 1407333);
        assert(name_code(v[8].name) == 1145207);
        assert(name_code(v[9].name) == 1014135);
    }
}

proof fn lemma_pointer_names(a: Arch, g: Geometry)
    ensures
        pointer_head(a, g).len() == 10,
        forall|i: int|
            0 <= i < 10 ==> name_place(name_code((#[trigger] pointer_head(a, g)[i]).name)) == 36 + i
                && fixed_name(pointer_head(a, g)[i].name),
{
    reveal_strlit(".bias");
    reveal_strlit(".weight");
    reveal_strlit("ptr.cell_emb");
    reveal_strlit("ptr.key1");
    reveal_strlit("ptr.key2");
    reveal_strlit("ptr.q_deep");
    reveal_strlit("ptr.q_fast");
    reveal_strlit("ptr.step_emb");
    let v = pointer_head(a, g);
    assert(v[0].name == "ptr.q_fast"@ + ".weight"@);
    assert(v[1].name == "ptr.q_fast"@ + ".bias"@);
    assert(v[2].name == "ptr.q_deep"@ + ".weight"@);
    assert(v[3].name == "ptr.q_deep"@ + ".bias"@);
    assert(v[4].name == "ptr.cell_emb"@);
    assert(v[5].name == "ptr.step_emb"@);
    assert(v[6].name == "ptr.key1"@ + ".weight"@);
    assert(v[7].name == "ptr.key1"@ + ".bias"@);
    assert(v[8].name == "ptr.key2"@ + ".weight"@);
    assert(v[9].name == "ptr.key2"@ + ".bias"@);
    assert forall|i: int| 0 <= i < 10 implies name_place(name_code((#[trigger] v[i]).name)) == 36 + i
        && fixed_name(v[i].name) by {
        assert(name_code(v[0].name) == 1138529);
        assert(name_code(v[1].name) == 1007457);
        assert(name_code(v[2].name) == 1138533);
        assert(name_code(v[3].name) == 1007461);
        assert(name_code(v[4].name) == 812396);
        assert(name_code(v[5].name) == 816240);
        assert(name_code(v[6].name) == 1008945);
        assert(name_code(v[7].name) == 877873);
        assert(name_code(v[8].name) == 1008946);
        assert(name_code(v[9].name) == 877874);
    }
}

/// Which tensor of a block has a name that ends so behind the block's number.
spec fn suffix_place(s: Seq<char>) -> int {
    if s.len() == 13 {
        if s[5] == '1' {
            0
        } else {
            3
        }
    } else if s[1] == 'n' {
        if s[5] == '1' {
            1
        } else {
            4
        }
    } else if s[3] == '1' {
        2
    } else {
        5
    }
}

/// How the name of a tensor of a block ends behind the block's number.
spec fn block_suffix(k: int) -> Seq<char> {
    if k == 0 {
        ".norm1"@ + ".weight"@
    } else if k == 1 {
        ".norm1"@ + ".bias"@
    } else if k == 2 {
        ".fc1.weight"@
    } else if k == 3 {
        ".norm2"@ + ".weight"@
    } else if k == 4 {
        ".norm2"@ + ".bias"@
    } else {
        ".fc2.weight"@
    }
}

proof fn lemma_suffix(k: int)
    requires
        0 <= k < 6,
    ensures
        suffix_place(block_suffix(k)) == k,
        block_suffix(k).len() >= 11,
        block_suffix(k)[0] == '.',
{
    reveal_strlit(".norm1");
    reveal_strlit(".norm2");
    reveal_strlit(".fc1.weight");
    reveal_strlit(".fc2.weight");
    reveal_strlit(".weight");
    reveal_strlit(".bias");
}

proof fn lemma_block_names(i: nat, w: usize, k: int)
    requires
        0 <= k < 6,
    ensures
        block(i, w).len() == 6,
        block(i, w)[k].name == block_name(i) + block_suffix(k),
{
    let b = block_name(i);
    assert((b + ".norm1"@) + ".weight"@ =~= b + (".norm1"@ + ".weight"@));
    assert((b + ".norm1"@) + ".bias"@ =~= b + (".norm1"@ + ".bias"@));
    assert((b + ".norm2"@) + ".weight"@ =~= b + (".norm2"@ + ".weight"@));
    assert((b + ".norm2"@) + ".bias"@ =~= b + (".norm2"@ + ".bias"@));
}

/// The place a name has in the manifest of a network with so many blocks.
spec fn slot_place(s: Seq<char>, n: int) -> int {
    if fixed_name(s) {
        let p = name_place(name_code(s));
        if p < 14 {
            p
        } else {
            p + 6 * n
        }
    } else {
        let at = first_at(s, '.', 6);
        14 + 6 * spelled(s.subrange(6, at)) + suffix_place(s.skip(at))
    }
}

proof fn lemma_first_found(s: Seq<char>, c: char, i: int, at: int)
    requires
        0 <= i <= at < s.len(),
        s[at] == c,
        forall|j: int| i <= j < at ==> s[j] != c,
    ensures
        first_at(s, c, i) == at,
    decreases at - i,
{
    if i < at {
        lemma_first_found(s, c, i + 1, at);
    }
}

proof fn lemma_block_place(i: nat, k: int, n: int)
    requires
        0 <= k < 6,
    ensures
        slot_place(block_name(i) + block_suffix(k), n) == 14 + 6 * i + k,
{
    let d = digits(i);
    let t = block_suffix(k);
    let s = block_name(i) + t;
    reveal_strlit("trunk.");
    lemma_suffix(k);
    numbers_read_back(i, i);
    let at = 6 + d.len() as int;
    assert(s[at] == t[0]);
    assert forall|j: int| 6 <= j < at implies s[j] != '.' by {
        assert(s[j] == d[j - 6]);
        assert(is_digit(d[j - 6]));
    }
    lemma_first_found(s, '.', 6, at);
    assert(s.subrange(6, at) =~= d);
    assert(s.skip(at) =~= t);
    assert(s[6] == d[0]);
    assert(is_digit(d[0]));
    assert(s[0] == 't');
}

proof fn lemma_blocks_at(from: nat, n: nat, w: usize, j: int)
    requires
        from <= n,
        0 <= j < 6 * (n - from),
    ensures
        blocks(from, n, w).len() == 6 * (n - from),
        blocks(from, n, w)[j] == block((from + j / 6) as nat, w)[j % 6],
    decreases n - from,
{
    lemma_block_names(from, w, 0);
    if j < 6 {
        lemma_blocks_len(from + 1, n, w);
    } else {
        lemma_blocks_at(from + 1, n, w, j - 6);
        assert(from + 1 + (j - 6) / 6 == from + j / 6);
        assert((j - 6) % 6 == j % 6);
    }
}

proof fn lemma_blocks_len(from: nat, n: nat, w: usize)
    requires
        from <= n,
    ensures
        blocks(from, n, w).len() == 6 * (n - from),
    decreases n - from,
{
    if from < n {
        lemma_block_names(from, w, 0);
        lemma_blocks_len(from + 1, n, w);
    }
}

proof fn lemma_slot_place(a: Arch, g: Geometry, j: int)
    requires
        0 <= j < manifest(a, g).len(),
    ensures
        slot_place(manifest(a, g)[j].name, a.blocks as int) == j,
        manifest(a, g).len() == 46 + 6 * a.blocks,
{
    let n = a.blocks as nat;
    lemma_front_names(a, g);
    lemma_value_names(a);
    lemma_policy_names(a, g);
    lemma_pointer_names(a, g);
    lemma_blocks_len(0, n, a.width);
    let m = manifest(a, g);
    if j < 14 {
        assert(m[j] == front(a, g)[j]);
    } else if j < 14 + 6 * n {
        let k = j - 14;
        lemma_blocks_at(0, n, a.width, k);
        assert(m[j] == blocks(0, n, a.width)[k]);
        lemma_block_names((k / 6) as nat, a.width, k % 6);
        lemma_block_place((k / 6) as nat, k % 6, n as int);
    } else {
        let k = j - 14 - 6 * n;
        assert(m[j] == back(a, g)[k]);
        if k < 12 {
            assert(m[j] == value_heads(a)[k]);
        } else if k < 22 {
            assert(m[j] == policy_heads(a, g)[k - 12]);
        } else {
            assert(m[j] == pointer_head(a, g)[k - 22]);
        }
    }
}

/// No tensor of a checkpoint is called as the notes are.
proof fn lemma_not_the_notes(a: Arch, g: Geometry, j: int)
    requires
        0 <= j < manifest(a, g).len(),
    ensures
        manifest(a, g)[j].name != "__metadata__"@,
{
    let n = a.blocks as nat;
    let m = manifest(a, g);
    reveal_strlit("__metadata__");
    assert(name_place(name_code("__metadata__"@)) == -1);
    lemma_front_names(a, g);
    lemma_value_names(a);
    lemma_policy_names(a, g);
    lemma_pointer_names(a, g);
    lemma_blocks_len(0, n, a.width);
    if j < 14 {
        assert(m[j] == front(a, g)[j]);
    } else if j < 14 + 6 * n {
        let k = j - 14;
        lemma_blocks_at(0, n, a.width, k);
        assert(m[j] == blocks(0, n, a.width)[k]);
        lemma_block_names((k / 6) as nat, a.width, k % 6);
        reveal_strlit("trunk.");
        assert(m[j].name[0] == 't');
    } else {
        let k = j - 14 - 6 * n;
        assert(m[j] == back(a, g)[k]);
        if k < 12 {
            assert(m[j] == value_heads(a)[k]);
        } else if k < 22 {
            assert(m[j] == policy_heads(a, g)[k - 12]);
        } else {
            assert(m[j] == pointer_head(a, g)[k - 22]);
        }
    }
}

/// A network's checkpoint reads back from its bytes: every tensor has the shape of
/// its data, and none is called as the notes are.
pub proof fn saved_networks_are_sound(c: Contents, a: Arch, w: Seq<Seq<u32>>, g: Geometry)
    requires
        w.len() == manifest(a, g).len(),
        forall|i: int|
            0 <= i < w.len() ==> (#[trigger] w[i]).len() == volume(manifest(a, g)[i].shape),
        saves_tensors(c.tensors, a, w, g),
    ensures
        sound(c),
{
    assert forall|i: int| 0 <= i < c.tensors.len() implies volume((#[trigger] c.tensors[i]).1.shape)
        == c.tensors[i].1.data.len() && c.tensors[i].0 != "__metadata__"@ by {
        assert(is_saved(c.tensors[i], a, w, g, 0, w.len() as int));
        let j = choose|j: int| 0 <= j < w.len() && c.tensors[i] == #[trigger] saved_tensor(a, w, g, j);
        assert(w[j].len() == volume(manifest(a, g)[j].shape));
        lemma_not_the_notes(a, g, j);
    }
}

/// No two tensors of a checkpoint have the same name.
pub proof fn tensor_names_differ(a: Arch, g: Geometry, i: int, j: int)
    requires
        0 <= i < manifest(a, g).len(),
        0 <= j < manifest(a, g).len(),
        manifest(a, g)[i].name == manifest(a, g)[j].name,
    ensures
        i == j,
{
    lemma_slot_place(a, g, i);
    lemma_slot_place(a, g, j);
}

impl Net {
    /// The network a checkpoint holds: every tensor of the manifest under its
    /// name and with its exact shape, and none besides.
    pub fn from_bundle(b: Bundle, label: &str, g: Geometry) -> (r: Result<Net, LoadError>)
        ensures
            match (r, loaded(b@, g)) {
                (Ok(net), Ok((a, w))) => net.arch == a && weight_views(net.weights@) == w
                    && net.label@ == label@,
                (Err(e), Err(f)) => e@ == f,
                _ => false,
            },
    {
        let ghost c = b@;
        match find_note(&b.meta, "format") {
            Some(i) => {
                let want = joined("tzolkin-net", "");
                proof {
                    reveal_strlit("");
                    assert("tzolkin-net"@ + ""@ =~= "tzolkin-net"@);
                }
                if !(b.meta[i].1 == want) {
                    return Err(LoadError::Format(b.meta[i].1.clone()));
                }
            },
            None => {},
        }
        let v: u32 = (number_noted(&b.meta, "format_version", 1) as u64 % 0x1_0000_0000) as u32;
        if v > FORMAT_VERSION {
            return Err(LoadError::Newer(v));
        }
        match misfit(&b.meta, "d_in", g.d_in) {
            Some(e) => {
                return Err(e);
            },
            None => {},
        }
        match misfit(&b.meta, "d_choice", g.d_choice) {
            Some(e) => {
                return Err(e);
            },
            None => {},
        }
        match misfit(&b.meta, "n_who", g.n_who) {
            Some(e) => {
                return Err(e);
            },
            None => {},
        }
        let a = arch_noted(&b.meta);
        let mut d = Draw { rest: b.tensors, got: Vec::new() };
        assert(d.data() =~= Seq::empty());
        assert(d.named() == c.tensors);
        let ghost n = a.blocks as nat;
        let ghost tail = back(a, g);
        let ghost whole = drawn(c.tensors, manifest(a, g), Seq::empty());
        let mut slots: Vec<Slot> = Vec::new();
        assert(slot_views(slots@) =~= Seq::empty());
        push_front(&mut slots, &a, &g);
        assert(slot_views(slots@) =~= front(a, g));
        match d.take_all(&slots) {
            Ok(_) => {},
            Err(e) => {
                return Err(e);
            },
        }
        let mut i: usize = 0;
        while i < a.blocks
            invariant
                i <= a.blocks,
                n == a.blocks,
                c == b@,
                tail == back(a, g),
                whole == drawn(d.named(), blocks(i as nat, n, a.width) + tail, d.data()),
                loaded(c, g) == match whole {
                    Err(e) => Err(e),
                    Ok((rest, got)) => if rest.len() > 0 {
                        Err(LoadFailure::Extra(rest[0].0))
                    } else {
                        Ok((a, got))
                    },
                },
            decreases a.blocks - i,
        {
            let mut one: Vec<Slot> = Vec::new();
            assert(slot_views(one@) =~= Seq::empty());
            push_block(&mut one, i, a.width);
            assert(slot_views(one@) =~= block(i as nat, a.width));
            assert(blocks(i as nat, n, a.width) + tail =~= slot_views(one@) + (blocks(
                (i + 1) as nat,
                n,
                a.width,
            ) + tail));
            match d.take_all(&one) {
                Ok(_) => {},
                Err(e) => {
                    return Err(e);
                },
            }
            i += 1;
        }
        assert(blocks(i as nat, n, a.width) + tail =~= tail);
        let mut end: Vec<Slot> = Vec::new();
        assert(slot_views(end@) =~= Seq::empty());
        push_back(&mut end, &a, &g);
        assert(slot_views(end@) =~= tail);
        assert(tail + Seq::<SlotShape>::empty() =~= tail);
        match d.take_all(&end) {
            Ok(_) => {},
            Err(e) => {
                return Err(e);
            },
        }
        assert(whole == Ok::<(Named, Seq<Seq<u32>>), LoadFailure>((d.named(), d.data())));
        if d.rest.len() > 0 {
            assert(d.named()[0].0 == d.rest@[0].0@);
            return Err(LoadError::Extra(d.rest[0].0.clone()));
        }
        let l = joined(label, "");
        proof {
            reveal_strlit("");
            assert(label@ + ""@ =~= label@);
        }
        Ok(Net { arch: a, label: l, weights: d.got })
    }
}

fn misfit(meta: &Vec<(String, String)>, key: &str, want: usize) -> (r: Option<LoadError>)
    ensures
        r is Some == misfits(note_views(meta@), key@, want),
        r matches Some(e) ==> e@ == LoadFailure::Geometry(
            key@,
            noted_number(note_views(meta@), key@, 0),
        ),
{
    match find_note(meta, key) {
        None => None,
        Some(_) => {
            let got: usize = number_noted(meta, key, 0);
            if got != want {
                let k = joined(key, "");
                proof {
                    reveal_strlit("");
                    assert(key@ + ""@ =~= key@);
                }
                Some(LoadError::Geometry(k, got))
            } else {
                None
            }
        },
    }
}

// ---- saving --------------------------------------------------------------

/// The notes of a saved network, by key.
pub open spec fn saved_notes(a: Arch, label: Seq<char>, g: Geometry, rules_version: u32) -> Seq<
    (Seq<char>, Seq<char>),
> {
    seq![
        ("blocks"@, digits(a.blocks as nat)),
        ("board"@, digits(a.board as nat)),
        ("bslot"@, digits(a.bslot as nat)),
        ("d_choice"@, digits(g.d_choice as nat)),
        ("d_in"@, digits(g.d_in as nat)),
        ("format"@, "tzolkin-net"@),
        ("format_version"@, digits(FORMAT_VERSION as nat)),
        ("globals"@, digits(a.globals as nat)),
        ("key"@, digits(a.key as nat)),
        ("label"@, label),
        ("mslot"@, digits(a.mslot as nat)),
        ("n_who"@, digits(g.n_who as nat)),
        ("player"@, digits(a.player as nat)),
        ("rules_version"@, digits(rules_version as nat)),
        ("value_hidden"@, digits(a.value_hidden as nat)),
        ("width"@, digits(a.width as nat)),
    ]
}

/// A tensor of a saved network.
pub open spec fn saved_tensor(a: Arch, w: Seq<Seq<u32>>, g: Geometry, j: int) -> (
    Seq<char>,
    TensorShape,
) {
    (manifest(a, g)[j].name, TensorShape { shape: manifest(a, g)[j].shape, data: w[j] })
}

/// Whether a tensor is one of those of a network, from one place of the manifest
/// up to another.
pub open spec fn is_saved(
    e: (Seq<char>, TensorShape),
    a: Arch,
    w: Seq<Seq<u32>>,
    g: Geometry,
    from: int,
    to: int,
) -> bool {
    exists|j: int| from <= j < to && e == #[trigger] saved_tensor(a, w, g, j)
}

/// Whether a checkpoint's tensors are those of a network, each once, by name.
pub open spec fn saves_tensors(ts: Named, a: Arch, w: Seq<Seq<u32>>, g: Geometry) -> bool {
    &&& names_ascend(ts)
    &&& forall|j: int| 0 <= j < w.len() ==> ts.contains(#[trigger] saved_tensor(a, w, g, j))
    &&& forall|i: int|
        0 <= i < ts.len() ==> is_saved(#[trigger] ts[i], a, w, g, 0, w.len() as int)
}

proof fn lemma_sorts_shorter(a: Seq<char>, b: Seq<char>)
    requires
        a.len() < b.len(),
        forall|j: int| 0 <= j < a.len() ==> a[j] == b[j],
    ensures
        sorts_before(a, b),
{
    let (p, q) = (code_points(a), code_points(b));
    assert forall|j: int| 0 <= j < a.len() implies p[j] == q[j] by {
        assert(a[j] == b[j]);
    }
    lemma_words_skip(p, q, a.len() as int);
    assert(p.skip(a.len() as int) =~= Seq::empty());
    assert(q.skip(a.len() as int).len() > 0);
}

proof fn lemma_chain(v: Seq<(Seq<char>, Seq<char>)>, i: int, j: int)
    requires
        0 <= i < j < v.len(),
        forall|k: int| 0 <= k < v.len() - 1 ==> sorts_before((#[trigger] v[k]).0, v[k + 1].0),
    ensures
        sorts_before(v[i].0, v[j].0),
    decreases j - i,
{
    if j == i + 1 {
        assert(sorts_before(v[i].0, v[i + 1].0));
    } else {
        lemma_chain(v, i, j - 1);
        assert(sorts_before(v[j - 1].0, v[j - 1 + 1].0));
        lemma_words_trans(code_points(v[i].0), code_points(v[j - 1].0), code_points(v[j].0));
    }
}

/// The notes of a saved network stand in the order of their keys.
proof fn lemma_notes_ordered(a: Arch, label: Seq<char>, g: Geometry, rules_version: u32)
    ensures
        names_ascend(saved_notes(a, label, g, rules_version)),
{
    let m = saved_notes(a, label, g, rules_version);
    reveal_strlit("blocks");
    reveal_strlit("board");
    reveal_strlit("bslot");
    reveal_strlit("d_choice");
    reveal_strlit("d_in");
    reveal_strlit("format");
    reveal_strlit("format_version");
    reveal_strlit("globals");
    reveal_strlit("key");
    reveal_strlit("label");
    reveal_strlit("mslot");
    reveal_strlit("n_who");
    reveal_strlit("player");
    reveal_strlit("rules_version");
    reveal_strlit("value_hidden");
    reveal_strlit("width");
    lemma_sorts_at("blocks"@, "board"@, 1);
    lemma_sorts_at("board"@, "bslot"@, 1);
    lemma_sorts_at("bslot"@, "d_choice"@, 0);
    lemma_sorts_at("d_choice"@, "d_in"@, 2);
    lemma_sorts_at("d_in"@, "format"@, 0);
    lemma_sorts_shorter("format"@, "format_version"@);
    lemma_sorts_at("format_version"@, "globals"@, 0);
    lemma_sorts_at("globals"@, "key"@, 0);
    lemma_sorts_at("key"@, "label"@, 0);
    lemma_sorts_at("label"@, "mslot"@, 0);
    lemma_sorts_at("mslot"@, "n_who"@, 0);
    lemma_sorts_at("n_who"@, "player"@, 0);
    lemma_sorts_at("player"@, "rules_version"@, 0);
    lemma_sorts_at("rules_version"@, "value_hidden"@, 0);
    lemma_sorts_at("value_hidden"@, "width"@, 0);
    assert forall|k: int| 0 <= k < m.len() - 1 implies sorts_before(
        (#[trigger] m[k]).0,
        m[k + 1].0,
    ) by {}
    assert forall|i: int, j: int| 0 <= i < j < m.len() implies sorts_before(
        (#[trigger] m[i]).0,
        (#[trigger] m[j]).0,
    ) by {
        lemma_chain(m, i, j);
    }
}

/// Among names that ascend, a name is found where it stands.
proof fn lemma_found<T>(v: Seq<(Seq<char>, T)>, i: int, from: int)
    requires
        names_ascend(v),
        0 <= from <= i < v.len(),
    ensures
        place_of(v, v[i].0, from) == Some(i),
    decreases i - from,
{
    if from < i {
        assert(sorts_before(v[from].0, v[i].0));
        lemma_words_total(code_points(v[i].0), code_points(v[i].0));
        lemma_found(v, i, from + 1);
    }
}

fn push_note(meta: &mut Vec<(String, String)>, key: &str, value: String)
    ensures
        note_views(final(meta)@) == note_views(old(meta)@).push((key@, value@)),
{
    let k = joined(key, "");
    proof {
        reveal_strlit("");
        assert(key@ + ""@ =~= key@);
    }
    meta.push((k, value));
    assert(note_views(meta@) =~= note_views(old(meta)@).push((key@, value@)));
}

/// Puts a tensor where its name falls among others in the order of their names.
fn put(v: &mut Vec<(String, Tensor)>, name: String, t: Tensor)
    requires
        names_ascend(tensor_views(old(v)@)),
        forall|i: int| 0 <= i < old(v)@.len() ==> (#[trigger] old(v)@[i]).0@ != name@,
    ensures
        names_ascend(tensor_views(final(v)@)),
        exists|m: int|
            0 <= m <= old(v)@.len() && tensor_views(final(v)@) == #[trigger] tensor_views(
                old(v)@,
            ).insert(m, (name@, t@)),
{
    let ghost was = tensor_views(v@);
    let ghost key = name@;
    let words = text_words(name.as_str());
    let mut m: usize = 0;
    let mut going = true;
    while going
        invariant
            m <= v@.len(),
            *v == *old(v),
            was == tensor_views(v@),
            words.0@ == code_points(key),
            forall|j: int| 0 <= j < m ==> sorts_before((#[trigger] was[j]).0, key),
            going || m == v@.len() || !sorts_before(was[m as int].0, key),
        decreases v@.len() - m + if going {
            1int
        } else {
            0
        },
    {
        if m < v.len() {
            assert(was[m as int].0 == v@[m as int].0@);
            let w = text_words(v[m].0.as_str());
            if w.less(&words) {
                m += 1;
            } else {
                going = false;
            }
        } else {
            going = false;
        }
    }
    proof {
        assert forall|j: int| m <= j < was.len() implies sorts_before(key, (#[trigger] was[j]).0) by {
            let at = m as int;
            assert(was[at].0 == v@[at].0@);
            lemma_words_total(code_points(was[at].0), code_points(key));
            if !sorts_before(key, was[at].0) {
                lemma_code_points(was[at].0, key);
            }
            if j > at {
                assert(sorts_before(was[at].0, was[j].0));
                lemma_words_trans(code_points(key), code_points(was[at].0), code_points(was[j].0));
            }
        }
    }
    v.insert(m, (name, t));
    proof {
        let ev = tensor_views(v@);
        assert(ev =~= was.insert(m as int, (key, t@)));
        assert forall|a: int, b: int| 0 <= a < b < ev.len() implies sorts_before(
            (#[trigger] ev[a]).0,
            (#[trigger] ev[b]).0,
        ) by {
            let (x, y) = (
                if a < m {
                    a
                } else {
                    a - 1
                },
                if b < m {
                    b
                } else {
                    b - 1
                },
            );
            if a == m {
                assert(sorts_before(key, was[y].0));
            } else if b == m {
                assert(sorts_before(was[x].0, key));
            } else {
                assert(sorts_before(was[x].0, was[y].0));
            }
        }
    }
}

fn copy_words(v: &Vec<u32>) -> (w: Vec<u32>)
    ensures
        w@ == v@,
{
    let mut w: Vec<u32> = Vec::new();
    let mut i: usize = 0;
    while i < v.len()
        invariant
            i <= v@.len(),
            w@ == v@.take(i as int),
        decreases v@.len() - i,
    {
        w.push(v[i]);
        i += 1;
        assert(w@ =~= v@.take(i as int));
    }
    assert(w@ =~= v@);
    w
}

fn copy_shape(v: &Vec<usize>) -> (w: Vec<usize>)
    ensures
        w@ == v@,
{
    let mut w: Vec<usize> = Vec::new();
    let mut i: usize = 0;
    while i < v.len()
        invariant
            i <= v@.len(),
            w@ == v@.take(i as int),
        decreases v@.len() - i,
    {
        w.push(v[i]);
        i += 1;
        assert(w@ =~= v@.take(i as int));
    }
    assert(w@ =~= v@);
    w
}

impl Net {
    /// Whether the weights are those of the manifest, in number and in size.
    pub open spec fn fits(&self, g: Geometry) -> bool {
        let m = manifest(self.arch, g);
        &&& self.weights@.len() == m.len()
        &&& forall|i: int| 0 <= i < m.len() ==> (#[trigger] self.weights@[i])@.len() == volume(m[i].shape)
    }

    /// The checkpoint that holds the network.
    pub fn bundle(&self, g: Geometry, rules_version: u32) -> (b: Bundle)
        requires
            self.fits(g),
        ensures
            b.ordered(),
            sound(b@),
            b@.meta == saved_notes(self.arch, self.label@, g, rules_version),
            saves_tensors(b@.tensors, self.arch, weight_views(self.weights@), g),
    {
        let a = self.arch;
        let slots = tensor_manifest(a, g);
        let ghost m = manifest(a, g);
        let ghost w = weight_views(self.weights@);
        let mut tensors: Vec<(String, Tensor)> = Vec::new();
        let mut i: usize = 0;
        while i < slots.len()
            invariant
                i <= slots@.len(),
                slot_views(slots@) == m,
                m == manifest(a, g),
                w == weight_views(self.weights@),
                self.weights@.len() == m.len(),
                names_ascend(tensor_views(tensors@)),
                forall|j: int|
                    0 <= j < i ==> tensor_views(tensors@).contains(
                        #[trigger] saved_tensor(a, w, g, j),
                    ),
                forall|k: int|
                    0 <= k < tensors@.len() ==> is_saved(
                        #[trigger] tensor_views(tensors@)[k],
                        a,
                        w,
                        g,
                        0,
                        i as int,
                    ),
            decreases slots@.len() - i,
        {
            let ghost was = tensor_views(tensors@);
            assert(m[i as int] == slots@[i as int]@);
            let name = slots[i].name.clone();
            let t = Tensor {
                shape: copy_shape(&slots[i].shape),
                data: copy_words(&self.weights[i]),
            };
            let ghost e = (name@, t@);
            assert(e == saved_tensor(a, w, g, i as int));
            assert forall|k: int| 0 <= k < tensors@.len() implies (#[trigger] tensors@[k]).0@
                != name@ by {
                assert(is_saved(was[k], a, w, g, 0, i as int));
                let j = choose|j: int| 0 <= j < i && was[k] == #[trigger] saved_tensor(a, w, g, j);
                assert(was[k].0 == tensors@[k].0@);
                if tensors@[k].0@ == name@ {
                    tensor_names_differ(a, g, i as int, j);
                }
            }
            put(&mut tensors, name, t);
            proof {
                let now = tensor_views(tensors@);
                let p = choose|p: int| 0 <= p <= was.len() && now == #[trigger] was.insert(p, e);
                assert(now[p] == e);
                assert forall|j: int| 0 <= j < i + 1 implies now.contains(
                    #[trigger] saved_tensor(a, w, g, j),
                ) by {
                    if j < i {
                        let x = saved_tensor(a, w, g, j);
                        assert(was.contains(x));
                        let k = choose|k: int| 0 <= k < was.len() && was[k] == x;
                        if k < p {
                            assert(now[k] == x);
                        } else {
                            assert(now[k + 1] == x);
                        }
                    }
                }
                assert forall|k: int| 0 <= k < now.len() implies is_saved(
                    #[trigger] now[k],
                    a,
                    w,
                    g,
                    0,
                    i + 1,
                ) by {
                    if k == p {
                        assert(now[k] == saved_tensor(a, w, g, i as int));
                    } else {
                        let o = if k < p {
                            k
                        } else {
                            k - 1
                        };
                        assert(now[k] == was[o]);
                        assert(is_saved(was[o], a, w, g, 0, i as int));
                        let j = choose|j: int|
                            0 <= j < i && was[o] == #[trigger] saved_tensor(a, w, g, j);
                        assert(now[k] == saved_tensor(a, w, g, j));
                    }
                }
            }
            i += 1;
        }
        proof {
            assert(slot_views(slots@).len() == slots@.len());
            assert(w.len() == m.len() && i == m.len());
            assert(tensor_views(tensors@).len() == tensors@.len());
            assert(saves_tensors(tensor_views(tensors@), a, w, g));
        }
        let mut meta: Vec<(String, String)> = Vec::new();
        proof {
            reveal_strlit("");
            assert("tzolkin-net"@ + ""@ =~= "tzolkin-net"@);
        }
        push_note(&mut meta, "blocks", number(a.blocks as u64));
        push_note(&mut meta, "board", number(a.board as u64));
        push_note(&mut meta, "bslot", number(a.bslot as u64));
        push_note(&mut meta, "d_choice", number(g.d_choice as u64));
        push_note(&mut meta, "d_in", number(g.d_in as u64));
        push_note(&mut meta, "format", joined("tzolkin-net", ""));
        push_note(&mut meta, "format_version", number(FORMAT_VERSION as u64));
        push_note(&mut meta, "globals", number(a.globals as u64));
        push_note(&mut meta, "key", number(a.key as u64));
        push_note(&mut meta, "label", self.label.clone());
        push_note(&mut meta, "mslot", number(a.mslot as u64));
        push_note(&mut meta, "n_who", number(g.n_who as u64));
        push_note(&mut meta, "player", number(a.player as u64));
        push_note(&mut meta, "rules_version", number(rules_version as u64));
        push_note(&mut meta, "value_hidden", number(a.value_hidden as u64));
        push_note(&mut meta, "width", number(a.width as u64));
        assert(note_views(meta@) =~= saved_notes(a, self.label@, g, rules_version));
        proof {
            lemma_notes_ordered(a, self.label@, g, rules_version);
            let c = Contents { tensors: tensor_views(tensors@), meta: note_views(meta@) };
            assert forall|i: int| 0 <= i < w.len() implies (#[trigger] w[i]).len() == volume(
                m[i].shape,
            ) by {
                assert(self.weights@[i]@.len() == volume(m[i].shape));
            }
            saved_networks_are_sound(c, a, w, g);
        }
        Bundle { tensors, meta }
    }
}

// ---- laws ----------------------------------------------------------------

/// Tensors taken in the order of the manifest out of those of a network give its
/// weights, and nothing is left.
proof fn lemma_drawn_back(
    ts: Named,
    a: Arch,
    w: Seq<Seq<u32>>,
    g: Geometry,
    i: int,
)
    requires
        w.len() == manifest(a, g).len(),
        0 <= i <= w.len(),
        names_ascend(ts),
        forall|j: int| i <= j < w.len() ==> ts.contains(#[trigger] saved_tensor(a, w, g, j)),
        forall|k: int|
            0 <= k < ts.len() ==> is_saved(#[trigger] ts[k], a, w, g, i, w.len() as int),
    ensures
        drawn(ts, manifest(a, g).skip(i), w.take(i)) == Ok::<(Named, Seq<Seq<u32>>), LoadFailure>(
            (Seq::empty(), w),
        ),
    decreases w.len() - i,
{
    let m = manifest(a, g);
    if i == w.len() {
        assert(w.take(i) =~= w);
        assert(ts.len() > 0 ==> is_saved(ts[0], a, w, g, i, w.len() as int));
        assert(ts =~= Seq::empty());
    } else {
        let e = saved_tensor(a, w, g, i);
        assert(ts.contains(e));
        let p = choose|p: int| 0 <= p < ts.len() && ts[p] == e;
        lemma_found(ts, p, 0);
        let rest = ts.remove(p);
        assert(m.skip(i)[0] == m[i]);
        assert(m.skip(i).drop_first() =~= m.skip(i + 1));
        assert(w.take(i).push(w[i]) =~= w.take(i + 1));
        assert forall|x: int, y: int| 0 <= x < y < rest.len() implies sorts_before(
            (#[trigger] rest[x]).0,
            (#[trigger] rest[y]).0,
        ) by {
            let (x1, y1) = (
                if x < p {
                    x
                } else {
                    x + 1
                },
                if y < p {
                    y
                } else {
                    y + 1
                },
            );
            assert(rest[x] == ts[x1] && rest[y] == ts[y1]);
        }
        assert forall|j: int| i + 1 <= j < w.len() implies rest.contains(
            #[trigger] saved_tensor(a, w, g, j),
        ) by {
            let x = saved_tensor(a, w, g, j);
            assert(ts.contains(x));
            let k = choose|k: int| 0 <= k < ts.len() && ts[k] == x;
            if k == p {
                tensor_names_differ(a, g, i, j);
            } else if k < p {
                assert(rest[k] == x);
            } else {
                assert(rest[k - 1] == x);
            }
        }
        assert forall|k: int| 0 <= k < rest.len() implies is_saved(
            #[trigger] rest[k],
            a,
            w,
            g,
            i + 1,
            w.len() as int,
        ) by {
            let o = if k < p {
                k
            } else {
                k + 1
            };
            assert(rest[k] == ts[o]);
            assert(is_saved(ts[o], a, w, g, i, w.len() as int));
            let j = choose|j: int| i <= j < w.len() && ts[o] == #[trigger] saved_tensor(a, w, g, j);
            if j == i {
                lemma_words_total(code_points(e.0), code_points(e.0));
                if o < p {
                    assert(sorts_before(ts[o].0, ts[p].0));
                } else {
                    assert(sorts_before(ts[p].0, ts[o].0));
                }
            }
            assert(rest[k] == saved_tensor(a, w, g, j));
        }
        lemma_drawn_back(rest, a, w, g, i + 1);
    }
}

proof fn lemma_noted(m: Seq<(Seq<char>, Seq<char>)>, i: int, n: usize, default: usize)
    requires
        names_ascend(m),
        0 <= i < m.len(),
    ensures
        note(m, m[i].0) == Some(m[i].1),
        m[i].1 == digits(n as nat) ==> noted_number(m, m[i].0, default) == n,
{
    lemma_found(m, i, 0);
    numbers_read_back(n as nat, usize::MAX as nat);
}

/// A network that is saved loads as it was: the same widths and the same
/// weights.
pub proof fn saved_networks_load(
    c: Contents,
    a: Arch,
    label: Seq<char>,
    w: Seq<Seq<u32>>,
    g: Geometry,
    rules_version: u32,
)
    requires
        w.len() == manifest(a, g).len(),
        c.meta == saved_notes(a, label, g, rules_version),
        saves_tensors(c.tensors, a, w, g),
    ensures
        loaded(c, g) == Ok::<(Arch, Seq<Seq<u32>>), LoadFailure>((a, w)),
{
    let m = c.meta;
    lemma_notes_ordered(a, label, g, rules_version);
    lemma_noted(m, 0, a.blocks, 6);
    lemma_noted(m, 1, a.board, 192);
    lemma_noted(m, 2, a.bslot, 48);
    lemma_noted(m, 3, g.d_choice, 0);
    lemma_noted(m, 4, g.d_in, 0);
    lemma_noted(m, 5, 0, 0);
    lemma_noted(m, 6, FORMAT_VERSION as usize, 1);
    lemma_noted(m, 7, a.globals, 128);
    lemma_noted(m, 8, a.key, 128);
    lemma_noted(m, 10, a.mslot, 32);
    lemma_noted(m, 11, g.n_who, 0);
    lemma_noted(m, 12, a.player, 96);
    lemma_noted(m, 14, a.value_hidden, 256);
    lemma_noted(m, 15, a.width, 512);
    assert(noted_arch(m) == a);
    lemma_drawn_back(c.tensors, a, w, g, 0);
    assert(manifest(a, g).skip(0) =~= manifest(a, g));
    assert(w.take(0) =~= Seq::empty());
}

/// How many weights there are.
pub open spec fn count(w: Seq<Seq<u32>>) -> nat
    decreases w.len(),
{
    if w.len() == 0 {
        0
    } else {
        count(w.drop_last()) + w.last().len()
    }
}

/// How many weights tensors hold.
pub open spec fn total(slots: Seq<SlotShape>) -> nat
    decreases slots.len(),
{
    if slots.len() == 0 {
        0
    } else {
        total(slots.drop_last()) + volume(slots.last().shape)
    }
}

/// How many weights a layer has.
pub open spec fn dense(out: int, inp: int) -> int {
    out * inp + out
}

/// How many weights a network has: its layers, two for each width of every
/// normalisation, two square matrices a block, and two tables of keys.
pub open spec fn params(a: Arch, g: Geometry) -> int {
    let (w, h, k) = (a.width as int, a.value_hidden as int, a.key as int);
    dense(a.board as int, g.board_w as int) + dense(a.player as int, g.player_w as int) + dense(
        a.bslot as int,
        g.bslot_w as int,
    ) + dense(a.mslot as int, g.mslot_w as int) + dense(a.globals as int, g.global_w as int)
        + dense(w, a.stems() as int) + dense(h, w) + 2 * dense(4, h) + dense(16, h) + dense(24, h)
        + dense(4, w) + dense(3, w) + dense(g.n_place as int, w) + dense(2, w) + dense(
        g.n_who as int,
        w,
    ) + dense(g.d_choice as int, w) + dense(k, w) + dense(k, g.d_choice as int) + dense(k, k) + 4 * w
        + a.blocks * (2 * (w * w) + 4 * w) + g.n_who * k + PHASES * k
}

proof fn lemma_total_cat(x: Seq<SlotShape>, y: Seq<SlotShape>)
    ensures
        total(x + y) == total(x) + total(y),
    decreases y.len(),
{
    if y.len() == 0 {
        assert(x + y =~= x);
    } else {
        assert((x + y).drop_last() =~= x + y.drop_last());
        lemma_total_cat(x, y.drop_last());
    }
}

proof fn lemma_total_one(s: SlotShape)
    ensures
        total(seq![s]) == volume(s.shape),
{
    assert(seq![s].drop_last() =~= Seq::<SlotShape>::empty());
    assert(total(Seq::<SlotShape>::empty()) == 0);
    assert(seq![s].last() == s);
}

proof fn lemma_volume_one(a: usize)
    ensures
        volume(seq![a]) == a,
{
    assert(seq![a].drop_last() =~= Seq::empty());
    assert(volume(Seq::<usize>::empty()) == 1);
    assert(1 * a as nat == a);
}

proof fn lemma_volume_two(a: usize, b: usize)
    ensures
        volume(seq![a, b]) == a * b,
{
    lemma_volume_one(a);
    assert(seq![a, b].drop_last() =~= seq![a]);
}

proof fn lemma_total_grid(name: Seq<char>, rows: usize, cols: usize, init: Init)
    ensures
        total(grid(name, rows, cols, init)) == rows * cols,
{
    lemma_total_one(SlotShape { name, shape: seq![rows, cols], init });
    lemma_volume_two(rows, cols);
}

proof fn lemma_total_row(name: Seq<char>, n: usize, init: Init)
    ensures
        total(row(name, n, init)) == n,
{
    lemma_total_one(SlotShape { name, shape: seq![n], init });
    lemma_volume_one(n);
}

proof fn lemma_total_layer(name: Seq<char>, out: usize, inp: usize, head: bool)
    ensures
        total(layer(name, out, inp, head)) == dense(out as int, inp as int),
{
    let x = grid(name + ".weight"@, out, inp, Init::Spread { out, inp, head });
    let y = row(name + ".bias"@, out, Init::Zero);
    lemma_total_grid(name + ".weight"@, out, inp, Init::Spread { out, inp, head });
    lemma_total_row(name + ".bias"@, out, Init::Zero);
    lemma_total_cat(x, y);
}

proof fn lemma_total_norm(name: Seq<char>, w: usize)
    ensures
        total(norm(name, w)) == 2 * w,
{
    lemma_total_row(name + ".weight"@, w, Init::One);
    lemma_total_row(name + ".bias"@, w, Init::Zero);
    lemma_total_cat(
        row(name + ".weight"@, w, Init::One),
        row(name + ".bias"@, w, Init::Zero),
    );
}

proof fn lemma_total_block(i: nat, w: usize)
    ensures
        total(block(i, w)) == 2 * (w * w) + 4 * w,
{
    let b = block_name(i);
    let p = norm(b + ".norm1"@, w);
    let spread = Init::Spread { out: w, inp: w, head: false };
    let q = grid(b + ".fc1.weight"@, w, w, spread);
    let r = norm(b + ".norm2"@, w);
    let s = grid(b + ".fc2.weight"@, w, w, Init::Zero);
    lemma_total_norm(b + ".norm1"@, w);
    lemma_total_grid(b + ".fc1.weight"@, w, w, spread);
    lemma_total_norm(b + ".norm2"@, w);
    lemma_total_grid(b + ".fc2.weight"@, w, w, Init::Zero);
    lemma_total_cat(p, q);
    lemma_total_cat(p + q, r);
    lemma_total_cat(p + q + r, s);
}

proof fn lemma_total_blocks(from: nat, n: nat, w: usize)
    requires
        from <= n,
    ensures
        total(blocks(from, n, w)) == (n - from) * (2 * (w * w) + 4 * w),
    decreases n - from,
{
    if from < n {
        lemma_total_block(from, w);
        lemma_total_blocks(from + 1, n, w);
        lemma_total_cat(block(from, w), blocks(from + 1, n, w));
        let one = 2 * (w * w) + 4 * w;
        assert((n - from) * one == (n - from - 1) * one + one) by (nonlinear_arith);
    } else {
        assert((n - from) * (2 * (w * w) + 4 * w) == 0) by (nonlinear_arith)
            requires
                n - from == 0,
        ;
    }
}

proof fn lemma_total_front(a: Arch, g: Geometry)
    ensures
        total(front(a, g)) == dense(a.board as int, g.board_w as int) + dense(
            a.player as int,
            g.player_w as int,
        ) + dense(a.bslot as int, g.bslot_w as int) + dense(a.mslot as int, g.mslot_w as int) + dense(
            a.globals as int,
            g.global_w as int,
        ) + dense(a.width as int, a.stems() as int) + 2 * a.width,
{
    let l1 = layer("stem.board"@, a.board, g.board_w, false);
    let l2 = layer("stem.player"@, a.player, g.player_w, false);
    let l3 = layer("stem.bslot"@, a.bslot, g.bslot_w, false);
    let l4 = layer("stem.mslot"@, a.mslot, g.mslot_w, false);
    let l5 = layer("stem.global"@, a.globals, g.global_w, false);
    let l6 = layer("fuse"@, a.width, a.stems(), false);
    lemma_total_layer("stem.board"@, a.board, g.board_w, false);
    lemma_total_layer("stem.player"@, a.player, g.player_w, false);
    lemma_total_layer("stem.bslot"@, a.bslot, g.bslot_w, false);
    lemma_total_layer("stem.mslot"@, a.mslot, g.mslot_w, false);
    lemma_total_layer("stem.global"@, a.globals, g.global_w, false);
    lemma_total_layer("fuse"@, a.width, a.stems(), false);
    lemma_total_norm("fuse.norm"@, a.width);
    lemma_total_cat(l1, l2);
    lemma_total_cat(l1 + l2, l3);
    lemma_total_cat(l1 + l2 + l3, l4);
    lemma_total_cat(l1 + l2 + l3 + l4, l5);
    lemma_total_cat(l1 + l2 + l3 + l4 + l5, l6);
    lemma_total_cat(l1 + l2 + l3 + l4 + l5 + l6, norm("fuse.norm"@, a.width));
}

proof fn lemma_total_value(a: Arch)
    ensures
        total(value_heads(a)) == 2 * a.width + dense(a.value_hidden as int, a.width as int) + 2 * dense(
            4,
            a.value_hidden as int,
        ) + dense(16, a.value_hidden as int) + dense(24, a.value_hidden as int),
{
    let (h, w) = (a.value_hidden, a.width);
    let l1 = norm("trunk.norm"@, w);
    let l2 = layer("value.fc"@, h, w, false);
    let l3 = layer("value.rel"@, 4, h, true);
    let l4 = layer("value.score"@, 4, h, true);
    let l5 = layer("value.rank"@, 16, h, true);
    lemma_total_norm("trunk.norm"@, w);
    lemma_total_layer("value.fc"@, h, w, false);
    lemma_total_layer("value.rel"@, 4, h, true);
    lemma_total_layer("value.score"@, 4, h, true);
    lemma_total_layer("value.rank"@, 16, h, true);
    lemma_total_layer("value.decomp"@, 24, h, true);
    lemma_total_cat(l1, l2);
    lemma_total_cat(l1 + l2, l3);
    lemma_total_cat(l1 + l2 + l3, l4);
    lemma_total_cat(l1 + l2 + l3 + l4, l5);
    lemma_total_cat(l1 + l2 + l3 + l4 + l5, layer("value.decomp"@, 24, h, true));
}

proof fn lemma_total_policy(a: Arch, g: Geometry)
    ensures
        total(policy_heads(a, g)) == dense(4, a.width as int) + dense(3, a.width as int) + dense(
            g.n_place as int,
            a.width as int,
        ) + dense(2, a.width as int) + dense(g.n_who as int, a.width as int),
{
    let w = a.width;
    let l1 = layer("policy.beg"@, 4, w, true);
    let l2 = layer("policy.mode"@, 3, w, true);
    let l3 = layer("policy.place"@, g.n_place, w, true);
    let l4 = layer("policy.extra_day"@, 2, w, true);
    lemma_total_layer("policy.beg"@, 4, w, true);
    lemma_total_layer("policy.mode"@, 3, w, true);
    lemma_total_layer("policy.place"@, g.n_place, w, true);
    lemma_total_layer("policy.extra_day"@, 2, w, true);
    lemma_total_layer("policy.who"@, g.n_who, w, true);
    lemma_total_cat(l1, l2);
    lemma_total_cat(l1 + l2, l3);
    lemma_total_cat(l1 + l2 + l3, l4);
    lemma_total_cat(l1 + l2 + l3 + l4, layer("policy.who"@, g.n_who, w, true));
}

proof fn lemma_total_pointer(a: Arch, g: Geometry)
    ensures
        total(pointer_head(a, g)) == dense(g.d_choice as int, a.width as int) + dense(
            a.key as int,
            a.width as int,
        ) + g.n_who * a.key + PHASES * a.key + dense(a.key as int, g.d_choice as int) + dense(
            a.key as int,
            a.key as int,
        ),
{
    let (w, k) = (a.width, a.key);
    let l1 = layer("ptr.q_fast"@, g.d_choice, w, true);
    let l2 = layer("ptr.q_deep"@, k, w, true);
    let l3 = grid("ptr.cell_emb"@, g.n_who, k, Init::Zero);
    let l4 = grid("ptr.step_emb"@, PHASES, k, Init::Zero);
    let l5 = layer("ptr.key1"@, k, g.d_choice, false);
    lemma_total_layer("ptr.q_fast"@, g.d_choice, w, true);
    lemma_total_layer("ptr.q_deep"@, k, w, true);
    lemma_total_grid("ptr.cell_emb"@, g.n_who, k, Init::Zero);
    lemma_total_grid("ptr.step_emb"@, PHASES, k, Init::Zero);
    lemma_total_layer("ptr.key1"@, k, g.d_choice, false);
    lemma_total_layer("ptr.key2"@, k, k, false);
    lemma_total_cat(l1, l2);
    lemma_total_cat(l1 + l2, l3);
    lemma_total_cat(l1 + l2 + l3, l4);
    lemma_total_cat(l1 + l2 + l3 + l4, l5);
    lemma_total_cat(l1 + l2 + l3 + l4 + l5, layer("ptr.key2"@, k, k, false));
}

proof fn lemma_count_total(w: Seq<Seq<u32>>, slots: Seq<SlotShape>)
    requires
        w.len() == slots.len(),
        forall|i: int| 0 <= i < w.len() ==> (#[trigger] w[i]).len() == volume(slots[i].shape),
    ensures
        count(w) == total(slots),
    decreases w.len(),
{
    if w.len() > 0 {
        assert(w[w.len() - 1].len() == volume(slots[w.len() - 1].shape));
        lemma_count_total(w.drop_last(), slots.drop_last());
    }
}

/// Weights that fit the manifest are as many as the layers have.
pub proof fn weights_are_those_of_the_layers(a: Arch, g: Geometry, w: Seq<Seq<u32>>)
    requires
        w.len() == manifest(a, g).len(),
        forall|i: int|
            0 <= i < w.len() ==> (#[trigger] w[i]).len() == volume(manifest(a, g)[i].shape),
    ensures
        count(w) == params(a, g),
{
    lemma_count_total(w, manifest(a, g));
    lemma_total_front(a, g);
    lemma_total_blocks(0, a.blocks as nat, a.width);
    lemma_total_value(a);
    lemma_total_policy(a, g);
    lemma_total_pointer(a, g);
    let mid = blocks(0, a.blocks as nat, a.width);
    lemma_total_cat(value_heads(a), policy_heads(a, g));
    lemma_total_cat(value_heads(a) + policy_heads(a, g), pointer_head(a, g));
    lemma_total_cat(mid, back(a, g));
    lemma_total_cat(front(a, g), mid + back(a, g));
}

impl Net {
    /// How many weights the network has.
    pub fn n_params(&self) -> (n: usize)
        requires
            count(weight_views(self.weights@)) <= usize::MAX,
        ensures
            n == count(weight_views(self.weights@)),
    {
        let ghost w = weight_views(self.weights@);
        let mut n: usize = 0;
        let mut i: usize = 0;
        assert(w.take(0) =~= Seq::empty());
        while i < self.weights.len()
            invariant
                i <= self.weights@.len(),
                w == weight_views(self.weights@),
                count(w) <= usize::MAX,
                n == count(w.take(i as int)),
            decreases self.weights@.len() - i,
        {
            assert(w.take(i + 1).drop_last() =~= w.take(i as int));
            assert(w[i as int] == self.weights@[i as int]@);
            proof {
                lemma_count_grows(w, i + 1);
            }
            n += self.weights[i].len();
            i += 1;
        }
        assert(w.take(i as int) =~= w);
        n
    }
}

proof fn lemma_count_grows(w: Seq<Seq<u32>>, i: int)
    requires
        0 <= i <= w.len(),
    ensures
        count(w.take(i)) <= count(w),
    decreases w.len() - i,
{
    if i < w.len() {
        lemma_count_grows(w, i + 1);
        assert(w.take(i + 1).drop_last() =~= w.take(i));
    } else {
        assert(w.take(i) =~= w);
    }
}

} // verus!
