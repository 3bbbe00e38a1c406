//! The canonical order of moves, and when two moves are one.

use crate::affordable::{
    generated_moves_are_legal, generated_moves_pass_where_payoffs_can_be_paid, payoffs_due,
    payoffs_free,
};
use crate::book::Rulebook;
use crate::distinct::legal_moves_are_listed_once;
use crate::effect::{Choice, Effect};
use crate::ids::{PlayerId, Temple, WorkerId};
use crate::legal::{fault_of, play_ok};
use crate::moves::{
    legal_list, plays, visit_legal_moves, Kind, Move, MoveKind, Placement, Placements, Play,
    Retrievals,
};
use crate::options::pack;
use crate::order::{covers_range, packed, packing_loses_nothing, sorted_positions, Ranked};
use crate::playable::generated_moves_can_be_played;
use crate::state::GameState;
use crate::words::{lemma_words_total, words_lt, Words};
use vstd::prelude::*;

verus! {

// ---- the order of moves --------------------------------------------------

/// A placement as words: its kind, then its gear and space.
pub open spec fn spot_words(s: Placement) -> Seq<u32> {
    match s {
        Placement::Gear(gear, pos) => seq![0u32, gear.rank() as u32, pos.0 as u32],
        Placement::FirstPlayer => seq![1u32],
    }
}

/// Placements as words, each announced by a one and the end by a zero, so that
/// a list sorts before its own extensions.
pub open spec fn placing_words(v: Seq<(WorkerId, Placement)>) -> Seq<u32>
    decreases v.len(),
{
    if v.len() == 0 {
        seq![0u32]
    } else {
        seq![1u32, v[0].0.0 as u32] + spot_words(v[0].1) + placing_words(v.drop_first())
    }
}

/// Effects as words, each announced by a one and the end by a zero.
pub open spec fn effect_words(s: Seq<Effect>) -> Seq<u32>
    decreases s.len(),
{
    if s.len() == 0 {
        seq![0u32]
    } else {
        seq![1u32, packed(s[0]) as u32] + effect_words(s.drop_first())
    }
}

/// Retrievals as words, each announced by a one and the end by a zero.
pub open spec fn taking_words(v: Seq<(WorkerId, Seq<Effect>)>) -> Seq<u32>
    decreases v.len(),
{
    if v.len() == 0 {
        seq![0u32]
    } else {
        seq![1u32, v[0].0.0 as u32] + effect_words(v[0].1) + taking_words(v.drop_first())
    }
}

/// A way to start a turn as a word: not begging first, then by temple.
pub open spec fn beg_word(beg: Option<Temple>) -> u32 {
    match beg {
        None => 0,
        Some(t) => (1 + t.rank()) as u32,
    }
}

/// A move as the words it sorts by: placements, then retrievals, then pity, and
/// within a kind by what it does, how it begs and what it costs.
pub open spec fn play_words(m: Play) -> Seq<u32> {
    (match m.kind {
        Kind::Place(v) => seq![0u32] + placing_words(v),
        Kind::Retrieve(v) => seq![1u32] + taking_words(v),
        Kind::Pity(w, spot) => seq![2u32, w.0 as u32] + spot_words(spot),
    }) + seq![beg_word(m.beg), m.corn_cost as u32]
}

/// Words that agree from the start agree behind what they start with.
proof fn lemma_behind(a: Seq<u32>, x: Seq<u32>, y: Seq<u32>)
    requires
        a + x == a + y,
    ensures
        x == y,
{
    assert(x =~= (a + x).skip(a.len() as int));
    assert(y =~= (a + y).skip(a.len() as int));
}

/// A spot can be told from the words it starts.
proof fn lemma_spot_read(s: Placement, t: Placement, x: Seq<u32>, y: Seq<u32>)
    requires
        spot_words(s) + x == spot_words(t) + y,
    ensures
        s == t,
        x == y,
{
    let a = spot_words(s) + x;
    let b = spot_words(t) + y;
    assert(a[0] == spot_words(s)[0] && b[0] == spot_words(t)[0]);
    if let Placement::Gear(gear, pos) = s {
        assert(a[1] == spot_words(s)[1] && b[1] == spot_words(t)[1]);
        assert(a[2] == spot_words(s)[2] && b[2] == spot_words(t)[2]);
        assert(t is Gear);
        assert(gear.rank() == t->Gear_0.rank());
    }
    lemma_behind(spot_words(s), x, y);
}

/// Placements can be told from the words they start.
proof fn lemma_placing_read(
    v: Seq<(WorkerId, Placement)>,
    w: Seq<(WorkerId, Placement)>,
    x: Seq<u32>,
    y: Seq<u32>,
)
    requires
        placing_words(v) + x == placing_words(w) + y,
    ensures
        v == w,
        x == y,
    decreases v.len(),
{
    let a = placing_words(v) + x;
    let b = placing_words(w) + y;
    assert(a[0] == placing_words(v)[0] && b[0] == placing_words(w)[0]);
    if v.len() == 0 {
        assert(w.len() == 0);
        assert(v =~= w);
        lemma_behind(seq![0u32], x, y);
    } else {
        assert(w.len() > 0);
        assert(a[1] == placing_words(v)[1] && b[1] == placing_words(w)[1]);
        assert(v[0].0 == w[0].0);
        let head = seq![1u32, v[0].0.0 as u32];
        let vs = placing_words(v.drop_first()) + x;
        let ws = placing_words(w.drop_first()) + y;
        assert(a =~= head + (spot_words(v[0].1) + vs));
        assert(b =~= head + (spot_words(w[0].1) + ws));
        lemma_behind(head, spot_words(v[0].1) + vs, spot_words(w[0].1) + ws);
        lemma_spot_read(v[0].1, w[0].1, vs, ws);
        lemma_placing_read(v.drop_first(), w.drop_first(), x, y);
        assert(v =~= seq![v[0]] + v.drop_first());
        assert(w =~= seq![w[0]] + w.drop_first());
    }
}

/// Effects can be told from the words they start.
proof fn lemma_effects_read(v: Seq<Effect>, w: Seq<Effect>, x: Seq<u32>, y: Seq<u32>)
    requires
        effect_words(v) + x == effect_words(w) + y,
    ensures
        v == w,
        x == y,
    decreases v.len(),
{
    let a = effect_words(v) + x;
    let b = effect_words(w) + y;
    assert(a[0] == effect_words(v)[0] && b[0] == effect_words(w)[0]);
    if v.len() == 0 {
        assert(w.len() == 0);
        assert(v =~= w);
        lemma_behind(seq![0u32], x, y);
    } else {
        assert(w.len() > 0);
        assert(a[1] == effect_words(v)[1] && b[1] == effect_words(w)[1]);
        packing_loses_nothing(v[0], w[0]);
        packing_loses_nothing(w[0], v[0]);
        assert(v[0] == w[0]);
        let head = seq![1u32, packed(v[0]) as u32];
        let vs = effect_words(v.drop_first()) + x;
        let ws = effect_words(w.drop_first()) + y;
        assert(a =~= head + vs);
        assert(b =~= head + ws);
        lemma_behind(head, vs, ws);
        lemma_effects_read(v.drop_first(), w.drop_first(), x, y);
        assert(v =~= seq![v[0]] + v.drop_first());
        assert(w =~= seq![w[0]] + w.drop_first());
    }
}

/// Retrievals can be told from the words they start.
proof fn lemma_taking_read(
    v: Seq<(WorkerId, Seq<Effect>)>,
    w: Seq<(WorkerId, Seq<Effect>)>,
    x: Seq<u32>,
    y: Seq<u32>,
)
    requires
        taking_words(v) + x == taking_words(w) + y,
    ensures
        v == w,
        x == y,
    decreases v.len(),
{
    let a = taking_words(v) + x;
    let b = taking_words(w) + y;
    assert(a[0] == taking_words(v)[0] && b[0] == taking_words(w)[0]);
    if v.len() == 0 {
        assert(w.len() == 0);
        assert(v =~= w);
        lemma_behind(seq![0u32], x, y);
    } else {
        assert(w.len() > 0);
        assert(a[1] == taking_words(v)[1] && b[1] == taking_words(w)[1]);
        assert(v[0].0 == w[0].0);
        let head = seq![1u32, v[0].0.0 as u32];
        let vs = taking_words(v.drop_first()) + x;
        let ws = taking_words(w.drop_first()) + y;
        assert(a =~= head + (effect_words(v[0].1) + vs));
        assert(b =~= head + (effect_words(w[0].1) + ws));
        lemma_behind(head, effect_words(v[0].1) + vs, effect_words(w[0].1) + ws);
        lemma_effects_read(v[0].1, w[0].1, vs, ws);
        lemma_taking_read(v.drop_first(), w.drop_first(), x, y);
        assert(v =~= seq![v[0]] + v.drop_first());
        assert(w =~= seq![w[0]] + w.drop_first());
    }
}

/// No two moves sort by the same words.
pub proof fn moves_sort_apart(m: Play, n: Play)
    requires
        play_words(m) == play_words(n),
    ensures
        m == n,
{
    let a = play_words(m);
    let b = play_words(n);
    let x = seq![beg_word(m.beg), m.corn_cost as u32];
    let y = seq![beg_word(n.beg), n.corn_cost as u32];
    let first = seq![a[0]];
    match m.kind {
        Kind::Place(v) => {
            assert(a =~= first + (placing_words(v) + x));
            assert(n.kind is Place);
            let w = n.kind->Place_0;
            assert(b =~= first + (placing_words(w) + y));
            lemma_behind(first, placing_words(v) + x, placing_words(w) + y);
            lemma_placing_read(v, w, x, y);
        },
        Kind::Retrieve(v) => {
            assert(a =~= first + (taking_words(v) + x));
            assert(n.kind is Retrieve);
            let w = n.kind->Retrieve_0;
            assert(b =~= first + (taking_words(w) + y));
            lemma_behind(first, taking_words(v) + x, taking_words(w) + y);
            lemma_taking_read(v, w, x, y);
        },
        Kind::Pity(v, spot) => {
            assert(n.kind is Pity);
            let two = seq![2u32, v.0 as u32];
            assert(a =~= two + (spot_words(spot) + x));
            assert(b =~= seq![2u32, n.kind->Pity_0.0 as u32] + (spot_words(n.kind->Pity_1) + y));
            assert(a[1] == v.0 && b[1] == n.kind->Pity_0.0);
            lemma_behind(two, spot_words(spot) + x, spot_words(n.kind->Pity_1) + y);
            lemma_spot_read(spot, n.kind->Pity_1, x, y);
        },
    }
    assert(x[0] == y[0] && x[1] == y[1]);
}

fn push_spot(out: &mut Vec<u32>, s: Placement)
    ensures
        final(out)@ == old(out)@ + spot_words(s),
{
    match s {
        Placement::Gear(gear, pos) => {
            out.push(0);
            out.push(gear.idx() as u32);
            out.push(pos.0 as u32);
        },
        Placement::FirstPlayer => {
            out.push(1);
        },
    }
    assert(out@ =~= old(out)@ + spot_words(s));
}

fn push_placements(out: &mut Vec<u32>, v: &Placements)
    ensures
        final(out)@ == old(out)@ + placing_words(v@),
{
    let n: usize = v.len();
    let mut i: usize = 0;
    assert(v@.skip(0) =~= v@);
    while i < n
        invariant
            i <= n,
            n == v@.len(),
            out@ + placing_words(v@.skip(i as int)) == old(out)@ + placing_words(v@),
        decreases n - i,
    {
        let (w, s) = v.at(i);
        let ghost o1 = out@;
        let ghost rest = placing_words(v@.skip(i + 1));
        assert(v@.skip(i as int).drop_first() =~= v@.skip(i + 1));
        out.push(1);
        out.push(w.0 as u32);
        push_spot(out, s);
        assert(out@ + rest =~= o1 + (seq![1u32, w.0 as u32] + spot_words(s) + rest));
        i += 1;
    }
    out.push(0);
    assert(v@.skip(n as int) =~= Seq::empty());
    assert(out@ =~= old(out)@ + placing_words(v@));
}

fn push_effects(out: &mut Vec<u32>, c: &Choice)
    ensures
        final(out)@ == old(out)@ + effect_words(c@),
{
    let n: usize = c.0.len();
    let mut i: usize = 0;
    assert(c@.skip(0) =~= c@);
    while i < n
        invariant
            i <= n,
            n == c@.len(),
            out@ + effect_words(c@.skip(i as int)) == old(out)@ + effect_words(c@),
        decreases n - i,
    {
        let e = c.0.at(i);
        let ghost o1 = out@;
        let ghost rest = effect_words(c@.skip(i + 1));
        assert(c@.skip(i as int).drop_first() =~= c@.skip(i + 1));
        out.push(1);
        out.push(pack(e));
        assert(out@ + rest =~= o1 + (seq![1u32, packed(e) as u32] + rest));
        i += 1;
    }
    out.push(0);
    assert(c@.skip(n as int) =~= Seq::empty());
    assert(out@ =~= old(out)@ + effect_words(c@));
}

fn push_retrievals(out: &mut Vec<u32>, v: &Retrievals)
    ensures
        final(out)@ == old(out)@ + taking_words(v@),
{
    let n: usize = v.len();
    let mut i: usize = 0;
    assert(v@.skip(0) =~= v@);
    while i < n
        invariant
            i <= n,
            n == v@.len(),
            out@ + taking_words(v@.skip(i as int)) == old(out)@ + taking_words(v@),
        decreases n - i,
    {
        let e = v.at(i);
        assert(v@[i as int] == (e.0, e.1@));
        let ghost o1 = out@;
        let ghost rest = taking_words(v@.skip(i + 1));
        assert(v@.skip(i as int).drop_first() =~= v@.skip(i + 1));
        out.push(1);
        out.push(e.0.0 as u32);
        push_effects(out, &e.1);
        assert(out@ + rest =~= o1 + (seq![1u32, e.0.0 as u32] + effect_words(e.1@) + rest));
        i += 1;
    }
    out.push(0);
    assert(v@.skip(n as int) =~= Seq::empty());
    assert(out@ =~= old(out)@ + taking_words(v@));
}

/// The words a move sorts by.
fn words_of(m: &Move) -> (out: Vec<u32>)
    ensures
        out@ == play_words(m@),
{
    let mut out: Vec<u32> = Vec::new();
    match &m.kind {
        MoveKind::Place(v) => {
            out.push(0);
            push_placements(&mut out, v);
        },
        MoveKind::Retrieve(v) => {
            out.push(1);
            push_retrievals(&mut out, v);
        },
        MoveKind::Pity { worker, spot } => {
            out.push(2);
            out.push(worker.0 as u32);
            push_spot(&mut out, *spot);
        },
    }
    let beg: u32 = match m.beg {
        None => 0,
        Some(t) => 1 + t.idx() as u32,
    };
    out.push(beg);
    out.push(m.corn_cost as u32);
    assert(out@ =~= play_words(m@));
    out
}

/// Whether a list of moves stands in canonical order, none of them twice.
pub open spec fn in_move_order(s: Seq<Play>) -> bool {
    forall|i: int, j: int|
        0 <= i < j < s.len() ==> words_lt(
            play_words(#[trigger] s[i]),
            play_words(#[trigger] s[j]),
        )
}

/// Whether one list of moves is another, each move once, in some order.
pub open spec fn rearranges(a: Seq<Play>, b: Seq<Play>) -> bool {
    exists|idx: Seq<usize>| #[trigger]
        covers_range(idx, 0, b.len() as int) && idx.len() == b.len() && a == Seq::new(
            b.len(),
            |i: int| b[idx[i] as int],
        )
}

/// Every legal move once, in canonical order. Each can be played, and passes the
/// check where its payoffs can be paid when they fall due.
pub fn legal_moves(rules: &Rulebook, g: &GameState, p: PlayerId) -> (out: Vec<Move>)
    requires
        p.ok(),
        rules.ok(),
        g.ok(),
    ensures
        rearranges(plays(out@), legal_list(*rules, *g, p)),
        in_move_order(plays(out@)),
        forall|i: int|
            0 <= i < out@.len() ==> legal_list(*rules, *g, p).contains(#[trigger] plays(out@)[i])
                && play_ok(plays(out@)[i]),
        forall|i: int|
            0 <= i < out@.len() && payoffs_due(*rules, *g, p, #[trigger] plays(out@)[i])
                ==> fault_of(*rules, *g, p, plays(out@)[i]) is None,
        payoffs_free(*rules) ==> forall|i: int|
            0 <= i < out@.len() ==> fault_of(*rules, *g, p, #[trigger] plays(out@)[i]) is None,
{
    let found = visit_legal_moves(rules, g, p, None);
    let ghost list = plays(found@);
    let mut keys: Vec<Words> = Vec::new();
    let mut i: usize = 0;
    while i < found.len()
        invariant
            i <= found@.len(),
            keys@.len() == i,
            forall|j: int| 0 <= j < i ==> (#[trigger] keys@[j]).0@ == play_words(found@[j]@),
        decreases found@.len() - i,
    {
        keys.push(Words(words_of(&found[i])));
        i += 1;
    }
    let idx = sorted_positions(&keys);
    let mut out: Vec<Move> = Vec::new();
    let mut k: usize = 0;
    while k < idx.len()
        invariant
            k <= idx@.len(),
            idx@.len() == found@.len(),
            covers_range(idx@, 0, found@.len() as int),
            out@.len() == k,
            forall|j: int| 0 <= j < k ==> (#[trigger] out@[j])@ == found@[idx@[j] as int]@,
        decreases idx@.len() - k,
    {
        assert(idx@.contains(idx@[k as int]));
        out.push(found[idx[k]].clone());
        k += 1;
    }
    proof {
        let a = plays(out@);
        assert forall|j: int| 0 <= j < idx@.len() implies (#[trigger] idx@[j]) < found@.len() by {
            assert(idx@.contains(idx@[j]));
        }
        assert(a =~= Seq::new(list.len(), |i: int| list[idx@[i] as int]));
        assert forall|i: int| 0 <= i < out@.len() implies list.contains(#[trigger] a[i])
            && play_ok(a[i]) && (payoffs_free(*rules) || payoffs_due(*rules, *g, p, a[i])
            ==> fault_of(*rules, *g, p, a[i]) is None) by {
            assert(a[i] == list[idx@[i] as int]);
            generated_moves_can_be_played(*rules, *g, p, a[i]);
            if payoffs_free(*rules) {
                generated_moves_are_legal(*rules, *g, p, a[i]);
            }
            if payoffs_due(*rules, *g, p, a[i]) {
                generated_moves_pass_where_payoffs_can_be_paid(*rules, *g, p, a[i]);
            }
        }
        legal_moves_are_listed_once(*rules, *g, p);
        assert forall|i: int, j: int| 0 <= i < j < a.len() implies words_lt(
            play_words(#[trigger] a[i]),
            play_words(#[trigger] a[j]),
        ) by {
            assert(!Words::before(keys@[idx@[j] as int], keys@[idx@[i] as int]));
            lemma_words_total(play_words(a[i]), play_words(a[j]));
            if play_words(a[i]) == play_words(a[j]) {
                moves_sort_apart(a[i], a[j]);
                assert(list[idx@[i] as int] == list[idx@[j] as int]);
            }
        }
    }
    out
}

// ---- two spellings of one move -------------------------------------------

/// How often a spot occurs among some placements.
pub open spec fn times(v: Seq<(WorkerId, Placement)>, s: Placement) -> nat
    decreases v.len(),
{
    if v.len() == 0 {
        0
    } else {
        times(v.drop_last(), s) + if v.last().1 == s {
            1nat
        } else {
            0
        }
    }
}

/// Whether two moves do the same thing under different names. A seat's workers
/// in hand are interchangeable, so placements compare by the spots they take;
/// retrieval order matters, so retrievals compare exactly.
pub open spec fn same_play(a: Play, b: Play) -> bool {
    &&& a.beg == b.beg
    &&& a.corn_cost == b.corn_cost
    &&& match (a.kind, b.kind) {
        (Kind::Place(v), Kind::Place(w)) => v.len() == w.len() && forall|s: Placement| #[trigger]
            times(v, s) == times(w, s),
        _ => a.kind == b.kind,
    }
}

/// Doing the same thing is an equivalence.
pub proof fn same_effect_is_an_equivalence(a: Play, b: Play, c: Play)
    ensures
        same_play(a, a),
        same_play(a, b) ==> same_play(b, a),
        same_play(a, b) && same_play(b, c) ==> same_play(a, c),
{
    if same_play(a, b) && same_play(b, c) {
        if let Kind::Place(v) = a.kind {
            if let Kind::Place(w) = b.kind {
                if let Kind::Place(x) = c.kind {
                    assert forall|s: Placement| #[trigger] times(v, s) == times(x, s) by {
                        assert(times(v, s) == times(w, s));
                        assert(times(w, s) == times(x, s));
                    }
                }
            }
        }
    }
    if same_play(a, b) {
        if let Kind::Place(v) = a.kind {
            if let Kind::Place(w) = b.kind {
                assert forall|s: Placement| #[trigger] times(w, s) == times(v, s) by {
                    assert(times(v, s) == times(w, s));
                }
            }
        }
    }
}

fn count_spot(v: &Placements, s: Placement) -> (n: usize)
    ensures
        n == times(v@, s),
        n <= v@.len(),
{
    let len: usize = v.len();
    let mut n: usize = 0;
    let mut i: usize = 0;
    assert(v@.take(0) =~= Seq::empty());
    while i < len
        invariant
            i <= len,
            len == v@.len(),
            n == times(v@.take(i as int), s),
            n <= i,
        decreases len - i,
    {
        assert(v@.take(i + 1).drop_last() =~= v@.take(i as int));
        let (_, x) = v.at(i);
        if x == s {
            n += 1;
        }
        i += 1;
    }
    assert(v@.take(len as int) =~= v@);
    n
}

/// A spot that occurs is the spot of some placement.
proof fn lemma_times(v: Seq<(WorkerId, Placement)>, s: Placement)
    ensures
        times(v, s) > 0 ==> exists|i: int| 0 <= i < v.len() && (#[trigger] v[i]).1 == s,
    decreases v.len(),
{
    if v.len() > 0 && times(v, s) > 0 {
        if v.last().1 == s {
            assert(v[v.len() - 1].1 == s);
        } else {
            let rest = v.drop_last();
            lemma_times(rest, s);
            let i = choose|i: int| 0 <= i < rest.len() && (#[trigger] rest[i]).1 == s;
            assert(v[i].1 == s);
        }
    }
}

/// Whether every spot of one list occurs as often in another.
fn counts_agree(v: &Placements, w: &Placements) -> (b: bool)
    ensures
        b == forall|i: int|
            0 <= i < v@.len() ==> times(v@, (#[trigger] v@[i]).1) == times(w@, v@[i].1),
{
    let n: usize = v.len();
    let mut i: usize = 0;
    while i < n
        invariant
            i <= n,
            n == v@.len(),
            forall|j: int|
                0 <= j < i ==> times(v@, (#[trigger] v@[j]).1) == times(w@, v@[j].1),
        decreases n - i,
    {
        let (_, s) = v.at(i);
        if count_spot(v, s) != count_spot(w, s) {
            assert(times(v@, v@[i as int].1) != times(w@, v@[i as int].1));
            return false;
        }
        i += 1;
    }
    true
}

fn same_spots(v: &Placements, w: &Placements) -> (b: bool)
    ensures
        b == (v@.len() == w@.len() && forall|s: Placement| #[trigger]
            times(v@, s) == times(w@, s)),
{
    if v.len() != w.len() {
        return false;
    }
    let b = counts_agree(v, w) && counts_agree(w, v);
    proof {
        if b {
            assert forall|s: Placement| #[trigger] times(v@, s) == times(w@, s) by {
                lemma_times(v@, s);
                lemma_times(w@, s);
                if times(v@, s) > 0 {
                    let i = choose|i: int| 0 <= i < v@.len() && (#[trigger] v@[i]).1 == s;
                    assert(times(v@, v@[i].1) == times(w@, v@[i].1));
                } else if times(w@, s) > 0 {
                    let i = choose|i: int| 0 <= i < w@.len() && (#[trigger] w@[i]).1 == s;
                    assert(times(w@, w@[i].1) == times(v@, w@[i].1));
                }
            }
        }
    }
    b
}

fn same_takes(v: &Retrievals, w: &Retrievals) -> (b: bool)
    ensures
        b == (v@ == w@),
{
    let n: usize = v.len();
    if n != w.len() {
        assert(v@.len() != w@.len());
        return false;
    }
    let mut i: usize = 0;
    while i < n
        invariant
            i <= n,
            n == v@.len(),
            n == w@.len(),
            forall|j: int| 0 <= j < i ==> v@[j] == w@[j],
        decreases n - i,
    {
        let a = v.at(i);
        let b = w.at(i);
        assert(v@[i as int] == (a.0, a.1@));
        assert(w@[i as int] == (b.0, b.1@));
        if a.0 != b.0 || !a.1.same(&b.1) {
            assert(v@[i as int] != w@[i as int]);
            return false;
        }
        i += 1;
    }
    assert(v@ =~= w@);
    true
}

fn same_places(v: &Placements, w: &Placements) -> (b: bool)
    ensures
        b == (v@ == w@),
{
    let n: usize = v.len();
    if n != w.len() {
        assert(v@.len() != w@.len());
        return false;
    }
    let mut i: usize = 0;
    while i < n
        invariant
            i <= n,
            n == v@.len(),
            n == w@.len(),
            forall|j: int| 0 <= j < i ==> v@[j] == w@[j],
        decreases n - i,
    {
        let a = v.at(i);
        let b = w.at(i);
        if a.0 != b.0 || a.1 != b.1 {
            assert(v@[i as int] != w@[i as int]);
            return false;
        }
        i += 1;
    }
    assert(v@ =~= w@);
    true
}

impl Move {
    /// Whether two moves are one, worker for worker.
    pub fn same(&self, other: &Move) -> (b: bool)
        ensures
            b == (self@ == other@),
    {
        let begs = match (self.beg, other.beg) {
            (None, None) => true,
            (Some(a), Some(b)) => a == b,
            _ => false,
        };
        if !begs || self.corn_cost != other.corn_cost {
            return false;
        }
        match (&self.kind, &other.kind) {
            (MoveKind::Place(v), MoveKind::Place(w)) => same_places(v, w),
            (MoveKind::Retrieve(v), MoveKind::Retrieve(w)) => same_takes(v, w),
            (
                MoveKind::Pity { worker: v, spot: s },
                MoveKind::Pity { worker: w, spot: t },
            ) => *v == *w && *s == *t,
            _ => false,
        }
    }

    /// Whether two moves do the same thing under different names.
    pub fn same_effect(&self, other: &Move) -> (b: bool)
        ensures
            b == same_play(self@, other@),
    {
        let begs = match (self.beg, other.beg) {
            (None, None) => true,
            (Some(a), Some(b)) => a == b,
            _ => false,
        };
        if !begs || self.corn_cost != other.corn_cost {
            return false;
        }
        match (&self.kind, &other.kind) {
            (MoveKind::Place(v), MoveKind::Place(w)) => same_spots(v, w),
            (MoveKind::Retrieve(v), MoveKind::Retrieve(w)) => same_takes(v, w),
            (
                MoveKind::Pity { worker: v, spot: s },
                MoveKind::Pity { worker: w, spot: t },
            ) => *v == *w && *s == *t,
            _ => false,
        }
    }
}

} // verus!
