//! Legal move enumeration.
//!
//! A `Move` owns its placements and choices outright, so sibling branches of
//! the enumeration never share a tail.

use crate::book::{effects_ok, Rulebook};
use crate::dominance::{
    all_ok, dominated_dedup, lemma_undominated_ok, pruning_keeps_the_skip, undominated,
};
use crate::effect::{after, after_all, choices_keep_positions_sound, locked_from, Choice, Effect};
use crate::ids::{Gear, PlayerId, Pos, Temple, WorkerId};
use crate::lists::{each_after, flat, just, only, put, put_all};
use crate::order::views;
use crate::positions::Positions;
use crate::spaces::uxmal::acting;
use crate::spaces::{free_choice, is_free_choice, raw_at, raw_list};
use crate::state::{
    available_list, board_list, can_step, lowest_free_space, placed, placed_first, retrieved,
    set_player, temple_stepped, workers_where, GameState, Player, WorkerLoc,
};
use smallvec::SmallVec;
use vstd::prelude::*;

pub use crate::legal::{apply_move, check_move};
pub use crate::sampling::sample_legal_move;
pub use crate::turns::legal_moves;

verus! {

/// Where a worker is put.
#[derive(Clone, Copy, PartialEq, Eq, PartialOrd, Ord, Hash, Debug, Structural)]
pub enum Placement {
    Gear(Gear, Pos),
    FirstPlayer,
}

impl Placement {
    /// Corn surcharge for the space itself.
    pub open spec fn cost(self) -> u8 {
        match self {
            Placement::Gear(_, pos) => pos.0,
            Placement::FirstPlayer => 0,
        }
    }

    /// Whether a space named here exists on its gear.
    pub open spec fn ok(self) -> bool {
        match self {
            Placement::Gear(gear, pos) => pos.0 < gear.spaces(),
            Placement::FirstPlayer => true,
        }
    }

    /// Corn surcharge for the space itself.
    pub fn space_cost(self) -> (n: u8)
        ensures
            n == self.cost(),
    {
        match self {
            Placement::Gear(_, pos) => pos.0,
            Placement::FirstPlayer => 0,
        }
    }
}

/// Workers and where they are put, held inline up to six.
#[verifier::external_body]
pub struct Placements {
    inner: SmallVec<[(WorkerId, Placement); 6]>,
}

/// What a list of placements holds, in order.
pub uninterp spec fn placement_list(v: Placements) -> Seq<(WorkerId, Placement)>;

impl View for Placements {
    type V = Seq<(WorkerId, Placement)>;

    open spec fn view(&self) -> Seq<(WorkerId, Placement)> {
        placement_list(*self)
    }
}

impl Placements {
    /// `SmallVec::new`: the empty list.
    #[verifier::external_body]
    pub(crate) fn new() -> (v: Placements)
        ensures
            placement_list(v).len() == 0,
    {
        Placements { inner: SmallVec::new() }
    }

    /// `SmallVec::len`: how many placements the list holds.
    #[verifier::external_body]
    pub(crate) fn len(&self) -> (n: usize)
        ensures
            n == placement_list(*self).len(),
    {
        self.inner.len()
    }

    /// `SmallVec::push`: the list with one more placement at its end.
    #[verifier::external_body]
    pub(crate) fn push(&mut self, e: (WorkerId, Placement))
        ensures
            placement_list(*final(self)) == placement_list(*old(self)).push(e),
    {
        self.inner.push(e);
    }

    /// Indexing a `SmallVec`: the placement at position `i`.
    #[verifier::external_body]
    pub(crate) fn at(&self, i: usize) -> (e: (WorkerId, Placement))
        requires
            i < placement_list(*self).len(),
        ensures
            e == placement_list(*self)[i as int],
    {
        self.inner[i]
    }

    /// The same placements as a list of their own.
    fn copy(&self) -> (v: Placements)
        ensures
            v@ == self@,
    {
        let mut v = Placements::new();
        let n: usize = self.len();
        let mut i: usize = 0;
        assert(v@ =~= self@.take(0));
        while i < n
            invariant
                i <= n,
                n == self@.len(),
                v@ == self@.take(i as int),
            decreases n - i,
        {
            v.push(self.at(i));
            i += 1;
            assert(v@ =~= self@.take(i as int));
        }
        assert(v@ =~= self@);
        v
    }
}

/// Workers picked up and what each does, held inline up to six.
#[verifier::external_body]
pub struct Retrievals {
    inner: SmallVec<[(WorkerId, Choice); 6]>,
}

/// What a list of retrievals holds, in order.
pub uninterp spec fn retrieval_list(v: Retrievals) -> Seq<(WorkerId, Choice)>;

impl View for Retrievals {
    type V = Seq<(WorkerId, Seq<Effect>)>;

    open spec fn view(&self) -> Seq<(WorkerId, Seq<Effect>)> {
        Seq::new(
            retrieval_list(*self).len(),
            |i: int| (retrieval_list(*self)[i].0, retrieval_list(*self)[i].1@),
        )
    }
}

impl Retrievals {
    /// `SmallVec::new`: the empty list.
    #[verifier::external_body]
    pub(crate) fn new() -> (v: Retrievals)
        ensures
            retrieval_list(v).len() == 0,
    {
        Retrievals { inner: SmallVec::new() }
    }

    /// `SmallVec::len`: how many retrievals the list holds.
    #[verifier::external_body]
    pub(crate) fn len(&self) -> (n: usize)
        ensures
            n == retrieval_list(*self).len(),
    {
        self.inner.len()
    }

    /// `SmallVec::push`: the list with one more retrieval at its end.
    #[verifier::external_body]
    pub(crate) fn push(&mut self, e: (WorkerId, Choice))
        ensures
            retrieval_list(*final(self)) == retrieval_list(*old(self)).push(e),
    {
        self.inner.push(e);
    }

    /// Indexing a `SmallVec`: the retrieval at position `i`.
    #[verifier::external_body]
    pub(crate) fn at(&self, i: usize) -> (e: &(WorkerId, Choice))
        requires
            i < retrieval_list(*self).len(),
        ensures
            *e == retrieval_list(*self)[i as int],
    {
        &self.inner[i]
    }

    /// Add a worker picked up and what it does.
    pub(crate) fn add_one(&mut self, w: WorkerId, c: Choice)
        ensures
            final(self)@ == old(self)@.push((w, c@)),
    {
        let ghost was = self@;
        self.push((w, c));
        assert(self@.len() == was.len() + 1);
        assert forall|i: int| 0 <= i < was.len() implies self@[i] == was[i] by {}
        assert(self@ =~= was.push((w, c@)));
    }

    /// The same retrievals as a list of their own.
    fn copy(&self) -> (v: Retrievals)
        ensures
            v@ == self@,
    {
        let mut v = Retrievals::new();
        let n: usize = self.len();
        let mut i: usize = 0;
        assert(v@ =~= self@.take(0));
        while i < n
            invariant
                i <= n,
                n == self@.len(),
                v@ == self@.take(i as int),
            decreases n - i,
        {
            let e = self.at(i);
            v.add_one(e.0, e.1.clone());
            i += 1;
            assert(v@ =~= self@.take(i as int));
        }
        assert(v@ =~= self@);
        v
    }
}

/// What a move does with workers.
pub enum MoveKind {
    Place(Placements),
    Retrieve(Retrievals),
    /// "The gods take pity": with nothing else possible, a seat may place one
    /// worker on the cheapest space and give all its corn to the bank.
    Pity { worker: WorkerId, spot: Placement },
}

/// One turn.
pub struct Move {
    pub kind: MoveKind,
    /// Beg for corn first, at the cost of one step down a temple.
    pub beg: Option<Temple>,
    /// Corn paid to place. Costs carried inside choices are separate.
    pub corn_cost: u8,
}

/// What a kind of move amounts to.
pub enum Kind {
    Place(Seq<(WorkerId, Placement)>),
    Retrieve(Seq<(WorkerId, Seq<Effect>)>),
    Pity(WorkerId, Placement),
}

/// What a move amounts to.
pub struct Play {
    pub kind: Kind,
    pub beg: Option<Temple>,
    pub corn_cost: u8,
}

impl View for Move {
    type V = Play;

    open spec fn view(&self) -> Play {
        Play {
            kind: match self.kind {
                MoveKind::Place(v) => Kind::Place(v@),
                MoveKind::Retrieve(v) => Kind::Retrieve(v@),
                MoveKind::Pity { worker, spot } => Kind::Pity(worker, spot),
            },
            beg: self.beg,
            corn_cost: self.corn_cost,
        }
    }
}

impl Clone for Move {
    fn clone(&self) -> (m: Self)
        ensures
            m@ == self@,
    {
        Move {
            kind: match &self.kind {
                MoveKind::Place(v) => MoveKind::Place(v.copy()),
                MoveKind::Retrieve(v) => MoveKind::Retrieve(v.copy()),
                MoveKind::Pity { worker, spot } => MoveKind::Pity { worker: *worker, spot: *spot },
            },
            beg: self.beg,
            corn_cost: self.corn_cost,
        }
    }
}

impl Play {
    /// How many workers the move uses.
    pub open spec fn workers_used(self) -> nat {
        match self.kind {
            Kind::Place(v) => v.len(),
            Kind::Retrieve(v) => v.len(),
            Kind::Pity(_, _) => 1,
        }
    }
}

impl Move {
    /// How many workers the move uses.
    pub fn n_workers(&self) -> (n: usize)
        ensures
            n == self@.workers_used(),
    {
        match &self.kind {
            MoveKind::Place(v) => v.len(),
            MoveKind::Retrieve(v) => v.len(),
            MoveKind::Pity { .. } => 1,
        }
    }
}

/// What a list of moves amounts to.
pub open spec fn plays(v: Seq<Move>) -> Seq<Play> {
    Seq::new(v.len(), |i: int| v[i]@)
}

// ---- begging -------------------------------------------------------------

/// Begging on each temple the seat can fall on.
pub open spec fn begs(rules: Rulebook, g: GameState, p: PlayerId) -> spec_fn(int) -> Seq<
    Option<Temple>,
> {
    |i: int| only(can_step(rules, g, p, Temple::at(i), -1), Some(Temple::at(i)))
}

/// The ways to start a turn: without begging, and with fewer than three corn
/// by begging on any temple the seat can fall on.
pub open spec fn beg_list(rules: Rulebook, g: GameState, p: PlayerId) -> Seq<Option<Temple>> {
    seq![None::<Temple>] + if g.players[p.0 as int].corn < 3 {
        flat(3, begs(rules, g, p))
    } else {
        Seq::empty()
    }
}

/// Begging is available to a seat with fewer than three corn that still has
/// somewhere to fall on a temple.
pub fn beg_options(rules: &Rulebook, g: &GameState, p: PlayerId) -> (out: Vec<Option<Temple>>)
    requires
        p.ok(),
    ensures
        out@ == beg_list(*rules, *g, p),
{
    let mut out: Vec<Option<Temple>> = Vec::new();
    out.push(None);
    let ghost f = begs(*rules, *g, p);
    if g.players[p.idx()].corn < 3 {
        let mut i: usize = 0;
        assert(out@ =~= seq![None::<Temple>] + flat(0, f));
        while i < 3
            invariant
                i <= 3,
                p.ok(),
                f == begs(*rules, *g, p),
                out@ == seq![None::<Temple>] + flat(i as int, f),
            decreases 3 - i,
        {
            let ghost o1 = out@;
            let t = Temple::from_idx(i);
            if g.can_temple_step(rules, p, t, -1) {
                out.push(Some(t));
            }
            proof {
                assert(out@ =~= o1 + f(i as int));
                assert(out@ =~= seq![None::<Temple>] + flat(i + 1, f));
            }
            i += 1;
        }
    }
    assert(out@ =~= beg_list(*rules, *g, p));
    out
}

/// A position after a seat begs, or not.
pub open spec fn begged(rules: Rulebook, g: GameState, p: PlayerId, beg: Option<Temple>) -> GameState {
    match beg {
        Some(t) => {
            let pl = g.players[p.0 as int];
            temple_stepped(
                rules,
                set_player(g, p, Player { corn: 3, ..pl }),
                p,
                t,
                -1,
            )
        },
        None => g,
    }
}

/// Beg, or not.
pub(crate) fn do_beg(rules: &Rulebook, g: &mut GameState, p: PlayerId, beg: Option<Temple>)
    requires
        p.ok(),
    ensures
        *final(g) == begged(*rules, *old(g), p, beg),
{
    if let Some(t) = beg {
        g.players[p.idx()].corn = 3;
        proof {
            let pl = old(g).players[p.0 as int];
            assert(g.players =~= set_player(*old(g), p, Player { corn: 3, ..pl }).players);
        }
        g.temple_step(rules, p, t, -1);
    }
}

// ---- placement -----------------------------------------------------------

/// The lowest free space of each gear.
pub open spec fn gear_spots(g: GameState) -> spec_fn(int) -> Seq<Placement> {
    |i: int|
        match lowest_free_space(g, Gear::at(i)) {
            Some(pos) => seq![Placement::Gear(Gear::at(i), pos)],
            None => Seq::empty(),
        }
}

/// Where a worker may be put: the lowest free space of each gear, and the
/// first player space while nobody holds it.
pub open spec fn spots_list(g: GameState) -> Seq<Placement> {
    flat(5, gear_spots(g)) + only(g.first_player_space is None, Placement::FirstPlayer)
}

/// Where a worker may be put.
pub(crate) fn open_spots(g: &GameState) -> (out: Vec<Placement>)
    ensures
        out@ == spots_list(*g),
        forall|i: int| 0 <= i < out@.len() ==> (#[trigger] out@[i]).ok(),
{
    let mut out: Vec<Placement> = Vec::new();
    let ghost f = gear_spots(*g);
    let mut i: usize = 0;
    assert(out@ =~= flat(0, f));
    while i < 5
        invariant
            i <= 5,
            f == gear_spots(*g),
            out@ == flat(i as int, f),
            forall|k: int| 0 <= k < out@.len() ==> (#[trigger] out@[k]).ok(),
        decreases 5 - i,
    {
        let ghost o1 = out@;
        let gear = Gear::from_idx(i);
        if let Some(pos) = g.lowest_free(gear) {
            out.push(Placement::Gear(gear, pos));
        }
        assert(out@ =~= o1 + f(i as int));
        i += 1;
    }
    if g.first_player_space.is_none() {
        out.push(Placement::FirstPlayer);
    }
    assert(out@ =~= spots_list(*g));
    out
}

/// A position after a worker is put somewhere.
pub open spec fn put_at(g: GameState, w: WorkerId, spot: Placement) -> GameState {
    match spot {
        Placement::Gear(gear, pos) => placed(g, w, gear, pos),
        Placement::FirstPlayer => placed_first(g, w),
    }
}

/// Put a worker somewhere.
pub(crate) fn put_worker(g: &mut GameState, w: WorkerId, spot: Placement)
    requires
        w.ok(),
        spot.ok(),
    ensures
        *final(g) == put_at(*old(g), w, spot),
        old(g).ok() ==> final(g).ok(),
{
    match spot {
        Placement::Gear(gear, pos) => g.place_worker(w, gear, pos),
        Placement::FirstPlayer => g.place_on_first_player(w),
    }
    proof {
        if old(g).ok() {
            assert forall|i: int| 0 <= i < 24 implies (#[trigger] g.workers[i]).ok() by {
                assert(old(g).workers[i].ok());
            }
        }
    }
}

/// Every way to go on placing workers once `cur` has been placed at a cost of
/// `cost`. The nth worker of a turn costs n extra corn on top of its space.
pub open spec fn place_list(
    g: GameState,
    avail: Seq<WorkerId>,
    cost: int,
    budget: int,
    beg: Option<Temple>,
    cur: Seq<(WorkerId, Placement)>,
) -> Seq<Play>
    decreases avail.len() - cur.len(), 1int,
{
    only(
        cur.len() > 0,
        Play { kind: Kind::Place(cur), beg, corn_cost: cost as u8 },
    ) + if cur.len() >= avail.len() {
        Seq::empty()
    } else {
        flat(spots_list(g).len() as int, place_each(g, avail, cost, budget, beg, cur))
    }
}

/// The same ways to go on, by where the next worker goes.
pub open spec fn place_each(
    g: GameState,
    avail: Seq<WorkerId>,
    cost: int,
    budget: int,
    beg: Option<Temple>,
    cur: Seq<(WorkerId, Placement)>,
) -> spec_fn(int) -> Seq<Play>
    decreases avail.len() - cur.len(), 0int,
    when cur.len() < avail.len()
{
    |i: int|
        {
            let spot = spots_list(g)[i];
            let w = avail[cur.len() as int];
            let step = cur.len() + spot.cost();
            if cost + step > budget {
                Seq::empty()
            } else {
                place_list(
                    put_at(g, w, spot),
                    avail,
                    cost + step,
                    budget,
                    beg,
                    cur.push((w, spot)),
                )
            }
        }
}

// ---- walking -------------------------------------------------------------

/// Moves found so far, and the most that are wanted.
struct Tour {
    out: Vec<Move>,
    max: Option<usize>,
}

/// Whether there is room for another move.
spec fn has_room(n: nat, max: Option<usize>) -> bool {
    max matches Some(m) ==> n < m
}

/// How a stretch of a walk that offers `add` turns one list of moves into
/// another: it adds all of it and leaves room, or stops when the list is full.
spec fn carried(
    from: Seq<Play>,
    add: Seq<Play>,
    to: Seq<Play>,
    max: Option<usize>,
    stop: bool,
) -> bool {
    &&& !stop ==> to == from + add && has_room(to.len(), max)
    &&& stop ==> {
        &&& max is Some
        &&& max->0 <= from.len() + add.len()
        &&& to == (from + add).take(max->0 as int)
    }
}

/// Two stretches of a walk, one after the other.
proof fn lemma_carried(
    a: Seq<Play>,
    x: Seq<Play>,
    b: Seq<Play>,
    y: Seq<Play>,
    c: Seq<Play>,
    max: Option<usize>,
    stop: bool,
)
    requires
        carried(a, x, b, max, false),
        carried(b, y, c, max, stop),
    ensures
        carried(a, x + y, c, max, stop),
{
    assert(a + (x + y) =~= (a + x) + y);
}

/// A walk that stops early stops whatever would have come after.
proof fn lemma_carried_stop(
    a: Seq<Play>,
    x: Seq<Play>,
    b: Seq<Play>,
    y: Seq<Play>,
    max: Option<usize>,
)
    requires
        carried(a, x, b, max, true),
    ensures
        carried(a, x + y, b, max, true),
{
    let m = max->0 as int;
    assert((a + (x + y)).take(m) =~= (a + x).take(m));
}

impl Tour {
    /// Add a move; whether the list is now full.
    fn emit(&mut self, m: Move) -> (stop: bool)
        requires
            has_room(old(self).out@.len(), old(self).max),
        ensures
            final(self).max == old(self).max,
            carried(plays(old(self).out@), seq![m@], plays(final(self).out@), old(self).max, stop),
    {
        let ghost was = plays(self.out@);
        let ghost play = m@;
        self.out.push(m);
        assert(plays(self.out@) =~= was + seq![play]);
        match self.max {
            Some(max) => {
                if self.out.len() >= max {
                    assert(plays(self.out@) =~= (was + seq![play]).take(max as int));
                    true
                } else {
                    false
                }
            },
            None => false,
        }
    }
}

/// Walk every way to go on placing workers; whether the list is now full.
fn place_rec(
    g: &GameState,
    avail: &Vec<WorkerId>,
    cost: u8,
    budget: u8,
    beg: Option<Temple>,
    cur: &Placements,
    v: &mut Tour,
) -> (stop: bool)
    requires
        g.ok(),
        avail@.len() <= 6,
        forall|i: int| 0 <= i < avail@.len() ==> (#[trigger] avail@[i]).ok(),
        cur@.len() <= avail@.len(),
        cost <= budget,
        cost <= 16 * cur@.len(),
        has_room(old(v).out@.len(), old(v).max),
    ensures
        final(v).max == old(v).max,
        carried(
            plays(old(v).out@),
            place_list(*g, avail@, cost as int, budget as int, beg, cur@),
            plays(final(v).out@),
            old(v).max,
            stop,
        ),
    decreases avail@.len() - cur@.len(),
{
    let depth: usize = cur.len();
    let ghost start = plays(v.out@);
    let ghost max = v.max;
    let ghost f = place_each(*g, avail@, cost as int, budget as int, beg, cur@);
    let ghost head = only(
        cur@.len() > 0,
        Play { kind: Kind::Place(cur@), beg, corn_cost: cost },
    );
    let ghost rest = if cur@.len() >= avail@.len() {
        Seq::empty()
    } else {
        flat(spots_list(*g).len() as int, f)
    };
    if depth > 0 {
        let stop = v.emit(Move { kind: MoveKind::Place(cur.copy()), beg, corn_cost: cost });
        if stop {
            proof {
                lemma_carried_stop(start, head, plays(v.out@), rest, max);
            }
            return true;
        }
    }
    assert(carried(start, head, plays(v.out@), max, false)) by {
        if depth == 0 {
            assert(start + head =~= start);
        }
    }
    if depth == avail.len() {
        assert(head + rest =~= head);
        return false;
    }
    let w = avail[depth];
    let spots = open_spots(g);
    let mut i: usize = 0;
    assert(head + flat(0, f) =~= head);
    while i < spots.len()
        invariant
            i <= spots@.len(),
            depth < avail@.len(),
            depth == cur@.len(),
            avail@.len() <= 6,
            forall|i: int| 0 <= i < avail@.len() ==> (#[trigger] avail@[i]).ok(),
            g.ok(),
            w == avail@[depth as int],
            cost <= budget,
            cost <= 16 * depth,
            spots@ == spots_list(*g),
            forall|i: int| 0 <= i < spots@.len() ==> (#[trigger] spots@[i]).ok(),
            f == place_each(*g, avail@, cost as int, budget as int, beg, cur@),
            rest == flat(spots@.len() as int, f),
            v.max == max,
            carried(start, head + flat(i as int, f), plays(v.out@), max, false),
            place_list(*g, avail@, cost as int, budget as int, beg, cur@) == head + rest,
            start == plays(old(v).out@),
            max == old(v).max,
        decreases spots@.len() - i,
    {
        let spot = spots[i];
        let step: u8 = depth as u8 + spot.space_cost();
        let ghost before = plays(v.out@);
        let ghost so_far = head + flat(i as int, f);
        let mut stop = false;
        if cost + step <= budget {
            let mut next = *g;
            put_worker(&mut next, w, spot);
            let mut more = cur.copy();
            more.push((w, spot));
            stop = place_rec(&next, avail, cost + step, budget, beg, &more, v);
        }
        proof {
            if cost + step > budget {
                assert(f(i as int) =~= Seq::empty());
                assert(before + f(i as int) =~= before);
            }
            assert(carried(before, f(i as int), plays(v.out@), max, stop));
            lemma_carried(start, so_far, before, f(i as int), plays(v.out@), max, stop);
            assert(so_far + f(i as int) =~= head + flat(i + 1, f));
        }
        if stop {
            proof {
                lemma_flat_split(f, i + 1, spots@.len() as int);
                let tail = flat_from(f, i + 1, spots@.len() as int);
                lemma_carried_stop(start, head + flat(i + 1, f), plays(v.out@), tail, max);
                assert((head + flat(i + 1, f)) + tail =~= head + rest);
            }
            return true;
        }
        i += 1;
    }
    false
}

/// The lists `f(k)` up to `f(n - 1)`, one behind another.
spec fn flat_from<A>(f: spec_fn(int) -> Seq<A>, k: int, n: int) -> Seq<A>
    decreases n - k,
{
    if k >= n {
        Seq::empty()
    } else {
        flat_from(f, k, n - 1) + f(n - 1)
    }
}

/// A concatenation splits at any place.
proof fn lemma_flat_split<A>(f: spec_fn(int) -> Seq<A>, k: int, n: int)
    requires
        0 <= k <= n,
    ensures
        flat(n, f) == flat(k, f) + flat_from(f, k, n),
    decreases n - k,
{
    if k < n {
        lemma_flat_split(f, k, n - 1);
        assert(flat(n, f) =~= flat(k, f) + flat_from(f, k, n));
    } else {
        assert(flat(n, f) =~= flat(k, f) + flat_from(f, k, n));
    }
}

/// The workers a filter finds are workers, at most one for each looked at.
pub(crate) proof fn lemma_workers_where(
    g: GameState,
    p: PlayerId,
    f: spec_fn(WorkerLoc) -> bool,
    k: nat,
)
    requires
        p.ok(),
        k <= 6,
    ensures
        workers_where(g, p, f, k).len() <= k,
        forall|i: int|
            0 <= i < workers_where(g, p, f, k).len() ==> (#[trigger] workers_where(
                g,
                p,
                f,
                k,
            )[i]).ok(),
        forall|i: int|
            0 <= i < workers_where(g, p, f, k).len() ==> f(
                g.workers[(#[trigger] workers_where(g, p, f, k)[i]).0 as int],
            ),
        forall|i: int|
            0 <= i < workers_where(g, p, f, k).len() ==> 6 * p.0 <= (#[trigger] workers_where(
                g,
                p,
                f,
                k,
            )[i]).0 < 6 * p.0 + k,
    decreases k,
{
    if k > 0 {
        lemma_workers_where(g, p, f, (k - 1) as nat);
    }
}

// ---- retrieval -----------------------------------------------------------

/// A position with some corn already paid.
pub open spec fn corn_paid(g: GameState, p: PlayerId, fee: int) -> GameState {
    let pl = g.players[p.0 as int];
    set_player(g, p, Player { corn: (pl.corn - fee) as u8, ..pl })
}

/// What a worker may do on each space from the entry up to its own, paying one
/// corn for each space it steps down. The action is generated against the
/// position with the fee paid, so it cannot spend corn the fee consumed.
pub open spec fn stepping_down(
    rules: Rulebook,
    g: GameState,
    p: PlayerId,
    gear: Gear,
    pos: int,
) -> spec_fn(int) -> Seq<Seq<Effect>> {
    |j: int|
        {
            let fee = pos - j;
            if fee > g.players[p.0 as int].corn {
                Seq::empty()
            } else if fee == 0 {
                raw_list(rules, g, p, gear, pos)
            } else {
                each_after(
                    seq![Effect::Corn((-fee) as i16)],
                    acting(raw_list(rules, corn_paid(g, p, fee), p, gear, j)),
                )
            }
        }
}

/// Everything a worker may do when it is picked up, before pruning: nothing,
/// the action of its own space, or that of a lower one for a corn a space. A
/// free-choice space already gives away what is below it.
pub open spec fn worker_raw(
    rules: Rulebook,
    g: GameState,
    p: PlayerId,
    gear: Gear,
    pos: int,
) -> Seq<Seq<Effect>> {
    seq![Seq::<Effect>::empty()] + if free_choice(gear, pos) {
        raw_list(rules, g, p, gear, pos)
    } else {
        flat(pos + 1, stepping_down(rules, g, p, gear, pos))
    }
}

/// Everything a worker may do when it is picked up.
pub open spec fn worker_list(
    rules: Rulebook,
    g: GameState,
    p: PlayerId,
    gear: Gear,
    pos: int,
) -> Seq<Seq<Effect>> {
    undominated(worker_raw(rules, g, p, gear, pos), rules.prune)
}

/// Picking a worker up and doing nothing is always an option.
pub proof fn doing_nothing_is_always_an_option(
    rules: Rulebook,
    g: GameState,
    p: PlayerId,
    gear: Gear,
    pos: int,
)
    ensures
        worker_list(rules, g, p, gear, pos).contains(Seq::<Effect>::empty()),
{
    let s = worker_raw(rules, g, p, gear, pos);
    assert(s[0] == Seq::<Effect>::empty());
    pruning_keeps_the_skip(s, rules.prune);
}

/// The choices of a list that do something, each behind a fee.
fn behind_fee(fee: u8, v: &Vec<Choice>) -> (out: Vec<Choice>)
    requires
        all_ok(views(v@)),
    ensures
        views(out@) == each_after(seq![Effect::Corn((-(fee as int)) as i16)], acting(views(v@))),
        all_ok(views(out@)),
{
    let ghost s = views(v@);
    let head = Choice::one(Effect::Corn(-(fee as i16)));
    let mut out: Vec<Choice> = Vec::new();
    let mut i: usize = 0;
    assert(views(out@) =~= each_after(head@, acting(s.take(0))));
    while i < v.len()
        invariant
            i <= v@.len(),
            s == views(v@),
            all_ok(s),
            head@ == seq![Effect::Corn((-(fee as int)) as i16)],
            views(out@) == each_after(head@, acting(s.take(i as int))),
            all_ok(views(out@)),
        decreases v@.len() - i,
    {
        proof {
            assert(effects_ok(s[i as int]));
            assert(s.take(i + 1).drop_last() =~= s.take(i as int));
        }
        if !v[i].is_skip() {
            put(&mut out, head.clone().chain(&v[i]));
        }
        i += 1;
        assert(views(out@) =~= each_after(head@, acting(s.take(i as int))));
    }
    assert(s.take(i as int) =~= s);
    out
}

/// Everything a worker on a space may do when it is picked up.
///
/// A worker may take the action of its own space or of any lower space on the
/// same gear, paying one corn for each space it steps down. Paying corn to
/// reach a space that does nothing is beaten by doing nothing for free.
pub fn choices_for_worker(
    rules: &Rulebook,
    g: &GameState,
    p: PlayerId,
    gear: Gear,
    pos: Pos,
) -> (out: Vec<Choice>)
    requires
        p.ok(),
        rules.ok(),
        g.ok(),
    ensures
        views(out@) == worker_list(*rules, *g, p, gear, pos.0 as int),
        all_ok(views(out@)),
{
    let mut out = just(Choice::skip());
    let ghost first = seq![Seq::<Effect>::empty()];
    if is_free_choice(gear, pos) {
        let own = raw_at(rules, g, p, gear, pos);
        put_all(&mut out, &own);
    } else {
        let corn: u8 = g.players[p.idx()].corn;
        let ghost f = stepping_down(*rules, *g, p, gear, pos.0 as int);
        let mut j: u8 = 0;
        assert(views(out@) =~= first + flat(0, f));
        while j <= pos.0
            invariant
                j <= pos.0 + 1,
                pos.0 < 10,
                p.ok(),
                rules.ok(),
                g.ok(),
                corn == g.players[p.0 as int].corn,
                f == stepping_down(*rules, *g, p, gear, pos.0 as int),
                views(out@) == first + flat(j as int, f),
                all_ok(views(out@)),
            decreases pos.0 + 1 - j,
        {
            let ghost o1 = views(out@);
            let fee: u8 = pos.0 - j;
            if fee == 0 {
                let own = raw_at(rules, g, p, gear, pos);
                put_all(&mut out, &own);
            } else if fee <= corn {
                let mut probe = *g;
                probe.players[p.idx()].corn = corn - fee;
                proof {
                    assert(probe.players =~= corn_paid(*g, p, fee as int).players);
                    assert(probe == corn_paid(*g, p, fee as int));
                    assert(probe.ok());
                }
                let lower = raw_at(rules, &probe, p, gear, Pos(j));
                let paid = behind_fee(fee, &lower);
                put_all(&mut out, &paid);
            }
            proof {
                assert(views(out@) =~= o1 + f(j as int));
                assert(views(out@) =~= first + flat(j + 1, f));
            }
            j += 1;
        }
    }
    proof {
        assert(views(out@) =~= worker_raw(*rules, *g, p, gear, pos.0 as int));
        lemma_undominated_ok(views(out@), rules.prune);
    }
    dominated_dedup(rules.prune, out)
}

/// Whether every worker of a list is a worker.
pub open spec fn workers_ok(board: Seq<WorkerId>) -> bool {
    forall|i: int| 0 <= i < board.len() ==> (#[trigger] board[i]).ok()
}

/// How many workers of a list stand on a gear.
pub open spec fn load(g: GameState, board: Seq<WorkerId>) -> nat
    decreases board.len(),
{
    if board.len() == 0 {
        0
    } else {
        load(g, board.drop_last()) + if g.workers[board.last().0 as int] is OnGear {
            1nat
        } else {
            0
        }
    }
}

/// Effects move no worker on or off a gear.
pub proof fn effects_leave_the_gears_alone(
    rules: Rulebook,
    g: GameState,
    p: PlayerId,
    s: Seq<Effect>,
    i: int,
)
    requires
        p.ok(),
        0 <= i < 24,
    ensures
        after_all(rules, g, p, s).workers[i] is OnGear <==> g.workers[i] is OnGear,
        g.workers[i] is OnGear ==> after_all(rules, g, p, s).workers[i] == g.workers[i],
    decreases s.len(),
{
    if s.len() > 0 {
        effects_leave_the_gears_alone(rules, g, p, s.drop_last(), i);
        let h = after_all(rules, g, p, s.drop_last());
        reveal(after);
        lemma_unlock_index(h, p, 0);
    }
}

/// The worker that unlocking finds is a locked one.
proof fn lemma_unlock_index(g: GameState, p: PlayerId, k: int)
    requires
        p.ok(),
        0 <= k,
    ensures
        locked_from(g, p, k) matches Some(w) ==> 0 <= w < 24 && g.workers[w] == WorkerLoc::Locked,
    decreases 6 - k,
{
    if k < 6 {
        lemma_unlock_index(g, p, k + 1);
    }
}

/// Picking a worker up leaves fewer on the gears, whatever it does.
pub proof fn picking_up_lightens_the_gears(
    rules: Rulebook,
    g: GameState,
    p: PlayerId,
    s: Seq<Effect>,
    board: Seq<WorkerId>,
    k: int,
)
    requires
        p.ok(),
        workers_ok(board),
        0 <= k < board.len(),
        g.workers[board[k].0 as int] is OnGear,
    ensures
        load(retrieved(after_all(rules, g, p, s), board[k]), board) < load(g, board),
{
    lemma_load_part(rules, g, p, s, board, board[k], board.len() as int);
    lemma_load_has(g, board, k);
}

/// A worker on a gear counts.
proof fn lemma_load_has(g: GameState, board: Seq<WorkerId>, k: int)
    requires
        0 <= k < board.len(),
        g.workers[board[k].0 as int] is OnGear,
    ensures
        load(g, board) > 0,
    decreases board.len(),
{
    if k < board.len() - 1 {
        assert(board.drop_last()[k] == board[k]);
        lemma_load_has(g, board.drop_last(), k);
    }
}

/// What picking one worker up does to the count over the first `n`.
proof fn lemma_load_part(
    rules: Rulebook,
    g: GameState,
    p: PlayerId,
    s: Seq<Effect>,
    board: Seq<WorkerId>,
    w: WorkerId,
    n: int,
)
    requires
        p.ok(),
        workers_ok(board),
        w.ok(),
        0 <= n <= board.len(),
        g.workers[w.0 as int] is OnGear,
    ensures
        load(retrieved(after_all(rules, g, p, s), w), board.take(n)) <= load(g, board.take(n)),
        board.take(n).contains(w) ==> load(
            retrieved(after_all(rules, g, p, s), w),
            board.take(n),
        ) < load(g, board.take(n)),
        board.take(board.len() as int) == board,
        n == board.len() && board.contains(w) ==> load(
            retrieved(after_all(rules, g, p, s), w),
            board,
        ) < load(g, board),
    decreases n,
{
    assert(board.take(board.len() as int) =~= board);
    if n > 0 {
        lemma_load_part(rules, g, p, s, board, w, n - 1);
        let part = board.take(n);
        assert(part.drop_last() =~= board.take(n - 1));
        let last = board[n - 1];
        assert(last.ok());
        effects_leave_the_gears_alone(rules, g, p, s, last.0 as int);
        effects_leave_the_gears_alone(rules, g, p, s, w.0 as int);
        if part.contains(w) && last != w {
            let k = part.index_of(w);
            assert(board.take(n - 1)[k] == w);
        }
    }
}

/// Every move of a retrieval walk from a position, in order, and the positions
/// reached by its end. A position already reached has had everything beyond it
/// walked, so it is never walked twice.
pub open spec fn retrieve_walk(
    rules: Rulebook,
    g: GameState,
    p: PlayerId,
    board: Seq<WorkerId>,
    cur: Seq<(WorkerId, Seq<Effect>)>,
    beg: Option<Temple>,
    reached: Set<GameState>,
) -> (Seq<Play>, Set<GameState>)
    decreases load(g, board), 2 * board.len() + 2, 0int,
    when p.ok() && workers_ok(board)
{
    if cur.len() > 0 && reached.contains(g) {
        (Seq::empty(), reached)
    } else {
        let head = only(cur.len() > 0, Play { kind: Kind::Retrieve(cur), beg, corn_cost: 0 });
        let from = if cur.len() > 0 {
            reached.insert(g)
        } else {
            reached
        };
        let (found, to) = retrieve_over(rules, g, p, board, cur, beg, from, board.len());
        (head + found, to)
    }
}

/// The part of such a walk that picks up one of the first `k` workers next.
pub open spec fn retrieve_over(
    rules: Rulebook,
    g: GameState,
    p: PlayerId,
    board: Seq<WorkerId>,
    cur: Seq<(WorkerId, Seq<Effect>)>,
    beg: Option<Temple>,
    reached: Set<GameState>,
    k: nat,
) -> (Seq<Play>, Set<GameState>)
    decreases load(g, board), 2 * k + 1, 0int,
    when p.ok() && workers_ok(board) && k <= board.len()
{
    if k == 0 {
        (Seq::empty(), reached)
    } else {
        let (found, mid) = retrieve_over(
            rules,
            g,
            p,
            board,
            cur,
            beg,
            reached,
            (k - 1) as nat,
        );
        match g.workers[board[k - 1].0 as int].space() {
            Some((gear, pos)) => {
                let n = worker_list(rules, g, p, gear, pos.0 as int).len();
                let (more, to) = retrieve_taking(
                    rules,
                    g,
                    p,
                    board,
                    cur,
                    beg,
                    mid,
                    (k - 1) as nat,
                    n,
                );
                (found + more, to)
            },
            None => (found, mid),
        }
    }
}

/// The part of such a walk that picks up worker `k` next and takes one of the
/// first `c` things it may do.
pub open spec fn retrieve_taking(
    rules: Rulebook,
    g: GameState,
    p: PlayerId,
    board: Seq<WorkerId>,
    cur: Seq<(WorkerId, Seq<Effect>)>,
    beg: Option<Temple>,
    reached: Set<GameState>,
    k: nat,
    c: nat,
) -> (Seq<Play>, Set<GameState>)
    decreases load(g, board), 2 * k + 2, c,
    when p.ok() && workers_ok(board) && k < board.len() && g.workers[board[k as int].0 as int] is OnGear
{
    if c == 0 {
        (Seq::empty(), reached)
    } else {
        let (found, mid) = retrieve_taking(
            rules,
            g,
            p,
            board,
            cur,
            beg,
            reached,
            k,
            (c - 1) as nat,
        );
        let w = board[k as int];
        let at = g.workers[w.0 as int].space()->Some_0;
        let choice = worker_list(rules, g, p, at.0, (at.1).0 as int)[c - 1];
        proof {
            picking_up_lightens_the_gears(rules, g, p, choice, board, k as int);
        }
        let (more, to) = retrieve_walk(
            rules,
            retrieved(after_all(rules, g, p, choice), w),
            p,
            board,
            cur.push((w, choice)),
            beg,
            mid,
        );
        (found + more, to)
    }
}

/// Whether one list of moves begins another.
spec fn begins(a: Seq<Play>, b: Seq<Play>) -> bool {
    a.len() <= b.len() && b.take(a.len() as int) == a
}

/// A walk that stops early stops on everything it is the beginning of.
proof fn lemma_carried_begins(
    a: Seq<Play>,
    x: Seq<Play>,
    b: Seq<Play>,
    z: Seq<Play>,
    max: Option<usize>,
)
    requires
        carried(a, x, b, max, true),
        begins(x, z),
    ensures
        carried(a, z, b, max, true),
{
    let tail = z.skip(x.len() as int);
    assert(z =~= x + tail);
    lemma_carried_stop(a, x, b, tail, max);
}

/// The workers walked first are the beginning of the whole.
proof fn lemma_over_begins(
    rules: Rulebook,
    g: GameState,
    p: PlayerId,
    board: Seq<WorkerId>,
    cur: Seq<(WorkerId, Seq<Effect>)>,
    beg: Option<Temple>,
    reached: Set<GameState>,
    k: nat,
    n: nat,
)
    requires
        p.ok(),
        workers_ok(board),
        k <= n <= board.len(),
    ensures
        begins(
            retrieve_over(rules, g, p, board, cur, beg, reached, k).0,
            retrieve_over(rules, g, p, board, cur, beg, reached, n).0,
        ),
    decreases n - k,
{
    let a = retrieve_over(rules, g, p, board, cur, beg, reached, k).0;
    if k < n {
        lemma_over_begins(rules, g, p, board, cur, beg, reached, k, (n - 1) as nat);
        let m = retrieve_over(rules, g, p, board, cur, beg, reached, (n - 1) as nat).0;
        let z = retrieve_over(rules, g, p, board, cur, beg, reached, n).0;
        assert(begins(m, z)) by {
            assert(z.take(m.len() as int) =~= m);
        }
        assert(z.take(a.len() as int) =~= m.take(a.len() as int));
    } else {
        assert(a.take(a.len() as int) =~= a);
    }
}

/// The choices walked first are the beginning of the whole.
proof fn lemma_taking_begins(
    rules: Rulebook,
    g: GameState,
    p: PlayerId,
    board: Seq<WorkerId>,
    cur: Seq<(WorkerId, Seq<Effect>)>,
    beg: Option<Temple>,
    reached: Set<GameState>,
    k: nat,
    c: nat,
    n: nat,
)
    requires
        p.ok(),
        workers_ok(board),
        k < board.len(),
        g.workers[board[k as int].0 as int] is OnGear,
        c <= n,
    ensures
        begins(
            retrieve_taking(rules, g, p, board, cur, beg, reached, k, c).0,
            retrieve_taking(rules, g, p, board, cur, beg, reached, k, n).0,
        ),
    decreases n - c,
{
    let a = retrieve_taking(rules, g, p, board, cur, beg, reached, k, c).0;
    if c < n {
        lemma_taking_begins(rules, g, p, board, cur, beg, reached, k, c, (n - 1) as nat);
        let m = retrieve_taking(rules, g, p, board, cur, beg, reached, k, (n - 1) as nat).0;
        let z = retrieve_taking(rules, g, p, board, cur, beg, reached, k, n).0;
        assert(begins(m, z)) by {
            assert(z.take(m.len() as int) =~= m);
        }
        assert(z.take(a.len() as int) =~= m.take(a.len() as int));
    } else {
        assert(a.take(a.len() as int) =~= a);
    }
}

/// Picking a worker up leaves a sound position sound.
pub(crate) proof fn lemma_retrieved_ok(rules: Rulebook, g: GameState, p: PlayerId, s: Seq<Effect>, w: WorkerId)
    requires
        g.ok(),
        p.ok(),
        w.ok(),
        effects_ok(s),
    ensures
        after_all(rules, g, p, s).ok(),
        retrieved(after_all(rules, g, p, s), w).ok(),
{
    choices_keep_positions_sound(rules, g, p, s);
    let a = after_all(rules, g, p, s);
    let h = retrieved(a, w);
    assert forall|i: int| 0 <= i < 24 implies (#[trigger] h.workers[i]).ok() by {
        assert(a.workers[i].ok());
    }
    assert(h.buildings_up == a.buildings_up);
    assert(h.monuments_up == a.monuments_up);
}

/// Walk every retrieval from a position; whether the list is now full.
fn retrieve_rec(
    rules: &Rulebook,
    g: &GameState,
    p: PlayerId,
    board: &Vec<WorkerId>,
    cur: &Retrievals,
    beg: Option<Temple>,
    v: &mut Tour,
    reached: &mut Positions,
) -> (stop: bool)
    requires
        p.ok(),
        rules.ok(),
        g.ok(),
        workers_ok(board@),
        has_room(old(v).out@.len(), old(v).max),
        old(reached).ok(),
    ensures
        final(reached).ok(),
        final(v).max == old(v).max,
        carried(
            plays(old(v).out@),
            retrieve_walk(*rules, *g, p, board@, cur@, beg, old(reached)@).0,
            plays(final(v).out@),
            old(v).max,
            stop,
        ),
        !stop ==> final(reached)@ == retrieve_walk(
            *rules,
            *g,
            p,
            board@,
            cur@,
            beg,
            old(reached)@,
        ).1,
    decreases load(*g, board@), 1int,
{
    let ghost start = plays(v.out@);
    let ghost max = v.max;
    let ghost r_in = reached@;
    let ghost whole = retrieve_walk(*rules, *g, p, board@, cur@, beg, r_in);
    let ghost head = only(
        cur@.len() > 0,
        Play { kind: Kind::Retrieve(cur@), beg, corn_cost: 0 },
    );
    if cur.len() > 0 {
        if !reached.insert(*g) {
            assert(start + whole.0 =~= start);
            assert(reached@ =~= r_in);
            return false;
        }
        let stop = v.emit(Move { kind: MoveKind::Retrieve(cur.copy()), beg, corn_cost: 0 });
        if stop {
            proof {
                assert(head =~= seq![Play { kind: Kind::Retrieve(cur@), beg, corn_cost: 0 }]);
                assert(begins(head, whole.0)) by {
                    assert(whole.0.take(head.len() as int) =~= head);
                }
                lemma_carried_begins(start, head, plays(v.out@), whole.0, max);
            }
            return true;
        }
    }
    let ghost from = reached@;
    assert(carried(start, head, plays(v.out@), max, false)) by {
        if cur@.len() == 0 {
            assert(start + head =~= start);
        }
    }
    let mut k: usize = 0;
    assert(head + retrieve_over(*rules, *g, p, board@, cur@, beg, from, 0).0 =~= head);
    while k < board.len()
        invariant
            k <= board@.len(),
            p.ok(),
            rules.ok(),
            g.ok(),
            workers_ok(board@),
            v.max == max,
            max == old(v).max,
            start == plays(old(v).out@),
            r_in == old(reached)@,
            whole == retrieve_walk(*rules, *g, p, board@, cur@, beg, r_in),
            whole.0 == head + retrieve_over(
                *rules,
                *g,
                p,
                board@,
                cur@,
                beg,
                from,
                board@.len(),
            ).0,
            whole.1 == retrieve_over(*rules, *g, p, board@, cur@, beg, from, board@.len()).1,
            reached.ok(),
            reached@ == retrieve_over(*rules, *g, p, board@, cur@, beg, from, k as nat).1,
            carried(
                start,
                head + retrieve_over(*rules, *g, p, board@, cur@, beg, from, k as nat).0,
                plays(v.out@),
                max,
                false,
            ),
        decreases board@.len() - k,
    {
        let w = board[k];
        assert(w.ok());
        let ghost before = plays(v.out@);
        let ghost mid = reached@;
        let ghost so_far = head + retrieve_over(
            *rules,
            *g,
            p,
            board@,
            cur@,
            beg,
            from,
            k as nat,
        ).0;
        if let Some((gear, pos)) = g.loc(w).on_board() {
            let stop = retrieve_from(rules, g, p, board, cur, beg, k, gear, pos, v, reached);
            proof {
                let n = worker_list(*rules, *g, p, gear, pos.0 as int).len();
                let more = retrieve_taking(
                    *rules,
                    *g,
                    p,
                    board@,
                    cur@,
                    beg,
                    mid,
                    k as nat,
                    n,
                );
                lemma_carried(start, so_far, before, more.0, plays(v.out@), max, stop);
                assert(so_far + more.0 =~= head + retrieve_over(
                    *rules,
                    *g,
                    p,
                    board@,
                    cur@,
                    beg,
                    from,
                    (k + 1) as nat,
                ).0);
            }
            if stop {
                proof {
                    let part = retrieve_over(
                        *rules,
                        *g,
                        p,
                        board@,
                        cur@,
                        beg,
                        from,
                        (k + 1) as nat,
                    ).0;
                    lemma_over_begins(
                        *rules,
                        *g,
                        p,
                        board@,
                        cur@,
                        beg,
                        from,
                        (k + 1) as nat,
                        board@.len(),
                    );
                    let all = retrieve_over(
                        *rules,
                        *g,
                        p,
                        board@,
                        cur@,
                        beg,
                        from,
                        board@.len(),
                    ).0;
                    assert(begins(head + part, head + all)) by {
                        assert((head + all).take((head + part).len() as int) =~= head + all.take(
                            part.len() as int,
                        ));
                    }
                    lemma_carried_begins(start, head + part, plays(v.out@), whole.0, max);
                }
                return true;
            }
        }
        k += 1;
    }
    false
}

/// Walk every retrieval that picks up worker `k` next; whether the list is now
/// full.
fn retrieve_from(
    rules: &Rulebook,
    g: &GameState,
    p: PlayerId,
    board: &Vec<WorkerId>,
    cur: &Retrievals,
    beg: Option<Temple>,
    k: usize,
    gear: Gear,
    pos: Pos,
    v: &mut Tour,
    reached: &mut Positions,
) -> (stop: bool)
    requires
        p.ok(),
        rules.ok(),
        g.ok(),
        workers_ok(board@),
        k < board@.len(),
        g.workers[board@[k as int].0 as int] == (WorkerLoc::OnGear { gear, pos }),
        has_room(old(v).out@.len(), old(v).max),
        old(reached).ok(),
    ensures
        final(reached).ok(),
        final(v).max == old(v).max,
        carried(
            plays(old(v).out@),
            retrieve_taking(
                *rules,
                *g,
                p,
                board@,
                cur@,
                beg,
                old(reached)@,
                k as nat,
                worker_list(*rules, *g, p, gear, pos.0 as int).len(),
            ).0,
            plays(final(v).out@),
            old(v).max,
            stop,
        ),
        !stop ==> final(reached)@ == retrieve_taking(
            *rules,
            *g,
            p,
            board@,
            cur@,
            beg,
            old(reached)@,
            k as nat,
            worker_list(*rules, *g, p, gear, pos.0 as int).len(),
        ).1,
    decreases load(*g, board@), 0int,
{
    let ghost start = plays(v.out@);
    let ghost max = v.max;
    let ghost from = reached@;
    let w = board[k];
    let choices = choices_for_worker(rules, g, p, gear, pos);
    let ghost list = views(choices@);
    let mut c: usize = 0;
    assert(start + retrieve_taking(
        *rules,
        *g,
        p,
        board@,
        cur@,
        beg,
        from,
        k as nat,
        0,
    ).0 =~= start);
    while c < choices.len()
        invariant
            c <= choices@.len(),
            p.ok(),
            rules.ok(),
            g.ok(),
            workers_ok(board@),
            k < board@.len(),
            w == board@[k as int],
            g.workers[w.0 as int] == (WorkerLoc::OnGear { gear, pos }),
            list == views(choices@),
            list == worker_list(*rules, *g, p, gear, pos.0 as int),
            all_ok(list),
            v.max == max,
            max == old(v).max,
            start == plays(old(v).out@),
            from == old(reached)@,
            reached.ok(),
            reached@ == retrieve_taking(
                *rules,
                *g,
                p,
                board@,
                cur@,
                beg,
                from,
                k as nat,
                c as nat,
            ).1,
            carried(
                start,
                retrieve_taking(*rules, *g, p, board@, cur@, beg, from, k as nat, c as nat).0,
                plays(v.out@),
                max,
                false,
            ),
        decreases choices@.len() - c,
    {
        let choice = &choices[c];
        assert(choice@ == list[c as int]);
        assert(effects_ok(list[c as int]));
        let ghost before = plays(v.out@);
        let ghost mid = reached@;
        let ghost so_far = retrieve_taking(
            *rules,
            *g,
            p,
            board@,
            cur@,
            beg,
            from,
            k as nat,
            c as nat,
        ).0;
        let mut next = *g;
        proof {
            assert(w.ok());
            lemma_retrieved_ok(*rules, *g, p, choice@, w);
            picking_up_lightens_the_gears(*rules, *g, p, choice@, board@, k as int);
        }
        choice.apply(rules, &mut next, p);
        next.retrieve_worker(w);
        let mut more = cur.copy();
        more.add_one(w, choice.clone());
        let stop = retrieve_rec(rules, &next, p, board, &more, beg, v, reached);
        proof {
            let add = retrieve_walk(*rules, next, p, board@, more@, beg, mid).0;
            lemma_carried(start, so_far, before, add, plays(v.out@), max, stop);
        }
        if stop {
            proof {
                lemma_taking_begins(
                    *rules,
                    *g,
                    p,
                    board@,
                    cur@,
                    beg,
                    from,
                    k as nat,
                    (c + 1) as nat,
                    list.len(),
                );
                let part = retrieve_taking(
                    *rules,
                    *g,
                    p,
                    board@,
                    cur@,
                    beg,
                    from,
                    k as nat,
                    (c + 1) as nat,
                ).0;
                let all = retrieve_taking(
                    *rules,
                    *g,
                    p,
                    board@,
                    cur@,
                    beg,
                    from,
                    k as nat,
                    list.len(),
                ).0;
                lemma_carried_begins(start, part, plays(v.out@), all, max);
            }
            return true;
        }
        c += 1;
    }
    false
}

// ---- all moves -----------------------------------------------------------

/// The moves that start a turn in one way, and the positions reached by their
/// end: every placement, then every retrieval.
pub open spec fn moves_after_beg(
    rules: Rulebook,
    g: GameState,
    p: PlayerId,
    beg: Option<Temple>,
    reached: Set<GameState>,
) -> (Seq<Play>, Set<GameState>) {
    let probe = begged(rules, g, p, beg);
    let budget = probe.players[p.0 as int].corn as int;
    let places = place_list(probe, available_list(probe, p), 0, budget, beg, Seq::empty());
    let (takes, to) = retrieve_walk(
        rules,
        probe,
        p,
        board_list(probe, p),
        Seq::empty(),
        beg,
        reached,
    );
    (places + takes, to)
}

/// The moves of the first `k` ways to start a turn. Begging on one temple and
/// stepping back up can reach what begging on another reaches, so the reached
/// positions are shared.
pub open spec fn normal_upto(rules: Rulebook, g: GameState, p: PlayerId, k: nat) -> (
    Seq<Play>,
    Set<GameState>,
)
    decreases k,
{
    if k == 0 {
        (Seq::empty(), Set::empty())
    } else {
        let (found, mid) = normal_upto(rules, g, p, (k - 1) as nat);
        let (more, to) = moves_after_beg(rules, g, p, beg_list(rules, g, p)[k - 1], mid);
        (found + more, to)
    }
}

/// Every move but the pity fallback, in the order they are found.
pub open spec fn normal_list(rules: Rulebook, g: GameState, p: PlayerId) -> Seq<Play> {
    normal_upto(rules, g, p, beg_list(rules, g, p).len()).0
}

/// The lowest surcharge among some spots, from the `k`-th on.
pub open spec fn cheapest(s: Seq<Placement>, k: int) -> int
    decreases s.len() - k,
{
    if k < 0 || k >= s.len() {
        255
    } else if s[k].cost() < cheapest(s, k + 1) {
        s[k].cost() as int
    } else {
        cheapest(s, k + 1)
    }
}

/// The pity move on each of the cheapest spots.
pub open spec fn pities(g: GameState, p: PlayerId, w: WorkerId) -> spec_fn(int) -> Seq<Play> {
    |i: int|
        {
            let spots = spots_list(g);
            only(
                spots[i].cost() == cheapest(spots, 0),
                Play {
                    kind: Kind::Pity(w, spots[i]),
                    beg: None,
                    corn_cost: g.players[p.0 as int].corn,
                },
            )
        }
}

/// The cheapest spaces a pitied seat may take, giving up all its corn.
pub open spec fn pity_list(g: GameState, p: PlayerId) -> Seq<Play> {
    let avail = available_list(g, p);
    if avail.len() == 0 {
        Seq::empty()
    } else {
        flat(spots_list(g).len() as int, pities(g, p, avail[0]))
    }
}

/// Every legal move, in the order they are found. Pity is for a seat that can
/// do nothing else.
pub open spec fn legal_list(rules: Rulebook, g: GameState, p: PlayerId) -> Seq<Play> {
    if normal_list(rules, g, p).len() > 0 {
        normal_list(rules, g, p)
    } else {
        pity_list(g, p)
    }
}

/// The first moves of a list, as many as are wanted.
pub open spec fn first_of(s: Seq<Play>, max: Option<usize>) -> Seq<Play> {
    match max {
        Some(m) => if m < s.len() {
            s.take(m as int)
        } else {
            s
        },
        None => s,
    }
}

/// The ways walked first are the beginning of the whole.
proof fn lemma_normal_begins(rules: Rulebook, g: GameState, p: PlayerId, k: nat, n: nat)
    requires
        k <= n,
    ensures
        begins(normal_upto(rules, g, p, k).0, normal_upto(rules, g, p, n).0),
    decreases n - k,
{
    let a = normal_upto(rules, g, p, k).0;
    if k < n {
        lemma_normal_begins(rules, g, p, k, (n - 1) as nat);
        let m = normal_upto(rules, g, p, (n - 1) as nat).0;
        let z = normal_upto(rules, g, p, n).0;
        assert(z.take(m.len() as int) =~= m);
        assert(z.take(a.len() as int) =~= m.take(a.len() as int));
    } else {
        assert(a.take(a.len() as int) =~= a);
    }
}

/// Begging leaves a sound position sound.
pub(crate) proof fn lemma_begged_ok(rules: Rulebook, g: GameState, p: PlayerId, beg: Option<Temple>)
    requires
        g.ok(),
    ensures
        begged(rules, g, p, beg).ok(),
{
    let h = begged(rules, g, p, beg);
    assert(h.workers == g.workers);
    assert(h.buildings_up == g.buildings_up);
    assert(h.monuments_up == g.monuments_up);
}

/// Everything but the pity fallback; whether the list is now full.
fn visit_normal_moves(rules: &Rulebook, g: &GameState, p: PlayerId, v: &mut Tour) -> (stop: bool)
    requires
        p.ok(),
        rules.ok(),
        g.ok(),
        has_room(old(v).out@.len(), old(v).max),
    ensures
        final(v).max == old(v).max,
        carried(
            plays(old(v).out@),
            normal_list(*rules, *g, p),
            plays(final(v).out@),
            old(v).max,
            stop,
        ),
{
    let ghost start = plays(v.out@);
    let ghost max = v.max;
    let begs = beg_options(rules, g, p);
    let mut reached = Positions::new();
    let mut k: usize = 0;
    assert(start + normal_upto(*rules, *g, p, 0).0 =~= start);
    while k < begs.len()
        invariant
            k <= begs@.len(),
            p.ok(),
            rules.ok(),
            g.ok(),
            begs@ == beg_list(*rules, *g, p),
            v.max == max,
            max == old(v).max,
            start == plays(old(v).out@),
            reached.ok(),
            reached@ == normal_upto(*rules, *g, p, k as nat).1,
            carried(start, normal_upto(*rules, *g, p, k as nat).0, plays(v.out@), max, false),
        decreases begs@.len() - k,
    {
        let beg = begs[k];
        let ghost so_far = normal_upto(*rules, *g, p, k as nat).0;
        let ghost before = plays(v.out@);
        let ghost mid = reached@;
        let mut probe = *g;
        proof {
            lemma_begged_ok(*rules, *g, p, beg);
        }
        do_beg(rules, &mut probe, p, beg);
        let budget: u8 = probe.players[p.idx()].corn;
        let avail = probe.available(p);
        let none = Placements::new();
        proof {
            lemma_workers_where(probe, p, |l: WorkerLoc| l == WorkerLoc::Available, 6);
            lemma_workers_where(probe, p, |l: WorkerLoc| l is OnGear, 6);
            assert(none@ =~= Seq::empty());
        }
        let ghost places = place_list(probe, avail@, 0, budget as int, beg, Seq::empty());
        let ghost parts = moves_after_beg(*rules, *g, p, beg, mid);
        let ghost takes = retrieve_walk(
            *rules,
            probe,
            p,
            board_list(probe, p),
            Seq::empty(),
            beg,
            mid,
        );
        let mut stop = place_rec(&probe, &avail, 0, budget, beg, &none, v);
        let ghost middle = plays(v.out@);
        if !stop {
            let board = probe.on_board(p);
            let empty = Retrievals::new();
            assert(empty@ =~= Seq::empty());
            stop = retrieve_rec(rules, &probe, p, &board, &empty, beg, v, &mut reached);
            proof {
                lemma_carried(before, places, middle, takes.0, plays(v.out@), max, stop);
            }
        } else {
            proof {
                lemma_carried_stop(before, places, plays(v.out@), takes.0, max);
            }
        }
        proof {
            assert(parts.0 =~= places + takes.0);
            lemma_carried(start, so_far, before, parts.0, plays(v.out@), max, stop);
        }
        if stop {
            proof {
                lemma_normal_begins(*rules, *g, p, (k + 1) as nat, begs@.len());
                lemma_carried_begins(
                    start,
                    normal_upto(*rules, *g, p, (k + 1) as nat).0,
                    plays(v.out@),
                    normal_list(*rules, *g, p),
                    max,
                );
            }
            return true;
        }
        k += 1;
    }
    false
}

/// The cheapest spaces a pitied seat may take, giving up all its corn.
pub fn pity_moves(g: &GameState, p: PlayerId) -> (out: Vec<Move>)
    requires
        p.ok(),
    ensures
        plays(out@) == pity_list(*g, p),
{
    let mut out: Vec<Move> = Vec::new();
    let avail = g.available(p);
    if avail.len() == 0 {
        assert(plays(out@) =~= Seq::empty());
        return out;
    }
    let worker = avail[0];
    let spots = open_spots(g);
    let mut low: u8 = 255;
    let mut k: usize = spots.len();
    while k > 0
        invariant
            k <= spots@.len(),
            low == cheapest(spots@, k as int),
        decreases k,
    {
        k -= 1;
        let c: u8 = spots[k].space_cost();
        if c < low {
            low = c;
        }
    }
    let ghost f = pities(*g, p, worker);
    let mut i: usize = 0;
    assert(plays(out@) =~= flat(0, f));
    while i < spots.len()
        invariant
            i <= spots@.len(),
            p.ok(),
            spots@ == spots_list(*g),
            low == cheapest(spots@, 0),
            f == pities(*g, p, worker),
            plays(out@) == flat(i as int, f),
        decreases spots@.len() - i,
    {
        let ghost o1 = plays(out@);
        let spot = spots[i];
        if spot.space_cost() == low {
            out.push(
                Move {
                    kind: MoveKind::Pity { worker, spot },
                    beg: None,
                    corn_cost: g.players[p.idx()].corn,
                },
            );
        }
        assert(plays(out@) =~= o1 + f(i as int));
        i += 1;
    }
    out
}

/// Visit the legal moves of a seat in a fixed order, stopping once `max` of
/// them have been found.
///
/// The positions reached decide whether a move is found, never in what order,
/// so a capped walk finds the same moves every time.
pub fn visit_legal_moves(
    rules: &Rulebook,
    g: &GameState,
    p: PlayerId,
    max: Option<usize>,
) -> (out: Vec<Move>)
    requires
        p.ok(),
        rules.ok(),
        g.ok(),
    ensures
        plays(out@) == first_of(legal_list(*rules, *g, p), max),
{
    let mut v = Tour { out: Vec::new(), max };
    assert(plays(v.out@) =~= Seq::empty());
    if let Some(m) = max {
        if m == 0 {
            assert(plays(v.out@) =~= first_of(legal_list(*rules, *g, p), max));
            return v.out;
        }
    }
    let ghost normal = normal_list(*rules, *g, p);
    assert(Seq::<Play>::empty() + normal =~= normal);
    let stop = visit_normal_moves(rules, g, p, &mut v);
    if stop || v.out.len() > 0 {
        assert(plays(v.out@) =~= first_of(legal_list(*rules, *g, p), max));
        return v.out;
    }
    assert(normal.len() == 0);
    let pity = pity_moves(g, p);
    let ghost list = plays(pity@);
    let mut i: usize = 0;
    while i < pity.len()
        invariant
            i <= pity@.len(),
            list == plays(pity@),
            list == legal_list(*rules, *g, p),
            v.max == max,
            has_room(i as nat, max),
            plays(v.out@) =~= list.take(i as int),
        decreases pity@.len() - i,
    {
        assert(plays(v.out@).len() == v.out@.len());
        let stop = v.emit(pity[i].clone());
        i += 1;
        assert(list.take(i - 1) + seq![list[i - 1]] =~= list.take(i as int));
        if stop {
            assert(plays(v.out@) =~= first_of(list, max));
            return v.out;
        }
    }
    assert(plays(v.out@) =~= first_of(list, max));
    v.out
}

/// The first `max` legal moves in the order they are found.
///
/// Which moves these are depends on that order, so this is for bounded
/// expansion, not for reasoning about the move set.
pub fn legal_moves_capped(rules: &Rulebook, g: &GameState, p: PlayerId, max: usize) -> (out: Vec<
    Move,
>)
    requires
        p.ok(),
        rules.ok(),
        g.ok(),
    ensures
        plays(out@) == first_of(legal_list(*rules, *g, p), Some(max)),
{
    visit_legal_moves(rules, g, p, Some(max))
}

/// Whether a seat has any legal move.
pub fn has_legal_move(rules: &Rulebook, g: &GameState, p: PlayerId) -> (b: bool)
    requires
        p.ok(),
        rules.ok(),
        g.ok(),
    ensures
        b == (legal_list(*rules, *g, p).len() > 0),
{
    let v = visit_legal_moves(rules, g, p, Some(1));
    assert(plays(v@).len() == v@.len());
    v.len() > 0
}

/// How many legal moves a seat has.
pub fn count_legal_moves(rules: &Rulebook, g: &GameState, p: PlayerId) -> (n: usize)
    requires
        p.ok(),
        rules.ok(),
        g.ok(),
    ensures
        n == legal_list(*rules, *g, p).len(),
{
    let v = visit_legal_moves(rules, g, p, None);
    assert(plays(v@).len() == v@.len());
    v.len()
}

/// Whether any move but the pity fallback exists.
pub fn has_normal_move(rules: &Rulebook, g: &GameState, p: PlayerId) -> (b: bool)
    requires
        p.ok(),
        rules.ok(),
        g.ok(),
    ensures
        b == (normal_list(*rules, *g, p).len() > 0),
{
    let mut v = Tour { out: Vec::new(), max: Some(1) };
    assert(plays(v.out@) =~= Seq::empty());
    assert(Seq::<Play>::empty() + normal_list(*rules, *g, p) =~= normal_list(*rules, *g, p));
    visit_normal_moves(rules, g, p, &mut v)
}

} // verus!
