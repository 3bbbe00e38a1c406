//! The calendar, and the lines a game can commit to: how far along each one a
//! seat is, which of them a step serves, and which temple the seat is climbing.
//!
//! Shares and progress are fractions of whole numbers, so that comparing them
//! is exact.

use crate::book::Rulebook;
use crate::effect::Effect;
use crate::ids::{Gear, PlayerId, Pos, Resource, Science, Temple};
use crate::moves::Placement;
use crate::phase::Step;
use crate::state::{GameState, Player, WorkerLoc};
use vstd::prelude::*;

verus! {

/// The last day of the calendar.
pub const LAST_DAY: u8 = 27;

/// Where every temple marker starts.
pub const STARTING_STEP: u8 = 1;

/// The start, the two resource days and the two point days.
pub const KNOTS: [u8; 5] = [0, 8, 14, 21, 27];

// ---- the calendar --------------------------------------------------------

/// How many days are left.
pub open spec fn days_left(g: GameState) -> int {
    if g.day < LAST_DAY {
        LAST_DAY - g.day
    } else {
        0
    }
}

/// The age the next point day pays out at.
pub open spec fn scoring_age(day: u8) -> Option<u8> {
    if day < 14 {
        Some(1)
    } else if day < 27 {
        Some(2)
    } else {
        None
    }
}

/// The age the next point day pays out at, or nothing past the last one.
pub fn next_scoring_age(g: &GameState) -> (age: Option<u8>)
    ensures
        age == scoring_age(g.day),
{
    if g.day < 14 {
        Some(1)
    } else if g.day < 27 {
        Some(2)
    } else {
        None
    }
}

/// Whether everyone is fed on a day.
pub open spec fn is_food_day(d: int) -> bool {
    d == 8 || d == 14 || d == 21 || d == 27
}

/// Days until the next day on which anyone is fed, or nothing past the last.
pub fn days_to_food(g: &GameState) -> (n: Option<u8>)
    ensures
        n is None <==> g.day >= LAST_DAY,
        n matches Some(k) ==> k > 0 && is_food_day(g.day + k) && forall|d: int|
            g.day < d < g.day + k ==> !#[trigger] is_food_day(d),
{
    if g.day < 8 {
        Some(8 - g.day)
    } else if g.day < 14 {
        Some(14 - g.day)
    } else if g.day < 21 {
        Some(21 - g.day)
    } else if g.day < 27 {
        Some(27 - g.day)
    } else {
        None
    }
}

/// How many rotations until a worker stands at or past a space, where it does
/// so before it rides off the gear and before the calendar ends.
pub open spec fn ride(gear: Gear, min_pos: int, left: int, l: WorkerLoc) -> Option<int> {
    match l {
        WorkerLoc::OnGear { gear: at, pos } => {
            let need = if min_pos > pos.0 {
                min_pos - pos.0
            } else {
                0
            };
            if at == gear && pos.0 + need < gear.spaces() && need <= left {
                Some(need)
            } else {
                None
            }
        },
        _ => None,
    }
}

/// The smaller of two numbers, where there are any.
pub open spec fn sooner(a: Option<int>, b: Option<int>) -> Option<int> {
    match (a, b) {
        (Some(x), Some(y)) => Some(
            if y < x {
                y
            } else {
                x
            },
        ),
        (None, _) => b,
        _ => a,
    }
}

/// The soonest any of a seat's first `k` workers stands at or past a space.
pub open spec fn soonest(g: GameState, p: PlayerId, gear: Gear, min_pos: int, k: int) -> Option<int>
    decreases k,
{
    if k <= 0 {
        None
    } else {
        sooner(
            soonest(g, p, gear, min_pos, k - 1),
            ride(gear, min_pos, days_left(g), g.workers[6 * p.0 + k - 1]),
        )
    }
}

/// A worker that is neither locked nor on a gear.
pub open spec fn is_spare(l: WorkerLoc) -> bool {
    l == WorkerLoc::Available || l == WorkerLoc::FirstPlayerSpace
}

/// Whether one of a seat's first `k` workers is neither locked nor on a gear.
pub open spec fn has_spare(g: GameState, p: PlayerId, k: int) -> bool {
    exists|i: int| 0 <= i < k && is_spare(#[trigger] g.workers[6 * p.0 + i])
}

/// The soonest a seat can act at or past a space of a gear.
pub open spec fn reach(g: GameState, p: PlayerId, gear: Gear, min_pos: int) -> Option<int> {
    if days_left(g) == 0 {
        None
    } else if soonest(g, p, gear, min_pos, 6) is Some {
        soonest(g, p, gear, min_pos, 6)
    } else if has_spare(g, p, 6) && min_pos < gear.spaces() && 1 + min_pos <= days_left(g) {
        Some(1 + min_pos)
    } else {
        None
    }
}

/// Days until a worker of the seat could act on a gear at a space no lower than
/// this, given that gears turn one space a day, or nothing if none can before
/// the calendar ends. A worker in hand is placed next turn and then rides.
pub fn days_to_reach(g: &GameState, p: PlayerId, gear: Gear, min_pos: u8) -> (n: Option<u8>)
    requires
        p.ok(),
        g.ok(),
    ensures
        n is Some == reach(*g, p, gear, min_pos as int) is Some,
        n matches Some(k) ==> k == reach(*g, p, gear, min_pos as int)->Some_0,
        n matches Some(k) ==> k <= days_left(*g),
{
    if g.day >= LAST_DAY {
        return None;
    }
    let left: u8 = LAST_DAY - g.day;
    let size: u8 = gear.size();
    let mut best: Option<u8> = None;
    let mut spare = false;
    let mut k: usize = 0;
    while k < 6
        invariant
            k <= 6,
            p.ok(),
            g.ok(),
            left == days_left(*g),
            size == gear.spaces(),
            best is Some == soonest(*g, p, gear, min_pos as int, k as int) is Some,
            best matches Some(b) ==> b == soonest(*g, p, gear, min_pos as int, k as int)->Some_0
                && b <= left,
            spare == has_spare(*g, p, k as int),
        decreases 6 - k,
    {
        let l = g.workers[6 * p.0 as usize + k];
        let ghost at = 6 * p.0 + k;
        match l {
            WorkerLoc::OnGear { gear: on, pos } => {
                if on == gear {
                    let need: u8 = if min_pos > pos.0 {
                        min_pos - pos.0
                    } else {
                        0
                    };
                    let top: u8 = if min_pos > pos.0 {
                        min_pos
                    } else {
                        pos.0
                    };
                    if top < size && need <= left {
                        best = match best {
                            Some(b) => Some(
                                if need < b {
                                    need
                                } else {
                                    b
                                },
                            ),
                            None => Some(need),
                        };
                    }
                }
            },
            WorkerLoc::Available | WorkerLoc::FirstPlayerSpace => {
                spare = true;
                assert(is_spare(g.workers[6 * p.0 + k]));
            },
            WorkerLoc::Locked => {},
        }
        proof {
            assert(has_spare(*g, p, k + 1) == (has_spare(*g, p, k as int) || is_spare(l))) by {
                if has_spare(*g, p, k + 1) && !is_spare(l) {
                    let i = choose|i: int|
                        0 <= i < k + 1 && is_spare(#[trigger] g.workers[6 * p.0 + i]);
                    assert(i < k);
                }
                if has_spare(*g, p, k as int) {
                    let i = choose|i: int|
                        0 <= i < k && is_spare(#[trigger] g.workers[6 * p.0 + i]);
                    assert(0 <= i < k + 1 && is_spare(g.workers[6 * p.0 + i]));
                }
                if is_spare(l) {
                    assert(is_spare(g.workers[6 * p.0 + k]));
                }
            }
        }
        k += 1;
    }
    if best.is_none() && spare && min_pos < size && min_pos < left {
        best = Some(1 + min_pos);
    }
    best
}

// ---- fractions -----------------------------------------------------------

/// A share of something.
#[derive(Clone, Copy)]
pub struct Fraction {
    pub num: u32,
    pub den: u32,
}

impl Fraction {
    /// A share between nothing and everything.
    pub open spec fn ok(self) -> bool {
        self.den > 0 && self.num <= self.den
    }

    /// Whether this share is smaller than another.
    pub open spec fn below(self, other: Fraction) -> bool {
        self.num * other.den < other.num * self.den
    }

    /// Whether this share is smaller than another.
    pub fn less(self, other: Fraction) -> (b: bool)
        ensures
            b == self.below(other),
    {
        proof {
            assert(self.num * other.den <= 0xFFFF_FFFF * 0xFFFF_FFFF) by (nonlinear_arith)
                requires
                    self.num <= 0xFFFF_FFFF,
                    other.den <= 0xFFFF_FFFF,
            ;
            assert(other.num * self.den <= 0xFFFF_FFFF * 0xFFFF_FFFF) by (nonlinear_arith)
                requires
                    other.num <= 0xFFFF_FFFF,
                    self.den <= 0xFFFF_FFFF,
            ;
        }
        (self.num as u64 * other.den as u64) < (other.num as u64 * self.den as u64)
    }
}

/// So many parts of a whole, and never more than all of it.
pub open spec fn share(num: int, den: int) -> Fraction {
    Fraction {
        num: (if num < den {
            num
        } else {
            den
        }) as u32,
        den: den as u32,
    }
}

fn to_share(num: u64, den: u32) -> (f: Fraction)
    ensures
        f == share(num as int, den as int),
{
    Fraction {
        num: if num < den as u64 {
            num as u32
        } else {
            den
        },
        den,
    }
}

// ---- lines ---------------------------------------------------------------

/// The scoring lines a game can commit to. They share no inputs.
#[derive(Clone, Copy, PartialEq, Eq, Debug, Structural)]
pub enum Line {
    /// Skulls into Chichen Itza.
    Skulls,
    /// Blocks into buildings and monuments.
    Construction,
    /// Climb a temple and hold the top on a scoring day.
    Temples,
}

impl Line {
    /// A line's place among the three.
    pub open spec fn rank(self) -> int {
        match self {
            Line::Skulls => 0,
            Line::Construction => 1,
            Line::Temples => 2,
        }
    }

    /// A line's bit in a set of lines.
    pub open spec fn bit(self) -> int {
        match self {
            Line::Skulls => 1,
            Line::Construction => 2,
            Line::Temples => 4,
        }
    }
}

/// How a starting draft is decided.
#[derive(Clone, Copy, PartialEq, Eq, Debug, Structural)]
pub enum DraftMode {
    /// By the board evaluator.
    Board,
    /// By the price of what the tiles hand over.
    Prior,
    /// By lot.
    Random,
    /// By the unweighted evaluator.
    Unweighted,
}

/// Where the temple axis of a prior comes from.
#[derive(Clone, Copy, PartialEq, Eq, Debug, Structural)]
pub enum PriceSource {
    /// The search's own prices and nothing else.
    Gradient,
    /// The plan's price on all three temples.
    PlanFlat,
    /// The plan's price on the temple the seat is climbing.
    PlanNamed,
}

/// What the top of a temple pays on a point day.
pub open spec fn prize(t: Temple, age: u8) -> int {
    match t {
        Temple::Brown => if age == 1 {
            6
        } else {
            2
        },
        Temple::Yellow => if age == 1 {
            2
        } else {
            6
        },
        Temple::Green => 4,
    }
}

fn prize_of(t: Temple, age: u8) -> (n: u32)
    ensures
        n == prize(t, age),
{
    match t {
        Temple::Brown => if age == 1 {
            6
        } else {
            2
        },
        Temple::Yellow => if age == 1 {
            2
        } else {
            6
        },
        Temple::Green => 4,
    }
}

/// How far a temple reaches above where markers start.
pub open spec fn climb(rules: Rulebook, t: Temple) -> int {
    rules.tops[t.rank()] - STARTING_STEP
}

/// How far up a temple a seat is, weighed by the prize on offer against the
/// best there is.
pub open spec fn temple_part(
    rules: Rulebook,
    g: GameState,
    p: PlayerId,
    t: Temple,
    age: u8,
) -> Fraction {
    let at = g.temples[t.rank()][p.0 as int];
    let up = if at > STARTING_STEP {
        at - STARTING_STEP
    } else {
        0
    };
    share(up * prize(t, age), climb(rules, t) * 6)
}

/// How far up a temple a seat is, weighed by the prize on offer against the
/// best there is.
pub fn temple_share(rules: &Rulebook, g: &GameState, p: PlayerId, t: Temple, age: u8) -> (f:
    Fraction)
    requires
        p.ok(),
        climb(*rules, t) > 0,
    ensures
        f == temple_part(*rules, *g, p, t, age),
        f.ok(),
{
    let at: u8 = g.temple_pos(p, t);
    let up: u32 = if at > STARTING_STEP {
        (at - STARTING_STEP) as u32
    } else {
        0
    };
    let most: u32 = (rules.tops[t.idx()] - STARTING_STEP) as u32;
    let pay: u32 = prize_of(t, age);
    assert(up * pay <= 255 * 6 && up * pay >= 0) by (nonlinear_arith)
        requires
            up <= 255,
            pay <= 6,
    ;
    to_share((up * pay) as u64, most * 6)
}

/// What one step on a temple is worth in points of the prize it leads to.
pub fn plan_temple_step(rules: &Rulebook, t: Temple, age: u8) -> (f: Fraction)
    requires
        climb(*rules, t) > 0,
    ensures
        f.num == prize(t, age),
        f.den == climb(*rules, t),
{
    Fraction { num: prize_of(t, age), den: (rules.tops[t.idx()] - STARTING_STEP) as u32 }
}

/// The prizes of brown and yellow change places between the ages, and green's
/// does not move.
pub proof fn prizes_invert_with_the_age()
    ensures
        prize(Temple::Brown, 1) == prize(Temple::Yellow, 2),
        prize(Temple::Yellow, 1) == prize(Temple::Brown, 2),
        prize(Temple::Brown, 1) > prize(Temple::Yellow, 1),
        prize(Temple::Yellow, 2) > prize(Temple::Brown, 2),
        prize(Temple::Green, 1) == prize(Temple::Green, 2),
{
}

/// Whether a temple is the one a seat is climbing: it has climbed it at all, and
/// neither of the others is as far along.
pub open spec fn is_target(rules: Rulebook, g: GameState, p: PlayerId, t: Temple, age: u8) -> bool {
    temple_part(rules, g, p, t, age).num > 0 && forall|u: Temple|
        u != t ==> (#[trigger] temple_part(rules, g, p, u, age)).below(
            temple_part(rules, g, p, t, age),
        )
}

/// Which temple a seat is climbing, or nothing where nothing separates them.
pub fn temple_target(rules: &Rulebook, g: &GameState, p: PlayerId) -> (t: Option<Temple>)
    requires
        p.ok(),
        forall|u: Temple| #[trigger] climb(*rules, u) > 0,
    ensures
        t matches Some(x) ==> scoring_age(g.day) is Some && is_target(
            *rules,
            *g,
            p,
            x,
            scoring_age(g.day)->Some_0,
        ),
        t is None ==> scoring_age(g.day) is None || forall|x: Temple|
            !#[trigger] is_target(*rules, *g, p, x, scoring_age(g.day)->Some_0),
{
    let age: u8 = match next_scoring_age(g) {
        Some(a) => a,
        None => {
            return None;
        },
    };
    assert(climb(*rules, Temple::Brown) > 0 && climb(*rules, Temple::Yellow) > 0 && climb(
        *rules,
        Temple::Green,
    ) > 0);
    let b = temple_share(rules, g, p, Temple::Brown, age);
    let y = temple_share(rules, g, p, Temple::Yellow, age);
    let n = temple_share(rules, g, p, Temple::Green, age);
    if b.num > 0 && y.less(b) && n.less(b) {
        assert(is_target(*rules, *g, p, Temple::Brown, age));
        Some(Temple::Brown)
    } else if y.num > 0 && b.less(y) && n.less(y) {
        assert(is_target(*rules, *g, p, Temple::Yellow, age));
        Some(Temple::Yellow)
    } else if n.num > 0 && b.less(n) && y.less(n) {
        assert(is_target(*rules, *g, p, Temple::Green, age));
        Some(Temple::Green)
    } else {
        proof {
            assert forall|x: Temple| !#[trigger] is_target(*rules, *g, p, x, age) by {
                assert(b == temple_part(*rules, *g, p, Temple::Brown, age));
                assert(y == temple_part(*rules, *g, p, Temple::Yellow, age));
                assert(n == temple_part(*rules, *g, p, Temple::Green, age));
            }
        }
        None
    }
}

/// A seat climbs at most one temple.
pub proof fn one_temple_is_climbed(
    rules: Rulebook,
    g: GameState,
    p: PlayerId,
    t: Temple,
    u: Temple,
    age: u8,
)
    requires
        is_target(rules, g, p, t, age),
        is_target(rules, g, p, u, age),
    ensures
        t == u,
{
    if t != u {
        assert(temple_part(rules, g, p, u, age).below(temple_part(rules, g, p, t, age)));
        assert(temple_part(rules, g, p, t, age).below(temple_part(rules, g, p, u, age)));
    }
}

/// How many bits of a number are set.
pub open spec fn bits_set(n: nat) -> nat
    decreases n,
{
    if n == 0 {
        0
    } else {
        n % 2 + bits_set(n / 2)
    }
}

fn count_bits(n: u32) -> (c: u32)
    ensures
        c == bits_set(n as nat),
        c <= n,
    decreases n,
{
    if n == 0 {
        0
    } else {
        n % 2 + count_bits(n / 2)
    }
}

/// Whether a Chichen Itza space already holds its skull.
pub open spec fn skull_on(g: GameState, k: int) -> bool {
    (g.chichen_filled >> (k as u8)) & 1 == 1
}

/// The lowest Chichen Itza space from `k` up that holds no skull.
pub open spec fn open_from(g: GameState, k: int) -> Option<int>
    decreases 10 - k,
{
    if k > 9 {
        None
    } else if !skull_on(g, k) {
        Some(k)
    } else {
        open_from(g, k + 1)
    }
}

fn lowest_open(g: &GameState) -> (k: Option<u8>)
    ensures
        k is Some == open_from(*g, 1) is Some,
        k matches Some(i) ==> i == open_from(*g, 1)->Some_0 && 1 <= i <= 9,
{
    let mut i: u8 = 1;
    while i < 10
        invariant
            1 <= i <= 10,
            open_from(*g, 1) == open_from(*g, i as int),
        decreases 10 - i,
    {
        if !g.chichen_is_full(Pos(i)) {
            return Some(i);
        }
        i += 1;
    }
    None
}

/// Whether the skull line is still open to a seat: some space is free and a
/// worker can get there.
pub open spec fn skulls_open(g: GameState, p: PlayerId) -> bool {
    open_from(g, 1) is Some && reach(g, p, Gear::Chichen, open_from(g, 1)->Some_0) is Some
}

fn can_cash_skulls(g: &GameState, p: PlayerId) -> (b: bool)
    requires
        p.ok(),
        g.ok(),
    ensures
        b == skulls_open(*g, p),
{
    match lowest_open(g) {
        Some(i) => days_to_reach(g, p, Gear::Chichen, i).is_some(),
        None => false,
    }
}

/// The farther along of two shares.
pub open spec fn larger(a: Fraction, b: Fraction) -> Fraction {
    if a.below(b) {
        b
    } else {
        a
    }
}

/// The nothing share.
pub open spec fn nothing() -> Fraction {
    Fraction { num: 0, den: 1 }
}

/// How far along a line a seat is.
pub open spec fn progress(rules: Rulebook, g: GameState, p: PlayerId, l: Line) -> Fraction {
    let pl = g.players[p.0 as int];
    match l {
        Line::Skulls => if skulls_open(g, p) {
            share(2 * pl.res[3] + g.lvl(p, Science::Theology), 6)
        } else {
            nothing()
        },
        Line::Construction => if reach(g, p, Gear::Tikal, 2) is Some {
            share(
                g.lvl(p, Science::Architecture) + bits_set(pl.buildings as nat) + 2 * bits_set(
                    pl.monuments as nat,
                ),
                6,
            )
        } else {
            nothing()
        },
        Line::Temples => match scoring_age(g.day) {
            Some(age) => larger(
                larger(
                    temple_part(rules, g, p, Temple::Brown, age),
                    temple_part(rules, g, p, Temple::Yellow, age),
                ),
                temple_part(rules, g, p, Temple::Green, age),
            ),
            None => nothing(),
        },
    }
}

/// How far along a line a seat is, as a share of what a game spent on it would
/// look like.
pub fn line_progress(rules: &Rulebook, g: &GameState, p: PlayerId, l: Line) -> (f: Fraction)
    requires
        p.ok(),
        g.ok(),
        forall|u: Temple| #[trigger] climb(*rules, u) > 0,
    ensures
        f == progress(*rules, *g, p, l),
        f.ok(),
{
    let pl = &g.players[p.idx()];
    match l {
        Line::Skulls => {
            if !can_cash_skulls(g, p) {
                return Fraction { num: 0, den: 1 };
            }
            let n: u64 = 2 * pl.get(Resource::Skull) as u64 + g.level(p, Science::Theology) as u64;
            to_share(n, 6)
        },
        Line::Construction => {
            if days_to_reach(g, p, Gear::Tikal, 2).is_none() {
                return Fraction { num: 0, den: 1 };
            }
            let n: u64 = g.level(p, Science::Architecture) as u64 + count_bits(pl.buildings) as u64
                + 2 * count_bits(pl.monuments as u32) as u64;
            to_share(n, 6)
        },
        Line::Temples => {
            let age: u8 = match next_scoring_age(g) {
                Some(a) => a,
                None => {
                    return Fraction { num: 0, den: 1 };
                },
            };
            assert(climb(*rules, Temple::Brown) > 0 && climb(*rules, Temple::Yellow) > 0 && climb(
                *rules,
                Temple::Green,
            ) > 0);
            let b = temple_share(rules, g, p, Temple::Brown, age);
            let y = temple_share(rules, g, p, Temple::Yellow, age);
            let n = temple_share(rules, g, p, Temple::Green, age);
            let x = if b.less(y) {
                y
            } else {
                b
            };
            if x.less(n) {
                n
            } else {
                x
            }
        },
    }
}

/// Blocks in hand move no line: they are priced elsewhere.
pub proof fn blocks_move_no_line(
    rules: Rulebook,
    g: GameState,
    h: GameState,
    p: PlayerId,
    l: Line,
)
    requires
        p.ok(),
        forall|q: int|
            0 <= q < 4 ==> (#[trigger] h.players[q]) == (Player {
                res: h.players[q].res,
                ..g.players[q]
            }) && h.players[q].res[3] == g.players[q].res[3],
        h == (GameState { players: h.players, ..g }),
    ensures
        progress(rules, h, p, l) == progress(rules, g, p, l),
{
    lemma_soonest_same(g, h, p, Gear::Chichen, 6);
    lemma_soonest_same(g, h, p, Gear::Tikal, 6);
    lemma_open_same(g, h, 1);
    assert(h.players[p.0 as int].res[3] == g.players[p.0 as int].res[3]);
}

proof fn lemma_soonest_same(g: GameState, h: GameState, p: PlayerId, gear: Gear, k: int)
    requires
        g.workers == h.workers,
        g.day == h.day,
    ensures
        forall|m: int| #[trigger] soonest(g, p, gear, m, k) == soonest(h, p, gear, m, k),
    decreases k,
{
    if k > 0 {
        lemma_soonest_same(g, h, p, gear, k - 1);
        assert forall|m: int| #[trigger]
            soonest(g, p, gear, m, k) == soonest(h, p, gear, m, k) by {
            assert(soonest(g, p, gear, m, k - 1) == soonest(h, p, gear, m, k - 1));
        }
    }
}

proof fn lemma_open_same(g: GameState, h: GameState, k: int)
    requires
        g.chichen_filled == h.chichen_filled,
    ensures
        open_from(g, k) == open_from(h, k),
    decreases 10 - k,
{
    if k <= 9 {
        lemma_open_same(g, h, k + 1);
    }
}

/// How much of what a seat holds it can still convert: blocks at a build, skulls
/// at an open space, and corn anywhere while a turn is left.
pub open spec fn convertible(g: GameState, p: PlayerId) -> (int, int) {
    let pl = g.players[p.0 as int];
    let blocks = pl.res[0] + pl.res[1] + pl.res[2];
    let b = 4 * (if blocks < 9 {
        blocks
    } else {
        9
    });
    let s = 8 * pl.res[3];
    let c = if pl.corn < 16 {
        pl.corn as int
    } else {
        16
    };
    (
        (if reach(g, p, Gear::Tikal, 2) is Some {
            b
        } else {
            0
        }) + (if skulls_open(g, p) {
            s
        } else {
            0
        }) + (if days_left(g) >= 2 {
            c
        } else {
            0
        }),
        b + s + c,
    )
}

/// How much of what a seat holds it can still convert. Everything, where it
/// holds nothing.
pub fn conversion_reach(g: &GameState, p: PlayerId) -> (f: Fraction)
    requires
        p.ok(),
        g.ok(),
    ensures
        f.ok(),
        convertible(*g, p).1 == 0 ==> f.num == 1 && f.den == 1,
        convertible(*g, p).1 > 0 ==> f.num == convertible(*g, p).0 && f.den == convertible(
            *g,
            p,
        ).1,
{
    let pl = &g.players[p.idx()];
    let blocks: u32 = pl.res[0] as u32 + pl.res[1] as u32 + pl.res[2] as u32;
    let b: u32 = 4 * if blocks < 9 {
        blocks
    } else {
        9
    };
    let s: u32 = 8 * pl.res[3] as u32;
    let c: u32 = if pl.corn < 16 {
        pl.corn as u32
    } else {
        16
    };
    let den: u32 = b + s + c;
    if den == 0 {
        return Fraction { num: 1, den: 1 };
    }
    let mut num: u32 = 0;
    if days_to_reach(g, p, Gear::Tikal, 2).is_some() {
        num = num + b;
    }
    if can_cash_skulls(g, p) {
        num = num + s;
    }
    if g.day <= 25 {
        num = num + c;
    }
    Fraction { num, den }
}

// ---- steering ------------------------------------------------------------

/// Whether an effect serves a line. With a temple named, a step on another one
/// is a different plan.
pub open spec fn serves(e: Effect, l: Line, target: Option<Temple>) -> bool {
    match e {
        Effect::Res(r, n) => l == Line::Skulls && r == Resource::Skull && n > 0,
        Effect::FillChichen(_) => l == Line::Skulls,
        Effect::AdvanceResearch(s) => (l == Line::Skulls && s == Science::Theology) || (l
            == Line::Construction && s == Science::Architecture),
        Effect::Build(_) | Effect::TakeMonument(_) => l == Line::Construction,
        Effect::TempleStep(t, n) => l == Line::Temples && n > 0 && (target is None || target
            == Some(t)),
        _ => false,
    }
}

/// Whether a step advances a line.
pub open spec fn advances(step: Step, l: Line, target: Option<Temple>) -> bool {
    match step {
        Step::Take(c) => exists|i: int| 0 <= i < c@.len() && serves(#[trigger] c@[i], l, target),
        _ => false,
    }
}

/// A set of lines as a mask.
pub open spec fn mask_of(skulls: bool, construction: bool, temples: bool) -> int {
    (if skulls {
        1int
    } else {
        0
    }) + (if construction {
        2int
    } else {
        0
    }) + (if temples {
        4int
    } else {
        0
    })
}

fn to_mask(skulls: bool, construction: bool, temples: bool) -> (m: u8)
    ensures
        m == mask_of(skulls, construction, temples),
{
    let a: u8 = if skulls {
        1
    } else {
        0
    };
    let b: u8 = if construction {
        2
    } else {
        0
    };
    let c: u8 = if temples {
        4
    } else {
        0
    };
    a + b + c
}

fn line_served(e: Effect, target: Option<Temple>) -> (l: Option<Line>)
    ensures
        forall|x: Line| #[trigger] serves(e, x, target) == (l == Some(x)),
{
    match e {
        Effect::Res(Resource::Skull, n) => if n > 0 {
            Some(Line::Skulls)
        } else {
            None
        },
        Effect::FillChichen(_) => Some(Line::Skulls),
        Effect::AdvanceResearch(Science::Theology) => Some(Line::Skulls),
        Effect::AdvanceResearch(Science::Architecture) => Some(Line::Construction),
        Effect::Build(_) => Some(Line::Construction),
        Effect::TakeMonument(_) => Some(Line::Construction),
        Effect::TempleStep(t, n) => {
            let named = match target {
                Some(x) => x == t,
                None => true,
            };
            if n > 0 && named {
                Some(Line::Temples)
            } else {
                None
            }
        },
        _ => None,
    }
}

/// Which lines a step advances, read off its effects alone.
pub fn lines_advanced(step: &Step, target: Option<Temple>) -> (m: u8)
    ensures
        m == mask_of(
            advances(*step, Line::Skulls, target),
            advances(*step, Line::Construction, target),
            advances(*step, Line::Temples, target),
        ),
{
    let c = match step {
        Step::Take(c) => c,
        _ => {
            return 0;
        },
    };
    let n: usize = c.0.len();
    let mut s = false;
    let mut b = false;
    let mut t = false;
    let mut i: usize = 0;
    while i < n
        invariant
            i <= n,
            n == c@.len(),
            s == exists|j: int| 0 <= j < i && serves(#[trigger] c@[j], Line::Skulls, target),
            b == exists|j: int| 0 <= j < i && serves(#[trigger] c@[j], Line::Construction, target),
            t == exists|j: int| 0 <= j < i && serves(#[trigger] c@[j], Line::Temples, target),
        decreases n - i,
    {
        let e = c.0.at(i);
        let l = line_served(e, target);
        assert(serves(c@[i as int], Line::Skulls, target) == (l == Some(Line::Skulls)));
        assert(serves(c@[i as int], Line::Construction, target) == (l == Some(Line::Construction)));
        assert(serves(c@[i as int], Line::Temples, target) == (l == Some(Line::Temples)));
        match l {
            Some(Line::Skulls) => {
                s = true;
            },
            Some(Line::Construction) => {
                b = true;
            },
            Some(Line::Temples) => {
                t = true;
            },
            None => {},
        }
        i += 1;
    }
    to_mask(s, b, t)
}

/// Naming a temple credits no step with a line it did not have unnamed.
pub proof fn naming_only_narrows(step: Step, l: Line, target: Option<Temple>)
    requires
        advances(step, l, target),
    ensures
        advances(step, l, None),
{
    if let Step::Take(c) = step {
        let i = choose|i: int| 0 <= i < c@.len() && serves(#[trigger] c@[i], l, target);
        assert(serves(c@[i], l, None));
    }
}

/// Whether a placement on a gear can serve a line.
pub open spec fn gear_serves(gear: Gear, l: Line) -> bool {
    match gear {
        Gear::Yaxchilan => l == Line::Skulls,
        Gear::Chichen => l == Line::Skulls || l == Line::Temples,
        Gear::Tikal => l == Line::Construction || l == Line::Temples,
        Gear::Palenque | Gear::Uxmal => false,
    }
}

/// Whether a step is a placement that can serve a line.
pub open spec fn placement_serves(step: Step, l: Line) -> bool {
    match step {
        Step::Place(Placement::Gear(gear, _)) => gear_serves(gear, l),
        _ => false,
    }
}

/// Which lines a placement can serve, by its gear.
pub fn lines_placed(step: &Step) -> (m: u8)
    ensures
        m == mask_of(
            placement_serves(*step, Line::Skulls),
            placement_serves(*step, Line::Construction),
            placement_serves(*step, Line::Temples),
        ),
{
    match step {
        Step::Place(Placement::Gear(gear, _)) => match *gear {
            Gear::Yaxchilan => 1,
            Gear::Chichen => 5,
            Gear::Tikal => 6,
            Gear::Palenque | Gear::Uxmal => 0,
        },
        _ => 0,
    }
}

/// What a plan does to an edge's prior.
#[derive(Clone, Copy, PartialEq, Eq, Debug, Structural)]
pub enum Steer {
    Keep,
    Raise,
    Lower,
}

/// Whether an edge touches a line.
pub open spec fn touches(step: Step, l: Line, target: Option<Temple>, place: bool) -> bool {
    advances(step, l, target) || (place && placement_serves(step, l))
}

/// What a plan does to an edge: raise what touches the leading line, lower what
/// touches only another, leave the rest. A blind plan raises whatever it
/// touches.
pub open spec fn steered(
    step: Step,
    leader: Line,
    target: Option<Temple>,
    place: bool,
    blind: bool,
) -> Steer {
    if !(touches(step, Line::Skulls, target, place) || touches(
        step,
        Line::Construction,
        target,
        place,
    ) || touches(step, Line::Temples, target, place)) {
        Steer::Keep
    } else if blind || touches(step, leader, target, place) {
        Steer::Raise
    } else {
        Steer::Lower
    }
}

/// What a plan does to an edge.
pub fn steer(
    step: &Step,
    leader: Line,
    target: Option<Temple>,
    place: bool,
    blind: bool,
) -> (s: Steer)
    ensures
        s == steered(*step, leader, target, place, blind),
{
    let a: u8 = lines_advanced(step, target);
    let b: u8 = if place {
        lines_placed(step)
    } else {
        0
    };
    if a == 0 && b == 0 {
        return Steer::Keep;
    }
    let (x, y): (bool, bool) = match leader {
        Line::Skulls => (a % 2 == 1, b % 2 == 1),
        Line::Construction => ((a / 2) % 2 == 1, (b / 2) % 2 == 1),
        Line::Temples => (a / 4 == 1, b / 4 == 1),
    };
    if blind || x || y {
        Steer::Raise
    } else {
        Steer::Lower
    }
}

/// A blind plan touches exactly the edges a seeing one does.
pub proof fn a_blind_plan_touches_the_same_edges(
    step: Step,
    leader: Line,
    target: Option<Temple>,
    place: bool,
)
    ensures
        (steered(step, leader, target, place, true) == Steer::Keep) == (steered(
            step,
            leader,
            target,
            place,
            false,
        ) == Steer::Keep),
{
}

/// Which line leads: the first of the farthest along.
pub open spec fn leads(f: [Fraction; 3], l: Line) -> bool {
    &&& forall|i: int| 0 <= i < 3 ==> !f[l.rank()].below(#[trigger] f[i])
    &&& forall|i: int| 0 <= i < l.rank() ==> (#[trigger] f[i]).below(f[l.rank()])
}

/// Which line leads, given the three lines' progress in order.
pub fn leading_line(f: [Fraction; 3]) -> (l: Line)
    requires
        f[0].ok(),
        f[1].ok(),
        f[2].ok(),
    ensures
        leads(f, l),
{
    let ab = f[0].less(f[1]);
    let ac = f[0].less(f[2]);
    let bc = f[1].less(f[2]);
    let ghost (a, b, c) = (f[0], f[1], f[2]);
    proof {
        lemma_fraction_order(a, b, c);
        lemma_fraction_order(b, c, a);
        lemma_fraction_order(c, a, b);
        lemma_fraction_order(a, c, b);
        lemma_fraction_order(b, a, c);
        lemma_fraction_order(c, b, a);
    }
    if !ab && !ac {
        Line::Skulls
    } else if ab && !bc {
        Line::Construction
    } else {
        Line::Temples
    }
}

proof fn lemma_fraction_order(a: Fraction, b: Fraction, c: Fraction)
    requires
        a.ok(),
        b.ok(),
        c.ok(),
    ensures
        a.below(b) ==> !b.below(a),
        !b.below(a) && !c.below(b) ==> !c.below(a),
        a.below(b) && !c.below(b) ==> a.below(c),
        !b.below(a) && b.below(c) ==> a.below(c),
{
    let (an, ad, bn, bd, cn, cd) = (
        a.num as int,
        a.den as int,
        b.num as int,
        b.den as int,
        c.num as int,
        c.den as int,
    );
    assert(an * bd <= bn * ad && bn * cd <= cn * bd ==> an * cd <= cn * ad) by (nonlinear_arith)
        requires
            ad > 0,
            bd > 0,
            cd > 0,
            an >= 0,
            bn >= 0,
            cn >= 0,
    ;
    assert(an * bd < bn * ad && bn * cd <= cn * bd ==> an * cd < cn * ad) by (nonlinear_arith)
        requires
            ad > 0,
            bd > 0,
            cd > 0,
            an >= 0,
            bn >= 0,
            cn >= 0,
    ;
    assert(an * bd <= bn * ad && bn * cd < cn * bd ==> an * cd < cn * ad) by (nonlinear_arith)
        requires
            ad > 0,
            bd > 0,
            cd > 0,
            an >= 0,
            bn >= 0,
            cn >= 0,
    ;
}

/// Which temples a priced prior tops up, or nothing where it adds nothing at
/// all.
pub fn temples_credited(
    source: PriceSource,
    rules: &Rulebook,
    g: &GameState,
    p: PlayerId,
) -> (r: Option<[bool; 3]>)
    requires
        p.ok(),
        forall|u: Temple| #[trigger] climb(*rules, u) > 0,
    ensures
        r is None <==> source == PriceSource::Gradient || scoring_age(g.day) is None || (source
            == PriceSource::PlanNamed && forall|t: Temple|
            !#[trigger] is_target(*rules, *g, p, t, scoring_age(g.day)->Some_0)),
        r matches Some(c) ==> forall|t: Temple|
            c[#[trigger] t.rank()] == (source == PriceSource::PlanFlat || is_target(
                *rules,
                *g,
                p,
                t,
                scoring_age(g.day)->Some_0,
            )),
{
    let flat = match source {
        PriceSource::Gradient => {
            return None;
        },
        PriceSource::PlanFlat => true,
        PriceSource::PlanNamed => false,
    };
    let age: u8 = match next_scoring_age(g) {
        Some(a) => a,
        None => {
            return None;
        },
    };
    if flat {
        return Some([true, true, true]);
    }
    match temple_target(rules, g, p) {
        Some(t) => {
            proof {
                assert forall|u: Temple| u != t implies !#[trigger] is_target(
                    *rules,
                    *g,
                    p,
                    u,
                    age,
                ) by {
                    if is_target(*rules, *g, p, u, age) {
                        one_temple_is_climbed(*rules, *g, p, t, u, age);
                    }
                }
            }
            Some([t == Temple::Brown, t == Temple::Yellow, t == Temple::Green])
        },
        None => None,
    }
}

// ---- the shuffled control ------------------------------------------------

/// The seed a node's permutation starts from.
pub open spec fn shuffle_seed(g: GameState, p: PlayerId, n: int) -> u64 {
    ((g.day as u64) << 40) ^ ((p.0 as u64) << 32) ^ ((n as u64) << 16)
        ^ g.players[p.0 as int].corn as u64
}

/// The next counter of the generator.
pub open spec fn counted(z: u64) -> u64 {
    z.wrapping_add(0x9E37_79B9_7F4A_7C15)
}

/// What the generator gives at a counter.
pub open spec fn scrambled(z: u64) -> u64 {
    let a = (z ^ (z >> 30)).wrapping_mul(0xBF58_476D_1CE4_E5B9);
    let b = (a ^ (a >> 27)).wrapping_mul(0x94D0_49BB_1331_11EB);
    b ^ (b >> 31)
}

/// Two places of a list exchanged.
pub open spec fn exchanged<T>(s: Seq<T>, i: int, j: int) -> Seq<T> {
    s.update(i, s[j]).update(j, s[i])
}

/// A list with its places up to `i` dealt out from the top down.
pub open spec fn dealt<T>(s: Seq<T>, z: u64, i: int) -> Seq<T>
    decreases i,
{
    if i <= 0 {
        s
    } else {
        let next = counted(z);
        dealt(exchanged(s, i, scrambled(next) as int % (i + 1)), next, i - 1)
    }
}

/// The weights of a node's edges, dealt to other edges by a permutation that
/// depends on the node and on nothing in the edges.
pub fn shuffle_weights(g: &GameState, p: PlayerId, out: &mut Vec<u32>)
    requires
        p.ok(),
    ensures
        final(out)@ == dealt(
            old(out)@,
            shuffle_seed(*g, p, old(out)@.len() as int),
            old(out)@.len() - 1,
        ),
{
    let n: usize = out.len();
    let mut z: u64 = ((g.day as u64) << 40) ^ ((p.0 as u64) << 32) ^ ((n as u64) << 16)
        ^ g.players[p.idx()].corn as u64;
    if n == 0 {
        return;
    }
    let mut i: usize = n - 1;
    while i > 0
        invariant
            i < n,
            n == out@.len(),
            n == old(out)@.len(),
            dealt(out@, z, i as int) == dealt(
                old(out)@,
                shuffle_seed(*g, p, n as int),
                n - 1,
            ),
        decreases i,
    {
        z = z.wrapping_add(0x9E37_79B9_7F4A_7C15);
        let a: u64 = (z ^ (z >> 30)).wrapping_mul(0xBF58_476D_1CE4_E5B9);
        let b: u64 = (a ^ (a >> 27)).wrapping_mul(0x94D0_49BB_1331_11EB);
        let c: u64 = b ^ (b >> 31);
        let m: u64 = i as u64 + 1;
        let j: usize = (c % m) as usize;
        let x: u32 = out[i];
        let y: u32 = out[j];
        let ghost s0 = out@;
        out.set(i, y);
        out.set(j, x);
        assert(out@ =~= exchanged(s0, i as int, j as int));
        i -= 1;
    }
}

/// Exchanging two places keeps what a list holds.
pub proof fn lemma_exchange_keeps<T>(s: Seq<T>, i: int, j: int)
    requires
        0 <= i < s.len(),
        0 <= j < s.len(),
    ensures
        exchanged(s, i, j).to_multiset() == s.to_multiset(),
{
    broadcast use vstd::seq_lib::group_to_multiset_ensures;

    let a = s.update(i, s[j]);
    vstd::seq_lib::to_multiset_update(s, i, s[j]);
    vstd::seq_lib::to_multiset_update(a, j, s[i]);
    if i == j {
        assert(exchanged(s, i, j) =~= s);
    } else {
        assert(a[j] == s[j]);
        assert(s.to_multiset().count(s[i]) > 0);
        assert(exchanged(s, i, j).to_multiset() =~= s.to_multiset());
    }
}

/// The shuffled control keeps every weight and only moves them.
pub proof fn shuffling_keeps_the_weights<T>(s: Seq<T>, z: u64, i: int)
    requires
        i < s.len(),
    ensures
        dealt(s, z, i).to_multiset() == s.to_multiset(),
        dealt(s, z, i).len() == s.len(),
    decreases i,
{
    if i > 0 {
        let next = counted(z);
        let j = scrambled(next) as int % (i + 1);
        lemma_exchange_keeps(s, i, j);
        shuffling_keeps_the_weights(exchanged(s, i, j), next, i - 1);
    }
}

// ---- the weight schedule -------------------------------------------------

/// The terms of an evaluation, by their place in a row of weights.
pub const BANKED: usize = 0;

pub const LIQUIDATION: usize = 1;

pub const HELD: usize = 2;

pub const TEMPLE: usize = 3;

pub const ENGINE: usize = 4;

pub const BOARD: usize = 5;

pub const MONUMENT: usize = 6;

pub const STARVATION: usize = 7;

/// The largest weight a fitted term may have, in hundredths.
pub const MAX_W: i32 = 400;

/// Weights for each term at the five knots, in hundredths, linear in between.
#[derive(Clone, Copy)]
pub struct Schedule {
    pub w: [[i32; 8]; 5],
}

/// The knot at or before a day, the last interval holding everything past it.
pub open spec fn interval(day: u8) -> int {
    if day < 8 {
        0
    } else if day < 14 {
        1
    } else if day < 21 {
        2
    } else {
        3
    }
}

/// How far into its interval a day is.
pub open spec fn into(day: u8) -> int {
    (if day < 27 {
        day as int
    } else {
        27
    }) - KNOTS[interval(day)]
}

/// How long a day's interval is.
pub open spec fn span(day: u8) -> int {
    KNOTS[interval(day) + 1] - KNOTS[interval(day)]
}

impl Schedule {
    /// A term's weight on a day, in hundredths times the length of the day's
    /// interval.
    pub open spec fn weight(self, day: u8, term: int) -> int {
        self.w[interval(day)][term] * (span(day) - into(day)) + self.w[interval(day) + 1][term]
            * into(day)
    }

    /// The weights on a day, linear between knots and flat past the last, each
    /// as hundredths times the number given with them.
    pub fn at(&self, day: u8) -> (r: ([i64; 8], i64))
        ensures
            r.1 == span(day),
            forall|i: int| 0 <= i < 8 ==> #[trigger] r.0[i] == self.weight(day, i),
    {
        let (k, a, b): (usize, u8, u8) = if day < 8 {
            (0, 0, 8)
        } else if day < 14 {
            (1, 8, 14)
        } else if day < 21 {
            (2, 14, 21)
        } else {
            (3, 21, 27)
        };
        let d: u8 = if day < 27 {
            day
        } else {
            27
        };
        let t: i64 = (d - a) as i64;
        let gap: i64 = (b - a) as i64;
        let mut out: [i64; 8] = [0i64; 8];
        let mut i: usize = 0;
        while i < 8
            invariant
                i <= 8,
                k == interval(day),
                k < 4,
                t == into(day),
                gap == span(day),
                0 <= t <= gap <= 8,
                forall|j: int| 0 <= j < i ==> #[trigger] out[j] == self.weight(day, j),
            decreases 8 - i,
        {
            let x: i64 = self.w[k][i] as i64;
            let y: i64 = self.w[k + 1][i] as i64;
            assert(-0x8000_0000 * 8 <= x * (gap - t) <= 0x8000_0000 * 8) by (nonlinear_arith)
                requires
                    -0x8000_0000 <= x < 0x8000_0000,
                    0 <= gap - t <= 8,
            ;
            assert(-0x8000_0000 * 8 <= y * t <= 0x8000_0000 * 8) by (nonlinear_arith)
                requires
                    -0x8000_0000 <= y < 0x8000_0000,
                    0 <= t <= 8,
            ;
            out[i] = x * (gap - t) + y * t;
            i += 1;
        }
        (out, gap)
    }

    /// The schedule with its two exact terms pinned to one and the others held
    /// between nothing and the largest that a fitted weight may be.
    pub fn sanitise(self) -> (s: Schedule)
        ensures
            forall|k: int, i: int|
                0 <= k < 5 && 0 <= i < 8 ==> #[trigger] s.w[k][i] == (if i < 2 {
                    100
                } else {
                    held_to(self.w[k][i])
                }),
    {
        let mut s = self;
        let mut k: usize = 0;
        while k < 5
            invariant
                k <= 5,
                forall|a: int, i: int|
                    0 <= a < k && 0 <= i < 8 ==> #[trigger] s.w[a][i] == (if i < 2 {
                        100
                    } else {
                        held_to(self.w[a][i])
                    }),
                forall|a: int| k <= a < 5 ==> #[trigger] s.w[a] == self.w[a],
            decreases 5 - k,
        {
            let old_row: [i32; 8] = s.w[k];
            let row: [i32; 8] = [
                100,
                100,
                capped(old_row[2]),
                capped(old_row[3]),
                capped(old_row[4]),
                capped(old_row[5]),
                capped(old_row[6]),
                capped(old_row[7]),
            ];
            let mut w = s.w;
            w[k] = row;
            s = Schedule { w };
            k += 1;
        }
        s
    }

    /// The schedule with one term set to one weight throughout.
    pub fn with(self, term: usize, v: i32) -> (s: Schedule)
        requires
            term < 8,
        ensures
            forall|k: int, i: int|
                0 <= k < 5 && 0 <= i < 8 ==> #[trigger] s.w[k][i] == (if i == term {
                    v
                } else {
                    self.w[k][i]
                }),
    {
        let mut s = self;
        let mut k: usize = 0;
        while k < 5
            invariant
                k <= 5,
                term < 8,
                forall|a: int, i: int|
                    0 <= a < k && 0 <= i < 8 ==> #[trigger] s.w[a][i] == (if i == term {
                        v
                    } else {
                        self.w[a][i]
                    }),
                forall|a: int| k <= a < 5 ==> #[trigger] s.w[a] == self.w[a],
            decreases 5 - k,
        {
            let mut row: [i32; 8] = s.w[k];
            row[term] = v;
            let mut w = s.w;
            w[k] = row;
            s = Schedule { w };
            k += 1;
        }
        s
    }
}

/// A weight held between nothing and the largest that a fitted one may be.
pub open spec fn held_to(x: i32) -> i32 {
    if x < 0 {
        0
    } else if x > MAX_W {
        MAX_W
    } else {
        x
    }
}

fn capped(x: i32) -> (y: i32)
    ensures
        y == held_to(x),
{
    if x < 0 {
        0
    } else if x > MAX_W {
        MAX_W
    } else {
        x
    }
}

/// A schedule takes its knots' own weights on the knots.
pub proof fn schedules_hit_their_knots(s: Schedule, k: int, i: int)
    requires
        0 <= k < 5,
        0 <= i < 8,
    ensures
        s.weight(KNOTS[k], i) == s.w[k][i] * span(KNOTS[k]),
{
    let d = KNOTS[k];
    assert(k == 0 ==> d == 0);
    assert(k == 1 ==> d == 8);
    assert(k == 2 ==> d == 14);
    assert(k == 3 ==> d == 21);
    assert(k == 4 ==> d == 27);
    assert(KNOTS[0] == 0 && KNOTS[1] == 8 && KNOTS[2] == 14 && KNOTS[3] == 21 && KNOTS[4] == 27);
    let a = s.w[interval(d)][i] as int;
    let b = s.w[interval(d) + 1][i] as int;
    assert(a * 0 == 0 && b * 0 == 0);
}

/// Within an interval a weight moves by the same amount every day.
pub proof fn schedules_are_linear_between_knots(s: Schedule, day: u8, i: int)
    requires
        0 <= i < 8,
        day < 27,
        interval(day) == interval((day + 1) as u8),
    ensures
        s.weight((day + 1) as u8, i) - s.weight(day, i) == s.w[interval(day) + 1][i]
            - s.w[interval(day)][i],
{
    let a = s.w[interval(day)][i] as int;
    let b = s.w[interval(day) + 1][i] as int;
    let n = span(day);
    let t = into(day);
    assert(a * (n - (t + 1)) + b * (t + 1) - (a * (n - t) + b * t) == b - a) by (nonlinear_arith);
}

} // verus!
