//! How committed a seat is to one line, what a starting hand is worth, and the
//! weights an evaluation gives its terms over the calendar.

use crate::book::Rulebook;
use crate::ids::{PlayerId, Science, Temple};
use crate::plan::{
    climb, days_left, line_progress, prize, progress, Fraction, Line, Schedule, KNOTS, LAST_DAY,
    MAX_W, STARTING_STEP,
};
use crate::state::{GameState, WorkerLoc};
use crate::text::{digit, digits, push_number};
use vstd::prelude::*;
use vstd::string::*;

verus! {

// ---- focus ---------------------------------------------------------------

/// A share that need not be small.
#[derive(Clone, Copy, PartialEq, Eq, Debug, Structural)]
pub struct Spread {
    pub num: u128,
    pub den: u128,
}

/// A share over the product of three denominators.
pub open spec fn level(f: [Fraction; 3], i: int) -> int {
    if i == 0 {
        f[0].num * (f[1].den * f[2].den)
    } else if i == 1 {
        f[1].num * (f[0].den * f[2].den)
    } else {
        f[2].num * (f[0].den * f[1].den)
    }
}

/// The largest of three numbers.
pub open spec fn greatest(a: int, b: int, c: int) -> int {
    if a >= b && a >= c {
        a
    } else if b >= c {
        b
    } else {
        c
    }
}

/// By how much the farthest of three shares is ahead of their mean, scaled by the
/// days that are left, and nothing over the last two.
pub open spec fn spread_of(f: [Fraction; 3], left: int) -> (int, int) {
    if left <= 2 {
        (0, 1)
    } else {
        (
            (3 * greatest(level(f, 0), level(f, 1), level(f, 2)) - (level(f, 0) + level(f, 1)
                + level(f, 2))) * left,
            81 * (f[0].den * (f[1].den * f[2].den)),
        )
    }
}

/// The three lines' progress.
pub open spec fn standings(rules: Rulebook, g: GameState, p: PlayerId) -> [Fraction; 3] {
    [
        progress(rules, g, p, Line::Skulls),
        progress(rules, g, p, Line::Construction),
        progress(rules, g, p, Line::Temples),
    ]
}

proof fn lemma_product(a: int, b: int, c: int)
    requires
        0 <= a <= 0xFFFF_FFFF,
        0 <= b <= 0xFFFF_FFFF,
        0 <= c <= 0xFFFF_FFFF,
    ensures
        0 <= b * c <= 0xFFFF_FFFF * 0xFFFF_FFFF,
        0 <= a * (b * c) <= 0xFFFF_FFFF * (0xFFFF_FFFF * 0xFFFF_FFFF),
{
    assert(0 <= b * c <= 0xFFFF_FFFF * 0xFFFF_FFFF) by (nonlinear_arith)
        requires
            0 <= b <= 0xFFFF_FFFF,
            0 <= c <= 0xFFFF_FFFF,
    ;
    let d = b * c;
    assert(0 <= a * d <= 0xFFFF_FFFF * (0xFFFF_FFFF * 0xFFFF_FFFF)) by (nonlinear_arith)
        requires
            0 <= a <= 0xFFFF_FFFF,
            0 <= d <= 0xFFFF_FFFF * 0xFFFF_FFFF,
    ;
}

fn level_of(a: u32, b: u32, c: u32) -> (n: u128)
    ensures
        n == a * (b * c),
        n <= 0xFFFF_FFFF * (0xFFFF_FFFF * 0xFFFF_FFFF),
{
    proof {
        lemma_product(a as int, b as int, c as int);
    }
    a as u128 * (b as u128 * c as u128)
}

/// The spread of three shares with so many days left.
pub fn spread(f: [Fraction; 3], left: u8) -> (s: Spread)
    requires
        left <= 27,
    ensures
        (s.num as int, s.den as int) == spread_of(f, left as int),
{
    if left <= 2 {
        return Spread { num: 0, den: 1 };
    }
    let a: u128 = level_of(f[0].num, f[1].den, f[2].den);
    let b: u128 = level_of(f[1].num, f[0].den, f[2].den);
    let c: u128 = level_of(f[2].num, f[0].den, f[1].den);
    let d: u128 = level_of(f[0].den, f[1].den, f[2].den);
    let most: u128 = if a >= b && a >= c {
        a
    } else if b >= c {
        b
    } else {
        c
    };
    let ahead: u128 = 3 * most - (a + b + c);
    proof {
        assert(ahead * left <= ahead * 27) by (nonlinear_arith)
            requires
                left <= 27,
        ;
    }
    Spread { num: ahead * left as u128, den: 81 * d }
}

/// How committed a seat is: by how much the farthest line is ahead of the mean of
/// the three, fading out towards the end of the calendar.
pub fn focus(rules: &Rulebook, g: &GameState, p: PlayerId) -> (s: Spread)
    requires
        p.ok(),
        g.ok(),
        forall|u: Temple| #[trigger] climb(*rules, u) > 0,
    ensures
        (s.num as int, s.den as int) == spread_of(standings(*rules, *g, p), days_left(*g)),
{
    let f: [Fraction; 3] = [
        line_progress(rules, g, p, Line::Skulls),
        line_progress(rules, g, p, Line::Construction),
        line_progress(rules, g, p, Line::Temples),
    ];
    assert(f =~= standings(*rules, *g, p));
    let left: u8 = if g.day < LAST_DAY {
        LAST_DAY - g.day
    } else {
        0
    };
    spread(f, left)
}

/// Commitment measures spread and not size: three lines equally far along count
/// for nothing however far that is, and any difference counts for something
/// while there are days left to use it.
pub proof fn commitment_is_spread(f: [Fraction; 3], left: int)
    requires
        left > 2,
    ensures
        level(f, 0) == level(f, 1) && level(f, 1) == level(f, 2) ==> spread_of(f, left).0 == 0,
        !(level(f, 0) == level(f, 1) && level(f, 1) == level(f, 2)) ==> spread_of(f, left).0 > 0,
{
    let m = greatest(level(f, 0), level(f, 1), level(f, 2));
    let d = 3 * m - (level(f, 0) + level(f, 1) + level(f, 2));
    assert(d == 0 ==> d * left == 0) by (nonlinear_arith);
    assert(d > 0 ==> d * left > 0) by (nonlinear_arith)
        requires
            left > 2,
    ;
}

// ---- drafting ------------------------------------------------------------

/// How many of a seat's first `k` workers are unlocked.
pub open spec fn unlocked(g: GameState, p: PlayerId, k: int) -> nat
    decreases k,
{
    if k <= 0 {
        0
    } else {
        unlocked(g, p, k - 1) + if g.workers[6 * p.0 + k - 1] != WorkerLoc::Locked {
            1nat
        } else {
            0
        }
    }
}

/// How many workers a seat has unlocked.
pub fn n_unlocked(g: &GameState, p: PlayerId) -> (n: u8)
    requires
        p.ok(),
    ensures
        n == unlocked(*g, p, 6),
        n <= 6,
{
    let base: usize = 6 * p.idx();
    let mut n: u8 = 0;
    let mut k: usize = 0;
    while k < 6
        invariant
            k <= 6,
            p.ok(),
            base == 6 * p.0,
            n == unlocked(*g, p, k as int),
            n <= k,
        decreases 6 - k,
    {
        if g.workers[base + k] != WorkerLoc::Locked {
            n += 1;
        }
        k += 1;
    }
    n
}

/// What the steps climbed on a temple are worth to a starting hand, in
/// hundredths: the points climbed, and for each step a quarter of the prize of
/// the first age.
pub open spec fn starting_climb(g: GameState, p: PlayerId, t: Temple, climbed: int) -> int {
    let step = g.temples[t.rank()][p.0 as int];
    if step > STARTING_STEP {
        100 * climbed + 25 * ((step - STARTING_STEP) * prize(t, 1))
    } else {
        0
    }
}

/// What a starting hand is worth, in hundredths, given the points climbed on each
/// temple: what it hands over, priced for the use of a whole calendar.
pub open spec fn hand_value(g: GameState, p: PlayerId, climbed: [i16; 3]) -> int {
    let pl = g.players[p.0 as int];
    let least = -greatest(-(pl.res[0] as int), -(pl.res[1] as int), -(pl.res[2] as int));
    45 * pl.corn + (90 * pl.res[0] + 110 * pl.res[1] + 140 * pl.res[2] + 60 * least) + 400 * pl.res[3]
        + 450 * (unlocked(g, p, 6) - 3) + 200 * pl.free_workers + 160 * (g.lvl(
        p,
        Science::Agriculture,
    ) + g.lvl(p, Science::Extraction) + g.lvl(p, Science::Architecture) + g.lvl(p, Science::Theology))
        + (starting_climb(g, p, Temple::Brown, climbed[Temple::Brown.rank()] as int)
        + starting_climb(g, p, Temple::Yellow, climbed[Temple::Yellow.rank()] as int)
        + starting_climb(g, p, Temple::Green, climbed[Temple::Green.rank()] as int)) + 40 * (
    pl.corn_tiles + pl.wood_tiles)
}

fn climb_value(g: &GameState, p: PlayerId, t: Temple, climbed: i16) -> (n: i64)
    requires
        p.ok(),
    ensures
        n == starting_climb(*g, p, t, climbed as int),
        -4_000_000 <= n <= 4_000_000,
{
    let step: u8 = g.temple_pos(p, t);
    if step > STARTING_STEP {
        let pay: i64 = match t {
            Temple::Brown => 6,
            Temple::Yellow => 2,
            Temple::Green => 4,
        };
        let up: i64 = (step - STARTING_STEP) as i64;
        assert(0 <= up * pay <= 254 * 6) by (nonlinear_arith)
            requires
                0 <= up <= 254,
                0 <= pay <= 6,
        ;
        100 * (climbed as i64) + 25 * (up * pay)
    } else {
        0
    }
}

/// What a starting hand is worth, in hundredths, given the points climbed on each
/// temple.
pub fn draft_value(g: &GameState, p: PlayerId, climbed: [i16; 3]) -> (v: i64)
    requires
        p.ok(),
    ensures
        v == hand_value(*g, p, climbed),
{
    let pl = g.players[p.idx()];
    let (a, b, c): (i64, i64, i64) = (pl.res[0] as i64, pl.res[1] as i64, pl.res[2] as i64);
    let least: i64 = if a <= b && a <= c {
        a
    } else if b <= c {
        b
    } else {
        c
    };
    let learned: i64 = g.level(p, Science::Agriculture) as i64 + g.level(p, Science::Extraction) as i64
        + g.level(p, Science::Architecture) as i64 + g.level(p, Science::Theology) as i64;
    let extra: i64 = n_unlocked(g, p) as i64 - 3;
    let temples: i64 = climb_value(g, p, Temple::Brown, climbed[Temple::Brown.idx()]) + climb_value(
        g,
        p,
        Temple::Yellow,
        climbed[Temple::Yellow.idx()],
    ) + climb_value(g, p, Temple::Green, climbed[Temple::Green.idx()]);
    45 * (pl.corn as i64) + (90 * a + 110 * b + 140 * c + 60 * least) + 400 * (pl.res[3] as i64) + 450
        * extra + 200 * (pl.free_workers as i64) + 160 * learned + temples + 40 * (
    pl.corn_tiles as i64 + pl.wood_tiles as i64)
}

// ---- schedules -----------------------------------------------------------

/// Every term at its face value.
pub fn identity() -> (s: Schedule)
    ensures
        forall|k: int, t: int| 0 <= k < 5 && 0 <= t < 8 ==> #[trigger] s.w[k][t] == identity_weights()[k][t],
{
    let w: [[i32; 8]; 5] = [
        [100, 100, 100, 100, 100, 100, 100, 100],
        [100, 100, 100, 100, 100, 100, 100, 100],
        [100, 100, 100, 100, 100, 100, 100, 100],
        [100, 100, 100, 100, 100, 100, 100, 100],
        [100, 100, 100, 100, 100, 100, 100, 100],
    ];
    Schedule { w }
}

/// Every term at its face value.
pub open spec fn identity_weights() -> Seq<Seq<i32>> {
    seq![
        seq![100i32, 100, 100, 100, 100, 100, 100, 100],
        seq![100i32, 100, 100, 100, 100, 100, 100, 100],
        seq![100i32, 100, 100, 100, 100, 100, 100, 100],
        seq![100i32, 100, 100, 100, 100, 100, 100, 100],
        seq![100i32, 100, 100, 100, 100, 100, 100, 100],
    ]
}

/// The weights fitted on the play of the bare evaluation.
pub fn fitted() -> (s: Schedule)
    ensures
        forall|k: int, t: int| 0 <= k < 5 && 0 <= t < 8 ==> #[trigger] s.w[k][t] == fitted_weights()[k][t],
{
    let w: [[i32; 8]; 5] = [
        [100, 100, 0, 0, 0, 0, 349, 120],
        [100, 100, 0, 108, 0, 0, 400, 196],
        [100, 100, 73, 132, 0, 0, 291, 172],
        [100, 100, 76, 115, 0, 0, 118, 182],
        [100, 100, 85, 120, 80, 0, 102, 111],
    ];
    Schedule { w }
}

/// The weights fitted on the play of the bare evaluation.
pub open spec fn fitted_weights() -> Seq<Seq<i32>> {
    seq![
        seq![100i32, 100, 0, 0, 0, 0, 349, 120],
        seq![100i32, 100, 0, 108, 0, 0, 400, 196],
        seq![100i32, 100, 73, 132, 0, 0, 291, 172],
        seq![100i32, 100, 76, 115, 0, 0, 118, 182],
        seq![100i32, 100, 85, 120, 80, 0, 102, 111],
    ]
}

/// The fitted weights, halfway back to face value.
pub fn half() -> (s: Schedule)
    ensures
        forall|k: int, t: int| 0 <= k < 5 && 0 <= t < 8 ==> #[trigger] s.w[k][t] == half_weights()[k][t],
{
    let w: [[i32; 8]; 5] = [
        [100, 100, 50, 50, 50, 50, 225, 110],
        [100, 100, 50, 104, 50, 50, 250, 148],
        [100, 100, 87, 116, 50, 50, 196, 136],
        [100, 100, 88, 108, 50, 50, 109, 141],
        [100, 100, 93, 110, 90, 50, 101, 106],
    ];
    Schedule { w }
}

/// The fitted weights, halfway back to face value.
pub open spec fn half_weights() -> Seq<Seq<i32>> {
    seq![
        seq![100i32, 100, 50, 50, 50, 50, 225, 110],
        seq![100i32, 100, 50, 104, 50, 50, 250, 148],
        seq![100i32, 100, 87, 116, 50, 50, 196, 136],
        seq![100i32, 100, 88, 108, 50, 50, 109, 141],
        seq![100i32, 100, 93, 110, 90, 50, 101, 106],
    ]
}

/// The weights fitted on the play of the fitted ones.
pub fn refit() -> (s: Schedule)
    ensures
        forall|k: int, t: int| 0 <= k < 5 && 0 <= t < 8 ==> #[trigger] s.w[k][t] == refit_weights()[k][t],
{
    let w: [[i32; 8]; 5] = [
        [100, 100, 0, 23, 0, 32, 134, 144],
        [100, 100, 0, 105, 34, 90, 141, 191],
        [100, 100, 31, 102, 51, 37, 115, 93],
        [100, 100, 54, 104, 78, 44, 128, 97],
        [100, 100, 84, 118, 84, 23, 108, 98],
    ];
    Schedule { w }
}

/// The weights fitted on the play of the fitted ones.
pub open spec fn refit_weights() -> Seq<Seq<i32>> {
    seq![
        seq![100i32, 100, 0, 23, 0, 32, 134, 144],
        seq![100i32, 100, 0, 105, 34, 90, 141, 191],
        seq![100i32, 100, 31, 102, 51, 37, 115, 93],
        seq![100i32, 100, 54, 104, 78, 44, 128, 97],
        seq![100i32, 100, 84, 118, 84, 23, 108, 98],
    ]
}

/// The fitted tables keep within the bounds of a fit: exact terms at face value,
/// and no weight below nothing or above the largest.
pub proof fn tables_are_sane(k: int, t: int)
    requires
        0 <= k < 5,
        0 <= t < 8,
    ensures
        t < 2 ==> fitted_weights()[k][t] == 100 && half_weights()[k][t] == 100
            && refit_weights()[k][t] == 100,
        0 <= fitted_weights()[k][t] <= MAX_W,
        0 <= half_weights()[k][t] <= MAX_W,
        0 <= refit_weights()[k][t] <= MAX_W,
{
}

/// A weight in hundredths, with two decimals.
pub open spec fn decimal(n: nat) -> Seq<char> {
    digits(n / 100) + "."@ + seq![digit((n / 10 % 10) as int), digit((n % 10) as int)]
}

/// A weight as it prints, behind a sign where it is negative.
pub open spec fn weight_text(n: int) -> Seq<char> {
    if n < 0 {
        "-"@ + decimal((-n) as nat)
    } else {
        decimal(n as nat)
    }
}

/// The weights of a knot from a term on, as they print.
pub open spec fn row_text(row: [i32; 8], t: int) -> Seq<char>
    decreases 8 - t,
{
    if t < 0 || t >= 8 {
        Seq::empty()
    } else {
        weight_text(row[t] as int) + ", "@ + row_text(row, t + 1)
    }
}

/// A day, two characters wide.
pub open spec fn day_text(d: u8) -> Seq<char> {
    if d < 10 {
        " "@ + digits(d as nat)
    } else {
        digits(d as nat)
    }
}

/// The knots from one on, as they print.
pub open spec fn knots_text(s: Schedule, k: int) -> Seq<char>
    decreases 5 - k,
{
    if k < 0 || k >= 5 {
        Seq::empty()
    } else {
        "    /* day "@ + day_text(KNOTS[k]) + " */ ["@ + row_text(s.w[k], 0) + "],\n"@ + knots_text(
            s,
            k + 1,
        )
    }
}

/// A schedule as source text.
pub open spec fn source_text(s: Schedule) -> Seq<char> {
    "Schedule { w: [\n"@ + knots_text(s, 0) + "] }"@
}

fn push_decimal(s: &mut String, n: u64)
    ensures
        final(s)@ == old(s)@ + decimal(n as nat),
{
    push_number(s, n / 100);
    s.append(".");
    push_number(s, n / 10 % 10);
    push_number(s, n % 10);
    assert(s@ =~= old(s)@ + decimal(n as nat));
}

fn push_weight(s: &mut String, n: i32)
    ensures
        final(s)@ == old(s)@ + weight_text(n as int),
{
    if n < 0 {
        s.append("-");
        push_decimal(s, (-(n as i64)) as u64);
    } else {
        push_decimal(s, n as u64);
    }
    assert(s@ =~= old(s)@ + weight_text(n as int));
}

impl Schedule {
    /// The schedule as source text, so that a fitted table can be pasted in.
    pub fn to_source(&self) -> (s: String)
        ensures
            s@ == source_text(*self),
    {
        let mut s = String::new();
        s.append("Schedule { w: [\n");
        let ghost all = source_text(*self);
        let ghost end = "] }"@;
        assert(s@ =~= "Schedule { w: [\n"@);
        assert(s@ + (knots_text(*self, 0) + end) =~= all);
        let mut k: usize = 0;
        while k < 5
            invariant
                k <= 5,
                all == source_text(*self),
                s@ + (knots_text(*self, k as int) + end) == all,
            decreases 5 - k,
        {
            let ghost s0 = s@;
            let row: [i32; 8] = self.w[k];
            let d: u8 = KNOTS[k];
            s.append("    /* day ");
            if d < 10 {
                s.append(" ");
            }
            push_number(&mut s, d as u64);
            s.append(" */ [");
            let ghost head = "    /* day "@ + day_text(d) + " */ ["@;
            assert(s@ =~= s0 + head);
            let ghost s1 = s@;
            let mut t: usize = 0;
            assert(s@ + row_text(row, 0) =~= s1 + row_text(row, 0));
            while t < 8
                invariant
                    t <= 8,
                    s@ + row_text(row, t as int) == s1 + row_text(row, 0),
                decreases 8 - t,
            {
                let ghost s2 = s@;
                push_weight(&mut s, row[t]);
                s.append(", ");
                t += 1;
                assert(s@ + row_text(row, t as int) =~= s2 + row_text(row, t - 1));
            }
            assert(s@ =~= s1 + row_text(row, 0));
            s.append("],\n");
            k += 1;
            proof {
                let rest = knots_text(*self, k as int);
                assert(knots_text(*self, k - 1) == head + row_text(row, 0) + "],\n"@ + rest);
                assert(s@ + (rest + end) =~= s0 + (knots_text(*self, k - 1) + end));
            }
        }
        s.append("] }");
        assert(s@ =~= all);
        s
    }
}

} // verus!
