//! What moves, players, tables and layouts are called in text, stated piece by
//! piece.

use crate::agents::agent_name;
use crate::commitment::{
    day_text, decimal, fitted_weights, half_weights, identity_weights, knots_text, refit_weights,
    row_text, source_text, weight_text,
};
use crate::effect::Effect;
use crate::ids::{Gear, Pos, Temple, WorkerId};
use crate::mcts::{mcts_name, no_number, shipped, unequal, MctsConfig, Priors, Shown};
use crate::minimax::{dotted, implied, minimax_head, minimax_name, Shape};
use crate::moves::{Kind, Placement, Play};
use crate::movetext::{move_text, picked_text, placed_text, spot_text};
use crate::phase::{same_step, Step};
use crate::plan::{mask_of, Line, Schedule};
use crate::report::{bucket_line, bucket_lines, histogram_text, sum_of};
use crate::schema::{entry_text, field_text, fields_text, sizes_text, Dtype, Field};
use crate::search::Opponents;
use crate::specs::Candidates;
use crate::text::{digit, digits};
use crate::turnlines::walks;
use vstd::prelude::*;

verus! {

// ---- moves ---------------------------------------------------------------

/// A spot is told by its gear's name and its space, or as the first player's.
pub proof fn spots_are_told_by_gear_and_space(pos: Pos)
    ensures
        spot_text(Placement::FirstPlayer) == "first"@,
        spot_text(Placement::Gear(Gear::Palenque, pos)) == "Palenque"@ + ":"@ + digits(pos.0 as nat),
        spot_text(Placement::Gear(Gear::Yaxchilan, pos)) == "Yaxchilan"@ + ":"@ + digits(pos.0 as nat),
        spot_text(Placement::Gear(Gear::Tikal, pos)) == "Tikal"@ + ":"@ + digits(pos.0 as nat),
        spot_text(Placement::Gear(Gear::Uxmal, pos)) == "Uxmal"@ + ":"@ + digits(pos.0 as nat),
        spot_text(Placement::Gear(Gear::Chichen, pos)) == "Chichen"@ + ":"@ + digits(pos.0 as nat),
{
}

proof fn lemma_placed_before(v: Seq<(WorkerId, Placement)>, x: (WorkerId, Placement), k: int)
    requires
        k <= v.len(),
    ensures
        placed_text(v.push(x), k) == placed_text(v, k),
    decreases k,
{
    if k > 0 {
        lemma_placed_before(v, x, k - 1);
        assert(v.push(x)[k - 1] == v[k - 1]);
    }
}

/// One more worker placed is told behind the others: who went, and where to.
pub proof fn placements_are_told_worker_by_worker(
    v: Seq<(WorkerId, Placement)>,
    x: (WorkerId, Placement),
    beg: Option<Temple>,
    cost: u8,
    letter: Seq<char>,
    choices: Seq<Seq<char>>,
)
    ensures
        ({
            let m = Play { kind: Kind::Place(v), beg, corn_cost: cost };
            let n = Play { kind: Kind::Place(v.push(x)), beg, corn_cost: cost };
            move_text(n, letter, choices) == move_text(m, letter, choices) + (" w"@ + digits(
                x.0.0 as nat,
            ) + "->"@ + spot_text(x.1))
        }),
        ({
            let none = Play { kind: Kind::Place(Seq::empty()), beg, corn_cost: cost };
            &&& beg is None ==> move_text(none, letter, choices) == "place("@ + digits(cost as nat)
                + " corn)"@
            &&& beg is Some ==> move_text(none, letter, choices) == "[beg "@ + letter + "] "@ + ("place("@
                + digits(cost as nat) + " corn)"@)
        }),
{
    let n = v.push(x);
    lemma_placed_before(v, x, v.len() as int);
    let m = Play { kind: Kind::Place(v), beg, corn_cost: cost };
    let w = Play { kind: Kind::Place(n), beg, corn_cost: cost };
    assert(n[n.len() - 1] == x);
    assert(move_text(w, letter, choices) =~= move_text(m, letter, choices) + (" w"@ + digits(
        x.0.0 as nat,
    ) + "->"@ + spot_text(x.1)));
    let none = Play { kind: Kind::Place(Seq::empty()), beg, corn_cost: cost };
    let head = "place("@ + digits(cost as nat) + " corn)"@;
    assert(head + Seq::<char>::empty() =~= head);
    assert(Seq::<char>::empty() + head =~= head);
}

proof fn lemma_picked_before(
    v: Seq<(WorkerId, Seq<Effect>)>,
    x: (WorkerId, Seq<Effect>),
    choices: Seq<Seq<char>>,
    c: Seq<char>,
    k: int,
)
    requires
        k <= v.len(),
        choices.len() == v.len(),
    ensures
        picked_text(v.push(x), choices.push(c), k) == picked_text(v, choices, k),
    decreases k,
{
    if k > 0 {
        lemma_picked_before(v, x, choices, c, k - 1);
        assert(v.push(x)[k - 1] == v[k - 1]);
        assert(choices.push(c)[k - 1] == choices[k - 1]);
    }
}

/// One more worker picked up is told behind the others, with what it did.
#[verifier::rlimit(40)]
pub proof fn retrievals_are_told_worker_by_worker(
    v: Seq<(WorkerId, Seq<Effect>)>,
    x: (WorkerId, Seq<Effect>),
    beg: Option<Temple>,
    cost: u8,
    letter: Seq<char>,
    choices: Seq<Seq<char>>,
    c: Seq<char>,
)
    requires
        choices.len() == v.len(),
    ensures
        ({
            let m = Play { kind: Kind::Retrieve(v), beg, corn_cost: cost };
            let n = Play { kind: Kind::Retrieve(v.push(x)), beg, corn_cost: cost };
            move_text(n, letter, choices.push(c)) == move_text(m, letter, choices) + (" w"@ + digits(
                x.0.0 as nat,
            ) + "["@ + c + "]"@)
        }),
        ({
            let none = Play { kind: Kind::Retrieve(Seq::empty()), beg, corn_cost: cost };
            &&& beg is None ==> move_text(none, letter, choices) == "retrieve"@
            &&& beg is Some ==> move_text(none, letter, choices) == "[beg "@ + letter + "] "@
                + "retrieve"@
        }),
{
    let n = v.push(x);
    lemma_picked_before(v, x, choices, c, v.len() as int);
    let m = Play { kind: Kind::Retrieve(v), beg, corn_cost: cost };
    let w = Play { kind: Kind::Retrieve(n), beg, corn_cost: cost };
    assert(n[n.len() - 1] == x);
    assert(choices.push(c)[n.len() - 1] == c);
    assert(move_text(w, letter, choices.push(c)) =~= move_text(m, letter, choices) + (" w"@ + digits(
        x.0.0 as nat,
    ) + "["@ + c + "]"@));
    let head = "retrieve"@;
    assert(head + Seq::<char>::empty() =~= head);
    assert(Seq::<char>::empty() + head =~= head);
}

/// A pitied worker is told with where it went.
pub proof fn pity_is_told_with_its_worker(
    w: WorkerId,
    spot: Placement,
    cost: u8,
    letter: Seq<char>,
    choices: Seq<Seq<char>>,
)
    ensures
        move_text(Play { kind: Kind::Pity(w, spot), beg: None, corn_cost: cost }, letter, choices)
            == "pity w"@ + digits(w.0 as nat) + "->"@ + spot_text(spot),
{
    let t = "pity w"@ + digits(w.0 as nat) + "->"@ + spot_text(spot);
    assert(Seq::<char>::empty() + t =~= t);
}

// ---- players -------------------------------------------------------------

/// A player is named for what it is: the greedy ones by their evaluator and how
/// many turns they look at, the searching ones by their settings.
pub proof fn players_are_named_for_what_they_are(
    evaluator: Seq<char>,
    k: usize,
    sims: u32,
    cfg: MctsConfig,
    shape: Shape,
    defaults: Shape,
    shown: Shown,
)
    ensures
        agent_name(crate::specs::Kind::Random, evaluator, defaults, shown) == "random"@,
        agent_name(
            crate::specs::Kind::Greedy(Candidates::Sampled(k)),
            evaluator,
            defaults,
            shown,
        ) == evaluator + ":"@ + digits(k as nat),
        agent_name(crate::specs::Kind::Greedy(Candidates::All), evaluator, defaults, shown)
            == evaluator + ":full"@,
        agent_name(crate::specs::Kind::Search(sims, cfg), evaluator, defaults, shown) == mcts_name(
            sims,
            evaluator,
            cfg,
            shown,
        ),
        agent_name(crate::specs::Kind::Minimax(shape), evaluator, defaults, shown) == minimax_name(
            shape,
            defaults,
        ),
{
}

proof fn lemma_nothing_behind()
    ensures
        forall|s: Seq<char>| #[trigger] (s + Seq::<char>::empty()) == s,
{
    assert forall|s: Seq<char>| #[trigger] (s + Seq::<char>::empty()) == s by {
        assert(s + Seq::<char>::empty() =~= s);
    }
}

/// An alpha-beta player is named for its depth, its budget, its width at the root
/// and how it takes its opponents; one with every default says no more.
pub proof fn plain_alpha_beta_players_say_four_things(c: Shape)
    requires
        implied(c.widths, c.widths, crate::search::width(c.widths, 0) as int),
    ensures
        minimax_name(c, c) == "minimax:d"@ + digits(c.max_depth as nat) + ":"@ + digits(
            c.budget_ms as nat,
        ) + "ms:w"@ + digits(crate::search::width(c.widths, 0) as nat) + (match c.opponents {
            Opponents::Paranoid => ":paranoid"@,
            _ => ":greedy"@,
        }),
{
    lemma_nothing_behind();
}

/// Every other setting is said where it is not the default, and only there.
pub proof fn alpha_beta_players_say_what_is_not_the_default(d: Shape, n: usize)
    requires
        implied(d.widths, d.widths, crate::search::width(d.widths, 0) as int),
    ensures
        ({
            let head = minimax_name(d, d);
            &&& minimax_name(Shape { cache: !d.cache, ..d }, d) == head + (if d.cache {
                ":nocache"@
            } else {
                ":cache"@
            })
            &&& minimax_name(Shape { own_width: !d.own_width, ..d }, d) == head + ":ownwidth"@
            &&& minimax_name(Shape { keep_tt: !d.keep_tt, ..d }, d) == head + ":keeptt"@
            &&& minimax_name(Shape { beam_first: !d.beam_first, ..d }, d) == head + (if d.beam_first {
                ":scorefirst"@
            } else {
                ":beamfirst"@
            })
            &&& n != d.opp_width ==> minimax_name(Shape { opp_width: n, ..d }, d) == head + (":oppw"@
                + digits(n as nat))
            &&& d.cap_per_width != Some(n) ==> minimax_name(
                Shape { cap_per_width: Some(n), ..d },
                d,
            ) == head + (":capw"@ + digits(n as nat))
            &&& d.cap_per_width is Some ==> minimax_name(Shape { cap_per_width: None, ..d }, d) == head
                + ":nocapw"@
            &&& n != d.interior_cap ==> minimax_name(Shape { interior_cap: n, ..d }, d) == head
                + (":cap"@ + digits(n as nat))
            &&& n != d.keep ==> minimax_name(Shape { keep: n, ..d }, d) == head + (":keep"@ + digits(
                n as nat,
            ))
        }),
{
    lemma_nothing_behind();
    assert(minimax_name(d, d) == minimax_head(d));
}

/// Widths are written with dots between them.
pub proof fn widths_are_written_with_dots(v: Seq<usize>, w: usize)
    requires
        v.len() > 0,
    ensures
        dotted(seq![w]) == digits(w as nat),
        dotted(v.push(w)) == dotted(v) + "."@ + digits(w as nat),
{
    assert(v.push(w).drop_last() =~= v);
}

/// A single's bits are no number where the exponent is full and the fraction is
/// not zero; two are unequal but where both are zero, whatever their signs, or
/// both are the same number.
pub proof fn singles_compare_as_numbers(sign: int, exponent: int, fraction: int, a: u32, b: u32)
    requires
        0 <= sign < 2,
        0 <= exponent < 256,
        0 <= fraction < 0x80_0000,
        a == 0x8000_0000 * sign + 0x80_0000 * exponent + fraction,
    ensures
        no_number(a) <==> exponent == 255 && fraction > 0,
        no_number(a) ==> unequal(a, b) && unequal(b, a),
        unequal(a, a) == no_number(a),
        unequal(a, b) == unequal(b, a),
        exponent == 0 && fraction == 0 ==> !unequal(a, 0) && !unequal(a, 0x8000_0000),
        a != b && (exponent > 0 || fraction > 0) ==> unequal(a, b),
{
}

/// The head of a tree player's name: its simulations, its evaluator, and how
/// warm and from how many edges on its priors look a ply ahead.
pub open spec fn tree_head(sims: u32, evaluator: Seq<char>, s: Shown, least: usize) -> Seq<char> {
    "mcts"@ + digits(sims as nat) + "/"@ + evaluator + (":pt="@ + s.prior_temp@) + (":pmin="@ + digits(
        least as nat,
    ))
}

/// A tree player with the shipped knobs is named by that head alone, and any knob
/// that is not as shipped is said behind it.
pub proof fn tree_players_say_what_is_not_as_shipped(
    sims: u32,
    evaluator: Seq<char>,
    s: Shown,
    bits: u32,
    n: usize,
    m: u32,
)
    requires
        !no_number(bits),
    ensures
        ({
            let d = shipped();
            let head = tree_head(sims, evaluator, s, 3);
            let name = |c: MctsConfig| mcts_name(sims, evaluator, c, s);
            &&& name(d) == head
            &&& name(MctsConfig { prior_min_edges: n, ..d }) == tree_head(sims, evaluator, s, n)
            &&& unequal(bits, d.c_puct_init) ==> name(MctsConfig { c_puct_init: bits, ..d }) == head + (
            ":cp="@ + s.c_puct_init@)
            &&& unequal(bits, d.c_puct_base) ==> name(MctsConfig { c_puct_base: bits, ..d }) == head + (
            ":cpb="@ + s.c_puct_base@)
            &&& unequal(bits, d.fpu_reduction) ==> name(MctsConfig { fpu_reduction: bits, ..d }) == head
                + (":fpu="@ + s.fpu_reduction@)
            &&& n != 32 ==> name(MctsConfig { max_edges: n, ..d }) == head + (":k="@ + digits(n as nat))
            &&& unequal(bits, d.widen_c) ==> name(MctsConfig { widen_c: bits, ..d }) == head + (":wc="@
                + s.widen_c@)
            &&& unequal(bits, d.widen_alpha) ==> name(MctsConfig { widen_alpha: bits, ..d }) == head + (
            ":wa="@ + s.widen_alpha@)
            &&& n != 128 ==> name(MctsConfig { widen_cap: n, ..d }) == head + (":wcap="@ + digits(
                n as nat,
            ))
            &&& name(MctsConfig { tree_reuse: false, ..d }) == head + ":noreuse"@
            &&& m != 1 ==> name(MctsConfig { virtual_loss: m, ..d }) == head + (":vl="@ + digits(
                m as nat,
            ))
        }),
{
    lemma_nothing_behind();
}

/// A tree player with other priors says which, and nothing of a ply ahead.
pub proof fn tree_players_say_where_their_priors_come_from(
    sims: u32,
    evaluator: Seq<char>,
    s: Shown,
)
    ensures
        ({
            let d = shipped();
            let head = "mcts"@ + digits(sims as nat) + "/"@ + evaluator;
            let name = |p: Priors| mcts_name(sims, evaluator, MctsConfig { priors: p, ..d }, s);
            &&& name(Priors::Evaluator) == head + ":pri=eval"@
            &&& name(Priors::Gradient) == head + ":pri=grad"@
            &&& name(Priors::Mixed) == head + ":pri=mixed"@
        }),
{
    lemma_nothing_behind();
}

// ---- tables of weights ---------------------------------------------------

/// A weight is written in hundredths: the whole part, a point and two digits,
/// with a sign where it is less than nothing.
pub proof fn weights_are_written_in_hundredths(whole: nat, tenths: nat, hundredths: nat)
    requires
        tenths < 10,
        hundredths < 10,
    ensures
        decimal(100 * whole + 10 * tenths + hundredths) == digits(whole) + "."@ + seq![
            digit(tenths as int),
            digit(hundredths as int),
        ],
        forall|n: int| n >= 0 ==> #[trigger] weight_text(n) == decimal(n as nat),
        forall|n: int| n < 0 ==> #[trigger] weight_text(n) == "-"@ + decimal((-n) as nat),
{
}

/// A row holds its eight weights in order, a comma behind each.
pub proof fn rows_hold_eight_weights(row: [i32; 8])
    ensures
        row_text(row, 0) == weight_text(row[0] as int) + ", "@ + (weight_text(row[1] as int) + ", "@ + (
        weight_text(row[2] as int) + ", "@ + (weight_text(row[3] as int) + ", "@ + (weight_text(
            row[4] as int,
        ) + ", "@ + (weight_text(row[5] as int) + ", "@ + (weight_text(row[6] as int) + ", "@ + (
        weight_text(row[7] as int) + ", "@))))))),
{
    reveal_with_fuel(row_text, 9);
    let last = weight_text(row[7] as int) + ", "@;
    assert(last + Seq::<char>::empty() =~= last);
}

/// A schedule is written knot by knot, each with its day, set to two places.
pub proof fn schedules_are_written_knot_by_knot(s: Schedule)
    ensures
        source_text(s) == "Schedule { w: [\n"@ + knots_text(s, 0) + "] }"@,
        knots_text(s, 0) == "    /* day "@ + (" "@ + digits(0)) + " */ ["@ + row_text(s.w[0], 0)
            + "],\n"@ + knots_text(s, 1),
        knots_text(s, 1) == "    /* day "@ + (" "@ + digits(8)) + " */ ["@ + row_text(s.w[1], 0)
            + "],\n"@ + knots_text(s, 2),
        knots_text(s, 2) == "    /* day "@ + digits(14) + " */ ["@ + row_text(s.w[2], 0) + "],\n"@
            + knots_text(s, 3),
        knots_text(s, 3) == "    /* day "@ + digits(21) + " */ ["@ + row_text(s.w[3], 0) + "],\n"@
            + knots_text(s, 4),
        knots_text(s, 4) == "    /* day "@ + digits(27) + " */ ["@ + row_text(s.w[4], 0) + "],\n"@
            + knots_text(s, 5),
        knots_text(s, 5) == Seq::<char>::empty(),
{
    assert(day_text(0) == " "@ + digits(0));
}

/// The schedule that changes nothing weighs everything at one, on every day.
pub proof fn the_plain_schedule_weighs_everything_at_one(k: int, t: int)
    requires
        0 <= k < 5,
        0 <= t < 8,
    ensures
        identity_weights().len() == 5,
        identity_weights()[k].len() == 8,
        identity_weights()[k][t] == 100,
{
}

/// Whether a table weighs a term so on each of the five days it has knots for.
pub open spec fn weighs_over_the_days(
    w: Seq<Seq<i32>>,
    t: int,
    a: int,
    b: int,
    c: int,
    d: int,
    e: int,
) -> bool {
    w.len() == 5 && w[0][t] == a && w[1][t] == b && w[2][t] == c && w[3][t] == d && w[4][t] == e
}

/// How the fitted table weighs each term over the days of the game.
pub proof fn the_fitted_terms_over_the_days()
    ensures
        weighs_over_the_days(fitted_weights(), 2, 0, 0, 73, 76, 85),
        weighs_over_the_days(fitted_weights(), 3, 0, 108, 132, 115, 120),
        weighs_over_the_days(fitted_weights(), 4, 0, 0, 0, 0, 80),
        weighs_over_the_days(fitted_weights(), 5, 0, 0, 0, 0, 0),
        weighs_over_the_days(fitted_weights(), 6, 349, 400, 291, 118, 102),
        weighs_over_the_days(fitted_weights(), 7, 120, 196, 172, 182, 111),
{
}

/// How the table that was fitted again weighs each term over the days of the game.
pub proof fn the_refitted_terms_over_the_days()
    ensures
        weighs_over_the_days(refit_weights(), 2, 0, 0, 31, 54, 84),
        weighs_over_the_days(refit_weights(), 3, 23, 105, 102, 104, 118),
        weighs_over_the_days(refit_weights(), 4, 0, 34, 51, 78, 84),
        weighs_over_the_days(refit_weights(), 5, 32, 90, 37, 44, 23),
        weighs_over_the_days(refit_weights(), 6, 134, 141, 115, 128, 108),
        weighs_over_the_days(refit_weights(), 7, 144, 191, 93, 97, 98),
{
}

/// The half-way table lies half way between the fitted one and the plain one, a
/// half hundredth rounded up.
pub proof fn the_half_way_table_is_half_way(k: int, t: int)
    requires
        0 <= k < 5,
        0 <= t < 8,
    ensures
        half_weights()[k][t] == (fitted_weights()[k][t] + identity_weights()[k][t] + 1) / 2,
{
}

/// A set of lines holds each of the three in a bit of its own.
pub proof fn lines_have_a_bit_each(skulls: bool, construction: bool, temples: bool)
    ensures
        0 <= mask_of(skulls, construction, temples) < 8,
        skulls <==> mask_of(skulls, construction, temples) % 2 == 1,
        construction <==> mask_of(skulls, construction, temples) / 2 % 2 == 1,
        temples <==> mask_of(skulls, construction, temples) / 4 % 2 == 1,
        Line::Skulls.bit() == mask_of(true, false, false),
        Line::Construction.bit() == mask_of(false, true, false),
        Line::Temples.bit() == mask_of(false, false, true),
{
}

// ---- layouts and reports -------------------------------------------------

/// A field is written with its name, its offset, its type and its count, and
/// fields stand one to a line.
pub proof fn fields_are_written_one_to_a_line(v: Seq<Field>, f: Field)
    requires
        v.len() > 0,
    ensures
        fields_text(v.push(f)) == fields_text(v) + ",\n"@ + field_text(f),
        fields_text(seq![f]) == field_text(f),
        f.dtype == Dtype::U4 ==> field_text(f) == "    {\"name\": \""@ + f.name@ + "\", \"offset\": "@
            + digits(f.offset as nat) + ", \"dtype\": \""@ + "u4"@ + "\", \"count\": "@ + digits(
            f.count as nat,
        ) + "}"@,
        Dtype::U1.text() == "u1"@,
        Dtype::U2.text() == "u2"@,
        Dtype::U4.text() == "u4"@,
        Dtype::U8.text() == "u8"@,
        Dtype::I2.text() == "i2"@,
        Dtype::F4.text() == "f4"@,
{
    assert(v.push(f).drop_last() =~= v);
}

/// The sizes a layout names are those the format has.
pub proof fn layouts_name_their_sizes(rules_version: u32)
    ensures
        sizes_text(rules_version) == "  \""@ + "header_bytes"@ + "\": "@ + digits(64) + ",\n"@ + ("  \""@
            + "record_bytes"@ + "\": "@ + digits(512) + ",\n"@) + ("  \""@ + "state_slot"@ + "\": "@
            + digits(320) + ",\n"@) + ("  \""@ + "state_bytes"@ + "\": "@ + digits(293) + ",\n"@) + (
        "  \""@ + "n_players"@ + "\": "@ + digits(4) + ",\n"@) + ("  \""@ + "max_visits"@ + "\": "@
            + digits(24) + ",\n"@) + ("  \""@ + "rules_version"@ + "\": "@ + digits(
            rules_version as nat,
        ) + ",\n"@) + ("  \""@ + "player_bytes"@ + "\": "@ + digits(19) + ",\n"@) + ("  \""@
            + "max_gear_spaces"@ + "\": "@ + digits(11) + ",\n"@),
{
    assert(entry_text("n_players"@, 4) == "  \""@ + "n_players"@ + "\": "@ + digits(4) + ",\n"@);
}

proof fn lemma_no_lines(hist: Seq<u64>, k: int, total: nat, max_batch: usize)
    requires
        forall|i: int| 0 <= i < k ==> #[trigger] hist[i] == 0,
    ensures
        bucket_lines(hist, k, total, max_batch) == Seq::<char>::empty(),
        sum_of(hist, k) == 0,
    decreases k,
{
    if k > 0 {
        lemma_no_lines(hist, k - 1, total, max_batch);
        assert(hist[k - 1] == 0);
        lemma_nothing_behind();
    }
}

/// Only sizes that came up have a line: a histogram without batches says so, and
/// one with batches of a single size is that size's line.
pub proof fn only_sizes_that_came_up_have_a_line(hist: Seq<u64>, k: int, max_batch: usize)
    requires
        hist.len() == 12,
        0 <= k < 12,
        forall|i: int| 0 <= i < 12 && i != k ==> #[trigger] hist[i] == 0,
    ensures
        hist[k] == 0 ==> histogram_text(hist, max_batch) == "  (no batches)"@,
        hist[k] > 0 ==> histogram_text(hist, max_batch) == bucket_line(
            k,
            hist[k],
            hist[k] as nat,
            max_batch,
        ),
{
    let total = hist[k] as nat;
    lemma_no_lines(hist, k, total, max_batch);
    lemma_one_line(hist, k, 12, total, max_batch);
}

proof fn lemma_one_line(hist: Seq<u64>, k: int, n: int, total: nat, max_batch: usize)
    requires
        0 <= k < n <= 12,
        hist.len() == 12,
        forall|i: int| 0 <= i < 12 && i != k ==> #[trigger] hist[i] == 0,
    ensures
        sum_of(hist, n) == hist[k],
        hist[k] > 0 ==> bucket_lines(hist, n, total, max_batch) == bucket_line(
            k,
            hist[k],
            total,
            max_batch,
        ),
    decreases n,
{
    if k == n - 1 {
        lemma_no_lines(hist, k, total, max_batch);
        let line = bucket_line(k, hist[k], total, max_batch);
        assert(Seq::<char>::empty() + line =~= line);
    } else {
        lemma_one_line(hist, k, n - 1, total, max_batch);
        assert(hist[n - 1] == 0);
        lemma_nothing_behind();
    }
}

/// What all the batches of a histogram come to is the sum of its sizes: one more
/// batch of any is one more.
pub proof fn histograms_add_up(hist: Seq<u64>, k: int, n: int)
    requires
        0 <= n <= hist.len(),
        0 <= k < hist.len(),
        hist[k] < u64::MAX,
    ensures
        sum_of(hist.update(k, (hist[k] + 1) as u64), n) == sum_of(hist, n) + (if k < n {
            1int
        } else {
            0
        }),
    decreases n,
{
    if n > 0 {
        histograms_add_up(hist, k, n - 1);
    }
}

// ---- steps and lines -----------------------------------------------------

/// A step is the same as itself, steps are the same both ways round, and steps
/// of different kinds are never the same.
pub proof fn steps_are_the_same_in_kind(a: Step, b: Step)
    ensures
        same_step(a, a),
        same_step(a, b) == same_step(b, a),
        same_step(a, b) ==> {
            &&& a is Beg == b is Beg
            &&& a is Mode == b is Mode
            &&& a is Place == b is Place
            &&& a is PickWorker == b is PickWorker
            &&& a is Take == b is Take
            &&& a is Pity == b is Pity
            &&& a is ExtraDay == b is ExtraDay
            &&& a is DraftTile == b is DraftTile
            &&& a is StopPlacing == b is StopPlacing
        },
        a is Place && b is Place ==> (same_step(a, b) <==> a->Place_0 == b->Place_0),
        a is Beg && b is Beg ==> (same_step(a, b) <==> a->Beg_0 == b->Beg_0),
        a is PickWorker && b is PickWorker ==> (same_step(a, b) <==> a->PickWorker_0
            == b->PickWorker_0),
        a is Take && b is Take ==> (same_step(a, b) <==> a->Take_0@ == b->Take_0@),
{
}

/// The visits of lines are those of each, however they are grouped.
pub proof fn walks_add_up(a: Seq<crate::turnlines::Line>, b: Seq<crate::turnlines::Line>)
    ensures
        walks(a + b) == walks(a) + walks(b),
        forall|x: crate::turnlines::Line| walks(#[trigger] seq![x]) == x.1,
        walks(Seq::empty()) == 0,
    decreases b.len(),
{
    assert forall|x: crate::turnlines::Line| walks(#[trigger] seq![x]) == x.1 by {
        assert(seq![x].drop_last() =~= Seq::empty());
        assert(walks(Seq::empty()) == 0);
    }
    if b.len() == 0 {
        assert(a + b =~= a);
    } else {
        walks_add_up(a, b.drop_last());
        assert((a + b).drop_last() =~= a + b.drop_last());
    }
}

} // verus!
