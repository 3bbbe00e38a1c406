use rand::rngs::StdRng;
use rand::SeedableRng;
use tzolkin::book::{BuildingDef, MonumentDef, Payoff, Rulebook};
use tzolkin::effect::Effect;
use tzolkin::ids::{
    BuildingId, Color, Gear, MonumentId, PlayerId, Pos, Resource, Science, Temple,
};
use tzolkin::legal::{apply_move, check_move};
use tzolkin::sampling::sample_legal_move;
use tzolkin::state::{Deck, GameState, GearState, Player, TileStack, WorkerLoc};
use tzolkin::commitment::{
    draft_value, fitted, focus, half, identity, n_unlocked, refit, spread,
};
use tzolkin::moves::choices_for_worker;
use tzolkin::phase::Step;
use tzolkin::plan::{
    conversion_reach, days_to_food, days_to_reach, leading_line, line_progress, lines_advanced,
    next_scoring_age, plan_temple_step, shuffle_weights, steer, temple_share, temple_target,
    Fraction, Line, Steer, BANKED, KNOTS, LAST_DAY, MAX_W, STARTING_STEP, STARVATION,
};

fn player(color: Color, seed: u64) -> Player {
    Player {
        color,
        corn: 3 + (seed % 7) as u8,
        res: [1 + (seed % 3) as u8, 1, (seed % 2) as u8, 1],
        points: 0,
        corn_tiles: 0,
        wood_tiles: 0,
        free_workers: 0,
        worker_discount: 0,
        may_skip_day: true,
        buildings: 0,
        monuments: 0,
    }
}

/// A position to begin from: three workers in hand each, empty gears, full
/// displays.
fn start(seed: u64) -> GameState {
    let mut workers = [WorkerLoc::Locked; 24];
    for seat in 0..4 {
        for k in 0..3 {
            workers[6 * seat + k] = WorkerLoc::Available;
        }
    }
    let mut palenque = [TileStack { corn: 0, wood: 0 }; 8];
    for pos in 2..6 {
        palenque[pos] = TileStack { corn: 4, wood: if pos == 2 { 0 } else { 4 } };
    }
    let mut age1 = Deck { ids: [0u8; 14], next: 6 };
    for i in 0..14 {
        age1.ids[i] = i as u8 + 1;
    }
    let mut age2 = Deck { ids: [0u8; 18], next: 0 };
    for i in 0..18 {
        age2.ids[i] = i as u8 + 15;
    }
    let mut monument_deck = Deck { ids: [0u8; 13], next: 6 };
    for i in 0..13 {
        monument_deck.ids[i] = i as u8 + 1;
    }
    let mut buildings_up = [None; 6];
    let mut monuments_up = [None; 6];
    for i in 0..6 {
        buildings_up[i] = Some(BuildingId(i as u8 + 1));
        monuments_up[i] = Some(MonumentId(i as u8 + 1));
    }
    GameState {
        players: [
            player(Color::Red, seed),
            player(Color::Green, seed + 1),
            player(Color::Blue, seed + 2),
            player(Color::Yellow, seed + 3),
        ],
        workers,
        gears: [GearState { occ: [255; 11] }; 5],
        temples: [[1 + (seed % 2) as u8, 1, 1, 2], [1; 4], [1, 2, 1, 1]],
        research: [[0; 4], [1, 0, 0, 0], [0, 1, 0, 0], [0; 4]],
        palenque,
        chichen_filled: 0,
        age1,
        age2,
        monument_deck,
        buildings_up,
        monuments_up,
        first_player_space: None,
        accumulated_corn: 0,
        skulls_remaining: 13,
        current: PlayerId(0),
        first_player: PlayerId(0),
        age: 1,
        day: 0,
        over: false,
    }
}

/// Cards with a cost and a reward of each kind.
fn book(prune: u8) -> Rulebook {
    let mut buildings = Vec::new();
    for i in 0..32u8 {
        let cost: [i8; 4] = [1 + (i % 2) as i8, (i % 3) as i8, (i / 16) as i8, 0];
        let payoff = match i % 6 {
            0 => Payoff::Fixed(vec![Effect::Points(3)]),
            1 => Payoff::FreeTrack(Science::Agriculture, vec![Effect::Corn(1)]),
            2 => Payoff::FreeAny(1, vec![Effect::Points(1)]),
            3 => Payoff::CornExchange(vec![Effect::Points(2)]),
            4 => Payoff::Fixed(vec![Effect::TempleStep(Temple::Green, 1)]),
            _ => Payoff::Fixed(vec![Effect::FreeWorker(1)]),
        };
        buildings.push(BuildingDef { cost, payoff });
    }
    let mut monuments = Vec::new();
    for i in 0..13u8 {
        monuments.push(MonumentDef { cost: [2, 1 + (i % 3) as i8, 1, 0] });
    }
    Rulebook { buildings, monuments, tops: [6, 8, 7], prune }
}

/// Turn every gear by one space.
fn turn_gears(g: &mut GameState) {
    let mut gears = [GearState { occ: [255; 11] }; 5];
    for w in 0..24 {
        if let WorkerLoc::OnGear { gear, pos } = g.workers[w] {
            if pos.0 + 1 < gear.size() {
                let to = Pos(pos.0 + 1);
                g.workers[w] = WorkerLoc::OnGear { gear, pos: to };
                gears[gear.idx()].occ[to.0 as usize] = w as u8;
            } else {
                g.workers[w] = WorkerLoc::Available;
            }
        }
    }
    g.gears = gears;
}

/// One round: every seat draws a legal move, and the gears turn.
fn play_round(rules: &Rulebook, g: &mut GameState, rng: &mut StdRng) {
    for seat in 0..4 {
        let p = PlayerId(seat);
        if let Some(m) = sample_legal_move(rules, g, p, rng) {
            assert!(check_move(rules, g, p, &m).is_ok());
            apply_move(rules, g, p, &m);
        }
    }
    turn_gears(g);
    g.day += 1;
}

/// Every choice of every worker of positions that sampled play reaches, with
/// the seat it belongs to.
fn take_nodes(seeds: std::ops::Range<u64>) -> Vec<(GameState, PlayerId, Vec<Step>)> {
    let rules = book(0);
    let mut out = Vec::new();
    for seed in seeds {
        let mut rng = StdRng::seed_from_u64(seed);
        let mut g = start(seed);
        for _ in 0..14 {
            for w in 0..24u8 {
                if let WorkerLoc::OnGear { gear, pos } = g.workers[w as usize] {
                    let p = PlayerId(w / 6);
                    let cs = choices_for_worker(&rules, &g, p, gear, pos);
                    if cs.len() > 1 {
                        let steps: Vec<Step> = cs.into_iter().map(Step::Take).collect();
                        out.push((g, p, steps));
                    }
                }
            }
            play_round(&rules, &mut g, &mut rng);
        }
    }
    out
}

fn share(f: Fraction) -> f64 {
    f.num as f64 / f.den as f64
}

#[test]
fn schedule_is_continuous() {
    let s = fitted();
    let weights = |d: u8| {
        let (w, span) = s.at(d);
        w.map(|x| x as f32 / span as f32 / 100.0)
    };
    for d in 0..LAST_DAY {
        let a = weights(d);
        let b = weights(d + 1);
        for k in 0..8 {
            assert!(
                (a[k] - b[k]).abs() <= MAX_W as f32 / 100.0 / 4.0,
                "term {k} jumps {} -> {} between day {d} and {}",
                a[k],
                b[k],
                d + 1
            );
        }
    }
    // And it must hit the knots exactly.
    for (k, &d) in KNOTS.iter().enumerate() {
        let (w, span) = s.at(d);
        let exact: Vec<i64> = s.w[k].iter().map(|&x| x as i64 * span).collect();
        assert_eq!(w.to_vec(), exact, "knot at day {d}");
    }
}

fn thirds(n: [u32; 3], den: u32) -> [Fraction; 3] {
    n.map(|num| Fraction { num, den })
}

fn spread_at(f: [Fraction; 3]) -> f64 {
    let s = spread(f, 27);
    s.num as f64 / s.den as f64
}

#[test]
fn focus_measures_spread_not_size() {
    assert_eq!(spread_at(thirds([5, 5, 5], 10)), 0.0, "level lines are no plan");
    assert_eq!(spread_at(thirds([1, 1, 1], 10)), 0.0, "and neither is having little");
    // Same total, all on one line: the commitment.
    assert!(spread_at(thirds([9, 0, 0], 10)) > spread_at(thirds([3, 3, 3], 10)));
    // More of everything must not read as more commitment.
    assert_eq!(spread_at(thirds([9, 0, 0], 10)), spread_at(thirds([9, 0, 0], 10)));
    assert!(spread_at(thirds([10, 10, 10], 10)) < spread_at(thirds([6, 0, 0], 10)));
    // The farthest line's lead over the mean, exactly.
    assert!((spread_at(thirds([9, 0, 0], 10)) - 0.6).abs() < 1e-12);
    assert_eq!(spread(thirds([9, 0, 0], 10), 2).num, 0);
}

#[test]
fn lines_do_not_share_inputs() {
    let rules = book(0);
    let mut g = start(5);
    g.day = 4;
    let p = PlayerId(0);
    let all = [Line::Skulls, Line::Construction, Line::Temples];
    let before = all.map(|l| share(line_progress(&rules, &g, p, l)));
    g.players[p.idx()].res[Resource::Stone.idx()] += 4;
    let after = all.map(|l| share(line_progress(&rules, &g, p, l)));
    assert_eq!(
        before, after,
        "raw blocks must not move any line: they are already priced by `held`"
    );
    g.players[p.idx()].res[Resource::Skull.idx()] += 1;
    let moved = all.map(|l| share(line_progress(&rules, &g, p, l)));
    assert!(moved[0] > after[0]);
    assert_eq!(moved[1], after[1]);
    assert_eq!(moved[2], after[2]);
    let s = focus(&rules, &g, p);
    assert!(s.num > 0);
}

#[test]
fn temple_lines_invert_between_the_ages() {
    let rules = book(0);
    let mut g = start(11);
    let p = PlayerId(0);
    g.temples[Temple::Brown.idx()][p.idx()] = 4;
    g.temples[Temple::Yellow.idx()][p.idx()] = 4;
    g.day = 5;
    assert_eq!(next_scoring_age(&g), Some(1));
    let level = Rulebook { tops: [7, 7, 7], ..rules };
    let (b1, y1) = (
        temple_share(&level, &g, p, Temple::Brown, 1),
        temple_share(&level, &g, p, Temple::Yellow, 1),
    );
    g.day = 18;
    assert_eq!(next_scoring_age(&g), Some(2));
    let (b2, y2) = (
        temple_share(&level, &g, p, Temple::Brown, 2),
        temple_share(&level, &g, p, Temple::Yellow, 2),
    );
    assert!(y1.less(b1), "brown pays 6 and yellow 2 at the day-14 payout");
    assert!(b2.less(y2), "and the other way round at day 27");
}

#[test]
fn the_plan_step_price_inverts_with_the_age() {
    let rules = book(0);
    let (b1, y1) = (
        plan_temple_step(&rules, Temple::Brown, 1),
        plan_temple_step(&rules, Temple::Yellow, 1),
    );
    let (b2, y2) = (
        plan_temple_step(&rules, Temple::Brown, 2),
        plan_temple_step(&rules, Temple::Yellow, 2),
    );
    assert!(y1.less(b1), "brown pays 6 to yellow's 2 at day 14");
    assert!(b2.less(y2), "and 2 to yellow's 6 at day 27");
    assert_eq!(
        share(plan_temple_step(&rules, Temple::Green, 1)),
        share(plan_temple_step(&rules, Temple::Green, 2)),
        "green pays 4 in both ages, so it must not move with the age"
    );
}

#[test]
fn the_temple_target_abstains_on_a_tie() {
    let rules = book(0);
    let mut g = start(11);
    g.day = 4;
    let p = PlayerId(0);
    for t in [Temple::Brown, Temple::Yellow, Temple::Green] {
        g.temples[t.idx()][p.idx()] = STARTING_STEP;
    }
    assert_eq!(temple_target(&rules, &g, p), None, "level tracks name no plan");
    // Two steps up yellow and nothing else: the plan is yellow, in both ages.
    g.temples[Temple::Yellow.idx()][p.idx()] = 3;
    assert_eq!(temple_target(&rules, &g, p), Some(Temple::Yellow));
}

#[test]
fn naming_the_temple_only_narrows() {
    let rules = book(0);
    let mut seen = 0usize;
    let mut narrowed = 0usize;
    for (g, mover, steps) in take_nodes(50..70) {
        let target = temple_target(&rules, &g, mover);
        for step in &steps {
            let wide = lines_advanced(step, None);
            let narrow = lines_advanced(step, target);
            assert_eq!(
                wide & narrow,
                narrow,
                "naming credited a line the unnamed classifier did not"
            );
            let bit = 1 << (Line::Temples as u8);
            if wide & bit != 0 {
                seen += 1;
                if narrow & bit == 0 {
                    narrowed += 1;
                }
            }
        }
    }
    assert!(seen > 50, "only {seen} temple edges: the walk found nothing to test");
    assert!(
        narrowed > 0,
        "{seen} temple edges and naming dropped none of them, so the axis is inert"
    );
}

#[test]
fn the_blind_control_moves_the_same_edges() {
    let mut touched = 0usize;
    for (_, _, steps) in take_nodes(30..46) {
        for step in &steps {
            let plan = steer(step, Line::Temples, None, false, false);
            let blind = steer(step, Line::Temples, None, false, true);
            assert_eq!(
                matches!(plan, Steer::Keep),
                matches!(blind, Steer::Keep),
                "the two arms disagree about which edges to touch"
            );
            if !matches!(plan, Steer::Keep) {
                touched += 1;
            }
        }
    }
    assert!(touched > 100, "only {touched} edges touched: the walk found nothing to test");
}

#[test]
fn the_shuffled_control_keeps_the_weights_and_moves_them() {
    let (mut wide, mut moved) = (0usize, 0usize);
    for (g, mover, steps) in take_nodes(110..150) {
        let a: Vec<u32> = steps
            .iter()
            .map(|s| match steer(s, Line::Construction, None, false, false) {
                Steer::Keep => 1,
                Steer::Raise => 32,
                Steer::Lower => 0,
            })
            .collect();
        let mut b = a.clone();
        shuffle_weights(&g, mover, &mut b);
        let (mut x, mut y) = (a.clone(), b.clone());
        x.sort();
        y.sort();
        assert_eq!(x, y, "day {}: the control changed the weights", g.day);
        if steps.len() >= 8 && x.first() != x.last() {
            wide += 1;
            if a != b {
                moved += 1;
            }
        }
    }
    assert!(wide > 20, "only {wide} nodes had two distinct weights to permute");
    assert!(
        moved * 2 > wide,
        "{moved} of {wide} nodes permuted: the control is barely moving anything"
    );
}

#[test]
fn construction_and_temple_edges_raise_the_line_they_name() {
    let rules = book(0);
    for (g, mover, steps) in take_nodes(20..26) {
        for step in &steps {
            let mask = lines_advanced(step, None);
            for l in [Line::Construction, Line::Temples] {
                if mask & (1 << (l as u8)) == 0 {
                    continue;
                }
                let before = line_progress(&rules, &g, mover, l);
                let mut after = g;
                if let Step::Take(c) = step {
                    c.apply(&rules, &mut after, mover);
                }
                let now = line_progress(&rules, &after, mover, l);
                assert!(!now.less(before), "day {} {l:?}", g.day);
            }
        }
    }
}

#[test]
fn reach_respects_the_calendar() {
    let g = start(3);
    // Nothing is placed at setup, so every reach comes from a worker in hand:
    // one turn to place, then so many rotations.
    assert_eq!(days_to_reach(&g, PlayerId(0), Gear::Tikal, 3), Some(4));
    let mut end = g;
    end.day = LAST_DAY;
    assert_eq!(days_to_reach(&end, PlayerId(0), Gear::Tikal, 3), None);
    let mut near = g;
    near.workers[0] = WorkerLoc::OnGear { gear: Gear::Tikal, pos: Pos(2) };
    assert_eq!(days_to_reach(&near, PlayerId(0), Gear::Tikal, 3), Some(1));
}

#[test]
fn food_days_are_counted_down() {
    let mut g = start(1);
    assert_eq!(days_to_food(&g), Some(8));
    g.day = 20;
    assert_eq!(days_to_food(&g), Some(1));
    g.day = 27;
    assert_eq!(days_to_food(&g), None);
}

#[test]
fn leading_lines_are_the_first_of_the_farthest() {
    assert_eq!(leading_line(thirds([2, 2, 1], 6)), Line::Skulls);
    assert_eq!(leading_line(thirds([1, 2, 2], 6)), Line::Construction);
    assert_eq!(leading_line(thirds([1, 2, 3], 6)), Line::Temples);
}

#[test]
fn schedules_can_be_pinned_and_pasted() {
    let s = fitted().with(STARVATION, 500).sanitise();
    assert_eq!(s.w[0][STARVATION], MAX_W);
    assert_eq!(s.w[4][BANKED], 100);
    let below = fitted().with(STARVATION, -125);
    assert_eq!(below.w[2][STARVATION], -125);
    assert_eq!(below.at(3).0[STARVATION], -125 * 8);
    assert!(below.to_source().contains(", -1.25, ],\n"));
    assert_eq!(below.sanitise().w[2][STARVATION], 0);
    assert_eq!(identity().w, [[100i32; 8]; 5]);
    assert_eq!(half().w[0][2], 50);
    assert_eq!(refit().w[4][5], 23);
    let text = refit().to_source();
    assert!(text.starts_with("Schedule { w: [\n    /* day  0 */ [1.00, 1.00, 0.00, 0.23, "));
    assert!(text.contains("    /* day 27 */ [1.00, 1.00, 0.84, 1.18, 0.84, 0.23, 1.08, 0.98, ],\n"));
    assert!(text.ends_with("] }"));
}

#[test]
fn starting_hands_are_priced_by_what_they_hand_over() {
    let mut g = start(0);
    let p = PlayerId(0);
    g.players[0].corn = 4;
    g.players[0].res = [2, 1, 1, 1];
    g.players[0].free_workers = 1;
    g.research[0] = [1, 0, 1, 0];
    g.temples[Temple::Brown.idx()][0] = 3;
    g.temples[Temple::Yellow.idx()][0] = 1;
    g.temples[Temple::Green.idx()][0] = 1;
    g.workers[3] = WorkerLoc::Available;
    let mut climbed = [0i16; 3];
    climbed[Temple::Brown.idx()] = 2;
    // 1.80 corn, 1.80 + 1.10 + 1.40 blocks, 0.60 for the spread, 4 for the skull,
    // 4.50 for the worker, 2 for feeding it, 3.20 for research and 2 + 3 for
    // brown.
    assert_eq!(n_unlocked(&g, p), 4);
    assert_eq!(draft_value(&g, p, climbed), 180 + 430 + 60 + 400 + 450 + 200 + 320 + 500);
    g.temples[Temple::Brown.idx()][0] = 1;
    assert_eq!(draft_value(&g, p, climbed), 180 + 430 + 60 + 400 + 450 + 200 + 320);
}

#[test]
fn conversion_shrinks_with_the_calendar() {
    let mut g = start(0);
    let early = conversion_reach(&g, PlayerId(0));
    g.day = 27;
    let late = conversion_reach(&g, PlayerId(0));
    assert!(late.less(early));
}
