use tzolkin::affordable::payoffs_are_free;
use tzolkin::agents::{pair_by, random_pair, shortlist};
use rand::rngs::StdRng;
use rand::SeedableRng;
use tzolkin::book::{BuildingDef, MonumentDef, Payoff, Rulebook};
use tzolkin::dominance::{dedup, dominated_dedup};
use tzolkin::effect::{Choice, Effect};
use tzolkin::ids::{
    BuildingId, Color, Gear, MonumentId, PlayerId, Pos, Science, Temple, WorkerId,
};
use tzolkin::legal::{apply_move, check_move, playable, Fault};
use tzolkin::moves::{
    beg_options, choices_for_worker, count_legal_moves, has_legal_move, has_normal_move,
    legal_moves, legal_moves_capped, pity_moves, Move, MoveKind, Placement, Placements,
    Retrievals,
};
use tzolkin::options::n_monuments;
use tzolkin::pricing::EffectPrice;
use tzolkin::positions::{Positions, ScoreTable};
use tzolkin::phase::Step;
use tzolkin::sampling::{
    beg_candidates, beg_order, either_way, first_that_worked, place_drawn, reorder,
    sample_legal_move, take_drawn, with_drawn,
};
use tzolkin::state::{Deck, GameState, GearState, Player, TileStack, WorkerLoc};
use tzolkin::turnlines::{best_turns, merge_turns};
use tzolkin::search::{
    ab, advance_seat, beam, by_score, candidates, deepen, next_round, prefers_extra_day, Bound, Config,
    Entry, Frame, Kids, Search, Tree, Visit, HIGH, LOW,
};

fn player(color: Color, seed: u64) -> Player {
    Player {
        color,
        corn: 3 + (seed % 7) as u8,
        res: [1 + (seed % 3) as u8, 1, (seed % 2) as u8, 1],
        points: 0,
        corn_tiles: 0,
        wood_tiles: 0,
        free_workers: 0,
        worker_discount: 0,
        may_skip_day: true,
        buildings: 0,
        monuments: 0,
    }
}

/// A position to begin from: three workers in hand each, empty gears, full
/// displays.
fn start(seed: u64) -> GameState {
    let mut workers = [WorkerLoc::Locked; 24];
    for seat in 0..4 {
        for k in 0..3 {
            workers[6 * seat + k] = WorkerLoc::Available;
        }
    }
    let mut palenque = [TileStack { corn: 0, wood: 0 }; 8];
    for pos in 2..6 {
        palenque[pos] = TileStack { corn: 4, wood: if pos == 2 { 0 } else { 4 } };
    }
    let mut age1 = Deck { ids: [0u8; 14], next: 6 };
    for i in 0..14 {
        age1.ids[i] = i as u8 + 1;
    }
    let mut age2 = Deck { ids: [0u8; 18], next: 0 };
    for i in 0..18 {
        age2.ids[i] = i as u8 + 15;
    }
    let mut monument_deck = Deck { ids: [0u8; 13], next: 6 };
    for i in 0..13 {
        monument_deck.ids[i] = i as u8 + 1;
    }
    let mut buildings_up = [None; 6];
    let mut monuments_up = [None; 6];
    for i in 0..6 {
        buildings_up[i] = Some(BuildingId(i as u8 + 1));
        monuments_up[i] = Some(MonumentId(i as u8 + 1));
    }
    GameState {
        players: [
            player(Color::Red, seed),
            player(Color::Green, seed + 1),
            player(Color::Blue, seed + 2),
            player(Color::Yellow, seed + 3),
        ],
        workers,
        gears: [GearState { occ: [255; 11] }; 5],
        temples: [[1 + (seed % 2) as u8, 1, 1, 2], [1; 4], [1, 2, 1, 1]],
        research: [[0; 4], [1, 0, 0, 0], [0, 1, 0, 0], [0; 4]],
        palenque,
        chichen_filled: 0,
        age1,
        age2,
        monument_deck,
        buildings_up,
        monuments_up,
        first_player_space: None,
        accumulated_corn: 0,
        skulls_remaining: 13,
        current: PlayerId(0),
        first_player: PlayerId(0),
        age: 1,
        day: 0,
        over: false,
    }
}

/// Cards with a cost and a reward of each kind.
fn book(prune: u8) -> Rulebook {
    let mut buildings = Vec::new();
    for i in 0..32u8 {
        let cost: [i8; 4] = [1 + (i % 2) as i8, (i % 3) as i8, (i / 16) as i8, 0];
        let payoff = match i % 6 {
            0 => Payoff::Fixed(vec![Effect::Points(3)]),
            1 => Payoff::FreeTrack(Science::Agriculture, vec![Effect::Corn(1)]),
            2 => Payoff::FreeAny(1, vec![Effect::Points(1)]),
            3 => Payoff::CornExchange(vec![Effect::Points(2)]),
            4 => Payoff::Fixed(vec![Effect::TempleStep(Temple::Green, 1)]),
            _ => Payoff::Fixed(vec![Effect::FreeWorker(1)]),
        };
        buildings.push(BuildingDef { cost, payoff });
    }
    let mut monuments = Vec::new();
    for i in 0..13u8 {
        monuments.push(MonumentDef { cost: [2, 1 + (i % 3) as i8, 1, 0] });
    }
    Rulebook { buildings, monuments, tops: [6, 8, 7], prune }
}

/// Turn every gear by one space.
fn turn_gears(g: &mut GameState) {
    let mut gears = [GearState { occ: [255; 11] }; 5];
    for w in 0..24 {
        if let WorkerLoc::OnGear { gear, pos } = g.workers[w] {
            if pos.0 + 1 < gear.size() {
                let to = Pos(pos.0 + 1);
                g.workers[w] = WorkerLoc::OnGear { gear, pos: to };
                gears[gear.idx()].occ[to.0 as usize] = w as u8;
            } else {
                g.workers[w] = WorkerLoc::Available;
            }
        }
    }
    g.gears = gears;
}

/// One round: every seat draws a legal move, and the gears turn.
fn play_round(rules: &Rulebook, g: &mut GameState, rng: &mut StdRng) {
    for seat in 0..4 {
        let p = PlayerId(seat);
        if let Some(m) = sample_legal_move(rules, g, p, rng) {
            assert!(playable(&m));
            assert!(check_move(rules, g, p, &m).is_ok());
            apply_move(rules, g, p, &m);
        }
    }
    turn_gears(g);
    g.day += 1;
}

fn leaf(v: i64) -> Tree {
    Tree::Leaf(v)
}

fn branch(maximizing: bool, kids: Vec<Tree>) -> Tree {
    let mut list = Kids::End;
    for kid in kids.into_iter().rev() {
        list = Kids::Then { kid, rest: Box::new(list) };
    }
    Tree::Node { maximizing, kids: Box::new(list) }
}

#[test]
fn pruning_finds_the_minimax_value() {
    let t = branch(
        true,
        vec![
            branch(false, vec![leaf(3), leaf(12), leaf(8)]),
            branch(false, vec![leaf(2), leaf(4), leaf(6)]),
            branch(false, vec![leaf(14), leaf(5), leaf(2)]),
        ],
    );
    assert_eq!(ab(&t, LOW, HIGH), 3);
    // A window above the value proves only that it is no more.
    assert!(ab(&t, 5, 9) <= 5);
    assert!(ab(&t, 0, 2) >= 2);
}

#[test]
fn stored_bounds_answer_only_the_windows_they_settle() {
    let exact = Entry { value: 4, bound: Bound::Exact };
    assert_eq!(exact.probe(0, 9), Some(4));
    let lower = Entry { value: 4, bound: Bound::Lower };
    assert_eq!(lower.probe(0, 4), Some(4));
    assert_eq!(lower.probe(0, 5), None);
    let upper = Entry { value: 4, bound: Bound::Upper };
    assert_eq!(upper.probe(4, 9), Some(4));
    assert_eq!(upper.probe(3, 9), None);
}

#[test]
fn frames_remember_how_they_closed() {
    let mut f = Frame::enter(true, 0, 10);
    assert!(!f.take(4));
    assert_eq!(f.close().bound, Bound::Exact);
    assert!(f.take(11));
    assert_eq!(f.close().bound, Bound::Lower);
    let mut g = Frame::enter(true, 5, 10);
    assert!(!g.take(2));
    assert_eq!(g.close().bound, Bound::Upper);
}

#[test]
fn searches_remember_scores() {
    let g = start(0);
    let mut s = Search::new(Config::default());
    s.begin(PlayerId(0));
    let mut f = match s.enter(&g, 2, false, LOW, HIGH) {
        Visit::Open(f) => f,
        _ => panic!("nothing is known yet"),
    };
    s.expand(1);
    assert!(!s.absorb(&mut f, 7));
    assert_eq!(s.leave(&g, 2, &f), 7);
    assert!(matches!(s.enter(&g, 2, false, LOW, HIGH), Visit::Known(7)));
    assert!(matches!(s.enter(&g, 1, false, LOW, HIGH), Visit::Open(_)));
    assert!(matches!(s.enter(&g, 0, false, LOW, HIGH), Visit::Score));
    assert_eq!(s.stats.tt_hits, 1);
    s.clear();
    assert!(matches!(s.enter(&g, 2, false, LOW, HIGH), Visit::Open(_)));
}

#[test]
fn candidates_are_legal_and_different() {
    let rules = book(2);
    let mut rng = StdRng::seed_from_u64(1);
    let g = start(3);
    let p = PlayerId(0);
    let all = legal_moves(&rules, &g, p);
    assert_eq!(all.len(), count_legal_moves(&rules, &g, p));
    assert!(has_legal_move(&rules, &g, p) && has_normal_move(&rules, &g, p));
    let few = candidates(&rules, &g, p, 5, 8, &mut rng);
    assert!(few.len() >= 5 && few.len() <= 13);
    for (i, m) in few.iter().enumerate() {
        assert!(check_move(&rules, &g, p, m).is_ok());
        for other in &few[i + 1..] {
            assert!(!m.same(other));
        }
    }
    let listed = candidates(&rules, &g, p, 100_000, 8, &mut rng);
    assert_eq!(listed.len(), all.len());
    let scores: Vec<i64> = (0..listed.len() as i64).collect();
    let best = beam(&listed, &scores, 4);
    assert!(best.len() <= 4);
    assert_eq!(best[0], listed.len() - 1);
}

#[test]
fn shortlists_drop_repeats() {
    let rules = book(2);
    let mut rng = StdRng::seed_from_u64(9);
    let g = start(1);
    let ms = shortlist(&rules, &g, PlayerId(2), 40, &mut rng);
    assert!(!ms.is_empty() && ms.len() <= 40);
    for (i, m) in ms.iter().enumerate() {
        assert!(check_move(&rules, &g, PlayerId(2), m).is_ok());
        assert!(ms[i + 1..].iter().all(|o| !m.same(o)));
    }
    assert!(shortlist(&rules, &g, PlayerId(2), 0, &mut rng).is_empty());
}

#[test]
fn deepening_keeps_what_was_not_finished() {
    let d = deepen(&vec![9, 8, 7], &vec![Some(1), Some(20), None]).unwrap();
    assert_eq!(d.done, 2);
    assert_eq!(d.scores, vec![1, 20, 7]);
    assert_eq!(d.order, vec![1, 2, 0]);
    assert!(deepen(&vec![1, 2], &vec![None, None]).is_none());
    assert_eq!(by_score(&vec![2, 5, 5, 1]), vec![1, 2, 0, 3]);
}

#[test]
fn seats_are_handed_on() {
    let mut g = start(0);
    g.first_player = PlayerId(2);
    assert!(!advance_seat(&mut g));
    assert!(advance_seat(&mut g));
    assert_eq!(g.current, PlayerId(2));
    assert!(prefers_extra_day(3, 4));
    assert!(!prefers_extra_day(4, 4));
}

#[test]
fn rounds_end_with_the_seat_that_begins_the_next() {
    let mut one = start(0);
    one.day = 1;
    one.first_player = PlayerId(2);
    let mut two = start(0);
    two.day = 2;
    two.first_player = PlayerId(3);
    let a = next_round(one, Some(two), 5, 6);
    assert_eq!((a.day, a.current), (2, PlayerId(3)));
    let b = next_round(one, Some(two), 5, 5);
    assert_eq!((b.day, b.current), (1, PlayerId(2)));
    let c = next_round(one, None, 0, 9);
    assert_eq!((c.day, c.current), (1, PlayerId(2)));
}

#[test]
fn generated_moves_are_all_legal() {
    let rules = book(0);
    let tight = book(2);
    for seed in 0..6 {
        let mut rng = StdRng::seed_from_u64(seed);
        let mut g = start(seed);
        for _ in 0..4 {
            for seat in 0..4 {
                let p = PlayerId(seat);
                let wide = legal_moves_capped(&rules, &g, p, 400);
                for m in &wide {
                    assert!(check_move(&rules, &g, p, m).is_ok());
                }
                let narrow = legal_moves_capped(&tight, &g, p, 400);
                assert!(!narrow.is_empty());
            }
            play_round(&rules, &mut g, &mut rng);
        }
    }
}

fn place(spots: Vec<(WorkerId, Placement)>, beg: Option<Temple>, corn_cost: u8) -> Move {
    Move { kind: MoveKind::Place(Placements::of_list(&spots)), beg, corn_cost }
}

#[test]
fn legal_moves_are_listed_once_and_retrievals_part_ways() {
    for prune in [0, 2] {
        let rules = book(prune);
        for seed in 0..4 {
            let mut rng = StdRng::seed_from_u64(seed);
            let mut g = start(seed);
            for _ in 0..3 {
                play_round(&rules, &mut g, &mut rng);
            }
            g.players[0].corn = 2;
            let p = PlayerId(0);
            if count_legal_moves(&rules, &g, p) > 600 {
                continue;
            }
            let ms = legal_moves(&rules, &g, p);
            let mut ends: Vec<GameState> = Vec::new();
            for (i, m) in ms.iter().enumerate() {
                assert!(playable(m));
                assert!(ms[..i].iter().all(|x| !x.same(m)));
                if let MoveKind::Retrieve(_) = m.kind {
                    let mut h = g;
                    apply_move(&rules, &mut h, p, m);
                    assert!(!ends.contains(&h));
                    ends.push(h);
                }
            }
        }
    }
}

#[test]
fn moves_that_name_what_does_not_exist_are_not_playable() {
    let spot = Placement::Gear(Gear::Palenque, Pos(7));
    assert!(playable(&place(vec![(WorkerId(23), spot)], None, 0)));
    assert!(!playable(&place(vec![(WorkerId(24), spot)], None, 0)));
    let beyond = Placement::Gear(Gear::Palenque, Pos(8));
    assert!(!playable(&place(vec![(WorkerId(0), spot), (WorkerId(1), beyond)], None, 0)));
    assert!(playable(&place(vec![(WorkerId(0), Placement::Gear(Gear::Chichen, Pos(10)))], None, 0)));
    let pity = |spot| Move {
        kind: MoveKind::Pity { worker: WorkerId(3), spot },
        beg: None,
        corn_cost: 0,
    };
    assert!(playable(&pity(Placement::FirstPlayer)));
    assert!(!playable(&pity(Placement::Gear(Gear::Chichen, Pos(11)))));
    let take = |e| Move {
        kind: MoveKind::Retrieve(Retrievals::of_list(&vec![(WorkerId(0), Choice::one(e))])),
        beg: None,
        corn_cost: 0,
    };
    assert!(playable(&take(Effect::Build(BuildingId(32)))));
    assert!(!playable(&take(Effect::Build(BuildingId(33)))));
    assert!(!playable(&take(Effect::TakeMonument(MonumentId(0)))));
    assert!(playable(&take(Effect::FillChichen(Pos(9)))));
}

fn placed_on(m: &Move) -> Vec<(WorkerId, Placement)> {
    match &m.kind {
        MoveKind::Place(v) => v.to_list(),
        _ => panic!("not a placement"),
    }
}

#[test]
fn begging_is_tried_rarely_first_and_always_last() {
    let (b, y) = (Some(Temple::Brown), Some(Temple::Yellow));
    assert_eq!(beg_order(&vec![None], None, 0), vec![None]);
    assert_eq!(beg_order(&vec![None, b, y], None, 2), vec![None, y]);
    assert_eq!(beg_order(&vec![None, b, y], Some(1), 2), vec![b, None, y]);
    let rules = book(0);
    let mut g = start(1);
    let p = PlayerId(0);
    let mut rng = StdRng::seed_from_u64(5);
    g.players[0].corn = 3;
    assert_eq!(beg_candidates(&rules, &g, p, &mut rng), vec![None]);
    g.players[0].corn = 2;
    let (mut up_front, mut later) = (0, 0);
    for _ in 0..400 {
        let tries = beg_candidates(&rules, &g, p, &mut rng);
        assert!(tries.last().unwrap().is_some());
        assert_eq!(tries.iter().filter(|t| t.is_none()).count(), 1);
        if tries[0].is_some() {
            assert_eq!(tries.len(), 3);
            up_front += 1;
        } else {
            assert_eq!(tries.len(), 2);
            later += 1;
        }
    }
    assert!(20 < up_front && up_front < 120 && later > 250);
}

#[test]
fn drawn_values_fix_a_placement() {
    let g = start(1);
    let p = PlayerId(0);
    let all = vec![
        Placement::Gear(Gear::Palenque, Pos(0)),
        Placement::Gear(Gear::Palenque, Pos(1)),
        Placement::FirstPlayer,
    ];
    let m = place_drawn(&g, p, 4, None, &vec![true, true], &vec![0, 0, 4]).unwrap();
    let want: Vec<(WorkerId, Placement)> =
        all.iter().enumerate().map(|(i, &s)| (WorkerId(i as u8), s)).collect();
    assert_eq!(placed_on(&m), want);
    assert_eq!(m.corn_cost, 4);
    // A seat that cannot pay for the third stops at two, and one that is told
    // to stop stops.
    let m = place_drawn(&g, p, 3, None, &vec![true, true], &vec![0, 0, 4]).unwrap();
    assert_eq!(placed_on(&m), want[..2].to_vec());
    let beg = Some(Temple::Green);
    let m = place_drawn(&g, p, 9, beg, &vec![false], &vec![5, 0]).unwrap();
    assert_eq!(placed_on(&m), vec![(WorkerId(0), Placement::FirstPlayer)]);
    assert_eq!((m.beg, m.corn_cost), (beg, 0));
    let mut full = g;
    full.workers[0] = WorkerLoc::Locked;
    full.workers[1] = WorkerLoc::Locked;
    full.workers[2] = WorkerLoc::Locked;
    assert!(place_drawn(&full, p, 9, None, &vec![], &vec![0]).is_none());
}

#[test]
fn drawn_values_fix_a_retrieval() {
    let rules = book(0);
    let mut g = start(1);
    let p = PlayerId(0);
    for (w, pos) in [(0u8, 1u8), (1, 2)] {
        let at = WorkerLoc::OnGear { gear: Gear::Yaxchilan, pos: Pos(pos) };
        g.workers[w as usize] = at;
        g.gears[Gear::Yaxchilan.idx()].occ[pos as usize] = w;
    }
    let order = vec![WorkerId(1), WorkerId(2), WorkerId(0)];
    let first = choices_for_worker(&rules, &g, p, Gear::Yaxchilan, Pos(2));
    let k = first.len() - 1;
    let m = take_drawn(&rules, &g, p, None, &order, &vec![true, true], &vec![k, 0, 0]).unwrap();
    let MoveKind::Retrieve(v) = &m.kind else { panic!("not a retrieval") };
    let took = v.to_list();
    assert_eq!(took.len(), 2);
    assert_eq!((took[0].0, took[1].0), (WorkerId(1), WorkerId(0)));
    assert!(took[0].1.same(&first[k]));
    let m = take_drawn(&rules, &g, p, None, &order, &vec![false], &vec![k]).unwrap();
    let MoveKind::Retrieve(v) = &m.kind else { panic!("not a retrieval") };
    assert_eq!(v.to_list().len(), 1);
    assert!(take_drawn(&rules, &g, p, None, &vec![WorkerId(2)], &vec![], &vec![0]).is_none());
}

#[test]
fn the_first_draw_that_worked_is_played() {
    let on = |w: u8| place(vec![(WorkerId(w), Placement::FirstPlayer)], None, 0);
    let who = |m: Option<Move>| m.map(|m| placed_on(&m)[0].0 .0);
    assert_eq!(who(either_way(true, Some(on(1)), Some(on(2)))), Some(1));
    assert_eq!(who(either_way(false, Some(on(1)), Some(on(2)))), Some(2));
    assert_eq!(who(either_way(true, None, Some(on(2)))), Some(2));
    assert_eq!(who(either_way(false, Some(on(1)), None)), Some(1));
    assert_eq!(who(first_that_worked(&vec![None, Some(on(3)), Some(on(4))], Some(on(5)))), Some(3));
    assert_eq!(who(first_that_worked(&vec![None, None], Some(on(5)))), Some(5));
    assert_eq!(who(first_that_worked(&vec![None], None)), None);
    let out = with_drawn(vec![on(1), on(2)], vec![on(3), on(2), on(3), on(4)]);
    let ids: Vec<u8> = out.iter().map(|m| placed_on(m)[0].0 .0).collect();
    assert_eq!(ids, vec![1, 2, 3, 4]);
}

#[test]
fn three_picks_keep_two_tiles() {
    let dealt = [10, 11, 12, 13];
    assert_eq!(pair_by(dealt, [3, 2, 1]), [10, 11]);
    assert_eq!(pair_by(dealt, [0, 2, 1]), [13, 11]);
    assert_eq!(pair_by(dealt, [3, 2, 0]), [11, 10]);
    assert_eq!(pair_by(dealt, [0, 0, 0]), [11, 12]);
}

#[test]
fn books_and_positions_say_whether_they_are_sound() {
    let rules = book(0);
    assert!(rules.is_sound() && payoffs_are_free(&rules));
    let mut taking = book(0);
    taking.buildings[3].payoff = Payoff::Mirror(vec![Effect::Points(1), Effect::Corn(-1)]);
    assert!(taking.is_sound() && !payoffs_are_free(&taking));
    let mut short = book(0);
    short.monuments.pop();
    assert!(!short.is_sound());
    let mut dear = book(0);
    dear.buildings[31].cost = [0, 31, 0, 0];
    assert!(!dear.is_sound());
    let mut odd = book(0);
    odd.buildings[0].payoff = Payoff::Fixed(vec![Effect::Build(BuildingId(33))]);
    assert!(!odd.is_sound());
    let g = start(0);
    assert!(g.is_sound());
    let mut off = g;
    off.workers[23] = WorkerLoc::OnGear { gear: Gear::Tikal, pos: Pos(8) };
    assert!(!off.is_sound());
    let mut card = g;
    card.monuments_up[5] = Some(MonumentId(14));
    assert!(!card.is_sound());
}

#[test]
fn steps_are_compared_by_what_they_do() {
    let steps = vec![
        Step::Beg(None),
        Step::Beg(Some(Temple::Green)),
        Step::Place(Placement::FirstPlayer),
        Step::Pity(Placement::FirstPlayer),
        Step::Take(Choice::one(Effect::Corn(1))),
        Step::Take(Choice::one(Effect::Corn(2))),
        Step::StopPlacing,
        Step::StopRetrieving,
        Step::ExtraDay(true),
        Step::DraftTile(3),
    ];
    for (i, a) in steps.iter().enumerate() {
        for (j, b) in steps.iter().enumerate() {
            assert_eq!(a.same(&b.again()), i == j);
        }
    }
}

#[test]
fn illegal_moves_say_why() {
    let rules = book(0);
    let mut g = start(0);
    g.players[0].corn = 3;
    let p = PlayerId(0);
    let low = Placement::Gear(Gear::Tikal, Pos(0));
    let fault = |g: &GameState, m: &Move| check_move(&rules, g, p, m).err();
    assert!(fault(&g, &place(vec![(WorkerId(0), low)], None, 0)).is_none());
    assert!(matches!(
        fault(&g, &place(vec![(WorkerId(0), low)], Some(Temple::Brown), 0)),
        Some(Fault::BeggedRich(Temple::Brown))
    ));
    assert!(matches!(fault(&g, &place(vec![], None, 0)), Some(Fault::NoPlacements)));
    assert!(matches!(
        fault(&g, &place(vec![(WorkerId(0), low)], None, 2)),
        Some(Fault::WrongCost { claimed: 2, real: 0 })
    ));
    assert!(matches!(
        fault(&g, &place(vec![(WorkerId(5), low)], None, 0)),
        Some(Fault::NotInHand { .. })
    ));
    let high = Placement::Gear(Gear::Tikal, Pos(1));
    assert!(matches!(
        fault(&g, &place(vec![(WorkerId(0), high)], None, 1)),
        Some(Fault::NotLowest { .. })
    ));
    let pity = Move {
        kind: MoveKind::Pity { worker: WorkerId(0), spot: low },
        beg: None,
        corn_cost: 0,
    };
    assert!(matches!(fault(&g, &pity), Some(Fault::PityNotDue)));
    let none = Move {
        kind: MoveKind::Retrieve(Retrievals::of_list(&vec![])),
        beg: None,
        corn_cost: 0,
    };
    assert!(matches!(fault(&g, &none), Some(Fault::NoRetrievals)));
}

#[test]
fn moves_read_in_words() {
    let m = place(
        vec![
            (WorkerId(2), Placement::Gear(Gear::Tikal, Pos(3))),
            (WorkerId(4), Placement::FirstPlayer),
        ],
        Some(Temple::Green),
        4,
    );
    assert_eq!(m.describe("G", &vec![]), "[beg G] place(4 corn) w2->Tikal:3 w4->first");
    assert_eq!(m.n_workers(), 2);
    let c = Choice::one(Effect::Corn(3)).with(Effect::Points(1));
    let r = Move {
        kind: MoveKind::Retrieve(Retrievals::of_list(&vec![(WorkerId(1), c)])),
        beg: None,
        corn_cost: 0,
    };
    assert_eq!(r.describe("", &vec!["+3 corn".to_string()]), "retrieve w1[+3 corn]");
    match &r.kind {
        MoveKind::Retrieve(v) => {
            let list = v.to_list();
            assert_eq!(list[0].1.to_list(), vec![Effect::Corn(3), Effect::Points(1)]);
        }
        _ => panic!("a retrieval"),
    }
    let pity = Move {
        kind: MoveKind::Pity { worker: WorkerId(9), spot: Placement::FirstPlayer },
        beg: None,
        corn_cost: 0,
    };
    assert_eq!(pity.describe("", &vec![]), "pity w9->first");
}

#[test]
fn duplicates_and_dominated_choices_are_dropped() {
    let a = Choice::one(Effect::Corn(3));
    let b = Choice::one(Effect::Corn(2));
    let twice = vec![a.clone(), b.clone(), a.clone()];
    assert_eq!(dedup(twice).len(), 2);
    let kept = dominated_dedup(2, vec![a.clone(), b.clone(), Choice::skip()]);
    assert!(kept.iter().any(|c| c.same(&a)));
    assert!(!kept.iter().any(|c| c.same(&b)));
    let kept = dominated_dedup(0, vec![a.clone(), b.clone()]);
    assert_eq!(kept.len(), 2);
}

#[test]
fn skipping_is_always_offered_to_a_worker() {
    let rules = book(2);
    let g = start(2);
    for gear in [Gear::Palenque, Gear::Yaxchilan, Gear::Tikal, Gear::Uxmal, Gear::Chichen] {
        for pos in 0..gear.size() {
            let cs = choices_for_worker(&rules, &g, PlayerId(1), gear, Pos(pos));
            assert!(cs.iter().any(|c| c.is_skip()), "{gear:?} {pos}");
        }
    }
    assert_eq!(n_monuments(&rules), 13);
    assert_eq!(beg_options(&rules, &g, PlayerId(0)).len(), 1);
}

#[test]
fn starving_seats_are_pitied() {
    let rules = book(0);
    let mut g = start(0);
    // Every lowest space costs corn the seat does not have, and no temple step
    // is left to beg with.
    g.players[0].corn = 0;
    for t in 0..3 {
        g.temples[t][0] = 0;
    }
    for gear in 0..5 {
        g.gears[gear].occ[0] = 23;
    }
    g.first_player_space = Some(WorkerId(23));
    let pity = pity_moves(&g, PlayerId(0));
    assert!(!pity.is_empty());
    assert!(!has_normal_move(&rules, &g, PlayerId(0)));
    for m in &pity {
        assert!(check_move(&rules, &g, PlayerId(0), m).is_ok());
    }
}

#[test]
fn turns_that_do_the_same_are_taken_together() {
    let spot = |pos| Placement::Gear(Gear::Tikal, Pos(pos));
    let ms = vec![
        place(vec![(WorkerId(0), spot(0)), (WorkerId(1), spot(1))], None, 2),
        place(vec![(WorkerId(0), spot(0))], None, 0),
        place(vec![(WorkerId(2), spot(1)), (WorkerId(1), spot(0))], None, 2),
    ];
    let merged = merge_turns(&ms, &vec![5, 6, 4]);
    assert_eq!(merged, vec![(0, 9), (1, 6)]);
    assert_eq!(best_turns(&merged, 9), vec![0, 1]);
    assert_eq!(best_turns(&vec![(0, 3), (1, 8)], 1), vec![1]);
}

#[test]
fn random_pairs_are_two_of_the_dealt() {
    let mut rng = StdRng::seed_from_u64(5);
    let mut seen = std::collections::BTreeSet::new();
    for _ in 0..200 {
        let pair = random_pair([3, 7, 11, 19], &mut rng);
        assert!(pair[0] != pair[1]);
        assert!(pair.iter().all(|t| [3, 7, 11, 19].contains(t)));
        seen.insert(pair);
    }
    assert!(seen.len() > 8);
}

#[test]
fn positions_are_remembered_whole() {
    let mut s = Positions::new();
    let g = start(0);
    assert!(s.insert(g));
    assert!(!s.insert(g));
    let mut h = g;
    // The same word, and another position.
    h.gears[0].occ[0] = 3;
    assert!(s.insert(h));
    assert!(!s.insert(h) && !s.insert(g));
    let mut t = ScoreTable::new();
    let e = |value| Entry { value, bound: Bound::Exact };
    t.insert(&g, 1, e(5));
    t.insert(&h, 1, e(6));
    t.insert(&g, 1, e(7));
    assert_eq!(t.get(&g, 1).map(|x| x.value), Some(7));
    assert_eq!(t.get(&h, 1).map(|x| x.value), Some(6));
    assert!(t.get(&g, 2).is_none());
}

#[test]
fn choices_are_priced_by_their_effects() {
    let p = EffectPrice {
        corn: 2,
        res: [3, 5, 7, 11],
        points: 13,
        temple: [17, 19, 23],
        science: [29, 31, 37, 41],
        unlock_worker: 43,
        free_worker: 47,
        worker_discount: 53,
        palenque_tile: 59,
        burn_wood: -61,
        fill_chichen: 67,
        build: 71,
        monument: 73,
    };
    assert_eq!(p.of(Effect::Corn(-4)), -8);
    assert_eq!(p.of(Effect::AdvanceResearch(Science::Extraction)), 31);
    let c = Choice::of(&[Effect::Corn(3), Effect::Points(2), Effect::Build(BuildingId(4))]);
    assert_eq!(p.choice(&c), 6 + 26 + 71);
    assert_eq!(p.choice(&Choice::skip()), 0);
}

#[test]
fn picks_put_workers_in_order() {
    let board: Vec<WorkerId> = (0..4).map(WorkerId).collect();
    let after = |picks: Vec<usize>| -> Vec<u8> {
        reorder((0..4).map(WorkerId).collect(), &picks).iter().map(|w| w.0).collect()
    };
    assert_eq!(after(vec![3, 2, 1]), vec![0, 1, 2, 3]);
    assert_eq!(after(vec![0, 0, 0]), vec![1, 2, 3, 0]);
    assert_eq!(after(vec![1, 2, 0]), vec![3, 0, 2, 1]);
    assert_eq!(reorder(board[..1].to_vec(), &vec![]), vec![WorkerId(0)]);
}
