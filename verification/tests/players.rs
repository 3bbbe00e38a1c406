use tzolkin::agents::{
    best_choice, best_pair, selfplay_temperature, AgentSpec, GameConfig, MinimaxAgent,
    SearchAgent,
};
use tzolkin::flow::{Act, Flow};
use tzolkin::ids::PlayerId;
use tzolkin::mcts::{mcts_label, EdgeOrder, MctsConfig, Priors, RootPick, Shown};
use tzolkin::minimax::minimax_label;
use tzolkin::search::{Config, Opponents};
use tzolkin::specs::{flag_values, Candidates, Exploration, SpecFault};

/// The bits of a spec's fractions, as a host reads them.
fn bits(spec: &str) -> Vec<Option<u32>> {
    flag_values(&spec.chars().collect())
        .iter()
        .map(|v| v.iter().collect::<String>().parse::<f32>().ok().map(f32::to_bits))
        .collect()
}

fn parse(spec: &str) -> Result<AgentSpec, SpecFault> {
    AgentSpec::parse(spec, false, &bits(spec), &Config::default()).map_err(|e| e.fault)
}

fn fault(spec: &str) -> SpecFault {
    match parse(spec) {
        Ok(_) => panic!("{spec} should not parse"),
        Err(f) => f,
    }
}

fn shown(c: &MctsConfig) -> Shown {
    let text = |b: u32| format!("{}", f32::from_bits(b));
    Shown {
        prior_temp: text(c.prior_temp),
        c_puct_init: text(c.c_puct_init),
        c_puct_base: text(c.c_puct_base),
        fpu_reduction: text(c.fpu_reduction),
        widen_c: text(c.widen_c),
        widen_alpha: text(c.widen_alpha),
    }
}

#[test]
fn agent_specs_parse_or_say_why() {
    for spec in ["random", "heuristic", "heuristic:8", "mcts:4", "mcts:4:heuristic"] {
        let a = parse(spec).unwrap_or_else(|e| panic!("{spec}: {e:?}"));
        let c = a.mcts_config().unwrap_or_default();
        assert!(!a.name(&Config::default(), &shown(&c)).is_empty());
    }
    assert!(parse("mcts:4").unwrap_or_else(|_| panic!()).searches());
    assert!(!parse("heuristic:8").unwrap_or_else(|_| panic!()).searches());
    // A heuristic evaluator gains nothing from batching.
    assert!(!parse("mcts:4:heuristic").unwrap_or_else(|_| panic!()).batchable());
    for bad in ["nonsense", "heuristic:0", "mcts:0", "mcts", "greedy:4"] {
        assert!(parse(bad).is_err(), "{bad} should not parse");
    }
}

#[test]
fn every_fault_of_a_spec_is_named() {
    assert_eq!(fault("nonsense"), SpecFault::Agent);
    assert_eq!(fault("heuristic:0"), SpecFault::HeuristicZero);
    assert_eq!(fault("heuristic:x"), SpecFault::HeuristicCount);
    assert_eq!(fault("greedy:4"), SpecFault::GreedyShape);
    assert_eq!(fault("greedy:x:heuristic"), SpecFault::GreedyCount);
    assert_eq!(fault("greedy:0:heuristic"), SpecFault::GreedyZero);
    assert_eq!(fault("mcts"), SpecFault::MctsShape);
    assert_eq!(fault("mcts:x"), SpecFault::Sims);
    assert_eq!(fault("mcts:0"), SpecFault::SimsZero);
    assert_eq!(fault("mcts:4:nowhere"), SpecFault::Evaluator);
    assert_eq!(fault("mcts:4:heuristic:what=1"), SpecFault::MctsFlag);
    assert_eq!(fault("mcts:4:heuristic:cpuct=x"), SpecFault::CPuct);
    assert_eq!(fault("minimax:x"), SpecFault::Depth);
    assert_eq!(fault("minimax:0"), SpecFault::DepthZero);
    assert_eq!(fault("minimax:2:x"), SpecFault::Millis);
    assert_eq!(fault("minimax:2:5:x"), SpecFault::Width);
    assert_eq!(fault("minimax:2:5:0"), SpecFault::WidthZero);
    assert_eq!(fault("minimax:2:5:3:meek"), SpecFault::Model);
    assert_eq!(fault("minimax:2:5:3:greedy:odd"), SpecFault::MinimaxFlag);
    assert_eq!(fault("minimax:2:5:3:greedy:cache:more"), SpecFault::MinimaxExtra);
    assert_eq!(fault("net-random:huge"), SpecFault::NetSize);
    assert_eq!(fault("mcts:4:heuristic:pri=odd"), SpecFault::PriorsValue);
    assert_eq!(fault("mcts:4:heuristic:pt=x"), SpecFault::PriorTemp);
    assert_eq!(fault("mcts:4:heuristic:pmin=x"), SpecFault::PriorMin);
    assert_eq!(fault("mcts:4:heuristic:cpb=x"), SpecFault::CPuctBase);
    assert_eq!(fault("mcts:4:heuristic:fpu=x"), SpecFault::Fpu);
    assert_eq!(fault("mcts:4:heuristic:k=x"), SpecFault::MaxEdges);
    assert_eq!(fault("mcts:4:heuristic:wc=x"), SpecFault::WidenC);
    assert_eq!(fault("mcts:4:heuristic:wa=x"), SpecFault::WidenAlpha);
    assert_eq!(fault("mcts:4:heuristic:wcap=x"), SpecFault::WidenCap);
    assert_eq!(fault("mcts:4:heuristic:vl=x"), SpecFault::VirtualLoss);
}

#[test]
fn flags_reach_the_configuration() {
    let a = parse("mcts:64:heuristic:cpuct=2.5,k=40").unwrap_or_else(|f| panic!("{f:?}"));
    let c = a.mcts_config().unwrap();
    assert_eq!(f32::from_bits(c.c_puct_init), 2.5);
    assert_eq!(c.max_edges, 40);
    assert!(a.name(&Config::default(), &shown(&c)).contains("2.5"));
    assert_eq!(parse("heuristic:8").unwrap_or_else(|_| panic!()).mcts_config(), None);
}

#[test]
fn names_show_what_differs() {
    let d = MctsConfig::default();
    let plain = mcts_label(64, "heuristic", &d, &shown(&d));
    assert_eq!(plain, "mcts64/heuristic:pt=1:pmin=3");
    let mut c = d;
    c.priors = if d.priors == Priors::OnePly { Priors::Evaluator } else { Priors::OnePly };
    assert!(mcts_label(64, "heuristic", &c, &shown(&c)) != plain);
    let base = Config::default();
    let deep = Config::default().with_depth(6);
    assert!(minimax_label(&deep, &base) != minimax_label(&base, &base));
    assert!(matches!(base.opponents, Opponents::Paranoid));
    assert!(matches!(d.ordering, EdgeOrder::Prior | EdgeOrder::Gradient));
    assert!(matches!(d.root_pick, RootPick::Visits | RootPick::Value));
}

#[test]
fn minimax_specs_are_read() {
    let a = parse("minimax:3:200:6:greedy").unwrap_or_else(|f| panic!("{f:?}"));
    let c = a.minimax_config().unwrap();
    assert_eq!((c.max_depth, c.budget_ms), (3, 200));
    assert_eq!(c.widths, vec![6, 3, 2, 2, 2]);
    assert!(matches!(c.opponents, Opponents::Greedy));
    let base = Config::default();
    assert_eq!(base.width_at(0), 12);
    assert_eq!(base.width_at(9), 2);
    let m = MinimaxAgent::new(Config::default().with_budget_ms(9), &base, true);
    assert_eq!(m.cfg.budget_ms, 9);
    assert!(m.label.starts_with("minimax:d"));
}

#[test]
fn players_draw_different_seeds() {
    let mut a = parse("mcts:4").unwrap_or_else(|_| panic!());
    let (x, y, z) = (a.draw_seed(), a.draw_seed(), a.draw_seed());
    assert!(x != y && y != z && x != z);
    assert_eq!(x, 0x51ED_5EED);
}

#[test]
fn exploration_is_off_unless_recording() {
    let d = MctsConfig::default();
    let quiet = SearchAgent::new(80, false, d, 3);
    assert_eq!(quiet.cfg.dirichlet_eps, 0);
    assert!(quiet.always_full());
    let mut loud = AgentSpec::parse("mcts:80", true, &bits("mcts:80"), &Config::default())
        .unwrap_or_else(|_| panic!());
    assert_eq!(loud.explore, Exploration::SelfPlay);
    loud.set_exploration(Exploration::Off);
    assert_eq!(loud.explore, Exploration::Off);
    let s = SearchAgent::with_config(80, true, Exploration::SelfPlay, d, 3);
    assert_eq!((s.sims(true), s.sims(false)), (80, 10));
    assert_eq!(Candidates::Sampled(8).keep(), 8);
    assert_eq!(Candidates::All.keep(), 32);
}

#[test]
fn the_best_pair_is_the_first_of_the_best() {
    let mut scores = [0i64; 12];
    scores[4] = 7;
    scores[9] = 7;
    let pair = best_pair([10, 20, 30, 40], &scores);
    assert!(pair[0] != pair[1]);
    scores[4] = 8;
    assert_eq!(best_pair([10, 20, 30, 40], &scores), pair);
    scores[9] = 9;
    assert!(best_pair([10, 20, 30, 40], &scores) != pair);
}

#[test]
fn choices_go_to_the_first_of_the_best() {
    assert_eq!(best_choice(&vec![1, 5, 3, 5]), 1);
    assert_eq!(best_choice(&vec![-4]), 0);
}

#[test]
fn self_play_cools_down() {
    assert_eq!(selfplay_temperature(0), 10);
    assert_eq!(selfplay_temperature(8), 10);
    assert_eq!(selfplay_temperature(9), 5);
    assert_eq!(selfplay_temperature(18), 1);
    assert_eq!(GameConfig::evaluation().temperature(3), 0);
    assert_eq!(GameConfig::selfplay().temperature(3), 10);
}

#[test]
fn games_go_round_the_table() {
    let mut f = Flow::start(false, PlayerId(2));
    let mut seats = Vec::new();
    while let Act::Turn(p) = f.act {
        seats.push(p.0);
        f = f.played();
    }
    assert_eq!(seats, vec![2, 3, 0, 1]);
    assert_eq!(f.act, Act::Resolve);
    let asked = f.resolved(Some(PlayerId(1)));
    assert_eq!(asked.act, Act::Ask(PlayerId(1)));
    assert_eq!(asked.answered(true).act, Act::Advance(2));
    assert_eq!(asked.answered(false).act, Act::Advance(1));
    let plain = f.resolved(None);
    assert_eq!(plain.act, Act::Advance(1));
    assert_eq!(plain.advanced(false, PlayerId(3)).act, Act::Turn(PlayerId(3)));
    assert_eq!(plain.advanced(true, PlayerId(3)).act, Act::Finish);
    assert_eq!(Flow::start(true, PlayerId(0)).act, Act::Finish);
}

#[test]
fn games_that_do_not_end_are_given_up() {
    let mut f = Flow::start(false, PlayerId(0));
    let mut rounds = 0;
    while f.act != Act::Finish {
        for _ in 0..4 {
            f = f.played();
        }
        f = f.resolved(None).advanced(false, PlayerId(0));
        rounds += 1;
        assert!(rounds < 1000);
    }
    assert!(f.aborted);
}
