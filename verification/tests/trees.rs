use tzolkin::arena::{Arena, Probe};
use tzolkin::descent::{select_edges, Descent};
use tzolkin::ids::{BuildingId, Color, MonumentId, PlayerId, WorkerId};
use tzolkin::nodekey::{same_position, NodeKey};
use tzolkin::phase::{Phase, Step};
use tzolkin::state::{Deck, GameState, GearState, Player, TileStack, WorkerLoc};
use tzolkin::turnlines::{committed, rank_lines, TurnLine};

fn player(color: Color, seed: u64) -> Player {
    Player {
        color,
        corn: 3 + (seed % 7) as u8,
        res: [1 + (seed % 3) as u8, 1, (seed % 2) as u8, 1],
        points: 0,
        corn_tiles: 0,
        wood_tiles: 0,
        free_workers: 0,
        worker_discount: 0,
        may_skip_day: true,
        buildings: 0,
        monuments: 0,
    }
}

/// A position to begin from: three workers in hand each, empty gears, full
/// displays.
fn start(seed: u64) -> GameState {
    let mut workers = [WorkerLoc::Locked; 24];
    for seat in 0..4 {
        for k in 0..3 {
            workers[6 * seat + k] = WorkerLoc::Available;
        }
    }
    let mut palenque = [TileStack { corn: 0, wood: 0 }; 8];
    for pos in 2..6 {
        palenque[pos] = TileStack { corn: 4, wood: if pos == 2 { 0 } else { 4 } };
    }
    let mut age1 = Deck { ids: [0u8; 14], next: 6 };
    for i in 0..14 {
        age1.ids[i] = i as u8 + 1;
    }
    let mut age2 = Deck { ids: [0u8; 18], next: 0 };
    for i in 0..18 {
        age2.ids[i] = i as u8 + 15;
    }
    let mut monument_deck = Deck { ids: [0u8; 13], next: 6 };
    for i in 0..13 {
        monument_deck.ids[i] = i as u8 + 1;
    }
    let mut buildings_up = [None; 6];
    let mut monuments_up = [None; 6];
    for i in 0..6 {
        buildings_up[i] = Some(BuildingId(i as u8 + 1));
        monuments_up[i] = Some(MonumentId(i as u8 + 1));
    }
    GameState {
        players: [
            player(Color::Red, seed),
            player(Color::Green, seed + 1),
            player(Color::Blue, seed + 2),
            player(Color::Yellow, seed + 3),
        ],
        workers,
        gears: [GearState { occ: [255; 11] }; 5],
        temples: [[1 + (seed % 2) as u8, 1, 1, 2], [1; 4], [1, 2, 1, 1]],
        research: [[0; 4], [1, 0, 0, 0], [0, 1, 0, 0], [0; 4]],
        palenque,
        chichen_filled: 0,
        age1,
        age2,
        monument_deck,
        buildings_up,
        monuments_up,
        first_player_space: None,
        accumulated_corn: 0,
        skulls_remaining: 13,
        current: PlayerId(0),
        first_player: PlayerId(0),
        age: 1,
        day: 0,
        over: false,
    }
}


fn key(g: &GameState, phase: Phase) -> NodeKey {
    NodeKey { state: *g, phase, turn: PlayerId(0), done: 0 }
}

fn steps(n: usize) -> Vec<Step> {
    (0..n).map(|i| Step::DraftTile(i as u8)).collect()
}

/// A root with three edges, followed along the first two: to another decision of
/// the turn, and past its end.
fn small_tree() -> (Arena, GameState) {
    let g = start(4);
    let mut a = Arena::new();
    let root = a.add_node(key(&g, Phase::Beg), steps(3), 3, true, 8);
    let inner = a.add_node(key(&g, Phase::Mode), steps(2), 2, true, 8);
    let mut h = g;
    h.day += 1;
    let outer = a.add_node(key(&h, Phase::Beg), steps(2), 2, false, 8);
    let end = a.push_terminal(h);
    a.link(root, 0, inner);
    a.link(root, 1, outer);
    a.link(inner, 1, outer);
    a.link(outer, 0, end);
    (a, g)
}

fn walk(a: &mut Arena, root: u32, edges: &[usize], loss: u32) {
    let mut d = Descent::new(root);
    for &e in edges {
        let at = a.cursor(&d).unwrap();
        a.take(&mut d, at, e, loss);
    }
    let leaf = a.cursor(&d).unwrap();
    a.backup(&d, leaf);
    a.count_descent(d.depth() as u32);
}

#[test]
fn equal_positions_share_a_node() {
    let (a, g) = small_tree();
    assert_eq!(a.find(&key(&g, Phase::Beg)), Some(0));
    assert_eq!(a.find(&key(&g, Phase::Mode)), Some(1));
    assert_eq!(a.find(&key(&g, Phase::PickWorker)), None);
    let mut other = g;
    other.players[2].corn += 1;
    assert_eq!(a.find(&key(&other, Phase::Beg)), None);
    assert!(matches!(a.probe(&key(&g, Phase::Mode)), Probe::Known(1)));
    assert!(matches!(a.probe(&key(&other, Phase::Mode)), Probe::Fresh));
    other.over = true;
    assert!(matches!(a.probe(&key(&other, Phase::Mode)), Probe::Over));
}

#[test]
fn keys_compare_whole_positions() {
    let g = start(1);
    let mut h = g;
    assert!(same_position(&g, &h));
    h.gears[2].occ[3] = 9;
    assert!(!same_position(&g, &h));
    // The gears are told by the workers, so the word does not change with them.
    assert_eq!(key(&g, Phase::Beg).digest(), key(&h, Phase::Beg).digest());
    assert!(!key(&g, Phase::Beg).same(&key(&h, Phase::Beg)));
    h = g;
    h.temples[1][2] += 1;
    assert!(key(&g, Phase::Beg).digest() != key(&h, Phase::Beg).digest());
    let take = |w| key(&g, Phase::Take { worker: WorkerId(w) });
    assert!(take(1).digest() != take(2).digest());
    assert!(key(&g, Phase::Beg).same(&key(&g, Phase::Beg)));
}

#[test]
fn virtual_losses_leave_no_trace() {
    let (mut a, _) = small_tree();
    let (mut b, _) = small_tree();
    for path in [&[0usize, 1, 0][..], &[1, 0], &[0, 1, 0], &[1, 0]] {
        walk(&mut a, 0, path, 0);
        walk(&mut b, 0, path, 10);
        assert_eq!(b.virtual_loss_residue(), 0);
    }
    for (x, y) in a.nodes.iter().zip(&b.nodes) {
        assert_eq!(x.visits, y.visits);
        for (e, f) in x.edges.iter().zip(&y.edges) {
            assert_eq!((e.n, e.vloss), (f.n, f.vloss));
        }
    }
    assert_eq!(a.nodes[0].visits, 4);
    assert_eq!(a.nodes[0].edges[0].n, 2);
    assert_eq!(a.nodes[3].visits, 4);
    assert_eq!(a.depth_stats(), (3, 10, 4));
    let mut d = Descent::new(0);
    a.take(&mut d, 0, 2, 7);
    assert_eq!(a.virtual_loss_residue(), 7);
}

#[test]
fn subtrees_keep_what_they_learned() {
    let (mut a, g) = small_tree();
    walk(&mut a, 0, &[0, 1, 0], 1);
    walk(&mut a, 0, &[1, 0], 1);
    let order = a.begin(&key(&g, Phase::Mode), true).unwrap();
    assert_eq!(order, vec![1, 2, 3]);
    assert_eq!(a.arena_len(), 3);
    assert_eq!(a.reuse_stats(), (3, 1));
    assert_eq!(a.nodes[0].edges[1].child, Some(1));
    assert_eq!(a.nodes[0].edges[1].n, 1);
    assert_eq!(a.nodes[1].visits, 2);
    assert_eq!(a.find(&key(&g, Phase::Mode)), Some(0));
    assert_eq!(a.find(&key(&g, Phase::Beg)), None);
}

#[test]
fn trees_of_another_turn_are_let_go() {
    let (mut a, g) = small_tree();
    let mut h = g;
    h.day += 1;
    // The node is there, but it belongs to another turn.
    assert!(a.begin(&key(&h, Phase::Beg), true).is_none());
    assert_eq!(a.arena_len(), 0);
    let (mut a, g) = small_tree();
    assert!(a.begin(&key(&g, Phase::Mode), false).is_none());
    assert_eq!(a.arena_len(), 0);
}

#[test]
fn nodes_widen_with_their_visits() {
    let g = start(0);
    let mut a = Arena::new();
    let root = a.add_node(key(&g, Phase::Beg), steps(6), 20, true, 2);
    assert_eq!(a.nodes[0].active, 2);
    for _ in 0..3 {
        walk(&mut a, root, &[], 1);
    }
    a.widen(root, 5, &vec![0, 0, 2, 3, 9]);
    assert_eq!(a.nodes[0].active, 4);
    a.widen(root, 3, &vec![0; 9]);
    assert_eq!(a.nodes[0].active, 4);
    assert_eq!(a.node_widths(), vec![(20, 4)]);
}

#[test]
fn descents_end_at_the_end_of_the_game() {
    let (mut a, _) = small_tree();
    let mut d = Descent::new(0);
    a.take(&mut d, 0, 1, 1);
    assert!(!a.ends_at(&d, 2, 9));
    assert!(a.ends_at(&d, 2, 1));
    assert!(a.ends_at(&d, 3, 9));
}

#[test]
fn the_most_visited_edge_is_played() {
    let (mut a, _) = small_tree();
    assert_eq!(a.most_visited(0), Some(2));
    walk(&mut a, 0, &[0, 1, 0], 1);
    walk(&mut a, 0, &[1, 0], 1);
    assert_eq!(a.most_visited(0), Some(1));
    walk(&mut a, 0, &[0, 1, 0], 1);
    assert_eq!(a.most_visited(0), Some(0));
    assert_eq!(a.best_by_value(0, &vec![5, 9, 99]), Some(1));
    assert_eq!(a.best_by_value(0, &vec![9, 9, 99]), Some(1));
    assert_eq!(a.policy(0), (vec![2, 1, 0], 3));
    let (b, _) = small_tree();
    assert_eq!(b.best_by_value(0, &vec![1, 2, 3]), None);
    assert_eq!(b.policy(0), (vec![1, 1, 1], 3));
    assert_eq!(b.most_visited(3), None);
}

#[test]
fn wide_nodes_keep_their_best_edges() {
    assert_eq!(select_edges(&vec![1, 5, 3], 4, 9), vec![0, 1, 2]);
    assert_eq!(select_edges(&vec![1, 5, 3, 5], 2, 3), vec![1, 3, 2]);
    assert_eq!(select_edges(&vec![1, 5, 3, 5], 2, 0), vec![1, 3]);
}

#[test]
fn whole_turns_are_read_out_and_ranked() {
    let (mut a, _) = small_tree();
    walk(&mut a, 0, &[0, 1, 0], 1);
    walk(&mut a, 0, &[1, 0], 1);
    walk(&mut a, 0, &[1, 0], 1);
    let (lines, open) = a.turn_lines(0);
    assert!(open);
    let paths: Vec<Vec<(u32, usize)>> = lines.iter().map(|l| l.path.clone()).collect();
    assert_eq!(paths, vec![vec![(0, 1)], vec![(0, 0), (1, 1)]]);
    assert_eq!(lines[0].visits, 2);
    assert_eq!(committed(&lines), 3);
    assert_eq!(rank_lines(&lines, &vec![1, 50], 5), vec![0, 1]);
    assert_eq!(rank_lines(&lines, &vec![1, 50], 0), vec![0]);
    let even = vec![
        TurnLine { path: vec![], visits: 4 },
        TurnLine { path: vec![], visits: 4 },
        TurnLine { path: vec![], visits: 4 },
    ];
    assert_eq!(rank_lines(&even, &vec![1, 7, 7], 9), vec![1, 2, 0]);
}
