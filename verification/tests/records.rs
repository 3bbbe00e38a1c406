use rand::rngs::StdRng;
use rand::SeedableRng;
use tzolkin::book::{BuildingDef, MonumentDef, Payoff, Rulebook};
use tzolkin::effect::Effect;
use tzolkin::ids::{BuildingId, Color, MonumentId, PlayerId, Pos, Science, Temple, WorkerId};
use tzolkin::legal::{apply_move, check_move};
use tzolkin::sampling::sample_legal_move;
use tzolkin::state::{Deck, GameState, GearState, Player, TileStack, WorkerLoc};
use tzolkin::dates::{civil, stamp};
use tzolkin::phase::Phase;
use tzolkin::codec::STATE_BYTES;
use tzolkin::record::{
    decode_phase, decode_state, encode_phase, encode_state, header, patch_win_share, read_record,
    read_shard, write_record, Node, Trailer, FULL_BUDGET, POLICY_TREE_EDGE, RECORD_BYTES,
    STATE_SLOT, TURN_ROOT,
};
use tzolkin::schema::{record_fields, schema_json, state_fields};
use tzolkin::shards::{is_shard_name, Prune, ShardFile, ShardWriter};

fn player(color: Color, seed: u64) -> Player {
    Player {
        color,
        corn: 3 + (seed % 7) as u8,
        res: [1 + (seed % 3) as u8, 1, (seed % 2) as u8, 1],
        points: 0,
        corn_tiles: 0,
        wood_tiles: 0,
        free_workers: 0,
        worker_discount: 0,
        may_skip_day: true,
        buildings: 0,
        monuments: 0,
    }
}

/// A position to begin from: three workers in hand each, empty gears, full
/// displays.
fn start(seed: u64) -> GameState {
    let mut workers = [WorkerLoc::Locked; 24];
    for seat in 0..4 {
        for k in 0..3 {
            workers[6 * seat + k] = WorkerLoc::Available;
        }
    }
    let mut palenque = [TileStack { corn: 0, wood: 0 }; 8];
    for pos in 2..6 {
        palenque[pos] = TileStack { corn: 4, wood: if pos == 2 { 0 } else { 4 } };
    }
    let mut age1 = Deck { ids: [0u8; 14], next: 6 };
    for i in 0..14 {
        age1.ids[i] = i as u8 + 1;
    }
    let mut age2 = Deck { ids: [0u8; 18], next: 0 };
    for i in 0..18 {
        age2.ids[i] = i as u8 + 15;
    }
    let mut monument_deck = Deck { ids: [0u8; 13], next: 6 };
    for i in 0..13 {
        monument_deck.ids[i] = i as u8 + 1;
    }
    let mut buildings_up = [None; 6];
    let mut monuments_up = [None; 6];
    for i in 0..6 {
        buildings_up[i] = Some(BuildingId(i as u8 + 1));
        monuments_up[i] = Some(MonumentId(i as u8 + 1));
    }
    GameState {
        players: [
            player(Color::Red, seed),
            player(Color::Green, seed + 1),
            player(Color::Blue, seed + 2),
            player(Color::Yellow, seed + 3),
        ],
        workers,
        gears: [GearState { occ: [255; 11] }; 5],
        temples: [[1 + (seed % 2) as u8, 1, 1, 2], [1; 4], [1, 2, 1, 1]],
        research: [[0; 4], [1, 0, 0, 0], [0, 1, 0, 0], [0; 4]],
        palenque,
        chichen_filled: 0,
        age1,
        age2,
        monument_deck,
        buildings_up,
        monuments_up,
        first_player_space: None,
        accumulated_corn: 0,
        skulls_remaining: 13,
        current: PlayerId(0),
        first_player: PlayerId(0),
        age: 1,
        day: 0,
        over: false,
    }
}

/// Cards with a cost and a reward of each kind.
fn book(prune: u8) -> Rulebook {
    let mut buildings = Vec::new();
    for i in 0..32u8 {
        let cost: [i8; 4] = [1 + (i % 2) as i8, (i % 3) as i8, (i / 16) as i8, 0];
        let payoff = match i % 6 {
            0 => Payoff::Fixed(vec![Effect::Points(3)]),
            1 => Payoff::FreeTrack(Science::Agriculture, vec![Effect::Corn(1)]),
            2 => Payoff::FreeAny(1, vec![Effect::Points(1)]),
            3 => Payoff::CornExchange(vec![Effect::Points(2)]),
            4 => Payoff::Fixed(vec![Effect::TempleStep(Temple::Green, 1)]),
            _ => Payoff::Fixed(vec![Effect::FreeWorker(1)]),
        };
        buildings.push(BuildingDef { cost, payoff });
    }
    let mut monuments = Vec::new();
    for i in 0..13u8 {
        monuments.push(MonumentDef { cost: [2, 1 + (i % 3) as i8, 1, 0] });
    }
    Rulebook { buildings, monuments, tops: [6, 8, 7], prune }
}

/// Turn every gear by one space.
fn turn_gears(g: &mut GameState) {
    let mut gears = [GearState { occ: [255; 11] }; 5];
    for w in 0..24 {
        if let WorkerLoc::OnGear { gear, pos } = g.workers[w] {
            if pos.0 + 1 < gear.size() {
                let to = Pos(pos.0 + 1);
                g.workers[w] = WorkerLoc::OnGear { gear, pos: to };
                gears[gear.idx()].occ[to.0 as usize] = w as u8;
            } else {
                g.workers[w] = WorkerLoc::Available;
            }
        }
    }
    g.gears = gears;
}

/// One round: every seat draws a legal move, and the gears turn.
fn play_round(rules: &Rulebook, g: &mut GameState, rng: &mut StdRng) {
    for seat in 0..4 {
        let p = PlayerId(seat);
        if let Some(m) = sample_legal_move(rules, g, p, rng) {
            assert!(check_move(rules, g, p, &m).is_ok());
            apply_move(rules, g, p, &m);
        }
    }
    turn_gears(g);
    g.day += 1;
}

#[test]
fn state_codec_round_trips() {
    let rules = book(2);
    for seed in 0..12u64 {
        let mut rng = StdRng::seed_from_u64(seed);
        let mut g = start(seed);
        for _ in 0..7 {
            play_round(&rules, &mut g, &mut rng);
            let mut buf = [0u8; STATE_SLOT];
            encode_state(&g, &mut buf);
            assert_eq!(decode_state(&buf), g, "seed {seed}");
        }
        // Terminal states too: the end of the game, emptied decks and scores
        // below zero are all in the codec's path.
        g.over = true;
        g.age = 2;
        g.age1.next = 14;
        g.age2.next = 18;
        g.players[1].points = -70;
        g.buildings_up[3] = None;
        g.first_player_space = Some(WorkerId(7));
        let mut buf = [0u8; STATE_SLOT];
        encode_state(&g, &mut buf);
        assert_eq!(decode_state(&buf), g, "seed {seed} terminal");
    }
}

#[test]
fn phase_codec_round_trips() {
    let all = [
        Phase::Beg,
        Phase::Mode,
        Phase::Placing { n: 3 },
        Phase::PickWorker,
        Phase::Take { worker: WorkerId(17) },
        Phase::ExtraDay { claimer: PlayerId(2) },
        Phase::PityPlace,
        Phase::DraftTile { dealt: [4, 9, 1, 20], kept: 1 },
    ];
    for p in all {
        let (t, a) = encode_phase(p);
        assert_eq!(decode_phase(t, a), p, "{p:?}");
        assert_eq!(t, p.tag());
    }
}

fn trailer(game_id: u64, node_idx: u16, scores: [i16; 4]) -> Trailer {
    Trailer {
        game_id,
        node_idx,
        scores,
        policy_weight: 1.0f32.to_bits(),
        z_rel: [0; 4],
        rules_version: 7,
    }
}

fn node(g: GameState, phase: Phase, done: u8) -> Node {
    Node {
        state: g,
        turn: PlayerId(1),
        phase,
        done,
        policy_kind: POLICY_TREE_EDGE,
        n_edges: 7,
        total_visits: 800,
        visits: vec![(3, 500), (0, 200), (6, 100)],
        root_value: [0.1f32.to_bits(), (-0.2f32).to_bits(), 0.05f32.to_bits(), 0.05f32.to_bits()],
        flags: TURN_ROOT | FULL_BUDGET,
        temperature: 100,
    }
}

#[test]
fn record_round_trips() {
    let g = start(7);
    let n = node(g, Phase::Placing { n: 2 }, 0);
    let scores = [80i16, 71, 95, 60];
    let mut buf = [0u8; RECORD_BYTES];
    write_record(&mut buf, &n, &trailer(12345, 4, scores));
    let r = read_record(&buf);
    // The counter travels only where the next worker is picked.
    let pick = node(g, Phase::PickWorker, 3);
    let mut b2 = [0u8; RECORD_BYTES];
    write_record(&mut b2, &pick, &trailer(1, 0, [0; 4]));
    let back = read_record(&b2);
    assert_eq!(back.phase, Phase::PickWorker);
    assert_eq!(back.done, 3);
    assert_eq!(r.state, g);
    assert_eq!(r.turn, PlayerId(1));
    assert_eq!(r.phase, Phase::Placing { n: 2 });
    assert_eq!(r.done, 0);
    assert_eq!(r.scores, scores);
    assert_eq!(r.rules_version, 7);
    let at = record_fields().iter().find(|f| f.name == "total_visits").unwrap().offset;
    assert_eq!(u32::from_le_bytes(buf[at..at + 4].try_into().unwrap()), 800);
}

#[test]
fn every_record_carries_the_rules_version() {
    let g = start(9);
    let n = Node::value_only(g, PlayerId(0), Phase::Mode, [0; 4]);
    let mut buf = [0u8; RECORD_BYTES];
    for i in 0..3u16 {
        write_record(&mut buf, &n, &trailer(7, i, [10, 20, 30, 40]));
        assert_eq!(read_record(&buf).rules_version, 7);
        assert_eq!(u32::from_le_bytes(buf[508..512].try_into().unwrap()), 7);
    }
}

#[test]
fn win_shares_are_patched_in_place() {
    let g = start(2);
    let mut buf = [0u8; RECORD_BYTES];
    write_record(&mut buf, &node(g, Phase::Mode, 0), &trailer(5, 1, [4, 3, 2, 1]));
    let before = read_record(&buf);
    let was = buf;
    patch_win_share(&mut buf, [1.0f32.to_bits(), 0, 0, 0]);
    let after = read_record(&buf);
    assert_eq!(before.state, after.state);
    assert_eq!(before.scores, after.scores);
    assert!(was != buf);
    let changed = (0..RECORD_BYTES).filter(|&i| was[i] != buf[i]).count();
    assert!(changed <= 16);
}

#[test]
fn shards_read_back_and_ignore_a_torn_tail() {
    let g = start(3);
    let mut file: Vec<u8> = header(12, b"unit", 1_700_000_000, 7).to_vec();
    for i in 0..3u16 {
        let mut buf = [0u8; RECORD_BYTES];
        write_record(&mut buf, &node(g, Phase::Mode, 0), &trailer(9, i, [1, 2, 3, 4]));
        file.extend_from_slice(&buf);
    }
    let (rules_version, records) = read_shard(&file).unwrap();
    assert_eq!(rules_version, 7);
    assert_eq!(records.len(), 3);
    assert_eq!(read_record(&records[1]).state, g);
    file.extend_from_slice(&[1, 2, 3]);
    assert_eq!(read_shard(&file).unwrap().1.len(), 3);
    file[0] = b'?';
    assert!(read_shard(&file).is_none());
    assert!(read_shard(&[]).is_none());
}

#[test]
fn schema_is_well_formed_and_agrees_with_the_writer() {
    let s = schema_json(7);
    let v: serde_json::Value = serde_json::from_str(&s).expect("schema is valid JSON");
    assert_eq!(v["record_bytes"], RECORD_BYTES);
    assert_eq!(v["state_bytes"], STATE_BYTES);
    let fields = v["state_fields"].as_array().unwrap();
    let last = fields.last().unwrap();
    assert_eq!(
        last["offset"].as_u64().unwrap() + last["count"].as_u64().unwrap(),
        STATE_BYTES as u64
    );
    assert_eq!(fields.len(), state_fields().len());
}

#[test]
fn stamps_are_dates() {
    assert_eq!(stamp(0), "19700101T000000Z");
    assert_eq!(stamp(951_826_154), "20000229T120914Z");
    assert_eq!(stamp(1_700_000_000), "20231114T221320Z");
    assert!(stamp(1_699_999_999) < stamp(1_700_000_000));
    assert_eq!(civil(59), (1970, 3, 1));
}

#[test]
fn shards_are_sealed_in_order() {
    let mut w = ShardWriter::new(3, 2);
    assert!(w.roll(1_700_000_000).is_none());
    assert!(!w.append_game(512));
    assert!(w.append_game(512));
    let first = w.roll(1_700_000_000).unwrap();
    w.append_game(512);
    let second = w.roll(1_700_000_000).unwrap();
    assert!(first < second);
    assert!(is_shard_name(&first));
    assert!(!is_shard_name(&w.part_name()));
    assert!(first.contains("20231114T221320Z"));
}

#[test]
fn pruning_spares_the_newest() {
    let found = vec![
        ShardFile { name: "a.tzr".to_string(), bytes: 10 },
        ShardFile { name: "b.tzr".to_string(), bytes: 10 },
        ShardFile { name: "c.tzr".to_string(), bytes: 10 },
    ];
    let mut p = Prune::new(found, Some("c.tzr".to_string()), 15);
    let mut gone = Vec::new();
    while let Some(k) = p.next() {
        gone.push(p.files[k].name.clone());
        p.settle(k, true);
    }
    assert_eq!(gone, vec!["a.tzr".to_string(), "b.tzr".to_string()]);
}
