//! The players a run is set up with, and the choices among them that need no
//! evaluator.

use crate::affordable::payoffs_free;
use crate::book::Rulebook;
use crate::effect::{after_all, Choice, Effect};
use crate::ids::PlayerId;
use crate::legal::fault_of;
use crate::mcts::{mcts_label, mcts_name, MctsConfig, Shown};
use crate::minimax::{minimax_label, minimax_name};
use crate::moves::{pity_list, plays, Move, Play};
use crate::phase::Phase;
use crate::record::{Node, FULL_BUDGET, POLICY_TREE_EDGE, TURN_ROOT};
use crate::plan::exchanged;
use crate::sampling::{
    can_act_somehow, draw, draw_moves, drawable, drawn_times, new_moves_come_behind, with_drawn,
    with_new,
};
use crate::search::{best_first, by_score, Config};
use crate::specs::{
    parse_parts, spec_read, Backend, Candidates, Exploration, Kind, Source, SpecError, SpecKind,
};
use crate::state::GameState;
use crate::text::{characters, digits, push_number};
use rand::rngs::StdRng;
use vstd::prelude::*;
use vstd::string::*;

verus! {

/// The rollout policy as a player.
pub struct RandomAgent {
    pub record: bool,
}

/// An alpha-beta player.
pub struct MinimaxAgent {
    pub cfg: Config,
    pub label: String,
    pub record: bool,
}

impl MinimaxAgent {
    /// A player with a configuration, named for how it differs from `defaults`.
    pub fn new(cfg: Config, defaults: &Config, record: bool) -> (a: MinimaxAgent)
        requires
            defaults.widths@.len() > 0,
            defaults.widths@[0] > 0,
        ensures
            a.cfg == cfg,
            a.label@ == minimax_name(cfg@, defaults@),
            a.record == record,
    {
        let label = minimax_label(&cfg, defaults);
        MinimaxAgent { cfg, label, record }
    }

    /// How many moves a ranking of at least `keep` moves is searched for.
    pub fn ranking(&self, keep: usize) -> (n: usize)
        ensures
            n == (if keep > self.cfg.keep {
                keep
            } else {
                self.cfg.keep
            }),
    {
        if keep > self.cfg.keep {
            keep
        } else {
            self.cfg.keep
        }
    }
}

/// A tree-search player: its budgets and its knobs.
pub struct SearchAgent {
    pub full_sims: u32,
    pub fast_sims: u32,
    pub explore: Exploration,
    pub cfg: MctsConfig,
    pub record: bool,
}

impl SearchAgent {
    /// A player that explores where it records, and not otherwise.
    pub fn new(full_sims: u32, record: bool, cfg: MctsConfig, seed: u64) -> (a: SearchAgent)
        ensures
            a.full_sims == (if full_sims == 0 {
                1
            } else {
                full_sims
            }),
            a.fast_sims == (if full_sims < 8 {
                1
            } else {
                full_sims / 8
            }),
            a.explore == (if record {
                Exploration::SelfPlay
            } else {
                Exploration::Off
            }),
            a.record == record,
            a.cfg == (MctsConfig {
                seed,
                dirichlet_eps: if record {
                    cfg.dirichlet_eps
                } else {
                    0
                },
                ..cfg
            }),
    {
        SearchAgent::with_config(
            full_sims,
            record,
            if record {
                Exploration::SelfPlay
            } else {
                Exploration::Off
            },
            cfg,
            seed,
        )
    }

    /// A player with everything said. Without exploration there is no noise.
    pub fn with_config(
        full_sims: u32,
        record: bool,
        explore: Exploration,
        cfg: MctsConfig,
        seed: u64,
    ) -> (a: SearchAgent)
        ensures
            a.full_sims == (if full_sims == 0 {
                1
            } else {
                full_sims
            }),
            a.fast_sims == (if full_sims < 8 {
                1
            } else {
                full_sims / 8
            }),
            a.explore == explore,
            a.record == record,
            a.cfg == (MctsConfig {
                seed,
                dirichlet_eps: if explore == Exploration::Off {
                    0
                } else {
                    cfg.dirichlet_eps
                },
                ..cfg
            }),
    {
        let mut cfg = cfg;
        cfg.seed = seed;
        if explore == Exploration::Off {
            cfg.dirichlet_eps = 0;
        }
        SearchAgent {
            full_sims: if full_sims == 0 {
                1
            } else {
                full_sims
            },
            fast_sims: if full_sims < 8 {
                1
            } else {
                full_sims / 8
            },
            explore,
            cfg,
            record,
        }
    }

    /// Whether every turn gets the full budget. Otherwise one in four does.
    pub fn always_full(&self) -> (b: bool)
        ensures
            b == (self.explore == Exploration::Off),
    {
        self.explore == Exploration::Off
    }

    /// The simulations of a turn.
    pub fn sims(&self, full: bool) -> (n: u32)
        ensures
            n == (if full {
                self.full_sims
            } else {
                self.fast_sims
            }),
    {
        if full {
            self.full_sims
        } else {
            self.fast_sims
        }
    }
}

/// A spec read, from which one player is built for each thread.
pub struct AgentSpec {
    pub spec: Vec<char>,
    pub record: bool,
    pub kind: SpecKind,
    pub backend: Backend,
    pub explore: Exploration,
    pub next_seed: u64,
}

/// The name of a kind of player over an evaluator.
pub open spec fn agent_name(
    kind: Kind,
    evaluator: Seq<char>,
    defaults: crate::minimax::Shape,
    shown: Shown,
) -> Seq<char> {
    match kind {
        Kind::Random => "random"@,
        Kind::Greedy(Candidates::Sampled(k)) => evaluator + ":"@ + digits(k as nat),
        Kind::Greedy(Candidates::All) => evaluator + ":full"@,
        Kind::Search(sims, cfg) => mcts_name(sims, evaluator, cfg, shown),
        Kind::Minimax(cfg) => minimax_name(cfg, defaults),
    }
}

impl AgentSpec {
    /// Read a spec. A player that records explores, until it is told otherwise.
    pub fn parse(spec: &str, record: bool, bits: &Vec<Option<u32>>, base: &Config) -> (r: Result<
        AgentSpec,
        SpecError,
    >)
        requires
            base.widths@.len() > 0,
            base.widths@[0] > 0,
        ensures
            match (r, spec_read(spec@, bits@, base@)) {
                (Ok(a), Ok(p)) => {
                    &&& (a.kind@, a.backend@) == p
                    &&& a.spec@ == spec@
                    &&& a.record == record
                    &&& a.explore == (if record {
                        Exploration::SelfPlay
                    } else {
                        Exploration::Off
                    })
                    &&& a.next_seed == 0x51ED_5EED
                },
                (Err(e), Err(f)) => e@ == f,
                _ => false,
            },
    {
        let s = characters(spec);
        match parse_parts(&s, bits, base) {
            Ok((kind, backend)) => Ok(
                AgentSpec {
                    spec: s,
                    record,
                    kind,
                    backend,
                    explore: if record {
                        Exploration::SelfPlay
                    } else {
                        Exploration::Off
                    },
                    next_seed: 0x51ED_5EED,
                },
            ),
            Err(e) => Err(e),
        }
    }

    /// How the player prints, `shown` being how its fractional knobs do.
    pub fn name(&self, defaults: &Config, shown: &Shown) -> (s: String)
        requires
            defaults.widths@.len() > 0,
            defaults.widths@[0] > 0,
        ensures
            s@ == agent_name(self.kind@, self.backend.label@, defaults@, *shown),
    {
        let ev = self.backend.name();
        match &self.kind {
            SpecKind::Random => {
                let mut s = String::new();
                s.append("random");
                assert(s@ =~= "random"@);
                s
            },
            SpecKind::Greedy { cands } => {
                let mut s = ev;
                match *cands {
                    Candidates::Sampled(k) => {
                        s.append(":");
                        push_number(&mut s, k as u64);
                    },
                    Candidates::All => {
                        s.append(":full");
                    },
                }
                s
            },
            SpecKind::Search { sims, knobs } => mcts_label(*sims, ev.as_str(), knobs, shown),
            SpecKind::Minimax { cfg } => minimax_label(cfg, defaults),
        }
    }

    /// Whether the player searches a tree, and wants many games at once.
    pub fn searches(&self) -> (b: bool)
        ensures
            b == (self.kind@ is Search),
    {
        match &self.kind {
            SpecKind::Search { .. } => true,
            _ => false,
        }
    }

    /// Whether a queue in front of the evaluator pays for itself.
    pub fn batchable(&self) -> (b: bool)
        ensures
            b == (self.kind@ is Search && self.backend.source != Source::Heuristic),
    {
        self.searches() && self.backend.batchable()
    }

    /// The knobs of a tree search, if the player is one.
    pub fn mcts_config(&self) -> (c: Option<MctsConfig>)
        ensures
            c == (match self.kind@ {
                Kind::Search(_, cfg) => Some(cfg),
                _ => None,
            }),
    {
        match &self.kind {
            SpecKind::Search { knobs, .. } => Some(*knobs),
            _ => None,
        }
    }

    /// The configuration of an alpha-beta search, if the player is one.
    pub fn minimax_config(&self) -> (c: Option<&Config>)
        ensures
            match (c, self.kind@) {
                (Some(x), Kind::Minimax(cfg)) => x@ == cfg,
                (None, k) => !(k is Minimax),
                _ => false,
            },
    {
        match &self.kind {
            SpecKind::Minimax { cfg } => Some(cfg),
            _ => None,
        }
    }

    /// Explore or not, whatever is recorded.
    pub fn set_exploration(&mut self, explore: Exploration)
        ensures
            final(self).explore == explore,
            final(self).spec == old(self).spec,
            final(self).record == old(self).record,
            final(self).kind == old(self).kind,
            final(self).backend == old(self).backend,
            final(self).next_seed == old(self).next_seed,
    {
        self.explore = explore;
    }

    /// The seed of the next player built. Players get different ones, or every
    /// thread would search identically.
    pub fn draw_seed(&mut self) -> (seed: u64)
        ensures
            seed == old(self).next_seed,
            final(self).next_seed == old(self).next_seed.wrapping_add(0x9E37_79B9_7F4A_7C15),
            final(self).explore == old(self).explore,
            final(self).spec == old(self).spec,
            final(self).record == old(self).record,
            final(self).kind == old(self).kind,
            final(self).backend == old(self).backend,
    {
        let seed: u64 = self.next_seed;
        self.next_seed = seed.wrapping_add(0x9E37_79B9_7F4A_7C15);
        seed
    }
}

/// Two players built one after the other get different seeds.
pub proof fn players_get_different_seeds(seed: u64)
    ensures
        seed.wrapping_add(0x9E37_79B9_7F4A_7C15) != seed,
{
}

// ---- the draft -----------------------------------------------------------

/// The ordered pairs of four places, first place by first place.
pub open spec fn pair_at(k: int) -> (int, int) {
    let i = k / 3;
    let j = k % 3;
    (i, if j < i {
        j
    } else {
        j + 1
    })
}

/// The position after two tiles are kept, in order.
pub open spec fn kept(
    rules: Rulebook,
    g: GameState,
    p: PlayerId,
    first: Seq<Effect>,
    second: Seq<Effect>,
) -> GameState {
    after_all(rules, after_all(rules, g, p, first), p, second)
}

/// The position after two tiles are kept, in order. Order is part of it: the top
/// of a temple is exclusive, so two tiles that step the same one can land
/// differently.
pub fn keep_pair(rules: &Rulebook, g: &GameState, p: PlayerId, first: &Choice, second: &Choice) -> (h:
    GameState)
    requires
        p.ok(),
        rules.ok(),
        g.ok(),
        crate::book::effects_ok(first@),
        crate::book::effects_ok(second@),
    ensures
        h == kept(*rules, *g, p, first@, second@),
        h.ok(),
{
    let mut h = *g;
    first.apply(rules, &mut h, p);
    proof {
        crate::effect::choices_keep_positions_sound(*rules, *g, p, first@);
    }
    second.apply(rules, &mut h, p);
    proof {
        crate::effect::choices_keep_positions_sound(
            *rules,
            after_all(*rules, *g, p, first@),
            p,
            second@,
        );
    }
    h
}

/// Whether a score is the best of a list, the first of its equals.
pub open spec fn first_best(scores: Seq<i64>, k: int) -> bool {
    &&& 0 <= k < scores.len()
    &&& forall|i: int| 0 <= i < scores.len() ==> #[trigger] scores[i] <= scores[k]
    &&& forall|i: int| 0 <= i < k ==> #[trigger] scores[i] < scores[k]
}

/// The best two of four dealt tiles, in the order to apply them, given what each
/// of the twelve ordered pairs scores.
pub fn best_pair(dealt: [u8; 4], scores: &[i64; 12]) -> (pair: [u8; 2])
    ensures
        exists|k: int| #[trigger]
            first_best(scores@, k) && pair[0] == dealt[pair_at(k).0] && pair[1]
                == dealt[pair_at(k).1],
{
    let mut best: usize = 0;
    let mut k: usize = 1;
    while k < 12
        invariant
            1 <= k <= 12,
            best < k,
            forall|i: int| 0 <= i < k ==> #[trigger] scores@[i] <= scores@[best as int],
            forall|i: int| 0 <= i < best ==> #[trigger] scores@[i] < scores@[best as int],
        decreases 12 - k,
    {
        if scores[k] > scores[best] {
            best = k;
        }
        k += 1;
    }
    let i: usize = best / 3;
    let j: usize = best % 3;
    let other: usize = if j < i {
        j
    } else {
        j + 1
    };
    assert(first_best(scores@, best as int));
    [dealt[i], dealt[other]]
}

/// The twelve pairs are all the ordered pairs of different places.
pub proof fn pairs_are_all_pairs(i: int, j: int)
    requires
        0 <= i < 4,
        0 <= j < 4,
        i != j,
    ensures
        exists|k: int| 0 <= k < 12 && #[trigger] pair_at(k) == (i, j),
        forall|k: int| 0 <= k < 12 ==> {
            let p = #[trigger] pair_at(k);
            0 <= p.0 < 4 && 0 <= p.1 < 4 && p.0 != p.1
        },
{
    let k = 3 * i + if j < i {
        j
    } else {
        j - 1
    };
    assert(k / 3 == i && k % 3 == (if j < i {
        j
    } else {
        j - 1
    }));
    assert(pair_at(k) == (i, j));
}

// ---- training targets ----------------------------------------------------

/// A searched edge: its place in the regenerable list of edges, if it is there,
/// and how often it was visited.
#[derive(Clone, Copy)]
pub struct Visited {
    pub place: Option<usize>,
    pub count: u32,
}

/// All the visits of a node.
pub open spec fn visits_total(v: Seq<Visited>) -> int
    decreases v.len(),
{
    if v.len() == 0 {
        0
    } else {
        visits_total(v.drop_last()) + v.last().count
    }
}

/// Whether every edge that was visited can be found again.
pub open spec fn all_placed(v: Seq<Visited>) -> bool {
    forall|i: int| 0 <= i < v.len() && (#[trigger] v[i]).count > 0 ==> v[i].place is Some
}

/// A visit count as it is stored.
pub open spec fn stored_count(n: u32) -> u16 {
    if n > 65535 {
        65535
    } else {
        n as u16
    }
}

/// The edges that were visited, each with its stored count, in the order they
/// came.
pub open spec fn visited_pairs(v: Seq<Visited>) -> Seq<(u16, u16)>
    decreases v.len(),
{
    if v.len() == 0 {
        Seq::empty()
    } else {
        let rest = visited_pairs(v.drop_last());
        if v.last().count > 0 {
            rest.push(((v.last().place->Some_0 as int % 65536) as u16, stored_count(v.last().count)))
        } else {
            rest
        }
    }
}

/// The counts of a list of pairs.
pub open spec fn pair_counts(v: Seq<(u16, u16)>) -> Seq<i64> {
    Seq::new(v.len(), |i: int| v[i].1 as i64)
}

/// Whether a list holds the most visited pairs of another, best first, up to
/// what a record holds.
pub open spec fn best_pairs(all: Seq<(u16, u16)>, kept: Seq<(u16, u16)>) -> bool {
    exists|idx: Seq<usize>| #[trigger]
        best_first(pair_counts(all), idx) && kept.len() == (if all.len() < 24 {
            all.len() as int
        } else {
            24
        }) && forall|i: int| 0 <= i < kept.len() ==> #[trigger] kept[i] == all[idx[i] as int]
}

proof fn lemma_visits_parts(v: Seq<Visited>, i: int)
    requires
        0 <= i <= v.len(),
    ensures
        0 <= visits_total(v.take(i)) <= visits_total(v),
    decreases v.len(),
{
    if v.len() == 0 {
        assert(v.take(i) =~= v);
    } else if i == v.len() {
        assert(v.take(i) =~= v);
        lemma_visits_parts(v.drop_last(), v.len() - 1);
        assert(v.drop_last().take(v.len() - 1) =~= v.drop_last());
    } else {
        lemma_visits_parts(v.drop_last(), i);
        assert(v.drop_last().take(i) =~= v.take(i));
    }
}

/// Turn one searched decision into a node to record, or nothing where nothing
/// was visited or a visited edge cannot be found again: its index would stand
/// for nothing.
pub fn search_node(
    state: &GameState,
    turn: PlayerId,
    phase: Phase,
    done: u8,
    visits: &Vec<Visited>,
    n_legal: usize,
    root_value: [u32; 4],
    temperature: u8,
    root: bool,
) -> (n: Option<Node>)
    requires
        visits_total(visits@) <= u32::MAX,
    ensures
        n is Some <==> visits_total(visits@) > 0 && all_placed(visits@),
        n matches Some(x) ==> {
            &&& x.state == *state
            &&& x.turn == turn
            &&& x.phase == phase
            &&& x.done == done
            &&& x.policy_kind == POLICY_TREE_EDGE
            &&& x.n_edges == stored_count(
                (if n_legal > 65535 {
                    65535
                } else {
                    n_legal
                }) as u32,
            )
            &&& x.total_visits == visits_total(visits@)
            &&& best_pairs(visited_pairs(visits@), x.visits@)
            &&& x.root_value == root_value
            &&& x.flags == (if root {
                TURN_ROOT + FULL_BUDGET
            } else {
                FULL_BUDGET as int
            })
            &&& x.temperature == temperature
        },
{
    let mut total: u32 = 0;
    let mut pairs: Vec<(u16, u16)> = Vec::new();
    let mut counts: Vec<i64> = Vec::new();
    let mut lost = false;
    let mut i: usize = 0;
    assert(visits@.take(0) =~= Seq::empty());
    while i < visits.len()
        invariant
            i <= visits@.len(),
            visits_total(visits@) <= u32::MAX,
            total == visits_total(visits@.take(i as int)),
            lost == !all_placed(visits@.take(i as int)),
            !lost ==> pairs@ == visited_pairs(visits@.take(i as int)),
            !lost ==> counts@ == pair_counts(pairs@),
        decreases visits@.len() - i,
    {
        let v = visits[i];
        let ghost t = visits@.take(i + 1);
        proof {
            assert(t.drop_last() =~= visits@.take(i as int));
            lemma_visits_parts(visits@, i + 1);
            assert(t[i as int] == v);
            assert(forall|j: int| 0 <= j < i ==> t[j] == visits@.take(i as int)[j]);
        }
        total = total + v.count;
        if v.count > 0 {
            match v.place {
                Some(k) => {
                    let c: u16 = if v.count > 65535 {
                        65535
                    } else {
                        v.count as u16
                    };
                    pairs.push(((k % 65536) as u16, c));
                    counts.push(c as i64);
                    assert(!lost ==> counts@ =~= pair_counts(pairs@));
                },
                None => {
                    lost = true;
                    assert(!all_placed(t));
                },
            }
        }
        proof {
            if !all_placed(visits@.take(i as int)) {
                let j = choose|j: int|
                    0 <= j < i && (#[trigger] visits@.take(i as int)[j]).count > 0 && visits@.take(
                        i as int,
                    )[j].place is None;
                assert(t[j].count > 0 && t[j].place is None);
            }
        }
        i += 1;
    }
    assert(visits@.take(visits@.len() as int) =~= visits@);
    if total == 0 || lost {
        return None;
    }
    let idx = by_score(&counts);
    let mut kept: Vec<(u16, u16)> = Vec::new();
    let mut k: usize = 0;
    while k < idx.len() && k < 24
        invariant
            k <= idx@.len(),
            k <= 24,
            kept@.len() == k,
            best_first(pair_counts(pairs@), idx@),
            forall|j: int| 0 <= j < k ==> #[trigger] kept@[j] == pairs@[idx@[j] as int],
        decreases idx@.len() - k,
    {
        proof {
            assert(idx@.contains(idx@[k as int]));
        }
        kept.push(pairs[idx[k]]);
        k += 1;
    }
    assert(best_pairs(pairs@, kept@));
    Some(
        Node {
            state: *state,
            turn,
            phase,
            done,
            policy_kind: POLICY_TREE_EDGE,
            n_edges: if n_legal > 65535 {
                65535
            } else {
                n_legal as u16
            },
            total_visits: total,
            visits: kept,
            root_value,
            flags: if root {
                TURN_ROOT + FULL_BUDGET
            } else {
                FULL_BUDGET
            },
            temperature,
        },
    )
}

// ---- greedy play ---------------------------------------------------------

/// Whether moves are what so many draws leave once repeats are dropped, in the order
/// they came: drawable, legal, all different, no more than the draws, and some unless nothing can be drawn.
pub open spec fn shortlisted(
    rules: Rulebook,
    g: GameState,
    p: PlayerId,
    k: usize,
    ms: Seq<Play>,
) -> bool {
    &&& exists|drawn: Seq<Play>| #[trigger]
        drawn_times(rules, g, p, k as int, drawn) && ms == with_new(Seq::empty(), drawn)
    &&& ms.len() <= k
    &&& ms.len() == 0 <==> k == 0 || (!can_act_somehow(rules, g, p) && pity_list(g, p).len() == 0)
    &&& forall|i: int| 0 <= i < ms.len() ==> drawable(rules, g, p, #[trigger] ms[i])
    &&& forall|i: int|
        0 <= i < ms.len() && payoffs_free(rules) ==> fault_of(rules, g, p, #[trigger] ms[i]) is None
    &&& forall|i: int, j: int| 0 <= i < j < ms.len() ==> #[trigger] ms[i] != #[trigger] ms[j]
}

/// The turns a greedy player chooses between: so many draws of the rollout
/// policy, each kept once, in the order they came.
pub fn shortlist(rules: &Rulebook, g: &GameState, p: PlayerId, k: usize, rng: &mut StdRng) -> (ms:
    Vec<Move>)
    requires
        p.ok(),
        rules.ok(),
        g.ok(),
    ensures
        shortlisted(*rules, *g, p, k, plays(ms@)),
{
    let none: Vec<Move> = Vec::new();
    let drawn = draw_moves(rules, g, p, k, rng);
    proof {
        let list = plays(drawn@);
        let out = with_new(Seq::empty(), list);
        assert(plays(none@) =~= Seq::empty());
        new_moves_come_behind(Seq::empty(), list);
        assert forall|i: int| 0 <= i < out.len() implies drawable(
            *rules,
            *g,
            p,
            #[trigger] out[i],
        ) && (payoffs_free(*rules) ==> fault_of(*rules, *g, p, out[i]) is None) by {
            let j = list.index_of(out[i]);
            assert(list[j] == out[i]);
        }
        assert(drawn_times(*rules, *g, p, k as int, list));
    }
    with_drawn(none, drawn)
}

/// The place of the best score, the first of several.
pub fn best_choice(scores: &Vec<i64>) -> (b: usize)
    requires
        scores@.len() > 0,
    ensures
        b < scores@.len(),
        forall|i: int| 0 <= i < scores@.len() ==> #[trigger] scores@[i] <= scores@[b as int],
        forall|i: int| 0 <= i < b ==> #[trigger] scores@[i] < scores@[b as int],
{
    let mut b: usize = 0;
    let mut i: usize = 1;
    while i < scores.len()
        invariant
            1 <= i <= scores@.len(),
            b < i,
            forall|j: int| 0 <= j < i ==> #[trigger] scores@[j] <= scores@[b as int],
            forall|j: int| 0 <= j < b ==> #[trigger] scores@[j] < scores@[b as int],
        decreases scores@.len() - i,
    {
        if scores[i] > scores[b] {
            b = i;
        }
        i += 1;
    }
    b
}

/// How warm self-play is on a day, in tenths: it cools down twice over the
/// calendar.
pub fn selfplay_temperature(day: u8) -> (t: u8)
    ensures
        t == (if day <= 8 {
            10
        } else if day <= 17 {
            5
        } else {
            1int
        }),
{
    if day <= 8 {
        10
    } else if day <= 17 {
        5
    } else {
        1
    }
}

/// How a game is played.
#[derive(Clone, Copy, PartialEq, Eq, Debug, Structural)]
pub struct GameConfig {
    /// Whether turns are drawn by their scores, as warm as the day is.
    pub warm: bool,
    /// Whether every position is checked.
    pub check: bool,
}

impl GameConfig {
    /// A game played for its result: always the best turn.
    pub fn evaluation() -> (c: GameConfig)
        ensures
            !c.warm,
            !c.check,
    {
        GameConfig { warm: false, check: false }
    }

    /// A game played to learn from.
    pub fn selfplay() -> (c: GameConfig)
        ensures
            c.warm,
            !c.check,
    {
        GameConfig { warm: true, check: false }
    }

    /// How warm the game is on a day, in tenths.
    pub fn temperature(&self, day: u8) -> (t: u8)
        ensures
            t == (if !self.warm {
                0
            } else if day <= 8 {
                10
            } else if day <= 17 {
                5
            } else {
                1int
            }),
    {
        if self.warm {
            selfplay_temperature(day)
        } else {
            0
        }
    }
}

/// Four places after the first `k` of three picks: from the last down, each is
/// exchanged with the one picked for it.
pub open spec fn places_by(picks: Seq<usize>, k: int) -> Seq<usize>
    decreases k,
{
    if k <= 0 {
        seq![0usize, 1usize, 2usize, 3usize]
    } else {
        exchanged(places_by(picks, k - 1), 4 - k, picks[k - 1] as int)
    }
}

/// Whether three picks can put four places in order, none above its place.
pub open spec fn pair_picks_fit(picks: Seq<usize>) -> bool {
    picks.len() == 3 && picks[0] < 4 && picks[1] < 3 && picks[2] < 2
}

/// The two of four dealt tiles that three picks keep: the tiles are put in the
/// order the picks give, and the first two kept.
pub fn pair_by(dealt: [u8; 4], picks: [usize; 3]) -> (pair: [u8; 2])
    requires
        pair_picks_fit(picks@),
    ensures
        pair[0] == dealt[places_by(picks@, 3)[0] as int],
        pair[1] == dealt[places_by(picks@, 3)[1] as int],
        exists|i: int, j: int|
            0 <= i < 4 && 0 <= j < 4 && i != j && pair[0] == #[trigger] dealt[i] && pair[1]
                == #[trigger] dealt[j],
{
    let mut idx: [usize; 4] = [0, 1, 2, 3];
    let mut k: usize = 0;
    assert(idx@ =~= places_by(picks@, 0));
    while k < 3
        invariant
            k <= 3,
            pair_picks_fit(picks@),
            idx@ == places_by(picks@, k as int),
            forall|x: int| 0 <= x < 4 ==> #[trigger] idx[x] < 4,
            forall|x: int, y: int| 0 <= x < y < 4 ==> #[trigger] idx[x] != #[trigger] idx[y],
        decreases 3 - k,
    {
        let i: usize = 3 - k;
        let j: usize = picks[k];
        assert(j == picks@[k as int] && j <= i);
        let ghost was = idx@;
        let a: usize = idx[i];
        let b: usize = idx[j];
        idx[i] = b;
        idx[j] = a;
        k += 1;
        assert(idx@ =~= exchanged(was, i as int, j as int));
    }
    let pair = [dealt[idx[0]], dealt[idx[1]]];
    assert(idx@[0] == idx[0] && idx@[1] == idx[1]);
    assert(idx[0] != idx[1]);
    assert(pair[0] == dealt[idx[0] as int] && pair[1] == dealt[idx[1] as int]);
    pair
}

/// Two of four dealt tiles at random, in a random order: the tiles are shuffled
/// and the first two kept.
pub fn random_pair(dealt: [u8; 4], rng: &mut StdRng) -> (pair: [u8; 2])
    ensures
        exists|picks: Seq<usize>| #[trigger]
            pair_picks_fit(picks) && pair[0] == dealt[places_by(picks, 3)[0] as int] && pair[1]
                == dealt[places_by(picks, 3)[1] as int],
        exists|i: int, j: int|
            0 <= i < 4 && 0 <= j < 4 && i != j && pair[0] == #[trigger] dealt[i] && pair[1]
                == #[trigger] dealt[j],
{
    let first: usize = draw(rng, 4);
    let second: usize = draw(rng, 3);
    let third: usize = draw(rng, 2);
    let picks: [usize; 3] = [first, second, third];
    assert(pair_picks_fit(picks@));
    pair_by(dealt, picks)
}

} // verus!
