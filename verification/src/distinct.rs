//! No move is found twice, and no two retrievals lead to one position.

use crate::book::Rulebook;
use crate::effect::{after_all, Effect};
use crate::ids::{Gear, PlayerId, Temple, WorkerId};
use crate::legal::{lemma_flat_part, played, taken_all};
use crate::lists::{flat, only};
use crate::moves::{
    beg_list, begged, begs, gear_spots, legal_list, lemma_workers_where, load, normal_list,
    normal_upto, picking_up_lightens_the_gears, pities, pity_list, place_each, place_list, put_at,
    retrieve_over, retrieve_taking, retrieve_walk, spots_list, worker_list, workers_ok, Kind,
    Placement, Play,
};
use crate::state::{available_list, board_list, retrieved, GameState, WorkerLoc};
use vstd::prelude::*;

verus! {

// ---- lists ---------------------------------------------------------------

/// A concatenation of parts that hold nothing twice and share nothing holds
/// nothing twice.
proof fn lemma_flat_once<A>(n: int, f: spec_fn(int) -> Seq<A>)
    requires
        forall|i: int| 0 <= i < n ==> (#[trigger] f(i)).no_duplicates(),
        forall|i: int, j: int, a: A|
            0 <= i < j < n && #[trigger] f(i).contains(a) ==> !#[trigger] f(j).contains(a),
    ensures
        flat(n, f).no_duplicates(),
    decreases n,
{
    if n > 0 {
        lemma_flat_once(n - 1, f);
        let x = flat(n - 1, f);
        assert forall|a: A| #[trigger] x.contains(a) implies !f(n - 1).contains(a) by {
            let i = lemma_flat_part(n - 1, f, a);
            assert(f(i).contains(a));
        }
        lemma_joined_once(x, f(n - 1));
    }
}

/// Two lists that hold nothing twice and share nothing, one behind the other.
proof fn lemma_joined_once<A>(a: Seq<A>, b: Seq<A>)
    requires
        a.no_duplicates(),
        b.no_duplicates(),
        forall|x: A| #[trigger] a.contains(x) ==> !b.contains(x),
    ensures
        (a + b).no_duplicates(),
{
    let s = a + b;
    assert forall|i: int, j: int| 0 <= i < s.len() && 0 <= j < s.len() && i != j implies s[i]
        != s[j] by {
        if i < a.len() && j >= a.len() {
            assert(a.contains(a[i]));
            assert(b.contains(b[j - a.len()]));
        } else if i >= a.len() && j < a.len() {
            assert(a.contains(a[j]));
            assert(b.contains(b[i - a.len()]));
        } else if i < a.len() {
            assert(a[i] != a[j]);
        } else {
            assert(b[i - a.len()] != b[j - a.len()]);
        }
    }
}

// ---- starts and spots ----------------------------------------------------

/// The ways to start a turn are listed once each.
pub proof fn starts_are_listed_once(rules: Rulebook, g: GameState, p: PlayerId)
    ensures
        beg_list(rules, g, p).no_duplicates(),
{
    let f = begs(rules, g, p);
    assert forall|i: int, j: int, a: Option<Temple>|
        0 <= i < j < 3 && #[trigger] f(i).contains(a) implies !#[trigger] f(j).contains(a) by {
        assert(f(i)[0] == a);
        if f(j).contains(a) {
            assert(f(j)[0] == a);
            assert(Temple::at(i) != Temple::at(j));
        }
    }
    lemma_flat_once(3, f);
    let first = seq![None::<Temple>];
    assert forall|a: Option<Temple>| #[trigger] first.contains(a) implies !flat(3, f).contains(a) by {
        if flat(3, f).contains(a) {
            let i = lemma_flat_part(3, f, a);
            assert(f(i)[0] == a);
        }
    }
    lemma_joined_once(first, flat(3, f));
    lemma_joined_once(first, Seq::empty());
}

/// The spots a worker may be put on are listed once each.
pub proof fn spots_are_listed_once(g: GameState)
    ensures
        spots_list(g).no_duplicates(),
{
    let f = gear_spots(g);
    assert forall|i: int, j: int, a: Placement|
        0 <= i < j < 5 && #[trigger] f(i).contains(a) implies !#[trigger] f(j).contains(a) by {
        assert(f(i)[0] == a);
        if f(j).contains(a) {
            assert(f(j)[0] == a);
            assert(Gear::at(i) != Gear::at(j));
        }
    }
    lemma_flat_once(5, f);
    let last = only(g.first_player_space is None, Placement::FirstPlayer);
    assert forall|a: Placement| #[trigger] flat(5, f).contains(a) implies !last.contains(a) by {
        let i = lemma_flat_part(5, f, a);
        assert(f(i)[0] == a);
    }
    lemma_joined_once(flat(5, f), last);
}

// ---- placements ----------------------------------------------------------

/// Whether a move places workers, and first those of `cur`.
spec fn places_first(beg: Option<Temple>, cur: Seq<(WorkerId, Placement)>, m: Play) -> bool {
    &&& m.beg == beg
    &&& m.kind matches Kind::Place(v) && v.len() >= cur.len() && v.take(cur.len() as int) == cur
}

/// Every way to go on placing starts with what has been placed.
proof fn lemma_places_first(
    g: GameState,
    avail: Seq<WorkerId>,
    cost: int,
    budget: int,
    beg: Option<Temple>,
    cur: Seq<(WorkerId, Placement)>,
    m: Play,
)
    requires
        place_list(g, avail, cost, budget, beg, cur).contains(m),
    ensures
        places_first(beg, cur, m),
    decreases avail.len() - cur.len(),
{
    let here = Play { kind: Kind::Place(cur), beg, corn_cost: cost as u8 };
    let head = only(cur.len() > 0, here);
    let all = place_list(g, avail, cost, budget, beg, cur);
    let k = all.index_of(m);
    if k < head.len() {
        assert(m == here);
        assert(cur.take(cur.len() as int) =~= cur);
    } else {
        let f = place_each(g, avail, cost, budget, beg, cur);
        let n = spots_list(g).len() as int;
        assert(cur.len() < avail.len());
        assert(all =~= head + flat(n, f));
        assert(flat(n, f)[k - head.len()] == m);
        let i = lemma_flat_part(n, f, m);
        lemma_each_first(g, avail, cost, budget, beg, cur, i, m);
        let more = cur.push((avail[cur.len() as int], spots_list(g)[i]));
        let v = m.kind->Place_0;
        assert(v.take(cur.len() as int) =~= cur) by {
            assert forall|j: int| 0 <= j < cur.len() implies v[j] == cur[j] by {
                assert(v.take(more.len() as int)[j] == more[j]);
            }
        }
    }
}

proof fn lemma_each_first(
    g: GameState,
    avail: Seq<WorkerId>,
    cost: int,
    budget: int,
    beg: Option<Temple>,
    cur: Seq<(WorkerId, Placement)>,
    i: int,
    m: Play,
)
    requires
        cur.len() < avail.len(),
        place_each(g, avail, cost, budget, beg, cur)(i).contains(m),
    ensures
        places_first(beg, cur.push((avail[cur.len() as int], spots_list(g)[i])), m),
    decreases avail.len() - cur.len(), 0int,
{
    let w = avail[cur.len() as int];
    let spot = spots_list(g)[i];
    lemma_places_first(
        put_at(g, w, spot),
        avail,
        cost + (cur.len() + spot.cost()),
        budget,
        beg,
        cur.push((w, spot)),
        m,
    );
}

/// No way to go on placing is listed twice.
proof fn lemma_places_once(
    g: GameState,
    avail: Seq<WorkerId>,
    cost: int,
    budget: int,
    beg: Option<Temple>,
    cur: Seq<(WorkerId, Placement)>,
)
    ensures
        place_list(g, avail, cost, budget, beg, cur).no_duplicates(),
    decreases avail.len() - cur.len(),
{
    let here = Play { kind: Kind::Place(cur), beg, corn_cost: cost as u8 };
    let head = only(cur.len() > 0, here);
    if cur.len() < avail.len() {
        let f = place_each(g, avail, cost, budget, beg, cur);
        let spots = spots_list(g);
        let n = spots.len() as int;
        let w = avail[cur.len() as int];
        assert forall|i: int| 0 <= i < n implies (#[trigger] f(i)).no_duplicates() by {
            let spot = spots[i];
            lemma_places_once(
                put_at(g, w, spot),
                avail,
                cost + (cur.len() + spot.cost()),
                budget,
                beg,
                cur.push((w, spot)),
            );
        }
        spots_are_listed_once(g);
        assert forall|i: int, j: int, m: Play|
            0 <= i < j < n && #[trigger] f(i).contains(m) implies !#[trigger] f(j).contains(m) by {
            lemma_each_first(g, avail, cost, budget, beg, cur, i, m);
            if f(j).contains(m) {
                lemma_each_first(g, avail, cost, budget, beg, cur, j, m);
                let k = cur.len() as int;
                assert(cur.push((w, spots[i]))[k] == cur.push((w, spots[j]))[k]);
            }
        }
        lemma_flat_once(n, f);
        assert forall|m: Play| #[trigger] head.contains(m) implies !flat(n, f).contains(m) by {
            assert(m == here);
            if flat(n, f).contains(m) {
                let i = lemma_flat_part(n, f, m);
                lemma_each_first(g, avail, cost, budget, beg, cur, i, m);
            }
        }
        lemma_joined_once(head, flat(n, f));
    } else {
        lemma_joined_once(head, Seq::empty());
    }
}

// ---- retrievals ----------------------------------------------------------

/// Whether moves are retrievals that lead to positions not reached before, each
/// to one of its own, all of them reached after.
pub open spec fn fresh(
    rules: Rulebook,
    g: GameState,
    p: PlayerId,
    s: Seq<Play>,
    from: Set<GameState>,
    to: Set<GameState>,
) -> bool {
    &&& from.subset_of(to)
    &&& forall|i: int|
        0 <= i < s.len() ==> (#[trigger] s[i]).kind is Retrieve && !from.contains(
            played(rules, g, p, s[i]),
        ) && to.contains(played(rules, g, p, s[i]))
    &&& forall|i: int, j: int|
        0 <= i < j < s.len() ==> played(rules, g, p, #[trigger] s[i]) != played(
            rules,
            g,
            p,
            #[trigger] s[j],
        )
}

/// One stretch of such retrievals and then another.
proof fn lemma_fresh_then(
    rules: Rulebook,
    g: GameState,
    p: PlayerId,
    a: Seq<Play>,
    b: Seq<Play>,
    from: Set<GameState>,
    mid: Set<GameState>,
    to: Set<GameState>,
)
    requires
        fresh(rules, g, p, a, from, mid),
        fresh(rules, g, p, b, mid, to),
    ensures
        fresh(rules, g, p, a + b, from, to),
{
    let s = a + b;
    assert forall|i: int| 0 <= i < s.len() implies (#[trigger] s[i]).kind is Retrieve
        && !from.contains(played(rules, g, p, s[i])) && to.contains(
        played(rules, g, p, s[i]),
    ) by {
        if i < a.len() {
            assert(s[i] == a[i]);
        } else {
            assert(s[i] == b[i - a.len()]);
        }
    }
    assert forall|i: int, j: int| 0 <= i < j < s.len() implies played(rules, g, p, #[trigger] s[i])
        != played(rules, g, p, #[trigger] s[j]) by {
        if j < a.len() {
            assert(s[i] == a[i] && s[j] == a[j]);
        } else if i < a.len() {
            assert(s[i] == a[i] && s[j] == b[j - a.len()]);
        } else {
            assert(s[i] == b[i - a.len()] && s[j] == b[j - a.len()]);
        }
    }
}

/// Whether a walk that has picked up `cur` after a start of the turn stands in
/// the position which that leads to.
spec fn stands(
    rules: Rulebook,
    g0: GameState,
    p: PlayerId,
    beg: Option<Temple>,
    cur: Seq<(WorkerId, Seq<Effect>)>,
    g: GameState,
) -> bool {
    taken_all(rules, begged(rules, g0, p, beg), p, cur) == g
}

/// Every stretch of a retrieval walk leads to positions of its own.
proof fn lemma_walk_fresh(
    rules: Rulebook,
    g0: GameState,
    g: GameState,
    p: PlayerId,
    board: Seq<WorkerId>,
    cur: Seq<(WorkerId, Seq<Effect>)>,
    beg: Option<Temple>,
    reached: Set<GameState>,
)
    requires
        p.ok(),
        workers_ok(board),
        stands(rules, g0, p, beg, cur, g),
    ensures
        ({
            let (found, to) = retrieve_walk(rules, g, p, board, cur, beg, reached);
            fresh(rules, g0, p, found, reached, to)
        }),
    decreases load(g, board), 2 * board.len() + 2, 0int,
{
    if !(cur.len() > 0 && reached.contains(g)) {
        let here = Play { kind: Kind::Retrieve(cur), beg, corn_cost: 0 };
        let head = only(cur.len() > 0, here);
        let from = if cur.len() > 0 {
            reached.insert(g)
        } else {
            reached
        };
        assert(played(rules, g0, p, here) == g);
        assert(fresh(rules, g0, p, head, reached, from));
        let (found, to) = retrieve_over(rules, g, p, board, cur, beg, from, board.len());
        lemma_over_fresh(rules, g0, g, p, board, cur, beg, from, board.len());
        lemma_fresh_then(rules, g0, p, head, found, reached, from, to);
    }
}

proof fn lemma_over_fresh(
    rules: Rulebook,
    g0: GameState,
    g: GameState,
    p: PlayerId,
    board: Seq<WorkerId>,
    cur: Seq<(WorkerId, Seq<Effect>)>,
    beg: Option<Temple>,
    reached: Set<GameState>,
    k: nat,
)
    requires
        p.ok(),
        workers_ok(board),
        k <= board.len(),
        stands(rules, g0, p, beg, cur, g),
    ensures
        ({
            let (found, to) = retrieve_over(rules, g, p, board, cur, beg, reached, k);
            fresh(rules, g0, p, found, reached, to)
        }),
    decreases load(g, board), 2 * k + 1, 0int,
{
    if k > 0 {
        let (found, mid) = retrieve_over(rules, g, p, board, cur, beg, reached, (k - 1) as nat);
        lemma_over_fresh(rules, g0, g, p, board, cur, beg, reached, (k - 1) as nat);
        if let Some((gear, pos)) = g.workers[board[k - 1].0 as int].space() {
            let n = worker_list(rules, g, p, gear, pos.0 as int).len();
            let (more, to) = retrieve_taking(
                rules,
                g,
                p,
                board,
                cur,
                beg,
                mid,
                (k - 1) as nat,
                n,
            );
            lemma_taking_fresh(rules, g0, g, p, board, cur, beg, mid, (k - 1) as nat, n);
            lemma_fresh_then(rules, g0, p, found, more, reached, mid, to);
        }
    }
}

proof fn lemma_taking_fresh(
    rules: Rulebook,
    g0: GameState,
    g: GameState,
    p: PlayerId,
    board: Seq<WorkerId>,
    cur: Seq<(WorkerId, Seq<Effect>)>,
    beg: Option<Temple>,
    reached: Set<GameState>,
    k: nat,
    c: nat,
)
    requires
        p.ok(),
        workers_ok(board),
        k < board.len(),
        g.workers[board[k as int].0 as int] is OnGear,
        stands(rules, g0, p, beg, cur, g),
    ensures
        ({
            let (found, to) = retrieve_taking(rules, g, p, board, cur, beg, reached, k, c);
            fresh(rules, g0, p, found, reached, to)
        }),
    decreases load(g, board), 2 * k + 2, c,
{
    if c > 0 {
        let (found, mid) = retrieve_taking(
            rules,
            g,
            p,
            board,
            cur,
            beg,
            reached,
            k,
            (c - 1) as nat,
        );
        lemma_taking_fresh(rules, g0, g, p, board, cur, beg, reached, k, (c - 1) as nat);
        let w = board[k as int];
        let at = g.workers[w.0 as int].space()->Some_0;
        let choice = worker_list(rules, g, p, at.0, (at.1).0 as int)[c - 1];
        let h = retrieved(after_all(rules, g, p, choice), w);
        let next = cur.push((w, choice));
        picking_up_lightens_the_gears(rules, g, p, choice, board, k as int);
        assert(next.drop_last() =~= cur);
        let (more, to) = retrieve_walk(rules, h, p, board, next, beg, mid);
        lemma_walk_fresh(rules, g0, h, p, board, next, beg, mid);
        lemma_fresh_then(rules, g0, p, found, more, reached, mid, to);
    }
}

// ---- all moves -----------------------------------------------------------

/// Whether no move of a list stands twice, every retrieval of it leads to a
/// position of a set, and different ones to different positions.
spec fn apart(rules: Rulebook, g: GameState, p: PlayerId, s: Seq<Play>, to: Set<GameState>) -> bool {
    &&& s.no_duplicates()
    &&& forall|i: int|
        0 <= i < s.len() && (#[trigger] s[i]).kind is Retrieve ==> to.contains(
            played(rules, g, p, s[i]),
        )
    &&& forall|i: int, j: int|
        0 <= i < j < s.len() && (#[trigger] s[i]).kind is Retrieve && (#[trigger] s[j]).kind is Retrieve
            ==> played(rules, g, p, s[i]) != played(rules, g, p, s[j])
}

/// Whether every placement of a list starts in one of the first `k` ways.
spec fn starts_within(rules: Rulebook, g: GameState, p: PlayerId, s: Seq<Play>, k: int) -> bool {
    forall|i: int|
        0 <= i < s.len() && (#[trigger] s[i]).kind is Place ==> beg_list(rules, g, p).take(
            k,
        ).contains(s[i].beg)
}

proof fn lemma_upto_apart(rules: Rulebook, g: GameState, p: PlayerId, k: nat)
    requires
        p.ok(),
        k <= beg_list(rules, g, p).len(),
    ensures
        ({
            let (s, to) = normal_upto(rules, g, p, k);
            apart(rules, g, p, s, to) && starts_within(rules, g, p, s, k as int)
        }),
    decreases k,
{
    if k > 0 {
        let list = beg_list(rules, g, p);
        let (found, mid) = normal_upto(rules, g, p, (k - 1) as nat);
        lemma_upto_apart(rules, g, p, (k - 1) as nat);
        let beg = list[k - 1];
        let h = begged(rules, g, p, beg);
        let avail = available_list(h, p);
        let budget = h.players[p.0 as int].corn as int;
        let none = Seq::<(WorkerId, Placement)>::empty();
        let places = place_list(h, avail, 0, budget, beg, none);
        let board = board_list(h, p);
        let (takes, to) = retrieve_walk(rules, h, p, board, Seq::empty(), beg, mid);
        let all = normal_upto(rules, g, p, k).0;
        assert(all =~= found + (places + takes));
        lemma_workers_where(h, p, |l: WorkerLoc| l is OnGear, 6);
        lemma_walk_fresh(rules, g, h, p, board, Seq::empty(), beg, mid);
        lemma_places_once(h, avail, 0, budget, beg, none);
        starts_are_listed_once(rules, g, p);
        let a = found.len() as int;
        let b = a + places.len() as int;
        assert forall|i: int| a <= i < b implies (#[trigger] all[i]).kind is Place && all[i].beg
            == beg by {
            assert(all[i] == places[i - a]);
            assert(places.contains(all[i]));
            lemma_places_first(h, avail, 0, budget, beg, none, all[i]);
        }
        assert forall|i: int| b <= i < all.len() implies (#[trigger] all[i]).kind is Retrieve
            && all[i] == takes[i - b] by {}
        let early = list.take(k - 1);
        let now = list.take(k as int);
        assert(!early.contains(beg)) by {
            if early.contains(beg) {
                let x = early.index_of(beg);
                assert(list[x] == list[k - 1]);
            }
        }
        assert forall|i: int| 0 <= i < all.len() && (#[trigger] all[i]).kind is Place implies
            now.contains(all[i].beg) by {
            if i < a {
                assert(all[i] == found[i]);
                let x = early.index_of(found[i].beg);
                assert(now[x] == early[x]);
            } else {
                assert(now[k - 1] == beg);
            }
        }
        assert forall|i: int| 0 <= i < all.len() && (#[trigger] all[i]).kind is Retrieve implies
            to.contains(played(rules, g, p, all[i])) by {
            if i < a {
                assert(all[i] == found[i]);
                assert(mid.contains(played(rules, g, p, found[i])));
            } else {
                assert(all[i] == takes[i - b]);
            }
        }
        assert forall|i: int, j: int|
            0 <= i < j < all.len() && (#[trigger] all[i]).kind is Retrieve && (
            #[trigger] all[j]).kind is Retrieve implies played(rules, g, p, all[i]) != played(
            rules,
            g,
            p,
            all[j],
        ) by {
            if j < a {
                assert(all[i] == found[i] && all[j] == found[j]);
            } else if i < a {
                assert(all[i] == found[i] && all[j] == takes[j - b]);
                assert(mid.contains(played(rules, g, p, found[i])));
            } else {
                assert(all[i] == takes[i - b] && all[j] == takes[j - b]);
            }
        }
        assert forall|i: int, j: int| 0 <= i < j < all.len() implies all[i] != all[j] by {
            if j < a {
                assert(all[i] == found[i] && all[j] == found[j]);
            } else if all[i].kind is Place && all[j].kind is Place {
                assert(j < b);
                if i < a {
                    assert(all[i] == found[i]);
                    assert(early.contains(found[i].beg));
                } else {
                    assert(all[i] == places[i - a] && all[j] == places[j - a]);
                }
            } else if j >= b && all[i].kind is Retrieve {
                assert(played(rules, g, p, all[i]) != played(rules, g, p, all[j]));
            }
        }
        assert(all.no_duplicates());
    }
}

proof fn lemma_pity_once(g: GameState, p: PlayerId)
    ensures
        pity_list(g, p).no_duplicates(),
{
    let avail = available_list(g, p);
    if avail.len() > 0 {
        let f = pities(g, p, avail[0]);
        let spots = spots_list(g);
        spots_are_listed_once(g);
        assert forall|i: int, j: int, a: Play|
            0 <= i < j < spots.len() && #[trigger] f(i).contains(a) implies !#[trigger] f(
            j,
        ).contains(a) by {
            assert(f(i)[0] == a);
            if f(j).contains(a) {
                assert(f(j)[0] == a);
            }
        }
        lemma_flat_once(spots.len() as int, f);
    }
}

/// No legal move is listed twice.
pub proof fn legal_moves_are_listed_once(rules: Rulebook, g: GameState, p: PlayerId)
    requires
        p.ok(),
    ensures
        legal_list(rules, g, p).no_duplicates(),
{
    lemma_upto_apart(rules, g, p, beg_list(rules, g, p).len());
    lemma_pity_once(g, p);
}

/// Two different retrievals among the legal moves lead to different positions,
/// however each of them starts.
pub proof fn retrievals_lead_to_different_positions(
    rules: Rulebook,
    g: GameState,
    p: PlayerId,
    a: Play,
    b: Play,
)
    requires
        p.ok(),
        legal_list(rules, g, p).contains(a),
        legal_list(rules, g, p).contains(b),
        a.kind is Retrieve,
        b.kind is Retrieve,
        a != b,
    ensures
        played(rules, g, p, a) != played(rules, g, p, b),
{
    let s = legal_list(rules, g, p);
    lemma_upto_apart(rules, g, p, beg_list(rules, g, p).len());
    let i = s.index_of(a);
    let j = s.index_of(b);
    if normal_list(rules, g, p).len() > 0 {
        if i < j {
            assert(played(rules, g, p, s[i]) != played(rules, g, p, s[j]));
        } else {
            assert(played(rules, g, p, s[j]) != played(rules, g, p, s[i]));
        }
    } else {
        let avail = available_list(g, p);
        let x = lemma_flat_part(spots_list(g).len() as int, pities(g, p, avail[0]), a);
        assert(pities(g, p, avail[0])(x)[0] == a);
    }
}

/// The moves of one retrieval walk lead to positions not reached before it, each
/// to one of its own, and all are reached by its end.
pub proof fn walks_lead_to_new_positions(
    rules: Rulebook,
    g: GameState,
    p: PlayerId,
    beg: Option<Temple>,
    reached: Set<GameState>,
)
    requires
        p.ok(),
    ensures
        ({
            let h = begged(rules, g, p, beg);
            let (found, to) = retrieve_walk(
                rules,
                h,
                p,
                board_list(h, p),
                Seq::empty(),
                beg,
                reached,
            );
            fresh(rules, g, p, found, reached, to)
        }),
{
    let h = begged(rules, g, p, beg);
    lemma_workers_where(h, p, |l: WorkerLoc| l is OnGear, 6);
    lemma_walk_fresh(rules, g, h, p, board_list(h, p), Seq::empty(), beg, reached);
}

} // verus!
