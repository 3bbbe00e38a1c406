//! Every position that picking workers up can lead to is reached by some move.

use crate::book::Rulebook;
use crate::effect::{after_all, Effect};
use crate::ids::{PlayerId, Temple, WorkerId};
use crate::legal::{played, taken_all, takes_on_offer};
use crate::lists::only;
use crate::moves::{
    beg_list, begged, lemma_workers_where, load, normal_list, normal_upto,
    picking_up_lightens_the_gears, place_list, retrieve_over, retrieve_taking, retrieve_walk,
    worker_list, workers_ok, Kind, Play,
};
use crate::state::{available_list, board_list, retrieved, workers_where, GameState, WorkerLoc};
use vstd::prelude::*;

verus! {

/// Whether picking one of some workers up leads from one position to another.
pub open spec fn leads_to(
    rules: Rulebook,
    p: PlayerId,
    board: Seq<WorkerId>,
    x: GameState,
    k: int,
    c: int,
    y: GameState,
) -> bool {
    &&& 0 <= k < board.len()
    &&& x.workers[board[k].0 as int] matches WorkerLoc::OnGear { gear, pos } && 0 <= c < worker_list(
        rules,
        x,
        p,
        gear,
        pos.0 as int,
    ).len() && y == retrieved(
        after_all(rules, x, p, worker_list(rules, x, p, gear, pos.0 as int)[c]),
        board[k],
    )
}

/// Whether a set of positions holds what its positions lead to, but for some.
spec fn closed(
    rules: Rulebook,
    p: PlayerId,
    board: Seq<WorkerId>,
    r: Set<GameState>,
    but: Set<GameState>,
) -> bool {
    forall|x: GameState, k: int, c: int, y: GameState|
        r.contains(x) && !but.contains(x) && #[trigger] leads_to(rules, p, board, x, k, c, y)
            ==> r.contains(y)
}

/// Whether some move of a list is a retrieval that ends in a position.
pub open spec fn ends_in(rules: Rulebook, g: GameState, p: PlayerId, s: Seq<Play>, x: GameState) -> bool {
    exists|i: int|
        0 <= i < s.len() && (#[trigger] s[i]).kind is Retrieve && played(rules, g, p, s[i]) == x
}

/// Whether a stretch of a walk found a move for every position it reached, and
/// left what it reached closed.
spec fn covers(
    rules: Rulebook,
    g0: GameState,
    p: PlayerId,
    board: Seq<WorkerId>,
    found: Seq<Play>,
    from: Set<GameState>,
    to: Set<GameState>,
    but: Set<GameState>,
) -> bool {
    &&& from.subset_of(to)
    &&& closed(rules, p, board, to, but)
    &&& forall|x: GameState| #[trigger]
        to.contains(x) && !from.contains(x) ==> ends_in(rules, g0, p, found, x)
}

proof fn lemma_covers_then(
    rules: Rulebook,
    g0: GameState,
    p: PlayerId,
    board: Seq<WorkerId>,
    a: Seq<Play>,
    b: Seq<Play>,
    from: Set<GameState>,
    mid: Set<GameState>,
    to: Set<GameState>,
    but: Set<GameState>,
)
    requires
        from.subset_of(mid),
        forall|x: GameState| #[trigger]
            mid.contains(x) && !from.contains(x) ==> ends_in(rules, g0, p, a, x),
        covers(rules, g0, p, board, b, mid, to, but),
    ensures
        covers(rules, g0, p, board, a + b, from, to, but),
{
    let s = a + b;
    assert forall|x: GameState| #[trigger] to.contains(x) && !from.contains(x) implies ends_in(
        rules,
        g0,
        p,
        s,
        x,
    ) by {
        if mid.contains(x) {
            let i = choose|i: int|
                0 <= i < a.len() && (#[trigger] a[i]).kind is Retrieve && played(rules, g0, p, a[i])
                    == x;
            assert(s[i] == a[i]);
        } else {
            let i = choose|i: int|
                0 <= i < b.len() && (#[trigger] b[i]).kind is Retrieve && played(rules, g0, p, b[i])
                    == x;
            assert(s[a.len() + i] == b[i]);
        }
    }
}

/// Whether a walk that has picked up `cur` stands where that leads to.
spec fn stands(
    rules: Rulebook,
    g0: GameState,
    p: PlayerId,
    beg: Option<Temple>,
    cur: Seq<(WorkerId, Seq<Effect>)>,
    g: GameState,
) -> bool {
    taken_all(rules, begged(rules, g0, p, beg), p, cur) == g
}

proof fn lemma_walk(
    rules: Rulebook,
    g0: GameState,
    g: GameState,
    p: PlayerId,
    board: Seq<WorkerId>,
    cur: Seq<(WorkerId, Seq<Effect>)>,
    beg: Option<Temple>,
    reached: Set<GameState>,
    but: Set<GameState>,
)
    requires
        p.ok(),
        workers_ok(board),
        stands(rules, g0, p, beg, cur, g),
        closed(rules, p, board, reached, but),
    ensures
        ({
            let (found, to) = retrieve_walk(rules, g, p, board, cur, beg, reached);
            &&& covers(rules, g0, p, board, found, reached, to, but)
            &&& cur.len() > 0 ==> to.contains(g)
            &&& cur.len() == 0 ==> forall|k: int, c: int, y: GameState| #[trigger]
                leads_to(rules, p, board, g, k, c, y) ==> to.contains(y)
        }),
    decreases load(g, board), 2 * board.len() + 2, 0int,
{
    if !(cur.len() > 0 && reached.contains(g)) {
        let here = Play { kind: Kind::Retrieve(cur), beg, corn_cost: 0 };
        let head = only(cur.len() > 0, here);
        let (from, but2) = if cur.len() > 0 {
            (reached.insert(g), but.insert(g))
        } else {
            (reached, but)
        };
        assert(played(rules, g0, p, here) == g);
        assert forall|x: GameState| #[trigger]
            from.contains(x) && !reached.contains(x) implies ends_in(rules, g0, p, head, x) by {
            assert(head[0].kind is Retrieve && played(rules, g0, p, head[0]) == x);
        }
        assert(closed(rules, p, board, from, but2));
        let (found, to) = retrieve_over(rules, g, p, board, cur, beg, from, board.len());
        lemma_over(rules, g0, g, p, board, cur, beg, from, but2, board.len());
        lemma_covers_then(rules, g0, p, board, head, found, reached, from, to, but2);
        assert forall|k: int, c: int, y: GameState| #[trigger]
            leads_to(rules, p, board, g, k, c, y) implies to.contains(y) by {}
        assert(closed(rules, p, board, to, but)) by {
            assert forall|x: GameState, k: int, c: int, y: GameState|
                to.contains(x) && !but.contains(x) && #[trigger] leads_to(
                    rules,
                    p,
                    board,
                    x,
                    k,
                    c,
                    y,
                ) implies to.contains(y) by {
                if cur.len() > 0 && x == g {
                    assert(to.contains(y));
                } else {
                    assert(!but2.contains(x));
                }
            }
        }
    }
}

proof fn lemma_over(
    rules: Rulebook,
    g0: GameState,
    g: GameState,
    p: PlayerId,
    board: Seq<WorkerId>,
    cur: Seq<(WorkerId, Seq<Effect>)>,
    beg: Option<Temple>,
    reached: Set<GameState>,
    but: Set<GameState>,
    k: nat,
)
    requires
        p.ok(),
        workers_ok(board),
        k <= board.len(),
        stands(rules, g0, p, beg, cur, g),
        closed(rules, p, board, reached, but),
    ensures
        ({
            let (found, to) = retrieve_over(rules, g, p, board, cur, beg, reached, k);
            &&& covers(rules, g0, p, board, found, reached, to, but)
            &&& forall|i: int, c: int, y: GameState|
                i < k && #[trigger] leads_to(rules, p, board, g, i, c, y) ==> to.contains(y)
        }),
    decreases load(g, board), 2 * k + 1, 0int,
{
    if k > 0 {
        let (found, mid) = retrieve_over(rules, g, p, board, cur, beg, reached, (k - 1) as nat);
        lemma_over(rules, g0, g, p, board, cur, beg, reached, but, (k - 1) as nat);
        if let Some((gear, pos)) = g.workers[board[k - 1].0 as int].space() {
            let n = worker_list(rules, g, p, gear, pos.0 as int).len();
            let (more, to) = retrieve_taking(
                rules,
                g,
                p,
                board,
                cur,
                beg,
                mid,
                (k - 1) as nat,
                n,
            );
            lemma_taking(rules, g0, g, p, board, cur, beg, mid, but, (k - 1) as nat, n);
            lemma_covers_then(rules, g0, p, board, found, more, reached, mid, to, but);
            assert forall|i: int, c: int, y: GameState|
                i < k && #[trigger] leads_to(rules, p, board, g, i, c, y) implies to.contains(y) by {
                if i < k - 1 {
                    assert(mid.contains(y));
                }
            }
        } else {
            assert forall|i: int, c: int, y: GameState|
                i < k && #[trigger] leads_to(rules, p, board, g, i, c, y) implies mid.contains(
                y,
            ) by {
                assert(i != k - 1);
            }
        }
    }
}

proof fn lemma_taking(
    rules: Rulebook,
    g0: GameState,
    g: GameState,
    p: PlayerId,
    board: Seq<WorkerId>,
    cur: Seq<(WorkerId, Seq<Effect>)>,
    beg: Option<Temple>,
    reached: Set<GameState>,
    but: Set<GameState>,
    k: nat,
    c: nat,
)
    requires
        p.ok(),
        workers_ok(board),
        k < board.len(),
        g.workers[board[k as int].0 as int] is OnGear,
        stands(rules, g0, p, beg, cur, g),
        closed(rules, p, board, reached, but),
    ensures
        ({
            let (found, to) = retrieve_taking(rules, g, p, board, cur, beg, reached, k, c);
            &&& covers(rules, g0, p, board, found, reached, to, but)
            &&& forall|j: int, y: GameState|
                j < c && #[trigger] leads_to(rules, p, board, g, k as int, j, y) ==> to.contains(y)
        }),
    decreases load(g, board), 2 * k + 2, c,
{
    if c > 0 {
        let (found, mid) = retrieve_taking(
            rules,
            g,
            p,
            board,
            cur,
            beg,
            reached,
            k,
            (c - 1) as nat,
        );
        lemma_taking(rules, g0, g, p, board, cur, beg, reached, but, k, (c - 1) as nat);
        let w = board[k as int];
        let at = g.workers[w.0 as int].space()->Some_0;
        let choice = worker_list(rules, g, p, at.0, (at.1).0 as int)[c - 1];
        let h = retrieved(after_all(rules, g, p, choice), w);
        let next = cur.push((w, choice));
        picking_up_lightens_the_gears(rules, g, p, choice, board, k as int);
        assert(next.drop_last() =~= cur);
        let (more, to) = retrieve_walk(rules, h, p, board, next, beg, mid);
        lemma_walk(rules, g0, h, p, board, next, beg, mid, but);
        lemma_covers_then(rules, g0, p, board, found, more, reached, mid, to, but);
        assert forall|j: int, y: GameState|
            j < c && #[trigger] leads_to(rules, p, board, g, k as int, j, y) implies to.contains(
            y,
        ) by {
            if j < c - 1 {
                assert(mid.contains(y));
            } else {
                assert(y == h);
            }
        }
    }
}

proof fn lemma_board_same(g: GameState, h: GameState, p: PlayerId, k: nat)
    requires
        g.workers == h.workers,
    ensures
        workers_where(g, p, |l: WorkerLoc| l is OnGear, k) == workers_where(
            h,
            p,
            |l: WorkerLoc| l is OnGear,
            k,
        ),
    decreases k,
{
    if k > 0 {
        lemma_board_same(g, h, p, (k - 1) as nat);
    }
}

proof fn lemma_upto(rules: Rulebook, g: GameState, p: PlayerId, k: nat)
    requires
        p.ok(),
        k <= beg_list(rules, g, p).len(),
    ensures
        ({
            let (s, to) = normal_upto(rules, g, p, k);
            let board = board_list(g, p);
            &&& closed(rules, p, board, to, Set::empty())
            &&& forall|x: GameState| #[trigger] to.contains(x) ==> ends_in(rules, g, p, s, x)
            &&& forall|i: int, j: int, c: int, y: GameState|
                0 <= i < k && #[trigger] leads_to(
                    rules,
                    p,
                    board,
                    begged(rules, g, p, beg_list(rules, g, p)[i]),
                    j,
                    c,
                    y,
                ) ==> to.contains(y)
        }),
    decreases k,
{
    if k > 0 {
        lemma_upto(rules, g, p, (k - 1) as nat);
        let (found, mid) = normal_upto(rules, g, p, (k - 1) as nat);
        let beg = beg_list(rules, g, p)[k - 1];
        let h = begged(rules, g, p, beg);
        assert(h.workers == g.workers);
        lemma_board_same(g, h, p, 6);
        let board = board_list(h, p);
        let places = place_list(
            h,
            available_list(h, p),
            0,
            h.players[p.0 as int].corn as int,
            beg,
            Seq::empty(),
        );
        let (takes, to) = retrieve_walk(rules, h, p, board, Seq::empty(), beg, mid);
        let all = normal_upto(rules, g, p, k).0;
        assert(all =~= (found + places) + takes);
        lemma_workers_where(h, p, |l: WorkerLoc| l is OnGear, 6);
        lemma_walk(rules, g, h, p, board, Seq::empty(), beg, mid, Set::empty());
        assert forall|x: GameState| #[trigger] to.contains(x) implies ends_in(
            rules,
            g,
            p,
            all,
            x,
        ) by {
            if mid.contains(x) {
                let i = choose|i: int|
                    0 <= i < found.len() && (#[trigger] found[i]).kind is Retrieve && played(
                        rules,
                        g,
                        p,
                        found[i],
                    ) == x;
                assert(all[i] == found[i]);
            } else {
                let i = choose|i: int|
                    0 <= i < takes.len() && (#[trigger] takes[i]).kind is Retrieve && played(
                        rules,
                        g,
                        p,
                        takes[i],
                    ) == x;
                assert(all[found.len() + places.len() + i] == takes[i]);
            }
        }
        assert forall|i: int, j: int, c: int, y: GameState|
            0 <= i < k && #[trigger] leads_to(
                rules,
                p,
                board,
                begged(rules, g, p, beg_list(rules, g, p)[i]),
                j,
                c,
                y,
            ) implies to.contains(y) by {
            if i < k - 1 {
                assert(mid.contains(y));
            }
        }
    }
}

proof fn lemma_along(
    rules: Rulebook,
    p: PlayerId,
    board: Seq<WorkerId>,
    to: Set<GameState>,
    h: GameState,
    v: Seq<(WorkerId, Seq<Effect>)>,
    n: int,
)
    requires
        0 <= n < v.len(),
        closed(rules, p, board, to, Set::empty()),
        forall|i: int| 0 <= i < v.len() ==> board.contains((#[trigger] v[i]).0),
        takes_on_offer(rules, taken_all(rules, h, p, v.take(n)), p, v, n),
        n > 0 ==> to.contains(taken_all(rules, h, p, v.take(n))),
        n == 0 ==> forall|k: int, c: int, y: GameState| #[trigger]
            leads_to(rules, p, board, h, k, c, y) ==> to.contains(y),
    ensures
        to.contains(taken_all(rules, h, p, v)),
    decreases v.len() - n,
{
    let x = taken_all(rules, h, p, v.take(n));
    let (w, s) = v[n];
    assert(v.take(n + 1).drop_last() =~= v.take(n));
    let y = taken_all(rules, h, p, v.take(n + 1));
    assert(y == retrieved(after_all(rules, x, p, s), w));
    assert(board.contains(v[n].0));
    let k = board.index_of(w);
    if let WorkerLoc::OnGear { gear, pos } = x.workers[w.0 as int] {
        let list = worker_list(rules, x, p, gear, pos.0 as int);
        let c = list.index_of(s);
        assert(leads_to(rules, p, board, x, k, c, y));
    }
    if n == 0 {
        assert(v.take(0) =~= Seq::<(WorkerId, Seq<Effect>)>::empty());
        assert(x == h);
    }
    assert(to.contains(y));
    if n + 1 < v.len() {
        lemma_along(rules, p, board, to, h, v, n + 1);
    } else {
        assert(v.take(n + 1) =~= v);
    }
}

/// Whatever workers a seat picks up, in whatever order and doing whatever each is
/// offered, after whatever start of the turn: some ordinary move that generation
/// finds leads to the same position.
pub proof fn every_retrieval_leads_where_some_move_does(
    rules: Rulebook,
    g: GameState,
    p: PlayerId,
    beg: Option<Temple>,
    v: Seq<(WorkerId, Seq<Effect>)>,
)
    requires
        p.ok(),
        beg_list(rules, g, p).contains(beg),
        v.len() > 0,
        forall|i: int| 0 <= i < v.len() ==> board_list(g, p).contains((#[trigger] v[i]).0),
        takes_on_offer(rules, begged(rules, g, p, beg), p, v, 0),
    ensures
        ends_in(
            rules,
            g,
            p,
            normal_list(rules, g, p),
            taken_all(rules, begged(rules, g, p, beg), p, v),
        ),
{
    let n = beg_list(rules, g, p).len();
    let h = begged(rules, g, p, beg);
    let board = board_list(g, p);
    lemma_upto(rules, g, p, n);
    let to = normal_upto(rules, g, p, n).1;
    let i = beg_list(rules, g, p).index_of(beg);
    assert(begged(rules, g, p, beg_list(rules, g, p)[i]) == h);
    assert(v.take(0) =~= Seq::<(WorkerId, Seq<Effect>)>::empty());
    assert(taken_all(rules, h, p, v.take(0)) == h);
    lemma_along(rules, p, board, to, h, v, 0);
}

} // verus!
