//! Positions that generation and search remember, filed under words and told
//! apart by everything in them.

use crate::ids::PlayerId;
use crate::nodekey::NodeKey;
use crate::phase::Phase;
use crate::search::Entry;
use crate::seen::SeenDigests;
use crate::state::GameState;
use vstd::prelude::*;

verus! {

/// A position and a number as a key.
pub open spec fn plain(g: GameState, n: u8) -> NodeKey {
    NodeKey { state: g, phase: Phase::Beg, turn: PlayerId(0), done: n }
}

fn plain_key(g: &GameState, n: u8) -> (k: NodeKey)
    ensures
        k == plain(*g, n),
{
    NodeKey { state: *g, phase: Phase::Beg, turn: PlayerId(0), done: n }
}

/// Keys, all different, each with the place of the last one before it that has
/// the same word.
struct Filed {
    keys: Vec<NodeKey>,
    before: Vec<Option<usize>>,
    last: SeenDigests,
}

/// The last place before `i` with a word, if there is one.
spec fn is_last(keys: Seq<NodeKey>, d: u64, i: int, at: Option<usize>) -> bool {
    match at {
        Some(j) => j < i && keys[j as int].word() == d && forall|k: int|
            j < k < i ==> (#[trigger] keys[k]).word() != d,
        None => forall|k: int| 0 <= k < i ==> (#[trigger] keys[k]).word() != d,
    }
}

impl Filed {
    /// The place held for a word, if one is.
    spec fn newest(&self, d: u64) -> Option<usize> {
        if self.last@.contains_key(d) {
            Some(self.last@[d])
        } else {
            None
        }
    }

    spec fn ok(&self) -> bool {
        &&& self.before@.len() == self.keys@.len()
        &&& forall|i: int|
            0 <= i < self.keys@.len() ==> is_last(
                self.keys@,
                self.keys@[i].word(),
                i,
                #[trigger] self.before@[i],
            )
        &&& forall|d: u64|
            is_last(self.keys@, d, self.keys@.len() as int, #[trigger] self.newest(d))
        &&& forall|i: int, j: int|
            0 <= i < j < self.keys@.len() ==> #[trigger] self.keys@[i] != #[trigger] self.keys@[j]
    }

    spec fn has(&self, k: NodeKey) -> bool {
        exists|i: int| 0 <= i < self.keys@.len() && #[trigger] self.keys@[i] == k
    }

    fn new() -> (f: Filed)
        ensures
            f.ok(),
            f.keys@.len() == 0,
    {
        let f = Filed { keys: Vec::new(), before: Vec::new(), last: SeenDigests::new() };
        assert forall|d: u64| is_last(f.keys@, d, 0, #[trigger] f.newest(d)) by {
            assert(!f.last@.contains_key(d));
        }
        f
    }

    /// The place of a key, if it is there.
    fn find(&self, key: &NodeKey) -> (r: Option<usize>)
        requires
            self.ok(),
        ensures
            match r {
                Some(i) => i < self.keys@.len() && self.keys@[i as int] == *key,
                None => !self.has(*key),
            },
    {
        let d: u64 = key.digest();
        let mut cur: Option<usize> = self.last.get(d);
        let ghost mut to: int = self.keys@.len() as int;
        assert(cur == self.newest(d));
        loop
            invariant
                self.ok(),
                d == key.word(),
                0 <= to <= self.keys@.len(),
                is_last(self.keys@, d, to, cur),
                forall|k: int| to <= k < self.keys@.len() ==> #[trigger] self.keys@[k] != *key,
            decreases to,
        {
            match cur {
                None => {
                    return None;
                },
                Some(i) => {
                    if self.keys[i].same(key) {
                        return Some(i);
                    }
                    assert(is_last(self.keys@, d, i as int, self.before@[i as int]));
                    cur = self.before[i];
                    proof {
                        to = i as int;
                    }
                },
            }
        }
    }

    /// Files a new key, last.
    fn add_key(&mut self, key: NodeKey)
        requires
            old(self).ok(),
            !old(self).has(key),
        ensures
            final(self).ok(),
            final(self).keys@ == old(self).keys@.push(key),
    {
        let ghost was = *self;
        let ghost n = self.keys@.len() as int;
        let d: u64 = key.digest();
        let at: usize = self.keys.len();
        let prev: Option<usize> = self.last.get(d);
        assert(prev == was.newest(d));
        assert(is_last(was.keys@, d, n, prev));
        self.keys.push(key);
        self.before.push(prev);
        self.last.insert(d, at);
        proof {
            let keys = self.keys@;
            assert forall|i: int| 0 <= i < keys.len() implies is_last(
                keys,
                keys[i].word(),
                i,
                #[trigger] self.before@[i],
            ) by {
                if i < n {
                    assert(self.before@[i] == was.before@[i]);
                    assert(is_last(was.keys@, was.keys@[i].word(), i, was.before@[i]));
                    lemma_is_last(was.keys@, keys, keys[i].word(), i, self.before@[i]);
                } else {
                    lemma_is_last(was.keys@, keys, d, n, prev);
                }
            }
            assert forall|e: u64| is_last(keys, e, keys.len() as int, #[trigger] self.newest(e)) by {
                assert(is_last(was.keys@, e, n, was.newest(e)));
                if e == d {
                    assert(self.newest(e) == Some(at));
                } else {
                    assert(self.newest(e) == was.newest(e));
                    lemma_is_last(was.keys@, keys, e, n, was.newest(e));
                    assert(keys[n].word() != e);
                }
            }
            assert forall|i: int, j: int| 0 <= i < j < keys.len() implies #[trigger] keys[i]
                != #[trigger] keys[j] by {
                assert(keys[i] == was.keys@[i]);
                if j < n {
                    assert(keys[j] == was.keys@[j]);
                }
            }
        }
    }
}

/// Keys added behind do not change what stood before them.
proof fn lemma_is_last(a: Seq<NodeKey>, b: Seq<NodeKey>, d: u64, i: int, at: Option<usize>)
    requires
        is_last(a, d, i, at),
        0 <= i <= a.len(),
        a.len() <= b.len(),
        forall|k: int| 0 <= k < a.len() ==> #[trigger] b[k] == a[k],
    ensures
        is_last(b, d, i, at),
{
    match at {
        Some(j) => {
            assert(b[j as int] == a[j as int]);
            assert forall|k: int| j < k < i implies (#[trigger] b[k]).word() != d by {
                assert(b[k] == a[k]);
            }
        },
        None => {
            assert forall|k: int| 0 <= k < i implies (#[trigger] b[k]).word() != d by {
                assert(b[k] == a[k]);
            }
        },
    }
}

/// Positions already reached.
pub struct Positions {
    filed: Filed,
}

impl View for Positions {
    type V = Set<GameState>;

    closed spec fn view(&self) -> Set<GameState> {
        Set::new(|g: GameState| self.filed.has(plain(g, 0)))
    }
}

impl Positions {
    /// The positions are filed as they should be.
    pub closed spec fn ok(&self) -> bool {
        self.filed.ok()
    }

    /// No positions.
    pub fn new() -> (s: Positions)
        ensures
            s.ok(),
            s@ == Set::<GameState>::empty(),
    {
        let s = Positions { filed: Filed::new() };
        assert(s@ =~= Set::<GameState>::empty());
        s
    }

    /// Adds a position, and tells whether it was not there yet.
    pub fn insert(&mut self, g: GameState) -> (fresh: bool)
        requires
            old(self).ok(),
        ensures
            final(self).ok(),
            fresh == !old(self)@.contains(g),
            final(self)@ == old(self)@.insert(g),
    {
        let ghost was = *self;
        let key = plain_key(&g, 0);
        match self.filed.find(&key) {
            Some(i) => {
                assert(self.filed.has(plain(g, 0)));
                assert(self@ =~= was@.insert(g));
                false
            },
            None => {
                self.filed.add_key(key);
                proof {
                    let (a, b) = (was.filed.keys@, self.filed.keys@);
                    assert forall|h: GameState| self@.contains(h) <==> was@.insert(g).contains(h) by {
                        if was.filed.has(plain(h, 0)) {
                            let i = choose|i: int| 0 <= i < a.len() && #[trigger] a[i] == plain(h, 0);
                            assert(b[i] == a[i]);
                        }
                        if h == g {
                            assert(b[a.len() as int] == plain(h, 0));
                        }
                        if self.filed.has(plain(h, 0)) {
                            let i = choose|i: int| 0 <= i < b.len() && #[trigger] b[i] == plain(h, 0);
                            if i < a.len() {
                                assert(a[i] == b[i]);
                            } else {
                                assert(plain(h, 0).state == plain(g, 0).state);
                            }
                        }
                    }
                    assert(self@ =~= was@.insert(g));
                }
                true
            },
        }
    }
}

/// Scores found for positions, each with the depth it was searched to.
pub struct ScoreTable {
    filed: Filed,
    entries: Vec<Entry>,
}

impl View for ScoreTable {
    type V = Map<(GameState, u8), Entry>;

    closed spec fn view(&self) -> Map<(GameState, u8), Entry> {
        Map::new(
            |k: (GameState, u8)| self.filed.has(plain(k.0, k.1)),
            |k: (GameState, u8)| self.entries@[self.place(k)],
        )
    }
}

impl ScoreTable {
    /// Where a position and a depth are filed.
    closed spec fn place(&self, k: (GameState, u8)) -> int {
        choose|i: int|
            0 <= i < self.filed.keys@.len() && #[trigger] self.filed.keys@[i] == plain(k.0, k.1)
    }

    /// The positions are filed as they should be, each with a score.
    pub closed spec fn ok(&self) -> bool {
        self.filed.ok() && self.entries@.len() == self.filed.keys@.len()
    }

    /// No scores.
    pub fn new() -> (t: ScoreTable)
        ensures
            t.ok(),
            t@ == Map::<(GameState, u8), Entry>::empty(),
    {
        let t = ScoreTable { filed: Filed::new(), entries: Vec::new() };
        assert(t@ =~= Map::<(GameState, u8), Entry>::empty());
        t
    }

    proof fn lemma_place(&self, k: (GameState, u8), i: int)
        requires
            self.ok(),
            0 <= i < self.filed.keys@.len(),
            self.filed.keys@[i] == plain(k.0, k.1),
        ensures
            self.place(k) == i,
            self@.contains_key(k),
            self@[k] == self.entries@[i],
    {
        let j = self.place(k);
        assert(self.filed.keys@[i] == plain(k.0, k.1));
        assert(0 <= j < self.filed.keys@.len() && self.filed.keys@[j] == plain(k.0, k.1));
        if i < j {
            assert(self.filed.keys@[i] != self.filed.keys@[j]);
        } else if j < i {
            assert(self.filed.keys@[j] != self.filed.keys@[i]);
        }
    }

    /// The score held for a position and a depth, if one is.
    pub fn get(&self, g: &GameState, depth: u8) -> (e: Option<Entry>)
        requires
            self.ok(),
        ensures
            e == (if self@.contains_key((*g, depth)) {
                Some(self@[(*g, depth)])
            } else {
                None
            }),
    {
        let key = plain_key(g, depth);
        match self.filed.find(&key) {
            Some(i) => {
                proof {
                    self.lemma_place((*g, depth), i as int);
                }
                Some(self.entries[i])
            },
            None => None,
        }
    }

    /// Holds a score for a position and a depth, in place of the one held.
    pub fn insert(&mut self, g: &GameState, depth: u8, e: Entry)
        requires
            old(self).ok(),
        ensures
            final(self).ok(),
            final(self)@ == old(self)@.insert((*g, depth), e),
    {
        let ghost was = *self;
        let ghost k0 = (*g, depth);
        let key = plain_key(g, depth);
        match self.filed.find(&key) {
            Some(i) => {
                self.entries.set(i, e);
                proof {
                    self.lemma_place(k0, i as int);
                    was.lemma_place(k0, i as int);
                    let a = was.filed.keys@;
                    assert forall|k: (GameState, u8)| was@.contains_key(k) && k != k0 implies self@[k]
                        == was@[k] by {
                        let j = choose|j: int| 0 <= j < a.len() && #[trigger] a[j] == plain(k.0, k.1);
                        was.lemma_place(k, j);
                        self.lemma_place(k, j);
                        if j == i {
                            assert(plain(k.0, k.1) == plain(k0.0, k0.1));
                        }
                    }
                    assert(self@ =~= was@.insert(k0, e));
                }
            },
            None => {
                self.filed.add_key(key);
                self.entries.push(e);
                proof {
                    let (a, b) = (was.filed.keys@, self.filed.keys@);
                    self.lemma_place(k0, a.len() as int);
                    let next = was@.insert(k0, e);
                    assert forall|k: (GameState, u8)| #[trigger] self@.contains_key(k)
                        == next.contains_key(k) && (next.contains_key(k) ==> self@[k] == next[k]) by {
                        if was.filed.has(plain(k.0, k.1)) {
                            let j = choose|j: int|
                                0 <= j < a.len() && #[trigger] a[j] == plain(k.0, k.1);
                            assert(b[j] == a[j]);
                            was.lemma_place(k, j);
                            self.lemma_place(k, j);
                        }
                        if self.filed.has(plain(k.0, k.1)) {
                            let j = choose|j: int|
                                0 <= j < b.len() && #[trigger] b[j] == plain(k.0, k.1);
                            if j < a.len() {
                                assert(a[j] == b[j]);
                            } else {
                                assert(plain(k.0, k.1) == plain(k0.0, k0.1));
                            }
                        }
                    }
                    assert(self@ =~= next);
                }
            },
        }
    }
}

} // verus!
