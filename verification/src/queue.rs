//! A queue that turns many callers with one request each into few batches.
//!
//! Every caller holds a ticket. A request waits on its ticket until a batch
//! claims it, and the batch's answer is left on the ticket for the caller to
//! collect. Threads, locks and clocks are the host's; this is the state they
//! guard.

use std::collections::VecDeque;
use vstd::prelude::*;

verus! {

/// What a ticket holds.
pub enum Slot<Q, A> {
    /// Not handed out.
    Free,
    /// Handed out, with nothing asked.
    Idle,
    /// A request no batch has claimed yet.
    Waiting(Q),
    /// A request a batch is working on.
    Claimed,
    /// An answer not collected yet.
    Answered(A),
}

/// What a queue has measured.
#[derive(Clone, Copy)]
pub struct BatchStats {
    pub batches: u64,
    pub queries: u64,
    /// Batches by size, doubling from one; the last holds everything larger.
    pub hist: [u64; 12],
    pub max_seen: usize,
    /// Requests taken back because the queue had stopped.
    pub bypassed: u64,
}

/// A queue of requests and the tickets they stand on.
pub struct BatchQueue<Q, A> {
    pub slots: Vec<Slot<Q, A>>,
    /// Tickets with a request waiting, oldest first.
    pub pending: VecDeque<usize>,
    /// Tickets handed back.
    pub free: Vec<usize>,
    pub stop: bool,
    pub max_batch: usize,
    pub stats: BatchStats,
}

/// What a batching thread does next.
#[derive(Clone, Copy, PartialEq, Eq, Debug, Structural)]
pub enum NextBatch {
    /// Return: nothing waits and the queue has stopped.
    Leave,
    /// Sleep until something waits.
    Sleep,
    /// Hold the batch open a little.
    Linger,
    /// Run a batch.
    Run,
}

/// The size class of a batch: how often it can be halved before one is left.
pub open spec fn halvings(n: nat) -> nat
    decreases n,
{
    if n <= 1 {
        0
    } else {
        1 + halvings(n / 2)
    }
}

/// The histogram bucket of a size.
pub open spec fn bucket_of(n: nat) -> int {
    if halvings(n) < 11 {
        halvings(n) as int
    } else {
        11
    }
}

/// A bucket short of the last holds the sizes from a power of two up to the
/// next.
pub proof fn buckets_double(n: nat)
    requires
        n >= 1,
    ensures
        vstd::arithmetic::power2::pow2(halvings(n)) <= n < vstd::arithmetic::power2::pow2(
            halvings(n) + 1,
        ),
    decreases n,
{
    if n > 1 {
        buckets_double(n / 2);
        vstd::arithmetic::power2::lemma_pow2_unfold(halvings(n));
        vstd::arithmetic::power2::lemma_pow2_unfold(halvings(n) + 1);
    } else {
        vstd::arithmetic::power2::lemma2_to64();
    }
}

/// The histogram bucket of a size.
pub fn bucket(v: u64) -> (j: usize)
    ensures
        j == bucket_of(v as nat),
        j < 12,
{
    let mut rest: u64 = v;
    let mut j: usize = 0;
    while rest > 1 && j < 11
        invariant
            j <= 11,
            j + halvings(rest as nat) == halvings(v as nat),
        decreases rest,
    {
        rest = rest / 2;
        j += 1;
    }
    j
}

impl<Q, A> BatchQueue<Q, A> {
    /// What holds of a queue throughout: the tickets waiting in line are exactly
    /// those with a request, each once, and likewise the free ones.
    pub open spec fn ok(self) -> bool {
        &&& self.max_batch >= 1
        &&& self.pending@.no_duplicates()
        &&& forall|t: usize|
            #[trigger] self.pending@.contains(t) <==> t < self.slots@.len()
                && self.slots@[t as int] is Waiting
        &&& self.free@.no_duplicates()
        &&& forall|t: usize|
            #[trigger] self.free@.contains(t) <==> t < self.slots@.len()
                && self.slots@[t as int] is Free
    }

    /// A queue with no tickets. A batch holds at least one request.
    pub fn new(max_batch: usize) -> (q: BatchQueue<Q, A>)
        ensures
            q.ok(),
            q.slots@.len() == 0,
            q.pending@.len() == 0,
            !q.stop,
            q.max_batch == (if max_batch == 0 {
                1
            } else {
                max_batch
            }),
            q.stats.batches == 0,
            q.stats.queries == 0,
            q.stats.bypassed == 0,
            q.stats.max_seen == 0,
            forall|i: int| 0 <= i < 12 ==> q.stats.hist[i] == 0,
    {
        BatchQueue {
            slots: Vec::new(),
            pending: VecDeque::new(),
            free: Vec::new(),
            stop: false,
            max_batch: if max_batch == 0 {
                1
            } else {
                max_batch
            },
            stats: BatchStats {
                batches: 0,
                queries: 0,
                hist: [0u64; 12],
                max_seen: 0,
                bypassed: 0,
            },
        }
    }

    /// Put something on a ticket, and give what was there.
    fn replace(&mut self, t: usize, s: Slot<Q, A>) -> (was: Slot<Q, A>)
        requires
            t < old(self).slots@.len(),
        ensures
            was == old(self).slots@[t as int],
            final(self).slots@ == old(self).slots@.update(t as int, s),
            final(self).pending == old(self).pending,
            final(self).free == old(self).free,
            final(self).stop == old(self).stop,
            final(self).max_batch == old(self).max_batch,
            final(self).stats == old(self).stats,
    {
        self.slots.push(s);
        let was = self.slots.swap_remove(t);
        assert(self.slots@ =~= old(self).slots@.update(t as int, s));
        was
    }

    /// Hand out a ticket: one that came back, or a new one.
    pub fn handle(&mut self) -> (t: usize)
        requires
            old(self).ok(),
        ensures
            final(self).ok(),
            makes(*old(self), Call::Handle(t), *final(self)),
            t <= old(self).slots@.len(),
            t < old(self).slots@.len() ==> old(self).slots@[t as int] is Free,
            final(self).slots@ == (if t < old(self).slots@.len() {
                old(self).slots@.update(t as int, Slot::Idle)
            } else {
                old(self).slots@.push(Slot::Idle)
            }),
            final(self).pending@ == old(self).pending@,
            final(self).stop == old(self).stop,
            final(self).max_batch == old(self).max_batch,
            final(self).stats == old(self).stats,
    {
        let ghost q0 = *self;
        match self.free.pop() {
            Some(t) => {
                proof {
                    assert(q0.free@.last() == t);
                    assert(q0.free@.contains(t));
                }
                let _ = self.replace(t, Slot::Idle);
                proof {
                    assert forall|u: usize| #[trigger] self.free@.contains(u) <==> u
                        < self.slots@.len() && self.slots@[u as int] is Free by {
                        let f = q0.free@;
                        if self.free@.contains(u) {
                            let i = self.free@.index_of(u);
                            assert(f[i] == u);
                            assert(f.contains(u));
                            assert(f[f.len() - 1] == t);
                        }
                        if u < self.slots@.len() && self.slots@[u as int] is Free {
                            assert(f.contains(u));
                            let i = f.index_of(u);
                            assert(u != t);
                            assert(self.free@[i] == u);
                        }
                    }
                    assert forall|u: usize| #[trigger] self.pending@.contains(u) <==> u
                        < self.slots@.len() && self.slots@[u as int] is Waiting by {
                        assert(q0.pending@.contains(u) == self.pending@.contains(u));
                    }
                }
                t
            },
            None => {
                let t: usize = self.slots.len();
                self.slots.push(Slot::Idle);
                proof {
                    assert forall|u: usize| #[trigger] self.free@.contains(u) <==> u
                        < self.slots@.len() && self.slots@[u as int] is Free by {
                        assert(q0.free@.contains(u) == self.free@.contains(u));
                    }
                    assert forall|u: usize| #[trigger] self.pending@.contains(u) <==> u
                        < self.slots@.len() && self.slots@[u as int] is Waiting by {
                        assert(q0.pending@.contains(u) == self.pending@.contains(u));
                    }
                }
                t
            },
        }
    }

    /// Put a request on a ticket, last in line.
    pub fn submit(&mut self, t: usize, req: Q)
        requires
            old(self).ok(),
            t < old(self).slots@.len(),
            old(self).slots@[t as int] is Idle,
        ensures
            final(self).ok(),
            makes(*old(self), Call::Submit(t, req), *final(self)),
            final(self).slots@ == old(self).slots@.update(t as int, Slot::Waiting(req)),
            final(self).pending@ == old(self).pending@.push(t),
            final(self).stop == old(self).stop,
            final(self).max_batch == old(self).max_batch,
            final(self).stats == old(self).stats,
    {
        let ghost q0 = *self;
        let _ = self.replace(t, Slot::Waiting(req));
        self.pending.push_back(t);
        proof {
            assert(!q0.pending@.contains(t));
            assert forall|u: usize| #[trigger] self.pending@.contains(u) <==> u < self.slots@.len()
                && self.slots@[u as int] is Waiting by {
                let p = self.pending@;
                if u == t {
                    assert(p[p.len() - 1] == t);
                } else {
                    if p.contains(u) {
                        let i = p.index_of(u);
                        assert(q0.pending@[i] == u);
                    }
                    if q0.pending@.contains(u) {
                        let i = q0.pending@.index_of(u);
                        assert(p[i] == u);
                    }
                    assert(p.contains(u) == q0.pending@.contains(u));
                }
            }
            assert forall|i: int, j: int|
                0 <= i < self.pending@.len() && 0 <= j < self.pending@.len() && i
                    != j implies self.pending@[i] != self.pending@[j] by {
                let p0 = q0.pending@;
                if i < p0.len() && j < p0.len() {
                    assert(p0[i] != p0[j]);
                } else if i < p0.len() {
                    assert(p0.contains(p0[i]));
                } else {
                    assert(p0.contains(p0[j]));
                }
            }
            assert forall|u: usize| #[trigger] self.free@.contains(u) <==> u < self.slots@.len()
                && self.slots@[u as int] is Free by {
                assert(q0.free@.contains(u) == self.free@.contains(u));
            }
        }
    }

    /// What a batching thread does next, given whether it has lingered already
    /// and whether it lingers at all.
    pub fn next_batch(&self, lingered: bool, lingers: bool) -> (a: NextBatch)
        ensures
            a == (if self.pending@.len() == 0 {
                if self.stop {
                    NextBatch::Leave
                } else {
                    NextBatch::Sleep
                }
            } else if self.pending@.len() < self.max_batch && lingers && !lingered && !self.stop {
                NextBatch::Linger
            } else {
                NextBatch::Run
            }),
    {
        let n: usize = self.pending.len();
        if n == 0 {
            if self.stop {
                NextBatch::Leave
            } else {
                NextBatch::Sleep
            }
        } else if n < self.max_batch && lingers && !lingered && !self.stop {
            NextBatch::Linger
        } else {
            NextBatch::Run
        }
    }

    /// Claim a batch: the oldest requests in line, up to the largest batch.
    pub fn claim(&mut self) -> (b: (Vec<usize>, Vec<Q>))
        requires
            old(self).ok(),
            old(self).stats.batches < u64::MAX,
            old(self).stats.queries + old(self).max_batch <= u64::MAX,
            forall|i: int| 0 <= i < 12 ==> #[trigger] old(self).stats.hist[i] < u64::MAX,
        ensures
            final(self).ok(),
            makes(*old(self), Call::Claim(b.0@, b.1@), *final(self)),
            ({
                let n = batch_size(old(self).pending@.len() as int, old(self).max_batch as int);
                &&& b.0@ == old(self).pending@.take(n)
                &&& b.1@.len() == n
                &&& forall|i: int|
                    0 <= i < n ==> old(self).slots@[b.0@[i] as int] == Slot::<Q, A>::Waiting(
                        #[trigger] b.1@[i],
                    )
                &&& claims(old(self).slots@, b.0@, final(self).slots@)
                &&& final(self).pending@ == old(self).pending@.skip(n)
                &&& final(self).stats == counted(old(self).stats, n)
            }),
            final(self).stop == old(self).stop,
            final(self).max_batch == old(self).max_batch,
    {
        let ghost q0 = *self;
        let len: usize = self.pending.len();
        let n: usize = if len < self.max_batch {
            len
        } else {
            self.max_batch
        };
        let mut tickets: Vec<usize> = Vec::new();
        let mut reqs: Vec<Q> = Vec::new();
        assert(q0.pending@.skip(0) =~= q0.pending@);
        let mut i: usize = 0;
        while i < n
            invariant
                i <= n,
                n <= q0.pending@.len(),
                q0.ok(),
                self.pending@ == q0.pending@.skip(i as int),
                self.free == q0.free,
                self.stop == q0.stop,
                self.max_batch == q0.max_batch,
                self.stats == q0.stats,
                claims(q0.slots@, tickets@, self.slots@),
                tickets@ == q0.pending@.take(i as int),
                reqs@.len() == i,
                forall|j: int|
                    0 <= j < i ==> q0.slots@[tickets@[j] as int] == Slot::<Q, A>::Waiting(
                        #[trigger] reqs@[j],
                    ),
            decreases n - i,
        {
            let front = self.pending.pop_front();
            assert(front is Some);
            let t: usize = match front {
                Some(t) => t,
                None => 0,
            };
            assert(t == q0.pending@[i as int]);
            assert(q0.pending@.contains(t));
            assert(!named(tickets@, t as int)) by {
                if named(tickets@, t as int) {
                    let j = choose|j: int| 0 <= j < tickets@.len() && #[trigger] tickets@[j] == t;
                    assert(q0.pending@[j] == t);
                }
            }
            assert(self.slots@[t as int] == q0.slots@[t as int]);
            let ghost s1 = self.slots@;
            let was = self.replace(t, Slot::Claimed);
            let ghost ts0 = tickets@;
            tickets.push(t);
            proof {
                assert(tickets@ =~= q0.pending@.take(i + 1));
                assert forall|u: int| 0 <= u < q0.slots@.len() && !named(
                    tickets@,
                    u,
                ) implies #[trigger] self.slots@[u] == q0.slots@[u] by {
                    assert(tickets@[ts0.len() as int] == t);
                    assert(!named(ts0, u)) by {
                        if named(ts0, u) {
                            let j = choose|j: int| 0 <= j < ts0.len() && #[trigger] ts0[j] == u;
                            assert(tickets@[j] == u);
                        }
                    }
                    assert(s1[u] == q0.slots@[u]);
                }
                assert forall|j: int| 0 <= j < tickets@.len() implies self.slots@[#[trigger] tickets@[j] as int] is Claimed by {
                    assert(tickets@[j] == q0.pending@[j]);
                    assert(q0.pending@.contains(q0.pending@[j]));
                    if j < ts0.len() {
                        assert(ts0[j] == tickets@[j]);
                        assert(s1[ts0[j] as int] is Claimed);
                    }
                }
                assert(self.pending@ =~= q0.pending@.skip(i + 1));
            }
            match was {
                Slot::Waiting(q) => {
                    reqs.push(q);
                },
                _ => {
                    assert(false);
                },
            }
            i += 1;
        }
        let ghost st = self.stats;
        if n > 0 {
            let k: usize = bucket(n as u64);
            let mut hist = self.stats.hist;
            let c: u64 = hist[k];
            hist[k] = c + 1;
            self.stats = BatchStats {
                batches: self.stats.batches + 1,
                queries: self.stats.queries + n as u64,
                hist,
                max_seen: if self.stats.max_seen < n {
                    n
                } else {
                    self.stats.max_seen
                },
                bypassed: self.stats.bypassed,
            };
            assert(self.stats.hist =~= counted(st, n as int).hist);
        }
        proof {
            let p = q0.pending@;
            let r = self.pending@;
            assert forall|u: usize| #[trigger] r.contains(u) <==> u < self.slots@.len()
                && self.slots@[u as int] is Waiting by {
                if r.contains(u) {
                    let k = r.index_of(u);
                    assert(p[k + n] == u);
                    assert(p.contains(u));
                    if named(tickets@, u as int) {
                        let j = choose|j: int|
                            0 <= j < tickets@.len() && #[trigger] tickets@[j] == u;
                        assert(p[j] == u);
                    }
                    assert(self.slots@[u as int] == q0.slots@[u as int]);
                }
                if u < self.slots@.len() && self.slots@[u as int] is Waiting {
                    if named(tickets@, u as int) {
                        let j = choose|j: int|
                            0 <= j < tickets@.len() && #[trigger] tickets@[j] == u;
                        assert(self.slots@[tickets@[j] as int] is Claimed);
                    }
                    assert(self.slots@[u as int] == q0.slots@[u as int]);
                    assert(p.contains(u));
                    let k = p.index_of(u);
                    if k < n {
                        assert(tickets@[k] == u);
                    }
                    assert(r[k - n] == u);
                }
            }
            assert forall|a: int, b: int|
                0 <= a < r.len() && 0 <= b < r.len() && a != b implies r[a] != r[b] by {
                assert(r[a] == p[a + n] && r[b] == p[b + n]);
            }
            assert forall|u: usize| #[trigger] self.free@.contains(u) <==> u < self.slots@.len()
                && self.slots@[u as int] is Free by {
                assert(q0.free@.contains(u) == self.free@.contains(u));
                if u < self.slots@.len() && named(tickets@, u as int) {
                    let j = choose|j: int| 0 <= j < tickets@.len() && #[trigger] tickets@[j] == u;
                    assert(self.slots@[tickets@[j] as int] is Claimed);
                    assert(p[j] == u);
                    assert(p.contains(u));
                }
            }
        }
        (tickets, reqs)
    }

    /// Leave a batch's answers on its tickets.
    pub fn deliver(&mut self, tickets: &Vec<usize>, answers: Vec<A>)
        requires
            old(self).ok(),
            tickets@.len() == answers@.len(),
            tickets@.no_duplicates(),
            forall|i: int|
                0 <= i < tickets@.len() ==> (#[trigger] tickets@[i]) < old(self).slots@.len()
                    && old(self).slots@[tickets@[i] as int] is Claimed,
        ensures
            final(self).ok(),
            makes(*old(self), Call::Deliver(tickets@, answers@), *final(self)),
            answers_on(old(self).slots@, tickets@, answers@, final(self).slots@),
            final(self).pending@ == old(self).pending@,
            final(self).stop == old(self).stop,
            final(self).max_batch == old(self).max_batch,
            final(self).stats == old(self).stats,
    {
        let ghost q0 = *self;
        let ghost all = answers@;
        let mut left = answers;
        let mut i: usize = tickets.len();
        while i > 0
            invariant
                i <= tickets@.len(),
                q0.ok(),
                self.pending == q0.pending,
                self.free == q0.free,
                self.stop == q0.stop,
                self.max_batch == q0.max_batch,
                self.stats == q0.stats,
                tickets@.len() == all.len(),
                tickets@.no_duplicates(),
                left@ == all.take(i as int),
                forall|j: int|
                    0 <= j < tickets@.len() ==> (#[trigger] tickets@[j]) < q0.slots@.len()
                        && q0.slots@[tickets@[j] as int] is Claimed,
                answers_on(
                    q0.slots@,
                    tickets@.skip(i as int),
                    all.skip(i as int),
                    self.slots@,
                ),
            decreases i,
        {
            i -= 1;
            let a = left.pop();
            let t: usize = tickets[i];
            match a {
                Some(a) => {
                    let ghost s1 = self.slots@;
                    let _ = self.replace(t, Slot::Answered(a));
                    proof {
                        let ts = tickets@.skip(i as int);
                        let ts1 = tickets@.skip(i + 1);
                        let an = all.skip(i as int);
                        assert forall|j: int| 0 <= j < ts.len() implies self.slots@[#[trigger] ts[j] as int]
                            == Slot::<Q, A>::Answered(an[j]) by {
                            assert(ts[j] == tickets@[i + j]);
                            if j > 0 {
                                assert(ts1[j - 1] == ts[j]);
                                assert(tickets@[i + j] != tickets@[i as int]);
                                assert(s1[ts1[j - 1] as int] == Slot::<Q, A>::Answered(
                                    all.skip(i + 1)[j - 1],
                                ));
                            }
                        }
                        assert forall|u: int| 0 <= u < q0.slots@.len() && !named(
                            ts,
                            u,
                        ) implies #[trigger] self.slots@[u] == q0.slots@[u] by {
                            assert(ts[0] == t);
                            assert(!named(ts1, u)) by {
                                if named(ts1, u) {
                                    let j = choose|j: int|
                                        0 <= j < ts1.len() && #[trigger] ts1[j] == u;
                                    assert(ts[j + 1] == u);
                                }
                            }
                            assert(s1[u] == q0.slots@[u]);
                        }
                    }
                },
                None => {
                    assert(false);
                },
            }
            assert(left@ =~= all.take(i as int));
        }
        proof {
            assert(tickets@.skip(0) =~= tickets@);
            assert(all.skip(0) =~= all);
            assert forall|u: usize| #[trigger] self.free@.contains(u) <==> u < self.slots@.len()
                && self.slots@[u as int] is Free by {
                assert(q0.free@.contains(u) == self.free@.contains(u));
                if u < self.slots@.len() && named(tickets@, u as int) {
                    let k = choose|k: int| 0 <= k < tickets@.len() && #[trigger] tickets@[k] == u;
                    assert(self.slots@[tickets@[k] as int] is Answered);
                    assert(q0.slots@[tickets@[k] as int] is Claimed);
                }
            }
            assert forall|u: usize| #[trigger] self.pending@.contains(u) <==> u < self.slots@.len()
                && self.slots@[u as int] is Waiting by {
                assert(q0.pending@.contains(u) == self.pending@.contains(u));
                if u < self.slots@.len() && named(tickets@, u as int) {
                    let k = choose|k: int| 0 <= k < tickets@.len() && #[trigger] tickets@[k] == u;
                    assert(self.slots@[tickets@[k] as int] is Answered);
                    assert(q0.slots@[tickets@[k] as int] is Claimed);
                }
            }
        }
    }

    /// Collect the answer on a ticket, if one is there.
    pub fn collect(&mut self, t: usize) -> (a: Option<A>)
        requires
            old(self).ok(),
            t < old(self).slots@.len(),
        ensures
            final(self).ok(),
            makes(*old(self), Call::Collect(t, a), *final(self)),
            a is Some <==> old(self).slots@[t as int] is Answered,
            a matches Some(x) ==> old(self).slots@[t as int] == Slot::<Q, A>::Answered(x),
            final(self).slots@ == (if a is Some {
                old(self).slots@.update(t as int, Slot::Idle)
            } else {
                old(self).slots@
            }),
            final(self).pending@ == old(self).pending@,
            final(self).stop == old(self).stop,
            final(self).max_batch == old(self).max_batch,
            final(self).stats == old(self).stats,
    {
        let ghost q0 = *self;
        let there = match &self.slots[t] {
            Slot::Answered(_) => true,
            _ => false,
        };
        if !there {
            return None;
        }
        let was = self.replace(t, Slot::Idle);
        proof {
            assert forall|u: usize| #[trigger] self.free@.contains(u) <==> u < self.slots@.len()
                && self.slots@[u as int] is Free by {
                assert(q0.free@.contains(u) == self.free@.contains(u));
            }
            assert forall|u: usize| #[trigger] self.pending@.contains(u) <==> u < self.slots@.len()
                && self.slots@[u as int] is Waiting by {
                assert(q0.pending@.contains(u) == self.pending@.contains(u));
            }
        }
        match was {
            Slot::Answered(a) => Some(a),
            _ => None,
        }
    }

    /// Take back a request that no batch has claimed, once the queue has
    /// stopped. It leaves the line, so that no batch comes upon it later.
    pub fn withdraw(&mut self, t: usize) -> (q: Option<Q>)
        requires
            old(self).ok(),
            t < old(self).slots@.len(),
            old(self).stats.bypassed < u64::MAX,
        ensures
            final(self).ok(),
            makes(*old(self), Call::Withdraw(t, q), *final(self)),
            q is Some <==> old(self).stop && old(self).slots@[t as int] is Waiting,
            q matches Some(x) ==> old(self).slots@[t as int] == Slot::<Q, A>::Waiting(x)
                && final(self).slots@ == old(self).slots@.update(t as int, Slot::Idle)
                && final(self).pending@ == old(self).pending@.remove(
                old(self).pending@.index_of(t),
            ) && final(self).stats == (BatchStats {
                bypassed: (old(self).stats.bypassed + 1) as u64,
                ..old(self).stats
            }),
            q is None ==> final(self).slots@ == old(self).slots@ && final(self).pending@ == old(
                self,
            ).pending@ && final(self).stats == old(self).stats,
            final(self).stop == old(self).stop,
            final(self).max_batch == old(self).max_batch,
    {
        let ghost q0 = *self;
        let there = match &self.slots[t] {
            Slot::Waiting(_) => true,
            _ => false,
        };
        if !there || !self.stop {
            return None;
        }
        assert(self.pending@.contains(t));
        let len: usize = self.pending.len();
        let mut i: usize = 0;
        while self.pending[i] != t
            invariant
                i < self.pending@.len(),
                len == self.pending@.len(),
                *self == q0,
                q0.pending@.contains(t),
                forall|j: int| 0 <= j < i ==> q0.pending@[j] != t,
            decreases self.pending@.len() - i,
        {
            proof {
                let k = q0.pending@.index_of(t);
                assert(q0.pending@[k] == t);
                assert(k > i);
            }
            i += 1;
        }
        let _ = self.pending.remove(i);
        let was = self.replace(t, Slot::Idle);
        self.stats.bypassed = self.stats.bypassed + 1;
        proof {
            let p = q0.pending@;
            let r = self.pending@;
            assert(p[p.index_of(t)] == t && p[i as int] == t);
            assert(r =~= p.remove(i as int));
            assert forall|u: usize| #[trigger] r.contains(u) <==> u < self.slots@.len()
                && self.slots@[u as int] is Waiting by {
                if r.contains(u) {
                    let k = r.index_of(u);
                    if k < i {
                        assert(p[k] == u);
                    } else {
                        assert(p[k + 1] == u);
                    }
                    assert(p.contains(u));
                    assert(u != t);
                }
                if u < self.slots@.len() && self.slots@[u as int] is Waiting {
                    assert(p.contains(u));
                    let k = p.index_of(u);
                    assert(k != i);
                    if k < i {
                        assert(r[k] == u);
                    } else {
                        assert(r[k - 1] == u);
                    }
                }
            }
            assert forall|a: int, b: int|
                0 <= a < r.len() && 0 <= b < r.len() && a != b implies r[a] != r[b] by {
                let x = if a < i {
                    a
                } else {
                    a + 1
                };
                let y = if b < i {
                    b
                } else {
                    b + 1
                };
                assert(r[a] == p[x] && r[b] == p[y]);
            }
            assert forall|u: usize| #[trigger] self.free@.contains(u) <==> u < self.slots@.len()
                && self.slots@[u as int] is Free by {
                assert(q0.free@.contains(u) == self.free@.contains(u));
            }
        }
        match was {
            Slot::Waiting(q) => Some(q),
            _ => None,
        }
    }

    /// Hand a ticket back.
    pub fn retire(&mut self, t: usize)
        requires
            old(self).ok(),
            t < old(self).slots@.len(),
            old(self).slots@[t as int] is Idle || old(self).slots@[t as int] is Answered,
        ensures
            final(self).ok(),
            makes(*old(self), Call::Retire(t), *final(self)),
            final(self).slots@ == old(self).slots@.update(t as int, Slot::Free),
            final(self).pending@ == old(self).pending@,
            final(self).stop == old(self).stop,
            final(self).max_batch == old(self).max_batch,
            final(self).stats == old(self).stats,
    {
        let ghost q0 = *self;
        let _ = self.replace(t, Slot::Free);
        self.free.push(t);
        proof {
            let f = q0.free@;
            assert(!f.contains(t));
            assert forall|u: usize| #[trigger] self.free@.contains(u) <==> u < self.slots@.len()
                && self.slots@[u as int] is Free by {
                let p = self.free@;
                if u == t {
                    assert(p[p.len() - 1] == t);
                } else {
                    if p.contains(u) {
                        let i = p.index_of(u);
                        assert(f[i] == u);
                    }
                    if f.contains(u) {
                        let i = f.index_of(u);
                        assert(p[i] == u);
                    }
                    assert(p.contains(u) == f.contains(u));
                }
            }
            assert forall|i: int, j: int|
                0 <= i < self.free@.len() && 0 <= j < self.free@.len() && i
                    != j implies self.free@[i] != self.free@[j] by {
                if i < f.len() && j < f.len() {
                    assert(f[i] != f[j]);
                } else if i < f.len() {
                    assert(f.contains(f[i]));
                } else {
                    assert(f.contains(f[j]));
                }
            }
            assert forall|u: usize| #[trigger] self.pending@.contains(u) <==> u < self.slots@.len()
                && self.slots@[u as int] is Waiting by {
                assert(q0.pending@.contains(u) == self.pending@.contains(u));
            }
        }
    }

    /// Stop the queue. What waits in it is still served.
    pub fn shutdown(&mut self)
        requires
            old(self).ok(),
        ensures
            final(self).ok(),
            makes(*old(self), Call::Shutdown, *final(self)),
            final(self).stop,
            final(self).slots@ == old(self).slots@,
            final(self).pending@ == old(self).pending@,
            final(self).max_batch == old(self).max_batch,
            final(self).stats == old(self).stats,
    {
        self.stop = true;
    }
}

/// How many requests a batch takes.
pub open spec fn batch_size(waiting: int, most: int) -> int {
    if waiting < most {
        waiting
    } else {
        most
    }
}

/// Whether a place is that of one of some tickets.
pub open spec fn named(tickets: Seq<usize>, u: int) -> bool {
    exists|i: int| 0 <= i < tickets.len() && #[trigger] tickets[i] == u
}

/// Whether a batch claiming some tickets takes the slots from one state to
/// another.
pub open spec fn claims<Q, A>(
    before: Seq<Slot<Q, A>>,
    tickets: Seq<usize>,
    after: Seq<Slot<Q, A>>,
) -> bool {
    &&& after.len() == before.len()
    &&& forall|i: int| 0 <= i < tickets.len() ==> after[#[trigger] tickets[i] as int] is Claimed
    &&& forall|u: int|
        0 <= u < before.len() && !named(tickets, u) ==> #[trigger] after[u] == before[u]
}

/// Whether leaving answers on some tickets takes the slots from one state to
/// another.
pub open spec fn answers_on<Q, A>(
    before: Seq<Slot<Q, A>>,
    tickets: Seq<usize>,
    answers: Seq<A>,
    after: Seq<Slot<Q, A>>,
) -> bool {
    &&& after.len() == before.len()
    &&& forall|i: int|
        0 <= i < tickets.len() ==> after[#[trigger] tickets[i] as int] == Slot::<Q, A>::Answered(
            answers[i],
        )
    &&& forall|u: int|
        0 <= u < before.len() && !named(tickets, u) ==> #[trigger] after[u] == before[u]
}

/// The counters once a batch of so many has been claimed. An empty batch is not
/// counted.
pub open spec fn counted(s: BatchStats, n: int) -> BatchStats {
    if n == 0 {
        s
    } else {
        BatchStats {
            batches: (s.batches + 1) as u64,
            queries: (s.queries + n) as u64,
            hist: vstd::array::spec_array_update(
                s.hist,
                bucket_of(n as nat),
                (s.hist[bucket_of(n as nat)] + 1) as u64,
            ),
            max_seen: if s.max_seen < n {
                n as usize
            } else {
                s.max_seen
            },
            bypassed: s.bypassed,
        }
    }
}

/// A caller gets the answer to its own request: what it submitted is handed to
/// the batch that claims its ticket, and what the batch answers at that place is
/// what is left on the ticket, whatever else the queue does in between.
pub proof fn callers_get_their_own_answers<Q, A>(
    submitted: Seq<Slot<Q, A>>,
    t: usize,
    q: Q,
    tickets: Seq<usize>,
    reqs: Seq<Q>,
    claimed: Seq<Slot<Q, A>>,
    later: Seq<Slot<Q, A>>,
    answers: Seq<A>,
    answered: Seq<Slot<Q, A>>,
    i: int,
)
    requires
        t < submitted.len(),
        submitted[t as int] == Slot::<Q, A>::Waiting(q),
        0 <= i < tickets.len(),
        tickets[i] == t,
        forall|j: int|
            0 <= j < tickets.len() ==> submitted[tickets[j] as int] == Slot::<Q, A>::Waiting(
                #[trigger] reqs[j],
            ),
        claims(submitted, tickets, claimed),
        answers_on(later, tickets, answers, answered),
    ensures
        reqs[i] == q,
        claimed[t as int] is Claimed,
        answered[t as int] == Slot::<Q, A>::Answered(answers[i]),
{
    assert(submitted[tickets[i] as int] == Slot::<Q, A>::Waiting(reqs[i]));
    assert(claimed[tickets[i] as int] is Claimed);
    assert(answered[tickets[i] as int] == Slot::<Q, A>::Answered(answers[i]));
}

// ---- many calls ----------------------------------------------------------

/// What a slot owes its caller: one request, from when it is submitted until its
/// answer is collected or it is taken back.
pub open spec fn owes<Q, A>(s: Slot<Q, A>) -> nat {
    match s {
        Slot::Waiting(_) => 1,
        Slot::Claimed => 1,
        Slot::Answered(_) => 1,
        _ => 0,
    }
}

/// How many requests are owed an answer.
pub open spec fn owed<Q, A>(slots: Seq<Slot<Q, A>>) -> nat
    decreases slots.len(),
{
    if slots.len() == 0 {
        0
    } else {
        owed(slots.drop_last()) + owes(slots.last())
    }
}

/// One call on a queue.
pub enum Call<Q, A> {
    Handle(usize),
    Submit(usize, Q),
    Claim(Seq<usize>, Seq<Q>),
    Deliver(Seq<usize>, Seq<A>),
    Collect(usize, Option<A>),
    Withdraw(usize, Option<Q>),
    Retire(usize),
    Shutdown,
}

/// Whether a call takes a queue from one state to another, as the calls' own
/// contracts say.
pub open spec fn makes<Q, A>(
    before: BatchQueue<Q, A>,
    c: Call<Q, A>,
    after: BatchQueue<Q, A>,
) -> bool {
    let (s, z) = (before.slots@, after.slots@);
    &&& before.ok()
    &&& after.ok()
    &&& match c {
        Call::Handle(t) => {
            &&& t <= s.len()
            &&& t < s.len() ==> s[t as int] is Free
            &&& z == (if t < s.len() {
                s.update(t as int, Slot::Idle)
            } else {
                s.push(Slot::Idle)
            })
            &&& after.pending@ == before.pending@
            &&& after.stats == before.stats
        },
        Call::Submit(t, q) => {
            &&& t < s.len()
            &&& s[t as int] is Idle
            &&& z == s.update(t as int, Slot::Waiting(q))
            &&& after.pending@ == before.pending@.push(t)
            &&& after.stats == before.stats
        },
        Call::Claim(tickets, reqs) => {
            let n = batch_size(before.pending@.len() as int, before.max_batch as int);
            &&& before.stats.queries + before.max_batch <= u64::MAX
            &&& tickets == before.pending@.take(n)
            &&& reqs.len() == n
            &&& forall|i: int|
                0 <= i < n ==> s[tickets[i] as int] == Slot::<Q, A>::Waiting(#[trigger] reqs[i])
            &&& claims(s, tickets, z)
            &&& after.pending@ == before.pending@.skip(n)
            &&& after.stats == counted(before.stats, n)
        },
        Call::Deliver(tickets, answers) => {
            &&& tickets.len() == answers.len()
            &&& tickets.no_duplicates()
            &&& forall|i: int|
                0 <= i < tickets.len() ==> (#[trigger] tickets[i]) < s.len()
                    && s[tickets[i] as int] is Claimed
            &&& answers_on(s, tickets, answers, z)
            &&& after.pending@ == before.pending@
            &&& after.stats == before.stats
        },
        Call::Collect(t, a) => {
            &&& t < s.len()
            &&& a is Some <==> s[t as int] is Answered
            &&& a matches Some(x) ==> s[t as int] == Slot::<Q, A>::Answered(x)
            &&& z == (if a is Some {
                s.update(t as int, Slot::Idle)
            } else {
                s
            })
            &&& after.pending@ == before.pending@
            &&& after.stats == before.stats
        },
        Call::Withdraw(t, q) => {
            &&& t < s.len()
            &&& before.stats.bypassed < u64::MAX
            &&& q is Some <==> before.stop && s[t as int] is Waiting
            &&& q matches Some(x) ==> {
                &&& s[t as int] == Slot::<Q, A>::Waiting(x)
                &&& z == s.update(t as int, Slot::Idle)
                &&& after.pending@ == before.pending@.remove(before.pending@.index_of(t))
                &&& after.stats == (BatchStats {
                    bypassed: (before.stats.bypassed + 1) as u64,
                    ..before.stats
                })
            }
            &&& q is None ==> z == s && after.pending@ == before.pending@ && after.stats
                == before.stats
        },
        Call::Retire(t) => {
            &&& t < s.len()
            &&& s[t as int] is Idle || s[t as int] is Answered
            &&& z == s.update(t as int, Slot::Free)
            &&& after.pending@ == before.pending@
            &&& after.stats == before.stats
        },
        Call::Shutdown => z == s && after.pending@ == before.pending@ && after.stats
            == before.stats,
    }
}

/// A run of calls: the states a queue goes through, one more than there are
/// calls.
pub open spec fn runs<Q, A>(states: Seq<BatchQueue<Q, A>>, calls: Seq<Call<Q, A>>) -> bool {
    &&& states.len() == calls.len() + 1
    &&& forall|i: int|
        0 <= i < calls.len() ==> makes(states[i], #[trigger] calls[i], states[i + 1])
}

/// How many requests a call submits.
pub open spec fn submits<Q, A>(c: Call<Q, A>) -> nat {
    if c is Submit {
        1
    } else {
        0
    }
}

/// How many requests a call hands to a batch.
pub open spec fn evaluates<Q, A>(c: Call<Q, A>) -> nat {
    match c {
        Call::Claim(tickets, _) => tickets.len(),
        _ => 0,
    }
}

/// How many requests a call takes back.
pub open spec fn bypasses<Q, A>(c: Call<Q, A>) -> nat {
    match c {
        Call::Withdraw(_, Some(_)) => 1,
        _ => 0,
    }
}

/// How many answers a call gives to the caller, or lets go with the ticket they
/// stand on.
pub open spec fn settles<Q, A>(before: BatchQueue<Q, A>, c: Call<Q, A>) -> nat {
    match c {
        Call::Collect(_, Some(_)) => 1,
        Call::Retire(t) => owes(before.slots@[t as int]),
        _ => 0,
    }
}

/// The requests submitted over the first calls of a run.
pub open spec fn submitted<Q, A>(calls: Seq<Call<Q, A>>, n: int) -> nat
    decreases n,
{
    if n <= 0 {
        0
    } else {
        submitted(calls, n - 1) + submits(calls[n - 1])
    }
}

/// The requests handed to batches over the first calls of a run.
pub open spec fn evaluated<Q, A>(calls: Seq<Call<Q, A>>, n: int) -> nat
    decreases n,
{
    if n <= 0 {
        0
    } else {
        evaluated(calls, n - 1) + evaluates(calls[n - 1])
    }
}

/// The requests taken back over the first calls of a run.
pub open spec fn withdrawn<Q, A>(calls: Seq<Call<Q, A>>, n: int) -> nat
    decreases n,
{
    if n <= 0 {
        0
    } else {
        withdrawn(calls, n - 1) + bypasses(calls[n - 1])
    }
}

/// The answers given over the first calls of a run.
pub open spec fn answered<Q, A>(
    states: Seq<BatchQueue<Q, A>>,
    calls: Seq<Call<Q, A>>,
    n: int,
) -> nat
    decreases n,
{
    if n <= 0 {
        0
    } else {
        answered(states, calls, n - 1) + settles(states[n - 1], calls[n - 1])
    }
}

proof fn lemma_owed_update<Q, A>(slots: Seq<Slot<Q, A>>, t: int, s: Slot<Q, A>)
    requires
        0 <= t < slots.len(),
    ensures
        owed(slots.update(t, s)) + owes(slots[t]) == owed(slots) + owes(s),
    decreases slots.len(),
{
    let u = slots.update(t, s);
    if t == slots.len() - 1 {
        assert(u.drop_last() =~= slots.drop_last());
    } else {
        lemma_owed_update(slots.drop_last(), t, s);
        assert(u.drop_last() =~= slots.drop_last().update(t, s));
    }
}

proof fn lemma_owed_push<Q, A>(slots: Seq<Slot<Q, A>>, s: Slot<Q, A>)
    ensures
        owed(slots.push(s)) == owed(slots) + owes(s),
{
    assert(slots.push(s).drop_last() =~= slots);
}

proof fn lemma_owed_same<Q, A>(a: Seq<Slot<Q, A>>, b: Seq<Slot<Q, A>>)
    requires
        a.len() == b.len(),
        forall|i: int| 0 <= i < a.len() ==> owes(#[trigger] a[i]) == owes(b[i]),
    ensures
        owed(a) == owed(b),
    decreases a.len(),
{
    if a.len() > 0 {
        assert(owes(a[a.len() - 1]) == owes(b[b.len() - 1]));
        lemma_owed_same(a.drop_last(), b.drop_last());
    }
}

/// One call keeps the accounts: what is owed grows by what is submitted and
/// shrinks by what is answered or taken back, and what waits in line grows by what
/// is submitted and shrinks by what a batch claims or a caller takes back. The
/// counters count the latter two.
pub proof fn calls_keep_the_accounts<Q, A>(
    before: BatchQueue<Q, A>,
    c: Call<Q, A>,
    after: BatchQueue<Q, A>,
)
    requires
        makes(before, c, after),
    ensures
        owed(after.slots@) + settles(before, c) + bypasses(c) == owed(before.slots@) + submits(c),
        after.pending@.len() + evaluates(c) + bypasses(c) == before.pending@.len() + submits(c),
        after.stats.queries == before.stats.queries + evaluates(c),
        after.stats.bypassed == before.stats.bypassed + bypasses(c),
{
    let (s, z) = (before.slots@, after.slots@);
    match c {
        Call::Handle(t) => {
            if t < s.len() {
                lemma_owed_update(s, t as int, Slot::Idle);
            } else {
                lemma_owed_push(s, Slot::Idle);
            }
        },
        Call::Submit(t, q) => {
            lemma_owed_update(s, t as int, Slot::Waiting(q));
        },
        Call::Claim(tickets, reqs) => {
            assert forall|i: int| 0 <= i < s.len() implies owes(#[trigger] s[i]) == owes(z[i]) by {
                if named(tickets, i) {
                    let j = choose|j: int| 0 <= j < tickets.len() && #[trigger] tickets[j] == i;
                    assert(z[tickets[j] as int] is Claimed);
                    assert(s[tickets[j] as int] == Slot::<Q, A>::Waiting(reqs[j]));
                } else {
                    assert(z[i] == s[i]);
                }
            }
            lemma_owed_same(s, z);
        },
        Call::Deliver(tickets, answers) => {
            assert forall|i: int| 0 <= i < s.len() implies owes(#[trigger] s[i]) == owes(z[i]) by {
                if named(tickets, i) {
                    let j = choose|j: int| 0 <= j < tickets.len() && #[trigger] tickets[j] == i;
                    assert(z[tickets[j] as int] == Slot::<Q, A>::Answered(answers[j]));
                    assert(s[tickets[j] as int] is Claimed);
                } else {
                    assert(z[i] == s[i]);
                }
            }
            lemma_owed_same(s, z);
        },
        Call::Collect(t, a) => {
            if a is Some {
                lemma_owed_update(s, t as int, Slot::Idle);
            }
        },
        Call::Withdraw(t, q) => {
            if q is Some {
                lemma_owed_update(s, t as int, Slot::Idle);
                assert(before.pending@.contains(t));
            }
        },
        Call::Retire(t) => {
            lemma_owed_update(s, t as int, Slot::Free);
        },
        Call::Shutdown => {},
    }
}

/// Over any run of calls that begins with nothing owed, every request submitted
/// is answered once, taken back once, or still owed; and every one has been
/// handed to a batch once, taken back once, or still waits in line. The counters
/// have counted exactly those handed to batches and those taken back.
pub proof fn every_request_is_settled_once<Q, A>(
    states: Seq<BatchQueue<Q, A>>,
    calls: Seq<Call<Q, A>>,
    n: int,
)
    requires
        runs(states, calls),
        0 <= n <= calls.len(),
        owed(states[0].slots@) == 0,
        states[0].pending@.len() == 0,
    ensures
        submitted(calls, n) == answered(states, calls, n) + withdrawn(calls, n) + owed(
            states[n].slots@,
        ),
        submitted(calls, n) == evaluated(calls, n) + withdrawn(calls, n) + states[n].pending@.len(),
        states[n].stats.queries == states[0].stats.queries + evaluated(calls, n),
        states[n].stats.bypassed == states[0].stats.bypassed + withdrawn(calls, n),
    decreases n,
{
    if n > 0 {
        every_request_is_settled_once(states, calls, n - 1);
        assert(makes(states[n - 1], calls[n - 1], states[n - 1 + 1]));
        calls_keep_the_accounts(states[n - 1], calls[n - 1], states[n]);
    }
}

/// When all that was submitted has been answered and nothing was taken back, as
/// many requests were evaluated as were submitted.
pub proof fn finished_runs_evaluate_every_request<Q, A>(
    states: Seq<BatchQueue<Q, A>>,
    calls: Seq<Call<Q, A>>,
)
    requires
        runs(states, calls),
        owed(states[0].slots@) == 0,
        states[0].pending@.len() == 0,
        withdrawn(calls, calls.len() as int) == 0,
        owed(states.last().slots@) == 0,
    ensures
        answered(states, calls, calls.len() as int) == submitted(calls, calls.len() as int),
        states.last().stats.queries == states[0].stats.queries + submitted(
            calls,
            calls.len() as int,
        ),
{
    let n = calls.len() as int;
    every_request_is_settled_once(states, calls, n);
    let q = states[n];
    assert(q == states.last());
    if q.pending@.len() > 0 {
        if n > 0 {
            assert(makes(states[n - 1], calls[n - 1], states[n - 1 + 1]));
        }
        let t = q.pending@[0];
        assert(q.pending@.contains(t));
        lemma_owed_at_least(q.slots@, t as int);
    }
}

proof fn lemma_owed_at_least<Q, A>(slots: Seq<Slot<Q, A>>, t: int)
    requires
        0 <= t < slots.len(),
    ensures
        owed(slots) >= owes(slots[t]),
    decreases slots.len(),
{
    if t < slots.len() - 1 {
        lemma_owed_at_least(slots.drop_last(), t);
    }
}

/// Whether a call hands a request that stands on a ticket to a batch.
pub open spec fn claims_for<Q, A>(c: Call<Q, A>, t: usize, q: Q) -> bool {
    c matches Call::Claim(tickets, reqs) && exists|k: int|
        0 <= k < tickets.len() && k < reqs.len() && #[trigger] tickets[k] == t && reqs[k] == q
}

/// Whether a call leaves an answer on a ticket.
pub open spec fn delivers_to<Q, A>(c: Call<Q, A>, t: usize, a: A) -> bool {
    c matches Call::Deliver(tickets, answers) && exists|k: int|
        0 <= k < tickets.len() && #[trigger] tickets[k] == t && answers[k] == a
}

/// What stands on a ticket, if there is such a ticket.
pub open spec fn on_ticket<Q, A>(q: BatchQueue<Q, A>, t: usize) -> Slot<Q, A> {
    if t < q.slots@.len() {
        q.slots@[t as int]
    } else {
        Slot::Free
    }
}

/// How a call can change what stands on a ticket.
proof fn lemma_ticket_step<Q, A>(
    before: BatchQueue<Q, A>,
    c: Call<Q, A>,
    after: BatchQueue<Q, A>,
    t: usize,
)
    requires
        makes(before, c, after),
    ensures
        ({
            let (x, y) = (on_ticket(before, t), on_ticket(after, t));
            &&& y matches Slot::Waiting(q) ==> y == x || (x is Idle && c == Call::<Q, A>::Submit(
                t,
                q,
            ))
            &&& y is Claimed ==> x is Claimed || (x matches Slot::Waiting(q) && claims_for(c, t, q))
            &&& y matches Slot::Answered(a) ==> y == x || (x is Claimed && delivers_to(c, t, a))
            &&& c is Submit && c->Submit_0 == t ==> x is Idle
        }),
{
    let (s, z) = (before.slots@, after.slots@);
    match c {
        Call::Claim(tickets, reqs) => {
            if t < s.len() {
                if named(tickets, t as int) {
                    let j = choose|j: int| 0 <= j < tickets.len() && #[trigger] tickets[j] == t;
                    assert(z[tickets[j] as int] is Claimed);
                    assert(s[tickets[j] as int] == Slot::<Q, A>::Waiting(reqs[j]));
                } else {
                    assert(z[t as int] == s[t as int]);
                }
            }
        },
        Call::Deliver(tickets, answers) => {
            if t < s.len() {
                if named(tickets, t as int) {
                    let j = choose|j: int| 0 <= j < tickets.len() && #[trigger] tickets[j] == t;
                    assert(z[tickets[j] as int] == Slot::<Q, A>::Answered(answers[j]));
                    assert(s[tickets[j] as int] is Claimed);
                } else {
                    assert(z[t as int] == s[t as int]);
                }
            }
        },
        _ => {},
    }
}

/// Whether a ticket's request, submitted at one call, was handed to a batch at
/// another and answered at a third, with no other request on the ticket up to a
/// fourth.
pub open spec fn served<Q, A>(
    calls: Seq<Call<Q, A>>,
    t: usize,
    a: A,
    s: int,
    c: int,
    d: int,
    n: int,
) -> bool {
    &&& 0 <= s < c < d < n
    &&& calls[s] is Submit && calls[s]->Submit_0 == t
    &&& claims_for(calls[c], t, calls[s]->Submit_1)
    &&& delivers_to(calls[d], t, a)
    &&& forall|i: int| s < i < n ==> !((#[trigger] calls[i]) is Submit && calls[i]->Submit_0 == t)
}

proof fn lemma_waiting_from<Q, A>(
    states: Seq<BatchQueue<Q, A>>,
    calls: Seq<Call<Q, A>>,
    t: usize,
    n: int,
) -> (s: int)
    requires
        runs(states, calls),
        0 <= n <= calls.len(),
        states[0].slots@.len() == 0,
        on_ticket(states[n], t) is Waiting,
    ensures
        0 <= s < n,
        calls[s] == Call::<Q, A>::Submit(t, on_ticket(states[n], t)->Waiting_0),
        forall|i: int| s < i < n ==> !((#[trigger] calls[i]) is Submit && calls[i]->Submit_0 == t),
    decreases n,
{
    if n == 0 {
        0
    } else {
        assert(makes(states[n - 1], calls[n - 1], states[n - 1 + 1]));
        lemma_ticket_step(states[n - 1], calls[n - 1], states[n], t);
        if calls[n - 1] is Submit && calls[n - 1]->Submit_0 == t {
            n - 1
        } else {
            lemma_waiting_from(states, calls, t, n - 1)
        }
    }
}

proof fn lemma_claimed_from<Q, A>(
    states: Seq<BatchQueue<Q, A>>,
    calls: Seq<Call<Q, A>>,
    t: usize,
    n: int,
) -> (r: (int, int))
    requires
        runs(states, calls),
        0 <= n <= calls.len(),
        states[0].slots@.len() == 0,
        on_ticket(states[n], t) is Claimed,
    ensures
        0 <= r.0 < r.1 < n,
        calls[r.0] is Submit,
        calls[r.0]->Submit_0 == t,
        claims_for(calls[r.1], t, calls[r.0]->Submit_1),
        forall|i: int| r.0 < i < n ==> !((#[trigger] calls[i]) is Submit && calls[i]->Submit_0 == t),
    decreases n,
{
    if n == 0 {
        (0, 0)
    } else {
        assert(makes(states[n - 1], calls[n - 1], states[n - 1 + 1]));
        lemma_ticket_step(states[n - 1], calls[n - 1], states[n], t);
        if on_ticket(states[n - 1], t) is Claimed {
            lemma_claimed_from(states, calls, t, n - 1)
        } else {
            let s = lemma_waiting_from(states, calls, t, n - 1);
            (s, n - 1)
        }
    }
}

proof fn lemma_answered_from<Q, A>(
    states: Seq<BatchQueue<Q, A>>,
    calls: Seq<Call<Q, A>>,
    t: usize,
    n: int,
) -> (r: (int, int, int))
    requires
        runs(states, calls),
        0 <= n <= calls.len(),
        states[0].slots@.len() == 0,
        on_ticket(states[n], t) is Answered,
    ensures
        served(calls, t, on_ticket(states[n], t)->Answered_0, r.0, r.1, r.2, n),
    decreases n,
{
    if n == 0 {
        (0, 0, 0)
    } else {
        assert(makes(states[n - 1], calls[n - 1], states[n - 1 + 1]));
        lemma_ticket_step(states[n - 1], calls[n - 1], states[n], t);
        if on_ticket(states[n - 1], t) is Answered {
            lemma_answered_from(states, calls, t, n - 1)
        } else {
            let (s, c) = lemma_claimed_from(states, calls, t, n - 1);
            (s, c, n - 1)
        }
    }
}

/// Whatever calls come in between, an answer a caller collects is the answer to
/// the request it last submitted: that very request was handed to a batch, and
/// that very answer was then left on its ticket.
pub proof fn collected_answers_are_ones_own<Q, A>(
    states: Seq<BatchQueue<Q, A>>,
    calls: Seq<Call<Q, A>>,
    t: usize,
    a: A,
    n: int,
)
    requires
        runs(states, calls),
        0 <= n < calls.len(),
        states[0].slots@.len() == 0,
        calls[n] == Call::<Q, A>::Collect(t, Some(a)),
    ensures
        exists|s: int, c: int, d: int| #[trigger] served(calls, t, a, s, c, d, n),
{
    assert(makes(states[n], calls[n], states[n + 1]));
    let (s, c, d) = lemma_answered_from(states, calls, t, n);
    assert(served(calls, t, a, s, c, d, n));
}

} // verus!
