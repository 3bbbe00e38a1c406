//! The bookkeeping of a directory of shards: when a part is synced and sealed,
//! what it is called, and which shards go when the directory grows too large.

use crate::dates::{lemma_first_digit, stamp, stamps};
use crate::order::{covers_range, in_order, sorted_positions, Ranked};
use crate::record::RECORD_BYTES;
use crate::text::{
    characters, code_points, digit, lemma_code_points, lemma_four_digits, lemma_sorts_at,
    lemma_three_digits, padded, push_padded, sorts_before, spells, text_words,
};
use crate::words::{lemma_words_total, lemma_words_trans};
use vstd::prelude::*;
use vstd::string::*;

verus! {

/// The counters of a run that appends games to a part file and seals it into
/// shards.
pub struct ShardWriter {
    pub generation: u32,
    /// Sealed shards this run, newest last.
    pub sealed: Vec<String>,
    pub games_in_part: u64,
    pub records_in_part: u64,
    pub games_total: u64,
    pub records_total: u64,
    pub since_fsync: u64,
    pub fsync_games: u64,
    pub seq: u32,
}

/// The name of a sealed shard.
pub open spec fn shard_name(generation: u32, seq: u32, stamped: Seq<char>) -> Seq<char> {
    seq!['g', 'e', 'n'] + padded(generation as nat, 4) + seq!['-'] + padded(seq as nat, 3) + seq![
        '-',
    ] + stamped + seq!['.', 't', 'z', 'r']
}

impl ShardWriter {
    /// What holds of the counters throughout.
    pub open spec fn ok(self) -> bool {
        &&& self.fsync_games >= 1
        &&& self.since_fsync < self.fsync_games
        &&& self.games_in_part <= self.games_total
        &&& self.records_in_part <= self.records_total
        &&& self.since_fsync <= self.games_in_part
    }

    /// A run with nothing written yet. Syncing every zero games is syncing
    /// every game.
    pub fn new(generation: u32, fsync_games: u64) -> (w: ShardWriter)
        ensures
            w.ok(),
            w.generation == generation,
            w.sealed@.len() == 0,
            w.games_in_part == 0,
            w.records_in_part == 0,
            w.games_total == 0,
            w.records_total == 0,
            w.since_fsync == 0,
            w.fsync_games == (if fsync_games == 0 {
                1
            } else {
                fsync_games
            }),
            w.seq == 0,
    {
        ShardWriter {
            generation,
            sealed: Vec::new(),
            games_in_part: 0,
            records_in_part: 0,
            games_total: 0,
            records_total: 0,
            since_fsync: 0,
            fsync_games: if fsync_games == 0 {
                1
            } else {
                fsync_games
            },
            seq: 0,
        }
    }

    /// The name of the part file.
    pub fn part_name(&self) -> (s: String)
        ensures
            s@ == seq!['g', 'e', 'n'] + padded(self.generation as nat, 4) + seq![
                '.',
                'p',
                'a',
                'r',
                't',
            ],
    {
        proof {
            reveal_strlit("gen");
            reveal_strlit(".part");
        }
        let mut s = String::new();
        s.append("gen");
        push_padded(&mut s, self.generation as u64, 4);
        s.append(".part");
        assert(s@ =~= seq!['g', 'e', 'n'] + padded(self.generation as nat, 4) + seq![
            '.',
            'p',
            'a',
            'r',
            't',
        ]);
        s
    }

    /// Count one appended game of so many bytes, and say whether the part is to
    /// be synced now.
    pub fn append_game(&mut self, bytes: usize) -> (sync: bool)
        requires
            old(self).ok(),
            old(self).games_total < u64::MAX,
            old(self).records_total + bytes / RECORD_BYTES <= u64::MAX,
        ensures
            final(self).ok(),
            sync == (old(self).since_fsync + 1 == old(self).fsync_games),
            *final(self) == (ShardWriter {
                games_in_part: (old(self).games_in_part + 1) as u64,
                games_total: (old(self).games_total + 1) as u64,
                records_in_part: (old(self).records_in_part + bytes / RECORD_BYTES) as u64,
                records_total: (old(self).records_total + bytes / RECORD_BYTES) as u64,
                since_fsync: if sync {
                    0
                } else {
                    (old(self).since_fsync + 1) as u64
                },
                ..*old(self)
            }),
    {
        let n: u64 = (bytes / RECORD_BYTES) as u64;
        self.games_in_part += 1;
        self.games_total += 1;
        self.records_in_part += n;
        self.records_total += n;
        self.since_fsync += 1;
        if self.since_fsync >= self.fsync_games {
            self.since_fsync = 0;
            return true;
        }
        false
    }

    /// Seal the current part and open a fresh one. Gives the sealed shard's
    /// name, or nothing where the part held no games.
    pub fn roll(&mut self, now: u64) -> (name: Option<String>)
        requires
            old(self).ok(),
            old(self).seq < u32::MAX,
        ensures
            final(self).ok(),
            name is Some <==> old(self).games_in_part > 0,
            name matches Some(s) ==> exists|t: Seq<char>|
                stamps(now as int, t) && s@ == #[trigger] shard_name(
                    old(self).generation,
                    old(self).seq,
                    t,
                ),
            name matches Some(s) ==> final(self).sealed@.len() == old(self).sealed@.len() + 1
                && final(self).sealed@.last()@ == s@,
            forall|i: int|
                0 <= i < old(self).sealed@.len() ==> final(self).sealed@[i] == old(self).sealed@[i],
            name is None ==> final(self).sealed@ == old(self).sealed@,
            final(self).seq == (if name is Some {
                (old(self).seq + 1) as u32
            } else {
                old(self).seq
            }),
            final(self).games_in_part == 0,
            final(self).records_in_part == 0,
            final(self).since_fsync == 0,
            final(self).games_total == old(self).games_total,
            final(self).records_total == old(self).records_total,
            final(self).fsync_games == old(self).fsync_games,
            final(self).generation == old(self).generation,
    {
        self.since_fsync = 0;
        let name = if self.games_in_part > 0 {
            let t = stamp(now);
            let s = self.sealed_name(&t);
            self.seq += 1;
            self.sealed.push(s.clone());
            Some(s)
        } else {
            None
        };
        self.games_in_part = 0;
        self.records_in_part = 0;
        name
    }

    fn sealed_name(&self, stamped: &String) -> (s: String)
        ensures
            s@ == shard_name(self.generation, self.seq, stamped@),
    {
        proof {
            reveal_strlit("gen");
            reveal_strlit("-");
            reveal_strlit(".tzr");
        }
        let mut s = String::new();
        s.append("gen");
        push_padded(&mut s, self.generation as u64, 4);
        s.append("-");
        push_padded(&mut s, self.seq as u64, 3);
        s.append("-");
        s.append(stamped.as_str());
        s.append(".tzr");
        assert(s@ =~= shard_name(self.generation, self.seq, stamped@));
        s
    }
}

/// The shards of a generation sort as they were sealed, up to a thousand of
/// them, whatever their stamps.
pub proof fn shards_sort_as_sealed(
    generation: u32,
    seq: u32,
    stamped: Seq<char>,
    seq2: u32,
    stamped2: Seq<char>,
)
    requires
        generation < 10000,
        seq < seq2 < 1000,
    ensures
        sorts_before(
            shard_name(generation, seq, stamped),
            shard_name(generation, seq2, stamped2),
        ),
{
    let a = shard_name(generation, seq, stamped);
    let b = shard_name(generation, seq2, stamped2);
    lemma_four_digits(generation as nat);
    lemma_three_digits(seq as nat);
    lemma_three_digits(seq2 as nat);
    lemma_first_digit(seq as int, seq2 as int);
    let n = seq as int;
    let m = seq2 as int;
    assert(n / 1000 == 0 && m / 1000 == 0);
    assert(n / 100 % 10 == n / 100 && m / 100 % 10 == m / 100);
    assert(forall|j: int| 0 <= j < 8 ==> a[j] == b[j]);
    assert(a[8] == digit(n / 100) && b[8] == digit(m / 100));
    assert(a[9] == digit(n / 10 % 10) && b[9] == digit(m / 10 % 10));
    assert(a[10] == digit(n % 10) && b[10] == digit(m % 10));
    if n / 100 != m / 100 {
        lemma_sorts_at(a, b, 8);
    } else if n / 10 % 10 != m / 10 % 10 {
        lemma_sorts_at(a, b, 9);
    } else {
        lemma_sorts_at(a, b, 10);
    }
}

/// The shards of an earlier generation sort before those of a later one, up to
/// ten thousand generations.
pub proof fn generations_sort(
    generation: u32,
    seq: u32,
    stamped: Seq<char>,
    generation2: u32,
    seq2: u32,
    stamped2: Seq<char>,
)
    requires
        generation < generation2 < 10000,
    ensures
        sorts_before(
            shard_name(generation, seq, stamped),
            shard_name(generation2, seq2, stamped2),
        ),
{
    let a = shard_name(generation, seq, stamped);
    let b = shard_name(generation2, seq2, stamped2);
    let n = generation as int;
    let m = generation2 as int;
    lemma_four_digits(generation as nat);
    lemma_four_digits(generation2 as nat);
    lemma_first_digit(n, m);
    assert(forall|j: int| 0 <= j < 3 ==> a[j] == b[j]);
    assert(a[3] == digit(n / 1000) && b[3] == digit(m / 1000));
    assert(a[4] == digit(n / 100 % 10) && b[4] == digit(m / 100 % 10));
    assert(a[5] == digit(n / 10 % 10) && b[5] == digit(m / 10 % 10));
    assert(a[6] == digit(n % 10) && b[6] == digit(m % 10));
    if n / 1000 != m / 1000 {
        lemma_sorts_at(a, b, 3);
    } else if n / 100 % 10 != m / 100 % 10 {
        lemma_sorts_at(a, b, 4);
    } else if n / 10 % 10 != m / 10 % 10 {
        lemma_sorts_at(a, b, 5);
    } else {
        lemma_sorts_at(a, b, 6);
    }
}

// ---- pruning -------------------------------------------------------------

/// A sealed shard found in a directory.
pub struct ShardFile {
    pub name: String,
    pub bytes: u64,
}

/// Whether one shard goes before another: by name, then by size.
pub open spec fn shard_before(a: ShardFile, b: ShardFile) -> bool {
    sorts_before(a.name@, b.name@) || (a.name@ == b.name@ && a.bytes < b.bytes)
}

impl Ranked for ShardFile {
    open spec fn before(a: ShardFile, b: ShardFile) -> bool {
        shard_before(a, b)
    }

    proof fn one_way(a: ShardFile, b: ShardFile) {
        lemma_words_total(code_points(a.name@), code_points(b.name@));
    }

    proof fn onward(a: ShardFile, b: ShardFile, c: ShardFile) {
        let p = code_points(a.name@);
        let q = code_points(b.name@);
        let r = code_points(c.name@);
        lemma_words_total(p, q);
        lemma_words_total(q, r);
        lemma_words_total(p, r);
        if p == q {
            lemma_code_points(a.name@, b.name@);
        }
        if q == r {
            lemma_code_points(b.name@, c.name@);
        }
        if crate::words::words_lt(p, q) && crate::words::words_lt(q, r) {
            lemma_words_trans(p, q, r);
        }
    }

    fn less(&self, other: &ShardFile) -> (b: bool) {
        let a = text_words(self.name.as_str());
        let b = text_words(other.name.as_str());
        let below = a.less(&b);
        let above = b.less(&a);
        proof {
            lemma_words_total(a.0@, b.0@);
            if a.0@ == b.0@ {
                lemma_code_points(self.name@, other.name@);
            }
        }
        below || (!above && self.bytes < other.bytes)
    }
}

/// Whether a file name is that of a sealed shard.
pub open spec fn names_shard(s: Seq<char>) -> bool {
    s.len() >= 4 && s.skip(s.len() - 4) == seq!['.', 't', 'z', 'r']
}

/// Whether a file name is that of a sealed shard.
pub fn is_shard_name(name: &str) -> (b: bool)
    ensures
        b == names_shard(name@),
{
    let n: usize = name.unicode_len();
    if n < 4 {
        return false;
    }
    let b = name.get_char(n - 4) == '.' && name.get_char(n - 3) == 't' && name.get_char(n - 2)
        == 'z' && name.get_char(n - 1) == 'r';
    proof {
        let t = name@.skip(name@.len() - 4);
        let w = seq!['.', 't', 'z', 'r'];
        assert(t[0] == name@[n - 4] && t[1] == name@[n - 3] && t[2] == name@[n - 2] && t[3]
            == name@[n - 1]);
        assert(w[0] == '.' && w[1] == 't' && w[2] == 'z' && w[3] == 'r');
        if b {
            assert(t =~= w);
        }
    }
    b
}

/// The bytes of a list of shards.
pub open spec fn bytes_of(v: Seq<ShardFile>) -> int
    decreases v.len(),
{
    if v.len() == 0 {
        0
    } else {
        bytes_of(v.drop_last()) + v.last().bytes
    }
}

proof fn lemma_bytes_split(v: Seq<ShardFile>, i: int)
    requires
        0 <= i < v.len(),
    ensures
        bytes_of(v.skip(i)) == v[i].bytes + bytes_of(v.skip(i + 1)),
    decreases v.len(),
{
    let t = v.skip(i);
    if i == v.len() - 1 {
        assert(t.drop_last() =~= Seq::<ShardFile>::empty());
        assert(v.skip(i + 1) =~= Seq::<ShardFile>::empty());
    } else {
        lemma_bytes_split(v.drop_last(), i);
        assert(t.drop_last() =~= v.drop_last().skip(i));
        assert(v.skip(i + 1).drop_last() =~= v.drop_last().skip(i + 1));
    }
}

proof fn lemma_bytes_nonnegative(v: Seq<ShardFile>)
    ensures
        0 <= bytes_of(v) <= v.len() * 0xFFFF_FFFF_FFFF_FFFF,
    decreases v.len(),
{
    if v.len() > 0 {
        lemma_bytes_nonnegative(v.drop_last());
        assert(v.len() * 0xFFFF_FFFF_FFFF_FFFF == (v.len() - 1) * 0xFFFF_FFFF_FFFF_FFFF
            + 0xFFFF_FFFF_FFFF_FFFF) by (nonlinear_arith);
    }
}

/// Whether two entries are of one file.
pub open spec fn same_file(a: ShardFile, b: ShardFile) -> bool {
    a.name@ == b.name@ && a.bytes == b.bytes
}

/// Whether a list visits another in the order of an index list that names every
/// place once.
pub open spec fn sorted_by(found: Seq<ShardFile>, files: Seq<ShardFile>, idx: Seq<usize>) -> bool {
    &&& covers_range(idx, 0, found.len() as int)
    &&& idx.len() == files.len()
    &&& files.len() == found.len()
    &&& forall|i: int| 0 <= i < files.len() ==> same_file(#[trigger] files[i], found[idx[i] as int])
}

/// Whether a list holds the files of another, each once.
pub open spec fn resorted(found: Seq<ShardFile>, files: Seq<ShardFile>) -> bool {
    exists|idx: Seq<usize>| #[trigger] sorted_by(found, files, idx)
}

/// A pass over the shards of a directory that brings it under a budget, oldest
/// first. Removing a file may fail, so the pass offers one file at a time and
/// is told what became of it.
pub struct Prune {
    /// The shards, oldest first.
    pub files: Vec<ShardFile>,
    /// The shard that is always kept.
    pub newest: Option<String>,
    pub budget: u64,
    /// Everything before this place has been dealt with.
    pub next: usize,
    /// The bytes still there.
    pub have: u128,
    pub removed: usize,
    pub freed: u128,
}

/// Whether a name is the one to keep.
pub open spec fn is_newest(newest: Option<String>, name: Seq<char>) -> bool {
    newest is Some && newest->Some_0@ == name
}

impl Prune {
    /// What holds throughout a pass: the shards are in order, and what was there
    /// is either still there or freed.
    pub open spec fn ok(self) -> bool {
        &&& forall|i: int, j: int|
            0 <= i < j < self.files@.len() ==> !shard_before(
                #[trigger] self.files@[j],
                #[trigger] self.files@[i],
            )
        &&& self.next <= self.files@.len()
        &&& self.removed <= self.next
        &&& self.have + self.freed == bytes_of(self.files@)
        &&& self.have >= bytes_of(self.files@.skip(self.next as int))
    }

    /// Begin a pass over the shards found in a directory.
    pub fn new(found: Vec<ShardFile>, newest: Option<String>, budget: u64) -> (p: Prune)
        ensures
            p.ok(),
            p.newest == newest,
            p.budget == budget,
            p.next == 0,
            p.removed == 0,
            p.freed == 0,
            p.have == bytes_of(p.files@),
            resorted(found@, p.files@),
    {
        let idx = sorted_positions(&found);
        let mut files: Vec<ShardFile> = Vec::new();
        let mut have: u128 = 0;
        let count: usize = idx.len();
        let mut i: usize = 0;
        while i < count
            invariant
                i <= count,
                count == idx@.len(),
                count == found@.len(),
                covers_range(idx@, 0, found@.len() as int),
                in_order(found@, idx@),
                files@.len() == i,
                forall|j: int| 0 <= j < i ==> same_file(#[trigger] files@[j], found@[idx@[j] as int]),
                have == bytes_of(files@),
            decreases count - i,
        {
            proof {
                assert(idx@.contains(idx@[i as int]));
                lemma_bytes_nonnegative(files@);
                assert(i * 0xFFFF_FFFF_FFFF_FFFF + 0xFFFF_FFFF_FFFF_FFFF <= 0xFFFF_FFFF_FFFF_FFFF
                    * 0xFFFF_FFFF_FFFF_FFFF) by (nonlinear_arith)
                    requires
                        i < 0xFFFF_FFFF_FFFF_FFFF,
                ;
            }
            let f = &found[idx[i]];
            let bytes: u64 = f.bytes;
            let ghost f0 = files@;
            files.push(ShardFile { name: f.name.clone(), bytes });
            assert(files@.drop_last() =~= f0);
            have = have + bytes as u128;
            i += 1;
        }
        proof {
            assert(files@.skip(0) =~= files@);
            assert forall|i: int, j: int| 0 <= i < j < files@.len() implies !shard_before(
                #[trigger] files@[j],
                #[trigger] files@[i],
            ) by {
                assert(same_file(files@[i], found@[idx@[i] as int]));
                assert(same_file(files@[j], found@[idx@[j] as int]));
                assert(!ShardFile::before(found@[idx@[j] as int], found@[idx@[i] as int]));
            }
            assert(sorted_by(found@, files@, idx@));
        }
        Prune { files, newest, budget, next: 0, have, removed: 0, freed: 0 }
    }

    /// Whether a shard may still be removed.
    pub open spec fn may_go(self, k: int) -> bool {
        self.next <= k < self.files@.len() && !is_newest(self.newest, self.files@[k].name@)
    }

    /// Which shard to remove next: the oldest that may go, for as long as the
    /// budget is exceeded.
    pub fn next(&self) -> (k: Option<usize>)
        requires
            self.ok(),
        ensures
            k is None <==> self.have <= self.budget || forall|i: int|
                #![trigger self.files@[i]]
                !self.may_go(i),
            k matches Some(i) ==> self.may_go(i as int) && forall|j: int|
                #![trigger self.files@[j]]
                j < i ==> !self.may_go(j),
    {
        if self.have <= self.budget as u128 {
            return None;
        }
        let mut i: usize = self.next;
        while i < self.files.len()
            invariant
                self.next <= i <= self.files@.len(),
                self.have > self.budget,
                forall|j: int| #![trigger self.files@[j]] j < i ==> !self.may_go(j),
            decreases self.files@.len() - i,
        {
            let keep = match &self.newest {
                Some(n) => {
                    let c = characters(self.files[i].name.as_str());
                    spells(&c, n.as_str())
                },
                None => false,
            };
            if !keep {
                assert(self.may_go(i as int));
                return Some(i);
            }
            i += 1;
        }
        None
    }

    /// Note what became of the shard that was offered. One that could not be
    /// removed counts as still there and is not offered again.
    pub fn settle(&mut self, k: usize, gone: bool)
        requires
            old(self).ok(),
            old(self).may_go(k as int),
        ensures
            final(self).ok(),
            *final(self) == (Prune {
                files: final(self).files,
                newest: final(self).newest,
                budget: old(self).budget,
                next: (k + 1) as usize,
                have: if gone {
                    (old(self).have - old(self).files@[k as int].bytes) as u128
                } else {
                    old(self).have
                },
                removed: if gone {
                    (old(self).removed + 1) as usize
                } else {
                    old(self).removed
                },
                freed: if gone {
                    (old(self).freed + old(self).files@[k as int].bytes) as u128
                } else {
                    old(self).freed
                },
            }),
            final(self).files@ == old(self).files@,
            final(self).newest == old(self).newest,
    {
        let count: usize = self.files.len();
        proof {
            lemma_bytes_from(self.files@, self.next as int, k as int);
            lemma_bytes_split(self.files@, k as int);
            lemma_bytes_nonnegative(self.files@.skip(k + 1));
            lemma_bytes_nonnegative(self.files@);
            assert(self.files@.len() * 0xFFFF_FFFF_FFFF_FFFF <= 0xFFFF_FFFF_FFFF_FFFF
                * 0xFFFF_FFFF_FFFF_FFFF) by (nonlinear_arith)
                requires
                    self.files@.len() <= 0xFFFF_FFFF_FFFF_FFFF,
            ;
        }
        if gone {
            let b: u64 = self.files[k].bytes;
            self.have = self.have - b as u128;
            self.freed = self.freed + b as u128;
            self.removed = self.removed + 1;
        }
        self.next = k + 1;
    }
}

proof fn lemma_bytes_from(v: Seq<ShardFile>, i: int, k: int)
    requires
        0 <= i <= k <= v.len(),
    ensures
        bytes_of(v.skip(k)) <= bytes_of(v.skip(i)),
    decreases k - i,
{
    if i < k {
        lemma_bytes_split(v, i);
        lemma_bytes_from(v, i + 1, k);
    }
}

} // verus!
