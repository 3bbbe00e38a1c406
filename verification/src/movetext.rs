//! Moves in words, and lists of workers from and to plain lists.

use crate::effect::{Choice, Effect};
use crate::ids::{Gear, WorkerId};
use crate::moves::{Kind, Move, MoveKind, Placement, Placements, Play, Retrievals};
use crate::text::{digits, push_number};
use vstd::prelude::*;
use vstd::string::*;

verus! {

impl Placements {
    /// Placements from a plain list.
    pub fn of_list(v: &Vec<(WorkerId, Placement)>) -> (p: Placements)
        ensures
            p@ == v@,
    {
        let mut p = Placements::new();
        let mut i: usize = 0;
        assert(p@ =~= v@.take(0));
        while i < v.len()
            invariant
                i <= v@.len(),
                p@ == v@.take(i as int),
            decreases v@.len() - i,
        {
            p.push(v[i]);
            i += 1;
            assert(p@ =~= v@.take(i as int));
        }
        assert(p@ =~= v@);
        p
    }

    /// Placements as a plain list.
    pub fn to_list(&self) -> (v: Vec<(WorkerId, Placement)>)
        ensures
            v@ == self@,
    {
        let n: usize = self.len();
        let mut v: Vec<(WorkerId, Placement)> = Vec::new();
        let mut i: usize = 0;
        while i < n
            invariant
                i <= n,
                n == self@.len(),
                v@ == self@.take(i as int),
            decreases n - i,
        {
            v.push(self.at(i));
            i += 1;
            assert(v@ =~= self@.take(i as int));
        }
        assert(v@ =~= self@);
        v
    }
}

/// Workers picked up, as plain values.
pub open spec fn pickups(v: Seq<(WorkerId, Choice)>) -> Seq<(WorkerId, Seq<Effect>)> {
    Seq::new(v.len(), |i: int| (v[i].0, v[i].1@))
}

impl Retrievals {
    /// Retrievals from a plain list.
    pub fn of_list(v: &Vec<(WorkerId, Choice)>) -> (r: Retrievals)
        ensures
            r@ == pickups(v@),
    {
        let mut r = Retrievals::new();
        let mut i: usize = 0;
        assert(r@ =~= pickups(v@).take(0));
        while i < v.len()
            invariant
                i <= v@.len(),
                r@ == pickups(v@).take(i as int),
            decreases v@.len() - i,
        {
            r.add_one(v[i].0, v[i].1.clone());
            i += 1;
            assert(r@ =~= pickups(v@).take(i as int));
        }
        assert(r@ =~= pickups(v@));
        r
    }

    /// Retrievals as a plain list.
    pub fn to_list(&self) -> (v: Vec<(WorkerId, Choice)>)
        ensures
            pickups(v@) == self@,
    {
        let n: usize = self.len();
        let mut v: Vec<(WorkerId, Choice)> = Vec::new();
        let mut i: usize = 0;
        assert(pickups(v@) =~= self@.take(0));
        while i < n
            invariant
                i <= n,
                n == self@.len(),
                pickups(v@) == self@.take(i as int),
            decreases n - i,
        {
            let e = self.at(i);
            let ghost was = pickups(v@);
            v.push((e.0, e.1.clone()));
            i += 1;
            assert(pickups(v@) =~= was.push(self@[i - 1]));
            assert(pickups(v@) =~= self@.take(i as int));
        }
        assert(pickups(v@) =~= self@);
        v
    }
}

/// Where a worker is put, in words.
pub open spec fn spot_text(p: Placement) -> Seq<char> {
    match p {
        Placement::Gear(g, pos) => g.label() + ":"@ + digits(pos.0 as nat),
        Placement::FirstPlayer => "first"@,
    }
}

/// The first placements, in words.
pub open spec fn placed_text(v: Seq<(WorkerId, Placement)>, k: int) -> Seq<char>
    decreases k,
{
    if k <= 0 {
        Seq::empty()
    } else {
        placed_text(v, k - 1) + " w"@ + digits(v[k - 1].0.0 as nat) + "->"@ + spot_text(v[k - 1].1)
    }
}

/// The first retrievals, in words, given how each choice reads.
pub open spec fn picked_text(
    v: Seq<(WorkerId, Seq<Effect>)>,
    choices: Seq<Seq<char>>,
    k: int,
) -> Seq<char>
    decreases k,
{
    if k <= 0 {
        Seq::empty()
    } else {
        picked_text(v, choices, k - 1) + " w"@ + digits(v[k - 1].0.0 as nat) + "["@ + choices[k - 1]
            + "]"@
    }
}

/// A move in words, given how the temple begged from and each choice read.
pub open spec fn move_text(m: Play, letter: Seq<char>, choices: Seq<Seq<char>>) -> Seq<char> {
    let begging = if m.beg is Some {
        "[beg "@ + letter + "] "@
    } else {
        Seq::empty()
    };
    begging + match m.kind {
        Kind::Place(v) => "place("@ + digits(m.corn_cost as nat) + " corn)"@ + placed_text(
            v,
            v.len() as int,
        ),
        Kind::Retrieve(v) => "retrieve"@ + picked_text(v, choices, v.len() as int),
        Kind::Pity(w, spot) => "pity w"@ + digits(w.0 as nat) + "->"@ + spot_text(spot),
    }
}

/// Texts as plain values.
pub open spec fn text_views(v: Seq<String>) -> Seq<Seq<char>> {
    Seq::new(v.len(), |i: int| v[i]@)
}

fn push_spot(s: &mut String, p: Placement)
    ensures
        final(s)@ == old(s)@ + spot_text(p),
{
    match p {
        Placement::Gear(g, pos) => {
            s.append(g.name());
            s.append(":");
            push_number(s, pos.0 as u64);
        },
        Placement::FirstPlayer => {
            s.append("first");
        },
    }
    assert(s@ =~= old(s)@ + spot_text(p));
}

impl Move {
    /// The move in words. The temple begged from reads as the letter given, and
    /// what each worker picked up does as the text given for it.
    pub fn describe(&self, letter: &str, choices: &Vec<String>) -> (s: String)
        requires
            self@.kind matches Kind::Retrieve(v) ==> choices@.len() == v.len(),
        ensures
            s@ == move_text(self@, letter@, text_views(choices@)),
    {
        let ghost cs = text_views(choices@);
        let mut s = String::new();
        assert(s@ =~= Seq::empty());
        if self.beg.is_some() {
            s.append("[beg ");
            s.append(letter);
            s.append("] ");
            assert(s@ =~= "[beg "@ + letter@ + "] "@);
        }
        let ghost head = s@;
        match &self.kind {
            MoveKind::Place(v) => {
                s.append("place(");
                push_number(&mut s, self.corn_cost as u64);
                s.append(" corn)");
                let ghost base = s@;
                assert(base =~= head + ("place("@ + digits(self.corn_cost as nat) + " corn)"@));
                let n: usize = v.len();
                let mut i: usize = 0;
                assert(s@ =~= base + placed_text(v@, 0));
                while i < n
                    invariant
                        i <= n,
                        n == v@.len(),
                        s@ == base + placed_text(v@, i as int),
                    decreases n - i,
                {
                    let ghost s0 = s@;
                    let (w, p) = v.at(i);
                    s.append(" w");
                    push_number(&mut s, w.0 as u64);
                    s.append("->");
                    push_spot(&mut s, p);
                    i += 1;
                    assert(s@ =~= s0 + (" w"@ + digits(w.0 as nat) + "->"@ + spot_text(p)));
                    assert(s@ =~= base + placed_text(v@, i as int));
                }
                assert(s@ =~= head + ("place("@ + digits(self.corn_cost as nat) + " corn)"@
                    + placed_text(v@, n as int)));
            },
            MoveKind::Retrieve(v) => {
                s.append("retrieve");
                let ghost base = s@;
                let n: usize = v.len();
                let mut i: usize = 0;
                assert(s@ =~= base + picked_text(v@, cs, 0));
                while i < n
                    invariant
                        i <= n,
                        n == v@.len(),
                        n == choices@.len(),
                        cs == text_views(choices@),
                        s@ == base + picked_text(v@, cs, i as int),
                    decreases n - i,
                {
                    let ghost s0 = s@;
                    let e = v.at(i);
                    let w: u8 = e.0.0;
                    s.append(" w");
                    push_number(&mut s, w as u64);
                    s.append("[");
                    s.append(choices[i].as_str());
                    s.append("]");
                    i += 1;
                    assert(v@[i - 1].0.0 == w);
                    assert(cs[i - 1] == choices@[i - 1]@);
                    assert(s@ =~= s0 + (" w"@ + digits(w as nat) + "["@ + cs[i - 1] + "]"@));
                    assert(s@ =~= base + picked_text(v@, cs, i as int));
                }
                assert(s@ =~= head + ("retrieve"@ + picked_text(v@, cs, n as int)));
            },
            MoveKind::Pity { worker, spot } => {
                s.append("pity w");
                push_number(&mut s, worker.0 as u64);
                s.append("->");
                push_spot(&mut s, *spot);
                assert(s@ =~= head + ("pity w"@ + digits(worker.0 as nat) + "->"@ + spot_text(
                    *spot,
                )));
            },
        }
        s
    }
}

} // verus!
