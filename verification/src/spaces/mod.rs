//! Board spaces as generators.
//!
//! A space answers "what can this seat do here, right now?" against the live
//! position. What it returns is data: every bonus is resolved at generation
//! time and stored in the effect.

pub mod chichen;
pub mod palenque;
pub mod tikal;
pub mod uxmal;
pub mod yaxchilan;

use crate::book::Rulebook;
use crate::dominance::{
    all_ok, dominated_dedup, lemma_undominated_ok, pruning_keeps_a_better_choice, stands_for,
    undominated,
};
use crate::effect::{Choice, Effect};
use crate::ids::{Gear, PlayerId, Pos};
use crate::lists::{flat, just, put_all};
use crate::order::views;
use crate::spaces::chichen::{chichen_list, chichen_low};
use crate::spaces::palenque::{palenque_list, palenque_plain};
use crate::spaces::tikal::{tikal_list, tikal_plain};
use crate::spaces::uxmal::{uxmal_list, uxmal_plain};
use crate::spaces::yaxchilan::{yaxchilan_list, yaxchilan_plain};
use crate::state::GameState;
use vstd::prelude::*;

verus! {

/// How deep a build-another or mirror chain may nest.
pub const MAX_DEPTH: u8 = 1;

/// What a space of a gear offers, before pruning.
pub open spec fn raw_list(rules: Rulebook, g: GameState, p: PlayerId, gear: Gear, pos: int) -> Seq<
    Seq<Effect>,
> {
    match gear {
        Gear::Palenque => palenque_list(rules, g, p, pos),
        Gear::Yaxchilan => yaxchilan_list(g, p, pos),
        Gear::Tikal => tikal_list(rules, g, p, pos, MAX_DEPTH as nat),
        Gear::Uxmal => uxmal_list(rules, g, p, pos, MAX_DEPTH as nat),
        Gear::Chichen => chichen_list(rules, g, p, pos),
    }
}

/// What a space of a gear offers.
pub fn choices_at(
    rules: &Rulebook,
    g: &GameState,
    p: PlayerId,
    gear: Gear,
    pos: Pos,
) -> (out: Vec<Choice>)
    requires
        p.ok(),
        rules.ok(),
        g.ok(),
    ensures
        views(out@) == undominated(raw_list(*rules, *g, p, gear, pos.0 as int), rules.prune),
        all_ok(views(out@)),
{
    let v = raw_at(rules, g, p, gear, pos);
    proof {
        lemma_undominated_ok(views(v@), rules.prune);
    }
    dominated_dedup(rules.prune, v)
}

/// A space's list before the dominance pass.
pub fn raw_at(
    rules: &Rulebook,
    g: &GameState,
    p: PlayerId,
    gear: Gear,
    pos: Pos,
) -> (out: Vec<Choice>)
    requires
        p.ok(),
        rules.ok(),
        g.ok(),
    ensures
        views(out@) == raw_list(*rules, *g, p, gear, pos.0 as int),
        all_ok(views(out@)),
{
    match gear {
        Gear::Palenque => palenque::at(rules, g, p, pos),
        Gear::Yaxchilan => yaxchilan::at(g, p, pos),
        Gear::Tikal => tikal::at(rules, g, p, pos),
        Gear::Uxmal => uxmal::at(rules, g, p, pos),
        Gear::Chichen => chichen::at(rules, g, p, pos),
    }
}

/// Whether a space repeats every action below it for free: the sixth and
/// seventh on the small gears, the tenth on Chichen Itza.
pub open spec fn free_choice(gear: Gear, pos: int) -> bool {
    match gear {
        Gear::Chichen => pos >= 10,
        _ => pos >= 6,
    }
}

/// Whether a space repeats every action below it for free.
pub fn is_free_choice(gear: Gear, pos: Pos) -> (b: bool)
    ensures
        b == free_choice(gear, pos.0 as int),
{
    match gear {
        Gear::Chichen => pos.0 >= 10,
        _ => pos.0 >= 6,
    }
}

/// The raw lists of a gear, space by space.
pub open spec fn raw_of(rules: Rulebook, g: GameState, p: PlayerId, gear: Gear) -> spec_fn(
    int,
) -> Seq<Seq<Effect>> {
    |i: int| raw_list(rules, g, p, gear, i)
}

/// Every action of the first `upto` spaces of a gear.
pub fn mirror(
    rules: &Rulebook,
    g: &GameState,
    p: PlayerId,
    gear: Gear,
    upto: u8,
) -> (out: Vec<Choice>)
    requires
        p.ok(),
        rules.ok(),
        g.ok(),
    ensures
        views(out@) == flat(upto as int, raw_of(*rules, *g, p, gear)),
        all_ok(views(out@)),
{
    let ghost f = raw_of(*rules, *g, p, gear);
    let mut out: Vec<Choice> = Vec::new();
    let mut i: u8 = 0;
    assert(views(out@) =~= flat(0, f));
    while i < upto
        invariant
            i <= upto,
            p.ok(),
            rules.ok(),
            g.ok(),
            f == raw_of(*rules, *g, p, gear),
            views(out@) == flat(i as int, f),
            all_ok(views(out@)),
        decreases upto - i,
    {
        let below = raw_at(rules, g, p, gear, Pos(i));
        put_all(&mut out, &below);
        i += 1;
    }
    out
}

/// The entry space of every gear has no action of its own: an explicit skip
/// keeps picking the worker up legal, and does nothing.
pub fn entry_space() -> (out: Vec<Choice>)
    ensures
        views(out@) == seq![Seq::<Effect>::empty()],
{
    just(Choice::skip())
}

/// A concatenation is no shorter than its first part.
proof fn lemma_flat_first<A>(n: int, f: spec_fn(int) -> Seq<A>)
    requires
        n >= 1,
    ensures
        flat(n, f).len() >= f(0).len(),
    decreases n,
{
    if n > 1 {
        lemma_flat_first(n - 1, f);
    } else {
        assert(flat(0, f).len() == 0);
    }
}

/// No space has an empty list.
proof fn lemma_raw_some(rules: Rulebook, g: GameState, p: PlayerId, gear: Gear, pos: int)
    requires
        pos >= 0,
    ensures
        raw_list(rules, g, p, gear, pos).len() > 0,
{
    let d = MAX_DEPTH as nat;
    match gear {
        Gear::Palenque => {
            let f = palenque_plain(rules, g, p);
            assert(f(0).len() == 1);
            lemma_flat_first(6, f);
        },
        Gear::Yaxchilan => {
            let f = yaxchilan_plain(g, p);
            assert(f(0).len() == 1);
            lemma_flat_first(6, f);
        },
        Gear::Tikal => {
            let f = tikal_plain(rules, g, p, d);
            assert(f(0).len() == 1);
            lemma_flat_first(6, f);
        },
        Gear::Uxmal => {
            let f = uxmal_plain(rules, g, p, d);
            assert(f(0).len() == 1);
            lemma_flat_first(6, f);
        },
        Gear::Chichen => {
            let f = chichen_low(rules, g, p);
            assert(f(0).len() >= 1);
            lemma_flat_first(10, f);
        },
    }
}

/// Every space offers something, before pruning and after.
pub proof fn every_space_offers_a_choice(
    rules: Rulebook,
    g: GameState,
    p: PlayerId,
    gear: Gear,
    pos: int,
)
    requires
        pos >= 0,
    ensures
        raw_list(rules, g, p, gear, pos).len() > 0,
        undominated(raw_list(rules, g, p, gear, pos), rules.prune).len() > 0,
{
    lemma_raw_some(rules, g, p, gear, pos);
    let s = raw_list(rules, g, p, gear, pos);
    assert(s.contains(s[0]));
    pruning_keeps_a_better_choice(s, rules.prune, s[0]);
    let c = choose|c: Seq<Effect>| #[trigger]
        undominated(s, rules.prune).contains(c) && stands_for(c, s[0], rules.prune >= 2);
    assert(undominated(s, rules.prune).contains(c));
}

/// A free-choice space gives away everything the spaces below it offer.
pub proof fn free_choice_repeats_what_is_below(
    rules: Rulebook,
    g: GameState,
    p: PlayerId,
    gear: Gear,
    pos: int,
    low: int,
)
    requires
        free_choice(gear, pos),
        0 <= low,
        !free_choice(gear, low),
    ensures
        forall|c: Seq<Effect>| #[trigger]
            raw_list(rules, g, p, gear, low).contains(c) ==> raw_list(
                rules,
                g,
                p,
                gear,
                pos,
            ).contains(c),
{
    let d = MAX_DEPTH as nat;
    assert forall|c: Seq<Effect>| #[trigger] raw_list(rules, g, p, gear, low).contains(c)
        implies raw_list(rules, g, p, gear, pos).contains(c) by {
        match gear {
            Gear::Palenque => lemma_flat_holds(6, palenque_plain(rules, g, p), low, c),
            Gear::Yaxchilan => lemma_flat_holds(6, yaxchilan_plain(g, p), low, c),
            Gear::Tikal => lemma_flat_holds(6, tikal_plain(rules, g, p, d), low, c),
            Gear::Uxmal => lemma_flat_holds(6, uxmal_plain(rules, g, p, d), low, c),
            Gear::Chichen => lemma_flat_holds(10, chichen_low(rules, g, p), low, c),
        }
    }
}

/// A concatenation holds what each of its parts holds.
proof fn lemma_flat_holds<A>(n: int, f: spec_fn(int) -> Seq<A>, k: int, a: A)
    requires
        0 <= k < n,
        f(k).contains(a),
    ensures
        flat(n, f).contains(a),
    decreases n,
{
    let x = flat(n - 1, f);
    let y = f(n - 1);
    if k < n - 1 {
        lemma_flat_holds(n - 1, f, k, a);
        assert((x + y)[x.index_of(a)] == a);
    } else {
        assert((x + y)[x.len() + y.index_of(a)] == a);
    }
}

} // verus!
