//! Tikal: research, construction and temples.

use crate::book::{effects_ok, Rulebook};
use crate::dominance::{
    all_ok, by_position, collapsed, dedup_by_position, dedup_unordered, lemma_by_position_ok,
    lemma_collapsed_ok, wide_pruning_on,
};
use crate::effect::{after_all, choices_keep_positions_sound, Choice, Effect};
use crate::ids::{BuildingId, PlayerId, Pos, Resource, Science, Temple};
use crate::lists::{each_after, flat, just, lead_each, only, or_skip, or_skip_list, put, put_all};
use crate::options::{
    building_choices, building_list, monument_choices, monument_list, research_choices,
    research_list,
};
use crate::order::views;
use crate::spaces::MAX_DEPTH;
use crate::state::{can_step, temple_stepped, GameState};
use vstd::prelude::*;

verus! {

/// The card a choice builds first, if it builds one.
pub open spec fn first_built(s: Seq<Effect>) -> Option<BuildingId>
    decreases s.len(),
{
    if s.len() == 0 {
        None
    } else {
        match s[0] {
            Effect::Build(id) => Some(id),
            _ => first_built(s.drop_first()),
        }
    }
}

/// A first building with every second one that can follow it, which gets no
/// architecture bonus.
pub open spec fn plain_pairs(
    rules: Rulebook,
    g: GameState,
    p: PlayerId,
    firsts: Seq<Seq<Effect>>,
) -> spec_fn(int) -> Seq<Seq<Effect>>
    decreases 0int, 8int,
{
    |i: int|
        each_after(
            firsts[i],
            building_list(
                rules,
                after_all(rules, g, p, firsts[i]),
                p,
                first_built(firsts[i]),
                false,
                0,
            ),
        )
}

/// A first building that itself raises the architecture track, with every
/// second one, which then gets the bonus the first went without.
pub open spec fn raised_pairs(
    rules: Rulebook,
    g: GameState,
    p: PlayerId,
    firsts: Seq<Seq<Effect>>,
) -> spec_fn(int) -> Seq<Seq<Effect>>
    decreases 0int, 8int,
{
    |i: int|
        {
            let probe = after_all(rules, g, p, firsts[i]);
            if probe.lvl(p, Science::Architecture) <= g.lvl(p, Science::Architecture) {
                Seq::empty()
            } else {
                each_after(
                    firsts[i],
                    building_list(rules, probe, p, first_built(firsts[i]), true, 0),
                )
            }
        }
}

/// Build one building, or two, or take a monument. Both orders of a pair are
/// walked, and pairs that reach the same position are one.
pub open spec fn build_two_list(rules: Rulebook, g: GameState, p: PlayerId, depth: nat) -> Seq<
    Seq<Effect>,
>
    decreases depth, 10int,
{
    let firsts = building_list(rules, g, p, None, true, depth);
    let bare = building_list(rules, g, p, None, false, depth);
    let pairs = flat(firsts.len() as int, plain_pairs(rules, g, p, firsts)) + flat(
        bare.len() as int,
        raised_pairs(rules, g, p, bare),
    );
    firsts + if rules.prune >= 2 {
        by_position(rules, g, p, pairs, pairs.len() as int)
    } else {
        pairs
    } + monument_list(rules, g, p)
}

/// One block and a step on each of two temples, by the second temple.
pub open spec fn steps_with(
    rules: Rulebook,
    g: GameState,
    p: PlayerId,
    block: int,
    a: int,
) -> spec_fn(int) -> Seq<Seq<Effect>> {
    |k: int|
        {
            let b = a + 1 + k;
            only(
                can_step(rules, g, p, Temple::at(a), 1) && can_step(
                    rules,
                    temple_stepped(rules, g, p, Temple::at(a), 1),
                    p,
                    Temple::at(b),
                    1,
                ),
                seq![
                    Effect::Res(Resource::at(block), (-1) as i8),
                    Effect::TempleStep(Temple::at(a), 1),
                    Effect::TempleStep(Temple::at(b), 1),
                ],
            )
        }
}

/// The same, by the first temple.
pub open spec fn steps_from(
    rules: Rulebook,
    g: GameState,
    p: PlayerId,
    block: int,
) -> spec_fn(int) -> Seq<Seq<Effect>> {
    |a: int| flat(2 - a, steps_with(rules, g, p, block, a))
}

/// The same, by the block paid.
pub open spec fn steps_paying(rules: Rulebook, g: GameState, p: PlayerId) -> spec_fn(int) -> Seq<
    Seq<Effect>,
> {
    |block: int|
        if g.players[p.0 as int].res[block] == 0 {
            Seq::empty()
        } else {
            flat(3, steps_from(rules, g, p, block))
        }
}

/// Pay one block, then advance one step on each of two different temples.
pub open spec fn two_steps_list(rules: Rulebook, g: GameState, p: PlayerId) -> Seq<Seq<Effect>> {
    flat(3, steps_paying(rules, g, p))
}

/// What each of the six plain spaces offers.
pub open spec fn tikal_plain(
    rules: Rulebook,
    g: GameState,
    p: PlayerId,
    depth: nat,
) -> spec_fn(int) -> Seq<Seq<Effect>>
    decreases depth, 11int,
{
    |pos: int|
        if pos == 0 {
            seq![Seq::<Effect>::empty()]
        } else if pos == 1 {
            or_skip_list(research_list(rules, g, p, 1, false))
        } else if pos == 2 {
            or_skip_list(building_list(rules, g, p, None, true, depth))
        } else if pos == 3 {
            or_skip_list(
                collapsed(
                    research_list(rules, g, p, 1, false) + research_list(rules, g, p, 2, false),
                ),
            )
        } else if pos == 4 {
            or_skip_list(build_two_list(rules, g, p, depth))
        } else {
            or_skip_list(two_steps_list(rules, g, p))
        }
}

/// What a Tikal space offers; from the sixth on, everything below.
pub open spec fn tikal_list(
    rules: Rulebook,
    g: GameState,
    p: PlayerId,
    pos: int,
    depth: nat,
) -> Seq<Seq<Effect>>
    decreases depth, 12int,
{
    if pos < 6 {
        tikal_plain(rules, g, p, depth)(pos)
    } else {
        flat(6, tikal_plain(rules, g, p, depth))
    }
}

/// What a Tikal space offers.
pub fn at(rules: &Rulebook, g: &GameState, p: PlayerId, pos: Pos) -> (out: Vec<Choice>)
    requires
        p.ok(),
        rules.ok(),
        g.ok(),
    ensures
        views(out@) == tikal_list(*rules, *g, p, pos.0 as int, MAX_DEPTH as nat),
        all_ok(views(out@)),
{
    at_d(rules, g, p, pos, MAX_DEPTH)
}

/// What a Tikal space offers; `depth` bounds how far build-another and mirror
/// chains may nest.
pub fn at_d(
    rules: &Rulebook,
    g: &GameState,
    p: PlayerId,
    pos: Pos,
    depth: u8,
) -> (out: Vec<Choice>)
    requires
        p.ok(),
        rules.ok(),
        g.ok(),
    ensures
        views(out@) == tikal_list(*rules, *g, p, pos.0 as int, depth as nat),
        all_ok(views(out@)),
    decreases
            depth,
            if pos.0 >= 6 {
                13int
            } else {
                12
            },
{
    match pos.0 {
        0 => just(Choice::skip()),
        1 => or_skip(research_choices(rules, g, p, 1, false)),
        2 => or_skip(building_choices(rules, g, p, None, true, depth)),
        // One technology level or two.
        3 => {
            let mut v = research_choices(rules, g, p, 1, false);
            let two = research_choices(rules, g, p, 2, false);
            put_all(&mut v, &two);
            proof {
                lemma_collapsed_ok(views(v@));
            }
            or_skip(dedup_unordered(v))
        },
        4 => or_skip(build_two(rules, g, p, depth)),
        5 => or_skip(two_temple_steps(rules, g, p)),
        _ => {
            let ghost f = tikal_plain(*rules, *g, p, depth as nat);
            let mut out: Vec<Choice> = Vec::new();
            let mut i: u8 = 0;
            assert(views(out@) =~= flat(0, f));
            while i < 6
                invariant
                    i <= 6,
                    p.ok(),
                    rules.ok(),
                    g.ok(),
                    pos.0 >= 6,
                    f == tikal_plain(*rules, *g, p, depth as nat),
                    views(out@) == flat(i as int, f),
                    all_ok(views(out@)),
                decreases 6 - i,
            {
                let below = at_d(rules, g, p, Pos(i), depth);
                put_all(&mut out, &below);
                i += 1;
            }
            out
        },
    }
}

/// The card a choice builds first, if it builds one.
fn card_built(c: &Choice) -> (id: Option<BuildingId>)
    ensures
        id == first_built(c@),
{
    let n: usize = c.0.len();
    let mut i: usize = 0;
    assert(c@.skip(0) =~= c@);
    while i < n
        invariant
            i <= n,
            n == c@.len(),
            first_built(c@) == first_built(c@.skip(i as int)),
        decreases n - i,
    {
        if let Effect::Build(id) = c.0.at(i) {
            return Some(id);
        }
        proof {
            assert(c@.skip(i as int).drop_first() =~= c@.skip(i + 1));
        }
        i += 1;
    }
    None
}

/// A list with a sound choice in front of each of its choices stays sound.
pub(crate) proof fn lemma_each_after_ok(head: Seq<Effect>, s: Seq<Seq<Effect>>)
    requires
        all_ok(s),
        effects_ok(head),
    ensures
        all_ok(each_after(head, s)),
{
    assert forall|i: int| 0 <= i < s.len() implies effects_ok(
        #[trigger] each_after(head, s)[i],
    ) by {
        assert(effects_ok(s[i]));
    }
}

/// Build one building, or two, or take a monument.
///
/// The second build is generated against a probe with the first already
/// applied. A first building that hands over an architecture level lets the
/// second use it, as long as the first used none, so that pairing is walked
/// separately, with the bonus on the second card.
#[verifier::rlimit(60)]
pub fn build_two(rules: &Rulebook, g: &GameState, p: PlayerId, depth: u8) -> (out: Vec<Choice>)
    requires
        p.ok(),
        rules.ok(),
        g.ok(),
    ensures
        views(out@) == build_two_list(*rules, *g, p, depth as nat),
        all_ok(views(out@)),
    decreases depth, 10int,
{
    let mut out = building_choices(rules, g, p, None, true, depth);
    let ghost firsts = views(out@);
    let mut pairs: Vec<Choice> = Vec::new();
    let ghost fp = plain_pairs(*rules, *g, p, firsts);
    let mut i: usize = 0;
    assert(views(pairs@) =~= flat(0, fp));
    while i < out.len()
        invariant
            i <= out@.len(),
            p.ok(),
            rules.ok(),
            g.ok(),
            firsts == views(out@),
            all_ok(firsts),
            fp == plain_pairs(*rules, *g, p, firsts),
            views(pairs@) == flat(i as int, fp),
            all_ok(views(pairs@)),
        decreases out@.len() - i,
    {
        let ghost o1 = views(pairs@);
        let first = &out[i];
        assert(effects_ok(firsts[i as int]));
        let built = card_built(first);
        let mut probe = *g;
        first.apply(rules, &mut probe, p);
        proof {
            choices_keep_positions_sound(*rules, *g, p, first@);
        }
        let seconds = building_choices(rules, &probe, p, built, false, 0);
        let both = lead_each(first, &seconds);
        proof {
            lemma_each_after_ok(first@, views(seconds@));
        }
        put_all(&mut pairs, &both);
        proof {
            assert(views(pairs@) =~= o1 + fp(i as int));
        }
        i += 1;
    }
    let arch: u8 = g.level(p, Science::Architecture);
    let bare = building_choices(rules, g, p, None, false, depth);
    let ghost bares = views(bare@);
    let ghost fr = raised_pairs(*rules, *g, p, bares);
    let ghost base = views(pairs@);
    let mut k: usize = 0;
    assert(views(pairs@) =~= base + flat(0, fr));
    while k < bare.len()
        invariant
            k <= bare@.len(),
            p.ok(),
            rules.ok(),
            g.ok(),
            arch == g.lvl(p, Science::Architecture),
            bares == views(bare@),
            all_ok(bares),
            fr == raised_pairs(*rules, *g, p, bares),
            views(pairs@) == base + flat(k as int, fr),
            all_ok(views(pairs@)),
        decreases bare@.len() - k,
    {
        let ghost o1 = views(pairs@);
        let first = &bare[k];
        assert(effects_ok(bares[k as int]));
        let mut probe = *g;
        first.apply(rules, &mut probe, p);
        proof {
            choices_keep_positions_sound(*rules, *g, p, first@);
        }
        if probe.level(p, Science::Architecture) > arch {
            let built = card_built(first);
            let seconds = building_choices(rules, &probe, p, built, true, 0);
            let both = lead_each(first, &seconds);
            proof {
                lemma_each_after_ok(first@, views(seconds@));
            }
            put_all(&mut pairs, &both);
        }
        proof {
            assert(views(pairs@) =~= o1 + fr(k as int));
            assert(views(pairs@) =~= base + flat(k + 1, fr));
        }
        k += 1;
    }
    let ghost all = views(pairs@);
    if wide_pruning_on(rules.prune) {
        proof {
            lemma_by_position_ok(*rules, *g, p, all, all.len() as int);
        }
        pairs = dedup_by_position(rules, g, p, pairs);
    }
    put_all(&mut out, &pairs);
    let monuments = monument_choices(rules, g, p);
    put_all(&mut out, &monuments);
    assert(views(out@) =~= build_two_list(*rules, *g, p, depth as nat));
    out
}

/// Pay one block, then advance one step on each of two different temples.
pub fn two_temple_steps(rules: &Rulebook, g: &GameState, p: PlayerId) -> (out: Vec<Choice>)
    requires
        p.ok(),
    ensures
        views(out@) == two_steps_list(*rules, *g, p),
        all_ok(views(out@)),
{
    let mut out: Vec<Choice> = Vec::new();
    let ghost fb = steps_paying(*rules, *g, p);
    let mut b: usize = 0;
    assert(views(out@) =~= flat(0, fb));
    while b < 3
        invariant
            b <= 3,
            p.ok(),
            fb == steps_paying(*rules, *g, p),
            views(out@) == flat(b as int, fb),
            all_ok(views(out@)),
        decreases 3 - b,
    {
        let ghost ob = views(out@);
        if g.players[p.idx()].res[b] != 0 {
            let block = Resource::from_idx(b);
            let ghost fa = steps_from(*rules, *g, p, b as int);
            let mut i: usize = 0;
            assert(views(out@) =~= ob + flat(0, fa));
            while i < 3
                invariant
                    i <= 3,
                    b < 3,
                    p.ok(),
                    block == Resource::at(b as int),
                    fa == steps_from(*rules, *g, p, b as int),
                    views(out@) == ob + flat(i as int, fa),
                    all_ok(views(out@)),
                decreases 3 - i,
            {
                let ghost oa = views(out@);
                let a = Temple::from_idx(i);
                let ghost fk = steps_with(*rules, *g, p, b as int, i as int);
                let mut j: usize = i + 1;
                assert(views(out@) =~= oa + flat(0, fk));
                while j < 3
                    invariant
                        i < j <= 3,
                        b < 3,
                        p.ok(),
                        block == Resource::at(b as int),
                        a == Temple::at(i as int),
                        fk == steps_with(*rules, *g, p, b as int, i as int),
                        views(out@) == oa + flat(j - i - 1, fk),
                        all_ok(views(out@)),
                    decreases 3 - j,
                {
                    let ghost ok = views(out@);
                    let t = Temple::from_idx(j);
                    if g.can_temple_step(rules, p, a, 1) {
                        let mut probe = *g;
                        probe.temple_step(rules, p, a, 1);
                        if probe.can_temple_step(rules, p, t, 1) {
                            let c = Choice::one(Effect::Res(block, -1)).with(
                                Effect::TempleStep(a, 1),
                            ).with(Effect::TempleStep(t, 1));
                            assert(c@ =~= seq![
                                Effect::Res(block, (-1) as i8),
                                Effect::TempleStep(a, 1),
                                Effect::TempleStep(t, 1),
                            ]);
                            put(&mut out, c);
                        }
                    }
                    proof {
                        assert(views(out@) =~= ok + fk(j - i - 1));
                        assert(views(out@) =~= oa + flat(j - i, fk));
                    }
                    j += 1;
                }
                proof {
                    assert(views(out@) =~= oa + fa(i as int));
                    assert(views(out@) =~= ob + flat(i + 1, fa));
                }
                i += 1;
            }
        }
        proof {
            assert(views(out@) =~= ob + fb(b as int));
        }
        b += 1;
    }
    out
}

} // verus!
