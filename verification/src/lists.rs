//! Building lists of choices out of parts.

use crate::effect::{Choice, Effect};
use crate::order::views;
use vstd::prelude::*;

verus! {

/// The lists `f(0)`, `f(1)`, up to `f(n - 1)`, one behind another.
pub open spec fn flat<A>(n: int, f: spec_fn(int) -> Seq<A>) -> Seq<A>
    decreases n,
{
    if n <= 0 {
        Seq::empty()
    } else {
        flat(n - 1, f) + f(n - 1)
    }
}

/// The list of one element, or the empty one.
pub open spec fn only<A>(b: bool, a: A) -> Seq<A> {
    if b {
        seq![a]
    } else {
        Seq::empty()
    }
}

/// A list of choices, with the skip in place of an empty one.
pub open spec fn or_skip_list(s: Seq<Seq<Effect>>) -> Seq<Seq<Effect>> {
    if s.len() == 0 {
        seq![Seq::<Effect>::empty()]
    } else {
        s
    }
}

/// A list of choices with the same effects behind each.
pub open spec fn each_then(s: Seq<Seq<Effect>>, tail: Seq<Effect>) -> Seq<Seq<Effect>> {
    Seq::new(s.len(), |i: int| s[i] + tail)
}

/// A list of choices with the same effects in front of each.
pub open spec fn each_after(head: Seq<Effect>, s: Seq<Seq<Effect>>) -> Seq<Seq<Effect>> {
    Seq::new(s.len(), |i: int| head + s[i])
}

/// Add a choice to a list.
pub fn put(out: &mut Vec<Choice>, c: Choice)
    ensures
        views(final(out)@) == views(old(out)@).push(c@),
{
    out.push(c);
    assert(views(out@) =~= views(old(out)@).push(c@));
}

/// A list of one choice.
pub fn just(c: Choice) -> (out: Vec<Choice>)
    ensures
        views(out@) == seq![c@],
{
    let mut out: Vec<Choice> = Vec::new();
    out.push(c);
    assert(views(out@) =~= seq![c@]);
    out
}

/// Add every choice of one list to another.
pub fn put_all(out: &mut Vec<Choice>, v: &Vec<Choice>)
    ensures
        views(final(out)@) == views(old(out)@) + views(v@),
{
    let mut i: usize = 0;
    assert(views(out@) =~= views(old(out)@) + views(v@).take(0));
    while i < v.len()
        invariant
            i <= v@.len(),
            views(out@) == views(old(out)@) + views(v@).take(i as int),
        decreases v@.len() - i,
    {
        put(out, v[i].clone());
        i += 1;
        assert(views(out@) =~= views(old(out)@) + views(v@).take(i as int));
    }
    assert(views(v@).take(i as int) =~= views(v@));
}

/// A list, with the skip in place of an empty one.
pub fn or_skip(v: Vec<Choice>) -> (out: Vec<Choice>)
    ensures
        views(out@) == or_skip_list(views(v@)),
{
    if v.len() == 0 {
        just(Choice::skip())
    } else {
        v
    }
}

/// Every choice of a list with the same effects behind it.
pub fn chain_each(v: &Vec<Choice>, tail: &Choice) -> (out: Vec<Choice>)
    ensures
        views(out@) == each_then(views(v@), tail@),
{
    let mut out: Vec<Choice> = Vec::new();
    let mut i: usize = 0;
    while i < v.len()
        invariant
            i <= v@.len(),
            views(out@) =~= each_then(views(v@), tail@).take(i as int),
        decreases v@.len() - i,
    {
        put(&mut out, v[i].clone().chain(tail));
        i += 1;
    }
    assert(views(out@) =~= each_then(views(v@), tail@));
    out
}

/// Every choice of a list with the same effects in front of it.
pub fn lead_each(head: &Choice, v: &Vec<Choice>) -> (out: Vec<Choice>)
    ensures
        views(out@) == each_after(head@, views(v@)),
{
    let mut out: Vec<Choice> = Vec::new();
    let mut i: usize = 0;
    while i < v.len()
        invariant
            i <= v@.len(),
            views(out@) =~= each_after(head@, views(v@)).take(i as int),
        decreases v@.len() - i,
    {
        put(&mut out, head.clone().chain(&v[i]));
        i += 1;
    }
    assert(views(out@) =~= each_after(head@, views(v@)));
    out
}

} // verus!
