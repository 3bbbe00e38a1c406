//! Prices of effects, for putting choices in an order.

use crate::effect::{Choice, Effect};
use vstd::prelude::*;

verus! {

/// What one of each effect is worth, in units of the caller's. Linear in every
/// amount, so a choice's price misses what its effects do to each other: it puts
/// choices in an order and does not value them.
#[derive(Clone, Copy)]
pub struct EffectPrice {
    pub corn: i32,
    /// Wood, stone, gold, skull.
    pub res: [i32; 4],
    pub points: i32,
    /// Brown, yellow, green.
    pub temple: [i32; 3],
    pub science: [i32; 4],
    pub unlock_worker: i32,
    pub free_worker: i32,
    pub worker_discount: i32,
    pub palenque_tile: i32,
    pub burn_wood: i32,
    pub fill_chichen: i32,
    pub build: i32,
    pub monument: i32,
}

impl EffectPrice {
    /// What an effect is worth.
    pub open spec fn worth(self, e: Effect) -> int {
        match e {
            Effect::Corn(n) => n * self.corn,
            Effect::SetCorn(n) => n * self.corn,
            Effect::Res(r, n) => n * self.res[r.rank()],
            Effect::Points(n) => n * self.points,
            Effect::TempleStep(t, n) => n * self.temple[t.rank()],
            Effect::AdvanceResearch(s) => self.science[s.rank()] as int,
            Effect::UnlockWorker => self.unlock_worker as int,
            Effect::FreeWorker(n) => n * self.free_worker,
            Effect::WorkerDiscount(n) => n * self.worker_discount,
            Effect::TakePalenqueTile(_, _) => self.palenque_tile as int,
            Effect::BurnPalenqueWood(_) => self.burn_wood as int,
            Effect::FillChichen(_) => self.fill_chichen as int,
            Effect::Build(_) => self.build as int,
            Effect::TakeMonument(_) => self.monument as int,
        }
    }

    /// What effects are worth together.
    pub open spec fn total(self, s: Seq<Effect>) -> int
        decreases s.len(),
    {
        if s.len() == 0 {
            0
        } else {
            self.total(s.drop_last()) + self.worth(s.last())
        }
    }

    /// What an effect is worth.
    pub fn of(&self, e: Effect) -> (v: i64)
        ensures
            v == self.worth(e),
            -0x4000_0000_0000 <= v <= 0x4000_0000_0000,
    {
        match e {
            Effect::Corn(n) => times(n, self.corn),
            Effect::SetCorn(n) => times(n as i16, self.corn),
            Effect::Res(r, n) => times(n as i16, self.res[r.idx()]),
            Effect::Points(n) => times(n as i16, self.points),
            Effect::TempleStep(t, n) => times(n as i16, self.temple[t.idx()]),
            Effect::AdvanceResearch(s) => self.science[s.idx()] as i64,
            Effect::UnlockWorker => self.unlock_worker as i64,
            Effect::FreeWorker(n) => times(n as i16, self.free_worker),
            Effect::WorkerDiscount(n) => times(n as i16, self.worker_discount),
            Effect::TakePalenqueTile(_, _) => self.palenque_tile as i64,
            Effect::BurnPalenqueWood(_) => self.burn_wood as i64,
            Effect::FillChichen(_) => self.fill_chichen as i64,
            Effect::Build(_) => self.build as i64,
            Effect::TakeMonument(_) => self.monument as i64,
        }
    }

    /// What a choice is worth: its effects together.
    pub fn choice(&self, c: &Choice) -> (v: i128)
        ensures
            v == self.total(c@),
    {
        let list = c.to_list();
        let ghost all = c@;
        let mut v: i128 = 0;
        let mut i: usize = 0;
        assert(all.take(0) =~= Seq::empty());
        while i < list.len()
            invariant
                i <= list@.len(),
                list@ == all,
                v == self.total(all.take(i as int)),
                -0x4000_0000_0000 * i <= v <= 0x4000_0000_0000 * i,
            decreases list@.len() - i,
        {
            assert(all.take(i + 1).drop_last() =~= all.take(i as int));
            v = v + self.of(list[i]) as i128;
            i += 1;
        }
        assert(all.take(i as int) =~= all);
        v
    }
}

fn times(n: i16, price: i32) -> (v: i64)
    ensures
        v == n * price,
        -0x4000_0000_0000 <= v <= 0x4000_0000_0000,
{
    assert(-0x4000_0000_0000 <= n * price <= 0x4000_0000_0000) by (nonlinear_arith)
        requires
            -0x8000 <= n <= 0x7FFF,
            -0x8000_0000 <= price <= 0x7FFF_FFFF,
    ;
    n as i64 * price as i64
}

/// Prices add up: a choice carried on is worth both parts.
pub proof fn prices_add_up(p: EffectPrice, a: Seq<Effect>, b: Seq<Effect>)
    ensures
        p.total(a + b) == p.total(a) + p.total(b),
    decreases b.len(),
{
    if b.len() == 0 {
        assert(a + b =~= a);
    } else {
        assert((a + b).drop_last() =~= a + b.drop_last());
        prices_add_up(p, a, b.drop_last());
    }
}

} // verus!
