//! Tree search over the factored turn: its knobs and its arena.
//!
//! Fractional knobs are held as the bits they are stored in.

use crate::text::{digits, push_number};
use vstd::prelude::*;
use vstd::string::*;

verus! {

/// Where a node's priors come from.
#[derive(Clone, Copy, PartialEq, Eq, Debug, Structural)]
pub enum Priors {
    /// The evaluator's own.
    Evaluator,
    /// One application and one evaluation for each edge.
    OnePly,
    /// The price list of the turn's root.
    Gradient,
    /// The price list where it prices anything, one ply elsewhere.
    Mixed,
}

/// What a node too wide to keep whole is cut by.
#[derive(Clone, Copy, PartialEq, Eq, Debug, Structural)]
pub enum EdgeOrder {
    Prior,
    Gradient,
}

/// What the played edge is picked by.
#[derive(Clone, Copy, PartialEq, Eq, Debug, Structural)]
pub enum RootPick {
    Visits,
    Value,
}

/// The bits of the fraction one.
pub const ONE: u32 = 0x3F80_0000;

/// The knobs of a search.
#[derive(Clone, Copy, PartialEq, Eq, Debug, Structural)]
pub struct MctsConfig {
    pub c_puct_init: u32,
    pub c_puct_base: u32,
    pub fpu_reduction: u32,
    pub tree_reuse: bool,
    pub dirichlet_eps: u32,
    pub dirichlet_scale: u32,
    /// Edges a node opens at once.
    pub max_edges: usize,
    pub widen_c: u32,
    pub widen_alpha: u32,
    /// Edges a wide node keeps.
    pub widen_cap: usize,
    pub ordering: EdgeOrder,
    pub temperature: u32,
    pub root_pick: RootPick,
    pub virtual_loss: u32,
    pub max_depth: u32,
    pub seed: u64,
    pub priors: Priors,
    pub prior_temp: u32,
    pub prior_margin: bool,
    pub q_init: u32,
    pub q_pseudo: u32,
    /// Nodes narrower than this keep the evaluator's priors.
    pub prior_min_edges: usize,
}

/// The knobs as shipped.
pub open spec fn shipped() -> MctsConfig {
    MctsConfig {
        c_puct_init: 0x4000_0000,
        c_puct_base: 0x4699_8800,
        fpu_reduction: 0x3E4C_CCCD,
        tree_reuse: true,
        dirichlet_eps: 0x3E80_0000,
        dirichlet_scale: 0x4120_0000,
        max_edges: 32,
        widen_c: 0x4000_0000,
        widen_alpha: 0x3F00_0000,
        widen_cap: 128,
        ordering: EdgeOrder::Gradient,
        temperature: ONE,
        root_pick: RootPick::Visits,
        virtual_loss: 1,
        max_depth: 2048,
        seed: 0,
        priors: Priors::OnePly,
        prior_temp: ONE,
        prior_margin: false,
        q_init: 0,
        q_pseudo: 0,
        prior_min_edges: 3,
    }
}

impl Default for MctsConfig {
    fn default() -> (c: MctsConfig)
        ensures
            c == shipped(),
    {
        MctsConfig {
            c_puct_init: 0x4000_0000,
            c_puct_base: 0x4699_8800,
            fpu_reduction: 0x3E4C_CCCD,
            tree_reuse: true,
            dirichlet_eps: 0x3E80_0000,
            dirichlet_scale: 0x4120_0000,
            max_edges: 32,
            widen_c: 0x4000_0000,
            widen_alpha: 0x3F00_0000,
            widen_cap: 128,
            ordering: EdgeOrder::Gradient,
            temperature: ONE,
            root_pick: RootPick::Visits,
            virtual_loss: 1,
            max_depth: 2048,
            seed: 0,
            priors: Priors::OnePly,
            prior_temp: ONE,
            prior_margin: false,
            q_init: 0,
            q_pseudo: 0,
            prior_min_edges: 3,
        }
    }
}

/// Whether stored bits are no number.
pub open spec fn no_number(a: u32) -> bool {
    a as int % 0x8000_0000 > 0x7F80_0000
}

/// Whether two stored fractions are unequal. What is no number equals nothing,
/// and the two zeros are equal.
pub open spec fn unequal(a: u32, b: u32) -> bool {
    no_number(a) || no_number(b) || (a != b && !(a as int % 0x8000_0000 == 0 && b as int
        % 0x8000_0000 == 0))
}

/// Whether two stored fractions are unequal.
pub fn differ(a: u32, b: u32) -> (d: bool)
    ensures
        d == unequal(a, b),
{
    let x: u32 = a % 0x8000_0000;
    let y: u32 = b % 0x8000_0000;
    x > 0x7F80_0000 || y > 0x7F80_0000 || (a != b && !(x == 0 && y == 0))
}

/// The larger of a stored fraction and one. Negative fractions and what is no
/// number give one.
pub open spec fn one_or_more(a: u32) -> u32 {
    if ONE <= a <= 0x7F80_0000 {
        a
    } else {
        ONE
    }
}

/// The larger of a stored fraction and one.
pub fn at_least_one(a: u32) -> (b: u32)
    ensures
        b == one_or_more(a),
{
    if ONE <= a && a <= 0x7F80_0000 {
        a
    } else {
        ONE
    }
}

// ---- naming --------------------------------------------------------------

/// How the fractional knobs print.
pub struct Shown {
    pub prior_temp: String,
    pub c_puct_init: String,
    pub c_puct_base: String,
    pub fpu_reduction: String,
    pub widen_c: String,
    pub widen_alpha: String,
}

/// A knob's part of a name, where it is shown.
pub open spec fn mention(shown: bool, key: Seq<char>, text: Seq<char>) -> Seq<char> {
    if shown {
        key + text
    } else {
        Seq::empty()
    }
}

/// The part of a name that says where the priors come from.
pub open spec fn priors_mention(p: Priors) -> Seq<char> {
    match p {
        Priors::Evaluator => ":pri=eval"@,
        Priors::OnePly => ":pri=1ply"@,
        Priors::Gradient => ":pri=grad"@,
        Priors::Mixed => ":pri=mixed"@,
    }
}

/// A search's name: its budget, its evaluator, and every knob that differs from
/// the shipped one.
pub open spec fn mcts_name(
    sims: u32,
    evaluator: Seq<char>,
    c: MctsConfig,
    s: Shown,
) -> Seq<char> {
    let d = shipped();
    "mcts"@ + digits(sims as nat) + "/"@ + evaluator + mention(
        c.priors != d.priors,
        priors_mention(c.priors),
        Seq::empty(),
    ) + mention(c.priors == Priors::OnePly, ":pt="@, s.prior_temp@) + mention(
        c.priors == Priors::OnePly,
        ":pmin="@,
        digits(c.prior_min_edges as nat),
    ) + mention(unequal(c.c_puct_init, d.c_puct_init), ":cp="@, s.c_puct_init@) + mention(
        unequal(c.c_puct_base, d.c_puct_base),
        ":cpb="@,
        s.c_puct_base@,
    ) + mention(unequal(c.fpu_reduction, d.fpu_reduction), ":fpu="@, s.fpu_reduction@) + mention(
        c.max_edges != d.max_edges,
        ":k="@,
        digits(c.max_edges as nat),
    ) + mention(unequal(c.widen_c, d.widen_c), ":wc="@, s.widen_c@) + mention(
        unequal(c.widen_alpha, d.widen_alpha),
        ":wa="@,
        s.widen_alpha@,
    ) + mention(c.widen_cap != d.widen_cap, ":wcap="@, digits(c.widen_cap as nat)) + mention(
        c.tree_reuse != d.tree_reuse,
        ":noreuse"@,
        Seq::empty(),
    ) + mention(c.virtual_loss != d.virtual_loss, ":vl="@, digits(c.virtual_loss as nat))
}

fn mention_text(s: &mut String, shown: bool, key: &str, text: &str)
    ensures
        final(s)@ == old(s)@ + mention(shown, key@, text@),
{
    if shown {
        s.append(key);
        s.append(text);
        assert(s@ =~= old(s)@ + mention(shown, key@, text@));
    } else {
        assert(s@ =~= old(s)@ + mention(shown, key@, text@));
    }
}

fn mention_number(s: &mut String, shown: bool, key: &str, n: u64)
    ensures
        final(s)@ == old(s)@ + mention(shown, key@, digits(n as nat)),
{
    if shown {
        s.append(key);
        push_number(s, n);
        assert(s@ =~= old(s)@ + mention(shown, key@, digits(n as nat)));
    } else {
        assert(s@ =~= old(s)@ + mention(shown, key@, digits(n as nat)));
    }
}

/// A search's name, read off its knobs so that it cannot drift from what the
/// search does.
pub fn mcts_label(sims: u32, evaluator: &str, c: &MctsConfig, shown: &Shown) -> (s: String)
    ensures
        s@ == mcts_name(sims, evaluator@, *c, *shown),
{
    let d = MctsConfig::default();
    let mut s = String::new();
    s.append("mcts");
    push_number(&mut s, sims as u64);
    s.append("/");
    s.append(evaluator);
    let from: &str = match c.priors {
        Priors::Evaluator => ":pri=eval",
        Priors::OnePly => ":pri=1ply",
        Priors::Gradient => ":pri=grad",
        Priors::Mixed => ":pri=mixed",
    };
    proof {
        reveal_strlit("");
    }
    assert(""@ =~= Seq::empty());
    assert(s@ =~= "mcts"@ + digits(sims as nat) + "/"@ + evaluator@);
    mention_text(&mut s, c.priors != d.priors, from, "");
    let one_ply = c.priors == Priors::OnePly;
    mention_text(&mut s, one_ply, ":pt=", shown.prior_temp.as_str());
    mention_number(&mut s, one_ply, ":pmin=", c.prior_min_edges as u64);
    mention_text(
        &mut s,
        differ(c.c_puct_init, d.c_puct_init),
        ":cp=",
        shown.c_puct_init.as_str(),
    );
    mention_text(
        &mut s,
        differ(c.c_puct_base, d.c_puct_base),
        ":cpb=",
        shown.c_puct_base.as_str(),
    );
    mention_text(
        &mut s,
        differ(c.fpu_reduction, d.fpu_reduction),
        ":fpu=",
        shown.fpu_reduction.as_str(),
    );
    mention_number(&mut s, c.max_edges != d.max_edges, ":k=", c.max_edges as u64);
    mention_text(&mut s, differ(c.widen_c, d.widen_c), ":wc=", shown.widen_c.as_str());
    mention_text(
        &mut s,
        differ(c.widen_alpha, d.widen_alpha),
        ":wa=",
        shown.widen_alpha.as_str(),
    );
    mention_number(&mut s, c.widen_cap != d.widen_cap, ":wcap=", c.widen_cap as u64);
    mention_text(&mut s, c.tree_reuse != d.tree_reuse, ":noreuse", "");
    mention_number(&mut s, c.virtual_loss != d.virtual_loss, ":vl=", c.virtual_loss as u64);
    s
}

} // verus!
