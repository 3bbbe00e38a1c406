//! Agents as they are named on a command line.
//!
//! Fractional knobs are read by the host: a function here that needs one takes
//! what each text reads as, in stored bits, or nothing where it is no number.

use crate::fields::{
    begins, cut, cut_last, ends, ends_with, holds, parse_number, part, pieces, read_number,
    rsplit_once, split, split_once, starts_with, texts, to_text,
};
use crate::mcts::{at_least_one, one_or_more, shipped, MctsConfig, Priors};
use crate::minimax::{minimax_read, parse_minimax, Shape};
use crate::search::Config;
use crate::text::{characters, spells};
use vstd::prelude::*;
use vstd::string::*;

verus! {

/// The simulations of a search that names none.
pub const DEFAULT_SIMS: u32 = 3200;

/// Where a greedy agent's candidate turns come from.
#[derive(Clone, Copy, PartialEq, Eq, Debug, Structural)]
pub enum Candidates {
    /// So many draws from the rollout policy.
    Sampled(usize),
    /// Every legal move.
    All,
}

impl Candidates {
    /// How many scored moves are worth keeping.
    pub fn keep(self) -> (n: usize)
        ensures
            n == (match self {
                Candidates::Sampled(k) => k,
                Candidates::All => 32,
            }),
    {
        match self {
            Candidates::Sampled(k) => k,
            Candidates::All => 32,
        }
    }
}

/// Whether a searching agent generates training data or answers a question.
#[derive(Clone, Copy, PartialEq, Eq, Debug, Structural)]
pub enum Exploration {
    /// Noise on the root turn, and most turns at a fraction of the budget.
    SelfPlay,
    /// The search's own policy, every turn at the full budget.
    Off,
}

/// What is wrong with a spec.
#[derive(Clone, Copy, PartialEq, Eq, Debug, Structural)]
pub enum SpecFault {
    HeuristicCount,
    HeuristicZero,
    GreedyShape,
    GreedyCount,
    GreedyZero,
    Depth,
    DepthZero,
    Millis,
    Width,
    WidthZero,
    WidthTooLarge,
    Model,
    OppWidth,
    CapPerWidth,
    InteriorCap,
    Keep,
    MinimaxFlag,
    MinimaxExtra,
    MctsShape,
    Sims,
    SimsZero,
    PriorsValue,
    PriorTemp,
    PriorMin,
    CPuct,
    CPuctBase,
    Fpu,
    MaxEdges,
    WidenC,
    WidenAlpha,
    WidenCap,
    VirtualLoss,
    MctsFlag,
    NetSize,
    Evaluator,
    Agent,
}

/// What is wrong with a spec, and the text that is.
pub struct SpecError {
    pub fault: SpecFault,
    pub text: Vec<char>,
}

impl View for SpecError {
    type V = (SpecFault, Seq<char>);

    open spec fn view(&self) -> (SpecFault, Seq<char>) {
        (self.fault, self.text@)
    }
}

/// Whether a result is what a reading says.
pub open spec fn agrees<T>(r: Result<T, SpecError>, m: Result<T, (SpecFault, Seq<char>)>) -> bool {
    match (r, m) {
        (Ok(a), Ok(b)) => a == b,
        (Err(e), Err(f)) => e@ == f,
        _ => false,
    }
}

fn err<T>(fault: SpecFault, text: &Vec<char>) -> (r: Result<T, SpecError>)
    ensures
        r is Err,
        r->Err_0@ == (fault, text@),
{
    let t = part(text, 0, text.len());
    assert(t@ =~= text@);
    Err(SpecError { fault, text: t })
}

fn bare<T>(fault: SpecFault) -> (r: Result<T, SpecError>)
    ensures
        r is Err,
        r->Err_0@ == (fault, Seq::<char>::empty()),
{
    let t: Vec<char> = Vec::new();
    assert(t@ =~= Seq::<char>::empty());
    Err(SpecError { fault, text: t })
}

// ---- candidates ----------------------------------------------------------

/// How many candidates a field asks for.
pub open spec fn candidates_read(rest: Option<Seq<char>>, greedy: bool) -> Result<
    Candidates,
    (SpecFault, Seq<char>),
> {
    match rest {
        None => Ok(Candidates::Sampled(32)),
        Some(v) => if v == "full"@ || v == "all"@ {
            Ok(Candidates::All)
        } else {
            match read_number(v, usize::MAX as nat) {
                None => Err(
                    (
                        if greedy {
                            SpecFault::GreedyCount
                        } else {
                            SpecFault::HeuristicCount
                        },
                        v,
                    ),
                ),
                Some(k) => if k == 0 {
                    Err(
                        (
                            if greedy {
                                SpecFault::GreedyZero
                            } else {
                                SpecFault::HeuristicZero
                            },
                            Seq::empty(),
                        ),
                    )
                } else {
                    Ok(Candidates::Sampled(k as usize))
                },
            }
        },
    }
}

/// So many draws, or `full` to score every legal move.
pub fn parse_candidates(rest: Option<&Vec<char>>, greedy: bool) -> (r: Result<
    Candidates,
    SpecError,
>)
    ensures
        agrees(
            r,
            candidates_read(
                match rest {
                    Some(v) => Some(v@),
                    None => None,
                },
                greedy,
            ),
        ),
{
    let v = match rest {
        Some(v) => v,
        None => {
            return Ok(Candidates::Sampled(32));
        },
    };
    if spells(v, "full") || spells(v, "all") {
        return Ok(Candidates::All);
    }
    match parse_number(v, usize::MAX as u64) {
        None => err(
            if greedy {
                SpecFault::GreedyCount
            } else {
                SpecFault::HeuristicCount
            },
            v,
        ),
        Some(k) => if k == 0 {
            bare(
                if greedy {
                    SpecFault::GreedyZero
                } else {
                    SpecFault::HeuristicZero
                },
            )
        } else {
            Ok(Candidates::Sampled(k as usize))
        },
    }
}

// ---- backends ------------------------------------------------------------

/// What scores positions.
#[derive(Clone, Copy, PartialEq, Eq, Debug, Structural)]
pub enum Source {
    Heuristic,
    /// An untrained network, small or main.
    RandomSmall,
    RandomMain,
    /// A network in a file.
    File,
}

/// What scores positions, and how it was named.
pub struct Backend {
    pub source: Source,
    pub label: Vec<char>,
}

impl View for Backend {
    type V = (Source, Seq<char>);

    open spec fn view(&self) -> (Source, Seq<char>) {
        (self.source, self.label@)
    }
}

/// What an evaluator's name stands for.
pub open spec fn backend_read(s: Seq<char>) -> Result<(Source, Seq<char>), (SpecFault, Seq<char>)> {
    if s == "heuristic"@ {
        Ok((Source::Heuristic, s))
    } else if begins(s, "net-random"@) {
        match cut(s, ':') {
            None => Ok((Source::RandomSmall, s)),
            Some((_, size)) => if size == "small"@ {
                Ok((Source::RandomSmall, s))
            } else if size == "main"@ {
                Ok((Source::RandomMain, s))
            } else {
                Err((SpecFault::NetSize, size))
            },
        }
    } else if ends(s, ".safetensors"@) || ends(s, ".tzw"@) {
        Ok((Source::File, s))
    } else {
        Err((SpecFault::Evaluator, s))
    }
}

/// Whether a result is what a reading says, by view.
pub open spec fn backend_agrees(
    r: Result<Backend, SpecError>,
    m: Result<(Source, Seq<char>), (SpecFault, Seq<char>)>,
) -> bool {
    match (r, m) {
        (Ok(a), Ok(b)) => a@ == b,
        (Err(e), Err(f)) => e@ == f,
        _ => false,
    }
}

fn named(source: Source, s: &Vec<char>) -> (b: Backend)
    ensures
        b@ == (source, s@),
{
    let label = part(s, 0, s.len());
    assert(label@ =~= s@);
    Backend { source, label }
}

/// What an evaluator's name stands for.
pub fn parse_backend(s: &Vec<char>) -> (r: Result<Backend, SpecError>)
    ensures
        backend_agrees(r, backend_read(s@)),
{
    if spells(s, "heuristic") {
        return Ok(named(Source::Heuristic, s));
    }
    if starts_with(s, "net-random") {
        return match split_once(s, ':') {
            None => Ok(named(Source::RandomSmall, s)),
            Some((_, size)) => if spells(&size, "small") {
                Ok(named(Source::RandomSmall, s))
            } else if spells(&size, "main") {
                Ok(named(Source::RandomMain, s))
            } else {
                err(SpecFault::NetSize, &size)
            },
        };
    }
    if ends_with(s, ".safetensors") || ends_with(s, ".tzw") {
        return Ok(named(Source::File, s));
    }
    err(SpecFault::Evaluator, s)
}

impl Backend {
    /// The heuristic, as an agent that names no evaluator gets it.
    pub fn heuristic() -> (b: Backend)
        ensures
            b@ == (Source::Heuristic, "heuristic"@),
    {
        let label = characters("heuristic");
        Backend { source: Source::Heuristic, label }
    }

    /// How the evaluator prints.
    pub fn name(&self) -> (s: String)
        ensures
            s@ == self.label@,
    {
        to_text(&self.label)
    }

    /// Whether a queue in front of the evaluator pays for itself: in front of a
    /// network it does.
    pub fn batchable(&self) -> (b: bool)
        ensures
            b == (self.source != Source::Heuristic),
    {
        self.source != Source::Heuristic
    }
}

// ---- search flags --------------------------------------------------------

/// A flag's key and value, the value empty where it has none.
pub open spec fn key_value(f: Seq<char>) -> (Seq<char>, Seq<char>) {
    match cut(f, '=') {
        Some(kv) => kv,
        None => (f, Seq::empty()),
    }
}

/// A whole number no smaller than a floor.
pub open spec fn whole(v: Seq<char>, least: nat, fault: SpecFault) -> Result<
    nat,
    (SpecFault, Seq<char>),
> {
    match read_number(v, usize::MAX as nat) {
        Some(n) => Ok(
            if n < least {
                least
            } else {
                n
            },
        ),
        None => Err((fault, v)),
    }
}

/// A fraction, as the host read it.
pub open spec fn fractional(v: Seq<char>, bits: Option<u32>, fault: SpecFault) -> Result<
    u32,
    (SpecFault, Seq<char>),
> {
    match bits {
        Some(b) => Ok(b),
        None => Err((fault, v)),
    }
}

/// Knobs with one flag set, `bits` being what its value reads as.
pub open spec fn mcts_flag_read(c: MctsConfig, f: Seq<char>, bits: Option<u32>) -> Result<
    MctsConfig,
    (SpecFault, Seq<char>),
> {
    let (k, v) = key_value(f);
    if k == "priors"@ || k == "pri"@ {
        if v == "eval"@ || v == "evaluator"@ || v == "uniform"@ {
            Ok(MctsConfig { priors: Priors::Evaluator, ..c })
        } else if v == "1ply"@ || v == "oneply"@ || v == "heuristic"@ {
            Ok(MctsConfig { priors: Priors::OnePly, ..c })
        } else {
            Err((SpecFault::PriorsValue, v))
        }
    } else if k == "ptemp"@ || k == "pt"@ {
        match fractional(v, bits, SpecFault::PriorTemp) {
            Ok(b) => Ok(MctsConfig { prior_temp: b, ..c }),
            Err(e) => Err(e),
        }
    } else if k == "pmin"@ {
        match whole(v, 2, SpecFault::PriorMin) {
            Ok(n) => Ok(MctsConfig { prior_min_edges: n as usize, ..c }),
            Err(e) => Err(e),
        }
    } else if k == "cpuct"@ || k == "cp"@ {
        match fractional(v, bits, SpecFault::CPuct) {
            Ok(b) => Ok(MctsConfig { c_puct_init: b, ..c }),
            Err(e) => Err(e),
        }
    } else if k == "cpbase"@ || k == "cpb"@ {
        match fractional(v, bits, SpecFault::CPuctBase) {
            Ok(b) => Ok(MctsConfig { c_puct_base: one_or_more(b), ..c }),
            Err(e) => Err(e),
        }
    } else if k == "fpu"@ {
        match fractional(v, bits, SpecFault::Fpu) {
            Ok(b) => Ok(MctsConfig { fpu_reduction: b, ..c }),
            Err(e) => Err(e),
        }
    } else if k == "k"@ || k == "maxedges"@ {
        match whole(v, 1, SpecFault::MaxEdges) {
            Ok(n) => Ok(MctsConfig { max_edges: n as usize, ..c }),
            Err(e) => Err(e),
        }
    } else if k == "wc"@ || k == "widenc"@ {
        match fractional(v, bits, SpecFault::WidenC) {
            Ok(b) => Ok(MctsConfig { widen_c: b, ..c }),
            Err(e) => Err(e),
        }
    } else if k == "wa"@ || k == "widenalpha"@ {
        match fractional(v, bits, SpecFault::WidenAlpha) {
            Ok(b) => Ok(MctsConfig { widen_alpha: b, ..c }),
            Err(e) => Err(e),
        }
    } else if k == "wcap"@ {
        match whole(v, 1, SpecFault::WidenCap) {
            Ok(n) => Ok(MctsConfig { widen_cap: n as usize, ..c }),
            Err(e) => Err(e),
        }
    } else if k == "vl"@ {
        match whole(v, 0, SpecFault::VirtualLoss) {
            Ok(n) => Ok(MctsConfig { virtual_loss: (n % 0x1_0000_0000) as u32, ..c }),
            Err(e) => Err(e),
        }
    } else if k == "reuse"@ {
        Ok(MctsConfig { tree_reuse: true, ..c })
    } else if k == "noreuse"@ {
        Ok(MctsConfig { tree_reuse: false, ..c })
    } else {
        Err((SpecFault::MctsFlag, k))
    }
}

/// What the host read at a place of a list, or nothing past its end.
pub open spec fn bits_at(bits: Seq<Option<u32>>, i: int) -> Option<u32> {
    if i < bits.len() {
        bits[i]
    } else {
        None
    }
}

/// Knobs with the flags of a list set in turn from place `i` on, empty ones
/// skipped.
pub open spec fn mcts_flags_read(
    c: MctsConfig,
    fs: Seq<Seq<char>>,
    bits: Seq<Option<u32>>,
    i: int,
) -> Result<MctsConfig, (SpecFault, Seq<char>)>
    decreases fs.len() - i,
{
    if i < 0 || i >= fs.len() {
        Ok(c)
    } else if fs[i].len() == 0 {
        mcts_flags_read(c, fs, bits, i + 1)
    } else {
        match mcts_flag_read(c, fs[i], bits_at(bits, i)) {
            Err(e) => Err(e),
            Ok(d) => mcts_flags_read(d, fs, bits, i + 1),
        }
    }
}

fn to_whole(v: &Vec<char>, least: usize, fault: SpecFault) -> (r: Result<usize, SpecError>)
    ensures
        match (r, whole(v@, least as nat, fault)) {
            (Ok(a), Ok(b)) => a == b,
            (Err(e), Err(f)) => e@ == f,
            _ => false,
        },
{
    match parse_number(v, usize::MAX as u64) {
        Some(n) => Ok(
            if (n as usize) < least {
                least
            } else {
                n as usize
            },
        ),
        None => err(fault, v),
    }
}

fn to_fraction(v: &Vec<char>, bits: Option<u32>, fault: SpecFault) -> (r: Result<u32, SpecError>)
    ensures
        agrees(r, fractional(v@, bits, fault)),
{
    match bits {
        Some(b) => Ok(b),
        None => err(fault, v),
    }
}

fn split_flag(f: &Vec<char>) -> (r: (Vec<char>, Vec<char>))
    ensures
        (r.0@, r.1@) == key_value(f@),
{
    match split_once(f, '=') {
        Some(kv) => kv,
        None => {
            let k = part(f, 0, f.len());
            assert(k@ =~= f@);
            let v: Vec<char> = Vec::new();
            assert(v@ =~= Seq::<char>::empty());
            (k, v)
        },
    }
}

fn set_mcts_flag(c: MctsConfig, f: &Vec<char>, bits: Option<u32>) -> (r: Result<
    MctsConfig,
    SpecError,
>)
    ensures
        agrees(r, mcts_flag_read(c, f@, bits)),
{
    let (k, v) = split_flag(f);
    let mut c = c;
    if spells(&k, "priors") || spells(&k, "pri") {
        if spells(&v, "eval") || spells(&v, "evaluator") || spells(&v, "uniform") {
            c.priors = Priors::Evaluator;
        } else if spells(&v, "1ply") || spells(&v, "oneply") || spells(&v, "heuristic") {
            c.priors = Priors::OnePly;
        } else {
            return err(SpecFault::PriorsValue, &v);
        }
    } else if spells(&k, "ptemp") || spells(&k, "pt") {
        match to_fraction(&v, bits, SpecFault::PriorTemp) {
            Ok(b) => {
                c.prior_temp = b;
            },
            Err(e) => {
                return Err(e);
            },
        }
    } else if spells(&k, "pmin") {
        match to_whole(&v, 2, SpecFault::PriorMin) {
            Ok(n) => {
                c.prior_min_edges = n;
            },
            Err(e) => {
                return Err(e);
            },
        }
    } else if spells(&k, "cpuct") || spells(&k, "cp") {
        match to_fraction(&v, bits, SpecFault::CPuct) {
            Ok(b) => {
                c.c_puct_init = b;
            },
            Err(e) => {
                return Err(e);
            },
        }
    } else if spells(&k, "cpbase") || spells(&k, "cpb") {
        match to_fraction(&v, bits, SpecFault::CPuctBase) {
            Ok(b) => {
                c.c_puct_base = at_least_one(b);
            },
            Err(e) => {
                return Err(e);
            },
        }
    } else if spells(&k, "fpu") {
        match to_fraction(&v, bits, SpecFault::Fpu) {
            Ok(b) => {
                c.fpu_reduction = b;
            },
            Err(e) => {
                return Err(e);
            },
        }
    } else if spells(&k, "k") || spells(&k, "maxedges") {
        match to_whole(&v, 1, SpecFault::MaxEdges) {
            Ok(n) => {
                c.max_edges = n;
            },
            Err(e) => {
                return Err(e);
            },
        }
    } else if spells(&k, "wc") || spells(&k, "widenc") {
        match to_fraction(&v, bits, SpecFault::WidenC) {
            Ok(b) => {
                c.widen_c = b;
            },
            Err(e) => {
                return Err(e);
            },
        }
    } else if spells(&k, "wa") || spells(&k, "widenalpha") {
        match to_fraction(&v, bits, SpecFault::WidenAlpha) {
            Ok(b) => {
                c.widen_alpha = b;
            },
            Err(e) => {
                return Err(e);
            },
        }
    } else if spells(&k, "wcap") {
        match to_whole(&v, 1, SpecFault::WidenCap) {
            Ok(n) => {
                c.widen_cap = n;
            },
            Err(e) => {
                return Err(e);
            },
        }
    } else if spells(&k, "vl") {
        match to_whole(&v, 0, SpecFault::VirtualLoss) {
            Ok(n) => {
                c.virtual_loss = (n as u64 % 0x1_0000_0000) as u32;
            },
            Err(e) => {
                return Err(e);
            },
        }
    } else if spells(&k, "reuse") {
        c.tree_reuse = true;
    } else if spells(&k, "noreuse") {
        c.tree_reuse = false;
    } else {
        return err(SpecFault::MctsFlag, &k);
    }
    Ok(c)
}

/// Knobs as shipped, with a comma-separated list of flags set. `bits` holds what
/// the value of each flag reads as, place for place.
pub fn parse_mcts_flags(flags: &Vec<char>, bits: &Vec<Option<u32>>) -> (r: Result<
    MctsConfig,
    SpecError,
>)
    ensures
        agrees(r, mcts_flags_read(shipped(), pieces(flags@, ','), bits@, 0)),
{
    let fs = split(flags, ',');
    let ghost all = texts(fs@);
    let mut c = MctsConfig::default();
    let mut i: usize = 0;
    while i < fs.len()
        invariant
            i <= fs@.len(),
            all == texts(fs@),
            all == pieces(flags@, ','),
            mcts_flags_read(c, all, bits@, i as int) == mcts_flags_read(shipped(), all, bits@, 0),
        decreases fs@.len() - i,
    {
        assert(all[i as int] == fs@[i as int]@);
        let b: Option<u32> = if i < bits.len() {
            bits[i]
        } else {
            None
        };
        if fs[i].len() > 0 {
            match set_mcts_flag(c, &fs[i], b) {
                Ok(d) => {
                    c = d;
                },
                Err(e) => {
                    return Err(e);
                },
            }
        }
        i += 1;
    }
    Ok(c)
}

// ---- agents --------------------------------------------------------------

/// What kind of player a spec names.
pub enum SpecKind {
    Random,
    Greedy { cands: Candidates },
    Search { sims: u32, knobs: MctsConfig },
    Minimax { cfg: Config },
}

/// What kind of player a spec names, as plain values.
pub enum Kind {
    Random,
    Greedy(Candidates),
    Search(u32, MctsConfig),
    Minimax(Shape),
}

impl View for SpecKind {
    type V = Kind;

    open spec fn view(&self) -> Kind {
        match *self {
            SpecKind::Random => Kind::Random,
            SpecKind::Greedy { cands } => Kind::Greedy(cands),
            SpecKind::Search { sims, knobs } => Kind::Search(sims, knobs),
            SpecKind::Minimax { cfg } => Kind::Minimax(cfg@),
        }
    }
}

pub type Parts = (Kind, (Source, Seq<char>));

pub type Wrong = (SpecFault, Seq<char>);

/// A kind and an evaluator, unless one of the two is wrong.
pub open spec fn both(k: Result<Kind, Wrong>, b: Result<(Source, Seq<char>), Wrong>) -> Result<
    Parts,
    Wrong,
> {
    match k {
        Err(e) => Err(e),
        Ok(k) => match b {
            Err(e) => Err(e),
            Ok(b) => Ok((k, b)),
        },
    }
}

/// Whether a piece has the shape of a flag.
pub open spec fn flag_like(x: Seq<char>) -> bool {
    x.contains('=') || x == "noreuse"@ || x == "reuse"@
}

/// Whether a text has the shape of a list of flags.
pub open spec fn is_flags(f: Seq<char>) -> bool {
    f.len() > 0 && forall|i: int|
        0 <= i < pieces(f, ',').len() ==> flag_like(#[trigger] pieces(f, ',')[i])
}

/// The evaluator and the flags of a search spec's tail. Flags are told by their
/// shape, so that an evaluator's path is never mistaken for them.
pub open spec fn tail_read(tail: Seq<char>) -> (Seq<char>, Seq<char>) {
    match cut_last(tail, ':') {
        Some((e, f)) => if is_flags(f) {
            (e, f)
        } else if is_flags(tail) {
            ("heuristic"@, tail)
        } else {
            (tail, ""@)
        },
        None => if is_flags(tail) {
            ("heuristic"@, tail)
        } else {
            (tail, ""@)
        },
    }
}

/// The budget and the tail of a search spec.
pub open spec fn sims_tail(rest: Seq<char>) -> (Seq<char>, Seq<char>) {
    match cut(rest, ':') {
        Some(st) => st,
        None => (rest, "heuristic"@),
    }
}

/// The budget a text names.
pub open spec fn sims_read(s: Seq<char>) -> Result<u32, Wrong> {
    match read_number(s, u64::MAX as nat) {
        None => Err((SpecFault::Sims, s)),
        Some(n) => if n % 0x1_0000_0000 == 0 {
            Err((SpecFault::SimsZero, Seq::empty()))
        } else {
            Ok((n % 0x1_0000_0000) as u32)
        },
    }
}

/// What a search spec names.
pub open spec fn search_read(rest: Seq<char>, bits: Seq<Option<u32>>) -> Result<Parts, Wrong> {
    let (sims, tail) = sims_tail(rest);
    let (ev, flags) = tail_read(tail);
    match sims_read(sims) {
        Err(e) => Err(e),
        Ok(n) => both(
            match mcts_flags_read(shipped(), pieces(flags, ','), bits, 0) {
                Ok(c) => Ok(Kind::Search(n, c)),
                Err(e) => Err(e),
            },
            backend_read(ev),
        ),
    }
}

/// What a spec names. `bits` holds what its flags' values read as, and `base`
/// what an alpha-beta agent leaves unsaid.
pub open spec fn spec_read(s: Seq<char>, bits: Seq<Option<u32>>, base: Shape) -> Result<
    Parts,
    Wrong,
> {
    let (head, rest) = match cut(s, ':') {
        Some((h, r)) => (h, Some(r)),
        None => (s, None),
    };
    let plain = Ok((Source::Heuristic, "heuristic"@));
    if head == "random"@ {
        both(Ok(Kind::Random), plain)
    } else if head == "heuristic"@ {
        both(
            match candidates_read(rest, false) {
                Ok(c) => Ok(Kind::Greedy(c)),
                Err(e) => Err(e),
            },
            plain,
        )
    } else if head == "greedy"@ {
        match rest {
            None => Err((SpecFault::GreedyShape, Seq::empty())),
            Some(r) => match cut(r, ':') {
                None => Err((SpecFault::GreedyShape, Seq::empty())),
                Some((k, ev)) => both(
                    match candidates_read(Some(k), true) {
                        Ok(c) => Ok(Kind::Greedy(c)),
                        Err(e) => Err(e),
                    },
                    backend_read(ev),
                ),
            },
        }
    } else if head == "minimax"@ {
        both(
            match minimax_read(rest, base) {
                Ok(c) => Ok(Kind::Minimax(c)),
                Err(e) => Err(e),
            },
            plain,
        )
    } else if head == "mcts"@ {
        match rest {
            None => Err((SpecFault::MctsShape, Seq::empty())),
            Some(r) => search_read(r, bits),
        }
    } else if head == "net-random"@ || ends(s, ".safetensors"@) || ends(s, ".tzw"@) {
        both(Ok(Kind::Search(DEFAULT_SIMS, shipped())), backend_read(s))
    } else {
        Err((SpecFault::Agent, s))
    }
}

/// Whether a result is what a reading says, by view.
pub open spec fn parts_agree(
    r: Result<(SpecKind, Backend), SpecError>,
    m: Result<Parts, Wrong>,
) -> bool {
    match (r, m) {
        (Ok(a), Ok(b)) => (a.0@, a.1@) == b,
        (Err(e), Err(f)) => e@ == f,
        _ => false,
    }
}

fn looks_like_flags(f: &Vec<char>) -> (b: bool)
    ensures
        b == is_flags(f@),
{
    if f.len() == 0 {
        return false;
    }
    let fs = split(f, ',');
    let ghost all = texts(fs@);
    let mut i: usize = 0;
    while i < fs.len()
        invariant
            i <= fs@.len(),
            all == texts(fs@),
            all == pieces(f@, ','),
            f@.len() > 0,
            forall|j: int| 0 <= j < i ==> flag_like(#[trigger] all[j]),
        decreases fs@.len() - i,
    {
        assert(all[i as int] == fs@[i as int]@);
        if !(holds(&fs[i], '=') || spells(&fs[i], "noreuse") || spells(&fs[i], "reuse")) {
            assert(!flag_like(pieces(f@, ',')[i as int]));
            return false;
        }
        i += 1;
    }
    true
}

fn split_tail(tail: &Vec<char>) -> (r: (Vec<char>, Vec<char>))
    ensures
        (r.0@, r.1@) == tail_read(tail@),
{
    let whole_flags = looks_like_flags(tail);
    match rsplit_once(tail, ':') {
        Some((e, f)) => {
            if looks_like_flags(&f) {
                return (e, f);
            }
        },
        None => {},
    }
    let copy = part(tail, 0, tail.len());
    assert(copy@ =~= tail@);
    if whole_flags {
        (characters("heuristic"), copy)
    } else {
        (copy, characters(""))
    }
}

fn parse_search(rest: &Vec<char>, bits: &Vec<Option<u32>>) -> (r: Result<
    (SpecKind, Backend),
    SpecError,
>)
    ensures
        parts_agree(r, search_read(rest@, bits@)),
{
    let (sims, tail) = match split_once(rest, ':') {
        Some(st) => st,
        None => {
            let copy = part(rest, 0, rest.len());
            assert(copy@ =~= rest@);
            (copy, characters("heuristic"))
        },
    };
    let (ev, flags) = split_tail(&tail);
    let n: u32 = match parse_number(&sims, u64::MAX) {
        None => {
            return err(SpecFault::Sims, &sims);
        },
        Some(n) => (n % 0x1_0000_0000) as u32,
    };
    if n == 0 {
        return bare(SpecFault::SimsZero);
    }
    let cfg = match parse_mcts_flags(&flags, bits) {
        Ok(c) => c,
        Err(e) => {
            return Err(e);
        },
    };
    match parse_backend(&ev) {
        Ok(b) => Ok((SpecKind::Search { sims: n, knobs: cfg }, b)),
        Err(e) => Err(e),
    }
}

fn parse_greedy(rest: Option<&Vec<char>>) -> (r: Result<(SpecKind, Backend), SpecError>)
    ensures
        parts_agree(
            r,
            match rest {
                None => Err((SpecFault::GreedyShape, Seq::empty())),
                Some(v) => match cut(v@, ':') {
                    None => Err((SpecFault::GreedyShape, Seq::empty())),
                    Some((k, ev)) => both(
                        match candidates_read(Some(k), true) {
                            Ok(c) => Ok(Kind::Greedy(c)),
                            Err(e) => Err(e),
                        },
                        backend_read(ev),
                    ),
                },
            },
        ),
{
    let v = match rest {
        Some(v) => v,
        None => {
            return bare(SpecFault::GreedyShape);
        },
    };
    let (k, ev) = match split_once(v, ':') {
        Some(x) => x,
        None => {
            return bare(SpecFault::GreedyShape);
        },
    };
    let cands = match parse_candidates(Some(&k), true) {
        Ok(c) => c,
        Err(e) => {
            return Err(e);
        },
    };
    match parse_backend(&ev) {
        Ok(b) => Ok((SpecKind::Greedy { cands }, b)),
        Err(e) => Err(e),
    }
}

/// What a spec names, or what is wrong with it.
pub fn parse_parts(s: &Vec<char>, bits: &Vec<Option<u32>>, base: &Config) -> (r: Result<
    (SpecKind, Backend),
    SpecError,
>)
    requires
        base.widths@.len() > 0,
        base.widths@[0] > 0,
    ensures
        parts_agree(r, spec_read(s@, bits@, base@)),
{
    let cut_here = split_once(s, ':');
    let whole_text = part(s, 0, s.len());
    assert(whole_text@ =~= s@);
    let (head, rest) = match &cut_here {
        Some((h, r)) => (h, Some(r)),
        None => (&whole_text, None),
    };
    if spells(head, "random") {
        Ok((SpecKind::Random, Backend::heuristic()))
    } else if spells(head, "heuristic") {
        match parse_candidates(rest, false) {
            Ok(cands) => Ok((SpecKind::Greedy { cands }, Backend::heuristic())),
            Err(e) => Err(e),
        }
    } else if spells(head, "greedy") {
        parse_greedy(rest)
    } else if spells(head, "minimax") {
        match parse_minimax(rest, base) {
            Ok(cfg) => Ok((SpecKind::Minimax { cfg }, Backend::heuristic())),
            Err(e) => Err(e),
        }
    } else if spells(head, "mcts") {
        match rest {
            None => bare(SpecFault::MctsShape),
            Some(r) => parse_search(r, bits),
        }
    } else if spells(head, "net-random") || ends_with(s, ".safetensors") || ends_with(s, ".tzw") {
        match parse_backend(s) {
            Ok(b) => Ok(
                (SpecKind::Search { sims: DEFAULT_SIMS, knobs: MctsConfig::default() }, b),
            ),
            Err(e) => Err(e),
        }
    } else {
        err(SpecFault::Agent, s)
    }
}

/// The texts of a spec's flags whose values the host is to read, place for
/// place, for `parse_parts`.
pub fn flag_values(s: &Vec<char>) -> (v: Vec<Vec<char>>)
    ensures
        texts(v@) == flag_texts(s@),
{
    let mut out: Vec<Vec<char>> = Vec::new();
    match split_once(s, ':') {
        Some((head, rest)) => {
            if spells(&head, "mcts") {
                let tail = match split_once(&rest, ':') {
                    Some((_, t)) => t,
                    None => characters("heuristic"),
                };
                let (_, flags) = split_tail(&tail);
                let fs = split(&flags, ',');
                let ghost all = pieces(flags@, ',');
                let mut i: usize = 0;
                while i < fs.len()
                    invariant
                        i <= fs@.len(),
                        texts(fs@) == all,
                        texts(out@) == values_of(all).take(i as int),
                    decreases fs@.len() - i,
                {
                    assert(all[i as int] == fs@[i as int]@);
                    let (_, v) = split_flag(&fs[i]);
                    let ghost o1 = texts(out@);
                    out.push(v);
                    assert(texts(out@) =~= o1.push(v@));
                    i += 1;
                    assert(texts(out@) =~= values_of(all).take(i as int));
                }
                assert(values_of(all).take(fs@.len() as int) =~= values_of(all));
                return out;
            }
        },
        None => {},
    }
    assert(texts(out@) =~= Seq::empty());
    out
}

/// The values of a list of flags.
pub open spec fn values_of(fs: Seq<Seq<char>>) -> Seq<Seq<char>> {
    Seq::new(fs.len(), |i: int| key_value(fs[i]).1)
}

/// The values of a spec's flags.
pub open spec fn flag_texts(s: Seq<char>) -> Seq<Seq<char>> {
    match cut(s, ':') {
        Some((head, rest)) => if head == "mcts"@ {
            values_of(pieces(tail_read(sims_tail(rest).1).1, ','))
        } else {
            Seq::empty()
        },
        None => Seq::empty(),
    }
}

} // verus!
