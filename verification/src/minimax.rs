//! How an alpha-beta agent is named: reading `DEPTH[:MS[:WIDTH[:MODEL]]]`, and
//! printing it back.

use crate::fields::{begins, parse_number, part, pieces, read_number, split, starts_with, texts};
use crate::search::{width, Config, Opponents};
use crate::specs::{SpecError, SpecFault};
use crate::text::{digits, push_number, spells};
use vstd::prelude::*;
use vstd::string::*;

verus! {

/// A configuration as plain values.
#[verifier::ext_equal]
pub struct Shape {
    pub max_depth: u8,
    pub widths: Seq<usize>,
    pub interior_cap: usize,
    pub top_up: usize,
    pub budget_ms: u64,
    pub keep: usize,
    pub opponents: Opponents,
    pub cache: bool,
    pub own_width: bool,
    pub keep_tt: bool,
    pub beam_first: bool,
    pub opp_width: usize,
    pub cap_per_width: Option<usize>,
}

impl View for Config {
    type V = Shape;

    open spec fn view(&self) -> Shape {
        Shape {
            max_depth: self.max_depth,
            widths: self.widths@,
            interior_cap: self.interior_cap,
            top_up: self.top_up,
            budget_ms: self.budget_ms,
            keep: self.keep,
            opponents: self.opponents,
            cache: self.cache,
            own_width: self.own_width,
            keep_tt: self.keep_tt,
            beam_first: self.beam_first,
            opp_width: self.opp_width,
            cap_per_width: self.cap_per_width,
        }
    }
}

pub type Fails = (SpecFault, Seq<char>);

/// Whether a result is what a reading says, by view.
pub open spec fn config_agrees(r: Result<Config, SpecError>, m: Result<Shape, Fails>) -> bool {
    match (r, m) {
        (Ok(a), Ok(b)) => a@ == b,
        (Err(e), Err(f)) => e@ == f,
        _ => false,
    }
}

fn copied(v: &Vec<usize>) -> (w: Vec<usize>)
    ensures
        w@ == v@,
{
    let mut w: Vec<usize> = Vec::new();
    let mut i: usize = 0;
    while i < v.len()
        invariant
            i <= v@.len(),
            w@ == v@.take(i as int),
        decreases v@.len() - i,
    {
        w.push(v[i]);
        i += 1;
        assert(w@ =~= v@.take(i as int));
    }
    assert(v@.take(v@.len() as int) =~= v@);
    w
}

impl Config {
    /// The same configuration again.
    pub fn again(&self) -> (c: Config)
        ensures
            c@ == self@,
    {
        Config {
            max_depth: self.max_depth,
            widths: copied(&self.widths),
            interior_cap: self.interior_cap,
            top_up: self.top_up,
            budget_ms: self.budget_ms,
            keep: self.keep,
            opponents: self.opponents,
            cache: self.cache,
            own_width: self.own_width,
            keep_tt: self.keep_tt,
            beam_first: self.beam_first,
            opp_width: self.opp_width,
            cap_per_width: self.cap_per_width,
        }
    }
}

fn wrong<T>(fault: SpecFault, text: &Vec<char>) -> (r: Result<T, SpecError>)
    ensures
        r is Err,
        r->Err_0@ == (fault, text@),
{
    let t = part(text, 0, text.len());
    assert(t@ =~= text@);
    Err(SpecError { fault, text: t })
}

fn zero<T>(fault: SpecFault) -> (r: Result<T, SpecError>)
    ensures
        r is Err,
        r->Err_0@ == (fault, Seq::<char>::empty()),
{
    let t: Vec<char> = Vec::new();
    assert(t@ =~= Seq::<char>::empty());
    Err(SpecError { fault, text: t })
}

// ---- the taper -----------------------------------------------------------

/// A width below the root, scaled to another root.
pub open spec fn scaled(base: Seq<usize>, w: int, i: int) -> int {
    let x = base[i] * w / (base[0] as int);
    if i == 0 {
        w
    } else if x < 2 {
        2
    } else {
        x
    }
}

/// Whether a root width scales without running out of numbers.
pub open spec fn scales(base: Seq<usize>, w: int) -> bool {
    w <= usize::MAX && forall|i: int|
        1 <= i < base.len() ==> #[trigger] base[i] * w <= usize::MAX
}

/// The widths below a root, scaled so that a wider root does not blow the tree
/// up.
pub open spec fn taper(base: Seq<usize>, w: int) -> Seq<usize> {
    Seq::new(
        base.len(),
        |i: int| scaled(base, w, i) as usize,
    )
}

fn to_taper(base: &Vec<usize>, w: u64) -> (r: Option<Vec<usize>>)
    requires
        base@.len() > 0,
        base@[0] > 0,
    ensures
        r is Some <==> scales(base@, w as int),
        r matches Some(v) ==> v@ == taper(base@, w as int),
{
    if w > usize::MAX as u64 {
        return None;
    }
    let mut v: Vec<usize> = Vec::new();
    v.push(w as usize);
    let mut i: usize = 1;
    while i < base.len()
        invariant
            1 <= i <= base@.len(),
            base@[0] > 0,
            w <= usize::MAX,
            v@.len() == i,
            forall|j: int| 1 <= j < i ==> #[trigger] base@[j] * w <= usize::MAX,
            forall|j: int| 0 <= j < i ==> #[trigger] v@[j] == scaled(base@, w as int, j) as usize,
        decreases base@.len() - i,
    {
        let b: usize = base[i];
        proof {
            assert(b * w <= 0xFFFF_FFFF_FFFF_FFFF * 0xFFFF_FFFF_FFFF_FFFF) by (nonlinear_arith)
                requires
                    b <= 0xFFFF_FFFF_FFFF_FFFF,
                    w <= 0xFFFF_FFFF_FFFF_FFFF,
            ;
        }
        let x: u128 = b as u128 * w as u128;
        if x > usize::MAX as u128 {
            assert(base@[i as int] * w > usize::MAX);
            return None;
        }
        let y: usize = x as usize / base[0];
        v.push(
            if y < 2 {
                2
            } else {
                y
            },
        );
        i += 1;
    }
    assert(v@ =~= taper(base@, w as int));
    Some(v)
}

// ---- the fields ----------------------------------------------------------

/// What a numeric field holds: nothing where it is absent or empty.
pub open spec fn field_read(f: Seq<Seq<char>>, i: int, fault: SpecFault) -> Result<
    Option<nat>,
    Fails,
> {
    if i >= f.len() || f[i].len() == 0 {
        Ok(None)
    } else {
        match read_number(f[i], u64::MAX as nat) {
            Some(n) => Ok(Some(n)),
            None => Err((fault, f[i])),
        }
    }
}

fn number_field(f: &Vec<Vec<char>>, i: usize, fault: SpecFault) -> (r: Result<
    Option<u64>,
    SpecError,
>)
    ensures
        match (r, field_read(texts(f@), i as int, fault)) {
            (Ok(a), Ok(b)) => a is Some == b is Some && (a is Some ==> a->Some_0 == b->Some_0),
            (Err(e), Err(x)) => e@ == x,
            _ => false,
        },
{
    if i >= f.len() || f[i].len() == 0 {
        return Ok(None);
    }
    assert(texts(f@)[i as int] == f@[i as int]@);
    match parse_number(&f[i], u64::MAX) {
        Some(n) => Ok(Some(n)),
        None => wrong(fault, &f[i]),
    }
}

/// A configuration with the depth a spec names.
pub open spec fn depth_read(c: Shape, f: Seq<Seq<char>>) -> Result<Shape, Fails> {
    match field_read(f, 0, SpecFault::Depth) {
        Err(e) => Err(e),
        Ok(None) => Ok(c),
        Ok(Some(d)) => if d == 0 {
            Err((SpecFault::DepthZero, Seq::empty()))
        } else {
            Ok(
                Shape {
                    max_depth: (if d < 255 {
                        d as int
                    } else {
                        255
                    }) as u8,
                    ..c
                },
            )
        },
    }
}

/// A configuration with the budget a spec names.
pub open spec fn millis_read(c: Shape, f: Seq<Seq<char>>) -> Result<Shape, Fails> {
    match field_read(f, 1, SpecFault::Millis) {
        Err(e) => Err(e),
        Ok(None) => Ok(c),
        Ok(Some(ms)) => Ok(Shape { budget_ms: ms as u64, ..c }),
    }
}

/// A configuration with the root width a spec names, the plies below keeping
/// the taper of `base`.
pub open spec fn width_read(c: Shape, base: Seq<usize>, f: Seq<Seq<char>>) -> Result<Shape, Fails> {
    match field_read(f, 2, SpecFault::Width) {
        Err(e) => Err(e),
        Ok(None) => Ok(c),
        Ok(Some(w)) => if w == 0 {
            Err((SpecFault::WidthZero, Seq::empty()))
        } else if !scales(base, w as int) {
            Err((SpecFault::WidthTooLarge, Seq::empty()))
        } else {
            Ok(Shape { widths: taper(base, w as int), ..c })
        },
    }
}

/// A configuration with the opponent model a spec names.
pub open spec fn model_read(c: Shape, f: Seq<Seq<char>>) -> Result<Shape, Fails> {
    if f.len() <= 3 || f[3].len() == 0 {
        Ok(c)
    } else if f[3] == "paranoid"@ {
        Ok(Shape { opponents: Opponents::Paranoid, ..c })
    } else if f[3] == "greedy"@ {
        Ok(Shape { opponents: Opponents::Greedy, ..c })
    } else {
        Err((SpecFault::Model, f[3]))
    }
}

/// A number of at least one after a flag's key.
pub open spec fn count_after(f: Seq<char>, key: int) -> Option<nat> {
    match read_number(f.skip(key), usize::MAX as nat) {
        Some(n) => Some(
            if n == 0 {
                1
            } else {
                n
            },
        ),
        None => None,
    }
}

/// A list of widths, each at least one, with one in place of what is no number.
pub open spec fn width_list(s: Seq<char>) -> Seq<usize> {
    let ps = pieces(s, '.');
    Seq::new(
        ps.len(),
        |i: int|
            match count_after(ps[i], 0) {
                Some(n) => n as usize,
                None => 1,
            },
    )
}

/// A configuration with one flag set.
pub open spec fn flag_read(c: Shape, f: Seq<char>) -> Result<Shape, Fails> {
    if f == "nocache"@ {
        Ok(Shape { cache: false, ..c })
    } else if f == "cache"@ {
        Ok(Shape { cache: true, ..c })
    } else if f == "ownwidth"@ {
        Ok(Shape { own_width: true, ..c })
    } else if f == "keeptt"@ {
        Ok(Shape { keep_tt: true, ..c })
    } else if f == "beamfirst"@ {
        Ok(Shape { beam_first: true, ..c })
    } else if f == "scorefirst"@ {
        Ok(Shape { beam_first: false, ..c })
    } else if f == "nocapw"@ {
        Ok(Shape { cap_per_width: None, ..c })
    } else if begins(f, "oppw="@) {
        match count_after(f, 5) {
            Some(n) => Ok(Shape { opp_width: n as usize, ..c }),
            None => Err((SpecFault::OppWidth, Seq::empty())),
        }
    } else if begins(f, "capw="@) {
        match read_number(f.skip(5), usize::MAX as nat) {
            Some(n) => if n > 0 {
                Ok(Shape { cap_per_width: Some(n as usize), ..c })
            } else {
                Err((SpecFault::CapPerWidth, Seq::empty()))
            },
            None => Err((SpecFault::CapPerWidth, Seq::empty())),
        }
    } else if begins(f, "cap="@) {
        match count_after(f, 4) {
            Some(n) => Ok(Shape { interior_cap: n as usize, ..c }),
            None => Err((SpecFault::InteriorCap, Seq::empty())),
        }
    } else if begins(f, "keep="@) {
        match count_after(f, 5) {
            Some(n) => Ok(Shape { keep: n as usize, ..c }),
            None => Err((SpecFault::Keep, Seq::empty())),
        }
    } else if begins(f, "w="@) {
        Ok(Shape { widths: width_list(f.skip(2)), ..c })
    } else {
        Err((SpecFault::MinimaxFlag, f))
    }
}

/// A configuration with the flags of a list set in turn, empty ones skipped.
pub open spec fn flags_read(c: Shape, fs: Seq<Seq<char>>) -> Result<Shape, Fails>
    decreases fs.len(),
{
    if fs.len() == 0 {
        Ok(c)
    } else if fs[0].len() == 0 {
        flags_read(c, fs.drop_first())
    } else {
        match flag_read(c, fs[0]) {
            Err(e) => Err(e),
            Ok(d) => flags_read(d, fs.drop_first()),
        }
    }
}

/// One reading after another.
pub open spec fn after_fields(c: Shape, base: Seq<usize>, f: Seq<Seq<char>>) -> Result<Shape, Fails> {
    match depth_read(c, f) {
        Err(e) => Err(e),
        Ok(c1) => match millis_read(c1, f) {
            Err(e) => Err(e),
            Ok(c2) => match width_read(c2, base, f) {
                Err(e) => Err(e),
                Ok(c3) => model_read(c3, f),
            },
        },
    }
}

/// What a spec's tail asks for, `base` being what it leaves unsaid.
pub open spec fn minimax_read(rest: Option<Seq<char>>, base: Shape) -> Result<Shape, Fails> {
    match rest {
        None => Ok(base),
        Some(s) => {
            let f = pieces(s, ':');
            match after_fields(base, base.widths, f) {
                Err(e) => Err(e),
                Ok(c) => {
                    let flagged = if f.len() > 4 {
                        flags_read(c, pieces(f[4], ','))
                    } else {
                        Ok(c)
                    };
                    match flagged {
                        Err(e) => Err(e),
                        Ok(d) => if f.len() > 5 {
                            Err((SpecFault::MinimaxExtra, f[5]))
                        } else {
                            Ok(d)
                        },
                    }
                },
            }
        },
    }
}

fn at_least(v: &Vec<char>, key: usize) -> (r: Option<usize>)
    requires
        key <= v@.len(),
    ensures
        r is Some == count_after(v@, key as int) is Some,
        r matches Some(n) ==> n == count_after(v@, key as int)->Some_0,
{
    let tail = part(v, key, v.len());
    assert(tail@ =~= v@.skip(key as int));
    match parse_number(&tail, usize::MAX as u64) {
        Some(n) => Some(
            if n == 0 {
                1
            } else {
                n as usize
            },
        ),
        None => None,
    }
}

fn to_widths(v: &Vec<char>) -> (w: Vec<usize>)
    ensures
        w@ == width_list(v@),
{
    let ps = split(v, '.');
    let mut w: Vec<usize> = Vec::new();
    let mut i: usize = 0;
    while i < ps.len()
        invariant
            i <= ps@.len(),
            texts(ps@) == pieces(v@, '.'),
            w@ == width_list(v@).take(i as int),
        decreases ps@.len() - i,
    {
        assert(texts(ps@)[i as int] == ps@[i as int]@);
        let n: usize = match at_least(&ps[i], 0) {
            Some(n) => n,
            None => 1,
        };
        w.push(n);
        i += 1;
        assert(w@ =~= width_list(v@).take(i as int));
    }
    assert(width_list(v@).take(ps@.len() as int) =~= width_list(v@));
    w
}

fn set_flag(c: Config, f: &Vec<char>) -> (r: Result<Config, SpecError>)
    ensures
        config_agrees(r, flag_read(c@, f@)),
{
    proof {
        reveal_strlit("oppw=");
        reveal_strlit("capw=");
        reveal_strlit("cap=");
        reveal_strlit("keep=");
        reveal_strlit("w=");
    }
    let mut c = c;
    if spells(f, "nocache") {
        c.cache = false;
    } else if spells(f, "cache") {
        c.cache = true;
    } else if spells(f, "ownwidth") {
        c.own_width = true;
    } else if spells(f, "keeptt") {
        c.keep_tt = true;
    } else if spells(f, "beamfirst") {
        c.beam_first = true;
    } else if spells(f, "scorefirst") {
        c.beam_first = false;
    } else if spells(f, "nocapw") {
        c.cap_per_width = None;
    } else if starts_with(f, "oppw=") {
        match at_least(f, 5) {
            Some(n) => {
                c.opp_width = n;
            },
            None => {
                return zero(SpecFault::OppWidth);
            },
        }
    } else if starts_with(f, "capw=") {
        let tail = part(f, 5, f.len());
        assert(tail@ =~= f@.skip(5));
        match parse_number(&tail, usize::MAX as u64) {
            Some(n) => {
                if n == 0 {
                    return zero(SpecFault::CapPerWidth);
                }
                c.cap_per_width = Some(n as usize);
            },
            None => {
                return zero(SpecFault::CapPerWidth);
            },
        }
    } else if starts_with(f, "cap=") {
        match at_least(f, 4) {
            Some(n) => {
                c.interior_cap = n;
            },
            None => {
                return zero(SpecFault::InteriorCap);
            },
        }
    } else if starts_with(f, "keep=") {
        match at_least(f, 5) {
            Some(n) => {
                c.keep = n;
            },
            None => {
                return zero(SpecFault::Keep);
            },
        }
    } else if starts_with(f, "w=") {
        let tail = part(f, 2, f.len());
        assert(tail@ =~= f@.skip(2));
        c.widths = to_widths(&tail);
    } else {
        return wrong(SpecFault::MinimaxFlag, f);
    }
    Ok(c)
}

fn set_flags(c: Config, fs: &Vec<Vec<char>>) -> (r: Result<Config, SpecError>)
    ensures
        config_agrees(r, flags_read(c@, texts(fs@))),
{
    let ghost c0 = c@;
    let ghost all = texts(fs@);
    let mut now = c;
    let mut i: usize = 0;
    assert(all.skip(0) =~= all);
    while i < fs.len()
        invariant
            i <= fs@.len(),
            all == texts(fs@),
            c0 == c@,
            flags_read(now@, all.skip(i as int)) == flags_read(c0, all),
        decreases fs@.len() - i,
    {
        assert(all.skip(i as int)[0] == fs@[i as int]@);
        assert(all.skip(i as int).drop_first() =~= all.skip(i + 1));
        if fs[i].len() > 0 {
            match set_flag(now, &fs[i]) {
                Ok(d) => {
                    now = d;
                },
                Err(e) => {
                    return Err(e);
                },
            }
        }
        i += 1;
    }
    Ok(now)
}

fn set_fields(c: Config, base: &Vec<usize>, f: &Vec<Vec<char>>) -> (r: Result<Config, SpecError>)
    requires
        base@.len() > 0,
        base@[0] > 0,
    ensures
        config_agrees(r, after_fields(c@, base@, texts(f@))),
{
    let mut c = c;
    match number_field(f, 0, SpecFault::Depth) {
        Err(e) => {
            return Err(e);
        },
        Ok(None) => {},
        Ok(Some(d)) => {
            if d == 0 {
                return zero(SpecFault::DepthZero);
            }
            c.max_depth = if d < 255 {
                d as u8
            } else {
                255
            };
        },
    }
    match number_field(f, 1, SpecFault::Millis) {
        Err(e) => {
            return Err(e);
        },
        Ok(None) => {},
        Ok(Some(ms)) => {
            c.budget_ms = ms;
        },
    }
    match number_field(f, 2, SpecFault::Width) {
        Err(e) => {
            return Err(e);
        },
        Ok(None) => {},
        Ok(Some(w)) => {
            if w == 0 {
                return zero(SpecFault::WidthZero);
            }
            match to_taper(base, w) {
                Some(v) => {
                    c.widths = v;
                },
                None => {
                    return zero(SpecFault::WidthTooLarge);
                },
            }
        },
    }
    if f.len() > 3 && f[3].len() > 0 {
        assert(texts(f@)[3] == f@[3]@);
        if spells(&f[3], "paranoid") {
            c.opponents = Opponents::Paranoid;
        } else if spells(&f[3], "greedy") {
            c.opponents = Opponents::Greedy;
        } else {
            return wrong(SpecFault::Model, &f[3]);
        }
    }
    Ok(c)
}

/// Read `DEPTH[:MS[:WIDTH[:MODEL[:FLAGS]]]]`, each field left out or empty taking
/// its value from `base`. A root width so large that the plies below it could
/// not be counted is refused.
pub fn parse_minimax(rest: Option<&Vec<char>>, base: &Config) -> (r: Result<Config, SpecError>)
    requires
        base.widths@.len() > 0,
        base.widths@[0] > 0,
    ensures
        config_agrees(
            r,
            minimax_read(
                match rest {
                    Some(v) => Some(v@),
                    None => None,
                },
                base@,
            ),
        ),
{
    let v = match rest {
        Some(v) => v,
        None => {
            return Ok(base.again());
        },
    };
    let f = split(v, ':');
    let ghost all = texts(f@);
    let mut c = match set_fields(base.again(), &base.widths, &f) {
        Ok(c) => c,
        Err(e) => {
            return Err(e);
        },
    };
    if f.len() > 4 {
        assert(all[4] == f@[4]@);
        let fs = split(&f[4], ',');
        match set_flags(c, &fs) {
            Ok(d) => {
                c = d;
            },
            Err(e) => {
                return Err(e);
            },
        }
    }
    if f.len() > 5 {
        assert(all[5] == f@[5]@);
        return wrong(SpecFault::MinimaxExtra, &f[5]);
    }
    Ok(c)
}

// ---- naming --------------------------------------------------------------

/// A word of a name, where it is shown.
pub open spec fn said(shown: bool, word: Seq<char>) -> Seq<char> {
    if shown {
        word
    } else {
        Seq::empty()
    }
}

/// Widths with dots between them.
pub open spec fn dotted(v: Seq<usize>) -> Seq<char>
    decreases v.len(),
{
    if v.len() == 0 {
        Seq::empty()
    } else if v.len() == 1 {
        digits(v[0] as nat)
    } else {
        dotted(v.drop_last()) + "."@ + digits(v.last() as nat)
    }
}

/// Whether widths are the ones their root implies.
pub open spec fn implied(v: Seq<usize>, base: Seq<usize>, w: int) -> bool {
    v.len() == base.len() && forall|i: int| 0 <= i < v.len() ==> #[trigger] v[i] == scaled(base, w, i)
}

/// The head of an alpha-beta agent's name.
pub open spec fn minimax_head(c: Shape) -> Seq<char> {
    "minimax:d"@ + digits(c.max_depth as nat) + ":"@ + digits(c.budget_ms as nat) + "ms:w"@
        + digits(width(c.widths, 0) as nat) + (if c.opponents == Opponents::Paranoid {
        ":paranoid"@
    } else {
        ":greedy"@
    })
}

/// An alpha-beta agent's name: its depth, budget, root width and opponent
/// model, and whatever differs from `d`.
pub open spec fn minimax_name(c: Shape, d: Shape) -> Seq<char> {
    minimax_head(c) + said(c.cache != d.cache, if c.cache {
        ":cache"@
    } else {
        ":nocache"@
    }) + said(c.own_width != d.own_width, ":ownwidth"@) + said(c.keep_tt != d.keep_tt, ":keeptt"@)
        + said(c.beam_first != d.beam_first, if c.beam_first {
        ":beamfirst"@
    } else {
        ":scorefirst"@
    }) + said(c.opp_width != d.opp_width, ":oppw"@ + digits(c.opp_width as nat)) + said(
        c.cap_per_width != d.cap_per_width,
        match c.cap_per_width {
            Some(k) => ":capw"@ + digits(k as nat),
            None => ":nocapw"@,
        },
    ) + said(c.interior_cap != d.interior_cap, ":cap"@ + digits(c.interior_cap as nat)) + said(
        c.keep != d.keep,
        ":keep"@ + digits(c.keep as nat),
    ) + said(
        !implied(c.widths, d.widths, width(c.widths, 0) as int),
        ":w["@ + dotted(c.widths) + "]"@,
    )
}

fn say(s: &mut String, shown: bool, word: &str)
    ensures
        final(s)@ == old(s)@ + said(shown, word@),
{
    if shown {
        s.append(word);
    }
    assert(s@ =~= old(s)@ + said(shown, word@));
}

fn say_number(s: &mut String, shown: bool, word: &str, n: usize)
    ensures
        final(s)@ == old(s)@ + said(shown, word@ + digits(n as nat)),
{
    if shown {
        s.append(word);
        push_number(s, n as u64);
    }
    assert(s@ =~= old(s)@ + said(shown, word@ + digits(n as nat)));
}

fn push_dotted(s: &mut String, v: &Vec<usize>)
    ensures
        final(s)@ == old(s)@ + dotted(v@),
{
    let mut i: usize = 0;
    assert(s@ =~= old(s)@ + dotted(v@.take(0)));
    while i < v.len()
        invariant
            i <= v@.len(),
            s@ == old(s)@ + dotted(v@.take(i as int)),
        decreases v@.len() - i,
    {
        let ghost t = v@.take(i + 1);
        assert(t.drop_last() =~= v@.take(i as int));
        if i > 0 {
            s.append(".");
        }
        push_number(s, v[i] as u64);
        assert(s@ =~= old(s)@ + dotted(t));
        i += 1;
    }
    assert(v@.take(v@.len() as int) =~= v@);
}

fn is_implied(v: &Vec<usize>, base: &Vec<usize>, w: usize) -> (b: bool)
    requires
        base@.len() > 0,
        base@[0] > 0,
    ensures
        b == implied(v@, base@, w as int),
{
    if v.len() != base.len() {
        return false;
    }
    let mut i: usize = 0;
    while i < v.len()
        invariant
            i <= v@.len(),
            v@.len() == base@.len(),
            base@[0] > 0,
            forall|j: int| 0 <= j < i ==> #[trigger] v@[j] == scaled(base@, w as int, j),
        decreases v@.len() - i,
    {
        let b: usize = base[i];
        proof {
            assert(b * w <= 0xFFFF_FFFF_FFFF_FFFF * 0xFFFF_FFFF_FFFF_FFFF) by (nonlinear_arith)
                requires
                    b <= 0xFFFF_FFFF_FFFF_FFFF,
                    w <= 0xFFFF_FFFF_FFFF_FFFF,
            ;
        }
        let x: u128 = b as u128 * w as u128 / base[0] as u128;
        let y: u128 = if i == 0 {
            w as u128
        } else if x < 2 {
            2
        } else {
            x
        };
        if v[i] as u128 != y {
            assert(v@[i as int] != scaled(base@, w as int, i as int));
            return false;
        }
        i += 1;
    }
    true
}

/// An alpha-beta agent's name. Whatever differs from the defaults `d` shows, or
/// two variants raced against each other would print the same.
pub fn minimax_label(c: &Config, d: &Config) -> (s: String)
    requires
        d.widths@.len() > 0,
        d.widths@[0] > 0,
    ensures
        s@ == minimax_name(c@, d@),
{
    let w: usize = c.width_at(0);
    let mut s = String::new();
    s.append("minimax:d");
    push_number(&mut s, c.max_depth as u64);
    s.append(":");
    push_number(&mut s, c.budget_ms);
    s.append("ms:w");
    push_number(&mut s, w as u64);
    match c.opponents {
        Opponents::Paranoid => {
            s.append(":paranoid");
        },
        Opponents::Greedy => {
            s.append(":greedy");
        },
    }
    assert(s@ =~= minimax_head(c@));
    say(
        &mut s,
        c.cache != d.cache,
        if c.cache {
            ":cache"
        } else {
            ":nocache"
        },
    );
    say(&mut s, c.own_width != d.own_width, ":ownwidth");
    say(&mut s, c.keep_tt != d.keep_tt, ":keeptt");
    say(
        &mut s,
        c.beam_first != d.beam_first,
        if c.beam_first {
            ":beamfirst"
        } else {
            ":scorefirst"
        },
    );
    say_number(&mut s, c.opp_width != d.opp_width, ":oppw", c.opp_width);
    let same_cap = match (c.cap_per_width, d.cap_per_width) {
        (None, None) => true,
        (Some(a), Some(b)) => a == b,
        _ => false,
    };
    match c.cap_per_width {
        Some(k) => say_number(&mut s, !same_cap, ":capw", k),
        None => say(&mut s, !same_cap, ":nocapw"),
    }
    say_number(&mut s, c.interior_cap != d.interior_cap, ":cap", c.interior_cap);
    say_number(&mut s, c.keep != d.keep, ":keep", c.keep);
    let plain = is_implied(&c.widths, &d.widths, w);
    let ghost s0 = s@;
    if !plain {
        s.append(":w[");
        push_dotted(&mut s, &c.widths);
        s.append("]");
        assert(s@ =~= s0 + (":w["@ + dotted(c.widths@) + "]"@));
    } else {
        assert(s@ =~= s0 + Seq::<char>::empty());
    }
    s
}

} // verus!
