//! What a player's spec spells: which parts a text falls into, and which setting
//! each part reaches.

use crate::fields::{
    all_digits, cut, cut_last, first_at, is_digit, last_at, lemma_first_at, numbers_read_back, pieces,
    read_number, spelled,
};
use crate::mcts::{shipped, MctsConfig, Priors};
use crate::minimax::{
    after_fields, count_after, flag_read, flags_read, minimax_read, scaled, scales, taper, width_list,
    Fails, Shape,
};
use crate::search::Opponents;
use crate::specs::{
    backend_read, candidates_read, flag_like, is_flags, mcts_flag_read, mcts_flags_read,
    search_read, sims_read, spec_read, Candidates, Kind, Parts, Source, SpecFault, Wrong,
};
use crate::text::digits;
use vstd::prelude::*;
use vstd::string::*;

verus! {

// ---- parts ---------------------------------------------------------------

/// Two texts with a character between them.
pub open spec fn joined(a: Seq<char>, c: char, b: Seq<char>) -> Seq<char> {
    a + seq![c] + b
}

/// A text is cut at the first of a character: what stands in front holds none of
/// it, and the two parts with the character between them are the text. A text
/// without the character is not cut.
pub proof fn texts_are_cut_at_the_first(s: Seq<char>, c: char, a: Seq<char>, b: Seq<char>)
    ensures
        cut(s, c) is None <==> !s.contains(c),
        !a.contains(c) ==> cut(joined(a, c, b), c) == Some((a, b)),
        cut(s, c) matches Some((x, y)) ==> !x.contains(c) && s == joined(x, c, y),
{
    lemma_first_at(s, c, 0);
    let i = first_at(s, c, 0);
    if i < s.len() {
        assert(s.contains(s[i]));
        assert(s =~= joined(s.take(i), c, s.skip(i + 1)));
        assert(!s.take(i).contains(c)) by {
            if s.take(i).contains(c) {
                let k = s.take(i).index_of(c);
                assert(s[k] != c);
            }
        }
    } else if s.contains(c) {
        let k = s.index_of(c);
        assert(s[k] != c);
    }
    let t = joined(a, c, b);
    lemma_first_at(t, c, 0);
    let j = first_at(t, c, 0);
    if !a.contains(c) {
        assert(t[a.len() as int] == c);
        if j < a.len() {
            assert(t[j] == a[j]);
            assert(a.contains(a[j]));
        }
        assert(j == a.len());
        assert(t.take(j) =~= a);
        assert(t.skip(j + 1) =~= b);
    }
}

proof fn lemma_last_at(s: Seq<char>, c: char, i: int)
    requires
        0 <= i <= s.len(),
    ensures
        -1 <= last_at(s, c, i) < i || (i == 0 && last_at(s, c, i) == -1),
        last_at(s, c, i) >= 0 ==> s[last_at(s, c, i)] == c,
        forall|j: int| last_at(s, c, i) < j < i ==> s[j] != c,
    decreases i,
{
    if i > 0 && s[i - 1] != c {
        lemma_last_at(s, c, i - 1);
    }
}

/// The same at the last of a character.
pub proof fn texts_are_cut_at_the_last(s: Seq<char>, c: char, a: Seq<char>, b: Seq<char>)
    ensures
        cut_last(s, c) is None <==> !s.contains(c),
        !b.contains(c) ==> cut_last(joined(a, c, b), c) == Some((a, b)),
{
    lemma_last_at(s, c, s.len() as int);
    let i = last_at(s, c, s.len() as int);
    if i >= 0 {
        assert(s.contains(s[i]));
    } else if s.contains(c) {
        let k = s.index_of(c);
        assert(s[k] != c);
    }
    let t = joined(a, c, b);
    lemma_last_at(t, c, t.len() as int);
    let j = last_at(t, c, t.len() as int);
    if !b.contains(c) {
        assert(t[a.len() as int] == c);
        if j > a.len() {
            assert(t[j] == b[j - a.len() - 1]);
            assert(b.contains(b[j - a.len() - 1]));
        }
        assert(j == a.len());
        assert(t.take(j) =~= a);
        assert(t.skip(j + 1) =~= b);
    }
}

/// Pieces are what stands between the separators: the part in front of the first,
/// and then the pieces of the rest.
pub proof fn pieces_stand_between_separators(a: Seq<char>, c: char, b: Seq<char>)
    requires
        !a.contains(c),
    ensures
        pieces(a, c) == seq![a],
        pieces(joined(a, c, b), c) == seq![a] + pieces(b, c),
{
    let t = joined(a, c, b);
    lemma_first_at(t, c, 0);
    lemma_first_at(a, c, 0);
    let i = first_at(a, c, 0);
    if i < a.len() {
        assert(a.contains(a[i]));
    }
    let j = first_at(t, c, 0);
    assert(t[a.len() as int] == c);
    if j < a.len() {
        assert(t[j] == a[j]);
        assert(a.contains(a[j]));
    }
    assert(t.take(j) =~= a);
    assert(t.skip(j + 1) =~= b);
}

/// Digits spell a number tenfold at each further one, whatever sign of plus stands
/// in front, and nothing else spells one.
pub proof fn numbers_are_spelled_in_digits(s: Seq<char>, c: char, limit: nat)
    ensures
        read_number(s, limit) matches Some(n) ==> n <= limit,
        read_number(Seq::empty(), limit) is None,
        s.len() > 0 && all_digits(s) && spelled(s) <= limit ==> read_number(s, limit) == Some(
            spelled(s),
        ),
        spelled(s.push(c)) == spelled(s) * 10 + (c as nat - '0' as nat) as nat,
        is_digit(c) <==> '0' <= c && c <= '9',
{
    assert(s.push(c).drop_last() =~= s);
    if s.len() > 0 && all_digits(s) {
        assert(is_digit(s[0]));
    }
}

proof fn lemma_digits_hold_no(n: nat, c: char)
    requires
        !is_digit(c),
    ensures
        !digits(n).contains(c),
        digits(n).len() > 0,
{
    numbers_read_back(n, n);
    if digits(n).contains(c) {
        let k = digits(n).index_of(c);
        assert(is_digit(digits(n)[k]));
    }
}

// ---- alpha-beta players --------------------------------------------------

/// Four fields with colons between them.
pub open spec fn four_fields(a: Seq<char>, b: Seq<char>, c: Seq<char>, d: Seq<char>) -> Seq<char> {
    joined(a, ':', joined(b, ':', joined(c, ':', d)))
}

/// An alpha-beta player's fields are its depth, its milliseconds, its root width and
/// its model of the opponents, in that order: each number reaches its setting, the
/// depth held to what a byte holds; the widths below keep the proportion of those
/// they start from, rounded down and at least two; what no field names stays.
pub proof fn alpha_beta_fields_reach_their_settings(
    base: Shape,
    d: nat,
    ms: nat,
    w: nat,
    greedy: bool,
    i: int,
)
    requires
        d >= 1,
        d <= u64::MAX,
        ms <= u64::MAX,
        1 <= w <= u64::MAX,
        base.widths.len() > 0,
        base.widths[0] > 0,
        scales(base.widths, w as int),
        1 <= i < base.widths.len(),
    ensures
        ({
            let s = four_fields(
                digits(d),
                digits(ms),
                digits(w),
                if greedy {
                    "greedy"@
                } else {
                    "paranoid"@
                },
            );
            let r = minimax_read(Some(s), base);
            &&& r is Ok
            &&& r->Ok_0.max_depth == (if d > 255 {
                255
            } else {
                d as int
            })
            &&& r->Ok_0.budget_ms == ms
            &&& r->Ok_0.widths.len() == base.widths.len()
            &&& r->Ok_0.widths[0] == w
            &&& r->Ok_0.widths[i] == (if (base.widths[i] * w) / (base.widths[0] as int) < 2 {
                2
            } else {
                (base.widths[i] * w) / (base.widths[0] as int)
            })
            &&& r->Ok_0.opponents == (if greedy {
                Opponents::Greedy
            } else {
                Opponents::Paranoid
            })
            &&& r->Ok_0 == (Shape {
                max_depth: r->Ok_0.max_depth,
                budget_ms: r->Ok_0.budget_ms,
                widths: r->Ok_0.widths,
                opponents: r->Ok_0.opponents,
                ..base
            })
        }),
{
    reveal_strlit("greedy");
    reveal_strlit("paranoid");
    let m = if greedy {
        "greedy"@
    } else {
        "paranoid"@
    };
    lemma_digits_hold_no(d, ':');
    lemma_digits_hold_no(ms, ':');
    lemma_digits_hold_no(w, ':');
    assert(!m.contains(':')) by {
        if m.contains(':') {
            let k = m.index_of(':');
            assert(m[k] == ':');
        }
    }
    let s = four_fields(digits(d), digits(ms), digits(w), m);
    let s1 = joined(digits(ms), ':', joined(digits(w), ':', m));
    let s2 = joined(digits(w), ':', m);
    pieces_stand_between_separators(digits(d), ':', s1);
    pieces_stand_between_separators(digits(ms), ':', s2);
    pieces_stand_between_separators(digits(w), ':', m);
    pieces_stand_between_separators(m, ':', m);
    let f = pieces(s, ':');
    assert(f =~= seq![digits(d), digits(ms), digits(w), m]);
    numbers_read_back(d, u64::MAX as nat);
    numbers_read_back(ms, u64::MAX as nat);
    numbers_read_back(w, u64::MAX as nat);
    let t = taper(base.widths, w as int);
    assert(t[0] == w);
    assert(base.widths[i] * w <= usize::MAX);
    let x = (base.widths[i] * w) / (base.widths[0] as int);
    assert(0 <= x <= base.widths[i] * w) by (nonlinear_arith)
        requires
            x == (base.widths[i] * w) / (base.widths[0] as int),
            base.widths[0] > 0,
            base.widths[i] * w >= 0,
    ;
    assert(t[i] == scaled(base.widths, w as int, i) as usize);
}

/// Fields that are no numbers, a depth or a width of nothing, and a model that is
/// none are refused, each for what is wrong with it.
pub proof fn wrong_fields_are_refused(base: Shape, f: Seq<Seq<char>>)
    ensures
        f.len() > 0 && f[0].len() > 0 && read_number(f[0], u64::MAX as nat) is None ==> after_fields(
            base,
            base.widths,
            f,
        ) == Err::<Shape, Fails>((SpecFault::Depth, f[0])),
        f.len() > 0 && read_number(f[0], u64::MAX as nat) == Some(0nat) && f[0].len() > 0
            ==> after_fields(base, base.widths, f) is Err && after_fields(
            base,
            base.widths,
            f,
        )->Err_0.0 == SpecFault::DepthZero,
        f.len() == 0 ==> after_fields(base, base.widths, f) == Ok::<Shape, Fails>(base),
{
}

/// A bare word sets its switch.
pub proof fn words_set_their_switches(c: Shape)
    ensures
        flag_read(c, "cache"@) == Ok::<Shape, Fails>(Shape { cache: true, ..c }),
        flag_read(c, "nocache"@) == Ok::<Shape, Fails>(Shape { cache: false, ..c }),
        flag_read(c, "ownwidth"@) == Ok::<Shape, Fails>(Shape { own_width: true, ..c }),
        flag_read(c, "keeptt"@) == Ok::<Shape, Fails>(Shape { keep_tt: true, ..c }),
        flag_read(c, "beamfirst"@) == Ok::<Shape, Fails>(Shape { beam_first: true, ..c }),
        flag_read(c, "scorefirst"@) == Ok::<Shape, Fails>(Shape { beam_first: false, ..c }),
        flag_read(c, "nocapw"@) == Ok::<Shape, Fails>(Shape { cap_per_width: None, ..c }),
{
    reveal_strlit("cache");
    reveal_strlit("nocache");
    reveal_strlit("ownwidth");
    reveal_strlit("keeptt");
    reveal_strlit("beamfirst");
    reveal_strlit("scorefirst");
    reveal_strlit("nocapw");
    assert("cache"@.len() == 5 && "nocache"@.len() == 7 && "ownwidth"@.len() == 8);
    assert("keeptt"@.len() == 6 && "beamfirst"@.len() == 9 && "scorefirst"@.len() == 10);
    assert("nocapw"@.len() == 6 && "nocapw"@[0] == 'n' && "keeptt"@[0] == 'k');
}

proof fn lemma_keyed(key: Seq<char>, n: nat)
    requires
        n <= usize::MAX,
    ensures
        (key + digits(n)).skip(key.len() as int) == digits(n),
        (key + digits(n)).take(key.len() as int) == key,
        (key + digits(n)).len() > key.len(),
        count_after(key + digits(n), key.len() as int) == Some(
            if n == 0 {
                1nat
            } else {
                n
            },
        ),
        read_number((key + digits(n)).skip(key.len() as int), usize::MAX as nat) == Some(n),
{
    let s = key + digits(n);
    assert(s.skip(key.len() as int) =~= digits(n));
    assert(s.take(key.len() as int) =~= key);
    numbers_read_back(n, usize::MAX as nat);
}

/// A key with a number behind it sets its number: at least one for the widths and
/// the counts, and none for the moves a width is worth is refused.
pub proof fn keys_set_their_numbers(c: Shape, n: nat)
    requires
        n <= usize::MAX,
    ensures
        ({
            let k: usize = if n == 0 {
                1
            } else {
                n as usize
            };
            &&& flag_read(c, "oppw="@ + digits(n)) == Ok::<Shape, Fails>(Shape { opp_width: k, ..c })
            &&& flag_read(c, "cap="@ + digits(n)) == Ok::<Shape, Fails>(
                Shape { interior_cap: k, ..c },
            )
            &&& flag_read(c, "keep="@ + digits(n)) == Ok::<Shape, Fails>(Shape { keep: k, ..c })
            &&& n > 0 ==> flag_read(c, "capw="@ + digits(n)) == Ok::<Shape, Fails>(
                Shape { cap_per_width: Some(k), ..c },
            )
            &&& n == 0 ==> flag_read(c, "capw="@ + digits(n)) is Err
        }),
{
    reveal_strlit("cache");
    reveal_strlit("nocache");
    reveal_strlit("ownwidth");
    reveal_strlit("keeptt");
    reveal_strlit("beamfirst");
    reveal_strlit("scorefirst");
    reveal_strlit("nocapw");
    reveal_strlit("oppw=");
    reveal_strlit("capw=");
    reveal_strlit("cap=");
    reveal_strlit("keep=");
    lemma_keyed("oppw="@, n);
    lemma_keyed("capw="@, n);
    lemma_keyed("cap="@, n);
    lemma_keyed("keep="@, n);
    let a = "oppw="@ + digits(n);
    let b = "capw="@ + digits(n);
    let d = "cap="@ + digits(n);
    let e = "keep="@ + digits(n);
    assert(a[0] == 'o' && a[1] == 'p' && a[4] == '=');
    assert(b[0] == 'c' && b[3] == 'w' && b[4] == '=');
    assert(d[0] == 'c' && d[3] == '=');
    assert(e[0] == 'k' && e[4] == '=');
    assert("cache"@[3] == 'h' && "ownwidth"@[1] == 'w' && "keeptt"@[4] == 't');
    assert("nocache"@[0] == 'n' && "nocapw"@[0] == 'n' && "beamfirst"@[0] == 'b' && "scorefirst"@[0]
        == 's');
    assert(b.take(5)[0] == 'c' && "oppw="@[0] == 'o');
    assert(d.take(5)[3] == '=' && "capw="@[3] == 'w' && d.take(5)[0] == 'c');
    assert(e.take(5)[0] == 'k' && e.take(4)[0] == 'k' && "cap="@[0] == 'c' && "capw="@[0] == 'c');
}

/// Flags are set one after another, empty ones left out.
pub proof fn flags_are_set_in_turn(c: Shape, d: Shape, f: Seq<char>, fs: Seq<Seq<char>>)
    ensures
        flags_read(c, Seq::empty()) == Ok::<Shape, Fails>(c),
        f.len() > 0 && flag_read(c, f) == Ok::<Shape, Fails>(d) ==> flags_read(c, seq![f] + fs)
            == flags_read(d, fs),
        flags_read(c, seq![Seq::<char>::empty()] + fs) == flags_read(c, fs),
{
    assert((seq![f] + fs).drop_first() =~= fs);
    assert((seq![Seq::<char>::empty()] + fs).drop_first() =~= fs);
}

// ---- searching players ---------------------------------------------------

proof fn lemma_key(k: Seq<char>, v: Seq<char>)
    requires
        !k.contains('='),
    ensures
        crate::specs::key_value(joined(k, '=', v)) == (k, v),
{
    texts_are_cut_at_the_first(k, '=', k, v);
}

/// A search's fractions: each key's value reaches its knob as the host read it, and
/// the base of the exploration is never less than one.
pub proof fn fractions_reach_their_knobs(c: MctsConfig, v: Seq<char>, b: u32)
    ensures
        ({
            let read = |k: Seq<char>| mcts_flag_read(c, joined(k, '=', v), Some(b));
            &&& read("ptemp"@) == Ok::<MctsConfig, Wrong>(MctsConfig { prior_temp: b, ..c })
            &&& read("cpuct"@) == Ok::<MctsConfig, Wrong>(MctsConfig { c_puct_init: b, ..c })
            &&& read("fpu"@) == Ok::<MctsConfig, Wrong>(MctsConfig { fpu_reduction: b, ..c })
            &&& read("wc"@) == Ok::<MctsConfig, Wrong>(MctsConfig { widen_c: b, ..c })
            &&& read("wa"@) == Ok::<MctsConfig, Wrong>(MctsConfig { widen_alpha: b, ..c })
            &&& 0x3F80_0000 <= b <= 0x7F80_0000 ==> read("cpbase"@) == Ok::<MctsConfig, Wrong>(
                MctsConfig { c_puct_base: b, ..c },
            )
            &&& b < 0x3F80_0000 || b > 0x7F80_0000 ==> read("cpbase"@) == Ok::<MctsConfig, Wrong>(
                MctsConfig { c_puct_base: 0x3F80_0000, ..c },
            )
        }),
{
    lemma_words();
    lemma_key("ptemp"@, v);
    lemma_key("cpuct"@, v);
    lemma_key("fpu"@, v);
    lemma_key("wc"@, v);
    lemma_key("wa"@, v);
    lemma_key("cpbase"@, v);
}

/// A search's numbers: each key's number reaches its knob, at least one edge, one
/// cap and two edges for priors.
pub proof fn numbers_reach_their_knobs(c: MctsConfig, n: nat)
    requires
        n <= u32::MAX,
    ensures
        ({
            let read = |k: Seq<char>| mcts_flag_read(c, joined(k, '=', digits(n)), None);
            let one: usize = if n < 1 {
                1
            } else {
                n as usize
            };
            let two: usize = if n < 2 {
                2
            } else {
                n as usize
            };
            &&& read("k"@) == Ok::<MctsConfig, Wrong>(MctsConfig { max_edges: one, ..c })
            &&& read("wcap"@) == Ok::<MctsConfig, Wrong>(MctsConfig { widen_cap: one, ..c })
            &&& read("pmin"@) == Ok::<MctsConfig, Wrong>(MctsConfig { prior_min_edges: two, ..c })
            &&& read("vl"@) == Ok::<MctsConfig, Wrong>(MctsConfig { virtual_loss: n as u32, ..c })
        }),
{
    lemma_words();
    lemma_key("k"@, digits(n));
    lemma_key("wcap"@, digits(n));
    lemma_key("pmin"@, digits(n));
    lemma_key("vl"@, digits(n));
    numbers_read_back(n, usize::MAX as nat);
}

/// A search's words: where the priors come from, and whether the tree is carried
/// on.
pub proof fn words_reach_their_knobs(c: MctsConfig, bits: Option<u32>)
    ensures
        mcts_flag_read(c, "reuse"@, bits) == Ok::<MctsConfig, Wrong>(
            MctsConfig { tree_reuse: true, ..c },
        ),
        mcts_flag_read(c, "noreuse"@, bits) == Ok::<MctsConfig, Wrong>(
            MctsConfig { tree_reuse: false, ..c },
        ),
        mcts_flag_read(c, joined("priors"@, '=', "eval"@), bits) == Ok::<MctsConfig, Wrong>(
            MctsConfig { priors: Priors::Evaluator, ..c },
        ),
        mcts_flag_read(c, joined("priors"@, '=', "1ply"@), bits) == Ok::<MctsConfig, Wrong>(
            MctsConfig { priors: Priors::OnePly, ..c },
        ),
{
    lemma_words();
    lemma_key("priors"@, "eval"@);
    lemma_key("priors"@, "1ply"@);
    reveal_strlit("eval");
    reveal_strlit("evaluator");
    reveal_strlit("uniform");
    reveal_strlit("1ply");
    assert("1ply"@[0] == '1' && "eval"@[0] == 'e');
    texts_are_cut_at_the_first("reuse"@, '=', Seq::empty(), Seq::empty());
    texts_are_cut_at_the_first("noreuse"@, '=', Seq::empty(), Seq::empty());
}

spec fn plain(s: Seq<char>) -> bool {
    !s.contains('=')
}

proof fn lemma_words()
    ensures
        plain("priors"@) && plain("pri"@) && plain("ptemp"@) && plain("pt"@) && plain("pmin"@),
        plain("cpuct"@) && plain("cp"@) && plain("cpbase"@) && plain("cpb"@) && plain("fpu"@),
        plain("k"@) && plain("maxedges"@) && plain("wc"@) && plain("widenc"@) && plain("wa"@),
        plain("widenalpha"@) && plain("wcap"@) && plain("vl"@) && plain("reuse"@) && plain("noreuse"@),
        "priors"@.len() == 6 && "pri"@.len() == 3 && "ptemp"@.len() == 5 && "pt"@.len() == 2,
        "pmin"@.len() == 4 && "cpuct"@.len() == 5 && "cp"@.len() == 2 && "cpbase"@.len() == 6,
        "cpb"@.len() == 3 && "fpu"@.len() == 3 && "k"@.len() == 1 && "maxedges"@.len() == 8,
        "wc"@.len() == 2 && "widenc"@.len() == 6 && "wa"@.len() == 2 && "widenalpha"@.len() == 10,
        "wcap"@.len() == 4 && "vl"@.len() == 2 && "reuse"@.len() == 5 && "noreuse"@.len() == 7,
        "priors"@[0] == 'p' && "pri"@[0] == 'p' && "ptemp"@[0] == 'p' && "pt"@[0] == 'p',
        "pmin"@[0] == 'p' && "cpuct"@[0] == 'c' && "cp"@[0] == 'c' && "cpbase"@[0] == 'c',
        "cpb"@[0] == 'c' && "fpu"@[0] == 'f' && "k"@[0] == 'k' && "maxedges"@[0] == 'm',
        "wc"@[0] == 'w' && "widenc"@[0] == 'w' && "wa"@[0] == 'w' && "widenalpha"@[0] == 'w',
        "wcap"@[0] == 'w' && "vl"@[0] == 'v' && "reuse"@[0] == 'r' && "noreuse"@[0] == 'n',
        "wc"@[1] == 'c' && "wa"@[1] == 'a',
{
    reveal_strlit("priors");
    reveal_strlit("pri");
    reveal_strlit("ptemp");
    reveal_strlit("pt");
    reveal_strlit("pmin");
    reveal_strlit("cpuct");
    reveal_strlit("cp");
    reveal_strlit("cpbase");
    reveal_strlit("cpb");
    reveal_strlit("fpu");
    reveal_strlit("k");
    reveal_strlit("maxedges");
    reveal_strlit("wc");
    reveal_strlit("widenc");
    reveal_strlit("wa");
    reveal_strlit("widenalpha");
    reveal_strlit("wcap");
    reveal_strlit("vl");
    reveal_strlit("reuse");
    reveal_strlit("noreuse");
}

/// A budget is the number it is written as, and none is refused.
pub proof fn budgets_are_what_they_say(n: nat)
    requires
        n <= u32::MAX,
    ensures
        n > 0 ==> sims_read(digits(n)) == Ok::<u32, Wrong>(n as u32),
        n == 0 ==> sims_read(digits(n)) is Err && sims_read(digits(n))->Err_0.0
            == SpecFault::SimsZero,
{
    numbers_read_back(n, u64::MAX as nat);
}

/// How many turns a greedy player draws is the number it is written as, thirty-two
/// where none is written; `full` and `all` are every move, and none is refused.
pub proof fn greedy_counts_are_what_they_say(n: nat, greedy: bool)
    requires
        n <= usize::MAX,
    ensures
        candidates_read(None, greedy) == Ok::<Candidates, Wrong>(Candidates::Sampled(32)),
        candidates_read(Some("full"@), greedy) == Ok::<Candidates, Wrong>(Candidates::All),
        candidates_read(Some("all"@), greedy) == Ok::<Candidates, Wrong>(Candidates::All),
        n > 0 ==> candidates_read(Some(digits(n)), greedy) == Ok::<Candidates, Wrong>(
            Candidates::Sampled(n as usize),
        ),
        n == 0 ==> candidates_read(Some(digits(n)), greedy) is Err,
{
    numbers_read_back(n, usize::MAX as nat);
    reveal_strlit("full");
    reveal_strlit("all");
    assert(is_digit(digits(n)[0]));
    assert("full"@[0] == 'f' && "all"@[0] == 'a');
}

/// The first word of a spec names the player: random, heuristic, greedy, minimax or
/// mcts; what follows its colon is read as that player's own.
pub proof fn specs_start_with_the_player(rest: Seq<char>, bits: Seq<Option<u32>>, base: Shape)
    ensures
        ({
            let plain = (Source::Heuristic, "heuristic"@);
            let with = |head: Seq<char>| spec_read(joined(head, ':', rest), bits, base);
            &&& spec_read("random"@, bits, base) == Ok::<Parts, Wrong>((Kind::Random, plain))
            &&& spec_read("heuristic"@, bits, base) == Ok::<Parts, Wrong>(
                (Kind::Greedy(Candidates::Sampled(32)), plain),
            )
            &&& candidates_read(Some(rest), false) is Ok ==> with("heuristic"@) == Ok::<
                Parts,
                Wrong,
            >((Kind::Greedy(candidates_read(Some(rest), false)->Ok_0), plain))
            &&& spec_read("minimax"@, bits, base) == Ok::<Parts, Wrong>((Kind::Minimax(base), plain))
            &&& minimax_read(Some(rest), base) is Ok ==> with("minimax"@) == Ok::<Parts, Wrong>(
                (Kind::Minimax(minimax_read(Some(rest), base)->Ok_0), plain),
            )
            &&& minimax_read(Some(rest), base) is Err ==> with("minimax"@) is Err
            &&& with("mcts"@) == search_read(rest, bits)
            &&& spec_read("mcts"@, bits, base) is Err
            &&& spec_read("greedy"@, bits, base) is Err
        }),
{
    reveal_strlit("random");
    reveal_strlit("heuristic");
    reveal_strlit("greedy");
    reveal_strlit("minimax");
    reveal_strlit("mcts");
    lemma_no_colon("random"@);
    lemma_no_colon("heuristic"@);
    lemma_no_colon("greedy"@);
    lemma_no_colon("minimax"@);
    lemma_no_colon("mcts"@);
    texts_are_cut_at_the_first("random"@, ':', "heuristic"@, rest);
    texts_are_cut_at_the_first("heuristic"@, ':', "minimax"@, rest);
    texts_are_cut_at_the_first("greedy"@, ':', "mcts"@, rest);
    texts_are_cut_at_the_first("minimax"@, ':', "mcts"@, rest);
    texts_are_cut_at_the_first("mcts"@, ':', "mcts"@, rest);
    assert("random"@[0] == 'r' && "heuristic"@[0] == 'h' && "greedy"@[0] == 'g' && "minimax"@[0]
        == 'm');
    assert("minimax"@.len() == 7 && "mcts"@.len() == 4 && "random"@.len() == 6 && "greedy"@.len()
        == 6);
}

proof fn lemma_no_colon(s: Seq<char>)
    requires
        forall|i: int| 0 <= i < s.len() ==> s[i] != ':',
    ensures
        !s.contains(':'),
{
    if s.contains(':') {
        let k = s.index_of(':');
        assert(s[k] == ':');
    }
}

/// A search of so many simulations with an evaluator that is no list of flags has
/// the knobs as shipped.
pub proof fn plain_searches_have_the_shipped_knobs(n: nat, ev: Seq<char>, bits: Seq<Option<u32>>)
    requires
        1 <= n <= u32::MAX,
        !ev.contains(':'),
        !is_flags(ev),
        backend_read(ev) is Ok,
    ensures
        search_read(joined(digits(n), ':', ev), bits) == Ok::<Parts, Wrong>(
            (Kind::Search(n as u32, shipped()), backend_read(ev)->Ok_0),
        ),
{
    lemma_digits_hold_no(n, ':');
    texts_are_cut_at_the_first(ev, ':', digits(n), ev);
    texts_are_cut_at_the_last(ev, ':', ev, ev);
    budgets_are_what_they_say(n);
    reveal_strlit("");
    assert(""@ =~= Seq::<char>::empty());
    pieces_stand_between_separators(""@, ',', ""@);
    let none = seq![""@];
    assert(pieces(""@, ',') == none);
    assert(none[0].len() == 0);
    reveal_with_fuel(mcts_flags_read, 3);
    assert(mcts_flags_read(shipped(), none, bits, 0) == Ok::<MctsConfig, Wrong>(shipped()));
}

/// A search that names a flag behind its evaluator has that knob as the flag says,
/// and is refused where the flag is.
pub proof fn flagged_searches_have_what_they_name(
    n: nat,
    ev: Seq<char>,
    f: Seq<char>,
    bits: Seq<Option<u32>>,
)
    requires
        1 <= n <= u32::MAX,
        !f.contains(':'),
        !f.contains(','),
        f.contains('='),
        backend_read(ev) is Ok,
        bits.len() > 0,
    ensures
        search_read(joined(digits(n), ':', joined(ev, ':', f)), bits) == match mcts_flag_read(
            shipped(),
            f,
            bits[0],
        ) {
            Ok(c) => Ok::<Parts, Wrong>((Kind::Search(n as u32, c), backend_read(ev)->Ok_0)),
            Err(e) => Err::<Parts, Wrong>(e),
        },
{
    let tail = joined(ev, ':', f);
    lemma_digits_hold_no(n, ':');
    texts_are_cut_at_the_first(tail, ':', digits(n), tail);
    texts_are_cut_at_the_last(tail, ':', ev, f);
    budgets_are_what_they_say(n);
    pieces_stand_between_separators(f, ',', f);
    let one = seq![f];
    assert(pieces(f, ',') == one);
    assert(f.len() > 0);
    assert(flag_like(one[0]));
    assert(is_flags(f));
    reveal_with_fuel(mcts_flags_read, 3);
}

/// Widths are listed with dots between them, each at least one, and one stands in
/// for what is no number.
pub proof fn widths_are_listed_between_dots(n: nat, a: Seq<char>, b: Seq<char>)
    requires
        n <= usize::MAX,
        !a.contains('.'),
    ensures
        width_list(digits(n)) == seq![
            if n == 0 {
                1usize
            } else {
                n as usize
            },
        ],
        width_list(joined(a, '.', b)) == width_list(a) + width_list(b),
        read_number(a, usize::MAX as nat) is None ==> width_list(a) == seq![1usize],
{
    lemma_digits_hold_no(n, '.');
    pieces_stand_between_separators(digits(n), '.', b);
    pieces_stand_between_separators(a, '.', b);
    numbers_read_back(n, usize::MAX as nat);
    assert(digits(n).skip(0) =~= digits(n));
    assert(a.skip(0) =~= a);
    let d = width_list(digits(n));
    assert(seq![digits(n)][0] == digits(n));
    assert(d.len() == 1);
    assert(d =~= seq![
        if n == 0 {
            1usize
        } else {
            n as usize
        },
    ]);
    assert(width_list(a) =~= seq![width_list(a)[0]]);
    let all = width_list(joined(a, '.', b));
    assert(all =~= width_list(a) + width_list(b));
}

/// The widths a flag names are those of the list behind it.
pub proof fn named_widths_are_taken_whole(c: Shape, v: Seq<char>)
    ensures
        flag_read(c, "w="@ + v) == Ok::<Shape, Fails>(Shape { widths: width_list(v), ..c }),
{
    reveal_strlit("cache");
    reveal_strlit("nocache");
    reveal_strlit("ownwidth");
    reveal_strlit("keeptt");
    reveal_strlit("beamfirst");
    reveal_strlit("scorefirst");
    reveal_strlit("nocapw");
    reveal_strlit("oppw=");
    reveal_strlit("capw=");
    reveal_strlit("cap=");
    reveal_strlit("keep=");
    reveal_strlit("w=");
    let f = "w="@ + v;
    assert(f.skip(2) =~= v);
    assert(f.take(2) =~= "w="@);
    assert(f[0] == 'w');
    assert(f.len() >= 5 ==> f.take(5)[0] == 'w');
    assert(f.len() >= 4 ==> f.take(4)[0] == 'w');
    assert("cache"@[0] == 'c' && "nocache"@[0] == 'n' && "ownwidth"@[0] == 'o' && "keeptt"@[0] == 'k');
    assert("beamfirst"@[0] == 'b' && "scorefirst"@[0] == 's' && "nocapw"@[0] == 'n');
    assert("oppw="@[0] == 'o' && "capw="@[0] == 'c' && "cap="@[0] == 'c' && "keep="@[0] == 'k');
}

/// The knobs a search is shipped with.
pub proof fn the_shipped_knobs()
    ensures
        shipped().max_edges == 32,
        shipped().widen_cap == 128,
        shipped().virtual_loss == 1,
        shipped().max_depth == 2048,
        shipped().prior_min_edges == 3,
        shipped().seed == 0,
        shipped().tree_reuse,
        shipped().priors == Priors::OnePly,
        shipped().c_puct_init == 0x4000_0000u32,
        shipped().c_puct_base == 0x4699_8800u32,
        shipped().fpu_reduction == 0x3E4C_CCCDu32,
        shipped().widen_c == 0x4000_0000u32,
        shipped().widen_alpha == 0x3F00_0000u32,
        shipped().temperature == 0x3F80_0000u32,
        shipped().dirichlet_eps == 0x3E80_0000u32,
        shipped().dirichlet_scale == 0x4120_0000u32,
{
}

} // verus!
