//! Globs within one path component: `*`, `?`, `[...]` and `\` escapes.

use vstd::prelude::*;

verus! {

/// One glob token within a path segment.
#[derive(Debug, PartialEq, Eq)]
pub enum Tok {
    /// `*`: any run of characters, including none.
    Any,
    /// `?`: exactly one character.
    One,
    /// `[...]`: one character from the class.
    Class { negated: bool, ranges: Vec<(char, char)> },
    /// A literal character.
    Char(char),
}

/// The tokens over an alphabet `C`, as values to reason about.
pub enum TokOf<C> {
    Any,
    One,
    Class { negated: bool, ranges: Seq<(C, C)> },
    Char(C),
}

/// What a [`Tok`] stands for.
pub type TokView = TokOf<char>;

impl View for Tok {
    type V = TokView;

    open spec fn view(&self) -> TokView {
        match self {
            Tok::Any => TokView::Any,
            Tok::One => TokView::One,
            Tok::Class { negated, ranges } => TokView::Class { negated: *negated, ranges: ranges@ },
            Tok::Char(c) => TokView::Char(*c),
        }
    }
}

impl Clone for Tok {
    fn clone(&self) -> (r: Self)
        ensures
            r@ == self@,
    {
        match self {
            Tok::Any => Tok::Any,
            Tok::One => Tok::One,
            Tok::Class { negated, ranges } => {
                let mut copy: Vec<(char, char)> = Vec::new();
                for i in 0..ranges.len()
                    invariant
                        copy@ == ranges@.take(i as int),
                {
                    copy.push(ranges[i]);
                    assert(ranges@.take(i + 1) =~= ranges@.take(i as int).push(ranges@[i as int]));
                }
                assert(ranges@.take(ranges@.len() as int) =~= ranges@);
                Tok::Class { negated: *negated, ranges: copy }
            },
            Tok::Char(c) => Tok::Char(*c),
        }
    }
}

/// Copies tokens.
pub fn copy_toks(toks: &[Tok]) -> (r: Vec<Tok>)
    ensures
        toks_view(r@) == toks_view(toks@),
{
    let mut out: Vec<Tok> = Vec::new();
    for i in 0..toks.len()
        invariant
            out@.len() == i,
            forall|j: int| 0 <= j < i ==> (#[trigger] out@[j])@ == toks@[j]@,
    {
        out.push(toks[i].clone());
    }
    assert(toks_view(out@) =~= toks_view(toks@));
    out
}

/// What a list of tokens stands for.
pub open spec fn toks_view(toks: Seq<Tok>) -> Seq<TokView> {
    toks.map_values(|tok: Tok| tok@)
}

/// Whether `c` lies in one of the ranges, ends included.
pub open spec fn in_ranges(ranges: Seq<(char, char)>, c: char) -> bool {
    exists|i: int| 0 <= i < ranges.len() && (#[trigger] ranges[i]).0 <= c && c <= ranges[i].1
}

/// Whether a token accepts the single character `c`.
pub open spec fn accepts(tok: TokView, c: char) -> bool {
    match tok {
        TokView::Any => true,
        TokView::One => true,
        TokView::Class { negated, ranges } => in_ranges(ranges, c) != negated,
        TokView::Char(x) => x == c,
    }
}

/// Whether the tokens match the whole of `s`: each token other than `*` takes
/// one character that it accepts, and `*` takes any run.
pub open spec fn glob(toks: Seq<TokView>, s: Seq<char>) -> bool
    decreases toks.len(), s.len(),
{
    if toks.len() == 0 {
        s.len() == 0
    } else if toks[0] is Any {
        glob(toks.skip(1), s) || (s.len() > 0 && glob(toks, s.skip(1)))
    } else {
        s.len() > 0 && accepts(toks[0], s[0]) && glob(toks.skip(1), s.skip(1))
    }
}

/// Whether a token accepts one character.
pub fn tok_matches(tok: &Tok, c: char) -> (r: bool)
    ensures
        r == accepts(tok@, c),
{
    match tok {
        Tok::Any | Tok::One => true,
        Tok::Char(x) => *x == c,
        Tok::Class { negated, ranges } => {
            let mut inside = false;
            for i in 0..ranges.len()
                invariant
                    inside == exists|j: int|
                        0 <= j < i && (#[trigger] ranges@[j]).0 <= c && c <= ranges@[j].1,
            {
                if ranges[i].0 <= c && c <= ranges[i].1 {
                    inside = true;
                }
            }
            inside != *negated
        },
    }
}

/// The run of tokens `from..to` has no `*`, and takes the characters of `s`
/// from `at` on, one each.
spec fn takes(toks: Seq<TokView>, s: Seq<char>, from: int, to: int, at: int) -> bool {
    forall|k: int|
        from <= k < to ==> !((#[trigger] toks[k]) is Any) && accepts(toks[k], s[at + (k - from)])
}

/// A `*` that can match from `d` on can match from any earlier place too.
proof fn lemma_any_absorbs(toks: Seq<TokView>, s: Seq<char>, c: int, d: int)
    requires
        toks.len() > 0,
        toks[0] is Any,
        0 <= c <= d <= s.len(),
        glob(toks, s.skip(d)),
    ensures
        glob(toks, s.skip(c)),
    decreases d - c,
{
    if c < d {
        lemma_any_absorbs(toks, s, c + 1, d);
        assert(s.skip(c).skip(1) =~= s.skip(c + 1));
    }
}

/// Where a `*` matches, the tokens after it match from some place on.
proof fn lemma_any_splits(toks: Seq<TokView>, s: Seq<char>, c: int) -> (d: int)
    requires
        toks.len() > 0,
        toks[0] is Any,
        0 <= c <= s.len(),
        glob(toks, s.skip(c)),
    ensures
        c <= d <= s.len(),
        glob(toks.skip(1), s.skip(d)),
    decreases s.len() - c,
{
    if glob(toks.skip(1), s.skip(c)) {
        c
    } else {
        assert(s.skip(c).skip(1) =~= s.skip(c + 1));
        lemma_any_splits(toks, s, c + 1)
    }
}

/// Tokens without a `*` take their characters in step.
proof fn lemma_run(toks: Seq<TokView>, s: Seq<char>, from: int, to: int, at: int)
    requires
        0 <= from <= to <= toks.len(),
        0 <= at,
        at + (to - from) <= s.len(),
        takes(toks, s, from, to, at),
    ensures
        glob(toks.skip(from), s.skip(at)) == glob(toks.skip(to), s.skip(at + (to - from))),
    decreases to - from,
{
    if from < to {
        assert(!(toks[from] is Any) && accepts(toks[from], s[at + (from - from)]));
        assert forall|k: int| from + 1 <= k < to implies !((#[trigger] toks[k]) is Any) && accepts(
            toks[k],
            s[at + 1 + (k - (from + 1))],
        ) by {
            assert(at + 1 + (k - (from + 1)) == at + (k - from));
        }
        lemma_run(toks, s, from + 1, to, at + 1);
        assert(toks.skip(from).skip(1) =~= toks.skip(from + 1));
        assert(s.skip(at).skip(1) =~= s.skip(at + 1));
        assert(toks.skip(from)[0] == toks[from]);
        assert(s.skip(at)[0] == s[at]);
    }
}

/// Tokens without a `*` need as many characters as they are, and leave the
/// rest of the tokens to match what comes after those.
proof fn lemma_run_needs(toks: Seq<TokView>, s: Seq<char>, from: int, to: int, at: int)
    requires
        0 <= from <= to <= toks.len(),
        0 <= at <= s.len(),
        forall|k: int| from <= k < to ==> !((#[trigger] toks[k]) is Any),
        glob(toks.skip(from), s.skip(at)),
    ensures
        at + (to - from) <= s.len(),
        glob(toks.skip(to), s.skip(at + (to - from))),
    decreases to - from,
{
    if from < to {
        assert(toks.skip(from)[0] == toks[from]);
        assert(toks.skip(from).skip(1) =~= toks.skip(from + 1));
        assert(s.skip(at).skip(1) =~= s.skip(at + 1));
        lemma_run_needs(toks, s, from + 1, to, at + 1);
    }
}

/// A mismatch after a `*`: the `*` has to take one more character.
proof fn lemma_star_advances(
    toks: Seq<TokView>,
    s: Seq<char>,
    st: int,
    sc: int,
    ti: int,
    ci: int,
)
    requires
        0 < st <= ti <= toks.len(),
        0 <= sc <= ci < s.len(),
        ti - st == ci - sc,
        toks[st - 1] is Any,
        takes(toks, s, st, ti, sc),
        !glob(toks.skip(ti), s.skip(ci)),
    ensures
        glob(toks.skip(st - 1), s.skip(sc)) == glob(toks.skip(st - 1), s.skip(sc + 1)),
{
    lemma_run(toks, s, st, ti, sc);
    assert(toks.skip(st - 1)[0] == toks[st - 1]);
    assert(toks.skip(st - 1).skip(1) =~= toks.skip(st));
    assert(s.skip(sc).skip(1) =~= s.skip(sc + 1));
}

/// A second `*` makes the first one's choice final: taking as little as it
/// could is as good as anything else.
proof fn lemma_star_settles(
    toks: Seq<TokView>,
    s: Seq<char>,
    st: int,
    sc: int,
    ti: int,
    ci: int,
)
    requires
        0 < st <= ti < toks.len(),
        0 <= sc <= ci <= s.len(),
        ti - st == ci - sc,
        toks[st - 1] is Any,
        toks[ti] is Any,
        takes(toks, s, st, ti, sc),
    ensures
        glob(toks.skip(st - 1), s.skip(sc)) == glob(toks.skip(ti), s.skip(ci)),
{
    lemma_run(toks, s, st, ti, sc);
    assert(toks.skip(st - 1)[0] == toks[st - 1]);
    assert(toks.skip(st - 1).skip(1) =~= toks.skip(st));
    if glob(toks.skip(st - 1), s.skip(sc)) {
        let d = lemma_any_splits(toks.skip(st - 1), s, sc);
        lemma_run_needs(toks, s, st, ti, d);
        assert(toks.skip(ti)[0] == toks[ti]);
        lemma_any_absorbs(toks.skip(ti), s, ci, d + (ti - st));
    }
}

/// At the end of the text the last `*` cannot have taken any more.
proof fn lemma_star_ends(toks: Seq<TokView>, s: Seq<char>, st: int, sc: int, ti: int)
    requires
        0 < st <= ti <= toks.len(),
        0 <= sc <= s.len(),
        ti - st == s.len() - sc,
        toks[st - 1] is Any,
        takes(toks, s, st, ti, sc),
    ensures
        glob(toks.skip(st - 1), s.skip(sc)) == glob(toks.skip(ti), s.skip(s.len() as int)),
{
    lemma_run(toks, s, st, ti, sc);
    assert(toks.skip(st - 1)[0] == toks[st - 1]);
    assert(toks.skip(st - 1).skip(1) =~= toks.skip(st));
    if glob(toks.skip(st - 1), s.skip(sc)) {
        let d = lemma_any_splits(toks.skip(st - 1), s, sc);
        lemma_run_needs(toks, s, st, ti, d);
        assert(d == sc);
    }
}

/// Matches glob tokens against one path component, going back to the last `*`
/// on a mismatch.
pub fn glob_match(toks: &[Tok], s: &[char]) -> (r: bool)
    ensures
        r == glob(toks_view(toks@), s@),
{
    let ghost t = toks_view(toks@);
    let mut ti: usize = 0;
    let mut ci: usize = 0;
    // The token after the last `*`, and the place from which it is tried.
    let mut star: Option<(usize, usize)> = None;
    assert(t.skip(0) =~= t);
    assert(s@.skip(0) =~= s@);
    while ci < s.len()
        invariant
            t == toks_view(toks@),
            0 <= ti <= t.len(),
            0 <= ci <= s@.len(),
            match star {
                None => {
                    &&& glob(t, s@) == glob(t.skip(ti as int), s@.skip(ci as int))
                },
                Some((st, sc)) => {
                    &&& 0 < st <= ti
                    &&& sc <= ci
                    &&& ti - st == ci - sc
                    &&& t[st - 1] is Any
                    &&& takes(t, s@, st as int, ti as int, sc as int)
                    &&& glob(t, s@) == glob(t.skip(st - 1), s@.skip(sc as int))
                },
            },
        decreases
            t.len() - (match star {
                Some((st, _)) => st as int,
                None => 0,
            }),
            s@.len() - (match star {
                Some((_, sc)) => sc as int,
                None => 0,
            }),
            t.len() - ti,
    {
        let ghost here = glob(t.skip(ti as int), s@.skip(ci as int));
        if ti < toks.len() {
            assert(t[ti as int] == toks@[ti as int]@);
            assert(t.skip(ti as int)[0] == t[ti as int]);
            assert(t.skip(ti as int).skip(1) =~= t.skip(ti + 1));
            assert(s@.skip(ci as int)[0] == s@[ci as int]);
            assert(s@.skip(ci as int).skip(1) =~= s@.skip(ci + 1));
            if matches!(toks[ti], Tok::Any) {
                proof {
                    if let Some((st, sc)) = star {
                        lemma_star_settles(t, s@, st as int, sc as int, ti as int, ci as int);
                    }
                }
                star = Some((ti + 1, ci));
                ti = ti + 1;
                continue;
            }
            if tok_matches(&toks[ti], s[ci]) {
                ti = ti + 1;
                ci = ci + 1;
                continue;
            }
        } else {
            assert(t.skip(ti as int).len() == 0);
            assert(s@.skip(ci as int).len() > 0);
        }
        assert(!here);
        match star {
            Some((st, sc)) => {
                proof {
                    lemma_star_advances(t, s@, st as int, sc as int, ti as int, ci as int);
                }
                ti = st;
                ci = sc + 1;
                star = Some((st, sc + 1));
            },
            None => {
                return false;
            },
        }
    }
    proof {
        if let Some((st, sc)) = star {
            lemma_star_ends(t, s@, st as int, sc as int, ti as int);
        }
    }
    while ti < toks.len() && matches!(toks[ti], Tok::Any)
        invariant
            t == toks_view(toks@),
            0 <= ti <= t.len(),
            glob(t, s@) == glob(t.skip(ti as int), s@.skip(s@.len() as int)),
        decreases t.len() - ti,
    {
        assert(t.skip(ti as int)[0] == toks@[ti as int]@);
        assert(t.skip(ti as int).skip(1) =~= t.skip(ti + 1));
        ti = ti + 1;
    }
    proof {
        if ti < t.len() {
            assert(t.skip(ti as int)[0] == toks@[ti as int]@);
        }
    }
    ti == toks.len()
}

// ---------------------------------------------------------------------------
// Laws
// ---------------------------------------------------------------------------

/// One glob after another matches a text that can be cut in two, so that each
/// matches its part.
pub proof fn law_glob_concatenates(a: Seq<TokView>, b: Seq<TokView>, s: Seq<char>)
    ensures
        glob(a + b, s) <==> exists|k: int|
            0 <= k <= s.len() && glob(a, #[trigger] s.take(k)) && glob(b, s.skip(k)),
    decreases a.len(), s.len(),
{
    let cut = |k: int| 0 <= k <= s.len() && glob(a, s.take(k)) && glob(b, s.skip(k));
    if a.len() == 0 {
        assert(a + b =~= b);
        assert(s.skip(0) =~= s);
        assert(s.take(0) =~= Seq::empty());
        if glob(a + b, s) {
            assert(cut(0));
        }
    } else {
        assert((a + b).skip(1) =~= a.skip(1) + b);
        if a[0] is Any {
            law_glob_concatenates(a.skip(1), b, s);
            if s.len() > 0 {
                let t = s.skip(1);
                law_glob_concatenates(a, b, t);
                assert forall|k: int| 0 < k <= s.len() implies #[trigger] s.take(k).skip(1)
                    == t.take(k - 1) && s.skip(k) == t.skip(k - 1) by {
                    assert(s.take(k).skip(1) =~= t.take(k - 1));
                    assert(s.skip(k) =~= t.skip(k - 1));
                }
                if glob(a + b, t) {
                    let k = choose|k: int|
                        0 <= k <= t.len() && glob(a, #[trigger] t.take(k)) && glob(b, t.skip(k));
                    assert(s.take(k + 1).skip(1) == t.take(k));
                    assert(cut(k + 1));
                }
                if exists|k: int| #[trigger] cut(k) {
                    let k = choose|k: int| #[trigger] cut(k);
                    if k > 0 && !glob(a.skip(1), s.take(k)) {
                        assert(s.take(k).skip(1) == t.take(k - 1));
                        assert(glob(a, t.take(k - 1)) && glob(b, t.skip(k - 1)));
                    }
                }
            }
            if glob(a.skip(1) + b, s) {
                let k = choose|k: int|
                    0 <= k <= s.len() && glob(a.skip(1), #[trigger] s.take(k)) && glob(
                        b,
                        s.skip(k),
                    );
                assert(cut(k));
            }
            if exists|k: int| #[trigger] cut(k) {
                let k = choose|k: int| #[trigger] cut(k);
                if k == 0 {
                    assert(glob(a.skip(1), s.take(0)));
                }
            }
        } else if s.len() > 0 {
            let t = s.skip(1);
            law_glob_concatenates(a.skip(1), b, t);
            if glob(a + b, s) {
                let k = choose|k: int|
                    0 <= k <= t.len() && glob(a.skip(1), #[trigger] t.take(k)) && glob(
                        b,
                        t.skip(k),
                    );
                assert(s.take(k + 1).skip(1) =~= t.take(k));
                assert(s.skip(k + 1) =~= t.skip(k));
                assert(cut(k + 1));
            }
            if exists|k: int| #[trigger] cut(k) {
                let k = choose|k: int| #[trigger] cut(k);
                assert(k > 0);
                assert(s.take(k).skip(1) =~= t.take(k - 1));
                assert(s.skip(k) =~= t.skip(k - 1));
                assert(glob(a.skip(1), t.take(k - 1)) && glob(b, t.skip(k - 1)));
            }
        } else {
            assert forall|k: int| 0 <= k <= s.len() implies !glob(a, #[trigger] s.take(k)) by {}
        }
        assert((exists|k: int| #[trigger] cut(k)) <==> exists|k: int|
            0 <= k <= s.len() && glob(a, #[trigger] s.take(k)) && glob(b, s.skip(k))) by {
            if exists|k: int|
                0 <= k <= s.len() && glob(a, #[trigger] s.take(k)) && glob(b, s.skip(k)) {
                let k = choose|k: int|
                    0 <= k <= s.len() && glob(a, #[trigger] s.take(k)) && glob(b, s.skip(k));
                assert(cut(k));
            }
            if exists|k: int| #[trigger] cut(k) {
                let k = choose|k: int| #[trigger] cut(k);
                assert(glob(a, s.take(k)));
            }
        }
    }
}

/// `*` alone matches every text. Any other token alone matches the texts of
/// one character that it accepts.
pub proof fn law_one_token(tok: TokView, s: Seq<char>)
    ensures
        glob(seq![tok], s) <==> tok is Any || (s.len() == 1 && accepts(tok, s[0])),
    decreases s.len(),
{
    assert(seq![tok].skip(1) =~= Seq::empty());
    assert(glob(seq![tok].skip(1), s) == (s.len() == 0));
    if s.len() > 0 {
        assert(glob(seq![tok].skip(1), s.skip(1)) == (s.len() == 1));
        if tok is Any {
            law_one_token(tok, s.skip(1));
        }
    }
}

/// What each token alone matches, and what no token matches. With
/// [`law_glob_concatenates`] this says what any glob matches: `*` every text,
/// `?` every single character, a character itself, and a class every single
/// character that lies between the ends of one of its ranges, or if it is
/// negated every other one.
pub proof fn law_single_tokens(
    s: Seq<char>,
    c: char,
    negated: bool,
    ranges: Seq<(char, char)>,
)
    ensures
        glob(Seq::empty(), s) <==> s.len() == 0,
        glob(seq![TokView::Any], s),
        glob(seq![TokView::One], s) <==> s.len() == 1,
        glob(seq![TokView::Char(c)], s) <==> s == seq![c],
        glob(seq![TokView::Class { negated, ranges }], s) <==> s.len() == 1 && ((exists|i: int|
            0 <= i < ranges.len() && (#[trigger] ranges[i]).0 <= s[0] && s[0] <= ranges[i].1)
            != negated),
{
    law_one_token(TokView::Any, s);
    law_one_token(TokView::One, s);
    law_one_token(TokView::Char(c), s);
    law_one_token(TokView::Class { negated, ranges }, s);
    if s.len() == 1 && s[0] == c {
        assert(s =~= seq![c]);
    }
    if s == seq![c] {
        assert(s[0] == c);
    }
}

/// A class accepts, if it is not negated, every character from the first to the
/// last of each of its ranges, and nothing that is outside all of them; a negated
/// one accepts exactly the rest. `*` and `?` accept any character, and a character
/// itself alone.
pub proof fn law_accepts(ranges: Seq<(char, char)>, i: int, c: char, x: char)
    requires
        0 <= i < ranges.len(),
    ensures
        ranges[i].0 <= c && c <= ranges[i].1 ==> accepts(
            TokView::Class { negated: false, ranges },
            c,
        ),
        (forall|j: int|
            0 <= j < ranges.len() ==> c < (#[trigger] ranges[j]).0 || ranges[j].1 < c) ==> !accepts(
            TokView::Class { negated: false, ranges },
            c,
        ),
        accepts(TokView::Class { negated: true, ranges }, c) <==> !accepts(
            TokView::Class { negated: false, ranges },
            c,
        ),
        accepts(TokView::Any, c),
        accepts(TokView::One, c),
        accepts(TokView::Char(x), c) <==> x == c,
{
}

} // verus!
