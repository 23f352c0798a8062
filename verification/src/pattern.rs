//! The pattern grammar of ignore files, and matching a path against a pattern.

use vstd::prelude::*;
use vstd::slice::slice_subrange;

use crate::glob::{self, copy_toks, glob_match, Tok, TokView};
use crate::text::{
    self, char_at, contains_char, copy_text, same_text, split_text, without_cr,
};

verus! {

/// Which dialect an ignore file is read with.
#[derive(Clone, Copy, Debug, PartialEq, Eq, Hash, Structural)]
pub enum Flavor {
    /// Full gitignore semantics: unanchored bare names match at any depth,
    /// and the file is discovered per directory.
    Gitignore,
    /// Docker semantics: every pattern is anchored to the file's directory,
    /// and the file is read only at the bundle root.
    Docker,
}

/// One `/`-separated segment of a compiled pattern.
#[derive(Debug, PartialEq, Eq)]
pub enum Segment {
    /// A segment with no glob metacharacters.
    Literal(Vec<char>),
    /// A segment with glob tokens.
    Glob(Vec<Tok>),
    /// A bare `**`: zero or more whole path components.
    DoubleStar,
}

/// What a [`Segment`] stands for.
pub enum SegmentView {
    Literal(Seq<char>),
    Glob(Seq<TokView>),
    DoubleStar,
}

impl View for Segment {
    type V = SegmentView;

    open spec fn view(&self) -> SegmentView {
        match self {
            Segment::Literal(text) => SegmentView::Literal(text@),
            Segment::Glob(toks) => SegmentView::Glob(glob::toks_view(toks@)),
            Segment::DoubleStar => SegmentView::DoubleStar,
        }
    }
}

impl Clone for Segment {
    fn clone(&self) -> (r: Self)
        ensures
            r@ == self@,
    {
        match self {
            Segment::Literal(text) => Segment::Literal(copy_text(text.as_slice())),
            Segment::Glob(toks) => Segment::Glob(copy_toks(toks.as_slice())),
            Segment::DoubleStar => Segment::DoubleStar,
        }
    }
}

/// What a list of segments stands for.
pub open spec fn segments_view(segments: Seq<Segment>) -> Seq<SegmentView> {
    segments.map_values(|segment: Segment| segment@)
}

// ---------------------------------------------------------------------------
// Grammar of one segment
// ---------------------------------------------------------------------------

/// One character of a class, with `\` escaping the next one, and what follows
/// it.
pub open spec fn class_char(s: Seq<char>) -> Option<(char, Seq<char>)> {
    if s.len() == 0 {
        None
    } else if s[0] != '\\' {
        Some((s[0], s.skip(1)))
    } else if s.len() < 2 {
        None
    } else {
        Some((s[1], s.skip(2)))
    }
}

/// The ranges of a class up to its closing `]`, and what follows that. A `]`
/// that comes first is a literal, and so is a `-` right before the `]`.
/// Nothing, if the class has no end.
pub open spec fn class_ranges(s: Seq<char>, first: bool) -> Option<
    (Seq<(char, char)>, Seq<char>),
>
    decreases s.len(),
{
    if s.len() > 0 && s[0] == ']' && !first {
        Some((Seq::empty(), s.skip(1)))
    } else {
        match class_char(s) {
            None => None,
            Some((lo, t)) => if t.len() >= 2 && t[0] == '-' && t[1] != ']' {
                match class_char(t.skip(1)) {
                    None => None,
                    Some((hi, u)) => after_ranges(seq![(lo, hi)], class_ranges(u, false)),
                }
            } else {
                after_ranges(seq![(lo, lo)], class_ranges(t, false))
            },
        }
    }
}

/// A parse of ranges with some more ranges in front.
pub open spec fn after_ranges(
    front: Seq<(char, char)>,
    parse: Option<(Seq<(char, char)>, Seq<char>)>,
) -> Option<(Seq<(char, char)>, Seq<char>)> {
    match parse {
        None => None,
        Some((ranges, rest)) => Some((front + ranges, rest)),
    }
}

/// A class, its opening `[` left out, and what follows it.
pub open spec fn class(s: Seq<char>) -> Option<(TokView, Seq<char>)> {
    let negated = s.len() > 0 && (s[0] == '!' || s[0] == '^');
    match class_ranges(
        if negated {
            s.skip(1)
        } else {
            s
        },
        true,
    ) {
        None => None,
        Some((ranges, rest)) => Some((TokView::Class { negated, ranges }, rest)),
    }
}

proof fn lemma_ranges_shorter(s: Seq<char>, first: bool)
    ensures
        class_ranges(s, first) matches Some((_, rest)) ==> rest.len() < s.len(),
    decreases s.len(),
{
    if let Some((_, t)) = class_char(s) {
        lemma_ranges_shorter(t, false);
        if t.len() >= 2 {
            if let Some((_, u)) = class_char(t.skip(1)) {
                lemma_ranges_shorter(u, false);
            }
        }
    }
}

/// A class takes up at least its closing `]`.
pub proof fn lemma_class_shorter(s: Seq<char>)
    ensures
        class(s) matches Some((_, rest)) ==> rest.len() < s.len(),
{
    lemma_ranges_shorter(s, true);
    if s.len() > 0 {
        lemma_ranges_shorter(s.skip(1), true);
    }
}

/// The tokens of a segment, one for each `*`. Nothing, if the segment ends in
/// a lone `\` or in a class without an end.
pub open spec fn tokens(s: Seq<char>) -> Option<Seq<TokView>>
    decreases s.len(),
{
    if s.len() == 0 {
        Some(Seq::empty())
    } else if s[0] == '\\' {
        if s.len() < 2 {
            None
        } else {
            after_token(TokView::Char(s[1]), tokens(s.skip(2)))
        }
    } else if s[0] == '*' {
        after_token(TokView::Any, tokens(s.skip(1)))
    } else if s[0] == '?' {
        after_token(TokView::One, tokens(s.skip(1)))
    } else if s[0] == '[' {
        match class(s.skip(1)) {
            None => None,
            Some((tok, rest)) => {
                proof {
                    lemma_class_shorter(s.skip(1));
                }
                after_token(tok, tokens(rest))
            },
        }
    } else {
        after_token(TokView::Char(s[0]), tokens(s.skip(1)))
    }
}

/// A parse of tokens with one more token in front.
pub open spec fn after_token(
    tok: TokView,
    parse: Option<Seq<TokView>>,
) -> Option<Seq<TokView>> {
    match parse {
        None => None,
        Some(toks) => Some(seq![tok] + toks),
    }
}

/// A parse of tokens with some more tokens in front.
spec fn after_tokens(front: Seq<TokView>, parse: Option<Seq<TokView>>) -> Option<Seq<TokView>> {
    match parse {
        None => None,
        Some(toks) => Some(front + toks),
    }
}

/// The tokens with every run of `*` made one.
pub open spec fn collapse(toks: Seq<TokView>) -> Seq<TokView>
    decreases toks.len(),
{
    if toks.len() == 0 {
        Seq::empty()
    } else {
        let before = collapse(toks.drop_last());
        if toks.last() is Any && before.len() > 0 && before.last() is Any {
            before
        } else {
            before.push(toks.last())
        }
    }
}

/// Whether every token is a literal character.
pub open spec fn all_chars(toks: Seq<TokView>) -> bool {
    forall|i: int| 0 <= i < toks.len() ==> (#[trigger] toks[i]) is Char
}

/// The tokens that stand for a literal text.
pub open spec fn char_tokens(text: Seq<char>) -> Seq<TokView> {
    Seq::new(text.len(), |i: int| TokView::Char(text[i]))
}

/// The text of tokens that are all literal characters.
pub open spec fn literal_text(toks: Seq<TokView>) -> Seq<char> {
    toks.map_values(|tok: TokView| tok->Char_0)
}

/// One segment: a bare `**`, a literal, or a glob.
pub open spec fn segment(s: Seq<char>) -> Option<SegmentView> {
    if s == seq!['*', '*'] {
        Some(SegmentView::DoubleStar)
    } else {
        match tokens(s) {
            None => None,
            Some(toks) => if all_chars(toks) {
                Some(SegmentView::Literal(literal_text(toks)))
            } else {
                Some(SegmentView::Glob(collapse(toks)))
            },
        }
    }
}

/// Reads one character of a class at `i`.
fn compile_class_char(s: &[char], i: usize) -> (r: Option<(char, usize)>)
    requires
        i <= s@.len(),
    ensures
        match r {
            None => class_char(s@.skip(i as int)) is None,
            Some((c, j)) => {
                &&& i < j <= s@.len()
                &&& class_char(s@.skip(i as int)) == Some((c, s@.skip(j as int)))
            },
        },
{
    if i >= s.len() {
        return None;
    }
    assert(s@.skip(i as int)[0] == s@[i as int]);
    if s[i] != '\\' {
        assert(s@.skip(i as int).skip(1) =~= s@.skip(i + 1));
        return Some((s[i], i + 1));
    }
    if s.len() - i < 2 {
        return None;
    }
    assert(s@.skip(i as int)[1] == s@[i + 1]);
    assert(s@.skip(i as int).skip(2) =~= s@.skip(i + 2));
    Some((s[i + 1], i + 2))
}

/// Compiles a `[...]` class; the opening `[` is right before `start`. Gives
/// back the place after the closing `]`, or nothing if the class has no end.
fn compile_class(s: &[char], start: usize) -> (r: Option<(Tok, usize)>)
    requires
        start <= s@.len(),
    ensures
        match r {
            None => class(s@.skip(start as int)) is None,
            Some((tok, end)) => {
                &&& start < end <= s@.len()
                &&& class(s@.skip(start as int)) == Some((tok@, s@.skip(end as int)))
            },
        },
{
    let negated = start < s.len() && (s[start] == '!' || s[start] == '^');
    let begin: usize = if negated {
        start + 1
    } else {
        start
    };
    proof {
        if start < s@.len() {
            assert(s@.skip(start as int)[0] == s@[start as int]);
        }
        assert(negated ==> s@.skip(start as int).skip(1) =~= s@.skip(begin as int));
    }
    let mut ranges: Vec<(char, char)> = Vec::new();
    let mut first = true;
    let mut i: usize = begin;
    let ghost whole = class_ranges(s@.skip(begin as int), true);
    assert(whole == after_ranges(ranges@, class_ranges(s@.skip(i as int), first))) by {
        if let Some((rs, rest)) = whole {
            assert(ranges@ + rs =~= rs);
        }
    }
    loop
        invariant
            begin <= i <= s@.len(),
            i == begin ==> first,
            whole == after_ranges(ranges@, class_ranges(s@.skip(i as int), first)),
            whole == class_ranges(s@.skip(begin as int), true),
            negated == (s@.skip(start as int).len() > 0 && (s@.skip(start as int)[0] == '!'
                || s@.skip(start as int)[0] == '^')),
            negated ==> s@.skip(start as int).skip(1) == s@.skip(begin as int),
            !negated ==> begin == start,
            start <= begin <= s@.len(),
        decreases s@.len() - i,
    {
        let ghost t = s@.skip(i as int);
        let ghost ranges_before = ranges@;
        proof {
            if i < s@.len() {
                assert(t[0] == s@[i as int]);
                assert(t.skip(1) =~= s@.skip(i + 1));
            }
        }
        if i < s.len() && s[i] == ']' && !first {
            assert(ranges@ + Seq::<(char, char)>::empty() =~= ranges@);
            return Some((Tok::Class { negated, ranges }, i + 1));
        }
        match compile_class_char(s, i) {
            None => {
                return None;
            },
            Some((lo, j)) => {
                let ghost u = s@.skip(j as int);
                proof {
                    if j < s@.len() {
                        assert(u[0] == s@[j as int]);
                        assert(u.skip(1) =~= s@.skip(j + 1));
                    }
                    if j + 1 < s@.len() {
                        assert(u[1] == s@[j + 1]);
                    }
                }
                if s.len() - j >= 2 && s[j] == '-' && s[j + 1] != ']' {
                    match compile_class_char(s, j + 1) {
                        None => {
                            return None;
                        },
                        Some((hi, k)) => {
                            ranges.push((lo, hi));
                            i = k;
                            proof {
                                if let Some((rs, _)) = class_ranges(s@.skip(k as int), false) {
                                    assert(ranges_before + (seq![(lo, hi)] + rs) =~= ranges@ + rs);
                                }
                            }
                        },
                    }
                } else {
                    ranges.push((lo, lo));
                    i = j;
                    proof {
                        if let Some((rs, _)) = class_ranges(s@.skip(j as int), false) {
                            assert(ranges_before + (seq![(lo, lo)] + rs) =~= ranges@ + rs);
                        }
                    }
                }
                first = false;
            },
        }
    }
}

/// Compiles one `/`-free segment. Gives back nothing for a malformed glob.
pub fn compile_segment(seg: &[char]) -> (r: Option<Segment>)
    ensures
        match r {
            None => segment(seg@) is None,
            Some(compiled) => segment(seg@) == Some(compiled@),
        },
{
    if seg.len() == 2 && seg[0] == '*' && seg[1] == '*' {
        assert(seg@ =~= seq!['*', '*']);
        return Some(Segment::DoubleStar);
    }
    let mut toks: Vec<Tok> = Vec::new();
    let mut literal: Vec<char> = Vec::new();
    let mut is_literal = true;
    let mut i: usize = 0;
    let ghost mut seen: Seq<TokView> = Seq::empty();
    proof {
        assert(seg@.skip(0) =~= seg@);
        assert(glob::toks_view(toks@) =~= collapse(seen));
        assert(char_tokens(literal@) =~= seen);
        if let Some(ts) = tokens(seg@) {
            assert(seen + ts =~= ts);
        }
    }
    while i < seg.len()
        invariant
            i <= seg@.len(),
            glob::toks_view(toks@) == collapse(seen),
            is_literal ==> char_tokens(literal@) == seen,
            !is_literal ==> !all_chars(seen),
            tokens(seg@) == after_tokens(seen, tokens(seg@.skip(i as int))),
        decreases seg@.len() - i,
    {
        let c = char_at(seg, i);
        let ghost t = seg@.skip(i as int);
        let ghost toks_before = toks@;
        let ghost seen_before = seen;
        let ghost literal_before = literal@;
        assert(t[0] == c);
        assert(t.skip(1) =~= seg@.skip(i + 1));
        if c == '\\' {
            if seg.len() - i < 2 {
                return None;
            }
            let escaped = char_at(seg, i + 1);
            assert(t[1] == escaped);
            assert(t.skip(2) =~= seg@.skip(i + 2));
            literal.push(escaped);
            toks.push(Tok::Char(escaped));
            i = i + 2;
            proof {
                seen = seen.push(TokView::Char(escaped));
            }
        } else if c == '*' {
            is_literal = false;
            // A run of `*` (also `**` inside a segment) is one token.
            let repeated = toks.len() > 0 && matches!(toks[toks.len() - 1], Tok::Any);
            if !repeated {
                toks.push(Tok::Any);
            }
            i = i + 1;
            proof {
                seen = seen.push(TokView::Any);
                assert(!(seen[seen.len() - 1] is Char));
                if toks_before.len() > 0 {
                    assert(collapse(seen_before).last() == toks_before.last()@);
                }
            }
        } else if c == '?' {
            is_literal = false;
            toks.push(Tok::One);
            i = i + 1;
            proof {
                seen = seen.push(TokView::One);
                assert(!(seen[seen.len() - 1] is Char));
            }
        } else if c == '[' {
            is_literal = false;
            match compile_class(seg, i + 1) {
                None => {
                    return None;
                },
                Some((tok, end)) => {
                    let ghost view = tok@;
                    toks.push(tok);
                    i = end;
                    proof {
                        seen = seen.push(view);
                        assert(!(seen[seen.len() - 1] is Char));
                    }
                },
            }
        } else {
            literal.push(c);
            toks.push(Tok::Char(c));
            i = i + 1;
            proof {
                seen = seen.push(TokView::Char(c));
            }
        }
        proof {
            assert(seen.drop_last() =~= seen_before);
            if toks@.len() > toks_before.len() {
                assert(glob::toks_view(toks@) =~= glob::toks_view(toks_before).push(seen.last()));
            }
            if is_literal {
                assert(char_tokens(literal@) =~= char_tokens(literal_before).push(seen.last()));
            } else if !all_chars(seen_before) {
                let k = choose|k: int|
                    0 <= k < seen_before.len() && !((#[trigger] seen_before[k]) is Char);
                assert(seen[k] == seen_before[k]);
            }
            if let Some(ts) = tokens(seg@.skip(i as int)) {
                assert(seen_before + (seq![seen.last()] + ts) =~= seen + ts);
            }
        }
    }
    proof {
        assert(seg@.skip(i as int).len() == 0);
        assert(seen + Seq::<TokView>::empty() =~= seen);
        assert(tokens(seg@) == Some(seen));
        assert(seg@ != seq!['*', '*']) by {
            if seg@ == seq!['*', '*'] {
                assert(seg@[0] == '*' && seg@[1] == '*');
            }
        }
        if is_literal {
            assert forall|k: int| 0 <= k < seen.len() implies (#[trigger] seen[k]) is Char by {
                assert(char_tokens(literal@)[k] is Char);
            }
            assert(literal_text(seen) =~= literal@);
        }
    }
    if is_literal {
        return Some(Segment::Literal(literal));
    }
    Some(Segment::Glob(toks))
}

// ---------------------------------------------------------------------------
// Grammar of one line
// ---------------------------------------------------------------------------

/// One compiled pattern line.
#[derive(Debug, PartialEq, Eq)]
pub struct Pattern {
    negated: bool,
    dir_only: bool,
    anchored: bool,
    segments: Vec<Segment>,
}

/// What a [`Pattern`] stands for.
pub struct PatternView {
    /// A match re-includes the path instead of ignoring it.
    pub negated: bool,
    /// Only directories are matched.
    pub dir_only: bool,
    /// The whole path is matched, not only its last component.
    pub anchored: bool,
    pub segments: Seq<SegmentView>,
}

impl View for Pattern {
    type V = PatternView;

    closed spec fn view(&self) -> PatternView {
        PatternView {
            negated: self.negated,
            dir_only: self.dir_only,
            anchored: self.anchored,
            segments: segments_view(self.segments@),
        }
    }
}

impl Clone for Pattern {
    fn clone(&self) -> (r: Self)
        ensures
            r@ == self@,
    {
        let mut segments: Vec<Segment> = Vec::new();
        for i in 0..self.segments.len()
            invariant
                segments@.len() == i,
                forall|j: int| 0 <= j < i ==> (#[trigger] segments@[j])@ == self.segments@[j]@,
        {
            segments.push(self.segments[i].clone());
        }
        assert(segments_view(segments@) =~= segments_view(self.segments@));
        Pattern {
            negated: self.negated,
            dir_only: self.dir_only,
            anchored: self.anchored,
            segments,
        }
    }
}

/// `s` without its trailing spaces, up to one that a `\\` escapes.
pub open spec fn strip_spaces(s: Seq<char>) -> Seq<char>
    decreases s.len(),
{
    if s.len() > 0 && s.last() == ' ' && !(s.len() >= 2 && s[s.len() - 2] == '\\') {
        strip_spaces(s.drop_last())
    } else {
        s
    }
}

/// The segments of a pattern, if every piece is one. An empty piece is none.
pub open spec fn segments(pieces: Seq<Seq<char>>) -> Option<Seq<SegmentView>>
    decreases pieces.len(),
{
    if pieces.len() == 0 {
        Some(Seq::empty())
    } else if pieces.last().len() == 0 {
        None
    } else {
        match (segments(pieces.drop_last()), segment(pieces.last())) {
            (Some(before), Some(last)) => Some(before.push(last)),
            _ => None,
        }
    }
}

/// The pattern on one line, or nothing for a blank, comment, or malformed
/// line.
pub open spec fn pattern(line: Seq<char>, flavor: Flavor) -> Option<PatternView> {
    let line = text::strip_cr(line);
    let body = strip_spaces(line);
    let negated = body.len() > 0 && body[0] == '!';
    let rest = if negated {
        body.skip(1)
    } else {
        body
    };
    let dir_only = rest.len() > 0 && rest.last() == '/';
    let path = if dir_only {
        rest.drop_last()
    } else {
        rest
    };
    let relative = if path.len() > 0 && path[0] == '/' {
        path.skip(1)
    } else {
        path
    };
    if line.len() == 0 || line[0] == '#' || relative.len() == 0 {
        None
    } else {
        match segments(text::split(relative, '/')) {
            None => None,
            Some(segments) => Some(
                PatternView {
                    negated,
                    dir_only,
                    anchored: flavor is Docker || path.contains('/'),
                    segments,
                },
            ),
        }
    }
}

/// Strips trailing spaces unless the last one is escaped with `\\`.
pub fn strip_trailing_spaces(line: &[char]) -> (r: &[char])
    ensures
        r@ == strip_spaces(line@),
{
    let mut end: usize = line.len();
    assert(line@.take(end as int) =~= line@);
    while end > 0 && line[end - 1] == ' ' && !(end >= 2 && line[end - 2] == '\\')
        invariant
            0 <= end <= line@.len(),
            strip_spaces(line@) == strip_spaces(line@.take(end as int)),
        decreases end,
    {
        assert(line@.take(end as int).drop_last() =~= line@.take(end - 1));
        end = end - 1;
    }
    slice_subrange(line, 0, end)
}

proof fn lemma_segments_prefix(pieces: Seq<Seq<char>>, n: int)
    requires
        0 <= n <= pieces.len(),
        segments(pieces.take(n)) is None,
    ensures
        segments(pieces) is None,
    decreases pieces.len() - n,
{
    if n < pieces.len() {
        assert(pieces.take(n + 1).drop_last() =~= pieces.take(n));
        lemma_segments_prefix(pieces, n + 1);
    } else {
        assert(pieces.take(n) =~= pieces);
    }
}

/// Compiles the segments of a pattern.
fn compile_segments(path: &[char]) -> (r: Option<Vec<Segment>>)
    ensures
        match r {
            None => segments(text::split(path@, '/')) is None,
            Some(compiled) => segments(text::split(path@, '/')) == Some(segments_view(compiled@)),
        },
{
    let pieces = split_text(path, '/');
    let ghost all = text::texts(pieces@);
    let mut out: Vec<Segment> = Vec::new();
    assert(segments_view(out@) =~= Seq::empty());
    for i in 0..pieces.len()
        invariant
            all == text::texts(pieces@),
            all == text::split(path@, '/'),
            segments(all.take(i as int)) == Some(segments_view(out@)),
    {
        assert(all.take(i + 1).drop_last() =~= all.take(i as int));
        assert(all.take(i + 1).last() == pieces@[i as int]@);
        if pieces[i].len() == 0 {
            proof {
                lemma_segments_prefix(all, i + 1);
            }
            return None;
        }
        match compile_segment(pieces[i].as_slice()) {
            None => {
                proof {
                    lemma_segments_prefix(all, i + 1);
                }
                return None;
            },
            Some(compiled) => {
                let ghost before = out@;
                let ghost view = compiled@;
                out.push(compiled);
                assert(segments_view(out@) =~= segments_view(before).push(view));
            },
        }
    }
    assert(all.take(all.len() as int) =~= all);
    Some(out)
}

impl Pattern {
    /// Compiles one line, or gives back nothing for a blank, comment, or
    /// malformed line.
    pub fn parse(line: &[char], flavor: Flavor) -> (r: Option<Pattern>)
        ensures
            match r {
                None => pattern(line@, flavor) is None,
                Some(compiled) => pattern(line@, flavor) == Some(compiled@),
            },
    {
        let line = without_cr(line);
        if line.len() == 0 || line[0] == '#' {
            return None;
        }
        let body = strip_trailing_spaces(line);
        let negated = body.len() > 0 && body[0] == '!';
        let rest = if negated {
            slice_subrange(body, 1, body.len())
        } else {
            body
        };
        let dir_only = rest.len() > 0 && rest[rest.len() - 1] == '/';
        let path = if dir_only {
            slice_subrange(rest, 0, rest.len() - 1)
        } else {
            rest
        };
        let anchored = matches!(flavor, Flavor::Docker) || contains_char(path, '/');
        let relative = if path.len() > 0 && path[0] == '/' {
            slice_subrange(path, 1, path.len())
        } else {
            path
        };
        if relative.len() == 0 {
            return None;
        }
        match compile_segments(relative) {
            None => None,
            Some(segments) => Some(Pattern { negated, dir_only, anchored, segments }),
        }
    }
}

// ---------------------------------------------------------------------------
// Matching
// ---------------------------------------------------------------------------

/// Whether a segment matches one path component.
pub open spec fn segment_matches(segment: SegmentView, component: Seq<char>) -> bool {
    match segment {
        SegmentView::Literal(text) => text == component,
        SegmentView::Glob(toks) => glob::glob(toks, component),
        SegmentView::DoubleStar => true,
    }
}

/// Whether segments match the whole of a path: each takes one component that
/// it matches, but `**` takes any number of them. A final `**` takes at least
/// one: it matches what is inside a directory, not the directory itself.
pub open spec fn segments_match(segments: Seq<SegmentView>, comps: Seq<Seq<char>>) -> bool
    decreases segments.len(),
{
    if segments.len() == 0 {
        comps.len() == 0
    } else if segments[0] is DoubleStar {
        if segments.len() == 1 {
            comps.len() > 0
        } else {
            exists|k: int|
                0 <= k <= comps.len() && segments_match(segments.skip(1), #[trigger] comps.skip(k))
        }
    } else {
        comps.len() > 0 && segment_matches(segments[0], comps[0]) && segments_match(
            segments.skip(1),
            comps.skip(1),
        )
    }
}

/// Whether a pattern matches a path, given as components relative to the
/// directory of the ignore file. A bare name matches the last component at
/// any depth.
pub open spec fn pattern_matches(
    pattern: PatternView,
    comps: Seq<Seq<char>>,
    is_dir: bool,
) -> bool {
    &&& comps.len() > 0
    &&& pattern.dir_only ==> is_dir
    &&& if !pattern.anchored && pattern.segments.len() == 1 {
        segment_matches(pattern.segments[0], comps.last())
    } else {
        segments_match(pattern.segments, comps)
    }
}

impl Segment {
    /// Whether this segment matches one path component.
    pub fn matches(&self, component: &[char]) -> (r: bool)
        ensures
            r == segment_matches(self@, component@),
    {
        match self {
            Segment::Literal(text) => same_text(text.as_slice(), component),
            Segment::Glob(toks) => glob_match(toks.as_slice(), component),
            Segment::DoubleStar => true,
        }
    }
}

/// What the first `i` segments leave to the others: some reachable place from
/// which they match.
spec fn reaches(
    segments: Seq<SegmentView>,
    comps: Seq<Seq<char>>,
    reach: Seq<bool>,
    i: int,
) -> bool {
    exists|j: int|
        0 <= j <= comps.len() && #[trigger] reach[j] && segments_match(
            segments.skip(i),
            comps.skip(j),
        )
}

/// Matches segments against path components; `**` consumes zero or more.
///
/// Tracking which component positions are still reachable, rather than
/// recursing into every split a `**` allows, keeps the work proportional to
/// segments times components.
pub fn match_segments(segs: &[Segment], comps: &[Vec<char>]) -> (r: bool)
    ensures
        r == segments_match(segments_view(segs@), text::texts(comps@)),
{
    let ghost sv = segments_view(segs@);
    let ghost cv = text::texts(comps@);
    let n = comps.len();
    // `reach[j]`: the first `j` components can be consumed by the segments
    // considered so far; `through`: all of them can.
    let mut reach: Vec<bool> = vec![false; n];
    let mut through = n == 0;
    if n > 0 {
        reach.set(0, true);
    }
    proof {
        assert(sv.skip(0) =~= sv);
        assert(cv.skip(0) =~= cv);
        assert(reach@.push(through)[0]);
    }
    for i in 0..segs.len()
        invariant
            n == comps@.len(),
            sv == segments_view(segs@),
            cv == text::texts(comps@),
            reach@.len() == n,
            segments_match(sv, cv) == reaches(sv, cv, reach@.push(through), i as int),
    {
        let ghost before = reach@.push(through);
        assert(sv.skip(i as int)[0] == segs@[i as int]@);
        assert(sv.skip(i as int).skip(1) =~= sv.skip(i + 1));
        if matches!(segs[i], Segment::DoubleStar) {
            // Everything from the earliest reachable position on becomes
            // reachable.
            let mut first: usize = 0;
            while first < n && !reach[first]
                invariant
                    first <= n,
                    reach@.len() == n,
                    forall|j: int| 0 <= j < first ==> !reach@[j],
                decreases n - first,
            {
                first = first + 1;
            }
            proof {
                assert(forall|j: int| 0 <= j < first ==> before[j] == reach@[j]);
            }
            if first == n && !through {
                assert(!reaches(sv, cv, before, i as int));
                return false;
            }
            assert(before[first as int]);
            // A final `**` matches what is inside a directory, not the
            // directory itself.
            if i + 1 == segs.len() {
                proof {
                    assert(sv.skip(i as int).len() == 1);
                    if first < n {
                        assert(segments_match(sv.skip(i as int), cv.skip(first as int)));
                    }
                }
                return first < n;
            }
            let mut j: usize = first;
            while j < n
                invariant
                    first <= j <= n,
                    reach@.len() == n,
                    before.len() == n + 1,
                    forall|k: int| 0 <= k < n ==> reach@[k] == (if first <= k < j {
                        true
                    } else {
                        before[k]
                    }),
                decreases n - j,
            {
                reach.set(j, true);
                j = j + 1;
            }
            through = true;
            proof {
                let after = reach@.push(through);
                assert(forall|k: int| 0 <= k <= cv.len() ==> after[k] == (first <= k || before[k]));
                lemma_double_star(sv, cv, before, after, i as int, first as int);
            }
        } else {
            let mut next: Vec<bool> = vec![false; n];
            let mut next_through = false;
            for j in 0..n
                invariant
                    n == comps@.len(),
                    i < segs@.len(),
                    sv == segments_view(segs@),
                    cv == text::texts(comps@),
                    before == reach@.push(through),
                    reach@.len() == n,
                    next@.len() == n,
                    !next@.push(next_through)[0],
                    forall|k: int|
                        0 <= k < j ==> #[trigger] next@.push(next_through)[k + 1] == (before[k]
                            && segment_matches(sv[i as int], cv[k])),
            {
                assert(cv[j as int] == comps@[j as int]@);
                assert(sv[i as int] == segs@[i as int]@);
                let ghost old_next = next@.push(next_through);
                let step = reach[j] && segs[i].matches(comps[j].as_slice());
                if j + 1 < n {
                    next.set(j + 1, step);
                } else {
                    next_through = step;
                }
                assert(next@.push(next_through) =~= old_next.update(j + 1, step));
            }
            proof {
                lemma_one_step(sv, cv, before, next@.push(next_through), i as int);
            }
            reach = next;
            through = next_through;
        }
    }
    proof {
        let end = reach@.push(through);
        assert(sv.skip(sv.len() as int).len() == 0);
        if through {
            assert(end[n as int]);
            assert(cv.skip(n as int).len() == 0);
            assert(segments_match(sv.skip(sv.len() as int), cv.skip(n as int)));
        }
        if reaches(sv, cv, end, sv.len() as int) {
            let j = choose|j: int|
                0 <= j <= cv.len() && #[trigger] end[j] && segments_match(
                    sv.skip(sv.len() as int),
                    cv.skip(j),
                );
            assert(cv.skip(j).len() == cv.len() - j);
        }
    }
    through
}

proof fn lemma_double_star(
    sv: Seq<SegmentView>,
    cv: Seq<Seq<char>>,
    before: Seq<bool>,
    after: Seq<bool>,
    i: int,
    first: int,
)
    requires
        0 <= i < sv.len() - 1,
        sv[i] is DoubleStar,
        before.len() == cv.len() + 1,
        after.len() == cv.len() + 1,
        0 <= first <= cv.len(),
        before[first],
        forall|k: int| 0 <= k < first ==> !before[k],
        forall|k: int| 0 <= k <= cv.len() ==> after[k] == (first <= k || before[k]),
    ensures
        reaches(sv, cv, before, i) == reaches(sv, cv, after, i + 1),
{
    assert(sv.skip(i)[0] == sv[i]);
    assert(sv.skip(i).skip(1) =~= sv.skip(i + 1));
    if reaches(sv, cv, before, i) {
        let j = choose|j: int|
            0 <= j <= cv.len() && #[trigger] before[j] && segments_match(sv.skip(i), cv.skip(j));
        let k = choose|k: int|
            0 <= k <= cv.skip(j).len() && segments_match(
                sv.skip(i).skip(1),
                #[trigger] cv.skip(j).skip(k),
            );
        assert(cv.skip(j).skip(k) =~= cv.skip(j + k));
        assert(after[j + k]);
    }
    if reaches(sv, cv, after, i + 1) {
        let j = choose|j: int|
            0 <= j <= cv.len() && #[trigger] after[j] && segments_match(sv.skip(i + 1), cv.skip(j));
        assert(cv.skip(first).skip(j - first) =~= cv.skip(j));
        assert(segments_match(sv.skip(i), cv.skip(first)));
    }
}

proof fn lemma_one_step(
    sv: Seq<SegmentView>,
    cv: Seq<Seq<char>>,
    before: Seq<bool>,
    after: Seq<bool>,
    i: int,
)
    requires
        0 <= i < sv.len(),
        !(sv[i] is DoubleStar),
        before.len() == cv.len() + 1,
        after.len() == cv.len() + 1,
        !after[0],
        forall|k: int|
            0 <= k < cv.len() ==> #[trigger] after[k + 1] == (before[k] && segment_matches(
                sv[i],
                cv[k],
            )),
    ensures
        reaches(sv, cv, before, i) == reaches(sv, cv, after, i + 1),
{
    assert(sv.skip(i)[0] == sv[i]);
    assert(sv.skip(i).skip(1) =~= sv.skip(i + 1));
    if reaches(sv, cv, before, i) {
        let j = choose|j: int|
            0 <= j <= cv.len() && #[trigger] before[j] && segments_match(sv.skip(i), cv.skip(j));
        assert(cv.skip(j)[0] == cv[j]);
        assert(cv.skip(j).skip(1) =~= cv.skip(j + 1));
        assert(after[j + 1]);
    }
    if reaches(sv, cv, after, i + 1) {
        let j = choose|j: int|
            0 <= j <= cv.len() && #[trigger] after[j] && segments_match(sv.skip(i + 1), cv.skip(j));
        assert(after[(j - 1) + 1]);
        assert(before[j - 1]);
        assert(cv.skip(j - 1)[0] == cv[j - 1]);
        assert(cv.skip(j - 1).skip(1) =~= cv.skip(j));
    }
}

impl Pattern {
    /// Whether this pattern matches a path given as components relative to
    /// the rule set's base directory.
    pub fn matches(&self, comps: &[Vec<char>], is_dir: bool) -> (r: bool)
        ensures
            r == pattern_matches(self@, text::texts(comps@), is_dir),
    {
        if comps.len() == 0 || (self.dir_only && !is_dir) {
            return false;
        }
        if !self.anchored && self.segments.len() == 1 {
            assert(self@.segments[0] == self.segments@[0]@);
            assert(text::texts(comps@).last() == comps@.last()@);
            return self.segments[0].matches(comps[comps.len() - 1].as_slice());
        }
        match_segments(self.segments.as_slice(), comps)
    }

    /// Whether a match re-includes a path.
    pub fn is_negated(&self) -> (r: bool)
        ensures
            r == self@.negated,
    {
        self.negated
    }
}

// ---------------------------------------------------------------------------
// Laws
// ---------------------------------------------------------------------------

/// The tokens of a literal text match that text and no other.
pub proof fn law_literal_tokens(literal: Seq<char>, s: Seq<char>)
    ensures
        glob::glob(char_tokens(literal), s) <==> s == literal,
    decreases literal.len(),
{
    let toks = char_tokens(literal);
    if literal.len() > 0 {
        assert(toks.skip(1) =~= char_tokens(literal.skip(1)));
        if s.len() > 0 {
            law_literal_tokens(literal.skip(1), s.skip(1));
            if s[0] == literal[0] && s.skip(1) == literal.skip(1) {
                assert(s =~= seq![s[0]] + s.skip(1));
                assert(literal =~= seq![literal[0]] + literal.skip(1));
            }
        }
    } else if s.len() == 0 {
        assert(s =~= literal);
    }
}

/// A run of `*` means what a single `*` means.
pub proof fn law_collapse(toks: Seq<TokView>, s: Seq<char>)
    ensures
        glob::glob(collapse(toks), s) <==> glob::glob(toks, s),
    decreases toks.len(),
{
    if toks.len() > 0 {
        let front = toks.drop_last();
        let before = collapse(front);
        let last = seq![toks.last()];
        assert(toks =~= front + last);
        glob::law_glob_concatenates(front, last, s);
        glob::law_glob_concatenates(before, last, s);
        assert forall|k: int| 0 <= k <= s.len() implies glob::glob(before, #[trigger] s.take(k))
            == glob::glob(front, s.take(k)) by {
            law_collapse(front, s.take(k));
        }
        if toks.last() is Any && before.len() > 0 && before.last() is Any {
            lemma_double_any(before, s);
        } else {
            assert(before.push(toks.last()) =~= before + last);
        }
    }
}

/// A `*` after a final `*` changes nothing.
proof fn lemma_double_any(toks: Seq<TokView>, s: Seq<char>)
    requires
        toks.len() > 0,
        toks.last() is Any,
    ensures
        glob::glob(toks + seq![TokView::Any], s) <==> glob::glob(toks, s),
{
    let front = toks.drop_last();
    let any = seq![TokView::Any];
    assert(toks =~= front + any);
    glob::law_glob_concatenates(toks, any, s);
    if glob::glob(toks, s) {
        assert(s.take(s.len() as int) =~= s);
        glob::law_one_token(TokView::Any, s.skip(s.len() as int));
        assert(glob::glob(toks, s.take(s.len() as int)));
    }
    if glob::glob(toks + any, s) {
        let k = choose|k: int|
            0 <= k <= s.len() && glob::glob(toks, #[trigger] s.take(k)) && glob::glob(
                any,
                s.skip(k),
            );
        glob::law_glob_concatenates(front, any, s.take(k));
        let j = choose|j: int|
            0 <= j <= s.take(k).len() && glob::glob(front, #[trigger] s.take(k).take(j))
                && glob::glob(any, s.take(k).skip(j));
        assert(s.take(k).take(j) =~= s.take(j));
        glob::law_one_token(TokView::Any, s.skip(j));
        glob::law_glob_concatenates(front, any, s);
        assert(glob::glob(front, s.take(j)) && glob::glob(any, s.skip(j)));
    }
}

/// A text with `\\` in front of every character.
pub open spec fn escaped(literal: Seq<char>) -> Seq<char>
    decreases literal.len(),
{
    if literal.len() == 0 {
        Seq::empty()
    } else {
        seq!['\\', literal[0]] + escaped(literal.skip(1))
    }
}

/// Whether a text has none of the characters that mean something in a segment.
pub open spec fn plain(literal: Seq<char>) -> bool {
    forall|i: int|
        0 <= i < literal.len() ==> (#[trigger] literal[i]) != '\\' && literal[i] != '*'
            && literal[i] != '?' && literal[i] != '['
}

proof fn lemma_escaped_tokens(literal: Seq<char>)
    ensures
        tokens(escaped(literal)) == Some(char_tokens(literal)),
    decreases literal.len(),
{
    if literal.len() == 0 {
        assert(char_tokens(literal) =~= Seq::empty());
    } else {
        lemma_escaped_tokens(literal.skip(1));
        assert(escaped(literal).skip(2) =~= escaped(literal.skip(1)));
        assert(char_tokens(literal) =~= seq![TokView::Char(literal[0])] + char_tokens(
            literal.skip(1),
        ));
    }
}

proof fn lemma_plain_tokens(literal: Seq<char>)
    requires
        plain(literal),
    ensures
        tokens(literal) == Some(char_tokens(literal)),
    decreases literal.len(),
{
    if literal.len() == 0 {
        assert(char_tokens(literal) =~= Seq::empty());
    } else {
        assert(literal[0] != '\\' && literal[0] != '*' && literal[0] != '?' && literal[0] != '[');
        assert forall|i: int| 0 <= i < literal.skip(1).len() implies (#[trigger] literal.skip(1)[i])
            != '\\' && literal.skip(1)[i] != '*' && literal.skip(1)[i] != '?' && literal.skip(1)[i]
            != '[' by {
            assert(literal.skip(1)[i] == literal[i + 1]);
        }
        lemma_plain_tokens(literal.skip(1));
        assert(char_tokens(literal) =~= seq![TokView::Char(literal[0])] + char_tokens(
            literal.skip(1),
        ));
    }
}

/// A segment whose every character is escaped, and one without any character
/// that means something, match their own text and nothing else, case and all.
pub proof fn law_literal_segment(literal: Seq<char>, component: Seq<char>)
    ensures
        segment(escaped(literal)) matches Some(seg) && (segment_matches(seg, component)
            <==> component == literal),
        plain(literal) ==> (segment(literal) matches Some(seg) && (segment_matches(seg, component)
            <==> component == literal)),
{
    let toks = char_tokens(literal);
    assert(literal_text(toks) =~= literal);
    lemma_escaped_tokens(literal);
    if literal.len() > 0 {
        assert(escaped(literal)[0] == '\\');
        assert(seq!['*', '*'][0] == '*');
    }
    assert(escaped(literal) != seq!['*', '*']) by {
        if literal.len() == 0 {
            assert(escaped(literal).len() == 0);
        }
    }
    if plain(literal) {
        lemma_plain_tokens(literal);
        assert(literal != seq!['*', '*']) by {
            if literal == seq!['*', '*'] {
                assert(literal[0] == '*');
            }
        }
    }
}

/// A line that is empty, holds only spaces, or begins with `#` has no pattern.
pub proof fn law_blank_or_comment(line: Seq<char>, flavor: Flavor)
    requires
        line.len() == 0 || line[0] == '#' || forall|i: int|
            0 <= i < line.len() ==> #[trigger] line[i] == ' ',
    ensures
        pattern(line, flavor) is None,
{
    if line.len() > 0 && line[0] != '#' {
        assert(line.last() == ' ');
        lemma_only_spaces(line);
    }
}

proof fn lemma_only_spaces(s: Seq<char>)
    requires
        forall|i: int| 0 <= i < s.len() ==> #[trigger] s[i] == ' ',
    ensures
        strip_spaces(s).len() == 0,
    decreases s.len(),
{
    if s.len() > 0 {
        assert forall|i: int| 0 <= i < s.drop_last().len() implies #[trigger] s.drop_last()[i]
            == ' ' by {
            assert(s.drop_last()[i] == s[i]);
        }
        assert(s.last() == ' ');
        if s.len() >= 2 {
            assert(s[s.len() - 2] == ' ');
        }
        lemma_only_spaces(s.drop_last());
    }
}

/// Spaces and a carriage return at the end of a line do not count: a pattern
/// followed by a space, or by a carriage return, is the pattern. One after a
/// `\\`, or after a carriage return, does count.
pub proof fn law_trailing_blanks(line: Seq<char>, flavor: Flavor)
    requires
        line.len() > 0,
        line.last() != '\r',
    ensures
        pattern(line.push('\r'), flavor) == pattern(line, flavor),
        line.last() != '\\' ==> pattern(line.push(' '), flavor) == pattern(line, flavor),
{
    assert(line.push('\r').drop_last() =~= line);
    assert(line.push(' ').drop_last() =~= line);
}

proof fn lemma_strip_spaces_front(front: char, s: Seq<char>)
    requires
        front != '\\',
        front != ' ',
    ensures
        strip_spaces(seq![front] + s) == seq![front] + strip_spaces(s),
    decreases s.len(),
{
    let whole = seq![front] + s;
    if s.len() > 0 {
        assert(whole.last() == s.last());
        assert(whole.drop_last() =~= seq![front] + s.drop_last());
        lemma_strip_spaces_front(front, s.drop_last());
        if s.len() == 1 {
            assert(whole[0] == front);
        } else {
            assert(whole[whole.len() - 2] == s[s.len() - 2]);
        }
    }
}

/// A leading `!` negates the pattern that follows it, and changes nothing else
/// about it. What follows must not be a comment or negated itself.
pub proof fn law_negation(line: Seq<char>, flavor: Flavor)
    requires
        line.len() > 0 ==> line[0] != '!' && line[0] != '#',
    ensures
        pattern(seq!['!'] + line, flavor) == match pattern(line, flavor) {
            None => None::<PatternView>,
            Some(p) => Some(PatternView { negated: true, ..p }),
        },
        pattern(line, flavor) matches Some(p) ==> !p.negated,
{
    let whole = seq!['!'] + line;
    let l = text::strip_cr(line);
    if line.len() > 0 {
        assert(whole.last() == line.last());
        assert(whole.drop_last() =~= seq!['!'] + line.drop_last());
    }
    assert(text::strip_cr(whole) =~= seq!['!'] + l);
    lemma_strip_spaces_front('!', l);
    let body = strip_spaces(l);
    lemma_strip_prefix(l);
    assert((seq!['!'] + body).skip(1) =~= body);
    if body.len() > 0 {
        assert(body[0] == l[0]);
        assert(l[0] == line[0]);
    }
    if l.len() > 0 {
        assert(l[0] == line[0]);
    }
}

/// What is left of a text without its trailing spaces is its beginning.
proof fn lemma_strip_prefix(s: Seq<char>)
    ensures
        strip_spaces(s).len() <= s.len(),
        strip_spaces(s) == s.take(strip_spaces(s).len() as int),
    decreases s.len(),
{
    if s.len() > 0 && s.last() == ' ' && !(s.len() >= 2 && s[s.len() - 2] == '\\') {
        lemma_strip_prefix(s.drop_last());
        let n = strip_spaces(s).len() as int;
        assert(s.drop_last().take(n) =~= s.take(n));
    } else {
        assert(s.take(s.len() as int) =~= s);
    }
}

/// A trailing `/` restricts the pattern in front of it to directories, and
/// changes nothing else about it. What is in front must not end in `/`, a
/// space or a carriage return.
pub proof fn law_directories_only(line: Seq<char>, flavor: Flavor)
    requires
        line.len() > 0,
        line.last() != '/' && line.last() != ' ' && line.last() != '\r',
    ensures
        pattern(line.push('/'), flavor) == match pattern(line, flavor) {
            None => None::<PatternView>,
            Some(p) => Some(PatternView { dir_only: true, ..p }),
        },
        pattern(line, flavor) matches Some(p) ==> !p.dir_only,
{
    let whole = line.push('/');
    assert(whole.last() == '/');
    assert(whole[0] == line[0]);
    let negated = line[0] == '!';
    let rest = if negated {
        line.skip(1)
    } else {
        line
    };
    let whole_rest = if negated {
        whole.skip(1)
    } else {
        whole
    };
    assert(whole_rest =~= rest.push('/'));
    assert(rest.push('/').drop_last() =~= rest);
    if rest.len() > 0 {
        assert(rest.last() == line.last());
    }
}

/// The two dialects read the same patterns, but that every Docker pattern is
/// anchored to the directory of its file.
pub proof fn law_docker_anchored(line: Seq<char>)
    ensures
        pattern(line, Flavor::Docker) == match pattern(line, Flavor::Gitignore) {
            None => None::<PatternView>,
            Some(p) => Some(PatternView { anchored: true, ..p }),
        },
{
}

/// A pattern that is not anchored is a bare name: it has one segment, and
/// matches a path exactly if it matches the path's last component alone, so it
/// matches at any depth.
pub proof fn law_bare_name(line: Seq<char>, flavor: Flavor, comps: Seq<Seq<char>>, is_dir: bool)
    requires
        pattern(line, flavor) matches Some(p) && !p.anchored,
        comps.len() > 0,
    ensures
        pattern(line, flavor) matches Some(p) && p.segments.len() == 1 && (pattern_matches(
            p,
            comps,
            is_dir,
        ) <==> pattern_matches(p, seq![comps.last()], is_dir)),
{
    let l = text::strip_cr(line);
    let body = strip_spaces(l);
    let rest = if body.len() > 0 && body[0] == '!' {
        body.skip(1)
    } else {
        body
    };
    let path = if rest.len() > 0 && rest.last() == '/' {
        rest.drop_last()
    } else {
        rest
    };
    assert(!path.contains('/'));
    if path.len() > 0 {
        assert(path[0] != '/');
    }
    text::lemma_split_single(path, '/');
    reveal_with_fuel(segments, 2);
    assert(seq![path].drop_last() =~= Seq::empty());
    assert(seq![comps.last()].last() == comps.last());
}

/// Whether there is no bare `**` among the segments.
pub open spec fn no_double_star(segments: Seq<SegmentView>) -> bool {
    forall|i: int| 0 <= i < segments.len() ==> !((#[trigger] segments[i]) is DoubleStar)
}

/// Segments without a bare `**` take one component each: no `*` crosses a `/`.
pub proof fn law_one_component_each(segments: Seq<SegmentView>, comps: Seq<Seq<char>>)
    requires
        no_double_star(segments),
    ensures
        segments_match(segments, comps) <==> segments.len() == comps.len() && forall|i: int|
            0 <= i < comps.len() ==> segment_matches(segments[i], #[trigger] comps[i]),
    decreases segments.len(),
{
    if segments.len() > 0 {
        assert(!(segments[0] is DoubleStar));
        if comps.len() > 0 {
            let rest = segments.skip(1);
            let later = comps.skip(1);
            assert forall|i: int| 0 <= i < rest.len() implies !((#[trigger] rest[i]) is DoubleStar) by {
                assert(rest[i] == segments[i + 1]);
            }
            law_one_component_each(rest, later);
            if segments_match(segments, comps) {
                assert forall|i: int| 0 <= i < comps.len() implies segment_matches(
                    segments[i],
                    #[trigger] comps[i],
                ) by {
                    if i > 0 {
                        assert(later[i - 1] == comps[i]);
                    }
                }
            }
            if segments.len() == comps.len() && forall|i: int|
                0 <= i < comps.len() ==> segment_matches(segments[i], #[trigger] comps[i]) {
                assert(segment_matches(segments[0], comps[0]));
                assert forall|i: int| 0 <= i < later.len() implies segment_matches(
                    rest[i],
                    #[trigger] later[i],
                ) by {
                    assert(segment_matches(segments[i + 1], comps[i + 1]));
                }
            }
        }
    }
}

/// Segments without a bare `**` in front of others take as many components as
/// they are, and leave the rest to the others.
pub proof fn law_segments_in_front(
    front: Seq<SegmentView>,
    back: Seq<SegmentView>,
    comps: Seq<Seq<char>>,
)
    requires
        no_double_star(front),
    ensures
        segments_match(front + back, comps) <==> front.len() <= comps.len() && segments_match(
            front,
            comps.take(front.len() as int),
        ) && segments_match(back, comps.skip(front.len() as int)),
    decreases front.len(),
{
    let whole = front + back;
    if front.len() == 0 {
        assert(whole =~= back);
        assert(comps.skip(0) =~= comps);
    } else {
        assert(!(front[0] is DoubleStar));
        assert(whole.skip(1) =~= front.skip(1) + back);
        let rest = front.skip(1);
        assert forall|i: int| 0 <= i < rest.len() implies !((#[trigger] rest[i]) is DoubleStar) by {
            assert(rest[i] == front[i + 1]);
        }
        if comps.len() > 0 {
            law_segments_in_front(rest, back, comps.skip(1));
            if front.len() <= comps.len() {
                assert(comps.take(front.len() as int).skip(1) =~= comps.skip(1).take(
                    rest.len() as int,
                ));
                assert(comps.skip(front.len() as int) =~= comps.skip(1).skip(rest.len() as int));
                assert(comps.take(front.len() as int)[0] == comps[0]);
            }
        }
    }
}

/// The three forms of `**`. In front it takes any number of components; in the
/// middle it takes any number of them, none included; at the end it takes at
/// least one, so that what it matches lies inside a directory and is not that
/// directory itself.
pub proof fn law_double_star(
    front: Seq<SegmentView>,
    back: Seq<SegmentView>,
    comps: Seq<Seq<char>>,
)
    requires
        no_double_star(front),
    ensures
        back.len() == 0 ==> (segments_match(front + seq![SegmentView::DoubleStar] + back, comps)
            <==> front.len() < comps.len() && segments_match(
            front,
            comps.take(front.len() as int),
        )),
        back.len() > 0 ==> (segments_match(front + seq![SegmentView::DoubleStar] + back, comps)
            <==> front.len() <= comps.len() && segments_match(
            front,
            comps.take(front.len() as int),
        ) && exists|k: int|
            front.len() <= k <= comps.len() && segments_match(back, #[trigger] comps.skip(k))),
{
    let n = front.len() as int;
    let tail = seq![SegmentView::DoubleStar] + back;
    assert(front + seq![SegmentView::DoubleStar] + back =~= front + tail);
    law_segments_in_front(front, tail, comps);
    assert(tail.skip(1) =~= back);
    if n <= comps.len() && back.len() > 0 {
        let rest = comps.skip(n);
        if segments_match(tail, rest) {
            let k = choose|k: int|
                0 <= k <= rest.len() && segments_match(tail.skip(1), #[trigger] rest.skip(k));
            assert(rest.skip(k) =~= comps.skip(n + k));
        }
        if exists|k: int| n <= k <= comps.len() && segments_match(back, #[trigger] comps.skip(k)) {
            let k = choose|k: int|
                n <= k <= comps.len() && segments_match(back, #[trigger] comps.skip(k));
            assert(rest.skip(k - n) =~= comps.skip(k));
        }
    }
}

/// Whether a text on a line of its own is one segment and nothing else: it
/// neither negates, comments, restricts nor has blanks at its end.
pub open spec fn lone_segment(s: Seq<char>) -> bool {
    &&& s.len() > 0
    &&& s[0] != '!'
    &&& s[0] != '#'
    &&& s.last() != ' '
    &&& s.last() != '\r'
    &&& !s.contains('/')
}

/// A line that is one segment is a bare name, which only the Docker dialect
/// anchors.
pub proof fn law_lone_segment(line: Seq<char>, flavor: Flavor)
    requires
        lone_segment(line),
    ensures
        pattern(line, flavor) == match segment(line) {
            None => None::<PatternView>,
            Some(seg) => Some(
                PatternView {
                    negated: false,
                    dir_only: false,
                    anchored: flavor is Docker,
                    segments: seq![seg],
                },
            ),
        },
{
    assert(line[line.len() - 1] == line.last());
    assert(line[0] != '/');
    text::lemma_split_single(line, '/');
    reveal_with_fuel(segments, 2);
    assert(seq![line].drop_last() =~= Seq::empty());
    if let Some(seg) = segment(line) {
        assert(Seq::<SegmentView>::empty().push(seg) =~= seq![seg]);
    }
}

/// A line that is a plain name matches that name at any depth, and in the
/// Docker dialect in the directory of the file only.
pub proof fn law_plain_name(name: Seq<char>, flavor: Flavor)
    requires
        lone_segment(name),
        plain(name),
    ensures
        pattern(name, flavor) == Some(
            PatternView {
                negated: false,
                dir_only: false,
                anchored: flavor is Docker,
                segments: seq![SegmentView::Literal(name)],
            },
        ),
{
    law_lone_segment(name, flavor);
    lemma_plain_tokens(name);
    assert(literal_text(char_tokens(name)) =~= name);
    assert(name != seq!['*', '*']) by {
        if name == seq!['*', '*'] {
            assert(name[0] == '*');
        }
    }
}

// ---------------------------------------------------------------------------
// Laws: how a segment is spelled
// ---------------------------------------------------------------------------

/// One range of a class as it is spelled: its ends, each with or without a
/// `\` in front; or a single character.
pub struct RangeOf<C> {
    pub lo: C,
    pub lo_escaped: bool,
    pub hi: Option<(C, bool)>,
}

/// One part of a segment as it is spelled.
pub enum PartOf<C> {
    /// A character, with or without a `\` in front.
    Char { c: C, escaped: bool },
    Star,
    QuestionMark,
    /// A class; `mark` is the `!` or `^` that negates it.
    Class { mark: Option<C>, ranges: Seq<RangeOf<C>> },
}

/// A range of characters as it is spelled.
pub type Range = RangeOf<char>;

/// A part of a segment of characters as it is spelled.
pub type Part = PartOf<char>;

/// A character with or without a `\` in front.
pub open spec fn char_text(c: char, escaped: bool) -> Seq<char> {
    if escaped {
        seq!['\\', c]
    } else {
        seq![c]
    }
}

/// The spelling of a range.
pub open spec fn range_text(range: Range) -> Seq<char> {
    char_text(range.lo, range.lo_escaped) + match range.hi {
        None => Seq::empty(),
        Some((hi, escaped)) => seq!['-'] + char_text(hi, escaped),
    }
}

/// The spelling of ranges, with the `]` behind them.
pub open spec fn ranges_text(ranges: Seq<Range>) -> Seq<char>
    decreases ranges.len(),
{
    if ranges.len() == 0 {
        seq![']']
    } else {
        range_text(ranges[0]) + ranges_text(ranges.skip(1))
    }
}

/// Whether a range means what it spells, in front of what follows it: an end
/// without a `\` is no `\`, a first end is no `]` unless it comes first, a
/// second one is no `]`, and a single character is not read together with a
/// `-` behind it.
pub open spec fn range_stands(range: Range, first: bool, follows: Seq<char>) -> bool {
    &&& !range.lo_escaped ==> range.lo != '\\' && (first || range.lo != ']')
    &&& match range.hi {
        None => !(follows[0] == '-' && follows[1] != ']'),
        Some((hi, escaped)) => !escaped ==> hi != '\\' && hi != ']',
    }
}

/// Whether each range means what it spells.
pub open spec fn ranges_stand(ranges: Seq<Range>, first: bool) -> bool
    decreases ranges.len(),
{
    if ranges.len() == 0 {
        !first
    } else {
        range_stands(ranges[0], first, ranges_text(ranges.skip(1))) && ranges_stand(
            ranges.skip(1),
            false,
        )
    }
}

/// The ends of a range.
pub open spec fn range_ends(range: Range) -> (char, char) {
    match range.hi {
        None => (range.lo, range.lo),
        Some((hi, _)) => (range.lo, hi),
    }
}

/// The ends of some ranges.
pub open spec fn ranges_ends(ranges: Seq<Range>) -> Seq<(char, char)> {
    ranges.map_values(|range: Range| range_ends(range))
}

/// The spelling of a part.
pub open spec fn part_text(part: Part) -> Seq<char> {
    match part {
        Part::Char { c, escaped } => char_text(c, escaped),
        Part::Star => seq!['*'],
        Part::QuestionMark => seq!['?'],
        Part::Class { mark, ranges } => seq!['['] + (match mark {
            None => Seq::empty(),
            Some(m) => seq![m],
        }) + ranges_text(ranges),
    }
}

/// Whether a part means what it spells.
pub open spec fn part_stands(part: Part) -> bool {
    match part {
        Part::Char { c, escaped } => escaped || (c != '\\' && c != '*' && c != '?' && c != '['),
        Part::Class { mark, ranges } => ranges_stand(ranges, true) && match mark {
            None => ranges[0].lo_escaped || (ranges[0].lo != '!' && ranges[0].lo != '^'),
            Some(m) => m == '!' || m == '^',
        },
        _ => true,
    }
}

/// The token of a part.
pub open spec fn part_token(part: Part) -> TokView {
    match part {
        Part::Char { c, .. } => TokView::Char(c),
        Part::Star => TokView::Any,
        Part::QuestionMark => TokView::One,
        Part::Class { mark, ranges } => TokView::Class {
            negated: mark is Some,
            ranges: ranges_ends(ranges),
        },
    }
}

/// The spelling of parts.
pub open spec fn parts_text(parts: Seq<Part>) -> Seq<char>
    decreases parts.len(),
{
    if parts.len() == 0 {
        Seq::empty()
    } else {
        part_text(parts[0]) + parts_text(parts.skip(1))
    }
}

/// Whether each part means what it spells.
pub open spec fn parts_stand(parts: Seq<Part>) -> bool {
    forall|i: int| 0 <= i < parts.len() ==> part_stands(#[trigger] parts[i])
}

/// The tokens of parts.
pub open spec fn parts_tokens(parts: Seq<Part>) -> Seq<TokView> {
    parts.map_values(|part: Part| part_token(part))
}

proof fn lemma_char_read(c: char, escaped: bool, rest: Seq<char>)
    requires
        !escaped ==> c != '\\',
    ensures
        class_char(char_text(c, escaped) + rest) == Some((c, rest)),
{
    let s = char_text(c, escaped) + rest;
    if escaped {
        assert(s[0] == '\\' && s[1] == c);
        assert(s.skip(2) =~= rest);
    } else {
        assert(s[0] == c);
        assert(s.skip(1) =~= rest);
    }
}

proof fn lemma_ranges_text_long(ranges: Seq<Range>)
    ensures
        ranges_text(ranges).len() >= 1,
        ranges.len() > 0 ==> ranges_text(ranges).len() >= 2,
        ranges.len() == 0 ==> ranges_text(ranges)[0] == ']',
    decreases ranges.len(),
{
    if ranges.len() > 0 {
        lemma_ranges_text_long(ranges.skip(1));
    }
}

proof fn lemma_ranges_read(ranges: Seq<Range>, first: bool, tail: Seq<char>)
    requires
        ranges_stand(ranges, first),
    ensures
        class_ranges(ranges_text(ranges) + tail, first) == Some((ranges_ends(ranges), tail)),
    decreases ranges.len(),
{
    let s = ranges_text(ranges) + tail;
    if ranges.len() == 0 {
        assert(s[0] == ']');
        assert(s.skip(1) =~= tail);
        assert(ranges_ends(ranges) =~= Seq::empty());
    } else {
        let range = ranges[0];
        let later = ranges.skip(1);
        let follows = ranges_text(later);
        lemma_ranges_text_long(later);
        lemma_ranges_read(later, false, tail);
        assert(ranges_ends(ranges) =~= seq![range_ends(range)] + ranges_ends(later));
        let behind = match range.hi {
            None => follows + tail,
            Some((hi, escaped)) => seq!['-'] + char_text(hi, escaped) + (follows + tail),
        };
        assert(s =~= char_text(range.lo, range.lo_escaped) + behind);
        lemma_char_read(range.lo, range.lo_escaped, behind);
        assert(s[0] == (if range.lo_escaped {
            '\\'
        } else {
            range.lo
        }));
        match range.hi {
            None => {
                assert(behind[0] == follows[0]);
                if later.len() > 0 {
                    assert(behind[1] == follows[1]);
                }
            },
            Some((hi, escaped)) => {
                assert(behind[0] == '-');
                assert(behind[1] == (if escaped {
                    '\\'
                } else {
                    hi
                }));
                assert(behind.skip(1) =~= char_text(hi, escaped) + (follows + tail));
                lemma_char_read(hi, escaped, follows + tail);
            },
        }
    }
}

proof fn lemma_class_read(mark: Option<char>, ranges: Seq<Range>, tail: Seq<char>)
    requires
        part_stands(Part::Class { mark, ranges }),
    ensures
        class(
            part_text(Part::Class { mark, ranges }).skip(1) + tail,
        ) == Some((part_token(Part::Class { mark, ranges }), tail)),
{
    let s = part_text(Part::Class { mark, ranges }).skip(1) + tail;
    lemma_ranges_read(ranges, true, tail);
    lemma_ranges_text_long(ranges);
    let body = ranges_text(ranges) + tail;
    match mark {
        None => {
            assert(s =~= body);
            let range = ranges[0];
            assert(range_text(range)[0] == (if range.lo_escaped {
                '\\'
            } else {
                range.lo
            }));
            assert(s[0] == range_text(range)[0]);
        },
        Some(m) => {
            assert(s =~= seq![m] + body);
            assert(s[0] == m);
            assert(s.skip(1) =~= body);
        },
    }
}

proof fn lemma_parts_read(parts: Seq<Part>)
    requires
        parts_stand(parts),
    ensures
        tokens(parts_text(parts)) == Some(parts_tokens(parts)),
    decreases parts.len(),
{
    let s = parts_text(parts);
    if parts.len() == 0 {
        assert(parts_tokens(parts) =~= Seq::empty());
    } else {
        let part = parts[0];
        let later = parts.skip(1);
        let rest = parts_text(later);
        assert forall|i: int| 0 <= i < later.len() implies part_stands(#[trigger] later[i]) by {
            assert(later[i] == parts[i + 1]);
        }
        lemma_parts_read(later);
        assert(part_stands(part));
        assert(parts_tokens(parts) =~= seq![part_token(part)] + parts_tokens(later));
        match part {
            Part::Char { c, escaped } => {
                if escaped {
                    assert(s[0] == '\\' && s[1] == c);
                    assert(s.skip(2) =~= rest);
                } else {
                    assert(s[0] == c);
                    assert(s.skip(1) =~= rest);
                }
            },
            Part::Star => {
                assert(s[0] == '*');
                assert(s.skip(1) =~= rest);
            },
            Part::QuestionMark => {
                assert(s[0] == '?');
                assert(s.skip(1) =~= rest);
            },
            Part::Class { mark, ranges } => {
                assert(s[0] == '[');
                lemma_class_read(mark, ranges, rest);
                assert(s.skip(1) =~= part_text(part).skip(1) + rest);
            },
        }
    }
}

/// A segment matches a name exactly as its parts do, read one after another as
/// they are spelled: a character matches itself, with or without a `\` in
/// front, `*` any run, `?` any character, and a class a character between the
/// ends of one of its ranges, or if it begins with `!` or `^` any other one. The
/// one exception is a bare `**`.
#[verifier::spinoff_prover]
#[verifier::rlimit(40)]
pub proof fn law_segment_read(parts: Seq<Part>, name: Seq<char>)
    requires
        parts_stand(parts),
        parts_text(parts) != seq!['*', '*'],
    ensures
        segment(parts_text(parts)) matches Some(seg) && !(seg is DoubleStar) && (segment_matches(
            seg,
            name,
        ) <==> glob::glob(parts_tokens(parts), name)),
{
    lemma_parts_read(parts);
    let toks = parts_tokens(parts);
    if all_chars(toks) {
        let literal = literal_text(toks);
        assert(char_tokens(literal) =~= toks) by {
            assert forall|i: int| 0 <= i < toks.len() implies toks[i] == char_tokens(literal)[i] by {
                assert(toks[i] is Char);
            }
        }
        law_literal_tokens(literal, name);
    } else {
        law_collapse(toks, name);
    }
}

proof fn lemma_range_added(range: Range, later: Seq<Range>)
    ensures
        (seq![range] + later).skip(1) == later,
        ranges_text(seq![range] + later) == range_text(range) + ranges_text(later),
{
    assert((seq![range] + later).skip(1) =~= later);
}

proof fn lemma_regrouped(a: Seq<char>, b: Seq<char>, c: Seq<char>, d: Seq<char>, e: Seq<char>)
    ensures
        a + (b + (c + (d + e))) == a + (b + c) + d + e,
        a + (d + e) == a + Seq::empty() + d + e,
{
    assert(a + (b + (c + (d + e))) =~= a + (b + c) + d + e);
    assert(a + (d + e) =~= a + Seq::empty() + d + e);
}

proof fn lemma_char_found(s: Seq<char>)
    requires
        class_char(s) is Some,
    ensures
        ({
            let (c, t) = class_char(s)->0;
            s == char_text(c, s[0] == '\\') + t && t.len() < s.len() && s.len() > 0
        }),
{
    let (c, t) = class_char(s)->0;
    assert(s =~= char_text(c, s[0] == '\\') + t);
}

#[verifier::spinoff_prover]
#[verifier::rlimit(40)]
proof fn lemma_ranges_found(s: Seq<char>, first: bool) -> (found: (Seq<Range>, Seq<char>))
    requires
        class_ranges(s, first) is Some,
    ensures
        ranges_stand(found.0, first),
        s == ranges_text(found.0) + found.1,
    decreases s.len(),
{
    if s.len() > 0 && s[0] == ']' && !first {
        assert(s =~= seq![']'] + s.skip(1));
        (Seq::<Range>::empty(), s.skip(1))
    } else {
        lemma_char_found(s);
        let (lo, t) = class_char(s)->0;
        let lo_escaped = s[0] == '\\';
        if t.len() >= 2 && t[0] == '-' && t[1] != ']' {
            lemma_char_found(t.skip(1));
            let (hi, u) = class_char(t.skip(1))->0;
            let escaped = t[1] == '\\';
            let (later, rest) = lemma_ranges_found(u, false);
            let range = Range { lo, lo_escaped, hi: Some((hi, escaped)) };
            lemma_range_added(range, later);
            assert(t =~= seq!['-'] + t.skip(1));
            lemma_regrouped(
                char_text(lo, lo_escaped),
                seq!['-'],
                char_text(hi, escaped),
                ranges_text(later),
                rest,
            );
            (seq![range] + later, rest)
        } else {
            let (later, rest) = lemma_ranges_found(t, false);
            let range = Range { lo, lo_escaped, hi: None };
            lemma_range_added(range, later);
            lemma_ranges_text_long(later);
            let follows = ranges_text(later);
            assert(follows[0] == t[0]);
            if later.len() > 0 {
                assert(follows[1] == t[1]);
            }
            lemma_regrouped(
                char_text(lo, lo_escaped),
                seq!['-'],
                seq!['-'],
                ranges_text(later),
                rest,
            );
            (seq![range] + later, rest)
        }
    }
}

#[verifier::spinoff_prover]
#[verifier::rlimit(40)]
proof fn lemma_parts_found(s: Seq<char>) -> (parts: Seq<Part>)
    requires
        tokens(s) is Some,
    ensures
        parts_stand(parts),
        parts_text(parts) == s,
    decreases s.len(),
{
    if s.len() == 0 {
        assert(s =~= Seq::empty());
        Seq::empty()
    } else {
        let c = s[0];
        let (part, rest): (Part, Seq<char>) = if c == '\\' {
            assert(s =~= char_text(s[1], true) + s.skip(2));
            (Part::Char { c: s[1], escaped: true }, s.skip(2))
        } else if c == '*' {
            assert(s =~= seq!['*'] + s.skip(1));
            (Part::Star, s.skip(1))
        } else if c == '?' {
            assert(s =~= seq!['?'] + s.skip(1));
            (Part::QuestionMark, s.skip(1))
        } else if c == '[' {
            let t = s.skip(1);
            let negated = t.len() > 0 && (t[0] == '!' || t[0] == '^');
            let body = if negated {
                t.skip(1)
            } else {
                t
            };
            let (ranges, rest) = lemma_ranges_found(body, true);
            lemma_ranges_read(ranges, true, rest);
            let mark: Option<char> = if negated {
                Some(t[0])
            } else {
                None
            };
            lemma_class_shorter(t);
            lemma_ranges_text_long(ranges);
            if negated {
                assert(s =~= seq!['['] + seq![t[0]] + body);
                assert(seq!['['] + seq![t[0]] + (ranges_text(ranges) + rest) =~= seq!['['] + seq![
                    t[0],
                ] + ranges_text(ranges) + rest);
            } else {
                assert(range_text(ranges[0])[0] == t[0]);
                assert(s =~= seq!['['] + Seq::empty() + body);
                assert(seq!['['] + Seq::empty() + (ranges_text(ranges) + rest) =~= seq!['[']
                    + Seq::empty() + ranges_text(ranges) + rest);
            }
            let part = Part::Class { mark, ranges };
            (part, rest)
        } else {
            assert(s =~= char_text(c, false) + s.skip(1));
            (Part::Char { c, escaped: false }, s.skip(1))
        };
        let later = lemma_parts_found(rest);
        let parts = seq![part] + later;
        assert(parts.skip(1) =~= later);
        assert(part_stands(part));
        assert forall|i: int| 0 <= i < parts.len() implies part_stands(#[trigger] parts[i]) by {
            if i > 0 {
                assert(parts[i] == later[i - 1]);
            }
        }
        parts
    }
}

/// A text is a segment exactly if it can be read as parts; a bare `**` is one
/// of its own. What cannot be read so is malformed: a lone `\` at the end, or a
/// class without an end.
pub proof fn law_segment_exists(s: Seq<char>)
    ensures
        segment(s) is Some <==> exists|parts: Seq<Part>|
            parts_stand(parts) && #[trigger] parts_text(parts) == s,
        segment(s) == Some(SegmentView::DoubleStar) <==> s == seq!['*', '*'],
{
    if s == seq!['*', '*'] {
        let parts = seq![Part::Star, Part::Star];
        assert(parts.skip(1) =~= seq![Part::Star]);
        assert(parts.skip(1).skip(1) =~= Seq::empty());
        assert(parts_text(parts.skip(1).skip(1)) =~= Seq::empty());
        assert(parts_text(parts.skip(1)) =~= seq!['*']);
        assert(parts_text(parts) =~= s);
    } else {
        if segment(s) is Some {
            let parts = lemma_parts_found(s);
            assert(parts_text(parts) == s);
        }
        if exists|parts: Seq<Part>| parts_stand(parts) && #[trigger] parts_text(parts) == s {
            let parts = choose|parts: Seq<Part>|
                parts_stand(parts) && #[trigger] parts_text(parts) == s;
            lemma_parts_read(parts);
        }
    }
}

/// A class with one range matches the names of one character from its first to
/// its last, and no others; negated it matches all other names of one
/// character.
pub proof fn law_range(lo: char, hi: char, mark: char, name: Seq<char>)
    requires
        mark == '!' || mark == '^',
    ensures
        segment(seq!['[', '\\', lo, '-', '\\', hi, ']']) matches Some(seg) && (segment_matches(
            seg,
            name,
        ) <==> name.len() == 1 && lo <= name[0] && name[0] <= hi),
        segment(seq!['[', mark, '\\', lo, '-', '\\', hi, ']']) matches Some(seg) && (
        segment_matches(seg, name) <==> name.len() == 1 && !(lo <= name[0] && name[0] <= hi)),
        lo != '\\' && lo != '!' && lo != '^' && hi != '\\' && hi != ']' ==> (segment(
            seq!['[', lo, '-', hi, ']'],
        ) matches Some(seg) && (segment_matches(seg, name) <==> name.len() == 1 && lo <= name[0]
            && name[0] <= hi)),
{
    let escaped = seq![Range { lo, lo_escaped: true, hi: Some((hi, true)) }];
    let bare = seq![Range { lo, lo_escaped: false, hi: Some((hi, false)) }];
    lemma_one_range(escaped, None, name);
    lemma_one_range(escaped, Some(mark), name);
    assert(seq!['['] + Seq::empty() + (seq!['\\', lo] + (seq!['-'] + seq!['\\', hi]) + seq![
        ']',
    ]) =~= seq!['[', '\\', lo, '-', '\\', hi, ']']);
    assert(seq!['['] + seq![mark] + (seq!['\\', lo] + (seq!['-'] + seq!['\\', hi]) + seq![']'])
        =~= seq!['[', mark, '\\', lo, '-', '\\', hi, ']']);
    if lo != '\\' && lo != '!' && lo != '^' && hi != '\\' && hi != ']' {
        lemma_one_range(bare, None, name);
        assert(seq!['['] + Seq::empty() + (seq![lo] + (seq!['-'] + seq![hi]) + seq![']']) =~= seq![
            '[',
            lo,
            '-',
            hi,
            ']',
        ]);
    }
}

proof fn lemma_one_range(ranges: Seq<Range>, mark: Option<char>, name: Seq<char>)
    requires
        ranges.len() == 1,
        ranges[0].hi is Some,
        range_stands(ranges[0], true, seq![']']),
        part_stands_mark(ranges[0], mark),
    ensures
        ({
            let text = seq!['['] + (match mark {
                None => Seq::empty(),
                Some(m) => seq![m],
            }) + (range_text(ranges[0]) + seq![']']);
            let ends = range_ends(ranges[0]);
            segment(text) matches Some(seg) && (segment_matches(seg, name) <==> name.len() == 1
                && (ends.0 <= name[0] && name[0] <= ends.1) != (mark is Some))
        }),
{
    let part = Part::Class { mark, ranges };
    let parts = seq![part];
    assert(ranges.skip(1) =~= Seq::empty());
    assert(ranges_text(ranges.skip(1)) =~= seq![']']);
    assert(ranges_stand(ranges.skip(1), false));
    assert(ranges_stand(ranges, true));
    assert(part_stands(part));
    assert(parts.skip(1) =~= Seq::empty());
    assert(parts_text(parts.skip(1)) =~= Seq::empty());
    assert(parts_text(parts) =~= part_text(part));
    assert(parts_text(parts)[0] == '[');
    assert(seq!['*', '*'][0] == '*');
    law_segment_read(parts, name);
    let ends = ranges_ends(ranges);
    assert(parts_tokens(parts) =~= seq![
        TokView::Class { negated: mark is Some, ranges: ends },
    ]);
    glob::law_single_tokens(name, 'x', mark is Some, ends);
    assert(ends.len() == 1 && ends[0] == range_ends(ranges[0]));
}

/// Whether a class that begins with this range, behind this mark, is negated by
/// the mark alone.
spec fn part_stands_mark(range: Range, mark: Option<char>) -> bool {
    match mark {
        None => range.lo_escaped || (range.lo != '!' && range.lo != '^'),
        Some(m) => m == '!' || m == '^',
    }
}

// ---------------------------------------------------------------------------
// Laws: how a line is spelled
// ---------------------------------------------------------------------------

/// Pieces with a `/` between each two.
pub open spec fn joined(pieces: Seq<Seq<char>>) -> Seq<char>
    decreases pieces.len(),
{
    if pieces.len() == 0 {
        Seq::empty()
    } else if pieces.len() == 1 {
        pieces[0]
    } else {
        joined(pieces.drop_last()) + (seq!['/'] + pieces.last())
    }
}

/// A line without its blanks: a `!` if it negates, a `/` in front if it is
/// rooted, the pieces, and a `/` at the end if it is for directories only.
pub open spec fn line_text(
    negated: bool,
    rooted: bool,
    pieces: Seq<Seq<char>>,
    dir_only: bool,
) -> Seq<char> {
    (if negated {
        seq!['!']
    } else {
        Seq::empty()
    }) + ((if rooted {
        seq!['/']
    } else {
        Seq::empty()
    }) + (joined(pieces) + (if dir_only {
        seq!['/']
    } else {
        Seq::empty()
    })))
}

/// So many spaces.
pub open spec fn spaces(n: nat) -> Seq<char> {
    Seq::new(n, |i: int| ' ')
}

proof fn lemma_joined(pieces: Seq<Seq<char>>)
    requires
        pieces.len() > 0,
        forall|i: int| 0 <= i < pieces.len() ==> !(#[trigger] pieces[i]).contains('/'),
    ensures
        text::split(joined(pieces), '/') == pieces,
        joined(pieces).contains('/') <==> pieces.len() > 1,
        pieces[0].len() > 0 ==> joined(pieces).len() > 0 && joined(pieces)[0] == pieces[0][0],
        pieces.last().len() > 0 ==> joined(pieces).len() > 0 && joined(pieces).last()
            == pieces.last().last(),
    decreases pieces.len(),
{
    let last = pieces.last();
    assert(!last.contains('/'));
    text::lemma_split_single(last, '/');
    if pieces.len() == 1 {
        assert(pieces =~= seq![last]);
    } else {
        let front = pieces.drop_last();
        assert forall|i: int| 0 <= i < front.len() implies !(#[trigger] front[i]).contains('/') by {
            assert(front[i] == pieces[i]);
        }
        lemma_joined(front);
        let s = joined(front);
        assert(joined(pieces) =~= s.push('/') + last);
        text::lemma_split_joined(s, last, '/');
        assert(front + seq![last] =~= pieces);
        assert(joined(pieces)[s.len() as int] == '/');
    }
}

proof fn lemma_segments_each(pieces: Seq<Seq<char>>)
    ensures
        segments(pieces) is None <==> exists|i: int|
            0 <= i < pieces.len() && ((#[trigger] pieces[i]).len() == 0 || segment(pieces[i]) is None),
        segments(pieces) matches Some(segs) ==> segs.len() == pieces.len() && forall|i: int|
            0 <= i < pieces.len() ==> segment(pieces[i]) == Some(#[trigger] segs[i]),
    decreases pieces.len(),
{
    if pieces.len() > 0 {
        let front = pieces.drop_last();
        lemma_segments_each(front);
        let n = pieces.len() - 1;
        assert(pieces[n] == pieces.last());
        if segments(front) is None {
            let i = choose|i: int|
                0 <= i < front.len() && ((#[trigger] front[i]).len() == 0 || segment(front[i]) is None);
            assert(pieces[i] == front[i]);
        } else if let Some(segs) = segments(pieces) {
            let before = segments(front)->0;
            assert forall|i: int| 0 <= i < pieces.len() implies segment(pieces[i]) == Some(
                #[trigger] segs[i],
            ) by {
                if i < n {
                    assert(pieces[i] == front[i]);
                    assert(segs[i] == before[i]);
                }
            }
            assert forall|i: int| 0 <= i < pieces.len() implies !((#[trigger] pieces[i]).len() == 0
                || segment(pieces[i]) is None) by {
                if i < n {
                    assert(pieces[i] == front[i]);
                }
            }
        }
    }
}

/// Spaces at the end of a text are stripped, whatever their number, up to one
/// with a `\` in front.
pub proof fn law_spaces_stripped(core: Seq<char>, n: nat)
    requires
        core.len() > 0 && core.last() == ' ' ==> core.len() >= 2 && core[core.len() - 2] == '\\',
        n > 0 && core.len() > 0 ==> core.last() != '\\',
    ensures
        strip_spaces(core + spaces(n)) == core,
    decreases n,
{
    let s = core + spaces(n);
    if n == 0 {
        assert(s =~= core);
    } else {
        let m = (n - 1) as nat;
        assert(s.last() == ' ');
        assert(s.drop_last() =~= core + spaces(m));
        if s.len() >= 2 {
            assert(s[s.len() - 2] == (if m > 0 {
                ' '
            } else {
                core.last()
            }));
        }
        law_spaces_stripped(core, m);
    }
}

/// What a line means is read off its spelling: a `!` in front negates, a `/` at
/// the end restricts it to directories, and a `/` anywhere else, in front
/// included, anchors it, as does the Docker dialect. The pieces between are its
/// segments, whatever characters they hold. Blanks and one carriage return at
/// the end do not count. The line is nothing if there is no piece, or one that
/// is empty or no segment.
#[verifier::spinoff_prover]
#[verifier::rlimit(40)]
pub proof fn law_line(
    negated: bool,
    rooted: bool,
    pieces: Seq<Seq<char>>,
    dir_only: bool,
    blanks: nat,
    returned: bool,
    flavor: Flavor,
)
    requires
        pieces.len() > 0,
        forall|i: int| 0 <= i < pieces.len() ==> !(#[trigger] pieces[i]).contains('/'),
        pieces[0].len() == 0 ==> rooted || joined(pieces).len() == 0,
        pieces.last().len() == 0 ==> dir_only || joined(pieces).len() == 0,
        ({
            let core = line_text(negated, rooted, pieces, dir_only);
            &&& core.len() > 0 ==> core[0] != '#' && (!negated ==> core[0] != '!')
            &&& core.len() > 0 && core.last() == ' ' ==> core.len() >= 2 && core[core.len() - 2]
                == '\\'
            &&& blanks > 0 && core.len() > 0 ==> core.last() != '\\'
            &&& core.len() > 0 && core.last() == '\r' ==> returned || blanks > 0
        }),
    ensures
        ({
            let line = line_text(negated, rooted, pieces, dir_only) + spaces(blanks) + (
            if returned {
                seq!['\r']
            } else {
                Seq::empty()
            });
            match pattern(line, flavor) {
                None => joined(pieces).len() == 0 || exists|i: int|
                    0 <= i < pieces.len() && ((#[trigger] pieces[i]).len() == 0 || segment(
                        pieces[i],
                    ) is None),
                Some(p) => {
                    &&& joined(pieces).len() > 0
                    &&& p.negated == negated
                    &&& p.dir_only == dir_only
                    &&& p.anchored == (flavor is Docker || rooted || pieces.len() > 1)
                    &&& p.segments.len() == pieces.len()
                    &&& forall|i: int|
                        0 <= i < pieces.len() ==> (#[trigger] pieces[i]).len() > 0 && segment(
                            pieces[i],
                        ) == Some(p.segments[i])
                },
            }
        }),
{
    let core = line_text(negated, rooted, pieces, dir_only);
    let line = core + spaces(blanks) + (if returned {
        seq!['\r']
    } else {
        Seq::empty()
    });
    lemma_joined(pieces);
    lemma_segments_each(pieces);
    lemma_line_end(core, blanks, returned);
    if joined(pieces).len() > 0 {
        if joined(pieces)[0] == '/' && pieces[0].len() > 0 {
            assert(pieces[0].contains(pieces[0][0]));
        }
        if joined(pieces).last() == '/' && pieces.last().len() > 0 {
            assert(pieces.last().contains(pieces.last().last()));
        }
        lemma_line_path(line, negated, rooted, joined(pieces), dir_only, flavor);
    } else {
        lemma_line_empty(line, negated, rooted, joined(pieces), dir_only, flavor);
    }
}

proof fn lemma_line_end(core: Seq<char>, blanks: nat, returned: bool)
    requires
        core.len() > 0 && core.last() == ' ' ==> core.len() >= 2 && core[core.len() - 2] == '\\',
        blanks > 0 && core.len() > 0 ==> core.last() != '\\',
        core.len() > 0 && core.last() == '\r' ==> returned || blanks > 0,
    ensures
        ({
            let line = core + spaces(blanks) + (if returned {
                seq!['\r']
            } else {
                Seq::empty()
            });
            let l = text::strip_cr(line);
            &&& strip_spaces(l) == core
            &&& core.len() > 0 ==> l.len() > 0 && l[0] == core[0]
        }),
{
    let line = core + spaces(blanks) + (if returned {
        seq!['\r']
    } else {
        Seq::empty()
    });
    law_spaces_stripped(core, blanks);
    let l = core + spaces(blanks);
    if returned {
        assert(line.drop_last() =~= l);
        assert(line.last() == '\r');
    } else {
        assert(line =~= l);
        if l.len() > 0 {
            assert(l.last() == (if blanks > 0 {
                ' '
            } else {
                core.last()
            }));
        }
    }
}

/// The text of a line behind its `!`.
spec fn behind_mark(rooted: bool, relative: Seq<char>, dir_only: bool) -> Seq<char> {
    (if rooted {
        seq!['/']
    } else {
        Seq::empty()
    }) + (relative + (if dir_only {
        seq!['/']
    } else {
        Seq::empty()
    }))
}

/// The text of a line.
spec fn with_mark(negated: bool, rest: Seq<char>) -> Seq<char> {
    (if negated {
        seq!['!']
    } else {
        Seq::empty()
    }) + rest
}

#[verifier::spinoff_prover]
#[verifier::rlimit(40)]
proof fn lemma_line_path(
    line: Seq<char>,
    negated: bool,
    rooted: bool,
    relative: Seq<char>,
    dir_only: bool,
    flavor: Flavor,
)
    requires
        relative.len() > 0,
        relative[0] == '/' ==> rooted,
        relative.last() == '/' ==> dir_only,
        strip_spaces(text::strip_cr(line)) == with_mark(
            negated,
            behind_mark(rooted, relative, dir_only),
        ),
        text::strip_cr(line).len() > 0,
        text::strip_cr(line)[0] == with_mark(negated, behind_mark(rooted, relative, dir_only))[0],
        text::strip_cr(line)[0] != '#',
        !negated ==> text::strip_cr(line)[0] != '!',
    ensures
        pattern(line, flavor) == match segments(text::split(relative, '/')) {
            None => None::<PatternView>,
            Some(segments) => Some(
                PatternView {
                    negated,
                    dir_only,
                    anchored: flavor is Docker || rooted || relative.contains('/'),
                    segments,
                },
            ),
        },
{
    let rest = behind_mark(rooted, relative, dir_only);
    let core = with_mark(negated, rest);
    lemma_line_middle(rooted, relative, dir_only);
    if negated {
        assert(core[0] == '!');
        assert(core.skip(1) =~= rest);
    } else {
        assert(core =~= rest);
    }
    let path = (if rooted {
        seq!['/']
    } else {
        Seq::empty()
    }) + relative;
    assert(path.contains('/') <==> rooted || relative.contains('/')) by {
        if rooted {
            assert(path[0] == '/');
        } else {
            assert(path =~= relative);
        }
    }
}

proof fn lemma_line_empty(
    line: Seq<char>,
    negated: bool,
    rooted: bool,
    relative: Seq<char>,
    dir_only: bool,
    flavor: Flavor,
)
    requires
        relative.len() == 0,
        strip_spaces(text::strip_cr(line)) == with_mark(
            negated,
            behind_mark(rooted, relative, dir_only),
        ),
        !negated && with_mark(negated, behind_mark(rooted, relative, dir_only)).len() > 0
            ==> with_mark(negated, behind_mark(rooted, relative, dir_only))[0] != '!',
    ensures
        pattern(line, flavor) is None,
{
    let rest = behind_mark(rooted, relative, dir_only);
    let core = with_mark(negated, rest);
    if negated {
        assert(core[0] == '!');
        assert(core.skip(1) =~= rest);
    } else {
        assert(core =~= rest);
    }
    assert(rest.len() <= 2);
    assert(forall|i: int| 0 <= i < rest.len() ==> rest[i] == '/');
}

proof fn lemma_line_middle(rooted: bool, relative: Seq<char>, dir_only: bool)
    requires
        relative.len() > 0,
        relative[0] == '/' ==> rooted,
        relative.last() == '/' ==> dir_only,
    ensures
        ({
            let front = if rooted {
                seq!['/']
            } else {
                Seq::empty()
            };
            let path = front + relative;
            let rest = front + (relative + (if dir_only {
                seq!['/']
            } else {
                Seq::empty()
            }));
            &&& rest.len() > 0
            &&& (rest.last() == '/') == dir_only
            &&& dir_only ==> rest.drop_last() == path
            &&& !dir_only ==> rest == path
            &&& path.len() > 0
            &&& (path[0] == '/') == rooted
            &&& rooted ==> path.skip(1) == relative
            &&& !rooted ==> path == relative
        }),
{
    let front = if rooted {
        seq!['/']
    } else {
        Seq::<char>::empty()
    };
    let path = front + relative;
    let rest = front + (relative + (if dir_only {
        seq!['/']
    } else {
        Seq::empty()
    }));
    if dir_only {
        assert(rest.drop_last() =~= path);
    } else {
        assert(rest =~= path);
        assert(rest.last() == relative.last());
    }
    if rooted {
        assert(path.skip(1) =~= relative);
    } else {
        assert(path =~= relative);
    }
}

/// What a pattern matches: never the directory of the file itself, and for
/// directories only if it says so. A bare name matches by its one segment
/// against the last component, any other pattern by all its segments against
/// the whole path.
pub proof fn law_pattern_matches(
    p: PatternView,
    comps: Seq<Seq<char>>,
    last: Seq<char>,
    is_dir: bool,
)
    ensures
        !pattern_matches(p, Seq::empty(), is_dir),
        p.dir_only ==> !pattern_matches(p, comps, false),
        !p.dir_only ==> (pattern_matches(p, comps, is_dir) <==> pattern_matches(
            PatternView { dir_only: true, ..p },
            comps,
            true,
        )),
        !p.anchored && p.segments.len() == 1 ==> (pattern_matches(p, comps.push(last), true)
            <==> segment_matches(p.segments[0], last)),
        p.anchored || p.segments.len() != 1 ==> (pattern_matches(p, comps.push(last), true)
            <==> segments_match(p.segments, comps.push(last))),
{
    assert(comps.push(last).last() == last);
}

/// A line with a `/` in front of one segment matches a path exactly if the path
/// has one component and the segment matches that: it is for the directory of
/// the file alone, in both dialects and whatever characters the segment holds.
pub proof fn law_rooted_segment(
    s: Seq<char>,
    flavor: Flavor,
    comps: Seq<Seq<char>>,
    is_dir: bool,
)
    requires
        s.len() > 0,
        !s.contains('/'),
        s.last() != ' ',
        s.last() != '\r',
        s != seq!['*', '*'],
    ensures
        pattern(seq!['/'] + s, flavor) is Some <==> segment(s) is Some,
        pattern(seq!['/'] + s, flavor) matches Some(p) ==> !p.negated && (pattern_matches(
            p,
            comps,
            is_dir,
        ) <==> comps.len() == 1 && segment_matches(segment(s)->0, comps[0])),
{
    let pieces = seq![s];
    let core = line_text(false, true, pieces, false);
    assert(pieces[0] == s && pieces.last() == s);
    assert(core =~= seq!['/'] + s);
    assert(core.last() == s.last());
    law_line(false, true, pieces, false, 0, false, flavor);
    assert(core + spaces(0) + Seq::empty() =~= core);
    if let Some(p) = pattern(core, flavor) {
        assert(segment(pieces[0]) == Some(p.segments[0]));
        law_segment_exists(s);
        law_one_component_each(p.segments, comps);
    } else {
        let i = choose|i: int|
            0 <= i < pieces.len() && ((#[trigger] pieces[i]).len() == 0 || segment(pieces[i]) is None);
        assert(pieces[i] == s);
    }
}

/// What a segment alone matches: a literal itself, a glob what the glob
/// matches, and `**` any component.
pub proof fn law_segment_alone(s: Seq<char>, toks: Seq<TokView>, component: Seq<char>)
    ensures
        segment_matches(SegmentView::Literal(s), component) <==> component == s,
        segment_matches(SegmentView::Glob(toks), component) <==> glob::glob(toks, component),
        segment_matches(SegmentView::DoubleStar, component),
{
}

} // verus!
