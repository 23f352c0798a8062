//! Text as a sequence of characters: splitting it into pieces and lines.

use vstd::prelude::*;
use vstd::slice::slice_subrange;

verus! {

/// The contents of a list of pieces.
pub open spec fn texts(pieces: Seq<Vec<char>>) -> Seq<Seq<char>> {
    pieces.map_values(|piece: Vec<char>| piece@)
}

/// `s` cut at every `sep`. There is always one piece more than there are
/// separators, so an empty `s` is one empty piece.
pub open spec fn split(s: Seq<char>, sep: char) -> Seq<Seq<char>>
    decreases s.len(),
{
    if s.len() == 0 {
        seq![Seq::empty()]
    } else {
        let before = split(s.drop_last(), sep);
        if s.last() == sep {
            before.push(Seq::empty())
        } else {
            before.drop_last().push(before.last().push(s.last()))
        }
    }
}

/// `s` without one final carriage return.
pub open spec fn strip_cr(s: Seq<char>) -> Seq<char> {
    if s.len() > 0 && s.last() == '\r' {
        s.drop_last()
    } else {
        s
    }
}

/// The lines of a text. A line ends at `\n` or `\r\n`, neither of which
/// belongs to it; the last line may go without an ending, and then keeps a
/// carriage return.
pub open spec fn lines(s: Seq<char>) -> Seq<Seq<char>> {
    let pieces = split(s, '\n');
    let ended = pieces.drop_last().map_values(|piece: Seq<char>| strip_cr(piece));
    if pieces.last().len() == 0 {
        ended
    } else {
        ended.push(pieces.last())
    }
}

/// There is always a piece.
pub proof fn lemma_split_nonempty(s: Seq<char>, sep: char)
    ensures
        split(s, sep).len() > 0,
    decreases s.len(),
{
    if s.len() > 0 {
        lemma_split_nonempty(s.drop_last(), sep);
    }
}

/// The characters of a string.
pub fn chars_of(s: &str) -> (r: Vec<char>)
    ensures
        r@ == s@,
{
    let mut out: Vec<char> = Vec::new();
    for c in it: s.chars()
        invariant
            it.seq() == s@,
            out@ == s@.take(it.index()),
    {
        out.push(c);
        assert(s@.take(it.index() + 1) =~= s@.take(it.index()).push(s@[it.index()]));
    }
    assert(s@.take(s@.len() as int) =~= s@);
    out
}

/// The character at `i`.
pub fn char_at(s: &[char], i: usize) -> (c: char)
    requires
        i < s@.len(),
    ensures
        c == s@[i as int],
{
    s[i]
}

/// Copies a text.
pub fn copy_text(s: &[char]) -> (r: Vec<char>)
    ensures
        r@ == s@,
{
    let mut out: Vec<char> = Vec::new();
    for i in 0..s.len()
        invariant
            out@ == s@.take(i as int),
    {
        out.push(s[i]);
        assert(s@.take(i + 1) =~= s@.take(i as int).push(s@[i as int]));
    }
    assert(s@.take(s@.len() as int) =~= s@);
    out
}

/// Whether two pieces of text are the same.
pub fn same_text(a: &[char], b: &[char]) -> (r: bool)
    ensures
        r == (a@ == b@),
{
    if a.len() != b.len() {
        return false;
    }
    for i in 0..a.len()
        invariant
            a@.len() == b@.len(),
            forall|j: int| 0 <= j < i ==> a@[j] == b@[j],
    {
        if a[i] != b[i] {
            return false;
        }
    }
    assert(a@ =~= b@);
    true
}

/// Whether a character occurs in a text.
pub fn contains_char(s: &[char], c: char) -> (r: bool)
    ensures
        r == s@.contains(c),
{
    for i in 0..s.len()
        invariant
            forall|j: int| 0 <= j < i ==> s@[j] != c,
    {
        if s[i] == c {
            return true;
        }
    }
    false
}

/// Cuts a text at every separator.
pub fn split_text(s: &[char], sep: char) -> (r: Vec<Vec<char>>)
    ensures
        texts(r@) == split(s@, sep),
        r@.len() > 0,
{
    let mut out: Vec<Vec<char>> = Vec::new();
    let mut piece: Vec<char> = Vec::new();
    for i in 0..s.len()
        invariant
            texts(out@).push(piece@) == split(s@.take(i as int), sep),
    {
        let c = s[i];
        let ghost before = texts(out@).push(piece@);
        assert(s@.take(i as int + 1).drop_last() =~= s@.take(i as int));
        assert(before.drop_last() =~= texts(out@));
        if c == sep {
            let ghost pieces = out@;
            let ghost done = piece@;
            out.push(piece);
            piece = Vec::new();
            assert(texts(out@) =~= texts(pieces).push(done));
        } else {
            piece.push(c);
        }
    }
    assert(s@.take(s@.len() as int) =~= s@);
    let ghost pieces = out@;
    let ghost done = piece@;
    out.push(piece);
    assert(texts(out@) =~= texts(pieces).push(done));
    out
}

/// A text without one final carriage return.
pub fn without_cr(s: &[char]) -> (r: &[char])
    ensures
        r@ == strip_cr(s@),
{
    if s.len() > 0 && s[s.len() - 1] == '\r' {
        slice_subrange(s, 0, s.len() - 1)
    } else {
        s
    }
}

/// Cutting two texts with a separator between them cuts each of them.
pub proof fn lemma_split_joined(a: Seq<char>, b: Seq<char>, sep: char)
    ensures
        split(a.push(sep) + b, sep) == split(a, sep) + split(b, sep),
    decreases b.len(),
{
    let whole = a.push(sep) + b;
    if b.len() == 0 {
        assert(whole =~= a.push(sep));
        assert(whole.drop_last() =~= a);
        assert(split(whole, sep) =~= split(a, sep) + split(b, sep));
    } else {
        assert(whole.drop_last() =~= a.push(sep) + b.drop_last());
        assert(whole.last() == b.last());
        lemma_split_joined(a, b.drop_last(), sep);
        lemma_split_nonempty(b.drop_last(), sep);
        assert(split(whole, sep) =~= split(a, sep) + split(b, sep));
    }
}

/// A text without a separator is one piece.
pub proof fn lemma_split_single(s: Seq<char>, sep: char)
    requires
        !s.contains(sep),
    ensures
        split(s, sep) == seq![s],
    decreases s.len(),
{
    if s.len() > 0 {
        assert(s.last() != sep);
        assert(!s.drop_last().contains(sep)) by {
            if s.drop_last().contains(sep) {
                let i = choose|i: int| 0 <= i < s.drop_last().len() && s.drop_last()[i] == sep;
                assert(s[i] == sep);
            }
        }
        lemma_split_single(s.drop_last(), sep);
        assert(s.drop_last().push(s.last()) =~= s);
        assert(split(s, sep) =~= seq![s]);
    } else {
        assert(s =~= Seq::empty());
        assert(split(s, sep) =~= seq![s]);
    }
}

/// A text with a carriage return put in front of every line end.
pub open spec fn with_cr(s: Seq<char>) -> Seq<char>
    decreases s.len(),
{
    if s.len() == 0 {
        Seq::empty()
    } else if s.last() == '\n' {
        with_cr(s.drop_last()).push('\r').push('\n')
    } else {
        with_cr(s.drop_last()).push(s.last())
    }
}

/// Whether a piece of text ends in two carriage returns.
pub open spec fn ends_in_two_cr(s: Seq<char>) -> bool {
    s.len() >= 2 && s.last() == '\r' && s[s.len() - 2] == '\r'
}

/// Carriage returns in front of line ends stand at the end of the pieces.
pub proof fn lemma_split_with_cr(s: Seq<char>)
    ensures
        split(with_cr(s), '\n').len() == split(s, '\n').len(),
        split(with_cr(s), '\n').last() == split(s, '\n').last(),
        forall|i: int|
            0 <= i < split(s, '\n').len() - 1 ==> #[trigger] split(with_cr(s), '\n')[i] == split(
                s,
                '\n',
            )[i].push('\r'),
    decreases s.len(),
{
    if s.len() > 0 {
        let t = s.drop_last();
        let front = with_cr(t);
        lemma_split_with_cr(t);
        lemma_split_nonempty(t, '\n');
        lemma_split_nonempty(front, '\n');
        if s.last() == '\n' {
            let mid = front.push('\r');
            assert(mid.drop_last() =~= front);
            assert(mid.push('\n').drop_last() =~= mid);
            let a = split(front, '\n');
            assert(split(mid, '\n') == a.drop_last().push(a.last().push('\r')));
            let b = split(t, '\n');
            assert forall|i: int| 0 <= i < split(s, '\n').len() - 1 implies #[trigger] split(
                with_cr(s),
                '\n',
            )[i] == split(s, '\n')[i].push('\r') by {
                if i < b.len() - 1 {
                    assert(a[i] == b[i].push('\r'));
                }
            }
        } else {
            assert(front.push(s.last()).drop_last() =~= front);
            let a = split(front, '\n');
            let b = split(t, '\n');
            assert forall|i: int| 0 <= i < split(s, '\n').len() - 1 implies #[trigger] split(
                with_cr(s),
                '\n',
            )[i] == split(s, '\n')[i].push('\r') by {
                assert(a[i] == b[i].push('\r'));
            }
        }
    }
}

/// One carriage return at the end of a text is left out, and nothing else.
pub proof fn law_strip_cr(s: Seq<char>, c: char)
    ensures
        strip_cr(Seq::empty()) == Seq::<char>::empty(),
        strip_cr(s.push('\r')) == s,
        c != '\r' ==> strip_cr(s.push(c)) == s.push(c),
{
    assert(s.push('\r').drop_last() =~= s);
}

/// A text is cut at every separator and nowhere else.
pub proof fn law_split(a: Seq<char>, b: Seq<char>, sep: char)
    ensures
        split(a.push(sep) + b, sep) == split(a, sep) + split(b, sep),
        !a.contains(sep) ==> split(a, sep) == seq![a],
{
    lemma_split_joined(a, b, sep);
    if !a.contains(sep) {
        lemma_split_single(a, sep);
    }
}

/// The lines of a text are what stands before each line end, without a carriage
/// return there, and what stands behind the last, if anything does.
pub proof fn law_lines(line: Seq<char>, rest: Seq<char>)
    requires
        !line.contains('\n'),
    ensures
        lines(line.push('\n') + rest) == seq![strip_cr(line)] + lines(rest),
        lines(line) == if line.len() == 0 {
            Seq::empty()
        } else {
            seq![line]
        },
{
    let f = |piece: Seq<char>| strip_cr(piece);
    lemma_split_single(line, '\n');
    lemma_split_joined(line, rest, '\n');
    lemma_split_nonempty(rest, '\n');
    let later = split(rest, '\n');
    let all = seq![line] + later;
    assert(all.drop_last() =~= seq![line] + later.drop_last());
    assert(all.drop_last().map_values(f) =~= seq![strip_cr(line)] + later.drop_last().map_values(
        f,
    ));
    assert(all.last() == later.last());
    assert(lines(line.push('\n') + rest) =~= seq![strip_cr(line)] + lines(rest));
    assert(seq![line].drop_last() =~= Seq::empty());
    assert(lines(line) =~= if line.len() == 0 {
        Seq::empty()
    } else {
        seq![line]
    });
}

} // verus!
