//! Paths as sequences of components.
//!
//! A path is what it means, not how it is spelled: `a//b`, `a/./b` and `a/b/`
//! are the same path. File names are bytes, since a file system may hold names
//! that are not text.

use vstd::prelude::*;
use vstd::slice::slice_subrange;

use crate::text::{self, chars_of};

verus! {

/// One component of a path, with names held as a `B`.
#[derive(Debug, PartialEq, Eq, Hash)]
pub enum Component<B> {
    /// What stands before the root on systems that have such a thing.
    Prefix(B),
    /// The root directory.
    RootDir,
    /// A leading `.`.
    CurDir,
    /// A `..`.
    ParentDir,
    /// A file or directory name.
    Normal(B),
}

/// What a component stands for.
pub type ComponentView = Component<Seq<u8>>;

/// What a path stands for.
pub type PathView = Seq<Component<Seq<u8>>>;

impl View for Component<Vec<u8>> {
    type V = ComponentView;

    open spec fn view(&self) -> ComponentView {
        match self {
            Component::Prefix(name) => Component::Prefix(name@),
            Component::RootDir => Component::RootDir,
            Component::CurDir => Component::CurDir,
            Component::ParentDir => Component::ParentDir,
            Component::Normal(name) => Component::Normal(name@),
        }
    }
}

impl Clone for Component<Vec<u8>> {
    fn clone(&self) -> (r: Self)
        ensures
            r@ == self@,
    {
        match self {
            Component::Prefix(name) => Component::Prefix(copy_bytes(name.as_slice())),
            Component::RootDir => Component::RootDir,
            Component::CurDir => Component::CurDir,
            Component::ParentDir => Component::ParentDir,
            Component::Normal(name) => Component::Normal(copy_bytes(name.as_slice())),
        }
    }
}

/// What a list of components stands for.
pub open spec fn components_view(comps: Seq<Component<Vec<u8>>>) -> PathView {
    comps.map_values(|comp: Component<Vec<u8>>| comp@)
}

/// An owned path.
#[derive(Debug, PartialEq, Eq, Hash)]
pub struct PathBuf {
    comps: Vec<Component<Vec<u8>>>,
}

impl View for PathBuf {
    type V = PathView;

    closed spec fn view(&self) -> PathView {
        components_view(self.comps@)
    }
}

impl Clone for PathBuf {
    fn clone(&self) -> (r: Self)
        ensures
            r@ == self@,
    {
        PathBuf { comps: copy_components(self.comps.as_slice()) }
    }
}

// ---------------------------------------------------------------------------
// Meaning
// ---------------------------------------------------------------------------

/// Whether a byte separates components, on a system whose main separator is
/// `main`.
pub open spec fn is_separator(b: u8, main: u8) -> bool {
    b == 0x2f || b == main
}

/// Whether a byte separates components in a spelling that may be verbatim, in
/// which only the main separator does.
pub open spec fn separates(b: u8, main: u8, verbatim: bool) -> bool {
    b == main || (b == 0x2f && !verbatim)
}

/// The spelling of a path cut at every separator.
pub open spec fn pieces(s: Seq<u8>, main: u8, verbatim: bool) -> Seq<Seq<u8>>
    decreases s.len(),
{
    if s.len() == 0 {
        seq![Seq::empty()]
    } else {
        let before = pieces(s.drop_last(), main, verbatim);
        if separates(s.last(), main, verbatim) {
            before.push(Seq::empty())
        } else {
            before.drop_last().push(before.last().push(s.last()))
        }
    }
}

/// The components that the pieces of a spelling stand for: nothing for an
/// empty piece, and nothing for a `.` unless the path starts with it or the
/// spelling is verbatim.
pub open spec fn piece_components(pieces: Seq<Seq<u8>>, verbatim: bool) -> PathView
    decreases pieces.len(),
{
    if pieces.len() == 0 {
        Seq::empty()
    } else {
        let before = piece_components(pieces.drop_last(), verbatim);
        let piece = pieces.last();
        if piece.len() == 0 {
            before
        } else if piece == seq![0x2eu8] {
            if pieces.len() == 1 || verbatim {
                before.push(Component::CurDir)
            } else {
                before
            }
        } else if piece == seq![0x2eu8, 0x2eu8] {
            before.push(Component::ParentDir)
        } else {
            before.push(Component::Normal(piece))
        }
    }
}

/// The path that a spelling without a prefix stands for. `rooted` says that it
/// has a root even without a leading separator.
pub open spec fn path_without_prefix(s: Seq<u8>, main: u8, rooted: bool) -> PathView {
    let comps = piece_components(pieces(s, main, false), false);
    if rooted || (s.len() > 0 && is_separator(s[0], main)) {
        seq![Component::RootDir] + comps
    } else {
        comps
    }
}

/// Whether a spelling begins with a drive, as `C:` does.
pub open spec fn begins_with_drive(s: Seq<u8>) -> bool {
    &&& s.len() >= 2
    &&& (0x41 <= s[0] <= 0x5a || 0x61 <= s[0] <= 0x7a)
    &&& s[1] == 0x3a
}

/// Whether a spelling begins with a drive, on a system whose main separator is
/// `\`.
pub open spec fn has_drive(s: Seq<u8>, main: u8) -> bool {
    main == 0x5c && begins_with_drive(s)
}

/// The letter in upper case: drives are the same in either case.
pub open spec fn upper(b: u8) -> u8 {
    if 0x61 <= b <= 0x7a {
        (b - 0x20) as u8
    } else {
        b
    }
}

/// How many bytes there are before the first separator.
pub open spec fn name_len(s: Seq<u8>, main: u8, verbatim: bool) -> nat
    decreases s.len(),
{
    if s.len() == 0 || separates(s[0], main, verbatim) {
        0
    } else {
        1 + name_len(s.skip(1), main, verbatim)
    }
}

/// The server, the share and what follows them, where a spelling begins with a
/// share, as `\\server\share` does, on a system whose main separator is `\`.
pub open spec fn share(s: Seq<u8>, main: u8) -> Option<(Seq<u8>, Seq<u8>, Seq<u8>)> {
    let names = s.skip(2);
    let n = name_len(names, main, false) as int;
    let after = names.skip(n + 1);
    let m = name_len(after, main, false) as int;
    if main == 0x5c && s.len() >= 2 && is_separator(s[0], main) && is_separator(s[1], main) && 0 < n
        < names.len() && 0 < m {
        Some((names.take(n), after.take(m), after.skip(m)))
    } else {
        None
    }
}

/// How a share is held: `//server/share`, which begins as no other prefix does.
pub open spec fn share_name(server: Seq<u8>, name: Seq<u8>) -> Seq<u8> {
    seq![0x2fu8, 0x2fu8] + server + seq![0x2fu8] + name
}

/// `\\.\`, before the name of a device.
pub open spec fn device_mark() -> Seq<u8> {
    seq![0x5cu8, 0x5cu8, 0x2eu8, 0x5cu8]
}

/// Whether a spelling begins with a device, as `\\.\COM42` does, on a system
/// whose main separator is `\`.
pub open spec fn has_device(s: Seq<u8>, main: u8) -> bool {
    &&& main == 0x5c
    &&& s.len() >= 4
    &&& is_separator(s[0], main)
    &&& is_separator(s[1], main)
    &&& s[2] == 0x2e
    &&& is_separator(s[3], main)
}

/// `\\?\`, before a verbatim spelling.
pub open spec fn verbatim_mark() -> Seq<u8> {
    seq![0x5cu8, 0x5cu8, 0x3fu8, 0x5cu8]
}

/// Whether a spelling is verbatim, as that of `\\?\C:\x` is. The mark must be
/// spelled with `\`.
pub open spec fn is_verbatim(s: Seq<u8>) -> bool {
    verbatim_mark().is_prefix_of(s)
}

/// Whether what follows the mark of a verbatim spelling begins with a drive
/// and nothing else before the next separator.
pub open spec fn has_drive_alone(s: Seq<u8>) -> bool {
    begins_with_drive(s) && (s.len() == 2 || is_separator(s[2], 0x5c))
}

/// `UNC\`, before the server of a verbatim share.
pub open spec fn share_mark() -> Seq<u8> {
    seq![0x55u8, 0x4eu8, 0x43u8, 0x5cu8]
}

/// How many bytes of what follows the mark of a verbatim spelling belong to the
/// prefix: a share (`UNC\server\share`), a drive, or one name.
pub open spec fn verbatim_len(s: Seq<u8>) -> nat {
    if share_mark().is_prefix_of(s) {
        let names = s.skip(4);
        let n = name_len(names, 0x5c, true);
        let m = name_len(names.skip((n + 1) as int), 0x5c, true);
        if n < names.len() && 0 < m {
            4 + n + 1 + m
        } else {
            4 + n
        }
    } else if has_drive_alone(s) {
        2
    } else {
        name_len(s, 0x5c, true)
    }
}

/// How a verbatim prefix is held: as it is spelled, but for drives, which are
/// held in upper case.
pub open spec fn verbatim_name(s: Seq<u8>) -> Seq<u8> {
    verbatim_mark() + if !share_mark().is_prefix_of(s) && has_drive_alone(s) {
        seq![upper(s[0]), 0x3au8]
    } else {
        s.take(verbatim_len(s) as int)
    }
}

/// The path that stands behind a verbatim prefix: only `\` separates.
pub open spec fn path_after_verbatim(s: Seq<u8>) -> PathView {
    if s.len() == 0 {
        Seq::empty()
    } else {
        seq![Component::RootDir] + piece_components(pieces(s.skip(1), 0x5c, true), true)
    }
}

/// The path that a spelling stands for, on a system whose main separator is
/// `main`. Where that is `\` the path may begin with a prefix: a drive, which
/// has no root of its own, a share or a device, which has one, or a verbatim
/// prefix. Each kind of prefix is held in one form.
pub open spec fn path_of(s: Seq<u8>, main: u8) -> PathView {
    if main == 0x5c && is_verbatim(s) {
        let rest = s.skip(4);
        seq![Component::Prefix(verbatim_name(rest))] + path_after_verbatim(
            rest.skip(verbatim_len(rest) as int),
        )
    } else if has_device(s, main) {
        let rest = s.skip(4);
        let n = name_len(rest, main, false) as int;
        seq![Component::Prefix(device_mark() + rest.take(n))] + path_without_prefix(
            rest.skip(n),
            main,
            true,
        )
    } else if has_drive(s, main) {
        seq![Component::Prefix(seq![upper(s[0]), 0x3au8])] + path_without_prefix(
            s.skip(2),
            main,
            false,
        )
    } else {
        match share(s, main) {
            Some((server, name, rest)) => seq![
                Component::Prefix(share_name(server, name)),
            ] + path_without_prefix(rest, main, true),
            None => path_without_prefix(s, main, false),
        }
    }
}

/// Whether a spelling ends in a separator, or in one and a `.`: only a
/// directory can be there.
pub open spec fn ends_open(s: Seq<u8>, main: u8) -> bool {
    ||| s.len() >= 1 && is_separator(s.last(), main)
    ||| s.len() >= 2 && s.last() == 0x2e && is_separator(s[s.len() - 2], main)
}

/// Whether the path that a spelling stands for begins with a prefix.
pub open spec fn has_prefix(s: Seq<u8>, main: u8) -> bool {
    ||| main == 0x5c && is_verbatim(s)
    ||| has_device(s, main)
    ||| has_drive(s, main)
    ||| share(s, main) is Some
}

/// The path without its last component. A root has no parent, and neither
/// does an empty path.
pub open spec fn parent(p: PathView) -> Option<PathView> {
    if p.len() == 0 || p.last() is Prefix || p.last() is RootDir {
        None
    } else {
        Some(p.drop_last())
    }
}

/// The path without a final `.` that something stands before. Behind a verbatim
/// prefix a `.` counts.
pub open spec fn without_dot(p: PathView) -> PathView {
    if p.len() > 1 && p.last() is CurDir && !has_verbatim_prefix(p) {
        p.drop_last()
    } else {
        p
    }
}

/// The path, its parent, and so on up to the root or the empty path.
pub open spec fn ancestors(p: PathView) -> Seq<PathView>
    decreases p.len(),
{
    match parent(p) {
        None => seq![p],
        Some(up) => seq![p] + ancestors(up),
    }
}

/// `p` seen from a `base` with a verbatim prefix: `.` and `..` are resolved as
/// they come, and a root leaves only the prefix.
pub open spec fn join_verbatim(base: PathView, p: PathView) -> PathView
    decreases p.len(),
{
    if p.len() == 0 {
        base
    } else {
        let before = join_verbatim(base, p.drop_last());
        match p.last() {
            Component::RootDir => before.take(1).push(Component::RootDir),
            Component::CurDir => before,
            Component::ParentDir => if before.last() is Normal {
                before.drop_last()
            } else {
                before
            },
            other => before.push(other),
        }
    }
}

/// Whether a path has a verbatim prefix.
pub open spec fn has_verbatim_prefix(p: PathView) -> bool {
    p.len() > 0 && (p[0] matches Component::Prefix(prefix) && is_verbatim(prefix))
}

/// `p` seen from `base`. A `p` with a prefix stands for itself; one with a
/// root keeps only the prefix of `base`. Behind a verbatim prefix no `.` or
/// `..` is added.
pub open spec fn join(base: PathView, p: PathView) -> PathView {
    if p.len() == 0 {
        base
    } else if p[0] is Prefix {
        p
    } else if has_verbatim_prefix(base) {
        join_verbatim(base, p)
    } else if p[0] is RootDir {
        if base.len() > 0 && base[0] is Prefix {
            seq![base[0]] + p
        } else {
            p
        }
    } else if p[0] is CurDir && base.len() > 0 {
        base + p.skip(1)
    } else {
        base + p
    }
}

/// The entry called `name` in the directory `dir`.
pub open spec fn child(dir: PathView, name: Seq<u8>) -> PathView {
    dir.push(Component::Normal(name))
}

/// The name of the file or directory that a path leads to.
pub open spec fn file_name(p: PathView) -> Option<Seq<u8>> {
    if p.len() > 0 {
        match p.last() {
            Component::Normal(name) => Some(name),
            _ => None,
        }
    } else {
        None
    }
}

/// Whether a file name is `<stem>.md` with a stem that is not empty.
pub open spec fn is_markdown_name(name: Seq<u8>) -> bool {
    name.len() > 3 && name.skip(name.len() - 3) == seq![0x2eu8, 0x6du8, 0x64u8]
}

/// Whether a path has the extension `md`.
pub open spec fn is_markdown(p: PathView) -> bool {
    match file_name(p) {
        Some(name) => is_markdown_name(name),
        None => false,
    }
}

/// The path with `.` and `..` resolved by its spelling alone: `.` goes, and
/// `..` takes the component before it away, if that is no root.
pub open spec fn resolve(p: PathView) -> PathView
    decreases p.len(),
{
    if p.len() == 0 {
        Seq::empty()
    } else {
        let before = resolve(p.drop_last());
        match p.last() {
            Component::CurDir => before,
            Component::ParentDir => match parent(before) {
                Some(up) => up,
                None => before,
            },
            other => before.push(other),
        }
    }
}

/// The text of a name, if it is UTF-8.
pub open spec fn name_text(name: Seq<u8>) -> Option<Seq<char>> {
    if vstd::utf8::valid_utf8(name) {
        Some(vstd::utf8::decode_utf8(name))
    } else {
        None
    }
}

/// The components of a relative path as text, or nothing if one of them is not
/// UTF-8, or is no name.
pub open spec fn path_texts(p: PathView) -> Option<Seq<Seq<char>>>
    decreases p.len(),
{
    if p.len() == 0 {
        Some(Seq::empty())
    } else {
        match (path_texts(p.drop_last()), p.last()) {
            (Some(before), Component::Normal(name)) => match name_text(name) {
                Some(text) => Some(before.push(text)),
                None => None,
            },
            _ => None,
        }
    }
}

// ---------------------------------------------------------------------------
// Operations
// ---------------------------------------------------------------------------

/// Copies a name.
pub fn copy_bytes(s: &[u8]) -> (r: Vec<u8>)
    ensures
        r@ == s@,
{
    let mut out: Vec<u8> = Vec::new();
    for i in 0..s.len()
        invariant
            out@ == s@.take(i as int),
    {
        out.push(s[i]);
        assert(s@.take(i + 1) =~= s@.take(i as int).push(s@[i as int]));
    }
    assert(s@.take(s@.len() as int) =~= s@);
    out
}

/// Whether two names are the same.
pub fn same_bytes(a: &[u8], b: &[u8]) -> (r: bool)
    ensures
        r == (a@ == b@),
{
    if a.len() != b.len() {
        return false;
    }
    for i in 0..a.len()
        invariant
            a@.len() == b@.len(),
            forall|j: int| 0 <= j < i ==> a@[j] == b@[j],
    {
        if a[i] != b[i] {
            return false;
        }
    }
    assert(a@ =~= b@);
    true
}

/// Copies components.
pub fn copy_components(s: &[Component<Vec<u8>>]) -> (r: Vec<Component<Vec<u8>>>)
    ensures
        components_view(r@) == components_view(s@),
{
    let mut out: Vec<Component<Vec<u8>>> = Vec::new();
    for i in 0..s.len()
        invariant
            out@.len() == i,
            forall|j: int| 0 <= j < i ==> (#[trigger] out@[j])@ == s@[j]@,
    {
        out.push(s[i].clone());
    }
    assert(components_view(out@) =~= components_view(s@));
    out
}

/// Whether two components are the same.
pub fn same_component(a: &Component<Vec<u8>>, b: &Component<Vec<u8>>) -> (r: bool)
    ensures
        r == (a@ == b@),
{
    match (a, b) {
        (Component::Prefix(x), Component::Prefix(y)) => same_bytes(x.as_slice(), y.as_slice()),
        (Component::RootDir, Component::RootDir) => true,
        (Component::CurDir, Component::CurDir) => true,
        (Component::ParentDir, Component::ParentDir) => true,
        (Component::Normal(x), Component::Normal(y)) => same_bytes(x.as_slice(), y.as_slice()),
        _ => false,
    }
}

/// The text of some bytes, if they are UTF-8.
///
/// Stands for `std::str::from_utf8`: it succeeds on valid UTF-8 only, and the
/// string then holds the characters that the bytes encode.
#[verifier::external_body]
fn str_of_utf8(bytes: &[u8]) -> (r: Option<&str>)
    ensures
        r is Some <==> vstd::utf8::valid_utf8(bytes@),
        r matches Some(s) ==> s@ == vstd::utf8::decode_utf8(bytes@),
{
    std::str::from_utf8(bytes).ok()
}

/// Converts one piece of a spelling; `first` says that the path starts with
/// it.
fn piece_component(
    piece: Vec<u8>,
    first: bool,
    verbatim: bool,
) -> (r: Option<Component<Vec<u8>>>)
    ensures
        forall|before: Seq<Seq<u8>>|
            first == (before.len() == 0) ==> piece_components(
                #[trigger] before.push(piece@),
                verbatim,
            ) == piece_components(before, verbatim) + (match r {
                None => Seq::empty(),
                Some(comp) => seq![comp@],
            }),
{
    let ghost view = piece@;
    let dot = piece.len() == 1 && piece[0] == 0x2e;
    let dots = piece.len() == 2 && piece[0] == 0x2e && piece[1] == 0x2e;
    assert(dot == (view == seq![0x2eu8])) by {
        if dot {
            assert(view =~= seq![0x2eu8]);
        }
    }
    assert(dots == (view == seq![0x2eu8, 0x2eu8])) by {
        if dots {
            assert(view =~= seq![0x2eu8, 0x2eu8]);
        } else if view == seq![0x2eu8, 0x2eu8] {
            assert(view[0] == 0x2e && view[1] == 0x2e);
        }
    }
    let empty = piece.len() == 0;
    let r = if empty || (dot && !first && !verbatim) {
        None
    } else if dot {
        Some(Component::CurDir)
    } else if dots {
        Some(Component::ParentDir)
    } else {
        Some(Component::Normal(piece))
    };
    proof {
        assert forall|before: Seq<Seq<u8>>| first == (before.len() == 0) implies piece_components(
            #[trigger] before.push(view),
            verbatim,
        ) == piece_components(before, verbatim) + (match r {
            None => Seq::empty(),
            Some(comp) => seq![comp@],
        }) by {
            assert(before.push(view).drop_last() =~= before);
            let known = piece_components(before, verbatim);
            let added: PathView = match r {
                None => Seq::empty(),
                Some(comp) => seq![comp@],
            };
            if r is None {
                assert(known + added =~= known);
            } else {
                assert(known + added =~= known.push(r->Some_0@));
            }
        }
    }
    r
}

/// Reads the components of the pieces of a spelling behind those that are known.
fn parse_pieces(
    known: Vec<Component<Vec<u8>>>,
    s: &[u8],
    main: u8,
    verbatim: bool,
) -> (r: Vec<Component<Vec<u8>>>)
    ensures
        components_view(r@) == components_view(known@) + piece_components(
            pieces(s@, main, verbatim),
            verbatim,
        ),
{
    let mut comps = known;
    let ghost start = components_view(known@);
    let mut piece: Vec<u8> = Vec::new();
    let mut first = true;
    // The pieces before the one that is being read.
    let ghost mut done: Seq<Seq<u8>> = Seq::empty();
    proof {
        assert(components_view(comps@) =~= start + piece_components(done, verbatim));
        assert(done.push(piece@) =~= seq![Seq::empty()]);
    }
    for i in 0..s.len()
        invariant
            components_view(comps@) == start + piece_components(done, verbatim),
            first == (done.len() == 0),
            done.push(piece@) == pieces(s@.take(i as int), main, verbatim),
    {
        let b = s[i];
        assert(s@.take(i + 1).drop_last() =~= s@.take(i as int));
        assert(done.push(piece@).drop_last() =~= done);
        if b == main || (b == 0x2f && !verbatim) {
            let ghost view = piece@;
            let ghost comps_before = comps@;
            let added = piece_component(piece, first, verbatim);
            let ghost now = piece_components(done.push(view), verbatim);
            assert(now == piece_components(done, verbatim) + (match added {
                None => Seq::empty(),
                Some(comp) => seq![comp@],
            }));
            match added {
                None => {
                    assert(now =~= piece_components(done, verbatim));
                },
                Some(comp) => {
                    let ghost comp_view = comp@;
                    comps.push(comp);
                    assert(components_view(comps@) =~= components_view(comps_before).push(
                        comp_view,
                    ));
                    assert(components_view(comps@) =~= start + now);
                },
            }
            proof {
                done = done.push(view);
            }
            piece = Vec::new();
            first = false;
        } else {
            piece.push(b);
        }
    }
    assert(s@.take(s@.len() as int) =~= s@);
    let ghost view = piece@;
    let ghost comps_before = comps@;
    let added = piece_component(piece, first, verbatim);
    let ghost now = piece_components(done.push(view), verbatim);
    assert(now == piece_components(done, verbatim) + (match added {
        None => Seq::empty(),
        Some(comp) => seq![comp@],
    }));
    match added {
        None => {
            assert(now =~= piece_components(done, verbatim));
        },
        Some(comp) => {
            let ghost comp_view = comp@;
            comps.push(comp);
            assert(components_view(comps@) =~= components_view(comps_before).push(comp_view));
            assert(components_view(comps@) =~= start + now);
        },
    }
    comps
}

/// Reads the components of a spelling behind its prefix, if it has one.
fn parse_rest(
    prefix: Vec<Component<Vec<u8>>>,
    s: &[u8],
    main: u8,
    rooted: bool,
) -> (r: Vec<Component<Vec<u8>>>)
    ensures
        components_view(r@) == components_view(prefix@) + path_without_prefix(s@, main, rooted),
{
    let ghost start = components_view(prefix@);
    let mut known = prefix;
    if rooted || (s.len() > 0 && (s[0] == 0x2f || s[0] == main)) {
        known.push(Component::RootDir);
        assert(components_view(known@) =~= start.push(Component::RootDir));
    }
    let comps = parse_pieces(known, s, main, false);
    assert(components_view(comps@) =~= start + path_without_prefix(s@, main, rooted));
    comps
}

/// Makes a path of a prefix alone.
fn only_prefix(prefix: Vec<u8>) -> (r: Vec<Component<Vec<u8>>>)
    ensures
        components_view(r@) == seq![Component::Prefix(prefix@)],
{
    let mut comps: Vec<Component<Vec<u8>>> = Vec::new();
    comps.push(Component::Prefix(prefix));
    assert(components_view(comps@) =~= seq![Component::Prefix(prefix@)]);
    comps
}

/// How many bytes there are before the first separator.
fn measure_name(s: &[u8], main: u8, verbatim: bool) -> (r: usize)
    ensures
        r <= s@.len(),
        r == name_len(s@, main, verbatim),
{
    let mut n: usize = 0;
    assert(s@.skip(0) =~= s@);
    while n < s.len() && s[n] != main && (s[n] != 0x2f || verbatim)
        invariant
            n <= s@.len(),
            name_len(s@, main, verbatim) == n + name_len(s@.skip(n as int), main, verbatim),
        decreases s@.len() - n,
    {
        assert(s@.skip(n as int)[0] == s@[n as int]);
        assert(s@.skip(n as int).skip(1) =~= s@.skip(n + 1));
        n = n + 1;
    }
    proof {
        if n < s@.len() {
            assert(s@.skip(n as int)[0] == s@[n as int]);
        }
    }
    n
}

/// Adds the bytes of a name.
fn add_name(out: &mut Vec<u8>, name: &[u8])
    ensures
        final(out)@ == old(out)@ + name@,
{
    let ghost start = out@;
    assert(start + name@.take(0) =~= start);
    for i in 0..name.len()
        invariant
            out@ == start + name@.take(i as int),
    {
        out.push(name[i]);
        assert(start + name@.take(i + 1) =~= (start + name@.take(i as int)).push(name@[i as int]));
    }
    assert(name@.take(name@.len() as int) =~= name@);
}

/// Whether a spelling begins with these four bytes.
fn begins_with_four(s: &[u8], mark: &[u8; 4]) -> (r: bool)
    ensures
        r == mark@.is_prefix_of(s@),
{
    let r = s.len() >= 4 && s[0] == mark[0] && s[1] == mark[1] && s[2] == mark[2] && s[3]
        == mark[3];
    proof {
        if r {
            assert(mark@ =~= s@.subrange(0, 4));
        } else if mark@.is_prefix_of(s@) {
            assert(s@.subrange(0, 4)[0] == s@[0] && s@.subrange(0, 4)[1] == s@[1] && s@.subrange(
                0,
                4,
            )[2] == s@[2] && s@.subrange(0, 4)[3] == s@[3]);
        }
    }
    r
}

/// Whether a spelling begins with a drive.
fn drive_begins(s: &[u8]) -> (r: bool)
    ensures
        r == begins_with_drive(s@),
{
    s.len() >= 2 && s[1] == 0x3a && ((0x41 <= s[0] && s[0] <= 0x5a) || (0x61 <= s[0] && s[0]
        <= 0x7a))
}

/// The letter in upper case.
fn to_upper(b: u8) -> (r: u8)
    ensures
        r == upper(b),
{
    if 0x61 <= b && b <= 0x7a {
        b - 0x20
    } else {
        b
    }
}

/// Measures the prefix in what follows the mark of a verbatim spelling.
fn measure_verbatim(s: &[u8]) -> (r: usize)
    ensures
        r <= s@.len(),
        r == verbatim_len(s@),
{
    let mark: [u8; 4] = [0x55, 0x4e, 0x43, 0x5c];
    assert(mark@ =~= share_mark());
    if begins_with_four(s, &mark) {
        let names = slice_subrange(s, 4, s.len());
        assert(names@ =~= s@.skip(4));
        let n = measure_name(names, 0x5c, true);
        if n < names.len() {
            let after = slice_subrange(names, n + 1, names.len());
            assert(after@ =~= names@.skip(n + 1));
            let m = measure_name(after, 0x5c, true);
            if 0 < m {
                return 4 + n + 1 + m;
            }
        }
        return 4 + n;
    }
    if drive_begins(s) && (s.len() == 2 || s[2] == 0x2f || s[2] == 0x5c) {
        return 2;
    }
    measure_name(s, 0x5c, true)
}

/// Reads the components of a verbatim spelling, its mark left out.
fn parse_verbatim(s: &[u8]) -> (r: Vec<Component<Vec<u8>>>)
    ensures
        components_view(r@) == seq![Component::Prefix(verbatim_name(s@))] + path_after_verbatim(
            s@.skip(verbatim_len(s@) as int),
        ),
{
    let mark: [u8; 4] = [0x55, 0x4e, 0x43, 0x5c];
    assert(mark@ =~= share_mark());
    let n = measure_verbatim(s);
    let alone = !begins_with_four(s, &mark) && drive_begins(s) && (s.len() == 2 || s[2] == 0x2f
        || s[2] == 0x5c);
    let mut held: Vec<u8> = Vec::new();
    held.push(0x5c);
    held.push(0x5c);
    held.push(0x3f);
    held.push(0x5c);
    assert(held@ =~= verbatim_mark());
    if alone {
        held.push(to_upper(s[0]));
        held.push(0x3a);
        assert(held@ =~= verbatim_mark() + seq![upper(s@[0]), 0x3au8]);
    } else {
        let name = slice_subrange(s, 0, n);
        assert(name@ =~= s@.take(n as int));
        add_name(&mut held, name);
    }
    assert(held@ == verbatim_name(s@));
    let mut known = only_prefix(held);
    let ghost rest = s@.skip(n as int);
    if n == s.len() {
        assert(rest.len() == 0);
        assert(components_view(known@) =~= components_view(known@) + path_after_verbatim(rest));
        return known;
    }
    let ghost start = components_view(known@);
    known.push(Component::RootDir);
    assert(components_view(known@) =~= start.push(Component::RootDir));
    let body = slice_subrange(s, n + 1, s.len());
    assert(body@ =~= rest.skip(1));
    let comps = parse_pieces(known, body, 0x5c, true);
    assert(components_view(comps@) =~= start + path_after_verbatim(rest));
    comps
}

/// Reads the components of a spelling that begins with a device, its mark left
/// out.
fn parse_device(s: &[u8]) -> (r: Vec<Component<Vec<u8>>>)
    ensures
        ({
            let n = name_len(s@, 0x5c, false) as int;
            components_view(r@) == seq![Component::Prefix(device_mark() + s@.take(n))]
                + path_without_prefix(s@.skip(n), 0x5c, true)
        }),
{
    let n = measure_name(s, 0x5c, false);
    let name = slice_subrange(s, 0, n);
    let rest = slice_subrange(s, n, s.len());
    assert(name@ =~= s@.take(n as int));
    assert(rest@ =~= s@.skip(n as int));
    let mut held: Vec<u8> = Vec::new();
    held.push(0x5c);
    held.push(0x5c);
    held.push(0x2e);
    held.push(0x5c);
    assert(held@ =~= device_mark());
    add_name(&mut held, name);
    parse_rest(only_prefix(held), rest, 0x5c, true)
}

/// Reads the components of a spelling that begins with a share, if it does.
fn parse_share(s: &[u8]) -> (r: Option<Vec<Component<Vec<u8>>>>)
    ensures
        match (r, share(s@, 0x5c)) {
            (None, None) => true,
            (Some(comps), Some((server, name, rest))) => components_view(comps@) == seq![
                Component::Prefix(share_name(server, name)),
            ] + path_without_prefix(rest, 0x5c, true),
            _ => false,
        },
{
    let n = s.len();
    if n < 2 || !(s[0] == 0x2f || s[0] == 0x5c) || !(s[1] == 0x2f || s[1] == 0x5c) {
        return None;
    }
    let names = slice_subrange(s, 2, n);
    assert(names@ =~= s@.skip(2));
    let k = measure_name(names, 0x5c, false);
    if k == 0 || k == names.len() {
        return None;
    }
    let after = slice_subrange(names, k + 1, names.len());
    assert(after@ =~= names@.skip(k + 1));
    let m = measure_name(after, 0x5c, false);
    if m == 0 {
        return None;
    }
    let server = slice_subrange(names, 0, k);
    let name = slice_subrange(after, 0, m);
    let rest = slice_subrange(after, m, after.len());
    let mut held: Vec<u8> = Vec::new();
    held.push(0x2f);
    held.push(0x2f);
    add_name(&mut held, server);
    held.push(0x2f);
    add_name(&mut held, name);
    proof {
        assert(server@ =~= names@.take(k as int));
        assert(name@ =~= after@.take(m as int));
        assert(rest@ =~= after@.skip(m as int));
        assert(held@ =~= share_name(server@, name@));
    }
    Some(parse_rest(only_prefix(held), rest, 0x5c, true))
}

/// Reads the components of a spelling.
fn parse_bytes(s: &[u8], main: u8) -> (r: Vec<Component<Vec<u8>>>)
    ensures
        components_view(r@) == path_of(s@, main),
{
    let n = s.len();
    if main == 0x5c {
        let mark: [u8; 4] = [0x5c, 0x5c, 0x3f, 0x5c];
        assert(mark@ =~= verbatim_mark());
        if begins_with_four(s, &mark) {
            let rest = slice_subrange(s, 4, n);
            assert(rest@ =~= s@.skip(4));
            return parse_verbatim(rest);
        }
        if n >= 4 && (s[0] == 0x2f || s[0] == main) && (s[1] == 0x2f || s[1] == main) && s[2]
            == 0x2e && (s[3] == 0x2f || s[3] == main) {
            let rest = slice_subrange(s, 4, n);
            assert(rest@ =~= s@.skip(4));
            return parse_device(rest);
        }
        if drive_begins(s) {
            let mut drive: Vec<u8> = Vec::new();
            drive.push(to_upper(s[0]));
            drive.push(0x3a);
            assert(drive@ =~= seq![upper(s@[0]), 0x3au8]);
            let rest = slice_subrange(s, 2, n);
            assert(rest@ =~= s@.skip(2));
            return parse_rest(only_prefix(drive), rest, main, false);
        }
        if let Some(comps) = parse_share(s) {
            return comps;
        }
    }
    let none: Vec<Component<Vec<u8>>> = Vec::new();
    let comps = parse_rest(none, s, main, false);
    assert(components_view(comps@) =~= path_without_prefix(s@, main, false));
    comps
}

/// The components of a relative path as text, or nothing if one of them is not
/// UTF-8, or is no name.
pub fn components(rel: &[Component<Vec<u8>>]) -> (r: Option<Vec<Vec<char>>>)
    ensures
        match r {
            None => path_texts(components_view(rel@)) is None,
            Some(comps) => path_texts(components_view(rel@)) == Some(text::texts(comps@)),
        },
{
    let ghost p = components_view(rel@);
    let mut out: Vec<Vec<char>> = Vec::new();
    assert(text::texts(out@) =~= Seq::empty());
    for i in 0..rel.len()
        invariant
            p == components_view(rel@),
            path_texts(p.take(i as int)) == Some(text::texts(out@)),
    {
        assert(p.take(i + 1).drop_last() =~= p.take(i as int));
        assert(p.take(i + 1).last() == rel@[i as int]@);
        match &rel[i] {
            Component::Normal(name) => match str_of_utf8(name.as_slice()) {
                Some(s) => {
                    let ghost before = out@;
                    out.push(chars_of(s));
                    assert(text::texts(out@) =~= text::texts(before).push(s@));
                },
                None => {
                    proof {
                        lemma_texts_prefix(p, i + 1);
                    }
                    return None;
                },
            },
            _ => {
                proof {
                    lemma_texts_prefix(p, i + 1);
                }
                return None;
            },
        }
    }
    assert(p.take(p.len() as int) =~= p);
    Some(out)
}

/// A path whose beginning has no text has none either.
pub proof fn lemma_texts_prefix(p: PathView, n: int)
    requires
        0 <= n <= p.len(),
        path_texts(p.take(n)) is None,
    ensures
        path_texts(p) is None,
    decreases p.len() - n,
{
    if n < p.len() {
        assert(p.take(n + 1).drop_last() =~= p.take(n));
        lemma_texts_prefix(p, n + 1);
    } else {
        assert(p.take(n) =~= p);
    }
}

/// Whether the path `p` begins with the components of `base`.
pub fn begins_with(p: &[Component<Vec<u8>>], base: &[Component<Vec<u8>>]) -> (r: bool)
    ensures
        r == components_view(base@).is_prefix_of(components_view(p@)),
{
    let ghost pv = components_view(p@);
    let ghost bv = components_view(base@);
    if base.len() > p.len() {
        return false;
    }
    for i in 0..base.len()
        invariant
            base@.len() <= p@.len(),
            pv == components_view(p@),
            bv == components_view(base@),
            forall|j: int| 0 <= j < i ==> bv[j] == pv[j],
    {
        if !same_component(&base[i], &p[i]) {
            assert(bv[i as int] != pv[i as int]);
            assert(pv.subrange(0, bv.len() as int)[i as int] == pv[i as int]);
            return false;
        }
    }
    assert(bv =~= pv.subrange(0, bv.len() as int));
    true
}

impl PathBuf {
    /// The path with these components.
    pub fn from_components(comps: Vec<Component<Vec<u8>>>) -> (r: PathBuf)
        ensures
            r@ == components_view(comps@),
    {
        PathBuf { comps }
    }

    /// The path that a text spells with `/` as separator.
    pub fn from_text(text: &str) -> (r: PathBuf)
        ensures
            r@ == path_of(vstd::utf8::encode_utf8(text@), 0x2f),
    {
        PathBuf { comps: parse_bytes(text.as_bytes(), 0x2f) }
    }

    /// The path that a text spells on a system whose main separator is
    /// `main`; `/` separates everywhere.
    pub fn from_text_with(text: &str, main: u8) -> (r: PathBuf)
        ensures
            r@ == path_of(vstd::utf8::encode_utf8(text@), main),
    {
        PathBuf { comps: parse_bytes(text.as_bytes(), main) }
    }

    /// The path that an ignore-file name spells on a system whose main
    /// separator is `main`, with a final `.` if only a directory can be there.
    pub fn from_name(name: &str, main: u8) -> (r: PathBuf)
        ensures
            r@ == (if ends_open(vstd::utf8::encode_utf8(name@), main) {
                path_of(vstd::utf8::encode_utf8(name@), main).push(Component::CurDir)
            } else {
                path_of(vstd::utf8::encode_utf8(name@), main)
            }),
    {
        let bytes = name.as_bytes();
        let n = bytes.len();
        let mut comps = parse_bytes(bytes, main);
        if (n >= 1 && (bytes[n - 1] == 0x2f || bytes[n - 1] == main)) || (n >= 2 && bytes[n - 1]
            == 0x2e && (bytes[n - 2] == 0x2f || bytes[n - 2] == main)) {
            let ghost before = components_view(comps@);
            comps.push(Component::CurDir);
            assert(components_view(comps@) =~= before.push(Component::CurDir));
        }
        PathBuf { comps }
    }

    /// The path without a final `.` that something stands before.
    pub fn without_dot(&self) -> (r: PathBuf)
        ensures
            r@ == without_dot(self@),
    {
        let n = self.comps.len();
        if n > 1 {
            assert(self@.last() == self.comps@.last()@);
            if matches!(self.comps[n - 1], Component::CurDir) && !self.verbatim() {
                let comps = copy_components(slice_subrange(self.comps.as_slice(), 0, n - 1));
                assert(components_view(comps@) =~= self@.drop_last());
                return PathBuf { comps };
            }
        }
        self.clone()
    }

    /// The components of the path.
    pub fn components(&self) -> (r: &[Component<Vec<u8>>])
        ensures
            components_view(r@) == self@,
    {
        self.comps.as_slice()
    }

    /// Whether two paths are the same.
    pub fn same_path(&self, other: &PathBuf) -> (r: bool)
        ensures
            r == (self@ == other@),
    {
        let r = self.comps.len() == other.comps.len() && begins_with(
            self.comps.as_slice(),
            other.comps.as_slice(),
        );
        proof {
            if self@.len() == other@.len() {
                assert(self@.subrange(0, self@.len() as int) =~= self@);
            }
        }
        r
    }

    /// Whether the path lies in `base` or is `base`.
    pub fn starts_with(&self, base: &PathBuf) -> (r: bool)
        ensures
            r == base@.is_prefix_of(self@),
    {
        begins_with(self.comps.as_slice(), base.comps.as_slice())
    }

    /// What is left of the path behind `base`, if it lies there.
    pub fn strip_prefix(&self, base: &PathBuf) -> (r: Option<PathBuf>)
        ensures
            match r {
                None => !base@.is_prefix_of(self@),
                Some(rel) => base@.is_prefix_of(self@) && rel@ == self@.skip(base@.len() as int),
            },
    {
        if !self.starts_with(base) {
            return None;
        }
        let rest = slice_subrange(self.comps.as_slice(), base.comps.len(), self.comps.len());
        assert(components_view(rest@) =~= self@.skip(base@.len() as int));
        Some(PathBuf { comps: copy_components(rest) })
    }

    /// The path without its last component.
    pub fn parent(&self) -> (r: Option<PathBuf>)
        ensures
            match r {
                None => parent(self@) is None,
                Some(up) => parent(self@) == Some(up@),
            },
    {
        let n = self.comps.len();
        if n == 0 {
            return None;
        }
        assert(self@.last() == self.comps@.last()@);
        match &self.comps[n - 1] {
            Component::Prefix(_) => None,
            Component::RootDir => None,
            _ => {
                let front = slice_subrange(self.comps.as_slice(), 0, n - 1);
                assert(components_view(front@) =~= self@.drop_last());
                Some(PathBuf { comps: copy_components(front) })
            },
        }
    }

    /// The path, its parent, and so on.
    pub fn ancestors(&self) -> (r: Vec<PathBuf>)
        ensures
            paths_view(r@) == ancestors(self@),
    {
        let mut out: Vec<PathBuf> = Vec::new();
        let mut here = self.clone();
        assert(paths_view(out@) + ancestors(here@) =~= ancestors(self@));
        loop
            invariant
                paths_view(out@) + ancestors(here@) == ancestors(self@),
            decreases here@.len(),
        {
            let ghost before = out@;
            let ghost view = here@;
            let up = here.parent();
            out.push(here);
            assert(paths_view(out@) =~= paths_view(before).push(view));
            match up {
                None => {
                    assert(paths_view(out@) =~= ancestors(self@));
                    return out;
                },
                Some(p) => {
                    assert(paths_view(out@) + ancestors(p@) =~= paths_view(before) + ancestors(view));
                    here = p;
                },
            }
        }
    }

    /// Whether the path has a verbatim prefix.
    fn verbatim(&self) -> (r: bool)
        ensures
            r == has_verbatim_prefix(self@),
    {
        if self.comps.len() == 0 {
            return false;
        }
        assert(self@[0] == self.comps@[0]@);
        match &self.comps[0] {
            Component::Prefix(prefix) => {
                let mark: [u8; 4] = [0x5c, 0x5c, 0x3f, 0x5c];
                assert(mark@ =~= verbatim_mark());
                begins_with_four(prefix.as_slice(), &mark)
            },
            _ => false,
        }
    }

    /// `p` seen from this path, which has a verbatim prefix.
    fn join_verbatim(&self, p: &PathBuf) -> (r: PathBuf)
        requires
            has_verbatim_prefix(self@),
        ensures
            r@ == join_verbatim(self@, p@),
    {
        let mut comps = copy_components(self.comps.as_slice());
        let ghost all = p@;
        for i in 0..p.comps.len()
            invariant
                all == components_view(p.comps@),
                components_view(comps@) == join_verbatim(self@, all.take(i as int)),
                comps@.len() > 0,
                comps@[0]@ is Prefix,
        {
            let ghost before = comps@;
            proof {
                assert(all.take(i + 1).drop_last() =~= all.take(i as int));
                assert(all.take(i + 1).last() == p.comps@[i as int]@);
                assert(components_view(comps@).last() == comps@.last()@);
            }
            match &p.comps[i] {
                Component::CurDir => {},
                Component::RootDir => {
                    comps.truncate(1);
                    comps.push(Component::RootDir);
                    assert(components_view(comps@) =~= components_view(before).take(1).push(
                        Component::RootDir,
                    ));
                },
                Component::ParentDir => {
                    if let Component::Normal(_) = &comps[comps.len() - 1] {
                        comps.pop();
                        assert(components_view(comps@) =~= components_view(before).drop_last());
                    }
                },
                other => {
                    let comp = other.clone();
                    let ghost view = comp@;
                    comps.push(comp);
                    assert(components_view(comps@) =~= components_view(before).push(view));
                },
            }
        }
        assert(all.take(all.len() as int) =~= all);
        PathBuf { comps }
    }

    /// `p` seen from this path.
    pub fn join(&self, p: &PathBuf) -> (r: PathBuf)
        ensures
            r@ == join(self@, p@),
    {
        if p.comps.len() == 0 {
            return self.clone();
        }
        assert(p@[0] == p.comps@[0]@);
        if !matches!(p.comps[0], Component::Prefix(_)) && self.verbatim() {
            return self.join_verbatim(p);
        }
        let mut comps: Vec<Component<Vec<u8>>> = Vec::new();
        let mut from: usize = 0;
        match &p.comps[0] {
            Component::Prefix(_) => {},
            Component::RootDir => {
                if self.comps.len() > 0 {
                    assert(self@[0] == self.comps@[0]@);
                    if let Component::Prefix(_) = &self.comps[0] {
                        comps.push(self.comps[0].clone());
                    }
                }
            },
            Component::CurDir => {
                if self.comps.len() > 0 {
                    comps = copy_components(self.comps.as_slice());
                    from = 1;
                }
            },
            _ => {
                comps = copy_components(self.comps.as_slice());
            },
        }
        let ghost start = components_view(comps@);
        let rest = slice_subrange(p.comps.as_slice(), from, p.comps.len());
        let mut tail = copy_components(rest);
        let ghost tail_view = components_view(tail@);
        let ghost comps_before = comps@;
        let ghost tail_before = tail@;
        comps.append(&mut tail);
        proof {
            assert(comps@ == comps_before + tail_before);
            assert(components_view(comps@) =~= start + tail_view);
            assert(tail_view =~= p@.skip(from as int));
            assert(p@.skip(0) =~= p@);
            assert(components_view(comps@) =~= join(self@, p@));
        }
        PathBuf { comps }
    }

    /// The entry called `name` in this directory.
    pub fn child(&self, name: &[u8]) -> (r: PathBuf)
        ensures
            r@ == child(self@, name@),
    {
        let mut comps = copy_components(self.comps.as_slice());
        let ghost before = comps@;
        comps.push(Component::Normal(copy_bytes(name)));
        assert(components_view(comps@) =~= child(self@, name@));
        PathBuf { comps }
    }

    /// The name of the file or directory that the path leads to.
    pub fn file_name(&self) -> (r: Option<&[u8]>)
        ensures
            match r {
                None => file_name(self@) is None,
                Some(name) => file_name(self@) == Some(name@),
            },
    {
        let n = self.comps.len();
        if n == 0 {
            return None;
        }
        assert(self@.last() == self.comps@.last()@);
        match &self.comps[n - 1] {
            Component::Normal(name) => Some(name.as_slice()),
            _ => None,
        }
    }

    /// The name as text, if there is one and it is UTF-8.
    pub fn file_name_text(&self) -> (r: Option<&str>)
        ensures
            match r {
                None => file_name(self@) is None || name_text(file_name(self@)->0) is None,
                Some(text) => file_name(self@) is Some && name_text(file_name(self@)->0) == Some(
                    text@,
                ),
            },
    {
        match self.file_name() {
            None => None,
            Some(name) => str_of_utf8(name),
        }
    }

    /// Whether the path has the extension `md`.
    pub fn is_markdown(&self) -> (r: bool)
        ensures
            r == is_markdown(self@),
    {
        match self.file_name() {
            None => false,
            Some(name) => {
                let n = name.len();
                let r = n > 3 && name[n - 3] == 0x2e && name[n - 2] == 0x6d && name[n - 1] == 0x64;
                proof {
                    if n > 3 {
                        let end = name@.skip(n - 3);
                        assert(end[0] == name@[n - 3] && end[1] == name@[n - 2] && end[2] == name@[n
                            - 1]);
                        if r {
                            assert(end =~= seq![0x2eu8, 0x6du8, 0x64u8]);
                        }
                    }
                }
                r
            },
        }
    }
}

/// What a list of paths stands for.
pub open spec fn paths_view(paths: Seq<PathBuf>) -> Seq<PathView> {
    paths.map_values(|path: PathBuf| path@)
}

/// An absolute path with `.` and `..` resolved lexically.
///
/// Resolution goes by the spelling alone. Following symbolic links could put
/// the root and an ignore file on different sides of one, and then a rule base
/// would not be a prefix of the entries it governs.
pub fn absolute(path: &PathBuf) -> (r: PathBuf)
    ensures
        r@ == resolve(path@),
{
    let mut out = PathBuf { comps: Vec::new() };
    assert(out@ =~= Seq::empty());
    for i in 0..path.comps.len()
        invariant
            out@ == resolve(path@.take(i as int)),
    {
        assert(path@.take(i + 1).drop_last() =~= path@.take(i as int));
        assert(path@.take(i + 1).last() == path.comps@[i as int]@);
        match &path.comps[i] {
            Component::CurDir => {},
            Component::ParentDir => {
                if let Some(up) = out.parent() {
                    out = up;
                }
            },
            other => {
                let ghost before = out;
                let comp = other.clone();
                let ghost view = comp@;
                out.comps.push(comp);
                assert(out@ =~= before@.push(view));
            },
        }
    }
    assert(path@.take(path@.len() as int) =~= path@);
    out
}

/// `path` re-expressed under `root`, or nothing when it does not lie there.
///
/// Containment is decided on the two canonical paths; the result keeps
/// `root`'s own spelling, followed by what is left of the canonical path.
pub fn under_root(
    root: &PathBuf,
    canonical_root: &PathBuf,
    canonical_path: &PathBuf,
) -> (r: Option<PathBuf>)
    ensures
        match r {
            None => !canonical_root@.is_prefix_of(canonical_path@),
            Some(p) => {
                &&& canonical_root@.is_prefix_of(canonical_path@)
                &&& p@ == join(root@, canonical_path@.skip(canonical_root@.len() as int))
            },
        },
{
    match canonical_path.strip_prefix(canonical_root) {
        None => None,
        Some(rel) => Some(root.join(&rel)),
    }
}

// ---------------------------------------------------------------------------
// Laws
// ---------------------------------------------------------------------------

/// Whether a path has no `.` and no `..`.
pub open spec fn no_dots(p: PathView) -> bool {
    forall|i: int| 0 <= i < p.len() ==> !((#[trigger] p[i]) is CurDir) && !(p[i] is ParentDir)
}

/// A resolved path has no `.` and no `..`, and resolving it again changes
/// nothing: a path without them stands for itself.
pub proof fn law_resolve(p: PathView)
    ensures
        no_dots(resolve(p)),
        resolve(resolve(p)) == resolve(p),
        no_dots(p) ==> resolve(p) == p,
{
    lemma_resolved_no_dots(p);
    lemma_no_dots_resolved(resolve(p));
    if no_dots(p) {
        lemma_no_dots_resolved(p);
    }
}

proof fn lemma_resolved_no_dots(p: PathView)
    ensures
        no_dots(resolve(p)),
    decreases p.len(),
{
    if p.len() > 0 {
        let before = resolve(p.drop_last());
        lemma_resolved_no_dots(p.drop_last());
        if let Some(up) = parent(before) {
            assert forall|i: int| 0 <= i < up.len() implies !((#[trigger] up[i]) is CurDir) && !(
            up[i] is ParentDir) by {
                assert(up[i] == before[i]);
            }
        }
    }
}

proof fn lemma_no_dots_resolved(p: PathView)
    requires
        no_dots(p),
    ensures
        resolve(p) == p,
    decreases p.len(),
{
    if p.len() > 0 {
        let front = p.drop_last();
        assert(p[p.len() - 1] == p.last());
        assert forall|i: int| 0 <= i < front.len() implies !((#[trigger] front[i]) is CurDir) && !(
        front[i] is ParentDir) by {
            assert(front[i] == p[i]);
        }
        lemma_no_dots_resolved(front);
        assert(front.push(p.last()) =~= p);
    } else {
        assert(p =~= Seq::empty());
    }
}

/// Names are added behind a verbatim prefix as they are.
proof fn lemma_join_names(base: PathView, rel: PathView)
    requires
        forall|i: int| 0 <= i < rel.len() ==> (#[trigger] rel[i]) is Normal,
    ensures
        join_verbatim(base, rel) == base + rel,
    decreases rel.len(),
{
    if rel.len() == 0 {
        assert(base + rel =~= base);
    } else {
        let front = rel.drop_last();
        assert forall|i: int| 0 <= i < front.len() implies (#[trigger] front[i]) is Normal by {
            assert(front[i] == rel[i]);
        }
        lemma_join_names(base, front);
        assert(rel[rel.len() - 1] is Normal);
        assert(base + rel =~= (base + front).push(rel.last()));
    }
}

/// A file that lies in a directory, by the canonical paths of both, has a name
/// below any other spelling of that directory, and what stands behind the
/// directory is the same in both names.
pub proof fn law_under_root(root: PathView, canonical_root: PathView, canonical_path: PathView)
    requires
        canonical_root.is_prefix_of(canonical_path),
        forall|i: int|
            canonical_root.len() <= i < canonical_path.len() ==> (
            #[trigger] canonical_path[i]) is Normal,
    ensures
        ({
            let rel = canonical_path.skip(canonical_root.len() as int);
            let p = join(root, rel);
            &&& root.is_prefix_of(p)
            &&& p.skip(root.len() as int) == rel
        }),
{
    let rel = canonical_path.skip(canonical_root.len() as int);
    let p = join(root, rel);
    if rel.len() > 0 {
        assert(rel[0] == canonical_path[canonical_root.len() as int]);
    }
    assert forall|i: int| 0 <= i < rel.len() implies (#[trigger] rel[i]) is Normal by {
        assert(rel[i] == canonical_path[canonical_root.len() + i]);
    }
    lemma_join_names(root, rel);
    assert(p =~= root + rel);
    assert(p.take(root.len() as int) =~= root);
    assert(p.skip(root.len() as int) =~= rel);
}

/// The directories above a path are what is left of it when components are
/// taken from its end, nearest first.
pub proof fn law_ancestors(p: PathView)
    ensures
        0 < ancestors(p).len() <= p.len() + 1,
        forall|i: int|
            0 <= i < ancestors(p).len() ==> #[trigger] ancestors(p)[i] == p.take(p.len() - i),
        forall|i: int|
            0 <= i < ancestors(p).len() - 1 ==> parent(#[trigger] ancestors(p)[i]) is Some,
        parent(ancestors(p).last()) is None,
    decreases p.len(),
{
    let all = ancestors(p);
    match parent(p) {
        None => {
            assert(p.take(p.len() as int) =~= p);
        },
        Some(up) => {
            law_ancestors(up);
            let rest = ancestors(up);
            assert(all =~= seq![p] + rest);
            assert forall|i: int| 0 <= i < all.len() implies #[trigger] all[i] == p.take(
                p.len() - i,
            ) by {
                if i == 0 {
                    assert(p.take(p.len() as int) =~= p);
                } else {
                    assert(all[i] == rest[i - 1]);
                    assert(up.take(up.len() - (i - 1)) =~= p.take(p.len() - i));
                }
            }
            assert forall|i: int| 0 <= i < all.len() - 1 implies parent(
                #[trigger] all[i],
            ) is Some by {
                if i > 0 {
                    assert(all[i] == rest[i - 1]);
                }
            }
            assert(all.last() == rest.last());
        },
    }
}

/// A byte below the range of multi-byte characters is in the encoding of a
/// text only if it is a character of the text.
proof fn lemma_ascii_byte(s: Seq<char>, b: u8)
    requires
        b < 0x80,
        vstd::utf8::encode_utf8(s).contains(b),
    ensures
        s.contains(b as char),
    decreases s.len(),
{
    if s.len() > 0 {
        let c = s[0] as u32;
        let first = vstd::utf8::encode_scalar(c);
        let rest = vstd::utf8::encode_utf8(s.drop_first());
        let i = choose|i: int| 0 <= i < (first + rest).len() && (first + rest)[i] == b;
        if i < first.len() {
            assert(first[i] == b);
            assert(0x80 <= 0xC0u8 | ((c >> 6) & 0x1F) as u8) by (bit_vector);
            assert(0x80 <= 0xE0u8 | ((c >> 12) & 0x0F) as u8) by (bit_vector);
            assert(0x80 <= 0xF0u8 | ((c >> 18) & 0x7) as u8) by (bit_vector);
            assert(0x80 <= 0x80u8 | (c & 0x3F) as u8) by (bit_vector);
            assert(0x80 <= 0x80u8 | ((c >> 6) & 0x3F) as u8) by (bit_vector);
            assert(0x80 <= 0x80u8 | ((c >> 12) & 0x3F) as u8) by (bit_vector);
            assert(vstd::utf8::has_width_1_encoding(c));
            assert((c & 0x7F) as u8 == c) by (bit_vector)
                requires
                    c <= 0x7F,
            ;
            assert(c == b);
            vstd::utf8::char_u32_cast(s[0], c);
            assert(b as char == c as char);
            assert(s[0] == b as char);
        } else {
            assert(rest[i - first.len()] == b);
            lemma_ascii_byte(s.drop_first(), b);
            let j = choose|j: int|
                0 <= j < s.drop_first().len() && s.drop_first()[j] == b as char;
            assert(s[j + 1] == b as char);
        }
    }
}

/// A text without an ASCII character has no such byte in its spelling.
pub proof fn lemma_no_ascii_byte(s: Seq<char>, b: u8)
    requires
        b < 0x80,
    ensures
        !s.contains(b as char) ==> !vstd::utf8::encode_utf8(s).contains(b),
{
    if vstd::utf8::encode_utf8(s).contains(b) {
        lemma_ascii_byte(s, b);
    }
}

proof fn lemma_pieces_main(s: Seq<u8>, main: u8)
    requires
        !s.contains(main),
    ensures
        pieces(s, main, false) == pieces(s, 0x2f, false),
    decreases s.len(),
{
    if s.len() > 0 {
        assert(s[s.len() - 1] != main);
        assert(!s.drop_last().contains(main)) by {
            if s.drop_last().contains(main) {
                let i = choose|i: int| 0 <= i < s.drop_last().len() && s.drop_last()[i] == main;
                assert(s[i] == main);
            }
        }
        lemma_pieces_main(s.drop_last(), main);
    }
}

/// A text without the main separator of a system spells the same path there
/// as where `/` is the only separator, unless it begins with a prefix there.
pub proof fn law_other_separator(s: Seq<char>, main: u8)
    requires
        main < 0x80,
        !s.contains(main as char),
        !has_prefix(vstd::utf8::encode_utf8(s), main),
    ensures
        path_of(vstd::utf8::encode_utf8(s), main) == path_of(vstd::utf8::encode_utf8(s), 0x2f),
{
    let bytes = vstd::utf8::encode_utf8(s);
    if bytes.contains(main) {
        lemma_ascii_byte(s, main);
    }
    lemma_pieces_main(bytes, main);
    if bytes.len() > 0 {
        assert(bytes[0] != main);
    }
}

/// A drive is the same in either case, whatever stands behind it.
pub proof fn law_drive_case(a: Seq<u8>, b: Seq<u8>)
    requires
        has_drive(a, 0x5c),
        has_drive(b, 0x5c),
        upper(a[0]) == upper(b[0]),
        a.skip(2) == b.skip(2),
    ensures
        path_of(a, 0x5c) == path_of(b, 0x5c),
        path_of(a, 0x5c)[0] is Prefix,
{
}

/// A path has text exactly if each of its components is a name and each name is
/// UTF-8. The text then has one part for each component, in order, and each part
/// is the text of that name.
pub proof fn law_texts(p: PathView)
    ensures
        path_texts(p) is Some <==> forall|i: int|
            0 <= i < p.len() ==> (#[trigger] p[i] matches Component::Normal(name)
                && vstd::utf8::valid_utf8(name)),
        path_texts(p) matches Some(texts) ==> texts.len() == p.len() && forall|i: int|
            0 <= i < p.len() ==> (#[trigger] p[i] matches Component::Normal(name) && texts[i]
                == vstd::utf8::decode_utf8(name)),
    decreases p.len(),
{
    if p.len() > 0 {
        let front = p.drop_last();
        let n = p.len() - 1;
        law_texts(front);
        assert(p[n] == p.last());
        assert forall|i: int| 0 <= i < n implies #[trigger] front[i] == p[i] by {}
        if path_texts(p) is Some {
            assert forall|i: int| 0 <= i < p.len() implies (#[trigger] p[i] matches Component::Normal(
                name,
            ) && vstd::utf8::valid_utf8(name)) by {
                if i < n {
                    assert(front[i] == p[i]);
                }
            }
            let texts = path_texts(p)->0;
            assert forall|i: int| 0 <= i < p.len() implies (#[trigger] p[i] matches Component::Normal(
                name,
            ) && texts[i] == vstd::utf8::decode_utf8(name)) by {
                if i < n {
                    assert(front[i] == p[i]);
                }
            }
        } else if path_texts(front) is None {
            let i = choose|i: int|
                0 <= i < front.len() && !(#[trigger] front[i] matches Component::Normal(name)
                    && vstd::utf8::valid_utf8(name));
            assert(p[i] == front[i]);
        }
    }
}

/// A path whose names spell some texts has these texts, whatever characters are
/// in them.
pub proof fn law_texts_of_names(texts: Seq<Seq<char>>)
    ensures
        path_texts(
            texts.map_values(|text: Seq<char>| Component::Normal(vstd::utf8::encode_utf8(text))),
        ) == Some(texts),
{
    let p: PathView = texts.map_values(
        |text: Seq<char>| Component::Normal(vstd::utf8::encode_utf8(text)),
    );
    law_texts(p);
    assert forall|i: int| 0 <= i < p.len() implies (#[trigger] p[i] matches Component::Normal(name)
        && vstd::utf8::valid_utf8(name) && vstd::utf8::decode_utf8(name) == texts[i]) by {
        vstd::utf8::encode_utf8_valid_utf8(texts[i]);
        vstd::utf8::encode_utf8_decode_utf8(texts[i]);
    }
    let found = path_texts(p)->0;
    assert forall|i: int| 0 <= i < texts.len() implies found[i] == #[trigger] texts[i] by {
        assert(p[i] is Normal);
    }
    assert(found =~= texts);
}

proof fn lemma_pieces_nonempty(s: Seq<u8>, main: u8, verbatim: bool)
    ensures
        pieces(s, main, verbatim).len() > 0,
    decreases s.len(),
{
    if s.len() > 0 {
        lemma_pieces_nonempty(s.drop_last(), main, verbatim);
    }
}

/// Whether a spelling has no separator in it.
pub open spec fn unseparated(name: Seq<u8>, main: u8) -> bool {
    forall|i: int| 0 <= i < name.len() ==> #[trigger] name[i] != 0x2f && name[i] != main
}

proof fn lemma_pieces_joined(s: Seq<u8>, sep: u8, name: Seq<u8>, main: u8)
    requires
        sep == 0x2f || sep == main,
        unseparated(name, main),
    ensures
        pieces(s.push(sep) + name, main, false) == pieces(s, main, false).push(name),
    decreases name.len(),
{
    let whole = s.push(sep) + name;
    lemma_pieces_nonempty(s, main, false);
    if name.len() == 0 {
        assert(whole =~= s.push(sep));
        assert(whole.drop_last() =~= s);
        assert(name =~= Seq::empty());
    } else {
        let front = name.drop_last();
        assert forall|i: int| 0 <= i < front.len() implies #[trigger] front[i] != 0x2f && front[i]
            != main by {
            assert(front[i] == name[i]);
        }
        lemma_pieces_joined(s, sep, front, main);
        assert(whole.drop_last() =~= s.push(sep) + front);
        assert(whole.last() == name.last());
        assert(name[name.len() - 1] == name.last());
        let before = pieces(s, main, false).push(front);
        assert(before.drop_last() =~= pieces(s, main, false));
        assert(front.push(name.last()) =~= name);
    }
}

proof fn lemma_pieces_one(name: Seq<u8>, main: u8)
    requires
        unseparated(name, main),
    ensures
        pieces(name, main, false) == seq![name],
    decreases name.len(),
{
    if name.len() == 0 {
        assert(name =~= Seq::empty());
    } else {
        let front = name.drop_last();
        assert forall|i: int| 0 <= i < front.len() implies #[trigger] front[i] != 0x2f && front[i]
            != main by {
            assert(front[i] == name[i]);
        }
        lemma_pieces_one(front, main);
        assert(name[name.len() - 1] == name.last());
        assert(front.push(name.last()) =~= name);
        assert(seq![front].drop_last().push(name) =~= seq![name]);
    }
}

/// A name spelled behind a path and a separator is one more component: the name
/// itself, or for `..` the parent. A `.` or nothing there adds none. So `a/./b/`
/// is the path `a/b`. On a system whose main separator is the backslash the path
/// in front has to begin with neither a drive nor two separators.
#[verifier::spinoff_prover]
#[verifier::rlimit(40)]
pub proof fn law_one_more_name(s: Seq<u8>, sep: u8, name: Seq<u8>, main: u8)
    requires
        s.len() > 0,
        sep == 0x2f || sep == main,
        unseparated(name, main),
        main == 0x5c ==> if s[0] == 0x2f || s[0] == 0x5c {
            s.len() >= 2 && s[1] != 0x2f && s[1] != 0x5c
        } else {
            s.len() >= 2 ==> s[1] != 0x3a
        },
    ensures
        path_of(s.push(sep) + name, main) == if name == Seq::<u8>::empty() || name == seq![0x2eu8] {
            path_of(s, main)
        } else if name == seq![0x2eu8, 0x2eu8] {
            path_of(s, main).push(Component::ParentDir)
        } else {
            path_of(s, main).push(Component::Normal(name))
        },
{
    let whole = s.push(sep) + name;
    lemma_pieces_joined(s, sep, name, main);
    lemma_pieces_nonempty(s, main, false);
    assert(whole[0] == s[0]);
    assert(whole[1] == (if s.len() >= 2 {
        s[1]
    } else {
        sep
    }));
    assert(verbatim_mark()[0] == 0x5c && verbatim_mark()[1] == 0x5c);
    let cut = pieces(s, main, false);
    assert(cut.push(name).drop_last() =~= cut);
    assert(cut.push(name).last() == name);
    assert(path_of(whole, main) == path_without_prefix(whole, main, false));
    assert(path_of(s, main) == path_without_prefix(s, main, false));
    if name.len() == 0 {
        assert(name =~= Seq::empty());
    }
    assert(path_of(whole, main) =~= if name.len() == 0 || name == seq![0x2eu8] {
        path_of(s, main)
    } else if name == seq![0x2eu8, 0x2eu8] {
        path_of(s, main).push(Component::ParentDir)
    } else {
        path_of(s, main).push(Component::Normal(name))
    });
}

/// What is spelled without a separator is one component, `.` and `..` among
/// them, and nothing is no component. A separator in front puts the root there,
/// behind which `.` adds none. On a system whose main separator is the backslash
/// the name has to begin with no drive.
#[verifier::spinoff_prover]
#[verifier::rlimit(40)]
pub proof fn law_first_name(sep: u8, name: Seq<u8>, main: u8)
    requires
        sep == 0x2f || sep == main,
        unseparated(name, main),
        main == 0x5c && name.len() >= 2 ==> name[1] != 0x3a,
    ensures
        path_of(name, main) == if name == Seq::<u8>::empty() {
            Seq::empty()
        } else if name == seq![0x2eu8] {
            seq![Component::CurDir]
        } else if name == seq![0x2eu8, 0x2eu8] {
            seq![Component::ParentDir]
        } else {
            seq![Component::Normal(name)]
        },
        path_of(seq![sep] + name, main) == if name == Seq::<u8>::empty() || name == seq![0x2eu8] {
            seq![Component::RootDir]
        } else if name == seq![0x2eu8, 0x2eu8] {
            seq![Component::RootDir, Component::ParentDir]
        } else {
            seq![Component::RootDir, Component::Normal(name)]
        },
{
    reveal_with_fuel(piece_components, 3);
    let rooted = seq![sep] + name;
    let none = Seq::<u8>::empty();
    lemma_pieces_one(name, main);
    lemma_pieces_one(none, main);
    lemma_pieces_joined(none, sep, name, main);
    assert(rooted =~= none.push(sep) + name);
    assert(rooted[0] == sep);
    if name.len() > 0 {
        assert(rooted[1] == name[0]);
        assert(name[0] != 0x2f && name[0] != main);
    } else {
        assert(name =~= none);
    }
    assert(verbatim_mark()[0] == 0x5c && verbatim_mark()[1] == 0x5c);
    assert(seq![name].drop_last() =~= Seq::empty());
    assert(seq![none].push(name).drop_last() =~= seq![none]);
    assert(seq![none].drop_last() =~= Seq::empty());
    assert(path_of(name, main) == piece_components(seq![name], false));
    assert(path_of(rooted, main) == seq![Component::RootDir] + piece_components(
        seq![none].push(name),
        false,
    ));
    assert(path_of(name, main) =~= if name.len() == 0 {
        Seq::empty()
    } else if name == seq![0x2eu8] {
        seq![Component::CurDir]
    } else if name == seq![0x2eu8, 0x2eu8] {
        seq![Component::ParentDir]
    } else {
        seq![Component::Normal(name)]
    });
    assert(path_of(rooted, main) =~= if name.len() == 0 || name == seq![0x2eu8] {
        seq![Component::RootDir]
    } else if name == seq![0x2eu8, 0x2eu8] {
        seq![Component::RootDir, Component::ParentDir]
    } else {
        seq![Component::RootDir, Component::Normal(name)]
    });
}

/// On a system whose main separator is the backslash a letter and a colon in
/// front are a drive, whose letter counts as a capital; behind it comes the path
/// that the rest spells alone.
pub proof fn law_drive(letter: u8, rest: Seq<u8>)
    requires
        0x41 <= letter <= 0x5a || 0x61 <= letter <= 0x7a,
        rest.len() >= 2 ==> rest[1] != 0x3a && rest[1] != 0x2f && rest[1] != 0x5c,
    ensures
        path_of(seq![letter, 0x3au8] + rest, 0x5c) == seq![
            Component::Prefix(
                seq![
                    if letter <= 0x5a {
                        letter
                    } else {
                        (letter - 0x20) as u8
                    },
                    0x3au8,
                ],
            ),
        ] + path_of(rest, 0x5c),
{
    let whole = seq![letter, 0x3au8] + rest;
    assert(whole[0] == letter && whole[1] == 0x3a);
    assert(whole.skip(2) =~= rest);
    assert(verbatim_mark()[0] == 0x5c && verbatim_mark()[1] == 0x5c);
    assert(path_of(rest, 0x5c) == path_without_prefix(rest, 0x5c, false));
}

/// Joining a path that begins with a name or `..` puts it behind the base, and
/// one that begins with `.` without that. A path with a root replaces the base
/// but for its prefix, and one with a prefix replaces it whole. The base has no
/// verbatim prefix.
pub proof fn law_join(base: PathView, p: PathView)
    requires
        p.len() > 0,
        base.len() > 0 ==> !(base[0] matches Component::Prefix(prefix) && prefix.len() >= 4
            && prefix[0] == 0x5c && prefix[1] == 0x5c && prefix[2] == 0x3f && prefix[3] == 0x5c),
    ensures
        join(base, Seq::empty()) == base,
        p[0] is Normal || p[0] is ParentDir ==> join(base, p) == base + p,
        p[0] is CurDir ==> join(base, p) == if base.len() == 0 {
            p
        } else {
            base + p.skip(1)
        },
        p[0] is RootDir ==> join(base, p) == if base.len() > 0 && base[0] is Prefix {
            seq![base[0]] + p
        } else {
            p
        },
        p[0] is Prefix ==> join(base, p) == p,
{
    if base.len() > 0 {
        if let Component::Prefix(prefix) = base[0] {
            if is_verbatim(prefix) {
                let mark = verbatim_mark();
                assert(mark[0] == prefix[0] && mark[1] == prefix[1] && mark[2] == prefix[2]
                    && mark[3] == prefix[3]);
            }
        }
    }
}

/// Joining names puts them behind any base, one with a verbatim prefix too.
pub proof fn law_join_names(base: PathView, rel: PathView)
    requires
        forall|i: int| 0 <= i < rel.len() ==> (#[trigger] rel[i]) is Normal,
    ensures
        join(base, rel) == base + rel,
{
    if rel.len() > 0 {
        assert(rel[0] is Normal);
    }
    lemma_join_names(base, rel);
    assert(join(base, rel) =~= base + rel);
}

/// The parent of a path is the path without its last component. The empty path
/// has none, nor one that ends in its root or prefix.
pub proof fn law_parent(p: PathView, last: ComponentView)
    ensures
        parent(Seq::empty()) is None,
        last is Prefix || last is RootDir ==> parent(p.push(last)) is None,
        last is Normal || last is CurDir || last is ParentDir ==> parent(p.push(last)) == Some(p),
{
    assert(p.push(last).drop_last() =~= p);
}

/// Resolving a path goes from its first component to its last: a name, the root
/// or a prefix is kept, `.` is dropped, and `..` takes away the name before it, if
/// there is one.
pub proof fn law_resolve_steps(p: PathView, last: ComponentView, name: Seq<u8>)
    ensures
        resolve(Seq::empty()) == Seq::<ComponentView>::empty(),
        last is Normal || last is RootDir || last is Prefix ==> resolve(p.push(last)) == resolve(
            p,
        ).push(last),
        resolve(p.push(Component::CurDir)) == resolve(p),
        resolve(p.push(Component::Normal(name)).push(Component::ParentDir)) == resolve(p),
        resolve(p).len() == 0 || resolve(p).last() is RootDir || resolve(p).last() is Prefix
            ==> resolve(p.push(Component::ParentDir)) == resolve(p),
        resolve(p).len() > 0 && resolve(p).last() is Normal ==> resolve(
            p.push(Component::ParentDir),
        ) == resolve(p).drop_last(),
{
    let named = p.push(Component::Normal(name));
    assert(p.push(last).drop_last() =~= p);
    assert(p.push(Component::CurDir).drop_last() =~= p);
    assert(p.push(Component::ParentDir).drop_last() =~= p);
    assert(named.drop_last() =~= p);
    assert(named.push(Component::ParentDir).drop_last() =~= named);
    assert(resolve(named) == resolve(p).push(Component::Normal(name)));
    assert(resolve(named).drop_last() =~= resolve(p));
}

/// A path is a Markdown file exactly if its last component is a name that ends
/// in `.md` with something before it.
pub proof fn law_markdown(p: PathView)
    ensures
        is_markdown(p) <==> p.len() > 0 && (p.last() matches Component::Normal(name) && name.len()
            > 3 && name[name.len() - 3] == 0x2e && name[name.len() - 2] == 0x6d && name[name.len()
            - 1] == 0x64),
{
    let end = seq![0x2eu8, 0x6du8, 0x64u8];
    if p.len() > 0 {
        if let Component::Normal(name) = p.last() {
            if name.len() > 3 {
                let last = name.skip(name.len() - 3);
                assert(last[0] == name[name.len() - 3] && last[1] == name[name.len() - 2] && last[2]
                    == name[name.len() - 1]);
                assert(end[0] == 0x2e && end[1] == 0x6d && end[2] == 0x64);
                if last[0] == 0x2e && last[1] == 0x6d && last[2] == 0x64 {
                    assert(last =~= end);
                }
            }
        }
    }
}

/// The file name of a path is its last component, if that is a name.
pub proof fn law_file_name(p: PathView, last: ComponentView, name: Seq<u8>)
    ensures
        file_name(Seq::empty()) is None,
        file_name(p.push(Component::Normal(name))) == Some(name),
        !(last is Normal) ==> file_name(p.push(last)) is None,
        child(p, name) == p.push(Component::Normal(name)),
        join(p, seq![Component::Normal(name)]) == child(p, name),
        parent(child(p, name)) == Some(p),
{
    assert(p.push(last).last() == last);
    assert(p.push(Component::Normal(name)).last() == Component::<Seq<u8>>::Normal(name));
    law_parent(p, Component::Normal(name));
    let rel: PathView = seq![Component::Normal(name)];
    law_join_names(p, rel);
    assert(p + rel =~= child(p, name));
}

proof fn lemma_name_len(name: Seq<u8>, rest: Seq<u8>, main: u8, verbatim: bool)
    requires
        forall|i: int| 0 <= i < name.len() ==> !separates(#[trigger] name[i], main, verbatim),
        rest.len() == 0 || separates(rest[0], main, verbatim),
    ensures
        name_len(name + rest, main, verbatim) == name.len(),
    decreases name.len(),
{
    let whole = name + rest;
    if name.len() == 0 {
        assert(whole =~= rest);
    } else {
        let later = name.skip(1);
        assert(whole[0] == name[0]);
        assert(whole.skip(1) =~= later + rest);
        assert forall|i: int| 0 <= i < later.len() implies !separates(
            #[trigger] later[i],
            main,
            verbatim,
        ) by {
            assert(later[i] == name[i + 1]);
        }
        lemma_name_len(later, rest, main, verbatim);
    }
}

/// The path that is spelled behind a prefix with a root of its own.
proof fn lemma_behind_prefix(rest: Seq<u8>)
    requires
        rest.len() == 0 || rest[0] == 0x2f || rest[0] == 0x5c,
        rest.len() >= 2 ==> rest[1] != 0x2f && rest[1] != 0x5c,
    ensures
        path_without_prefix(rest, 0x5c, true) == if rest.len() == 0 {
            seq![Component::RootDir]
        } else {
            path_of(rest, 0x5c)
        },
{
    assert(verbatim_mark()[0] == 0x5c && verbatim_mark()[1] == 0x5c);
    if rest.len() == 0 {
        assert(rest =~= Seq::empty());
        reveal_with_fuel(piece_components, 2);
        assert(seq![Seq::<u8>::empty()].drop_last() =~= Seq::empty());
        assert(path_without_prefix(rest, 0x5c, true) =~= seq![Component::RootDir]);
    }
}

/// On a system whose main separator is the backslash, two separators, a server, a
/// separator and a share are a prefix, with a root even where nothing follows.
/// Behind it comes the path that the rest spells alone.
#[verifier::spinoff_prover]
#[verifier::rlimit(40)]
pub proof fn law_share(
    a: u8,
    b: u8,
    server: Seq<u8>,
    c: u8,
    name: Seq<u8>,
    rest: Seq<u8>,
)
    requires
        a == 0x2f || a == 0x5c,
        b == 0x2f || b == 0x5c,
        c == 0x2f || c == 0x5c,
        server.len() > 0,
        name.len() > 0,
        unseparated(server, 0x5c),
        unseparated(name, 0x5c),
        server != seq![0x2eu8],
        server != seq![0x3fu8],
        rest.len() == 0 || rest[0] == 0x2f || rest[0] == 0x5c,
        rest.len() >= 2 ==> rest[1] != 0x2f && rest[1] != 0x5c,
    ensures
        path_of(seq![a, b] + server + seq![c] + name + rest, 0x5c) == seq![
            Component::Prefix(seq![0x2fu8, 0x2fu8] + server + seq![0x2fu8] + name),
        ] + if rest.len() == 0 {
            seq![Component::RootDir]
        } else {
            path_of(rest, 0x5c)
        },
{
    let behind = seq![c] + name + rest;
    let whole = seq![a, b] + server + seq![c] + name + rest;
    assert(whole =~= seq![a, b] + (server + behind));
    lemma_share_names(a, b, server, c, name, rest);
    lemma_no_mark(a, b, server, behind);
    lemma_behind_prefix(rest);
}

proof fn lemma_share_names(
    a: u8,
    b: u8,
    server: Seq<u8>,
    c: u8,
    name: Seq<u8>,
    rest: Seq<u8>,
)
    requires
        a == 0x2f || a == 0x5c,
        b == 0x2f || b == 0x5c,
        c == 0x2f || c == 0x5c,
        server.len() > 0,
        name.len() > 0,
        unseparated(server, 0x5c),
        unseparated(name, 0x5c),
        rest.len() == 0 || rest[0] == 0x2f || rest[0] == 0x5c,
    ensures
        share(seq![a, b] + (server + (seq![c] + name + rest)), 0x5c) == Some((server, name, rest)),
{
    let behind = seq![c] + name + rest;
    let whole = seq![a, b] + (server + behind);
    let n = server.len() as int;
    let m = name.len() as int;
    assert(whole[0] == a && whole[1] == b);
    assert(whole.skip(2) =~= server + behind);
    assert(behind[0] == c);
    lemma_name_len(server, behind, 0x5c, false);
    lemma_name_len(name, rest, 0x5c, false);
    assert((server + behind).skip(n + 1) =~= name + rest);
    assert((server + behind).take(n) =~= server);
    assert((name + rest).take(m) =~= name);
    assert((name + rest).skip(m) =~= rest);
}

proof fn lemma_no_mark(a: u8, b: u8, server: Seq<u8>, behind: Seq<u8>)
    requires
        a == 0x2f || a == 0x5c,
        b == 0x2f || b == 0x5c,
        server.len() > 0,
        unseparated(server, 0x5c),
        server != seq![0x2eu8],
        server != seq![0x3fu8],
    ensures
        !is_verbatim(seq![a, b] + (server + behind)),
        !has_device(seq![a, b] + (server + behind), 0x5c),
        !has_drive(seq![a, b] + (server + behind), 0x5c),
{
    let whole = seq![a, b] + (server + behind);
    let mark = verbatim_mark();
    assert(whole[0] == a);
    assert(whole[2] == server[0]);
    assert(mark[2] == 0x3f && mark[3] == 0x5c);
    if server.len() == 1 {
        assert(server =~= seq![server[0]]);
    } else {
        assert(whole[3] == server[1]);
    }
}

/// On a system whose main separator is the backslash, two separators, a `.`, a
/// separator and a name are the prefix of a device, with a root even where nothing
/// follows.
pub proof fn law_device(a: u8, b: u8, c: u8, name: Seq<u8>, rest: Seq<u8>)
    requires
        a == 0x2f || a == 0x5c,
        b == 0x2f || b == 0x5c,
        c == 0x2f || c == 0x5c,
        unseparated(name, 0x5c),
        rest.len() == 0 || rest[0] == 0x2f || rest[0] == 0x5c,
        rest.len() >= 2 ==> rest[1] != 0x2f && rest[1] != 0x5c,
    ensures
        path_of(seq![a, b, 0x2eu8, c] + name + rest, 0x5c) == seq![
            Component::Prefix(seq![0x5cu8, 0x5cu8, 0x2eu8, 0x5cu8] + name),
        ] + if rest.len() == 0 {
            seq![Component::RootDir]
        } else {
            path_of(rest, 0x5c)
        },
{
    let whole = seq![a, b, 0x2eu8, c] + name + rest;
    assert(whole[0] == a && whole[1] == b && whole[2] == 0x2e && whole[3] == c);
    assert(verbatim_mark()[2] == 0x3f);
    assert(whole.skip(4) =~= name + rest);
    lemma_name_len(name, rest, 0x5c, false);
    assert((name + rest).take(name.len() as int) =~= name);
    assert((name + rest).skip(name.len() as int) =~= rest);
    lemma_behind_prefix(rest);
}

/// A path behind `\\?\` is taken as it is spelled: its drive or other name is its
/// prefix, there is a root only if something follows, the backslash alone
/// separates, and a `.` is a component.
#[verifier::spinoff_prover]
#[verifier::rlimit(40)]
pub proof fn law_verbatim(letter: u8, name: Seq<u8>, next: Seq<u8>)
    requires
        0x41 <= letter <= 0x5a || 0x61 <= letter <= 0x7a,
        forall|i: int| 0 <= i < name.len() ==> #[trigger] name[i] != 0x5c,
        forall|i: int| 0 <= i < next.len() ==> #[trigger] next[i] != 0x5c,
        name.len() >= 2 ==> name[1] != 0x3a,
        name != seq![0x55u8, 0x4eu8, 0x43u8],
        next.len() > 0,
    ensures
        ({
            let mark = seq![0x5cu8, 0x5cu8, 0x3fu8, 0x5cu8];
            let component = if next == seq![0x2eu8] {
                Component::CurDir
            } else if next == seq![0x2eu8, 0x2eu8] {
                Component::ParentDir
            } else {
                Component::Normal(next)
            };
            let drive = Component::Prefix(
                mark + seq![
                    if letter <= 0x5a {
                        letter
                    } else {
                        (letter - 0x20) as u8
                    },
                    0x3au8,
                ],
            );
            &&& path_of(mark + seq![letter, 0x3au8], 0x5c) == seq![drive]
            &&& path_of(mark + seq![letter, 0x3au8] + (seq![0x5cu8] + next), 0x5c) == seq![
                drive,
                Component::RootDir,
                component,
            ]
            &&& path_of(mark + name, 0x5c) == seq![Component::Prefix(mark + name)]
            &&& path_of(mark + name + (seq![0x5cu8] + next), 0x5c) == seq![
                Component::Prefix(mark + name),
                Component::RootDir,
                component,
            ]
        }),
{
    let mark = seq![0x5cu8, 0x5cu8, 0x3fu8, 0x5cu8];
    let drive = seq![letter, 0x3au8];
    let more = seq![0x5cu8] + next;
    assert(verbatim_mark() =~= mark);
    lemma_verbatim_next(next);
    lemma_verbatim_drive(letter, Seq::empty());
    lemma_verbatim_drive(letter, more);
    assert(mark + drive + Seq::empty() =~= mark + drive);
    assert(more[0] == 0x5c);
    lemma_verbatim_name(name, Seq::empty());
    lemma_verbatim_name(name, more);
    assert(mark + name + Seq::empty() =~= mark + name);
    assert(seq![Component::Prefix(mark + name)] + Seq::<ComponentView>::empty() =~= seq![
        Component::Prefix(mark + name),
    ]);
}

proof fn lemma_verbatim_next(next: Seq<u8>)
    requires
        forall|i: int| 0 <= i < next.len() ==> #[trigger] next[i] != 0x5c,
        next.len() > 0,
    ensures
        path_after_verbatim(Seq::empty()) == Seq::<ComponentView>::empty(),
        path_after_verbatim(seq![0x5cu8] + next) == seq![
            Component::RootDir,
            if next == seq![0x2eu8] {
                Component::CurDir
            } else if next == seq![0x2eu8, 0x2eu8] {
                Component::ParentDir
            } else {
                Component::Normal(next)
            },
        ],
{
    let more = seq![0x5cu8] + next;
    assert(more.skip(1) =~= next);
    lemma_verbatim_piece(next);
    reveal_with_fuel(piece_components, 2);
    assert(seq![next].drop_last() =~= Seq::empty());
    assert(path_after_verbatim(more) =~= seq![
        Component::RootDir,
        if next == seq![0x2eu8] {
            Component::CurDir
        } else if next == seq![0x2eu8, 0x2eu8] {
            Component::ParentDir
        } else {
            Component::Normal(next)
        },
    ]);
}

proof fn lemma_verbatim_piece(next: Seq<u8>)
    requires
        forall|i: int| 0 <= i < next.len() ==> #[trigger] next[i] != 0x5c,
    ensures
        pieces(next, 0x5c, true) == seq![next],
    decreases next.len(),
{
    if next.len() == 0 {
        assert(next =~= Seq::empty());
    } else {
        let front = next.drop_last();
        assert forall|i: int| 0 <= i < front.len() implies #[trigger] front[i] != 0x5c by {
            assert(front[i] == next[i]);
        }
        lemma_verbatim_piece(front);
        assert(next[next.len() - 1] == next.last());
        assert(front.push(next.last()) =~= next);
        assert(seq![front].drop_last().push(next) =~= seq![next]);
    }
}

proof fn lemma_verbatim_drive(letter: u8, more: Seq<u8>)
    requires
        0x41 <= letter <= 0x5a || 0x61 <= letter <= 0x7a,
        more.len() > 0 ==> more[0] == 0x5c,
    ensures
        path_of(verbatim_mark() + seq![letter, 0x3au8] + more, 0x5c) == seq![
            Component::Prefix(
                verbatim_mark() + seq![
                    if letter <= 0x5a {
                        letter
                    } else {
                        (letter - 0x20) as u8
                    },
                    0x3au8,
                ],
            ),
        ] + path_after_verbatim(more),
{
    let mark = verbatim_mark();
    let rest = seq![letter, 0x3au8] + more;
    let whole = mark + seq![letter, 0x3au8] + more;
    assert(whole =~= mark + rest);
    assert(whole.take(4) =~= mark);
    assert(whole.skip(4) =~= rest);
    assert(rest[0] == letter && rest[1] == 0x3a);
    assert(share_mark()[1] == 0x4e);
    assert(!share_mark().is_prefix_of(rest));
    if more.len() > 0 {
        assert(rest[2] == more[0]);
    }
    assert(rest.skip(2) =~= more);
}

#[verifier::spinoff_prover]
#[verifier::rlimit(40)]
proof fn lemma_verbatim_name(name: Seq<u8>, more: Seq<u8>)
    requires
        forall|i: int| 0 <= i < name.len() ==> #[trigger] name[i] != 0x5c,
        name.len() >= 2 ==> name[1] != 0x3a,
        name != seq![0x55u8, 0x4eu8, 0x43u8],
        more.len() > 0 ==> more[0] == 0x5c && more.len() > 1 && more[1] != 0x5c,
    ensures
        path_of(verbatim_mark() + name + more, 0x5c) == seq![
            Component::Prefix(verbatim_mark() + name),
        ] + path_after_verbatim(more),
{
    let mark = verbatim_mark();
    let rest = name + more;
    let whole = mark + name + more;
    assert(whole =~= mark + rest);
    assert(whole.take(4) =~= mark);
    assert(whole.skip(4) =~= rest);
    lemma_name_len(name, more, 0x5c, true);
    let unc = share_mark();
    assert(unc[0] == 0x55 && unc[1] == 0x4e && unc[2] == 0x43 && unc[3] == 0x5c);
    if unc.is_prefix_of(rest) {
        assert(rest[0] == 0x55 && rest[1] == 0x4e && rest[2] == 0x43 && rest[3] == 0x5c);
        if name.len() > 3 {
            assert(rest[3] == name[3]);
        } else if name.len() < 3 {
            assert(rest[name.len() as int] == more[0]);
        }
        assert(name =~= seq![0x55u8, 0x4eu8, 0x43u8]);
    }
    if begins_with_drive(rest) {
        if name.len() >= 2 {
            assert(rest[1] == name[1]);
        } else if name.len() == 1 {
            assert(rest[1] == more[0]);
        } else {
            assert(rest[0] == more[0]);
        }
    }
    assert(rest.take(name.len() as int) =~= name);
    assert(rest.skip(name.len() as int) =~= more);
}

/// To a base with a verbatim prefix a path is joined component by component: `.`
/// adds nothing, `..` takes away a name, and a root leaves the prefix alone.
pub proof fn law_join_verbatim(base: PathView, p: PathView, last: ComponentView)
    requires
        base.len() > 0,
        base[0] matches Component::Prefix(prefix) && prefix.len() >= 4 && prefix[0] == 0x5c
            && prefix[1] == 0x5c && prefix[2] == 0x3f && prefix[3] == 0x5c,
        p.len() > 0 ==> !(p[0] is Prefix),
        !(last is Prefix),
    ensures
        join(base, Seq::empty()) == base,
        join(base, p.push(last)) == match last {
            Component::RootDir => join(base, p).take(1).push(Component::RootDir),
            Component::CurDir => join(base, p),
            Component::ParentDir => if join(base, p).last() is Normal {
                join(base, p).drop_last()
            } else {
                join(base, p)
            },
            other => join(base, p).push(other),
        },
{
    let prefix = base[0]->Prefix_0;
    let mark = verbatim_mark();
    assert(mark.is_prefix_of(prefix)) by {
        assert(prefix.take(4) =~= mark);
    }
    let all = p.push(last);
    assert(all.drop_last() =~= p);
    assert(all[0] == (if p.len() > 0 {
        p[0]
    } else {
        last
    }));
    assert(has_verbatim_prefix(base));
    assert(join_verbatim(base, p) == join(base, p));
    assert(join(base, all) == join_verbatim(base, all));
    assert(all.last() == last);
}

/// A final `.` behind other components is left out, but for a path with a
/// verbatim prefix.
pub proof fn law_without_dot(p: PathView, last: ComponentView)
    requires
        p.len() > 0 ==> !(p[0] matches Component::Prefix(prefix) && prefix.len() >= 4 && prefix[0]
            == 0x5c && prefix[1] == 0x5c && prefix[2] == 0x3f && prefix[3] == 0x5c),
    ensures
        without_dot(Seq::empty()) == Seq::<ComponentView>::empty(),
        p.len() > 0 ==> without_dot(p.push(Component::CurDir)) == p,
        p.len() == 0 || !(last is CurDir) ==> without_dot(p.push(last)) == p.push(last),
{
    assert(p.push(Component::CurDir).drop_last() =~= p);
    if p.len() > 0 {
        assert(p.push(Component::CurDir)[0] == p[0]);
        if let Component::Prefix(prefix) = p[0] {
            if is_verbatim(prefix) {
                let mark = verbatim_mark();
                assert(mark[0] == prefix[0] && mark[1] == prefix[1] && mark[2] == prefix[2]
                    && mark[3] == prefix[3]);
            }
        }
    }
}

/// Behind `\\?\UNC\` a server and a share are the prefix.
pub proof fn law_verbatim_share(server: Seq<u8>, name: Seq<u8>, next: Seq<u8>)
    requires
        forall|i: int| 0 <= i < server.len() ==> #[trigger] server[i] != 0x5c,
        forall|i: int| 0 <= i < name.len() ==> #[trigger] name[i] != 0x5c,
        forall|i: int| 0 <= i < next.len() ==> #[trigger] next[i] != 0x5c,
        name.len() > 0,
        next.len() > 0,
    ensures
        ({
            let mark = seq![0x5cu8, 0x5cu8, 0x3fu8, 0x5cu8];
            let share = seq![0x55u8, 0x4eu8, 0x43u8, 0x5cu8] + server + (seq![0x5cu8] + name);
            let component = if next == seq![0x2eu8] {
                Component::CurDir
            } else if next == seq![0x2eu8, 0x2eu8] {
                Component::ParentDir
            } else {
                Component::Normal(next)
            };
            &&& path_of(mark + share, 0x5c) == seq![Component::Prefix(mark + share)]
            &&& path_of(mark + share + (seq![0x5cu8] + next), 0x5c) == seq![
                Component::Prefix(mark + share),
                Component::RootDir,
                component,
            ]
        }),
{
    let mark = seq![0x5cu8, 0x5cu8, 0x3fu8, 0x5cu8];
    let share = seq![0x55u8, 0x4eu8, 0x43u8, 0x5cu8] + server + (seq![0x5cu8] + name);
    let more = seq![0x5cu8] + next;
    assert(verbatim_mark() =~= mark);
    assert(share_mark() =~= seq![0x55u8, 0x4eu8, 0x43u8, 0x5cu8]);
    lemma_verbatim_next(next);
    lemma_verbatim_share(server, name, Seq::empty());
    lemma_verbatim_share(server, name, more);
    assert(mark + share + Seq::empty() =~= mark + share);
    assert(seq![Component::Prefix(mark + share)] + Seq::<ComponentView>::empty() =~= seq![
        Component::Prefix(mark + share),
    ]);
}

proof fn lemma_verbatim_share(server: Seq<u8>, name: Seq<u8>, more: Seq<u8>)
    requires
        forall|i: int| 0 <= i < server.len() ==> #[trigger] server[i] != 0x5c,
        forall|i: int| 0 <= i < name.len() ==> #[trigger] name[i] != 0x5c,
        name.len() > 0,
        more.len() > 0 ==> more[0] == 0x5c,
    ensures
        ({
            let share = share_mark() + server + (seq![0x5cu8] + name);
            path_of(verbatim_mark() + share + more, 0x5c) == seq![
                Component::Prefix(verbatim_mark() + share),
            ] + path_after_verbatim(more)
        }),
{
    let mark = verbatim_mark();
    let share = share_mark() + server + (seq![0x5cu8] + name);
    let rest = share + more;
    let whole = mark + share + more;
    let behind = seq![0x5cu8] + name + more;
    assert(whole =~= mark + rest);
    assert(whole.take(4) =~= mark);
    assert(whole.skip(4) =~= rest);
    assert(rest.take(4) =~= share_mark());
    assert(rest.skip(4) =~= server + behind);
    assert(behind[0] == 0x5c);
    lemma_name_len(server, behind, 0x5c, true);
    lemma_name_len(name, more, 0x5c, true);
    assert((server + behind).skip((server.len() + 1) as int) =~= name + more);
    assert(verbatim_len(rest) == share.len());
    assert(rest.take(share.len() as int) =~= share);
    assert(rest.skip(share.len() as int) =~= more);
}

/// In a verbatim path with a drive each further name is one more component.
pub proof fn law_verbatim_one_more(letter: u8, before: Seq<u8>, next: Seq<u8>)
    requires
        0x41 <= letter <= 0x5a || 0x61 <= letter <= 0x7a,
        forall|i: int| 0 <= i < next.len() ==> #[trigger] next[i] != 0x5c,
        next.len() > 0,
    ensures
        ({
            let front = seq![0x5cu8, 0x5cu8, 0x3fu8, 0x5cu8] + seq![letter, 0x3au8];
            let rest = seq![0x5cu8] + before;
            path_of(front + (rest.push(0x5c) + next), 0x5c) == path_of(front + rest, 0x5c).push(
                if next == seq![0x2eu8] {
                    Component::CurDir
                } else if next == seq![0x2eu8, 0x2eu8] {
                    Component::ParentDir
                } else {
                    Component::Normal(next)
                },
            )
        }),
{
    let rest = seq![0x5cu8] + before;
    let more = rest.push(0x5c) + next;
    assert(verbatim_mark() =~= seq![0x5cu8, 0x5cu8, 0x3fu8, 0x5cu8]);
    assert(rest[0] == 0x5c && more[0] == 0x5c);
    lemma_verbatim_drive(letter, rest);
    lemma_verbatim_drive(letter, more);
    assert(rest.skip(1) =~= before);
    assert(more.skip(1) =~= before.push(0x5c) + next);
    lemma_verbatim_pieces(before, next);
    let cut = pieces(before, 0x5c, true);
    assert(cut.push(next).drop_last() =~= cut);
    assert(cut.push(next).last() == next);
    let component = if next == seq![0x2eu8] {
        Component::CurDir
    } else if next == seq![0x2eu8, 0x2eu8] {
        Component::ParentDir
    } else {
        Component::Normal(next)
    };
    assert(path_after_verbatim(more) =~= path_after_verbatim(rest).push(component));
}

proof fn lemma_verbatim_pieces(s: Seq<u8>, name: Seq<u8>)
    requires
        forall|i: int| 0 <= i < name.len() ==> #[trigger] name[i] != 0x5c,
    ensures
        pieces(s.push(0x5c) + name, 0x5c, true) == pieces(s, 0x5c, true).push(name),
    decreases name.len(),
{
    let whole = s.push(0x5c) + name;
    lemma_pieces_nonempty(s, 0x5c, true);
    if name.len() == 0 {
        assert(whole =~= s.push(0x5c));
        assert(whole.drop_last() =~= s);
        assert(name =~= Seq::empty());
    } else {
        let front = name.drop_last();
        assert forall|i: int| 0 <= i < front.len() implies #[trigger] front[i] != 0x5c by {
            assert(front[i] == name[i]);
        }
        lemma_verbatim_pieces(s, front);
        assert(whole.drop_last() =~= s.push(0x5c) + front);
        assert(whole.last() == name.last());
        assert(name[name.len() - 1] == name.last());
        let before = pieces(s, 0x5c, true).push(front);
        assert(before.drop_last() =~= pieces(s, 0x5c, true));
        assert(front.push(name.last()) =~= name);
    }
}

} // verus!
