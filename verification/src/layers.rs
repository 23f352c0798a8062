//! Which ignore files govern a directory, and in what order.
//!
//! Within one directory every configured source stands in its configured
//! position, and `.okfignore` comes last. An ignore-file *name* is looked for
//! in every directory. An explicit file is applied once, at its own directory
//! or, where the walk never gets there, at the root. A Docker ignore file
//! applies at the root only.

use vstd::prelude::*;

use crate::ignore::{
    self, Flavor, IgnoreMatcher, IgnoreRules, IgnoreSource, RulesView, SourceView, OKFIGNORE,
};
use crate::path::{self, PathBuf, PathView};

verus! {

// ---------------------------------------------------------------------------
// The repository around the root
// ---------------------------------------------------------------------------

/// The first position that holds, if there is one.
pub open spec fn first_true(s: Seq<bool>) -> Option<int>
    decreases s.len(),
{
    if s.len() == 0 {
        None
    } else if s[0] {
        Some(0)
    } else {
        match first_true(s.skip(1)) {
            Some(i) => Some(i + 1),
            None => None,
        }
    }
}

/// Where a repository would show: `.git` in the root and in each directory
/// above it, nearest first.
pub open spec fn repository_marks(root: PathView) -> Seq<PathView> {
    path::ancestors(root).map_values(|dir: PathView| path::child(dir, git_name()))
}

/// The name `.git`.
pub open spec fn git_name() -> Seq<u8> {
    seq![0x2eu8, 0x67u8, 0x69u8, 0x74u8]
}

/// The root's ancestors up to and including the nearest one that contains
/// `.git`, nearest first; `marked` says which of the [`repository_marks`]
/// exist. Empty when the root itself is a repository root or no ancestor is.
pub open spec fn repository_ancestors(root: PathView, marked: Seq<bool>) -> Seq<PathView> {
    match first_true(marked) {
        Some(i) => path::ancestors(root).subrange(1, i + 1),
        None => Seq::empty(),
    }
}

/// Where a repository would show around `abs_root`.
pub fn git_marks(abs_root: &PathBuf) -> (r: Vec<PathBuf>)
    ensures
        path::paths_view(r@) == repository_marks(abs_root@),
{
    let name: [u8; 4] = [0x2e, 0x67, 0x69, 0x74];
    assert(name@ =~= git_name());
    let dirs = abs_root.ancestors();
    let ghost all = path::ancestors(abs_root@);
    let mut out: Vec<PathBuf> = Vec::new();
    for i in 0..dirs.len()
        invariant
            name@ == git_name(),
            all == path::paths_view(dirs@),
            out@.len() == i,
            forall|j: int| 0 <= j < i ==> (#[trigger] out@[j])@ == path::child(all[j], git_name()),
    {
        assert(all[i as int] == dirs@[i as int]@);
        out.push(dirs[i].child(name.as_slice()));
    }
    assert(path::paths_view(out@) =~= repository_marks(abs_root@));
    out
}

proof fn lemma_first_true(s: Seq<bool>, i: int)
    requires
        0 <= i <= s.len(),
        forall|j: int| 0 <= j < i ==> !s[j],
    ensures
        i < s.len() && s[i] ==> first_true(s) == Some(i),
        i == s.len() ==> first_true(s) is None,
    decreases s.len(),
{
    if s.len() > 0 && i > 0 {
        lemma_first_true(s.skip(1), i - 1);
    }
}

/// The bundle root's ancestors up to and including the nearest one that
/// contains `.git`, nearest first; `marked` says which of the [`git_marks`]
/// exist. Empty when the root itself is a repository root or no ancestor is.
pub fn ancestor_dirs(abs_root: &PathBuf, marked: &Vec<bool>) -> (r: Vec<PathBuf>)
    requires
        marked@.len() == repository_marks(abs_root@).len(),
    ensures
        path::paths_view(r@) == repository_ancestors(abs_root@, marked@),
{
    let dirs = abs_root.ancestors();
    let ghost all = path::ancestors(abs_root@);
    let mut out: Vec<PathBuf> = Vec::new();
    let mut i: usize = 0;
    assert(path::paths_view(out@) =~= Seq::empty());
    while i < marked.len()
        invariant
            i <= marked@.len(),
            marked@.len() == all.len(),
            all == path::paths_view(dirs@),
            all == path::ancestors(abs_root@),
            forall|j: int| 0 <= j < i ==> !marked@[j],
            path::paths_view(out@) == all.subrange(
                1,
                if i == 0 {
                    1
                } else {
                    i as int
                },
            ),
        decreases marked@.len() - i,
    {
        assert(all[i as int] == dirs@[i as int]@);
        let ghost before = out@;
        if i > 0 {
            out.push(dirs[i].clone());
            assert(path::paths_view(out@) =~= path::paths_view(before).push(all[i as int]));
            assert(path::paths_view(out@) =~= all.subrange(1, i + 1));
        }
        if marked[i] {
            proof {
                lemma_first_true(marked@, i as int);
            }
            return out;
        }
        i = i + 1;
    }
    proof {
        lemma_first_true(marked@, i as int);
    }
    let none: Vec<PathBuf> = Vec::new();
    assert(path::paths_view(none@) =~= Seq::empty());
    none
}

// ---------------------------------------------------------------------------
// The configured sources, with explicit files read
// ---------------------------------------------------------------------------

/// A configured source that is ready to be applied.
#[derive(Debug, PartialEq, Eq)]
pub enum Layer {
    /// An ignore-file name, as a path seen from every directory.
    Name { name: PathBuf, flavor: Flavor },
    /// The rules of an explicit file, with the directory they are applied at.
    File { anchor: PathBuf, rules: IgnoreRules, flavor: Flavor },
}

/// What a [`Layer`] stands for.
pub enum LayerView {
    Name { name: PathView, flavor: Flavor },
    File { anchor: PathView, rules: RulesView, flavor: Flavor },
}

impl View for Layer {
    type V = LayerView;

    open spec fn view(&self) -> LayerView {
        match self {
            Layer::Name { name, flavor } => LayerView::Name { name: name@, flavor: *flavor },
            Layer::File { anchor, rules, flavor } => LayerView::File {
                anchor: anchor@,
                rules: rules@,
                flavor: *flavor,
            },
        }
    }
}

/// What a list of layers stands for.
pub open spec fn layers_view(layers: Seq<Layer>) -> Seq<LayerView> {
    layers.map_values(|layer: Layer| layer@)
}

/// The paths of the explicit files among the sources, in order.
pub open spec fn explicit_paths(sources: Seq<SourceView>) -> Seq<PathView>
    decreases sources.len(),
{
    if sources.len() == 0 {
        Seq::empty()
    } else {
        match sources[0] {
            SourceView::Name(_) => explicit_paths(sources.skip(1)),
            SourceView::File(p) => seq![p] + explicit_paths(sources.skip(1)),
        }
    }
}

/// An explicit file that was read: where it is, and what it holds.
#[derive(Debug, PartialEq, Eq)]
pub struct RuleText {
    /// The absolute path, with `.` and `..` resolved.
    pub path: PathBuf,
    pub text: String,
}

/// What a [`RuleText`] stands for.
pub struct RuleTextView {
    pub path: PathView,
    pub text: Seq<char>,
}

impl View for RuleText {
    type V = RuleTextView;

    open spec fn view(&self) -> RuleTextView {
        RuleTextView { path: self.path@, text: self.text@ }
    }
}

/// What the outcome of reading a file stands for.
pub open spec fn read_view<E>(read: Result<RuleText, E>) -> Result<RuleTextView, E> {
    match read {
        Ok(file) => Ok(file@),
        Err(e) => Err(e),
    }
}

/// What a list of outcomes stands for.
pub open spec fn reads_view<E>(reads: Seq<Result<RuleText, E>>) -> Seq<Result<RuleTextView, E>> {
    reads.map_values(|read: Result<RuleText, E>| read_view(read))
}

/// The layer of an explicit file. It belongs at the file's own directory, if
/// the walk gets there. If not, it belongs at the root, and so does every
/// Docker file.
pub open spec fn file_layer(
    file: RuleTextView,
    flavor: Flavor,
    root: PathView,
    ancestors: Seq<PathView>,
) -> LayerView {
    let rules = ignore::file_rules(file.path, file.text, flavor);
    LayerView::File {
        anchor: if !(flavor is Docker) && (root.is_prefix_of(rules.base) || ancestors.contains(
            rules.base,
        )) {
            rules.base
        } else {
            root
        },
        rules,
        flavor,
    }
}

/// A list of layers, or the reason why there is none, with one more in front.
pub open spec fn before_layers<E>(
    first: LayerView,
    rest: Result<Seq<LayerView>, E>,
) -> Result<Seq<LayerView>, E> {
    match rest {
        Ok(layers) => Ok(seq![first] + layers),
        Err(e) => Err(e),
    }
}

/// The path that an ignore-file name spells, on a system whose main separator
/// is `main`. A name that ends in a separator, or in one and a `.`, asks for
/// what only a directory can be: the path then ends in a `.`, at which no file
/// is.
pub open spec fn name_path(name: Seq<char>, main: u8) -> PathView {
    let bytes = vstd::utf8::encode_utf8(name);
    if path::ends_open(bytes, main) {
        path::path_of(bytes, main).push(path::Component::CurDir)
    } else {
        path::path_of(bytes, main)
    }
}

/// The layers of the sources, given the outcome of reading each explicit file.
/// The first file that could not be read is an error. Names are cut at the
/// separators of a system whose main one is `main`.
pub open spec fn source_layers<E>(
    sources: Seq<SourceView>,
    reads: Seq<Result<RuleTextView, E>>,
    root: PathView,
    ancestors: Seq<PathView>,
    main: u8,
) -> Result<Seq<LayerView>, E>
    decreases sources.len(),
{
    if sources.len() == 0 {
        Ok(Seq::empty())
    } else {
        let flavor = ignore::source_flavor(sources[0]);
        match sources[0] {
            SourceView::Name(name) => before_layers(
                LayerView::Name { name: name_path(name, main), flavor },
                source_layers(sources.skip(1), reads, root, ancestors, main),
            ),
            SourceView::File(_) => match reads[0] {
                Err(e) => Err(e),
                Ok(file) => before_layers(
                    file_layer(file, flavor, root, ancestors),
                    source_layers(sources.skip(1), reads.skip(1), root, ancestors, main),
                ),
            },
        }
    }
}

/// The paths of the explicit files among the sources, in order.
pub fn explicit_files(sources: &Vec<IgnoreSource>) -> (r: Vec<PathBuf>)
    ensures
        path::paths_view(r@) == explicit_paths(ignore::sources_view(sources@)),
{
    let ghost all = ignore::sources_view(sources@);
    let mut out: Vec<PathBuf> = Vec::new();
    assert(all.skip(0) =~= all);
    assert(path::paths_view(out@) + explicit_paths(all) =~= explicit_paths(all));
    for i in 0..sources.len()
        invariant
            all == ignore::sources_view(sources@),
            path::paths_view(out@) + explicit_paths(all.skip(i as int)) == explicit_paths(all),
    {
        assert(all.skip(i as int)[0] == sources@[i as int]@);
        assert(all.skip(i as int).skip(1) =~= all.skip(i + 1));
        let ghost before = path::paths_view(out@);
        if let IgnoreSource::File(p) = &sources[i] {
            out.push(p.clone());
            assert(path::paths_view(out@) =~= before.push(p@));
            assert(path::paths_view(out@) + explicit_paths(all.skip(i + 1)) =~= before + (seq![p@]
                + explicit_paths(all.skip(i + 1))));
        }
    }
    assert(path::paths_view(out@) + explicit_paths(all.skip(all.len() as int))
        =~= path::paths_view(out@));
    out
}

/// Whether a path is in a list.
pub fn contains_path(paths: &Vec<PathBuf>, p: &PathBuf) -> (r: bool)
    ensures
        r == path::paths_view(paths@).contains(p@),
{
    let ghost all = path::paths_view(paths@);
    for i in 0..paths.len()
        invariant
            all == path::paths_view(paths@),
            forall|j: int| 0 <= j < i ==> all[j] != p@,
    {
        assert(all[i as int] == paths@[i as int]@);
        if paths[i].same_path(p) {
            return true;
        }
    }
    false
}

/// Makes the layer of an explicit file.
fn anchored(
    file: RuleText,
    flavor: Flavor,
    abs_root: &PathBuf,
    ancestors: &Vec<PathBuf>,
) -> (r: Layer)
    ensures
        r@ == file_layer(file@, flavor, abs_root@, path::paths_view(ancestors@)),
{
    let rules = IgnoreRules::of_file(&file.path, file.text.as_str(), flavor);
    let base = rules.base();
    let reached = base.starts_with(abs_root) || contains_path(ancestors, base);
    let anchor = if !matches!(flavor, Flavor::Docker) && reached {
        base.clone()
    } else {
        abs_root.clone()
    };
    Layer::File { anchor, rules, flavor }
}

/// The sources together with their explicit files, read once for the whole
/// walk.
#[derive(Debug, PartialEq, Eq)]
pub struct Layers {
    layers: Vec<Layer>,
}

impl View for Layers {
    type V = Seq<LayerView>;

    closed spec fn view(&self) -> Seq<LayerView> {
        layers_view(self.layers@)
    }
}

impl Layers {
    /// Decides where the layer of each source belongs. `reads` holds the
    /// outcome of reading each of the [`explicit_files`], in order; the first
    /// one that could not be read is an error.
    pub fn read<E>(
        sources: &Vec<IgnoreSource>,
        reads: Vec<Result<RuleText, E>>,
        abs_root: &PathBuf,
        ancestors: &Vec<PathBuf>,
        main: u8,
    ) -> (r: Result<Layers, E>)
        requires
            reads@.len() == explicit_paths(ignore::sources_view(sources@)).len(),
        ensures
            match r {
                Ok(layers) => source_layers(
                    ignore::sources_view(sources@),
                    reads_view(reads@),
                    abs_root@,
                    path::paths_view(ancestors@),
                    main,
                ) == Ok::<Seq<LayerView>, E>(layers@),
                Err(e) => source_layers(
                    ignore::sources_view(sources@),
                    reads_view(reads@),
                    abs_root@,
                    path::paths_view(ancestors@),
                    main,
                ) == Err::<Seq<LayerView>, E>(e),
            },
    {
        let ghost all = ignore::sources_view(sources@);
        let ghost answers = reads_view(reads@);
        let ghost root = abs_root@;
        let ghost up = path::paths_view(ancestors@);
        let mut rest = reads;
        // The layers of the sources from `i` on, last one first.
        let mut back: Vec<Layer> = Vec::new();
        let mut failed: Option<E> = None;
        let mut i: usize = sources.len();
        proof {
            assert(all.skip(i as int) =~= Seq::empty());
            assert(layers_view(back@).reverse() =~= Seq::empty());
            assert(answers.skip(answers.len() as int) =~= Seq::empty());
        }
        while i > 0
            invariant
                i <= sources@.len(),
                all == ignore::sources_view(sources@),
                answers == reads_view(reads@),
                root == abs_root@,
                up == path::paths_view(ancestors@),
                rest@.len() <= answers.len(),
                rest@ == reads@.take(rest@.len() as int),
                answers.len() - rest@.len() == explicit_paths(all.skip(i as int)).len(),
                answers.len() == explicit_paths(all).len(),
                source_layers(
                    all.skip(i as int),
                    answers.skip(rest@.len() as int),
                    root,
                    up,
                    main,
                ) == (match failed {
                    Some(e) => Err::<Seq<LayerView>, E>(e),
                    None => Ok::<Seq<LayerView>, E>(layers_view(back@).reverse()),
                }),
            decreases i,
        {
            let ghost rest_before = rest@;
            let ghost back_before = layers_view(back@);
            let ghost failed_before = failed;
            proof {
                assert(all.skip(i - 1)[0] == sources@[i - 1]@);
                assert(all.skip(i - 1).skip(1) =~= all.skip(i as int));
                lemma_explicit_suffix(all, i - 1);
            }
            i = i - 1;
            let flavor = sources[i].flavor();
            match &sources[i] {
                IgnoreSource::Name(name) => {
                    let layer = Layer::Name {
                        name: PathBuf::from_name(name.as_str(), main),
                        flavor,
                    };
                    let ghost view = layer@;
                    back.push(layer);
                    proof {
                        assert(layers_view(back@) =~= back_before.push(view));
                        assert(layers_view(back@).reverse() =~= seq![view] + back_before.reverse());
                    }
                },
                IgnoreSource::File(_) => {
                    let ghost n = rest@.len();
                    proof {
                        assert(answers.skip(n - 1)[0] == read_view(reads@[n - 1]));
                        assert(answers.skip(n - 1).skip(1) =~= answers.skip(n as int));
                    }
                    match rest.pop() {
                        None => {},
                        Some(read) => {
                            assert(rest@ =~= reads@.take(n - 1));
                            assert(read == reads@[n - 1]);
                            match read {
                                Err(e) => {
                                    failed = Some(e);
                                },
                                Ok(file) => {
                                    let layer = anchored(file, flavor, abs_root, ancestors);
                                    let ghost view = layer@;
                                    back.push(layer);
                                    proof {
                                        assert(layers_view(back@) =~= back_before.push(view));
                                        assert(layers_view(back@).reverse() =~= seq![view]
                                            + back_before.reverse());
                                    }
                                },
                            }
                        },
                    }
                },
            }
        }
        proof {
            assert(all.skip(0) =~= all);
            assert(answers.skip(rest@.len() as int) =~= answers);
        }
        match failed {
            Some(e) => Err(e),
            None => {
                let layers = crate::order::reversed(back);
                assert(layers_view(layers@) =~= crate::order::views(layers@));
                assert(layers_view(back@) =~= crate::order::views(back@));
                Ok(Layers { layers })
            },
        }
    }
}

/// The explicit files of some of the last sources are at most all of them.
proof fn lemma_explicit_suffix(sources: Seq<SourceView>, i: int)
    requires
        0 <= i <= sources.len(),
    ensures
        explicit_paths(sources.skip(i)).len() <= explicit_paths(sources).len(),
    decreases i,
{
    assert(sources.skip(0) =~= sources);
    if i > 0 {
        lemma_explicit_suffix(sources, i - 1);
        assert(sources.skip(i - 1).skip(1) =~= sources.skip(i));
    }
}

// ---------------------------------------------------------------------------
// The layers of one directory
// ---------------------------------------------------------------------------

/// One position in the precedence order of a directory.
pub enum Slot {
    /// A file to look for.
    Probe { path: PathView, flavor: Flavor },
    /// Rules that are already known.
    Rules(RulesView),
}

/// Where the `.okfignore` of `dir` would be.
pub open spec fn okfignore_file(dir: PathView) -> PathView {
    path::join(dir, path::path_of(vstd::utf8::encode_utf8(OKFIGNORE@), 0x2f))
}

/// What a layer contributes in `dir`. A Docker layer contributes at the root
/// only, and an explicit file at its anchor only.
pub open spec fn layer_slot(layer: LayerView, dir: PathView, root: PathView) -> Option<Slot> {
    match layer {
        LayerView::Name { name, flavor } => if flavor is Docker && dir != root {
            None
        } else {
            Some(Slot::Probe { path: path::join(dir, name), flavor })
        },
        LayerView::File { anchor, rules, flavor } => if flavor is Docker && dir != root {
            None
        } else if anchor == dir {
            Some(Slot::Rules(rules))
        } else {
            None
        },
    }
}

/// What the configured layers contribute in `dir`, lowest precedence first.
pub open spec fn layer_slots(layers: Seq<LayerView>, dir: PathView, root: PathView) -> Seq<Slot>
    decreases layers.len(),
{
    if layers.len() == 0 {
        Seq::empty()
    } else {
        let before = layer_slots(layers.drop_last(), dir, root);
        match layer_slot(layers.last(), dir, root) {
            Some(slot) => before.push(slot),
            None => before,
        }
    }
}

/// The precedence order of `dir`: the configured layers, then `.okfignore`.
pub open spec fn dir_slots(layers: Seq<LayerView>, dir: PathView, root: PathView) -> Seq<Slot> {
    layer_slots(layers, dir, root).push(
        Slot::Probe { path: okfignore_file(dir), flavor: Flavor::Gitignore },
    )
}

/// The files to look for.
pub open spec fn probes(slots: Seq<Slot>) -> Seq<PathView>
    decreases slots.len(),
{
    if slots.len() == 0 {
        Seq::empty()
    } else {
        let before = probes(slots.drop_last());
        match slots.last() {
            Slot::Probe { path, .. } => before.push(path),
            Slot::Rules(_) => before,
        }
    }
}

/// What came of looking for an ignore file.
#[derive(Debug, PartialEq, Eq)]
pub enum Found {
    /// There is no file of that name.
    Absent,
    /// There is one, and it cannot be read as text.
    Unreadable,
    /// There is one, with this text.
    Text(String),
}

/// What a [`Found`] stands for.
pub enum FoundView {
    Absent,
    Unreadable,
    Text(Seq<char>),
}

impl View for Found {
    type V = FoundView;

    open spec fn view(&self) -> FoundView {
        match self {
            Found::Absent => FoundView::Absent,
            Found::Unreadable => FoundView::Unreadable,
            Found::Text(text) => FoundView::Text(text@),
        }
    }
}

/// What a list of outcomes stands for.
pub open spec fn found_view(found: Seq<Found>) -> Seq<FoundView> {
    found.map_values(|f: Found| f@)
}

/// The rule sets of the slots, given what came of looking for each file. A
/// file that is absent or unreadable contributes nothing.
pub open spec fn slot_rules(slots: Seq<Slot>, found: Seq<FoundView>) -> Seq<RulesView>
    decreases slots.len(),
{
    if slots.len() == 0 {
        Seq::empty()
    } else {
        match slots.last() {
            Slot::Rules(rules) => slot_rules(slots.drop_last(), found).push(rules),
            Slot::Probe { path, flavor } => {
                let before = slot_rules(slots.drop_last(), found.drop_last());
                match found.last() {
                    FoundView::Text(text) => before.push(ignore::file_rules(path, text, flavor)),
                    _ => before,
                }
            },
        }
    }
}

/// The files that exist among those looked for, readable or not.
pub open spec fn present(paths: Seq<PathView>, found: Seq<FoundView>) -> Seq<PathView>
    decreases paths.len(),
{
    if paths.len() == 0 {
        Seq::empty()
    } else {
        let before = present(paths.drop_last(), found.drop_last());
        match found.last() {
            FoundView::Absent => before,
            _ => before.push(paths.last()),
        }
    }
}

/// Where the `.okfignore` of `dir` would be.
fn okfignore_path(dir: &PathBuf) -> (r: PathBuf)
    ensures
        r@ == okfignore_file(dir@),
{
    dir.join(&PathBuf::from_text(OKFIGNORE))
}

/// Adds the rules of one file that was looked for, if there are any.
fn push_if_present(
    matcher: &mut IgnoreMatcher,
    path: &PathBuf,
    flavor: Flavor,
    found: &Found,
)
    ensures
        match found@ {
            FoundView::Text(text) => final(matcher)@ == old(matcher)@.push(
                ignore::file_rules(path@, text, flavor),
            ),
            _ => final(matcher)@ == old(matcher)@,
        },
{
    if let Found::Text(text) = found {
        matcher.push(IgnoreRules::of_file(path, text.as_str(), flavor));
    }
}

impl Layers {
    /// The ignore files to look for in `abs_dir`, lowest precedence first.
    pub fn rule_files(&self, abs_dir: &PathBuf, abs_root: &PathBuf) -> (r: Vec<PathBuf>)
        ensures
            path::paths_view(r@) == probes(dir_slots(self@, abs_dir@, abs_root@)),
    {
        let ghost all = self@;
        let at_root = abs_dir.same_path(abs_root);
        let mut out: Vec<PathBuf> = Vec::new();
        assert(path::paths_view(out@) =~= Seq::empty());
        for i in 0..self.layers.len()
            invariant
                all == layers_view(self.layers@),
                at_root == (abs_dir@ == abs_root@),
                path::paths_view(out@) == probes(
                    layer_slots(all.take(i as int), abs_dir@, abs_root@),
                ),
        {
            let ghost before = out@;
            assert(all.take(i + 1).drop_last() =~= all.take(i as int));
            assert(all.take(i + 1).last() == self.layers@[i as int]@);
            let ghost slots = layer_slots(all.take(i as int), abs_dir@, abs_root@);
            if let Layer::Name { name, flavor } = &self.layers[i] {
                if at_root || !matches!(flavor, Flavor::Docker) {
                    out.push(abs_dir.join(name));
                    assert(path::paths_view(out@) =~= path::paths_view(before).push(
                        path::join(abs_dir@, name@),
                    ));
                }
            }
            proof {
                if let Some(slot) = layer_slot(all[i as int], abs_dir@, abs_root@) {
                    assert(slots.push(slot).drop_last() =~= slots);
                }
            }
        }
        assert(all.take(all.len() as int) =~= all);
        let ghost before = out@;
        out.push(okfignore_path(abs_dir));
        proof {
            assert(path::paths_view(out@) =~= path::paths_view(before).push(
                okfignore_file(abs_dir@),
            ));
            assert(dir_slots(all, abs_dir@, abs_root@).drop_last() =~= layer_slots(
                all,
                abs_dir@,
                abs_root@,
            ));
        }
        out
    }

    /// Pushes the ignore layers of `abs_dir` in precedence order (every
    /// configured source in its position, then `.okfignore`), given what came
    /// of looking for each of the [`Layers::rule_files`]. Returns how many
    /// layers were pushed, so that the caller can pop them.
    pub fn push_dir_layers(
        &self,
        matcher: &mut IgnoreMatcher,
        abs_dir: &PathBuf,
        abs_root: &PathBuf,
        found: &Vec<Found>,
    ) -> (r: usize)
        requires
            found@.len() == probes(dir_slots(self@, abs_dir@, abs_root@)).len(),
        ensures
            final(matcher)@ == old(matcher)@ + slot_rules(
                dir_slots(self@, abs_dir@, abs_root@),
                found_view(found@),
            ),
            r == slot_rules(dir_slots(self@, abs_dir@, abs_root@), found_view(found@)).len(),
    {
        let ghost all = self@;
        let ghost answers = found_view(found@);
        let ghost start = matcher@;
        let at_root = abs_dir.same_path(abs_root);
        let depth = matcher.depth();
        let files = found.len();
        let mut next: usize = 0;
        proof {
            assert(dir_slots(all, abs_dir@, abs_root@).drop_last() =~= layer_slots(
                all,
                abs_dir@,
                abs_root@,
            ));
            assert(answers.take(0) =~= Seq::empty());
            assert(start + Seq::<RulesView>::empty() =~= start);
            assert(all.take(all.len() as int) =~= all);
        }
        for i in 0..self.layers.len()
            invariant
                all == layers_view(self.layers@),
                answers == found_view(found@),
                at_root == (abs_dir@ == abs_root@),
                found@.len() == probes(layer_slots(all, abs_dir@, abs_root@)).len() + 1,
                next == probes(layer_slots(all.take(i as int), abs_dir@, abs_root@)).len(),
                next < files,
                files == found@.len(),
                matcher@ == start + slot_rules(
                    layer_slots(all.take(i as int), abs_dir@, abs_root@),
                    answers.take(next as int),
                ),
        {
            let ghost slots = layer_slots(all.take(i as int), abs_dir@, abs_root@);
            let ghost rules = slot_rules(slots, answers.take(next as int));
            proof {
                assert(all.take(i + 1).drop_last() =~= all.take(i as int));
                assert(all.take(i + 1).last() == self.layers@[i as int]@);
                if let Some(slot) = layer_slot(all[i as int], abs_dir@, abs_root@) {
                    assert(slots.push(slot).drop_last() =~= slots);
                }
                lemma_probes_prefix(all, i + 1, abs_dir@, abs_root@);
            }
            match &self.layers[i] {
                Layer::Name { name, flavor } => {
                    if at_root || !matches!(flavor, Flavor::Docker) {
                        let file = abs_dir.join(name);
                        assert(answers.take(next + 1).drop_last() =~= answers.take(next as int));
                        assert(answers.take(next + 1).last() == found@[next as int]@);
                        push_if_present(matcher, &file, *flavor, &found[next]);
                        next = next + 1;
                        assert(matcher@ =~= start + slot_rules(
                            layer_slots(all.take(i + 1), abs_dir@, abs_root@),
                            answers.take(next as int),
                        ));
                    }
                },
                Layer::File { anchor, rules: known, flavor } => {
                    if (at_root || !matches!(flavor, Flavor::Docker)) && anchor.same_path(abs_dir) {
                        matcher.push(known.clone());
                        assert(matcher@ =~= start + rules.push(known@));
                    }
                },
            }
        }
        let file = okfignore_path(abs_dir);
        proof {
            assert(answers.take(next as int) =~= answers.drop_last());
            assert(answers.last() == found@[next as int]@);
        }
        push_if_present(matcher, &file, Flavor::Gitignore, &found[next]);
        assert(matcher@ =~= start + slot_rules(dir_slots(all, abs_dir@, abs_root@), answers));
        matcher.depth() - depth
    }
}

/// Fewer layers look for at most as many files.
proof fn lemma_probes_prefix(layers: Seq<LayerView>, n: int, dir: PathView, root: PathView)
    requires
        0 <= n <= layers.len(),
    ensures
        probes(layer_slots(layers.take(n), dir, root)).len() <= probes(
            layer_slots(layers, dir, root),
        ).len(),
    decreases layers.len(),
{
    if n == layers.len() {
        assert(layers.take(n) =~= layers);
    } else {
        lemma_probes_prefix(layers.drop_last(), n, dir, root);
        assert(layers.drop_last().take(n) =~= layers.take(n));
        let before = layer_slots(layers.drop_last(), dir, root);
        if let Some(slot) = layer_slot(layers.last(), dir, root) {
            assert(before.push(slot).drop_last() =~= before);
        }
    }
}

/// The files that exist among those looked for, readable or not.
pub fn present_files(paths: Vec<PathBuf>, found: &Vec<Found>) -> (r: Vec<PathBuf>)
    requires
        paths@.len() == found@.len(),
    ensures
        path::paths_view(r@) == present(path::paths_view(paths@), found_view(found@)),
{
    let ghost all = path::paths_view(paths@);
    let ghost answers = found_view(found@);
    let mut out: Vec<PathBuf> = Vec::new();
    assert(path::paths_view(out@) =~= Seq::empty());
    for i in 0..paths.len()
        invariant
            all == path::paths_view(paths@),
            answers == found_view(found@),
            paths@.len() == found@.len(),
            path::paths_view(out@) == present(all.take(i as int), answers.take(i as int)),
    {
        let ghost before = out@;
        proof {
            assert(all.take(i + 1).drop_last() =~= all.take(i as int));
            assert(all.take(i + 1).last() == paths@[i as int]@);
            assert(answers.take(i + 1).drop_last() =~= answers.take(i as int));
            assert(answers.take(i + 1).last() == found@[i as int]@);
        }
        if !matches!(&found[i], Found::Absent) {
            out.push(paths[i].clone());
            assert(path::paths_view(out@) =~= path::paths_view(before).push(all[i as int]));
        }
    }
    assert(all.take(all.len() as int) =~= all);
    assert(answers.take(answers.len() as int) =~= answers);
    out
}

// ---------------------------------------------------------------------------
// Laws
// ---------------------------------------------------------------------------

/// The repository ancestors are the directories right above the root, nearest
/// first, as far as the nearest one that is marked. There are none where the
/// root itself is marked, or nothing is.
pub proof fn law_repository_ancestors(root: PathView, marked: Seq<bool>)
    requires
        marked.len() == repository_marks(root).len(),
    ensures
        ({
            let above = repository_ancestors(root, marked);
            &&& above.len() < marked.len()
            &&& forall|i: int|
                0 <= i < above.len() ==> #[trigger] above[i] == root.take(root.len() - 1 - i)
            &&& above.len() > 0 ==> marked[above.len() as int] && forall|i: int|
                0 <= i < above.len() ==> !marked[i]
            &&& above.len() == 0 ==> marked[0] || forall|i: int|
                0 <= i < marked.len() ==> !marked[i]
        }),
{
    path::law_ancestors(root);
    lemma_first_true_is_first(marked);
    let all = path::ancestors(root);
    let above = repository_ancestors(root, marked);
    if let Some(n) = first_true(marked) {
        assert forall|i: int| 0 <= i < above.len() implies #[trigger] above[i] == root.take(
            root.len() - 1 - i,
        ) by {
            assert(above[i] == all[i + 1]);
        }
    }
}

proof fn lemma_first_true_is_first(s: Seq<bool>)
    ensures
        match first_true(s) {
            Some(n) => 0 <= n < s.len() && s[n] && forall|i: int| 0 <= i < n ==> !s[i],
            None => forall|i: int| 0 <= i < s.len() ==> !s[i],
        },
    decreases s.len(),
{
    if s.len() > 0 && !s[0] {
        let rest = s.skip(1);
        lemma_first_true_is_first(rest);
        match first_true(rest) {
            Some(n) => {
                assert forall|i: int| 0 <= i < n + 1 implies !s[i] by {
                    if i > 0 {
                        assert(rest[i - 1] == s[i]);
                    }
                }
            },
            None => {
                assert forall|i: int| 0 <= i < s.len() implies !s[i] by {
                    if i > 0 {
                        assert(rest[i - 1] == s[i]);
                    }
                }
            },
        }
    }
}

/// The sources stand in a directory in the order in which they are configured.
pub proof fn law_sources_in_order(
    earlier: Seq<LayerView>,
    later: Seq<LayerView>,
    dir: PathView,
    root: PathView,
)
    ensures
        layer_slots(earlier + later, dir, root) == layer_slots(earlier, dir, root) + layer_slots(
            later,
            dir,
            root,
        ),
    decreases later.len(),
{
    let before = layer_slots(earlier, dir, root);
    if later.len() == 0 {
        assert(earlier + later =~= earlier);
        assert(before + layer_slots(later, dir, root) =~= before);
    } else {
        law_sources_in_order(earlier, later.drop_last(), dir, root);
        assert((earlier + later).drop_last() =~= earlier + later.drop_last());
        assert((earlier + later).last() == later.last());
        assert(layer_slots(earlier + later, dir, root) =~= before + layer_slots(later, dir, root));
    }
}

/// A Docker ignore file, named or explicit, counts at the root only.
pub proof fn law_docker_at_root_only(layer: LayerView, dir: PathView, root: PathView)
    requires
        match layer {
            LayerView::Name { flavor, .. } => flavor is Docker,
            LayerView::File { flavor, .. } => flavor is Docker,
        },
        dir != root,
    ensures
        layer_slot(layer, dir, root) is None,
{
}

/// An explicit file counts in one directory and in no other: its own, if that
/// lies in the root or is one of the given ancestors and the file is no Docker
/// file, and else the root.
pub proof fn law_explicit_file_once(
    file: RuleTextView,
    flavor: Flavor,
    root: PathView,
    ancestors: Seq<PathView>,
    dir: PathView,
)
    ensures
        ({
            let rules = ignore::file_rules(file.path, file.text, flavor);
            let own = !(flavor is Docker) && (root.is_prefix_of(rules.base) || ancestors.contains(
                rules.base,
            ));
            layer_slot(file_layer(file, flavor, root, ancestors), dir, root) == if (own && dir
                == rules.base) || (!own && dir == root) {
                Some(Slot::Rules(rules))
            } else {
                None
            }
        }),
{
}

/// An ignore file that is absent or cannot be read adds no rules: the others
/// stand as if it had not been looked for.
pub proof fn law_missing_file_is_silent(
    before: Seq<Slot>,
    after: Seq<Slot>,
    found_before: Seq<FoundView>,
    found_after: Seq<FoundView>,
    path: PathView,
    flavor: Flavor,
    missing: FoundView,
)
    requires
        found_before.len() == probes(before).len(),
        found_after.len() == probes(after).len(),
        !(missing is Text),
    ensures
        slot_rules(
            before.push(Slot::Probe { path, flavor }) + after,
            found_before.push(missing) + found_after,
        ) == slot_rules(before + after, found_before + found_after),
    decreases after.len(),
{
    let slots = before.push(Slot::Probe { path, flavor }) + after;
    let found = found_before.push(missing) + found_after;
    if after.len() == 0 {
        assert(slots.drop_last() =~= before);
        assert(found.drop_last() =~= found_before);
        assert(before + after =~= before);
        assert(found_before + found_after =~= found_before);
    } else {
        let front = after.drop_last();
        assert(slots.drop_last() =~= before.push(Slot::Probe { path, flavor }) + front);
        assert((before + after).drop_last() =~= before + front);
        assert(slots.last() == after.last() && (before + after).last() == after.last());
        match after.last() {
            Slot::Probe { .. } => {
                assert(found.drop_last() =~= found_before.push(missing) + found_after.drop_last());
                assert((found_before + found_after).drop_last() =~= found_before
                    + found_after.drop_last());
                assert(found.last() == found_after.last());
                law_missing_file_is_silent(
                    before,
                    front,
                    found_before,
                    found_after.drop_last(),
                    path,
                    flavor,
                    missing,
                );
            },
            Slot::Rules(_) => {
                law_missing_file_is_silent(
                    before,
                    front,
                    found_before,
                    found_after,
                    path,
                    flavor,
                    missing,
                );
            },
        }
    }
}

/// The `.okfignore` of a directory has the last word among the ignore files
/// of the directory and of those above it.
pub proof fn law_okfignore_has_last_word(
    layers: Seq<LayerView>,
    dir: PathView,
    root: PathView,
    rules: Seq<RulesView>,
    found: Seq<FoundView>,
    text: Seq<char>,
    p: PathView,
    is_dir: bool,
)
    requires
        found.len() == probes(dir_slots(layers, dir, root)).len(),
        found.last() == FoundView::Text(text),
    ensures
        ({
            let last = ignore::file_rules(okfignore_file(dir), text, Flavor::Gitignore);
            let verdict = ignore::rules_verdict(last, p, is_dir);
            verdict is Some ==> ignore::direct_verdict(
                rules + slot_rules(dir_slots(layers, dir, root), found),
                p,
                is_dir,
            ) == verdict
        }),
{
    let last = ignore::file_rules(okfignore_file(dir), text, Flavor::Gitignore);
    let all = rules + slot_rules(dir_slots(layers, dir, root), found);
    assert(all.last() == last);
}

/// Whether the outcome at `i` is the first failure.
pub open spec fn first_failure<E>(reads: Seq<Result<RuleTextView, E>>, i: int) -> bool {
    &&& 0 <= i < reads.len()
    &&& reads[i] is Err
    &&& forall|j: int| 0 <= j < i ==> (#[trigger] reads[j]) is Ok
}

/// An explicit file that cannot be read is an error, and the first of them is
/// the one reported. If all can be read, every source has its layer, in its
/// configured position. A name is never an error.
pub proof fn law_explicit_files_must_be_read<E>(
    sources: Seq<SourceView>,
    reads: Seq<Result<RuleTextView, E>>,
    root: PathView,
    ancestors: Seq<PathView>,
    main: u8,
)
    requires
        reads.len() == explicit_paths(sources).len(),
    ensures
        match source_layers(sources, reads, root, ancestors, main) {
            Err(e) => exists|i: int| #[trigger] first_failure(reads, i) && reads[i]->Err_0 == e,
            Ok(layers) => {
                &&& forall|i: int| 0 <= i < reads.len() ==> (#[trigger] reads[i]) is Ok
                &&& layers.len() == sources.len()
                &&& forall|i: int|
                    0 <= i < layers.len() ==> match #[trigger] layers[i] {
                        LayerView::Name { name, flavor } => (sources[i] matches SourceView::Name(text)
                            && name == name_path(text, main)) && flavor == ignore::source_flavor(
                            sources[i],
                        ),
                        LayerView::File { flavor, .. } => sources[i] is File && flavor
                            == ignore::source_flavor(sources[i]),
                    }
            },
        },
    decreases sources.len(),
{
    if sources.len() > 0 {
        let rest = sources.skip(1);
        let is_file = sources[0] is File;
        let later = if is_file {
            reads.skip(1)
        } else {
            reads
        };
        if !(is_file && reads[0] is Err) {
            law_explicit_files_must_be_read(rest, later, root, ancestors, main);
            match source_layers(rest, later, root, ancestors, main) {
                Err(e) => {
                    let k = choose|k: int|
                        #[trigger] first_failure(later, k) && later[k]->Err_0 == e;
                    if is_file {
                        assert forall|j: int| 0 <= j < k + 1 implies (#[trigger] reads[j]) is Ok by {
                            if j > 0 {
                                assert(later[j - 1] == reads[j]);
                            }
                        }
                        assert(later[k] == reads[k + 1]);
                        assert(first_failure(reads, k + 1));
                    }
                },
                Ok(inner) => {
                    let layers = source_layers(sources, reads, root, ancestors, main)->Ok_0;
                    if is_file {
                        assert forall|j: int| 0 <= j < reads.len() implies (
                        #[trigger] reads[j]) is Ok by {
                            if j > 0 {
                                assert(later[j - 1] == reads[j]);
                            }
                        }
                    }
                    assert forall|i: int| 0 <= i < layers.len() implies match #[trigger] layers[i] {
                        LayerView::Name { name, flavor } => (sources[i] matches SourceView::Name(text)
                            && name == name_path(text, main)) && flavor == ignore::source_flavor(
                            sources[i],
                        ),
                        LayerView::File { flavor, .. } => sources[i] is File && flavor
                            == ignore::source_flavor(sources[i]),
                    } by {
                        if i > 0 {
                            assert(layers[i] == inner[i - 1]);
                            assert(rest[i - 1] == sources[i]);
                        }
                    }
                },
            }
        } else {
            assert(first_failure(reads, 0));
        }
    }
}

/// A repository is looked for at the root and each directory above it, nearest
/// first, up to the root of the file system: at `.git` in that directory.
pub proof fn law_repository_marks(root: PathView)
    ensures
        ({
            let marks = repository_marks(root);
            &&& 0 < marks.len() <= root.len() + 1
            &&& forall|i: int|
                0 <= i < marks.len() ==> #[trigger] marks[i] == root.take(root.len() - i).push(
                    path::Component::Normal(seq![0x2eu8, 0x67u8, 0x69u8, 0x74u8]),
                )
            &&& forall|i: int|
                root.len() - marks.len() < i < root.len() ==> !((#[trigger] root[i]) is Prefix)
                    && !(root[i] is RootDir)
            &&& marks.len() <= root.len() ==> root[root.len() - marks.len()] is Prefix
                || root[root.len() - marks.len()] is RootDir
        }),
{
    let marks = repository_marks(root);
    let all = path::ancestors(root);
    let n = root.len() as int;
    path::law_ancestors(root);
    assert forall|i: int| n - marks.len() < i < n implies !((#[trigger] root[i]) is Prefix) && !(
    root[i] is RootDir) by {
        let k = n - 1 - i;
        assert(path::parent(all[k]) is Some);
        assert(all[k] == root.take(n - k));
        assert(root.take(n - k).last() == root[i]);
    }
    if marks.len() <= n {
        let last = root.take(n - (marks.len() - 1));
        assert(all[marks.len() - 1] == last);
        assert(all.last() == last);
        assert(last.last() == root[n - marks.len()]);
    }
}

proof fn lemma_slots_joined(
    a: Seq<Slot>,
    b: Seq<Slot>,
    found_a: Seq<FoundView>,
    found_b: Seq<FoundView>,
)
    requires
        found_a.len() == probes(a).len(),
        found_b.len() == probes(b).len(),
    ensures
        probes(a + b) == probes(a) + probes(b),
        slot_rules(a + b, found_a + found_b) == slot_rules(a, found_a) + slot_rules(b, found_b),
    decreases b.len(),
{
    if b.len() == 0 {
        assert(a + b =~= a);
        assert(found_a + found_b =~= found_a);
        assert(probes(a) + probes(b) =~= probes(a));
        assert(slot_rules(a, found_a) + slot_rules(b, found_b) =~= slot_rules(a, found_a));
    } else {
        let front = b.drop_last();
        assert((a + b).drop_last() =~= a + front);
        assert((a + b).last() == b.last());
        match b.last() {
            Slot::Probe { path, flavor } => {
                let earlier = found_b.drop_last();
                lemma_slots_joined(a, front, found_a, earlier);
                assert((found_a + found_b).drop_last() =~= found_a + earlier);
                assert((found_a + found_b).last() == found_b.last());
                assert(probes(a + b) =~= probes(a) + probes(b));
                assert(slot_rules(a + b, found_a + found_b) =~= slot_rules(a, found_a) + slot_rules(
                    b,
                    found_b,
                ));
            },
            Slot::Rules(rules) => {
                lemma_slots_joined(a, front, found_a, found_b);
                assert(probes(a + b) =~= probes(a) + probes(b));
                assert(slot_rules(a + b, found_a + found_b) =~= slot_rules(a, found_a) + slot_rules(
                    b,
                    found_b,
                ));
            },
        }
    }
}

proof fn lemma_first_slot(
    layer: LayerView,
    rest: Seq<LayerView>,
    dir: PathView,
    root: PathView,
    first: Seq<FoundView>,
    found: Seq<FoundView>,
)
    requires
        ({
            let own = match layer_slot(layer, dir, root) {
                Some(slot) => seq![slot],
                None => Seq::empty(),
            };
            first.len() == probes(own).len()
        }),
        found.len() == probes(dir_slots(rest, dir, root)).len(),
    ensures
        ({
            let own = match layer_slot(layer, dir, root) {
                Some(slot) => seq![slot],
                None => Seq::empty(),
            };
            let slots = dir_slots(seq![layer] + rest, dir, root);
            &&& probes(slots) == probes(own) + probes(dir_slots(rest, dir, root))
            &&& slot_rules(slots, first + found) == slot_rules(own, first) + slot_rules(
                dir_slots(rest, dir, root),
                found,
            )
        }),
{
    let own = match layer_slot(layer, dir, root) {
        Some(slot) => seq![slot],
        None => Seq::empty(),
    };
    law_sources_in_order(seq![layer], rest, dir, root);
    reveal_with_fuel(layer_slots, 2);
    assert(seq![layer].drop_last() =~= Seq::empty());
    assert(layer_slots(seq![layer], dir, root) =~= own);
    assert(dir_slots(seq![layer] + rest, dir, root) =~= own + dir_slots(rest, dir, root));
    lemma_slots_joined(own, dir_slots(rest, dir, root), first, found);
}

/// A configured ignore-file name comes first among what is looked for in a
/// directory, at the name joined to the directory, however deep that lies. What
/// text is found there gives the first rules. The Docker dialect is for the root
/// alone: in any other directory such a name is as good as not configured.
pub proof fn law_named_file(
    name: PathView,
    flavor: Flavor,
    rest: Seq<LayerView>,
    dir: PathView,
    root: PathView,
    first: FoundView,
    found: Seq<FoundView>,
)
    requires
        found.len() == probes(dir_slots(rest, dir, root)).len(),
    ensures
        ({
            let slots = dir_slots(seq![LayerView::Name { name, flavor }] + rest, dir, root);
            let later = dir_slots(rest, dir, root);
            if flavor is Gitignore || dir == root {
                &&& probes(slots) == seq![path::join(dir, name)] + probes(later)
                &&& slot_rules(slots, seq![first] + found) == (match first {
                    FoundView::Text(text) => seq![
                        ignore::file_rules(path::join(dir, name), text, flavor),
                    ],
                    _ => Seq::empty(),
                }) + slot_rules(later, found)
            } else {
                &&& probes(slots) == probes(later)
                &&& slot_rules(slots, found) == slot_rules(later, found)
            }
        }),
{
    let layer = LayerView::Name { name, flavor };
    reveal_with_fuel(probes, 2);
    reveal_with_fuel(slot_rules, 2);
    let later = dir_slots(rest, dir, root);
    if flavor is Gitignore || dir == root {
        let slot = Slot::Probe { path: path::join(dir, name), flavor };
        assert(layer_slot(layer, dir, root) == Some(slot));
        assert(seq![slot].drop_last() =~= Seq::empty());
        assert(probes(seq![slot]) =~= seq![path::join(dir, name)]);
        assert(slot_rules(seq![slot], seq![first]) =~= match first {
            FoundView::Text(text) => seq![ignore::file_rules(path::join(dir, name), text, flavor)],
            _ => Seq::empty(),
        });
        lemma_first_slot(layer, rest, dir, root, seq![first], found);
    } else {
        lemma_first_slot(layer, rest, dir, root, Seq::empty(), found);
        assert(Seq::<FoundView>::empty() + found =~= found);
        assert(Seq::<PathView>::empty() + probes(later) =~= probes(later));
        assert(Seq::<RulesView>::empty() + slot_rules(later, found) =~= slot_rules(later, found));
    }
}

/// An explicit file adds nothing to what is looked for. Its rules come first in
/// the directory that it is anchored at, and nowhere else.
pub proof fn law_anchored_file(
    anchor: PathView,
    rules: RulesView,
    flavor: Flavor,
    rest: Seq<LayerView>,
    dir: PathView,
    root: PathView,
    found: Seq<FoundView>,
)
    requires
        found.len() == probes(dir_slots(rest, dir, root)).len(),
    ensures
        ({
            let slots = dir_slots(seq![LayerView::File { anchor, rules, flavor }] + rest, dir, root);
            let later = dir_slots(rest, dir, root);
            &&& probes(slots) == probes(later)
            &&& slot_rules(slots, found) == (if anchor == dir && (flavor is Gitignore || dir
                == root) {
                seq![rules]
            } else {
                Seq::empty()
            }) + slot_rules(later, found)
        }),
{
    let layer = LayerView::File { anchor, rules, flavor };
    let later = dir_slots(rest, dir, root);
    let none = Seq::<FoundView>::empty();
    reveal_with_fuel(probes, 2);
    reveal_with_fuel(slot_rules, 2);
    assert(seq![Slot::Rules(rules)].drop_last() =~= Seq::empty());
    assert(probes(seq![Slot::Rules(rules)]) =~= Seq::empty());
    assert(slot_rules(seq![Slot::Rules(rules)], none) =~= seq![rules]);
    lemma_first_slot(layer, rest, dir, root, none, found);
    assert(none + found =~= found);
    assert(Seq::<PathView>::empty() + probes(later) =~= probes(later));
}

/// The bytes of `.okfignore`.
spec fn okfignore_bytes() -> Seq<u8> {
    seq![0x2eu8, 0x6fu8, 0x6bu8, 0x66u8, 0x69u8, 0x67u8, 0x6eu8, 0x6fu8, 0x72u8, 0x65u8]
}

proof fn lemma_okfignore_file(dir: PathView)
    ensures
        okfignore_file(dir) == dir.push(path::Component::Normal(okfignore_bytes())),
{
    let bytes = okfignore_bytes();
    reveal_strlit(".okfignore");
    let text = OKFIGNORE@;
    assert(vstd::utf8::is_ascii_chars(text));
    vstd::utf8::is_ascii_chars_encode_utf8(text);
    assert(vstd::utf8::encode_utf8(text) =~= bytes);
    path::law_first_name(0x2f, bytes, 0x2f);
    assert(bytes.len() == 10);
    assert(seq![0x2eu8].len() == 1);
    assert(seq![0x2eu8, 0x2eu8].len() == 2);
    path::law_file_name(dir, path::Component::CurDir, bytes);
}

/// With no sources configured, the one file that is looked for in a directory is
/// the `.okfignore` in it, and its rules are relative to that directory.
pub proof fn law_okfignore_alone(dir: PathView, root: PathView, first: FoundView)
    ensures
        probes(dir_slots(Seq::empty(), dir, root)) == seq![
            dir.push(
                path::Component::Normal(
                    seq![
                        0x2eu8,
                        0x6fu8,
                        0x6bu8,
                        0x66u8,
                        0x69u8,
                        0x67u8,
                        0x6eu8,
                        0x6fu8,
                        0x72u8,
                        0x65u8,
                    ],
                ),
            ),
        ],
        slot_rules(dir_slots(Seq::empty(), dir, root), seq![first]) == match first {
            FoundView::Text(text) => seq![ignore::rules_of(text, dir, Flavor::Gitignore)],
            _ => Seq::empty(),
        },
{
    let slots = dir_slots(Seq::empty(), dir, root);
    let slot = Slot::Probe { path: okfignore_file(dir), flavor: Flavor::Gitignore };
    reveal_with_fuel(probes, 2);
    reveal_with_fuel(slot_rules, 2);
    lemma_okfignore_file(dir);
    assert(slots =~= seq![slot]);
    assert(slots.drop_last() =~= Seq::empty());
    assert(probes(slots) =~= seq![okfignore_file(dir)]);
    if let FoundView::Text(text) = first {
        ignore::law_file_rules(dir, okfignore_bytes(), text, Flavor::Gitignore);
        assert(slot_rules(slots, seq![first]) =~= seq![
            ignore::rules_of(text, dir, Flavor::Gitignore),
        ]);
    } else {
        assert(slot_rules(slots, seq![first]) =~= Seq::empty());
    }
}

/// Each source is one layer, in the order that the sources are given. A name is
/// looked for as it is; the next of the files that were read is that of the next
/// source that is a file, and the first that could not be read ends it.
pub proof fn law_first_source<E>(
    source: SourceView,
    rest: Seq<SourceView>,
    read: Result<RuleTextView, E>,
    reads: Seq<Result<RuleTextView, E>>,
    root: PathView,
    ancestors: Seq<PathView>,
    main: u8,
)
    ensures
        explicit_paths(seq![source] + rest) == match source {
            SourceView::Name(_) => explicit_paths(rest),
            SourceView::File(p) => seq![p] + explicit_paths(rest),
        },
        explicit_paths(Seq::empty()) == Seq::<PathView>::empty(),
        source_layers::<E>(Seq::empty(), reads, root, ancestors, main) == Ok::<Seq<LayerView>, E>(
            Seq::empty(),
        ),
        ({
            let flavor = ignore::source_flavor(source);
            match source {
                SourceView::Name(name) => source_layers(
                    seq![source] + rest,
                    reads,
                    root,
                    ancestors,
                    main,
                ) == match source_layers(rest, reads, root, ancestors, main) {
                    Ok(later) => Ok(
                        seq![LayerView::Name { name: name_path(name, main), flavor }] + later,
                    ),
                    Err(e) => Err(e),
                },
                SourceView::File(_) => source_layers(
                    seq![source] + rest,
                    seq![read] + reads,
                    root,
                    ancestors,
                    main,
                ) == match (read, source_layers(rest, reads, root, ancestors, main)) {
                    (Err(e), _) => Err(e),
                    (Ok(_), Err(e)) => Err(e),
                    (Ok(file), Ok(later)) => Ok(
                        seq![file_layer(file, flavor, root, ancestors)] + later,
                    ),
                },
            }
        }),
{
    let sources = seq![source] + rest;
    assert(sources.skip(1) =~= rest);
    assert((seq![read] + reads).skip(1) =~= reads);
}

/// The rules of an explicit file are relative to the directory that it is in.
/// They are applied there if that is the root, a directory below it or one of the
/// ancestors, and at the root otherwise; those of the Docker dialect always at
/// the root.
pub proof fn law_file_anchor(
    dir: PathView,
    name: Seq<u8>,
    text: Seq<char>,
    flavor: Flavor,
    root: PathView,
    ancestors: Seq<PathView>,
)
    ensures
        file_layer(
            RuleTextView { path: dir.push(path::Component::Normal(name)), text },
            flavor,
            root,
            ancestors,
        ) == (LayerView::File {
            anchor: if flavor is Gitignore && ((root.len() <= dir.len() && dir.take(
                root.len() as int,
            ) == root) || ancestors.contains(dir)) {
                dir
            } else {
                root
            },
            rules: ignore::rules_of(text, dir, flavor),
            flavor,
        }),
{
    ignore::law_file_rules(dir, name, text, flavor);
    assert(root.is_prefix_of(dir) <==> root.len() <= dir.len() && dir.take(root.len() as int)
        == root) by {
        if root.is_prefix_of(dir) {
            assert(dir.take(root.len() as int) =~= root);
        }
        if root.len() <= dir.len() && dir.take(root.len() as int) == root {
            assert(root.is_prefix_of(dir));
        }
    }
}

/// A file that is looked for is present unless nothing is there: one that cannot
/// be read is present too. The files that are present stay in order.
pub proof fn law_present(
    paths: Seq<PathView>,
    found: Seq<FoundView>,
    path: PathView,
    text: Seq<char>,
)
    ensures
        present(Seq::empty(), found) == Seq::<PathView>::empty(),
        present(paths.push(path), found.push(FoundView::Absent)) == present(paths, found),
        present(paths.push(path), found.push(FoundView::Unreadable)) == present(paths, found).push(
            path,
        ),
        present(paths.push(path), found.push(FoundView::Text(text))) == present(paths, found).push(
            path,
        ),
{
    assert(paths.push(path).drop_last() =~= paths);
    assert(found.push(FoundView::Absent).drop_last() =~= found);
    assert(found.push(FoundView::Unreadable).drop_last() =~= found);
    assert(found.push(FoundView::Text(text)).drop_last() =~= found);
}

/// A plain ignore-file name is looked for under that name in each directory.
pub proof fn law_plain_file_name(name: Seq<char>, dir: PathView, main: u8)
    requires
        name.len() > 0,
        main < 0x80,
        !name.contains('/'),
        !name.contains(main as char),
        main == 0x5c ==> !name.contains(':'),
        name != seq!['.'],
        name != seq!['.', '.'],
    ensures
        path::join(dir, name_path(name, main)) == dir.push(
            path::Component::Normal(vstd::utf8::encode_utf8(name)),
        ),
{
    let bytes = vstd::utf8::encode_utf8(name);
    path::lemma_no_ascii_byte(name, 0x2f);
    path::lemma_no_ascii_byte(name, main);
    path::lemma_no_ascii_byte(name, 0x3a);
    vstd::utf8::encode_utf8_decode_utf8(name);
    assert forall|i: int| 0 <= i < bytes.len() implies #[trigger] bytes[i] != 0x2f && bytes[i]
        != main by {
        assert(bytes.contains(bytes[i]));
    }
    if main == 0x5c && bytes.len() >= 2 {
        assert(bytes.contains(bytes[1]));
    }
    lemma_dot_bytes(name);
    path::law_first_name(0x2f, bytes, main);
    assert(!path::ends_open(bytes, main));
    path::law_file_name(dir, path::Component::CurDir, bytes);
}

proof fn lemma_dot_bytes(name: Seq<char>)
    ensures
        vstd::utf8::encode_utf8(name) == Seq::<u8>::empty() ==> name == Seq::<char>::empty(),
        vstd::utf8::encode_utf8(name) == seq![0x2eu8] ==> name == seq!['.'],
        vstd::utf8::encode_utf8(name) == seq![0x2eu8, 0x2eu8] ==> name == seq!['.', '.'],
{
    vstd::utf8::encode_utf8_decode_utf8(name);
    let none = Seq::<char>::empty();
    let one = seq!['.'];
    let two = seq!['.', '.'];
    assert(vstd::utf8::is_ascii_chars(none));
    assert(vstd::utf8::is_ascii_chars(one));
    assert(vstd::utf8::is_ascii_chars(two));
    vstd::utf8::is_ascii_chars_encode_utf8(none);
    vstd::utf8::is_ascii_chars_encode_utf8(one);
    vstd::utf8::is_ascii_chars_encode_utf8(two);
    vstd::utf8::encode_utf8_decode_utf8(none);
    vstd::utf8::encode_utf8_decode_utf8(one);
    vstd::utf8::encode_utf8_decode_utf8(two);
    assert(vstd::utf8::encode_utf8(none) =~= Seq::<u8>::empty());
    assert(vstd::utf8::encode_utf8(one) =~= seq![0x2eu8]);
    assert(vstd::utf8::encode_utf8(two) =~= seq![0x2eu8, 0x2eu8]);
}

/// An ignore-file name that ends in a separator, or in a `.` behind one, is looked
/// for as the path it spells with a `.` behind it; any other as the path that it
/// spells.
pub proof fn law_open_file_name(name: Seq<char>, main: u8)
    ensures
        ({
            let bytes = vstd::utf8::encode_utf8(name);
            let n = bytes.len();
            let p = path::path_of(bytes, main);
            name_path(name, main) == if n >= 1 && (bytes[n - 1] == 0x2f || bytes[n - 1] == main) {
                p.push(path::Component::CurDir)
            } else if n >= 2 && bytes[n - 1] == 0x2e && (bytes[n - 2] == 0x2f || bytes[n - 2]
                == main) {
                p.push(path::Component::CurDir)
            } else {
                p
            }
        }),
{
}

} // verus!
