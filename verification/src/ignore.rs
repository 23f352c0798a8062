//! Ignore files (`.okfignore`, `.gitignore`, ...) and what they leave out.
//!
//! A bundle often lives inside a larger repository, next to drafts, vendored
//! trees, and build output that will never be published. Ignore files name
//! what to leave out, in the gitignore pattern grammar:
//!
//! - blank lines and `#` comments are skipped; `\#` is a literal `#`;
//! - a leading `!` negates; `\!` is a literal `!`;
//! - a trailing `/` matches directories only;
//! - a pattern containing `/` is *anchored* to the ignore file's directory;
//!   one without matches the last path component at any depth;
//! - `*`, `?`, `[...]` (with ranges and `!`/`^` negation), `\` escapes, and
//!   the three `**` forms;
//! - case-sensitive everywhere; later patterns override earlier ones.
//!
//! [`IgnoreRules`] is one parsed file. [`IgnoreMatcher`] is a precedence-
//! ordered stack of them. [`IgnoreConfig`] names the extra ignore files a
//! caller wants honoured on top of the always-on `.okfignore`.

use vstd::prelude::*;
use vstd::slice::slice_subrange;

use crate::glob::{self, TokView};
use crate::path::{self, begins_with, Component, PathBuf, PathView};
use crate::pattern::{self, Pattern, PatternView, SegmentView};
use crate::text::{self, chars_of, contains_char, same_text, split_text, without_cr};

pub use crate::pattern::Flavor;

verus! {

/// The bundle-native ignore file, honoured by every walk.
pub const OKFIGNORE: &'static str = ".okfignore";

/// The Docker ignore file, read with [`Flavor::Docker`] semantics.
pub const DOCKERIGNORE: &'static str = ".dockerignore";

/// What every bundle walk ignores before any ignore file is consulted.
///
/// Hidden directories (which covers `.git`, `.hg`, `.svn`), `target`, and
/// `node_modules`, at any depth. The rules sit at the lowest precedence, so a
/// `!` pattern in any ignore file re-includes a directory (for example
/// `!.notes/`). Hidden *files* are not matched.
pub const DEFAULT_IGNORE_PATTERNS: &'static str = ".*/\ntarget/\nnode_modules/\n";

// ---------------------------------------------------------------------------
// One ignore file
// ---------------------------------------------------------------------------

/// One parsed ignore file, with the directory its rules are relative to.
#[derive(Debug, PartialEq, Eq)]
pub struct IgnoreRules {
    base: PathBuf,
    patterns: Vec<Pattern>,
}

/// What an [`IgnoreRules`] stands for.
pub struct RulesView {
    pub base: PathView,
    pub patterns: Seq<PatternView>,
}

/// What a list of patterns stands for.
pub open spec fn patterns_view(patterns: Seq<Pattern>) -> Seq<PatternView> {
    patterns.map_values(|pattern: Pattern| pattern@)
}

impl View for IgnoreRules {
    type V = RulesView;

    closed spec fn view(&self) -> RulesView {
        RulesView { base: self.base@, patterns: patterns_view(self.patterns@) }
    }
}

impl Clone for IgnoreRules {
    fn clone(&self) -> (r: Self)
        ensures
            r@ == self@,
    {
        let mut patterns: Vec<Pattern> = Vec::new();
        for i in 0..self.patterns.len()
            invariant
                patterns@.len() == i,
                forall|j: int| 0 <= j < i ==> (#[trigger] patterns@[j])@ == self.patterns@[j]@,
        {
            patterns.push(self.patterns[i].clone());
        }
        assert(patterns_view(patterns@) =~= patterns_view(self.patterns@));
        IgnoreRules { base: self.base.clone(), patterns }
    }
}

/// The patterns on the lines of an ignore file. Lines without one are
/// skipped.
pub open spec fn line_patterns(lines: Seq<Seq<char>>, flavor: Flavor) -> Seq<PatternView>
    decreases lines.len(),
{
    if lines.len() == 0 {
        Seq::empty()
    } else {
        let before = line_patterns(lines.drop_last(), flavor);
        match pattern::pattern(lines.last(), flavor) {
            None => before,
            Some(last) => before.push(last),
        }
    }
}

/// The rules in the text of an ignore file.
pub open spec fn rules_of(text: Seq<char>, base: PathView, flavor: Flavor) -> RulesView {
    RulesView { base, patterns: line_patterns(text::lines(text), flavor) }
}

/// What the last pattern that matches says: `Some(true)` ignored,
/// `Some(false)` re-included, `None` if no pattern matches.
pub open spec fn last_match(
    patterns: Seq<PatternView>,
    comps: Seq<Seq<char>>,
    is_dir: bool,
) -> Option<bool>
    decreases patterns.len(),
{
    if patterns.len() == 0 {
        None
    } else if pattern::pattern_matches(patterns.last(), comps, is_dir) {
        Some(!patterns.last().negated)
    } else {
        last_match(patterns.drop_last(), comps, is_dir)
    }
}

/// The verdict of one rule set alone on a path. It has none on a path outside
/// its base, on its base itself, or on a path that is not text.
pub open spec fn rules_verdict(rules: RulesView, p: PathView, is_dir: bool) -> Option<bool> {
    if rules.base.is_prefix_of(p) {
        match path::path_texts(p.skip(rules.base.len() as int)) {
            Some(comps) => if comps.len() > 0 {
                last_match(rules.patterns, comps, is_dir)
            } else {
                None
            },
            None => None,
        }
    } else {
        None
    }
}

impl IgnoreRules {
    /// Parses ignore-file text. Rules are relative to `base`, the directory
    /// that contains the file. Malformed lines are skipped, never an error.
    pub fn parse(text: &str, base: PathBuf, flavor: Flavor) -> (r: IgnoreRules)
        ensures
            r@ == rules_of(text@, base@, flavor),
    {
        let chars = chars_of(text);
        let pieces = split_text(chars.as_slice(), '\n');
        let ghost all = text::split(text@, '\n');
        let ghost lines = text::lines(text@);
        let n = pieces.len();
        let mut patterns: Vec<Pattern> = Vec::new();
        assert(patterns_view(patterns@) =~= line_patterns(lines.take(0), flavor));
        for i in 0..n
            invariant
                n == pieces@.len(),
                n > 0,
                all == text::texts(pieces@),
                all == text::split(text@, '\n'),
                lines == text::lines(text@),
                patterns_view(patterns@) == line_patterns(
                    lines.take(if i < n {
                        i as int
                    } else {
                        lines.len() as int
                    }),
                    flavor,
                ),
        {
            assert(all[i as int] == pieces@[i as int]@);
            let last = i == n - 1;
            let ghost before = patterns@;
            let ghost k = i as int;
            if !last || pieces[i].len() > 0 {
                let line = if last {
                    pieces[i].as_slice()
                } else {
                    without_cr(pieces[i].as_slice())
                };
                proof {
                    assert(lines[k] == line@);
                    assert(lines.take(k + 1).drop_last() =~= lines.take(k));
                }
                if let Some(compiled) = Pattern::parse(line, flavor) {
                    let ghost view = compiled@;
                    patterns.push(compiled);
                    assert(patterns_view(patterns@) =~= patterns_view(before).push(view));
                }
            }
        }
        assert(lines.take(lines.len() as int) =~= lines);
        IgnoreRules { base, patterns }
    }

    /// The rules in the text of the ignore file at `path`. They are relative
    /// to the file's parent directory.
    pub fn of_file(path: &PathBuf, text: &str, flavor: Flavor) -> (r: IgnoreRules)
        ensures
            r@ == file_rules(path@, text@, flavor),
    {
        let base = match path.without_dot().parent() {
            Some(up) => up,
            None => PathBuf::from_components(Vec::new()),
        };
        proof {
            if path::parent(path::without_dot(path@)) is None {
                assert(base@ =~= Seq::empty());
            }
        }
        Self::parse(text, base, flavor)
    }

    /// The default rules every walk starts from: [`DEFAULT_IGNORE_PATTERNS`]
    /// anchored at `base`, the bundle root.
    #[must_use]
    pub fn builtin(base: PathBuf) -> (r: IgnoreRules)
        ensures
            r@ == builtin_rules(base@),
    {
        Self::parse(DEFAULT_IGNORE_PATTERNS, base, Flavor::Gitignore)
    }

    /// The directory these rules are relative to.
    #[must_use]
    pub fn base(&self) -> (r: &PathBuf)
        ensures
            r@ == self@.base,
    {
        &self.base
    }

    /// Whether this rule set has no patterns.
    #[must_use]
    pub fn is_empty(&self) -> (r: bool)
        ensures
            r == (self@.patterns.len() == 0),
    {
        self.patterns.len() == 0
    }

    /// Number of compiled patterns.
    #[must_use]
    pub fn len(&self) -> (r: usize)
        ensures
            r == self@.patterns.len(),
    {
        self.patterns.len()
    }

    /// The verdict of this rule set alone for `path`: `Some(true)` ignored,
    /// `Some(false)` explicitly re-included, `None` no pattern matched.
    pub fn verdict(&self, path: &[Component<Vec<u8>>], is_dir: bool) -> (r: Option<bool>)
        ensures
            r == rules_verdict(self@, path::components_view(path@), is_dir),
    {
        let ghost p = path::components_view(path@);
        let base = self.base.components();
        if !begins_with(path, base) {
            return None;
        }
        let rel = slice_subrange(path, base.len(), path.len());
        assert(path::components_view(rel@) =~= p.skip(base@.len() as int));
        let comps = match path::components(rel) {
            None => {
                return None;
            },
            Some(comps) => comps,
        };
        if comps.len() == 0 {
            return None;
        }
        let ghost all = self@.patterns;
        let ghost cv = text::texts(comps@);
        let mut i = self.patterns.len();
        assert(all.take(i as int) =~= all);
        while i > 0
            invariant
                0 <= i <= self.patterns@.len(),
                all == patterns_view(self.patterns@),
                cv == text::texts(comps@),
                p == path::components_view(path@),
                rules_verdict(self@, p, is_dir) == last_match(all, cv, is_dir),
                last_match(all, cv, is_dir) == last_match(all.take(i as int), cv, is_dir),
            decreases i,
        {
            assert(all.take(i as int).last() == self.patterns@[i - 1]@);
            assert(all.take(i as int).drop_last() =~= all.take(i - 1));
            if self.patterns[i - 1].matches(comps.as_slice(), is_dir) {
                return Some(!self.patterns[i - 1].is_negated());
            }
            i = i - 1;
        }
        None
    }
}

/// The rules in the text of the ignore file at `p`.
pub open spec fn file_rules(p: PathView, text: Seq<char>, flavor: Flavor) -> RulesView {
    rules_of(
        text,
        match path::parent(path::without_dot(p)) {
            Some(up) => up,
            None => Seq::empty(),
        },
        flavor,
    )
}

/// The default rules at `base`.
pub open spec fn builtin_rules(base: PathView) -> RulesView {
    rules_of(DEFAULT_IGNORE_PATTERNS@, base, Flavor::Gitignore)
}

// ---------------------------------------------------------------------------
// A stack of ignore files
// ---------------------------------------------------------------------------

/// A precedence-ordered stack of rule sets for one walk.
///
/// Layers are pushed shallow-to-deep (ancestors, then the bundle root, then
/// each directory entered), and within one directory in the order built-in,
/// configured sources, `.okfignore`. The last layer pushed has the highest
/// precedence, and within a layer the last matching pattern wins.
#[derive(Debug)]
pub struct IgnoreMatcher {
    layers: Vec<IgnoreRules>,
}

/// What a list of rule sets stands for.
pub open spec fn layers_view(layers: Seq<IgnoreRules>) -> Seq<RulesView> {
    layers.map_values(|rules: IgnoreRules| rules@)
}

impl View for IgnoreMatcher {
    type V = Seq<RulesView>;

    closed spec fn view(&self) -> Seq<RulesView> {
        layers_view(self.layers@)
    }
}

impl Clone for IgnoreMatcher {
    fn clone(&self) -> (r: Self)
        ensures
            r@ == self@,
    {
        let mut layers: Vec<IgnoreRules> = Vec::new();
        for i in 0..self.layers.len()
            invariant
                layers@.len() == i,
                forall|j: int| 0 <= j < i ==> (#[trigger] layers@[j])@ == self.layers@[j]@,
        {
            layers.push(self.layers[i].clone());
        }
        assert(layers_view(layers@) =~= layers_view(self.layers@));
        IgnoreMatcher { layers }
    }
}

/// What the highest layer that has a verdict on a path says.
pub open spec fn direct_verdict(
    layers: Seq<RulesView>,
    p: PathView,
    is_dir: bool,
) -> Option<bool>
    decreases layers.len(),
{
    if layers.len() == 0 {
        None
    } else {
        match rules_verdict(layers.last(), p, is_dir) {
            Some(verdict) => Some(verdict),
            None => direct_verdict(layers.drop_last(), p, is_dir),
        }
    }
}

/// Whether a path is ignored: the verdict on it, or on a directory that it
/// lies in, is to ignore.
pub open spec fn ignored(layers: Seq<RulesView>, p: PathView, is_dir: bool) -> bool
    decreases p.len(),
{
    ||| direct_verdict(layers, p, is_dir) == Some(true)
    ||| path::parent(p) matches Some(up) && ignored(layers, up, true)
}

impl Default for IgnoreMatcher {
    fn default() -> (r: Self)
        ensures
            r@ == Seq::<RulesView>::empty(),
    {
        IgnoreMatcher::new()
    }
}

impl IgnoreMatcher {
    /// An empty matcher that ignores nothing.
    #[must_use]
    pub fn new() -> (r: IgnoreMatcher)
        ensures
            r@ == Seq::<RulesView>::empty(),
    {
        let r = IgnoreMatcher { layers: Vec::new() };
        assert(r@ =~= Seq::empty());
        r
    }

    /// Pushes a rule set with the highest precedence so far.
    pub fn push(&mut self, rules: IgnoreRules)
        ensures
            final(self)@ == old(self)@.push(rules@),
    {
        self.layers.push(rules);
        assert(self@ =~= old(self)@.push(rules@));
    }

    /// Pops the most recently pushed rule set.
    pub fn pop(&mut self) -> (r: Option<IgnoreRules>)
        ensures
            match r {
                None => old(self)@.len() == 0 && final(self)@ == old(self)@,
                Some(rules) => {
                    &&& old(self)@.len() > 0
                    &&& rules@ == old(self)@.last()
                    &&& final(self)@ == old(self)@.drop_last()
                },
            },
    {
        let r = self.layers.pop();
        proof {
            if old(self)@.len() > 0 {
                assert(self@ =~= old(self)@.drop_last());
            } else {
                assert(self@ =~= old(self)@);
            }
        }
        r
    }

    /// Number of layers currently pushed.
    #[must_use]
    pub fn depth(&self) -> (r: usize)
        ensures
            r == self@.len(),
    {
        self.layers.len()
    }

    /// What the highest layer that has a verdict on `path` says.
    pub fn direct_verdict(&self, path: &[Component<Vec<u8>>], is_dir: bool) -> (r: Option<bool>)
        ensures
            r == direct_verdict(self@, path::components_view(path@), is_dir),
    {
        let ghost p = path::components_view(path@);
        let ghost all = self@;
        let mut i = self.layers.len();
        assert(all.take(i as int) =~= all);
        while i > 0
            invariant
                0 <= i <= self.layers@.len(),
                p == path::components_view(path@),
                all == layers_view(self.layers@),
                direct_verdict(all, p, is_dir) == direct_verdict(all.take(i as int), p, is_dir),
            decreases i,
        {
            assert(all.take(i as int).last() == self.layers@[i - 1]@);
            assert(all.take(i as int).drop_last() =~= all.take(i - 1));
            if let Some(verdict) = self.layers[i - 1].verdict(path, is_dir) {
                return Some(verdict);
            }
            i = i - 1;
        }
        None
    }

    /// Whether `path` (in the same absolute form as the layer bases) is
    /// ignored. An entry is ignored if it, or any ancestor directory, is
    /// matched by an ignoring pattern that no higher-precedence negation
    /// overrides; this is how an ignored directory prunes its subtree.
    #[must_use]
    pub fn is_ignored(&self, path: &PathBuf, is_dir: bool) -> (r: bool)
        ensures
            r == ignored(self@, path@, is_dir),
    {
        let comps = path.components();
        let ghost p = path@;
        let mut n = comps.len();
        let mut here_is_dir = is_dir;
        assert(p.take(n as int) =~= p);
        loop
            invariant
                0 <= n <= comps@.len(),
                p == path@,
                p == path::components_view(comps@),
                ignored(self@, p, is_dir) == ignored(self@, p.take(n as int), here_is_dir),
            decreases n,
        {
            let here = slice_subrange(comps, 0, n);
            assert(path::components_view(here@) =~= p.take(n as int));
            if let Some(true) = self.direct_verdict(here, here_is_dir) {
                return true;
            }
            if n == 0 {
                return false;
            }
            assert(p.take(n as int).last() == comps@[n - 1]@);
            match &comps[n - 1] {
                Component::Prefix(_) => {
                    return false;
                },
                Component::RootDir => {
                    return false;
                },
                _ => {},
            }
            assert(p.take(n as int).drop_last() =~= p.take(n - 1));
            n = n - 1;
            here_is_dir = true;
        }
    }
}

// ---------------------------------------------------------------------------
// Which ignore files to honour
// ---------------------------------------------------------------------------

/// One extra ignore source a caller wants honoured.
#[derive(Debug, PartialEq, Eq, Hash)]
pub enum IgnoreSource {
    /// An ignore-file *name* (`.gitignore`), discovered in every directory
    /// walked and in ancestors up to the repository root.
    Name(String),
    /// An explicit ignore-file *path*, read once and anchored to its parent
    /// directory.
    File(PathBuf),
}

/// What an [`IgnoreSource`] stands for.
pub enum SourceView {
    Name(Seq<char>),
    File(PathView),
}

impl View for IgnoreSource {
    type V = SourceView;

    open spec fn view(&self) -> SourceView {
        match self {
            IgnoreSource::Name(name) => SourceView::Name(name@),
            IgnoreSource::File(path) => SourceView::File(path@),
        }
    }
}

impl Clone for IgnoreSource {
    fn clone(&self) -> (r: Self)
        ensures
            r@ == self@,
    {
        match self {
            IgnoreSource::Name(name) => IgnoreSource::Name(name.clone()),
            IgnoreSource::File(path) => IgnoreSource::File(path.clone()),
        }
    }
}

/// The source that a command-line value names, on a system whose main path
/// separator is `main`: anything with a separator in it is a file.
pub open spec fn cli_source(raw: Seq<char>, main: u8) -> SourceView {
    if raw.contains('/') || raw.contains(main as char) {
        SourceView::File(path::path_of(vstd::utf8::encode_utf8(raw), main))
    } else {
        SourceView::Name(raw)
    }
}

/// The file name that a source is looking for.
pub open spec fn source_file_name(source: SourceView) -> Option<Seq<char>> {
    match source {
        SourceView::Name(name) => Some(name),
        SourceView::File(p) => match path::file_name(p) {
            Some(name) => path::name_text(name),
            None => None,
        },
    }
}

/// The dialect that a source is read with.
pub open spec fn source_flavor(source: SourceView) -> Flavor {
    if source_file_name(source) == Some(DOCKERIGNORE@) {
        Flavor::Docker
    } else {
        Flavor::Gitignore
    }
}

/// The main path separator of the system.
///
/// Stands for `std::path::MAIN_SEPARATOR`, which is `/` or `\\`.
#[verifier::external_body]
pub(crate) fn main_separator() -> (r: u8)
    ensures
        r == 0x2f || r == 0x5c,
{
    std::path::MAIN_SEPARATOR as u8
}

impl IgnoreSource {
    /// Interprets a command-line value: anything containing a path separator
    /// is a [`IgnoreSource::File`], otherwise a [`IgnoreSource::Name`].
    #[must_use]
    pub fn parse_cli(raw: &str) -> (r: IgnoreSource)
        ensures
            r@ == cli_source(raw@, 0x2f) || r@ == cli_source(raw@, 0x5c),
            !raw@.contains('\\') && !path::has_prefix(vstd::utf8::encode_utf8(raw@), 0x5c) ==> r@
                == cli_source(raw@, 0x2f),
            !raw@.contains('\\') && !raw@.contains('/') ==> r@ == SourceView::Name(raw@),
            raw@.contains('/') ==> r@ is File,
    {
        proof {
            law_cli_source(raw@, 0x5c);
            law_cli_source(raw@, 0x2f);
        }
        Self::parse_cli_with(raw, main_separator())
    }

    /// Interprets a command-line value on a system whose main path separator
    /// is `main`.
    #[must_use]
    pub fn parse_cli_with(raw: &str, main: u8) -> (r: IgnoreSource)
        ensures
            r@ == cli_source(raw@, main),
    {
        let chars = chars_of(raw);
        if contains_char(chars.as_slice(), '/') || contains_char(chars.as_slice(), main as char) {
            IgnoreSource::File(PathBuf::from_text_with(raw, main))
        } else {
            IgnoreSource::Name(raw.to_owned())
        }
    }

    /// The file name this source is looking for.
    #[must_use]
    pub fn file_name(&self) -> (r: Option<&str>)
        ensures
            match r {
                None => source_file_name(self@) is None,
                Some(name) => source_file_name(self@) == Some(name@),
            },
    {
        match self {
            IgnoreSource::Name(name) => Some(name.as_str()),
            IgnoreSource::File(path) => path.file_name_text(),
        }
    }

    /// The dialect this source is read with: Docker for `.dockerignore`,
    /// gitignore for everything else.
    #[must_use]
    pub fn flavor(&self) -> (r: Flavor)
        ensures
            r == source_flavor(self@),
    {
        match self.file_name() {
            Some(name) => {
                let name = chars_of(name);
                let docker = chars_of(DOCKERIGNORE);
                if same_text(name.as_slice(), docker.as_slice()) {
                    Flavor::Docker
                } else {
                    Flavor::Gitignore
                }
            },
            None => Flavor::Gitignore,
        }
    }
}

/// The ignore sources a walk honours on top of the built-in rules and
/// `.okfignore`.
#[derive(Debug, PartialEq, Eq)]
pub struct IgnoreConfig {
    /// Extra sources, applied in order after the built-in rules and before
    /// `.okfignore`.
    pub sources: Vec<IgnoreSource>,
}

/// What a list of sources stands for.
pub open spec fn sources_view(sources: Seq<IgnoreSource>) -> Seq<SourceView> {
    sources.map_values(|source: IgnoreSource| source@)
}

impl View for IgnoreConfig {
    type V = Seq<SourceView>;

    open spec fn view(&self) -> Seq<SourceView> {
        sources_view(self.sources@)
    }
}

impl Clone for IgnoreConfig {
    fn clone(&self) -> (r: Self)
        ensures
            r@ == self@,
    {
        let mut sources: Vec<IgnoreSource> = Vec::new();
        for i in 0..self.sources.len()
            invariant
                sources@.len() == i,
                forall|j: int| 0 <= j < i ==> (#[trigger] sources@[j])@ == self.sources@[j]@,
        {
            sources.push(self.sources[i].clone());
        }
        assert(sources_view(sources@) =~= sources_view(self.sources@));
        IgnoreConfig { sources }
    }
}

impl Default for IgnoreConfig {
    fn default() -> (r: Self)
        ensures
            r@ == Seq::<SourceView>::empty(),
    {
        IgnoreConfig::new()
    }
}

impl IgnoreConfig {
    /// A configuration with no extra sources.
    #[must_use]
    pub fn new() -> (r: IgnoreConfig)
        ensures
            r@ == Seq::<SourceView>::empty(),
    {
        let r = IgnoreConfig { sources: Vec::new() };
        assert(r@ =~= Seq::empty());
        r
    }

    /// Adds a source.
    #[must_use]
    pub fn with_source(self, source: IgnoreSource) -> (r: IgnoreConfig)
        ensures
            r@ == self@.push(source@),
    {
        let mut sources = self.sources;
        sources.push(source);
        assert(sources_view(sources@) =~= self@.push(source@));
        IgnoreConfig { sources }
    }

    /// Adds an ignore-file name.
    #[must_use]
    pub fn with_name(self, name: &str) -> (r: IgnoreConfig)
        ensures
            r@ == self@.push(SourceView::Name(name@)),
    {
        self.with_source(IgnoreSource::Name(name.to_owned()))
    }
}

// ---------------------------------------------------------------------------
// Laws
// ---------------------------------------------------------------------------

/// Whether a pattern matches and no later one does.
pub open spec fn decides(
    patterns: Seq<PatternView>,
    comps: Seq<Seq<char>>,
    is_dir: bool,
    i: int,
) -> bool {
    &&& 0 <= i < patterns.len()
    &&& pattern::pattern_matches(patterns[i], comps, is_dir)
    &&& forall|j: int|
        i < j < patterns.len() ==> !pattern::pattern_matches(
            #[trigger] patterns[j],
            comps,
            is_dir,
        )
}

/// Within one file the last pattern that matches decides: to ignore, or, if it
/// is negated, to re-include. If none matches, nothing is decided.
pub proof fn law_last_match_decides(
    patterns: Seq<PatternView>,
    comps: Seq<Seq<char>>,
    is_dir: bool,
)
    ensures
        match last_match(patterns, comps, is_dir) {
            Some(verdict) => exists|i: int|
                #[trigger] decides(patterns, comps, is_dir, i) && verdict == !patterns[i].negated,
            None => forall|i: int|
                0 <= i < patterns.len() ==> !pattern::pattern_matches(
                    #[trigger] patterns[i],
                    comps,
                    is_dir,
                ),
        },
    decreases patterns.len(),
{
    if patterns.len() > 0 {
        let n = patterns.len() - 1;
        let front = patterns.drop_last();
        if pattern::pattern_matches(patterns.last(), comps, is_dir) {
            assert(decides(patterns, comps, is_dir, n));
        } else {
            law_last_match_decides(front, comps, is_dir);
            match last_match(front, comps, is_dir) {
                Some(verdict) => {
                    let i = choose|i: int|
                        #[trigger] decides(front, comps, is_dir, i) && verdict
                            == !front[i].negated;
                    assert(front[i] == patterns[i]);
                    assert forall|j: int| i < j < patterns.len() implies !pattern::pattern_matches(
                        #[trigger] patterns[j],
                        comps,
                        is_dir,
                    ) by {
                        if j < n {
                            assert(front[j] == patterns[j]);
                        }
                    }
                    assert(decides(patterns, comps, is_dir, i));
                },
                None => {
                    assert forall|i: int|
                        0 <= i < patterns.len() implies !pattern::pattern_matches(
                        #[trigger] patterns[i],
                        comps,
                        is_dir,
                    ) by {
                        if i < n {
                            assert(front[i] == patterns[i]);
                        }
                    }
                },
            }
        }
    }
}

/// Layers that were pushed later outrank those below them: where they have a
/// verdict it stands, and where they have none the layers below decide.
pub proof fn law_later_layers_outrank(
    below: Seq<RulesView>,
    above: Seq<RulesView>,
    p: PathView,
    is_dir: bool,
)
    ensures
        direct_verdict(below + above, p, is_dir) == match direct_verdict(above, p, is_dir) {
            Some(verdict) => Some(verdict),
            None => direct_verdict(below, p, is_dir),
        },
    decreases above.len(),
{
    if above.len() == 0 {
        assert(below + above =~= below);
    } else {
        law_later_layers_outrank(below, above.drop_last(), p, is_dir);
        assert((below + above).drop_last() =~= below + above.drop_last());
        assert((below + above).last() == above.last());
    }
}

/// A layer that has no verdict on a path or on a directory that it lies in
/// does not matter to it. In particular an empty one does not matter at all.
pub proof fn law_silent_layer(
    below: Seq<RulesView>,
    silent: RulesView,
    above: Seq<RulesView>,
    p: PathView,
    is_dir: bool,
)
    requires
        silent.patterns.len() == 0 || (rules_verdict(silent, p, is_dir) is None && forall|n: int|
            0 <= n < p.len() ==> rules_verdict(silent, #[trigger] p.take(n), true) is None),
    ensures
        ignored(below.push(silent) + above, p, is_dir) == ignored(below + above, p, is_dir),
    decreases p.len(),
{
    law_later_layers_outrank(below.push(silent), above, p, is_dir);
    law_later_layers_outrank(below, above, p, is_dir);
    assert(below.push(silent).drop_last() =~= below);
    assert(rules_verdict(silent, p, is_dir) is None);
    if let Some(up) = path::parent(p) {
        assert(up =~= p.take(p.len() - 1));
        assert forall|n: int| 0 <= n < up.len() implies #[trigger] up.take(n) == p.take(n) by {
            assert(up.take(n) =~= p.take(n));
        }
        law_silent_layer(below, silent, above, up, true);
    }
}

/// A rule set has no verdict on its own base, on a path outside it, or on one
/// with a component below it that is not text.
pub proof fn law_no_verdict(rules: RulesView, p: PathView, is_dir: bool)
    requires
        p == rules.base || !rules.base.is_prefix_of(p) || exists|i: int|
            rules.base.len() <= i < p.len() && (#[trigger] p[i] matches path::Component::Normal(
                name,
            ) && path::name_text(name) is None),
    ensures
        rules_verdict(rules, p, is_dir) is None,
{
    if rules.base.is_prefix_of(p) {
        let rel = p.skip(rules.base.len() as int);
        if p == rules.base {
            assert(rel =~= Seq::empty());
        } else {
            let i = choose|i: int|
                rules.base.len() <= i < p.len() && (#[trigger] p[i] matches path::Component::Normal(
                    name,
                ) && path::name_text(name) is None);
            assert(rel[i - rules.base.len()] == p[i]);
            lemma_not_text(rel, i - rules.base.len());
        }
    }
}

proof fn lemma_not_text(p: PathView, i: int)
    requires
        0 <= i < p.len(),
        p[i] matches path::Component::Normal(name) && path::name_text(name) is None,
    ensures
        path::path_texts(p) is None,
    decreases p.len(),
{
    if i < p.len() - 1 {
        assert(p.drop_last()[i] == p[i]);
        lemma_not_text(p.drop_last(), i);
    }
}

/// A matcher without layers ignores nothing.
pub proof fn law_no_layers(p: PathView, is_dir: bool)
    ensures
        !ignored(Seq::empty(), p, is_dir),
    decreases p.len(),
{
    if let Some(up) = path::parent(p) {
        law_no_layers(up, true);
    }
}

/// An ignored directory takes all that lies in it along.
pub proof fn law_ignored_directory(
    layers: Seq<RulesView>,
    dir: PathView,
    rel: PathView,
    is_dir: bool,
)
    requires
        ignored(layers, dir, true),
        rel.len() > 0,
        forall|i: int|
            0 <= i < rel.len() ==> !((#[trigger] rel[i]) is Prefix) && !(rel[i] is RootDir),
    ensures
        ignored(layers, dir + rel, is_dir),
    decreases rel.len(),
{
    let p = dir + rel;
    assert(p.last() == rel.last());
    assert(rel[rel.len() - 1] == rel.last());
    assert(p.drop_last() =~= dir + rel.drop_last());
    if rel.len() == 1 {
        assert(dir + rel.drop_last() =~= dir);
    } else {
        assert forall|i: int| 0 <= i < rel.drop_last().len() implies !((
        #[trigger] rel.drop_last()[i]) is Prefix) && !(rel.drop_last()[i] is RootDir) by {
            assert(rel.drop_last()[i] == rel[i]);
        }
        law_ignored_directory(layers, dir, rel.drop_last(), true);
    }
}

/// A negation cannot rescue what lies in an ignored directory: as long as a
/// new layer says nothing about that directory and those above it, all that
/// lies in the directory stays ignored, whatever the layer says about it.
pub proof fn law_negation_cannot_rescue(
    layers: Seq<RulesView>,
    rules: RulesView,
    dir: PathView,
    rel: PathView,
    is_dir: bool,
)
    requires
        ignored(layers, dir, true),
        forall|n: int|
            0 <= n <= dir.len() ==> rules_verdict(rules, #[trigger] dir.take(n), true) is None,
        rel.len() > 0,
        forall|i: int|
            0 <= i < rel.len() ==> !((#[trigger] rel[i]) is Prefix) && !(rel[i] is RootDir),
    ensures
        ignored(layers.push(rules), dir + rel, is_dir),
{
    assert(dir.take(dir.len() as int) =~= dir);
    law_silent_layer(layers, rules, Seq::empty(), dir, true);
    assert(layers.push(rules) + Seq::<RulesView>::empty() =~= layers.push(rules));
    assert(layers + Seq::<RulesView>::empty() =~= layers);
    law_ignored_directory(layers.push(rules), dir, rel, is_dir);
}

/// Whether the default rules skip a directory of this name: it is hidden, or
/// called `target` or `node_modules`.
pub open spec fn skipped_by_default(name: Seq<char>) -> bool {
    ||| name.len() > 0 && name[0] == '.'
    ||| name == "target"@
    ||| name == "node_modules"@
}

spec fn name_only(segment: SegmentView) -> PatternView {
    PatternView { negated: false, dir_only: true, anchored: false, segments: seq![segment] }
}

/// The name of a hidden directory, as a segment.
spec fn hidden() -> Seq<char> {
    seq!['.', '*']
}

proof fn lemma_default_lines()
    ensures
        text::lines(DEFAULT_IGNORE_PATTERNS@) == seq![
            hidden().push('/'),
            "target"@.push('/'),
            "node_modules"@.push('/'),
        ],
        pattern::lone_segment("target"@),
        pattern::plain("target"@),
        pattern::lone_segment("node_modules"@),
        pattern::plain("node_modules"@),
{
    reveal_strlit(".*/\ntarget/\nnode_modules/\n");
    reveal_strlit("target");
    reveal_strlit("node_modules");
    let first = hidden().push('/');
    let second = "target"@.push('/');
    let third = "node_modules"@.push('/');
    let end = third.push('\n') + Seq::<char>::empty();
    let rest = second.push('\n') + end;
    let all = first.push('\n') + rest;
    assert(DEFAULT_IGNORE_PATTERNS@ =~= all);
    text::lemma_split_joined(first, rest, '\n');
    text::lemma_split_joined(second, end, '\n');
    text::lemma_split_joined(third, Seq::empty(), '\n');
    text::lemma_split_single(first, '\n');
    text::lemma_split_single(second, '\n');
    text::lemma_split_single(third, '\n');
    text::lemma_split_single(Seq::empty(), '\n');
    assert(text::split(all, '\n') =~= seq![first, second, third, Seq::<char>::empty()]);
    assert(text::lines(all) =~= seq![first, second, third]);
}

proof fn lemma_hidden_segment()
    ensures
        pattern::segment(hidden()) == Some(
            SegmentView::Glob(seq![TokView::Char('.'), TokView::Any]),
        ),
{
    let s = hidden();
    let toks = seq![TokView::Char('.'), TokView::Any];
    assert(s[0] == '.' && s[1] == '*');
    assert(s != seq!['*', '*']) by {
        assert(seq!['*', '*'][0] == '*');
    }
    assert(s.skip(1)[0] == '*');
    assert(s.skip(1).skip(1) =~= Seq::empty());
    assert(pattern::tokens(s.skip(1).skip(1)) == Some(Seq::<TokView>::empty()));
    assert(seq![TokView::Any] + Seq::<TokView>::empty() =~= seq![TokView::Any]);
    assert(pattern::tokens(s.skip(1)) == Some(seq![TokView::Any]));
    assert(seq![TokView::Char('.')] + seq![TokView::Any] =~= toks);
    assert(pattern::tokens(s) == Some(toks));
    assert(!(toks[1] is Char));
    let front = toks.drop_last();
    assert(front.drop_last() =~= Seq::empty());
    assert(pattern::collapse(front.drop_last()) =~= Seq::empty());
    assert(pattern::collapse(front) =~= seq![toks[0]]);
    assert(pattern::collapse(toks) =~= toks);
}

proof fn lemma_default_patterns()
    ensures
        line_patterns(text::lines(DEFAULT_IGNORE_PATTERNS@), Flavor::Gitignore) == seq![
            name_only(SegmentView::Glob(seq![TokView::Char('.'), TokView::Any])),
            name_only(SegmentView::Literal("target"@)),
            name_only(SegmentView::Literal("node_modules"@)),
        ],
{
    let flavor = Flavor::Gitignore;
    lemma_default_lines();
    lemma_hidden_segment();
    pattern::law_plain_name("target"@, flavor);
    pattern::law_plain_name("node_modules"@, flavor);
    pattern::law_lone_segment(hidden(), flavor);
    pattern::law_directories_only(hidden(), flavor);
    pattern::law_directories_only("target"@, flavor);
    pattern::law_directories_only("node_modules"@, flavor);
    let lines = text::lines(DEFAULT_IGNORE_PATTERNS@);
    let two = lines.drop_last();
    let one = two.drop_last();
    assert(one.drop_last() =~= Seq::empty());
    assert(two.last() == lines[1]);
    assert(one.last() == lines[0]);
    assert(line_patterns(one.drop_last(), flavor) =~= Seq::empty());
    assert(line_patterns(one, flavor) =~= seq![
        name_only(SegmentView::Glob(seq![TokView::Char('.'), TokView::Any])),
    ]);
    assert(line_patterns(two, flavor) =~= seq![
        name_only(SegmentView::Glob(seq![TokView::Char('.'), TokView::Any])),
        name_only(SegmentView::Literal("target"@)),
    ]);
}

/// The default rules ignore the directories below their base that are hidden
/// or called `target` or `node_modules`, at any depth. They say nothing of any
/// other directory, and nothing of files. Being the lowest layer, they give way
/// to any other layer that has a verdict.
pub proof fn law_default_rules(base: PathView, p: PathView, is_dir: bool, above: Seq<RulesView>)
    ensures
        rules_verdict(builtin_rules(base), p, is_dir) == (if is_dir && base.is_prefix_of(p) && (
        path::path_texts(p.skip(base.len() as int)) matches Some(comps) && comps.len() > 0
            && skipped_by_default(comps.last())) {
            Some(true)
        } else {
            None
        }),
        direct_verdict(above, p, is_dir) is Some ==> direct_verdict(
            seq![builtin_rules(base)] + above,
            p,
            is_dir,
        ) == direct_verdict(above, p, is_dir),
{
    law_later_layers_outrank(seq![builtin_rules(base)], above, p, is_dir);
    lemma_default_patterns();
    let patterns = builtin_rules(base).patterns;
    if base.is_prefix_of(p) {
        if let Some(comps) = path::path_texts(p.skip(base.len() as int)) {
            if comps.len() > 0 {
                let name = comps.last();
                let dot = seq![TokView::Char('.')];
                let any = seq![TokView::Any];
                assert(dot + any =~= seq![TokView::Char('.'), TokView::Any]);
                assert(glob::glob(dot + any, name) <==> name.len() > 0 && name[0] == '.') by {
                    assert((dot + any).skip(1) =~= any);
                    if name.len() > 0 {
                        glob::law_one_token(TokView::Any, name.skip(1));
                    }
                }
                reveal_with_fuel(last_match, 4);
                assert(patterns.drop_last().last() == patterns[1]);
                assert(patterns.drop_last().drop_last().last() == patterns[0]);
                assert(patterns.drop_last().drop_last().drop_last() =~= Seq::empty());
            }
        }
    }
}

/// A command-line value with a `/` in it is a file on every system, one
/// without a separator is a name, and a value without a system's own separator
/// means there what it means where `/` is the only one, unless it begins with a
/// prefix there.
pub proof fn law_cli_source(raw: Seq<char>, main: u8)
    requires
        main < 0x80,
    ensures
        raw.contains('/') ==> cli_source(raw, main) is File,
        raw.contains('/') || raw.contains(main as char) ==> cli_source(raw, main)
            == SourceView::File(path::path_of(vstd::utf8::encode_utf8(raw), main)),
        !raw.contains('/') && !raw.contains(main as char) ==> cli_source(raw, main)
            == SourceView::Name(raw),
        !raw.contains(main as char) && !path::has_prefix(vstd::utf8::encode_utf8(raw), main)
            ==> cli_source(raw, main) == cli_source(raw, 0x2f),
{
    if !raw.contains(main as char) && !path::has_prefix(vstd::utf8::encode_utf8(raw), main) {
        path::law_other_separator(raw, main);
    }
}

/// The patterns on some lines followed by others are those of each, in order.
proof fn lemma_line_patterns_joined(a: Seq<Seq<char>>, b: Seq<Seq<char>>, flavor: Flavor)
    ensures
        line_patterns(a + b, flavor) == line_patterns(a, flavor) + line_patterns(b, flavor),
    decreases b.len(),
{
    let before = line_patterns(a, flavor);
    if b.len() == 0 {
        assert(a + b =~= a);
        assert(before + line_patterns(b, flavor) =~= before);
    } else {
        lemma_line_patterns_joined(a, b.drop_last(), flavor);
        assert((a + b).drop_last() =~= a + b.drop_last());
        assert((a + b).last() == b.last());
        assert(line_patterns(a + b, flavor) =~= before + line_patterns(b, flavor));
    }
}

/// Lines that have the same patterns one by one have the same patterns.
proof fn lemma_same_line_patterns(a: Seq<Seq<char>>, b: Seq<Seq<char>>, flavor: Flavor)
    requires
        a.len() == b.len(),
        forall|i: int|
            0 <= i < a.len() ==> pattern::pattern(#[trigger] a[i], flavor) == pattern::pattern(
                b[i],
                flavor,
            ),
    ensures
        line_patterns(a, flavor) == line_patterns(b, flavor),
    decreases a.len(),
{
    if a.len() > 0 {
        let x = a.drop_last();
        let y = b.drop_last();
        assert(pattern::pattern(a[a.len() - 1], flavor) == pattern::pattern(b[a.len() - 1], flavor));
        assert forall|i: int| 0 <= i < x.len() implies pattern::pattern(#[trigger] x[i], flavor)
            == pattern::pattern(y[i], flavor) by {
            assert(x[i] == a[i] && y[i] == b[i]);
        }
        lemma_same_line_patterns(x, y, flavor);
    }
}

/// One carriage return at the end of a line does not matter to its pattern, as
/// long as it does not end in two.
proof fn lemma_cr_pattern(line: Seq<char>, flavor: Flavor)
    requires
        !text::ends_in_two_cr(line),
    ensures
        pattern::pattern(text::strip_cr(line), flavor) == pattern::pattern(line, flavor),
{
    let once = text::strip_cr(line);
    assert(text::strip_cr(once) =~= once) by {
        if line.len() >= 2 && line.last() == '\r' {
            assert(once.last() == line[line.len() - 2]);
        }
    }
}

/// Where no line ends in two carriage returns, the pieces of a text have the
/// patterns of its lines.
proof fn lemma_piece_patterns(s: Seq<char>, flavor: Flavor)
    requires
        no_line_ends_in_two_cr(s),
    ensures
        line_patterns(text::lines(s), flavor) == line_patterns(text::split(s, '\n'), flavor),
{
    let pieces = text::split(s, '\n');
    let front = pieces.drop_last();
    let lines = text::lines(s);
    let n = front.len() as int;
    text::lemma_split_nonempty(s, '\n');
    let ended = front.map_values(|piece: Seq<char>| text::strip_cr(piece));
    assert forall|i: int| 0 <= i < n implies pattern::pattern(#[trigger] ended[i], flavor)
        == pattern::pattern(front[i], flavor) by {
        assert(front[i] == pieces[i]);
        lemma_cr_pattern(pieces[i], flavor);
    }
    lemma_same_line_patterns(ended, front, flavor);
    if pieces.last().len() > 0 {
        assert(lines.drop_last() =~= ended);
    } else {
        assert(lines =~= ended);
    }
}

/// The patterns of two texts with a line end between them are those of the
/// first and then those of the second. The first must not end in two carriage
/// returns, of which the line end would take one.
pub proof fn law_joined_texts(a: Seq<char>, b: Seq<char>, base: PathView, flavor: Flavor)
    requires
        !text::ends_in_two_cr(a),
    ensures
        rules_of(a.push('\n') + b, base, flavor).patterns == rules_of(a, base, flavor).patterns
            + rules_of(b, base, flavor).patterns,
{
    let x = text::split(a, '\n');
    let y = text::split(b, '\n');
    text::lemma_split_joined(a, b, '\n');
    text::lemma_split_nonempty(a, '\n');
    text::lemma_split_nonempty(b, '\n');
    let all = text::split(a.push('\n') + b, '\n');
    assert(all.drop_last() =~= x + y.drop_last());
    let f = |piece: Seq<char>| text::strip_cr(piece);
    let first = x.map_values(f);
    let second = text::lines(b);
    assert(text::lines(a.push('\n') + b) =~= first + second);
    lemma_line_patterns_joined(first, second, flavor);
    // The last line of the first text, with its line end and without.
    let last = x.last();
    lemma_last_piece(a);
    lemma_cr_pattern(last, flavor);
    assert(first.drop_last() =~= x.drop_last().map_values(f));
    assert(first.last() == text::strip_cr(last));
    if last.len() == 0 {
        assert(text::lines(a) =~= first.drop_last());
        pattern::law_blank_or_comment(text::strip_cr(last), flavor);
    } else {
        assert(text::lines(a).drop_last() =~= first.drop_last());
        assert(text::lines(a).last() == last);
    }
}

/// A last piece that ends in two carriage returns is that of a text that does.
proof fn lemma_last_piece(s: Seq<char>)
    ensures
        text::split(s, '\n').last().len() <= s.len(),
        text::split(s, '\n').last() == s.skip(s.len() - text::split(s, '\n').last().len()),
        text::ends_in_two_cr(text::split(s, '\n').last()) ==> text::ends_in_two_cr(s),
    decreases s.len(),
{
    if s.len() > 0 {
        lemma_last_piece(s.drop_last());
        text::lemma_split_nonempty(s.drop_last(), '\n');
    }
    let last = text::split(s, '\n').last();
    assert(last =~= s.skip(s.len() - last.len()));
}

/// Whether no line with a line end has two carriage returns in front of it.
pub open spec fn no_line_ends_in_two_cr(s: Seq<char>) -> bool {
    forall|i: int|
        0 <= i < text::split(s, '\n').len() - 1 ==> !text::ends_in_two_cr(
            #[trigger] text::split(s, '\n')[i],
        )
}

/// Carriage returns at the line ends of a whole text change nothing, as long as
/// no line ends in two of them already, and neither does one at the end of the
/// text, as long as there is none already: of more than these not all count.
pub proof fn law_carriage_returns(s: Seq<char>, base: PathView, flavor: Flavor)
    ensures
        no_line_ends_in_two_cr(s) ==> rules_of(text::with_cr(s), base, flavor) == rules_of(
            s,
            base,
            flavor,
        ),
        s.len() == 0 || s.last() != '\r' ==> rules_of(s.push('\r'), base, flavor) == rules_of(
            s,
            base,
            flavor,
        ),
{
    if no_line_ends_in_two_cr(s) {
        lemma_with_cr(s, base, flavor);
    }
    if s.len() == 0 || s.last() != '\r' {
        lemma_last_cr(s, base, flavor);
    }
}

proof fn lemma_with_cr(s: Seq<char>, base: PathView, flavor: Flavor)
    requires
        no_line_ends_in_two_cr(s),
    ensures
        rules_of(text::with_cr(s), base, flavor) == rules_of(s, base, flavor),
{
    let pieces = text::split(s, '\n');
    let more = text::split(text::with_cr(s), '\n');
    text::lemma_split_with_cr(s);
    text::lemma_split_nonempty(s, '\n');
    lemma_piece_patterns(s, flavor);
    let front = pieces.drop_last();
    let ended = more.drop_last().map_values(|piece: Seq<char>| text::strip_cr(piece));
    assert(ended =~= front) by {
        assert forall|i: int| 0 <= i < front.len() implies ended[i] == front[i] by {
            assert(more[i] == pieces[i].push('\r'));
            assert(pieces[i].push('\r').drop_last() =~= pieces[i]);
        }
    }
    if pieces.last().len() == 0 {
        assert(text::lines(text::with_cr(s)) =~= front);
        pattern::law_blank_or_comment(pieces.last(), flavor);
    } else {
        assert(text::lines(text::with_cr(s)) =~= pieces);
    }
}

proof fn lemma_last_cr(s: Seq<char>, base: PathView, flavor: Flavor)
    requires
        s.len() == 0 || s.last() != '\r',
    ensures
        rules_of(s.push('\r'), base, flavor) == rules_of(s, base, flavor),
{
    let pieces = text::split(s, '\n');
    let front = pieces.drop_last();
    let last = pieces.last();
    let t = s.push('\r');
    text::lemma_split_nonempty(s, '\n');
    assert(t.drop_last() =~= s);
    assert(text::split(t, '\n') =~= front.push(last.push('\r')));
    assert(text::split(t, '\n').drop_last() =~= front);
    assert(text::lines(t).last() == last.push('\r'));
    if last.len() == 0 {
        assert(text::lines(t).drop_last() =~= text::lines(s));
        assert(text::strip_cr(last.push('\r')).len() == 0);
    } else {
        assert(s.len() > 0 && s.last() != '\n');
        text::lemma_split_nonempty(s.drop_last(), '\n');
        assert(last.last() == s.last());
        assert(text::lines(t).drop_last() =~= text::lines(s).drop_last());
        pattern::law_trailing_blanks(last, flavor);
    }
}

/// A text without a line end is one line: its rules are the pattern on that
/// line, if there is one, and are relative to the base. With
/// [`law_joined_texts`] this says what the rules of any text are: the patterns
/// of its lines, in order.
pub proof fn law_single_line(line: Seq<char>, base: PathView, flavor: Flavor)
    requires
        !line.contains('\n'),
    ensures
        rules_of(line, base, flavor).base == base,
        rules_of(line, base, flavor).patterns == match pattern::pattern(line, flavor) {
            None => Seq::empty(),
            Some(p) => seq![p],
        },
        rules_of(line.push('\n'), base, flavor).patterns == match pattern::pattern(
            text::strip_cr(line),
            flavor,
        ) {
            None => Seq::empty(),
            Some(p) => seq![p],
        },
{
    text::lemma_split_single(line, '\n');
    let ended = line.push('\n');
    assert(ended.drop_last() =~= line);
    let pieces = seq![line].push(Seq::empty());
    assert(text::split(ended, '\n') == pieces);
    let f = |piece: Seq<char>| text::strip_cr(piece);
    assert(pieces.drop_last() =~= seq![line]);
    assert(pieces.drop_last().map_values(f) =~= seq![text::strip_cr(line)]);
    assert(text::lines(ended) =~= seq![text::strip_cr(line)]);
    lemma_one_line(text::strip_cr(line), flavor);
    assert(seq![line].drop_last() =~= Seq::empty());
    assert(Seq::<Seq<char>>::empty().map_values(f) =~= Seq::empty());
    if line.len() == 0 {
        assert(text::lines(line) =~= Seq::empty());
        pattern::law_blank_or_comment(line, flavor);
    } else {
        assert(text::lines(line) =~= seq![line]);
        lemma_one_line(line, flavor);
    }
}

proof fn lemma_one_line(line: Seq<char>, flavor: Flavor)
    ensures
        line_patterns(seq![line], flavor) == match pattern::pattern(line, flavor) {
            None => Seq::empty(),
            Some(p) => seq![p],
        },
{
    reveal_with_fuel(line_patterns, 2);
    assert(seq![line].drop_last() =~= Seq::empty());
    if let Some(p) = pattern::pattern(line, flavor) {
        assert(Seq::<PatternView>::empty().push(p) =~= seq![p]);
    }
}

/// What the rules of a file say of a path: if the path is the base with names
/// behind it, all of them text, what the last matching pattern says of these;
/// of any other path nothing.
pub proof fn law_verdict(rules: RulesView, p: PathView, texts: Seq<Seq<char>>, is_dir: bool)
    ensures
        rules_verdict(
            rules,
            rules.base + texts.map_values(
                |text: Seq<char>| path::Component::Normal(vstd::utf8::encode_utf8(text)),
            ),
            is_dir,
        ) == if texts.len() == 0 {
            None
        } else {
            last_match(rules.patterns, texts, is_dir)
        },
        rules_verdict(rules, p, is_dir) is Some ==> rules.base.len() < p.len() && p.take(
            rules.base.len() as int,
        ) == rules.base && forall|i: int|
            rules.base.len() <= i < p.len() ==> (#[trigger] p[i] matches path::Component::Normal(
                name,
            ) && vstd::utf8::valid_utf8(name)),
{
    let n = rules.base.len() as int;
    let rel: PathView = texts.map_values(
        |text: Seq<char>| path::Component::Normal(vstd::utf8::encode_utf8(text)),
    );
    path::law_texts_of_names(texts);
    assert((rules.base + rel).skip(n) =~= rel);
    assert((rules.base + rel).take(n) =~= rules.base);
    if rules_verdict(rules, p, is_dir) is Some {
        let rel = p.skip(n);
        path::law_texts(rel);
        assert(p.take(n) =~= rules.base);
        assert forall|i: int| n <= i < p.len() implies (
        #[trigger] p[i] matches path::Component::Normal(name) && vstd::utf8::valid_utf8(name)) by {
            assert(rel[i - n] == p[i]);
        }
    }
}

/// Among layers the last that says something of a path decides.
pub proof fn law_last_layer_decides(layers: Seq<RulesView>, p: PathView, is_dir: bool)
    ensures
        match direct_verdict(layers, p, is_dir) {
            Some(verdict) => exists|i: int|
                0 <= i < layers.len() && rules_verdict(#[trigger] layers[i], p, is_dir) == Some(
                    verdict,
                ) && forall|j: int|
                    i < j < layers.len() ==> rules_verdict(#[trigger] layers[j], p, is_dir) is None,
            None => forall|i: int|
                0 <= i < layers.len() ==> rules_verdict(#[trigger] layers[i], p, is_dir) is None,
        },
    decreases layers.len(),
{
    if layers.len() > 0 {
        let n = layers.len() - 1;
        let front = layers.drop_last();
        assert(layers[n] == layers.last());
        if rules_verdict(layers.last(), p, is_dir) is None {
            law_last_layer_decides(front, p, is_dir);
            match direct_verdict(front, p, is_dir) {
                Some(verdict) => {
                    let i = choose|i: int|
                        0 <= i < front.len() && rules_verdict(#[trigger] front[i], p, is_dir)
                            == Some(verdict) && forall|j: int|
                            i < j < front.len() ==> rules_verdict(
                                #[trigger] front[j],
                                p,
                                is_dir,
                            ) is None;
                    assert(layers[i] == front[i]);
                    assert forall|j: int| i < j < layers.len() implies rules_verdict(
                        #[trigger] layers[j],
                        p,
                        is_dir,
                    ) is None by {
                        if j < n {
                            assert(front[j] == layers[j]);
                        }
                    }
                },
                None => {
                    assert forall|i: int| 0 <= i < layers.len() implies rules_verdict(
                        #[trigger] layers[i],
                        p,
                        is_dir,
                    ) is None by {
                        if i < n {
                            assert(front[i] == layers[i]);
                        }
                    }
                },
            }
        }
    }
}

/// A path is ignored exactly if the layers say so of it, or of some directory
/// above it, up to its root.
pub proof fn law_ignored(layers: Seq<RulesView>, p: PathView, is_dir: bool)
    ensures
        ignored(layers, p, is_dir) <==> direct_verdict(layers, p, is_dir) == Some(true) || exists|
            n: int,
        |
            0 <= n < p.len() && direct_verdict(layers, #[trigger] p.take(n), true) == Some(true)
                && forall|i: int|
                n <= i < p.len() ==> !((#[trigger] p[i]) is Prefix) && !(p[i] is RootDir),
    decreases p.len(),
{
    if p.len() > 0 {
        let m = p.len() - 1;
        let up = p.drop_last();
        assert(p[m] == p.last());
        assert(p.take(m) =~= up);
        assert forall|n: int| 0 <= n < up.len() implies #[trigger] up.take(n) == p.take(n) by {
            assert(up.take(n) =~= p.take(n));
        }
        if !(p.last() is Prefix) && !(p.last() is RootDir) {
            law_ignored(layers, up, true);
            if ignored(layers, up, true) {
                if direct_verdict(layers, up, true) == Some(true) {
                    assert(direct_verdict(layers, p.take(m), true) == Some(true));
                } else {
                    let n = choose|n: int|
                        0 <= n < up.len() && direct_verdict(layers, #[trigger] up.take(n), true)
                            == Some(true) && forall|i: int|
                            n <= i < up.len() ==> !((#[trigger] up[i]) is Prefix) && !(
                            up[i] is RootDir);
                    assert(up.take(n) == p.take(n));
                    assert forall|i: int| n <= i < p.len() implies !((#[trigger] p[i]) is Prefix)
                        && !(p[i] is RootDir) by {
                        if i < m {
                            assert(up[i] == p[i]);
                        }
                    }
                }
            }
        }
        if exists|n: int|
            0 <= n < p.len() && direct_verdict(layers, #[trigger] p.take(n), true) == Some(true)
                && forall|i: int|
                n <= i < p.len() ==> !((#[trigger] p[i]) is Prefix) && !(p[i] is RootDir) {
            let n = choose|n: int|
                0 <= n < p.len() && direct_verdict(layers, #[trigger] p.take(n), true) == Some(true)
                    && forall|i: int|
                    n <= i < p.len() ==> !((#[trigger] p[i]) is Prefix) && !(p[i] is RootDir);
            assert(!(p[m] is Prefix) && !(p[m] is RootDir));
            if n < m {
                assert(up.take(n) == p.take(n));
                assert forall|i: int| n <= i < up.len() implies !((#[trigger] up[i]) is Prefix)
                    && !(up[i] is RootDir) by {
                    assert(up[i] == p[i]);
                }
            }
            assert(ignored(layers, up, true));
        }
    }
}

/// The rules of an ignore file are those of its text, relative to the directory
/// that the file is in.
pub proof fn law_file_rules(dir: PathView, name: Seq<u8>, text: Seq<char>, flavor: Flavor)
    ensures
        file_rules(dir.push(path::Component::Normal(name)), text, flavor) == rules_of(
            text,
            dir,
            flavor,
        ),
{
    path::law_parent(dir, path::Component::Normal(name));
    assert(dir.push(path::Component::Normal(name)).last() is Normal);
}

/// Before any ignore file is read, a walk ignores the directories below its root
/// whose names begin with a `.`, and those named `target` or `node_modules`, at
/// any depth, and nothing else.
pub proof fn law_defaults_by_name(
    base: PathView,
    above: Seq<Seq<char>>,
    name: Seq<char>,
    is_dir: bool,
)
    ensures
        rules_verdict(
            builtin_rules(base),
            base + above.push(name).map_values(
                |text: Seq<char>| path::Component::Normal(vstd::utf8::encode_utf8(text)),
            ),
            is_dir,
        ) == if is_dir && ((name.len() > 0 && name[0] == '.') || name == seq![
            't',
            'a',
            'r',
            'g',
            'e',
            't',
        ] || name == seq!['n', 'o', 'd', 'e', '_', 'm', 'o', 'd', 'u', 'l', 'e', 's']) {
            Some(true)
        } else {
            None
        },
{
    let texts = above.push(name);
    let rel: PathView = texts.map_values(
        |text: Seq<char>| path::Component::Normal(vstd::utf8::encode_utf8(text)),
    );
    let p = base + rel;
    path::law_texts_of_names(texts);
    assert(p.skip(base.len() as int) =~= rel);
    assert(p.take(base.len() as int) =~= base);
    law_default_rules(base, p, is_dir, Seq::empty());
    assert(texts.last() == name);
    reveal_strlit("target");
    reveal_strlit("node_modules");
    assert("target"@ =~= seq!['t', 'a', 'r', 'g', 'e', 't']);
    assert("node_modules"@ =~= seq!['n', 'o', 'd', 'e', '_', 'm', 'o', 'd', 'u', 'l', 'e', 's']);
}

/// An ignore file is read as Docker reads it exactly if it is named
/// `.dockerignore`, wherever it is.
pub proof fn law_source_flavor(source: SourceView)
    ensures
        source_flavor(source) is Docker <==> match source {
            SourceView::Name(name) => name == seq![
                '.',
                'd',
                'o',
                'c',
                'k',
                'e',
                'r',
                'i',
                'g',
                'n',
                'o',
                'r',
                'e',
            ],
            SourceView::File(p) => p.len() > 0 && p.last() == path::Component::Normal(
                vstd::utf8::encode_utf8(
                    seq!['.', 'd', 'o', 'c', 'k', 'e', 'r', 'i', 'g', 'n', 'o', 'r', 'e'],
                ),
            ),
        },
{
    let docker = seq!['.', 'd', 'o', 'c', 'k', 'e', 'r', 'i', 'g', 'n', 'o', 'r', 'e'];
    reveal_strlit(".dockerignore");
    assert(DOCKERIGNORE@ =~= docker);
    if let SourceView::File(p) = source {
        if p.len() > 0 {
            if let path::Component::Normal(name) = p.last() {
                if vstd::utf8::valid_utf8(name) {
                    vstd::utf8::decode_utf8_encode_utf8(name);
                }
                vstd::utf8::encode_utf8_valid_utf8(docker);
                vstd::utf8::encode_utf8_decode_utf8(docker);
            }
        }
    }
}

/// The file name of a source is the name itself, or the text of the last
/// component of a file's path, if that is a name and has text.
pub proof fn law_source_file_name(source: SourceView, name: Seq<char>)
    ensures
        source_file_name(source) == Some(name) <==> match source {
            SourceView::Name(own) => own == name,
            SourceView::File(p) => p.len() > 0 && p.last() == path::Component::Normal(
                vstd::utf8::encode_utf8(name),
            ),
        },
{
    if let SourceView::File(p) = source {
        if p.len() > 0 {
            if let path::Component::Normal(last) = p.last() {
                if vstd::utf8::valid_utf8(last) {
                    vstd::utf8::decode_utf8_encode_utf8(last);
                }
                vstd::utf8::encode_utf8_valid_utf8(name);
                vstd::utf8::encode_utf8_decode_utf8(name);
            }
        }
    }
}

/// The rules of a file whose path ends in `..` are relative to what stands before
/// that, those of one that ends in `.` to the parent of what stands before, and
/// those of one without a parent to the empty path. The path has no verbatim
/// prefix.
pub proof fn law_file_rules_elsewhere(
    p: PathView,
    last: path::ComponentView,
    text: Seq<char>,
    flavor: Flavor,
)
    requires
        p.len() > 0 ==> !(p[0] matches path::Component::Prefix(prefix) && prefix.len() >= 4
            && prefix[0] == 0x5c && prefix[1] == 0x5c && prefix[2] == 0x3f && prefix[3] == 0x5c),
    ensures
        file_rules(Seq::empty(), text, flavor) == rules_of(text, Seq::empty(), flavor),
        last is RootDir || last is Prefix ==> file_rules(p.push(last), text, flavor) == rules_of(
            text,
            Seq::empty(),
            flavor,
        ),
        file_rules(p.push(path::Component::ParentDir), text, flavor) == rules_of(text, p, flavor),
        p.len() == 0 ==> file_rules(p.push(path::Component::CurDir), text, flavor) == rules_of(
            text,
            p,
            flavor,
        ),
        p.len() > 0 && (p.last() is RootDir || p.last() is Prefix) ==> file_rules(
            p.push(path::Component::CurDir),
            text,
            flavor,
        ) == rules_of(text, Seq::empty(), flavor),
        p.len() > 0 && !(p.last() is RootDir) && !(p.last() is Prefix) ==> file_rules(
            p.push(path::Component::CurDir),
            text,
            flavor,
        ) == rules_of(text, p.drop_last(), flavor),
{
    path::law_without_dot(p, last);
    path::law_without_dot(p, path::Component::ParentDir);
    path::law_without_dot(p, path::Component::CurDir);
    path::law_parent(p, last);
    path::law_parent(p, path::Component::ParentDir);
    path::law_parent(p, path::Component::CurDir);
}

} // verus!
