//! The one directory walk that every bundle operation uses.
//!
//! The rules of the walk stand here; what touches a disk does not. A walk is
//! a chain of steps. Each step says what it needs to know (which paths exist,
//! what an ignore file holds, what a directory lists), takes the answer, and
//! hands out reports and the next step.
//!
//! The layers, lowest precedence first:
//!
//! 1. the default rules: hidden directories, `target`, `node_modules`;
//! 2. each configured source, in order;
//! 3. `.okfignore`, always.
//!
//! Ignore-file names are looked for in every directory entered and in the
//! root's ancestors up to the nearest directory that contains `.git`. Deeper
//! files override shallower ones. Ignored directories are pruned, never
//! entered.
//!
//! An `index.md` is never ignored on its own: every bundle directory has one,
//! so a rule that matches it is overridden, and the walk reports where that
//! happens so that a caller can warn. An `index.md` inside an ignored
//! directory is still skipped with the rest of it.

use vstd::prelude::*;

use crate::ignore::{
    self, IgnoreConfig, IgnoreMatcher, IgnoreRules, IgnoreSource, RulesView, SourceView,
};
use crate::layers::{self, Found, FoundView, LayerView, Layers, RuleText, RuleTextView};
use crate::order::{self, Sortable};
use crate::path::{self, PathBuf, PathView};

verus! {

/// Options for one walk.
#[derive(Clone, Copy, Debug)]
pub struct WalkOptions<'a> {
    /// Extra ignore sources on top of the built-in rules and `.okfignore`.
    pub ignore: &'a IgnoreConfig,
}

impl<'a> WalkOptions<'a> {
    /// Options with the given ignore configuration.
    #[must_use]
    pub fn new(ignore: &'a IgnoreConfig) -> (r: WalkOptions<'a>)
        ensures
            r.ignore == ignore,
    {
        WalkOptions { ignore }
    }
}

/// The name `index.md`.
pub open spec fn index_name() -> Seq<u8> {
    seq![0x69u8, 0x6eu8, 0x64u8, 0x65u8, 0x78u8, 0x2eu8, 0x6du8, 0x64u8]
}

// ---------------------------------------------------------------------------
// What a walk reads and what it reports
// ---------------------------------------------------------------------------

/// What a directory entry is. A symbolic link is neither a file nor a
/// directory, so a walk does not follow it.
#[derive(Clone, Copy, Debug, PartialEq, Eq, Structural)]
pub enum FileKind {
    File,
    Dir,
    Other,
}

/// One entry that a directory lists.
#[derive(Debug)]
pub struct Entry<E> {
    pub name: Vec<u8>,
    /// What the entry is, or the reason why that cannot be known.
    pub kind: Result<FileKind, E>,
}

/// What an [`Entry`] stands for.
pub struct EntryView<E> {
    pub name: Seq<u8>,
    pub kind: Result<FileKind, E>,
}

impl<E> View for Entry<E> {
    type V = EntryView<E>;

    open spec fn view(&self) -> EntryView<E> {
        EntryView { name: self.name@, kind: self.kind }
    }
}

/// Entries go by their names.
impl<E> Sortable for Entry<E> {
    open spec fn le(a: EntryView<E>, b: EntryView<E>) -> bool {
        order::name_le(a.name, b.name)
    }

    proof fn lemma_preorder() {
        order::lemma_name_order();
        let names = |a: Seq<u8>, b: Seq<u8>| order::name_le(a, b);
        let f = |a: EntryView<E>, b: EntryView<E>| Self::le(a, b);
        assert forall|a: EntryView<E>, b: EntryView<E>| #[trigger] f(a, b) || f(b, a) by {
            assert(names(a.name, b.name) || names(b.name, a.name));
        }
        assert forall|a: EntryView<E>, b: EntryView<E>, c: EntryView<E>|
            #[trigger] f(a, b) && #[trigger] f(b, c) implies f(a, c) by {
            assert(names(a.name, b.name) && names(b.name, c.name));
        }
    }

    fn not_after(&self, other: &Entry<E>) -> (r: bool) {
        order::name_not_after(self.name.as_slice(), other.name.as_slice())
    }
}

/// The order of entries.
pub open spec fn entry_order<E>() -> spec_fn(EntryView<E>, EntryView<E>) -> bool {
    order::order::<Entry<E>>()
}

/// One thing that a walk found.
#[derive(Debug, PartialEq, Eq)]
pub enum Report {
    /// An entry that is not ignored.
    Entry(PathBuf, FileKind),
    /// An `index.md` that a rule matches, whether or not the file exists.
    IndexRule(PathBuf),
    /// An ignore file that exists, by absolute path.
    RuleFile(PathBuf),
}

/// What a [`Report`] stands for.
pub enum ReportView {
    Entry(PathView, FileKind),
    IndexRule(PathView),
    RuleFile(PathView),
}

impl View for Report {
    type V = ReportView;

    open spec fn view(&self) -> ReportView {
        match self {
            Report::Entry(path, kind) => ReportView::Entry(path@, *kind),
            Report::IndexRule(path) => ReportView::IndexRule(path@),
            Report::RuleFile(path) => ReportView::RuleFile(path@),
        }
    }
}

/// What a list of reports stands for.
pub open spec fn reports_view(reports: Seq<Report>) -> Seq<ReportView> {
    reports.map_values(|report: Report| report@)
}

/// The reports of some ignore files.
pub open spec fn rule_reports(paths: Seq<PathView>) -> Seq<ReportView> {
    paths.map_values(|p: PathView| ReportView::RuleFile(p))
}

/// The report of an `index.md` that the rules match, if they do. In a directory
/// that is ignored as a whole there is none to report.
pub open spec fn index_reports(
    rules: Seq<RulesView>,
    dir: PathView,
    abs_dir: PathView,
) -> Seq<ReportView> {
    if ignore::ignored(rules, path::child(abs_dir, index_name()), false) && !ignore::ignored(
        rules,
        abs_dir,
        true,
    ) {
        seq![ReportView::IndexRule(path::child(dir, index_name()))]
    } else {
        Seq::empty()
    }
}

/// Whether the rules leave an entry of `abs_dir`: they do not match it, or it
/// is an index file in a directory that is not ignored itself.
pub open spec fn kept(
    rules: Seq<RulesView>,
    abs_dir: PathView,
    name: Seq<u8>,
    kind: FileKind,
) -> bool {
    ||| !(kind is Dir) && name == index_name() && !ignore::ignored(rules, abs_dir, true)
    ||| !ignore::ignored(rules, path::child(abs_dir, name), kind is Dir)
}

// ---------------------------------------------------------------------------
// The steps of a walk
// ---------------------------------------------------------------------------

/// A directory that is being walked.
struct Frame<E> {
    dir: PathBuf,
    abs_dir: PathBuf,
    /// How many layers were pushed for it.
    pushed: usize,
    /// The entries still to come, last one first.
    rest: Vec<Entry<E>>,
}

/// What a frame stands for; the entries still to come are in their order.
pub struct FrameView<E> {
    pub dir: PathView,
    pub abs_dir: PathView,
    pub pushed: nat,
    pub rest: Seq<EntryView<E>>,
}

impl<E> View for Frame<E> {
    type V = FrameView<E>;

    closed spec fn view(&self) -> FrameView<E> {
        FrameView {
            dir: self.dir@,
            abs_dir: self.abs_dir@,
            pushed: self.pushed as nat,
            rest: order::views(self.rest@).reverse(),
        }
    }
}

/// The state of a walk between two steps.
struct Walker<E> {
    abs_root: PathBuf,
    layers: Layers,
    matcher: IgnoreMatcher,
    stack: Vec<Frame<E>>,
}

/// What the state of a walk stands for.
pub struct WalkerView<E> {
    /// The root by absolute path.
    pub root: PathView,
    /// The configured sources.
    pub layers: Seq<LayerView>,
    /// The rule sets in force, lowest precedence first.
    pub rules: Seq<RulesView>,
    /// The directories from the root to the one being walked.
    pub stack: Seq<FrameView<E>>,
}

impl<E> View for Walker<E> {
    type V = WalkerView<E>;

    closed spec fn view(&self) -> WalkerView<E> {
        WalkerView {
            root: self.abs_root@,
            layers: self.layers@,
            rules: self.matcher@,
            stack: order::views(self.stack@),
        }
    }
}

/// A step that needs to know what the ignore files of one of the root's
/// ancestors hold.
pub struct Seeding<E> {
    walker: Walker<E>,
    root: PathBuf,
    /// The ancestors after this one, nearest first.
    below: Vec<PathBuf>,
    abs_dir: PathBuf,
}

/// A step that needs to know what the ignore files of a directory hold that
/// is being entered.
pub struct Entering<E> {
    walker: Walker<E>,
    dir: PathBuf,
    abs_dir: PathBuf,
}

/// A step that needs to know what a directory lists.
pub struct Listing<E> {
    walker: Walker<E>,
    dir: PathBuf,
    abs_dir: PathBuf,
    pushed: usize,
}

/// What a walk needs to know next, or how it ended.
pub enum Step<E> {
    Seed(Seeding<E>),
    Enter(Entering<E>),
    List(Listing<E>),
    Done(Result<(), E>),
}

/// What a [`Step`] stands for.
pub enum StepView<E> {
    Seed { walker: WalkerView<E>, root: PathView, below: Seq<PathView>, dir: PathView },
    Enter { walker: WalkerView<E>, dir: PathView, abs_dir: PathView },
    List { walker: WalkerView<E>, dir: PathView, abs_dir: PathView, pushed: nat },
    Done(Result<(), E>),
}

impl<E> View for Seeding<E> {
    type V = StepView<E>;

    closed spec fn view(&self) -> StepView<E> {
        StepView::Seed {
            walker: self.walker@,
            root: self.root@,
            below: path::paths_view(self.below@),
            dir: self.abs_dir@,
        }
    }
}

impl<E> View for Entering<E> {
    type V = StepView<E>;

    closed spec fn view(&self) -> StepView<E> {
        StepView::Enter { walker: self.walker@, dir: self.dir@, abs_dir: self.abs_dir@ }
    }
}

impl<E> View for Listing<E> {
    type V = StepView<E>;

    closed spec fn view(&self) -> StepView<E> {
        StepView::List {
            walker: self.walker@,
            dir: self.dir@,
            abs_dir: self.abs_dir@,
            pushed: self.pushed as nat,
        }
    }
}

impl<E> View for Step<E> {
    type V = StepView<E>;

    open spec fn view(&self) -> StepView<E> {
        match self {
            Step::Seed(step) => step@,
            Step::Enter(step) => step@,
            Step::List(step) => step@,
            Step::Done(result) => StepView::Done(*result),
        }
    }
}

/// What an answer leads to: some reports, and the next step.
pub struct Outcome<E> {
    pub reports: Seq<ReportView>,
    pub step: StepView<E>,
}

/// The same outcome with some reports in front.
pub open spec fn reported<E>(reports: Seq<ReportView>, outcome: Outcome<E>) -> Outcome<E> {
    Outcome { reports: reports + outcome.reports, step: outcome.step }
}

/// The ignore files that a step needs to know about.
pub open spec fn wanted<E>(step: StepView<E>) -> Seq<PathView> {
    match step {
        StepView::Seed { walker, dir, .. } => layers::probes(
            layers::dir_slots(walker.layers, dir, walker.root),
        ),
        StepView::Enter { walker, abs_dir, .. } => layers::probes(
            layers::dir_slots(walker.layers, abs_dir, walker.root),
        ),
        _ => Seq::empty(),
    }
}

/// The walker with the layers of `dir` pushed.
pub open spec fn layered<E>(
    walker: WalkerView<E>,
    dir: PathView,
    found: Seq<FoundView>,
) -> WalkerView<E> {
    WalkerView {
        rules: walker.rules + layers::slot_rules(
            layers::dir_slots(walker.layers, dir, walker.root),
            found,
        ),
        ..walker
    }
}

/// The step after the ancestors in `below` are still to be seeded, nearest
/// first; the shallowest comes next, and after the nearest the root itself.
pub open spec fn seed_next<E>(
    walker: WalkerView<E>,
    root: PathView,
    below: Seq<PathView>,
) -> StepView<E> {
    if below.len() == 0 {
        StepView::Enter { walker, dir: root, abs_dir: walker.root }
    } else {
        StepView::Seed { walker, root, below: below.drop_last(), dir: below.last() }
    }
}

/// What the contents of an ancestor's ignore files lead to.
pub open spec fn seeded<E>(step: StepView<E>, found: Seq<FoundView>) -> Outcome<E> {
    match step {
        StepView::Seed { walker, root, below, dir } => Outcome {
            reports: rule_reports(layers::present(wanted(step), found)),
            step: seed_next(layered(walker, dir, found), root, below),
        },
        _ => arbitrary(),
    }
}

/// What the contents of a directory's ignore files lead to. The check of the
/// index file does not wait for the listing, so that one that does not exist
/// yet is reported too.
pub open spec fn entered<E>(step: StepView<E>, found: Seq<FoundView>) -> Outcome<E> {
    match step {
        StepView::Enter { walker, dir, abs_dir } => {
            let inside = layered(walker, abs_dir, found);
            Outcome {
                reports: rule_reports(layers::present(wanted(step), found)) + index_reports(
                    inside.rules,
                    dir,
                    abs_dir,
                ),
                step: StepView::List {
                    walker: inside,
                    dir,
                    abs_dir,
                    pushed: (inside.rules.len() - walker.rules.len()) as nat,
                },
            }
        },
        _ => arbitrary(),
    }
}

/// The walker with the first entry of its topmost directory taken.
pub open spec fn entry_taken<E>(walker: WalkerView<E>) -> WalkerView<E> {
    let top = walker.stack.last();
    WalkerView {
        stack: walker.stack.drop_last().push(FrameView { rest: top.rest.skip(1), ..top }),
        ..walker
    }
}

/// The rule sets without the `n` of highest precedence.
pub open spec fn popped(rules: Seq<RulesView>, n: nat) -> Seq<RulesView> {
    if n <= rules.len() {
        rules.take(rules.len() - n)
    } else {
        Seq::empty()
    }
}

/// The walker with its topmost directory left, and the layers pushed for it
/// popped.
pub open spec fn frame_left<E>(walker: WalkerView<E>) -> WalkerView<E> {
    WalkerView {
        rules: popped(walker.rules, walker.stack.last().pushed),
        stack: walker.stack.drop_last(),
        ..walker
    }
}

/// Goes on with the entries at hand until a directory is to be entered or the
/// walk is over.
pub open spec fn advanced<E>(walker: WalkerView<E>) -> Outcome<E>
    decreases walker.stack.len(), walker.stack.last().rest.len(),
{
    if walker.stack.len() == 0 {
        Outcome { reports: Seq::empty(), step: StepView::Done(Ok(())) }
    } else {
        let top = walker.stack.last();
        if top.rest.len() == 0 {
            advanced(frame_left(walker))
        } else {
            let entry = top.rest[0];
            let taken = entry_taken(walker);
            match entry.kind {
                Err(e) => Outcome { reports: Seq::empty(), step: StepView::Done(Err(e)) },
                Ok(kind) => if !kept(walker.rules, top.abs_dir, entry.name, kind) {
                    advanced(taken)
                } else {
                    let here = path::child(top.dir, entry.name);
                    let report = ReportView::Entry(here, kind);
                    if kind is Dir {
                        Outcome {
                            reports: seq![report],
                            step: StepView::Enter {
                                walker: taken,
                                dir: here,
                                abs_dir: path::child(top.abs_dir, entry.name),
                            },
                        }
                    } else {
                        reported(seq![report], advanced(taken))
                    }
                },
            }
        }
    }
}

/// The walker with one more directory to walk.
pub open spec fn frame_entered<E>(
    walker: WalkerView<E>,
    frame: FrameView<E>,
) -> WalkerView<E> {
    WalkerView { stack: walker.stack.push(frame), ..walker }
}

/// What the listing of a directory leads to. Entries are visited in the order
/// of their names.
pub open spec fn listed<E>(
    step: StepView<E>,
    listing: Result<Seq<EntryView<E>>, E>,
) -> Outcome<E> {
    match (step, listing) {
        (StepView::List { walker, dir, abs_dir, pushed }, Ok(entries)) => advanced(
            frame_entered(
                walker,
                FrameView { dir, abs_dir, pushed, rest: order::sorted(entries, entry_order::<E>()) },
            ),
        ),
        (_, Err(e)) => Outcome { reports: Seq::empty(), step: StepView::Done(Err(e)) },
        _ => arbitrary(),
    }
}

/// What the outcome of listing a directory stands for.
pub open spec fn listing_view<E>(
    listing: Result<Vec<Entry<E>>, E>,
) -> Result<Seq<EntryView<E>>, E> {
    match listing {
        Ok(entries) => Ok(order::views(entries@)),
        Err(e) => Err(e),
    }
}

/// Adds the reports of some ignore files.
fn report_rule_files(paths: Vec<PathBuf>) -> (r: Vec<Report>)
    ensures
        reports_view(r@) == rule_reports(path::paths_view(paths@)),
{
    let mut out: Vec<Report> = Vec::new();
    for i in 0..paths.len()
        invariant
            out@.len() == i,
            forall|j: int|
                0 <= j < i ==> (#[trigger] out@[j])@ == ReportView::RuleFile(paths@[j]@),
    {
        out.push(Report::RuleFile(paths[i].clone()));
    }
    assert(reports_view(out@) =~= rule_reports(path::paths_view(paths@)));
    out
}

impl<E> Seeding<E> {
    /// The ignore files to look for, by absolute path. At a path that ends in
    /// `.` there is none.
    pub fn rule_files(&self) -> (r: Vec<PathBuf>)
        ensures
            self@ is Seed,
            path::paths_view(r@) == wanted(self@),
    {
        self.walker.layers.rule_files(&self.abs_dir, &self.walker.abs_root)
    }

    /// Goes on with what came of looking for each of those files.
    pub fn rules_read(self, found: Vec<Found>) -> (r: (Vec<Report>, Step<E>))
        requires
            found@.len() == wanted(self@).len(),
        ensures
            seeded(self@, layers::found_view(found@)) == (Outcome {
                reports: reports_view(r.0@),
                step: r.1@,
            }),
    {
        let files = self.rule_files();
        let reports = report_rule_files(layers::present_files(files, &found));
        let mut walker = self.walker;
        walker.layers.push_dir_layers(&mut walker.matcher, &self.abs_dir, &walker.abs_root, &found);
        let step = seed_step(walker, self.root, self.below);
        (reports, step)
    }
}

/// The step at which the ancestors in `below` are still to be seeded, nearest
/// first.
fn seed_step<E>(walker: Walker<E>, root: PathBuf, below: Vec<PathBuf>) -> (r: Step<E>)
    ensures
        r@ == seed_next(walker@, root@, path::paths_view(below@)),
{
    let mut rest = below;
    match rest.pop() {
        None => {
            let abs_dir = walker.abs_root.clone();
            Step::Enter(Entering { walker, dir: root, abs_dir })
        },
        Some(abs_dir) => {
            assert(path::paths_view(rest@) =~= path::paths_view(below@).drop_last());
            Step::Seed(Seeding { walker, root, below: rest, abs_dir })
        },
    }
}

impl<E> Entering<E> {
    /// The ignore files to look for, by absolute path. At a path that ends in
    /// `.` there is none.
    pub fn rule_files(&self) -> (r: Vec<PathBuf>)
        ensures
            self@ is Enter,
            path::paths_view(r@) == wanted(self@),
    {
        self.walker.layers.rule_files(&self.abs_dir, &self.walker.abs_root)
    }

    /// Goes on with what came of looking for each of those files.
    pub fn rules_read(self, found: Vec<Found>) -> (r: (Vec<Report>, Listing<E>))
        requires
            found@.len() == wanted(self@).len(),
        ensures
            entered(self@, layers::found_view(found@)) == (Outcome {
                reports: reports_view(r.0@),
                step: r.1@,
            }),
    {
        let files = self.rule_files();
        let mut reports = report_rule_files(layers::present_files(files, &found));
        let mut walker = self.walker;
        let pushed = walker.layers.push_dir_layers(
            &mut walker.matcher,
            &self.abs_dir,
            &walker.abs_root,
            &found,
        );
        let index: [u8; 8] = [0x69, 0x6e, 0x64, 0x65, 0x78, 0x2e, 0x6d, 0x64];
        assert(index@ =~= index_name());
        let ghost before = reports_view(reports@);
        if walker.matcher.is_ignored(&self.abs_dir.child(index.as_slice()), false)
            && !walker.matcher.is_ignored(&self.abs_dir, true) {
            reports.push(Report::IndexRule(self.dir.child(index.as_slice())));
        }
        assert(reports_view(reports@) =~= before + index_reports(
            walker@.rules,
            self.dir@,
            self.abs_dir@,
        ));
        (reports, Listing { walker, dir: self.dir, abs_dir: self.abs_dir, pushed })
    }
}

/// Pops the `n` layers of highest precedence.
fn pop_layers(matcher: &mut IgnoreMatcher, n: usize)
    ensures
        final(matcher)@ == popped(old(matcher)@, n as nat),
{
    let ghost start = matcher@;
    assert(start.take(start.len() as int) =~= start);
    for i in 0..n
        invariant
            matcher@ == popped(start, i as nat),
    {
        matcher.pop();
        assert(matcher@ =~= popped(start, (i + 1) as nat));
    }
}

/// Goes on with the entries at hand until a directory is to be entered or the
/// walk is over.
fn advance<E>(walker: Walker<E>) -> (r: (Vec<Report>, Step<E>))
    ensures
        advanced(walker@) == (Outcome { reports: reports_view(r.0@), step: r.1@ }),
{
    let ghost whole = advanced(walker@);
    let mut now = walker;
    let mut reports: Vec<Report> = Vec::new();
    let index: [u8; 8] = [0x69, 0x6e, 0x64, 0x65, 0x78, 0x2e, 0x6d, 0x64];
    proof {
        assert(index@ =~= index_name());
        assert(reports_view(reports@) + whole.reports =~= whole.reports);
    }
    loop
        invariant
            whole == advanced(walker@),
            index@ == index_name(),
            whole == reported(reports_view(reports@), advanced(now@)),
        decreases
                now.stack@.len(),
                if now.stack@.len() > 0 {
                    now.stack@.last().rest@.len()
                } else {
                    0
                },
    {
        let ghost before = now@;
        let ghost seen = reports_view(reports@);
        match now.stack.pop() {
            None => {
                assert(seen + Seq::<ReportView>::empty() =~= seen);
                return (reports, Step::Done(Ok(())));
            },
            Some(mut frame) => {
                let ghost top = frame@;
                proof {
                    assert(before.stack.last() == top);
                    assert(order::views(now.stack@) =~= before.stack.drop_last());
                }
                let ghost all = order::views(frame.rest@);
                match frame.rest.pop() {
                    None => {
                        assert(top.rest =~= Seq::empty());
                        pop_layers(&mut now.matcher, frame.pushed);
                        assert(now@ == frame_left(before));
                    },
                    Some(entry) => {
                        proof {
                            assert(order::views(frame.rest@) =~= all.drop_last());
                            assert(all.drop_last().reverse() =~= all.reverse().skip(1));
                            assert(top.rest[0] == entry@);
                        }
                        let ghost rest_view = FrameView { rest: top.rest.skip(1), ..top };
                        assert(frame@ == rest_view);
                        match entry.kind {
                            Err(e) => {
                                assert(seen + Seq::<ReportView>::empty() =~= seen);
                                return (reports, Step::Done(Err(e)));
                            },
                            Ok(kind) => {
                                let name = entry.name.as_slice();
                                let is_dir = matches!(kind, FileKind::Dir);
                                let is_index = !is_dir && path::same_bytes(
                                    name,
                                    index.as_slice(),
                                ) && !now.matcher.is_ignored(&frame.abs_dir, true);
                                let abs_path = frame.abs_dir.child(name);
                                if is_index || !now.matcher.is_ignored(&abs_path, is_dir) {
                                    let here = frame.dir.child(name);
                                    let ghost report = ReportView::Entry(here@, kind);
                                    reports.push(Report::Entry(here.clone(), kind));
                                    proof {
                                        assert(reports_view(reports@) =~= seen.push(report));
                                        assert(seen.push(report) =~= seen + seq![report]);
                                    }
                                    now.stack.push(frame);
                                    assert(now@.stack =~= entry_taken(before).stack);
                                    if is_dir {
                                        return (
                                            reports,
                                            Step::Enter(
                                                Entering { walker: now, dir: here, abs_dir: abs_path },
                                            ),
                                        );
                                    }
                                    proof {
                                        let after = advanced(now@).reports;
                                        assert(seen + (seq![report] + after) =~= seen.push(report)
                                            + after);
                                    }
                                } else {
                                    now.stack.push(frame);
                                    assert(now@.stack =~= entry_taken(before).stack);
                                }
                            },
                        }
                    },
                }
            },
        }
    }
}

impl<E> Listing<E> {
    /// The directory to list, by the path that it is reported under.
    pub fn dir(&self) -> (r: &PathBuf)
        ensures
            self@ matches StepView::List { dir, .. } && r@ == dir,
    {
        &self.dir
    }

    /// Goes on with what the directory lists, in any order, or with the
    /// reason why it cannot be listed.
    pub fn listed(self, listing: Result<Vec<Entry<E>>, E>) -> (r: (Vec<Report>, Step<E>))
        ensures
            listed(self@, listing_view(listing)) == (Outcome {
                reports: reports_view(r.0@),
                step: r.1@,
            }),
    {
        match listing {
            Err(e) => {
                let reports: Vec<Report> = Vec::new();
                assert(reports_view(reports@) =~= Seq::empty());
                (reports, Step::Done(Err(e)))
            },
            Ok(entries) => {
                let rest = order::reversed(order::sort(entries));
                proof {
                    let names = order::sorted(order::views(entries@), entry_order::<E>());
                    assert(names.reverse().reverse() =~= names);
                }
                let mut walker = self.walker;
                let ghost before = walker@;
                let frame = Frame {
                    dir: self.dir,
                    abs_dir: self.abs_dir,
                    pushed: self.pushed,
                    rest,
                };
                let ghost top = frame@;
                walker.stack.push(frame);
                assert(walker@.stack =~= before.stack.push(top));
                advance(walker)
            },
        }
    }
}

// ---------------------------------------------------------------------------
// The beginning of a walk
// ---------------------------------------------------------------------------

/// The beginning of a walk: it needs to know where the repository is that the
/// root lies in.
pub struct Locating {
    root: PathBuf,
    abs_root: PathBuf,
    sources: Vec<IgnoreSource>,
    main: u8,
}

/// What a [`Locating`] stands for.
pub struct LocatingView {
    pub root: PathView,
    pub abs_root: PathView,
    pub sources: Seq<SourceView>,
    /// The main path separator, at which ignore-file names are cut.
    pub main: u8,
}

impl View for Locating {
    type V = LocatingView;

    closed spec fn view(&self) -> LocatingView {
        LocatingView {
            root: self.root@,
            abs_root: self.abs_root@,
            sources: ignore::sources_view(self.sources@),
            main: self.main,
        }
    }
}

/// A walk that needs to know what the explicit ignore files hold.
pub struct Sourcing {
    root: PathBuf,
    abs_root: PathBuf,
    sources: Vec<IgnoreSource>,
    main: u8,
    ancestors: Vec<PathBuf>,
}

/// What a [`Sourcing`] stands for.
pub struct SourcingView {
    pub root: PathView,
    pub abs_root: PathView,
    pub sources: Seq<SourceView>,
    pub main: u8,
    /// The ancestors that lie in the root's repository, nearest first.
    pub ancestors: Seq<PathView>,
}

impl View for Sourcing {
    type V = SourcingView;

    closed spec fn view(&self) -> SourcingView {
        SourcingView {
            root: self.root@,
            abs_root: self.abs_root@,
            sources: ignore::sources_view(self.sources@),
            main: self.main,
            ancestors: path::paths_view(self.ancestors@),
        }
    }
}

/// The explicit files that could be read.
pub open spec fn files_read<E>(reads: Seq<Result<RuleTextView, E>>) -> Seq<PathView>
    decreases reads.len(),
{
    if reads.len() == 0 {
        Seq::empty()
    } else {
        let before = files_read(reads.drop_last());
        match reads.last() {
            Ok(file) => before.push(file.path),
            Err(_) => before,
        }
    }
}

/// The state in which the ancestors are seeded: only the default rules are in
/// force.
pub open spec fn fresh<E>(abs_root: PathView, layers: Seq<LayerView>) -> WalkerView<E> {
    WalkerView {
        root: abs_root,
        layers,
        rules: seq![ignore::builtin_rules(abs_root)],
        stack: Seq::empty(),
    }
}

/// What the contents of the explicit files lead to. One that could not be
/// read ends the walk.
pub open spec fn sourced<E>(
    start: SourcingView,
    reads: Seq<Result<RuleTextView, E>>,
) -> Outcome<E> {
    match layers::source_layers(
        start.sources,
        reads,
        start.abs_root,
        start.ancestors,
        start.main,
    ) {
        Err(e) => Outcome { reports: Seq::empty(), step: StepView::Done(Err(e)) },
        Ok(layers) => Outcome {
            reports: rule_reports(files_read(reads)),
            step: seed_next(fresh(start.abs_root, layers), start.root, start.ancestors),
        },
    }
}

impl Locating {
    /// Begins a walk of `root`, whose absolute path is `absolute_root`.
    pub fn new(root: PathBuf, absolute_root: &PathBuf, opts: &WalkOptions<'_>) -> (r: Locating)
        ensures
            r@.root == root@,
            r@.abs_root == path::resolve(absolute_root@),
            r@.sources == opts.ignore@,
            r@.main == 0x2f || r@.main == 0x5c,
    {
        Self::new_with(root, absolute_root, opts, ignore::main_separator())
    }

    /// Begins a walk on a system whose main path separator is `main`.
    pub fn new_with(
        root: PathBuf,
        absolute_root: &PathBuf,
        opts: &WalkOptions<'_>,
        main: u8,
    ) -> (r: Locating)
        ensures
            r@ == (LocatingView {
                root: root@,
                abs_root: path::resolve(absolute_root@),
                sources: opts.ignore@,
                main,
            }),
    {
        let config = opts.ignore.clone();
        Locating { root, abs_root: path::absolute(absolute_root), sources: config.sources, main }
    }

    /// The paths of which it matters whether they exist.
    pub fn marks(&self) -> (r: Vec<PathBuf>)
        ensures
            path::paths_view(r@) == layers::repository_marks(self@.abs_root),
    {
        layers::git_marks(&self.abs_root)
    }

    /// Goes on with whether each of those paths exists.
    pub fn marked(self, marked: Vec<bool>) -> (r: Sourcing)
        requires
            marked@.len() == layers::repository_marks(self@.abs_root).len(),
        ensures
            r@ == (SourcingView {
                root: self@.root,
                abs_root: self@.abs_root,
                sources: self@.sources,
                main: self@.main,
                ancestors: layers::repository_ancestors(self@.abs_root, marked@),
            }),
    {
        let ancestors = layers::ancestor_dirs(&self.abs_root, &marked);
        Sourcing {
            root: self.root,
            abs_root: self.abs_root,
            sources: self.sources,
            main: self.main,
            ancestors,
        }
    }
}

/// The explicit files that could be read.
fn read_files<E>(reads: &Vec<Result<RuleText, E>>) -> (r: Vec<PathBuf>)
    ensures
        path::paths_view(r@) == files_read(layers::reads_view(reads@)),
{
    let ghost all = layers::reads_view(reads@);
    let mut out: Vec<PathBuf> = Vec::new();
    assert(path::paths_view(out@) =~= Seq::empty());
    for i in 0..reads.len()
        invariant
            all == layers::reads_view(reads@),
            path::paths_view(out@) == files_read(all.take(i as int)),
    {
        let ghost before = path::paths_view(out@);
        assert(all.take(i + 1).drop_last() =~= all.take(i as int));
        assert(all.take(i + 1).last() == layers::read_view(reads@[i as int]));
        if let Ok(file) = &reads[i] {
            out.push(file.path.clone());
            assert(path::paths_view(out@) =~= before.push(file.path@));
        }
    }
    assert(all.take(all.len() as int) =~= all);
    out
}

impl Sourcing {
    /// The explicit ignore files to read, as they were configured.
    pub fn files(&self) -> (r: Vec<PathBuf>)
        ensures
            path::paths_view(r@) == layers::explicit_paths(self@.sources),
    {
        layers::explicit_files(&self.sources)
    }

    /// Goes on with the outcome of reading each of those files.
    pub fn files_read<E>(self, reads: Vec<Result<RuleText, E>>) -> (r: (Vec<Report>, Step<E>))
        requires
            reads@.len() == layers::explicit_paths(self@.sources).len(),
        ensures
            sourced(self@, layers::reads_view(reads@)) == (Outcome {
                reports: reports_view(r.0@),
                step: r.1@,
            }),
    {
        let files = read_files(&reads);
        match Layers::read(&self.sources, reads, &self.abs_root, &self.ancestors, self.main) {
            Err(e) => {
                let reports: Vec<Report> = Vec::new();
                assert(reports_view(reports@) =~= Seq::empty());
                (reports, Step::Done(Err(e)))
            },
            Ok(layers) => {
                let mut matcher = IgnoreMatcher::new();
                matcher.push(IgnoreRules::builtin(self.abs_root.clone()));
                let walker = Walker { abs_root: self.abs_root, layers, matcher, stack: Vec::new() };
                proof {
                    assert(walker@.stack =~= Seq::empty());
                    assert(walker@.rules =~= seq![ignore::builtin_rules(self.abs_root@)]);
                }
                (report_rule_files(files), seed_step(walker, self.root, self.ancestors))
            },
        }
    }
}

// ---------------------------------------------------------------------------
// What the reports of a walk add up to
// ---------------------------------------------------------------------------

/// The files among the reported entries whose extension is `md`, in the order
/// of the reports.
pub open spec fn markdown_files(reports: Seq<ReportView>) -> Seq<PathView>
    decreases reports.len(),
{
    if reports.len() == 0 {
        Seq::empty()
    } else {
        let before = markdown_files(reports.drop_last());
        match reports.last() {
            ReportView::Entry(p, kind) => if kind is File && path::is_markdown(p) {
                before.push(p)
            } else {
                before
            },
            _ => before,
        }
    }
}

/// The index files that a rule matches, in the order of the reports.
pub open spec fn index_rules(reports: Seq<ReportView>) -> Seq<PathView>
    decreases reports.len(),
{
    if reports.len() == 0 {
        Seq::empty()
    } else {
        let before = index_rules(reports.drop_last());
        match reports.last() {
            ReportView::IndexRule(p) => before.push(p),
            _ => before,
        }
    }
}

/// The ignore files that exist, in the order of the reports.
pub open spec fn rule_files(reports: Seq<ReportView>) -> Seq<PathView>
    decreases reports.len(),
{
    if reports.len() == 0 {
        Seq::empty()
    } else {
        let before = rule_files(reports.drop_last());
        match reports.last() {
            ReportView::RuleFile(p) => before.push(p),
            _ => before,
        }
    }
}

/// The order of paths.
pub open spec fn path_order() -> spec_fn(PathView, PathView) -> bool {
    order::order::<PathBuf>()
}

/// The reported `*.md` files, in the order of the reports.
pub fn reported_markdown(reports: &Vec<Report>) -> (r: Vec<PathBuf>)
    ensures
        path::paths_view(r@) == markdown_files(reports_view(reports@)),
{
    let ghost all = reports_view(reports@);
    let mut out: Vec<PathBuf> = Vec::new();
    assert(path::paths_view(out@) =~= Seq::empty());
    for i in 0..reports.len()
        invariant
            all == reports_view(reports@),
            path::paths_view(out@) == markdown_files(all.take(i as int)),
    {
        let ghost before = path::paths_view(out@);
        assert(all.take(i + 1).drop_last() =~= all.take(i as int));
        assert(all.take(i + 1).last() == reports@[i as int]@);
        if let Report::Entry(p, kind) = &reports[i] {
            if matches!(kind, FileKind::File) && p.is_markdown() {
                out.push(p.clone());
                assert(path::paths_view(out@) =~= before.push(p@));
            }
        }
    }
    assert(all.take(all.len() as int) =~= all);
    out
}

/// The reported ignore files, in the order of the reports.
pub fn reported_rule_files(reports: &Vec<Report>) -> (r: Vec<PathBuf>)
    ensures
        path::paths_view(r@) == rule_files(reports_view(reports@)),
{
    let ghost all = reports_view(reports@);
    let mut out: Vec<PathBuf> = Vec::new();
    assert(path::paths_view(out@) =~= Seq::empty());
    for i in 0..reports.len()
        invariant
            all == reports_view(reports@),
            path::paths_view(out@) == rule_files(all.take(i as int)),
    {
        let ghost before = path::paths_view(out@);
        assert(all.take(i + 1).drop_last() =~= all.take(i as int));
        assert(all.take(i + 1).last() == reports@[i as int]@);
        if let Report::RuleFile(p) = &reports[i] {
            out.push(p.clone());
            assert(path::paths_view(out@) =~= before.push(p@));
        }
    }
    assert(all.take(all.len() as int) =~= all);
    out
}

/// Every `*.md` file that a walk reported, sorted by path.
pub fn walk_markdown(reports: &Vec<Report>) -> (r: Vec<PathBuf>)
    ensures
        path::paths_view(r@) == order::sorted(
            markdown_files(reports_view(reports@)),
            path_order(),
        ),
{
    let files = reported_markdown(reports);
    assert(order::views(files@) =~= path::paths_view(files@));
    let out = order::sort(files);
    assert(order::views(out@) =~= path::paths_view(out@));
    out
}

/// The `index.md` paths that an ignore rule matches, sorted.
///
/// The walk keeps those files anyway, so each rule listed here has no effect.
/// A path is listed whether or not the file exists yet. Directories that the
/// rules exclude are not entered, so their index files are neither kept nor
/// listed.
pub fn ignored_index_files(reports: &Vec<Report>) -> (r: Vec<PathBuf>)
    ensures
        path::paths_view(r@) == order::sorted(index_rules(reports_view(reports@)), path_order()),
{
    let ghost all = reports_view(reports@);
    let mut files: Vec<PathBuf> = Vec::new();
    assert(path::paths_view(files@) =~= Seq::empty());
    for i in 0..reports.len()
        invariant
            all == reports_view(reports@),
            path::paths_view(files@) == index_rules(all.take(i as int)),
    {
        let ghost before = path::paths_view(files@);
        assert(all.take(i + 1).drop_last() =~= all.take(i as int));
        assert(all.take(i + 1).last() == reports@[i as int]@);
        if let Report::IndexRule(p) = &reports[i] {
            files.push(p.clone());
            assert(path::paths_view(files@) =~= before.push(p@));
        }
    }
    assert(all.take(all.len() as int) =~= all);
    assert(order::views(files@) =~= path::paths_view(files@));
    let out = order::sort(files);
    assert(order::views(out@) =~= path::paths_view(out@));
    out
}

// ---------------------------------------------------------------------------
// Laws
// ---------------------------------------------------------------------------

/// Leaving a directory pops exactly the layers that entering it pushed.
pub proof fn law_layers_restored<E>(
    walker: WalkerView<E>,
    dir: PathView,
    abs_dir: PathView,
    found: Seq<FoundView>,
)
    ensures
        entered(StepView::Enter { walker, dir, abs_dir }, found).step matches StepView::List {
            walker: inside,
            pushed,
            ..
        } && popped(inside.rules, pushed) == walker.rules,
{
    let inside = layered(walker, abs_dir, found);
    let pushed = (inside.rules.len() - walker.rules.len()) as nat;
    assert(popped(inside.rules, pushed) =~= walker.rules);
}

/// The list of markdown files is sorted by path, and names each reported file
/// with the extension `md` as often as it was reported, and nothing else.
pub proof fn law_markdown_list(reports: Seq<ReportView>, p: PathView)
    ensures
        ({
            let list = order::sorted(markdown_files(reports), path_order());
            &&& order::is_sorted(list, path_order())
            &&& list.to_multiset() == markdown_files(reports).to_multiset()
            &&& list.contains(p) <==> path::is_markdown(p) && reports.contains(
                ReportView::Entry(p, FileKind::File),
            )
            &&& list.contains(p) <==> markdown_files(reports).contains(p)
        }),
{
    let files = markdown_files(reports);
    let list = order::sorted(files, path_order());
    lemma_sorted_paths(files, p);
    lemma_markdown_contains(reports, p);
}

proof fn lemma_sorted_paths(files: Seq<PathView>, p: PathView)
    ensures
        order::is_sorted(order::sorted(files, path_order()), path_order()),
        order::sorted(files, path_order()).to_multiset() == files.to_multiset(),
        order::sorted(files, path_order()).contains(p) <==> files.contains(p),
{
    broadcast use vstd::seq_lib::group_to_multiset_ensures;

    PathBuf::lemma_preorder();
    order::lemma_sorted(files, path_order());
    let list = order::sorted(files, path_order());
    assert(list.contains(p) <==> list.to_multiset().count(p) > 0);
    assert(files.contains(p) <==> files.to_multiset().count(p) > 0);
}

proof fn lemma_markdown_contains(reports: Seq<ReportView>, p: PathView)
    ensures
        markdown_files(reports).contains(p) <==> path::is_markdown(p) && reports.contains(
            ReportView::Entry(p, FileKind::File),
        ),
    decreases reports.len(),
{
    if reports.len() > 0 {
        let front = reports.drop_last();
        lemma_markdown_contains(front, p);
        assert(reports =~= front.push(reports.last()));
        lemma_push_contains(front, reports.last(), ReportView::Entry(p, FileKind::File));
        if let ReportView::Entry(q, kind) = reports.last() {
            lemma_push_contains(markdown_files(front), q, p);
            assert(kind is File ==> kind == FileKind::File);
        }
    }
}

proof fn lemma_push_contains<T>(s: Seq<T>, x: T, y: T)
    ensures
        s.push(x).contains(y) <==> s.contains(y) || x == y,
{
    if s.contains(y) {
        let i = choose|i: int| 0 <= i < s.len() && s[i] == y;
        assert(s.push(x)[i] == y);
    }
    assert(s.push(x)[s.len() as int] == x);
    if s.push(x).contains(y) && x != y {
        let i = choose|i: int| 0 <= i < s.push(x).len() && s.push(x)[i] == y;
        assert(s[i] == y);
    }
}

/// The list of ignore files names exactly those that were reported.
pub proof fn law_rule_file_list(reports: Seq<ReportView>, p: PathView)
    ensures
        rule_files(reports).contains(p) <==> reports.contains(ReportView::RuleFile(p)),
    decreases reports.len(),
{
    if reports.len() > 0 {
        let front = reports.drop_last();
        law_rule_file_list(front, p);
        assert(reports =~= front.push(reports.last()));
        lemma_push_contains(front, reports.last(), ReportView::RuleFile(p));
        if let ReportView::RuleFile(q) = reports.last() {
            lemma_push_contains(rule_files(front), q, p);
        }
    }
}

/// The list of index files that a rule matches is sorted by path, and names
/// each of them as often as it was reported, and nothing else.
pub proof fn law_index_list(reports: Seq<ReportView>, p: PathView)
    ensures
        ({
            let list = order::sorted(index_rules(reports), path_order());
            &&& order::is_sorted(list, path_order())
            &&& list.to_multiset() == index_rules(reports).to_multiset()
            &&& list.contains(p) <==> reports.contains(ReportView::IndexRule(p))
        }),
{
    lemma_sorted_paths(index_rules(reports), p);
    lemma_index_contains(reports, p);
}

proof fn lemma_index_contains(reports: Seq<ReportView>, p: PathView)
    ensures
        index_rules(reports).contains(p) <==> reports.contains(ReportView::IndexRule(p)),
    decreases reports.len(),
{
    if reports.len() > 0 {
        let front = reports.drop_last();
        lemma_index_contains(front, p);
        assert(reports =~= front.push(reports.last()));
        lemma_push_contains(front, reports.last(), ReportView::IndexRule(p));
        if let ReportView::IndexRule(q) = reports.last() {
            lemma_push_contains(index_rules(front), q, p);
        }
    }
}

/// An ignored directory is never entered: whatever a directory lists, the next
/// directory that is entered is one that the rules in force leave.
pub proof fn law_ignored_directory_not_entered<E>(
    step: StepView<E>,
    listing: Result<Seq<EntryView<E>>, E>,
)
    requires
        step is List,
    ensures
        listed(step, listing).step matches StepView::Enter { walker, abs_dir, .. }
            ==> !ignore::ignored(walker.rules, abs_dir, true),
{
    if let StepView::List { walker, dir, abs_dir, pushed } = step {
        if let Ok(entries) = listing {
            let frame = FrameView {
                dir,
                abs_dir,
                pushed,
                rest: order::sorted(entries, entry_order::<E>()),
            };
            lemma_advanced_enters_kept(frame_entered(walker, frame));
        }
    }
}

proof fn lemma_advanced_enters_kept<E>(walker: WalkerView<E>)
    ensures
        advanced(walker).step matches StepView::Enter { walker: inner, abs_dir, .. }
            ==> !ignore::ignored(inner.rules, abs_dir, true),
    decreases walker.stack.len(), walker.stack.last().rest.len(),
{
    if walker.stack.len() > 0 {
        let top = walker.stack.last();
        if top.rest.len() == 0 {
            lemma_advanced_enters_kept(frame_left(walker));
        } else if let Ok(kind) = top.rest[0].kind {
            if !kept(walker.rules, top.abs_dir, top.rest[0].name, kind) || !(kind is Dir) {
                lemma_advanced_enters_kept(entry_taken(walker));
            }
        }
    }
}

/// Whether no two different entries have the same name.
pub open spec fn distinct_names<E>(entries: Seq<EntryView<E>>) -> bool {
    forall|i: int, j: int|
        0 <= i < entries.len() && 0 <= j < entries.len() && (#[trigger] entries[i]).name == (
        #[trigger] entries[j]).name ==> entries[i] == entries[j]
}

/// The order in which a directory lists its entries does not matter.
pub proof fn law_listing_order<E>(
    step: StepView<E>,
    entries: Seq<EntryView<E>>,
    shuffled: Seq<EntryView<E>>,
)
    requires
        step is List,
        entries.to_multiset() == shuffled.to_multiset(),
        distinct_names(entries),
    ensures
        listed(step, Ok::<Seq<EntryView<E>>, E>(entries)) == listed(
            step,
            Ok::<Seq<EntryView<E>>, E>(shuffled),
        ),
{
    let le = entry_order::<E>();
    Entry::<E>::lemma_preorder();
    order::lemma_name_order();
    let names = |a: Seq<u8>, b: Seq<u8>| order::name_le(a, b);
    assert forall|i: int, j: int|
        0 <= i < entries.len() && 0 <= j < entries.len() && #[trigger] le(entries[i], entries[j])
            && le(entries[j], entries[i]) implies entries[i] == entries[j] by {
        assert(names(entries[i].name, entries[j].name) && names(entries[j].name, entries[i].name));
    }
    order::law_one_order(entries, shuffled, le);
}

/// What is listed from some reports is listed report by report, in their order:
/// each Markdown file, each index file that a rule matches and each ignore file.
/// Nothing else is listed, a directory no more than what is neither it nor a file.
pub proof fn law_one_more_report(reports: Seq<ReportView>, report: ReportView)
    ensures
        markdown_files(Seq::empty()) == Seq::<PathView>::empty(),
        index_rules(Seq::empty()) == Seq::<PathView>::empty(),
        rule_files(Seq::empty()) == Seq::<PathView>::empty(),
        markdown_files(reports.push(report)) == match report {
            ReportView::Entry(p, FileKind::File) => if path::is_markdown(p) {
                markdown_files(reports).push(p)
            } else {
                markdown_files(reports)
            },
            _ => markdown_files(reports),
        },
        index_rules(reports.push(report)) == match report {
            ReportView::IndexRule(p) => index_rules(reports).push(p),
            _ => index_rules(reports),
        },
        rule_files(reports.push(report)) == match report {
            ReportView::RuleFile(p) => rule_files(reports).push(p),
            _ => rule_files(reports),
        },
{
    assert(reports.push(report).drop_last() =~= reports);
}

/// In the list of Markdown files, and in that of index files that a rule matches,
/// no path stands behind one that comes after it.
pub proof fn law_lists_in_order(reports: Seq<ReportView>, i: int, j: int)
    ensures
        ({
            let list = order::sorted(markdown_files(reports), path_order());
            0 <= i < j < list.len() ==> order::path_le(list[i], list[j])
        }),
        ({
            let list = order::sorted(index_rules(reports), path_order());
            0 <= i < j < list.len() ==> order::path_le(list[i], list[j])
        }),
{
    PathBuf::lemma_preorder();
    let files = markdown_files(reports);
    let indexes = index_rules(reports);
    order::lemma_sorted(files, path_order());
    order::lemma_sorted(indexes, path_order());
    let list = order::sorted(files, path_order());
    if 0 <= i < j < list.len() {
        assert(path_order()(list[i], list[j]));
    }
    let list = order::sorted(indexes, path_order());
    if 0 <= i < j < list.len() {
        assert(path_order()(list[i], list[j]));
    }
}

} // verus!
