//! What a walk of a whole disk reports.
//!
//! [`Disk`] is a disk that does not change: an answer to every question that a
//! walk can ask. [`walk`] says, directory by directory, what a walk of it
//! reports. The laws at the end say that the steps of [`crate::walk`] report
//! exactly that.

use vstd::prelude::*;

use crate::ignore::{self, RulesView, SourceView};
use crate::layers::{self, FoundView, LayerView, RuleTextView};
use crate::order;
use crate::path::{self, PathView};
use crate::pattern::Flavor;
use crate::walk::{
    self, EntryView, FrameView, Outcome, ReportView, SourcingView, StepView, WalkerView,
};

verus! {

/// The answers to all questions that a walk can ask.
#[verifier::reject_recursive_types(E)]
pub struct Disk<E> {
    /// The main path separator of the system that the disk belongs to.
    pub separator: u8,
    /// The absolute path of a path.
    pub absolute: spec_fn(PathView) -> Result<PathView, E>,
    /// Whether there is anything at a path.
    pub exists: spec_fn(PathView) -> bool,
    /// The text of a file.
    pub read: spec_fn(PathView) -> Result<Seq<char>, E>,
    /// What comes of looking for an ignore file.
    pub find: spec_fn(PathView) -> FoundView,
    /// What a directory lists.
    pub list: spec_fn(PathView) -> Result<Seq<EntryView<E>>, E>,
}

/// What a walk has reported, and how it ended; it has no end where it went
/// deeper than it was followed.
pub struct Walked<E> {
    pub reports: Seq<ReportView>,
    pub end: Option<Result<(), E>>,
}

/// A walk that is over without a report.
pub open spec fn ended<E>(result: Result<(), E>) -> Walked<E> {
    Walked { reports: Seq::empty(), end: Some(result) }
}

/// A walk with some reports in front.
pub open spec fn after<E>(reports: Seq<ReportView>, walked: Walked<E>) -> Walked<E> {
    Walked { reports: reports + walked.reports, end: walked.end }
}

/// One walk, and if it went well a second one.
pub open spec fn and_then<E>(first: Walked<E>, second: Walked<E>) -> Walked<E> {
    if first.end == Some(Ok::<(), E>(())) {
        after(first.reports, second)
    } else {
        first
    }
}

/// What stays the same throughout a walk: the root by absolute path, and the
/// configured sources.
pub struct Setup {
    pub root: PathView,
    pub layers: Seq<LayerView>,
}

/// What comes of looking for each of some ignore files.
pub open spec fn looked_for<E>(disk: Disk<E>, paths: Seq<PathView>) -> Seq<FoundView> {
    paths.map_values(|p: PathView| (disk.find)(p))
}

/// The ignore files of a directory.
pub open spec fn dir_files(setup: Setup, abs_dir: PathView) -> Seq<PathView> {
    layers::probes(layers::dir_slots(setup.layers, abs_dir, setup.root))
}

/// The ignore files of a directory that exist.
pub open spec fn dir_reports<E>(disk: Disk<E>, setup: Setup, abs_dir: PathView) -> Seq<ReportView> {
    let files = dir_files(setup, abs_dir);
    walk::rule_reports(layers::present(files, looked_for(disk, files)))
}

/// The rule sets in force in a directory, given those outside it.
pub open spec fn dir_rules<E>(
    disk: Disk<E>,
    setup: Setup,
    rules: Seq<RulesView>,
    abs_dir: PathView,
) -> Seq<RulesView> {
    rules + layers::slot_rules(
        layers::dir_slots(setup.layers, abs_dir, setup.root),
        looked_for(disk, dir_files(setup, abs_dir)),
    )
}

/// What a walk of the directory `dir` reports, given the rule sets in force
/// outside it, followed down at most `depth` levels.
pub open spec fn walk_dir<E>(
    disk: Disk<E>,
    setup: Setup,
    rules: Seq<RulesView>,
    dir: PathView,
    abs_dir: PathView,
    depth: nat,
) -> Walked<E>
    decreases depth, 0nat,
{
    if depth == 0 {
        Walked { reports: Seq::empty(), end: None }
    } else {
        let inside = dir_rules(disk, setup, rules, abs_dir);
        after(
            dir_reports(disk, setup, abs_dir) + walk::index_reports(inside, dir, abs_dir),
            match (disk.list)(dir) {
                Err(e) => ended(Err(e)),
                Ok(entries) => visit(
                    disk,
                    setup,
                    inside,
                    dir,
                    abs_dir,
                    order::sorted(entries, walk::entry_order::<E>()),
                    (depth - 1) as nat,
                ),
            },
        )
    }
}

/// What a walk of some entries of the directory `dir` reports, given the rule
/// sets in force in it.
pub open spec fn visit<E>(
    disk: Disk<E>,
    setup: Setup,
    rules: Seq<RulesView>,
    dir: PathView,
    abs_dir: PathView,
    entries: Seq<EntryView<E>>,
    depth: nat,
) -> Walked<E>
    decreases depth, entries.len() + 1,
{
    if entries.len() == 0 {
        ended(Ok(()))
    } else {
        let name = entries[0].name;
        let rest = visit(disk, setup, rules, dir, abs_dir, entries.skip(1), depth);
        match entries[0].kind {
            Err(e) => ended(Err(e)),
            Ok(kind) => if !walk::kept(rules, abs_dir, name, kind) {
                rest
            } else {
                let here = path::child(dir, name);
                after(
                    seq![ReportView::Entry(here, kind)],
                    if kind is Dir {
                        and_then(
                            walk_dir(disk, setup, rules, here, path::child(abs_dir, name), depth),
                            rest,
                        )
                    } else {
                        rest
                    },
                )
            },
        }
    }
}

/// What a walk reports from the ancestors in `above` on, nearest first: their
/// ignore files, shallowest first, and then what is in `root`.
pub open spec fn walk_from<E>(
    disk: Disk<E>,
    setup: Setup,
    rules: Seq<RulesView>,
    root: PathView,
    above: Seq<PathView>,
    depth: nat,
) -> Walked<E>
    decreases above.len(),
{
    if above.len() == 0 {
        walk_dir(disk, setup, rules, root, setup.root, depth)
    } else {
        after(
            dir_reports(disk, setup, above.last()),
            walk_from(
                disk,
                setup,
                dir_rules(disk, setup, rules, above.last()),
                root,
                above.drop_last(),
                depth,
            ),
        )
    }
}

/// The outcome of reading the explicit ignore file at `p`.
pub open spec fn read_at<E>(disk: Disk<E>, p: PathView) -> Result<RuleTextView, E> {
    match (disk.absolute)(p) {
        Err(e) => Err(e),
        Ok(abs) => match (disk.read)(path::resolve(abs)) {
            Err(e) => Err(e),
            Ok(text) => Ok(RuleTextView { path: path::resolve(abs), text }),
        },
    }
}

/// The outcomes of reading the explicit ignore files.
pub open spec fn reads<E>(
    disk: Disk<E>,
    sources: Seq<SourceView>,
) -> Seq<Result<RuleTextView, E>> {
    layers::explicit_paths(sources).map_values(|p: PathView| read_at(disk, p))
}

/// Where a walk of `root`, whose absolute path is `abs`, begins.
pub open spec fn located<E>(
    disk: Disk<E>,
    root: PathView,
    abs: PathView,
    sources: Seq<SourceView>,
) -> SourcingView {
    let abs_root = path::resolve(abs);
    let marks = layers::repository_marks(abs_root);
    SourcingView {
        root,
        abs_root,
        sources,
        main: disk.separator,
        ancestors: layers::repository_ancestors(
            abs_root,
            marks.map_values(|p: PathView| (disk.exists)(p)),
        ),
    }
}

/// What a walk of `root` reports, followed down at most `depth` levels.
pub open spec fn walk<E>(
    disk: Disk<E>,
    root: PathView,
    sources: Seq<SourceView>,
    depth: nat,
) -> Walked<E> {
    match (disk.absolute)(root) {
        Err(e) => ended(Err(e)),
        Ok(abs) => {
            let start = located(disk, root, abs, sources);
            let files = reads(disk, sources);
            match layers::source_layers(
                sources,
                files,
                start.abs_root,
                start.ancestors,
                disk.separator,
            ) {
                Err(e) => ended(Err(e)),
                Ok(layers) => after(
                    walk::rule_reports(walk::files_read(files)),
                    walk_from(
                        disk,
                        Setup { root: start.abs_root, layers },
                        seq![ignore::builtin_rules(start.abs_root)],
                        root,
                        start.ancestors,
                        depth,
                    ),
                ),
            }
        },
    }
}

// ---------------------------------------------------------------------------
// Running the steps of a walk
// ---------------------------------------------------------------------------

/// What the disk's answer to a step leads to.
pub open spec fn answered<E>(disk: Disk<E>, step: StepView<E>) -> Outcome<E> {
    match step {
        StepView::Seed { .. } => walk::seeded(step, looked_for(disk, walk::wanted(step))),
        StepView::Enter { .. } => walk::entered(step, looked_for(disk, walk::wanted(step))),
        StepView::List { dir, .. } => walk::listed(step, (disk.list)(dir)),
        StepView::Done(_) => arbitrary(),
    }
}

/// What at most `n` steps report, each one answered by the disk.
pub open spec fn drive<E>(disk: Disk<E>, step: StepView<E>, n: nat) -> Walked<E>
    decreases n,
{
    match step {
        StepView::Done(result) => ended(result),
        _ => if n == 0 {
            Walked { reports: Seq::empty(), end: None }
        } else {
            let outcome = answered(disk, step);
            after(outcome.reports, drive(disk, outcome.step, (n - 1) as nat))
        },
    }
}

/// What a walk of `root` reports that takes at most `n` steps.
pub open spec fn run<E>(
    disk: Disk<E>,
    root: PathView,
    sources: Seq<SourceView>,
    n: nat,
) -> Walked<E> {
    match (disk.absolute)(root) {
        Err(e) => ended(Err(e)),
        Ok(abs) => {
            let outcome = walk::sourced(
                located(disk, root, abs, sources),
                reads(disk, sources),
            );
            after(outcome.reports, drive(disk, outcome.step, n))
        },
    }
}

// ---------------------------------------------------------------------------
// What a step still has to report
// ---------------------------------------------------------------------------

/// The setup that a walker works under.
spec fn setup<E>(walker: WalkerView<E>) -> Setup {
    Setup { root: walker.root, layers: walker.layers }
}

/// How deep a walk is still followed `n` levels down.
spec fn room(depth: nat, n: nat) -> nat {
    if n <= depth {
        (depth - n) as nat
    } else {
        0
    }
}

/// What the entries at hand still have to report.
spec fn rest_of<E>(disk: Disk<E>, walker: WalkerView<E>, depth: nat) -> Walked<E>
    decreases walker.stack.len(),
{
    if walker.stack.len() == 0 {
        ended(Ok(()))
    } else {
        let top = walker.stack.last();
        and_then(
            visit(
                disk,
                setup(walker),
                walker.rules,
                top.dir,
                top.abs_dir,
                top.rest,
                room(depth, walker.stack.len()),
            ),
            rest_of(disk, walk::frame_left(walker), depth),
        )
    }
}

/// What a walk still has to report when it enters a directory.
spec fn entering<E>(
    disk: Disk<E>,
    walker: WalkerView<E>,
    dir: PathView,
    abs_dir: PathView,
    depth: nat,
) -> Walked<E> {
    and_then(
        walk_dir(
            disk,
            setup(walker),
            walker.rules,
            dir,
            abs_dir,
            room(depth, walker.stack.len()),
        ),
        rest_of(disk, walker, depth),
    )
}

/// What a walk still has to report when the ancestors in `above` are to be
/// seeded.
spec fn seeding<E>(
    disk: Disk<E>,
    walker: WalkerView<E>,
    root: PathView,
    above: Seq<PathView>,
    depth: nat,
) -> Walked<E>
    decreases above.len(),
{
    if above.len() == 0 {
        entering(disk, walker, root, walker.root, depth)
    } else {
        after(
            dir_reports(disk, setup(walker), above.last()),
            seeding(
                disk,
                walk::layered(
                    walker,
                    above.last(),
                    looked_for(disk, dir_files(setup(walker), above.last())),
                ),
                root,
                above.drop_last(),
                depth,
            ),
        )
    }
}

/// What a step still has to report.
spec fn meaning<E>(disk: Disk<E>, step: StepView<E>, depth: nat) -> Walked<E> {
    match step {
        StepView::Done(result) => ended(result),
        StepView::Seed { walker, root, below, dir } => seeding(
            disk,
            walker,
            root,
            below.push(dir),
            depth,
        ),
        StepView::Enter { walker, dir, abs_dir } => entering(disk, walker, dir, abs_dir, depth),
        StepView::List { walker, dir, abs_dir, pushed } => match (disk.list)(dir) {
            Err(e) => ended(Err(e)),
            Ok(entries) => rest_of(
                disk,
                walk::frame_entered(
                    walker,
                    FrameView {
                        dir,
                        abs_dir,
                        pushed,
                        rest: order::sorted(entries, walk::entry_order::<E>()),
                    },
                ),
                depth,
            ),
        },
    }
}

/// How many levels down a step is.
spec fn level<E>(step: StepView<E>) -> nat {
    match step {
        StepView::Done(_) => 0,
        StepView::Seed { walker, .. } => walker.stack.len(),
        StepView::Enter { walker, .. } => walker.stack.len(),
        StepView::List { walker, .. } => walker.stack.len() + 1,
    }
}

proof fn lemma_after<E>(a: Seq<ReportView>, b: Seq<ReportView>, w: Walked<E>, v: Walked<E>)
    ensures
        after(a, after(b, w)) == after(a + b, w),
        after(Seq::empty(), w) == w,
        and_then(after(a, w), v) == after(a, and_then(w, v)),
        and_then(ended(Ok(())), v) == v,
{
    assert(a + (b + w.reports) =~= a + b + w.reports);
    assert(Seq::empty() + w.reports =~= w.reports);
    assert(a + w.reports + v.reports =~= a + (w.reports + v.reports));
    assert(Seq::<ReportView>::empty() + v.reports =~= v.reports);
}

proof fn lemma_and_then<E>(u: Walked<E>, v: Walked<E>, w: Walked<E>)
    ensures
        and_then(and_then(u, v), w) == and_then(u, and_then(v, w)),
{
    assert(u.reports + v.reports + w.reports =~= u.reports + (v.reports + w.reports));
}

/// Going on with the entries at hand loses no report and adds none.
proof fn lemma_advanced<E>(disk: Disk<E>, walker: WalkerView<E>, depth: nat)
    ensures
        rest_of(disk, walker, depth) == after(
            walk::advanced(walker).reports,
            meaning(disk, walk::advanced(walker).step, depth),
        ),
        level(walk::advanced(walker).step) <= walker.stack.len(),
    decreases walker.stack.len(), walker.stack.last().rest.len(),
{
    let outcome = walk::advanced(walker);
    let done = ended(Ok::<(), E>(()));
    if walker.stack.len() == 0 {
        lemma_after(Seq::empty(), Seq::empty(), done, done);
    } else {
        let top = walker.stack.last();
        let left = walk::frame_left(walker);
        let below = rest_of(disk, left, depth);
        let fuel = room(depth, walker.stack.len());
        if top.rest.len() == 0 {
            lemma_advanced(disk, left, depth);
            lemma_after(Seq::empty(), Seq::empty(), done, below);
        } else {
            let entry = top.rest[0];
            let taken = walk::entry_taken(walker);
            let rest = visit(
                disk,
                setup(walker),
                walker.rules,
                top.dir,
                top.abs_dir,
                top.rest.skip(1),
                fuel,
            );
            assert(walk::frame_left(taken).stack =~= left.stack);
            assert(walk::frame_left(taken) == left);
            assert(rest_of(disk, taken, depth) == and_then(rest, below));
            match entry.kind {
                Err(e) => {
                    lemma_after(Seq::empty(), Seq::empty(), ended(Err::<(), E>(e)), done);
                },
                Ok(kind) => {
                    let here = path::child(top.dir, entry.name);
                    let abs_here = path::child(top.abs_dir, entry.name);
                    let report = seq![ReportView::Entry(here, kind)];
                    if !walk::kept(walker.rules, top.abs_dir, entry.name, kind) {
                        lemma_advanced(disk, taken, depth);
                    } else if kind is Dir {
                        let inner = walk_dir(
                            disk,
                            setup(walker),
                            walker.rules,
                            here,
                            abs_here,
                            fuel,
                        );
                        lemma_after(report, Seq::empty(), and_then(inner, rest), below);
                        lemma_and_then(inner, rest, below);
                    } else {
                        lemma_advanced(disk, taken, depth);
                        lemma_after(report, Seq::empty(), rest, below);
                        lemma_after(
                            report,
                            walk::advanced(taken).reports,
                            meaning(disk, walk::advanced(taken).step, depth),
                            done,
                        );
                    }
                },
            }
        }
    }
}

/// A step, once answered, has reported what it reports, and what is left is
/// what it had to report besides.
proof fn lemma_answered<E>(disk: Disk<E>, step: StepView<E>, depth: nat)
    requires
        !(step is Done),
        level(step) < depth,
    ensures
        meaning(disk, step, depth) == after(
            answered(disk, step).reports,
            meaning(disk, answered(disk, step).step, depth),
        ),
        level(answered(disk, step).step) <= level(step) + 1,
{
    let outcome = answered(disk, step);
    match step {
        StepView::Done(_) => {},
        StepView::Seed { walker, root, below, dir } => {
            assert(below.push(dir).drop_last() =~= below);
            let next = walk::layered(walker, dir, looked_for(disk, walk::wanted(step)));
            if below.len() > 0 {
                assert(below.drop_last().push(below.last()) =~= below);
            }
            assert(seeding(disk, next, root, below, depth) == meaning(disk, outcome.step, depth));
        },
        StepView::Enter { walker, dir, abs_dir } => {
            let files = dir_files(setup(walker), abs_dir);
            let found = looked_for(disk, files);
            let inside = walk::layered(walker, abs_dir, found);
            let pushed = (inside.rules.len() - walker.rules.len()) as nat;
            let below = rest_of(disk, walker, depth);
            let fuel = room(depth, walker.stack.len());
            assert(walk::popped(inside.rules, pushed) =~= walker.rules);
            match (disk.list)(dir) {
                Err(e) => {
                    lemma_after(outcome.reports, Seq::empty(), ended(Err::<(), E>(e)), below);
                },
                Ok(entries) => {
                    let frame = FrameView {
                        dir,
                        abs_dir,
                        pushed,
                        rest: order::sorted(entries, walk::entry_order::<E>()),
                    };
                    let deeper = walk::frame_entered(inside, frame);
                    assert(deeper.stack.drop_last() =~= walker.stack);
                    assert(walk::frame_left(deeper) == walker);
                    let inner = visit(
                        disk,
                        setup(walker),
                        inside.rules,
                        dir,
                        abs_dir,
                        frame.rest,
                        (fuel - 1) as nat,
                    );
                    lemma_after(outcome.reports, Seq::empty(), inner, below);
                },
            }
        },
        StepView::List { walker, dir, abs_dir, pushed } => {
            match (disk.list)(dir) {
                Err(e) => {
                    lemma_after(
                        Seq::empty(),
                        Seq::empty(),
                        ended(Err::<(), E>(e)),
                        ended(Ok::<(), E>(())),
                    );
                },
                Ok(entries) => {
                    let frame = FrameView {
                        dir,
                        abs_dir,
                        pushed,
                        rest: order::sorted(entries, walk::entry_order::<E>()),
                    };
                    lemma_advanced(disk, walk::frame_entered(walker, frame), depth);
                },
            }
        },
    }
}

/// Steps that come to an end have reported what the first one had to report.
proof fn lemma_drive<E>(disk: Disk<E>, step: StepView<E>, n: nat, depth: nat)
    requires
        drive(disk, step, n).end is Some,
        level(step) + n <= depth,
    ensures
        meaning(disk, step, depth) == drive(disk, step, n),
    decreases n,
{
    if !(step is Done) {
        lemma_answered(disk, step, depth);
        lemma_drive(disk, answered(disk, step).step, (n - 1) as nat, depth);
    }
}

/// At the root, what the ancestors and the root have to report is what a walk
/// from them reports.
proof fn lemma_seeding<E>(
    disk: Disk<E>,
    walker: WalkerView<E>,
    root: PathView,
    above: Seq<PathView>,
    depth: nat,
)
    requires
        walker.stack.len() == 0,
    ensures
        seeding(disk, walker, root, above, depth) == walk_from(
            disk,
            setup(walker),
            walker.rules,
            root,
            above,
            depth,
        ),
    decreases above.len(),
{
    if above.len() == 0 {
        let whole = walk_dir(disk, setup(walker), walker.rules, root, walker.root, depth);
        assert(whole.reports + Seq::<ReportView>::empty() =~= whole.reports);
    } else {
        let found = looked_for(disk, dir_files(setup(walker), above.last()));
        lemma_seeding(
            disk,
            walk::layered(walker, above.last(), found),
            root,
            above.drop_last(),
            depth,
        );
    }
}

/// What the entries at hand report in at most `n` more steps.
spec fn going_on<E>(disk: Disk<E>, walker: WalkerView<E>, n: nat) -> Walked<E> {
    after(
        walk::advanced(walker).reports,
        drive(disk, walk::advanced(walker).step, n),
    )
}

/// A directory of which a walk comes to an end takes so many steps.
proof fn lemma_walk_dir_ends<E>(
    disk: Disk<E>,
    walker: WalkerView<E>,
    dir: PathView,
    abs_dir: PathView,
    depth: nat,
) -> (n: nat)
    requires
        walk_dir(disk, setup(walker), walker.rules, dir, abs_dir, depth).end is Some,
    ensures
        forall|m: nat|
            #[trigger] drive(disk, StepView::Enter { walker, dir, abs_dir }, n + m) == and_then(
                walk_dir(disk, setup(walker), walker.rules, dir, abs_dir, depth),
                going_on(disk, walker, m),
            ),
    decreases depth, 0nat,
{
    let whole = walk_dir(disk, setup(walker), walker.rules, dir, abs_dir, depth);
    let step = StepView::Enter { walker, dir, abs_dir };
    let first = answered(disk, step);
    let found = looked_for(disk, dir_files(setup(walker), abs_dir));
    let inside = walk::layered(walker, abs_dir, found);
    let pushed = (inside.rules.len() - walker.rules.len()) as nat;
    assert(walk::popped(inside.rules, pushed) =~= walker.rules);
    match (disk.list)(dir) {
        Err(e) => {
            let n: nat = 2;
            assert forall|m: nat|
                #[trigger] drive(disk, step, n + m) == and_then(
                    whole,
                    going_on(disk, walker, m),
                ) by {
                let second = answered(disk, first.step);
                assert(drive(disk, step, n + m) == after(
                    first.reports,
                    drive(disk, first.step, 1 + m),
                ));
                assert(drive(disk, first.step, 1 + m) == after(
                    second.reports,
                    drive(disk, second.step, m),
                ));
                lemma_after(
                    Seq::empty(),
                    Seq::empty(),
                    ended(Err::<(), E>(e)),
                    ended(Ok::<(), E>(())),
                );
            }
            n
        },
        Ok(entries) => {
            let frame = FrameView {
                dir,
                abs_dir,
                pushed,
                rest: order::sorted(entries, walk::entry_order::<E>()),
            };
            let deeper = walk::frame_entered(inside, frame);
            assert(deeper.stack.drop_last() =~= walker.stack);
            assert(walk::frame_left(deeper) == walker);
            let inner = visit(
                disk,
                setup(walker),
                inside.rules,
                dir,
                abs_dir,
                frame.rest,
                (depth - 1) as nat,
            );
            let k = lemma_visit_ends(disk, deeper, (depth - 1) as nat);
            let n = 2 + k;
            assert forall|m: nat|
                #[trigger] drive(disk, step, n + m) == and_then(
                    whole,
                    going_on(disk, walker, m),
                ) by {
                assert(drive(disk, step, n + m) == after(
                    first.reports,
                    drive(disk, first.step, (1 + k + m) as nat),
                ));
                assert(drive(disk, first.step, (1 + k + m) as nat) == going_on(
                    disk,
                    deeper,
                    (k + m) as nat,
                ));
                lemma_after(first.reports, Seq::empty(), inner, going_on(disk, walker, m));
            }
            n
        },
    }
}

/// Entries of which a walk comes to an end take so many steps.
proof fn lemma_visit_ends<E>(disk: Disk<E>, walker: WalkerView<E>, depth: nat) -> (n: nat)
    requires
        walker.stack.len() > 0,
        visit(
            disk,
            setup(walker),
            walker.rules,
            walker.stack.last().dir,
            walker.stack.last().abs_dir,
            walker.stack.last().rest,
            depth,
        ).end is Some,
    ensures
        forall|m: nat|
            #[trigger] going_on(disk, walker, n + m) == and_then(
                visit(
                    disk,
                    setup(walker),
                    walker.rules,
                    walker.stack.last().dir,
                    walker.stack.last().abs_dir,
                    walker.stack.last().rest,
                    depth,
                ),
                going_on(disk, walk::frame_left(walker), m),
            ),
    decreases depth, walker.stack.last().rest.len() + 1,
{
    let top = walker.stack.last();
    let left = walk::frame_left(walker);
    let whole = visit(
        disk,
        setup(walker),
        walker.rules,
        top.dir,
        top.abs_dir,
        top.rest,
        depth,
    );
    let done = ended(Ok::<(), E>(()));
    if top.rest.len() == 0 {
        assert forall|m: nat|
            #[trigger] going_on(disk, walker, 0 + m) == and_then(
                whole,
                going_on(disk, left, m),
            ) by {
            lemma_after(Seq::empty(), Seq::empty(), done, going_on(disk, left, m));
        }
        0
    } else {
        let entry = top.rest[0];
        let taken = walk::entry_taken(walker);
        let rest = visit(
            disk,
            setup(walker),
            walker.rules,
            top.dir,
            top.abs_dir,
            top.rest.skip(1),
            depth,
        );
        assert(walk::frame_left(taken).stack =~= left.stack);
        assert(walk::frame_left(taken) == left);
        match entry.kind {
            Err(e) => {
                lemma_after(Seq::empty(), Seq::empty(), ended(Err::<(), E>(e)), done);
                0
            },
            Ok(kind) => {
                let here = path::child(top.dir, entry.name);
                let abs_here = path::child(top.abs_dir, entry.name);
                let report = seq![ReportView::Entry(here, kind)];
                if !walk::kept(walker.rules, top.abs_dir, entry.name, kind) {
                    let n = lemma_visit_ends(disk, taken, depth);
                    assert forall|m: nat|
                        #[trigger] going_on(disk, walker, n + m) == and_then(
                            whole,
                            going_on(disk, left, m),
                        ) by {
                        assert(going_on(disk, taken, n + m) == going_on(disk, walker, n + m));
                    }
                    n
                } else if kind is Dir {
                    let inner = walk_dir(
                        disk,
                        setup(walker),
                        walker.rules,
                        here,
                        abs_here,
                        depth,
                    );
                    let step = StepView::Enter { walker: taken, dir: here, abs_dir: abs_here };
                    assert(inner.end is Some);
                    let n1 = lemma_walk_dir_ends(disk, taken, here, abs_here, depth);
                    let n2 = if rest.end is Some {
                        lemma_visit_ends(disk, taken, depth)
                    } else {
                        0
                    };
                    let n = n1 + n2;
                    assert forall|m: nat|
                        #[trigger] going_on(disk, walker, n + m) == and_then(
                            whole,
                            going_on(disk, left, m),
                        ) by {
                        let later = going_on(disk, taken, n2 + m);
                        assert(drive(disk, step, n1 + (n2 + m)) == and_then(inner, later));
                        lemma_after(
                            report,
                            Seq::empty(),
                            and_then(inner, rest),
                            going_on(disk, left, m),
                        );
                        lemma_and_then(inner, rest, going_on(disk, left, m));
                    }
                    n
                } else {
                    let n = lemma_visit_ends(disk, taken, depth);
                    assert forall|m: nat|
                        #[trigger] going_on(disk, walker, n + m) == and_then(
                            whole,
                            going_on(disk, left, m),
                        ) by {
                        let next = walk::advanced(taken);
                        lemma_after(
                            report,
                            next.reports,
                            drive(disk, next.step, n + m),
                            done,
                        );
                        assert(going_on(disk, walker, n + m) == after(
                            report,
                            going_on(disk, taken, n + m),
                        ));
                        lemma_after(report, Seq::empty(), rest, going_on(disk, left, m));
                    }
                    n
                }
            },
        }
    }
}

/// Ancestors and a root of which a walk comes to an end take so many steps.
proof fn lemma_walk_from_ends<E>(
    disk: Disk<E>,
    walker: WalkerView<E>,
    root: PathView,
    above: Seq<PathView>,
    depth: nat,
) -> (n: nat)
    requires
        walker.stack.len() == 0,
        walk_from(disk, setup(walker), walker.rules, root, above, depth).end is Some,
    ensures
        drive(disk, walk::seed_next(walker, root, above), n) == walk_from(
            disk,
            setup(walker),
            walker.rules,
            root,
            above,
            depth,
        ),
    decreases above.len(),
{
    let step = walk::seed_next(walker, root, above);
    if above.len() == 0 {
        let whole = walk_dir(disk, setup(walker), walker.rules, root, walker.root, depth);
        let n = lemma_walk_dir_ends(disk, walker, root, walker.root, depth);
        assert(drive(disk, step, n + 0) == and_then(whole, going_on(disk, walker, 0)));
        assert(whole.reports + Seq::<ReportView>::empty() =~= whole.reports);
        lemma_after(Seq::empty(), Seq::empty(), ended(Ok::<(), E>(())), whole);
        n
    } else {
        let found = looked_for(disk, dir_files(setup(walker), above.last()));
        let next = walk::layered(walker, above.last(), found);
        let n = lemma_walk_from_ends(disk, next, root, above.drop_last(), depth);
        assert(answered(disk, step).step == walk::seed_next(next, root, above.drop_last()));
        n + 1
    }
}

// ---------------------------------------------------------------------------
// Laws
// ---------------------------------------------------------------------------

/// A run that comes to an end, each of its steps answered by the disk, reports
/// what [`walk`] says, in that order, and ends as it says.
pub proof fn law_run_is_walk<E>(
    disk: Disk<E>,
    root: PathView,
    sources: Seq<SourceView>,
    n: nat,
    depth: nat,
)
    requires
        run(disk, root, sources, n).end is Some,
        n <= depth,
    ensures
        run(disk, root, sources, n) == walk(disk, root, sources, depth),
{
    if let Ok(abs) = (disk.absolute)(root) {
        let start = located(disk, root, abs, sources);
        let files = reads(disk, sources);
        let outcome = walk::sourced(start, files);
        match layers::source_layers(
                sources,
                files,
                start.abs_root,
                start.ancestors,
                disk.separator,
            ) {
            Err(e) => {
                lemma_after(
                    Seq::empty(),
                    Seq::empty(),
                    ended(Err::<(), E>(e)),
                    ended(Ok::<(), E>(())),
                );
            },
            Ok(layers) => {
                let walker = walk::fresh::<E>(start.abs_root, layers);
                lemma_drive(disk, outcome.step, n, depth);
                lemma_seeding(disk, walker, root, start.ancestors, depth);
                if start.ancestors.len() > 0 {
                    assert(start.ancestors.drop_last().push(start.ancestors.last())
                        =~= start.ancestors);
                }
                assert(meaning(disk, outcome.step, depth) == seeding(
                    disk,
                    walker,
                    root,
                    start.ancestors,
                    depth,
                ));
            },
        }
    }
}

/// Where the directories that the rules leave end at some depth, a run comes
/// to its end, and reports what [`walk`] says.
pub proof fn law_walk_ends<E>(
    disk: Disk<E>,
    root: PathView,
    sources: Seq<SourceView>,
    depth: nat,
)
    requires
        walk(disk, root, sources, depth).end is Some,
    ensures
        exists|n: nat| run(disk, root, sources, n) == walk(disk, root, sources, depth),
{
    let whole = walk(disk, root, sources, depth);
    match (disk.absolute)(root) {
        Err(e) => {
            assert(run(disk, root, sources, 0) == whole);
        },
        Ok(abs) => {
            let start = located(disk, root, abs, sources);
            let files = reads(disk, sources);
            match layers::source_layers(
                sources,
                files,
                start.abs_root,
                start.ancestors,
                disk.separator,
            ) {
                Err(e) => {
                    lemma_after(Seq::empty(), Seq::empty(), whole, whole);
                    assert(run(disk, root, sources, 0) == whole);
                },
                Ok(layers) => {
                    let walker = walk::fresh::<E>(start.abs_root, layers);
                    let n = lemma_walk_from_ends(disk, walker, root, start.ancestors, depth);
                    assert(run(disk, root, sources, n) == whole);
                },
            }
        },
    }
}

/// What a directory looks for and the rules it adds, source by source. An
/// ignore-file name is looked for at the name joined to the directory, whatever
/// its depth, and the text found there gives the next rules; in the Docker dialect
/// at the root only. An explicit file gives its rules in the directory that it is
/// anchored at. Last comes the directory's `.okfignore`.
pub proof fn law_directory_rules<E>(
    disk: Disk<E>,
    root: PathView,
    layer: LayerView,
    rest: Seq<LayerView>,
    rules: Seq<RulesView>,
    dir: PathView,
)
    ensures
        ({
            let setup = Setup { root, layers: seq![layer] + rest };
            let later = Setup { root, layers: rest };
            match layer {
                LayerView::Name { name, flavor } => if flavor is Gitignore || dir == root {
                    let file = path::join(dir, name);
                    &&& dir_files(setup, dir) == seq![file] + dir_files(later, dir)
                    &&& dir_rules(disk, setup, rules, dir) == dir_rules(
                        disk,
                        later,
                        match (disk.find)(file) {
                            FoundView::Text(text) => rules.push(
                                ignore::file_rules(file, text, flavor),
                            ),
                            _ => rules,
                        },
                        dir,
                    )
                } else {
                    &&& dir_files(setup, dir) == dir_files(later, dir)
                    &&& dir_rules(disk, setup, rules, dir) == dir_rules(disk, later, rules, dir)
                },
                LayerView::File { anchor, rules: own, flavor } => {
                    &&& dir_files(setup, dir) == dir_files(later, dir)
                    &&& dir_rules(disk, setup, rules, dir) == dir_rules(
                        disk,
                        later,
                        if anchor == dir && (flavor is Gitignore || dir == root) {
                            rules.push(own)
                        } else {
                            rules
                        },
                        dir,
                    )
                },
            }
        }),
        ({
            let bare = Setup { root, layers: Seq::empty() };
            let file = dir.push(
                path::Component::Normal(
                    seq![
                        0x2eu8,
                        0x6fu8,
                        0x6bu8,
                        0x66u8,
                        0x69u8,
                        0x67u8,
                        0x6eu8,
                        0x6fu8,
                        0x72u8,
                        0x65u8,
                    ],
                ),
            );
            &&& dir_files(bare, dir) == seq![file]
            &&& dir_rules(disk, bare, rules, dir) == match (disk.find)(file) {
                FoundView::Text(text) => rules.push(
                    ignore::rules_of(text, dir, Flavor::Gitignore),
                ),
                _ => rules,
            }
        }),
{
    let setup = Setup { root, layers: seq![layer] + rest };
    let later = Setup { root, layers: rest };
    let files = dir_files(later, dir);
    let found = looked_for(disk, files);
    let added = layers::slot_rules(layers::dir_slots(rest, dir, root), found);
    match layer {
        LayerView::Name { name, flavor } => {
            let file = path::join(dir, name);
            let first = (disk.find)(file);
            layers::law_named_file(name, flavor, rest, dir, root, first, found);
            if flavor is Gitignore || dir == root {
                assert(looked_for(disk, seq![file] + files) =~= seq![first] + found);
                match first {
                    FoundView::Text(text) => {
                        let own = ignore::file_rules(file, text, flavor);
                        assert(rules + (seq![own] + added) =~= rules.push(own) + added);
                    },
                    _ => {
                        assert(rules + (Seq::<RulesView>::empty() + added) =~= rules + added);
                    },
                }
            }
        },
        LayerView::File { anchor, rules: own, flavor } => {
            layers::law_anchored_file(anchor, own, flavor, rest, dir, root, found);
            assert(rules + (seq![own] + added) =~= rules.push(own) + added);
            assert(rules + (Seq::<RulesView>::empty() + added) =~= rules + added);
        },
    }
    let bare = Setup { root, layers: Seq::empty() };
    let file = dir_files(bare, dir)[0];
    let first = (disk.find)(file);
    layers::law_okfignore_alone(dir, root, first);
    assert(looked_for(disk, dir_files(bare, dir)) =~= seq![first]);
    match first {
        FoundView::Text(text) => {
            let own = ignore::rules_of(text, dir, Flavor::Gitignore);
            assert(rules + seq![own] =~= rules.push(own));
        },
        _ => {
            assert(rules + Seq::<RulesView>::empty() =~= rules);
        },
    }
}

proof fn lemma_rules_kept<E>(
    disk: Disk<E>,
    setup: Setup,
    rules: Seq<RulesView>,
    dir: PathView,
    own: RulesView,
)
    requires
        rules.contains(own),
    ensures
        dir_rules(disk, setup, rules, dir).contains(own),
{
    let i = choose|i: int| 0 <= i < rules.len() && rules[i] == own;
    assert(dir_rules(disk, setup, rules, dir)[i] == own);
}

/// In every directory, at whatever depth below the root, each ignore-file name
/// that is configured for other than the Docker dialect is looked for, at the
/// directory joined with the name, and so are the Docker ones at the root. If the
/// file there has text, its rules are among those in force in the directory.
pub proof fn law_named_files_in_force<E>(
    disk: Disk<E>,
    setup: Setup,
    rules: Seq<RulesView>,
    dir: PathView,
    i: int,
    name: PathView,
    flavor: Flavor,
    text: Seq<char>,
)
    requires
        0 <= i < setup.layers.len(),
        setup.layers[i] == (LayerView::Name { name, flavor }),
        flavor is Gitignore || dir == setup.root,
    ensures
        dir_files(setup, dir).contains(path::join(dir, name)),
        (disk.find)(path::join(dir, name)) == FoundView::Text(text) ==> dir_rules(
            disk,
            setup,
            rules,
            dir,
        ).contains(ignore::file_rules(path::join(dir, name), text, flavor)),
    decreases setup.layers.len(),
{
    let layer = setup.layers[0];
    let rest = setup.layers.skip(1);
    let later = Setup { root: setup.root, layers: rest };
    let file = path::join(dir, name);
    assert(seq![layer] + rest =~= setup.layers);
    law_directory_rules(disk, setup.root, layer, rest, rules, dir);
    if i == 0 {
        assert(dir_files(setup, dir)[0] == file);
        if (disk.find)(file) == FoundView::Text(text) {
            let own = ignore::file_rules(file, text, flavor);
            assert(rules.push(own)[rules.len() as int] == own);
            lemma_rules_kept(disk, later, rules.push(own), dir, own);
        }
    } else {
        assert(rest[i - 1] == setup.layers[i]);
        let next = match layer {
            LayerView::Name { name: other, flavor: theirs } => {
                let found = (disk.find)(path::join(dir, other));
                if (theirs is Gitignore || dir == setup.root) && found is Text {
                    rules.push(ignore::file_rules(path::join(dir, other), found->Text_0, theirs))
                } else {
                    rules
                }
            },
            LayerView::File { anchor, rules: own, flavor: theirs } => if anchor == dir && (
            theirs is Gitignore || dir == setup.root) {
                rules.push(own)
            } else {
                rules
            },
        };
        law_named_files_in_force(disk, later, next, dir, i - 1, name, flavor, text);
        assert(dir_rules(disk, setup, rules, dir) == dir_rules(disk, later, next, dir));
        let files = dir_files(later, dir);
        let k = choose|k: int| 0 <= k < files.len() && files[k] == file;
        if dir_files(setup, dir) == files {
            assert(dir_files(setup, dir)[k] == file);
        } else {
            assert(dir_files(setup, dir)[k + 1] == file);
        }
    }
}

/// A walk reports each of the ignore files that a directory looks for if there is
/// something at its path, whether or not that can be read, in the same order.
pub proof fn law_directory_reports<E>(disk: Disk<E>, setup: Setup, dir: PathView, p: PathView)
    ensures
        dir_reports(disk, setup, dir).contains(ReportView::RuleFile(p)) <==> dir_files(
            setup,
            dir,
        ).contains(p) && !((disk.find)(p) is Absent),
        forall|i: int|
            0 <= i < dir_reports(disk, setup, dir).len() ==> (#[trigger] dir_reports(
                disk,
                setup,
                dir,
            )[i]) is RuleFile,
{
    let files = dir_files(setup, dir);
    let found = looked_for(disk, files);
    let there = layers::present(files, found);
    lemma_present(disk, files, p);
    let reports = dir_reports(disk, setup, dir);
    if there.contains(p) {
        let i = choose|i: int| 0 <= i < there.len() && there[i] == p;
        assert(reports[i] == ReportView::RuleFile(p));
    }
    if reports.contains(ReportView::RuleFile(p)) {
        let i = choose|i: int| 0 <= i < reports.len() && reports[i] == ReportView::RuleFile(p);
        assert(there[i] == p);
    }
}

proof fn lemma_present<E>(disk: Disk<E>, files: Seq<PathView>, p: PathView)
    ensures
        layers::present(files, looked_for(disk, files)).contains(p) <==> files.contains(p) && !((
        disk.find)(p) is Absent),
    decreases files.len(),
{
    if files.len() > 0 {
        let front = files.drop_last();
        let last = files.last();
        let found = looked_for(disk, files);
        lemma_present(disk, front, p);
        assert(found.drop_last() =~= looked_for(disk, front));
        let before = layers::present(front, looked_for(disk, front));
        assert(files.contains(p) <==> front.contains(p) || last == p) by {
            if front.contains(p) {
                let i = choose|i: int| 0 <= i < front.len() && front[i] == p;
                assert(files[i] == p);
            }
            if files.contains(p) {
                let i = choose|i: int| 0 <= i < files.len() && files[i] == p;
                if i < front.len() {
                    assert(front[i] == p);
                }
            }
            assert(files[files.len() - 1] == last);
        }
        assert(before.push(last).contains(p) <==> before.contains(p) || last == p) by {
            if before.contains(p) {
                let i = choose|i: int| 0 <= i < before.len() && before[i] == p;
                assert(before.push(last)[i] == p);
            }
            if before.push(last).contains(p) {
                let i = choose|i: int|
                    0 <= i < before.push(last).len() && before.push(last)[i] == p;
                if i < before.len() {
                    assert(before[i] == p);
                }
            }
            assert(before.push(last)[before.len() as int] == last);
        }
    }
}

} // verus!
