//! What holds of all that a walk of a disk reports.
//!
//! The laws here speak of [`crate::disk::walk_dir`], the walk of one directory,
//! and of [`crate::disk::visit`], the walk of some of its entries.

use vstd::prelude::*;

use crate::disk::{self, Disk, Setup};
use crate::ignore::{self, RulesView, SourceView};
use crate::layers;
use crate::order::{self, Sortable};
use crate::path::{self, PathView};
use crate::walk::{self, Entry, EntryView, FileKind, ReportView};

verus! {

/// The rule sets in force in the directory that lies at `rel` in `abs_dir`,
/// given those in force in `abs_dir`.
pub open spec fn rules_below<E>(
    disk: Disk<E>,
    setup: Setup,
    rules: Seq<RulesView>,
    abs_dir: PathView,
    rel: PathView,
) -> Seq<RulesView>
    decreases rel.len(),
{
    if rel.len() == 0 {
        rules
    } else {
        let deeper = abs_dir.push(rel[0]);
        rules_below(disk, setup, disk::dir_rules(disk, setup, rules, deeper), deeper, rel.skip(1))
    }
}

/// Whether a report, if it is of an entry, is of one inside `dir` that the
/// rules in force where it lies leave.
pub open spec fn left_by_rules<E>(
    disk: Disk<E>,
    setup: Setup,
    rules: Seq<RulesView>,
    dir: PathView,
    abs_dir: PathView,
    report: ReportView,
) -> bool {
    report matches ReportView::Entry(p, kind) ==> {
        let rel = p.skip(dir.len() as int);
        &&& dir.is_prefix_of(p)
        &&& dir.len() < p.len()
        &&& path::file_name(p) matches Some(name) && walk::kept(
            rules_below(disk, setup, rules, abs_dir, rel.drop_last()),
            abs_dir + rel.drop_last(),
            name,
            kind,
        )
    }
}

/// What is reported from a directory is left by the rules, as seen from the
/// directory that contains it.
proof fn lemma_left_outside<E>(
    disk: Disk<E>,
    setup: Setup,
    rules: Seq<RulesView>,
    dir: PathView,
    abs_dir: PathView,
    name: Seq<u8>,
    report: ReportView,
)
    requires
        left_by_rules(
            disk,
            setup,
            disk::dir_rules(disk, setup, rules, path::child(abs_dir, name)),
            path::child(dir, name),
            path::child(abs_dir, name),
            report,
        ),
    ensures
        left_by_rules(disk, setup, rules, dir, abs_dir, report),
{
    if let ReportView::Entry(p, kind) = report {
        let rel = p.skip(dir.len() as int);
        let inner = p.skip((dir.len() + 1) as int);
        assert(path::child(dir, name).is_prefix_of(p));
        assert(p[dir.len() as int] == path::child(dir, name)[dir.len() as int]);
        assert(rel.drop_last()[0] == p[dir.len() as int]);
        assert(rel.drop_last().skip(1) =~= inner.drop_last());
        assert(path::child(abs_dir, name) + inner.drop_last() =~= abs_dir + rel.drop_last());
        assert(dir.is_prefix_of(p)) by {
            assert(p.take(dir.len() as int) =~= path::child(dir, name).take(dir.len() as int));
            assert(path::child(dir, name).take(dir.len() as int) =~= dir);
        }
    }
}

proof fn lemma_visit_left<E>(
    disk: Disk<E>,
    setup: Setup,
    rules: Seq<RulesView>,
    dir: PathView,
    abs_dir: PathView,
    entries: Seq<EntryView<E>>,
    depth: nat,
)
    ensures
        forall|i: int|
            0 <= i < disk::visit(disk, setup, rules, dir, abs_dir, entries, depth).reports.len()
                ==> left_by_rules(
                disk,
                setup,
                rules,
                dir,
                abs_dir,
                #[trigger] disk::visit(disk, setup, rules, dir, abs_dir, entries, depth).reports[i],
            ),
    decreases depth, entries.len() + 1,
{
    if entries.len() > 0 {
        let name = entries[0].name;
        let all = disk::visit(disk, setup, rules, dir, abs_dir, entries, depth).reports;
        let rest = disk::visit(disk, setup, rules, dir, abs_dir, entries.skip(1), depth).reports;
        lemma_visit_left(disk, setup, rules, dir, abs_dir, entries.skip(1), depth);
        if let Ok(kind) = entries[0].kind {
            if walk::kept(rules, abs_dir, name, kind) {
                let here = path::child(dir, name);
                let abs_here = path::child(abs_dir, name);
                let first = ReportView::Entry(here, kind);
                let inner = disk::walk_dir(disk, setup, rules, here, abs_here, depth).reports;
                assert(left_by_rules(disk, setup, rules, dir, abs_dir, first)) by {
                    let rel = here.skip(dir.len() as int);
                    assert(rel.drop_last() =~= Seq::empty());
                    assert(abs_dir + rel.drop_last() =~= abs_dir);
                    assert(here.take(dir.len() as int) =~= dir);
                }
                if kind is Dir {
                    law_reports_left_by_rules(disk, setup, rules, here, abs_here, depth);
                    assert forall|i: int| 0 <= i < all.len() implies left_by_rules(
                        disk,
                        setup,
                        rules,
                        dir,
                        abs_dir,
                        #[trigger] all[i],
                    ) by {
                        if 0 < i <= inner.len() {
                            assert(all[i] == inner[i - 1]);
                            lemma_left_outside(disk, setup, rules, dir, abs_dir, name, inner[i - 1]);
                        } else if i > 0 {
                            assert(all[i] == rest[i - 1 - inner.len()]);
                        }
                    }
                } else {
                    assert forall|i: int| 0 <= i < all.len() implies left_by_rules(
                        disk,
                        setup,
                        rules,
                        dir,
                        abs_dir,
                        #[trigger] all[i],
                    ) by {
                        if i > 0 {
                            assert(all[i] == rest[i - 1]);
                        }
                    }
                }
            }
        }
    }
}

/// Every entry that a walk of a directory reports lies inside it, and the
/// rules in force in the directory that lists the entry leave it.
pub proof fn law_reports_left_by_rules<E>(
    disk: Disk<E>,
    setup: Setup,
    rules: Seq<RulesView>,
    dir: PathView,
    abs_dir: PathView,
    depth: nat,
)
    ensures
        forall|i: int|
            0 <= i < disk::walk_dir(disk, setup, rules, dir, abs_dir, depth).reports.len()
                ==> left_by_rules(
                disk,
                setup,
                disk::dir_rules(disk, setup, rules, abs_dir),
                dir,
                abs_dir,
                #[trigger] disk::walk_dir(disk, setup, rules, dir, abs_dir, depth).reports[i],
            ),
    decreases depth, 0nat,
{
    if depth > 0 {
        let all = disk::walk_dir(disk, setup, rules, dir, abs_dir, depth).reports;
        let inside = disk::dir_rules(disk, setup, rules, abs_dir);
        let front = disk::dir_reports(disk, setup, abs_dir) + walk::index_reports(inside, dir, abs_dir);
        assert forall|i: int| 0 <= i < front.len() implies !(#[trigger] front[i] is Entry) by {
            if i < disk::dir_reports(disk, setup, abs_dir).len() {
                assert(front[i] == disk::dir_reports(disk, setup, abs_dir)[i]);
            }
        }
        match (disk.list)(dir) {
            Err(e) => {
                assert(all =~= front);
            },
            Ok(entries) => {
                let sorted = order::sorted(entries, walk::entry_order::<E>());
                let inner = disk::visit(
                    disk,
                    setup,
                    inside,
                    dir,
                    abs_dir,
                    sorted,
                    (depth - 1) as nat,
                ).reports;
                lemma_visit_left(disk, setup, inside, dir, abs_dir, sorted, (depth - 1) as nat);
                assert forall|i: int| 0 <= i < all.len() implies left_by_rules(
                    disk,
                    setup,
                    inside,
                    dir,
                    abs_dir,
                    #[trigger] all[i],
                ) by {
                    if i >= front.len() {
                        assert(all[i] == inner[i - front.len()]);
                    } else {
                        assert(all[i] == front[i]);
                    }
                }
            },
        }
    }
}

/// An entry that the rules do not leave adds nothing to a walk, whatever lies
/// below it: it might as well not be listed.
pub proof fn law_ignored_entry_adds_nothing<E>(
    disk: Disk<E>,
    setup: Setup,
    rules: Seq<RulesView>,
    dir: PathView,
    abs_dir: PathView,
    entries: Seq<EntryView<E>>,
    depth: nat,
    i: int,
)
    requires
        0 <= i < entries.len(),
        entries[i].kind matches Ok(kind) && !walk::kept(rules, abs_dir, entries[i].name, kind),
    ensures
        disk::visit(disk, setup, rules, dir, abs_dir, entries, depth) == disk::visit(
            disk,
            setup,
            rules,
            dir,
            abs_dir,
            entries.remove(i),
            depth,
        ),
    decreases i,
{
    if i == 0 {
        assert(entries.remove(0) =~= entries.skip(1));
    } else {
        law_ignored_entry_adds_nothing(
            disk,
            setup,
            rules,
            dir,
            abs_dir,
            entries.skip(1),
            depth,
            i - 1,
        );
        assert(entries.remove(i)[0] == entries[0]);
        assert(entries.remove(i).skip(1) =~= entries.skip(1).remove(i - 1));
    }
}

/// Whether some of the entries is the one called `name`, of this kind, and the
/// rules leave it.
pub open spec fn lists<E>(
    rules: Seq<RulesView>,
    abs_dir: PathView,
    entries: Seq<EntryView<E>>,
    name: Seq<u8>,
    kind: FileKind,
) -> bool {
    &&& walk::kept(rules, abs_dir, name, kind)
    &&& entries.contains(EntryView { name, kind: Ok::<FileKind, E>(kind) })
}

/// A walk that goes well reports, of the entries of a directory itself,
/// exactly those that it lists and the rules leave. An `index.md` that is no
/// directory is always one of them, unless the directory itself is ignored.
pub proof fn law_entries_reported<E>(
    disk: Disk<E>,
    setup: Setup,
    rules: Seq<RulesView>,
    dir: PathView,
    abs_dir: PathView,
    entries: Seq<EntryView<E>>,
    depth: nat,
    name: Seq<u8>,
    kind: FileKind,
)
    requires
        disk::visit(disk, setup, rules, dir, abs_dir, entries, depth).end == Some(Ok::<(), E>(())),
    ensures
        disk::visit(disk, setup, rules, dir, abs_dir, entries, depth).reports.contains(
            ReportView::Entry(path::child(dir, name), kind),
        ) <==> lists(rules, abs_dir, entries, name, kind),
        name == walk::index_name() && !(kind is Dir) && !ignore::ignored(rules, abs_dir, true)
            ==> walk::kept(rules, abs_dir, name, kind),
    decreases entries.len(),
{
    let whole = disk::visit(disk, setup, rules, dir, abs_dir, entries, depth);
    let report = ReportView::Entry(path::child(dir, name), kind);
    let wanted = EntryView { name, kind: Ok::<FileKind, E>(kind) };
    if entries.len() > 0 {
        let rest = disk::visit(disk, setup, rules, dir, abs_dir, entries.skip(1), depth);
        let first_name = entries[0].name;
        let first_kind = entries[0].kind->Ok_0;
        assert(entries[0].kind is Ok);
        assert(rest.end == Some(Ok::<(), E>(())));
        law_entries_reported(
            disk,
            setup,
            rules,
            dir,
            abs_dir,
            entries.skip(1),
            depth,
            name,
            kind,
        );
        assert(entries =~= seq![entries[0]] + entries.skip(1));
        assert(entries.contains(wanted) <==> entries[0] == wanted || entries.skip(1).contains(
            wanted,
        )) by {
            if entries.contains(wanted) && entries[0] != wanted {
                let i = choose|i: int| 0 <= i < entries.len() && entries[i] == wanted;
                assert(entries.skip(1)[i - 1] == wanted);
            }
            if entries.skip(1).contains(wanted) {
                let i = choose|i: int|
                    0 <= i < entries.skip(1).len() && entries.skip(1)[i] == wanted;
                assert(entries[i + 1] == wanted);
            }
        }
        if walk::kept(rules, abs_dir, first_name, first_kind) {
            let here = path::child(dir, first_name);
            let abs_here = path::child(abs_dir, first_name);
            let first = ReportView::Entry(here, first_kind);
            let inner = if first_kind is Dir {
                disk::walk_dir(disk, setup, rules, here, abs_here, depth).reports
            } else {
                Seq::empty()
            };
            assert(whole.reports =~= seq![first] + inner + rest.reports);
            assert(first == report <==> entries[0] == wanted) by {
                assert(here.last() == path::Component::Normal(first_name));
                assert(path::child(dir, name).last() == path::Component::Normal(name));
            }
            assert(!inner.contains(report)) by {
                if first_kind is Dir {
                    law_reports_left_by_rules(disk, setup, rules, here, abs_here, depth);
                    assert forall|i: int| 0 <= i < inner.len() implies inner[i] != report by {
                        assert(left_by_rules(
                            disk,
                            setup,
                            disk::dir_rules(disk, setup, rules, abs_here),
                            here,
                            abs_here,
                            inner[i],
                        ));
                    }
                }
            }
            lemma_contains_three(seq![first], inner, rest.reports, report);
            assert(seq![first].contains(report) <==> first == report) by {
                assert(seq![first][0] == first);
            }
        }
    }
}

proof fn lemma_contains_three<T>(a: Seq<T>, b: Seq<T>, c: Seq<T>, x: T)
    ensures
        (a + b + c).contains(x) <==> a.contains(x) || b.contains(x) || c.contains(x),
{
    let all = a + b + c;
    if a.contains(x) {
        let i = choose|i: int| 0 <= i < a.len() && a[i] == x;
        assert(all[i] == x);
    }
    if b.contains(x) {
        let i = choose|i: int| 0 <= i < b.len() && b[i] == x;
        assert(all[a.len() + i] == x);
    }
    if c.contains(x) {
        let i = choose|i: int| 0 <= i < c.len() && c[i] == x;
        assert(all[a.len() + b.len() + i] == x);
    }
    if all.contains(x) {
        let i = choose|i: int| 0 <= i < all.len() && all[i] == x;
        if i < a.len() {
            assert(a[i] == x);
        } else if i < a.len() + b.len() {
            assert(b[i - a.len()] == x);
        } else {
            assert(c[i - a.len() - b.len()] == x);
        }
    }
}

/// Whether a report, if it is of an index file that a rule matches, is of one
/// at least `n` levels down.
spec fn index_below(report: ReportView, n: nat) -> bool {
    report matches ReportView::IndexRule(p) ==> n <= p.len()
}

proof fn lemma_visit_index<E>(
    disk: Disk<E>,
    setup: Setup,
    rules: Seq<RulesView>,
    dir: PathView,
    abs_dir: PathView,
    entries: Seq<EntryView<E>>,
    depth: nat,
)
    ensures
        forall|i: int|
            0 <= i < disk::visit(disk, setup, rules, dir, abs_dir, entries, depth).reports.len()
                ==> index_below(
                #[trigger] disk::visit(disk, setup, rules, dir, abs_dir, entries, depth).reports[i],
                dir.len() + 2,
            ),
    decreases depth, entries.len() + 1,
{
    if entries.len() > 0 {
        let name = entries[0].name;
        let all = disk::visit(disk, setup, rules, dir, abs_dir, entries, depth).reports;
        let rest = disk::visit(disk, setup, rules, dir, abs_dir, entries.skip(1), depth).reports;
        lemma_visit_index(disk, setup, rules, dir, abs_dir, entries.skip(1), depth);
        if let Ok(kind) = entries[0].kind {
            if walk::kept(rules, abs_dir, name, kind) {
                let here = path::child(dir, name);
                let abs_here = path::child(abs_dir, name);
                let inner = disk::walk_dir(disk, setup, rules, here, abs_here, depth).reports;
                if kind is Dir {
                    lemma_walk_dir_index(disk, setup, rules, here, abs_here, depth);
                }
                assert forall|i: int| 0 <= i < all.len() implies index_below(
                    #[trigger] all[i],
                    dir.len() + 2,
                ) by {
                    if kind is Dir && 0 < i <= inner.len() {
                        assert(all[i] == inner[i - 1]);
                    } else if kind is Dir && i > 0 {
                        assert(all[i] == rest[i - 1 - inner.len()]);
                    } else if i > 0 {
                        assert(all[i] == rest[i - 1]);
                    }
                }
            }
        }
    }
}

proof fn lemma_walk_dir_index<E>(
    disk: Disk<E>,
    setup: Setup,
    rules: Seq<RulesView>,
    dir: PathView,
    abs_dir: PathView,
    depth: nat,
)
    ensures
        forall|i: int|
            0 <= i < disk::walk_dir(disk, setup, rules, dir, abs_dir, depth).reports.len()
                ==> index_below(
                #[trigger] disk::walk_dir(disk, setup, rules, dir, abs_dir, depth).reports[i],
                dir.len() + 1,
            ),
    decreases depth, 0nat,
{
    if depth > 0 {
        let all = disk::walk_dir(disk, setup, rules, dir, abs_dir, depth).reports;
        let files = disk::dir_reports(disk, setup, abs_dir);
        let inside = disk::dir_rules(disk, setup, rules, abs_dir);
        let front = files + walk::index_reports(inside, dir, abs_dir);
        if let Ok(entries) = (disk.list)(dir) {
            let sorted = order::sorted(entries, walk::entry_order::<E>());
            let fuel = (depth - 1) as nat;
            let inner = disk::visit(disk, setup, inside, dir, abs_dir, sorted, fuel).reports;
            lemma_visit_index(disk, setup, inside, dir, abs_dir, sorted, fuel);
            assert forall|i: int| front.len() <= i < all.len() implies index_below(
                #[trigger] all[i],
                dir.len() + 1,
            ) by {
                assert(all[i] == inner[i - front.len()]);
            }
        }
        assert forall|i: int| 0 <= i < all.len() implies index_below(
            #[trigger] all[i],
            dir.len() + 1,
        ) by {
            if i < files.len() {
                assert(all[i] == files[i]);
            } else if i < front.len() {
                assert(all[i] == front[i]);
            }
        }
    }
}

/// A walk that enters a directory says of its `index.md` whether the rules in
/// force there match it, and so would leave it out if it were another file. It
/// says so whether or not the directory lists one, but not where the directory
/// itself is ignored.
pub proof fn law_index_rule_reported<E>(
    disk: Disk<E>,
    setup: Setup,
    rules: Seq<RulesView>,
    dir: PathView,
    abs_dir: PathView,
    depth: nat,
)
    requires
        depth > 0,
    ensures
        disk::walk_dir(disk, setup, rules, dir, abs_dir, depth).reports.contains(
            ReportView::IndexRule(path::child(dir, walk::index_name())),
        ) <==> ignore::ignored(
            disk::dir_rules(disk, setup, rules, abs_dir),
            path::child(abs_dir, walk::index_name()),
            false,
        ) && !ignore::ignored(disk::dir_rules(disk, setup, rules, abs_dir), abs_dir, true),
{
    let whole = disk::walk_dir(disk, setup, rules, dir, abs_dir, depth).reports;
    let files = disk::dir_reports(disk, setup, abs_dir);
    let inside = disk::dir_rules(disk, setup, rules, abs_dir);
    let index = walk::index_reports(inside, dir, abs_dir);
    let report = ReportView::IndexRule(path::child(dir, walk::index_name()));
    let later = match (disk.list)(dir) {
        Err(_) => Seq::empty(),
        Ok(entries) => disk::visit(
            disk,
            setup,
            inside,
            dir,
            abs_dir,
            order::sorted(entries, walk::entry_order::<E>()),
            (depth - 1) as nat,
        ).reports,
    };
    assert(whole =~= files + index + later);
    lemma_contains_three(files, index, later, report);
    assert(!files.contains(report)) by {
        assert forall|i: int| 0 <= i < files.len() implies files[i] != report by {}
    }
    assert(!later.contains(report)) by {
        if let Ok(entries) = (disk.list)(dir) {
            let sorted = order::sorted(entries, walk::entry_order::<E>());
            lemma_visit_index(disk, setup, inside, dir, abs_dir, sorted, (depth - 1) as nat);
            assert forall|i: int| 0 <= i < later.len() implies later[i] != report by {
                assert(index_below(later[i], dir.len() + 2));
            }
        }
    }
    if index.len() > 0 {
        assert(index[0] == report);
    }
}

/// Whether the entry reported at `i`, if it lies deeper than `dir` itself, has
/// its directory reported before it.
pub open spec fn after_its_directory(reports: Seq<ReportView>, dir: PathView, i: int) -> bool {
    reports[i] matches ReportView::Entry(p, _) ==> p.len() <= dir.len() + 1 || exists|j: int|
        0 <= j < i && #[trigger] reports[j] == ReportView::Entry(p.drop_last(), FileKind::Dir)
}

proof fn lemma_after_its_directory_shifted(
    front: Seq<ReportView>,
    back: Seq<ReportView>,
    dir: PathView,
    i: int,
)
    requires
        0 <= i < back.len(),
        after_its_directory(back, dir, i),
    ensures
        after_its_directory(front + back, dir, front.len() + i),
{
    let all = front + back;
    assert(all[front.len() + i] == back[i]);
    if let ReportView::Entry(p, _) = back[i] {
        if p.len() > dir.len() + 1 {
            let j = choose|j: int|
                0 <= j < i && #[trigger] back[j] == ReportView::Entry(
                    p.drop_last(),
                    FileKind::Dir,
                );
            assert(all[front.len() + j] == back[j]);
        }
    }
}

proof fn lemma_after_its_directory_extended(
    front: Seq<ReportView>,
    back: Seq<ReportView>,
    dir: PathView,
    i: int,
)
    requires
        0 <= i < front.len(),
        after_its_directory(front, dir, i),
    ensures
        after_its_directory(front + back, dir, i),
{
    let all = front + back;
    assert(all[i] == front[i]);
    if let ReportView::Entry(p, _) = front[i] {
        if p.len() > dir.len() + 1 {
            let j = choose|j: int|
                0 <= j < i && #[trigger] front[j] == ReportView::Entry(
                    p.drop_last(),
                    FileKind::Dir,
                );
            assert(all[j] == front[j]);
        }
    }
}

proof fn lemma_visit_directories_first<E>(
    disk: Disk<E>,
    setup: Setup,
    rules: Seq<RulesView>,
    dir: PathView,
    abs_dir: PathView,
    entries: Seq<EntryView<E>>,
    depth: nat,
)
    ensures
        forall|i: int|
            0 <= i < disk::visit(disk, setup, rules, dir, abs_dir, entries, depth).reports.len()
                ==> #[trigger] after_its_directory(
                disk::visit(disk, setup, rules, dir, abs_dir, entries, depth).reports,
                dir,
                i,
            ),
    decreases depth, entries.len() + 1,
{
    if entries.len() > 0 {
        let name = entries[0].name;
        let all = disk::visit(disk, setup, rules, dir, abs_dir, entries, depth).reports;
        let rest = disk::visit(disk, setup, rules, dir, abs_dir, entries.skip(1), depth).reports;
        lemma_visit_directories_first(
            disk,
            setup,
            rules,
            dir,
            abs_dir,
            entries.skip(1),
            depth,
        );
        if let Ok(kind) = entries[0].kind {
            if walk::kept(rules, abs_dir, name, kind) {
                let here = path::child(dir, name);
                let abs_here = path::child(abs_dir, name);
                let first = seq![ReportView::Entry(here, kind)];
                if kind is Dir {
                    let whole = disk::walk_dir(disk, setup, rules, here, abs_here, depth);
                    let inner = whole.reports;
                    law_directories_first(disk, setup, rules, here, abs_here, depth);
                    law_reports_left_by_rules(disk, setup, rules, here, abs_here, depth);
                    let front = first + inner;
                    let back = if whole.end == Some(Ok::<(), E>(())) {
                        rest
                    } else {
                        Seq::empty()
                    };
                    assert(all =~= front + back);
                    assert forall|i: int| 0 <= i < front.len() implies #[trigger] after_its_directory(
                        front,
                        dir,
                        i,
                    ) by {
                        if i > 0 {
                            assert(after_its_directory(inner, here, i - 1));
                            assert(front[i] == inner[i - 1]);
                            if let ReportView::Entry(p, _) = inner[i - 1] {
                                assert(left_by_rules(
                                    disk,
                                    setup,
                                    disk::dir_rules(disk, setup, rules, abs_here),
                                    here,
                                    abs_here,
                                    inner[i - 1],
                                ));
                                if p.len() > here.len() + 1 {
                                    lemma_after_its_directory_shifted(first, inner, here, i - 1);
                                    let j = choose|j: int|
                                        0 <= j < i && #[trigger] front[j] == ReportView::Entry(
                                            p.drop_last(),
                                            FileKind::Dir,
                                        );
                                    assert(front[j] == ReportView::Entry(
                                        p.drop_last(),
                                        FileKind::Dir,
                                    ));
                                } else {
                                    assert(p.drop_last() =~= here) by {
                                        assert(p.take(here.len() as int) =~= p.drop_last());
                                    }
                                    assert(kind == FileKind::Dir);
                                    assert(front[0] == ReportView::Entry(
                                        p.drop_last(),
                                        FileKind::Dir,
                                    ));
                                }
                            }
                        }
                    }
                    assert forall|i: int| 0 <= i < all.len() implies #[trigger] after_its_directory(
                        all,
                        dir,
                        i,
                    ) by {
                        if i < front.len() {
                            assert(after_its_directory(front, dir, i));
                            lemma_after_its_directory_extended(front, back, dir, i);
                        } else {
                            assert(after_its_directory(back, dir, i - front.len()));
                            lemma_after_its_directory_shifted(
                                front,
                                back,
                                dir,
                                i - front.len(),
                            );
                        }
                    }
                } else {
                    assert(all =~= first + rest);
                    assert forall|i: int| 0 <= i < all.len() implies #[trigger] after_its_directory(
                        all,
                        dir,
                        i,
                    ) by {
                        if i > 0 {
                            assert(after_its_directory(rest, dir, i - 1));
                            lemma_after_its_directory_shifted(first, rest, dir, i - 1);
                        }
                    }
                }
            }
        }
    }
}

/// Directories are reported before their contents.
pub proof fn law_directories_first<E>(
    disk: Disk<E>,
    setup: Setup,
    rules: Seq<RulesView>,
    dir: PathView,
    abs_dir: PathView,
    depth: nat,
)
    ensures
        forall|i: int|
            0 <= i < disk::walk_dir(disk, setup, rules, dir, abs_dir, depth).reports.len()
                ==> #[trigger] after_its_directory(
                disk::walk_dir(disk, setup, rules, dir, abs_dir, depth).reports,
                dir,
                i,
            ),
    decreases depth, 0nat,
{
    if depth > 0 {
        let all = disk::walk_dir(disk, setup, rules, dir, abs_dir, depth).reports;
        let inside = disk::dir_rules(disk, setup, rules, abs_dir);
        let files = disk::dir_reports(disk, setup, abs_dir);
        let front = files + walk::index_reports(inside, dir, abs_dir);
        assert forall|i: int| 0 <= i < front.len() implies !(#[trigger] front[i] is Entry) by {
            if i < files.len() {
                assert(front[i] == files[i]);
            }
        }
        let back = match (disk.list)(dir) {
            Err(_) => Seq::empty(),
            Ok(entries) => {
                disk::visit(
                    disk,
                    setup,
                    inside,
                    dir,
                    abs_dir,
                    order::sorted(entries, walk::entry_order::<E>()),
                    (depth - 1) as nat,
                ).reports
            },
        };
        if let Ok(entries) = (disk.list)(dir) {
            lemma_visit_directories_first(
                disk,
                setup,
                inside,
                dir,
                abs_dir,
                order::sorted(entries, walk::entry_order::<E>()),
                (depth - 1) as nat,
            );
        }
        assert(all =~= front + back);
        assert forall|i: int| 0 <= i < all.len() implies #[trigger] after_its_directory(
            all,
            dir,
            i,
        ) by {
            if i < front.len() {
                assert(all[i] == front[i]);
            } else {
                assert(after_its_directory(back, dir, i - front.len()));
                lemma_after_its_directory_shifted(front, back, dir, i - front.len());
            }
        }
    }
}

/// What is reported of a directory's own entries is listed in it.
proof fn lemma_reported_is_listed<E>(
    disk: Disk<E>,
    setup: Setup,
    rules: Seq<RulesView>,
    dir: PathView,
    abs_dir: PathView,
    entries: Seq<EntryView<E>>,
    depth: nat,
    i: int,
) -> (k: int)
    requires
        0 <= i < disk::visit(disk, setup, rules, dir, abs_dir, entries, depth).reports.len(),
        disk::visit(disk, setup, rules, dir, abs_dir, entries, depth).reports[i] matches ReportView::Entry(
            p,
            _,
        ) && p.len() == dir.len() + 1,
    ensures
        0 <= k < entries.len(),
        disk::visit(disk, setup, rules, dir, abs_dir, entries, depth).reports[i] matches ReportView::Entry(
            p,
            _,
        ) && p == path::child(dir, entries[k].name),
    decreases entries.len(),
{
    let all = disk::visit(disk, setup, rules, dir, abs_dir, entries, depth).reports;
    let name = entries[0].name;
    let rest = disk::visit(disk, setup, rules, dir, abs_dir, entries.skip(1), depth).reports;
    let kind = entries[0].kind->Ok_0;
    if !walk::kept(rules, abs_dir, name, kind) {
        lemma_reported_is_listed(
            disk,
            setup,
            rules,
            dir,
            abs_dir,
            entries.skip(1),
            depth,
            i,
        ) + 1
    } else if i == 0 {
        0
    } else {
        let here = path::child(dir, name);
        let abs_here = path::child(abs_dir, name);
        let inner = if kind is Dir {
            disk::walk_dir(disk, setup, rules, here, abs_here, depth).reports
        } else {
            Seq::empty()
        };
        if i <= inner.len() {
            law_reports_left_by_rules(disk, setup, rules, here, abs_here, depth);
            assert(all[i] == inner[i - 1]);
            assert(left_by_rules(
                disk,
                setup,
                disk::dir_rules(disk, setup, rules, abs_here),
                here,
                abs_here,
                inner[i - 1],
            ));
            0
        } else {
            assert(all[i] == rest[i - 1 - inner.len()]);
            lemma_reported_is_listed(
                disk,
                setup,
                rules,
                dir,
                abs_dir,
                entries.skip(1),
                depth,
                i - 1 - inner.len(),
            ) + 1
        }
    }
}

/// The entries of a directory itself are reported in the order of their names.
pub proof fn law_name_order<E>(
    disk: Disk<E>,
    setup: Setup,
    rules: Seq<RulesView>,
    dir: PathView,
    abs_dir: PathView,
    depth: nat,
    i: int,
    j: int,
    a: Seq<u8>,
    b: Seq<u8>,
    kind_a: FileKind,
    kind_b: FileKind,
)
    requires
        0 <= i < j < disk::walk_dir(disk, setup, rules, dir, abs_dir, depth).reports.len(),
        disk::walk_dir(disk, setup, rules, dir, abs_dir, depth).reports[i] == ReportView::Entry(
            path::child(dir, a),
            kind_a,
        ),
        disk::walk_dir(disk, setup, rules, dir, abs_dir, depth).reports[j] == ReportView::Entry(
            path::child(dir, b),
            kind_b,
        ),
    ensures
        order::name_le(a, b),
{
    let all = disk::walk_dir(disk, setup, rules, dir, abs_dir, depth).reports;
    let inside = disk::dir_rules(disk, setup, rules, abs_dir);
    let files = disk::dir_reports(disk, setup, abs_dir);
    let front = files + walk::index_reports(inside, dir, abs_dir);
    assert forall|k: int| 0 <= k < front.len() implies !(#[trigger] front[k] is Entry) by {
        if k < files.len() {
            assert(front[k] == files[k]);
        }
    }
    if i < front.len() {
        assert(all[i] == front[i]);
    }
    match (disk.list)(dir) {
        Err(_) => {
            assert(all =~= front);
        },
        Ok(entries) => {
            let sorted = order::sorted(entries, walk::entry_order::<E>());
            let fuel = (depth - 1) as nat;
            let back = disk::visit(disk, setup, inside, dir, abs_dir, sorted, fuel).reports;
            assert(all[i] == back[i - front.len()] && all[j] == back[j - front.len()]);
            Entry::<E>::lemma_preorder();
            order::lemma_sorted(entries, walk::entry_order::<E>());
            lemma_visit_name_order(
                disk,
                setup,
                inside,
                dir,
                abs_dir,
                sorted,
                fuel,
                i - front.len(),
                j - front.len(),
                a,
                b,
            );
        },
    }
}

proof fn lemma_visit_name_order<E>(
    disk: Disk<E>,
    setup: Setup,
    rules: Seq<RulesView>,
    dir: PathView,
    abs_dir: PathView,
    entries: Seq<EntryView<E>>,
    depth: nat,
    i: int,
    j: int,
    a: Seq<u8>,
    b: Seq<u8>,
)
    requires
        order::is_sorted(entries, walk::entry_order::<E>()),
        0 <= i < j < disk::visit(disk, setup, rules, dir, abs_dir, entries, depth).reports.len(),
        disk::visit(disk, setup, rules, dir, abs_dir, entries, depth).reports[i] matches ReportView::Entry(
            p,
            _,
        ) && p == path::child(dir, a),
        disk::visit(disk, setup, rules, dir, abs_dir, entries, depth).reports[j] matches ReportView::Entry(
            p,
            _,
        ) && p == path::child(dir, b),
    ensures
        order::name_le(a, b),
    decreases entries.len(),
{
    let all = disk::visit(disk, setup, rules, dir, abs_dir, entries, depth).reports;
    let name = entries[0].name;
    let later = entries.skip(1);
    let rest = disk::visit(disk, setup, rules, dir, abs_dir, later, depth).reports;
    let kind = entries[0].kind->Ok_0;
    let le = walk::entry_order::<E>();
    assert forall|k: int, l: int| 0 <= k < l < later.len() implies le(
        #[trigger] later[k],
        #[trigger] later[l],
    ) by {
        assert(later[k] == entries[k + 1] && later[l] == entries[l + 1]);
    }
    assert(path::child(dir, a).last() == path::Component::Normal(a));
    assert(path::child(dir, b).last() == path::Component::Normal(b));
    if !walk::kept(rules, abs_dir, name, kind) {
        lemma_visit_name_order(disk, setup, rules, dir, abs_dir, later, depth, i, j, a, b);
    } else {
        let here = path::child(dir, name);
        let abs_here = path::child(abs_dir, name);
        let inner = if kind is Dir {
            disk::walk_dir(disk, setup, rules, here, abs_here, depth).reports
        } else {
            Seq::empty()
        };
        if kind is Dir {
            law_reports_left_by_rules(disk, setup, rules, here, abs_here, depth);
        }
        assert forall|k: int| 0 < k <= inner.len() implies all[k] != ReportView::Entry(
            path::child(dir, b),
            all[k]->Entry_1,
        ) && all[k] != ReportView::Entry(path::child(dir, a), all[k]->Entry_1) by {
            assert(all[k] == inner[k - 1]);
            assert(left_by_rules(
                disk,
                setup,
                disk::dir_rules(disk, setup, rules, abs_here),
                here,
                abs_here,
                inner[k - 1],
            ));
        }
        let n = 1 + inner.len();
        assert(j >= n);
        assert(all[j] == rest[j - n]);
        if i == 0 {
            assert(here.last() == path::Component::Normal(name));
            assert(a == name);
            let k = lemma_reported_is_listed(
                disk,
                setup,
                rules,
                dir,
                abs_dir,
                later,
                depth,
                j - n,
            );
            assert(path::child(dir, later[k].name).last() == path::Component::Normal(
                later[k].name,
            ));
            assert(later[k].name == b);
            assert(le(entries[0], entries[k + 1]));
        } else {
            assert(i >= n);
            assert(all[i] == rest[i - n]);
            lemma_visit_name_order(
                disk,
                setup,
                rules,
                dir,
                abs_dir,
                later,
                depth,
                i - n,
                j - n,
                a,
                b,
            );
        }
    }
}

proof fn lemma_visit_ignored<E>(
    disk: Disk<E>,
    setup: Setup,
    rules: Seq<RulesView>,
    dir: PathView,
    abs_dir: PathView,
    entries: Seq<EntryView<E>>,
    depth: nat,
)
    requires
        ignore::ignored(rules, abs_dir, true),
    ensures
        disk::visit(disk, setup, rules, dir, abs_dir, entries, depth).reports.len() == 0,
    decreases entries.len(),
{
    if entries.len() > 0 {
        lemma_visit_ignored(disk, setup, rules, dir, abs_dir, entries.skip(1), depth);
        let name = entries[0].name;
        let rel = seq![path::Component::Normal(name)];
        if let Ok(kind) = entries[0].kind {
            ignore::law_ignored_directory(rules, abs_dir, rel, kind is Dir);
            assert(abs_dir + rel =~= path::child(abs_dir, name));
        }
    }
}

/// Nothing in an ignored directory is kept or listed, not even its `index.md`,
/// and not even if that directory is the root of the walk: all that a walk of
/// it reports is ignore files.
pub proof fn law_ignored_root<E>(
    disk: Disk<E>,
    setup: Setup,
    rules: Seq<RulesView>,
    dir: PathView,
    abs_dir: PathView,
    depth: nat,
)
    requires
        ignore::ignored(disk::dir_rules(disk, setup, rules, abs_dir), abs_dir, true),
    ensures
        forall|i: int|
            0 <= i < disk::walk_dir(disk, setup, rules, dir, abs_dir, depth).reports.len() ==> (
            #[trigger] disk::walk_dir(disk, setup, rules, dir, abs_dir, depth).reports[i])
                is RuleFile,
{
    if depth > 0 {
        let all = disk::walk_dir(disk, setup, rules, dir, abs_dir, depth).reports;
        let files = disk::dir_reports(disk, setup, abs_dir);
        if let Ok(entries) = (disk.list)(dir) {
            lemma_visit_ignored(
                disk,
                setup,
                disk::dir_rules(disk, setup, rules, abs_dir),
                dir,
                abs_dir,
                order::sorted(entries, walk::entry_order::<E>()),
                (depth - 1) as nat,
            );
        }
        assert(all =~= files);
    }
}

// ---------------------------------------------------------------------------
// Which ignore files are reported
// ---------------------------------------------------------------------------

/// The ignore files of some directories that exist, directory by directory.
pub open spec fn files_of<E>(disk: Disk<E>, setup: Setup, dirs: Seq<PathView>) -> Seq<PathView>
    decreases dirs.len(),
{
    if dirs.len() == 0 {
        Seq::empty()
    } else {
        let files = disk::dir_files(setup, dirs.last());
        files_of(disk, setup, dirs.drop_last()) + layers::present(
            files,
            disk::looked_for(disk, files),
        )
    }
}

/// The directories among the reported entries, in that order, by absolute
/// path, where `dir` is reported as it is and lies at `abs_dir`.
pub open spec fn dirs_reported(
    reports: Seq<ReportView>,
    dir: PathView,
    abs_dir: PathView,
) -> Seq<PathView>
    decreases reports.len(),
{
    if reports.len() == 0 {
        Seq::empty()
    } else {
        let before = dirs_reported(reports.drop_last(), dir, abs_dir);
        match reports.last() {
            ReportView::Entry(p, kind) => if kind is Dir {
                before.push(abs_dir + p.skip(dir.len() as int))
            } else {
                before
            },
            _ => before,
        }
    }
}

proof fn lemma_files_of_joined<E>(
    disk: Disk<E>,
    setup: Setup,
    a: Seq<PathView>,
    b: Seq<PathView>,
)
    ensures
        files_of(disk, setup, a + b) == files_of(disk, setup, a) + files_of(disk, setup, b),
    decreases b.len(),
{
    if b.len() == 0 {
        assert(a + b =~= a);
        assert(files_of(disk, setup, a) + files_of(disk, setup, b) =~= files_of(disk, setup, a));
    } else {
        lemma_files_of_joined(disk, setup, a, b.drop_last());
        assert((a + b).drop_last() =~= a + b.drop_last());
        assert((a + b).last() == b.last());
        assert(files_of(disk, setup, a + b) =~= files_of(disk, setup, a) + files_of(disk, setup, b));
    }
}

proof fn lemma_dirs_reported_joined(
    a: Seq<ReportView>,
    b: Seq<ReportView>,
    dir: PathView,
    abs_dir: PathView,
)
    ensures
        dirs_reported(a + b, dir, abs_dir) == dirs_reported(a, dir, abs_dir) + dirs_reported(
            b,
            dir,
            abs_dir,
        ),
    decreases b.len(),
{
    let before = dirs_reported(a, dir, abs_dir);
    if b.len() == 0 {
        assert(a + b =~= a);
        assert(before + dirs_reported(b, dir, abs_dir) =~= before);
    } else {
        lemma_dirs_reported_joined(a, b.drop_last(), dir, abs_dir);
        assert((a + b).drop_last() =~= a + b.drop_last());
        assert((a + b).last() == b.last());
        assert(dirs_reported(a + b, dir, abs_dir) =~= before + dirs_reported(b, dir, abs_dir));
    }
}

proof fn lemma_rule_files_joined(a: Seq<ReportView>, b: Seq<ReportView>)
    ensures
        walk::rule_files(a + b) == walk::rule_files(a) + walk::rule_files(b),
    decreases b.len(),
{
    let before = walk::rule_files(a);
    if b.len() == 0 {
        assert(a + b =~= a);
        assert(before + walk::rule_files(b) =~= before);
    } else {
        lemma_rule_files_joined(a, b.drop_last());
        assert((a + b).drop_last() =~= a + b.drop_last());
        assert((a + b).last() == b.last());
        assert(walk::rule_files(a + b) =~= before + walk::rule_files(b));
    }
}

/// Reports of ignore files are of those files, and of no directory.
proof fn lemma_rule_reports(paths: Seq<PathView>, dir: PathView, abs_dir: PathView)
    ensures
        walk::rule_files(walk::rule_reports(paths)) == paths,
        dirs_reported(walk::rule_reports(paths), dir, abs_dir).len() == 0,
    decreases paths.len(),
{
    let reports = walk::rule_reports(paths);
    if paths.len() == 0 {
        assert(walk::rule_files(reports) =~= paths);
    } else {
        lemma_rule_reports(paths.drop_last(), dir, abs_dir);
        assert(reports.drop_last() =~= walk::rule_reports(paths.drop_last()));
        assert(walk::rule_files(reports) =~= paths);
    }
}

/// Seen from the directory above, the directories reported are the same.
proof fn lemma_dirs_reported_outside(
    reports: Seq<ReportView>,
    dir: PathView,
    abs_dir: PathView,
    name: Seq<u8>,
)
    requires
        forall|i: int|
            0 <= i < reports.len() ==> (#[trigger] reports[i] matches ReportView::Entry(p, _)
                ==> path::child(dir, name).is_prefix_of(p)),
    ensures
        dirs_reported(reports, path::child(dir, name), path::child(abs_dir, name))
            == dirs_reported(reports, dir, abs_dir),
    decreases reports.len(),
{
    if reports.len() > 0 {
        let front = reports.drop_last();
        assert forall|i: int| 0 <= i < front.len() implies (
        #[trigger] front[i] matches ReportView::Entry(p, _) ==> path::child(
            dir,
            name,
        ).is_prefix_of(p)) by {
            assert(front[i] == reports[i]);
        }
        lemma_dirs_reported_outside(front, dir, abs_dir, name);
        let n = dir.len() as int;
        assert(reports[reports.len() - 1] == reports.last());
        if let ReportView::Entry(p, _) = reports.last() {
            let here = path::child(dir, name);
            assert(here.is_prefix_of(p));
            assert(p[n] == here[n]);
            assert(path::child(abs_dir, name) + p.skip(n + 1) =~= abs_dir + p.skip(n));
        }
    }
}

proof fn lemma_visit_rule_files<E>(
    disk: Disk<E>,
    setup: Setup,
    rules: Seq<RulesView>,
    dir: PathView,
    abs_dir: PathView,
    entries: Seq<EntryView<E>>,
    depth: nat,
)
    requires
        disk::visit(disk, setup, rules, dir, abs_dir, entries, depth).end is Some,
    ensures
        ({
            let reports = disk::visit(disk, setup, rules, dir, abs_dir, entries, depth).reports;
            walk::rule_files(reports) == files_of(
                disk,
                setup,
                dirs_reported(reports, dir, abs_dir),
            )
        }),
    decreases depth, entries.len() + 1,
{
    let all = disk::visit(disk, setup, rules, dir, abs_dir, entries, depth).reports;
    if entries.len() > 0 {
        let name = entries[0].name;
        let later = disk::visit(disk, setup, rules, dir, abs_dir, entries.skip(1), depth);
        if let Ok(kind) = entries[0].kind {
            if !walk::kept(rules, abs_dir, name, kind) {
                lemma_visit_rule_files(
                    disk,
                    setup,
                    rules,
                    dir,
                    abs_dir,
                    entries.skip(1),
                    depth,
                );
            } else {
                let here = path::child(dir, name);
                let abs_here = path::child(abs_dir, name);
                let first = seq![ReportView::Entry(here, kind)];
                assert(first.drop_last() =~= Seq::empty());
                assert(walk::rule_files(first.drop_last()) =~= Seq::empty());
                assert(walk::rule_files(first) =~= Seq::empty());
                assert(dirs_reported(first.drop_last(), dir, abs_dir) =~= Seq::empty());
                let whole = disk::walk_dir(disk, setup, rules, here, abs_here, depth);
                let inner: Seq<ReportView> = if kind is Dir {
                    whole.reports
                } else {
                    Seq::empty()
                };
                let goes_on = !(kind is Dir) || whole.end == Some(Ok::<(), E>(()));
                let back: Seq<ReportView> = if goes_on {
                    later.reports
                } else {
                    Seq::empty()
                };
                assert(all =~= first + inner + back);
                lemma_rule_files_joined(first + inner, back);
                lemma_rule_files_joined(first, inner);
                lemma_dirs_reported_joined(first + inner, back, dir, abs_dir);
                lemma_dirs_reported_joined(first, inner, dir, abs_dir);
                if goes_on {
                    lemma_visit_rule_files(
                        disk,
                        setup,
                        rules,
                        dir,
                        abs_dir,
                        entries.skip(1),
                        depth,
                    );
                }
                let inner_dirs = dirs_reported(inner, dir, abs_dir);
                let back_dirs = dirs_reported(back, dir, abs_dir);
                let first_dirs = dirs_reported(first, dir, abs_dir);
                lemma_files_of_joined(disk, setup, first_dirs + inner_dirs, back_dirs);
                if kind is Dir {
                    law_directory_rule_files(disk, setup, rules, here, abs_here, depth);
                    law_reports_left_by_rules(disk, setup, rules, here, abs_here, depth);
                    assert forall|i: int| 0 <= i < inner.len() implies (
                    #[trigger] inner[i] matches ReportView::Entry(p, _) ==> here.is_prefix_of(p)) by {
                        assert(left_by_rules(
                            disk,
                            setup,
                            disk::dir_rules(disk, setup, rules, abs_here),
                            here,
                            abs_here,
                            inner[i],
                        ));
                    }
                    lemma_dirs_reported_outside(inner, dir, abs_dir, name);
                    let n = dir.len() as int;
                    assert(abs_dir + here.skip(n) =~= abs_here);
                    assert(first_dirs =~= seq![abs_here]);
                } else {
                    assert(first_dirs =~= Seq::empty());
                    assert(inner_dirs =~= Seq::empty());
                    assert(first_dirs + inner_dirs =~= Seq::empty());
                }
                assert(walk::rule_files(all) =~= files_of(
                    disk,
                    setup,
                    dirs_reported(all, dir, abs_dir),
                ));
            }
        }
    }
}

/// The ignore files that a walk of a directory reports are those that exist in
/// the directory and in each directory that it reports, in that order, and no
/// others, however the walk ends.
pub proof fn law_directory_rule_files<E>(
    disk: Disk<E>,
    setup: Setup,
    rules: Seq<RulesView>,
    dir: PathView,
    abs_dir: PathView,
    depth: nat,
)
    requires
        disk::walk_dir(disk, setup, rules, dir, abs_dir, depth).end is Some,
    ensures
        ({
            let reports = disk::walk_dir(disk, setup, rules, dir, abs_dir, depth).reports;
            walk::rule_files(reports) == files_of(
                disk,
                setup,
                seq![abs_dir] + dirs_reported(reports, dir, abs_dir),
            )
        }),
    decreases depth, 0nat,
{
    let all = disk::walk_dir(disk, setup, rules, dir, abs_dir, depth).reports;
    let files = disk::dir_files(setup, abs_dir);
    let there = layers::present(files, disk::looked_for(disk, files));
    let front = disk::dir_reports(disk, setup, abs_dir);
    let inside = disk::dir_rules(disk, setup, rules, abs_dir);
    let index = walk::index_reports(inside, dir, abs_dir);
    let fuel = (depth - 1) as nat;
    let back = match (disk.list)(dir) {
        Err(_) => Seq::empty(),
        Ok(entries) => disk::visit(
            disk,
            setup,
            inside,
            dir,
            abs_dir,
            order::sorted(entries, walk::entry_order::<E>()),
            fuel,
        ).reports,
    };
    if let Ok(entries) = (disk.list)(dir) {
        lemma_visit_rule_files(
            disk,
            setup,
            inside,
            dir,
            abs_dir,
            order::sorted(entries, walk::entry_order::<E>()),
            fuel,
        );
    }
    assert(all =~= front + index + back);
    lemma_rule_files_joined(front + index, back);
    lemma_rule_files_joined(front, index);
    lemma_dirs_reported_joined(front + index, back, dir, abs_dir);
    lemma_dirs_reported_joined(front, index, dir, abs_dir);
    lemma_rule_reports(there, dir, abs_dir);
    if index.len() > 0 {
        assert(index.drop_last() =~= Seq::empty());
        assert(walk::rule_files(index.drop_last()) =~= Seq::empty());
        assert(dirs_reported(index.drop_last(), dir, abs_dir) =~= Seq::empty());
    }
    assert(walk::rule_files(index) =~= Seq::empty());
    assert(dirs_reported(index, dir, abs_dir) =~= Seq::empty());
    let dirs = dirs_reported(back, dir, abs_dir);
    assert(dirs_reported(all, dir, abs_dir) =~= dirs);
    lemma_files_of_joined(disk, setup, seq![abs_dir], dirs);
    assert(seq![abs_dir].drop_last() =~= Seq::empty());
    assert(files_of(disk, setup, seq![abs_dir].drop_last()) =~= Seq::empty());
    assert(files_of(disk, setup, seq![abs_dir]) =~= there);
    assert(walk::rule_files(all) =~= there + files_of(disk, setup, dirs));
}

proof fn lemma_walk_from_rule_files<E>(
    disk: Disk<E>,
    setup: Setup,
    rules: Seq<RulesView>,
    root: PathView,
    above: Seq<PathView>,
    depth: nat,
)
    requires
        disk::walk_from(disk, setup, rules, root, above, depth).end is Some,
    ensures
        ({
            let reports = disk::walk_from(disk, setup, rules, root, above, depth).reports;
            walk::rule_files(reports) == files_of(
                disk,
                setup,
                above.reverse() + seq![setup.root] + dirs_reported(reports, root, setup.root),
            )
        }),
    decreases above.len(),
{
    let all = disk::walk_from(disk, setup, rules, root, above, depth).reports;
    let dirs = dirs_reported(all, root, setup.root);
    if above.len() == 0 {
        law_directory_rule_files(disk, setup, rules, root, setup.root, depth);
        assert(above.reverse() + seq![setup.root] + dirs =~= seq![setup.root] + dirs);
    } else {
        let last = above.last();
        let files = disk::dir_files(setup, last);
        let there = layers::present(files, disk::looked_for(disk, files));
        let front = disk::dir_reports(disk, setup, last);
        let rest = above.drop_last();
        let next = disk::dir_rules(disk, setup, rules, last);
        let back = disk::walk_from(disk, setup, next, root, rest, depth).reports;
        lemma_walk_from_rule_files(disk, setup, next, root, rest, depth);
        lemma_rule_reports(there, root, setup.root);
        lemma_rule_files_joined(front, back);
        lemma_dirs_reported_joined(front, back, root, setup.root);
        assert(dirs =~= dirs_reported(back, root, setup.root));
        let later = rest.reverse() + seq![setup.root] + dirs;
        assert(above.reverse() + seq![setup.root] + dirs =~= seq![last] + later);
        lemma_files_of_joined(disk, setup, seq![last], later);
        assert(seq![last].drop_last() =~= Seq::empty());
        assert(files_of(disk, setup, seq![last].drop_last()) =~= Seq::empty());
        assert(files_of(disk, setup, seq![last]) =~= there);
    }
}

/// The explicit ignore files by absolute path, in the order of the sources.
pub open spec fn explicit_files<E>(disk: Disk<E>, sources: Seq<SourceView>) -> Seq<PathView> {
    layers::explicit_paths(sources).map_values(
        |p: PathView| path::resolve((disk.absolute)(p)->Ok_0),
    )
}

/// Where all explicit files could be read, all are reported.
proof fn lemma_all_read<E>(reads: Seq<Result<layers::RuleTextView, E>>)
    requires
        forall|i: int| 0 <= i < reads.len() ==> (#[trigger] reads[i]) is Ok,
    ensures
        walk::files_read(reads) == reads.map_values(
            |read: Result<layers::RuleTextView, E>| read->Ok_0.path,
        ),
    decreases reads.len(),
{
    let f = |read: Result<layers::RuleTextView, E>| read->Ok_0.path;
    if reads.len() == 0 {
        assert(walk::files_read(reads) =~= reads.map_values(f));
    } else {
        let front = reads.drop_last();
        assert forall|i: int| 0 <= i < front.len() implies (#[trigger] front[i]) is Ok by {
            assert(front[i] == reads[i]);
        }
        lemma_all_read(front);
        assert(reads[reads.len() - 1] is Ok);
        assert(walk::files_read(reads) =~= reads.map_values(f));
    }
}

/// The ignore files that a whole walk reports: the explicit files, in the order
/// of the sources; then those that exist in the ancestors, shallowest first;
/// then those that exist in the root and in each directory that is reported, in
/// that order. There are no others. A walk that does not get past its explicit
/// files reports none.
pub proof fn law_walk_rule_files<E>(
    disk: Disk<E>,
    root: PathView,
    sources: Seq<SourceView>,
    depth: nat,
)
    requires
        disk::walk(disk, root, sources, depth).end is Some,
    ensures
        ({
            let reports = disk::walk(disk, root, sources, depth).reports;
            match (disk.absolute)(root) {
                Err(_) => walk::rule_files(reports).len() == 0,
                Ok(abs) => {
                    let start = disk::located(disk, root, abs, sources);
                    let files = disk::reads(disk, sources);
                    match layers::source_layers(
                        sources,
                        files,
                        start.abs_root,
                        start.ancestors,
                        disk.separator,
                    ) {
                        Err(_) => walk::rule_files(reports).len() == 0,
                        Ok(layers) => walk::rule_files(reports) == explicit_files(
                            disk,
                            sources,
                        ) + files_of(
                            disk,
                            Setup { root: start.abs_root, layers },
                            start.ancestors.reverse() + seq![start.abs_root] + dirs_reported(
                                reports,
                                root,
                                start.abs_root,
                            ),
                        ),
                    }
                },
            }
        }),
{
    if let Ok(abs) = (disk.absolute)(root) {
        let start = disk::located(disk, root, abs, sources);
        let files = disk::reads(disk, sources);
        if let Ok(layers) = layers::source_layers(
            sources,
            files,
            start.abs_root,
            start.ancestors,
            disk.separator,
        ) {
            let setup = Setup { root: start.abs_root, layers };
            let rules = seq![ignore::builtin_rules(start.abs_root)];
            let front = walk::rule_reports(walk::files_read(files));
            let back = disk::walk_from(
                disk,
                setup,
                rules,
                root,
                start.ancestors,
                depth,
            ).reports;
            layers::law_explicit_files_must_be_read(
                sources,
                files,
                start.abs_root,
                start.ancestors,
                disk.separator,
            );
            lemma_all_read(files);
            assert(walk::files_read(files) =~= explicit_files(disk, sources));
            lemma_walk_from_rule_files(disk, setup, rules, root, start.ancestors, depth);
            lemma_rule_reports(walk::files_read(files), root, start.abs_root);
            lemma_rule_files_joined(front, back);
            lemma_dirs_reported_joined(front, back, root, start.abs_root);
            assert(dirs_reported(front + back, root, start.abs_root) =~= dirs_reported(
                back,
                root,
                start.abs_root,
            ));
        }
    }
}

// ---------------------------------------------------------------------------
// The order of the entries
// ---------------------------------------------------------------------------

/// Whether two reports, if both are of entries, are of different ones in the
/// order of their paths.
pub open spec fn in_order(a: ReportView, b: ReportView) -> bool {
    match (a, b) {
        (ReportView::Entry(p, _), ReportView::Entry(q, _)) => order::path_le(p, q) && p != q,
        _ => true,
    }
}

/// Whether the reported entries ascend strictly in the order of their paths, so
/// that none is reported twice.
pub open spec fn ascending(reports: Seq<ReportView>) -> bool {
    forall|i: int, j: int|
        0 <= i < j < reports.len() ==> #[trigger] in_order(reports[i], reports[j])
}

/// Whether no name occurs twice.
pub open spec fn unique_names<E>(entries: Seq<EntryView<E>>) -> bool {
    forall|i: int, j: int|
        0 <= i < j < entries.len() ==> (#[trigger] entries[i]).name != (#[trigger] entries[j]).name
}

/// Whether no directory lists a name twice.
pub open spec fn no_name_twice<E>(disk: Disk<E>) -> bool {
    forall|dir: PathView|
        #[trigger] (disk.list)(dir) matches Ok(entries) ==> unique_names(entries)
}

proof fn lemma_ascending_joined(a: Seq<ReportView>, b: Seq<ReportView>)
    requires
        ascending(a),
        ascending(b),
        forall|i: int, j: int|
            0 <= i < a.len() && 0 <= j < b.len() ==> #[trigger] in_order(a[i], b[j]),
    ensures
        ascending(a + b),
{
    let all = a + b;
    let n = a.len() as int;
    assert forall|i: int, j: int| 0 <= i < j < all.len() implies #[trigger] in_order(
        all[i],
        all[j],
    ) by {
        if j < n {
            assert(in_order(a[i], a[j]));
        } else if i < n {
            assert(in_order(a[i], b[j - n]));
        } else {
            assert(in_order(b[i - n], b[j - n]));
        }
    }
}

/// Sorting entries repeats no name.
pub proof fn lemma_sorted_unique<E>(entries: Seq<EntryView<E>>)
    requires
        unique_names(entries),
    ensures
        unique_names(order::sorted(entries, walk::entry_order::<E>())),
        order::is_sorted(
            order::sorted(entries, walk::entry_order::<E>()),
            walk::entry_order::<E>(),
        ),
{
    broadcast use vstd::seq_lib::group_to_multiset_ensures;

    Entry::<E>::lemma_preorder();
    order::lemma_sorted(entries, walk::entry_order::<E>());
    let sorted = order::sorted(entries, walk::entry_order::<E>());
    assert(entries.no_duplicates()) by {
        assert forall|i: int, j: int|
            0 <= i < entries.len() && 0 <= j < entries.len() && i != j implies entries[i]
            != entries[j] by {
            if i < j {
                assert(entries[i].name != entries[j].name);
            } else {
                assert(entries[j].name != entries[i].name);
            }
        }
    }
    entries.lemma_multiset_has_no_duplicates();
    sorted.lemma_multiset_has_no_duplicates_conv();
    assert forall|i: int, j: int| 0 <= i < j < sorted.len() implies (#[trigger] sorted[i]).name != (
    #[trigger] sorted[j]).name by {
        assert(sorted[i] != sorted[j]);
        assert(sorted.to_multiset().count(sorted[i]) > 0);
        assert(sorted.to_multiset().count(sorted[j]) > 0);
        assert(entries.contains(sorted[i]) && entries.contains(sorted[j]));
        let k = choose|k: int| 0 <= k < entries.len() && entries[k] == sorted[i];
        let l = choose|l: int| 0 <= l < entries.len() && entries[l] == sorted[j];
        if k < l {
            assert(entries[k].name != entries[l].name);
        } else {
            assert(entries[l].name != entries[k].name);
        }
    }
}

/// Whether a report, if it is of an entry, is of one that is among those listed
/// or lies below one of them.
spec fn under_listed<E>(dir: PathView, entries: Seq<EntryView<E>>, report: ReportView) -> bool {
    report matches ReportView::Entry(p, _) ==> exists|k: int|
        0 <= k < entries.len() && path::child(dir, (#[trigger] entries[k]).name).is_prefix_of(p)
}

proof fn lemma_visit_under_listed<E>(
    disk: Disk<E>,
    setup: Setup,
    rules: Seq<RulesView>,
    dir: PathView,
    abs_dir: PathView,
    entries: Seq<EntryView<E>>,
    depth: nat,
    i: int,
)
    requires
        0 <= i < disk::visit(disk, setup, rules, dir, abs_dir, entries, depth).reports.len(),
    ensures
        under_listed(
            dir,
            entries,
            disk::visit(disk, setup, rules, dir, abs_dir, entries, depth).reports[i],
        ),
    decreases entries.len(),
{
    let all = disk::visit(disk, setup, rules, dir, abs_dir, entries, depth).reports;
    let later = entries.skip(1);
    let rest = disk::visit(disk, setup, rules, dir, abs_dir, later, depth).reports;
    let name = entries[0].name;
    let kind = entries[0].kind->Ok_0;
    let here = path::child(dir, name);
    let abs_here = path::child(abs_dir, name);
    let is_kept = walk::kept(rules, abs_dir, name, kind);
    let inner: Seq<ReportView> = if is_kept && kind is Dir {
        disk::walk_dir(disk, setup, rules, here, abs_here, depth).reports
    } else {
        Seq::empty()
    };
    let n = if is_kept {
        1 + inner.len()
    } else {
        0
    };
    if i >= n {
        assert(all[i] == rest[i - n]);
        lemma_visit_under_listed(disk, setup, rules, dir, abs_dir, later, depth, i - n);
        if let ReportView::Entry(p, _) = all[i] {
            let k = choose|k: int|
                0 <= k < later.len() && path::child(
                    dir,
                    (#[trigger] later[k]).name,
                ).is_prefix_of(p);
            assert(entries[k + 1] == later[k]);
        }
    } else {
        assert(entries[0].name == name);
        if i == 0 {
            assert(all[0] == ReportView::Entry(here, kind));
            assert(here.take(here.len() as int) =~= here);
            assert(here.is_prefix_of(here));
        } else {
            law_reports_left_by_rules(disk, setup, rules, here, abs_here, depth);
            assert(all[i] == inner[i - 1]);
            assert(left_by_rules(
                disk,
                setup,
                disk::dir_rules(disk, setup, rules, abs_here),
                here,
                abs_here,
                inner[i - 1],
            ));
        }
    }
}

/// What lies in or below an entry comes before what lies in or below one with a
/// later name.
proof fn lemma_names_decide(
    dir: PathView,
    a: Seq<u8>,
    b: Seq<u8>,
    p: PathView,
    q: PathView,
)
    requires
        order::name_le(a, b),
        a != b,
        path::child(dir, a).is_prefix_of(p),
        path::child(dir, b).is_prefix_of(q),
    ensures
        order::path_le(p, q),
        p != q,
{
    let x = path::Component::Normal(a);
    let y = path::Component::Normal(b);
    let n = dir.len() as int + 1;
    order::lemma_path_decided(dir, x, p.skip(n), y, q.skip(n));
    assert(p =~= dir + seq![x] + p.skip(n)) by {
        assert(p.take(n) =~= path::child(dir, a));
        assert(p =~= p.take(n) + p.skip(n));
    }
    assert(q =~= dir + seq![y] + q.skip(n)) by {
        assert(q.take(n) =~= path::child(dir, b));
        assert(q =~= q.take(n) + q.skip(n));
    }
}

proof fn lemma_visit_ascending<E>(
    disk: Disk<E>,
    setup: Setup,
    rules: Seq<RulesView>,
    dir: PathView,
    abs_dir: PathView,
    entries: Seq<EntryView<E>>,
    depth: nat,
)
    requires
        no_name_twice(disk),
        unique_names(entries),
        order::is_sorted(entries, walk::entry_order::<E>()),
    ensures
        ascending(disk::visit(disk, setup, rules, dir, abs_dir, entries, depth).reports),
    decreases depth, entries.len() + 1,
{
    if entries.len() > 0 {
        let all = disk::visit(disk, setup, rules, dir, abs_dir, entries, depth).reports;
        let name = entries[0].name;
        let later = entries.skip(1);
        let rest = disk::visit(disk, setup, rules, dir, abs_dir, later, depth).reports;
        let le = walk::entry_order::<E>();
        assert forall|k: int, l: int| 0 <= k < l < later.len() implies (#[trigger] later[k]).name
            != (#[trigger] later[l]).name && le(later[k], later[l]) by {
            assert(later[k] == entries[k + 1] && later[l] == entries[l + 1]);
        }
        lemma_visit_ascending(disk, setup, rules, dir, abs_dir, later, depth);
        if let Ok(kind) = entries[0].kind {
            if walk::kept(rules, abs_dir, name, kind) {
                let here = path::child(dir, name);
                let abs_here = path::child(abs_dir, name);
                let first = seq![ReportView::Entry(here, kind)];
                let whole = disk::walk_dir(disk, setup, rules, here, abs_here, depth);
                let inner: Seq<ReportView> = if kind is Dir {
                    whole.reports
                } else {
                    Seq::empty()
                };
                let back: Seq<ReportView> = if !(kind is Dir) || whole.end == Some(
                    Ok::<(), E>(()),
                ) {
                    rest
                } else {
                    Seq::empty()
                };
                let front = first + inner;
                assert(all =~= front + back);
                if kind is Dir {
                    lemma_walk_dir_ascending(disk, setup, rules, here, abs_here, depth);
                    law_reports_left_by_rules(disk, setup, rules, here, abs_here, depth);
                }
                assert forall|j: int| 0 <= j < inner.len() implies (
                #[trigger] inner[j] matches ReportView::Entry(p, _) ==> here.is_prefix_of(p)
                    && here.len() < p.len()) by {
                    assert(left_by_rules(
                        disk,
                        setup,
                        disk::dir_rules(disk, setup, rules, abs_here),
                        here,
                        abs_here,
                        inner[j],
                    ));
                }
                assert forall|i: int, j: int|
                    0 <= i < first.len() && 0 <= j < inner.len() implies #[trigger] in_order(
                    first[i],
                    inner[j],
                ) by {
                    if let ReportView::Entry(p, _) = inner[j] {
                        order::lemma_path_extended(here, p);
                    }
                }
                lemma_ascending_joined(first, inner);
                assert forall|i: int, j: int|
                    0 <= i < front.len() && 0 <= j < back.len() implies #[trigger] in_order(
                    front[i],
                    back[j],
                ) by {
                    if let (ReportView::Entry(p, _), ReportView::Entry(q, _)) = (
                        front[i],
                        back[j],
                    ) {
                        lemma_visit_under_listed(
                            disk,
                            setup,
                            rules,
                            dir,
                            abs_dir,
                            later,
                            depth,
                            j,
                        );
                        let k = choose|k: int|
                            0 <= k < later.len() && path::child(
                                dir,
                                (#[trigger] later[k]).name,
                            ).is_prefix_of(q);
                        assert(later[k] == entries[k + 1]);
                        assert(le(entries[0], entries[k + 1]));
                        assert(entries[0].name != entries[k + 1].name);
                        if i == 0 {
                            assert(here.take(here.len() as int) =~= here);
                            assert(here.is_prefix_of(p));
                        } else {
                            assert(front[i] == inner[i - 1]);
                        }
                        lemma_names_decide(dir, name, later[k].name, p, q);
                    }
                }
                lemma_ascending_joined(front, back);
            }
        }
    }
}

proof fn lemma_walk_dir_ascending<E>(
    disk: Disk<E>,
    setup: Setup,
    rules: Seq<RulesView>,
    dir: PathView,
    abs_dir: PathView,
    depth: nat,
)
    requires
        no_name_twice(disk),
    ensures
        ascending(disk::walk_dir(disk, setup, rules, dir, abs_dir, depth).reports),
    decreases depth, 0nat,
{
    if depth > 0 {
        let all = disk::walk_dir(disk, setup, rules, dir, abs_dir, depth).reports;
        let inside = disk::dir_rules(disk, setup, rules, abs_dir);
        let files = disk::dir_reports(disk, setup, abs_dir);
        let front = files + walk::index_reports(inside, dir, abs_dir);
        assert forall|i: int| 0 <= i < front.len() implies !(#[trigger] front[i] is Entry) by {
            if i < files.len() {
                assert(front[i] == files[i]);
            }
        }
        let fuel = (depth - 1) as nat;
        match (disk.list)(dir) {
            Err(_) => {
                assert(all =~= front);
            },
            Ok(entries) => {
                let sorted = order::sorted(entries, walk::entry_order::<E>());
                lemma_sorted_unique(entries);
                lemma_visit_ascending(disk, setup, inside, dir, abs_dir, sorted, fuel);
                lemma_ascending_joined(
                    front,
                    disk::visit(disk, setup, inside, dir, abs_dir, sorted, fuel).reports,
                );
            },
        }
    }
}

proof fn lemma_walk_from_ascending<E>(
    disk: Disk<E>,
    setup: Setup,
    rules: Seq<RulesView>,
    root: PathView,
    above: Seq<PathView>,
    depth: nat,
)
    requires
        no_name_twice(disk),
    ensures
        ascending(disk::walk_from(disk, setup, rules, root, above, depth).reports),
    decreases above.len(),
{
    if above.len() == 0 {
        lemma_walk_dir_ascending(disk, setup, rules, root, setup.root, depth);
    } else {
        let next = disk::dir_rules(disk, setup, rules, above.last());
        lemma_walk_from_ascending(disk, setup, next, root, above.drop_last(), depth);
        lemma_ascending_joined(
            disk::dir_reports(disk, setup, above.last()),
            disk::walk_from(disk, setup, next, root, above.drop_last(), depth).reports,
        );
    }
}

/// The entries that a whole walk reports ascend strictly in the order of their
/// paths, and so none is reported twice, as long as no directory lists a name
/// twice.
pub proof fn law_entries_ascend<E>(
    disk: Disk<E>,
    root: PathView,
    sources: Seq<SourceView>,
    depth: nat,
)
    requires
        no_name_twice(disk),
    ensures
        ascending(disk::walk(disk, root, sources, depth).reports),
{
    if let Ok(abs) = (disk.absolute)(root) {
        let start = disk::located(disk, root, abs, sources);
        let files = disk::reads(disk, sources);
        if let Ok(layers) = layers::source_layers(
            sources,
            files,
            start.abs_root,
            start.ancestors,
            disk.separator,
        ) {
            let setup = Setup { root: start.abs_root, layers };
            let rules = seq![ignore::builtin_rules(start.abs_root)];
            lemma_walk_from_ascending(disk, setup, rules, root, start.ancestors, depth);
            lemma_ascending_joined(
                walk::rule_reports(walk::files_read(files)),
                disk::walk_from(disk, setup, rules, root, start.ancestors, depth).reports,
            );
        }
    }
}

} // verus!
