//! What a walk of a disk finds, entry by entry, and where it fails.

use vstd::prelude::*;

use crate::disk::{self, Disk, Setup};
use crate::ignore::{self, RulesView, SourceView};
use crate::layers;
use crate::order::{self, Sortable};
use crate::path::{self, Component, PathView};
use crate::survey;
use crate::walk::{self, Entry, EntryView, FileKind, ReportView};

verus! {

/// Whether the rules in force in a directory leave an entry of it: they do not
/// ignore it, or it is an `index.md` other than a directory and they do not ignore
/// the directory itself.
pub open spec fn left_alone(
    rules: Seq<RulesView>,
    abs_dir: PathView,
    name: Seq<u8>,
    kind: FileKind,
) -> bool {
    ||| !ignore::ignored(rules, abs_dir.push(Component::Normal(name)), kind is Dir)
    ||| !(kind is Dir) && name == seq![
        0x69u8,
        0x6eu8,
        0x64u8,
        0x65u8,
        0x78u8,
        0x2eu8,
        0x6du8,
        0x64u8,
    ] && !ignore::ignored(rules, abs_dir, true)
}

/// A report of a path: of an entry of this kind, or of none if it is of an index
/// file that a rule matches.
pub open spec fn report_of(p: PathView, kind: Option<FileKind>) -> ReportView {
    match kind {
        Some(kind) => ReportView::Entry(p, kind),
        None => ReportView::IndexRule(p),
    }
}

/// Whether the way from `dir` along `rel` leads over directories that are listed
/// and left alone to something to report: at its end to an entry of this kind
/// that is listed and left alone, or, for an index file, to one that a rule
/// matches in a directory that no rule matches. `rules` are those in force in
/// `dir`, and each directory on the way adds its own.
pub open spec fn leads_to<E>(
    disk: Disk<E>,
    setup: Setup,
    rules: Seq<RulesView>,
    dir: PathView,
    abs_dir: PathView,
    rel: PathView,
    kind: Option<FileKind>,
) -> bool
    decreases rel.len(), 1nat,
{
    if rel.len() == 1 && kind is None {
        &&& rel[0] == Component::Normal(
            seq![0x69u8, 0x6eu8, 0x64u8, 0x65u8, 0x78u8, 0x2eu8, 0x6du8, 0x64u8],
        )
        &&& ignore::ignored(rules, abs_dir.push(rel[0]), false)
        &&& !ignore::ignored(rules, abs_dir, true)
    } else {
        (disk.list)(dir) matches Ok(entries) && leads_over(
            disk,
            setup,
            rules,
            dir,
            abs_dir,
            entries,
            rel,
            kind,
        )
    }
}

/// Whether the way from `dir` along `rel` leads over one of these entries.
pub open spec fn leads_over<E>(
    disk: Disk<E>,
    setup: Setup,
    rules: Seq<RulesView>,
    dir: PathView,
    abs_dir: PathView,
    entries: Seq<EntryView<E>>,
    rel: PathView,
    kind: Option<FileKind>,
) -> bool
    decreases rel.len(), 0nat,
{
    &&& rel.len() > 0
    &&& rel[0] matches Component::Normal(name) && if rel.len() == 1 {
        kind matches Some(kind) && entries.contains(EntryView { name, kind: Ok::<FileKind, E>(kind) })
            && left_alone(rules, abs_dir, name, kind)
    } else {
        let deeper = abs_dir.push(rel[0]);
        &&& entries.contains(EntryView { name, kind: Ok::<FileKind, E>(FileKind::Dir) })
        &&& left_alone(rules, abs_dir, name, FileKind::Dir)
        &&& leads_to(
            disk,
            setup,
            disk::dir_rules(disk, setup, rules, deeper),
            dir.push(rel[0]),
            deeper,
            rel.skip(1),
            kind,
        )
    }
}

/// Whether a report is of an ignore file, or of something inside `dir`.
spec fn inside(report: ReportView, dir: PathView) -> bool {
    match report {
        ReportView::Entry(p, _) => dir.is_prefix_of(p) && dir.len() < p.len(),
        ReportView::IndexRule(p) => dir.is_prefix_of(p) && dir.len() < p.len(),
        ReportView::RuleFile(_) => true,
    }
}

proof fn lemma_inside_deeper(report: ReportView, dir: PathView, name: Seq<u8>)
    requires
        inside(report, path::child(dir, name)),
    ensures
        inside(report, dir),
{
    let here = path::child(dir, name);
    assert forall|p: PathView| here.is_prefix_of(p) implies dir.is_prefix_of(p) by {
        assert(p.take(dir.len() as int) =~= here.take(dir.len() as int));
        assert(here.take(dir.len() as int) =~= dir);
    }
}

proof fn lemma_visit_inside<E>(
    disk: Disk<E>,
    setup: Setup,
    rules: Seq<RulesView>,
    dir: PathView,
    abs_dir: PathView,
    entries: Seq<EntryView<E>>,
    depth: nat,
    r: ReportView,
)
    requires
        disk::visit(disk, setup, rules, dir, abs_dir, entries, depth).reports.contains(r),
    ensures
        inside(r, dir),
    decreases depth, entries.len() + 1,
{
    if entries.len() > 0 {
        let name = entries[0].name;
        let here = path::child(dir, name);
        let abs_here = path::child(abs_dir, name);
        let rest = disk::visit(disk, setup, rules, dir, abs_dir, entries.skip(1), depth).reports;
        if rest.contains(r) {
            lemma_visit_inside(disk, setup, rules, dir, abs_dir, entries.skip(1), depth, r);
        } else {
            let kind = entries[0].kind->Ok_0;
            let first = seq![ReportView::Entry(here, kind)];
            assert(here.take(dir.len() as int) =~= dir);
            if kind is Dir {
                let inner = disk::walk_dir(disk, setup, rules, here, abs_here, depth);
                lemma_contains_joined(first, inner.reports + rest, r);
                lemma_contains_joined(first, inner.reports, r);
                lemma_contains_joined(inner.reports, rest, r);
                if inner.reports.contains(r) {
                    lemma_walk_dir_inside(disk, setup, rules, here, abs_here, depth, r);
                    lemma_inside_deeper(r, dir, name);
                }
            } else {
                lemma_contains_joined(first, rest, r);
            }
        }
    }
}

proof fn lemma_contains_joined<T>(a: Seq<T>, b: Seq<T>, x: T)
    ensures
        (a + b).contains(x) <==> a.contains(x) || b.contains(x),
{
    if a.contains(x) {
        let i = choose|i: int| 0 <= i < a.len() && a[i] == x;
        assert((a + b)[i] == x);
    }
    if b.contains(x) {
        let i = choose|i: int| 0 <= i < b.len() && b[i] == x;
        assert((a + b)[a.len() + i] == x);
    }
    if (a + b).contains(x) {
        let i = choose|i: int| 0 <= i < (a + b).len() && (a + b)[i] == x;
        if i < a.len() {
            assert(a[i] == x);
        } else {
            assert(b[i - a.len()] == x);
        }
    }
}

proof fn lemma_walk_dir_inside<E>(
    disk: Disk<E>,
    setup: Setup,
    rules: Seq<RulesView>,
    dir: PathView,
    abs_dir: PathView,
    depth: nat,
    r: ReportView,
)
    requires
        disk::walk_dir(disk, setup, rules, dir, abs_dir, depth).reports.contains(r),
    ensures
        inside(r, dir),
    decreases depth, 0nat,
{
    if depth > 0 {
        let now = disk::dir_rules(disk, setup, rules, abs_dir);
        let own = disk::dir_reports(disk, setup, abs_dir);
        let index = walk::index_reports(now, dir, abs_dir);
        let below = match (disk.list)(dir) {
            Ok(entries) => disk::visit(
                disk,
                setup,
                now,
                dir,
                abs_dir,
                order::sorted(entries, walk::entry_order::<E>()),
                (depth - 1) as nat,
            ).reports,
            Err(_) => Seq::empty(),
        };
        assert(disk::walk_dir(disk, setup, rules, dir, abs_dir, depth).reports =~= own + index
            + below);
        lemma_contains_joined(own + index, below, r);
        lemma_contains_joined(own, index, r);
        if below.contains(r) {
            lemma_visit_inside(
                disk,
                setup,
                now,
                dir,
                abs_dir,
                order::sorted((disk.list)(dir)->Ok_0, walk::entry_order::<E>()),
                (depth - 1) as nat,
                r,
            );
        } else if index.contains(r) {
            let p = path::child(dir, walk::index_name());
            assert(p.take(dir.len() as int) =~= dir);
        }
    }
}

/// The entry that comes first among some is one of them.
proof fn lemma_first_or_rest<E>(entries: Seq<EntryView<E>>, entry: EntryView<E>)
    requires
        entries.len() > 0,
    ensures
        entries.contains(entry) <==> entries[0] == entry || entries.skip(1).contains(entry),
{
    assert(entries =~= seq![entries[0]] + entries.skip(1));
    lemma_contains_joined(seq![entries[0]], entries.skip(1), entry);
    assert(seq![entries[0]].contains(entry) <==> entries[0] == entry) by {
        assert(seq![entries[0]][0] == entries[0]);
    }
}

proof fn lemma_kept_left_alone(
    rules: Seq<RulesView>,
    abs_dir: PathView,
    name: Seq<u8>,
    kind: FileKind,
)
    ensures
        walk::kept(rules, abs_dir, name, kind) == left_alone(rules, abs_dir, name, kind),
{
}

proof fn lemma_visit_finds<E>(
    disk: Disk<E>,
    setup: Setup,
    rules: Seq<RulesView>,
    dir: PathView,
    abs_dir: PathView,
    entries: Seq<EntryView<E>>,
    depth: nat,
    rel: PathView,
    kind: Option<FileKind>,
)
    requires
        disk::visit(disk, setup, rules, dir, abs_dir, entries, depth).end == Some(Ok::<(), E>(())),
    ensures
        disk::visit(disk, setup, rules, dir, abs_dir, entries, depth).reports.contains(
            report_of(dir + rel, kind),
        ) <==> leads_over(disk, setup, rules, dir, abs_dir, entries, rel, kind),
    decreases depth, entries.len() + 1,
{
    let r = report_of(dir + rel, kind);
    let whole = disk::visit(disk, setup, rules, dir, abs_dir, entries, depth);
    if rel.len() == 0 {
        assert(dir + rel =~= dir);
        if whole.reports.contains(r) {
            lemma_visit_inside(disk, setup, rules, dir, abs_dir, entries, depth, r);
        }
    } else if entries.len() > 0 {
        let later = entries.skip(1);
        let rest = disk::visit(disk, setup, rules, dir, abs_dir, later, depth);
        let entry = entries[0];
        let own = entry.kind->Ok_0;
        let here = path::child(dir, entry.name);
        let abs_here = path::child(abs_dir, entry.name);
        lemma_kept_left_alone(rules, abs_dir, entry.name, own);
        if let Component::Normal(name) = rel[0] {
            if let Some(kind) = kind {
                lemma_first_or_rest(entries, EntryView { name, kind: Ok::<FileKind, E>(kind) });
            }
            lemma_first_or_rest(entries, EntryView { name, kind: Ok::<FileKind, E>(FileKind::Dir) });
        }
        if !walk::kept(rules, abs_dir, entry.name, own) {
            lemma_visit_finds(disk, setup, rules, dir, abs_dir, later, depth, rel, kind);
        } else {
            let first = seq![ReportView::Entry(here, own)];
            assert(first.contains(r) <==> rel.len() == 1 && rel[0] == Component::Normal(entry.name)
                && kind == Some(own)) by {
                assert(first[0] == ReportView::Entry(here, own));
                if dir + rel == here {
                    assert((dir + rel).len() == here.len());
                    assert((dir + rel)[dir.len() as int] == here[dir.len() as int]);
                }
                if rel.len() == 1 && rel[0] == Component::Normal(entry.name) {
                    assert(dir + rel =~= here);
                }
            }
            if own is Dir {
                let inner = disk::walk_dir(disk, setup, rules, here, abs_here, depth);
                lemma_visit_finds(disk, setup, rules, dir, abs_dir, later, depth, rel, kind);
                lemma_contains_joined(first, inner.reports + rest.reports, r);
                lemma_contains_joined(inner.reports, rest.reports, r);
                if rel[0] == Component::Normal(entry.name) {
                    lemma_walk_dir_finds(
                        disk,
                        setup,
                        rules,
                        here,
                        abs_here,
                        depth,
                        rel.skip(1),
                        kind,
                    );
                    assert(here + rel.skip(1) =~= dir + rel);
                    assert(here == dir.push(rel[0]));
                    assert(abs_here == abs_dir.push(rel[0]));
                    if rel.len() == 1 {
                        assert(rel.skip(1) =~= Seq::empty());
                        if inner.reports.contains(r) {
                            lemma_walk_dir_inside(disk, setup, rules, here, abs_here, depth, r);
                        }
                    }
                } else if inner.reports.contains(r) {
                    lemma_walk_dir_inside(disk, setup, rules, here, abs_here, depth, r);
                    assert((dir + rel)[dir.len() as int] == here[dir.len() as int]);
                }
            } else {
                lemma_visit_finds(disk, setup, rules, dir, abs_dir, later, depth, rel, kind);
                lemma_contains_joined(first, rest.reports, r);
            }
        }
    }
}

proof fn lemma_walk_dir_finds<E>(
    disk: Disk<E>,
    setup: Setup,
    rules: Seq<RulesView>,
    dir: PathView,
    abs_dir: PathView,
    depth: nat,
    rel: PathView,
    kind: Option<FileKind>,
)
    requires
        disk::walk_dir(disk, setup, rules, dir, abs_dir, depth).end == Some(Ok::<(), E>(())),
    ensures
        disk::walk_dir(disk, setup, rules, dir, abs_dir, depth).reports.contains(
            report_of(dir + rel, kind),
        ) <==> leads_to(
            disk,
            setup,
            disk::dir_rules(disk, setup, rules, abs_dir),
            dir,
            abs_dir,
            rel,
            kind,
        ),
    decreases depth, 0nat,
{
    let r = report_of(dir + rel, kind);
    let now = disk::dir_rules(disk, setup, rules, abs_dir);
    let own = disk::dir_reports(disk, setup, abs_dir);
    let index = walk::index_reports(now, dir, abs_dir);
    let entries = (disk.list)(dir)->Ok_0;
    let sorted = order::sorted(entries, walk::entry_order::<E>());
    let below = disk::visit(disk, setup, now, dir, abs_dir, sorted, (depth - 1) as nat);
    lemma_visit_finds(disk, setup, now, dir, abs_dir, sorted, (depth - 1) as nat, rel, kind);
    lemma_sorted_same(entries);
    assert(disk::walk_dir(disk, setup, rules, dir, abs_dir, depth).reports =~= own + index
        + below.reports);
    lemma_contains_joined(own + index, below.reports, r);
    lemma_contains_joined(own, index, r);
    assert(!own.contains(r));
    let name = seq![0x69u8, 0x6eu8, 0x64u8, 0x65u8, 0x78u8, 0x2eu8, 0x6du8, 0x64u8];
    let p = dir.push(Component::Normal(name));
    assert(index.contains(r) <==> rel.len() == 1 && kind is None && rel[0] == Component::Normal(
        name,
    ) && ignore::ignored(now, abs_dir.push(rel[0]), false) && !ignore::ignored(now, abs_dir, true))
        by {
        if dir + rel == p {
            assert((dir + rel).len() == p.len());
            assert((dir + rel)[dir.len() as int] == p[dir.len() as int]);
        }
        if rel.len() == 1 && rel[0] == Component::Normal(name) {
            assert(dir + rel =~= p);
        }
        if index.len() > 0 {
            assert(index[0] == ReportView::IndexRule(p));
        }
    }
}

proof fn lemma_sorted_same<E>(entries: Seq<EntryView<E>>)
    ensures
        forall|entry: EntryView<E>| #[trigger]
            order::sorted(entries, walk::entry_order::<E>()).contains(entry) <==> entries.contains(
                entry,
            ),
{
    broadcast use vstd::seq_lib::group_to_multiset_ensures;

    let sorted = order::sorted(entries, walk::entry_order::<E>());
    Entry::<E>::lemma_preorder();
    order::lemma_sorted(entries, walk::entry_order::<E>());
    assert forall|entry: EntryView<E>| #[trigger] sorted.contains(entry) <==> entries.contains(
        entry,
    ) by {
        assert(sorted.to_multiset().count(entry) == entries.to_multiset().count(entry));
    }
}

/// A walk of a directory that goes well reports exactly the entries that a way
/// leads to, over directories that are listed and that the rules leave: of
/// entries other than an `index.md` it reports only those that the rules in force
/// in their own directory do not ignore. And it says of the `index.md` of
/// exactly those directories on the way that a rule matches it where one does.
pub proof fn law_walk_finds<E>(
    disk: Disk<E>,
    setup: Setup,
    rules: Seq<RulesView>,
    dir: PathView,
    abs_dir: PathView,
    depth: nat,
    rel: PathView,
    kind: FileKind,
)
    requires
        disk::walk_dir(disk, setup, rules, dir, abs_dir, depth).end == Some(Ok::<(), E>(())),
    ensures
        ({
            let reports = disk::walk_dir(disk, setup, rules, dir, abs_dir, depth).reports;
            let inside = disk::dir_rules(disk, setup, rules, abs_dir);
            &&& reports.contains(ReportView::Entry(dir + rel, kind)) <==> leads_to(
                disk,
                setup,
                inside,
                dir,
                abs_dir,
                rel,
                Some(kind),
            )
            &&& reports.contains(ReportView::IndexRule(dir + rel)) <==> leads_to(
                disk,
                setup,
                inside,
                dir,
                abs_dir,
                rel,
                None,
            )
        }),
{
    lemma_walk_dir_finds(disk, setup, rules, dir, abs_dir, depth, rel, Some(kind));
    lemma_walk_dir_finds(disk, setup, rules, dir, abs_dir, depth, rel, None);
}


/// However a walk of a directory ends, what it reports and the rules in force
/// in its own directory ignore is an `index.md` and no directory: an entry of any
/// other name is reported only if these rules do not ignore its path.
pub proof fn law_reported_not_ignored<E>(
    disk: Disk<E>,
    setup: Setup,
    rules: Seq<RulesView>,
    dir: PathView,
    abs_dir: PathView,
    depth: nat,
    p: PathView,
    kind: FileKind,
)
    requires
        disk::walk_dir(disk, setup, rules, dir, abs_dir, depth).reports.contains(
            ReportView::Entry(p, kind),
        ),
        kind is Dir || p.len() == 0 || p.last() != Component::Normal(
            seq![0x69u8, 0x6eu8, 0x64u8, 0x65u8, 0x78u8, 0x2eu8, 0x6du8, 0x64u8],
        ),
    ensures
        dir.len() < p.len(),
        p.take(dir.len() as int) == dir,
        p.last() is Normal,
        ({
            let rel = p.skip(dir.len() as int);
            !ignore::ignored(
                survey::rules_below(
                    disk,
                    setup,
                    disk::dir_rules(disk, setup, rules, abs_dir),
                    abs_dir,
                    rel.drop_last(),
                ),
                abs_dir + rel,
                kind is Dir,
            )
        }),
{
    let reports = disk::walk_dir(disk, setup, rules, dir, abs_dir, depth).reports;
    let i = choose|i: int| 0 <= i < reports.len() && reports[i] == ReportView::Entry(p, kind);
    survey::law_reports_left_by_rules(disk, setup, rules, dir, abs_dir, depth);
    assert(survey::left_by_rules(
        disk,
        setup,
        disk::dir_rules(disk, setup, rules, abs_dir),
        dir,
        abs_dir,
        reports[i],
    ));
    let rel = p.skip(dir.len() as int);
    let name = path::file_name(p)->0;
    assert(p.take(dir.len() as int) =~= dir);
    assert(path::child(abs_dir + rel.drop_last(), name) =~= abs_dir + rel);
}

/// Whether a directory cannot be listed, or one of its entries not be told apart,
/// for this reason.
pub open spec fn fails<E>(disk: Disk<E>, dir: PathView, e: E) -> bool {
    match (disk.list)(dir) {
        Err(reason) => reason == e,
        Ok(entries) => exists|i: int|
            0 <= i < entries.len() && (#[trigger] entries[i]).kind == Err::<FileKind, E>(e),
    }
}

proof fn lemma_visit_goes_well<E>(
    disk: Disk<E>,
    setup: Setup,
    rules: Seq<RulesView>,
    dir: PathView,
    abs_dir: PathView,
    entries: Seq<EntryView<E>>,
    depth: nat,
    i: int,
)
    requires
        disk::visit(disk, setup, rules, dir, abs_dir, entries, depth).end == Some(Ok::<(), E>(())),
        0 <= i < entries.len(),
    ensures
        entries[i].kind is Ok,
        entries[i].kind == Ok::<FileKind, E>(FileKind::Dir) && left_alone(
            rules,
            abs_dir,
            entries[i].name,
            FileKind::Dir,
        ) ==> disk::walk_dir(
            disk,
            setup,
            rules,
            dir.push(Component::Normal(entries[i].name)),
            abs_dir.push(Component::Normal(entries[i].name)),
            depth,
        ).end == Some(Ok::<(), E>(())),
    decreases entries.len(),
{
    if i > 0 {
        assert(entries.skip(1)[i - 1] == entries[i]);
        lemma_visit_goes_well(disk, setup, rules, dir, abs_dir, entries.skip(1), depth, i - 1);
    }
}

/// A walk that goes well has listed every directory that a way leads to, and
/// could tell all their entries apart.
pub proof fn law_walk_goes_well<E>(
    disk: Disk<E>,
    setup: Setup,
    rules: Seq<RulesView>,
    dir: PathView,
    abs_dir: PathView,
    depth: nat,
    rel: PathView,
    e: E,
)
    requires
        disk::walk_dir(disk, setup, rules, dir, abs_dir, depth).end == Some(Ok::<(), E>(())),
        rel.len() == 0 || leads_to(
            disk,
            setup,
            disk::dir_rules(disk, setup, rules, abs_dir),
            dir,
            abs_dir,
            rel,
            Some(FileKind::Dir),
        ),
    ensures
        !fails(disk, dir + rel, e),
    decreases depth,
{
    let now = disk::dir_rules(disk, setup, rules, abs_dir);
    let entries = (disk.list)(dir)->Ok_0;
    let sorted = order::sorted(entries, walk::entry_order::<E>());
    let fuel = (depth - 1) as nat;
    lemma_sorted_same(entries);
    if rel.len() == 0 {
        assert(dir + rel =~= dir);
        assert forall|i: int| 0 <= i < entries.len() implies (#[trigger] entries[i]).kind is Ok by {
            assert(entries.contains(entries[i]));
            assert(sorted.contains(entries[i]));
            let k = choose|k: int| 0 <= k < sorted.len() && sorted[k] == entries[i];
            lemma_visit_goes_well(disk, setup, now, dir, abs_dir, sorted, fuel, k);
        }
    } else {
        let name = rel[0]->Normal_0;
        let entry = EntryView { name, kind: Ok::<FileKind, E>(FileKind::Dir) };
        assert(sorted.contains(entry));
        let k = choose|k: int| 0 <= k < sorted.len() && sorted[k] == entry;
        lemma_visit_goes_well(disk, setup, now, dir, abs_dir, sorted, fuel, k);
        law_walk_goes_well(
            disk,
            setup,
            now,
            dir.push(rel[0]),
            abs_dir.push(rel[0]),
            fuel,
            rel.skip(1),
            e,
        );
        assert(dir.push(rel[0]) + rel.skip(1) =~= dir + rel);
    }
}

proof fn lemma_visit_fails<E>(
    disk: Disk<E>,
    setup: Setup,
    rules: Seq<RulesView>,
    dir: PathView,
    abs_dir: PathView,
    entries: Seq<EntryView<E>>,
    depth: nat,
    e: E,
) -> (found: (int, PathView))
    requires
        disk::visit(disk, setup, rules, dir, abs_dir, entries, depth).end == Some(Err::<(), E>(e)),
    ensures
        ({
            let (i, rel) = found;
            let deeper = abs_dir.push(Component::Normal(entries[i].name));
            let here = dir.push(Component::Normal(entries[i].name));
            &&& 0 <= i < entries.len()
            &&& entries[i].kind == Err::<FileKind, E>(e) || {
                &&& entries[i].kind == Ok::<FileKind, E>(FileKind::Dir)
                &&& left_alone(rules, abs_dir, entries[i].name, FileKind::Dir)
                &&& rel.len() == 0 || leads_to(
                    disk,
                    setup,
                    disk::dir_rules(disk, setup, rules, deeper),
                    here,
                    deeper,
                    rel,
                    Some(FileKind::Dir),
                )
                &&& fails(disk, here + rel, e)
            }
        }),
    decreases depth, entries.len() + 1,
{
    let entry = entries[0];
    let later = entries.skip(1);
    match entry.kind {
        Err(_) => (0int, Seq::empty()),
        Ok(kind) => {
            let here = path::child(dir, entry.name);
            let abs_here = path::child(abs_dir, entry.name);
            let inner = disk::walk_dir(disk, setup, rules, here, abs_here, depth);
            if walk::kept(rules, abs_dir, entry.name, kind) && kind is Dir && inner.end != Some(
                Ok::<(), E>(()),
            ) {
                let rel = law_walk_fails(disk, setup, rules, here, abs_here, depth, e);
                (0int, rel)
            } else {
                let (i, rel) = lemma_visit_fails(
                    disk,
                    setup,
                    rules,
                    dir,
                    abs_dir,
                    later,
                    depth,
                    e,
                );
                assert(later[i] == entries[i + 1]);
                (i + 1, rel)
            }
        },
    }
}

/// A walk fails for a reason that one of the directories gives that a way leads
/// to: it cannot be listed, or one of its entries not be told apart.
pub proof fn law_walk_fails<E>(
    disk: Disk<E>,
    setup: Setup,
    rules: Seq<RulesView>,
    dir: PathView,
    abs_dir: PathView,
    depth: nat,
    e: E,
) -> (rel: PathView)
    requires
        disk::walk_dir(disk, setup, rules, dir, abs_dir, depth).end == Some(Err::<(), E>(e)),
    ensures
        rel.len() == 0 || leads_to(
            disk,
            setup,
            disk::dir_rules(disk, setup, rules, abs_dir),
            dir,
            abs_dir,
            rel,
            Some(FileKind::Dir),
        ),
        fails(disk, dir + rel, e),
    decreases depth, 0nat,
{
    let now = disk::dir_rules(disk, setup, rules, abs_dir);
    let none: PathView = Seq::empty();
    assert(dir + none =~= dir);
    match (disk.list)(dir) {
        Err(_) => none,
        Ok(entries) => {
            let sorted = order::sorted(entries, walk::entry_order::<E>());
            let (i, rel) = lemma_visit_fails(
                disk,
                setup,
                now,
                dir,
                abs_dir,
                sorted,
                (depth - 1) as nat,
                e,
            );
            lemma_sorted_same(entries);
            assert(sorted.contains(sorted[i]));
            assert(entries.contains(sorted[i]));
            if sorted[i].kind is Err {
                none
            } else {
                let first: PathView = seq![Component::Normal(sorted[i].name)];
                let whole = first + rel;
                assert(whole.skip(1) =~= rel);
                assert(dir.push(whole[0]) + rel =~= dir + whole);
                assert(sorted[i] == EntryView {
                    name: sorted[i].name,
                    kind: Ok::<FileKind, E>(FileKind::Dir),
                });
                whole
            }
        },
    }
}

/// The rule sets in force below some directories, each of which adds its own, one
/// after another.
pub open spec fn rules_through<E>(
    disk: Disk<E>,
    setup: Setup,
    rules: Seq<RulesView>,
    dirs: Seq<PathView>,
) -> Seq<RulesView>
    decreases dirs.len(),
{
    if dirs.len() == 0 {
        rules
    } else {
        rules_through(disk, setup, disk::dir_rules(disk, setup, rules, dirs[0]), dirs.skip(1))
    }
}

proof fn lemma_rules_through_last<E>(
    disk: Disk<E>,
    setup: Setup,
    rules: Seq<RulesView>,
    dirs: Seq<PathView>,
    last: PathView,
)
    ensures
        rules_through(disk, setup, rules, dirs.push(last)) == disk::dir_rules(
            disk,
            setup,
            rules_through(disk, setup, rules, dirs),
            last,
        ),
    decreases dirs.len(),
{
    let all = dirs.push(last);
    if dirs.len() == 0 {
        assert(all.skip(1) =~= Seq::empty());
        assert(rules_through(
            disk,
            setup,
            disk::dir_rules(disk, setup, rules, last),
            all.skip(1),
        ) == disk::dir_rules(disk, setup, rules, last));
    } else {
        assert(all.skip(1) =~= dirs.skip(1).push(last));
        lemma_rules_through_last(
            disk,
            setup,
            disk::dir_rules(disk, setup, rules, dirs[0]),
            dirs.skip(1),
            last,
        );
    }
}

proof fn lemma_walk_from<E>(
    disk: Disk<E>,
    setup: Setup,
    rules: Seq<RulesView>,
    root: PathView,
    above: Seq<PathView>,
    depth: nat,
    r: ReportView,
)
    requires
        !(r is RuleFile),
    ensures
        ({
            let from = disk::walk_from(disk, setup, rules, root, above, depth);
            let inner = disk::walk_dir(
                disk,
                setup,
                rules_through(disk, setup, rules, above.reverse()),
                root,
                setup.root,
                depth,
            );
            from.end == inner.end && (from.reports.contains(r) <==> inner.reports.contains(r))
        }),
    decreases above.len(),
{
    let dirs = above.reverse();
    if above.len() > 0 {
        let next = disk::dir_rules(disk, setup, rules, above.last());
        assert(dirs[0] == above.last());
        assert(dirs.skip(1) =~= above.drop_last().reverse());
        lemma_walk_from(disk, setup, next, root, above.drop_last(), depth, r);
        lemma_contains_joined(
            disk::dir_reports(disk, setup, above.last()),
            disk::walk_from(disk, setup, next, root, above.drop_last(), depth).reports,
            r,
        );
    }
}

/// A whole walk that goes well reports exactly what a way leads to from the root.
/// The rules in force there are those that every walk begins with, then those of
/// the ancestors that lie in the root's repository, from the one farthest up to
/// the nearest, and then the root's own. The layers are those of the sources.
pub proof fn law_whole_walk<E>(
    disk: Disk<E>,
    root: PathView,
    sources: Seq<SourceView>,
    depth: nat,
    abs: PathView,
    rel: PathView,
    kind: FileKind,
)
    requires
        (disk.absolute)(root) == Ok::<PathView, E>(abs),
        disk::walk(disk, root, sources, depth).end == Some(Ok::<(), E>(())),
    ensures
        ({
            let reports = disk::walk(disk, root, sources, depth).reports;
            let abs_root = path::resolve(abs);
            let ancestors = layers::repository_ancestors(
                abs_root,
                layers::repository_marks(abs_root).map_values(|p: PathView| (disk.exists)(p)),
            );
            layers::source_layers(
                sources,
                disk::reads(disk, sources),
                abs_root,
                ancestors,
                disk.separator,
            ) matches Ok(layers) && {
                let setup = Setup { root: abs_root, layers };
                let inside = rules_through(
                    disk,
                    setup,
                    seq![ignore::builtin_rules(abs_root)],
                    ancestors.reverse().push(abs_root),
                );
                &&& reports.contains(ReportView::Entry(root + rel, kind)) <==> leads_to(
                    disk,
                    setup,
                    inside,
                    root,
                    abs_root,
                    rel,
                    Some(kind),
                )
                &&& reports.contains(ReportView::IndexRule(root + rel)) <==> leads_to(
                    disk,
                    setup,
                    inside,
                    root,
                    abs_root,
                    rel,
                    None,
                )
            }
        }),
{
    let start = disk::located(disk, root, abs, sources);
    let files = disk::reads(disk, sources);
    if let Ok(layers) = layers::source_layers(
        sources,
        files,
        start.abs_root,
        start.ancestors,
        disk.separator,
    ) {
        let setup = Setup { root: start.abs_root, layers };
        let first = seq![ignore::builtin_rules(start.abs_root)];
        let dirs = start.ancestors.reverse();
        let seeds = rules_through(disk, setup, first, dirs);
        let entry = ReportView::Entry(root + rel, kind);
        let index = ReportView::IndexRule(root + rel);
        let from = disk::walk_from(disk, setup, first, root, start.ancestors, depth);
        let read = walk::rule_reports(walk::files_read(files));
        lemma_walk_from(disk, setup, first, root, start.ancestors, depth, entry);
        lemma_walk_from(disk, setup, first, root, start.ancestors, depth, index);
        lemma_contains_joined(read, from.reports, entry);
        lemma_contains_joined(read, from.reports, index);
        law_walk_finds(disk, setup, seeds, root, start.abs_root, depth, rel, kind);
        lemma_rules_through_last(disk, setup, first, dirs, start.abs_root);
    }
}

/// A walk whose root has no absolute path fails, and so does one with an explicit
/// file that cannot be read: for the reason given, and with nothing reported. Each
/// explicit file is read at its absolute path, with `.` and `..` resolved.
pub proof fn law_walk_setup_fails<E>(
    disk: Disk<E>,
    root: PathView,
    sources: Seq<SourceView>,
    depth: nat,
    i: int,
    e: E,
)
    requires
        (disk.absolute)(root) == Err::<PathView, E>(e) || ((disk.absolute)(root) is Ok && {
            let paths = layers::explicit_paths(sources);
            &&& 0 <= i < paths.len()
            &&& forall|j: int|
                0 <= j < i ==> ((disk.absolute)(#[trigger] paths[j]) matches Ok(abs) && (disk.read)(
                    path::resolve(abs),
                ) is Ok)
            &&& (disk.absolute)(paths[i]) == Err::<PathView, E>(e) || ((disk.absolute)(
                paths[i],
            ) matches Ok(abs) && (disk.read)(path::resolve(abs)) == Err::<Seq<char>, E>(e))
        }),
    ensures
        disk::walk(disk, root, sources, depth).end == Some(Err::<(), E>(e)),
        disk::walk(disk, root, sources, depth).reports.len() == 0,
{
    if let Ok(abs) = (disk.absolute)(root) {
        let start = disk::located(disk, root, abs, sources);
        let files = disk::reads(disk, sources);
        let paths = layers::explicit_paths(sources);
        layers::law_explicit_files_must_be_read(
            sources,
            files,
            start.abs_root,
            start.ancestors,
            disk.separator,
        );
        assert(files[i] == Err::<layers::RuleTextView, E>(e));
        assert forall|j: int| 0 <= j < i implies (#[trigger] files[j]) is Ok by {
            assert((disk.absolute)(paths[j]) is Ok);
        }
    }
}

/// Whether no index file that a rule matches is reported twice.
pub open spec fn index_once(reports: Seq<ReportView>) -> bool {
    forall|i: int, j: int|
        0 <= i < j < reports.len() && #[trigger] reports[i] is IndexRule ==> reports[i]
            != #[trigger] reports[j]
}

proof fn lemma_index_once_joined(a: Seq<ReportView>, b: Seq<ReportView>)
    requires
        index_once(a),
        index_once(b),
        forall|r: ReportView| r is IndexRule && #[trigger] a.contains(r) ==> !b.contains(r),
    ensures
        index_once(a + b),
{
    let all = a + b;
    assert forall|i: int, j: int|
        0 <= i < j < all.len() && #[trigger] all[i] is IndexRule implies all[i]
        != #[trigger] all[j] by {
        if j < a.len() {
            assert(all[i] == a[i] && all[j] == a[j]);
        } else if i >= a.len() {
            assert(all[i] == b[i - a.len()] && all[j] == b[j - a.len()]);
        } else {
            assert(all[i] == a[i] && all[j] == b[j - a.len()]);
            assert(a.contains(a[i]));
            assert(b.contains(b[j - a.len()]));
        }
    }
}

/// What is reported of an index file from some entries lies in one of them.
proof fn lemma_visit_index_inside<E>(
    disk: Disk<E>,
    setup: Setup,
    rules: Seq<RulesView>,
    dir: PathView,
    abs_dir: PathView,
    entries: Seq<EntryView<E>>,
    depth: nat,
    r: ReportView,
) -> (k: int)
    requires
        r is IndexRule,
        disk::visit(disk, setup, rules, dir, abs_dir, entries, depth).reports.contains(r),
    ensures
        0 <= k < entries.len(),
        inside(r, path::child(dir, entries[k].name)),
    decreases entries.len(),
{
    let later = entries.skip(1);
    let rest = disk::visit(disk, setup, rules, dir, abs_dir, later, depth).reports;
    if rest.contains(r) {
        let k = lemma_visit_index_inside(disk, setup, rules, dir, abs_dir, later, depth, r);
        assert(later[k] == entries[k + 1]);
        k + 1
    } else {
        let kind = entries[0].kind->Ok_0;
        let here = path::child(dir, entries[0].name);
        let abs_here = path::child(abs_dir, entries[0].name);
        let first = seq![ReportView::Entry(here, kind)];
        assert(first[0] == ReportView::Entry(here, kind));
        if kind is Dir {
            let inner = disk::walk_dir(disk, setup, rules, here, abs_here, depth).reports;
            lemma_contains_joined(first, inner + rest, r);
            lemma_contains_joined(first, inner, r);
            lemma_contains_joined(inner, rest, r);
            lemma_walk_dir_inside(disk, setup, rules, here, abs_here, depth, r);
        } else {
            lemma_contains_joined(first, rest, r);
        }
        0
    }
}

proof fn lemma_visit_index_once<E>(
    disk: Disk<E>,
    setup: Setup,
    rules: Seq<RulesView>,
    dir: PathView,
    abs_dir: PathView,
    entries: Seq<EntryView<E>>,
    depth: nat,
)
    requires
        survey::no_name_twice(disk),
        survey::unique_names(entries),
    ensures
        index_once(disk::visit(disk, setup, rules, dir, abs_dir, entries, depth).reports),
    decreases depth, entries.len() + 1,
{
    if entries.len() > 0 {
        let later = entries.skip(1);
        let whole = disk::visit(disk, setup, rules, dir, abs_dir, entries, depth).reports;
        let rest = disk::visit(disk, setup, rules, dir, abs_dir, later, depth).reports;
        assert forall|i: int, j: int| 0 <= i < j < later.len() implies (#[trigger] later[i]).name
            != (#[trigger] later[j]).name by {
            assert(later[i] == entries[i + 1] && later[j] == entries[j + 1]);
        }
        lemma_visit_index_once(disk, setup, rules, dir, abs_dir, later, depth);
        if let Ok(kind) = entries[0].kind {
            if walk::kept(rules, abs_dir, entries[0].name, kind) {
                let here = path::child(dir, entries[0].name);
                let abs_here = path::child(abs_dir, entries[0].name);
                let first = seq![ReportView::Entry(here, kind)];
                lemma_index_once_joined(first, rest);
                if kind is Dir {
                    let inner = disk::walk_dir(disk, setup, rules, here, abs_here, depth);
                    lemma_walk_dir_index_once(disk, setup, rules, here, abs_here, depth);
                    lemma_index_once_joined(first, inner.reports);
                    assert forall|r: ReportView|
                        r is IndexRule && #[trigger] inner.reports.contains(r) implies !rest.contains(
                        r,
                    ) by {
                        lemma_walk_dir_inside(disk, setup, rules, here, abs_here, depth, r);
                        if rest.contains(r) {
                            let k = lemma_visit_index_inside(
                                disk,
                                setup,
                                rules,
                                dir,
                                abs_dir,
                                later,
                                depth,
                                r,
                            );
                            let there = path::child(dir, later[k].name);
                            let n = dir.len() as int;
                            let p = r->IndexRule_0;
                            assert(p[n] == here[n] && p[n] == there[n]);
                            assert(later[k] == entries[k + 1]);
                        }
                    }
                    lemma_index_once_joined(inner.reports, rest);
                    lemma_index_once_joined(first, inner.reports + rest);
                    assert(whole =~= first + inner.reports || whole =~= first + (inner.reports
                        + rest));
                } else {
                    assert(whole =~= first + rest);
                }
            }
        }
    }
}

proof fn lemma_walk_dir_index_once<E>(
    disk: Disk<E>,
    setup: Setup,
    rules: Seq<RulesView>,
    dir: PathView,
    abs_dir: PathView,
    depth: nat,
)
    requires
        survey::no_name_twice(disk),
    ensures
        index_once(disk::walk_dir(disk, setup, rules, dir, abs_dir, depth).reports),
    decreases depth, 0nat,
{
    if depth > 0 {
        let now = disk::dir_rules(disk, setup, rules, abs_dir);
        let own = disk::dir_reports(disk, setup, abs_dir);
        let index = walk::index_reports(now, dir, abs_dir);
        let whole = disk::walk_dir(disk, setup, rules, dir, abs_dir, depth).reports;
        lemma_index_once_joined(own, index);
        if let Ok(entries) = (disk.list)(dir) {
            let sorted = order::sorted(entries, walk::entry_order::<E>());
            let fuel = (depth - 1) as nat;
            let below = disk::visit(disk, setup, now, dir, abs_dir, sorted, fuel).reports;
            survey::lemma_sorted_unique(entries);
            lemma_visit_index_once(disk, setup, now, dir, abs_dir, sorted, fuel);
            assert forall|r: ReportView|
                r is IndexRule && #[trigger] (own + index).contains(r) implies !below.contains(r) by {
                lemma_contains_joined(own, index, r);
                if below.contains(r) {
                    let k = lemma_visit_index_inside(
                        disk,
                        setup,
                        now,
                        dir,
                        abs_dir,
                        sorted,
                        fuel,
                        r,
                    );
                }
            }
            lemma_index_once_joined(own + index, below);
            assert(whole =~= own + index + below);
        } else {
            assert(whole =~= own + index);
        }
    }
}

/// No index file that a rule matches is reported twice, as long as no directory
/// lists a name twice.
pub proof fn law_index_once<E>(
    disk: Disk<E>,
    root: PathView,
    sources: Seq<SourceView>,
    depth: nat,
)
    requires
        survey::no_name_twice(disk),
    ensures
        index_once(disk::walk(disk, root, sources, depth).reports),
{
    if let Ok(abs) = (disk.absolute)(root) {
        let start = disk::located(disk, root, abs, sources);
        let files = disk::reads(disk, sources);
        if let Ok(layers) = layers::source_layers(
            sources,
            files,
            start.abs_root,
            start.ancestors,
            disk.separator,
        ) {
            let setup = Setup { root: start.abs_root, layers };
            let rules = seq![ignore::builtin_rules(start.abs_root)];
            lemma_walk_from_index_once(disk, setup, rules, root, start.ancestors, depth);
            lemma_index_once_joined(
                walk::rule_reports(walk::files_read(files)),
                disk::walk_from(disk, setup, rules, root, start.ancestors, depth).reports,
            );
        }
    }
}

proof fn lemma_walk_from_index_once<E>(
    disk: Disk<E>,
    setup: Setup,
    rules: Seq<RulesView>,
    root: PathView,
    above: Seq<PathView>,
    depth: nat,
)
    requires
        survey::no_name_twice(disk),
    ensures
        index_once(disk::walk_from(disk, setup, rules, root, above, depth).reports),
    decreases above.len(),
{
    if above.len() == 0 {
        lemma_walk_dir_index_once(disk, setup, rules, root, setup.root, depth);
    } else {
        let next = disk::dir_rules(disk, setup, rules, above.last());
        lemma_walk_from_index_once(disk, setup, next, root, above.drop_last(), depth);
        lemma_index_once_joined(
            disk::dir_reports(disk, setup, above.last()),
            disk::walk_from(disk, setup, next, root, above.drop_last(), depth).reports,
        );
    }
}

} // verus!
