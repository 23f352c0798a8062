//! A polling file watcher, without the polling.
//!
//! A sweep of the watched files notes when each was last modified and how
//! large it is. A watcher compares every sweep with the one before, and speaks
//! up when they differ. Polling behaves identically on network file systems
//! and in containers where change notifications do not, and a bundle is at
//! most a few thousand small files.
//!
//! A sweep follows a bundle walk, so a change inside an ignored directory is
//! never noticed: the watcher sees exactly the files that a bundle is loaded
//! from, plus the ignore files that decide that set.

use vstd::prelude::*;

use crate::order;
use crate::path::{self, PathBuf, PathView};
use crate::walk::{self, Report};

verus! {

/// When a file was last modified and how large it is.
#[derive(Clone, Copy, Debug, PartialEq, Eq, Structural)]
pub struct Stamp {
    /// The time of the last modification, in nanoseconds since the epoch.
    pub modified: i128,
    /// The length in bytes.
    pub len: u64,
}

// ---------------------------------------------------------------------------
// The state of the watched files
// ---------------------------------------------------------------------------

/// What a sweep noted: a stamp for each path.
#[derive(Debug)]
pub struct FileState {
    /// Sorted by path; no path occurs twice.
    paths: Vec<PathBuf>,
    /// The stamp of the path at the same position.
    stamps: Vec<Stamp>,
}

/// Whether paths are sorted and no path occurs twice.
spec fn strictly_sorted(paths: Seq<PathView>) -> bool {
    forall|i: int, j: int|
        0 <= i < j < paths.len() ==> order::path_le(#[trigger] paths[i], #[trigger] paths[j])
            && paths[i] != paths[j]
}

/// The position of a path.
spec fn position(paths: Seq<PathView>, p: PathView) -> int {
    choose|i: int| 0 <= i < paths.len() && paths[i] == p
}

/// The stamps by path.
spec fn by_path(paths: Seq<PathView>, stamps: Seq<Stamp>) -> Map<PathView, Stamp> {
    Map::new(|p: PathView| paths.contains(p), |p: PathView| stamps[position(paths, p)])
}

impl View for FileState {
    type V = Map<PathView, Stamp>;

    closed spec fn view(&self) -> Map<PathView, Stamp> {
        by_path(path::paths_view(self.paths@), self.stamps@)
    }
}

proof fn lemma_position(paths: Seq<PathView>, i: int)
    requires
        strictly_sorted(paths),
        0 <= i < paths.len(),
    ensures
        paths.contains(paths[i]),
        position(paths, paths[i]) == i,
{
    let j = position(paths, paths[i]);
    assert(0 <= i < paths.len() && paths[i] == paths[i]);
    if j < i {
        assert(paths[j] != paths[i]);
    } else if i < j {
        assert(paths[i] != paths[j]);
    }
}

/// Putting a path and its stamp in their place notes them.
proof fn lemma_insert(
    paths: Seq<PathView>,
    stamps: Seq<Stamp>,
    i: int,
    p: PathView,
    stamp: Stamp,
)
    requires
        strictly_sorted(paths),
        paths.len() == stamps.len(),
        0 <= i <= paths.len(),
        forall|j: int| 0 <= j < i ==> order::path_le(#[trigger] paths[j], p) && paths[j] != p,
        forall|j: int| i <= j < paths.len() ==> order::path_le(p, #[trigger] paths[j]),
    ensures
        i < paths.len() && paths[i] == p ==> by_path(paths, stamps.update(i, stamp)) == by_path(
            paths,
            stamps,
        ).insert(p, stamp),
        !(i < paths.len() && paths[i] == p) ==> {
            &&& strictly_sorted(paths.insert(i, p))
            &&& by_path(paths.insert(i, p), stamps.insert(i, stamp)) == by_path(
                paths,
                stamps,
            ).insert(p, stamp)
        },
{
    order::lemma_path_order();
    let le = |a: PathView, b: PathView| order::path_le(a, b);
    assert(order::is_order(le));
    let before = by_path(paths, stamps);
    if i < paths.len() && paths[i] == p {
        lemma_position(paths, i);
        let after = by_path(paths, stamps.update(i, stamp));
        assert forall|q: PathView| #[trigger] after.contains_key(q) implies after[q]
            == before.insert(p, stamp)[q] by {
            let k = position(paths, q);
            assert(paths[k] == q);
        }
        assert(after =~= before.insert(p, stamp));
    } else {
        let wider = paths.insert(i, p);
        let after = by_path(wider, stamps.insert(i, stamp));
        assert forall|j: int| i <= j < paths.len() implies #[trigger] paths[j] != p by {
            if paths[j] == p && i < j {
                assert(le(p, paths[i]) && le(paths[i], paths[j]));
            }
        }
        assert forall|a: int, b: int| 0 <= a < b < wider.len() implies order::path_le(
            #[trigger] wider[a],
            #[trigger] wider[b],
        ) && wider[a] != wider[b] by {
            let x = if a < i {
                a
            } else {
                a - 1
            };
            let y = if b < i {
                b
            } else {
                b - 1
            };
            if a != i {
                assert(wider[a] == paths[x]);
            }
            if b != i {
                assert(wider[b] == paths[y]);
            }
        }
        assert(wider[i] == p);
        lemma_position(wider, i);
        assert forall|q: PathView| wider.contains(q) <==> paths.contains(q) || q == p by {
            if paths.contains(q) {
                let k = position(paths, q);
                assert(paths[k] == q);
                assert(wider[if k < i {
                    k
                } else {
                    k + 1
                }] == q);
            }
            if wider.contains(q) && q != p {
                let k = position(wider, q);
                assert(wider[k] == q);
                assert(paths[if k < i {
                    k
                } else {
                    k - 1
                }] == q);
            }
        }
        assert forall|q: PathView| #[trigger] after.contains_key(q) implies after[q]
            == before.insert(p, stamp)[q] by {
            if q != p {
                let k = position(paths, q);
                assert(paths.contains(q));
                assert(paths[k] == q);
                let at = if k < i {
                    k
                } else {
                    k + 1
                };
                assert(wider[at] == q);
                lemma_position(wider, at);
                lemma_position(paths, k);
            }
        }
        assert(after =~= before.insert(p, stamp));
    }
}

impl FileState {
    #[verifier::type_invariant]
    spec fn well_formed(self) -> bool {
        &&& self.paths@.len() == self.stamps@.len()
        &&& strictly_sorted(path::paths_view(self.paths@))
    }

    /// A sweep that noted nothing.
    pub fn new() -> (r: FileState)
        ensures
            r@ == Map::<PathView, Stamp>::empty(),
    {
        let r = FileState { paths: Vec::new(), stamps: Vec::new() };
        assert(path::paths_view(r.paths@) =~= Seq::empty());
        assert(r@ =~= Map::empty());
        r
    }

    /// How many paths come before `p`.
    fn place(&self, p: &PathBuf) -> (r: usize)
        ensures
            r <= self.paths@.len(),
            forall|i: int|
                0 <= i < r ==> order::path_le(#[trigger] path::paths_view(self.paths@)[i], p@)
                    && path::paths_view(self.paths@)[i] != p@,
            forall|i: int|
                r <= i < self.paths@.len() ==> order::path_le(
                    p@,
                    #[trigger] path::paths_view(self.paths@)[i],
                ),
    {
        let ghost all = path::paths_view(self.paths@);
        let ghost le = |a: PathView, b: PathView| order::path_le(a, b);
        proof {
            use_type_invariant(self);
            order::lemma_path_order();
            assert(order::is_order(le));
        }
        let mut lo: usize = 0;
        let mut hi: usize = self.paths.len();
        while lo < hi
            invariant
                lo <= hi <= self.paths@.len(),
                all == path::paths_view(self.paths@),
                strictly_sorted(all),
                le == (|a: PathView, b: PathView| order::path_le(a, b)),
                order::is_order(le),
                forall|i: int|
                    0 <= i < lo ==> order::path_le(#[trigger] all[i], p@) && all[i] != p@,
                forall|i: int| hi <= i < all.len() ==> order::path_le(p@, #[trigger] all[i]),
            decreases hi - lo,
        {
            let mid = lo + (hi - lo) / 2;
            assert(all[mid as int] == self.paths@[mid as int]@);
            if order::path_not_after(p, &self.paths[mid]) {
                proof {
                    assert forall|i: int| mid <= i < all.len() implies order::path_le(
                        p@,
                        #[trigger] all[i],
                    ) by {
                        if mid < i {
                            assert(le(p@, all[mid as int]) && le(all[mid as int], all[i]));
                        }
                    }
                }
                hi = mid;
            } else {
                proof {
                    assert(!le(p@, all[mid as int]));
                    assert(le(all[mid as int], p@));
                    assert forall|i: int| 0 <= i < mid + 1 implies order::path_le(
                        #[trigger] all[i],
                        p@,
                    ) && all[i] != p@ by {
                        if i < mid {
                            assert(le(all[i], all[mid as int]) && le(all[mid as int], p@));
                            if all[i] == p@ {
                                assert(le(p@, all[mid as int]));
                            }
                        }
                    }
                }
                lo = mid + 1;
            }
        }
        lo
    }

    /// The stamp of a path, if one was noted.
    pub fn get(&self, p: &PathBuf) -> (r: Option<Stamp>)
        ensures
            r == (if self@.contains_key(p@) {
                Some(self@[p@])
            } else {
                None
            }),
    {
        let ghost all = path::paths_view(self.paths@);
        proof {
            use_type_invariant(self);
        }
        let i = self.place(p);
        if i < self.paths.len() && self.paths[i].same_path(p) {
            proof {
                assert(all[i as int] == p@);
                lemma_position(all, i as int);
            }
            return Some(self.stamps[i]);
        }
        proof {
            if all.contains(p@) {
                let k = position(all, p@);
                assert(all[k] == p@);
                if i < k {
                    assert(order::path_le(p@, all[i as int]));
                    assert(order::path_le(all[i as int], all[k]));
                    order::lemma_path_order();
                    let le = |a: PathView, b: PathView| order::path_le(a, b);
                    assert(le(p@, all[i as int]) && le(all[i as int], p@));
                }
            }
        }
        None
    }

    /// Notes the stamp of a path; the latest one counts. Nothing is noted of a
    /// path that has none.
    pub fn record(&mut self, p: &PathBuf, stamp: Option<Stamp>)
        ensures
            final(self)@ == match stamp {
                None => old(self)@,
                Some(stamp) => old(self)@.insert(p@, stamp),
            },
    {
        match stamp {
            None => {},
            Some(stamp) => {
                self.insert(p, stamp);
            },
        }
    }

    fn insert(&mut self, p: &PathBuf, stamp: Stamp)
        ensures
            final(self)@ == old(self)@.insert(p@, stamp),
    {
        proof {
            use_type_invariant(&*self);
            order::lemma_path_order();
        }
        let ghost all = path::paths_view(self.paths@);
        let ghost noted = self.stamps@;
        let ghost before = self@;
        let ghost le = |a: PathView, b: PathView| order::path_le(a, b);
        let i = self.place(p);
        let there = i < self.paths.len() && self.paths[i].same_path(p);
        let mut old_state = FileState::new();
        proof {
            use_type_invariant(&old_state);
        }
        std::mem::swap(self, &mut old_state);
        let FileState { mut paths, mut stamps } = old_state;
        if there {
            stamps.set(i, stamp);
        } else {
            paths.insert(i, p.clone());
            stamps.insert(i, stamp);
        }
        proof {
            let now = path::paths_view(paths@);
            if there {
                assert(all[i as int] == p@);
                lemma_position(all, i as int);
                assert(now == all);
            } else {
                assert(now =~= all.insert(i as int, p@));
            }
            lemma_insert(all, noted, i as int, p@, stamp);
        }
        *self = FileState { paths, stamps };
    }

    /// Whether all that was noted here was noted in `other` too.
    fn within(&self, other: &FileState) -> (r: bool)
        ensures
            r == (forall|p: PathView| #[trigger]
                self@.contains_key(p) ==> other@.contains_key(p) && other@[p] == self@[p]),
    {
        let ghost all = path::paths_view(self.paths@);
        proof {
            use_type_invariant(self);
        }
        for i in 0..self.paths.len()
            invariant
                all == path::paths_view(self.paths@),
                self.paths@.len() == self.stamps@.len(),
                strictly_sorted(all),
                forall|j: int|
                    0 <= j < i ==> other@.contains_key(#[trigger] all[j]) && other@[all[j]]
                        == self.stamps@[j],
        {
            proof {
                assert(all[i as int] == self.paths@[i as int]@);
                lemma_position(all, i as int);
                assert(self@.contains_key(all[i as int]));
            }
            match other.get(&self.paths[i]) {
                None => {
                    return false;
                },
                Some(stamp) => {
                    if stamp != self.stamps[i] {
                        return false;
                    }
                },
            }
        }
        proof {
            assert forall|p: PathView| #[trigger] self@.contains_key(p) implies other@.contains_key(
                p,
            ) && other@[p] == self@[p] by {
                let k = position(all, p);
                assert(all[k] == p);
            }
        }
        true
    }

    /// Whether two sweeps noted the same.
    pub fn same(&self, other: &FileState) -> (r: bool)
        ensures
            r == (self@ == other@),
    {
        let r = self.within(other) && other.within(self);
        assert(r ==> self@ =~= other@);
        r
    }
}

impl Default for FileState {
    fn default() -> (r: Self)
        ensures
            r@ == Map::<PathView, Stamp>::empty(),
    {
        FileState::new()
    }
}

// ---------------------------------------------------------------------------
// Sweeps
// ---------------------------------------------------------------------------

/// The files that a walk says to watch: the markdown files that it reported,
/// and then the ignore files.
pub fn watched_paths(reports: &Vec<Report>) -> (r: Vec<PathBuf>)
    ensures
        path::paths_view(r@) == walk::markdown_files(walk::reports_view(reports@))
            + walk::rule_files(walk::reports_view(reports@)),
{
    let mut files = walk::reported_markdown(reports);
    let mut rules = walk::reported_rule_files(reports);
    let ghost first = files@;
    let ghost second = rules@;
    files.append(&mut rules);
    assert(files@ == first + second);
    assert(path::paths_view(files@) =~= path::paths_view(first) + path::paths_view(second));
    files
}

/// What a sweep of some paths notes, given the stamp that each has now.
pub open spec fn noted(paths: Seq<PathView>, stamps: Seq<Option<Stamp>>) -> Map<PathView, Stamp>
    decreases paths.len(),
{
    if paths.len() == 0 {
        Map::empty()
    } else {
        let before = noted(paths.drop_last(), stamps.drop_last());
        match stamps.last() {
            None => before,
            Some(stamp) => before.insert(paths.last(), stamp),
        }
    }
}

/// Notes the stamp that each path has now. A path without one, as that of a
/// file that is gone, is not noted.
pub fn sweep(paths: &Vec<PathBuf>, stamps: &Vec<Option<Stamp>>) -> (r: FileState)
    requires
        paths@.len() == stamps@.len(),
    ensures
        r@ == noted(path::paths_view(paths@), stamps@),
{
    let ghost all = path::paths_view(paths@);
    let mut out = FileState::new();
    for i in 0..paths.len()
        invariant
            all == path::paths_view(paths@),
            paths@.len() == stamps@.len(),
            out@ == noted(all.take(i as int), stamps@.take(i as int)),
    {
        proof {
            assert(all.take(i + 1).drop_last() =~= all.take(i as int));
            assert(all.take(i + 1).last() == paths@[i as int]@);
            assert(stamps@.take(i + 1).drop_last() =~= stamps@.take(i as int));
            assert(stamps@.take(i + 1).last() == stamps@[i as int]);
        }
        out.record(&paths[i], stamps[i]);
    }
    proof {
        assert(all.take(all.len() as int) =~= all);
        assert(stamps@.take(stamps@.len() as int) =~= stamps@);
    }
    out
}

// ---------------------------------------------------------------------------
// The watcher
// ---------------------------------------------------------------------------

/// What a watcher does next.
#[derive(Clone, Copy, Debug, PartialEq, Eq, Structural)]
pub enum Action {
    /// Wait until the next sweep is due.
    Sleep,
    /// Sweep the watched files.
    Sweep,
    /// Tell the receiver that files have changed.
    Notify,
    /// End.
    Stop,
}

/// What has happened to a watcher. `stopped` says whether it has been asked to
/// stop.
#[derive(Debug)]
pub enum Event {
    /// It has begun.
    Begun { stopped: bool },
    /// It has slept.
    Slept { stopped: bool },
    /// It has swept the watched files, and noted this.
    Swept { current: FileState, stopped: bool },
    /// It has told the receiver, who may be gone.
    Notified { delivered: bool, stopped: bool },
}

/// What an [`Event`] stands for.
pub enum EventView {
    Begun { stopped: bool },
    Slept { stopped: bool },
    Swept { current: Map<PathView, Stamp>, stopped: bool },
    Notified { delivered: bool, stopped: bool },
}

impl View for Event {
    type V = EventView;

    open spec fn view(&self) -> EventView {
        match self {
            Event::Begun { stopped } => EventView::Begun { stopped: *stopped },
            Event::Slept { stopped } => EventView::Slept { stopped: *stopped },
            Event::Swept { current, stopped } => EventView::Swept {
                current: current@,
                stopped: *stopped,
            },
            Event::Notified { delivered, stopped } => EventView::Notified {
                delivered: *delivered,
                stopped: *stopped,
            },
        }
    }
}

/// What a watcher whose last sweep noted `previous` does about an event. It
/// notifies exactly when a sweep differs from the one before.
pub open spec fn reaction(previous: Map<PathView, Stamp>, event: EventView) -> Action {
    match event {
        EventView::Begun { stopped } => if stopped {
            Action::Stop
        } else {
            Action::Sleep
        },
        EventView::Slept { stopped } => if stopped {
            Action::Stop
        } else {
            Action::Sweep
        },
        EventView::Swept { current, stopped } => if current != previous {
            Action::Notify
        } else if stopped {
            Action::Stop
        } else {
            Action::Sleep
        },
        EventView::Notified { delivered, stopped } => if stopped || !delivered {
            Action::Stop
        } else {
            Action::Sleep
        },
    }
}

/// What the last sweep noted after an event.
pub open spec fn last_sweep(
    previous: Map<PathView, Stamp>,
    event: EventView,
) -> Map<PathView, Stamp> {
    match event {
        EventView::Swept { current, .. } => current,
        _ => previous,
    }
}

/// A watcher between two events: it knows what the last sweep noted.
#[derive(Debug)]
pub struct Watcher {
    previous: FileState,
}

impl View for Watcher {
    type V = Map<PathView, Stamp>;

    closed spec fn view(&self) -> Map<PathView, Stamp> {
        self.previous@
    }
}

impl Watcher {
    /// A watcher that starts from a first sweep.
    pub fn new(first: FileState) -> (r: Watcher)
        ensures
            r@ == first@,
    {
        Watcher { previous: first }
    }

    /// Goes on from an event to the next action.
    pub fn next(&mut self, event: Event) -> (r: Action)
        ensures
            r == reaction(old(self)@, event@),
            final(self)@ == last_sweep(old(self)@, event@),
    {
        match event {
            Event::Begun { stopped } => if stopped {
                Action::Stop
            } else {
                Action::Sleep
            },
            Event::Slept { stopped } => if stopped {
                Action::Stop
            } else {
                Action::Sweep
            },
            Event::Swept { current, stopped } => if !current.same(&self.previous) {
                self.previous = current;
                Action::Notify
            } else if stopped {
                Action::Stop
            } else {
                Action::Sleep
            },
            Event::Notified { delivered, stopped } => if stopped || !delivered {
                Action::Stop
            } else {
                Action::Sleep
            },
        }
    }
}

// ---------------------------------------------------------------------------
// Laws
// ---------------------------------------------------------------------------

/// What the last sweep noted after some events.
pub open spec fn after_events(
    first: Map<PathView, Stamp>,
    events: Seq<EventView>,
) -> Map<PathView, Stamp>
    decreases events.len(),
{
    if events.len() == 0 {
        first
    } else {
        last_sweep(after_events(first, events.drop_last()), events.last())
    }
}

/// Whether no event after the one at `i` is a sweep.
pub open spec fn no_sweep_after(events: Seq<EventView>, i: int) -> bool {
    forall|j: int| i < j < events.len() ==> !((#[trigger] events[j]) is Swept)
}

/// A watcher notifies of a sweep exactly when it differs from the last sweep
/// before it, or, if there was none, from the one it started from; whatever
/// else happened in between does not matter.
pub proof fn law_notifies_of_changes(
    first: Map<PathView, Stamp>,
    events: Seq<EventView>,
    current: Map<PathView, Stamp>,
    stopped: bool,
    i: int,
)
    requires
        -1 <= i < events.len(),
        i >= 0 ==> events[i] is Swept,
        no_sweep_after(events, i),
    ensures
        ({
            let before = if i >= 0 {
                events[i]->Swept_current
            } else {
                first
            };
            (reaction(after_events(first, events), EventView::Swept { current, stopped })
                == Action::Notify) <==> current != before
        }),
    decreases events.len(),
{
    if events.len() > 0 && i < events.len() - 1 {
        let front = events.drop_last();
        assert(!(events[events.len() - 1] is Swept));
        assert forall|j: int| i < j < front.len() implies !((#[trigger] front[j]) is Swept) by {
            assert(front[j] == events[j]);
        }
        if i >= 0 {
            assert(front[i] == events[i]);
        }
        law_notifies_of_changes(first, front, current, stopped, i);
    }
}

/// A sweep notes exactly the paths that have a stamp when it reaches them.
pub proof fn law_sweep_notes(paths: Seq<PathView>, stamps: Seq<Option<Stamp>>, p: PathView)
    requires
        paths.len() == stamps.len(),
    ensures
        noted(paths, stamps).contains_key(p) <==> exists|i: int|
            0 <= i < paths.len() && #[trigger] paths[i] == p && stamps[i] is Some,
        noted(paths, stamps).contains_key(p) ==> exists|i: int|
            0 <= i < paths.len() && #[trigger] paths[i] == p && stamps[i] == Some(
                noted(paths, stamps)[p],
            ),
    decreases paths.len(),
{
    if paths.len() > 0 {
        let front = paths.drop_last();
        let earlier = stamps.drop_last();
        let n = paths.len() - 1;
        law_sweep_notes(front, earlier, p);
        assert(paths[n] == paths.last() && stamps[n] == stamps.last());
        if noted(front, earlier).contains_key(p) {
            let k = choose|k: int|
                0 <= k < front.len() && #[trigger] front[k] == p && earlier[k] == Some(
                    noted(front, earlier)[p],
                );
            assert(paths[k] == p && stamps[k] == earlier[k]);
        }
        if exists|i: int| 0 <= i < paths.len() && #[trigger] paths[i] == p && stamps[i] is Some {
            let k = choose|k: int|
                0 <= k < paths.len() && #[trigger] paths[k] == p && stamps[k] is Some;
            if k < n {
                assert(front[k] == p && earlier[k] is Some);
            }
        }
    }
}

/// The watched files are exactly the markdown files that the walk lists, and
/// the ignore files that it reports.
pub proof fn law_watched_files(reports: Seq<walk::ReportView>, p: PathView)
    ensures
        (walk::markdown_files(reports) + walk::rule_files(reports)).contains(p) <==> order::sorted(
            walk::markdown_files(reports),
            walk::path_order(),
        ).contains(p) || reports.contains(walk::ReportView::RuleFile(p)),
{
    let files = walk::markdown_files(reports);
    let rules = walk::rule_files(reports);
    let all = files + rules;
    walk::law_markdown_list(reports, p);
    walk::law_rule_file_list(reports, p);
    assert(all.contains(p) <==> files.contains(p) || rules.contains(p)) by {
        if files.contains(p) {
            let i = choose|i: int| 0 <= i < files.len() && files[i] == p;
            assert(all[i] == p);
        }
        if rules.contains(p) {
            let i = choose|i: int| 0 <= i < rules.len() && rules[i] == p;
            assert(all[files.len() + i] == p);
        }
        if all.contains(p) {
            let i = choose|i: int| 0 <= i < all.len() && all[i] == p;
            if i < files.len() {
                assert(files[i] == p);
            } else {
                assert(rules[i - files.len()] == p);
            }
        }
    }
}

/// Of a path that is swept more than once the last stamp counts.
pub proof fn law_last_stamp_counts(
    paths: Seq<PathView>,
    stamps: Seq<Option<Stamp>>,
    i: int,
    stamp: Stamp,
)
    requires
        paths.len() == stamps.len(),
        0 <= i < paths.len(),
        stamps[i] == Some(stamp),
        forall|j: int| i < j < paths.len() ==> #[trigger] paths[j] != paths[i] || stamps[j] is None,
    ensures
        noted(paths, stamps).contains_key(paths[i]),
        noted(paths, stamps)[paths[i]] == stamp,
    decreases paths.len(),
{
    let n = paths.len() - 1;
    if i < n {
        let front = paths.drop_last();
        let earlier = stamps.drop_last();
        assert(front[i] == paths[i] && earlier[i] == stamps[i]);
        assert forall|j: int| i < j < front.len() implies #[trigger] front[j] != front[i]
            || earlier[j] is None by {
            assert(front[j] == paths[j]);
        }
        law_last_stamp_counts(front, earlier, i, stamp);
        assert(paths[n] != paths[i] || stamps[n] is None);
    }
}

/// A watcher that is told to stop stops, except that it still tells the receiver
/// of a change that it has just seen; so does one whose receiver is gone. Any
/// other goes on: it sleeps, and sweeps each time that it has slept.
pub proof fn law_stops_when_told(
    previous: Map<PathView, Stamp>,
    current: Map<PathView, Stamp>,
    delivered: bool,
    stopped: bool,
)
    ensures
        (reaction(previous, EventView::Begun { stopped }) == Action::Stop) <==> stopped,
        (reaction(previous, EventView::Slept { stopped }) == Action::Stop) <==> stopped,
        (reaction(previous, EventView::Swept { current, stopped }) == Action::Stop) <==> stopped
            && current == previous,
        (reaction(previous, EventView::Notified { delivered, stopped }) == Action::Stop) <==> stopped
            || !delivered,
        !stopped ==> reaction(previous, EventView::Begun { stopped }) == Action::Sleep,
        !stopped ==> reaction(previous, EventView::Slept { stopped }) == Action::Sweep,
        !stopped && current == previous ==> reaction(
            previous,
            EventView::Swept { current, stopped },
        ) == Action::Sleep,
        current != previous ==> reaction(previous, EventView::Swept { current, stopped })
            == Action::Notify,
        !stopped && delivered ==> reaction(previous, EventView::Notified { delivered, stopped })
            == Action::Sleep,
{
}

} // verus!
