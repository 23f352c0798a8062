//! Sweeps and the watcher.

use okf_core::path::PathBuf;
use okf_core::walk::{FileKind, Report};
use okf_core::watch::{sweep, watched_paths, Action, Event, FileState, Stamp, Watcher};

fn path(text: &str) -> PathBuf {
    PathBuf::from_text(text)
}

fn stamp(modified: i128, len: u64) -> Stamp {
    Stamp { modified, len }
}

fn state(files: &[(&str, i128, u64)]) -> FileState {
    let mut out = FileState::new();
    for (name, modified, len) in files {
        out.record(&path(name), Some(stamp(*modified, *len)));
    }
    out
}

#[test]
fn the_latest_stamp_of_a_path_counts() {
    let mut files = state(&[("b", 1, 10), ("a", 2, 20), ("c", 3, 30), ("b", 4, 40)]);
    assert_eq!(files.get(&path("a")), Some(stamp(2, 20)));
    assert_eq!(files.get(&path("b")), Some(stamp(4, 40)));
    assert_eq!(files.get(&path("c")), Some(stamp(3, 30)));
    assert_eq!(files.get(&path("d")), None);
    files.record(&path("a"), None);
    assert_eq!(files.get(&path("a")), Some(stamp(2, 20)));
    files.record(&path("d"), None);
    assert_eq!(files.get(&path("d")), None);
    assert_eq!(FileState::default().get(&path("a")), None);
}

#[test]
fn sweeps_are_the_same_if_they_noted_the_same() {
    let files = state(&[("a", 1, 10), ("b", 2, 20)]);
    assert!(files.same(&state(&[("b", 2, 20), ("a", 1, 10)])));
    assert!(files.same(&state(&[("b", 0, 0), ("a", 1, 10), ("b", 2, 20)])));
    assert!(!files.same(&state(&[("a", 1, 10)])));
    assert!(!files.same(&state(&[("a", 1, 10), ("b", 2, 20), ("c", 0, 0)])));
    assert!(!files.same(&state(&[("a", 1, 10), ("b", 2, 21)])));
    assert!(!files.same(&state(&[("a", 1, 10), ("b", -2, 20)])));
    assert!(FileState::new().same(&FileState::new()));
}

#[test]
fn a_sweep_leaves_out_what_is_gone() {
    let paths = vec![path("a"), path("gone"), path("a"), path("b")];
    let stamps = vec![Some(stamp(1, 1)), None, Some(stamp(2, 2)), Some(stamp(3, 3))];
    let files = sweep(&paths, &stamps);
    assert!(files.same(&state(&[("a", 2, 2), ("b", 3, 3)])));
}

#[test]
fn markdown_and_ignore_files_are_watched() {
    let reports = vec![
        Report::RuleFile(path("/r/.okfignore")),
        Report::IndexRule(path("r/index.md")),
        Report::Entry(path("r/b.md"), FileKind::File),
        Report::Entry(path("r/sub"), FileKind::Dir),
        Report::RuleFile(path("/r/sub/.okfignore")),
        Report::Entry(path("r/sub/dir.md"), FileKind::Dir),
        Report::Entry(path("r/sub/link.md"), FileKind::Other),
        Report::Entry(path("r/sub/a.md"), FileKind::File),
        Report::Entry(path("r/sub/a.txt"), FileKind::File),
    ];
    assert_eq!(
        watched_paths(&reports),
        vec![
            path("r/b.md"),
            path("r/sub/a.md"),
            path("/r/.okfignore"),
            path("/r/sub/.okfignore"),
        ]
    );
    assert!(watched_paths(&vec![]).is_empty());
}

#[test]
fn a_watcher_notifies_of_each_change_once() {
    let mut watcher = Watcher::new(state(&[("a", 1, 1)]));
    let swept = |files: &[(&str, i128, u64)]| Event::Swept { current: state(files), stopped: false };
    assert_eq!(watcher.next(Event::Begun { stopped: false }), Action::Sleep);
    assert_eq!(watcher.next(Event::Slept { stopped: false }), Action::Sweep);
    assert_eq!(watcher.next(swept(&[("a", 1, 1)])), Action::Sleep);
    assert_eq!(watcher.next(Event::Slept { stopped: false }), Action::Sweep);
    assert_eq!(watcher.next(swept(&[("a", 2, 1)])), Action::Notify);
    assert_eq!(
        watcher.next(Event::Notified { delivered: true, stopped: false }),
        Action::Sleep
    );
    assert_eq!(watcher.next(Event::Slept { stopped: false }), Action::Sweep);
    assert_eq!(watcher.next(swept(&[("a", 2, 1)])), Action::Sleep);
    // Back to what it was first is a change too.
    assert_eq!(watcher.next(swept(&[("a", 1, 1)])), Action::Notify);
    assert_eq!(watcher.next(swept(&[])), Action::Notify);
    assert_eq!(watcher.next(swept(&[("b", 1, 1)])), Action::Notify);
    assert_eq!(watcher.next(swept(&[("b", 1, 1)])), Action::Sleep);
}

#[test]
fn a_watcher_stops_when_asked_or_left_alone() {
    let mut watcher = Watcher::new(FileState::new());
    assert_eq!(watcher.next(Event::Begun { stopped: true }), Action::Stop);
    assert_eq!(watcher.next(Event::Slept { stopped: true }), Action::Stop);
    assert_eq!(
        watcher.next(Event::Swept { current: FileState::new(), stopped: true }),
        Action::Stop
    );
    // A change that was seen is still told.
    assert_eq!(
        watcher.next(Event::Swept { current: state(&[("a", 1, 1)]), stopped: true }),
        Action::Notify
    );
    assert_eq!(
        watcher.next(Event::Notified { delivered: true, stopped: true }),
        Action::Stop
    );
    assert_eq!(
        watcher.next(Event::Notified { delivered: false, stopped: false }),
        Action::Stop
    );
}
