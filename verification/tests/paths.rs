//! Paths: spelling, resolving, joining and ordering them.

use okf_core::order::{name_not_after, path_not_after, sort};
use okf_core::path::{absolute, components, under_root, Component, PathBuf};

fn path(text: &str) -> PathBuf {
    PathBuf::from_text(text)
}

fn name(text: &str) -> Component<Vec<u8>> {
    Component::Normal(text.as_bytes().to_vec())
}

#[test]
fn what_a_spelling_stands_for() {
    assert_eq!(path("").components(), []);
    assert_eq!(path("/").components(), [Component::RootDir]);
    assert_eq!(path("a//b/./c/").components(), [name("a"), name("b"), name("c")]);
    assert_eq!(path("./a").components(), [Component::CurDir, name("a")]);
    assert_eq!(path(".").components(), [Component::CurDir]);
    assert_eq!(path("/./a").components(), [Component::RootDir, name("a")]);
    assert_eq!(
        path("../a/..").components(),
        [Component::ParentDir, name("a"), Component::ParentDir]
    );
    assert_eq!(path("...").components(), [name("...")]);
    assert_eq!(PathBuf::from_text_with("a\\b/c", 0x5c), path("a/b/c"));
    assert_eq!(PathBuf::from_text_with("a\\b/c", 0x2f).components(), [name("a\\b"), name("c")]);
    assert_eq!(PathBuf::from_text_with("é/ü", 0x5c), path("é/ü"));
}

#[test]
fn resolving_takes_dots_out() {
    assert_eq!(absolute(&path("/repo/bundle/../shared.ignore")), path("/repo/shared.ignore"));
    assert_eq!(absolute(&path("/a/./b/../../c")), path("/c"));
    assert_eq!(absolute(&path("/../..")), path("/"));
    assert_eq!(absolute(&path("../a")), path("a"));
    assert_eq!(absolute(&path("./a")), path("a"));
    let once = absolute(&path("/x/../y/./z"));
    assert_eq!(absolute(&once), once);
}

#[test]
fn a_path_re_expressed_under_a_root() {
    let under = |root: &str, canonical_root: &str, canonical_path: &str| {
        under_root(&path(root), &path(canonical_root), &path(canonical_path))
    };
    assert_eq!(under("../kb", "/r/kb", "/r/kb/a/b.md"), Some(path("../kb/a/b.md")));
    assert_eq!(under("kb", "/r/kb", "/r/kb"), Some(path("kb")));
    assert_eq!(under("/r/link", "/r/kb", "/r/kb/a.md"), Some(path("/r/link/a.md")));
    assert_eq!(under("kb", "/r/kb", "/r/outside/a.md"), None);
    assert_eq!(under("kb", "/r/kb", "/r/kb2/a.md"), None);
    assert_eq!(under("kb", "/r/kb", "/r"), None);
}

#[test]
fn prefixes_go_by_components() {
    assert!(path("/a/b").starts_with(&path("/a")));
    assert!(path("/a/b").starts_with(&path("/a/b")));
    assert!(!path("/ab").starts_with(&path("/a")));
    assert!(!path("/a").starts_with(&path("/a/b")));
    assert_eq!(path("/a/b/c").strip_prefix(&path("/a")), Some(path("b/c")));
    assert_eq!(path("/a").strip_prefix(&path("/b")), None);
}

#[test]
fn the_directories_above_a_path() {
    assert_eq!(path("/a/b").ancestors(), vec![path("/a/b"), path("/a"), path("/")]);
    assert_eq!(path("a/b").ancestors(), vec![path("a/b"), path("a"), path("")]);
    assert_eq!(path("/").ancestors(), vec![path("/")]);
    assert_eq!(path("/").parent(), None);
    assert_eq!(path("").parent(), None);
    assert_eq!(path("a/..").parent(), Some(path("a")));
}

#[test]
fn joining() {
    assert_eq!(path("/a").join(&path("b/c")), path("/a/b/c"));
    assert_eq!(path("/a").join(&path("/b")), path("/b"));
    assert_eq!(path("/a").join(&path("")), path("/a"));
    assert_eq!(path("/a").join(&path("./b")), path("/a/b"));
    assert_eq!(path("").join(&path("./b")), path("./b"));
    assert_eq!(path("a").join(&path("../b")), path("a/../b"));
    let drive = Component::Prefix(b"C:".to_vec());
    let root = PathBuf::from_components(vec![drive.clone(), Component::RootDir, name("x")]);
    assert_eq!(
        root.join(&path("/y")),
        PathBuf::from_components(vec![drive, Component::RootDir, name("y")])
    );
    assert_eq!(path("a").join(&root), root);
}

#[test]
fn names() {
    assert_eq!(path("a/b.md").file_name(), Some(b"b.md".as_slice()));
    assert_eq!(path("a/b.md").file_name_text(), Some("b.md"));
    assert_eq!(path("a/..").file_name(), None);
    let odd = path("a").child(b"\xff.md");
    assert_eq!(odd.file_name(), Some(b"\xff.md".as_slice()));
    assert_eq!(odd.file_name_text(), None);
    assert!(odd.is_markdown());
    assert!(!path("a/.md").is_markdown());
    assert!(!path("a/md").is_markdown());
    assert!(!path("").is_markdown());
}

#[test]
fn paths_are_ordered_component_by_component() {
    assert!(path_not_after(&path("a/b"), &path("a.b")));
    assert!(!path_not_after(&path("a.b"), &path("a/b")));
    assert!(path_not_after(&path("a"), &path("a/b")));
    assert!(path_not_after(&path("a"), &path("a")));
    assert!(path_not_after(&path("/z"), &path("../a")));
    assert!(path_not_after(&path("../z"), &path("a")));
    assert!(name_not_after(b"B", b"a"));
    assert!(name_not_after(b"a", b"a"));
    assert!(name_not_after(b"a", b"ab"));
    assert!(!name_not_after(b"\xff", b"z"));
}

#[test]
fn sorting_keeps_what_there_is() {
    let sorted = sort(vec![path("c"), path("a/b"), path("b"), path("a"), path("b"), path("a-b")]);
    assert_eq!(
        sorted,
        vec![path("a"), path("a/b"), path("a-b"), path("b"), path("b"), path("c")]
    );
    assert_eq!(sort(Vec::<PathBuf>::new()), vec![]);
}

fn prefix(text: &str) -> Component<Vec<u8>> {
    Component::Prefix(text.as_bytes().to_vec())
}

fn on_windows(text: &str) -> PathBuf {
    PathBuf::from_text_with(text, 0x5c)
}

#[test]
fn drives_and_shares() {
    assert_eq!(
        on_windows("C:\\x\\shared.ignore").components(),
        [prefix("C:"), Component::RootDir, name("x"), name("shared.ignore")]
    );
    assert_eq!(on_windows("c:/x"), on_windows("C:\\x"));
    assert_ne!(on_windows("d:/x"), on_windows("C:\\x"));
    assert_eq!(on_windows("C:x\\y").components(), [prefix("C:"), name("x"), name("y")]);
    assert_eq!(on_windows("C:.\\y").components(), [prefix("C:"), Component::CurDir, name("y")]);
    assert_eq!(on_windows("C:").components(), [prefix("C:")]);
    assert_eq!(on_windows("1:\\x").components(), [name("1:"), name("x")]);
    assert_eq!(
        on_windows("\\\\server\\share\\a\\..").components(),
        [prefix("//server/share"), Component::RootDir, name("a"), Component::ParentDir]
    );
    assert_eq!(
        on_windows("//server/share").components(),
        [prefix("//server/share"), Component::RootDir]
    );
    assert_eq!(on_windows("\\\\server").components(), [Component::RootDir, name("server")]);
    assert_eq!(on_windows("\\x").components(), [Component::RootDir, name("x")]);
    // Elsewhere these are names.
    assert_eq!(path("C:/x").components(), [name("C:"), name("x")]);
    assert_eq!(path("//server/share").components(), [
        Component::RootDir,
        name("server"),
        name("share"),
    ]);
    // A drive stands for itself wherever it is seen from.
    assert_eq!(on_windows("D:\\a").join(&on_windows("c:\\b")), on_windows("C:\\b"));
    assert_eq!(on_windows("D:\\a").join(&on_windows("\\b")), on_windows("D:\\b"));
    assert_eq!(on_windows("D:\\a").parent(), Some(on_windows("D:\\")));
    assert_eq!(on_windows("D:\\").parent(), None);
}

#[test]
fn only_names_are_text() {
    let texts = |p: &PathBuf| components(p.components());
    assert_eq!(texts(&path("a/b")), Some(vec![vec!['a'], vec!['b']]));
    assert_eq!(texts(&path("")), Some(vec![]));
    assert_eq!(texts(&path("./a.md")), None);
    assert_eq!(texts(&path("../a.md")), None);
    assert_eq!(texts(&path("/a.md")), None);
    assert_eq!(texts(&path("a").child(b"\xff")), None);
}

#[test]
fn verbatim_spellings() {
    let root = Component::RootDir;
    // Only `\` separates, and a `.` counts.
    assert_eq!(
        on_windows("\\\\?\\c:\\a/b\\.\\..\\d").components(),
        [
            prefix("\\\\?\\C:"),
            Component::RootDir,
            name("a/b"),
            Component::CurDir,
            Component::ParentDir,
            name("d"),
        ]
    );
    assert_eq!(on_windows("\\\\?\\c:\\x"), on_windows("\\\\?\\C:\\x"));
    assert_ne!(on_windows("\\\\?\\C:\\x"), on_windows("C:\\x"));
    assert_eq!(
        on_windows("\\\\?\\UNC\\server\\share\\x").components(),
        [prefix("\\\\?\\UNC\\server\\share"), Component::RootDir, name("x")]
    );
    assert_eq!(
        on_windows("\\\\?\\UNC\\server\\").components(),
        [prefix("\\\\?\\UNC\\server"), Component::RootDir]
    );
    assert_eq!(on_windows("\\\\?\\UNC\\server").components(), [prefix("\\\\?\\UNC\\server")]);
    assert_eq!(
        on_windows("\\\\?\\cat_pics\\x").components(),
        [prefix("\\\\?\\cat_pics"), Component::RootDir, name("x")]
    );
    assert_eq!(on_windows("\\\\?\\C:").components(), [prefix("\\\\?\\C:")]);
    assert_eq!(on_windows("\\\\?\\c:x").components(), [prefix("\\\\?\\c:x")]);
    // Spelled with `/` it is a share.
    assert_eq!(on_windows("//?/C:/x").components(), [prefix("//?/C:"), root, name("x")]);
}

#[test]
fn devices() {
    assert_eq!(
        on_windows("\\\\.\\COM42").components(),
        [prefix("\\\\.\\COM42"), Component::RootDir]
    );
    assert_eq!(on_windows("//./COM42/x"), on_windows("\\\\.\\COM42\\x"));
    assert_eq!(on_windows("\\\\.\\").components(), [prefix("\\\\.\\"), Component::RootDir]);
}

#[test]
fn joining_behind_a_verbatim_prefix() {
    let base = on_windows("\\\\?\\C:\\a\\b");
    assert_eq!(base.join(&on_windows("..\\.\\c")), on_windows("\\\\?\\C:\\a\\c"));
    assert_eq!(base.join(&on_windows("..\\..\\..\\c")), on_windows("\\\\?\\C:\\c"));
    assert_eq!(base.join(&on_windows("\\c")), on_windows("\\\\?\\C:\\c"));
    assert_eq!(base.join(&on_windows("d:\\c")), on_windows("D:\\c"));
    assert_eq!(base.join(&on_windows("")), base);
}

#[test]
fn names_that_only_a_directory_can_have() {
    let dot = Component::CurDir;
    assert_eq!(PathBuf::from_name(".x", 0x2f), path(".x"));
    for spelled in [".x/", ".x//", ".x/.", ".x/./"] {
        assert_eq!(
            PathBuf::from_name(spelled, 0x2f).components(),
            [name(".x"), Component::CurDir],
            "{spelled}"
        );
    }
    assert_eq!(PathBuf::from_name("x\\", 0x5c).components(), [name("x"), Component::CurDir]);
    assert_eq!(PathBuf::from_name("x\\", 0x2f).components(), [name("x\\")]);
    assert_eq!(PathBuf::from_name(".", 0x2f).components(), [dot]);
    assert_eq!(PathBuf::from_name("", 0x2f).components(), []);
    assert_eq!(path("a").join(&PathBuf::from_name("x/", 0x2f)).without_dot(), path("a/x"));
    assert_eq!(path(".").without_dot(), path("."));
    let verbatim = on_windows("\\\\?\\C:\\x\\.");
    assert_eq!(verbatim.without_dot(), verbatim);
}
