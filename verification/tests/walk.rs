//! Walks of small trees that are held in memory.

use okf_core::ignore::{IgnoreConfig, IgnoreSource};
use okf_core::layers::{Found, RuleText};
use okf_core::path::{absolute, Component, PathBuf};
use okf_core::walk::{
    ignored_index_files, reported_rule_files, walk_markdown, Entry, FileKind, Locating, Report,
    Step, WalkOptions,
};
use std::collections::BTreeMap;

/// Why a question about a tree has no answer.
#[derive(Clone, Copy, Debug, PartialEq, Eq)]
enum Failure {
    NotFound,
    Denied,
}

/// What there is at a path.
#[derive(Clone, Debug)]
enum Node {
    Dir,
    File(String),
    /// A file that cannot be read as text.
    Unreadable,
    /// Neither a file nor a directory.
    Link,
    /// An entry of which nothing can be known.
    Locked,
}

/// A tree in memory. The tree's own directory is `/tmp/t`, and the current
/// directory is `/work`.
struct Tmp {
    root: PathBuf,
    nodes: BTreeMap<Vec<Vec<u8>>, Node>,
}

/// The names on an absolute path.
fn names(p: &PathBuf) -> Vec<Vec<u8>> {
    let mut out = Vec::new();
    for comp in p.components() {
        match comp {
            Component::RootDir => {}
            Component::Normal(name) => out.push(name.clone()),
            other => panic!("{other:?} in {p:?}"),
        }
    }
    out
}

impl Tmp {
    fn new() -> Self {
        let mut t = Self { root: PathBuf::from_text("/tmp/t"), nodes: BTreeMap::new() };
        t.put(&PathBuf::from_text("/tmp/t"), Node::Dir);
        t
    }

    fn join(&self, rel: &str) -> PathBuf {
        self.root.join(&PathBuf::from_text(rel))
    }

    fn put(&mut self, p: &PathBuf, node: Node) {
        let all = names(p);
        for n in 0..all.len() {
            self.nodes.entry(all[..n].to_vec()).or_insert(Node::Dir);
        }
        self.nodes.insert(all, node);
    }

    fn write(&mut self, rel: &str, text: &str) {
        self.put(&self.join(rel), Node::File(text.to_string()));
    }

    fn md(&mut self, rel: &str) {
        self.write(rel, "---\ntype: X\n---\n");
    }

    fn mkdir(&mut self, rel: &str) {
        self.put(&self.join(rel), Node::Dir);
    }

    /// The absolute path of a path, with `..` left in it.
    fn absolute(&self, p: &PathBuf) -> PathBuf {
        PathBuf::from_text("/work").join(p)
    }

    fn node(&self, p: &PathBuf) -> Option<&Node> {
        self.nodes.get(&names(&absolute(&self.absolute(p))))
    }

    fn read(&self, p: &PathBuf) -> Result<String, Failure> {
        match self.node(p) {
            Some(Node::File(text)) => Ok(text.clone()),
            Some(_) => Err(Failure::Denied),
            None => Err(Failure::NotFound),
        }
    }

    fn look(&self, paths: Vec<PathBuf>) -> Vec<Found> {
        paths
            .iter()
            .map(|p| match self.node(p) {
                // Only a directory can be there.
                _ if p.components().last() == Some(&Component::CurDir) => Found::Absent,
                Some(Node::File(text)) => Found::Text(text.clone()),
                Some(Node::Unreadable) => Found::Unreadable,
                _ => Found::Absent,
            })
            .collect()
    }

    /// What a directory lists, last name first.
    fn list(&self, dir: &PathBuf) -> Result<Vec<Entry<Failure>>, Failure> {
        match self.node(dir) {
            Some(Node::Dir) => {}
            Some(_) => return Err(Failure::Denied),
            None => return Err(Failure::NotFound),
        }
        let here = names(&absolute(&self.absolute(dir)));
        let mut out = Vec::new();
        for (p, node) in self.nodes.iter().rev() {
            if p.len() == here.len() + 1 && p.starts_with(&here) {
                out.push(Entry {
                    name: p[here.len()].clone(),
                    kind: match node {
                        Node::Dir => Ok(FileKind::Dir),
                        Node::File(_) | Node::Unreadable => Ok(FileKind::File),
                        Node::Link => Ok(FileKind::Other),
                        Node::Locked => Err(Failure::Denied),
                    },
                });
            }
        }
        Ok(out)
    }
}

/// Runs a walk to its end.
fn run(t: &Tmp, root: &PathBuf, cfg: &IgnoreConfig) -> (Vec<Report>, Result<(), Failure>) {
    let start = Locating::new(root.clone(), &t.absolute(root), &WalkOptions::new(cfg));
    let marks = start.marks().iter().map(|p| t.node(p).is_some()).collect();
    let start = start.marked(marks);
    let reads = start
        .files()
        .iter()
        .map(|p| {
            let path = absolute(&t.absolute(p));
            t.read(&path).map(|text| RuleText { path, text })
        })
        .collect();
    let (mut reports, mut step) = start.files_read(reads);
    loop {
        let (more, next) = match step {
            Step::Seed(seeding) => {
                let found = t.look(seeding.rule_files());
                seeding.rules_read(found)
            }
            Step::Enter(entering) => {
                let found = t.look(entering.rule_files());
                let (more, listing) = entering.rules_read(found);
                (more, Step::List(listing))
            }
            Step::List(listing) => {
                let entries = t.list(listing.dir());
                listing.listed(entries)
            }
            Step::Done(result) => return (reports, result),
        };
        reports.extend(more);
        step = next;
    }
}

fn reports(t: &Tmp, root: &PathBuf, cfg: &IgnoreConfig) -> Vec<Report> {
    let (reports, result) = run(t, root, cfg);
    assert_eq!(result, Ok(()));
    reports
}

fn text(p: &PathBuf) -> String {
    let parts: Vec<String> = p
        .components()
        .iter()
        .map(|comp| match comp {
            Component::Normal(name) => String::from_utf8_lossy(name).into_owned(),
            Component::RootDir => String::new(),
            Component::CurDir => String::from("."),
            Component::ParentDir => String::from(".."),
            Component::Prefix(prefix) => String::from_utf8_lossy(prefix).into_owned(),
        })
        .collect();
    parts.join("/")
}

fn rels(root: &PathBuf, files: &[PathBuf]) -> Vec<String> {
    files.iter().map(|p| text(&p.strip_prefix(root).unwrap())).collect()
}

fn walk(t: &Tmp, root: &PathBuf, cfg: &IgnoreConfig) -> Vec<String> {
    rels(root, &walk_markdown(&reports(t, root, cfg)))
}

/// The paths of the reported entries.
fn entries(reports: &[Report]) -> Vec<PathBuf> {
    let mut out = Vec::new();
    for report in reports {
        if let Report::Entry(p, _) = report {
            out.push(p.clone());
        }
    }
    out
}

#[test]
fn sorted_markdown_and_default_skips() {
    let mut t = Tmp::new();
    t.md("b.md");
    t.md("a.md");
    t.md("sub/c.md");
    t.md(".git/notes.md");
    t.md(".drafts/d.md");
    t.md("node_modules/pkg/README.md");
    t.md("sub/target/out.md");
    t.md(".hidden-file.md");
    t.write("not-md.txt", "x");
    let got = walk(&t, &t.root, &IgnoreConfig::new());
    // Hidden directories, `target`, and `node_modules` are skipped at
    // any depth; a hidden *file* is not a directory and is kept.
    assert_eq!(got, vec![".hidden-file.md", "a.md", "b.md", "sub/c.md"]);
}

#[test]
fn okfignore_always_applies_and_nests() {
    let mut t = Tmp::new();
    t.write(".okfignore", "*.wip.md\nscratch/\n");
    t.write("team/.okfignore", "!*.wip.md\n");
    t.md("a.wip.md");
    t.md("team/a.wip.md");
    t.md("scratch/x.md");
    t.md("keep.md");
    let got = walk(&t, &t.root, &IgnoreConfig::new());
    assert_eq!(got, vec!["keep.md", "team/a.wip.md"]);
}

#[test]
fn source_precedence_within_directory() {
    let mut t = Tmp::new();
    t.write(".a-ignore", "x.md\ny.md\n");
    t.write(".b-ignore", "!x.md\n");
    t.write(".okfignore", "!y.md\nz.md\n");
    t.md("x.md");
    t.md("y.md");
    t.md("z.md");
    let cfg = IgnoreConfig::new()
        .with_name(".a-ignore")
        .with_name(".b-ignore");
    let got = walk(&t, &t.root, &cfg);
    assert_eq!(got, vec!["x.md", "y.md"]);
}

#[test]
fn configured_order_decides_between_file_and_name() {
    let mut t = Tmp::new();
    t.write("shared.ignore", "a.md\n");
    t.write(".gitignore", "!a.md\n");
    t.md("a.md");
    t.md("b.md");
    let file = IgnoreSource::File(t.join("shared.ignore"));

    let name_last = IgnoreConfig::new()
        .with_source(file.clone())
        .with_name(".gitignore");
    assert_eq!(walk(&t, &t.root, &name_last), vec!["a.md", "b.md"]);

    let file_last = IgnoreConfig::new()
        .with_name(".gitignore")
        .with_source(file);
    assert_eq!(walk(&t, &t.root, &file_last), vec!["b.md"]);
}

#[test]
fn okfignore_outranks_an_explicit_file_source() {
    let mut t = Tmp::new();
    t.write("shared.ignore", "!keep.md\nb.md\n");
    t.write(".okfignore", "keep.md\n!b.md\n");
    t.md("keep.md");
    t.md("b.md");
    let cfg = IgnoreConfig::new().with_source(IgnoreSource::File(t.join("shared.ignore")));
    assert_eq!(walk(&t, &t.root, &cfg), vec!["b.md"]);
}

#[test]
fn index_files_survive_rules_that_match_them() {
    let mut t = Tmp::new();
    t.write(".okfignore", "*.md\n!keep.md\ndrafts/\n");
    t.md("index.md");
    t.md("keep.md");
    t.md("other.md");
    t.md("sub/index.md");
    t.md("drafts/index.md");
    let cfg = IgnoreConfig::new();
    // An ignored directory still takes its index file with it.
    assert_eq!(
        walk(&t, &t.root, &cfg),
        vec!["index.md", "keep.md", "sub/index.md"]
    );
}

/// Listed whether or not the file exists, since regeneration creates it.
#[test]
fn ignored_index_files_lists_every_matched_index_path() {
    let mut t = Tmp::new();
    t.write(".okfignore", "/index.md\ndrafts/\n");
    t.write("deep/.okfignore", "index.md\n");
    t.md("a.md");
    t.md("deep/b.md");
    t.md("plain/c.md");
    t.md("drafts/d.md");

    let cfg = IgnoreConfig::new();
    let got = ignored_index_files(&reports(&t, &t.root, &cfg));
    // The root rule is anchored, so it governs the root only; `deep/`
    // has its own rule, `plain/` has none, and `drafts/` is not entered.
    assert_eq!(rels(&t.root, &got), vec!["deep/index.md", "index.md"]);
}

#[test]
fn an_explicit_file_does_not_outrank_a_shallower_okfignore() {
    let mut t = Tmp::new();
    t.write("shared.ignore", "secret.md\n");
    t.write(".okfignore", "!secret.md\n");
    t.md("secret.md");
    t.md("sub/secret.md");
    // The root `.okfignore` re-includes the file, and the explicit source
    // sits at that same level below it, so the negation holds at every
    // depth rather than being overridden inside `sub/`.
    let cfg = IgnoreConfig::new().with_source(IgnoreSource::File(t.join("shared.ignore")));
    assert_eq!(walk(&t, &t.root, &cfg), vec!["secret.md", "sub/secret.md"]);
}

#[test]
fn an_explicit_dockerignore_applies_at_the_root_only() {
    let mut t = Tmp::new();
    t.write(".dockerignore", "sub/keep.md\n");
    t.write("sub/.gitignore", "!keep.md\n");
    t.md("sub/keep.md");
    t.md("sub/other.md");
    // Like a discovered `.dockerignore`, an explicit one is applied only
    // at the root, so the nested `.gitignore` is the deeper layer and its
    // negation decides.
    let cfg = IgnoreConfig::new()
        .with_name(".gitignore")
        .with_source(IgnoreSource::File(t.join(".dockerignore")));
    assert_eq!(walk(&t, &t.root, &cfg), vec!["sub/keep.md", "sub/other.md"]);
}

#[test]
fn an_explicit_dockerignore_outside_the_root_still_applies() {
    let mut t = Tmp::new();
    // The repository makes the file's directory an ancestor the walk
    // visits, which is not where a Docker layer may be pushed.
    t.mkdir(".git");
    t.write(".dockerignore", "bundle/drafts\n");
    t.md("bundle/drafts/a.md");
    t.md("bundle/b.md");
    let root = t.join("bundle");
    let cfg = IgnoreConfig::new().with_source(IgnoreSource::File(t.join(".dockerignore")));
    assert_eq!(walk(&t, &root, &cfg), vec!["b.md"]);
}

#[test]
fn default_skips_apply_everywhere_and_are_overridable() {
    let mut t = Tmp::new();
    t.md(".notes/n.md");
    t.md("node_modules/pkg/README.md");
    t.md("target/out.md");
    t.md("a.md");
    assert_eq!(walk(&t, &t.root, &IgnoreConfig::new()), vec!["a.md"]);

    // A named source and .okfignore each re-include one directory.
    t.write(".x-ignore", "!target/\n");
    t.write(".okfignore", "!.notes/\n");
    let cfg = IgnoreConfig::new().with_name(".x-ignore");
    assert_eq!(
        walk(&t, &t.root, &cfg),
        vec![".notes/n.md", "a.md", "target/out.md"]
    );

    // An ancestor ignore file can too.
    let mut t2 = Tmp::new();
    t2.mkdir(".git");
    t2.write(".gitignore", "!node_modules/\n");
    t2.md("kb/node_modules/pkg/README.md");
    t2.md("kb/a.md");
    let root = t2.join("kb");
    assert_eq!(
        walk(&t2, &root, &IgnoreConfig::new().with_name(".gitignore")),
        vec!["a.md", "node_modules/pkg/README.md"]
    );
}

#[test]
fn ancestor_gitignore_applies_up_to_repo_root() {
    let mut t = Tmp::new();
    t.mkdir(".git");
    t.write(".gitignore", "*.tmp.md\ndocs/kb/private/\n");
    t.write("docs/.gitignore", "mid.md\n");
    t.md("docs/kb/x.tmp.md");
    t.md("docs/kb/private/a.md");
    t.md("docs/kb/mid.md");
    t.md("docs/kb/ok.md");
    let root = t.join("docs/kb");
    let got = walk(&t, &root, &IgnoreConfig::new().with_name(".gitignore"));
    assert_eq!(got, vec!["ok.md"]);
}

#[test]
fn no_repo_means_no_ancestor_search() {
    let mut t = Tmp::new();
    t.write(".gitignore", "*.md\n");
    t.md("bundle/a.md");
    let root = t.join("bundle");
    let got = walk(&t, &root, &IgnoreConfig::new().with_name(".gitignore"));
    assert_eq!(got, vec!["a.md"]);
}

#[test]
fn root_that_is_repo_root_does_not_search_ancestors() {
    let mut t = Tmp::new();
    t.write(".gitignore", "*.md\n");
    t.mkdir("bundle/.git");
    t.md("bundle/a.md");
    let root = t.join("bundle");
    let got = walk(&t, &root, &IgnoreConfig::new().with_name(".gitignore"));
    assert_eq!(got, vec!["a.md"]);
}

#[test]
fn ignored_directory_is_pruned_and_not_read() {
    let mut t = Tmp::new();
    t.write(".okfignore", "build\n!build/keep.md\n");
    t.md("build/keep.md");
    t.md("a.md");
    let visited = entries(&reports(&t, &t.root, &IgnoreConfig::new()));
    let names = rels(&t.root, &visited);
    assert!(!names.iter().any(|n| n.starts_with("build")), "{names:?}");
    assert_eq!(names, vec![".okfignore", "a.md"]);
}

#[test]
fn dockerignore_is_root_only_and_anchored() {
    let mut t = Tmp::new();
    t.write(".dockerignore", "README.md\n");
    t.write("sub/.dockerignore", "*.md\n");
    t.md("README.md");
    t.md("sub/README.md");
    t.md("sub/a.md");
    let got = walk(&t, &t.root, &IgnoreConfig::new().with_name(".dockerignore"));
    assert_eq!(got, vec!["sub/README.md", "sub/a.md"]);
}

#[test]
fn explicit_file_source_is_anchored_to_its_parent() {
    let mut t = Tmp::new();
    t.write("shared.ignore", "bundle/private/\n");
    t.md("bundle/private/a.md");
    t.md("bundle/b.md");
    let root = t.join("bundle");
    let cfg = IgnoreConfig::new().with_source(IgnoreSource::File(t.join("shared.ignore")));
    let got = walk(&t, &root, &cfg);
    assert_eq!(got, vec!["b.md"]);
}

#[test]
fn missing_explicit_file_is_an_error() {
    let mut t = Tmp::new();
    t.md("a.md");
    let cfg = IgnoreConfig::new().with_source(IgnoreSource::File(t.join("nope")));
    let (_, result) = run(&t, &t.root, &cfg);
    assert_eq!(result, Err(Failure::NotFound));
}

#[test]
fn missing_named_source_is_silent() {
    let mut t = Tmp::new();
    t.md("a.md");
    let got = walk(&t, &t.root, &IgnoreConfig::new().with_name(".noignore"));
    assert_eq!(got, vec!["a.md"]);
}

#[test]
fn relative_root_paths_stay_relative() {
    let mut t = Tmp::new();
    t.write(".okfignore", "skip.md\n");
    t.md("skip.md");
    t.md("a.md");
    // The tree as seen from the current directory.
    let rel = PathBuf::from_text("../tmp/t");
    let files = walk_markdown(&reports(&t, &rel, &IgnoreConfig::new()));
    assert_eq!(files.len(), 1);
    assert!(files[0].starts_with(&rel), "{files:?} vs {rel:?}");
    assert_eq!(files[0].file_name(), Some(b"a.md".as_slice()));
}

/// A name that is not text survives the walk, and not even a catch-all pattern
/// ignores it.
#[test]
fn non_utf8_filename_survives_walk_and_is_not_ignored() {
    let mut t = Tmp::new();
    t.write(".okfignore", "*\n");
    t.md("plain.md");
    let bad_name = b"\xff\xfe.md";
    let bad = t.root.child(bad_name);
    t.put(&bad, Node::File(String::from("---\ntype: X\n---\n")));

    let files = walk_markdown(&reports(&t, &t.root, &IgnoreConfig::new()));
    assert_eq!(files.len(), 1, "{files:?}");
    assert_eq!(files[0].file_name(), Some(bad_name.as_slice()));
}

// ---------------------------------------------------------------------------
// What is reported, and in what order
// ---------------------------------------------------------------------------

fn rule_files(t: &Tmp, root: &PathBuf, cfg: &IgnoreConfig) -> Vec<String> {
    reported_rule_files(&reports(t, root, cfg)).iter().map(text).collect()
}

#[test]
fn directories_come_before_their_contents_in_name_order() {
    let mut t = Tmp::new();
    t.md("b/2.md");
    t.md("b/1.md");
    t.md("a.md");
    t.md("b.md");
    t.md("B/x.md");
    let all = entries(&reports(&t, &t.root, &IgnoreConfig::new()));
    assert_eq!(
        rels(&t.root, &all),
        vec!["B", "B/x.md", "a.md", "b", "b/1.md", "b/2.md", "b.md"]
    );
}

#[test]
fn markdown_is_sorted_by_path_not_by_spelling() {
    let mut t = Tmp::new();
    t.md("b/1.md");
    t.md("b-x.md");
    t.md("b.md");
    // Component by component: `b` comes before `b-x.md` and `b.md`.
    assert_eq!(
        walk(&t, &t.root, &IgnoreConfig::new()),
        vec!["b/1.md", "b-x.md", "b.md"]
    );
}

#[test]
fn extension_decides_what_is_markdown() {
    let mut t = Tmp::new();
    for name in [".md", "x.md", "x.MD", "x.md.txt", "xmd", "..md", "z.md/y.txt"] {
        t.md(name);
    }
    assert_eq!(walk(&t, &t.root, &IgnoreConfig::new()), vec!["..md", "x.md"]);
}

#[test]
fn links_are_reported_and_not_followed() {
    let mut t = Tmp::new();
    t.md("a.md");
    t.put(&t.join("link"), Node::Link);
    t.put(&t.join("other.md"), Node::Link);
    let all = reports(&t, &t.root, &IgnoreConfig::new());
    assert_eq!(rels(&t.root, &entries(&all)), vec!["a.md", "link", "other.md"]);
    assert_eq!(rels(&t.root, &walk_markdown(&all)), vec!["a.md"]);
    assert!(all.contains(&Report::Entry(t.join("link"), FileKind::Other)));
}

#[test]
fn an_index_directory_is_ignored_like_any_other() {
    let mut t = Tmp::new();
    t.write(".okfignore", "index.md\n");
    t.md("index.md/a.md");
    t.put(&t.join("sub/index.md"), Node::Link);
    let all = entries(&reports(&t, &t.root, &IgnoreConfig::new()));
    assert_eq!(rels(&t.root, &all), vec![".okfignore", "sub", "sub/index.md"]);
}

#[test]
fn every_ignore_file_read_is_reported() {
    let mut t = Tmp::new();
    t.mkdir(".git");
    t.write(".gitignore", "x\n");
    t.write("kb/.okfignore", "y\n.okfignore\n");
    t.write("kb/.gitignore", "");
    t.write("kb/sub/.gitignore", "z\n");
    t.write("kb/y/.gitignore", "");
    t.write("shared.ignore", "w\n");
    let cfg = IgnoreConfig::new()
        .with_name(".gitignore")
        .with_source(IgnoreSource::File(PathBuf::from_text("../tmp/t/shared.ignore")));
    // The explicit file, the ancestors, and then each directory entered. An
    // ignore file that the rules match is still read.
    assert_eq!(
        rule_files(&t, &t.join("kb"), &cfg),
        vec![
            "/tmp/t/shared.ignore",
            "/tmp/t/.gitignore",
            "/tmp/t/kb/.gitignore",
            "/tmp/t/kb/.okfignore",
            "/tmp/t/kb/sub/.gitignore",
        ]
    );
}

#[test]
fn an_unreadable_ignore_file_is_reported_and_has_no_rules() {
    let mut t = Tmp::new();
    t.put(&t.join(".okfignore"), Node::Unreadable);
    t.md("a.md");
    assert_eq!(rule_files(&t, &t.root, &IgnoreConfig::new()), vec!["/tmp/t/.okfignore"]);
    assert_eq!(walk(&t, &t.root, &IgnoreConfig::new()), vec!["a.md"]);
}

#[test]
fn a_directory_called_okfignore_is_no_ignore_file() {
    let mut t = Tmp::new();
    t.md(".okfignore/a.md");
    t.md("b.md");
    assert!(rule_files(&t, &t.root, &IgnoreConfig::new()).is_empty());
    assert_eq!(walk(&t, &t.root, &IgnoreConfig::new()), vec!["b.md"]);
}

// ---------------------------------------------------------------------------
// Errors
// ---------------------------------------------------------------------------

#[test]
fn a_root_that_cannot_be_listed_ends_the_walk() {
    let mut t = Tmp::new();
    t.md("a.md");
    let (seen, result) = run(&t, &t.join("nope"), &IgnoreConfig::new());
    assert_eq!(result, Err(Failure::NotFound));
    assert!(entries(&seen).is_empty());
    let (_, result) = run(&t, &t.join("a.md"), &IgnoreConfig::new());
    assert_eq!(result, Err(Failure::Denied));
}

#[test]
fn an_entry_of_unknown_kind_ends_the_walk_where_it_stands() {
    let mut t = Tmp::new();
    t.md("a.md");
    t.put(&t.join("b/locked"), Node::Locked);
    t.md("b/a.md");
    t.md("c.md");
    let (seen, result) = run(&t, &t.root, &IgnoreConfig::new());
    assert_eq!(result, Err(Failure::Denied));
    assert_eq!(rels(&t.root, &entries(&seen)), vec!["a.md", "b", "b/a.md"]);
}

#[test]
fn the_first_explicit_file_that_cannot_be_read_is_the_error() {
    let mut t = Tmp::new();
    t.md("a.md");
    t.put(&t.join("locked"), Node::Unreadable);
    let cfg = IgnoreConfig::new()
        .with_source(IgnoreSource::File(t.join("a.md")))
        .with_name(".gitignore")
        .with_source(IgnoreSource::File(t.join("locked")))
        .with_source(IgnoreSource::File(t.join("nope")));
    let (seen, result) = run(&t, &t.root, &cfg);
    assert_eq!(result, Err(Failure::Denied));
    assert!(seen.is_empty());
}

// ---------------------------------------------------------------------------
// Where layers apply
// ---------------------------------------------------------------------------

#[test]
fn an_explicit_file_below_the_root_applies_in_its_own_directory() {
    let mut t = Tmp::new();
    t.write("sub/my.ignore", "a.md\n");
    t.md("a.md");
    t.md("sub/a.md");
    t.md("sub/deep/a.md");
    let cfg = IgnoreConfig::new().with_source(IgnoreSource::File(t.join("sub/my.ignore")));
    assert_eq!(walk(&t, &t.root, &cfg), vec!["a.md"]);
}

#[test]
fn an_explicit_file_in_an_ancestor_gives_way_to_deeper_files() {
    let mut t = Tmp::new();
    t.mkdir(".git");
    t.write("shared.ignore", "a.md\nb.md\n");
    t.write("docs/.gitignore", "!a.md\n");
    t.md("docs/kb/a.md");
    t.md("docs/kb/b.md");
    let cfg = IgnoreConfig::new()
        .with_name(".gitignore")
        .with_source(IgnoreSource::File(t.join("shared.ignore")));
    assert_eq!(walk(&t, &t.join("docs/kb"), &cfg), vec!["a.md"]);
}

#[test]
fn an_explicit_file_beyond_the_repository_applies_at_the_root() {
    let mut t = Tmp::new();
    t.write("shared.ignore", "repo/kb/a.md\n");
    t.mkdir("repo/.git");
    t.write("repo/.gitignore", "!a.md\n");
    t.md("repo/kb/a.md");
    t.md("repo/kb/b.md");
    let cfg = IgnoreConfig::new()
        .with_name(".gitignore")
        .with_source(IgnoreSource::File(t.join("shared.ignore")));
    // Pushed at the root, it outranks the ancestor's file.
    assert_eq!(walk(&t, &t.join("repo/kb"), &cfg), vec!["b.md"]);
}

#[test]
fn rules_of_one_directory_do_not_reach_its_siblings() {
    let mut t = Tmp::new();
    t.write("a/.okfignore", "x.md\n");
    t.md("a/x.md");
    t.md("a/sub/x.md");
    t.md("b/x.md");
    t.md("x.md");
    assert_eq!(walk(&t, &t.root, &IgnoreConfig::new()), vec!["b/x.md", "x.md"]);
}

/// A tree with nested ignore files that use the whole grammar.
#[test]
fn a_tree_with_nested_ignore_files() {
    let mut t = Tmp::new();
    t.write(
        ".gitignore",
        "# comment line\n*.tmp.md\n!keep.tmp.md\n/anchored.md\nbuild/\n**/generated\nlogs/**\n\
         docs/**/z.md\nv?.md\n[a-c]lass.md\n[!x]neg.md\n\\#hash.md\n\\!bang.md\ntrailing.md\n\
         escaped\\ space.md\nnested/deep/ignored.md\nstar*.md\na**b.md\ndir-only/\n/rooted-dir/\n\
         node_modules\ntarget\n",
    );
    t.write(
        "sub/.gitignore",
        "# sub-level rules override root ones\n!*.tmp.md\nlocal.md\n/only-here.md\ninner/\n!logs\n",
    );
    t.write("sub/inner/.gitignore", "!inner-keep.md\n");
    let kept = [
        "keep.tmp.md",
        "sub/anchored.md",
        "generated.md",
        "logs.md",
        "docs/y.md",
        "v12.md",
        "dlass.md",
        "xneg.md",
        "nested/deep/other.md",
        "nested/ignored.md",
        "dir-only.md",
        "sub/rooted-dir/f.md",
        "sub/b.tmp.md",
        "sub/logs/l.md",
        "sub/x/only-here.md",
        "sub/plain.md",
        "plain.md",
    ];
    let ignored = [
        "a.tmp.md",
        "anchored.md",
        "build/x.md",
        "build/y/z.md",
        "generated/g.md",
        "a/generated/g.md",
        "a/b/generated/g.md",
        "logs/l.md",
        "logs/deep/l.md",
        "docs/z.md",
        "docs/a/z.md",
        "docs/a/b/z.md",
        "v1.md",
        "alass.md",
        "class.md",
        "aneg.md",
        "#hash.md",
        "!bang.md",
        "trailing.md",
        "escaped space.md",
        "nested/deep/ignored.md",
        "starfish.md",
        "star.md",
        "ab.md",
        "axyzb.md",
        "dir-only/f.md",
        "rooted-dir/f.md",
        "node_modules/pkg/README.md",
        "target/debug/notes.md",
        "sub/local.md",
        "sub/x/local.md",
        "sub/only-here.md",
        "sub/inner/i.md",
        "sub/inner/inner-keep.md",
    ];
    for file in kept.iter().chain(ignored.iter()) {
        t.md(file);
    }
    let mut expected: Vec<String> = kept.iter().map(|file| (*file).to_string()).collect();
    expected.sort();
    let mut got = walk(&t, &t.root, &IgnoreConfig::new().with_name(".gitignore"));
    got.sort();
    assert_eq!(got, expected);
}

// ---------------------------------------------------------------------------
// Walks as a whole
// ---------------------------------------------------------------------------

#[test]
fn all_reports_of_a_small_walk() {
    let mut t = Tmp::new();
    t.mkdir(".git");
    t.write(".gitignore", "");
    t.write("kb/.okfignore", "index.md\n/x\n");
    t.md("kb/x/hidden.md");
    t.md("kb/sub/index.md");
    t.write("kb/sub/.gitignore", "!index.md\n");
    t.md("kb/a.md");
    let cfg = IgnoreConfig::new().with_name(".gitignore");
    let root = t.join("kb");
    assert_eq!(
        reports(&t, &root, &cfg),
        vec![
            Report::RuleFile(t.join(".gitignore")),
            Report::RuleFile(t.join("kb/.okfignore")),
            Report::IndexRule(t.join("kb/index.md")),
            Report::Entry(t.join("kb/.okfignore"), FileKind::File),
            Report::Entry(t.join("kb/a.md"), FileKind::File),
            Report::Entry(t.join("kb/sub"), FileKind::Dir),
            Report::RuleFile(t.join("kb/sub/.gitignore")),
            Report::Entry(t.join("kb/sub/.gitignore"), FileKind::File),
            Report::Entry(t.join("kb/sub/index.md"), FileKind::File),
        ]
    );
}

#[test]
fn what_lies_in_an_ignored_directory_does_not_matter() {
    let mut plain = Tmp::new();
    plain.write(".okfignore", "build/\n");
    plain.md("a.md");
    let mut full = Tmp::new();
    full.write(".okfignore", "build/\n");
    full.md("a.md");
    full.write("build/.okfignore", "!*\n!../a.md\n");
    full.md("build/index.md");
    full.put(&full.join("build/locked"), Node::Locked);
    let cfg = IgnoreConfig::new();
    assert_eq!(reports(&plain, &plain.root, &cfg), reports(&full, &full.root, &cfg));
}

#[test]
fn the_order_of_a_listing_does_not_matter() {
    let entry = |name: &[u8]| Entry::<Failure> { name: name.to_vec(), kind: Ok(FileKind::File) };
    let listed = |names: &[&[u8]]| {
        let cfg = IgnoreConfig::new();
        let root = PathBuf::from_text("/r");
        let start = Locating::new(root.clone(), &root, &WalkOptions::new(&cfg));
        let marks = vec![false; start.marks().len()];
        let (_, step) = start.marked(marks).files_read::<Failure>(vec![]);
        let entering = match step {
            Step::Enter(entering) => entering,
            _ => panic!("the root comes first"),
        };
        let found = entering.rule_files().iter().map(|_| Found::Absent).collect();
        let (_, listing) = entering.rules_read(found);
        let (reports, _) = listing.listed(Ok(names.iter().map(|name| entry(name)).collect()));
        reports
    };
    let sorted = listed(&[b"a", b"b", b"c", b"d"]);
    assert_eq!(listed(&[b"d", b"c", b"b", b"a"]), sorted);
    assert_eq!(listed(&[b"b", b"d", b"a", b"c"]), sorted);
    assert_eq!(sorted.len(), 4);
}

#[test]
fn the_ancestors_that_are_searched() {
    let mut t = Tmp::new();
    t.mkdir("repo/.git");
    t.mkdir(".git");
    t.write("repo/a/b/c/x.md", "");
    let cfg = IgnoreConfig::new();
    let root = t.join("repo/a/b/c");
    let start = Locating::new(root.clone(), &root, &WalkOptions::new(&cfg));
    let marks: Vec<String> = start.marks().iter().map(text).collect();
    assert_eq!(
        marks,
        vec![
            "/tmp/t/repo/a/b/c/.git",
            "/tmp/t/repo/a/b/.git",
            "/tmp/t/repo/a/.git",
            "/tmp/t/repo/.git",
            "/tmp/t/.git",
            "/tmp/.git",
            "/.git",
        ]
    );
    let exist = start.marks().iter().map(|p| t.node(p).is_some()).collect();
    // Shallowest first, as far as the nearest repository.
    let mut seeded = Vec::new();
    let (_, mut step) = start.marked(exist).files_read::<Failure>(vec![]);
    while let Step::Seed(seeding) = step {
        let files = seeding.rule_files();
        seeded.extend(files.iter().map(text));
        let (_, next) = seeding.rules_read(files.iter().map(|_| Found::Absent).collect());
        step = next;
    }
    assert_eq!(
        seeded,
        vec![
            "/tmp/t/repo/.okfignore",
            "/tmp/t/repo/a/.okfignore",
            "/tmp/t/repo/a/b/.okfignore",
        ]
    );
}

#[test]
fn nothing_of_an_ignored_root_is_kept_or_listed() {
    let mut t = Tmp::new();
    t.mkdir(".git");
    t.write(".gitignore", "bundle/\n");
    t.md("bundle/index.md");
    t.md("bundle/a.md");
    t.md("bundle/sub/index.md");
    t.write("bundle/.okfignore", "!*\n");
    let root = t.join("bundle");
    let all = reports(&t, &root, &IgnoreConfig::new().with_name(".gitignore"));
    assert!(walk_markdown(&all).is_empty());
    assert!(ignored_index_files(&all).is_empty());
    assert!(entries(&all).is_empty());
    // Without the rule that ignores the root all is there.
    assert_eq!(
        walk(&t, &root, &IgnoreConfig::new()),
        vec!["a.md", "index.md", "sub/index.md"]
    );
}

#[test]
fn ignore_file_names_are_cut_at_the_separators_of_the_system() {
    let root = PathBuf::from_text("/r");
    let cfg = IgnoreConfig::new().with_name("a\\b");
    let wanted = |main: u8| {
        let start = Locating::new_with(root.clone(), &root, &WalkOptions::new(&cfg), main);
        let marks = vec![false; start.marks().len()];
        match start.marked(marks).files_read::<Failure>(vec![]).1 {
            Step::Enter(entering) => entering.rule_files(),
            _ => panic!("the root comes first"),
        }
    };
    assert_eq!(
        wanted(0x5c),
        vec![PathBuf::from_text("/r/a/b"), PathBuf::from_text("/r/.okfignore")]
    );
    assert_eq!(
        wanted(0x2f),
        vec![root.child(b"a\\b"), PathBuf::from_text("/r/.okfignore")]
    );
}

#[test]
fn entries_ascend_in_path_order() {
    let mut t = Tmp::new();
    for file in ["a/b.md", "a.md", "a-b.md", "a/b/c.md", "a/a.md", "B/z.md", "z/y/x/w.md"] {
        t.md(file);
    }
    let all = entries(&reports(&t, &t.root, &IgnoreConfig::new()));
    assert_eq!(okf_core::order::sort(all.iter().cloned().collect()), all);
    for pair in all.windows(2) {
        assert_ne!(pair[0], pair[1]);
    }
}

#[test]
fn a_name_that_ends_in_a_separator_finds_no_file() {
    let mut t = Tmp::new();
    t.write(".gitignore", "a.md\n");
    t.md("a.md");
    for name in [".gitignore/", ".gitignore/.", ".gitignore//"] {
        let cfg = IgnoreConfig::new().with_name(name);
        assert_eq!(walk(&t, &t.root, &cfg), vec!["a.md"], "{name}");
        assert!(rule_files(&t, &t.root, &cfg).is_empty(), "{name}");
    }
    assert!(walk(&t, &t.root, &IgnoreConfig::new().with_name("./.gitignore")).is_empty());
}
