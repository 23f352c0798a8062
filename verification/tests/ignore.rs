//! Ignore rules, matchers and sources.

use okf_core::ignore::{Flavor, IgnoreMatcher, IgnoreRules, IgnoreSource};
use okf_core::path::PathBuf;

fn path(text: &str) -> PathBuf {
    PathBuf::from_text(text)
}

fn rules(text: &str) -> IgnoreRules {
    IgnoreRules::parse(text, path("/b"), Flavor::Gitignore)
}

fn matcher(text: &str) -> IgnoreMatcher {
    let mut m = IgnoreMatcher::new();
    m.push(rules(text));
    m
}

fn ign(m: &IgnoreMatcher, rel: &str, is_dir: bool) -> bool {
    m.is_ignored(&path("/b").join(&path(rel)), is_dir)
}

#[test]
fn blank_and_comment_lines_are_skipped() {
    let r = rules("\n# comment\n   \n");
    assert!(r.is_empty());
}

#[test]
fn escaped_hash_is_literal() {
    let m = matcher("\\#notes.md");
    assert!(ign(&m, "#notes.md", false));
    assert!(!ign(&m, "notes.md", false));
}

#[test]
fn trailing_spaces_stripped_unless_escaped() {
    let m = matcher("a.md   \nb\\ .md");
    assert!(ign(&m, "a.md", false));
    assert!(ign(&m, "b .md", false));
    assert!(!ign(&m, "b.md", false));
}

#[test]
fn escaped_bang_is_literal() {
    let m = matcher("\\!important.md");
    assert!(ign(&m, "!important.md", false));
}

#[test]
fn directory_only_pattern() {
    let m = matcher("drafts/");
    assert!(ign(&m, "drafts", true));
    assert!(ign(&m, "drafts/a.md", false));
    assert!(ign(&m, "drafts/x/b.md", false));
    assert!(!ign(&m, "notes/drafts.md", false));
    assert!(!ign(&m, "drafts", false));
}

#[test]
fn unanchored_glob_matches_at_any_depth() {
    let m = matcher("*.draft.md");
    assert!(ign(&m, "a.draft.md", false));
    assert!(ign(&m, "deep/b.draft.md", false));
    assert!(!ign(&m, "a.md", false));
}

#[test]
fn leading_slash_anchors() {
    let m = matcher("/README.md");
    assert!(ign(&m, "README.md", false));
    assert!(!ign(&m, "sub/README.md", false));
}

#[test]
fn bare_name_matches_component_exactly() {
    let m = matcher("tmp");
    assert!(ign(&m, "tmp", true));
    assert!(ign(&m, "tmp", false));
    assert!(ign(&m, "x/tmp/y.md", false));
    assert!(!ign(&m, "tmp.md", false));
}

#[test]
fn last_match_wins() {
    let m = matcher("*.md\n!keep.md");
    assert!(!ign(&m, "keep.md", false));
    assert!(ign(&m, "other.md", false));
}

#[test]
fn double_star_prefix() {
    let m = matcher("**/generated");
    assert!(ign(&m, "generated", true));
    assert!(ign(&m, "a/generated", true));
    assert!(ign(&m, "a/b/generated", false));
    assert!(!ign(&m, "a/generated.md", false));
}

#[test]
fn double_star_suffix_and_middle() {
    let m = matcher("build/**\na/**/z.md");
    assert!(ign(&m, "build/x.md", false));
    assert!(ign(&m, "build/y/x.md", false));
    assert!(!ign(&m, "build", true));
    assert!(ign(&m, "a/z.md", false));
    assert!(ign(&m, "a/b/z.md", false));
    assert!(ign(&m, "a/b/c/z.md", false));
    assert!(!ign(&m, "b/z.md", false));
}

#[test]
fn many_double_stars_match_without_backtracking() {
    // Every `**` here could consume any number of components, so trying
    // the splits would explore them combinatorially. The suffix never
    // matches, which is the worst case.
    let pattern = "**/".repeat(20) + "zzz.md";
    let m = matcher(&pattern);
    let dirs = "d/".repeat(20);
    assert!(!ign(&m, &format!("{dirs}a.md"), false));
    assert!(ign(&m, &format!("{dirs}zzz.md"), false));
}

#[test]
fn inner_double_star_acts_as_star() {
    let m = matcher("a**b.md");
    assert!(ign(&m, "ab.md", false));
    assert!(ign(&m, "axyzb.md", false));
    assert!(!ign(&m, "a/b.md", false));
}

#[test]
fn question_mark_and_classes() {
    let m = matcher("v?.md\n[a-c]*.md\n[!x]z.md\n[]]y.md");
    assert!(ign(&m, "v1.md", false));
    assert!(!ign(&m, "v12.md", false));
    assert!(ign(&m, "banana.md", false));
    assert!(!ign(&m, "danana.md", false));
    assert!(ign(&m, "az.md", false));
    assert!(!ign(&m, "xz.md", false));
    assert!(ign(&m, "]y.md", false));
}

#[test]
fn star_does_not_cross_slash() {
    let m = matcher("docs/*.md");
    assert!(ign(&m, "docs/a.md", false));
    assert!(!ign(&m, "docs/x/a.md", false));
}

#[test]
fn case_sensitive() {
    let m = matcher("Draft.md");
    assert!(ign(&m, "Draft.md", false));
    assert!(!ign(&m, "draft.md", false));
}

#[test]
fn malformed_pattern_is_skipped() {
    let r = rules("[");
    assert_eq!(r.len(), 0);
    let r = rules("a[b\ngood.md\ntrailing\\");
    assert_eq!(r.len(), 1);
    let m = matcher("[");
    assert!(!ign(&m, "anything.md", false));
}

#[test]
fn negation_cannot_rescue_child_of_ignored_dir() {
    let m = matcher("build\n!build/keep.md");
    assert!(ign(&m, "build/keep.md", false));
}

#[test]
fn deeper_layer_overrides_shallower() {
    let mut m = IgnoreMatcher::new();
    m.push(IgnoreRules::parse("*.wip.md", path("/b"), Flavor::Gitignore));
    m.push(IgnoreRules::parse("!*.wip.md", path("/b/team"), Flavor::Gitignore));
    assert!(!m.is_ignored(&path("/b/team/a.wip.md"), false));
    assert!(m.is_ignored(&path("/b/a.wip.md"), false));
}

#[test]
fn later_source_in_same_dir_overrides_earlier() {
    let mut m = IgnoreMatcher::new();
    m.push(IgnoreRules::parse("secret.md", path("/b"), Flavor::Gitignore));
    m.push(IgnoreRules::parse("!secret.md", path("/b"), Flavor::Gitignore));
    assert!(!m.is_ignored(&path("/b/secret.md"), false));
}

#[test]
fn layer_does_not_apply_outside_its_base() {
    let mut m = IgnoreMatcher::new();
    m.push(IgnoreRules::parse("*.md", path("/b/sub"), Flavor::Gitignore));
    assert!(!m.is_ignored(&path("/b/a.md"), false));
    assert!(m.is_ignored(&path("/b/sub/a.md"), false));
}

#[test]
fn ancestor_anchored_pattern() {
    let mut m = IgnoreMatcher::new();
    m.push(IgnoreRules::parse("docs/kb/private/", path("/r"), Flavor::Gitignore));
    assert!(m.is_ignored(&path("/r/docs/kb/private/a.md"), false));
    assert!(!m.is_ignored(&path("/r/docs/kb/public/a.md"), false));
}

#[test]
fn docker_flavor_anchors_bare_names() {
    let mut m = IgnoreMatcher::new();
    m.push(IgnoreRules::parse("README.md", path("/b"), Flavor::Docker));
    assert!(m.is_ignored(&path("/b/README.md"), false));
    assert!(!m.is_ignored(&path("/b/sub/README.md"), false));
}

#[test]
fn builtin_rules_skip_defaults_and_negation_reincludes() {
    let mut m = IgnoreMatcher::new();
    m.push(IgnoreRules::builtin(path("/b")));
    // Hidden directories at any depth, including VCS metadata.
    assert!(m.is_ignored(&path("/b/.git"), true));
    assert!(m.is_ignored(&path("/b/x/.hg"), true));
    assert!(m.is_ignored(&path("/b/.svn/notes.md"), false));
    assert!(m.is_ignored(&path("/b/.drafts/a.md"), false));
    // `target` and `node_modules` at any depth.
    assert!(m.is_ignored(&path("/b/node_modules/a.md"), false));
    assert!(m.is_ignored(&path("/b/x/target/out.md"), false));
    // Hidden *files* and near-miss names are not touched.
    assert!(!m.is_ignored(&path("/b/.hidden.md"), false));
    assert!(!m.is_ignored(&path("/b/targets/a.md"), false));

    // Any ignore file outranks the defaults.
    m.push(IgnoreRules::parse("!.drafts/", path("/b"), Flavor::Gitignore));
    assert!(!m.is_ignored(&path("/b/.drafts/a.md"), false));
    assert!(m.is_ignored(&path("/b/.other/a.md"), false));
}

#[test]
fn non_utf8_component_never_matches() {
    let m = matcher("*");
    let bad = path("/b").child(b"\xff\xfe.md");
    assert!(!m.is_ignored(&bad, false));
}

#[test]
fn parse_cli_distinguishes_name_and_path() {
    assert_eq!(
        IgnoreSource::parse_cli(".gitignore"),
        IgnoreSource::Name(".gitignore".into())
    );
    assert_eq!(
        IgnoreSource::parse_cli("../shared.ignore"),
        IgnoreSource::File(path("../shared.ignore"))
    );
    assert_eq!(
        IgnoreSource::parse_cli("./nope"),
        IgnoreSource::File(path("./nope"))
    );
}

#[test]
fn dockerignore_source_uses_docker_flavor() {
    assert_eq!(
        IgnoreSource::Name(".dockerignore".into()).flavor(),
        Flavor::Docker
    );
    assert_eq!(
        IgnoreSource::Name(".gitignore".into()).flavor(),
        Flavor::Gitignore
    );
    assert_eq!(
        IgnoreSource::File(path("x/.dockerignore")).flavor(),
        Flavor::Docker
    );
}
