//! The pattern grammar, rule sets and matchers on small inputs.

use okf_core::glob::{glob_match, Tok};
use okf_core::ignore::{Flavor, IgnoreConfig, IgnoreMatcher, IgnoreRules, IgnoreSource};
use okf_core::path::{Component, PathBuf};
use okf_core::pattern::{compile_segment, Pattern, Segment};

fn chars(text: &str) -> Vec<char> {
    text.chars().collect()
}

fn comps(path: &str) -> Vec<Vec<char>> {
    path.split('/').map(chars).collect()
}

fn segment(text: &str) -> Option<Segment> {
    compile_segment(&chars(text))
}

fn fits(text: &str, name: &str) -> bool {
    segment(text).unwrap().matches(&chars(name))
}

fn parse(line: &str, flavor: Flavor) -> Option<Pattern> {
    Pattern::parse(&chars(line), flavor)
}

fn hits(line: &str, flavor: Flavor, path: &str, is_dir: bool) -> bool {
    parse(line, flavor).unwrap().matches(&comps(path), is_dir)
}

fn git(line: &str, path: &str) -> bool {
    hits(line, Flavor::Gitignore, path, false)
}

fn path(text: &str) -> PathBuf {
    PathBuf::from_text(text)
}

fn rules(text: &str, base: &str) -> IgnoreRules {
    IgnoreRules::parse(text, path(base), Flavor::Gitignore)
}

fn stack(layers: &[(&str, &str)]) -> IgnoreMatcher {
    let mut m = IgnoreMatcher::new();
    for (text, base) in layers {
        m.push(rules(text, base));
    }
    m
}

fn verdict(text: &str, base: &str, p: &str, is_dir: bool) -> Option<bool> {
    rules(text, base).verdict(path(p).components(), is_dir)
}

// ---------------------------------------------------------------------------
// Globs
// ---------------------------------------------------------------------------

#[test]
fn single_tokens() {
    let class = Tok::Class { negated: false, ranges: vec![('a', 'c'), ('x', 'x')] };
    assert!(glob_match(&[Tok::Any], &chars("")));
    assert!(glob_match(&[Tok::Any], &chars("anything at all")));
    assert!(glob_match(&[Tok::One], &chars("é")));
    assert!(!glob_match(&[Tok::One], &chars("")));
    assert!(!glob_match(&[Tok::One], &chars("ab")));
    assert!(glob_match(&[class.clone()], &chars("b")));
    assert!(glob_match(&[class.clone()], &chars("x")));
    assert!(!glob_match(&[class.clone()], &chars("d")));
    assert!(!glob_match(&[class], &chars("bb")));
    assert!(glob_match(&[], &chars("")));
    assert!(!glob_match(&[], &chars("a")));
}

#[test]
fn globs_in_a_row_match_texts_in_a_row() {
    // `a*` and `*b` match the two halves of `axxb` wherever it is cut.
    let front = [Tok::Char('a'), Tok::Any];
    let back = [Tok::Any, Tok::Char('b')];
    let both = [Tok::Char('a'), Tok::Any, Tok::Any, Tok::Char('b')];
    assert!(glob_match(&front, &chars("ax")));
    assert!(glob_match(&back, &chars("xb")));
    assert!(glob_match(&both, &chars("axxb")));
    assert!(!glob_match(&both, &chars("axxc")));
    assert!(!glob_match(&both, &chars("a")));
}

#[test]
fn stars_backtrack() {
    assert!(fits("*a*b*c", "xxaxbxxbxc"));
    assert!(!fits("*a*b*c", "xxaxbxxbx"));
    assert!(fits("a*aab", "aaaaab"));
    assert!(!fits("a*aab", "aaaaaa"));
    assert!(fits("*?*?*", "ab"));
    assert!(!fits("*?*?*", "a"));
}

#[test]
fn a_run_of_stars_is_one_star() {
    assert_eq!(segment("a***b"), segment("a*b"));
    assert_eq!(segment("a*b"), Some(Segment::Glob(vec![Tok::Char('a'), Tok::Any, Tok::Char('b')])));
    assert_eq!(segment("**"), Some(Segment::DoubleStar));
    assert_eq!(segment("***"), Some(Segment::Glob(vec![Tok::Any])));
}

#[test]
fn escapes_make_literals() {
    assert_eq!(segment("\\a\\*\\[\\\\"), Some(Segment::Literal(chars("a*[\\"))));
    assert!(fits("\\*\\*", "**"));
    assert!(!fits("\\*\\*", "ab"));
    assert_eq!(segment("plain-name.md"), Some(Segment::Literal(chars("plain-name.md"))));
    assert!(!fits("plain-name.md", "Plain-name.md"));
}

#[test]
fn segments_that_do_not_end_are_malformed() {
    assert_eq!(segment("a\\"), None);
    assert_eq!(segment("[a"), None);
    assert_eq!(segment("["), None);
    assert_eq!(segment("[]"), None);
    assert_eq!(segment("[!"), None);
    assert_eq!(segment("[a-"), None);
    assert_eq!(segment("[a-\\"), None);
    assert_eq!(segment("[\\"), None);
}

#[test]
fn classes_in_detail() {
    // `]` comes first, `-` comes last, and `^` negates like `!`.
    assert!(fits("[]a]", "]"));
    assert!(fits("[!]a]", "b"));
    assert!(!fits("[!]a]", "]"));
    assert!(fits("[^a]", "b"));
    assert!(!fits("[^a]", "a"));
    assert!(fits("[a-]", "-"));
    assert!(fits("[a-]", "a"));
    assert!(!fits("[a-]", "b"));
    assert!(fits("[-a]", "-"));
    assert!(fits("[a\\-c]", "-"));
    assert!(!fits("[a\\-c]", "b"));
    assert!(fits("[\\]]", "]"));
    assert!(fits("[a-\\c]", "b"));
    assert!(!fits("[c-a]", "b"));
    assert!(fits("[!-a]", "b"));
    assert!(fits("[a-c-e]", "-"));
    assert_eq!(
        segment("[!a-cx]"),
        Some(Segment::Glob(vec![Tok::Class {
            negated: true,
            ranges: vec![('a', 'c'), ('x', 'x')]
        }]))
    );
}

// ---------------------------------------------------------------------------
// Lines
// ---------------------------------------------------------------------------

#[test]
fn lines_without_a_pattern() {
    for line in ["", "\r", "   ", "# x", "#", "!", "/", "!/", "//", "a//b", "a/[/b", "/ "] {
        assert!(parse(line, Flavor::Gitignore).is_none(), "{line:?}");
        assert!(parse(line, Flavor::Docker).is_none(), "{line:?}");
    }
}

#[test]
fn blanks_at_the_end_of_a_line() {
    let plain = parse("a.md", Flavor::Gitignore);
    assert_eq!(parse("a.md\r", Flavor::Gitignore), plain);
    assert_eq!(parse("a.md ", Flavor::Gitignore), plain);
    assert_eq!(parse("a.md   \r", Flavor::Gitignore), plain);
    assert!(git("a\\ ", "a "));
    assert!(git("a\\   ", "a "));
    assert!(git(" a", " a"));
    assert!(!git(" a", "a"));
}

#[test]
fn a_bang_only_negates() {
    for line in ["a.md", "/a.md", "a/", "**/a", "\\!a", "[!x]"] {
        let plain = parse(line, Flavor::Gitignore).unwrap();
        let negated = parse(&format!("!{line}"), Flavor::Gitignore).unwrap();
        assert!(!plain.is_negated());
        assert!(negated.is_negated());
        for p in ["a.md", "a", "x/a", "!a", "y"] {
            for is_dir in [false, true] {
                assert_eq!(plain.matches(&comps(p), is_dir), negated.matches(&comps(p), is_dir));
            }
        }
    }
}

#[test]
fn a_final_slash_only_asks_for_a_directory() {
    for line in ["a", "/a", "x/a", "**/a", "*"] {
        let plain = parse(line, Flavor::Gitignore).unwrap();
        let restricted = parse(&format!("{line}/"), Flavor::Gitignore).unwrap();
        for p in ["a", "x/a", "y/x/a", "b"] {
            assert!(!restricted.matches(&comps(p), false));
            assert_eq!(restricted.matches(&comps(p), true), plain.matches(&comps(p), true));
        }
    }
}

#[test]
fn docker_patterns_are_anchored() {
    assert!(hits("a.md", Flavor::Docker, "a.md", false));
    assert!(!hits("a.md", Flavor::Docker, "x/a.md", false));
    assert!(hits("a.md", Flavor::Gitignore, "x/a.md", false));
    assert!(hits("**/a.md", Flavor::Docker, "x/a.md", false));
    assert_eq!(parse("x/a.md", Flavor::Docker), parse("x/a.md", Flavor::Gitignore));
}

#[test]
fn a_bare_name_matches_the_last_component() {
    assert!(git("a*", "ab"));
    assert!(git("a*", "x/y/ab"));
    assert!(!git("a*", "ab/y"));
}

#[test]
fn every_segment_takes_one_component() {
    assert!(git("a/*/c", "a/b/c"));
    assert!(!git("a/*/c", "a/b/b/c"));
    assert!(!git("a/*/c", "a/c"));
    assert!(!git("a/*", "a"));
    assert!(!git("a/?", "a/"));
}

#[test]
fn the_three_forms_of_double_star() {
    assert!(git("**/x/y", "x/y"));
    assert!(git("**/x/y", "a/b/x/y"));
    assert!(!git("**/x/y", "x/a/y"));
    assert!(git("a/**/b/**/c", "a/b/c"));
    assert!(git("a/**/b/**/c", "a/1/2/b/3/c"));
    assert!(!git("a/**/b/**/c", "a/1/2/c"));
    assert!(git("a/b/**", "a/b/c/d"));
    assert!(!git("a/b/**", "a/b"));
    assert!(git("**", "a"));
    assert!(git("**", "a/b"));
    assert!(git("/**", "a/b"));
    assert!(git("**/**", "a"));
    assert!(!git("**/a/**", "a"));
    assert!(git("**/a/**", "x/a/y"));
}

#[test]
fn no_pattern_matches_no_components() {
    assert!(!parse("**", Flavor::Gitignore).unwrap().matches(&[], true));
    assert!(!parse("*", Flavor::Gitignore).unwrap().matches(&[], true));
}

// ---------------------------------------------------------------------------
// Rule sets
// ---------------------------------------------------------------------------

#[test]
fn lines_end_at_either_ending() {
    assert_eq!(rules("a.md\r\nb.md\nc.md", "/b").len(), 3);
    assert_eq!(rules("a.md\r\r\n", "/b").len(), 1);
    assert_eq!(verdict("a.md\r\r\n", "/b", "/b/a.md", false), Some(true));
    assert_eq!(rules("", "/b").len(), 0);
    assert!(rules("\n\n", "/b").is_empty());
    assert!(rules("a.md", "/b").base().same_path(&path("/b")));
}

#[test]
fn joined_texts_have_the_patterns_of_both() {
    for (a, b) in [("x\ny", "z\n"), ("x\r", "y\r\nz"), ("", "x"), ("x\n", ""), ("\\#", "!y")] {
        let joined = rules(&format!("{a}\n{b}"), "/b");
        assert_eq!(joined.len(), rules(a, "/b").len() + rules(b, "/b").len());
    }
    // The order of the two decides.
    assert_eq!(verdict("x\n!x", "/b", "/b/x", false), Some(false));
    assert_eq!(verdict("!x\nx", "/b", "/b/x", false), Some(true));
}

#[test]
fn carriage_returns_at_line_ends_change_nothing() {
    for text in ["a\nb/\n!c\n", "a\n\n# x\nb", "a\r\nb\r\n", "x\\ \ny"] {
        let more = text.replace('\n', "\r\n");
        assert_eq!(rules(&more, "/b"), rules(text, "/b"));
    }
    for text in ["a\nb", "", "a\n", "\n", "x\r\r\ny"] {
        assert_eq!(rules(&format!("{text}\r"), "/b"), rules(text, "/b"));
    }
    // Only two are taken off a line.
    assert_ne!(rules("a\r\r\r\n", "/b"), rules("a\r\r\n", "/b"));
}

#[test]
fn a_path_with_a_dot_in_it_has_no_verdict() {
    assert_eq!(verdict("*", "", "./a.md", false), None);
    assert_eq!(verdict("*", "", "a.md", false), Some(true));
}

#[test]
fn the_last_pattern_that_matches_decides() {
    let text = "*.md\n!a.md\na*\n!ab.md\n";
    assert_eq!(verdict(text, "/b", "/b/x.md", false), Some(true));
    assert_eq!(verdict(text, "/b", "/b/a.md", false), Some(true));
    assert_eq!(verdict(text, "/b", "/b/ab.md", false), Some(false));
    assert_eq!(verdict(text, "/b", "/b/x.txt", false), None);
}

#[test]
fn there_is_no_verdict_outside_the_base() {
    assert_eq!(verdict("*", "/b", "/b", true), None);
    assert_eq!(verdict("*", "/b", "/", true), None);
    assert_eq!(verdict("*", "/b", "/bb/x", false), None);
    assert_eq!(verdict("*", "/b", "/b/x", false), Some(true));
    let not_text = path("/b").child(b"\xff").child(b"x");
    assert_eq!(rules("*", "/b").verdict(not_text.components(), false), None);
    // Above the base it does not matter what is text.
    let odd = path("/").child(b"\xff");
    let inside = IgnoreRules::parse("*", odd.clone(), Flavor::Gitignore);
    assert_eq!(inside.verdict(odd.child(b"x").components(), false), Some(true));
}

#[test]
fn rules_of_a_file_belong_to_its_directory() {
    let of_file = IgnoreRules::of_file(&path("/b/sub/x.ignore"), "a.md\n", Flavor::Gitignore);
    assert!(of_file.base().same_path(&path("/b/sub")));
    assert_eq!(of_file.verdict(path("/b/sub/a.md").components(), false), Some(true));
    assert_eq!(of_file.verdict(path("/b/a.md").components(), false), None);
}

#[test]
fn the_default_rules_exactly() {
    let builtin = IgnoreRules::builtin(path("/b"));
    assert_eq!(builtin.len(), 3);
    for name in [".x", ".", "target", "node_modules"] {
        let p = path("/b").child(b"sub").child(name.as_bytes());
        assert_eq!(builtin.verdict(p.components(), true), Some(true), "{name}");
        assert_eq!(builtin.verdict(p.components(), false), None, "{name}");
    }
    for name in ["x", "x.y", "Target", "targets", "node_module"] {
        let p = path("/b").child(name.as_bytes());
        assert_eq!(builtin.verdict(p.components(), true), None, "{name}");
    }
}

// ---------------------------------------------------------------------------
// Matchers
// ---------------------------------------------------------------------------

#[test]
fn an_empty_matcher_ignores_nothing() {
    let m = IgnoreMatcher::new();
    assert_eq!(m.depth(), 0);
    assert!(!m.is_ignored(&path("/b/.git"), true));
    assert!(!IgnoreMatcher::default().is_ignored(&path(""), true));
}

#[test]
fn a_pop_takes_back_the_last_push() {
    let mut m = stack(&[("a.md", "/b")]);
    m.push(rules("!a.md", "/b"));
    assert_eq!(m.depth(), 2);
    assert!(!m.is_ignored(&path("/b/a.md"), false));
    assert_eq!(m.pop(), Some(rules("!a.md", "/b")));
    assert!(m.is_ignored(&path("/b/a.md"), false));
    assert!(m.pop().is_some());
    assert!(m.pop().is_none());
    assert_eq!(m.depth(), 0);
}

#[test]
fn a_layer_without_a_verdict_does_not_matter() {
    let m = stack(&[("a.md", "/b"), ("", "/b"), ("c.md", "/b"), ("*", "/elsewhere")]);
    assert!(m.is_ignored(&path("/b/a.md"), false));
    assert!(!m.is_ignored(&path("/b/x.md"), false));
    assert_eq!(m.direct_verdict(path("/b/a.md").components(), false), Some(true));
    assert_eq!(m.direct_verdict(path("/b/x.md").components(), false), None);
}

#[test]
fn an_ignored_directory_takes_all_that_lies_in_it_along() {
    let m = stack(&[("build\n", "/b"), ("!keep.md\n!*\n", "/b/build/deep")]);
    assert!(m.is_ignored(&path("/b/build"), true));
    assert!(m.is_ignored(&path("/b/build/x"), false));
    assert!(m.is_ignored(&path("/b/build/deep/keep.md"), false));
    assert!(m.is_ignored(&path("/b/build/deep/er/x"), true));
    assert!(!m.is_ignored(&path("/b/buildings"), true));
}

#[test]
fn a_copy_decides_alike() {
    let m = stack(&[("[a-c]*\n!b\n**/x/\n", "/b"), ("!a1", "/b")]);
    let copy = m.clone();
    assert_eq!(copy.depth(), 2);
    for p in ["/b/a", "/b/a1", "/b/b", "/b/c/x", "/b/d/x"] {
        for is_dir in [false, true] {
            assert_eq!(copy.is_ignored(&path(p), is_dir), m.is_ignored(&path(p), is_dir));
        }
    }
}

// ---------------------------------------------------------------------------
// Sources
// ---------------------------------------------------------------------------

#[test]
fn what_a_command_line_value_means() {
    assert_eq!(
        IgnoreSource::parse_cli_with("a\\b", 0x2f),
        IgnoreSource::Name(String::from("a\\b"))
    );
    assert_eq!(
        IgnoreSource::parse_cli_with("a\\b", 0x5c),
        IgnoreSource::File(path("a/b"))
    );
    assert_eq!(
        IgnoreSource::parse_cli_with("C:\\x\\shared.ignore", 0x5c),
        IgnoreSource::File(PathBuf::from_components(vec![
            Component::Prefix(b"C:".to_vec()),
            Component::RootDir,
            Component::Normal(b"x".to_vec()),
            Component::Normal(b"shared.ignore".to_vec()),
        ]))
    );
    for main in [0x2f, 0x5c] {
        assert_eq!(
            IgnoreSource::parse_cli_with("x/y", main),
            IgnoreSource::File(path("x/y"))
        );
        assert_eq!(
            IgnoreSource::parse_cli_with(".ignoré", main),
            IgnoreSource::Name(String::from(".ignoré"))
        );
    }
    assert_eq!(IgnoreSource::parse_cli(""), IgnoreSource::Name(String::new()));
    // Without a system named, this one is meant.
    assert_eq!(
        IgnoreSource::parse_cli("a\\b"),
        IgnoreSource::parse_cli_with("a\\b", std::path::MAIN_SEPARATOR as u8)
    );
}

#[test]
fn the_file_name_that_a_source_looks_for() {
    assert_eq!(IgnoreSource::Name(String::from(".x")).file_name(), Some(".x"));
    assert_eq!(IgnoreSource::File(path("../a/.x")).file_name(), Some(".x"));
    assert_eq!(IgnoreSource::File(path("..")).file_name(), None);
    assert_eq!(IgnoreSource::File(path("/")).file_name(), None);
    let odd = PathBuf::from_components(vec![Component::Normal(vec![0xff])]);
    assert_eq!(IgnoreSource::File(odd.clone()).file_name(), None);
    assert_eq!(IgnoreSource::File(odd).flavor(), Flavor::Gitignore);
}

#[test]
fn a_configuration_keeps_its_sources_in_order() {
    let cfg = IgnoreConfig::new()
        .with_name(".a")
        .with_source(IgnoreSource::File(path("b")))
        .with_name(".c");
    assert_eq!(
        cfg.sources,
        vec![
            IgnoreSource::Name(String::from(".a")),
            IgnoreSource::File(path("b")),
            IgnoreSource::Name(String::from(".c")),
        ]
    );
    assert!(IgnoreConfig::default().sources.is_empty());
    assert_eq!(cfg.clone().sources, cfg.sources);
}
