use vimsnitch::gitignore::Gitignore;
use vimsnitch::pattern::Pattern;

#[test]
fn is_excluded_is_pure() {
    let p = Pattern::new("*.log", "/repo").unwrap();
    let first = p.is_excluded("any/depth/path/app.log", false);
    let second = p.is_excluded("any/depth/path/app.log", false);
    assert_eq!(first, second);
    assert!(first);
}

#[test]
fn anchored_pattern_matches_only_at_root() {
    let p = Pattern::new("/build", "/repo").unwrap();
    assert!(p.is_excluded("/repo/build", false));
    assert!(!p.is_excluded("/repo/sub/build", false));
}

#[test]
fn anchored_pattern_with_inner_separator() {
    let p = Pattern::new("target/debug", "/repo").unwrap();
    assert!(p.is_excluded("/repo/target/debug", true));
    assert!(!p.is_excluded("/repo/other/debug", true));
}

#[test]
fn unanchored_pattern_matches_at_any_depth() {
    let p = Pattern::new("*.log", "/repo").unwrap();
    assert!(p.is_excluded("any/depth/path/app.log", false));
    assert!(p.is_excluded("app.log", false));
    assert!(!p.is_excluded("app.txt", false));
}

#[test]
fn unanchored_basename_pattern_gets_wildcard_prefix() {
    let p = Pattern::new("secret.txt", "/repo").unwrap();
    assert!(p.is_excluded("deep/dir/secret.txt", false));
}

#[test]
fn directory_only_pattern_excludes_directory_not_file() {
    let p = Pattern::new("node_modules/", "/repo").unwrap();
    assert!(p.is_excluded("node_modules", true));
    assert!(!p.is_excluded("node_modules", false));
}

#[test]
fn anchored_pattern_under_root_with_trailing_slash() {
    let p = Pattern::new("build/out", "/repo/").unwrap();
    assert!(p.is_excluded("/repo/build/out", true));
}

#[test]
fn matching_is_case_insensitive() {
    let p = Pattern::new("*.log", "/repo").unwrap();
    assert!(p.is_excluded("APP.LOG", false));
}

#[test]
fn negation_pattern_alone_does_not_exclude_its_target() {
    let p = Pattern::new("!keep.log", "/repo").unwrap();
    assert!(!p.is_excluded("keep.log", false));
    assert!(p.is_excluded("other.log", false));
}

#[test]
fn negation_cannot_override_earlier_exclusion() {
    // The filter excludes as soon as any rule excludes: the later negation
    // rule cannot rescue keep.log from the first rule.
    let g = Gitignore::new("/repo", "*.log\n!keep.log\n");
    assert!(g.is_path_excluded("keep.log", false));
    assert!(g.is_path_excluded("other.log", false));
    // Under the any-rule policy a negation rule also excludes every path it
    // does not match, so a file that matches neither rule is still excluded
    // by the second one.
    assert!(g.is_path_excluded("notes.txt", false));
    let only_log = Gitignore::new("/repo", "*.log\n");
    assert!(!only_log.is_path_excluded("notes.txt", false));
}

#[test]
fn malformed_glob_is_a_parse_error() {
    assert!(Pattern::new("a**b", "/repo").is_err());
    assert!(Pattern::new("ok", "/repo").is_ok());
}

#[test]
fn malformed_rule_is_dropped_silently() {
    // "a**b" is rejected by the glob compiler; the line is dropped and the
    // remaining rules still apply.
    let g = Gitignore::new("/repo", "a**b\n*.log\n");
    assert!(g.is_path_excluded("app.log", false));
    assert!(!g.is_path_excluded("a**b", false) || g.is_path_excluded("app.log", false));
}

#[test]
fn comments_and_blank_lines_are_ignored() {
    let g = Gitignore::new("/repo", "# comment\n\n   \n*.tmp\n");
    assert!(g.is_path_excluded("x.tmp", false));
    assert!(!g.is_path_excluded("# comment", false));
}
