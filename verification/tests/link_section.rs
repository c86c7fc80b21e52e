use mdatron::link::{is_external, is_markdown, resolve_target, split_fragment, TargetViolation};
use mdatron::section::parse_count_pred;

#[test]
fn is_external_classifies_schemes() {
    assert!(is_external("https://example.com/a.md"));
    assert!(is_external("mailto:x@y.z"));
    assert!(is_external("//cdn.example.com/x"));
    assert!(!is_external("docs/a.md"));
    assert!(!is_external("../b.md"));
    assert!(!is_external("#fragment"));
    assert!(!is_external("a.md#frag"));
}

#[test]
fn split_fragment_splits_on_first_hash() {
    assert_eq!(split_fragment("a.md#sec"), ("a.md", Some("sec")));
    assert_eq!(split_fragment("#sec"), ("", Some("sec")));
    assert_eq!(split_fragment("a.md"), ("a.md", None));
    assert_eq!(split_fragment("a.md#"), ("a.md", Some("")));
}

#[test]
fn resolve_target_is_document_relative() {
    assert_eq!(resolve_target("docs", "api.md").unwrap().as_path(), "docs/api.md");
    assert_eq!(resolve_target("docs", "../README.md").unwrap().as_path(), "README.md");
    assert!(matches!(
        resolve_target("docs", "../../outside.md"),
        Err(TargetViolation::Escapes)
    ));
    assert!(matches!(
        resolve_target("docs", "/etc/passwd"),
        Err(TargetViolation::Absolute)
    ));
}

#[test]
fn resolve_target_collapses_dot_segments() {
    assert_eq!(resolve_target("", "./a/./b.md").unwrap().as_path(), "a/b.md");
    assert_eq!(resolve_target("x/y", "../z.md").unwrap().as_path(), "x/z.md");
}

#[test]
fn markdown_targets_are_recognised_by_extension() {
    assert!(is_markdown("a/b.md"));
    assert!(!is_markdown("a/b.txt"));
}

#[test]
fn count_pred_parses_and_holds() {
    let p = parse_count_pred(">= 1").unwrap();
    assert!(p.holds(5) && p.holds(1) && !p.holds(0));
    assert_eq!(p.describe(), ">= 1");
    assert!(parse_count_pred("== 1").unwrap().holds(1));
    assert!(!parse_count_pred("== 1").unwrap().holds(2));
    assert!(parse_count_pred("bogus").is_none());
}

#[test]
fn count_pred_reads_every_operator() {
    assert_eq!(parse_count_pred(" < 3 ").unwrap().describe(), "< 3");
    assert_eq!(parse_count_pred("<=3").unwrap().describe(), "<= 3");
    assert_eq!(parse_count_pred("> 0").unwrap().describe(), "> 0");
    assert_eq!(parse_count_pred("!= 2").unwrap().describe(), "!= 2");
    assert!(parse_count_pred("!= 2").unwrap().holds(3));
    assert!(parse_count_pred(">=").is_none());
    assert!(parse_count_pred("= 1").is_none());
}
