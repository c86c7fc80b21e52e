use mdatron::cite::{check_file, cited_targets, citations, CITATION_PATTERN};
use mdatron::cli::{escape_trace_path, parse_explain_code};
use mdatron::confine::confine_lexically;
use mdatron::diagnostic::Severity;
use mdatron::pattern::LinePattern;
use mdatron::snapshot::{ReadOutcome, Snapshot};

fn detector() -> LinePattern {
    LinePattern::compile(CITATION_PATTERN).expect("the citation detector compiles")
}

fn snapshot_with(files: &[(&str, ReadOutcome)]) -> Snapshot {
    let mut s = Snapshot::new(64, 1 << 20);
    for (path, outcome) in files {
        let rel = confine_lexically(path).unwrap();
        let outcome = match outcome {
            ReadOutcome::Read(b) => ReadOutcome::Read(b.clone()),
            ReadOutcome::OpenFailed(e) => ReadOutcome::OpenFailed(e.clone()),
            ReadOutcome::ReadFailed(e) => ReadOutcome::ReadFailed(e.clone()),
            ReadOutcome::NotRegular => ReadOutcome::NotRegular,
            ReadOutcome::Symlink { component, tag } => {
                ReadOutcome::Symlink { component: component.clone(), tag: *tag }
            }
        };
        let _ = s.capture(&rel, outcome);
    }
    s
}

#[test]
fn citation_tokens_are_detected_with_offsets() {
    let d = detector();
    let content = "see src/a.rs:3 and docs/b.md:2-4, not http://x.md:1 or v1.2\n";
    let cs = citations(&d, content, 0);
    let tokens: Vec<&str> = cs.iter().map(|c| c.token.as_str()).collect();
    assert_eq!(tokens, ["src/a.rs:3", "docs/b.md:2-4"]);
    assert_eq!(cs[0].at, 4);
    assert_eq!(cs[0].cited_path, "src/a.rs");
    assert_eq!((cs[1].start_line, cs[1].end_line), (2, Some(4)));
}

#[test]
fn offsets_count_from_the_whole_file() {
    let d = detector();
    let content = "---\nx: a.md:1\n---\nbody c.md:9\n";
    let body = content.find("body").unwrap();
    let cs = citations(&d, content, body);
    assert_eq!(cs.len(), 1);
    assert_eq!(cs[0].at, body + 5);
    let targets: Vec<String> = cited_targets(&d, "../x.md:1 y.md:2\n", 0)
        .iter()
        .map(|p| p.as_path().to_string())
        .collect();
    assert_eq!(targets, ["y.md"]);
}

#[test]
fn citations_are_judged_against_the_snapshot() {
    let d = detector();
    let snap = snapshot_with(&[
        ("a.md", ReadOutcome::Read(b"one\ntwo\n".to_vec())),
        ("big.md", ReadOutcome::Read(vec![b'x'; 65])),
        ("gone.md", ReadOutcome::OpenFailed("not found".into())),
        ("link.md", ReadOutcome::Symlink { component: "link.md".into(), tag: None }),
    ]);
    let content = "a.md:2\na.md:3\na.md:0\na.md:2-1\ngone.md:1\nbig.md:1\nlink.md:1\n../up.md:1\nnever.md:1\n";
    let mut f = Vec::new();
    check_file(&snap, &d, "doc.md", content, 0, &mut f);
    let codes: Vec<&str> = f.iter().map(|x| x.code.as_str()).collect();
    assert_eq!(
        codes,
        [
            "MDATRON-E0101",
            "MDATRON-E0101",
            "MDATRON-E0101",
            "MDATRON-E0100",
            "MDATRON-W0048",
            "MDATRON-E0012",
            "MDATRON-E0011",
            "MDATRON-E0080",
        ]
    );
    assert_eq!(f[0].location.line, 2);
    assert_eq!(f[0].message, "the cited target has 2 line(s); the citation names content past its end (lines are 1-based)");
    assert_eq!(f[0].quoted[0].content, "a.md:3");
    assert_eq!(f[4].severity, Severity::Warning);
}

#[test]
fn explain_code_short_form_and_validation() {
    assert_eq!(parse_explain_code("E0050"), Ok("MDATRON-E0050".to_string()));
    assert_eq!(parse_explain_code("MDATRON-W0041"), Ok("MDATRON-W0041".to_string()));
    assert_eq!(parse_explain_code("VSDD2-L0001"), Ok("VSDD2-L0001".to_string()));
    assert_eq!(
        parse_explain_code("E005"),
        Err("code must have form '<NAMESPACE>-<L><NNNN>' (e.g. MDATRON-E0001); got: E005".to_string())
    );
    assert_eq!(parse_explain_code("-E0001"), Err("code namespace is empty; got: -E0001".to_string()));
    assert_eq!(
        parse_explain_code("9X-E0001"),
        Err("code namespace must be [A-Z][A-Z0-9]*; got: 9X-E0001".to_string())
    );
    assert_eq!(parse_explain_code("X9-E0001"), Ok("X9-E0001".to_string()));
    assert_eq!(
        parse_explain_code("md-E0001"),
        Err("code namespace must be [A-Z][A-Z0-9]*; got: md-E0001".to_string())
    );
    assert_eq!(
        parse_explain_code("MDATRON-E001"),
        Err("code body must be one letter + four digits (e.g. E0001); got: MDATRON-E001".to_string())
    );
    assert_eq!(
        parse_explain_code("MDATRON-X0001"),
        Err("code letter must be one of E (error), L (lint), W (warning); got: MDATRON-X0001".to_string())
    );
    assert_eq!(
        parse_explain_code("MDATRON-E00a1"),
        Err("code body digits must be ASCII 0-9; got: MDATRON-E00a1".to_string())
    );
    assert!(parse_explain_code("MDATRON-\u{1b}[0m").is_err());
}

#[test]
fn trace_paths_escape_controls_and_separators() {
    assert_eq!(escape_trace_path("a/b.md"), "a/b.md");
    assert_eq!(escape_trace_path("a\nb\u{2028}c"), "a\\u{000a}b\\u{2028}c");
}
