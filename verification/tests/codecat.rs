use mdatron::codecat::{candidate_tokens, check_file, compile_catalogs, orphan_finding, CodeCatalog, RawCatalog};

fn cat(namespace: &str, comprehensive: bool, codes: &[&str]) -> CodeCatalog {
    CodeCatalog {
        namespace: namespace.into(),
        comprehensive,
        tokens: codes.iter().map(|b| format!("{namespace}{b}")).collect(),
    }
}

#[test]
fn candidate_tokens_require_a_digit_and_word_boundary() {
    let toks: Vec<_> = candidate_tokens("see VSDD-X0001 and VSDD-related here", "VSDD-")
        .into_iter()
        .map(|(_, t)| t)
        .collect();
    assert_eq!(toks, vec!["VSDD-X0001"]);
    assert!(candidate_tokens("xVSDD-1", "VSDD-").is_empty());
}

#[test]
fn declared_token_resolves_orphan_flagged() {
    let catalogs = [cat("VSDD-", true, &["E0010"])];
    let mut f = Vec::new();
    check_file(&catalogs, "d.md", "cites VSDD-E0010 ok\n", 0, &mut f);
    assert!(f.is_empty(), "a declared code resolves clean");

    let mut f2 = Vec::new();
    check_file(&catalogs, "d.md", "cites VSDD-E9999 gone\n", 0, &mut f2);
    assert_eq!(f2.len(), 1);
    assert_eq!(f2[0].code, "MDATRON-E0113");
    assert!(f2[0]
        .quoted
        .iter()
        .any(|q| q.content == format!("VSDD-{}", "E9999")));
}

#[test]
fn unknown_class_token_is_caught_as_orphan() {
    let catalogs = [cat("VSDD-", true, &["E0010", "W0180"])];
    let mut f = Vec::new();
    check_file(&catalogs, "d.md", "typo VSDD-X0016 here\n", 0, &mut f);
    assert_eq!(f.len(), 1);
    assert_eq!(f[0].code, "MDATRON-E0113");
    assert!(f[0].quoted.iter().any(|q| q.content == "VSDD-X0016"));
}

#[test]
fn non_comprehensive_catalog_does_not_flag() {
    let catalogs = [cat("VSDD-", false, &["X0001"])];
    let mut f = Vec::new();
    check_file(&catalogs, "d.md", "cites VSDD-X9999\n", 0, &mut f);
    assert!(
        f.is_empty(),
        "a non-comprehensive catalog cannot call an unlisted token an orphan"
    );
}

#[test]
fn candidate_token_offsets_are_byte_offsets() {
    let toks = candidate_tokens("é VSDD-A1 VSDD-B2", "VSDD-");
    assert_eq!(toks, vec![(3, "VSDD-A1"), (11, "VSDD-B2")]);
}

#[test]
fn orphans_in_fenced_blocks_and_frontmatter_are_skipped() {
    let catalogs = [cat("VSDD-", true, &["E0010"])];
    let content = "---\nid: VSDD-E0001\n---\n```\nVSDD-E0002\n```\nline VSDD-E0003\n";
    let body = content.find("```").unwrap();
    let mut f = Vec::new();
    check_file(&catalogs, "d.md", content, body, &mut f);
    assert_eq!(f.len(), 1);
    assert_eq!(f[0].location.line, 7);
    assert!(f[0].quoted.iter().any(|q| q.content == "VSDD-E0003"));
}

#[test]
fn orphan_finding_points_at_the_token_line() {
    let f = orphan_finding("d.md", "a\nb VSDD-E1\n", 4, "VSDD-E1");
    assert_eq!(f.code, "MDATRON-E0113");
    assert_eq!(f.location.line, 2);
    assert_eq!(f.location.file, "d.md");
}

#[test]
fn compiled_catalogs_carry_full_tokens() {
    let loaded = compile_catalogs(&[
        RawCatalog {
            namespace: "VSDD-".to_string(),
            comprehensive: true,
            codes: vec!["E001".to_string(), "W002".to_string()],
        },
        RawCatalog { namespace: "ACME-".to_string(), comprehensive: false, codes: vec![] },
    ]);
    assert!(loaded.findings.is_empty());
    assert_eq!(loaded.catalogs.len(), 2);
    assert_eq!(loaded.catalogs[0].tokens, vec!["VSDD-E001".to_string(), "VSDD-W002".to_string()]);
    assert!(loaded.catalogs[0].comprehensive);
    assert_eq!(loaded.catalogs[1].namespace, "ACME-");
    assert!(loaded.catalogs[1].tokens.is_empty());
}
