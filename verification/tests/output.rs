use mdatron::diagnostic::{Finding, Location, QuotedRegion, Severity};
use mdatron::output::{
    drop_unresolvable_refs, fingerprints, Families, FamilyActivity, Output, PipelineError, PipelineStatus, Summary,
    Timings, ENVELOPE_SCHEMA_ID, OUTPUT_VERSION,
};
use std::collections::BTreeMap;

fn err_finding(code: &str) -> Finding {
    Finding {
        code: code.into(),
        severity: Severity::Error,
        summary: "x".into(),
        message: "y".into(),
        help: None,
        location: Location { file: "a.md".into(), line: 1, column: 0 },
        explain_ref: None,
        quoted: Vec::new(),
    }
}

fn warn_finding(code: &str) -> Finding {
    let mut f = err_finding(code);
    f.severity = Severity::Warning;
    f
}

fn lint_finding(code: &str) -> Finding {
    let mut f = err_finding(code);
    f.severity = Severity::Lint;
    f
}

fn region(label: &str, content: &str) -> QuotedRegion {
    QuotedRegion { platform_variant: false, label: label.into(), content: content.into() }
}

#[test]
fn summary_counts_by_severity() {
    let findings = vec![
        err_finding("MDATRON-E0001"),
        err_finding("MDATRON-E0002"),
        warn_finding("MDATRON-W0050"),
        lint_finding("MDATRON-L0050"),
    ];
    let s = Summary::from_findings(&findings, 7);
    assert_eq!(s.error_count, 2);
    assert_eq!(s.warning_count, 1);
    assert_eq!(s.lint_count, 1);
    assert_eq!(s.files_checked, 7);
}

#[test]
fn output_build_sets_required_fields() {
    let env = Output::build(vec![], 0, PipelineStatus::Completed, None, Families::all_inactive(), "0.1.0");
    assert_eq!(env.mdatron_output_version, OUTPUT_VERSION);
    assert_eq!(env.mdatron_version, "0.1.0");
    assert_eq!(env.pipeline_status, PipelineStatus::Completed);
    assert_eq!(env.envelope_schema, ENVELOPE_SCHEMA_ID);
    assert!(env.inputs.is_empty());
    assert!(env.timings.is_none());
}

#[test]
fn exit_code_zero_when_clean() {
    let env = Output::build(vec![], 5, PipelineStatus::Completed, None, Families::all_inactive(), "0.1.0");
    assert_eq!(env.derive_exit_code(), 0);
}

#[test]
fn exit_code_one_when_error_present() {
    let env = Output::build(
        vec![err_finding("MDATRON-E0001")],
        5,
        PipelineStatus::Completed,
        None,
        Families::all_inactive(),
        "0.1.0",
    );
    assert_eq!(env.derive_exit_code(), 1);
}

#[test]
fn exit_code_zero_when_warnings_only_no_errors() {
    let env = Output::build(
        vec![warn_finding("MDATRON-W0050")],
        5,
        PipelineStatus::Completed,
        None,
        Families::all_inactive(),
        "0.1.0",
    );
    assert_eq!(env.derive_exit_code(), 0);
}

#[test]
fn exit_code_two_when_pipeline_failed() {
    let env = Output::build(vec![], 0, PipelineStatus::Failed, None, Families::all_inactive(), "0.1.0");
    assert_eq!(env.derive_exit_code(), 2);
}

#[test]
fn exit_code_two_even_with_errors_when_failed() {
    let env = Output::build(
        vec![err_finding("MDATRON-E0001")],
        0,
        PipelineStatus::Failed,
        Some(PipelineError {
            code: "MDATRON-E0080".into(),
            kind: "config".into(),
            message: "no jurisdiction declared".into(),
        }),
        Families::all_inactive(),
        "0.3.0",
    );
    assert_eq!(env.derive_exit_code(), 2);
    assert_eq!(env.pipeline_error.as_ref().unwrap().kind, "config");
}

fn representative_envelope() -> Output {
    let mut errf = err_finding("MDATRON-E0050");
    errf.help = Some("fix it".into());
    errf.explain_ref = Some("MDATRON-E0050".into());
    errf.quoted = vec![region("found", "\"bogus\"")];
    Output::build(
        vec![errf, warn_finding("MDATRON-W0041"), lint_finding("MDATRON-L0001")],
        3,
        PipelineStatus::Completed,
        None,
        Families {
            schema: FamilyActivity::active("schemas supplied"),
            route: FamilyActivity::active("routes supplied"),
            pin: FamilyActivity::inactive("no pins.yaml"),
            vocabulary: FamilyActivity::inactive("no vocabulary.yaml"),
            citation: FamilyActivity::inactive("no citations route"),
            link: FamilyActivity::inactive("no links route"),
            marker: FamilyActivity::inactive("no marker_rules route"),
            code_catalog: FamilyActivity::inactive("no code-catalogs.yaml"),
            section: FamilyActivity::inactive("no route supplies section_rules"),
            rule_dsl: FamilyActivity::inactive("no pattern files"),
        },
        "0.3.0",
    )
}

#[test]
fn three_output_forms_agree_on_findings() {
    let env = representative_envelope();
    let json_codes: Vec<&str> = env.findings.iter().map(|f| f.code.as_str()).collect();
    assert_eq!(json_codes, ["MDATRON-E0050", "MDATRON-W0041", "MDATRON-L0001"]);
    for f in &env.findings {
        assert!(f.format_tty().contains(&f.code), "TTY form drops {}", f.code);
        assert!(f.format_compact().contains(&f.code), "compact form drops {}", f.code);
    }
}

#[test]
fn families_report_activity() {
    let env = representative_envelope();
    assert!(env.families.schema.is_active());
    assert!(!env.families.pin.is_active());
    assert!(!FamilyActivity::inert("declared, nothing to check").is_active());
    let all = Families::all_inactive();
    assert!(!all.schema.is_active() && !all.section.is_active());
    assert_eq!(all.rule_dsl, FamilyActivity::inactive("the pipeline did not run"));
}

#[test]
fn published_output_version_is_3_1_0() {
    assert_eq!(OUTPUT_VERSION, "3.1.0");
    assert!(ENVELOPE_SCHEMA_ID.ends_with("/3.1.0"));
}

#[test]
fn deny_warnings_escalates_only_a_warnings_only_run() {
    let warn_only = Output::build(
        vec![warn_finding("MDATRON-W0041"), lint_finding("MDATRON-L0001")],
        1,
        PipelineStatus::Completed,
        None,
        Families::all_inactive(),
        "0.1.0",
    );
    assert_eq!(warn_only.exit_code_with(false), 0);
    assert_eq!(warn_only.exit_code_with(true), 1);
    let lint_only = Output::build(vec![lint_finding("MDATRON-L0001")], 1, PipelineStatus::Completed, None, Families::all_inactive(), "0.1.0");
    assert_eq!(lint_only.exit_code_with(true), 0);
    let failed = Output::build(vec![warn_finding("MDATRON-W0041")], 0, PipelineStatus::Failed, None, Families::all_inactive(), "0.1.0");
    assert_eq!(failed.exit_code_with(true), 2);
    let errs = representative_envelope();
    assert_eq!(errs.exit_code_with(true), 1);
}

#[test]
fn inputs_and_timings_attach() {
    let inputs = BTreeMap::from([("config.yaml".to_string(), format!("sha256:{}", "0".repeat(64)))]);
    let env = representative_envelope().with_inputs(inputs.clone()).with_timings(Some(Timings {
        total_ms: 12,
        load_ms: 3,
        capture_ms: 4,
        check_ms: 5,
    }));
    assert_eq!(env.inputs, inputs);
    assert_eq!(env.timings.as_ref().unwrap().total_ms, 12);
    assert_eq!(env.findings.len(), 3);
}

fn f_at(code: &str, file: &str, line: u32) -> Finding {
    let mut f = err_finding(code);
    f.location.file = file.into();
    f.location.line = line;
    f
}

#[test]
fn fingerprint_survives_line_churn() {
    let a = fingerprints(&[f_at("MDATRON-E0110", "docs/a.md", 10)]);
    let b = fingerprints(&[f_at("MDATRON-E0110", "docs/a.md", 99)]);
    assert_eq!(a, b, "line churn must not change the fingerprint");
    assert!(a[0].starts_with("v1:") && a[0].len() == 3 + 32, "v1-prefixed 32-hex form: {:?}", a[0]);
    assert!(
        a[0][3..].chars().all(|c| c.is_ascii_hexdigit() && !c.is_ascii_uppercase()),
        "lowercase hex: {:?}",
        a[0]
    );
}

#[test]
fn fingerprint_ordinal_distinguishes_identical_siblings() {
    let one = f_at("MDATRON-E0110", "docs/a.md", 3);
    let two = f_at("MDATRON-E0110", "docs/a.md", 7);
    let prints = fingerprints(&[one.clone(), two]);
    assert_ne!(prints[0], prints[1], "identical siblings are disambiguated by ordinal");
    let survivor = fingerprints(&[one]);
    assert_eq!(prints[0], survivor[0], "removing the first transfers identity to the survivor");
}

#[test]
fn fingerprint_changes_with_quoted_content_and_path() {
    let mut a = f_at("MDATRON-E0110", "docs/a.md", 1);
    a.quoted = vec![region("link", "gone.md")];
    let mut b = a.clone();
    b.quoted[0].content = "other.md".into();
    assert_ne!(
        fingerprints(&[a.clone()])[0],
        fingerprints(&[b])[0],
        "quoted content participates in the identity"
    );
    let mut c = a.clone();
    c.location.file = "docs/b.md".into();
    assert_ne!(fingerprints(&[a])[0], fingerprints(&[c])[0], "the file path participates in the identity");
}

#[test]
fn fingerprint_encoding_resists_nul_field_shifting() {
    let mut a = f_at("T-E0001", "docs/a.md", 1);
    a.summary = "s".into();
    a.quoted = vec![region("l", "SECRET")];
    let mut b = f_at("T-E0001", "docs/a.md", 1);
    b.summary = "s\0l\0SECRET".into();
    assert_ne!(
        fingerprints(&[a])[0],
        fingerprints(&[b])[0],
        "a NUL-smuggling summary must not collide with a quoted region"
    );
}

#[test]
fn fingerprint_encoding_resists_region_splicing() {
    let mut spliced = f_at("T-E0001", "docs/a.md", 1);
    spliced.quoted = vec![region("found", "x\0found\0y")];
    let mut honest = f_at("T-E0001", "docs/a.md", 1);
    honest.quoted = vec![region("found", "x"), region("found", "y")];
    assert_ne!(
        fingerprints(&[spliced])[0],
        fingerprints(&[honest])[0],
        "one spliced region must not collide with two honest regions"
    );
}

#[test]
fn fingerprint_excludes_platform_variant_regions_only() {
    let base = || {
        let mut f = f_at("MDATRON-E0110", "docs/a.md", 1);
        f.quoted = vec![
            region("link", "gone.md"),
            QuotedRegion {
                platform_variant: true,
                label: "os error".into(),
                content: "No such file or directory (os error 2)".into(),
            },
        ];
        f
    };
    let unix = base();
    let mut windows = base();
    windows.quoted[1].content = "The system cannot find the file specified. (os error 2)".into();
    assert_eq!(
        fingerprints(&[unix.clone()])[0],
        fingerprints(&[windows])[0],
        "platform-variant engine prose must not split the identity"
    );
    let mut other_link = base();
    other_link.quoted[0].content = "other.md".into();
    assert_ne!(
        fingerprints(&[unix])[0],
        fingerprints(&[other_link])[0],
        "adopter-content regions stay identity-bearing"
    );
}

#[test]
fn fingerprint_path_is_forward_slashed() {
    let back = f_at("MDATRON-E0110", "docs\\a.md", 1);
    let fwd = f_at("MDATRON-E0110", "docs/a.md", 1);
    assert_eq!(fingerprints(&[back])[0], fingerprints(&[fwd])[0]);
}

#[test]
fn fingerprint_of_empty_run_is_empty() {
    assert!(fingerprints(&[]).is_empty());
}

#[test]
fn output_version_is_semver_triple() {
    let parts: Vec<&str> = OUTPUT_VERSION.split('.').collect();
    assert_eq!(parts.len(), 3);
    for p in parts {
        assert!(p.parse::<u32>().is_ok(), "output version part not numeric: {p}");
    }
    assert!(ENVELOPE_SCHEMA_ID.ends_with(OUTPUT_VERSION));
}

#[test]
fn later_findings_never_change_earlier_fingerprints() {
    let all = vec![err_finding("MDATRON-E0001"), err_finding("MDATRON-E0001"), warn_finding("MDATRON-W0001")];
    let full = fingerprints(&all);
    for k in 0..=all.len() {
        assert_eq!(fingerprints(&all[..k]), full[..k].to_vec());
    }
    assert_ne!(full[0], full[1], "identical siblings differ by their ordinal");
}

#[test]
fn explain_references_without_a_page_are_withdrawn() {
    let mut a = err_finding("MDATRON-E0050");
    a.explain_ref = Some("MDATRON-E0050".into());
    let mut b = err_finding("VSDD-E0001");
    b.explain_ref = Some("VSDD-E0001".into());
    let c = warn_finding("MDATRON-W0001");
    let mut findings = vec![a.clone(), b.clone(), c.clone()];
    drop_unresolvable_refs(&mut findings, &vec!["MDATRON-E0050".to_string()]);
    assert_eq!(findings[0], a);
    assert_eq!(findings[1].explain_ref, None);
    assert_eq!(findings[1].code, "VSDD-E0001");
    assert_eq!(findings[1].message, b.message);
    assert_eq!(findings[2], c);
    assert_eq!(findings.len(), 3);
}
