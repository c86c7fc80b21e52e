use mdatron::confine::confine_lexically;
use mdatron::diagnostic::Finding;
use mdatron::error::Error;
use mdatron::section::{RawRule, SectionElement};
use mdatron::marker::{check_file, resolve_members};
use mdatron::route::{
    check_file as route_check_file, citations_enabled, compile_routes, link_root_enabled,
    links_enabled, marker_rules_for, section_rules_for, ElementClass, LoadedRoutes, Probe, RawEntry, RawMarkerRule,
};
use mdatron::snapshot::{ReadOutcome, Snapshot};

fn entry(files: &str, governed_by: &str) -> RawEntry {
    RawEntry {
        files: files.into(),
        governed_by: governed_by.into(),
        naming: None,
        citations: false,
        links: false,
        link_root: false,
        marker_rules: Vec::new(),
        section_rules: Vec::new(),
    }
}

fn marker_rule(pattern: &str, target_doc: &str, target_section: Option<&str>) -> RawMarkerRule {
    RawMarkerRule {
        pattern: pattern.into(),
        element: ElementClass::ListItemBoldName,
        target_doc: target_doc.into(),
        target_section: target_section.map(String::from),
    }
}

fn load(entries: Vec<RawEntry>) -> LoadedRoutes {
    let probes = vec![Probe::Opened; entries.len()];
    compile_routes(".mdatron/routes.yaml", &entries, &probes).unwrap()
}

fn codes(findings: &[Finding]) -> Vec<&str> {
    findings.iter().map(|f| f.code.as_str()).collect()
}

#[test]
fn unclaimed_file_is_unrouted() {
    let loaded = load(vec![entry("docs/*.md", "DESIGN.md")]);
    let mut f = Vec::new();
    route_check_file(&loaded.routes, "notes/a.md", "/p/notes/a.md", &mut f);
    assert_eq!(codes(&f), ["MDATRON-E0030"]);
    assert_eq!(f[0].location.file, "/p/notes/a.md");
    let mut g = Vec::new();
    route_check_file(&loaded.routes, "docs/a.md", "/p/docs/a.md", &mut g);
    assert!(g.is_empty());
}

#[test]
fn two_claiming_routes_conflict() {
    let loaded = load(vec![entry("docs/*.md", "DESIGN.md"), entry("docs/**/*.md", "OTHER.md")]);
    let mut f = Vec::new();
    route_check_file(&loaded.routes, "docs/a.md", "docs/a.md", &mut f);
    assert_eq!(codes(&f), ["MDATRON-E0032"]);
    assert!(f[0].message.starts_with("2 routes claim this file"));
    let quoted: Vec<&str> = f[0].quoted.iter().map(|q| q.content.as_str()).collect();
    assert_eq!(quoted, ["docs/*.md", "docs/**/*.md"]);
}

#[test]
fn naming_grammar_flags_underivable_names() {
    let mut e = entry("log/*.md", "DESIGN.md");
    e.naming = Some("^[0-9]{4}-.+\\.md$".into());
    let loaded = load(vec![e]);
    let mut ok = Vec::new();
    route_check_file(&loaded.routes, "log/2024-a.md", "log/2024-a.md", &mut ok);
    assert!(ok.is_empty());
    let mut bad = Vec::new();
    route_check_file(&loaded.routes, "log/notes.md", "log/notes.md", &mut bad);
    assert_eq!(codes(&bad), ["MDATRON-W0041"]);
    assert_eq!(bad[0].quoted[0].content, "notes.md");
    assert!(bad[0].message.ends_with("/^[0-9]{4}-.+\\.md$/"));
}

#[test]
fn escaping_entries_are_dropped_with_a_finding() {
    let entries = vec![
        entry("../out/*.md", "DESIGN.md"),
        entry("docs/*.md", "/etc/DESIGN.md"),
        entry("docs/*.md", "DESIGN.md"),
    ];
    let probes = [Probe::Opened, Probe::Opened, Probe::Opened];
    let loaded = compile_routes("r.yaml", &entries, &probes).unwrap();
    assert_eq!(loaded.routes.len(), 1);
    assert_eq!(codes(&loaded.findings), ["MDATRON-E0011", "MDATRON-E0010"]);
    assert_eq!(loaded.findings[0].quoted[0].label, "files");
    assert_eq!(loaded.findings[1].quoted[0].label, "governed_by");
}

#[test]
fn governing_document_problems_keep_the_route() {
    let entries = vec![entry("a/*.md", "GONE.md"), entry("b/*.md", "LINK.md")];
    let probes = [Probe::Unopenable, Probe::Symlink];
    let loaded = compile_routes("r.yaml", &entries, &probes).unwrap();
    assert_eq!(loaded.routes.len(), 2);
    assert_eq!(codes(&loaded.findings), ["MDATRON-E0031", "MDATRON-E0012"]);
}

#[test]
fn uncompilable_patterns_fail_the_load() {
    let mut e = entry("docs/*.md", "DESIGN.md");
    e.naming = Some("(unclosed".into());
    let Err(Error::Config(m)) = compile_routes("r.yaml", &[e], &[Probe::Opened]) else {
        panic!("a bad naming grammar must fail the load");
    };
    assert!(m.starts_with("route naming grammar '(unclosed' does not compile: "));
    let mut e = entry("docs/*.md", "DESIGN.md");
    e.marker_rules.push(marker_rule("[", "T.md", None));
    let Err(Error::Config(m)) = compile_routes("r.yaml", &[e], &[Probe::Opened]) else {
        panic!("a bad marker pattern must fail the load");
    };
    assert!(m.starts_with("route marker_rules pattern '[' does not compile: "));
    let Err(Error::Config(m)) = compile_routes("r.yaml", &[entry("docs/[*.md", "D.md")], &[Probe::Opened]) else {
        panic!("a bad glob must fail the load");
    };
    assert!(m.starts_with("route files glob 'docs/[*.md' does not compile: "));
}

#[test]
fn opt_in_flags_follow_the_claiming_route() {
    let mut e = entry("docs/*.md", "DESIGN.md");
    e.citations = true;
    e.link_root = true;
    let loaded = load(vec![e, entry("other/*.md", "DESIGN.md")]);
    assert!(citations_enabled(&loaded.routes, "docs/a.md"));
    assert!(!citations_enabled(&loaded.routes, "other/a.md"));
    assert!(!links_enabled(&loaded.routes, "docs/a.md"));
    assert!(!link_root_enabled(&loaded.routes, "docs/a.md"), "link_root without links is inert");
}

fn snapshot_with(files: &[(&str, &str)]) -> Snapshot {
    let mut s = Snapshot::new(1 << 20, 1 << 24);
    for (path, text) in files {
        let rel = confine_lexically(path).unwrap();
        s.capture(&rel, ReadOutcome::Read(text.as_bytes().to_vec())).unwrap();
    }
    s
}

fn marker_routes(rule: RawMarkerRule) -> LoadedRoutes {
    let mut e = entry("docs/*.md", "DESIGN.md");
    e.marker_rules.push(rule);
    load(vec![e])
}

#[test]
fn marker_references_resolve_against_the_target() {
    let snap = snapshot_with(&[("PLAN.md", "---\nid: p\n---\n# Plan\n- **Slice 1.** one\n- **Slice 2.** two\n")]);
    let loaded = marker_routes(marker_rule("^Provenance: (.+)$", "PLAN.md", None));
    let rules = marker_rules_for(&loaded.routes, "docs/a.md");
    assert_eq!(rules.len(), 1);
    let content = "# A\nProvenance: Slice 1\n```\nProvenance: Slice 9\n```\nProvenance: Slice 3\n";
    let mut f = Vec::new();
    check_file(&snap, "docs/a.md", content, 0, &rules, &mut f);
    assert_eq!(codes(&f), ["MDATRON-E0112"]);
    assert_eq!(f[0].location.line, 6);
    assert_eq!(f[0].quoted[0].label, "marker");
    assert_eq!(f[0].quoted[0].content, "Slice 3");
}

#[test]
fn missing_target_section_disables_the_rule_once() {
    let snap = snapshot_with(&[("PLAN.md", "# Plan\n## Done\n- **Slice 1.** x\n")]);
    let loaded = marker_routes(marker_rule("^P: (.+)$", "PLAN.md", Some("## Open")));
    let rules = marker_rules_for(&loaded.routes, "docs/a.md");
    let mut f = Vec::new();
    check_file(&snap, "docs/a.md", "P: Slice 1\nP: Slice 2\n", 0, &rules, &mut f);
    assert_eq!(codes(&f), ["MDATRON-E0114"]);
    assert_eq!(f[0].quoted[0].content, "## Open");
}

#[test]
fn uncaptured_target_is_an_engine_defect() {
    let snap = snapshot_with(&[]);
    let loaded = marker_routes(marker_rule("^P: (.+)$", "PLAN.md", None));
    let mut f = Vec::new();
    let members = resolve_members(&snap, "docs/a.md", &loaded.routes[0].marker_rules[0], &mut f);
    assert!(members.is_none());
    assert_eq!(codes(&f), ["MDATRON-E0080"]);
}

#[test]
fn optional_group_that_captures_nothing_is_loud() {
    let snap = snapshot_with(&[("PLAN.md", "- **A.** x\n")]);
    let loaded = marker_routes(marker_rule("^Provenance:( .+)?$", "PLAN.md", None));
    let rules = marker_rules_for(&loaded.routes, "docs/a.md");
    let mut f = Vec::new();
    check_file(&snap, "docs/a.md", "x\nProvenance:\n", 0, &rules, &mut f);
    assert_eq!(codes(&f), ["MDATRON-E0112"]);
    assert_eq!(f[0].quoted[0].label, "pattern");
    assert_eq!(f[0].location.line, 2);
}

#[test]
fn escaping_target_doc_is_refused() {
    let snap = snapshot_with(&[]);
    let loaded = marker_routes(marker_rule("^P: (.+)$", "../PLAN.md", None));
    let rules = marker_rules_for(&loaded.routes, "docs/a.md");
    let mut f = Vec::new();
    check_file(&snap, "docs/a.md", "P: x\n", 0, &rules, &mut f);
    assert_eq!(codes(&f), ["MDATRON-E0011"]);
}

#[test]
fn route_section_rules_compile_with_the_route_or_refuse_the_load() {
    let rule = |section: &str| RawRule {
        section: Some(section.into()),
        element: Some(SectionElement::H3),
        match_pattern: Some("^### ".into()),
        count: Some(">= 1".into()),
        disjoint: None,
    };
    let mut good = entry("plan/*.md", "ROADMAP.md");
    good.section_rules = vec![rule("## Requirements")];
    let loaded = compile_routes("routes.yaml", &[good], &[Probe::Opened]).unwrap();
    assert_eq!(loaded.routes[0].section_rules.len(), 1);
    assert_eq!(section_rules_for(&loaded.routes, "plan/a.md").len(), 1);
    assert!(section_rules_for(&loaded.routes, "notes/a.md").is_empty());
    let mut bad = entry("plan/*.md", "ROADMAP.md");
    bad.section_rules = vec![rule("## Requirements"), rule("Requirements")];
    match compile_routes("routes.yaml", &[bad], &[Probe::Opened]) {
        Err(Error::Config(m)) => assert!(m.starts_with("section-rules section spec 'Requirements' is not a heading")),
        Ok(_) => panic!("a malformed section rule must refuse the load"),
    }
}
