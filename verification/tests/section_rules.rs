use std::collections::HashSet;

use mdatron::diagnostic::Finding;
use mdatron::error::Error;
use mdatron::pattern::LinePattern;
use mdatron::section::{
    check_file, compile_rule, count_matching_elements, extract_ids, parse_count_pred, Operand, RawOperand,
    RawRule, Rule, SectionElement,
};

fn rx(p: &str) -> LinePattern {
    LinePattern::compile(p).unwrap()
}

fn ids(body: &str, op: &Operand) -> HashSet<String> {
    extract_ids(body, &op.section, op.element, &op.id_pattern).unwrap().into_iter().collect()
}

fn run(rule: Rule, body: &str) -> Vec<Finding> {
    let mut findings = Vec::new();
    check_file(&[&rule], "d.md", body, 0, &mut findings);
    findings
}

fn refusal(raw: RawRule) -> String {
    match compile_rule(&raw) {
        Err(Error::Config(m)) => m,
        Ok(_) => panic!("the rule must be refused"),
    }
}

#[test]
fn count_rules_count_any_element_class() {
    let body = "## A\n\n### One\n#### Deeper\n- **Item x.** a\n- **Item y.** b\n- plain\n\n## B\n### Not in A\n";
    let any = rx(".");
    assert_eq!(
        count_matching_elements(body, "## A", SectionElement::Heading, &any),
        Some(2),
        "`heading` counts every level inside the span, not the section's own heading"
    );
    assert_eq!(count_matching_elements(body, "## A", SectionElement::H2, &any), Some(0));
    assert_eq!(count_matching_elements(body, "## A", SectionElement::H4, &any), Some(1));
    assert_eq!(
        count_matching_elements(body, "## A", SectionElement::ListItemBoldName, &any),
        Some(2),
        "bold-lead bullets only, never the plain bullet"
    );
    assert_eq!(
        count_matching_elements(body, "## A", SectionElement::ListItemBoldName, &rx("Item x")),
        Some(1),
        "the regex runs over the element's line"
    );
}

#[test]
fn extract_ids_never_reads_the_operands_own_heading() {
    let body = "## Slice 9 group\n### Slice 1\n- **Slice 2.** x\n";
    let mk = |element| Operand { section: "## Slice 9 group".into(), element, id_pattern: rx(r"Slice (\d+)") };
    assert_eq!(ids(body, &mk(SectionElement::Heading)), HashSet::from(["1".to_string()]));
    assert_eq!(
        ids(body, &mk(SectionElement::H2)),
        HashSet::new(),
        "the span's own h2 is not an element inside it"
    );
    assert_eq!(ids(body, &mk(SectionElement::ListItemBoldName)), HashSet::from(["2".to_string()]));
}

#[test]
fn counts_matching_headings_in_span() {
    let body = "## Requirements\n\n### Phase 2: Slice 2 (sequential)\ntext\n### Phase 3: Slice 4 (sequential)\n\n## Other\n### Phase 9: nope (sequential)\n";
    let m = rx(r"^### Phase \d+: .*\((parallel|sequential)\)$");
    assert_eq!(
        count_matching_elements(body, "## Requirements", SectionElement::H3, &m),
        Some(2),
        "only the two in-section H3s"
    );
}

#[test]
fn ids_are_scoped_not_full_span() {
    let body = "## Requirements\n\n### Phase 2: Slice 2 (sequential)\nProvenance: Slice 3 — Install\n\n## Completed phases\n\n- **Slice 3's static half (complete):** done\n- **The engine bullet:** no id\n";
    let open = Operand { section: "## Requirements".into(), element: SectionElement::H3, id_pattern: rx(r"Slice (\d+)") };
    let done = Operand {
        section: "## Completed phases".into(),
        element: SectionElement::ListItemBoldName,
        id_pattern: rx(r"Slice (\d+)"),
    };
    let open_ids = ids(body, &open);
    let done_ids = ids(body, &done);
    assert_eq!(open_ids, HashSet::from(["2".to_string()]), "only the heading Slice, not the body mention");
    assert_eq!(done_ids, HashSet::from(["3".to_string()]));
    assert!(open_ids.is_disjoint(&done_ids), "no false overlap on Slice 3");
}

#[test]
fn duplicate_heading_content_counts_toward_the_predicate() {
    let rule = Rule::Count {
        section: "## Open questions".into(),
        element: SectionElement::H3,
        matcher: rx(r"^### Q\d+"),
        pred: parse_count_pred("== 0").unwrap(),
    };
    let body = "# Doc\n\n## Open questions\n\nnone right now.\n\n## Other\n\nx\n\n## Open questions\n\n### Q1 sneaky\n";
    let findings = run(rule, body);
    let f = findings
        .iter()
        .find(|f| f.code == "MDATRON-E0120")
        .unwrap_or_else(|| panic!("the Q1 under the duplicate heading violates == 0; got {findings:?}"));
    assert!(f.message.contains("has 1 matching"), "the count sums across all matching spans: {:?}", f.message);
}

#[test]
fn disjoint_ids_union_across_duplicate_heading_spans() {
    let mk = |section: &str, src: SectionElement| Operand {
        section: section.into(),
        element: src,
        id_pattern: rx(r"Slice (\d+)"),
    };
    let rule = Rule::Disjoint {
        a: mk("## Requirements", SectionElement::H3),
        b: mk("## Completed phases", SectionElement::ListItemBoldName),
    };
    let body = "## Requirements\n\n### Phase 1: Slice 1 (sequential)\n\n## Completed phases\n\n- **Slice 2 done (complete):** x\n\n## Requirements\n\n### Phase 2: Slice 2 (sequential)\n";
    let findings = run(rule, body);
    assert!(
        findings.iter().any(|f| f.code == "MDATRON-E0121"),
        "the Slice 2 overlap under the duplicate span must be detected; got {findings:?}"
    );
}

#[test]
fn compile_rule_rejects_heading_marker_with_empty_text() {
    let err = refusal(RawRule {
        section: Some("##".into()),
        element: Some(SectionElement::H3),
        match_pattern: Some(r"^### .*$".into()),
        count: Some(">= 1".into()),
        disjoint: None,
    });
    assert!(err.contains("non-empty"), "the error demands non-empty heading text; got {err}");
}

#[test]
fn compile_rule_rejects_count_section_spec_without_heading_marker() {
    let msg = refusal(RawRule {
        section: Some("Requirements".into()),
        element: Some(SectionElement::H3),
        match_pattern: Some(r"^### .*$".into()),
        count: Some(">= 1".into()),
        disjoint: None,
    });
    assert!(
        msg.contains("Requirements") && msg.contains("ATX heading"),
        "the error names the spec and the required shape; got {msg}"
    );
}

#[test]
fn compile_rule_rejects_disjoint_operand_spec_without_heading_marker() {
    let msg = refusal(RawRule {
        section: None,
        element: None,
        match_pattern: None,
        count: None,
        disjoint: Some(vec![
            RawOperand {
                section: "## Requirements".into(),
                element: SectionElement::H3,
                id_pattern: r"Slice (\d+)".into(),
            },
            RawOperand {
                section: "Completed phases".into(),
                element: SectionElement::ListItemBoldName,
                id_pattern: r"Slice (\d+)".into(),
            },
        ]),
    });
    assert!(
        msg.contains("Completed phases") && msg.contains("ATX heading"),
        "the error names the offending operand spec; got {msg}"
    );
}

#[test]
fn absent_section_with_zero_satisfiable_predicate_is_e0122_not_silent() {
    let rule = Rule::Count {
        section: "## Requirements".into(),
        element: SectionElement::H3,
        matcher: rx(r"^### .*$"),
        pred: parse_count_pred("== 0").unwrap(),
    };
    let findings = run(rule, "# Doc\n\n## Renamed Requirements\n\n### Phase 1: x\n");
    let f = findings
        .iter()
        .find(|f| f.code == "MDATRON-E0122")
        .unwrap_or_else(|| panic!("expected E0122 on the absent section; got {findings:?}"));
    assert_eq!(f.summary, "section-not-found");
    assert!(!f.message.contains("Requirements"), "the spec rides in quoted[], not the message: {:?}", f.message);
    assert!(f.quoted.iter().any(|q| q.label == "section" && q.content == "## Requirements"));
}

#[test]
fn absent_section_is_e0122_not_e0120_with_count_zero() {
    let rule = Rule::Count {
        section: "## Requirements".into(),
        element: SectionElement::H3,
        matcher: rx(r"^### .*$"),
        pred: parse_count_pred(">= 1").unwrap(),
    };
    let findings = run(rule, "# Doc\n\nno such section here.\n");
    assert!(findings.iter().any(|f| f.code == "MDATRON-E0122"), "absent section is E0122; got {findings:?}");
    assert!(
        findings.iter().all(|f| f.code != "MDATRON-E0120"),
        "absence must not masquerade as a count violation; got {findings:?}"
    );
}

#[test]
fn disjoint_with_renamed_operand_section_is_e0122_for_that_operand() {
    let mk = |section: &str| Operand { section: section.into(), element: SectionElement::H3, id_pattern: rx(r"Slice (\d+)") };
    let rule = Rule::Disjoint { a: mk("## Requirements"), b: mk("## Completed phases") };
    let findings = run(rule, "## Requirements\n\n### Slice 1\n\n## Done\n\n### Slice 1\n");
    let e0122: Vec<_> = findings.iter().filter(|f| f.code == "MDATRON-E0122").collect();
    assert_eq!(e0122.len(), 1, "exactly one E0122, for the renamed operand; got {findings:?}");
    assert!(e0122[0].quoted.iter().any(|q| q.label == "section" && q.content == "## Completed phases"));
    assert!(
        findings.iter().all(|f| f.code != "MDATRON-E0121"),
        "no disjointness verdict when an operand span is missing; got {findings:?}"
    );
}

#[test]
fn e0121_message_is_engine_authored_governed_ids_quoted() {
    let body = "## Alpha\n\n### zqxshared\n\n## Beta\n\n### zqxshared\n";
    let mk = |section: &str| Operand { section: section.into(), element: SectionElement::H3, id_pattern: rx(r"(zqx\w+)") };
    let findings = run(Rule::Disjoint { a: mk("## Alpha"), b: mk("## Beta") }, body);
    let f = findings
        .iter()
        .find(|f| f.code == "MDATRON-E0121")
        .unwrap_or_else(|| panic!("expected E0121; got {findings:?}"));
    assert!(
        !f.message.contains("Alpha") && !f.message.contains("Beta") && !f.message.contains("zqxshared"),
        "no adopter/governed token echoes into the message: {:?}",
        f.message
    );
    assert!(f.quoted.iter().any(|q| q.label == "section a" && q.content == "## Alpha"));
    assert!(f.quoted.iter().any(|q| q.label == "section b" && q.content == "## Beta"));
    assert!(
        f.quoted.iter().any(|q| q.label == "shared ids" && q.content.contains("zqxshared")),
        "shared ids quoted: {:?}",
        f.quoted
    );
}

#[test]
fn element_spellings_and_retired_aliases_parse() {
    assert_eq!(SectionElement::parse("h3-heading"), Some(SectionElement::H3));
    assert_eq!(SectionElement::parse("bullet-lead"), Some(SectionElement::ListItemBoldName));
    assert_eq!(SectionElement::parse("list-item-bold-name"), Some(SectionElement::ListItemBoldName));
    assert_eq!(SectionElement::parse("h2"), Some(SectionElement::H2));
    assert_eq!(SectionElement::parse("heading"), Some(SectionElement::Heading));
    assert_eq!(SectionElement::parse("h7"), None, "an unknown element class is refused");
    assert_eq!(SectionElement::H4.as_str(), "h4");
}

#[test]
fn count_violation_reports_line_count_and_predicate() {
    let rule = Rule::Count {
        section: "## Requirements".into(),
        element: SectionElement::H3,
        matcher: rx(r"^### "),
        pred: parse_count_pred(">= 3").unwrap(),
    };
    let content = "---\ntitle: x\n---\n# Doc\n\n## Requirements\n### A\n### B\n";
    let mut findings = Vec::new();
    check_file(&[&rule], "plan/d.md", content, 17, &mut findings);
    assert_eq!(findings.len(), 1);
    let f = &findings[0];
    assert_eq!(f.code, "MDATRON-E0120");
    assert_eq!(f.summary, "section-count-violation");
    assert_eq!(
        f.message,
        "the named section has 2 matching h3 element(s) across its matching span(s); the rule requires the count >= 3"
    );
    assert_eq!(f.location.file, "plan/d.md");
    assert_eq!(f.location.line, 6);
    assert_eq!(f.location.column, 0);
    assert_eq!(f.explain_ref.as_deref(), Some("MDATRON-E0120"));
}

#[test]
fn shared_ids_are_sorted_and_listed_once() {
    let mk = |section: &str| Operand { section: section.into(), element: SectionElement::Heading, id_pattern: rx(r"Slice (\w+)") };
    let body = "## A\n### Slice b\n### Slice a\n### Slice b\n### Slice c\n## B\n### Slice c\n### Slice a\n### Slice b\n";
    let findings = run(Rule::Disjoint { a: mk("## A"), b: mk("## B") }, body);
    assert_eq!(findings.len(), 1);
    assert_eq!(findings[0].location.line, 1);
    let shared = findings[0].quoted.iter().find(|q| q.label == "shared ids").unwrap();
    assert_eq!(shared.content, "a, b, c");
}

#[test]
fn a_fenced_heading_opens_no_section_and_satisfied_rules_are_silent() {
    let rule = Rule::Count {
        section: "## A".into(),
        element: SectionElement::ListItemBoldName,
        matcher: rx("."),
        pred: parse_count_pred("== 1").unwrap(),
    };
    let body = "```\n## A\n- **Hidden.** x\n```\n## A\n- **Shown.** y\n";
    assert!(run(rule, body).is_empty());
    assert_eq!(count_matching_elements(body, "## Missing", SectionElement::Heading, &rx(".")), None);
}

#[test]
fn malformed_rules_are_refused_in_order() {
    let count_only = |section: Option<&str>, count: Option<&str>, pattern: &str| RawRule {
        section: section.map(String::from),
        element: Some(SectionElement::H3),
        match_pattern: Some(pattern.into()),
        count: count.map(String::from),
        disjoint: None,
    };
    assert_eq!(
        refusal(count_only(Some("## A"), None, ".")),
        "a count section-rule requires section, element, match, and count (or use `disjoint` for a disjointness rule)"
    );
    assert_eq!(
        refusal(count_only(Some("A"), Some("about 3"), ".")),
        "section-rule count predicate 'about 3' is not `<op> <n>`: op is one of >= <= == != > < and n an integer (e.g. \">= 1\")"
    );
    assert!(refusal(count_only(Some("## A"), Some(">= 1"), "(")).starts_with("section-rules pattern '(' does not compile: "));
    let op = |section: &str| RawOperand { section: section.into(), element: SectionElement::H3, id_pattern: "(x)".into() };
    let mut mixed = count_only(Some("## A"), Some(">= 1"), ".");
    mixed.disjoint = Some(vec![op("## A"), op("## B")]);
    assert_eq!(
        refusal(mixed),
        "a section-rule with `disjoint` must not also carry count-rule fields (section/element/match/count)"
    );
    let three = RawRule {
        section: None,
        element: None,
        match_pattern: None,
        count: None,
        disjoint: Some(vec![op("## A"), op("## B"), op("## C")]),
    };
    assert_eq!(refusal(three), "a `disjoint` rule takes exactly two sections");
    let good = RawRule {
        section: None,
        element: None,
        match_pattern: None,
        count: None,
        disjoint: Some(vec![op("## A"), op("## B")]),
    };
    assert!(matches!(compile_rule(&good), Ok(Rule::Disjoint { .. })));
    assert!(matches!(compile_rule(&count_only(Some("## A"), Some(">= 1"), "x")), Ok(Rule::Count { .. })));
}
