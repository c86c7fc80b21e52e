use mdatron::explain::{extract_field, extract_section, is_mdatron_namespace, migration_note, structured_page};

#[test]
fn is_mdatron_namespace_distinguishes_prefix() {
    assert!(is_mdatron_namespace("MDATRON-E0001"));
    let other_ns = format!("{}{}-E0001", "VS", "DD");
    assert!(!is_mdatron_namespace(&other_ns));
}

const PAGE: &str = "# MDATRON-E0001\n\n**Severity:** error\n**Status:** stable\n**Introduced in:** 0.1.0\n\n## What this means\n\nThe frontmatter block could not be parsed as YAML at all.\n\n## How to fix\n\nCorrect the YAML syntax so that the block parses again.\n";

#[test]
fn structured_page_reads_fields_and_sections() {
    let page = structured_page("MDATRON-E0001", PAGE).unwrap();
    assert_eq!(page.code, "MDATRON-E0001");
    assert_eq!(page.severity, "error");
    assert_eq!(page.status, "stable");
    assert_eq!(page.introduced_in, "0.1.0");
    assert_eq!(page.what_this_means, "The frontmatter block could not be parsed as YAML at all.");
    assert_eq!(page.how_to_fix, "Correct the YAML syntax so that the block parses again.");
    assert_eq!(page.markdown, PAGE);
}

#[test]
fn structured_page_needs_every_field() {
    let without_status = PAGE.replace("**Status:** stable\n", "");
    assert!(structured_page("MDATRON-E0001", &without_status).is_none());
}

#[test]
fn extract_field_and_section() {
    assert_eq!(extract_field(PAGE, "Severity"), Some("error".to_string()));
    assert_eq!(extract_field(PAGE, "Missing"), None);
    assert_eq!(
        extract_section(PAGE, "How to fix"),
        Some("Correct the YAML syntax so that the block parses again.".to_string())
    );
    assert_eq!(extract_section(PAGE, "Nope"), None);
}

#[test]
fn only_e0001_has_a_migration_note() {
    assert!(migration_note("MDATRON-E0001").unwrap().contains("MDATRON-E0050"));
    assert!(migration_note("MDATRON-E0002").is_none());
}

fn page(markdown: &str, how_to_fix: &str) -> mdatron::explain::ExplainPage {
    mdatron::explain::ExplainPage {
        code: "MDATRON-E0001".to_string(),
        severity: "error".to_string(),
        status: "stable".to_string(),
        introduced_in: "0.1.0".to_string(),
        what_this_means: "x".to_string(),
        how_to_fix: how_to_fix.to_string(),
        markdown: markdown.to_string(),
    }
}

#[test]
fn compact_form_takes_title_summary_and_first_sentence() {
    let p = page(
        "# MDATRON-E0001 \u{2014} frontmatter-parse-failed\n\nbody\n",
        "  Fix the YAML between the fences. Then rerun.",
    );
    assert_eq!(
        mdatron::explain::compact_form(&p),
        "MDATRON-E0001 error: frontmatter-parse-failed \u{2014} Fix the YAML between the fences"
    );
}

#[test]
fn compact_form_falls_back_to_hyphen_then_code() {
    let p = page("# E0001 - parse failed\n", "Line one\nline two");
    assert_eq!(
        mdatron::explain::compact_form(&p),
        "MDATRON-E0001 error: parse failed \u{2014} Line one"
    );
    let q = page("no heading here\n", "");
    assert_eq!(
        mdatron::explain::compact_form(&q),
        "MDATRON-E0001 error: MDATRON-E0001 \u{2014} "
    );
}
