use mdatron::codes::is_reserved_mdatron_code;

#[test]
fn parse_failure_code_is_reserved() {
    assert!(is_reserved_mdatron_code("MDATRON-E0001"));
}

#[test]
fn schema_class_unknown_code_is_reserved() {
    assert!(is_reserved_mdatron_code("MDATRON-E0002"));
}

#[test]
fn schema_validation_failure_code_is_reserved() {
    assert!(is_reserved_mdatron_code("MDATRON-E0050"));
}

#[test]
fn io_failure_code_is_reserved() {
    assert!(is_reserved_mdatron_code("MDATRON-E0070"));
}

#[test]
fn pipeline_orchestration_code_is_reserved() {
    assert!(is_reserved_mdatron_code("MDATRON-E0080"));
}

#[test]
fn unreserved_code_above_ranges_is_rejected() {
    assert!(!is_reserved_mdatron_code("MDATRON-E0110"));
    assert!(!is_reserved_mdatron_code("MDATRON-E0200"));
}

#[test]
fn new_family_ranges_are_reserved() {
    assert!(is_reserved_mdatron_code("MDATRON-E0030"));
    assert!(is_reserved_mdatron_code("MDATRON-E0060"));
    assert!(is_reserved_mdatron_code("MDATRON-E0090"));
    assert!(is_reserved_mdatron_code("MDATRON-E0100"));
}

#[test]
fn other_prefixes_are_not_mdatron_codes() {
    let other_namespace_code = format!("{}{}-E0001", "VS", "DD");
    assert!(!is_reserved_mdatron_code(&other_namespace_code));
}

#[test]
fn warning_codes_in_range() {
    assert!(is_reserved_mdatron_code("MDATRON-W0050"));
    assert!(!is_reserved_mdatron_code("MDATRON-W0100"));
    assert!(!is_reserved_mdatron_code("MDATRON-W0030"));
    assert!(!is_reserved_mdatron_code("MDATRON-W0001"));
}

#[test]
fn code_number_is_read_as_an_integer() {
    assert!(is_reserved_mdatron_code("MDATRON-E001"));
    assert!(is_reserved_mdatron_code("MDATRON-L99"));
    assert!(!is_reserved_mdatron_code("MDATRON-X0001"));
    assert!(!is_reserved_mdatron_code("MDATRON-E"));
    assert!(!is_reserved_mdatron_code("MDATRON-E0x1"));
    assert!(!is_reserved_mdatron_code("MDATRON-"));
    assert!(!is_reserved_mdatron_code(""));
}
