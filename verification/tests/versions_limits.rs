use mdatron::error::Error;
use mdatron::format_version::{check_declared_version, SUPPORTED_INPUT_FORMAT_VERSION};
use mdatron::limits::shipped;

fn message(r: Result<(), Error>) -> String {
    match r {
        Err(Error::Config(m)) => m,
        Ok(()) => panic!("expected a refusal"),
    }
}

#[test]
fn absent_is_ok_when_optional_but_errs_when_required() {
    assert!(check_declared_version("routes.yaml", None, false).is_ok());
    let m = message(check_declared_version("code-catalogs.yaml", None, true));
    assert!(m.contains("must declare"));
    assert_eq!(
        m,
        "'code-catalogs.yaml' must declare `mdatron_format_version: 1` (this file format is versioned)"
    );
}

#[test]
fn future_version_is_a_legible_break() {
    let m = message(check_declared_version("routes.yaml", Some(2), false));
    assert!(m.contains("supports up to 1") && m.contains('2'), "got {m}");
    assert!(message(check_declared_version("routes.yaml", Some(9), false)).contains("supports up to 1"));
}

#[test]
fn version_one_and_zero() {
    assert!(check_declared_version("f", Some(1), true).is_ok());
    assert!(message(check_declared_version("f", Some(0), false)).contains("start at 1"));
    assert_eq!(SUPPORTED_INPUT_FORMAT_VERSION, 1);
}

#[test]
fn shipped_limits_are_the_declared_catalog() {
    let l = shipped();
    assert_eq!(l.per_file_bytes, 8 * 1024 * 1024);
    assert_eq!(l.aggregate_bytes, 64 * 1024 * 1024);
    assert_eq!(l.structural_nesting, 256);
    assert_eq!(l.expr_depth, 256);
    assert_eq!(l.walk_depth, 64);
    assert_eq!(l.walk_entries, 100_000);
    assert_eq!(l.concurrent_invocations, 8);
}
