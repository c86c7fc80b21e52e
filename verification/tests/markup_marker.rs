use mdatron::markup::{
    atx_heading, atx_heading_text, fence_marker, heading_slugs, list_item_bold_name,
    non_fenced_lines, slugify,
};
use mdatron::marker::{extract_members, normalize_name};
use mdatron::route::ElementClass;

#[test]
fn slugify_matches_github_shape() {
    assert_eq!(slugify("Five check families"), "five-check-families");
    assert_eq!(slugify("Section 1.2"), "section-12");
    assert_eq!(slugify("Foo & Bar"), "foo--bar");
    assert_eq!(slugify("snake_case-kept"), "snake_case-kept");
    assert_eq!(slugify("v0.6.0 release"), "v060-release");
}

#[test]
fn atx_heading_requires_space() {
    assert_eq!(atx_heading_text("## Real Heading"), Some("Real Heading"));
    assert_eq!(atx_heading_text("### Foo ###"), Some("Foo"));
    assert_eq!(atx_heading_text("#hashtag"), None);
    assert_eq!(atx_heading_text("####### too deep"), None);
    assert_eq!(atx_heading_text("not a heading"), None);
}

#[test]
fn fenced_headings_are_not_collected() {
    let body = "# Real\n\n```sh\n# not a heading\n```\n\n## Also Real\n";
    let slugs = heading_slugs(body);
    assert!(slugs.iter().any(|s| s == "real"));
    assert!(slugs.iter().any(|s| s == "also-real"));
    assert!(!slugs.iter().any(|s| s == "not-a-heading"));
}

#[test]
fn non_fenced_lines_skips_fences_and_tracks_offsets() {
    let body = "a\n```\nb\n```\nc\n";
    let lines = non_fenced_lines(body);
    let texts: Vec<_> = lines.iter().map(|(_, l)| *l).collect();
    assert_eq!(texts, vec!["a", "c"], "fenced `b` is skipped");
    assert_eq!(&body[lines[0].0..lines[0].0 + 1], "a");
    assert_eq!(&body[lines[1].0..lines[1].0 + 1], "c");
}

#[test]
fn fence_markers_need_three_of_one_char() {
    assert_eq!(fence_marker("```rust"), Some(('`', 3)));
    assert_eq!(fence_marker("~~~~"), Some(('~', 4)));
    assert_eq!(fence_marker("   ~~~~"), None);
    assert_eq!(fence_marker("``"), None);
    assert_eq!(fence_marker("    ```"), None);
}

#[test]
fn tilde_fence_is_not_closed_by_backticks() {
    let body = "~~~\n```\nhidden\n~~~\nshown\n";
    let texts: Vec<_> = non_fenced_lines(body).into_iter().map(|(_, l)| l).collect();
    assert_eq!(texts, vec!["shown"]);
}

#[test]
fn atx_heading_reports_level() {
    assert_eq!(atx_heading("### Foo ###"), Some((3, "Foo")));
    assert_eq!(atx_heading("#"), Some((1, "")));
    assert_eq!(atx_heading("#x"), None);
}

#[test]
fn list_item_bold_name_reads_the_lead() {
    assert_eq!(list_item_bold_name("- **First.** x"), Some("First."));
    assert_eq!(list_item_bold_name("* **Name** rest"), None);
    assert_eq!(list_item_bold_name("- ****"), None);
    assert_eq!(list_item_bold_name("- plain"), None);
}

#[test]
fn duplicate_headings_share_one_slug() {
    let slugs = heading_slugs("# A\n# A\n");
    assert_eq!(slugs, vec!["a".to_string()]);
}

#[test]
fn normalize_name_tolerates_trailing_period() {
    assert_eq!(normalize_name("Slice 1 — self gov."), "Slice 1 — self gov");
    assert_eq!(normalize_name("Slice 1 — self gov"), "Slice 1 — self gov");
    assert_eq!(normalize_name("  Name.  "), "Name");
}

#[test]
fn extract_members_merges_adjacent_duplicate_sections() {
    let body = "# T\n\n## A\n\n- **First.** x\n\n## A\n\n- **Second.** y\n";
    let members = extract_members(body, ElementClass::ListItemBoldName, Some("## A"))
        .expect("the section matches");
    assert!(
        members.iter().any(|m| m == "First") && members.iter().any(|m| m == "Second"),
        "members under an adjacent duplicate heading must resolve: {members:?}"
    );
}

#[test]
fn extract_members_scopes_to_section() {
    let body = "# T\n\n## A\n\n- **In A.** x\n\n## B\n\n- **In B.** y\n";
    let in_a = extract_members(body, ElementClass::ListItemBoldName, Some("## A"))
        .expect("## A is present, the scan resolves");
    assert!(in_a.iter().any(|m| m == "In A"));
    assert!(!in_a.iter().any(|m| m == "In B"), "a member under ## B is out of section A");
    let whole = extract_members(body, ElementClass::ListItemBoldName, None)
        .expect("no section named: always Some");
    assert!(whole.iter().any(|m| m == "In A") && whole.iter().any(|m| m == "In B"));
}

#[test]
fn extract_members_is_none_when_named_section_never_matches() {
    let body = "# T\n\n## Renamed\n\n- **In A.** x\n";
    assert!(
        extract_members(body, ElementClass::ListItemBoldName, Some("## A")).is_none(),
        "a renamed heading must not yield a silently-empty member set"
    );
    let deeper = "# T\n\n### A\n\n- **In A.** x\n";
    assert!(extract_members(deeper, ElementClass::ListItemBoldName, Some("## A")).is_none());
    let dotted = "# T\n\n## A.\n\n- **In A.** x\n";
    assert!(extract_members(dotted, ElementClass::ListItemBoldName, Some("## A"))
        .expect("normalize_name equality matches the dotted heading")
        .iter()
        .any(|m| m == "In A"));
}

#[test]
fn heading_members_come_from_heading_text() {
    let body = "# T\n## One.\n## Two\n```\n## Hidden\n```\n";
    let members = extract_members(body, ElementClass::Heading, None).unwrap();
    assert!(members.iter().any(|m| m == "One"));
    assert!(members.iter().any(|m| m == "Two"));
    assert!(!members.iter().any(|m| m == "Hidden"));
}
