use mdatron::frontmatter::{
    fence_bounds, is_fence_line, resolve_e0050_locations, resolve_pointer_location,
    strip_bom, yaml_block, YamlData, YamlNode, YamlValue,
};
use saphyr::{LoadableYamlNode, MarkedYaml, Scalar};

/// The `serde_yaml_ng` value holding the same YAML as a parsed library value.
fn serde_of(v: &YamlValue) -> serde_yaml_ng::Value {
    match v {
        YamlValue::Null => serde_yaml_ng::Value::Null,
        YamlValue::Bool(b) => serde_yaml_ng::Value::Bool(*b),
        YamlValue::Number(n) => serde_yaml_ng::Value::Number(n.clone()),
        YamlValue::Str(s) => serde_yaml_ng::Value::String(s.clone()),
        YamlValue::Sequence(q) => serde_yaml_ng::Value::Sequence(q.iter().map(serde_of).collect()),
        YamlValue::Mapping(m) => {
            serde_yaml_ng::Value::Mapping(m.iter().map(|(k, v)| (serde_of(k), serde_of(v))).collect())
        }
        YamlValue::Tagged(t, v) => serde_yaml_ng::Value::Tagged(Box::new(
            serde_yaml_ng::value::TaggedValue { tag: t.clone(), value: serde_of(v) },
        )),
    }
}

/// `frontmatter::parse` with the value as `serde_yaml_ng` holds it.
fn parse(content: &str) -> Result<Option<(serde_yaml_ng::Value, &str)>, mdatron::frontmatter::FrontmatterError> {
    mdatron::frontmatter::parse(content).map(|o| o.map(|(v, b)| (serde_of(&v), b)))
}

fn convert(node: &MarkedYaml) -> YamlNode {
    let data = match &node.data {
        saphyr::YamlData::Value(Scalar::String(s)) => YamlData::Str(s.to_string()),
        saphyr::YamlData::Mapping(map) => {
            YamlData::Mapping(map.iter().map(|(k, v)| (convert(k), convert(v))).collect())
        }
        saphyr::YamlData::Sequence(items) => YamlData::Sequence(items.iter().map(convert).collect()),
        _ => YamlData::Other,
    };
    YamlNode { data, line: node.span.start.line(), col: node.span.start.col() }
}

/// The marked tree of a file's frontmatter block, as the binary loads it.
fn marked_tree(content: &str) -> Option<YamlNode> {
    let yaml = yaml_block(content)?;
    let docs = MarkedYaml::load_from_str(yaml).ok()?;
    docs.first().map(convert)
}

fn locate(content: &str, pointer: &str) -> Option<(u32, u32)> {
    resolve_pointer_location(marked_tree(content).as_ref(), pointer)
}

#[test]
fn parses_typical_frontmatter_and_returns_body() {
    let content = "---\nschema_class: design-doc\nversion: 0.1.0\n---\n\n# Title\nbody\n";
    let result = parse(content).expect("typical frontmatter should parse cleanly");
    let (fm, body) = result.expect("typical case returns Some, not None");
    assert_eq!(fm["schema_class"].as_str(), Some("design-doc"));
    assert_eq!(fm["version"].as_str(), Some("0.1.0"));
    assert_eq!(body, "\n# Title\nbody\n");
}

#[test]
fn returns_none_for_no_frontmatter() {
    let content = "# Title\nbody\n";
    let result = parse(content).expect("no-frontmatter must not error");
    assert!(result.is_none(), "no frontmatter present; expected None");
}

#[test]
fn returns_none_when_closing_marker_absent() {
    let content = "---\nschema_class: design-doc\n# Title body without closing\n";
    let result = parse(content).expect("missing-close must not error");
    assert!(result.is_none(), "no closing --- marker; should treat as no-frontmatter");
}

#[test]
fn handles_empty_frontmatter_as_empty_mapping() {
    let content = "---\n---\n# Title\n";
    let result = parse(content).expect("empty frontmatter is well-formed");
    let (fm, body) = result.expect("empty frontmatter still returns Some");
    assert!(fm.is_mapping(), "empty frontmatter should deserialize to a mapping value");
    assert!(
        fm.as_mapping().expect("mapping").is_empty(),
        "empty frontmatter mapping should have no entries"
    );
    assert_eq!(body, "# Title\n");
}

#[test]
fn dashes_inside_body_without_leading_newline_not_a_closer() {
    let content =
        "---\nfoo: bar\n---\n\n## Section\n---\nNot a closer because not at line start of body.\n";
    let (_fm, body) = parse(content)
        .expect("well-formed frontmatter parses")
        .expect("frontmatter present");
    assert!(
        body.contains("---\nNot a closer"),
        "body should include the body-internal --- since it is not a real closing marker; got: {body:?}"
    );
}

#[test]
fn malformed_yaml_returns_err() {
    let content = "---\n: invalid: : :\n---\n";
    let result = parse(content);
    assert!(result.is_err(), "malformed YAML between markers should return Err");
}

#[test]
fn duplicate_mapping_key_returns_err() {
    let content = "---\ntitle: a\ntitle: b\n---\n";
    let result = parse(content);
    assert!(result.is_err(), "a duplicate mapping key must be rejected, not silently resolved");
}

const FIXTURE: &str = "---\ntitle: hello\ntags:\n  - a\n  - b\ncount: 5\n---\nbody\n";

#[test]
fn bom_prefixed_opening_fence_is_frontmatter() {
    let content = "\u{FEFF}---\nschema_class: design-doc\n---\nbody\n";
    let (fm, body) = parse(content)
        .expect("BOM'd frontmatter should parse")
        .expect("BOM must not read as no-frontmatter (the silent-skip hole)");
    assert_eq!(fm["schema_class"].as_str(), Some("design-doc"));
    assert_eq!(body, "body\n");
}

#[test]
fn crlf_fences_are_frontmatter() {
    let content = "---\r\nschema_class: design-doc\r\nversion: 0.1.0\r\n---\r\nbody\r\n";
    let (fm, body) = parse(content)
        .expect("CRLF frontmatter should parse")
        .expect("CRLF fences must not read as no-frontmatter");
    assert_eq!(fm["schema_class"].as_str(), Some("design-doc"));
    assert_eq!(fm["version"].as_str(), Some("0.1.0"));
    assert_eq!(body, "body\r\n");
}

#[test]
fn bom_and_crlf_combined_is_frontmatter() {
    let content = "\u{FEFF}---\r\nschema_class: design-doc\r\n---\r\nbody\n";
    let (fm, _body) = parse(content)
        .expect("BOM+CRLF frontmatter should parse")
        .expect("BOM+CRLF must not read as no-frontmatter");
    assert_eq!(fm["schema_class"].as_str(), Some("design-doc"));
}

#[test]
fn bare_fence_inside_block_scalar_truncates_there() {
    let content = "---\nnote: |\n  before\n---\n  after\n---\nbody\n";
    let (fm, body) = parse(content)
        .expect("truncated-at-first-fence content parses")
        .expect("frontmatter present");
    assert_eq!(fm["note"].as_str(), Some("before\n"));
    assert!(body.starts_with("  after"), "body begins at the first bare fence; got: {body:?}");
}

#[test]
fn empty_frontmatter_block_crlf() {
    let content = "---\r\n---\r\nbody\n";
    let (fm, body) = parse(content)
        .expect("empty CRLF frontmatter is well-formed")
        .expect("empty CRLF frontmatter returns Some");
    assert!(fm.as_mapping().expect("mapping").is_empty());
    assert_eq!(body, "body\n");
}

#[test]
fn unterminated_fence_is_no_frontmatter_even_with_bom() {
    for content in ["---\nkey: value\n", "\u{FEFF}---\r\nkey: value\r\n"] {
        let result = parse(content).expect("unterminated must not error");
        assert!(result.is_none(), "no closing fence => None for {content:?}");
    }
}

#[test]
fn resolve_pointer_location_tolerates_bom_and_crlf() {
    let content = "\u{FEFF}---\r\na: 1\r\nb: 2\r\n---\r\nbody\n";
    let loc = locate(content, "/b");
    assert_eq!(loc, Some((3, 4)), "b's value sits on file line 3 col 4 despite BOM+CRLF");
}

#[test]
fn resolve_pointer_top_level_key() {
    assert_eq!(locate(FIXTURE, "/title").map(|(l, _)| l), Some(2));
}

#[test]
fn resolve_pointer_nested_array_element() {
    assert_eq!(locate(FIXTURE, "/tags/1").map(|(l, _)| l), Some(5));
}

#[test]
fn resolve_pointer_later_key() {
    assert_eq!(locate(FIXTURE, "/count").map(|(l, _)| l), Some(6));
}

#[test]
fn resolve_pointer_unresolvable_is_none() {
    assert_eq!(locate(FIXTURE, "/nope"), None);
    assert_eq!(locate(FIXTURE, "/tags/9"), None);
    assert_eq!(locate("no frontmatter here\n", "/x"), None);
}

#[test]
fn unexpected_key_points_at_the_key_itself() {
    let tree = marked_tree(FIXTURE);
    let locs = resolve_e0050_locations(tree.as_ref(), &[("", "count"), ("", "missing"), ("/title", "")]);
    assert_eq!(locs, vec![Some((6, 1)), Some((2, 1)), Some((2, 8))]);
}

#[test]
fn pointer_tokens_are_unescaped() {
    let content = "---\na/b: 1\nc~d: 2\n---\n";
    assert_eq!(locate(content, "/a~1b"), Some((2, 6)));
    assert_eq!(locate(content, "/c~0d"), Some((3, 6)));
}

#[test]
fn fence_helpers() {
    assert_eq!(strip_bom("\u{FEFF}x"), "x");
    assert!(is_fence_line("---"));
    assert!(is_fence_line("---\r"));
    assert!(!is_fence_line("--- "));
    assert_eq!(fence_bounds("---\na: 1\n---\nbody"), Some((4, 9, 13)));
    assert_eq!(yaml_block("\u{FEFF}---\na: 1\n---\n"), Some("a: 1\n"));
}

#[test]
fn malformed_frontmatter_carries_the_parsers_message() {
    let content = "---\nkey: [unclosed\n---\nbody\n";
    let block = yaml_block(content).unwrap();
    let expected = serde_yaml_ng::from_str::<serde_yaml_ng::Value>(block).unwrap_err().to_string();
    match mdatron::frontmatter::parse(content) {
        Err(mdatron::frontmatter::FrontmatterError::Yaml(m)) => assert_eq!(m, expected),
        Ok(_) => panic!("malformed frontmatter must be refused"),
    }
}

