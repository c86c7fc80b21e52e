use mdatron::error::Error;
use mdatron::frontmatter::YamlValue;
use mdatron::schema::{describe, FieldPathStatus, JsonNode, Schema, Violation, ViolationKind};

/// The library's JSON form of a parsed `serde_json` value.
fn node(v: &serde_json::Value) -> JsonNode {
    match v {
        serde_json::Value::Null => JsonNode::Null,
        serde_json::Value::Bool(b) => JsonNode::Bool(*b),
        serde_json::Value::Number(n) => JsonNode::Number(n.clone()),
        serde_json::Value::String(s) => JsonNode::Str(s.clone()),
        serde_json::Value::Array(a) => JsonNode::Array(a.iter().map(node).collect()),
        serde_json::Value::Object(m) => {
            JsonNode::Object(m.iter().map(|(k, v)| (k.clone(), node(v))).collect())
        }
    }
}

fn json(text: &str) -> JsonNode {
    node(&serde_json::from_str::<serde_json::Value>(text).unwrap())
}

/// The library's form of a parsed `serde_yaml_ng` value.
fn yaml_node(v: &serde_yaml_ng::Value) -> YamlValue {
    match v {
        serde_yaml_ng::Value::Null => YamlValue::Null,
        serde_yaml_ng::Value::Bool(b) => YamlValue::Bool(*b),
        serde_yaml_ng::Value::Number(n) => YamlValue::Number(n.clone()),
        serde_yaml_ng::Value::String(s) => YamlValue::Str(s.clone()),
        serde_yaml_ng::Value::Sequence(q) => YamlValue::Sequence(q.iter().map(yaml_node).collect()),
        serde_yaml_ng::Value::Mapping(m) => {
            YamlValue::Mapping(m.iter().map(|(k, v)| (yaml_node(k), yaml_node(v))).collect())
        }
        serde_yaml_ng::Value::Tagged(t) => {
            YamlValue::Tagged(t.tag.clone(), Box::new(yaml_node(&t.value)))
        }
    }
}

fn yaml(s: &str) -> YamlValue {
    yaml_node(&serde_yaml_ng::from_str(s).unwrap())
}

fn path(segs: &[&str]) -> Vec<String> {
    segs.iter().map(|s| s.to_string()).collect()
}

#[test]
fn field_path_type_and_enum_are_conservative() {
    let schema = Schema::compile(&json(
        r#"{
            "type": "object",
            "additionalProperties": false,
            "properties": {
                "count": { "type": "integer" },
                "phase": { "type": "string", "enum": ["a", "b"] },
                "maybe": { "type": ["string", "null"] },
                "blob":  { "description": "no type" }
            }
        }"#,
    ))
    .unwrap();
    let p = |s: &str| vec![s.to_string()];
    assert_eq!(schema.field_path_type(&p("count")), Some("integer"));
    assert_eq!(schema.field_path_type(&p("phase")), Some("string"));
    assert_eq!(schema.field_path_type(&p("maybe")), None, "multi-type -> None");
    assert_eq!(schema.field_path_type(&p("blob")), None, "no type -> None");
    assert_eq!(schema.field_path_type(&p("absent")), None, "undeclared -> None");

    assert_eq!(schema.field_path_enum(&p("phase")).map(<[_]>::len), Some(2));
    assert!(schema.field_path_enum(&p("count")).is_none(), "no enum -> None");
}

#[test]
fn compiles_valid_schema() {
    let schema_json = json(
        r#"{
            "type": "object",
            "required": ["name"],
            "properties": {
                "name": { "type": "string" }
            }
        }"#,
    );
    assert!(
        Schema::compile(&schema_json).is_ok(),
        "simple object schema should compile"
    );
}

#[test]
fn compile_returns_err_on_malformed_schema() {
    let schema_json = json(r#"{ "type": 42 }"#);
    assert!(
        Schema::compile(&schema_json).is_err(),
        "schema with invalid `type` should fail to compile"
    );
}

#[test]
fn validate_passes_conforming_frontmatter() {
    let schema = Schema::compile(&json(
        r#"{
            "type": "object",
            "required": ["name"],
            "properties": { "name": { "type": "string" } }
        }"#,
    ))
    .unwrap();
    let errors = schema.validate(&yaml("name: example"));
    assert!(
        errors.is_empty(),
        "valid frontmatter should produce zero errors; got {errors:?}"
    );
}

#[test]
fn validate_reports_missing_required_field() {
    let schema = Schema::compile(&json(
        r#"{
            "type": "object",
            "required": ["name", "version"],
            "properties": {
                "name": { "type": "string" },
                "version": { "type": "string" }
            }
        }"#,
    ))
    .unwrap();
    let errors = schema.validate(&yaml("name: example"));
    assert_eq!(
        errors.len(),
        1,
        "missing one required field should produce one error"
    );
    assert!(
        errors[0].message.contains("version"),
        "error message should name the missing field 'version'; got: {}",
        errors[0].message
    );
}

#[test]
fn validate_reports_wrong_type() {
    let schema = Schema::compile(&json(
        r#"{
            "type": "object",
            "properties": { "count": { "type": "integer" } }
        }"#,
    ))
    .unwrap();
    let errors = schema.validate(&yaml("count: not-an-integer"));
    assert_eq!(errors.len(), 1, "type mismatch should produce one error");
    assert_eq!(
        errors[0].instance_path, "/count",
        "instance_path should pinpoint the failing field"
    );
}

#[test]
fn linear_engine_refuses_backreference_pattern() {
    let backref = json(
        r#"{
            "type": "object",
            "properties": { "x": { "type": "string", "pattern": "(a)\\1" } }
        }"#,
    );
    assert!(
        Schema::compile(&backref).is_err(),
        "a backreference pattern must be refused by the linear regex engine"
    );
}

#[test]
fn catastrophic_pattern_matches_in_linear_time() {
    let schema = Schema::compile(&json(
        r#"{
            "type": "object",
            "properties": { "x": { "type": "string", "pattern": "^(a+)+$" } }
        }"#,
    ))
    .unwrap();
    let evil = format!("x: {}!", "a".repeat(40));
    let errors = schema.validate(&yaml(&evil));
    assert_eq!(
        errors.len(),
        1,
        "the adversarial value does not match -> exactly one pattern error"
    );
}

#[test]
fn instance_pointer_escapes_line_separators() {
    let schema = Schema::compile(&json(
        r#"{ "type": "object", "additionalProperties": { "type": "string" } }"#,
    ))
    .unwrap();
    let fm = YamlValue::Mapping(vec![(
        YamlValue::Str("evil\u{2028}key".to_string()),
        YamlValue::Number(123.into()),
    )]);
    let errors = schema.validate(&fm);
    assert!(!errors.is_empty(), "the non-string value violates the schema");
    let msg = &errors[0].message;
    assert!(
        !msg.contains('\u{2028}'),
        "no raw line separator survives inline; got {msg:?}"
    );
    assert!(
        msg.contains("\\x2028"),
        "the separator is escaped to \\x2028; got {msg:?}"
    );
}

#[test]
fn pattern_line_separators_escaped_in_message() {
    let schema = Schema::compile(&json(
        "{ \"type\": \"object\", \"properties\": { \"x\": { \"type\": \"string\", \"pattern\": \"a\u{2028}b\" } } }",
    ))
    .unwrap();
    let errors = schema.validate(&yaml("x: nope"));
    assert!(
        !errors.is_empty(),
        "the non-matching value violates the pattern"
    );
    let msg = &errors[0].message;
    assert!(
        !msg.contains('\u{2028}'),
        "the pattern's separator is escaped inline; got {msg:?}"
    );
    assert!(
        msg.contains("\\x2028"),
        "the escaped form is present; got {msg:?}"
    );
}

#[test]
fn validate_reports_enum_violation() {
    let schema = Schema::compile(&json(
        r#"{
            "type": "object",
            "properties": { "status": { "enum": ["open", "closed"] } }
        }"#,
    ))
    .unwrap();
    let errors = schema.validate(&yaml("status: pending"));
    assert!(
        !errors.is_empty(),
        "enum violation should produce at least one error"
    );
    assert_eq!(errors[0].instance_path, "/status");
}

#[test]
fn validate_multiple_errors_returns_all() {
    let schema = Schema::compile(&json(
        r#"{
            "type": "object",
            "required": ["name", "version"],
            "properties": {
                "name": { "type": "string" },
                "version": { "type": "string" },
                "count": { "type": "integer" }
            }
        }"#,
    ))
    .unwrap();
    let errors = schema.validate(&yaml("count: not-an-integer"));
    assert!(
        errors.len() >= 3,
        "multiple violations should produce multiple errors; got {} ({errors:?})",
        errors.len()
    );
}

#[test]
fn field_path_status_is_conservative() {
    let schema = Schema::compile(&json(
        r#"{
            "type": "object",
            "additionalProperties": false,
            "properties": {
                "title": { "type": "string" },
                "meta": {
                    "type": "object",
                    "additionalProperties": false,
                    "properties": { "owner": { "type": "string" } }
                },
                "tags": { "type": "array", "items": { "type": "string" } },
                "open": {
                    "type": "object",
                    "properties": { "x": { "type": "string" } }
                }
            }
        }"#,
    ))
    .unwrap();
    let st = |segs: &[&str]| schema.field_path_status(&path(segs));

    assert_eq!(st(&[]), FieldPathStatus::Declared, "bare $self");
    assert_eq!(st(&["title"]), FieldPathStatus::Declared);
    assert_eq!(st(&["meta", "owner"]), FieldPathStatus::Declared, "nested declared");

    assert_eq!(st(&["nope"]), FieldPathStatus::UndeclaredClosed, "root is closed");
    assert_eq!(
        st(&["meta", "ownr"]),
        FieldPathStatus::UndeclaredClosed,
        "nested closed typo"
    );

    assert_eq!(
        st(&["open", "whatever"]),
        FieldPathStatus::Unknown,
        "open object (additionalProperties absent) tolerates unknown keys"
    );
    assert_eq!(
        st(&["tags", "anything"]),
        FieldPathStatus::Unknown,
        "array subschema has no `properties` — cannot validate deeper"
    );
    assert_eq!(
        st(&["title", "sub"]),
        FieldPathStatus::Unknown,
        "descending past a primitive (string) is undecidable"
    );
}

#[test]
fn field_path_status_root_without_properties_is_unknown() {
    let schema = Schema::compile(&json(
        r#"{ "allOf": [ { "type": "object", "properties": { "a": {} } } ] }"#,
    ))
    .unwrap();
    assert_eq!(
        schema.field_path_status(&path(&["a"])),
        FieldPathStatus::Unknown,
        "no top-level `properties` on a combinator schema"
    );
}

// ── Own tests ───────────────────────────────────────────────────────────────

fn violation(kind: ViolationKind, at: &str) -> Violation {
    Violation {
        kind,
        instance_path: at.to_string(),
        schema_path: "/properties/x/keyword".to_string(),
        found: Some("\"bad\"".to_string()),
    }
}

#[test]
fn compile_failure_message_is_prefixed() {
    match Schema::compile(&json(r#"{ "type": 42 }"#)) {
        Err(Error::Config(m)) => assert!(
            m.starts_with("schema compile failed: ") && m.len() > "schema compile failed: ".len(),
            "{m}"
        ),
        Ok(_) => panic!("a malformed schema compiled"),
    }
}

#[test]
fn describe_messages_are_exact() {
    let (m, q) = describe(&violation(ViolationKind::Enum(Some("[\"a\",\"b\"]".into())), "/x"));
    assert_eq!(m, "value at /x is not one of the schema's allowed options: [\"a\",\"b\"]");
    assert_eq!(q.len(), 1);
    assert_eq!(q[0].label, "found");
    assert_eq!(q[0].content, "\"bad\"");
    assert!(!q[0].platform_variant);

    let (m, q) = describe(&violation(ViolationKind::Required(Some("\"version\"".into())), ""));
    assert_eq!(m, "required property \"version\" is missing");
    assert!(q.is_empty());

    let (m, q) = describe(&violation(
        ViolationKind::AdditionalProperties(vec!["a".into(), "b".into()]),
        "",
    ));
    assert_eq!(m, "unexpected properties not permitted by the schema");
    assert_eq!(q[0].label, "unexpected");
    assert_eq!(q[0].content, "a\nb");

    let (m, _) = describe(&violation(ViolationKind::UnevaluatedProperties(vec!["a".into()]), "/m"));
    assert_eq!(m, "unexpected property not permitted by the schema at /m");

    let (m, _) = describe(&violation(ViolationKind::MaxLength(12), "/t"));
    assert_eq!(m, "value at /t violates the schema length bound (12)");

    let (m, _) = describe(&violation(ViolationKind::MinItems(3), "/l"));
    assert_eq!(m, "array at /l violates the schema item-count bound (3)");

    let (m, _) = describe(&violation(ViolationKind::MaxProperties(0), ""));
    assert_eq!(m, "object violates the schema property-count bound (0)");

    let (m, _) = describe(&violation(ViolationKind::Minimum(None), "/n"));
    assert_eq!(m, "value at /n violates the schema numeric bound (<?>)");

    let (m, _) = describe(&violation(ViolationKind::Format("date".into()), "/d"));
    assert_eq!(m, "value at /d does not conform to the 'date' format");

    let (m, _) = describe(&violation(ViolationKind::Type, "/c"));
    assert_eq!(m, "value at /c is not of the type the schema requires");

    let (m, _) = describe(&violation(ViolationKind::Constant(Some("1".into())), "/k"));
    assert_eq!(m, "value at /k must equal the schema constant 1");

    let (m, _) = describe(&violation(ViolationKind::Pattern("a\u{1b}b".into()), "/p"));
    assert_eq!(m, "value at /p does not match the schema's required pattern /a\\x1Bb/");

    let (m, q) = describe(&Violation {
        kind: ViolationKind::Other,
        instance_path: "/u".into(),
        schema_path: "/properties/u/uniqueItems".into(),
        found: None,
    });
    assert_eq!(m, "value at /u does not satisfy the schema (at /properties/u/uniqueItems)");
    assert_eq!(q[0].content, "<unserializable value>");
}

#[test]
fn validation_errors_carry_engine_messages_and_quoted_values() {
    let schema = Schema::compile(&json(
        r#"{ "type": "object", "properties": { "status": { "enum": ["open", "closed"] } } }"#,
    ))
    .unwrap();
    let errors = schema.validate(&yaml("status: pending"));
    assert_eq!(errors.len(), 1);
    assert_eq!(
        errors[0].message,
        "value at /status is not one of the schema's allowed options: [\"open\",\"closed\"]"
    );
    assert_eq!(errors[0].quoted[0].label, "found");
    assert_eq!(errors[0].quoted[0].content, "\"pending\"");
    assert!(!errors[0].message.contains("pending"), "document value stays out of the message");
}

#[test]
fn repeated_key_keeps_its_last_value() {
    let schema = Schema::compile(&JsonNode::Object(vec![
        ("type".into(), JsonNode::Str("object".into())),
        (
            "properties".into(),
            JsonNode::Object(vec![
                ("a".into(), JsonNode::Object(vec![("type".into(), JsonNode::Str("string".into()))])),
                ("a".into(), JsonNode::Object(vec![("type".into(), JsonNode::Str("integer".into()))])),
            ]),
        ),
    ]))
    .unwrap();
    assert_eq!(schema.field_path_type(&path(&["a"])), Some("integer"));
    let errors = schema.validate(&yaml("a: text"));
    assert_eq!(errors.len(), 1, "the compiled schema also keeps the last value");
}

#[test]
fn bound_and_count_kinds_reach_their_descriptions() {
    let schema = Schema::compile(&json(
        r#"{
            "type": "object",
            "properties": {
                "t": { "type": "string", "maxLength": 3 },
                "n": { "type": "integer", "minimum": 5 }
            }
        }"#,
    ))
    .unwrap();
    let errors = schema.validate(&yaml("t: toolong"));
    assert_eq!(errors.len(), 1);
    assert_eq!(errors[0].message, "value at /t violates the schema length bound (3)");
    assert_eq!(errors[0].quoted[0].content, "\"toolong\"");
    let errors = schema.validate(&yaml("n: 2"));
    assert_eq!(errors.len(), 1);
    assert_eq!(errors[0].message, "value at /n violates the schema numeric bound (5)");
    let errors = schema.validate(&yaml("extra: 1"));
    assert!(errors.is_empty());
}

#[test]
fn property_kinds_quote_unexpected_keys() {
    let schema = Schema::compile(&json(
        r#"{ "type": "object", "additionalProperties": false, "properties": { "a": {} } }"#,
    ))
    .unwrap();
    let errors = schema.validate(&yaml("a: 1\nzz: 2"));
    assert_eq!(errors.len(), 1);
    assert_eq!(errors[0].message, "unexpected property not permitted by the schema");
    assert_eq!(errors[0].quoted[0].label, "unexpected");
    assert_eq!(errors[0].quoted[0].content, "zz");
}

#[test]
fn frontmatter_without_json_form_is_one_unconvertible_error() {
    let schema = Schema::compile(&json(r#"{ "type": "object" }"#)).unwrap();
    let fm = YamlValue::Mapping(vec![(YamlValue::Sequence(vec![]), YamlValue::Null)]);
    let errors = schema.validate(&fm);
    assert_eq!(errors.len(), 1);
    assert_eq!(errors[0].message, "frontmatter could not be converted to JSON for validation");
    assert!(errors[0].instance_path.is_empty() && errors[0].quoted.is_empty());
}

#[test]
fn parsed_frontmatter_validates_through_the_library_value() {
    let schema = Schema::compile(&json(
        r#"{ "type": "object", "required": ["title"], "properties": { "title": { "type": "string" } } }"#,
    ))
    .unwrap();
    let (fm, _) = mdatron::frontmatter::parse("---\ntitle: 5\n---\nbody\n").unwrap().unwrap();
    let errors = schema.validate(&fm);
    assert_eq!(errors.len(), 1);
    assert_eq!(errors[0].message, "value at /title is not of the type the schema requires");
    assert_eq!(errors[0].quoted[0].content, "5");
    let (blank, _) = mdatron::frontmatter::parse("---\n---\n").unwrap().unwrap();
    let errors = schema.validate(&blank);
    assert_eq!(errors.len(), 1, "the empty mapping misses `title`");
}
