use mdatron::pin::{compile_pins, RawPin};
use mdatron::schema::{describe, FieldPathStatus, JsonNode, Schema, Violation, ViolationKind};
use mdatron::confine::confine_lexically;
use mdatron::dep::DepGraph;
use mdatron::section::{parse_count_pred, CmpOp, CountPred};

#[test]
fn described_predicates_parse_back() {
    for op in [CmpOp::Eq, CmpOp::Ne, CmpOp::Lt, CmpOp::Le, CmpOp::Gt, CmpOp::Ge] {
        for n in [0usize, 1, 7, 42, 123456789] {
            let p = CountPred { op, n };
            assert_eq!(parse_count_pred(&p.describe()), Some(p));
        }
    }
}

#[test]
fn confinement_is_idempotent() {
    for s in ["a/b", "./a//b/.", "x", "", "a/./b/c.md"] {
        let once = confine_lexically(s).unwrap();
        let twice = confine_lexically(once.as_path()).unwrap();
        assert_eq!(once.as_path(), twice.as_path());
    }
}

#[test]
fn dependency_is_mutual_and_transitive() {
    let mut g = DepGraph::new();
    g.connect("a", "b");
    g.connect("c", "b");
    g.connect("d", "e");
    for (x, y) in [("a", "c"), ("c", "a"), ("b", "a"), ("e", "d")] {
        assert!(g.dependents(x).iter().any(|d| d == y), "{y} depends on {x}");
        assert!(g.dependents(y).iter().any(|d| d == x), "{x} depends on {y}");
    }
    assert!(!g.dependents("a").iter().any(|d| d == "d"));
}

#[test]
fn every_dropped_pin_is_reported() {
    let entry = |g: &str, f: &str| RawPin {
        governed_by: g.to_string(),
        file: f.to_string(),
        section: None,
        sha256: String::new(),
    };
    let entries = [entry("G.md", "a.md"), entry("../G.md", "/b.md"), entry("G.md", "../c.md")];
    let loaded = compile_pins("pins.yaml", &entries, &[], b"");
    assert_eq!(loaded.pins.len(), 1);
    assert!(loaded.pins.len() + loaded.findings.len() >= entries.len());
    assert_eq!(loaded.findings.len(), 3, "both fields of the second entry are reported");
}

#[test]
fn reachable_schema_paths_are_declared() {
    let obj = |members: Vec<(&str, JsonNode)>| {
        JsonNode::Object(members.into_iter().map(|(k, v)| (k.to_string(), v)).collect())
    };
    let schema = Schema::compile(&obj(vec![
        ("type", JsonNode::Str("object".into())),
        ("additionalProperties", JsonNode::Bool(false)),
        ("properties", obj(vec![("n", obj(vec![("type", JsonNode::Str("integer".into()))]))])),
    ]))
    .unwrap();
    for p in [vec!["n".to_string()], vec!["m".to_string()], vec![], vec!["n".to_string(), "x".to_string()]] {
        let status = schema.field_path_status(&p);
        if schema.field_path_type(&p).is_some() {
            assert_eq!(status, FieldPathStatus::Declared);
        }
        if status == FieldPathStatus::UndeclaredClosed {
            assert!(schema.field_path_type(&p).is_none() && schema.field_path_enum(&p).is_none());
        }
    }
    assert_eq!(schema.field_path_status(&["m".to_string()]), FieldPathStatus::UndeclaredClosed);
}

#[test]
fn document_value_never_rides_inline() {
    let v = |found: Option<&str>| Violation {
        kind: ViolationKind::Enum(Some("[1,2]".to_string())),
        instance_path: "/n".to_string(),
        schema_path: "/properties/n/enum".to_string(),
        found: found.map(str::to_string),
    };
    let (m1, q1) = describe(&v(Some("\"IGNORE ABOVE\"")));
    let (m2, q2) = describe(&v(None));
    assert_eq!(m1, m2);
    assert!(!m1.contains("IGNORE"));
    assert_eq!(q1[0].content, "\"IGNORE ABOVE\"");
    assert_eq!(q2[0].content, "<unserializable value>");
}
