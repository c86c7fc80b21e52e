use mdatron::dep::{DepGraph, GovernedFile, IndexSources, RuleReach};
use mdatron::path_order::path_less;
use mdatron::route::{compile_routes, Probe, RawEntry, Route};

fn strings(items: &[&str]) -> Vec<String> {
    items.iter().map(|s| s.to_string()).collect()
}

fn sorted(mut v: Vec<String>) -> Vec<String> {
    v.sort();
    v
}

fn gf(path: &str, schema: Option<&str>) -> GovernedFile {
    GovernedFile { path: path.into(), schema_class: schema.map(String::from) }
}

fn routes(pairs: &[(&str, &str)]) -> Vec<Route> {
    let entries: Vec<RawEntry> = pairs
        .iter()
        .map(|(files, gov)| RawEntry {
            files: files.to_string(),
            governed_by: gov.to_string(),
            naming: None,
            citations: false,
            links: false,
            link_root: false,
            marker_rules: Vec::new(),
            section_rules: Vec::new(),
        })
        .collect();
    let probes = vec![Probe::Opened; entries.len()];
    compile_routes("routes.yaml", &entries, &probes).unwrap().routes
}

fn index(name: &str, prov: &[&[&str]], sources: &[&str]) -> IndexSources {
    IndexSources {
        name: name.into(),
        contributors: prov.iter().map(|g| strings(g)).collect(),
        sources: strings(sources),
    }
}

fn reach(context: &[&str], referenced: &[&str], dynamic: bool) -> RuleReach {
    RuleReach { context_files: strings(context), referenced: strings(referenced), dynamic }
}

#[test]
fn transitive_chain_of_three() {
    let files = [gf("a.md", Some("a")), gf("b.md", Some("b")), gf("c.md", Some("c"))];
    let rules = [reach(&["a.md"], &["i1"], false), reach(&["b.md"], &["i2"], false)];
    let indices = [index("i1", &[], &["b.md"]), index("i2", &[], &["c.md"])];
    let g = DepGraph::build(&files, &[], &indices, &rules);
    assert_eq!(sorted(g.dependents("a.md")), strings(&["b.md", "c.md"]));
    assert_eq!(sorted(g.dependents("c.md")), strings(&["a.md", "b.md"]));
}

#[test]
fn shared_key_couples_files_naming_neither() {
    let g = DepGraph::build(&[], &[], &[index("people", &[&["x.md", "y.md"]], &["x.md", "y.md"])], &[]);
    assert_eq!(sorted(g.dependents("x.md")), strings(&["y.md"]));
    assert_eq!(sorted(g.dependents("y.md")), strings(&["x.md"]));
    let g2 = DepGraph::build(&[], &[], &[index("solo", &[&["only.md"]], &["only.md"])], &[]);
    assert!(g2.dependents("only.md").is_empty());
}

#[test]
fn governance_edge_both_directions() {
    let files = [gf("review-log/a.md", None), gf("review-log/b.md", None)];
    let routes = routes(&[("review-log/**/*.md", "DESIGN.md")]);
    let g = DepGraph::build(&files, &routes, &[], &[]);
    assert_eq!(sorted(g.dependents("review-log/a.md")), strings(&["DESIGN.md", "review-log/b.md"]));
    assert_eq!(sorted(g.dependents("DESIGN.md")), strings(&["review-log/a.md", "review-log/b.md"]));
}

#[test]
fn rule_reference_edge_both_directions() {
    let files = [gf("a.md", Some("post")), gf("registry.md", None)];
    let g = DepGraph::build(&files, &[], &[index("reg", &[], &["registry.md"])], &[reach(&["a.md"], &["reg"], false)]);
    assert_eq!(g.dependents("a.md"), strings(&["registry.md"]));
    assert_eq!(g.dependents("registry.md"), strings(&["a.md"]));
}

#[test]
fn dynamic_index_name_connects_all_indices() {
    let files = [gf("a.md", Some("a"))];
    let indices = [index("i1", &[], &["b.md"]), index("i2", &[], &["c.md"])];
    let g = DepGraph::build(&files, &[], &indices, &[reach(&["a.md"], &[], true)]);
    assert_eq!(sorted(g.dependents("a.md")), strings(&["b.md", "c.md"]));
}

#[test]
fn edge_kinds_compose_transitively() {
    let files = [gf("a.md", Some("a")), gf("y.md", None)];
    let routes = routes(&[("y.md", "gov.md")]);
    let indices = [index("i", &[], &["x.md"]), index("j", &[&["x.md", "y.md"]], &["x.md", "y.md"])];
    let g = DepGraph::build(&files, &routes, &indices, &[reach(&["a.md"], &["i"], false)]);
    assert_eq!(sorted(g.dependents("a.md")), strings(&["gov.md", "x.md", "y.md"]));
}

#[test]
fn self_referential_rule_forms_no_self_edge() {
    let files = [gf("x.md", Some("a"))];
    let g = DepGraph::build(&files, &[], &[index("i", &[], &["x.md", "y.md"])], &[reach(&["x.md"], &["i"], false)]);
    let deps = g.dependents("x.md");
    assert!(!deps.iter().any(|d| d == "x.md"), "no self-edge");
    assert_eq!(deps, strings(&["y.md"]));
}

#[test]
fn governed_by_with_leading_dot_slash_still_connects() {
    let files = [gf("a.md", None)];
    let routes = routes(&[("a.md", "./DESIGN.md")]);
    let g = DepGraph::build(&files, &routes, &[], &[]);
    assert_eq!(g.dependents("a.md"), strings(&["DESIGN.md"]));
    assert_eq!(g.dependents("DESIGN.md"), strings(&["a.md"]));
}

#[test]
fn unconnected_file_has_no_dependents() {
    let g = DepGraph::build(&[], &[], &[index("people", &[&["x.md", "y.md"]], &["x.md", "y.md"])], &[]);
    assert!(g.dependents("unrelated.md").is_empty());
}

#[test]
fn a_rule_naming_no_index_reaches_nothing() {
    let files = [gf("a.md", Some("a"))];
    let g = DepGraph::build(&files, &[], &[index("i", &[], &["b.md"])], &[reach(&["a.md"], &[], false), reach(&["a.md"], &["missing"], false)]);
    assert!(g.dependents("a.md").is_empty());
}

#[test]
fn connecting_by_hand_matches_the_closure() {
    let mut g = DepGraph::new();
    g.connect("a.md", "b.md");
    g.connect("b.md", "c.md");
    g.connect("d.md", "e.md");
    g.connect("x.md", "x.md");
    assert_eq!(sorted(g.dependents("a.md")), strings(&["b.md", "c.md"]));
    assert_eq!(sorted(g.dependents("e.md")), strings(&["d.md"]));
    assert!(g.dependents("x.md").is_empty());
    let mut h = DepGraph::new();
    h.connect_all(&strings(&["p.md", "q.md", "r.md"]));
    assert_eq!(sorted(h.dependents("q.md")), strings(&["p.md", "r.md"]));
}

use mdatron::dep::rule_key_refs;
use mdatron::dsl::types::{ContextSelector, Rule};

fn mk_rule(lets: &[(&str, &str)], assert: &str, message: &str) -> Rule {
    Rule {
        id: "r".into(),
        context: ContextSelector::Bare("a".into()),
        let_bindings: lets.iter().map(|(k, v)| (k.to_string(), v.to_string())).collect(),
        assert: assert.into(),
        code: "ADOPTER-E0001".into(),
        message: message.into(),
        location: None,
    }
}

fn reach_of(rule: &Rule, context: &[&str]) -> RuleReach {
    let (referenced, dynamic) = rule_key_refs(rule);
    RuleReach { context_files: strings(context), referenced, dynamic }
}

#[test]
fn key_in_let_binding_forms_edge() {
    let files = [gf("a.md", Some("a"))];
    let rule = mk_rule(&[("idx", "key(\"i\", \"x\")")], "$idx == \"\"", "m");
    let g = DepGraph::build(&files, &[], &[index("i", &[], &["b.md"])], &[reach_of(&rule, &["a.md"])]);
    assert_eq!(g.dependents("a.md"), strings(&["b.md"]));
}

#[test]
fn key_in_message_forms_edge() {
    let files = [gf("a.md", Some("a"))];
    let rule = mk_rule(&[], "$self.x == \"\"", "see {{key(\"i\", $self.x)}}");
    let g = DepGraph::build(&files, &[], &[index("i", &[], &["b.md"])], &[reach_of(&rule, &["a.md"])]);
    assert_eq!(g.dependents("a.md"), strings(&["b.md"]));
}

#[test]
fn key_refs_read_literals_and_flag_computed_names() {
    let rule = mk_rule(&[], "key(\"a\", 1) == key($self.idx, 2) and not key(\"b\", key(\"c\", 0))", "{{ key(\"d\", 1) }} {{ broken(");
    let (names, dynamic) = rule_key_refs(&rule);
    assert_eq!(names, strings(&["a", "b", "c", "d"]));
    assert!(dynamic);
    let plain = mk_rule(&[], "key(3, 1) == \"\"", "no slots {{ here");
    assert_eq!(rule_key_refs(&plain), (Vec::new(), false));
}

#[test]
fn dependents_come_in_path_order() {
    let g = DepGraph::build(
        &[],
        &[],
        &[index("k", &[&["z.md", "a-b.md", "a/b.md", "a/c.md", "b.md"]], &[])],
        &[],
    );
    assert_eq!(
        g.dependents("z.md"),
        strings(&["a/b.md", "a/c.md", "a-b.md", "b.md"]),
        "components compare one by one, so `a/b` precedes `a-b`"
    );
}

#[test]
fn path_less_orders_components_by_kind_then_text() {
    let order = ["/x", "./x", "../x", "a/b", "a-b", "b"];
    for i in 0..order.len() {
        for j in 0..order.len() {
            assert_eq!(path_less(order[i], order[j]), i < j, "{} vs {}", order[i], order[j]);
        }
    }
    assert!(!path_less("a//b", "a/b") && !path_less("a/b", "a//b"), "repeated separators do not count");
    assert!(!path_less("a/./b", "a/b") && !path_less("a/b", "a/./b"));
}

#[test]
fn dependents_are_the_connected_component_less_the_changed_file() {
    let files = [gf("a.md", Some("a")), gf("y.md", None), gf("lone.md", None)];
    let routes = routes(&[("y.md", "gov.md")]);
    let indices = [index("i", &[], &["x.md"]), index("j", &[&["x.md", "y.md"]], &["x.md", "y.md"])];
    let g = DepGraph::build(&files, &routes, &indices, &[reach(&["a.md"], &["i"], false)]);
    let component = ["a.md", "gov.md", "x.md", "y.md"];
    for a in component {
        let deps = g.dependents(a);
        assert!(!deps.contains(&a.to_string()), "a file is never its own dependent");
        let mut with_self = deps.clone();
        with_self.push(a.to_string());
        assert_eq!(sorted(with_self), strings(&component), "the same component from every member");
        for x in &deps {
            assert!(g.dependents(x).contains(&a.to_string()), "connection is symmetric");
        }
    }
    assert!(g.dependents("lone.md").is_empty());
}
