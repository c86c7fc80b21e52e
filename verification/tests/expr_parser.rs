use mdatron::dsl::expr::{DslValue, Expr, VarRef};
use mdatron::dsl::expr_parser::{parse_expression, parse_would_abort};

fn s(v: &str) -> DslValue {
    DslValue::Str(v.to_string())
}

fn arr<const N: usize>(items: [DslValue; N]) -> DslValue {
    DslValue::Array(items.into_iter().collect())
}

#[test]
fn parses_string_literal() {
    let expr = parse_expression("\"hello\"").unwrap();
    assert_eq!(expr, Expr::Lit(s("hello")));
}

#[test]
fn parses_string_with_escape() {
    let expr = parse_expression(r#""he said \"hi\"""#).unwrap();
    assert_eq!(expr, Expr::Lit(s("he said \"hi\"")));
}

#[test]
fn parses_int_literal() {
    let expr = parse_expression("42").unwrap();
    assert_eq!(expr, Expr::Lit(DslValue::Int(42)));
}

#[test]
fn parses_negative_int() {
    let expr = parse_expression("-7").unwrap();
    assert_eq!(expr, Expr::Lit(DslValue::Int(-7)));
}

#[test]
fn parses_bool_literals() {
    assert_eq!(parse_expression("true").unwrap(), Expr::Lit(DslValue::Bool(true)));
    assert_eq!(parse_expression("false").unwrap(), Expr::Lit(DslValue::Bool(false)));
}

#[test]
fn parses_null_literal() {
    assert_eq!(parse_expression("null").unwrap(), Expr::Lit(DslValue::Null));
}

#[test]
fn parses_array_literal() {
    let expr = parse_expression(r#"["resolved", "deferred"]"#).unwrap();
    assert_eq!(expr, Expr::Lit(arr([s("resolved"), s("deferred")])));
}

#[test]
fn parses_empty_array_literal() {
    let expr = parse_expression("[]").unwrap();
    assert_eq!(expr, Expr::Lit(DslValue::Array(vec![])));
}

#[test]
fn parses_self_var() {
    let expr = parse_expression("$self").unwrap();
    assert_eq!(expr, Expr::Var(VarRef::SelfVar));
}

#[test]
fn parses_file_var() {
    let expr = parse_expression("$file").unwrap();
    assert_eq!(expr, Expr::Var(VarRef::File));
}

#[test]
fn parses_binding_var() {
    let expr = parse_expression("$expected").unwrap();
    assert_eq!(expr, Expr::Var(VarRef::Binding("expected".into())));
}

#[test]
fn parses_field_access() {
    let expr = parse_expression("$self.phase").unwrap();
    assert_eq!(expr, Expr::Field(Box::new(Expr::Var(VarRef::SelfVar)), "phase".into()));
}

#[test]
fn parses_chained_field_access() {
    let expr = parse_expression("$self.a.b.c").unwrap();
    let inner = Expr::Field(Box::new(Expr::Var(VarRef::SelfVar)), "a".into());
    let middle = Expr::Field(Box::new(inner), "b".into());
    let outer = Expr::Field(Box::new(middle), "c".into());
    assert_eq!(expr, outer);
}

#[test]
fn parses_zero_arg_call() {
    let expr = parse_expression("now()").unwrap();
    assert_eq!(expr, Expr::Call("now".into(), vec![]));
}

#[test]
fn parses_single_arg_call() {
    let expr = parse_expression("count($self.relevant_domains)").unwrap();
    assert_eq!(
        expr,
        Expr::Call(
            "count".into(),
            vec![Expr::Field(Box::new(Expr::Var(VarRef::SelfVar)), "relevant_domains".into())]
        )
    );
}

#[test]
fn parses_multi_arg_call() {
    let expr = parse_expression(r#"union($a, $b)"#).unwrap();
    assert_eq!(
        expr,
        Expr::Call(
            "union".into(),
            vec![
                Expr::Var(VarRef::Binding("a".into())),
                Expr::Var(VarRef::Binding("b".into())),
            ]
        )
    );
}

#[test]
fn parses_equality() {
    let expr = parse_expression(r#"$self.phase == "phase-1a""#).unwrap();
    assert_eq!(
        expr,
        Expr::Eq(
            Box::new(Expr::Field(Box::new(Expr::Var(VarRef::SelfVar)), "phase".into())),
            Box::new(Expr::Lit(s("phase-1a")))
        )
    );
}

#[test]
fn parses_not_prefix() {
    let expr = parse_expression("not true").unwrap();
    assert_eq!(expr, Expr::Not(Box::new(Expr::Lit(DslValue::Bool(true)))));
}

#[test]
fn or_has_lower_precedence_than_and() {
    let expr = parse_expression("$a or $b and $c").unwrap();
    match expr {
        Expr::Or(left, right) => {
            assert_eq!(*left, Expr::Var(VarRef::Binding("a".into())));
            assert!(matches!(*right, Expr::And(_, _)));
        }
        other => panic!("expected Or at top level, got {other:?}"),
    }
}

#[test]
fn parens_override_precedence() {
    let expr = parse_expression("($a or $b) and $c").unwrap();
    match expr {
        Expr::And(left, right) => {
            assert!(matches!(*left, Expr::Or(_, _)));
            assert_eq!(*right, Expr::Var(VarRef::Binding("c".into())));
        }
        other => panic!("expected And at top level, got {other:?}"),
    }
}

#[test]
fn parses_in_operator() {
    let expr = parse_expression(r#""resolved" in ["resolved", "deferred"]"#).unwrap();
    assert!(matches!(expr, Expr::In(_, _)));
}

#[test]
fn parses_not_in_operator() {
    let expr = parse_expression(r#""hallucinated" not_in $allowed"#).unwrap();
    assert!(matches!(expr, Expr::NotIn(_, _)));
}

#[test]
fn parses_eq_or_eq() {
    let expr = parse_expression(
        r#"$self.validator == $expected.validator_pair or $self.validator == "sanity-check""#,
    )
    .unwrap();
    match expr {
        Expr::Or(left, right) => {
            assert!(matches!(*left, Expr::Eq(_, _)));
            assert!(matches!(*right, Expr::Eq(_, _)));
        }
        other => panic!("expected Or at top, got {other:?}"),
    }
}

#[test]
fn parses_every_quantifier() {
    let expr = parse_expression("every(d in $required, d in $self.relevant_domains)").unwrap();
    match expr {
        Expr::Every(binding, collection, predicate) => {
            assert_eq!(binding, "d");
            assert_eq!(*collection, Expr::Var(VarRef::Binding("required".into())));
            assert!(matches!(*predicate, Expr::In(_, _)));
        }
        other => panic!("expected Every, got {other:?}"),
    }
}

#[test]
fn parses_some_quantifier() {
    let expr = parse_expression(r#"some(x in $self.tags, x == "important")"#).unwrap();
    assert!(matches!(expr, Expr::Some_(name, _, _) if name == "x"));
}

#[test]
fn error_on_empty_input() {
    let err = parse_expression("").unwrap_err();
    assert!(err.message.contains("unexpected end of input"));
}

#[test]
fn error_on_unterminated_string() {
    let err = parse_expression(r#""no closing"#).unwrap_err();
    assert!(err.message.contains("unterminated string"));
}

#[test]
fn error_on_unmatched_paren() {
    let err = parse_expression("(true").unwrap_err();
    assert!(err.message.contains("expected ')'"));
}

#[test]
fn error_on_trailing_input() {
    let err = parse_expression("true extra").unwrap_err();
    assert!(err.message.contains("trailing input"));
}

#[test]
fn error_on_reserved_keyword_as_primary() {
    let err = parse_expression("and").unwrap_err();
    assert!(err.message.contains("reserved keyword"));
}

#[test]
fn error_on_missing_arg_separator() {
    let err = parse_expression("count($a $b)").unwrap_err();
    assert!(err.message.contains("expected ',' or ')'"));
}

#[test]
fn error_on_every_missing_in_keyword() {
    let err = parse_expression("every(d, $self.x)").unwrap_err();
    assert!(err.message.contains("expected 'in'"));
}

#[test]
fn tolerates_extra_whitespace() {
    let expr1 = parse_expression("  $self.phase  ==  \"phase-1a\"  ").unwrap();
    let expr2 = parse_expression(r#"$self.phase=="phase-1a""#).unwrap();
    assert_eq!(expr1, expr2);
}

#[test]
fn error_positions_are_byte_offsets() {
    let err = parse_expression("true extra").unwrap_err();
    assert_eq!(err.position, 5);
    assert_eq!(err.message, "unexpected trailing input: 'extra'");
    let err = parse_expression("\"é\" x").unwrap_err();
    assert_eq!(err.position, 5);
}

#[test]
fn parses_project_var_and_ne() {
    let expr = parse_expression("$project != 3").unwrap();
    assert_eq!(
        expr,
        Expr::Ne(
            Box::new(Expr::Var(VarRef::Project)),
            Box::new(Expr::Lit(DslValue::Int(3)))
        )
    );
}

#[test]
fn only_documented_escapes_are_accepted() {
    assert_eq!(parse_expression(r#""a\nb""#).unwrap(), Expr::Lit(s("a\nb")));
    assert_eq!(parse_expression(r#""a\\b""#).unwrap(), Expr::Lit(s("a\\b")));
    let err = parse_expression(r#""a\tb""#).unwrap_err();
    assert_eq!(err.message, "invalid escape sequence '\\t'");
    assert_eq!(err.position, 3);
}

#[test]
fn inputs_whose_keyword_probe_splits_a_character_are_detected() {
    assert!(parse_would_abort("x aaaaa\u{e9}"));
    assert!(!parse_would_abort("x in y"));
    assert!(!parse_would_abort("\u{e9}"));
    assert!(!parse_would_abort("$fm.title == \"caf\u{e9}\""));
    assert!(parse_expression("$fm.title == \"caf\u{e9}\"").is_ok());
}
