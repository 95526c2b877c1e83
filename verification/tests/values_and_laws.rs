use cool_diff::diff::{DiffResult, diff_values, value_contains};
use cool_diff::render::lines::push_line;
use cool_diff::render::yaml::format_segment_label;
use cool_diff::render::scalar::{format_scalar, needs_yaml_quoting};
use cool_diff::{
    AmbiguousMatchStrategy, ArrayMatchConfig, ArrayMatchMode, DiffConfig, DiffKind, DiffNode,
    DiffTree, Error, JsonMap, MatchConfig, Number, PathSegment, Value, diff, diff_checked,
};

fn obj(pairs: Vec<(&str, Value)>) -> Value {
    Value::from_entries(pairs.into_iter().map(|(k, v)| (k.to_string(), v)).collect())
}

fn arr(items: Vec<Value>) -> Value {
    Value::Array(items)
}

fn st(s: &str) -> Value {
    Value::from_text(s)
}

fn num(i: i64) -> Value {
    Value::from_i64(i)
}

fn float(display: &str) -> Value {
    Value::Number(Number::from_float_display(display.to_string()))
}

fn sample() -> Value {
    obj(vec![
        ("name", st("app")),
        ("tags", arr(vec![st("a"), st("b")])),
        ("spec", obj(vec![("replicas", num(3)), ("ports", arr(vec![obj(vec![("port", num(80))])]))])),
        ("ratio", float("0.5")),
        ("none", Value::Null),
        ("on", Value::Bool(true)),
    ])
}

// ---------------------------------------------------------------------------
// Values
// ---------------------------------------------------------------------------

#[test]
fn object_insertion_order_is_irrelevant() {
    let a = obj(vec![("z", num(1)), ("a", num(2)), ("m", num(3))]);
    let b = obj(vec![("m", num(3)), ("z", num(1)), ("a", num(2))]);
    assert!(a.equals(&b));
    let Value::Object(m) = &a else {
        panic!("expected an object");
    };
    assert_eq!(m.len(), 3);
    assert_eq!(m.key_at(0), "a");
    assert_eq!(m.key_at(1), "m");
    assert_eq!(m.key_at(2), "z");
}

#[test]
fn later_entry_replaces_earlier_one() {
    let a = obj(vec![("k", num(1)), ("k", num(2))]);
    assert!(a.equals(&obj(vec![("k", num(2))])));
    let mut m = JsonMap::new();
    assert!(m.insert("x".to_string(), num(1)).is_none());
    let previous = m.insert("x".to_string(), num(5)).expect("a previous value");
    assert!(previous.equals(&num(1)));
    assert!(m.get("x").expect("present").equals(&num(5)));
    assert!(m.get("y").is_none());
}

#[test]
fn numbers_compare_like_json_numbers() {
    assert_eq!(Number::from_i64(-42).to_display(), "-42");
    assert_eq!(Number::from_i64(i64::MIN).to_display(), "-9223372036854775808");
    assert_eq!(Number::from_u64(u64::MAX).to_display(), "18446744073709551615");
    assert!(float("0.0").equals(&float("-0.0")));
    assert!(!num(1).equals(&float("1.0")));
    assert!(num(7).equals(&Value::from_u64(7)));
    assert!(!float("1.5").equals(&float("2.5")));
}

#[test]
fn type_names_and_scalars() {
    assert_eq!(Value::Null.kind_name(), "null");
    assert_eq!(Value::Bool(false).kind_name(), "bool");
    assert_eq!(num(1).kind_name(), "number");
    assert_eq!(st("x").kind_name(), "string");
    assert_eq!(arr(vec![]).kind_name(), "array");
    assert_eq!(obj(vec![]).kind_name(), "object");
    assert!(st("x").is_scalar());
    assert!(!arr(vec![]).is_scalar());
    assert_eq!(obj(vec![("k", st("v"))]).get_str("k").map(|s| s.as_str()), Some("v"));
    assert!(obj(vec![("k", num(1))]).get_str("k").is_none());
}

#[test]
fn contains_is_subset_for_objects_and_exact_for_arrays() {
    let actual = obj(vec![("a", num(1)), ("b", obj(vec![("c", num(2)), ("d", num(3))]))]);
    assert!(value_contains(&actual, &obj(vec![("b", obj(vec![("d", num(3))]))])));
    assert!(!value_contains(&actual, &obj(vec![("b", obj(vec![("d", num(4))]))])));
    assert!(!value_contains(&actual, &obj(vec![("e", num(1))])));
    assert!(value_contains(&arr(vec![num(1), num(2)]), &arr(vec![num(1), num(2)])));
    assert!(!value_contains(&arr(vec![num(1), num(2)]), &arr(vec![num(1)])));
    assert!(!value_contains(&num(1), &st("1")));
}

#[test]
fn every_value_contains_itself() {
    let v = sample();
    assert!(value_contains(&v, &v.clone()));
}

#[test]
fn match_counter_limit() {
    let contains = DiffConfig::new().with_match_config(
        MatchConfig::new().with_config_at("k", ArrayMatchConfig::new(ArrayMatchMode::Contains)),
    );
    let actual = obj(vec![("k", arr(vec![num(1)]))]);
    let at_limit = obj(vec![("k", arr((0..65535).map(|_| num(1)).collect()))]);
    let tree = diff_checked(&actual, &at_limit, &contains)
        .expect("65535 matches fit")
        .expect("no error");
    assert!(tree.is_empty());
    let beyond = obj(vec![("k", arr((0..65536).map(|_| num(1)).collect()))]);
    assert!(diff_checked(&actual, &beyond, &contains).is_none());
    // Unmatched elements are not counted, so any number of them is fine.
    let unmatched = obj(vec![("k", arr((0..65536).map(|_| num(2)).collect()))]);
    let tree = diff_checked(&actual, &unmatched, &contains)
        .expect("nothing matched")
        .expect("no error");
    assert!(!tree.is_empty());
    // Index matching counts nothing.
    let tree = diff_checked(&actual, &beyond, &DiffConfig::default())
        .expect("index matching")
        .expect("no error");
    assert!(!tree.is_empty());
}

// ---------------------------------------------------------------------------
// Laws on concrete values
// ---------------------------------------------------------------------------

#[test]
fn self_diff_is_empty() {
    let v = sample();
    let tree = diff(&v, &v.clone(), &DiffConfig::default()).expect("index matching never fails");
    assert!(tree.is_empty());
    let contains = DiffConfig::new().with_fallback_array_mode(ArrayMatchMode::Contains);
    let tree = diff(&v, &v.clone(), &contains).expect("no ambiguity in the sample");
    assert!(tree.is_empty());
}

#[test]
fn self_diff_can_fail_on_ambiguous_keys() {
    let v = obj(vec![(
        "items",
        arr(vec![obj(vec![("name", st("a")), ("v", num(1))]), obj(vec![("name", st("a")), ("v", num(2))])]),
    )]);
    let strict = DiffConfig::new().with_match_config(MatchConfig::new().with_config_at(
        "items",
        ArrayMatchConfig::new(ArrayMatchMode::Key("name".to_string())),
    ));
    assert!(matches!(
        diff(&v, &v.clone(), &strict),
        Err(Error::AmbiguousMatch { count: 2, .. })
    ));
    let best = DiffConfig::new().with_match_config(MatchConfig::new().with_config_at(
        "items",
        ArrayMatchConfig::new(ArrayMatchMode::Key("name".to_string()))
            .with_ambiguous_strategy(AmbiguousMatchStrategy::BestMatch),
    ));
    assert!(diff(&v, &v.clone(), &best).expect("best match tolerates duplicates").is_empty());
}

#[test]
fn index_matching_never_fails() {
    let actual = obj(vec![("a", arr(vec![num(1), obj(vec![])])), ("b", st("x"))]);
    let expected = obj(vec![("a", arr(vec![st("1"), arr(vec![]), num(3)])), ("c", Value::Null)]);
    assert!(diff(&actual, &expected, &DiffConfig::default()).is_ok());
}

#[test]
fn empty_tree_for_compound_roots_means_equal() {
    let actual = obj(vec![("a", num(1)), ("extra", num(2))]);
    let expected = obj(vec![("a", num(1))]);
    let tree = diff(&actual, &expected, &DiffConfig::default()).expect("valid");
    assert!(tree.is_empty());
    assert!(matches!(
        diff_values(&actual, &expected, &DiffConfig::default(), ""),
        Ok(DiffResult::Equal)
    ));
    let changed = obj(vec![("a", num(2))]);
    let tree = diff(&actual, &changed, &DiffConfig::default()).expect("valid");
    assert!(!tree.is_empty());
}

#[test]
fn root_scalar_difference_gives_one_root_leaf() {
    let tree = diff(&num(42), &st("hello"), &DiffConfig::default()).expect("valid");
    assert!(!tree.is_empty());
    assert_eq!(tree.roots.len(), 1);
    let DiffNode::Leaf { segment, kind } = &tree.roots[0] else {
        panic!("expected one root leaf");
    };
    assert!(matches!(segment, PathSegment::Key(k) if k.is_empty()));
    assert!(matches!(
        kind,
        DiffKind::TypeMismatch { actual_type: "number", expected_type: "string", .. }
    ));
    let tree = diff(&num(1), &num(2), &DiffConfig::default()).expect("valid");
    assert_eq!(tree.roots.len(), 1);
    assert!(matches!(&tree.roots[0], DiffNode::Leaf { kind: DiffKind::Changed { .. }, .. }));
    let tree = diff(&num(1), &num(1), &DiffConfig::default()).expect("valid");
    assert!(tree.is_empty());
}

#[test]
fn omitted_count_of_key_matching_counts_unmatched_actual_elements() {
    let config = DiffConfig::new().with_match_config(MatchConfig::new().with_config_at(
        "items",
        ArrayMatchConfig::new(ArrayMatchMode::Key("name".to_string()))
            .with_ambiguous_strategy(AmbiguousMatchStrategy::Silent),
    ));
    let actual = obj(vec![("items", arr(vec![obj(vec![("name", st("a"))]), obj(vec![("name", st("b"))])]))]);
    let expected = obj(vec![(
        "items",
        arr(vec![obj(vec![("name", st("a")), ("x", num(1))]), obj(vec![("name", st("a"))])]),
    )]);
    let tree = diff(&actual, &expected, &config).expect("valid");
    let DiffNode::Container { omitted_count, .. } = &tree.roots[0] else {
        panic!("expected a container");
    };
    assert_eq!(*omitted_count, 1);
}

#[test]
fn omitted_count_of_contains_matching_counts_unmatched_actual_elements() {
    let config = DiffConfig::new().with_match_config(MatchConfig::new().with_config_at(
        "items",
        ArrayMatchConfig::new(ArrayMatchMode::Contains)
            .with_ambiguous_strategy(AmbiguousMatchStrategy::Silent),
    ));
    let actual = obj(vec![("items", arr(vec![obj(vec![("a", num(1))]), obj(vec![("b", num(2))])]))]);
    let expected = obj(vec![(
        "items",
        arr(vec![obj(vec![("a", num(1)), ("x", num(1))]), obj(vec![("a", num(1))])]),
    )]);
    let tree = diff(&actual, &expected, &config).expect("valid");
    let DiffNode::Container { omitted_count, children, .. } = &tree.roots[0] else {
        panic!("expected a container");
    };
    assert_eq!(children.len(), 1);
    assert_eq!(*omitted_count, 1);
}

#[test]
fn extra_actual_keys_only_change_the_omitted_count() {
    let expected = obj(vec![("a", num(9))]);
    let small = obj(vec![("a", num(1))]);
    let large = obj(vec![("a", num(1)), ("b", num(2)), ("c", num(3))]);
    let Ok(DiffResult::Children { nodes: n1, omitted_count: o1, .. }) =
        diff_values(&small, &expected, &DiffConfig::default(), "")
    else {
        panic!("expected children");
    };
    let Ok(DiffResult::Children { nodes: n2, omitted_count: o2, .. }) =
        diff_values(&large, &expected, &DiffConfig::default(), "")
    else {
        panic!("expected children");
    };
    assert_eq!(n1.len(), n2.len());
    assert_eq!((o1, o2), (0, 2));
}

#[test]
fn best_match_prefers_the_candidate_with_fewer_differences() {
    let config = DiffConfig::new().with_match_config(MatchConfig::new().with_config_at(
        "items",
        ArrayMatchConfig::new(ArrayMatchMode::Key("name".to_string()))
            .with_ambiguous_strategy(AmbiguousMatchStrategy::Silent),
    ));
    let actual = obj(vec![(
        "items",
        arr(vec![
            obj(vec![("name", st("F")), ("a", num(1)), ("b", num(1))]),
            obj(vec![("name", st("F")), ("a", num(2)), ("b", num(9))]),
        ]),
    )]);
    let expected = obj(vec![("items", arr(vec![obj(vec![("name", st("F")), ("a", num(2)), ("b", num(2))])]))]);
    let tree = diff(&actual, &expected, &config).expect("silent strategy");
    let cool_diff::DiffNode::Container { children, .. } = &tree.roots[0] else {
        panic!("expected container");
    };
    let cool_diff::DiffNode::Container { children, .. } = &children[0] else {
        panic!("expected named element");
    };
    // The second candidate differs in one field only, the first in two.
    assert_eq!(children.len(), 1);
}

// ---------------------------------------------------------------------------
// Errors
// ---------------------------------------------------------------------------

#[test]
fn error_messages() {
    let e = Error::MissingKeyField { path: "spec.items".to_string(), key_field: "name".to_string() };
    assert_eq!(
        e.message(),
        "expected array element at path `spec.items` is missing the key field `name` required for matching"
    );
    let e = Error::AmbiguousMatch { path: "items".to_string(), count: 12 };
    assert_eq!(e.message(), "ambiguous match at path `items`: 12 candidates matched");
}

#[test]
fn nested_path_in_error() {
    let config = DiffConfig::new().with_match_config(MatchConfig::new().with_config_at(
        "spec.list",
        ArrayMatchConfig::new(ArrayMatchMode::Key("id".to_string())),
    ));
    let actual = obj(vec![("spec", obj(vec![("list", arr(vec![]))]))]);
    let expected = obj(vec![("spec", obj(vec![("list", arr(vec![obj(vec![("x", num(1))])]))]))]);
    let Err(err) = diff(&actual, &expected, &config) else {
        panic!("expected an error");
    };
    assert!(matches!(&err, Error::MissingKeyField { path, key_field } if path == "spec.list" && key_field == "id"));
}

// ---------------------------------------------------------------------------
// Model and configuration
// ---------------------------------------------------------------------------

#[test]
fn model_helpers() {
    assert!(DiffTree { roots: vec![] }.is_empty());
    assert!(!PathSegment::Key("k".to_string()).is_array());
    assert!(PathSegment::Index(0).is_array());
    assert!(PathSegment::Unmatched.is_array());
    assert!(PathSegment::NamedElement { match_key: "a".to_string(), match_value: "b".to_string() }
        .is_array());
}

#[test]
fn config_lookups() {
    let config = DiffConfig::default();
    assert!(matches!(config.default_array_mode(), ArrayMatchMode::Index));
    assert!(matches!(config.default_ambiguous_strategy(), AmbiguousMatchStrategy::Strict));
    assert!(config.match_config().config_at("anything").is_none());

    let config = DiffConfig::new()
        .with_fallback_array_mode(ArrayMatchMode::Contains)
        .with_fallback_ambiguous_strategy(AmbiguousMatchStrategy::Silent)
        .with_match_config(
            MatchConfig::new()
                .with_config_at("a", ArrayMatchConfig::new(ArrayMatchMode::Index))
                .with_config_at(
                    "a",
                    ArrayMatchConfig::new(ArrayMatchMode::Key("k".to_string()))
                        .with_ambiguous_strategy(AmbiguousMatchStrategy::BestMatch),
                ),
        );
    assert!(matches!(config.default_array_mode(), ArrayMatchMode::Contains));
    assert!(matches!(config.default_ambiguous_strategy(), AmbiguousMatchStrategy::Silent));
    let at = config.match_config().config_at("a").expect("configured");
    assert!(matches!(at.mode(), ArrayMatchMode::Key(k) if k == "k"));
    assert!(matches!(at.ambiguous_strategy(), Some(AmbiguousMatchStrategy::BestMatch)));
    assert!(config.match_config().config_at("b").is_none());
    assert!(ArrayMatchConfig::new(ArrayMatchMode::Index).ambiguous_strategy().is_none());
    assert!(matches!(AmbiguousMatchStrategy::default(), AmbiguousMatchStrategy::Strict));
    assert!(MatchConfig::default().config_at("a").is_none());
}

// ---------------------------------------------------------------------------
// Scalars and lines
// ---------------------------------------------------------------------------

#[test]
fn quoting_rules() {
    for s in ["", "true", "False", "NULL", "on", "Off", "1", "-2", "+3", "1.5", "1.", ".5", "1e5",
        "1E-3", "inf", "-Infinity", "NaN", "a:b", "x#y", "two\nlines", "car\rriage", " lead", "trail ",
        "{x", "[x", "*x", "&x", "!x", "|x", ">x"]
    {
        assert!(needs_yaml_quoting(s), "{s:?} should be quoted");
    }
    for s in ["hello", ".", "1e", "e5", "1.2.3", "infinite", "nan1", "12abc", "a b", "x{", "1_000",
        "True1", "-", "+"]
    {
        assert!(!needs_yaml_quoting(s), "{s:?} should not be quoted");
    }
}

#[test]
fn scalar_formatting() {
    assert_eq!(format_scalar(&Value::Null), "null");
    assert_eq!(format_scalar(&Value::Bool(true)), "true");
    assert_eq!(format_scalar(&Value::Bool(false)), "false");
    assert_eq!(format_scalar(&num(-12)), "-12");
    assert_eq!(format_scalar(&float("2.5")), "2.5");
    assert_eq!(format_scalar(&st("plain")), "plain");
    assert_eq!(format_scalar(&st("42")), "\"42\"");
    assert_eq!(format_scalar(&st("a \"b\": \\")), "\"a \\\"b\\\": \\\\\"");
    assert_eq!(format_scalar(&st("a\nb\rc")), "\"a\\nb\\rc\"");
    assert_eq!(format_scalar(&float("1\n2")), "\"1\\n2\"");
}

#[test]
fn lines_are_prefixed_and_indented() {
    let mut out = String::from("x\n");
    push_line(&mut out, '+', 3, "key: v");
    push_line(&mut out, ' ', 0, "");
    assert_eq!(out, "x\n+   key: v\n \n");
}

#[test]
fn contained_values_compare_equal() {
    let actual = obj(vec![
        ("a", obj(vec![("b", num(1)), ("c", arr(vec![num(1), num(2)])), ("d", st("x"))])),
        ("e", float("-0.0")),
    ]);
    let expected = obj(vec![("a", obj(vec![("c", arr(vec![num(1), num(2)]))])), ("e", float("0.0"))]);
    assert!(value_contains(&actual, &expected));
    assert!(matches!(
        diff_values(&actual, &expected, &DiffConfig::default(), ""),
        Ok(DiffResult::Equal)
    ));
}

#[test]
fn index_matching_tree_is_empty_exactly_when_actual_subsumes_expected() {
    let config = DiffConfig::default();
    let empty = |a: &Value, e: &Value| diff(a, e, &config).expect("valid").is_empty();
    assert!(empty(&arr(vec![num(1), num(2), num(3)]), &arr(vec![num(1), num(2)])));
    assert!(!empty(&arr(vec![num(1)]), &arr(vec![num(1), num(2)])));
    assert!(!empty(&arr(vec![num(2), num(1)]), &arr(vec![num(1), num(2)])));
    assert!(empty(
        &obj(vec![("a", obj(vec![("b", num(1)), ("c", num(2))])), ("d", Value::Null)]),
        &obj(vec![("a", obj(vec![("b", num(1))]))]),
    ));
    assert!(!empty(&obj(vec![("a", obj(vec![("c", num(2))]))]), &obj(vec![("a", obj(vec![("b", num(1))]))])));
    assert!(empty(
        &arr(vec![obj(vec![("x", num(1)), ("y", num(2))]), num(7)]),
        &arr(vec![obj(vec![("x", num(1))])]),
    ));
}

#[test]
fn extra_actual_keys_at_any_depth_only_change_omitted_counts() {
    let expected = obj(vec![(
        "spec",
        obj(vec![("items", arr(vec![obj(vec![("name", st("a")), ("v", num(1))])]))]),
    )]);
    let small = obj(vec![(
        "spec",
        obj(vec![("items", arr(vec![obj(vec![("name", st("a")), ("v", num(2))])]))]),
    )]);
    let large = obj(vec![
        (
            "spec",
            obj(vec![
                ("items", arr(vec![obj(vec![("name", st("a")), ("v", num(2)), ("w", num(3))])])),
                ("extra", st("x")),
            ]),
        ),
        ("top", Value::Bool(true)),
    ]);
    let t1 = diff(&small, &expected, &DiffConfig::default()).expect("valid");
    let t2 = diff(&large, &expected, &DiffConfig::default()).expect("valid");
    fn strip(n: &DiffNode) -> String {
        match n {
            DiffNode::Container { segment, children, .. } => {
                let inner: Vec<String> = children.iter().map(strip).collect();
                format!("{}[{}]", format_segment_label(segment), inner.join(","))
            }
            DiffNode::Leaf { segment, kind } => {
                let k = match kind {
                    DiffKind::Changed { actual, expected } => format!("C {:?} {:?}", actual, expected),
                    DiffKind::Missing { expected } => format!("M {:?}", expected),
                    DiffKind::TypeMismatch { actual, expected, .. } => {
                        format!("T {:?} {:?}", actual, expected)
                    }
                    DiffKind::Ambiguous { candidates } => format!("A {}", candidates),
                };
                format!("{}={}", format_segment_label(segment), k)
            }
        }
    }
    let s1: Vec<String> = t1.roots.iter().map(strip).collect();
    let s2: Vec<String> = t2.roots.iter().map(strip).collect();
    assert_eq!(s1, s2);
    let DiffNode::Container { omitted_count: o1, .. } = &t1.roots[0] else { panic!("container") };
    let DiffNode::Container { omitted_count: o2, .. } = &t2.roots[0] else { panic!("container") };
    assert_eq!((*o1, *o2), (0, 1));
}

#[test]
fn diff_results_are_well_shaped() {
    let actual = obj(vec![("a", num(1)), ("b", obj(vec![("c", st("x"))])), ("d", arr(vec![num(5)]))]);
    let expected = obj(vec![("a", num(2)), ("b", obj(vec![("c", num(3))])), ("d", arr(vec![num(5)]))]);
    let tree = diff(&actual, &expected, &DiffConfig::default()).expect("valid");
    assert_eq!(tree.roots.len(), 2);
    let DiffNode::Leaf { kind: DiffKind::Changed { actual: a, expected: e }, .. } = &tree.roots[0] else {
        panic!("changed leaf");
    };
    assert!(a.is_scalar() && e.is_scalar() && !a.equals(e));
    let DiffNode::Container { children, .. } = &tree.roots[1] else { panic!("container") };
    assert_eq!(children.len(), 1);
    assert!(matches!(
        &children[0],
        DiffNode::Leaf { kind: DiffKind::TypeMismatch { actual_type: "string", expected_type: "number", .. }, .. }
    ));
}

#[test]
fn checked_value_comparison_matches_the_unchecked_one() {
    let actual = obj(vec![("a", num(1))]);
    let expected = obj(vec![("a", num(2))]);
    let config = DiffConfig::default();
    let checked = cool_diff::diff::diff_values_checked(&actual, &expected, &config, "");
    assert!(matches!(checked, Some(Ok(DiffResult::Children { .. }))));
    assert!(matches!(
        cool_diff::diff::diff_values_checked(&actual, &actual, &config, ""),
        Some(Ok(DiffResult::Equal))
    ));
}

#[test]
fn a_path_configured_twice_keeps_the_last_setting() {
    let config = MatchConfig::new()
        .with_config_at("items", ArrayMatchConfig::new(ArrayMatchMode::Contains))
        .with_config_at("items", ArrayMatchConfig::new(ArrayMatchMode::Key("id".to_string())));
    assert!(matches!(
        config.config_at("items").map(|c| c.mode()),
        Some(ArrayMatchMode::Key(k)) if k == "id"
    ));
}
