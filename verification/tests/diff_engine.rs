use cool_diff::diff::{DiffResult, diff_values};
use cool_diff::{
    AmbiguousMatchStrategy, ArrayMatchConfig, ArrayMatchMode, DiffConfig, DiffKind, DiffNode,
    Error, MatchConfig, PathSegment, Value, diff,
};

fn obj(pairs: Vec<(&str, Value)>) -> Value {
    Value::from_entries(pairs.into_iter().map(|(k, v)| (k.to_string(), v)).collect())
}

fn arr(items: Vec<Value>) -> Value {
    Value::Array(items)
}

fn st(s: &str) -> Value {
    Value::from_text(s)
}

fn num(i: i64) -> Value {
    Value::from_i64(i)
}

fn default_config() -> DiffConfig {
    DiffConfig::default()
}

fn is_key(segment: &PathSegment, key: &str) -> bool {
    matches!(segment, PathSegment::Key(k) if k == key)
}

#[test]
fn object_key_order_does_not_affect_equality() {
    let actual = obj(vec![("z", num(1)), ("a", num(2)), ("m", num(3))]);
    let expected = obj(vec![("m", num(3)), ("z", num(1)), ("a", num(2))]);
    let tree = diff(&actual, &expected, &default_config()).expect("diff with valid inputs");
    assert!(tree.is_empty());
}

#[test]
fn object_key_order_does_not_affect_diffs() {
    let actual = obj(vec![("z", num(1)), ("a", num(2))]);
    let expected = obj(vec![("a", num(99)), ("z", num(1))]);
    let tree = diff(&actual, &expected, &default_config()).expect("diff with valid inputs");

    assert_eq!(tree.roots.len(), 1);
    let DiffNode::Leaf { segment, kind } = &tree.roots[0] else {
        panic!("expected Leaf");
    };
    assert!(is_key(segment, "a"));
    assert!(matches!(kind, DiffKind::Changed { .. }));
}

#[test]
fn equal_objects_produce_empty_diff() {
    let actual = obj(vec![("a", num(1)), ("b", st("hello"))]);
    let expected = obj(vec![("a", num(1)), ("b", st("hello"))]);
    let tree = diff(&actual, &expected, &default_config()).expect("diff with valid inputs");
    assert!(tree.is_empty());
}

#[test]
fn scalar_changed() {
    let actual = obj(vec![("a", obj(vec![("b", obj(vec![("c", st("foo"))]))]))]);
    let expected = obj(vec![("a", obj(vec![("b", obj(vec![("c", st("bar"))]))]))]);
    let tree = diff(&actual, &expected, &default_config()).expect("diff with valid inputs");

    assert_eq!(tree.roots.len(), 1);
    let DiffNode::Container { segment, children, .. } = &tree.roots[0] else {
        panic!("expected Container");
    };
    assert!(is_key(segment, "a"));

    let DiffNode::Container { segment, children, .. } = &children[0] else {
        panic!("expected Container");
    };
    assert!(is_key(segment, "b"));

    let DiffNode::Leaf { segment, kind } = &children[0] else {
        panic!("expected Leaf");
    };
    assert!(is_key(segment, "c"));
    assert!(matches!(kind, DiffKind::Changed { actual, expected }
        if actual.equals(&st("foo")) && expected.equals(&st("bar"))
    ));
}

#[test]
fn missing_key() {
    let actual = obj(vec![("a", num(1))]);
    let expected = obj(vec![("a", num(1)), ("b", num(2))]);
    let tree = diff(&actual, &expected, &default_config()).expect("diff with valid inputs");

    assert_eq!(tree.roots.len(), 1);
    let DiffNode::Leaf { segment, kind } = &tree.roots[0] else {
        panic!("expected Leaf");
    };
    assert!(is_key(segment, "b"));
    assert!(matches!(kind, DiffKind::Missing { expected } if expected.equals(&num(2))));
}

#[test]
fn type_mismatch() {
    let actual = obj(vec![("a", num(42))]);
    let expected = obj(vec![("a", st("42"))]);
    let tree = diff(&actual, &expected, &default_config()).expect("diff with valid inputs");

    assert_eq!(tree.roots.len(), 1);
    let DiffNode::Leaf { segment, kind } = &tree.roots[0] else {
        panic!("expected Leaf");
    };
    assert!(is_key(segment, "a"));
    assert!(matches!(
        kind,
        DiffKind::TypeMismatch { actual_type: "number", expected_type: "string", .. }
    ));
}

#[test]
fn omitted_count_reflects_extra_actual_keys() {
    let actual = obj(vec![("a", num(1)), ("b", num(2)), ("c", num(3))]);
    let expected = obj(vec![("a", num(99))]);
    let tree = diff(&actual, &expected, &default_config()).expect("diff with valid inputs");

    assert_eq!(tree.roots.len(), 1);
    let DiffNode::Leaf { kind, .. } = &tree.roots[0] else {
        panic!("expected Leaf for Changed");
    };
    assert!(matches!(kind, DiffKind::Changed { .. }));

    let result = diff_values(&actual, &expected, &default_config(), "")
        .expect("diff_values with valid inputs");
    assert!(matches!(result, DiffResult::Children { omitted_count: 2, .. }));
}

#[test]
fn nested_missing_key() {
    let actual = obj(vec![("a", obj(vec![("x", num(1))]))]);
    let expected = obj(vec![("a", obj(vec![("x", num(1)), ("y", num(2))]))]);
    let tree = diff(&actual, &expected, &default_config()).expect("diff with valid inputs");

    assert_eq!(tree.roots.len(), 1);
    let DiffNode::Container { segment, children, omitted_count, .. } = &tree.roots[0] else {
        panic!("expected Container");
    };
    assert!(is_key(segment, "a"));
    assert_eq!(*omitted_count, 0);

    assert_eq!(children.len(), 1);
    let DiffNode::Leaf { segment, kind } = &children[0] else {
        panic!("expected Leaf");
    };
    assert!(is_key(segment, "y"));
    assert!(matches!(kind, DiffKind::Missing { expected } if expected.equals(&num(2))));
}

#[test]
fn index_based_array_equal() {
    let actual = obj(vec![("items", arr(vec![num(1), num(2), num(3)]))]);
    let expected = obj(vec![("items", arr(vec![num(1), num(2), num(3)]))]);
    let tree = diff(&actual, &expected, &default_config()).expect("diff with valid inputs");
    assert!(tree.is_empty());
}

#[test]
fn index_based_array_changed() {
    let actual = obj(vec![("items", arr(vec![num(1), num(2), num(3)]))]);
    let expected = obj(vec![("items", arr(vec![num(1), num(99), num(3)]))]);
    let tree = diff(&actual, &expected, &default_config()).expect("diff with valid inputs");

    assert_eq!(tree.roots.len(), 1);
    let DiffNode::Container { children, .. } = &tree.roots[0] else {
        panic!("expected Container");
    };
    assert_eq!(children.len(), 1);
    let DiffNode::Leaf { segment, kind } = &children[0] else {
        panic!("expected Leaf");
    };
    assert!(matches!(segment, PathSegment::Index(1)));
    assert!(matches!(kind, DiffKind::Changed { actual, expected }
        if actual.equals(&num(2)) && expected.equals(&num(99))
    ));
}

#[test]
fn index_based_array_missing_element() {
    let actual = obj(vec![("items", arr(vec![num(1)]))]);
    let expected = obj(vec![("items", arr(vec![num(1), num(2), num(3)]))]);
    let tree = diff(&actual, &expected, &default_config()).expect("diff with valid inputs");

    let DiffNode::Container { children, .. } = &tree.roots[0] else {
        panic!("expected Container");
    };
    assert_eq!(children.len(), 2);

    let DiffNode::Leaf { segment, kind } = &children[0] else {
        panic!("expected Leaf");
    };
    assert!(matches!(segment, PathSegment::Index(1)));
    assert!(matches!(kind, DiffKind::Missing { expected } if expected.equals(&num(2))));

    let DiffNode::Leaf { segment, kind } = &children[1] else {
        panic!("expected Leaf");
    };
    assert!(matches!(segment, PathSegment::Index(2)));
    assert!(matches!(kind, DiffKind::Missing { expected } if expected.equals(&num(3))));
}

#[test]
fn index_based_array_omitted_count() {
    let actual = obj(vec![("items", arr(vec![num(1), num(2), num(3), num(4), num(5)]))]);
    let expected = obj(vec![("items", arr(vec![num(1), num(99)]))]);
    let tree = diff(&actual, &expected, &default_config()).expect("diff with valid inputs");

    let DiffNode::Container { segment, children, omitted_count, .. } = &tree.roots[0] else {
        panic!("expected Container for items key");
    };
    assert!(is_key(segment, "items"));
    assert_eq!(*omitted_count, 3);
    assert_eq!(children.len(), 1);
    assert!(matches!(
        &children[0],
        DiffNode::Leaf { segment: PathSegment::Index(1), kind: DiffKind::Changed { .. } }
    ));
}

fn config_with_key_at(path: &str, key: &str) -> DiffConfig {
    DiffConfig::new().with_match_config(
        MatchConfig::new()
            .with_config_at(path, ArrayMatchConfig::new(ArrayMatchMode::Key(key.to_owned()))),
    )
}

// Key matching names a single distinguished field (`ArrayMatchMode::Key`).
// Elements identified only by several fields together, such as a port and
// its protocol, have no composite-key mode here; they can be matched by
// content instead.
fn named(name: &str, rest: Vec<(&str, Value)>) -> Value {
    let mut pairs = vec![("name", st(name))];
    pairs.extend(rest);
    obj(pairs)
}

#[test]
fn key_based_array_equal() {
    let config = config_with_key_at("items", "name");
    let actual = obj(vec![(
        "items",
        arr(vec![named("a", vec![("val", num(1))]), named("b", vec![("val", num(2))])]),
    )]);
    let expected = obj(vec![("items", arr(vec![named("a", vec![("val", num(1))])]))]);
    let tree = diff(&actual, &expected, &config).expect("diff with valid inputs");
    assert!(tree.is_empty());
}

#[test]
fn key_based_array_changed() {
    let config = config_with_key_at("items", "name");
    let actual = obj(vec![("items", arr(vec![named("FOO", vec![("value", st("bar"))])]))]);
    let expected = obj(vec![("items", arr(vec![named("FOO", vec![("value", st("baz"))])]))]);
    let tree = diff(&actual, &expected, &config).expect("diff with valid inputs");

    assert_eq!(tree.roots.len(), 1);
    let DiffNode::Container { children, .. } = &tree.roots[0] else {
        panic!("expected Container for items");
    };
    assert_eq!(children.len(), 1);
    let DiffNode::Container { segment, children, .. } = &children[0] else {
        panic!("expected Container for named element");
    };
    assert!(matches!(segment, PathSegment::NamedElement { match_key, match_value }
        if match_key == "name" && match_value == "FOO"
    ));
    assert_eq!(children.len(), 1);
    let DiffNode::Leaf { segment, kind } = &children[0] else {
        panic!("expected Leaf");
    };
    assert!(is_key(segment, "value"));
    assert!(matches!(kind, DiffKind::Changed { actual, expected }
        if actual.equals(&st("bar")) && expected.equals(&st("baz"))
    ));
}

#[test]
fn key_based_array_missing_element() {
    let config = config_with_key_at("items", "name");
    let actual = obj(vec![("items", arr(vec![named("a", vec![])]))]);
    let expected = obj(vec![("items", arr(vec![named("missing", vec![])]))]);
    let tree = diff(&actual, &expected, &config).expect("diff with valid inputs");

    let DiffNode::Container { children, .. } = &tree.roots[0] else {
        panic!("expected Container for items");
    };
    assert_eq!(children.len(), 1);
    let DiffNode::Leaf { segment, kind } = &children[0] else {
        panic!("expected Leaf");
    };
    assert!(matches!(segment, PathSegment::Unmatched));
    assert!(matches!(kind, DiffKind::Missing { .. }));
}

#[test]
fn key_based_array_omitted_count() {
    let config = config_with_key_at("items", "name");
    let actual = obj(vec![(
        "items",
        arr(vec![named("a", vec![]), named("b", vec![]), named("c", vec![])]),
    )]);
    let expected = obj(vec![("items", arr(vec![named("b", vec![])]))]);
    let tree = diff(&actual, &expected, &config).expect("diff with valid inputs");
    assert!(tree.is_empty());

    let actual = obj(vec![(
        "items",
        arr(vec![named("a", vec![]), named("b", vec![("x", num(1))]), named("c", vec![])]),
    )]);
    let expected = obj(vec![("items", arr(vec![named("b", vec![("x", num(99))])]))]);
    let tree = diff(&actual, &expected, &config).expect("diff with valid inputs");

    let DiffNode::Container { children: _children, omitted_count, .. } = &tree.roots[0] else {
        panic!("expected Container for items");
    };
    assert_eq!(*omitted_count, 2);
}

fn config_with_contains_at(path: &str) -> DiffConfig {
    DiffConfig::new().with_match_config(
        MatchConfig::new().with_config_at(path, ArrayMatchConfig::new(ArrayMatchMode::Contains)),
    )
}

#[test]
fn contains_array_scalar_equal() {
    let config = config_with_contains_at("items");
    let actual = obj(vec![("items", arr(vec![st("a"), st("b"), st("c")]))]);
    let expected = obj(vec![("items", arr(vec![st("b")]))]);
    let tree = diff(&actual, &expected, &config).expect("diff with valid inputs");
    assert!(tree.is_empty());
}

#[test]
fn contains_array_object_subset_equal() {
    let config = config_with_contains_at("items");
    let actual = obj(vec![(
        "items",
        arr(vec![obj(vec![("a", num(1)), ("b", num(2))]), obj(vec![("c", num(3))])]),
    )]);
    let expected = obj(vec![("items", arr(vec![obj(vec![("a", num(1))])]))]);
    let tree = diff(&actual, &expected, &config).expect("diff with valid inputs");
    assert!(tree.is_empty());
}

#[test]
fn contains_array_missing_element() {
    let config = config_with_contains_at("items");
    let actual = obj(vec![("items", arr(vec![st("a"), st("b")]))]);
    let expected = obj(vec![("items", arr(vec![st("x")]))]);
    let tree = diff(&actual, &expected, &config).expect("diff with valid inputs");

    let DiffNode::Container { children, .. } = &tree.roots[0] else {
        panic!("expected Container for items");
    };
    assert_eq!(children.len(), 1);
    let DiffNode::Leaf { segment, kind } = &children[0] else {
        panic!("expected Leaf");
    };
    assert!(matches!(segment, PathSegment::Unmatched));
    assert!(matches!(kind, DiffKind::Missing { expected } if expected.equals(&st("x"))));
}

#[test]
fn contains_array_match_not_at_first_position() {
    let config = config_with_contains_at("items");
    let actual = obj(vec![("items", arr(vec![obj(vec![("a", num(1))]), obj(vec![("b", num(1))])]))]);
    let expected = obj(vec![("items", arr(vec![obj(vec![("b", num(1))])]))]);
    let tree = diff(&actual, &expected, &config).expect("diff with valid inputs");
    assert!(tree.is_empty());
}

#[test]
fn contains_array_omitted_count() {
    let config = config_with_contains_at("items");
    let actual = obj(vec![("items", arr(vec![st("a"), st("b"), st("c")]))]);
    let expected = obj(vec![("items", arr(vec![st("x")]))]);
    let tree = diff(&actual, &expected, &config).expect("diff with valid inputs");

    let DiffNode::Container { omitted_count, .. } = &tree.roots[0] else {
        panic!("expected Container for items");
    };
    assert_eq!(*omitted_count, 3);
}

fn config_with_key_and_strategy(path: &str, key: &str, strategy: AmbiguousMatchStrategy) -> DiffConfig {
    DiffConfig::new().with_match_config(MatchConfig::new().with_config_at(
        path,
        ArrayMatchConfig::new(ArrayMatchMode::Key(key.to_owned())).with_ambiguous_strategy(strategy),
    ))
}

fn config_with_contains_and_strategy(path: &str, strategy: AmbiguousMatchStrategy) -> DiffConfig {
    DiffConfig::new().with_match_config(MatchConfig::new().with_config_at(
        path,
        ArrayMatchConfig::new(ArrayMatchMode::Contains).with_ambiguous_strategy(strategy),
    ))
}

#[test]
fn ambiguous_key_best_match_picks_fewest_diffs() {
    let config = config_with_key_and_strategy("items", "name", AmbiguousMatchStrategy::BestMatch);
    let actual = obj(vec![(
        "items",
        arr(vec![
            named("FOO", vec![("value", st("wrong"))]),
            named("FOO", vec![("value", st("almost"))]),
        ]),
    )]);
    let expected = obj(vec![("items", arr(vec![named("FOO", vec![("value", st("almost"))])]))]);
    let tree = diff(&actual, &expected, &config).expect("diff with valid inputs");
    assert!(tree.is_empty());
}

#[test]
fn ambiguous_key_best_match_with_diffs() {
    let config = config_with_key_and_strategy("items", "name", AmbiguousMatchStrategy::BestMatch);
    let actual = obj(vec![(
        "items",
        arr(vec![
            named("FOO", vec![("a", num(1)), ("b", num(2))]),
            named("FOO", vec![("a", num(99)), ("b", num(99))]),
        ]),
    )]);
    let expected =
        obj(vec![("items", arr(vec![named("FOO", vec![("a", num(1)), ("b", num(99))])]))]);
    let tree = diff(&actual, &expected, &config).expect("diff with valid inputs");

    assert!(!tree.is_empty());
    let DiffNode::Container { children, .. } = &tree.roots[0] else {
        panic!("expected Container for items");
    };
    assert_eq!(children.len(), 1);
}

#[test]
fn ambiguous_contains_best_match() {
    let config = config_with_contains_and_strategy("items", AmbiguousMatchStrategy::BestMatch);
    let actual = obj(vec![(
        "items",
        arr(vec![obj(vec![("a", num(1)), ("b", num(2))]), obj(vec![("a", num(1)), ("c", num(3))])]),
    )]);
    let expected = obj(vec![("items", arr(vec![obj(vec![("a", num(1))])]))]);
    let tree = diff(&actual, &expected, &config).expect("diff with valid inputs");
    assert!(tree.is_empty());
}

#[test]
fn null_vs_empty_array() {
    let actual = obj(vec![("foo", Value::Null)]);
    let expected = obj(vec![("foo", arr(vec![]))]);
    let tree = diff(&actual, &expected, &default_config()).expect("diff with valid inputs");

    assert_eq!(tree.roots.len(), 1);
    let DiffNode::Leaf { kind, .. } = &tree.roots[0] else {
        panic!("expected Leaf");
    };
    assert!(matches!(
        kind,
        DiffKind::TypeMismatch { actual_type: "null", expected_type: "array", .. }
    ));
}

#[test]
fn null_vs_empty_object() {
    let actual = obj(vec![("bar", Value::Null)]);
    let expected = obj(vec![("bar", obj(vec![]))]);
    let tree = diff(&actual, &expected, &default_config()).expect("diff with valid inputs");

    assert_eq!(tree.roots.len(), 1);
    let DiffNode::Leaf { kind, .. } = &tree.roots[0] else {
        panic!("expected Leaf");
    };
    assert!(matches!(
        kind,
        DiffKind::TypeMismatch { actual_type: "null", expected_type: "object", .. }
    ));
}

#[test]
fn missing_key_field_returns_error() {
    let config = config_with_key_at("items", "name");
    let actual = obj(vec![("items", arr(vec![named("a", vec![])]))]);
    let expected = obj(vec![("items", arr(vec![obj(vec![("value", st("foo"))])]))]);
    let result = diff(&actual, &expected, &config);

    let Err(err) = result else {
        panic!("expected an error");
    };
    assert!(matches!(err, Error::MissingKeyField { .. }));
    assert!(err.message().contains("missing the key field `name`"));
}

#[test]
fn strict_ambiguous_key_match_returns_error() {
    let config = config_with_key_and_strategy("items", "name", AmbiguousMatchStrategy::Strict);
    let actual = obj(vec![(
        "items",
        arr(vec![named("FOO", vec![("value", st("a"))]), named("FOO", vec![("value", st("b"))])]),
    )]);
    let expected = obj(vec![("items", arr(vec![named("FOO", vec![("value", st("a"))])]))]);
    let result = diff(&actual, &expected, &config);

    let Err(err) = result else {
        panic!("expected an error");
    };
    assert!(matches!(err, Error::AmbiguousMatch { count: 2, .. }));
}

#[test]
fn strict_ambiguous_contains_match_returns_error() {
    let config = config_with_contains_and_strategy("items", AmbiguousMatchStrategy::Strict);
    let actual = obj(vec![(
        "items",
        arr(vec![obj(vec![("a", num(1)), ("b", num(2))]), obj(vec![("a", num(1)), ("c", num(3))])]),
    )]);
    let expected = obj(vec![("items", arr(vec![obj(vec![("a", num(1))])]))]);
    let result = diff(&actual, &expected, &config);

    let Err(err) = result else {
        panic!("expected an error");
    };
    assert!(matches!(err, Error::AmbiguousMatch { count: 2, .. }));
}
