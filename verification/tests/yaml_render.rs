use cool_diff::render::yaml::{format_segment_label, omitted_unit};
use cool_diff::{
    ArrayMatchConfig, ArrayMatchMode, ChildKind, DiffConfig, DiffKind, DiffNode, DiffRenderer,
    DiffTree, MatchConfig, PathSegment, Value, YamlRenderer, diff,
};

fn obj(pairs: Vec<(&str, Value)>) -> Value {
    Value::from_entries(pairs.into_iter().map(|(k, v)| (k.to_string(), v)).collect())
}

fn arr(items: Vec<Value>) -> Value {
    Value::Array(items)
}

fn st(s: &str) -> Value {
    Value::from_text(s)
}

fn num(i: i64) -> Value {
    Value::from_i64(i)
}

fn render(actual: &Value, expected: &Value) -> String {
    let config = DiffConfig::default();
    let tree = diff(actual, expected, &config).expect("diff with valid inputs");
    YamlRenderer::new().render(&tree)
}

#[test]
fn scalar_changed_renders_minus_plus() {
    let output = render(
        &obj(vec![("name", st("actual_value"))]),
        &obj(vec![("name", st("expected_value"))]),
    );
    assert_eq!(output, "-name: expected_value\n+name: actual_value\n");
}

#[test]
fn nested_scalar_changed() {
    let output = render(
        &obj(vec![("a", obj(vec![("b", st("actual"))]))]),
        &obj(vec![("a", obj(vec![("b", st("expected"))]))]),
    );
    assert_eq!(output, " a:\n-  b: expected\n+  b: actual\n");
}

#[test]
fn missing_scalar_key() {
    let output = render(&obj(vec![("a", num(1))]), &obj(vec![("a", num(1)), ("b", num(2))]));
    assert_eq!(output, "-b: 2\n");
}

#[test]
fn equal_values_render_empty() {
    let output = render(&obj(vec![("a", num(1))]), &obj(vec![("a", num(1))]));
    assert_eq!(output, "");
}

#[test]
fn type_mismatch_scalar() {
    let output = render(&obj(vec![("a", num(42))]), &obj(vec![("a", st("42"))]));
    assert_eq!(output, "-a: \"42\" # expected: string\n+a: 42   # actual: number\n");
}

#[test]
fn type_mismatch_null_vs_object() {
    let output =
        render(&obj(vec![("a", Value::Null)]), &obj(vec![("a", obj(vec![("b", num(1))]))]));
    assert_eq!(output, "-a:      # expected: object\n-  b: 1\n+a: null # actual: null\n");
}

#[test]
fn missing_object_subtree() {
    let output = render(
        &obj(vec![("a", num(1))]),
        &obj(vec![("a", num(1)), ("b", obj(vec![("x", num(1)), ("y", num(2))]))]),
    );
    assert_eq!(output, "-b:\n-  x: 1\n-  y: 2\n");
}

#[test]
fn missing_array_subtree() {
    let output = render(
        &obj(vec![("a", num(1))]),
        &obj(vec![("a", num(1)), ("items", arr(vec![num(1), num(2), num(3)]))]),
    );
    assert_eq!(output, "-items:\n-  - 1\n-  - 2\n-  - 3\n");
}

#[test]
fn missing_nested_object_in_array() {
    let output = render(
        &obj(vec![("a", num(1))]),
        &obj(vec![
            ("a", num(1)),
            ("items", arr(vec![obj(vec![("name", st("foo")), ("value", st("bar"))])])),
        ]),
    );
    assert_eq!(output, "-items:\n-  - name: foo\n-    value: bar\n");
}

#[test]
fn missing_subtree_truncated() {
    let config = DiffConfig::default();
    let actual = obj(vec![("a", num(1))]);
    let expected = obj(vec![
        ("a", num(1)),
        ("b", obj(vec![("p", num(1)), ("q", num(2)), ("r", num(3)), ("s", num(4))])),
    ]);
    let tree = diff(&actual, &expected, &config).expect("diff with valid inputs");
    let output = YamlRenderer::new().with_max_lines_per_side(Some(2)).render(&tree);
    assert_eq!(output, "-b:\n-  p: 1\n-  q: 2\n-  # 2 more lines\n");
}

#[test]
fn truncation_disabled_renders_all_lines() {
    let config = DiffConfig::default();
    let actual = obj(vec![("a", num(1))]);
    let expected = obj(vec![
        ("a", num(1)),
        ("b", obj(vec![("x", num(1)), ("y", num(2)), ("z", num(3))])),
    ]);
    let tree = diff(&actual, &expected, &config).expect("diff with valid inputs");
    let output = YamlRenderer::new().with_max_lines_per_side(None).render(&tree);
    assert_eq!(output, "-b:\n-  x: 1\n-  y: 2\n-  z: 3\n");
}

#[test]
fn omitted_fields_comment() {
    let output = render(
        &obj(vec![("outer", obj(vec![("a", num(1)), ("b", num(2)), ("c", num(3))]))]),
        &obj(vec![("outer", obj(vec![("a", num(99))]))]),
    );
    assert_eq!(output, " outer:\n   # 2 fields omitted\n-  a: 99\n+  a: 1\n");
}

// ---------------------------------------------------------------------------
// Further renderer behaviour
// ---------------------------------------------------------------------------

#[test]
fn readme_example_renders() {
    let actual = obj(vec![(
        "server",
        obj(vec![("host", st("0.0.0.0")), ("port", num(8080)), ("tls", Value::Bool(true))]),
    )]);
    let expected = obj(vec![("server", obj(vec![("port", num(3000))]))]);
    let output = render(&actual, &expected);
    assert_eq!(output, " server:\n   # 2 fields omitted\n-  port: 3000\n+  port: 8080\n");
}

#[test]
fn single_omitted_item_uses_singular_unit() {
    let actual = obj(vec![("items", arr(vec![num(1), num(2)]))]);
    let expected = obj(vec![("items", arr(vec![num(5)]))]);
    let output = render(&actual, &expected);
    assert_eq!(output, " items:\n   # 1 item omitted\n-  - # index 0: 5\n+  - # index 0: 1\n");
}

#[test]
fn named_element_container_has_no_colon() {
    let config = DiffConfig::new().with_match_config(MatchConfig::new().with_config_at(
        "items",
        ArrayMatchConfig::new(ArrayMatchMode::Key("name".to_owned())),
    ));
    let actual = obj(vec![(
        "items",
        arr(vec![obj(vec![("name", st("app")), ("image", st("v1")), ("port", num(80))])]),
    )]);
    let expected =
        obj(vec![("items", arr(vec![obj(vec![("name", st("app")), ("image", st("v2"))])]))]);
    let tree = diff(&actual, &expected, &config).expect("diff with valid inputs");
    let output = YamlRenderer::new().render(&tree);
    assert_eq!(
        output,
        " items:\n   - name: app\n     # 1 field omitted\n-    image: v2\n+    image: v1\n"
    );
}

#[test]
fn unmatched_contains_element_renders_missing() {
    let config = DiffConfig::new().with_match_config(
        MatchConfig::new().with_config_at("tags", ArrayMatchConfig::new(ArrayMatchMode::Contains)),
    );
    let actual = obj(vec![("tags", arr(vec![st("a"), st("b")]))]);
    let expected = obj(vec![("tags", arr(vec![st("z")]))]);
    let tree = diff(&actual, &expected, &config).expect("diff with valid inputs");
    let output = YamlRenderer::new().render(&tree);
    assert_eq!(output, " tags:\n   # 2 items omitted\n-  -: z\n");
}

#[test]
fn custom_indent_width() {
    let actual = obj(vec![("a", obj(vec![("b", st("x"))]))]);
    let expected = obj(vec![("a", obj(vec![("b", st("y"))]))]);
    let tree = diff(&actual, &expected, &DiffConfig::default()).expect("diff with valid inputs");
    let output = YamlRenderer::new().with_indent_width(4).render(&tree);
    assert_eq!(output, " a:\n-    b: y\n+    b: x\n");
}

#[test]
fn quoted_strings_escape_backslashes_and_quotes() {
    let actual = obj(vec![("a", st("x"))]);
    let expected = obj(vec![("a", st("say: \"hi\" \\ bye"))]);
    let output = render(&actual, &expected);
    assert_eq!(output, "-a: \"say: \\\"hi\\\" \\\\ bye\"\n+a: x\n");
}

#[test]
fn special_words_and_numbers_are_quoted() {
    let actual = obj(vec![("a", st("yes")), ("b", st("1e5")), ("c", st("-.5")), ("d", st("plain"))]);
    let expected = obj(vec![("a", st("no")), ("b", st("inf")), ("c", st("NaN")), ("d", st("x"))]);
    let output = render(&actual, &expected);
    assert_eq!(
        output,
        "-a: \"no\"\n+a: \"yes\"\n-b: \"inf\"\n+b: \"1e5\"\n-c: \"NaN\"\n+c: \"-.5\"\n-d: x\n+d: plain\n"
    );
}

#[test]
fn type_mismatch_pads_by_byte_length() {
    // "é" takes two bytes, so the shorter header is padded by byte count.
    let actual = obj(vec![("k", num(1))]);
    let expected = obj(vec![("k", st("é"))]);
    let output = render(&actual, &expected);
    assert_eq!(output, "-k: é  # expected: string\n+k: 1  # actual: number\n");
}

#[test]
fn nested_array_elements_render_dash_lines() {
    let actual = obj(vec![("a", num(1))]);
    let expected = obj(vec![("a", num(1)), ("m", arr(vec![arr(vec![num(1), num(2)]), obj(vec![])]))]);
    let output = render(&actual, &expected);
    assert_eq!(output, "-m:\n-  -\n-    - 1\n-    - 2\n");
}

#[test]
fn type_mismatch_with_compound_actual_renders_subtree() {
    let actual = obj(vec![("a", arr(vec![st("x")]))]);
    let expected = obj(vec![("a", st("v"))]);
    let output = render(&actual, &expected);
    assert_eq!(output, "-a: v # expected: string\n+a:   # actual: array\n+  - x\n");
}

#[test]
fn changed_leaf_with_compound_value_cannot_render() {
    let tree = DiffTree {
        roots: vec![DiffNode::leaf(
            PathSegment::Key("a".to_string()),
            DiffKind::changed(arr(vec![]), num(1)),
        )],
    };
    assert!(YamlRenderer::new().render_checked(&tree).is_none());
    assert_eq!(YamlRenderer::new().render(&tree), "");
}

#[test]
fn indentation_overflow_cannot_render() {
    let tree = DiffTree {
        roots: vec![DiffNode::container(
            PathSegment::Key("a".to_string()),
            ChildKind::Fields,
            0,
            vec![DiffNode::leaf(
                PathSegment::Key("b".to_string()),
                DiffKind::missing(obj(vec![("x", num(1))])),
            )],
        )],
    };
    assert!(YamlRenderer::new().with_indent_width(u16::MAX).render_checked(&tree).is_none());
    assert_eq!(
        YamlRenderer::new().with_indent_width(3).render_checked(&tree),
        Some(" a:\n-   b:\n-      x: 1\n".to_string())
    );
}

#[test]
fn empty_tree_renders_empty() {
    let tree = DiffTree { roots: vec![] };
    assert_eq!(YamlRenderer::new().render(&tree), "");
}

#[test]
fn truncation_marker_counts_remaining_lines() {
    let actual = obj(vec![]);
    let items: Vec<Value> = (0..25).map(num).collect();
    let expected = obj(vec![("list", arr(items))]);
    let tree = diff(&actual, &expected, &DiffConfig::default()).expect("diff with valid inputs");
    let output = YamlRenderer::new().render(&tree);
    let lines: Vec<&str> = output.lines().collect();
    assert_eq!(lines.len(), 22);
    assert_eq!(lines[0], "-list:");
    assert_eq!(lines[20], "-  - 19");
    assert_eq!(lines[21], "-  # 5 more lines");
}

#[test]
fn every_rendered_line_opens_with_an_indicator() {
    let actual = obj(vec![("a", obj(vec![("x", num(1)), ("y", arr(vec![num(1)]))])), ("n", Value::Null)]);
    let expected = obj(vec![
        ("a", obj(vec![("x", num(2)), ("y", arr(vec![num(1), obj(vec![("k", st("v"))])]))])),
        ("n", obj(vec![("deep", arr(vec![st("s")]))])),
        ("z", st("new")),
    ]);
    let output = render(&actual, &expected);
    assert!(!output.is_empty());
    for line in output.lines() {
        let first = line.chars().next().expect("no empty line");
        assert!(first == ' ' || first == '-' || first == '+', "line {line:?}");
    }
}

#[test]
fn labels_and_units() {
    assert_eq!(format_segment_label(&PathSegment::Key("spec".to_string())), "spec");
    assert_eq!(
        format_segment_label(&PathSegment::NamedElement {
            match_key: "name".to_string(),
            match_value: "app".to_string(),
        }),
        "- name: app"
    );
    assert_eq!(format_segment_label(&PathSegment::Index(12)), "- # index 12");
    assert_eq!(format_segment_label(&PathSegment::Unmatched), "-");
    assert_eq!(omitted_unit(ChildKind::Fields, 1), "field");
    assert_eq!(omitted_unit(ChildKind::Fields, 3), "fields");
    assert_eq!(omitted_unit(ChildKind::Items, 1), "item");
    assert_eq!(omitted_unit(ChildKind::Items, 0), "items");
}

#[test]
fn renderer_defaults_and_builders() {
    let r = YamlRenderer::new();
    assert_eq!(r.max_lines_per_side, Some(YamlRenderer::DEFAULT_MAX_LINES_PER_SIDE));
    assert_eq!(r.indent_width, YamlRenderer::DEFAULT_INDENT_WIDTH);
    assert_eq!(YamlRenderer::DEFAULT_MAX_LINES_PER_SIDE, 20);
    assert_eq!(YamlRenderer::DEFAULT_INDENT_WIDTH, 2);
    let d = YamlRenderer::default();
    assert_eq!(d.max_lines_per_side, Some(20));
    assert_eq!(d.indent_width, 2);
    let c = YamlRenderer::new().with_max_lines_per_side(None).with_indent_width(5);
    assert_eq!(c.max_lines_per_side, None);
    assert_eq!(c.indent_width, 5);
}

fn best_of_two(strategy: cool_diff::AmbiguousMatchStrategy) -> String {
    let config = DiffConfig::new().with_match_config(MatchConfig::new().with_config_at(
        "items",
        ArrayMatchConfig::new(ArrayMatchMode::Key("name".to_string()))
            .with_ambiguous_strategy(strategy),
    ));
    let actual = obj(vec![(
        "items",
        arr(vec![
            obj(vec![("name", st("FOO")), ("a", num(1)), ("b", num(2))]),
            obj(vec![("name", st("FOO")), ("a", num(99)), ("b", num(99))]),
        ]),
    )]);
    let expected =
        obj(vec![("items", arr(vec![obj(vec![("name", st("FOO")), ("a", num(1)), ("b", num(99))])]))]);
    let tree = diff(&actual, &expected, &config).expect("diff with valid inputs");
    YamlRenderer::new().render(&tree)
}

#[test]
fn best_match_leaves_a_warning_comment() {
    assert_eq!(
        best_of_two(cool_diff::AmbiguousMatchStrategy::BestMatch),
        " items:\n   # 1 item omitted\n   - name: FOO\n     # ambiguous match, best of 2 candidates\n-    b: 99\n+    b: 2\n"
    );
}

#[test]
fn silent_strategy_leaves_no_warning() {
    assert_eq!(
        best_of_two(cool_diff::AmbiguousMatchStrategy::Silent),
        " items:\n   # 1 item omitted\n   - name: FOO\n-    b: 99\n+    b: 2\n"
    );
}

#[test]
fn best_match_warning_is_a_leaf_of_the_picked_element() {
    let config = DiffConfig::new().with_match_config(MatchConfig::new().with_config_at(
        "items",
        ArrayMatchConfig::new(ArrayMatchMode::Key("name".to_string()))
            .with_ambiguous_strategy(cool_diff::AmbiguousMatchStrategy::BestMatch),
    ));
    let actual = obj(vec![(
        "items",
        arr(vec![obj(vec![("name", st("X")), ("v", num(1))]), obj(vec![("name", st("X")), ("v", num(2))]), obj(vec![("name", st("X")), ("v", num(3))])]),
    )]);
    let expected = obj(vec![("items", arr(vec![obj(vec![("name", st("X")), ("v", num(9))])]))]);
    let tree = diff(&actual, &expected, &config).expect("valid");
    let DiffNode::Container { children, .. } = &tree.roots[0] else {
        panic!("expected items container");
    };
    let DiffNode::Container { children: inner, .. } = &children[0] else {
        panic!("expected element container");
    };
    assert!(matches!(&inner[0], DiffNode::Leaf { kind: DiffKind::Ambiguous { candidates: 3 }, .. }));
    assert_eq!(inner.len(), 2);
}

#[test]
fn rendering_is_empty_exactly_for_an_empty_tree() {
    assert_eq!(YamlRenderer::new().render(&DiffTree { roots: vec![] }), "");
    let output = render(&num(1), &num(2));
    assert!(!output.is_empty());
    assert!(output.ends_with('\n'));
    assert!(output.lines().all(|l| l.starts_with(['-', '+', ' '])));
}

#[test]
fn line_breaks_in_strings_are_escaped() {
    let output = render(&obj(vec![("s", st("x\ny"))]), &obj(vec![("s", st("p\nq"))]));
    assert_eq!(output, "-s: \"p\\nq\"\n+s: \"x\\ny\"\n");
    let output = render(&obj(vec![("s", st("a\rb"))]), &obj(vec![("s", st("c"))]));
    assert_eq!(output, "-s: c\n+s: \"a\\rb\"\n");
}

#[test]
fn keys_with_line_breaks_are_quoted() {
    let output = render(&obj(vec![("a\nb", num(1))]), &obj(vec![("a\nb", num(2))]));
    assert_eq!(output, "-\"a\\nb\": 2\n+\"a\\nb\": 1\n");
    let output = render(&obj(vec![]), &obj(vec![("k", obj(vec![("x\ry", num(2))]))]));
    assert_eq!(output, "-k:\n-  \"x\\ry\": 2\n");
    assert!(output.lines().all(|l| l.starts_with(['-', '+', ' '])));
}
