use cool_diff::k8s_schema::match_config_from_schema;
use cool_diff::{
    ArrayMatchConfig, ArrayMatchMode, DiffConfig, DiffRenderer, Error, MatchConfig, Value,
    YamlRenderer, diff,
};

fn obj(pairs: Vec<(&str, Value)>) -> Value {
    Value::from_entries(pairs.into_iter().map(|(k, v)| (k.to_string(), v)).collect())
}

fn arr(items: Vec<Value>) -> Value {
    Value::Array(items)
}

fn st(s: &str) -> Value {
    Value::from_text(s)
}

fn num(i: i64) -> Value {
    Value::from_i64(i)
}

fn strs(items: &[&str]) -> Value {
    arr(items.iter().map(|s| st(s)).collect())
}

fn map_list(keys: &[&str], items: Value) -> Value {
    obj(vec![
        ("type", st("array")),
        ("x-kubernetes-list-type", st("map")),
        ("x-kubernetes-list-map-keys", strs(keys)),
        ("items", items),
    ])
}

fn reference(name: &str) -> Value {
    obj(vec![("$ref", st(&format!("#/components/schemas/{name}")))])
}

fn keys_of(config: &MatchConfig, path: &str) -> Option<Vec<String>> {
    match config.config_at(path).map(|c| c.mode()) {
        Some(ArrayMatchMode::Keys(keys)) => Some(keys.clone()),
        _ => None,
    }
}

#[test]
fn list_type_map_becomes_composite_keys() {
    let schema =
        obj(vec![("properties", obj(vec![("ports", map_list(&["containerPort", "protocol"], obj(vec![])))]))]);
    let config = match_config_from_schema(&schema, None);
    assert!(config.config_at("ports").is_some(), "ports configured");
    assert_eq!(keys_of(&config, "ports"), Some(vec!["containerPort".to_owned(), "protocol".to_owned()]));
}

#[test]
fn list_type_set_becomes_contains() {
    let schema = obj(vec![(
        "properties",
        obj(vec![(
            "finalizers",
            obj(vec![
                ("type", st("array")),
                ("x-kubernetes-list-type", st("set")),
                ("items", obj(vec![])),
            ]),
        )]),
    )]);
    let config = match_config_from_schema(&schema, None);
    let mode = config.config_at("finalizers").expect("finalizers configured").mode();
    assert!(matches!(mode, ArrayMatchMode::Contains));
}

#[test]
fn atomic_and_absent_list_types_are_omitted() {
    let schema = obj(vec![(
        "properties",
        obj(vec![
            (
                "args",
                obj(vec![
                    ("type", st("array")),
                    ("x-kubernetes-list-type", st("atomic")),
                    ("items", obj(vec![])),
                ]),
            ),
            ("command", obj(vec![("type", st("array")), ("items", obj(vec![]))])),
        ]),
    )]);
    let config = match_config_from_schema(&schema, None);
    assert!(
        config.config_at("args").is_none(),
        "atomic list-type should be omitted (index matching is the default)"
    );
    assert!(
        config.config_at("command").is_none(),
        "unannotated array should be omitted (index matching is the default)"
    );
}

#[test]
fn legacy_patch_merge_key_becomes_single_key() {
    let schema = obj(vec![(
        "properties",
        obj(vec![(
            "containers",
            obj(vec![
                ("type", st("array")),
                ("x-kubernetes-patch-strategy", st("merge")),
                ("x-kubernetes-patch-merge-key", st("name")),
                ("items", obj(vec![])),
            ]),
        )]),
    )]);
    let config = match_config_from_schema(&schema, None);
    let mode = config.config_at("containers").expect("containers configured").mode();
    assert!(matches!(mode, ArrayMatchMode::Key(key) if key == "name"));
}

#[test]
fn legacy_merge_strategy_may_list_several_parts() {
    let with = |strategy: &str| {
        obj(vec![(
            "properties",
            obj(vec![(
                "volumes",
                obj(vec![
                    ("items", obj(vec![])),
                    ("x-kubernetes-patch-strategy", st(strategy)),
                    ("x-kubernetes-patch-merge-key", st("name")),
                ]),
            )]),
        )])
    };
    assert!(match_config_from_schema(&with("merge,retainKeys"), None).config_at("volumes").is_some());
    assert!(match_config_from_schema(&with("retainKeys,merge"), None).config_at("volumes").is_some());
    assert!(match_config_from_schema(&with("retainKeys"), None).config_at("volumes").is_none());
    assert!(match_config_from_schema(&with("merged"), None).config_at("volumes").is_none());
}

#[test]
fn empty_list_map_keys_is_omitted() {
    let schema = obj(vec![(
        "properties",
        obj(vec![(
            "weird",
            obj(vec![
                ("type", st("array")),
                ("x-kubernetes-list-type", st("map")),
                ("items", obj(vec![])),
            ]),
        )]),
    )]);
    let config = match_config_from_schema(&schema, None);
    assert!(
        config.config_at("weird").is_none(),
        "map list-type without map-keys should be omitted, not emitted as an empty key set"
    );
}

#[test]
fn nested_arrays_get_dotted_paths() {
    let ports = map_list(&["containerPort", "protocol"], obj(vec![]));
    let containers = map_list(&["name"], obj(vec![("properties", obj(vec![("ports", ports)]))]));
    let schema = obj(vec![(
        "properties",
        obj(vec![("spec", obj(vec![("properties", obj(vec![("containers", containers)]))]))]),
    )]);
    let config = match_config_from_schema(&schema, None);
    assert!(config.config_at("spec.containers").is_some(), "spec.containers configured");
    assert_eq!(keys_of(&config, "spec.containers"), Some(vec!["name".to_owned()]));
    assert!(config.config_at("spec.containers.ports").is_some(), "spec.containers.ports configured");
    assert_eq!(
        keys_of(&config, "spec.containers.ports"),
        Some(vec!["containerPort".to_owned(), "protocol".to_owned()])
    );
}

#[test]
fn ref_is_resolved() {
    let root = obj(vec![(
        "properties",
        obj(vec![(
            "spec",
            obj(vec![(
                "properties",
                obj(vec![("containers", map_list(&["name"], reference("Container")))]),
            )]),
        )]),
    )]);
    let components = obj(vec![(
        "Container",
        obj(vec![(
            "properties",
            obj(vec![("ports", map_list(&["containerPort", "protocol"], obj(vec![])))]),
        )]),
    )]);
    let config = match_config_from_schema(&root, Some(&components));
    assert!(
        config.config_at("spec.containers.ports").is_some(),
        "spec.containers.ports resolved via $ref"
    );
    assert_eq!(
        keys_of(&config, "spec.containers.ports"),
        Some(vec!["containerPort".to_owned(), "protocol".to_owned()])
    );
}

#[test]
fn cyclic_ref_terminates() {
    let root = reference("Node");
    let components = obj(vec![(
        "Node",
        obj(vec![("properties", obj(vec![("children", map_list(&["id"], reference("Node")))]))]),
    )]);
    let config = match_config_from_schema(&root, Some(&components));
    assert!(
        config.config_at("children").is_some(),
        "the first level of the cyclic schema should be recorded"
    );
    assert!(
        config.config_at("children.children").is_none(),
        "the cycle should stop before descending into itself again"
    );
}

#[test]
fn unresolvable_refs_are_not_descended() {
    let root = obj(vec![("properties", obj(vec![("a", reference("Missing")), ("b", obj(vec![("$ref", st("other.json#/X"))]))]))]);
    let components = obj(vec![("X", map_list(&["id"], obj(vec![])))]);
    let config = match_config_from_schema(&root, Some(&components));
    assert!(config.config_at("a").is_none());
    assert!(config.config_at("b").is_none());
    let config = match_config_from_schema(&reference("X"), None);
    assert!(config.config_at("").is_none());
}

fn all_of(inner: Value, extra: Vec<(&str, Value)>) -> Value {
    let mut pairs = vec![("allOf", arr(vec![inner]))];
    pairs.extend(extra);
    obj(pairs)
}

#[test]
fn allof_wrapped_refs_are_resolved() {
    let root = obj(vec![(
        "properties",
        obj(vec![(
            "spec",
            all_of(
                reference("PodSpec"),
                vec![("default", obj(vec![])), ("description", st("the pod spec"))],
            ),
        )]),
    )]);
    let components = obj(vec![
        (
            "PodSpec",
            obj(vec![(
                "properties",
                obj(vec![(
                    "containers",
                    map_list(&["name"], all_of(reference("Container"), vec![("default", obj(vec![]))])),
                )]),
            )]),
        ),
        (
            "Container",
            obj(vec![(
                "properties",
                obj(vec![("ports", map_list(&["containerPort", "protocol"], obj(vec![])))]),
            )]),
        ),
    ]);
    let config = match_config_from_schema(&root, Some(&components));
    assert!(config.config_at("spec.containers").is_some(), "spec.containers resolved through allOf");
    assert_eq!(keys_of(&config, "spec.containers"), Some(vec!["name".to_owned()]));
    assert!(
        config.config_at("spec.containers.ports").is_some(),
        "spec.containers.ports resolved through allOf"
    );
    assert_eq!(
        keys_of(&config, "spec.containers.ports"),
        Some(vec!["containerPort".to_owned(), "protocol".to_owned()])
    );
}

// A trimmed Pod schema in the real layout: `$ref`s wrapped in `allOf` and
// resolved against `components/schemas`.
fn pod_components() -> Value {
    obj(vec![
        (
            "io.k8s.api.core.v1.Pod",
            obj(vec![(
                "properties",
                obj(vec![
                    ("apiVersion", obj(vec![("type", st("string"))])),
                    ("kind", obj(vec![("type", st("string"))])),
                    ("spec", all_of(reference("io.k8s.api.core.v1.PodSpec"), vec![("default", obj(vec![]))])),
                ]),
            )]),
        ),
        (
            "io.k8s.api.core.v1.PodSpec",
            obj(vec![(
                "properties",
                obj(vec![
                    (
                        "containers",
                        obj(vec![
                            ("type", st("array")),
                            ("x-kubernetes-patch-strategy", st("merge")),
                            ("x-kubernetes-patch-merge-key", st("name")),
                            ("x-kubernetes-list-type", st("map")),
                            ("x-kubernetes-list-map-keys", strs(&["name"])),
                            (
                                "items",
                                all_of(reference("io.k8s.api.core.v1.Container"), vec![("default", obj(vec![]))]),
                            ),
                        ]),
                    ),
                    (
                        "tolerations",
                        obj(vec![
                            ("type", st("array")),
                            ("x-kubernetes-list-type", st("atomic")),
                            (
                                "items",
                                all_of(reference("io.k8s.api.core.v1.Toleration"), vec![("default", obj(vec![]))]),
                            ),
                        ]),
                    ),
                ]),
            )]),
        ),
        (
            "io.k8s.api.core.v1.Container",
            obj(vec![(
                "properties",
                obj(vec![
                    ("name", obj(vec![("type", st("string"))])),
                    (
                        "ports",
                        obj(vec![
                            ("type", st("array")),
                            ("x-kubernetes-list-type", st("map")),
                            ("x-kubernetes-list-map-keys", strs(&["containerPort", "protocol"])),
                            (
                                "items",
                                all_of(reference("io.k8s.api.core.v1.ContainerPort"), vec![("default", obj(vec![]))]),
                            ),
                        ]),
                    ),
                ]),
            )]),
        ),
        ("io.k8s.api.core.v1.ContainerPort", obj(vec![("properties", obj(vec![]))])),
        ("io.k8s.api.core.v1.Toleration", obj(vec![("properties", obj(vec![]))])),
    ])
}

fn pod_match_config() -> MatchConfig {
    let schemas = pod_components();
    let pod = match &schemas {
        Value::Object(m) => m.get("io.k8s.api.core.v1.Pod").expect("pod schema").clone(),
        _ => unreachable!(),
    };
    match_config_from_schema(&pod, Some(&schemas))
        .with_config_at("spec.tolerations", ArrayMatchConfig::new(ArrayMatchMode::Contains))
}

#[test]
fn ports_use_the_derived_composite_key() {
    let config = pod_match_config();
    assert!(config.config_at("spec.containers.ports").is_some(), "ports configured from schema");
    assert_eq!(
        keys_of(&config, "spec.containers.ports"),
        Some(vec!["containerPort".to_owned(), "protocol".to_owned()])
    );
}

#[test]
fn tolerations_overridden_to_contains() {
    let config = pod_match_config();
    let mode = config.config_at("spec.tolerations").expect("tolerations overridden").mode();
    assert!(matches!(mode, ArrayMatchMode::Contains));
}

fn port(n: i64, protocol: &str) -> Value {
    obj(vec![("containerPort", num(n)), ("protocol", st(protocol))])
}

fn toleration(key: &str) -> Value {
    obj(vec![("key", st(key)), ("operator", st("Exists")), ("effect", st("NoExecute"))])
}

#[test]
fn schema_derived_config_diffs_pod_end_to_end() {
    let actual = obj(vec![
        ("apiVersion", st("v1")),
        ("kind", st("Pod")),
        ("metadata", obj(vec![("name", st("my-pod"))])),
        (
            "spec",
            obj(vec![
                (
                    "containers",
                    arr(vec![obj(vec![
                        ("name", st("app")),
                        ("image", st("myapp:1.0")),
                        ("ports", arr(vec![port(53, "UDP"), port(53, "TCP")])),
                    ])]),
                ),
                (
                    "tolerations",
                    arr(vec![
                        toleration("node.kubernetes.io/not-ready"),
                        toleration("node.kubernetes.io/unreachable"),
                    ]),
                ),
            ]),
        ),
    ]);
    let expected = obj(vec![(
        "spec",
        obj(vec![
            (
                "containers",
                arr(vec![obj(vec![
                    ("name", st("app")),
                    (
                        "ports",
                        arr(vec![obj(vec![
                            ("containerPort", num(53)),
                            ("protocol", st("TCP")),
                            ("name", st("dns-tcp")),
                        ])]),
                    ),
                ])]),
            ),
            ("tolerations", arr(vec![toleration("node.kubernetes.io/unreachable")])),
        ]),
    )]);
    let config = DiffConfig::new().with_match_config(pod_match_config());
    let tree = diff(&actual, &expected, &config).expect("diff with valid inputs");
    let output = YamlRenderer::new().render(&tree);
    assert_eq!(
        output,
        " spec:\n   containers:\n     - name: app\n       # 1 field omitted\n       ports:\n         # 1 item omitted\n         - containerPort: 53\n           protocol: TCP\n-          name: dns-tcp\n"
    );
}

fn dns_pod_actual() -> Value {
    obj(vec![
        ("apiVersion", st("v1")),
        ("kind", st("Pod")),
        ("metadata", obj(vec![("name", st("coredns"))])),
        (
            "spec",
            obj(vec![(
                "containers",
                arr(vec![obj(vec![
                    ("name", st("coredns")),
                    ("image", st("coredns/coredns:1.11.1")),
                    ("ports", arr(vec![port(53, "UDP"), port(53, "TCP"), port(9153, "TCP")])),
                ])]),
            )]),
        ),
    ])
}

fn dns_pod_expected() -> Value {
    obj(vec![
        ("apiVersion", st("v1")),
        ("kind", st("Pod")),
        ("metadata", obj(vec![("name", st("coredns"))])),
        (
            "spec",
            obj(vec![(
                "containers",
                arr(vec![obj(vec![
                    ("name", st("coredns")),
                    (
                        "ports",
                        arr(vec![obj(vec![
                            ("containerPort", num(53)),
                            ("protocol", st("TCP")),
                            ("name", st("dns-tcp")),
                        ])]),
                    ),
                ])]),
            )]),
        ),
    ])
}

#[test]
fn dns_pod_ports_match_by_port_and_protocol() {
    // Keyed by containerPort alone, the ports 53/UDP and 53/TCP both match,
    // and the default strict strategy refuses the ambiguity.
    let config = DiffConfig::new().with_match_config(MatchConfig::new().with_config_at(
        "spec.containers.ports",
        ArrayMatchConfig::new(ArrayMatchMode::Key("containerPort".to_owned())),
    ));
    let result = diff(&dns_pod_actual(), &dns_pod_expected(), &config);
    assert!(matches!(
        result,
        Err(Error::AmbiguousMatch { ref path, count: 2 }) if path == "spec.containers.ports"
    ));
    // Keyed by the (containerPort, protocol) pair, the match is unique and
    // the only difference is the missing port name.
    let config = DiffConfig::new().with_match_config(MatchConfig::new().with_config_at(
        "spec.containers.ports",
        ArrayMatchConfig::new(ArrayMatchMode::Keys(vec![
            "containerPort".to_owned(),
            "protocol".to_owned(),
        ])),
    ));
    let tree = diff(&dns_pod_actual(), &dns_pod_expected(), &config).expect("ports should match by port and protocol");
    assert!(!tree.is_empty());
    assert_eq!(
        YamlRenderer::new().render(&tree),
        " spec:\n   containers:\n     - # index 0\n       # 1 field omitted\n       ports:\n         # 2 items omitted\n         - containerPort: 53\n           protocol: TCP\n-          name: dns-tcp\n"
    );
}

#[test]
fn numeric_key_values_match() {
    let config = DiffConfig::new().with_match_config(MatchConfig::new().with_config_at(
        "ports",
        ArrayMatchConfig::new(ArrayMatchMode::Key("port".to_owned())),
    ));
    let actual = obj(vec![("ports", arr(vec![obj(vec![("port", num(80)), ("x", num(1))]), obj(vec![("port", num(443)), ("x", num(2))])]))]);
    let expected = obj(vec![("ports", arr(vec![obj(vec![("port", num(443)), ("x", num(9))])]))]);
    let tree = diff(&actual, &expected, &config).expect("numeric keys match");
    assert_eq!(
        YamlRenderer::new().render(&tree),
        " ports:\n   # 1 item omitted\n   - port: 443\n-    x: 9\n+    x: 2\n"
    );
    let missing = obj(vec![("ports", arr(vec![obj(vec![("x", num(9))])]))]);
    assert!(matches!(
        diff(&actual, &missing, &config),
        Err(Error::MissingKeyField { ref key_field, .. }) if key_field == "port"
    ));
}

#[test]
fn composite_key_reports_the_first_missing_field() {
    let config = DiffConfig::new().with_match_config(MatchConfig::new().with_config_at(
        "ports",
        ArrayMatchConfig::new(ArrayMatchMode::Keys(vec!["port".to_owned(), "protocol".to_owned()])),
    ));
    let actual = obj(vec![("ports", arr(vec![obj(vec![("port", num(53)), ("protocol", st("TCP"))])]))]);
    let expected = obj(vec![("ports", arr(vec![obj(vec![("port", num(53)), ("name", st("x"))])]))]);
    let result = diff(&actual, &expected, &config);
    assert!(matches!(
        result,
        Err(Error::MissingKeyField { ref key_field, .. }) if key_field == "protocol"
    ));
}
