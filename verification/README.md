# cool_diff

Compact, context-preserving diffs of structured (JSON-shaped) data, with
machine-checked contracts.

`diff` compares an actual value against an expected one, walking only the
paths present in the expected value, and produces a `DiffTree`. Arrays are
matched by position, by one or several distinguished key fields (any
scalar values), or by containment, configurable per path; under the best match strategy an ambiguous key
match is resolved to the closest candidate and flagged with a warning
comment. `YamlRenderer` renders a tree as YAML-like lines, every one
opened by ` `, `-` or `+`: text that would break a line (a string, a key,
a matched value) is quoted with its line breaks escaped as `\n` and `\r`.

Layout:

- `src/value.rs`: the JSON value model (`Value`, `Number`, `JsonMap`).
- `src/config.rs`: `DiffConfig`, `MatchConfig`, `ArrayMatchConfig`.
- `src/k8s_schema.rs`: a `MatchConfig` derived from a Kubernetes OpenAPI
  schema's `x-kubernetes-*` list extensions.
- `src/diff.rs`: the diff algorithm and its mathematical model.
- `src/model.rs`: diff trees.
- `src/render/`: the `DiffRenderer` trait and the YAML renderer.
- `src/laws.rs`, `src/render/shape.rs`: properties proved across inputs.
- `src/text.rs`: character-level helpers.
- `app/lib.rs`: conversion from and to `serde_json::Value`, and the
  `snafu`-based error type.
