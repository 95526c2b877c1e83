//! Compact, context-preserving diffs of structured data.
//!
//! [`diff`] compares an actual [`Value`] against an expected one and produces
//! a minimal [`DiffTree`]; [`YamlRenderer`] renders it as YAML-like lines in
//! unified diff style. Arrays are matched by position, by distinguished key
//! fields, or by containment, configured per path through [`MatchConfig`],
//! which [`k8s_schema::match_config_from_schema`] can derive from a
//! Kubernetes OpenAPI schema.

pub mod config;
pub mod diff;
pub mod k8s_schema;
pub mod laws;
pub mod model;
pub mod render;
pub mod text;
pub mod value;

pub use config::{AmbiguousMatchStrategy, ArrayMatchConfig, ArrayMatchMode, DiffConfig, MatchConfig};
pub use diff::{Error, diff, diff_checked};
pub use model::{ChildKind, DiffKind, DiffNode, DiffTree, PathSegment};
pub use render::DiffRenderer;
pub use render::yaml::YamlRenderer;
pub use value::{JsonMap, Number, Value};
