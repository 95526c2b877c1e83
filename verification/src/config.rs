//! Configuration types for the diff algorithm.

use vstd::prelude::*;
use crate::text::str_equal;

verus! {

/// Top-level configuration for the diff algorithm.
pub struct DiffConfig {
    /// Controls how arrays are matched at each path.
    match_config: MatchConfig,
    /// Default array match mode, used when a path does not specify its own.
    default_array_mode: ArrayMatchMode,
    /// Default ambiguity strategy, used when a path does not specify its own.
    default_ambiguous_strategy: AmbiguousMatchStrategy,
}

impl DiffConfig {
    /// The match config for array path lookups.
    pub closed spec fn spec_match_config(&self) -> MatchConfig {
        self.match_config
    }

    /// The fallback array match mode.
    pub closed spec fn spec_default_array_mode(&self) -> ArrayMatchMode {
        self.default_array_mode
    }

    /// The fallback ambiguity strategy.
    pub closed spec fn spec_default_ambiguous_strategy(&self) -> AmbiguousMatchStrategy {
        self.default_ambiguous_strategy
    }

    /// Creates a new config with default settings: no per-path
    /// configuration, index matching and the strict ambiguity strategy.
    pub fn new() -> (r: Self)
        ensures
            forall|p: Seq<char>| #[trigger] r.spec_match_config().lookup(p) is None,
            r.spec_default_array_mode() is Index,
            r.spec_default_ambiguous_strategy() is Strict,
    {
        Self::default()
    }

    /// Sets the match config for array path lookups.
    pub fn with_match_config(self, match_config: MatchConfig) -> (r: Self)
        ensures
            r.spec_match_config() == match_config,
            r.spec_default_array_mode() == self.spec_default_array_mode(),
            r.spec_default_ambiguous_strategy() == self.spec_default_ambiguous_strategy(),
    {
        DiffConfig { match_config, ..self }
    }

    /// Sets the fallback array match mode for paths without explicit config.
    pub fn with_fallback_array_mode(self, mode: ArrayMatchMode) -> (r: Self)
        ensures
            r.spec_match_config() == self.spec_match_config(),
            r.spec_default_array_mode() == mode,
            r.spec_default_ambiguous_strategy() == self.spec_default_ambiguous_strategy(),
    {
        DiffConfig { default_array_mode: mode, ..self }
    }

    /// Sets the fallback ambiguity strategy for paths without explicit config.
    pub fn with_fallback_ambiguous_strategy(self, strategy: AmbiguousMatchStrategy) -> (r: Self)
        ensures
            r.spec_match_config() == self.spec_match_config(),
            r.spec_default_array_mode() == self.spec_default_array_mode(),
            r.spec_default_ambiguous_strategy() == strategy,
    {
        DiffConfig { default_ambiguous_strategy: strategy, ..self }
    }

    /// Returns the match config.
    pub fn match_config(&self) -> (r: &MatchConfig)
        ensures
            *r == self.spec_match_config(),
    {
        &self.match_config
    }

    /// Returns the default array match mode.
    pub fn default_array_mode(&self) -> (r: &ArrayMatchMode)
        ensures
            *r == self.spec_default_array_mode(),
    {
        &self.default_array_mode
    }

    /// Returns the default ambiguity strategy.
    pub fn default_ambiguous_strategy(&self) -> (r: &AmbiguousMatchStrategy)
        ensures
            *r == self.spec_default_ambiguous_strategy(),
    {
        &self.default_ambiguous_strategy
    }
}

impl Default for DiffConfig {
    fn default() -> (r: Self)
        ensures
            forall|p: Seq<char>| #[trigger] r.spec_match_config().lookup(p) is None,
            r.spec_default_array_mode() is Index,
            r.spec_default_ambiguous_strategy() is Strict,
    {
        DiffConfig {
            match_config: MatchConfig::new(),
            default_array_mode: ArrayMatchMode::Index,
            default_ambiguous_strategy: AmbiguousMatchStrategy::Strict,
        }
    }
}

/// The configuration stored for `path`: the first entry with that path.
pub open spec fn path_lookup(paths: Seq<(String, ArrayMatchConfig)>, path: Seq<char>) -> Option<
    ArrayMatchConfig,
>
    decreases paths.len(),
{
    if paths.len() == 0 {
        None
    } else if paths[0].0@ == path {
        Some(paths[0].1)
    } else {
        path_lookup(paths.drop_first(), path)
    }
}

proof fn lemma_path_lookup_first(paths: Seq<(String, ArrayMatchConfig)>, path: Seq<char>, i: int)
    requires
        0 <= i < paths.len(),
        paths[i].0@ == path,
        forall|j: int| 0 <= j < i ==> paths[j].0@ != path,
    ensures
        path_lookup(paths, path) == Some(paths[i].1),
    decreases i,
{
    if i > 0 {
        lemma_path_lookup_first(paths.drop_first(), path, i - 1);
    }
}

proof fn lemma_path_lookup_none(paths: Seq<(String, ArrayMatchConfig)>, path: Seq<char>)
    requires
        forall|j: int| 0 <= j < paths.len() ==> paths[j].0@ != path,
    ensures
        path_lookup(paths, path) is None,
    decreases paths.len(),
{
    if paths.len() > 0 {
        lemma_path_lookup_none(paths.drop_first(), path);
    }
}

proof fn lemma_path_lookup_update(
    paths: Seq<(String, ArrayMatchConfig)>,
    i: int,
    entry: (String, ArrayMatchConfig),
    q: Seq<char>,
)
    requires
        0 <= i < paths.len(),
        entry.0@ == paths[i].0@,
        forall|j: int| 0 <= j < i ==> paths[j].0@ != entry.0@,
    ensures
        path_lookup(paths.update(i, entry), q) == (if q == entry.0@ {
            Some(entry.1)
        } else {
            path_lookup(paths, q)
        }),
    decreases i,
{
    if i > 0 {
        assert(paths.update(i, entry).drop_first() =~= paths.drop_first().update(i - 1, entry));
        lemma_path_lookup_update(paths.drop_first(), i - 1, entry, q);
    } else {
        assert(paths.update(i, entry).drop_first() =~= paths.drop_first());
    }
}

proof fn lemma_path_lookup_push(
    paths: Seq<(String, ArrayMatchConfig)>,
    entry: (String, ArrayMatchConfig),
    q: Seq<char>,
)
    requires
        forall|j: int| 0 <= j < paths.len() ==> paths[j].0@ != entry.0@,
    ensures
        path_lookup(paths.push(entry), q) == (if q == entry.0@ {
            Some(entry.1)
        } else {
            path_lookup(paths, q)
        }),
    decreases paths.len(),
{
    if paths.len() > 0 {
        assert(paths.push(entry)[0] == paths[0]);
        assert(paths.push(entry).drop_first() =~= paths.drop_first().push(entry));
        lemma_path_lookup_push(paths.drop_first(), entry, q);
    } else {
        assert(paths.push(entry)[0] == entry);
        assert(paths.push(entry).drop_first() =~= Seq::<(String, ArrayMatchConfig)>::empty());
        assert(path_lookup(paths.push(entry).drop_first(), q) is None);
        assert(path_lookup(paths, q) is None);
    }
}

/// Configures how array elements are matched between actual and expected
/// values: a per-path [`ArrayMatchConfig`], keyed by dot-separated path.
pub struct MatchConfig {
    /// Dot-separated path (e.g. `spec.containers`) and its configuration.
    paths: Vec<(String, ArrayMatchConfig)>,
}

impl MatchConfig {
    /// No path is configured twice.
    #[verifier::type_invariant]
    spec fn paths_distinct(self) -> bool {
        forall|i: int, j: int|
            0 <= i < j < self.paths@.len() ==> #[trigger] self.paths@[i].0@ != #[trigger] self.paths@[j].0@
    }

    /// The configuration for `path`, if one is set.
    pub closed spec fn lookup(&self, path: Seq<char>) -> Option<ArrayMatchConfig> {
        path_lookup(self.paths@, path)
    }

    /// Creates an empty config (index-based matching for all arrays).
    pub fn new() -> (r: Self)
        ensures
            forall|p: Seq<char>| #[trigger] r.lookup(p) is None,
    {
        MatchConfig { paths: Vec::new() }
    }

    /// Sets the array match configuration for the given dot-separated path,
    /// replacing any configuration already set for it.
    pub fn with_config_at(self, path: &str, config: ArrayMatchConfig) -> (r: Self)
        ensures
            forall|q: Seq<char>|
                #[trigger] r.lookup(q) == (if q == path@ {
                    Some(config)
                } else {
                    self.lookup(q)
                }),
    {
        proof {
            use_type_invariant(&self);
        }
        let ghost old_paths = self.paths@;
        let mut paths = self.paths;
        let mut i: usize = 0;
        while i < paths.len()
            invariant
                paths@ == old_paths,
                old_paths == self.paths@,
                i <= paths@.len(),
                forall|j: int| 0 <= j < i ==> paths@[j].0@ != path@,
                forall|a: int, b: int|
                    0 <= a < b < old_paths.len() ==> #[trigger] old_paths[a].0@ != #[trigger] old_paths[b].0@,
            decreases paths@.len() - i,
        {
            if str_equal(paths[i].0.as_str(), path) {
                let key = paths[i].0.clone();
                let ghost entry = (key, config);
                let _ = paths.remove(i);
                paths.insert(i, (key, config));
                proof {
                    assert(entry.0@ == path@);
                    assert(old_paths == self.paths@);
                    assert(paths@ =~= old_paths.update(i as int, entry));
                    assert forall|a: int, b: int| 0 <= a < b < paths@.len() implies #[trigger] paths@[a].0@
                        != #[trigger] paths@[b].0@ by {
                        assert(old_paths[a].0@ != old_paths[b].0@);
                    }
                    assert forall|q: Seq<char>|
                        #[trigger] path_lookup(paths@, q) == (if q == path@ {
                            Some(config)
                        } else {
                            path_lookup(old_paths, q)
                        }) by {
                        lemma_path_lookup_update(old_paths, i as int, entry, q);
                    }
                }
                return MatchConfig { paths };
            }
            i = i + 1;
        }
        let key = crate::text::string_of(path);
        let ghost entry = (key, config);
        paths.push((key, config));
        proof {
            assert forall|a: int, b: int| 0 <= a < b < paths@.len() implies #[trigger] paths@[a].0@
                != #[trigger] paths@[b].0@ by {
                if b < old_paths.len() {
                    assert(old_paths[a].0@ != old_paths[b].0@);
                } else {
                    assert(paths@[b] == entry);
                    assert(paths@[a] == old_paths[a]);
                }
            }
            assert forall|q: Seq<char>|
                #[trigger] path_lookup(paths@, q) == (if q == path@ {
                    Some(config)
                } else {
                    path_lookup(old_paths, q)
                }) by {
                lemma_path_lookup_push(old_paths, entry, q);
            }
        }
        MatchConfig { paths }
    }

    /// Returns the array match configuration for the given path, if configured.
    pub fn config_at(&self, path: &str) -> (r: Option<&ArrayMatchConfig>)
        ensures
            r is None <==> self.lookup(path@) is None,
            r matches Some(c) ==> self.lookup(path@) == Some(*c),
    {
        let mut i: usize = 0;
        while i < self.paths.len()
            invariant
                i <= self.paths@.len(),
                forall|j: int| 0 <= j < i ==> self.paths@[j].0@ != path@,
            decreases self.paths@.len() - i,
        {
            if str_equal(self.paths[i].0.as_str(), path) {
                proof {
                    lemma_path_lookup_first(self.paths@, path@, i as int);
                }
                return Some(&self.paths[i].1);
            }
            i = i + 1;
        }
        proof {
            lemma_path_lookup_none(self.paths@, path@);
        }
        None
    }
}

impl Default for MatchConfig {
    fn default() -> (r: Self)
        ensures
            forall|p: Seq<char>| #[trigger] r.lookup(p) is None,
    {
        Self::new()
    }
}

/// Per-path configuration for array element matching.
pub struct ArrayMatchConfig {
    /// How elements are matched at this path.
    mode: ArrayMatchMode,
    /// Optional override for the ambiguity strategy at this path; falls back
    /// to the config's default strategy if `None`.
    ambiguous_strategy: Option<AmbiguousMatchStrategy>,
}

impl ArrayMatchConfig {
    /// The array match mode.
    pub closed spec fn spec_mode(&self) -> ArrayMatchMode {
        self.mode
    }

    /// The ambiguity strategy override, if set.
    pub closed spec fn spec_ambiguous_strategy(&self) -> Option<AmbiguousMatchStrategy> {
        self.ambiguous_strategy
    }

    /// Creates a config with the given mode and no ambiguity override.
    pub fn new(mode: ArrayMatchMode) -> (r: Self)
        ensures
            r.spec_mode() == mode,
            r.spec_ambiguous_strategy() is None,
    {
        ArrayMatchConfig { mode, ambiguous_strategy: None }
    }

    /// Sets the ambiguity strategy override for this path.
    pub fn with_ambiguous_strategy(self, strategy: AmbiguousMatchStrategy) -> (r: Self)
        ensures
            r.spec_mode() == self.spec_mode(),
            r.spec_ambiguous_strategy() == Some(strategy),
    {
        ArrayMatchConfig { ambiguous_strategy: Some(strategy), ..self }
    }

    /// Returns the array match mode.
    pub fn mode(&self) -> (r: &ArrayMatchMode)
        ensures
            *r == self.spec_mode(),
    {
        &self.mode
    }

    /// Returns the ambiguity strategy override, if set.
    pub fn ambiguous_strategy(&self) -> (r: Option<&AmbiguousMatchStrategy>)
        ensures
            r is None <==> self.spec_ambiguous_strategy() is None,
            r matches Some(s) ==> self.spec_ambiguous_strategy() == Some(*s),
    {
        match &self.ambiguous_strategy {
            Some(s) => Some(s),
            None => None,
        }
    }
}

/// How array elements are matched between actual and expected values at a
/// given path.
pub enum ArrayMatchMode {
    /// Match by position (default). Element 0 compares to element 0, etc.
    Index,
    /// Match by a distinguished key field (e.g. `name`). Scans the actual
    /// array for an element with a matching key value: any scalar (a string,
    /// number, boolean or null), compared as JSON values.
    Key(String),
    /// Match by several key fields together (e.g. `containerPort` and
    /// `protocol`): an actual element matches when every listed field holds
    /// the expected element's value.
    Keys(Vec<String>),
    /// Find a matching element anywhere in the actual array. Uses exact
    /// value comparison for scalars, recursive subset matching for objects.
    Contains,
}

/// Controls behavior when multiple actual array elements could match a single
/// expected element.
pub enum AmbiguousMatchStrategy {
    /// Fail if more than one candidate exists.
    Strict,
    /// Pick the candidate with the fewest diffs, with a warning comment: when
    /// the element picked by key shows differences, they open with an
    /// [`Ambiguous`](crate::model::DiffKind::Ambiguous) leaf that gives the
    /// number of candidates. (An element matched by content shows no
    /// differences, so it carries no warning.)
    BestMatch,
    /// Pick the candidate with the fewest diffs, without a warning comment.
    Silent,
}

impl Default for AmbiguousMatchStrategy {
    fn default() -> (r: Self)
        ensures
            r is Strict,
    {
        AmbiguousMatchStrategy::Strict
    }
}

} // verus!
