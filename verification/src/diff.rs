//! Core diff algorithm.
//!
//! The walk is driven by the expected value: only paths present in it are
//! compared. Entries of the actual value that have no expected counterpart
//! are counted as omitted but not diffed.

use vstd::prelude::*;
use crate::config::{AmbiguousMatchStrategy, ArrayMatchMode, DiffConfig};
use crate::model::{ChildKind, DiffKind, DiffNode, DiffTree, KindView, NodeView, PathSegment, SegmentView, nodes_view, lemma_nodes_view_push};
use crate::text::{decimal, push_char, push_decimal, push_str, string_of};
use crate::value::{
    JsonValue, Value, first_missing_key, lemma_key_tuple_shape, lemma_key_tuple_stays_missing, json_equal, json_type_name, key_tuple, obj_get, same_type,
    tuple_matches,
};
use crate::render::scalar::{format_scalar, scalar_text};

verus! {

// ---------------------------------------------------------------------------
// Mathematical model of the algorithm
// ---------------------------------------------------------------------------

/// The model of an [`Error`].
pub enum ErrorView {
    MissingKeyField(Seq<char>, Seq<char>),
    AmbiguousMatch(Seq<char>, int),
    /// A `u16::MAX + 1`-th expected element of one array was matched: the
    /// `u16` match counter would overflow.
    TooManyMatches,
}

/// The model of a [`DiffResult`].
pub enum ResultView {
    Equal,
    Leaf(KindView),
    Children(ChildKind, Seq<NodeView>, int),
}

/// The dot-separated path of `key` below `path`.
pub open spec fn child_path(path: Seq<char>, key: Seq<char>) -> Seq<char> {
    if path.len() == 0 {
        key
    } else {
        path + seq!['.'] + key
    }
}

/// The array match mode that applies at `path`.
pub open spec fn mode_at(cfg: DiffConfig, path: Seq<char>) -> ArrayMatchMode {
    match cfg.spec_match_config().lookup(path) {
        Some(c) => c.spec_mode(),
        None => cfg.spec_default_array_mode(),
    }
}

/// The ambiguity strategy that applies at `path`.
pub open spec fn strategy_at(cfg: DiffConfig, path: Seq<char>) -> AmbiguousMatchStrategy {
    match cfg.spec_match_config().lookup(path) {
        Some(c) => match c.spec_ambiguous_strategy() {
            Some(s) => s,
            None => cfg.spec_default_ambiguous_strategy(),
        },
        None => cfg.spec_default_ambiguous_strategy(),
    }
}

/// Appends the node for `r` under `seg`, unless `r` is `Equal`.
pub open spec fn push_result(nodes: Seq<NodeView>, seg: SegmentView, r: ResultView) -> Seq<NodeView> {
    match r {
        ResultView::Equal => nodes,
        ResultView::Leaf(k) => nodes.push(NodeView::Leaf(seg, k)),
        ResultView::Children(ck, ns, oc) => nodes.push(NodeView::Container(seg, ck, oc, ns)),
    }
}

/// Appends the node for the result picked among `candidates` ambiguous
/// candidates. Under the best match strategy, a picked element that shows
/// differences opens with a warning leaf giving the number of candidates.
pub open spec fn push_best(
    nodes: Seq<NodeView>,
    seg: SegmentView,
    r: ResultView,
    strategy: AmbiguousMatchStrategy,
    candidates: int,
) -> Seq<NodeView> {
    match r {
        ResultView::Children(ck, ns, oc) => if strategy is BestMatch {
            nodes.push(
                NodeView::Container(
                    seg,
                    ck,
                    oc,
                    seq![NodeView::Leaf(seg, KindView::Ambiguous(candidates))] + ns,
                ),
            )
        } else {
            push_result(nodes, seg, r)
        },
        _ => push_result(nodes, seg, r),
    }
}

/// `Equal` when there are no child nodes, otherwise the children.
pub open spec fn children_result(ck: ChildKind, nodes: Seq<NodeView>, omitted: int) -> ResultView {
    if nodes.len() == 0 {
        ResultView::Equal
    } else {
        ResultView::Children(ck, nodes, omitted)
    }
}

/// How different a result is: the number of direct child diffs.
pub open spec fn result_size(r: ResultView) -> nat {
    match r {
        ResultView::Equal => 0,
        ResultView::Leaf(_) => 1,
        ResultView::Children(_, ns, _) => ns.len(),
    }
}

/// The number of the first `n` actual entries whose key the expected object
/// does not hold.
pub open spec fn count_absent(
    am: Seq<(Seq<char>, JsonValue)>,
    em: Seq<(Seq<char>, JsonValue)>,
    n: nat,
) -> nat
    decreases n,
{
    if n == 0 || n > am.len() {
        0
    } else if obj_get(em, am[n - 1].0) is None {
        count_absent(am, em, (n - 1) as nat) + 1
    } else {
        count_absent(am, em, (n - 1) as nat)
    }
}

/// The omitted count of an object diff: actual keys not present in expected.
pub open spec fn object_omitted(am: Seq<(Seq<char>, JsonValue)>, em: Seq<(Seq<char>, JsonValue)>) -> int {
    (count_absent(am, em, am.len()) as u16) as int
}

/// The omitted count of an index-matched array diff: extra actual elements.
pub open spec fn index_omitted(actual_len: nat, expected_len: nat) -> int {
    ((if actual_len > expected_len {
        actual_len - expected_len
    } else {
        0
    }) as u16) as int
}

/// The number of positions below `n` that are not in `marks`.
pub open spec fn unmatched_count(marks: Set<int>, n: nat) -> nat
    decreases n,
{
    if n == 0 {
        0
    } else if marks.contains(n - 1) {
        unmatched_count(marks, (n - 1) as nat)
    } else {
        unmatched_count(marks, (n - 1) as nat) + 1
    }
}

/// The omitted count of a key- or contains-matched array diff: actual
/// elements that no expected element matched.
pub open spec fn matched_omitted(actual_len: nat, marks: Set<int>) -> int {
    (unmatched_count(marks, actual_len) as u16) as int
}

/// The positions of the actual elements whose key fields hold `kt`, in
/// order.
pub open spec fn key_candidate_indices(aa: Seq<JsonValue>, keys: Seq<Seq<char>>, kt: Seq<JsonValue>) -> Seq<int>
    decreases aa.len(),
{
    if aa.len() == 0 {
        Seq::empty()
    } else if tuple_matches(aa.last(), keys, kt) {
        key_candidate_indices(aa.drop_last(), keys, kt).push(aa.len() - 1)
    } else {
        key_candidate_indices(aa.drop_last(), keys, kt)
    }
}

/// The position of the first of the first `n` actual elements that contains
/// `e`, or `aa.len()` when there is none.
pub open spec fn first_containing(aa: Seq<JsonValue>, e: JsonValue, n: nat) -> int
    decreases n,
{
    if n == 0 || n > aa.len() {
        aa.len() as int
    } else if first_containing(aa, e, (n - 1) as nat) < aa.len() {
        first_containing(aa, e, (n - 1) as nat)
    } else if value_contains_spec(aa[n - 1], e) {
        n - 1
    } else {
        aa.len() as int
    }
}

/// The actual elements whose key fields hold `kt`, in order.
pub open spec fn key_candidates(aa: Seq<JsonValue>, keys: Seq<Seq<char>>, kt: Seq<JsonValue>) -> Seq<JsonValue>
    decreases aa.len(),
{
    if aa.len() == 0 {
        Seq::empty()
    } else if tuple_matches(aa.last(), keys, kt) {
        key_candidates(aa.drop_last(), keys, kt).push(aa.last())
    } else {
        key_candidates(aa.drop_last(), keys, kt)
    }
}

/// The models of a sequence of strings.
pub open spec fn keys_view(ks: Seq<String>) -> Seq<Seq<char>> {
    Seq::new(ks.len(), |i: int| ks[i]@)
}

/// The key fields that key matching uses under `mode`: the one field of
/// [`ArrayMatchMode::Key`], the fields of [`ArrayMatchMode::Keys`].
pub open spec fn mode_keys(mode: ArrayMatchMode) -> Seq<Seq<char>> {
    match mode {
        ArrayMatchMode::Key(k) => seq![k@],
        ArrayMatchMode::Keys(ks) => keys_view(ks@),
        _ => Seq::empty(),
    }
}

/// How a key value is shown in a path segment: a string as it is, any other
/// scalar as its YAML text.
pub open spec fn key_value_text(x: JsonValue) -> Seq<char> {
    match x {
        JsonValue::Str(s) => s,
        _ => scalar_text(x),
    }
}

/// The segment of an element matched by `keys` with values `kt`: a named
/// element for a single key, otherwise every key with its value.
pub open spec fn element_segment(keys: Seq<Seq<char>>, kt: Seq<JsonValue>) -> SegmentView {
    if keys.len() == 1 {
        SegmentView::NamedElement(keys[0], key_value_text(kt[0]))
    } else {
        SegmentView::KeyedElement(Seq::new(keys.len(), |i: int| (keys[i], key_value_text(kt[i]))))
    }
}

/// Whether `actual` contains all the data in `expected`: exact equality for
/// scalars and arrays; for objects, every expected key exists in actual with
/// a value that contains the expected one.
pub open spec fn value_contains_spec(a: JsonValue, e: JsonValue) -> bool
    decreases e, 1nat,
{
    if !same_type(a, e) {
        false
    } else {
        match e {
            JsonValue::Object(em) => contains_entries(a->Object_0, em, em.len()),
            _ => json_equal(a, e),
        }
    }
}

/// Every one of the first `n` expected entries is contained in actual.
pub open spec fn contains_entries(
    am: Seq<(Seq<char>, JsonValue)>,
    em: Seq<(Seq<char>, JsonValue)>,
    n: nat,
) -> bool
    decreases em, n,
{
    if n == 0 {
        true
    } else if n > em.len() {
        false
    } else {
        contains_entries(am, em, (n - 1) as nat) && match obj_get(am, em[n - 1].0) {
            Some(av) => value_contains_spec(av, em[n - 1].1),
            None => false,
        }
    }
}

/// The number of actual elements that contain `e`.
pub open spec fn count_containing(aa: Seq<JsonValue>, e: JsonValue) -> nat
    decreases aa.len(),
{
    if aa.len() == 0 {
        0
    } else if value_contains_spec(aa.last(), e) {
        count_containing(aa.drop_last(), e) + 1
    } else {
        count_containing(aa.drop_last(), e)
    }
}

/// Contains-matching of the first `n` expected elements: the child nodes,
/// the number of matched expected elements, and the positions of the actual
/// elements they matched (the first containing one of each).
pub open spec fn contains_children(
    aa: Seq<JsonValue>,
    ea: Seq<JsonValue>,
    strategy: AmbiguousMatchStrategy,
    path: Seq<char>,
    n: nat,
) -> Result<(Seq<NodeView>, (nat, Set<int>)), ErrorView>
    decreases n,
{
    if n == 0 || n > ea.len() {
        Ok((Seq::empty(), (0, Set::empty())))
    } else {
        match contains_children(aa, ea, strategy, path, (n - 1) as nat) {
            Err(x) => Err(x),
            Ok((nodes, (matched, marks))) => {
                let el = ea[n - 1];
                let c = count_containing(aa, el);
                if c == 0 {
                    Ok(
                        (
                            nodes.push(NodeView::Leaf(SegmentView::Unmatched, KindView::Missing(el))),
                            (matched, marks),
                        ),
                    )
                } else if c > 1 && strategy is Strict {
                    Err(ErrorView::AmbiguousMatch(path, (c as u16) as int))
                } else if matched >= 65535 {
                    Err(ErrorView::TooManyMatches)
                } else {
                    Ok((nodes, (matched + 1, marks.insert(first_containing(aa, el, aa.len())))))
                }
            },
        }
    }
}

/// Compares two values (see [`diff_values`]).
pub open spec fn diff_values_spec(a: JsonValue, e: JsonValue, cfg: DiffConfig, path: Seq<char>) -> Result<
    ResultView,
    ErrorView,
>
    decreases e, 0nat,
{
    if !same_type(a, e) {
        Ok(ResultView::Leaf(KindView::TypeMismatch(a, json_type_name(a), e, json_type_name(e))))
    } else {
        match e {
            JsonValue::Object(em) => match object_children(a->Object_0, em, cfg, path, em.len()) {
                Ok(nodes) => Ok(
                    children_result(ChildKind::Fields, nodes, object_omitted(a->Object_0, em)),
                ),
                Err(x) => Err(x),
            },
            JsonValue::Array(ea) => diff_arrays_spec(a->Array_0, ea, cfg, path),
            _ => if json_equal(a, e) {
                Ok(ResultView::Equal)
            } else {
                Ok(ResultView::Leaf(KindView::Changed(a, e)))
            },
        }
    }
}

/// Diffs of the first `n` expected object entries.
pub open spec fn object_children(
    am: Seq<(Seq<char>, JsonValue)>,
    em: Seq<(Seq<char>, JsonValue)>,
    cfg: DiffConfig,
    path: Seq<char>,
    n: nat,
) -> Result<Seq<NodeView>, ErrorView>
    decreases em, n,
{
    if n == 0 || n > em.len() {
        Ok(Seq::empty())
    } else {
        match object_children(am, em, cfg, path, (n - 1) as nat) {
            Err(x) => Err(x),
            Ok(nodes) => {
                let key = em[n - 1].0;
                let ev = em[n - 1].1;
                let seg = SegmentView::Key(key);
                match obj_get(am, key) {
                    None => Ok(nodes.push(NodeView::Leaf(seg, KindView::Missing(ev)))),
                    Some(av) => match diff_values_spec(av, ev, cfg, child_path(path, key)) {
                        Err(x) => Err(x),
                        Ok(r) => Ok(push_result(nodes, seg, r)),
                    },
                }
            },
        }
    }
}

/// Compares two arrays with the match mode configured at `path`.
pub open spec fn diff_arrays_spec(
    aa: Seq<JsonValue>,
    ea: Seq<JsonValue>,
    cfg: DiffConfig,
    path: Seq<char>,
) -> Result<ResultView, ErrorView>
    decreases ea, ea.len() + 2,
{
    match mode_at(cfg, path) {
        ArrayMatchMode::Index => index_result(aa, ea, cfg, path),
        ArrayMatchMode::Contains => contains_result(aa, ea, strategy_at(cfg, path), path),
        _ => key_result(aa, ea, mode_keys(mode_at(cfg, path)), strategy_at(cfg, path), cfg, path),
    }
}

/// The result of index matching.
pub open spec fn index_result(aa: Seq<JsonValue>, ea: Seq<JsonValue>, cfg: DiffConfig, path: Seq<char>) -> Result<
    ResultView,
    ErrorView,
>
    decreases ea, ea.len() + 1,
{
    match index_children(aa, ea, cfg, path, ea.len()) {
        Ok(nodes) => Ok(children_result(ChildKind::Items, nodes, index_omitted(aa.len(), ea.len()))),
        Err(x) => Err(x),
    }
}

/// The result of key matching.
pub open spec fn key_result(
    aa: Seq<JsonValue>,
    ea: Seq<JsonValue>,
    keys: Seq<Seq<char>>,
    strategy: AmbiguousMatchStrategy,
    cfg: DiffConfig,
    path: Seq<char>,
) -> Result<ResultView, ErrorView>
    decreases ea, ea.len() + 1,
{
    match key_children(aa, ea, keys, strategy, cfg, path, ea.len()) {
        Ok((nodes, (_, marks))) => Ok(
            children_result(ChildKind::Items, nodes, matched_omitted(aa.len(), marks)),
        ),
        Err(x) => Err(x),
    }
}

/// The result of contains matching.
pub open spec fn contains_result(
    aa: Seq<JsonValue>,
    ea: Seq<JsonValue>,
    strategy: AmbiguousMatchStrategy,
    path: Seq<char>,
) -> Result<ResultView, ErrorView> {
    match contains_children(aa, ea, strategy, path, ea.len()) {
        Ok((nodes, (_, marks))) => Ok(
            children_result(ChildKind::Items, nodes, matched_omitted(aa.len(), marks)),
        ),
        Err(x) => Err(x),
    }
}

/// Index matching of the first `n` expected elements.
pub open spec fn index_children(
    aa: Seq<JsonValue>,
    ea: Seq<JsonValue>,
    cfg: DiffConfig,
    path: Seq<char>,
    n: nat,
) -> Result<Seq<NodeView>, ErrorView>
    decreases ea, n,
{
    if n == 0 || n > ea.len() {
        Ok(Seq::empty())
    } else {
        match index_children(aa, ea, cfg, path, (n - 1) as nat) {
            Err(x) => Err(x),
            Ok(nodes) => {
                let i = n - 1;
                let seg = SegmentView::Index(((i as int) as u16) as int);
                if i < aa.len() {
                    match diff_values_spec(aa[i], ea[i], cfg, path) {
                        Err(x) => Err(x),
                        Ok(r) => Ok(push_result(nodes, seg, r)),
                    }
                } else {
                    Ok(nodes.push(NodeView::Leaf(seg, KindView::Missing(ea[i]))))
                }
            },
        }
    }
}

/// Key matching of the first `n` expected elements: the child nodes, the
/// number of matched expected elements, and the positions of the actual
/// elements they matched (the only candidate, or the one picked as best).
pub open spec fn key_children(
    aa: Seq<JsonValue>,
    ea: Seq<JsonValue>,
    keys: Seq<Seq<char>>,
    strategy: AmbiguousMatchStrategy,
    cfg: DiffConfig,
    path: Seq<char>,
    n: nat,
) -> Result<(Seq<NodeView>, (nat, Set<int>)), ErrorView>
    decreases ea, n,
{
    if n == 0 || n > ea.len() {
        Ok((Seq::empty(), (0, Set::empty())))
    } else {
        match key_children(aa, ea, keys, strategy, cfg, path, (n - 1) as nat) {
            Err(x) => Err(x),
            Ok((nodes, (matched, marks))) => {
                let el = ea[n - 1];
                match key_tuple(el, keys) {
                    None => Err(ErrorView::MissingKeyField(path, first_missing_key(el, keys))),
                    Some(kt) => {
                        let cands = key_candidates(aa, keys, kt);
                        let idx = key_candidate_indices(aa, keys, kt);
                        let seg = element_segment(keys, kt);
                        if cands.len() == 0 {
                            Ok(
                                (
                                    nodes.push(
                                        NodeView::Leaf(SegmentView::Unmatched, KindView::Missing(el)),
                                    ),
                                    (matched, marks),
                                ),
                            )
                        } else if cands.len() > 1 && strategy is Strict {
                            Err(ErrorView::AmbiguousMatch(path, (cands.len() as u16) as int))
                        } else if matched >= 65535 {
                            Err(ErrorView::TooManyMatches)
                        } else if cands.len() == 1 {
                            match diff_values_spec(cands[0], el, cfg, path) {
                                Err(x) => Err(x),
                                Ok(r) => Ok(
                                    (push_result(nodes, seg, r), (matched + 1, marks.insert(idx[0]))),
                                ),
                            }
                        } else {
                            let chosen = idx[pick_index(cands, el, cfg, path, cands.len()) as int];
                            match pick_best_spec(cands, el, cfg, path) {
                                Err(x) => Err(x),
                                Ok(r) => Ok(
                                    (
                                        push_best(nodes, seg, r, strategy, (cands.len() as u16) as int),
                                        (matched + 1, marks.insert(chosen)),
                                    ),
                                ),
                            }
                        }
                    },
                }
            },
        }
    }
}

/// The candidate with the fewest diffs against `e` (see [`pick_best_match`]).
pub open spec fn pick_best_spec(cands: Seq<JsonValue>, e: JsonValue, cfg: DiffConfig, path: Seq<char>) -> Result<
    ResultView,
    ErrorView,
>
    decreases e, cands.len() + 2,
{
    match pick_prefix(cands, e, cfg, path, cands.len()) {
        Err(x) => Err(x),
        Ok(None) => Ok(ResultView::Equal),
        Ok(Some((r, _))) => Ok(r),
    }
}

/// The best of the first `m` candidates and its size; stops at the first
/// candidate that compares equal.
pub open spec fn pick_prefix(
    cands: Seq<JsonValue>,
    e: JsonValue,
    cfg: DiffConfig,
    path: Seq<char>,
    m: nat,
) -> Result<Option<(ResultView, nat)>, ErrorView>
    decreases e, m + 1,
{
    if m == 0 || m > cands.len() {
        Ok(None)
    } else {
        match pick_prefix(cands, e, cfg, path, (m - 1) as nat) {
            Err(x) => Err(x),
            Ok(prev) => if prev matches Some((ResultView::Equal, _)) {
                Ok(prev)
            } else {
                match diff_values_spec(cands[m - 1], e, cfg, path) {
                    Err(x) => Err(x),
                    Ok(ResultView::Equal) => Ok(Some((ResultView::Equal, 0))),
                    Ok(r) => {
                        let c = result_size(r);
                        match prev {
                            None => Ok(Some((r, c))),
                            Some((b, bc)) => if c < bc {
                                Ok(Some((r, c)))
                            } else {
                                Ok(prev)
                            },
                        }
                    },
                }
            },
        }
    }
}

/// The position among the first `m` candidates of the one whose result
/// [`pick_prefix`] keeps.
pub open spec fn pick_index(
    cands: Seq<JsonValue>,
    e: JsonValue,
    cfg: DiffConfig,
    path: Seq<char>,
    m: nat,
) -> nat
    decreases e, m + 1,
{
    if m == 0 || m > cands.len() {
        0
    } else {
        match pick_prefix(cands, e, cfg, path, (m - 1) as nat) {
            Err(_) => 0,
            Ok(prev) => if prev matches Some((ResultView::Equal, _)) {
                pick_index(cands, e, cfg, path, (m - 1) as nat)
            } else {
                match diff_values_spec(cands[m - 1], e, cfg, path) {
                    Err(_) => 0,
                    Ok(ResultView::Equal) => (m - 1) as nat,
                    Ok(r) => match prev {
                        None => (m - 1) as nat,
                        Some((_, bc)) => if result_size(r) < bc {
                            (m - 1) as nat
                        } else {
                            pick_index(cands, e, cfg, path, (m - 1) as nat)
                        },
                    },
                }
            },
        }
    }
}

/// The diff tree of `actual` against `expected` (see [`diff`]).
pub open spec fn diff_spec(a: JsonValue, e: JsonValue, cfg: DiffConfig) -> Result<Seq<NodeView>, ErrorView> {
    match diff_values_spec(a, e, cfg, Seq::empty()) {
        Err(x) => Err(x),
        Ok(ResultView::Children(_, nodes, _)) => Ok(nodes),
        Ok(ResultView::Leaf(k)) => Ok(seq![NodeView::Leaf(SegmentView::Key(Seq::empty()), k)]),
        Ok(ResultView::Equal) => Ok(Seq::empty()),
    }
}

// ---------------------------------------------------------------------------
// Lemmas: once a fold fails, it keeps failing with the same error
// ---------------------------------------------------------------------------

proof fn lemma_object_children_err(
    am: Seq<(Seq<char>, JsonValue)>,
    em: Seq<(Seq<char>, JsonValue)>,
    cfg: DiffConfig,
    path: Seq<char>,
    n: nat,
    m: nat,
)
    requires
        n <= m <= em.len(),
        object_children(am, em, cfg, path, n) is Err,
    ensures
        object_children(am, em, cfg, path, m) == object_children(am, em, cfg, path, n),
    decreases m,
{
    if m > n {
        lemma_object_children_err(am, em, cfg, path, n, (m - 1) as nat);
    }
}

proof fn lemma_index_children_err(
    aa: Seq<JsonValue>,
    ea: Seq<JsonValue>,
    cfg: DiffConfig,
    path: Seq<char>,
    n: nat,
    m: nat,
)
    requires
        n <= m <= ea.len(),
        index_children(aa, ea, cfg, path, n) is Err,
    ensures
        index_children(aa, ea, cfg, path, m) == index_children(aa, ea, cfg, path, n),
    decreases m,
{
    if m > n {
        lemma_index_children_err(aa, ea, cfg, path, n, (m - 1) as nat);
    }
}

proof fn lemma_key_children_err(
    aa: Seq<JsonValue>,
    ea: Seq<JsonValue>,
    keys: Seq<Seq<char>>,
    strategy: AmbiguousMatchStrategy,
    cfg: DiffConfig,
    path: Seq<char>,
    n: nat,
    m: nat,
)
    requires
        n <= m <= ea.len(),
        key_children(aa, ea, keys, strategy, cfg, path, n) is Err,
    ensures
        key_children(aa, ea, keys, strategy, cfg, path, m) == key_children(
            aa,
            ea,
            keys,
            strategy,
            cfg,
            path,
            n,
        ),
    decreases m,
{
    if m > n {
        lemma_key_children_err(aa, ea, keys, strategy, cfg, path, n, (m - 1) as nat);
    }
}

proof fn lemma_contains_children_err(
    aa: Seq<JsonValue>,
    ea: Seq<JsonValue>,
    strategy: AmbiguousMatchStrategy,
    path: Seq<char>,
    n: nat,
    m: nat,
)
    requires
        n <= m <= ea.len(),
        contains_children(aa, ea, strategy, path, n) is Err,
    ensures
        contains_children(aa, ea, strategy, path, m) == contains_children(aa, ea, strategy, path, n),
    decreases m,
{
    if m > n {
        lemma_contains_children_err(aa, ea, strategy, path, n, (m - 1) as nat);
    }
}

proof fn lemma_contains_entries_false(
    am: Seq<(Seq<char>, JsonValue)>,
    em: Seq<(Seq<char>, JsonValue)>,
    n: nat,
    m: nat,
)
    requires
        n <= m <= em.len(),
        !contains_entries(am, em, n),
    ensures
        !contains_entries(am, em, m),
    decreases m,
{
    if m > n {
        lemma_contains_entries_false(am, em, n, (m - 1) as nat);
    }
}

proof fn lemma_pick_prefix_stops(
    cands: Seq<JsonValue>,
    e: JsonValue,
    cfg: DiffConfig,
    path: Seq<char>,
    n: nat,
    m: nat,
)
    requires
        n <= m <= cands.len(),
        pick_prefix(cands, e, cfg, path, n) is Err || pick_prefix(cands, e, cfg, path, n) matches Ok(
            Some((ResultView::Equal, _)),
        ),
    ensures
        pick_prefix(cands, e, cfg, path, m) == pick_prefix(cands, e, cfg, path, n),
    decreases m,
{
    if m > n {
        lemma_pick_prefix_stops(cands, e, cfg, path, n, (m - 1) as nat);
    }
}

// ---------------------------------------------------------------------------
// Executable algorithm
// ---------------------------------------------------------------------------

/// Errors that can occur during diffing.
#[derive(Debug)]
pub enum Error {
    /// An expected array element holds no scalar under a distinguished key
    /// field required for key-based matching (the first such field).
    MissingKeyField {
        /// The dot-separated path to the array.
        path: String,
        /// The key field that was expected.
        key_field: String,
    },
    /// Multiple actual array elements matched a single expected element
    /// and the ambiguity strategy is set to Strict.
    AmbiguousMatch {
        /// The dot-separated path to the array.
        path: String,
        /// The number of candidates that matched.
        count: u16,
    },
}

impl View for Error {
    type V = ErrorView;

    open spec fn view(&self) -> ErrorView {
        match self {
            Error::MissingKeyField { path, key_field } => ErrorView::MissingKeyField(
                path@,
                key_field@,
            ),
            Error::AmbiguousMatch { path, count } => ErrorView::AmbiguousMatch(path@, *count as int),
        }
    }
}

/// The human-readable message of an error.
pub open spec fn error_message(e: ErrorView) -> Seq<char> {
    match e {
        ErrorView::MissingKeyField(path, key_field) => "expected array element at path `"@ + path
            + "` is missing the key field `"@ + key_field + "` required for matching"@,
        ErrorView::AmbiguousMatch(path, count) => "ambiguous match at path `"@ + path + "`: "@
            + decimal(count as nat) + " candidates matched"@,
        ErrorView::TooManyMatches => "more than 65535 expected elements matched"@,
    }
}

impl Error {
    /// The human-readable message describing the error.
    pub fn message(&self) -> (r: String)
        ensures
            r@ == error_message(self@),
    {
        let mut s = String::new();
        match self {
            Error::MissingKeyField { path, key_field } => {
                push_str(&mut s, "expected array element at path `");
                push_str(&mut s, path.as_str());
                push_str(&mut s, "` is missing the key field `");
                push_str(&mut s, key_field.as_str());
                push_str(&mut s, "` required for matching");
            },
            Error::AmbiguousMatch { path, count } => {
                push_str(&mut s, "ambiguous match at path `");
                push_str(&mut s, path.as_str());
                push_str(&mut s, "`: ");
                push_decimal(&mut s, *count as u64);
                push_str(&mut s, " candidates matched");
            },
        }
        s
    }
}

/// The result of comparing two values. Separates "what kind of diff" from
/// node construction, since the caller provides the `PathSegment`.
pub enum DiffResult {
    /// Values are equal.
    Equal,
    /// A leaf-level difference (scalar mismatch or type mismatch).
    Leaf(DiffKind),
    /// Child diff nodes from comparing container contents (objects or arrays).
    Children { child_kind: ChildKind, nodes: Vec<DiffNode>, omitted_count: u16 },
}

impl View for DiffResult {
    type V = ResultView;

    open spec fn view(&self) -> ResultView {
        match self {
            DiffResult::Equal => ResultView::Equal,
            DiffResult::Leaf(k) => ResultView::Leaf(k@),
            DiffResult::Children { child_kind, nodes, omitted_count } => ResultView::Children(
                *child_kind,
                nodes_view(nodes@),
                *omitted_count as int,
            ),
        }
    }
}

/// Why a comparison stopped: a diff error, or a match counter that would
/// overflow.
enum Abort {
    Failed(Error),
    TooManyMatches,
}

impl View for Abort {
    type V = ErrorView;

    closed spec fn view(&self) -> ErrorView {
        match self {
            Abort::Failed(e) => e@,
            Abort::TooManyMatches => ErrorView::TooManyMatches,
        }
    }
}

/// The model of an outcome of a comparison that may stop early.
spec fn outcome_view(r: Result<DiffResult, Abort>) -> Result<ResultView, ErrorView> {
    match r {
        Ok(x) => Ok(x@),
        Err(e) => Err(e@),
    }
}

/// The model of an outcome of [`diff_values`].
pub open spec fn result_view(r: Result<DiffResult, Error>) -> Result<ResultView, ErrorView> {
    match r {
        Ok(x) => Ok(x@),
        Err(e) => Err(e@),
    }
}

/// The model of an outcome of [`diff`].
pub open spec fn tree_result_view(r: Result<DiffTree, Error>) -> Result<Seq<NodeView>, ErrorView> {
    match r {
        Ok(t) => Ok(t@),
        Err(e) => Err(e@),
    }
}

/// Pushes a `DiffResult` as a child node, if it represents a difference.
fn push_diff_result(children: &mut Vec<DiffNode>, segment: PathSegment, result: DiffResult)
    ensures
        nodes_view(final(children)@) == push_result(nodes_view(old(children)@), segment@, result@),
{
    match result {
        DiffResult::Equal => {},
        DiffResult::Leaf(kind) => {
            let node = DiffNode::leaf(segment, kind);
            proof {
                lemma_nodes_view_push(children@, node);
            }
            children.push(node);
        },
        DiffResult::Children { child_kind, nodes, omitted_count } => {
            let node = DiffNode::container(segment, child_kind, omitted_count, nodes);
            proof {
                lemma_nodes_view_push(children@, node);
            }
            children.push(node);
        },
    }
}

/// Pushes the node for the result picked among `candidates` ambiguous
/// candidates (see [`push_best`]); `warning_segment` is a second copy of
/// `segment`, for the warning.
fn push_best_result(
    children: &mut Vec<DiffNode>,
    segment: PathSegment,
    warning_segment: PathSegment,
    result: DiffResult,
    strategy: &AmbiguousMatchStrategy,
    candidates: u16,
)
    requires
        warning_segment@ == segment@,
    ensures
        nodes_view(final(children)@) == push_best(
            nodes_view(old(children)@),
            segment@,
            result@,
            *strategy,
            candidates as int,
        ),
{
    match result {
        DiffResult::Children { child_kind, nodes, omitted_count } => {
            match strategy {
                AmbiguousMatchStrategy::BestMatch => {
                    let mut inner = nodes;
                    let ghost before = inner@;
                    let warning = DiffNode::leaf(warning_segment, DiffKind::ambiguous(candidates));
                    inner.insert(0, warning);
                    assert(nodes_view(inner@) =~= seq![warning@] + nodes_view(before));
                    let node = DiffNode::container(segment, child_kind, omitted_count, inner);
                    proof {
                        lemma_nodes_view_push(children@, node);
                    }
                    children.push(node);
                },
                _ => {
                    push_diff_result(
                        children,
                        segment,
                        DiffResult::Children { child_kind, nodes, omitted_count },
                    );
                },
            }
        },
        other => {
            push_diff_result(children, segment, other);
        },
    }
}

/// Pushes a leaf node.
fn push_leaf(children: &mut Vec<DiffNode>, segment: PathSegment, kind: DiffKind)
    ensures
        nodes_view(final(children)@) == nodes_view(old(children)@).push(
            NodeView::Leaf(segment@, kind@),
        ),
{
    let node = DiffNode::leaf(segment, kind);
    proof {
        lemma_nodes_view_push(children@, node);
    }
    children.push(node);
}

/// `Equal` when there are no child nodes, otherwise the children.
fn finish(child_kind: ChildKind, nodes: Vec<DiffNode>, omitted_count: u16) -> (r: DiffResult)
    ensures
        r@ == children_result(child_kind, nodes_view(nodes@), omitted_count as int),
{
    if nodes.len() == 0 {
        DiffResult::Equal
    } else {
        DiffResult::Children { child_kind, nodes, omitted_count }
    }
}

/// The dot-separated path of `key` below `path`.
pub(crate) fn child_path_of(path: &str, key: &str) -> (r: String)
    ensures
        r@ == child_path(path@, key@),
{
    if path.is_empty() {
        string_of(key)
    } else {
        let mut s = string_of(path);
        push_char(&mut s, '.');
        push_str(&mut s, key);
        s
    }
}

/// Checks whether `actual` contains all the data in `expected`.
///
/// For scalars, this is exact equality. For objects, every key in `expected`
/// must exist in `actual` with a matching value (recursively). For arrays,
/// this is exact equality (element-by-element).
pub fn value_contains(actual: &Value, expected: &Value) -> (r: bool)
    ensures
        r == value_contains_spec(actual@, expected@),
    decreases expected@,
{
    if !actual.same_type_as(expected) {
        return false;
    }
    match (actual, expected) {
        (Value::Object(am), Value::Object(em)) => {
            let mut i: usize = 0;
            while i < em.len()
                invariant
                    i <= em@.len(),
                    actual@ == JsonValue::Object(am@),
                    expected@ == JsonValue::Object(em@),
                    contains_entries(am@, em@, i as nat),
                decreases em@.len() - i,
            {
                let ok = match am.get(em.key_at(i).as_str()) {
                    Some(av) => {
                        proof {
                            assert(decreases_to!(expected@ => expected@->Object_0));
                            assert(decreases_to!(em@ => em@[i as int]));
                        }
                        value_contains(av, em.value_at(i))
                    },
                    None => false,
                };
                if !ok {
                    proof {
                        lemma_contains_entries_false(am@, em@, (i + 1) as nat, em@.len());
                    }
                    return false;
                }
                i = i + 1;
            }
            true
        },
        _ => actual.equals(expected),
    }
}

/// Recursively compares two values (see [`diff_values`]), stopping where a
/// match counter would overflow.
fn compare(actual: &Value, expected: &Value, config: &DiffConfig, path: &str) -> (r: Result<
    DiffResult,
    Abort,
>)
    ensures
        outcome_view(r) == diff_values_spec(actual@, expected@, *config, path@),
    decreases expected@, 3nat,
{
    // Type mismatch (e.g. string vs number, object vs array).
    if !actual.same_type_as(expected) {
        return Ok(
            DiffResult::Leaf(
                DiffKind::type_mismatch(
                    actual.clone(),
                    actual.kind_name(),
                    expected.clone(),
                    expected.kind_name(),
                ),
            ),
        );
    }
    match (actual, expected) {
        (Value::Object(_), Value::Object(_)) => diff_objects(actual, expected, config, path),
        (Value::Array(_), Value::Array(_)) => diff_arrays(actual, expected, config, path),
        _ => {
            // Scalars: direct comparison.
            if actual.equals(expected) {
                Ok(DiffResult::Equal)
            } else {
                Ok(DiffResult::Leaf(DiffKind::changed(actual.clone(), expected.clone())))
            }
        },
    }
}

/// Compares two objects: iterates the expected keys; a key missing from
/// actual produces a `Missing` leaf, a present key recurses.
fn diff_objects(actual: &Value, expected: &Value, config: &DiffConfig, path: &str) -> (r: Result<DiffResult, Abort>)
    requires
        actual@ is Object,
        expected@ is Object,
    ensures
        outcome_view(r) == diff_values_spec(actual@, expected@, *config, path@),
    decreases expected@, 2nat,
{
    let (am, em) = match (actual, expected) {
        (Value::Object(am), Value::Object(em)) => (am, em),
        _ => {
            proof {
                assert(false);
            }
            return Ok(DiffResult::Equal);
        },
    };
    let mut children: Vec<DiffNode> = Vec::new();
    let mut i: usize = 0;
    assert(nodes_view(children@) =~= Seq::<NodeView>::empty());
    while i < em.len()
        invariant
            i <= em@.len(),
            actual@ == JsonValue::Object(am@),
            expected@ == JsonValue::Object(em@),
            object_children(am@, em@, *config, path@, i as nat) == Ok::<Seq<NodeView>, ErrorView>(
                nodes_view(children@),
            ),
        decreases em@.len() - i,
    {
        let key = em.key_at(i);
        let expected_val = em.value_at(i);
        let segment = PathSegment::Key(key.clone());
        match am.get(key.as_str()) {
            None => {
                push_leaf(&mut children, segment, DiffKind::missing(expected_val.clone()));
            },
            Some(actual_val) => {
                let child_path = child_path_of(path, key.as_str());
                proof {
                    assert(decreases_to!(expected@ => expected@->Object_0));
                    assert(decreases_to!(em@ => em@[i as int]));
                }
                match compare(actual_val, expected_val, config, child_path.as_str()) {
                    Err(e) => {
                        proof {
                            lemma_object_children_err(
                                am@,
                                em@,
                                *config,
                                path@,
                                (i + 1) as nat,
                                em@.len(),
                            );
                        }
                        return Err(e);
                    },
                    Ok(result) => {
                        push_diff_result(&mut children, segment, result);
                    },
                }
            },
        }
        i = i + 1;
    }
    // Actual keys that have no corresponding expected key; the renderer shows
    // them as "# N fields omitted".
    let mut absent: usize = 0;
    let mut j: usize = 0;
    while j < am.len()
        invariant
            j <= am@.len(),
            absent == count_absent(am@, em@, j as nat),
            absent <= j,
        decreases am@.len() - j,
    {
        if em.get(am.key_at(j).as_str()).is_none() {
            absent = absent + 1;
        }
        j = j + 1;
    }
    Ok(finish(ChildKind::Fields, children, absent as u16))
}

/// Compares two arrays, dispatching on the match mode configured at `path`.
fn diff_arrays(actual: &Value, expected: &Value, config: &DiffConfig, path: &str) -> (r: Result<DiffResult, Abort>)
    requires
        actual@ is Array,
        expected@ is Array,
    ensures
        outcome_view(r) == diff_values_spec(actual@, expected@, *config, path@),
    decreases expected@, 2nat,
{
    let path_config = config.match_config().config_at(path);
    let mode = match path_config {
        Some(c) => c.mode(),
        None => config.default_array_mode(),
    };
    let strategy = match path_config {
        Some(c) => match c.ambiguous_strategy() {
            Some(s) => s,
            None => config.default_ambiguous_strategy(),
        },
        None => config.default_ambiguous_strategy(),
    };
    match mode {
        ArrayMatchMode::Index => diff_arrays_by_index(actual, expected, config, path),
        ArrayMatchMode::Key(key_field) => {
            let mut keys: Vec<String> = Vec::new();
            keys.push(string_of(key_field.as_str()));
            assert(keys_view(keys@) =~= mode_keys(*mode));
            diff_arrays_by_key(actual, expected, &keys, strategy, config, path)
        },
        ArrayMatchMode::Keys(keys) => {
            assert(keys_view(keys@) =~= mode_keys(*mode));
            diff_arrays_by_key(actual, expected, keys, strategy, config, path)
        },
        ArrayMatchMode::Contains => diff_arrays_by_contains(actual, expected, strategy, path),
    }
}

/// Index-based array matching: compares elements at the same position.
fn diff_arrays_by_index(actual: &Value, expected: &Value, config: &DiffConfig, path: &str) -> (r:
    Result<DiffResult, Abort>)
    requires
        actual@ is Array,
        expected@ is Array,
    ensures
        outcome_view(r) == index_result(
            actual@->Array_0,
            expected@->Array_0,
            *config,
            path@,
        ),
    decreases expected@, 1nat,
{
    let (aa, ea) = match (actual, expected) {
        (Value::Array(aa), Value::Array(ea)) => (aa, ea),
        _ => {
            proof {
                assert(false);
            }
            return Ok(DiffResult::Equal);
        },
    };
    let ghost av = actual@->Array_0;
    let ghost ev = expected@->Array_0;
    let mut children: Vec<DiffNode> = Vec::new();
    let mut i: usize = 0;
    assert(nodes_view(children@) =~= Seq::<NodeView>::empty());
    while i < ea.len()
        invariant
            i <= ea@.len(),
            av == actual@->Array_0,
            ev == expected@->Array_0,
            av.len() == aa@.len(),
            ev.len() == ea@.len(),
            forall|k: int| 0 <= k < aa@.len() ==> #[trigger] av[k] == aa@[k]@,
            forall|k: int| 0 <= k < ea@.len() ==> #[trigger] ev[k] == ea@[k]@,
            expected@ == JsonValue::Array(ev),
            index_children(av, ev, *config, path@, i as nat) == Ok::<Seq<NodeView>, ErrorView>(
                nodes_view(children@),
            ),
        decreases ea@.len() - i,
    {
        let segment = PathSegment::Index(i as u16);
        if i < aa.len() {
            proof {
                assert(decreases_to!(expected@ => expected@->Array_0));
                assert(decreases_to!(ev => ev[i as int]));
            }
            match compare(&aa[i], &ea[i], config, path) {
                Err(e) => {
                    proof {
                        lemma_index_children_err(av, ev, *config, path@, (i + 1) as nat, ev.len());
                    }
                    return Err(e);
                },
                Ok(result) => {
                    push_diff_result(&mut children, segment, result);
                },
            }
        } else {
            push_leaf(&mut children, segment, DiffKind::missing(ea[i].clone()));
        }
        i = i + 1;
    }
    // Extra actual elements; the renderer shows them as "# N items omitted".
    let omitted = aa.len().saturating_sub(ea.len()) as u16;
    Ok(finish(ChildKind::Items, children, omitted))
}

/// The models of a sequence of values.
pub open spec fn values_view(vs: Seq<Value>) -> Seq<JsonValue> {
    Seq::new(vs.len(), |i: int| vs[i]@)
}

/// The models of a sequence of value references.
pub open spec fn refs_view(vs: Seq<&Value>) -> Seq<JsonValue> {
    Seq::new(vs.len(), |i: int| vs[i]@)
}

proof fn lemma_array_view(v: Value)
    requires
        v is Array,
    ensures
        v@->Array_0 == values_view(v->Array_0@),
{
    assert(v@->Array_0 =~= values_view(v->Array_0@));
}

/// The scalars that `v` holds under each of `keys`, or the position of the
/// first key under which it holds none.
fn key_tuple_of<'a>(v: &'a Value, keys: &Vec<String>) -> (r: Result<Vec<&'a Value>, usize>)
    ensures
        match r {
            Ok(t) => key_tuple(v@, keys_view(keys@)) == Some(refs_view(t@)),
            Err(j) => key_tuple(v@, keys_view(keys@)) is None && j < keys@.len() && first_missing_key(
                v@,
                keys_view(keys@),
            ) == keys@[j as int]@,
        },
{
    let ghost kv = keys_view(keys@);
    let mut t: Vec<&Value> = Vec::new();
    let mut i: usize = 0;
    assert(kv.take(0) =~= Seq::<Seq<char>>::empty());
    assert(refs_view(t@) =~= Seq::<JsonValue>::empty());
    while i < keys.len()
        invariant
            i <= keys@.len(),
            kv == keys_view(keys@),
            key_tuple(v@, kv.take(i as int)) == Some(refs_view(t@)),
        decreases keys@.len() - i,
    {
        assert(kv.take(i + 1).drop_last() =~= kv.take(i as int));
        assert(kv.take(i + 1).last() == keys@[i as int]@);
        match v.get_scalar(keys[i].as_str()) {
            Some(x) => {
                let ghost before = t@;
                t.push(x);
                assert(refs_view(t@) =~= refs_view(before).push(x@));
            },
            None => {
                proof {
                    lemma_key_tuple_stays_missing(v@, kv, (i + 1) as nat, kv.len());
                    assert(kv.take(kv.len() as int) =~= kv);
                }
                return Err(i);
            },
        }
        i = i + 1;
    }
    assert(kv.take(kv.len() as int) =~= kv);
    Ok(t)
}

/// Whether the key fields of `v` hold values equal to `kt`.
fn tuple_matches_exec(v: &Value, keys: &Vec<String>, kt: &Vec<&Value>) -> (r: bool)
    ensures
        r == tuple_matches(v@, keys_view(keys@), refs_view(kt@)),
{
    match key_tuple_of(v, keys) {
        Err(_) => false,
        Ok(t) => {
            if t.len() != kt.len() {
                return false;
            }
            let ghost tv = refs_view(t@);
            let ghost kv = refs_view(kt@);
            let mut i: usize = 0;
            while i < t.len()
                invariant
                    i <= t@.len(),
                    t@.len() == kt@.len(),
                    tv == refs_view(t@),
                    kv == refs_view(kt@),
                    key_tuple(v@, keys_view(keys@)) == Some(tv),
                    forall|j: int| 0 <= j < i ==> json_equal(#[trigger] tv[j], kv[j]),
                decreases t@.len() - i,
            {
                if !t[i].equals(kt[i]) {
                    assert(!json_equal(tv[i as int], kv[i as int]));
                    return false;
                }
                i = i + 1;
            }
            true
        },
    }
}

/// How a scalar key value is shown in a path segment (see
/// [`key_value_text`]).
fn key_value_text_of(x: &Value) -> (r: String)
    requires
        crate::value::is_scalar(x@),
    ensures
        r@ == key_value_text(x@),
{
    match x {
        Value::String(s) => string_of(s.as_str()),
        _ => format_scalar(x),
    }
}

/// The segment of an element matched by `keys` with values `kt` (see
/// [`element_segment`]).
fn element_segment_of(keys: &Vec<String>, kt: &Vec<&Value>) -> (r: PathSegment)
    requires
        kt@.len() == keys@.len(),
        forall|i: int| 0 <= i < kt@.len() ==> crate::value::is_scalar(#[trigger] kt@[i]@),
    ensures
        r@ == element_segment(keys_view(keys@), refs_view(kt@)),
{
    if keys.len() == 1 {
        let seg = PathSegment::NamedElement {
            match_key: string_of(keys[0].as_str()),
            match_value: key_value_text_of(kt[0]),
        };
        seg
    } else {
        let ghost kv = keys_view(keys@);
        let ghost tv = refs_view(kt@);
        let mut pairs: Vec<(String, String)> = Vec::new();
        let mut i: usize = 0;
        while i < keys.len()
            invariant
                i <= keys@.len(),
                kt@.len() == keys@.len(),
                kv == keys_view(keys@),
                tv == refs_view(kt@),
                forall|j: int| 0 <= j < kt@.len() ==> crate::value::is_scalar(#[trigger] kt@[j]@),
                crate::model::pairs_view(pairs@) =~= Seq::new(
                    i as nat,
                    |j: int| (kv[j], key_value_text(tv[j])),
                ),
            decreases keys@.len() - i,
        {
            let k = string_of(keys[i].as_str());
            let t = key_value_text_of(kt[i]);
            let ghost before = pairs@;
            assert(kv[i as int] == keys@[i as int]@);
            assert(tv[i as int] == kt@[i as int]@);
            pairs.push((k, t));
            assert(crate::model::pairs_view(pairs@) =~= crate::model::pairs_view(before).push(
                (kv[i as int], key_value_text(tv[i as int])),
            ));
            i = i + 1;
        }
        PathSegment::KeyedElement { keys: pairs }
    }
}

/// The actual elements whose key fields hold values equal to `kt`, with
/// their positions.
fn collect_key_candidates<'a>(aa: &'a Vec<Value>, keys: &Vec<String>, kt: &Vec<&Value>) -> (r: (
    Vec<&'a Value>,
    Vec<usize>,
))
    ensures
        refs_view(r.0@) == key_candidates(values_view(aa@), keys_view(keys@), refs_view(kt@)),
        r.1@.len() == r.0@.len(),
        forall|k: int|
            0 <= k < r.1@.len() ==> (#[trigger] r.1@[k]) as int == key_candidate_indices(
                values_view(aa@),
                keys_view(keys@),
                refs_view(kt@),
            )[k] && r.1@[k] < aa@.len(),
{
    let ghost av = values_view(aa@);
    let ghost ks = keys_view(keys@);
    let ghost tv = refs_view(kt@);
    let mut out: Vec<&Value> = Vec::new();
    let mut pos: Vec<usize> = Vec::new();
    let mut j: usize = 0;
    assert(av.take(0) =~= Seq::<JsonValue>::empty());
    assert(refs_view(out@) =~= Seq::<JsonValue>::empty());
    while j < aa.len()
        invariant
            j <= aa@.len(),
            av == values_view(aa@),
            ks == keys_view(keys@),
            tv == refs_view(kt@),
            refs_view(out@) == key_candidates(av.take(j as int), ks, tv),
            pos@.len() == out@.len(),
            key_candidate_indices(av.take(j as int), ks, tv).len() == pos@.len(),
            forall|k: int|
                0 <= k < pos@.len() ==> (#[trigger] pos@[k]) as int == key_candidate_indices(
                    av.take(j as int),
                    ks,
                    tv,
                )[k] && pos@[k] < j,
        decreases aa@.len() - j,
    {
        let elem = &aa[j];
        let matches = tuple_matches_exec(elem, keys, kt);
        proof {
            assert(av.take(j + 1).drop_last() =~= av.take(j as int));
            assert(av.take(j + 1).last() == elem@);
        }
        if matches {
            let ghost before = out@;
            out.push(elem);
            pos.push(j);
            assert(refs_view(out@) =~= refs_view(before).push(elem@));
        }
        j = j + 1;
    }
    assert(av.take(aa@.len() as int) =~= av);
    (out, pos)
}

/// `n` unset flags.
fn unmarked(n: usize) -> (r: Vec<bool>)
    ensures
        r@.len() == n,
        flags_match(r@, Set::empty()),
{
    let mut r: Vec<bool> = Vec::new();
    let mut j: usize = 0;
    while j < n
        invariant
            j <= n,
            r@.len() == j,
            forall|k: int| 0 <= k < j ==> !(#[trigger] r@[k]),
        decreases n - j,
    {
        r.push(false);
        j = j + 1;
    }
    r
}

/// Whether `flags` records exactly the positions of `marks` below its length.
spec fn flags_match(flags: Seq<bool>, marks: Set<int>) -> bool {
    forall|j: int| 0 <= j < flags.len() ==> #[trigger] flags[j] == marks.contains(j)
}

/// The number of unset flags, that is of positions outside `marks`.
fn count_unmatched(flags: &Vec<bool>, Ghost(marks): Ghost<Set<int>>) -> (r: usize)
    requires
        flags_match(flags@, marks),
    ensures
        r == unmatched_count(marks, flags@.len()),
{
    let mut count: usize = 0;
    let mut j: usize = 0;
    while j < flags.len()
        invariant
            j <= flags@.len(),
            flags_match(flags@, marks),
            count == unmatched_count(marks, j as nat),
            count <= j,
        decreases flags@.len() - j,
    {
        assert(flags@[j as int] == marks.contains(j as int));
        if !flags[j] {
            count = count + 1;
        }
        j = j + 1;
    }
    count
}

/// Marks position `k` in `flags`, recording it in the ghost set `marks`.
fn mark(flags: &mut Vec<bool>, k: usize, Ghost(marks): Ghost<Set<int>>)
    requires
        flags_match(old(flags)@, marks),
    ensures
        flags_match(final(flags)@, marks.insert(k as int)),
        final(flags)@.len() == old(flags)@.len(),
{
    if k < flags.len() {
        flags.set(k, true);
    }
    assert forall|j: int| 0 <= j < flags@.len() implies #[trigger] flags@[j] == marks.insert(
        k as int,
    ).contains(j) by {
        if j != k {
            assert(flags@[j] == old(flags)@[j]);
        }
    }
}

/// The position of the first actual element that contains `expected`, or
/// `aa.len()` when there is none.
fn first_containing_exec(aa: &Vec<Value>, expected: &Value) -> (r: usize)
    ensures
        r == first_containing(values_view(aa@), expected@, aa@.len()),
{
    let ghost av = values_view(aa@);
    let mut j: usize = 0;
    while j < aa.len()
        invariant
            j <= aa@.len(),
            av == values_view(aa@),
            first_containing(av, expected@, j as nat) == av.len(),
        decreases aa@.len() - j,
    {
        assert(av[j as int] == aa@[j as int]@);
        if value_contains(&aa[j], expected) {
            proof {
                lemma_first_containing_stays(av, expected@, (j + 1) as nat, av.len());
            }
            return j;
        }
        j = j + 1;
    }
    aa.len()
}

proof fn lemma_first_containing_stays(aa: Seq<JsonValue>, e: JsonValue, n: nat, m: nat)
    requires
        0 < n <= m <= aa.len(),
        first_containing(aa, e, n) < aa.len(),
    ensures
        first_containing(aa, e, m) == first_containing(aa, e, n),
    decreases m,
{
    if m > n {
        lemma_first_containing_stays(aa, e, n, (m - 1) as nat);
    }
}

/// The number of actual elements that contain `expected`.
fn count_containing_exec(aa: &Vec<Value>, expected: &Value) -> (r: usize)
    ensures
        r == count_containing(values_view(aa@), expected@),
        r <= aa@.len(),
{
    let ghost av = values_view(aa@);
    let mut count: usize = 0;
    let mut j: usize = 0;
    assert(av.take(0) =~= Seq::<JsonValue>::empty());
    while j < aa.len()
        invariant
            j <= aa@.len(),
            av == values_view(aa@),
            count == count_containing(av.take(j as int), expected@),
            count <= j,
        decreases aa@.len() - j,
    {
        proof {
            assert(av.take(j + 1).drop_last() =~= av.take(j as int));
            assert(av.take(j + 1).last() == aa@[j as int]@);
        }
        if value_contains(&aa[j], expected) {
            count = count + 1;
        }
        j = j + 1;
    }
    assert(av.take(aa@.len() as int) =~= av);
    count
}

/// Key-based array matching: matches elements by distinguished key fields.
///
/// For each expected element, extracts the values of the `keys` fields and
/// scans the actual array for elements with the same key values.
fn diff_arrays_by_key(
    actual: &Value,
    expected: &Value,
    keys: &Vec<String>,
    ambiguous_strategy: &AmbiguousMatchStrategy,
    config: &DiffConfig,
    path: &str,
) -> (r: Result<DiffResult, Abort>)
    requires
        actual@ is Array,
        expected@ is Array,
    ensures
        outcome_view(r) == key_result(
            actual@->Array_0,
            expected@->Array_0,
            keys_view(keys@),
            *ambiguous_strategy,
            *config,
            path@,
        ),
    decreases expected@, 1nat,
{
    let (aa, ea) = match (actual, expected) {
        (Value::Array(aa), Value::Array(ea)) => (aa, ea),
        _ => {
            proof {
                assert(false);
            }
            return Ok(DiffResult::Equal);
        },
    };
    let ghost av = actual@->Array_0;
    let ghost ev = expected@->Array_0;
    proof {
        lemma_array_view(*actual);
    }
    let mut children: Vec<DiffNode> = Vec::new();
    let mut matched_count: u16 = 0;
    let mut flags = unmarked(aa.len());
    let ghost mut marks: Set<int> = Set::empty();
    let mut i: usize = 0;
    assert(nodes_view(children@) =~= Seq::<NodeView>::empty());
    while i < ea.len()
        invariant
            i <= ea@.len(),
            av == actual@->Array_0,
            ev == expected@->Array_0,
            av == values_view(aa@),
            ev.len() == ea@.len(),
            forall|k: int| 0 <= k < ea@.len() ==> #[trigger] ev[k] == ea@[k]@,
            expected@ == JsonValue::Array(ev),
            flags@.len() == aa@.len(),
            flags_match(flags@, marks),
            key_children(av, ev, keys_view(keys@), *ambiguous_strategy, *config, path@, i as nat) == Ok::<
                (Seq<NodeView>, (nat, Set<int>)),
                ErrorView,
            >((nodes_view(children@), (matched_count as nat, marks))),
        decreases ea@.len() - i,
    {
        let expected_elem = &ea[i];
        let expected_keys = match key_tuple_of(expected_elem, keys) {
            Ok(t) => t,
            Err(missing) => {
                proof {
                    lemma_key_children_err(
                        av,
                        ev,
                        keys_view(keys@),
                        *ambiguous_strategy,
                        *config,
                        path@,
                        (i + 1) as nat,
                        ev.len(),
                    );
                }
                return Err(
                    Abort::Failed(
                        Error::MissingKeyField {
                            path: string_of(path),
                            key_field: string_of(keys[missing].as_str()),
                        },
                    ),
                );
            },
        };
        proof {
            lemma_key_tuple_shape(expected_elem@, keys_view(keys@));
            assert forall|j: int| 0 <= j < expected_keys@.len() implies crate::value::is_scalar(
                #[trigger] expected_keys@[j]@,
            ) by {
                assert(refs_view(expected_keys@)[j] == expected_keys@[j]@);
            }
        }
        let (candidates, positions) = collect_key_candidates(aa, keys, &expected_keys);
        let ghost cands = refs_view(candidates@);
        proof {
            assert(decreases_to!(expected@ => expected@->Array_0));
            assert(decreases_to!(ev => ev[i as int]));
        }
        if candidates.len() == 0 {
            push_leaf(&mut children, PathSegment::Unmatched, DiffKind::missing(expected_elem.clone()));
        } else if candidates.len() == 1 {
            if matched_count == 65535 {
                proof {
                    lemma_key_children_err(
                        av,
                        ev,
                        keys_view(keys@),
                        *ambiguous_strategy,
                        *config,
                        path@,
                        (i + 1) as nat,
                        ev.len(),
                    );
                }
                return Err(Abort::TooManyMatches);
            }
            matched_count = matched_count + 1;
            let segment = element_segment_of(keys, &expected_keys);
            assert(cands[0] == candidates@[0]@);
            match compare(candidates[0], expected_elem, config, path) {
                Err(e) => {
                    proof {
                        lemma_key_children_err(
                            av,
                            ev,
                            keys_view(keys@),
                            *ambiguous_strategy,
                            *config,
                            path@,
                            (i + 1) as nat,
                            ev.len(),
                        );
                    }
                    return Err(e);
                },
                Ok(result) => {
                    push_diff_result(&mut children, segment, result);
                    mark(&mut flags, positions[0], Ghost(marks));
                    proof {
                        marks = marks.insert(positions@[0] as int);
                    }
                },
            }
        } else {
            match ambiguous_strategy {
                AmbiguousMatchStrategy::Strict => {
                    proof {
                        lemma_key_children_err(
                            av,
                            ev,
                            keys_view(keys@),
                            *ambiguous_strategy,
                            *config,
                            path@,
                            (i + 1) as nat,
                            ev.len(),
                        );
                    }
                    return Err(
                        Abort::Failed(
                            Error::AmbiguousMatch {
                                path: string_of(path),
                                count: candidates.len() as u16,
                            },
                        ),
                    );
                },
                _ => {
                    if matched_count == 65535 {
                        proof {
                            lemma_key_children_err(
                                av,
                                ev,
                                keys_view(keys@),
                                *ambiguous_strategy,
                                *config,
                                path@,
                                (i + 1) as nat,
                                ev.len(),
                            );
                        }
                        return Err(Abort::TooManyMatches);
                    }
                    matched_count = matched_count + 1;
                    let segment = element_segment_of(keys, &expected_keys);
                    let warning_segment = element_segment_of(keys, &expected_keys);
                    let (picked, chosen) = pick_best_match(&candidates, expected_elem, config, path);
                    match picked {
                        Err(e) => {
                            proof {
                                lemma_key_children_err(
                                    av,
                                    ev,
                                    keys_view(keys@),
                                    *ambiguous_strategy,
                                    *config,
                                    path@,
                                    (i + 1) as nat,
                                    ev.len(),
                                );
                            }
                            return Err(e);
                        },
                        Ok(best) => {
                            push_best_result(
                                &mut children,
                                segment,
                                warning_segment,
                                best,
                                ambiguous_strategy,
                                candidates.len() as u16,
                            );
                            mark(&mut flags, positions[chosen], Ghost(marks));
                            proof {
                                marks = marks.insert(positions@[chosen as int] as int);
                            }
                        },
                    }
                },
            }
        }
        i = i + 1;
    }
    // Actual elements beyond the matched ones; shown as "# N items omitted".
    let unmatched = count_unmatched(&flags, Ghost(marks));
    let omitted = unmatched as u16;
    Ok(finish(ChildKind::Items, children, omitted))
}

/// Picks the candidate with the fewest diffs against the expected element.
///
/// Returns the result of comparing the best candidate; the first candidate
/// that compares equal wins immediately, and among the others the first with
/// the fewest direct child diffs wins.
fn pick_best_match(cands: &Vec<&Value>, expected: &Value, config: &DiffConfig, path: &str) -> (r: (
    Result<DiffResult, Abort>,
    usize,
))
    ensures
        outcome_view(r.0) == pick_best_spec(refs_view(cands@), expected@, *config, path@),
        r.0 is Ok && cands@.len() > 0 ==> r.1 as int == pick_index(
            refs_view(cands@),
            expected@,
            *config,
            path@,
            cands@.len(),
        ) && r.1 < cands@.len(),
    decreases expected@, 4nat,
{
    let ghost cv = refs_view(cands@);
    let mut best: Option<DiffResult> = None;
    let mut best_count: usize = 0;
    let mut best_idx: usize = 0;
    let mut i: usize = 0;
    while i < cands.len()
        invariant
            i <= cands@.len(),
            cv == refs_view(cands@),
            pick_prefix(cv, expected@, *config, path@, i as nat) == Ok::<
                Option<(ResultView, nat)>,
                ErrorView,
            >(
                match best {
                    None => None,
                    Some(b) => Some((b@, best_count as nat)),
                },
            ),
            best matches Some(b) ==> !(b@ is Equal),
            i > 0 ==> best is Some,
            best is Some ==> best_idx < i && best_idx as int == pick_index(
                cv,
                expected@,
                *config,
                path@,
                i as nat,
            ),
        decreases cands@.len() - i,
    {
        assert(cv[i as int] == cands@[i as int]@);
        match compare(cands[i], expected, config, path) {
            Err(e) => {
                proof {
                    lemma_pick_prefix_stops(cv, expected@, *config, path@, (i + 1) as nat, cv.len());
                }
                return (Err(e), 0);
            },
            Ok(result) => {
                if let DiffResult::Equal = result {
                    proof {
                        lemma_pick_prefix_stops(
                            cv,
                            expected@,
                            *config,
                            path@,
                            (i + 1) as nat,
                            cv.len(),
                        );
                        lemma_pick_index_stops(cv, expected@, *config, path@, (i + 1) as nat, cv.len());
                    }
                    return (Ok(DiffResult::Equal), i);
                }
                // Count direct child diffs as a rough proxy for "how different".
                let count = match &result {
                    DiffResult::Children { nodes, .. } => nodes.len(),
                    DiffResult::Leaf(_) => 1,
                    DiffResult::Equal => 0,
                };
                if best.is_none() || count < best_count {
                    best = Some(result);
                    best_count = count;
                    best_idx = i;
                }
            },
        }
        i = i + 1;
    }
    match best {
        Some(b) => (Ok(b), best_idx),
        None => (Ok(DiffResult::Equal), 0),
    }
}

proof fn lemma_pick_index_stops(
    cands: Seq<JsonValue>,
    e: JsonValue,
    cfg: DiffConfig,
    path: Seq<char>,
    n: nat,
    m: nat,
)
    requires
        0 < n <= m <= cands.len(),
        pick_prefix(cands, e, cfg, path, n) matches Ok(Some((ResultView::Equal, _))),
    ensures
        pick_index(cands, e, cfg, path, m) == pick_index(cands, e, cfg, path, n),
    decreases m,
{
    if m > n {
        lemma_pick_index_stops(cands, e, cfg, path, n, (m - 1) as nat);
        lemma_pick_prefix_stops(cands, e, cfg, path, n, (m - 1) as nat);
    }
}

/// Contains-based array matching: finds a matching element anywhere in the
/// actual array.
///
/// A matched candidate contains every expected field, so it always compares
/// equal and is not recursed into.
fn diff_arrays_by_contains(
    actual: &Value,
    expected: &Value,
    ambiguous_strategy: &AmbiguousMatchStrategy,
    path: &str,
) -> (r: Result<DiffResult, Abort>)
    requires
        actual@ is Array,
        expected@ is Array,
    ensures
        outcome_view(r) == contains_result(
            actual@->Array_0,
            expected@->Array_0,
            *ambiguous_strategy,
            path@,
        ),
{
    let (aa, ea) = match (actual, expected) {
        (Value::Array(aa), Value::Array(ea)) => (aa, ea),
        _ => {
            proof {
                assert(false);
            }
            return Ok(DiffResult::Equal);
        },
    };
    let ghost av = actual@->Array_0;
    let ghost ev = expected@->Array_0;
    proof {
        lemma_array_view(*actual);
        lemma_array_view(*expected);
    }
    let mut children: Vec<DiffNode> = Vec::new();
    let mut matched_count: u16 = 0;
    let mut flags = unmarked(aa.len());
    let ghost mut marks: Set<int> = Set::empty();
    let mut i: usize = 0;
    assert(nodes_view(children@) =~= Seq::<NodeView>::empty());
    while i < ea.len()
        invariant
            i <= ea@.len(),
            av == actual@->Array_0,
            ev == expected@->Array_0,
            av == values_view(aa@),
            ev == values_view(ea@),
            flags@.len() == aa@.len(),
            flags_match(flags@, marks),
            contains_children(av, ev, *ambiguous_strategy, path@, i as nat) == Ok::<
                (Seq<NodeView>, (nat, Set<int>)),
                ErrorView,
            >((nodes_view(children@), (matched_count as nat, marks))),
        decreases ea@.len() - i,
    {
        let expected_elem = &ea[i];
        let count = count_containing_exec(aa, expected_elem);
        if count == 0 {
            push_leaf(&mut children, PathSegment::Unmatched, DiffKind::missing(expected_elem.clone()));
        } else if count == 1 {
            if matched_count == 65535 {
                proof {
                    lemma_contains_children_err(
                        av,
                        ev,
                        *ambiguous_strategy,
                        path@,
                        (i + 1) as nat,
                        ev.len(),
                    );
                }
                return Err(Abort::TooManyMatches);
            }
            matched_count = matched_count + 1;
            let first = first_containing_exec(aa, expected_elem);
            mark(&mut flags, first, Ghost(marks));
            proof {
                marks = marks.insert(first as int);
            }
        } else {
            match ambiguous_strategy {
                AmbiguousMatchStrategy::Strict => {
                    proof {
                        lemma_contains_children_err(
                            av,
                            ev,
                            *ambiguous_strategy,
                            path@,
                            (i + 1) as nat,
                            ev.len(),
                        );
                    }
                    return Err(
                        Abort::Failed(
                            Error::AmbiguousMatch { path: string_of(path), count: count as u16 },
                        ),
                    );
                },
                _ => {
                    if matched_count == 65535 {
                        proof {
                            lemma_contains_children_err(
                                av,
                                ev,
                                *ambiguous_strategy,
                                path@,
                                (i + 1) as nat,
                                ev.len(),
                            );
                        }
                        return Err(Abort::TooManyMatches);
                    }
                    matched_count = matched_count + 1;
                    let first = first_containing_exec(aa, expected_elem);
                    mark(&mut flags, first, Ghost(marks));
                    proof {
                        marks = marks.insert(first as int);
                    }
                },
            }
        }
        i = i + 1;
    }
    let unmatched = count_unmatched(&flags, Ghost(marks));
    let omitted = unmatched as u16;
    Ok(finish(ChildKind::Items, children, omitted))
}

/// Recursively compares two values and returns a diff result.
///
/// `path` is the dot-separated path to the current position, used to look up
/// array match configuration. Matches are counted in a `u16`: the comparison
/// must not match more than `u16::MAX` expected elements of one array
/// ([`diff_values_checked`] tells).
pub fn diff_values(actual: &Value, expected: &Value, config: &DiffConfig, path: &str) -> (r: Result<
    DiffResult,
    Error,
>)
    requires
        !(diff_values_spec(actual@, expected@, *config, path@) matches Err(ErrorView::TooManyMatches)),
    ensures
        result_view(r) == diff_values_spec(actual@, expected@, *config, path@),
{
    match diff_values_checked(actual, expected, config, path) {
        Some(r) => r,
        None => {
            proof {
                assert(false);
            }
            Ok(DiffResult::Equal)
        },
    }
}

/// Compares two values as [`diff_values`] does, or `None` where more than
/// `u16::MAX` expected elements of one array would be matched.
pub fn diff_values_checked(actual: &Value, expected: &Value, config: &DiffConfig, path: &str) -> (r:
    Option<Result<DiffResult, Error>>)
    ensures
        match diff_values_spec(actual@, expected@, *config, path@) {
            Err(ErrorView::TooManyMatches) => r is None,
            outcome => r matches Some(x) && result_view(x) == outcome,
        },
{
    match compare(actual, expected, config, path) {
        Ok(result) => Some(Ok(result)),
        Err(Abort::Failed(e)) => Some(Err(e)),
        Err(Abort::TooManyMatches) => None,
    }
}

/// The diff tree for an outcome of the root comparison.
fn tree_of(outcome: Result<DiffResult, Abort>) -> (r: Result<DiffTree, Abort>)
    ensures
        match r {
            Ok(t) => outcome matches Ok(x) && t@ == (match x@ {
                ResultView::Children(_, nodes, _) => nodes,
                ResultView::Leaf(k) => seq![NodeView::Leaf(SegmentView::Key(Seq::empty()), k)],
                ResultView::Equal => Seq::empty(),
            }),
            Err(e) => outcome matches Err(f) && e@ == f@,
        },
{
    let roots = match outcome {
        Err(e) => {
            return Err(e);
        },
        Ok(DiffResult::Children { nodes, .. }) => nodes,
        // A root-level leaf has no parent segment: it stands alone under an
        // empty key.
        Ok(DiffResult::Leaf(kind)) => {
            let mut roots: Vec<DiffNode> = Vec::new();
            push_leaf(&mut roots, PathSegment::Key(String::new()), kind);
            assert(nodes_view(roots@) =~= seq![NodeView::Leaf(SegmentView::Key(Seq::empty()), kind@)]);
            roots
        },
        Ok(DiffResult::Equal) => Vec::new(),
    };
    let tree = DiffTree { roots };
    assert(tree@ == nodes_view(roots@));
    Ok(tree)
}

/// Computes a diff tree between `actual` and `expected` values.
///
/// The walk is driven by `expected`. Only paths present in the expected
/// value are compared. Fields in `actual` that have no corresponding
/// expected entry are counted as omitted but not diffed. When the two roots
/// are scalars (or of different types) that differ, the tree holds that one
/// difference as a leaf under an empty key.
///
/// Matches are counted in a `u16`: the comparison must not match more than
/// `u16::MAX` expected elements of one array ([`diff_checked`] tells).
pub fn diff(actual: &Value, expected: &Value, config: &DiffConfig) -> (r: Result<DiffTree, Error>)
    requires
        !(diff_spec(actual@, expected@, *config) matches Err(ErrorView::TooManyMatches)),
    ensures
        tree_result_view(r) == diff_spec(actual@, expected@, *config),
{
    match diff_checked(actual, expected, config) {
        Some(r) => r,
        None => {
            proof {
                assert(false);
            }
            Ok(DiffTree { roots: Vec::new() })
        },
    }
}

/// Computes the diff tree as [`diff`] does, or `None` where more than
/// `u16::MAX` expected elements of one array would be matched.
pub fn diff_checked(actual: &Value, expected: &Value, config: &DiffConfig) -> (r: Option<
    Result<DiffTree, Error>,
>)
    ensures
        match diff_spec(actual@, expected@, *config) {
            Err(ErrorView::TooManyMatches) => r is None,
            outcome => r matches Some(t) && tree_result_view(t) == outcome,
        },
{
    // The root of the diff tree has an empty path.
    let path = String::new();
    match tree_of(compare(actual, expected, config, path.as_str())) {
        Ok(tree) => Some(Ok(tree)),
        Err(Abort::Failed(e)) => Some(Err(e)),
        Err(Abort::TooManyMatches) => None,
    }
}

} // verus!
