//! Properties of the diff engine that hold across all inputs.

use vstd::prelude::*;
use crate::config::{AmbiguousMatchStrategy, ArrayMatchMode, DiffConfig};
use crate::diff::{
    ErrorView, ResultView, child_path, push_best, push_result, children_result, object_omitted, contains_result, diff_arrays_spec, index_result, key_result, contains_children, count_containing, diff_spec,
    diff_values_spec, element_segment, index_children, key_candidates, key_children, mode_at, mode_keys, object_children,
    pick_best_spec, pick_index, pick_prefix, key_candidate_indices, unmatched_count, result_size, strategy_at, value_contains_spec, contains_entries,
};
use crate::model::{ChildKind, KindView, NodeView, SegmentView};
use crate::value::{
    JsonValue, elements_equal, entries_equal, field_scalar, json_equal, key_tuple, tuple_matches, json_wf, keys_sorted,
    is_scalar, json_type_name, lemma_obj_get_none, lemma_obj_get_some, lemma_sorted_get, obj_get, same_type,
};
use crate::text::{lemma_seq_less_irreflexive, lemma_seq_less_transitive, seq_less};

verus! {

// ---------------------------------------------------------------------------
// Equality and containment are reflexive
// ---------------------------------------------------------------------------

/// Every value equals itself.
pub proof fn law_json_equal_reflexive(v: JsonValue)
    ensures
        json_equal(v, v),
    decreases v, 1nat,
{
    match v {
        JsonValue::Array(xs) => lemma_elements_equal_reflexive(xs, xs.len()),
        JsonValue::Object(es) => lemma_entries_equal_reflexive(es, es.len()),
        _ => {},
    }
}

proof fn lemma_elements_equal_reflexive(xs: Seq<JsonValue>, n: nat)
    requires
        n <= xs.len(),
    ensures
        elements_equal(xs, xs, n),
    decreases xs, n,
{
    if n > 0 {
        lemma_elements_equal_reflexive(xs, (n - 1) as nat);
        law_json_equal_reflexive(xs[n - 1]);
    }
}

proof fn lemma_entries_equal_reflexive(es: Seq<(Seq<char>, JsonValue)>, n: nat)
    requires
        n <= es.len(),
    ensures
        entries_equal(es, es, n),
    decreases es, n,
{
    if n > 0 {
        lemma_entries_equal_reflexive(es, (n - 1) as nat);
        law_json_equal_reflexive(es[n - 1].1);
    }
}

/// Every value contains itself.
pub proof fn law_value_contains_reflexive(v: JsonValue)
    requires
        json_wf(v),
    ensures
        value_contains_spec(v, v),
    decreases v, 1nat,
{
    match v {
        JsonValue::Object(es) => lemma_contains_entries_reflexive(es, es.len()),
        _ => law_json_equal_reflexive(v),
    }
}

proof fn lemma_contains_entries_reflexive(es: Seq<(Seq<char>, JsonValue)>, n: nat)
    requires
        keys_sorted(es),
        forall|i: int| 0 <= i < es.len() ==> json_wf(#[trigger] es[i].1),
        n <= es.len(),
    ensures
        contains_entries(es, es, n),
    decreases es, n,
{
    if n > 0 {
        lemma_contains_entries_reflexive(es, (n - 1) as nat);
        lemma_sorted_get(es, n - 1);
        law_value_contains_reflexive(es[n - 1].1);
    }
}

// ---------------------------------------------------------------------------
// Index matching never fails
// ---------------------------------------------------------------------------

/// Every array is matched by position.
pub open spec fn index_only(cfg: DiffConfig) -> bool {
    forall|p: Seq<char>| #[trigger] mode_at(cfg, p) is Index
}

/// With index matching for every array, comparing two values never fails.
pub proof fn law_index_matching_never_fails(
    a: JsonValue,
    e: JsonValue,
    cfg: DiffConfig,
    path: Seq<char>,
)
    requires
        index_only(cfg),
    ensures
        diff_values_spec(a, e, cfg, path) is Ok,
    decreases e, 0nat,
{
    if same_type(a, e) {
        match e {
            JsonValue::Object(em) => {
                lemma_object_children_ok(a->Object_0, em, cfg, path, em.len());
            },
            JsonValue::Array(ea) => {
                assert(mode_at(cfg, path) is Index);
                lemma_index_children_ok(a->Array_0, ea, cfg, path, ea.len());
                assert(index_result(a->Array_0, ea, cfg, path) is Ok);
                assert(diff_arrays_spec(a->Array_0, ea, cfg, path) is Ok);
            },
            _ => {},
        }
    }
}

/// With index matching for every array (as in the default configuration),
/// [`diff`](crate::diff::diff) always produces a tree.
pub proof fn law_index_matching_diff_succeeds(a: JsonValue, e: JsonValue, cfg: DiffConfig)
    requires
        index_only(cfg),
    ensures
        diff_spec(a, e, cfg) is Ok,
{
    law_index_matching_never_fails(a, e, cfg, Seq::empty());
}

proof fn lemma_object_children_ok(
    am: Seq<(Seq<char>, JsonValue)>,
    em: Seq<(Seq<char>, JsonValue)>,
    cfg: DiffConfig,
    path: Seq<char>,
    n: nat,
)
    requires
        index_only(cfg),
    ensures
        object_children(am, em, cfg, path, n) is Ok,
    decreases em, n,
{
    if n > 0 && n <= em.len() {
        lemma_object_children_ok(am, em, cfg, path, (n - 1) as nat);
        let key = em[n - 1].0;
        if let Some(av) = crate::value::obj_get(am, key) {
            law_index_matching_never_fails(av, em[n - 1].1, cfg, child_path(path, key));
        }
    }
}

proof fn lemma_index_children_ok(
    aa: Seq<JsonValue>,
    ea: Seq<JsonValue>,
    cfg: DiffConfig,
    path: Seq<char>,
    n: nat,
)
    requires
        index_only(cfg),
    ensures
        index_children(aa, ea, cfg, path, n) is Ok,
    decreases ea, n,
{
    if n > 0 && n <= ea.len() {
        lemma_index_children_ok(aa, ea, cfg, path, (n - 1) as nat);
        if n - 1 < aa.len() {
            law_index_matching_never_fails(aa[n - 1], ea[n - 1], cfg, path);
        }
    }
}

// ---------------------------------------------------------------------------
// An empty tree means no difference
// ---------------------------------------------------------------------------

/// The diff tree is empty exactly when the comparison reports the values
/// equal.
pub proof fn law_empty_tree_iff_equal(a: JsonValue, e: JsonValue, cfg: DiffConfig)
    ensures
        (diff_spec(a, e, cfg) == Ok::<Seq<NodeView>, ErrorView>(Seq::empty())) <==> (
        diff_values_spec(a, e, cfg, Seq::empty()) == Ok::<ResultView, ErrorView>(ResultView::Equal)),
{
    let path = Seq::<char>::empty();
    let r = diff_values_spec(a, e, cfg, path);
    assert(children_shaped(r)) by {
        if same_type(a, e) {
            if a is Object {
                let am = a->Object_0;
                let em = e->Object_0;
                if let Ok(nodes) = object_children(am, em, cfg, path, em.len()) {
                    assert(r == Ok::<ResultView, ErrorView>(
                        children_result(ChildKind::Fields, nodes, object_omitted(am, em)),
                    ));
                }
            } else if a is Array {
                let aa = a->Array_0;
                let ea = e->Array_0;
                match mode_at(cfg, path) {
                    ArrayMatchMode::Index => {
                        assert(r == index_result(aa, ea, cfg, path));
                    },
                    ArrayMatchMode::Key(_) | ArrayMatchMode::Keys(_) => {
                        assert(r == key_result(aa, ea, mode_keys(mode_at(cfg, path)), strategy_at(cfg, path), cfg, path));
                    },
                    ArrayMatchMode::Contains => {
                        assert(r == contains_result(aa, ea, strategy_at(cfg, path), path));
                    },
                }
            }
        }
    }
    match r {
        Ok(ResultView::Leaf(k)) => {
            let one = seq![NodeView::Leaf(SegmentView::Key(Seq::empty()), k)];
            assert(diff_spec(a, e, cfg) == Ok::<Seq<NodeView>, ErrorView>(one));
            assert(one.len() == 1);
        },
        Ok(ResultView::Children(_, nodes, _)) => {
            assert(nodes.len() > 0);
        },
        _ => {},
    }
}

/// A comparison outcome built from child nodes: a failure, `Equal`, or at
/// least one child node.
spec fn children_shaped(r: Result<ResultView, ErrorView>) -> bool {
    match r {
        Err(_) => true,
        Ok(ResultView::Equal) => true,
        Ok(ResultView::Children(_, nodes, _)) => nodes.len() > 0,
        Ok(ResultView::Leaf(_)) => true,
    }
}

// ---------------------------------------------------------------------------
// Equal or contained values show no difference
// ---------------------------------------------------------------------------

/// Comparing a value with an equal one either fails (the configured matching
/// finds an array ambiguous, an element without its key field, or too many
/// matches to count) or finds the two equal.
pub proof fn law_equal_values_compare_equal(a: JsonValue, e: JsonValue, cfg: DiffConfig, path: Seq<char>)
    requires
        json_wf(a),
        json_wf(e),
        json_equal(a, e),
    ensures
        diff_values_spec(a, e, cfg, path) is Ok ==> diff_values_spec(a, e, cfg, path) == Ok::<
            ResultView,
            ErrorView,
        >(ResultView::Equal),
    decreases e, 0nat,
{
    match (a, e) {
        (JsonValue::Object(am), JsonValue::Object(em)) => {
            lemma_entries_equal_pairwise(am, em, am.len());
            lemma_equal_object_children(am, em, cfg, path, em.len());
        },
        (JsonValue::Array(aa), JsonValue::Array(ea)) => {
            lemma_elements_equal_pairwise(aa, ea, aa.len());
            match mode_at(cfg, path) {
                ArrayMatchMode::Index => {
                    lemma_equal_index_children(aa, ea, cfg, path, ea.len());
                    assert(diff_arrays_spec(aa, ea, cfg, path) == index_result(aa, ea, cfg, path));
                },
                ArrayMatchMode::Key(_) | ArrayMatchMode::Keys(_) => {
                    lemma_equal_key_children(aa, ea, mode_keys(mode_at(cfg, path)), strategy_at(cfg, path), cfg, path, ea.len());
                    assert(diff_arrays_spec(aa, ea, cfg, path) == key_result(
                        aa,
                        ea,
                        mode_keys(mode_at(cfg, path)),
                        strategy_at(cfg, path),
                        cfg,
                        path,
                    ));
                },
                ArrayMatchMode::Contains => {
                    lemma_equal_contains_children(aa, ea, strategy_at(cfg, path), path, ea.len());
                    assert(diff_arrays_spec(aa, ea, cfg, path) == contains_result(
                        aa,
                        ea,
                        strategy_at(cfg, path),
                        path,
                    ));
                },
            }
        },
        _ => {},
    }
}

/// Comparing a value with one it contains (every expected field present with
/// a contained value; scalars and arrays equal) either fails or finds the two
/// equal: this is why a containment match needs no further comparison.
pub proof fn law_contained_values_compare_equal(
    a: JsonValue,
    e: JsonValue,
    cfg: DiffConfig,
    path: Seq<char>,
)
    requires
        json_wf(a),
        json_wf(e),
        value_contains_spec(a, e),
    ensures
        diff_values_spec(a, e, cfg, path) is Ok ==> diff_values_spec(a, e, cfg, path) == Ok::<
            ResultView,
            ErrorView,
        >(ResultView::Equal),
    decreases e, 0nat,
{
    match e {
        JsonValue::Object(em) => {
            lemma_contained_object_children(a->Object_0, em, cfg, path, em.len());
        },
        _ => law_equal_values_compare_equal(a, e, cfg, path),
    }
}

/// The diff tree of a value against itself is empty, unless the comparison
/// fails.
pub proof fn law_self_diff_is_empty(v: JsonValue, cfg: DiffConfig)
    requires
        json_wf(v),
    ensures
        diff_spec(v, v, cfg) is Ok ==> diff_spec(v, v, cfg) == Ok::<Seq<NodeView>, ErrorView>(
            Seq::empty(),
        ),
{
    law_json_equal_reflexive(v);
    law_equal_values_compare_equal(v, v, cfg, Seq::empty());
}

/// With index matching for every array, the diff tree of a value against
/// itself is empty.
pub proof fn law_self_diff_is_empty_with_index_matching(v: JsonValue, cfg: DiffConfig)
    requires
        json_wf(v),
        index_only(cfg),
    ensures
        diff_spec(v, v, cfg) == Ok::<Seq<NodeView>, ErrorView>(Seq::empty()),
{
    law_self_diff_is_empty(v, cfg);
    law_index_matching_never_fails(v, v, cfg, Seq::empty());
}

/// Equal element sequences are pairwise equal.
proof fn lemma_elements_equal_pairwise(xs: Seq<JsonValue>, ys: Seq<JsonValue>, n: nat)
    requires
        elements_equal(xs, ys, n),
    ensures
        n <= xs.len() && n <= ys.len(),
        forall|i: int| 0 <= i < n ==> json_equal(#[trigger] xs[i], ys[i]),
    decreases n,
{
    if n > 0 {
        lemma_elements_equal_pairwise(xs, ys, (n - 1) as nat);
    }
}

/// Equal entry sequences hold the same keys and pairwise equal values.
proof fn lemma_entries_equal_pairwise(
    xs: Seq<(Seq<char>, JsonValue)>,
    ys: Seq<(Seq<char>, JsonValue)>,
    n: nat,
)
    requires
        entries_equal(xs, ys, n),
    ensures
        n <= xs.len() && n <= ys.len(),
        forall|i: int| 0 <= i < n ==> (#[trigger] xs[i]).0 == ys[i].0 && json_equal(xs[i].1, ys[i].1),
    decreases n,
{
    if n > 0 {
        lemma_entries_equal_pairwise(xs, ys, (n - 1) as nat);
    }
}

/// An equal value holds an equal scalar under every key that holds one.
proof fn lemma_equal_field_scalar(a: JsonValue, e: JsonValue, key: Seq<char>)
    requires
        json_wf(a),
        json_wf(e),
        json_equal(a, e),
    ensures
        field_scalar(e, key) matches Some(y) ==> field_scalar(a, key) matches Some(x) && json_equal(x, y),
{
    if let (JsonValue::Object(am), JsonValue::Object(em)) = (a, e) {
        lemma_entries_equal_pairwise(am, em, am.len());
        if exists|i: int| 0 <= i < am.len() && am[i].0 == key {
            let i = choose|i: int| 0 <= i < am.len() && am[i].0 == key;
            lemma_sorted_get(am, i);
            lemma_sorted_get(em, i);
        } else {
            assert forall|j: int| 0 <= j < em.len() implies em[j].0 != key by {
                assert(am[j].0 == em[j].0);
            }
            lemma_obj_get_none(em, key);
        }
    }
}

/// An equal value's key fields hold values equal to the key tuple.
proof fn lemma_equal_key_tuple(a: JsonValue, e: JsonValue, keys: Seq<Seq<char>>)
    requires
        json_wf(a),
        json_wf(e),
        json_equal(a, e),
    ensures
        key_tuple(e, keys) matches Some(kt) ==> tuple_matches(a, keys, kt),
    decreases keys.len(),
{
    if keys.len() > 0 {
        lemma_equal_key_tuple(a, e, keys.drop_last());
        lemma_equal_field_scalar(a, e, keys.last());
        if let Some(kt) = key_tuple(e, keys) {
            let ta = key_tuple(a, keys.drop_last())->Some_0;
            let t = key_tuple(a, keys)->Some_0;
            assert forall|i: int| 0 <= i < t.len() implies json_equal(#[trigger] t[i], kt[i]) by {
                if i < ta.len() {
                    assert(t[i] == ta[i]);
                }
            }
        }
    }
}

/// A value contains an equal one.
proof fn lemma_equal_contains(a: JsonValue, e: JsonValue)
    requires
        json_wf(a),
        json_wf(e),
        json_equal(a, e),
    ensures
        value_contains_spec(a, e),
    decreases e, 1nat,
{
    if let (JsonValue::Object(am), JsonValue::Object(em)) = (a, e) {
        lemma_entries_equal_pairwise(am, em, am.len());
        lemma_equal_contains_entries(am, em, em.len());
    }
}

proof fn lemma_equal_contains_entries(
    am: Seq<(Seq<char>, JsonValue)>,
    em: Seq<(Seq<char>, JsonValue)>,
    n: nat,
)
    requires
        keys_sorted(am),
        am.len() == em.len(),
        n <= em.len(),
        forall|i: int| 0 <= i < am.len() ==> json_wf(#[trigger] am[i].1),
        forall|i: int| 0 <= i < em.len() ==> json_wf(#[trigger] em[i].1),
        forall|i: int| 0 <= i < am.len() ==> (#[trigger] am[i]).0 == em[i].0 && json_equal(am[i].1, em[i].1),
    ensures
        contains_entries(am, em, n),
    decreases em, n,
{
    if n > 0 {
        lemma_equal_contains_entries(am, em, (n - 1) as nat);
        assert(am[n - 1].0 == em[n - 1].0);
        lemma_sorted_get(am, n - 1);
        lemma_equal_contains(am[n - 1].1, em[n - 1].1);
    }
}

proof fn lemma_equal_object_children(
    am: Seq<(Seq<char>, JsonValue)>,
    em: Seq<(Seq<char>, JsonValue)>,
    cfg: DiffConfig,
    path: Seq<char>,
    n: nat,
)
    requires
        keys_sorted(am),
        am.len() == em.len(),
        n <= em.len(),
        forall|i: int| 0 <= i < am.len() ==> json_wf(#[trigger] am[i].1),
        forall|i: int| 0 <= i < em.len() ==> json_wf(#[trigger] em[i].1),
        forall|i: int| 0 <= i < am.len() ==> (#[trigger] am[i]).0 == em[i].0 && json_equal(am[i].1, em[i].1),
    ensures
        object_children(am, em, cfg, path, n) is Ok ==> object_children(am, em, cfg, path, n)
            == Ok::<Seq<NodeView>, ErrorView>(Seq::empty()),
    decreases em, n,
{
    if n > 0 {
        lemma_equal_object_children(am, em, cfg, path, (n - 1) as nat);
        let key = em[n - 1].0;
        assert(am[n - 1].0 == key);
        lemma_sorted_get(am, n - 1);
        law_equal_values_compare_equal(am[n - 1].1, em[n - 1].1, cfg, child_path(path, key));
    }
}

proof fn lemma_contained_object_children(
    am: Seq<(Seq<char>, JsonValue)>,
    em: Seq<(Seq<char>, JsonValue)>,
    cfg: DiffConfig,
    path: Seq<char>,
    n: nat,
)
    requires
        contains_entries(am, em, n),
        forall|i: int| 0 <= i < am.len() ==> json_wf(#[trigger] am[i].1),
        forall|i: int| 0 <= i < em.len() ==> json_wf(#[trigger] em[i].1),
    ensures
        object_children(am, em, cfg, path, n) is Ok ==> object_children(am, em, cfg, path, n)
            == Ok::<Seq<NodeView>, ErrorView>(Seq::empty()),
    decreases em, n,
{
    if n > 0 {
        lemma_contained_object_children(am, em, cfg, path, (n - 1) as nat);
        let key = em[n - 1].0;
        let av = obj_get(am, key)->Some_0;
        lemma_obj_get_some(am, key);
        let j = choose|j: int| 0 <= j < am.len() && am[j].0 == key && obj_get(am, key) == Some(
            #[trigger] am[j].1,
        );
        assert(json_wf(am[j].1));
        law_contained_values_compare_equal(av, em[n - 1].1, cfg, child_path(path, key));
    }
}

proof fn lemma_equal_index_children(
    aa: Seq<JsonValue>,
    ea: Seq<JsonValue>,
    cfg: DiffConfig,
    path: Seq<char>,
    n: nat,
)
    requires
        aa.len() == ea.len(),
        n <= ea.len(),
        forall|i: int| 0 <= i < aa.len() ==> json_wf(#[trigger] aa[i]),
        forall|i: int| 0 <= i < ea.len() ==> json_wf(#[trigger] ea[i]),
        forall|i: int| 0 <= i < aa.len() ==> json_equal(#[trigger] aa[i], ea[i]),
    ensures
        index_children(aa, ea, cfg, path, n) is Ok ==> index_children(aa, ea, cfg, path, n)
            == Ok::<Seq<NodeView>, ErrorView>(Seq::empty()),
    decreases ea, n,
{
    if n > 0 {
        lemma_equal_index_children(aa, ea, cfg, path, (n - 1) as nat);
        law_equal_values_compare_equal(aa[n - 1], ea[n - 1], cfg, path);
    }
}

proof fn lemma_equal_key_children(
    aa: Seq<JsonValue>,
    ea: Seq<JsonValue>,
    keys: Seq<Seq<char>>,
    strategy: AmbiguousMatchStrategy,
    cfg: DiffConfig,
    path: Seq<char>,
    n: nat,
)
    requires
        aa.len() == ea.len(),
        n <= ea.len(),
        forall|i: int| 0 <= i < aa.len() ==> json_wf(#[trigger] aa[i]),
        forall|i: int| 0 <= i < ea.len() ==> json_wf(#[trigger] ea[i]),
        forall|i: int| 0 <= i < aa.len() ==> json_equal(#[trigger] aa[i], ea[i]),
    ensures
        key_children(aa, ea, keys, strategy, cfg, path, n) matches Ok((nodes, _)) ==> nodes.len()
            == 0,
    decreases ea, n,
{
    if n > 0 {
        lemma_equal_key_children(aa, ea, keys, strategy, cfg, path, (n - 1) as nat);
        let el = ea[n - 1];
        let mate = aa[n - 1];
        lemma_equal_key_tuple(mate, el, keys);
        if let Some(kv) = key_tuple(el, keys) {
            let cands = key_candidates(aa, keys, kv);
            lemma_key_candidates_include(aa, keys, kv, n - 1);
            let j = choose|j: int| 0 <= j < cands.len() && cands[j] == mate;
            law_equal_values_compare_equal(mate, el, cfg, path);
            if cands.len() > 1 && !(strategy is Strict) {
                lemma_pick_prefix_settles(cands, el, cfg, path, cands.len(), j);
                assert(pick_best_spec(cands, el, cfg, path) is Err || pick_best_spec(
                    cands,
                    el,
                    cfg,
                    path,
                ) == Ok::<ResultView, ErrorView>(ResultView::Equal));
            }
        }
    }
}

proof fn lemma_equal_contains_children(
    aa: Seq<JsonValue>,
    ea: Seq<JsonValue>,
    strategy: AmbiguousMatchStrategy,
    path: Seq<char>,
    n: nat,
)
    requires
        aa.len() == ea.len(),
        n <= ea.len(),
        forall|i: int| 0 <= i < aa.len() ==> json_wf(#[trigger] aa[i]),
        forall|i: int| 0 <= i < ea.len() ==> json_wf(#[trigger] ea[i]),
        forall|i: int| 0 <= i < aa.len() ==> json_equal(#[trigger] aa[i], ea[i]),
    ensures
        contains_children(aa, ea, strategy, path, n) matches Ok((nodes, _)) ==> nodes.len() == 0,
    decreases n,
{
    if n > 0 {
        lemma_equal_contains_children(aa, ea, strategy, path, (n - 1) as nat);
        lemma_equal_contains(aa[n - 1], ea[n - 1]);
        lemma_count_containing_positive(aa, ea[n - 1], n - 1);
    }
}

/// An element whose key field holds `kv` is among the key candidates.
proof fn lemma_key_candidates_include(aa: Seq<JsonValue>, keys: Seq<Seq<char>>, kt: Seq<JsonValue>, i: int)
    requires
        0 <= i < aa.len(),
        tuple_matches(aa[i], keys, kt),
    ensures
        exists|j: int|
            0 <= j < key_candidates(aa, keys, kt).len() && key_candidates(aa, keys, kt)[j] == aa[i],
    decreases aa.len(),
{
    let cands = key_candidates(aa, keys, kt);
    if i == aa.len() - 1 {
        assert(cands[cands.len() - 1] == aa[i]);
    } else {
        let prev = aa.drop_last();
        assert(prev[i] == aa[i]);
        lemma_key_candidates_include(prev, keys, kt, i);
        let j = choose|j: int|
            0 <= j < key_candidates(prev, keys, kt).len() && key_candidates(prev, keys, kt)[j]
                == prev[i];
        assert(cands[j] == aa[i]);
    }
}

/// An element containing `e` makes the count of containing elements positive.
proof fn lemma_count_containing_positive(aa: Seq<JsonValue>, e: JsonValue, i: int)
    requires
        0 <= i < aa.len(),
        value_contains_spec(aa[i], e),
    ensures
        count_containing(aa, e) > 0,
    decreases aa.len(),
{
    if i < aa.len() - 1 {
        let prev = aa.drop_last();
        assert(prev[i] == aa[i]);
        lemma_count_containing_positive(prev, e, i);
    }
}

/// Once a candidate compares equal (or fails), the search for the best
/// candidate ends in an equal result or a failure.
proof fn lemma_pick_prefix_settles(
    cands: Seq<JsonValue>,
    e: JsonValue,
    cfg: DiffConfig,
    path: Seq<char>,
    m: nat,
    j: int,
)
    requires
        0 <= j < m <= cands.len(),
        diff_values_spec(cands[j], e, cfg, path) is Err || diff_values_spec(cands[j], e, cfg, path)
            == Ok::<ResultView, ErrorView>(ResultView::Equal),
    ensures
        pick_prefix(cands, e, cfg, path, m) is Err || pick_prefix(cands, e, cfg, path, m) matches Ok(
            Some((ResultView::Equal, _)),
        ),
    decreases m,
{
    if j < m - 1 {
        lemma_pick_prefix_settles(cands, e, cfg, path, (m - 1) as nat, j);
    }
}

// ---------------------------------------------------------------------------
// Objects do not depend on key order
// ---------------------------------------------------------------------------

/// Two objects whose keys look up the same values are identical: what an
/// object holds does not depend on the order in which its keys were given.
pub proof fn law_object_determined_by_lookups(
    a: Seq<(Seq<char>, JsonValue)>,
    b: Seq<(Seq<char>, JsonValue)>,
)
    requires
        keys_sorted(a),
        keys_sorted(b),
        forall|q: Seq<char>| #[trigger] obj_get(a, q) == obj_get(b, q),
    ensures
        a == b,
    decreases a.len(),
{
    if a.len() == 0 {
        if b.len() > 0 {
            lemma_sorted_get(b, 0);
            assert(obj_get(a, b[0].0) is None);
        }
        assert(a =~= b);
    } else {
        lemma_sorted_get(a, 0);
        let k = a[0].0;
        assert(obj_get(b, k) is Some);
        assert(b.len() > 0);
        lemma_sorted_get(b, 0);
        let kb = b[0].0;
        if kb != k {
            lemma_obj_get_some(b, k);
            let j = choose|j: int| 0 <= j < b.len() && b[j].0 == k && obj_get(b, k) == Some(
                #[trigger] b[j].1,
            );
            assert(seq_less(kb, k));
            assert(obj_get(a, kb) is Some);
            lemma_obj_get_some(a, kb);
            let i = choose|i: int| 0 <= i < a.len() && a[i].0 == kb && obj_get(a, kb) == Some(
                #[trigger] a[i].1,
            );
            assert(i != 0);
            assert(seq_less(k, kb));
            lemma_seq_less_transitive(k, kb, k);
            lemma_seq_less_irreflexive(k);
        }
        let ta = a.drop_first();
        let tb = b.drop_first();
        assert forall|q: Seq<char>| #[trigger] obj_get(ta, q) == obj_get(tb, q) by {
            if q == k {
                assert forall|i: int| 0 <= i < ta.len() implies ta[i].0 != q by {
                    assert(ta[i] == a[i + 1]);
                    lemma_seq_less_irreflexive(k);
                }
                lemma_obj_get_none(ta, q);
                assert forall|i: int| 0 <= i < tb.len() implies tb[i].0 != q by {
                    assert(tb[i] == b[i + 1]);
                    lemma_seq_less_irreflexive(k);
                }
                lemma_obj_get_none(tb, q);
            } else {
                assert(obj_get(a, q) == obj_get(ta, q));
                assert(obj_get(b, q) == obj_get(tb, q));
            }
        }
        assert(keys_sorted(ta)) by {
            assert forall|i: int, j: int| 0 <= i < j < ta.len() implies seq_less(
                ta[i].0,
                ta[j].0,
            ) by {
                assert(ta[i] == a[i + 1] && ta[j] == a[j + 1]);
            }
        }
        assert(keys_sorted(tb)) by {
            assert forall|i: int, j: int| 0 <= i < j < tb.len() implies seq_less(
                tb[i].0,
                tb[j].0,
            ) by {
                assert(tb[i] == b[i + 1] && tb[j] == b[j + 1]);
            }
        }
        law_object_determined_by_lookups(ta, tb);
        assert(a[0] == b[0]);
        assert(a =~= seq![a[0]] + ta);
        assert(b =~= seq![b[0]] + tb);
    }
}

// ---------------------------------------------------------------------------
// Only expected paths are compared
// ---------------------------------------------------------------------------

/// The diff of an object depends only on the actual entries under the
/// expected keys: actual objects that agree on those keys yield the same
/// child diffs (only their omitted counts may differ).
pub proof fn law_extra_actual_keys_ignored(
    am1: Seq<(Seq<char>, JsonValue)>,
    am2: Seq<(Seq<char>, JsonValue)>,
    em: Seq<(Seq<char>, JsonValue)>,
    cfg: DiffConfig,
    path: Seq<char>,
)
    requires
        forall|i: int| 0 <= i < em.len() ==> obj_get(am1, (#[trigger] em[i]).0) == obj_get(am2, em[i].0),
    ensures
        object_children(am1, em, cfg, path, em.len()) == object_children(
            am2,
            em,
            cfg,
            path,
            em.len(),
        ),
{
    lemma_object_children_agree(am1, am2, em, cfg, path, em.len());
}

proof fn lemma_object_children_agree(
    am1: Seq<(Seq<char>, JsonValue)>,
    am2: Seq<(Seq<char>, JsonValue)>,
    em: Seq<(Seq<char>, JsonValue)>,
    cfg: DiffConfig,
    path: Seq<char>,
    n: nat,
)
    requires
        forall|i: int| 0 <= i < em.len() ==> obj_get(am1, (#[trigger] em[i]).0) == obj_get(am2, em[i].0),
    ensures
        object_children(am1, em, cfg, path, n) == object_children(am2, em, cfg, path, n),
    decreases n,
{
    if n > 0 && n <= em.len() {
        lemma_object_children_agree(am1, am2, em, cfg, path, (n - 1) as nat);
        assert(obj_get(am1, em[n - 1].0) == obj_get(am2, em[n - 1].0));
    }
}

// ---------------------------------------------------------------------------
// The best match has the fewest differences
// ---------------------------------------------------------------------------

/// When several candidates match and the strategy tolerates it, the chosen
/// result is the comparison with one of the candidates that has the fewest
/// direct differences.
pub proof fn law_best_match_has_fewest_differences(
    cands: Seq<JsonValue>,
    e: JsonValue,
    cfg: DiffConfig,
    path: Seq<char>,
)
    requires
        cands.len() > 0,
    ensures
        pick_best_spec(cands, e, cfg, path) matches Ok(r) ==> {
            &&& exists|j: int|
                0 <= j < cands.len() && #[trigger] diff_values_spec(cands[j], e, cfg, path) == Ok::<
                    ResultView,
                    ErrorView,
                >(r)
            &&& forall|j: int|
                0 <= j < cands.len() && (#[trigger] diff_values_spec(cands[j], e, cfg, path) is Ok)
                    ==> result_size(r) <= result_size(
                    diff_values_spec(cands[j], e, cfg, path)->Ok_0,
                )
        },
{
    lemma_pick_prefix_best(cands, e, cfg, path, cands.len());
}

proof fn lemma_pick_prefix_best(
    cands: Seq<JsonValue>,
    e: JsonValue,
    cfg: DiffConfig,
    path: Seq<char>,
    m: nat,
)
    requires
        m <= cands.len(),
    ensures
        pick_prefix(cands, e, cfg, path, m) matches Ok(None) ==> m == 0,
        pick_prefix(cands, e, cfg, path, m) matches Ok(Some((r, c))) ==> {
            &&& c == result_size(r)
            &&& exists|j: int|
                0 <= j < m && #[trigger] diff_values_spec(cands[j], e, cfg, path) == Ok::<
                    ResultView,
                    ErrorView,
                >(r)
            &&& forall|j: int|
                0 <= j < m && (#[trigger] diff_values_spec(cands[j], e, cfg, path) is Ok) ==> c
                    <= result_size(diff_values_spec(cands[j], e, cfg, path)->Ok_0)
        },
    decreases m,
{
    if m > 0 {
        lemma_pick_prefix_best(cands, e, cfg, path, (m - 1) as nat);
        let k = m - 1;
        let d = diff_values_spec(cands[k], e, cfg, path);
        if let Ok(Some((r, c))) = pick_prefix(cands, e, cfg, path, m) {
            if let Ok(prev) = pick_prefix(cands, e, cfg, path, (m - 1) as nat) {
                if d is Ok && !(prev matches Some((ResultView::Equal, _))) && (prev is None
                    || result_size(d->Ok_0) < prev->Some_0.1) {
                    assert(diff_values_spec(cands[k], e, cfg, path) == Ok::<ResultView, ErrorView>(
                        r,
                    ));
                }
            }
        }
    }
}

// ---------------------------------------------------------------------------
// Every result is well shaped
// ---------------------------------------------------------------------------

/// The shape the diff engine gives every node: a container holds at least
/// one child; a `Changed` leaf holds two unequal scalars of one type; a
/// `TypeMismatch` leaf holds values of different types, each under its type
/// name.
pub open spec fn well_shaped(n: NodeView) -> bool
    decreases n,
{
    match n {
        NodeView::Container(_, _, _, ns) => ns.len() > 0 && forall|i: int|
            0 <= i < ns.len() ==> well_shaped(#[trigger] ns[i]),
        NodeView::Leaf(_, KindView::Changed(a, e)) => is_scalar(a) && is_scalar(e) && same_type(a, e)
            && !json_equal(a, e),
        NodeView::Leaf(_, KindView::TypeMismatch(a, at, e, et)) => !same_type(a, e) && at
            == json_type_name(a) && et == json_type_name(e) && at != et,
        NodeView::Leaf(_, _) => true,
    }
}

/// Every node of the sequence is [`well_shaped`].
pub open spec fn all_well_shaped(ns: Seq<NodeView>) -> bool {
    forall|i: int| 0 <= i < ns.len() ==> well_shaped(#[trigger] ns[i])
}

/// A comparison result whose nodes are well shaped.
spec fn result_well_shaped(r: ResultView) -> bool {
    match r {
        ResultView::Equal => true,
        ResultView::Leaf(k) => well_shaped(NodeView::Leaf(SegmentView::Unmatched, k)),
        ResultView::Children(_, ns, _) => ns.len() > 0 && all_well_shaped(ns),
    }
}

/// Every tree the diff engine builds is well shaped: containers are never
/// empty, a change of value is reported only between two unequal scalars of
/// one type (objects and arrays are compared entry by entry), and a type
/// mismatch names the two different types.
pub proof fn law_results_are_well_shaped(a: JsonValue, e: JsonValue, cfg: DiffConfig)
    ensures
        diff_spec(a, e, cfg) matches Ok(nodes) ==> all_well_shaped(nodes),
{
    lemma_result_shaped(a, e, cfg, Seq::empty());
}

/// Different JSON types have different names.
proof fn lemma_type_names_differ(a: JsonValue, e: JsonValue)
    requires
        !same_type(a, e),
    ensures
        json_type_name(a) != json_type_name(e),
{
    reveal_strlit("null");
    reveal_strlit("bool");
    reveal_strlit("number");
    reveal_strlit("string");
    reveal_strlit("array");
    reveal_strlit("object");
    let x = json_type_name(a);
    let y = json_type_name(e);
    if x.len() == y.len() {
        assert(x[0] != y[0] || x[1] != y[1]);
    }
}

proof fn lemma_push_result_well_shaped(nodes: Seq<NodeView>, seg: SegmentView, r: ResultView)
    requires
        all_well_shaped(nodes),
        result_well_shaped(r),
    ensures
        all_well_shaped(push_result(nodes, seg, r)),
{
    let out = push_result(nodes, seg, r);
    assert forall|i: int| 0 <= i < out.len() implies well_shaped(#[trigger] out[i]) by {
        if i < nodes.len() {
            assert(out[i] == nodes[i]);
        }
    }
}

proof fn lemma_push_best_shaped(
    nodes: Seq<NodeView>,
    seg: SegmentView,
    r: ResultView,
    strategy: AmbiguousMatchStrategy,
    candidates: int,
)
    requires
        all_well_shaped(nodes),
        result_well_shaped(r),
    ensures
        all_well_shaped(push_best(nodes, seg, r, strategy, candidates)),
{
    if r is Children && strategy is BestMatch {
        let ns = r->Children_1;
        let inner = seq![NodeView::Leaf(seg, KindView::Ambiguous(candidates))] + ns;
        assert forall|i: int| 0 <= i < inner.len() implies well_shaped(#[trigger] inner[i]) by {
            if i > 0 {
                assert(inner[i] == ns[i - 1]);
            }
        }
        let out = push_best(nodes, seg, r, strategy, candidates);
        assert forall|i: int| 0 <= i < out.len() implies well_shaped(#[trigger] out[i]) by {
            if i < nodes.len() {
                assert(out[i] == nodes[i]);
            }
        }
    } else {
        lemma_push_result_well_shaped(nodes, seg, r);
    }
}

proof fn lemma_result_shaped(a: JsonValue, e: JsonValue, cfg: DiffConfig, path: Seq<char>)
    ensures
        diff_values_spec(a, e, cfg, path) matches Ok(r) ==> result_well_shaped(r),
    decreases e, 0nat,
{
    if same_type(a, e) {
        match e {
            JsonValue::Object(em) => {
                lemma_object_children_shaped(a->Object_0, em, cfg, path, em.len());
            },
            JsonValue::Array(ea) => {
                let aa = a->Array_0;
                match mode_at(cfg, path) {
                    ArrayMatchMode::Index => {
                        lemma_index_children_shaped(aa, ea, cfg, path, ea.len());
                        assert(diff_arrays_spec(aa, ea, cfg, path) == index_result(aa, ea, cfg, path));
                    },
                    ArrayMatchMode::Key(_) | ArrayMatchMode::Keys(_) => {
                        lemma_key_children_shaped(
                            aa,
                            ea,
                            mode_keys(mode_at(cfg, path)),
                            strategy_at(cfg, path),
                            cfg,
                            path,
                            ea.len(),
                        );
                        assert(diff_arrays_spec(aa, ea, cfg, path) == key_result(
                            aa,
                            ea,
                            mode_keys(mode_at(cfg, path)),
                            strategy_at(cfg, path),
                            cfg,
                            path,
                        ));
                    },
                    ArrayMatchMode::Contains => {
                        lemma_contains_children_shaped(aa, ea, strategy_at(cfg, path), path, ea.len());
                        assert(diff_arrays_spec(aa, ea, cfg, path) == contains_result(
                            aa,
                            ea,
                            strategy_at(cfg, path),
                            path,
                        ));
                    },
                }
            },
            _ => {},
        }
    } else {
        lemma_type_names_differ(a, e);
    }
}

proof fn lemma_object_children_shaped(
    am: Seq<(Seq<char>, JsonValue)>,
    em: Seq<(Seq<char>, JsonValue)>,
    cfg: DiffConfig,
    path: Seq<char>,
    n: nat,
)
    ensures
        object_children(am, em, cfg, path, n) matches Ok(nodes) ==> all_well_shaped(nodes),
    decreases em, n,
{
    if n > 0 && n <= em.len() {
        lemma_object_children_shaped(am, em, cfg, path, (n - 1) as nat);
        let key = em[n - 1].0;
        if let Ok(nodes) = object_children(am, em, cfg, path, (n - 1) as nat) {
            match obj_get(am, key) {
                None => {
                    lemma_push_result_well_shaped(
                        nodes,
                        SegmentView::Key(key),
                        ResultView::Leaf(KindView::Missing(em[n - 1].1)),
                    );
                },
                Some(av) => {
                    lemma_result_shaped(av, em[n - 1].1, cfg, child_path(path, key));
                    if let Ok(r) = diff_values_spec(av, em[n - 1].1, cfg, child_path(path, key)) {
                        lemma_push_result_well_shaped(nodes, SegmentView::Key(key), r);
                    }
                },
            }
        }
    }
}

proof fn lemma_index_children_shaped(
    aa: Seq<JsonValue>,
    ea: Seq<JsonValue>,
    cfg: DiffConfig,
    path: Seq<char>,
    n: nat,
)
    ensures
        index_children(aa, ea, cfg, path, n) matches Ok(nodes) ==> all_well_shaped(nodes),
    decreases ea, n,
{
    if n > 0 && n <= ea.len() {
        lemma_index_children_shaped(aa, ea, cfg, path, (n - 1) as nat);
        let i = n - 1;
        let seg = SegmentView::Index(((i as int) as u16) as int);
        if let Ok(nodes) = index_children(aa, ea, cfg, path, (n - 1) as nat) {
            if i < aa.len() {
                lemma_result_shaped(aa[i], ea[i], cfg, path);
                if let Ok(r) = diff_values_spec(aa[i], ea[i], cfg, path) {
                    lemma_push_result_well_shaped(nodes, seg, r);
                }
            } else {
                lemma_push_result_well_shaped(nodes, seg, ResultView::Leaf(KindView::Missing(ea[i])));
            }
        }
    }
}

proof fn lemma_key_children_shaped(
    aa: Seq<JsonValue>,
    ea: Seq<JsonValue>,
    keys: Seq<Seq<char>>,
    strategy: AmbiguousMatchStrategy,
    cfg: DiffConfig,
    path: Seq<char>,
    n: nat,
)
    ensures
        key_children(aa, ea, keys, strategy, cfg, path, n) matches Ok((nodes, _))
            ==> all_well_shaped(nodes),
    decreases ea, n,
{
    if n > 0 && n <= ea.len() {
        lemma_key_children_shaped(aa, ea, keys, strategy, cfg, path, (n - 1) as nat);
        let el = ea[n - 1];
        if let Ok((nodes, _)) = key_children(aa, ea, keys, strategy, cfg, path, (n - 1) as nat) {
            if let Some(kv) = key_tuple(el, keys) {
                let cands = key_candidates(aa, keys, kv);
                let seg = element_segment(keys, kv);
                if cands.len() == 0 {
                    lemma_push_result_well_shaped(
                        nodes,
                        SegmentView::Unmatched,
                        ResultView::Leaf(KindView::Missing(el)),
                    );
                } else if cands.len() == 1 {
                    lemma_result_shaped(cands[0], el, cfg, path);
                    if let Ok(r) = diff_values_spec(cands[0], el, cfg, path) {
                        lemma_push_result_well_shaped(nodes, seg, r);
                    }
                } else if !(strategy is Strict) {
                    lemma_pick_prefix_best(cands, el, cfg, path, cands.len());
                    if let Ok(r) = pick_best_spec(cands, el, cfg, path) {
                        let j = choose|j: int|
                            0 <= j < cands.len() && #[trigger] diff_values_spec(cands[j], el, cfg, path)
                                == Ok::<ResultView, ErrorView>(r);
                        lemma_result_shaped(cands[j], el, cfg, path);
                        lemma_push_best_shaped(
                            nodes,
                            seg,
                            r,
                            strategy,
                            (cands.len() as u16) as int,
                        );
                    }
                }
            }
        }
    }
}

proof fn lemma_contains_children_shaped(
    aa: Seq<JsonValue>,
    ea: Seq<JsonValue>,
    strategy: AmbiguousMatchStrategy,
    path: Seq<char>,
    n: nat,
)
    ensures
        contains_children(aa, ea, strategy, path, n) matches Ok((nodes, _))
            ==> all_well_shaped(nodes),
    decreases n,
{
    if n > 0 && n <= ea.len() {
        lemma_contains_children_shaped(aa, ea, strategy, path, (n - 1) as nat);
        if let Ok((nodes, _)) = contains_children(aa, ea, strategy, path, (n - 1) as nat) {
            lemma_push_result_well_shaped(
                nodes,
                SegmentView::Unmatched,
                ResultView::Leaf(KindView::Missing(ea[n - 1])),
            );
        }
    }
}

// ---------------------------------------------------------------------------
// Under index matching, an empty tree means the actual value subsumes the
// expected one
// ---------------------------------------------------------------------------

/// `a` holds everything `e` holds, matching array elements by position:
/// equal scalars; every expected key present with a subsuming value; at
/// least as many elements as expected, each subsuming its counterpart.
pub open spec fn subsumes(a: JsonValue, e: JsonValue) -> bool
    decreases e,
{
    if !same_type(a, e) {
        false
    } else {
        match e {
            JsonValue::Object(em) => forall|j: int|
                0 <= j < em.len() ==> match obj_get(a->Object_0, (#[trigger] em[j]).0) {
                    Some(x) => subsumes(x, em[j].1),
                    None => false,
                },
            JsonValue::Array(ea) => a->Array_0.len() >= ea.len() && forall|i: int|
                0 <= i < ea.len() ==> subsumes(a->Array_0[i], #[trigger] ea[i]),
            _ => json_equal(a, e),
        }
    }
}

/// With index matching for every array (as in the default configuration),
/// the diff tree is empty exactly when the actual value subsumes the
/// expected one: extra actual keys and extra trailing elements are never
/// differences, anything else is.
pub proof fn law_empty_tree_iff_subsumed(a: JsonValue, e: JsonValue, cfg: DiffConfig)
    requires
        index_only(cfg),
    ensures
        diff_spec(a, e, cfg) matches Ok(nodes) && (nodes.len() == 0 <==> subsumes(a, e)),
{
    law_index_matching_diff_succeeds(a, e, cfg);
    law_empty_tree_iff_equal(a, e, cfg);
    lemma_equal_iff_subsumed(a, e, cfg, Seq::empty());
    if let Ok(nodes) = diff_spec(a, e, cfg) {
        if nodes.len() == 0 {
            assert(nodes =~= Seq::<NodeView>::empty());
        }
    }
}

proof fn lemma_equal_iff_subsumed(a: JsonValue, e: JsonValue, cfg: DiffConfig, path: Seq<char>)
    requires
        index_only(cfg),
    ensures
        (diff_values_spec(a, e, cfg, path) == Ok::<ResultView, ErrorView>(ResultView::Equal)) <==> subsumes(a, e),
    decreases e, 0nat,
{
    if same_type(a, e) {
        match e {
            JsonValue::Object(em) => {
                let am = a->Object_0;
                lemma_object_children_ok(am, em, cfg, path, em.len());
                lemma_object_children_empty(am, em, cfg, path, em.len());
                assert forall|j: int| 0 <= j < em.len() implies (match obj_get(am, (#[trigger] em[j]).0) {
                    Some(x) => diff_values_spec(x, em[j].1, cfg, child_path(path, em[j].0))
                        == Ok::<ResultView, ErrorView>(ResultView::Equal),
                    None => false,
                }) == (match obj_get(am, em[j].0) {
                    Some(x) => subsumes(x, em[j].1),
                    None => false,
                }) by {
                    if let Some(x) = obj_get(am, em[j].0) {
                        lemma_equal_iff_subsumed(x, em[j].1, cfg, child_path(path, em[j].0));
                    }
                }
            },
            JsonValue::Array(ea) => {
                let aa = a->Array_0;
                assert(mode_at(cfg, path) is Index);
                assert(diff_arrays_spec(aa, ea, cfg, path) == index_result(aa, ea, cfg, path));
                lemma_index_children_ok(aa, ea, cfg, path, ea.len());
                lemma_index_children_empty(aa, ea, cfg, path, ea.len());
                assert forall|i: int| 0 <= i < ea.len() && i < aa.len() implies (diff_values_spec(
                    aa[i],
                    #[trigger] ea[i],
                    cfg,
                    path,
                ) == Ok::<ResultView, ErrorView>(ResultView::Equal)) == subsumes(aa[i], ea[i]) by {
                    lemma_equal_iff_subsumed(aa[i], ea[i], cfg, path);
                }
            },
            _ => {},
        }
    }
}

proof fn lemma_object_children_empty(
    am: Seq<(Seq<char>, JsonValue)>,
    em: Seq<(Seq<char>, JsonValue)>,
    cfg: DiffConfig,
    path: Seq<char>,
    n: nat,
)
    requires
        n <= em.len(),
    ensures
        object_children(am, em, cfg, path, n) matches Ok(nodes) ==> ((nodes.len() == 0) <==> forall|j: int|
            0 <= j < n ==> match obj_get(am, (#[trigger] em[j]).0) {
                Some(x) => diff_values_spec(x, em[j].1, cfg, child_path(path, em[j].0))
                    == Ok::<ResultView, ErrorView>(ResultView::Equal),
                None => false,
            }),
    decreases n,
{
    if n > 0 {
        lemma_object_children_empty(am, em, cfg, path, (n - 1) as nat);
    }
}

proof fn lemma_index_children_empty(
    aa: Seq<JsonValue>,
    ea: Seq<JsonValue>,
    cfg: DiffConfig,
    path: Seq<char>,
    n: nat,
)
    requires
        n <= ea.len(),
    ensures
        index_children(aa, ea, cfg, path, n) matches Ok(nodes) ==> ((nodes.len() == 0) <==> forall|i: int|
            0 <= i < n ==> i < aa.len() && diff_values_spec(aa[i], #[trigger] ea[i], cfg, path)
                == Ok::<ResultView, ErrorView>(ResultView::Equal)),
    decreases n,
{
    if n > 0 {
        lemma_index_children_empty(aa, ea, cfg, path, (n - 1) as nat);
    }
}

// ---------------------------------------------------------------------------
// Under index matching, only the paths of the expected value are read
// ---------------------------------------------------------------------------

/// `a2` agrees with `a` on every path of the expected value `e`: where `e`
/// holds an object and `a` does too, `a2` holds an object with the same
/// expected keys present, each agreeing below; where `e` holds an array and
/// `a` does too, `a2` holds an array of the same length whose elements agree
/// with those of `a` at the expected positions; anywhere else `a2` is `a`.
/// Keys that `e` does not name may be added or dropped at any depth.
pub open spec fn agrees_on_expected(a2: JsonValue, a: JsonValue, e: JsonValue) -> bool
    decreases e,
{
    match e {
        JsonValue::Object(em) => if a is Object {
            a2 is Object && forall|j: int|
                0 <= j < em.len() ==> match obj_get(a2->Object_0, (#[trigger] em[j]).0) {
                    Some(x2) => match obj_get(a->Object_0, em[j].0) {
                        Some(x) => agrees_on_expected(x2, x, em[j].1),
                        None => false,
                    },
                    None => obj_get(a->Object_0, em[j].0) is None,
                }
        } else {
            a2 == a
        },
        JsonValue::Array(ea) => if a is Array {
            a2 is Array && a2->Array_0.len() == a->Array_0.len() && forall|i: int|
                0 <= i < ea.len() && i < a->Array_0.len() ==> agrees_on_expected(
                    a2->Array_0[i],
                    a->Array_0[i],
                    #[trigger] ea[i],
                )
        } else {
            a2 == a
        },
        _ => a2 == a,
    }
}

/// Two nodes that differ at most in the omitted counts of their containers.
pub open spec fn same_but_omitted(n1: NodeView, n2: NodeView) -> bool
    decreases n1,
{
    match n1 {
        NodeView::Container(s1, k1, _, ns1) => match n2 {
            NodeView::Container(s2, k2, _, ns2) => s1 == s2 && k1 == k2 && ns1.len() == ns2.len()
                && forall|i: int| 0 <= i < ns1.len() ==> same_but_omitted(#[trigger] ns1[i], ns2[i]),
            NodeView::Leaf(_, _) => false,
        },
        NodeView::Leaf(_, _) => n1 == n2,
    }
}

/// Two node sequences that differ at most in omitted counts.
pub open spec fn all_same_but_omitted(ns1: Seq<NodeView>, ns2: Seq<NodeView>) -> bool {
    ns1.len() == ns2.len() && forall|i: int| 0 <= i < ns1.len() ==> same_but_omitted(#[trigger] ns1[i], ns2[i])
}

/// Two comparison results that differ at most in omitted counts.
spec fn same_result_but_omitted(r1: ResultView, r2: ResultView) -> bool {
    match r1 {
        ResultView::Children(k1, ns1, _) => match r2 {
            ResultView::Children(k2, ns2, _) => k1 == k2 && all_same_but_omitted(ns1, ns2),
            _ => false,
        },
        _ => r1 == r2,
    }
}

/// With index matching for every array (as in the default configuration),
/// the diff reads the actual value only at the paths of the expected one:
/// actual values that agree there, such as one with extra object keys at
/// any depth, give the same tree up to the omitted counts.
pub proof fn law_diff_reads_only_expected_paths(a: JsonValue, a2: JsonValue, e: JsonValue, cfg: DiffConfig)
    requires
        index_only(cfg),
        agrees_on_expected(a2, a, e),
    ensures
        diff_spec(a, e, cfg) matches Ok(t1) && diff_spec(a2, e, cfg) matches Ok(t2) && all_same_but_omitted(
            t1,
            t2,
        ),
{
    lemma_agreeing_results(a, a2, e, cfg, Seq::empty());
}

proof fn lemma_push_same_but_omitted(
    ns1: Seq<NodeView>,
    ns2: Seq<NodeView>,
    seg: SegmentView,
    r1: ResultView,
    r2: ResultView,
)
    requires
        all_same_but_omitted(ns1, ns2),
        same_result_but_omitted(r1, r2),
    ensures
        all_same_but_omitted(push_result(ns1, seg, r1), push_result(ns2, seg, r2)),
{
    let o1 = push_result(ns1, seg, r1);
    let o2 = push_result(ns2, seg, r2);
    assert forall|i: int| 0 <= i < o1.len() implies same_but_omitted(#[trigger] o1[i], o2[i]) by {
        if i < ns1.len() {
            assert(o1[i] == ns1[i]);
            assert(o2[i] == ns2[i]);
        }
    }
}

proof fn lemma_agreeing_results(a: JsonValue, a2: JsonValue, e: JsonValue, cfg: DiffConfig, path: Seq<char>)
    requires
        index_only(cfg),
        agrees_on_expected(a2, a, e),
    ensures
        diff_values_spec(a, e, cfg, path) matches Ok(r1) && diff_values_spec(a2, e, cfg, path) matches Ok(
            r2,
        ) && same_result_but_omitted(r1, r2),
    decreases e, 0nat,
{
    law_index_matching_never_fails(a, e, cfg, path);
    law_index_matching_never_fails(a2, e, cfg, path);
    if same_type(a, e) {
        match e {
            JsonValue::Object(em) => {
                lemma_agreeing_object_children(a->Object_0, a2->Object_0, em, cfg, path, em.len());
            },
            JsonValue::Array(ea) => {
                let aa = a->Array_0;
                let aa2 = a2->Array_0;
                assert(mode_at(cfg, path) is Index);
                assert(diff_arrays_spec(aa, ea, cfg, path) == index_result(aa, ea, cfg, path));
                assert(diff_arrays_spec(aa2, ea, cfg, path) == index_result(aa2, ea, cfg, path));
                lemma_agreeing_index_children(aa, aa2, ea, cfg, path, ea.len());
            },
            _ => {},
        }
    }
}

proof fn lemma_agreeing_object_children(
    am: Seq<(Seq<char>, JsonValue)>,
    am2: Seq<(Seq<char>, JsonValue)>,
    em: Seq<(Seq<char>, JsonValue)>,
    cfg: DiffConfig,
    path: Seq<char>,
    n: nat,
)
    requires
        index_only(cfg),
        n <= em.len(),
        forall|j: int|
            0 <= j < em.len() ==> match obj_get(am2, (#[trigger] em[j]).0) {
                Some(x2) => match obj_get(am, em[j].0) {
                    Some(x) => agrees_on_expected(x2, x, em[j].1),
                    None => false,
                },
                None => obj_get(am, em[j].0) is None,
            },
    ensures
        object_children(am, em, cfg, path, n) matches Ok(ns1) && object_children(am2, em, cfg, path, n) matches Ok(
            ns2,
        ) && all_same_but_omitted(ns1, ns2),
    decreases em, n,
{
    if n > 0 {
        lemma_agreeing_object_children(am, am2, em, cfg, path, (n - 1) as nat);
        let key = em[n - 1].0;
        let ev = em[n - 1].1;
        let ns1 = object_children(am, em, cfg, path, (n - 1) as nat)->Ok_0;
        let ns2 = object_children(am2, em, cfg, path, (n - 1) as nat)->Ok_0;
        match obj_get(am2, key) {
            Some(x2) => {
                let x = obj_get(am, key)->Some_0;
                lemma_agreeing_results(x, x2, ev, cfg, child_path(path, key));
                let r1 = diff_values_spec(x, ev, cfg, child_path(path, key))->Ok_0;
                let r2 = diff_values_spec(x2, ev, cfg, child_path(path, key))->Ok_0;
                lemma_push_same_but_omitted(ns1, ns2, SegmentView::Key(key), r1, r2);
            },
            None => {
                lemma_push_same_but_omitted(ns1, ns2, SegmentView::Key(key), ResultView::Leaf(KindView::Missing(ev)), ResultView::Leaf(KindView::Missing(ev)));
            },
        }
    }
}

proof fn lemma_agreeing_index_children(
    aa: Seq<JsonValue>,
    aa2: Seq<JsonValue>,
    ea: Seq<JsonValue>,
    cfg: DiffConfig,
    path: Seq<char>,
    n: nat,
)
    requires
        index_only(cfg),
        n <= ea.len(),
        aa2.len() == aa.len(),
        forall|i: int| 0 <= i < ea.len() && i < aa.len() ==> agrees_on_expected(aa2[i], aa[i], #[trigger] ea[i]),
    ensures
        index_children(aa, ea, cfg, path, n) matches Ok(ns1) && index_children(aa2, ea, cfg, path, n) matches Ok(
            ns2,
        ) && all_same_but_omitted(ns1, ns2),
    decreases ea, n,
{
    if n > 0 {
        lemma_agreeing_index_children(aa, aa2, ea, cfg, path, (n - 1) as nat);
        let i = n - 1;
        let seg = SegmentView::Index(((i as int) as u16) as int);
        let ns1 = index_children(aa, ea, cfg, path, (n - 1) as nat)->Ok_0;
        let ns2 = index_children(aa2, ea, cfg, path, (n - 1) as nat)->Ok_0;
        if i < aa.len() {
            lemma_agreeing_results(aa[i], aa2[i], ea[i], cfg, path);
            let r1 = diff_values_spec(aa[i], ea[i], cfg, path)->Ok_0;
            let r2 = diff_values_spec(aa2[i], ea[i], cfg, path)->Ok_0;
            lemma_push_same_but_omitted(ns1, ns2, seg, r1, r2);
        } else {
            lemma_push_same_but_omitted(ns1, ns2, seg, ResultView::Leaf(KindView::Missing(ea[i])), ResultView::Leaf(KindView::Missing(ea[i])));
        }
    }
}

// ---------------------------------------------------------------------------
// Ambiguity warnings come only from the best match strategy
// ---------------------------------------------------------------------------

/// No ambiguous match can leave a warning: every array matched by key or by
/// containment uses a strategy other than best match.
pub open spec fn warning_free(cfg: DiffConfig) -> bool {
    forall|p: Seq<char>| #[trigger] mode_at(cfg, p) is Index || !(strategy_at(cfg, p) is BestMatch)
}

/// No node inside holds an ambiguity warning.
pub open spec fn warning_less(n: NodeView) -> bool
    decreases n,
{
    match n {
        NodeView::Container(_, _, _, ns) => forall|i: int| 0 <= i < ns.len() ==> warning_less(#[trigger] ns[i]),
        NodeView::Leaf(_, k) => !(k is Ambiguous),
    }
}

/// Every node of the sequence is [`warning_less`].
pub open spec fn all_warning_less(ns: Seq<NodeView>) -> bool {
    forall|i: int| 0 <= i < ns.len() ==> warning_less(#[trigger] ns[i])
}

spec fn result_warning_less(r: ResultView) -> bool {
    match r {
        ResultView::Equal => true,
        ResultView::Leaf(k) => !(k is Ambiguous),
        ResultView::Children(_, ns, _) => all_warning_less(ns),
    }
}

/// An ambiguity warning is left only by the best match strategy: where every
/// array matched by key or by content resolves ambiguity otherwise, the tree
/// holds no warning.
pub proof fn law_warnings_only_under_best_match(a: JsonValue, e: JsonValue, cfg: DiffConfig)
    requires
        warning_free(cfg),
    ensures
        diff_spec(a, e, cfg) matches Ok(nodes) ==> all_warning_less(nodes),
{
    lemma_result_warning_less(a, e, cfg, Seq::empty());
}

proof fn lemma_push_result_warning_less(nodes: Seq<NodeView>, seg: SegmentView, r: ResultView)
    requires
        all_warning_less(nodes),
        result_warning_less(r),
    ensures
        all_warning_less(push_result(nodes, seg, r)),
{
    let out = push_result(nodes, seg, r);
    assert forall|i: int| 0 <= i < out.len() implies warning_less(#[trigger] out[i]) by {
        if i < nodes.len() {
            assert(out[i] == nodes[i]);
        }
    }
}

proof fn lemma_result_warning_less(a: JsonValue, e: JsonValue, cfg: DiffConfig, path: Seq<char>)
    requires
        warning_free(cfg),
    ensures
        diff_values_spec(a, e, cfg, path) matches Ok(r) ==> result_warning_less(r),
    decreases e, 0nat,
{
    if same_type(a, e) {
        match e {
            JsonValue::Object(em) => {
                lemma_object_children_warning_less(a->Object_0, em, cfg, path, em.len());
            },
            JsonValue::Array(ea) => {
                let aa = a->Array_0;
                match mode_at(cfg, path) {
                    ArrayMatchMode::Index => {
                        lemma_index_children_warning_less(aa, ea, cfg, path, ea.len());
                        assert(diff_arrays_spec(aa, ea, cfg, path) == index_result(aa, ea, cfg, path));
                    },
                    ArrayMatchMode::Key(_) | ArrayMatchMode::Keys(_) => {
                        lemma_key_children_warning_less(
                            aa,
                            ea,
                            mode_keys(mode_at(cfg, path)),
                            strategy_at(cfg, path),
                            cfg,
                            path,
                            ea.len(),
                        );
                        assert(diff_arrays_spec(aa, ea, cfg, path) == key_result(
                            aa,
                            ea,
                            mode_keys(mode_at(cfg, path)),
                            strategy_at(cfg, path),
                            cfg,
                            path,
                        ));
                    },
                    ArrayMatchMode::Contains => {
                        lemma_contains_children_warning_less(aa, ea, strategy_at(cfg, path), path, ea.len());
                        assert(diff_arrays_spec(aa, ea, cfg, path) == contains_result(
                            aa,
                            ea,
                            strategy_at(cfg, path),
                            path,
                        ));
                    },
                }
            },
            _ => {},
        }
    }
}

proof fn lemma_object_children_warning_less(
    am: Seq<(Seq<char>, JsonValue)>,
    em: Seq<(Seq<char>, JsonValue)>,
    cfg: DiffConfig,
    path: Seq<char>,
    n: nat,
)
    requires
        warning_free(cfg),
    ensures
        object_children(am, em, cfg, path, n) matches Ok(nodes) ==> all_warning_less(nodes),
    decreases em, n,
{
    if n > 0 && n <= em.len() {
        lemma_object_children_warning_less(am, em, cfg, path, (n - 1) as nat);
        let key = em[n - 1].0;
        if let Ok(nodes) = object_children(am, em, cfg, path, (n - 1) as nat) {
            match obj_get(am, key) {
                None => {
                    lemma_push_result_warning_less(
                        nodes,
                        SegmentView::Key(key),
                        ResultView::Leaf(KindView::Missing(em[n - 1].1)),
                    );
                },
                Some(av) => {
                    lemma_result_warning_less(av, em[n - 1].1, cfg, child_path(path, key));
                    if let Ok(r) = diff_values_spec(av, em[n - 1].1, cfg, child_path(path, key)) {
                        lemma_push_result_warning_less(nodes, SegmentView::Key(key), r);
                    }
                },
            }
        }
    }
}

proof fn lemma_index_children_warning_less(
    aa: Seq<JsonValue>,
    ea: Seq<JsonValue>,
    cfg: DiffConfig,
    path: Seq<char>,
    n: nat,
)
    requires
        warning_free(cfg),
    ensures
        index_children(aa, ea, cfg, path, n) matches Ok(nodes) ==> all_warning_less(nodes),
    decreases ea, n,
{
    if n > 0 && n <= ea.len() {
        lemma_index_children_warning_less(aa, ea, cfg, path, (n - 1) as nat);
        let i = n - 1;
        let seg = SegmentView::Index(((i as int) as u16) as int);
        if let Ok(nodes) = index_children(aa, ea, cfg, path, (n - 1) as nat) {
            if i < aa.len() {
                lemma_result_warning_less(aa[i], ea[i], cfg, path);
                if let Ok(r) = diff_values_spec(aa[i], ea[i], cfg, path) {
                    lemma_push_result_warning_less(nodes, seg, r);
                }
            } else {
                lemma_push_result_warning_less(nodes, seg, ResultView::Leaf(KindView::Missing(ea[i])));
            }
        }
    }
}

proof fn lemma_key_children_warning_less(
    aa: Seq<JsonValue>,
    ea: Seq<JsonValue>,
    keys: Seq<Seq<char>>,
    strategy: AmbiguousMatchStrategy,
    cfg: DiffConfig,
    path: Seq<char>,
    n: nat,
)
    requires
        warning_free(cfg),
        !(strategy is BestMatch),
    ensures
        key_children(aa, ea, keys, strategy, cfg, path, n) matches Ok((nodes, _))
            ==> all_warning_less(nodes),
    decreases ea, n,
{
    if n > 0 && n <= ea.len() {
        lemma_key_children_warning_less(aa, ea, keys, strategy, cfg, path, (n - 1) as nat);
        let el = ea[n - 1];
        if let Ok((nodes, _)) = key_children(aa, ea, keys, strategy, cfg, path, (n - 1) as nat) {
            if let Some(kv) = key_tuple(el, keys) {
                let cands = key_candidates(aa, keys, kv);
                let seg = element_segment(keys, kv);
                if cands.len() == 0 {
                    lemma_push_result_warning_less(
                        nodes,
                        SegmentView::Unmatched,
                        ResultView::Leaf(KindView::Missing(el)),
                    );
                } else if cands.len() == 1 {
                    lemma_result_warning_less(cands[0], el, cfg, path);
                    if let Ok(r) = diff_values_spec(cands[0], el, cfg, path) {
                        lemma_push_result_warning_less(nodes, seg, r);
                    }
                } else if !(strategy is Strict) {
                    lemma_pick_prefix_best(cands, el, cfg, path, cands.len());
                    if let Ok(r) = pick_best_spec(cands, el, cfg, path) {
                        let j = choose|j: int|
                            0 <= j < cands.len() && #[trigger] diff_values_spec(cands[j], el, cfg, path)
                                == Ok::<ResultView, ErrorView>(r);
                        lemma_result_warning_less(cands[j], el, cfg, path);
                        lemma_push_result_warning_less(nodes, seg, r);
                    }
                }
            }
        }
    }
}

proof fn lemma_contains_children_warning_less(
    aa: Seq<JsonValue>,
    ea: Seq<JsonValue>,
    strategy: AmbiguousMatchStrategy,
    path: Seq<char>,
    n: nat,
)
    ensures
        contains_children(aa, ea, strategy, path, n) matches Ok((nodes, _))
            ==> all_warning_less(nodes),
    decreases n,
{
    if n > 0 && n <= ea.len() {
        lemma_contains_children_warning_less(aa, ea, strategy, path, (n - 1) as nat);
        if let Ok((nodes, _)) = contains_children(aa, ea, strategy, path, (n - 1) as nat) {
            lemma_push_result_warning_less(
                nodes,
                SegmentView::Unmatched,
                ResultView::Leaf(KindView::Missing(ea[n - 1])),
            );
        }
    }
}

// ---------------------------------------------------------------------------
// The best match and silent strategies differ only in the warning
// ---------------------------------------------------------------------------

/// The two configurations match every array alike: the same mode, and the
/// strict strategy in one exactly where it is in the other. They may differ
/// in whether ambiguity is resolved with a warning (best match) or without
/// one (silent).
pub open spec fn alike_but_warnings(cfg1: DiffConfig, cfg2: DiffConfig) -> bool {
    forall|p: Seq<char>|
        #![trigger mode_at(cfg1, p)]
        #![trigger strategy_at(cfg1, p)]
        mode_at(cfg1, p) == mode_at(cfg2, p) && (strategy_at(cfg1, p) is Strict) == (strategy_at(
            cfg2,
            p,
        ) is Strict)
}

/// The node is an ambiguity warning.
pub open spec fn is_warning(n: NodeView) -> bool {
    n matches NodeView::Leaf(_, KindView::Ambiguous(_))
}

/// 1 when the nodes open with a warning, 0 otherwise.
pub open spec fn warning_offset(ns: Seq<NodeView>) -> int {
    if ns.len() > 0 && is_warning(ns[0]) {
        1
    } else {
        0
    }
}

/// Two nodes that are the same once the warnings opening their containers'
/// children are left out.
pub open spec fn same_but_warnings(n1: NodeView, n2: NodeView) -> bool
    decreases n1,
{
    match n1 {
        NodeView::Container(s1, k1, o1, ns1) => match n2 {
            NodeView::Container(s2, k2, o2, ns2) => s1 == s2 && k1 == k2 && o1 == o2 && ns1.len()
                - warning_offset(ns1) == ns2.len() - warning_offset(ns2) && forall|j: int|
                warning_offset(ns1) <= j < ns1.len() ==> same_but_warnings(
                    #[trigger] ns1[j],
                    ns2[j - warning_offset(ns1) + warning_offset(ns2)],
                ),
            NodeView::Leaf(_, _) => false,
        },
        NodeView::Leaf(_, _) => n1 == n2,
    }
}

/// Pairwise [`same_but_warnings`] node sequences, neither of which holds a
/// warning itself.
pub open spec fn all_same_but_warnings(ns1: Seq<NodeView>, ns2: Seq<NodeView>) -> bool {
    ns1.len() == ns2.len() && forall|i: int|
        0 <= i < ns1.len() ==> same_but_warnings(#[trigger] ns1[i], ns2[i]) && !is_warning(ns1[i])
            && !is_warning(ns2[i])
}

spec fn same_result_but_warnings(r1: ResultView, r2: ResultView) -> bool {
    match r1 {
        ResultView::Children(k1, ns1, o1) => r2 matches ResultView::Children(k2, ns2, o2) && k1 == k2
            && o1 == o2 && all_same_but_warnings(ns1, ns2),
        ResultView::Leaf(k) => r1 == r2 && !(k is Ambiguous),
        ResultView::Equal => r2 is Equal,
    }
}

spec fn same_outcome(o1: Result<ResultView, ErrorView>, o2: Result<ResultView, ErrorView>) -> bool {
    match o1 {
        Err(x) => o2 == Err::<ResultView, ErrorView>(x),
        Ok(r1) => o2 matches Ok(r2) && same_result_but_warnings(r1, r2),
    }
}

/// The best match and silent strategies pick the same candidates and fail
/// alike: two configurations that differ only in which of the two resolves
/// ambiguity give the same outcome, and trees that are the same once the
/// warnings are left out.
pub proof fn law_strategies_differ_only_in_warnings(
    a: JsonValue,
    e: JsonValue,
    cfg1: DiffConfig,
    cfg2: DiffConfig,
)
    requires
        alike_but_warnings(cfg1, cfg2),
    ensures
        match diff_spec(a, e, cfg1) {
            Err(x) => diff_spec(a, e, cfg2) == Err::<Seq<NodeView>, ErrorView>(x),
            Ok(t1) => diff_spec(a, e, cfg2) matches Ok(t2) && all_same_but_warnings(t1, t2),
        },
{
    lemma_same_outcome(a, e, cfg1, cfg2, Seq::empty());
    if let Ok(ResultView::Leaf(k)) = diff_values_spec(a, e, cfg1, Seq::empty()) {
        let t = seq![NodeView::Leaf(SegmentView::Key(Seq::empty()), k)];
        assert(same_but_warnings(t[0], t[0]));
    }
}

proof fn lemma_push_result_same(
    ns1: Seq<NodeView>,
    ns2: Seq<NodeView>,
    seg: SegmentView,
    r1: ResultView,
    r2: ResultView,
)
    requires
        all_same_but_warnings(ns1, ns2),
        same_result_but_warnings(r1, r2),
    ensures
        all_same_but_warnings(push_result(ns1, seg, r1), push_result(ns2, seg, r2)),
{
    let o1 = push_result(ns1, seg, r1);
    let o2 = push_result(ns2, seg, r2);
    if let ResultView::Children(k, c1, oc) = r1 {
        let c2 = r2->Children_1;
        assert(warning_offset(c1) == 0);
        assert(warning_offset(c2) == 0);
        assert(same_but_warnings(o1[ns1.len() as int], o2[ns1.len() as int]));
    }
    if let ResultView::Leaf(k) = r1 {
        assert(same_but_warnings(o1[ns1.len() as int], o2[ns1.len() as int]));
    }
    assert forall|i: int| 0 <= i < o1.len() implies same_but_warnings(#[trigger] o1[i], o2[i]) && !is_warning(
        o1[i],
    ) && !is_warning(o2[i]) by {
        if i < ns1.len() {
            assert(o1[i] == ns1[i]);
            assert(o2[i] == ns2[i]);
        }
    }
}

#[verifier::spinoff_prover]
proof fn lemma_push_best_same(
    ns1: Seq<NodeView>,
    ns2: Seq<NodeView>,
    seg: SegmentView,
    r1: ResultView,
    r2: ResultView,
    s1: AmbiguousMatchStrategy,
    s2: AmbiguousMatchStrategy,
    c: int,
)
    requires
        all_same_but_warnings(ns1, ns2),
        same_result_but_warnings(r1, r2),
    ensures
        all_same_but_warnings(push_best(ns1, seg, r1, s1, c), push_best(ns2, seg, r2, s2, c)),
{
    if let ResultView::Children(k, c1, oc) = r1 {
        let c2 = r2->Children_1;
        let w = NodeView::Leaf(seg, KindView::Ambiguous(c));
        let in1 = if s1 is BestMatch {
            seq![w] + c1
        } else {
            c1
        };
        let in2 = if s2 is BestMatch {
            seq![w] + c2
        } else {
            c2
        };
        let d1: int = if s1 is BestMatch {
            1
        } else {
            0
        };
        let d2: int = if s2 is BestMatch {
            1
        } else {
            0
        };
        assert(in1.len() > 0 ==> in1[0] == (if s1 is BestMatch { w } else { c1[0] }));
        assert(in2.len() > 0 ==> in2[0] == (if s2 is BestMatch { w } else { c2[0] }));
        assert(warning_offset(in1) == d1);
        assert(warning_offset(in2) == d2);
        assert forall|j: int| warning_offset(in1) <= j < in1.len() implies same_but_warnings(
            #[trigger] in1[j],
            in2[j - warning_offset(in1) + warning_offset(in2)],
        ) by {
            let i = j - d1;
            assert(in1[j] == c1[i]);
            assert(in2[i + d2] == c2[i]);
        }
        let n1 = NodeView::Container(seg, k, oc, in1);
        let n2 = NodeView::Container(seg, k, oc, in2);
        assert(same_but_warnings(n1, n2));
        let o1 = push_best(ns1, seg, r1, s1, c);
        let o2 = push_best(ns2, seg, r2, s2, c);
        assert(o1 == ns1.push(n1));
        assert(o2 == ns2.push(n2));
        assert forall|i: int| 0 <= i < o1.len() implies same_but_warnings(#[trigger] o1[i], o2[i])
            && !is_warning(o1[i]) && !is_warning(o2[i]) by {
            if i < ns1.len() {
                assert(o1[i] == ns1[i]);
                assert(o2[i] == ns2[i]);
            }
        }
        assert(all_same_but_warnings(o1, o2));
    } else {
        assert(!(r2 is Children));
        assert(push_best(ns1, seg, r1, s1, c) == push_result(ns1, seg, r1));
        assert(push_best(ns2, seg, r2, s2, c) == push_result(ns2, seg, r2));
        lemma_push_result_same(ns1, ns2, seg, r1, r2);
    }
}

proof fn lemma_same_outcome(a: JsonValue, e: JsonValue, cfg1: DiffConfig, cfg2: DiffConfig, path: Seq<char>)
    requires
        alike_but_warnings(cfg1, cfg2),
    ensures
        same_outcome(diff_values_spec(a, e, cfg1, path), diff_values_spec(a, e, cfg2, path)),
    decreases e, 0nat,
{
    if same_type(a, e) {
        match e {
            JsonValue::Object(em) => {
                lemma_same_object_children(a->Object_0, em, cfg1, cfg2, path, em.len());
            },
            JsonValue::Array(ea) => {
                let aa = a->Array_0;
                assert(mode_at(cfg1, path) == mode_at(cfg2, path));
                let s1 = strategy_at(cfg1, path);
                let s2 = strategy_at(cfg2, path);
                match mode_at(cfg1, path) {
                    ArrayMatchMode::Index => {
                        lemma_same_index_children(aa, ea, cfg1, cfg2, path, ea.len());
                        assert(diff_arrays_spec(aa, ea, cfg1, path) == index_result(aa, ea, cfg1, path));
                        assert(diff_arrays_spec(aa, ea, cfg2, path) == index_result(aa, ea, cfg2, path));
                    },
                    ArrayMatchMode::Key(_) | ArrayMatchMode::Keys(_) => {
                        lemma_same_key_children(aa, ea, mode_keys(mode_at(cfg1, path)), s1, s2, cfg1, cfg2, path, ea.len());
                        assert(diff_arrays_spec(aa, ea, cfg1, path) == key_result(aa, ea, mode_keys(mode_at(cfg1, path)), s1, cfg1, path));
                        assert(diff_arrays_spec(aa, ea, cfg2, path) == key_result(aa, ea, mode_keys(mode_at(cfg2, path)), s2, cfg2, path));
                    },
                    ArrayMatchMode::Contains => {
                        lemma_same_contains_children(aa, ea, s1, s2, path, ea.len());
                        assert(diff_arrays_spec(aa, ea, cfg1, path) == contains_result(aa, ea, s1, path));
                        assert(diff_arrays_spec(aa, ea, cfg2, path) == contains_result(aa, ea, s2, path));
                    },
                }
            },
            _ => {},
        }
    }
}

proof fn lemma_same_object_children(
    am: Seq<(Seq<char>, JsonValue)>,
    em: Seq<(Seq<char>, JsonValue)>,
    cfg1: DiffConfig,
    cfg2: DiffConfig,
    path: Seq<char>,
    n: nat,
)
    requires
        alike_but_warnings(cfg1, cfg2),
    ensures
        match object_children(am, em, cfg1, path, n) {
            Err(x) => object_children(am, em, cfg2, path, n) == Err::<Seq<NodeView>, ErrorView>(x),
            Ok(n1) => object_children(am, em, cfg2, path, n) matches Ok(n2) && all_same_but_warnings(n1, n2),
        },
    decreases em, n,
{
    if n > 0 && n <= em.len() {
        lemma_same_object_children(am, em, cfg1, cfg2, path, (n - 1) as nat);
        let key = em[n - 1].0;
        let ev = em[n - 1].1;
        if let Ok(n1) = object_children(am, em, cfg1, path, (n - 1) as nat) {
            let n2 = object_children(am, em, cfg2, path, (n - 1) as nat)->Ok_0;
            match obj_get(am, key) {
                None => {
                    let r = ResultView::Leaf(KindView::Missing(ev));
                    lemma_push_result_same(n1, n2, SegmentView::Key(key), r, r);
                },
                Some(av) => {
                    lemma_same_outcome(av, ev, cfg1, cfg2, child_path(path, key));
                    if let Ok(r1) = diff_values_spec(av, ev, cfg1, child_path(path, key)) {
                        let r2 = diff_values_spec(av, ev, cfg2, child_path(path, key))->Ok_0;
                        lemma_push_result_same(n1, n2, SegmentView::Key(key), r1, r2);
                    }
                },
            }
        }
    }
}

proof fn lemma_same_index_children(
    aa: Seq<JsonValue>,
    ea: Seq<JsonValue>,
    cfg1: DiffConfig,
    cfg2: DiffConfig,
    path: Seq<char>,
    n: nat,
)
    requires
        alike_but_warnings(cfg1, cfg2),
    ensures
        match index_children(aa, ea, cfg1, path, n) {
            Err(x) => index_children(aa, ea, cfg2, path, n) == Err::<Seq<NodeView>, ErrorView>(x),
            Ok(n1) => index_children(aa, ea, cfg2, path, n) matches Ok(n2) && all_same_but_warnings(n1, n2),
        },
    decreases ea, n,
{
    if n > 0 && n <= ea.len() {
        lemma_same_index_children(aa, ea, cfg1, cfg2, path, (n - 1) as nat);
        let i = n - 1;
        let seg = SegmentView::Index(((i as int) as u16) as int);
        if let Ok(n1) = index_children(aa, ea, cfg1, path, (n - 1) as nat) {
            let n2 = index_children(aa, ea, cfg2, path, (n - 1) as nat)->Ok_0;
            if i < aa.len() {
                lemma_same_outcome(aa[i], ea[i], cfg1, cfg2, path);
                if let Ok(r1) = diff_values_spec(aa[i], ea[i], cfg1, path) {
                    let r2 = diff_values_spec(aa[i], ea[i], cfg2, path)->Ok_0;
                    lemma_push_result_same(n1, n2, seg, r1, r2);
                }
            } else {
                let r = ResultView::Leaf(KindView::Missing(ea[i]));
                lemma_push_result_same(n1, n2, seg, r, r);
            }
        }
    }
}

proof fn lemma_same_contains_children(
    aa: Seq<JsonValue>,
    ea: Seq<JsonValue>,
    s1: AmbiguousMatchStrategy,
    s2: AmbiguousMatchStrategy,
    path: Seq<char>,
    n: nat,
)
    requires
        (s1 is Strict) == (s2 is Strict),
    ensures
        contains_children(aa, ea, s1, path, n) == contains_children(aa, ea, s2, path, n),
        contains_children(aa, ea, s1, path, n) matches Ok((nodes, _)) ==> all_same_but_warnings(nodes, nodes),
    decreases n,
{
    if n > 0 && n <= ea.len() {
        lemma_same_contains_children(aa, ea, s1, s2, path, (n - 1) as nat);
        if let Ok((nodes, _)) = contains_children(aa, ea, s1, path, (n - 1) as nat) {
            let r = ResultView::Leaf(KindView::Missing(ea[n - 1]));
            lemma_push_result_same(nodes, nodes, SegmentView::Unmatched, r, r);
        }
    }
}

proof fn lemma_same_key_children(
    aa: Seq<JsonValue>,
    ea: Seq<JsonValue>,
    keys: Seq<Seq<char>>,
    s1: AmbiguousMatchStrategy,
    s2: AmbiguousMatchStrategy,
    cfg1: DiffConfig,
    cfg2: DiffConfig,
    path: Seq<char>,
    n: nat,
)
    requires
        alike_but_warnings(cfg1, cfg2),
        (s1 is Strict) == (s2 is Strict),
    ensures
        match key_children(aa, ea, keys, s1, cfg1, path, n) {
            Err(x) => key_children(aa, ea, keys, s2, cfg2, path, n) == Err::<
                (Seq<NodeView>, (nat, Set<int>)),
                ErrorView,
            >(x),
            Ok((n1, mk1)) => key_children(aa, ea, keys, s2, cfg2, path, n) matches Ok((n2, mk2)) && mk1
                == mk2 && all_same_but_warnings(n1, n2),
        },
    decreases ea, n,
{
    if n > 0 && n <= ea.len() {
        lemma_same_key_children(aa, ea, keys, s1, s2, cfg1, cfg2, path, (n - 1) as nat);
        let el = ea[n - 1];
        if let Ok((n1, _)) = key_children(aa, ea, keys, s1, cfg1, path, (n - 1) as nat) {
            let n2 = key_children(aa, ea, keys, s2, cfg2, path, (n - 1) as nat)->Ok_0.0;
            if let Some(kv) = key_tuple(el, keys) {
                let cands = key_candidates(aa, keys, kv);
                let seg = element_segment(keys, kv);
                if cands.len() == 0 {
                    let r = ResultView::Leaf(KindView::Missing(el));
                    lemma_push_result_same(n1, n2, SegmentView::Unmatched, r, r);
                } else if cands.len() == 1 {
                    lemma_same_outcome(cands[0], el, cfg1, cfg2, path);
                    if let Ok(r1) = diff_values_spec(cands[0], el, cfg1, path) {
                        let r2 = diff_values_spec(cands[0], el, cfg2, path)->Ok_0;
                        lemma_push_result_same(n1, n2, seg, r1, r2);
                    }
                } else {
                    lemma_same_pick(cands, el, cfg1, cfg2, path, cands.len());
                    if let Ok(r1) = pick_best_spec(cands, el, cfg1, path) {
                        let r2 = pick_best_spec(cands, el, cfg2, path)->Ok_0;
                        lemma_push_best_same(n1, n2, seg, r1, r2, s1, s2, (cands.len() as u16) as int);
                    }
                }
            }
        }
    }
}

proof fn lemma_same_pick(
    cands: Seq<JsonValue>,
    e: JsonValue,
    cfg1: DiffConfig,
    cfg2: DiffConfig,
    path: Seq<char>,
    m: nat,
)
    requires
        alike_but_warnings(cfg1, cfg2),
    ensures
        pick_index(cands, e, cfg1, path, m) == pick_index(cands, e, cfg2, path, m),
        match pick_prefix(cands, e, cfg1, path, m) {
            Err(x) => pick_prefix(cands, e, cfg2, path, m) == Err::<Option<(ResultView, nat)>, ErrorView>(x),
            Ok(None) => pick_prefix(cands, e, cfg2, path, m) == Ok::<Option<(ResultView, nat)>, ErrorView>(None),
            Ok(Some((r1, c1))) => pick_prefix(cands, e, cfg2, path, m) matches Ok(Some((r2, c2))) && c1 == c2
                && same_result_but_warnings(r1, r2),
        },
    decreases e, m + 1,
{
    if m > 0 && m <= cands.len() {
        lemma_same_pick(cands, e, cfg1, cfg2, path, (m - 1) as nat);
        lemma_same_outcome(cands[m - 1], e, cfg1, cfg2, path);
    }
}

// ---------------------------------------------------------------------------
// Strings compare by their characters
// ---------------------------------------------------------------------------

/// Two strings are equal exactly when they hold the same characters, case
/// included; comparing two strings finds them equal exactly then, and
/// otherwise reports the change from the expected to the actual string.
pub proof fn law_strings_compare_by_characters(s: Seq<char>, t: Seq<char>, cfg: DiffConfig, path: Seq<char>)
    ensures
        json_equal(JsonValue::Str(s), JsonValue::Str(t)) <==> s == t,
        diff_values_spec(JsonValue::Str(s), JsonValue::Str(t), cfg, path) == (if s == t {
            Ok::<ResultView, ErrorView>(ResultView::Equal)
        } else {
            Ok::<ResultView, ErrorView>(
                ResultView::Leaf(KindView::Changed(JsonValue::Str(s), JsonValue::Str(t))),
            )
        }),
{
}

// ---------------------------------------------------------------------------
// Key matching omits exactly the actual elements no expected element selects
// ---------------------------------------------------------------------------

/// The actual element `a` holds the key values of the expected element `e`.
pub open spec fn selects(e: JsonValue, a: JsonValue, keys: Seq<Seq<char>>) -> bool {
    key_tuple(e, keys) matches Some(kt) && tuple_matches(a, keys, kt)
}

/// Some expected element selects the actual element `a`.
pub open spec fn selected(a: JsonValue, ea: Seq<JsonValue>, keys: Seq<Seq<char>>) -> bool {
    exists|j: int| 0 <= j < ea.len() && #[trigger] selects(ea[j], a, keys)
}

/// The number of the first `n` actual elements that no expected element
/// selects.
pub open spec fn unselected_count(aa: Seq<JsonValue>, ea: Seq<JsonValue>, keys: Seq<Seq<char>>, n: nat) -> nat
    decreases n,
{
    if n == 0 || n > aa.len() {
        0
    } else {
        unselected_count(aa, ea, keys, (n - 1) as nat) + if selected(aa[n - 1], ea, keys) {
            0nat
        } else {
            1nat
        }
    }
}

/// Every expected element selects at most one actual element.
pub open spec fn selections_unique(aa: Seq<JsonValue>, ea: Seq<JsonValue>, keys: Seq<Seq<char>>) -> bool {
    forall|j: int, i1: int, i2: int|
        0 <= j < ea.len() && 0 <= i1 < aa.len() && 0 <= i2 < aa.len() && #[trigger] selects(ea[j], aa[i1], keys)
            && #[trigger] selects(ea[j], aa[i2], keys) ==> i1 == i2
}

/// Where every expected element holds its key fields and selects at most one
/// actual element, key matching counts as omitted exactly the actual
/// elements that no expected element selects: an element matched by key is
/// never omitted, whether it compared equal or not.
pub proof fn law_key_matching_omits_unselected(
    aa: Seq<JsonValue>,
    ea: Seq<JsonValue>,
    keys: Seq<Seq<char>>,
    strategy: AmbiguousMatchStrategy,
    cfg: DiffConfig,
    path: Seq<char>,
)
    requires
        forall|j: int| 0 <= j < ea.len() ==> key_tuple(#[trigger] ea[j], keys) is Some,
        selections_unique(aa, ea, keys),
    ensures
        key_result(aa, ea, keys, strategy, cfg, path) matches Ok(ResultView::Children(_, _, oc)) ==> oc
            == (unselected_count(aa, ea, keys, aa.len()) as u16) as int,
{
    lemma_key_marks(aa, ea, keys, strategy, cfg, path, ea.len());
    if let Ok((nodes, (m, marks))) = key_children(aa, ea, keys, strategy, cfg, path, ea.len()) {
        lemma_unmatched_is_unselected(aa, ea, keys, marks, aa.len());
    }
}

proof fn lemma_candidate_indices(aa: Seq<JsonValue>, keys: Seq<Seq<char>>, kt: Seq<JsonValue>)
    ensures
        key_candidate_indices(aa, keys, kt).len() == key_candidates(aa, keys, kt).len(),
        forall|k: int|
            0 <= k < key_candidate_indices(aa, keys, kt).len() ==> 0 <= #[trigger] key_candidate_indices(
                aa,
                keys,
                kt,
            )[k] < aa.len() && tuple_matches(aa[key_candidate_indices(aa, keys, kt)[k]], keys, kt),
        forall|i: int|
            0 <= i < aa.len() && #[trigger] tuple_matches(aa[i], keys, kt) ==> exists|k: int|
                0 <= k < key_candidate_indices(aa, keys, kt).len() && #[trigger] key_candidate_indices(
                    aa,
                    keys,
                    kt,
                )[k] == i,
        forall|k1: int, k2: int|
            0 <= k1 < k2 < key_candidate_indices(aa, keys, kt).len() ==> #[trigger] key_candidate_indices(
                aa,
                keys,
                kt,
            )[k1] < #[trigger] key_candidate_indices(aa, keys, kt)[k2],
    decreases aa.len(),
{
    if aa.len() > 0 {
        let init = aa.drop_last();
        lemma_candidate_indices(init, keys, kt);
        let p = key_candidate_indices(init, keys, kt);
        let q = key_candidate_indices(aa, keys, kt);
        assert forall|k: int| 0 <= k < p.len() implies init[p[k]] == aa[p[k]] by {}
        assert forall|i: int| 0 <= i < aa.len() && #[trigger] tuple_matches(aa[i], keys, kt) implies exists|k: int|
            0 <= k < q.len() && #[trigger] q[k] == i by {
            if i < aa.len() - 1 {
                assert(init[i] == aa[i]);
                assert(tuple_matches(init[i], keys, kt));
                let k = choose|k: int| 0 <= k < p.len() && #[trigger] p[k] == i;
                assert(q[k] == p[k]);
            } else {
                assert(aa.last() == aa[i]);
                assert(q[q.len() - 1] == i);
            }
        }
        assert forall|k: int| 0 <= k < q.len() implies 0 <= #[trigger] q[k] < aa.len() && tuple_matches(
            aa[q[k]],
            keys,
            kt,
        ) by {
            if k < p.len() {
                assert(q[k] == p[k]);
                assert(init[p[k]] == aa[p[k]]);
            } else {
                assert(aa.last() == aa[aa.len() - 1]);
            }
        }
        assert forall|k1: int, k2: int| 0 <= k1 < k2 < q.len() implies #[trigger] q[k1] < #[trigger] q[k2] by {
            if k2 < p.len() {
                assert(q[k1] == p[k1] && q[k2] == p[k2]);
            } else {
                assert(q[k1] == p[k1]);
            }
        }
    }
}

proof fn lemma_key_marks(
    aa: Seq<JsonValue>,
    ea: Seq<JsonValue>,
    keys: Seq<Seq<char>>,
    strategy: AmbiguousMatchStrategy,
    cfg: DiffConfig,
    path: Seq<char>,
    n: nat,
)
    requires
        n <= ea.len(),
        forall|j: int| 0 <= j < ea.len() ==> key_tuple(#[trigger] ea[j], keys) is Some,
        selections_unique(aa, ea, keys),
    ensures
        key_children(aa, ea, keys, strategy, cfg, path, n) matches Ok((_, (_, marks))) ==> forall|i: int|
            #[trigger] marks.contains(i) <==> (0 <= i < aa.len() && exists|j: int|
                0 <= j < n && #[trigger] selects(ea[j], aa[i], keys)),
    decreases n,
{
    if n > 0 {
        lemma_key_marks(aa, ea, keys, strategy, cfg, path, (n - 1) as nat);
        if let Ok((_, (_, marks))) = key_children(aa, ea, keys, strategy, cfg, path, n) {
            let prev = key_children(aa, ea, keys, strategy, cfg, path, (n - 1) as nat);
            let old_marks = prev->Ok_0.1.1;
            let el = ea[n - 1];
            assert(key_tuple(el, keys) is Some);
            let kt = key_tuple(el, keys)->Some_0;
            let cands = key_candidates(aa, keys, kt);
            let idx = key_candidate_indices(aa, keys, kt);
            lemma_candidate_indices(aa, keys, kt);
            if cands.len() == 0 {
                assert forall|i: int| 0 <= i < aa.len() implies !selects(el, aa[i], keys) by {
                    if tuple_matches(aa[i], keys, kt) {
                        let k = choose|k: int| 0 <= k < idx.len() && #[trigger] idx[k] == i;
                    }
                }
                assert forall|i: int| #[trigger] marks.contains(i) <==> (0 <= i < aa.len() && exists|j: int|
                    0 <= j < n && #[trigger] selects(ea[j], aa[i], keys)) by {
                    if 0 <= i < aa.len() && exists|j: int| 0 <= j < n && #[trigger] selects(ea[j], aa[i], keys) {
                        let j = choose|j: int| 0 <= j < n && #[trigger] selects(ea[j], aa[i], keys);
                        if j == n - 1 {
                            assert(!selects(el, aa[i], keys));
                        }
                    }
                }
            } else if cands.len() == 1 {
                let c = idx[0];
                assert(selects(el, aa[c], keys));
                assert forall|i: int| #[trigger] marks.contains(i) <==> (0 <= i < aa.len() && exists|j: int|
                    0 <= j < n && #[trigger] selects(ea[j], aa[i], keys)) by {
                    if 0 <= i < aa.len() && exists|j: int| 0 <= j < n && #[trigger] selects(ea[j], aa[i], keys) {
                        let j = choose|j: int| 0 <= j < n && #[trigger] selects(ea[j], aa[i], keys);
                        if j == n - 1 {
                            assert(selects(ea[n - 1], aa[c], keys));
                            assert(i == c);
                        } else {
                            assert(old_marks.contains(i));
                        }
                    }
                    if marks.contains(i) && i != c {
                        assert(old_marks.contains(i));
                    }
                    if i == c {
                        assert(selects(ea[n - 1], aa[i], keys));
                    }
                }
            } else {
                assert(selects(el, aa[idx[0]], keys));
                assert(selects(el, aa[idx[1]], keys));
                assert(idx[0] < idx[1]);
                assert(ea[n - 1] == el);
            }
        }
    }
}

proof fn lemma_unmatched_is_unselected(
    aa: Seq<JsonValue>,
    ea: Seq<JsonValue>,
    keys: Seq<Seq<char>>,
    marks: Set<int>,
    n: nat,
)
    requires
        n <= aa.len(),
        forall|i: int|
            #[trigger] marks.contains(i) <==> (0 <= i < aa.len() && exists|j: int|
                0 <= j < ea.len() && #[trigger] selects(ea[j], aa[i], keys)),
    ensures
        unmatched_count(marks, n) == unselected_count(aa, ea, keys, n),
    decreases n,
{
    if n > 0 {
        lemma_unmatched_is_unselected(aa, ea, keys, marks, (n - 1) as nat);
        assert(marks.contains(n - 1) <==> selected(aa[n - 1], ea, keys));
    }
}

} // verus!
