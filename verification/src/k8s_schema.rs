//! Derive a [`MatchConfig`] from a Kubernetes OpenAPI schema.
//!
//! Kubernetes encodes array-matching semantics via vendor extensions on each
//! array property:
//!
//! - `x-kubernetes-list-type: map` + `x-kubernetes-list-map-keys: [fields]` maps
//!   to [`ArrayMatchMode::Keys`] (the distinguished keys).
//! - `x-kubernetes-list-type: set` maps to [`ArrayMatchMode::Contains`].
//! - `x-kubernetes-list-type: atomic` (or absent) is index matching, the
//!   default, so it is omitted from the produced config.
//! - The legacy `x-kubernetes-patch-strategy: merge` +
//!   `x-kubernetes-patch-merge-key: k` maps to [`ArrayMatchMode::Key`].

use vstd::prelude::*;
use crate::config::{ArrayMatchConfig, ArrayMatchMode, MatchConfig};
use crate::diff::{child_path, child_path_of, keys_view, values_view};
use crate::text::{chars_of, push_char, push_str, str_equal, string_of};
use crate::value::{JsonValue, Value, lemma_obj_get_some, obj_get};

verus! {

// ---------------------------------------------------------------------------
// Mathematical model
// ---------------------------------------------------------------------------

/// The model of an [`ArrayMatchMode`].
pub enum ModeView {
    Index,
    Key(Seq<char>),
    Keys(Seq<Seq<char>>),
    Contains,
}

/// The model of a match mode.
pub open spec fn mode_view(m: ArrayMatchMode) -> ModeView {
    match m {
        ArrayMatchMode::Index => ModeView::Index,
        ArrayMatchMode::Key(k) => ModeView::Key(k@),
        ArrayMatchMode::Keys(ks) => ModeView::Keys(keys_view(ks@)),
        ArrayMatchMode::Contains => ModeView::Contains,
    }
}

/// The value under `key` when `v` is an object that holds one.
pub open spec fn field(v: JsonValue, key: Seq<char>) -> Option<JsonValue> {
    match v {
        JsonValue::Object(es) => obj_get(es, key),
        _ => None,
    }
}

/// The string under `key` when `v` is an object that holds one there.
pub open spec fn field_text(v: JsonValue, key: Seq<char>) -> Option<Seq<char>> {
    match field(v, key) {
        Some(JsonValue::Str(s)) => Some(s),
        _ => None,
    }
}

/// The prefix of a reference into the components map.
pub open spec fn ref_prefix() -> Seq<char> {
    "#/components/schemas/"@
}

/// The component that `reference` names, when it points into the
/// components map and the map holds it.
pub open spec fn resolve_spec(reference: Seq<char>, components: Option<JsonValue>) -> Option<JsonValue> {
    if reference.len() >= ref_prefix().len() && reference.take(ref_prefix().len() as int)
        == ref_prefix() {
        match components {
            Some(c) => field(c, reference.skip(ref_prefix().len() as int)),
            None => None,
        }
    } else {
        None
    }
}

/// A schema describes an array: its type is `array`, or it has `items`.
pub open spec fn is_array_spec(schema: JsonValue) -> bool {
    field_text(schema, "type"@) == Some("array"@) || field(schema, "items"@) is Some
}

/// The strings among `xs`, in order.
pub open spec fn str_items(xs: Seq<JsonValue>) -> Seq<Seq<char>>
    decreases xs.len(),
{
    if xs.len() == 0 {
        Seq::empty()
    } else {
        match xs.last() {
            JsonValue::Str(s) => str_items(xs.drop_last()).push(s),
            _ => str_items(xs.drop_last()),
        }
    }
}

/// The comma-separated parts of the first `n` characters of `s`.
pub open spec fn parts_of(s: Seq<char>, n: nat) -> Seq<Seq<char>>
    decreases n,
{
    if n == 0 || n > s.len() {
        seq![Seq::empty()]
    } else {
        let p = parts_of(s, (n - 1) as nat);
        if s[n - 1] == ',' {
            p.push(Seq::empty())
        } else {
            p.update(p.len() - 1, p.last().push(s[n - 1]))
        }
    }
}

/// The comma-separated parts of `s`.
pub open spec fn comma_parts(s: Seq<char>) -> Seq<Seq<char>> {
    parts_of(s, s.len())
}

/// The legacy merge key: the patch merge key, when the patch strategy lists
/// `merge` among its comma-separated parts.
pub open spec fn legacy_merge_key_spec(schema: JsonValue) -> Option<Seq<char>> {
    match field_text(schema, "x-kubernetes-patch-strategy"@) {
        Some(strategy) => if comma_parts(strategy).contains("merge"@) {
            field_text(schema, "x-kubernetes-patch-merge-key"@)
        } else {
            None
        },
        None => None,
    }
}

/// The match mode an array schema asks for, or `None` for index matching:
/// a `map` list with keys matches by those keys, a `set` list by content;
/// without a list type, a legacy merge key matches by that key.
pub open spec fn array_mode_spec(schema: JsonValue) -> Option<ModeView> {
    match field_text(schema, "x-kubernetes-list-type"@) {
        Some(list_type) => if list_type == "map"@ {
            let keys = match field(schema, "x-kubernetes-list-map-keys"@) {
                Some(JsonValue::Array(xs)) => str_items(xs),
                _ => Seq::empty(),
            };
            if keys.len() == 0 {
                None
            } else {
                Some(ModeView::Keys(keys))
            }
        } else if list_type == "set"@ {
            Some(ModeView::Contains)
        } else {
            None
        },
        None => match legacy_merge_key_spec(schema) {
            Some(k) => Some(ModeView::Key(k)),
            None => None,
        },
    }
}

/// The number of the first `n` components whose reference is not in
/// `visiting`.
pub open spec fn count_unvisited(
    es: Seq<(Seq<char>, JsonValue)>,
    visiting: Set<Seq<char>>,
    n: nat,
) -> nat
    decreases n,
{
    if n == 0 || n > es.len() {
        0
    } else {
        count_unvisited(es, visiting, (n - 1) as nat) + if visiting.contains(
            ref_prefix() + es[n - 1].0,
        ) {
            0nat
        } else {
            1nat
        }
    }
}

/// The number of components that can still be entered through a reference.
pub open spec fn unvisited(components: Option<JsonValue>, visiting: Set<Seq<char>>) -> nat {
    match components {
        Some(JsonValue::Object(es)) => count_unvisited(es, visiting, es.len()),
        _ => 0,
    }
}

/// The `(path, mode)` entries a schema yields at `path`, in walk order:
/// a reference not on the current descent is followed; every `allOf`
/// subschema is walked at the same path; an array records its mode and
/// walks its `items` at the same path; an object walks its `properties`,
/// extending the dot-separated path.
pub open spec fn schema_entries(
    schema: JsonValue,
    path: Seq<char>,
    components: Option<JsonValue>,
    visiting: Set<Seq<char>>,
) -> Seq<(Seq<char>, ModeView)>
    decreases unvisited(components, visiting), schema, 2nat,
{
    match field_text(schema, "$ref"@) {
        Some(reference) => if visiting.contains(reference) {
            Seq::empty()
        } else {
            match resolve_spec(reference, components) {
                Some(resolved) => {
                    proof {
                        lemma_unvisited_drops(reference, components, visiting);
                    }
                    schema_entries(resolved, path, components, visiting.insert(reference))
                },
                None => Seq::empty(),
            }
        },
        None => match field(schema, "allOf"@) {
            Some(JsonValue::Array(subs)) => {
                proof {
                    lemma_field_decreases(schema, "allOf"@);
                }
                all_of_entries(subs, path, components, visiting, subs.len())
            },
            _ => if is_array_spec(schema) {
                (match array_mode_spec(schema) {
                    Some(m) => seq![(path, m)],
                    None => Seq::empty(),
                }) + match field(schema, "items"@) {
                    Some(items) => {
                        proof {
                            lemma_field_decreases(schema, "items"@);
                        }
                        schema_entries(items, path, components, visiting)
                    },
                    None => Seq::empty(),
                }
            } else {
                match field(schema, "properties"@) {
                    Some(JsonValue::Object(props)) => {
                        proof {
                            lemma_field_decreases(schema, "properties"@);
                        }
                        props_entries(props, path, components, visiting, props.len())
                    },
                    _ => Seq::empty(),
                }
            },
        },
    }
}

/// The entries of the first `n` `allOf` subschemas, at the same path.
pub open spec fn all_of_entries(
    subs: Seq<JsonValue>,
    path: Seq<char>,
    components: Option<JsonValue>,
    visiting: Set<Seq<char>>,
    n: nat,
) -> Seq<(Seq<char>, ModeView)>
    decreases unvisited(components, visiting), subs, n,
{
    if n == 0 || n > subs.len() {
        Seq::empty()
    } else {
        all_of_entries(subs, path, components, visiting, (n - 1) as nat) + schema_entries(
            subs[n - 1],
            path,
            components,
            visiting,
        )
    }
}

/// The entries of the first `n` properties, each at its own path.
pub open spec fn props_entries(
    props: Seq<(Seq<char>, JsonValue)>,
    path: Seq<char>,
    components: Option<JsonValue>,
    visiting: Set<Seq<char>>,
    n: nat,
) -> Seq<(Seq<char>, ModeView)>
    decreases unvisited(components, visiting), props, n,
{
    if n == 0 || n > props.len() {
        Seq::empty()
    } else {
        props_entries(props, path, components, visiting, (n - 1) as nat) + schema_entries(
            props[n - 1].1,
            child_path(path, props[n - 1].0),
            components,
            visiting,
        )
    }
}

/// The mode of the last entry for `path`, if any.
pub open spec fn last_mode(es: Seq<(Seq<char>, ModeView)>, path: Seq<char>) -> Option<ModeView>
    decreases es.len(),
{
    if es.len() == 0 {
        None
    } else if es.last().0 == path {
        Some(es.last().1)
    } else {
        last_mode(es.drop_last(), path)
    }
}

/// The strings of a sequence that holds only strings.
pub open spec fn texts_of(xs: Seq<JsonValue>) -> Seq<Seq<char>> {
    Seq::new(xs.len(), |i: int| xs[i]->Str_0)
}

proof fn lemma_str_items_all_strings(xs: Seq<JsonValue>)
    requires
        forall|i: int| 0 <= i < xs.len() ==> (#[trigger] xs[i]) is Str,
    ensures
        str_items(xs) == texts_of(xs),
    decreases xs.len(),
{
    if xs.len() > 0 {
        let init = xs.drop_last();
        assert forall|i: int| 0 <= i < init.len() implies (#[trigger] init[i]) is Str by {
            assert(init[i] == xs[i]);
        }
        lemma_str_items_all_strings(init);
        assert(xs.last() == xs[xs.len() - 1]);
        assert(texts_of(xs) =~= texts_of(init).push(xs.last()->Str_0));
    }
}

/// A `map` list with a non-empty list of string keys matches by exactly
/// those keys, whatever the schema's legacy patch annotations say.
pub proof fn law_map_list_matches_by_its_keys(schema: JsonValue, xs: Seq<JsonValue>)
    requires
        field_text(schema, "x-kubernetes-list-type"@) == Some("map"@),
        field(schema, "x-kubernetes-list-map-keys"@) == Some(JsonValue::Array(xs)),
        xs.len() > 0,
        forall|i: int| 0 <= i < xs.len() ==> (#[trigger] xs[i]) is Str,
    ensures
        array_mode_spec(schema) == Some(ModeView::Keys(texts_of(xs))),
{
    lemma_str_items_all_strings(xs);
}

/// A schema with a list type takes its mode from the list type alone,
/// whatever its legacy patch annotations say: a `map` list without keys is
/// left to index matching, a `set` list matches by content, and any other
/// list type (such as `atomic`) is left to index matching.
pub proof fn law_list_type_takes_precedence(schema: JsonValue, list_type: Seq<char>)
    requires
        field_text(schema, "x-kubernetes-list-type"@) == Some(list_type),
    ensures
        list_type == "map"@ && field(schema, "x-kubernetes-list-map-keys"@) is None ==> array_mode_spec(
            schema,
        ) is None,
        list_type == "set"@ ==> array_mode_spec(schema) == Some(ModeView::Contains),
        list_type != "map"@ && list_type != "set"@ ==> array_mode_spec(schema) is None,
{
    reveal_strlit("map");
    reveal_strlit("set");
    assert("map"@ != "set"@) by {
        assert("map"@[0] != "set"@[0]);
    }
}

/// Without a list type, a legacy `merge` patch strategy with a merge key
/// matches by that key.
pub proof fn law_legacy_merge_key_without_list_type(schema: JsonValue, key: Seq<char>)
    requires
        field(schema, "x-kubernetes-list-type"@) is None,
        field_text(schema, "x-kubernetes-patch-strategy"@) == Some("merge"@),
        field_text(schema, "x-kubernetes-patch-merge-key"@) == Some(key),
    ensures
        array_mode_spec(schema) == Some(ModeView::Key(key)),
{
    reveal_strlit("merge");
    let w = "merge"@;
    assert(parts_of(w, 0) =~~= seq![Seq::<char>::empty()]);
    assert(parts_of(w, 1) =~~= seq![seq!['m']]);
    assert(parts_of(w, 2) =~~= seq![seq!['m', 'e']]);
    assert(parts_of(w, 3) =~~= seq![seq!['m', 'e', 'r']]);
    assert(parts_of(w, 4) =~~= seq![seq!['m', 'e', 'r', 'g']]);
    assert(parts_of(w, 5) =~~= seq![seq!['m', 'e', 'r', 'g', 'e']]);
    assert(comma_parts(w)[0] == w);
}

/// An entry asks for something other than index matching, and a key mode
/// names at least one key.
pub open spec fn entry_ok(e: (Seq<char>, ModeView)) -> bool {
    !(e.1 is Index) && (e.1 matches ModeView::Keys(ks) ==> ks.len() > 0)
}

/// Every entry of the sequence is [`entry_ok`].
pub open spec fn entries_ok(es: Seq<(Seq<char>, ModeView)>) -> bool {
    forall|i: int| 0 <= i < es.len() ==> entry_ok(#[trigger] es[i])
}

/// The walk records only arrays that index matching (the default) would not
/// cover, and never an empty key set, which could match nothing by key.
pub proof fn law_schema_entries_are_not_defaults(
    schema: JsonValue,
    path: Seq<char>,
    components: Option<JsonValue>,
    visiting: Set<Seq<char>>,
)
    ensures
        entries_ok(schema_entries(schema, path, components, visiting)),
    decreases unvisited(components, visiting), schema, 2nat,
{
    match field_text(schema, "$ref"@) {
        Some(reference) => {
            if !visiting.contains(reference) {
                if let Some(resolved) = resolve_spec(reference, components) {
                    lemma_unvisited_drops(reference, components, visiting);
                    law_schema_entries_are_not_defaults(resolved, path, components, visiting.insert(reference));
                }
            }
        },
        None => match field(schema, "allOf"@) {
            Some(JsonValue::Array(subs)) => {
                lemma_field_decreases(schema, "allOf"@);
                lemma_all_of_entries_ok(subs, path, components, visiting, subs.len());
            },
            _ => if is_array_spec(schema) {
                let head = match array_mode_spec(schema) {
                    Some(m) => seq![(path, m)],
                    None => Seq::empty(),
                };
                let tail = match field(schema, "items"@) {
                    Some(items) => schema_entries(items, path, components, visiting),
                    None => Seq::empty(),
                };
                if let Some(items) = field(schema, "items"@) {
                    lemma_field_decreases(schema, "items"@);
                    law_schema_entries_are_not_defaults(items, path, components, visiting);
                }
                lemma_entries_ok_cat(head, tail);
            } else {
                if let Some(JsonValue::Object(props)) = field(schema, "properties"@) {
                    lemma_field_decreases(schema, "properties"@);
                    lemma_props_entries_ok(props, path, components, visiting, props.len());
                }
            },
        },
    }
}

proof fn lemma_entries_ok_cat(a: Seq<(Seq<char>, ModeView)>, b: Seq<(Seq<char>, ModeView)>)
    requires
        entries_ok(a),
        entries_ok(b),
    ensures
        entries_ok(a + b),
{
    assert forall|i: int| 0 <= i < (a + b).len() implies entry_ok(#[trigger] (a + b)[i]) by {
        if i >= a.len() {
            assert((a + b)[i] == b[i - a.len()]);
        } else {
            assert((a + b)[i] == a[i]);
        }
    }
}

proof fn lemma_all_of_entries_ok(
    subs: Seq<JsonValue>,
    path: Seq<char>,
    components: Option<JsonValue>,
    visiting: Set<Seq<char>>,
    n: nat,
)
    ensures
        entries_ok(all_of_entries(subs, path, components, visiting, n)),
    decreases unvisited(components, visiting), subs, n,
{
    if n > 0 && n <= subs.len() {
        lemma_all_of_entries_ok(subs, path, components, visiting, (n - 1) as nat);
        law_schema_entries_are_not_defaults(subs[n - 1], path, components, visiting);
        lemma_entries_ok_cat(
            all_of_entries(subs, path, components, visiting, (n - 1) as nat),
            schema_entries(subs[n - 1], path, components, visiting),
        );
    }
}

proof fn lemma_props_entries_ok(
    props: Seq<(Seq<char>, JsonValue)>,
    path: Seq<char>,
    components: Option<JsonValue>,
    visiting: Set<Seq<char>>,
    n: nat,
)
    ensures
        entries_ok(props_entries(props, path, components, visiting, n)),
    decreases unvisited(components, visiting), props, n,
{
    if n > 0 && n <= props.len() {
        lemma_props_entries_ok(props, path, components, visiting, (n - 1) as nat);
        law_schema_entries_are_not_defaults(props[n - 1].1, child_path(path, props[n - 1].0), components, visiting);
        lemma_entries_ok_cat(
            props_entries(props, path, components, visiting, (n - 1) as nat),
            schema_entries(props[n - 1].1, child_path(path, props[n - 1].0), components, visiting),
        );
    }
}

// ---------------------------------------------------------------------------
// Lemmas
// ---------------------------------------------------------------------------

/// A field of a value is smaller than the value.
pub proof fn lemma_field_decreases(v: JsonValue, key: Seq<char>)
    ensures
        field(v, key) matches Some(x) ==> decreases_to!(v => x),
{
    if let JsonValue::Object(es) = v {
        if let Some(x) = obj_get(es, key) {
            lemma_obj_get_some(es, key);
            let j = choose|j: int| 0 <= j < es.len() && es[j].0 == key && obj_get(es, key) == Some(
                es[j].1,
            );
            assert(decreases_to!(v => es));
            assert(decreases_to!(es => es[j]));
            assert(decreases_to!(es[j] => es[j].1));
        }
    }
}

/// An element of an array field of a value is smaller than the value.
pub proof fn lemma_field_element_decreases(v: JsonValue, key: Seq<char>, i: int)
    requires
        field(v, key) matches Some(JsonValue::Array(xs)) && 0 <= i < xs.len(),
    ensures
        decreases_to!(v => field(v, key)->Some_0->Array_0[i]),
{
    lemma_field_decreases(v, key);
    let x = field(v, key)->Some_0;
    if let JsonValue::Array(xs) = x {
        assert(decreases_to!(x => xs));
        assert(decreases_to!(xs => xs[i]));
    }
}

/// An entry's value in an object field of a value is smaller than the value.
pub proof fn lemma_field_entry_decreases(v: JsonValue, key: Seq<char>, i: int)
    requires
        field(v, key) matches Some(JsonValue::Object(es)) && 0 <= i < es.len(),
    ensures
        decreases_to!(v => field(v, key)->Some_0->Object_0[i].1),
{
    lemma_field_decreases(v, key);
    let x = field(v, key)->Some_0;
    if let JsonValue::Object(es) = x {
        assert(decreases_to!(x => es));
        assert(decreases_to!(es => es[i]));
        assert(decreases_to!(es[i] => es[i].1));
    }
}

pub proof fn lemma_count_unvisited_insert(
    es: Seq<(Seq<char>, JsonValue)>,
    visiting: Set<Seq<char>>,
    r: Seq<char>,
    n: nat,
    j: int,
)
    requires
        n <= es.len(),
        !visiting.contains(r),
        0 <= j < es.len(),
        ref_prefix() + es[j].0 == r,
    ensures
        count_unvisited(es, visiting.insert(r), n) <= count_unvisited(es, visiting, n),
        j < n ==> count_unvisited(es, visiting.insert(r), n) < count_unvisited(es, visiting, n),
    decreases n,
{
    if n > 0 {
        lemma_count_unvisited_insert(es, visiting, r, (n - 1) as nat, j);
    }
}

/// Following an unvisited reference that resolves leaves fewer components
/// to enter.
pub proof fn lemma_unvisited_drops(r: Seq<char>, components: Option<JsonValue>, visiting: Set<Seq<char>>)
    requires
        !visiting.contains(r),
        resolve_spec(r, components) is Some,
    ensures
        unvisited(components, visiting.insert(r)) < unvisited(components, visiting),
{
    let n = ref_prefix().len() as int;
    let name = r.skip(n);
    let es = components->Some_0->Object_0;
    lemma_obj_get_some(es, name);
    let j = choose|j: int| 0 <= j < es.len() && es[j].0 == name && obj_get(es, name) == Some(
        es[j].1,
    );
    assert(r =~= ref_prefix() + name);
    lemma_count_unvisited_insert(es, visiting, r, es.len(), j);
}

// ---------------------------------------------------------------------------
// The walk
// ---------------------------------------------------------------------------

/// The model of an optional components map.
pub open spec fn comps_view(c: Option<&Value>) -> Option<JsonValue> {
    match c {
        Some(v) => Some(v@),
        None => None,
    }
}

/// The references on the current descent.
pub open spec fn ref_set(v: Seq<String>) -> Set<Seq<char>> {
    Set::new(|r: Seq<char>| exists|i: int| 0 <= i < v.len() && v[i]@ == r)
}

/// The model of collected `(path, mode)` entries.
pub open spec fn entries_view(es: Seq<(String, ArrayMatchMode)>) -> Seq<(Seq<char>, ModeView)> {
    Seq::new(es.len(), |i: int| (es[i].0@, mode_view(es[i].1)))
}

/// The value under `key` (see [`field`]).
fn field_of<'a>(v: &'a Value, key: &str) -> (r: Option<&'a Value>)
    ensures
        r is None <==> field(v@, key@) is None,
        r matches Some(x) ==> field(v@, key@) == Some(x@),
{
    match v {
        Value::Object(m) => m.get(key),
        _ => None,
    }
}

/// The string under `key` (see [`field_text`]).
fn field_text_of<'a>(v: &'a Value, key: &str) -> (r: Option<&'a String>)
    ensures
        r is None <==> field_text(v@, key@) is None,
        r matches Some(s) ==> field_text(v@, key@) == Some(s@),
{
    match field_of(v, key) {
        Some(Value::String(s)) => Some(s),
        _ => None,
    }
}

/// Resolves a `#/components/schemas/NAME` reference against the components
/// map (see [`resolve_spec`]); `None` when there is no components map, or for
/// references that do not point into it, so they are simply not descended.
pub fn resolve<'a>(reference: &str, components: Option<&'a Value>) -> (r: Option<&'a Value>)
    ensures
        r is None <==> resolve_spec(reference@, comps_view(components)) is None,
        r matches Some(x) ==> resolve_spec(reference@, comps_view(components)) == Some(x@),
{
    let cs = chars_of(reference);
    let ps = chars_of("#/components/schemas/");
    let ghost n = ps@.len() as int;
    assert(ps@ == ref_prefix());
    if cs.len() < ps.len() {
        return None;
    }
    let mut i: usize = 0;
    while i < ps.len()
        invariant
            i <= ps@.len(),
            ps@.len() <= cs@.len(),
            n == ps@.len(),
            ps@ == ref_prefix(),
            cs@ == reference@,
            forall|j: int| 0 <= j < i ==> cs@[j] == ps@[j],
        decreases ps@.len() - i,
    {
        if cs[i] != ps[i] {
            assert(cs@.take(n)[i as int] == cs@[i as int]);
            assert(cs@.take(n) != ps@);
            return None;
        }
        i = i + 1;
    }
    assert(cs@.take(n) =~= ps@);
    let mut name = String::new();
    let mut k: usize = ps.len();
    assert(cs@.subrange(n, n) =~= Seq::<char>::empty());
    while k < cs.len()
        invariant
            ps@.len() <= k <= cs@.len(),
            n == ps@.len(),
            name@ == cs@.subrange(n, k as int),
        decreases cs@.len() - k,
    {
        push_char(&mut name, cs[k]);
        assert(cs@.subrange(n, k + 1) =~= cs@.subrange(n, k as int).push(cs@[k as int]));
        k = k + 1;
    }
    assert(name@ =~= cs@.skip(n));
    match components {
        Some(c) => field_of(c, name.as_str()),
        None => None,
    }
}

/// Returns true if the schema describes an array.
fn is_array(schema: &Value) -> (r: bool)
    ensures
        r == is_array_spec(schema@),
{
    let typed = match field_text_of(schema, "type") {
        Some(t) => str_equal(t.as_str(), "array"),
        None => false,
    };
    typed || field_of(schema, "items").is_some()
}

/// The strings among `xs`, in order.
fn str_items_of(xs: &Vec<Value>) -> (r: Vec<String>)
    ensures
        keys_view(r@) == str_items(values_view(xs@)),
{
    let ghost xv = values_view(xs@);
    let mut out: Vec<String> = Vec::new();
    let mut i: usize = 0;
    assert(xv.take(0) =~= Seq::<JsonValue>::empty());
    assert(keys_view(out@) =~= Seq::<Seq<char>>::empty());
    while i < xs.len()
        invariant
            i <= xs@.len(),
            xv == values_view(xs@),
            keys_view(out@) == str_items(xv.take(i as int)),
        decreases xs@.len() - i,
    {
        assert(xv.take(i + 1).drop_last() =~= xv.take(i as int));
        assert(xv.take(i + 1).last() == xs@[i as int]@);
        match &xs[i] {
            Value::String(s) => {
                let ghost before = out@;
                out.push(string_of(s.as_str()));
                assert(keys_view(out@) =~= keys_view(before).push(s@));
            },
            _ => {},
        }
        i = i + 1;
    }
    assert(xv.take(xs@.len() as int) =~= xv);
    out
}

/// Whether two character sequences are equal.
fn chars_equal(a: &Vec<char>, b: &Vec<char>) -> (r: bool)
    ensures
        r == (a@ == b@),
{
    if a.len() != b.len() {
        return false;
    }
    let mut i: usize = 0;
    while i < a.len()
        invariant
            i <= a@.len(),
            a@.len() == b@.len(),
            forall|j: int| 0 <= j < i ==> a@[j] == b@[j],
        decreases a@.len() - i,
    {
        if a[i] != b[i] {
            return false;
        }
        i = i + 1;
    }
    assert(a@ =~= b@);
    true
}

proof fn lemma_parts_nonempty(s: Seq<char>, n: nat)
    ensures
        parts_of(s, n).len() >= 1,
    decreases n,
{
    if n > 0 && n <= s.len() {
        lemma_parts_nonempty(s, (n - 1) as nat);
    }
}

/// Whether `merge` is among the comma-separated parts of `s`.
fn has_merge_part(s: &str) -> (r: bool)
    ensures
        r == comma_parts(s@).contains("merge"@),
{
    let cs = chars_of(s);
    let merge = chars_of("merge");
    let ghost w = "merge"@;
    let mut found = false;
    let mut cur: Vec<char> = Vec::new();
    let mut i: usize = 0;
    assert(parts_of(cs@, 0) =~= seq![Seq::<char>::empty()]);
    assert(parts_of(cs@, 0).drop_last() =~= Seq::<Seq<char>>::empty());
    while i < cs.len()
        invariant
            i <= cs@.len(),
            merge@ == w,
            parts_of(cs@, i as nat).len() >= 1,
            cur@ == parts_of(cs@, i as nat).last(),
            found == parts_of(cs@, i as nat).drop_last().contains(w),
        decreases cs@.len() - i,
    {
        let ghost p = parts_of(cs@, i as nat);
        let c = cs[i];
        if c == ',' {
            let is_merge = chars_equal(&cur, &merge);
            let ghost q = p.push(Seq::<char>::empty());
            assert(q.drop_last() =~= p);
            assert(p =~= p.drop_last().push(p.last()));
            assert(p.contains(w) <==> (p.drop_last().contains(w) || p.last() == w)) by {
                if p.last() == w {
                    assert(p[p.len() - 1] == w);
                }
                if p.contains(w) && !p.drop_last().contains(w) {
                    let j = choose|j: int| 0 <= j < p.len() && p[j] == w;
                    if j < p.len() - 1 {
                        assert(p.drop_last()[j] == w);
                    }
                }
                if p.drop_last().contains(w) {
                    let j = choose|j: int| 0 <= j < p.drop_last().len() && p.drop_last()[j] == w;
                    assert(p[j] == w);
                }
            }
            found = found || is_merge;
            cur = Vec::new();
        } else {
            let ghost q = p.update(p.len() - 1, p.last().push(c));
            assert(q.drop_last() =~= p.drop_last());
            cur.push(c);
        }
        i = i + 1;
        proof {
            lemma_parts_nonempty(cs@, i as nat);
        }
    }
    let is_merge = chars_equal(&cur, &merge);
    let ghost p = parts_of(cs@, cs@.len());
    assert(p.contains(w) <==> (p.drop_last().contains(w) || p.last() == w)) by {
        if p.last() == w {
            assert(p[p.len() - 1] == w);
        }
        if p.contains(w) && !p.drop_last().contains(w) {
            let j = choose|j: int| 0 <= j < p.len() && p[j] == w;
            if j < p.len() - 1 {
                assert(p.drop_last()[j] == w);
            }
        }
        if p.drop_last().contains(w) {
            let j = choose|j: int| 0 <= j < p.drop_last().len() && p.drop_last()[j] == w;
            assert(p[j] == w);
        }
    }
    found || is_merge
}

/// Extracts the legacy `x-kubernetes-patch-merge-key` when the patch strategy
/// is a merge.
fn legacy_merge_key(schema: &Value) -> (r: Option<String>)
    ensures
        match r {
            Some(k) => legacy_merge_key_spec(schema@) == Some(k@),
            None => legacy_merge_key_spec(schema@) is None,
        },
{
    let strategy = match field_text_of(schema, "x-kubernetes-patch-strategy") {
        Some(s) => s,
        None => {
            return None;
        },
    };
    if !has_merge_part(strategy.as_str()) {
        return None;
    }
    match field_text_of(schema, "x-kubernetes-patch-merge-key") {
        Some(k) => Some(string_of(k.as_str())),
        None => None,
    }
}

/// Determines the [`ArrayMatchMode`] for an array property schema from its
/// vendor extensions, or `None` when index matching (the default) applies.
/// The newer `x-kubernetes-list-type` takes precedence over the legacy
/// patch-merge annotations; a `map` with no keys is omitted rather than
/// emitted as an empty key set.
fn array_match_mode(schema: &Value) -> (r: Option<ArrayMatchMode>)
    ensures
        match r {
            Some(m) => array_mode_spec(schema@) == Some(mode_view(m)),
            None => array_mode_spec(schema@) is None,
        },
{
    match field_text_of(schema, "x-kubernetes-list-type") {
        Some(list_type) => {
            if str_equal(list_type.as_str(), "map") {
                let keys = match field_of(schema, "x-kubernetes-list-map-keys") {
                    Some(x) => match x {
                        Value::Array(xs) => {
                            assert(x@->Array_0 =~= values_view(xs@));
                            str_items_of(xs)
                        },
                        _ => {
                            let v: Vec<String> = Vec::new();
                            assert(keys_view(v@) =~= Seq::<Seq<char>>::empty());
                            v
                        },
                    },
                    None => {
                        let v: Vec<String> = Vec::new();
                        assert(keys_view(v@) =~= Seq::<Seq<char>>::empty());
                        v
                    },
                };
                if keys.len() == 0 {
                    None
                } else {
                    Some(ArrayMatchMode::Keys(keys))
                }
            } else if str_equal(list_type.as_str(), "set") {
                Some(ArrayMatchMode::Contains)
            } else {
                None
            }
        },
        None => match legacy_merge_key(schema) {
            Some(k) => Some(ArrayMatchMode::Key(k)),
            None => None,
        },
    }
}

/// Whether `r` is among the references on the current descent.
fn visiting_contains(visiting: &Vec<String>, r: &str) -> (b: bool)
    ensures
        b == ref_set(visiting@).contains(r@),
{
    let mut i: usize = 0;
    while i < visiting.len()
        invariant
            i <= visiting@.len(),
            forall|j: int| 0 <= j < i ==> visiting@[j]@ != r@,
        decreases visiting@.len() - i,
    {
        if str_equal(visiting[i].as_str(), r) {
            assert(ref_set(visiting@).contains(r@));
            return true;
        }
        i = i + 1;
    }
    false
}

/// Recursively collects `(path, mode)` entries from a schema (see
/// [`schema_entries`]).
///
/// `visiting` holds the references on the current descent, so that a
/// self-referential schema terminates. A reference is added on entry and
/// removed on exit, so a shared type referenced from sibling branches is
/// still walked in each.
fn collect(
    schema: &Value,
    path: &str,
    components: Option<&Value>,
    visiting: &mut Vec<String>,
    out: &mut Vec<(String, ArrayMatchMode)>,
)
    ensures
        entries_view(final(out)@) == entries_view(old(out)@) + schema_entries(
            schema@,
            path@,
            comps_view(components),
            ref_set(old(visiting)@),
        ),
        final(visiting)@ == old(visiting)@,
    decreases unvisited(comps_view(components), ref_set(old(visiting)@)), schema@, 2nat,
{
    let ghost comps = comps_view(components);
    let ghost vis = ref_set(visiting@);
    let ghost v0 = visiting@;
    let ghost start = out@;
    // Resolve a `$ref` before anything else.
    if let Some(reference) = field_text_of(schema, "$ref") {
        if visiting_contains(visiting, reference.as_str()) {
            assert(entries_view(out@) =~= entries_view(start) + Seq::empty());
            return;
        }
        if let Some(resolved) = resolve(reference.as_str(), components) {
            proof {
                lemma_unvisited_drops(reference@, comps, vis);
            }
            visiting.push(string_of(reference.as_str()));
            assert(ref_set(visiting@) =~= vis.insert(reference@)) by {
                assert forall|r: Seq<char>| ref_set(visiting@).contains(r) implies vis.insert(
                    reference@,
                ).contains(r) by {
                    let i = choose|i: int| 0 <= i < visiting@.len() && visiting@[i]@ == r;
                    if i < v0.len() {
                        assert(v0[i] == visiting@[i]);
                    }
                }
                assert forall|r: Seq<char>| vis.insert(reference@).contains(r) implies ref_set(
                    visiting@,
                ).contains(r) by {
                    if r == reference@ {
                        assert(visiting@[v0.len() as int]@ == r);
                    } else {
                        let i = choose|i: int| 0 <= i < v0.len() && v0[i]@ == r;
                        assert(visiting@[i] == v0[i]);
                    }
                }
            }
            collect(resolved, path, components, visiting, out);
            let _ = visiting.pop();
            assert(visiting@ =~= v0);
        } else {
            assert(entries_view(out@) =~= entries_view(start) + Seq::empty());
        }
        return;
    }
    // The Kubernetes spec wraps `$ref`s in an `allOf` alongside metadata
    // (`default`, `description`). Descend into each subschema at the same path.
    let all_of = field_of(schema, "allOf");
    if let Some(Value::Array(subs)) = all_of {
        let ghost sv = values_view(subs@);
        proof {
            assert(all_of->Some_0@->Array_0 =~= sv);
        }
        let mut i: usize = 0;
        assert(entries_view(out@) =~= entries_view(start) + all_of_entries(sv, path@, comps, vis, 0));
        while i < subs.len()
            invariant
                i <= subs@.len(),
                sv == values_view(subs@),
                field(schema@, "allOf"@) == Some(JsonValue::Array(sv)),
                visiting@ == v0,
                v0 == old(visiting)@,
                vis == ref_set(v0),
                comps == comps_view(components),
                entries_view(out@) == entries_view(start) + all_of_entries(sv, path@, comps, vis, i as nat),
            decreases subs@.len() - i,
        {
            proof {
                lemma_field_element_decreases(schema@, "allOf"@, i as int);
                assert(sv[i as int] == subs@[i as int]@);
            }
            collect(&subs[i], path, components, visiting, out);
            assert(all_of_entries(sv, path@, comps, vis, (i + 1) as nat) == all_of_entries(
                sv,
                path@,
                comps,
                vis,
                i as nat,
            ) + schema_entries(sv[i as int], path@, comps, vis));
            i = i + 1;
        }
        return;
    }
    if is_array(schema) {
        if let Some(mode) = array_match_mode(schema) {
            let ghost before = out@;
            out.push((string_of(path), mode));
            assert(entries_view(out@) =~= entries_view(before) + seq![(path@, mode_view(mode))]);
        } else {
            assert(entries_view(out@) =~= entries_view(start) + Seq::empty());
        }
        let ghost mid = out@;
        // Recurse into the element schema at the same path, so nested arrays
        // (e.g. containers -> ports) are discovered under the array's path.
        if let Some(items) = field_of(schema, "items") {
            proof {
                lemma_field_decreases(schema@, "items"@);
            }
            collect(items, path, components, visiting, out);
        } else {
            assert(entries_view(out@) =~= entries_view(mid) + Seq::empty());
        }
        assert(entries_view(out@) =~= entries_view(start) + schema_entries(schema@, path@, comps, vis));
        return;
    }
    // Object schema: recurse into each property, extending the dot-path.
    if let Some(Value::Object(props)) = field_of(schema, "properties") {
        let ghost pv = props@;
        let mut i: usize = 0;
        assert(entries_view(out@) =~= entries_view(start) + props_entries(pv, path@, comps, vis, 0));
        while i < props.len()
            invariant
                i <= pv.len(),
                pv == props@,
                field(schema@, "properties"@) == Some(JsonValue::Object(pv)),
                visiting@ == v0,
                v0 == old(visiting)@,
                vis == ref_set(v0),
                comps == comps_view(components),
                entries_view(out@) == entries_view(start) + props_entries(pv, path@, comps, vis, i as nat),
            decreases pv.len() - i,
        {
            proof {
                lemma_field_entry_decreases(schema@, "properties"@, i as int);
            }
            let child = child_path_of(path, props.key_at(i).as_str());
            collect(props.value_at(i), child.as_str(), components, visiting, out);
            i = i + 1;
        }
        return;
    }
    assert(entries_view(out@) =~= entries_view(start) + Seq::empty());
}

/// Derives a [`MatchConfig`] from a Kubernetes OpenAPI object schema.
///
/// Recursively walks `root`, recording a per-path match mode for every array
/// whose vendor extensions call for something other than index matching. Paths
/// are dot-separated (e.g. `spec.containers.ports`), matching how the diff
/// engine looks up config for nested arrays; where a path is recorded twice,
/// the last entry holds.
///
/// `components` is the `#/components/schemas` map used to resolve `$ref`s. Pass
/// `None` for a fully-inlined schema (such as a CRD's `openAPIV3Schema`), where
/// there are no references to resolve.
pub fn match_config_from_schema(root: &Value, components: Option<&Value>) -> (r: MatchConfig)
    ensures
        forall|p: Seq<char>|
            #[trigger] r.lookup(p) matches Some(c) ==> c.spec_ambiguous_strategy() is None,
        forall|p: Seq<char>|
            match last_mode(schema_entries(root@, Seq::empty(), comps_view(components), Set::empty()), p) {
                None => #[trigger] r.lookup(p) is None,
                Some(m) => r.lookup(p) matches Some(c) && mode_view(c.spec_mode()) == m,
            },
{
    let mut entries: Vec<(String, ArrayMatchMode)> = Vec::new();
    let mut visiting: Vec<String> = Vec::new();
    let path = String::new();
    assert(ref_set(visiting@) =~= Set::<Seq<char>>::empty());
    assert(entries_view(entries@) =~= Seq::<(Seq<char>, ModeView)>::empty());
    collect(root, path.as_str(), components, &mut visiting, &mut entries);
    let ghost es = entries_view(entries@);
    assert(es =~= schema_entries(root@, Seq::empty(), comps_view(components), Set::empty()));
    let mut config = MatchConfig::new();
    let mut k: usize = 0;
    let mut rest = entries;
    let total = rest.len();
    assert(entries_view(rest@) =~= es.skip(0));
    assert(es.take(0) =~= Seq::<(Seq<char>, ModeView)>::empty());
    while rest.len() > 0
        invariant
            k <= es.len(),
            es.len() == total,
            entries_view(rest@) == es.skip(k as int),
            forall|p: Seq<char>|
                #[trigger] config.lookup(p) matches Some(c) ==> c.spec_ambiguous_strategy() is None,
            forall|p: Seq<char>|
                match last_mode(es.take(k as int), p) {
                    None => #[trigger] config.lookup(p) is None,
                    Some(m) => config.lookup(p) matches Some(c) && mode_view(c.spec_mode()) == m,
                },
        decreases rest@.len(),
    {
        let ghost rv = entries_view(rest@);
        let (p, mode) = rest.remove(0);
        assert(rv[0] == (p@, mode_view(mode)));
        assert(entries_view(rest@) =~= rv.drop_first());
        let ghost old_config = config;
        config = config.with_config_at(p.as_str(), ArrayMatchConfig::new(mode));
        proof {
            assert(es.take(k + 1).drop_last() =~= es.take(k as int));
            assert(es.take(k + 1).last() == es[k as int]);
            assert(es[k as int] == rv[0]);
            assert(es.skip(k + 1) =~= rv.drop_first());
        }
        k = k + 1;
    }
    assert(es.take(k as int) =~= es);
    config
}

} // verus!
