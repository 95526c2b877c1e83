//! The JSON data model the diff engine works on.
//!
//! [`Value`] mirrors `serde_json::Value` with its default features: objects
//! keep their keys in sorted order (like `serde_json::Map`, a `BTreeMap`), and
//! a number is held as its JSON display form together with whether it is a
//! floating-point number.

use vstd::prelude::*;
use crate::text::{
    decimal, lemma_seq_less_irreflexive, lemma_seq_less_total, lemma_seq_less_transitive,
    push_char, push_decimal, seq_less, str_equal, str_less, string_of,
};

verus! {

/// The mathematical model of a [`Value`].
#[verifier::ext_equal]
pub enum JsonValue {
    Null,
    Bool(bool),
    /// A number: its display form, and whether it is a floating-point number.
    Number(Seq<char>, bool),
    Str(Seq<char>),
    Array(Seq<JsonValue>),
    /// Object entries in key order.
    Object(Seq<(Seq<char>, JsonValue)>),
}

/// Whether `repr` is the display form of a floating-point zero.
pub open spec fn is_float_zero(repr: Seq<char>) -> bool {
    repr == "0.0"@ || repr == "-0.0"@
}

/// Number equality: integers are equal when they have the same value, floats
/// when they compare equal (so `0.0` equals `-0.0`); an integer never equals a
/// float.
pub open spec fn number_equal(a: Seq<char>, a_float: bool, b: Seq<char>, b_float: bool) -> bool {
    a_float == b_float && (a == b || (a_float && is_float_zero(a) && is_float_zero(b)))
}

/// Structural equality of JSON values.
pub open spec fn json_equal(a: JsonValue, b: JsonValue) -> bool
    decreases a, 0nat,
{
    match (a, b) {
        (JsonValue::Null, JsonValue::Null) => true,
        (JsonValue::Bool(x), JsonValue::Bool(y)) => x == y,
        (JsonValue::Number(x, xf), JsonValue::Number(y, yf)) => number_equal(x, xf, y, yf),
        (JsonValue::Str(x), JsonValue::Str(y)) => x == y,
        (JsonValue::Array(xs), JsonValue::Array(ys)) => xs.len() == ys.len() && elements_equal(
            xs,
            ys,
            xs.len(),
        ),
        (JsonValue::Object(xs), JsonValue::Object(ys)) => xs.len() == ys.len() && entries_equal(
            xs,
            ys,
            xs.len(),
        ),
        _ => false,
    }
}

/// The first `n` elements of `xs` and `ys` are pairwise equal.
pub open spec fn elements_equal(xs: Seq<JsonValue>, ys: Seq<JsonValue>, n: nat) -> bool
    decreases xs, n,
{
    if n == 0 {
        true
    } else if n > xs.len() || n > ys.len() {
        false
    } else {
        elements_equal(xs, ys, (n - 1) as nat) && json_equal(xs[n - 1], ys[n - 1])
    }
}

/// The first `n` entries of `xs` and `ys` have the same keys and equal values.
pub open spec fn entries_equal(
    xs: Seq<(Seq<char>, JsonValue)>,
    ys: Seq<(Seq<char>, JsonValue)>,
    n: nat,
) -> bool
    decreases xs, n,
{
    if n == 0 {
        true
    } else if n > xs.len() || n > ys.len() {
        false
    } else {
        entries_equal(xs, ys, (n - 1) as nat) && xs[n - 1].0 == ys[n - 1].0 && json_equal(
            xs[n - 1].1,
            ys[n - 1].1,
        )
    }
}

/// The value stored under `key`: the first entry with that key.
pub open spec fn obj_get(entries: Seq<(Seq<char>, JsonValue)>, key: Seq<char>) -> Option<JsonValue>
    decreases entries.len(),
{
    if entries.len() == 0 {
        None
    } else if entries[0].0 == key {
        Some(entries[0].1)
    } else {
        obj_get(entries.drop_first(), key)
    }
}

/// Keys are in strictly increasing order (so no key occurs twice).
pub open spec fn keys_sorted(entries: Seq<(Seq<char>, JsonValue)>) -> bool {
    forall|i: int, j: int| 0 <= i < j < entries.len() ==> seq_less(entries[i].0, entries[j].0)
}

/// Every object inside `v` holds its keys in strictly increasing order, as
/// the objects of every [`Value`] do.
pub open spec fn json_wf(v: JsonValue) -> bool
    decreases v,
{
    match v {
        JsonValue::Object(es) => keys_sorted(es) && forall|i: int|
            0 <= i < es.len() ==> json_wf(#[trigger] es[i].1),
        JsonValue::Array(xs) => forall|i: int| 0 <= i < xs.len() ==> json_wf(#[trigger] xs[i]),
        _ => true,
    }
}

/// The string held under `key` in an object, if there is one.
pub open spec fn field_str(v: JsonValue, key: Seq<char>) -> Option<Seq<char>> {
    match v {
        JsonValue::Object(entries) => match obj_get(entries, key) {
            Some(JsonValue::Str(s)) => Some(s),
            _ => None,
        },
        _ => None,
    }
}

/// The scalar held under `key` in an object, if there is one.
pub open spec fn field_scalar(v: JsonValue, key: Seq<char>) -> Option<JsonValue> {
    match v {
        JsonValue::Object(entries) => match obj_get(entries, key) {
            Some(x) => if is_scalar(x) {
                Some(x)
            } else {
                None
            },
            None => None,
        },
        _ => None,
    }
}

/// The scalars held under each of `keys`, in order, when every one of them
/// is present.
pub open spec fn key_tuple(v: JsonValue, keys: Seq<Seq<char>>) -> Option<Seq<JsonValue>>
    decreases keys.len(),
{
    if keys.len() == 0 {
        Some(Seq::empty())
    } else {
        match key_tuple(v, keys.drop_last()) {
            None => None,
            Some(t) => match field_scalar(v, keys.last()) {
                Some(x) => Some(t.push(x)),
                None => None,
            },
        }
    }
}

/// The first of `keys` under which `v` holds no scalar (meaningful when
/// [`key_tuple`] is `None`).
pub open spec fn first_missing_key(v: JsonValue, keys: Seq<Seq<char>>) -> Seq<char>
    decreases keys.len(),
{
    if keys.len() == 0 {
        Seq::empty()
    } else if key_tuple(v, keys.drop_last()) is None {
        first_missing_key(v, keys.drop_last())
    } else {
        keys.last()
    }
}

/// Two scalar sequences are pairwise equal.
pub open spec fn tuples_equal(x: Seq<JsonValue>, y: Seq<JsonValue>) -> bool {
    x.len() == y.len() && forall|i: int| 0 <= i < x.len() ==> json_equal(#[trigger] x[i], y[i])
}

/// The key fields of `v` hold values equal to `kt`.
pub open spec fn tuple_matches(v: JsonValue, keys: Seq<Seq<char>>, kt: Seq<JsonValue>) -> bool {
    key_tuple(v, keys) matches Some(t) && tuples_equal(t, kt)
}

/// Once a prefix of the keys misses a field, every longer prefix misses one
/// too, the same first one.
pub proof fn lemma_key_tuple_stays_missing(v: JsonValue, keys: Seq<Seq<char>>, m: nat, n: nat)
    requires
        m <= n <= keys.len(),
        key_tuple(v, keys.take(m as int)) is None,
    ensures
        key_tuple(v, keys.take(n as int)) is None,
        first_missing_key(v, keys.take(n as int)) == first_missing_key(v, keys.take(m as int)),
    decreases n,
{
    if n > m {
        lemma_key_tuple_stays_missing(v, keys, m, (n - 1) as nat);
        assert(keys.take(n as int).drop_last() =~= keys.take(n - 1));
    }
}

/// A key tuple holds one scalar per key.
pub proof fn lemma_key_tuple_shape(v: JsonValue, keys: Seq<Seq<char>>)
    ensures
        key_tuple(v, keys) matches Some(t) ==> t.len() == keys.len() && forall|i: int|
            0 <= i < t.len() ==> is_scalar(#[trigger] t[i]),
    decreases keys.len(),
{
    if keys.len() > 0 {
        lemma_key_tuple_shape(v, keys.drop_last());
        if let Some(t) = key_tuple(v, keys) {
            let p = key_tuple(v, keys.drop_last())->Some_0;
            assert forall|i: int| 0 <= i < t.len() implies is_scalar(#[trigger] t[i]) by {
                if i < p.len() {
                    assert(t[i] == p[i]);
                }
            }
        }
    }
}

/// Whether two values have the same JSON type.
pub open spec fn same_type(a: JsonValue, b: JsonValue) -> bool {
    match (a, b) {
        (JsonValue::Null, JsonValue::Null) => true,
        (JsonValue::Bool(_), JsonValue::Bool(_)) => true,
        (JsonValue::Number(_, _), JsonValue::Number(_, _)) => true,
        (JsonValue::Str(_), JsonValue::Str(_)) => true,
        (JsonValue::Array(_), JsonValue::Array(_)) => true,
        (JsonValue::Object(_), JsonValue::Object(_)) => true,
        _ => false,
    }
}

/// The human-readable name of a value's JSON type.
pub open spec fn json_type_name(v: JsonValue) -> Seq<char> {
    match v {
        JsonValue::Null => "null"@,
        JsonValue::Bool(_) => "bool"@,
        JsonValue::Number(_, _) => "number"@,
        JsonValue::Str(_) => "string"@,
        JsonValue::Array(_) => "array"@,
        JsonValue::Object(_) => "object"@,
    }
}

/// Scalars are all values that are neither arrays nor objects.
pub open spec fn is_scalar(v: JsonValue) -> bool {
    !(v is Array) && !(v is Object)
}

/// `obj_get` finds the first entry with the key.
pub proof fn lemma_obj_get_first(entries: Seq<(Seq<char>, JsonValue)>, key: Seq<char>, i: int)
    requires
        0 <= i < entries.len(),
        entries[i].0 == key,
        forall|j: int| 0 <= j < i ==> entries[j].0 != key,
    ensures
        obj_get(entries, key) == Some(entries[i].1),
    decreases i,
{
    if i > 0 {
        lemma_obj_get_first(entries.drop_first(), key, i - 1);
    }
}

/// `obj_get` finds nothing when no entry has the key.
pub proof fn lemma_obj_get_none(entries: Seq<(Seq<char>, JsonValue)>, key: Seq<char>)
    requires
        forall|j: int| 0 <= j < entries.len() ==> entries[j].0 != key,
    ensures
        obj_get(entries, key) is None,
    decreases entries.len(),
{
    if entries.len() > 0 {
        lemma_obj_get_none(entries.drop_first(), key);
    }
}

/// What `obj_get` returns is stored in some entry under the key.
pub proof fn lemma_obj_get_some(entries: Seq<(Seq<char>, JsonValue)>, key: Seq<char>)
    requires
        obj_get(entries, key) is Some,
    ensures
        exists|i: int|
            0 <= i < entries.len() && entries[i].0 == key && obj_get(entries, key) == Some(
                #[trigger] entries[i].1,
            ),
    decreases entries.len(),
{
    if entries[0].0 != key {
        lemma_obj_get_some(entries.drop_first(), key);
        let i = choose|i: int|
            0 <= i < entries.drop_first().len() && entries.drop_first()[i].0 == key && obj_get(
                entries.drop_first(),
                key,
            ) == Some(#[trigger] entries.drop_first()[i].1);
        assert(entries[i + 1].1 == entries.drop_first()[i].1);
    } else {
        assert(entries[0].1 == entries[0].1);
    }
}


/// In sorted entries each key leads to its own entry.
pub proof fn lemma_sorted_get(entries: Seq<(Seq<char>, JsonValue)>, j: int)
    requires
        keys_sorted(entries),
        0 <= j < entries.len(),
    ensures
        obj_get(entries, entries[j].0) == Some(entries[j].1),
{
    assert forall|i: int| 0 <= i < j implies entries[i].0 != entries[j].0 by {
        lemma_seq_less_irreflexive(entries[j].0);
    }
    lemma_obj_get_first(entries, entries[j].0, j);
}

/// Inserting into sorted entries at the position that keeps them sorted.
proof fn lemma_insert_at(
    old_entries: Seq<(Seq<char>, JsonValue)>,
    new_entries: Seq<(Seq<char>, JsonValue)>,
    key: Seq<char>,
    value: JsonValue,
    pos: int,
    replaced: bool,
)
    requires
        keys_sorted(old_entries),
        0 <= pos <= old_entries.len(),
        forall|i: int| 0 <= i < pos ==> seq_less(#[trigger] old_entries[i].0, key),
        replaced ==> pos < old_entries.len() && old_entries[pos].0 == key,
        !replaced ==> (pos < old_entries.len() ==> seq_less(key, old_entries[pos].0)),
        replaced ==> new_entries == old_entries.update(pos, (key, value)),
        !replaced ==> new_entries == old_entries.insert(pos, (key, value)),
    ensures
        keys_sorted(new_entries),
        forall|q: Seq<char>|
            #[trigger] obj_get(new_entries, q) == (if q == key {
                Some(value)
            } else {
                obj_get(old_entries, q)
            }),
{
    assert forall|i: int, j: int| 0 <= i < j < new_entries.len() implies seq_less(
        new_entries[i].0,
        new_entries[j].0,
    ) by {
        if replaced {
            if i == pos {
                assert(old_entries[j].0 == new_entries[j].0);
            } else if j == pos {
                assert(old_entries[i].0 == new_entries[i].0);
            }
        } else {
            if j < pos {
                assert(new_entries[i] == old_entries[i]);
                assert(new_entries[j] == old_entries[j]);
            } else if i < pos && j == pos {
                assert(new_entries[i] == old_entries[i]);
            } else if i < pos {
                assert(new_entries[i] == old_entries[i]);
                assert(new_entries[j] == old_entries[j - 1]);
            } else if i == pos {
                assert(new_entries[j] == old_entries[j - 1]);
                if j - 1 > pos {
                    lemma_seq_less_transitive(key, old_entries[pos].0, old_entries[j - 1].0);
                }
            } else {
                assert(new_entries[i] == old_entries[i - 1]);
                assert(new_entries[j] == old_entries[j - 1]);
            }
        }
    }
    assert forall|q: Seq<char>|
        #[trigger] obj_get(new_entries, q) == (if q == key {
            Some(value)
        } else {
            obj_get(old_entries, q)
        }) by {
        assert(new_entries[pos] == (key, value));
        lemma_sorted_get(new_entries, pos);
        if q != key {
            if obj_get(old_entries, q) is Some {
                lemma_obj_get_some(old_entries, q);
                let j = choose|j: int|
                    0 <= j < old_entries.len() && old_entries[j].0 == q && obj_get(old_entries, q)
                        == Some(#[trigger] old_entries[j].1);
                lemma_sorted_get(old_entries, j);
                if replaced {
                    assert(j != pos);
                    assert(new_entries[j] == old_entries[j]);
                    lemma_sorted_get(new_entries, j);
                } else if j < pos {
                    assert(new_entries[j] == old_entries[j]);
                    lemma_sorted_get(new_entries, j);
                } else {
                    assert(new_entries[j + 1] == old_entries[j]);
                    lemma_sorted_get(new_entries, j + 1);
                }
            } else {
                assert forall|j: int| 0 <= j < new_entries.len() implies new_entries[j].0 != q by {
                    if j != pos {
                        let k = if replaced || j < pos { j } else { j - 1 };
                        assert(new_entries[j] == old_entries[k]);
                        if old_entries[k].0 == q {
                            lemma_sorted_get(old_entries, k);
                        }
                    }
                }
                lemma_obj_get_none(new_entries, q);
            }
        }
    }
}

/// Equality of a prefix of elements implies equality of every shorter prefix.
pub proof fn lemma_elements_equal_prefix(xs: Seq<JsonValue>, ys: Seq<JsonValue>, n: nat, m: nat)
    requires
        elements_equal(xs, ys, n),
        m <= n,
    ensures
        elements_equal(xs, ys, m),
    decreases n,
{
    if m < n {
        lemma_elements_equal_prefix(xs, ys, (n - 1) as nat, m);
    }
}

/// Equality of a prefix of entries implies equality of every shorter prefix.
pub proof fn lemma_entries_equal_prefix(
    xs: Seq<(Seq<char>, JsonValue)>,
    ys: Seq<(Seq<char>, JsonValue)>,
    n: nat,
    m: nat,
)
    requires
        entries_equal(xs, ys, n),
        m <= n,
    ensures
        entries_equal(xs, ys, m),
    decreases n,
{
    if m < n {
        lemma_entries_equal_prefix(xs, ys, (n - 1) as nat, m);
    }
}

/// A JSON number.
#[derive(Debug)]
pub struct Number {
    repr: String,
    float: bool,
}

impl View for Number {
    type V = (Seq<char>, bool);

    closed spec fn view(&self) -> (Seq<char>, bool) {
        (self.repr@, self.float)
    }
}

impl Number {
    /// A non-negative integer.
    pub fn from_u64(n: u64) -> (r: Number)
        ensures
            r@ == (decimal(n as nat), false),
    {
        let mut repr = String::new();
        push_decimal(&mut repr, n);
        assert(repr@ =~= decimal(n as nat));
        Number { repr, float: false }
    }

    /// An integer.
    pub fn from_i64(n: i64) -> (r: Number)
        ensures
            n >= 0 ==> r@ == (decimal(n as nat), false),
            n < 0 ==> r@ == (seq!['-'] + decimal((-n) as nat), false),
    {
        let mut repr = String::new();
        if n < 0 {
            push_char(&mut repr, '-');
            let m: u64 = if n == i64::MIN {
                9223372036854775808u64
            } else {
                (-n) as u64
            };
            push_decimal(&mut repr, m);
        } else {
            push_decimal(&mut repr, n as u64);
        }
        Number { repr, float: false }
    }

    /// A floating-point number, given by its JSON display form (such as
    /// `1.5` or `1e100`).
    pub fn from_float_display(display: String) -> (r: Number)
        ensures
            r@ == (display@, true),
    {
        Number { repr: display, float: true }
    }

    /// The number's display form.
    pub fn to_display(&self) -> (r: String)
        ensures
            r@ == self@.0,
    {
        self.repr.clone()
    }

    /// Whether the number is a floating-point number.
    pub fn is_float(&self) -> (r: bool)
        ensures
            r == self@.1,
    {
        self.float
    }

    /// Number equality (see [`number_equal`]).
    pub fn equals(&self, other: &Number) -> (r: bool)
        ensures
            r == number_equal(self@.0, self@.1, other@.0, other@.1),
    {
        if self.float != other.float {
            return false;
        }
        if str_equal(self.repr.as_str(), other.repr.as_str()) {
            return true;
        }
        self.float && is_zero_display(&self.repr) && is_zero_display(&other.repr)
    }
}

impl Clone for Number {
    fn clone(&self) -> (r: Number)
        ensures
            r@ == self@,
    {
        Number { repr: self.repr.clone(), float: self.float }
    }
}

fn is_zero_display(s: &String) -> (r: bool)
    ensures
        r == is_float_zero(s@),
{
    str_equal(s.as_str(), "0.0") || str_equal(s.as_str(), "-0.0")
}

/// A JSON object: entries kept in strictly increasing key order.
#[derive(Debug)]
pub struct JsonMap {
    entries: Vec<(String, Value)>,
}

/// A JSON value.
#[derive(Debug)]
pub enum Value {
    Null,
    Bool(bool),
    Number(Number),
    String(String),
    Array(Vec<Value>),
    Object(JsonMap),
}

impl View for JsonMap {
    type V = Seq<(Seq<char>, JsonValue)>;

    closed spec fn view(&self) -> Seq<(Seq<char>, JsonValue)>
        decreases self, 0nat,
    {
        Seq::new(
            self.entries@.len(),
            |i: int|
                if 0 <= i < self.entries@.len() {
                    (self.entries@[i].0@, self.entries@[i].1.view())
                } else {
                    (Seq::empty(), JsonValue::Null)
                },
        )
    }
}

impl View for Value {
    type V = JsonValue;

    open spec fn view(&self) -> JsonValue
        decreases self, 1nat,
    {
        match self {
            Value::Null => JsonValue::Null,
            Value::Bool(b) => JsonValue::Bool(*b),
            Value::Number(n) => JsonValue::Number(n@.0, n@.1),
            Value::String(s) => JsonValue::Str(s@),
            Value::Array(a) => JsonValue::Array(
                Seq::new(
                    a@.len(),
                    |i: int|
                        if 0 <= i < a@.len() {
                            a@[i].view()
                        } else {
                            JsonValue::Null
                        },
                ),
            ),
            Value::Object(m) => JsonValue::Object(m.view()),
        }
    }
}

impl JsonMap {
    #[verifier::type_invariant]
    closed spec fn sorted(self) -> bool {
        forall|i: int, j: int|
            0 <= i < j < self.entries@.len() ==> seq_less(
                self.entries@[i].0@,
                self.entries@[j].0@,
            )
    }

    /// An empty object.
    pub fn new() -> (r: JsonMap)
        ensures
            r@ == Seq::<(Seq<char>, JsonValue)>::empty(),
    {
        let r = JsonMap { entries: Vec::new() };
        assert(r@ =~= Seq::<(Seq<char>, JsonValue)>::empty());
        r
    }


    /// Stores `value` under `key`, keeping the keys in order. Returns the
    /// value previously stored under `key`, if any.
    pub fn insert(&mut self, key: String, value: Value) -> (r: Option<Value>)
        ensures
            keys_sorted(final(self)@),
            forall|q: Seq<char>|
                #[trigger] obj_get(final(self)@, q) == (if q == key@ {
                    Some(value@)
                } else {
                    obj_get(old(self)@, q)
                }),
            r is None <==> obj_get(old(self)@, key@) is None,
            r matches Some(v) ==> obj_get(old(self)@, key@) == Some(v@),
    {
        proof {
            use_type_invariant(&*self);
        }
        let ghost old_view = self@;
        let mut entries: Vec<(String, Value)> = Vec::new();
        std::mem::swap(&mut entries, &mut self.entries);
        assert(old_view =~= JsonMap { entries }@);
        let mut pos: usize = 0;
        while pos < entries.len() && str_less(entries[pos].0.as_str(), key.as_str())
            invariant
                pos <= entries@.len(),
                old_view.len() == entries@.len(),
                forall|i: int|
                    0 <= i < entries@.len() ==> (#[trigger] old_view[i]) == (
                        entries@[i].0@,
                        entries@[i].1@,
                    ),
                forall|i: int| 0 <= i < pos ==> seq_less(#[trigger] old_view[i].0, key@),
            decreases entries@.len() - pos,
        {
            pos = pos + 1;
        }
        let ghost key_view = key@;
        let ghost value_view = value@;
        if pos < entries.len() && str_equal(entries[pos].0.as_str(), key.as_str()) {
            let old_entry = entries.remove(pos);
            entries.insert(pos, (key, value));
            let ghost new_map = JsonMap { entries };
            assert(new_map@ =~= old_view.update(pos as int, (key_view, value_view)));
            proof {
                lemma_sorted_get(old_view, pos as int);
                lemma_insert_at(old_view, new_map@, key_view, value_view, pos as int, true);
                assert forall|i: int, j: int|
                    0 <= i < j < entries@.len() implies seq_less(
                    entries@[i].0@,
                    entries@[j].0@,
                ) by {
                    assert(new_map@[i].0 == entries@[i].0@);
                    assert(new_map@[j].0 == entries@[j].0@);
                }
            }
            self.entries = entries;
            Some(old_entry.1)
        } else {
            proof {
                if pos < entries@.len() {
                    lemma_seq_less_total(key_view, old_view[pos as int].0);
                }
            }
            entries.insert(pos, (key, value));
            let ghost new_map = JsonMap { entries };
            assert(new_map@ =~= old_view.insert(pos as int, (key_view, value_view)));
            proof {
                lemma_insert_at(old_view, new_map@, key_view, value_view, pos as int, false);
                assert forall|j: int| 0 <= j < old_view.len() implies old_view[j].0 != key_view by {
                    if j < pos {
                        lemma_seq_less_irreflexive(key_view);
                    } else if j > pos {
                        lemma_seq_less_transitive(key_view, old_view[pos as int].0, old_view[j].0);
                        lemma_seq_less_irreflexive(key_view);
                    }
                }
                lemma_obj_get_none(old_view, key_view);
                assert forall|i: int, j: int|
                    0 <= i < j < entries@.len() implies seq_less(
                    entries@[i].0@,
                    entries@[j].0@,
                ) by {
                    assert(new_map@[i].0 == entries@[i].0@);
                    assert(new_map@[j].0 == entries@[j].0@);
                }
            }
            self.entries = entries;
            None
        }
    }

    /// The number of entries.
    pub fn len(&self) -> (r: usize)
        ensures
            r == self@.len(),
    {
        self.entries.len()
    }

    /// The key of the `i`-th entry, in key order.
    pub fn key_at(&self, i: usize) -> (r: &String)
        requires
            i < self@.len(),
        ensures
            r@ == self@[i as int].0,
    {
        &self.entries[i].0
    }

    /// The value of the `i`-th entry, in key order.
    pub fn value_at(&self, i: usize) -> (r: &Value)
        requires
            i < self@.len(),
        ensures
            r@ == self@[i as int].1,
    {
        &self.entries[i].1
    }

    /// The value stored under `key`, if any.
    pub fn get(&self, key: &str) -> (r: Option<&Value>)
        ensures
            r is None <==> obj_get(self@, key@) is None,
            r matches Some(v) ==> obj_get(self@, key@) == Some(v@),
    {
        let mut i: usize = 0;
        while i < self.entries.len()
            invariant
                i <= self@.len(),
                self@.len() == self.entries@.len(),
                forall|j: int| 0 <= j < i ==> self@[j].0 != key@,
            decreases self@.len() - i,
        {
            if str_equal(self.entries[i].0.as_str(), key) {
                proof {
                    lemma_obj_get_first(self@, key@, i as int);
                }
                return Some(&self.entries[i].1);
            }
            i = i + 1;
        }
        proof {
            lemma_obj_get_none(self@, key@);
        }
        None
    }
}

impl Clone for JsonMap {
    fn clone(&self) -> (r: JsonMap)
        ensures
            r@ == self@,
        decreases self@, 0nat,
    {
        proof {
            use_type_invariant(self);
        }
        let mut out: Vec<(String, Value)> = Vec::new();
        let mut i: usize = 0;
        while i < self.entries.len()
            invariant
                i <= self.entries@.len(),
                out@.len() == i,
                self@.len() == self.entries@.len(),
                forall|j: int|
                    0 <= j < i ==> (#[trigger] out@[j]).0@ == self.entries@[j].0@ && out@[j].1@
                        == self.entries@[j].1@,
                forall|a: int, b: int|
                    0 <= a < b < self.entries@.len() ==> seq_less(
                        self.entries@[a].0@,
                        self.entries@[b].0@,
                    ),
            decreases self.entries@.len() - i,
        {
            proof {
                assert(self@[i as int].1 == self.entries@[i as int].1@);
                assert(decreases_to!(self@ => self@[i as int]));
            }
            let k = self.entries[i].0.clone();
            let v = self.entries[i].1.clone();
            out.push((k, v));
            i = i + 1;
        }
        let r = JsonMap { entries: out };
        assert(r@ =~= self@);
        r
    }
}

impl Clone for Value {
    fn clone(&self) -> (r: Value)
        ensures
            r@ == self@,
        decreases self@, 1nat,
    {
        match self {
            Value::Null => Value::Null,
            Value::Bool(b) => Value::Bool(*b),
            Value::Number(n) => Value::Number(n.clone()),
            Value::String(s) => Value::String(s.clone()),
            Value::Array(a) => {
                assert forall|j: int| 0 <= j < a@.len() implies #[trigger] self@->Array_0[j]
                    == a@[j]@ by {}
                let mut out: Vec<Value> = Vec::new();
                let mut i: usize = 0;
                while i < a.len()
                    invariant
                        i <= a@.len(),
                        out@.len() == i,
                        self@ is Array,
                        self@->Array_0.len() == a@.len(),
                        forall|j: int| 0 <= j < a@.len() ==> #[trigger] self@->Array_0[j] == a@[j]@,
                        forall|j: int| 0 <= j < i ==> (#[trigger] out@[j])@ == a@[j]@,
                    decreases a@.len() - i,
                {
                    proof {
                        let s = self@->Array_0;
                        assert(s[i as int] == a@[i as int]@);
                        assert(decreases_to!(self@ => s));
                        assert(decreases_to!(s => s[i as int]));
                    }
                    out.push(a[i].clone());
                    i = i + 1;
                }
                let r = Value::Array(out);
                assert(r@->Array_0 =~= self@->Array_0);
                r
            },
            Value::Object(m) => {
                proof {
                    assert(self@->Object_0 == m@);
                    assert(decreases_to!(self@ => self@->Object_0));
                }
                Value::Object(m.clone())
            },
        }
    }
}

impl Value {
    /// A string value.
    pub fn from_text(s: &str) -> (r: Value)
        ensures
            r@ == JsonValue::Str(s@),
    {
        Value::String(string_of(s))
    }

    /// A non-negative integer value.
    pub fn from_u64(n: u64) -> (r: Value)
        ensures
            r@ == JsonValue::Number(decimal(n as nat), false),
    {
        Value::Number(Number::from_u64(n))
    }

    /// An integer value.
    pub fn from_i64(n: i64) -> (r: Value)
        ensures
            n >= 0 ==> r@ == JsonValue::Number(decimal(n as nat), false),
            n < 0 ==> r@ == JsonValue::Number(seq!['-'] + decimal((-n) as nat), false),
    {
        Value::Number(Number::from_i64(n))
    }

    /// An object holding the given entries; a later entry replaces an earlier
    /// one with the same key.
    pub fn from_entries(entries: Vec<(String, Value)>) -> (r: Value)
        ensures
            r@ is Object,
            keys_sorted(r@->Object_0),
            forall|q: Seq<char>|
                #[trigger] obj_get(r@->Object_0, q) == last_with_key(
                    entries@.map_values(|e: (String, Value)| (e.0@, e.1@)),
                    q,
                ),
    {
        let ghost pairs = entries@.map_values(|e: (String, Value)| (e.0@, e.1@));
        let mut map = JsonMap::new();
        let n = entries.len();
        proof {
            assert forall|q: Seq<char>| #[trigger] obj_get(map@, q) == last_with_key(
                pairs.subrange(0, 0),
                q,
            ) by {
                lemma_obj_get_none(map@, q);
            }
        }
        let mut i: usize = 0;
        while i < n
            invariant
                i <= n,
                n == entries@.len(),
                pairs == entries@.map_values(|e: (String, Value)| (e.0@, e.1@)),
                keys_sorted(map@),
                forall|q: Seq<char>|
                    #[trigger] obj_get(map@, q) == last_with_key(pairs.subrange(0, i as int), q),
            decreases n - i,
        {
            let k = entries[i].0.clone();
            let v = entries[i].1.clone();
            proof {
                assert(pairs[i as int] == (k@, v@));
                assert(pairs.subrange(0, i + 1).drop_last() =~= pairs.subrange(0, i as int));
                assert(pairs.subrange(0, i + 1).last() == (k@, v@));
            }
            let _ = map.insert(k, v);
            i = i + 1;
        }
        assert(pairs.subrange(0, n as int) =~= pairs);
        Value::Object(map)
    }

    /// The name of the value's JSON type.
    pub fn kind_name(&self) -> (r: &'static str)
        ensures
            r@ == json_type_name(self@),
    {
        match self {
            Value::Null => "null",
            Value::Bool(_) => "bool",
            Value::Number(_) => "number",
            Value::String(_) => "string",
            Value::Array(_) => "array",
            Value::Object(_) => "object",
        }
    }

    /// Whether both values have the same JSON type.
    pub fn same_type_as(&self, other: &Value) -> (r: bool)
        ensures
            r == same_type(self@, other@),
    {
        match (self, other) {
            (Value::Null, Value::Null) => true,
            (Value::Bool(_), Value::Bool(_)) => true,
            (Value::Number(_), Value::Number(_)) => true,
            (Value::String(_), Value::String(_)) => true,
            (Value::Array(_), Value::Array(_)) => true,
            (Value::Object(_), Value::Object(_)) => true,
            _ => false,
        }
    }

    /// Whether the value is a scalar (neither an array nor an object).
    pub fn is_scalar(&self) -> (r: bool)
        ensures
            r == is_scalar(self@),
    {
        match self {
            Value::Array(_) | Value::Object(_) => false,
            _ => true,
        }
    }

    /// The string stored under `key` when this is an object and the entry
    /// holds a string.
    pub fn get_str(&self, key: &str) -> (r: Option<&String>)
        ensures
            r is None <==> field_str(self@, key@) is None,
            r matches Some(s) ==> field_str(self@, key@) == Some(s@),
    {
        match self {
            Value::Object(m) => match m.get(key) {
                Some(Value::String(s)) => Some(s),
                _ => None,
            },
            _ => None,
        }
    }

    /// The scalar stored under `key` when this is an object and the entry
    /// holds a scalar.
    pub fn get_scalar(&self, key: &str) -> (r: Option<&Value>)
        ensures
            r is None <==> field_scalar(self@, key@) is None,
            r matches Some(x) ==> field_scalar(self@, key@) == Some(x@),
    {
        match self {
            Value::Object(m) => match m.get(key) {
                Some(x) => if x.is_scalar() {
                    Some(x)
                } else {
                    None
                },
                None => None,
            },
            _ => None,
        }
    }

    /// Structural equality (see [`json_equal`]).
    pub fn equals(&self, other: &Value) -> (r: bool)
        ensures
            r == json_equal(self@, other@),
        decreases self@,
    {
        match (self, other) {
            (Value::Null, Value::Null) => true,
            (Value::Bool(a), Value::Bool(b)) => *a == *b,
            (Value::Number(a), Value::Number(b)) => a.equals(b),
            (Value::String(a), Value::String(b)) => str_equal(a.as_str(), b.as_str()),
            (Value::Array(xs), Value::Array(ys)) => {
                if xs.len() != ys.len() {
                    return false;
                }
                let ghost sx = self@->Array_0;
                let ghost sy = other@->Array_0;
                let mut i: usize = 0;
                while i < xs.len()
                    invariant
                        i <= xs@.len(),
                        xs@.len() == ys@.len(),
                        sx.len() == xs@.len(),
                        sy.len() == ys@.len(),
                        sx == self@->Array_0,
                        sy == other@->Array_0,
                        self@ is Array,
                        other@ is Array,
                        forall|j: int| 0 <= j < xs@.len() ==> #[trigger] sx[j] == xs@[j]@,
                        forall|j: int| 0 <= j < ys@.len() ==> #[trigger] sy[j] == ys@[j]@,
                        elements_equal(sx, sy, i as nat),
                    decreases xs@.len() - i,
                {
                    proof {
                        assert(decreases_to!(self@ => sx));
                        assert(decreases_to!(sx => sx[i as int]));
                    }
                    if !xs[i].equals(&ys[i]) {
                        proof {
                            if elements_equal(sx, sy, sx.len()) {
                                lemma_elements_equal_prefix(sx, sy, sx.len(), (i + 1) as nat);
                            }
                        }
                        return false;
                    }
                    i = i + 1;
                }
                true
            },
            (Value::Object(xm), Value::Object(ym)) => {
                if xm.len() != ym.len() {
                    return false;
                }
                let mut i: usize = 0;
                while i < xm.len()
                    invariant
                        i <= xm@.len(),
                        xm@.len() == ym@.len(),
                        self@ == JsonValue::Object(xm@),
                        other@ == JsonValue::Object(ym@),
                        entries_equal(xm@, ym@, i as nat),
                    decreases xm@.len() - i,
                {
                    if !str_equal(xm.key_at(i).as_str(), ym.key_at(i).as_str()) {
                        proof {
                            if entries_equal(xm@, ym@, xm@.len()) {
                                lemma_entries_equal_prefix(xm@, ym@, xm@.len(), (i + 1) as nat);
                            }
                        }
                        return false;
                    }
                    proof {
                        assert(decreases_to!(self@ => self@->Object_0));
                        assert(decreases_to!(xm@ => xm@[i as int]));
                    }
                    if !xm.value_at(i).equals(ym.value_at(i)) {
                        proof {
                            if entries_equal(xm@, ym@, xm@.len()) {
                                lemma_entries_equal_prefix(xm@, ym@, xm@.len(), (i + 1) as nat);
                            }
                        }
                        return false;
                    }
                    i = i + 1;
                }
                true
            },
            _ => false,
        }
    }
}

/// The value of the last pair with key `q`.
pub open spec fn last_with_key(pairs: Seq<(Seq<char>, JsonValue)>, q: Seq<char>) -> Option<JsonValue>
    decreases pairs.len(),
{
    if pairs.len() == 0 {
        None
    } else if pairs.last().0 == q {
        Some(pairs.last().1)
    } else {
        last_with_key(pairs.drop_last(), q)
    }
}

} // verus!
