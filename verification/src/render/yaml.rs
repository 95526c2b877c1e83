//! The YAML-style diff renderer.

use vstd::prelude::*;
use vstd::utf8::encode_utf8;
use crate::model::{ChildKind, DiffKind, DiffNode, DiffTree, KindView, NodeView, PathSegment, SegmentView};
use crate::render::DiffRenderer;
use crate::render::indicator::{ACTUAL, CONTEXT, EXPECTED};
use crate::render::lines::{line, push_line, push_truncated, spaces, truncated_block};
use crate::render::scalar::{format_line_text, format_scalar, line_text, scalar_text};
use crate::text::{chars_of, decimal, push_char, push_decimal, push_str, string_of};
use crate::value::{JsonValue, Value, is_scalar};

verus! {

// ---------------------------------------------------------------------------
// Rendering of values
// ---------------------------------------------------------------------------

/// The first line of a `key: value` pair: the value itself when it is a
/// scalar, otherwise just the key and a colon.
pub open spec fn header_text(key: Seq<char>, v: JsonValue) -> Seq<char> {
    if is_scalar(v) {
        key + ": "@ + scalar_text(v)
    } else {
        key + ":"@
    }
}

/// The YAML lines of a value, each opened by `p` and indented by `ind`.
pub open spec fn value_lines(p: char, ind: int, iw: int, v: JsonValue) -> Seq<char>
    decreases v, 2nat,
{
    match v {
        JsonValue::Object(es) => entries_lines(p, ind, iw, es, 0, es.len()),
        JsonValue::Array(xs) => elements_lines(p, ind, iw, xs, xs.len()),
        _ => line(p, ind, scalar_text(v)),
    }
}

/// The lines of a `key: value` pair; a compound value follows on lines
/// indented one level deeper.
pub open spec fn key_value_lines(p: char, ind: int, iw: int, key: Seq<char>, v: JsonValue) -> Seq<
    char,
>
    decreases v, 3nat,
{
    if is_scalar(v) {
        line(p, ind, header_text(key, v))
    } else {
        line(p, ind, header_text(key, v)) + value_lines(p, ind + iw, iw, v)
    }
}

/// The lines of the object entries at positions `lo..n`.
pub open spec fn entries_lines(
    p: char,
    ind: int,
    iw: int,
    es: Seq<(Seq<char>, JsonValue)>,
    lo: nat,
    n: nat,
) -> Seq<char>
    decreases es, n,
{
    if n <= lo || n > es.len() {
        Seq::empty()
    } else {
        entries_lines(p, ind, iw, es, lo, (n - 1) as nat) + key_value_lines(
            p,
            ind,
            iw,
            line_text(es[n - 1].0),
            es[n - 1].1,
        )
    }
}

/// The lines of the first `n` array elements.
pub open spec fn elements_lines(p: char, ind: int, iw: int, xs: Seq<JsonValue>, n: nat) -> Seq<char>
    decreases xs, n,
{
    if n == 0 || n > xs.len() {
        Seq::empty()
    } else {
        elements_lines(p, ind, iw, xs, (n - 1) as nat) + element_lines(p, ind, iw, xs[n - 1])
    }
}

/// The lines of one array element: `- value` for a scalar; for an object, its
/// first entry on the `- ` line and the others indented past it; for a nested
/// array, a lone `-` followed by the array one level deeper.
pub open spec fn element_lines(p: char, ind: int, iw: int, x: JsonValue) -> Seq<char>
    decreases x, 3nat,
{
    if is_scalar(x) {
        line(p, ind, "- "@ + scalar_text(x))
    } else {
        match x {
            JsonValue::Object(es) => if es.len() == 0 {
                Seq::empty()
            } else {
                key_value_lines(p, ind, iw, "- "@ + line_text(es[0].0), es[0].1) + entries_lines(
                    p,
                    ind + iw,
                    iw,
                    es,
                    1,
                    es.len(),
                )
            },
            _ => line(p, ind, "-"@) + value_lines(p, ind + iw, iw, x),
        }
    }
}

/// Every indentation computed while rendering `v` at `ind` fits in a `u16`.
pub open spec fn value_fits(ind: int, iw: int, v: JsonValue) -> bool
    decreases v, 2nat,
{
    match v {
        JsonValue::Object(es) => forall|i: int|
            0 <= i < es.len() ==> key_value_fits(ind, iw, (#[trigger] es[i]).1),
        JsonValue::Array(xs) => forall|i: int|
            0 <= i < xs.len() ==> element_fits(ind, iw, #[trigger] xs[i]),
        _ => true,
    }
}

/// Every indentation computed while rendering a `key: value` pair fits.
pub open spec fn key_value_fits(ind: int, iw: int, v: JsonValue) -> bool
    decreases v, 3nat,
{
    is_scalar(v) || (ind + iw <= 65535 && value_fits(ind + iw, iw, v))
}

/// Every indentation computed while rendering an array element fits.
pub open spec fn element_fits(ind: int, iw: int, x: JsonValue) -> bool
    decreases x, 3nat,
{
    if is_scalar(x) {
        true
    } else {
        match x {
            JsonValue::Object(es) => (es.len() > 0 ==> key_value_fits(ind, iw, es[0].1)) && (
            es.len() > 1 ==> ind + iw <= 65535 && forall|i: int|
                1 <= i < es.len() ==> key_value_fits(ind + iw, iw, (#[trigger] es[i]).1)),
            _ => ind + iw <= 65535 && value_fits(ind + iw, iw, x),
        }
    }
}

/// The header line of a `key: value` pair (see [`header_text`]).
fn header_for(key: &str, value: &Value) -> (r: String)
    ensures
        r@ == header_text(key@, value@),
{
    let mut s = string_of(key);
    if value.is_scalar() {
        push_str(&mut s, ": ");
        let v = format_scalar(value);
        push_str(&mut s, v.as_str());
    } else {
        push_str(&mut s, ":");
    }
    s
}

/// Renders a single key-value pair as YAML.
///
/// Scalars render as `key: value` on one line. Objects and arrays render
/// `key:` followed by the recursively rendered value on subsequent lines.
/// Returns `false`, leaving the output unspecified, where an indentation
/// would not fit in a `u16`.
fn render_key_value(
    output: &mut String,
    prefix: char,
    indent: u16,
    indent_width: u16,
    key: &str,
    value: &Value,
) -> (ok: bool)
    ensures
        ok == key_value_fits(indent as int, indent_width as int, value@),
        ok ==> final(output)@ == old(output)@ + key_value_lines(
            prefix,
            indent as int,
            indent_width as int,
            key@,
            value@,
        ),
    decreases value@, 3nat,
{
    let header = header_for(key, value);
    push_line(output, prefix, indent, header.as_str());
    if value.is_scalar() {
        true
    } else {
        match indent.checked_add(indent_width) {
            None => false,
            Some(child_indent) => render_value(output, prefix, child_indent, indent_width, value),
        }
    }
}

/// Recursively renders a JSON value as YAML lines with the given prefix.
fn render_value(output: &mut String, prefix: char, indent: u16, indent_width: u16, value: &Value) -> (ok:
    bool)
    ensures
        ok == value_fits(indent as int, indent_width as int, value@),
        ok ==> final(output)@ == old(output)@ + value_lines(
            prefix,
            indent as int,
            indent_width as int,
            value@,
        ),
    decreases value@, 2nat,
{
    let ghost ind = indent as int;
    let ghost iw = indent_width as int;
    let ghost start = output@;
    match value {
        Value::Object(map) => {
            let ghost es = map@;
            let mut i: usize = 0;
            while i < map.len()
                invariant
                    i <= es.len(),
                    es == map@,
                    value@ == JsonValue::Object(es),
                    ind == indent as int,
                    iw == indent_width as int,
                    forall|j: int| 0 <= j < i ==> key_value_fits(ind, iw, (#[trigger] es[j]).1),
                    output@ == start + entries_lines(prefix, ind, iw, es, 0, i as nat),
                decreases es.len() - i,
            {
                proof {
                    assert(decreases_to!(value@ => value@->Object_0));
                    assert(decreases_to!(es => es[i as int]));
                }
                let key = format_line_text(map.key_at(i).as_str());
                if !render_key_value(output, prefix, indent, indent_width, key.as_str(), map.value_at(i)) {
                    assert(!key_value_fits(ind, iw, es[i as int].1));
                    return false;
                }
                i = i + 1;
            }
            true
        },
        Value::Array(arr) => {
            let ghost xs = value@->Array_0;
            assert forall|j: int| 0 <= j < arr@.len() implies #[trigger] xs[j] == arr@[j]@ by {}
            let mut i: usize = 0;
            while i < arr.len()
                invariant
                    i <= arr@.len(),
                    value@ == JsonValue::Array(xs),
                    xs.len() == arr@.len(),
                    forall|j: int| 0 <= j < arr@.len() ==> #[trigger] xs[j] == arr@[j]@,
                    ind == indent as int,
                    iw == indent_width as int,
                    forall|j: int| 0 <= j < i ==> element_fits(ind, iw, #[trigger] xs[j]),
                    output@ == start + elements_lines(prefix, ind, iw, xs, i as nat),
                decreases arr@.len() - i,
            {
                let elem = &arr[i];
                assert(xs[i as int] == elem@);
                let ghost before = output@;
                if elem.is_scalar() {
                    let mut content = string_of("- ");
                    let s = format_scalar(elem);
                    push_str(&mut content, s.as_str());
                    push_line(output, prefix, indent, content.as_str());
                    assert(content@ == "- "@ + scalar_text(xs[i as int]));
                    assert(output@ == before + element_lines(prefix, ind, iw, xs[i as int]));
                } else {
                    proof {
                        assert(decreases_to!(value@ => value@->Array_0));
                        assert(decreases_to!(xs => xs[i as int]));
                    }
                    if !render_array_element(output, prefix, indent, indent_width, elem) {
                        assert(!element_fits(ind, iw, xs[i as int]));
                        return false;
                    }
                }
                assert(output@ =~= start + elements_lines(prefix, ind, iw, xs, (i + 1) as nat));
                i = i + 1;
            }
            true
        },
        _ => {
            let s = format_scalar(value);
            push_line(output, prefix, indent, s.as_str());
            true
        },
    }
}

/// Renders a compound array element, placing the first object key on the
/// same line as the `- ` marker for natural YAML formatting.
fn render_array_element(
    output: &mut String,
    prefix: char,
    indent: u16,
    indent_width: u16,
    value: &Value,
) -> (ok: bool)
    requires
        !is_scalar(value@),
    ensures
        ok == element_fits(indent as int, indent_width as int, value@),
        ok ==> final(output)@ == old(output)@ + element_lines(
            prefix,
            indent as int,
            indent_width as int,
            value@,
        ),
    decreases value@, 3nat,
{
    let ghost ind = indent as int;
    let ghost iw = indent_width as int;
    let ghost start = output@;
    match value {
        Value::Object(map) => {
            let ghost es = map@;
            let mut i: usize = 0;
            while i < map.len()
                invariant
                    i <= es.len(),
                    es == map@,
                    value@ == JsonValue::Object(es),
                    ind == indent as int,
                    iw == indent_width as int,
                    i > 0 ==> key_value_fits(ind, iw, es[0].1),
                    i > 1 ==> ind + iw <= 65535,
                    forall|j: int| 1 <= j < i ==> key_value_fits(ind + iw, iw, (#[trigger] es[j]).1),
                    i == 0 ==> output@ == start,
                    i > 0 ==> output@ == start + key_value_lines(
                        prefix,
                        ind,
                        iw,
                        "- "@ + line_text(es[0].0),
                        es[0].1,
                    ) + entries_lines(prefix, ind + iw, iw, es, 1, i as nat),
                decreases es.len() - i,
            {
                proof {
                    assert(decreases_to!(value@ => value@->Object_0));
                    assert(decreases_to!(es => es[i as int]));
                }
                if i == 0 {
                    let mut label = string_of("- ");
                    let key = format_line_text(map.key_at(i).as_str());
                    push_str(&mut label, key.as_str());
                    if !render_key_value(
                        output,
                        prefix,
                        indent,
                        indent_width,
                        label.as_str(),
                        map.value_at(i),
                    ) {
                        return false;
                    }
                    assert(entries_lines(prefix, ind + iw, iw, es, 1, 1) =~= Seq::<char>::empty());
                    assert(output@ =~= start + key_value_lines(
                        prefix,
                        ind,
                        iw,
                        "- "@ + line_text(es[0].0),
                        es[0].1,
                    ) + entries_lines(prefix, ind + iw, iw, es, 1, 1));
                } else {
                    match indent.checked_add(indent_width) {
                        None => {
                            return false;
                        },
                        Some(child_indent) => {
                            let key = format_line_text(map.key_at(i).as_str());
                            if !render_key_value(
                                output,
                                prefix,
                                child_indent,
                                indent_width,
                                key.as_str(),
                                map.value_at(i),
                            ) {
                                assert(!key_value_fits(ind + iw, iw, es[i as int].1));
                                return false;
                            }
                        },
                    }
                    assert(output@ =~= start + key_value_lines(
                        prefix,
                        ind,
                        iw,
                        "- "@ + line_text(es[0].0),
                        es[0].1,
                    ) + entries_lines(prefix, ind + iw, iw, es, 1, (i + 1) as nat));
                }
                i = i + 1;
            }
            true
        },
        _ => {
            push_line(output, prefix, indent, "-");
            match indent.checked_add(indent_width) {
                None => false,
                Some(child_indent) => render_value(output, prefix, child_indent, indent_width, value),
            }
        },
    }
}

// ---------------------------------------------------------------------------
// Rendering of diff nodes
// ---------------------------------------------------------------------------

/// The label of a path segment: the key; `- key: value` for an element
/// matched by key; `- # index i` for an element matched by position; `-`
/// for an unmatched element.
pub open spec fn segment_label(seg: SegmentView) -> Seq<char> {
    match seg {
        SegmentView::Key(k) => line_text(k),
        SegmentView::NamedElement(k, v) => "- "@ + line_text(k) + ": "@ + line_text(v),
        SegmentView::KeyedElement(ps) => if ps.len() == 0 {
            "-"@
        } else {
            "- "@ + line_text(ps[0].0) + ": "@ + line_text(ps[0].1)
        },
        SegmentView::Index(i) => "- # index "@ + decimal(i as nat),
        SegmentView::Unmatched => "-"@,
    }
}

/// The line of one key and its value.
pub open spec fn pair_text(pair: (Seq<char>, Seq<char>)) -> Seq<char> {
    line_text(pair.0) + ": "@ + line_text(pair.1)
}

/// The context lines of the keys after the first of an element matched by
/// several keys, the first `n` of them.
pub open spec fn pair_lines(ps: Seq<(Seq<char>, Seq<char>)>, ind: int, n: nat) -> Seq<char>
    decreases n,
{
    if n <= 1 || n > ps.len() {
        Seq::empty()
    } else {
        pair_lines(ps, ind, (n - 1) as nat) + line(CONTEXT, ind, pair_text(ps[n - 1]))
    }
}

/// The lines that follow a container's context line: for an element matched
/// by several keys, each further key with its value, at `ind`.
pub open spec fn extra_key_lines(seg: SegmentView, ind: int) -> Seq<char> {
    match seg {
        SegmentView::KeyedElement(ps) => pair_lines(ps, ind, ps.len()),
        _ => Seq::empty(),
    }
}

/// The context line of a container: only a key is followed by a colon.
pub open spec fn container_header(seg: SegmentView) -> Seq<char> {
    if seg is Key {
        segment_label(seg) + ":"@
    } else {
        segment_label(seg)
    }
}

/// The unit word of an omission marker: fields of an object, items of an
/// array, singular for a count of one.
pub open spec fn unit_word(child_kind: ChildKind, count: int) -> Seq<char> {
    match child_kind {
        ChildKind::Fields => if count == 1 {
            "field"@
        } else {
            "fields"@
        },
        ChildKind::Items => if count == 1 {
            "item"@
        } else {
            "items"@
        },
    }
}

/// The text of an omission marker, such as `# 2 fields omitted`.
pub open spec fn omitted_text(child_kind: ChildKind, count: int) -> Seq<char> {
    "# "@ + decimal(count as nat) + " "@ + unit_word(child_kind, count) + " omitted"@
}

/// A compound value rendered on its own lines, limited to `max` lines.
pub open spec fn subtree_block(p: char, ind: int, iw: int, v: JsonValue, max: Option<u32>) -> Seq<
    char,
> {
    truncated_block(p, ind, value_lines(p, ind, iw, v), max)
}

/// The byte length of the UTF-8 encoding of `s`, as std's `str::len`
/// reports it.
pub open spec fn byte_len(s: Seq<char>) -> int {
    (encode_utf8(s).len() as usize) as int
}

/// `h` padded with spaces to `w` characters (std's `{:<w}` formatting).
pub open spec fn padded(h: Seq<char>, w: int) -> Seq<char> {
    if h.len() < w {
        h + spaces((w - h.len()) as nat)
    } else {
        h
    }
}

/// The lines of a leaf: a `Changed` value as a `-` line and a `+` line; a
/// `Missing` value as `-` lines; a `TypeMismatch` as a `-` and a `+` side whose
/// header lines end in type comments aligned by padding the shorter header; an
/// `Ambiguous` warning as a context line holding a comment.
pub open spec fn leaf_lines(
    iw: int,
    max: Option<u32>,
    ind: int,
    seg: SegmentView,
    kind: KindView,
) -> Seq<char> {
    let label = segment_label(seg);
    match kind {
        KindView::Changed(a, e) => line(EXPECTED, ind, label + ": "@ + scalar_text(e)) + line(
            ACTUAL,
            ind,
            label + ": "@ + scalar_text(a),
        ),
        KindView::Missing(e) => line(EXPECTED, ind, header_text(label, e)) + (if is_scalar(e) {
            Seq::empty()
        } else {
            subtree_block(EXPECTED, ind + iw, iw, e, max)
        }),
        KindView::TypeMismatch(a, at, e, et) => {
            let eh = header_text(label, e);
            let ah = header_text(label, a);
            let w = if byte_len(eh) >= byte_len(ah) {
                byte_len(eh)
            } else {
                byte_len(ah)
            };
            line(EXPECTED, ind, padded(eh, w) + " # expected: "@ + line_text(et)) + (if is_scalar(e) {
                Seq::empty()
            } else {
                subtree_block(EXPECTED, ind + iw, iw, e, max)
            }) + line(ACTUAL, ind, padded(ah, w) + " # actual: "@ + line_text(at)) + (if is_scalar(a) {
                Seq::empty()
            } else {
                subtree_block(ACTUAL, ind + iw, iw, a, max)
            })
        },
        KindView::Ambiguous(n) => line(CONTEXT, ind, ambiguity_text(n)),
    }
}

/// The warning comment of an ambiguous match resolved by the best match
/// strategy.
pub open spec fn ambiguity_text(candidates: int) -> Seq<char> {
    "# ambiguous match, best of "@ + decimal(candidates as nat) + " candidates"@
}

/// A leaf can be rendered: a `Changed` leaf holds scalars, and every
/// indentation computed fits in a `u16`.
pub open spec fn leaf_fits(iw: int, ind: int, kind: KindView) -> bool {
    match kind {
        KindView::Changed(a, e) => is_scalar(a) && is_scalar(e),
        KindView::Missing(e) => key_value_fits(ind, iw, e),
        KindView::TypeMismatch(a, _, e, _) => key_value_fits(ind, iw, e) && key_value_fits(
            ind,
            iw,
            a,
        ),
        KindView::Ambiguous(_) => true,
    }
}

/// The lines of a node at indentation `ind`: a container as its context
/// line, its omission marker and its children one level deeper; a leaf as
/// its difference.
pub open spec fn node_lines(iw: int, max: Option<u32>, ind: int, n: NodeView) -> Seq<char>
    decreases n, 0nat,
{
    match n {
        NodeView::Container(seg, ck, oc, ns) => line(CONTEXT, ind, container_header(seg))
            + extra_key_lines(seg, ind + iw) + (if oc > 0 {
            line(CONTEXT, ind + iw, omitted_text(ck, oc))
        } else {
            Seq::empty()
        }) + nodes_lines(iw, max, ind + iw, ns, ns.len()),
        NodeView::Leaf(seg, k) => leaf_lines(iw, max, ind, seg, k),
    }
}

/// The lines of the first `n` nodes.
pub open spec fn nodes_lines(iw: int, max: Option<u32>, ind: int, ns: Seq<NodeView>, n: nat) -> Seq<
    char,
>
    decreases ns, n,
{
    if n == 0 || n > ns.len() {
        Seq::empty()
    } else {
        nodes_lines(iw, max, ind, ns, (n - 1) as nat) + node_lines(iw, max, ind, ns[n - 1])
    }
}

/// A node can be rendered at indentation `ind`.
pub open spec fn node_fits(iw: int, ind: int, n: NodeView) -> bool
    decreases n,
{
    match n {
        NodeView::Container(_, _, _, ns) => ind + iw <= 65535 && forall|i: int|
            0 <= i < ns.len() ==> node_fits(iw, ind + iw, #[trigger] ns[i]),
        NodeView::Leaf(_, k) => leaf_fits(iw, ind, k),
    }
}

/// The YAML rendering of a diff tree with the given indentation width and
/// line limit, or `None` where the tree cannot be rendered (a `Changed` leaf
/// holding a compound value, or an indentation beyond `u16::MAX`).
pub open spec fn yaml_render(iw: int, max: Option<u32>, roots: Seq<NodeView>) -> Option<Seq<char>> {
    if forall|i: int| 0 <= i < roots.len() ==> node_fits(iw, 0, #[trigger] roots[i]) {
        Some(nodes_lines(iw, max, 0, roots, roots.len()))
    } else {
        None
    }
}

/// Returns the appropriate unit word for an omitted count: "fields" for the
/// entries of an object, "items" for the elements of an array, in the
/// singular for a count of one.
pub fn omitted_unit(child_kind: ChildKind, count: u16) -> (r: &'static str)
    ensures
        r@ == unit_word(child_kind, count as int),
{
    match child_kind {
        ChildKind::Fields => if count == 1 {
            "field"
        } else {
            "fields"
        },
        ChildKind::Items => if count == 1 {
            "item"
        } else {
            "items"
        },
    }
}

/// Formats a path segment as a label for rendering.
pub fn format_segment_label(segment: &PathSegment) -> (r: String)
    ensures
        r@ == segment_label(segment@),
{
    match segment {
        PathSegment::Key(key) => format_line_text(key.as_str()),
        PathSegment::NamedElement { match_key, match_value } => {
            let mut s = string_of("- ");
            let k = format_line_text(match_key.as_str());
            push_str(&mut s, k.as_str());
            push_str(&mut s, ": ");
            let v = format_line_text(match_value.as_str());
            push_str(&mut s, v.as_str());
            s
        },
        PathSegment::KeyedElement { keys } => {
            if keys.len() == 0 {
                string_of("-")
            } else {
                let mut s = string_of("- ");
                let k = format_line_text(keys[0].0.as_str());
                push_str(&mut s, k.as_str());
                push_str(&mut s, ": ");
                let v = format_line_text(keys[0].1.as_str());
                push_str(&mut s, v.as_str());
                assert(keys@[0].0@ == crate::model::pairs_view(keys@)[0].0);
                s
            }
        },
        PathSegment::Index(i) => {
            let mut s = string_of("- # index ");
            push_decimal(&mut s, *i as u64);
            s
        },
        PathSegment::Unmatched => string_of("-"),
    }
}

/// `h` padded with spaces to `width` characters.
fn pad_to(h: &String, width: usize) -> (r: String)
    ensures
        r@ == padded(h@, width as int),
{
    let n = chars_of(h.as_str()).len();
    let mut r = h.clone();
    if n < width {
        let mut k: usize = n;
        while k < width
            invariant
                n <= k <= width,
                n == h@.len(),
                r@ == h@ + spaces((k - n) as nat),
            decreases width - k,
        {
            push_char(&mut r, ' ');
            assert(spaces((k + 1 - n) as nat) =~= spaces((k - n) as nat).push(' '));
            k = k + 1;
        }
    } else {
        assert(r@ == padded(h@, width as int));
    }
    r
}

/// Renders a compound value with optional line truncation.
///
/// Renders into a temporary buffer, then appends to `output`. If the
/// rendered output exceeds `max_lines`, only the first `max_lines` lines
/// are kept and a `# N more lines` marker is appended.
fn render_value_truncated(
    output: &mut String,
    prefix: char,
    indent: u16,
    indent_width: u16,
    value: &Value,
    max_lines: Option<u32>,
) -> (ok: bool)
    ensures
        ok == value_fits(indent as int, indent_width as int, value@),
        ok ==> final(output)@ == old(output)@ + subtree_block(
            prefix,
            indent as int,
            indent_width as int,
            value@,
            max_lines,
        ),
{
    let mut buf = String::new();
    if !render_value(&mut buf, prefix, indent, indent_width, value) {
        return false;
    }
    push_truncated(output, prefix, indent, &buf, max_lines);
    true
}

/// Renders the value below a `key:` header one level deeper, if it is
/// compound.
fn render_subtree(
    output: &mut String,
    prefix: char,
    indent: u16,
    indent_width: u16,
    value: &Value,
    max_lines: Option<u32>,
) -> (ok: bool)
    ensures
        ok == key_value_fits(indent as int, indent_width as int, value@),
        ok ==> final(output)@ == old(output)@ + (if is_scalar(value@) {
            Seq::empty()
        } else {
            subtree_block(
                prefix,
                indent as int + indent_width as int,
                indent_width as int,
                value@,
                max_lines,
            )
        }),
{
    if value.is_scalar() {
        assert(old(output)@ + Seq::<char>::empty() =~= old(output)@);
        return true;
    }
    match indent.checked_add(indent_width) {
        None => false,
        Some(child_indent) => render_value_truncated(
            output,
            prefix,
            child_indent,
            indent_width,
            value,
            max_lines,
        ),
    }
}

/// Renders the warning comment of an ambiguous match.
fn render_ambiguity(candidates: u16, indent: u16, output: &mut String)
    ensures
        final(output)@ == old(output)@ + line(CONTEXT, indent as int, ambiguity_text(candidates as int)),
{
    let mut text = string_of("# ambiguous match, best of ");
    push_decimal(&mut text, candidates as u64);
    push_str(&mut text, " candidates");
    push_line(output, CONTEXT, indent, text.as_str());
}

/// Renders a `Changed` leaf: the expected value, then the actual one.
fn render_changed(
    renderer: &YamlRenderer,
    segment: &PathSegment,
    kind: &DiffKind,
    indent: u16,
    output: &mut String,
) -> (ok: bool)
    requires
        kind is Changed,
    ensures
        ok == leaf_fits(renderer.indent_width as int, indent as int, kind@),
        ok ==> final(output)@ == old(output)@ + leaf_lines(
            renderer.indent_width as int,
            renderer.max_lines_per_side,
            indent as int,
            segment@,
            kind@,
        ),
{
    let ghost start = output@;
    let iw = renderer.indent_width;
    let max = renderer.max_lines_per_side;
    match kind {
        // Changed values are scalars whenever the diff engine built them.
        DiffKind::Changed { actual, expected } => {
            if !expected.is_scalar() || !actual.is_scalar() {
                return false;
            }
            let label = format_segment_label(segment);
            let mut e = label.clone();
            push_str(&mut e, ": ");
            let ev = format_scalar(expected);
            push_str(&mut e, ev.as_str());
            push_line(output, EXPECTED, indent, e.as_str());
            let mut a = label.clone();
            push_str(&mut a, ": ");
            let av = format_scalar(actual);
            push_str(&mut a, av.as_str());
            push_line(output, ACTUAL, indent, a.as_str());
            assert(output@ =~= start + leaf_lines(iw as int, max, indent as int, segment@, kind@));
            true
        },
        _ => false,
    }
}

/// Renders a `Missing` leaf: the expected value on the `-` side.
fn render_missing(
    renderer: &YamlRenderer,
    segment: &PathSegment,
    kind: &DiffKind,
    indent: u16,
    output: &mut String,
) -> (ok: bool)
    requires
        kind is Missing,
    ensures
        ok == leaf_fits(renderer.indent_width as int, indent as int, kind@),
        ok ==> final(output)@ == old(output)@ + leaf_lines(
            renderer.indent_width as int,
            renderer.max_lines_per_side,
            indent as int,
            segment@,
            kind@,
        ),
{
    let ghost start = output@;
    let iw = renderer.indent_width;
    let max = renderer.max_lines_per_side;
    match kind {
        DiffKind::Missing { expected } => {
            let label = format_segment_label(segment);
            let header = header_for(label.as_str(), expected);
            push_line(output, EXPECTED, indent, header.as_str());
            if !render_subtree(output, EXPECTED, indent, iw, expected, max) {
                return false;
            }
            assert(output@ =~= start + leaf_lines(iw as int, max, indent as int, segment@, kind@));
            true
        },
        _ => false,
    }
}

/// Renders a `TypeMismatch` leaf: each side with its type name.
fn render_mismatch(
    renderer: &YamlRenderer,
    segment: &PathSegment,
    kind: &DiffKind,
    indent: u16,
    output: &mut String,
) -> (ok: bool)
    requires
        kind is TypeMismatch,
    ensures
        ok == leaf_fits(renderer.indent_width as int, indent as int, kind@),
        ok ==> final(output)@ == old(output)@ + leaf_lines(
            renderer.indent_width as int,
            renderer.max_lines_per_side,
            indent as int,
            segment@,
            kind@,
        ),
{
    let ghost start = output@;
    let iw = renderer.indent_width;
    let max = renderer.max_lines_per_side;
    match kind {
        DiffKind::TypeMismatch { actual, actual_type, expected, expected_type } => {
            let label = format_segment_label(segment);
            let expected_header = header_for(label.as_str(), expected);
            let actual_header = header_for(label.as_str(), actual);
            let el = expected_header.as_str().len();
            let al = actual_header.as_str().len();
            let width = if el >= al {
                el
            } else {
                al
            };
            let mut e = pad_to(&expected_header, width);
            push_str(&mut e, " # expected: ");
            let et = format_line_text(expected_type);
            push_str(&mut e, et.as_str());
            push_line(output, EXPECTED, indent, e.as_str());
            if !render_subtree(output, EXPECTED, indent, iw, expected, max) {
                return false;
            }
            let mut a = pad_to(&actual_header, width);
            push_str(&mut a, " # actual: ");
            let at = format_line_text(actual_type);
            push_str(&mut a, at.as_str());
            push_line(output, ACTUAL, indent, a.as_str());
            if !render_subtree(output, ACTUAL, indent, iw, actual, max) {
                return false;
            }
            assert(output@ =~= start + leaf_lines(iw as int, max, indent as int, segment@, kind@));
            true
        },
        _ => false,
    }
}

/// Renders the further keys of an element matched by several keys.
fn render_extra_keys(segment: &PathSegment, indent: u16, output: &mut String)
    ensures
        final(output)@ == old(output)@ + extra_key_lines(segment@, indent as int),
{
    match segment {
        PathSegment::KeyedElement { keys } => {
            let ghost ps = crate::model::pairs_view(keys@);
            let ghost start = output@;
            let mut i: usize = 1;
            assert(pair_lines(ps, indent as int, 1) =~= Seq::<char>::empty());
            while i < keys.len()
                invariant
                    1 <= i,
                    i <= keys@.len() || keys@.len() == 0,
                    ps == crate::model::pairs_view(keys@),
                    output@ == start + pair_lines(ps, indent as int, i as nat),
                decreases keys@.len() - i,
            {
                let mut text = format_line_text(keys[i].0.as_str());
                push_str(&mut text, ": ");
                let v = format_line_text(keys[i].1.as_str());
                push_str(&mut text, v.as_str());
                assert(ps[i as int] == (keys@[i as int].0@, keys@[i as int].1@));
                push_line(output, CONTEXT, indent, text.as_str());
                i = i + 1;
            }
            if keys.len() == 0 {
                assert(pair_lines(ps, indent as int, 0) =~= Seq::<char>::empty());
            }
        },
        _ => {},
    }
}

/// Renders a leaf node (a single difference).
fn render_leaf(
    renderer: &YamlRenderer,
    segment: &PathSegment,
    kind: &DiffKind,
    indent: u16,
    output: &mut String,
) -> (ok: bool)
    ensures
        ok == leaf_fits(renderer.indent_width as int, indent as int, kind@),
        ok ==> final(output)@ == old(output)@ + leaf_lines(
            renderer.indent_width as int,
            renderer.max_lines_per_side,
            indent as int,
            segment@,
            kind@,
        ),
{
    match kind {
        DiffKind::Changed { .. } => render_changed(renderer, segment, kind, indent, output),
        DiffKind::Missing { .. } => render_missing(renderer, segment, kind, indent, output),
        DiffKind::TypeMismatch { .. } => render_mismatch(renderer, segment, kind, indent, output),
        DiffKind::Ambiguous { candidates } => {
            render_ambiguity(*candidates, indent, output);
            true
        },
    }
}

/// Renders a child node, increasing indent by the configured width.
fn render_child(renderer: &YamlRenderer, node: &DiffNode, parent_indent: u16, output: &mut String) -> (ok:
    bool)
    ensures
        ok == (parent_indent + renderer.indent_width <= 65535 && node_fits(
            renderer.indent_width as int,
            parent_indent + renderer.indent_width,
            node@,
        )),
        ok ==> final(output)@ == old(output)@ + node_lines(
            renderer.indent_width as int,
            renderer.max_lines_per_side,
            parent_indent + renderer.indent_width,
            node@,
        ),
    decreases node@, 2nat,
{
    match parent_indent.checked_add(renderer.indent_width) {
        None => false,
        Some(child_indent) => renderer.render_node(node, child_indent, output),
    }
}

/// Renders a `DiffTree` as YAML-like diff output.
///
/// Output uses unified diff conventions:
/// - ` ` prefix for unchanged lines (reserves column 0 for diff indicators)
/// - `-` prefix for expected (what we wanted but didn't get)
/// - `+` prefix for actual (what we got instead)
pub struct YamlRenderer {
    /// Maximum lines to render per side for large values.
    ///
    /// `None` means no truncation.
    pub max_lines_per_side: Option<u32>,
    /// Number of spaces per indentation level.
    pub indent_width: u16,
}

impl YamlRenderer {
    /// Default maximum lines to render per side.
    pub const DEFAULT_MAX_LINES_PER_SIDE: u32 = 20;

    /// Default number of spaces per indentation level.
    pub const DEFAULT_INDENT_WIDTH: u16 = 2;

    /// A renderer with the default line limit and indentation width.
    pub fn new() -> (r: Self)
        ensures
            r.max_lines_per_side == Some(20u32),
            r.indent_width == 2,
    {
        YamlRenderer {
            max_lines_per_side: Some(Self::DEFAULT_MAX_LINES_PER_SIDE),
            indent_width: Self::DEFAULT_INDENT_WIDTH,
        }
    }

    /// Sets the maximum lines to render per side.
    pub fn with_max_lines_per_side(self, max: Option<u32>) -> (r: Self)
        ensures
            r.max_lines_per_side == max,
            r.indent_width == self.indent_width,
    {
        let mut s = self;
        s.max_lines_per_side = max;
        s
    }

    /// Sets the number of spaces per indentation level.
    pub fn with_indent_width(self, width: u16) -> (r: Self)
        ensures
            r.max_lines_per_side == self.max_lines_per_side,
            r.indent_width == width,
    {
        let mut s = self;
        s.indent_width = width;
        s
    }

    /// Renders a single diff node at the given indentation depth.
    fn render_node(&self, node: &DiffNode, indent: u16, output: &mut String) -> (ok: bool)
        ensures
            ok == node_fits(self.indent_width as int, indent as int, node@),
            ok ==> final(output)@ == old(output)@ + node_lines(
                self.indent_width as int,
                self.max_lines_per_side,
                indent as int,
                node@,
            ),
        decreases node@, 1nat,
    {
        let ghost iw = self.indent_width as int;
        let ghost max = self.max_lines_per_side;
        let ghost start = output@;
        match node {
            DiffNode::Container { segment, child_kind, omitted_count, children } => {
                // Render the segment as a context line; only keys take a colon.
                let mut header = format_segment_label(segment);
                match segment {
                    PathSegment::Key(_) => {
                        push_str(&mut header, ":");
                    },
                    _ => {},
                }
                push_line(output, CONTEXT, indent, header.as_str());
                let child_indent = match indent.checked_add(self.indent_width) {
                    None => {
                        return false;
                    },
                    Some(c) => c,
                };
                render_extra_keys(segment, child_indent, output);
                if *omitted_count > 0 {
                    let mut text = string_of("# ");
                    push_decimal(&mut text, *omitted_count as u64);
                    push_str(&mut text, " ");
                    push_str(&mut text, omitted_unit(*child_kind, *omitted_count));
                    push_str(&mut text, " omitted");
                    push_line(output, CONTEXT, child_indent, text.as_str());
                }
                let ghost ns = node@->Container_3;
                let ghost after_header = output@;
                assert(after_header == start + line(CONTEXT, indent as int, container_header(segment@))
                    + extra_key_lines(segment@, indent + iw) + (if *omitted_count > 0 {
                    line(CONTEXT, indent + iw, omitted_text(*child_kind, *omitted_count as int))
                } else {
                    Seq::empty()
                }));
                assert forall|j: int| 0 <= j < children@.len() implies #[trigger] ns[j]
                    == children@[j]@ by {}
                let mut i: usize = 0;
                while i < children.len()
                    invariant
                        i <= children@.len(),
                        ns.len() == children@.len(),
                        node@ == NodeView::Container(
                            segment@,
                            *child_kind,
                            *omitted_count as int,
                            ns,
                        ),
                        forall|j: int| 0 <= j < children@.len() ==> #[trigger] ns[j] == children@[j]@,
                        iw == self.indent_width as int,
                        max == self.max_lines_per_side,
                        child_indent == indent + self.indent_width,
                        forall|j: int| 0 <= j < i ==> node_fits(iw, child_indent as int, #[trigger] ns[j]),
                        output@ == after_header + nodes_lines(iw, max, child_indent as int, ns, i as nat),
                    decreases children@.len() - i,
                {
                    proof {
                        assert(decreases_to!(node@ => node@->Container_3));
                        assert(decreases_to!(ns => ns[i as int]));
                    }
                    if !render_child(self, &children[i], indent, output) {
                        assert(!node_fits(iw, child_indent as int, ns[i as int]));
                        return false;
                    }
                    i = i + 1;
                }
                assert(output@ =~= start + node_lines(iw, max, indent as int, node@));
                true
            },
            DiffNode::Leaf { segment, kind } => render_leaf(self, segment, kind, indent, output),
        }
    }

    /// Renders the tree, or returns `None` where it cannot be rendered: a
    /// `Changed` leaf holding a compound value, or an indentation beyond
    /// `u16::MAX`.
    pub fn render_checked(&self, tree: &DiffTree) -> (r: Option<String>)
        ensures
            match yaml_render(self.indent_width as int, self.max_lines_per_side, tree@) {
                Some(s) => r matches Some(out) && out@ == s,
                None => r is None,
            },
    {
        let ghost iw = self.indent_width as int;
        let ghost max = self.max_lines_per_side;
        let ghost roots = tree@;
        let mut output = String::new();
        assert forall|j: int| 0 <= j < tree.roots@.len() implies #[trigger] roots[j]
            == tree.roots@[j]@ by {}
        let mut i: usize = 0;
        while i < tree.roots.len()
            invariant
                i <= tree.roots@.len(),
                roots.len() == tree.roots@.len(),
                roots == tree@,
                forall|j: int| 0 <= j < tree.roots@.len() ==> #[trigger] roots[j] == tree.roots@[j]@,
                iw == self.indent_width as int,
                max == self.max_lines_per_side,
                forall|j: int| 0 <= j < i ==> node_fits(iw, 0, #[trigger] roots[j]),
                output@ == nodes_lines(iw, max, 0, roots, i as nat),
            decreases tree.roots@.len() - i,
        {
            // Root nodes start at indent level 0 (no leading spaces).
            if !self.render_node(&tree.roots[i], 0, &mut output) {
                assert(!node_fits(iw, 0, roots[i as int]));
                return None;
            }
            i = i + 1;
        }
        Some(output)
    }
}

impl Default for YamlRenderer {
    fn default() -> (r: Self)
        ensures
            r.max_lines_per_side == Some(20u32),
            r.indent_width == 2,
    {
        Self::new()
    }
}

impl DiffRenderer for YamlRenderer {
    /// Renders the tree (see [`YamlRenderer::render_checked`]); a tree that
    /// cannot be rendered gives the empty string.
    fn render(&self, tree: &DiffTree) -> (r: String)
        ensures
            r@ == match yaml_render(self.indent_width as int, self.max_lines_per_side, tree@) {
                Some(s) => s,
                None => Seq::empty(),
            },
    {
        match self.render_checked(tree) {
            Some(s) => s,
            None => String::new(),
        }
    }
}

} // verus!
