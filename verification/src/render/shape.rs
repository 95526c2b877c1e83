//! The shape of rendered output: every line opens with a diff indicator.

use vstd::prelude::*;
use crate::model::{ChildKind, KindView, NodeView, SegmentView};
use crate::render::indicator::{ACTUAL, CONTEXT, EXPECTED};
use crate::render::lines::{
    join_lines, line, more_lines_text, scan_lines, spaces, strip_cr, text_lines, truncated_block,
};
use crate::render::scalar::{escape_char, escaped, has_line_break, line_text, needs_quoting, scalar_text};
use crate::render::yaml::{
    ambiguity_text, byte_len, container_header, extra_key_lines, pair_lines, pair_text, element_lines, elements_lines, entries_lines, header_text, key_value_lines,
    leaf_lines, node_lines, nodes_lines, omitted_text, padded, segment_label, subtree_block,
    unit_word, value_lines, yaml_render,
};
use crate::text::{decimal, digit_char};
use crate::value::{JsonValue, is_scalar};

verus! {

/// One of the characters that open a rendered line.
pub open spec fn is_indicator(c: char) -> bool {
    c == CONTEXT || c == EXPECTED || c == ACTUAL
}

/// `s` holds no newline.
pub open spec fn no_newline(s: Seq<char>) -> bool {
    forall|i: int| 0 <= i < s.len() ==> #[trigger] s[i] != '\n'
}

/// `s` is a sequence of whole lines, each opened by an indicator.
pub open spec fn indicator_lines(s: Seq<char>) -> bool {
    &&& s.len() > 0 ==> s.last() == '\n'
    &&& forall|i: int|
        0 <= i < s.len() && (i == 0 || s[i - 1] == '\n') ==> is_indicator(#[trigger] s[i])
}

/// Every line of a rendered diff opens with an indicator (` `, `-` or `+`),
/// and a rendering that is not empty ends with a newline: text taken from
/// the data that would break a line is quoted and escaped.
pub proof fn law_rendered_lines_open_with_indicator(
    iw: int,
    max: Option<u32>,
    roots: Seq<NodeView>,
)
    ensures
        yaml_render(iw, max, roots) matches Some(out) ==> indicator_lines(out),
{
    lemma_nodes_lines(iw, max, 0, roots, roots.len());
}

/// A renderable tree renders to nothing exactly when it has no nodes: each
/// root node gives at least one line.
pub proof fn law_rendered_output_empty_iff_no_roots(iw: int, max: Option<u32>, roots: Seq<NodeView>)
    ensures
        yaml_render(iw, max, roots) matches Some(out) ==> (out.len() == 0 <==> roots.len() == 0),
{
    if roots.len() > 0 {
        lemma_node_lines_nonempty(iw, max, 0, roots[roots.len() - 1]);
    }
}

proof fn lemma_line_nonempty(p: char, ind: int, content: Seq<char>)
    ensures
        line(p, ind, content).len() > 0,
{
    assert(line(p, ind, content)[0] == p);
}

proof fn lemma_node_lines_nonempty(iw: int, max: Option<u32>, ind: int, n: NodeView)
    ensures
        node_lines(iw, max, ind, n).len() > 0,
{
    match n {
        NodeView::Container(seg, _, _, _) => lemma_line_nonempty(CONTEXT, ind, container_header(seg)),
        NodeView::Leaf(seg, k) => {
            let label = segment_label(seg);
            match k {
                KindView::Changed(a, e) => lemma_line_nonempty(EXPECTED, ind, label + ": "@ + scalar_text(e)),
                KindView::Missing(e) => lemma_line_nonempty(EXPECTED, ind, header_text(label, e)),
                KindView::TypeMismatch(a, at, e, et) => {
                    let eh = header_text(label, e);
                    let ah = header_text(label, a);
                    let w = if byte_len(eh) >= byte_len(ah) {
                        byte_len(eh)
                    } else {
                        byte_len(ah)
                    };
                    lemma_line_nonempty(EXPECTED, ind, padded(eh, w) + " # expected: "@ + line_text(et));
                },
                KindView::Ambiguous(c) => lemma_line_nonempty(CONTEXT, ind, ambiguity_text(c)),
            }
        },
    }
}

// ---------------------------------------------------------------------------
// Lines and concatenation
// ---------------------------------------------------------------------------

proof fn lemma_no_newline_cat(a: Seq<char>, b: Seq<char>)
    requires
        no_newline(a),
        no_newline(b),
    ensures
        no_newline(a + b),
{
    assert forall|i: int| 0 <= i < (a + b).len() implies #[trigger] (a + b)[i] != '\n' by {
        if i >= a.len() {
            assert((a + b)[i] == b[i - a.len()]);
        }
    }
}

proof fn lemma_indicator_lines_cat(a: Seq<char>, b: Seq<char>)
    requires
        indicator_lines(a),
        indicator_lines(b),
    ensures
        indicator_lines(a + b),
{
    let s = a + b;
    assert forall|i: int| 0 <= i < s.len() && (i == 0 || s[i - 1] == '\n') implies is_indicator(
        #[trigger] s[i],
    ) by {
        if i >= a.len() {
            let j = i - a.len();
            assert(s[i] == b[j]);
            if j > 0 {
                assert(s[i - 1] == b[j - 1]);
            }
        } else {
            assert(s[i] == a[i]);
            if i > 0 {
                assert(s[i - 1] == a[i - 1]);
            }
        }
    }
    if b.len() > 0 {
        assert(s.last() == b.last());
    } else {
        assert(s =~= a);
    }
}

/// A single line opened by an indicator is whole.
proof fn lemma_single_line(s: Seq<char>)
    requires
        s.len() > 0,
        s.last() == '\n',
        is_indicator(s[0]),
        forall|k: int| 0 <= k < s.len() - 1 ==> #[trigger] s[k] != '\n',
    ensures
        indicator_lines(s),
{
    assert forall|i: int| 0 <= i < s.len() && (i == 0 || s[i - 1] == '\n') implies is_indicator(
        #[trigger] s[i],
    ) by {
        if i > 0 {
            assert(s[i - 1] != '\n');
        }
    }
}

proof fn lemma_line(p: char, ind: int, content: Seq<char>)
    requires
        is_indicator(p),
        no_newline(content),
    ensures
        indicator_lines(line(p, ind, content)),
{
    let body = seq![p] + spaces(ind as nat) + content;
    assert forall|k: int| 0 <= k < body.len() implies #[trigger] body[k] != '\n' by {
        if k >= 1 + spaces(ind as nat).len() {
            assert(body[k] == content[k - 1 - spaces(ind as nat).len()]);
        } else if k >= 1 {
            assert(body[k] == spaces(ind as nat)[k - 1]);
        }
    }
    let s = line(p, ind, content);
    assert(s =~= body + seq!['\n']);
    assert forall|k: int| 0 <= k < s.len() - 1 implies #[trigger] s[k] != '\n' by {
        assert(s[k] == body[k]);
    }
    lemma_single_line(s);
}

// ---------------------------------------------------------------------------
// Text pieces without newlines
// ---------------------------------------------------------------------------

proof fn lemma_decimal_no_newline(n: nat)
    ensures
        no_newline(decimal(n)),
    decreases n,
{
    if n >= 10 {
        lemma_decimal_no_newline(n / 10);
        lemma_no_newline_cat(decimal(n / 10), seq![digit_char(n % 10)]);
        assert(decimal(n) =~= decimal(n / 10) + seq![digit_char(n % 10)]);
    }
}

proof fn lemma_escaped_no_newline(s: Seq<char>)
    ensures
        no_newline(escaped(s)),
    decreases s.len(),
{
    if s.len() > 0 {
        lemma_escaped_no_newline(s.drop_last());
        let c = s.last();
        assert(no_newline(escape_char(c)));
        lemma_no_newline_cat(escaped(s.drop_last()), escape_char(c));
    }
}

proof fn lemma_quoted_no_newline(s: Seq<char>)
    ensures
        no_newline(seq!['"'] + escaped(s) + seq!['"']),
{
    lemma_escaped_no_newline(s);
    lemma_no_newline_cat(seq!['"'], escaped(s));
    lemma_no_newline_cat(seq!['"'] + escaped(s), seq!['"']);
}

proof fn lemma_unbroken_no_newline(s: Seq<char>)
    requires
        !s.contains('\n'),
    ensures
        no_newline(s),
{
    assert forall|i: int| 0 <= i < s.len() implies #[trigger] s[i] != '\n' by {
        if s[i] == '\n' {
            assert(s.contains('\n'));
        }
    }
}

proof fn lemma_line_text_no_newline(s: Seq<char>)
    ensures
        no_newline(line_text(s)),
{
    if has_line_break(s) {
        lemma_quoted_no_newline(s);
    } else {
        lemma_unbroken_no_newline(s);
    }
}

proof fn lemma_scalar_text_no_newline(v: JsonValue)
    ensures
        no_newline(scalar_text(v)),
{
    reveal_strlit("null");
    reveal_strlit("true");
    reveal_strlit("false");
    match v {
        JsonValue::Str(s) => {
            if needs_quoting(s) {
                lemma_quoted_no_newline(s);
            } else {
                lemma_unbroken_no_newline(s);
            }
        },
        JsonValue::Number(repr, _) => lemma_line_text_no_newline(repr),
        _ => {},
    }
}

proof fn lemma_header_no_newline(key: Seq<char>, v: JsonValue)
    requires
        no_newline(key),
    ensures
        no_newline(header_text(key, v)),
{
    reveal_strlit(": ");
    reveal_strlit(":");
    if is_scalar(v) {
        lemma_scalar_text_no_newline(v);
        lemma_no_newline_cat(key, ": "@);
        lemma_no_newline_cat(key + ": "@, scalar_text(v));
    } else {
        lemma_no_newline_cat(key, ":"@);
    }
}

proof fn lemma_label_no_newline(seg: SegmentView)
    ensures
        no_newline(segment_label(seg)),
        no_newline(container_header(seg)),
{
    reveal_strlit("- ");
    reveal_strlit(": ");
    reveal_strlit("- # index ");
    reveal_strlit("-");
    reveal_strlit(":");
    match seg {
        SegmentView::Key(k) => lemma_line_text_no_newline(k),
        SegmentView::NamedElement(k, v) => {
            lemma_line_text_no_newline(k);
            lemma_line_text_no_newline(v);
            lemma_no_newline_cat("- "@, line_text(k));
            lemma_no_newline_cat("- "@ + line_text(k), ": "@);
            lemma_no_newline_cat("- "@ + line_text(k) + ": "@, line_text(v));
        },
        SegmentView::KeyedElement(ps) => {
            if ps.len() > 0 {
                let (k, v) = ps[0];
                lemma_line_text_no_newline(k);
                lemma_line_text_no_newline(v);
                lemma_no_newline_cat("- "@, line_text(k));
                lemma_no_newline_cat("- "@ + line_text(k), ": "@);
                lemma_no_newline_cat("- "@ + line_text(k) + ": "@, line_text(v));
            }
        },
        SegmentView::Index(i) => {
            lemma_decimal_no_newline(i as nat);
            lemma_no_newline_cat("- # index "@, decimal(i as nat));
        },
        _ => {},
    }
    lemma_no_newline_cat(segment_label(seg), ":"@);
}

proof fn lemma_pair_lines(ps: Seq<(Seq<char>, Seq<char>)>, ind: int, n: nat)
    ensures
        indicator_lines(pair_lines(ps, ind, n)),
    decreases n,
{
    if !(n <= 1 || n > ps.len()) {
        lemma_pair_lines(ps, ind, (n - 1) as nat);
        let (k, v) = ps[n - 1];
        reveal_strlit(": ");
        lemma_line_text_no_newline(k);
        lemma_line_text_no_newline(v);
        lemma_no_newline_cat(line_text(k), ": "@);
        lemma_no_newline_cat(line_text(k) + ": "@, line_text(v));
        lemma_line(CONTEXT, ind, pair_text(ps[n - 1]));
        lemma_indicator_lines_cat(pair_lines(ps, ind, (n - 1) as nat), line(CONTEXT, ind, pair_text(ps[n - 1])));
    }
}

proof fn lemma_extra_key_lines(seg: SegmentView, ind: int)
    ensures
        indicator_lines(extra_key_lines(seg, ind)),
{
    if let SegmentView::KeyedElement(ps) = seg {
        lemma_pair_lines(ps, ind, ps.len());
    }
}

// ---------------------------------------------------------------------------
// Rendered values
// ---------------------------------------------------------------------------

proof fn lemma_value_lines(p: char, ind: int, iw: int, v: JsonValue)
    requires
        is_indicator(p),
    ensures
        indicator_lines(value_lines(p, ind, iw, v)),
    decreases v, 2nat,
{
    match v {
        JsonValue::Object(es) => lemma_entries_lines(p, ind, iw, es, 0, es.len()),
        JsonValue::Array(xs) => lemma_elements_lines(p, ind, iw, xs, xs.len()),
        _ => {
            lemma_scalar_text_no_newline(v);
            lemma_line(p, ind, scalar_text(v));
        },
    }
}

proof fn lemma_key_value_lines(p: char, ind: int, iw: int, key: Seq<char>, v: JsonValue)
    requires
        is_indicator(p),
        no_newline(key),
    ensures
        indicator_lines(key_value_lines(p, ind, iw, key, v)),
    decreases v, 3nat,
{
    lemma_header_no_newline(key, v);
    lemma_line(p, ind, header_text(key, v));
    if !is_scalar(v) {
        lemma_value_lines(p, ind + iw, iw, v);
        lemma_indicator_lines_cat(line(p, ind, header_text(key, v)), value_lines(p, ind + iw, iw, v));
    }
}

proof fn lemma_entries_lines(
    p: char,
    ind: int,
    iw: int,
    es: Seq<(Seq<char>, JsonValue)>,
    lo: nat,
    n: nat,
)
    requires
        is_indicator(p),
    ensures
        indicator_lines(entries_lines(p, ind, iw, es, lo, n)),
    decreases es, n,
{
    if !(n <= lo || n > es.len()) {
        lemma_entries_lines(p, ind, iw, es, lo, (n - 1) as nat);
        lemma_line_text_no_newline(es[n - 1].0);
        lemma_key_value_lines(p, ind, iw, line_text(es[n - 1].0), es[n - 1].1);
        lemma_indicator_lines_cat(
            entries_lines(p, ind, iw, es, lo, (n - 1) as nat),
            key_value_lines(p, ind, iw, line_text(es[n - 1].0), es[n - 1].1),
        );
    }
}

proof fn lemma_elements_lines(p: char, ind: int, iw: int, xs: Seq<JsonValue>, n: nat)
    requires
        is_indicator(p),
    ensures
        indicator_lines(elements_lines(p, ind, iw, xs, n)),
    decreases xs, n,
{
    if !(n == 0 || n > xs.len()) {
        lemma_elements_lines(p, ind, iw, xs, (n - 1) as nat);
        lemma_element_lines(p, ind, iw, xs[n - 1]);
        lemma_indicator_lines_cat(
            elements_lines(p, ind, iw, xs, (n - 1) as nat),
            element_lines(p, ind, iw, xs[n - 1]),
        );
    }
}

proof fn lemma_element_lines(p: char, ind: int, iw: int, x: JsonValue)
    requires
        is_indicator(p),
    ensures
        indicator_lines(element_lines(p, ind, iw, x)),
    decreases x, 3nat,
{
    reveal_strlit("- ");
    reveal_strlit("-");
    if is_scalar(x) {
        lemma_scalar_text_no_newline(x);
        lemma_no_newline_cat("- "@, scalar_text(x));
        lemma_line(p, ind, "- "@ + scalar_text(x));
    } else {
        match x {
            JsonValue::Object(es) => {
                if es.len() > 0 {
                    lemma_line_text_no_newline(es[0].0);
                    lemma_no_newline_cat("- "@, line_text(es[0].0));
                    lemma_key_value_lines(p, ind, iw, "- "@ + line_text(es[0].0), es[0].1);
                    lemma_entries_lines(p, ind + iw, iw, es, 1, es.len());
                    lemma_indicator_lines_cat(
                        key_value_lines(p, ind, iw, "- "@ + line_text(es[0].0), es[0].1),
                        entries_lines(p, ind + iw, iw, es, 1, es.len()),
                    );
                }
            },
            _ => {
                lemma_line(p, ind, "-"@);
                lemma_value_lines(p, ind + iw, iw, x);
                lemma_indicator_lines_cat(line(p, ind, "-"@), value_lines(p, ind + iw, iw, x));
            },
        }
    }
}

// ---------------------------------------------------------------------------
// Truncated blocks
// ---------------------------------------------------------------------------

/// A line of text: opened by an indicator, holding no newline.
spec fn line_ok(l: Seq<char>) -> bool {
    l.len() > 0 && is_indicator(l[0]) && no_newline(l)
}

proof fn lemma_scan_lines(s: Seq<char>)
    requires
        forall|i: int|
            0 <= i < s.len() && (i == 0 || s[i - 1] == '\n') ==> is_indicator(#[trigger] s[i]),
    ensures
        forall|k: int| 0 <= k < scan_lines(s).0.len() ==> line_ok(#[trigger] scan_lines(s).0[k]),
        scan_lines(s).1.len() > 0 ==> line_ok(scan_lines(s).1),
        scan_lines(s).1.len() == 0 ==> (s.len() == 0 || s.last() == '\n'),
    decreases s.len(),
{
    if s.len() > 0 {
        let t = s.drop_last();
        assert forall|i: int| 0 <= i < t.len() && (i == 0 || t[i - 1] == '\n') implies is_indicator(
            #[trigger] t[i],
        ) by {
            assert(t[i] == s[i]);
            if i > 0 {
                assert(t[i - 1] == s[i - 1]);
            }
        }
        lemma_scan_lines(t);
        let prev = scan_lines(t);
        let c = s.last();
        let last = s.len() - 1;
        if prev.1.len() == 0 {
            if last > 0 {
                assert(s[last - 1] == t.last());
            }
            assert(is_indicator(s[last]));
        }
        if c == '\n' {
            let l = strip_cr(prev.1);
            assert(line_ok(l)) by {
                if prev.1.len() > 1 && prev.1.last() == '\r' {
                    assert(l[0] == prev.1[0]);
                    assert forall|i: int| 0 <= i < l.len() implies #[trigger] l[i] != '\n' by {
                        assert(l[i] == prev.1[i]);
                    }
                }
            }
            let ls = prev.0.push(l);
            assert forall|k: int| 0 <= k < ls.len() implies line_ok(#[trigger] ls[k]) by {
                if k < prev.0.len() {
                    assert(ls[k] == prev.0[k]);
                }
            }
        } else {
            let cur = prev.1.push(c);
            assert(line_ok(cur)) by {
                assert forall|i: int| 0 <= i < cur.len() implies #[trigger] cur[i] != '\n' by {
                    if i < prev.1.len() {
                        assert(cur[i] == prev.1[i]);
                    }
                }
            }
        }
    }
}

proof fn lemma_join_lines(ls: Seq<Seq<char>>)
    requires
        forall|k: int| 0 <= k < ls.len() ==> line_ok(#[trigger] ls[k]),
    ensures
        indicator_lines(join_lines(ls)),
    decreases ls.len(),
{
    if ls.len() > 0 {
        let init = ls.drop_last();
        assert forall|k: int| 0 <= k < init.len() implies line_ok(#[trigger] init[k]) by {
            assert(init[k] == ls[k]);
        }
        lemma_join_lines(init);
        let l = ls.last();
        assert(line_ok(ls[ls.len() - 1]));
        let s = l + seq!['\n'];
        assert forall|k: int| 0 <= k < s.len() - 1 implies #[trigger] s[k] != '\n' by {
            assert(s[k] == l[k]);
        }
        assert(s[0] == l[0]);
        lemma_single_line(s);
        lemma_indicator_lines_cat(join_lines(init), s);
        assert(join_lines(ls) =~= join_lines(init) + s);
    }
}

proof fn lemma_text_lines(body: Seq<char>)
    requires
        indicator_lines(body),
    ensures
        forall|k: int| 0 <= k < text_lines(body).len() ==> line_ok(#[trigger] text_lines(body)[k]),
{
    lemma_scan_lines(body);
    let sc = scan_lines(body);
    let ls = text_lines(body);
    assert forall|k: int| 0 <= k < ls.len() implies line_ok(#[trigger] ls[k]) by {
        if k < sc.0.len() {
            assert(ls[k] == sc.0[k]);
        }
    }
}

proof fn lemma_head_lines(ls: Seq<Seq<char>>, m: int)
    requires
        0 <= m <= ls.len(),
        forall|k: int| 0 <= k < ls.len() ==> line_ok(#[trigger] ls[k]),
    ensures
        indicator_lines(join_lines(ls.take(m))),
{
    let head = ls.take(m);
    assert forall|k: int| 0 <= k < head.len() implies line_ok(#[trigger] head[k]) by {
        assert(head[k] == ls[k]);
    }
    lemma_join_lines(head);
}

proof fn lemma_marker_line(p: char, ind: int, r: nat)
    requires
        is_indicator(p),
    ensures
        indicator_lines(line(p, ind, more_lines_text(r))),
{
    reveal_strlit("# ");
    reveal_strlit(" more lines");
    lemma_decimal_no_newline(r);
    lemma_no_newline_cat("# "@, decimal(r));
    lemma_no_newline_cat("# "@ + decimal(r), " more lines"@);
    lemma_line(p, ind, more_lines_text(r));
}

proof fn lemma_truncated_block(p: char, ind: int, body: Seq<char>, max: Option<u32>)
    requires
        is_indicator(p),
        indicator_lines(body),
    ensures
        indicator_lines(truncated_block(p, ind, body, max)),
{
    if let Some(m) = max {
        let ls = text_lines(body);
        let total = (ls.len() as u32) as int;
        if total > m {
            assert((ls.len() as u32) as int <= ls.len()) by {
                let n = ls.len();
                if n <= u32::MAX {
                    assert((n as u32) as int == n);
                }
            }
            lemma_text_lines(body);
            lemma_head_lines(ls, m as int);
            let r = (total - m) as nat;
            lemma_marker_line(p, ind, r);
            lemma_indicator_lines_cat(join_lines(ls.take(m as int)), line(p, ind, more_lines_text(r)));
        }
    }
}

// ---------------------------------------------------------------------------
// Rendered nodes
// ---------------------------------------------------------------------------

proof fn lemma_subtree(p: char, ind: int, iw: int, v: JsonValue, max: Option<u32>)
    requires
        is_indicator(p),
    ensures
        indicator_lines(subtree_block(p, ind, iw, v, max)),
{
    lemma_value_lines(p, ind, iw, v);
    lemma_truncated_block(p, ind, value_lines(p, ind, iw, v), max);
}

proof fn lemma_padded_no_newline(h: Seq<char>, w: int)
    requires
        no_newline(h),
    ensures
        no_newline(padded(h, w)),
{
    if h.len() < w {
        lemma_no_newline_cat(h, spaces((w - h.len()) as nat));
    }
}

proof fn lemma_leaf_lines(iw: int, max: Option<u32>, ind: int, seg: SegmentView, kind: KindView)
    ensures
        indicator_lines(leaf_lines(iw, max, ind, seg, kind)),
{
    let label = segment_label(seg);
    lemma_label_no_newline(seg);
    reveal_strlit(": ");
    reveal_strlit(" # expected: ");
    reveal_strlit(" # actual: ");
    let empty = Seq::<char>::empty();
    match kind {
        KindView::Changed(a, e) => {
            lemma_scalar_text_no_newline(e);
            lemma_scalar_text_no_newline(a);
            lemma_no_newline_cat(label, ": "@);
            lemma_no_newline_cat(label + ": "@, scalar_text(e));
            lemma_no_newline_cat(label + ": "@, scalar_text(a));
            lemma_line(EXPECTED, ind, label + ": "@ + scalar_text(e));
            lemma_line(ACTUAL, ind, label + ": "@ + scalar_text(a));
            lemma_indicator_lines_cat(
                line(EXPECTED, ind, label + ": "@ + scalar_text(e)),
                line(ACTUAL, ind, label + ": "@ + scalar_text(a)),
            );
        },
        KindView::Missing(e) => {
            lemma_header_no_newline(label, e);
            lemma_line(EXPECTED, ind, header_text(label, e));
            let rest = if is_scalar(e) {
                empty
            } else {
                subtree_block(EXPECTED, ind + iw, iw, e, max)
            };
            if !is_scalar(e) {
                lemma_subtree(EXPECTED, ind + iw, iw, e, max);
            }
            lemma_indicator_lines_cat(line(EXPECTED, ind, header_text(label, e)), rest);
        },
        KindView::TypeMismatch(a, at, e, et) => {
            let eh = header_text(label, e);
            let ah = header_text(label, a);
            lemma_header_no_newline(label, e);
            lemma_header_no_newline(label, a);
            let w = if crate::render::yaml::byte_len(eh) >= crate::render::yaml::byte_len(ah) {
                crate::render::yaml::byte_len(eh)
            } else {
                crate::render::yaml::byte_len(ah)
            };
            lemma_padded_no_newline(eh, w);
            lemma_padded_no_newline(ah, w);
            lemma_no_newline_cat(padded(eh, w), " # expected: "@);
            lemma_line_text_no_newline(et);
            lemma_line_text_no_newline(at);
            lemma_no_newline_cat(padded(eh, w) + " # expected: "@, line_text(et));
            lemma_no_newline_cat(padded(ah, w), " # actual: "@);
            lemma_no_newline_cat(padded(ah, w) + " # actual: "@, line_text(at));
            let l1 = line(EXPECTED, ind, padded(eh, w) + " # expected: "@ + line_text(et));
            let b1 = if is_scalar(e) {
                empty
            } else {
                subtree_block(EXPECTED, ind + iw, iw, e, max)
            };
            let l2 = line(ACTUAL, ind, padded(ah, w) + " # actual: "@ + line_text(at));
            let b2 = if is_scalar(a) {
                empty
            } else {
                subtree_block(ACTUAL, ind + iw, iw, a, max)
            };
            lemma_line(EXPECTED, ind, padded(eh, w) + " # expected: "@ + line_text(et));
            lemma_line(ACTUAL, ind, padded(ah, w) + " # actual: "@ + line_text(at));
            if !is_scalar(e) {
                lemma_subtree(EXPECTED, ind + iw, iw, e, max);
            }
            if !is_scalar(a) {
                lemma_subtree(ACTUAL, ind + iw, iw, a, max);
            }
            lemma_indicator_lines_cat(l1, b1);
            lemma_indicator_lines_cat(l1 + b1, l2);
            lemma_indicator_lines_cat(l1 + b1 + l2, b2);
        },
        KindView::Ambiguous(n) => {
            reveal_strlit("# ambiguous match, best of ");
            reveal_strlit(" candidates");
            lemma_decimal_no_newline(n as nat);
            lemma_no_newline_cat("# ambiguous match, best of "@, decimal(n as nat));
            lemma_no_newline_cat("# ambiguous match, best of "@ + decimal(n as nat), " candidates"@);
            lemma_line(CONTEXT, ind, ambiguity_text(n));
        },
    }
}

proof fn lemma_omitted_line(ind: int, ck: ChildKind, oc: int)
    ensures
        indicator_lines(line(CONTEXT, ind, omitted_text(ck, oc))),
{
    reveal_strlit("# ");
    reveal_strlit(" ");
    reveal_strlit(" omitted");
    reveal_strlit("field");
    reveal_strlit("fields");
    reveal_strlit("item");
    reveal_strlit("items");
    lemma_decimal_no_newline(oc as nat);
    lemma_no_newline_cat("# "@, decimal(oc as nat));
    lemma_no_newline_cat("# "@ + decimal(oc as nat), " "@);
    lemma_no_newline_cat("# "@ + decimal(oc as nat) + " "@, unit_word(ck, oc));
    lemma_no_newline_cat("# "@ + decimal(oc as nat) + " "@ + unit_word(ck, oc), " omitted"@);
    lemma_line(CONTEXT, ind, omitted_text(ck, oc));
}

proof fn lemma_node_lines(iw: int, max: Option<u32>, ind: int, n: NodeView)
    ensures
        indicator_lines(node_lines(iw, max, ind, n)),
    decreases n, 0nat,
{
    match n {
        NodeView::Container(seg, ck, oc, ns) => {
            lemma_label_no_newline(seg);
            lemma_line(CONTEXT, ind, container_header(seg));
            let head = line(CONTEXT, ind, container_header(seg));
            let marker = if oc > 0 {
                line(CONTEXT, ind + iw, omitted_text(ck, oc))
            } else {
                Seq::empty()
            };
            if oc > 0 {
                lemma_omitted_line(ind + iw, ck, oc);
            }
            let extra = extra_key_lines(seg, ind + iw);
            lemma_extra_key_lines(seg, ind + iw);
            lemma_nodes_lines(iw, max, ind + iw, ns, ns.len());
            lemma_indicator_lines_cat(head, extra);
            lemma_indicator_lines_cat(head + extra, marker);
            lemma_indicator_lines_cat(head + extra + marker, nodes_lines(iw, max, ind + iw, ns, ns.len()));
        },
        NodeView::Leaf(seg, k) => lemma_leaf_lines(iw, max, ind, seg, k),
    }
}

proof fn lemma_nodes_lines(iw: int, max: Option<u32>, ind: int, ns: Seq<NodeView>, n: nat)
    ensures
        indicator_lines(nodes_lines(iw, max, ind, ns, n)),
    decreases ns, n,
{
    if !(n == 0 || n > ns.len()) {
        lemma_nodes_lines(iw, max, ind, ns, (n - 1) as nat);
        lemma_node_lines(iw, max, ind, ns[n - 1]);
        lemma_indicator_lines_cat(
            nodes_lines(iw, max, ind, ns, (n - 1) as nat),
            node_lines(iw, max, ind, ns[n - 1]),
        );
    }
}

// ---------------------------------------------------------------------------
// Large subtrees are truncated on both sides
// ---------------------------------------------------------------------------

/// The number of line feeds in `s`: its number of lines when every line
/// ends with one.
pub open spec fn line_count(s: Seq<char>) -> nat
    decreases s.len(),
{
    if s.len() == 0 {
        0
    } else {
        line_count(s.drop_last()) + if s.last() == '\n' {
            1nat
        } else {
            0nat
        }
    }
}

/// Lines a compound value adds to one side of a difference under the limit
/// `m`: at most `m` of its own and one `# N more lines` marker.
pub open spec fn side_bound(v: JsonValue, m: u32) -> nat {
    if is_scalar(v) {
        0
    } else {
        m as nat + 1
    }
}

/// With a line limit `m`, each side of a rendered difference shows at most
/// `m` lines of a compound value and one `# N more lines` marker, the
/// expected side as well as the actual side: a change takes two lines, a
/// missing value its header line and at most `m + 1` more, a type mismatch
/// two header lines and at most `m + 1` more per side. (Each compound value
/// is taken to render to fewer than `2^32` lines.)
pub proof fn law_rendered_sides_are_truncated(
    iw: int,
    m: u32,
    ind: int,
    seg: SegmentView,
    kind: KindView,
)
    requires
        kind matches KindView::Missing(e) ==> line_count(value_lines(EXPECTED, ind + iw, iw, e))
            <= u32::MAX,
        kind matches KindView::TypeMismatch(a, _, e, _) ==> line_count(
            value_lines(EXPECTED, ind + iw, iw, e),
        ) <= u32::MAX && line_count(value_lines(ACTUAL, ind + iw, iw, a)) <= u32::MAX,
    ensures
        kind is Changed ==> line_count(leaf_lines(iw, Some(m), ind, seg, kind)) == 2,
        kind is Ambiguous ==> line_count(leaf_lines(iw, Some(m), ind, seg, kind)) == 1,
        kind matches KindView::Missing(e) ==> line_count(leaf_lines(iw, Some(m), ind, seg, kind))
            <= 1 + side_bound(e, m),
        kind matches KindView::TypeMismatch(a, _, e, _) ==> line_count(
            leaf_lines(iw, Some(m), ind, seg, kind),
        ) <= 2 + side_bound(e, m) + side_bound(a, m),
{
    let max = Some(m);
    let label = segment_label(seg);
    lemma_label_no_newline(seg);
    reveal_strlit(": ");
    reveal_strlit(" # expected: ");
    reveal_strlit(" # actual: ");
    let empty = Seq::<char>::empty();
    match kind {
        KindView::Changed(a, e) => {
            lemma_scalar_text_no_newline(e);
            lemma_scalar_text_no_newline(a);
            lemma_no_newline_cat(label, ": "@);
            lemma_no_newline_cat(label + ": "@, scalar_text(e));
            lemma_no_newline_cat(label + ": "@, scalar_text(a));
            lemma_line_count_line(EXPECTED, ind, label + ": "@ + scalar_text(e));
            lemma_line_count_line(ACTUAL, ind, label + ": "@ + scalar_text(a));
            lemma_line_count_cat(
                line(EXPECTED, ind, label + ": "@ + scalar_text(e)),
                line(ACTUAL, ind, label + ": "@ + scalar_text(a)),
            );
        },
        KindView::Missing(e) => {
            lemma_header_no_newline(label, e);
            lemma_line_count_line(EXPECTED, ind, header_text(label, e));
            let rest = if is_scalar(e) {
                empty
            } else {
                subtree_block(EXPECTED, ind + iw, iw, e, max)
            };
            if !is_scalar(e) {
                lemma_subtree_count(EXPECTED, ind + iw, iw, e, m);
            }
            lemma_line_count_cat(line(EXPECTED, ind, header_text(label, e)), rest);
        },
        KindView::TypeMismatch(a, at, e, et) => {
            let eh = header_text(label, e);
            let ah = header_text(label, a);
            lemma_header_no_newline(label, e);
            lemma_header_no_newline(label, a);
            let w = if crate::render::yaml::byte_len(eh) >= crate::render::yaml::byte_len(ah) {
                crate::render::yaml::byte_len(eh)
            } else {
                crate::render::yaml::byte_len(ah)
            };
            lemma_padded_no_newline(eh, w);
            lemma_padded_no_newline(ah, w);
            lemma_line_text_no_newline(et);
            lemma_line_text_no_newline(at);
            lemma_no_newline_cat(padded(eh, w), " # expected: "@);
            lemma_no_newline_cat(padded(eh, w) + " # expected: "@, line_text(et));
            lemma_no_newline_cat(padded(ah, w), " # actual: "@);
            lemma_no_newline_cat(padded(ah, w) + " # actual: "@, line_text(at));
            let l1 = line(EXPECTED, ind, padded(eh, w) + " # expected: "@ + line_text(et));
            let b1 = if is_scalar(e) {
                empty
            } else {
                subtree_block(EXPECTED, ind + iw, iw, e, max)
            };
            let l2 = line(ACTUAL, ind, padded(ah, w) + " # actual: "@ + line_text(at));
            let b2 = if is_scalar(a) {
                empty
            } else {
                subtree_block(ACTUAL, ind + iw, iw, a, max)
            };
            lemma_line_count_line(EXPECTED, ind, padded(eh, w) + " # expected: "@ + line_text(et));
            lemma_line_count_line(ACTUAL, ind, padded(ah, w) + " # actual: "@ + line_text(at));
            if !is_scalar(e) {
                lemma_subtree_count(EXPECTED, ind + iw, iw, e, m);
            }
            if !is_scalar(a) {
                lemma_subtree_count(ACTUAL, ind + iw, iw, a, m);
            }
            lemma_line_count_cat(l1, b1);
            lemma_line_count_cat(l1 + b1, l2);
            lemma_line_count_cat(l1 + b1 + l2, b2);
        },
        KindView::Ambiguous(n) => {
            reveal_strlit("# ambiguous match, best of ");
            reveal_strlit(" candidates");
            lemma_decimal_no_newline(n as nat);
            lemma_no_newline_cat("# ambiguous match, best of "@, decimal(n as nat));
            lemma_no_newline_cat("# ambiguous match, best of "@ + decimal(n as nat), " candidates"@);
            lemma_line_count_line(CONTEXT, ind, ambiguity_text(n));
        },
    }
}

proof fn lemma_line_count_cat(a: Seq<char>, b: Seq<char>)
    ensures
        line_count(a + b) == line_count(a) + line_count(b),
    decreases b.len(),
{
    if b.len() > 0 {
        lemma_line_count_cat(a, b.drop_last());
        assert((a + b).drop_last() =~= a + b.drop_last());
        assert((a + b).last() == b.last());
    } else {
        assert(a + b =~= a);
    }
}

proof fn lemma_line_count_no_newline(s: Seq<char>)
    requires
        no_newline(s),
    ensures
        line_count(s) == 0,
    decreases s.len(),
{
    if s.len() > 0 {
        assert(no_newline(s.drop_last())) by {
            assert forall|i: int| 0 <= i < s.drop_last().len() implies #[trigger] s.drop_last()[i]
                != '\n' by {
                assert(s.drop_last()[i] == s[i]);
            }
        }
        lemma_line_count_no_newline(s.drop_last());
        assert(s.last() == s[s.len() - 1]);
    }
}

proof fn lemma_line_count_line(p: char, ind: int, content: Seq<char>)
    requires
        is_indicator(p),
        no_newline(content),
    ensures
        line_count(line(p, ind, content)) == 1,
{
    let body = seq![p] + spaces(ind as nat) + content;
    assert forall|k: int| 0 <= k < body.len() implies #[trigger] body[k] != '\n' by {
        if k >= 1 + spaces(ind as nat).len() {
            assert(body[k] == content[k - 1 - spaces(ind as nat).len()]);
        } else if k >= 1 {
            assert(body[k] == spaces(ind as nat)[k - 1]);
        }
    }
    lemma_line_count_no_newline(body);
    let s = line(p, ind, content);
    assert(s =~= body + seq!['\n']);
    assert(s.drop_last() =~= body);
}

proof fn lemma_line_count_join(ls: Seq<Seq<char>>)
    requires
        forall|k: int| 0 <= k < ls.len() ==> no_newline(#[trigger] ls[k]),
    ensures
        line_count(join_lines(ls)) == ls.len(),
    decreases ls.len(),
{
    if ls.len() > 0 {
        let init = ls.drop_last();
        assert forall|k: int| 0 <= k < init.len() implies no_newline(#[trigger] init[k]) by {
            assert(init[k] == ls[k]);
        }
        lemma_line_count_join(init);
        assert(no_newline(ls[ls.len() - 1]));
        lemma_line_count_no_newline(ls.last());
        lemma_line_count_cat(join_lines(init), ls.last());
        assert(seq!['\n'].drop_last() =~= Seq::<char>::empty());
        assert(line_count(Seq::<char>::empty()) == 0);
        assert(line_count(seq!['\n']) == 1);
        lemma_line_count_cat(join_lines(init) + ls.last(), seq!['\n']);
        assert(join_lines(ls) == join_lines(init) + ls.last() + seq!['\n']);
    }
}

proof fn lemma_line_count_scan(s: Seq<char>)
    ensures
        line_count(s) == scan_lines(s).0.len(),
        s.len() > 0 && s.last() == '\n' ==> scan_lines(s).1.len() == 0,
    decreases s.len(),
{
    if s.len() > 0 {
        lemma_line_count_scan(s.drop_last());
    }
}

proof fn lemma_subtree_count(p: char, ind: int, iw: int, v: JsonValue, m: u32)
    requires
        is_indicator(p),
        line_count(value_lines(p, ind, iw, v)) <= u32::MAX,
    ensures
        line_count(subtree_block(p, ind, iw, v, Some(m))) <= m + 1,
{
    lemma_value_lines(p, ind, iw, v);
    lemma_truncated_count(p, ind, value_lines(p, ind, iw, v), m);
}

proof fn lemma_truncated_count(p: char, ind: int, body: Seq<char>, m: u32)
    requires
        is_indicator(p),
        indicator_lines(body),
        line_count(body) <= u32::MAX,
    ensures
        line_count(truncated_block(p, ind, body, Some(m))) <= m + 1,
{
    let ls = text_lines(body);
    lemma_line_count_scan(body);
    assert(ls.len() == line_count(body));
    assert((ls.len() as u32) as int == ls.len());
    if ls.len() > m {
        lemma_text_lines(body);
        lemma_truncated_lines_count(p, ind, ls, m);
    }
}

proof fn lemma_truncated_lines_count(p: char, ind: int, ls: Seq<Seq<char>>, m: u32)
    requires
        is_indicator(p),
        m < ls.len(),
        forall|k: int| 0 <= k < ls.len() ==> line_ok(#[trigger] ls[k]),
    ensures
        forall|r: nat| line_count(join_lines(ls.take(m as int)) + line(p, ind, more_lines_text(r))) == m + 1,
{
    let head = ls.take(m as int);
    assert forall|k: int| 0 <= k < head.len() implies no_newline(#[trigger] head[k]) by {
        assert(head[k] == ls[k]);
        assert(line_ok(ls[k]));
    }
    lemma_line_count_join(head);
    assert forall|r: nat| line_count(join_lines(head) + line(p, ind, more_lines_text(r))) == m + 1 by {
        reveal_strlit("# ");
        reveal_strlit(" more lines");
        lemma_decimal_no_newline(r);
        lemma_no_newline_cat("# "@, decimal(r));
        lemma_no_newline_cat("# "@ + decimal(r), " more lines"@);
        lemma_line_count_line(p, ind, more_lines_text(r));
        lemma_line_count_cat(join_lines(head), line(p, ind, more_lines_text(r)));
    }
}

} // verus!
