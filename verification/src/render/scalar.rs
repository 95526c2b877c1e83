//! YAML scalars: which strings need quoting, and how a scalar is written.

use vstd::prelude::*;
use crate::text::{chars_of, push_char, push_chars, push_str, str_equal, string_of};
use crate::value::{JsonValue, Value, is_scalar};

verus! {

/// An ASCII decimal digit.
pub open spec fn is_digit(c: char) -> bool {
    '0' <= c && c <= '9'
}

/// A sign character.
pub open spec fn is_sign(c: char) -> bool {
    c == '+' || c == '-'
}

/// The exponent marker of a decimal number, in either case.
pub open spec fn is_exp_mark(c: char) -> bool {
    c == 'e' || c == 'E'
}

/// The ASCII lower-case form of `c`; other characters are unchanged.
pub open spec fn ascii_lower(c: char) -> char {
    if c == 'A' {
        'a'
    } else if c == 'B' {
        'b'
    } else if c == 'C' {
        'c'
    } else if c == 'D' {
        'd'
    } else if c == 'E' {
        'e'
    } else if c == 'F' {
        'f'
    } else if c == 'G' {
        'g'
    } else if c == 'H' {
        'h'
    } else if c == 'I' {
        'i'
    } else if c == 'J' {
        'j'
    } else if c == 'K' {
        'k'
    } else if c == 'L' {
        'l'
    } else if c == 'M' {
        'm'
    } else if c == 'N' {
        'n'
    } else if c == 'O' {
        'o'
    } else if c == 'P' {
        'p'
    } else if c == 'Q' {
        'q'
    } else if c == 'R' {
        'r'
    } else if c == 'S' {
        's'
    } else if c == 'T' {
        't'
    } else if c == 'U' {
        'u'
    } else if c == 'V' {
        'v'
    } else if c == 'W' {
        'w'
    } else if c == 'X' {
        'x'
    } else if c == 'Y' {
        'y'
    } else if c == 'Z' {
        'z'
    } else {
        c
    }
}

/// `s` spells the lower-case ASCII word `w`, ignoring ASCII case.
pub open spec fn word_ci(s: Seq<char>, w: Seq<char>) -> bool {
    s.len() == w.len() && forall|i: int| 0 <= i < s.len() ==> ascii_lower(#[trigger] s[i]) == w[i]
}

/// Digits with at most one decimal point, holding at least one digit
/// (`1`, `1.`, `.5`, `1.5`).
pub open spec fn is_mantissa(m: Seq<char>) -> bool {
    &&& forall|i: int| 0 <= i < m.len() ==> is_digit(#[trigger] m[i]) || m[i] == '.'
    &&& exists|i: int| 0 <= i < m.len() && is_digit(#[trigger] m[i])
    &&& forall|i: int, j: int| 0 <= i < j < m.len() && #[trigger] m[i] == '.' ==> #[trigger] m[j] != '.'
}

/// `x` without its leading sign, if it has one.
pub open spec fn unsigned_part(x: Seq<char>) -> Seq<char> {
    if x.len() > 0 && is_sign(x[0]) {
        x.drop_first()
    } else {
        x
    }
}

/// Every character of `d` is a digit.
pub open spec fn all_digits(d: Seq<char>) -> bool {
    forall|i: int| 0 <= i < d.len() ==> is_digit(#[trigger] d[i])
}

/// What follows an exponent marker: an optional sign, then one or more digits.
pub open spec fn is_exponent(x: Seq<char>) -> bool {
    unsigned_part(x).len() > 0 && all_digits(unsigned_part(x))
}

/// A mantissa, optionally followed by an exponent marker and an exponent.
pub open spec fn is_decimal_number(b: Seq<char>) -> bool {
    ||| is_mantissa(b)
    ||| exists|k: int|
        0 <= k < b.len() && is_exp_mark(b[k]) && #[trigger] is_mantissa(b.take(k)) && is_exponent(
            b.skip(k + 1),
        )
}

/// Whether std's `str::parse::<f64>` accepts `s`: its documented grammar is an
/// optional sign followed by `inf`, `infinity`, `nan` (in any ASCII case) or a
/// decimal number.
pub open spec fn parses_as_float(s: Seq<char>) -> bool {
    let b = unsigned_part(s);
    word_ci(b, "inf"@) || word_ci(b, "infinity"@) || word_ci(b, "nan"@) || is_decimal_number(b)
}

/// The words YAML reads as booleans or null.
pub open spec fn is_special_word(s: Seq<char>) -> bool {
    ||| s == "true"@
    ||| s == "false"@
    ||| s == "null"@
    ||| s == "yes"@
    ||| s == "no"@
    ||| s == "on"@
    ||| s == "off"@
    ||| s == "True"@
    ||| s == "False"@
    ||| s == "Null"@
    ||| s == "Yes"@
    ||| s == "No"@
    ||| s == "On"@
    ||| s == "Off"@
    ||| s == "TRUE"@
    ||| s == "FALSE"@
    ||| s == "NULL"@
    ||| s == "YES"@
    ||| s == "NO"@
    ||| s == "ON"@
    ||| s == "OFF"@
}

/// A first character that YAML gives a meaning of its own.
pub open spec fn is_indicator_start(c: char) -> bool {
    c == ' ' || c == '{' || c == '[' || c == '*' || c == '&' || c == '!' || c == '|' || c == '>'
}

/// Whether a string must be quoted to be read back as a string.
pub open spec fn needs_quoting(s: Seq<char>) -> bool {
    ||| s.len() == 0
    ||| is_special_word(s)
    ||| parses_as_float(s)
    ||| s.contains(':')
    ||| s.contains('#')
    ||| s.contains('\n')
    ||| s.contains('\r')
    ||| (s.len() > 0 && (is_indicator_start(s[0]) || s.last() == ' '))
}

/// The escape of one character inside double quotes: a backslash, a double
/// quote, a line feed (`\n`) or a carriage return (`\r`).
pub open spec fn escape_char(c: char) -> Seq<char> {
    if c == '\\' {
        seq!['\\', '\\']
    } else if c == '"' {
        seq!['\\', '"']
    } else if c == '\n' {
        seq!['\\', 'n']
    } else if c == '\r' {
        seq!['\\', 'r']
    } else {
        seq![c]
    }
}

/// `s` with backslashes, double quotes and line breaks escaped.
pub open spec fn escaped(s: Seq<char>) -> Seq<char>
    decreases s.len(),
{
    if s.len() == 0 {
        Seq::empty()
    } else {
        escaped(s.drop_last()) + escape_char(s.last())
    }
}

/// A string as a YAML scalar: quoted and escaped where it needs quoting.
pub open spec fn string_text(s: Seq<char>) -> Seq<char> {
    if needs_quoting(s) {
        seq!['"'] + escaped(s) + seq!['"']
    } else {
        s
    }
}

/// `s` breaks a line: it holds a line feed or a carriage return.
pub open spec fn has_line_break(s: Seq<char>) -> bool {
    s.contains('\n') || s.contains('\r')
}

/// Text taken from the data (a key, a matched value, a number's display
/// form, a type name) as it is written on a line: quoted and escaped when it
/// breaks a line, so that it stays on one line; otherwise as it is.
pub open spec fn line_text(s: Seq<char>) -> Seq<char> {
    if has_line_break(s) {
        seq!['"'] + escaped(s) + seq!['"']
    } else {
        s
    }
}

/// A scalar value as YAML text.
pub open spec fn scalar_text(v: JsonValue) -> Seq<char> {
    match v {
        JsonValue::Null => "null"@,
        JsonValue::Bool(b) => if b {
            "true"@
        } else {
            "false"@
        },
        JsonValue::Number(repr, _) => line_text(repr),
        JsonValue::Str(s) => string_text(s),
        _ => Seq::empty(),
    }
}

/// Whether `cs[lo..hi]` is a mantissa.
fn mantissa_ok(cs: &Vec<char>, lo: usize, hi: usize) -> (r: bool)
    requires
        lo <= hi <= cs@.len(),
    ensures
        r == is_mantissa(cs@.subrange(lo as int, hi as int)),
{
    let ghost m = cs@.subrange(lo as int, hi as int);
    let mut i: usize = lo;
    let mut digit_seen = false;
    let mut dot_seen = false;
    let mut dot_at: usize = lo;
    while i < hi
        invariant
            lo <= i <= hi <= cs@.len(),
            m == cs@.subrange(lo as int, hi as int),
            forall|j: int| 0 <= j < i - lo ==> is_digit(#[trigger] m[j]) || m[j] == '.',
            digit_seen <==> exists|j: int| 0 <= j < i - lo && is_digit(#[trigger] m[j]),
            dot_seen ==> lo <= dot_at < i && m[dot_at - lo] == '.',
            !dot_seen ==> forall|j: int| 0 <= j < i - lo ==> #[trigger] m[j] != '.',
            forall|a: int, b: int|
                0 <= a < b < i - lo && #[trigger] m[a] == '.' ==> #[trigger] m[b] != '.',
        decreases hi - i,
    {
        let c = cs[i];
        assert(m[i - lo] == c);
        if c >= '0' && c <= '9' {
            digit_seen = true;
        } else if c == '.' {
            if dot_seen {
                assert(m[dot_at - lo] == '.' && m[i - lo] == '.');
                return false;
            }
            dot_seen = true;
            dot_at = i;
        } else {
            assert(!(is_digit(m[i - lo]) || m[i - lo] == '.'));
            return false;
        }
        i = i + 1;
    }
    digit_seen
}

/// Whether `cs[lo..hi]` is an exponent.
fn exponent_ok(cs: &Vec<char>, lo: usize, hi: usize) -> (r: bool)
    requires
        lo <= hi <= cs@.len(),
    ensures
        r == is_exponent(cs@.subrange(lo as int, hi as int)),
{
    let ghost x = cs@.subrange(lo as int, hi as int);
    let start: usize = if lo < hi && (cs[lo] == '+' || cs[lo] == '-') {
        lo + 1
    } else {
        lo
    };
    let ghost d = cs@.subrange(start as int, hi as int);
    assert(lo < hi ==> x[0] == cs@[lo as int]);
    assert(start == hi ==> d.len() == 0);
    assert(d =~= unsigned_part(x));
    if start == hi {
        return false;
    }
    let mut i: usize = start;
    while i < hi
        invariant
            start <= i <= hi <= cs@.len(),
            d == cs@.subrange(start as int, hi as int),
            x == cs@.subrange(lo as int, hi as int),
            d == unsigned_part(x),
            forall|j: int| 0 <= j < i - start ==> is_digit(#[trigger] d[j]),
        decreases hi - i,
    {
        let c = cs[i];
        assert(d[i - start] == c);
        if !(c >= '0' && c <= '9') {
            assert(!is_digit(d[i - start]));
            return false;
        }
        i = i + 1;
    }
    true
}

/// The ASCII lower-case form of `c`.
fn to_lower(c: char) -> (r: char)
    ensures
        r == ascii_lower(c),
{
    if c == 'A' {
        'a'
    } else if c == 'B' {
        'b'
    } else if c == 'C' {
        'c'
    } else if c == 'D' {
        'd'
    } else if c == 'E' {
        'e'
    } else if c == 'F' {
        'f'
    } else if c == 'G' {
        'g'
    } else if c == 'H' {
        'h'
    } else if c == 'I' {
        'i'
    } else if c == 'J' {
        'j'
    } else if c == 'K' {
        'k'
    } else if c == 'L' {
        'l'
    } else if c == 'M' {
        'm'
    } else if c == 'N' {
        'n'
    } else if c == 'O' {
        'o'
    } else if c == 'P' {
        'p'
    } else if c == 'Q' {
        'q'
    } else if c == 'R' {
        'r'
    } else if c == 'S' {
        's'
    } else if c == 'T' {
        't'
    } else if c == 'U' {
        'u'
    } else if c == 'V' {
        'v'
    } else if c == 'W' {
        'w'
    } else if c == 'X' {
        'x'
    } else if c == 'Y' {
        'y'
    } else if c == 'Z' {
        'z'
    } else {
        c
    }
}

/// Whether `cs[lo..]` spells the lower-case ASCII word `w`, ignoring case.
fn word_ci_at(cs: &Vec<char>, lo: usize, w: &str) -> (r: bool)
    requires
        lo <= cs@.len(),
    ensures
        r == word_ci(cs@.subrange(lo as int, cs@.len() as int), w@),
{
    let ghost s = cs@.subrange(lo as int, cs@.len() as int);
    let wc = chars_of(w);
    let n = cs.len();
    if n - lo != wc.len() {
        return false;
    }
    let mut i: usize = 0;
    while i < wc.len()
        invariant
            wc@ == w@,
            n == cs@.len(),
            lo <= cs@.len(),
            cs@.len() - lo == wc@.len(),
            s == cs@.subrange(lo as int, cs@.len() as int),
            s.len() == wc@.len(),
            i <= wc@.len(),
            forall|j: int| 0 <= j < i ==> ascii_lower(#[trigger] s[j]) == wc@[j],
        decreases wc@.len() - i,
    {
        assert(lo + i < cs@.len());
        let c = cs[lo + i];
        let l = wc[i];
        assert(s[i as int] == c);
        if to_lower(c) != l {
            return false;
        }
        i = i + 1;
    }
    true
}

/// Whether `cs` parses as a floating-point number (see [`parses_as_float`]).
fn looks_like_float(cs: &Vec<char>) -> (r: bool)
    ensures
        r == parses_as_float(cs@),
{
    let n = cs.len();
    let start: usize = if n > 0 && (cs[0] == '+' || cs[0] == '-') {
        1
    } else {
        0
    };
    let ghost b = cs@.subrange(start as int, n as int);
    assert(b =~= unsigned_part(cs@));
    if word_ci_at(cs, start, "inf") || word_ci_at(cs, start, "infinity") || word_ci_at(
        cs,
        start,
        "nan",
    ) {
        return true;
    }
    let mut k: usize = start;
    while k < n && !(cs[k] == 'e' || cs[k] == 'E')
        invariant
            start <= k <= n,
            n == cs@.len(),
            forall|j: int| start <= j < k ==> !is_exp_mark(#[trigger] cs@[j]),
        decreases n - k,
    {
        k = k + 1;
    }
    let ghost kk = k - start;
    if k == n {
        let r = mantissa_ok(cs, start, n);
        proof {
            assert forall|k2: int|
                0 <= k2 < b.len() && is_exp_mark(b[k2]) implies !(#[trigger] is_mantissa(
                b.take(k2),
            ) && is_exponent(b.skip(k2 + 1))) by {
                assert(b[k2] == cs@[start + k2]);
            }
        }
        r
    } else {
        let r = mantissa_ok(cs, start, k) && exponent_ok(cs, k + 1, n);
        proof {
            assert(b[kk] == cs@[k as int]);
            assert(b.take(kk) =~= cs@.subrange(start as int, k as int));
            assert(b.skip(kk + 1) =~= cs@.subrange(k + 1, n as int));
            assert(!is_mantissa(b)) by {
                assert(!(is_digit(b[kk]) || b[kk] == '.'));
            }
            if exists|k2: int|
                0 <= k2 < b.len() && is_exp_mark(b[k2]) && #[trigger] is_mantissa(b.take(k2))
                    && is_exponent(b.skip(k2 + 1)) {
                let k2 = choose|k2: int|
                    0 <= k2 < b.len() && is_exp_mark(b[k2]) && #[trigger] is_mantissa(b.take(k2))
                        && is_exponent(b.skip(k2 + 1));
                if k2 > kk {
                    assert(b.take(k2)[kk] == b[kk]);
                    assert(!(is_digit(b.take(k2)[kk]) || b.take(k2)[kk] == '.'));
                } else if k2 < kk {
                    assert(b[k2] == cs@[start + k2]);
                }
                assert(k2 == kk);
            }
        }
        r
    }
}

/// Whether `cs` holds the character `c`.
fn has_char(cs: &Vec<char>, c: char) -> (r: bool)
    ensures
        r == cs@.contains(c),
{
    let mut i: usize = 0;
    while i < cs.len()
        invariant
            i <= cs@.len(),
            forall|j: int| 0 <= j < i ==> cs@[j] != c,
        decreases cs@.len() - i,
    {
        if cs[i] == c {
            return true;
        }
        i = i + 1;
    }
    false
}

/// Whether `s` is one of the words YAML reads as booleans or null.
fn is_special(s: &str) -> (r: bool)
    ensures
        r == is_special_word(s@),
{
    str_equal(s, "true") || str_equal(s, "false") || str_equal(s, "null") || str_equal(s, "yes")
        || str_equal(s, "no") || str_equal(s, "on") || str_equal(s, "off") || str_equal(s, "True")
        || str_equal(s, "False") || str_equal(s, "Null") || str_equal(s, "Yes") || str_equal(
        s,
        "No",
    ) || str_equal(s, "On") || str_equal(s, "Off") || str_equal(s, "TRUE") || str_equal(
        s,
        "FALSE",
    ) || str_equal(s, "NULL") || str_equal(s, "YES") || str_equal(s, "NO") || str_equal(s, "ON")
        || str_equal(s, "OFF")
}

/// Returns true if a string needs quoting in YAML: it is empty, reads as a
/// boolean, null or number, holds `:`, `#` or a line break, starts or ends with
/// a space, or starts with one of `{ [ * & ! | >`.
pub fn needs_yaml_quoting(s: &str) -> (r: bool)
    ensures
        r == needs_quoting(s@),
{
    let cs = chars_of(s);
    if cs.len() == 0 {
        return true;
    }
    if is_special(s) {
        return true;
    }
    if looks_like_float(&cs) {
        return true;
    }
    let first = cs[0];
    let last = cs[cs.len() - 1];
    has_char(&cs, ':') || has_char(&cs, '#') || has_char(&cs, '\n') || has_char(&cs, '\r')
        || first == ' ' || last == ' '
        || first == '{' || first == '[' || first == '*' || first == '&' || first == '!' || first
        == '|' || first == '>'
}

/// Appends `s` with backslashes, double quotes and line breaks escaped.
fn push_escaped(out: &mut String, s: &str)
    ensures
        final(out)@ == old(out)@ + escaped(s@),
{
    let cs = chars_of(s);
    let ghost start = out@;
    let mut i: usize = 0;
    assert(cs@.take(0) =~= Seq::<char>::empty());
    while i < cs.len()
        invariant
            cs@ == s@,
            i <= cs@.len(),
            out@ == start + escaped(cs@.take(i as int)),
        decreases cs@.len() - i,
    {
        let c = cs[i];
        assert(cs@.take(i + 1).drop_last() =~= cs@.take(i as int));
        assert(cs@.take(i + 1).last() == c);
        if c == '\\' {
            push_char(out, '\\');
            push_char(out, '\\');
        } else if c == '"' {
            push_char(out, '\\');
            push_char(out, '"');
        } else if c == '\n' {
            push_char(out, '\\');
            push_char(out, 'n');
        } else if c == '\r' {
            push_char(out, '\\');
            push_char(out, 'r');
        } else {
            push_char(out, c);
        }
        assert(out@ =~= start + escaped(cs@.take(i + 1)));
        i = i + 1;
    }
    assert(cs@.take(cs@.len() as int) =~= cs@);
}

/// Formats text taken from the data so that it stays on one line (see
/// [`line_text`]).
pub fn format_line_text(s: &str) -> (r: String)
    ensures
        r@ == line_text(s@),
{
    let cs = chars_of(s);
    if has_char(&cs, '\n') || has_char(&cs, '\r') {
        let mut out = String::new();
        push_char(&mut out, '"');
        push_escaped(&mut out, s);
        push_char(&mut out, '"');
        assert(out@ =~= seq!['"'] + escaped(s@) + seq!['"']);
        out
    } else {
        string_of(s)
    }
}

/// Formats a scalar value as YAML text: `null`, `true`/`false`, the number's
/// display form, or the string (quoted and escaped where it needs quoting).
pub fn format_scalar(value: &Value) -> (r: String)
    requires
        is_scalar(value@),
    ensures
        r@ == scalar_text(value@),
{
    match value {
        Value::Null => string_of("null"),
        Value::Bool(b) => if *b {
            string_of("true")
        } else {
            string_of("false")
        },
        Value::Number(n) => {
            let d = n.to_display();
            format_line_text(d.as_str())
        },
        Value::String(s) => {
            if needs_yaml_quoting(s.as_str()) {
                let mut out = String::new();
                push_char(&mut out, '"');
                push_escaped(&mut out, s.as_str());
                push_char(&mut out, '"');
                assert(out@ =~= seq!['"'] + escaped(s@) + seq!['"']);
                out
            } else {
                s.clone()
            }
        },
        _ => String::new(),
    }
}

/// A string is never written the way a boolean or null is: the words YAML
/// reads as `true`, `false` or `null` come out quoted, so the rendered text
/// of a string differs from that of every boolean and of null.
pub proof fn law_strings_never_read_as_booleans_or_null(s: Seq<char>, b: bool)
    ensures
        scalar_text(JsonValue::Str(s)) != scalar_text(JsonValue::Bool(b)),
        scalar_text(JsonValue::Str(s)) != scalar_text(JsonValue::Null),
{
    reveal_strlit("true");
    reveal_strlit("false");
    reveal_strlit("null");
    let t = scalar_text(JsonValue::Str(s));
    if needs_quoting(s) {
        assert(t[0] == '"');
        assert(t[0] != "true"@[0]);
        assert(t[0] != "false"@[0]);
        assert(t[0] != "null"@[0]);
    } else {
        assert(t == s);
        assert(!is_special_word(s));
    }
}

} // verus!
