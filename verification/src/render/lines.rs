//! Lines of rendered output: writing one line, splitting text into lines, and
//! truncating long blocks.

use vstd::prelude::*;
use crate::text::{chars_of, decimal, push_char, push_chars, push_decimal, push_str, string_of};

verus! {

/// `n` spaces.
pub open spec fn spaces(n: nat) -> Seq<char> {
    Seq::new(n, |i: int| ' ')
}

/// One output line: the indicator, `indent` spaces, the content, a newline.
pub open spec fn line(prefix: char, indent: int, content: Seq<char>) -> Seq<char> {
    seq![prefix] + spaces(indent as nat) + content + seq!['\n']
}

/// Pushes a single line to the output with the given prefix and indentation.
pub fn push_line(output: &mut String, prefix: char, indent: u16, content: &str)
    ensures
        final(output)@ == old(output)@ + line(prefix, indent as int, content@),
{
    let ghost start = output@;
    push_char(output, prefix);
    let mut i: u16 = 0;
    assert(spaces(0) =~= Seq::<char>::empty());
    while i < indent
        invariant
            i <= indent,
            output@ == start + seq![prefix] + spaces(i as nat),
        decreases indent - i,
    {
        push_char(output, ' ');
        assert(spaces((i + 1) as nat) =~= spaces(i as nat).push(' '));
        i = i + 1;
    }
    push_str(output, content);
    push_char(output, '\n');
    assert(output@ =~= start + line(prefix, indent as int, content@));
}

/// `l` without one trailing carriage return.
pub open spec fn strip_cr(l: Seq<char>) -> Seq<char> {
    if l.len() > 0 && l.last() == '\r' {
        l.drop_last()
    } else {
        l
    }
}

/// Reading `s` from the start: the lines ended so far, and the unfinished one.
pub open spec fn scan_lines(s: Seq<char>) -> (Seq<Seq<char>>, Seq<char>)
    decreases s.len(),
{
    if s.len() == 0 {
        (Seq::empty(), Seq::empty())
    } else {
        let prev = scan_lines(s.drop_last());
        if s.last() == '\n' {
            (prev.0.push(strip_cr(prev.1)), Seq::empty())
        } else {
            (prev.0, prev.1.push(s.last()))
        }
    }
}

/// The lines of `s` as std's `str::lines` yields them: split at each `\n`, a
/// `\r` right before a `\n` dropped, and no empty line after a final `\n`.
pub open spec fn text_lines(s: Seq<char>) -> Seq<Seq<char>> {
    let sc = scan_lines(s);
    if sc.1.len() == 0 {
        sc.0
    } else {
        sc.0.push(sc.1)
    }
}

/// The character sequences held by some strings.
pub open spec fn strings_view(v: Seq<String>) -> Seq<Seq<char>> {
    Seq::new(v.len(), |i: int| v[i]@)
}

/// The lines of `s` (see [`text_lines`]).
fn split_lines(s: &String) -> (r: Vec<String>)
    ensures
        strings_view(r@) == text_lines(s@),
{
    let cs = chars_of(s.as_str());
    let mut done: Vec<String> = Vec::new();
    let mut cur: Vec<char> = Vec::new();
    let mut i: usize = 0;
    assert(cs@.take(0) =~= Seq::<char>::empty());
    assert(strings_view(done@) =~= Seq::<Seq<char>>::empty());
    while i < cs.len()
        invariant
            cs@ == s@,
            i <= cs@.len(),
            strings_view(done@) == scan_lines(cs@.take(i as int)).0,
            cur@ == scan_lines(cs@.take(i as int)).1,
        decreases cs@.len() - i,
    {
        let c = cs[i];
        assert(cs@.take(i + 1).drop_last() =~= cs@.take(i as int));
        assert(cs@.take(i + 1).last() == c);
        if c == '\n' {
            let mut l = cur;
            cur = Vec::new();
            let n = l.len();
            if n > 0 && l[n - 1] == '\r' {
                let _ = l.pop();
                assert(l@ =~= strip_cr(scan_lines(cs@.take(i as int)).1));
            }
            let mut st = String::new();
            push_chars(&mut st, &l);
            let ghost before = done@;
            done.push(st);
            assert(strings_view(done@) =~= strings_view(before).push(st@));
            assert(cur@ =~= Seq::<char>::empty());
        } else {
            cur.push(c);
        }
        i = i + 1;
    }
    assert(cs@.take(cs@.len() as int) =~= cs@);
    if cur.len() > 0 {
        let mut st = String::new();
        push_chars(&mut st, &cur);
        let ghost before = done@;
        done.push(st);
        assert(strings_view(done@) =~= strings_view(before).push(st@));
    }
    done
}

/// The lines joined, each followed by a newline.
pub open spec fn join_lines(ls: Seq<Seq<char>>) -> Seq<char>
    decreases ls.len(),
{
    if ls.len() == 0 {
        Seq::empty()
    } else {
        join_lines(ls.drop_last()) + ls.last() + seq!['\n']
    }
}

/// The text of the truncation marker.
pub open spec fn more_lines_text(remaining: nat) -> Seq<char> {
    "# "@ + decimal(remaining) + " more lines"@
}

/// A rendered block limited to `max` lines: when it has more, its first `max`
/// lines are kept and a `# N more lines` marker with the given prefix and
/// indentation follows.
pub open spec fn truncated_block(prefix: char, indent: int, body: Seq<char>, max: Option<u32>) -> Seq<
    char,
> {
    match max {
        None => body,
        Some(m) => {
            let ls = text_lines(body);
            let total = (ls.len() as u32) as int;
            if total <= m {
                body
            } else {
                join_lines(ls.take(m as int)) + line(
                    prefix,
                    indent,
                    more_lines_text((total - m) as nat),
                )
            }
        },
    }
}

/// Appends `body`, limited to `max` lines (see [`truncated_block`]).
pub fn push_truncated(output: &mut String, prefix: char, indent: u16, body: &String, max: Option<u32>)
    ensures
        final(output)@ == old(output)@ + truncated_block(prefix, indent as int, body@, max),
{
    match max {
        None => {
            push_str(output, body.as_str());
        },
        Some(m) => {
            let lines = split_lines(body);
            let ghost ls = text_lines(body@);
            let n = lines.len();
            let total = n as u32;
            if total <= m {
                push_str(output, body.as_str());
            } else {
                assert((n as u32) <= n) by (bit_vector);
                let ghost start = output@;
                let mut i: usize = 0;
                assert(ls.take(0) =~= Seq::<Seq<char>>::empty());
                while i < m as usize
                    invariant
                        i <= m,
                        m < total,
                        total <= n,
                        n == lines@.len(),
                        strings_view(lines@) == ls,
                        output@ == start + join_lines(ls.take(i as int)),
                    decreases m - i,
                {
                    assert(ls.take(i + 1).drop_last() =~= ls.take(i as int));
                    assert(ls.take(i + 1).last() == lines@[i as int]@);
                    push_str(output, lines[i].as_str());
                    push_char(output, '\n');
                    assert(output@ =~= start + join_lines(ls.take(i + 1)));
                    i = i + 1;
                }
                let remaining = total - m;
                let mut marker = string_of("# ");
                push_decimal(&mut marker, remaining as u64);
                push_str(&mut marker, " more lines");
                push_line(output, prefix, indent, marker.as_str());
                assert(marker@ =~= more_lines_text(remaining as nat));
            }
        },
    }
}

} // verus!
