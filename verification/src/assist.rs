//! Editing assistance around the cursor: where it is, what it is on, previews of
//! chunks, and jumps to lines.

use vstd::prelude::*;
use crate::blocks::{is_boundary, lines_bytes, lemma_utf8_len_range, lemma_utf8_len_ge_len};
use crate::doc::{extract_headings, headings_of, headings_view, lemma_lines_from_bounds};
use crate::label::{
    char_at_byte, char_index_of_byte, find_char, find_char_exec, labels_view,
    lemma_char_at_byte_found, parse_labels, parse_semantic_labels, LabelView, SemanticLabel,
};
use crate::text::{
    byte_len, char_len_utf8, char_width, chars_of, decimal, line_bounds, lines_from, next_line,
    num_lines, push_chars, push_decimal, push_str, string_of, string_push, trim, trim_bounds,
    utf8_len, lemma_utf8_len_step, lowercase_of, to_lowercase,
};
use crate::template::{contains_seq, contains_str};
use crate::label::{LabelType, LabelTypeView, types_view};

verus! {

// ── Cursor ──

/// Byte offset of the character at index `c` of `s`, or the length of `s` in bytes
/// past its end.
pub open spec fn cursor_byte_of(s: Seq<char>, c: int) -> nat {
    utf8_len(s.take(if c < s.len() { c } else { s.len() as int }))
}

/// Byte offset of the cursor at character index `c_idx` (the text's length past its end).
pub fn cursor_byte(text: &str, c_idx: usize) -> (r: usize)
    ensures
        r == cursor_byte_of(text@, c_idx as int),
{
    let v = chars_of(text);
    let total = byte_len(text);
    let p = if c_idx < v.len() { c_idx } else { v.len() };
    let mut acc: usize = 0;
    let mut i: usize = 0;
    proof {
        assert(v@.take(0) =~= Seq::<char>::empty());
    }
    while i < p
        invariant
            i <= p <= v@.len(),
            v@ == text@,
            total == utf8_len(v@),
            acc == utf8_len(v@.take(i as int)),
        decreases p - i,
    {
        proof {
            lemma_utf8_len_step(v@, i as int);
            lemma_utf8_len_range(v@, i + 1, v@.len() as int);
        }
        acc = acc + char_len_utf8(v[i]);
        i += 1;
    }
    acc
}

/// Line number (from 1) of the cursor at character index `c_idx`: one more than the
/// number of lines of the text before it.
pub fn cursor_line(text: &str, c_idx: usize) -> (r: usize)
    requires
        text@.len() < usize::MAX,
    ensures
        r == num_lines(text@.take(if c_idx < text@.len() { c_idx as int } else { text@.len() as int })) + 1,
{
    let v = chars_of(text);
    let p = if c_idx < v.len() { c_idx } else { v.len() };
    let mut lines: usize = 0;
    let mut i: usize = 0;
    proof {
        assert(v@.take(0) =~= Seq::<char>::empty());
    }
    while i < p
        invariant
            i <= p <= v@.len(),
            v@ == text@,
            v@.len() < usize::MAX,
            lines == num_lines(v@.take(i as int)),
            lines <= i,
        decreases p - i,
    {
        proof {
            let t = v@.take(i + 1);
            assert(t.drop_last() =~= v@.take(i as int));
            if i > 0 {
                assert(t[t.len() - 2] == v@[i - 1]);
            }
        }
        if i == 0 || v[i - 1] == '\n' {
            lines += 1;
        }
        i += 1;
    }
    lines + 1
}

/// Index of the first label from the `i`-th on whose byte range holds `c` (ends
/// included).
pub open spec fn label_at_from(ls: Seq<LabelView>, i: int, c: int) -> Option<int>
    decreases ls.len() - i,
{
    if i < 0 || i >= ls.len() {
        None
    } else if ls[i].start_byte <= c <= ls[i].end_byte {
        Some(i)
    } else {
        label_at_from(ls, i + 1, c)
    }
}

/// The first label whose byte range, ends included, holds `c_idx`. (The editor passes
/// the cursor's character index here.)
pub fn label_at_cursor(labels: &[SemanticLabel], c_idx: usize) -> (r: Option<usize>)
    ensures
        match r {
            Some(i) => label_at_from(labels_view(labels@), 0, c_idx as int) == Some(i as int) && i
                < labels@.len(),
            None => label_at_from(labels_view(labels@), 0, c_idx as int) is None,
        },
{
    let ghost lv = labels_view(labels@);
    let mut i: usize = 0;
    while i < labels.len()
        invariant
            i <= labels@.len(),
            lv == labels_view(labels@),
            label_at_from(lv, 0, c_idx as int) == label_at_from(lv, i as int, c_idx as int),
        decreases labels@.len() - i,
    {
        assert(lv[i as int] == labels@[i as int]@);
        if labels[i].start_byte <= c_idx && c_idx <= labels[i].end_byte {
            return Some(i);
        }
        i += 1;
    }
    None
}

/// Number of labels in `ls` of category `cat`.
pub open spec fn count_category(ls: Seq<LabelView>, cat: Seq<char>) -> nat
    decreases ls.len(),
{
    if ls.len() == 0 {
        0
    } else {
        count_category(ls.drop_last(), cat) + if ls.last().category == cat {
            1nat
        } else {
            0nat
        }
    }
}

/// The last heading from the `i`-th on that lies on or before `line`, stopping at the
/// first heading after it; `cur` before any.
pub open spec fn heading_before_from(hs: Seq<(nat, nat, Seq<char>)>, i: int, line: nat, cur: Option<(nat, Seq<char>)>) -> Option<(nat, Seq<char>)>
    decreases hs.len() - i,
{
    if i < 0 || i >= hs.len() || hs[i].0 > line {
        cur
    } else {
        heading_before_from(hs, i + 1, line, Some((hs[i].0, hs[i].2)))
    }
}

/// What the status bar says of the cursor on line `line` at character index `c`: on a
/// label, `Ln <line> | [<category>] <text> | <n>x` with the number of labels of that
/// category; in a heading's section, `Ln <line> | <title> | +<lines into it>`; else
/// `Ln <line>`.
pub open spec fn cursor_context_of(s: Seq<char>, c: int) -> Seq<char> {
    let line = num_lines(s.take(if c < s.len() { c } else { s.len() as int })) + 1;
    let ls = parse_labels(s, seq!['['], seq![']']);
    match label_at_from(ls, 0, c) {
        Some(k) => "Ln "@ + decimal(line) + " | ["@ + ls[k].category + "] "@ + ls[k].text + " | "@
            + decimal(count_category(ls, ls[k].category)) + "x"@,
        None => match heading_before_from(headings_of(s), 0, line, None) {
            Some(h) => "Ln "@ + decimal(line) + " | "@ + h.1 + " | +"@ + decimal((line - h.0) as nat),
            None => "Ln "@ + decimal(line),
        },
    }
}

fn count_category_exec(labels: &Vec<SemanticLabel>, cat: &Vec<char>) -> (r: usize)
    ensures
        r == count_category(labels_view(labels@), cat@),
{
    let ghost lv = labels_view(labels@);
    let mut n: usize = 0;
    let mut i: usize = 0;
    proof {
        assert(lv.take(0) =~= Seq::<LabelView>::empty());
    }
    while i < labels.len()
        invariant
            i <= labels@.len(),
            lv == labels_view(labels@),
            n == count_category(lv.take(i as int), cat@),
            n <= i,
        decreases labels@.len() - i,
    {
        assert(lv.take(i + 1).drop_last() =~= lv.take(i as int));
        assert(lv[i as int] == labels@[i as int]@);
        if crate::label::chars_eq(&chars_of(labels[i].category.as_str()), cat) {
            n += 1;
        }
        i += 1;
    }
    assert(lv.take(labels@.len() as int) =~= lv);
    n
}

/// What the status bar says of the cursor at character index `c_idx` (see
/// [`cursor_context_of`]).
pub fn cursor_context(text: &str, c_idx: usize) -> (r: String)
    requires
        text@.len() < usize::MAX,
    ensures
        r@ == cursor_context_of(text@, c_idx as int),
{
    let line = cursor_line(text, c_idx);
    let labels = parse_semantic_labels(text);
    let ghost ls = labels_view(labels@);
    let mut out = String::new();
    proof {
        reveal_strlit("Ln ");
        reveal_strlit(" | [");
        reveal_strlit("] ");
        reveal_strlit(" | ");
        reveal_strlit("x");
        reveal_strlit(" | +");
    }
    push_str(&mut out, "Ln ");
    push_decimal(&mut out, line);
    match label_at_cursor(labels.as_slice(), c_idx) {
        Some(k) => {
            let cat = chars_of(labels[k].category.as_str());
            let same = count_category_exec(&labels, &cat);
            assert(ls[k as int] == labels@[k as int]@);
            push_str(&mut out, " | [");
            push_str(&mut out, labels[k].category.as_str());
            push_str(&mut out, "] ");
            push_str(&mut out, labels[k].text.as_str());
            push_str(&mut out, " | ");
            push_decimal(&mut out, same);
            push_str(&mut out, "x");
        },
        None => {
            let hs = extract_headings(text);
            let ghost hv = headings_view(hs@);
            let mut cur: Option<usize> = None;
            let mut i: usize = 0;
            while i < hs.len() && hs[i].0 <= line
                invariant
                    i <= hs@.len(),
                    hv == headings_view(hs@),
                    heading_before_from(hv, 0, line as nat, None) == heading_before_from(
                        hv,
                        i as int,
                        line as nat,
                        match cur {
                            Some(j) => Some((hv[j as int].0, hv[j as int].2)),
                            None => None,
                        },
                    ),
                    match cur {
                        Some(j) => j < hs@.len() && hs@[j as int].0 <= line,
                        None => true,
                    },
                decreases hs@.len() - i,
            {
                assert(hv[i as int].0 == hs@[i as int].0);
                cur = Some(i);
                i += 1;
            }
            proof {
                if i < hs@.len() {
                    assert(hv[i as int].0 == hs@[i as int].0);
                }
            }
            match cur {
                Some(j) => {
                    assert(hv[j as int].0 == hs@[j as int].0 && hv[j as int].2 == hs@[j as int].2@);
                    push_str(&mut out, " | ");
                    push_str(&mut out, hs[j].2.as_str());
                    push_str(&mut out, " | +");
                    push_decimal(&mut out, line - hs[j].0);
                },
                None => {},
            }
        },
    }
    out
}

// ── Jumps ──

/// Where the editor puts the cursor to jump to line `target` (from 1): the bytes of
/// the lines before it, each counted with one byte for its break; `None` past the last
/// line or for line 0.
pub open spec fn line_jump_of(s: Seq<char>, target: int) -> Option<nat> {
    if 1 <= target <= line_bounds(s).len() {
        Some(lines_bytes(s, line_bounds(s), target - 1))
    } else {
        None
    }
}

/// Cursor position for a jump to line `target_ln` (see [`line_jump_of`]).
pub fn line_jump_position(text: &str, target_ln: usize) -> (r: Option<usize>)
    ensures
        match r {
            Some(p) => line_jump_of(text@, target_ln as int) == Some(p as nat),
            None => line_jump_of(text@, target_ln as int) is None,
        },
{
    let v = chars_of(text);
    let n = v.len();
    let total = byte_len(text);
    let ghost lines = line_bounds(v@);
    let ghost mut done: Seq<(int, int)> = seq![];
    let mut start: usize = 0;
    let mut k: usize = 0;
    let mut acc: usize = 0;
    proof {
        lemma_lines_from_bounds(v@, 0);
        assert(done + lines_from(v@, 0) =~= lines);
        assert(v@.take(0) =~= Seq::<char>::empty());
    }
    while start < n
        invariant
            n == v@.len(),
            v@ == text@,
            total == utf8_len(v@),
            lines == line_bounds(v@),
            start <= n,
            lines == done + lines_from(v@, start as int),
            k == done.len(),
            k <= start,
            start < n ==> acc == lines_bytes(v@, lines, k as int),
            start < n ==> acc <= utf8_len(v@.take(start as int)),
            k + 1 <= target_ln || target_ln == 0,
        decreases n - start,
    {
        let (a, b, next) = next_line(&v, start);
        assert(lines[k as int] == (a as int, b as int)) by {
            assert(lines_from(v@, start as int)[0] == (a as int, b as int));
        }
        if k + 1 == target_ln {
            return Some(acc);
        }
        if next < n {
            proof {
                lemma_utf8_len_range(v@, start as int, b as int);
                lemma_utf8_len_range(v@, b as int, next as int);
                lemma_utf8_len_range(v@, start as int, next as int);
                lemma_utf8_len_ge_len(v@.subrange(b as int, next as int));
                lemma_utf8_len_range(v@, next as int, n as int);
                assert(v@.take(n as int) =~= v@);
                assert(v@.subrange(a as int, b as int) == v@.subrange(start as int, b as int));
            }
            let mut lb: usize = 0;
            let mut t = a;
            while t < b
                invariant
                    a <= t <= b <= v@.len(),
                    lb == utf8_len(v@.subrange(a as int, t as int)),
                    utf8_len(v@.take(a as int)) + utf8_len(v@.subrange(a as int, b as int)) <= utf8_len(v@),
                    total == utf8_len(v@),
                decreases b - t,
            {
                proof {
                    let w = v@.subrange(a as int, b as int);
                    assert(v@.subrange(a as int, t + 1) =~= w.take(t + 1 - a));
                    assert(v@.subrange(a as int, t as int) =~= w.take(t - a));
                    lemma_utf8_len_step(w, t - a);
                    lemma_utf8_len_range(w, t + 1 - a, w.len() as int);
                    assert(w.take(w.len() as int) =~= w);
                }
                lb = lb + char_len_utf8(v[t]);
                t += 1;
            }
            acc = acc + lb + 1;
        }
        proof {
            let d2 = done.push((a as int, b as int));
            if next >= n {
                assert(lines_from(v@, next as int) =~= Seq::<(int, int)>::empty());
            }
            assert(lines =~= d2 + lines_from(v@, next as int));
            done = d2;
        }
        k += 1;
        start = next;
    }
    proof {
        assert(lines_from(v@, start as int) =~= Seq::<(int, int)>::empty());
        assert(lines =~= done);
    }
    None
}

/// Number of characters of `s` from the `i`-th on that start before byte `b`.
pub open spec fn chars_before_byte_from(s: Seq<char>, i: int, b: int) -> nat
    decreases s.len() - i,
{
    if i < 0 || i >= s.len() || utf8_len(s.take(i)) >= b {
        0
    } else {
        1 + chars_before_byte_from(s, i + 1, b)
    }
}

/// Character index for a jump to byte `b`: the number of characters that start
/// before it.
pub fn char_index_for_byte(text: &str, b: usize) -> (r: usize)
    ensures
        r == chars_before_byte_from(text@, 0, b as int),
{
    let v = chars_of(text);
    let total = byte_len(text);
    let mut acc: usize = 0;
    let mut i: usize = 0;
    proof {
        assert(v@.take(0) =~= Seq::<char>::empty());
    }
    while i < v.len() && acc < b
        invariant
            i <= v@.len(),
            v@ == text@,
            total == utf8_len(v@),
            acc == utf8_len(v@.take(i as int)),
            chars_before_byte_from(v@, 0, b as int) == i + chars_before_byte_from(v@, i as int, b as int),
        decreases v@.len() - i,
    {
        proof {
            lemma_utf8_len_step(v@, i as int);
            lemma_utf8_len_range(v@, i + 1, v@.len() as int);
        }
        acc = acc + char_len_utf8(v[i]);
        i += 1;
    }
    i
}

// ── Chunk previews ──

/// `s` without the character `c`.
pub open spec fn without_char(s: Seq<char>, c: char) -> Seq<char>
    decreases s.len(),
{
    if s.len() == 0 {
        seq![]
    } else {
        without_char(s.drop_last(), c) + if s.last() == c {
            Seq::<char>::empty()
        } else {
            seq![s.last()]
        }
    }
}

/// The lines `a..b` of `s` joined by line breaks.
pub open spec fn joined_lines(s: Seq<char>, ls: Seq<(int, int)>, a: int, b: int) -> Seq<char>
    decreases b - a,
{
    if b <= a {
        seq![]
    } else if b == a + 1 {
        s.subrange(ls[a].0, ls[a].1)
    } else {
        joined_lines(s, ls, a, b - 1) + seq!['\n'] + s.subrange(ls[b - 1].0, ls[b - 1].1)
    }
}

/// The body text of a preview: for a heading on line `start`, the five lines after it;
/// for a label at byte `start`, up to 200 characters after the first `]` from there
/// (or after its first character where there is none).
pub open spec fn preview_body(s: Seq<char>, start: int, is_line: bool) -> Seq<char> {
    if is_line {
        let ls = line_bounds(s);
        let a = if start < ls.len() { start } else { ls.len() as int };
        let b = if start + 5 < ls.len() { start + 5 } else { ls.len() as int };
        joined_lines(s, ls, a, b)
    } else {
        let rest = s.skip(char_at_byte(s, start));
        let e = find_char(rest, 0, rest.len() as int, ']');
        let body = if e < rest.len() { rest.skip(e + 1) } else { rest.skip(1) };
        body.take(if body.len() < 200 { body.len() as int } else { 200 })
    }
}

/// A label preview can be cut at `start`: `start` is on a character boundary and, with
/// no `]` after it, a one-byte character stands there.
pub open spec fn preview_ok(s: Seq<char>, start: int, is_line: bool) -> bool {
    is_line || (is_boundary(s, start) && {
        let rest = s.skip(char_at_byte(s, start));
        find_char(rest, 0, rest.len() as int, ']') < rest.len() || (rest.len() > 0 && char_width(
            rest[0],
        ) == 1)
    })
}

/// The preview shown for a chunk: the body trimmed and without carriage returns;
/// `(Empty content)` when nothing is left; the first 150 characters and `...` when it
/// is longer.
pub open spec fn chunk_preview_of(s: Seq<char>, start: int, is_line: bool) -> Seq<char> {
    let cleaned = without_char(trim(preview_body(s, start, is_line)), '\r');
    if cleaned.len() == 0 {
        "(Empty content)"@
    } else if cleaned.len() > 150 {
        cleaned.take(150) + "..."@
    } else {
        cleaned
    }
}

pub open spec fn bounds_view(v: Seq<(usize, usize)>) -> Seq<(int, int)> {
    v.map_values(|p: (usize, usize)| (p.0 as int, p.1 as int))
}

/// The content bounds of every line of `v`.
pub fn lines_of(v: &Vec<char>) -> (r: Vec<(usize, usize)>)
    ensures
        bounds_view(r@) == line_bounds(v@),
{
    let n = v.len();
    let ghost lines = line_bounds(v@);
    let mut r: Vec<(usize, usize)> = Vec::new();
    let mut start: usize = 0;
    proof {
        lemma_lines_from_bounds(v@, 0);
        assert(bounds_view(r@) + lines_from(v@, 0) =~= lines);
    }
    while start < n
        invariant
            n == v@.len(),
            lines == line_bounds(v@),
            start <= n,
            lines == bounds_view(r@) + lines_from(v@, start as int),
        decreases n - start,
    {
        let (a, b, next) = next_line(v, start);
        let ghost before = r@;
        r.push((a, b));
        proof {
            assert(bounds_view(r@) =~= bounds_view(before).push((a as int, b as int)));
            if next >= n {
                assert(lines_from(v@, next as int) =~= Seq::<(int, int)>::empty());
            }
            assert(lines =~= bounds_view(r@) + lines_from(v@, next as int));
        }
        start = next;
    }
    proof {
        assert(lines_from(v@, start as int) =~= Seq::<(int, int)>::empty());
    }
    r
}

/// Preview of the chunk at `start_pos`: a heading's line number (`is_line`) or a
/// label's start byte (see [`chunk_preview_of`]).
pub fn get_chunk_preview(text: &str, start_pos: usize, is_line: bool) -> (r: String)
    requires
        preview_ok(text@, start_pos as int, is_line),
    ensures
        r@ == chunk_preview_of(text@, start_pos as int, is_line),
{
    let v = chars_of(text);
    let body: Vec<char> = if is_line {
        let ls = lines_of(&v);
        let ghost lb = bounds_view(ls@);
        let n = ls.len();
        let a = if start_pos < n { start_pos } else { n };
        let b = if start_pos < n && n - start_pos > 5 { start_pos + 5 } else { n };
        let mut out: Vec<char> = Vec::new();
        let mut k = a;
        proof {
            lemma_lines_from_bounds(v@, 0);
        }
        while k < b
            invariant
                a <= k <= b <= ls@.len(),
                lb == bounds_view(ls@),
                lb == line_bounds(v@),
                forall|j: int| 0 <= j < lb.len() ==> 0 <= #[trigger] lb[j].0 <= lb[j].1 <= v@.len(),
                out@ == joined_lines(v@, lb, a as int, k as int),
            decreases b - k,
        {
            let (x, y) = ls[k];
            assert(lb[k as int] == (x as int, y as int));
            let ghost before = out@;
            if k > a {
                out.push('\n');
            }
            push_range_chars(&mut out, &v, x, y);
            proof {
                if k > a {
                    assert(out@ =~= before + seq!['\n'] + v@.subrange(x as int, y as int));
                } else {
                    assert(out@ =~= v@.subrange(x as int, y as int));
                }
            }
            k += 1;
        }
        out
    } else {
        let i = char_index_of_byte(&v, start_pos);
        proof {
            lemma_char_at_byte_found(v@, start_pos as int, 0);
        }
        let rest = crate::text::sub_chars(&v, i, v.len());
        assert(rest@ =~= v@.skip(i as int));
        let e = find_char_exec(&rest, 0, rest.len(), ']');
        let from = if e < rest.len() { e + 1 } else { 1 };
        let avail = rest.len() - from;
        let upto = if avail < 200 { rest.len() } else { from + 200 };
        let b = crate::text::sub_chars(&rest, from, upto);
        assert(b@ =~= preview_body(v@, start_pos as int, false));
        b
    };
    let (x, y) = trim_bounds(&body, 0, body.len());
    assert(body@.subrange(0, body@.len() as int) =~= body@);
    let mut cleaned: Vec<char> = Vec::new();
    let mut t = x;
    let ghost tr = body@.subrange(x as int, y as int);
    proof {
        assert(tr.take(0) =~= Seq::<char>::empty());
    }
    while t < y
        invariant
            x <= t <= y <= body@.len(),
            tr == body@.subrange(x as int, y as int),
            cleaned@ == without_char(tr.take(t - x), '\r'),
        decreases y - t,
    {
        assert(tr.take(t + 1 - x).drop_last() =~= tr.take(t - x));
        assert(tr.take(t + 1 - x).last() == body@[t as int]);
        if body[t] != '\r' {
            cleaned.push(body[t]);
        }
        proof {
            if body@[t as int] == '\r' {
                assert(cleaned@ =~= without_char(tr.take(t + 1 - x), '\r'));
            } else {
                assert(cleaned@ =~= without_char(tr.take(t + 1 - x), '\r'));
            }
        }
        t += 1;
    }
    assert(tr.take(y - x) =~= tr);
    proof {
        reveal_strlit("(Empty content)");
        reveal_strlit("...");
    }
    if cleaned.len() == 0 {
        String::from_str("(Empty content)")
    } else if cleaned.len() > 150 {
        let mut out = string_of(&cleaned, 0, 150);
        push_str(&mut out, "...");
        assert(cleaned@.subrange(0, 150) =~= cleaned@.take(150));
        out
    } else {
        let out = string_of(&cleaned, 0, cleaned.len());
        assert(cleaned@.subrange(0, cleaned@.len() as int) =~= cleaned@);
        out
    }
}

/// Appends `v[lo..hi]` to `out`.
fn push_range_chars(out: &mut Vec<char>, v: &Vec<char>, lo: usize, hi: usize)
    requires
        lo <= hi <= v@.len(),
    ensures
        final(out)@ == old(out)@ + v@.subrange(lo as int, hi as int),
{
    let mut t = lo;
    while t < hi
        invariant
            lo <= t <= hi <= v@.len(),
            out@ == old(out)@ + v@.subrange(lo as int, t as int),
        decreases hi - t,
    {
        out.push(v[t]);
        assert(v@.subrange(lo as int, t + 1) =~= v@.subrange(lo as int, t as int).push(v@[t as int]));
        t += 1;
    }
}

// ── Autocomplete ──

/// What the autocomplete popup offers at the cursor.
#[derive(Clone, Copy, PartialEq, Eq, Debug, Structural)]
pub enum AutocompleteMode {
    /// Nothing.
    Inactive,
    /// Label categories, after a `[`.
    Category,
    /// Tag and relation codes, after a `|`.
    Shortcode,
}

/// Scanning back from index `i`, at most `20 - count` more characters and stopping at
/// a line break or `]`: the first `[` (a category) or `|` (a shortcode).
pub open spec fn trigger_from(s: Seq<char>, i: int, count: int) -> Option<(int, AutocompleteMode)>
    decreases i + 1,
{
    if i < 0 || i >= s.len() || count >= 20 {
        None
    } else if s[i] == '\n' || s[i] == ']' {
        None
    } else if s[i] == '[' {
        Some((i, AutocompleteMode::Category))
    } else if s[i] == '|' {
        Some((i, AutocompleteMode::Shortcode))
    } else {
        trigger_from(s, i - 1, count + 1)
    }
}

/// The autocomplete mode at character index `c` and what has been typed since its
/// trigger, lowercased (empty when inactive).
pub open spec fn autocomplete_of(s: Seq<char>, c: int) -> (AutocompleteMode, Seq<char>) {
    if c > s.len() {
        (AutocompleteMode::Inactive, seq![])
    } else {
        match trigger_from(s, c - 1, 0) {
            None => (AutocompleteMode::Inactive, seq![]),
            Some((st, mode)) => {
                let typed = s.subrange(st + 1, c);
                if mode == AutocompleteMode::Category && typed.contains('|') {
                    (AutocompleteMode::Inactive, seq![])
                } else {
                    (mode, lowercase_of(typed))
                }
            },
        }
    }
}

fn find_trigger(v: &Vec<char>, c_idx: usize) -> (r: Option<(usize, AutocompleteMode)>)
    requires
        c_idx <= v@.len(),
    ensures
        match r {
            Some((st, m)) => trigger_from(v@, c_idx - 1, 0) == Some((st as int, m)) && st < c_idx,
            None => trigger_from(v@, c_idx - 1, 0) is None,
        },
{
    let mut i = c_idx;
    let mut count: usize = 0;
    while i > 0 && count < 20
        invariant
            i <= c_idx <= v@.len(),
            count <= 20,
            trigger_from(v@, c_idx - 1, 0) == trigger_from(v@, i - 1, count as int),
        decreases i,
    {
        let c = v[i - 1];
        if c == '\n' || c == ']' {
            return None;
        }
        if c == '[' {
            return Some((i - 1, AutocompleteMode::Category));
        }
        if c == '|' {
            return Some((i - 1, AutocompleteMode::Shortcode));
        }
        i -= 1;
        count += 1;
    }
    None
}

/// The autocomplete mode at the cursor (character index `c_idx`) and the lowercased
/// text typed since its trigger (see [`autocomplete_of`]).
pub fn detect_autocomplete(text: &str, c_idx: usize) -> (r: (AutocompleteMode, String))
    requires
        c_idx <= i32::MAX,
    ensures
        (r.0, r.1@) == autocomplete_of(text@, c_idx as int),
{
    let v = chars_of(text);
    if c_idx > v.len() {
        return (AutocompleteMode::Inactive, String::new());
    }
    let found = find_trigger(&v, c_idx);
    match found {
        None => (AutocompleteMode::Inactive, String::new()),
        Some((st, mode)) => {
            let typed = string_of(&v, st + 1, c_idx);
            let mut has_bar = false;
            let mut k = st + 1;
            while k < c_idx
                invariant
                    st + 1 <= k <= c_idx <= v@.len(),
                    has_bar == exists|j: int| st + 1 <= j < k && v@[j] == '|',
                decreases c_idx - k,
            {
                if v[k] == '|' {
                    has_bar = true;
                }
                k += 1;
            }
            proof {
                let t = v@.subrange(st + 1, c_idx as int);
                if has_bar {
                    let j = choose|j: int| st + 1 <= j < c_idx && v@[j] == '|';
                    assert(t[j - st - 1] == '|');
                }
                if t.contains('|') {
                    let j = choose|j: int| 0 <= j < t.len() && t[j] == '|';
                    assert(v@[j + st + 1] == '|');
                }
            }
            if mode == AutocompleteMode::Category && has_bar {
                (AutocompleteMode::Inactive, String::new())
            } else {
                (mode, to_lowercase(typed.as_str()))
            }
        },
    }
}

/// An offer of the popup: the text inserted and, for a category, its colour.
pub open spec fn category_offers(ts: Seq<LabelTypeView>, typed: Seq<char>) -> Seq<(Seq<char>, Option<[u8; 3]>)>
    decreases ts.len(),
{
    if ts.len() == 0 {
        seq![]
    } else {
        let prev = category_offers(ts.drop_last(), typed);
        if contains_seq(lowercase_of(ts.last().name), typed) {
            prev.push((ts.last().name, Some(ts.last().color)))
        } else {
            prev
        }
    }
}

/// Codes (first of each pair) whose code or name, lowercased, contains `typed`.
pub open spec fn code_offers(cs: Seq<(Seq<char>, Seq<char>)>, typed: Seq<char>) -> Seq<(Seq<char>, Option<[u8; 3]>)>
    decreases cs.len(),
{
    if cs.len() == 0 {
        seq![]
    } else {
        let prev = code_offers(cs.drop_last(), typed);
        if contains_seq(lowercase_of(cs.last().0), typed) || contains_seq(lowercase_of(cs.last().1), typed) {
            prev.push((cs.last().0, None))
        } else {
            prev
        }
    }
}

pub open spec fn pairs_view(v: Seq<(String, String)>) -> Seq<(Seq<char>, Seq<char>)> {
    v.map_values(|p: (String, String)| (p.0@, p.1@))
}

pub open spec fn offers_view(v: Seq<(String, Option<[u8; 3]>)>) -> Seq<(Seq<char>, Option<[u8; 3]>)> {
    v.map_values(|p: (String, Option<[u8; 3]>)| (p.0@, p.1))
}

/// What the popup offers: for a category, the label types whose lowercased name
/// contains `typed`, with their colours; for a shortcode, the tag codes (symbol, name)
/// and then the relation codes (prefix, name) whose code or name, lowercased, contains
/// it; nothing when inactive.
pub open spec fn offers_of(
    mode: AutocompleteMode,
    typed: Seq<char>,
    types: Seq<LabelTypeView>,
    tags: Seq<(Seq<char>, Seq<char>)>,
    relations: Seq<(Seq<char>, Seq<char>)>,
) -> Seq<(Seq<char>, Option<[u8; 3]>)> {
    match mode {
        AutocompleteMode::Inactive => seq![],
        AutocompleteMode::Category => category_offers(types, typed),
        AutocompleteMode::Shortcode => code_offers(tags, typed) + code_offers(relations, typed),
    }
}

fn code_offers_exec(out: &mut Vec<(String, Option<[u8; 3]>)>, codes: &[(String, String)], typed: &Vec<char>)
    ensures
        offers_view(final(out)@) == offers_view(old(out)@) + code_offers(pairs_view(codes@), typed@),
{
    let ghost cv = pairs_view(codes@);
    let mut i: usize = 0;
    proof {
        assert(offers_view(out@) =~= offers_view(old(out)@) + code_offers(cv.take(0), typed@));
    }
    while i < codes.len()
        invariant
            i <= codes@.len(),
            cv == pairs_view(codes@),
            offers_view(out@) == offers_view(old(out)@) + code_offers(cv.take(i as int), typed@),
        decreases codes@.len() - i,
    {
        assert(cv.take(i + 1).drop_last() =~= cv.take(i as int));
        assert(cv.take(i + 1).last() == (codes@[i as int].0@, codes@[i as int].1@));
        let a = to_lowercase(codes[i].0.as_str());
        let b = to_lowercase(codes[i].1.as_str());
        if contains_str(&chars_of(a.as_str()), typed) || contains_str(&chars_of(b.as_str()), typed) {
            let ghost before = out@;
            out.push((codes[i].0.clone(), None));
            assert(offers_view(out@) =~= offers_view(before).push((codes@[i as int].0@, None)));
        }
        i += 1;
    }
    assert(cv.take(codes@.len() as int) =~= cv);
}

/// What the autocomplete popup offers (see [`offers_of`]).
pub fn autocomplete_options(
    mode: AutocompleteMode,
    typed: &str,
    label_types: &[LabelType],
    tag_codes: &[(String, String)],
    relation_codes: &[(String, String)],
) -> (r: Vec<(String, Option<[u8; 3]>)>)
    ensures
        offers_view(r@) == offers_of(
            mode,
            typed@,
            types_view(label_types@),
            pairs_view(tag_codes@),
            pairs_view(relation_codes@),
        ),
{
    let t = chars_of(typed);
    let mut out: Vec<(String, Option<[u8; 3]>)> = Vec::new();
    match mode {
        AutocompleteMode::Inactive => {
            assert(offers_view(out@) =~= Seq::<(Seq<char>, Option<[u8; 3]>)>::empty());
        },
        AutocompleteMode::Category => {
            let ghost tv = types_view(label_types@);
            let mut i: usize = 0;
            proof {
                assert(offers_view(out@) =~= category_offers(tv.take(0), typed@));
            }
            while i < label_types.len()
                invariant
                    i <= label_types@.len(),
                    tv == types_view(label_types@),
                    t@ == typed@,
                    offers_view(out@) == category_offers(tv.take(i as int), typed@),
                decreases label_types@.len() - i,
            {
                assert(tv.take(i + 1).drop_last() =~= tv.take(i as int));
                assert(tv.take(i + 1).last() == label_types@[i as int]@);
                let lower = to_lowercase(label_types[i].name.as_str());
                if contains_str(&chars_of(lower.as_str()), &t) {
                    let ghost before = out@;
                    out.push((label_types[i].name.clone(), Some(label_types[i].color)));
                    assert(offers_view(out@) =~= offers_view(before).push(
                        (label_types@[i as int].name@, Some(label_types@[i as int].color)),
                    ));
                }
                i += 1;
            }
            assert(tv.take(label_types@.len() as int) =~= tv);
        },
        AutocompleteMode::Shortcode => {
            code_offers_exec(&mut out, tag_codes, &t);
            code_offers_exec(&mut out, relation_codes, &t);
            assert(offers_view(Seq::<(String, Option<[u8; 3]>)>::empty()) =~= Seq::<(Seq<char>, Option<[u8; 3]>)>::empty());
        },
    }
    out
}

/// Accepting an offer: `selected` (followed by `|` for a category) replaces the
/// `typed_len` characters before character index `cursor`; the text and the new
/// cursor index after the insertion.
pub open spec fn accept_of(s: Seq<char>, cursor: int, typed_len: int, selected: Seq<char>, mode: AutocompleteMode) -> (Seq<char>, int) {
    let ins = if mode == AutocompleteMode::Category { selected + seq!['|'] } else { selected };
    let start = cursor - typed_len;
    (s.take(start) + ins + s.skip(cursor), start + ins.len())
}

/// Inserts the accepted offer `selected` in place of what was typed (`typed`, as the
/// popup holds it) before the cursor (see [`accept_of`]).
pub fn accept_completion(text: &str, cursor: usize, typed: &str, selected: &str, mode: AutocompleteMode) -> (r: (String, usize))
    requires
        typed@.len() <= cursor <= text@.len(),
    ensures
        (r.0@, r.1 as int) == accept_of(text@, cursor as int, typed@.len() as int, selected@, mode),
{
    let v = chars_of(text);
    let tv = chars_of(typed);
    let sel = chars_of(selected);
    let start = cursor - tv.len();
    let mut out: Vec<char> = Vec::new();
    push_range_chars(&mut out, &v, 0, start);
    push_range_chars(&mut out, &sel, 0, sel.len());
    if mode == AutocompleteMode::Category {
        out.push('|');
    }
    let ins_end = out.len();
    push_range_chars(&mut out, &v, cursor, v.len());
    proof {
        let ins = if mode == AutocompleteMode::Category { selected@ + seq!['|'] } else { selected@ };
        assert(sel@.subrange(0, sel@.len() as int) =~= sel@);
        assert(v@.subrange(0, start as int) =~= v@.take(start as int));
        assert(v@.subrange(cursor as int, v@.len() as int) =~= v@.skip(cursor as int));
        assert(out@ =~= v@.take(start as int) + ins + v@.skip(cursor as int));
    }
    let r = string_of(&out, 0, out.len());
    assert(out@.subrange(0, out@.len() as int) =~= out@);
    (r, ins_end)
}

/// The highlighted entry of a list of `len` entries after the arrow keys: the cursor
/// clamped to the last entry, one down (wrapping) for `down`, then one up (wrapping)
/// for `up`.
pub open spec fn menu_cursor_of(cursor: int, len: int, down: bool, up: bool) -> int {
    let c0 = if cursor < len - 1 { cursor } else { len - 1 };
    let c1 = if down { (c0 + 1) % len } else { c0 };
    if up { (c1 + len - 1) % len } else { c1 }
}

/// Moves the highlighted entry of a non-empty list (see [`menu_cursor_of`]).
pub fn menu_cursor_step(cursor: usize, len: usize, down: bool, up: bool) -> (r: usize)
    requires
        len > 0,
    ensures
        r == menu_cursor_of(cursor as int, len as int, down, up),
        r < len,
{
    let mut c = if cursor < len - 1 { cursor } else { len - 1 };
    if down {
        c = if c + 1 == len { 0 } else { c + 1 };
    }
    if up {
        c = if c == 0 { len - 1 } else { c - 1 };
    }
    proof {
        let c0 = if cursor < len - 1 { cursor as int } else { len - 1 };
        let c1 = if down { (c0 + 1) % (len as int) } else { c0 };
        assert(0 <= c1 < len);
        assert((c1 + len - 1) % (len as int) == if c1 == 0 { len - 1 } else { c1 - 1 }) by (nonlinear_arith)
            requires 0 <= c1 < len;
        assert((c0 + 1) % (len as int) == if c0 + 1 == len { 0 } else { c0 + 1 }) by (nonlinear_arith)
            requires 0 <= c0 < len;
    }
    c
}

// ── Relations between labels ──

/// `p` is a prefix of `s`.
pub open spec fn starts_with(s: Seq<char>, p: Seq<char>) -> bool {
    p.len() <= s.len() && s.take(p.len() as int) == p
}

/// `s` with every leading repetition of a nonempty `p` removed
/// (`str::trim_start_matches`).
pub open spec fn strip_prefixes(s: Seq<char>, p: Seq<char>) -> Seq<char>
    decreases s.len(),
{
    if p.len() > 0 && starts_with(s, p) {
        strip_prefixes(s.skip(p.len() as int), p)
    } else {
        s
    }
}

/// Index of the first label named `name` by category or text.
pub open spec fn label_named_from(ls: Seq<LabelView>, i: int, name: Seq<char>) -> Option<int>
    decreases ls.len() - i,
{
    if i < 0 || i >= ls.len() {
        None
    } else if ls[i].category == name || ls[i].text == name {
        Some(i)
    } else {
        label_named_from(ls, i + 1, name)
    }
}

/// A related label as shown: its line, category and text.
pub open spec fn related(l: LabelView) -> (nat, Seq<char>, Seq<char>) {
    (l.line, l.category, l.text)
}

/// Labels that the property `prop` points to: for each relation prefix it starts with,
/// the first label named by what follows the prefix (repetitions of it removed, trimmed).
pub open spec fn targets_of_prop(ls: Seq<LabelView>, prop: Seq<char>, pfx: Seq<Seq<char>>) -> Seq<(nat, Seq<char>, Seq<char>)>
    decreases pfx.len(),
{
    if pfx.len() == 0 {
        seq![]
    } else {
        let prev = targets_of_prop(ls, prop, pfx.drop_last());
        let p = pfx.last();
        if starts_with(prop, p) {
            match label_named_from(ls, 0, trim(strip_prefixes(prop, p))) {
                Some(k) => prev.push(related(ls[k])),
                None => prev,
            }
        } else {
            prev
        }
    }
}

/// Labels that the properties `props` point to, property by property.
pub open spec fn targets_of(ls: Seq<LabelView>, props: Seq<Seq<char>>, pfx: Seq<Seq<char>>) -> Seq<(nat, Seq<char>, Seq<char>)>
    decreases props.len(),
{
    if props.len() == 0 {
        seq![]
    } else {
        targets_of(ls, props.drop_last(), pfx) + targets_of_prop(ls, props.last(), pfx)
    }
}

/// Number of properties in `props` that mention `name` or `text`.
pub open spec fn mentions(props: Seq<Seq<char>>, name: Seq<char>, text: Seq<char>) -> nat
    decreases props.len(),
{
    if props.len() == 0 {
        0
    } else {
        mentions(props.drop_last(), name, text) + if contains_seq(props.last(), name) || contains_seq(
            props.last(),
            text,
        ) {
            1nat
        } else {
            0nat
        }
    }
}

/// The labels among the first `k` (other than the one starting where `me` starts) with
/// a property that mentions `me`, once per such property.
pub open spec fn referrers(ls: Seq<LabelView>, k: int, me: LabelView) -> Seq<(nat, Seq<char>, Seq<char>)>
    decreases k,
{
    if k <= 0 {
        seq![]
    } else {
        let prev = referrers(ls, k - 1, me);
        let l = ls[k - 1];
        if l.start_byte == me.start_byte {
            prev
        } else {
            prev + Seq::new(mentions(l.properties, me.category, me.text), |_i: int| related(l))
        }
    }
}

/// The relations shown for the label `active`: the labels its properties point to
/// through the relation prefixes, then the labels whose properties mention it.
pub open spec fn relations_of(ls: Seq<LabelView>, active: int, pfx: Seq<Seq<char>>) -> Seq<(nat, Seq<char>, Seq<char>)> {
    targets_of(ls, ls[active].properties, pfx) + referrers(ls, ls.len() as int, ls[active])
}

pub open spec fn related_view(v: Seq<(usize, String, String)>) -> Seq<(nat, Seq<char>, Seq<char>)> {
    v.map_values(|r: (usize, String, String)| (r.0 as nat, r.1@, r.2@))
}

fn starts_with_exec(s: &Vec<char>, p: &Vec<char>, at: usize) -> (r: bool)
    requires
        at <= s@.len(),
    ensures
        r == starts_with(s@.skip(at as int), p@),
{
    let n = s.len();
    if p.len() > n - at {
        return false;
    }
    let mut i: usize = 0;
    while i < p.len()
        invariant
            i <= p@.len(),
            n == s@.len(),
            at <= n,
            p@.len() <= s@.len() - at,
            forall|j: int| 0 <= j < i ==> s@[at + j] == p@[j],
        decreases p@.len() - i,
    {
        if s[at + i] != p[i] {
            assert(s@.skip(at as int).take(p@.len() as int)[i as int] != p@[i as int]);
            return false;
        }
        i += 1;
    }
    assert(s@.skip(at as int).take(p@.len() as int) =~= p@);
    true
}

/// `s` with every leading repetition of `p` removed.
fn strip_prefixes_exec(s: &Vec<char>, p: &Vec<char>) -> (r: Vec<char>)
    ensures
        r@ == strip_prefixes(s@, p@),
{
    let mut at: usize = 0;
    if p.len() == 0 {
        let r = crate::text::sub_chars(s, 0, s.len());
        assert(r@ =~= s@);
        return r;
    }
    assert(s@.skip(0) =~= s@);
    while at <= s.len() && starts_with_exec(s, p, at)
        invariant
            at <= s@.len(),
            p@.len() > 0,
            strip_prefixes(s@, p@) == strip_prefixes(s@.skip(at as int), p@),
        decreases s@.len() - at,
    {
        assert(s@.skip(at as int).skip(p@.len() as int) =~= s@.skip(at + p@.len()));
        at = at + p.len();
    }
    let r = crate::text::sub_chars(s, at, s.len());
    assert(r@ =~= s@.skip(at as int));
    r
}

fn label_named(labels: &Vec<SemanticLabel>, name: &Vec<char>) -> (r: Option<usize>)
    ensures
        match r {
            Some(k) => label_named_from(labels_view(labels@), 0, name@) == Some(k as int) && k
                < labels@.len(),
            None => label_named_from(labels_view(labels@), 0, name@) is None,
        },
{
    let ghost lv = labels_view(labels@);
    let mut i: usize = 0;
    while i < labels.len()
        invariant
            i <= labels@.len(),
            lv == labels_view(labels@),
            label_named_from(lv, 0, name@) == label_named_from(lv, i as int, name@),
        decreases labels@.len() - i,
    {
        assert(lv[i as int] == labels@[i as int]@);
        if crate::label::chars_eq(&chars_of(labels[i].category.as_str()), name)
            || crate::label::chars_eq(&chars_of(labels[i].text.as_str()), name) {
            return Some(i);
        }
        i += 1;
    }
    None
}

fn related_exec(l: &SemanticLabel) -> (r: (usize, String, String))
    ensures
        (r.0 as nat, r.1@, r.2@) == related(l@),
{
    (l.line, l.category.clone(), l.text.clone())
}

/// The relations shown for the label at index `active` (see [`relations_of`]); the
/// relation prefixes are the codes' prefixes, in order.
pub fn label_relations(labels: &Vec<SemanticLabel>, active: usize, prefixes: &Vec<String>) -> (r: Vec<(usize, String, String)>)
    requires
        active < labels@.len(),
    ensures
        related_view(r@) == relations_of(labels_view(labels@), active as int, crate::label::strings_view(prefixes@)),
{
    let ghost lv = labels_view(labels@);
    let ghost pv = crate::label::strings_view(prefixes@);
    let me = &labels[active];
    let ghost props = lv[active as int].properties;
    assert(props == crate::label::strings_view(me.properties@));
    let mut out: Vec<(usize, String, String)> = Vec::new();
    let mut i: usize = 0;
    proof {
        assert(related_view(out@) =~= targets_of(lv, props.take(0), pv));
    }
    while i < me.properties.len()
        invariant
            i <= me.properties@.len(),
            lv == labels_view(labels@),
            pv == crate::label::strings_view(prefixes@),
            props == crate::label::strings_view(me.properties@),
            related_view(out@) == targets_of(lv, props.take(i as int), pv),
        decreases me.properties@.len() - i,
    {
        assert(props.take(i + 1).drop_last() =~= props.take(i as int));
        let prop = chars_of(me.properties[i].as_str());
        assert(props.take(i + 1).last() == prop@);
        let ghost base = out@;
        let mut j: usize = 0;
        proof {
            assert(related_view(out@) =~= related_view(base) + targets_of_prop(lv, prop@, pv.take(0)));
        }
        while j < prefixes.len()
            invariant
                j <= prefixes@.len(),
                lv == labels_view(labels@),
                pv == crate::label::strings_view(prefixes@),
                related_view(out@) == related_view(base) + targets_of_prop(lv, prop@, pv.take(j as int)),
            decreases prefixes@.len() - j,
        {
            assert(pv.take(j + 1).drop_last() =~= pv.take(j as int));
            let p = chars_of(prefixes[j].as_str());
            assert(pv.take(j + 1).last() == p@);
            assert(prop@.skip(0) =~= prop@);
            if starts_with_exec(&prop, &p, 0) {
                let stripped = strip_prefixes_exec(&prop, &p);
                let (x, y) = trim_bounds(&stripped, 0, stripped.len());
                assert(stripped@.subrange(0, stripped@.len() as int) =~= stripped@);
                let name = crate::text::sub_chars(&stripped, x, y);
                match label_named(labels, &name) {
                    Some(k) => {
                        let ghost before = out@;
                        let rel = related_exec(&labels[k]);
                        out.push(rel);
                        assert(related_view(out@) =~= related_view(before).push(related(lv[k as int])));
                    },
                    None => {},
                }
            }
            j += 1;
        }
        assert(pv.take(prefixes@.len() as int) =~= pv);
        i += 1;
    }
    assert(props.take(me.properties@.len() as int) =~= props);
    let ghost fwd = out@;
    let my_name = chars_of(me.category.as_str());
    let my_text = chars_of(me.text.as_str());
    let mut k: usize = 0;
    while k < labels.len()
        invariant
            k <= labels@.len(),
            lv == labels_view(labels@),
            active < labels@.len(),
            my_name@ == lv[active as int].category,
            my_text@ == lv[active as int].text,
            related_view(out@) == related_view(fwd) + referrers(lv, k as int, lv[active as int]),
        decreases labels@.len() - k,
    {
        let l = &labels[k];
        assert(lv[k as int] == l@);
        if l.start_byte != labels[active].start_byte {
            let ghost base = out@;
            let ghost lprops = crate::label::strings_view(l.properties@);
            let mut j: usize = 0;
            proof {
                assert(Seq::new(mentions(lprops.take(0), my_name@, my_text@), |_i: int| related(l@)) =~= Seq::<(nat, Seq<char>, Seq<char>)>::empty());
                assert(related_view(out@) =~= related_view(base) + Seq::new(mentions(lprops.take(0), my_name@, my_text@), |_i: int| related(l@)));
            }
            while j < l.properties.len()
                invariant
                    j <= l.properties@.len(),
                    lprops == crate::label::strings_view(l.properties@),
                    related_view(out@) == related_view(base) + Seq::new(mentions(lprops.take(j as int), my_name@, my_text@), |_i: int| related(l@)),
                decreases l.properties@.len() - j,
            {
                assert(lprops.take(j + 1).drop_last() =~= lprops.take(j as int));
                let prop = chars_of(l.properties[j].as_str());
                assert(lprops.take(j + 1).last() == prop@);
                if contains_str(&prop, &my_name) || contains_str(&prop, &my_text) {
                    let ghost before = out@;
                    let rel = related_exec(l);
                    out.push(rel);
                    proof {
                        let m = mentions(lprops.take(j as int), my_name@, my_text@);
                        assert(mentions(lprops.take(j + 1), my_name@, my_text@) == m + 1);
                        assert(related_view(out@) =~= related_view(before).push(related(l@)));
                        assert(Seq::new(m + 1, |_i: int| related(l@)) =~= Seq::new(m, |_i: int| related(l@)).push(related(l@)));
                    }
                } else {
                    assert(mentions(lprops.take(j + 1), my_name@, my_text@) == mentions(lprops.take(j as int), my_name@, my_text@));
                }
                j += 1;
            }
            assert(lprops.take(l.properties@.len() as int) =~= lprops);
            assert(related_view(out@) =~= related_view(fwd) + referrers(lv, k + 1, lv[active as int]));
        } else {
            assert(referrers(lv, k + 1, lv[active as int]) == referrers(lv, k as int, lv[active as int]));
        }
        k += 1;
    }
    out
}

// ── Notes ──

/// The span `sp` overlaps the byte range of the note label `l` (category `注`), that
/// range cut at `len`.
pub open spec fn note_hit(l: LabelView, sp: crate::spans::StyledSpan, len: nat) -> bool {
    let e = if l.end_byte < len { l.end_byte } else { len };
    let hi = if (sp.end as nat) < e { sp.end as nat } else { e };
    let lo = if (sp.start as nat) > l.start_byte { sp.start as nat } else { l.start_byte };
    l.category == "注"@ && hi > lo
}

/// The span `sp` overlaps the byte range of some note label of `ls`.
pub open spec fn overlaps_note(ls: Seq<LabelView>, sp: crate::spans::StyledSpan, len: nat) -> bool {
    exists|k: int| 0 <= k < ls.len() && #[trigger] note_hit(ls[k], sp, len)
}

/// Sets spans that overlap a note label (category `注`) in italics, unless labels
/// are hidden; everything else about the spans stays.
pub fn italicize_notes(spans: &mut Vec<crate::spans::StyledSpan>, labels: &Vec<SemanticLabel>, len: usize, hide_labels: bool)
    ensures
        final(spans)@.len() == old(spans)@.len(),
        forall|i: int|
            0 <= i < old(spans)@.len() ==> #[trigger] final(spans)@[i] == (crate::spans::StyledSpan {
                italic: old(spans)@[i].italic || (!hide_labels && overlaps_note(
                    labels_view(labels@),
                    old(spans)@[i],
                    len as nat,
                )),
                ..old(spans)@[i]
            }),
{
    if hide_labels {
        return;
    }
    let ghost lv = labels_view(labels@);
    let note = chars_of("注");
    proof {
        reveal_strlit("注");
    }
    let mut i: usize = 0;
    while i < spans.len()
        invariant
            i <= spans@.len(),
            spans@.len() == old(spans)@.len(),
            lv == labels_view(labels@),
            note@ == "注"@,
            !hide_labels,
            forall|j: int| i <= j < spans@.len() ==> #[trigger] spans@[j] == old(spans)@[j],
            forall|j: int|
                0 <= j < i ==> #[trigger] spans@[j] == (crate::spans::StyledSpan {
                    italic: old(spans)@[j].italic || overlaps_note(lv, old(spans)@[j], len as nat),
                    ..old(spans)@[j]
                }),
        decreases spans@.len() - i,
    {
        let sp = spans[i];
        let mut hit = false;
        let mut k: usize = 0;
        while k < labels.len()
            invariant
                k <= labels@.len(),
                lv == labels_view(labels@),
                note@ == "注"@,
                hit == exists|m: int| 0 <= m < k && #[trigger] note_hit(lv[m], sp, len as nat),
            decreases labels@.len() - k,
        {
            assert(lv[k as int] == labels@[k as int]@);
            let is_note = crate::label::chars_eq(&chars_of(labels[k].category.as_str()), &note);
            let e = if labels[k].end_byte < len { labels[k].end_byte } else { len };
            let hi = if sp.end < e { sp.end } else { e };
            let lo = if sp.start > labels[k].start_byte { sp.start } else { labels[k].start_byte };
            assert(note_hit(lv[k as int], sp, len as nat) == (is_note && hi > lo));
            if is_note && hi > lo {
                hit = true;
            }
            k += 1;
        }
        let mut sp2 = sp;
        sp2.italic = sp.italic || hit;
        spans.set(i, sp2);
        i += 1;
    }
}

// ── Argument health ──

/// Number of properties among the labels `ls` equal to `sym`.
pub open spec fn prop_count(ls: Seq<LabelView>, sym: Seq<char>) -> nat
    decreases ls.len(),
{
    if ls.len() == 0 {
        0
    } else {
        prop_count(ls.drop_last(), sym) + ls.last().properties.filter(|p: Seq<char>| p == sym).len()
    }
}

/// Number of properties of all labels.
pub open spec fn total_props(ls: Seq<LabelView>) -> nat
    decreases ls.len(),
{
    if ls.len() == 0 {
        0
    } else {
        total_props(ls.drop_last()) + ls.last().properties.len()
    }
}

/// Number of tag symbols equal to `sym`.
pub open spec fn symbol_count(syms: Seq<Seq<char>>, sym: Seq<char>) -> nat {
    syms.filter(|x: Seq<char>| x == sym).len()
}

/// How often the tag `sym` is counted: once for each property equal to it and each
/// tag code with that symbol.
pub open spec fn tag_count(ls: Seq<LabelView>, syms: Seq<Seq<char>>, sym: Seq<char>) -> nat {
    prop_count(ls, sym) * symbol_count(syms, sym)
}

/// The labels with a question: each label once per property that holds a `?`.
pub open spec fn question_labels(ls: Seq<LabelView>, k: int) -> Seq<nat>
    decreases k,
{
    if k <= 0 {
        seq![]
    } else {
        question_labels(ls, k - 1) + Seq::new(
            ls[k - 1].properties.filter(|p: Seq<char>| p.contains('?')).len(),
            |_i: int| (k - 1) as nat,
        )
    }
}

/// Tag counts, questions and balance of an argument.
pub struct HealthReport {
    /// How often each tag code's symbol is counted, in the order of the codes.
    pub counts: Vec<usize>,
    /// Indices of labels with a question, once per such property.
    pub questions: Vec<usize>,
    /// Supporting tags but neither opposing nor conceding ones.
    pub unbalanced: bool,
}

/// The health report of the labels `ls` with the tag symbols `syms`.
pub open spec fn health_of(ls: Seq<LabelView>, syms: Seq<Seq<char>>) -> (Seq<nat>, Seq<nat>, bool) {
    (
        syms.map_values(|s: Seq<char>| tag_count(ls, syms, s)),
        question_labels(ls, ls.len() as int),
        tag_count(ls, syms, seq!['+']) > 0 && tag_count(ls, syms, seq!['-']) == 0 && tag_count(
            ls,
            syms,
            seq!['~'],
        ) == 0,
    )
}

proof fn lemma_filter_push<A>(s: Seq<A>, x: A, f: spec_fn(A) -> bool)
    ensures
        s.push(x).filter(f) == if f(x) { s.filter(f).push(x) } else { s.filter(f) },
{
    reveal(Seq::filter);
    assert(s.push(x).drop_last() =~= s);
}

fn count_equal(v: &Vec<String>, sym: &Vec<char>) -> (r: usize)
    ensures
        r == crate::label::strings_view(v@).filter(|x: Seq<char>| x == sym@).len(),
        r <= v@.len(),
{
    let ghost sv = crate::label::strings_view(v@);
    let mut n: usize = 0;
    let mut i: usize = 0;
    proof {
        assert(sv.take(0) =~= Seq::<Seq<char>>::empty());
        reveal(Seq::filter);
    }
    while i < v.len()
        invariant
            i <= v@.len(),
            sv == crate::label::strings_view(v@),
            n == sv.take(i as int).filter(|x: Seq<char>| x == sym@).len(),
            n <= i,
        decreases v@.len() - i,
    {
        proof {
            assert(sv.take(i + 1) =~= sv.take(i as int).push(sv[i as int]));
            lemma_filter_push(sv.take(i as int), sv[i as int], |x: Seq<char>| x == sym@);
        }
        if crate::label::chars_eq(&chars_of(v[i].as_str()), sym) {
            n += 1;
        }
        i += 1;
    }
    assert(sv.take(v@.len() as int) =~= sv);
    n
}

fn prop_count_exec(labels: &Vec<SemanticLabel>, sym: &Vec<char>) -> (r: usize)
    requires
        total_props(labels_view(labels@)) <= usize::MAX,
    ensures
        r == prop_count(labels_view(labels@), sym@),
        r <= total_props(labels_view(labels@)),
{
    let ghost lv = labels_view(labels@);
    let mut n: usize = 0;
    let mut k: usize = 0;
    proof {
        assert(lv.take(0) =~= Seq::<LabelView>::empty());
        lemma_total_props_prefix(lv, 0);
    }
    while k < labels.len()
        invariant
            k <= labels@.len(),
            lv == labels_view(labels@),
            total_props(lv) <= usize::MAX,
            n == prop_count(lv.take(k as int), sym@),
            n <= total_props(lv.take(k as int)),
        decreases labels@.len() - k,
    {
        assert(lv.take(k + 1).drop_last() =~= lv.take(k as int));
        assert(lv[k as int] == labels@[k as int]@);
        let c = count_equal(&labels[k].properties, sym);
        proof {
            lemma_total_props_prefix(lv, k + 1);
        }
        n = n + c;
        k += 1;
    }
    assert(lv.take(labels@.len() as int) =~= lv);
    n
}

proof fn lemma_total_props_prefix(ls: Seq<LabelView>, k: int)
    requires
        0 <= k <= ls.len(),
    ensures
        total_props(ls.take(k)) <= total_props(ls),
    decreases ls.len(),
{
    if k < ls.len() {
        assert(ls.drop_last().take(k) =~= ls.take(k));
        lemma_total_props_prefix(ls.drop_last(), k);
    } else {
        assert(ls.take(k) =~= ls);
    }
}

fn tag_count_exec(labels: &Vec<SemanticLabel>, symbols: &Vec<String>, sym: &Vec<char>) -> (r: usize)
    requires
        total_props(labels_view(labels@)) * symbols@.len() <= usize::MAX,
    ensures
        r == tag_count(labels_view(labels@), crate::label::strings_view(symbols@), sym@),
{
    let ghost lv = labels_view(labels@);
    let ghost tp = total_props(lv);
    proof {
        if symbols@.len() == 0 {
        } else {
            assert(tp <= tp * symbols@.len()) by (nonlinear_arith)
                requires symbols@.len() >= 1;
        }
    }
    let m = count_equal(symbols, sym);
    if m == 0 {
        assert(prop_count(lv, sym@) * 0 == 0) by (nonlinear_arith);
        return 0;
    }
    let p = prop_count_exec(labels, sym);
    assert(p * m <= tp * symbols@.len()) by (nonlinear_arith)
        requires p <= tp, m <= symbols@.len();
    p * m
}

/// The argument's health: how often each tag code is counted, which labels hold a
/// question, and whether it only supports (see [`health_of`]).
pub fn health_check(labels: &Vec<SemanticLabel>, symbols: &Vec<String>) -> (r: HealthReport)
    requires
        total_props(labels_view(labels@)) * symbols@.len() <= usize::MAX,
    ensures
        (r.counts@.map_values(|c: usize| c as nat), r.questions@.map_values(|q: usize| q as nat), r.unbalanced)
            == health_of(labels_view(labels@), crate::label::strings_view(symbols@)),
{
    let ghost lv = labels_view(labels@);
    let ghost sv = crate::label::strings_view(symbols@);
    let mut counts: Vec<usize> = Vec::new();
    let mut i: usize = 0;
    while i < symbols.len()
        invariant
            i <= symbols@.len(),
            lv == labels_view(labels@),
            sv == crate::label::strings_view(symbols@),
            total_props(lv) * symbols@.len() <= usize::MAX,
            counts@.map_values(|c: usize| c as nat) == sv.take(i as int).map_values(|s: Seq<char>| tag_count(lv, sv, s)),
        decreases symbols@.len() - i,
    {
        let sym = chars_of(symbols[i].as_str());
        let c = tag_count_exec(labels, symbols, &sym);
        let ghost before = counts@;
        assert(sv[i as int] == sym@);
        assert(sv.take(i + 1) =~= sv.take(i as int).push(sv[i as int]));
        counts.push(c);
        assert(counts@.map_values(|c: usize| c as nat) =~= before.map_values(|c: usize| c as nat).push(c as nat));
        assert(counts@.map_values(|c: usize| c as nat) =~= sv.take(i + 1).map_values(|s: Seq<char>| tag_count(lv, sv, s)));
        i += 1;
    }
    assert(sv.take(symbols@.len() as int) =~= sv);
    let mut questions: Vec<usize> = Vec::new();
    let mut k: usize = 0;
    while k < labels.len()
        invariant
            k <= labels@.len(),
            lv == labels_view(labels@),
            questions@.map_values(|q: usize| q as nat) == question_labels(lv, k as int),
        decreases labels@.len() - k,
    {
        assert(lv[k as int] == labels@[k as int]@);
        let ghost props = crate::label::strings_view(labels@[k as int].properties@);
        let ghost base = questions@.map_values(|q: usize| q as nat);
        let mut j: usize = 0;
        proof {
            reveal(Seq::filter);
            assert(props.take(0) =~= Seq::<Seq<char>>::empty());
            assert(questions@.map_values(|q: usize| q as nat) =~= base + Seq::new(props.take(0).filter(|p: Seq<char>| p.contains('?')).len(), |_i: int| k as nat));
        }
        while j < labels[k].properties.len()
            invariant
                j <= labels@[k as int].properties@.len(),
                k < labels@.len(),
                props == crate::label::strings_view(labels@[k as int].properties@),
                questions@.map_values(|q: usize| q as nat) == base + Seq::new(props.take(j as int).filter(|p: Seq<char>| p.contains('?')).len(), |_i: int| k as nat),
            decreases labels@[k as int].properties@.len() - j,
        {
            let pc = chars_of(labels[k].properties[j].as_str());
            let mut has_q = false;
            let mut t: usize = 0;
            while t < pc.len()
                invariant
                    t <= pc@.len(),
                    has_q == exists|m: int| 0 <= m < t && pc@[m] == '?',
                decreases pc@.len() - t,
            {
                if pc[t] == '?' {
                    has_q = true;
                }
                t += 1;
            }
            proof {
                assert(props.take(j + 1) =~= props.take(j as int).push(props[j as int]));
                lemma_filter_push(props.take(j as int), props[j as int], |p: Seq<char>| p.contains('?'));
                assert(props[j as int] == pc@);
                if pc@.contains('?') {
                    let m = choose|m: int| 0 <= m < pc@.len() && pc@[m] == '?';
                    assert(has_q);
                }
            }
            if has_q {
                let ghost before = questions@.map_values(|q: usize| q as nat);
                questions.push(k);
                proof {
                    let c = props.take(j as int).filter(|p: Seq<char>| p.contains('?')).len();
                    assert(questions@.map_values(|q: usize| q as nat) =~= before.push(k as nat));
                    assert(Seq::new(c + 1, |_i: int| k as nat) =~= Seq::new(c, |_i: int| k as nat).push(k as nat));
                }
            }
            j += 1;
        }
        assert(props.take(labels@[k as int].properties@.len() as int) =~= props);
        k += 1;
    }
    let plus = chars_of("+");
    let minus = chars_of("-");
    let tilde = chars_of("~");
    proof {
        reveal_strlit("+");
        reveal_strlit("-");
        reveal_strlit("~");
        assert("+"@ =~= seq!['+']);
        assert("-"@ =~= seq!['-']);
        assert("~"@ =~= seq!['~']);
    }
    let pos = tag_count_exec(labels, symbols, &plus);
    let neg = tag_count_exec(labels, symbols, &minus);
    let sub = tag_count_exec(labels, symbols, &tilde);
    HealthReport { counts, questions, unbalanced: pos > 0 && neg == 0 && sub == 0 }
}


// ── Copying ──

/// What goes to the clipboard when the characters between positions `a` and `b` of
/// `s` (in either order, cut at the text's length) are copied: nothing for an empty
/// selection; for the clean-copy shortcut, or while labels are hidden, the selection
/// with every `[...]` span removed; else the selection as it is.
pub open spec fn clipboard_of(s: Seq<char>, a: int, b: int, clean: bool, hide_labels: bool) -> Option<Seq<char>> {
    let lo = if a < b { a } else { b };
    let hi = if a < b { b } else { a };
    let l = if lo < s.len() { lo } else { s.len() as int };
    let h = if hi < s.len() { hi } else { s.len() as int };
    if a == b {
        None
    } else if clean || hide_labels {
        Some(crate::label::strip_scan(s.subrange(l, h), 0, seq!['['], seq![']']))
    } else {
        Some(s.subrange(l, h))
    }
}

/// The clipboard text for copying the selection `a`..`b` (character positions) of
/// `text` (see [`clipboard_of`]); `clean` is the clean-copy shortcut.
pub fn clipboard_text(text: &str, a: usize, b: usize, clean: bool, hide_labels: bool) -> (r: Option<String>)
    ensures
        match r {
            Some(t) => clipboard_of(text@, a as int, b as int, clean, hide_labels) == Some(t@),
            None => clipboard_of(text@, a as int, b as int, clean, hide_labels) is None,
        },
{
    if a == b {
        return None;
    }
    let v = chars_of(text);
    let lo = if a < b { a } else { b };
    let hi = if a < b { b } else { a };
    let l = if lo < v.len() { lo } else { v.len() };
    let h = if hi < v.len() { hi } else { v.len() };
    let sel = string_of(&v, l, h);
    if clean || hide_labels {
        Some(crate::label::strip_all_labels_regex(sel.as_str()))
    } else {
        Some(sel)
    }
}

} // verus!
