//! Structural editing: the markers that split a document into blocks (labels and
//! headings), and moving or deleting those blocks.

use vstd::prelude::*;
use crate::doc::{
    extract_headings, heading_at, heading_at_exec, headings_of, headings_upto, headings_view,
    lemma_lines_from_bounds,
};
use crate::label::{
    char_at_byte, char_index_of_byte, labels_view, lemma_char_at_byte_found, parse_labels,
    parse_semantic_labels, LabelView,
};
use crate::label_laws::{law_labels_ordered, lemma_char_at_byte_exact};
use crate::text::{
    decimal, push_decimal, byte_len, char_len_utf8, char_width, chars_of, line_bounds, lines_from, next_line,
    next_newline, push_chars, push_str, string_of, string_push, utf8_len, lemma_utf8_len_concat,
    lemma_utf8_len_step, lemma_utf8_len_take,
};

verus! {

// ── Structure markers ──

pub open spec fn markers_view(v: Seq<(usize, String)>) -> Seq<(nat, Seq<char>)> {
    v.map_values(|m: (usize, String)| (m.0 as nat, m.1@))
}

/// A marker for each label: its start byte and `[category]`.
pub open spec fn label_markers(ls: Seq<LabelView>) -> Seq<(nat, Seq<char>)> {
    ls.map_values(|l: LabelView| (l.start_byte, seq!['['] + l.category + seq![']']))
}

/// Bytes of the first `k` lines `ls` of `s`, each counted with one byte for its
/// line break.
pub open spec fn lines_bytes(s: Seq<char>, ls: Seq<(int, int)>, k: int) -> nat
    decreases k,
{
    if k <= 0 {
        0
    } else {
        lines_bytes(s, ls, k - 1) + utf8_len(s.subrange(ls[k - 1].0, ls[k - 1].1)) + 1
    }
}

/// A marker for each heading among the first `k` lines `ls`: the bytes of the lines
/// before it (by `lines_bytes`) and its title.
pub open spec fn heading_markers_upto(s: Seq<char>, ls: Seq<(int, int)>, k: int) -> Seq<
    (nat, Seq<char>),
>
    decreases k,
{
    if k <= 0 {
        seq![]
    } else {
        let prev = heading_markers_upto(s, ls, k - 1);
        match heading_at(s, ls[k - 1].0, ls[k - 1].1) {
            Some(h) => prev.push((lines_bytes(s, ls, k - 1), h.1)),
            None => prev,
        }
    }
}

/// A marker for each heading of `s`.
pub open spec fn heading_markers(s: Seq<char>) -> Seq<(nat, Seq<char>)> {
    heading_markers_upto(s, line_bounds(s), line_bounds(s).len() as int)
}

/// Inserts `x` into `sorted` after every marker at or before its offset.
pub open spec fn insert_by_offset(sorted: Seq<(nat, Seq<char>)>, x: (nat, Seq<char>)) -> Seq<
    (nat, Seq<char>),
>
    decreases sorted.len(),
{
    if sorted.len() == 0 {
        seq![x]
    } else if sorted.last().0 <= x.0 {
        sorted.push(x)
    } else {
        insert_by_offset(sorted.drop_last(), x).push(sorted.last())
    }
}

/// Stable sort by offset (`sort_by_key`).
pub open spec fn sort_by_offset(ms: Seq<(nat, Seq<char>)>) -> Seq<(nat, Seq<char>)>
    decreases ms.len(),
{
    if ms.len() == 0 {
        seq![]
    } else {
        insert_by_offset(sort_by_offset(ms.drop_last()), ms.last())
    }
}

/// The structure markers of `s`: label markers, then heading markers, stably sorted
/// by offset.
pub open spec fn structure_markers(s: Seq<char>) -> Seq<(nat, Seq<char>)> {
    sort_by_offset(label_markers(parse_labels(s, seq!['['], seq![']'])) + heading_markers(s))
}

fn insert_by_offset_exec(sorted: &mut Vec<(usize, String)>, x: (usize, String))
    ensures
        markers_view(final(sorted)@) == insert_by_offset(markers_view(old(sorted)@), (x.0 as nat, x.1@)),
    decreases old(sorted)@.len(),
{
    let n = sorted.len();
    let ghost xv = (x.0 as nat, x.1@);
    if n == 0 {
        sorted.push(x);
        assert(markers_view(sorted@) =~= seq![xv]);
    } else if sorted[n - 1].0 <= x.0 {
        let ghost before = sorted@;
        sorted.push(x);
        assert(markers_view(sorted@) =~= markers_view(before).push(xv));
    } else {
        let ghost before = sorted@;
        let last = sorted.pop().unwrap();
        let ghost lv = (last.0 as nat, last.1@);
        assert(markers_view(sorted@) =~= markers_view(before).drop_last());
        insert_by_offset_exec(sorted, x);
        let ghost mid = sorted@;
        sorted.push(last);
        assert(markers_view(sorted@) =~= markers_view(mid).push(lv));
    }
}

/// Every character takes at least one byte.
pub proof fn lemma_utf8_len_ge_len(s: Seq<char>)
    ensures
        utf8_len(s) >= s.len(),
    decreases s.len(),
{
    if s.len() > 0 {
        lemma_utf8_len_ge_len(s.drop_last());
    }
}

/// A range of a sequence takes no more bytes than the whole.
pub proof fn lemma_utf8_len_range(s: Seq<char>, a: int, b: int)
    requires
        0 <= a <= b <= s.len(),
    ensures
        utf8_len(s.take(a)) + utf8_len(s.subrange(a, b)) == utf8_len(s.take(b)),
        utf8_len(s.take(b)) <= utf8_len(s),
{
    assert(s.take(b) =~= s.take(a) + s.subrange(a, b));
    lemma_utf8_len_concat(s.take(a), s.subrange(a, b));
    assert(s =~= s.take(b) + s.skip(b));
    lemma_utf8_len_concat(s.take(b), s.skip(b));
}

/// Bytes of `v[a..b]`.
fn range_bytes(v: &Vec<char>, a: usize, b: usize) -> (r: usize)
    requires
        a <= b <= v@.len(),
        utf8_len(v@) <= usize::MAX,
    ensures
        r == utf8_len(v@.subrange(a as int, b as int)),
{
    let mut acc: usize = 0;
    let mut i = a;
    proof {
        lemma_utf8_len_range(v@, a as int, b as int);
    }
    while i < b
        invariant
            a <= i <= b <= v@.len(),
            acc == utf8_len(v@.subrange(a as int, i as int)),
            utf8_len(v@.take(a as int)) + utf8_len(v@.subrange(a as int, b as int)) <= utf8_len(v@),
            utf8_len(v@) <= usize::MAX,
        decreases b - i,
    {
        proof {
            let t = v@.subrange(a as int, b as int);
            assert(v@.subrange(a as int, i + 1) =~= t.take(i + 1 - a));
            assert(v@.subrange(a as int, i as int) =~= t.take(i - a));
            lemma_utf8_len_step(t, i - a);
            lemma_utf8_len_range(t, i + 1 - a, t.len() as int);
            assert(t.take(t.len() as int) =~= t);
        }
        acc = acc + char_len_utf8(v[i]);
        i += 1;
    }
    acc
}

/// The structure markers of `text`: one per label (`[category]` at its start byte)
/// and one per heading (its title at the bytes of the lines before it, each line
/// counted with one byte for its break), in order of offset, labels first among equals.
pub fn get_structure_markers(text: &str) -> (r: Vec<(usize, String)>)
    ensures
        markers_view(r@) == structure_markers(text@),
{
    let labels = parse_semantic_labels(text);
    let ghost lm = label_markers(labels_view(labels@));
    let mut all: Vec<(usize, String)> = Vec::new();
    let mut i: usize = 0;
    while i < labels.len()
        invariant
            i <= labels@.len(),
            lm == label_markers(labels_view(labels@)),
            markers_view(all@) == lm.take(i as int),
        decreases labels@.len() - i,
    {
        let mut m = String::new();
        string_push(&mut m, '[');
        push_str(&mut m, labels[i].category.as_str());
        string_push(&mut m, ']');
        let ghost before = all@;
        proof {
            assert(m@ =~= seq!['['] + labels@[i as int].category@ + seq![']']);
            assert(labels_view(labels@)[i as int] == labels@[i as int]@);
        }
        all.push((labels[i].start_byte, m));
        proof {
            assert(markers_view(all@) =~= markers_view(before).push(lm[i as int]));
            assert(lm.take(i + 1) =~= lm.take(i as int).push(lm[i as int]));
        }
        i += 1;
    }
    assert(lm.take(labels@.len() as int) =~= lm);
    let v = chars_of(text);
    let n = v.len();
    let total = byte_len(text);
    let ghost lines = line_bounds(v@);
    let ghost mut done: Seq<(int, int)> = seq![];
    let mut start: usize = 0;
    let mut k: usize = 0;
    let mut acc: usize = 0;
    proof {
        lemma_lines_from_bounds(v@, 0);
        assert(done + lines_from(v@, 0) =~= lines);
        assert(lm + heading_markers_upto(v@, lines, 0) =~= lm);
        assert(v@.take(0) =~= Seq::<char>::empty());
    }
    while start < n
        invariant
            n == v@.len(),
            v@ == text@,
            total == utf8_len(v@),
            lines == line_bounds(v@),
            start <= n,
            lines == done + lines_from(v@, start as int),
            k == done.len(),
            k <= start,
            start < n ==> acc == lines_bytes(v@, lines, k as int),
            start < n ==> acc <= utf8_len(v@.take(start as int)),
            markers_view(all@) == lm + heading_markers_upto(v@, lines, k as int),
        decreases n - start,
    {
        let (a, b, next) = next_line(&v, start);
        assert(lines[k as int] == (a as int, b as int)) by {
            assert(lines_from(v@, start as int)[0] == (a as int, b as int));
        }
        let h = heading_at_exec(&v, a, b);
        match h {
            Some((_lv, title)) => {
                let ghost before = all@;
                let ghost tv = title@;
                all.push((acc, title));
                proof {
                    assert(markers_view(all@) =~= markers_view(before).push((acc as nat, tv)));
                    assert(lm + heading_markers_upto(v@, lines, k + 1) =~= (lm
                        + heading_markers_upto(v@, lines, k as int)).push((acc as nat, tv)));
                }
            },
            None => {
                assert(lm + heading_markers_upto(v@, lines, k + 1) =~= lm
                    + heading_markers_upto(v@, lines, k as int));
            },
        }
        if next < n {
            proof {
                lemma_utf8_len_range(v@, start as int, b as int);
                lemma_utf8_len_range(v@, b as int, next as int);
                lemma_utf8_len_range(v@, start as int, next as int);
                let tail = v@.subrange(b as int, next as int);
                lemma_utf8_len_ge_len(tail);
                lemma_utf8_len_range(v@, next as int, n as int);
                assert(v@.take(n as int) =~= v@);
            }
            let lb = range_bytes(&v, a, b);
            acc = acc + lb + 1;
        }
        proof {
            let d2 = done.push((a as int, b as int));
            if next >= n {
                assert(lines_from(v@, next as int) =~= Seq::<(int, int)>::empty());
            }
            assert(lines =~= d2 + lines_from(v@, next as int));
            done = d2;
        }
        k += 1;
        start = next;
    }
    proof {
        assert(lines_from(v@, start as int) =~= Seq::<(int, int)>::empty());
        assert(lines =~= done);
    }
    let ghost um = markers_view(all@);
    let count = all.len();
    let mut sorted: Vec<(usize, String)> = Vec::new();
    let mut m: usize = 0;
    while all.len() > 0
        invariant
            markers_view(all@) == um.skip(m as int),
            m <= um.len(),
            um.len() == count,
            markers_view(sorted@) == sort_by_offset(um.take(m as int)),
        decreases all@.len(),
    {
        let ghost before = all@;
        assert(m < um.len()) by {
            assert(um.skip(m as int).len() > 0);
        }
        let x = all.remove(0);
        proof {
            assert(markers_view(all@) =~= markers_view(before).skip(1));
            assert(markers_view(before)[0] == um[m as int]);
            assert(markers_view(all@) =~= um.skip(m + 1));
            assert(um.take(m + 1).drop_last() =~= um.take(m as int));
            assert(um.take(m + 1).last() == um[m as int]);
        }
        insert_by_offset_exec(&mut sorted, x);
        m += 1;
    }
    assert(um.skip(m as int).len() == 0);
    assert(um.take(m as int) =~= um);
    sorted
}

// ── Blocks ──

/// Byte offset `b` is a character boundary of `s` (and at most its length).
pub open spec fn is_boundary(s: Seq<char>, b: int) -> bool {
    char_at_byte(s, b) >= 0
}

/// Offset of the first marker from the `i`-th on that lies after `start`.
pub open spec fn next_marker_from(ms: Seq<(nat, Seq<char>)>, i: int, start: int) -> Option<nat>
    decreases ms.len() - i,
{
    if i < 0 || i >= ms.len() {
        None
    } else if ms[i].0 > start {
        Some(ms[i].0)
    } else {
        next_marker_from(ms, i + 1, start)
    }
}

/// Offset of the first marker that lies after `start`.
pub open spec fn next_marker(ms: Seq<(nat, Seq<char>)>, start: int) -> Option<nat> {
    next_marker_from(ms, 0, start)
}

/// Where the block starting at byte `start` of `s` ends: at the next structure
/// marker after `start`, or at the end of `s`.
pub open spec fn block_end(s: Seq<char>, start: int) -> nat {
    match next_marker(structure_markers(s), start) {
        Some(m) => m,
        None => utf8_len(s),
    }
}

fn next_marker_exec(ms: &Vec<(usize, String)>, start: usize) -> (r: Option<usize>)
    ensures
        match r {
            Some(m) => next_marker(markers_view(ms@), start as int) == Some(m as nat),
            None => next_marker(markers_view(ms@), start as int) is None,
        },
{
    let ghost mv = markers_view(ms@);
    let mut i: usize = 0;
    while i < ms.len()
        invariant
            i <= ms@.len(),
            mv == markers_view(ms@),
            next_marker(mv, start as int) == next_marker_from(mv, i as int, start as int),
        decreases ms@.len() - i,
    {
        assert(mv[i as int].0 == ms@[i as int].0);
        if ms[i].0 > start {
            return Some(ms[i].0);
        }
        i += 1;
    }
    None
}

/// The byte range of the block that starts at `start`: up to the next structure
/// marker after it, or to the end of the text.
pub fn calculate_block_range(text: &str, start: usize) -> (r: (usize, usize))
    ensures
        r == (start, block_end(text@, start as int) as usize),
        r.1 == block_end(text@, start as int),
{
    let markers = get_structure_markers(text);
    match next_marker_exec(&markers, start) {
        Some(m) => (start, m),
        None => (start, byte_len(text)),
    }
}

/// The characters of `s` with the byte range `[a, b)` removed.
pub open spec fn cut_bytes(s: Seq<char>, a: int, b: int) -> Seq<char> {
    s.take(char_at_byte(s, a)) + s.skip(char_at_byte(s, b))
}

proof fn lemma_boundary_order(s: Seq<char>, a: int, b: int)
    requires
        is_boundary(s, a),
        is_boundary(s, b),
        a <= b,
    ensures
        0 <= char_at_byte(s, a) <= char_at_byte(s, b) <= s.len(),
        utf8_len(s.take(char_at_byte(s, a))) == a,
        utf8_len(s.take(char_at_byte(s, b))) == b,
{
    lemma_char_at_byte_found(s, a, 0);
    lemma_char_at_byte_found(s, b, 0);
    let i = char_at_byte(s, a);
    let j = char_at_byte(s, b);
    if j < i {
        crate::text::lemma_utf8_len_mono(s, j, i);
    }
}

proof fn lemma_boundary_le_len(s: Seq<char>, a: int)
    requires
        is_boundary(s, a),
    ensures
        0 <= a <= utf8_len(s),
{
    lemma_char_at_byte_found(s, a, 0);
    lemma_utf8_len_range(s, char_at_byte(s, a), s.len() as int);
    assert(s.take(s.len() as int) =~= s);
}

proof fn lemma_block_end_after(s: Seq<char>, start: int)
    requires
        0 <= start <= utf8_len(s),
    ensures
        start <= block_end(s, start),
{
    lemma_next_marker_after(structure_markers(s), 0, start);
}

proof fn lemma_next_marker_after(ms: Seq<(nat, Seq<char>)>, i: int, start: int)
    ensures
        match next_marker_from(ms, i, start) {
            Some(m) => m > start,
            None => true,
        },
    decreases ms.len() - i,
{
    if 0 <= i < ms.len() && ms[i].0 <= start {
        lemma_next_marker_after(ms, i + 1, start);
    }
}

/// Appends `v[lo..hi]` to `out`.
fn push_range(out: &mut Vec<char>, v: &Vec<char>, lo: usize, hi: usize)
    requires
        lo <= hi <= v@.len(),
    ensures
        final(out)@ == old(out)@ + v@.subrange(lo as int, hi as int),
{
    let mut t = lo;
    while t < hi
        invariant
            lo <= t <= hi <= v@.len(),
            out@ == old(out)@ + v@.subrange(lo as int, t as int),
        decreases hi - t,
    {
        out.push(v[t]);
        assert(v@.subrange(lo as int, t + 1) =~= v@.subrange(lo as int, t as int).push(v@[t as int]));
        t += 1;
    }
}

/// Deletes the block that starts at byte `start` (see [`calculate_block_range`]).
pub fn delete_block(text: &mut String, start: usize, _end: usize)
    requires
        is_boundary(old(text)@, start as int),
        is_boundary(old(text)@, block_end(old(text)@, start as int) as int),
    ensures
        final(text)@ == cut_bytes(old(text)@, start as int, block_end(old(text)@, start as int) as int),
{
    let (bs, be) = calculate_block_range(text.as_str(), start);
    let v = chars_of(text.as_str());
    proof {
        lemma_boundary_le_len(v@, start as int);
        lemma_block_end_after(v@, start as int);
        lemma_boundary_order(v@, bs as int, be as int);
    }
    let i = char_index_of_byte(&v, bs);
    let j = char_index_of_byte(&v, be);
    let mut out: Vec<char> = Vec::new();
    push_range(&mut out, &v, 0, i);
    push_range(&mut out, &v, j, v.len());
    assert(out@ =~= cut_bytes(v@, bs as int, be as int));
    *text = string_of(&out, 0, out.len());
    assert(out@.subrange(0, out@.len() as int) =~= out@);
}

/// Moving the block at byte `start` before the last structure marker of the text
/// before it; `None` where the edit would cut through a character.
pub open spec fn block_up(s: Seq<char>, start: int) -> Option<Seq<char>> {
    if start == 0 {
        Some(s)
    } else if !is_boundary(s, start) {
        None
    } else {
        let i = char_at_byte(s, start);
        let pm = structure_markers(s.take(i));
        if pm.len() == 0 {
            Some(s)
        } else {
            let e = block_end(s, start) as int;
            let p = char_at_byte(s.take(i), pm.last().0 as int);
            if !is_boundary(s, e) || p < 0 {
                None
            } else {
                let j = char_at_byte(s, e);
                Some(s.take(p) + s.subrange(i, j) + s.subrange(p, i) + s.skip(j))
            }
        }
    }
}

/// Moves the block that starts at byte `start` up, before the last structure marker
/// of the text before it.
pub fn move_block_up(text: &mut String, start: usize, _end: usize)
    requires
        block_up(old(text)@, start as int) is Some,
    ensures
        final(text)@ == block_up(old(text)@, start as int)->0,
{
    let (bs, be) = calculate_block_range(text.as_str(), start);
    if bs == 0 {
        return;
    }
    let v = chars_of(text.as_str());
    let i = char_index_of_byte(&v, bs);
    let prefix = string_of(&v, 0, i);
    assert(v@.subrange(0, i as int) =~= v@.take(i as int));
    let prev_markers = get_structure_markers(prefix.as_str());
    if prev_markers.len() == 0 {
        return;
    }
    let ps = prev_markers[prev_markers.len() - 1].0;
    proof {
        let pm = markers_view(prev_markers@);
        assert(pm.last().0 == ps);
        lemma_boundary_le_len(v@, start as int);
        lemma_block_end_after(v@, start as int);
        lemma_boundary_order(v@, bs as int, be as int);
    }
    let j = char_index_of_byte(&v, be);
    let pv = chars_of(prefix.as_str());
    let p = char_index_of_byte(&pv, ps);
    let mut out: Vec<char> = Vec::new();
    push_range(&mut out, &v, 0, p);
    push_range(&mut out, &v, i, j);
    push_range(&mut out, &v, p, i);
    push_range(&mut out, &v, j, v.len());
    assert(out@ =~= block_up(v@, start as int)->0);
    *text = string_of(&out, 0, out.len());
    assert(out@.subrange(0, out@.len() as int) =~= out@);
}

/// Moving the block at byte `start` down, to the end of the block that starts at the
/// first structure marker after its own end; `None` where the edit would cut through
/// a character.
pub open spec fn block_down(s: Seq<char>, start: int) -> Option<Seq<char>> {
    let e = block_end(s, start);
    if e >= utf8_len(s) {
        Some(s)
    } else {
        match next_marker(structure_markers(s), e as int) {
            None => Some(s),
            Some(m) => {
                let ne = block_end(s, m as int) as int;
                if !is_boundary(s, start) || !is_boundary(s, e as int) || !is_boundary(s, ne) {
                    None
                } else {
                    let i = char_at_byte(s, start);
                    let j = char_at_byte(s, e as int);
                    let k = char_at_byte(s, ne);
                    Some(s.take(i) + s.subrange(j, k) + s.subrange(i, j) + s.skip(k))
                }
            },
        }
    }
}

/// Moves the block that starts at byte `start` down, behind the block that starts at
/// the first structure marker after its end.
pub fn move_block_down(text: &mut String, start: usize, _end: usize)
    requires
        block_down(old(text)@, start as int) is Some,
    ensures
        final(text)@ == block_down(old(text)@, start as int)->0,
{
    let (bs, be) = calculate_block_range(text.as_str(), start);
    if be >= byte_len(text.as_str()) {
        return;
    }
    let markers = get_structure_markers(text.as_str());
    let m = match next_marker_exec(&markers, be) {
        Some(m) => m,
        None => {
            return;
        },
    };
    let (_, ne) = calculate_block_range(text.as_str(), m);
    let v = chars_of(text.as_str());
    proof {
        lemma_boundary_le_len(v@, start as int);
        lemma_block_end_after(v@, start as int);
        lemma_next_marker_after(structure_markers(v@), 0, be as int);
        lemma_next_marker_after(structure_markers(v@), 0, m as int);
        lemma_boundary_order(v@, bs as int, be as int);
        lemma_boundary_order(v@, be as int, ne as int);
    }
    let i = char_index_of_byte(&v, bs);
    let j = char_index_of_byte(&v, be);
    let k = char_index_of_byte(&v, ne);
    let mut out: Vec<char> = Vec::new();
    push_range(&mut out, &v, 0, i);
    push_range(&mut out, &v, j, k);
    push_range(&mut out, &v, i, j);
    push_range(&mut out, &v, k, v.len());
    assert(out@ =~= block_down(v@, start as int)->0);
    *text = string_of(&out, 0, out.len());
    assert(out@.subrange(0, out@.len() as int) =~= out@);
}

// ── Moving a heading's section ──

/// Character index where the `k`-th piece of `s` split after each line break starts
/// (the end of `s` for `k` at or past the number of lines).
pub open spec fn line_start(s: Seq<char>, k: int) -> int {
    if 0 <= k < line_bounds(s).len() {
        line_bounds(s)[k].0
    } else {
        s.len() as int
    }
}

/// Index of the first heading on line `ln`.
pub open spec fn heading_pos_from(hs: Seq<(nat, nat, Seq<char>)>, i: int, ln: int) -> Option<int>
    decreases hs.len() - i,
{
    if i < 0 || i >= hs.len() {
        None
    } else if hs[i].0 == ln {
        Some(i)
    } else {
        heading_pos_from(hs, i + 1, ln)
    }
}

/// Last line of the section of a heading on line `ln` at level `lv`: the line before
/// the first later heading at the same or a higher level, else `dflt`.
pub open spec fn section_end_from(hs: Seq<(nat, nat, Seq<char>)>, i: int, ln: nat, lv: nat, dflt: nat) -> nat
    decreases hs.len() - i,
{
    if i < 0 || i >= hs.len() {
        dflt
    } else if hs[i].0 > ln && hs[i].1 <= lv {
        (hs[i].0 - 1) as nat
    } else {
        section_end_from(hs, i + 1, ln, lv, dflt)
    }
}

/// The text after moving the section of the heading on line `from_line` (up to the
/// next heading at its level or above) before the `target_idx`-th heading of what
/// remains, or behind that heading's own section when `is_child`; the index counts
/// one less when the section came from before it, and a target past the last heading
/// means the end.
pub open spec fn markdown_move(s: Seq<char>, from_line: int, target_idx: int, is_child: bool) -> Seq<char> {
    let hs = headings_of(s);
    let n = line_bounds(s).len();
    match heading_pos_from(hs, 0, from_line) {
        None => s,
        Some(fi) => {
            let ln = hs[fi].0;
            let lv = hs[fi].1;
            if ln > n {
                s
            } else {
                let a = line_start(s, ln - 1);
                let b = line_start(s, section_end_from(hs, 0, ln, lv, n) as int);
                let chunk = s.subrange(a, b);
                let rest = s.take(a) + s.skip(b);
                let hs2 = headings_of(rest);
                let n2 = line_bounds(rest).len();
                let t = if fi < target_idx { target_idx - 1 } else { target_idx };
                let p = if t >= hs2.len() {
                    rest.len() as int
                } else if is_child {
                    line_start(rest, section_end_from(hs2, 0, hs2[t].0, hs2[t].1, n2) as int)
                } else {
                    line_start(rest, hs2[t].0 - 1)
                };
                rest.take(p) + chunk + rest.skip(p)
            }
        },
    }
}

/// Every heading lies on a line between 1 and the number of lines.
pub proof fn lemma_heading_lines(s: Seq<char>, ls: Seq<(int, int)>, k: int)
    requires
        0 <= k <= ls.len(),
    ensures
        forall|i: int|
            0 <= i < headings_upto(s, ls, k).len() ==> 1 <= #[trigger] headings_upto(s, ls, k)[i].0 <= k,
    decreases k,
{
    if k > 0 {
        lemma_heading_lines(s, ls, k - 1);
        let prev = headings_upto(s, ls, k - 1);
        let cur = headings_upto(s, ls, k);
        assert forall|i: int| 0 <= i < cur.len() implies 1 <= #[trigger] cur[i].0 <= k by {
            if i < prev.len() {
                assert(cur[i] == prev[i]);
            }
        }
    }
}

proof fn lemma_lines_from_increasing(s: Seq<char>, start: int)
    requires
        0 <= start,
    ensures
        forall|a: int, b: int|
            0 <= a < b < lines_from(s, start).len() ==> #[trigger] lines_from(s, start)[a].0
                < #[trigger] lines_from(s, start)[b].0,
    decreases s.len() - start,
{
    if start < s.len() {
        let j = next_newline(s, start);
        crate::text::lemma_next_newline(s, start);
        if j < s.len() {
            lemma_lines_from_increasing(s, j + 1);
            lemma_lines_from_bounds(s, j + 1);
            let rest = lines_from(s, j + 1);
            let all = lines_from(s, start);
            assert forall|a: int, b: int| 0 <= a < b < all.len() implies #[trigger] all[a].0
                < #[trigger] all[b].0 by {
                assert(all[b] == rest[b - 1]);
                if a > 0 {
                    assert(all[a] == rest[a - 1]);
                } else {
                    assert(all[a].0 == start);
                    assert(j + 1 <= rest[b - 1].0);
                }
            }
        }
    }
}

/// Start of every line of `v`, and its length at the end.
fn line_starts(v: &Vec<char>) -> (r: Vec<usize>)
    ensures
        r@.len() == line_bounds(v@).len() + 1,
        forall|k: int| 0 <= k < r@.len() ==> #[trigger] r@[k] == line_start(v@, k),
        forall|a: int, b: int| 0 <= a <= b < r@.len() ==> #[trigger] r@[a] <= #[trigger] r@[b],
        forall|k: int| 0 <= k < r@.len() ==> #[trigger] r@[k] <= v@.len(),
{
    let n = v.len();
    let ghost lines = line_bounds(v@);
    let ghost mut done: Seq<(int, int)> = seq![];
    let mut r: Vec<usize> = Vec::new();
    let mut start: usize = 0;
    proof {
        lemma_lines_from_bounds(v@, 0);
        assert(done + lines_from(v@, 0) =~= lines);
    }
    while start < n
        invariant
            n == v@.len(),
            lines == line_bounds(v@),
            start <= n,
            lines == done + lines_from(v@, start as int),
            r@.len() == done.len(),
            forall|k: int| 0 <= k < r@.len() ==> #[trigger] r@[k] == done[k].0,
            forall|a: int, b: int| 0 <= a <= b < r@.len() ==> #[trigger] r@[a] <= #[trigger] r@[b],
            forall|k: int| 0 <= k < r@.len() ==> #[trigger] r@[k] < start || start == 0 && r@.len() == 0,
        decreases n - start,
    {
        let (a, b, next) = next_line(&v, start);
        r.push(start);
        proof {
            let d2 = done.push((a as int, b as int));
            if next >= n {
                assert(lines_from(v@, next as int) =~= Seq::<(int, int)>::empty());
            }
            assert(lines =~= d2 + lines_from(v@, next as int));
            done = d2;
        }
        start = next;
    }
    proof {
        assert(lines_from(v@, start as int) =~= Seq::<(int, int)>::empty());
        assert(lines =~= done);
    }
    r.push(n);
    r
}

fn heading_pos_exec(hs: &Vec<(usize, usize, String)>, ln: usize) -> (r: Option<usize>)
    ensures
        match r {
            Some(i) => heading_pos_from(headings_view(hs@), 0, ln as int) == Some(i as int),
            None => heading_pos_from(headings_view(hs@), 0, ln as int) is None,
        },
{
    let ghost hv = headings_view(hs@);
    let mut i: usize = 0;
    while i < hs.len()
        invariant
            i <= hs@.len(),
            hv == headings_view(hs@),
            heading_pos_from(hv, 0, ln as int) == heading_pos_from(hv, i as int, ln as int),
        decreases hs@.len() - i,
    {
        assert(hv[i as int].0 == hs@[i as int].0);
        if hs[i].0 == ln {
            return Some(i);
        }
        i += 1;
    }
    None
}

fn section_end_exec(hs: &Vec<(usize, usize, String)>, ln: usize, lv: usize, dflt: usize) -> (r: usize)
    requires
        forall|i: int| 0 <= i < hs@.len() ==> 1 <= #[trigger] hs@[i].0,
    ensures
        r == section_end_from(headings_view(hs@), 0, ln as nat, lv as nat, dflt as nat),
{
    let ghost hv = headings_view(hs@);
    let mut i: usize = 0;
    while i < hs.len()
        invariant
            i <= hs@.len(),
            hv == headings_view(hs@),
            forall|i: int| 0 <= i < hs@.len() ==> 1 <= #[trigger] hs@[i].0,
            section_end_from(hv, 0, ln as nat, lv as nat, dflt as nat) == section_end_from(
                hv,
                i as int,
                ln as nat,
                lv as nat,
                dflt as nat,
            ),
        decreases hs@.len() - i,
    {
        assert(hv[i as int].0 == hs@[i as int].0 && hv[i as int].1 == hs@[i as int].1);
        if hs[i].0 > ln && hs[i].1 <= lv {
            return hs[i].0 - 1;
        }
        i += 1;
    }
    dflt
}

proof fn lemma_section_end_bound(hs: Seq<(nat, nat, Seq<char>)>, i: int, ln: nat, lv: nat, dflt: nat)
    requires
        forall|k: int| 0 <= k < hs.len() ==> #[trigger] hs[k].0 <= dflt,
    ensures
        section_end_from(hs, i, ln, lv, dflt) <= dflt,
        ln <= section_end_from(hs, i, ln, lv, dflt) || ln > dflt,
    decreases hs.len() - i,
{
    if 0 <= i < hs.len() && !(hs[i].0 > ln && hs[i].1 <= lv) {
        lemma_section_end_bound(hs, i + 1, ln, lv, dflt);
    }
}

/// Headings of `text` with their lines known to lie within the text.
fn headings_with_bounds(text: &str) -> (r: Vec<(usize, usize, String)>)
    ensures
        headings_view(r@) == headings_of(text@),
        forall|i: int|
            0 <= i < r@.len() ==> 1 <= #[trigger] r@[i].0 <= line_bounds(text@).len(),
{
    let r = extract_headings(text);
    proof {
        let ls = line_bounds(text@);
        lemma_heading_lines(text@, ls, ls.len() as int);
        assert forall|i: int| 0 <= i < r@.len() implies 1 <= #[trigger] r@[i].0 <= ls.len() by {
            assert(headings_view(r@)[i].0 == r@[i].0);
        }
    }
    r
}

/// Moves the section of the heading on line `from_line` (the heading and everything
/// up to the next heading at its level or above) before the `target_idx`-th heading
/// of the remaining text, or behind that heading's section when `is_child`.
pub fn move_markdown_chunk(text: &mut String, from_line: usize, target_idx: usize, is_child: bool)
    ensures
        final(text)@ == markdown_move(old(text)@, from_line as int, target_idx as int, is_child),
{
    let ghost s = text@;
    let headings = headings_with_bounds(text.as_str());
    let fi = match heading_pos_exec(&headings, from_line) {
        Some(i) => i,
        None => {
            return;
        },
    };
    proof {
        lemma_heading_pos_found(headings_view(headings@), 0, from_line as int);
    }
    let ln = headings[fi].0;
    let lv = headings[fi].1;
    let v = chars_of(text.as_str());
    let starts = line_starts(&v);
    let n = starts.len() - 1;
    if ln > n {
        return;
    }
    let a = starts[ln - 1];
    proof {
        lemma_section_end_bound(headings_view(headings@), 0, ln as nat, lv as nat, n as nat);
    }
    let end_line = section_end_exec(&headings, ln, lv, n);
    let b = starts[end_line];
    let mut rest: Vec<char> = Vec::new();
    push_range(&mut rest, &v, 0, a);
    push_range(&mut rest, &v, b, v.len());
    assert(rest@ =~= s.take(a as int) + s.skip(b as int));
    let rest_text = string_of(&rest, 0, rest.len());
    assert(rest@.subrange(0, rest@.len() as int) =~= rest@);
    let hs2 = headings_with_bounds(rest_text.as_str());
    let starts2 = line_starts(&rest);
    let n2 = starts2.len() - 1;
    let t = if fi < target_idx { target_idx - 1 } else { target_idx };
    let p = if t >= hs2.len() {
        rest.len()
    } else {
        let t_ln = hs2[t].0;
        let t_lv = hs2[t].1;
        if is_child {
            proof {
                lemma_section_end_bound(headings_view(hs2@), 0, t_ln as nat, t_lv as nat, n2 as nat);
            }
            let e = section_end_exec(&hs2, t_ln, t_lv, n2);
            starts2[e]
        } else {
            starts2[t_ln - 1]
        }
    };
    let mut out: Vec<char> = Vec::new();
    push_range(&mut out, &rest, 0, p);
    push_range(&mut out, &v, a, b);
    push_range(&mut out, &rest, p, rest.len());
    assert(out@ =~= markdown_move(s, from_line as int, target_idx as int, is_child));
    *text = string_of(&out, 0, out.len());
    assert(out@.subrange(0, out@.len() as int) =~= out@);
}

proof fn lemma_heading_pos_found(hs: Seq<(nat, nat, Seq<char>)>, i: int, ln: int)
    ensures
        match heading_pos_from(hs, i, ln) {
            Some(k) => 0 <= k < hs.len() && hs[k].0 == ln,
            None => true,
        },
    decreases hs.len() - i,
{
    if 0 <= i < hs.len() && hs[i].0 != ln {
        lemma_heading_pos_found(hs, i + 1, ln);
    }
}

// ── Moving a label's chunk ──

/// End of the run of characters other than `]` and `-` from `i`.
pub open spec fn path_run(s: Seq<char>, i: int) -> int
    decreases s.len() - i,
{
    if 0 <= i < s.len() && s[i] != ']' && s[i] != '-' {
        path_run(s, i + 1)
    } else {
        i
    }
}

/// A tag `[path]` or `[path-description]` at `p` (the pattern
/// `\[([^\]\-]+)(?:-([^\]]*))?\]`): its end and the range of its description.
pub open spec fn tag_at(s: Seq<char>, p: int) -> Option<(int, Option<(int, int)>)> {
    if p < 0 || p >= s.len() || s[p] != '[' {
        None
    } else {
        let r = path_run(s, p + 1);
        if r == p + 1 || r >= s.len() {
            None
        } else if s[r] == ']' {
            Some((r + 1, None))
        } else {
            let q = crate::label::find_char(s, r + 1, s.len() as int, ']');
            if q < s.len() {
                Some((q + 1, Some((r + 1, q))))
            } else {
                None
            }
        }
    }
}

/// The leftmost tag of `s` from `i` on: its start, end and description range.
pub open spec fn first_tag_from(s: Seq<char>, i: int) -> Option<(int, int, Option<(int, int)>)>
    decreases s.len() - i,
{
    if i < 0 || i >= s.len() {
        None
    } else {
        match tag_at(s, i) {
            Some(m) => Some((i, m.0, m.1)),
            None => first_tag_from(s, i + 1),
        }
    }
}

/// `s` with its leftmost tag replaced by `rep`, taken literally.
pub open spec fn literal_tag_replace(s: Seq<char>, rep: Seq<char>) -> Seq<char> {
    match first_tag_from(s, 0) {
        Some(m) => s.take(m.0) + rep + s.skip(m.1),
        None => s,
    }
}

/// The pattern of a tag as the chunk move rewrites it: `[`, a path without `]` or `-`,
/// an optional `-description`, `]` (see [`tag_at`]).
pub const TAG_PATTERN: &'static str = "\\[([^\\]\\-]+)(?:-([^\\]]*))?\\]";

/// What `Regex::replace` gives for the regex compiled from `pattern` on `haystack` with
/// replacement `rep`.
pub uninterp spec fn regex_replace_first(pattern: Seq<char>, haystack: Seq<char>, rep: Seq<char>) -> Seq<char>;

/// `regex::Regex::new(pattern)`, then `Regex::replace` on `haystack` with `rep`: the
/// leftmost match replaced, named by `regex_replace_first`; `None` exactly where the
/// pattern does not compile. The crate expands `$` references to capture groups in
/// `rep`; that expansion is left to the name. What is stated beyond the name: for the
/// tag pattern and a `rep` without `$`, the replacement is literal, so the leftmost tag
/// is replaced by `rep` as written.
#[verifier::external_body]
fn regex_replace(pattern: &str, haystack: &str, rep: &str) -> (r: Option<String>)
    ensures
        r is Some <==> crate::classic::regex_valid(pattern@),
        r matches Some(t) ==> t@ == regex_replace_first(pattern@, haystack@, rep@),
        r matches Some(t) ==> (pattern@ == TAG_PATTERN@ && !rep@.contains('$') ==> t@
            == literal_tag_replace(haystack@, rep@)),
{
    match regex::Regex::new(pattern) {
        Ok(re) => Some(re.replace(haystack, rep).into_owned()),
        Err(_) => None,
    }
}

fn tag_at_exec(v: &Vec<char>, p: usize) -> (r: Option<(usize, Option<(usize, usize)>)>)
    requires
        p < v@.len(),
    ensures
        match r {
            Some(m) => tag_at(v@, p as int) == Some((m.0 as int, match m.1 {
                Some(d) => Some((d.0 as int, d.1 as int)),
                None => None,
            })),
            None => tag_at(v@, p as int) is None,
        },
{
    if v[p] != '[' {
        return None;
    }
    let n = v.len();
    let mut r = p + 1;
    while r < v.len() && v[r] != ']' && v[r] != '-'
        invariant
            p + 1 <= r <= v@.len(),
            path_run(v@, p + 1) == path_run(v@, r as int),
        decreases v@.len() - r,
    {
        r += 1;
    }
    if r == p + 1 || r >= v.len() {
        return None;
    }
    if v[r] == ']' {
        return Some((r + 1, None));
    }
    let q = crate::label::find_char_exec(v, r + 1, v.len(), ']');
    if q < v.len() {
        Some((q + 1, Some((r + 1, q))))
    } else {
        None
    }
}

fn first_tag_exec(v: &Vec<char>) -> (r: Option<(usize, usize, Option<(usize, usize)>)>)
    ensures
        match r {
            Some(m) => first_tag_from(v@, 0) == Some((m.0 as int, m.1 as int, match m.2 {
                Some(d) => Some((d.0 as int, d.1 as int)),
                None => None,
            })),
            None => first_tag_from(v@, 0) is None,
        },
{
    let mut i: usize = 0;
    while i < v.len()
        invariant
            i <= v@.len(),
            first_tag_from(v@, 0) == first_tag_from(v@, i as int),
        decreases v@.len() - i,
    {
        match tag_at_exec(v, i) {
            Some((e, d)) => {
                return Some((i, e, d));
            },
            None => {},
        }
        i += 1;
    }
    None
}

/// Index of the first label from the `i`-th on at depth `d` or shallower, or the
/// number of labels.
pub open spec fn shallow_from(ls: Seq<LabelView>, i: int, d: nat) -> int
    decreases ls.len() - i,
{
    if i < 0 || i >= ls.len() {
        ls.len() as int
    } else if ls[i].depth <= d {
        i
    } else {
        shallow_from(ls, i + 1, d)
    }
}

/// Number of labels at depth `d + 1` from the `i`-th on, before the first at depth
/// `d` or shallower.
pub open spec fn child_count_from(ls: Seq<LabelView>, i: int, d: nat) -> nat
    decreases ls.len() - i,
{
    if i < 0 || i >= ls.len() || ls[i].depth <= d {
        0
    } else {
        child_count_from(ls, i + 1, d) + if ls[i].depth == d + 1 {
            1nat
        } else {
            0nat
        }
    }
}

/// Start byte of the `k`-th label, or `len` past the last.
pub open spec fn start_or_end(ls: Seq<LabelView>, k: int, len: nat) -> nat {
    if 0 <= k < ls.len() {
        ls[k].start_byte
    } else {
        len
    }
}

/// The tag that makes a chunk the `idx`-th child of `parent`, keeping its description.
pub open spec fn child_tag(parent: Seq<char>, idx: nat, desc: Seq<char>) -> Seq<char> {
    if desc.len() == 0 {
        seq!['['] + parent + seq!['.'] + decimal(idx) + seq![']']
    } else {
        seq!['['] + parent + seq!['.'] + decimal(idx) + seq!['-'] + desc + seq![']']
    }
}

/// The new first tag of `chunk` as the `idx`-th child of `parent`, if it has a tag.
pub open spec fn retag_of(chunk: Seq<char>, parent: Seq<char>, idx: nat) -> Option<Seq<char>> {
    match first_tag_from(chunk, 0) {
        None => None,
        Some(m) => Some(
            child_tag(
                parent,
                idx,
                match m.2 {
                    Some(d) => chunk.subrange(d.0, d.1),
                    None => seq![],
                },
            ),
        ),
    }
}

/// A planned move of a chunk: the text without it, the chunk, the byte offset in
/// `rest` where it goes back and, when it becomes a child, its new first tag.
pub struct ChunkMove {
    pub rest: String,
    pub chunk: String,
    pub insert_at: usize,
    pub retag: Option<String>,
}

pub struct ChunkMoveView {
    pub rest: Seq<char>,
    pub chunk: Seq<char>,
    pub insert_at: nat,
    pub retag: Option<Seq<char>>,
}

impl View for ChunkMove {
    type V = ChunkMoveView;

    open spec fn view(&self) -> ChunkMoveView {
        ChunkMoveView {
            rest: self.rest@,
            chunk: self.chunk@,
            insert_at: self.insert_at as nat,
            retag: crate::label::opt_string_view(self.retag),
        }
    }
}

/// The plan for moving the chunk of the `from_idx`-th label of `s` (the label and
/// everything up to the next label at its depth or shallower): before the
/// `target_idx`-th label of what remains (the index counting the chunk's labels out
/// when the chunk came from before it), or, when `is_child`, behind the subtree that
/// follows the `target_idx`-th label, retagged as the next child of the label at the
/// target. `None` for a `from_idx` past the last label.
pub open spec fn semantic_plan(s: Seq<char>, from_idx: int, target_idx: int, is_child: bool) -> Option<ChunkMoveView> {
    let ls = parse_labels(s, seq!['['], seq![']']);
    if from_idx < 0 || from_idx >= ls.len() {
        None
    } else {
        let d = ls[from_idx].depth;
        let e = shallow_from(ls, from_idx + 1, d);
        let i = char_at_byte(s, ls[from_idx].start_byte as int);
        let j = char_at_byte(s, start_or_end(ls, e, utf8_len(s)) as int);
        let chunk = s.subrange(i, j);
        let rest = s.take(i) + s.skip(j);
        let ls2 = parse_labels(rest, seq!['['], seq![']']);
        let count = e - from_idx;
        let t = if from_idx < target_idx {
            if target_idx >= count {
                target_idx - count
            } else {
                0
            }
        } else {
            target_idx
        };
        if t >= ls2.len() {
            Some(ChunkMoveView { rest, chunk, insert_at: utf8_len(rest), retag: None })
        } else if is_child {
            let td = ls2[t].depth;
            Some(
                ChunkMoveView {
                    rest,
                    chunk,
                    insert_at: start_or_end(ls2, shallow_from(ls2, target_idx + 1, td), utf8_len(rest)),
                    retag: retag_of(chunk, ls2[t].category, 1 + child_count_from(ls2, target_idx + 1, td)),
                },
            )
        } else {
            Some(ChunkMoveView { rest, chunk, insert_at: ls2[t].start_byte, retag: None })
        }
    }
}

/// `s` with `t` inserted at byte offset `b`.
pub open spec fn insert_at_byte(s: Seq<char>, b: int, t: Seq<char>) -> Seq<char> {
    s.take(char_at_byte(s, b)) + t + s.skip(char_at_byte(s, b))
}

/// The text after moving a label's chunk as planned by [`semantic_plan`], its first
/// tag rewritten through `Regex::replace` with [`TAG_PATTERN`] when it becomes a child.
/// A rewrite needs the pattern to compile; where it would not, the text stays as it is.
pub open spec fn semantic_move(s: Seq<char>, from_idx: int, target_idx: int, is_child: bool) -> Seq<char> {
    match semantic_plan(s, from_idx, target_idx, is_child) {
        None => s,
        Some(p) if p.retag is Some && !crate::classic::regex_valid(TAG_PATTERN@) => s,
        Some(p) => insert_at_byte(
            p.rest,
            p.insert_at as int,
            match p.retag {
                Some(t) => regex_replace_first(TAG_PATTERN@, p.chunk, t),
                None => p.chunk,
            },
        ),
    }
}

fn shallow_exec(ls: &Vec<crate::label::SemanticLabel>, i: usize, d: usize) -> (r: usize)
    ensures
        r == shallow_from(labels_view(ls@), i as int, d as nat),
        i <= r || r == ls@.len(),
        r <= ls@.len(),
{
    let ghost lv = labels_view(ls@);
    if i >= ls.len() {
        return ls.len();
    }
    let mut k = i;
    while k < ls.len()
        invariant
            i <= k <= ls@.len(),
            lv == labels_view(ls@),
            shallow_from(lv, i as int, d as nat) == shallow_from(lv, k as int, d as nat),
        decreases ls@.len() - k,
    {
        assert(lv[k as int].depth == ls@[k as int].depth);
        if ls[k].depth <= d {
            return k;
        }
        k += 1;
    }
    k
}

fn child_count_exec(ls: &Vec<crate::label::SemanticLabel>, i: usize, d: usize) -> (r: usize)
    ensures
        r == child_count_from(labels_view(ls@), i as int, d as nat),
        r == 0 || r + i <= ls@.len(),
{
    let ghost lv = labels_view(ls@);
    let mut k = i;
    let mut count: usize = 0;
    if i >= ls.len() {
        return 0;
    }
    while k < ls.len() && ls[k].depth > d
        invariant
            i <= k <= ls@.len(),
            lv == labels_view(ls@),
            count <= k - i,
            k - i <= ls@.len(),
            child_count_from(lv, i as int, d as nat) == count + child_count_from(lv, k as int, d as nat),
        decreases ls@.len() - k,
    {
        assert(lv[k as int].depth == ls@[k as int].depth);
        if ls[k].depth == d + 1 {
            count += 1;
        }
        k += 1;
    }
    proof {
        if k < ls@.len() {
            assert(lv[k as int].depth == ls@[k as int].depth);
        }
    }
    count
}

/// The new first tag of `chunk` as the `idx`-th child of `parent`.
fn retag_exec(chunk: &Vec<char>, parent: &str, idx: usize) -> (r: Option<String>)
    ensures
        crate::label::opt_string_view(r) == retag_of(chunk@, parent@, idx as nat),
{
    match first_tag_exec(chunk) {
        None => None,
        Some((_p, _e, d)) => {
            let mut tag = String::new();
            string_push(&mut tag, '[');
            push_str(&mut tag, parent);
            string_push(&mut tag, '.');
            push_decimal(&mut tag, idx);
            let ghost desc = match d {
                Some(r) => chunk@.subrange(r.0 as int, r.1 as int),
                None => Seq::<char>::empty(),
            };
            match d {
                Some((x, y)) if x < y => {
                    assert(x <= y <= chunk@.len()) by {
                        lemma_first_tag_bounds(chunk@, 0);
                    }
                    string_push(&mut tag, '-');
                    push_chars(&mut tag, chunk, x, y);
                },
                _ => {},
            }
            string_push(&mut tag, ']');
            proof {
                lemma_first_tag_bounds(chunk@, 0);
                assert(tag@ =~= child_tag(parent@, idx as nat, desc));
            }
            Some(tag)
        },
    }
}

proof fn lemma_path_run(s: Seq<char>, i: int)
    requires
        0 <= i <= s.len(),
    ensures
        i <= path_run(s, i) <= s.len(),
    decreases s.len() - i,
{
    if i < s.len() && s[i] != ']' && s[i] != '-' {
        lemma_path_run(s, i + 1);
    }
}

proof fn lemma_first_tag_bounds(s: Seq<char>, i: int)
    requires
        0 <= i,
    ensures
        match first_tag_from(s, i) {
            Some(m) => 0 <= m.0 < m.1 <= s.len() && match m.2 {
                Some(d) => m.0 < d.0 <= d.1 < m.1,
                None => true,
            },
            None => true,
        },
    decreases s.len() - i,
{
    if i < s.len() {
        if s[i] == '[' {
            lemma_path_run(s, i + 1);
            let r = path_run(s, i + 1);
            if r < s.len() && r != i + 1 && s[r] != ']' {
                crate::label::lemma_find_char(s, r + 1, s.len() as int, ']');
            }
        }
        if tag_at(s, i) is None {
            lemma_first_tag_bounds(s, i + 1);
        }
    }
}

/// Plans moving the chunk of the `from_idx`-th label (see [`semantic_plan`]).
pub fn plan_semantic_move(text: &str, from_idx: usize, target_idx: usize, is_child: bool) -> (r: Option<ChunkMove>)
    requires
        target_idx < usize::MAX,
    ensures
        match r {
            Some(p) => semantic_plan(text@, from_idx as int, target_idx as int, is_child) == Some(p@)
                && is_boundary(p@.rest, p@.insert_at as int),
            None => semantic_plan(text@, from_idx as int, target_idx as int, is_child) is None,
        },
{
    let labels = parse_semantic_labels(text);
    let ghost ls = labels_view(labels@);
    if from_idx >= labels.len() {
        return None;
    }
    let d = labels[from_idx].depth;
    let e = shallow_exec(&labels, from_idx + 1, d);
    let total = byte_len(text);
    let sb = labels[from_idx].start_byte;
    let eb = if e < labels.len() { labels[e].start_byte } else { total };
    let v = chars_of(text);
    proof {
        law_labels_ordered(v@, seq!['['], seq![']']);
        assert(ls[from_idx as int].start_byte == sb);
        assert(is_boundary(v@, sb as int));
        if e < labels@.len() {
            assert(ls[e as int].start_byte == eb);
            assert(is_boundary(v@, eb as int));
            assert(ls[from_idx as int].end_byte <= ls[e as int].start_byte);
        } else {
            lemma_char_at_byte_exact(v@, v@.len() as int);
            assert(v@.take(v@.len() as int) =~= v@);
        }
        lemma_boundary_order(v@, sb as int, eb as int);
    }
    let i = char_index_of_byte(&v, sb);
    let j = char_index_of_byte(&v, eb);
    let chunk_v = crate::text::sub_chars(&v, i, j);
    let chunk = string_of(&v, i, j);
    let mut rest_v: Vec<char> = Vec::new();
    push_range(&mut rest_v, &v, 0, i);
    push_range(&mut rest_v, &v, j, v.len());
    assert(rest_v@ =~= v@.take(i as int) + v@.skip(j as int));
    let rest = string_of(&rest_v, 0, rest_v.len());
    assert(rest_v@.subrange(0, rest_v@.len() as int) =~= rest_v@);
    let rest_len = byte_len(rest.as_str());
    let labels2 = parse_semantic_labels(rest.as_str());
    let ghost ls2 = labels_view(labels2@);
    proof {
        law_labels_ordered(rest@, seq!['['], seq![']']);
        lemma_char_at_byte_exact(rest@, rest@.len() as int);
        assert(rest@.take(rest@.len() as int) =~= rest@);
    }
    let count = e - from_idx;
    let t = if from_idx < target_idx {
        if target_idx >= count { target_idx - count } else { 0 }
    } else {
        target_idx
    };
    if t >= labels2.len() {
        return Some(ChunkMove { rest, chunk, insert_at: rest_len, retag: None });
    }
    let td = labels2[t].depth;
    if is_child {
        let ce = shallow_exec(&labels2, target_idx + 1, td);
        let at = if ce < labels2.len() { labels2[ce].start_byte } else { rest_len };
        proof {
            if ce < labels2@.len() {
                assert(ls2[ce as int].start_byte == at);
            }
        }
        let kids = child_count_exec(&labels2, target_idx + 1, td);
        let retag = retag_exec(&chunk_v, labels2[t].category.as_str(), kids + 1);
        proof {
            assert(ls2[t as int].category == labels2@[t as int].category@);
            assert(ls2[t as int].depth == td);
        }
        Some(ChunkMove { rest, chunk, insert_at: at, retag })
    } else {
        let at = labels2[t].start_byte;
        assert(ls2[t as int].start_byte == at);
        Some(ChunkMove { rest, chunk, insert_at: at, retag: None })
    }
}

/// Puts `chunk` back into `rest` at byte offset `at`.
pub fn place_chunk(rest: &str, chunk: &str, at: usize) -> (r: String)
    requires
        is_boundary(rest@, at as int),
    ensures
        r@ == insert_at_byte(rest@, at as int, chunk@),
{
    let v = chars_of(rest);
    let c = chars_of(chunk);
    let p = char_index_of_byte(&v, at);
    let mut out: Vec<char> = Vec::new();
    push_range(&mut out, &v, 0, p);
    push_range(&mut out, &c, 0, c.len());
    push_range(&mut out, &v, p, v.len());
    assert(out@ =~= insert_at_byte(rest@, at as int, chunk@));
    let r = string_of(&out, 0, out.len());
    assert(out@.subrange(0, out@.len() as int) =~= out@);
    r
}

/// Moves the chunk of the `from_idx`-th label (the label and everything up to the next
/// label at its depth or shallower) before the `target_idx`-th label of the remaining
/// text, or, when `is_child`, behind the subtree that follows the `target_idx`-th label
/// with its first tag renumbered as the next child of the label at the target.
pub fn move_semantic_chunk(text: &mut String, from_idx: usize, target_idx: usize, is_child: bool)
    requires
        target_idx < usize::MAX,
    ensures
        final(text)@ == semantic_move(old(text)@, from_idx as int, target_idx as int, is_child),
{
    match plan_semantic_move(text.as_str(), from_idx, target_idx, is_child) {
        None => {},
        Some(plan) => {
            let chunk = match plan.retag {
                Some(tag) => match regex_replace(TAG_PATTERN, plan.chunk.as_str(), tag.as_str()) {
                    Some(c) => c,
                    None => {
                        return;
                    },
                },
                None => plan.chunk,
            };
            *text = place_chunk(plan.rest.as_str(), chunk.as_str(), plan.insert_at);
        },
    }
}

// ── Laws ──

proof fn lemma_pieces_multiset(a: Seq<char>, b: Seq<char>, c: Seq<char>, d: Seq<char>)
    ensures
        (a + c + b + d).to_multiset() == (a + b + c + d).to_multiset(),
{
    broadcast use vstd::seq_lib::lemma_multiset_commutative;
    broadcast use vstd::multiset::group_multiset_axioms;

    assert((a + c + b + d).to_multiset() =~= (a + b + c + d).to_multiset());
}

/// Swapping the neighbouring pieces `s[p..i]` and `s[i..j]` keeps every character.
proof fn lemma_swap_keeps(s: Seq<char>, p: int, i: int, j: int)
    requires
        0 <= p <= i <= j <= s.len(),
    ensures
        (s.take(p) + s.subrange(i, j) + s.subrange(p, i) + s.skip(j)).to_multiset() == s.to_multiset(),
{
    lemma_pieces_multiset(s.take(p), s.subrange(p, i), s.subrange(i, j), s.skip(j));
    assert(s.take(p) + s.subrange(p, i) + s.subrange(i, j) + s.skip(j) =~= s);
}

/// Cutting `s[i..j]` out and putting it back at `q` of what remains keeps every
/// character.
proof fn lemma_reinsert_keeps(s: Seq<char>, i: int, j: int, q: int)
    requires
        0 <= i <= j <= s.len(),
        0 <= q <= s.len() - (j - i),
    ensures
        ({
            let rest = s.take(i) + s.skip(j);
            (rest.take(q) + s.subrange(i, j) + rest.skip(q)).to_multiset() == s.to_multiset()
        }),
{
    let rest = s.take(i) + s.skip(j);
    if q <= i {
        assert(rest.take(q) =~= s.take(q));
        assert(rest.skip(q) =~= s.subrange(q, i) + s.skip(j));
        lemma_swap_keeps(s, q, i, j);
        assert(rest.take(q) + s.subrange(i, j) + rest.skip(q) =~= s.take(q) + s.subrange(i, j)
            + s.subrange(q, i) + s.skip(j));
    } else {
        let k = q + (j - i);
        assert(rest.take(q) =~= s.take(i) + s.subrange(j, k));
        assert(rest.skip(q) =~= s.skip(k));
        lemma_swap_keeps(s, i, j, k);
        assert(rest.take(q) + s.subrange(i, j) + rest.skip(q) =~= s.take(i) + s.subrange(j, k)
            + s.subrange(i, j) + s.skip(k));
    }
}

proof fn lemma_line_start_bounds(s: Seq<char>, k: int)
    ensures
        0 <= line_start(s, k) <= s.len(),
{
    lemma_lines_from_bounds(s, 0);
    if 0 <= k < line_bounds(s).len() {
        assert(0 <= line_bounds(s)[k].0 <= s.len());
    }
}

proof fn lemma_line_start_mono(s: Seq<char>, a: int, b: int)
    requires
        0 <= a <= b,
    ensures
        line_start(s, a) <= line_start(s, b),
{
    lemma_lines_from_bounds(s, 0);
    lemma_lines_from_increasing(s, 0);
    let n = line_bounds(s).len();
    if b < n && a < b {
        assert(line_bounds(s)[a].0 < line_bounds(s)[b].0);
    }
    if a < n {
        assert(line_bounds(s)[a].0 <= s.len());
    }
}

/// Moving a block up or down, or moving a heading's section, only rearranges the
/// text: every character stays, as often as before. So does moving a label's chunk
/// where no tag is rewritten.
pub proof fn law_moves_keep_characters(s: Seq<char>, start: int, line_or_idx: int, target_idx: int, is_child: bool)
    requires
        0 <= start,
        0 <= line_or_idx,
        0 <= target_idx,
    ensures
        block_up(s, start) matches Some(t) ==> t.to_multiset() == s.to_multiset(),
        block_down(s, start) matches Some(t) ==> t.to_multiset() == s.to_multiset(),
        markdown_move(s, line_or_idx, target_idx, is_child).to_multiset() == s.to_multiset(),
        semantic_plan(s, line_or_idx, target_idx, is_child) matches Some(p) && p.retag is None
            ==> semantic_move(s, line_or_idx, target_idx, is_child).to_multiset() == s.to_multiset(),
{
    // Moving a block up.
    if start != 0 && is_boundary(s, start) {
        let i = char_at_byte(s, start);
        lemma_char_at_byte_found(s, start, 0);
        let pm = structure_markers(s.take(i));
        if pm.len() > 0 {
            let e = block_end(s, start) as int;
            let p = char_at_byte(s.take(i), pm.last().0 as int);
            if is_boundary(s, e) && p >= 0 {
                lemma_char_at_byte_found(s.take(i), pm.last().0 as int, 0);
                lemma_boundary_le_len(s, start);
                lemma_block_end_after(s, start);
                lemma_boundary_order(s, start, e);
                lemma_swap_keeps(s, p, i, char_at_byte(s, e));
            }
        }
    }
    // Moving a block down.
    let e = block_end(s, start);
    if e < utf8_len(s) {
        match next_marker(structure_markers(s), e as int) {
            None => {},
            Some(m) => {
                let ne = block_end(s, m as int) as int;
                if is_boundary(s, start) && is_boundary(s, e as int) && is_boundary(s, ne) {
                    lemma_boundary_le_len(s, start);
                    lemma_block_end_after(s, start);
                    lemma_next_marker_after(structure_markers(s), 0, e as int);
                    lemma_next_marker_after(structure_markers(s), 0, m as int);
                    lemma_boundary_order(s, start, e as int);
                    lemma_boundary_order(s, e as int, ne);
                    let i = char_at_byte(s, start);
                    let j = char_at_byte(s, e as int);
                    let k = char_at_byte(s, ne);
                    lemma_swap_keeps(s, i, j, k);
                    assert(s.take(j) =~= s.take(i) + s.subrange(i, j));
                    assert(s.take(i) + s.subrange(j, k) + s.subrange(i, j) + s.skip(k) =~= s.take(i)
                        + s.subrange(j, k) + s.subrange(i, j) + s.skip(k));
                    assert(s.take(i) + s.subrange(i, j) + s.subrange(j, k) + s.skip(k) =~= s);
                    lemma_pieces_multiset(s.take(i), s.subrange(i, j), s.subrange(j, k), s.skip(k));
                }
            },
        }
    }
    // Moving a heading's section.
    let hs = headings_of(s);
    let n = line_bounds(s).len();
    match heading_pos_from(hs, 0, line_or_idx) {
        None => {},
        Some(fi) => {
            lemma_heading_pos_found(hs, 0, line_or_idx);
            let ln = hs[fi].0;
            let lv = hs[fi].1;
            if ln <= n {
                lemma_heading_lines(s, line_bounds(s), n as int);
                assert(1 <= ln);
                assert forall|k: int| 0 <= k < hs.len() implies #[trigger] hs[k].0 <= n by {}
                lemma_section_end_bound(hs, 0, ln, lv, n);
                let a = line_start(s, ln - 1);
                let se = section_end_from(hs, 0, ln, lv, n) as int;
                let b = line_start(s, se);
                lemma_line_start_mono(s, ln - 1, se);
                lemma_line_start_bounds(s, se);
                lemma_line_start_bounds(s, ln - 1);
                let rest = s.take(a) + s.skip(b);
                let hs2 = headings_of(rest);
                let n2 = line_bounds(rest).len();
                let t = if fi < target_idx { target_idx - 1 } else { target_idx };
                if t < hs2.len() {
                    if is_child {
                        lemma_line_start_bounds(rest, section_end_from(hs2, 0, hs2[t].0, hs2[t].1, n2) as int);
                    } else {
                        lemma_line_start_bounds(rest, hs2[t].0 - 1);
                    }
                }
                let p = if t >= hs2.len() {
                    rest.len() as int
                } else if is_child {
                    line_start(rest, section_end_from(hs2, 0, hs2[t].0, hs2[t].1, n2) as int)
                } else {
                    line_start(rest, hs2[t].0 - 1)
                };
                lemma_reinsert_keeps(s, a, b, p);
            }
        },
    }
    // Moving a label's chunk without retagging.
    match semantic_plan(s, line_or_idx, target_idx, is_child) {
        None => {},
        Some(pl) => {
            if pl.retag is None {
                let ls = parse_labels(s, seq!['['], seq![']']);
                let from_idx = line_or_idx;
                let d = ls[from_idx].depth;
                let e2 = shallow_from(ls, from_idx + 1, d);
                lemma_shallow_bounds(ls, from_idx + 1, d);
                law_labels_ordered(s, seq!['['], seq![']']);
                let sb = ls[from_idx].start_byte as int;
                let eb = start_or_end(ls, e2, utf8_len(s)) as int;
                if e2 < ls.len() {
                    assert(ls[from_idx].end_byte <= ls[e2].start_byte);
                } else {
                    lemma_char_at_byte_exact(s, s.len() as int);
                    assert(s.take(s.len() as int) =~= s);
                }
                lemma_boundary_order(s, sb, eb);
                let i = char_at_byte(s, sb);
                let j = char_at_byte(s, eb);
                let rest = s.take(i) + s.skip(j);
                assert(pl.rest == rest);
                law_labels_ordered(rest, seq!['['], seq![']']);
                lemma_char_at_byte_exact(rest, rest.len() as int);
                assert(rest.take(rest.len() as int) =~= rest);
                let ls2 = parse_labels(rest, seq!['['], seq![']']);
                let count = e2 - from_idx;
                let t = if from_idx < target_idx {
                    if target_idx >= count { target_idx - count } else { 0 }
                } else {
                    target_idx
                };
                if t < ls2.len() {
                    if is_child {
                        let ce = shallow_from(ls2, target_idx + 1, ls2[t].depth);
                        lemma_shallow_bounds(ls2, target_idx + 1, ls2[t].depth);
                        if 0 <= ce < ls2.len() {
                            assert(is_boundary(rest, ls2[ce].start_byte as int));
                        }
                    } else {
                        assert(is_boundary(rest, ls2[t].start_byte as int));
                    }
                }
                assert(is_boundary(rest, pl.insert_at as int));
                lemma_char_at_byte_found(rest, pl.insert_at as int, 0);
                lemma_reinsert_keeps(s, i, j, char_at_byte(rest, pl.insert_at as int));
            }
        },
    }
}

proof fn lemma_shallow_bounds(ls: Seq<LabelView>, i: int, d: nat)
    requires
        0 <= i,
    ensures
        i <= shallow_from(ls, i, d) <= ls.len() || shallow_from(ls, i, d) == ls.len(),
        0 <= shallow_from(ls, i, d) <= ls.len(),
    decreases ls.len() - i,
{
    if i < ls.len() && ls[i].depth > d {
        lemma_shallow_bounds(ls, i + 1, d);
    }
}

} // verus!
