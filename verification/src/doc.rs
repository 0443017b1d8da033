//! Whole-document operations: headings, statistics, label extraction and
//! stripping.

use vstd::prelude::*;
use crate::label::{
    parse_labels, parse_semantic_labels, skip_char, strip_semantic_labels, LabelView,
    SemanticLabel, labels_view, find_char_exec, occurs_at, occurs_at_exec,
};
use crate::label_laws::{law_strip_parsed_labels, without_labels};
use crate::text::{
    chars_of, decimal, is_whitespace, is_ws, line_bounds, lines_from, next_line, num_lines,
    push_str, skip_ws, string_of, trim, trim_bounds,
};

verus! {

/// Removes every label from `text`.
pub fn strip_labels(text: &str) -> (r: String)
    ensures
        r@ == without_labels(text@, seq!['['], seq![']']),
{
    let labels = parse_semantic_labels(text);
    proof {
        law_strip_parsed_labels(text@, seq!['['], seq![']']);
    }
    strip_semantic_labels(text, labels.as_slice())
}

/// The labels of `text` (default delimiters).
pub fn extract_semantic_labels(text: &str) -> (r: Vec<SemanticLabel>)
    ensures
        labels_view(r@) == parse_labels(text@, seq!['['], seq![']']),
{
    parse_semantic_labels(text)
}

// ── Headings ──

/// The heading written on the line `s[a..b]`, if any: after leading whitespace a run
/// of `#` (level, at most 6) and a nonempty trimmed title after the first `level`
/// characters.
pub open spec fn heading_at(s: Seq<char>, a: int, b: int) -> Option<(nat, Seq<char>)> {
    let t0 = skip_ws(s, a, b);
    if t0 < b && s[t0] == '#' {
        let n = skip_char(s, t0, b, '#') - t0;
        let lv = if n < 6 { n } else { 6 };
        let title = trim(s.subrange(t0 + lv, b));
        if title.len() > 0 {
            Some((lv as nat, title))
        } else {
            None
        }
    } else {
        None
    }
}

/// Headings among the first `k` lines `ls` of `s`: (1-based line, level, title).
pub open spec fn headings_upto(s: Seq<char>, ls: Seq<(int, int)>, k: int) -> Seq<
    (nat, nat, Seq<char>),
>
    decreases k,
{
    if k <= 0 {
        seq![]
    } else {
        let prev = headings_upto(s, ls, k - 1);
        match heading_at(s, ls[k - 1].0, ls[k - 1].1) {
            Some(h) => prev.push((k as nat, h.0, h.1)),
            None => prev,
        }
    }
}

/// The headings of `s`.
pub open spec fn headings_of(s: Seq<char>) -> Seq<(nat, nat, Seq<char>)> {
    headings_upto(s, line_bounds(s), line_bounds(s).len() as int)
}

pub open spec fn headings_view(v: Seq<(usize, usize, String)>) -> Seq<(nat, nat, Seq<char>)> {
    v.map_values(|h: (usize, usize, String)| (h.0 as nat, h.1 as nat, h.2@))
}

pub proof fn lemma_lines_from_bounds(s: Seq<char>, start: int)
    requires
        0 <= start,
    ensures
        forall|k: int|
            0 <= k < lines_from(s, start).len() ==> start <= #[trigger] lines_from(s, start)[k].0
                <= lines_from(s, start)[k].1 <= s.len(),
    decreases s.len() - start,
{
    if start < s.len() {
        let j = crate::text::next_newline(s, start);
        crate::text::lemma_next_newline(s, start);
        if j < s.len() {
            lemma_lines_from_bounds(s, j + 1);
            let rest = lines_from(s, j + 1);
            let all = lines_from(s, start);
            assert forall|k: int| 0 <= k < all.len() implies start <= #[trigger] all[k].0
                <= all[k].1 <= s.len() by {
                if k > 0 {
                    assert(all[k] == rest[k - 1]);
                }
            }
        }
    }
}

/// Heading of the line `v[a..b]`.
pub(crate) fn heading_at_exec(v: &Vec<char>, a: usize, b: usize) -> (r: Option<(usize, String)>)
    requires
        a <= b <= v@.len(),
    ensures
        match r {
            Some(h) => heading_at(v@, a as int, b as int) == Some((h.0 as nat, h.1@)),
            None => heading_at(v@, a as int, b as int) is None,
        },
{
    let mut t0 = a;
    while t0 < b && is_whitespace(v[t0])
        invariant
            a <= t0 <= b <= v@.len(),
            skip_ws(v@, a as int, b as int) == skip_ws(v@, t0 as int, b as int),
        decreases b - t0,
    {
        t0 += 1;
    }
    if t0 < b && v[t0] == '#' {
        let mut e = t0;
        while e < b && v[e] == '#'
            invariant
                t0 <= e <= b <= v@.len(),
                skip_char(v@, t0 as int, b as int, '#') == skip_char(v@, e as int, b as int, '#'),
            decreases b - e,
        {
            e += 1;
        }
        let n = e - t0;
        let lv = if n < 6 { n } else { 6 };
        let (x, y) = trim_bounds(v, t0 + lv, b);
        if y > x {
            Some((lv, string_of(v, x, y)))
        } else {
            None
        }
    } else {
        None
    }
}

/// The headings of `text`: (1-based line number, level 1–6, title).
pub fn extract_headings(text: &str) -> (r: Vec<(usize, usize, String)>)
    ensures
        headings_view(r@) == headings_of(text@),
{
    let v = chars_of(text);
    let n = v.len();
    let mut out: Vec<(usize, usize, String)> = Vec::new();
    let ghost all = line_bounds(v@);
    let ghost mut done: Seq<(int, int)> = seq![];
    let mut start: usize = 0;
    let mut k: usize = 0;
    proof {
        lemma_lines_from_bounds(v@, 0);
        assert(done + lines_from(v@, 0) =~= all);
        assert(headings_view(out@) =~= headings_upto(v@, all, 0));
    }
    while start < n
        invariant
            n == v@.len(),
            v@ == text@,
            all == line_bounds(v@),
            start <= n,
            all == done + lines_from(v@, start as int),
            k == done.len(),
            k <= start,
            headings_view(out@) == headings_upto(v@, all, k as int),
        decreases n - start,
    {
        let (a, b, next) = next_line(&v, start);
        let ghost rest = lines_from(v@, next as int);
        assert(all[k as int] == (a as int, b as int)) by {
            assert(lines_from(v@, start as int)[0] == (a as int, b as int));
        }
        let h = heading_at_exec(&v, a, b);
        match h {
            Some((lv, title)) => {
                let ghost before = out@;
                let ghost tv = title@;
                out.push((k + 1, lv, title));
                proof {
                    assert(headings_view(out@) =~= headings_view(before).push(
                        ((k + 1) as nat, lv as nat, tv),
                    ));
                }
            },
            None => {},
        }
        proof {
            assert(all.len() == done.len() + lines_from(v@, start as int).len());
            let d2 = done.push((a as int, b as int));
            if next >= n {
                assert(lines_from(v@, next as int) =~= Seq::<(int, int)>::empty());
            }
            assert(all =~= d2 + lines_from(v@, next as int));
            done = d2;
        }
        k += 1;
        start = next;
    }
    proof {
        assert(lines_from(v@, start as int) =~= Seq::<(int, int)>::empty());
        assert(all =~= done);
    }
    out
}

// ── Statistics ──

/// Document statistics.
pub struct DocStats {
    pub chars: usize,
    pub chars_no_space: usize,
    pub words: usize,
    pub lines: usize,
    pub labels: usize,
}

/// Number of non-whitespace characters.
pub open spec fn count_non_ws(s: Seq<char>) -> nat
    decreases s.len(),
{
    if s.len() == 0 {
        0
    } else {
        count_non_ws(s.drop_last()) + if is_ws(s.last()) { 0nat } else { 1nat }
    }
}

/// Number of whitespace-separated words (`str::split_whitespace`): characters that
/// are not whitespace and start the text or follow whitespace.
pub open spec fn count_words(s: Seq<char>) -> nat
    decreases s.len(),
{
    if s.len() == 0 {
        0
    } else {
        count_words(s.drop_last()) + if !is_ws(s.last()) && (s.len() == 1 || is_ws(
            s[s.len() - 2],
        )) {
            1nat
        } else {
            0nat
        }
    }
}

/// Bracket pairing state after `s`: open brackets pending and pairs closed.  A `]`
/// closes a pair only while some `[` is pending.
pub open spec fn bracket_pairs(s: Seq<char>) -> (nat, nat)
    decreases s.len(),
{
    if s.len() == 0 {
        (0, 0)
    } else {
        let p = bracket_pairs(s.drop_last());
        let c = s.last();
        if c == '[' {
            ((p.0 + 1) as nat, p.1)
        } else if c == ']' && p.0 > 0 {
            ((p.0 - 1) as nat, (p.1 + 1) as nat)
        } else {
            p
        }
    }
}

/// Character, word, line and label counts of `text`.
pub fn compute_stats(text: &str) -> (r: DocStats)
    ensures
        r.chars == text@.len(),
        r.chars_no_space == count_non_ws(text@),
        r.words == count_words(text@),
        r.lines == if num_lines(text@) > 1 { num_lines(text@) } else { 1 },
        r.labels == bracket_pairs(text@).1,
{
    let v = chars_of(text);
    let n = v.len();
    let mut non_ws: usize = 0;
    let mut words: usize = 0;
    let mut lines: usize = 0;
    let mut depth: usize = 0;
    let mut labels: usize = 0;
    let mut i: usize = 0;
    proof {
        assert(v@.take(0) =~= Seq::<char>::empty());
    }
    while i < n
        invariant
            n == v@.len(),
            v@ == text@,
            i <= n,
            non_ws == count_non_ws(v@.take(i as int)),
            words == count_words(v@.take(i as int)),
            lines == num_lines(v@.take(i as int)),
            (depth as nat, labels as nat) == bracket_pairs(v@.take(i as int)),
            non_ws <= i,
            words <= i,
            lines <= i,
            depth <= i,
            labels <= i,
        decreases n - i,
    {
        let c = v[i];
        proof {
            let t = v@.take(i + 1);
            assert(t.drop_last() =~= v@.take(i as int));
            assert(t.last() == c);
            if i > 0 {
                assert(t[t.len() - 2] == v@[i - 1]);
            }
        }
        let ws = is_whitespace(c);
        if !ws {
            non_ws += 1;
            if i == 0 || is_whitespace(v[i - 1]) {
                words += 1;
            }
        }
        if i == 0 || v[i - 1] == '\n' {
            lines += 1;
        }
        if c == '[' {
            depth += 1;
        } else if c == ']' && depth > 0 {
            labels += 1;
            depth -= 1;
        }
        i += 1;
    }
    assert(v@.take(n as int) =~= v@);
    DocStats {
        chars: n,
        chars_no_space: non_ws,
        words,
        lines: if lines > 1 { lines } else { 1 },
        labels,
    }
}


// ── What a word is ──

proof fn lemma_words_join(a: Seq<char>, w: char, b: Seq<char>)
    requires
        is_ws(w),
    ensures
        count_words(a + seq![w] + b) == count_words(a) + count_words(b),
    decreases b.len(),
{
    let s = a + seq![w] + b;
    if b.len() == 0 {
        assert(s.drop_last() =~= a);
        assert(b =~= Seq::<char>::empty());
    } else {
        lemma_words_join(a, w, b.drop_last());
        assert(s.drop_last() =~= a + seq![w] + b.drop_last());
        assert(s.last() == b.last());
        if b.len() >= 2 {
            assert(s[s.len() - 2] == b[b.len() - 2]);
        } else {
            assert(s[s.len() - 2] == w);
        }
    }
}

/// Words are separated by whitespace: the words of two texts joined by a whitespace
/// character are the words of the one and then of the other.
pub proof fn law_words_join(a: Seq<char>, w: char, b: Seq<char>)
    requires
        is_ws(w),
    ensures
        count_words(a + seq![w] + b) == count_words(a) + count_words(b),
{
    lemma_words_join(a, w, b);
}

/// A run of characters without whitespace is one word, and whitespace alone holds
/// none.
pub proof fn law_word_runs(s: Seq<char>)
    ensures
        s.len() > 0 && (forall|i: int| 0 <= i < s.len() ==> !is_ws(#[trigger] s[i])) ==> count_words(s) == 1,
        (forall|i: int| 0 <= i < s.len() ==> is_ws(#[trigger] s[i])) ==> count_words(s) == 0,
    decreases s.len(),
{
    if s.len() > 0 {
        law_word_runs(s.drop_last());
        let d = s.drop_last();
        assert(forall|i: int| 0 <= i < d.len() ==> d[i] == s[i]);
        if s.len() >= 2 {
            assert(s[s.len() - 2] == d[d.len() - 1]);
        }
    }
}

} // verus!
