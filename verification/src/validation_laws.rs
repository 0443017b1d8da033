//! What writing on at the end of a document keeps: its labels, its headings, and the
//! checks of a template that it already passes.

use vstd::prelude::*;
use crate::label::{
    find_char, find_dash_or_bar, inner_parts, labels_fold, lemma_fold_prefix, lemma_run_end,
    make_label, match_at, occurs_at, parse_labels, run_end, scan, skip_char, CatState, Parts,
    LabelView,
};
use crate::doc::{heading_at, headings_of, headings_upto, lemma_lines_from_bounds};
use crate::text::{is_ws, line_bounds, lines_from, next_newline, skip_ws, skip_ws_back, trim};
use crate::template::{
    heading_found, heading_results, label_results, validation, HeadingView, TemplateLabelView,
    TemplateView,
};

verus! {

/// `s` and `s2` hold the same characters below position `n`.
pub open spec fn agree(s: Seq<char>, s2: Seq<char>, n: int) -> bool {
    0 <= n <= s.len() && n <= s2.len() && forall|k: int| 0 <= k < n ==> #[trigger] s[k] == s2[k]
}

proof fn lemma_agree_sub(s: Seq<char>, s2: Seq<char>, n: int, x: int, y: int)
    requires
        agree(s, s2, n),
        0 <= x <= y <= n,
    ensures
        s.subrange(x, y) == s2.subrange(x, y),
{
    assert(s.subrange(x, y) =~= s2.subrange(x, y));
}

proof fn lemma_skip_char_local(s: Seq<char>, s2: Seq<char>, i: int, hi: int, c: char)
    requires
        agree(s, s2, hi),
        0 <= i <= hi,
    ensures
        skip_char(s, i, hi, c) == skip_char(s2, i, hi, c),
        i <= skip_char(s, i, hi, c) <= hi,
    decreases hi - i,
{
    if i < hi {
        lemma_skip_char_local(s, s2, i + 1, hi, c);
    }
}

proof fn lemma_find_char_local(s: Seq<char>, s2: Seq<char>, i: int, hi: int, c: char)
    requires
        agree(s, s2, hi),
        0 <= i <= hi,
    ensures
        find_char(s, i, hi, c) == find_char(s2, i, hi, c),
        i <= find_char(s, i, hi, c) <= hi,
    decreases hi - i,
{
    if i < hi {
        lemma_find_char_local(s, s2, i + 1, hi, c);
    }
}

proof fn lemma_find_dash_local(s: Seq<char>, s2: Seq<char>, i: int, hi: int)
    requires
        agree(s, s2, hi),
        0 <= i <= hi,
    ensures
        find_dash_or_bar(s, i, hi) == find_dash_or_bar(s2, i, hi),
        i <= find_dash_or_bar(s, i, hi) <= hi,
    decreases hi - i,
{
    if i < hi {
        lemma_find_dash_local(s, s2, i + 1, hi);
    }
}

pub open spec fn parts_within(p: Parts, lo: int, hi: int) -> bool {
    &&& lo <= p.dots_end <= p.cat_end <= hi
    &&& p.desc matches Some(r) ==> lo <= r.0 <= r.1 <= hi
    &&& p.props matches Some(r) ==> lo <= r.0 <= r.1 <= hi
}

pub(crate) proof fn lemma_inner_parts_local(s: Seq<char>, s2: Seq<char>, lo: int, hi: int)
    requires
        agree(s, s2, hi),
        0 <= lo <= hi,
    ensures
        inner_parts(s, lo, hi) == inner_parts(s2, lo, hi),
        inner_parts(s, lo, hi) matches Some(p) ==> parts_within(p, lo, hi),
{
    lemma_skip_char_local(s, s2, lo, hi, '.');
    let d = skip_char(s, lo, hi, '.');
    lemma_find_dash_local(s, s2, d, hi);
    let i = find_dash_or_bar(s, d, hi);
    if i < hi {
        lemma_find_char_local(s, s2, i + 1, hi, '\n');
        lemma_find_char_local(s, s2, i + 1, hi, '|');
        let j = find_char(s, i + 1, hi, '|');
        if j < hi {
            lemma_find_char_local(s, s2, j + 1, hi, '\n');
        }
    }
}

proof fn lemma_make_label_local(s: Seq<char>, s2: Seq<char>, p: int, e: int, parts: Parts, st: CatState)
    requires
        agree(s, s2, e),
        0 <= p,
        p + 1 <= e - 1,
        parts_within(parts, p + 1, e - 1),
    ensures
        make_label(s, p, e, 1, 1, parts, st) == make_label(s2, p, e, 1, 1, parts, st),
{
    lemma_agree_sub(s, s2, e, parts.dots_end, parts.cat_end);
    lemma_agree_sub(s, s2, e, p + 1, e - 1);
    lemma_agree_sub(s, s2, e, 0, p);
    lemma_agree_sub(s, s2, e, 0, e);
    if let Some(r) = parts.desc {
        lemma_agree_sub(s, s2, e, r.0, r.1);
    }
    if let Some(r) = parts.props {
        lemma_agree_sub(s, s2, e, r.0, r.1);
    }
}

proof fn lemma_fold_local(s: Seq<char>, s2: Seq<char>, ms: Seq<(int, int)>, n: int, k: int)
    requires
        agree(s, s2, n),
        0 <= k <= ms.len(),
        forall|j: int| 0 <= j < k ==> 0 <= (#[trigger] ms[j]).0 && ms[j].0 + 1 <= ms[j].1 - 1 && ms[j].1 <= n,
    ensures
        labels_fold(s, ms, 1, 1, k) == labels_fold(s2, ms, 1, 1, k),
    decreases k,
{
    if k > 0 {
        lemma_fold_local(s, s2, ms, n, k - 1);
        let (p, e) = ms[k - 1];
        assert(agree(s, s2, e));
        lemma_inner_parts_local(s, s2, p + 1, e - 1);
        if let Some(parts) = inner_parts(s, p + 1, e - 1) {
            let prev = labels_fold(s, ms, 1, 1, k - 1);
            lemma_make_label_local(s, s2, p, e, parts, prev.1);
        }
    }
}

proof fn lemma_fold_grows(s: Seq<char>, ms: Seq<(int, int)>, k: int, k2: int)
    requires
        0 <= k <= k2 <= ms.len(),
    ensures
        labels_fold(s, ms, 1, 1, k).0.len() <= labels_fold(s, ms, 1, 1, k2).0.len(),
        forall|j: int|
            0 <= j < labels_fold(s, ms, 1, 1, k).0.len() ==> #[trigger] labels_fold(s, ms, 1, 1, k2).0[j]
                == labels_fold(s, ms, 1, 1, k).0[j],
    decreases k2 - k,
{
    if k < k2 {
        lemma_fold_grows(s, ms, k, k2 - 1);
    }
}

proof fn lemma_run_end_local(s: Seq<char>, s2: Seq<char>, i: int)
    requires
        agree(s, s2, s.len() as int),
        0 <= i <= s.len(),
    ensures
        run_end(s, i, seq!['['], seq![']']) < s.len() ==> run_end(s2, i, seq!['['], seq![']'])
            == run_end(s, i, seq!['['], seq![']']),
    decreases s.len() - i,
{
    if i < s.len() {
        lemma_run_end_local(s, s2, i + 1);
    }
}

proof fn lemma_match_local(s: Seq<char>, s2: Seq<char>, i: int)
    requires
        agree(s, s2, s.len() as int),
        0 <= i < s.len(),
    ensures
        match_at(s, i, seq!['['], seq![']']) matches Some(e) ==> match_at(s2, i, seq!['['], seq![']'])
            == Some(e) && i + 2 <= e - 1 && e <= s.len(),
        match_at(s, i, seq!['['], seq![']']) is None && match_at(s2, i, seq!['['], seq![']']) is Some
            ==> forall|k: int| i + 1 <= k < s.len() ==> #[trigger] s[k] != '[',
{
    let o = seq!['['];
    let c = seq![']'];
    lemma_agree_sub(s, s2, s.len() as int, i, i + 1);
    let q = i + 1;
    lemma_run_end(s, q, o, c);
    lemma_run_end_local(s, s2, q);
    let r = run_end(s, q, o, c);
    if r < s.len() {
        lemma_agree_sub(s, s2, s.len() as int, r, r + 1);
    } else {
        assert(!occurs_at(s, r, c));
        assert forall|k: int| i + 1 <= k < s.len() implies #[trigger] s[k] != '[' by {
            if s[k] == '[' {
                assert(o[0] == '[');
                assert(o.contains(s[k]));
            }
        }
    }
}

proof fn lemma_scan_empty(s: Seq<char>, j: int)
    requires
        0 <= j,
        forall|k: int| j <= k < s.len() ==> #[trigger] s[k] != '[',
    ensures
        scan(s, j, seq!['['], seq![']']) == Seq::<(int, int)>::empty(),
    decreases s.len() - j,
{
    if j < s.len() {
        if occurs_at(s, j, seq!['[']) {
            assert(s.subrange(j, j + 1)[0] == s[j]);
        }
        lemma_scan_empty(s, j + 1);
    }
}

proof fn lemma_scan_prefix(s: Seq<char>, s2: Seq<char>, i: int)
    requires
        agree(s, s2, s.len() as int),
        0 <= i <= s.len(),
    ensures
        scan(s, i, seq!['['], seq![']']).len() <= scan(s2, i, seq!['['], seq![']']).len(),
        forall|k: int|
            0 <= k < scan(s, i, seq!['['], seq![']']).len() ==> #[trigger] scan(s2, i, seq!['['], seq![']'])[k]
                == scan(s, i, seq!['['], seq![']'])[k],
        forall|k: int|
            0 <= k < scan(s, i, seq!['['], seq![']']).len() ==> 0 <= (#[trigger] scan(s, i, seq!['['], seq![']'])[k]).0
                && scan(s, i, seq!['['], seq![']'])[k].0 + 1 <= scan(s, i, seq!['['], seq![']'])[k].1 - 1
                && scan(s, i, seq!['['], seq![']'])[k].1 <= s.len(),
    decreases s.len() - i,
{
    let o = seq!['['];
    let c = seq![']'];
    if i < s.len() {
        lemma_match_local(s, s2, i);
        match match_at(s, i, o, c) {
            Some(e) => {
                lemma_scan_prefix(s, s2, e);
                let a = scan(s, i, o, c);
                let b = scan(s2, i, o, c);
                assert(a == seq![(i, e)] + scan(s, e, o, c));
                assert(b == seq![(i, e)] + scan(s2, e, o, c));
                assert forall|k: int| 0 <= k < a.len() implies #[trigger] b[k] == a[k] by {
                    if k > 0 {
                        assert(a[k] == scan(s, e, o, c)[k - 1]);
                        assert(b[k] == scan(s2, e, o, c)[k - 1]);
                    }
                }
                assert forall|k: int| 0 <= k < a.len() implies 0 <= (#[trigger] a[k]).0 && a[k].0 + 1
                    <= a[k].1 - 1 && a[k].1 <= s.len() by {
                    if k > 0 {
                        assert(a[k] == scan(s, e, o, c)[k - 1]);
                    }
                }
            },
            None => {
                if match_at(s2, i, o, c) is Some {
                    lemma_scan_empty(s, i + 1);
                } else {
                    lemma_scan_prefix(s, s2, i + 1);
                }
            },
        }
    }
}

/// Writing on after a text keeps its labels: the labels of `s` are the first labels
/// of any text that starts with `s`.
pub proof fn lemma_labels_prefix(s: Seq<char>, t: Seq<char>)
    ensures
        parse_labels(s, seq!['['], seq![']']).len() <= parse_labels(s + t, seq!['['], seq![']']).len(),
        forall|j: int|
            0 <= j < parse_labels(s, seq!['['], seq![']']).len() ==> #[trigger] parse_labels(
                s + t,
                seq!['['],
                seq![']'],
            )[j] == parse_labels(s, seq!['['], seq![']'])[j],
{
    let s2 = s + t;
    let o = seq!['['];
    let c = seq![']'];
    assert(agree(s, s2, s.len() as int));
    let ms = scan(s, 0, o, c);
    let ms2 = scan(s2, 0, o, c);
    lemma_scan_prefix(s, s2, 0);
    let k = ms.len() as int;
    lemma_fold_prefix(s2, ms, ms2, 1, 1, k);
    lemma_fold_local(s, s2, ms, s.len() as int, k);
    lemma_fold_grows(s2, ms2, k, ms2.len() as int);
}


// ── Headings ──

proof fn lemma_skip_ws_local(s: Seq<char>, s2: Seq<char>, i: int, hi: int)
    requires
        agree(s, s2, hi),
        0 <= i <= hi,
    ensures
        skip_ws(s, i, hi) == skip_ws(s2, i, hi),
        i <= skip_ws(s, i, hi) <= hi,
    decreases hi - i,
{
    if i < hi {
        lemma_skip_ws_local(s, s2, i + 1, hi);
    }
}

proof fn lemma_skip_ws_back_local(s: Seq<char>, s2: Seq<char>, lo: int, j: int)
    requires
        agree(s, s2, j),
        0 <= lo <= j,
    ensures
        skip_ws_back(s, lo, j) == skip_ws_back(s2, lo, j),
    decreases j - lo,
{
    if j > lo {
        lemma_skip_ws_back_local(s, s2, lo, j - 1);
    }
}

/// Skipping whitespace up to `b` where `s[b - 1]` is whitespace.
proof fn lemma_skip_ws_last(s: Seq<char>, a: int, b: int)
    requires
        0 <= a <= b - 1,
        b <= s.len(),
        is_ws(s[b - 1]),
    ensures
        skip_ws(s, a, b - 1) < b - 1 ==> skip_ws(s, a, b) == skip_ws(s, a, b - 1),
        skip_ws(s, a, b - 1) >= b - 1 ==> skip_ws(s, a, b) == b,
    decreases b - a,
{
    if a < b - 1 {
        lemma_skip_ws_last(s, a + 1, b);
    } else {
        assert(skip_ws(s, b, b) == b);
        assert(skip_ws(s, a, b) == skip_ws(s, b, b));
    }
}

proof fn lemma_skip_char_last(s: Seq<char>, i: int, b: int, c: char)
    requires
        0 <= i <= b - 1,
        b <= s.len(),
        s[b - 1] != c,
    ensures
        skip_char(s, i, b, c) == skip_char(s, i, b - 1, c),
        skip_char(s, i, b - 1, c) <= b - 1,
    decreases b - i,
{
    if i < b - 1 {
        lemma_skip_char_last(s, i + 1, b, c);
    }
}

/// Trailing whitespace does not change a trimmed text.
proof fn lemma_trim_push_ws(u: Seq<char>, w: char)
    requires
        is_ws(w),
    ensures
        trim(u.push(w)) == trim(u),
{
    let v = u.push(w);
    let n = u.len() as int;
    assert(agree(u, v, n));
    lemma_skip_ws_local(u, v, 0, n);
    lemma_skip_ws_last(v, 0, n + 1);
    let lo = skip_ws(u, 0, n);
    if lo < n {
        lemma_skip_ws_back_local(u, v, lo, n);
        crate::text::lemma_skip_ws_back_bounds(u, lo, n);
        assert(skip_ws_back(v, lo, n + 1) == skip_ws_back(v, lo, n));
        lemma_agree_sub(u, v, n, lo, skip_ws_back(u, lo, n));
    } else {
        assert(trim(u) =~= Seq::<char>::empty());
        assert(trim(v) =~= Seq::<char>::empty());
    }
}

/// The heading of a line does not change when the line loses a trailing `'\r'`.
proof fn lemma_heading_at_cr(s: Seq<char>, a: int, b: int)
    requires
        0 <= a <= b - 1,
        b <= s.len(),
        s[b - 1] == '\r',
    ensures
        heading_at(s, a, b - 1) == heading_at(s, a, b),
{
    assert(is_ws(s[b - 1]));
    lemma_skip_ws_last(s, a, b);
    crate::text::lemma_skip_ws_bounds(s, a, b - 1);
    let t0 = skip_ws(s, a, b - 1);
    if t0 < b - 1 && s[t0] == '#' {
        lemma_skip_char_last(s, t0, b, '#');
        assert(agree(s, s, b - 1));
        lemma_skip_char_local(s, s, t0, b - 1, '#');
        let n = skip_char(s, t0, b, '#') - t0;
        let lv = if n < 6 { n } else { 6 };
        assert(s.subrange(t0 + lv, b) =~= s.subrange(t0 + lv, b - 1).push(s[b - 1]));
        lemma_trim_push_ws(s.subrange(t0 + lv, b - 1), s[b - 1]);
    }
}

proof fn lemma_heading_at_local(s: Seq<char>, s2: Seq<char>, a: int, b: int)
    requires
        agree(s, s2, b),
        0 <= a <= b,
    ensures
        heading_at(s, a, b) == heading_at(s2, a, b),
{
    lemma_skip_ws_local(s, s2, a, b);
    let t0 = skip_ws(s, a, b);
    if t0 < b {
        lemma_skip_char_local(s, s2, t0, b, '#');
        let n = skip_char(s, t0, b, '#') - t0;
        let lv = if n < 6 { n } else { 6 };
        lemma_agree_sub(s, s2, b, t0 + lv, b);
    }
}

proof fn lemma_next_newline_local(s: Seq<char>, s2: Seq<char>, i: int)
    requires
        agree(s, s2, s.len() as int),
        s2.len() > s.len(),
        s2[s.len() as int] == '\n',
        0 <= i <= s.len(),
    ensures
        next_newline(s2, i) == next_newline(s, i),
    decreases s.len() - i,
{
    if i < s.len() {
        lemma_next_newline_local(s, s2, i + 1);
    }
}

/// Line `k` of `s` from `start` is line `k` of `s2`, but for a last line of `s` that
/// ends in `'\r'`, which `s2` ends one character earlier.
pub open spec fn same_line(s: Seq<char>, a: (int, int), b: (int, int)) -> bool {
    b.0 == a.0 && (b.1 == a.1 || (a.1 == s.len() && b.1 == a.1 - 1 && a.0 <= b.1 && s[a.1 - 1] == '\r'))
}

proof fn lemma_lines_prefix(s: Seq<char>, s2: Seq<char>, start: int)
    requires
        agree(s, s2, s.len() as int),
        s2.len() > s.len(),
        s2[s.len() as int] == '\n',
        0 <= start <= s.len(),
    ensures
        lines_from(s, start).len() <= lines_from(s2, start).len(),
        forall|k: int|
            0 <= k < lines_from(s, start).len() ==> same_line(
                s,
                lines_from(s, start)[k],
                #[trigger] lines_from(s2, start)[k],
            ),
    decreases s.len() - start,
{
    if start < s.len() {
        lemma_next_newline_local(s, s2, start);
        crate::text::lemma_next_newline(s, start);
        let j = next_newline(s, start);
        let a = lines_from(s, start);
        let b = lines_from(s2, start);
        if j < s.len() {
            lemma_lines_prefix(s, s2, j + 1);
            if j > start {
                assert(s2[j - 1] == s[j - 1]);
            }
            assert forall|k: int| 0 <= k < a.len() implies same_line(s, a[k], #[trigger] b[k]) by {
                if k > 0 {
                    assert(a[k] == lines_from(s, j + 1)[k - 1]);
                    assert(b[k] == lines_from(s2, j + 1)[k - 1]);
                }
            }
        } else {
            assert(s2[j - 1] == s[j - 1]);
        }
    }
}

proof fn lemma_headings_local(s: Seq<char>, s2: Seq<char>, k: int)
    requires
        agree(s, s2, s.len() as int),
        s2.len() > s.len(),
        s2[s.len() as int] == '\n',
        0 <= k <= line_bounds(s).len(),
    ensures
        headings_upto(s2, line_bounds(s2), k) == headings_upto(s, line_bounds(s), k),
    decreases k,
{
    if k > 0 {
        lemma_headings_local(s, s2, k - 1);
        lemma_lines_prefix(s, s2, 0);
        lemma_lines_from_bounds(s, 0);
        let a = line_bounds(s)[k - 1];
        let b = line_bounds(s2)[k - 1];
        assert(same_line(s, a, b));
        if b.1 == a.1 {
            assert(agree(s, s2, a.1));
            lemma_heading_at_local(s, s2, a.0, a.1);
        } else {
            assert(agree(s, s2, b.1));
            lemma_heading_at_local(s, s2, b.0, b.1);
            lemma_heading_at_cr(s, a.0, a.1);
        }
    }
}

proof fn lemma_headings_grow(s: Seq<char>, ls: Seq<(int, int)>, k: int, k2: int)
    requires
        0 <= k <= k2 <= ls.len(),
    ensures
        headings_upto(s, ls, k).len() <= headings_upto(s, ls, k2).len(),
        forall|j: int|
            0 <= j < headings_upto(s, ls, k).len() ==> #[trigger] headings_upto(s, ls, k2)[j]
                == headings_upto(s, ls, k)[j],
    decreases k2 - k,
{
    if k < k2 {
        lemma_headings_grow(s, ls, k, k2 - 1);
    }
}

/// Writing on after a text, from a new line, keeps its headings: the headings of `s`
/// are the first headings of `s`, a line break and `t`.
pub proof fn lemma_headings_prefix(s: Seq<char>, t: Seq<char>)
    ensures
        headings_of(s).len() <= headings_of(s + seq!['\n'] + t).len(),
        forall|j: int|
            0 <= j < headings_of(s).len() ==> #[trigger] headings_of(s + seq!['\n'] + t)[j]
                == headings_of(s)[j],
{
    let s2 = s + seq!['\n'] + t;
    assert(agree(s, s2, s.len() as int));
    assert(s2[s.len() as int] == '\n');
    let k = line_bounds(s).len() as int;
    lemma_lines_prefix(s, s2, 0);
    lemma_headings_local(s, s2, k);
    lemma_headings_grow(s2, line_bounds(s2), k, line_bounds(s2).len() as int);
}


// ── Validation ──

proof fn lemma_heading_results_grow(
    hs: Seq<(nat, nat, Seq<char>)>,
    hs2: Seq<(nat, nat, Seq<char>)>,
    ths: Seq<HeadingView>,
    k: int,
)
    requires
        hs.len() <= hs2.len(),
        forall|j: int| 0 <= j < hs.len() ==> #[trigger] hs2[j] == hs[j],
        0 <= k <= ths.len(),
    ensures
        heading_results(hs2, ths, k).len() == heading_results(hs, ths, k).len(),
        forall|i: int|
            0 <= i < heading_results(hs, ths, k).len() ==> (#[trigger] heading_results(hs2, ths, k)[i]).rule_id
                == heading_results(hs, ths, k)[i].rule_id && (heading_results(hs, ths, k)[i].passed
                ==> heading_results(hs2, ths, k)[i].passed),
    decreases k,
{
    if k > 0 {
        lemma_heading_results_grow(hs, hs2, ths, k - 1);
        let th = ths[k - 1];
        if heading_found(hs, th) {
            let i = choose|i: int|
                0 <= i < hs.len() && #[trigger] hs[i].1 == th.level && match th.title {
                    Some(t) => crate::template::contains_seq(hs[i].2, t),
                    None => true,
                };
            assert(hs2[i] == hs[i]);
            assert(heading_found(hs2, th));
        }
    }
}

proof fn lemma_label_results_grow(
    ls: Seq<LabelView>,
    ls2: Seq<LabelView>,
    lts: Seq<TemplateLabelView>,
    k: int,
)
    requires
        ls.len() <= ls2.len(),
        forall|j: int| 0 <= j < ls.len() ==> #[trigger] ls2[j] == ls[j],
        0 <= k <= lts.len(),
    ensures
        label_results(ls2, lts, k).len() == label_results(ls, lts, k).len(),
        forall|i: int|
            0 <= i < label_results(ls, lts, k).len() ==> (#[trigger] label_results(ls2, lts, k)[i]).rule_id
                == label_results(ls, lts, k)[i].rule_id && (label_results(ls, lts, k)[i].passed
                ==> label_results(ls2, lts, k)[i].passed),
    decreases k,
{
    if k > 0 {
        lemma_label_results_grow(ls, ls2, lts, k - 1);
        let lt = lts[k - 1];
        if exists|i: int| 0 <= i < ls.len() && #[trigger] ls[i].category == lt.name {
            let i = choose|i: int| 0 <= i < ls.len() && #[trigger] ls[i].category == lt.name;
            assert(ls2[i] == ls[i]);
            assert(exists|i: int| 0 <= i < ls2.len() && #[trigger] ls2[i].category == lt.name);
        }
    }
}

/// Writing on after a text, from a new line, keeps what a template's validation found:
/// the results are the same checks, in the same order and under the same ids, and every
/// check the text passed still passes.
pub proof fn law_appending_keeps_passed_checks(s: Seq<char>, t: Seq<char>, tmpl: TemplateView)
    ensures
        ({
            let a = validation(s, tmpl);
            let b = validation(s + seq!['\n'] + t, tmpl);
            &&& b.len() == a.len()
            &&& forall|i: int|
                0 <= i < a.len() ==> (#[trigger] b[i]).rule_id == a[i].rule_id && (a[i].passed
                    ==> b[i].passed)
        }),
{
    let s2 = s + seq!['\n'] + t;
    lemma_headings_prefix(s, t);
    lemma_labels_prefix(s, seq!['\n'] + t);
    assert(s + (seq!['\n'] + t) =~= s2);
    let ths = tmpl.expected_headings;
    let lts = tmpl.label_types;
    let o = seq!['['];
    let c = seq![']'];
    lemma_heading_results_grow(headings_of(s), headings_of(s2), ths, ths.len() as int);
    lemma_label_results_grow(parse_labels(s, o, c), parse_labels(s2, o, c), lts, lts.len() as int);
    let ha = heading_results(headings_of(s), ths, ths.len() as int);
    let hb = heading_results(headings_of(s2), ths, ths.len() as int);
    let la = label_results(parse_labels(s, o, c), lts, lts.len() as int);
    let lb = label_results(parse_labels(s2, o, c), lts, lts.len() as int);
    let a = validation(s, tmpl);
    let b = validation(s2, tmpl);
    assert(a == ha + la);
    assert(b == hb + lb);
    assert forall|i: int| 0 <= i < a.len() implies (#[trigger] b[i]).rule_id == a[i].rule_id && (a[i].passed
        ==> b[i].passed) by {
        if i < ha.len() {
            assert(a[i] == ha[i] && b[i] == hb[i]);
        } else {
            assert(a[i] == la[i - ha.len()] && b[i] == lb[i - ha.len()]);
        }
    }
}


// ── When a section rule passes ──

/// How many of the first `m` expected headings are required: the place of the result
/// of the required heading `m` among the results.
pub open spec fn required_before(ths: Seq<HeadingView>, m: int) -> nat
    decreases m,
{
    if m <= 0 {
        0
    } else {
        required_before(ths, m - 1) + if ths[m - 1].required {
            1nat
        } else {
            0nat
        }
    }
}

proof fn lemma_heading_results_at(hs: Seq<(nat, nat, Seq<char>)>, ths: Seq<HeadingView>, k: int, m: int)
    requires
        0 <= m < k <= ths.len(),
        ths[m].required,
    ensures
        heading_results(hs, ths, k).len() == required_before(ths, k),
        required_before(ths, m) < required_before(ths, k),
        heading_results(hs, ths, k)[required_before(ths, m) as int] == crate::template::heading_result(hs, ths[m]),
    decreases k,
{
    lemma_heading_results_len(hs, ths, k);
    if m < k - 1 {
        lemma_heading_results_at(hs, ths, k - 1, m);
        lemma_heading_results_len(hs, ths, k - 1);
    } else {
        lemma_heading_results_len(hs, ths, k - 1);
    }
}

proof fn lemma_heading_results_len(hs: Seq<(nat, nat, Seq<char>)>, ths: Seq<HeadingView>, k: int)
    requires
        0 <= k <= ths.len(),
    ensures
        heading_results(hs, ths, k).len() == required_before(ths, k),
    decreases k,
{
    if k > 0 {
        lemma_heading_results_len(hs, ths, k - 1);
    }
}

/// A required section passes exactly when the document has a heading of the rule's
/// level whose title holds the rule's title somewhere in it (any heading of that level,
/// for a rule without a title). Its result stands at the rule's place among the
/// required sections and is named after the title.
pub proof fn law_heading_rule_passes(s: Seq<char>, t: TemplateView, m: int)
    requires
        0 <= m < t.expected_headings.len(),
        t.expected_headings[m].required,
    ensures
        ({
            let th = t.expected_headings[m];
            let hs = headings_of(s);
            let k = required_before(t.expected_headings, m) as int;
            let r = validation(s, t)[k];
            &&& k < validation(s, t).len()
            &&& match th.title {
                Some(x) => {
                    &&& r.rule_id == "heading_"@ + x
                    &&& r.passed <==> exists|i: int, p: int|
                        0 <= i < hs.len() && hs[i].1 == th.level && 0 <= p && p + x.len() <= hs[i].2.len()
                            && #[trigger] hs[i].2.subrange(p, p + x.len()) == x
                },
                None => r.passed <==> exists|i: int| 0 <= i < hs.len() && #[trigger] hs[i].1 == th.level,
            }
        }),
{
    let ths = t.expected_headings;
    let th = ths[m];
    let hs = headings_of(s);
    lemma_heading_results_at(hs, ths, ths.len() as int, m);
    let k = required_before(ths, m) as int;
    let hr = heading_results(hs, ths, ths.len() as int);
    let v = validation(s, t);
    assert(v[k] == hr[k]);
    let r = v[k];
    match th.title {
        Some(x) => {
            if r.passed {
                let i = choose|i: int|
                    0 <= i < hs.len() && #[trigger] hs[i].1 == th.level && match th.title {
                        Some(t) => crate::template::contains_seq(hs[i].2, t),
                        None => true,
                    };
                let p = choose|p: int| crate::label::occurs_at(hs[i].2, p, x);
                assert(hs[i].2.subrange(p, p + x.len()) == x);
            }
            if exists|i: int, p: int|
                0 <= i < hs.len() && hs[i].1 == th.level && 0 <= p && p + x.len() <= hs[i].2.len()
                    && #[trigger] hs[i].2.subrange(p, p + x.len()) == x {
                let (i, p) = choose|i: int, p: int|
                    0 <= i < hs.len() && hs[i].1 == th.level && 0 <= p && p + x.len() <= hs[i].2.len()
                        && #[trigger] hs[i].2.subrange(p, p + x.len()) == x;
                assert(crate::label::occurs_at(hs[i].2, p, x));
                assert(crate::template::contains_seq(hs[i].2, x));
                assert(heading_found(hs, th));
            }
        },
        None => {},
    }
}

} // verus!
