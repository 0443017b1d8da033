//! What stripping and parsing labels promise together.

use vstd::prelude::*;
use crate::label::{
    has_type, register_fold, registrable, LabelTypeView,
    inner_parts, insert_desc, label_ranges, labels_fold, lemma_match_at, match_at, parse_labels,
    remove_bytes, remove_ranges, scan, sort_desc, strip_spec, char_at_byte, char_at_byte_from,
    LabelView,
};
use crate::text::{lemma_utf8_len_mono, lemma_utf8_len_take, utf8_len};

verus! {

/// The delimited spans of `ms` whose inside parses as a label.
pub open spec fn filter_parsed(s: Seq<char>, ms: Seq<(int, int)>, ol: int, cl: int) -> Seq<(int, int)>
    decreases ms.len(),
{
    if ms.len() == 0 {
        seq![]
    } else {
        let f = filter_parsed(s, ms.drop_last(), ol, cl);
        let x = ms.last();
        if inner_parts(s, x.0 + ol, x.1 - cl) is Some {
            f.push(x)
        } else {
            f
        }
    }
}

/// Character spans of the labels of `s`.
pub open spec fn parsed_spans(s: Seq<char>, open: Seq<char>, close: Seq<char>) -> Seq<(int, int)> {
    filter_parsed(s, scan(s, 0, open, close), open.len() as int, close.len() as int)
}

/// `s[i..]` without the characters of the (ordered, disjoint) spans `sp`.
pub open spec fn keep_from(s: Seq<char>, i: int, sp: Seq<(int, int)>) -> Seq<char>
    decreases sp.len(),
{
    if sp.len() == 0 {
        s.subrange(i, s.len() as int)
    } else {
        s.subrange(i, sp[0].0) + keep_from(s, sp[0].1, sp.drop_first())
    }
}

/// The text of `s` with the characters of each of its labels removed.
pub open spec fn without_labels(s: Seq<char>, open: Seq<char>, close: Seq<char>) -> Seq<char> {
    keep_from(s, 0, parsed_spans(s, open, close))
}

/// Spans lie in `[lo, hi)`, each nonempty, each ending before the next begins.
pub open spec fn ordered_spans(sp: Seq<(int, int)>, lo: int, hi: int) -> bool {
    &&& forall|a: int| 0 <= a < sp.len() ==> lo <= #[trigger] sp[a].0 < sp[a].1 <= hi
    &&& forall|a: int, b: int| 0 <= a < b < sp.len() ==> #[trigger] sp[a].1 <= #[trigger] sp[b].0
}

/// Byte offsets in `s` of character spans.
pub open spec fn byte_ranges(s: Seq<char>, sp: Seq<(int, int)>) -> Seq<(nat, nat)> {
    sp.map_values(|x: (int, int)| (utf8_len(s.take(x.0)), utf8_len(s.take(x.1))))
}

proof fn lemma_scan_ordered(s: Seq<char>, i: int, open: Seq<char>, close: Seq<char>)
    requires
        0 <= i <= s.len(),
    ensures
        ordered_spans(scan(s, i, open, close), i, s.len() as int),
    decreases s.len() - i,
{
    if i < s.len() {
        match match_at(s, i, open, close) {
            Some(e) => {
                lemma_match_at(s, i, open, close);
                lemma_scan_ordered(s, e, open, close);
                let rest = scan(s, e, open, close);
                let all = seq![(i, e)] + rest;
                assert(scan(s, i, open, close) == all);
                assert forall|a: int, b: int| 0 <= a < b < all.len() implies #[trigger] all[a].1
                    <= #[trigger] all[b].0 by {
                    if a == 0 {
                        assert(all[b] == rest[b - 1]);
                    } else {
                        assert(all[a] == rest[a - 1]);
                        assert(all[b] == rest[b - 1]);
                    }
                }
                assert forall|a: int| 0 <= a < all.len() implies i <= #[trigger] all[a].0
                    < all[a].1 <= s.len() by {
                    if a > 0 {
                        assert(all[a] == rest[a - 1]);
                    }
                }
            },
            None => {
                lemma_scan_ordered(s, i + 1, open, close);
            },
        }
    }
}

proof fn lemma_filter_sub(s: Seq<char>, ms: Seq<(int, int)>, ol: int, cl: int)
    ensures
        forall|a: int|
            0 <= a < filter_parsed(s, ms, ol, cl).len() ==> exists|j: int|
                0 <= j < ms.len() && #[trigger] filter_parsed(s, ms, ol, cl)[a] == ms[j],
        filter_parsed(s, ms, ol, cl).len() <= ms.len(),
    decreases ms.len(),
{
    if ms.len() > 0 {
        let d = ms.drop_last();
        lemma_filter_sub(s, d, ol, cl);
        let f = filter_parsed(s, ms, ol, cl);
        let fd = filter_parsed(s, d, ol, cl);
        assert forall|a: int| 0 <= a < f.len() implies exists|j: int|
            0 <= j < ms.len() && #[trigger] f[a] == ms[j] by {
            if a < fd.len() {
                let j = choose|j: int| 0 <= j < d.len() && fd[a] == d[j];
                assert(f[a] == fd[a]);
                assert(ms[j] == d[j]);
            } else {
                assert(f[a] == ms[ms.len() - 1]);
            }
        }
    }
}

proof fn lemma_filter_ordered(s: Seq<char>, ms: Seq<(int, int)>, ol: int, cl: int, lo: int, hi: int)
    requires
        ordered_spans(ms, lo, hi),
    ensures
        ordered_spans(filter_parsed(s, ms, ol, cl), lo, hi),
    decreases ms.len(),
{
    if ms.len() > 0 {
        let d = ms.drop_last();
        assert(ordered_spans(d, lo, hi)) by {
            assert forall|a: int, b: int| 0 <= a < b < d.len() implies #[trigger] d[a].1
                <= #[trigger] d[b].0 by {
                assert(d[a] == ms[a] && d[b] == ms[b]);
            }
            assert forall|a: int| 0 <= a < d.len() implies lo <= #[trigger] d[a].0 < d[a].1
                <= hi by {
                assert(d[a] == ms[a]);
            }
        }
        lemma_filter_ordered(s, d, ol, cl, lo, hi);
        lemma_filter_sub(s, d, ol, cl);
        let fd = filter_parsed(s, d, ol, cl);
        let x = ms.last();
        if inner_parts(s, x.0 + ol, x.1 - cl) is Some {
            let f = fd.push(x);
            assert(filter_parsed(s, ms, ol, cl) == f);
            assert forall|a: int, b: int| 0 <= a < b < f.len() implies #[trigger] f[a].1
                <= #[trigger] f[b].0 by {
                if b == f.len() - 1 {
                    let j = choose|j: int| 0 <= j < d.len() && #[trigger] fd[a] == d[j];
                    assert(f[a] == ms[j]);
                    assert(ms[j].1 <= ms[ms.len() - 1].0);
                } else {
                    assert(f[a] == fd[a] && f[b] == fd[b]);
                }
            }
            assert forall|a: int| 0 <= a < f.len() implies lo <= #[trigger] f[a].0 < f[a].1
                <= hi by {
                if a < fd.len() {
                    assert(f[a] == fd[a]);
                }
            }
        }
    }
}

/// Byte ranges of the labels among the first `k` spans are those of the parsed spans.
proof fn lemma_fold_ranges(s: Seq<char>, ms: Seq<(int, int)>, ol: int, cl: int, k: int)
    requires
        0 <= k <= ms.len(),
    ensures
        label_ranges(labels_fold(s, ms, ol, cl, k).0) == byte_ranges(
            s,
            filter_parsed(s, ms.take(k), ol, cl),
        ),
    decreases k,
{
    if k == 0 {
        assert(ms.take(0) =~= Seq::<(int, int)>::empty());
        assert(label_ranges(labels_fold(s, ms, ol, cl, k).0) =~= Seq::<(nat, nat)>::empty());
    } else {
        lemma_fold_ranges(s, ms, ol, cl, k - 1);
        assert(ms.take(k).drop_last() =~= ms.take(k - 1));
        assert(ms.take(k).last() == ms[k - 1]);
        let prev = labels_fold(s, ms, ol, cl, k - 1);
        let x = ms[k - 1];
        if inner_parts(s, x.0 + ol, x.1 - cl) is Some {
            let now = labels_fold(s, ms, ol, cl, k).0;
            assert(label_ranges(now) =~= label_ranges(prev.0).push(
                (utf8_len(s.take(x.0)), utf8_len(s.take(x.1))),
            ));
            assert(byte_ranges(s, filter_parsed(s, ms.take(k), ol, cl)) =~= byte_ranges(
                s,
                filter_parsed(s, ms.take(k - 1), ol, cl),
            ).push((utf8_len(s.take(x.0)), utf8_len(s.take(x.1)))));
        }
    }
}

/// Inserting a range that starts after all others puts it first.
proof fn lemma_insert_front(sorted: Seq<(nat, nat)>, x: (nat, nat))
    requires
        forall|j: int| 0 <= j < sorted.len() ==> #[trigger] sorted[j].0 < x.0,
    ensures
        insert_desc(sorted, x) == seq![x] + sorted,
    decreases sorted.len(),
{
    if sorted.len() == 0 {
        assert(seq![x] + sorted =~= seq![x]);
    } else {
        let d = sorted.drop_last();
        assert(forall|j: int| 0 <= j < d.len() ==> d[j] == sorted[j]);
        lemma_insert_front(d, x);
        assert(seq![x] + sorted =~= (seq![x] + d).push(sorted.last()));
    }
}

/// Ranges already in increasing start order come out reversed.
proof fn lemma_sort_desc_rev(rs: Seq<(nat, nat)>)
    requires
        forall|a: int, b: int| 0 <= a < b < rs.len() ==> #[trigger] rs[a].0 < #[trigger] rs[b].0,
    ensures
        sort_desc(rs) == rs.reverse(),
    decreases rs.len(),
{
    if rs.len() == 0 {
        assert(rs.reverse() =~= Seq::<(nat, nat)>::empty());
    } else {
        let d = rs.drop_last();
        assert(forall|j: int| 0 <= j < d.len() ==> d[j] == rs[j]);
        lemma_sort_desc_rev(d);
        let rd = d.reverse();
        assert forall|j: int| 0 <= j < rd.len() implies #[trigger] rd[j].0 < rs.last().0 by {
            assert(rd[j] == d[d.len() - 1 - j]);
            assert(rs[d.len() - 1 - j].0 < rs[rs.len() - 1].0);
        }
        lemma_insert_front(rd, rs.last());
        assert(rs.reverse() =~= seq![rs.last()] + rd);
    }
}

/// Splitting `keep_from` before the first span.
proof fn lemma_keep_split(s: Seq<char>, i: int, m: int, sp: Seq<(int, int)>)
    requires
        0 <= i <= m <= s.len(),
        sp.len() > 0 ==> m <= sp[0].0 <= sp[0].1 <= s.len(),
    ensures
        keep_from(s, i, sp) == s.subrange(i, m) + keep_from(s, m, sp),
{
    if sp.len() == 0 {
        assert(s.subrange(i, s.len() as int) =~= s.subrange(i, m) + s.subrange(m, s.len() as int));
    } else {
        assert(s.subrange(i, sp[0].0) =~= s.subrange(i, m) + s.subrange(m, sp[0].0));
    }
}

/// Locating the byte offset of a prefix finds that prefix.
pub proof fn lemma_char_at_byte_exact(u: Seq<char>, k: int)
    requires
        0 <= k <= u.len(),
    ensures
        char_at_byte(u, utf8_len(u.take(k)) as int) == k,
{
    lemma_char_at_byte_from_exact(u, k, 0);
}

proof fn lemma_char_at_byte_from_exact(u: Seq<char>, k: int, m: int)
    requires
        0 <= m <= k <= u.len(),
    ensures
        char_at_byte_from(u, utf8_len(u.take(k)) as int, m) == k,
    decreases k - m,
{
    if m < k {
        lemma_utf8_len_mono(u, m, k);
        lemma_char_at_byte_from_exact(u, k, m + 1);
    }
}

/// Removing the byte ranges of ordered spans, last first, keeps what lies between them.
proof fn lemma_remove_spans(s: Seq<char>, sp: Seq<(int, int)>)
    requires
        ordered_spans(sp, 0, s.len() as int),
    ensures
        remove_ranges(s, byte_ranges(s, sp).reverse()) == Some(keep_from(s, 0, sp)),
    decreases sp.len(),
{
    if sp.len() == 0 {
        assert(byte_ranges(s, sp).reverse() =~= Seq::<(nat, nat)>::empty());
        assert(s.subrange(0, s.len() as int) =~= s);
    } else {
        let x = sp[0];
        let t = sp.drop_first();
        assert(ordered_spans(t, 0, s.len() as int)) by {
            assert forall|a: int, b: int| 0 <= a < b < t.len() implies #[trigger] t[a].1
                <= #[trigger] t[b].0 by {
                assert(t[a] == sp[a + 1] && t[b] == sp[b + 1]);
            }
            assert forall|a: int| 0 <= a < t.len() implies 0 <= #[trigger] t[a].0 < t[a].1
                <= s.len() by {
                assert(t[a] == sp[a + 1]);
            }
        }
        lemma_remove_spans(s, t);
        let rs = byte_ranges(s, sp).reverse();
        assert(rs.drop_last() =~= byte_ranges(s, t).reverse());
        assert(rs.last() == (utf8_len(s.take(x.0)), utf8_len(s.take(x.1))));
        let u = keep_from(s, 0, t);
        if t.len() > 0 {
            assert(x.1 <= t[0].0);
        }
        lemma_keep_split(s, 0, x.1, t);
        assert(s.subrange(0, x.1) =~= s.take(x.1));
        assert(u == s.take(x.1) + keep_from(s, x.1, t));
        assert(u.take(x.1) =~= s.take(x.1));
        assert(u.take(x.0) =~= s.take(x.0));
        lemma_utf8_len_take(u, x.1);
        lemma_utf8_len_mono(s, x.0, x.1);
        lemma_char_at_byte_exact(u, x.0);
        lemma_char_at_byte_exact(u, x.1);
        assert(u.skip(x.1) =~= keep_from(s, x.1, t));
        assert(remove_bytes(u, rs.last().0, rs.last().1) == Some(u.take(x.0) + u.skip(x.1)));
        assert(keep_from(s, 0, sp) == s.subrange(0, x.0) + keep_from(s, x.1, t));
        assert(s.subrange(0, x.0) =~= u.take(x.0));
    }
}

/// Stripping the labels that parsing finds removes exactly the characters of those
/// labels: `strip_semantic_labels(text, &parse(text))` never hits a non-boundary and
/// yields `text` with every label's span cut out, the rest in order.
pub proof fn law_strip_parsed_labels(s: Seq<char>, open: Seq<char>, close: Seq<char>)
    requires
        open.len() + close.len() >= 1,
    ensures
        strip_spec(s, parse_labels(s, open, close)) == Some(without_labels(s, open, close)),
{
    let ms = scan(s, 0, open, close);
    let ol = open.len() as int;
    let cl = close.len() as int;
    let sp = parsed_spans(s, open, close);
    lemma_scan_ordered(s, 0, open, close);
    lemma_filter_ordered(s, ms, ol, cl, 0, s.len() as int);
    lemma_fold_ranges(s, ms, ol, cl, ms.len() as int);
    assert(ms.take(ms.len() as int) =~= ms);
    let rs = byte_ranges(s, sp);
    assert(label_ranges(parse_labels(s, open, close)) == rs);
    assert forall|a: int, b: int| 0 <= a < b < rs.len() implies #[trigger] rs[a].0
        < #[trigger] rs[b].0 by {
        assert(sp[a].0 < sp[a].1 <= sp[b].0);
        lemma_utf8_len_mono(s, sp[a].0, sp[b].0);
    }
    lemma_sort_desc_rev(rs);
    lemma_remove_spans(s, sp);
}

/// Labels come in document order and never overlap: each label's byte range ends at
/// or before the next one starts, and each range is nonempty, within the text, and
/// starts and ends on a character boundary.
#[verifier::spinoff_prover]
pub proof fn law_labels_ordered(s: Seq<char>, open: Seq<char>, close: Seq<char>)
    ensures
        forall|a: int, b: int|
            0 <= a < b < parse_labels(s, open, close).len() ==> #[trigger] parse_labels(
                s,
                open,
                close,
            )[a].end_byte <= #[trigger] parse_labels(s, open, close)[b].start_byte,
        forall|a: int|
            0 <= a < parse_labels(s, open, close).len() ==> #[trigger] parse_labels(
                s,
                open,
                close,
            )[a].start_byte < parse_labels(s, open, close)[a].end_byte <= utf8_len(s),
        forall|a: int|
            0 <= a < parse_labels(s, open, close).len() ==> char_at_byte(
                s,
                #[trigger] parse_labels(s, open, close)[a].start_byte as int,
            ) >= 0,
        forall|a: int|
            0 <= a < parse_labels(s, open, close).len() ==> char_at_byte(
                s,
                #[trigger] parse_labels(s, open, close)[a].end_byte as int,
            ) >= 0,
{
    let ls = parse_labels(s, open, close);
    if open.len() + close.len() >= 1 {
        let ms = scan(s, 0, open, close);
        let ol = open.len() as int;
        let cl = close.len() as int;
        let sp = parsed_spans(s, open, close);
        lemma_scan_ordered(s, 0, open, close);
        lemma_filter_ordered(s, ms, ol, cl, 0, s.len() as int);
        lemma_fold_ranges(s, ms, ol, cl, ms.len() as int);
        assert(ms.take(ms.len() as int) =~= ms);
        let rs = byte_ranges(s, sp);
        assert(label_ranges(ls) == rs);
        assert forall|a: int, b: int| 0 <= a < b < ls.len() implies #[trigger] ls[a].end_byte
            <= #[trigger] ls[b].start_byte by {
            assert(label_ranges(ls)[a] == (ls[a].start_byte, ls[a].end_byte));
            assert(label_ranges(ls)[b] == (ls[b].start_byte, ls[b].end_byte));
            assert(rs.len() == sp.len());
            assert(0 <= sp[a].0 < sp[a].1 <= sp[b].0 < sp[b].1 <= s.len());
            lemma_utf8_len_mono(s, sp[a].1, sp[b].0);
        }
        assert forall|a: int| 0 <= a < ls.len() implies #[trigger] ls[a].start_byte
            < ls[a].end_byte <= utf8_len(s) by {
            assert(label_ranges(ls)[a] == (ls[a].start_byte, ls[a].end_byte));
            assert(rs.len() == sp.len());
            assert(0 <= sp[a].0 < sp[a].1 <= s.len());
            lemma_utf8_len_mono(s, sp[a].0, sp[a].1);
            lemma_utf8_len_take(s, sp[a].1);
        }
        assert forall|a: int| 0 <= a < ls.len() implies char_at_byte(
            s,
            #[trigger] ls[a].start_byte as int,
        ) >= 0 by {
            assert(label_ranges(ls)[a] == (ls[a].start_byte, ls[a].end_byte));
            assert(rs.len() == sp.len());
            assert(0 <= sp[a].0 <= s.len());
            lemma_char_at_byte_exact(s, sp[a].0);
        }
        assert forall|a: int| 0 <= a < ls.len() implies char_at_byte(
            s,
            #[trigger] ls[a].end_byte as int,
        ) >= 0 by {
            assert(label_ranges(ls)[a] == (ls[a].start_byte, ls[a].end_byte));
            assert(rs.len() == sp.len());
            assert(0 <= sp[a].1 <= s.len());
            lemma_char_at_byte_exact(s, sp[a].1);
        }
    }
}

proof fn lemma_register_grows(ls: Seq<LabelView>, existing: Seq<LabelTypeView>, k: int)
    requires
        0 <= k <= ls.len(),
    ensures
        ({
            let r = register_fold(ls, existing, k).0;
            &&& existing.len() <= r.len()
            &&& r.take(existing.len() as int) == existing
            &&& forall|j: int|
                0 <= j < k && registrable(ls[j].category) ==> has_type(r, #[trigger] ls[j].category)
        }),
    decreases k,
{
    if k > 0 {
        lemma_register_grows(ls, existing, k - 1);
        let prev = register_fold(ls, existing, k - 1);
        let cat = ls[k - 1].category;
        let r = register_fold(ls, existing, k).0;
        if registrable(cat) && !has_type(prev.0, cat) {
            assert(r.take(existing.len() as int) =~= prev.0.take(existing.len() as int));
            assert(r[r.len() - 1].name == cat);
            assert forall|j: int| 0 <= j < k && registrable(ls[j].category) implies has_type(
                r,
                #[trigger] ls[j].category,
            ) by {
                if j < k - 1 {
                    let i = choose|i: int| 0 <= i < prev.0.len() && #[trigger] prev.0[i].name == ls[j].category;
                    assert(r[i] == prev.0[i]);
                }
            }
        }
    } else {
        assert(existing.take(existing.len() as int) =~= existing);
    }
}

proof fn lemma_register_nothing_new(ls: Seq<LabelView>, ts: Seq<LabelTypeView>, k: int)
    requires
        0 <= k <= ls.len(),
        forall|j: int| 0 <= j < k && registrable(ls[j].category) ==> has_type(ts, #[trigger] ls[j].category),
    ensures
        register_fold(ls, ts, k).0 == ts,
    decreases k,
{
    if k > 0 {
        lemma_register_nothing_new(ls, ts, k - 1);
    }
}

/// Registering the labels' categories keeps the existing types, in front and
/// unchanged; afterwards every label whose category can be registered (nonempty, not
/// ending in `.`) has a type; and registering the same labels again adds nothing.
pub proof fn law_register_labels(ls: Seq<LabelView>, existing: Seq<LabelTypeView>)
    ensures
        ({
            let r = register_fold(ls, existing, ls.len() as int).0;
            &&& existing.len() <= r.len()
            &&& r.take(existing.len() as int) == existing
            &&& forall|j: int|
                0 <= j < ls.len() && registrable(ls[j].category) ==> has_type(r, #[trigger] ls[j].category)
            &&& register_fold(ls, r, ls.len() as int).0 == r
        }),
{
    lemma_register_grows(ls, existing, ls.len() as int);
    let r = register_fold(ls, existing, ls.len() as int).0;
    lemma_register_nothing_new(ls, r, ls.len() as int);
}


// ── Stripping ignores the order of the labels ──

/// Starts strictly decreasing along `rs`.
pub open spec fn strictly_desc(rs: Seq<(nat, nat)>) -> bool {
    forall|i: int, j: int| 0 <= i < j < rs.len() ==> #[trigger] rs[i].0 > #[trigger] rs[j].0
}

/// No two ranges of `rs` start at the same byte.
pub open spec fn distinct_starts(rs: Seq<(nat, nat)>) -> bool {
    forall|i: int, j: int| 0 <= i < j < rs.len() ==> #[trigger] rs[i].0 != #[trigger] rs[j].0
}

proof fn lemma_insert_desc_strict(sorted: Seq<(nat, nat)>, x: (nat, nat))
    requires
        strictly_desc(sorted),
        forall|k: int| 0 <= k < sorted.len() ==> #[trigger] sorted[k].0 != x.0,
    ensures
        strictly_desc(insert_desc(sorted, x)),
        insert_desc(sorted, x).to_multiset() == sorted.to_multiset().insert(x),
        forall|k: int|
            0 <= k < insert_desc(sorted, x).len() ==> #[trigger] insert_desc(sorted, x)[k] == x
                || exists|m: int| 0 <= m < sorted.len() && sorted[m] == insert_desc(sorted, x)[k],
    decreases sorted.len(),
{
    broadcast use vstd::multiset::group_multiset_axioms;
    broadcast use vstd::seq_lib::group_to_multiset_ensures;

    let r = insert_desc(sorted, x);
    if sorted.len() == 0 {
        assert(r =~= seq![x]);
        assert(seq![x] =~= Seq::<(nat, nat)>::empty().push(x));
        assert(r.to_multiset() =~= sorted.to_multiset().insert(x));
    } else if sorted.last().0 >= x.0 {
        assert(r == sorted.push(x));
        assert forall|k: int| 0 <= k < r.len() implies #[trigger] r[k] == x
            || exists|m: int| 0 <= m < sorted.len() && sorted[m] == r[k] by {
            if k < sorted.len() {
                assert(sorted[k] == r[k]);
            }
        }
    } else {
        let d = sorted.drop_last();
        let last = sorted.last();
        lemma_insert_desc_strict(d, x);
        let q = insert_desc(d, x);
        assert(r == q.push(last));
        assert(sorted =~= d.push(last));
        assert forall|k: int| 0 <= k < q.len() implies #[trigger] q[k].0 > last.0 by {
            if q[k] != x {
                let m = choose|m: int| 0 <= m < d.len() && d[m] == q[k];
                assert(sorted[m] == d[m]);
            }
        }
        assert forall|i: int, j: int| 0 <= i < j < r.len() implies #[trigger] r[i].0 > #[trigger] r[j].0 by {
            if j == r.len() - 1 {
                assert(r[i] == q[i]);
            } else {
                assert(r[i] == q[i] && r[j] == q[j]);
            }
        }
        assert forall|k: int| 0 <= k < r.len() implies #[trigger] r[k] == x
            || exists|m: int| 0 <= m < sorted.len() && sorted[m] == r[k] by {
            if k == r.len() - 1 {
                assert(sorted[sorted.len() - 1] == r[k]);
            } else {
                assert(r[k] == q[k]);
                if q[k] != x {
                    let m = choose|m: int| 0 <= m < d.len() && d[m] == q[k];
                    assert(sorted[m] == d[m]);
                }
            }
        }
        assert(r.to_multiset() =~= sorted.to_multiset().insert(x));
    }
}

proof fn lemma_sort_desc_strict(rs: Seq<(nat, nat)>)
    requires
        distinct_starts(rs),
    ensures
        strictly_desc(sort_desc(rs)),
        sort_desc(rs).to_multiset() == rs.to_multiset(),
        forall|k: int|
            0 <= k < sort_desc(rs).len() ==> exists|m: int| 0 <= m < rs.len() && rs[m] == #[trigger] sort_desc(rs)[k],
    decreases rs.len(),
{
    broadcast use vstd::multiset::group_multiset_axioms;
    broadcast use vstd::seq_lib::group_to_multiset_ensures;

    if rs.len() == 0 {
        assert(rs.to_multiset() =~= vstd::multiset::Multiset::empty());
        assert(sort_desc(rs).to_multiset() =~= vstd::multiset::Multiset::empty());
    } else {
        let d = rs.drop_last();
        let x = rs.last();
        assert(distinct_starts(d)) by {
            assert forall|i: int, j: int| 0 <= i < j < d.len() implies #[trigger] d[i].0 != #[trigger] d[j].0 by {
                assert(d[i] == rs[i] && d[j] == rs[j]);
            }
        }
        lemma_sort_desc_strict(d);
        let sd = sort_desc(d);
        assert forall|k: int| 0 <= k < sd.len() implies #[trigger] sd[k].0 != x.0 by {
            let m = choose|m: int| 0 <= m < d.len() && d[m] == sd[k];
            assert(rs[m] == d[m]);
            assert(rs[m].0 != rs[rs.len() - 1].0);
        }
        lemma_insert_desc_strict(sd, x);
        assert(rs =~= d.push(x));
        let r = sort_desc(rs);
        assert forall|k: int| 0 <= k < r.len() implies exists|m: int| 0 <= m < rs.len() && rs[m] == #[trigger] r[k] by {
            if r[k] == x {
                assert(rs[rs.len() - 1] == r[k]);
            } else {
                let m1 = choose|m: int| 0 <= m < sd.len() && sd[m] == r[k];
                let m2 = choose|m: int| 0 <= m < d.len() && d[m] == sd[m1];
                assert(rs[m2] == d[m2]);
            }
        }
    }
}

/// Descending by start, then by end: a total order on byte ranges.
pub open spec fn range_desc(a: (nat, nat), b: (nat, nat)) -> bool {
    a.0 > b.0 || (a.0 == b.0 && a.1 >= b.1)
}

/// The ranges of `rs` that hold at least one byte, in order.
pub open spec fn nonempty_ranges(rs: Seq<(nat, nat)>) -> Seq<(nat, nat)>
    decreases rs.len(),
{
    if rs.len() == 0 {
        seq![]
    } else {
        let f = nonempty_ranges(rs.drop_last());
        if rs.last().0 < rs.last().1 {
            f.push(rs.last())
        } else {
            f
        }
    }
}

/// No two ranges of `rs` that hold a byte overlap.
pub open spec fn disjoint_ranges(rs: Seq<(nat, nat)>) -> bool {
    forall|i: int, j: int|
        #![trigger rs[i], rs[j]]
        0 <= i < j < rs.len() ==> rs[i].0 >= rs[i].1 || rs[j].0 >= rs[j].1 || rs[i].1 <= rs[j].0
            || rs[j].1 <= rs[i].0
}

/// Starts never increase along `rs`.
pub open spec fn nonincreasing(rs: Seq<(nat, nat)>) -> bool {
    forall|i: int, j: int| 0 <= i < j < rs.len() ==> #[trigger] rs[i].0 >= #[trigger] rs[j].0
}

proof fn lemma_remove_nonempty(s: Seq<char>, rs: Seq<(nat, nat)>)
    ensures
        remove_ranges(s, rs) == remove_ranges(s, nonempty_ranges(rs)),
    decreases rs.len(),
{
    if rs.len() > 0 {
        lemma_remove_nonempty(s, rs.drop_last());
        let f = nonempty_ranges(rs.drop_last());
        if rs.last().0 < rs.last().1 {
            assert(f.push(rs.last()).drop_last() =~= f);
        }
    }
}

proof fn lemma_nonempty_members(q: Seq<(nat, nat)>)
    ensures
        nonempty_ranges(q).len() <= q.len(),
        forall|k: int|
            0 <= k < nonempty_ranges(q).len() ==> (#[trigger] nonempty_ranges(q)[k]).0 < nonempty_ranges(q)[k].1
                && exists|m: int| 0 <= m < q.len() && q[m] == nonempty_ranges(q)[k],
    decreases q.len(),
{
    if q.len() > 0 {
        let d = q.drop_last();
        lemma_nonempty_members(d);
        let f = nonempty_ranges(q);
        assert forall|k: int| 0 <= k < f.len() implies (#[trigger] f[k]).0 < f[k].1 && exists|m: int|
            0 <= m < q.len() && q[m] == f[k] by {
            if k < nonempty_ranges(d).len() {
                assert(f[k] == nonempty_ranges(d)[k]);
                let m = choose|m: int| 0 <= m < d.len() && d[m] == nonempty_ranges(d)[k];
                assert(q[m] == d[m]);
            } else {
                assert(q[q.len() - 1] == f[k]);
            }
        }
    }
}

proof fn lemma_nonempty_count(q: Seq<(nat, nat)>, r: (nat, nat))
    ensures
        nonempty_ranges(q).to_multiset().count(r) == if r.0 < r.1 {
            q.to_multiset().count(r)
        } else {
            0
        },
    decreases q.len(),
{
    broadcast use vstd::multiset::group_multiset_axioms;
    broadcast use vstd::seq_lib::group_to_multiset_ensures;

    if q.len() == 0 {
        assert(nonempty_ranges(q) =~= Seq::<(nat, nat)>::empty());
    } else {
        let d = q.drop_last();
        lemma_nonempty_count(d, r);
        assert(q =~= d.push(q.last()));
    }
}

proof fn lemma_nonempty_distinct(rs: Seq<(nat, nat)>)
    requires
        disjoint_ranges(rs),
    ensures
        distinct_starts(nonempty_ranges(rs)),
    decreases rs.len(),
{
    if rs.len() > 0 {
        let d = rs.drop_last();
        let x = rs.last();
        assert(disjoint_ranges(d)) by {
            assert forall|i: int, j: int| #![trigger d[i], d[j]] 0 <= i < j < d.len() implies d[i].0 >= d[i].1
                || d[j].0 >= d[j].1 || d[i].1 <= d[j].0 || d[j].1 <= d[i].0 by {
                assert(d[i] == rs[i] && d[j] == rs[j]);
            }
        }
        lemma_nonempty_distinct(d);
        lemma_nonempty_members(d);
        let fd = nonempty_ranges(d);
        if x.0 < x.1 {
            let f = fd.push(x);
            assert forall|i: int, j: int| 0 <= i < j < f.len() implies #[trigger] f[i].0 != #[trigger] f[j].0 by {
                if j == f.len() - 1 {
                    let m = choose|m: int| 0 <= m < d.len() && d[m] == fd[i];
                    assert(rs[m] == d[m]);
                    assert(rs[rs.len() - 1] == x);
                    assert(f[i] == fd[i]);
                } else {
                    assert(f[i] == fd[i] && f[j] == fd[j]);
                }
            }
        }
    }
}

proof fn lemma_insert_desc_sorted(sorted: Seq<(nat, nat)>, x: (nat, nat))
    requires
        nonincreasing(sorted),
    ensures
        nonincreasing(insert_desc(sorted, x)),
        forall|k: int|
            0 <= k < insert_desc(sorted, x).len() ==> #[trigger] insert_desc(sorted, x)[k] == x
                || exists|m: int| 0 <= m < sorted.len() && sorted[m] == insert_desc(sorted, x)[k],
    decreases sorted.len(),
{
    let r = insert_desc(sorted, x);
    if sorted.len() == 0 {
        assert(r =~= seq![x]);
    } else if sorted.last().0 >= x.0 {
        assert(r == sorted.push(x));
        assert forall|k: int| 0 <= k < r.len() implies #[trigger] r[k] == x
            || exists|m: int| 0 <= m < sorted.len() && sorted[m] == r[k] by {
            if k < sorted.len() {
                assert(sorted[k] == r[k]);
            }
        }
    } else {
        let d = sorted.drop_last();
        let last = sorted.last();
        lemma_insert_desc_sorted(d, x);
        let q = insert_desc(d, x);
        assert(r == q.push(last));
        assert forall|k: int| 0 <= k < q.len() implies #[trigger] q[k].0 >= last.0 by {
            if q[k] != x {
                let m = choose|m: int| 0 <= m < d.len() && d[m] == q[k];
                assert(sorted[m] == d[m]);
            }
        }
        assert forall|i: int, j: int| 0 <= i < j < r.len() implies #[trigger] r[i].0 >= #[trigger] r[j].0 by {
            if j == r.len() - 1 {
                assert(r[i] == q[i]);
            } else {
                assert(r[i] == q[i] && r[j] == q[j]);
            }
        }
        assert forall|k: int| 0 <= k < r.len() implies #[trigger] r[k] == x
            || exists|m: int| 0 <= m < sorted.len() && sorted[m] == r[k] by {
            if k == r.len() - 1 {
                assert(sorted[sorted.len() - 1] == r[k]);
            } else {
                assert(r[k] == q[k]);
                if q[k] != x {
                    let m = choose|m: int| 0 <= m < d.len() && d[m] == q[k];
                    assert(sorted[m] == d[m]);
                }
            }
        }
    }
}

proof fn lemma_sort_desc_sorted(rs: Seq<(nat, nat)>)
    ensures
        nonincreasing(sort_desc(rs)),
    decreases rs.len(),
{
    if rs.len() > 0 {
        lemma_sort_desc_sorted(rs.drop_last());
        lemma_insert_desc_sorted(sort_desc(rs.drop_last()), rs.last());
    }
}

/// Dropping the ranges that hold no byte commutes with inserting into a sorted list.
proof fn lemma_insert_nonempty(sorted: Seq<(nat, nat)>, x: (nat, nat))
    requires
        nonincreasing(sorted),
    ensures
        nonempty_ranges(insert_desc(sorted, x)) == if x.0 < x.1 {
            insert_desc(nonempty_ranges(sorted), x)
        } else {
            nonempty_ranges(sorted)
        },
    decreases sorted.len(),
{
    let r = insert_desc(sorted, x);
    let fs = nonempty_ranges(sorted);
    if sorted.len() == 0 {
        assert(r =~= seq![x]);
        assert(r.drop_last() =~= Seq::<(nat, nat)>::empty());
        assert(fs =~= Seq::<(nat, nat)>::empty());
        assert(nonempty_ranges(r.drop_last()) =~= Seq::<(nat, nat)>::empty());
        assert(r.last() == x);
        if x.0 < x.1 {
            assert(nonempty_ranges(r) == nonempty_ranges(r.drop_last()).push(x));
            assert(insert_desc(fs, x) =~= seq![x]);
            assert(nonempty_ranges(r) =~= seq![x]);
        } else {
            assert(nonempty_ranges(r) == nonempty_ranges(r.drop_last()));
        }
    } else if sorted.last().0 >= x.0 {
        assert(r == sorted.push(x));
        assert(r.drop_last() =~= sorted);
        assert(r.last() == x);
        if x.0 < x.1 {
            assert(nonempty_ranges(r) == fs.push(x));
            if fs.len() > 0 {
                lemma_nonempty_members(sorted);
                let m = choose|m: int| 0 <= m < sorted.len() && sorted[m] == fs[fs.len() - 1];
                if m < sorted.len() - 1 {
                    assert(sorted[m].0 >= sorted[sorted.len() - 1].0);
                }
                assert(fs.last().0 >= x.0);
                assert(insert_desc(fs, x) == fs.push(x));
            } else {
                assert(insert_desc(fs, x) =~= seq![x]);
                assert(fs.push(x) =~= seq![x]);
            }
        } else {
            assert(nonempty_ranges(r) == fs);
        }
    } else {
        let d = sorted.drop_last();
        let last = sorted.last();
        assert(nonincreasing(d)) by {
            assert forall|i: int, j: int| 0 <= i < j < d.len() implies #[trigger] d[i].0 >= #[trigger] d[j].0 by {
                assert(d[i] == sorted[i] && d[j] == sorted[j]);
            }
        }
        lemma_insert_nonempty(d, x);
        let q = insert_desc(d, x);
        assert(r == q.push(last));
        assert(r.drop_last() =~= q);
        assert(r.last() == last);
        let fd = nonempty_ranges(d);
        if last.0 < last.1 {
            assert(nonempty_ranges(r) == nonempty_ranges(q).push(last));
            assert(fs == fd.push(last));
            assert(fd.push(last).drop_last() =~= fd);
            if x.0 < x.1 {
                assert(fs.last() == last);
                assert(insert_desc(fs, x) == insert_desc(fd, x).push(last));
            }
        } else {
            assert(nonempty_ranges(r) == nonempty_ranges(q));
            assert(fs == fd);
        }
    }
}

proof fn lemma_sort_nonempty(rs: Seq<(nat, nat)>)
    ensures
        nonempty_ranges(sort_desc(rs)) == sort_desc(nonempty_ranges(rs)),
    decreases rs.len(),
{
    if rs.len() > 0 {
        let d = rs.drop_last();
        let x = rs.last();
        lemma_sort_nonempty(d);
        lemma_sort_desc_sorted(d);
        lemma_insert_nonempty(sort_desc(d), x);
        let fd = nonempty_ranges(d);
        if x.0 < x.1 {
            assert(fd.push(x).drop_last() =~= fd);
        }
    }
}

/// Stripping does not depend on the order in which the labels are given: two lists of
/// the same byte ranges, in any order, whose ranges that hold a byte never overlap,
/// strip a text alike (both fail, or both give the same text).
pub proof fn law_strip_order_free(text: Seq<char>, ls: Seq<LabelView>, ls2: Seq<LabelView>)
    requires
        label_ranges(ls2).to_multiset() == label_ranges(ls).to_multiset(),
        disjoint_ranges(label_ranges(ls)),
        disjoint_ranges(label_ranges(ls2)),
    ensures
        strip_spec(text, ls2) == strip_spec(text, ls),
{
    let rs = label_ranges(ls);
    let rs2 = label_ranges(ls2);
    lemma_remove_nonempty(text, sort_desc(rs));
    lemma_remove_nonempty(text, sort_desc(rs2));
    lemma_sort_nonempty(rs);
    lemma_sort_nonempty(rs2);
    let f = nonempty_ranges(rs);
    let f2 = nonempty_ranges(rs2);
    lemma_nonempty_distinct(rs);
    lemma_nonempty_distinct(rs2);
    assert forall|r: (nat, nat)| #[trigger] f.to_multiset().count(r) == f2.to_multiset().count(r) by {
        lemma_nonempty_count(rs, r);
        lemma_nonempty_count(rs2, r);
    }
    assert(f.to_multiset() =~= f2.to_multiset());
    let a = sort_desc(f);
    let b = sort_desc(f2);
    lemma_sort_desc_strict(f);
    lemma_sort_desc_strict(f2);
    let leq = |x: (nat, nat), y: (nat, nat)| range_desc(x, y);
    assert(vstd::relations::total_ordering(leq));
    assert(vstd::relations::sorted_by(a, leq));
    assert(vstd::relations::sorted_by(b, leq));
    vstd::seq_lib::lemma_sorted_unique(a, b, leq);
    assert(a == b);
}


// ── Palette colours of registered types ──

proof fn lemma_register_colors(ls: Seq<LabelView>, existing: Seq<LabelTypeView>, k: int)
    requires
        0 <= k <= ls.len(),
    ensures
        ({
            let r = register_fold(ls, existing, k);
            &&& existing.len() <= r.0.len()
            &&& r.1 == r.0.len() % 12
            &&& r.0.take(existing.len() as int) == existing
            &&& forall|j: int|
                existing.len() <= j < r.0.len() ==> (#[trigger] r.0[j]).color == crate::label::LABEL_PALETTE@[j % 12]
        }),
    decreases k,
{
    if k > 0 {
        lemma_register_colors(ls, existing, k - 1);
        let prev = register_fold(ls, existing, k - 1);
        let r = register_fold(ls, existing, k);
        if r.0.len() > prev.0.len() {
            assert(r.0 == prev.0.push(r.0.last()));
            assert forall|j: int| existing.len() <= j < r.0.len() implies (#[trigger] r.0[j]).color
                == crate::label::LABEL_PALETTE@[j % 12] by {
                if j < prev.0.len() {
                    assert(r.0[j] == prev.0[j]);
                }
            }
            assert(r.0.take(existing.len() as int) =~= prev.0.take(existing.len() as int));
        }
    }
}

/// New label types take the palette's colours in turn: the type registered at
/// position `j` of the list (after the existing types) gets palette colour `j mod 12`,
/// so types registered one after another get successive colours.
pub proof fn law_registered_colors(ls: Seq<LabelView>, existing: Seq<LabelTypeView>)
    ensures
        forall|j: int|
            existing.len() <= j < register_fold(ls, existing, ls.len() as int).0.len() ==> (#[trigger] register_fold(
                ls,
                existing,
                ls.len() as int,
            ).0[j]).color == crate::label::LABEL_PALETTE@[j % 12],
{
    lemma_register_colors(ls, existing, ls.len() as int);
}


// ── Numbering under a new parent ──

proof fn lemma_scan_spans(s: Seq<char>, i: int, open: Seq<char>, close: Seq<char>)
    requires
        0 <= i <= s.len(),
    ensures
        forall|a: int|
            0 <= a < scan(s, i, open, close).len() ==> 0 <= (#[trigger] scan(s, i, open, close)[a]).0
                && scan(s, i, open, close)[a].0 + open.len() < scan(s, i, open, close)[a].1 - close.len()
                && scan(s, i, open, close)[a].1 <= s.len(),
    decreases s.len() - i,
{
    if i < s.len() {
        match match_at(s, i, open, close) {
            Some(e) => {
                lemma_match_at(s, i, open, close);
                lemma_scan_spans(s, e, open, close);
                let rest = scan(s, e, open, close);
                let all = seq![(i, e)] + rest;
                assert(scan(s, i, open, close) == all);
                assert forall|a: int| 0 <= a < all.len() implies 0 <= (#[trigger] all[a]).0 && all[a].0
                    + open.len() < all[a].1 - close.len() && all[a].1 <= s.len() by {
                    if a > 0 {
                        assert(all[a] == rest[a - 1]);
                    }
                }
            },
            None => {
                lemma_scan_spans(s, i + 1, open, close);
                assert(scan(s, i, open, close) == scan(s, i + 1, open, close));
            },
        }
    }
}

/// `n` dots.
pub open spec fn dots(n: nat) -> Seq<char> {
    Seq::new(n, |i: int| '.')
}

proof fn lemma_skip_dots(s: Seq<char>, i: int, hi: int)
    requires
        0 <= i <= hi <= s.len(),
        forall|k: int| i <= k < hi ==> #[trigger] s[k] == '.',
    ensures
        crate::label::skip_char(s, i, hi, '.') == hi,
    decreases hi - i,
{
    if i < hi {
        lemma_skip_dots(s, i + 1, hi);
    }
}

/// The numbering state after a label of depth `d` holds `d` counters and `d`
/// identifiers, the last of them the label's category, which is never empty.
pub open spec fn state_after(st: crate::label::CatState, l: LabelView) -> bool {
    &&& l.depth >= 1
    &&& st.counters.len() == l.depth
    &&& st.ids.len() == l.depth
    &&& st.ids[l.depth - 1] == l.category
    &&& l.category.len() > 0
}

proof fn lemma_fold_numbering(s: Seq<char>, ms: Seq<(int, int)>, ol: int, cl: int, k: int, n: nat)
    requires
        0 <= k <= ms.len(),
        ol >= 0,
        cl >= 0,
        forall|a: int| 0 <= a < ms.len() ==> 0 <= (#[trigger] ms[a]).0 && ms[a].0 + ol < ms[a].1 - cl && ms[a].1 <= s.len(),
    ensures
        ({
            let f = labels_fold(s, ms, ol, cl, k);
            &&& f.0.len() > 0 ==> state_after(f.1, f.0.last())
            &&& forall|j: int|
                0 < j < f.0.len() && n >= 1 && (#[trigger] f.0[j]).raw == dots(n) && f.0[j - 1].depth == n
                    ==> f.0[j].category == f.0[j - 1].category + seq!['.', '1']
        }),
    decreases k,
{
    if k > 0 {
        lemma_fold_numbering(s, ms, ol, cl, k - 1, n);
        let prev = labels_fold(s, ms, ol, cl, k - 1);
        let (p, e) = ms[k - 1];
        let lo = p + ol;
        let hi = e - cl;
        assert(crate::validation_laws::agree(s, s, hi));
        crate::validation_laws::lemma_inner_parts_local(s, s, lo, hi);
        if let Some(parts) = inner_parts(s, lo, hi) {
            let st = prev.1;
            let step = crate::label::make_label(s, p, e, ol, cl, parts, st);
            let l = step.0;
            let f = labels_fold(s, ms, ol, cl, k);
            assert(f.0 == prev.0.push(l));
            assert(f.1 == step.1);
            let raw_cat = crate::text::trim(s.subrange(parts.dots_end, parts.cat_end));
            let depth = crate::label::label_depth(s, lo, parts);
            assert(depth >= 1);
            let cstep = crate::label::category_step(st, (parts.dots_end - lo) as nat, raw_cat, depth);
            assert(l.depth == depth && l.category == cstep.0 && step.1 == cstep.1);
            // the state after the new label
            let cs = crate::label::fit_counters(st.counters, depth);
            let ids = crate::label::fit_ids(st.ids, depth);
            assert(cs.len() == depth);
            assert(ids.len() == depth);
            let last_n = if raw_cat.len() > 0 { 0 } else { cs[depth - 1] + 1 };
            if raw_cat.len() == 0 {
                let dn = crate::text::decimal(last_n);
                if last_n >= 10 {
                    assert(dn == crate::text::decimal(last_n / 10).push(crate::text::digit_char(last_n % 10)));
                }
                assert(dn.len() > 0);
            }
            assert(state_after(f.1, f.0.last()));
            // the new label, written as dots under a label one level up
            let j = prev.0.len() as int;
            if j > 0 && n >= 1 && l.raw == dots(n) && prev.0.last().depth == n {
                assert(l.raw == s.subrange(lo, hi));
                assert(dots(n).len() == n);
                assert(s.subrange(lo, hi).len() == hi - lo);
                assert(hi - lo == n);
                assert forall|q: int| lo <= q < hi implies #[trigger] s[q] == '.' by {
                    assert(s.subrange(lo, hi)[q - lo] == s[q]);
                }
                lemma_skip_dots(s, lo, hi);
                assert(parts.dots_end == hi && parts.cat_end == hi);
                assert(s.subrange(hi, hi) =~= Seq::<char>::empty());
                assert(crate::text::skip_ws(Seq::<char>::empty(), 0, 0) == 0);
                assert(raw_cat =~= Seq::<char>::empty());
                assert(crate::label::count_char(raw_cat, '.') == 0);
                assert(depth == n + 1);
                assert(state_after(st, prev.0.last()));
                assert(cs =~= st.counters + Seq::new(1, |i: int| 0nat));
                assert(cs[depth - 1] == 0);
                assert(ids =~= st.ids + Seq::new(1, |i: int| Seq::<char>::empty()));
                assert(ids[depth - 2] == st.ids[n - 1]);
                assert(crate::text::decimal(1) == seq!['1']);
                assert(l.category =~= prev.0.last().category + seq!['.', '1']);
            }
            assert forall|jj: int|
                0 < jj < f.0.len() && n >= 1 && (#[trigger] f.0[jj]).raw == dots(n) && f.0[jj - 1].depth == n
                implies f.0[jj].category == f.0[jj - 1].category + seq!['.', '1'] by {
                if jj < j {
                    assert(f.0[jj] == prev.0[jj] && f.0[jj - 1] == prev.0[jj - 1]);
                } else {
                    assert(f.0[jj] == l && f.0[jj - 1] == prev.0.last());
                }
            }
        }
    }
}

/// Auto-numbering restarts under every new parent: a label written as dots only
/// (`[.]`, `[..]`, ...) right after a label one level up is that label's first child,
/// numbered `1` under it.
pub proof fn law_first_child_numbered_one(s: Seq<char>, open: Seq<char>, close: Seq<char>, j: int, n: nat)
    requires
        0 < j < parse_labels(s, open, close).len(),
        n >= 1,
        parse_labels(s, open, close)[j].raw == dots(n),
        parse_labels(s, open, close)[j - 1].depth == n,
    ensures
        parse_labels(s, open, close)[j].category == parse_labels(s, open, close)[j - 1].category + seq!['.', '1'],
{
    let ms = scan(s, 0, open, close);
    lemma_scan_spans(s, 0, open, close);
    lemma_fold_numbering(s, ms, open.len() as int, close.len() as int, ms.len() as int, n);
}

} // verus!
