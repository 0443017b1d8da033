//! Highlight spans for editors that count text in UTF-16 code units: the span offsets
//! moved from bytes to code units, and the level colours an editor supplies.

use vstd::prelude::*;
use crate::label::{char_at_byte, char_at_byte_from};
use crate::label_laws::lemma_char_at_byte_exact;
use crate::spans::{
    byte_styles, markdown_events, parse_markdown_to_spans, runs_from, span_view, spans_view, SpanView,
    StyledSpan,
};
use crate::label::parse_labels;
use crate::text::{byte_len, char_len_utf8, char_width, chars_of, utf8_len, lemma_utf8_len_step};
use crate::theme::{default_level_colors, default_level_colors_spec};

verus! {

/// Number of UTF-16 code units of `c`.
pub open spec fn utf16_width(c: char) -> nat {
    if (c as u32) < 0x10000 { 1 } else { 2 }
}

/// Number of UTF-16 code units of `s`.
pub open spec fn utf16_len(s: Seq<char>) -> nat
    decreases s.len(),
{
    if s.len() == 0 {
        0
    } else {
        utf16_len(s.drop_last()) + utf16_width(s.last())
    }
}

/// The code unit offset of byte `b` of `s`: the code units before it where `b` is a
/// character boundary, else 0.
pub open spec fn utf16_at_byte(s: Seq<char>, b: int) -> nat {
    let k = char_at_byte(s, b);
    if k >= 0 { utf16_len(s.take(k)) } else { 0 }
}

/// A span with its offsets (each cut at the text's length) moved to code units.
pub open spec fn view_in_utf16(s: Seq<char>, v: SpanView) -> SpanView {
    let len = utf8_len(s);
    SpanView {
        start: utf16_at_byte(s, if v.start < len { v.start as int } else { len as int }),
        end: utf16_at_byte(s, if v.end < len { v.end as int } else { len as int }),
        style: v.style,
    }
}

proof fn lemma_utf16_le_utf8(s: Seq<char>)
    ensures
        utf16_len(s) <= utf8_len(s),
    decreases s.len(),
{
    if s.len() > 0 {
        lemma_utf16_le_utf8(s.drop_last());
    }
}

/// No prefix of `s` ends strictly inside its `k`-th character.
proof fn lemma_inside_char(s: Seq<char>, k: int, b: int)
    requires
        0 <= k < s.len(),
        utf8_len(s.take(k)) < b < utf8_len(s.take(k + 1)),
    ensures
        char_at_byte(s, b) == -1,
{
    lemma_inside_char_from(s, k, b, 0);
}

proof fn lemma_inside_char_from(s: Seq<char>, k: int, b: int, m: int)
    requires
        0 <= k < s.len(),
        0 <= m <= s.len(),
        utf8_len(s.take(k)) < b < utf8_len(s.take(k + 1)),
    ensures
        char_at_byte_from(s, b, m) == -1,
    decreases s.len() - m,
{
    if m <= k {
        crate::text::lemma_utf8_len_mono(s, m, k);
        lemma_inside_char_from(s, k, b, m + 1);
    } else {
        crate::text::lemma_utf8_len_mono(s, k + 1, m);
    }
}

/// The code unit offset of every byte offset `0..=len` of `v`.
fn utf16_table(v: &Vec<char>, total: usize) -> (t: Vec<usize>)
    requires
        total == utf8_len(v@),
    ensures
        t@.len() == total + 1,
        forall|b: int| 0 <= b <= total ==> #[trigger] t@[b] == utf16_at_byte(v@, b),
{
    let mut t: Vec<usize> = Vec::new();
    let mut z: usize = 0;
    while z < total
        invariant
            z <= total,
            total == utf8_len(v@),
            t@.len() == z,
            forall|b: int| 0 <= b < z ==> #[trigger] t@[b] == 0,
        decreases total - z,
    {
        t.push(0);
        z += 1;
    }
    t.push(0);
    let mut k: usize = 0;
    let mut bi: usize = 0;
    let mut cur: usize = 0;
    proof {
        assert(v@.take(0) =~= Seq::<char>::empty());
    }
    while k < v.len()
        invariant
            k <= v@.len(),
            total == utf8_len(v@),
            t@.len() == total + 1,
            bi == utf8_len(v@.take(k as int)),
            cur == utf16_len(v@.take(k as int)),
            forall|b: int| 0 <= b < bi ==> #[trigger] t@[b] == utf16_at_byte(v@, b),
            forall|b: int| bi <= b <= total ==> #[trigger] t@[b] == 0,
        decreases v@.len() - k,
    {
        let c = v[k];
        proof {
            lemma_utf8_len_step(v@, k as int);
            crate::blocks::lemma_utf8_len_range(v@, k + 1, v@.len() as int);
            assert(v@.take(v@.len() as int) =~= v@);
            assert(v@.take(k + 1).drop_last() =~= v@.take(k as int));
            lemma_utf16_le_utf8(v@.take(k + 1));
            lemma_char_at_byte_exact(v@, k as int);
        }
        t.set(bi, cur);
        let w = char_len_utf8(c);
        let u: usize = if (c as u32) < 0x10000 { 1 } else { 2 };
        proof {
            assert forall|b: int| 0 <= b < bi + w implies #[trigger] t@[b] == utf16_at_byte(v@, b) by {
                if b > bi {
                    lemma_inside_char(v@, k as int, b);
                }
            }
        }
        bi = bi + w;
        cur = cur + u;
        k += 1;
    }
    proof {
        assert(v@.take(v@.len() as int) =~= v@);
        lemma_char_at_byte_exact(v@, v@.len() as int);
        lemma_utf16_le_utf8(v@);
    }
    t.set(bi, cur);
    t
}

/// Moves the offsets of `spans` from bytes of `text` to UTF-16 code units (each cut
/// at the text's length first).
pub fn spans_in_utf16(text: &str, spans: &mut Vec<StyledSpan>)
    ensures
        spans_view(final(spans)@) == spans_view(old(spans)@).map_values(|v: SpanView| view_in_utf16(text@, v)),
{
    let v = chars_of(text);
    let len = byte_len(text);
    let table = utf16_table(&v, len);
    let mut i: usize = 0;
    while i < spans.len()
        invariant
            i <= spans@.len(),
            spans@.len() == old(spans)@.len(),
            len == utf8_len(text@),
            v@ == text@,
            table@.len() == len + 1,
            forall|b: int| 0 <= b <= len ==> #[trigger] table@[b] == utf16_at_byte(v@, b),
            forall|j: int| i <= j < spans@.len() ==> #[trigger] spans@[j] == old(spans)@[j],
            forall|j: int| 0 <= j < i ==> #[trigger] span_view(spans@[j]) == view_in_utf16(text@, span_view(old(spans)@[j])),
        decreases spans@.len() - i,
    {
        let sp = spans[i];
        let s = if sp.start < len { sp.start } else { len };
        let e = if sp.end < len { sp.end } else { len };
        let mut sp2 = sp;
        sp2.start = table[s];
        sp2.end = table[e];
        spans.set(i, sp2);
        i += 1;
    }
    assert(spans_view(spans@) =~= spans_view(old(spans)@).map_values(|v: SpanView| view_in_utf16(text@, v)));
}

/// The level colours in force when an editor supplies `given`: its first six colours
/// in place of the defaults, the rest of the defaults kept.
pub open spec fn merged_level_colors(given: Seq<[u8; 3]>) -> Seq<[u8; 3]> {
    Seq::new(6, |i: int| if i < given.len() { given[i] } else { default_level_colors_spec()[i] })
}

/// The level colours in force (see [`merged_level_colors`]).
pub fn merge_level_colors(given: &[[u8; 3]]) -> (r: Vec<[u8; 3]>)
    ensures
        r@ == merged_level_colors(given@),
{
    let mut colors = default_level_colors();
    let mut i: usize = 0;
    while i < given.len() && i < 6
        invariant
            i <= 6,
            i <= given@.len(),
            colors@.len() == 6,
            forall|j: int| 0 <= j < 6 ==> #[trigger] colors@[j] == if j < i { given@[j] } else { default_level_colors_spec()[j] },
        decreases 6 - i,
    {
        colors.set(i, given[i]);
        i += 1;
    }
    assert(colors@ =~= merged_level_colors(given@));
    colors
}

/// Highlight spans of `text` for an editor that counts UTF-16 code units: the level
/// colours it gives merged into the defaults, the spans of
/// [`parse_markdown_to_spans`], their offsets in code units.
pub fn parse_to_spans_utf16(
    text: &str,
    accent: [u8; 3],
    text_color: [u8; 3],
    given_levels: &[[u8; 3]],
    hide_labels: bool,
) -> (r: Vec<StyledSpan>)
    ensures
        spans_view(r@) == runs_from(
            byte_styles(
                utf8_len(text@),
                parse_labels(text@, seq!['['], seq![']']),
                markdown_events(text@),
                merged_level_colors(given_levels@),
                accent,
                hide_labels,
            ),
            0,
        ).map_values(|v: SpanView| view_in_utf16(text@, v)),
{
    let levels = merge_level_colors(given_levels);
    let mut spans = parse_markdown_to_spans(text, levels.as_slice(), accent, text_color, hide_labels);
    spans_in_utf16(text, &mut spans);
    spans
}

} // verus!
