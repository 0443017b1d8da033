//! Themes, languages and the `.zq` file frame around the metadata block.

use vstd::prelude::*;
use crate::text::{chars_of, is_ws, push_str, skip_ws, skip_ws_back, string_of, trim, trim_bounds};
use crate::template::contains_seq;
use crate::label::{find_char, find_char_exec, occurs_at, occurs_at_exec};

verus! {

/// Light or dark base appearance.
#[derive(Clone, Copy, Debug, PartialEq, Eq, Structural)]
pub enum BaseTheme {
    Light,
    Dark,
}

/// Interface language.
#[derive(Clone, Copy, Debug, PartialEq, Eq, Structural)]
pub enum Language {
    Zh,
    En,
}

impl Default for Language {
    fn default() -> (r: Self)
        ensures
            r == Language::Zh,
    {
        Language::Zh
    }
}

/// Editor theme colors.
#[derive(Clone, Debug)]
pub struct ZqTheme {
    pub name: String,
    pub base: BaseTheme,
    pub bg_main: [u8; 3],
    pub bg_side: [u8; 3],
    pub text_main: [u8; 3],
    pub text_side: [u8; 3],
    pub accent_ui: [u8; 3],
    pub accent_hl: [u8; 3],
    pub level_colors: Vec<[u8; 3]>,
}

/// The six default label level colors.
pub open spec fn default_level_colors_spec() -> Seq<[u8; 3]> {
    seq![
        [230u8, 80u8, 80u8],
        [80u8, 200u8, 80u8],
        [80u8, 80u8, 230u8],
        [230u8, 180u8, 50u8],
        [180u8, 80u8, 200u8],
        [80u8, 200u8, 200u8],
    ]
}

/// The six default label level colors.
pub fn default_level_colors() -> (r: Vec<[u8; 3]>)
    ensures
        r@ == default_level_colors_spec(),
{
    let mut v: Vec<[u8; 3]> = Vec::new();
    v.push([230, 80, 80]);
    v.push([80, 200, 80]);
    v.push([80, 80, 230]);
    v.push([230, 180, 50]);
    v.push([180, 80, 200]);
    v.push([80, 200, 200]);
    assert(v@ =~= default_level_colors_spec());
    v
}

impl ZqTheme {
    /// The default light theme (bamboo green accents).
    pub fn new_light() -> (r: Self)
        ensures
            r.name@ == "竹签默认 (浅)"@,
            r.base == BaseTheme::Light,
            r.bg_main == [248u8, 246u8, 235u8],
            r.bg_side == [238u8, 236u8, 225u8],
            r.text_main == [30u8, 30u8, 30u8],
            r.text_side == [45u8, 45u8, 45u8],
            r.accent_ui == [142u8, 172u8, 80u8],
            r.accent_hl == [180u8, 160u8, 0u8],
            r.level_colors@ == default_level_colors_spec(),
    {
        ZqTheme {
            name: String::from_str("竹签默认 (浅)"),
            base: BaseTheme::Light,
            bg_main: [248, 246, 235],
            bg_side: [238, 236, 225],
            text_main: [30, 30, 30],
            text_side: [45, 45, 45],
            accent_ui: [142, 172, 80],
            accent_hl: [180, 160, 0],
            level_colors: default_level_colors(),
        }
    }

    /// The default dark theme: darker first three level colors.
    pub fn new_dark() -> (r: Self)
        ensures
            r.name@ == "竹签默认 (深)"@,
            r.base == BaseTheme::Dark,
            r.bg_main == [30u8, 30u8, 30u8],
            r.bg_side == [45u8, 45u8, 45u8],
            r.text_main == [220u8, 220u8, 220u8],
            r.text_side == [180u8, 180u8, 180u8],
            r.accent_ui == [160u8, 200u8, 60u8],
            r.accent_hl == [255u8, 230u8, 0u8],
            r.level_colors@ == default_level_colors_spec().update(0, [180u8, 60u8, 60u8]).update(
                1,
                [60u8, 150u8, 60u8],
            ).update(2, [60u8, 60u8, 180u8]),
    {
        let mut dark_colors = default_level_colors();
        dark_colors.set(0, [180, 60, 60]);
        dark_colors.set(1, [60, 150, 60]);
        dark_colors.set(2, [60, 60, 180]);
        ZqTheme {
            name: String::from_str("竹签默认 (深)"),
            base: BaseTheme::Dark,
            bg_main: [30, 30, 30],
            bg_side: [45, 45, 45],
            text_main: [220, 220, 220],
            text_side: [180, 180, 180],
            accent_ui: [160, 200, 60],
            accent_hl: [255, 230, 0],
            level_colors: dark_colors,
        }
    }
}

impl Default for ZqTheme {
    /// The light theme.
    fn default() -> (r: Self)
        ensures
            r.name@ == "竹签默认 (浅)"@,
            r.base == BaseTheme::Light,
            r.accent_hl == [180u8, 160u8, 0u8],
            r.level_colors@ == default_level_colors_spec(),
    {
        Self::new_light()
    }
}

// ── The `.zq` file frame ──

/// Start of the metadata block.
pub const ZQ_META_PREFIX: &'static str = "---zq-meta---\n";

/// End of the metadata block.
pub const ZQ_META_SUFFIX: &'static str = "\n---end-meta---\n";

/// First position of `t` in `s`, or `s.len()` if none.
pub open spec fn find_seq(s: Seq<char>, t: Seq<char>, i: int) -> int
    decreases s.len() - i,
{
    if i >= s.len() || i < 0 {
        s.len() as int
    } else if occurs_at(s, i, t) {
        i
    } else {
        find_seq(s, t, i + 1)
    }
}

/// `s` without leading `'\r'` and `'\n'` characters.
pub open spec fn skip_crlf(s: Seq<char>, i: int) -> int
    decreases s.len() - i,
{
    if i >= s.len() || i < 0 {
        s.len() as int
    } else if s[i] == '\r' || s[i] == '\n' {
        skip_crlf(s, i + 1)
    } else {
        i
    }
}

/// Where a `.zq` file's frame would cut backwards: the text starts with the prefix,
/// holds the suffix, and its first newline comes at or after the suffix.
pub open spec fn zq_frame_reversed(s: Seq<char>) -> bool {
    let si = find_seq(s, "---end-meta---"@, 0);
    let nl = find_char(s, 0, s.len() as int, '\n');
    occurs_at(s, 0, "---zq-meta---"@) && si < s.len() && nl < s.len() && nl >= si
}

/// The metadata text (trimmed) and the body (leading line breaks removed) of a framed
/// `.zq` file; `None` when `s` does not start with the prefix or lacks the suffix.
/// The metadata runs from after the first line break (or the second character, when
/// there is none) to the suffix.
pub open spec fn zq_frame(s: Seq<char>) -> Option<(Seq<char>, Seq<char>)> {
    let si = find_seq(s, "---end-meta---"@, 0);
    if occurs_at(s, 0, "---zq-meta---"@) && si < s.len() {
        let nl = find_char(s, 0, s.len() as int, '\n');
        let meta_start = if nl < s.len() { nl + 1 } else { 1 };
        let body_start = si + 14;
        Some((trim(s.subrange(meta_start, si)), s.subrange(skip_crlf(s, body_start), s.len() as int)))
    } else {
        None
    }
}

/// Splits a `.zq` file into its metadata text and its body.
pub fn split_zq_file(raw: &str) -> (r: Option<(String, String)>)
    requires
        !zq_frame_reversed(raw@),
    ensures
        match r {
            Some((meta, body)) => zq_frame(raw@) == Some((meta@, body@)),
            None => zq_frame(raw@) is None,
        },
{
    let s = chars_of(raw);
    let prefix = chars_of("---zq-meta---");
    let suffix = chars_of("---end-meta---");
    proof {
        reveal_strlit("---end-meta---");
        reveal_strlit("---zq-meta---");
    }
    if !occurs_at_exec(&s, 0, &prefix) {
        return None;
    }
    let n = s.len();
    let mut si: usize = 0;
    while si < n && !occurs_at_exec(&s, si, &suffix)
        invariant
            si <= n,
            n == s@.len(),
            find_seq(s@, suffix@, 0) == find_seq(s@, suffix@, si as int),
        decreases n - si,
    {
        si += 1;
    }
    if si >= n {
        return None;
    }
    let nl = find_char_exec(&s, 0, n, '\n');
    let meta_start = if nl < n { nl + 1 } else { 1 };
    assert(occurs_at(s@, si as int, suffix@));
    proof {
        crate::label::lemma_find_char(s@, 0, n as int, '\n');
        if si == 0 {
            assert(s@.subrange(0, 14)[3] == suffix@[3]);
            assert(s@.subrange(0, 13)[3] == prefix@[3]);
        }
    }
    let (a, b) = trim_bounds(&s, meta_start, si);
    let meta = string_of(&s, a, b);
    let mut k = si + 14;
    while k < n && (s[k] == '\r' || s[k] == '\n')
        invariant
            si + 14 <= k <= n,
            n == s@.len(),
            skip_crlf(s@, si + 14) == skip_crlf(s@, k as int),
        decreases n - k,
    {
        k += 1;
    }
    let body = string_of(&s, k, n);
    Some((meta, body))
}

/// A `.zq` file: the metadata block around `meta`, then `text`.
pub fn frame_zq_file(meta: &str, text: &str) -> (r: String)
    ensures
        r@ == ZQ_META_PREFIX@ + meta@ + ZQ_META_SUFFIX@ + text@,
{
    let mut out = String::new();
    push_str(&mut out, ZQ_META_PREFIX);
    push_str(&mut out, meta);
    push_str(&mut out, ZQ_META_SUFFIX);
    push_str(&mut out, text);
    out
}

// ── The frame, read back ──

proof fn lemma_find_seq_at(s: Seq<char>, t: Seq<char>, i: int, k: int)
    requires
        0 <= i <= k < s.len(),
        forall|j: int| i <= j < k ==> !occurs_at(s, j, t),
        occurs_at(s, k, t),
    ensures
        find_seq(s, t, i) == k,
    decreases k - i,
{
    if i < k {
        lemma_find_seq_at(s, t, i + 1, k);
    }
}

proof fn lemma_skip_ws_push(m: Seq<char>, i: int)
    requires
        0 <= i <= m.len(),
    ensures
        skip_ws(m, i, m.len() as int) < m.len() ==> skip_ws(m.push('\n'), i, m.len() as int + 1) == skip_ws(
            m,
            i,
            m.len() as int,
        ),
        skip_ws(m, i, m.len() as int) == m.len() ==> skip_ws(m.push('\n'), i, m.len() as int + 1) == m.len() + 1,
    decreases m.len() - i,
{
    let u = m.push('\n');
    if i < m.len() {
        assert(u[i] == m[i]);
        lemma_skip_ws_push(m, i + 1);
    } else {
        assert(u[i] == '\n');
        assert(is_ws('\n'));
        assert(skip_ws(u, i + 1, m.len() as int + 1) == m.len() + 1);
    }
}

proof fn lemma_skip_ws_back_prefix(m: Seq<char>, u: Seq<char>, lo: int, j: int)
    requires
        0 <= lo <= j <= m.len() <= u.len(),
        forall|k: int| 0 <= k < m.len() ==> u[k] == m[k],
    ensures
        skip_ws_back(u, lo, j) == skip_ws_back(m, lo, j),
    decreases j - lo,
{
    if j > lo {
        lemma_skip_ws_back_prefix(m, u, lo, j - 1);
    }
}

/// A trailing line break does not change what trimming leaves.
proof fn lemma_trim_push_newline(m: Seq<char>)
    ensures
        trim(m.push('\n')) == trim(m),
{
    let u = m.push('\n');
    let n = m.len() as int;
    lemma_skip_ws_push(m, 0);
    crate::text::lemma_skip_ws_bounds(m, 0, n);
    let lo = skip_ws(m, 0, n);
    if lo == n {
        crate::text::lemma_skip_ws_back_bounds(u, n + 1, n + 1);
        crate::text::lemma_skip_ws_back_bounds(m, n, n);
        assert(trim(u) =~= trim(m));
    } else {
        assert(u[n] == '\n');
        assert(is_ws('\n'));
        assert(skip_ws_back(u, lo, n + 1) == skip_ws_back(u, lo, n));
        lemma_skip_ws_back_prefix(m, u, lo, n);
        crate::text::lemma_skip_ws_back_bounds(m, lo, n);
        assert(u.subrange(lo, skip_ws_back(m, lo, n)) =~= m.subrange(lo, skip_ws_back(m, lo, n)));
    }
}

proof fn lemma_skip_crlf_suffix(f: Seq<char>, t: Seq<char>, base: int, i: int)
    requires
        0 <= base,
        0 <= i <= t.len(),
        f.len() == base + t.len(),
        forall|k: int| 0 <= k < t.len() ==> f[base + k] == t[k],
    ensures
        skip_crlf(f, base + i) == base + skip_crlf(t, i),
    decreases t.len() - i,
{
    if i < t.len() {
        lemma_skip_crlf_suffix(f, t, base, i + 1);
    }
}

/// Reading back a framed file: a `.zq` file made by `frame_zq_file` from metadata and a
/// text splits again (never cutting backwards) into the metadata, trimmed, and the text
/// without its leading line breaks, whenever the metadata does not itself hold the end
/// marker `---end-meta---`.
pub proof fn law_zq_frame_round_trip(meta: Seq<char>, text: Seq<char>)
    requires
        !contains_seq(meta, "---end-meta---"@),
    ensures
        !zq_frame_reversed(ZQ_META_PREFIX@ + meta + ZQ_META_SUFFIX@ + text),
        zq_frame(ZQ_META_PREFIX@ + meta + ZQ_META_SUFFIX@ + text) == Some(
            (trim(meta), text.subrange(skip_crlf(text, 0), text.len() as int)),
        ),
{
    reveal_strlit("---zq-meta---\n");
    reveal_strlit("\n---end-meta---\n");
    reveal_strlit("---end-meta---");
    reveal_strlit("---zq-meta---");
    let pre = ZQ_META_PREFIX@;
    let suf = ZQ_META_SUFFIX@;
    let pat = "---end-meta---"@;
    let f = pre + meta + suf + text;
    let m = meta.len() as int;
    assert(pre.len() == 14);
    assert(suf.len() == 16);
    assert(pat.len() == 14);
    let si = 15 + m;
    // The end marker first occurs right after the line break that ends the metadata.
    assert(f.subrange(si, si + 14) =~= pat);
    assert forall|j: int| 0 <= j < si implies !occurs_at(f, j, pat) by {
        if occurs_at(f, j, pat) {
            if j <= 13 {
                assert(f[13] == '\n');
                assert(f.subrange(j, j + 14)[13 - j] == f[13]);
                assert(pat[13 - j] != '\n');
            } else if j + 14 <= 14 + m {
                assert(f.subrange(j, j + 14) =~= meta.subrange(j - 14, j));
                assert(occurs_at(meta, j - 14, pat));
            } else {
                assert(f[14 + m] == '\n');
                assert(f.subrange(j, j + 14)[14 + m - j] == f[14 + m]);
                assert(pat[14 + m - j] != '\n');
            }
        }
    }
    lemma_find_seq_at(f, pat, 0, si);
    // The first line break ends the prefix.
    assert(f[13] == '\n');
    assert forall|k: int| 0 <= k < 13 implies f[k] != '\n' by {
        assert(f[k] == pre[k]);
    }
    lemma_find_char_at(f, 0, f.len() as int, '\n', 13);
    assert(f.subrange(0, 13) =~= "---zq-meta---"@);
    // The metadata, with the line break that ends it, trims to the metadata trimmed.
    assert(f.subrange(14, si) =~= meta.push('\n'));
    lemma_trim_push_newline(meta);
    // The body starts after the line break that ends the suffix.
    let base = 30 + m;
    assert(f[29 + m] == '\n');
    assert forall|k: int| 0 <= k < text.len() implies f[base + k] == text[k] by {}
    lemma_skip_crlf_suffix(f, text, base, 0);
    assert(f.subrange(base + skip_crlf(text, 0), f.len() as int) =~= text.subrange(
        skip_crlf(text, 0),
        text.len() as int,
    )) by {
        crate::text::lemma_skip_ws_bounds(text, 0, 0);
        lemma_skip_crlf_bounds(text, 0);
    }
}

proof fn lemma_find_char_at(s: Seq<char>, i: int, hi: int, c: char, k: int)
    requires
        0 <= i <= k < hi <= s.len(),
        forall|j: int| i <= j < k ==> s[j] != c,
        s[k] == c,
    ensures
        find_char(s, i, hi, c) == k,
    decreases k - i,
{
    if i < k {
        lemma_find_char_at(s, i + 1, hi, c, k);
    }
}

proof fn lemma_skip_crlf_bounds(s: Seq<char>, i: int)
    requires
        0 <= i <= s.len(),
    ensures
        i <= skip_crlf(s, i) <= s.len(),
    decreases s.len() - i,
{
    if i < s.len() {
        lemma_skip_crlf_bounds(s, i + 1);
    }
}

// ── Widget colours of the classic theme ──

/// Default button colour.
pub fn default_button_color() -> (r: [u8; 3])
    ensures
        r == [174u8, 201u8, 87u8],
{
    [174, 201, 87]
}

/// Default colour of close buttons.
pub fn default_close_btn_color() -> (r: [u8; 3])
    ensures
        r == [200u8, 100u8, 100u8],
{
    [200, 100, 100]
}

/// Default checkbox colour.
pub fn default_checkbox_color() -> (r: [u8; 3])
    ensures
        r == [174u8, 201u8, 87u8],
{
    [174, 201, 87]
}

/// Default text box colour.
pub fn default_textbox_color() -> (r: [u8; 3])
    ensures
        r == [212u8, 205u8, 155u8],
{
    [212, 205, 155]
}

} // verus!
