//! The classic highlighter: custom highlight rules (regular expressions) and
//! Markdown styling, as per-byte style roles that a renderer turns into colours and
//! sizes.

use vstd::prelude::*;
use crate::spans::{
    classify_tag, events_view, markdown_event_list, markdown_events, tag_class, MdEvent,
    MdEventView, MdKind, MdKindView, TagClass,
};
use crate::theme::Language;
use crate::text::{byte_len, char_len_utf8, chars_of, is_whitespace, is_ws, next_newline, skip_ws, utf8_len};

verus! {

// ── Highlight rules ──

/// Whether `pattern` is a regular expression the `regex` crate accepts.
pub uninterp spec fn regex_valid(pattern: Seq<char>) -> bool;

/// The byte ranges of the successive non-overlapping matches of `pattern` in `text`
/// as the `regex` crate finds them.
pub uninterp spec fn regex_matches(pattern: Seq<char>, text: Seq<char>) -> Seq<(nat, nat)>;

pub open spec fn ranges_view(v: Seq<(usize, usize)>) -> Seq<(nat, nat)> {
    v.map_values(|r: (usize, usize)| (r.0 as nat, r.1 as nat))
}

/// `regex::Regex::new(pattern).is_ok()`: whether the pattern compiles, named by
/// `regex_valid`.
#[verifier::external_body]
fn regex_compiles(pattern: &str) -> (r: bool)
    ensures
        r == regex_valid(pattern@),
{
    regex::Regex::new(pattern).is_ok()
}

/// `regex::Regex::find_iter` on `text` with the regex compiled from `pattern`: the
/// byte range of each match, named by `regex_matches`; `None` exactly where the pattern
/// does not compile.
#[verifier::external_body]
fn regex_find_all(pattern: &str, text: &str) -> (r: Option<Vec<(usize, usize)>>)
    ensures
        r is Some <==> regex_valid(pattern@),
        r matches Some(v) ==> ranges_view(v@) == regex_matches(pattern@, text@),
{
    match regex::Regex::new(pattern) {
        Ok(re) => {
            let mut v = Vec::new();
            for m in re.find_iter(text) {
                v.push((m.start(), m.end()));
            }
            Some(v)
        },
        Err(_) => None,
    }
}

/// A custom highlight rule: text matching `pattern` gets `color`, as foreground or,
/// with `is_background`, as background. `compiled` tells whether the rule was compiled
/// (with a pattern that compiles); rules that are not are skipped.
#[derive(Clone, Debug)]
pub struct HighlightRule {
    pub name: String,
    pub pattern: String,
    pub color: [u8; 3],
    pub bold: bool,
    pub is_background: bool,
    pub compiled: bool,
}

pub struct RuleView {
    pub name: Seq<char>,
    pub pattern: Seq<char>,
    pub color: [u8; 3],
    pub bold: bool,
    pub is_background: bool,
    pub compiled: bool,
}

impl View for HighlightRule {
    type V = RuleView;

    open spec fn view(&self) -> RuleView {
        RuleView {
            name: self.name@,
            pattern: self.pattern@,
            color: self.color,
            bold: self.bold,
            is_background: self.is_background,
            compiled: self.compiled,
        }
    }
}

pub open spec fn rules_view(v: Seq<HighlightRule>) -> Seq<RuleView> {
    v.map_values(|r: HighlightRule| r@)
}

impl HighlightRule {
    /// A rule, compiled: usable exactly when its pattern compiles.
    pub fn new(name: &str, pattern: &str, color: [u8; 3], bold: bool, is_bg: bool) -> (r: Self)
        ensures
            r@ == (RuleView {
                name: name@,
                pattern: pattern@,
                color,
                bold,
                is_background: is_bg,
                compiled: regex_valid(pattern@),
            }),
    {
        let compiled = regex_compiles(pattern);
        HighlightRule {
            name: String::from_str(name),
            pattern: String::from_str(pattern),
            color,
            bold,
            is_background: is_bg,
            compiled,
        }
    }

    /// Compiles the rule's pattern again.
    pub fn compile(&mut self)
        ensures
            final(self)@ == (RuleView { compiled: regex_valid(old(self)@.pattern), ..old(self)@ }),
    {
        self.compiled = regex_compiles(self.pattern.as_str());
    }

    /// Whether the rule takes part in highlighting.
    pub fn is_compiled(&self) -> (r: bool)
        ensures
            r == self.compiled,
    {
        self.compiled
    }
}

// ── Style roles ──

/// Where a byte's foreground colour comes from.
#[derive(Clone, Copy, Debug)]
pub enum FgRole {
    /// A highlight rule's colour.
    Custom([u8; 3]),
    /// Markup delimiters, faint.
    Dim,
    /// Headings, list markers, checked boxes, quote markers.
    Accent,
    Bold,
    Italic,
    BoldItalic,
    CodeFg,
    Quote,
    Link,
}

/// Where a byte's background colour comes from.
#[derive(Clone, Copy, Debug)]
pub enum BgRole {
    Custom([u8; 3]),
    CodeBg,
}

/// The style of one byte: colour roles, the heading level (0 for `#`) whose size it
/// takes, strikethrough and italics.
#[derive(Clone, Copy, Debug)]
pub struct RoleStyle {
    pub fg: Option<FgRole>,
    pub bg: Option<BgRole>,
    pub heading: Option<usize>,
    pub strike: bool,
    pub italic: bool,
}

pub open spec fn plain_role() -> RoleStyle {
    RoleStyle { fg: None, bg: None, heading: None, strike: false, italic: false }
}

/// `st` with `f` applied to the bytes `[a, b)`.
pub open spec fn role_fill(st: Seq<RoleStyle>, a: int, b: int, f: spec_fn(RoleStyle) -> RoleStyle) -> Seq<RoleStyle> {
    Seq::new(st.len(), |i: int| if a <= i < b { f(st[i]) } else { st[i] })
}

/// A rule's colour on the bytes of its first `k` matches `ms` (each cut at the end).
pub open spec fn matches_pass(st: Seq<RoleStyle>, ms: Seq<(nat, nat)>, k: int, color: [u8; 3], is_bg: bool) -> Seq<RoleStyle>
    decreases k,
{
    if k <= 0 {
        st
    } else {
        let prev = matches_pass(st, ms, k - 1, color, is_bg);
        let e = if ms[k - 1].1 < st.len() { ms[k - 1].1 as int } else { st.len() as int };
        if is_bg {
            role_fill(prev, ms[k - 1].0 as int, e, |x: RoleStyle| RoleStyle { bg: Some(BgRole::Custom(color)), ..x })
        } else {
            role_fill(prev, ms[k - 1].0 as int, e, |x: RoleStyle| RoleStyle { fg: Some(FgRole::Custom(color)), ..x })
        }
    }
}

/// The first `k` rules applied in turn, each compiled rule with the matches given for
/// it (`found[i]`, absent where its pattern does not compile).
pub open spec fn rules_pass(st: Seq<RoleStyle>, rules: Seq<RuleView>, found: Seq<Option<Seq<(nat, nat)>>>, k: int) -> Seq<RoleStyle>
    decreases k,
{
    if k <= 0 {
        st
    } else {
        let prev = rules_pass(st, rules, found, k - 1);
        let r = rules[k - 1];
        if r.compiled {
            match found[k - 1] {
                Some(ms) => matches_pass(prev, ms, ms.len() as int, r.color, r.is_background),
                None => prev,
            }
        } else {
            prev
        }
    }
}

/// What the regex crate finds for each rule in `text`.
pub open spec fn rule_matches(rules: Seq<RuleView>, text: Seq<char>) -> Seq<Option<Seq<(nat, nat)>>> {
    rules.map_values(|r: RuleView| if regex_valid(r.pattern) { Some(regex_matches(r.pattern, text)) } else { None })
}

pub open spec fn found_view(v: Seq<Option<Vec<(usize, usize)>>>) -> Seq<Option<Seq<(nat, nat)>>> {
    v.map_values(|o: Option<Vec<(usize, usize)>>| match o {
        Some(m) => Some(ranges_view(m@)),
        None => None,
    })
}

// ── Markdown pass ──

/// Markdown nesting while walking the events.
pub struct ClassicState {
    pub heading: Option<usize>,
    pub strong: nat,
    pub emph: nat,
    pub strike: nat,
    pub code_block: bool,
    pub link: nat,
    pub quote: nat,
}

pub open spec fn classic_start() -> ClassicState {
    ClassicState { heading: None, strong: 0, emph: 0, strike: 0, code_block: false, link: 0, quote: 0 }
}

pub open spec fn dec_nat(n: nat) -> nat {
    if n > 0 { (n - 1) as nat } else { 0 }
}

pub open spec fn min_int(a: int, b: int) -> int {
    if a < b { a } else { b }
}

/// Delimiters go faint, unless a rule coloured them.
pub open spec fn dim_unset(x: RoleStyle) -> RoleStyle {
    if x.fg is None { RoleStyle { fg: Some(FgRole::Dim), ..x } } else { x }
}

/// The style of a text byte under the current nesting: a heading's text takes its size
/// and the accent; code its code colours; otherwise italics and strikethrough add up,
/// and the foreground is the link's, bold-italic, bold, italic, or, in a quote and not
/// yet coloured, the quote's.
pub open spec fn text_role(x: RoleStyle, ms: ClassicState) -> RoleStyle {
    match ms.heading {
        Some(h) => RoleStyle { heading: Some(h), fg: Some(FgRole::Accent), ..x },
        None => if ms.code_block {
            RoleStyle { fg: Some(FgRole::CodeFg), bg: Some(BgRole::CodeBg), ..x }
        } else {
            RoleStyle {
                italic: if ms.emph > 0 { true } else { x.italic },
                strike: if ms.strike > 0 { true } else { x.strike },
                fg: if ms.link > 0 {
                    Some(FgRole::Link)
                } else if ms.strong > 0 && ms.emph > 0 {
                    Some(FgRole::BoldItalic)
                } else if ms.strong > 0 {
                    Some(FgRole::Bold)
                } else if ms.emph > 0 {
                    Some(FgRole::Italic)
                } else if ms.quote > 0 && x.fg is None {
                    Some(FgRole::Quote)
                } else {
                    x.fg
                },
                ..x
            }
        },
    }
}

/// One event's effect on the roles and the nesting.
pub open spec fn classic_event(st: Seq<RoleStyle>, ms: ClassicState, ev: MdEventView) -> (Seq<RoleStyle>, ClassicState) {
    let len = st.len() as int;
    let s = min_int(ev.start as int, len);
    let e = min_int(ev.end as int, len);
    let dim = role_fill(st, s, e, |x: RoleStyle| dim_unset(x));
    match ev.kind {
        MdKindView::Start(tag) => match tag_class(tag) {
            TagClass::Heading(level) => {
                let lvl = if level >= 1 { min_int(level - 1, 5) as usize } else { 0usize };
                (
                    role_fill(st, s, min_int(s + level + 1, e), |x: RoleStyle| RoleStyle { fg: Some(FgRole::Dim), heading: Some(lvl), ..x }),
                    ClassicState { heading: Some(lvl), ..ms },
                )
            },
            TagClass::Quote => (st, ClassicState { quote: ms.quote + 1, ..ms }),
            TagClass::CodeBlock => (dim, ClassicState { code_block: true, ..ms }),
            TagClass::Item => (role_fill(st, s, min_int(s + 3, e), |x: RoleStyle| RoleStyle { fg: Some(FgRole::Accent), ..x }), ms),
            TagClass::Strong => (dim, ClassicState { strong: ms.strong + 1, ..ms }),
            TagClass::Emphasis => (dim, ClassicState { emph: ms.emph + 1, ..ms }),
            TagClass::Strike => (dim, ClassicState { strike: ms.strike + 1, ..ms }),
            TagClass::Link => (dim, ClassicState { link: ms.link + 1, ..ms }),
            TagClass::Image => (dim, ms),
            TagClass::Other => (st, ms),
        },
        MdKindView::End(tag) => match tag_class(tag) {
            TagClass::Heading(_) => (st, ClassicState { heading: None, ..ms }),
            TagClass::Quote => (st, ClassicState { quote: dec_nat(ms.quote), ..ms }),
            TagClass::CodeBlock => (dim, ClassicState { code_block: false, ..ms }),
            TagClass::Strong => (dim, ClassicState { strong: dec_nat(ms.strong), ..ms }),
            TagClass::Emphasis => (dim, ClassicState { emph: dec_nat(ms.emph), ..ms }),
            TagClass::Strike => (dim, ClassicState { strike: dec_nat(ms.strike), ..ms }),
            TagClass::Link => (dim, ClassicState { link: dec_nat(ms.link), ..ms }),
            TagClass::Image => (dim, ms),
            _ => (st, ms),
        },
        MdKindView::Text => (role_fill(st, s, e, |x: RoleStyle| text_role(x, ms)), ms),
        MdKindView::Code => {
            let t = role_fill(st, s, e, |x: RoleStyle| RoleStyle { fg: Some(FgRole::CodeFg), bg: Some(BgRole::CodeBg), ..x });
            let t2 = if s < len { t.update(s, RoleStyle { fg: Some(FgRole::Dim), ..t[s] }) } else { t };
            let last = if e > 0 { e - 1 } else { 0 };
            let t3 = if last > s { t2.update(last, RoleStyle { fg: Some(FgRole::Dim), ..t2[last] }) } else { t2 };
            (t3, ms)
        },
        MdKindView::Rule => (dim, ms),
        MdKindView::Task(checked) => (
            role_fill(st, s, e, |x: RoleStyle| RoleStyle { fg: Some(if checked { FgRole::Accent } else { FgRole::Dim }), ..x }),
            ms,
        ),
        MdKindView::Other => (st, ms),
    }
}

/// Roles and nesting after the first `k` events.
pub open spec fn classic_events_pass(st: Seq<RoleStyle>, evs: Seq<MdEventView>, k: int) -> (Seq<RoleStyle>, ClassicState)
    decreases k,
{
    if k <= 0 {
        (st, classic_start())
    } else {
        let prev = classic_events_pass(st, evs, k - 1);
        classic_event(prev.0, prev.1, evs[k - 1])
    }
}

/// Quote markers: in each piece of `text` split at line breaks, from the one starting
/// at character `i`, a `>` that is the first non-whitespace character takes the accent.
pub open spec fn quote_pass(st: Seq<RoleStyle>, text: Seq<char>, i: int) -> Seq<RoleStyle>
    decreases text.len() - i,
{
    if i < 0 || i > text.len() {
        st
    } else {
        let j = next_newline(text, i);
        let k = skip_ws(text, i, j);
        let b = utf8_len(text.take(k)) as int;
        let st2 = if k < j && text[k] == '>' && b < st.len() {
            st.update(b, RoleStyle { fg: Some(FgRole::Accent), ..st[b] })
        } else {
            st
        };
        if j < text.len() {
            proof {
                crate::text::lemma_next_newline(text, i);
            }
            quote_pass(st2, text, j + 1)
        } else {
            st2
        }
    }
}

/// The roles of the bytes of `text`: the rules first (with the matches `found` for
/// them), then, when `markdown`, the Markdown events `evs` and the quote markers.
pub open spec fn classic_roles(
    text: Seq<char>,
    rules: Seq<RuleView>,
    found: Seq<Option<Seq<(nat, nat)>>>,
    evs: Seq<MdEventView>,
    markdown: bool,
) -> Seq<RoleStyle> {
    let base = Seq::new(utf8_len(text), |i: int| plain_role());
    let ruled = rules_pass(base, rules, found, rules.len() as int);
    if markdown {
        quote_pass(classic_events_pass(ruled, evs, evs.len() as int).0, text, 0)
    } else {
        ruled
    }
}

// ── Executable passes ──

/// A change applied to a range of bytes.
#[derive(Clone, Copy)]
enum RoleOp {
    Fg(FgRole),
    Bg(BgRole),
    DimUnset,
    HeadingMarker(usize),
    Text(StateExec),
    Code,
}

spec fn apply_role(x: RoleStyle, op: RoleOp) -> RoleStyle {
    match op {
        RoleOp::Fg(f) => RoleStyle { fg: Some(f), ..x },
        RoleOp::Bg(b) => RoleStyle { bg: Some(b), ..x },
        RoleOp::DimUnset => dim_unset(x),
        RoleOp::HeadingMarker(lvl) => RoleStyle { fg: Some(FgRole::Dim), heading: Some(lvl), ..x },
        RoleOp::Text(ms) => text_role(x, ms@),
        RoleOp::Code => RoleStyle { fg: Some(FgRole::CodeFg), bg: Some(BgRole::CodeBg), ..x },
    }
}

fn apply_role_exec(x: RoleStyle, op: RoleOp) -> (r: RoleStyle)
    ensures
        r == apply_role(x, op),
{
    match op {
        RoleOp::Fg(f) => RoleStyle { fg: Some(f), ..x },
        RoleOp::Bg(b) => RoleStyle { bg: Some(b), ..x },
        RoleOp::DimUnset => if x.fg.is_none() { RoleStyle { fg: Some(FgRole::Dim), ..x } } else { x },
        RoleOp::HeadingMarker(lvl) => RoleStyle { fg: Some(FgRole::Dim), heading: Some(lvl), ..x },
        RoleOp::Text(ms) => match ms.heading {
            Some(h) => RoleStyle { heading: Some(h), fg: Some(FgRole::Accent), ..x },
            None => if ms.code_block {
                RoleStyle { fg: Some(FgRole::CodeFg), bg: Some(BgRole::CodeBg), ..x }
            } else {
                let fg = if ms.link > 0 {
                    Some(FgRole::Link)
                } else if ms.strong > 0 && ms.emph > 0 {
                    Some(FgRole::BoldItalic)
                } else if ms.strong > 0 {
                    Some(FgRole::Bold)
                } else if ms.emph > 0 {
                    Some(FgRole::Italic)
                } else if ms.quote > 0 && x.fg.is_none() {
                    Some(FgRole::Quote)
                } else {
                    x.fg
                };
                RoleStyle {
                    italic: if ms.emph > 0 { true } else { x.italic },
                    strike: if ms.strike > 0 { true } else { x.strike },
                    fg,
                    ..x
                }
            },
        },
        RoleOp::Code => RoleStyle { fg: Some(FgRole::CodeFg), bg: Some(BgRole::CodeBg), ..x },
    }
}

/// Applies `op` to the bytes `[a, b)` of `st`.
fn role_fill_exec(st: &mut Vec<RoleStyle>, a: usize, b: usize, op: RoleOp)
    requires
        b <= old(st)@.len(),
    ensures
        final(st)@ == role_fill(old(st)@, a as int, b as int, |x: RoleStyle| apply_role(x, op)),
{
    let ghost st0 = st@;
    if a >= b {
        assert(st@ =~= role_fill(st0, a as int, b as int, |x: RoleStyle| apply_role(x, op)));
        return;
    }
    let mut i = a;
    while i < b
        invariant
            a <= i <= b <= st@.len(),
            st@.len() == st0.len(),
            forall|j: int|
                0 <= j < st0.len() ==> #[trigger] st@[j] == if a <= j < i {
                    apply_role(st0[j], op)
                } else {
                    st0[j]
                },
        decreases b - i,
    {
        let x = st[i];
        st.set(i, apply_role_exec(x, op));
        i += 1;
    }
    assert(st@ =~= role_fill(st0, a as int, b as int, |x: RoleStyle| apply_role(x, op)));
}

/// Executable form of [`ClassicState`].
#[derive(Clone, Copy)]
struct StateExec {
    heading: Option<usize>,
    strong: usize,
    emph: usize,
    strike: usize,
    code_block: bool,
    link: usize,
    quote: usize,
}

impl View for StateExec {
    type V = ClassicState;

    closed spec fn view(&self) -> ClassicState {
        ClassicState {
            heading: self.heading,
            strong: self.strong as nat,
            emph: self.emph as nat,
            strike: self.strike as nat,
            code_block: self.code_block,
            link: self.link as nat,
            quote: self.quote as nat,
        }
    }
}

spec fn counters_below(ms: StateExec, bound: nat) -> bool {
    ms.strong <= bound && ms.emph <= bound && ms.strike <= bound && ms.link <= bound && ms.quote <= bound
}

fn dec(n: usize) -> (r: usize)
    ensures
        r == dec_nat(n as nat),
{
    if n > 0 { n - 1 } else { 0 }
}

fn classic_event_exec(st: &mut Vec<RoleStyle>, ms: &mut StateExec, ev: &MdEvent, bound: usize)
    requires
        counters_below(*old(ms), bound as nat),
        bound < usize::MAX,
    ensures
        (final(st)@, final(ms)@) == classic_event(old(st)@, old(ms)@, ev@),
        counters_below(*final(ms), (bound + 1) as nat),
{
    let len = st.len();
    let s = if ev.start < len { ev.start } else { len };
    let e = if ev.end < len { ev.end } else { len };
    let ghost st0 = st@;
    let ghost ms0 = ms@;
    let ghost dim = role_fill(st0, s as int, e as int, |x: RoleStyle| dim_unset(x));
    proof {
        assert(role_fill(st0, s as int, e as int, |x: RoleStyle| apply_role(x, RoleOp::DimUnset)) =~= dim);
    }
    match &ev.kind {
        MdKind::Start(tag) => {
            let c = classify_tag(tag);
            match c {
                TagClass::Heading(level) => {
                    let lvl = if level >= 1 {
                        if level - 1 < 5 { level - 1 } else { 5 }
                    } else {
                        0
                    };
                    let hi = if e > s && e - s > level { s + level + 1 } else { e };
                    role_fill_exec(st, s, hi, RoleOp::HeadingMarker(lvl));
                    ms.heading = Some(lvl);
                    proof {
                        assert(st@ =~= classic_event(st0, ms0, ev@).0);
                    }
                },
                TagClass::Quote => {
                    ms.quote = ms.quote + 1;
                },
                TagClass::CodeBlock => {
                    role_fill_exec(st, s, e, RoleOp::DimUnset);
                    ms.code_block = true;
                },
                TagClass::Item => {
                    let hi = if e > s && e - s > 3 { s + 3 } else { e };
                    role_fill_exec(st, s, hi, RoleOp::Fg(FgRole::Accent));
                    proof {
                        assert(st@ =~= classic_event(st0, ms0, ev@).0);
                    }
                },
                TagClass::Strong => {
                    role_fill_exec(st, s, e, RoleOp::DimUnset);
                    ms.strong = ms.strong + 1;
                },
                TagClass::Emphasis => {
                    role_fill_exec(st, s, e, RoleOp::DimUnset);
                    ms.emph = ms.emph + 1;
                },
                TagClass::Strike => {
                    role_fill_exec(st, s, e, RoleOp::DimUnset);
                    ms.strike = ms.strike + 1;
                },
                TagClass::Link => {
                    role_fill_exec(st, s, e, RoleOp::DimUnset);
                    ms.link = ms.link + 1;
                },
                TagClass::Image => {
                    role_fill_exec(st, s, e, RoleOp::DimUnset);
                },
                TagClass::Other => {},
            }
        },
        MdKind::End(tag) => {
            let c = classify_tag(tag);
            match c {
                TagClass::Heading(_) => {
                    ms.heading = None;
                },
                TagClass::Quote => {
                    ms.quote = dec(ms.quote);
                },
                TagClass::CodeBlock => {
                    role_fill_exec(st, s, e, RoleOp::DimUnset);
                    ms.code_block = false;
                },
                TagClass::Strong => {
                    role_fill_exec(st, s, e, RoleOp::DimUnset);
                    ms.strong = dec(ms.strong);
                },
                TagClass::Emphasis => {
                    role_fill_exec(st, s, e, RoleOp::DimUnset);
                    ms.emph = dec(ms.emph);
                },
                TagClass::Strike => {
                    role_fill_exec(st, s, e, RoleOp::DimUnset);
                    ms.strike = dec(ms.strike);
                },
                TagClass::Link => {
                    role_fill_exec(st, s, e, RoleOp::DimUnset);
                    ms.link = dec(ms.link);
                },
                TagClass::Image => {
                    role_fill_exec(st, s, e, RoleOp::DimUnset);
                },
                _ => {},
            }
        },
        MdKind::Text => {
            let snapshot = *ms;
            role_fill_exec(st, s, e, RoleOp::Text(snapshot));
            proof {
                assert(st@ =~= classic_event(st0, ms0, ev@).0);
            }
        },
        MdKind::Code => {
            role_fill_exec(st, s, e, RoleOp::Code);
            let ghost t = st@;
            proof {
                assert(t =~= role_fill(st0, s as int, e as int, |x: RoleStyle| RoleStyle { fg: Some(FgRole::CodeFg), bg: Some(BgRole::CodeBg), ..x }));
            }
            if s < len {
                let x = st[s];
                st.set(s, RoleStyle { fg: Some(FgRole::Dim), ..x });
            }
            let ghost t2 = st@;
            let last = if e > 0 { e - 1 } else { 0 };
            if last > s {
                let x = st[last];
                st.set(last, RoleStyle { fg: Some(FgRole::Dim), ..x });
            }
            proof {
                assert(st@ =~= classic_event(st0, ms0, ev@).0);
            }
        },
        MdKind::Rule => {
            role_fill_exec(st, s, e, RoleOp::DimUnset);
        },
        MdKind::Task(checked) => {
            let f = if *checked { FgRole::Accent } else { FgRole::Dim };
            role_fill_exec(st, s, e, RoleOp::Fg(f));
            proof {
                assert(st@ =~= classic_event(st0, ms0, ev@).0);
            }
        },
        MdKind::Other => {},
    }
}

fn rules_pass_exec(st: &mut Vec<RoleStyle>, rules: &Vec<HighlightRule>, found: &Vec<Option<Vec<(usize, usize)>>>)
    requires
        found@.len() == rules@.len(),
    ensures
        final(st)@ == rules_pass(old(st)@, rules_view(rules@), found_view(found@), rules@.len() as int),
{
    let ghost st0 = st@;
    let ghost rv = rules_view(rules@);
    let ghost fv = found_view(found@);
    let mut k: usize = 0;
    while k < rules.len()
        invariant
            k <= rules@.len(),
            found@.len() == rules@.len(),
            rv == rules_view(rules@),
            fv == found_view(found@),
            st@ == rules_pass(st0, rv, fv, k as int),
            st@.len() == st0.len(),
        decreases rules@.len() - k,
    {
        let r = &rules[k];
        assert(rv[k as int] == r@);
        if r.compiled {
            match &found[k] {
                Some(ms) => {
                    let ghost mv = ranges_view(ms@);
                    assert(fv[k as int] == Some(mv));
                    let ghost before = st@;
                    let mut m: usize = 0;
                    while m < ms.len()
                        invariant
                            m <= ms@.len(),
                            mv == ranges_view(ms@),
                            st@ == matches_pass(before, mv, m as int, r.color, r.is_background),
                            st@.len() == before.len(),
                        decreases ms@.len() - m,
                    {
                        let (a, b) = ms[m];
                        assert(mv[m as int] == (a as nat, b as nat));
                        let len = st.len();
                        let e = if b < len { b } else { len };
                        if r.is_background {
                            role_fill_exec(st, a, e, RoleOp::Bg(BgRole::Custom(r.color)));
                        } else {
                            role_fill_exec(st, a, e, RoleOp::Fg(FgRole::Custom(r.color)));
                        }
                        proof {
                            lemma_matches_pass_len(before, mv, m as int, r.color, r.is_background);
                            assert(st@ =~= matches_pass(before, mv, m + 1, r.color, r.is_background));
                        }
                        m += 1;
                    }
                },
                None => {
                    assert(fv[k as int] is None);
                },
            }
        }
        k += 1;
    }
}

proof fn lemma_matches_pass_len(st: Seq<RoleStyle>, ms: Seq<(nat, nat)>, k: int, color: [u8; 3], is_bg: bool)
    ensures
        matches_pass(st, ms, k, color, is_bg).len() == st.len(),
    decreases k,
{
    if k > 0 {
        lemma_matches_pass_len(st, ms, k - 1, color, is_bg);
    }
}

fn events_pass_exec(st: &mut Vec<RoleStyle>, events: &Vec<MdEvent>)
    ensures
        final(st)@ == classic_events_pass(old(st)@, events_view(events@), events@.len() as int).0,
{
    let ghost st0 = st@;
    let ghost evs = events_view(events@);
    let mut ms = StateExec { heading: None, strong: 0, emph: 0, strike: 0, code_block: false, link: 0, quote: 0 };
    let mut k: usize = 0;
    assert(ms@ == classic_start());
    while k < events.len()
        invariant
            k <= events@.len(),
            evs == events_view(events@),
            (st@, ms@) == classic_events_pass(st0, evs, k as int),
            counters_below(ms, k as nat),
        decreases events@.len() - k,
    {
        assert(evs[k as int] == events@[k as int]@);
        classic_event_exec(st, &mut ms, &events[k], k);
        k += 1;
    }
}

/// `skip_ws(text, i, j)` with its byte offset.
fn skip_ws_bytes(text: &Vec<char>, i: usize, j: usize, bi: usize, total: usize) -> (r: (usize, usize))
    requires
        i <= j <= text@.len(),
        bi == utf8_len(text@.take(i as int)),
        total == utf8_len(text@),
    ensures
        r.0 == skip_ws(text@, i as int, j as int),
        r.1 == utf8_len(text@.take(r.0 as int)),
        i <= r.0 <= j,
{
    let n = text.len();
    let mut k = i;
    let mut bk = bi;
    while k < j && is_whitespace(text[k])
        invariant
            i <= k <= j <= n,
            n == text@.len(),
            total == utf8_len(text@),
            bk == utf8_len(text@.take(k as int)),
            skip_ws(text@, i as int, j as int) == skip_ws(text@, k as int, j as int),
        decreases j - k,
    {
        proof {
            crate::text::lemma_utf8_len_step(text@, k as int);
            crate::blocks::lemma_utf8_len_range(text@, k + 1, n as int);
            assert(text@.take(n as int) =~= text@);
        }
        bk = bk + char_len_utf8(text[k]);
        k += 1;
    }
    (k, bk)
}

/// `next_newline(text, i)` with its byte offset.
fn newline_bytes(text: &Vec<char>, i: usize, bi: usize, total: usize) -> (r: (usize, usize))
    requires
        i <= text@.len(),
        bi == utf8_len(text@.take(i as int)),
        total == utf8_len(text@),
    ensures
        r.0 == next_newline(text@, i as int),
        r.1 == utf8_len(text@.take(r.0 as int)),
        i <= r.0 <= text@.len(),
{
    let n = text.len();
    let mut j = i;
    let mut bj = bi;
    while j < n && text[j] != '\n'
        invariant
            i <= j <= n,
            n == text@.len(),
            total == utf8_len(text@),
            bj == utf8_len(text@.take(j as int)),
            next_newline(text@, i as int) == next_newline(text@, j as int),
        decreases n - j,
    {
        proof {
            crate::text::lemma_utf8_len_step(text@, j as int);
            crate::blocks::lemma_utf8_len_range(text@, j + 1, n as int);
            assert(text@.take(n as int) =~= text@);
        }
        bj = bj + char_len_utf8(text[j]);
        j += 1;
    }
    (j, bj)
}

fn quote_pass_exec(st: &mut Vec<RoleStyle>, text: &Vec<char>, total: usize)
    requires
        total == utf8_len(text@),
    ensures
        final(st)@ == quote_pass(old(st)@, text@, 0),
{
    let n = text.len();
    let mut i: usize = 0;
    let mut b: usize = 0;
    let ghost st0 = st@;
    proof {
        assert(text@.take(0) =~= Seq::<char>::empty());
    }
    loop
        invariant
            i <= n,
            n == text@.len(),
            total == utf8_len(text@),
            b == utf8_len(text@.take(i as int)),
            st0 == old(st)@,
            quote_pass(st0, text@, 0) == quote_pass(st@, text@, i as int),
        decreases n - i,
    {
        let (j, bj) = newline_bytes(text, i, b, total);
        let (k, bk) = skip_ws_bytes(text, i, j, b, total);
        let ghost before = st@;
        if k < j && text[k] == '>' && bk < st.len() {
            let x = st[bk];
            st.set(bk, RoleStyle { fg: Some(FgRole::Accent), ..x });
        }
        proof {
            crate::text::lemma_next_newline(text@, i as int);
            let st2 = if k < j && text@[k as int] == '>' && (bk as int) < before.len() {
                before.update(bk as int, RoleStyle { fg: Some(FgRole::Accent), ..before[bk as int] })
            } else {
                before
            };
            assert(st@ == st2);
            if j < n {
                assert(quote_pass(before, text@, i as int) == quote_pass(st2, text@, j + 1));
            } else {
                assert(quote_pass(before, text@, i as int) == st2);
            }
        }
        if j >= n {
            return;
        }
        proof {
            crate::text::lemma_utf8_len_step(text@, j as int);
            crate::blocks::lemma_utf8_len_range(text@, j + 1, n as int);
            assert(text@.take(n as int) =~= text@);
            assert(text@[j as int] == '\n');
        }
        b = bj + 1;
        i = j + 1;
    }
}

/// The roles of the bytes of `text` with the rules' matches `found` and the Markdown
/// events `events` supplied (see [`classic_roles`]).
pub fn classic_roles_from(
    text: &str,
    rules: &Vec<HighlightRule>,
    found: &Vec<Option<Vec<(usize, usize)>>>,
    events: &Vec<MdEvent>,
    markdown: bool,
) -> (r: Vec<RoleStyle>)
    requires
        found@.len() == rules@.len(),
    ensures
        r@ == classic_roles(text@, rules_view(rules@), found_view(found@), events_view(events@), markdown),
{
    let len = byte_len(text);
    let mut st: Vec<RoleStyle> = Vec::new();
    let plain = RoleStyle { fg: None, bg: None, heading: None, strike: false, italic: false };
    let mut i: usize = 0;
    while i < len
        invariant
            i <= len,
            st@ =~= Seq::new(i as nat, |j: int| plain_role()),
            plain == plain_role(),
        decreases len - i,
    {
        st.push(plain);
        i += 1;
    }
    rules_pass_exec(&mut st, rules, found);
    if markdown {
        events_pass_exec(&mut st, events);
        let chars = chars_of(text);
        quote_pass_exec(&mut st, &chars, len);
    }
    st
}

fn find_all_rules(text: &str, rules: &Vec<HighlightRule>) -> (r: Vec<Option<Vec<(usize, usize)>>>)
    ensures
        r@.len() == rules@.len(),
        forall|k: int|
            0 <= k < rules@.len() && rules@[k].compiled ==> #[trigger] found_view(r@)[k] == rule_matches(
                rules_view(rules@),
                text@,
            )[k],
{
    let mut out: Vec<Option<Vec<(usize, usize)>>> = Vec::new();
    let mut k: usize = 0;
    while k < rules.len()
        invariant
            k <= rules@.len(),
            out@.len() == k,
            forall|j: int|
                0 <= j < k && rules@[j].compiled ==> #[trigger] found_view(out@)[j] == rule_matches(
                    rules_view(rules@),
                    text@,
                )[j],
        decreases rules@.len() - k,
    {
        if rules[k].compiled {
            let m = regex_find_all(rules[k].pattern.as_str(), text);
            let ghost before = out@;
            out.push(m);
            proof {
                assert(rules_view(rules@)[k as int] == rules@[k as int]@);
                assert forall|j: int| 0 <= j < k + 1 && rules@[j].compiled implies #[trigger] found_view(out@)[j]
                    == rule_matches(rules_view(rules@), text@)[j] by {
                    if j < k {
                        assert(found_view(out@)[j] == found_view(before)[j]);
                    }
                }
            }
        } else {
            let ghost before = out@;
            out.push(None);
            proof {
                assert forall|j: int| 0 <= j < k + 1 && rules@[j].compiled implies #[trigger] found_view(out@)[j]
                    == rule_matches(rules_view(rules@), text@)[j] by {
                    if j < k {
                        assert(found_view(out@)[j] == found_view(before)[j]);
                    }
                }
            }
        }
        k += 1;
    }
    out
}

proof fn lemma_rules_pass_found(st: Seq<RoleStyle>, rules: Seq<RuleView>, f1: Seq<Option<Seq<(nat, nat)>>>, f2: Seq<Option<Seq<(nat, nat)>>>, k: int)
    requires
        0 <= k <= rules.len(),
        f1.len() == rules.len(),
        f2.len() == rules.len(),
        forall|j: int| 0 <= j < rules.len() && rules[j].compiled ==> #[trigger] f1[j] == f2[j],
    ensures
        rules_pass(st, rules, f1, k) == rules_pass(st, rules, f2, k),
    decreases k,
{
    if k > 0 {
        lemma_rules_pass_found(st, rules, f1, f2, k - 1);
    }
}

/// Per-byte roles of `text` from the highlight rules alone (no Markdown).
pub fn highlight(text: &str, rules: &Vec<HighlightRule>) -> (r: Vec<RoleStyle>)
    ensures
        r@ == classic_roles(text@, rules_view(rules@), rule_matches(rules_view(rules@), text@), seq![], false),
{
    let found = find_all_rules(text, rules);
    let events: Vec<MdEvent> = Vec::new();
    let r = classic_roles_from(text, rules, &found, &events, false);
    proof {
        let base = Seq::new(utf8_len(text@), |i: int| plain_role());
        lemma_rules_pass_found(base, rules_view(rules@), found_view(found@), rule_matches(rules_view(rules@), text@), rules@.len() as int);
    }
    r
}

/// Per-byte roles of `text` from the highlight rules and Markdown (pulldown-cmark with
/// strikethrough and task lists), which overrides them.
pub fn highlight_markdown(text: &str, rules: &Vec<HighlightRule>) -> (r: Vec<RoleStyle>)
    ensures
        r@ == classic_roles(text@, rules_view(rules@), rule_matches(rules_view(rules@), text@), markdown_events(text@), true),
{
    let found = find_all_rules(text, rules);
    let events = markdown_event_list(text);
    let r = classic_roles_from(text, rules, &found, &events, true);
    proof {
        let base = Seq::new(utf8_len(text@), |i: int| plain_role());
        lemma_rules_pass_found(base, rules_view(rules@), found_view(found@), rule_matches(rules_view(rules@), text@), rules@.len() as int);
    }
    r
}

// ── Interface strings ──

/// The interface strings of the classic editor in one language.
#[derive(Clone, Copy, Debug)]
pub struct LangStrings {
    pub app_title: &'static str,
    pub file: &'static str,
    pub save: &'static str,
    pub save_as: &'static str,
    pub close_tab: &'static str,
    pub exit: &'static str,
    pub view: &'static str,
    pub hide_sidebar: &'static str,
    pub show_sidebar: &'static str,
    pub hide_settings: &'static str,
    pub show_settings: &'static str,
    pub files: &'static str,
    pub outline: &'static str,
    pub display_settings: &'static str,
    pub font: &'static str,
    pub font_size: &'static str,
    pub editor_bg: &'static str,
    pub panel_bg: &'static str,
    pub editor_text_color: &'static str,
    pub panel_text_color: &'static str,
    pub accent_color: &'static str,
    pub border_color: &'static str,
    pub close_btn_color: &'static str,
    pub checkbox_color: &'static str,
    pub textbox_color: &'static str,
    pub tab_active_color: &'static str,
    pub tab_inactive_color: &'static str,
    pub menu_bg_color: &'static str,
    pub selected_file_color: &'static str,
    pub status_bar_color: &'static str,
    pub markdown_render: &'static str,
    pub theme_section: &'static str,
    pub load_theme: &'static str,
    pub save_theme: &'static str,
    pub delete_theme: &'static str,
    pub theme_name: &'static str,
    pub highlight_rules: &'static str,
    pub new_rule: &'static str,
    pub add: &'static str,
    pub bg_image: &'static str,
    pub editor_bg_img: &'static str,
    pub panel_bg_img: &'static str,
    pub clear: &'static str,
    pub language: &'static str,
    pub empty: &'static str,
    pub open_file: &'static str,
    pub lines: &'static str,
    pub chars: &'static str,
    pub words: &'static str,
    pub labels: &'static str,
}

/// The Chinese interface strings.
pub open spec fn zh_strings() -> LangStrings {
    LangStrings {
        app_title: "竹签 ZhuQian",
        file: "文件",
        save: "  保存  Ctrl+S",
        save_as: "  另存为...",
        close_tab: "  关闭标签页",
        exit: "  退出",
        view: "查看",
        hide_sidebar: "  隐藏侧边栏",
        show_sidebar: "  显示侧边栏",
        hide_settings: "  隐藏设置",
        show_settings: "  显示设置",
        files: "文件",
        outline: "大纲",
        display_settings: "— 显示设置 —",
        font: "字体",
        font_size: "字号",
        editor_bg: "编辑器背景",
        panel_bg: "面板背景",
        editor_text_color: "编辑器文字",
        panel_text_color: "面板文字",
        accent_color: "强调色",
        border_color: "边框颜色",
        close_btn_color: "关闭按钮",
        checkbox_color: "复选框颜色",
        textbox_color: "输入框背景",
        tab_active_color: "活动标签",
        tab_inactive_color: "标签文字",
        menu_bg_color: "菜单背景",
        selected_file_color: "选中文件",
        status_bar_color: "状态栏",
        markdown_render: "Markdown 渲染",
        theme_section: "— 主题 —",
        load_theme: "载入主题...",
        save_theme: "保存主题",
        delete_theme: "删除主题",
        theme_name: "主题名",
        highlight_rules: "— 高亮规则 —",
        new_rule: "+ 新规则",
        add: "添加",
        bg_image: "背景图片",
        editor_bg_img: "编辑器背景...",
        panel_bg_img: "面板背景...",
        clear: "清除",
        language: "语言",
        empty: "(空)",
        open_file: "// 从侧边栏打开文件",
        lines: "行",
        chars: "字",
        words: "词",
        labels: "签",
    }
}

/// The English interface strings.
pub open spec fn en_strings() -> LangStrings {
    LangStrings {
        app_title: "ZhuQian Editor",
        file: "File",
        save: "  Save  Ctrl+S",
        save_as: "  Save As...",
        close_tab: "  Close Tab",
        exit: "  Exit",
        view: "View",
        hide_sidebar: "  Hide Sidebar",
        show_sidebar: "  Show Sidebar",
        hide_settings: "  Hide Settings",
        show_settings: "  Show Settings",
        files: "Files",
        outline: "Outline",
        display_settings: "— Display Settings —",
        font: "Font",
        font_size: "Font Size",
        editor_bg: "Editor BG",
        panel_bg: "Panel BG",
        editor_text_color: "Editor Text",
        panel_text_color: "Panel Text",
        accent_color: "Accent",
        border_color: "Border Color",
        close_btn_color: "Close Button",
        checkbox_color: "Checkbox Color",
        textbox_color: "Input BG",
        tab_active_color: "Active Tab",
        tab_inactive_color: "Tab Text",
        menu_bg_color: "Menu BG",
        selected_file_color: "Selected File",
        status_bar_color: "Status Bar",
        markdown_render: "Markdown Render",
        theme_section: "— Theme —",
        load_theme: "Load Theme...",
        save_theme: "Save Theme",
        delete_theme: "Delete Theme",
        theme_name: "Theme Name",
        highlight_rules: "— Highlight Rules —",
        new_rule: "+ New Rule",
        add: "Add",
        bg_image: "Background Image",
        editor_bg_img: "Editor BG...",
        panel_bg_img: "Panel BG...",
        clear: "Clear",
        language: "Language",
        empty: "(empty)",
        open_file: "// open a file from the sidebar",
        lines: "Ln",
        chars: "Ch",
        words: "Wd",
        labels: "Lb",
    }
}

impl LangStrings {
    /// The Chinese interface strings.
    pub fn zh() -> (r: Self)
        ensures
            r == zh_strings(),
    {
        LangStrings {
            app_title: "竹签 ZhuQian",
            file: "文件",
            save: "  保存  Ctrl+S",
            save_as: "  另存为...",
            close_tab: "  关闭标签页",
            exit: "  退出",
            view: "查看",
            hide_sidebar: "  隐藏侧边栏",
            show_sidebar: "  显示侧边栏",
            hide_settings: "  隐藏设置",
            show_settings: "  显示设置",
            files: "文件",
            outline: "大纲",
            display_settings: "— 显示设置 —",
            font: "字体",
            font_size: "字号",
            editor_bg: "编辑器背景",
            panel_bg: "面板背景",
            editor_text_color: "编辑器文字",
            panel_text_color: "面板文字",
            accent_color: "强调色",
            border_color: "边框颜色",
            close_btn_color: "关闭按钮",
            checkbox_color: "复选框颜色",
            textbox_color: "输入框背景",
            tab_active_color: "活动标签",
            tab_inactive_color: "标签文字",
            menu_bg_color: "菜单背景",
            selected_file_color: "选中文件",
            status_bar_color: "状态栏",
            markdown_render: "Markdown 渲染",
            theme_section: "— 主题 —",
            load_theme: "载入主题...",
            save_theme: "保存主题",
            delete_theme: "删除主题",
            theme_name: "主题名",
            highlight_rules: "— 高亮规则 —",
            new_rule: "+ 新规则",
            add: "添加",
            bg_image: "背景图片",
            editor_bg_img: "编辑器背景...",
            panel_bg_img: "面板背景...",
            clear: "清除",
            language: "语言",
            empty: "(空)",
            open_file: "// 从侧边栏打开文件",
            lines: "行",
            chars: "字",
            words: "词",
            labels: "签",
        }
    }

    /// The English interface strings.
    pub fn en() -> (r: Self)
        ensures
            r == en_strings(),
    {
        LangStrings {
            app_title: "ZhuQian Editor",
            file: "File",
            save: "  Save  Ctrl+S",
            save_as: "  Save As...",
            close_tab: "  Close Tab",
            exit: "  Exit",
            view: "View",
            hide_sidebar: "  Hide Sidebar",
            show_sidebar: "  Show Sidebar",
            hide_settings: "  Hide Settings",
            show_settings: "  Show Settings",
            files: "Files",
            outline: "Outline",
            display_settings: "— Display Settings —",
            font: "Font",
            font_size: "Font Size",
            editor_bg: "Editor BG",
            panel_bg: "Panel BG",
            editor_text_color: "Editor Text",
            panel_text_color: "Panel Text",
            accent_color: "Accent",
            border_color: "Border Color",
            close_btn_color: "Close Button",
            checkbox_color: "Checkbox Color",
            textbox_color: "Input BG",
            tab_active_color: "Active Tab",
            tab_inactive_color: "Tab Text",
            menu_bg_color: "Menu BG",
            selected_file_color: "Selected File",
            status_bar_color: "Status Bar",
            markdown_render: "Markdown Render",
            theme_section: "— Theme —",
            load_theme: "Load Theme...",
            save_theme: "Save Theme",
            delete_theme: "Delete Theme",
            theme_name: "Theme Name",
            highlight_rules: "— Highlight Rules —",
            new_rule: "+ New Rule",
            add: "Add",
            bg_image: "Background Image",
            editor_bg_img: "Editor BG...",
            panel_bg_img: "Panel BG...",
            clear: "Clear",
            language: "Language",
            empty: "(empty)",
            open_file: "// open a file from the sidebar",
            lines: "Ln",
            chars: "Ch",
            words: "Wd",
            labels: "Lb",
        }
    }

}

/// The interface strings for `lang`.
pub fn get_strings(lang: Language) -> (r: LangStrings)
    ensures
        r == match lang {
            Language::Zh => zh_strings(),
            Language::En => en_strings(),
        },
{
    match lang {
        Language::Zh => LangStrings::zh(),
        Language::En => LangStrings::en(),
    }
}

} // verus!
