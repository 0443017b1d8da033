//! Platform-neutral highlighting: Markdown and semantic labels turned into
//! styled byte spans that cover the text exactly.

use vstd::prelude::*;
use pulldown_cmark::{Event, Options, Parser};
use crate::label::{char_at_byte, labels_view, parse_labels, parse_semantic_labels, LabelView, SemanticLabel};
use crate::text::{byte_len, chars_of, utf8_len};

verus! {

// ── Markdown events from pulldown-cmark ──

/// What a Markdown event is; `Start` and `End` name the element they open or close
/// as pulldown-cmark's `TagEnd` debug-prints it (`Strong`, `Heading(H2)`,
/// `BlockQuote(None)`, ...).
#[derive(Clone, Debug)]
pub enum MdKind {
    Start(String),
    End(String),
    Text,
    Code,
    Rule,
    Task(bool),
    Other,
}

/// A Markdown event with its byte range.
#[derive(Clone, Debug)]
pub struct MdEvent {
    pub kind: MdKind,
    pub start: usize,
    pub end: usize,
}

pub enum MdKindView {
    Start(Seq<char>),
    End(Seq<char>),
    Text,
    Code,
    Rule,
    Task(bool),
    Other,
}

pub struct MdEventView {
    pub kind: MdKindView,
    pub start: nat,
    pub end: nat,
}

impl View for MdEvent {
    type V = MdEventView;

    open spec fn view(&self) -> MdEventView {
        MdEventView {
            kind: match self.kind {
                MdKind::Start(t) => MdKindView::Start(t@),
                MdKind::End(t) => MdKindView::End(t@),
                MdKind::Text => MdKindView::Text,
                MdKind::Code => MdKindView::Code,
                MdKind::Rule => MdKindView::Rule,
                MdKind::Task(c) => MdKindView::Task(c),
                MdKind::Other => MdKindView::Other,
            },
            start: self.start as nat,
            end: self.end as nat,
        }
    }
}

pub open spec fn events_view(v: Seq<MdEvent>) -> Seq<MdEventView> {
    v.map_values(|e: MdEvent| e@)
}

/// The events pulldown-cmark reports for `text` (strikethrough and task lists on).
pub uninterp spec fn markdown_events(text: Seq<char>) -> Seq<MdEventView>;

/// Runs pulldown-cmark (`Parser::new_ext` with strikethrough and task lists,
/// `into_offset_iter`) over `text` and lists each event with its byte range.  The
/// result is named, not described: it is CommonMark parsing, a function of `text`.
/// What is stated beyond the name: each range is a range of the source text, as
/// `into_offset_iter` documents, so both its ends fall on character boundaries.
#[verifier::external_body]
pub(crate) fn markdown_event_list(text: &str) -> (r: Vec<MdEvent>)
    ensures
        events_view(r@) == markdown_events(text@),
        forall|k: int|
            0 <= k < r@.len() ==> char_at_byte(text@, (#[trigger] r@[k]).start as int) >= 0 && char_at_byte(
                text@,
                r@[k].end as int,
            ) >= 0,
{
    let mut v = Vec::new();
    for (e, r) in Parser::new_ext(text, Options::ENABLE_STRIKETHROUGH | Options::ENABLE_TASKLISTS).into_offset_iter() {
        let kind = match e {
            Event::Start(t) => MdKind::Start(format!("{:?}", t.to_end())),
            Event::End(t) => MdKind::End(format!("{:?}", t)),
            Event::Text(_) => MdKind::Text,
            Event::Code(_) => MdKind::Code,
            Event::Rule => MdKind::Rule,
            Event::TaskListMarker(c) => MdKind::Task(c),
            _ => MdKind::Other,
        };
        v.push(MdEvent { kind, start: r.start, end: r.end });
    }
    v
}

/// The element a `Start`/`End` event is about.
#[derive(Clone, Copy, Debug, PartialEq, Eq, Structural)]
pub enum TagClass {
    Heading(usize),
    Quote,
    CodeBlock,
    Strong,
    Emphasis,
    Strike,
    Link,
    Image,
    Item,
    Other,
}

/// Reads an element name: `Heading(H1)`..`Heading(H6)`, `BlockQuote(..)`,
/// `CodeBlock`, `Strong`, `Emphasis`, `Strikethrough`, `Link`, `Image`, `Item`.
pub open spec fn tag_class(t: Seq<char>) -> TagClass {
    if t.len() == 11 && t.take(9) == "Heading(H"@ && t[10] == ')' && '1' <= t[9] && t[9] <= '6' {
        TagClass::Heading((t[9] as u32 - 48) as usize)
    } else if t.len() >= 11 && t.take(11) == "BlockQuote("@ {
        TagClass::Quote
    } else if t == "CodeBlock"@ {
        TagClass::CodeBlock
    } else if t == "Strong"@ {
        TagClass::Strong
    } else if t == "Emphasis"@ {
        TagClass::Emphasis
    } else if t == "Strikethrough"@ {
        TagClass::Strike
    } else if t == "Link"@ {
        TagClass::Link
    } else if t == "Image"@ {
        TagClass::Image
    } else if t == "Item"@ {
        TagClass::Item
    } else {
        TagClass::Other
    }
}

fn is_name(t: &Vec<char>, name: &str) -> (r: bool)
    ensures
        r == (t@ == name@),
{
    let n = chars_of(name);
    crate::label::chars_eq(t, &n)
}

fn has_prefix(t: &Vec<char>, p: &str) -> (r: bool)
    ensures
        r == (t@.len() >= p@.len() && t@.take(p@.len() as int) == p@),
{
    let pv = chars_of(p);
    let b = crate::label::occurs_at_exec(t, 0, &pv);
    proof {
        if t@.len() >= pv@.len() {
            assert(t@.subrange(0, pv@.len() as int) =~= t@.take(pv@.len() as int));
        }
    }
    b
}

/// Classifies an element name.
pub fn classify_tag(tag: &String) -> (r: TagClass)
    ensures
        r == tag_class(tag@),
{
    let t = chars_of(tag.as_str());
    proof {
        reveal_strlit("Heading(H");
        reveal_strlit("BlockQuote(");
    }
    if t.len() == 11 && has_prefix(&t, "Heading(H") && t[10] == ')' && '1' <= t[9] && t[9] <= '6' {
        let d = (t[9] as u32 - 48) as usize;
        TagClass::Heading(d)
    } else if t.len() >= 11 && has_prefix(&t, "BlockQuote(") {
        TagClass::Quote
    } else if is_name(&t, "CodeBlock") {
        TagClass::CodeBlock
    } else if is_name(&t, "Strong") {
        TagClass::Strong
    } else if is_name(&t, "Emphasis") {
        TagClass::Emphasis
    } else if is_name(&t, "Strikethrough") {
        TagClass::Strike
    } else if is_name(&t, "Link") {
        TagClass::Link
    } else if is_name(&t, "Image") {
        TagClass::Image
    } else if is_name(&t, "Item") {
        TagClass::Item
    } else {
        TagClass::Other
    }
}

// ── Per-byte styles ──

/// The style of one byte of text.
#[derive(Clone, Copy, Debug)]
pub struct ByteStyle {
    pub fg: Option<[u8; 3]>,
    pub bg: Option<[u8; 3]>,
    /// Font size as a percentage of the base size.
    pub size_pct: u32,
    pub bold: bool,
    pub italic: bool,
    pub strike: bool,
    pub hidden: bool,
}

/// A run of text with one style, by byte range.
#[derive(Clone, Copy, Debug)]
pub struct StyledSpan {
    pub start: usize,
    pub end: usize,
    pub fg: Option<[u8; 3]>,
    pub bg: Option<[u8; 3]>,
    /// Font size as a percentage of the base size (heading sizes are larger).
    pub size_pct: u32,
    pub bold: bool,
    pub italic: bool,
    pub strikethrough: bool,
    pub is_hidden: bool,
}

pub open spec fn plain_style() -> ByteStyle {
    ByteStyle {
        fg: None,
        bg: None,
        size_pct: 100,
        bold: false,
        italic: false,
        strike: false,
        hidden: false,
    }
}

/// Color for markup that recedes (heading hashes).
pub open spec fn dim_color() -> [u8; 3] {
    [150u8, 150u8, 150u8]
}

pub open spec fn code_fg() -> [u8; 3] {
    [190u8, 85u8, 15u8]
}

pub open spec fn code_bg() -> [u8; 3] {
    [240u8, 240u8, 230u8]
}

pub open spec fn link_fg() -> [u8; 3] {
    [50u8, 110u8, 220u8]
}

/// Heading font sizes in percent, H1 to H6.
pub open spec fn heading_pct(lvl: int) -> u32 {
    if lvl == 0 {
        190
    } else if lvl == 1 {
        160
    } else if lvl == 2 {
        135
    } else if lvl == 3 {
        117
    } else if lvl == 4 {
        107
    } else {
        100
    }
}

fn heading_pct_exec(lvl: usize) -> (r: u32)
    ensures
        r == heading_pct(lvl as int),
{
    if lvl == 0 {
        190
    } else if lvl == 1 {
        160
    } else if lvl == 2 {
        135
    } else if lvl == 3 {
        117
    } else if lvl == 4 {
        107
    } else {
        100
    }
}

pub open spec fn min_nat(a: int, b: int) -> int {
    if a < b {
        a
    } else {
        b
    }
}

/// `st` with `f` applied to the bytes in `[a, b)`.
pub open spec fn fill(st: Seq<ByteStyle>, a: int, b: int, f: spec_fn(ByteStyle) -> ByteStyle) -> Seq<
    ByteStyle,
> {
    Seq::new(st.len(), |i: int| if a <= i < b { f(st[i]) } else { st[i] })
}

/// Background color of a label of depth `depth`: the level color at `depth - 1`, else the
/// last level color, else gray.
pub open spec fn level_color(depth: nat, colors: Seq<[u8; 3]>) -> [u8; 3] {
    let d = if depth > 0 { depth - 1 } else { 0 };
    if d < colors.len() {
        colors[d]
    } else if colors.len() > 0 {
        colors.last()
    } else {
        [150u8, 150u8, 150u8]
    }
}

/// Styles after marking the first `k` labels: hidden, or tinted by level.
pub open spec fn label_pass(
    st: Seq<ByteStyle>,
    ls: Seq<LabelView>,
    k: int,
    colors: Seq<[u8; 3]>,
    hide: bool,
) -> Seq<ByteStyle>
    decreases k,
{
    if k <= 0 {
        st
    } else {
        let prev = label_pass(st, ls, k - 1, colors, hide);
        let l = ls[k - 1];
        let a = min_nat(l.start_byte as int, st.len() as int);
        let b = min_nat(l.end_byte as int, st.len() as int);
        if hide {
            fill(prev, a, b, |x: ByteStyle| ByteStyle { hidden: true, ..x })
        } else {
            let c = level_color(l.depth, colors);
            fill(prev, a, b, |x: ByteStyle| ByteStyle { bg: Some(c), ..x })
        }
    }
}

/// Markdown nesting state while walking the events.
pub struct MdState {
    pub heading: Option<u32>,
    pub strong: nat,
    pub emph: nat,
    pub strike: nat,
    pub code_block: bool,
    pub link: nat,
    pub quote: nat,
}

pub open spec fn sat_dec(n: nat) -> nat {
    if n > 0 {
        (n - 1) as nat
    } else {
        0
    }
}

/// Style of a text byte under the current nesting.
pub open spec fn text_style(x: ByteStyle, ms: MdState, accent: [u8; 3]) -> ByteStyle {
    match ms.heading {
        Some(hs) => ByteStyle { size_pct: hs, fg: Some(accent), ..x },
        None => if ms.code_block {
            ByteStyle { fg: Some(code_fg()), bg: Some(code_bg()), ..x }
        } else {
            ByteStyle {
                bold: if ms.strong > 0 { true } else { x.bold },
                italic: if ms.emph > 0 { true } else { x.italic },
                strike: if ms.strike > 0 { true } else { x.strike },
                fg: if ms.link > 0 { Some(link_fg()) } else { x.fg },
                ..x
            }
        },
    }
}

/// One event's effect on the styles and the nesting state.
pub open spec fn span_event(st: Seq<ByteStyle>, ms: MdState, ev: MdEventView, accent: [u8; 3]) -> (
    Seq<ByteStyle>,
    MdState,
) {
    let len = st.len() as int;
    let s = min_nat(ev.start as int, len);
    let e = min_nat(ev.end as int, len);
    match ev.kind {
        MdKindView::Start(tag) => match tag_class(tag) {
            TagClass::Heading(level) => {
                let lvl = if level >= 1 { min_nat(level - 1, 5) } else { 0 };
                let hs = heading_pct(lvl);
                (
                    fill(
                        st,
                        s,
                        min_nat(s + level + 1, e),
                        |x: ByteStyle| ByteStyle { fg: Some(dim_color()), size_pct: hs, ..x },
                    ),
                    MdState { heading: Some(hs), ..ms },
                )
            },
            TagClass::Quote => (st, MdState { quote: ms.quote + 1, ..ms }),
            TagClass::CodeBlock => (st, MdState { code_block: true, ..ms }),
            TagClass::Strong => (st, MdState { strong: ms.strong + 1, ..ms }),
            TagClass::Emphasis => (st, MdState { emph: ms.emph + 1, ..ms }),
            TagClass::Strike => (st, MdState { strike: ms.strike + 1, ..ms }),
            TagClass::Link => (st, MdState { link: ms.link + 1, ..ms }),
            _ => (st, ms),
        },
        MdKindView::End(tag) => match tag_class(tag) {
            TagClass::Heading(_) => (st, MdState { heading: None, ..ms }),
            TagClass::Quote => (st, MdState { quote: sat_dec(ms.quote), ..ms }),
            TagClass::CodeBlock => (st, MdState { code_block: false, ..ms }),
            TagClass::Strong => (st, MdState { strong: sat_dec(ms.strong), ..ms }),
            TagClass::Emphasis => (st, MdState { emph: sat_dec(ms.emph), ..ms }),
            TagClass::Strike => (st, MdState { strike: sat_dec(ms.strike), ..ms }),
            TagClass::Link => (st, MdState { link: sat_dec(ms.link), ..ms }),
            _ => (st, ms),
        },
        MdKindView::Text => (fill(st, s, e, |x: ByteStyle| text_style(x, ms, accent)), ms),
        MdKindView::Code => (
            fill(
                st,
                s,
                e,
                |x: ByteStyle| ByteStyle { fg: Some(code_fg()), bg: Some(code_bg()), ..x },
            ),
            ms,
        ),
        _ => (st, ms),
    }
}

pub open spec fn start_state() -> MdState {
    MdState {
        heading: None,
        strong: 0,
        emph: 0,
        strike: 0,
        code_block: false,
        link: 0,
        quote: 0,
    }
}

/// Styles and state after the first `k` events.
pub open spec fn events_pass(st: Seq<ByteStyle>, evs: Seq<MdEventView>, k: int, accent: [u8; 3]) -> (
    Seq<ByteStyle>,
    MdState,
)
    decreases k,
{
    if k <= 0 {
        (st, start_state())
    } else {
        let prev = events_pass(st, evs, k - 1, accent);
        span_event(prev.0, prev.1, evs[k - 1], accent)
    }
}

/// Byte styles of a text of `len` bytes with labels `ls` and Markdown events `evs`.
pub open spec fn byte_styles(
    len: nat,
    ls: Seq<LabelView>,
    evs: Seq<MdEventView>,
    colors: Seq<[u8; 3]>,
    accent: [u8; 3],
    hide: bool,
) -> Seq<ByteStyle> {
    let base = Seq::new(len, |i: int| plain_style());
    let labeled = label_pass(base, ls, ls.len() as int, colors, hide);
    events_pass(labeled, evs, evs.len() as int, accent).0
}

// ── Runs ──

/// End of the run of bytes styled like `st[i]`.
pub open spec fn run_end(st: Seq<ByteStyle>, i: int, j: int) -> int
    decreases st.len() - j,
{
    if j >= st.len() || j < 0 {
        st.len() as int
    } else if st[j] != st[i] {
        j
    } else {
        run_end(st, i, j + 1)
    }
}

pub struct SpanView {
    pub start: nat,
    pub end: nat,
    pub style: ByteStyle,
}

/// The maximal runs of equal style from byte `i` on.
pub open spec fn runs_from(st: Seq<ByteStyle>, i: int) -> Seq<SpanView>
    decreases st.len() - i,
{
    if i >= st.len() || i < 0 {
        seq![]
    } else {
        let e = run_end(st, i, i + 1);
        proof {
            lemma_run_end(st, i, i + 1);
        }
        seq![SpanView { start: i as nat, end: e as nat, style: st[i] }] + runs_from(st, e)
    }
}

pub proof fn lemma_run_end(st: Seq<ByteStyle>, i: int, j: int)
    requires
        0 <= i < j <= st.len(),
    ensures
        j <= run_end(st, i, j) <= st.len(),
        forall|k: int| j <= k < run_end(st, i, j) ==> st[k] == st[i],
        run_end(st, i, j) < st.len() ==> st[run_end(st, i, j)] != st[i],
    decreases st.len() - j,
{
    if j < st.len() && st[j] == st[i] {
        lemma_run_end(st, i, j + 1);
    }
}

pub open spec fn span_view(s: StyledSpan) -> SpanView {
    SpanView {
        start: s.start as nat,
        end: s.end as nat,
        style: ByteStyle {
            fg: s.fg,
            bg: s.bg,
            size_pct: s.size_pct,
            bold: s.bold,
            italic: s.italic,
            strike: s.strikethrough,
            hidden: s.is_hidden,
        },
    }
}

pub open spec fn spans_view(v: Seq<StyledSpan>) -> Seq<SpanView> {
    v.map_values(|s: StyledSpan| span_view(s))
}


// ── Executable passes ──

fn color_eq(a: Option<[u8; 3]>, b: Option<[u8; 3]>) -> (r: bool)
    ensures
        r == (a == b),
{
    match (a, b) {
        (Some(x), Some(y)) => {
            let r = x[0] == y[0] && x[1] == y[1] && x[2] == y[2];
            proof {
                if r {
                    assert(x@ =~= y@);
                    vstd::array::lemma_array_index(x, 0);
                }
            }
            assert(r ==> x == y) by {
                if r {
                    assert(x@ =~= y@);
                }
            }
            assert(x == y ==> r);
            r
        },
        (None, None) => true,
        _ => false,
    }
}

fn style_eq(a: &ByteStyle, b: &ByteStyle) -> (r: bool)
    ensures
        r == (*a == *b),
{
    color_eq(a.fg, b.fg) && color_eq(a.bg, b.bg) && a.size_pct == b.size_pct && a.bold == b.bold
        && a.italic == b.italic && a.strike == b.strike && a.hidden == b.hidden
}

/// A change applied to a range of bytes.
#[derive(Clone, Copy)]
enum FillOp {
    Hide,
    Background([u8; 3]),
    HeadingMarker(u32),
    TextIn(MdStateExec, [u8; 3]),
    CodeSpan,
}

spec fn apply_op(x: ByteStyle, op: FillOp) -> ByteStyle {
    match op {
        FillOp::Hide => ByteStyle { hidden: true, ..x },
        FillOp::Background(c) => ByteStyle { bg: Some(c), ..x },
        FillOp::HeadingMarker(hs) => ByteStyle { fg: Some(dim_color()), size_pct: hs, ..x },
        FillOp::TextIn(ms, accent) => text_style(x, ms@, accent),
        FillOp::CodeSpan => ByteStyle { fg: Some(code_fg()), bg: Some(code_bg()), ..x },
    }
}

fn apply_op_exec(x: ByteStyle, op: FillOp) -> (r: ByteStyle)
    ensures
        r == apply_op(x, op),
{
    match op {
        FillOp::Hide => ByteStyle { hidden: true, ..x },
        FillOp::Background(c) => ByteStyle { bg: Some(c), ..x },
        FillOp::HeadingMarker(hs) => ByteStyle { fg: Some([150, 150, 150]), size_pct: hs, ..x },
        FillOp::TextIn(ms, accent) => match ms.heading {
            Some(hs) => ByteStyle { size_pct: hs, fg: Some(accent), ..x },
            None => if ms.code_block {
                ByteStyle { fg: Some([190, 85, 15]), bg: Some([240, 240, 230]), ..x }
            } else {
                ByteStyle {
                    bold: if ms.strong > 0 { true } else { x.bold },
                    italic: if ms.emph > 0 { true } else { x.italic },
                    strike: if ms.strike > 0 { true } else { x.strike },
                    fg: if ms.link > 0 { Some([50, 110, 220]) } else { x.fg },
                    ..x
                }
            },
        },
        FillOp::CodeSpan => ByteStyle { fg: Some([190, 85, 15]), bg: Some([240, 240, 230]), ..x },
    }
}

/// Applies `op` to the bytes `[a, b)` of `st`.
fn fill_exec(st: &mut Vec<ByteStyle>, a: usize, b: usize, op: FillOp)
    requires
        b <= old(st)@.len(),
    ensures
        final(st)@ == fill(old(st)@, a as int, b as int, |x: ByteStyle| apply_op(x, op)),
{
    let ghost st0 = st@;
    if a >= b {
        assert(st@ =~= fill(st0, a as int, b as int, |x: ByteStyle| apply_op(x, op)));
        return;
    }
    let mut i = a;
    while i < b
        invariant
            a <= i <= b <= st@.len(),
            st@.len() == st0.len(),
            forall|j: int|
                0 <= j < st0.len() ==> #[trigger] st@[j] == if a <= j < i {
                    apply_op(st0[j], op)
                } else {
                    st0[j]
                },
        decreases b - i,
    {
        let x = st[i];
        st.set(i, apply_op_exec(x, op));
        i += 1;
    }
    assert(st@ =~= fill(st0, a as int, b as int, |x: ByteStyle| apply_op(x, op)));
}

/// Executable form of [`MdState`].
#[derive(Clone, Copy)]
struct MdStateExec {
    heading: Option<u32>,
    strong: usize,
    emph: usize,
    strike: usize,
    code_block: bool,
    link: usize,
    quote: usize,
}

impl View for MdStateExec {
    type V = MdState;

    closed spec fn view(&self) -> MdState {
        MdState {
            heading: self.heading,
            strong: self.strong as nat,
            emph: self.emph as nat,
            strike: self.strike as nat,
            code_block: self.code_block,
            link: self.link as nat,
            quote: self.quote as nat,
        }
    }
}

spec fn counters_below(ms: MdStateExec, bound: nat) -> bool {
    ms.strong <= bound && ms.emph <= bound && ms.strike <= bound && ms.link <= bound && ms.quote
        <= bound
}

fn dec(n: usize) -> (r: usize)
    ensures
        r == sat_dec(n as nat),
{
    if n > 0 {
        n - 1
    } else {
        0
    }
}

/// Applies one event.
fn span_event_exec(st: &mut Vec<ByteStyle>, ms: &mut MdStateExec, ev: &MdEvent, accent: [u8; 3], bound: usize)
    requires
        counters_below(*old(ms), bound as nat),
        bound < usize::MAX,
    ensures
        (final(st)@, final(ms)@) == span_event(old(st)@, old(ms)@, ev@, accent),
        counters_below(*final(ms), (bound + 1) as nat),
{
    let len = st.len();
    let s = if ev.start < len { ev.start } else { len };
    let e = if ev.end < len { ev.end } else { len };
    let ghost st0 = st@;
    let ghost ms0 = ms@;
    match &ev.kind {
        MdKind::Start(tag) => {
            let c = classify_tag(tag);
            match c {
                TagClass::Heading(level) => {
                    let lvl = if level >= 1 {
                        if level - 1 < 5 { level - 1 } else { 5 }
                    } else {
                        0
                    };
                    let hs = heading_pct_exec(lvl);
                    let hi = if e > s && e - s > level { s + level + 1 } else { e };
                    fill_exec(st, s, hi, FillOp::HeadingMarker(hs));
                    ms.heading = Some(hs);
                    proof {
                        assert(st@ =~= span_event(st0, ms0, ev@, accent).0);
                    }
                },
                TagClass::Quote => {
                    ms.quote = ms.quote + 1;
                },
                TagClass::CodeBlock => {
                    ms.code_block = true;
                },
                TagClass::Strong => {
                    ms.strong = ms.strong + 1;
                },
                TagClass::Emphasis => {
                    ms.emph = ms.emph + 1;
                },
                TagClass::Strike => {
                    ms.strike = ms.strike + 1;
                },
                TagClass::Link => {
                    ms.link = ms.link + 1;
                },
                _ => {},
            }
        },
        MdKind::End(tag) => {
            let c = classify_tag(tag);
            match c {
                TagClass::Heading(_) => {
                    ms.heading = None;
                },
                TagClass::Quote => {
                    ms.quote = dec(ms.quote);
                },
                TagClass::CodeBlock => {
                    ms.code_block = false;
                },
                TagClass::Strong => {
                    ms.strong = dec(ms.strong);
                },
                TagClass::Emphasis => {
                    ms.emph = dec(ms.emph);
                },
                TagClass::Strike => {
                    ms.strike = dec(ms.strike);
                },
                TagClass::Link => {
                    ms.link = dec(ms.link);
                },
                _ => {},
            }
        },
        MdKind::Text => {
            let snapshot = *ms;
            fill_exec(st, s, e, FillOp::TextIn(snapshot, accent));
            proof {
                assert(st@ =~= span_event(st0, ms0, ev@, accent).0);
            }
        },
        MdKind::Code => {
            fill_exec(st, s, e, FillOp::CodeSpan);
            proof {
                assert(st@ =~= span_event(st0, ms0, ev@, accent).0);
            }
        },
        _ => {},
    }
}


fn label_pass_exec(st: &mut Vec<ByteStyle>, labels: &Vec<SemanticLabel>, colors: &[[u8; 3]], hide: bool)
    ensures
        final(st)@ == label_pass(old(st)@, labels_view(labels@), labels@.len() as int, colors@, hide),
{
    let ghost st0 = st@;
    let ghost ls = labels_view(labels@);
    let mut k: usize = 0;
    while k < labels.len()
        invariant
            k <= labels@.len(),
            ls == labels_view(labels@),
            st@ == label_pass(st0, ls, k as int, colors@, hide),
            st@.len() == st0.len(),
        decreases labels@.len() - k,
    {
        let l = &labels[k];
        proof {
            assert(ls[k as int] == l@);
        }
        let len = st.len();
        let a = if l.start_byte < len { l.start_byte } else { len };
        let b = if l.end_byte < len { l.end_byte } else { len };
        if hide {
            fill_exec(st, a, b, FillOp::Hide);
        } else {
            let d = if l.depth > 0 { l.depth - 1 } else { 0 };
            let c = if d < colors.len() {
                colors[d]
            } else if colors.len() > 0 {
                colors[colors.len() - 1]
            } else {
                [150, 150, 150]
            };
            fill_exec(st, a, b, FillOp::Background(c));
        }
        proof {
            assert(st@ =~= label_pass(st0, ls, k + 1, colors@, hide));
        }
        k += 1;
    }
}

fn events_pass_exec(st: &mut Vec<ByteStyle>, events: &Vec<MdEvent>, accent: [u8; 3])
    ensures
        final(st)@ == events_pass(old(st)@, events_view(events@), events@.len() as int, accent).0,
{
    let ghost st0 = st@;
    let ghost evs = events_view(events@);
    let mut ms = MdStateExec {
        heading: None,
        strong: 0,
        emph: 0,
        strike: 0,
        code_block: false,
        link: 0,
        quote: 0,
    };
    let mut k: usize = 0;
    assert(ms@ == start_state());
    while k < events.len()
        invariant
            k <= events@.len(),
            evs == events_view(events@),
            (st@, ms@) == events_pass(st0, evs, k as int, accent),
            counters_below(ms, k as nat),
        decreases events@.len() - k,
    {
        proof {
            assert(evs[k as int] == events@[k as int]@);
        }
        span_event_exec(st, &mut ms, &events[k], accent, k);
        k += 1;
    }
}

/// The maximal runs of equal style, as spans.
fn build_spans(st: &Vec<ByteStyle>) -> (r: Vec<StyledSpan>)
    ensures
        spans_view(r@) == runs_from(st@, 0),
{
    let mut out: Vec<StyledSpan> = Vec::new();
    let len = st.len();
    if len == 0 {
        assert(spans_view(out@) =~= runs_from(st@, 0));
        return out;
    }
    let mut start: usize = 0;
    let mut i: usize = 1;
    proof {
        assert(spans_view(out@) + runs_from(st@, 0) =~= runs_from(st@, 0));
    }
    while i < len
        invariant
            len == st@.len(),
            start < i <= len,
            runs_from(st@, 0) == spans_view(out@) + runs_from(st@, start as int),
            run_end(st@, start as int, start + 1) == run_end(st@, start as int, i as int),
        decreases len - i,
    {
        if !style_eq(&st[i], &st[start]) {
            let x = st[start];
            let span = StyledSpan {
                start,
                end: i,
                fg: x.fg,
                bg: x.bg,
                size_pct: x.size_pct,
                bold: x.bold,
                italic: x.italic,
                strikethrough: x.strike,
                is_hidden: x.hidden,
            };
            let ghost before = out@;
            out.push(span);
            proof {
                assert(run_end(st@, start as int, i as int) == i);
                assert(runs_from(st@, start as int) == seq![
                    SpanView { start: start as nat, end: i as nat, style: st@[start as int] },
                ] + runs_from(st@, i as int));
                assert(spans_view(out@) =~= spans_view(before).push(span_view(span)));
                assert(span_view(span) == SpanView {
                    start: start as nat,
                    end: i as nat,
                    style: st@[start as int],
                });
                assert(spans_view(out@) + runs_from(st@, i as int) =~= spans_view(before) + (seq![
                    SpanView { start: start as nat, end: i as nat, style: st@[start as int] },
                ] + runs_from(st@, i as int)));
                assert(run_end(st@, i as int, i + 1) == run_end(st@, i as int, i + 1));
            }
            start = i;
        }
        i += 1;
    }
    let x = st[start];
    let span = StyledSpan {
        start,
        end: len,
        fg: x.fg,
        bg: x.bg,
        size_pct: x.size_pct,
        bold: x.bold,
        italic: x.italic,
        strikethrough: x.strike,
        is_hidden: x.hidden,
    };
    let ghost before = out@;
    out.push(span);
    proof {
        assert(run_end(st@, start as int, len as int) == len);
        assert(runs_from(st@, len as int) =~= Seq::<SpanView>::empty());
        assert(runs_from(st@, start as int) =~= seq![
            SpanView { start: start as nat, end: len as nat, style: st@[start as int] },
        ]);
        assert(spans_view(out@) =~= spans_view(before).push(span_view(span)));
        assert(spans_view(out@) =~= runs_from(st@, 0));
    }
    out
}

/// Styled spans of a text of `len` bytes from its labels and its Markdown events:
/// labels are hidden or tinted by level color, then headings, emphasis, strong,
/// strikethrough, links and code are styled, and equal neighbours merged.
pub fn markdown_spans_from_events(
    len: usize,
    labels: &Vec<SemanticLabel>,
    events: &Vec<MdEvent>,
    level_colors: &[[u8; 3]],
    theme_accent: [u8; 3],
    hide_labels: bool,
) -> (r: Vec<StyledSpan>)
    ensures
        spans_view(r@) == runs_from(
            byte_styles(
                len as nat,
                labels_view(labels@),
                events_view(events@),
                level_colors@,
                theme_accent,
                hide_labels,
            ),
            0,
        ),
{
    let mut st: Vec<ByteStyle> = Vec::new();
    let mut i: usize = 0;
    let plain = ByteStyle {
        fg: None,
        bg: None,
        size_pct: 100,
        bold: false,
        italic: false,
        strike: false,
        hidden: false,
    };
    while i < len
        invariant
            i <= len,
            st@ =~= Seq::new(i as nat, |j: int| plain_style()),
            plain == plain_style(),
        decreases len - i,
    {
        st.push(plain);
        i += 1;
    }
    label_pass_exec(&mut st, labels, level_colors, hide_labels);
    events_pass_exec(&mut st, events, theme_accent);
    build_spans(&st)
}

/// Styled spans for `text`: semantic labels (hidden, or tinted by the color of their
/// level) and Markdown styling, merged into maximal runs that cover every byte.
pub fn parse_markdown_to_spans(
    text: &str,
    level_colors: &[[u8; 3]],
    theme_accent: [u8; 3],
    _theme_text: [u8; 3],
    hide_labels: bool,
) -> (r: Vec<StyledSpan>)
    ensures
        spans_view(r@) == runs_from(
            byte_styles(
                crate::text::utf8_len(text@),
                parse_labels(text@, seq!['['], seq![']']),
                markdown_events(text@),
                level_colors@,
                theme_accent,
                hide_labels,
            ),
            0,
        ),
        forall|k: int|
            0 <= k < r@.len() ==> span_cut(text@, markdown_events(text@), (#[trigger] r@[k]).end as int),
{
    let len = byte_len(text);
    let labels = parse_semantic_labels(text);
    let events = markdown_event_list(text);
    let r = markdown_spans_from_events(len, &labels, &events, level_colors, theme_accent, hide_labels);
    proof {
        let evs = markdown_events(text@);
        assert forall|j: int| 0 <= j < evs.len() implies char_at_byte(text@, (#[trigger] evs[j]).start as int)
            >= 0 && char_at_byte(text@, evs[j].end as int) >= 0 by {
            assert(evs[j] == events@[j]@);
        }
        lemma_span_ends(text@, evs, level_colors@, theme_accent, hide_labels);
        assert forall|k: int| 0 <= k < r@.len() implies span_cut(text@, evs, (#[trigger] r@[k]).end as int) by {
            assert(spans_view(r@)[k] == span_view(r@[k]));
        }
    }
    r
}

// ── Laws ──

proof fn lemma_label_pass_len(st: Seq<ByteStyle>, ls: Seq<LabelView>, k: int, colors: Seq<[u8; 3]>, hide: bool)
    ensures
        label_pass(st, ls, k, colors, hide).len() == st.len(),
    decreases k,
{
    if k > 0 {
        lemma_label_pass_len(st, ls, k - 1, colors, hide);
    }
}

proof fn lemma_events_pass_len(st: Seq<ByteStyle>, evs: Seq<MdEventView>, k: int, accent: [u8; 3])
    ensures
        events_pass(st, evs, k, accent).0.len() == st.len(),
    decreases k,
{
    if k > 0 {
        lemma_events_pass_len(st, evs, k - 1, accent);
    }
}

/// The runs of `st` from `i` tile `[i, st.len())`: each nonempty, each starting where
/// the one before ends, each byte styled as its run, neighbouring runs styled apart.
proof fn lemma_runs_tile(st: Seq<ByteStyle>, i: int)
    requires
        0 <= i <= st.len(),
    ensures
        ({
            let rs = runs_from(st, i);
            &&& (rs.len() == 0 <==> i == st.len())
            &&& rs.len() > 0 ==> rs[0].start == i && rs.last().end == st.len()
            &&& forall|k: int| 0 <= k < rs.len() ==> #[trigger] rs[k].start < rs[k].end
            &&& forall|k: int| 0 <= k < rs.len() - 1 ==> #[trigger] rs[k].end == rs[k + 1].start
            &&& forall|k: int, b: int|
                0 <= k < rs.len() && rs[k].start <= b < rs[k].end ==> st[b] == #[trigger] rs[k].style
                    && #[trigger] st[b] == rs[k].style
            &&& forall|k: int| 0 <= k < rs.len() - 1 ==> #[trigger] rs[k].style != rs[k + 1].style
            &&& forall|k: int| 0 <= k < rs.len() ==> i <= (#[trigger] rs[k]).start && rs[k].end <= st.len()
        }),
    decreases st.len() - i,
{
    if i < st.len() {
        let e = run_end(st, i, i + 1);
        lemma_run_end(st, i, i + 1);
        lemma_runs_tile(st, e);
        let rest = runs_from(st, e);
        let rs = runs_from(st, i);
        let first = SpanView { start: i as nat, end: e as nat, style: st[i] };
        assert(rs == seq![first] + rest);
        assert forall|k: int| 0 <= k < rs.len() implies i <= (#[trigger] rs[k]).start && rs[k].end <= st.len() by {
            if k > 0 {
                assert(rs[k] == rest[k - 1]);
            }
        }
        assert forall|k: int| 0 <= k < rs.len() - 1 implies #[trigger] rs[k].end == rs[k + 1].start by {
            if k > 0 {
                assert(rs[k] == rest[k - 1]);
                assert(rs[k + 1] == rest[k]);
            } else {
                assert(rs[1] == rest[0]);
            }
        }
        assert forall|k: int| 0 <= k < rs.len() - 1 implies #[trigger] rs[k].style != rs[k + 1].style by {
            if k > 0 {
                assert(rs[k] == rest[k - 1]);
                assert(rs[k + 1] == rest[k]);
            } else {
                assert(rs[1] == rest[0]);
                assert(e < st.len());
            }
        }
        assert forall|k: int| 0 <= k < rs.len() implies #[trigger] rs[k].start < rs[k].end by {
            if k > 0 {
                assert(rs[k] == rest[k - 1]);
            }
        }
        assert forall|k: int, b: int|
            0 <= k < rs.len() && rs[k].start <= b < rs[k].end implies st[b] == #[trigger] rs[k].style
                && #[trigger] st[b] == rs[k].style by {
            if k > 0 {
                assert(rs[k] == rest[k - 1]);
            }
        }
        if rest.len() > 0 {
            assert(rs.last() == rest.last());
        }
    }
}

/// The highlight spans of a text tile it: they are nonempty, the first starts at byte
/// 0 and the last ends at the text's end, each starts where the one before ends, every
/// byte carries the style of the span that holds it, and neighbouring spans differ in
/// style. An empty text has no spans.
pub proof fn law_spans_tile_text(
    text: Seq<char>,
    level_colors: Seq<[u8; 3]>,
    accent: [u8; 3],
    hide_labels: bool,
)
    ensures
        ({
            let st = byte_styles(
                utf8_len(text),
                parse_labels(text, seq!['['], seq![']']),
                markdown_events(text),
                level_colors,
                accent,
                hide_labels,
            );
            let rs = runs_from(st, 0);
            &&& st.len() == utf8_len(text)
            &&& (rs.len() == 0 <==> utf8_len(text) == 0)
            &&& rs.len() > 0 ==> rs[0].start == 0 && rs.last().end == utf8_len(text)
            &&& forall|k: int| 0 <= k < rs.len() ==> #[trigger] rs[k].start < rs[k].end
            &&& forall|k: int| 0 <= k < rs.len() - 1 ==> #[trigger] rs[k].end == rs[k + 1].start
            &&& forall|k: int, b: int|
                0 <= k < rs.len() && rs[k].start <= b < rs[k].end ==> st[b] == #[trigger] rs[k].style
                    && #[trigger] st[b] == rs[k].style
            &&& forall|k: int| 0 <= k < rs.len() - 1 ==> #[trigger] rs[k].style != rs[k + 1].style
        }),
{
    let len = utf8_len(text);
    let ls = parse_labels(text, seq!['['], seq![']']);
    let evs = markdown_events(text);
    let base = Seq::new(len, |i: int| plain_style());
    lemma_label_pass_len(base, ls, ls.len() as int, level_colors, hide_labels);
    let labeled = label_pass(base, ls, ls.len() as int, level_colors, hide_labels);
    lemma_events_pass_len(labeled, evs, evs.len() as int, accent);
    let st = byte_styles(len, ls, evs, level_colors, accent, hide_labels);
    lemma_runs_tile(st, 0);
}


// ── What hiding hides ──

/// Byte `i` lies in the (clamped) range of one of the first `k` labels.
spec fn covered(ls: Seq<LabelView>, k: int, i: int, len: int) -> bool
    decreases k,
{
    if k <= 0 {
        false
    } else {
        covered(ls, k - 1, i, len) || (min_nat(ls[k - 1].start_byte as int, len) <= i < min_nat(
            ls[k - 1].end_byte as int,
            len,
        ))
    }
}

proof fn lemma_covered_exists(ls: Seq<LabelView>, k: int, i: int, len: int)
    requires
        0 <= k <= ls.len(),
        forall|j: int| 0 <= j < ls.len() ==> #[trigger] ls[j].end_byte <= len,
    ensures
        covered(ls, k, i, len) <==> exists|j: int|
            0 <= j < k && #[trigger] ls[j].start_byte <= i < ls[j].end_byte,
    decreases k,
{
    if k > 0 {
        lemma_covered_exists(ls, k - 1, i, len);
        let l = ls[k - 1];
        assert(l.end_byte <= len);
        if exists|j: int| 0 <= j < k && #[trigger] ls[j].start_byte <= i < ls[j].end_byte {
            let j = choose|j: int| 0 <= j < k && #[trigger] ls[j].start_byte <= i < ls[j].end_byte;
            if j < k - 1 {
                assert(exists|j2: int| 0 <= j2 < k - 1 && #[trigger] ls[j2].start_byte <= i < ls[j2].end_byte);
            }
        }
        if covered(ls, k - 1, i, len) {
            let j = choose|j: int| 0 <= j < k - 1 && #[trigger] ls[j].start_byte <= i < ls[j].end_byte;
            assert(0 <= j < k && ls[j].start_byte <= i < ls[j].end_byte);
        }
        if min_nat(l.start_byte as int, len) <= i < min_nat(l.end_byte as int, len) {
            assert(ls[k - 1].start_byte <= i < ls[k - 1].end_byte);
        }
    }
}

proof fn lemma_label_pass_hidden(st: Seq<ByteStyle>, ls: Seq<LabelView>, k: int, colors: Seq<[u8; 3]>, hide: bool)
    requires
        0 <= k <= ls.len(),
        forall|i: int| 0 <= i < st.len() ==> !(#[trigger] st[i]).hidden,
    ensures
        label_pass(st, ls, k, colors, hide).len() == st.len(),
        forall|i: int|
            0 <= i < st.len() ==> (#[trigger] label_pass(st, ls, k, colors, hide)[i].hidden <==> hide
                && covered(ls, k, i, st.len() as int)),
    decreases k,
{
    if k > 0 {
        lemma_label_pass_hidden(st, ls, k - 1, colors, hide);
    }
}

proof fn lemma_events_keep_hidden(st: Seq<ByteStyle>, evs: Seq<MdEventView>, k: int, accent: [u8; 3])
    requires
        0 <= k <= evs.len(),
    ensures
        events_pass(st, evs, k, accent).0.len() == st.len(),
        forall|i: int|
            0 <= i < st.len() ==> (#[trigger] events_pass(st, evs, k, accent).0[i]).hidden == st[i].hidden,
    decreases k,
{
    if k > 0 {
        lemma_events_keep_hidden(st, evs, k - 1, accent);
        let prev = events_pass(st, evs, k - 1, accent);
        let r = span_event(prev.0, prev.1, evs[k - 1], accent);
        assert(events_pass(st, evs, k, accent) == r);
        assert forall|i: int| 0 <= i < st.len() implies (#[trigger] r.0[i]).hidden == prev.0[i].hidden by {
            assert(r.0.len() == prev.0.len());
        }
    }
}

/// Hiding labels hides exactly their bytes: with `hide_labels` a byte of the text is
/// hidden if and only if it lies inside the byte range of one of its labels, and
/// without it no byte is. Markdown styling never changes what is hidden.
pub proof fn law_hidden_bytes_are_labels(
    text: Seq<char>,
    level_colors: Seq<[u8; 3]>,
    accent: [u8; 3],
    hide_labels: bool,
)
    ensures
        ({
            let ls = parse_labels(text, seq!['['], seq![']']);
            let st = byte_styles(utf8_len(text), ls, markdown_events(text), level_colors, accent, hide_labels);
            forall|b: int|
                0 <= b < utf8_len(text) ==> ((#[trigger] st[b]).hidden <==> hide_labels && exists|j: int|
                    0 <= j < ls.len() && #[trigger] ls[j].start_byte <= b < ls[j].end_byte)
        }),
{
    let len = utf8_len(text);
    let ls = parse_labels(text, seq!['['], seq![']']);
    let evs = markdown_events(text);
    let base = Seq::new(len, |i: int| plain_style());
    crate::label_laws::law_labels_ordered(text, seq!['['], seq![']']);
    lemma_label_pass_hidden(base, ls, ls.len() as int, level_colors, hide_labels);
    let labeled = label_pass(base, ls, ls.len() as int, level_colors, hide_labels);
    lemma_events_keep_hidden(labeled, evs, evs.len() as int, accent);
    let st = byte_styles(len, ls, evs, level_colors, accent, hide_labels);
    assert forall|b: int| 0 <= b < len implies ((#[trigger] st[b]).hidden <==> hide_labels && exists|j: int|
        0 <= j < ls.len() && #[trigger] ls[j].start_byte <= b < ls[j].end_byte) by {
        lemma_covered_exists(ls, ls.len() as int, b, len as int);
    }
}


// ── Where spans end ──

/// Where the marker fill of a heading that starts with `ev` ends, in a text of `len`
/// bytes: after the `#` run and one more byte, cut at the heading's end.
pub open spec fn marker_end(ev: MdEventView, len: int) -> Option<int> {
    match ev.kind {
        MdKindView::Start(tag) => match tag_class(tag) {
            TagClass::Heading(level) => {
                let s = min_nat(ev.start as int, len);
                let e = min_nat(ev.end as int, len);
                Some(min_nat(s + level + 1, e))
            },
            _ => None,
        },
        _ => None,
    }
}

/// A place where a span may end: a character boundary of `text`, or the end of a
/// heading's marker fill (which, for a heading underlined with `=` or `-`, can fall
/// inside a character).
pub open spec fn span_cut(text: Seq<char>, evs: Seq<MdEventView>, b: int) -> bool {
    char_at_byte(text, b) >= 0 || exists|j: int|
        0 <= j < evs.len() && #[trigger] marker_end(evs[j], utf8_len(text) as int) == Some(b)
}

/// The style of byte `b` differs from that of the byte before it.
pub open spec fn style_changes(st: Seq<ByteStyle>, b: int) -> bool {
    st[b] != st[b - 1]
}

/// Styles change from one byte to the next only at span cuts.
pub open spec fn changes_at(st: Seq<ByteStyle>, text: Seq<char>, evs: Seq<MdEventView>) -> bool {
    forall|b: int| 0 < b < st.len() && #[trigger] style_changes(st, b) ==> span_cut(text, evs, b)
}

proof fn lemma_fill_changes(
    st: Seq<ByteStyle>,
    a: int,
    c: int,
    f: spec_fn(ByteStyle) -> ByteStyle,
    text: Seq<char>,
    evs: Seq<MdEventView>,
)
    requires
        changes_at(st, text, evs),
        0 < a < st.len() ==> span_cut(text, evs, a),
        0 < c < st.len() ==> span_cut(text, evs, c),
    ensures
        changes_at(fill(st, a, c, f), text, evs),
{
    let r = fill(st, a, c, f);
    assert forall|b: int| 0 < b < r.len() && #[trigger] style_changes(r, b) implies span_cut(text, evs, b) by {
        if b != a && b != c && !style_changes(st, b) {
            assert(r[b] == r[b - 1]);
        }
    }
}

proof fn lemma_label_pass_changes(
    st: Seq<ByteStyle>,
    ls: Seq<LabelView>,
    k: int,
    colors: Seq<[u8; 3]>,
    hide: bool,
    text: Seq<char>,
    evs: Seq<MdEventView>,
)
    requires
        0 <= k <= ls.len(),
        changes_at(st, text, evs),
        forall|j: int|
            0 <= j < ls.len() ==> char_at_byte(text, (#[trigger] ls[j]).start_byte as int) >= 0 && char_at_byte(
                text,
                ls[j].end_byte as int,
            ) >= 0,
    ensures
        changes_at(label_pass(st, ls, k, colors, hide), text, evs),
        label_pass(st, ls, k, colors, hide).len() == st.len(),
    decreases k,
{
    if k > 0 {
        lemma_label_pass_changes(st, ls, k - 1, colors, hide, text, evs);
        let prev = label_pass(st, ls, k - 1, colors, hide);
        let l = ls[k - 1];
        let a = min_nat(l.start_byte as int, st.len() as int);
        let b = min_nat(l.end_byte as int, st.len() as int);
        if hide {
            lemma_fill_changes(prev, a, b, |x: ByteStyle| ByteStyle { hidden: true, ..x }, text, evs);
        } else {
            let c = level_color(l.depth, colors);
            lemma_fill_changes(prev, a, b, |x: ByteStyle| ByteStyle { bg: Some(c), ..x }, text, evs);
        }
    }
}

proof fn lemma_events_changes(st: Seq<ByteStyle>, evs: Seq<MdEventView>, k: int, accent: [u8; 3], text: Seq<char>)
    requires
        0 <= k <= evs.len(),
        st.len() == utf8_len(text),
        changes_at(st, text, evs),
        forall|j: int|
            0 <= j < evs.len() ==> char_at_byte(text, (#[trigger] evs[j]).start as int) >= 0 && char_at_byte(
                text,
                evs[j].end as int,
            ) >= 0,
    ensures
        changes_at(events_pass(st, evs, k, accent).0, text, evs),
        events_pass(st, evs, k, accent).0.len() == st.len(),
    decreases k,
{
    if k > 0 {
        lemma_events_changes(st, evs, k - 1, accent, text);
        let prev = events_pass(st, evs, k - 1, accent);
        let ev = evs[k - 1];
        let len = prev.0.len() as int;
        let s = min_nat(ev.start as int, len);
        let e = min_nat(ev.end as int, len);
        let ms = prev.1;
        match ev.kind {
            MdKindView::Start(tag) => match tag_class(tag) {
                TagClass::Heading(level) => {
                    let lvl = if level >= 1 { min_nat(level - 1, 5) } else { 0 };
                    let hs = heading_pct(lvl);
                    assert(marker_end(evs[k - 1], utf8_len(text) as int) == Some(min_nat(s + level + 1, e)));
                    lemma_fill_changes(
                        prev.0,
                        s,
                        min_nat(s + level + 1, e),
                        |x: ByteStyle| ByteStyle { fg: Some(dim_color()), size_pct: hs, ..x },
                        text,
                        evs,
                    );
                },
                _ => {},
            },
            MdKindView::Text => {
                lemma_fill_changes(prev.0, s, e, |x: ByteStyle| text_style(x, ms, accent), text, evs);
            },
            MdKindView::Code => {
                lemma_fill_changes(
                    prev.0,
                    s,
                    e,
                    |x: ByteStyle| ByteStyle { fg: Some(code_fg()), bg: Some(code_bg()), ..x },
                    text,
                    evs,
                );
            },
            _ => {},
        }
    }
}

/// Where Markdown events start and end on character boundaries, every highlight span
/// ends at a span cut: a character boundary, or the end of a heading's marker fill.
pub proof fn lemma_span_ends(
    text: Seq<char>,
    evs: Seq<MdEventView>,
    level_colors: Seq<[u8; 3]>,
    accent: [u8; 3],
    hide_labels: bool,
)
    requires
        forall|j: int|
            0 <= j < evs.len() ==> char_at_byte(text, (#[trigger] evs[j]).start as int) >= 0 && char_at_byte(
                text,
                evs[j].end as int,
            ) >= 0,
    ensures
        ({
            let st = byte_styles(
                utf8_len(text),
                parse_labels(text, seq!['['], seq![']']),
                evs,
                level_colors,
                accent,
                hide_labels,
            );
            forall|k: int| 0 <= k < runs_from(st, 0).len() ==> span_cut(text, evs, (#[trigger] runs_from(st, 0)[k]).end as int)
        }),
{
    let len = utf8_len(text);
    let ls = parse_labels(text, seq!['['], seq![']']);
    let st = byte_styles(len, ls, evs, level_colors, accent, hide_labels);
    lemma_styles_change_at_cuts(text, evs, level_colors, accent, hide_labels);
    assert(text.take(text.len() as int) =~= text);
    crate::label_laws::lemma_char_at_byte_exact(text, text.len() as int);
    lemma_runs_end_at_cuts(st, text, evs);
}

proof fn lemma_styles_change_at_cuts(
    text: Seq<char>,
    evs: Seq<MdEventView>,
    level_colors: Seq<[u8; 3]>,
    accent: [u8; 3],
    hide_labels: bool,
)
    requires
        forall|j: int|
            0 <= j < evs.len() ==> char_at_byte(text, (#[trigger] evs[j]).start as int) >= 0 && char_at_byte(
                text,
                evs[j].end as int,
            ) >= 0,
    ensures
        changes_at(
            byte_styles(utf8_len(text), parse_labels(text, seq!['['], seq![']']), evs, level_colors, accent, hide_labels),
            text,
            evs,
        ),
        byte_styles(utf8_len(text), parse_labels(text, seq!['['], seq![']']), evs, level_colors, accent, hide_labels).len()
            == utf8_len(text),
{
    let len = utf8_len(text);
    let ls = parse_labels(text, seq!['['], seq![']']);
    let base = Seq::new(len, |i: int| plain_style());
    assert(forall|j: int|
        0 <= j < ls.len() ==> char_at_byte(text, (#[trigger] ls[j]).start_byte as int) >= 0 && char_at_byte(
            text,
            ls[j].end_byte as int,
        ) >= 0) by {
        crate::label_laws::law_labels_ordered(text, seq!['['], seq![']']);
    }
    assert(changes_at(base, text, evs));
    lemma_label_pass_changes(base, ls, ls.len() as int, level_colors, hide_labels, text, evs);
    let labeled = label_pass(base, ls, ls.len() as int, level_colors, hide_labels);
    lemma_events_changes(labeled, evs, evs.len() as int, accent, text);
}

proof fn lemma_run_boundary(st: Seq<ByteStyle>, k: int)
    requires
        0 <= k < runs_from(st, 0).len() - 1,
    ensures
        0 < runs_from(st, 0)[k].end < st.len(),
        style_changes(st, runs_from(st, 0)[k].end as int),
{
    lemma_runs_tile(st, 0);
    let rs = runs_from(st, 0);
    let b = rs[k].end as int;
    assert(rs[k].end == rs[k + 1].start);
    assert(rs[k + 1].start < rs[k + 1].end);
    assert(rs[k].start < rs[k].end);
    assert(st[b] == rs[k + 1].style);
    assert(st[b - 1] == rs[k].style);
    assert(rs[k].style != rs[k + 1].style);
}

proof fn lemma_runs_end_at_cuts(st: Seq<ByteStyle>, text: Seq<char>, evs: Seq<MdEventView>)
    requires
        changes_at(st, text, evs),
        char_at_byte(text, st.len() as int) >= 0,
    ensures
        forall|k: int| 0 <= k < runs_from(st, 0).len() ==> span_cut(text, evs, (#[trigger] runs_from(st, 0)[k]).end as int),
{
    let rs = runs_from(st, 0);
    assert forall|k: int| 0 <= k < rs.len() implies span_cut(text, evs, (#[trigger] rs[k]).end as int) by {
        if k < rs.len() - 1 {
            lemma_run_boundary(st, k);
        } else {
            lemma_runs_tile(st, 0);
        }
    }
}


// ── Label tints ──

proof fn lemma_label_pass_tint(
    st: Seq<ByteStyle>,
    ls: Seq<LabelView>,
    k: int,
    colors: Seq<[u8; 3]>,
    j: int,
    b: int,
)
    requires
        0 <= j < k <= ls.len(),
        forall|x: int, y: int| 0 <= x < y < ls.len() ==> #[trigger] ls[x].end_byte <= #[trigger] ls[y].start_byte,
        forall|x: int| 0 <= x < ls.len() ==> (#[trigger] ls[x]).start_byte < ls[x].end_byte <= st.len(),
        ls[j].start_byte <= b < ls[j].end_byte,
    ensures
        label_pass(st, ls, k, colors, false)[b].bg == Some(level_color(ls[j].depth, colors)),
    decreases k,
{
    lemma_label_pass_len(st, ls, k - 1, colors, false);
    if k - 1 > j {
        lemma_label_pass_tint(st, ls, k - 1, colors, j, b);
        assert(ls[j].end_byte <= ls[k - 1].start_byte);
    }
}

proof fn lemma_events_bg(st: Seq<ByteStyle>, evs: Seq<MdEventView>, k: int, accent: [u8; 3], b: int)
    requires
        0 <= k <= evs.len(),
        0 <= b < st.len(),
    ensures
        events_pass(st, evs, k, accent).0[b].bg == st[b].bg || events_pass(st, evs, k, accent).0[b].bg == Some(
            code_bg(),
        ),
    decreases k,
{
    if k > 0 {
        lemma_events_bg(st, evs, k - 1, accent, b);
        lemma_events_pass_len(st, evs, k - 1, accent);
    }
}

/// With labels shown, every byte of a label is tinted by the label's nesting level:
/// the level colour at `depth - 1`, the last level colour when there are fewer levels,
/// gray when there are none. Markdown can only tint such a byte as code instead, and
/// without Markdown events the label's tint stands.
pub proof fn law_label_tint(text: Seq<char>, evs: Seq<MdEventView>, colors: Seq<[u8; 3]>, accent: [u8; 3])
    ensures
        ({
            let ls = parse_labels(text, seq!['['], seq![']']);
            let st = byte_styles(utf8_len(text), ls, evs, colors, accent, false);
            forall|j: int, b: int|
                #![trigger ls[j], st[b]]
                0 <= j < ls.len() && ls[j].start_byte <= b < ls[j].end_byte ==> {
                    let d = if ls[j].depth > 0 { ls[j].depth - 1 } else { 0 };
                    let tint = if d < colors.len() {
                        colors[d]
                    } else if colors.len() > 0 {
                        colors[colors.len() - 1]
                    } else {
                        [150u8, 150u8, 150u8]
                    };
                    &&& st[b].bg == Some(tint) || st[b].bg == Some(code_bg())
                    &&& evs.len() == 0 ==> st[b].bg == Some(tint)
                }
        }),
{
    let len = utf8_len(text);
    let ls = parse_labels(text, seq!['['], seq![']']);
    let base = Seq::new(len, |i: int| plain_style());
    crate::label_laws::law_labels_ordered(text, seq!['['], seq![']']);
    let labeled = label_pass(base, ls, ls.len() as int, colors, false);
    lemma_label_pass_len(base, ls, ls.len() as int, colors, false);
    let st = byte_styles(len, ls, evs, colors, accent, false);
    assert forall|j: int, b: int|
        #![trigger ls[j], st[b]]
        0 <= j < ls.len() && ls[j].start_byte <= b < ls[j].end_byte implies {
        let d = if ls[j].depth > 0 { ls[j].depth - 1 } else { 0 };
        let tint = if d < colors.len() {
            colors[d]
        } else if colors.len() > 0 {
            colors[colors.len() - 1]
        } else {
            [150u8, 150u8, 150u8]
        };
        &&& st[b].bg == Some(tint) || st[b].bg == Some(code_bg())
        &&& evs.len() == 0 ==> st[b].bg == Some(tint)
    } by {
        lemma_label_pass_tint(base, ls, ls.len() as int, colors, j, b);
        lemma_events_bg(labeled, evs, evs.len() as int, accent, b);
    }
}

} // verus!
