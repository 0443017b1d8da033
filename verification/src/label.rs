//! Semantic labels: `[<level prefix><category>-<text>|<prop>|<prop>...]`.
//!
//! A label is an open delimiter, a nonempty run of characters that are not
//! delimiter characters, and a close delimiter.  Its inside is read as leading
//! dots (relative depth), a category up to the first `-` or `|`, an optional
//! `-text` up to the next `|`, and optional `|`-separated properties (which may
//! not span lines).

use vstd::prelude::*;
use crate::text::{
    byte_len, char_len_utf8, chars_of, decimal, lemma_utf8_len_step, lemma_utf8_len_take,
    push_str, string_of, string_push, sub_chars, trim, trim_bounds,
    usize_to_string, utf8_len,
};

verus! {

/// Preset color palette for auto-registering new label types.
pub const LABEL_PALETTE: [[u8; 3]; 12] = [
    [230, 80, 80],
    [80, 180, 80],
    [80, 120, 230],
    [230, 180, 50],
    [180, 80, 200],
    [80, 200, 200],
    [200, 120, 60],
    [120, 200, 120],
    [200, 80, 140],
    [140, 140, 230],
    [200, 200, 80],
    [80, 160, 160],
];

/// Default open delimiter.
pub const DEFAULT_OPEN: &'static str = "[";

/// Default close delimiter.
pub const DEFAULT_CLOSE: &'static str = "]";

/// A user-defined label type with display properties.
#[derive(Clone, Debug)]
pub struct LabelType {
    pub name: String,
    pub color: [u8; 3],
    pub description: String,
}

/// Mathematical view of a [`LabelType`].
pub struct LabelTypeView {
    pub name: Seq<char>,
    pub color: [u8; 3],
    pub description: Seq<char>,
}

impl View for LabelType {
    type V = LabelTypeView;

    open spec fn view(&self) -> LabelTypeView {
        LabelTypeView { name: self.name@, color: self.color, description: self.description@ }
    }
}

/// A label found in a document.
#[derive(Clone, Debug)]
pub struct SemanticLabel {
    pub depth: usize,
    pub category: String,
    pub parent_category: Option<String>,
    pub text: String,
    pub properties: Vec<String>,
    /// 1-based number of the line the label starts on.
    pub line: usize,
    pub start_byte: usize,
    pub end_byte: usize,
    pub raw: String,
}

/// Mathematical view of a [`SemanticLabel`].
pub struct LabelView {
    pub depth: nat,
    pub category: Seq<char>,
    pub parent_category: Option<Seq<char>>,
    pub text: Seq<char>,
    pub properties: Seq<Seq<char>>,
    pub line: nat,
    pub start_byte: nat,
    pub end_byte: nat,
    pub raw: Seq<char>,
}

pub open spec fn strings_view(v: Seq<String>) -> Seq<Seq<char>> {
    v.map_values(|x: String| x@)
}

pub open spec fn opt_string_view(o: Option<String>) -> Option<Seq<char>> {
    match o {
        Some(x) => Some(x@),
        None => None,
    }
}

impl View for SemanticLabel {
    type V = LabelView;

    open spec fn view(&self) -> LabelView {
        LabelView {
            depth: self.depth as nat,
            category: self.category@,
            parent_category: opt_string_view(self.parent_category),
            text: self.text@,
            properties: strings_view(self.properties@),
            line: self.line as nat,
            start_byte: self.start_byte as nat,
            end_byte: self.end_byte as nat,
            raw: self.raw@,
        }
    }
}

pub open spec fn labels_view(v: Seq<SemanticLabel>) -> Seq<LabelView> {
    v.map_values(|l: SemanticLabel| l@)
}

// ── The label grammar ──

/// `t` occurs in `s` at position `p`.
pub open spec fn occurs_at(s: Seq<char>, p: int, t: Seq<char>) -> bool {
    0 <= p && p + t.len() <= s.len() && s.subrange(p, p + t.len()) == t
}

/// A character of either delimiter; the inside of a label holds none.
pub open spec fn is_delim_char(c: char, open: Seq<char>, close: Seq<char>) -> bool {
    open.contains(c) || close.contains(c)
}

/// End of the run of non-delimiter characters starting at `i`.
pub open spec fn run_end(s: Seq<char>, i: int, open: Seq<char>, close: Seq<char>) -> int
    decreases s.len() - i,
{
    if i >= s.len() || i < 0 {
        i
    } else if is_delim_char(s[i], open, close) {
        i
    } else {
        run_end(s, i + 1, open, close)
    }
}

/// End of the label that starts at `p`, if one does.
pub open spec fn match_at(s: Seq<char>, p: int, open: Seq<char>, close: Seq<char>) -> Option<int> {
    let q = p + open.len();
    if !occurs_at(s, p, open) {
        None
    } else {
        let r = run_end(s, q, open, close);
        if r > q && occurs_at(s, r, close) {
            Some(r + close.len())
        } else {
            None
        }
    }
}

pub proof fn lemma_run_end(s: Seq<char>, i: int, open: Seq<char>, close: Seq<char>)
    requires
        0 <= i <= s.len(),
    ensures
        i <= run_end(s, i, open, close) <= s.len(),
        forall|k: int| i <= k < run_end(s, i, open, close) ==> !is_delim_char(#[trigger] s[k], open, close),
        run_end(s, i, open, close) < s.len() ==> is_delim_char(s[run_end(s, i, open, close)], open, close),
    decreases s.len() - i,
{
    if i < s.len() && !is_delim_char(s[i], open, close) {
        lemma_run_end(s, i + 1, open, close);
    }
}

pub proof fn lemma_match_at(s: Seq<char>, p: int, open: Seq<char>, close: Seq<char>)
    requires
        0 <= p,
        match_at(s, p, open, close) is Some,
    ensures
        p + open.len() < match_at(s, p, open, close)->0 - close.len(),
        match_at(s, p, open, close)->0 <= s.len(),
{
    lemma_run_end(s, p + open.len(), open, close);
}

/// Labels (start, end) found scanning from position `i`, leftmost first.
pub open spec fn scan(s: Seq<char>, i: int, open: Seq<char>, close: Seq<char>) -> Seq<(int, int)>
    decreases s.len() - i,
{
    if i >= s.len() || i < 0 {
        seq![]
    } else {
        match match_at(s, i, open, close) {
            Some(e) => {
                proof {
                    lemma_match_at(s, i, open, close);
                }
                seq![(i, e)] + scan(s, e, open, close)
            },
            None => scan(s, i + 1, open, close),
        }
    }
}

/// First index in `[i, hi)` whose character differs from `c`, or `hi`.
pub open spec fn skip_char(s: Seq<char>, i: int, hi: int, c: char) -> int
    decreases hi - i,
{
    if i >= hi {
        hi
    } else if s[i] != c {
        i
    } else {
        skip_char(s, i + 1, hi, c)
    }
}

/// First index in `[i, hi)` holding `c`, or `hi`.
pub open spec fn find_char(s: Seq<char>, i: int, hi: int, c: char) -> int
    decreases hi - i,
{
    if i >= hi {
        hi
    } else if s[i] == c {
        i
    } else {
        find_char(s, i + 1, hi, c)
    }
}

/// First index in `[i, hi)` holding `-` or `|`, or `hi`.
pub open spec fn find_dash_or_bar(s: Seq<char>, i: int, hi: int) -> int
    decreases hi - i,
{
    if i >= hi {
        hi
    } else if s[i] == '-' || s[i] == '|' {
        i
    } else {
        find_dash_or_bar(s, i + 1, hi)
    }
}

/// How the inside `s[lo..hi]` of a label divides: leading dots end at `dots_end`,
/// the category is `s[dots_end..cat_end]`, then the optional text and properties.
pub struct Parts {
    pub dots_end: int,
    pub cat_end: int,
    pub desc: Option<(int, int)>,
    pub props: Option<(int, int)>,
}

/// The division of a label's inside, or `None` where the properties span lines.
pub open spec fn inner_parts(s: Seq<char>, lo: int, hi: int) -> Option<Parts> {
    let d = skip_char(s, lo, hi, '.');
    let i = find_dash_or_bar(s, d, hi);
    if i >= hi {
        Some(Parts { dots_end: d, cat_end: i, desc: None, props: None })
    } else if s[i] == '|' {
        if find_char(s, i + 1, hi, '\n') < hi {
            None
        } else {
            Some(Parts { dots_end: d, cat_end: i, desc: None, props: Some((i + 1, hi)) })
        }
    } else {
        let j = find_char(s, i + 1, hi, '|');
        if j >= hi {
            Some(Parts { dots_end: d, cat_end: i, desc: Some((i + 1, hi)), props: None })
        } else if find_char(s, j + 1, hi, '\n') < hi {
            None
        } else {
            Some(Parts { dots_end: d, cat_end: i, desc: Some((i + 1, j)), props: Some((j + 1, hi)) })
        }
    }
}

/// Number of occurrences of `c` in `s`.
pub open spec fn count_char(s: Seq<char>, c: char) -> nat
    decreases s.len(),
{
    if s.len() == 0 {
        0
    } else {
        count_char(s.drop_last(), c) + if s.last() == c { 1nat } else { 0nat }
    }
}

/// Pieces of `s[start..end]` between `c` separators (`str::split`).
pub open spec fn split_ranges(s: Seq<char>, start: int, end: int, c: char) -> Seq<(int, int)>
    decreases end + 1 - start,
{
    if start > end {
        seq![]
    } else {
        let j = find_char(s, start, end, c);
        if j >= end {
            seq![(start, end)]
        } else {
            proof {
                lemma_find_char(s, start, end, c);
            }
            seq![(start, j)] + split_ranges(s, j + 1, end, c)
        }
    }
}

pub proof fn lemma_find_char(s: Seq<char>, i: int, hi: int, c: char)
    requires
        i <= hi,
    ensures
        i <= find_char(s, i, hi, c) <= hi,
        find_char(s, i, hi, c) < hi ==> s[find_char(s, i, hi, c)] == c,
        forall|k: int| i <= k < find_char(s, i, hi, c) ==> s[k] != c,
    decreases hi - i,
{
    if i < hi && s[i] != c {
        lemma_find_char(s, i + 1, hi, c);
    }
}

/// `s[a..b]` with surrounding whitespace removed, for `(a, b)` given.
pub open spec fn trimmed(s: Seq<char>, r: Option<(int, int)>) -> Seq<char> {
    match r {
        Some(ab) => trim(s.subrange(ab.0, ab.1)),
        None => seq![],
    }
}

/// The label properties written in `props`.
pub open spec fn properties_of(props: Seq<char>) -> Seq<Seq<char>> {
    if props.len() == 0 {
        seq![]
    } else {
        trimmed_pieces(props, split_ranges(props, 0, props.len() as int, '|'))
    }
}

/// Each range of `rs` cut from `t` and trimmed.
pub open spec fn trimmed_pieces(t: Seq<char>, rs: Seq<(int, int)>) -> Seq<Seq<char>> {
    rs.map_values(|r: (int, int)| trim(t.subrange(r.0, r.1)))
}

/// Auto-numbering state: the counter and the identifier at each depth.
pub struct CatState {
    pub counters: Seq<nat>,
    pub ids: Seq<Seq<char>>,
}

pub open spec fn fit_counters(c: Seq<nat>, depth: nat) -> Seq<nat> {
    if c.len() >= depth {
        c.take(depth as int)
    } else {
        c + Seq::new((depth - c.len()) as nat, |i: int| 0nat)
    }
}

pub open spec fn fit_ids(ids: Seq<Seq<char>>, depth: nat) -> Seq<Seq<char>> {
    if ids.len() >= depth {
        ids.take(depth as int)
    } else {
        ids + Seq::new((depth - ids.len()) as nat, |i: int| Seq::<char>::empty())
    }
}

/// `parent.name`, or `name` when there is no parent identifier.
pub open spec fn join_id(parent: Seq<char>, name: Seq<char>) -> Seq<char> {
    if parent.len() == 0 {
        name
    } else {
        parent + seq!['.'] + name
    }
}

/// The category of a label with `dots` leading dots, written category `raw` and
/// depth `depth`, and the numbering state after it.  An empty category is numbered
/// by the counter at its depth; a relative one (leading dots) hangs under the
/// identifier at the depth above.
pub open spec fn category_step(st: CatState, dots: nat, raw: Seq<char>, depth: nat) -> (
    Seq<char>,
    CatState,
) {
    let cs = fit_counters(st.counters, depth);
    let ids = fit_ids(st.ids, depth);
    let parent = if dots > 0 { ids[depth - 2] } else { Seq::<char>::empty() };
    if raw.len() > 0 {
        let cat = join_id(parent, raw);
        (cat, CatState { counters: cs, ids: ids.update(depth - 1, cat) })
    } else {
        let n = cs[depth - 1] + 1;
        let cat = join_id(parent, decimal(n));
        (cat, CatState { counters: cs.update(depth - 1, n), ids: ids.update(depth - 1, cat) })
    }
}

/// Depth of a label: its leading dots, plus the dots inside its category, plus one.
pub open spec fn label_depth(s: Seq<char>, lo: int, parts: Parts) -> nat {
    ((parts.dots_end - lo) + count_char(trim(s.subrange(parts.dots_end, parts.cat_end)), '.')
        + 1) as nat
}

/// The label spanning `s[p..e]` (delimiter lengths `ol`, `cl`) and the state after it.
pub open spec fn make_label(
    s: Seq<char>,
    p: int,
    e: int,
    ol: int,
    cl: int,
    parts: Parts,
    st: CatState,
) -> (LabelView, CatState) {
    let lo = p + ol;
    let raw_cat = trim(s.subrange(parts.dots_end, parts.cat_end));
    let depth = label_depth(s, lo, parts);
    let step = category_step(st, (parts.dots_end - lo) as nat, raw_cat, depth);
    (
        LabelView {
            depth,
            category: step.0,
            parent_category: None,
            text: trimmed(s, parts.desc),
            properties: properties_of(trimmed(s, parts.props)),
            line: count_char(s.take(p), '\n') + 1,
            start_byte: utf8_len(s.take(p)),
            end_byte: utf8_len(s.take(e)),
            raw: s.subrange(lo, e - cl),
        },
        step.1,
    )
}

/// The labels among the first `k` delimited spans `ms`, with the numbering state.
pub open spec fn labels_fold(s: Seq<char>, ms: Seq<(int, int)>, ol: int, cl: int, k: int) -> (
    Seq<LabelView>,
    CatState,
)
    decreases k,
{
    if k <= 0 {
        (seq![], CatState { counters: seq![], ids: seq![] })
    } else {
        let prev = labels_fold(s, ms, ol, cl, k - 1);
        let (p, e) = ms[k - 1];
        match inner_parts(s, p + ol, e - cl) {
            None => prev,
            Some(parts) => {
                let step = make_label(s, p, e, ol, cl, parts, prev.1);
                (prev.0.push(step.0), step.1)
            },
        }
    }
}

/// The labels of `s` with delimiters `open` and `close`.  With both delimiters
/// empty there are none.
pub open spec fn parse_labels(s: Seq<char>, open: Seq<char>, close: Seq<char>) -> Seq<LabelView> {
    if open.len() == 0 && close.len() == 0 {
        seq![]
    } else {
        let ms = scan(s, 0, open, close);
        labels_fold(s, ms, open.len() as int, close.len() as int, ms.len() as int).0
    }
}


// ── Executable scanning ──

/// Whether `t` occurs in `s` at `p`.
pub fn occurs_at_exec(s: &Vec<char>, p: usize, t: &Vec<char>) -> (r: bool)
    ensures
        r == occurs_at(s@, p as int, t@),
{
    if p > s.len() || t.len() > s.len() - p {
        return false;
    }
    let mut k: usize = 0;
    while k < t.len()
        invariant
            p + t@.len() <= s@.len(),
            s@.len() == s.len(),
            k <= t@.len(),
            forall|m: int| 0 <= m < k ==> s@[p + m] == t@[m],
        decreases t@.len() - k,
    {
        if s[p + k] != t[k] {
            assert(s@.subrange(p as int, p + t@.len())[k as int] != t@[k as int]);
            return false;
        }
        k += 1;
    }
    assert(s@.subrange(p as int, p + t@.len()) == t@);
    true
}

fn contains_char(t: &Vec<char>, c: char) -> (r: bool)
    ensures
        r == t@.contains(c),
{
    let mut k: usize = 0;
    while k < t.len()
        invariant
            k <= t@.len(),
            forall|m: int| 0 <= m < k ==> t@[m] != c,
        decreases t@.len() - k,
    {
        if t[k] == c {
            return true;
        }
        k += 1;
    }
    false
}

/// End of the label starting at `p`, if one does.
pub fn match_at_exec(s: &Vec<char>, p: usize, open: &Vec<char>, close: &Vec<char>) -> (r: Option<
    usize,
>)
    requires
        p <= s@.len(),
    ensures
        match r {
            Some(e) => match_at(s@, p as int, open@, close@) == Some(e as int),
            None => match_at(s@, p as int, open@, close@) is None,
        },
{
    let n = s.len();
    if !occurs_at_exec(s, p, open) {
        return None;
    }
    assert(p + open@.len() <= n);
    let q = p + open.len();
    let mut r = q;
    while r < s.len() && !(contains_char(open, s[r]) || contains_char(close, s[r]))
        invariant
            q <= r <= s@.len(),
            run_end(s@, q as int, open@, close@) == run_end(s@, r as int, open@, close@),
        decreases s@.len() - r,
    {
        r += 1;
    }
    if r > q && occurs_at_exec(s, r, close) {
        Some(r + close.len())
    } else {
        None
    }
}

fn skip_char_exec(s: &Vec<char>, i: usize, hi: usize, c: char) -> (r: usize)
    requires
        i <= hi <= s@.len(),
    ensures
        r == skip_char(s@, i as int, hi as int, c),
        i <= r <= hi,
{
    let mut k = i;
    while k < hi && s[k] == c
        invariant
            i <= k <= hi <= s@.len(),
            skip_char(s@, i as int, hi as int, c) == skip_char(s@, k as int, hi as int, c),
        decreases hi - k,
    {
        k += 1;
    }
    k
}

pub fn find_char_exec(s: &Vec<char>, i: usize, hi: usize, c: char) -> (r: usize)
    requires
        i <= hi <= s@.len(),
    ensures
        r == find_char(s@, i as int, hi as int, c),
        i <= r <= hi,
{
    let mut k = i;
    while k < hi && s[k] != c
        invariant
            i <= k <= hi <= s@.len(),
            find_char(s@, i as int, hi as int, c) == find_char(s@, k as int, hi as int, c),
        decreases hi - k,
    {
        k += 1;
    }
    k
}

fn find_dash_or_bar_exec(s: &Vec<char>, i: usize, hi: usize) -> (r: usize)
    requires
        i <= hi <= s@.len(),
    ensures
        r == find_dash_or_bar(s@, i as int, hi as int),
        i <= r <= hi,
{
    let mut k = i;
    while k < hi && s[k] != '-' && s[k] != '|'
        invariant
            i <= k <= hi <= s@.len(),
            find_dash_or_bar(s@, i as int, hi as int) == find_dash_or_bar(s@, k as int, hi as int),
        decreases hi - k,
    {
        k += 1;
    }
    k
}

/// Executable form of [`Parts`].
pub struct PartsExec {
    pub dots_end: usize,
    pub cat_end: usize,
    pub desc: Option<(usize, usize)>,
    pub props: Option<(usize, usize)>,
}

pub open spec fn opt_range(o: Option<(usize, usize)>) -> Option<(int, int)> {
    match o {
        Some(ab) => Some((ab.0 as int, ab.1 as int)),
        None => None,
    }
}

impl View for PartsExec {
    type V = Parts;

    open spec fn view(&self) -> Parts {
        Parts {
            dots_end: self.dots_end as int,
            cat_end: self.cat_end as int,
            desc: opt_range(self.desc),
            props: opt_range(self.props),
        }
    }
}

/// Division of the inside `s[lo..hi]` of a label.
fn inner_parts_exec(s: &Vec<char>, lo: usize, hi: usize) -> (r: Option<PartsExec>)
    requires
        lo <= hi <= s@.len(),
    ensures
        match r {
            Some(pe) => inner_parts(s@, lo as int, hi as int) == Some(pe@)
                && lo <= pe.dots_end <= pe.cat_end <= hi
                && (pe.desc matches Some(ab) ==> pe.cat_end < ab.0 <= ab.1 <= hi)
                && (pe.props matches Some(ab) ==> pe.cat_end < ab.0 <= ab.1 <= hi),
            None => inner_parts(s@, lo as int, hi as int) is None,
        },
{
    let d = skip_char_exec(s, lo, hi, '.');
    let i = find_dash_or_bar_exec(s, d, hi);
    if i >= hi {
        Some(PartsExec { dots_end: d, cat_end: i, desc: None, props: None })
    } else if s[i] == '|' {
        if find_char_exec(s, i + 1, hi, '\n') < hi {
            None
        } else {
            Some(PartsExec { dots_end: d, cat_end: i, desc: None, props: Some((i + 1, hi)) })
        }
    } else {
        let j = find_char_exec(s, i + 1, hi, '|');
        if j >= hi {
            Some(PartsExec { dots_end: d, cat_end: i, desc: Some((i + 1, hi)), props: None })
        } else if find_char_exec(s, j + 1, hi, '\n') < hi {
            None
        } else {
            Some(
                PartsExec {
                    dots_end: d,
                    cat_end: i,
                    desc: Some((i + 1, j)),
                    props: Some((j + 1, hi)),
                },
            )
        }
    }
}

/// Occurrences of `c` in `s[a..b]`.
fn count_char_exec(s: &Vec<char>, a: usize, b: usize, c: char) -> (r: usize)
    requires
        a <= b <= s@.len(),
    ensures
        r == count_char(s@.subrange(a as int, b as int), c),
        r <= b - a,
{
    let mut k = a;
    let mut n: usize = 0;
    while k < b
        invariant
            a <= k <= b <= s@.len(),
            n == count_char(s@.subrange(a as int, k as int), c),
            n <= k - a,
        decreases b - k,
    {
        assert(s@.subrange(a as int, k + 1).drop_last() == s@.subrange(a as int, k as int));
        if s[k] == c {
            n += 1;
        }
        k += 1;
    }
    n
}

/// The properties written in `t` (already trimmed).
fn properties_exec(t: &Vec<char>) -> (r: Vec<String>)
    ensures
        strings_view(r@) == properties_of(t@),
{
    let mut out: Vec<String> = Vec::new();
    let n = t.len();
    if n == 0 {
        assert(strings_view(out@) == Seq::<Seq<char>>::empty());
        return out;
    }
    let ghost all = split_ranges(t@, 0, n as int, '|');
    let ghost mut done: Seq<(int, int)> = seq![];
    let mut start: usize = 0;
    loop
        invariant
            n == t@.len(),
            n > 0,
            start <= n,
            all == split_ranges(t@, 0, n as int, '|'),
            all == done + split_ranges(t@, start as int, n as int, '|'),
            strings_view(out@) == trimmed_pieces(t@, done),
        decreases n - start,
    {
        let j = find_char_exec(t, start, n, '|');
        let (a, b) = trim_bounds(t, start, j);
        let piece = string_of(t, a, b);
        proof {
            lemma_find_char(t@, start as int, n as int, '|');
        }
        let ghost prev_out = out@;
        let ghost piece_v = piece@;
        out.push(piece);
        proof {
            let old_done = done;
            done = done.push((start as int, j as int));
            assert(trimmed_pieces(t@, done) =~= trimmed_pieces(t@, old_done).push(
                trim(t@.subrange(start as int, j as int)),
            ));
            assert(strings_view(out@) == strings_view(prev_out).push(piece_v));
        }
        if j >= n {
            assert(all == done);
            assert(strings_view(out@) =~= properties_of(t@));
            return out;
        }
        proof {
            assert(split_ranges(t@, start as int, n as int, '|') == seq![(start as int, j as int)]
                + split_ranges(t@, j + 1, n as int, '|'));
        }
        start = j + 1;
    }
}


pub open spec fn counters_view(v: Seq<usize>) -> Seq<nat> {
    v.map_values(|x: usize| x as nat)
}

pub open spec fn state_view(counters: Seq<usize>, ids: Seq<String>) -> CatState {
    CatState { counters: counters_view(counters), ids: strings_view(ids) }
}

/// `parent.name`, or `name` alone when `parent` is empty.
fn join_id_exec(parent: &String, name: String) -> (r: String)
    ensures
        r@ == join_id(parent@, name@),
{
    if parent.as_str().is_empty() {
        name
    } else {
        let mut r = parent.clone();
        string_push(&mut r, '.');
        push_str(&mut r, name.as_str());
        assert(r@ == parent@ + seq!['.'] + name@);
        r
    }
}

/// Resizes `counters` and `ids` to `depth` entries, as the numbering does.
fn fit_state(counters: &mut Vec<usize>, ids: &mut Vec<String>, depth: usize)
    ensures
        counters_view(final(counters)@) == fit_counters(counters_view(old(counters)@), depth as nat),
        strings_view(final(ids)@) == fit_ids(strings_view(old(ids)@), depth as nat),
        final(counters)@.len() == depth,
        final(ids)@.len() == depth,
        forall|i: int| 0 <= i < final(counters)@.len() ==> (#[trigger] final(counters)@[i] == 0
            || (i < old(counters)@.len() && final(counters)@[i] == old(counters)@[i])),
{
    let ghost c0 = counters_view(counters@);
    let ghost i0 = strings_view(ids@);
    if counters.len() > depth {
        counters.truncate(depth);
        assert(counters_view(counters@) =~= fit_counters(c0, depth as nat));
    } else {
        let ghost start = counters@.len();
        while counters.len() < depth
            invariant
                start <= counters@.len() <= depth,
                forall|i: int| 0 <= i < start ==> counters@[i] == old(counters)@[i],
                forall|i: int| start <= i < counters@.len() ==> counters@[i] == 0,
                c0 == counters_view(old(counters)@),
                start == old(counters)@.len(),
                forall|i: int| 0 <= i < counters@.len() ==> (#[trigger] counters@[i] == 0 || (i
                    < old(counters)@.len() && counters@[i] == old(counters)@[i])),
            decreases depth - counters@.len(),
        {
            counters.push(0);
        }
        assert(counters_view(counters@) =~= fit_counters(c0, depth as nat));
    }
    if ids.len() > depth {
        ids.truncate(depth);
        assert(strings_view(ids@) =~= fit_ids(i0, depth as nat));
    } else {
        let ghost start = ids@.len();
        while ids.len() < depth
            invariant
                start <= ids@.len() <= depth,
                forall|i: int| 0 <= i < start ==> ids@[i] == old(ids)@[i],
                forall|i: int| start <= i < ids@.len() ==> ids@[i]@ == Seq::<char>::empty(),
                i0 == strings_view(old(ids)@),
                start == old(ids)@.len(),
            decreases depth - ids@.len(),
        {
            ids.push(String::new());
        }
        assert(strings_view(ids@) =~= fit_ids(i0, depth as nat));
    }
}

/// Builds the label spanning `s[p..e]` and advances the numbering state.
fn make_label_exec(
    s: &Vec<char>,
    p: usize,
    e: usize,
    ol: usize,
    cl: usize,
    pe: PartsExec,
    counters: &mut Vec<usize>,
    ids: &mut Vec<String>,
    start_byte: usize,
    end_byte: usize,
    line: usize,
    bound: usize,
) -> (lab: SemanticLabel)
    requires
        ol + cl >= 1,
        p + ol <= e - cl,
        cl <= e <= s@.len(),
        inner_parts(s@, p + ol, e - cl) == Some(pe@),
        p + ol <= pe.dots_end <= pe.cat_end <= e - cl,
        pe.desc matches Some(ab) ==> pe.cat_end < ab.0 <= ab.1 <= e - cl,
        pe.props matches Some(ab) ==> pe.cat_end < ab.0 <= ab.1 <= e - cl,
        start_byte == utf8_len(s@.take(p as int)),
        end_byte == utf8_len(s@.take(e as int)),
        line == count_char(s@.take(p as int), '\n') + 1,
        bound < usize::MAX,
        forall|i: int| 0 <= i < old(counters)@.len() ==> #[trigger] old(counters)@[i] <= bound,
    ensures
        ({
            let step = make_label(
                s@,
                p as int,
                e as int,
                ol as int,
                cl as int,
                pe@,
                state_view(old(counters)@, old(ids)@),
            );
            &&& lab@ == step.0
            &&& state_view(final(counters)@, final(ids)@) == step.1
        }),
        forall|i: int| 0 <= i < final(counters)@.len() ==> #[trigger] final(counters)@[i] <= bound + 1,
{
    let lo = p + ol;
    let hi = e - cl;
    let (ca, cb) = trim_bounds(s, pe.dots_end, pe.cat_end);
    let count = count_char_exec(s, ca, cb, '.');
    let dots = pe.dots_end - lo;
    let depth = dots + count + 1;
    let ghost st0 = state_view(counters@, ids@);
    let ghost raw_cat = trim(s@.subrange(pe.dots_end as int, pe.cat_end as int));
    assert(depth == label_depth(s@, lo as int, pe@));
    fit_state(counters, ids, depth);
    let parent = if dots > 0 {
        ids[depth - 2].clone()
    } else {
        String::new()
    };
    let category = if cb > ca {
        let name = string_of(s, ca, cb);
        join_id_exec(&parent, name)
    } else {
        let n = counters[depth - 1] + 1;
        counters.set(depth - 1, n);
        let name = usize_to_string(n);
        join_id_exec(&parent, name)
    };
    let ghost ids_before = ids@;
    ids.set(depth - 1, category.clone());
    proof {
        let step = category_step(st0, dots as nat, raw_cat, depth as nat);
        assert(category@ == step.0);
        assert(counters_view(counters@) =~= step.1.counters);
        assert(strings_view(ids@) =~= step.1.ids);
    }
    let text = match pe.desc {
        Some((a, b)) => {
            let (x, y) = trim_bounds(s, a, b);
            string_of(s, x, y)
        },
        None => String::new(),
    };
    let properties = match pe.props {
        Some((a, b)) => {
            let (x, y) = trim_bounds(s, a, b);
            let t = sub_chars(s, x, y);
            properties_exec(&t)
        },
        None => {
            let t: Vec<char> = Vec::new();
            proof {
                assert(t@ == trimmed(s@, None));
            }
            properties_exec(&t)
        },
    };
    let raw = string_of(s, lo, hi);
    let lab = SemanticLabel {
        depth,
        category,
        parent_category: None,
        text,
        properties,
        line,
        start_byte,
        end_byte,
        raw,
    };
    proof {
        let step = make_label(s@, p as int, e as int, ol as int, cl as int, pe@, st0);
        assert(lab@.text == step.0.text);
        assert(lab@.properties == step.0.properties);
        assert(lab@ == step.0);
    }
    lab
}


/// `labels_fold` over the first `k` spans depends on those spans only.
pub proof fn lemma_fold_prefix(s: Seq<char>, ms1: Seq<(int, int)>, ms2: Seq<(int, int)>, ol: int, cl: int, k: int)
    requires
        0 <= k <= ms1.len(),
        k <= ms2.len(),
        forall|j: int| 0 <= j < k ==> ms1[j] == ms2[j],
    ensures
        labels_fold(s, ms1, ol, cl, k) == labels_fold(s, ms2, ol, cl, k),
    decreases k,
{
    if k > 0 {
        lemma_fold_prefix(s, ms1, ms2, ol, cl, k - 1);
    }
}

/// Byte offset of position `b` of `s`, knowing that of `a`.
fn byte_offset(s: &Vec<char>, a: usize, base: usize, b: usize, total: usize) -> (r: usize)
    requires
        a <= b <= s@.len(),
        base == utf8_len(s@.take(a as int)),
        total == utf8_len(s@),
    ensures
        r == utf8_len(s@.take(b as int)),
{
    let mut k = a;
    let mut acc = base;
    while k < b
        invariant
            a <= k <= b <= s@.len(),
            acc == utf8_len(s@.take(k as int)),
            total == utf8_len(s@),
        decreases b - k,
    {
        proof {
            lemma_utf8_len_step(s@, k as int);
            lemma_utf8_len_take(s@, k + 1);
        }
        acc = acc + char_len_utf8(s[k]);
        k += 1;
    }
    acc
}

/// Parses the labels of `text` delimited by `open` and `close`.
pub fn parse_semantic_labels_with_delim(text: &str, open: &str, close: &str) -> (r: Vec<
    SemanticLabel,
>)
    ensures
        labels_view(r@) == parse_labels(text@, open@, close@),
{
    let s = chars_of(text);
    let o = chars_of(open);
    let c = chars_of(close);
    let mut labels: Vec<SemanticLabel> = Vec::new();
    if o.len() == 0 && c.len() == 0 {
        assert(labels_view(labels@) =~= Seq::<LabelView>::empty());
        return labels;
    }
    let total = byte_len(text);
    let n = s.len();
    let ghost ol = o@.len() as int;
    let ghost cl = c@.len() as int;
    let mut counters: Vec<usize> = Vec::new();
    let mut ids: Vec<String> = Vec::new();
    let mut i: usize = 0;
    let mut resume: usize = 0;
    let mut byte_pos: usize = 0;
    let mut lines: usize = 0;
    let ghost mut ms: Seq<(int, int)> = seq![];
    proof {
        assert(labels_view(labels@) =~= Seq::<LabelView>::empty());
        assert(counters_view(counters@) =~= Seq::<nat>::empty());
        assert(strings_view(ids@) =~= Seq::<Seq<char>>::empty());
        assert(s@.take(0) =~= Seq::<char>::empty());
        assert(ms + scan(s@, 0, o@, c@) =~= scan(s@, 0, o@, c@));
    }
    while i < n
        invariant
            s@ == text@,
            o@ == open@,
            c@ == close@,
            ol == o@.len(),
            cl == c@.len(),
            n == s@.len(),
            ol + cl >= 1,
            total == utf8_len(s@),
            i <= resume <= n,
            scan(s@, 0, o@, c@) == ms + scan(s@, resume as int, o@, c@),
            labels_fold(s@, ms, ol, cl, ms.len() as int) == (
                labels_view(labels@),
                state_view(counters@, ids@),
            ),
            byte_pos == utf8_len(s@.take(i as int)),
            lines == count_char(s@.take(i as int), '\n'),
            lines <= i,
            forall|k: int| 0 <= k < counters@.len() ==> #[trigger] counters@[k] <= i,
        decreases n - i,
    {
        if i == resume {
            match match_at_exec(&s, i, &o, &c) {
                Some(e) => {
                    proof {
                        lemma_match_at(s@, i as int, o@, c@);
                        assert(scan(s@, i as int, o@, c@) == seq![(i as int, e as int)] + scan(
                            s@,
                            e as int,
                            o@,
                            c@,
                        ));
                    }
                    let lo = i + o.len();
                    let hi = e - c.len();
                    let ghost ms2 = ms.push((i as int, e as int));
                    proof {
                        lemma_fold_prefix(s@, ms, ms2, ol, cl, ms.len() as int);
                        assert(ms2 + scan(s@, e as int, o@, c@) =~= ms + scan(s@, i as int, o@, c@));
                    }
                    match inner_parts_exec(&s, lo, hi) {
                        Some(pe) => {
                            let end_byte = byte_offset(&s, i, byte_pos, e, total);
                            proof {
                                lemma_utf8_len_take(s@, i as int);
                            }
                            let lab = make_label_exec(
                                &s,
                                i,
                                e,
                                o.len(),
                                c.len(),
                                pe,
                                &mut counters,
                                &mut ids,
                                byte_pos,
                                end_byte,
                                lines + 1,
                                i,
                            );
                            let ghost before = labels@;
                            let ghost lv = lab@;
                            labels.push(lab);
                            proof {
                                assert(labels_view(labels@) =~= labels_view(before).push(lv));
                            }
                        },
                        None => {},
                    }
                    proof {
                        ms = ms2;
                    }
                    resume = e;
                },
                None => {
                    resume = i + 1;
                },
            }
        }
        proof {
            lemma_utf8_len_step(s@, i as int);
            lemma_utf8_len_take(s@, i + 1);
            assert(s@.take(i + 1).drop_last() == s@.take(i as int));
        }
        byte_pos = byte_pos + char_len_utf8(s[i]);
        if s[i] == '\n' {
            lines = lines + 1;
        }
        i += 1;
    }
    proof {
        assert(ms + scan(s@, resume as int, o@, c@) =~= ms);
    }
    labels
}


/// Parses the labels of `text` with the default `[` `]` delimiters.
pub fn parse_semantic_labels(text: &str) -> (r: Vec<SemanticLabel>)
    ensures
        labels_view(r@) == parse_labels(text@, seq!['['], seq![']']),
{
    let r = parse_semantic_labels_with_delim(text, "[", "]");
    proof {
        reveal_strlit("[");
        reveal_strlit("]");
        assert("["@ =~= seq!['[']);
        assert("]"@ =~= seq![']']);
    }
    r
}

// ── Stripping labels ──

/// Character index of byte offset `b` in `s` searching from `k`; `-1` where `b` is
/// not a character boundary.
pub open spec fn char_at_byte_from(s: Seq<char>, b: int, k: int) -> int
    decreases s.len() - k,
{
    if k < 0 {
        -1
    } else if utf8_len(s.take(k)) == b {
        k
    } else if k >= s.len() || utf8_len(s.take(k)) > b {
        -1
    } else {
        char_at_byte_from(s, b, k + 1)
    }
}

/// Character index of byte offset `b` in `s`, or `-1` if `b` is not a boundary.
pub open spec fn char_at_byte(s: Seq<char>, b: int) -> int {
    char_at_byte_from(s, b, 0)
}

/// `s` with the bytes `[start, end)` removed, both clamped to its length
/// (`String::replace_range`); `None` where a bound is not a character boundary.
pub open spec fn remove_bytes(s: Seq<char>, start: nat, end: nat) -> Option<Seq<char>> {
    let len = utf8_len(s);
    let a = if start < len { start } else { len };
    let b = if end < len { end } else { len };
    if a >= b {
        Some(s)
    } else {
        let i = char_at_byte(s, a as int);
        let j = char_at_byte(s, b as int);
        if i < 0 || j < 0 {
            None
        } else {
            Some(s.take(i) + s.skip(j))
        }
    }
}

/// Removes each byte range of `rs` in turn.
pub open spec fn remove_ranges(s: Seq<char>, rs: Seq<(nat, nat)>) -> Option<Seq<char>>
    decreases rs.len(),
{
    if rs.len() == 0 {
        Some(s)
    } else {
        match remove_ranges(s, rs.drop_last()) {
            Some(t) => remove_bytes(t, rs.last().0, rs.last().1),
            None => None,
        }
    }
}

/// Inserts `x` into `sorted` after every range starting at or after it.
pub open spec fn insert_desc(sorted: Seq<(nat, nat)>, x: (nat, nat)) -> Seq<(nat, nat)>
    decreases sorted.len(),
{
    if sorted.len() == 0 {
        seq![x]
    } else if sorted.last().0 >= x.0 {
        sorted.push(x)
    } else {
        insert_desc(sorted.drop_last(), x).push(sorted.last())
    }
}

/// Stable sort by start offset, last first (`sort_by` with the comparison reversed).
pub open spec fn sort_desc(rs: Seq<(nat, nat)>) -> Seq<(nat, nat)>
    decreases rs.len(),
{
    if rs.len() == 0 {
        seq![]
    } else {
        insert_desc(sort_desc(rs.drop_last()), rs.last())
    }
}

/// Byte ranges of labels.
pub open spec fn label_ranges(ls: Seq<LabelView>) -> Seq<(nat, nat)> {
    ls.map_values(|l: LabelView| (l.start_byte, l.end_byte))
}

/// `text` with every label's byte range removed, from the last-starting label to the
/// first; `None` where some bound falls inside a character.
pub open spec fn strip_spec(text: Seq<char>, ls: Seq<LabelView>) -> Option<Seq<char>> {
    remove_ranges(text, sort_desc(label_ranges(ls)))
}

fn insert_desc_exec(sorted: &mut Vec<(usize, usize)>, x: (usize, usize))
    ensures
        ranges_view(final(sorted)@) == insert_desc(ranges_view(old(sorted)@), (x.0 as nat, x.1 as nat)),
    decreases old(sorted)@.len(),
{
    let n = sorted.len();
    if n == 0 {
        sorted.push(x);
        assert(ranges_view(sorted@) =~= seq![(x.0 as nat, x.1 as nat)]);
    } else if sorted[n - 1].0 >= x.0 {
        let ghost before = sorted@;
        sorted.push(x);
        assert(ranges_view(sorted@) =~= ranges_view(before).push((x.0 as nat, x.1 as nat)));
    } else {
        let ghost before = sorted@;
        let last = sorted.pop().unwrap();
        assert(ranges_view(sorted@) =~= ranges_view(before).drop_last());
        insert_desc_exec(sorted, x);
        let ghost mid = sorted@;
        sorted.push(last);
        assert(ranges_view(sorted@) =~= ranges_view(mid).push((last.0 as nat, last.1 as nat)));
    }
}

pub open spec fn ranges_view(v: Seq<(usize, usize)>) -> Seq<(nat, nat)> {
    v.map_values(|r: (usize, usize)| (r.0 as nat, r.1 as nat))
}

/// Character index of byte offset `b` of `v`, which is a character boundary.
pub fn char_index_of_byte(v: &Vec<char>, b: usize) -> (r: usize)
    requires
        char_at_byte(v@, b as int) >= 0,
    ensures
        r as int == char_at_byte(v@, b as int),
        r <= v@.len(),
{
    let mut k: usize = 0;
    let mut acc: usize = 0;
    let n = v.len();
    proof {
        assert(v@.take(0) =~= Seq::<char>::empty());
    }
    loop
        invariant
            n == v@.len(),
            k <= v@.len(),
            acc == utf8_len(v@.take(k as int)),
            acc <= b,
            char_at_byte(v@, b as int) == char_at_byte_from(v@, b as int, k as int),
            char_at_byte_from(v@, b as int, k as int) >= 0,
        decreases v@.len() - k,
    {
        if acc == b {
            return k;
        }
        proof {
            lemma_utf8_len_step(v@, k as int);
            assert(char_at_byte_from(v@, b as int, k + 1) >= 0);
        }
        acc = acc + char_len_utf8(v[k]);
        k += 1;
    }
}

pub proof fn lemma_char_at_byte_found(s: Seq<char>, b: int, k: int)
    requires
        0 <= k <= s.len(),
        char_at_byte_from(s, b, k) >= 0,
    ensures
        k <= char_at_byte_from(s, b, k) <= s.len(),
        utf8_len(s.take(char_at_byte_from(s, b, k))) == b,
    decreases s.len() - k,
{
    if utf8_len(s.take(k)) != b {
        lemma_char_at_byte_found(s, b, k + 1);
    }
}

/// Removes the text of each label (by byte range), last-starting label first.
pub fn strip_semantic_labels(text: &str, labels: &[SemanticLabel]) -> (r: String)
    requires
        strip_spec(text@, labels_view(labels@)) is Some,
    ensures
        r@ == strip_spec(text@, labels_view(labels@))->0,
{
    let ghost ls = labels_view(labels@);
    let mut sorted: Vec<(usize, usize)> = Vec::new();
    let mut k: usize = 0;
    while k < labels.len()
        invariant
            k <= labels@.len(),
            ls == labels_view(labels@),
            ranges_view(sorted@) == sort_desc(label_ranges(ls).take(k as int)),
        decreases labels@.len() - k,
    {
        proof {
            assert(label_ranges(ls).take(k + 1).drop_last() =~= label_ranges(ls).take(k as int));
        }
        insert_desc_exec(&mut sorted, (labels[k].start_byte, labels[k].end_byte));
        k += 1;
    }
    assert(label_ranges(ls).take(labels@.len() as int) =~= label_ranges(ls));
    let mut cur = chars_of(text);
    let mut cur_len = byte_len(text);
    let ghost rs = ranges_view(sorted@);
    let mut m: usize = 0;
    proof {
        assert(rs.take(0) =~= Seq::<(nat, nat)>::empty());
        lemma_remove_ranges_prefix(text@, rs, rs.len() as int);
    }
    while m < sorted.len()
        invariant
            m <= sorted@.len(),
            rs == ranges_view(sorted@),
            remove_ranges(text@, rs) is Some,
            remove_ranges(text@, rs.take(m as int)) == Some(cur@),
            forall|j: int| m <= j <= rs.len() ==> #[trigger] remove_ranges(text@, rs.take(j)) is Some,
            cur_len == utf8_len(cur@),
        decreases sorted@.len() - m,
    {
        let (start, end) = sorted[m];
        let a = if start < cur_len { start } else { cur_len };
        let b = if end < cur_len { end } else { cur_len };
        proof {
            assert(rs.take(m + 1).drop_last() =~= rs.take(m as int));
            assert(remove_ranges(text@, rs.take(m + 1)) is Some);
        }
        if a < b {
            let i = char_index_of_byte(&cur, a);
            let j = char_index_of_byte(&cur, b);
            proof {
                lemma_char_at_byte_found(cur@, a as int, 0);
                lemma_char_at_byte_found(cur@, b as int, 0);
                lemma_utf8_len_take(cur@, i as int);
                lemma_utf8_len_take(cur@, j as int);
                if j <= i {
                    crate::text::lemma_utf8_len_mono(cur@, j as int, i as int);
                }
                assert(cur@.take(j as int) =~= cur@.take(i as int) + cur@.subrange(i as int, j as int));
                crate::text::lemma_utf8_len_concat(cur@.take(i as int), cur@.subrange(i as int, j as int));
                crate::text::lemma_utf8_len_concat(cur@.take(i as int), cur@.skip(j as int));
            }
            let mut next: Vec<char> = Vec::new();
            let mut t: usize = 0;
            while t < i
                invariant
                    t <= i <= cur@.len(),
                    next@ == cur@.take(t as int),
                decreases i - t,
            {
                next.push(cur[t]);
                assert(cur@.take(t + 1) =~= cur@.take(t as int).push(cur@[t as int]));
                t += 1;
            }
            let mut u = j;
            while u < cur.len()
                invariant
                    i <= j <= u <= cur@.len(),
                    next@ == cur@.take(i as int) + cur@.subrange(j as int, u as int),
                decreases cur@.len() - u,
            {
                next.push(cur[u]);
                assert(cur@.subrange(j as int, u + 1) =~= cur@.subrange(j as int, u as int).push(cur@[u as int]));
                u += 1;
            }
            assert(cur@.subrange(j as int, cur@.len() as int) =~= cur@.skip(j as int));
            cur_len = cur_len - (b - a);
            cur = next;
        }
        m += 1;
    }
    assert(rs.take(rs.len() as int) =~= rs);
    let out = string_of(&cur, 0, cur.len());
    assert(cur@.subrange(0, cur@.len() as int) =~= cur@);
    out
}

/// A prefix of a successful sequence of removals succeeds.
proof fn lemma_remove_ranges_prefix(s: Seq<char>, rs: Seq<(nat, nat)>, j: int)
    requires
        remove_ranges(s, rs) is Some,
        0 <= j <= rs.len(),
    ensures
        forall|k: int| j <= k <= rs.len() ==> #[trigger] remove_ranges(s, rs.take(k)) is Some,
        forall|k: int| 0 <= k <= rs.len() ==> #[trigger] remove_ranges(s, rs.take(k)) is Some,
    decreases rs.len(),
{
    assert(rs.take(rs.len() as int) =~= rs);
    if rs.len() > 0 {
        let rs2 = rs.drop_last();
        assert(remove_ranges(s, rs2) is Some);
        lemma_remove_ranges_prefix(s, rs2, 0);
        assert forall|k: int| 0 <= k <= rs.len() implies #[trigger] remove_ranges(s, rs.take(k)) is Some by {
            if k < rs.len() {
                assert(rs.take(k) =~= rs2.take(k));
            }
        }
    }
}


impl LabelType {
    /// The built-in note type (`注`) for writing memos.
    pub fn note_type() -> (r: Self)
        ensures
            r@.name == "注"@,
            r@.color == [150u8, 150u8, 150u8],
            r@.description == "写作备注"@,
    {
        LabelType {
            name: String::from_str("注"),
            color: [150, 150, 150],
            description: String::from_str("写作备注"),
        }
    }
}

/// A copy of a label type.
pub fn copy_label_type(t: &LabelType) -> (r: LabelType)
    ensures
        r@ == t@,
{
    LabelType { name: t.name.clone(), color: t.color, description: t.description.clone() }
}

// ── Grouping by category ──

/// Index of the first group whose key is `key`.
pub open spec fn find_group(groups: Seq<(Seq<char>, Seq<LabelView>)>, key: Seq<char>) -> Option<
    int,
>
    decreases groups.len(),
{
    if groups.len() == 0 {
        None
    } else {
        match find_group(groups.drop_last(), key) {
            Some(i) => Some(i),
            None => if groups.last().0 == key {
                Some(groups.len() - 1)
            } else {
                None
            },
        }
    }
}

/// Groups of the first `k` labels by category, in order of first appearance.
pub open spec fn group_fold(ls: Seq<LabelView>, k: int) -> Seq<(Seq<char>, Seq<LabelView>)>
    decreases k,
{
    if k <= 0 {
        seq![]
    } else {
        let g = group_fold(ls, k - 1);
        let l = ls[k - 1];
        match find_group(g, l.category) {
            Some(i) => g.update(i, (g[i].0, g[i].1.push(l))),
            None => g.push((l.category, seq![l])),
        }
    }
}

pub open spec fn groups_view(g: Seq<(String, Vec<&SemanticLabel>)>) -> Seq<
    (Seq<char>, Seq<LabelView>),
> {
    g.map_values(|x: (String, Vec<&SemanticLabel>)| (x.0@, x.1@.map_values(|l: &SemanticLabel| l@)))
}

proof fn lemma_find_group(groups: Seq<(Seq<char>, Seq<LabelView>)>, key: Seq<char>)
    ensures
        match find_group(groups, key) {
            Some(i) => 0 <= i < groups.len() && groups[i].0 == key && forall|j: int|
                0 <= j < i ==> groups[j].0 != key,
            None => forall|j: int| 0 <= j < groups.len() ==> groups[j].0 != key,
        },
    decreases groups.len(),
{
    if groups.len() > 0 {
        let d = groups.drop_last();
        lemma_find_group(d, key);
        assert(forall|j: int| 0 <= j < d.len() ==> d[j] == groups[j]);
    }
}

/// Groups labels by category, keeping the order in which categories first appear.
pub fn group_labels_by_category(labels: &[SemanticLabel]) -> (r: Vec<(String, Vec<&SemanticLabel>)>)
    ensures
        groups_view(r@) == group_fold(labels_view(labels@), labels@.len() as int),
{
    let ghost ls = labels_view(labels@);
    let mut keys: Vec<String> = Vec::new();
    let mut members: Vec<Vec<&SemanticLabel>> = Vec::new();
    let mut k: usize = 0;
    while k < labels.len()
        invariant
            k <= labels@.len(),
            ls == labels_view(labels@),
            keys@.len() == members@.len(),
            group_fold(ls, k as int) == Seq::new(
                keys@.len(),
                |i: int| (keys@[i]@, members@[i]@.map_values(|l: &SemanticLabel| l@)),
            ),
        decreases labels@.len() - k,
    {
        let label = &labels[k];
        let ghost g = group_fold(ls, k as int);
        proof {
            lemma_find_group(g, label.category@);
        }
        let mut pos: usize = 0;
        while pos < keys.len() && !(keys[pos] == label.category)
            invariant
                pos <= keys@.len(),
                keys@.len() == g.len(),
                g == Seq::new(
                    keys@.len(),
                    |i: int| (keys@[i]@, members@[i]@.map_values(|l: &SemanticLabel| l@)),
                ),
                forall|j: int| 0 <= j < pos ==> g[j].0 != label.category@,
            decreases keys@.len() - pos,
        {
            pos += 1;
        }
        let ghost keys0 = keys@;
        let ghost mem0 = members@;
        proof {
            assert(ls[k as int] == label@);
        }
        if pos < keys.len() {
            assert(g[pos as int].0 == label.category@);
            assert(find_group(g, label.category@) == Some(pos as int));
            let mut m = members.remove(pos);
            let ghost m0 = m@;
            m.push(label);
            members.insert(pos, m);
            proof {
                assert(members@ =~= mem0.update(pos as int, m));
                assert(m@.map_values(|l: &SemanticLabel| l@) =~= m0.map_values(
                    |l: &SemanticLabel| l@,
                ).push(label@));
                assert(group_fold(ls, k + 1) == g.update(
                    pos as int,
                    (g[pos as int].0, g[pos as int].1.push(label@)),
                ));
                assert(group_fold(ls, k + 1) =~= Seq::new(
                    keys@.len(),
                    |i: int| (keys@[i]@, members@[i]@.map_values(|l: &SemanticLabel| l@)),
                ));
            }
        } else {
            assert(find_group(g, label.category@) is None);
            keys.push(label.category.clone());
            let mut m: Vec<&SemanticLabel> = Vec::new();
            m.push(label);
            members.push(m);
            proof {
                assert(m@.map_values(|l: &SemanticLabel| l@) =~= seq![label@]);
                assert(group_fold(ls, k + 1) == g.push((label@.category, seq![label@])));
                assert(group_fold(ls, k + 1) =~= Seq::new(
                    keys@.len(),
                    |i: int| (keys@[i]@, members@[i]@.map_values(|l: &SemanticLabel| l@)),
                ));
            }
        }
        k += 1;
    }
    let mut out: Vec<(String, Vec<&SemanticLabel>)> = Vec::new();
    let ghost g = group_fold(ls, labels@.len() as int);
    while keys.len() > 0
        invariant
            keys@.len() == members@.len(),
            g == groups_view(out@) + Seq::new(
                keys@.len(),
                |i: int| (keys@[i]@, members@[i]@.map_values(|l: &SemanticLabel| l@)),
            ),
        decreases keys@.len(),
    {
        let key = keys.remove(0);
        let m = members.remove(0);
        let ghost before = out@;
        out.push((key, m));
        proof {
            assert(groups_view(out@) =~= groups_view(before).push((key@, m@.map_values(|l: &SemanticLabel| l@))));
        }
    }
    proof {
        assert(g =~= groups_view(out@));
    }
    out
}


// ── Label types ──

pub open spec fn types_view(v: Seq<LabelType>) -> Seq<LabelTypeView> {
    v.map_values(|t: LabelType| t@)
}

/// Whether some type in `ts` is named `name`.
pub open spec fn has_type(ts: Seq<LabelTypeView>, name: Seq<char>) -> bool {
    exists|i: int| 0 <= i < ts.len() && #[trigger] ts[i].name == name
}

/// Whether a category is eligible for registration: nonempty, not ending in `.`.
pub open spec fn registrable(cat: Seq<char>) -> bool {
    cat.len() > 0 && cat.last() != '.'
}

/// Types after registering the first `k` labels, with the next palette index.
pub open spec fn register_fold(ls: Seq<LabelView>, existing: Seq<LabelTypeView>, k: int) -> (
    Seq<LabelTypeView>,
    nat,
)
    decreases k,
{
    if k <= 0 {
        (existing, existing.len() % 12)
    } else {
        let prev = register_fold(ls, existing, k - 1);
        let cat = ls[k - 1].category;
        if registrable(cat) && !has_type(prev.0, cat) {
            (
                prev.0.push(
                    LabelTypeView {
                        name: cat,
                        color: LABEL_PALETTE@[prev.1 as int],
                        description: Seq::empty(),
                    },
                ),
                (prev.1 + 1) % 12,
            )
        } else {
            prev
        }
    }
}

/// Appends a type for each new category in `labels` (nonempty, not ending in `.`,
/// not named yet), colored from the palette in turn.
pub fn auto_register_labels(labels: &[SemanticLabel], existing: &[LabelType]) -> (r: Vec<LabelType>)
    ensures
        types_view(r@) == register_fold(
            labels_view(labels@),
            types_view(existing@),
            labels@.len() as int,
        ).0,
{
    let ghost ls = labels_view(labels@);
    let ghost ex = types_view(existing@);
    let mut types: Vec<LabelType> = Vec::new();
    let mut k: usize = 0;
    while k < existing.len()
        invariant
            k <= existing@.len(),
            types_view(types@) == ex.take(k as int),
            ex == types_view(existing@),
        decreases existing@.len() - k,
    {
        let t = copy_label_type(&existing[k]);
        let ghost before = types@;
        types.push(t);
        proof {
            assert(types_view(types@) =~= types_view(before).push(t@));
            assert(ex.take(k + 1) =~= ex.take(k as int).push(ex[k as int]));
        }
        k += 1;
    }
    assert(ex.take(existing@.len() as int) =~= ex);
    let mut next: usize = types.len() % 12;
    let mut k: usize = 0;
    while k < labels.len()
        invariant
            k <= labels@.len(),
            ls == labels_view(labels@),
            ex == types_view(existing@),
            next < 12,
            register_fold(ls, ex, k as int) == (types_view(types@), next as nat),
        decreases labels@.len() - k,
    {
        let cat = &labels[k].category;
        let n = cat.as_str().unicode_len();
        let ok = n > 0 && cat.as_str().get_char(n - 1) != '.';
        if ok {
            let mut found = false;
            let mut j: usize = 0;
            while j < types.len()
                invariant
                    j <= types@.len(),
                    !found ==> forall|i: int| 0 <= i < j ==> types@[i]@.name != cat@,
                    found ==> has_type(types_view(types@), cat@),
                decreases types@.len() - j,
            {
                if types[j].name == *cat {
                    found = true;
                    assert(types_view(types@)[j as int].name == cat@);
                }
                j += 1;
            }
            if !found {
                assert(!has_type(types_view(types@), cat@));
                let t = LabelType {
                    name: cat.clone(),
                    color: LABEL_PALETTE[next],
                    description: String::new(),
                };
                let ghost before = types@;
                types.push(t);
                proof {
                    assert(types_view(types@) =~= types_view(before).push(t@));
                }
                next = (next + 1) % 12;
            }
        }
        proof {
            assert(ls[k as int].category == cat@);
        }
        k += 1;
    }
    types
}

/// Index of the first type named `name`.
pub open spec fn find_type(ts: Seq<LabelTypeView>, name: Seq<char>) -> Option<int>
    decreases ts.len(),
{
    if ts.len() == 0 {
        None
    } else {
        match find_type(ts.drop_last(), name) {
            Some(i) => Some(i),
            None => if ts.last().name == name {
                Some(ts.len() - 1)
            } else {
                None
            },
        }
    }
}

proof fn lemma_find_type(ts: Seq<LabelTypeView>, name: Seq<char>)
    ensures
        match find_type(ts, name) {
            Some(i) => 0 <= i < ts.len() && ts[i].name == name && forall|j: int|
                0 <= j < i ==> ts[j].name != name,
            None => forall|j: int| 0 <= j < ts.len() ==> ts[j].name != name,
        },
    decreases ts.len(),
{
    if ts.len() > 0 {
        let d = ts.drop_last();
        lemma_find_type(d, name);
        assert(forall|j: int| 0 <= j < d.len() ==> d[j] == ts[j]);
    }
}

/// Color of a category: the type named exactly so, else the type named by the part
/// before the first `.`, else `fallback`.
pub open spec fn label_color(cat: Seq<char>, ts: Seq<LabelTypeView>, fallback: [u8; 3]) -> [u8; 3] {
    match find_type(ts, cat) {
        Some(i) => ts[i].color,
        None => {
            let d = find_char(cat, 0, cat.len() as int, '.');
            if d < cat.len() {
                match find_type(ts, cat.take(d)) {
                    Some(i) => ts[i].color,
                    None => fallback,
                }
            } else {
                fallback
            }
        },
    }
}

fn find_type_exec(types: &[LabelType], name: &Vec<char>) -> (r: Option<usize>)
    ensures
        match r {
            Some(i) => find_type(types_view(types@), name@) == Some(i as int) && i < types@.len(),
            None => find_type(types_view(types@), name@) is None,
        },
{
    let ghost ts = types_view(types@);
    proof {
        lemma_find_type(ts, name@);
    }
    let mut j: usize = 0;
    while j < types.len()
        invariant
            j <= types@.len(),
            ts == types_view(types@),
            forall|i: int| 0 <= i < j ==> ts[i].name != name@,
        decreases types@.len() - j,
    {
        let tn = chars_of(types[j].name.as_str());
        assert(ts[j as int] == types@[j as int]@);
        if chars_eq(&tn, name) {
            proof {
                lemma_find_type(ts, name@);
            }
            return Some(j);
        }
        j += 1;
    }
    None
}

/// Whether two character vectors are equal.
pub fn chars_eq(a: &Vec<char>, b: &Vec<char>) -> (r: bool)
    ensures
        r == (a@ == b@),
{
    if a.len() != b.len() {
        return false;
    }
    let mut i: usize = 0;
    while i < a.len()
        invariant
            a@.len() == b@.len(),
            i <= a@.len(),
            forall|k: int| 0 <= k < i ==> a@[k] == b@[k],
        decreases a@.len() - i,
    {
        if a[i] != b[i] {
            return false;
        }
        i += 1;
    }
    assert(a@ =~= b@);
    true
}

/// Color of a category from the known label types.
pub fn get_label_color(category: &str, types: &[LabelType], fallback: [u8; 3]) -> (r: [u8; 3])
    ensures
        r == label_color(category@, types_view(types@), fallback),
{
    let cat = chars_of(category);
    match find_type_exec(types, &cat) {
        Some(i) => types[i].color,
        None => {
            let d = find_char_exec(&cat, 0, cat.len(), '.');
            if d < cat.len() {
                let parent = sub_chars(&cat, 0, d);
                assert(parent@ =~= cat@.take(d as int));
                match find_type_exec(types, &parent) {
                    Some(i) => types[i].color,
                    None => fallback,
                }
            } else {
                fallback
            }
        },
    }
}


// ── Removing every delimited span ──

/// `s[i..]` with every delimited span removed, whether or not its inside parses.
pub open spec fn strip_scan(s: Seq<char>, i: int, open: Seq<char>, close: Seq<char>) -> Seq<char>
    decreases s.len() - i,
{
    if i >= s.len() || i < 0 {
        seq![]
    } else {
        match match_at(s, i, open, close) {
            Some(e) => {
                proof {
                    lemma_match_at(s, i, open, close);
                }
                strip_scan(s, e, open, close)
            },
            None => seq![s[i]] + strip_scan(s, i + 1, open, close),
        }
    }
}

/// Removes every `[...]` span (no `[` or `]` inside) from `text`; useful on partial
/// selections, where a label's inside need not parse.
pub fn strip_all_labels_regex(text: &str) -> (r: String)
    ensures
        r@ == strip_scan(text@, 0, seq!['['], seq![']']),
{
    let s = chars_of(text);
    let mut o: Vec<char> = Vec::new();
    o.push('[');
    let mut c: Vec<char> = Vec::new();
    c.push(']');
    assert(o@ =~= seq!['[']);
    assert(c@ =~= seq![']']);
    let mut out = String::new();
    let mut i: usize = 0;
    let n = s.len();
    assert(out@ + strip_scan(s@, 0, o@, c@) =~= strip_scan(s@, 0, o@, c@));
    while i < n
        invariant
            n == s@.len(),
            i <= n,
            s@ == text@,
            o@ == seq!['['],
            c@ == seq![']'],
            out@ + strip_scan(s@, i as int, o@, c@) == strip_scan(s@, 0, o@, c@),
        decreases n - i,
    {
        match match_at_exec(&s, i, &o, &c) {
            Some(e) => {
                proof {
                    lemma_match_at(s@, i as int, o@, c@);
                }
                i = e;
            },
            None => {
                let ghost before = out@;
                string_push(&mut out, s[i]);
                proof {
                    assert(out@ + strip_scan(s@, i + 1, o@, c@) =~= before + (seq![s@[i as int]]
                        + strip_scan(s@, i + 1, o@, c@)));
                }
                i += 1;
            },
        }
    }
    assert(out@ + strip_scan(s@, i as int, o@, c@) =~= out@);
    out
}

} // verus!
