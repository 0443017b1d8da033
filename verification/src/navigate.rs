//! Navigation: the outline of headings (with the sections a template still asks
//! for), the label at the reading position, the quick-navigation list and the command
//! palette's filter.

use vstd::prelude::*;
use crate::doc::{extract_headings, headings_of, headings_view};
use crate::label::{labels_view, parse_labels, parse_semantic_labels, LabelView, SemanticLabel};
use crate::template::{
    freeform_view, heading_results, validation, ResultView,
    check_heading, contains_seq, contains_str, heading_desc, heading_found, HeadingView,
    TemplateView, ZqTemplate,
};
use crate::text::{chars_of, decimal, lowercase_of, push_decimal, push_str, string_push, to_lowercase};

verus! {

// ── Outline ──

/// An entry of the heading outline.
#[derive(Clone, Debug)]
pub enum OutlineItem {
    /// A heading of the text: its line, level and title.
    Heading { ln: usize, lv: usize, title: String },
    /// A section the template requires that the text lacks.
    GhostHeading { lv: usize, title: String, desc: String },
}

pub enum OutlineView {
    Heading { ln: nat, lv: nat, title: Seq<char> },
    GhostHeading { lv: nat, title: Seq<char>, desc: Seq<char> },
}

impl View for OutlineItem {
    type V = OutlineView;

    open spec fn view(&self) -> OutlineView {
        match self {
            OutlineItem::Heading { ln, lv, title } => OutlineView::Heading {
                ln: *ln as nat,
                lv: *lv as nat,
                title: title@,
            },
            OutlineItem::GhostHeading { lv, title, desc } => OutlineView::GhostHeading {
                lv: *lv as nat,
                title: title@,
                desc: desc@,
            },
        }
    }
}

pub open spec fn outline_view(v: Seq<OutlineItem>) -> Seq<OutlineView> {
    v.map_values(|i: OutlineItem| i@)
}

/// Sort key of an outline entry: a heading's line; a missing section sorts last.
pub open spec fn outline_key(i: OutlineView) -> nat {
    match i {
        OutlineView::Heading { ln, .. } => ln,
        OutlineView::GhostHeading { .. } => 999999,
    }
}

/// Inserts `x` into `sorted` after every entry whose key is at most its key.
pub open spec fn insert_by_key(sorted: Seq<OutlineView>, x: OutlineView) -> Seq<OutlineView>
    decreases sorted.len(),
{
    if sorted.len() == 0 {
        seq![x]
    } else if outline_key(sorted.last()) <= outline_key(x) {
        sorted.push(x)
    } else {
        insert_by_key(sorted.drop_last(), x).push(sorted.last())
    }
}

/// Stable sort by key (`sort_by_key`).
pub open spec fn sort_by_key(items: Seq<OutlineView>) -> Seq<OutlineView>
    decreases items.len(),
{
    if items.len() == 0 {
        seq![]
    } else {
        insert_by_key(sort_by_key(items.drop_last()), items.last())
    }
}

/// The sections of the first `k` expected headings `ths` that are required and not
/// found among the headings `hs`.
pub open spec fn missing_sections(hs: Seq<(nat, nat, Seq<char>)>, ths: Seq<HeadingView>, k: int) -> Seq<OutlineView>
    decreases k,
{
    if k <= 0 {
        seq![]
    } else {
        let prev = missing_sections(hs, ths, k - 1);
        let th = ths[k - 1];
        if !heading_found(hs, th) && th.required {
            prev.push(OutlineView::GhostHeading { lv: th.level, title: heading_desc(th), desc: th.description })
        } else {
            prev
        }
    }
}

/// The outline of `s` under template `t`: its headings, then the required sections it
/// lacks, stably sorted by line (missing sections last).
pub open spec fn outline_of(s: Seq<char>, t: TemplateView) -> Seq<OutlineView> {
    let hs = headings_of(s);
    sort_by_key(
        hs.map_values(|h: (nat, nat, Seq<char>)| OutlineView::Heading { ln: h.0, lv: h.1, title: h.2 })
            + missing_sections(hs, t.expected_headings, t.expected_headings.len() as int),
    )
}

fn key_exec(i: &OutlineItem) -> (r: usize)
    ensures
        r == outline_key(i@),
{
    match i {
        OutlineItem::Heading { ln, .. } => *ln,
        OutlineItem::GhostHeading { .. } => 999999,
    }
}

fn insert_by_key_exec(sorted: &mut Vec<OutlineItem>, x: OutlineItem)
    ensures
        outline_view(final(sorted)@) == insert_by_key(outline_view(old(sorted)@), x@),
    decreases old(sorted)@.len(),
{
    let n = sorted.len();
    let ghost xv = x@;
    if n == 0 {
        sorted.push(x);
        assert(outline_view(sorted@) =~= seq![xv]);
    } else if key_exec(&sorted[n - 1]) <= key_exec(&x) {
        let ghost before = sorted@;
        sorted.push(x);
        assert(outline_view(sorted@) =~= outline_view(before).push(xv));
    } else {
        let ghost before = sorted@;
        let last = sorted.pop().unwrap();
        let ghost lv = last@;
        assert(outline_view(sorted@) =~= outline_view(before).drop_last());
        insert_by_key_exec(sorted, x);
        let ghost mid = sorted@;
        sorted.push(last);
        assert(outline_view(sorted@) =~= outline_view(mid).push(lv));
    }
}

/// The heading outline of `text` under `template` (see [`outline_of`]).
pub fn outline_items(text: &str, template: &ZqTemplate) -> (r: Vec<OutlineItem>)
    ensures
        outline_view(r@) == outline_of(text@, template@),
{
    let hs = extract_headings(text);
    let ghost hv = headings_view(hs@);
    let ghost ths = template@.expected_headings;
    let mut items: Vec<OutlineItem> = Vec::new();
    let mut i: usize = 0;
    let ghost hmap = hv.map_values(|h: (nat, nat, Seq<char>)| OutlineView::Heading { ln: h.0, lv: h.1, title: h.2 });
    while i < hs.len()
        invariant
            i <= hs@.len(),
            hv == headings_view(hs@),
            hmap == hv.map_values(|h: (nat, nat, Seq<char>)| OutlineView::Heading { ln: h.0, lv: h.1, title: h.2 }),
            outline_view(items@) == hmap.take(i as int),
        decreases hs@.len() - i,
    {
        let ghost before = items@;
        let title = hs[i].2.clone();
        assert(hv[i as int] == (hs@[i as int].0 as nat, hs@[i as int].1 as nat, hs@[i as int].2@));
        items.push(OutlineItem::Heading { ln: hs[i].0, lv: hs[i].1, title });
        assert(outline_view(items@) =~= outline_view(before).push(hmap[i as int]));
        assert(hmap.take(i + 1) =~= hmap.take(i as int).push(hmap[i as int]));
        i += 1;
    }
    assert(hmap.take(hs@.len() as int) =~= hmap);
    let mut k: usize = 0;
    while k < template.expected_headings.len()
        invariant
            k <= template.expected_headings@.len(),
            hv == headings_view(hs@),
            ths == template@.expected_headings,
            ths.len() == template.expected_headings@.len(),
            outline_view(items@) == hmap + missing_sections(hv, ths, k as int),
        decreases template.expected_headings@.len() - k,
    {
        let th = &template.expected_headings[k];
        assert(ths[k as int] == th@);
        let res = check_heading(&hs, th);
        if !res.passed && th.required {
            let mut title = String::new();
            match &th.title {
                Some(t) => push_str(&mut title, t.as_str()),
                None => {
                    push_str(&mut title, "H");
                    push_decimal(&mut title, th.level);
                },
            }
            proof {
                reveal_strlit("H");
            }
            assert(title@ == heading_desc(th@));
            let ghost before = items@;
            items.push(OutlineItem::GhostHeading { lv: th.level, title, desc: th.description.clone() });
            assert(outline_view(items@) =~= outline_view(before).push(
                OutlineView::GhostHeading { lv: th@.level, title: heading_desc(th@), desc: th@.description },
            ));
        }
        k += 1;
    }
    let ghost um = outline_view(items@);
    let count = items.len();
    let mut sorted: Vec<OutlineItem> = Vec::new();
    let mut m: usize = 0;
    while items.len() > 0
        invariant
            outline_view(items@) == um.skip(m as int),
            m <= um.len(),
            um.len() == count,
            outline_view(sorted@) == sort_by_key(um.take(m as int)),
        decreases items@.len(),
    {
        let ghost before = items@;
        assert(m < um.len()) by {
            assert(um.skip(m as int).len() > 0);
        }
        let x = items.remove(0);
        proof {
            assert(outline_view(items@) =~= outline_view(before).skip(1));
            assert(outline_view(before)[0] == um[m as int]);
            assert(outline_view(items@) =~= um.skip(m + 1));
            assert(um.take(m + 1).drop_last() =~= um.take(m as int));
            assert(um.take(m + 1).last() == um[m as int]);
        }
        insert_by_key_exec(&mut sorted, x);
        m += 1;
    }
    assert(um.skip(m as int).len() == 0);
    assert(um.take(m as int) =~= um);
    sorted
}

/// Whether the outline entry `idx` is the heading the reader is in: a heading at or
/// before `current_line` that is the last entry, or is followed by a missing section,
/// or by a heading after `current_line`.
pub open spec fn outline_active_of(items: Seq<OutlineView>, idx: int, current_line: nat) -> bool {
    match items[idx] {
        OutlineView::Heading { ln, .. } => current_line >= ln && (idx + 1 == items.len() || match items[idx + 1] {
            OutlineView::Heading { ln: next, .. } => current_line < next,
            OutlineView::GhostHeading { .. } => true,
        }),
        OutlineView::GhostHeading { .. } => false,
    }
}

/// Whether outline entry `idx` is highlighted (see [`outline_active_of`]).
pub fn outline_item_active(items: &Vec<OutlineItem>, idx: usize, current_line: usize) -> (r: bool)
    requires
        idx < items@.len(),
    ensures
        r == outline_active_of(outline_view(items@), idx as int, current_line as nat),
{
    let n = items.len();
    match &items[idx] {
        OutlineItem::Heading { ln, .. } => {
            if current_line < *ln {
                return false;
            }
            if idx + 1 == n {
                return true;
            }
            match &items[idx + 1] {
                OutlineItem::Heading { ln: next, .. } => current_line < *next,
                OutlineItem::GhostHeading { .. } => true,
            }
        },
        OutlineItem::GhostHeading { .. } => false,
    }
}

// ── Labels at the reading position ──

/// The last label from the `i`-th on that starts at or before byte `b`, stopping at
/// the first that starts after it; `cur` before any.
pub open spec fn label_before_from(ls: Seq<LabelView>, i: int, b: nat, cur: Option<int>) -> Option<int>
    decreases ls.len() - i,
{
    if i < 0 || i >= ls.len() || ls[i].start_byte > b {
        cur
    } else {
        label_before_from(ls, i + 1, b, Some(i))
    }
}

/// The label the reader is in at byte `current_byte`: the last one, from the start,
/// that starts at or before it.
pub fn active_label_index(labels: &[SemanticLabel], current_byte: usize) -> (r: Option<usize>)
    ensures
        match r {
            Some(i) => label_before_from(labels_view(labels@), 0, current_byte as nat, None) == Some(i as int),
            None => label_before_from(labels_view(labels@), 0, current_byte as nat, None) is None,
        },
{
    let ghost lv = labels_view(labels@);
    let mut cur: Option<usize> = None;
    let mut i: usize = 0;
    while i < labels.len() && labels[i].start_byte <= current_byte
        invariant
            i <= labels@.len(),
            lv == labels_view(labels@),
            label_before_from(lv, 0, current_byte as nat, None) == label_before_from(
                lv,
                i as int,
                current_byte as nat,
                match cur {
                    Some(j) => Some(j as int),
                    None => None,
                },
            ),
        decreases labels@.len() - i,
    {
        assert(lv[i as int] == labels@[i as int]@);
        cur = Some(i);
        i += 1;
    }
    proof {
        if i < labels@.len() {
            assert(lv[i as int] == labels@[i as int]@);
        }
    }
    cur
}

// ── Quick navigation ──

/// An entry of the quick-navigation list: the line it jumps to, the text shown,
/// whether it matches a nonempty filter, and for a label its category.
pub struct NavEntry {
    pub line: usize,
    pub text: String,
    pub is_match: bool,
    pub category: Option<String>,
}

pub struct NavView {
    pub line: nat,
    pub text: Seq<char>,
    pub is_match: bool,
    pub category: Option<Seq<char>>,
}

impl View for NavEntry {
    type V = NavView;

    open spec fn view(&self) -> NavView {
        NavView {
            line: self.line as nat,
            text: self.text@,
            is_match: self.is_match,
            category: crate::label::opt_string_view(self.category),
        }
    }
}

pub open spec fn nav_view(v: Seq<NavEntry>) -> Seq<NavView> {
    v.map_values(|e: NavEntry| e@)
}

/// `n` copies of `#`.
pub open spec fn hashes(n: nat) -> Seq<char> {
    Seq::new(n, |_i: int| '#')
}

/// The heading entries among the first `k` headings `hs` for the filter `f`.
pub open spec fn heading_entries(hs: Seq<(nat, nat, Seq<char>)>, k: int, f: Seq<char>) -> Seq<NavView>
    decreases k,
{
    if k <= 0 {
        seq![]
    } else {
        let prev = heading_entries(hs, k - 1, f);
        let h = hs[k - 1];
        let hit = contains_seq(lowercase_of(h.2), f);
        if f.len() == 0 || hit {
            prev.push(
                NavView {
                    line: h.0,
                    text: hashes(h.1) + " "@ + h.2 + " (L"@ + decimal(h.0) + ")"@,
                    is_match: f.len() > 0 && hit,
                    category: None,
                },
            )
        } else {
            prev
        }
    }
}

/// The label entries among the first `k` labels `ls` for the filter `f`: a label is
/// searched as `[category] text (Lline)`, lowercased.
pub open spec fn label_entries(ls: Seq<LabelView>, k: int, f: Seq<char>) -> Seq<NavView>
    decreases k,
{
    if k <= 0 {
        seq![]
    } else {
        let prev = label_entries(ls, k - 1, f);
        let l = ls[k - 1];
        let hit = contains_seq(
            lowercase_of("["@ + l.category + "] "@ + l.text + " (L"@ + decimal(l.line) + ")"@),
            f,
        );
        if f.len() == 0 || hit {
            prev.push(
                NavView {
                    line: l.line,
                    text: l.category + " "@ + l.text + " (L"@ + decimal(l.line) + ")"@,
                    is_match: f.len() > 0 && hit,
                    category: Some(l.category),
                },
            )
        } else {
            prev
        }
    }
}

/// The quick-navigation list of `s` for the query `query`: lowercased, a leading `@`
/// shows only labels and a leading `#` only headings (the rest being the filter);
/// headings first, then labels.
pub open spec fn quick_nav_of(s: Seq<char>, query: Seq<char>) -> Seq<NavView> {
    let q = lowercase_of(query);
    let only_labels = q.len() > 0 && q[0] == '@';
    let only_headings = q.len() > 0 && q[0] == '#';
    let f = if only_labels || only_headings { q.skip(1) } else { q };
    let hs = headings_of(s);
    let ls = parse_labels(s, seq!['['], seq![']']);
    (if only_labels { seq![] } else { heading_entries(hs, hs.len() as int, f) }) + (if only_headings {
        seq![]
    } else {
        label_entries(ls, ls.len() as int, f)
    })
}

fn push_hashes(out: &mut String, n: usize)
    ensures
        final(out)@ == old(out)@ + hashes(n as nat),
{
    let mut i: usize = 0;
    while i < n
        invariant
            i <= n,
            out@ == old(out)@ + hashes(i as nat),
        decreases n - i,
    {
        string_push(out, '#');
        assert(hashes((i + 1) as nat) =~= hashes(i as nat).push('#'));
        i += 1;
    }
}

/// The quick-navigation list for `query` (see [`quick_nav_of`]).
pub fn quick_nav_entries(text: &str, query: &str) -> (r: Vec<NavEntry>)
    ensures
        nav_view(r@) == quick_nav_of(text@, query@),
{
    let q = chars_of(to_lowercase(query).as_str());
    let only_labels = q.len() > 0 && q[0] == '@';
    let only_headings = q.len() > 0 && q[0] == '#';
    let f = if only_labels || only_headings { crate::text::sub_chars(&q, 1, q.len()) } else { crate::text::sub_chars(&q, 0, q.len()) };
    proof {
        assert(q@.subrange(1, q@.len() as int) =~= q@.skip(1));
        assert(q@.subrange(0, q@.len() as int) =~= q@);
        reveal_strlit(" ");
        reveal_strlit(" (L");
        reveal_strlit(")");
        reveal_strlit("[");
        reveal_strlit("] ");
    }
    let mut out: Vec<NavEntry> = Vec::new();
    if !only_labels {
        let hs = extract_headings(text);
        let ghost hv = headings_view(hs@);
        let mut i: usize = 0;
        while i < hs.len()
            invariant
                i <= hs@.len(),
                hv == headings_view(hs@),
                nav_view(out@) == heading_entries(hv, i as int, f@),
            decreases hs@.len() - i,
        {
            assert(hv[i as int] == (hs@[i as int].0 as nat, hs@[i as int].1 as nat, hs@[i as int].2@));
            let lower = to_lowercase(hs[i].2.as_str());
            let hit = contains_str(&chars_of(lower.as_str()), &f);
            if f.len() == 0 || hit {
                let mut t = String::new();
                push_hashes(&mut t, hs[i].1);
                push_str(&mut t, " ");
                push_str(&mut t, hs[i].2.as_str());
                push_str(&mut t, " (L");
                push_decimal(&mut t, hs[i].0);
                push_str(&mut t, ")");
                let ghost before = out@;
                out.push(NavEntry { line: hs[i].0, text: t, is_match: f.len() > 0 && hit, category: None });
                assert(nav_view(out@) =~= nav_view(before).push(heading_entries(hv, i + 1, f@).last()));
            }
            i += 1;
        }
    }
    let ghost mid = nav_view(out@);
    if !only_headings {
        let ls = parse_semantic_labels(text);
        let ghost lv = labels_view(ls@);
        let mut i: usize = 0;
        while i < ls.len()
            invariant
                i <= ls@.len(),
                lv == labels_view(ls@),
                nav_view(out@) == mid + label_entries(lv, i as int, f@),
            decreases ls@.len() - i,
        {
            assert(lv[i as int] == ls@[i as int]@);
            let l = &ls[i];
            let mut disp = String::new();
            push_str(&mut disp, "[");
            push_str(&mut disp, l.category.as_str());
            push_str(&mut disp, "] ");
            push_str(&mut disp, l.text.as_str());
            push_str(&mut disp, " (L");
            push_decimal(&mut disp, l.line);
            push_str(&mut disp, ")");
            let lower = to_lowercase(disp.as_str());
            let hit = contains_str(&chars_of(lower.as_str()), &f);
            if f.len() == 0 || hit {
                let mut t = String::new();
                push_str(&mut t, l.category.as_str());
                push_str(&mut t, " ");
                push_str(&mut t, l.text.as_str());
                push_str(&mut t, " (L");
                push_decimal(&mut t, l.line);
                push_str(&mut t, ")");
                let ghost before = out@;
                out.push(NavEntry { line: l.line, text: t, is_match: f.len() > 0 && hit, category: Some(l.category.clone()) });
                assert(nav_view(out@) =~= nav_view(before).push(label_entries(lv, i + 1, f@).last()));
            }
            i += 1;
        }
    }
    out
}

// ── Command palette ──

/// Indices of the commands shown for `query`: all for an empty query, else those whose
/// lowercased name contains the lowercased query.
pub open spec fn command_matches(names: Seq<Seq<char>>, k: int, q: Seq<char>) -> Seq<nat>
    decreases k,
{
    if k <= 0 {
        seq![]
    } else {
        let prev = command_matches(names, k - 1, q);
        if q.len() == 0 || contains_seq(lowercase_of(names[k - 1]), q) {
            prev.push((k - 1) as nat)
        } else {
            prev
        }
    }
}

/// Indices of the commands the palette shows for `query` (see [`command_matches`]).
pub fn filter_commands(names: &Vec<String>, query: &str) -> (r: Vec<usize>)
    ensures
        r@.map_values(|i: usize| i as nat) == command_matches(
            crate::label::strings_view(names@),
            names@.len() as int,
            lowercase_of(query@),
        ),
{
    let q = chars_of(to_lowercase(query).as_str());
    let ghost nv = crate::label::strings_view(names@);
    let mut out: Vec<usize> = Vec::new();
    let mut i: usize = 0;
    while i < names.len()
        invariant
            i <= names@.len(),
            nv == crate::label::strings_view(names@),
            out@.map_values(|i: usize| i as nat) == command_matches(nv, i as int, q@),
        decreases names@.len() - i,
    {
        let lower = to_lowercase(names[i].as_str());
        assert(nv[i as int] == names@[i as int]@);
        if q.len() == 0 || contains_str(&chars_of(lower.as_str()), &q) {
            let ghost before = out@;
            out.push(i);
            assert(out@.map_values(|i: usize| i as nat) =~= before.map_values(|i: usize| i as nat).push(i as nat));
        }
        i += 1;
    }
    out
}

// ── Laws ──

/// Number of results that failed.
pub open spec fn failed_count(rs: Seq<ResultView>) -> nat
    decreases rs.len(),
{
    if rs.len() == 0 {
        0
    } else {
        failed_count(rs.drop_last()) + if rs.last().passed {
            0nat
        } else {
            1nat
        }
    }
}

proof fn lemma_ghosts_failed(hs: Seq<(nat, nat, Seq<char>)>, ths: Seq<HeadingView>, k: int)
    requires
        0 <= k <= ths.len(),
    ensures
        missing_sections(hs, ths, k).len() == failed_count(heading_results(hs, ths, k)),
    decreases k,
{
    if k > 0 {
        lemma_ghosts_failed(hs, ths, k - 1);
        let prev = heading_results(hs, ths, k - 1);
        if ths[k - 1].required {
            assert(heading_results(hs, ths, k).drop_last() == prev);
        }
    }
}

/// The outline shows one placeholder for each failed heading check of the template's
/// validation: as many missing sections as failed heading results.
pub proof fn law_ghosts_match_failed_checks(s: Seq<char>, t: TemplateView)
    ensures
        missing_sections(headings_of(s), t.expected_headings, t.expected_headings.len() as int).len()
            == failed_count(heading_results(headings_of(s), t.expected_headings, t.expected_headings.len() as int)),
{
    lemma_ghosts_failed(headings_of(s), t.expected_headings, t.expected_headings.len() as int);
}

/// The free-writing template asks for nothing: validating any text against it gives
/// no results, and its outline has no placeholders.
pub proof fn law_freeform_unconstrained(s: Seq<char>)
    ensures
        validation(s, freeform_view()).len() == 0,
        missing_sections(headings_of(s), freeform_view().expected_headings, freeform_view().expected_headings.len() as int).len() == 0,
{
    assert(freeform_view().expected_headings.len() == 0);
    assert(freeform_view().label_types.len() == 0);
}

} // verus!
