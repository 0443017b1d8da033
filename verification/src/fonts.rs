//! Choosing the system fonts the editor offers: which font files qualify, the family
//! name a font file gives, and the order and deduplication of the list.

use vstd::prelude::*;
use crate::label::{chars_eq, opt_string_view};
use crate::text::{chars_of, lowercase_of, to_lowercase, utf8_len, byte_len};
use crate::workspace::ends_with;
use crate::template::{contains_seq, contains_str};

verus! {

/// A font the editor offers: the key it is registered under (its file stem) and the
/// name shown.
#[derive(Clone, Debug)]
pub struct FontEntry {
    pub key: String,
    pub display: String,
}

pub struct FontView {
    pub key: Seq<char>,
    pub display: Seq<char>,
}

impl View for FontEntry {
    type V = FontView;

    open spec fn view(&self) -> FontView {
        FontView { key: self.key@, display: self.display@ }
    }
}

pub open spec fn fonts_view(v: Seq<FontEntry>) -> Seq<FontView> {
    v.map_values(|f: FontEntry| f@)
}

/// A lowercased file stem that names a bold, italic, light or similar style of a
/// font rather than its regular face.
pub open spec fn is_style_variant(s: Seq<char>) -> bool {
    let long = utf8_len(s) > 3;
    ||| ends_with(s, seq!['b', 'd'])
    ||| ends_with(s, seq!['b', 'i'])
    ||| (ends_with(s, seq!['b']) && long)
    ||| (ends_with(s, seq!['i']) && long)
    ||| ends_with(s, seq!['i', 't'])
    ||| (ends_with(s, seq!['l']) && long)
    ||| ends_with(s, seq!['l', 'i'])
    ||| (ends_with(s, seq!['z']) && long)
}

/// A font file the editor considers: extension `ttf`, `ttc` or `otf` (in any case) and
/// a stem that is not a style variant.
pub open spec fn font_candidate(ext: Seq<char>, stem: Seq<char>) -> bool {
    let e = lowercase_of(ext);
    (e == seq!['t', 't', 'f'] || e == seq!['t', 't', 'c'] || e == seq!['o', 't', 'f'])
        && !is_style_variant(lowercase_of(stem))
}

fn ends_with_exec(s: &Vec<char>, t: &Vec<char>) -> (r: bool)
    ensures
        r == ends_with(s@, t@),
{
    if t.len() > s.len() {
        return false;
    }
    let tail = crate::text::sub_chars(s, s.len() - t.len(), s.len());
    assert(s@.subrange(s@.len() - t@.len(), s@.len() as int) =~= s@.skip(s@.len() - t@.len()));
    chars_eq(&tail, t)
}

fn lit(s: &str) -> (r: Vec<char>)
    ensures
        r@ == s@,
{
    chars_of(s)
}

/// Whether a font file with extension `ext` and stem `stem` is considered (see
/// [`font_candidate`]).
pub fn is_font_candidate(ext: &str, stem: &str) -> (r: bool)
    ensures
        r == font_candidate(ext@, stem@),
{
    proof {
        reveal_strlit("ttf");
        reveal_strlit("ttc");
        reveal_strlit("otf");
        reveal_strlit("bd");
        reveal_strlit("bi");
        reveal_strlit("b");
        reveal_strlit("i");
        reveal_strlit("it");
        reveal_strlit("l");
        reveal_strlit("li");
        reveal_strlit("z");
        assert("ttf"@ =~= seq!['t', 't', 'f']);
        assert("ttc"@ =~= seq!['t', 't', 'c']);
        assert("otf"@ =~= seq!['o', 't', 'f']);
        assert("bd"@ =~= seq!['b', 'd']);
        assert("bi"@ =~= seq!['b', 'i']);
        assert("b"@ =~= seq!['b']);
        assert("i"@ =~= seq!['i']);
        assert("it"@ =~= seq!['i', 't']);
        assert("l"@ =~= seq!['l']);
        assert("li"@ =~= seq!['l', 'i']);
        assert("z"@ =~= seq!['z']);
    }
    let e = chars_of(to_lowercase(ext).as_str());
    if !(chars_eq(&e, &lit("ttf")) || chars_eq(&e, &lit("ttc")) || chars_eq(&e, &lit("otf"))) {
        return false;
    }
    let lower = to_lowercase(stem);
    let s = chars_of(lower.as_str());
    let long = byte_len(lower.as_str()) > 3;
    let variant = ends_with_exec(&s, &lit("bd")) || ends_with_exec(&s, &lit("bi"))
        || (ends_with_exec(&s, &lit("b")) && long) || (ends_with_exec(&s, &lit("i")) && long)
        || ends_with_exec(&s, &lit("it")) || (ends_with_exec(&s, &lit("l")) && long)
        || ends_with_exec(&s, &lit("li")) || (ends_with_exec(&s, &lit("z")) && long);
    !variant
}

/// What `ttf_parser` reads from font data: for each entry of the naming table of its
/// first face, the name id and, where the name is Unicode, its text; `None` where the
/// data is not a font.
pub uninterp spec fn ttf_names(data: Seq<u8>) -> Option<Seq<(u16, Option<Seq<char>>)>>;

pub open spec fn names_view(v: Seq<(u16, Option<String>)>) -> Seq<(u16, Option<Seq<char>>)> {
    v.map_values(|p: (u16, Option<String>)| (p.0, opt_string_view(p.1)))
}

/// `ttf_parser::Face::parse(data, 0)`, then `Face::names` with each entry's `name_id`
/// and `Name::to_string`: the naming table of the font's first face, named by
/// `ttf_names`; `None` where parsing fails.
#[verifier::external_body]
fn font_names(data: &[u8]) -> (r: Option<Vec<(u16, Option<String>)>>)
    ensures
        match r {
            Some(v) => ttf_names(data@) == Some(names_view(v@)),
            None => ttf_names(data@) is None,
        },
{
    match ttf_parser::Face::parse(data, 0) {
        Ok(face) => {
            let mut v = Vec::new();
            for n in face.names() {
                v.push((n.name_id, n.to_string()));
            }
            Some(v)
        },
        Err(_) => None,
    }
}

/// Name id of a font's family name in the naming table.
pub const FAMILY_NAME_ID: u16 = 1;

/// The first family name with a text among the names `ns`.
pub open spec fn family_name_from(ns: Seq<(u16, Option<Seq<char>>)>, i: int) -> Option<Seq<char>>
    decreases ns.len() - i,
{
    if i < 0 || i >= ns.len() {
        None
    } else if ns[i].0 == FAMILY_NAME_ID && ns[i].1 is Some {
        ns[i].1
    } else {
        family_name_from(ns, i + 1)
    }
}

/// The entry for font data `data` with file stem `stem`: keyed by the stem and shown
/// by the font's first family name, or by the stem where it has none; `None` where the
/// data is not a font.
pub open spec fn font_entry_of(stem: Seq<char>, data: Seq<u8>) -> Option<FontView> {
    match ttf_names(data) {
        None => None,
        Some(ns) => Some(
            FontView {
                key: stem,
                display: match family_name_from(ns, 0) {
                    Some(n) => n,
                    None => stem,
                },
            },
        ),
    }
}

/// The entry for a font file (see [`font_entry_of`]).
pub fn font_entry(stem: &str, data: &[u8]) -> (r: Option<FontEntry>)
    ensures
        match r {
            Some(f) => font_entry_of(stem@, data@) == Some(f@),
            None => font_entry_of(stem@, data@) is None,
        },
{
    let names = match font_names(data) {
        Some(v) => v,
        None => {
            return None;
        },
    };
    let ghost nv = names_view(names@);
    let mut i: usize = 0;
    while i < names.len()
        invariant
            i <= names@.len(),
            nv == names_view(names@),
            ttf_names(data@) == Some(nv),
            family_name_from(nv, 0) == family_name_from(nv, i as int),
        decreases names@.len() - i,
    {
        assert(nv[i as int] == (names@[i as int].0, opt_string_view(names@[i as int].1)));
        if names[i].0 == FAMILY_NAME_ID {
            match &names[i].1 {
                Some(n) => {
                    assert(nv[i as int] == (FAMILY_NAME_ID, Some(n@)));
                    assert(family_name_from(nv, i as int) == Some(n@));
                    return Some(FontEntry { key: String::from_str(stem), display: n.clone() });
                },
                None => {},
            }
        }
        i += 1;
    }
    Some(FontEntry { key: String::from_str(stem), display: String::from_str(stem) })
}

// ── Ordering the list ──

/// `a` comes at or before `b` in lexicographic order of code points (the byte order of
/// their UTF-8 encodings).
pub open spec fn lex_le(a: Seq<char>, b: Seq<char>) -> bool
    decreases a.len(),
{
    if a.len() == 0 {
        true
    } else if b.len() == 0 {
        false
    } else if a[0] != b[0] {
        (a[0] as u32) < (b[0] as u32)
    } else {
        lex_le(a.skip(1), b.skip(1))
    }
}

/// Inserts `x` into `sorted` after every font whose lowercased name is at or before
/// its own.
pub open spec fn insert_font(sorted: Seq<FontView>, x: FontView) -> Seq<FontView>
    decreases sorted.len(),
{
    if sorted.len() == 0 {
        seq![x]
    } else if lex_le(lowercase_of(sorted.last().display), lowercase_of(x.display)) {
        sorted.push(x)
    } else {
        insert_font(sorted.drop_last(), x).push(sorted.last())
    }
}

/// Stable sort by lowercased name.
pub open spec fn sort_fonts_spec(fs: Seq<FontView>) -> Seq<FontView>
    decreases fs.len(),
{
    if fs.len() == 0 {
        seq![]
    } else {
        insert_font(sort_fonts_spec(fs.drop_last()), fs.last())
    }
}

/// The first `k` fonts without those whose lowercased name equals that of the font
/// before them.
pub open spec fn dedup_fonts(fs: Seq<FontView>, k: int) -> Seq<FontView>
    decreases k,
{
    if k <= 0 {
        seq![]
    } else if k == 1 {
        seq![fs[0]]
    } else if lowercase_of(fs[k - 1].display) == lowercase_of(fs[k - 2].display) {
        dedup_fonts(fs, k - 1)
    } else {
        dedup_fonts(fs, k - 1).push(fs[k - 1])
    }
}

/// The font list as offered: sorted by lowercased name, keeping the first of fonts
/// with the same lowercased name.
pub open spec fn font_list_of(fs: Seq<FontView>) -> Seq<FontView> {
    let s = sort_fonts_spec(fs);
    dedup_fonts(s, s.len() as int)
}

fn lex_le_exec(a: &Vec<char>, b: &Vec<char>) -> (r: bool)
    ensures
        r == lex_le(a@, b@),
{
    let mut i: usize = 0;
    assert(a@.skip(0) =~= a@);
    assert(b@.skip(0) =~= b@);
    while i < a.len()
        invariant
            i <= a@.len(),
            lex_le(a@, b@) == lex_le(a@.skip(i as int), b@.skip(i as int)),
            i <= b@.len(),
        decreases a@.len() - i,
    {
        if i >= b.len() {
            return false;
        }
        assert(a@.skip(i as int)[0] == a@[i as int]);
        assert(b@.skip(i as int)[0] == b@[i as int]);
        if a[i] != b[i] {
            return (a[i] as u32) < (b[i] as u32);
        }
        assert(a@.skip(i as int).skip(1) =~= a@.skip(i + 1));
        assert(b@.skip(i as int).skip(1) =~= b@.skip(i + 1));
        i += 1;
    }
    true
}

fn lower_chars(s: &String) -> (r: Vec<char>)
    ensures
        r@ == lowercase_of(s@),
{
    chars_of(to_lowercase(s.as_str()).as_str())
}

fn insert_font_exec(sorted: &mut Vec<FontEntry>, x: FontEntry)
    ensures
        fonts_view(final(sorted)@) == insert_font(fonts_view(old(sorted)@), x@),
    decreases old(sorted)@.len(),
{
    let n = sorted.len();
    let ghost xv = x@;
    if n == 0 {
        sorted.push(x);
        assert(fonts_view(sorted@) =~= seq![xv]);
    } else if lex_le_exec(&lower_chars(&sorted[n - 1].display), &lower_chars(&x.display)) {
        let ghost before = sorted@;
        sorted.push(x);
        assert(fonts_view(sorted@) =~= fonts_view(before).push(xv));
    } else {
        let ghost before = sorted@;
        let last = sorted.pop().unwrap();
        let ghost lv = last@;
        assert(fonts_view(sorted@) =~= fonts_view(before).drop_last());
        insert_font_exec(sorted, x);
        let ghost mid = sorted@;
        sorted.push(last);
        assert(fonts_view(sorted@) =~= fonts_view(mid).push(lv));
    }
}

/// The font list as offered (see [`font_list_of`]).
pub fn sort_font_entries(entries: Vec<FontEntry>) -> (r: Vec<FontEntry>)
    ensures
        fonts_view(r@) == font_list_of(fonts_view(entries@)),
{
    let ghost um = fonts_view(entries@);
    let count = entries.len();
    let mut rest = entries;
    let mut sorted: Vec<FontEntry> = Vec::new();
    let mut m: usize = 0;
    while rest.len() > 0
        invariant
            fonts_view(rest@) == um.skip(m as int),
            m <= um.len(),
            um.len() == count,
            fonts_view(sorted@) == sort_fonts_spec(um.take(m as int)),
        decreases rest@.len(),
    {
        let ghost before = rest@;
        assert(m < um.len()) by {
            assert(um.skip(m as int).len() > 0);
        }
        let x = rest.remove(0);
        proof {
            assert(fonts_view(rest@) =~= fonts_view(before).skip(1));
            assert(fonts_view(before)[0] == um[m as int]);
            assert(fonts_view(rest@) =~= um.skip(m + 1));
            assert(um.take(m + 1).drop_last() =~= um.take(m as int));
            assert(um.take(m + 1).last() == um[m as int]);
        }
        insert_font_exec(&mut sorted, x);
        m += 1;
    }
    assert(um.skip(m as int).len() == 0);
    assert(um.take(m as int) =~= um);
    let ghost sv = fonts_view(sorted@);
    let mut out: Vec<FontEntry> = Vec::new();
    let mut k: usize = 0;
    let n = sorted.len();
    while k < n
        invariant
            k <= n,
            n == sorted@.len(),
            sv == fonts_view(sorted@),
            fonts_view(out@) == dedup_fonts(sv, k as int),
        decreases n - k,
    {
        let ghost before = out@;
        if k == 0 {
            let f = FontEntry { key: sorted[0].key.clone(), display: sorted[0].display.clone() };
            out.push(f);
            assert(fonts_view(out@) =~= seq![sv[0]]);
        } else {
            let same = chars_eq(&lower_chars(&sorted[k].display), &lower_chars(&sorted[k - 1].display));
            if !same {
                let f = FontEntry { key: sorted[k].key.clone(), display: sorted[k].display.clone() };
                out.push(f);
                assert(fonts_view(out@) =~= fonts_view(before).push(sv[k as int]));
            }
        }
        k += 1;
    }
    out
}

/// The name shown for the font `font_name`: the display name of the first entry with
/// that key, or the key itself.
pub open spec fn font_display_of(fs: Seq<FontView>, font_name: Seq<char>, i: int) -> Seq<char>
    decreases fs.len() - i,
{
    if i < 0 || i >= fs.len() {
        font_name
    } else if fs[i].key == font_name {
        fs[i].display
    } else {
        font_display_of(fs, font_name, i + 1)
    }
}

/// The name shown for the font `font_name` among `entries` (see [`font_display_of`]).
pub fn font_display_name(entries: &Vec<FontEntry>, font_name: &str) -> (r: String)
    ensures
        r@ == font_display_of(fonts_view(entries@), font_name@, 0),
{
    let ghost fv = fonts_view(entries@);
    let target = chars_of(font_name);
    let mut i: usize = 0;
    while i < entries.len()
        invariant
            i <= entries@.len(),
            fv == fonts_view(entries@),
            target@ == font_name@,
            font_display_of(fv, font_name@, 0) == font_display_of(fv, font_name@, i as int),
        decreases entries@.len() - i,
    {
        assert(fv[i as int] == entries@[i as int]@);
        if chars_eq(&chars_of(entries[i].key.as_str()), &target) {
            return entries[i].display.clone();
        }
        i += 1;
    }
    String::from_str(font_name)
}


// ── Font search ──

/// Indices among the first `k` fonts of `fs` that the font menu shows for the lowercased
/// query `q`: all of them for an empty query, else those whose shown name, lowercased,
/// contains `q`.
pub open spec fn font_matches(fs: Seq<FontView>, k: int, q: Seq<char>) -> Seq<nat>
    decreases k,
{
    if k <= 0 {
        seq![]
    } else {
        let prev = font_matches(fs, k - 1, q);
        if q.len() == 0 || contains_seq(lowercase_of(fs[k - 1].display), q) {
            prev.push((k - 1) as nat)
        } else {
            prev
        }
    }
}

/// Indices of the fonts the font menu shows for the search text `query` (see
/// [`font_matches`]); the search ignores case.
pub fn filter_fonts(entries: &Vec<FontEntry>, query: &str) -> (r: Vec<usize>)
    ensures
        r@.map_values(|i: usize| i as nat) == font_matches(
            fonts_view(entries@),
            entries@.len() as int,
            lowercase_of(query@),
        ),
{
    let q = chars_of(to_lowercase(query).as_str());
    let ghost fv = fonts_view(entries@);
    let mut out: Vec<usize> = Vec::new();
    let mut i: usize = 0;
    while i < entries.len()
        invariant
            i <= entries@.len(),
            fv == fonts_view(entries@),
            out@.map_values(|i: usize| i as nat) == font_matches(fv, i as int, q@),
        decreases entries@.len() - i,
    {
        let lower = to_lowercase(entries[i].display.as_str());
        assert(fv[i as int] == entries@[i as int]@);
        if q.len() == 0 || contains_str(&chars_of(lower.as_str()), &q) {
            let ghost before = out@;
            out.push(i);
            assert(out@.map_values(|i: usize| i as nat) =~= before.map_values(|i: usize| i as nat).push(i as nat));
        }
        i += 1;
    }
    out
}

} // verus!
