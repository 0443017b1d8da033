//! The writer's workspace: which files it lists, its tabs and split view, the active
//! template, and what dragging an outline item does to the text.

use vstd::prelude::*;
use crate::blocks::{markdown_move, move_markdown_chunk, move_semantic_chunk, semantic_move};
use crate::label::chars_eq;
use crate::template::{apa_view, baguwen_view, freeform_view, screenplay_view, TemplateView, ZqTemplate};
use crate::text::{chars_of, string_push};

verus! {

#[verifier::external_type_specification]
#[verifier::external_body]
pub struct ExPathBuf(std::path::PathBuf);

/// `Clone::clone` for `PathBuf` (std), which dragged file items are cloned with. Paths
/// are opaque here, so nothing is stated of the copy.
pub assume_specification[ <std::path::PathBuf as Clone>::clone ](p: &std::path::PathBuf) -> (r: std::path::PathBuf);

/// An item dragged in the sidebar.
#[derive(Clone, Debug, PartialEq)]
pub enum SidebarDragItem {
    /// A label, by its index among the document's labels.
    Semantic(usize),
    /// A heading, by its line number.
    Markdown(usize),
    /// A file of the workspace.
    File(std::path::PathBuf),
}

/// Applies the drop of a dragged sidebar item: a label's chunk or a heading's section
/// moves to `target_idx` (see [`move_semantic_chunk`] and [`move_markdown_chunk`]); a
/// file leaves the text as it is.
pub fn handle_structural_move(text: &mut String, item: SidebarDragItem, target_idx: usize, is_child: bool)
    requires
        item is Semantic ==> target_idx < usize::MAX,
    ensures
        match item {
            SidebarDragItem::Semantic(i) => final(text)@ == semantic_move(
                old(text)@,
                i as int,
                target_idx as int,
                is_child,
            ),
            SidebarDragItem::Markdown(l) => final(text)@ == markdown_move(
                old(text)@,
                l as int,
                target_idx as int,
                is_child,
            ),
            SidebarDragItem::File(_) => final(text)@ == old(text)@,
        },
{
    match item {
        SidebarDragItem::Semantic(from_idx) => move_semantic_chunk(text, from_idx, target_idx, is_child),
        SidebarDragItem::Markdown(from_line) => move_markdown_chunk(text, from_line, target_idx, is_child),
        SidebarDragItem::File(_) => {},
    }
}

// ── Files ──

/// Index of the last `c` in `s`, or -1.
pub open spec fn last_index_of(s: Seq<char>, c: char) -> int
    decreases s.len(),
{
    if s.len() == 0 {
        -1
    } else if s.last() == c {
        s.len() - 1
    } else {
        last_index_of(s.drop_last(), c)
    }
}

/// The extension of a file name as `Path::extension` gives it: what follows the last
/// `.`, where that `.` is not the name's first character; none for `..`.
pub open spec fn extension_of(name: Seq<char>) -> Option<Seq<char>> {
    let k = last_index_of(name, '.');
    if name == seq!['.', '.'] || k <= 0 {
        None
    } else {
        Some(name.skip(k + 1))
    }
}

/// `s` ends with `t`.
pub open spec fn ends_with(s: Seq<char>, t: Seq<char>) -> bool {
    t.len() <= s.len() && s.skip(s.len() - t.len()) == t
}

/// A file name the editor opens: `*.zq.md`, or the extension `txt`, `md`, `log` or `zq`.
pub open spec fn supported_name(name: Seq<char>) -> bool {
    ||| ends_with(name, seq!['.', 'z', 'q', '.', 'm', 'd'])
    ||| extension_of(name) == Some(seq!['t', 'x', 't'])
    ||| extension_of(name) == Some(seq!['m', 'd'])
    ||| extension_of(name) == Some(seq!['l', 'o', 'g'])
    ||| extension_of(name) == Some(seq!['z', 'q'])
}

fn last_dot(v: &Vec<char>) -> (r: Option<usize>)
    ensures
        match r {
            Some(k) => last_index_of(v@, '.') == k && k < v@.len(),
            None => last_index_of(v@, '.') == -1,
        },
{
    let mut k = v.len();
    assert(v@.take(k as int) =~= v@);
    while k > 0
        invariant
            k <= v@.len(),
            last_index_of(v@, '.') == last_index_of(v@.take(k as int), '.'),
        decreases k,
    {
        assert(v@.take(k as int).drop_last() =~= v@.take(k - 1));
        if v[k - 1] == '.' {
            return Some(k - 1);
        }
        k -= 1;
    }
    None
}

/// The extension of the file name `name` (see [`extension_of`]).
pub fn file_extension(name: &str) -> (r: Option<String>)
    ensures
        crate::label::opt_string_view(r) == extension_of(name@),
{
    let v = chars_of(name);
    if v.len() == 2 && v[0] == '.' && v[1] == '.' {
        assert(v@ =~= seq!['.', '.']);
        return None;
    }
    match last_dot(&v) {
        Some(k) if k > 0 => {
            let ext = crate::text::string_of(&v, k + 1, v.len());
            assert(v@.subrange(k + 1, v@.len() as int) =~= v@.skip(k + 1));
            Some(ext)
        },
        _ => None,
    }
}

fn is_literal(r: &Option<String>, lit: &str) -> (b: bool)
    ensures
        b == (crate::label::opt_string_view(*r) == Some(lit@)),
{
    match r {
        Some(s) => chars_eq(&chars_of(s.as_str()), &chars_of(lit)),
        None => false,
    }
}

/// Whether the editor opens a file named `name`: a `.zq.md` name, or the extension
/// `txt`, `md`, `log` or `zq`. (The empty name, for a path without a file name, is
/// not opened.)
pub fn is_supported_file(name: &str) -> (r: bool)
    ensures
        r == supported_name(name@),
{
    let v = chars_of(name);
    let suffix = chars_of(".zq.md");
    proof {
        reveal_strlit(".zq.md");
        reveal_strlit("txt");
        reveal_strlit("md");
        reveal_strlit("log");
        reveal_strlit("zq");
        assert(".zq.md"@ =~= seq!['.', 'z', 'q', '.', 'm', 'd']);
        assert("txt"@ =~= seq!['t', 'x', 't']);
        assert("md"@ =~= seq!['m', 'd']);
        assert("log"@ =~= seq!['l', 'o', 'g']);
        assert("zq"@ =~= seq!['z', 'q']);
    }
    if v.len() >= 6 {
        let tail = crate::text::sub_chars(&v, v.len() - 6, v.len());
        assert(v@.subrange(v@.len() - 6, v@.len() as int) =~= v@.skip(v@.len() - 6));
        if chars_eq(&tail, &suffix) {
            return true;
        }
    }
    let ext = file_extension(name);
    is_literal(&ext, "txt") || is_literal(&ext, "md") || is_literal(&ext, "log") || is_literal(&ext, "zq")
}

/// Whether a file named `name` is stored as a `.zq` file, with its display settings in
/// a metadata block.
pub fn has_zq_extension(name: &str) -> (r: bool)
    ensures
        r == (extension_of(name@) == Some(seq!['z', 'q'])),
{
    let ext = file_extension(name);
    proof {
        reveal_strlit("zq");
        assert("zq"@ =~= seq!['z', 'q']);
    }
    is_literal(&ext, "zq")
}

/// A character that cannot stand in a theme's file name.
pub open spec fn unsafe_file_char(c: char) -> bool {
    c == '/' || c == '\\' || c == ':' || c == '*' || c == '?' || c == '"' || c == '<' || c == '>'
        || c == '|'
}

/// `name` with each character that cannot stand in a file name replaced by `_`.
pub open spec fn safe_file_stem(name: Seq<char>) -> Seq<char> {
    name.map_values(|c: char| if unsafe_file_char(c) { '_' } else { c })
}

/// The file name a theme named `name` is saved under: [`safe_file_stem`], then
/// `.zqtheme`.
pub open spec fn theme_file_name_of(name: Seq<char>) -> Seq<char> {
    safe_file_stem(name) + ".zqtheme"@
}

/// The file name a highlight rule set named `name` is saved under: [`safe_file_stem`],
/// then `.zqrules`.
pub open spec fn rules_file_name_of(name: Seq<char>) -> Seq<char> {
    safe_file_stem(name) + ".zqrules"@
}

fn push_safe_stem(out: &mut String, name: &str)
    ensures
        final(out)@ == old(out)@ + safe_file_stem(name@),
{
    let v = chars_of(name);
    let mut i: usize = 0;
    let ghost start = out@;
    while i < v.len()
        invariant
            i <= v@.len(),
            v@ == name@,
            out@ == start + safe_file_stem(v@.take(i as int)),
        decreases v@.len() - i,
    {
        let c = v[i];
        let d = if c == '/' || c == '\\' || c == ':' || c == '*' || c == '?' || c == '"' || c == '<'
            || c == '>' || c == '|' {
            '_'
        } else {
            c
        };
        string_push(out, d);
        assert(safe_file_stem(v@.take(i + 1)) =~= safe_file_stem(v@.take(i as int)).push(d));
        i += 1;
    }
    assert(v@.take(v@.len() as int) =~= v@);
}

/// The file name a theme named `name` is saved under.
pub fn theme_file_name(name: &str) -> (r: String)
    ensures
        r@ == theme_file_name_of(name@),
{
    let mut out = String::new();
    push_safe_stem(&mut out, name);
    crate::text::push_str(&mut out, ".zqtheme");
    out
}

/// The file name a highlight rule set named `name` is saved under.
pub fn rules_file_name(name: &str) -> (r: String)
    ensures
        r@ == rules_file_name_of(name@),
{
    let mut out = String::new();
    push_safe_stem(&mut out, name);
    crate::text::push_str(&mut out, ".zqrules");
    out
}

// ── Tabs ──

/// The active tab after closing tab `idx` of `tab_count` tabs: `None` (nothing closed)
/// for an `idx` past the last tab; else `0` when no tab is left, the last tab when the
/// active index falls off the end, and the active index otherwise.
pub open spec fn active_after_close(tab_count: nat, active: nat, idx: nat) -> Option<nat> {
    if idx >= tab_count {
        None
    } else if tab_count - 1 == 0 {
        Some(0)
    } else if active >= tab_count - 1 {
        Some((tab_count - 2) as nat)
    } else {
        Some(active)
    }
}

/// Which tab is active after closing tab `idx` (see [`active_after_close`]).
pub fn tab_after_close(tab_count: usize, active: usize, idx: usize) -> (r: Option<usize>)
    ensures
        match r {
            Some(a) => active_after_close(tab_count as nat, active as nat, idx as nat) == Some(a as nat),
            None => active_after_close(tab_count as nat, active as nat, idx as nat) is None,
        },
{
    if idx >= tab_count {
        return None;
    }
    let left = tab_count - 1;
    if left == 0 {
        Some(0)
    } else if active >= left {
        Some(left - 1)
    } else {
        Some(active)
    }
}

/// The tab shown in the right pane after toggling the split view: none when one was
/// shown; else, with more than one tab, the first tab other than the active one.
pub fn toggle_split_right(split: Option<usize>, tab_count: usize, active: usize) -> (r: Option<usize>)
    ensures
        r == if split is Some || tab_count <= 1 {
            None::<usize>
        } else {
            Some(if active == 0 { 1usize } else { 0usize })
        },
{
    if split.is_some() {
        return None;
    }
    if tab_count > 1 {
        let mut other: usize = 0;
        while other < tab_count && other == active
            invariant
                other <= tab_count,
                other == 0 || (other == 1 && active == 0),
            decreases tab_count - other,
        {
            other += 1;
        }
        if other >= tab_count {
            other = 0;
        }
        if other != active {
            return Some(other);
        }
    }
    split
}

// ── Templates ──

/// The built-in templates, in menu order.
pub open spec fn builtin_views() -> Seq<TemplateView> {
    seq![freeform_view(), baguwen_view(), apa_view(), screenplay_view()]
}

/// Index of the first built-in template from the `i`-th on named `name`.
pub open spec fn builtin_index_from(i: int, name: Seq<char>) -> Option<int>
    decreases 4 - i,
{
    if i < 0 || i >= 4 {
        None
    } else if builtin_views()[i].name == name {
        Some(i)
    } else {
        builtin_index_from(i + 1, name)
    }
}

/// Makes the built-in template named `name` the active one; leaves it as it is when
/// no built-in template has that name.
pub fn set_active_template_by_name(active: &mut ZqTemplate, name: &str)
    ensures
        match builtin_index_from(0, name@) {
            Some(i) => final(active)@ == builtin_views()[i],
            None => final(active)@ == old(active)@,
        },
{
    let mut all = ZqTemplate::all_builtins();
    let ghost views = builtin_views();
    assert(all@.map_values(|t: ZqTemplate| t@) == views);
    let target = chars_of(name);
    let mut i: usize = 0;
    while i < all.len()
        invariant
            i <= all@.len(),
            all@.len() == 4,
            all@.map_values(|t: ZqTemplate| t@) == views,
            views == builtin_views(),
            target@ == name@,
            *active == *old(active),
            builtin_index_from(0, name@) == builtin_index_from(i as int, name@),
        decreases all@.len() - i,
    {
        assert(all@[i as int]@ == views[i as int]);
        assert(views[i as int].name == all@[i as int].name@);
        if chars_eq(&chars_of(all[i].name.as_str()), &target) {
            let ghost before = all@;
            let t = all.remove(i);
            assert(t@ == before[i as int]@);
            assert(builtin_index_from(i as int, name@) == Some(i as int));
            *active = t;
            return;
        }
        i += 1;
    }
}

} // verus!
