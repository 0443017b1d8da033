//! Exporting a document: without labels, without heading markers, or as a
//! validation report against a template.

use vstd::prelude::*;
use crate::doc::strip_labels;
use crate::label::{skip_char, lemma_find_char};
use crate::label_laws::without_labels;
use crate::template::{results_view, validate_document, validation, ResultView, ZqTemplate};
use crate::text::{
    chars_of, decimal, is_whitespace, line_bounds, lines_from, next_line, push_chars,
    push_decimal, push_str, skip_ws, string_push, trim, trim_bounds,
};
use crate::doc::lemma_lines_from_bounds;

verus! {

/// What an export keeps.
#[derive(Clone, Copy, PartialEq, Eq, Debug, Structural)]
pub enum ExportMode {
    /// Labels removed, headings kept.
    CleanText,
    /// Labels and heading markers removed.
    CleanFlat,
    /// Everything as written.
    Annotated,
    /// The text as written (the report is made by `export_template_report`).
    TemplateReport,
}

/// A line `s[a..b]` with its heading marker removed: a line that starts (after
/// whitespace) with `#` becomes its trimmed title; other lines stay as they are.
pub open spec fn unmarked_line(s: Seq<char>, a: int, b: int) -> Seq<char> {
    let t0 = skip_ws(s, a, b);
    if t0 < b && s[t0] == '#' {
        trim(s.subrange(skip_char(s, t0, b, '#'), b))
    } else {
        s.subrange(a, b)
    }
}

/// The first `k` lines `ls` of `s` unmarked, each followed by a line break.
pub open spec fn unmarked_lines(s: Seq<char>, ls: Seq<(int, int)>, k: int) -> Seq<char>
    decreases k,
{
    if k <= 0 {
        seq![]
    } else {
        unmarked_lines(s, ls, k - 1) + unmarked_line(s, ls[k - 1].0, ls[k - 1].1) + seq!['\n']
    }
}

/// `s` with every heading marker removed, each line ended by a line break.
pub open spec fn without_heading_markers(s: Seq<char>) -> Seq<char> {
    unmarked_lines(s, line_bounds(s), line_bounds(s).len() as int)
}

/// Removes `#` heading markers from lines, keeping the title text.
pub fn strip_heading_markers(text: &str) -> (r: String)
    ensures
        r@ == without_heading_markers(text@),
{
    let v = chars_of(text);
    let n = v.len();
    let mut out = String::new();
    let ghost all = line_bounds(v@);
    let ghost mut done: Seq<(int, int)> = seq![];
    let mut start: usize = 0;
    proof {
        lemma_lines_from_bounds(v@, 0);
        assert(done + lines_from(v@, 0) =~= all);
    }
    while start < n
        invariant
            n == v@.len(),
            v@ == text@,
            all == line_bounds(v@),
            start <= n,
            all == done + lines_from(v@, start as int),
            out@ == unmarked_lines(v@, all, done.len() as int),
        decreases n - start,
    {
        let (a, b, next) = next_line(&v, start);
        assert(all[done.len() as int] == (a as int, b as int)) by {
            assert(lines_from(v@, start as int)[0] == (a as int, b as int));
        }
        let mut t0 = a;
        while t0 < b && is_whitespace(v[t0])
            invariant
                a <= t0 <= b <= v@.len(),
                skip_ws(v@, a as int, b as int) == skip_ws(v@, t0 as int, b as int),
            decreases b - t0,
        {
            t0 += 1;
        }
        if t0 < b && v[t0] == '#' {
            let mut e = t0;
            while e < b && v[e] == '#'
                invariant
                    t0 <= e <= b <= v@.len(),
                    skip_char(v@, t0 as int, b as int, '#') == skip_char(v@, e as int, b as int, '#'),
                decreases b - e,
            {
                e += 1;
            }
            let (x, y) = trim_bounds(&v, e, b);
            push_chars(&mut out, &v, x, y);
        } else {
            push_chars(&mut out, &v, a, b);
        }
        string_push(&mut out, '\n');
        proof {
            let d2 = done.push((a as int, b as int));
            if next >= n {
                assert(lines_from(v@, next as int) =~= Seq::<(int, int)>::empty());
            }
            assert(all =~= d2 + lines_from(v@, next as int));
            assert(unmarked_lines(v@, all, d2.len() as int) =~= unmarked_lines(v@, all, done.len() as int)
                + unmarked_line(v@, a as int, b as int) + seq!['\n']);
            done = d2;
        }
        start = next;
    }
    proof {
        assert(lines_from(v@, start as int) =~= Seq::<(int, int)>::empty());
        assert(all =~= done);
    }
    out
}

/// The text an export of `text` in `mode` produces.
pub open spec fn export_spec(text: Seq<char>, mode: ExportMode) -> Seq<char> {
    match mode {
        ExportMode::CleanText => without_labels(text, seq!['['], seq![']']),
        ExportMode::CleanFlat => without_heading_markers(without_labels(text, seq!['['], seq![']'])),
        _ => text,
    }
}

/// Exports `text` in `mode`.
pub fn export_text(text: &str, mode: ExportMode) -> (r: String)
    ensures
        r@ == export_spec(text@, mode),
{
    match mode {
        ExportMode::CleanText => strip_labels(text),
        ExportMode::CleanFlat => {
            let clean = strip_labels(text);
            strip_heading_markers(clean.as_str())
        },
        ExportMode::Annotated => String::from_str(text),
        ExportMode::TemplateReport => String::from_str(text),
    }
}

// ── Template report ──

/// Number of results that passed.
pub open spec fn count_passed(rs: Seq<ResultView>) -> nat
    decreases rs.len(),
{
    if rs.len() == 0 {
        0
    } else {
        count_passed(rs.drop_last()) + if rs.last().passed { 1nat } else { 0nat }
    }
}

/// One report line per result: its message, then a warning sign when it failed.
pub open spec fn report_lines(rs: Seq<ResultView>) -> Seq<char>
    decreases rs.len(),
{
    if rs.len() == 0 {
        seq![]
    } else {
        report_lines(rs.drop_last()) + rs.last().message + " "@ + (if rs.last().passed {
            ""@
        } else {
            " ⚠"@
        }) + "\n"@
    }
}

/// The validation report of `text` against `t`.
pub open spec fn report_spec(text: Seq<char>, t: crate::template::TemplateView) -> Seq<char> {
    let rs = validation(text, t);
    let passed = count_passed(rs);
    "Template: "@ + t.name + "\n"@ + t.description + "\n\n"@ + "--- Validation Results ---\n\n"@
        + "Passed: "@ + decimal(passed) + " | Failed: "@ + decimal((rs.len() - passed) as nat)
        + "\n\n"@ + report_lines(rs)
}

/// A plain-text report of how `text` fares against `template`.
pub fn export_template_report(text: &str, template: &ZqTemplate) -> (r: String)
    ensures
        r@ == report_spec(text@, template@),
{
    let results = validate_document(text, template);
    let ghost rs = results_view(results@);
    let mut passed: usize = 0;
    let mut k: usize = 0;
    while k < results.len()
        invariant
            k <= results@.len(),
            rs == results_view(results@),
            passed == count_passed(rs.take(k as int)),
            passed <= k,
        decreases results@.len() - k,
    {
        proof {
            assert(rs.take(k + 1).drop_last() =~= rs.take(k as int));
            assert(rs[k as int] == results@[k as int]@);
        }
        if results[k].passed {
            passed += 1;
        }
        k += 1;
    }
    assert(rs.take(results@.len() as int) =~= rs);
    let failed = results.len() - passed;
    let mut report = String::new();
    push_str(&mut report, "Template: ");
    push_str(&mut report, template.name.as_str());
    push_str(&mut report, "\n");
    push_str(&mut report, template.description.as_str());
    push_str(&mut report, "\n\n");
    push_str(&mut report, "--- Validation Results ---\n\n");
    push_str(&mut report, "Passed: ");
    push_decimal(&mut report, passed);
    push_str(&mut report, " | Failed: ");
    push_decimal(&mut report, failed);
    push_str(&mut report, "\n\n");
    let ghost head = report@;
    let mut k: usize = 0;
    while k < results.len()
        invariant
            k <= results@.len(),
            rs == results_view(results@),
            report@ == head + report_lines(rs.take(k as int)),
        decreases results@.len() - k,
    {
        let r = &results[k];
        proof {
            assert(rs.take(k + 1).drop_last() =~= rs.take(k as int));
            assert(rs[k as int] == r@);
        }
        push_str(&mut report, r.message.as_str());
        push_str(&mut report, " ");
        if r.passed {
            push_str(&mut report, "");
        } else {
            push_str(&mut report, " ⚠");
        }
        push_str(&mut report, "\n");
        k += 1;
    }
    proof {
        assert(rs.take(results@.len() as int) =~= rs);
    }
    report
}

} // verus!
