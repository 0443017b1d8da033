//! Writing templates: the sections and label types a document is expected to
//! have, and validation of a document against them.

use vstd::prelude::*;
use crate::doc::{extract_headings, headings_of, headings_view};
use crate::label::{
    labels_view, occurs_at, occurs_at_exec, parse_labels, parse_semantic_labels, LabelView,
};
use crate::text::{
    chars_of, decimal, line_bounds, next_line, push_decimal, push_str, string_of, trim,
    trim_bounds,
};

verus! {

/// A template: expected sections and label types.
#[derive(Clone, Debug)]
pub struct ZqTemplate {
    pub name: String,
    pub description: String,
    pub expected_headings: Vec<TemplateHeading>,
    pub label_types: Vec<TemplateLabelType>,
}

/// An expected section; `title: None` accepts any title at that level.
#[derive(Clone, Debug)]
pub struct TemplateHeading {
    pub level: usize,
    pub title: Option<String>,
    pub required: bool,
    pub description: String,
}

/// A label type a template suggests or requires.
#[derive(Clone, Debug)]
pub struct TemplateLabelType {
    pub name: String,
    pub color: [u8; 3],
    pub description: String,
    pub required: bool,
}

/// The outcome of one validation rule.
#[derive(Clone, Debug)]
pub struct ValidationResult {
    pub rule_id: String,
    pub passed: bool,
    pub message: String,
    pub line: Option<usize>,
}

pub struct HeadingView {
    pub level: nat,
    pub title: Option<Seq<char>>,
    pub required: bool,
    pub description: Seq<char>,
}

pub struct TemplateLabelView {
    pub name: Seq<char>,
    pub color: [u8; 3],
    pub description: Seq<char>,
    pub required: bool,
}

pub struct TemplateView {
    pub name: Seq<char>,
    pub description: Seq<char>,
    pub expected_headings: Seq<HeadingView>,
    pub label_types: Seq<TemplateLabelView>,
}

pub struct ResultView {
    pub rule_id: Seq<char>,
    pub passed: bool,
    pub message: Seq<char>,
    pub line: Option<nat>,
}

impl View for TemplateHeading {
    type V = HeadingView;

    open spec fn view(&self) -> HeadingView {
        HeadingView {
            level: self.level as nat,
            title: match self.title {
                Some(t) => Some(t@),
                None => None,
            },
            required: self.required,
            description: self.description@,
        }
    }
}

impl View for TemplateLabelType {
    type V = TemplateLabelView;

    open spec fn view(&self) -> TemplateLabelView {
        TemplateLabelView {
            name: self.name@,
            color: self.color,
            description: self.description@,
            required: self.required,
        }
    }
}

impl View for ZqTemplate {
    type V = TemplateView;

    open spec fn view(&self) -> TemplateView {
        TemplateView {
            name: self.name@,
            description: self.description@,
            expected_headings: self.expected_headings@.map_values(|h: TemplateHeading| h@),
            label_types: self.label_types@.map_values(|t: TemplateLabelType| t@),
        }
    }
}

impl View for ValidationResult {
    type V = ResultView;

    open spec fn view(&self) -> ResultView {
        ResultView {
            rule_id: self.rule_id@,
            passed: self.passed,
            message: self.message@,
            line: match self.line {
                Some(l) => Some(l as nat),
                None => None,
            },
        }
    }
}

// ── Directive ──

/// The template named by an `@template:<name>` first line, trimmed.
pub open spec fn template_directive(s: Seq<char>) -> Option<Seq<char>> {
    let ls = line_bounds(s);
    if ls.len() == 0 {
        None
    } else {
        let t = trim(s.subrange(ls[0].0, ls[0].1));
        if occurs_at(t, 0, "@template:"@) {
            Some(trim(t.skip(10)))
        } else {
            None
        }
    }
}

/// Reads an `@template:name` directive from the first line of `text`.
pub fn parse_template_directive(text: &str) -> (r: Option<String>)
    ensures
        match r {
            Some(name) => template_directive(text@) == Some(name@),
            None => template_directive(text@) is None,
        },
{
    let v = chars_of(text);
    if v.len() == 0 {
        return None;
    }
    let (a, b, _next) = next_line(&v, 0);
    let (x, y) = trim_bounds(&v, a, b);
    let t = crate::text::sub_chars(&v, x, y);
    let pat = chars_of("@template:");
    proof {
        reveal_strlit("@template:");
    }
    if occurs_at_exec(&t, 0, &pat) {
        let (p, q) = trim_bounds(&t, 10, t.len());
        let name = string_of(&t, p, q);
        proof {
            assert(t@.subrange(10, t@.len() as int) =~= t@.skip(10));
        }
        Some(name)
    } else {
        None
    }
}

// ── Validation ──

/// `needle` occurs somewhere in `hay`.
pub open spec fn contains_seq(hay: Seq<char>, needle: Seq<char>) -> bool {
    exists|i: int| occurs_at(hay, i, needle)
}

/// Whether `hay` contains `needle` as a substring.
pub fn contains_str(hay: &Vec<char>, needle: &Vec<char>) -> (r: bool)
    ensures
        r == contains_seq(hay@, needle@),
{
    if needle.len() > hay.len() {
        return false;
    }
    let last = hay.len() - needle.len();
    let mut i: usize = 0;
    loop
        invariant
            i <= last,
            last + needle@.len() == hay@.len(),
            forall|j: int| 0 <= j < i ==> !occurs_at(hay@, j, needle@),
        decreases last - i,
    {
        if occurs_at_exec(hay, i, needle) {
            return true;
        }
        if i == last {
            assert forall|j: int| !occurs_at(hay@, j, needle@) by {
                if 0 <= j < i {
                }
            }
            return false;
        }
        i += 1;
    }
}

/// A heading of `hs` satisfies the expected heading `th`.
pub open spec fn heading_found(hs: Seq<(nat, nat, Seq<char>)>, th: HeadingView) -> bool {
    exists|i: int|
        0 <= i < hs.len() && #[trigger] hs[i].1 == th.level && match th.title {
            Some(t) => contains_seq(hs[i].2, t),
            None => true,
        }
}

/// How a heading rule names its section: the title, or `H<level>`.
pub open spec fn heading_desc(th: HeadingView) -> Seq<char> {
    match th.title {
        Some(t) => t,
        None => "H"@ + decimal(th.level),
    }
}

/// The result of checking an expected heading.
pub open spec fn heading_result(hs: Seq<(nat, nat, Seq<char>)>, th: HeadingView) -> ResultView {
    let found = heading_found(hs, th);
    let d = heading_desc(th);
    ResultView {
        rule_id: "heading_"@ + d,
        passed: found,
        message: if found {
            "✓ "@ + d + " section present"@
        } else {
            "✗ Missing required section: "@ + d
        },
        line: None,
    }
}

/// The result of checking a required label type.
pub open spec fn label_result(ls: Seq<LabelView>, lt: TemplateLabelView) -> ResultView {
    let found = exists|i: int| 0 <= i < ls.len() && #[trigger] ls[i].category == lt.name;
    ResultView {
        rule_id: "label_"@ + lt.name,
        passed: found,
        message: if found {
            "✓ Label type '"@ + lt.name + "' used"@
        } else {
            "✗ Missing required label type: "@ + lt.name
        },
        line: None,
    }
}

/// Results for the required headings among the first `k` of `ths`.
pub open spec fn heading_results(hs: Seq<(nat, nat, Seq<char>)>, ths: Seq<HeadingView>, k: int) -> Seq<
    ResultView,
>
    decreases k,
{
    if k <= 0 {
        seq![]
    } else {
        let prev = heading_results(hs, ths, k - 1);
        if ths[k - 1].required {
            prev.push(heading_result(hs, ths[k - 1]))
        } else {
            prev
        }
    }
}

/// Results for the required label types among the first `k` of `lts`.
pub open spec fn label_results(ls: Seq<LabelView>, lts: Seq<TemplateLabelView>, k: int) -> Seq<
    ResultView,
>
    decreases k,
{
    if k <= 0 {
        seq![]
    } else {
        let prev = label_results(ls, lts, k - 1);
        if lts[k - 1].required {
            prev.push(label_result(ls, lts[k - 1]))
        } else {
            prev
        }
    }
}

/// Validation of `s` against `t`: one result per required heading, then one per
/// required label type, in template order.
pub open spec fn validation(s: Seq<char>, t: TemplateView) -> Seq<ResultView> {
    heading_results(headings_of(s), t.expected_headings, t.expected_headings.len() as int)
        + label_results(
        parse_labels(s, seq!['['], seq![']']),
        t.label_types,
        t.label_types.len() as int,
    )
}

pub open spec fn results_view(v: Seq<ValidationResult>) -> Seq<ResultView> {
    v.map_values(|r: ValidationResult| r@)
}

pub(crate) fn check_heading(hs: &Vec<(usize, usize, String)>, th: &TemplateHeading) -> (r: ValidationResult)
    ensures
        r@ == heading_result(headings_view(hs@), th@),
{
    let ghost hv = headings_view(hs@);
    let title_chars: Option<Vec<char>> = match &th.title {
        Some(t) => Some(chars_of(t.as_str())),
        None => None,
    };
    let mut found = false;
    let mut i: usize = 0;
    while i < hs.len()
        invariant
            i <= hs@.len(),
            hv == headings_view(hs@),
            match th.title {
                Some(t) => title_chars matches Some(tc) && tc@ == t@,
                None => title_chars is None,
            },
            found == exists|j: int|
                0 <= j < i && #[trigger] hv[j].1 == th@.level && match th@.title {
                    Some(t) => contains_seq(hv[j].2, t),
                    None => true,
                },
        decreases hs@.len() - i,
    {
        let ok = hs[i].1 == th.level && match &title_chars {
            Some(tc) => {
                let hc = chars_of(hs[i].2.as_str());
                contains_str(&hc, tc)
            },
            None => true,
        };
        proof {
            assert(hv[i as int] == (hs@[i as int].0 as nat, hs@[i as int].1 as nat, hs@[i as int].2@));
            let p = |j: int|
                0 <= j < i + 1 && hv[j].1 == th@.level && match th@.title {
                    Some(t) => contains_seq(hv[j].2, t),
                    None => true,
                };
            if ok {
                assert(p(i as int));
            }
        }
        if ok {
            found = true;
        }
        i += 1;
    }
    let mut desc = String::new();
    match &th.title {
        Some(t) => {
            push_str(&mut desc, t.as_str());
        },
        None => {
            push_str(&mut desc, "H");
            push_decimal(&mut desc, th.level);
        },
    }
    let mut rule_id = String::new();
    push_str(&mut rule_id, "heading_");
    push_str(&mut rule_id, desc.as_str());
    let mut message = String::new();
    if found {
        push_str(&mut message, "✓ ");
        push_str(&mut message, desc.as_str());
        push_str(&mut message, " section present");
    } else {
        push_str(&mut message, "✗ Missing required section: ");
        push_str(&mut message, desc.as_str());
    }
    proof {
        assert(desc@ == heading_desc(th@));
    }
    ValidationResult { rule_id, passed: found, message, line: None }
}

fn check_label(ls: &Vec<crate::label::SemanticLabel>, lt: &TemplateLabelType) -> (r: ValidationResult)
    ensures
        r@ == label_result(labels_view(ls@), lt@),
{
    let ghost lv = labels_view(ls@);
    let mut found = false;
    let mut i: usize = 0;
    while i < ls.len()
        invariant
            i <= ls@.len(),
            lv == labels_view(ls@),
            found == exists|j: int| 0 <= j < i && #[trigger] lv[j].category == lt@.name,
        decreases ls@.len() - i,
    {
        proof {
            assert(lv[i as int] == ls@[i as int]@);
        }
        if ls[i].category == lt.name {
            assert(lv[i as int].category == lt@.name);
            found = true;
        }
        i += 1;
    }
    let mut rule_id = String::new();
    push_str(&mut rule_id, "label_");
    push_str(&mut rule_id, lt.name.as_str());
    let mut message = String::new();
    if found {
        push_str(&mut message, "✓ Label type '");
        push_str(&mut message, lt.name.as_str());
        push_str(&mut message, "' used");
    } else {
        push_str(&mut message, "✗ Missing required label type: ");
        push_str(&mut message, lt.name.as_str());
    }
    ValidationResult { rule_id, passed: found, message, line: None }
}

/// Checks `text` against `template`: each required section and each required label type.
pub fn validate_document(text: &str, template: &ZqTemplate) -> (r: Vec<ValidationResult>)
    ensures
        results_view(r@) == validation(text@, template@),
{
    let headings = extract_headings(text);
    let labels = parse_semantic_labels(text);
    let ghost tv = template@;
    let mut results: Vec<ValidationResult> = Vec::new();
    let mut k: usize = 0;
    while k < template.expected_headings.len()
        invariant
            k <= template.expected_headings@.len(),
            tv == template@,
            headings_view(headings@) == headings_of(text@),
            results_view(results@) == heading_results(headings_of(text@), tv.expected_headings, k as int),
        decreases template.expected_headings@.len() - k,
    {
        let th = &template.expected_headings[k];
        proof {
            assert(tv.expected_headings[k as int] == th@);
        }
        if th.required {
            let res = check_heading(&headings, th);
            let ghost before = results@;
            results.push(res);
            proof {
                assert(results_view(results@) =~= results_view(before).push(res@));
            }
        }
        k += 1;
    }
    let ghost hr = results_view(results@);
    let mut k: usize = 0;
    proof {
        assert(hr + label_results(labels_view(labels@), tv.label_types, 0) =~= hr);
    }
    while k < template.label_types.len()
        invariant
            k <= template.label_types@.len(),
            tv == template@,
            labels_view(labels@) == parse_labels(text@, seq!['['], seq![']']),
            results_view(results@) == hr + label_results(labels_view(labels@), tv.label_types, k as int),
        decreases template.label_types@.len() - k,
    {
        let lt = &template.label_types[k];
        proof {
            assert(tv.label_types[k as int] == lt@);
        }
        if lt.required {
            let res = check_label(&labels, lt);
            let ghost before = results@;
            results.push(res);
            proof {
                assert(results_view(results@) =~= results_view(before).push(res@));
            }
        }
        k += 1;
    }
    results
}


// ── Built-in templates ──

fn heading(level: usize, title: Option<&str>, required: bool, description: &str) -> (r: TemplateHeading)
    ensures
        r@ == (HeadingView {
            level: level as nat,
            title: match title {
                Some(t) => Some(t@),
                None => None,
            },
            required,
            description: description@,
        }),
{
    TemplateHeading {
        level,
        title: match title {
            Some(t) => Some(String::from_str(t)),
            None => None,
        },
        required,
        description: String::from_str(description),
    }
}

fn label_type(name: &str, color: [u8; 3], description: &str, required: bool) -> (r: TemplateLabelType)
    ensures
        r@ == (TemplateLabelView { name: name@, color, description: description@, required }),
{
    TemplateLabelType {
        name: String::from_str(name),
        color,
        description: String::from_str(description),
        required,
    }
}

/// The `freeform` template.
pub open spec fn freeform_view() -> TemplateView {
    TemplateView {
        name: "freeform"@,
        description: "No constraints — free writing"@,
        expected_headings: seq![
            
        ],
        label_types: seq![
            
        ],
    }
}

/// The `八股文` template.
pub open spec fn baguwen_view() -> TemplateView {
    TemplateView {
        name: "八股文"@,
        description: "传统八股文结构"@,
        expected_headings: seq![
            HeadingView { level: 2, title: Some("破题"@), required: true, description: "两句点明题意"@ },
            HeadingView { level: 2, title: Some("承题"@), required: true, description: "承接引申"@ },
            HeadingView { level: 2, title: Some("起讲"@), required: true, description: "开始议论"@ },
            HeadingView { level: 2, title: Some("入手"@), required: true, description: "切入正题"@ },
            HeadingView { level: 2, title: Some("起股"@), required: true, description: "第一对偶段"@ },
            HeadingView { level: 2, title: Some("中股"@), required: true, description: "第二对偶段（核心）"@ },
            HeadingView { level: 2, title: Some("后股"@), required: true, description: "第三对偶段"@ },
            HeadingView { level: 2, title: Some("束股"@), required: true, description: "收束全篇"@ }
        ],
        label_types: seq![
            TemplateLabelView { name: "引用"@, color: [100u8, 100u8, 200u8], description: "引用出处"@, required: false },
            TemplateLabelView { name: "论点"@, color: [200u8, 100u8, 100u8], description: "核心论点"@, required: false },
            TemplateLabelView { name: "论据"@, color: [100u8, 180u8, 100u8], description: "支持论据"@, required: false },
            TemplateLabelView { name: "对仗上"@, color: [180u8, 140u8, 60u8], description: "对偶上半句"@, required: false },
            TemplateLabelView { name: "对仗下"@, color: [180u8, 140u8, 60u8], description: "对偶下半句"@, required: false },
            TemplateLabelView { name: "转折"@, color: [180u8, 60u8, 180u8], description: "文意转折"@, required: false },
            TemplateLabelView { name: "总结"@, color: [60u8, 160u8, 160u8], description: "段落总结"@, required: false }
        ],
    }
}

/// The `APA` template.
pub open spec fn apa_view() -> TemplateView {
    TemplateView {
        name: "APA"@,
        description: "APA format academic paper"@,
        expected_headings: seq![
            HeadingView { level: 1, title: None, required: true, description: "Paper title"@ },
            HeadingView { level: 2, title: Some("Abstract"@), required: true, description: "Summary (150-250 words)"@ },
            HeadingView { level: 2, title: Some("Introduction"@), required: true, description: "Background and research question"@ },
            HeadingView { level: 2, title: Some("Method"@), required: true, description: "Methodology"@ },
            HeadingView { level: 2, title: Some("Results"@), required: true, description: "Findings"@ },
            HeadingView { level: 2, title: Some("Discussion"@), required: true, description: "Interpretation"@ },
            HeadingView { level: 2, title: Some("References"@), required: true, description: "Bibliography"@ },
            HeadingView { level: 2, title: Some("Appendix"@), required: false, description: "Supplementary material"@ },
            HeadingView { level: 2, title: Some("Acknowledgments"@), required: false, description: "Acknowledgments"@ }
        ],
        label_types: seq![
            TemplateLabelView { name: "cite"@, color: [100u8, 100u8, 200u8], description: "Citation"@, required: false },
            TemplateLabelView { name: "gap"@, color: [200u8, 150u8, 50u8], description: "Research gap"@, required: false },
            TemplateLabelView { name: "method"@, color: [100u8, 180u8, 100u8], description: "Methodology note"@, required: false },
            TemplateLabelView { name: "finding"@, color: [200u8, 80u8, 80u8], description: "Key finding"@, required: false },
            TemplateLabelView { name: "limit"@, color: [180u8, 180u8, 60u8], description: "Limitation"@, required: false },
            TemplateLabelView { name: "note"@, color: [150u8, 150u8, 150u8], description: "Author note"@, required: false }
        ],
    }
}

/// The `Screenplay` template.
pub open spec fn screenplay_view() -> TemplateView {
    TemplateView {
        name: "Screenplay"@,
        description: "Film/TV screenplay"@,
        expected_headings: seq![
            
        ],
        label_types: seq![
            TemplateLabelView { name: "scene"@, color: [180u8, 60u8, 60u8], description: "Scene heading"@, required: false },
            TemplateLabelView { name: "action"@, color: [100u8, 100u8, 100u8], description: "Action description"@, required: false },
            TemplateLabelView { name: "dialogue"@, color: [60u8, 120u8, 180u8], description: "Dialogue"@, required: false },
            TemplateLabelView { name: "paren"@, color: [150u8, 150u8, 150u8], description: "Parenthetical"@, required: false },
            TemplateLabelView { name: "transition"@, color: [120u8, 60u8, 180u8], description: "Scene transition"@, required: false },
            TemplateLabelView { name: "character"@, color: [60u8, 160u8, 60u8], description: "Character name"@, required: false }
        ],
    }
}

impl ZqTemplate {
    /// Free writing with no constraints.
    pub fn freeform() -> (r: Self)
        ensures
            r@ == freeform_view(),
    {
        let mut hs: Vec<TemplateHeading> = Vec::new();
        let mut ls: Vec<TemplateLabelType> = Vec::new();
        let t = ZqTemplate {
            name: String::from_str("freeform"),
            description: String::from_str("No constraints — free writing"),
            expected_headings: hs,
            label_types: ls,
        };
        proof {
            assert(t@.expected_headings =~= freeform_view().expected_headings);
            assert(t@.label_types =~= freeform_view().label_types);
        }
        t
    }

    /// The eight-legged essay: eight required sections.
    pub fn baguwen() -> (r: Self)
        ensures
            r@ == baguwen_view(),
    {
        let mut hs: Vec<TemplateHeading> = Vec::new();
        hs.push(heading(2, Some("破题"), true, "两句点明题意"));
        hs.push(heading(2, Some("承题"), true, "承接引申"));
        hs.push(heading(2, Some("起讲"), true, "开始议论"));
        hs.push(heading(2, Some("入手"), true, "切入正题"));
        hs.push(heading(2, Some("起股"), true, "第一对偶段"));
        hs.push(heading(2, Some("中股"), true, "第二对偶段（核心）"));
        hs.push(heading(2, Some("后股"), true, "第三对偶段"));
        hs.push(heading(2, Some("束股"), true, "收束全篇"));
        let mut ls: Vec<TemplateLabelType> = Vec::new();
        ls.push(label_type("引用", [100, 100, 200], "引用出处", false));
        ls.push(label_type("论点", [200, 100, 100], "核心论点", false));
        ls.push(label_type("论据", [100, 180, 100], "支持论据", false));
        ls.push(label_type("对仗上", [180, 140, 60], "对偶上半句", false));
        ls.push(label_type("对仗下", [180, 140, 60], "对偶下半句", false));
        ls.push(label_type("转折", [180, 60, 180], "文意转折", false));
        ls.push(label_type("总结", [60, 160, 160], "段落总结", false));
        let t = ZqTemplate {
            name: String::from_str("八股文"),
            description: String::from_str("传统八股文结构"),
            expected_headings: hs,
            label_types: ls,
        };
        proof {
            assert(t@.expected_headings =~= baguwen_view().expected_headings);
            assert(t@.label_types =~= baguwen_view().label_types);
        }
        t
    }

    /// An APA academic paper: a title and six required sections, then two optional
    /// ones.
    pub fn apa() -> (r: Self)
        ensures
            r@ == apa_view(),
    {
        let mut hs: Vec<TemplateHeading> = Vec::new();
        hs.push(heading(1, None, true, "Paper title"));
        hs.push(heading(2, Some("Abstract"), true, "Summary (150-250 words)"));
        hs.push(heading(2, Some("Introduction"), true, "Background and research question"));
        hs.push(heading(2, Some("Method"), true, "Methodology"));
        hs.push(heading(2, Some("Results"), true, "Findings"));
        hs.push(heading(2, Some("Discussion"), true, "Interpretation"));
        hs.push(heading(2, Some("References"), true, "Bibliography"));
        hs.push(heading(2, Some("Appendix"), false, "Supplementary material"));
        hs.push(heading(2, Some("Acknowledgments"), false, "Acknowledgments"));
        let mut ls: Vec<TemplateLabelType> = Vec::new();
        ls.push(label_type("cite", [100, 100, 200], "Citation", false));
        ls.push(label_type("gap", [200, 150, 50], "Research gap", false));
        ls.push(label_type("method", [100, 180, 100], "Methodology note", false));
        ls.push(label_type("finding", [200, 80, 80], "Key finding", false));
        ls.push(label_type("limit", [180, 180, 60], "Limitation", false));
        ls.push(label_type("note", [150, 150, 150], "Author note", false));
        let t = ZqTemplate {
            name: String::from_str("APA"),
            description: String::from_str("APA format academic paper"),
            expected_headings: hs,
            label_types: ls,
        };
        proof {
            assert(t@.expected_headings =~= apa_view().expected_headings);
            assert(t@.label_types =~= apa_view().label_types);
        }
        t
    }

    /// A screenplay: suggested label types only.
    pub fn screenplay() -> (r: Self)
        ensures
            r@ == screenplay_view(),
    {
        let mut hs: Vec<TemplateHeading> = Vec::new();
        let mut ls: Vec<TemplateLabelType> = Vec::new();
        ls.push(label_type("scene", [180, 60, 60], "Scene heading", false));
        ls.push(label_type("action", [100, 100, 100], "Action description", false));
        ls.push(label_type("dialogue", [60, 120, 180], "Dialogue", false));
        ls.push(label_type("paren", [150, 150, 150], "Parenthetical", false));
        ls.push(label_type("transition", [120, 60, 180], "Scene transition", false));
        ls.push(label_type("character", [60, 160, 60], "Character name", false));
        let t = ZqTemplate {
            name: String::from_str("Screenplay"),
            description: String::from_str("Film/TV screenplay"),
            expected_headings: hs,
            label_types: ls,
        };
        proof {
            assert(t@.expected_headings =~= screenplay_view().expected_headings);
            assert(t@.label_types =~= screenplay_view().label_types);
        }
        t
    }

    /// All built-in templates, in menu order.
    pub fn all_builtins() -> (r: Vec<Self>)
        ensures
            r@.map_values(|t: ZqTemplate| t@) == seq![
                freeform_view(),
                baguwen_view(),
                apa_view(),
                screenplay_view(),
            ],
    {
        let mut v: Vec<Self> = Vec::new();
        v.push(Self::freeform());
        v.push(Self::baguwen());
        v.push(Self::apa());
        v.push(Self::screenplay());
        assert(v@.map_values(|t: ZqTemplate| t@) =~= seq![
            freeform_view(),
            baguwen_view(),
            apa_view(),
            screenplay_view(),
        ]);
        v
    }
}

} // verus!
