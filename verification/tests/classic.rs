use zq_core::classic::{
    get_strings, highlight, highlight_markdown, BgRole, FgRole, HighlightRule, LangStrings,
    RoleStyle,
};
use zq_core::theme::Language;

fn fg(r: &RoleStyle) -> String {
    match r.fg {
        None => "-".to_string(),
        Some(FgRole::Custom(c)) => format!("C{}", c[0]),
        Some(FgRole::Dim) => "dim".to_string(),
        Some(FgRole::Accent) => "acc".to_string(),
        Some(FgRole::Bold) => "bold".to_string(),
        Some(FgRole::Italic) => "ital".to_string(),
        Some(FgRole::BoldItalic) => "bi".to_string(),
        Some(FgRole::CodeFg) => "code".to_string(),
        Some(FgRole::Quote) => "quote".to_string(),
        Some(FgRole::Link) => "link".to_string(),
    }
}

fn bg(r: &RoleStyle) -> String {
    match r.bg {
        None => "-".to_string(),
        Some(BgRole::Custom(c)) => format!("C{}", c[0]),
        Some(BgRole::CodeBg) => "code".to_string(),
    }
}

fn fgs(rs: &[RoleStyle]) -> Vec<String> {
    rs.iter().map(fg).collect()
}

#[test]
fn rules_compile_or_not() {
    let ok = HighlightRule::new("a", "a+", [1, 2, 3], true, false);
    assert!(ok.is_compiled());
    let bad = HighlightRule::new("b", "(", [4, 5, 6], false, false);
    assert!(!bad.is_compiled());
    let mut later = HighlightRule { compiled: false, ..ok.clone() };
    later.compile();
    assert!(later.compiled);
}

#[test]
fn rule_highlighting() {
    let rules = vec![
        HighlightRule::new("a", "a+", [1, 2, 3], false, false),
        HighlightRule::new("b", "b", [7, 0, 0], false, true),
        HighlightRule::new("bad", "(", [9, 9, 9], false, false),
    ];
    let r = highlight("baab", &rules);
    assert_eq!(fgs(&r), vec!["-", "C1", "C1", "-"]);
    let bgs: Vec<String> = r.iter().map(bg).collect();
    assert_eq!(bgs, vec!["C7", "-", "-", "C7"]);
    assert!(highlight("", &rules).is_empty());
    assert_eq!(highlight("é", &rules).len(), 2);
}

#[test]
fn markdown_strong_and_heading() {
    let r = highlight_markdown("**b**", &vec![]);
    assert_eq!(fgs(&r), vec!["dim", "dim", "bold", "dim", "dim"]);
    let h = highlight_markdown("# H", &vec![]);
    assert_eq!(fgs(&h), vec!["dim", "dim", "acc"]);
    assert!(h.iter().all(|x| x.heading == Some(0)));
}

#[test]
fn markdown_quote_and_code() {
    let q = highlight_markdown("> q", &vec![]);
    assert_eq!(fgs(&q), vec!["acc", "-", "quote"]);
    let c = highlight_markdown("`c`", &vec![]);
    assert_eq!(fgs(&c), vec!["dim", "code", "dim"]);
    let bgs: Vec<String> = c.iter().map(bg).collect();
    assert_eq!(bgs, vec!["code", "code", "code"]);
}

#[test]
fn markdown_emphasis_and_rules() {
    let e = highlight_markdown("*i*", &vec![]);
    assert_eq!(fgs(&e), vec!["dim", "ital", "dim"]);
    assert!(e[1].italic);
    let stars = vec![HighlightRule::new("star", "\\*", [5, 5, 5], false, false)];
    let r = highlight_markdown("**a**", &stars);
    assert_eq!(fgs(&r), vec!["C5", "C5", "bold", "C5", "C5"]);
}

#[test]
fn interface_strings() {
    let zh: LangStrings = get_strings(Language::Zh);
    assert_eq!(zh.file, "文件");
    assert_eq!(zh.labels, "签");
    let en = get_strings(Language::En);
    assert_eq!(en.app_title, "ZhuQian Editor");
    assert_eq!(en.lines, "Ln");
    assert_eq!(LangStrings::en().save, "  Save  Ctrl+S");
}
