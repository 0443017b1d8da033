use zq_core::doc::extract_headings;
use zq_core::template::{parse_template_directive, validate_document, ZqTemplate};

#[test]
fn test_parse_directive() {
    assert_eq!(parse_template_directive("@template:八股文\nrest"), Some("八股文".to_string()));
    assert_eq!(parse_template_directive("@template:APA\n# Title"), Some("APA".to_string()));
    assert_eq!(parse_template_directive("# Just a title"), None);
    assert_eq!(parse_template_directive(""), None);
}

#[test]
fn test_extract_headings_debug() {
    let headings = extract_headings("## 破题\n天下之事。\n## 承题\n故君子慎其所由。");
    for (ln, lv, title) in &headings {
        println!("line={}, level={}, title='{}'", ln, lv, title);
    }
    assert!(!headings.is_empty());
    assert_eq!(headings[0].2, "破题");
}

#[test]
fn test_validate_baguwen() {
    let template = ZqTemplate::baguwen();
    let text = "## 破题\n天下之事。\n## 承题\n故君子慎其所由。\n## 起讲\n盖闻圣人治天下。";
    let results = validate_document(text, &template);
    for r in &results {
        println!("{}: {} ({})", r.rule_id, r.message, if r.passed { "PASS" } else { "FAIL" });
    }
    let passed = results.iter().filter(|r| r.passed).count();
    assert!(passed >= 3, "Expected at least 3 passed, got {}", passed);
}

#[test]
fn test_validate_apa() {
    let template = ZqTemplate::apa();
    let text = "# My Paper\n## Abstract\nSummary.\n## Introduction\nBackground.\n## Method\nDetails.\n## Results\nData.\n## Discussion\nAnalysis.\n## References\nBibliography.";
    let results = validate_document(text, &template);
    // All 7 headings should be found, 6 label types (all optional)
    let heading_failed = results
        .iter()
        .filter(|r| !r.passed && r.rule_id.starts_with("heading_"))
        .count();
    assert_eq!(heading_failed, 0, "All headings should match");
}

#[test]
fn validation_messages() {
    let template = ZqTemplate::baguwen();
    let results = validate_document("## 破题\n", &template);
    assert_eq!(results.len(), 8);
    assert_eq!(results[0].rule_id, "heading_破题");
    assert!(results[0].passed);
    assert_eq!(results[0].message, "✓ 破题 section present");
    assert_eq!(results[1].message, "✗ Missing required section: 承题");
    assert!(results[1].line.is_none());
    let apa = validate_document("text", &ZqTemplate::apa());
    assert_eq!(apa[0].rule_id, "heading_H1");
    assert!(!apa[0].passed);
}

#[test]
fn required_label_types() {
    let mut t = ZqTemplate::freeform();
    t.label_types = ZqTemplate::screenplay().label_types;
    t.label_types[0].required = true;
    let r = validate_document("x[scene-night]", &t);
    assert_eq!(r.len(), 1);
    assert_eq!(r[0].rule_id, "label_scene");
    assert!(r[0].passed);
    assert_eq!(r[0].message, "✓ Label type 'scene' used");
    let r = validate_document("x", &t);
    assert_eq!(r[0].message, "✗ Missing required label type: scene");
}

#[test]
fn builtins_in_order() {
    let names: Vec<String> = ZqTemplate::all_builtins().into_iter().map(|t| t.name).collect();
    assert_eq!(names, vec!["freeform", "八股文", "APA", "Screenplay"]);
    assert_eq!(ZqTemplate::baguwen().expected_headings.len(), 8);
}

#[test]
fn apa_lists_optional_sections() {
    let t = ZqTemplate::apa();
    assert!(t.expected_headings.iter().any(|h| !h.required && h.title.as_deref() == Some("Appendix")));
    assert!(t.expected_headings.iter().any(|h| !h.required && h.title.as_deref() == Some("Acknowledgments")));
    let results = validate_document("# T\n## Abstract", &t);
    assert_eq!(results.len(), 7);
}

#[test]
fn screenplay_recommends_dialogue() {
    let t = ZqTemplate::screenplay();
    assert_eq!(t.name, "Screenplay");
    assert!(t.expected_headings.is_empty());
    assert!(t.label_types.iter().all(|l| !l.required));
    for n in ["character", "scene", "action", "dialogue"] {
        assert!(t.label_types.iter().any(|l| l.name.to_lowercase() == n));
    }
}
