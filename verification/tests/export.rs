use zq_core::export::{export_template_report, export_text, strip_heading_markers, ExportMode};
use zq_core::template::ZqTemplate;

#[test]
fn test_strip_heading_markers() {
    let text = "## 破题\n天下之事。\n### 子标题\n内容";
    let flat = strip_heading_markers(text);
    assert!(flat.contains("破题"));
    assert!(flat.contains("天下之事。"));
    assert!(!flat.contains("##"));
}

#[test]
fn test_export_clean_text() {
    let text = "张三[角色]走进客栈[场景]。[伏笔:红伞]角落那把伞。";
    let clean = export_text(text, ExportMode::CleanText);
    assert_eq!(clean, "张三走进客栈。角落那把伞。");
}

#[test]
fn test_export_clean_flat() {
    let text = "## 第一章\n张三[角色]走进客栈。";
    let flat = export_text(text, ExportMode::CleanFlat);
    assert_eq!(flat.trim(), "第一章\n张三走进客栈。");
}

#[test]
fn strip_heading_markers_exact() {
    assert_eq!(strip_heading_markers("  ##  Title  \nplain\n"), "Title\nplain\n");
    assert_eq!(strip_heading_markers(""), "");
    assert_eq!(strip_heading_markers("#"), "\n");
    assert_eq!(strip_heading_markers("a\r\nb"), "a\nb\n");
}

#[test]
fn export_annotated_keeps_everything() {
    let text = "## H\nA[角色]";
    assert_eq!(export_text(text, ExportMode::Annotated), text);
    assert_eq!(export_text(text, ExportMode::TemplateReport), text);
}

#[test]
fn export_template_report_counts() {
    let t = ZqTemplate::baguwen();
    let report = export_template_report("## 破题\n文字", &t);
    assert!(report.starts_with("Template: 八股文\n传统八股文结构\n\n"));
    assert!(report.contains("Passed: 1 | Failed: 7\n\n"));
    assert!(report.contains("✓ 破题 section present \n"));
    assert!(report.contains("✗ Missing required section: 承题  ⚠\n"));
    assert!(report.contains("--- Validation Results ---\n\n"));
}
