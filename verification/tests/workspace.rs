use std::path::PathBuf;
use zq_core::blocks::move_markdown_chunk;
use zq_core::template::ZqTemplate;
use zq_core::theme::{
    default_button_color, default_checkbox_color, default_close_btn_color, default_textbox_color,
};
use zq_core::workspace::{
    file_extension, handle_structural_move, has_zq_extension, is_supported_file,
    rules_file_name, set_active_template_by_name, tab_after_close, theme_file_name, toggle_split_right,
    SidebarDragItem,
};

#[test]
fn supported_files() {
    assert!(is_supported_file("chapter.zq.md"));
    assert!(is_supported_file("notes.md"));
    assert!(is_supported_file("a.txt"));
    assert!(is_supported_file("b.log"));
    assert!(is_supported_file("c.zq"));
    assert!(!is_supported_file("x.TXT"));
    assert!(!is_supported_file(".md"));
    assert!(!is_supported_file("main.rs"));
    assert!(!is_supported_file(""));
    assert!(!is_supported_file("md"));
    assert!(!is_supported_file(".."));
}

#[test]
fn extensions() {
    assert_eq!(file_extension("a.tar.gz"), Some("gz".to_string()));
    assert_eq!(file_extension(".bashrc"), None);
    assert_eq!(file_extension(".a.md"), Some("md".to_string()));
    assert_eq!(file_extension("a."), Some(String::new()));
    assert_eq!(file_extension(".."), None);
    assert_eq!(file_extension("plain"), None);
    assert!(has_zq_extension("f.zq"));
    assert!(!has_zq_extension("f.zq.md"));
}

#[test]
fn theme_file_names() {
    assert_eq!(theme_file_name("a/b:c*?\"<>|\\d"), "a_b_c_______d.zqtheme");
    assert_eq!(theme_file_name("竹签"), "竹签.zqtheme");
    assert_eq!(rules_file_name("my/rules"), "my_rules.zqrules");
}

#[test]
fn closing_tabs() {
    assert_eq!(tab_after_close(3, 2, 1), Some(1));
    assert_eq!(tab_after_close(3, 0, 2), Some(0));
    assert_eq!(tab_after_close(3, 1, 0), Some(1));
    assert_eq!(tab_after_close(1, 0, 0), Some(0));
    assert_eq!(tab_after_close(2, 0, 5), None);
}

#[test]
fn split_view() {
    assert_eq!(toggle_split_right(None, 3, 0), Some(1));
    assert_eq!(toggle_split_right(None, 3, 2), Some(0));
    assert_eq!(toggle_split_right(Some(1), 3, 0), None);
    assert_eq!(toggle_split_right(None, 1, 0), None);
}

#[test]
fn active_template_by_name() {
    let mut t = ZqTemplate::freeform();
    set_active_template_by_name(&mut t, "APA");
    assert_eq!(t.name, "APA");
    assert_eq!(t.expected_headings.len(), 9);
    set_active_template_by_name(&mut t, "nope");
    assert_eq!(t.name, "APA");
    set_active_template_by_name(&mut t, "八股文");
    assert_eq!(t.name, "八股文");
}

#[test]
fn structural_moves() {
    let doc = "# A\nx\n## B\nz\n# C\nw";
    let mut t = doc.to_string();
    handle_structural_move(&mut t, SidebarDragItem::File(PathBuf::from("x.md")), 0, false);
    assert_eq!(t, doc);
    let mut a = doc.to_string();
    handle_structural_move(&mut a, SidebarDragItem::Markdown(3), 0, false);
    let mut b = doc.to_string();
    move_markdown_chunk(&mut b, 3, 0, false);
    assert_eq!(a, b);
    assert_eq!(a, "## B\nz\n# A\nx\n# C\nw");
    let mut c = "[a]1[b]2".to_string();
    handle_structural_move(&mut c, SidebarDragItem::Semantic(1), 0, false);
    assert_eq!(c, "[b]2[a]1");
}

#[test]
fn classic_widget_colors() {
    assert_eq!(default_button_color(), [174, 201, 87]);
    assert_eq!(default_close_btn_color(), [200, 100, 100]);
    assert_eq!(default_checkbox_color(), [174, 201, 87]);
    assert_eq!(default_textbox_color(), [212, 205, 155]);
}
