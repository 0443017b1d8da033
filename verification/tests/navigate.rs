use zq_core::label::parse_semantic_labels;
use zq_core::navigate::{
    active_label_index, filter_commands, outline_item_active, outline_items, quick_nav_entries,
    OutlineItem,
};
use zq_core::template::ZqTemplate;

#[test]
fn outline_with_missing_sections() {
    let items = outline_items("## 破题\n文字", &ZqTemplate::baguwen());
    assert_eq!(items.len(), 8);
    match &items[0] {
        OutlineItem::Heading { ln, lv, title } => {
            assert_eq!((*ln, *lv, title.as_str()), (1, 2, "破题"));
        },
        _ => panic!("expected a heading"),
    }
    match &items[1] {
        OutlineItem::GhostHeading { lv, title, desc } => {
            assert_eq!((*lv, title.as_str(), desc.as_str()), (2, "承题", "承接引申"));
        },
        _ => panic!("expected a missing section"),
    }
    let apa = outline_items("", &ZqTemplate::apa());
    assert_eq!(apa.len(), 7);
    match &apa[0] {
        OutlineItem::GhostHeading { lv, title, .. } => assert_eq!((*lv, title.as_str()), (1, "H1")),
        _ => panic!("expected a missing section"),
    }
    assert!(outline_items("plain", &ZqTemplate::freeform()).is_empty());
}

#[test]
fn outline_highlight() {
    let items = outline_items("# A\n\n\n\n# B", &ZqTemplate::apa());
    // Headings on lines 1 and 5, then the missing sections.
    assert!(outline_item_active(&items, 0, 3));
    assert!(!outline_item_active(&items, 1, 3));
    assert!(!outline_item_active(&items, 0, 6));
    assert!(outline_item_active(&items, 1, 6));
    assert!(!outline_item_active(&items, 2, 6));
}

#[test]
fn active_label() {
    let labels = parse_semantic_labels("[a]x[b]y");
    assert_eq!(active_label_index(&labels, 0), Some(0));
    assert_eq!(active_label_index(&labels, 3), Some(0));
    assert_eq!(active_label_index(&labels, 4), Some(1));
    let later = parse_semantic_labels("x[a]");
    assert_eq!(active_label_index(&later, 0), None);
}

#[test]
fn quick_navigation() {
    let text = "# Intro\n[Char-Li]";
    let all = quick_nav_entries(text, "");
    let shown: Vec<(usize, &str, bool)> = all.iter().map(|e| (e.line, e.text.as_str(), e.is_match)).collect();
    assert_eq!(shown, vec![(1, "# Intro (L1)", false), (2, "Char Li (L2)", false)]);
    assert_eq!(all[1].category, Some("Char".to_string()));
    let labels_only = quick_nav_entries(text, "@LI");
    assert_eq!(labels_only.len(), 1);
    assert!(labels_only[0].is_match);
    assert_eq!(labels_only[0].line, 2);
    let headings_only = quick_nav_entries(text, "#in");
    assert_eq!(headings_only.len(), 1);
    assert_eq!(headings_only[0].text, "# Intro (L1)");
    assert!(headings_only[0].is_match);
    assert!(quick_nav_entries(text, "zzz").is_empty());
}

#[test]
fn command_palette_filter() {
    let names = vec!["New File".to_string(), "Open File".to_string(), "Save".to_string()];
    assert_eq!(filter_commands(&names, "FI"), vec![0, 1]);
    assert_eq!(filter_commands(&names, ""), vec![0, 1, 2]);
    assert!(filter_commands(&names, "x").is_empty());
}
