use zq_core::blocks::{move_block_down, move_block_up, move_markdown_chunk, move_semantic_chunk};
use zq_core::doc::strip_labels;
use zq_core::label::{auto_register_labels, parse_semantic_labels, strip_semantic_labels};
use zq_core::navigate::{outline_items, OutlineItem};
use zq_core::spans::parse_markdown_to_spans;
use zq_core::template::{validate_document, ZqTemplate};
use zq_core::theme::{frame_zq_file, split_zq_file};

fn sorted_chars(s: &str) -> Vec<char> {
    let mut v: Vec<char> = s.chars().collect();
    v.sort();
    v
}

#[test]
fn stripping_parsed_labels_leaves_the_clean_text() {
    let text = "John Doe[Character] pushed open the door.[Note: later]";
    let labels = parse_semantic_labels(text);
    assert_eq!(strip_semantic_labels(text, &labels), strip_labels(text));
    assert_eq!(strip_labels(text), "John Doe pushed open the door.");
}

#[test]
fn labels_come_in_order_within_the_text() {
    let text = "[a]x[.b]y[c-d|e]";
    let labels = parse_semantic_labels(text);
    for w in labels.windows(2) {
        assert!(w[0].end_byte <= w[1].start_byte);
    }
    for l in &labels {
        assert!(l.start_byte < l.end_byte && l.end_byte <= text.len());
        assert!(text.is_char_boundary(l.start_byte));
    }
}

#[test]
fn moves_keep_every_character() {
    let doc = "# A\nx[p]y\n## B\nz\n# C\nw";
    let mut up = doc.to_string();
    move_block_up(&mut up, 10, 0);
    let mut down = doc.to_string();
    move_block_down(&mut down, 0, 0);
    let mut md = doc.to_string();
    move_markdown_chunk(&mut md, 3, 5, true);
    let mut sem = "[a]one[.b-desc]two[c]three".to_string();
    move_semantic_chunk(&mut sem, 2, 0, false);
    for moved in [&up, &down, &md] {
        assert_ne!(moved.as_str(), "");
        assert_eq!(sorted_chars(moved), sorted_chars(doc));
    }
    assert_eq!(sorted_chars(&sem), sorted_chars("[a]one[.b-desc]two[c]three"));
}

#[test]
fn zq_file_round_trip() {
    let meta = "{\n  \"font_size\": 16.0\n}";
    let framed = frame_zq_file(meta, "\n# Body\ntext");
    assert_eq!(framed, "---zq-meta---\n{\n  \"font_size\": 16.0\n}\n---end-meta---\n\n# Body\ntext");
    assert_eq!(split_zq_file(&framed), Some((meta.to_string(), "# Body\ntext".to_string())));
}

#[test]
fn spans_tile_the_text() {
    let text = "# Title\nSome **bold** [Label] text.";
    let spans = parse_markdown_to_spans(text, &[[1, 2, 3]], [9, 9, 9], [0, 0, 0], false);
    assert_eq!(spans[0].start, 0);
    assert_eq!(spans.last().unwrap().end, text.len());
    for w in spans.windows(2) {
        assert_eq!(w[0].end, w[1].start);
    }
    for s in &spans {
        assert!(s.start < s.end);
    }
    assert!(parse_markdown_to_spans("", &[], [0, 0, 0], [0, 0, 0], false).is_empty());
}

#[test]
fn registering_twice_adds_nothing() {
    let labels = parse_semantic_labels("[Character]a[Scene]b[Character]c[s.]d");
    let once = auto_register_labels(&labels, &[]);
    let names: Vec<&str> = once.iter().map(|t| t.name.as_str()).collect();
    assert_eq!(names, vec!["Character", "Scene"]);
    let twice = auto_register_labels(&labels, &once);
    assert_eq!(twice.len(), once.len());
    for (a, b) in once.iter().zip(twice.iter()) {
        assert_eq!((a.name.as_str(), a.color), (b.name.as_str(), b.color));
    }
}

#[test]
fn placeholders_match_failed_heading_checks() {
    let text = "## 破题\n## 中股\n";
    let t = ZqTemplate::baguwen();
    let ghosts = outline_items(text, &t)
        .iter()
        .filter(|i| matches!(i, OutlineItem::GhostHeading { .. }))
        .count();
    let failed = validate_document(text, &t).iter().filter(|r| !r.passed).count();
    assert_eq!(ghosts, 6);
    assert_eq!(failed, 6);
}

#[test]
fn freeform_asks_for_nothing() {
    let t = ZqTemplate::freeform();
    assert!(validate_document("anything [x]", &t).is_empty());
    assert!(outline_items("# a", &t).iter().all(|i| matches!(i, OutlineItem::Heading { .. })));
}

#[test]
fn explicit_and_relative_paths() {
    let labels = parse_semantic_labels("[s1.1]a[s2]b[.1]c[.]d");
    let cats: Vec<&str> = labels.iter().map(|l| l.category.as_str()).collect();
    assert_eq!(cats, vec!["s1.1", "s2", "s2.1", "s2.1"]);
}

#[test]
fn hiding_hides_exactly_the_labels() {
    let text = "张三[角色]走进**客栈**[场景]。";
    let spans = parse_markdown_to_spans(text, &[[1, 2, 3]], [9, 9, 9], [0, 0, 0], true);
    let mut hidden = String::new();
    let mut shown = String::new();
    for s in &spans {
        if s.is_hidden {
            hidden.push_str(&text[s.start..s.end]);
        } else {
            shown.push_str(&text[s.start..s.end]);
        }
    }
    assert_eq!(hidden, "[角色][场景]");
    assert_eq!(shown, "张三走进**客栈**。");
    let visible = parse_markdown_to_spans(text, &[[1, 2, 3]], [9, 9, 9], [0, 0, 0], false);
    assert!(visible.iter().all(|s| !s.is_hidden));
}

#[test]
fn stripping_ignores_label_order() {
    let text = "张三[角色]走进客栈[场景]。[伏笔:红伞]角落那把伞。";
    let labels = parse_semantic_labels(text);
    let mut reversed = labels.clone();
    reversed.reverse();
    assert_eq!(strip_semantic_labels(text, &reversed), strip_semantic_labels(text, &labels));
    assert_eq!(strip_semantic_labels(text, &reversed), "张三走进客栈。角落那把伞。");
}

#[test]
fn appending_keeps_passed_checks() {
    let mut t = ZqTemplate::baguwen();
    t.label_types[0].required = true;
    let text = "## 破题\n天下之事[引用-左传]。\r";
    let before = validate_document(text, &t);
    let longer = format!("{}\n## 承题\n[论点]", text);
    let after = validate_document(&longer, &t);
    assert_eq!(before.len(), after.len());
    for (a, b) in before.iter().zip(after.iter()) {
        assert_eq!(a.rule_id, b.rule_id);
        assert!(!a.passed || b.passed);
    }
    assert!(before[0].passed && before[8].passed);
    assert!(!before[1].passed && after[1].passed);
}

#[test]
fn stripping_ignores_order_with_empty_ranges() {
    let text = "张三[角色]走进客栈[场景]。";
    let labels = parse_semantic_labels(text);
    let mut empty = labels[1].clone();
    empty.end_byte = empty.start_byte;
    let mut with_empty = labels.clone();
    with_empty.push(empty.clone());
    let mut other_order = vec![empty];
    other_order.extend(labels.iter().rev().cloned());
    assert_eq!(strip_semantic_labels(text, &with_empty), "张三走进客栈。");
    assert_eq!(strip_semantic_labels(text, &other_order), "张三走进客栈。");
}

#[test]
fn span_ends_fall_on_character_boundaries() {
    let text = "# 标题一\n张三[角色]说：**很好** *好* ~~旧~~ `代码` [链接](http://x)\n> 引用\n- [x] 任务";
    for hide in [false, true] {
        let spans = parse_markdown_to_spans(text, &[[1, 2, 3]], [9, 9, 9], [0, 0, 0], hide);
        for s in &spans {
            assert!(text.is_char_boundary(s.start));
            assert!(text.is_char_boundary(s.end));
        }
    }
}
