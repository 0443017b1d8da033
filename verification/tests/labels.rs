use zq_core::doc::{compute_stats, extract_headings, strip_labels};
use zq_core::label::{
    parse_semantic_labels, parse_semantic_labels_with_delim, strip_all_labels_regex,
};

#[test]
fn parse_plain_labels() {
    let text = "张三[角色]走进客栈[场景]。[伏笔:红伞]角落那把伞。";
    let labels = parse_semantic_labels(text);
    assert_eq!(labels.len(), 3);
    assert_eq!(labels[0].category, "角色");
    assert_eq!(labels[0].depth, 1);
    assert_eq!(labels[0].start_byte, 6);
    assert_eq!(labels[0].end_byte, 14);
    assert_eq!(labels[0].line, 1);
    assert_eq!(labels[0].raw, "角色");
    assert_eq!(labels[1].category, "场景");
    assert_eq!(labels[2].category, "伏笔:红伞");
    assert_eq!(&text[labels[2].start_byte..labels[2].end_byte], "[伏笔:红伞]");
}

#[test]
fn parse_auto_numbering() {
    let text = "[s1] a\n[.] b\n[.] c\n[..x] d\n[ ] e";
    let labels = parse_semantic_labels(text);
    let cats: Vec<&str> = labels.iter().map(|l| l.category.as_str()).collect();
    assert_eq!(cats, vec!["s1", "s1.1", "s1.2", "s1.2.x", "1"]);
    let depths: Vec<usize> = labels.iter().map(|l| l.depth).collect();
    assert_eq!(depths, vec![1, 2, 2, 3, 1]);
    let lines: Vec<usize> = labels.iter().map(|l| l.line).collect();
    assert_eq!(lines, vec![1, 2, 3, 4, 5]);
}

#[test]
fn parse_text_and_properties() {
    let labels = parse_semantic_labels("x[a.b-hello world | p1 | sp 2]y");
    assert_eq!(labels.len(), 1);
    assert_eq!(labels[0].category, "a.b");
    assert_eq!(labels[0].depth, 2);
    assert_eq!(labels[0].text, "hello world");
    assert_eq!(labels[0].properties, vec!["p1".to_string(), "sp 2".to_string()]);
    assert!(labels[0].parent_category.is_none());
}

#[test]
fn properties_may_not_span_lines() {
    let labels = parse_semantic_labels("[a|x\ny] [b-c\nd]");
    assert_eq!(labels.len(), 1);
    assert_eq!(labels[0].category, "b");
    assert_eq!(labels[0].text, "c\nd");
    assert_eq!(strip_all_labels_regex("[a|x\ny] [b-c\nd]!"), " !");
    assert_eq!(strip_labels("[a|x\ny] [b-c\nd]!"), "[a|x\ny] !");
}

#[test]
fn custom_delimiters() {
    let labels = parse_semantic_labels_with_delim("a<<k-v>>b<<<x>>", "<<", ">>");
    assert_eq!(labels.len(), 2);
    assert_eq!(labels[0].category, "k");
    assert_eq!(labels[0].text, "v");
    assert_eq!(labels[1].category, "x");
    assert_eq!(labels[1].start_byte, 10);
    assert!(parse_semantic_labels_with_delim("[a]", "", "").is_empty());
    let only_close = parse_semantic_labels_with_delim("ab|cd|", "", "|");
    assert_eq!(only_close.len(), 2);
    assert_eq!(only_close[0].raw, "ab");
}

#[test]
fn strip_removes_labels() {
    assert_eq!(
        strip_labels("张三[角色]走进客栈[场景]。[伏笔:红伞]角落那把伞。"),
        "张三走进客栈。角落那把伞。"
    );
}

#[test]
fn headings_and_stats() {
    let h = extract_headings("## 破题\n天下之事。\n## 承题\n故君子慎其所由。");
    assert_eq!(h, vec![(1, 2, "破题".to_string()), (3, 2, "承题".to_string())]);
    let h = extract_headings("  ####### deep\n#\n# t \r\n");
    assert_eq!(h, vec![(1, 6, "# deep".to_string()), (3, 1, "t".to_string())]);
    let st = compute_stats("a b\n[x] ]\n");
    assert_eq!(st.chars, 10);
    assert_eq!(st.chars_no_space, 6);
    assert_eq!(st.words, 4);
    assert_eq!(st.lines, 2);
    assert_eq!(st.labels, 1);
    assert_eq!(compute_stats("").lines, 1);
}

#[test]
fn label_lines_are_one_based() {
    assert_eq!(parse_semantic_labels("a[x]")[0].line, 1);
    assert_eq!(parse_semantic_labels("a\nb[x]")[0].line, 2);
    assert_eq!(parse_semantic_labels("a\n[x]")[0].line, 2);
    assert_eq!(parse_semantic_labels("[x]\n\n\n[y]")[1].line, 4);
}
