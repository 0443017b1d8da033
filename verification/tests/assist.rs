use zq_core::assist::clipboard_text;
use zq_core::assist::{
    accept_completion, autocomplete_options, char_index_for_byte, cursor_byte, cursor_context,
    cursor_line, detect_autocomplete, get_chunk_preview, health_check, italicize_notes,
    label_at_cursor, label_relations, line_jump_position, menu_cursor_step, AutocompleteMode,
};
use zq_core::label::{parse_semantic_labels, LabelType};
use zq_core::spans::StyledSpan;

#[test]
fn cursor_positions() {
    assert_eq!(cursor_byte("aé中", 2), 3);
    assert_eq!(cursor_byte("aé中", 10), 6);
    assert_eq!(cursor_line("a\nb\nc", 0), 1);
    assert_eq!(cursor_line("a\nb\nc", 2), 2);
    assert_eq!(cursor_line("a\nb\nc", 3), 3);
    assert_eq!(cursor_line("a\nb\nc", 4), 3);
}

#[test]
fn labels_at_cursor() {
    let labels = parse_semantic_labels("x[a]y");
    assert_eq!(label_at_cursor(&labels, 1), Some(0));
    assert_eq!(label_at_cursor(&labels, 4), Some(0));
    assert_eq!(label_at_cursor(&labels, 5), None);
    assert_eq!(label_at_cursor(&labels, 0), None);
}

#[test]
fn status_context() {
    assert_eq!(cursor_context("# T\nx[a]y", 6), "Ln 3 | [a]  | 1x");
    assert_eq!(cursor_context("# T\nx[a-b]y[a]", 6), "Ln 3 | [a] b | 2x");
    assert_eq!(cursor_context("# T\nx[a]y", 1), "Ln 2 | T | +1");
    assert_eq!(cursor_context("abc", 0), "Ln 1");
}

#[test]
fn line_jumps() {
    let t = "ab\ncd\n\nef";
    assert_eq!(line_jump_position(t, 1), Some(0));
    assert_eq!(line_jump_position(t, 2), Some(3));
    assert_eq!(line_jump_position(t, 3), Some(6));
    assert_eq!(line_jump_position(t, 4), Some(7));
    assert_eq!(line_jump_position(t, 5), None);
    assert_eq!(line_jump_position(t, 0), None);
    assert_eq!(line_jump_position("a\r\nb", 2), Some(2));
}

#[test]
fn byte_jumps() {
    assert_eq!(char_index_for_byte("aé中b", 0), 0);
    assert_eq!(char_index_for_byte("aé中b", 3), 2);
    assert_eq!(char_index_for_byte("aé中b", 4), 3);
    assert_eq!(char_index_for_byte("aé中b", 100), 4);
}

#[test]
fn chunk_previews() {
    assert_eq!(get_chunk_preview("# H\nl1\nl2\n", 1, true), "l1\nl2");
    assert_eq!(get_chunk_preview("# H\n", 1, true), "(Empty content)");
    assert_eq!(get_chunk_preview("[a]  body text\r\n", 0, false), "body text");
    assert_eq!(get_chunk_preview("[a]", 0, false), "(Empty content)");
    assert_eq!(get_chunk_preview("abc", 0, false), "bc");
    assert_eq!(get_chunk_preview("x[a]y\r\nz", 1, false), "y\nz");
    let long = format!("[a]{}", "x".repeat(200));
    assert_eq!(get_chunk_preview(&long, 0, false), format!("{}...", "x".repeat(150)));
    let lines = "h\n1\n2\n3\n4\n5\n6";
    assert_eq!(get_chunk_preview(lines, 1, true), "1\n2\n3\n4\n5");
}

#[test]
fn autocomplete_detection() {
    assert_eq!(detect_autocomplete("see [Ab", 7), (AutocompleteMode::Category, "ab".to_string()));
    assert_eq!(detect_autocomplete("x|Fo", 4), (AutocompleteMode::Shortcode, "fo".to_string()));
    assert_eq!(detect_autocomplete("a]b", 3).0, AutocompleteMode::Inactive);
    assert_eq!(detect_autocomplete("[a\nb", 4).0, AutocompleteMode::Inactive);
    let far = format!("[{}", "a".repeat(25));
    assert_eq!(detect_autocomplete(&far, 26).0, AutocompleteMode::Inactive);
    assert_eq!(detect_autocomplete("[a", 9).0, AutocompleteMode::Inactive);
    assert_eq!(detect_autocomplete("[", 1), (AutocompleteMode::Category, String::new()));
}

#[test]
fn autocomplete_offers() {
    let types = vec![
        LabelType { name: "Character".to_string(), color: [1, 2, 3], description: String::new() },
        LabelType { name: "Scene".to_string(), color: [4, 5, 6], description: String::new() },
    ];
    let tags = vec![
        ("+".to_string(), "正面/支持".to_string()),
        ("?".to_string(), "存疑/检查".to_string()),
    ];
    let rels = vec![("sp".to_string(), "支持".to_string()), ("rf".to_string(), "驳斥".to_string())];
    assert_eq!(
        autocomplete_options(AutocompleteMode::Category, "ch", &types, &tags, &rels),
        vec![("Character".to_string(), Some([1, 2, 3]))]
    );
    assert_eq!(
        autocomplete_options(AutocompleteMode::Shortcode, "s", &types, &tags, &rels),
        vec![("sp".to_string(), None)]
    );
    assert_eq!(
        autocomplete_options(AutocompleteMode::Shortcode, "支持", &types, &tags, &rels),
        vec![("+".to_string(), None), ("sp".to_string(), None)]
    );
    assert!(autocomplete_options(AutocompleteMode::Inactive, "", &types, &tags, &rels).is_empty());
}

#[test]
fn accepting_completions() {
    assert_eq!(
        accept_completion("see [ch", 7, "ch", "Character", AutocompleteMode::Category),
        ("see [Character|".to_string(), 15)
    );
    assert_eq!(
        accept_completion("a|s b", 3, "s", "sp", AutocompleteMode::Shortcode),
        ("a|sp b".to_string(), 4)
    );
}

#[test]
fn menu_cursor() {
    assert_eq!(menu_cursor_step(5, 3, false, false), 2);
    assert_eq!(menu_cursor_step(2, 3, true, false), 0);
    assert_eq!(menu_cursor_step(0, 3, false, true), 2);
    assert_eq!(menu_cursor_step(1, 3, true, true), 1);
}

#[test]
fn relations_between_labels() {
    let labels = parse_semantic_labels("[claim|rf objection][objection][note|see claim]");
    let prefixes = vec!["rf".to_string(), "sp".to_string(), "@".to_string()];
    assert_eq!(
        label_relations(&labels, 0, &prefixes),
        vec![
            (1, "objection".to_string(), String::new()),
            (1, "note".to_string(), String::new()),
        ]
    );
    // A relation prefix written twice is stripped twice.
    let labels = parse_semantic_labels("[a-x|sprf b][b-y]");
    assert_eq!(
        label_relations(&labels, 0, &vec!["sp".to_string()]),
        Vec::<(usize, String, String)>::new()
    );
    let labels = parse_semantic_labels("[a-x|spsp b][b-y]");
    assert_eq!(
        label_relations(&labels, 0, &vec!["sp".to_string()]),
        vec![(1, "b".to_string(), "y".to_string())]
    );
}

fn span(start: usize, end: usize) -> StyledSpan {
    StyledSpan {
        start,
        end,
        fg: None,
        bg: None,
        size_pct: 100,
        bold: false,
        italic: false,
        strikethrough: false,
        is_hidden: false,
    }
}

#[test]
fn notes_in_italics() {
    let text = "a[注-x]b";
    let labels = parse_semantic_labels(text);
    let mut spans = vec![span(0, 1), span(1, 8), span(8, 9)];
    italicize_notes(&mut spans, &labels, text.len(), false);
    let flags: Vec<bool> = spans.iter().map(|s| s.italic).collect();
    assert_eq!(flags, vec![false, true, false]);
    let mut hidden = vec![span(1, 8)];
    italicize_notes(&mut hidden, &labels, text.len(), true);
    assert!(!hidden[0].italic);
}

#[test]
fn argument_health() {
    let symbols: Vec<String> = ["+", "-", "?", "~"].iter().map(|s| s.to_string()).collect();
    let labels = parse_semantic_labels("[a|+][b|+|?x][c|-]");
    let r = health_check(&labels, &symbols);
    assert_eq!(r.counts, vec![2, 1, 0, 0]);
    assert_eq!(r.questions, vec![1]);
    assert!(!r.unbalanced);
    let one_sided = parse_semantic_labels("[a|+][b|+]");
    let r = health_check(&one_sided, &symbols);
    assert_eq!(r.counts, vec![2, 0, 0, 0]);
    assert!(r.unbalanced);
    let doubled: Vec<String> = ["+", "+"].iter().map(|s| s.to_string()).collect();
    assert_eq!(health_check(&one_sided, &doubled).counts, vec![4, 4]);
}

#[test]
fn clipboard_copies() {
    let text = "张三[角色]走进客栈";
    assert_eq!(clipboard_text(text, 0, 7, false, false).as_deref(), Some("张三[角色]走"));
    assert_eq!(clipboard_text(text, 7, 0, true, false).as_deref(), Some("张三走"));
    assert_eq!(clipboard_text(text, 0, 7, false, true).as_deref(), Some("张三走"));
    assert_eq!(clipboard_text(text, 3, 3, true, true), None);
    assert_eq!(clipboard_text(text, 7, 100, false, false).as_deref(), Some("进客栈"));
}
