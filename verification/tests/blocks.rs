use zq_core::blocks::{
    calculate_block_range, delete_block, get_structure_markers, move_block_down, move_block_up,
    move_markdown_chunk, move_semantic_chunk, place_chunk, plan_semantic_move,
};

const DOC: &str = "# A\nx[p]y\n## B\nz\n# C\nw";

fn markers(text: &str) -> Vec<(usize, String)> {
    get_structure_markers(text)
}

#[test]
fn structure_markers_in_offset_order() {
    assert_eq!(
        markers(DOC),
        vec![
            (0, "A".to_string()),
            (5, "[p]".to_string()),
            (10, "B".to_string()),
            (17, "C".to_string()),
        ]
    );
}

#[test]
fn structure_markers_sorted_across_kinds() {
    // The label inside the heading comes after the heading's own marker.
    let m = markers("# [q] T");
    assert_eq!(m, vec![(0, "[q] T".to_string()), (2, "[q]".to_string())]);
}

#[test]
fn structure_markers_count_crlf_lines_as_one_byte_longer() {
    // Each line counts its bytes plus one, whatever its break.
    let m = markers("a\r\n# H");
    assert_eq!(m, vec![(2, "H".to_string())]);
}

#[test]
fn block_ranges() {
    assert_eq!(calculate_block_range(DOC, 0), (0, 5));
    assert_eq!(calculate_block_range(DOC, 5), (5, 10));
    assert_eq!(calculate_block_range(DOC, 17), (17, 22));
    assert_eq!(calculate_block_range("", 0), (0, 0));
}

#[test]
fn delete_a_block() {
    let mut t = DOC.to_string();
    delete_block(&mut t, 5, 0);
    assert_eq!(t, "# A\nx## B\nz\n# C\nw");
}

#[test]
fn move_a_block_up() {
    let mut t = DOC.to_string();
    move_block_up(&mut t, 10, 0);
    assert_eq!(t, "# A\nx## B\nz\n[p]y\n# C\nw");
    let mut first = DOC.to_string();
    move_block_up(&mut first, 0, 0);
    assert_eq!(first, DOC);
}

#[test]
fn move_a_block_down() {
    let mut t = DOC.to_string();
    move_block_down(&mut t, 0, 0);
    assert_eq!(t, "[p]y\n## B\nz\n# A\nx# C\nw");
    let mut last = DOC.to_string();
    move_block_down(&mut last, 17, 0);
    assert_eq!(last, DOC);
}

#[test]
fn move_markdown_section_before_a_heading() {
    let mut t = DOC.to_string();
    move_markdown_chunk(&mut t, 3, 0, false);
    assert_eq!(t, "## B\nz\n# A\nx[p]y\n# C\nw");
}

#[test]
fn move_markdown_section_as_child() {
    let mut t = DOC.to_string();
    move_markdown_chunk(&mut t, 3, 0, true);
    assert_eq!(t, DOC);
}

#[test]
fn move_markdown_section_to_the_end() {
    let mut t = DOC.to_string();
    move_markdown_chunk(&mut t, 3, 5, false);
    assert_eq!(t, "# A\nx[p]y\n# C\nw## B\nz\n");
}

#[test]
fn move_markdown_without_heading_on_line() {
    let mut t = DOC.to_string();
    move_markdown_chunk(&mut t, 2, 0, false);
    assert_eq!(t, DOC);
}

#[test]
fn move_semantic_chunk_before_label() {
    let mut t = "[a]one[.b-desc]two[c]three".to_string();
    move_semantic_chunk(&mut t, 2, 0, false);
    assert_eq!(t, "[c]three[a]one[.b-desc]two");
}

#[test]
fn move_semantic_chunk_counts_out_its_own_labels() {
    let mut t = "[a]one[.b-desc]two[c]three".to_string();
    move_semantic_chunk(&mut t, 0, 1, false);
    assert_eq!(t, "[a]one[.b-desc]two[c]three");
}

#[test]
fn move_semantic_chunk_as_next_child() {
    let mut t = "[a]one[.b-desc]two[c]three".to_string();
    move_semantic_chunk(&mut t, 2, 0, true);
    assert_eq!(t, "[a]one[.b-desc]two[a.2]three");
}

#[test]
fn move_semantic_chunk_as_child_keeps_description() {
    let mut t = "[x-hello]A[y]B".to_string();
    move_semantic_chunk(&mut t, 0, 1, true);
    assert_eq!(t, "[y]B[y.1-hello]A");
}

#[test]
fn move_semantic_chunk_retag_expands_dollar_references() {
    // The replacement goes through the regex crate, which reads `$a` as a reference
    // to a capture group named `a`; there is none, so it expands to nothing.
    let mut t = "[$a]x[b]y".to_string();
    move_semantic_chunk(&mut t, 1, 0, true);
    assert_eq!(t, "[$a]x[.1]y");
}

#[test]
fn move_semantic_chunk_past_last_label() {
    let mut t = "[a]one".to_string();
    move_semantic_chunk(&mut t, 3, 0, false);
    assert_eq!(t, "[a]one");
}

#[test]
fn plan_and_place() {
    let plan = plan_semantic_move("[a]one[.b-desc]two[c]three", 2, 0, true).unwrap();
    assert_eq!(plan.rest, "[a]one[.b-desc]two");
    assert_eq!(plan.chunk, "[c]three");
    assert_eq!(plan.insert_at, 18);
    assert_eq!(plan.retag, Some("[a.2]".to_string()));
    assert_eq!(place_chunk("abc", "XY", 1), "aXYbc");
    assert_eq!(place_chunk("é", "X", 2), "éX");
}
