use zq_core::spans::{parse_markdown_to_spans, StyledSpan};
use zq_core::utf16::{merge_level_colors, parse_to_spans_utf16, spans_in_utf16};

fn plain(start: usize, end: usize) -> StyledSpan {
    StyledSpan {
        start,
        end,
        fg: None,
        bg: None,
        size_pct: 100,
        bold: false,
        italic: false,
        strikethrough: false,
        is_hidden: false,
    }
}

#[test]
fn offsets_move_to_code_units() {
    // "😀" takes four bytes and two code units; "é" two bytes and one code unit.
    let text = "😀 é**b**";
    let mut spans = vec![plain(0, 4), plain(4, 5), plain(5, 7), plain(7, 13)];
    spans_in_utf16(text, &mut spans);
    let got: Vec<(usize, usize)> = spans.iter().map(|s| (s.start, s.end)).collect();
    assert_eq!(got, vec![(0, 2), (2, 3), (3, 4), (4, 9)]);
}

#[test]
fn offsets_past_the_end_are_cut() {
    let text = "a😀";
    let mut spans = vec![plain(1, 100)];
    spans_in_utf16(text, &mut spans);
    assert_eq!((spans[0].start, spans[0].end), (1, 3));
}

#[test]
fn offset_inside_a_character_becomes_zero() {
    let text = "😀b";
    let mut spans = vec![plain(2, 5)];
    spans_in_utf16(text, &mut spans);
    assert_eq!((spans[0].start, spans[0].end), (0, 3));
}

#[test]
fn level_colors_merge_into_defaults() {
    let merged = merge_level_colors(&[[1, 1, 1], [2, 2, 2]]);
    assert_eq!(
        merged,
        vec![[1, 1, 1], [2, 2, 2], [80, 80, 230], [230, 180, 50], [180, 80, 200], [80, 200, 200]]
    );
    let many = [[9u8, 9, 9]; 8];
    assert_eq!(merge_level_colors(&many), vec![[9, 9, 9]; 6]);
    assert_eq!(merge_level_colors(&[]).len(), 6);
}

#[test]
fn utf16_spans_match_byte_spans() {
    let text = "# 标题\n**粗** [角色] 😀";
    let given = [[5u8, 6, 7]];
    let bytes = parse_markdown_to_spans(text, &merge_level_colors(&given), [9, 9, 9], [0, 0, 0], false);
    let units = parse_to_spans_utf16(text, [9, 9, 9], [0, 0, 0], &given, false);
    assert_eq!(bytes.len(), units.len());
    let total: usize = text.encode_utf16().count();
    assert_eq!(units[0].start, 0);
    assert_eq!(units.last().unwrap().end, total);
    for (b, u) in bytes.iter().zip(units.iter()) {
        assert_eq!(text[..b.start].encode_utf16().count(), u.start);
        assert_eq!(text[..b.end].encode_utf16().count(), u.end);
        assert_eq!(b.fg, u.fg);
        assert_eq!(b.bold, u.bold);
    }
}
