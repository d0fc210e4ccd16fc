use rope_text::char_indices::{char_len_utf8, CharIndicesJoin};
use rope_text::encoding::{lead_byte_width, offset_utf16_to_utf8, offset_utf8_to_utf16};
use rope_text::rope::TextRope;
use rope_text::rope_text::{Position, RopeText};

#[test]
fn test_line_content() {
    let text = TextRope::from_str("");
    let text = RopeText::new(&text);

    assert_eq!(text.line_content(0), "");
    assert_eq!(text.line_content(1), "");
    assert_eq!(text.line_content(2), "");

    let text = TextRope::from_str("abc\ndef\nghi");
    let text = RopeText::new(&text);

    assert_eq!(text.line_content(0), "abc\n");
    assert_eq!(text.line_content(1), "def\n");
    assert_eq!(text.line_content(2), "ghi");
    assert_eq!(text.line_content(3), "");
    assert_eq!(text.line_content(4), "");
    assert_eq!(text.line_content(5), "");

    let text = TextRope::from_str("abc\r\ndef\r\nghi");
    let text = RopeText::new(&text);

    assert_eq!(text.line_content(0), "abc\r\n");
    assert_eq!(text.line_content(1), "def\r\n");
    assert_eq!(text.line_content(2), "ghi");
    assert_eq!(text.line_content(3), "");
    assert_eq!(text.line_content(4), "");
    assert_eq!(text.line_content(5), "");
}

#[test]
fn test_offset_of_line() {
    let text = TextRope::from_str("");
    let text = RopeText::new(&text);

    assert_eq!(text.offset_of_line(0), 0);
    assert_eq!(text.offset_of_line(1), 0);
    assert_eq!(text.offset_of_line(2), 0);

    let text = TextRope::from_str("abc\ndef\nghi");
    let text = RopeText::new(&text);

    assert_eq!(text.offset_of_line(0), 0);
    assert_eq!(text.offset_of_line(1), 4);
    assert_eq!(text.offset_of_line(2), 8);
    assert_eq!(text.offset_of_line(3), text.len()); // 11
    assert_eq!(text.offset_of_line(4), text.len());
    assert_eq!(text.offset_of_line(5), text.len());

    let text = TextRope::from_str("abc\r\ndef\r\nghi");
    let text = RopeText::new(&text);

    assert_eq!(text.offset_of_line(0), 0);
    assert_eq!(text.offset_of_line(1), 5);
    assert_eq!(text.offset_of_line(2), 10);
    assert_eq!(text.offset_of_line(3), text.len()); // 13
    assert_eq!(text.offset_of_line(4), text.len());
    assert_eq!(text.offset_of_line(5), text.len());
}

#[test]
fn test_line_end_offset() {
    let text = TextRope::from_str("");
    let text = RopeText::new(&text);

    assert_eq!(text.line_end_offset(0, false), 0);
    assert_eq!(text.line_end_offset(0, true), 0);
    assert_eq!(text.line_end_offset(1, false), 0);
    assert_eq!(text.line_end_offset(1, true), 0);
    assert_eq!(text.line_end_offset(2, false), 0);
    assert_eq!(text.line_end_offset(2, true), 0);

    let text = TextRope::from_str("abc\ndef\nghi");
    let text = RopeText::new(&text);

    assert_eq!(text.line_end_offset(0, false), 2);
    assert_eq!(text.line_end_offset(0, true), 3);
    assert_eq!(text.line_end_offset(1, false), 6);
    assert_eq!(text.line_end_offset(1, true), 7);
    assert_eq!(text.line_end_offset(2, false), 10);
    assert_eq!(text.line_end_offset(2, true), text.len());
    assert_eq!(text.line_end_offset(3, false), text.len());
    assert_eq!(text.line_end_offset(3, true), text.len());
    assert_eq!(text.line_end_offset(4, false), text.len());
    assert_eq!(text.line_end_offset(4, true), text.len());

    let text = TextRope::from_str("hello\nworld");
    let text = RopeText::new(&text);
    assert_eq!(text.line_end_offset(0, false), 4); // "hell|o"
    assert_eq!(text.line_end_offset(0, true), 5); // "hello|"
    assert_eq!(text.line_end_offset(1, false), 10); // "worl|d"
    assert_eq!(text.line_end_offset(1, true), 11); // "world|"
    assert_eq!(text.line_end_offset(2, false), 11); // "world|"
}

#[test]
fn test_prev_grapheme_offset() {
    let text = TextRope::from_str("");
    let text = RopeText::new(&text);

    assert_eq!(text.prev_grapheme_offset(0, 0, 0), 0);
    assert_eq!(text.prev_grapheme_offset(0, 1, 0), 0);
    assert_eq!(text.prev_grapheme_offset(0, 1, 1), 0);

    let text = TextRope::from_str("abc def ghi");
    let text = RopeText::new(&text);

    assert_eq!(text.prev_grapheme_offset(0, 0, 0), 0);
    assert_eq!(text.prev_grapheme_offset(0, 1, 0), 0);
    assert_eq!(text.prev_grapheme_offset(0, 1, 1), 0);
    assert_eq!(text.prev_grapheme_offset(2, 1, 0), 1);
    assert_eq!(text.prev_grapheme_offset(2, 1, 1), 1);
}

#[test]
fn test_first_non_blank_character_on_line() {
    let text = TextRope::from_str("");
    let text = RopeText::new(&text);

    assert_eq!(text.first_non_blank_character_on_line(0), 0);
    assert_eq!(text.first_non_blank_character_on_line(1), 0);
    assert_eq!(text.first_non_blank_character_on_line(2), 0);

    let text = TextRope::from_str("abc\ndef\nghi");
    let text = RopeText::new(&text);

    assert_eq!(text.first_non_blank_character_on_line(0), 0);
    assert_eq!(text.first_non_blank_character_on_line(1), 4);
    assert_eq!(text.first_non_blank_character_on_line(2), 8);
    assert_eq!(text.first_non_blank_character_on_line(3), 11);
    assert_eq!(text.first_non_blank_character_on_line(4), 8);
    assert_eq!(text.first_non_blank_character_on_line(5), 8);

    let text = TextRope::from_str("abc\r\ndef\r\nghi");
    let text = RopeText::new(&text);

    assert_eq!(text.first_non_blank_character_on_line(0), 0);
    assert_eq!(text.first_non_blank_character_on_line(1), 5);
    assert_eq!(text.first_non_blank_character_on_line(2), 10);
    assert_eq!(text.first_non_blank_character_on_line(3), 13);
    assert_eq!(text.first_non_blank_character_on_line(4), 10);
    assert_eq!(text.first_non_blank_character_on_line(5), 10);
}

#[test]
fn empty_document_starts_and_ends_at_zero() {
    let text = TextRope::from_str("");
    let text = RopeText::new(&text);
    for n in 0..6 {
        assert_eq!(text.offset_of_line(n), 0);
        assert_eq!(text.line_end_offset(n, true), 0);
        assert_eq!(text.line_end_offset(n, false), 0);
    }
    assert!(text.is_empty());
    assert_eq!(text.num_lines(), 1);
    assert_eq!(text.last_line(), 0);
}

#[test]
fn line_contents_rebuild_document() {
    for doc in ["", "abc\ndef\nghi", "abc\r\ndef\r\nghi\n", "\n\n", "h\u{e9}llo\n\u{1f600}x"] {
        let rope = TextRope::from_str(doc);
        let text = RopeText::new(&rope);
        let mut whole = String::new();
        for line in 0..=text.last_line() {
            whole.push_str(&text.line_content(line));
        }
        assert_eq!(whole, doc);
    }
}

#[test]
fn caret_difference_is_last_grapheme() {
    let rope = TextRope::from_str("ab\u{e9}\r\n\nx\u{1f600}");
    let text = RopeText::new(&rope);
    assert_eq!(text.line_end_offset(0, true) - text.line_end_offset(0, false), 2);
    assert_eq!(text.line_end_offset(1, true) - text.line_end_offset(1, false), 0);
    assert_eq!(text.line_end_offset(2, true) - text.line_end_offset(2, false), 4);
    assert_eq!(text.line_end_col(0, true), 4);
    assert_eq!(text.line_end_col(2, false), 1);
}

#[test]
fn position_round_trip_with_surrogates() {
    let doc = "a\u{1f600}b\n\u{e9}\u{10348}z\r\nend";
    let rope = TextRope::from_str(doc);
    let text = RopeText::new(&rope);
    for (o, _) in doc.char_indices().chain(std::iter::once((doc.len(), ' '))) {
        let pos = text.offset_to_position(o);
        assert_eq!(text.offset_of_position(&pos), o);
    }
    assert_eq!(text.offset_to_position(5), Position::new(0, 3));
    assert_eq!(text.offset_to_position(6), Position::new(0, 4));
    assert_eq!(text.offset_to_position(13), Position::new(1, 3));
    assert_eq!(text.offset_of_position(&Position::new(1, 1)), 9);
    assert_eq!(text.position_to_line_col(&Position::new(1, 3)), (1, 6));
}

#[test]
fn prev_grapheme_zero_count_keeps_offset() {
    let rope = TextRope::from_str("abc def ghi");
    let text = RopeText::new(&rope);
    for o in 0..14 {
        for limit in 0..14 {
            assert_eq!(text.prev_grapheme_offset(o, 0, limit), o.min(11));
        }
    }
    assert_eq!(text.prev_grapheme_offset(5, 3, 0), 2);
    assert_eq!(text.prev_grapheme_offset(5, 3, 3), 3);
    assert_eq!(text.prev_grapheme_offset(50, 1, 0), 10);
}

#[test]
fn grapheme_clusters_step_as_one() {
    let rope = TextRope::from_str("e\u{301}x\r\n");
    let text = RopeText::new(&rope);
    assert_eq!(text.prev_grapheme_offset(3, 1, 0), 0);
    assert_eq!(text.prev_grapheme_offset(6, 1, 0), 4);
    assert_eq!(text.line_end_offset(0, false), 3);
}

#[test]
fn line_and_column_conversions() {
    let rope = TextRope::from_str("ab\ncd\u{e9}f\n");
    let text = RopeText::new(&rope);
    assert_eq!(text.offset_to_line_col(0), (0, 0));
    assert_eq!(text.offset_to_line_col(4), (1, 1));
    assert_eq!(text.offset_to_line_col(100), (2, 0));
    assert_eq!(text.line_of_offset(6), 1);
    assert_eq!(text.offset_of_line_col(1, 2), 5);
    assert_eq!(text.offset_of_line_col(1, 3), 5);
    assert_eq!(text.offset_of_line_col(1, 4), 7);
    assert_eq!(text.offset_of_line_col(1, 99), 8);
    assert_eq!(text.offset_of_line_col(0, 99), 2);
    assert_eq!(text.offset_line_end(4, true), 8);
    assert_eq!(text.line_len(1), 6);
    assert_eq!(text.line_len(7), 0);
    assert_eq!(text.num_lines(), 3);
}

#[test]
fn indentation_and_slices() {
    let rope = TextRope::from_str("  \tfoo\n    \n\tbar");
    let text = RopeText::new(&rope);
    assert_eq!(text.indent_on_line(0), "  \t");
    assert_eq!(text.first_non_blank_character_on_line(1), 11);
    assert_eq!(text.indent_on_line(1), "    ");
    assert_eq!(text.indent_on_line(2), "\t");
    assert_eq!(text.indent_on_line(9), "\t");
    assert_eq!(text.slice_to_cow(3..6), "foo");
    assert_eq!(text.slice_to_cow(13..99), "bar");
}

#[test]
fn utf16_column_conversions() {
    let s = "a\u{1f600}\u{e9}b";
    assert_eq!(offset_utf8_to_utf16(s.as_bytes(), 0), 0);
    assert_eq!(offset_utf8_to_utf16(s.as_bytes(), 5), 3);
    assert_eq!(offset_utf8_to_utf16(s.as_bytes(), 7), 4);
    assert_eq!(offset_utf8_to_utf16(s.as_bytes(), 99), 5);
    assert_eq!(offset_utf16_to_utf8(s.as_bytes(), 3), 5);
    assert_eq!(offset_utf16_to_utf8(s.as_bytes(), 2), 5);
    assert_eq!(offset_utf16_to_utf8(s.as_bytes(), 99), 8);
}

#[test]
fn line_of_offset_inside_a_character() {
    let rope = TextRope::from_str("a\u{e9}\n\u{1f600}\nz");
    let text = RopeText::new(&rope);
    assert_eq!(text.line_of_offset(2), 0);
    assert_eq!(text.line_of_offset(3), 0);
    assert_eq!(text.line_of_offset(4), 1);
    assert_eq!(text.line_of_offset(6), 1);
    assert_eq!(text.line_of_offset(9), 2);
    assert_eq!(text.offset_to_line_col(6), (1, 2));
    assert_eq!(text.last_line(), 2);
}

#[test]
fn char_indices_over_a_range() {
    let doc = "ab\u{e9}\n\u{1f600}c";
    let rope = TextRope::from_str(doc);
    let text = RopeText::new(&rope);
    let all: Vec<(usize, char)> = doc.char_indices().collect();
    assert_eq!(text.char_indices_iter(0..doc.len()), all);
    assert_eq!(text.char_indices_iter(2..5), vec![(0, '\u{e9}'), (2, '\n')]);
    assert_eq!(text.char_indices_iter(5..5), vec![]);
}

#[test]
fn char_indices_over_a_large_rope() {
    let mut doc = String::new();
    for i in 0..3000 {
        doc.push_str(if i % 3 == 0 { "\u{1f600}" } else if i % 3 == 1 { "\u{e9}" } else { "x\n" });
    }
    let rope = TextRope::from_str(&doc);
    let text = RopeText::new(&rope);
    let all: Vec<(usize, char)> = doc.char_indices().collect();
    assert_eq!(text.char_indices_iter(0..doc.len()), all);
    assert_eq!(text.line_content(5), "\u{1f600}\u{e9}x\n");
    assert_eq!(text.num_lines(), 1001);
}

#[test]
fn join_shifts_each_chunk() {
    let chunks = vec![
        vec![(0, 'a'), (1, '\u{e9}')],
        vec![],
        vec![(0, '\u{1f600}'), (4, 'b')],
        vec![(0, 'c')],
    ];
    let mut join = CharIndicesJoin::new(chunks);
    let mut out = Vec::new();
    while let Some(item) = join.next() {
        out.push(item);
    }
    assert_eq!(out, vec![(0, 'a'), (1, '\u{e9}'), (3, '\u{1f600}'), (7, 'b'), (8, 'c')]);
    assert_eq!(join.next(), None);
    let mut empty = CharIndicesJoin::new(vec![vec![], vec![]]);
    assert_eq!(empty.next(), None);
}

#[test]
fn utf8_lengths_of_characters() {
    assert_eq!(char_len_utf8('a'), 1);
    assert_eq!(char_len_utf8('\u{e9}'), 2);
    assert_eq!(char_len_utf8('\u{20ac}'), 3);
    assert_eq!(char_len_utf8('\u{1f600}'), 4);
    assert_eq!(lead_byte_width(0x41), 1);
    assert_eq!(lead_byte_width(0xc3), 2);
    assert_eq!(lead_byte_width(0xe2), 3);
    assert_eq!(lead_byte_width(0xf0), 4);
}

#[test]
fn reversed_slice_is_empty() {
    let rope = TextRope::from_str("abc\ndef");
    let text = RopeText::new(&rope);
    assert_eq!(text.slice_to_cow(5..2), "");
    assert_eq!(text.slice_to_cow(99..3), "");
    assert_eq!(text.slice_to_cow(2..5), "c\nd");
}

#[test]
fn grapheme_steps_add_up() {
    let rope = TextRope::from_str("ab\u{e9}e\u{301}\u{1f600}xyz");
    let text = RopeText::new(&rope);
    for o in 0..16 {
        for limit in 0..6 {
            for n in 0..4 {
                for m in 0..4 {
                    let a = text.prev_grapheme_offset(o, n, limit);
                    assert!(a <= o.min(text.len()));
                    assert_eq!(text.prev_grapheme_offset(a, m, limit), text.prev_grapheme_offset(o, n + m, limit));
                }
            }
        }
    }
    assert_eq!(text.prev_grapheme_offset(11, 1, 0), 7);
    assert_eq!(text.prev_grapheme_offset(11, 2, 0), 4);
    assert_eq!(text.prev_grapheme_offset(11, 3, 0), 2);
}
