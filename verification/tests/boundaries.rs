use text_lines::{LineAndColumnDisplay, LineAndColumnIndex, TextLines};

#[test]
fn empty_text_has_one_empty_line() {
    let info = TextLines::new("");
    assert_eq!(info.lines_count(), 1);
    assert_eq!(info.text_length(), 0);
    assert_eq!(info.line_range(0), (0, 0));
    assert_eq!(info.line_index(0), 0);
    assert_eq!(
        info.line_and_column_index(0),
        LineAndColumnIndex { line_index: 0, column_index: 0 }
    );
    assert_eq!(
        info.line_and_column_display(0),
        LineAndColumnDisplay { line_number: 1, column_number: 1 }
    );
    assert_eq!(info.byte_index_from_char_index(0), 0);
    assert_eq!(info.byte_index_from_char_index(5), 0);
}

#[test]
fn lines_count_is_newlines_plus_one() {
    assert_eq!(TextLines::new("a").lines_count(), 1);
    assert_eq!(TextLines::new("\n").lines_count(), 2);
    assert_eq!(TextLines::new("12\n3\r\n4\n5").lines_count(), 4);
    assert_eq!(TextLines::new("\r\r").lines_count(), 1);
}

#[test]
fn trailing_newline_gives_empty_last_line() {
    let info = TextLines::new("a\n");
    assert_eq!(info.lines_count(), 2);
    assert_eq!(info.line_range(0), (0, 1));
    assert_eq!(info.line_range(1), (2, 2));
    assert_eq!(info.text_length(), 2);
    assert_eq!(info.line_index(2), 1);
}

#[test]
fn line_range_pairs_start_and_end() {
    let info = TextLines::new("12\n3\r\n4\n5");
    assert_eq!(info.line_range(0), (0, 2));
    assert_eq!(info.line_range(1), (3, 4));
    assert_eq!(info.line_range(2), (6, 7));
    assert_eq!(info.line_range(3), (8, 9));
    assert_eq!(info.text_length(), 9);
}

#[test]
fn offset_inside_crlf_belongs_to_the_line_it_ends() {
    let info = TextLines::new("12\n3\r\n4\n5");
    assert_eq!(info.line_index(4), 1); // \r
    assert_eq!(info.line_index(5), 1); // \n
    assert_eq!(info.line_index(6), 2);
}

#[test]
fn carriage_return_alone_is_content() {
    let info = TextLines::new("a\rb\n\r\n");
    assert_eq!(info.lines_count(), 3);
    assert_eq!(info.line_range(0), (0, 3));
    assert_eq!(info.line_range(1), (4, 4));
    assert_eq!(info.line_range(2), (6, 6));
}

#[test]
fn bom_is_left_out_of_the_first_line() {
    let info = TextLines::new("\u{FEFF}12\n3");
    assert_eq!(info.text_length(), 7);
    assert_eq!(info.lines_count(), 2);
    assert_eq!(info.line_range(0), (3, 5));
    assert_eq!(info.line_range(1), (6, 7));
    assert_eq!(info.line_index(0), 0);
    assert_eq!(info.line_index(2), 0);
    let plain = TextLines::new("12\n3");
    let mut byte_index: usize = 0;
    while byte_index <= 4 {
        assert_eq!(
            info.line_and_column_index(byte_index + 3),
            plain.line_and_column_index(byte_index)
        );
        byte_index += 1;
    }
}

#[test]
fn bom_only_text() {
    let info = TextLines::new("\u{FEFF}");
    assert_eq!(info.lines_count(), 1);
    assert_eq!(info.line_range(0), (3, 3));
    assert_eq!(info.text_length(), 3);
}

#[test]
fn multi_byte_char_after_bom_has_column_zero() {
    let info = TextLines::new("\u{FEFF}β1");
    assert_eq!(
        info.line_and_column_index(3),
        LineAndColumnIndex { line_index: 0, column_index: 0 }
    );
    assert_eq!(
        info.line_and_column_index(5),
        LineAndColumnIndex { line_index: 0, column_index: 1 }
    );
    assert_eq!(info.byte_index(LineAndColumnIndex { line_index: 0, column_index: 0 }), 3);
    assert_eq!(info.byte_index(LineAndColumnIndex { line_index: 0, column_index: 1 }), 5);
    assert_eq!(info.byte_index(LineAndColumnIndex { line_index: 0, column_index: 2 }), 6);
}

#[test]
fn three_and_four_byte_chars() {
    let info = TextLines::new("€a😀b");
    assert_eq!(info.text_length(), 9);
    assert_eq!(
        info.line_and_column_index(2),
        LineAndColumnIndex { line_index: 0, column_index: 0 }
    );
    assert_eq!(
        info.line_and_column_index(3),
        LineAndColumnIndex { line_index: 0, column_index: 1 }
    );
    assert_eq!(
        info.line_and_column_index(6),
        LineAndColumnIndex { line_index: 0, column_index: 2 }
    );
    assert_eq!(
        info.line_and_column_index(8),
        LineAndColumnIndex { line_index: 0, column_index: 3 }
    );
    assert_eq!(info.byte_index(LineAndColumnIndex { line_index: 0, column_index: 2 }), 4);
    assert_eq!(info.byte_index(LineAndColumnIndex { line_index: 0, column_index: 3 }), 8);
    assert_eq!(info.byte_index(LineAndColumnIndex { line_index: 0, column_index: 4 }), 9);
    assert_eq!(info.byte_index_from_char_index(1), 3);
    assert_eq!(info.byte_index_from_char_index(2), 4);
    assert_eq!(info.byte_index_from_char_index(3), 8);
    assert_eq!(info.byte_index_from_char_index(4), 9);
}

#[test]
fn round_trip_on_character_boundaries() {
    let text = "β1β\nΔβ1\r\n\tx";
    let info = TextLines::new(text);
    let boundaries: [usize; 11] = [0, 2, 3, 5, 6, 8, 10, 11, 13, 14, 15];
    for b in boundaries {
        let position = info.line_and_column_index(b);
        assert_eq!(info.byte_index(position), b);
    }
}

#[test]
fn line_index_never_decreases() {
    let text = "\u{FEFF}a\r\n\nβ\n";
    let info = TextLines::new(text);
    let mut previous: usize = 0;
    let mut byte_index: usize = 0;
    while byte_index <= info.text_length() {
        let line = info.line_index(byte_index);
        assert!(line >= previous);
        previous = line;
        byte_index += 1;
    }
    assert_eq!(previous, 3);
}

#[test]
fn char_index_past_the_end_gives_the_text_length() {
    let info = TextLines::new("β1\nΔ");
    assert_eq!(info.text_length(), 6);
    assert_eq!(info.byte_index_from_char_index(3), 4);
    assert_eq!(info.byte_index_from_char_index(4), 6);
    assert_eq!(info.byte_index_from_char_index(5), 6);
    assert_eq!(info.byte_index_from_char_index(usize::MAX), 6);
}

#[test]
fn bom_bytes_count_as_characters_of_the_text() {
    let info = TextLines::new("\u{FEFF}ab");
    assert_eq!(info.byte_index_from_char_index(1), 1);
    assert_eq!(info.byte_index_from_char_index(3), 3);
    assert_eq!(info.byte_index_from_char_index(4), 4);
}

#[test]
fn column_past_the_line_gives_its_end() {
    let info = TextLines::new("ab\ncd");
    assert_eq!(info.byte_index(LineAndColumnIndex { line_index: 0, column_index: usize::MAX }), 2);
    assert_eq!(info.byte_index(LineAndColumnIndex { line_index: 1, column_index: 7 }), 5);
}

#[test]
fn tab_display_formula() {
    let info = TextLines::with_indent_width("\t\tx", 3);
    assert_eq!(
        info.line_and_column_display(2),
        LineAndColumnDisplay { line_number: 1, column_number: 7 }
    );
    assert_eq!(
        info.line_and_column_display_with_indent_width(2, 0),
        LineAndColumnDisplay { line_number: 1, column_number: 1 }
    );
    assert_eq!(
        info.line_and_column_display_with_indent_width(3, 1),
        LineAndColumnDisplay { line_number: 1, column_number: 4 }
    );
}

#[test]
fn tabs_after_multi_byte_chars() {
    let info = TextLines::new("β\tx\n\tβ");
    assert_eq!(
        info.line_and_column_display(3),
        LineAndColumnDisplay { line_number: 1, column_number: 6 }
    );
    assert_eq!(
        info.line_and_column_display(8),
        LineAndColumnDisplay { line_number: 2, column_number: 6 }
    );
}
