use text_lines::{LineAndColumnDisplay, LineAndColumnIndex, TextLines};

fn assert_line_and_col_index(
    info: &TextLines,
    byte_index: usize,
    line_index: usize,
    column_index: usize,
) {
    assert_eq!(
        info.line_and_column_index(byte_index),
        LineAndColumnIndex { line_index, column_index }
    );
}

fn assert_line_and_col_display(
    info: &TextLines,
    byte_index: usize,
    line_number: usize,
    column_number: usize,
) {
    assert_eq!(
        info.line_and_column_display(byte_index),
        LineAndColumnDisplay { line_number, column_number }
    );
}

fn assert_line_start(info: &TextLines, line_index: usize, line_start: usize) {
    assert_eq!(info.line_start(line_index), line_start);
}

fn assert_line_end(info: &TextLines, line_index: usize, line_end: usize) {
    assert_eq!(info.line_end(line_index), line_end);
}

fn assert_byte_index(info: &TextLines, line_index: usize, column_index: usize, byte_index: usize) {
    assert_eq!(
        info.byte_index(LineAndColumnIndex { line_index, column_index }),
        byte_index,
    );
}

fn assert_byte_index_from_char_index(info: &TextLines, char_index: usize, byte_index: usize) {
    assert_eq!(info.byte_index_from_char_index(char_index), byte_index,);
}

#[test]
fn line_and_column_index() {
    let text = "12\n3\r\n4\n5";
    let info = TextLines::new(text);
    assert_line_and_col_index(&info, 0, 0, 0); // 1
    assert_line_and_col_index(&info, 1, 0, 1); // 2
    assert_line_and_col_index(&info, 2, 0, 2); // \n
    assert_line_and_col_index(&info, 3, 1, 0); // 3
    assert_line_and_col_index(&info, 4, 1, 1); // \r
    assert_line_and_col_index(&info, 5, 1, 2); // \n
    assert_line_and_col_index(&info, 6, 2, 0); // 4
    assert_line_and_col_index(&info, 7, 2, 1); // \n
    assert_line_and_col_index(&info, 8, 3, 0); // 5
    assert_line_and_col_index(&info, 9, 3, 1); // <EOF>
}

#[test]
fn line_and_column_index_bom() {
    let text = "\u{FEFF}12\n3";
    let info = TextLines::new(text);
    assert_line_and_col_index(&info, 0, 0, 0); // first BOM index
    assert_line_and_col_index(&info, 1, 0, 0); // second BOM index
    assert_line_and_col_index(&info, 2, 0, 0); // third BOM index
    assert_line_and_col_index(&info, 3, 0, 0); // 1
    assert_line_and_col_index(&info, 4, 0, 1); // 2
    assert_line_and_col_index(&info, 5, 0, 2); // \n
    assert_line_and_col_index(&info, 6, 1, 0); // 3
    assert_line_and_col_index(&info, 7, 1, 1); // <EOF>
}

#[test]
fn line_and_column_index_multi_byte_chars() {
    let text = "β1β\nΔβ1";
    let info = TextLines::new(text);
    assert_line_and_col_index(&info, 0, 0, 0); // first β index
    assert_line_and_col_index(&info, 1, 0, 0); // second β index
    assert_line_and_col_index(&info, 2, 0, 1); // 1
    assert_line_and_col_index(&info, 3, 0, 2); // first β index
    assert_line_and_col_index(&info, 4, 0, 2); // second β index
    assert_line_and_col_index(&info, 5, 0, 3); // \n
    assert_line_and_col_index(&info, 6, 1, 0); // first Δ index
    assert_line_and_col_index(&info, 7, 1, 0); // second Δ index
    assert_line_and_col_index(&info, 8, 1, 1); // first β index
    assert_line_and_col_index(&info, 9, 1, 1); // second β index
    assert_line_and_col_index(&info, 10, 1, 2); // 1
    assert_line_and_col_index(&info, 11, 1, 3); // <EOF>
}

#[test]
fn line_and_column_display() {
    let text = "\t1\n\t 3\t4";
    let info = TextLines::new(text);
    assert_line_and_col_display(&info, 0, 1, 1); // \t
    assert_line_and_col_display(&info, 1, 1, 5); // 1
    assert_line_and_col_display(&info, 2, 1, 6); // \n
    assert_line_and_col_display(&info, 3, 2, 1); // \t
    assert_line_and_col_display(&info, 4, 2, 5); // <space>
    assert_line_and_col_display(&info, 5, 2, 6); // 3
    assert_line_and_col_display(&info, 6, 2, 7); // \t
    assert_line_and_col_display(&info, 7, 2, 11); // \t
    assert_line_and_col_display(&info, 8, 2, 12); // <EOF>
}

#[test]
fn line_and_column_display_bom() {
    let text = "\u{FEFF}\t1";
    let info = TextLines::new(text);
    assert_line_and_col_display(&info, 0, 1, 1); // first BOM index
    assert_line_and_col_display(&info, 1, 1, 1); // second BOM index
    assert_line_and_col_display(&info, 2, 1, 1); // third BOM index
    assert_line_and_col_display(&info, 3, 1, 1); // \t
    assert_line_and_col_display(&info, 4, 1, 5); // 1
    assert_line_and_col_display(&info, 5, 1, 6); // <EOF>
}

#[test]
fn line_and_column_display_indent_width() {
    let text = "\t1";
    let info = TextLines::with_indent_width(text, 2);
    assert_line_and_col_display(&info, 0, 1, 1); // \t
    assert_line_and_col_display(&info, 1, 1, 3); // 1
    assert_line_and_col_display(&info, 2, 1, 4); // <EOF>
}

#[test]
fn line_and_column_display_with_indent_width() {
    let text = "\t1\n\t 3\t4";
    let info = TextLines::new(text);
    assert_eq!(
        info.line_and_column_display_with_indent_width(1, 2),
        LineAndColumnDisplay { line_number: 1, column_number: 3 }
    );
    assert_eq!(
        info.line_and_column_display_with_indent_width(1, 4),
        LineAndColumnDisplay { line_number: 1, column_number: 5 }
    );
}

#[test]
fn line_start() {
    let text = "12\n3\r\n4\n5";
    let info = TextLines::new(text);
    assert_line_start(&info, 0, 0);
    assert_line_start(&info, 1, 3);
    assert_line_start(&info, 2, 6);
    assert_line_start(&info, 3, 8);
}

#[test]
fn line_end() {
    let text = "12\n3\r\n4\n5";
    let info = TextLines::new(text);
    assert_line_end(&info, 0, 2);
    assert_line_end(&info, 1, 4);
    assert_line_end(&info, 2, 7);
    assert_line_end(&info, 3, 9);
}

#[test]
fn byte_index() {
    let text = "12\n3\r\n4\n5";
    let info = TextLines::new(text);
    assert_byte_index(&info, 0, 0, 0); // 1
    assert_byte_index(&info, 0, 1, 1); // 2
    assert_byte_index(&info, 0, 2, 2); // \n
    assert_byte_index(&info, 0, 3, 2); // passed the \n
    assert_byte_index(&info, 0, 4, 2); // passed the \n
    assert_byte_index(&info, 1, 0, 3); // 3
    assert_byte_index(&info, 1, 1, 4); // \r
    assert_byte_index(&info, 1, 2, 4); // \n
    assert_byte_index(&info, 1, 3, 4); // passed the \r\n
    assert_byte_index(&info, 2, 0, 6); // 4
    assert_byte_index(&info, 2, 1, 7); // \n
    assert_byte_index(&info, 3, 0, 8); // 5
    assert_byte_index(&info, 3, 1, 9); // <EOF>
    assert_byte_index(&info, 3, 2, 9); // passed the<EOF>
}

#[test]
fn byte_index_bom() {
    let text = "\u{FEFF}12\n3";
    let info = TextLines::new(text);
    assert_byte_index(&info, 0, 0, 3); // 1
    assert_byte_index(&info, 0, 1, 4); // 2
    assert_byte_index(&info, 0, 2, 5); // \n
    assert_byte_index(&info, 1, 0, 6); // 3
    assert_byte_index(&info, 1, 1, 7); // <EOF>
}

#[test]
fn byte_index_multi_byte_chars() {
    let text = "β1β\nΔβ1";
    let info = TextLines::new(text);
    assert_byte_index(&info, 0, 0, 0); // first β index
    assert_byte_index(&info, 0, 1, 2); // 1
    assert_byte_index(&info, 0, 2, 3); // first β index
    assert_byte_index(&info, 0, 3, 5); // \n
    assert_byte_index(&info, 1, 0, 6); // first Δ index
    assert_byte_index(&info, 1, 1, 8); // first β index
    assert_byte_index(&info, 1, 2, 10); // 1
    assert_byte_index(&info, 1, 3, 11); // <EOF>
}

#[test]
fn byte_index_from_char_index() {
    let text = "1234\n567\r\n8\n";
    let info = TextLines::new(text);
    assert_byte_index_from_char_index(&info, 0, 0); // 1
    assert_byte_index_from_char_index(&info, 1, 1); // 2
    assert_byte_index_from_char_index(&info, 2, 2); // 3
    assert_byte_index_from_char_index(&info, 3, 3); // 4
    assert_byte_index_from_char_index(&info, 4, 4); // 5
    assert_byte_index_from_char_index(&info, 5, 5); // 6
    assert_byte_index_from_char_index(&info, 6, 6); // 7
    assert_byte_index_from_char_index(&info, 7, 7); // \r
    assert_byte_index_from_char_index(&info, 8, 8); // \n
    assert_byte_index_from_char_index(&info, 9, 9); // 8
    assert_byte_index_from_char_index(&info, 10, 10); // \n
    assert_byte_index_from_char_index(&info, 11, 11); // <EOF>
    assert_byte_index_from_char_index(&info, 12, 12); // <EOF> + 1
}

#[test]
fn byte_index_from_char_index_multi_byte_chars() {
    let text = "β1β\nΔβ1\r\nt\nu";
    let info = TextLines::new(text);
    assert_byte_index_from_char_index(&info, 0, 0); // β
    assert_byte_index_from_char_index(&info, 1, 2); // 1
    assert_byte_index_from_char_index(&info, 2, 3); // β
    assert_byte_index_from_char_index(&info, 3, 5); // \n
    assert_byte_index_from_char_index(&info, 4, 6); // Δ
    assert_byte_index_from_char_index(&info, 5, 8); // β
    assert_byte_index_from_char_index(&info, 6, 10); // 1
    assert_byte_index_from_char_index(&info, 7, 11); // \r
    assert_byte_index_from_char_index(&info, 8, 12); // \n
    assert_byte_index_from_char_index(&info, 9, 13); // t
    assert_byte_index_from_char_index(&info, 10, 14); // \n
    assert_byte_index_from_char_index(&info, 11, 15); // u
    assert_byte_index_from_char_index(&info, 12, 16); // <EOF>
    assert_byte_index_from_char_index(&info, 13, 16); // <EOF> + 1
}

#[test]
fn readme_example() {
    let text = "Line 1\n\tLine 2";
    let info = TextLines::new(&text);

    assert_eq!(info.line_index(9), 1);
    assert_eq!(
        info.line_and_column_index(9),
        LineAndColumnIndex { line_index: 1, column_index: 2 }
    );
    assert_eq!(
        info.line_and_column_display(9),
        LineAndColumnDisplay { line_number: 2, column_number: 6 }
    );

    let info = TextLines::with_indent_width(&text, 2);
    assert_eq!(
        info.line_and_column_display(9),
        LineAndColumnDisplay { line_number: 2, column_number: 4 }
    );
}
