//! Laws that relate the conversions to each other.

use vstd::prelude::*;
use crate::lemmas::{
    chars_ordered, lemma_all_chars_ordered, lemma_char_indices_ascending,
    lemma_extra_before_char_prefix, lemma_extra_before_column_prefix, lemma_extra_total_step,
    lemma_line_at_bounds, lemma_overcount_prefix, lemma_overcount_whole, lemma_tabs_within_column,
    lemma_text_char_indices_ascending,
};
use crate::encoding::{
    bom_len, content_recorded, describes, lemma_extra_total_nonnegative, terminated,
};
use crate::model::{
    LineView, MultiByteCharInfo, TextLinesView, all_multi_byte_chars, extra_before_column,
    extra_total, overcount, tabs_before,
};

verus! {

/// The line of a byte offset never decreases as the offset grows.
pub proof fn lemma_line_index_monotonic(table: TextLinesView, first: int, second: int)
    requires
        table.wf(),
        first <= second,
    ensures
        table.line_index(first) <= table.line_index(second),
{
    lemma_line_at_bounds(table, first);
    lemma_line_at_bounds(table, second);
}

/// Every table has a line, and the line of any offset is one of them.
pub proof fn lemma_line_index_in_table(table: TextLinesView, byte_index: int)
    requires
        table.wf(),
    ensures
        table.lines.len() >= 1,
        0 <= table.line_index(byte_index) < table.lines.len(),
{
    lemma_line_at_bounds(table, byte_index);
}

/// Characters that all stand before `column` add all their extra bytes.
proof fn lemma_extra_before_column_whole(chars: Seq<MultiByteCharInfo>, column: int)
    requires
        forall|k: int| 0 <= k < chars.len() ==> (#[trigger] chars[k]).line_char_index < column,
    ensures
        extra_before_column(chars, column) == extra_total(chars),
    decreases chars.len(),
{
    if chars.len() > 0 {
        let init = chars.drop_last();
        assert forall|k: int| 0 <= k < init.len() implies (#[trigger] init[k]).line_char_index
            < column by {
            assert(init[k] == chars[k]);
        }
        lemma_extra_before_column_whole(init, column);
    }
}

/// How many of the line's multi-byte characters start before
/// `byte_index`: those, and no others, are the first `n`.
proof fn lemma_chars_before(line: LineView, byte_index: int, from: int) -> (n: int)
    requires
        line.wf(),
        0 <= from <= line.multi_byte_chars.len(),
        forall|k: int| 0 <= k < from ==> (#[trigger] line.multi_byte_chars[k]).byte_index < byte_index,
    ensures
        from <= n <= line.multi_byte_chars.len(),
        forall|k: int| 0 <= k < n ==> (#[trigger] line.multi_byte_chars[k]).byte_index < byte_index,
        forall|k: int|
            n <= k < line.multi_byte_chars.len() ==> (#[trigger] line.multi_byte_chars[k]).byte_index
                >= byte_index,
    decreases line.multi_byte_chars.len() - from,
{
    let chars = line.multi_byte_chars;
    if from == chars.len() || chars[from].byte_index >= byte_index {
        assert forall|k: int| from <= k < chars.len() implies (#[trigger] chars[k]).byte_index
            >= byte_index by {
            if from < k {
                assert(chars[from].byte_index + chars[from].length <= chars[k].byte_index);
            }
        }
        from
    } else {
        lemma_chars_before(line, byte_index, from + 1)
    }
}

/// On one line, the byte offset of the column of a character boundary is
/// that boundary.
pub proof fn lemma_line_round_trip(line: LineView, byte_index: int)
    requires
        line.wf(),
        line.on_char_boundary(byte_index),
    ensures
        line.byte_of(line.column_of(byte_index)) == byte_index,
{
    let chars = line.multi_byte_chars;
    let n = lemma_chars_before(line, byte_index, 0);
    let before = chars.take(n);
    let column = line.column_of(byte_index);
    lemma_overcount_prefix(chars, n, byte_index);
    assert forall|k: int| 0 <= k < before.len() implies (#[trigger] before[k]).byte_index
        + before[k].length <= byte_index && before[k].length >= 1 by {
        assert(before[k] == chars[k]);
    }
    lemma_overcount_whole(before, byte_index);
    assert(column == byte_index - line.start - extra_total(before));
    if n > 0 {
        lemma_extra_total_step(chars, n - 1);
        assert(chars[n - 1].byte_index + chars[n - 1].length <= byte_index);
        assert(chars[n - 1].line_char_index < column);
    }
    assert forall|k: int| 0 <= k < before.len() implies (#[trigger] before[k]).line_char_index
        < column by {
        assert(before[k] == chars[k]);
        if k < n - 1 {
            lemma_char_indices_ascending(line, k, n - 1);
        }
    }
    lemma_extra_before_column_whole(before, column);
    assert forall|k: int| n <= k < chars.len() implies (#[trigger] chars[k]).line_char_index
        >= column by {
        assert(chars[n].byte_index >= byte_index);
        if n < k {
            lemma_char_indices_ascending(line, n, k);
        }
    }
    lemma_extra_before_column_prefix(chars, n, column);
}

/// Round trip: a byte offset that lies on a character boundary of its
/// line's content (so neither inside a byte-order mark nor on the line
/// feed that follows a carriage return) is the byte offset of its own
/// line and column.
pub proof fn lemma_round_trip(table: TextLinesView, byte_index: int)
    requires
        table.wf(),
        0 <= byte_index <= table.text_length(),
        table.lines[table.line_index(byte_index)].on_char_boundary(byte_index),
    ensures
        table.lines[table.line_and_column_index(byte_index).0].byte_of(
            table.line_and_column_index(byte_index).1,
        ) == byte_index,
{
    lemma_line_at_bounds(table, byte_index);
    lemma_line_round_trip(table.lines[table.line_index(byte_index)], byte_index);
}

/// The overcount is never negative.
proof fn lemma_overcount_nonnegative(chars: Seq<MultiByteCharInfo>, byte_index: int)
    requires
        forall|k: int| 0 <= k < chars.len() ==> (#[trigger] chars[k]).length >= 1,
    ensures
        overcount(chars, byte_index) >= 0,
    decreases chars.len(),
{
    if chars.len() > 0 {
        let init = chars.drop_last();
        assert forall|k: int| 0 <= k < init.len() implies (#[trigger] init[k]).length >= 1 by {
            assert(init[k] == chars[k]);
        }
        lemma_overcount_nonnegative(init, byte_index);
    }
}

/// The column of an offset, in characters or for display: the character
/// column is at most the offset, and the display column lies between 1
/// and one more than the offset taken in tab widths. So the display
/// column fits wherever that product does.
pub proof fn lemma_column_bounds(table: TextLinesView, byte_index: int, indent_width: int)
    requires
        table.wf(),
        0 <= byte_index,
        0 <= indent_width,
    ensures
        0 <= table.line_and_column_index(byte_index).1 <= byte_index,
        table.line_and_column_display(byte_index, indent_width).0 == table.line_index(byte_index)
            + 1,
        1 <= table.line_and_column_display(byte_index, indent_width).1 <= byte_index * (
        if indent_width > 1 {
            indent_width
        } else {
            1
        }) + 1,
{
    lemma_line_at_bounds(table, byte_index);
    let line = table.lines[table.line_index(byte_index)];
    assert(line.wf());
    lemma_tabs_within_column(line, byte_index);
    lemma_overcount_nonnegative(line.multi_byte_chars, byte_index);
    let column = line.column_of(byte_index);
    let tabs = tabs_before(line.tab_chars, byte_index);
    let width = if indent_width > 1 {
        indent_width
    } else {
        1
    };
    assert((column - tabs) + tabs * indent_width <= byte_index * width) by (nonlinear_arith)
        requires
            0 <= tabs <= column <= byte_index,
            0 <= indent_width <= width,
            1 <= width,
    ;
    assert(tabs * indent_width >= 0) by (nonlinear_arith)
        requires
            0 <= tabs,
            0 <= indent_width,
    ;
}

/// How many of the ordered characters stand before character
/// `char_index` of the text: those, and no others, are the first `n`.
proof fn lemma_chars_before_index(chars: Seq<MultiByteCharInfo>, char_index: int, from: int) -> (n:
    int)
    requires
        chars_ordered(chars),
        0 <= from <= chars.len(),
        forall|k: int|
            0 <= k < from ==> (#[trigger] chars[k]).byte_index - extra_total(chars.take(k))
                < char_index,
    ensures
        from <= n <= chars.len(),
        forall|k: int|
            0 <= k < n ==> (#[trigger] chars[k]).byte_index - extra_total(chars.take(k))
                < char_index,
        forall|k: int|
            n <= k < chars.len() ==> (#[trigger] chars[k]).byte_index - extra_total(chars.take(k))
                >= char_index,
    decreases chars.len() - from,
{
    if from == chars.len() || chars[from].byte_index - extra_total(chars.take(from)) >= char_index {
        assert forall|k: int| from <= k < chars.len() implies (#[trigger] chars[k]).byte_index
            - extra_total(chars.take(k)) >= char_index by {
            if from < k {
                lemma_text_char_indices_ascending(chars, from, k);
            }
        }
        from
    } else {
        lemma_chars_before_index(chars, char_index, from + 1)
    }
}

/// The extra bytes of the first `n` characters are no more than those of
/// all.
proof fn lemma_extra_total_prefix(chars: Seq<MultiByteCharInfo>, n: int)
    requires
        chars_ordered(chars),
        0 <= n <= chars.len(),
    ensures
        0 <= extra_total(chars.take(n)) <= extra_total(chars),
    decreases chars.len() - n,
{
    if n == chars.len() {
        assert(chars.take(n) =~= chars);
        lemma_extra_total_nonnegative(chars);
    } else {
        lemma_extra_total_step(chars, n);
        lemma_extra_total_prefix(chars, n + 1);
        lemma_extra_total_nonnegative(chars.take(n));
    }
}

/// The byte offset of a character index has that many characters before
/// it, for every index up to the number of characters of the text.
pub proof fn lemma_char_index_round_trip(table: TextLinesView, char_index: int)
    requires
        table.wf(),
        0 <= char_index <= table.char_count(),
    ensures
        table.chars_before(table.byte_index_from_char_index(char_index)) == char_index,
{
    let all = all_multi_byte_chars(table.lines);
    assert(table.lines.take(table.lines.len() as int) =~= table.lines);
    lemma_all_chars_ordered(table, table.lines.len() as int);
    let n = lemma_chars_before_index(all, char_index, 0);
    let before = all.take(n);
    lemma_extra_before_char_prefix(all, n, char_index);
    lemma_extra_total_prefix(all, n);
    if n > 0 {
        assert(before.drop_last() =~= all.take(n - 1));
        assert(before.last() == all[n - 1]);
        lemma_extra_total_step(all, n - 1);
    }
    let byte_index = char_index + extra_total(before);
    assert(table.byte_index_from_char_index(char_index) == byte_index);
    assert forall|k: int| 0 <= k < before.len() implies (#[trigger] before[k]).byte_index
        + before[k].length <= byte_index && before[k].length >= 1 by {
        assert(before[k] == all[k]);
        if k < n - 1 {
            assert(all[k].byte_index + all[k].length <= all[n - 1].byte_index);
        }
    }
    lemma_overcount_whole(before, byte_index);
    assert forall|k: int| n <= k < all.len() implies (#[trigger] all[k]).byte_index
        >= byte_index by {
        assert(all[n].byte_index - extra_total(all.take(n)) >= char_index);
        if n < k {
            assert(all[n].byte_index + all[n].length <= all[k].byte_index);
        }
    }
    lemma_overcount_prefix(all, n, byte_index);
}

/// The number of characters of the text is the number of characters
/// before its end.
pub proof fn lemma_char_count(table: TextLinesView)
    requires
        table.wf(),
    ensures
        table.char_count() == table.chars_before(table.text_length()),
{
    let all = all_multi_byte_chars(table.lines);
    assert(table.lines.take(table.lines.len() as int) =~= table.lines);
    lemma_all_chars_ordered(table, table.lines.len() as int);
    lemma_overcount_whole(all, table.text_length());
}

/// The number of line feeds among the bytes from `from` up to `to`.
pub open spec fn line_feeds(bytes: Seq<u8>, from: int, to: int) -> int
    decreases to - from,
{
    if to <= from {
        0
    } else {
        line_feeds(bytes, from, to - 1) + if bytes[to - 1] == 0x0A {
            1int
        } else {
            0int
        }
    }
}

/// Bytes without a line feed add none to the count.
proof fn lemma_line_feeds_skip(bytes: Seq<u8>, from: int, mid: int, to: int)
    requires
        from <= mid <= to,
        forall|p: int| mid <= p < to ==> #[trigger] bytes[p] != 0x0A,
    ensures
        line_feeds(bytes, from, to) == line_feeds(bytes, from, mid),
    decreases to - mid,
{
    if mid < to {
        lemma_line_feeds_skip(bytes, from, mid, to - 1);
    }
}

/// As many line feeds stand before the start of line `i` as there are
/// lines before it.
proof fn lemma_line_feeds_before_line(bytes: Seq<u8>, lines: Seq<LineView>, i: int)
    requires
        describes(lines, bytes),
        0 <= i < lines.len(),
    ensures
        bom_len(bytes) <= lines[i].start,
        line_feeds(bytes, bom_len(bytes), lines[i].start) == i,
    decreases i,
{
    assert(lines[i].wf() && content_recorded(bytes, lines[i]));
    if i > 0 {
        lemma_line_feeds_before_line(bytes, lines, i - 1);
        let line = lines[i - 1];
        assert(line.wf() && content_recorded(bytes, line));
        assert(terminated(bytes, line, lines[i].start));
        let newline = lines[i].start - 1;
        assert forall|p: int| line.start <= p < newline implies #[trigger] bytes[p] != 0x0A by {}
        lemma_line_feeds_skip(bytes, bom_len(bytes), line.start, newline);
    }
}

/// A text has one line more than it has line feeds after its byte-order
/// mark: at least one line, then, whatever the text.
pub proof fn lemma_lines_count(bytes: Seq<u8>, lines: Seq<LineView>)
    requires
        describes(lines, bytes),
    ensures
        lines.len() == 1 + line_feeds(bytes, bom_len(bytes), bytes.len() as int),
        lines.len() >= 1,
{
    let last = lines.len() - 1;
    lemma_line_feeds_before_line(bytes, lines, last);
    assert(lines[last].wf() && content_recorded(bytes, lines[last]));
    lemma_line_feeds_skip(bytes, bom_len(bytes), lines[last].start, bytes.len() as int);
}

} // verus!
