//! What a line table records when the text is valid UTF-8, as the bytes of
//! every `str` are: exactly the text's characters of more than one byte,
//! each with the length of its encoding.

use vstd::prelude::*;
use vstd::utf8::{
    is_char_boundary, is_char_boundary_iff_not_is_continuation_byte, length_of_first_scalar,
    pop_first_scalar, valid_first_scalar, valid_utf8, valid_utf8_split,
};
use crate::encoding::{
    bom_len, content_recorded, describes, has_char_at, is_continuation, records_char, starts_char,
};
use crate::laws::lemma_round_trip;
use crate::lemmas::{lemma_line_at_bounds, lemma_lines_ascending};
use crate::model::{LineView, MultiByteCharInfo, TextLinesView};

verus! {

/// The number of bytes of the UTF-8 encoding that begins with `lead`.
pub open spec fn utf8_width(lead: u8) -> int {
    if lead < 0x80 {
        1
    } else if lead < 0xE0 {
        2
    } else if lead < 0xF0 {
        3
    } else {
        4
    }
}

/// In valid UTF-8 a continuation byte comes after a non-ASCII byte.
pub proof fn lemma_continuation_follows(bytes: Seq<u8>, at: int)
    requires
        valid_utf8(bytes),
        0 <= at < bytes.len(),
        is_continuation(bytes[at]),
    ensures
        at >= 1,
        bytes[at - 1] >= 0x80,
    decreases bytes.len(),
{
    let width = length_of_first_scalar(bytes);
    assert(valid_first_scalar(bytes));
    if at >= width {
        let rest = pop_first_scalar(bytes);
        assert(rest[at - width] == bytes[at]);
        lemma_continuation_follows(rest, at - width);
        assert(rest[at - width - 1] == bytes[at - 1]);
    }
}

/// In valid UTF-8 the byte after a byte-order mark begins a character.
proof fn lemma_boundary_after_bom(bytes: Seq<u8>)
    requires
        valid_utf8(bytes),
        bom_len(bytes) == 3,
    ensures
        is_char_boundary(bytes, 3),
{
    reveal_with_fuel(is_char_boundary, 2);
    assert(valid_first_scalar(bytes));
    assert(length_of_first_scalar(bytes) == 3);
    assert(valid_utf8(pop_first_scalar(bytes)));
}

/// In valid UTF-8, past the byte-order mark, a character starts exactly at
/// the character boundaries.
pub proof fn lemma_starts_char_is_boundary(bytes: Seq<u8>, at: int)
    requires
        valid_utf8(bytes),
        bom_len(bytes) <= at < bytes.len(),
    ensures
        starts_char(bytes, at) <==> is_char_boundary(bytes, at),
        starts_char(bytes, at) <==> !is_continuation(bytes[at]),
{
    is_char_boundary_iff_not_is_continuation_byte(bytes, at);
    if is_continuation(bytes[at]) {
        lemma_continuation_follows(bytes, at);
        if at == 3 && bom_len(bytes) == 3 {
            lemma_boundary_after_bom(bytes);
        }
    }
}

/// In valid UTF-8 a record of a character has the length of the
/// character's encoding, which its first byte gives: 2, 3 or 4.
pub proof fn lemma_record_length_is_width(bytes: Seq<u8>, c: MultiByteCharInfo)
    requires
        valid_utf8(bytes),
        records_char(bytes, c),
        bom_len(bytes) <= c.byte_index,
    ensures
        c.length == utf8_width(bytes[c.byte_index as int]),
        2 <= c.length <= 4,
        bytes[c.byte_index as int] >= 0xC0,
{
    let at = c.byte_index as int;
    let len = bytes.len() as int;
    lemma_starts_char_is_boundary(bytes, at);
    valid_utf8_split(bytes, at);
    let tail = bytes.subrange(at, len);
    assert(valid_utf8(tail));
    assert(tail[0] == bytes[at]);
    assert(valid_first_scalar(tail));
    let width = length_of_first_scalar(tail);
    assert(width == utf8_width(bytes[at]));
    assert(2 <= width <= 4 && width <= tail.len());
    assert forall|k: int| 1 <= k < width implies is_continuation(#[trigger] bytes[at + k]) by {
        assert(tail[k] == bytes[at + k]);
    }
    let rest = pop_first_scalar(tail);
    assert(valid_utf8(rest));
    if rest.len() > 0 {
        assert(valid_first_scalar(rest));
        assert(rest[0] == bytes[at + width]);
        assert(!is_continuation(bytes[at + width]));
    }
    if c.length < width {
        assert(is_continuation(bytes[at + c.length]));
    }
    if c.length > width {
        assert(is_continuation(bytes[at + width]));
    }
}

/// On valid UTF-8 a line's records stand exactly at the first bytes of
/// the line's characters of more than one byte, and each has the length
/// of its character's encoding.
pub proof fn lemma_utf8_line_records(bytes: Seq<u8>, line: LineView)
    requires
        valid_utf8(bytes),
        line.wf(),
        content_recorded(bytes, line),
    ensures
        forall|p: int|
            line.start <= p < line.end ==> (#[trigger] has_char_at(line.multi_byte_chars, p) <==> bytes[p]
                >= 0x80 && is_char_boundary(bytes, p)),
        forall|j: int|
            0 <= j < line.multi_byte_chars.len() ==> (#[trigger] line.multi_byte_chars[j]).length
                == utf8_width(bytes[line.multi_byte_chars[j].byte_index as int]),
{
    assert forall|p: int| line.start <= p < line.end implies (#[trigger] has_char_at(
        line.multi_byte_chars,
        p,
    ) <==> bytes[p] >= 0x80 && is_char_boundary(bytes, p)) by {
        lemma_starts_char_is_boundary(bytes, p);
    }
    assert forall|j: int| 0 <= j < line.multi_byte_chars.len() implies (
    #[trigger] line.multi_byte_chars[j]).length == utf8_width(
        bytes[line.multi_byte_chars[j].byte_index as int],
    ) by {
        lemma_record_length_is_width(bytes, line.multi_byte_chars[j]);
    }
}

/// The same of every line of the table of a valid UTF-8 text.
pub proof fn lemma_utf8_records(bytes: Seq<u8>, lines: Seq<LineView>, i: int)
    requires
        valid_utf8(bytes),
        describes(lines, bytes),
        0 <= i < lines.len(),
    ensures
        forall|p: int|
            lines[i].start <= p < lines[i].end ==> (#[trigger] has_char_at(
                lines[i].multi_byte_chars,
                p,
            ) <==> bytes[p] >= 0x80 && is_char_boundary(bytes, p)),
        forall|j: int|
            0 <= j < lines[i].multi_byte_chars.len() ==> (
            #[trigger] lines[i].multi_byte_chars[j]).length == utf8_width(
                bytes[lines[i].multi_byte_chars[j].byte_index as int],
            ),
{
    lemma_utf8_line_records(bytes, lines[i]);
}

/// On valid UTF-8 an offset within a line's content that is a character
/// boundary of the text is a character boundary of the line.
pub proof fn lemma_boundary_on_line(bytes: Seq<u8>, line: LineView, byte_index: int)
    requires
        valid_utf8(bytes),
        line.wf(),
        content_recorded(bytes, line),
        line.start <= byte_index <= line.end,
        is_char_boundary(bytes, byte_index),
    ensures
        line.on_char_boundary(byte_index),
{
    assert forall|j: int| 0 <= j < line.multi_byte_chars.len() implies !((
    #[trigger] line.multi_byte_chars[j]).byte_index < byte_index < line.multi_byte_chars[j].byte_index
        + line.multi_byte_chars[j].length) by {
        let c = line.multi_byte_chars[j];
        assert(records_char(bytes, c));
        if c.byte_index < byte_index < c.byte_index + c.length {
            assert(is_continuation(bytes[byte_index]));
            is_char_boundary_iff_not_is_continuation_byte(bytes, byte_index);
        }
    }
}

/// Round trip on a valid UTF-8 text: a character boundary of the text
/// that lies within the content of its line is the byte offset of its own
/// line and column.
pub proof fn lemma_round_trip_utf8(bytes: Seq<u8>, table: TextLinesView, byte_index: int)
    requires
        valid_utf8(bytes),
        table.wf(),
        describes(table.lines, bytes),
        is_char_boundary(bytes, byte_index),
        table.lines[table.line_index(byte_index)].start <= byte_index
            <= table.lines[table.line_index(byte_index)].end,
    ensures
        table.lines[table.line_and_column_index(byte_index).0].byte_of(
            table.line_and_column_index(byte_index).1,
        ) == byte_index,
{
    lemma_line_at_bounds(table, byte_index);
    let line = table.lines[table.line_index(byte_index)];
    assert(line.wf() && content_recorded(bytes, line));
    lemma_boundary_on_line(bytes, line, byte_index);
    assert(table.lines[table.lines.len() - 1].wf());
    if table.line_index(byte_index) < table.lines.len() - 1 {
        lemma_lines_ascending(
            table,
            table.line_index(byte_index),
            table.lines.len() - 1,
        );
    }
    lemma_round_trip(table, byte_index);
}

} // verus!
