//! The walk along the text's multi-byte characters that finds the byte
//! offset of a character index: what holds at each of its steps.

use vstd::prelude::*;
use crate::lemmas::{
    lemma_char_index_found, lemma_extra_before_char_step, lemma_line_chars_in_text,
    lemma_next_char_start,
};
use crate::model::{
    MultiByteCharInfo, TextLinesView, all_multi_byte_chars, extra_before_char, extra_total,
};

verus! {

/// The number of multi-byte characters on the first `n` lines.
pub closed spec fn chars_on_lines(table: TextLinesView, n: int) -> int {
    all_multi_byte_chars(table.lines.take(n)).len() as int
}

/// The `n`-th multi-byte character of the text.
pub closed spec fn text_char(table: TextLinesView, n: int) -> MultiByteCharInfo {
    all_multi_byte_chars(table.lines)[n]
}

/// The walk towards character `char_index` has passed the first `seen`
/// multi-byte characters of the text, each of which stands before that
/// character, and has reached byte `last_byte`, which is character
/// `last_char`.
pub closed spec fn walked(
    table: TextLinesView,
    char_index: int,
    seen: int,
    last_char: int,
    last_byte: int,
) -> bool {
    let all = all_multi_byte_chars(table.lines);
    &&& 0 <= seen <= all.len()
    &&& last_byte - last_char == extra_total(all.take(seen))
    &&& extra_before_char(all.take(seen), char_index) == extra_total(all.take(seen))
}

/// The walk starts at the head of the text with no character passed.
pub proof fn lemma_walk_start(table: TextLinesView, char_index: int)
    ensures
        walked(table, char_index, 0, 0, 0),
        chars_on_lines(table, 0) == 0,
{
    assert(table.lines.take(0) =~= Seq::empty());
    assert(all_multi_byte_chars(table.lines).take(0) =~= Seq::empty());
}

/// The multi-byte characters of line `i` follow, among those of the text,
/// the ones on the lines before it.
pub proof fn lemma_walk_line(table: TextLinesView, i: int)
    requires
        table.wf(),
        0 <= i < table.lines.len(),
    ensures
        0 <= chars_on_lines(table, i),
        chars_on_lines(table, i + 1) == chars_on_lines(table, i)
            + table.lines[i].multi_byte_chars.len(),
        chars_on_lines(table, i + 1) <= chars_on_lines(table, table.lines.len() as int),
        forall|k: int|
            0 <= k < table.lines[i].multi_byte_chars.len() ==> text_char(
                table,
                chars_on_lines(table, i) + k,
            ) == #[trigger] table.lines[i].multi_byte_chars[k],
{
    lemma_line_chars_in_text(table, i);
    assert(table.lines.take(table.lines.len() as int) =~= table.lines);
}

/// The first multi-byte character after the first `i` lines, if there is
/// one, starts at or after the start of line `i`.
pub proof fn lemma_walk_next_char(table: TextLinesView, i: int)
    requires
        table.wf(),
        0 <= i < table.lines.len(),
        chars_on_lines(table, i) < chars_on_lines(table, table.lines.len() as int),
    ensures
        text_char(table, chars_on_lines(table, i)).byte_index >= table.lines[i].start,
{
    assert(table.lines.take(table.lines.len() as int) =~= table.lines);
    lemma_next_char_start(table, i);
}

/// The walk passes the next multi-byte character where that character
/// stands before `char_index`.
pub proof fn lemma_walk_past_char(
    table: TextLinesView,
    char_index: int,
    seen: int,
    last_char: int,
    last_byte: int,
)
    requires
        walked(table, char_index, seen, last_char, last_byte),
        seen < chars_on_lines(table, table.lines.len() as int),
        last_char + (text_char(table, seen).byte_index - last_byte) < char_index,
    ensures
        walked(
            table,
            char_index,
            seen + 1,
            last_char + (text_char(table, seen).byte_index - last_byte) + 1,
            text_char(table, seen).byte_index + text_char(table, seen).length,
        ),
{
    assert(table.lines.take(table.lines.len() as int) =~= table.lines);
    lemma_extra_before_char_step(all_multi_byte_chars(table.lines), seen, char_index);
}

/// The walk moves on over single-byte characters, as many bytes as
/// characters.
pub proof fn lemma_walk_advance(
    table: TextLinesView,
    char_index: int,
    seen: int,
    last_char: int,
    last_byte: int,
    distance: int,
)
    requires
        walked(table, char_index, seen, last_char, last_byte),
    ensures
        walked(table, char_index, seen, last_char + distance, last_byte + distance),
{
}

/// Where `char_index` is reached before the next multi-byte character,
/// which starts at `bound` or later, its byte offset is as far from the
/// walk's byte as it is from the walk's character.
pub proof fn lemma_walk_found(
    table: TextLinesView,
    char_index: int,
    seen: int,
    last_char: int,
    last_byte: int,
    bound: int,
)
    requires
        table.wf(),
        walked(table, char_index, seen, last_char, last_byte),
        last_char <= char_index,
        last_byte + (char_index - last_char) <= bound <= table.text_length(),
        seen < chars_on_lines(table, table.lines.len() as int) ==> text_char(
            table,
            seen,
        ).byte_index >= bound,
    ensures
        table.byte_index_from_char_index(char_index) == last_byte + (char_index - last_char),
{
    assert(table.lines.take(table.lines.len() as int) =~= table.lines);
    lemma_char_index_found(table, char_index, seen, last_char, last_byte, bound);
}

/// Where the walk ends at the text's end before it reaches `char_index`,
/// the byte offset of `char_index` is the text's length.
pub proof fn lemma_walk_end(table: TextLinesView, char_index: int, last_char: int, last_byte: int)
    requires
        table.wf(),
        walked(
            table,
            char_index,
            chars_on_lines(table, table.lines.len() as int),
            last_char,
            last_byte,
        ),
        last_byte == table.text_length(),
        last_char < char_index,
    ensures
        table.byte_index_from_char_index(char_index) == table.text_length(),
{
    let all = all_multi_byte_chars(table.lines);
    assert(table.lines.take(table.lines.len() as int) =~= table.lines);
    assert(all.take(all.len() as int) =~= all);
}

} // verus!
