//! A byte-order mark before a text moves every byte offset of its table
//! by the mark's length and changes nothing else.

use vstd::prelude::*;
use crate::determined::lemma_table_determined;
use crate::encoding::{
    bom_len, content_recorded, describes, has_char_at, has_tab_at, is_continuation, records_char,
    starts_char, terminated,
};
use crate::model::{
    LineView, MultiByteCharInfo, TextLinesView, extra_before_column, extra_total, line_at,
    overcount, tabs_before,
};

verus! {

/// `bytes` with a byte-order mark before it.
pub open spec fn with_bom(bytes: Seq<u8>) -> Seq<u8> {
    seq![0xEFu8, 0xBBu8, 0xBFu8] + bytes
}

/// `c`, found `by` bytes later in the text.
pub open spec fn shift_char(c: MultiByteCharInfo, by: int) -> MultiByteCharInfo {
    MultiByteCharInfo {
        byte_index: (c.byte_index + by) as usize,
        line_char_index: c.line_char_index,
        length: c.length,
    }
}

/// `chars`, each found `by` bytes later.
pub open spec fn shift_chars(chars: Seq<MultiByteCharInfo>, by: int) -> Seq<MultiByteCharInfo> {
    Seq::new(chars.len(), |j: int| shift_char(chars[j], by))
}

/// `tabs`, each found `by` bytes later.
pub open spec fn shift_tabs(tabs: Seq<usize>, by: int) -> Seq<usize> {
    Seq::new(tabs.len(), |j: int| (tabs[j] + by) as usize)
}

/// `line`, found `by` bytes later in the text.
pub open spec fn shift_line(line: LineView, by: int) -> LineView {
    LineView {
        start: line.start + by,
        end: line.end + by,
        multi_byte_chars: shift_chars(line.multi_byte_chars, by),
        tab_chars: shift_tabs(line.tab_chars, by),
    }
}

/// `lines`, each found `by` bytes later.
pub open spec fn shift_lines(lines: Seq<LineView>, by: int) -> Seq<LineView> {
    Seq::new(lines.len(), |i: int| shift_line(lines[i], by))
}

/// Moving characters takes no extra bytes from them and gives them none.
proof fn lemma_shift_extra(chars: Seq<MultiByteCharInfo>, by: int, column: int)
    ensures
        extra_total(shift_chars(chars, by)) == extra_total(chars),
        extra_before_column(shift_chars(chars, by), column) == extra_before_column(chars, column),
    decreases chars.len(),
{
    if chars.len() > 0 {
        assert(shift_chars(chars, by).drop_last() =~= shift_chars(chars.drop_last(), by));
        lemma_shift_extra(chars.drop_last(), by, column);
    }
}

/// The overcount at an offset moves with the characters.
proof fn lemma_shift_overcount(chars: Seq<MultiByteCharInfo>, by: int, byte_index: int)
    requires
        by >= 0,
        forall|j: int| 0 <= j < chars.len() ==> (#[trigger] chars[j]).byte_index + by <= usize::MAX,
    ensures
        overcount(shift_chars(chars, by), byte_index + by) == overcount(chars, byte_index),
    decreases chars.len(),
{
    if chars.len() > 0 {
        let init = chars.drop_last();
        assert(shift_chars(chars, by).drop_last() =~= shift_chars(init, by));
        assert forall|j: int| 0 <= j < init.len() implies (#[trigger] init[j]).byte_index + by
            <= usize::MAX by {
            assert(init[j] == chars[j]);
        }
        lemma_shift_overcount(init, by, byte_index);
        assert(chars[chars.len() - 1].byte_index + by <= usize::MAX);
    }
}

/// The number of tabs before an offset moves with the tabs.
proof fn lemma_shift_tabs_before(tabs: Seq<usize>, by: int, byte_index: int)
    requires
        by >= 0,
        forall|j: int| 0 <= j < tabs.len() ==> #[trigger] tabs[j] + by <= usize::MAX,
    ensures
        tabs_before(shift_tabs(tabs, by), byte_index + by) == tabs_before(tabs, byte_index),
    decreases tabs.len(),
{
    if tabs.len() > 0 {
        let init = tabs.drop_last();
        assert(shift_tabs(tabs, by).drop_last() =~= shift_tabs(init, by));
        assert forall|j: int| 0 <= j < init.len() implies #[trigger] init[j] + by <= usize::MAX by {
            assert(init[j] == tabs[j]);
        }
        lemma_shift_tabs_before(init, by, byte_index);
        assert(tabs[tabs.len() - 1] + by <= usize::MAX);
    }
}

/// The line of an offset moves with the lines.
proof fn lemma_shift_line_at(lines: Seq<LineView>, by: int, byte_index: int)
    ensures
        line_at(shift_lines(lines, by), byte_index + by) == line_at(lines, byte_index),
    decreases lines.len(),
{
    if lines.len() > 1 {
        assert(shift_lines(lines, by).drop_last() =~= shift_lines(lines.drop_last(), by));
        lemma_shift_line_at(lines.drop_last(), by, byte_index);
    }
}

/// The line of an offset is a line of the table.
proof fn lemma_line_at_in_range(lines: Seq<LineView>, byte_index: int)
    requires
        lines.len() >= 1,
    ensures
        0 <= line_at(lines, byte_index) < lines.len(),
    decreases lines.len(),
{
    if lines.len() > 1 {
        lemma_line_at_in_range(lines.drop_last(), byte_index);
    }
}

/// A well-formed line stays well formed where it is moved.
proof fn lemma_shift_line_wf(line: LineView, by: int)
    requires
        line.wf(),
        by >= 0,
        line.end + by <= usize::MAX,
    ensures
        shift_line(line, by).wf(),
{
    let moved = shift_line(line, by);
    assert forall|j: int| 0 <= j < moved.multi_byte_chars.len() implies {
        let c = #[trigger] moved.multi_byte_chars[j];
        &&& c.length >= 1
        &&& moved.start <= c.byte_index
        &&& c.byte_index + c.length <= moved.end
    } by {
        let c = line.multi_byte_chars[j];
        assert(c.length >= 1 && c.byte_index + c.length <= line.end);
    }
    assert forall|j: int|
        0 <= j < moved.multi_byte_chars.len() implies moved.multi_byte_chars[j].line_char_index
        == moved.multi_byte_chars[j].byte_index - moved.start - #[trigger] extra_total(
        moved.multi_byte_chars.take(j),
    ) by {
        let c = line.multi_byte_chars[j];
        assert(c.length >= 1 && c.byte_index + c.length <= line.end);
        assert(moved.multi_byte_chars.take(j) =~= shift_chars(line.multi_byte_chars.take(j), by));
        lemma_shift_extra(line.multi_byte_chars.take(j), by, 0);
        assert(c.line_char_index == c.byte_index - line.start - extra_total(
            line.multi_byte_chars.take(j),
        ));
    }
    assert forall|j: int, k: int| 0 <= j < k < moved.multi_byte_chars.len() implies (
    #[trigger] moved.multi_byte_chars[j]).byte_index + moved.multi_byte_chars[j].length <= (
    #[trigger] moved.multi_byte_chars[k]).byte_index by {
        let c = line.multi_byte_chars[j];
        let d = line.multi_byte_chars[k];
        assert(c.byte_index + c.length <= d.byte_index);
        assert(d.length >= 1 && d.byte_index + d.length <= line.end);
    }
    assert forall|j: int| 0 <= j < moved.tab_chars.len() implies moved.start
        <= #[trigger] moved.tab_chars[j] < moved.end by {
        assert(line.start <= line.tab_chars[j] < line.end);
    }
    assert forall|j: int, k: int| 0 <= j < k < moved.tab_chars.len() implies #[trigger] moved.tab_chars[j]
        < #[trigger] moved.tab_chars[k] by {
        assert(line.tab_chars[j] < line.tab_chars[k]);
        assert(line.tab_chars[k] < line.end);
    }
    assert forall|j: int, k: int|
        0 <= j < moved.tab_chars.len() && 0 <= k < moved.multi_byte_chars.len() implies !((
    #[trigger] moved.multi_byte_chars[k]).byte_index <= #[trigger] moved.tab_chars[j]
        < moved.multi_byte_chars[k].byte_index + moved.multi_byte_chars[k].length) by {
        let c = line.multi_byte_chars[k];
        let t = line.tab_chars[j];
        assert(!(c.byte_index <= t < c.byte_index + c.length));
        assert(c.byte_index + c.length <= line.end && t < line.end);
    }
}

/// A line that records its content in a text without a byte-order mark
/// records it, moved by three bytes, in the text with the mark before it.
proof fn lemma_shift_content(bytes: Seq<u8>, line: LineView)
    requires
        bom_len(bytes) == 0,
        line.wf(),
        content_recorded(bytes, line),
        bytes.len() + 3 <= usize::MAX,
    ensures
        content_recorded(with_bom(bytes), shift_line(line, 3)),
{
    let marked = with_bom(bytes);
    let moved = shift_line(line, 3);
    assert(bom_len(marked) == 3);
    assert forall|p: int| 3 <= p < marked.len() implies #[trigger] marked[p] == bytes[p - 3] by {}
    assert forall|p: int| 3 <= p < marked.len() implies (starts_char(marked, p) <==> starts_char(
        bytes,
        p - 3,
    )) by {
        if p > 3 {
            assert(marked[p - 1] == bytes[p - 4]);
        }
    }
    assert forall|p: int| moved.start <= p < moved.end implies (marked[p] == 0x09
        <==> #[trigger] has_tab_at(moved.tab_chars, p)) by {
        assert(marked[p] == bytes[p - 3]);
        if has_tab_at(line.tab_chars, p - 3) {
            let j = choose|j: int| 0 <= j < line.tab_chars.len() && line.tab_chars[j] == p - 3;
            assert(moved.tab_chars[j] == p);
        }
        if has_tab_at(moved.tab_chars, p) {
            let j = choose|j: int| 0 <= j < moved.tab_chars.len() && moved.tab_chars[j] == p;
            assert(line.tab_chars[j] < line.end);
            assert(line.tab_chars[j] == p - 3);
        }
    }
    assert forall|p: int| moved.start <= p < moved.end implies ((marked[p] >= 0x80 && starts_char(
        marked,
        p,
    )) <==> #[trigger] has_char_at(moved.multi_byte_chars, p)) by {
        assert(marked[p] == bytes[p - 3]);
        if has_char_at(line.multi_byte_chars, p - 3) {
            let j = choose|j: int|
                0 <= j < line.multi_byte_chars.len() && line.multi_byte_chars[j].byte_index == p
                    - 3;
            assert(moved.multi_byte_chars[j].byte_index == p);
        }
        if has_char_at(moved.multi_byte_chars, p) {
            let j = choose|j: int|
                0 <= j < moved.multi_byte_chars.len() && moved.multi_byte_chars[j].byte_index == p;
            assert(line.multi_byte_chars[j].byte_index + line.multi_byte_chars[j].length
                <= line.end);
            assert(line.multi_byte_chars[j].byte_index == p - 3);
        }
    }
    assert forall|j: int| 0 <= j < moved.multi_byte_chars.len() implies records_char(
        marked,
        #[trigger] moved.multi_byte_chars[j],
    ) by {
        let c = line.multi_byte_chars[j];
        let d = moved.multi_byte_chars[j];
        assert(records_char(bytes, c));
        assert(c.byte_index + c.length <= line.end);
        assert(d.byte_index == c.byte_index + 3);
        assert(marked[d.byte_index as int] == bytes[c.byte_index as int]);
        assert forall|q: int| d.byte_index < q < d.byte_index + d.length implies is_continuation(
        #[trigger] marked[q],
        ) by {
            assert(marked[q] == bytes[q - 3]);
        }
        if d.byte_index + d.length < marked.len() {
            assert(marked[d.byte_index + d.length] == bytes[c.byte_index + c.length]);
        }
    }
}

/// The table of a text without a byte-order mark, moved by three bytes,
/// is the table of the text with the mark before it.
pub proof fn lemma_shift_describes(bytes: Seq<u8>, lines: Seq<LineView>)
    requires
        bom_len(bytes) == 0,
        describes(lines, bytes),
        bytes.len() + 3 <= usize::MAX,
    ensures
        describes(shift_lines(lines, 3), with_bom(bytes)),
{
    let marked = with_bom(bytes);
    let moved = shift_lines(lines, 3);
    assert forall|i: int| 0 <= i < moved.len() implies (#[trigger] moved[i]).wf() && content_recorded(
        marked,
        moved[i],
    ) by {
        assert(lines[i].wf() && content_recorded(bytes, lines[i]));
        lemma_shift_line_wf(lines[i], 3);
        lemma_shift_content(bytes, lines[i]);
    }
    assert forall|i: int, j: int| 0 <= i && j == i + 1 && j < moved.len() implies terminated(
        marked,
        #[trigger] moved[i],
        (#[trigger] moved[j]).start,
    ) by {
        assert(terminated(bytes, lines[i], lines[j].start));
        let newline = lines[j].start - 1;
        assert(marked[newline + 3] == bytes[newline]);
        if newline > lines[i].start {
            assert(marked[newline + 3 - 1] == bytes[newline - 1]);
        }
    }
}

/// A byte-order mark changes no line and no column: the table of a text
/// with the mark before it has as many lines as the table of the text
/// without it, and gives for each byte offset, three bytes on, the same
/// line, the same character column and the same display column; and for
/// each line and column a byte offset three bytes on.
pub proof fn lemma_bom_neutral(
    bytes: Seq<u8>,
    plain: TextLinesView,
    marked: TextLinesView,
    byte_index: int,
    indent_width: int,
    line: int,
    column: int,
)
    requires
        bom_len(bytes) == 0,
        describes(plain.lines, bytes),
        describes(marked.lines, with_bom(bytes)),
        0 <= line < plain.lines.len(),
    ensures
        marked.lines.len() == plain.lines.len(),
        marked.text_length() == plain.text_length() + 3,
        marked.line_and_column_index(byte_index + 3) == plain.line_and_column_index(byte_index),
        marked.line_and_column_display(byte_index + 3, indent_width)
            == plain.line_and_column_display(byte_index, indent_width),
        marked.lines[line].start == plain.lines[line].start + 3,
        marked.lines[line].end == plain.lines[line].end + 3,
        marked.lines[line].byte_of(column) == plain.lines[line].byte_of(column) + 3,
{
    assert(content_recorded(with_bom(bytes), marked.lines[0]));
    lemma_shift_describes(bytes, plain.lines);
    lemma_table_determined(with_bom(bytes), marked.lines, shift_lines(plain.lines, 3));
    lemma_shift_line_at(plain.lines, 3, byte_index);
    let at = plain.line_index(byte_index);
    lemma_line_at_in_range(plain.lines, byte_index);
    let found = plain.lines[at];
    assert(found.wf());
    assert forall|j: int| 0 <= j < found.multi_byte_chars.len() implies (
    #[trigger] found.multi_byte_chars[j]).byte_index + 3 <= usize::MAX by {
        assert(found.multi_byte_chars[j].byte_index + found.multi_byte_chars[j].length
            <= found.end);
        assert(content_recorded(bytes, found));
    }
    assert forall|j: int| 0 <= j < found.tab_chars.len() implies #[trigger] found.tab_chars[j] + 3
        <= usize::MAX by {
        assert(found.tab_chars[j] < found.end);
        assert(content_recorded(bytes, found));
    }
    lemma_shift_overcount(found.multi_byte_chars, 3, byte_index);
    lemma_shift_tabs_before(found.tab_chars, 3, byte_index);
    lemma_shift_extra(plain.lines[line].multi_byte_chars, 3, column);
}

} // verus!
