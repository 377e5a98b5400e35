//! How a line table relates to the bytes of the text it was built from.
//!
//! A character is taken to start at every byte that is not a continuation
//! byte following a non-ASCII byte, and to run over the continuation bytes
//! that follow it. On UTF-8 text this is the text's own division into
//! characters; the definitions are total, so they also say what the table
//! holds for any other bytes.

use vstd::prelude::*;
use crate::model::{LineView, MultiByteCharInfo, extra_total};

verus! {

/// The length of the byte-order mark that `bytes` begins with: 3 or 0.
pub open spec fn bom_len(bytes: Seq<u8>) -> int {
    if bytes.len() >= 3 && bytes[0] == 0xEF && bytes[1] == 0xBB && bytes[2] == 0xBF {
        3
    } else {
        0
    }
}

/// Whether `byte` can only stand inside a multi-byte character.
pub open spec fn is_continuation(byte: u8) -> bool {
    0x80 <= byte && byte < 0xC0
}

/// Whether a character starts at offset `at`.
pub open spec fn starts_char(bytes: Seq<u8>, at: int) -> bool {
    !(is_continuation(bytes[at]) && at > bom_len(bytes) && bytes[at - 1] >= 0x80)
}

/// `c` stands for a multi-byte character of `bytes`: one starts at its
/// offset, and its length covers exactly the continuation bytes after it.
pub open spec fn records_char(bytes: Seq<u8>, c: MultiByteCharInfo) -> bool {
    &&& c.length >= 1
    &&& c.byte_index + c.length <= bytes.len()
    &&& bytes[c.byte_index as int] >= 0x80
    &&& starts_char(bytes, c.byte_index as int)
    &&& forall|q: int|
        c.byte_index < q < c.byte_index + c.length ==> is_continuation(#[trigger] bytes[q])
    &&& c.byte_index + c.length < bytes.len() ==> !is_continuation(
        bytes[c.byte_index + c.length],
    )
}

/// Whether one of `chars` starts at offset `at`.
pub open spec fn has_char_at(chars: Seq<MultiByteCharInfo>, at: int) -> bool {
    exists|j: int| 0 <= j < chars.len() && (#[trigger] chars[j]).byte_index == at
}

/// Whether `at` is one of `tabs`.
pub open spec fn has_tab_at(tabs: Seq<usize>, at: int) -> bool {
    exists|j: int| 0 <= j < tabs.len() && #[trigger] tabs[j] == at
}

/// The line's records say exactly what its content `[start, end)` holds:
/// no line feed, a tab record for each tab and for nothing else, and a
/// character record for each multi-byte character and for nothing else.
pub open spec fn content_recorded(bytes: Seq<u8>, line: LineView) -> bool {
    &&& bom_len(bytes) <= line.start
    &&& line.end <= bytes.len() <= usize::MAX
    &&& forall|p: int| line.start <= p < line.end ==> #[trigger] bytes[p] != 0x0A
    &&& forall|p: int|
        line.start <= p < line.end ==> (bytes[p] == 0x09 <==> #[trigger] has_tab_at(
            line.tab_chars,
            p,
        ))
    &&& forall|p: int|
        line.start <= p < line.end ==> ((bytes[p] >= 0x80 && starts_char(bytes, p))
            <==> #[trigger] has_char_at(line.multi_byte_chars, p))
    &&& forall|j: int|
        0 <= j < line.multi_byte_chars.len() ==> records_char(
            bytes,
            #[trigger] line.multi_byte_chars[j],
        )
}

/// `line` is ended by the line feed just before `next_start`, and its
/// content stops short of a carriage return that precedes that line feed.
pub open spec fn terminated(bytes: Seq<u8>, line: LineView, next_start: int) -> bool {
    let newline = next_start - 1;
    &&& line.start <= newline < bytes.len()
    &&& bytes[newline] == 0x0A
    &&& line.end == if newline > line.start && bytes[newline - 1] == 0x0D {
        newline - 1
    } else {
        newline
    }
}

/// `lines` is the line table of `bytes`: the first line starts after the
/// byte-order mark, each line but the last is ended by a line feed after
/// which the next begins, the last runs to the end of the text, and every
/// line records its content.
pub open spec fn describes(lines: Seq<LineView>, bytes: Seq<u8>) -> bool {
    &&& lines.len() >= 1
    &&& lines[0].start == bom_len(bytes)
    &&& lines.last().end == bytes.len()
    &&& forall|i: int|
        0 <= i < lines.len() ==> (#[trigger] lines[i]).wf() && content_recorded(bytes, lines[i])
    &&& forall|i: int, j: int|
        0 <= i && j == i + 1 && j < lines.len() ==> terminated(
            bytes,
            #[trigger] lines[i],
            (#[trigger] lines[j]).start,
        )
}

/// The lines closed so far while the text is read: as in `describes`,
/// but the last of them is ended by the line feed before `next_start`.
pub open spec fn closed_lines(lines: Seq<LineView>, bytes: Seq<u8>, next_start: int) -> bool {
    &&& forall|i: int|
        0 <= i < lines.len() ==> (#[trigger] lines[i]).wf() && content_recorded(bytes, lines[i])
    &&& forall|i: int, j: int|
        0 <= i && j == i + 1 && j < lines.len() ==> terminated(
            bytes,
            #[trigger] lines[i],
            (#[trigger] lines[j]).start,
        )
    &&& lines.len() > 0 ==> lines[0].start == bom_len(bytes) && terminated(
        bytes,
        lines.last(),
        next_start,
    )
    &&& lines.len() == 0 ==> next_start == bom_len(bytes)
}

/// Extra bytes are never negative where every length is at least one.
pub proof fn lemma_extra_total_nonnegative(chars: Seq<MultiByteCharInfo>)
    requires
        forall|j: int| 0 <= j < chars.len() ==> (#[trigger] chars[j]).length >= 1,
    ensures
        extra_total(chars) >= 0,
    decreases chars.len(),
{
    if chars.len() > 0 {
        lemma_extra_total_nonnegative(chars.drop_last());
    }
}

/// A line that has recorded its content up to `line.end` has also
/// recorded it one byte further, if that byte is ASCII and neither a tab
/// nor a line feed.
pub proof fn lemma_extend_plain(bytes: Seq<u8>, line: LineView)
    requires
        line.wf(),
        content_recorded(bytes, line),
        line.end < bytes.len(),
        line.end < usize::MAX,
        bytes[line.end] < 0x80,
        bytes[line.end] != 0x0A,
        bytes[line.end] != 0x09,
    ensures
        (LineView { end: line.end + 1, ..line }).wf(),
        content_recorded(bytes, LineView { end: line.end + 1, ..line }),
{
    let next = LineView { end: line.end + 1, ..line };
    assert(!has_tab_at(line.tab_chars, line.end));
    assert(!has_char_at(line.multi_byte_chars, line.end));
}

/// The same for a tab, once its offset is appended to the tab records.
pub proof fn lemma_extend_tab(bytes: Seq<u8>, line: LineView)
    requires
        line.wf(),
        content_recorded(bytes, line),
        line.end < bytes.len(),
        line.end < usize::MAX,
        bytes[line.end] == 0x09,
    ensures
        (LineView {
            end: line.end + 1,
            tab_chars: line.tab_chars.push(line.end as usize),
            ..line
        }).wf(),
        content_recorded(
            bytes,
            LineView {
                end: line.end + 1,
                tab_chars: line.tab_chars.push(line.end as usize),
                ..line
            },
        ),
{
    let tabs = line.tab_chars.push(line.end as usize);
    let next = LineView { end: line.end + 1, tab_chars: tabs, ..line };
    assert(!has_char_at(line.multi_byte_chars, line.end));
    assert(tabs[tabs.len() - 1] == line.end);
    assert(has_tab_at(tabs, line.end));
    assert forall|p: int| line.start <= p < line.end implies (has_tab_at(tabs, p) <==> has_tab_at(
        line.tab_chars,
        p,
    )) by {
        if has_tab_at(line.tab_chars, p) {
            let j = choose|j: int| 0 <= j < line.tab_chars.len() && line.tab_chars[j] == p;
            assert(tabs[j] == p);
        }
        if has_tab_at(tabs, p) {
            let j = choose|j: int| 0 <= j < tabs.len() && tabs[j] == p;
            assert(line.tab_chars[j] == p);
        }
    }
    assert forall|j: int, k: int|
        0 <= j < tabs.len() && 0 <= k < next.multi_byte_chars.len() implies !((
    #[trigger] next.multi_byte_chars[k]).byte_index <= #[trigger] tabs[j]
        < next.multi_byte_chars[k].byte_index + next.multi_byte_chars[k].length) by {
        if j < line.tab_chars.len() {
            assert(tabs[j] == line.tab_chars[j]);
        }
    }
}

/// The same for a multi-byte character, once `c` is appended to the
/// character records.
pub proof fn lemma_extend_char(bytes: Seq<u8>, line: LineView, c: MultiByteCharInfo)
    requires
        line.wf(),
        content_recorded(bytes, line),
        c.byte_index == line.end,
        records_char(bytes, c),
        c.line_char_index == line.end - line.start - extra_total(line.multi_byte_chars),
    ensures
        (LineView {
            end: c.byte_index + c.length,
            multi_byte_chars: line.multi_byte_chars.push(c),
            ..line
        }).wf(),
        content_recorded(
            bytes,
            LineView {
                end: c.byte_index + c.length,
                multi_byte_chars: line.multi_byte_chars.push(c),
                ..line
            },
        ),
{
    let old_chars = line.multi_byte_chars;
    let chars = old_chars.push(c);
    let next = LineView { end: c.byte_index + c.length, multi_byte_chars: chars, ..line };
    assert forall|j: int| 0 <= j < chars.len() implies {
        let d = #[trigger] chars[j];
        &&& d.length >= 1
        &&& next.start <= d.byte_index
        &&& d.byte_index + d.length <= next.end
    } by {
        if j < old_chars.len() {
            assert(chars[j] == old_chars[j]);
        }
    }
    assert forall|j: int| 0 <= j < chars.len() implies chars[j].line_char_index
        == chars[j].byte_index - next.start - #[trigger] extra_total(chars.take(j)) by {
        if j < old_chars.len() {
            assert(chars[j] == old_chars[j]);
            assert(chars.take(j) =~= old_chars.take(j));
        } else {
            assert(chars.take(j) =~= old_chars);
        }
    }
    assert forall|j: int, k: int| 0 <= j < k < chars.len() implies (#[trigger] chars[j]).byte_index
        + chars[j].length <= (#[trigger] chars[k]).byte_index by {
        assert(chars[j] == old_chars[j]);
        if k < old_chars.len() {
            assert(chars[k] == old_chars[k]);
        }
    }
    assert forall|j: int, k: int|
        0 <= j < next.tab_chars.len() && 0 <= k < chars.len() implies !((
    #[trigger] chars[k]).byte_index <= #[trigger] next.tab_chars[j] < chars[k].byte_index
        + chars[k].length) by {
        if k < old_chars.len() {
            assert(chars[k] == old_chars[k]);
        }
    }
    assert forall|p: int| line.start <= p < next.end implies #[trigger] bytes[p] != 0x0A by {}
    assert forall|p: int| line.start <= p < next.end implies (bytes[p] == 0x09
        <==> #[trigger] has_tab_at(next.tab_chars, p)) by {
        if p >= line.end {
            assert(bytes[p] >= 0x80);
            assert(!has_tab_at(next.tab_chars, p));
        }
    }
    assert(chars[chars.len() - 1] == c);
    assert forall|p: int| line.start <= p < next.end implies ((bytes[p] >= 0x80 && starts_char(
        bytes,
        p,
    )) <==> #[trigger] has_char_at(chars, p)) by {
        if p < line.end {
            if has_char_at(old_chars, p) {
                let j = choose|j: int| 0 <= j < old_chars.len() && old_chars[j].byte_index == p;
                assert(chars[j].byte_index == p);
            }
            if has_char_at(chars, p) {
                let j = choose|j: int| 0 <= j < chars.len() && chars[j].byte_index == p;
                assert(old_chars[j].byte_index == p);
            }
        } else if p == line.end {
            assert(has_char_at(chars, p));
        } else {
            assert(is_continuation(bytes[p]));
            assert(bytes[p - 1] >= 0x80);
            if has_char_at(chars, p) {
                let j = choose|j: int| 0 <= j < chars.len() && chars[j].byte_index == p;
                if j < old_chars.len() {
                    assert(old_chars[j].byte_index == p);
                }
            }
        }
    }
    assert forall|j: int| 0 <= j < chars.len() implies records_char(bytes, #[trigger] chars[j]) by {
        if j < old_chars.len() {
            assert(chars[j] == old_chars[j]);
        }
    }
}

/// A line whose recorded content ends with a carriage return has also
/// recorded the content before that carriage return.
pub proof fn lemma_drop_carriage_return(bytes: Seq<u8>, line: LineView)
    requires
        line.wf(),
        content_recorded(bytes, line),
        line.end > line.start,
        bytes[line.end - 1] == 0x0D,
    ensures
        (LineView { end: line.end - 1, ..line }).wf(),
        content_recorded(bytes, LineView { end: line.end - 1, ..line }),
{
    let next = LineView { end: line.end - 1, ..line };
    assert forall|j: int| 0 <= j < line.multi_byte_chars.len() implies (
    #[trigger] line.multi_byte_chars[j]).byte_index + line.multi_byte_chars[j].length
        <= next.end by {
        let c = line.multi_byte_chars[j];
        assert(records_char(bytes, c));
        if c.length > 1 {
            assert(is_continuation(bytes[c.byte_index + c.length - 1]));
        }
    }
    assert forall|j: int| 0 <= j < line.tab_chars.len() implies #[trigger] line.tab_chars[j]
        < next.end by {
        let t = line.tab_chars[j];
        assert(has_tab_at(line.tab_chars, t as int));
    }
}

} // verus!
