//! The index itself and its construction from a text.

use vstd::prelude::*;
use vstd::string::StringSliceAdditionalSpecFns;
use crate::encoding::{
    bom_len, closed_lines, content_recorded, describes, is_continuation, lemma_drop_carriage_return,
    lemma_extend_char, lemma_extend_plain, lemma_extend_tab, lemma_extra_total_nonnegative,
    records_char, starts_char, terminated,
};
use crate::lemmas::{
    lemma_char_index_past_end,
    lemma_extra_before_column_prefix, lemma_extra_before_column_step, lemma_char_indices_ascending,
    lemma_line_at_is, lemma_lines_ascending, lemma_overcount_prefix, lemma_overcount_step,
    lemma_tabs_before_prefix, lemma_tabs_before_step, lemma_tabs_within_column,
};
use crate::model::{
    LineAndColumnDisplay, LineAndColumnIndex, LineView, MultiByteCharInfo, TextLinesView,
    extra_before_column, extra_total, overcount, tabs_before,
};
use crate::walk::{
    chars_on_lines, lemma_walk_advance, lemma_walk_end, lemma_walk_found, lemma_walk_line,
    lemma_walk_next_char, lemma_walk_past_char, lemma_walk_start, text_char, walked,
};

verus! {

/// The table's entry for one line.
#[derive(Debug)]
pub(crate) struct TextLine {
    pub(crate) start_index: usize,
    pub(crate) end_index: usize,
    pub(crate) multi_byte_chars: Vec<MultiByteCharInfo>,
    pub(crate) tab_chars: Vec<usize>,
}

impl View for TextLine {
    type V = LineView;

    closed spec fn view(&self) -> LineView {
        LineView {
            start: self.start_index as int,
            end: self.end_index as int,
            multi_byte_chars: self.multi_byte_chars@,
            tab_chars: self.tab_chars@,
        }
    }
}

/// The views of `lines`, in order.
spec fn line_views(lines: Seq<TextLine>) -> Seq<LineView> {
    Seq::new(lines.len(), |i: int| lines[i]@)
}

/// An index over a text: where its lines begin and end, and where on each
/// line the tabs and the multi-byte characters stand.
#[derive(Debug)]
pub struct TextLines {
    pub(crate) lines: Vec<TextLine>,
    pub(crate) indent_width: usize,
}

impl View for TextLines {
    type V = TextLinesView;

    closed spec fn view(&self) -> TextLinesView {
        TextLinesView { lines: line_views(self.lines@), indent_width: self.indent_width as int }
    }
}

/// The length of the byte-order mark at the head of `bytes`.
fn leading_bom_len(bytes: &[u8]) -> (len: usize)
    ensures
        len == bom_len(bytes@),
{
    if bytes.len() >= 3 && bytes[0] == 0xEF && bytes[1] == 0xBB && bytes[2] == 0xBF {
        3
    } else {
        0
    }
}

/// The length of the character that starts at `at`: one, and one more for
/// each continuation byte that follows.
fn char_len_at(bytes: &[u8], at: usize) -> (len: usize)
    requires
        at < bytes@.len(),
    ensures
        len >= 1,
        at + len <= bytes@.len(),
        forall|q: int| at < q < at + len ==> is_continuation(#[trigger] bytes@[q]),
        at + len < bytes@.len() ==> !is_continuation(bytes@[at + len]),
{
    let n: usize = bytes.len();
    let mut next: usize = at + 1;
    while next < n && 0x80 <= bytes[next] && bytes[next] < 0xC0
        invariant
            n == bytes@.len(),
            at < next <= n,
            forall|q: int| at < q < next ==> is_continuation(#[trigger] bytes@[q]),
        decreases n - next,
    {
        next = next + 1;
    }
    next - at
}

impl TextLines {
    /// Every index is well formed.
    #[verifier::type_invariant]
    spec fn well_formed(self) -> bool {
        self@.wf()
    }

    /// Whether the index's table is well formed. It is, of every index:
    /// each operation says so of the index it returns or is called on.
    pub open spec fn wf(&self) -> bool {
        self@.wf()
    }

    /// Indexes `text`, with a tab shown as 4 columns.
    pub fn new(text: &str) -> (result: TextLines)
        ensures
            result.wf(),
            describes(result@.lines, text.spec_bytes()),
            result@.indent_width == 4,
    {
        TextLines::with_indent_width(text, 4)
    }

    /// Indexes `text`, with a tab shown as `indent_width` columns.
    pub fn with_indent_width(text: &str, indent_width: usize) -> (result: TextLines)
        ensures
            result.wf(),
            describes(result@.lines, text.spec_bytes()),
            result@.indent_width == indent_width,
    {
        let bytes: &[u8] = text.as_bytes();
        let n: usize = bytes.len();
        let bom: usize = leading_bom_len(bytes);
        let mut lines: Vec<TextLine> = Vec::new();
        let mut multi_byte_chars: Vec<MultiByteCharInfo> = Vec::new();
        let mut tab_chars: Vec<usize> = Vec::new();
        let mut line_start: usize = bom;
        let mut line_chars: usize = 0;
        let mut i: usize = bom;
        while i < n
            invariant
                n == bytes@.len(),
                bom == bom_len(bytes@),
                bom <= line_start <= i <= n,
                i < n ==> starts_char(bytes@, i as int),
                closed_lines(line_views(lines@), bytes@, line_start as int),
                (LineView {
                    start: line_start as int,
                    end: i as int,
                    multi_byte_chars: multi_byte_chars@,
                    tab_chars: tab_chars@,
                }).wf(),
                content_recorded(
                    bytes@,
                    LineView {
                        start: line_start as int,
                        end: i as int,
                        multi_byte_chars: multi_byte_chars@,
                        tab_chars: tab_chars@,
                    },
                ),
                line_chars == i - line_start - extra_total(multi_byte_chars@),
            decreases n - i,
        {
            let ghost line = LineView {
                start: line_start as int,
                end: i as int,
                multi_byte_chars: multi_byte_chars@,
                tab_chars: tab_chars@,
            };
            proof {
                lemma_extra_total_nonnegative(multi_byte_chars@);
            }
            let byte: u8 = bytes[i];
            if byte == 0x0A {
                let end_index: usize = if i > line_start && bytes[i - 1] == 0x0D {
                    proof {
                        lemma_drop_carriage_return(bytes@, line);
                    }
                    i - 1
                } else {
                    i
                };
                let closed = TextLine {
                    start_index: line_start,
                    end_index,
                    multi_byte_chars,
                    tab_chars,
                };
                proof {
                    let before = line_views(lines@);
                    let after = before.push(closed@);
                    assert(line_views(lines@.push(closed)) =~= after);
                    assert(terminated(bytes@, closed@, i + 1));
                    assert forall|k: int| 0 <= k < after.len() implies (#[trigger] after[k]).wf()
                        && content_recorded(bytes@, after[k]) by {
                        if k < before.len() {
                            assert(after[k] == before[k]);
                        }
                    }
                    assert forall|k: int, m: int|
                        0 <= k && m == k + 1 && m < after.len() implies terminated(
                        bytes@,
                        #[trigger] after[k],
                        (#[trigger] after[m]).start,
                    ) by {
                        assert(after[k] == before[k]);
                        if m < before.len() {
                            assert(after[m] == before[m]);
                        }
                    }
                    if before.len() > 0 {
                        assert(after[0] == before[0]);
                    }
                    assert(closed_lines(after, bytes@, i + 1));
                }
                lines.push(closed);
                multi_byte_chars = Vec::new();
                tab_chars = Vec::new();
                line_start = i + 1;
                line_chars = 0;
                i = i + 1;
            } else if byte == 0x09 {
                proof {
                    lemma_extend_tab(bytes@, line);
                }
                tab_chars.push(i);
                line_chars = line_chars + 1;
                i = i + 1;
            } else if byte >= 0x80 {
                let length: usize = char_len_at(bytes, i);
                let c = MultiByteCharInfo { byte_index: i, line_char_index: line_chars, length };
                proof {
                    assert(records_char(bytes@, c));
                    lemma_extend_char(bytes@, line, c);
                    assert(multi_byte_chars@.push(c).drop_last() =~= multi_byte_chars@);
                }
                multi_byte_chars.push(c);
                line_chars = line_chars + 1;
                i = i + length;
            } else {
                proof {
                    lemma_extend_plain(bytes@, line);
                }
                line_chars = line_chars + 1;
                i = i + 1;
            }
        }
        let last = TextLine { start_index: line_start, end_index: n, multi_byte_chars, tab_chars };
        proof {
            let before = line_views(lines@);
            let after = before.push(last@);
            assert(line_views(lines@.push(last)) =~= after);
            assert forall|k: int| 0 <= k < after.len() implies (#[trigger] after[k]).wf()
                && content_recorded(bytes@, after[k]) by {
                if k < before.len() {
                    assert(after[k] == before[k]);
                }
            }
            assert forall|k: int, m: int| 0 <= k && m == k + 1 && m < after.len() implies terminated(
                bytes@,
                #[trigger] after[k],
                (#[trigger] after[m]).start,
            ) by {
                assert(after[k] == before[k]);
                if m < before.len() {
                    assert(after[m] == before[m]);
                }
            }
            if before.len() > 0 {
                assert(after[0] == before[0]);
            }
            assert(describes(after, bytes@));
        }
        lines.push(last);
        TextLines { lines, indent_width }
    }
}

impl TextLines {
    /// The number of lines of the text: at least one.
    pub fn lines_count(&self) -> (count: usize)
        ensures
            self.wf(),
            count == self@.lines.len(),
            count >= 1,
    {
        proof {
            use_type_invariant(self);
        }
        self.lines.len()
    }

    /// The length of the text in bytes.
    pub fn text_length(&self) -> (length: usize)
        ensures
            self.wf(),
            length == self@.text_length(),
    {
        proof {
            use_type_invariant(self);
        }
        self.lines[self.lines.len() - 1].end_index
    }

    /// The line that `byte_index` belongs to: the last line that starts at
    /// or before it, and the first line for an offset before that line's
    /// start. An offset inside a line's terminator belongs to that line.
    pub fn line_index(&self, byte_index: usize) -> (index: usize)
        requires
            byte_index <= self@.text_length(),
        ensures
            self.wf(),
            index == self@.line_index(byte_index as int),
            index < self@.lines.len(),
            index > 0 ==> self@.lines[index as int].start <= byte_index,
            index + 1 < self@.lines.len() ==> byte_index < self@.lines[index + 1].start,
    {
        proof {
            use_type_invariant(self);
        }
        let mut low: usize = 0;
        let mut high: usize = self.lines.len();
        while low < high
            invariant
                self.wf(),
                low <= high <= self.lines@.len(),
                forall|i: int| 0 <= i < low ==> (#[trigger] self@.lines[i]).start <= byte_index,
                forall|i: int|
                    high <= i < self.lines@.len() ==> (#[trigger] self@.lines[i]).start
                        > byte_index,
            decreases high - low,
        {
            let mid: usize = low + (high - low) / 2;
            if self.lines[mid].start_index <= byte_index {
                proof {
                    assert forall|i: int| 0 <= i < mid + 1 implies (#[trigger] self@.lines[i]).start
                        <= byte_index by {
                        if i < mid {
                            lemma_lines_ascending(self@, i, mid as int);
                        }
                    }
                }
                low = mid + 1;
            } else {
                proof {
                    assert forall|i: int| mid <= i < self.lines@.len() implies (
                    #[trigger] self@.lines[i]).start > byte_index by {
                        if mid < i {
                            lemma_lines_ascending(self@, mid as int, i);
                        }
                    }
                }
                high = mid;
            }
        }
        let index: usize = if low == 0 {
            0
        } else {
            low - 1
        };
        proof {
            lemma_line_at_is(self@.lines, byte_index as int, index as int);
        }
        index
    }

    /// The byte offset at which line `line_index` starts.
    pub fn line_start(&self, line_index: usize) -> (start: usize)
        requires
            line_index < self@.lines.len(),
        ensures
            self.wf(),
            start == self@.lines[line_index as int].start,
    {
        proof {
            use_type_invariant(self);
        }
        self.lines[line_index].start_index
    }

    /// The byte offset at which the content of line `line_index` ends: that
    /// of its terminator, or the text's length.
    pub fn line_end(&self, line_index: usize) -> (end: usize)
        requires
            line_index < self@.lines.len(),
        ensures
            self.wf(),
            end == self@.lines[line_index as int].end,
    {
        proof {
            use_type_invariant(self);
        }
        self.lines[line_index].end_index
    }

    /// The start and the end of line `line_index`.
    pub fn line_range(&self, line_index: usize) -> (range: (usize, usize))
        requires
            line_index < self@.lines.len(),
        ensures
            self.wf(),
            range.0 == self@.lines[line_index as int].start,
            range.1 == self@.lines[line_index as int].end,
    {
        proof {
            use_type_invariant(self);
        }
        let line = &self.lines[line_index];
        (line.start_index, line.end_index)
    }

    /// The byte offset of a line and character column. A column past the
    /// line's content gives the line's end.
    pub fn byte_index(&self, line_and_column: LineAndColumnIndex) -> (byte_index: usize)
        requires
            line_and_column.line_index < self@.lines.len(),
        ensures
            self.wf(),
            byte_index == self@.lines[line_and_column.line_index as int].byte_of(
                line_and_column.column_index as int,
            ),
    {
        proof {
            use_type_invariant(self);
        }
        let line = &self.lines[line_and_column.line_index];
        let column: usize = line_and_column.column_index;
        let ghost chars = line.multi_byte_chars@;
        proof {
            assert(self@.lines[line_and_column.line_index as int] == line@);
            assert(line@.wf());
            assert(line@.multi_byte_chars == chars);
            lemma_extra_before_column_prefix(chars, 0, column as int);
        }
        if column > line.end_index - line.start_index {
            return line.end_index;
        }
        let mut byte_index: usize = line.start_index + column;
        let count: usize = line.multi_byte_chars.len();
        let mut j: usize = 0;
        while j < count && line.multi_byte_chars[j].line_char_index < column
            invariant
                line@.wf(),
                chars == line.multi_byte_chars@,
                chars == line@.multi_byte_chars,
                count == chars.len(),
                j <= count,
                self.wf(),
                line_and_column.line_index < self@.lines.len(),
                self@.lines[line_and_column.line_index as int] == line@,
                column == line_and_column.column_index,
                byte_index <= line.end_index,
                byte_index == line.start_index + column + extra_before_column(
                    chars.take(j as int),
                    column as int,
                ),
            decreases count - j,
        {
            let extra: usize = line.multi_byte_chars[j].length - 1;
            proof {
                assert(chars[j as int].length >= 1);
                lemma_extra_before_column_step(chars, j as int, column as int);
                lemma_extra_before_column_prefix(chars, j + 1, column as int);
            }
            if extra > line.end_index - byte_index {
                return line.end_index;
            }
            byte_index = byte_index + extra;
            j = j + 1;
        }
        proof {
            assert forall|k: int| j <= k < chars.len() implies (#[trigger] chars[k]).line_char_index
                >= column by {
                if j < k {
                    lemma_char_indices_ascending(line@, j as int, k);
                }
            }
            lemma_extra_before_column_prefix(chars, j as int, column as int);
        }
        byte_index
    }

    /// The line and the character column of `byte_index`. An offset inside
    /// a multi-byte character has that character's column; one before the
    /// first line's start has column 0.
    pub fn line_and_column_index(&self, byte_index: usize) -> (result: LineAndColumnIndex)
        requires
            byte_index <= self@.text_length(),
        ensures
            self.wf(),
            (result.line_index as int, result.column_index as int) == self@.line_and_column_index(
                byte_index as int,
            ),
            result.line_index < self@.lines.len(),
    {
        proof {
            use_type_invariant(self);
        }
        let line_index: usize = self.line_index(byte_index);
        let line = &self.lines[line_index];
        let ghost chars = line.multi_byte_chars@;
        proof {
            assert(self@.lines[line_index as int] == line@);
            assert(line@.wf());
        }
        let relative: usize = if byte_index < line.start_index {
            0
        } else {
            byte_index - line.start_index
        };
        let count: usize = line.multi_byte_chars.len();
        let mut over: usize = 0;
        let mut j: usize = 0;
        while j < count && line.multi_byte_chars[j].byte_index < byte_index
            invariant
                line@.wf(),
                chars == line.multi_byte_chars@,
                chars == line@.multi_byte_chars,
                count == chars.len(),
                j <= count,
                over == overcount(chars.take(j as int), byte_index as int),
                j == 0 ==> over == 0,
                j > 0 ==> line.start_index + over <= chars[j - 1].byte_index + chars[j - 1].length
                    && line.start_index + over <= byte_index,
                over <= relative,
                relative == if byte_index < line.start_index {
                    0
                } else {
                    byte_index - line.start_index
                },
            decreases count - j,
        {
            let c = line.multi_byte_chars[j];
            proof {
                assert(c == chars[j as int]);
                assert(c.length >= 1 && line.start_index <= c.byte_index);
                if j > 0 {
                    assert(chars[j - 1].byte_index + chars[j - 1].length <= chars[j as int].byte_index);
                }
                lemma_overcount_step(chars, j as int, byte_index as int);
            }
            let part: usize = if c.length > byte_index - c.byte_index {
                byte_index - c.byte_index
            } else {
                c.length - 1
            };
            over = over + part;
            j = j + 1;
        }
        proof {
            assert forall|k: int| j <= k < chars.len() implies (#[trigger] chars[k]).byte_index
                >= byte_index by {
                if j < k {
                    assert(chars[j as int].byte_index + chars[j as int].length <= chars[k].byte_index);
                }
            }
            lemma_overcount_prefix(chars, j as int, byte_index as int);
        }
        LineAndColumnIndex { line_index, column_index: relative - over }
    }

    /// The line and column of `byte_index` for display, with the tab width
    /// that the index was made with.
    pub fn line_and_column_display(&self, byte_index: usize) -> (result: LineAndColumnDisplay)
        requires
            byte_index <= self@.text_length(),
            self@.line_and_column_display(byte_index as int, self@.indent_width).1 <= usize::MAX,
        ensures
            self.wf(),
            (result.line_number as int, result.column_number as int)
                == self@.line_and_column_display(byte_index as int, self@.indent_width),
    {
        proof {
            use_type_invariant(self);
        }
        self.line_and_column_display_with_indent_width(byte_index, self.indent_width)
    }

    /// The line and column of `byte_index` for display, both counted from
    /// one, each tab before the offset taking `indent_width` columns.
    pub fn line_and_column_display_with_indent_width(
        &self,
        byte_index: usize,
        indent_width: usize,
    ) -> (result: LineAndColumnDisplay)
        requires
            byte_index <= self@.text_length(),
            self@.line_and_column_display(byte_index as int, indent_width as int).1
                <= usize::MAX,
        ensures
            self.wf(),
            (result.line_number as int, result.column_number as int)
                == self@.line_and_column_display(byte_index as int, indent_width as int),
    {
        proof {
            use_type_invariant(self);
        }
        let position = self.line_and_column_index(byte_index);
        let lines_count: usize = self.lines.len();
        let line = &self.lines[position.line_index];
        let ghost tabs = line.tab_chars@;
        proof {
            assert(position.line_index < lines_count);
            assert(self@.lines[position.line_index as int] == line@);
            assert(line@.wf());
            lemma_tabs_within_column(line@, byte_index as int);
        }
        let count: usize = line.tab_chars.len();
        let mut tab_count: usize = 0;
        while tab_count < count && line.tab_chars[tab_count] < byte_index
            invariant
                line@.wf(),
                tabs == line.tab_chars@,
                tabs == line@.tab_chars,
                count == tabs.len(),
                tab_count <= count,
                tab_count == tabs_before(tabs.take(tab_count as int), byte_index as int),
            decreases count - tab_count,
        {
            proof {
                lemma_tabs_before_step(tabs, tab_count as int, byte_index as int);
            }
            tab_count = tab_count + 1;
        }
        proof {
            assert forall|k: int| tab_count <= k < tabs.len() implies #[trigger] tabs[k]
                >= byte_index by {
                if tab_count < k {
                    assert(tabs[tab_count as int] < tabs[k]);
                }
            }
            lemma_tabs_before_prefix(tabs, tab_count as int, byte_index as int);
            assert(tab_count * indent_width >= 0) by (nonlinear_arith);
        }
        LineAndColumnDisplay {
            line_number: position.line_index + 1,
            column_number: position.column_index - tab_count + tab_count * indent_width + 1,
        }
    }
}

impl TextLines {
    /// The byte offset of character `char_index` of the text, where line
    /// terminators count as characters, one for each of their bytes. An
    /// index past the last character gives the text's length.
    pub fn byte_index_from_char_index(&self, char_index: usize) -> (byte_index: usize)
        ensures
            self.wf(),
            byte_index == self@.byte_index_from_char_index(char_index as int),
            char_index >= self@.char_count() ==> byte_index == self@.text_length(),
    {
        proof {
            use_type_invariant(self);
            lemma_walk_start(self@, char_index as int);
            if char_index >= self@.char_count() {
                lemma_char_index_past_end(self@, char_index as int);
            }
        }
        let ghost mut seen: int = 0;
        let lines_count: usize = self.lines.len();
        let mut last_char: usize = 0;
        let mut last_byte: usize = 0;
        let mut i: usize = 0;
        while i < lines_count
            invariant
                self.wf(),
                lines_count == self@.lines.len(),
                i <= lines_count,
                seen == chars_on_lines(self@, i as int),
                walked(self@, char_index as int, seen, last_char as int, last_byte as int),
                last_char <= last_byte,
                last_char <= char_index,
                i > 0 ==> last_char < char_index,
                i == 0 ==> last_byte == 0,
                0 < i < lines_count ==> last_byte == self@.lines[i as int].start,
                i == lines_count ==> last_byte == self@.text_length(),
                char_index >= self@.char_count() ==> self@.byte_index_from_char_index(char_index as int)
                    == self@.text_length(),
            decreases lines_count - i,
        {
            let line = &self.lines[i];
            let ghost chars = line.multi_byte_chars@;
            let ghost first = seen;
            let ghost total = chars_on_lines(self@, lines_count as int);
            proof {
                assert(self@.lines[i as int] == line@);
                assert(line@.wf());
                assert(line@.multi_byte_chars == chars);
                lemma_walk_line(self@, i as int);
                if i < lines_count - 1 {
                    lemma_lines_ascending(self@, i as int, lines_count - 1);
                }
            }
            let count: usize = line.multi_byte_chars.len();
            let mut j: usize = 0;
            while j < count
                invariant
                    self.wf(),
                    lines_count == self@.lines.len(),
                    total == chars_on_lines(self@, lines_count as int),
                    line@.wf(),
                    chars == line@.multi_byte_chars,
                    chars == line.multi_byte_chars@,
                    count == chars.len(),
                    j <= count,
                    seen == first + j,
                    first + count <= total,
                    forall|k: int|
                        0 <= k < count ==> text_char(self@, first + k) == #[trigger] chars[k],
                    walked(self@, char_index as int, seen, last_char as int, last_byte as int),
                    line@.end <= self@.text_length(),
                    last_char <= last_byte,
                    last_char <= char_index,
                    j == 0 ==> last_byte <= line@.start,
                    j == 0 && i > 0 ==> last_char < char_index,
                    j > 0 ==> last_byte == chars[j - 1].byte_index + chars[j - 1].length,
                    char_index >= self@.char_count() ==> self@.byte_index_from_char_index(char_index as int)
                        == self@.text_length(),
                decreases count - j,
            {
                let c = line.multi_byte_chars[j];
                proof {
                    assert(c == chars[j as int]);
                    assert(text_char(self@, seen) == c);
                    assert(c.length >= 1 && line@.start <= c.byte_index && c.byte_index + c.length
                        <= line@.end);
                    if j > 0 {
                        assert(chars[j - 1].byte_index + chars[j - 1].length
                            <= chars[j as int].byte_index);
                    }
                }
                let char_length: usize = c.byte_index - last_byte;
                if last_char + char_length >= char_index {
                    proof {
                        lemma_walk_found(
                            self@,
                            char_index as int,
                            seen,
                            last_char as int,
                            last_byte as int,
                            c.byte_index as int,
                        );
                    }
                    return last_byte + (char_index - last_char);
                }
                proof {
                    lemma_walk_past_char(
                        self@,
                        char_index as int,
                        seen,
                        last_char as int,
                        last_byte as int,
                    );
                    seen = seen + 1;
                }
                last_byte = c.byte_index + c.length;
                last_char = last_char + char_length + 1;
                j = j + 1;
            }
            proof {
                if count > 0 {
                    assert(chars[count - 1].byte_index + chars[count - 1].length <= line@.end);
                }
            }
            let line_end: usize = if i + 1 < lines_count {
                proof {
                    assert(self@.lines[i + 1] == self.lines@[i + 1]@);
                    assert(self@.lines[i as int].end + 1 <= self@.lines[i + 1].start);
                    lemma_lines_ascending(self@, i as int, i + 1);
                    if i + 1 < lines_count - 1 {
                        lemma_lines_ascending(self@, i + 1, lines_count - 1);
                    }
                    assert(self@.lines[lines_count - 1].wf());
                    if seen < total {
                        lemma_walk_next_char(self@, i + 1);
                    }
                }
                self.lines[i + 1].start_index
            } else {
                line.end_index
            };
            let char_length: usize = line_end - last_byte;
            if last_char + char_length >= char_index {
                proof {
                    lemma_walk_found(
                        self@,
                        char_index as int,
                        seen,
                        last_char as int,
                        last_byte as int,
                        line_end as int,
                    );
                }
                return last_byte + (char_index - last_char);
            }
            proof {
                lemma_walk_advance(
                    self@,
                    char_index as int,
                    seen,
                    last_char as int,
                    last_byte as int,
                    char_length as int,
                );
            }
            last_byte = line_end;
            last_char = last_char + char_length;
            i = i + 1;
        }
        proof {
            lemma_walk_end(self@, char_index as int, last_char as int, last_byte as int);
        }
        last_byte
    }
}

} // verus!
