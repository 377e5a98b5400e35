//! The mathematical model of a line table: what a table holds, when it is
//! well formed, and what each position conversion means on it.

use vstd::prelude::*;

verus! {

/// A line and a character column on it, both counted from zero.
#[derive(Debug, Clone, Copy, PartialEq, Eq, Structural)]
pub struct LineAndColumnIndex {
    /// The zero-based line index.
    pub line_index: usize,
    /// The character index relative to the start of the line.
    pub column_index: usize,
}

/// A line and a column as shown to a person, both counted from one, with
/// every tab widened to the indent width.
#[derive(Debug, Clone, Copy, PartialEq, Eq, Structural)]
pub struct LineAndColumnDisplay {
    /// The one-based line number.
    pub line_number: usize,
    /// The one-based column number, tabs expanded.
    pub column_number: usize,
}

/// A character of a line whose encoding takes more than one byte.
#[derive(Debug, Clone, Copy, PartialEq, Eq, Structural)]
pub struct MultiByteCharInfo {
    /// The byte offset of the character's first byte in the whole text.
    pub byte_index: usize,
    /// The number of characters between the line's start and this one.
    pub line_char_index: usize,
    /// The number of bytes of the character's encoding.
    pub length: usize,
}

/// What the table records of one line.
pub struct LineView {
    /// Byte offset of the line's first content byte.
    pub start: int,
    /// Byte offset just past the line's content (its terminator excluded).
    pub end: int,
    /// The multi-byte characters of the line, in ascending byte order.
    pub multi_byte_chars: Seq<MultiByteCharInfo>,
    /// The byte offsets of the line's tabs, ascending.
    pub tab_chars: Seq<usize>,
}

/// The whole index: the lines in order, and the display width of a tab.
pub struct TextLinesView {
    pub lines: Seq<LineView>,
    pub indent_width: int,
}

/// The bytes beyond one per character that the characters in `chars` take.
pub open spec fn extra_total(chars: Seq<MultiByteCharInfo>) -> int
    decreases chars.len(),
{
    if chars.len() == 0 {
        0
    } else {
        extra_total(chars.drop_last()) + chars.last().length - 1
    }
}

/// By how much the byte distance up to `byte_index` overstates the number
/// of characters, on account of the single character `c`: nothing if `c`
/// starts at or after `byte_index`, the distance into `c` if `byte_index`
/// falls inside it, and all of its bytes but one if it lies before.
pub open spec fn overcount_of(c: MultiByteCharInfo, byte_index: int) -> int {
    if c.byte_index >= byte_index {
        0
    } else if c.byte_index + c.length > byte_index {
        byte_index - c.byte_index
    } else {
        c.length - 1
    }
}

/// The sum of `overcount_of` over `chars`.
pub open spec fn overcount(chars: Seq<MultiByteCharInfo>, byte_index: int) -> int
    decreases chars.len(),
{
    if chars.len() == 0 {
        0
    } else {
        overcount(chars.drop_last(), byte_index) + overcount_of(chars.last(), byte_index)
    }
}

/// The bytes beyond one per character taken by those of `chars` that stand
/// before character column `column`.
pub open spec fn extra_before_column(chars: Seq<MultiByteCharInfo>, column: int) -> int
    decreases chars.len(),
{
    if chars.len() == 0 {
        0
    } else {
        extra_before_column(chars.drop_last(), column) + if chars.last().line_char_index
            < column {
            chars.last().length - 1
        } else {
            0
        }
    }
}

/// How many of `tabs` lie strictly before `byte_index`.
pub open spec fn tabs_before(tabs: Seq<usize>, byte_index: int) -> int
    decreases tabs.len(),
{
    if tabs.len() == 0 {
        0
    } else {
        tabs_before(tabs.drop_last(), byte_index) + if tabs.last() < byte_index {
            1int
        } else {
            0int
        }
    }
}

/// The greatest index of a line that starts at or before `byte_index`, and
/// 0 where there is none.
pub open spec fn line_at(lines: Seq<LineView>, byte_index: int) -> int
    decreases lines.len(),
{
    if lines.len() <= 1 {
        0
    } else if lines.last().start <= byte_index {
        lines.len() - 1
    } else {
        line_at(lines.drop_last(), byte_index)
    }
}

/// All multi-byte characters of `lines`, line after line.
pub open spec fn all_multi_byte_chars(lines: Seq<LineView>) -> Seq<MultiByteCharInfo>
    decreases lines.len(),
{
    if lines.len() == 0 {
        Seq::empty()
    } else {
        all_multi_byte_chars(lines.drop_last()) + lines.last().multi_byte_chars
    }
}

/// The bytes beyond one per character taken by those of `chars` that stand
/// before character `char_index` of the text, where a character's index
/// in the text is its byte offset less the extra bytes of those before it.
pub open spec fn extra_before_char(chars: Seq<MultiByteCharInfo>, char_index: int) -> int
    decreases chars.len(),
{
    if chars.len() == 0 {
        0
    } else if chars.last().byte_index - extra_total(chars.drop_last()) < char_index {
        extra_total(chars)
    } else {
        extra_before_char(chars.drop_last(), char_index)
    }
}

impl LineView {
    /// The line's records are ordered, disjoint and inside the line, and
    /// each character's index on the line is consistent with the
    /// characters recorded before it.
    pub open spec fn wf(self) -> bool {
        &&& 0 <= self.start <= self.end <= usize::MAX
        &&& forall|j: int|
            0 <= j < self.multi_byte_chars.len() ==> {
                let c = #[trigger] self.multi_byte_chars[j];
                &&& c.length >= 1
                &&& self.start <= c.byte_index
                &&& c.byte_index + c.length <= self.end
            }
        &&& forall|j: int|
            0 <= j < self.multi_byte_chars.len() ==> self.multi_byte_chars[j].line_char_index
                == self.multi_byte_chars[j].byte_index - self.start - #[trigger] extra_total(
                self.multi_byte_chars.take(j),
            )
        &&& forall|j: int, k: int|
            0 <= j < k < self.multi_byte_chars.len() ==> (#[trigger] self.multi_byte_chars[j]).byte_index
                + self.multi_byte_chars[j].length <= (#[trigger] self.multi_byte_chars[k]).byte_index
        &&& forall|j: int|
            0 <= j < self.tab_chars.len() ==> self.start <= #[trigger] self.tab_chars[j] < self.end
        &&& forall|j: int, k: int|
            0 <= j < k < self.tab_chars.len() ==> #[trigger] self.tab_chars[j]
                < #[trigger] self.tab_chars[k]
        &&& forall|j: int, k: int|
            0 <= j < self.tab_chars.len() && 0 <= k < self.multi_byte_chars.len() ==> !((
            #[trigger] self.multi_byte_chars[k]).byte_index <= #[trigger] self.tab_chars[j]
                < self.multi_byte_chars[k].byte_index + self.multi_byte_chars[k].length)
    }

    /// The character column of `byte_index` on this line: the bytes from
    /// the line's start (none if `byte_index` precedes it), less what the
    /// multi-byte characters overstate.
    pub open spec fn column_of(self, byte_index: int) -> int {
        (if byte_index < self.start {
            0
        } else {
            byte_index - self.start
        }) - overcount(self.multi_byte_chars, byte_index)
    }

    /// The byte offset of character column `column` on this line, held to
    /// the line's end.
    pub open spec fn byte_of(self, column: int) -> int {
        let b = self.start + column + extra_before_column(self.multi_byte_chars, column);
        if b > self.end {
            self.end
        } else {
            b
        }
    }

    /// Whether `byte_index` is the first byte of a character of this line
    /// or its end: inside the line and not within a multi-byte character.
    pub open spec fn on_char_boundary(self, byte_index: int) -> bool {
        &&& self.start <= byte_index <= self.end
        &&& forall|j: int|
            0 <= j < self.multi_byte_chars.len() ==> !((
            #[trigger] self.multi_byte_chars[j]).byte_index < byte_index
                < self.multi_byte_chars[j].byte_index + self.multi_byte_chars[j].length)
    }
}

impl TextLinesView {
    /// There is a line, every line is well formed, and each line starts
    /// one or two bytes past the end of the one before.
    pub open spec fn wf(self) -> bool {
        &&& self.lines.len() >= 1
        &&& 0 <= self.indent_width <= usize::MAX
        &&& forall|i: int| 0 <= i < self.lines.len() ==> (#[trigger] self.lines[i]).wf()
        &&& forall|i: int, j: int|
            0 <= i && j == i + 1 && j < self.lines.len() ==> (#[trigger] self.lines[i]).end + 1 <= (
            #[trigger] self.lines[j]).start <= self.lines[i].end + 2
    }

    /// The text's length in bytes.
    pub open spec fn text_length(self) -> int {
        self.lines.last().end
    }

    /// The line that `byte_index` belongs to.
    pub open spec fn line_index(self, byte_index: int) -> int {
        line_at(self.lines, byte_index)
    }

    /// The line and character column of `byte_index`.
    pub open spec fn line_and_column_index(self, byte_index: int) -> (int, int) {
        let line = self.line_index(byte_index);
        (line, self.lines[line].column_of(byte_index))
    }

    /// The one-based line and tab-expanded column of `byte_index`, for a
    /// tab of `indent_width` columns.
    pub open spec fn line_and_column_display(self, byte_index: int, indent_width: int) -> (
        int,
        int,
    ) {
        let (line, column) = self.line_and_column_index(byte_index);
        let tabs = tabs_before(self.lines[line].tab_chars, byte_index);
        (line + 1, (column - tabs) + tabs * indent_width + 1)
    }

    /// The number of characters of the text, where a byte that belongs to
    /// no recorded multi-byte character counts as one.
    pub open spec fn char_count(self) -> int {
        self.text_length() - extra_total(all_multi_byte_chars(self.lines))
    }

    /// The number of characters of the text before `byte_index`: the
    /// bytes before it, less what the multi-byte characters overstate.
    pub open spec fn chars_before(self, byte_index: int) -> int {
        byte_index - overcount(all_multi_byte_chars(self.lines), byte_index)
    }

    /// The byte offset of character `char_index` of the text, held to the
    /// text's length.
    pub open spec fn byte_index_from_char_index(self, char_index: int) -> int {
        let b = char_index + extra_before_char(all_multi_byte_chars(self.lines), char_index);
        if b > self.text_length() {
            self.text_length()
        } else {
            b
        }
    }
}

} // verus!
