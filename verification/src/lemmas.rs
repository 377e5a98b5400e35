//! Facts about the model that the conversions rest on.

use vstd::prelude::*;
use crate::model::{
    LineView, MultiByteCharInfo, TextLinesView, all_multi_byte_chars, extra_before_char,
    extra_before_column, extra_total, line_at, overcount, overcount_of, tabs_before,
};

verus! {

/// In a well-formed table a later line starts past the end of an earlier
/// one.
pub proof fn lemma_lines_ascending(table: TextLinesView, i: int, j: int)
    requires
        table.wf(),
        0 <= i < j < table.lines.len(),
    ensures
        table.lines[i].start <= table.lines[i].end < table.lines[j].start,
    decreases j - i,
{
    assert(table.lines[i].wf());
    assert(table.lines[j].wf());
    if i + 1 < j {
        lemma_lines_ascending(table, i, j - 1);
        assert(table.lines[j - 1].wf());
        assert(table.lines[j - 1].end + 1 <= table.lines[j].start);
    } else {
        assert(table.lines[i].end + 1 <= table.lines[j].start);
    }
}

/// `line_at` is the line `k` whose start is at or before `byte_index` (or
/// which is the first) and after which every line starts later.
pub proof fn lemma_line_at_is(lines: Seq<LineView>, byte_index: int, k: int)
    requires
        0 <= k < lines.len(),
        k == 0 || lines[k].start <= byte_index,
        forall|i: int| k < i < lines.len() ==> (#[trigger] lines[i]).start > byte_index,
    ensures
        line_at(lines, byte_index) == k,
    decreases lines.len(),
{
    if lines.len() > 1 && !(lines.last().start <= byte_index) {
        let init = lines.drop_last();
        assert forall|i: int| k < i < init.len() implies (#[trigger] init[i]).start
            > byte_index by {
            assert(init[i] == lines[i]);
        }
        assert(init[k] == lines[k]);
        lemma_line_at_is(init, byte_index, k);
    }
}

/// `line_at` names a line of the table; it starts at or before
/// `byte_index` unless it is the first, and the line after it starts
/// later.
pub proof fn lemma_line_at_bounds(table: TextLinesView, byte_index: int)
    requires
        table.wf(),
    ensures
        0 <= line_at(table.lines, byte_index) < table.lines.len(),
        line_at(table.lines, byte_index) > 0 ==> table.lines[line_at(
            table.lines,
            byte_index,
        )].start <= byte_index,
        forall|i: int|
            line_at(table.lines, byte_index) < i < table.lines.len() ==> (
            #[trigger] table.lines[i]).start > byte_index,
{
    lemma_line_at_scan(table, byte_index, table.lines.len() as int);
    assert(table.lines.take(table.lines.len() as int) =~= table.lines);
}

/// The statement of `lemma_line_at_bounds` for the first `n` lines.
proof fn lemma_line_at_scan(table: TextLinesView, byte_index: int, n: int)
    requires
        table.wf(),
        1 <= n <= table.lines.len(),
    ensures
        0 <= line_at(table.lines.take(n), byte_index) < n,
        line_at(table.lines.take(n), byte_index) > 0 ==> table.lines[line_at(
            table.lines.take(n),
            byte_index,
        )].start <= byte_index,
        forall|i: int|
            line_at(table.lines.take(n), byte_index) < i < n ==> (#[trigger] table.lines[i]).start
                > byte_index,
    decreases n,
{
    let lines = table.lines.take(n);
    assert(lines.last() == table.lines[n - 1]);
    if n > 1 && !(lines.last().start <= byte_index) {
        assert(lines.drop_last() =~= table.lines.take(n - 1));
        lemma_line_at_scan(table, byte_index, n - 1);
    }
}

/// Characters that start at or after `byte_index` add nothing to the
/// overcount.
pub proof fn lemma_overcount_prefix(chars: Seq<MultiByteCharInfo>, n: int, byte_index: int)
    requires
        0 <= n <= chars.len(),
        forall|k: int| n <= k < chars.len() ==> (#[trigger] chars[k]).byte_index >= byte_index,
    ensures
        overcount(chars, byte_index) == overcount(chars.take(n), byte_index),
    decreases chars.len(),
{
    if n == chars.len() {
        assert(chars.take(n) =~= chars);
    } else {
        let init = chars.drop_last();
        assert forall|k: int| n <= k < init.len() implies (#[trigger] init[k]).byte_index
            >= byte_index by {
            assert(init[k] == chars[k]);
        }
        lemma_overcount_prefix(init, n, byte_index);
        assert(init.take(n) =~= chars.take(n));
    }
}

/// Characters that lie wholly before `byte_index` add all their bytes but
/// one each to the overcount.
pub proof fn lemma_overcount_whole(chars: Seq<MultiByteCharInfo>, byte_index: int)
    requires
        forall|k: int|
            0 <= k < chars.len() ==> (#[trigger] chars[k]).byte_index + chars[k].length
                <= byte_index && chars[k].length >= 1,
    ensures
        overcount(chars, byte_index) == extra_total(chars),
    decreases chars.len(),
{
    if chars.len() > 0 {
        let init = chars.drop_last();
        assert forall|k: int| 0 <= k < init.len() implies (#[trigger] init[k]).byte_index
            + init[k].length <= byte_index && init[k].length >= 1 by {
            assert(init[k] == chars[k]);
        }
        lemma_overcount_whole(init, byte_index);
    }
}

/// One step of `overcount` along a prefix.
pub proof fn lemma_overcount_step(chars: Seq<MultiByteCharInfo>, j: int, byte_index: int)
    requires
        0 <= j < chars.len(),
    ensures
        overcount(chars.take(j + 1), byte_index) == overcount(chars.take(j), byte_index)
            + overcount_of(chars[j], byte_index),
{
    assert(chars.take(j + 1).drop_last() =~= chars.take(j));
}

/// One step of `extra_total` along a prefix.
pub proof fn lemma_extra_total_step(chars: Seq<MultiByteCharInfo>, j: int)
    requires
        0 <= j < chars.len(),
    ensures
        extra_total(chars.take(j + 1)) == extra_total(chars.take(j)) + chars[j].length - 1,
{
    assert(chars.take(j + 1).drop_last() =~= chars.take(j));
}

/// On a well-formed line the characters' indices on the line ascend, each
/// by at least one.
pub proof fn lemma_char_indices_ascending(line: LineView, j: int, k: int)
    requires
        line.wf(),
        0 <= j < k < line.multi_byte_chars.len(),
    ensures
        line.multi_byte_chars[j].line_char_index < line.multi_byte_chars[k].line_char_index,
    decreases k - j,
{
    let chars = line.multi_byte_chars;
    lemma_extra_total_step(chars, k - 1);
    assert(chars[k - 1].byte_index + chars[k - 1].length <= chars[k].byte_index);
    if j < k - 1 {
        lemma_char_indices_ascending(line, j, k - 1);
    }
}

/// One step of `extra_before_column` along a prefix.
pub proof fn lemma_extra_before_column_step(chars: Seq<MultiByteCharInfo>, j: int, column: int)
    requires
        0 <= j < chars.len(),
    ensures
        extra_before_column(chars.take(j + 1), column) == extra_before_column(
            chars.take(j),
            column,
        ) + if chars[j].line_char_index < column {
            chars[j].length - 1
        } else {
            0
        },
{
    assert(chars.take(j + 1).drop_last() =~= chars.take(j));
}

/// Characters at or after `column` add nothing to the extra bytes before
/// it, and no character takes any away.
pub proof fn lemma_extra_before_column_prefix(chars: Seq<MultiByteCharInfo>, n: int, column: int)
    requires
        0 <= n <= chars.len(),
        forall|k: int| 0 <= k < chars.len() ==> (#[trigger] chars[k]).length >= 1,
    ensures
        extra_before_column(chars, column) >= extra_before_column(chars.take(n), column) >= 0,
        (forall|k: int| n <= k < chars.len() ==> (#[trigger] chars[k]).line_char_index >= column)
            ==> extra_before_column(chars, column) == extra_before_column(chars.take(n), column),
    decreases chars.len(),
{
    if chars.len() == 0 {
        assert(chars.take(n) =~= chars);
    } else if n == chars.len() {
        assert(chars.take(n) =~= chars);
        let init = chars.drop_last();
        assert forall|k: int| 0 <= k < init.len() implies (#[trigger] init[k]).length >= 1 by {
            assert(init[k] == chars[k]);
        }
        lemma_extra_before_column_prefix(init, init.len() as int, column);
    } else {
        let init = chars.drop_last();
        assert forall|k: int| 0 <= k < init.len() implies (#[trigger] init[k]).length >= 1 by {
            assert(init[k] == chars[k]);
        }
        lemma_extra_before_column_prefix(init, n, column);
        assert(init.take(n) =~= chars.take(n));
        if forall|k: int| n <= k < chars.len() ==> (#[trigger] chars[k]).line_char_index >= column {
            assert forall|k: int| n <= k < init.len() implies (#[trigger] init[k]).line_char_index
                >= column by {
                assert(init[k] == chars[k]);
            }
        }
    }
}

/// One step of `tabs_before` along a prefix.
pub proof fn lemma_tabs_before_step(tabs: Seq<usize>, j: int, byte_index: int)
    requires
        0 <= j < tabs.len(),
    ensures
        tabs_before(tabs.take(j + 1), byte_index) == tabs_before(tabs.take(j), byte_index) + if tabs[j]
            < byte_index {
            1int
        } else {
            0int
        },
{
    assert(tabs.take(j + 1).drop_last() =~= tabs.take(j));
}

/// Tabs at or after `byte_index` are not counted.
pub proof fn lemma_tabs_before_prefix(tabs: Seq<usize>, n: int, byte_index: int)
    requires
        0 <= n <= tabs.len(),
        forall|k: int| n <= k < tabs.len() ==> #[trigger] tabs[k] >= byte_index,
    ensures
        tabs_before(tabs, byte_index) == tabs_before(tabs.take(n), byte_index),
    decreases tabs.len(),
{
    if n == tabs.len() {
        assert(tabs.take(n) =~= tabs);
    } else {
        let init = tabs.drop_last();
        assert forall|k: int| n <= k < init.len() implies #[trigger] init[k] >= byte_index by {
            assert(init[k] == tabs[k]);
        }
        lemma_tabs_before_prefix(init, n, byte_index);
        assert(init.take(n) =~= tabs.take(n));
    }
}

/// Tabs that all lie before `byte_index` are all counted.
pub proof fn lemma_tabs_before_all(tabs: Seq<usize>, byte_index: int)
    requires
        forall|k: int| 0 <= k < tabs.len() ==> #[trigger] tabs[k] < byte_index,
    ensures
        tabs_before(tabs, byte_index) == tabs.len(),
    decreases tabs.len(),
{
    if tabs.len() > 0 {
        let init = tabs.drop_last();
        assert forall|k: int| 0 <= k < init.len() implies #[trigger] init[k] < byte_index by {
            assert(init[k] == tabs[k]);
        }
        lemma_tabs_before_all(init, byte_index);
    }
}

/// Moving one byte on, past offset `at`, counts one more tab if `at` is a
/// tab and no more otherwise.
pub proof fn lemma_tabs_before_next(tabs: Seq<usize>, at: int)
    requires
        forall|j: int, k: int| 0 <= j < k < tabs.len() ==> #[trigger] tabs[j] < #[trigger] tabs[k],
    ensures
        0 <= tabs_before(tabs, at + 1) - tabs_before(tabs, at) <= 1,
        (forall|k: int| 0 <= k < tabs.len() ==> #[trigger] tabs[k] != at) ==> tabs_before(
            tabs,
            at + 1,
        ) == tabs_before(tabs, at),
    decreases tabs.len(),
{
    if tabs.len() > 0 {
        let init = tabs.drop_last();
        assert forall|j: int, k: int| 0 <= j < k < init.len() implies #[trigger] init[j]
            < #[trigger] init[k] by {
            assert(init[j] == tabs[j]);
            assert(init[k] == tabs[k]);
        }
        if tabs.last() == at {
            assert forall|k: int| 0 <= k < init.len() implies #[trigger] init[k] < at by {
                assert(init[k] == tabs[k]);
                assert(tabs[k] < tabs[tabs.len() - 1]);
            }
            lemma_tabs_before_all(init, at);
            lemma_tabs_before_all(init, at + 1);
        } else {
            lemma_tabs_before_next(init, at);
            if forall|k: int| 0 <= k < tabs.len() ==> #[trigger] tabs[k] != at {
                assert forall|k: int| 0 <= k < init.len() implies #[trigger] init[k] != at by {
                    assert(init[k] == tabs[k]);
                }
            }
        }
    }
}

/// Moving one byte on, past offset `at`, overstates the characters by one
/// more if `at` is inside a multi-byte character that goes on or ends
/// there, and by no more otherwise.
pub proof fn lemma_overcount_next(chars: Seq<MultiByteCharInfo>, at: int)
    requires
        forall|k: int| 0 <= k < chars.len() ==> (#[trigger] chars[k]).length >= 1,
        forall|j: int, k: int|
            0 <= j < k < chars.len() ==> (#[trigger] chars[j]).byte_index + chars[j].length <= (
            #[trigger] chars[k]).byte_index,
    ensures
        0 <= overcount(chars, at + 1) - overcount(chars, at) <= 1,
        (forall|k: int|
            0 <= k < chars.len() ==> !((#[trigger] chars[k]).byte_index <= at < chars[k].byte_index
                + chars[k].length)) ==> overcount(chars, at + 1) == overcount(chars, at),
    decreases chars.len(),
{
    if chars.len() > 0 {
        let init = chars.drop_last();
        let last = chars.last();
        assert forall|k: int| 0 <= k < init.len() implies (#[trigger] init[k]).length >= 1 by {
            assert(init[k] == chars[k]);
        }
        assert forall|j: int, k: int| 0 <= j < k < init.len() implies (#[trigger] init[j]).byte_index
            + init[j].length <= (#[trigger] init[k]).byte_index by {
            assert(init[j] == chars[j]);
            assert(init[k] == chars[k]);
        }
        if at < last.byte_index {
            lemma_overcount_next(init, at);
            if forall|k: int|
                0 <= k < chars.len() ==> !((#[trigger] chars[k]).byte_index <= at
                    < chars[k].byte_index + chars[k].length) {
                assert forall|k: int| 0 <= k < init.len() implies !((
                #[trigger] init[k]).byte_index <= at < init[k].byte_index + init[k].length) by {
                    assert(init[k] == chars[k]);
                }
            }
        } else {
            assert forall|k: int| 0 <= k < init.len() implies (#[trigger] init[k]).byte_index
                + init[k].length <= at && init[k].length >= 1 by {
                assert(init[k] == chars[k]);
                assert(chars[k].byte_index + chars[k].length <= chars[chars.len() - 1].byte_index);
            }
            lemma_overcount_whole(init, at);
            lemma_overcount_whole(init, at + 1);
            assert(chars[chars.len() - 1] == last);
        }
    }
}

/// On a well-formed line no more tabs than characters lie before an
/// offset.
pub proof fn lemma_tabs_within_column(line: LineView, byte_index: int)
    requires
        line.wf(),
    ensures
        0 <= tabs_before(line.tab_chars, byte_index) <= line.column_of(byte_index),
    decreases byte_index - line.start,
{
    if byte_index <= line.start {
        lemma_overcount_prefix(line.multi_byte_chars, 0, byte_index);
        lemma_tabs_before_prefix(line.tab_chars, 0, byte_index);
        assert(line.multi_byte_chars.take(0) =~= Seq::empty());
        assert(line.tab_chars.take(0) =~= Seq::empty());
    } else {
        let at = byte_index - 1;
        lemma_tabs_within_column(line, at);
        lemma_tabs_before_next(line.tab_chars, at);
        lemma_overcount_next(line.multi_byte_chars, at);
        if exists|j: int| 0 <= j < line.tab_chars.len() && #[trigger] line.tab_chars[j] == at {
            let j = choose|j: int| 0 <= j < line.tab_chars.len() && #[trigger] line.tab_chars[j] == at;
            assert forall|k: int| 0 <= k < line.multi_byte_chars.len() implies !((
            #[trigger] line.multi_byte_chars[k]).byte_index <= at
                < line.multi_byte_chars[k].byte_index + line.multi_byte_chars[k].length) by {
                assert(!(line.multi_byte_chars[k].byte_index <= line.tab_chars[j]
                    < line.multi_byte_chars[k].byte_index + line.multi_byte_chars[k].length));
            }
        }
    }
}

/// The characters are in ascending byte order, none reaching into the
/// next, and none is empty.
pub open spec fn chars_ordered(chars: Seq<MultiByteCharInfo>) -> bool {
    &&& forall|k: int| 0 <= k < chars.len() ==> (#[trigger] chars[k]).length >= 1
    &&& forall|j: int, k: int|
        0 <= j < k < chars.len() ==> (#[trigger] chars[j]).byte_index + chars[j].length <= (
        #[trigger] chars[k]).byte_index
}

/// The multi-byte characters of the first `n + 1` lines are those of the
/// first `n` and then those of line `n`.
pub proof fn lemma_all_chars_step(lines: Seq<LineView>, n: int)
    requires
        0 <= n < lines.len(),
    ensures
        all_multi_byte_chars(lines.take(n + 1)) == all_multi_byte_chars(lines.take(n))
            + lines[n].multi_byte_chars,
{
    assert(lines.take(n + 1).drop_last() =~= lines.take(n));
}

/// The multi-byte characters of the first `m` lines begin those of the
/// first `n`, for `m <= n`.
pub proof fn lemma_all_chars_prefix(lines: Seq<LineView>, m: int, n: int)
    requires
        0 <= m <= n <= lines.len(),
    ensures
        all_multi_byte_chars(lines.take(m)).len() <= all_multi_byte_chars(lines.take(n)).len(),
        all_multi_byte_chars(lines.take(n)).take(
            all_multi_byte_chars(lines.take(m)).len() as int,
        ) == all_multi_byte_chars(lines.take(m)),
    decreases n - m,
{
    let short = all_multi_byte_chars(lines.take(m));
    if m == n {
        assert(short.take(short.len() as int) =~= short);
    } else {
        lemma_all_chars_prefix(lines, m, n - 1);
        lemma_all_chars_step(lines, n - 1);
        let mid = all_multi_byte_chars(lines.take(n - 1));
        assert((mid + lines[n - 1].multi_byte_chars).take(short.len() as int) =~= mid.take(
            short.len() as int,
        ));
    }
}

/// In a well-formed table the multi-byte characters of the first `n`
/// lines are ordered and lie before the end of the last of those lines.
pub proof fn lemma_all_chars_ordered(table: TextLinesView, n: int)
    requires
        table.wf(),
        0 <= n <= table.lines.len(),
    ensures
        chars_ordered(all_multi_byte_chars(table.lines.take(n))),
        forall|k: int|
            0 <= k < all_multi_byte_chars(table.lines.take(n)).len() ==> n >= 1 && (
            #[trigger] all_multi_byte_chars(table.lines.take(n))[k]).byte_index
                + all_multi_byte_chars(table.lines.take(n))[k].length <= table.lines[n - 1].end,
    decreases n,
{
    if n > 0 {
        lemma_all_chars_ordered(table, n - 1);
        lemma_all_chars_step(table.lines, n - 1);
        let before = all_multi_byte_chars(table.lines.take(n - 1));
        let line = table.lines[n - 1];
        let chars = all_multi_byte_chars(table.lines.take(n));
        assert(line.wf());
        if n > 1 {
            lemma_lines_ascending(table, n - 2, n - 1);
        }
        assert forall|k: int| 0 <= k < chars.len() implies (#[trigger] chars[k]).length >= 1
            && chars[k].byte_index + chars[k].length <= line.end && (k >= before.len()
            ==> chars[k].byte_index >= line.start) by {
            if k < before.len() {
                assert(chars[k] == before[k]);
            } else {
                assert(chars[k] == line.multi_byte_chars[k - before.len()]);
            }
        }
        assert forall|j: int, k: int| 0 <= j < k < chars.len() implies (#[trigger] chars[j]).byte_index
            + chars[j].length <= (#[trigger] chars[k]).byte_index by {
            if k < before.len() {
                assert(chars[j] == before[j]);
                assert(chars[k] == before[k]);
            } else if j < before.len() {
                assert(chars[j] == before[j]);
            } else {
                assert(chars[j] == line.multi_byte_chars[j - before.len()]);
                assert(chars[k] == line.multi_byte_chars[k - before.len()]);
            }
        }
    } else {
        assert(table.lines.take(0) =~= Seq::empty());
    }
}

/// In a well-formed table the multi-byte characters of lines `m` and
/// later start at or after the start of line `m`.
pub proof fn lemma_later_chars_start(table: TextLinesView, m: int, n: int, k: int)
    requires
        table.wf(),
        0 <= m < n <= table.lines.len(),
        all_multi_byte_chars(table.lines.take(m)).len() <= k < all_multi_byte_chars(
            table.lines.take(n),
        ).len(),
    ensures
        all_multi_byte_chars(table.lines.take(n))[k].byte_index >= table.lines[m].start,
    decreases n,
{
    lemma_all_chars_step(table.lines, n - 1);
    let before = all_multi_byte_chars(table.lines.take(n - 1));
    let line = table.lines[n - 1];
    if k < before.len() {
        lemma_later_chars_start(table, m, n - 1, k);
    } else {
        assert(line.wf());
        assert(line.multi_byte_chars[k - before.len()].byte_index >= line.start);
        if m < n - 1 {
            lemma_lines_ascending(table, m, n - 1);
        }
    }
}

/// Among ordered characters, a later one has the greater index in the
/// text.
pub proof fn lemma_text_char_indices_ascending(chars: Seq<MultiByteCharInfo>, j: int, k: int)
    requires
        chars_ordered(chars),
        0 <= j < k < chars.len(),
    ensures
        chars[j].byte_index - extra_total(chars.take(j)) < chars[k].byte_index - extra_total(
            chars.take(k),
        ),
    decreases k - j,
{
    lemma_extra_total_step(chars, k - 1);
    assert(chars[k - 1].byte_index + chars[k - 1].length <= chars[k].byte_index);
    if j < k - 1 {
        lemma_text_char_indices_ascending(chars, j, k - 1);
    }
}

/// Characters from the first one whose index in the text is `char_index`
/// or more add nothing to the extra bytes before `char_index`.
pub proof fn lemma_extra_before_char_prefix(chars: Seq<MultiByteCharInfo>, n: int, char_index: int)
    requires
        chars_ordered(chars),
        0 <= n <= chars.len(),
        n < chars.len() ==> chars[n].byte_index - extra_total(chars.take(n)) >= char_index,
    ensures
        extra_before_char(chars, char_index) == extra_before_char(chars.take(n), char_index),
    decreases chars.len(),
{
    if n == chars.len() {
        assert(chars.take(n) =~= chars);
    } else {
        let init = chars.drop_last();
        let last = chars.len() - 1;
        assert(init =~= chars.take(last));
        if n < last {
            lemma_text_char_indices_ascending(chars, n, last);
        }
        assert(chars_ordered(init)) by {
            assert forall|k: int| 0 <= k < init.len() implies (#[trigger] init[k]).length >= 1 by {
                assert(init[k] == chars[k]);
            }
            assert forall|j: int, k: int| 0 <= j < k < init.len() implies (
            #[trigger] init[j]).byte_index + init[j].length <= (#[trigger] init[k]).byte_index by {
                assert(init[j] == chars[j]);
                assert(init[k] == chars[k]);
            }
        }
        assert(init.take(n) =~= chars.take(n));
        lemma_extra_before_char_prefix(init, n, char_index);
    }
}

/// A character index at or past the number of characters is held to the
/// text's length.
pub proof fn lemma_char_index_past_end(table: TextLinesView, char_index: int)
    requires
        table.wf(),
        char_index >= table.char_count(),
    ensures
        table.byte_index_from_char_index(char_index) == table.text_length(),
{
    let n = table.lines.len() as int;
    assert(table.lines.take(n) =~= table.lines);
    lemma_all_chars_ordered(table, n);
    let chars = all_multi_byte_chars(table.lines);
    if chars.len() > 0 {
        assert(chars[chars.len() - 1].byte_index + chars[chars.len() - 1].length
            <= table.lines[n - 1].end);
    }
}

/// Where the multi-byte characters of line `i` stand among those of the
/// whole text: right after those of the lines before it.
pub proof fn lemma_line_chars_in_text(table: TextLinesView, i: int)
    requires
        table.wf(),
        0 <= i < table.lines.len(),
    ensures
        all_multi_byte_chars(table.lines.take(i)).len() + table.lines[i].multi_byte_chars.len()
            == all_multi_byte_chars(table.lines.take(i + 1)).len(),
        all_multi_byte_chars(table.lines.take(i + 1)).len() <= all_multi_byte_chars(
            table.lines,
        ).len(),
        forall|k: int|
            0 <= k < table.lines[i].multi_byte_chars.len() ==> all_multi_byte_chars(
                table.lines,
            )[all_multi_byte_chars(table.lines.take(i)).len() + k]
                == #[trigger] table.lines[i].multi_byte_chars[k],
{
    let n = table.lines.len() as int;
    let all = all_multi_byte_chars(table.lines);
    let before = all_multi_byte_chars(table.lines.take(i));
    let upto = all_multi_byte_chars(table.lines.take(i + 1));
    assert(table.lines.take(n) =~= table.lines);
    lemma_all_chars_step(table.lines, i);
    lemma_all_chars_prefix(table.lines, i + 1, n);
    assert forall|k: int| 0 <= k < table.lines[i].multi_byte_chars.len() implies all[before.len()
        + k] == #[trigger] table.lines[i].multi_byte_chars[k] by {
        assert(all.take(upto.len() as int)[before.len() + k] == upto[before.len() + k]);
    }
}

/// A character whose index in the text is below `char_index` adds its
/// extra bytes to those before `char_index`.
pub proof fn lemma_extra_before_char_step(chars: Seq<MultiByteCharInfo>, n: int, char_index: int)
    requires
        0 <= n < chars.len(),
        chars[n].byte_index - extra_total(chars.take(n)) < char_index,
    ensures
        extra_before_char(chars.take(n + 1), char_index) == extra_total(chars.take(n + 1)),
        extra_total(chars.take(n + 1)) == extra_total(chars.take(n)) + chars[n].length - 1,
{
    assert(chars.take(n + 1).drop_last() =~= chars.take(n));
}

/// A character index that is found before the `n`-th multi-byte character
/// of the text (or, where there is none, before the text's end) lies as
/// far past the end of the one before as its byte offset does.
pub proof fn lemma_char_index_found(
    table: TextLinesView,
    char_index: int,
    n: int,
    last_char: int,
    last_byte: int,
    bound: int,
)
    requires
        table.wf(),
        0 <= n <= all_multi_byte_chars(table.lines).len(),
        extra_before_char(all_multi_byte_chars(table.lines).take(n), char_index) == extra_total(
            all_multi_byte_chars(table.lines).take(n),
        ),
        last_byte - last_char == extra_total(all_multi_byte_chars(table.lines).take(n)),
        last_char <= char_index,
        last_byte + (char_index - last_char) <= bound <= table.text_length(),
        n < all_multi_byte_chars(table.lines).len() ==> all_multi_byte_chars(
            table.lines,
        )[n].byte_index >= bound,
    ensures
        table.byte_index_from_char_index(char_index) == last_byte + (char_index - last_char),
{
    let all = all_multi_byte_chars(table.lines);
    assert(table.lines.take(table.lines.len() as int) =~= table.lines);
    lemma_all_chars_ordered(table, table.lines.len() as int);
    lemma_extra_before_char_prefix(all, n, char_index);
}

/// The first multi-byte character after those of the first `i` lines, if
/// there is one, starts at or after the start of line `i`.
pub proof fn lemma_next_char_start(table: TextLinesView, i: int)
    requires
        table.wf(),
        0 <= i < table.lines.len(),
        all_multi_byte_chars(table.lines.take(i)).len() < all_multi_byte_chars(table.lines).len(),
    ensures
        all_multi_byte_chars(table.lines)[all_multi_byte_chars(
            table.lines.take(i),
        ).len() as int].byte_index >= table.lines[i].start,
{
    let n = table.lines.len() as int;
    assert(table.lines.take(n) =~= table.lines);
    lemma_later_chars_start(table, i, n, all_multi_byte_chars(table.lines.take(i)).len() as int);
}

} // verus!
