//! A text has one line table: two tables that describe the same bytes are
//! equal.

use vstd::prelude::*;
use crate::encoding::{
    content_recorded, describes, has_char_at, has_tab_at, is_continuation, records_char, terminated,
};
use crate::model::{LineView, MultiByteCharInfo, extra_total};

verus! {

/// Each key is less than the next.
pub open spec fn keys_ascending(keys: Seq<int>) -> bool {
    forall|j: int, k: int| 0 <= j < k < keys.len() ==> #[trigger] keys[j] < #[trigger] keys[k]
}

/// Two ascending sequences with the same members are equal.
pub proof fn lemma_same_members(s: Seq<int>, t: Seq<int>)
    requires
        keys_ascending(s),
        keys_ascending(t),
        forall|p: int| s.contains(p) <==> t.contains(p),
    ensures
        s =~= t,
    decreases s.len(),
{
    if s.len() == 0 {
        if t.len() > 0 {
            assert(t.contains(t[0]));
        }
    } else {
        let m = s.last();
        assert(s.contains(m));
        assert(t.contains(m));
        let jt = choose|j: int| 0 <= j < t.len() && t[j] == m;
        let m2 = t.last();
        assert(t.contains(m2));
        assert(s.contains(m2));
        let js = choose|j: int| 0 <= j < s.len() && s[j] == m2;
        assert(m == m2) by {
            if jt < t.len() - 1 {
                assert(t[jt] < t[t.len() - 1]);
            }
            if js < s.len() - 1 {
                assert(s[js] < s[s.len() - 1]);
            }
        }
        let si = s.drop_last();
        let ti = t.drop_last();
        assert forall|p: int| si.contains(p) <==> ti.contains(p) by {
            if si.contains(p) {
                let j = choose|j: int| 0 <= j < si.len() && si[j] == p;
                assert(s[j] == p && s[j] < s[s.len() - 1]);
                assert(s.contains(p));
                let k = choose|k: int| 0 <= k < t.len() && t[k] == p;
                assert(ti[k] == p);
            }
            if ti.contains(p) {
                let j = choose|j: int| 0 <= j < ti.len() && ti[j] == p;
                assert(t[j] == p && t[j] < t[t.len() - 1]);
                assert(t.contains(p));
                let k = choose|k: int| 0 <= k < s.len() && s[k] == p;
                assert(si[k] == p);
            }
        }
        assert(keys_ascending(si)) by {
            assert forall|j: int, k: int| 0 <= j < k < si.len() implies #[trigger] si[j]
                < #[trigger] si[k] by {
                assert(s[j] < s[k]);
            }
        }
        assert(keys_ascending(ti)) by {
            assert forall|j: int, k: int| 0 <= j < k < ti.len() implies #[trigger] ti[j]
                < #[trigger] ti[k] by {
                assert(t[j] < t[k]);
            }
        }
        lemma_same_members(si, ti);
        assert(s =~= si.push(m));
        assert(t =~= ti.push(m2));
    }
}

/// Two records of the character at one offset have one length.
pub proof fn lemma_record_length_unique(bytes: Seq<u8>, c: MultiByteCharInfo, d: MultiByteCharInfo)
    requires
        records_char(bytes, c),
        records_char(bytes, d),
        c.byte_index == d.byte_index,
    ensures
        c.length == d.length,
{
    if c.length < d.length {
        assert(is_continuation(bytes[c.byte_index + c.length]));
    }
    if d.length < c.length {
        assert(is_continuation(bytes[d.byte_index + d.length]));
    }
}

/// Character records that agree in offsets and lengths, on lines with one
/// start, agree in all.
proof fn lemma_chars_equal_upto(a: LineView, b: LineView, n: int)
    requires
        a.wf(),
        b.wf(),
        a.start == b.start,
        a.multi_byte_chars.len() == b.multi_byte_chars.len(),
        0 <= n <= a.multi_byte_chars.len(),
        forall|j: int|
            0 <= j < a.multi_byte_chars.len() ==> (#[trigger] a.multi_byte_chars[j]).byte_index
                == b.multi_byte_chars[j].byte_index && a.multi_byte_chars[j].length
                == b.multi_byte_chars[j].length,
    ensures
        a.multi_byte_chars.take(n) =~= b.multi_byte_chars.take(n),
    decreases n,
{
    if n > 0 {
        lemma_chars_equal_upto(a, b, n - 1);
        let x = a.multi_byte_chars[n - 1];
        let y = b.multi_byte_chars[n - 1];
        assert(x.line_char_index == x.byte_index - a.start - extra_total(
            a.multi_byte_chars.take(n - 1),
        ));
        assert(y.line_char_index == y.byte_index - b.start - extra_total(
            b.multi_byte_chars.take(n - 1),
        ));
        assert(x == y);
        assert forall|j: int| 0 <= j < n implies a.multi_byte_chars.take(n)[j]
            == b.multi_byte_chars.take(n)[j] by {
            if j < n - 1 {
                assert(a.multi_byte_chars.take(n - 1)[j] == b.multi_byte_chars.take(n - 1)[j]);
            }
        }
    }
}

/// Two well-formed lines with the same bounds that record the content of
/// the same bytes are equal.
pub proof fn lemma_line_determined(bytes: Seq<u8>, a: LineView, b: LineView)
    requires
        a.wf(),
        b.wf(),
        content_recorded(bytes, a),
        content_recorded(bytes, b),
        a.start == b.start,
        a.end == b.end,
    ensures
        a == b,
{
    let ta = Seq::new(a.tab_chars.len(), |j: int| a.tab_chars[j] as int);
    let tb = Seq::new(b.tab_chars.len(), |j: int| b.tab_chars[j] as int);
    assert forall|p: int| ta.contains(p) <==> tb.contains(p) by {
        if ta.contains(p) {
            let j = choose|j: int| 0 <= j < ta.len() && ta[j] == p;
            assert(a.tab_chars[j] == p);
            assert(has_tab_at(a.tab_chars, p));
            assert(has_tab_at(b.tab_chars, p));
            let k = choose|k: int| 0 <= k < b.tab_chars.len() && b.tab_chars[k] == p;
            assert(tb[k] == p);
        }
        if tb.contains(p) {
            let j = choose|j: int| 0 <= j < tb.len() && tb[j] == p;
            assert(b.tab_chars[j] == p);
            assert(has_tab_at(b.tab_chars, p));
            assert(has_tab_at(a.tab_chars, p));
            let k = choose|k: int| 0 <= k < a.tab_chars.len() && a.tab_chars[k] == p;
            assert(ta[k] == p);
        }
    }
    assert(keys_ascending(ta)) by {
        assert forall|j: int, k: int| 0 <= j < k < ta.len() implies #[trigger] ta[j]
            < #[trigger] ta[k] by {
            assert(a.tab_chars[j] < a.tab_chars[k]);
        }
    }
    assert(keys_ascending(tb)) by {
        assert forall|j: int, k: int| 0 <= j < k < tb.len() implies #[trigger] tb[j]
            < #[trigger] tb[k] by {
            assert(b.tab_chars[j] < b.tab_chars[k]);
        }
    }
    lemma_same_members(ta, tb);
    assert(a.tab_chars =~= b.tab_chars) by {
        assert forall|j: int| 0 <= j < a.tab_chars.len() implies a.tab_chars[j]
            == b.tab_chars[j] by {
            assert(ta[j] == tb[j]);
        }
    }
    let ca = Seq::new(a.multi_byte_chars.len(), |j: int| a.multi_byte_chars[j].byte_index as int);
    let cb = Seq::new(b.multi_byte_chars.len(), |j: int| b.multi_byte_chars[j].byte_index as int);
    assert forall|p: int| ca.contains(p) <==> cb.contains(p) by {
        if ca.contains(p) {
            let j = choose|j: int| 0 <= j < ca.len() && ca[j] == p;
            assert(a.multi_byte_chars[j].byte_index == p);
            assert(has_char_at(a.multi_byte_chars, p));
            assert(has_char_at(b.multi_byte_chars, p));
            let k = choose|k: int|
                0 <= k < b.multi_byte_chars.len() && b.multi_byte_chars[k].byte_index == p;
            assert(cb[k] == p);
        }
        if cb.contains(p) {
            let j = choose|j: int| 0 <= j < cb.len() && cb[j] == p;
            assert(b.multi_byte_chars[j].byte_index == p);
            assert(has_char_at(b.multi_byte_chars, p));
            assert(has_char_at(a.multi_byte_chars, p));
            let k = choose|k: int|
                0 <= k < a.multi_byte_chars.len() && a.multi_byte_chars[k].byte_index == p;
            assert(ca[k] == p);
        }
    }
    assert(keys_ascending(ca)) by {
        assert forall|j: int, k: int| 0 <= j < k < ca.len() implies #[trigger] ca[j]
            < #[trigger] ca[k] by {
            assert(a.multi_byte_chars[j].byte_index + a.multi_byte_chars[j].length
                <= a.multi_byte_chars[k].byte_index);
        }
    }
    assert(keys_ascending(cb)) by {
        assert forall|j: int, k: int| 0 <= j < k < cb.len() implies #[trigger] cb[j]
            < #[trigger] cb[k] by {
            assert(b.multi_byte_chars[j].byte_index + b.multi_byte_chars[j].length
                <= b.multi_byte_chars[k].byte_index);
        }
    }
    lemma_same_members(ca, cb);
    assert forall|j: int| 0 <= j < a.multi_byte_chars.len() implies (
    #[trigger] a.multi_byte_chars[j]).byte_index == b.multi_byte_chars[j].byte_index
        && a.multi_byte_chars[j].length == b.multi_byte_chars[j].length by {
        assert(ca[j] == cb[j]);
        lemma_record_length_unique(bytes, a.multi_byte_chars[j], b.multi_byte_chars[j]);
    }
    let n = a.multi_byte_chars.len() as int;
    lemma_chars_equal_upto(a, b, n);
    assert(a.multi_byte_chars.take(n) =~= a.multi_byte_chars);
    assert(b.multi_byte_chars.take(n) =~= b.multi_byte_chars);
}

/// Two tables of the same bytes agree on line `i`, and on whether it is
/// the last.
proof fn lemma_line_of_table_determined(
    bytes: Seq<u8>,
    a: Seq<LineView>,
    b: Seq<LineView>,
    i: int,
)
    requires
        describes(a, bytes),
        describes(b, bytes),
        0 <= i < a.len(),
    ensures
        i < b.len(),
        a[i] == b[i],
        i == a.len() - 1 <==> i == b.len() - 1,
        i < a.len() - 1 ==> a[i + 1].start == b[i + 1].start,
    decreases i,
{
    if i > 0 {
        lemma_line_of_table_determined(bytes, a, b, i - 1);
    }
    let x = a[i];
    let y = b[i];
    assert(x.start == y.start);
    assert(x.wf() && y.wf() && content_recorded(bytes, x) && content_recorded(bytes, y));
    if i < a.len() - 1 {
        let xn = a[i + 1];
        assert(terminated(bytes, x, xn.start));
        let na = xn.start - 1;
        if i == b.len() - 1 {
            assert(bytes[na] != 0x0A);
        }
        let yn = b[i + 1];
        assert(terminated(bytes, y, yn.start));
        let nb = yn.start - 1;
        if na < nb {
            if na < y.end {
                assert(bytes[na] != 0x0A);
            }
        }
        if nb < na {
            if nb < x.end {
                assert(bytes[nb] != 0x0A);
            }
        }
    } else {
        if i < b.len() - 1 {
            let yn = b[i + 1];
            assert(terminated(bytes, y, yn.start));
            assert(bytes[yn.start - 1] != 0x0A);
        }
    }
    lemma_line_determined(bytes, x, y);
}

/// The table of a text is determined by its bytes.
pub proof fn lemma_table_determined(bytes: Seq<u8>, a: Seq<LineView>, b: Seq<LineView>)
    requires
        describes(a, bytes),
        describes(b, bytes),
    ensures
        a == b,
{
    lemma_line_of_table_determined(bytes, a, b, a.len() - 1);
    assert forall|i: int| 0 <= i < a.len() implies a[i] == b[i] by {
        lemma_line_of_table_determined(bytes, a, b, i);
    }
    assert(a =~= b);
}

} // verus!
