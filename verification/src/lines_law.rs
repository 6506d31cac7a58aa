//! Laws of line and column numbers: they never go back as the offset grows,
//! and each of `\n`, `\r\n` and a lone `\r` ends exactly one line.
use vstd::prelude::*;
use crate::line_index::{breaks_before, is_line_break, lemma_breaks_prefix, line_col_of};

verus! {

/// Line and column grow with the offset, in (line, column) order; on one
/// line the column moves exactly as far as the offset does.
pub proof fn law_line_col_monotone(src: Seq<u8>, p1: int, p2: int)
    requires
        src.len() <= usize::MAX,
        0 <= p1 <= p2,
    ensures
        ({
            let (l1, c1) = line_col_of(src, p1);
            let (l2, c2) = line_col_of(src, p2);
            &&& l1 < l2 || (l1 == l2 && c1 <= c2)
            &&& l1 == l2 ==> c2 - c1 == p2 - p1
        }),
{
    let m1 = if p1 < src.len() { p1 } else { src.len() as int };
    let m2 = if p2 < src.len() { p2 } else { src.len() as int };
    lemma_breaks_prefix(src, m1, m2);
    let b1 = breaks_before(src, m1);
    let b2 = breaks_before(src, m2);
    if b1.len() == b2.len() {
        assert(b2 =~= b2.take(b1.len() as int));
        if b1.len() > 0 {
            assert(b1.last() == b2.last());
        }
    }
}

proof fn lemma_no_breaks(src: Seq<u8>, k: int)
    requires
        forall|i: int| 0 <= i < k ==> !is_line_break(src, i),
    ensures
        breaks_before(src, k).len() == 0,
    decreases k,
{
    if k > 0 {
        lemma_no_breaks(src, k - 1);
    }
}

/// One line break, written as `\n`, `\r\n` or a lone `\r`, after a line `a`
/// with no break in it: every byte up to the break's end lies on line 1,
/// break bytes included, and the byte after it starts line 2 at column 1.
pub proof fn law_one_line_break(a: Seq<u8>, t: Seq<u8>, b: Seq<u8>)
    requires
        forall|i: int| 0 <= i < a.len() ==> a[i] != 10u8 && a[i] != 13u8,
        t == seq![10u8] || t == seq![13u8, 10u8] || t == seq![13u8],
        !(t == seq![13u8] && b.len() > 0 && b[0] == 10u8),
        a.len() + t.len() + b.len() <= usize::MAX,
    ensures
        line_col_of(a + t + b, (a.len() + t.len()) as int) == (2int, 1int),
        forall|p: int| 0 <= p < a.len() + t.len() ==> (#[trigger] line_col_of(a + t + b, p)).0 == 1,
{
    let src = a + t + b;
    let e = (a.len() + t.len()) as int;
    assert forall|i: int| 0 <= i < e - 1 implies !is_line_break(src, i) by {
        if i < a.len() {
            assert(src[i] == a[i]);
        } else {
            assert(t == seq![13u8, 10u8]);
            assert(src[i] == 13u8);
            assert(src[i + 1] == 10u8);
        }
    }
    lemma_no_breaks(src, e - 1);
    assert(is_line_break(src, e - 1)) by {
        assert(src[e - 1] == t[t.len() - 1]);
        if t == seq![13u8] && e < src.len() {
            assert(src[e] == b[0]);
        }
    }
    assert(breaks_before(src, e) == breaks_before(src, e - 1).push((e - 1) as usize));
    assert forall|p: int| 0 <= p < a.len() + t.len() implies (#[trigger] line_col_of(src, p)).0 == 1 by {
        let m = if p < src.len() { p } else { src.len() as int };
        lemma_breaks_prefix(src, m, e - 1);
    }
    if e < src.len() {
    } else {
        assert(e == src.len());
    }
}

/// Each byte moves the position by one column, except a line break: after a
/// `\n` (wherever it stands, after another `\n` too), or after a `\r` that no
/// `\n` follows, the next offset is column 1 of the next line. The `\r` of a
/// `\r\n` is an ordinary byte of its line; the `\n` after it ends the line.
pub proof fn law_line_col_step(src: Seq<u8>, i: int)
    requires
        src.len() <= usize::MAX,
        0 <= i < src.len(),
    ensures
        ({
            let (l0, c0) = line_col_of(src, i);
            let (l1, c1) = line_col_of(src, i + 1);
            if src[i] == 10u8 || (src[i] == 13u8 && (i + 1 == src.len() || src[i + 1] != 10u8)) {
                l1 == l0 + 1 && c1 == 1
            } else {
                l1 == l0 && c1 == c0 + 1
            }
        }),
{
    let b0 = breaks_before(src, i);
    if is_line_break(src, i) {
        assert(breaks_before(src, i + 1) == b0.push(i as usize));
    } else {
        assert(breaks_before(src, i + 1) == b0);
    }
}

/// Every `\n` ends exactly one line, wherever it stands: the offset after it
/// is one line further down, at column 1.
pub proof fn law_newline_ends_line(src: Seq<u8>, i: int)
    requires
        src.len() <= usize::MAX,
        0 <= i < src.len(),
        src[i] == 10u8,
    ensures
        line_col_of(src, i + 1).0 == line_col_of(src, i).0 + 1,
        line_col_of(src, i + 1).1 == 1,
{
    law_line_col_step(src, i);
}

} // verus!
