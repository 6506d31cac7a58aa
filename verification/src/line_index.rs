use vstd::prelude::*;

verus! {

/// Byte `i` of `src` ends a line: a `\n`, or a `\r` not followed by `\n`.
pub open spec fn is_line_break(src: Seq<u8>, i: int) -> bool {
    &&& 0 <= i < src.len()
    &&& (src[i] == 10u8 || (src[i] == 13u8 && (i + 1 == src.len() || src[i + 1] != 10u8)))
}

/// The offsets of the line breaks among the first `n` bytes of `src`, in order.
pub open spec fn breaks_before(src: Seq<u8>, n: int) -> Seq<usize>
    decreases n,
{
    if n <= 0 {
        Seq::empty()
    } else if is_line_break(src, n - 1) {
        breaks_before(src, n - 1).push((n - 1) as usize)
    } else {
        breaks_before(src, n - 1)
    }
}

/// Every line break offset is below `n`, and the offsets increase.
pub proof fn lemma_breaks_before_sorted(src: Seq<u8>, n: int)
    requires
        n <= src.len() <= usize::MAX,
    ensures
        forall|k: int| 0 <= k < breaks_before(src, n).len() ==> breaks_before(src, n)[k] < n,
        forall|a: int, b: int|
            0 <= a < b < breaks_before(src, n).len() ==> breaks_before(src, n)[a] < breaks_before(src, n)[b],
    decreases n,
{
    if n > 0 {
        lemma_breaks_before_sorted(src, n - 1);
        let prev = breaks_before(src, n - 1);
        if is_line_break(src, n - 1) {
            assert(breaks_before(src, n) == prev.push((n - 1) as usize));
        }
    }
}

/// There are no more line breaks than bytes.
pub proof fn lemma_breaks_before_len(src: Seq<u8>, n: int)
    ensures
        breaks_before(src, n).len() <= if n < 0 { 0 } else { n },
    decreases n,
{
    if n > 0 {
        lemma_breaks_before_len(src, n - 1);
    }
}

/// The breaks among the first `n` bytes are a prefix of those among the
/// first `n2`, and the rest lie at or after `n`.
pub proof fn lemma_breaks_prefix(src: Seq<u8>, n: int, n2: int)
    requires
        0 <= n <= n2 <= src.len() <= usize::MAX,
    ensures
        breaks_before(src, n).len() <= breaks_before(src, n2).len(),
        breaks_before(src, n2).take(breaks_before(src, n).len() as int) == breaks_before(src, n),
        forall|k: int|
            breaks_before(src, n).len() <= k < breaks_before(src, n2).len() ==> breaks_before(src, n2)[k] >= n,
    decreases n2 - n,
{
    let c = breaks_before(src, n).len() as int;
    if n2 > n {
        lemma_breaks_prefix(src, n, n2 - 1);
        if is_line_break(src, n2 - 1) {
            assert(breaks_before(src, n2).take(c) =~= breaks_before(src, n2 - 1).take(c));
        }
    } else {
        assert(breaks_before(src, n).take(c) =~= breaks_before(src, n));
    }
}

/// The 1-based line of offset `pos` (one more than the line breaks before
/// it) and its 1-based column (counted from the byte after the last of them).
pub open spec fn line_col_of(src: Seq<u8>, pos: int) -> (int, int) {
    let b = breaks_before(src, if pos < src.len() { pos } else { src.len() as int });
    (b.len() + 1int, pos + 1 - if b.len() == 0 { 0int } else { b.last() + 1 })
}

/// The column of `pos` can be written: `pos` is below `usize::MAX`, or a
/// line break comes before it, so its column counts from after that break.
pub open spec fn col_fits(src: Seq<u8>, pos: int) -> bool {
    pos < usize::MAX || breaks_before(src, src.len() as int).len() > 0
}

/// Maps byte offsets to 1-based (line, column). Built from newline offsets.
pub struct LineIndex {
    newlines: Vec<usize>,
    src: Ghost<Seq<u8>>,
}

impl LineIndex {
    /// The offsets of the line breaks, in increasing order.
    pub closed spec fn breaks(&self) -> Seq<usize> {
        self.newlines@
    }

    /// The input the index was built from.
    pub closed spec fn source(&self) -> Seq<u8> {
        self.src@
    }

    pub closed spec fn wf(&self) -> bool {
        &&& self.src@.len() <= isize::MAX
        &&& self.newlines@ == breaks_before(self.src@, self.src@.len() as int)
        &&& self.newlines@.len() <= isize::MAX
        &&& forall|a: int, b: int| 0 <= a < b < self.newlines@.len() ==> self.newlines@[a] < self.newlines@[b]
        &&& forall|k: int| 0 <= k < self.newlines@.len() ==> self.newlines@[k] < self.src@.len()
    }

    /// Records every `\n`, every `\r\n` (at its `\n`) and every lone `\r`.
    pub fn new(src: &[u8]) -> (idx: Self)
        requires
            src@.len() <= isize::MAX,
        ensures
            idx.wf(),
            idx.source() == src@,
            idx.breaks() == breaks_before(src@, src@.len() as int),
    {
        let mut newlines: Vec<usize> = Vec::new();
        let mut i: usize = 0;
        while i < src.len()
            invariant
                i <= src.len(),
                newlines@ == breaks_before(src@, i as int),
            decreases src.len() - i,
        {
            let b = src[i];
            if b == 10u8 {
                newlines.push(i);
            } else if b == 13u8 {
                if i + 1 < src.len() && src[i + 1] == 10u8 {
                    i = i + 1;
                    assert(breaks_before(src@, i as int) == breaks_before(src@, i - 1));
                }
                newlines.push(i);
            }
            i = i + 1;
        }
        proof {
            lemma_breaks_before_sorted(src@, src@.len() as int);
            lemma_breaks_before_len(src@, src@.len() as int);
        }
        LineIndex { newlines, src: Ghost(src@) }
    }

    /// Line `l` (1-based) is one more than the number of line breaks before
    /// `pos`; the column counts from the byte after the last of them.
    pub fn line_col(&self, pos: usize) -> (lc: (usize, usize))
        requires
            self.wf(),
            col_fits(self.source(), pos as int),
        ensures
            1 <= lc.0 <= self.breaks().len() + 1,
            forall|k: int| 0 <= k < lc.0 - 1 ==> self.breaks()[k] < pos,
            forall|k: int| lc.0 - 1 <= k < self.breaks().len() ==> self.breaks()[k] >= pos,
            lc.1 == pos + 1 - (if lc.0 == 1 { 0 } else { self.breaks()[lc.0 - 2] + 1 }),
            (lc.0 as int, lc.1 as int) == line_col_of(self.source(), pos as int),
    {
        let mut lo: usize = 0;
        let mut hi: usize = self.newlines.len();
        while lo < hi
            invariant
                self.wf(),
                lo <= hi <= self.newlines@.len(),
                forall|k: int| 0 <= k < lo ==> self.newlines@[k] < pos,
                forall|k: int| hi <= k < self.newlines@.len() ==> self.newlines@[k] >= pos,
            decreases hi - lo,
        {
            let mid = lo + (hi - lo) / 2;
            if self.newlines[mid] < pos {
                lo = mid + 1;
            } else {
                hi = mid;
            }
        }
        let line = lo;
        proof {
            let src = self.src@;
            let m = if pos < src.len() { pos as int } else { src.len() as int };
            lemma_breaks_prefix(src, m, src.len() as int);
            let b = breaks_before(src, m);
            if (b.len() as int) < (lo as int) {
                assert(self.newlines@[b.len() as int] >= m);
                assert(self.newlines@[b.len() as int] < pos);
                assert(self.newlines@[b.len() as int] < src.len());
            } else if (lo as int) < (b.len() as int) {
                assert(self.newlines@.take(b.len() as int)[lo as int] == b[lo as int]);
                lemma_breaks_before_sorted(src, m);
                assert(b[lo as int] < m);
            }
            assert(lo == b.len());
            if lo > 0 {
                assert(self.newlines@.take(b.len() as int)[lo - 1] == b[lo - 1]);
            }
            if pos == usize::MAX {
                assert(m == src.len());
                assert(self.newlines@.take(b.len() as int) =~= self.newlines@);
                assert(lo > 0);
            }
        }
        let line_start = if line == 0 { 0 } else { self.newlines[line - 1] + 1 };
        (line + 1, pos - line_start + 1)
    }
}

} // verus!
