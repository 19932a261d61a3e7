//! Finding the blocks of an s-expression text without parsing it into a tree.
//!
//! A scan reads bytes from left to right and keeps how many lists are open and
//! whether it is inside a quoted string, where parentheses do not count.
use crate::text::{bytes_of, cut, lemma_cut_ascii, opt_span, span_of};
use vstd::prelude::*;
use vstd::string::*;
use vstd::utf8::*;

verus! {

/// `(`, `)`, `"` and `\` as bytes.
pub const OPEN: u8 = 40u8;

pub const CLOSE: u8 = 41u8;

pub const QUOTE: u8 = 34u8;

pub const BACKSLASH: u8 = 92u8;

/// What a scan knows before it reads the next byte.
pub struct Scan {
    /// Lists that are open.
    pub depth: int,
    /// Inside a quoted string.
    pub in_string: bool,
    /// The byte just read was a backslash inside a quoted string.
    pub escape: bool,
}

pub open spec fn fresh_scan() -> Scan {
    Scan { depth: 0, in_string: false, escape: false }
}

/// One byte further.
pub open spec fn scan_step(s: Scan, b: u8) -> Scan {
    if s.escape {
        Scan { escape: false, ..s }
    } else if s.in_string {
        if b == BACKSLASH {
            Scan { escape: true, ..s }
        } else if b == QUOTE {
            Scan { in_string: false, ..s }
        } else {
            s
        }
    } else if b == QUOTE {
        Scan { in_string: true, ..s }
    } else if b == OPEN {
        Scan { depth: s.depth + 1, ..s }
    } else if b == CLOSE {
        Scan { depth: if s.depth > 0 { s.depth - 1 } else { 0 }, ..s }
    } else {
        s
    }
}

/// The scan that began at `from`, just before it reads byte `i`.
pub open spec fn scan(h: Seq<u8>, from: int, i: int) -> Scan
    decreases i - from,
{
    if i <= from {
        fresh_scan()
    } else {
        scan_step(scan(h, from, i - 1), h[i - 1])
    }
}

/// Byte `i` is an opening parenthesis that counts, met at depth `d`.
pub open spec fn opens(h: Seq<u8>, from: int, i: int, d: int) -> bool {
    let s = scan(h, from, i);
    &&& h[i] == OPEN
    &&& !s.in_string
    &&& !s.escape
    &&& s.depth == d
}

/// Byte `i` is a closing parenthesis that counts, met at depth `d`.
pub open spec fn closes(h: Seq<u8>, from: int, i: int, d: int) -> bool {
    let s = scan(h, from, i);
    &&& h[i] == CLOSE
    &&& !s.in_string
    &&& !s.escape
    &&& s.depth == d
}

/// The end of the first list that the scan from `from` completes at byte `i` or
/// later: just after the parenthesis that brings the depth from one to zero.
pub open spec fn block_end(h: Seq<u8>, from: int, i: int) -> Option<int>
    decreases h.len() - i,
{
    if i < 0 || i >= h.len() {
        None
    } else if closes(h, from, i, 1) {
        Some(i + 1)
    } else {
        block_end(h, from, i + 1)
    }
}

/// The span of the balanced block at `start`.
pub open spec fn balanced_block(h: Seq<u8>, start: int) -> Option<(int, int)> {
    match block_end(h, start, start) {
        Some(e) => Some((start, e)),
        None => None,
    }
}

/// The last place before `i` at which a list was opened inside the outermost
/// one.
pub open spec fn last_child_open(h: Seq<u8>, i: int) -> int
    decreases i,
{
    if i <= 0 {
        0
    } else if opens(h, 0, i - 1, 1) {
        i - 1
    } else {
        last_child_open(h, i - 1)
    }
}

/// The spans of the lists directly inside the outermost one, among the first
/// `n` bytes, in the order in which they end.
pub open spec fn child_spans_before(h: Seq<u8>, n: int) -> Seq<(int, int)>
    decreases n,
{
    if n <= 0 {
        seq![]
    } else {
        let before = child_spans_before(h, n - 1);
        if closes(h, 0, n - 1, 2) {
            before.push((last_child_open(h, n - 1), n))
        } else {
            before
        }
    }
}

/// The spans of the lists directly inside the outermost one.
pub open spec fn child_spans(h: Seq<u8>) -> Seq<(int, int)> {
    child_spans_before(h, h.len() as int)
}

/// The spans as numbers.
pub open spec fn spans_of(v: Seq<(usize, usize)>) -> Seq<(int, int)> {
    v.map_values(|s: (usize, usize)| span_of(s))
}

/// An executable scan.
#[derive(Clone, Copy)]
struct Scanner {
    depth: usize,
    in_string: bool,
    escape: bool,
}

impl Scanner {
    spec fn is(self, s: Scan) -> bool {
        self.depth == s.depth && self.in_string == s.in_string && self.escape == s.escape
    }

    fn step(self, b: u8) -> (r: Scanner)
        requires
            self.depth < usize::MAX,
        ensures
            forall|s: Scan| self.is(s) ==> r.is(#[trigger] scan_step(s, b)),
    {
        let mut r = self;
        if self.escape {
            r.escape = false;
        } else if self.in_string {
            if b == BACKSLASH {
                r.escape = true;
            } else if b == QUOTE {
                r.in_string = false;
            }
        } else if b == QUOTE {
            r.in_string = true;
        } else if b == OPEN {
            r.depth = self.depth + 1;
        } else if b == CLOSE {
            if self.depth > 0 {
                r.depth = self.depth - 1;
            }
        }
        r
    }
}

/// A scan opens at most one list per byte.
proof fn lemma_scan_depth(h: Seq<u8>, from: int, i: int)
    requires
        from <= i,
    ensures
        0 <= scan(h, from, i).depth <= i - from,
    decreases i - from,
{
    if i > from {
        lemma_scan_depth(h, from, i - 1);
    }
}

/// What `block_end` answers, in terms of where lists close.
pub proof fn lemma_block_end(h: Seq<u8>, from: int, i: int)
    requires
        0 <= i,
    ensures
        match block_end(h, from, i) {
            Some(e) => {
                &&& i < e <= h.len()
                &&& closes(h, from, e - 1, 1)
                &&& forall|j: int| i <= j < e - 1 ==> !closes(h, from, j, 1)
            },
            None => forall|j: int| i <= j < h.len() ==> !closes(h, from, j, 1),
        },
    decreases h.len() - i,
{
    if i < h.len() && !closes(h, from, i, 1) {
        lemma_block_end(h, from, i + 1);
    }
}

/// Byte span of the balanced `(...)` block at `start`; `None` where it is never
/// closed.
pub fn find_balanced_block(content: &str, start: usize) -> (r: Option<(usize, usize)>)
    ensures
        opt_span(r) == balanced_block(bytes_of(content@), start as int),
{
    let bytes = content.as_bytes();
    let n: usize = bytes.len();
    let ghost h = bytes_of(content@);
    let mut st = Scanner { depth: 0, in_string: false, escape: false };
    let mut i: usize = start;
    while i < n
        invariant
            h == bytes_of(content@),
            bytes@ == h,
            n == h.len(),
            start <= i,
            st.is(scan(h, start as int, i as int)),
            balanced_block(h, start as int) == (match block_end(h, start as int, i as int) {
                Some(e) => Some((start as int, e)),
                None => None,
            }),
        decreases n - i,
    {
        let b: u8 = bytes[i];
        if b == CLOSE && !st.in_string && !st.escape && st.depth == 1 {
            return Some((start, i + 1));
        }
        proof {
            lemma_scan_depth(h, start as int, i as int);
        }
        st = st.step(b);
        i = i + 1;
    }
    None
}

/// Byte spans of all depth-1 sublists inside a balanced `(head ...)` block,
/// quote-aware so parens inside strings don't confuse the depth count.
pub fn direct_child_spans(block: &str) -> (spans: Vec<(usize, usize)>)
    ensures
        spans_of(spans@) == child_spans(bytes_of(block@)),
{
    let bytes = block.as_bytes();
    let n: usize = bytes.len();
    let ghost h = bytes_of(block@);
    let mut spans: Vec<(usize, usize)> = Vec::new();
    let mut st = Scanner { depth: 0, in_string: false, escape: false };
    let mut child_start: usize = 0;
    let mut i: usize = 0;
    assert(spans_of(spans@) =~= child_spans_before(h, 0));
    while i < n
        invariant
            h == bytes_of(block@),
            bytes@ == h,
            n == h.len(),
            i <= n,
            st.is(scan(h, 0, i as int)),
            child_start == last_child_open(h, i as int),
            spans_of(spans@) == child_spans_before(h, i as int),
        decreases n - i,
    {
        let b: u8 = bytes[i];
        if !st.in_string && !st.escape {
            if b == OPEN && st.depth == 1 {
                child_start = i;
            } else if b == CLOSE && st.depth == 2 {
                spans.push((child_start, i + 1));
                assert(spans_of(spans@) =~= child_spans_before(h, i as int).push(
                    (child_start as int, i + 1),
                ));
            }
        }
        proof {
            lemma_scan_depth(h, 0, i as int);
        }
        st = st.step(b);
        i = i + 1;
    }
    spans
}

/// While the depth stays at two or more, the list that was last opened inside
/// the outermost one is still open.
proof fn lemma_last_child_open(h: Seq<u8>, i: int)
    requires
        0 <= i,
        scan(h, 0, i).depth >= 2,
    ensures
        0 <= last_child_open(h, i) < i,
        opens(h, 0, last_child_open(h, i), 1),
        forall|m: int| last_child_open(h, i) < m <= i ==> (#[trigger] scan(h, 0, m)).depth >= 2,
    decreases i,
{
    if i == 0 {
    } else if opens(h, 0, i - 1, 1) {
    } else {
        lemma_scan_depth(h, 0, i - 1);
        assert(scan(h, 0, i) == scan_step(scan(h, 0, i - 1), h[i - 1]));
        lemma_last_child_open(h, i - 1);
    }
}

/// A scan that begins at a child is one level less deep than the one that began
/// at the block.
proof fn lemma_scan_shift(h: Seq<u8>, j: int, m: int)
    requires
        0 <= j < m,
        opens(h, 0, j, 1),
        forall|k: int| j < k <= m ==> (#[trigger] scan(h, 0, k)).depth >= 2,
    ensures
        scan(h, j, m) == (Scan { depth: scan(h, 0, m).depth - 1, ..scan(h, 0, m) }),
    decreases m - j,
{
    assert(scan(h, 0, m) == scan_step(scan(h, 0, m - 1), h[m - 1]));
    assert(scan(h, j, m) == scan_step(scan(h, j, m - 1), h[m - 1]));
    if m == j + 1 {
        assert(scan(h, j, j) == fresh_scan());
    } else {
        lemma_scan_shift(h, j, m - 1);
    }
}

/// `(s, e)` is a list directly inside the outermost one.
pub open spec fn is_child(h: Seq<u8>, s: int, e: int) -> bool {
    &&& 0 <= s < e <= h.len()
    &&& opens(h, 0, s, 1)
    &&& closes(h, 0, e - 1, 2)
    &&& forall|m: int| s < m < e ==> (#[trigger] scan(h, 0, m)).depth >= 2
}

proof fn lemma_child_spans_before(h: Seq<u8>, n: int)
    requires
        0 <= n <= h.len(),
    ensures
        forall|k: int|
            0 <= k < child_spans_before(h, n).len() ==> {
                let c = #[trigger] child_spans_before(h, n)[k];
                is_child(h, c.0, c.1) && c.1 <= n
            },
        forall|k: int, l: int|
            0 <= k < l < child_spans_before(h, n).len() ==> (
            #[trigger] child_spans_before(h, n)[k]).1 <= (#[trigger] child_spans_before(h, n)[l]).0,
        forall|i: int|
            0 <= i < n && closes(h, 0, i, 2) ==> exists|k: int|
                0 <= k < child_spans_before(h, n).len() && (#[trigger] child_spans_before(
                    h,
                    n,
                )[k]).1 == i + 1,
    decreases n,
{
    if n > 0 {
        lemma_child_spans_before(h, n - 1);
        let before = child_spans_before(h, n - 1);
        let now = child_spans_before(h, n);
        let i = n - 1;
        if closes(h, 0, i, 2) {
            lemma_last_child_open(h, i);
            let j = last_child_open(h, i);
            assert(now == before.push((j, n)));
            assert(is_child(h, j, n));
            assert forall|k: int, l: int| 0 <= k < l < now.len() implies (#[trigger] now[k]).1 <= (
            #[trigger] now[l]).0 by {
                if l == now.len() - 1 {
                    let e = before[k].1;
                    assert(now[k] == before[k]);
                    assert(is_child(h, before[k].0, e));
                    assert(scan(h, 0, e) == scan_step(scan(h, 0, e - 1), h[e - 1]));
                    assert(scan(h, 0, e).depth == 1);
                    if j < e {
                        assert(scan(h, 0, e).depth >= 2);
                    }
                } else {
                    assert(now[k] == before[k] && now[l] == before[l]);
                }
            }
            assert forall|k: int| 0 <= k < now.len() implies {
                let c = #[trigger] now[k];
                is_child(h, c.0, c.1) && c.1 <= n
            } by {
                if k < before.len() {
                    assert(now[k] == before[k]);
                }
            }
            assert forall|m: int| 0 <= m < n && closes(h, 0, m, 2) implies exists|k: int|
                0 <= k < now.len() && (#[trigger] now[k]).1 == m + 1 by {
                if m == i {
                    assert(now[now.len() - 1].1 == m + 1);
                } else {
                    let k = choose|k: int| 0 <= k < before.len() && (#[trigger] before[k]).1 == m + 1;
                    assert(now[k].1 == m + 1);
                }
            }
        } else {
            assert(now == before);
        }
    }
}

/// The children of a block are lists directly inside it, they stand one after
/// the other without overlap, and no list directly inside the block is left
/// out.
pub proof fn law_children_are_the_direct_lists(h: Seq<u8>)
    ensures
        forall|k: int|
            0 <= k < child_spans(h).len() ==> {
                let c = #[trigger] child_spans(h)[k];
                is_child(h, c.0, c.1)
            },
        forall|k: int, l: int|
            0 <= k < l < child_spans(h).len() ==> (#[trigger] child_spans(h)[k]).1 <= (
            #[trigger] child_spans(h)[l]).0,
        forall|i: int|
            0 <= i < h.len() && closes(h, 0, i, 2) ==> exists|k: int|
                0 <= k < child_spans(h).len() && (#[trigger] child_spans(h)[k]).1 == i + 1,
{
    let n = h.len() as int;
    lemma_child_spans_before(h, n);
    assert forall|i: int| 0 <= i < n && closes(h, 0, i, 2) implies exists|k: int|
        0 <= k < child_spans(h).len() && (#[trigger] child_spans(h)[k]).1 == i + 1 by {
        let k = choose|k: int|
            0 <= k < child_spans_before(h, n).len() && (#[trigger] child_spans_before(h, n)[k]).1
                == i + 1;
        assert(child_spans(h)[k].1 == i + 1);
    }
}

/// Each child of a block is the balanced block at its own first byte.
pub proof fn law_child_is_balanced_block(h: Seq<u8>, k: int)
    requires
        0 <= k < child_spans(h).len(),
    ensures
        balanced_block(h, child_spans(h)[k].0) == Some(child_spans(h)[k]),
{
    law_children_are_the_direct_lists(h);
    let (s, e) = child_spans(h)[k];
    assert(is_child(h, s, e));
    lemma_scan_shift(h, s, e - 1);
    assert(closes(h, s, e - 1, 1));
    lemma_block_end(h, s, s);
    assert forall|j: int| s <= j < e - 1 implies !closes(h, s, j, 1) by {
        if j > s {
            lemma_scan_shift(h, s, j);
            assert(scan(h, 0, j + 1) == scan_step(scan(h, 0, j), h[j]));
            assert(scan(h, 0, j + 1).depth >= 2);
        }
    }
}

/// A child may be cut out of its block.
pub proof fn lemma_child_cut(h: Seq<u8>, k: int)
    requires
        valid_utf8(h),
        0 <= k < child_spans(h).len(),
    ensures
        0 <= child_spans(h)[k].0 < child_spans(h)[k].1 <= h.len(),
        h[child_spans(h)[k].0] == OPEN,
        h[child_spans(h)[k].1 - 1] == CLOSE,
        cut(h, child_spans(h)[k].0),
        cut(h, child_spans(h)[k].1),
{
    law_children_are_the_direct_lists(h);
    let (s, e) = child_spans(h)[k];
    assert(is_child(h, s, e));
    lemma_cut_ascii(h, s);
    lemma_cut_ascii(h, e - 1);
}

/// A balanced block ends after a parenthesis, so its end may be cut.
pub proof fn lemma_balanced_cut(h: Seq<u8>, start: int)
    requires
        valid_utf8(h),
        0 <= start,
        balanced_block(h, start) is Some,
    ensures
        start < balanced_block(h, start).unwrap().1 <= h.len(),
        h[balanced_block(h, start).unwrap().1 - 1] == CLOSE,
        cut(h, balanced_block(h, start).unwrap().1),
{
    lemma_block_end(h, start, start);
    lemma_cut_ascii(h, balanced_block(h, start).unwrap().1 - 1);
}

} // verus!
