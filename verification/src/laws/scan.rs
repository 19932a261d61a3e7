//! How the blocks of a text are told apart without parsing it.
use crate::property::escaped;
use crate::scan::{
    balanced_block, child_spans, closes, is_child, law_children_are_the_direct_lists,
    lemma_block_end, scan, Scan,
};
use crate::steady::{lemma_scan_run, run};
use crate::text::bytes_of;
use vstd::prelude::*;
use vstd::string::*;

verus! {

/// A scan that is outside of strings, with `d` lists open.
pub open spec fn is_outside(s: Scan, d: int) -> bool {
    s.depth == d && !s.in_string && !s.escape
}

/// Outside of strings an opening parenthesis opens a list, a closing one closes
/// one, and nothing else does, whatever it is.
pub proof fn law_parentheses_open_and_close_lists(h: Seq<u8>, from: int, i: int, d: int)
    requires
        0 <= from <= i < h.len(),
        is_outside(scan(h, from, i), d),
        d >= 0,
    ensures
        is_outside(scan(h, from, from), 0),
        h[i] == 40 ==> is_outside(scan(h, from, i + 1), d + 1),
        h[i] == 41 && d > 0 ==> is_outside(scan(h, from, i + 1), d - 1),
        h[i] != 40 && h[i] != 41 && h[i] != 34 ==> is_outside(scan(h, from, i + 1), d),
{
}

/// A string in quotes, whatever it says, leaves the lists as they were.
pub proof fn law_parentheses_in_quotes_do_not_count(
    h: Seq<u8>,
    from: int,
    i: int,
    d: int,
    v: Seq<char>,
)
    requires
        0 <= from <= i,
        i + bytes_of(escaped(v)).len() + 2 <= h.len(),
        is_outside(scan(h, from, i), d),
        h[i] == 34,
        h.subrange(i + 1, i + 1 + bytes_of(escaped(v)).len()) == bytes_of(escaped(v)),
        h[i + 1 + bytes_of(escaped(v)).len()] == 34,
    ensures
        is_outside(scan(h, from, i + bytes_of(escaped(v)).len() + 2), d),
        forall|j: int|
            i < j <= i + 1 + bytes_of(escaped(v)).len() ==> (#[trigger] scan(h, from, j)).in_string,
{
    let n = bytes_of(escaped(v)).len() as int;
    crate::property::lemma_escaped_end(h, i + 1, v);
    crate::offsets::lemma_inside(h, i + 1, d);
    assert(scan(h, from, i + 1) == crate::offsets::quoting(d));
    assert forall|j: int| i < j <= i + 1 + n implies (#[trigger] scan(h, from, j)).in_string by {
        lemma_scan_run(h, from, i + 1, j);
        assert(run(crate::offsets::quoting(d), h.subrange(i + 1, j)).in_string);
    }
    lemma_scan_run(h, from, i + 1, i + 1 + n);
}

/// A block ends where the list that it opens is closed, for the first time.
pub proof fn law_a_block_ends_where_its_list_is_closed(h: Seq<u8>, s: int)
    requires
        0 <= s,
    ensures
        match balanced_block(h, s) {
            Some(b) => {
                &&& b.0 == s
                &&& s < b.1 <= h.len()
                &&& h[b.1 - 1] == 41
                &&& is_outside(scan(h, s, b.1 - 1), 1)
                &&& forall|j: int|
                    s <= j < b.1 - 1 ==> !(h[j] == 41 && #[trigger] is_outside(scan(h, s, j), 1))
            },
            None => forall|j: int|
                s <= j < h.len() ==> !(h[j] == 41 && #[trigger] is_outside(scan(h, s, j), 1)),
        },
{
    lemma_block_end(h, s, s);
    assert forall|j: int| s <= j && h[j] == 41 && #[trigger] is_outside(
        scan(h, s, j),
        1,
    ) implies closes(h, s, j, 1) by {}
}

/// The list from `s` to `e` stands directly inside the outermost one.
pub open spec fn is_direct_list(h: Seq<u8>, s: int, e: int) -> bool {
    &&& 0 <= s < e <= h.len()
    &&& h[s] == 40
    &&& is_outside(scan(h, 0, s), 1)
    &&& h[e - 1] == 41
    &&& is_outside(scan(h, 0, e - 1), 2)
    &&& forall|m: int| s < m < e ==> (#[trigger] scan(h, 0, m)).depth >= 2
}

/// The children of a block are exactly the lists directly inside it, in their
/// order.
pub proof fn law_children_are_exactly_the_direct_lists(h: Seq<u8>, s: int, e: int)
    ensures
        is_direct_list(h, s, e) <==> exists|k: int|
            0 <= k < child_spans(h).len() && #[trigger] child_spans(h)[k] == (s, e),
        forall|k: int, l: int|
            0 <= k < l < child_spans(h).len() ==> (#[trigger] child_spans(h)[k]).1 <= (
            #[trigger] child_spans(h)[l]).0,
{
    law_children_are_the_direct_lists(h);
    if is_direct_list(h, s, e) {
        assert(closes(h, 0, e - 1, 2));
        let k = choose|k: int|
            0 <= k < child_spans(h).len() && (#[trigger] child_spans(h)[k]).1 == e - 1 + 1;
        let c = child_spans(h)[k];
        assert(is_child(h, c.0, c.1));
        if c.0 < s {
            assert(scan(h, 0, s).depth >= 2);
        } else if s < c.0 {
            assert(scan(h, 0, c.0).depth >= 2);
        }
        assert(child_spans(h)[k] == (s, e));
    }
    if exists|k: int| 0 <= k < child_spans(h).len() && #[trigger] child_spans(h)[k] == (s, e) {
        let k = choose|k: int| 0 <= k < child_spans(h).len() && #[trigger] child_spans(h)[k] == (s, e);
        assert(is_child(h, s, e));
    }
}

} // verus!
