//! Footprints that were added to a board are found on it.
use crate::board::{close_of, lemma_close_of};
use crate::components::grown;
use crate::footprint::{footprint_from, footprint_span};
use crate::moving::lemma_block_alone;
use crate::property::{property_mark, property_value, says, says_at};
use crate::scan::{balanced_block, lemma_block_end};
use crate::text::{bytes_of, find_at, lemma_ascii_byte, lemma_find, lemma_rfind, occurs_at};
use crate::undo::lemma_block_same;
use vstd::prelude::*;
use vstd::string::*;
use vstd::utf8::*;

verus! {

/// Each block that begins like a footprint is closed before the last
/// parenthesis of the board.
pub open spec fn footprints_closed(h: Seq<u8>) -> bool {
    forall|p: int|
        #[trigger] occurs_at(h, bytes_of("(footprint"@), p) ==> (balanced_block(h, p) matches Some(b)
            && b.1 <= close_of(h))
}

/// The text is one footprint block, with this value of its Reference property.
pub open spec fn is_footprint(t: Seq<u8>, reference: Seq<char>) -> bool {
    &&& occurs_at(t, bytes_of("(footprint"@), 0)
    &&& balanced_block(t, 0) == Some((0int, t.len() as int))
    &&& property_value(t, "Reference"@) == Some(reference)
}

proof fn lemma_word()
    ensures
        bytes_of("(footprint"@).len() == 10,
        forall|k: int|
            0 <= k < 10 ==> {
                let b = #[trigger] bytes_of("(footprint"@)[k];
                b != 10 && b != 32 && b != 41
            },
{
    reveal_strlit("(footprint");
    is_ascii_chars_encode_utf8("(footprint"@);
}

/// Up to the last parenthesis, footprints begin in the grown board where they
/// began before.
proof fn lemma_begin_alike(h: Seq<u8>, r: Seq<u8>, c: int, j: int)
    requires
        0 <= j < c <= h.len(),
        c < r.len(),
        c < h.len() ==> h[c] == 41,
        r[c] == 10,
        h.subrange(0, c) == r.subrange(0, c),
    ensures
        occurs_at(h, bytes_of("(footprint"@), j) == occurs_at(r, bytes_of("(footprint"@), j),
{
    let pat = bytes_of("(footprint"@);
    lemma_word();
    if occurs_at(h, pat, j) || occurs_at(r, pat, j) {
        if j + 10 > c {
            if occurs_at(h, pat, j) {
                assert(h.subrange(j, j + 10)[c - j] == h[c]);
                assert(pat[c - j] != 41);
            } else {
                assert(r.subrange(j, j + 10)[c - j] == r[c]);
                assert(pat[c - j] != 10);
            }
        }
        assert(h.subrange(j, j + 10) =~= r.subrange(j, j + 10)) by {
            assert forall|k: int| j <= k < j + 10 implies #[trigger] h[k] == r[k] by {
                assert(h.subrange(0, c)[k] == h[k]);
                assert(r.subrange(0, c)[k] == r[k]);
            }
        }
    }
}

/// The search passes over the footprints that the board had and comes to the
/// new one.
proof fn lemma_search(h: Seq<u8>, r: Seq<u8>, reference: Seq<char>, c: int, e: int, pos: int)
    requires
        valid_utf8(h),
        c == close_of(h),
        0 <= pos <= c <= h.len(),
        c < h.len() ==> h[c] == 41,
        c + 13 <= e <= r.len(),
        footprints_closed(h),
        footprint_from(h, reference, pos) is None,
        h.subrange(0, c) == r.subrange(0, c),
        r[c] == 10,
        r[c + 1] == 32,
        r[c + 2] == 32,
        occurs_at(r, bytes_of("(footprint"@), c + 3),
        balanced_block(r, c + 3) == Some((c + 3, e)),
        says(r.subrange(c + 3, e), "Reference"@, reference),
    ensures
        footprint_from(r, reference, pos) == Some((c + 3, e)),
    decreases c - pos,
{
    let pat = bytes_of("(footprint"@);
    lemma_word();
    lemma_find(r, pat, pos);
    lemma_find(h, pat, pos);
    let start = find_at(r, pat, pos).unwrap();
    assert(start <= c + 3);
    assert(r.subrange(start, start + 10)[0] == r[start]);
    if start < c {
        lemma_begin_alike(h, r, c, start);
        let first = find_at(h, pat, pos).unwrap();
        if first < start {
            lemma_begin_alike(h, r, c, first);
        }
        assert(first == start);
        let b = balanced_block(h, start).unwrap();
        lemma_block_end(h, start, start);
        lemma_block_same(h, r, start, c);
        assert(r.subrange(b.0, b.1) =~= h.subrange(b.0, b.1)) by {
            assert forall|k: int| b.0 <= k < b.1 implies #[trigger] r[k] == h[k] by {
                assert(h.subrange(0, c)[k] == h[k]);
                assert(r.subrange(0, c)[k] == r[k]);
            }
        }
        lemma_search(h, r, reference, c, e, b.1);
    } else {
        assert(start == c + 3);
    }
}

/// A footprint that is added to a board under a reference that is new there is
/// found under it, where it was put.
pub proof fn law_added_footprint_is_found(h: Seq<u8>, t: Seq<u8>, reference: Seq<char>)
    requires
        valid_utf8(h),
        footprints_closed(h),
        footprint_span(h, reference) is None,
        is_footprint(t, reference),
    ensures
        footprint_span(grown(h, bytes_of("\n  "@) + t), reference) == Some(
            (close_of(h) + 3, close_of(h) + 3 + t.len()),
        ),
{
    let c = close_of(h);
    let w = bytes_of("\n  "@);
    let r = grown(h, w + t);
    let e = c + 3 + t.len();
    let pat = bytes_of("(footprint"@);
    lemma_close_of(h);
    lemma_word();
    reveal_strlit("\n  ");
    is_ascii_chars_encode_utf8("\n  "@);
    assert(w =~= seq![10u8, 32u8, 32u8]);
    if c < h.len() {
        reveal_strlit(")");
        assert(")"@ =~= seq![')']);
        lemma_ascii_byte(')');
        lemma_rfind(h, bytes_of(")"@), h.len() - 1);
        assert(h.subrange(c, c + 1)[0] == h[c]);
    }
    assert(r.subrange(c + 3, e) =~= t);
    lemma_block_alone(r, c + 3, e);
    assert(r.subrange(c + 3, c + 13) =~= t.subrange(0, 10));
    let m = bytes_of(property_mark("Reference"@));
    lemma_find(t, m, 0);
    let i = find_at(t, m, 0).unwrap();
    assert(says_at(t, "Reference"@, reference, i));
    assert(r.subrange(0, c) =~= h.subrange(0, c));
    lemma_search(h, r, reference, c, e, 0);
}

} // verus!
