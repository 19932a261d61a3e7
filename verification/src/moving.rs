//! A footprint that was moved is found at its new place.
use crate::board::{
    anchor, anchor_from, at_numbers, at_text, head_in, replaced, strip_at, strip_back, strip_front,
    AtText,
};
use crate::components::moved;
use crate::footprint::{
    block_anchor, footprint_from, footprint_span, lemma_block_anchor, lemma_footprint_from,
    lemma_footprint_start,
};
use crate::numbers::is_number;
use crate::offsets::lemma_inside;
use crate::property::{property_mark, says, says_at, value_end};
use crate::reread::lemma_number_is_word;
use crate::scan::{
    balanced_block, child_spans, closes, is_child, law_children_are_the_direct_lists,
    lemma_block_end, opens, scan, scan_step, CLOSE, OPEN, QUOTE,
};
use crate::steady::{
    flat, lemma_run_list, lemma_scan_run, lemma_steady_join, lemma_steady_list, lemma_steady_space,
    lemma_steady_word, neutral, run, stays, steady,
};
use crate::text::{bytes_of, find_at, lemma_find, lemma_find_is, lemma_text_of, occurs_at, text_of};
use crate::undo::lemma_block_same;
use crate::words::{ends_head, head_end, head_of, is_word, lemma_next_word, skip_space, words_from};
use vstd::prelude::*;
use vstd::string::*;
use vstd::utf8::*;

verus! {

// The text of a place
/// The words of a place.
pub open spec fn at_list(at: AtText) -> Seq<Seq<char>> {
    match at.rot {
        Some(r) => seq![at.x, at.y, r],
        None => seq![at.x, at.y],
    }
}

/// The place is written in numbers.
pub open spec fn numbered_at(at: AtText) -> bool {
    &&& is_number(at.x)
    &&& is_number(at.y)
    &&& at.rot matches Some(r) ==> is_number(r)
}

proof fn lemma_at_words(at: AtText)
    requires
        is_word(at.x),
        is_word(at.y),
        at.rot matches Some(r) ==> is_word(r),
    ensures
        words_from(at_tail(at), 0) == at_list(at),
        at_tail(at).len() > 0,
        at_tail(at)[0] == ' ',
        at_tail(at).last() != ')',
{
    reveal_strlit(" ");
    let v = at_tail(at);
    let i = 1 + at.x.len() as int;
    let j = i + 1 + at.y.len();
    assert(v.subrange(1, i) =~= at.x);
    assert(v.subrange(i + 1, j) =~= at.y);
    assert(v[i] == ' ');
    lemma_next_word(v, 0, at.x);
    match at.rot {
        Some(r) => {
            assert(v[j] == ' ');
            assert(v.subrange(j + 1, v.len() as int) =~= r);
            lemma_next_word(v, i, at.y);
            lemma_next_word(v, j, r);
            assert(v.last() == r[r.len() - 1]);
            assert(!ends_head(r[r.len() - 1]));
        },
        None => {
            lemma_next_word(v, i, at.y);
            assert(v.last() == at.y[at.y.len() - 1]);
            assert(!ends_head(at.y[at.y.len() - 1]));
        },
    }
    assert(skip_space(v, v.len() as int) == v.len());
    assert(words_from(v, v.len() as int) =~= Seq::<Seq<char>>::empty());
    assert(words_from(v, 0) =~= at_list(at));
}

/// The text of a place behind its head.
pub open spec fn at_tail(at: AtText) -> Seq<char> {
    match at.rot {
        Some(r) => " "@ + at.x + " "@ + at.y + " "@ + r,
        None => " "@ + at.x + " "@ + at.y,
    }
}

/// The text of a place says its numbers, is a list headed `at`, and leaves a
/// scan where it was.
pub proof fn lemma_at_text(at: AtText)
    requires
        numbered_at(at),
    ensures
        at_numbers(at_text(at)) == at_list(at),
        head_of(at_text(at)) == "at"@,
        steady(at_text(at)),
        steady("at"@ + at_tail(at)),
        bytes_of(at_text(at)) == seq![OPEN] + bytes_of("at"@ + at_tail(at)) + seq![CLOSE],
{
    lemma_number_is_word(at.x);
    lemma_number_is_word(at.y);
    if at.rot is Some {
        lemma_number_is_word(at.rot->Some_0);
    }
    reveal_strlit("(at ");
    reveal_strlit("at");
    reveal_strlit("(");
    reveal_strlit(" ");
    reveal_strlit(")");
    let v = at_tail(at);
    lemma_at_words(at);
    let inner = "at"@ + v;
    let s = at_text(at);
    assert(s =~= "("@ + inner + ")"@);
    // Its numbers.
    let u = inner + ")"@;
    assert(s.drop_first() =~= u);
    assert(strip_front(u, '(') == u);
    assert(strip_front(s, '(') == u);
    let w = v + ")"@;
    assert(u.subrange(2, u.len() as int) =~= w);
    assert(strip_at(w) == w);
    assert(strip_at(u) == w);
    assert(w.drop_last() =~= v);
    assert(strip_back(v, ')') == v);
    assert(strip_back(w, ')') == v);
    // Its head.
    assert(s[1] == 'a' && s[2] == 't' && s[3] == ' ');
    assert(head_end(s, 3) == 3);
    assert(head_end(s, 2) == 3);
    assert(head_end(s, 1) == 3);
    assert(head_of(s) =~= "at"@);
    // The scan.
    lemma_steady_space(" "@);
    lemma_steady_word(at.x);
    lemma_steady_word(at.y);
    lemma_steady_word("at"@);
    lemma_steady_join(" "@, at.x);
    lemma_steady_join(" "@ + at.x, " "@);
    lemma_steady_join(" "@ + at.x + " "@, at.y);
    if at.rot is Some {
        let r = at.rot->Some_0;
        lemma_steady_word(r);
        lemma_steady_join(" "@ + at.x + " "@ + at.y, " "@);
        lemma_steady_join(" "@ + at.x + " "@ + at.y + " "@, r);
    }
    lemma_steady_join("at"@, v);
    lemma_steady_list(inner);
}

// Blocks
/// A scan that begins at a block is a scan of the block alone.
proof fn lemma_scan_alone(h: Seq<u8>, s: int, e: int, k: int)
    requires
        0 <= s <= s + k <= e <= h.len(),
        0 <= k,
    ensures
        scan(h, s, s + k) == scan(h.subrange(s, e), 0, k),
{
    let t = h.subrange(s, e);
    lemma_scan_run(h, s, s, s + k);
    lemma_scan_run(t, 0, 0, k);
    assert(h.subrange(s, s + k) =~= t.subrange(0, k));
}

/// The text with the bytes from `a` to `b` replaced by `x`.
spec fn swapped(t: Seq<u8>, a: int, b: int, x: Seq<u8>) -> Seq<u8> {
    t.subrange(0, a) + x + t.subrange(b, t.len() as int)
}

/// Where a list directly inside a block is swapped for another text, the scan
/// goes on behind it as it did.
proof fn lemma_scan_swapped(t: Seq<u8>, a: int, b: int, x: Seq<u8>)
    requires
        is_child(t, a, b),
        neutral(x),
    ensures
        scan(t, 0, a) == flat(1),
        forall|i: int| 0 <= i <= a ==> #[trigger] scan(swapped(t, a, b, x), 0, i) == scan(t, 0, i),
        forall|k: int|
            0 <= k <= x.len() ==> #[trigger] scan(swapped(t, a, b, x), 0, a + k) == run(
                flat(1),
                x.take(k),
            ),
        forall|j: int|
            b <= j <= t.len() ==> #[trigger] scan(t, 0, j) == scan(
                swapped(t, a, b, x),
                0,
                j - b + a + x.len(),
            ),
{
    let r = swapped(t, a, b, x);
    let n = x.len() as int;
    assert forall|i: int| 0 <= i <= a implies #[trigger] scan(r, 0, i) == scan(t, 0, i) by {
        lemma_scan_run(t, 0, 0, i);
        lemma_scan_run(r, 0, 0, i);
        assert(t.subrange(0, i) =~= r.subrange(0, i));
    }
    assert(opens(t, 0, a, 1));
    assert(scan(t, 0, a) == flat(1));
    assert(scan(t, 0, b) == scan_step(scan(t, 0, b - 1), t[b - 1]));
    assert(scan(t, 0, b) == flat(1));
    assert(scan(r, 0, a) == flat(1));
    assert forall|k: int| 0 <= k <= n implies #[trigger] scan(r, 0, a + k) == run(
        flat(1),
        x.take(k),
    ) by {
        lemma_scan_run(r, 0, a, a + k);
        assert(r.subrange(a, a + k) =~= x.take(k));
    }
    assert(stays(x, 1));
    assert(x.take(n) =~= x);
    assert(scan(r, 0, a + n) == flat(1));
    assert forall|j: int| b <= j <= t.len() implies #[trigger] scan(t, 0, j) == scan(
        r,
        0,
        j - b + a + n,
    ) by {
        lemma_scan_run(t, 0, b, j);
        lemma_scan_run(r, 0, a + n, j - b + a + n);
        assert(t.subrange(b, j) =~= r.subrange(a + n, j - b + a + n));
    }
}

/// Two lists directly inside a block that end together are the same.
proof fn lemma_child_start(t: Seq<u8>, s: int, u: int, e: int)
    requires
        is_child(t, s, e),
        is_child(t, u, e),
    ensures
        s == u,
{
    if s < u {
        assert(scan(t, 0, u).depth >= 2);
    } else if u < s {
        assert(scan(t, 0, s).depth >= 2);
    }
}

/// The anchor is the first child with its head.
pub proof fn lemma_anchor_first(t: Seq<u8>, k: int) -> (m: int)
    requires
        0 <= k,
        anchor_from(t, k) is Some,
    ensures
        k <= m < child_spans(t).len(),
        child_spans(t)[m] == anchor_from(t, k).unwrap(),
        head_in(t, child_spans(t)[m]) == "at"@,
        forall|j: int| k <= j < m ==> head_in(t, #[trigger] child_spans(t)[j]) != "at"@,
    decreases child_spans(t).len() - k,
{
    if head_in(t, child_spans(t)[k]) == "at"@ {
        k
    } else {
        lemma_anchor_first(t, k + 1)
    }
}

proof fn lemma_anchor_is(t: Seq<u8>, k: int, m: int)
    requires
        0 <= k <= m < child_spans(t).len(),
        head_in(t, child_spans(t)[m]) == "at"@,
        forall|j: int| k <= j < m ==> head_in(t, #[trigger] child_spans(t)[j]) != "at"@,
    ensures
        anchor_from(t, k) == Some(child_spans(t)[m]),
    decreases m - k,
{
    if k < m {
        assert(head_in(t, child_spans(t)[k]) != "at"@);
        lemma_anchor_is(t, k + 1, m);
    }
}

/// A block whose anchor is swapped for the text of another place has that place
/// for its anchor.
proof fn lemma_new_anchor(t: Seq<u8>, at: AtText)
    requires
        numbered_at(at),
        anchor(t) is Some,
    ensures
        ({
            let a = anchor(t).unwrap();
            let x = bytes_of(at_text(at));
            anchor(swapped(t, a.0, a.1, x)) == Some((a.0, a.0 + x.len()))
        }),
{
    let a = anchor(t).unwrap();
    let x = bytes_of(at_text(at));
    let n = x.len() as int;
    let r = swapped(t, a.0, a.1, x);
    let m = lemma_anchor_first(t, 0);
    lemma_at_text(at);
    law_children_are_the_direct_lists(t);
    law_children_are_the_direct_lists(r);
    assert(is_child(t, a.0, a.1));
    lemma_scan_swapped(t, a.0, a.1, x);
    // The new text is a child.
    let e = a.0 + n;
    assert(stays(x, 1));
    assert(run(flat(1), x.take(0)) == flat(1));
    assert(scan(r, 0, a.0 + 0) == flat(1));
    assert(scan(r, 0, a.0 + n) == run(flat(1), x.take(n)));
    assert(x.take(n) =~= x);
    assert(r[a.0] == x[0]);
    assert(r[e - 1] == x[n - 1]);
    lemma_inside_list(at);
    assert forall|i: int| a.0 < i < e implies (#[trigger] scan(r, 0, i)).depth >= 2 by {
        assert(scan(r, 0, a.0 + (i - a.0)) == run(flat(1), x.take(i - a.0)));
    }
    assert(scan(r, 0, a.0 + (n - 1)) == run(flat(1), x.take(n - 1)));
    assert(is_child(r, a.0, e));
    let i = choose|i: int|
        0 <= i < child_spans(r).len() && (#[trigger] child_spans(r)[i]).1 == e - 1 + 1;
    assert(closes(r, 0, e - 1, 2));
    assert(0 <= i < child_spans(r).len() && child_spans(r)[i].1 == e);
    let c = child_spans(r)[i];
    assert(is_child(r, c.0, c.1));
    lemma_child_start(r, c.0, a.0, e);
    // It has the right head.
    assert(r.subrange(a.0, e) =~= x);
    lemma_text_of(at_text(at));
    // The children before it are those that were before the anchor.
    assert forall|j: int| 0 <= j < i implies head_in(r, #[trigger] child_spans(r)[j]) != "at"@ by {
        let d = child_spans(r)[j];
        assert(is_child(r, d.0, d.1));
        assert(d.1 <= c.0);
        assert(is_child(t, d.0, d.1)) by {
            assert(scan(r, 0, d.0) == scan(t, 0, d.0));
            assert(scan(r, 0, d.1 - 1) == scan(t, 0, d.1 - 1));
            assert(r[d.0] == t[d.0] && r[d.1 - 1] == t[d.1 - 1]);
            assert forall|q: int| d.0 < q < d.1 implies (#[trigger] scan(t, 0, q)).depth >= 2 by {
                assert(scan(r, 0, q) == scan(t, 0, q));
            }
        }
        assert(closes(t, 0, d.1 - 1, 2));
        let q = choose|q: int|
            0 <= q < child_spans(t).len() && (#[trigger] child_spans(t)[q]).1 == d.1 - 1 + 1;
        assert(is_child(t, child_spans(t)[q].0, child_spans(t)[q].1));
        lemma_child_start(t, child_spans(t)[q].0, d.0, d.1);
        assert(child_spans(t)[q] == d);
        if q > m {
            assert(child_spans(t)[m].1 <= child_spans(t)[q].0);
        }
        assert(q < m);
        assert(r.subrange(d.0, d.1) =~= t.subrange(d.0, d.1));
    }
    lemma_anchor_is(r, 0, i);
}

/// Inside the text of a place one more list is open.
proof fn lemma_inside_list(at: AtText)
    requires
        numbered_at(at),
    ensures
        ({
            let x = bytes_of(at_text(at));
            &&& forall|k: int|
                0 < k < x.len() ==> (#[trigger] run(flat(1), x.take(k))).depth >= 2
            &&& run(flat(1), x.take(x.len() - 1)) == flat(2)
        }),
{
    lemma_at_text(at);
    lemma_run_list(bytes_of("at"@ + at_tail(at)), 1);
}

/// A block is one in a text exactly where it is one alone.
pub proof fn lemma_block_alone(h: Seq<u8>, s: int, e: int)
    requires
        0 <= s < e <= h.len(),
    ensures
        (balanced_block(h, s) == Some((s, e))) == (balanced_block(h.subrange(s, e), 0) == Some(
            (0int, e - s),
        )),
{
    let t = h.subrange(s, e);
    lemma_block_end(h, s, s);
    lemma_block_end(t, 0, 0);
    assert forall|k: int| 0 <= k < e - s implies #[trigger] closes(t, 0, k, 1) == closes(
        h,
        s,
        s + k,
        1,
    ) by {
        lemma_scan_alone(h, s, e, k);
        assert(t[k] == h[s + k]);
    }
    if balanced_block(h, s) == Some((s, e)) {
        assert(closes(t, 0, e - s - 1, 1));
    }
    if balanced_block(t, 0) == Some((0int, e - s)) {
        assert(closes(h, s, s + (e - s - 1), 1));
        assert forall|j: int| s <= j < e - 1 implies !closes(h, s, j, 1) by {
            assert(!closes(t, 0, j - s, 1));
            assert(closes(t, 0, j - s, 1) == closes(h, s, s + (j - s), 1));
        }
    }
}

/// A block of which a list directly inside was swapped is a block still.
proof fn lemma_block_swapped(t: Seq<u8>, a: int, b: int, x: Seq<u8>)
    requires
        balanced_block(t, 0) == Some((0int, t.len() as int)),
        is_child(t, a, b),
        neutral(x),
    ensures
        balanced_block(swapped(t, a, b, x), 0) == Some((0int, swapped(t, a, b, x).len() as int)),
{
    let w = swapped(t, a, b, x);
    let n = x.len() as int;
    let l = w.len() as int;
    lemma_scan_swapped(t, a, b, x);
    lemma_block_end(t, 0, 0);
    lemma_block_end(w, 0, 0);
    assert(closes(t, 0, t.len() - 1, 1));
    assert(b < t.len()) by {
        if b == t.len() {
            assert(closes(t, 0, b - 1, 2));
        }
    }
    assert(scan(t, 0, t.len() - 1) == scan(w, 0, l - 1));
    assert(w[l - 1] == t[t.len() - 1]);
    assert(closes(w, 0, l - 1, 1));
    assert forall|k: int| 0 <= k < l - 1 implies !closes(w, 0, k, 1) by {
        if k < a {
            assert(scan(w, 0, k) == scan(t, 0, k));
            assert(!closes(t, 0, k, 1));
            assert(w[k] == t[k]);
        } else if k < a + n {
            let i = k - a;
            assert(scan(w, 0, a + i) == run(flat(1), x.take(i)));
            assert(scan(w, 0, a + (i + 1)) == run(flat(1), x.take(i + 1)));
            assert(stays(x, 1));
            assert(scan(w, 0, k + 1) == scan_step(scan(w, 0, k), w[k]));
        } else {
            let i = k - n - a + b;
            assert(scan(t, 0, i) == scan(w, 0, i - b + a + n));
            assert(!closes(t, 0, i, 1));
            assert(w[k] == t[i]);
        }
    }
}

/// The block of which the anchor was swapped is the balanced block at its
/// place.
pub proof fn lemma_new_block(h: Seq<u8>, s: int, e: int, at: AtText)
    requires
        numbered_at(at),
        0 <= s < e <= h.len(),
        balanced_block(h, s) == Some((s, e)),
        block_anchor(h, (s, e)) is Some,
    ensures
        ({
            let a = block_anchor(h, (s, e)).unwrap();
            let x = bytes_of(at_text(at));
            let r = replaced(h, a.0, a.1, at_text(at));
            let f = e + x.len() - (a.1 - a.0);
            &&& s < f <= r.len()
            &&& balanced_block(r, s) == Some((s, f))
            &&& block_anchor(r, (s, f)) == Some((a.0, a.0 + x.len()))
        }),
{
    let t = h.subrange(s, e);
    let b = anchor(t).unwrap();
    let a = block_anchor(h, (s, e)).unwrap();
    let x = bytes_of(at_text(at));
    let r = replaced(h, a.0, a.1, at_text(at));
    let w = swapped(t, b.0, b.1, x);
    let f = e + x.len() - (a.1 - a.0);
    let m = lemma_anchor_first(t, 0);
    law_children_are_the_direct_lists(t);
    assert(is_child(t, b.0, b.1));
    lemma_at_text(at);
    lemma_new_anchor(t, at);
    lemma_block_alone(h, s, e);
    lemma_block_swapped(t, b.0, b.1, x);
    assert(r.subrange(s, f) =~= w);
    lemma_block_alone(r, s, f);
}

/// The search for a footprint comes to the block that was moved.
proof fn lemma_search(h: Seq<u8>, r: Seq<u8>, reference: Seq<char>, pos: int, f: int)
    requires
        valid_utf8(h),
        0 <= pos,
        footprint_from(h, reference, pos) is Some,
        ({
            let s = footprint_from(h, reference, pos).unwrap().0;
            &&& s + 10 <= r.len()
            &&& s + 10 <= h.len()
            &&& r.subrange(0, s + 10) == h.subrange(0, s + 10)
            &&& f <= r.len()
            &&& balanced_block(r, s) == Some((s, f))
            &&& says(r.subrange(s, f), "Reference"@, reference)
        }),
    ensures
        footprint_from(r, reference, pos) == Some((footprint_from(h, reference, pos).unwrap().0, f)),
    decreases h.len() - pos,
{
    let pat = bytes_of("(footprint"@);
    reveal_strlit("(footprint");
    is_ascii_chars_encode_utf8("(footprint"@);
    assert(pat.len() == 10);
    let s = footprint_from(h, reference, pos).unwrap().0;
    let start = find_at(h, pat, pos)->Some_0;
    lemma_footprint_from(h, reference, pos);
    lemma_footprint_start(h, pos);
    lemma_find(h, pat, pos);
    assert forall|k: int| 0 <= k < s + 10 implies #[trigger] h[k] == r[k] by {
        assert(h.subrange(0, s + 10)[k] == h[k]);
        assert(r.subrange(0, s + 10)[k] == r[k]);
    }
    let b = balanced_block(h, start)->Some_0;
    lemma_block_end(h, start, start);
    let found = says(h.subrange(b.0, b.1), "Reference"@, reference);
    if !found {
        lemma_footprint_from(h, reference, b.1);
    }
    assert(start <= s);
    assert(h.subrange(start, start + 10) =~= r.subrange(start, start + 10));
    assert(occurs_at(r, pat, start));
    assert forall|j: int| pos <= j < start implies !occurs_at(r, pat, j) by {
        if occurs_at(r, pat, j) {
            assert(h.subrange(j, j + 10) =~= r.subrange(j, j + 10));
            assert(occurs_at(h, pat, j));
        }
    }
    lemma_find_is(r, pat, pos, start);
    if !found {
        assert(b.1 <= s);
        assert(h.subrange(0, s) =~= r.subrange(0, s));
        lemma_block_same(h, r, start, s);
        assert(r.subrange(b.0, b.1) =~= h.subrange(b.0, b.1));
        lemma_search(h, r, reference, b.1, f);
    } else {
        assert(b.0 == s);
    }
}

/// A string ends alike in two texts that are alike there.
proof fn lemma_value_alike(h: Seq<u8>, t: Seq<u8>, i: int, d: int)
    requires
        0 <= i,
        0 <= i + d,
        value_end(h, i) matches Some(e) && e + d < t.len() && forall|k: int|
            i <= k <= e ==> h[k] == #[trigger] t[k + d],
    ensures
        value_end(t, i + d) == Some(value_end(h, i).unwrap() + d),
        i <= value_end(h, i).unwrap() < h.len(),
    decreases h.len() - i + 1,
{
    let e = value_end(h, i).unwrap();
    lemma_inside(h, i, 1);
    assert(h[i] == t[i + d]);
    if h[i] == 92 {
        lemma_inside(h, i + 2, 1);
        lemma_value_alike(h, t, i + 2, d);
    } else if h[i] != QUOTE {
        lemma_inside(h, i + 1, 1);
        lemma_value_alike(h, t, i + 1, d);
    }
}

/// The Reference property of a footprint stands outside of its anchor.
pub open spec fn reference_apart(h: Seq<u8>, reference: Seq<char>) -> bool {
    let span = footprint_span(h, reference).unwrap();
    let t = h.subrange(span.0, span.1);
    let a = anchor(t).unwrap();
    let m = bytes_of(property_mark("Reference"@)).len();
    exists|i: int|
        #[trigger] says_at(t, "Reference"@, reference, i) && (value_end(t, i + m).unwrap() < a.0
            || a.1 <= i)
}

/// A reference outside of what was swapped is still there.
proof fn lemma_says_still(t: Seq<u8>, a: int, b: int, x: Seq<u8>, reference: Seq<char>, i: int)
    requires
        0 <= a <= b <= t.len(),
        says_at(t, "Reference"@, reference, i),
        value_end(t, i + bytes_of(property_mark("Reference"@)).len()).unwrap() < a || b <= i,
    ensures
        says(swapped(t, a, b, x), "Reference"@, reference),
{
    let p = bytes_of(property_mark("Reference"@));
    let m = p.len() as int;
    let w = swapped(t, a, b, x);
    let e = value_end(t, i + m).unwrap();
    lemma_inside(t, i + m, 1);
    let d = if b <= i {
        x.len() - (b - a)
    } else {
        0
    };
    assert forall|k: int| i <= k <= e implies t[k] == #[trigger] w[k + d] by {
        if b <= i {
            assert(w[k + d] == t.subrange(b, t.len() as int)[k - b]);
        }
    }
    lemma_value_alike(t, w, i + m, d);
    assert(w.subrange(i + d, i + d + m) =~= p) by {
        assert forall|k: int| 0 <= k < m implies #[trigger] w.subrange(i + d, i + d + m)[k]
            == p[k] by {
            assert(t.subrange(i, i + m)[k] == t[i + k]);
            assert(w[i + k + d] == t[i + k]);
        }
    }
    assert(w.subrange(i + d + m, e + d) =~= t.subrange(i + m, e)) by {
        assert forall|k: int| 0 <= k < e - i - m implies #[trigger] w.subrange(i + d + m, e + d)[k]
            == t.subrange(i + m, e)[k] by {
            assert(w[i + m + k + d] == t[i + m + k]);
        }
    }
    assert(says_at(w, "Reference"@, reference, i + d));
}

/// A footprint that was moved is found under its reference where it was found
/// before, its anchor says the numbers of its new place, and the board before
/// and behind its anchor is as it was.
pub proof fn law_moved_footprint_is_at(h: Seq<u8>, reference: Seq<char>, at: AtText)
    requires
        valid_utf8(h),
        numbered_at(at),
        moved(h, reference, at) is Ok,
        reference_apart(h, reference),
    ensures
        ({
            let r = moved(h, reference, at)->Ok_0;
            let old_span = footprint_span(h, reference).unwrap();
            let old_anchor = block_anchor(h, old_span).unwrap();
            footprint_span(r, reference) matches Some(span) && {
                &&& span.0 == old_span.0
                &&& block_anchor(r, span) matches Some(a) && {
                    &&& a.0 == old_anchor.0
                    &&& at_numbers(text_of(r.subrange(a.0, a.1))) == at_list(at)
                    &&& r.subrange(0, a.0) == h.subrange(0, old_anchor.0)
                    &&& r.subrange(a.1, r.len() as int) == h.subrange(
                        old_anchor.1,
                        h.len() as int,
                    )
                }
            }
        }),
{
    let span = footprint_span(h, reference).unwrap();
    let s = span.0;
    let e = span.1;
    lemma_footprint_from(h, reference, 0);
    let a = block_anchor(h, span).unwrap();
    lemma_block_anchor(h, span);
    let x = bytes_of(at_text(at));
    let n = x.len() as int;
    let r = replaced(h, a.0, a.1, at_text(at));
    let f = e + n - (a.1 - a.0);
    lemma_at_text(at);
    lemma_new_block(h, s, e, at);
    // The anchor stands behind the word that the block begins with.
    lemma_anchor_behind_head(h, s, e);
    assert(r.subrange(0, s + 10) =~= h.subrange(0, s + 10));
    // The reference is still in the block.
    let old = h.subrange(s, e);
    let b = anchor(old).unwrap();
    let m = bytes_of(property_mark("Reference"@)).len();
    let i = choose|i: int|
        #[trigger] says_at(old, "Reference"@, reference, i) && (value_end(old, i + m).unwrap()
            < b.0 || b.1 <= i);
    lemma_says_still(old, b.0, b.1, x, reference, i);
    assert(r.subrange(s, f) =~= swapped(old, b.0, b.1, x));
    lemma_search(h, r, reference, 0, f);
    lemma_text_of(at_text(at));
    assert(r.subrange(a.0, a.0 + n) =~= x);
    assert(r.subrange(0, a.0) =~= h.subrange(0, a.0));
    assert(r.subrange(a.0 + n, r.len() as int) =~= h.subrange(a.1, h.len() as int));
}

proof fn lemma_anchor_behind_head(h: Seq<u8>, s: int, e: int)
    requires
        0 <= s < e <= h.len(),
        occurs_at(h, bytes_of("(footprint"@), s),
        block_anchor(h, (s, e)) is Some,
    ensures
        block_anchor(h, (s, e)).unwrap().0 >= s + 10,
        s + 10 <= h.len(),
{
    reveal_strlit("(footprint");
    is_ascii_chars_encode_utf8("(footprint"@);
    let pat = bytes_of("(footprint"@);
    let t = h.subrange(s, e);
    let b = anchor(t).unwrap();
    let m = lemma_anchor_first(t, 0);
    law_children_are_the_direct_lists(t);
    assert(is_child(t, b.0, b.1));
    assert(scan(t, 0, 0).depth == 0);
    assert(t[b.0] == OPEN);
    assert(h[s + b.0] == OPEN);
    if b.0 < 10 {
        assert(h.subrange(s, s + 10)[b.0] == pat[b.0]);
        assert(pat[b.0] == "(footprint"@[b.0] as u8);
    }
}

} // verus!
