//! Footprint blocks: finding, moving, rotating, renaming and copying them.
use crate::board::{
    anchor, anchor_at_span, at_text, format_at, head_in, lemma_anchor, lemma_anchor_cut, piece,
    places_of, At, AtText, BoardError,
};
use crate::edits::{edits_of, fits, Edit, SexpEdit};
use crate::property::{find_saying, property_mark, property_value, says, says_at};
use crate::scan::{
    balanced_block, child_spans, direct_child_spans, find_balanced_block,
    law_children_are_the_direct_lists, lemma_balanced_cut, lemma_child_cut, spans_of, OPEN,
};
use crate::text::{
    bytes_of, cut, find_at, find_from, lemma_ascii_byte, lemma_bytes_concat, lemma_bytes_len,
    lemma_bytes_valid, lemma_cut_valid, lemma_find, lemma_find_is, lemma_first_ascii,
    lemma_occurs_cut, occurs_at, opt_span, same, slice, span_of,
};
use crate::words::node_head;
use vstd::prelude::*;
use vstd::string::*;
use vstd::utf8::*;

verus! {

// Finding a footprint
/// The first footprint block at `pos` or later whose Reference is `reference`.
/// The search goes from block to block and ends at one that is never closed.
pub open spec fn footprint_from(h: Seq<u8>, reference: Seq<char>, pos: int) -> Option<(int, int)>
    decreases h.len() - pos,
{
    match find_at(h, bytes_of("(footprint"@), pos) {
        None => None,
        Some(start) => match balanced_block(h, start) {
            None => None,
            Some(b) => if says(h.subrange(b.0, b.1), "Reference"@, reference) {
                Some(b)
            } else if pos < b.1 <= h.len() {
                footprint_from(h, reference, b.1)
            } else {
                None
            },
        },
    }
}

/// The span of the footprint with this reference.
pub open spec fn footprint_span(h: Seq<u8>, reference: Seq<char>) -> Option<(int, int)> {
    footprint_from(h, reference, 0)
}

/// A text that begins with an opening parenthesis stands at one.
pub proof fn lemma_footprint_start(h: Seq<u8>, pos: int)
    requires
        valid_utf8(h),
        0 <= pos,
        find_at(h, bytes_of("(footprint"@), pos) is Some,
    ensures
        ({
            let s = find_at(h, bytes_of("(footprint"@), pos).unwrap();
            &&& pos <= s < h.len()
            &&& cut(h, s)
            &&& h[s] == OPEN
        }),
{
    let p = bytes_of("(footprint"@);
    reveal_strlit("(footprint");
    lemma_bytes_valid("(footprint"@);
    lemma_bytes_len("(footprint"@);
    lemma_find(h, p, pos);
    let s = find_at(h, p, pos).unwrap();
    lemma_occurs_cut(h, p, s);
    assert(p[0] == h[s]);
    lemma_bytes_concat(seq!['('], "(footprint"@.drop_first());
    assert("(footprint"@ =~= seq!['('] + "(footprint"@.drop_first());
    lemma_ascii_byte('(');
    assert(p[0] == 40u8);
}

/// A footprint that was found is a piece of the text, has the reference, and is
/// a balanced block.
pub proof fn lemma_footprint_from(h: Seq<u8>, reference: Seq<char>, pos: int)
    requires
        valid_utf8(h),
        0 <= pos,
    ensures
        match footprint_from(h, reference, pos) {
            Some(b) => {
                &&& pos <= b.0 < b.1 <= h.len()
                &&& piece(h, b.0, b.1)
                &&& h[b.0] == OPEN
                &&& balanced_block(h, b.0) == Some(b)
                &&& says(h.subrange(b.0, b.1), "Reference"@, reference)
                &&& occurs_at(h, bytes_of("(footprint"@), b.0)
            },
            None => true,
        },
    decreases h.len() - pos,
{
    match find_at(h, bytes_of("(footprint"@), pos) {
        None => {},
        Some(start) => {
            lemma_footprint_start(h, pos);
            lemma_find(h, bytes_of("(footprint"@), pos);
            match balanced_block(h, start) {
                None => {},
                Some(b) => {
                    lemma_balanced_cut(h, start);
                    if !says(h.subrange(b.0, b.1), "Reference"@, reference) {
                        lemma_footprint_from(h, reference, b.1);
                    }
                },
            }
        },
    }
}

/// Byte span of the `(footprint ...)` block whose Reference property equals
/// `reference`.
pub fn find_footprint_block(content: &str, reference: &str) -> (r: Option<(usize, usize)>)
    ensures
        opt_span(r) == footprint_span(bytes_of(content@), reference@),
        match r {
            Some(s) => s.0 < s.1 && piece(bytes_of(content@), s.0 as int, s.1 as int),
            None => true,
        },
{
    let ghost h = bytes_of(content@);
    proof {
        lemma_bytes_valid(content@);
        lemma_footprint_from(h, reference@, 0);
    }
    let mut pos: usize = 0;
    loop
        invariant
            h == bytes_of(content@),
            valid_utf8(h),
            pos <= h.len(),
            footprint_span(h, reference@) == footprint_from(h, reference@, pos as int),
        decreases h.len() - pos,
    {
        proof {
            lemma_footprint_from(h, reference@, pos as int);
        }
        let start: usize = match find_from(content, "(footprint", pos) {
            Some(s) => s,
            None => {
                return None;
            },
        };
        proof {
            lemma_footprint_start(h, pos as int);
        }
        let (s, e): (usize, usize) = match find_balanced_block(content, start) {
            Some(b) => b,
            None => {
                return None;
            },
        };
        proof {
            lemma_balanced_cut(h, start as int);
        }
        if find_saying(slice(content, s, e), "Reference", reference).is_some() {
            return Some((s, e));
        }
        pos = e;
    }
}

/// A footprint is found under its reference: a text that is one footprint block
/// is found under the value of its Reference property, whatever that is.
pub proof fn law_footprint_is_found_by_its_reference(t: Seq<u8>, reference: Seq<char>)
    requires
        occurs_at(t, bytes_of("(footprint"@), 0),
        balanced_block(t, 0) == Some((0int, t.len() as int)),
        property_value(t, "Reference"@) == Some(reference),
    ensures
        footprint_span(t, reference) == Some((0int, t.len() as int)),
{
    let p = bytes_of("(footprint"@);
    lemma_find(t, p, 0);
    lemma_find_is(t, p, 0, 0);
    assert(t.subrange(0, t.len() as int) =~= t);
    let m = bytes_of(property_mark("Reference"@));
    lemma_find(t, m, 0);
    let i = find_at(t, m, 0).unwrap();
    assert(says_at(t, "Reference"@, reference, i));
}

// Moving
/// A piece of a piece.
pub proof fn lemma_piece_in(h: Seq<u8>, s: int, e: int, a: int, b: int)
    requires
        piece(h, s, e),
        piece(h.subrange(s, e), a, b),
    ensures
        piece(h, s + a, s + b),
        h.subrange(s + a, s + b) == h.subrange(s, e).subrange(a, b),
{
    let t = h.subrange(s, e);
    assert(h.subrange(s + a, s + b) =~= t.subrange(a, b));
    if a < t.len() {
        assert(t[a] == h[s + a]);
    }
    if b < t.len() {
        assert(t[b] == h[s + b]);
    }
}

/// The anchor of the block that stands at `span`, in offsets of the whole text.
pub open spec fn block_anchor(h: Seq<u8>, span: (int, int)) -> Option<(int, int)> {
    match anchor(h.subrange(span.0, span.1)) {
        Some(a) => Some((span.0 + a.0, span.0 + a.1)),
        None => None,
    }
}

pub proof fn lemma_block_anchor(h: Seq<u8>, span: (int, int))
    requires
        valid_utf8(h),
        piece(h, span.0, span.1),
        block_anchor(h, span) is Some,
    ensures
        ({
            let a = block_anchor(h, span).unwrap();
            &&& span.0 <= a.0 < a.1 <= span.1
            &&& piece(h, a.0, a.1)
        }),
{
    lemma_cut_valid(h, span.0, span.1);
    let t = h.subrange(span.0, span.1);
    lemma_anchor_cut(t);
    lemma_piece_in(h, span.0, span.1, anchor(t).unwrap().0, anchor(t).unwrap().1);
}

/// The anchor of the block that stands at `fp_span`.
pub fn footprint_anchor(content: &str, fp_span: (usize, usize)) -> (r: Result<
    (usize, usize),
    BoardError,
>)
    requires
        piece(bytes_of(content@), fp_span.0 as int, fp_span.1 as int),
    ensures
        match r {
            Ok(a) => {
                &&& block_anchor(bytes_of(content@), span_of(fp_span)) == Some(span_of(a))
                &&& fp_span.0 <= a.0 < a.1 <= fp_span.1
                &&& piece(bytes_of(content@), a.0 as int, a.1 as int)
            },
            Err(e) => e == BoardError::NoAnchor && block_anchor(
                bytes_of(content@),
                span_of(fp_span),
            ) is None,
        },
{
    let ghost h = bytes_of(content@);
    proof {
        lemma_bytes_valid(content@);
        if block_anchor(h, span_of(fp_span)) is Some {
            lemma_block_anchor(h, span_of(fp_span));
        }
    }
    let (fs, fe) = fp_span;
    match anchor_at_span(slice(content, fs, fe)) {
        Some((a, b)) => Ok((fs + a, fs + b)),
        None => Err(BoardError::NoAnchor),
    }
}

/// Edit that moves the footprint at `fp_span` to `at`. Pad/text positions are
/// footprint-relative in the file format, so only the anchor changes.
pub fn footprint_move_edit(content: &str, fp_span: (usize, usize), at: &At) -> (r: Result<
    SexpEdit,
    BoardError,
>)
    requires
        piece(bytes_of(content@), fp_span.0 as int, fp_span.1 as int),
    ensures
        match r {
            Ok(e) => {
                &&& block_anchor(bytes_of(content@), span_of(fp_span)) matches Some(a)
                &&& e@ == (Edit { start: a.0, end: a.1, text: at_text(at@) })
                &&& fits(bytes_of(content@), e@)
            },
            Err(e) => e == BoardError::NoAnchor && block_anchor(
                bytes_of(content@),
                span_of(fp_span),
            ) is None,
        },
{
    match footprint_anchor(content, fp_span) {
        Ok((a, b)) => Ok(SexpEdit::replace(a, b, format_at(at))),
        Err(e) => Err(e),
    }
}

// Rotating
/// A child whose own angle counts from the board, not from the footprint.
pub open spec fn turns(head: Seq<char>) -> bool {
    head == "pad"@ || head == "property"@ || head == "fp_text"@
}

/// Where the child `c` of the block `t` is placed, if it turns with the block.
pub open spec fn child_anchor(t: Seq<u8>, c: (int, int)) -> Option<(int, int)> {
    if turns(head_in(t, c)) {
        block_anchor(t, c)
    } else {
        None
    }
}

/// The places of the first `k` children that turn with the block `t`.
pub open spec fn child_anchors(t: Seq<u8>, k: int) -> Seq<(int, int)>
    decreases k,
{
    if k <= 0 {
        seq![]
    } else {
        match child_anchor(t, child_spans(t)[k - 1]) {
            Some(a) => child_anchors(t, k - 1).push(a),
            None => child_anchors(t, k - 1),
        }
    }
}

/// Every `(at ...)` that a rotation of the block `t` touches: its anchor, then
/// the places of its children that turn with it.
pub open spec fn turning_places(t: Seq<u8>) -> Option<Seq<(int, int)>> {
    match anchor(t) {
        Some(a) => Some(seq![a] + child_anchors(t, child_spans(t).len() as int)),
        None => None,
    }
}

/// The spans `v`, counted from `d` on.
pub open spec fn shifted(v: Seq<(int, int)>, d: int) -> Seq<(int, int)> {
    v.map_values(|a: (int, int)| (a.0 + d, a.1 + d))
}

/// `a` is the place of one of the first `k` children.
pub open spec fn places_a_child(t: Seq<u8>, k: int, a: (int, int)) -> bool {
    exists|m: int| 0 <= m < k && #[trigger] child_anchor(t, child_spans(t)[m]) == Some(a)
}

pub proof fn lemma_child_anchors(t: Seq<u8>, k: int)
    requires
        valid_utf8(t),
        0 <= k <= child_spans(t).len(),
    ensures
        forall|i: int|
            0 <= i < child_anchors(t, k).len() ==> {
                let a = #[trigger] child_anchors(t, k)[i];
                &&& a.0 < a.1
                &&& piece(t, a.0, a.1)
            },
        forall|i: int|
            0 <= i < child_anchors(t, k).len() ==> places_a_child(
                t,
                k,
                #[trigger] child_anchors(t, k)[i],
            ),
        forall|i: int, j: int|
            0 <= i < j < child_anchors(t, k).len() ==> (#[trigger] child_anchors(t, k)[i]).1 <= (
            #[trigger] child_anchors(t, k)[j]).0,
        k > 0 ==> forall|i: int|
            0 <= i < child_anchors(t, k).len() ==> (#[trigger] child_anchors(t, k)[i]).1
                <= child_spans(t)[k - 1].1,
    decreases k,
{
    if k > 0 {
        lemma_child_anchors(t, k - 1);
        law_children_are_the_direct_lists(t);
        let c = child_spans(t)[k - 1];
        lemma_child_cut(t, k - 1);
        let before = child_anchors(t, k - 1);
        let now = child_anchors(t, k);
        if k > 1 {
            assert(child_spans(t)[k - 2].1 <= c.0);
        }
        assert forall|i: int| 0 <= i < before.len() implies (#[trigger] before[i]).1 <= c.0 by {
            assert(k > 1);
        }
        match child_anchor(t, c) {
            Some(a) => {
                lemma_block_anchor(t, c);
                assert(now == before.push(a));
                assert forall|i: int| 0 <= i < now.len() implies places_a_child(
                    t,
                    k,
                    #[trigger] now[i],
                ) by {
                    if i < before.len() {
                        assert(places_a_child(t, k - 1, before[i]));
                        let m = choose|m: int|
                            0 <= m < k - 1 && #[trigger] child_anchor(t, child_spans(t)[m]) == Some(
                                before[i],
                            );
                        assert(child_anchor(t, child_spans(t)[m]) == Some(now[i]));
                    } else {
                        assert(child_anchor(t, child_spans(t)[k - 1]) == Some(now[i]));
                    }
                }
            },
            None => {
                assert(now == before);
                assert forall|i: int| 0 <= i < now.len() implies places_a_child(
                    t,
                    k,
                    #[trigger] now[i],
                ) by {
                    assert(places_a_child(t, k - 1, before[i]));
                    let m = choose|m: int|
                        0 <= m < k - 1 && #[trigger] child_anchor(t, child_spans(t)[m]) == Some(
                            before[i],
                        );
                    assert(child_anchor(t, child_spans(t)[m]) == Some(now[i]));
                }
            },
        }
    }
}

/// A rotation touches its anchor and the places of the children that turn with
/// it, and no two of these overlap: each is rewritten on its own.
pub proof fn law_turning_places_are_apart(t: Seq<u8>)
    requires
        valid_utf8(t),
        turning_places(t) is Some,
    ensures
        forall|i: int|
            0 <= i < turning_places(t).unwrap().len() ==> {
                let a = #[trigger] turning_places(t).unwrap()[i];
                a.0 < a.1 && piece(t, a.0, a.1)
            },
        forall|i: int, j: int|
            0 <= i < j < turning_places(t).unwrap().len() ==> {
                let a = #[trigger] turning_places(t).unwrap()[i];
                let b = #[trigger] turning_places(t).unwrap()[j];
                a.1 <= b.0 || b.1 <= a.0
            },
{
    let n = child_spans(t).len() as int;
    let rest = child_anchors(t, n);
    let all = turning_places(t).unwrap();
    let a = anchor(t).unwrap();
    lemma_child_anchors(t, n);
    lemma_anchor_cut(t);
    lemma_anchor(t, 0);
    law_children_are_the_direct_lists(t);
    let m0 = choose|m: int| 0 <= m < n && #[trigger] child_spans(t)[m] == a;
    assert forall|i: int, j: int| 0 <= i < j < all.len() implies ({
        let x = #[trigger] all[i];
        let y = #[trigger] all[j];
        x.1 <= y.0 || y.1 <= x.0
    }) by {
        assert(all[j] == rest[j - 1]);
        if i > 0 {
            assert(all[i] == rest[i - 1]);
        } else {
            assert(places_a_child(t, n, rest[j - 1]));
            let m = choose|m: int|
                0 <= m < n && #[trigger] child_anchor(t, child_spans(t)[m]) == Some(rest[j - 1]);
            let c = child_spans(t)[m];
            lemma_child_cut(t, m);
            lemma_block_anchor(t, c);
            reveal_strlit("at");
            reveal_strlit("pad");
            reveal_strlit("property");
            reveal_strlit("fp_text");
            assert(turns(head_in(t, c)));
            assert("at"@.len() == 2 && "pad"@.len() == 3 && "property"@.len() == 8
                && "fp_text"@.len() == 7);
            assert(head_in(t, c) != "at"@);
            assert(m != m0);
            if m < m0 {
                assert(child_spans(t)[m].1 <= child_spans(t)[m0].0);
            } else {
                assert(child_spans(t)[m0].1 <= child_spans(t)[m].0);
            }
        }
    }
}

/// The places that a rotation of the footprint at `fp_span` touches, in offsets
/// of the whole text.
pub open spec fn rotation_places(h: Seq<u8>, fp_span: (int, int)) -> Option<Seq<(int, int)>> {
    match turning_places(h.subrange(fp_span.0, fp_span.1)) {
        Some(v) => Some(shifted(v, fp_span.0)),
        None => None,
    }
}

/// The spans of every `(at ...)` that a rotation of the footprint at `fp_span`
/// rewrites: the anchor first, then those of its pads, properties and texts.
///
/// KiCad board-file semantics: pad / property / fp_text `(at ...)` angles inside
/// a footprint are stored as child-relative angle PLUS the footprint angle,
/// while their x/y stay in unrotated footprint-local coordinates. A correct
/// rotation therefore rewrites the anchor angle AND adds the delta to every
/// child angle.
pub fn footprint_at_spans(content: &str, fp_span: (usize, usize)) -> (r: Result<
    Vec<(usize, usize)>,
    BoardError,
>)
    requires
        piece(bytes_of(content@), fp_span.0 as int, fp_span.1 as int),
    ensures
        match r {
            Ok(v) => {
                &&& rotation_places(bytes_of(content@), span_of(fp_span)) == Some(spans_of(v@))
                &&& v@.len() > 0
                &&& forall|k: int|
                    0 <= k < v@.len() ==> piece(
                        bytes_of(content@),
                        (#[trigger] v@[k]).0 as int,
                        v@[k].1 as int,
                    )
            },
            Err(e) => e == BoardError::NoAnchor && rotation_places(
                bytes_of(content@),
                span_of(fp_span),
            ) is None,
        },
{
    let ghost h = bytes_of(content@);
    let (fs, fe) = fp_span;
    let ghost t = h.subrange(fs as int, fe as int);
    proof {
        lemma_bytes_valid(content@);
        lemma_cut_valid(h, fs as int, fe as int);
    }
    let block: &str = slice(content, fs, fe);
    let (a_s, a_e): (usize, usize) = match anchor_at_span(block) {
        Some(a) => a,
        None => {
            return Err(BoardError::NoAnchor);
        },
    };
    proof {
        lemma_anchor_cut(t);
    }
    let mut v: Vec<(usize, usize)> = Vec::new();
    v.push((fs + a_s, fs + a_e));
    let spans: Vec<(usize, usize)> = direct_child_spans(block);
    let ghost a = (a_s as int, a_e as int);
    assert(spans_of(v@) =~= shifted(seq![a] + child_anchors(t, 0), fs as int));
    let mut k: usize = 0;
    while k < spans.len()
        invariant
            bytes_of(block@) == t,
            valid_utf8(t),
            h == bytes_of(content@),
            piece(h, fs as int, fe as int),
            t == h.subrange(fs as int, fe as int),
            spans_of(spans@) == child_spans(t),
            k <= spans@.len(),
            v@.len() > 0,
            spans_of(v@) == shifted(seq![a] + child_anchors(t, k as int), fs as int),
        decreases spans@.len() - k,
    {
        let (c_s, c_e): (usize, usize) = spans[k];
        let ghost c = (c_s as int, c_e as int);
        let ghost before = v@;
        proof {
            assert(spans_of(spans@)[k as int] == span_of(spans@[k as int]));
            assert(child_spans(t)[k as int] == c);
            lemma_child_cut(t, k as int);
            lemma_cut_valid(t, c.0, c.1);
            assert(t.subrange(c.0, c.1)[0] == OPEN);
            lemma_first_ascii(t.subrange(c.0, c.1));
            assert(child_anchors(t, k + 1) == match child_anchor(t, c) {
                Some(q) => child_anchors(t, k as int).push(q),
                None => child_anchors(t, k as int),
            });
        }
        let child: &str = slice(block, c_s, c_e);
        let head: &str = node_head(child);
        if same(head, "pad") || same(head, "property") || same(head, "fp_text") {
            if let Some((p_s, p_e)) = anchor_at_span(child) {
                proof {
                    lemma_block_anchor(t, c);
                }
                v.push((fs + c_s + p_s, fs + c_s + p_e));
                proof {
                    let q = (c.0 + p_s, c.0 + p_e);
                    assert(child_anchor(t, c) == Some(q));
                    assert(seq![a] + child_anchors(t, k + 1) =~= (seq![a] + child_anchors(
                        t,
                        k as int,
                    )).push(q));
                    assert(spans_of(v@) =~= spans_of(before).push((fs + q.0, fs + q.1)));
                    assert(spans_of(v@) =~= shifted(
                        seq![a] + child_anchors(t, k + 1),
                        fs as int,
                    ));
                }
            }
        }
        assert(spans_of(v@) =~= shifted(seq![a] + child_anchors(t, k + 1), fs as int));
        k = k + 1;
    }
    proof {
        law_turning_places_are_apart(t);
        assert forall|i: int| 0 <= i < v@.len() implies piece(
            h,
            (#[trigger] v@[i]).0 as int,
            v@[i].1 as int,
        ) by {
            assert(spans_of(v@)[i] == span_of(v@[i]));
            let q = turning_places(t).unwrap()[i];
            lemma_piece_in(h, fs as int, fe as int, q.0, q.1);
        }
    }
    Ok(v)
}

/// The edits that write the texts `ats` at the places `v`, the first at the
/// first and so on, as far as both go.
pub open spec fn rewrites(v: Seq<(int, int)>, ats: Seq<AtText>) -> Seq<Edit> {
    Seq::new(
        if v.len() < ats.len() {
            v.len()
        } else {
            ats.len()
        },
        |k: int| Edit { start: v[k].0, end: v[k].1, text: at_text(ats[k]) },
    )
}

/// Edits that rewrite the places of the footprint at `fp_span`: its anchor to
/// the first of `ats`, then the place of each child that turns with it to the
/// next one. With one place in `ats` only the anchor changes.
pub fn footprint_rotation_edits(content: &str, fp_span: (usize, usize), ats: &Vec<At>) -> (r:
    Result<Vec<SexpEdit>, BoardError>)
    requires
        piece(bytes_of(content@), fp_span.0 as int, fp_span.1 as int),
    ensures
        match r {
            Ok(v) => {
                &&& rotation_places(bytes_of(content@), span_of(fp_span)) matches Some(places)
                &&& edits_of(v@) == rewrites(places, places_of(ats@))
                &&& forall|k: int|
                    0 <= k < v@.len() ==> fits(bytes_of(content@), (#[trigger] v@[k])@)
            },
            Err(e) => e == BoardError::NoAnchor && rotation_places(
                bytes_of(content@),
                span_of(fp_span),
            ) is None,
        },
{
    let spans: Vec<(usize, usize)> = match footprint_at_spans(content, fp_span) {
        Ok(v) => v,
        Err(e) => {
            return Err(e);
        },
    };
    let ghost places = spans_of(spans@);
    let ghost texts = places_of(ats@);
    let mut v: Vec<SexpEdit> = Vec::new();
    let mut k: usize = 0;
    while k < spans.len() && k < ats.len()
        invariant
            places == spans_of(spans@),
            texts == places_of(ats@),
            k <= spans@.len(),
            k <= ats@.len(),
            v@.len() == k,
            forall|i: int|
                0 <= i < spans@.len() ==> piece(
                    bytes_of(content@),
                    (#[trigger] spans@[i]).0 as int,
                    spans@[i].1 as int,
                ),
            forall|i: int|
                0 <= i < k ==> (#[trigger] v@[i])@ == (Edit {
                    start: places[i].0,
                    end: places[i].1,
                    text: at_text(texts[i]),
                }),
            forall|i: int| 0 <= i < k ==> fits(bytes_of(content@), (#[trigger] v@[i])@),
        decreases spans@.len() - k,
    {
        assert(places[k as int] == span_of(spans@[k as int]));
        assert(texts[k as int] == ats@[k as int]@);
        v.push(SexpEdit::replace(spans[k].0, spans[k].1, format_at(&ats[k])));
        k = k + 1;
    }
    assert(edits_of(v@) =~= rewrites(places, texts));
    Ok(v)
}

} // verus!
