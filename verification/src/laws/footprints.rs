//! What is done to the footprints of a board.
use crate::answer::{error_answer, Answer, Failure};
use crate::board::{anchor, anchor_from, at_numbers, close_of, head_in, AtText, BoardError};
use crate::components::{
    aligned, aligned_at, anchors, array_placed, back_side, blocks, deleted, duplicated, moved,
    numbers_at, placed, renamed_copy, rotated, slot, valued, PlacementText,
};
use crate::edits::{edited, Edit};
use crate::footprint::{
    child_anchor, child_anchors, footprint_from, footprint_span, lemma_child_anchors,
    lemma_footprint_from, places_a_child, rewrites, rotation_places,
};
use crate::laws::text::stands;
use crate::moving::lemma_anchor_first;
use crate::placing::{board_ready, header_edits, prepared, turned};
use crate::property::{escaped, property_span, says, value_end, with_uuids};
use crate::scan::{balanced_block, child_spans};
use crate::text::{bytes_of, find_at, lemma_find, occurs_at, text_of};
use crate::tracks::line_start;
use crate::words::nat_chars;
use vstd::prelude::*;
use vstd::string::*;
use vstd::utf8::*;

verus! {

// Places
/// The place of a block is the first list directly inside it that begins with
/// `at`.
pub proof fn law_the_place_of_a_block(t: Seq<u8>, a: (int, int))
    ensures
        anchor(t) == Some(a) <==> exists|m: int|
            0 <= m < child_spans(t).len() && #[trigger] child_spans(t)[m] == a && head_in(t, a)
                == "at"@ && forall|j: int|
                0 <= j < m ==> head_in(t, #[trigger] child_spans(t)[j]) != "at"@,
{
    if anchor(t) == Some(a) {
        let m = lemma_anchor_first(t, 0);
        assert(child_spans(t)[m] == a);
    }
    if exists|m: int|
        0 <= m < child_spans(t).len() && #[trigger] child_spans(t)[m] == a && head_in(t, a)
            == "at"@ && forall|j: int|
            0 <= j < m ==> head_in(t, #[trigger] child_spans(t)[j]) != "at"@ {
        let m = choose|m: int|
            0 <= m < child_spans(t).len() && #[trigger] child_spans(t)[m] == a && head_in(t, a)
                == "at"@ && forall|j: int|
                0 <= j < m ==> head_in(t, #[trigger] child_spans(t)[j]) != "at"@;
        lemma_anchor_at(t, 0, m);
    }
}

proof fn lemma_anchor_at(t: Seq<u8>, k: int, m: int)
    requires
        0 <= k <= m < child_spans(t).len(),
        head_in(t, child_spans(t)[m]) == "at"@,
        forall|j: int| k <= j < m ==> head_in(t, #[trigger] child_spans(t)[j]) != "at"@,
    ensures
        anchor_from(t, k) == Some(child_spans(t)[m]),
    decreases m - k,
{
    if k < m {
        assert(head_in(t, child_spans(t)[k]) != "at"@);
        lemma_anchor_at(t, k + 1, m);
    }
}

/// The span `a` is the place of list number `m` inside the block, and that list
/// is a pad, a property or a text.
pub open spec fn is_own_place(t: Seq<u8>, m: int, a: (int, int)) -> bool {
    let c = child_spans(t)[m];
    &&& 0 <= m < child_spans(t).len()
    &&& head_in(t, c) == "pad"@ || head_in(t, c) == "property"@ || head_in(t, c) == "fp_text"@
    &&& anchor(t.subrange(c.0, c.1)) == Some((a.0 - c.0, a.1 - c.0))
}

/// The span is the place of a pad, a property or a text of the block.
pub open spec fn is_some_place(t: Seq<u8>, a: (int, int)) -> bool {
    exists|m: int| is_own_place(t, m, a)
}

/// A rotation touches the place of the footprint first, then the places of its
/// pads, its properties and its texts, all of them, in their order, and no
/// others.
pub proof fn law_rotation_touches_pads_properties_and_texts(h: Seq<u8>, span: (int, int))
    requires
        0 <= span.0 <= span.1 <= h.len(),
        valid_utf8(h.subrange(span.0, span.1)),
    ensures
        ({
            let t = h.subrange(span.0, span.1);
            match rotation_places(h, span) {
                None => anchor(t) is None,
                Some(v) => {
                    &&& v.len() > 0
                    &&& anchor(t) == Some((v[0].0 - span.0, v[0].1 - span.0))
                    &&& forall|m: int, a: (int, int)|
                        #[trigger] is_own_place(t, m, a) ==> exists|i: int|
                            1 <= i < v.len() && #[trigger] v[i] == (a.0 + span.0, a.1 + span.0)
                    &&& forall|i: int|
                        1 <= i < v.len() ==> is_some_place(
                            t,
                            ((#[trigger] v[i]).0 - span.0, v[i].1 - span.0),
                        )
                    &&& forall|i: int, j: int|
                        1 <= i < j < v.len() ==> (#[trigger] v[i]).1 <= (#[trigger] v[j]).0
                },
            }
        }),
{
    let t = h.subrange(span.0, span.1);
    let n = child_spans(t).len() as int;
    let rest = child_anchors(t, n);
    if let Some(v) = rotation_places(h, span) {
        lemma_child_anchors(t, n);
        assert(forall|i: int|
            1 <= i < v.len() ==> #[trigger] v[i] == (rest[i - 1].0 + span.0, rest[i - 1].1 + span.0));
        assert(v[0] == (anchor(t).unwrap().0 + span.0, anchor(t).unwrap().1 + span.0));
        assert forall|i: int, j: int| 1 <= i < j < v.len() implies (#[trigger] v[i]).1 <= (
        #[trigger] v[j]).0 by {
            assert(rest[i - 1].1 <= rest[j - 1].0);
        }
        assert forall|m: int, a: (int, int)| #[trigger] is_own_place(t, m, a) implies exists|i: int|
            1 <= i < v.len() && #[trigger] v[i] == (a.0 + span.0, a.1 + span.0) by {
            lemma_own_place(t, m, a);
            lemma_listed(t, n, m);
            let i = choose|i: int| 0 <= i < rest.len() && #[trigger] rest[i] == a;
            assert(v[i + 1] == (a.0 + span.0, a.1 + span.0));
        }
        assert forall|i: int| 1 <= i < v.len() implies is_some_place(
            t,
            ((#[trigger] v[i]).0 - span.0, v[i].1 - span.0),
        ) by {
            let a = rest[i - 1];
            assert(places_a_child(t, n, a));
            let m = choose|m: int|
                0 <= m < n && #[trigger] child_anchor(t, child_spans(t)[m]) == Some(a);
            lemma_is_own_place(t, m, a);
            assert(is_own_place(t, m, (v[i].0 - span.0, v[i].1 - span.0)));
        }
    }
}

proof fn lemma_own_place(t: Seq<u8>, m: int, a: (int, int))
    requires
        is_own_place(t, m, a),
    ensures
        child_anchor(t, child_spans(t)[m]) == Some(a),
{
}

proof fn lemma_is_own_place(t: Seq<u8>, m: int, a: (int, int))
    requires
        0 <= m < child_spans(t).len(),
        child_anchor(t, child_spans(t)[m]) == Some(a),
    ensures
        is_own_place(t, m, a),
{
}

proof fn lemma_listed(t: Seq<u8>, k: int, m: int)
    requires
        0 <= m < k <= child_spans(t).len(),
        child_anchor(t, child_spans(t)[m]) is Some,
    ensures
        exists|i: int|
            0 <= i < child_anchors(t, k).len() && #[trigger] child_anchors(t, k)[i] == child_anchor(
                t,
                child_spans(t)[m],
            ).unwrap(),
    decreases k,
{
    let a = child_anchor(t, child_spans(t)[m]).unwrap();
    let now = child_anchors(t, k);
    if m == k - 1 {
        assert(now[now.len() - 1] == a);
    } else {
        lemma_listed(t, k - 1, m);
        let before = child_anchors(t, k - 1);
        let i = choose|i: int| 0 <= i < before.len() && #[trigger] before[i] == a;
        assert(now[i] == a);
    }
}

/// The text of a place.
pub open spec fn place_list(at: AtText) -> Seq<char> {
    match at.rot {
        Some(r) => "(at "@ + at.x + " "@ + at.y + " "@ + r + ")"@,
        None => "(at "@ + at.x + " "@ + at.y + ")"@,
    }
}

/// Each span gets the text of the place with its number, as far as there are
/// both.
pub open spec fn each_gets_its_place(
    es: Seq<Edit>,
    v: Seq<(int, int)>,
    ats: Seq<AtText>,
) -> bool {
    &&& es.len() == v.len() || es.len() == ats.len()
    &&& es.len() <= v.len() && es.len() <= ats.len()
    &&& forall|k: int|
        0 <= k < es.len() ==> (#[trigger] es[k]).start == v[k].0 && es[k].end == v[k].1 && es[k].text
            == place_list(ats[k])
}

proof fn lemma_each(es: Seq<Edit>, v: Seq<(int, int)>, ats: Seq<AtText>)
    requires
        each_gets_its_place(es, v, ats),
    ensures
        es == rewrites(v, ats),
{
    assert(es =~= rewrites(v, ats)) by {
        assert forall|k: int| 0 <= k < es.len() implies es[k] == rewrites(v, ats)[k] by {
            assert(es[k].start == v[k].0);
        }
    }
}

/// A footprint that is rotated has each of its places rewritten, and the board
/// is as it was otherwise; without the footprint, or without its place, nothing
/// is done.
pub proof fn law_rotation_rewrites_the_places(
    h: Seq<u8>,
    reference: Seq<char>,
    ats: Seq<AtText>,
    es: Seq<Edit>,
)
    ensures
        footprint_span(h, reference) is None ==> rotated(h, reference, ats) == Err::<
            Seq<u8>,
            Failure,
        >(Failure::Reported(error_answer("Footprint '"@ + reference + "' not found"@))),
        footprint_span(h, reference) matches Some(span) ==> match rotation_places(h, span) {
            None => rotated(h, reference, ats) == Err::<Seq<u8>, Failure>(
                Failure::Raised("Footprint has no (at) anchor"@),
            ),
            Some(v) => each_gets_its_place(es, v, ats) ==> rotated(
                h,
                reference,
                ats,
            ) == Ok::<Seq<u8>, Failure>(edited(h, es)),
        },
{
    if let Some(span) = footprint_span(h, reference) {
        if let Some(v) = rotation_places(h, span) {
            if each_gets_its_place(es, v, ats) {
                lemma_each(es, v, ats);
            }
        }
    }
}

/// A footprint that is moved gets another place and nothing else.
pub proof fn law_moving_rewrites_the_place(h: Seq<u8>, reference: Seq<char>, at: AtText)
    ensures
        footprint_span(h, reference) is None ==> moved(h, reference, at) == Err::<
            Seq<u8>,
            Failure,
        >(Failure::Reported(error_answer("Footprint '"@ + reference + "' not found"@))),
        footprint_span(h, reference) matches Some(span) ==> match anchor(
            h.subrange(span.0, span.1),
        ) {
            None => moved(h, reference, at) == Err::<Seq<u8>, Failure>(
                Failure::Raised("Footprint has no (at) anchor"@),
            ),
            Some(a) => moved(h, reference, at) == Ok::<Seq<u8>, Failure>(
                h.subrange(0, span.0 + a.0) + bytes_of(place_list(at)) + h.subrange(
                    span.0 + a.1,
                    h.len() as int,
                ),
            ),
        },
{
}

/// A footprint that is deleted is gone with its indentation, and the rest of the
/// board stays.
pub proof fn law_deleting_leaves_the_block_out(h: Seq<u8>, reference: Seq<char>)
    ensures
        match footprint_span(h, reference) {
            None => deleted(h, reference) == Err::<Seq<u8>, Answer>(
                error_answer("Footprint '"@ + reference + "' not found"@),
            ),
            Some(span) => deleted(h, reference) == Ok::<Seq<u8>, Answer>(
                h.subrange(0, line_start(h, span.0)) + h.subrange(span.1, h.len() as int),
            ),
        },
{
    assert(bytes_of(Seq::<char>::empty()) =~= Seq::<u8>::empty());
    if let Some(span) = footprint_span(h, reference) {
        assert(h.subrange(0, line_start(h, span.0)) + Seq::<u8>::empty() =~= h.subrange(
            0,
            line_start(h, span.0),
        ));
    }
}

/// A new value takes the place of the old one, escaped.
pub proof fn law_editing_writes_the_value(h: Seq<u8>, reference: Seq<char>, value: Seq<char>)
    ensures
        match footprint_span(h, reference) {
            None => valued(h, reference, value) == Err::<Seq<u8>, Failure>(
                Failure::Reported(error_answer("Footprint '"@ + reference + "' not found"@)),
            ),
            Some(span) => match property_span(h.subrange(span.0, span.1), "Value"@) {
                None => valued(h, reference, value) == Err::<Seq<u8>, Failure>(
                    Failure::Raised("Footprint has no Value property"@),
                ),
                Some(v) => valued(h, reference, value) == Ok::<Seq<u8>, Failure>(
                    h.subrange(0, span.0 + v.0) + bytes_of(escaped(value)) + h.subrange(
                        span.0 + v.1,
                        h.len() as int,
                    ),
                ),
            },
        },
{
}

// Finding
/// A footprint is found by its reference only if it has it: what is found is a
/// balanced block that begins with the word and says the reference, and no block
/// that the search passed over says it.
pub proof fn law_found_footprint_says_its_reference(h: Seq<u8>, reference: Seq<char>)
    requires
        valid_utf8(h),
        footprint_span(h, reference) is Some,
    ensures
        ({
            let b = footprint_span(h, reference).unwrap();
            &&& 0 <= b.0 < b.1 <= h.len()
            &&& stands(h, bytes_of("(footprint"@), b.0)
            &&& balanced_block(h, b.0) == Some(b)
            &&& says(h.subrange(b.0, b.1), "Reference"@, reference)
        }),
{
    lemma_footprint_from(h, reference, 0);
    let b = footprint_span(h, reference).unwrap();
    let p = bytes_of("(footprint"@);
    assert forall|k: int| 0 <= k < p.len() implies h[b.0 + k] == #[trigger] p[k] by {
        assert(h.subrange(b.0, b.0 + p.len())[k] == p[k]);
    }
}

/// The search goes from block to block: where the first block from `pos` on does
/// not say the reference, what is found is what is found behind it.
pub proof fn law_search_goes_from_block_to_block(h: Seq<u8>, reference: Seq<char>, pos: int, s: int)
    requires
        0 <= pos <= s,
        valid_utf8(h),
        stands(h, bytes_of("(footprint"@), s),
        forall|j: int| pos <= j < s ==> !#[trigger] stands(h, bytes_of("(footprint"@), j),
        balanced_block(h, s) is Some,
    ensures
        ({
            let b = balanced_block(h, s).unwrap();
            footprint_from(h, reference, pos) == (if says(
                h.subrange(b.0, b.1),
                "Reference"@,
                reference,
            ) {
                Some(b)
            } else {
                footprint_from(h, reference, b.1)
            })
        }),
{
    crate::laws::text::law_search_finds_the_first(h, bytes_of("(footprint"@), pos);
    assert(stands(h, bytes_of("(footprint"@), s));
    crate::scan::lemma_block_end(h, s, s);
}

// Aligning
/// Aligning along one axis keeps the other coordinate and the angle.
pub proof fn law_aligning_changes_one_coordinate(axis: Seq<char>, value: Seq<char>, at: AtText)
    ensures
        axis == "y"@ ==> aligned_at(axis, value, at) == (AtText { y: value, ..at }),
        axis != "y"@ ==> aligned_at(axis, value, at) == (AtText { x: value, ..at }),
{
}

/// The place of a footprint of the board.
pub open spec fn is_place_of(h: Seq<u8>, reference: Seq<char>, a: (int, int)) -> bool {
    footprint_span(h, reference) matches Some(span) && anchor(h.subrange(span.0, span.1)) == Some(
        (a.0 - span.0, a.1 - span.0),
    )
}

/// The board has the footprint, and it has a place.
pub open spec fn has_place(h: Seq<u8>, reference: Seq<char>) -> bool {
    exists|a: (int, int)| is_place_of(h, reference, a)
}

/// Footprints are aligned all together: each gets the place with its number, and
/// if one of them or its place is missing, that is told and nothing is done.
pub proof fn law_aligning_rewrites_each_place(
    h: Seq<u8>,
    refs: Seq<Seq<char>>,
    ats: Seq<AtText>,
    v: Seq<(int, int)>,
    es: Seq<Edit>,
)
    requires
        ats.len() == refs.len(),
    ensures
        v.len() == refs.len() && (forall|k: int|
            0 <= k < refs.len() ==> is_place_of(h, #[trigger] refs[k], v[k]))
            && each_gets_its_place(es, v, ats) ==> aligned(h, refs, ats) == Ok::<Seq<u8>, Answer>(
            edited(h, es),
        ),
        (exists|k: int| 0 <= k < refs.len() && footprint_span(h, #[trigger] refs[k]) is None)
            ==> aligned(h, refs, ats) is Err,
        (exists|k: int|
            0 <= k < refs.len() && !has_place(h, #[trigger] refs[k]))
            ==> aligned(h, refs, ats) is Err,
{
    let n = refs.len() as int;
    lemma_anchors(h, refs, n);
    if v.len() == refs.len() && (forall|k: int|
        0 <= k < refs.len() ==> is_place_of(h, #[trigger] refs[k], v[k])) && each_gets_its_place(
        es,
        v,
        ats,
    ) {
        lemma_anchors_are(h, refs, v, n);
        assert(v.subrange(0, n) =~= v);
        lemma_each(es, v, ats);
    }
    if aligned(h, refs, ats) is Ok {
        let w = anchors(h, refs, n)->Ok_0;
        assert forall|k: int| 0 <= k < n implies has_place(h, #[trigger] refs[k]) by {
            assert(is_place_of(h, refs[k], w[k]));
        }
    }
}

proof fn lemma_anchors(h: Seq<u8>, refs: Seq<Seq<char>>, k: int)
    requires
        0 <= k <= refs.len(),
    ensures
        anchors(h, refs, k) matches Ok(v) ==> v.len() == k && forall|i: int|
            0 <= i < k ==> is_place_of(h, #[trigger] refs[i], v[i]),
    decreases k,
{
    if k > 0 {
        lemma_anchors(h, refs, k - 1);
    }
}

proof fn lemma_anchors_are(h: Seq<u8>, refs: Seq<Seq<char>>, v: Seq<(int, int)>, k: int)
    requires
        0 <= k <= refs.len(),
        v.len() == refs.len(),
        forall|i: int| 0 <= i < refs.len() ==> is_place_of(h, #[trigger] refs[i], v[i]),
    ensures
        anchors(h, refs, k) == Ok::<Seq<(int, int)>, Answer>(v.subrange(0, k)),
    decreases k,
{
    if k > 0 {
        lemma_anchors_are(h, refs, v, k - 1);
        assert(is_place_of(h, refs[k - 1], v[k - 1]));
        assert(v.subrange(0, k - 1).push(v[k - 1]) =~= v.subrange(0, k));
    } else {
        assert(v.subrange(0, 0) =~= Seq::<(int, int)>::empty());
    }
}

/// The first reference without a footprint is the one that is told.
pub proof fn law_the_first_missing_footprint_is_told(
    h: Seq<u8>,
    refs: Seq<Seq<char>>,
    ats: Seq<AtText>,
    k: int,
)
    requires
        0 <= k < refs.len(),
        footprint_span(h, refs[k]) is None,
        forall|i: int| 0 <= i < k ==> has_place(h, #[trigger] refs[i]),
    ensures
        aligned(h, refs, ats) == Err::<Seq<u8>, Answer>(
            error_answer("Footprint '"@ + refs[k] + "' not found"@),
        ),
{
    lemma_ok_up_to(h, refs, k);
    lemma_err_stays(h, refs, k + 1, refs.len() as int);
}

proof fn lemma_ok_up_to(h: Seq<u8>, refs: Seq<Seq<char>>, k: int)
    requires
        0 <= k <= refs.len(),
        forall|i: int| 0 <= i < k ==> has_place(h, #[trigger] refs[i]),
    ensures
        anchors(h, refs, k) is Ok,
    decreases k,
{
    if k > 0 {
        lemma_ok_up_to(h, refs, k - 1);
        let r = refs[k - 1];
        assert(has_place(h, r));
        let a = choose|a: (int, int)| is_place_of(h, r, a);
        assert(is_place_of(h, r, a));
    }
}

proof fn lemma_err_stays(h: Seq<u8>, refs: Seq<Seq<char>>, k: int, n: int)
    requires
        0 <= k <= n <= refs.len(),
        anchors(h, refs, k) is Err,
    ensures
        anchors(h, refs, n) == anchors(h, refs, k),
    decreases n - k,
{
    if k < n {
        lemma_err_stays(h, refs, k, n - 1);
    }
}

// Copying
/// A copy of a footprint is its block with another reference; it goes to the end
/// of the board with another place and new identities.
pub proof fn law_a_copy_differs_in_reference_place_and_identities(
    h: Seq<u8>,
    reference: Seq<char>,
    new_reference: Seq<char>,
    at: AtText,
    fresh: Seq<Seq<char>>,
)
    ensures
        match footprint_span(h, reference) {
            None => duplicated(h, reference, new_reference, at, fresh) == Err::<Seq<u8>, Failure>(
                Failure::Reported(error_answer("Footprint '"@ + reference + "' not found"@)),
            ),
            Some(span) => {
                let t = h.subrange(span.0, span.1);
                match property_span(t, "Reference"@) {
                    None => duplicated(h, reference, new_reference, at, fresh) == Err::<
                        Seq<u8>,
                        Failure,
                    >(Failure::Raised("Footprint block has no Reference property"@)),
                    Some(v) => {
                        let named = t.subrange(0, v.0) + bytes_of(escaped(new_reference))
                            + t.subrange(v.1, t.len() as int);
                        let u = with_uuids(named, fresh, 0);
                        let c = close_of(h);
                        match anchor(u) {
                            None => duplicated(h, reference, new_reference, at, fresh) == Err::<
                                Seq<u8>,
                                Failure,
                            >(Failure::Raised("Footprint has no (at) anchor"@)),
                            Some(a) => duplicated(h, reference, new_reference, at, fresh) == Ok::<
                                Seq<u8>,
                                Failure,
                            >(
                                h.subrange(0, c) + (bytes_of("\n  "@) + (u.subrange(0, a.0)
                                    + bytes_of(place_list(at)) + u.subrange(a.1, u.len() as int)))
                                    + h.subrange(c, h.len() as int),
                            ),
                        }
                    },
                }
            },
        },
{
    if let Ok(t) = renamed_copy(h, reference, new_reference) {
        let u = with_uuids(t, fresh, 0);
        assert(u.subrange(0, u.len() as int) =~= u);
    }
}

// Placing
/// The file fallback does not place on the back of the board, and it needs the
/// library footprint.
pub proof fn law_placing_needs_the_front_and_the_library(
    h: Seq<u8>,
    m: Option<Seq<u8>>,
    footprint: Seq<char>,
    layer: Seq<char>,
    p: PlacementText,
    ats: Option<Seq<AtText>>,
)
    ensures
        (layer.len() >= 2 && layer.subrange(0, 2) == "B."@) ==> placed(
            h,
            m,
            footprint,
            layer,
            p,
            ats,
        ) == Err::<Seq<u8>, Failure>(
            Failure::Reported(
                error_answer(
                    "place_component file fallback cannot place on back-side layers (footprint flipping requires KiCAD). Start KiCAD with the board open, or place on F.Cu."@,
                ),
            ),
        ),
        !(layer.len() >= 2 && layer.subrange(0, 2) == "B."@) && m is None ==> placed(
            h,
            m,
            footprint,
            layer,
            p,
            ats,
        ) == Err::<Seq<u8>, Failure>(
            Failure::Reported(
                error_answer(
                    "Footprint '"@ + footprint
                        + "' not found via fp-lib-table or standard library paths"@,
                ),
            ),
        ),
        back_side(layer) <==> layer.len() >= 2 && layer.subrange(0, 2) == "B."@,
{
    reveal_strlit("B.");
    if layer.len() >= 2 {
        let two = layer.subrange(0, 2);
        assert(two == "B."@ ==> two[0] == 'B' && two[1] == '.');
        assert(two[0] == layer[0] && two[1] == layer[1]);
        if layer[0] == 'B' && layer[1] == '.' {
            assert(two =~= "B."@);
        }
    }
}

/// What is placed goes to the end of the board on a line of its own, with new
/// identities.
pub proof fn law_placing_appends_the_block(
    h: Seq<u8>,
    m: Seq<u8>,
    footprint: Seq<char>,
    layer: Seq<char>,
    p: PlacementText,
    ats: Option<Seq<AtText>>,
)
    requires
        !(layer.len() >= 2 && layer[0] == 'B' && layer[1] == '.'),
    ensures
        match board_ready(m, footprint, p.reference, p.x, p.y, p.uuid, ats) {
            Err(e) => placed(h, Some(m), footprint, layer, p, ats) == Err::<Seq<u8>, Failure>(
                Failure::Raised(e.text()),
            ),
            Ok(t) => {
                let c = close_of(h);
                placed(h, Some(m), footprint, layer, p, ats) == Ok::<Seq<u8>, Failure>(
                    h.subrange(0, c) + (bytes_of("\n  "@) + with_uuids(t, p.fresh, 0)) + h.subrange(
                        c,
                        h.len() as int,
                    ),
                )
            },
        },
{
}

/// A library footprint comes onto the board under its full name, with a place
/// and an identity behind the name, without the headers of a library file, and
/// with its reference set; then, if it is turned, each of its places is
/// rewritten.
pub proof fn law_a_library_footprint_is_made_ready(
    m: Seq<u8>,
    lib_id: Seq<char>,
    reference: Seq<char>,
    x: Seq<char>,
    y: Seq<char>,
    uuid: Seq<char>,
    s: int,
    b: (int, int),
    q: int,
    e: int,
    es: Seq<Edit>,
)
    requires
        stands(m, bytes_of("(footprint"@), s),
        forall|j: int| 0 <= j < s ==> !#[trigger] stands(m, bytes_of("(footprint"@), j),
        balanced_block(m, s) == Some(b),
        ({
            let t = m.subrange(b.0, b.1);
            &&& 0 <= q < t.len()
            &&& t[q] == 34
            &&& forall|j: int| 0 <= j < q ==> t[j] != 34
            &&& value_end(t, q + 1) == Some(e)
        }),
        ({
            let t = m.subrange(b.0, b.1);
            let r = t.subrange(0, q + 1) + bytes_of(escaped(lib_id)) + t.subrange(
                e,
                t.len() as int,
            );
            let after = q + 2 + bytes_of(escaped(lib_id)).len();
            es == header_edits(r, child_spans(r).len() as int).push(
                Edit { start: after, end: after, text: "\n    (at "@ + x + " "@ + y + ")"@ },
            ).push(Edit { start: after, end: after, text: "\n    (uuid \""@ + uuid + "\")"@ })
        }),
    ensures
        ({
            let t = m.subrange(b.0, b.1);
            let r = t.subrange(0, q + 1) + bytes_of(escaped(lib_id)) + t.subrange(
                e,
                t.len() as int,
            );
            let i = edited(r, es);
            prepared(m, lib_id, reference, x, y, uuid) == (match property_span(i, "Reference"@) {
                None => Err::<Seq<u8>, BoardError>(BoardError::NoReference),
                Some(v) => Ok(
                    i.subrange(0, v.0) + bytes_of(escaped(reference)) + i.subrange(
                        v.1,
                        i.len() as int,
                    ),
                ),
            })
        }),
{
    let t = m.subrange(b.0, b.1);
    let p = bytes_of("(footprint"@);
    crate::laws::text::law_search_finds_the_first(m, p, 0);
    let f = find_at(m, p, 0).unwrap();
    assert(stands(m, p, s) && stands(m, p, f));
    assert(f == s);
    crate::scan::lemma_block_end(m, s, s);
    let k = bytes_of("\""@);
    reveal_strlit("\"");
    is_ascii_chars_encode_utf8("\""@);
    assert(k =~= seq![34u8]);
    lemma_find(t, k, 0);
    assert(t.subrange(q, q + 1) =~= k);
    assert(occurs_at(t, k, q));
    assert forall|j: int| 0 <= j < q implies !occurs_at(t, k, j) by {
        if occurs_at(t, k, j) {
            assert(t.subrange(j, j + 1)[0] == t[j]);
        }
    }
    assert(find_at(t, k, 0) == Some(q));
}

/// The headers that only library files have, the version and the generator, are
/// left out with their indentation, list by list; no other list is.
pub proof fn law_library_headers_are_left_out(r: Seq<u8>, k: int)
    requires
        0 <= k < child_spans(r).len(),
    ensures
        header_edits(r, 0).len() == 0,
        ({
            let c = child_spans(r)[k];
            let head = head_in(r, c);
            header_edits(r, k + 1) == (if head == "version"@ || head == "generator"@ || head
                == "generator_version"@ {
                header_edits(r, k).push(
                    Edit { start: line_start(r, c.0), end: c.1, text: Seq::empty() },
                )
            } else {
                header_edits(r, k)
            })
        }),
{
}

/// A turned footprint has each of its places rewritten; one that is not turned
/// stays as it is.
pub proof fn law_turning_rewrites_the_places(t: Seq<u8>, ats: Seq<AtText>, es: Seq<Edit>)
    ensures
        turned(t, None) == Ok::<Seq<u8>, BoardError>(t),
        match rotation_places(t, (0, t.len() as int)) {
            None => turned(t, Some(ats)) == Err::<Seq<u8>, BoardError>(BoardError::NoAnchor),
            Some(v) => each_gets_its_place(es, v, ats) ==> turned(
                t,
                Some(ats),
            ) == Ok::<Seq<u8>, BoardError>(edited(t, es)),
        },
{
    if let Some(v) = rotation_places(t, (0, t.len() as int)) {
        if each_gets_its_place(es, v, ats) {
            lemma_each(es, v, ats);
        }
    }
}

/// What is made ready is what is prepared, and then turned.
pub proof fn law_ready_is_prepared_and_turned(
    m: Seq<u8>,
    lib_id: Seq<char>,
    reference: Seq<char>,
    x: Seq<char>,
    y: Seq<char>,
    uuid: Seq<char>,
    ats: Option<Seq<AtText>>,
)
    ensures
        board_ready(m, lib_id, reference, x, y, uuid, ats) == (match prepared(
            m,
            lib_id,
            reference,
            x,
            y,
            uuid,
        ) {
            Ok(t) => turned(t, ats),
            Err(e) => Err(e),
        }),
        (forall|s: int| !#[trigger] stands(m, bytes_of("(footprint"@), s)) ==> prepared(
            m,
            lib_id,
            reference,
            x,
            y,
            uuid,
        ) == Err::<Seq<u8>, BoardError>(BoardError::NoFootprintBlock),
{
    crate::laws::text::law_search_finds_the_first(m, bytes_of("(footprint"@), 0);
    if let Some(i) = find_at(m, bytes_of("(footprint"@), 0) {
        assert(stands(m, bytes_of("(footprint"@), i));
    }
}

/// The copies of an array stand row by row, each numbered on from the start.
pub proof fn law_an_array_goes_row_by_row(
    prefix: Seq<char>,
    start: int,
    count_x: int,
    row: int,
    col: int,
)
    requires
        0 <= row,
        0 <= col < count_x,
    ensures
        ({
            let s = slot(prefix, start, count_x, row * count_x + col);
            &&& s.row == row
            &&& s.col == col
            &&& s.reference == prefix + nat_chars(start + row * count_x + col)
        }),
{
    vstd::arithmetic::div_mod::lemma_fundamental_div_mod_converse(
        row * count_x + col,
        count_x,
        row,
        col,
    );
}

/// An array is its copies one after the other, unturned; the first that fails
/// makes all of them fail.
pub proof fn law_an_array_is_its_copies(
    h: Seq<u8>,
    m: Seq<u8>,
    footprint: Seq<char>,
    items: Seq<PlacementText>,
    k: int,
)
    requires
        0 <= k < items.len(),
    ensures
        blocks(m, footprint, items, 0) == Ok::<Seq<u8>, BoardError>(Seq::empty()),
        blocks(m, footprint, items, k + 1) == (match blocks(m, footprint, items, k) {
            Err(e) => Err::<Seq<u8>, BoardError>(e),
            Ok(b) => match board_ready(
                m,
                footprint,
                items[k].reference,
                items[k].x,
                items[k].y,
                items[k].uuid,
                None,
            ) {
                Err(e) => Err(e),
                Ok(t) => Ok(b + (bytes_of("\n  "@) + with_uuids(t, items[k].fresh, 0))),
            },
        }),
        array_placed(h, None, footprint, items) == Err::<Seq<u8>, Failure>(
            Failure::Reported(
                error_answer(
                    "Footprint '"@ + footprint
                        + "' not found via fp-lib-table or standard library paths"@,
                ),
            ),
        ),
        array_placed(h, Some(m), footprint, items) == (match blocks(
            m,
            footprint,
            items,
            items.len() as int,
        ) {
            Err(e) => Err::<Seq<u8>, Failure>(Failure::Raised(e.text())),
            Ok(b) => Ok(
                h.subrange(0, close_of(h)) + b + h.subrange(close_of(h), h.len() as int),
            ),
        }),
{
}

/// The numbers of each place are told in the order of the places.
pub proof fn law_the_numbers_of_each_place_are_told(h: Seq<u8>, v: Seq<(int, int)>, k: int)
    requires
        0 <= k < v.len(),
    ensures
        numbers_at(h, v).len() == v.len(),
        numbers_at(h, v)[k] == at_numbers(text_of(h.subrange(v[k].0, v[k].1))),
{
}

/// The first footprint without a place is the one that is told.
pub proof fn law_the_first_footprint_without_a_place_is_told(
    h: Seq<u8>,
    refs: Seq<Seq<char>>,
    ats: Seq<AtText>,
    k: int,
)
    requires
        0 <= k < refs.len(),
        footprint_span(h, refs[k]) is Some,
        !has_place(h, refs[k]),
        forall|i: int| 0 <= i < k ==> has_place(h, #[trigger] refs[i]),
    ensures
        aligned(h, refs, ats) == Err::<Seq<u8>, Answer>(
            error_answer("Footprint '"@ + refs[k] + "' has no (at) anchor"@),
        ),
{
    lemma_ok_up_to(h, refs, k);
    let r = refs[k];
    let span = footprint_span(h, r).unwrap();
    if let Some(a) = anchor(h.subrange(span.0, span.1)) {
        assert(is_place_of(h, r, (a.0 + span.0, a.1 + span.0)));
    }
    lemma_err_stays(h, refs, k + 1, refs.len() as int);
}

/// The search for a footprint ends where no more words of a footprint stand, and at
/// a block that is never closed.
pub proof fn law_footprint_search_ends(h: Seq<u8>, reference: Seq<char>, pos: int, s: int)
    requires
        0 <= pos,
    ensures
        (forall|j: int| pos <= j ==> !#[trigger] stands(h, bytes_of("(footprint"@), j))
            ==> footprint_from(h, reference, pos) is None,
        pos <= s && stands(h, bytes_of("(footprint"@), s) && (forall|j: int|
            pos <= j < s ==> !#[trigger] stands(h, bytes_of("(footprint"@), j)) && balanced_block(h, s)
            is None ==> footprint_from(h, reference, pos) is None,
{
    let p = bytes_of("(footprint"@);
    crate::laws::text::law_search_finds_the_first(h, p, pos);
    if let Some(i) = find_at(h, p, pos) {
        assert(stands(h, p, i));
    }
}

/// A library file whose block is never closed, has no name, or a name that is
/// never closed, is refused for that.
pub proof fn law_a_broken_library_footprint_is_refused(
    m: Seq<u8>,
    lib_id: Seq<char>,
    reference: Seq<char>,
    x: Seq<char>,
    y: Seq<char>,
    uuid: Seq<char>,
    s: int,
)
    requires
        0 <= s,
        stands(m, bytes_of("(footprint"@), s),
        forall|j: int| 0 <= j < s ==> !#[trigger] stands(m, bytes_of("(footprint"@), j),
    ensures
        ({
            let r = prepared(m, lib_id, reference, x, y, uuid);
            match balanced_block(m, s) {
                None => r == Err::<Seq<u8>, BoardError>(BoardError::Unbalanced),
                Some(b) => {
                    let t = m.subrange(b.0, b.1);
                    &&& (forall|j: int| 0 <= j < t.len() ==> t[j] != 34) ==> r == Err::<
                        Seq<u8>,
                        BoardError,
                    >(BoardError::NoName)
                    &&& (exists|q: int| #[trigger] is_first_quote(t, q) && value_end(t, q + 1) is None)
                        ==> r == Err::<Seq<u8>, BoardError>(BoardError::UnterminatedName)
                },
            }
        }),
{
    let p = bytes_of("(footprint"@);
    crate::laws::text::law_search_finds_the_first(m, p, 0);
    assert(stands(m, p, s));
    assert(find_at(m, p, 0) == Some(s));
    if let Some(b) = balanced_block(m, s) {
        let t = m.subrange(b.0, b.1);
        let k = bytes_of("\""@);
        reveal_strlit("\"");
        is_ascii_chars_encode_utf8("\""@);
        assert(k =~= seq![34u8]);
        lemma_find(t, k, 0);
        if let Some(i) = find_at(t, k, 0) {
            assert(t.subrange(i, i + 1)[0] == t[i]);
        }
        if exists|q: int| #[trigger] is_first_quote(t, q) && value_end(t, q + 1) is None {
            let q = choose|q: int| #[trigger] is_first_quote(t, q) && value_end(t, q + 1) is None;
            assert(t.subrange(q, q + 1) =~= k);
            assert(occurs_at(t, k, q));
            let i = find_at(t, k, 0).unwrap();
            assert(i == q);
        }
    }
}

/// The first quote of a text stands at `q`.
pub open spec fn is_first_quote(t: Seq<u8>, q: int) -> bool {
    0 <= q < t.len() && t[q] == 34 && forall|j: int| 0 <= j < q ==> t[j] != 34
}

} // verus!
