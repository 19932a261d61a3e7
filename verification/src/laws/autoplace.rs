//! Where autoplacement puts the fields of a schematic, and which it leaves alone.
use crate::autoplace::{
    box_owner_from, first_free, free, hits_any, hits_symbol, place_fields, progress, step, Box4,
    CandidateView, ChoicesView, ObstacleView, PartView, Progress, Unit,
};
use crate::edits::Edit;
use crate::fields::field_place;
use vstd::prelude::*;
use vstd::string::*;

verus! {

/// The larger of two numbers.
pub open spec fn larger(a: int, b: int) -> int {
    if a < b {
        b
    } else {
        a
    }
}

/// The smaller of two numbers.
pub open spec fn smaller(a: int, b: int) -> int {
    if a < b {
        a
    } else {
        b
    }
}

/// The insides of the boxes have a point in common: along both axes the later
/// of the two beginnings comes before the earlier of the two ends.
pub open spec fn overlap(a: Box4, b: Box4) -> bool {
    &&& larger(a.x1 as int, b.x1 as int) < smaller(a.x2 as int, b.x2 as int)
    &&& larger(a.y1 as int, b.y1 as int) < smaller(a.y2 as int, b.y2 as int)
}

/// The box has an inside.
pub open spec fn has_inside(b: Box4) -> bool {
    b.x1 < b.x2 && b.y1 < b.y2
}

/// Two boxes overlap exactly where they have inside points in common, here
/// counted in halves of a unit.
pub proof fn law_overlap_is_a_common_point(a: Box4, b: Box4)
    ensures
        overlap(a, b) <==> exists|x: int, y: int|
            #![trigger within_halves(a, x, y), within_halves(b, x, y)]
            within_halves(a, x, y) && within_halves(b, x, y),
{
    if overlap(a, b) {
        let x = 2 * larger(a.x1 as int, b.x1 as int) + 1;
        let y = 2 * larger(a.y1 as int, b.y1 as int) + 1;
        assert(within_halves(a, x, y) && within_halves(b, x, y));
    }
}

/// The point `(x / 2, y / 2)` lies inside the box.
pub open spec fn within_halves(b: Box4, x: int, y: int) -> bool {
    2 * b.x1 < x < 2 * b.x2 && 2 * b.y1 < y < 2 * b.y2
}

/// The box overlaps a wire, a label, or the symbol of another reference.
pub open spec fn covers_drawing(o: ObstacleView, b: Box4, own: Seq<char>) -> bool {
    ||| exists|i: int| 0 <= i < o.wires.len() && overlap(b, #[trigger] o.wires[i])
    ||| exists|i: int| 0 <= i < o.labels.len() && overlap(b, #[trigger] o.labels[i])
    ||| exists|i: int|
        0 <= i < o.symbols.len() && (#[trigger] o.symbols[i]).0 != own && overlap(b, o.symbols[i].1)
}

/// What was placed as number `j` took the candidate `c`.
pub open spec fn took(
    parts: Seq<PartView>,
    placed: Seq<(int, Option<int>)>,
    j: int,
    c: CandidateView,
) -> bool {
    &&& 0 <= j < placed.len()
    &&& 0 <= placed[j].0 < parts.len()
    &&& parts[placed[j].0].choices matches Some(cs)
    &&& placed[j].1 matches Some(k)
    &&& 0 <= k < cs.candidates.len()
    &&& c == cs.candidates[k]
}

/// The box overlaps a field that was placed before number `j`.
pub open spec fn covers_earlier(
    parts: Seq<PartView>,
    placed: Seq<(int, Option<int>)>,
    j: int,
    b: Box4,
) -> bool {
    exists|i: int, c: CandidateView|
        0 <= i < j && #[trigger] took(parts, placed, i, c) && (overlap(b, c.ref_box) || overlap(
            b,
            c.value_box,
        ))
}

/// One of the two boxes of a candidate overlaps something.
pub open spec fn is_blocked(
    o: ObstacleView,
    parts: Seq<PartView>,
    placed: Seq<(int, Option<int>)>,
    j: int,
    c: CandidateView,
    own: Seq<char>,
) -> bool {
    ||| covers_drawing(o, c.ref_box, own)
    ||| covers_drawing(o, c.value_box, own)
    ||| covers_earlier(parts, placed, j, c.ref_box)
    ||| covers_earlier(parts, placed, j, c.value_box)
}

/// All boxes of the drawing have an inside.
pub open spec fn drawn(o: ObstacleView) -> bool {
    &&& forall|i: int| 0 <= i < o.wires.len() ==> has_inside(#[trigger] o.wires[i])
    &&& forall|i: int| 0 <= i < o.labels.len() ==> has_inside(#[trigger] o.labels[i])
    &&& forall|i: int| 0 <= i < o.symbols.len() ==> has_inside((#[trigger] o.symbols[i]).1)
}

/// All boxes of all candidates have an inside.
pub open spec fn sized(parts: Seq<PartView>) -> bool {
    forall|i: int, k: int|
        0 <= i < parts.len() && (#[trigger] parts[i]).choices is Some && 0 <= k
            < parts[i].choices.unwrap().candidates.len() ==> {
            let c = #[trigger] parts[i].choices.unwrap().candidates[k];
            has_inside(c.ref_box) && has_inside(c.value_box)
        }
}

/// The fields of symbol number `i` are to be placed: its reference is asked for,
/// or none is and it does not begin with a hash; and no symbol before it has
/// that reference.
pub open spec fn is_due(parts: Seq<PartView>, only: Option<Seq<Seq<char>>>, i: int) -> bool {
    &&& 0 <= i < parts.len()
    &&& match only {
        Some(refs) => exists|m: int| 0 <= m < refs.len() && #[trigger] refs[m] == parts[i].reference,
        None => !(parts[i].reference.len() > 0 && parts[i].reference[0] == '#'),
    }
    &&& forall|m: int| 0 <= m < i ==> (#[trigger] parts[m]).reference != parts[i].reference
}

// One box
proof fn lemma_hit(a: Box4, b: Box4)
    ensures
        overlap(a, b) ==> crate::autoplace::boxes_hit(a, b),
        has_inside(a) && has_inside(b) ==> (crate::autoplace::boxes_hit(a, b) <==> overlap(a, b)),
{
}

proof fn lemma_clear(o: ObstacleView, b: Box4, own: Seq<char>)
    ensures
        !crate::autoplace::collides(o, b, own) ==> !covers_drawing(o, b, own),
        drawn(o) && has_inside(b) ==> (crate::autoplace::collides(o, b, own) <==> covers_drawing(
            o,
            b,
            own,
        )),
{
    assert forall|x: Box4| overlap(b, x) implies #[trigger] crate::autoplace::boxes_hit(b, x) by {
        lemma_hit(b, x);
    }
    if covers_drawing(o, b, own) {
        if exists|i: int| 0 <= i < o.wires.len() && overlap(b, #[trigger] o.wires[i]) {
            let i = choose|i: int| 0 <= i < o.wires.len() && overlap(b, #[trigger] o.wires[i]);
            assert(crate::autoplace::boxes_hit(b, o.wires[i]));
            assert(hits_any(b, o.wires));
        } else if exists|i: int| 0 <= i < o.labels.len() && overlap(b, #[trigger] o.labels[i]) {
            let i = choose|i: int| 0 <= i < o.labels.len() && overlap(b, #[trigger] o.labels[i]);
            assert(crate::autoplace::boxes_hit(b, o.labels[i]));
            assert(hits_any(b, o.labels));
        } else {
            let i = choose|i: int|
                0 <= i < o.symbols.len() && (#[trigger] o.symbols[i]).0 != own && overlap(
                    b,
                    o.symbols[i].1,
                );
            assert(crate::autoplace::boxes_hit(b, o.symbols[i].1));
            assert(hits_symbol(b, o.symbols, own));
        }
    }
    if drawn(o) && has_inside(b) && crate::autoplace::collides(o, b, own) {
        if hits_any(b, o.wires) {
            let i = choose|i: int|
                0 <= i < o.wires.len() && crate::autoplace::boxes_hit(b, #[trigger] o.wires[i]);
            lemma_hit(b, o.wires[i]);
        } else if hits_any(b, o.labels) {
            let i = choose|i: int|
                0 <= i < o.labels.len() && crate::autoplace::boxes_hit(b, #[trigger] o.labels[i]);
            lemma_hit(b, o.labels[i]);
        } else {
            let i = choose|i: int|
                0 <= i < o.symbols.len() && (#[trigger] o.symbols[i]).0 != own
                    && crate::autoplace::boxes_hit(b, o.symbols[i].1);
            lemma_hit(b, o.symbols[i].1);
        }
    }
}

// All symbols
/// The boxes of the candidates that were taken are taken.
#[verifier::opaque]
spec fn claims_all(parts: Seq<PartView>, p: Progress) -> bool {
    forall|j: int, c: CandidateView|
        #[trigger] took(parts, p.placed, j, c) ==> p.claimed.contains(c.ref_box)
            && p.claimed.contains(c.value_box)
}

/// No other boxes are taken.
#[verifier::opaque]
spec fn claims_only(parts: Seq<PartView>, p: Progress) -> bool {
    forall|m: int|
        0 <= m < p.claimed.len() ==> is_taken(parts, p.placed, #[trigger] p.claimed[m])
}

/// The box is one of a candidate that was taken.
spec fn is_taken(parts: Seq<PartView>, placed: Seq<(int, Option<int>)>, b: Box4) -> bool {
    exists|j: int, c: CandidateView|
        #[trigger] took(parts, placed, j, c) && (b == c.ref_box || b == c.value_box)
}

spec fn claims(parts: Seq<PartView>, p: Progress) -> bool {
    claims_all(parts, p) && claims_only(parts, p)
}

/// The references that were dealt with are the wanted ones among the first `k`.
spec fn dealt(parts: Seq<PartView>, only: Option<Seq<Seq<char>>>, p: Progress, k: int) -> bool {
    forall|r: Seq<char>|
        #[trigger] p.done.contains(r) <==> exists|m: int|
            0 <= m < k && is_due(parts, only, m) && (#[trigger] parts[m]).reference == r
}

/// Each placement so far: whose it is, that it is the next one, and that it is
/// as it should be.
spec fn well_placed(
    o: ObstacleView,
    parts: Seq<PartView>,
    only: Option<Seq<Seq<char>>>,
    p: Progress,
    k: int,
) -> bool {
    &&& forall|j: int|
        0 <= j < p.placed.len() ==> {
            &&& 0 <= (#[trigger] p.placed[j]).0 < k
            &&& is_due(parts, only, p.placed[j].0)
            &&& parts[p.placed[j].0].choices is Some
            &&& is_first_clear(o, parts, p.placed, j)
        }
    &&& forall|i: int, j: int|
        0 <= i < j < p.placed.len() ==> (#[trigger] p.placed[i]).0 < (#[trigger] p.placed[j]).0
    &&& forall|i: int|
        0 <= i < k && is_due(parts, only, i) && (#[trigger] parts[i]).choices is Some
            ==> exists|j: int| 0 <= j < p.placed.len() && (#[trigger] p.placed[j]).0 == i
}

/// Placement number `j` took a candidate that overlaps nothing. Where all boxes
/// have an inside, every candidate before it, or every one if it took none, is
/// blocked.
pub open spec fn is_first_clear(
    o: ObstacleView,
    parts: Seq<PartView>,
    placed: Seq<(int, Option<int>)>,
    j: int,
) -> bool {
    let part = parts[placed[j].0];
    let cs = part.choices.unwrap().candidates;
    let end = match placed[j].1 {
        Some(k) => k,
        None => cs.len() as int,
    };
    &&& placed[j].1 is Some ==> 0 <= end < cs.len() && !is_blocked(
        o,
        parts,
        placed,
        j,
        cs[end],
        part.reference,
    )
    &&& drawn(o) && sized(parts) ==> forall|m: int|
        0 <= m < end ==> is_blocked(o, parts, placed, j, #[trigger] cs[m], part.reference)
}

proof fn lemma_took_grows(
    parts: Seq<PartView>,
    a: Seq<(int, Option<int>)>,
    b: Seq<(int, Option<int>)>,
    n: int,
)
    requires
        0 <= n <= a.len(),
        n <= b.len(),
        forall|j: int| 0 <= j < n ==> a[j] == b[j],
    ensures
        forall|j: int, c: CandidateView|
            j < n ==> (#[trigger] took(parts, a, j, c) <==> took(parts, b, j, c)),
        forall|j: int, x: Box4|
            j <= n ==> (#[trigger] covers_earlier(parts, a, j, x) <==> covers_earlier(
                parts,
                b,
                j,
                x,
            )),
{
    assert forall|j: int, c: CandidateView| j < n implies (#[trigger] took(parts, a, j, c) <==> took(
        parts,
        b,
        j,
        c,
    )) by {}
    assert forall|j: int, x: Box4| j <= n implies (#[trigger] covers_earlier(parts, a, j, x)
        <==> covers_earlier(parts, b, j, x)) by {
        if covers_earlier(parts, a, j, x) {
            let (i, c) = choose|i: int, c: CandidateView|
                0 <= i < j && #[trigger] took(parts, a, i, c) && (overlap(x, c.ref_box) || overlap(
                    x,
                    c.value_box,
                ));
            assert(took(parts, b, i, c));
        }
        if covers_earlier(parts, b, j, x) {
            let (i, c) = choose|i: int, c: CandidateView|
                0 <= i < j && #[trigger] took(parts, b, i, c) && (overlap(x, c.ref_box) || overlap(
                    x,
                    c.value_box,
                ));
            assert(took(parts, a, i, c));
        }
    }
}

proof fn lemma_clear_kept(
    o: ObstacleView,
    parts: Seq<PartView>,
    a: Seq<(int, Option<int>)>,
    b: Seq<(int, Option<int>)>,
    j: int,
)
    requires
        0 <= j < a.len(),
        a.len() <= b.len(),
        forall|i: int| 0 <= i < a.len() ==> a[i] == b[i],
        is_first_clear(o, parts, a, j),
    ensures
        is_first_clear(o, parts, b, j),
{
    lemma_took_grows(parts, a, b, a.len() as int);
    let part = parts[a[j].0];
    let cs = part.choices.unwrap().candidates;
    assert forall|c: CandidateView, own: Seq<char>|
        #[trigger] is_blocked(o, parts, a, j, c, own) == is_blocked(o, parts, b, j, c, own) by {
        assert(covers_earlier(parts, a, j, c.ref_box) == covers_earlier(parts, b, j, c.ref_box));
        assert(covers_earlier(parts, a, j, c.value_box) == covers_earlier(
            parts,
            b,
            j,
            c.value_box,
        ));
    }
    if drawn(o) && sized(parts) {
        let end = match a[j].1 {
            Some(k) => k,
            None => cs.len() as int,
        };
        assert forall|m: int| 0 <= m < end implies is_blocked(
            o,
            parts,
            b,
            j,
            #[trigger] cs[m],
            part.reference,
        ) by {
            assert(is_blocked(o, parts, a, j, cs[m], part.reference));
        }
    }
}

/// A box that overlaps a field that was placed hits what is taken.
proof fn lemma_claimed_hit(parts: Seq<PartView>, p: Progress, x: Box4)
    requires
        claims_all(parts, p),
        covers_earlier(parts, p.placed, p.placed.len() as int, x),
    ensures
        hits_any(x, p.claimed),
{
    reveal(claims_all);
    let n = p.placed.len() as int;
    let (i, d) = choose|i: int, d: CandidateView|
        0 <= i < n && #[trigger] took(parts, p.placed, i, d) && (overlap(x, d.ref_box) || overlap(
            x,
            d.value_box,
        ));
    let y = if overlap(x, d.ref_box) {
        d.ref_box
    } else {
        d.value_box
    };
    lemma_hit(x, y);
    let m = choose|m: int| 0 <= m < p.claimed.len() && p.claimed[m] == y;
    assert(crate::autoplace::boxes_hit(x, p.claimed[m]));
}

/// A box that hits what is taken overlaps a field that was placed.
proof fn lemma_hit_claimed(parts: Seq<PartView>, p: Progress, x: Box4)
    requires
        claims_only(parts, p),
        sized(parts),
        has_inside(x),
        hits_any(x, p.claimed),
    ensures
        covers_earlier(parts, p.placed, p.placed.len() as int, x),
{
    reveal(claims_only);
    let m = choose|m: int|
        0 <= m < p.claimed.len() && crate::autoplace::boxes_hit(x, #[trigger] p.claimed[m]);
    let y = p.claimed[m];
    assert(is_taken(parts, p.placed, y));
    let (j, d) = choose|j: int, d: CandidateView|
        #[trigger] took(parts, p.placed, j, d) && (y == d.ref_box || y == d.value_box);
    let part = parts[p.placed[j].0];
    assert(d == part.choices.unwrap().candidates[p.placed[j].1.unwrap()]);
    lemma_hit(x, y);
    assert(took(parts, p.placed, j, d));
}

/// A box hits what is taken exactly where it overlaps a field that was placed.
proof fn lemma_claimed(parts: Seq<PartView>, p: Progress, x: Box4)
    requires
        claims(parts, p),
    ensures
        covers_earlier(parts, p.placed, p.placed.len() as int, x) ==> hits_any(x, p.claimed),
        sized(parts) && has_inside(x) && hits_any(x, p.claimed) ==> covers_earlier(
            parts,
            p.placed,
            p.placed.len() as int,
            x,
        ),
{
    if covers_earlier(parts, p.placed, p.placed.len() as int, x) {
        lemma_claimed_hit(parts, p, x);
    }
    if sized(parts) && has_inside(x) && hits_any(x, p.claimed) {
        lemma_hit_claimed(parts, p, x);
    }
}

/// What is free by the boxes that are taken is not blocked, and the other way
/// round.
proof fn lemma_free(
    o: ObstacleView,
    parts: Seq<PartView>,
    p: Progress,
    c: CandidateView,
    own: Seq<char>,
)
    requires
        claims(parts, p),
    ensures
        free(o, p.claimed, c, own) ==> !is_blocked(
            o,
            parts,
            p.placed,
            p.placed.len() as int,
            c,
            own,
        ),
        drawn(o) && sized(parts) && has_inside(c.ref_box) && has_inside(c.value_box) && !free(
            o,
            p.claimed,
            c,
            own,
        ) ==> is_blocked(o, parts, p.placed, p.placed.len() as int, c, own),
{
    lemma_clear(o, c.ref_box, own);
    lemma_clear(o, c.value_box, own);
    lemma_claimed(parts, p, c.ref_box);
    lemma_claimed(parts, p, c.value_box);
}

proof fn lemma_first_free(
    o: ObstacleView,
    claimed: Seq<Box4>,
    cs: Seq<CandidateView>,
    own: Seq<char>,
    k: int,
)
    requires
        0 <= k,
    ensures
        match first_free(o, claimed, cs, own, k) {
            Some(i) => {
                &&& k <= i < cs.len()
                &&& free(o, claimed, cs[i], own)
                &&& forall|j: int| k <= j < i ==> !free(o, claimed, #[trigger] cs[j], own)
            },
            None => forall|j: int| k <= j < cs.len() ==> !free(o, claimed, #[trigger] cs[j], own),
        },
    decreases cs.len() - k,
{
    if k < cs.len() && !free(o, claimed, cs[k], own) {
        lemma_first_free(o, claimed, cs, own, k + 1);
    }
}

/// Symbol number `i` is dealt with exactly where it is due.
proof fn lemma_due(parts: Seq<PartView>, only: Option<Seq<Seq<char>>>, p: Progress, i: int)
    requires
        0 <= i < parts.len(),
        dealt(parts, only, p, i),
    ensures
        (crate::autoplace::wanted(parts[i].reference, only) && !p.done.contains(
            parts[i].reference,
        )) <==> is_due(parts, only, i),
{
    let r = parts[i].reference;
    if let Some(refs) = only {
        assert(refs.contains(r) <==> exists|m: int| 0 <= m < refs.len() && #[trigger] refs[m] == r);
    }
    if crate::autoplace::wanted(r, only) && !p.done.contains(r) {
        assert forall|m: int| 0 <= m < i implies (#[trigger] parts[m]).reference != r by {
            if parts[m].reference == r {
                lemma_some_due(parts, only, m);
                let n = choose|n: int|
                    0 <= n <= m && is_due(parts, only, n) && (#[trigger] parts[n]).reference == r;
                assert(p.done.contains(r));
            }
        }
    }
}

/// Where a reference is wanted, the first symbol that has it is due.
proof fn lemma_some_due(parts: Seq<PartView>, only: Option<Seq<Seq<char>>>, m: int)
    requires
        0 <= m < parts.len(),
        crate::autoplace::wanted(parts[m].reference, only),
    ensures
        exists|n: int|
            0 <= n <= m && is_due(parts, only, n) && (#[trigger] parts[n]).reference
                == parts[m].reference,
    decreases m,
{
    let r = parts[m].reference;
    if let Some(refs) = only {
        assert(refs.contains(r) <==> exists|k: int| 0 <= k < refs.len() && #[trigger] refs[k] == r);
    }
    if exists|k: int| 0 <= k < m && (#[trigger] parts[k]).reference == r {
        let k = choose|k: int| 0 <= k < m && (#[trigger] parts[k]).reference == r;
        lemma_some_due(parts, only, k);
    } else {
        assert(is_due(parts, only, m));
    }
}

/// One symbol further, for what is taken.
proof fn lemma_claims_grow(
    h: Seq<u8>,
    o: ObstacleView,
    parts: Seq<PartView>,
    p: Progress,
    i: int,
    c: ChoicesView,
)
    requires
        0 <= i < parts.len(),
        parts[i].choices == Some(c),
        claims(parts, p),
    ensures
        claims(parts, place_fields(h, o, p, i, parts[i].reference, parts[i].rotation, c)),
{
    let n = place_fields(h, o, p, i, parts[i].reference, parts[i].rotation, c);
    let own = parts[i].reference;
    let choice = first_free(o, p.claimed, c.candidates, own, 0);
    lemma_first_free(o, p.claimed, c.candidates, own, 0);
    assert(one_more(p, n, i, choice, c));
    lemma_claims_all_grow(parts, p, n, i, choice, c);
    lemma_claims_only_grow(parts, p, n, i, choice, c);
}

/// The progress `n` is `p` with one placement more.
spec fn one_more(p: Progress, n: Progress, i: int, choice: Option<int>, c: ChoicesView) -> bool {
    &&& n.placed == p.placed.push((i, choice))
    &&& match choice {
        Some(k) => 0 <= k < c.candidates.len() && n.claimed == p.claimed.push(
            c.candidates[k].ref_box,
        ).push(c.candidates[k].value_box),
        None => n.claimed == p.claimed,
    }
}

proof fn lemma_claims_all_grow(
    parts: Seq<PartView>,
    p: Progress,
    n: Progress,
    i: int,
    choice: Option<int>,
    c: ChoicesView,
)
    requires
        0 <= i < parts.len(),
        parts[i].choices == Some(c),
        claims_all(parts, p),
        one_more(p, n, i, choice, c),
    ensures
        claims_all(parts, n),
{
    reveal(claims_all);
    let last = p.placed.len() as int;
    lemma_took_grows(parts, p.placed, n.placed, last);
    assert forall|j: int, d: CandidateView| #[trigger] took(parts, n.placed, j, d) implies n.claimed.contains(
        d.ref_box,
    ) && n.claimed.contains(d.value_box) by {
        if j < last {
            assert(took(parts, p.placed, j, d));
            let a = choose|a: int| 0 <= a < p.claimed.len() && p.claimed[a] == d.ref_box;
            let b = choose|b: int| 0 <= b < p.claimed.len() && p.claimed[b] == d.value_box;
            assert(n.claimed[a] == d.ref_box);
            assert(n.claimed[b] == d.value_box);
        } else {
            let m = p.claimed.len() as int;
            assert(n.claimed[m] == d.ref_box);
            assert(n.claimed[m + 1] == d.value_box);
        }
    }
}

proof fn lemma_claims_only_grow(
    parts: Seq<PartView>,
    p: Progress,
    n: Progress,
    i: int,
    choice: Option<int>,
    c: ChoicesView,
)
    requires
        0 <= i < parts.len(),
        parts[i].choices == Some(c),
        claims_only(parts, p),
        one_more(p, n, i, choice, c),
    ensures
        claims_only(parts, n),
{
    reveal(claims_only);
    let last = p.placed.len() as int;
    lemma_took_grows(parts, p.placed, n.placed, last);
    assert forall|m: int| 0 <= m < n.claimed.len() implies is_taken(
        parts,
        n.placed,
        #[trigger] n.claimed[m],
    ) by {
        let b = n.claimed[m];
        if m < p.claimed.len() {
            assert(p.claimed[m] == b);
            assert(is_taken(parts, p.placed, b));
            let (j, d) = choose|j: int, d: CandidateView|
                #[trigger] took(parts, p.placed, j, d) && (b == d.ref_box || b == d.value_box);
            assert(took(parts, n.placed, j, d));
        } else {
            let w = c.candidates[choice.unwrap()];
            assert(took(parts, n.placed, last, w));
        }
    }
}

/// What was placed last is as it should be.
proof fn lemma_last_clear(
    h: Seq<u8>,
    o: ObstacleView,
    parts: Seq<PartView>,
    p: Progress,
    i: int,
    c: ChoicesView,
)
    requires
        0 <= i < parts.len(),
        parts[i].choices == Some(c),
        claims(parts, p),
    ensures
        is_first_clear(
            o,
            parts,
            place_fields(h, o, p, i, parts[i].reference, parts[i].rotation, c).placed,
            p.placed.len() as int,
        ),
{
    let n = place_fields(h, o, p, i, parts[i].reference, parts[i].rotation, c);
    let own = parts[i].reference;
    let cs = c.candidates;
    let choice = first_free(o, p.claimed, cs, own, 0);
    lemma_first_free(o, p.claimed, cs, own, 0);
    let last = p.placed.len() as int;
    assert(n.placed == p.placed.push((i, choice)));
    lemma_took_grows(parts, p.placed, n.placed, last);
    assert forall|d: CandidateView| #[trigger] is_blocked(o, parts, n.placed, last, d, own)
        == is_blocked(o, parts, p.placed, last, d, own) by {
        assert(covers_earlier(parts, p.placed, last, d.ref_box) == covers_earlier(
            parts,
            n.placed,
            last,
            d.ref_box,
        ));
        assert(covers_earlier(parts, p.placed, last, d.value_box) == covers_earlier(
            parts,
            n.placed,
            last,
            d.value_box,
        ));
    }
    if choice is Some {
        lemma_free(o, parts, p, cs[choice.unwrap()], own);
        assert(!is_blocked(o, parts, n.placed, last, cs[choice.unwrap()], own));
    }
    if drawn(o) && sized(parts) {
        let end = match choice {
            Some(k) => k,
            None => cs.len() as int,
        };
        assert forall|m: int| 0 <= m < end implies is_blocked(
            o,
            parts,
            n.placed,
            last,
            #[trigger] cs[m],
            own,
        ) by {
            assert(parts[i].choices.unwrap().candidates[m] == cs[m]);
            lemma_free(o, parts, p, cs[m], own);
        }
    }
}

proof fn lemma_same_claims(parts: Seq<PartView>, p: Progress, q: Progress)
    requires
        claims(parts, p),
        q.placed == p.placed,
        q.claimed == p.claimed,
    ensures
        claims(parts, q),
{
    reveal(claims_all);
    reveal(claims_only);
}

spec fn all_well(
    o: ObstacleView,
    parts: Seq<PartView>,
    only: Option<Seq<Seq<char>>>,
    p: Progress,
    k: int,
) -> bool {
    claims(parts, p) && dealt(parts, only, p, k) && well_placed(o, parts, only, p, k)
}

/// One symbol further.
proof fn lemma_step(
    h: Seq<u8>,
    o: ObstacleView,
    parts: Seq<PartView>,
    only: Option<Seq<Seq<char>>>,
    p: Progress,
    i: int,
)
    requires
        0 <= i < parts.len(),
        all_well(o, parts, only, p, i),
    ensures
        all_well(o, parts, only, step(h, o, only, p, i, parts[i]), i + 1),
{
    let n = step(h, o, only, p, i, parts[i]);
    let r = parts[i].reference;
    lemma_due(parts, only, p, i);
    if is_due(parts, only, i) {
        assert(n.done == p.done.push(r));
        assert(n.done[p.done.len() as int] == r);
        assert forall|s: Seq<char>| #[trigger] n.done.contains(s) <==> exists|m: int|
            0 <= m < i + 1 && is_due(parts, only, m) && (#[trigger] parts[m]).reference == s by {
            if n.done.contains(s) {
                let m = choose|m: int| 0 <= m < n.done.len() && n.done[m] == s;
                if m < p.done.len() {
                    assert(p.done[m] == s);
                    assert(p.done.contains(s));
                    let q = choose|q: int|
                        0 <= q < i && is_due(parts, only, q) && (#[trigger] parts[q]).reference == s;
                    assert(parts[q].reference == s);
                } else {
                    assert(parts[i].reference == s);
                }
            }
            if exists|m: int|
                0 <= m < i + 1 && is_due(parts, only, m) && (#[trigger] parts[m]).reference == s {
                let m = choose|m: int|
                    0 <= m < i + 1 && is_due(parts, only, m) && (#[trigger] parts[m]).reference
                        == s;
                if m < i {
                    assert(p.done.contains(s));
                    let q = choose|q: int| 0 <= q < p.done.len() && p.done[q] == s;
                    assert(n.done[q] == s);
                }
            }
        }
        let q = Progress { done: p.done.push(r), ..p };
        lemma_same_claims(parts, p, q);
        match parts[i].choices {
            None => {
                assert(n.placed == p.placed);
                lemma_same_claims(parts, p, n);
            },
            Some(c) => {
                assert(n == place_fields(h, o, q, i, r, parts[i].rotation, c));
                lemma_claims_grow(h, o, parts, q, i, c);
                lemma_last_clear(h, o, parts, q, i, c);
                let last = p.placed.len() as int;
                assert(n.placed.len() == last + 1 && n.placed[last].0 == i);
                assert(forall|j: int| 0 <= j < last ==> n.placed[j] == p.placed[j]);
                assert forall|j: int| 0 <= j < n.placed.len() implies {
                    &&& 0 <= (#[trigger] n.placed[j]).0 < i + 1
                    &&& is_due(parts, only, n.placed[j].0)
                    &&& parts[n.placed[j].0].choices is Some
                    &&& is_first_clear(o, parts, n.placed, j)
                } by {
                    if j < last {
                        assert(0 <= p.placed[j].0 < i);
                        lemma_clear_kept(o, parts, p.placed, n.placed, j);
                    }
                }
                assert forall|a: int|
                    0 <= a < i + 1 && is_due(parts, only, a) && (#[trigger] parts[a]).choices
                        is Some implies exists|j: int|
                    0 <= j < n.placed.len() && (#[trigger] n.placed[j]).0 == a by {
                    if a < i {
                        let j = choose|j: int|
                            0 <= j < p.placed.len() && (#[trigger] p.placed[j]).0 == a;
                        assert(n.placed[j].0 == a);
                    } else {
                        assert(n.placed[last].0 == a);
                    }
                }
            },
        }
    } else {
        assert(n == p);
    }
}

proof fn lemma_all_well(
    h: Seq<u8>,
    o: ObstacleView,
    parts: Seq<PartView>,
    only: Option<Seq<Seq<char>>>,
    k: int,
)
    requires
        0 <= k <= parts.len(),
    ensures
        all_well(o, parts, only, progress(h, o, only, parts, k), k),
    decreases k,
{
    if k == 0 {
        reveal(claims_all);
        reveal(claims_only);
    }
    if k > 0 {
        lemma_all_well(h, o, parts, only, k - 1);
        lemma_step(h, o, parts, only, progress(h, o, only, parts, k - 1), k - 1);
    }
}

/// A field that got a candidate overlaps no wire, no label, no symbol of another
/// reference, and no field that was placed before; and the candidates that were
/// passed over each overlap one of these.
pub proof fn law_fields_go_to_the_first_clear_place(
    h: Seq<u8>,
    o: ObstacleView,
    only: Option<Seq<Seq<char>>>,
    parts: Seq<PartView>,
    j: int,
)
    requires
        0 <= j < progress(h, o, only, parts, parts.len() as int).placed.len(),
    ensures
        is_first_clear(o, parts, progress(h, o, only, parts, parts.len() as int).placed, j),
{
    lemma_all_well(h, o, parts, only, parts.len() as int);
}

/// The fields that are placed are those of the symbols that are due and whose
/// pins are known, each once, in the order of the symbols.
pub proof fn law_due_symbols_are_placed(
    h: Seq<u8>,
    o: ObstacleView,
    only: Option<Seq<Seq<char>>>,
    parts: Seq<PartView>,
)
    ensures
        ({
            let placed = progress(h, o, only, parts, parts.len() as int).placed;
            &&& forall|i: int|
                0 <= i < parts.len() ==> ((is_due(parts, only, i) && (#[trigger] parts[i]).choices
                    is Some) <==> exists|j: int|
                    0 <= j < placed.len() && (#[trigger] placed[j]).0 == i)
            &&& forall|j: int|
                0 <= j < placed.len() ==> 0 <= (#[trigger] placed[j]).0 < parts.len()
            &&& forall|i: int, j: int|
                0 <= i < j < placed.len() ==> (#[trigger] placed[i]).0 < (#[trigger] placed[j]).0
        }),
{
    lemma_all_well(h, o, parts, only, parts.len() as int);
    let placed = progress(h, o, only, parts, parts.len() as int).placed;
    assert forall|i: int| 0 <= i < parts.len() implies ((is_due(parts, only, i) && (
    #[trigger] parts[i]).choices is Some) <==> exists|j: int|
        0 <= j < placed.len() && (#[trigger] placed[j]).0 == i) by {
        if exists|j: int| 0 <= j < placed.len() && (#[trigger] placed[j]).0 == i {
            let j = choose|j: int| 0 <= j < placed.len() && (#[trigger] placed[j]).0 == i;
            assert(is_due(parts, only, placed[j].0));
        }
    }
}

// What is written
/// What is written for a field that goes to `x`, `y` on a symbol with this
/// rotation: a symbol on its side has its fields turned back to read
/// horizontally.
pub open spec fn upright_text(x: Seq<char>, y: Seq<char>, rotation: int) -> Seq<char> {
    if exists|q: int| rotation == #[trigger] (180 * q) + 90 {
        x + " "@ + y + " 90"@
    } else {
        x + " "@ + y + " 0"@
    }
}

/// What is written for the Reference (or else the Value) of what was placed as
/// number `j`: at its candidate, or at its fallback.
pub open spec fn due_text(
    parts: Seq<PartView>,
    placed: Seq<(int, Option<int>)>,
    j: int,
    reference: bool,
) -> Seq<char> {
    let part = parts[placed[j].0];
    let c = part.choices.unwrap();
    let at = match placed[j].1 {
        Some(k) => if reference {
            c.candidates[k].ref_at
        } else {
            c.candidates[k].value_at
        },
        None => if reference {
            c.ref_fallback
        } else {
            c.value_fallback
        },
    };
    upright_text(at.x, at.y, part.rotation)
}

/// The name of the field.
pub open spec fn field_named(reference: bool) -> Seq<char> {
    if reference {
        "Reference"@
    } else {
        "Value"@
    }
}

/// A field of what was placed as number `j` is dealt with: its place in the
/// schematic gets the text, or it is told that there is no such field.
pub open spec fn is_written(
    h: Seq<u8>,
    parts: Seq<PartView>,
    p: Progress,
    j: int,
    reference: bool,
) -> bool {
    let r = parts[p.placed[j].0].reference;
    let name = field_named(reference);
    match field_place(h, r, name) {
        Some(s) => p.edits.contains(
            Edit { start: s.0, end: s.1, text: due_text(parts, p.placed, j, reference) },
        ),
        None => p.errors.contains(r + ": field '"@ + name + "' not found"@),
    }
}

/// An edit is that of a field of something that was placed.
pub open spec fn is_due_edit(h: Seq<u8>, parts: Seq<PartView>, p: Progress, e: Edit) -> bool {
    exists|j: int, reference: bool|
        #![trigger due_text(parts, p.placed, j, reference)]
        0 <= j < p.placed.len() && {
            &&& field_place(h, parts[p.placed[j].0].reference, field_named(reference)) == Some(
                (e.start, e.end),
            )
            &&& e.text == due_text(parts, p.placed, j, reference)
        }
}

spec fn writes(h: Seq<u8>, parts: Seq<PartView>, p: Progress) -> bool {
    &&& forall|j: int, reference: bool|
        0 <= j < p.placed.len() ==> #[trigger] is_written(h, parts, p, j, reference)
    &&& forall|m: int|
        0 <= m < p.edits.len() ==> is_due_edit(h, parts, p, #[trigger] p.edits[m])
}

proof fn lemma_angle(x: Seq<char>, y: Seq<char>, rotation: int)
    ensures
        crate::fields::place_text(x, y, crate::autoplace::field_angle(rotation)) == upright_text(
            x,
            y,
            rotation,
        ),
{
    reveal_strlit(" 90");
    reveal_strlit(" 0");
    reveal_strlit("90");
    reveal_strlit("0");
    reveal_strlit(" ");
    assert(" "@ + "90"@ =~= " 90"@);
    assert(" "@ + "0"@ =~= " 0"@);
    assert(x + " "@ + y + " "@ + "90"@ =~= x + " "@ + y + " 90"@);
    assert(x + " "@ + y + " "@ + "0"@ =~= x + " "@ + y + " 0"@);
    if rotation % 180 == 90 {
        let q = rotation / 180;
        assert(rotation == (180 * q) + 90);
    }
    if exists|q: int| rotation == #[trigger] (180 * q) + 90 {
        let q = choose|q: int| rotation == #[trigger] (180 * q) + 90;
        assert(rotation % 180 == 90);
    }
}

proof fn lemma_kept<T>(a: Seq<T>, b: Seq<T>, x: T)
    requires
        a.len() <= b.len(),
        forall|m: int| 0 <= m < a.len() ==> a[m] == b[m],
        a.contains(x),
    ensures
        b.contains(x),
{
    let m = choose|m: int| 0 <= m < a.len() && a[m] == x;
    assert(b[m] == x);
}

proof fn lemma_writes_step(
    h: Seq<u8>,
    o: ObstacleView,
    parts: Seq<PartView>,
    p: Progress,
    i: int,
    c: ChoicesView,
)
    requires
        0 <= i < parts.len(),
        parts[i].choices == Some(c),
        writes(h, parts, p),
    ensures
        writes(h, parts, place_fields(h, o, p, i, parts[i].reference, parts[i].rotation, c)),
{
    let r = parts[i].reference;
    let rot = parts[i].rotation;
    let n = place_fields(h, o, p, i, r, rot, c);
    let choice = first_free(o, p.claimed, c.candidates, r, 0);
    let last = p.placed.len() as int;
    assert(n.placed == p.placed.push((i, choice)));
    let ra = match choice {
        Some(k) => c.candidates[k].ref_at,
        None => c.ref_fallback,
    };
    let va = match choice {
        Some(k) => c.candidates[k].value_at,
        None => c.value_fallback,
    };
    lemma_angle(ra.x, ra.y, rot);
    lemma_angle(va.x, va.y, rot);
    assert(due_text(parts, n.placed, last, true) == upright_text(ra.x, ra.y, rot));
    assert(due_text(parts, n.placed, last, false) == upright_text(va.x, va.y, rot));
    assert(forall|m: int| 0 <= m < p.edits.len() ==> n.edits[m] == p.edits[m]);
    assert(forall|m: int| 0 <= m < p.errors.len() ==> n.errors[m] == p.errors[m]);
    assert forall|j: int, reference: bool| 0 <= j < last implies #[trigger] due_text(
        parts,
        n.placed,
        j,
        reference,
    ) == due_text(parts, p.placed, j, reference) by {
        assert(n.placed[j] == p.placed[j]);
    }
    let fr = field_place(h, r, "Reference"@);
    let fv = field_place(h, r, "Value"@);
    if fr is Some {
        let e = Edit {
            start: fr.unwrap().0,
            end: fr.unwrap().1,
            text: due_text(parts, n.placed, last, true),
        };
        assert(n.edits[p.edits.len() as int] == e);
        assert(n.edits.contains(e));
    } else {
        let e = r + ": field '"@ + "Reference"@ + "' not found"@;
        assert(n.errors[p.errors.len() as int] == e);
        assert(n.errors.contains(e));
    }
    if fv is Some {
        let e = Edit {
            start: fv.unwrap().0,
            end: fv.unwrap().1,
            text: due_text(parts, n.placed, last, false),
        };
        assert(n.edits.last() == e);
        assert(n.edits[n.edits.len() - 1] == e);
        assert(n.edits.contains(e));
    } else {
        let e = r + ": field '"@ + "Value"@ + "' not found"@;
        assert(n.errors[n.errors.len() - 1] == e);
        assert(n.errors.contains(e));
    }
    assert forall|j: int, reference: bool| 0 <= j < n.placed.len() implies #[trigger] is_written(
        h,
        parts,
        n,
        j,
        reference,
    ) by {
        if j < last {
            assert(is_written(h, parts, p, j, reference));
            assert(n.placed[j] == p.placed[j]);
            let q = parts[p.placed[j].0].reference;
            let name = field_named(reference);
            match field_place(h, q, name) {
                Some(s) => {
                    let e = Edit {
                        start: s.0,
                        end: s.1,
                        text: due_text(parts, p.placed, j, reference),
                    };
                    lemma_kept(p.edits, n.edits, e);
                },
                None => {
                    lemma_kept(p.errors, n.errors, q + ": field '"@ + name + "' not found"@);
                },
            }
        }
    }
    assert forall|m: int| 0 <= m < n.edits.len() implies is_due_edit(
        h,
        parts,
        n,
        #[trigger] n.edits[m],
    ) by {
        let e = n.edits[m];
        if m < p.edits.len() {
            assert(is_due_edit(h, parts, p, p.edits[m]));
            let (j, reference) = choose|j: int, reference: bool|
                #![trigger due_text(parts, p.placed, j, reference)]
                0 <= j < p.placed.len() && {
                    &&& field_place(h, parts[p.placed[j].0].reference, field_named(reference))
                        == Some((e.start, e.end))
                    &&& e.text == due_text(parts, p.placed, j, reference)
                };
            assert(n.placed[j] == p.placed[j]);
            assert(due_text(parts, n.placed, j, reference) == e.text);
        } else if m == p.edits.len() && fr is Some {
            assert(e.text == due_text(parts, n.placed, last, true));
        } else {
            assert(e.text == due_text(parts, n.placed, last, false));
        }
    }
}

proof fn lemma_writes(
    h: Seq<u8>,
    o: ObstacleView,
    parts: Seq<PartView>,
    only: Option<Seq<Seq<char>>>,
    k: int,
)
    requires
        0 <= k <= parts.len(),
    ensures
        writes(h, parts, progress(h, o, only, parts, k)),
    decreases k,
{
    if k > 0 {
        lemma_writes(h, o, parts, only, k - 1);
        let p = progress(h, o, only, parts, k - 1);
        let i = k - 1;
        let r = parts[i].reference;
        let n = progress(h, o, only, parts, k);
        if crate::autoplace::wanted(r, only) && !p.done.contains(r) {
            let q = Progress { done: p.done.push(r), ..p };
            assert(writes(h, parts, q)) by {
                assert forall|j: int, reference: bool| 0 <= j < q.placed.len() implies #[trigger] is_written(
                    h,
                    parts,
                    q,
                    j,
                    reference,
                ) by {
                    assert(is_written(h, parts, p, j, reference));
                }
                assert forall|m: int| 0 <= m < q.edits.len() implies is_due_edit(
                    h,
                    parts,
                    q,
                    #[trigger] q.edits[m],
                ) by {
                    assert(is_due_edit(h, parts, p, p.edits[m]));
                }
            }
            match parts[i].choices {
                Some(c) => {
                    lemma_writes_step(h, o, parts, q, i, c);
                },
                None => {
                    assert forall|j: int, reference: bool| 0 <= j < n.placed.len() implies #[trigger] is_written(
                        h,
                        parts,
                        n,
                        j,
                        reference,
                    ) by {
                        assert(is_written(h, parts, p, j, reference));
                        let x = parts[p.placed[j].0].reference;
                        let name = field_named(reference);
                        if field_place(h, x, name) is None {
                            lemma_kept(p.errors, n.errors, x + ": field '"@ + name + "' not found"@);
                        }
                    }
                    assert forall|m: int| 0 <= m < n.edits.len() implies is_due_edit(
                        h,
                        parts,
                        n,
                        #[trigger] n.edits[m],
                    ) by {
                        assert(is_due_edit(h, parts, p, p.edits[m]));
                    }
                },
            }
        }
    }
}

/// Both fields of each symbol that was placed are written, to the point of the
/// candidate it took or to its fallback, so that they read horizontally; a field
/// that the symbol does not have is told of. Nothing else is written.
pub proof fn law_placed_fields_are_written(
    h: Seq<u8>,
    o: ObstacleView,
    only: Option<Seq<Seq<char>>>,
    parts: Seq<PartView>,
)
    ensures
        ({
            let p = progress(h, o, only, parts, parts.len() as int);
            &&& forall|j: int, reference: bool|
                0 <= j < p.placed.len() ==> #[trigger] is_written(h, parts, p, j, reference)
            &&& forall|m: int|
                0 <= m < p.edits.len() ==> is_due_edit(h, parts, p, #[trigger] p.edits[m])
        }),
{
    lemma_writes(h, o, parts, only, parts.len() as int);
}

/// Of a symbol that is due and whose pins are not known it is told so.
pub proof fn law_unknown_pins_are_told(
    h: Seq<u8>,
    o: ObstacleView,
    only: Option<Seq<Seq<char>>>,
    parts: Seq<PartView>,
    i: int,
)
    requires
        is_due(parts, only, i),
        parts[i].choices is None,
    ensures
        progress(h, o, only, parts, parts.len() as int).errors.contains(
            parts[i].reference + ": no pins resolved"@,
        ),
{
    lemma_all_well(h, o, parts, only, i);
    let p = progress(h, o, only, parts, i);
    let n = progress(h, o, only, parts, i + 1);
    lemma_due(parts, only, p, i);
    assert(n.errors[p.errors.len() as int] == parts[i].reference + ": no pins resolved"@);
    lemma_errors_stay(h, o, only, parts, i + 1, parts.len() as int, parts[i].reference
        + ": no pins resolved"@);
}

proof fn lemma_errors_stay(
    h: Seq<u8>,
    o: ObstacleView,
    only: Option<Seq<Seq<char>>>,
    parts: Seq<PartView>,
    i: int,
    k: int,
    e: Seq<char>,
)
    requires
        0 <= i <= k <= parts.len(),
        progress(h, o, only, parts, i).errors.contains(e),
    ensures
        progress(h, o, only, parts, k).errors.contains(e),
    decreases k - i,
{
    if i < k {
        lemma_errors_stay(h, o, only, parts, i, k - 1, e);
        let p = progress(h, o, only, parts, k - 1);
        let n = progress(h, o, only, parts, k);
        assert(forall|m: int| 0 <= m < p.errors.len() ==> n.errors[m] == p.errors[m]);
        lemma_kept(p.errors, n.errors, e);
    }
}

// Units
/// The box of a unit is that of the last unit with its reference and its number
/// whose pins are known.
pub proof fn law_a_unit_has_the_last_box_of_its_kind(units: Seq<Unit>, u: Unit)
    ensures
        match box_owner_from(units, u, units.len() as int) {
            Some(i) => {
                &&& 0 <= i < units.len()
                &&& units[i].has_pins && units[i].unit == u.unit && units[i].reference@
                    == u.reference@
                &&& forall|j: int|
                    i < j < units.len() ==> !((#[trigger] units[j]).has_pins && units[j].unit
                        == u.unit && units[j].reference@ == u.reference@)
            },
            None => forall|j: int|
                0 <= j < units.len() ==> !((#[trigger] units[j]).has_pins && units[j].unit == u.unit
                    && units[j].reference@ == u.reference@),
        },
{
    lemma_owner(units, u, units.len() as int);
}

proof fn lemma_owner(units: Seq<Unit>, u: Unit, n: int)
    requires
        0 <= n <= units.len(),
    ensures
        match box_owner_from(units, u, n) {
            Some(i) => {
                &&& 0 <= i < n
                &&& units[i].has_pins && units[i].unit == u.unit && units[i].reference@
                    == u.reference@
                &&& forall|j: int|
                    i < j < n ==> !((#[trigger] units[j]).has_pins && units[j].unit == u.unit
                        && units[j].reference@ == u.reference@)
            },
            None => forall|j: int|
                0 <= j < n ==> !((#[trigger] units[j]).has_pins && units[j].unit == u.unit
                    && units[j].reference@ == u.reference@),
        },
    decreases n,
{
    if n > 0 {
        lemma_owner(units, u, n - 1);
    }
}

/// Two boxes are clear of each other exactly where one of them lies wholly on one
/// side of the other.
pub proof fn law_boxes_are_clear_on_one_side(a: Box4, b: Box4)
    ensures
        !crate::autoplace::boxes_hit(a, b) <==> a.x2 <= b.x1 || b.x2 <= a.x1 || a.y2 <= b.y1 || b.y2
            <= a.y1,
{
}

} // verus!
