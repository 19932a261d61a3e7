//! Field autoplacement: where the reference and the value of each symbol go.
//!
//! Whether two boxes touch is all that is decided here, so a coordinate is given
//! as a whole number that orders like it. The places themselves are given as
//! they are to be written.
use crate::edits::{apply_edits, edited, edits_of, fits, Edit, SexpEdit};
use crate::fields::{field_at_range, field_place, place_text};
use crate::routing::{Point, PointText};
use crate::text::{bytes_of, same};
use crate::words::strings_of;
use vstd::prelude::*;
use vstd::string::*;

verus! {

// Boxes
/// A box, each coordinate as a whole number that orders like it.
#[derive(Debug, Clone, Copy)]
pub struct Box4 {
    pub x1: i64,
    pub y1: i64,
    pub x2: i64,
    pub y2: i64,
}

/// The boxes have more than an edge in common.
pub open spec fn boxes_hit(a: Box4, b: Box4) -> bool {
    a.x1 < b.x2 && b.x1 < a.x2 && a.y1 < b.y2 && b.y1 < a.y2
}

fn hit(a: Box4, b: Box4) -> (r: bool)
    ensures
        r == boxes_hit(a, b),
{
    a.x1 < b.x2 && b.x1 < a.x2 && a.y1 < b.y2 && b.y1 < a.y2
}

/// The box hits one of these.
pub open spec fn hits_any(b: Box4, v: Seq<Box4>) -> bool {
    exists|i: int| 0 <= i < v.len() && boxes_hit(b, #[trigger] v[i])
}

fn hits_one(b: Box4, v: &Vec<Box4>) -> (r: bool)
    ensures
        r == hits_any(b, v@),
{
    let mut k: usize = 0;
    while k < v.len()
        invariant
            k <= v@.len(),
            forall|i: int| 0 <= i < k ==> !boxes_hit(b, #[trigger] v@[i]),
        decreases v@.len() - k,
    {
        if hit(b, v[k]) {
            assert(boxes_hit(b, v@[k as int]));
            return true;
        }
        k = k + 1;
    }
    false
}

/// What a field must not cover: every wire, every label, and every symbol but
/// its own.
pub struct Obstacles {
    pub wires: Vec<Box4>,
    pub symbols: Vec<(String, Box4)>,
    pub labels: Vec<Box4>,
}

/// What a field must not cover, as plain values.
pub struct ObstacleView {
    pub wires: Seq<Box4>,
    pub symbols: Seq<(Seq<char>, Box4)>,
    pub labels: Seq<Box4>,
}

impl View for Obstacles {
    type V = ObstacleView;

    open spec fn view(&self) -> ObstacleView {
        ObstacleView {
            wires: self.wires@,
            symbols: self.symbols@.map_values(|p: (String, Box4)| (p.0@, p.1)),
            labels: self.labels@,
        }
    }
}

/// The box hits a symbol other than its own.
pub open spec fn hits_symbol(b: Box4, v: Seq<(Seq<char>, Box4)>, own: Seq<char>) -> bool {
    exists|i: int| 0 <= i < v.len() && (#[trigger] v[i]).0 != own && boxes_hit(b, v[i].1)
}

/// The box of a field covers something.
pub open spec fn collides(o: ObstacleView, b: Box4, own: Seq<char>) -> bool {
    hits_any(b, o.wires) || hits_symbol(b, o.symbols, own) || hits_any(b, o.labels)
}

fn covers(o: &Obstacles, b: Box4, own: &str) -> (r: bool)
    ensures
        r == collides(o@, b, own@),
{
    if hits_one(b, &o.wires) {
        return true;
    }
    let ghost syms = o@.symbols;
    let mut k: usize = 0;
    while k < o.symbols.len()
        invariant
            syms == o@.symbols,
            k <= o.symbols@.len(),
            forall|i: int|
                0 <= i < k ==> !((#[trigger] syms[i]).0 != own@ && boxes_hit(b, syms[i].1)),
        decreases o.symbols@.len() - k,
    {
        assert(syms[k as int] == (o.symbols@[k as int].0@, o.symbols@[k as int].1));
        if !same(o.symbols[k].0.as_str(), own) && hit(b, o.symbols[k].1) {
            assert(syms[k as int].0 != own@ && boxes_hit(b, syms[k as int].1));
            return true;
        }
        k = k + 1;
    }
    hits_one(b, &o.labels)
}

// Candidates
/// A pair of places for the reference and the value, and the boxes that their
/// texts would take there.
pub struct Candidate {
    pub ref_box: Box4,
    pub value_box: Box4,
    pub ref_at: Point,
    pub value_at: Point,
}

/// A candidate as plain values.
pub struct CandidateView {
    pub ref_box: Box4,
    pub value_box: Box4,
    pub ref_at: PointText,
    pub value_at: PointText,
}

impl View for Candidate {
    type V = CandidateView;

    open spec fn view(&self) -> CandidateView {
        CandidateView {
            ref_box: self.ref_box,
            value_box: self.value_box,
            ref_at: self.ref_at@,
            value_at: self.value_at@,
        }
    }
}

/// The places that a symbol's fields may go to, nearest first, and where they go
/// if none of them is free.
pub struct Choices {
    pub candidates: Vec<Candidate>,
    pub ref_fallback: Point,
    pub value_fallback: Point,
}

/// A symbol whose fields are to be placed. One whose pins are not known has no
/// choices.
pub struct Part {
    pub reference: String,
    pub rotation: i64,
    pub choices: Option<Choices>,
}

/// The choices as plain values.
pub struct ChoicesView {
    pub candidates: Seq<CandidateView>,
    pub ref_fallback: PointText,
    pub value_fallback: PointText,
}

/// A symbol as plain values.
pub struct PartView {
    pub reference: Seq<char>,
    pub rotation: int,
    pub choices: Option<ChoicesView>,
}

impl View for Choices {
    type V = ChoicesView;

    open spec fn view(&self) -> ChoicesView {
        ChoicesView {
            candidates: self.candidates@.map_values(|c: Candidate| c@),
            ref_fallback: self.ref_fallback@,
            value_fallback: self.value_fallback@,
        }
    }
}

impl View for Part {
    type V = PartView;

    open spec fn view(&self) -> PartView {
        PartView {
            reference: self.reference@,
            rotation: self.rotation as int,
            choices: match self.choices {
                Some(c) => Some(c@),
                None => None,
            },
        }
    }
}

/// Symbols as plain values.
pub open spec fn parts_of(v: Seq<Part>) -> Seq<PartView> {
    v.map_values(|p: Part| p@)
}

/// A candidate is free: neither of its boxes covers anything, or a field that
/// was placed before.
pub open spec fn free(o: ObstacleView, claimed: Seq<Box4>, c: CandidateView, own: Seq<char>) -> bool {
    &&& !hits_any(c.ref_box, claimed)
    &&& !hits_any(c.value_box, claimed)
    &&& !collides(o, c.ref_box, own)
    &&& !collides(o, c.value_box, own)
}

/// The first free candidate, number `k` or later.
pub open spec fn first_free(
    o: ObstacleView,
    claimed: Seq<Box4>,
    cs: Seq<CandidateView>,
    own: Seq<char>,
    k: int,
) -> Option<int>
    decreases cs.len() - k,
{
    if k < 0 || k >= cs.len() {
        None
    } else if free(o, claimed, cs[k], own) {
        Some(k)
    } else {
        first_free(o, claimed, cs, own, k + 1)
    }
}

fn find_free(o: &Obstacles, claimed: &Vec<Box4>, cs: &Vec<Candidate>, own: &str) -> (r: Option<
    usize,
>)
    ensures
        match r {
            Some(k) => k < cs@.len() && first_free(
                o@,
                claimed@,
                cs@.map_values(|c: Candidate| c@),
                own@,
                0,
            ) == Some(k as int),
            None => first_free(
                o@,
                claimed@,
                cs@.map_values(|c: Candidate| c@),
                own@,
                0,
            ) is None,
        },
{
    let ghost all = cs@.map_values(|c: Candidate| c@);
    let mut k: usize = 0;
    while k < cs.len()
        invariant
            all == cs@.map_values(|c: Candidate| c@),
            k <= cs@.len(),
            first_free(o@, claimed@, all, own@, 0) == first_free(
                o@,
                claimed@,
                all,
                own@,
                k as int,
            ),
        decreases cs@.len() - k,
    {
        assert(all[k as int] == cs@[k as int]@);
        if !hits_one(cs[k].ref_box, claimed) && !hits_one(cs[k].value_box, claimed) && !covers(
            o,
            cs[k].ref_box,
            own,
        ) && !covers(o, cs[k].value_box, own) {
            return Some(k);
        }
        k = k + 1;
    }
    None
}

// One symbol after the other
/// A power symbol: its reference begins with a hash.
pub open spec fn is_power(reference: Seq<char>) -> bool {
    reference.len() > 0 && reference[0] == '#'
}

/// The symbol is one of those whose fields are to be placed: those that were
/// asked for, or all that are no power symbols.
pub open spec fn wanted(reference: Seq<char>, only: Option<Seq<Seq<char>>>) -> bool {
    match only {
        Some(refs) => refs.contains(reference),
        None => !is_power(reference),
    }
}

/// How far the placement has come: the boxes that are taken, the references that
/// were dealt with, which symbol got which candidate, what went wrong, and what
/// to write.
pub struct Progress {
    pub claimed: Seq<Box4>,
    pub done: Seq<Seq<char>>,
    pub placed: Seq<(int, Option<int>)>,
    pub errors: Seq<Seq<char>>,
    pub edits: Seq<Edit>,
}

/// Nothing was done yet.
pub open spec fn no_progress() -> Progress {
    Progress { claimed: seq![], done: seq![], placed: seq![], errors: seq![], edits: seq![] }
}

/// The angle of a field: fields turn with their symbol, so one on its side has
/// them turned back to read horizontally.
pub open spec fn field_angle(rotation: int) -> Seq<char> {
    if rotation % 180 == 90 {
        "90"@
    } else {
        "0"@
    }
}

/// Write a field to a place, or note that the symbol has no such field.
pub open spec fn write_field(
    h: Seq<u8>,
    p: Progress,
    reference: Seq<char>,
    name: Seq<char>,
    at: PointText,
    angle: Seq<char>,
) -> Progress {
    match field_place(h, reference, name) {
        Some(s) => Progress {
            edits: p.edits.push(
                Edit { start: s.0, end: s.1, text: place_text(at.x, at.y, angle) },
            ),
            ..p
        },
        None => Progress {
            errors: p.errors.push(reference + ": field '"@ + name + "' not found"@),
            ..p
        },
    }
}

/// Place the fields of symbol number `i`.
pub open spec fn place_fields(
    h: Seq<u8>,
    o: ObstacleView,
    p: Progress,
    i: int,
    reference: Seq<char>,
    rotation: int,
    c: ChoicesView,
) -> Progress {
    let choice = first_free(o, p.claimed, c.candidates, reference, 0);
    let ref_at = match choice {
        Some(k) => c.candidates[k].ref_at,
        None => c.ref_fallback,
    };
    let value_at = match choice {
        Some(k) => c.candidates[k].value_at,
        None => c.value_fallback,
    };
    let taken = Progress {
        claimed: match choice {
            Some(k) => p.claimed.push(c.candidates[k].ref_box).push(c.candidates[k].value_box),
            None => p.claimed,
        },
        ..p
    };
    let angle = field_angle(rotation);
    let one = write_field(h, taken, reference, "Reference"@, ref_at, angle);
    let two = write_field(h, one, reference, "Value"@, value_at, angle);
    Progress { placed: two.placed.push((i, choice)), ..two }
}

/// Deal with symbol number `i`. Multi-unit parts share one field set on the
/// first unit's block; it is placed once per reference.
pub open spec fn step(
    h: Seq<u8>,
    o: ObstacleView,
    only: Option<Seq<Seq<char>>>,
    p: Progress,
    i: int,
    part: PartView,
) -> Progress {
    if !wanted(part.reference, only) || p.done.contains(part.reference) {
        p
    } else {
        let q = Progress { done: p.done.push(part.reference), ..p };
        match part.choices {
            None => Progress {
                errors: q.errors.push(part.reference + ": no pins resolved"@),
                ..q
            },
            Some(c) => place_fields(h, o, q, i, part.reference, part.rotation, c),
        }
    }
}

/// Deal with the first `k` symbols.
pub open spec fn progress(
    h: Seq<u8>,
    o: ObstacleView,
    only: Option<Seq<Seq<char>>>,
    parts: Seq<PartView>,
    k: int,
) -> Progress
    decreases k,
{
    if k <= 0 {
        no_progress()
    } else {
        step(h, o, only, progress(h, o, only, parts, k - 1), k - 1, parts[k - 1])
    }
}

/// How far the placement has come.
struct Work {
    claimed: Vec<Box4>,
    done: Vec<String>,
    placed: Vec<(usize, Option<usize>)>,
    errors: Vec<String>,
    edits: Vec<SexpEdit>,
}

/// Which symbol got which candidate.
pub open spec fn picks_of(v: Seq<(usize, Option<usize>)>) -> Seq<(int, Option<int>)> {
    v.map_values(|p: (usize, Option<usize>)| (p.0 as int, crate::text::opt_int(p.1)))
}

impl Work {
    spec fn is(self, p: Progress) -> bool {
        &&& self.claimed@ == p.claimed
        &&& strings_of(self.done@) == p.done
        &&& picks_of(self.placed@) == p.placed
        &&& strings_of(self.errors@) == p.errors
        &&& edits_of(self.edits@) == p.edits
    }

    spec fn fitting(self, h: Seq<u8>) -> bool {
        forall|i: int| 0 <= i < self.edits@.len() ==> fits(h, (#[trigger] self.edits@[i])@)
    }
}

fn listed(v: &Vec<String>, s: &str) -> (r: bool)
    ensures
        r == strings_of(v@).contains(s@),
{
    let ghost all = strings_of(v@);
    let mut k: usize = 0;
    while k < v.len()
        invariant
            all == strings_of(v@),
            k <= v@.len(),
            forall|i: int| 0 <= i < k ==> all[i] != s@,
        decreases v@.len() - k,
    {
        assert(all[k as int] == v@[k as int]@);
        if same(v[k].as_str(), s) {
            return true;
        }
        k = k + 1;
    }
    false
}

fn is_wanted(reference: &str, only: Option<&Vec<String>>) -> (r: bool)
    ensures
        r == wanted(
            reference@,
            match only {
                Some(v) => Some(strings_of(v@)),
                None => None,
            },
        ),
{
    match only {
        Some(v) => listed(v, reference),
        None => {
            if reference.unicode_len() == 0 {
                return true;
            }
            proof {
                reveal_strlit("#");
                assert("#"@ =~= seq!['#']);
                assert(reference@.subrange(0, 1) =~= seq![reference@[0]]);
                assert(reference@.subrange(0, 1) == "#"@ ==> reference@[0] == "#"@[0]);
            }
            !same(reference.substring_char(0, 1), "#")
        },
    }
}

fn angle_text(rotation: i64) -> (r: &'static str)
    ensures
        r@ == field_angle(rotation as int),
{
    if rotation >= 0 {
        if rotation % 180 == 90 {
            "90"
        } else {
            "0"
        }
    } else {
        let n: i64 = -(rotation + 1);
        let m: i64 = n % 180;
        proof {
            vstd::arithmetic::div_mod::lemma_fundamental_div_mod(n as int, 180);
            let q = n as int / 180;
            vstd::arithmetic::div_mod::lemma_fundamental_div_mod_converse(
                rotation as int,
                180,
                -q - 1,
                179 - m,
            );
        }
        if m == 89 {
            "90"
        } else {
            "0"
        }
    }
}

fn put_field(
    content: &str,
    w: &mut Work,
    reference: &str,
    name: &str,
    at: &Point,
    angle: &str,
    Ghost(p): Ghost<Progress>,
)
    requires
        old(w).is(p),
        old(w).fitting(bytes_of(content@)),
    ensures
        final(w).is(write_field(bytes_of(content@), p, reference@, name@, at@, angle@)),
        final(w).fitting(bytes_of(content@)),
{
    let ghost e0 = w.edits@;
    let ghost r0 = w.errors@;
    match field_at_range(content, reference, name) {
        Some((a, b)) => {
            let text: String = at.x.as_str().to_owned().concat(" ").concat(at.y.as_str()).concat(
                " ",
            ).concat(angle);
            let edit: SexpEdit = SexpEdit::replace(a, b, text);
            let ghost e = edit@;
            w.edits.push(edit);
            assert(edits_of(w.edits@) =~= edits_of(e0).push(e));
        },
        None => {
            let message: String = reference.to_owned().concat(": field '").concat(name).concat(
                "' not found",
            );
            let ghost m = message@;
            w.errors.push(message);
            assert(strings_of(w.errors@) =~= strings_of(r0).push(m));
        },
    }
}

fn put_fields(
    content: &str,
    o: &Obstacles,
    w: &mut Work,
    i: usize,
    reference: &str,
    rotation: i64,
    c: &Choices,
    Ghost(p): Ghost<Progress>,
)
    requires
        old(w).is(p),
        old(w).fitting(bytes_of(content@)),
    ensures
        final(w).is(
            place_fields(
                bytes_of(content@),
                o@,
                p,
                i as int,
                reference@,
                rotation as int,
                c@,
            ),
        ),
        final(w).fitting(bytes_of(content@)),
{
    let ghost h = bytes_of(content@);
    let choice: Option<usize> = find_free(o, &w.claimed, &c.candidates, reference);
    let angle: &str = angle_text(rotation);
    let ghost taken = Progress {
        claimed: match crate::text::opt_int(choice) {
            Some(k) => p.claimed.push(c@.candidates[k].ref_box).push(c@.candidates[k].value_box),
            None => p.claimed,
        },
        ..p
    };
    let ghost ref_at = match crate::text::opt_int(choice) {
        Some(k) => c@.candidates[k].ref_at,
        None => c@.ref_fallback,
    };
    let ghost one = write_field(h, taken, reference@, "Reference"@, ref_at, angle@);
    match choice {
        Some(k) => {
            proof {
                assert(c@.candidates[k as int] == c.candidates@[k as int]@);
            }
            w.claimed.push(c.candidates[k].ref_box);
            w.claimed.push(c.candidates[k].value_box);
            put_field(
                content,
                w,
                reference,
                "Reference",
                &c.candidates[k].ref_at,
                angle,
                Ghost(taken),
            );
            put_field(
                content,
                w,
                reference,
                "Value",
                &c.candidates[k].value_at,
                angle,
                Ghost(one),
            );
        },
        None => {
            put_field(content, w, reference, "Reference", &c.ref_fallback, angle, Ghost(taken));
            put_field(content, w, reference, "Value", &c.value_fallback, angle, Ghost(one));
        },
    }
    let ghost before = w.placed@;
    w.placed.push((i, choice));
    assert(picks_of(w.placed@) =~= picks_of(before).push(
        (i as int, crate::text::opt_int(choice)),
    ));
}

fn advance(
    content: &str,
    o: &Obstacles,
    only: Option<&Vec<String>>,
    w: &mut Work,
    i: usize,
    part: &Part,
    Ghost(p): Ghost<Progress>,
)
    requires
        old(w).is(p),
        old(w).fitting(bytes_of(content@)),
    ensures
        final(w).is(
            step(
                bytes_of(content@),
                o@,
                match only {
                    Some(v) => Some(strings_of(v@)),
                    None => None,
                },
                p,
                i as int,
                part@,
            ),
        ),
        final(w).fitting(bytes_of(content@)),
{
    let reference: &str = part.reference.as_str();
    if !is_wanted(reference, only) || listed(&w.done, reference) {
        return;
    }
    let ghost d0 = w.done@;
    w.done.push(reference.to_owned());
    assert(strings_of(w.done@) =~= strings_of(d0).push(reference@));
    let ghost q = Progress { done: p.done.push(reference@), ..p };
    match &part.choices {
        None => {
            let ghost r0 = w.errors@;
            let message: String = reference.to_owned().concat(": no pins resolved");
            let ghost m = message@;
            w.errors.push(message);
            assert(strings_of(w.errors@) =~= strings_of(r0).push(m));
        },
        Some(c) => {
            put_fields(content, o, w, i, reference, part.rotation, c, Ghost(q));
        },
    }
}

/// What the placement came to.
pub struct Autoplaced {
    /// The new schematic, if anything is to be written.
    pub content: Option<String>,
    /// The symbols whose fields were placed, each with the candidate that it
    /// got; one without a free candidate got its fallback.
    pub placed: Vec<(usize, Option<usize>)>,
    pub errors: Vec<String>,
}

/// Put Reference and Value of each symbol to the nearest place where they cover
/// nothing. `only` names the symbols to deal with; without it, all that are no
/// power symbols.
pub fn autoplace_fields(
    content: String,
    parts: &Vec<Part>,
    o: &Obstacles,
    only: Option<&Vec<String>>,
) -> (r: Autoplaced)
    ensures
        ({
            let h = bytes_of(content@);
            let p = progress(
                h,
                o@,
                match only {
                    Some(v) => Some(strings_of(v@)),
                    None => None,
                },
                parts_of(parts@),
                parts@.len() as int,
            );
            &&& picks_of(r.placed@) == p.placed
            &&& strings_of(r.errors@) == p.errors
            &&& match r.content {
                Some(s) => p.edits.len() > 0 && bytes_of(s@) == edited(h, p.edits),
                None => p.edits.len() == 0,
            }
        }),
{
    let ghost h = bytes_of(content@);
    let ghost all = parts_of(parts@);
    let ghost some: Option<Seq<Seq<char>>> = match only {
        Some(v) => Some(strings_of(v@)),
        None => None,
    };
    let mut w: Work = Work {
        claimed: Vec::new(),
        done: Vec::new(),
        placed: Vec::new(),
        errors: Vec::new(),
        edits: Vec::new(),
    };
    proof {
        let z = no_progress();
        assert(w.claimed@ =~= z.claimed);
        assert(strings_of(w.done@) =~= z.done);
        assert(picks_of(w.placed@) =~= z.placed);
        assert(strings_of(w.errors@) =~= z.errors);
        assert(edits_of(w.edits@) =~= z.edits);
    }
    let mut k: usize = 0;
    while k < parts.len()
        invariant
            h == bytes_of(content@),
            all == parts_of(parts@),
            some == (match only {
                Some(v) => Some(strings_of(v@)),
                None => None,
            }),
            k <= parts@.len(),
            w.is(progress(h, o@, some, all, k as int)),
            w.fitting(h),
        decreases parts@.len() - k,
    {
        assert(all[k as int] == parts@[k as int]@);
        advance(
            content.as_str(),
            o,
            only,
            &mut w,
            k,
            &parts[k],
            Ghost(progress(h, o@, some, all, k as int)),
        );
        k = k + 1;
    }
    let Work { claimed: _, done: _, placed, errors, edits } = w;
    let new_content: Option<String> = if edits.len() > 0 {
        Some(apply_edits(content, edits))
    } else {
        None
    };
    Autoplaced { content: new_content, placed, errors }
}

// Boxes of multi-unit parts
/// A unit of a symbol: its reference, its number, and whether its pins are
/// known.
pub struct Unit {
    pub reference: String,
    pub unit: u32,
    pub has_pins: bool,
}

/// The last of the first `n` units that has the reference and the number of the
/// unit `u`, and pins.
pub open spec fn box_owner_from(units: Seq<Unit>, u: Unit, n: int) -> Option<int>
    decreases n,
{
    if n <= 0 {
        None
    } else if units[n - 1].has_pins && units[n - 1].unit == u.unit && units[n - 1].reference@
        == u.reference@ {
        Some(n - 1)
    } else {
        box_owner_from(units, u, n - 1)
    }
}

/// The unit whose box counts for unit number `k`: the last one with the same
/// reference and number whose pins are known.
pub fn box_owner(units: &Vec<Unit>, k: usize) -> (r: Option<usize>)
    requires
        k < units@.len(),
    ensures
        match r {
            Some(i) => i < units@.len() && box_owner_from(
                units@,
                units@[k as int],
                units@.len() as int,
            ) == Some(i as int),
            None => box_owner_from(units@, units@[k as int], units@.len() as int) is None,
        },
{
    let mut n: usize = units.len();
    while n > 0
        invariant
            k < units@.len(),
            n <= units@.len(),
            box_owner_from(units@, units@[k as int], units@.len() as int) == box_owner_from(
                units@,
                units@[k as int],
                n as int,
            ),
        decreases n,
    {
        if units[n - 1].has_pins && units[n - 1].unit == units[k].unit && same(
            units[n - 1].reference.as_str(),
            units[k].reference.as_str(),
        ) {
            return Some(n - 1);
        }
        n = n - 1;
    }
    None
}

// Laws
/// Symbol number `i` got candidate number `k`, as one of those that were placed.
pub open spec fn got(parts: Seq<PartView>, p: Progress, j: int, c: CandidateView) -> bool {
    &&& 0 <= j < p.placed.len()
    &&& 0 <= p.placed[j].0 < parts.len()
    &&& parts[p.placed[j].0].choices matches Some(cs)
    &&& p.placed[j].1 matches Some(k)
    &&& 0 <= k < cs.candidates.len()
    &&& c == cs.candidates[k]
}

/// The reference of the symbol that was placed as number `j`.
pub open spec fn placed_reference(parts: Seq<PartView>, p: Progress, j: int) -> Seq<char> {
    parts[p.placed[j].0].reference
}

/// No box of the one candidate hits a box of the other.
pub open spec fn apart(a: CandidateView, b: CandidateView) -> bool {
    &&& !boxes_hit(a.ref_box, b.ref_box)
    &&& !boxes_hit(a.ref_box, b.value_box)
    &&& !boxes_hit(a.value_box, b.ref_box)
    &&& !boxes_hit(a.value_box, b.value_box)
}

/// What holds at every point of the placement.
spec fn sound(
    o: ObstacleView,
    only: Option<Seq<Seq<char>>>,
    parts: Seq<PartView>,
    p: Progress,
    k: int,
) -> bool {
    &&& forall|j: int|
        0 <= j < p.placed.len() ==> {
            &&& 0 <= (#[trigger] p.placed[j]).0 < k
            &&& wanted(placed_reference(parts, p, j), only)
            &&& p.done.contains(placed_reference(parts, p, j))
        }
    &&& forall|i: int, j: int|
        0 <= i < j < p.placed.len() ==> (#[trigger] parts[p.placed[i].0]).reference != (
        #[trigger] parts[p.placed[j].0]).reference
    &&& forall|j: int, c: CandidateView|
        #[trigger] got(parts, p, j, c) ==> {
            &&& p.claimed.contains(c.ref_box)
            &&& p.claimed.contains(c.value_box)
            &&& !collides(o, c.ref_box, placed_reference(parts, p, j))
            &&& !collides(o, c.value_box, placed_reference(parts, p, j))
        }
    &&& forall|i: int, j: int, a: CandidateView, b: CandidateView|
        i < j && #[trigger] got(parts, p, i, a) && #[trigger] got(parts, p, j, b) ==> apart(b, a)
}

proof fn lemma_first_free(
    o: ObstacleView,
    claimed: Seq<Box4>,
    cs: Seq<CandidateView>,
    own: Seq<char>,
    k: int,
)
    requires
        0 <= k,
    ensures
        match first_free(o, claimed, cs, own, k) {
            Some(i) => {
                &&& k <= i < cs.len()
                &&& free(o, claimed, cs[i], own)
                &&& forall|j: int| k <= j < i ==> !free(o, claimed, #[trigger] cs[j], own)
            },
            None => forall|j: int| k <= j < cs.len() ==> !free(o, claimed, #[trigger] cs[j], own),
        },
    decreases cs.len() - k,
{
    if k < cs.len() && !free(o, claimed, cs[k], own) {
        lemma_first_free(o, claimed, cs, own, k + 1);
    }
}

proof fn lemma_missed(b: Box4, v: Seq<Box4>, x: Box4)
    requires
        !hits_any(b, v),
        v.contains(x),
    ensures
        !boxes_hit(b, x),
{
    let i = choose|i: int| 0 <= i < v.len() && v[i] == x;
    assert(!boxes_hit(b, v[i]));
}

proof fn lemma_sound(
    h: Seq<u8>,
    o: ObstacleView,
    only: Option<Seq<Seq<char>>>,
    parts: Seq<PartView>,
    k: int,
)
    requires
        0 <= k <= parts.len(),
    ensures
        sound(o, only, parts, progress(h, o, only, parts, k), k),
    decreases k,
{
    if k > 0 {
        lemma_sound(h, o, only, parts, k - 1);
        let p = progress(h, o, only, parts, k - 1);
        let n = progress(h, o, only, parts, k);
        let part = parts[k - 1];
        let own = part.reference;
        if wanted(own, only) && !p.done.contains(own) {
            assert(n.done == p.done.push(own));
            assert forall|r: Seq<char>| p.done.contains(r) implies n.done.contains(r) by {
                let i = choose|i: int| 0 <= i < p.done.len() && p.done[i] == r;
                assert(n.done[i] == r);
            }
            assert(n.done[p.done.len() as int] == own);
            match part.choices {
                None => {
                    assert forall|j: int, c: CandidateView| got(parts, n, j, c) implies got(
                        parts,
                        p,
                        j,
                        c,
                    ) by {}
                },
                Some(c) => {
                    lemma_first_free(o, p.claimed, c.candidates, own, 0);
                    let choice = first_free(o, p.claimed, c.candidates, own, 0);
                    assert(n.placed == p.placed.push((k - 1, choice)));
                    assert forall|b: Box4| p.claimed.contains(b) implies n.claimed.contains(b) by {
                        let i = choose|i: int| 0 <= i < p.claimed.len() && p.claimed[i] == b;
                        assert(n.claimed[i] == b);
                    }
                    if choice is Some {
                        let w = c.candidates[choice.unwrap()];
                        let m = p.claimed.len() as int;
                        assert(n.claimed[m] == w.ref_box);
                        assert(n.claimed[m + 1] == w.value_box);
                    }
                    let last = p.placed.len() as int;
                    assert forall|j: int, x: CandidateView| #[trigger] got(parts, n, j, x) implies ({
                        &&& n.claimed.contains(x.ref_box)
                        &&& n.claimed.contains(x.value_box)
                        &&& !collides(o, x.ref_box, placed_reference(parts, n, j))
                        &&& !collides(o, x.value_box, placed_reference(parts, n, j))
                    }) by {
                        if j < last {
                            assert(n.placed[j] == p.placed[j]);
                            assert(got(parts, p, j, x));
                        }
                    }
                    assert forall|i: int, j: int, a: CandidateView, b: CandidateView|
                        i < j && #[trigger] got(parts, n, i, a) && #[trigger] got(
                            parts,
                            n,
                            j,
                            b,
                        ) implies apart(b, a) by {
                        assert(n.placed[i] == p.placed[i]);
                        assert(got(parts, p, i, a));
                        if j < last {
                            assert(n.placed[j] == p.placed[j]);
                            assert(got(parts, p, j, b));
                        } else {
                            assert(free(o, p.claimed, b, own));
                            lemma_missed(b.ref_box, p.claimed, a.ref_box);
                            lemma_missed(b.ref_box, p.claimed, a.value_box);
                            lemma_missed(b.value_box, p.claimed, a.ref_box);
                            lemma_missed(b.value_box, p.claimed, a.value_box);
                        }
                    }
                    assert forall|j: int| 0 <= j < n.placed.len() implies ({
                        &&& 0 <= (#[trigger] n.placed[j]).0 < k
                        &&& wanted(placed_reference(parts, n, j), only)
                        &&& n.done.contains(placed_reference(parts, n, j))
                    }) by {
                        if j < last {
                            assert(n.placed[j] == p.placed[j]);
                            assert(p.done.contains(placed_reference(parts, p, j)));
                        }
                    }
                    assert forall|i: int, j: int| 0 <= i < j < n.placed.len() implies (
                    #[trigger] parts[n.placed[i].0]).reference != (
                    #[trigger] parts[n.placed[j].0]).reference by {
                        assert(n.placed[i] == p.placed[i]);
                        assert(p.done.contains(placed_reference(parts, p, i)));
                        if j < last {
                            assert(n.placed[j] == p.placed[j]);
                            assert(parts[p.placed[i].0].reference
                                != parts[p.placed[j].0].reference);
                        }
                    }
                },
            }
        }
    }
}

/// A field that was put to a candidate's place covers no wire, no label and no
/// other symbol.
pub proof fn law_placed_fields_cover_nothing(
    h: Seq<u8>,
    o: ObstacleView,
    only: Option<Seq<Seq<char>>>,
    parts: Seq<PartView>,
    j: int,
    c: CandidateView,
)
    requires
        got(parts, progress(h, o, only, parts, parts.len() as int), j, c),
    ensures
        ({
            let own = placed_reference(
                parts,
                progress(h, o, only, parts, parts.len() as int),
                j,
            );
            !collides(o, c.ref_box, own) && !collides(o, c.value_box, own)
        }),
{
    lemma_sound(h, o, only, parts, parts.len() as int);
}

/// Two symbols never get places that overlap.
pub proof fn law_placed_fields_keep_apart(
    h: Seq<u8>,
    o: ObstacleView,
    only: Option<Seq<Seq<char>>>,
    parts: Seq<PartView>,
    i: int,
    j: int,
    a: CandidateView,
    b: CandidateView,
)
    requires
        i != j,
        got(parts, progress(h, o, only, parts, parts.len() as int), i, a),
        got(parts, progress(h, o, only, parts, parts.len() as int), j, b),
    ensures
        apart(a, b),
{
    let p = progress(h, o, only, parts, parts.len() as int);
    lemma_sound(h, o, only, parts, parts.len() as int);
    if i < j {
        assert(apart(b, a));
    } else {
        assert(apart(a, b));
    }
}

/// The fields of a reference are placed at most once, and only those of
/// references that are wanted.
pub proof fn law_each_reference_is_placed_once(
    h: Seq<u8>,
    o: ObstacleView,
    only: Option<Seq<Seq<char>>>,
    parts: Seq<PartView>,
)
    ensures
        ({
            let p = progress(h, o, only, parts, parts.len() as int);
            &&& forall|j: int|
                0 <= j < p.placed.len() ==> 0 <= (#[trigger] p.placed[j]).0 < parts.len()
                    && wanted(placed_reference(parts, p, j), only)
            &&& forall|i: int, j: int|
                0 <= i < j < p.placed.len() ==> (#[trigger] parts[p.placed[i].0]).reference != (
                #[trigger] parts[p.placed[j].0]).reference
        }),
{
    lemma_sound(h, o, only, parts, parts.len() as int);
}

/// Without a list of references, no power symbol is touched.
pub proof fn law_power_symbols_are_left_alone(
    h: Seq<u8>,
    o: ObstacleView,
    parts: Seq<PartView>,
    j: int,
)
    requires
        0 <= j < progress(h, o, None, parts, parts.len() as int).placed.len(),
    ensures
        !is_power(placed_reference(parts, progress(h, o, None, parts, parts.len() as int), j)),
{
    lemma_sound(h, o, None, parts, parts.len() as int);
    let p = progress(h, o, None, parts, parts.len() as int);
    assert(0 <= p.placed[j].0 < parts.len());
}

} // verus!
