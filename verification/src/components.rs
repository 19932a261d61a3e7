//! Footprints on a board file: placing, moving, rotating, copying and deleting
//! them by reference.
use crate::answer::{error_answer, report, reported, Answer, CallToolResult, Failure, ToolFailure};
use crate::board::{
    append_to_board, apply_one, at_numbers, at_text, at_words, close_of, piece, places_of, replaced,
    At, AtText, BoardError,
};
use crate::edits::{apply_edits, edited, edits_of, fits, Edit, SexpEdit};
use crate::footprint::{
    block_anchor, find_footprint_block, footprint_anchor, footprint_at_spans, footprint_move_edit,
    footprint_rotation_edits, footprint_span, lemma_footprint_from, rewrites, rotation_places,
};
use crate::placing::{board_ready, footprint_sexp_for_board, outcome};
use crate::property::{
    escaped, footprint_set_value_edit, law_property_reads_back, lemma_property_span, property_span,
    property_value, regenerate_uuids, set_reference_in_block, uuids, with_uuids,
};
use crate::reading::{footprint_missing, report_missing};
use crate::scan::spans_of;
use crate::text::{
    byte_len, bytes_of, lemma_bytes_concat, lemma_bytes_valid, lemma_cut_ends, lemma_cut_valid,
    same, slice, span_of, text_of,
};
use crate::tracks::{leading_whitespace, line_start};
use crate::words::{nat_chars, nat_text, strings_of};
use vstd::arithmetic::div_mod::lemma_fundamental_div_mod_converse;
use vstd::prelude::*;
use vstd::string::*;
use vstd::utf8::*;

verus! {

/// The bytes of the board that came out, or why none did.
pub open spec fn change(r: Result<String, ToolFailure>) -> Result<Seq<u8>, Failure> {
    match r {
        Ok(s) => Ok(bytes_of(s@)),
        Err(f) => Err(f@),
    }
}

/// The call fails with the message of this error.
pub open spec fn raised(e: BoardError) -> Failure {
    Failure::Raised(e.text())
}

fn raise(e: BoardError) -> (r: ToolFailure)
    ensures
        r@ == raised(e),
{
    ToolFailure::Raised(e.message())
}

/// The call answers that the footprint is missing.
pub open spec fn missing(reference: Seq<char>) -> Failure {
    reported(footprint_missing(reference))
}

fn miss(reference: &str) -> (r: ToolFailure)
    ensures
        r@ == missing(reference@),
{
    ToolFailure::Reported(report_missing(reference))
}

// Places
/// The numbers at the spans `v`, as they are written.
pub open spec fn numbers_at(h: Seq<u8>, v: Seq<(int, int)>) -> Seq<Seq<Seq<char>>> {
    v.map_values(|a: (int, int)| at_numbers(text_of(h.subrange(a.0, a.1))))
}

/// Lists of words.
pub open spec fn word_lists(v: Seq<Vec<String>>) -> Seq<Seq<Seq<char>>> {
    v.map_values(|w: Vec<String>| strings_of(w@))
}

/// The numbers of every `(at ...)` that a rotation of the footprint touches:
/// first those of its own place, then those of its pads, properties and texts.
pub fn footprint_places(content: &str, reference: &str) -> (r: Result<
    Vec<Vec<String>>,
    ToolFailure,
>)
    ensures
        match footprint_span(bytes_of(content@), reference@) {
            None => r matches Err(f) && f@ == missing(reference@),
            Some(span) => match rotation_places(bytes_of(content@), span) {
                None => r matches Err(f) && f@ == raised(BoardError::NoAnchor),
                Some(v) => r matches Ok(w) && word_lists(w@) == numbers_at(bytes_of(content@), v),
            },
        },
{
    let ghost h = bytes_of(content@);
    let span: (usize, usize) = match find_footprint_block(content, reference) {
        Some(s) => s,
        None => {
            return Err(miss(reference));
        },
    };
    let spans: Vec<(usize, usize)> = match footprint_at_spans(content, span) {
        Ok(v) => v,
        Err(e) => {
            return Err(raise(e));
        },
    };
    let ghost places = spans_of(spans@);
    let mut out: Vec<Vec<String>> = Vec::new();
    let mut k: usize = 0;
    while k < spans.len()
        invariant
            h == bytes_of(content@),
            k <= spans@.len(),
            places == spans_of(spans@),
            forall|i: int|
                0 <= i < spans@.len() ==> piece(
                    h,
                    (#[trigger] spans@[i]).0 as int,
                    spans@[i].1 as int,
                ),
            out@.len() == k,
            forall|i: int|
                0 <= i < k ==> strings_of((#[trigger] out@[i])@) == at_numbers(
                    text_of(h.subrange(places[i].0, places[i].1)),
                ),
        decreases spans@.len() - k,
    {
        assert(places[k as int] == span_of(spans@[k as int]));
        out.push(at_words(slice(content, spans[k].0, spans[k].1)));
        k = k + 1;
    }
    assert(word_lists(out@) =~= numbers_at(h, places));
    Ok(out)
}

/// The numbers of the place of a detached footprint block.
pub fn block_place(block: &str) -> (r: Result<Vec<String>, BoardError>)
    ensures
        match block_anchor(bytes_of(block@), (0, bytes_of(block@).len() as int)) {
            Some(a) => r matches Ok(w) && strings_of(w@) == at_numbers(
                text_of(bytes_of(block@).subrange(a.0, a.1)),
            ),
            None => r == Err::<Vec<String>, BoardError>(BoardError::NoAnchor),
        },
{
    let n: usize = byte_len(block);
    proof {
        lemma_bytes_valid(block@);
        lemma_cut_ends(bytes_of(block@));
    }
    match footprint_anchor(block, (0, n)) {
        Ok((a, b)) => Ok(at_words(slice(block, a, b))),
        Err(e) => Err(e),
    }
}

// Moving and rotating
/// The outcome of moving a footprint.
pub open spec fn moved(h: Seq<u8>, reference: Seq<char>, at: AtText) -> Result<Seq<u8>, Failure> {
    match footprint_span(h, reference) {
        None => Err(missing(reference)),
        Some(span) => match block_anchor(h, span) {
            None => Err(raised(BoardError::NoAnchor)),
            Some(a) => Ok(replaced(h, a.0, a.1, at_text(at))),
        },
    }
}

/// Move a placed footprint of the board file to `at`.
pub fn move_component(content: String, reference: &str, at: &At) -> (r: Result<String, ToolFailure>)
    ensures
        change(r) == moved(bytes_of(content@), reference@, at@),
{
    let span: (usize, usize) = match find_footprint_block(content.as_str(), reference) {
        Some(s) => s,
        None => {
            return Err(miss(reference));
        },
    };
    match footprint_move_edit(content.as_str(), span, at) {
        Ok(edit) => Ok(apply_one(content, edit)),
        Err(e) => Err(raise(e)),
    }
}

/// The outcome of rotating a footprint.
pub open spec fn rotated(h: Seq<u8>, reference: Seq<char>, ats: Seq<AtText>) -> Result<
    Seq<u8>,
    Failure,
> {
    match footprint_span(h, reference) {
        None => Err(missing(reference)),
        Some(span) => match rotation_places(h, span) {
            None => Err(raised(BoardError::NoAnchor)),
            Some(places) => Ok(edited(h, rewrites(places, ats))),
        },
    }
}

/// Set the rotation angle of a placed footprint of the board file: its own
/// place and those of the children that turn with it become `ats`.
pub fn rotate_component(content: String, reference: &str, ats: &Vec<At>) -> (r: Result<
    String,
    ToolFailure,
>)
    ensures
        change(r) == rotated(bytes_of(content@), reference@, places_of(ats@)),
{
    let span: (usize, usize) = match find_footprint_block(content.as_str(), reference) {
        Some(s) => s,
        None => {
            return Err(miss(reference));
        },
    };
    match footprint_rotation_edits(content.as_str(), span, ats) {
        Ok(edits) => Ok(apply_edits(content, edits)),
        Err(e) => Err(raise(e)),
    }
}

// Deleting
/// The outcome of deleting a footprint.
pub open spec fn deleted(h: Seq<u8>, reference: Seq<char>) -> Result<Seq<u8>, Answer> {
    match footprint_span(h, reference) {
        None => Err(error_answer(footprint_missing(reference))),
        Some(span) => Ok(replaced(h, line_start(h, span.0), span.1, Seq::empty())),
    }
}

/// Delete a placed footprint from the board file, with its indentation.
pub fn delete_component(content: String, reference: &str) -> (r: Result<String, CallToolResult>)
    ensures
        crate::routing::board_outcome(r) == deleted(bytes_of(content@), reference@),
{
    match find_footprint_block(content.as_str(), reference) {
        Some((s, e)) => {
            let ws: usize = leading_whitespace(content.as_str(), s);
            Ok(apply_one(content, SexpEdit::delete(ws, e)))
        },
        None => Err(report_missing(reference)),
    }
}

// Values
/// The outcome of setting the value of a footprint.
pub open spec fn valued(h: Seq<u8>, reference: Seq<char>, value: Seq<char>) -> Result<
    Seq<u8>,
    Failure,
> {
    match footprint_span(h, reference) {
        None => Err(missing(reference)),
        Some(span) => match property_span(h.subrange(span.0, span.1), "Value"@) {
            None => Err(raised(BoardError::NoValue)),
            Some(v) => Ok(replaced(h, span.0 + v.0, span.0 + v.1, escaped(value))),
        },
    }
}

/// Set the value of a placed footprint of the board file.
pub fn edit_component(content: String, reference: &str, value: &str) -> (r: Result<
    String,
    ToolFailure,
>)
    ensures
        change(r) == valued(bytes_of(content@), reference@, value@),
{
    let span: (usize, usize) = match find_footprint_block(content.as_str(), reference) {
        Some(s) => s,
        None => {
            return Err(miss(reference));
        },
    };
    match footprint_set_value_edit(content.as_str(), span, value) {
        Ok(edit) => Ok(apply_one(content, edit)),
        Err(e) => Err(raise(e)),
    }
}

// Placing
/// The board with the bytes `t` added before its last closing parenthesis.
pub open spec fn grown(h: Seq<u8>, t: Seq<u8>) -> Seq<u8> {
    h.subrange(0, close_of(h)) + t + h.subrange(close_of(h), h.len() as int)
}

/// A layer on the back of the board.
pub open spec fn back_side(layer: Seq<char>) -> bool {
    layer.len() >= 2 && layer[0] == 'B' && layer[1] == '.'
}

/// Whether a layer is on the back side of the board.
pub fn on_back_side(layer: &str) -> (r: bool)
    ensures
        r == back_side(layer@),
{
    proof {
        reveal_strlit("B.");
        assert("B."@ =~= seq!['B', '.']);
        if layer@.len() >= 2 {
            assert(layer@.subrange(0, 2) =~= seq![layer@[0], layer@[1]]);
            assert(layer@.subrange(0, 2) == "B."@ ==> layer@[0] == "B."@[0] && layer@[1]
                == "B."@[1]);
        }
    }
    layer.unicode_len() >= 2 && same(layer.substring_char(0, 2), "B.")
}

/// What is said of a footprint that no library has.
pub open spec fn library_missing(footprint: Seq<char>) -> Seq<char> {
    "Footprint '"@ + footprint + "' not found via fp-lib-table or standard library paths"@
}

/// What is said of a footprint that is to be placed on the back.
pub open spec fn no_back_side() -> Seq<char> {
    "place_component file fallback cannot place on back-side layers (footprint flipping requires KiCAD). Start KiCAD with the board open, or place on F.Cu."@
}

/// A footprint to be placed: its reference, its place without an angle, and
/// UUIDs for it and for everything in it.
pub struct Placement {
    pub reference: String,
    pub x: String,
    pub y: String,
    pub uuid: String,
    pub fresh: Vec<String>,
}

/// A footprint to be placed, as plain text.
pub struct PlacementText {
    pub reference: Seq<char>,
    pub x: Seq<char>,
    pub y: Seq<char>,
    pub uuid: Seq<char>,
    pub fresh: Seq<Seq<char>>,
}

impl View for Placement {
    type V = PlacementText;

    open spec fn view(&self) -> PlacementText {
        PlacementText {
            reference: self.reference@,
            x: self.x@,
            y: self.y@,
            uuid: self.uuid@,
            fresh: strings_of(self.fresh@),
        }
    }
}

/// The block of a placed footprint before its UUIDs are made fresh.
pub open spec fn raw_block(
    m: Seq<u8>,
    footprint: Seq<char>,
    p: PlacementText,
    ats: Option<Seq<AtText>>,
) -> Result<Seq<u8>, BoardError> {
    board_ready(m, footprint, p.reference, p.x, p.y, p.uuid, ats)
}

/// There are enough UUIDs for the block.
pub open spec fn enough_uuids(
    m: Seq<u8>,
    footprint: Seq<char>,
    p: PlacementText,
    ats: Option<Seq<AtText>>,
) -> bool {
    raw_block(m, footprint, p, ats) matches Ok(t) ==> uuids(t).len() <= p.fresh.len()
}

/// The block of a placed footprint.
pub open spec fn placed_block(
    m: Seq<u8>,
    footprint: Seq<char>,
    p: PlacementText,
    ats: Option<Seq<AtText>>,
) -> Result<Seq<u8>, BoardError> {
    match raw_block(m, footprint, p, ats) {
        Ok(t) => Ok(bytes_of("\n  "@) + with_uuids(t, p.fresh, 0)),
        Err(e) => Err(e),
    }
}

fn make_block(mod_content: &str, footprint: &str, p: &Placement, ats: Option<&Vec<At>>) -> (r: Result<
    String,
    BoardError,
>)
    requires
        enough_uuids(
            bytes_of(mod_content@),
            footprint@,
            p@,
            match ats {
                Some(a) => Some(places_of(a@)),
                None => None,
            },
        ),
    ensures
        outcome(r) == placed_block(
            bytes_of(mod_content@),
            footprint@,
            p@,
            match ats {
                Some(a) => Some(places_of(a@)),
                None => None,
            },
        ),
{
    footprint_sexp_for_board(
        mod_content,
        footprint,
        p.reference.as_str(),
        p.x.as_str(),
        p.y.as_str(),
        p.uuid.as_str(),
        ats,
        &p.fresh,
    )
}

/// The outcome of placing a footprint.
pub open spec fn placed(
    h: Seq<u8>,
    m: Option<Seq<u8>>,
    footprint: Seq<char>,
    layer: Seq<char>,
    p: PlacementText,
    ats: Option<Seq<AtText>>,
) -> Result<Seq<u8>, Failure> {
    if back_side(layer) {
        Err(reported(no_back_side()))
    } else {
        match m {
            None => Err(reported(library_missing(footprint))),
            Some(f) => match placed_block(f, footprint, p, ats) {
                Err(e) => Err(raised(e)),
                Ok(b) => Ok(grown(h, b)),
            },
        }
    }
}

/// Insert a library footprint into the board file. `mod_content` is the text of
/// its `.kicad_mod` file, if there is one; `ats` the places to write if it has
/// an angle.
pub fn place_component(
    content: String,
    mod_content: Option<&str>,
    footprint: &str,
    layer: &str,
    p: &Placement,
    ats: Option<&Vec<At>>,
) -> (r: Result<String, ToolFailure>)
    requires
        mod_content matches Some(m) ==> enough_uuids(
            bytes_of(m@),
            footprint@,
            p@,
            match ats {
                Some(a) => Some(places_of(a@)),
                None => None,
            },
        ),
    ensures
        change(r) == placed(
            bytes_of(content@),
            match mod_content {
                Some(m) => Some(bytes_of(m@)),
                None => None,
            },
            footprint@,
            layer@,
            p@,
            match ats {
                Some(a) => Some(places_of(a@)),
                None => None,
            },
        ),
{
    if on_back_side(layer) {
        return Err(
            report(
                "place_component file fallback cannot place on back-side layers (footprint flipping requires KiCAD). Start KiCAD with the board open, or place on F.Cu.".to_owned(),
            ),
        );
    }
    match mod_content {
        None => Err(report_library(footprint)),
        Some(m) => match make_block(m, footprint, p, ats) {
            Ok(block) => Ok(append_to_board(content, block)),
            Err(e) => Err(raise(e)),
        },
    }
}

fn report_library(footprint: &str) -> (r: ToolFailure)
    ensures
        r@ == reported(library_missing(footprint@)),
{
    report(
        "Footprint '".to_owned().concat(footprint).concat(
            "' not found via fp-lib-table or standard library paths",
        ),
    )
}

// Arrays
/// One place of an array.
pub struct Slot {
    pub reference: String,
    pub row: usize,
    pub col: usize,
}

/// One place of an array, as plain values.
pub struct SlotView {
    pub reference: Seq<char>,
    pub row: int,
    pub col: int,
}

impl View for Slot {
    type V = SlotView;

    open spec fn view(&self) -> SlotView {
        SlotView { reference: self.reference@, row: self.row as int, col: self.col as int }
    }
}

/// Place number `i` of an array: row by row, references counted up.
pub open spec fn slot(prefix: Seq<char>, ref_start: int, count_x: int, i: int) -> SlotView {
    SlotView { reference: prefix + nat_chars(ref_start + i), row: i / count_x, col: i % count_x }
}

/// The places of an array of `count_x` columns and `count_y` rows, row by row,
/// with references counted up from `ref_start`.
pub fn array_slots(prefix: &str, ref_start: usize, count_x: usize, count_y: usize) -> (r: Vec<Slot>)
    requires
        ref_start + count_x * count_y <= usize::MAX,
    ensures
        r@.len() == count_x * count_y,
        forall|i: int|
            0 <= i < r@.len() ==> (#[trigger] r@[i])@ == slot(
                prefix@,
                ref_start as int,
                count_x as int,
                i,
            ),
{
    let mut out: Vec<Slot> = Vec::new();
    let mut row: usize = 0;
    proof {
        assert(0 * count_x == 0) by (nonlinear_arith);
        assert(0 <= count_x * count_y) by (nonlinear_arith);
    }
    while row < count_y
        invariant
            row <= count_y,
            ref_start + count_x * count_y <= usize::MAX,
            out@.len() == row * count_x,
            forall|i: int|
                0 <= i < out@.len() ==> (#[trigger] out@[i])@ == slot(
                    prefix@,
                    ref_start as int,
                    count_x as int,
                    i,
                ),
        decreases count_y - row,
    {
        proof {
            assert(row * count_x + count_x == (row + 1) * count_x) by (nonlinear_arith);
            assert((row + 1) * count_x <= count_y * count_x) by (nonlinear_arith)
                requires
                    row < count_y,
            ;
            assert(count_y * count_x == count_x * count_y) by (nonlinear_arith);
        }
        let mut col: usize = 0;
        while col < count_x
            invariant
                row < count_y,
                col <= count_x,
                row * count_x + count_x <= count_x * count_y,
                ref_start + count_x * count_y <= usize::MAX,
                out@.len() == row * count_x + col,
                forall|i: int|
                    0 <= i < out@.len() ==> (#[trigger] out@[i])@ == slot(
                        prefix@,
                        ref_start as int,
                        count_x as int,
                        i,
                    ),
            decreases count_x - col,
        {
            let i: usize = out.len();
            let number: String = nat_text((ref_start + i) as u64);
            proof {
                lemma_fundamental_div_mod_converse(
                    i as int,
                    count_x as int,
                    row as int,
                    col as int,
                );
            }
            out.push(Slot { reference: prefix.to_owned().concat(number.as_str()), row, col });
            col = col + 1;
        }
        row = row + 1;
    }
    proof {
        assert(count_y * count_x == count_x * count_y) by (nonlinear_arith);
    }
    out
}

/// Every place of an array is taken once: two of them differ in their row or
/// their column, and in their reference.
pub proof fn law_array_slots_differ(
    prefix: Seq<char>,
    ref_start: int,
    count_x: int,
    i: int,
    j: int,
)
    requires
        0 <= ref_start,
        0 < count_x,
        0 <= i,
        0 <= j,
        i != j,
    ensures
        ({
            let a = slot(prefix, ref_start, count_x, i);
            let b = slot(prefix, ref_start, count_x, j);
            (a.row, a.col) != (b.row, b.col) && a.reference != b.reference
        }),
{
    let a = slot(prefix, ref_start, count_x, i);
    let b = slot(prefix, ref_start, count_x, j);
    vstd::arithmetic::div_mod::lemma_fundamental_div_mod(i, count_x);
    vstd::arithmetic::div_mod::lemma_fundamental_div_mod(j, count_x);
    let m = nat_chars(ref_start + i);
    let n = nat_chars(ref_start + j);
    crate::numbers::lemma_nat_chars(ref_start + i);
    crate::numbers::lemma_nat_chars(ref_start + j);
    if a.reference == b.reference {
        assert(m =~= a.reference.subrange(prefix.len() as int, a.reference.len() as int));
        assert(n =~= b.reference.subrange(prefix.len() as int, b.reference.len() as int));
    }
}

/// The places as plain text.
pub open spec fn placement_texts(v: Seq<Placement>) -> Seq<PlacementText> {
    v.map_values(|p: Placement| p@)
}

/// The blocks of the first `k` placements, one behind the other, or the first
/// error.
pub open spec fn blocks(m: Seq<u8>, footprint: Seq<char>, items: Seq<PlacementText>, k: int) -> Result<
    Seq<u8>,
    BoardError,
>
    decreases k,
{
    if k <= 0 {
        Ok(seq![])
    } else {
        match blocks(m, footprint, items, k - 1) {
            Err(e) => Err(e),
            Ok(b) => match placed_block(m, footprint, items[k - 1], None) {
                Err(e) => Err(e),
                Ok(t) => Ok(b + t),
            },
        }
    }
}

/// The outcome of placing an array of footprints.
pub open spec fn array_placed(
    h: Seq<u8>,
    m: Option<Seq<u8>>,
    footprint: Seq<char>,
    items: Seq<PlacementText>,
) -> Result<Seq<u8>, Failure> {
    match m {
        None => Err(reported(library_missing(footprint))),
        Some(f) => match blocks(f, footprint, items, items.len() as int) {
            Err(e) => Err(raised(e)),
            Ok(b) => Ok(grown(h, b)),
        },
    }
}

proof fn lemma_blocks_error(
    m: Seq<u8>,
    footprint: Seq<char>,
    items: Seq<PlacementText>,
    k: int,
    n: int,
)
    requires
        0 <= k <= n,
        blocks(m, footprint, items, k) is Err,
    ensures
        blocks(m, footprint, items, n) == blocks(m, footprint, items, k),
    decreases n - k,
{
    if k < n {
        lemma_blocks_error(m, footprint, items, k, n - 1);
    }
}

/// The blocks of all placements, one behind the other, or the first error.
fn make_blocks(file: &str, footprint: &str, items: &Vec<Placement>) -> (r: Result<
    String,
    BoardError,
>)
    requires
        forall|i: int|
            0 <= i < items@.len() ==> enough_uuids(
                bytes_of(file@),
                footprint@,
                (#[trigger] items@[i])@,
                None,
            ),
    ensures
        outcome(r) == blocks(
            bytes_of(file@),
            footprint@,
            placement_texts(items@),
            items@.len() as int,
        ),
{
    let ghost m = bytes_of(file@);
    let ghost texts = placement_texts(items@);
    let mut all: String = String::new();
    let mut k: usize = 0;
    assert(bytes_of(all@) =~= Seq::<u8>::empty());
    while k < items.len()
        invariant
            k <= items@.len(),
            m == bytes_of(file@),
            texts == placement_texts(items@),
            forall|i: int|
                0 <= i < items@.len() ==> enough_uuids(m, footprint@, (#[trigger] items@[i])@, None),
            blocks(m, footprint@, texts, k as int) == Ok::<Seq<u8>, BoardError>(bytes_of(all@)),
        decreases items@.len() - k,
    {
        assert(texts[k as int] == items@[k as int]@);
        let ghost before = all@;
        match make_block(file, footprint, &items[k], None) {
            Ok(block) => {
                all.append(block.as_str());
                proof {
                    lemma_bytes_concat(before, block@);
                }
            },
            Err(e) => {
                proof {
                    lemma_blocks_error(m, footprint@, texts, k + 1, texts.len() as int);
                }
                return Err(e);
            },
        }
        k = k + 1;
    }
    Ok(all)
}

/// Insert an array of library footprints into the board file, all or none.
pub fn place_array(
    content: String,
    mod_content: Option<&str>,
    footprint: &str,
    items: &Vec<Placement>,
) -> (r: Result<String, ToolFailure>)
    requires
        mod_content matches Some(m) ==> forall|i: int|
            0 <= i < items@.len() ==> enough_uuids(
                bytes_of(m@),
                footprint@,
                (#[trigger] items@[i])@,
                None,
            ),
    ensures
        change(r) == array_placed(
            bytes_of(content@),
            match mod_content {
                Some(m) => Some(bytes_of(m@)),
                None => None,
            },
            footprint@,
            placement_texts(items@),
        ),
{
    match mod_content {
        None => Err(report_library(footprint)),
        Some(m) => match make_blocks(m, footprint, items) {
            Ok(all) => Ok(append_to_board(content, all)),
            Err(e) => Err(raise(e)),
        },
    }
}

// Aligning
/// The place of an aligned footprint: one coordinate becomes `value`, the other
/// one and the angle stay.
pub open spec fn aligned_at(axis: Seq<char>, value: Seq<char>, current: AtText) -> AtText {
    if axis == "y"@ {
        AtText { x: current.x, y: value, rot: current.rot }
    } else {
        AtText { x: value, y: current.y, rot: current.rot }
    }
}

/// The place of an aligned footprint: `value` is its y for the axis "y", else
/// its x.
pub fn align_at(axis: &str, value: &str, current: &At) -> (r: At)
    ensures
        r@ == aligned_at(axis@, value@, current@),
{
    let rot: Option<String> = match &current.rot {
        Some(s) => Some(s.as_str().to_owned()),
        None => None,
    };
    if same(axis, "y") {
        At { x: current.x.as_str().to_owned(), y: value.to_owned(), rot }
    } else {
        At { x: value.to_owned(), y: current.y.as_str().to_owned(), rot }
    }
}

/// What is said of a footprint without a place.
pub open spec fn anchor_missing(reference: Seq<char>) -> Seq<char> {
    "Footprint '"@ + reference + "' has no (at) anchor"@
}

/// Where the places of the first `k` footprints stand, or the first answer that
/// says why one has none.
pub open spec fn anchors(h: Seq<u8>, refs: Seq<Seq<char>>, k: int) -> Result<Seq<(int, int)>, Answer>
    decreases k,
{
    if k <= 0 {
        Ok(seq![])
    } else {
        match anchors(h, refs, k - 1) {
            Err(a) => Err(a),
            Ok(v) => match footprint_span(h, refs[k - 1]) {
                None => Err(error_answer(footprint_missing(refs[k - 1]))),
                Some(span) => match block_anchor(h, span) {
                    None => Err(error_answer(anchor_missing(refs[k - 1]))),
                    Some(a) => Ok(v.push(a)),
                },
            },
        }
    }
}

proof fn lemma_anchors_error(h: Seq<u8>, refs: Seq<Seq<char>>, k: int, n: int)
    requires
        0 <= k <= n,
        anchors(h, refs, k) is Err,
    ensures
        anchors(h, refs, n) == anchors(h, refs, k),
    decreases n - k,
{
    if k < n {
        lemma_anchors_error(h, refs, k, n - 1);
    }
}

fn find_anchors(content: &str, refs: &Vec<String>) -> (r: Result<Vec<(usize, usize)>, CallToolResult>)
    ensures
        match r {
            Ok(v) => {
                &&& anchors(bytes_of(content@), strings_of(refs@), refs@.len() as int) == Ok::<
                    Seq<(int, int)>,
                    Answer,
                >(spans_of(v@))
                &&& v@.len() == refs@.len()
                &&& forall|i: int|
                    0 <= i < v@.len() ==> piece(
                        bytes_of(content@),
                        (#[trigger] v@[i]).0 as int,
                        v@[i].1 as int,
                    )
            },
            Err(a) => anchors(bytes_of(content@), strings_of(refs@), refs@.len() as int) == Err::<
                Seq<(int, int)>,
                Answer,
            >(a@),
        },
{
    let ghost h = bytes_of(content@);
    let ghost names = strings_of(refs@);
    let mut v: Vec<(usize, usize)> = Vec::new();
    let mut k: usize = 0;
    assert(spans_of(v@) =~= Seq::<(int, int)>::empty());
    while k < refs.len()
        invariant
            h == bytes_of(content@),
            names == strings_of(refs@),
            k <= refs@.len(),
            v@.len() == k,
            anchors(h, names, k as int) == Ok::<Seq<(int, int)>, Answer>(spans_of(v@)),
            forall|i: int|
                0 <= i < v@.len() ==> piece(h, (#[trigger] v@[i]).0 as int, v@[i].1 as int),
        decreases refs@.len() - k,
    {
        let ghost before = v@;
        assert(names[k as int] == refs@[k as int]@);
        let reference: &str = refs[k].as_str();
        let span: (usize, usize) = match find_footprint_block(content, reference) {
            Some(s) => s,
            None => {
                proof {
                    lemma_anchors_error(h, names, k + 1, names.len() as int);
                }
                return Err(report_missing(reference));
            },
        };
        match footprint_anchor(content, span) {
            Ok(a) => {
                v.push(a);
                assert(spans_of(v@) =~= spans_of(before).push(span_of(a)));
            },
            Err(_) => {
                proof {
                    lemma_anchors_error(h, names, k + 1, names.len() as int);
                }
                return Err(
                    CallToolResult::error(
                        "Footprint '".to_owned().concat(reference).concat(
                            "' has no (at) anchor",
                        ),
                    ),
                );
            },
        }
        k = k + 1;
    }
    Ok(v)
}

/// The numbers of the places of several footprints, one list for each.
pub fn component_places(content: &str, refs: &Vec<String>) -> (r: Result<
    Vec<Vec<String>>,
    CallToolResult,
>)
    ensures
        match anchors(bytes_of(content@), strings_of(refs@), refs@.len() as int) {
            Ok(v) => r matches Ok(w) && word_lists(w@) == numbers_at(bytes_of(content@), v),
            Err(a) => r matches Err(b) && b@ == a,
        },
{
    let ghost h = bytes_of(content@);
    let spans: Vec<(usize, usize)> = match find_anchors(content, refs) {
        Ok(v) => v,
        Err(a) => {
            return Err(a);
        },
    };
    let ghost places = spans_of(spans@);
    let mut out: Vec<Vec<String>> = Vec::new();
    let mut k: usize = 0;
    while k < spans.len()
        invariant
            h == bytes_of(content@),
            k <= spans@.len(),
            places == spans_of(spans@),
            forall|i: int|
                0 <= i < spans@.len() ==> piece(
                    h,
                    (#[trigger] spans@[i]).0 as int,
                    spans@[i].1 as int,
                ),
            out@.len() == k,
            forall|i: int|
                0 <= i < k ==> strings_of((#[trigger] out@[i])@) == at_numbers(
                    text_of(h.subrange(places[i].0, places[i].1)),
                ),
        decreases spans@.len() - k,
    {
        assert(places[k as int] == span_of(spans@[k as int]));
        out.push(at_words(slice(content, spans[k].0, spans[k].1)));
        k = k + 1;
    }
    assert(word_lists(out@) =~= numbers_at(h, places));
    Ok(out)
}

/// The outcome of aligning footprints.
pub open spec fn aligned(h: Seq<u8>, refs: Seq<Seq<char>>, ats: Seq<AtText>) -> Result<
    Seq<u8>,
    Answer,
> {
    match anchors(h, refs, refs.len() as int) {
        Err(a) => Err(a),
        Ok(v) => Ok(edited(h, rewrites(v, ats))),
    }
}

/// Move several footprints of the board file at once, all or none, each to its
/// place in `ats`.
pub fn align_components(content: String, refs: &Vec<String>, ats: &Vec<At>) -> (r: Result<
    String,
    CallToolResult,
>)
    requires
        ats@.len() == refs@.len(),
    ensures
        crate::routing::board_outcome(r) == aligned(
            bytes_of(content@),
            strings_of(refs@),
            places_of(ats@),
        ),
{
    let ghost h = bytes_of(content@);
    let spans: Vec<(usize, usize)> = match find_anchors(content.as_str(), refs) {
        Ok(v) => v,
        Err(a) => {
            return Err(a);
        },
    };
    let ghost places = spans_of(spans@);
    let ghost texts = places_of(ats@);
    let mut edits: Vec<SexpEdit> = Vec::new();
    let mut k: usize = 0;
    while k < spans.len()
        invariant
            h == bytes_of(content@),
            places == spans_of(spans@),
            texts == places_of(ats@),
            spans@.len() == ats@.len(),
            k <= spans@.len(),
            edits@.len() == k,
            forall|i: int|
                0 <= i < spans@.len() ==> piece(
                    h,
                    (#[trigger] spans@[i]).0 as int,
                    spans@[i].1 as int,
                ),
            forall|i: int|
                0 <= i < k ==> (#[trigger] edits@[i])@ == (Edit {
                    start: places[i].0,
                    end: places[i].1,
                    text: at_text(texts[i]),
                }),
            forall|i: int| 0 <= i < k ==> fits(h, (#[trigger] edits@[i])@),
        decreases spans@.len() - k,
    {
        assert(places[k as int] == span_of(spans@[k as int]));
        assert(texts[k as int] == ats@[k as int]@);
        edits.push(
            SexpEdit::replace(spans[k].0, spans[k].1, crate::board::format_at(&ats[k])),
        );
        k = k + 1;
    }
    assert(edits_of(edits@) =~= rewrites(places, texts));
    Ok(apply_edits(content, edits))
}

/// The value that was set on a footprint is the one its block has, and the
/// board before and behind that value is as it was.
pub proof fn law_edited_value_reads_back(h: Seq<u8>, reference: Seq<char>, value: Seq<char>)
    requires
        valid_utf8(h),
        valued(h, reference, value) is Ok,
    ensures
        ({
            let r = valued(h, reference, value)->Ok_0;
            let span = footprint_span(h, reference).unwrap();
            let v = property_span(h.subrange(span.0, span.1), "Value"@).unwrap();
            let grows = bytes_of(escaped(value)).len() - (v.1 - v.0);
            &&& property_value(r.subrange(span.0, span.1 + grows), "Value"@) == Some(value)
            &&& r.subrange(0, span.0 + v.0) == h.subrange(0, span.0 + v.0)
            &&& r.subrange(span.0 + v.1 + grows, r.len() as int) == h.subrange(
                span.0 + v.1,
                h.len() as int,
            )
        }),
{
    let r = valued(h, reference, value)->Ok_0;
    lemma_footprint_from(h, reference, 0);
    let span = footprint_span(h, reference).unwrap();
    let t = h.subrange(span.0, span.1);
    lemma_cut_valid(h, span.0, span.1);
    let v = property_span(t, "Value"@).unwrap();
    lemma_property_span(t, "Value"@);
    let x = bytes_of(escaped(value));
    let grows = x.len() - (v.1 - v.0);
    law_property_reads_back(t, "Value"@, value);
    assert(r.subrange(span.0, span.1 + grows) =~= replaced(t, v.0, v.1, escaped(value)));
    assert(r.subrange(0, span.0 + v.0) =~= h.subrange(0, span.0 + v.0));
    assert(r.subrange(span.0 + v.1 + grows, r.len() as int) =~= h.subrange(
        span.0 + v.1,
        h.len() as int,
    ));
}

// Copying
/// A footprint block under a new reference.
pub open spec fn renamed_copy(h: Seq<u8>, reference: Seq<char>, new_reference: Seq<char>) -> Result<
    Seq<u8>,
    Failure,
> {
    match footprint_span(h, reference) {
        None => Err(missing(reference)),
        Some(span) => {
            let t = h.subrange(span.0, span.1);
            match property_span(t, "Reference"@) {
                None => Err(raised(BoardError::NoReference)),
                Some(v) => Ok(replaced(t, v.0, v.1, escaped(new_reference))),
            }
        },
    }
}

/// A copy has the reference it was given.
pub proof fn law_copy_has_its_reference(
    h: Seq<u8>,
    reference: Seq<char>,
    new_reference: Seq<char>,
)
    requires
        valid_utf8(h),
        renamed_copy(h, reference, new_reference) is Ok,
    ensures
        property_value(renamed_copy(h, reference, new_reference)->Ok_0, "Reference"@) == Some(
            new_reference,
        ),
{
    lemma_footprint_from(h, reference, 0);
    let span = footprint_span(h, reference).unwrap();
    lemma_cut_valid(h, span.0, span.1);
    law_property_reads_back(h.subrange(span.0, span.1), "Reference"@, new_reference);
}

/// A copy of a footprint block of the board file under a new reference.
pub fn copy_footprint(content: &str, reference: &str, new_reference: &str) -> (r: Result<
    String,
    ToolFailure,
>)
    ensures
        change(r) == renamed_copy(bytes_of(content@), reference@, new_reference@),
{
    match find_footprint_block(content, reference) {
        None => Err(miss(reference)),
        Some((s, e)) => match set_reference_in_block(slice(content, s, e), new_reference) {
            Ok(b) => Ok(b),
            Err(e) => Err(raise(e)),
        },
    }
}

/// The outcome of adding a copy at a place.
pub open spec fn copy_added(h: Seq<u8>, t: Seq<u8>, at: AtText) -> Result<Seq<u8>, Failure> {
    match block_anchor(t, (0, t.len() as int)) {
        None => Err(raised(BoardError::NoAnchor)),
        Some(a) => Ok(grown(h, bytes_of("\n  "@) + replaced(t, a.0, a.1, at_text(at)))),
    }
}

/// Add a copy of a footprint block to the board file, at the place `at`.
pub fn add_copy(content: String, block: String, at: &At) -> (r: Result<String, ToolFailure>)
    ensures
        change(r) == copy_added(bytes_of(content@), bytes_of(block@), at@),
{
    let n: usize = byte_len(block.as_str());
    proof {
        lemma_bytes_valid(block@);
        lemma_cut_ends(bytes_of(block@));
    }
    match footprint_move_edit(block.as_str(), (0, n), at) {
        Ok(edit) => {
            let b: String = apply_one(block, edit);
            let text: String = "\n  ".to_owned().concat(b.as_str());
            proof {
                lemma_bytes_concat("\n  "@, b@);
            }
            Ok(append_to_board(content, text))
        },
        Err(e) => Err(raise(e)),
    }
}

/// The outcome of duplicating a footprint.
pub open spec fn duplicated(
    h: Seq<u8>,
    reference: Seq<char>,
    new_reference: Seq<char>,
    at: AtText,
    fresh: Seq<Seq<char>>,
) -> Result<Seq<u8>, Failure> {
    match renamed_copy(h, reference, new_reference) {
        Err(f) => Err(f),
        Ok(t) => copy_added(h, with_uuids(t, fresh, 0), at),
    }
}

/// Duplicate a footprint of the board file: copy the block, refresh its
/// identity, move its anchor.
pub fn duplicate_component(
    content: String,
    reference: &str,
    new_reference: &str,
    at: &At,
    fresh: &Vec<String>,
) -> (r: Result<String, ToolFailure>)
    requires
        renamed_copy(bytes_of(content@), reference@, new_reference@) matches Ok(t) ==> uuids(
            t,
        ).len() <= fresh@.len(),
    ensures
        change(r) == duplicated(
            bytes_of(content@),
            reference@,
            new_reference@,
            at@,
            strings_of(fresh@),
        ),
{
    match copy_footprint(content.as_str(), reference, new_reference) {
        Ok(block) => {
            let renewed: String = regenerate_uuids(block.as_str(), fresh);
            add_copy(content, renewed, at)
        },
        Err(f) => Err(f),
    }
}

} // verus!
