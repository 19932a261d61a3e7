//! Library footprints made ready for a board.
use crate::board::{head_in, lemma_child_head, piece, places_of, replaced, At, AtText, BoardError};
use crate::edits::{apply_edits, edited, edits_of, fits, Edit, SexpEdit};
use crate::footprint::{footprint_rotation_edits, lemma_footprint_start, rewrites, rotation_places};
use crate::property::{
    escape_sexp_string, escaped, find_value_end, lemma_value_end, property_span, property_value,
    regenerate_uuids, set_reference_in_block, uuids, value_end, with_uuids,
};
use crate::scan::{
    balanced_block, child_spans, direct_child_spans, find_balanced_block, lemma_balanced_cut,
    spans_of, QUOTE,
};
use crate::text::{
    byte_len, bytes_of, cut, find_at, find_from, lemma_ascii_byte, lemma_bytes_concat,
    lemma_bytes_valid, lemma_cut_ascii, lemma_cut_ends, lemma_find, same, slice, span_of,
};
use crate::tracks::{leading_whitespace, line_start};
use crate::words::{node_head, strings_of};
use vstd::prelude::*;
use vstd::string::*;
use vstd::utf8::*;

verus! {

/// The bytes of the text that came out, or the error.
pub open spec fn outcome(r: Result<String, BoardError>) -> Result<Seq<u8>, BoardError> {
    match r {
        Ok(s) => Ok(bytes_of(s@)),
        Err(e) => Err(e),
    }
}

/// The footprint block of a `.kicad_mod` file.
pub open spec fn footprint_body(h: Seq<u8>) -> Result<Seq<u8>, BoardError> {
    match find_at(h, bytes_of("(footprint"@), 0) {
        None => Err(BoardError::NoFootprintBlock),
        Some(s) => match balanced_block(h, s) {
            None => Err(BoardError::Unbalanced),
            Some(b) => Ok(h.subrange(b.0, b.1)),
        },
    }
}

/// Where the first quoted string of a block stands, without its quotes.
pub open spec fn name_span(t: Seq<u8>) -> Result<(int, int), BoardError> {
    match find_at(t, bytes_of("\""@), 0) {
        None => Err(BoardError::NoName),
        Some(i) => match value_end(t, i + 1) {
            None => Err(BoardError::UnterminatedName),
            Some(e) => Ok((i + 1, e)),
        },
    }
}

/// A header that only a library file has.
pub open spec fn library_only(head: Seq<char>) -> bool {
    head == "version"@ || head == "generator"@ || head == "generator_version"@
}

/// The deletions of the library headers among the first `k` children of `t`,
/// each with the indentation before it.
pub open spec fn header_edits(t: Seq<u8>, k: int) -> Seq<Edit>
    decreases k,
{
    if k <= 0 {
        seq![]
    } else {
        let c = child_spans(t)[k - 1];
        if library_only(head_in(t, c)) {
            header_edits(t, k - 1).push(
                Edit { start: line_start(t, c.0), end: c.1, text: Seq::empty() },
            )
        } else {
            header_edits(t, k - 1)
        }
    }
}

/// What makes a library block an instance on the board: the library headers
/// go, a place and a UUID come in at `after`, right behind the name.
pub open spec fn instance_edits(
    t: Seq<u8>,
    after: int,
    x: Seq<char>,
    y: Seq<char>,
    uuid: Seq<char>,
) -> Seq<Edit> {
    header_edits(t, child_spans(t).len() as int).push(
        Edit { start: after, end: after, text: "\n    (at "@ + x + " "@ + y + ")"@ },
    ).push(Edit { start: after, end: after, text: "\n    (uuid \""@ + uuid + "\")"@ })
}

/// The footprint block of a `.kicad_mod` file under the name `lib_id`, without
/// the library headers, placed at `x`, `y` with no angle.
pub open spec fn instance(
    h: Seq<u8>,
    lib_id: Seq<char>,
    x: Seq<char>,
    y: Seq<char>,
    uuid: Seq<char>,
) -> Result<Seq<u8>, BoardError> {
    match footprint_body(h) {
        Err(e) => Err(e),
        Ok(t) => match name_span(t) {
            Err(e) => Err(e),
            Ok(n) => {
                let r = replaced(t, n.0, n.1, escaped(lib_id));
                let end = n.0 + bytes_of(escaped(lib_id)).len();
                Ok(edited(r, instance_edits(r, end + 1, x, y, uuid)))
            },
        },
    }
}

/// The block with its Reference set.
pub open spec fn referenced(t: Seq<u8>, reference: Seq<char>) -> Result<Seq<u8>, BoardError> {
    match property_span(t, "Reference"@) {
        Some(v) => Ok(replaced(t, v.0, v.1, escaped(reference))),
        None => Err(BoardError::NoReference),
    }
}

/// The footprint block of a `.kicad_mod` file as an instance without an angle.
pub open spec fn prepared(
    h: Seq<u8>,
    lib_id: Seq<char>,
    reference: Seq<char>,
    x: Seq<char>,
    y: Seq<char>,
    uuid: Seq<char>,
) -> Result<Seq<u8>, BoardError> {
    match instance(h, lib_id, x, y, uuid) {
        Err(e) => Err(e),
        Ok(t) => referenced(t, reference),
    }
}

/// A detached block with the places that a rotation touches rewritten.
pub open spec fn turned(t: Seq<u8>, ats: Option<Seq<AtText>>) -> Result<Seq<u8>, BoardError> {
    match ats {
        None => Ok(t),
        Some(a) => match rotation_places(t, (0, t.len() as int)) {
            None => Err(BoardError::NoAnchor),
            Some(places) => Ok(edited(t, rewrites(places, a))),
        },
    }
}

/// The library footprint, ready for a board.
pub open spec fn board_ready(
    h: Seq<u8>,
    lib_id: Seq<char>,
    reference: Seq<char>,
    x: Seq<char>,
    y: Seq<char>,
    uuid: Seq<char>,
    ats: Option<Seq<AtText>>,
) -> Result<Seq<u8>, BoardError> {
    match prepared(h, lib_id, reference, x, y, uuid) {
        Err(e) => Err(e),
        Ok(t) => turned(t, ats),
    }
}

/// The footprint block of a `.kicad_mod` file.
fn take_footprint(mod_content: &str) -> (r: Result<&str, BoardError>)
    ensures
        match r {
            Ok(t) => footprint_body(bytes_of(mod_content@)) == Ok::<Seq<u8>, BoardError>(
                bytes_of(t@),
            ),
            Err(e) => footprint_body(bytes_of(mod_content@)) == Err::<Seq<u8>, BoardError>(e),
        },
{
    let ghost h = bytes_of(mod_content@);
    proof {
        lemma_bytes_valid(mod_content@);
    }
    let start: usize = match find_from(mod_content, "(footprint", 0) {
        Some(s) => s,
        None => {
            return Err(BoardError::NoFootprintBlock);
        },
    };
    proof {
        lemma_footprint_start(h, 0);
    }
    match find_balanced_block(mod_content, start) {
        Some((s, e)) => {
            proof {
                lemma_balanced_cut(h, start as int);
            }
            Ok(slice(mod_content, s, e))
        },
        None => Err(BoardError::Unbalanced),
    }
}

proof fn lemma_name_span(t: Seq<u8>)
    requires
        valid_utf8(t),
        name_span(t) is Ok,
    ensures
        ({
            let n = name_span(t)->Ok_0;
            &&& piece(t, n.0, n.1)
            &&& n.1 < t.len()
            &&& t[n.1] == QUOTE
        }),
{
    let q = bytes_of("\""@);
    reveal_strlit("\"");
    assert("\""@ =~= seq!['"']);
    lemma_ascii_byte('"');
    lemma_find(t, q, 0);
    let i = find_at(t, q, 0).unwrap();
    assert(t.subrange(i, i + 1)[0] == q[0]);
    lemma_cut_ascii(t, i);
    lemma_value_end(t, i + 1);
    lemma_cut_ascii(t, value_end(t, i + 1).unwrap());
}

/// Where the first quoted string of a block stands, without its quotes.
fn find_name(block: &str) -> (r: Result<(usize, usize), BoardError>)
    ensures
        match r {
            Ok(n) => {
                &&& name_span(bytes_of(block@)) == Ok::<(int, int), BoardError>(span_of(n))
                &&& piece(bytes_of(block@), n.0 as int, n.1 as int)
                &&& n.1 < bytes_of(block@).len()
                &&& bytes_of(block@)[n.1 as int] == QUOTE
            },
            Err(e) => name_span(bytes_of(block@)) == Err::<(int, int), BoardError>(e),
        },
{
    let ghost t = bytes_of(block@);
    let n: usize = byte_len(block);
    proof {
        lemma_bytes_valid(block@);
        reveal_strlit("\"");
        assert("\""@ =~= seq!['"']);
        lemma_ascii_byte('"');
        lemma_find(t, bytes_of("\""@), 0);
        if name_span(t) is Ok {
            lemma_name_span(t);
        }
    }
    let i: usize = match find_from(block, "\"", 0) {
        Some(i) => i,
        None => {
            return Err(BoardError::NoName);
        },
    };
    match find_value_end(block, i + 1) {
        Some(e) => Ok((i + 1, e)),
        None => Err(BoardError::UnterminatedName),
    }
}

/// The edits that make a library block an instance on the board.
fn make_instance_edits(block: &str, after: usize, x: &str, y: &str, uuid: &str) -> (r: Vec<SexpEdit>)
    requires
        cut(bytes_of(block@), after as int),
    ensures
        edits_of(r@) == instance_edits(bytes_of(block@), after as int, x@, y@, uuid@),
        forall|k: int| 0 <= k < r@.len() ==> fits(bytes_of(block@), (#[trigger] r@[k])@),
{
    let ghost t = bytes_of(block@);
    proof {
        lemma_bytes_valid(block@);
    }
    let spans: Vec<(usize, usize)> = direct_child_spans(block);
    let mut v: Vec<SexpEdit> = Vec::new();
    let mut k: usize = 0;
    assert(edits_of(v@) =~= header_edits(t, 0));
    while k < spans.len()
        invariant
            t == bytes_of(block@),
            valid_utf8(t),
            spans_of(spans@) == child_spans(t),
            k <= spans@.len(),
            edits_of(v@) == header_edits(t, k as int),
            forall|i: int| 0 <= i < v@.len() ==> fits(t, (#[trigger] v@[i])@),
        decreases spans@.len() - k,
    {
        let (c_s, c_e): (usize, usize) = spans[k];
        let ghost before = v@;
        proof {
            assert(spans_of(spans@)[k as int] == span_of(spans@[k as int]));
            lemma_child_head(t, k as int);
        }
        let head: &str = node_head(slice(block, c_s, c_e));
        if same(head, "version") || same(head, "generator") || same(head, "generator_version") {
            let ws: usize = leading_whitespace(block, c_s);
            v.push(SexpEdit::delete(ws, c_e));
            assert(edits_of(v@) =~= edits_of(before).push(v@[before.len() as int]@));
        }
        k = k + 1;
    }
    let ghost before = v@;
    v.push(
        SexpEdit::insert(
            after,
            "\n    (at ".to_owned().concat(x).concat(" ").concat(y).concat(")"),
        ),
    );
    let ghost between = v@;
    assert(edits_of(between) =~= edits_of(before).push(between[before.len() as int]@));
    v.push(SexpEdit::insert(after, "\n    (uuid \"".to_owned().concat(uuid).concat("\")")));
    assert(edits_of(v@) =~= edits_of(between).push(v@[between.len() as int]@));
    v
}

/// The footprint block of a `.kicad_mod` file, renamed to the full
/// `Library:Footprint` id, placed at `x`, `y` without an angle, its reference
/// set, library-file-only header tokens stripped, and a footprint-level UUID
/// added.
pub fn prepare_footprint(
    mod_content: &str,
    lib_id: &str,
    reference: &str,
    x: &str,
    y: &str,
    uuid: &str,
) -> (r: Result<String, BoardError>)
    ensures
        outcome(r) == prepared(bytes_of(mod_content@), lib_id@, reference@, x@, y@, uuid@),
        r matches Ok(s) ==> property_value(bytes_of(s@), "Reference"@) == Some(reference@),
{
    let block: &str = match take_footprint(mod_content) {
        Ok(b) => b,
        Err(e) => {
            return Err(e);
        },
    };
    let ghost t = bytes_of(block@);
    let (name_start, name_end): (usize, usize) = match find_name(block) {
        Ok(n) => n,
        Err(e) => {
            return Err(e);
        },
    };
    proof {
        lemma_bytes_valid(block@);
        lemma_cut_ends(t);
    }
    let escaped_id: String = escape_sexp_string(lib_id);
    let left: &str = slice(block, 0, name_start);
    let right: &str = slice(block, name_end, byte_len(block));
    let out: String = left.to_owned().concat(escaped_id.as_str()).concat(right);
    let ghost o = bytes_of(out@);
    proof {
        lemma_bytes_concat(left@, escaped_id@);
        lemma_bytes_concat(left@ + escaped_id@, right@);
        assert(o == replaced(t, name_start as int, name_end as int, escaped(lib_id@)));
        assert(o[name_start + bytes_of(escaped_id@).len()] == QUOTE);
        lemma_bytes_valid(out@);
        lemma_cut_ascii(o, name_start + bytes_of(escaped_id@).len());
    }
    let total: usize = byte_len(out.as_str());
    let after: usize = name_start + byte_len(escaped_id.as_str()) + 1;
    let edits: Vec<SexpEdit> = make_instance_edits(out.as_str(), after, x, y, uuid);
    let placed: String = apply_edits(out, edits);
    set_reference_in_block(placed.as_str(), reference)
}

/// A detached footprint block with the places that a rotation touches
/// rewritten to `ats`, or as it is.
pub fn turn_footprint(block: String, ats: Option<&Vec<At>>) -> (r: Result<String, BoardError>)
    ensures
        outcome(r) == turned(
            bytes_of(block@),
            match ats {
                Some(a) => Some(places_of(a@)),
                None => None,
            },
        ),
{
    match ats {
        None => Ok(block),
        Some(a) => {
            let n: usize = byte_len(block.as_str());
            proof {
                lemma_bytes_valid(block@);
                lemma_cut_ends(bytes_of(block@));
            }
            match footprint_rotation_edits(block.as_str(), (0, n), a) {
                Ok(edits) => Ok(apply_edits(block, edits)),
                Err(e) => Err(e),
            }
        },
    }
}

/// Turn a library `.kicad_mod` file's content into a board-ready
/// `(footprint ...)` block: see `prepare_footprint`. An angle is applied with
/// board-file semantics: `ats` gives the anchor and the place of each child
/// that turns with it, as they are to be written.
pub fn footprint_sexp_for_board(
    mod_content: &str,
    lib_id: &str,
    reference: &str,
    x: &str,
    y: &str,
    uuid: &str,
    ats: Option<&Vec<At>>,
    fresh: &Vec<String>,
) -> (r: Result<String, BoardError>)
    requires
        board_ready(
            bytes_of(mod_content@),
            lib_id@,
            reference@,
            x@,
            y@,
            uuid@,
            match ats {
                Some(a) => Some(places_of(a@)),
                None => None,
            },
        ) matches Ok(t) ==> uuids(t).len() <= fresh@.len(),
    ensures
        outcome(r) == (match board_ready(
            bytes_of(mod_content@),
            lib_id@,
            reference@,
            x@,
            y@,
            uuid@,
            match ats {
                Some(a) => Some(places_of(a@)),
                None => None,
            },
        ) {
            Ok(t) => Ok(bytes_of("\n  "@) + with_uuids(t, strings_of(fresh@), 0)),
            Err(e) => Err(e),
        }),
{
    let block: String = match prepare_footprint(mod_content, lib_id, reference, x, y, uuid) {
        Ok(b) => b,
        Err(e) => {
            return Err(e);
        },
    };
    match turn_footprint(block, ats) {
        Ok(t) => {
            let renewed: String = regenerate_uuids(t.as_str(), fresh);
            let r: String = "\n  ".to_owned().concat(renewed.as_str());
            proof {
                lemma_bytes_concat("\n  "@, renewed@);
            }
            Ok(r)
        },
        Err(e) => Err(e),
    }
}

} // verus!
