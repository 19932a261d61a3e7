//! What answers say, and how values are seen.
use crate::answer::{
    error_answer, image_answer, text_answer, Answer, CallToolResult, Failure, Part, Source,
    ToolContent, ToolFailure,
};
use crate::autoplace::{Candidate, Choices, Obstacles};
use crate::board::{At, BoardError};
use crate::components::{Placement, Slot};
use crate::edits::SexpEdit;
use crate::fields::FieldRequest;
use crate::instances::{ComponentInfo, Spot};
use crate::reading::{FootprintSummary, Pad, Trace};
use crate::routing::Point;
use crate::schematic::{Property, Schematic, Symbol};
use crate::symlib::{SymbolDir, SymbolFile};
use crate::tree::{lemma_forest, SexpNode, Tree};
use crate::views::{base64_text, board_view, schematic_view, sextet, usual_layers};
use crate::words::nat_chars;
use vstd::prelude::*;
use vstd::string::*;

verus! {

// Answers
/// An error says what went wrong and is marked as one; a text and an image are
/// not.
pub proof fn law_answers_are_marked(m: Seq<char>, mime: Seq<char>)
    ensures
        error_answer(m).is_error,
        error_answer(m).parts == seq![Part::Text(m)],
        !text_answer(m).is_error,
        text_answer(m).parts == seq![Part::Text(m)],
        !image_answer(m, mime).is_error,
        image_answer(m, mime).parts == seq![Part::Image(m, mime)],
        Source::Ipc.text() == "ipc"@,
        Source::File.text() == "file"@,
{
}

/// A picture of a board comes as an image and with the source it shows.
pub proof fn law_a_picture_tells_its_source(png: Seq<u8>)
    ensures
        board_view(png, Source::Ipc) == (Answer {
            parts: seq![
                Part::Image(base64_text(png), "image/png"@),
                Part::Text("{\"source\":\"ipc\"}"@),
            ],
            is_error: false,
        }),
        board_view(png, Source::File) == (Answer {
            parts: seq![
                Part::Image(base64_text(png), "image/png"@),
                Part::Text("{\"source\":\"file\"}"@),
            ],
            is_error: false,
        }),
        usual_layers() == seq!["F.Cu"@, "B.Cu"@, "F.SilkS"@, "B.SilkS"@, "Edge.Cuts"@],
{
    reveal_strlit("{\"source\":\"");
    reveal_strlit("\"}");
    reveal_strlit("ipc");
    reveal_strlit("file");
    reveal_strlit("{\"source\":\"ipc\"}");
    reveal_strlit("{\"source\":\"file\"}");
    assert("{\"source\":\""@ + "ipc"@ + "\"}"@ =~= "{\"source\":\"ipc\"}"@);
    assert("{\"source\":\""@ + "file"@ + "\"}"@ =~= "{\"source\":\"file\"}"@);
}

/// A rendered schematic is told by its size.
pub proof fn law_a_rendered_schematic_is_told_by_its_size(n: int)
    ensures
        schematic_view(n) == text_answer(
            "SVG schematic rendered. "@ + nat_chars(n)
                + " bytes.\n\nNote: KiCAD 10 CLI exports schematics as SVG only (no bitmap). The SVG file has been generated. Use export_schematic_pdf for a PDF version."@,
        ),
{
}

/// What each failure of a board edit says.
pub proof fn law_failures_say_what_is_missing()
    ensures
        BoardError::NoAnchor.text() == "Footprint has no (at) anchor"@,
        BoardError::NoValue.text() == "Footprint has no Value property"@,
        BoardError::NoReference.text() == "Footprint block has no Reference property"@,
        BoardError::NoFootprintBlock.text() == "No (footprint ...) block in .kicad_mod file"@,
        BoardError::Unbalanced.text() == "Unbalanced .kicad_mod content"@,
        BoardError::NoName.text() == "Footprint block has no name string"@,
        BoardError::UnterminatedName.text() == "Unterminated footprint name"@,
{
}

// Base64
/// The character for six bits: letters, small letters, digits, plus and slash.
pub proof fn law_six_bits_make_a_character(n: int)
    requires
        0 <= n < 64,
    ensures
        n < 26 ==> sextet(n) as u32 == 65 + n,
        26 <= n < 52 ==> sextet(n) as u32 == 97 + n - 26,
        52 <= n < 62 ==> sextet(n) as u32 == 48 + n - 52,
        n == 62 ==> sextet(n) == '+',
        n == 63 ==> sextet(n) == '/',
{
}

/// Three bytes are four groups of six bits of the same number; what is missing of
/// the last three is filled up.
pub proof fn law_three_bytes_make_four_characters(a: u8, b: u8, c: u8, rest: Seq<u8>)
    ensures
        base64_text(Seq::empty()).len() == 0,
        exists|p: int, q: int, r: int, s: int|
            #![trigger sextet(p), sextet(q), sextet(r), sextet(s)]
            0 <= p < 64 && 0 <= q < 64 && 0 <= r < 64 && 0 <= s < 64 && 262144 * p + 4096 * q + 64 * r
                + s == 65536 * a + 256 * b + c && base64_text(seq![a, b, c] + rest) == seq![
                sextet(p),
                sextet(q),
                sextet(r),
                sextet(s),
            ] + base64_text(rest),
        exists|p: int, q: int, r: int|
            #![trigger sextet(p), sextet(q), sextet(r)]
            0 <= p < 64 && 0 <= q < 64 && 0 <= r < 64 && 4096 * p + 64 * q + r == 4 * (256 * a + b)
                && base64_text(seq![a, b]) == seq![sextet(p), sextet(q), sextet(r), '='],
        exists|p: int, q: int|
            #![trigger sextet(p), sextet(q)]
            0 <= p < 64 && 0 <= q < 64 && 64 * p + q == 16 * a && base64_text(seq![a]) == seq![
                sextet(p),
                sextet(q),
                '=',
                '=',
            ],
{
    let x = a as int;
    let y = b as int;
    let z = c as int;
    let t = seq![a, b, c] + rest;
    assert(t.subrange(3, t.len() as int) =~= rest);
    assert(t[0] == a && t[1] == b && t[2] == c);
    let p = x / 4;
    let q = x % 4 * 16 + y / 16;
    let r = y % 16 * 4 + z / 64;
    let s = z % 64;
    assert(base64_text(t) == seq![sextet(p), sextet(q), sextet(r), sextet(s)] + base64_text(rest));
    assert(262144 * p + 4096 * q + 64 * r + s == 65536 * x + 256 * y + z);
    let r2 = y % 16 * 4;
    assert(base64_text(seq![a, b]) == seq![sextet(p), sextet(q), sextet(r2), '=']);
    assert(4096 * p + 64 * q + r2 == 4 * (256 * x + y));
    let q2 = x % 4 * 16;
    assert(base64_text(seq![a]) == seq![sextet(p), sextet(q2), '=', '=']);
    assert(64 * p + q2 == 16 * x);
}

// How values are seen
/// Places, points and edits are seen as they are.
pub proof fn law_places_are_seen_as_they_are(a: At, p: Point, e: SexpEdit)
    ensures
        a@.x == a.x@,
        a@.y == a.y@,
        a.rot matches Some(r) ==> a@.rot == Some(r@),
        a.rot is None ==> a@.rot is None,
        p@.x == p.x@,
        p@.y == p.y@,
        e@.start == e.start,
        e@.end == e.end,
        e@.text == e.text@,
{
}

/// What is read is seen as it is.
pub proof fn law_readings_are_seen_as_they_are(s: FootprintSummary, p: Pad, t: Trace)
    ensures
        s@.reference == s.reference@,
        s@.value == s.value@,
        s@.footprint == s.footprint@,
        s@.layer == s.layer@,
        s.x matches Some(x) ==> s@.x == Some(x@),
        s.y matches Some(y) ==> s@.y == Some(y@),
        s.rotation matches Some(r) ==> s@.rotation == Some(r@),
        s.x is None ==> s@.x is None,
        s.y is None ==> s@.y is None,
        s.rotation is None ==> s@.rotation is None,
        p@.number == p.number@,
        p@.x == p.x@,
        p@.y == p.y@,
        p@.net == p.net@,
        t@.layer == t.layer@,
        t@.x1 == t.x1@,
        t@.y1 == t.y1@,
        t@.x2 == t.x2@,
        t@.y2 == t.y2@,
        t@.uuid == t.uuid@,
        t.net matches Some(n) ==> t@.net == Some(n@),
        t.net is None ==> t@.net is None,
        t.width matches Some(w) ==> t@.width == Some(w@),
        t.width is None ==> t@.width is None,
{
}

/// What is asked for is seen as it is.
pub proof fn law_requests_are_seen_as_they_are(
    f: FieldRequest,
    p: Placement,
    s: Slot,
    spot: Spot,
    k: int,
)
    ensures
        f@.name == f.name@,
        f@.standard == f.standard,
        f.value matches Some(v) ==> f@.value == Some(v@),
        f.value is None ==> f@.value is None,
        p@.reference == p.reference@,
        p@.x == p.x@,
        p@.y == p.y@,
        p@.uuid == p.uuid@,
        p@.fresh.len() == p.fresh@.len(),
        0 <= k < p.fresh@.len() ==> p@.fresh[k] == p.fresh@[k]@,
        s@.reference == s.reference@,
        s@.row == s.row,
        s@.col == s.col,
        spot@.x == spot.x@,
        spot@.y == spot.y@,
        spot@.rotation == spot.rotation@,
        spot@.ref_y == spot.ref_y@,
        spot@.value_y == spot.value_y@,
{
}

/// Symbols are seen as they are.
pub proof fn law_symbols_are_seen_as_they_are(
    p: Property,
    s: Symbol,
    sch: Schematic,
    i: ComponentInfo,
    k: int,
)
    ensures
        p@.name == p.name@,
        p@.value == p.value@,
        s@.lib_id == s.lib_id@,
        s@.x == s.x@,
        s@.y == s.y@,
        s@.unit == s.unit,
        s@.uuid == s.uuid@,
        s.rotation matches Some(r) ==> s@.rotation == Some(r@),
        s.rotation is None ==> s@.rotation is None,
        s.mirror matches Some(m) ==> s@.mirror == Some(m@),
        s.mirror is None ==> s@.mirror is None,
        s@.properties.len() == s.properties@.len(),
        0 <= k < s.properties@.len() ==> s@.properties[k] == s.properties@[k]@,
        sch@.symbols.len() == sch.symbols@.len(),
        0 <= k < sch.symbols@.len() ==> sch@.symbols[k] == sch.symbols@[k]@,
        sch@.raw_other.len() == sch.raw_other@.len(),
        0 <= k < sch.raw_other@.len() ==> sch@.raw_other[k] == sch.raw_other@[k]@,
        0 <= k < p.sub_nodes@.len() ==> p@.sub_nodes[k] == p.sub_nodes@[k]@,
        0 <= k < s.raw_sub_nodes@.len() ==> s@.raw_sub_nodes[k] == s.raw_sub_nodes@[k]@,
        i@.reference == i.reference@,
        i@.value == i.value@,
        i@.footprint == i.footprint@,
        i@.lib_id == i.lib_id@,
        i@.x == i.x@,
        i@.y == i.y@,
        i.rotation matches Some(r) ==> i@.rotation == Some(r@),
        i.rotation is None ==> i@.rotation is None,
        i@.mirror_x == i.mirror_x,
        i@.mirror_y == i.mirror_y,
        i@.uuid == i.uuid@,
{
    lemma_forest(sch.raw_other@);
    lemma_forest(p.sub_nodes@);
    lemma_forest(s.raw_sub_nodes@);
}

/// Drawings are seen as they are.
pub proof fn law_drawings_are_seen_as_they_are(o: Obstacles, c: Candidate, h: Choices, k: int)
    ensures
        o@.wires == o.wires@,
        o@.labels == o.labels@,
        o@.symbols.len() == o.symbols@.len(),
        0 <= k < o.symbols@.len() ==> o@.symbols[k] == (o.symbols@[k].0@, o.symbols@[k].1),
        c@.ref_box == c.ref_box,
        c@.value_box == c.value_box,
        c@.ref_at == c.ref_at@,
        c@.value_at == c.value_at@,
        h@.candidates.len() == h.candidates@.len(),
        0 <= k < h.candidates@.len() ==> h@.candidates[k] == h.candidates@[k]@,
        h@.ref_fallback == h.ref_fallback@,
        h@.value_fallback == h.value_fallback@,
{
}

/// Nodes, files and answers are seen as they are.
pub proof fn law_nodes_are_seen_as_they_are(
    a: String,
    v: Vec<SexpNode>,
    f: SymbolFile,
    d: SymbolDir,
    r: CallToolResult,
    k: int,
)
    ensures
        SexpNode::Atom(a)@ == Tree::Atom(a@),
        SexpNode::Str(a)@ == Tree::Str(a@),
        SexpNode::List(v)@ matches Tree::List(w) && w.len() == v@.len() && (0 <= k < w.len() ==> w[k]
            == v@[k]@),
        f@.library == f.library@,
        f@.content == f.content@,
        f.symbol matches Some(s) ==> f@.symbol == Some(s@),
        f.symbol is None ==> f@.symbol is None,
        d@.len() == d.files@.len(),
        0 <= k < d.files@.len() ==> d@[k] == d.files@[k]@,
        r@.is_error == r.is_error,
        r@.parts.len() == r.content@.len(),
        0 <= k < r.content@.len() ==> r@.parts[k] == r.content@[k]@,
        (ToolContent::Text { text: a })@ == Part::Text(a@),
        ToolFailure::Reported(r)@ == Failure::Reported(r@),
        ToolFailure::Raised(a)@ == Failure::Raised(a@),
{
    lemma_forest(v@);
}

} // verus!
