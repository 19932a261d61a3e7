//! Pictures of boards and schematics as answers.
use crate::answer::{text_answer, Answer, CallToolResult, Part, Source};
use crate::words::{nat_chars, nat_text, strings_of};
use vstd::prelude::*;
use vstd::string::*;

verus! {

// Base64
/// The character for six bits.
pub open spec fn sextet(n: int) -> char {
    if n < 26 {
        (65 + n) as char
    } else if n < 52 {
        (97 + (n - 26)) as char
    } else if n < 62 {
        (48 + (n - 52)) as char
    } else if n == 62 {
        '+'
    } else {
        '/'
    }
}

/// Bytes in base64 with the standard alphabet and padding: three bytes give
/// four characters, and what is missing of the last three is filled up with
/// equals signs.
pub open spec fn base64_text(b: Seq<u8>) -> Seq<char>
    decreases b.len(),
{
    if b.len() == 0 {
        seq![]
    } else if b.len() == 1 {
        seq![sextet(b[0] as int / 4), sextet(b[0] as int % 4 * 16), '=', '=']
    } else if b.len() == 2 {
        seq![
            sextet(b[0] as int / 4),
            sextet(b[0] as int % 4 * 16 + b[1] as int / 16),
            sextet(b[1] as int % 16 * 4),
            '=',
        ]
    } else {
        seq![
            sextet(b[0] as int / 4),
            sextet(b[0] as int % 4 * 16 + b[1] as int / 16),
            sextet(b[1] as int % 16 * 4 + b[2] as int / 64),
            sextet(b[2] as int % 64),
        ] + base64_text(b.subrange(3, b.len() as int))
    }
}

/// The text in base64 fits into memory.
pub open spec fn encodable(b: Seq<u8>) -> bool {
    (b.len() + 2) / 3 * 4 <= isize::MAX
}

/// Calls `encode` of `base64::engine::general_purpose::STANDARD`. What is
/// claimed of it: the result is the RFC 4648 base64 text of the bytes, with the
/// `+` and `/` alphabet and `=` padding. It panics where the text would not fit
/// into memory, so such bytes are left out.
#[verifier::external_body]
fn encode_standard(bytes: &Vec<u8>) -> (r: String)
    requires
        encodable(bytes@),
    ensures
        r@ == base64_text(bytes@),
{
    base64::Engine::encode(&base64::engine::general_purpose::STANDARD, bytes)
}

/// Every three bytes, and what is left of them at the end, give four
/// characters.
pub proof fn law_base64_length(b: Seq<u8>)
    ensures
        base64_text(b).len() == (b.len() + 2) / 3 * 4,
    decreases b.len(),
{
    if b.len() >= 3 {
        law_base64_length(b.subrange(3, b.len() as int));
    }
}

// Boards
/// The answer that shows a board, and says which state of it.
pub open spec fn board_view(png: Seq<u8>, source: Source) -> Answer {
    Answer {
        parts: seq![
            Part::Image(base64_text(png), "image/png"@),
            Part::Text("{\"source\":\""@ + source.text() + "\"}"@),
        ],
        is_error: false,
    }
}

/// The answer that shows a board: the picture, base64-encoded, and which state
/// of the board it shows.
pub fn board_view_answer(png: &Vec<u8>, source: Source) -> (r: CallToolResult)
    requires
        encodable(png@),
    ensures
        r@ == board_view(png@, source),
{
    let data: String = encode_standard(png);
    let mut r: CallToolResult = CallToolResult::image(data, "image/png".to_owned());
    r.push_text("{\"source\":\"".to_owned().concat(source.tag()).concat("\"}"));
    assert(r@ =~= board_view(png@, source));
    r
}

/// The layers that a picture of a board shows if none are asked for: copper and
/// silkscreen, and the edge of the board.
pub open spec fn usual_layers() -> Seq<Seq<char>> {
    seq!["F.Cu"@, "B.Cu"@, "F.SilkS"@, "B.SilkS"@, "Edge.Cuts"@]
}

/// The layers that a picture of a board shows if none are asked for.
pub fn default_layers() -> (r: Vec<String>)
    ensures
        strings_of(r@) == usual_layers(),
{
    let mut v: Vec<String> = Vec::new();
    v.push("F.Cu".to_owned());
    v.push("B.Cu".to_owned());
    v.push("F.SilkS".to_owned());
    v.push("B.SilkS".to_owned());
    v.push("Edge.Cuts".to_owned());
    assert(strings_of(v@) =~= usual_layers());
    v
}

/// The layers that a picture of a board shows: those that are asked for, the
/// default ones if there are none among them.
pub fn view_layers(asked: Option<Vec<String>>) -> (r: Vec<String>)
    ensures
        strings_of(r@) == (match asked {
            Some(v) => if v@.len() > 0 {
                strings_of(v@)
            } else {
                usual_layers()
            },
            None => usual_layers(),
        }),
{
    match asked {
        Some(v) => if v.len() > 0 {
            v
        } else {
            default_layers()
        },
        None => default_layers(),
    }
}

// Schematics
/// The answer that tells of a rendered schematic of so many bytes.
pub open spec fn schematic_view(bytes: int) -> Answer {
    text_answer(
        "SVG schematic rendered. "@ + nat_chars(bytes)
            + " bytes.\n\nNote: KiCAD 10 CLI exports schematics as SVG only (no bitmap). The SVG file has been generated. Use export_schematic_pdf for a PDF version."@,
    )
}

/// The answer that tells of a rendered schematic.
pub fn schematic_view_answer(bytes: u64) -> (r: CallToolResult)
    ensures
        r@ == schematic_view(bytes as int),
{
    CallToolResult::text(
        "SVG schematic rendered. ".to_owned().concat(nat_text(bytes).as_str()).concat(
            " bytes.\n\nNote: KiCAD 10 CLI exports schematics as SVG only (no bitmap). The SVG file has been generated. Use export_schematic_pdf for a PDF version.",
        ),
    )
}

} // verus!
