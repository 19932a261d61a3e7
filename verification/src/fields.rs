//! Fields of symbol instances in the text of a schematic file.
use crate::answer::{error_answer, CallToolResult};
use crate::board::{anchor_at_span, apply_one, at_text, inserted, piece, replaced, AtText};
use crate::edits::{apply_edits, edited, edits_of, fits, Edit, SexpEdit};
use crate::footprint::{block_anchor, lemma_block_anchor, lemma_piece_in};
use crate::moving::{lemma_anchor_first, lemma_new_block};
use crate::lines::needs_no_escape;
use crate::numbers::is_number;
use crate::property::{
    escaped, find_saying, law_property_reads_back, lemma_property_span, property_span,
    property_value, property_value_span, saying_from, says,
};
use crate::reread::lemma_number_is_word;
use crate::scan::{
    balanced_block, find_balanced_block, is_child, law_children_are_the_direct_lists,
    lemma_balanced_cut, lemma_child_cut, scan, QUOTE,
};
use crate::steady::{flat, lemma_run_plain, lemma_scan_run};
use crate::text::{
    byte_len, bytes_of, cut, find_at, find_from, lemma_ascii_byte, lemma_bytes_concat,
    lemma_bytes_len, lemma_bytes_valid, lemma_cut_ascii, lemma_cut_valid, lemma_find, lemma_find_is,
    lemma_no_byte, lemma_occurs_cut, lemma_rfind, lemma_text_of, occurs_at, opt_span, rfind_at,
    rfind_within, slice, text_of,
};
use crate::words::{
    ends_head, is_space, lemma_next_word, lemma_word_end_is, skip_space, strings_of, words,
    words_from, words_of,
};
use vstd::prelude::*;
use vstd::string::*;
use vstd::utf8::*;

verus! {

/// A byte that may follow the head of a block.
pub open spec fn after_head(b: u8) -> bool {
    b == 32 || b == 10 || b == 9 || b == 40
}

/// The first symbol block at `pos` or later whose Reference is `reference`. The
/// search goes from block to block and ends at one that is never closed. A
/// longer head that only begins like that of a symbol is passed over.
pub open spec fn symbol_from(h: Seq<u8>, reference: Seq<char>, pos: int) -> Option<(int, int)>
    decreases h.len() - pos,
{
    let pat = bytes_of("(symbol"@);
    match find_at(h, pat, pos) {
        None => None,
        Some(start) => {
            let a = start + pat.len();
            if !(0 <= pos < a <= h.len()) {
                None
            } else if a == h.len() || !after_head(h[a]) {
                symbol_from(h, reference, a)
            } else {
                match balanced_block(h, start) {
                    None => None,
                    Some(b) => if says(h.subrange(b.0, b.1), "Reference"@, reference) {
                        Some(b)
                    } else if pos < b.1 <= h.len() {
                        symbol_from(h, reference, b.1)
                    } else {
                        None
                    },
                }
            }
        },
    }
}

/// The span of the symbol with this reference.
pub open spec fn symbol_span(h: Seq<u8>, reference: Seq<char>) -> Option<(int, int)> {
    symbol_from(h, reference, 0)
}

proof fn lemma_symbol_head()
    ensures
        valid_utf8(bytes_of("(symbol"@)),
        bytes_of("(symbol"@).len() > 0,
{
    reveal_strlit("(symbol");
    lemma_bytes_valid("(symbol"@);
    lemma_bytes_len("(symbol"@);
}

/// A symbol that was found is a piece of the text.
proof fn lemma_symbol_from(h: Seq<u8>, reference: Seq<char>, pos: int)
    requires
        valid_utf8(h),
        0 <= pos,
    ensures
        symbol_from(h, reference, pos) matches Some(b) ==> pos <= b.0 < b.1 <= h.len() && piece(
            h,
            b.0,
            b.1,
        ) && balanced_block(h, b.0) == Some(b),
    decreases h.len() - pos,
{
    let pat = bytes_of("(symbol"@);
    lemma_symbol_head();
    lemma_find(h, pat, pos);
    match find_at(h, pat, pos) {
        None => {},
        Some(start) => {
            let a = start + pat.len();
            lemma_occurs_cut(h, pat, start);
            if a == h.len() || !after_head(h[a]) {
                lemma_symbol_from(h, reference, a);
            } else {
                match balanced_block(h, start) {
                    None => {},
                    Some(b) => {
                        lemma_balanced_cut(h, start);
                        if !says(h.subrange(b.0, b.1), "Reference"@, reference) {
                            lemma_symbol_from(h, reference, b.1);
                        }
                    },
                }
            }
        },
    }
}

pub proof fn lemma_symbol_span(h: Seq<u8>, reference: Seq<char>)
    requires
        valid_utf8(h),
        symbol_span(h, reference) is Some,
    ensures
        ({
            let b = symbol_span(h, reference).unwrap();
            b.0 < b.1 && piece(h, b.0, b.1) && balanced_block(h, b.0) == Some(b)
        }),
{
    lemma_symbol_from(h, reference, 0);
}

/// Byte span of the `(symbol ...)` block whose Reference property equals
/// `reference`.
pub fn find_symbol_block(content: &str, reference: &str) -> (r: Option<(usize, usize)>)
    ensures
        opt_span(r) == symbol_span(bytes_of(content@), reference@),
        match r {
            Some(s) => s.0 < s.1 && piece(bytes_of(content@), s.0 as int, s.1 as int),
            None => true,
        },
{
    let ghost h = bytes_of(content@);
    let ghost p = bytes_of("(symbol"@);
    proof {
        lemma_bytes_valid(content@);
        lemma_symbol_head();
        lemma_symbol_from(h, reference@, 0);
    }
    let n: usize = byte_len(content);
    let bytes = content.as_bytes();
    let mut pos: usize = 0;
    loop
        invariant
            h == bytes_of(content@),
            p == bytes_of("(symbol"@),
            valid_utf8(h),
            valid_utf8(p),
            p.len() > 0,
            n == h.len(),
            bytes@ == h,
            pos <= n,
            symbol_span(h, reference@) == symbol_from(h, reference@, pos as int),
            symbol_span(h, reference@) matches Some(b) ==> b.0 < b.1 && piece(h, b.0, b.1),
        decreases n - pos,
    {
        let start: usize = match find_from(content, "(symbol", pos) {
            Some(s) => s,
            None => {
                return None;
            },
        };
        proof {
            lemma_find(h, p, pos as int);
            lemma_occurs_cut(h, p, start as int);
        }
        let a: usize = start + byte_len("(symbol");
        if a == n || !(bytes[a] == 32 || bytes[a] == 10 || bytes[a] == 9 || bytes[a] == 40) {
            pos = a;
        } else {
            let (s, e): (usize, usize) = match find_balanced_block(content, start) {
                Some(b) => b,
                None => {
                    return None;
                },
            };
            proof {
                lemma_balanced_cut(h, start as int);
            }
            if find_saying(slice(content, s, e), "Reference", reference).is_some() {
                return Some((s, e));
            }
            pos = e;
        }
    }
}

/// The span of the value of a field of the symbol with this reference.
pub open spec fn field_span(h: Seq<u8>, reference: Seq<char>, field: Seq<char>) -> Option<
    (int, int),
> {
    match symbol_span(h, reference) {
        None => None,
        Some(b) => match property_span(h.subrange(b.0, b.1), field) {
            None => None,
            Some(v) => Some((b.0 + v.0, b.0 + v.1)),
        },
    }
}

/// Byte range of the value of a field, without its quotes, within the symbol
/// block for `reference`.
pub fn field_value_range(content: &str, reference: &str, field: &str) -> (r: Option<(usize, usize)>)
    ensures
        opt_span(r) == field_span(bytes_of(content@), reference@, field@),
        match r {
            Some(s) => piece(bytes_of(content@), s.0 as int, s.1 as int),
            None => true,
        },
{
    let ghost h = bytes_of(content@);
    match find_symbol_block(content, reference) {
        None => None,
        Some((s, e)) => match property_value_span(slice(content, s, e), field) {
            None => None,
            Some((a, b)) => {
                proof {
                    lemma_piece_in(h, s as int, e as int, a as int, b as int);
                }
                Some((s + a, s + b))
            },
        },
    }
}

// Field positions
/// What a field begins with.
pub open spec fn field_mark(field: Seq<char>) -> Seq<char> {
    "(property \""@ + field + "\" "@
}

/// The span of a field in a symbol block.
pub open spec fn field_block(t: Seq<u8>, field: Seq<char>) -> Option<(int, int)> {
    match find_at(t, bytes_of(field_mark(field)), 0) {
        None => None,
        Some(p) => balanced_block(t, p),
    }
}

/// Where the numbers of a field's `(at X Y R)` stand in a symbol block. The place
/// of a field is a list directly inside it.
pub open spec fn at_span(t: Seq<u8>, field: Seq<char>) -> Option<(int, int)> {
    match field_block(t, field) {
        None => None,
        Some(b) => match block_anchor(t, b) {
            None => None,
            Some(a) => if occurs_at(t, bytes_of("(at "@), a.0) {
                Some((a.0 + 4, a.1 - 1))
            } else {
                None
            },
        },
    }
}

/// Where the numbers of a field's place stand in the schematic.
pub open spec fn field_place(h: Seq<u8>, reference: Seq<char>, field: Seq<char>) -> Option<
    (int, int),
> {
    match symbol_span(h, reference) {
        None => None,
        Some(b) => match at_span(h.subrange(b.0, b.1), field) {
            None => None,
            Some(v) => Some((b.0 + v.0, b.0 + v.1)),
        },
    }
}

proof fn lemma_field_mark(field: Seq<char>)
    ensures
        valid_utf8(bytes_of(field_mark(field))),
        bytes_of(field_mark(field)) == seq![
            40u8,
            112u8,
            114u8,
            111u8,
            112u8,
            101u8,
            114u8,
            116u8,
            121u8,
            32u8,
            34u8,
        ] + bytes_of(field) + seq![34u8, 32u8],
        bytes_of("(at "@) == seq![40u8, 97u8, 116u8, 32u8],
        valid_utf8(bytes_of("(at "@)),
{
    reveal_strlit("(property \"");
    reveal_strlit("\" ");
    reveal_strlit("(at ");
    lemma_bytes_valid(field_mark(field));
    lemma_bytes_valid("(at "@);
    lemma_bytes_concat("(property \""@, field);
    lemma_bytes_concat("(property \""@ + field, "\" "@);
    is_ascii_chars_encode_utf8("(property \""@);
    is_ascii_chars_encode_utf8("\" "@);
    is_ascii_chars_encode_utf8("(at "@);
    assert(bytes_of("(property \""@) =~= seq![
        40u8,
        112u8,
        114u8,
        111u8,
        112u8,
        101u8,
        114u8,
        116u8,
        121u8,
        32u8,
        34u8,
    ]);
    assert(bytes_of("\" "@) =~= seq![34u8, 32u8]);
    assert(bytes_of("(at "@) =~= seq![40u8, 97u8, 116u8, 32u8]);
}

/// A field is a piece of the symbol block, and balanced.
proof fn lemma_field_block(t: Seq<u8>, field: Seq<char>)
    requires
        valid_utf8(t),
        field_block(t, field) is Some,
    ensures
        ({
            let b = field_block(t, field).unwrap();
            &&& piece(t, b.0, b.1)
            &&& b.0 < b.1
            &&& balanced_block(t, b.0) == Some(b)
            &&& occurs_at(t, bytes_of(field_mark(field)), b.0)
            &&& find_at(t, bytes_of(field_mark(field)), 0) == Some(b.0)
        }),
{
    let m = bytes_of(field_mark(field));
    lemma_field_mark(field);
    lemma_find(t, m, 0);
    let p = find_at(t, m, 0).unwrap();
    lemma_occurs_cut(t, m, p);
    lemma_balanced_cut(t, p);
}

proof fn lemma_at_span(t: Seq<u8>, field: Seq<char>)
    requires
        valid_utf8(t),
        at_span(t, field) is Some,
    ensures
        piece(t, at_span(t, field).unwrap().0, at_span(t, field).unwrap().1),
        t[at_span(t, field).unwrap().1] == 41,
{
    let b = field_block(t, field).unwrap();
    lemma_field_block(t, field);
    lemma_field_mark(field);
    let a = block_anchor(t, b).unwrap();
    lemma_block_anchor(t, b);
    lemma_occurs_cut(t, bytes_of("(at "@), a.0);
    let u = t.subrange(b.0, b.1);
    lemma_cut_valid(t, b.0, b.1);
    let m = lemma_anchor_first(u, 0);
    lemma_child_cut(u, m);
    assert(t[a.1 - 1] == u[a.1 - 1 - b.0]);
    assert(t[a.1 - 1] == 41);
    lemma_cut_ascii(t, a.1 - 1);
    assert forall|k: int| 0 <= k < 4 implies t[a.0 + k] == bytes_of("(at "@)[k] by {
        assert(t.subrange(a.0, a.0 + 4)[k] == bytes_of("(at "@)[k]);
    }
    assert(t[a.0 + 0] == 40 && t[a.0 + 1] == 97 && t[a.0 + 2] == 116 && t[a.0 + 3] == 32);
}

/// Where the numbers of a field's place stand in a symbol block.
fn find_at_span(block: &str, field: &str) -> (r: Option<(usize, usize)>)
    ensures
        opt_span(r) == at_span(bytes_of(block@), field@),
{
    let ghost t = bytes_of(block@);
    let pat: String = "(property \"".to_owned().concat(field).concat("\" ");
    proof {
        lemma_bytes_valid(block@);
        lemma_find(t, bytes_of(pat@), 0);
        lemma_field_mark(field@);
    }
    let p: usize = match find_from(block, pat.as_str(), 0) {
        Some(p) => p,
        None => {
            return None;
        },
    };
    let (s, e): (usize, usize) = match find_balanced_block(block, p) {
        Some(b) => b,
        None => {
            return None;
        },
    };
    proof {
        lemma_field_block(t, field@);
    }
    let own: &str = slice(block, s, e);
    let (a, b): (usize, usize) = match anchor_at_span(own) {
        Some(v) => v,
        None => {
            return None;
        },
    };
    proof {
        lemma_block_anchor(t, (s as int, e as int));
        lemma_find(t, bytes_of("(at "@), s + a);
        if at_span(t, field@) is Some {
            lemma_at_span(t, field@);
        }
    }
    match find_from(block, "(at ", s + a) {
        Some(i) => if i == s + a {
            Some((s + a + 4, s + b - 1))
        } else {
            None
        },
        None => None,
    }
}

/// Byte range of the "X Y R" numbers inside a property's `(at X Y R)` node,
/// within the symbol block for `reference`.
pub fn field_at_range(content: &str, reference: &str, field: &str) -> (r: Option<(usize, usize)>)
    ensures
        opt_span(r) == field_place(bytes_of(content@), reference@, field@),
        match r {
            Some(s) => piece(bytes_of(content@), s.0 as int, s.1 as int),
            None => true,
        },
{
    let ghost h = bytes_of(content@);
    match find_symbol_block(content, reference) {
        None => None,
        Some((s, e)) => {
            proof {
                lemma_bytes_valid(content@);
                lemma_cut_valid(h, s as int, e as int);
            }
            match find_at_span(slice(content, s, e), field) {
                None => None,
                Some((a, b)) => {
                    proof {
                        lemma_at_span(h.subrange(s as int, e as int), field@);
                        lemma_piece_in(h, s as int, e as int, a as int, b as int);
                    }
                    Some((s + a, s + b))
                },
            }
        },
    }
}

/// The numbers of a field's place, as they are written.
pub fn field_numbers(content: &str, reference: &str, field: &str) -> (r: Option<Vec<String>>)
    ensures
        match field_place(bytes_of(content@), reference@, field@) {
            None => r is None,
            Some(v) => r matches Some(w) && strings_of(w@) == words_of(
                text_of(bytes_of(content@).subrange(v.0, v.1)),
            ),
        },
{
    match field_at_range(content, reference, field) {
        None => None,
        Some((a, b)) => Some(words(slice(content, a, b))),
    }
}

/// What is said of a field that a symbol does not have.
pub open spec fn field_missing(field: Seq<char>, reference: Seq<char>) -> Seq<char> {
    "Field '"@ + field + "' not found on '"@ + reference + "'"@
}

fn say_field_missing(field: &str, reference: &str) -> (r: String)
    ensures
        r@ == field_missing(field@, reference@),
{
    "Field '".to_owned().concat(field).concat("' not found on '").concat(reference).concat("'")
}

/// A place as it stands inside `(at ...)`.
pub open spec fn place_text(x: Seq<char>, y: Seq<char>, rotation: Seq<char>) -> Seq<char> {
    x + " "@ + y + " "@ + rotation
}

fn format_place(x: &str, y: &str, rotation: &str) -> (r: String)
    ensures
        r@ == place_text(x@, y@, rotation@),
{
    x.to_owned().concat(" ").concat(y).concat(" ").concat(rotation)
}

/// Move a single property field of a symbol instance to an absolute position.
pub fn edit_field_position(
    content: String,
    reference: &str,
    field: &str,
    x: &str,
    y: &str,
    rotation: &str,
) -> (r: Result<String, String>)
    ensures
        match field_place(bytes_of(content@), reference@, field@) {
            Some(v) => r matches Ok(s) && bytes_of(s@) == replaced(
                bytes_of(content@),
                v.0,
                v.1,
                place_text(x@, y@, rotation@),
            ),
            None => r matches Err(m) && m@ == field_missing(field@, reference@),
        },
{
    match field_at_range(content.as_str(), reference, field) {
        Some((a, b)) => Ok(
            apply_one(content, SexpEdit::replace(a, b, format_place(x, y, rotation))),
        ),
        None => Err(say_field_missing(field, reference)),
    }
}

// New properties
/// A new property as it stands in a schematic: hidden, without a place of its
/// own.
pub open spec fn property_text(key: Seq<char>, value: Seq<char>) -> Seq<char> {
    "    (property \""@ + key + "\" \""@ + value
        + "\"\n      (at 0 0 0)\n      (effects (font (size 1.27 1.27)) (hide yes))\n    )\n    "@
}

fn format_property(key: &str, value: &str) -> (r: String)
    ensures
        r@ == property_text(key@, value@),
{
    "    (property \"".to_owned().concat(key).concat("\" \"").concat(value).concat(
        "\"\n      (at 0 0 0)\n      (effects (font (size 1.27 1.27)) (hide yes))\n    )\n    ",
    )
}

/// Where a new property goes in a block: before its instances, else before its
/// last parenthesis.
pub open spec fn property_place(t: Seq<u8>) -> int {
    match find_at(t, bytes_of("(instances"@), 0) {
        Some(i) => i,
        None => match rfind_at(t, bytes_of(")"@), t.len() - bytes_of(")"@).len()) {
            Some(i) => i,
            None => t.len() - 1,
        },
    }
}

/// The place of a new property lies between two characters of a block that ends
/// with a parenthesis.
proof fn lemma_property_place(t: Seq<u8>)
    requires
        valid_utf8(t),
        t.len() > 0,
        t[t.len() - 1] == 41,
    ensures
        cut(t, property_place(t)),
{
    let m = bytes_of("(instances"@);
    let c = bytes_of(")"@);
    reveal_strlit("(instances");
    reveal_strlit(")");
    lemma_bytes_valid("(instances"@);
    lemma_bytes_len("(instances"@);
    assert(")"@ =~= seq![')']);
    lemma_ascii_byte(')');
    lemma_find(t, m, 0);
    match find_at(t, m, 0) {
        Some(i) => {
            lemma_occurs_cut(t, m, i);
        },
        None => {
            lemma_rfind(t, c, t.len() - 1);
            match rfind_at(t, c, t.len() - 1) {
                Some(i) => {
                    assert(t.subrange(i, i + 1)[0] == t[i]);
                    lemma_cut_ascii(t, i);
                },
                None => {
                    assert(t.subrange(t.len() - 1, t.len() as int) =~= c);
                    assert(occurs_at(t, c, t.len() - 1));
                },
            }
        },
    }
}

fn find_property_place(block: &str) -> (r: usize)
    requires
        bytes_of(block@).len() > 0,
        bytes_of(block@)[bytes_of(block@).len() - 1] == 41,
    ensures
        r == property_place(bytes_of(block@)),
        cut(bytes_of(block@), r as int),
{
    proof {
        lemma_bytes_valid(block@);
        lemma_property_place(bytes_of(block@));
    }
    let n: usize = byte_len(block);
    match find_from(block, "(instances", 0) {
        Some(i) => i,
        None => match rfind_within(block, ")", n) {
            Some(i) => i,
            None => n - 1,
        },
    }
}

/// Where a new property of the symbol with this reference goes.
pub open spec fn new_property_place(h: Seq<u8>, reference: Seq<char>) -> Option<int> {
    match symbol_span(h, reference) {
        None => None,
        Some(b) => Some(b.0 + property_place(h.subrange(b.0, b.1))),
    }
}

/// The edit that adds a property to the symbol block for `reference`.
pub fn insert_property_edit(content: &str, reference: &str, key: &str, value: &str) -> (r: Option<
    SexpEdit,
>)
    ensures
        match new_property_place(bytes_of(content@), reference@) {
            Some(i) => {
                &&& r matches Some(e)
                &&& e@ == (Edit { start: i, end: i, text: property_text(key@, value@) })
                &&& fits(bytes_of(content@), e@)
            },
            None => r is None,
        },
{
    let ghost h = bytes_of(content@);
    match find_symbol_block(content, reference) {
        None => None,
        Some((s, e)) => {
            proof {
                lemma_bytes_valid(content@);
                lemma_symbol_span(h, reference@);
                lemma_balanced_cut(h, s as int);
                assert(h.subrange(s as int, e as int)[e - s - 1] == h[e - 1]);
            }
            let at: usize = find_property_place(slice(content, s, e));
            proof {
                lemma_piece_in(h, s as int, e as int, at as int, at as int);
            }
            Some(SexpEdit::insert(s + at, format_property(key, value)))
        },
    }
}

// Editing fields
/// A field that is to be set. A standard field must be there; any other one is
/// added where it is missing. No value stands for one that is no string.
pub struct FieldRequest {
    pub name: String,
    pub value: Option<String>,
    pub standard: bool,
}

/// A field that is to be set, as plain text.
pub struct RequestText {
    pub name: Seq<char>,
    pub value: Option<Seq<char>>,
    pub standard: bool,
}

impl View for FieldRequest {
    type V = RequestText;

    open spec fn view(&self) -> RequestText {
        RequestText {
            name: self.name@,
            value: match self.value {
                Some(s) => Some(s@),
                None => None,
            },
            standard: self.standard,
        }
    }
}

/// Requests as plain text.
pub open spec fn requests_of(v: Seq<FieldRequest>) -> Seq<RequestText> {
    v.map_values(|f: FieldRequest| f@)
}

/// What a request comes to: an edit with the words that tell of it, or an
/// error.
pub open spec fn field_outcome(h: Seq<u8>, reference: Seq<char>, f: RequestText) -> Result<
    (Edit, Seq<char>),
    Seq<char>,
> {
    match f.value {
        None => Err("Field '"@ + f.name + "' value must be a string"@),
        Some(v) => match field_span(h, reference, f.name) {
            Some(s) => Ok((Edit { start: s.0, end: s.1, text: v }, f.name + " → "@ + v)),
            None => if f.standard {
                Err(field_missing(f.name, reference))
            } else {
                match new_property_place(h, reference) {
                    Some(i) => Ok(
                        (
                            Edit { start: i, end: i, text: property_text(f.name, v) },
                            f.name + " + "@ + v,
                        ),
                    ),
                    None => Err(
                        "Symbol '"@ + reference + "' not found for new field '"@ + f.name + "'"@,
                    ),
                }
            },
        },
    }
}

/// The edits that the first `k` requests come to.
pub open spec fn field_edits(h: Seq<u8>, reference: Seq<char>, fs: Seq<RequestText>, k: int) -> Seq<
    Edit,
>
    decreases k,
{
    if k <= 0 {
        seq![]
    } else {
        match field_outcome(h, reference, fs[k - 1]) {
            Ok(o) => field_edits(h, reference, fs, k - 1).push(o.0),
            Err(_) => field_edits(h, reference, fs, k - 1),
        }
    }
}

/// What is told of the changes that the first `k` requests come to.
pub open spec fn field_changes(h: Seq<u8>, reference: Seq<char>, fs: Seq<RequestText>, k: int) -> Seq<
    Seq<char>,
>
    decreases k,
{
    if k <= 0 {
        seq![]
    } else {
        match field_outcome(h, reference, fs[k - 1]) {
            Ok(o) => field_changes(h, reference, fs, k - 1).push(o.1),
            Err(_) => field_changes(h, reference, fs, k - 1),
        }
    }
}

/// The errors that the first `k` requests come to.
pub open spec fn field_errors(h: Seq<u8>, reference: Seq<char>, fs: Seq<RequestText>, k: int) -> Seq<
    Seq<char>,
>
    decreases k,
{
    if k <= 0 {
        seq![]
    } else {
        match field_outcome(h, reference, fs[k - 1]) {
            Ok(_) => field_errors(h, reference, fs, k - 1),
            Err(e) => field_errors(h, reference, fs, k - 1).push(e),
        }
    }
}

fn field_step(content: &str, reference: &str, f: &FieldRequest) -> (r: Result<
    (SexpEdit, String),
    String,
>)
    ensures
        match field_outcome(bytes_of(content@), reference@, f@) {
            Ok(o) => r matches Ok(p) && p.0@ == o.0 && p.1@ == o.1 && fits(
                bytes_of(content@),
                p.0@,
            ),
            Err(e) => r matches Err(m) && m@ == e,
        },
{
    let name: &str = f.name.as_str();
    let value: &str = match &f.value {
        Some(v) => v.as_str(),
        None => {
            return Err(
                "Field '".to_owned().concat(name).concat("' value must be a string"),
            );
        },
    };
    match field_value_range(content, reference, name) {
        Some((a, b)) => Ok(
            (
                SexpEdit::replace(a, b, value.to_owned()),
                name.to_owned().concat(" → ").concat(value),
            ),
        ),
        None => if f.standard {
            Err(say_field_missing(name, reference))
        } else {
            match insert_property_edit(content, reference, name, value) {
                Some(e) => Ok((e, name.to_owned().concat(" + ").concat(value))),
                None => Err(
                    "Symbol '".to_owned().concat(reference).concat(
                        "' not found for new field '",
                    ).concat(name).concat("'"),
                ),
            }
        },
    }
}

/// What editing the fields of a symbol came to.
pub struct FieldReport {
    /// The new schematic, if anything changed.
    pub content: Option<String>,
    pub changes: Vec<String>,
    pub errors: Vec<String>,
}

/// Update fields of a symbol instance. Standard fields always exist on one:
/// replace in place. Custom fields may be new: replace or insert.
pub fn edit_schematic_component(content: String, reference: &str, fs: &Vec<FieldRequest>) -> (r:
    FieldReport)
    ensures
        ({
            let h = bytes_of(content@);
            let q = requests_of(fs@);
            let es = field_edits(h, reference@, q, q.len() as int);
            &&& strings_of(r.changes@) == field_changes(h, reference@, q, q.len() as int)
            &&& strings_of(r.errors@) == field_errors(h, reference@, q, q.len() as int)
            &&& match r.content {
                Some(s) => es.len() > 0 && bytes_of(s@) == edited(h, es),
                None => es.len() == 0,
            }
        }),
{
    let ghost h = bytes_of(content@);
    let ghost q = requests_of(fs@);
    let mut edits: Vec<SexpEdit> = Vec::new();
    let mut changes: Vec<String> = Vec::new();
    let mut errors: Vec<String> = Vec::new();
    let mut k: usize = 0;
    assert(edits_of(edits@) =~= field_edits(h, reference@, q, 0));
    assert(strings_of(changes@) =~= field_changes(h, reference@, q, 0));
    assert(strings_of(errors@) =~= field_errors(h, reference@, q, 0));
    while k < fs.len()
        invariant
            h == bytes_of(content@),
            q == requests_of(fs@),
            k <= fs@.len(),
            edits_of(edits@) == field_edits(h, reference@, q, k as int),
            strings_of(changes@) == field_changes(h, reference@, q, k as int),
            strings_of(errors@) == field_errors(h, reference@, q, k as int),
            forall|i: int| 0 <= i < edits@.len() ==> fits(h, (#[trigger] edits@[i])@),
        decreases fs@.len() - k,
    {
        assert(q[k as int] == fs@[k as int]@);
        let ghost e0 = edits@;
        let ghost c0 = changes@;
        let ghost r0 = errors@;
        match field_step(content.as_str(), reference, &fs[k]) {
            Ok((edit, change)) => {
                let ghost e = edit@;
                let ghost c = change@;
                edits.push(edit);
                changes.push(change);
                assert(edits_of(edits@) =~= edits_of(e0).push(e));
                assert(strings_of(changes@) =~= strings_of(c0).push(c));
            },
            Err(m) => {
                let ghost c = m@;
                errors.push(m);
                assert(strings_of(errors@) =~= strings_of(r0).push(c));
            },
        }
        k = k + 1;
    }
    let new_content: Option<String> = if edits.len() > 0 {
        Some(apply_edits(content, edits))
    } else {
        None
    };
    FieldReport { content: new_content, changes, errors }
}

// Annotations
/// Why an instance cannot be found in the text of a schematic.
#[derive(Debug, Clone, Copy, PartialEq, Eq, Structural)]
pub enum InstanceError {
    NotFound,
    NoBlock,
    Unbalanced,
    NoLibId,
    MalformedLibId,
}

/// The message for a person.
pub open spec fn instance_message(e: InstanceError, reference: Seq<char>) -> Seq<char> {
    match e {
        InstanceError::NotFound => "Component '"@ + reference + "' not found"@,
        InstanceError::NoBlock => "Could not find symbol block"@,
        InstanceError::Unbalanced => "Could not parse symbol block"@,
        InstanceError::NoLibId => "Could not find lib_id in symbol block"@,
        InstanceError::MalformedLibId => "Malformed lib_id"@,
    }
}

fn say_instance(e: InstanceError, reference: &str) -> (r: CallToolResult)
    ensures
        r@ == error_answer(instance_message(e, reference@)),
{
    CallToolResult::error(
        match e {
            InstanceError::NotFound => "Component '".to_owned().concat(reference).concat(
                "' not found",
            ),
            InstanceError::NoBlock => "Could not find symbol block".to_owned(),
            InstanceError::Unbalanced => "Could not parse symbol block".to_owned(),
            InstanceError::NoLibId => "Could not find lib_id in symbol block".to_owned(),
            InstanceError::MalformedLibId => "Malformed lib_id".to_owned(),
        },
    )
}

/// Where the line of the symbol with this reference begins: the last symbol at
/// the depth of an instance before the first such Reference.
pub open spec fn instance_start(h: Seq<u8>, reference: Seq<char>) -> Result<int, InstanceError> {
    match saying_from(h, "Reference"@, reference, 0) {
        None => Err(InstanceError::NotFound),
        Some(p) => match rfind_at(
            h,
            bytes_of("\n  (symbol"@),
            p - bytes_of("\n  (symbol"@).len(),
        ) {
            None => Err(InstanceError::NoBlock),
            Some(o) => Ok(o + 1),
        },
    }
}

/// The lines of the symbol with this reference.
pub open spec fn instance_span(h: Seq<u8>, reference: Seq<char>) -> Result<
    (int, int),
    InstanceError,
> {
    match instance_start(h, reference) {
        Err(e) => Err(e),
        Ok(s) => match balanced_block(h, s) {
            None => Err(InstanceError::Unbalanced),
            Some(b) => Ok(b),
        },
    }
}

fn find_instance_start(content: &str, reference: &str) -> (r: Result<usize, InstanceError>)
    ensures
        match r {
            Ok(s) => {
                &&& instance_start(bytes_of(content@), reference@) == Ok::<int, InstanceError>(
                    s as int,
                )
                &&& cut(bytes_of(content@), s as int)
            },
            Err(e) => instance_start(bytes_of(content@), reference@) == Err::<int, InstanceError>(
                e,
            ),
        },
{
    let ghost h = bytes_of(content@);
    let ghost m = bytes_of("\n  (symbol"@);
    proof {
        lemma_bytes_valid(content@);
        reveal_strlit("\n  (symbol");
        lemma_bytes_valid("\n  (symbol"@);
        lemma_bytes_len("\n  (symbol"@);
        is_ascii_chars_encode_utf8("\n  (symbol"@);
        assert(m[0] == "\n  (symbol"@[0] as u8);
    }
    let pos: usize = match find_saying(content, "Reference", reference) {
        Some(p) => p,
        None => {
            return Err(InstanceError::NotFound);
        },
    };
    proof {
        lemma_rfind(h, m, pos - m.len());
    }
    match rfind_within(content, "\n  (symbol", pos) {
        Some(o) => {
            proof {
                assert(h.subrange(o as int, o + m.len())[0] == h[o as int]);
                lemma_cut_ascii(h, o as int);
            }
            Ok(o + 1)
        },
        None => Err(InstanceError::NoBlock),
    }
}

fn find_instance(content: &str, reference: &str) -> (r: Result<(usize, usize), InstanceError>)
    ensures
        match r {
            Ok(s) => {
                &&& instance_span(bytes_of(content@), reference@) == Ok::<
                    (int, int),
                    InstanceError,
                >((s.0 as int, s.1 as int))
                &&& s.0 < s.1
                &&& piece(bytes_of(content@), s.0 as int, s.1 as int)
                &&& bytes_of(content@)[s.1 - 1] == 41
            },
            Err(e) => instance_span(bytes_of(content@), reference@) == Err::<
                (int, int),
                InstanceError,
            >(e),
        },
{
    let start: usize = match find_instance_start(content, reference) {
        Ok(s) => s,
        Err(e) => {
            return Err(e);
        },
    };
    match find_balanced_block(content, start) {
        Some(b) => {
            proof {
                lemma_bytes_valid(content@);
                lemma_balanced_cut(bytes_of(content@), start as int);
            }
            Ok(b)
        },
        None => Err(InstanceError::Unbalanced),
    }
}

/// The outcome of adding a property to the symbol with this reference.
pub open spec fn annotated(h: Seq<u8>, reference: Seq<char>, key: Seq<char>, value: Seq<char>) -> Result<
    Seq<u8>,
    InstanceError,
> {
    match instance_span(h, reference) {
        Err(e) => Err(e),
        Ok(b) => Ok(
            inserted(h, b.0 + property_place(h.subrange(b.0, b.1)), property_text(key, value)),
        ),
    }
}

fn annotate(content: String, reference: &str, key: &str, value: &str) -> (r: Result<
    String,
    (String, InstanceError),
>)
    ensures
        match r {
            Ok(s) => annotated(bytes_of(content@), reference@, key@, value@) == Ok::<
                Seq<u8>,
                InstanceError,
            >(bytes_of(s@)),
            Err(e) => e.0@ == content@ && annotated(
                bytes_of(content@),
                reference@,
                key@,
                value@,
            ) == Err::<Seq<u8>, InstanceError>(e.1),
        },
{
    let ghost h = bytes_of(content@);
    let (s, e): (usize, usize) = match find_instance(content.as_str(), reference) {
        Ok(b) => b,
        Err(e) => {
            return Err((content, e));
        },
    };
    proof {
        assert(h.subrange(s as int, e as int)[e - s - 1] == h[e - 1]);
    }
    let at: usize = find_property_place(slice(content.as_str(), s, e));
    proof {
        lemma_piece_in(h, s as int, e as int, at as int, at as int);
    }
    Ok(apply_one(content, SexpEdit::insert(s + at, format_property(key, value))))
}

/// Add a custom property (annotation) to a symbol instance in the schematic.
pub fn add_component_annotation(content: String, reference: &str, key: &str, value: &str) -> (r:
    Result<String, CallToolResult>)
    ensures
        match annotated(bytes_of(content@), reference@, key@, value@) {
            Ok(t) => r matches Ok(s) && bytes_of(s@) == t,
            Err(e) => r matches Err(a) && a@ == error_answer(instance_message(e, reference@)),
        },
{
    match annotate(content, reference, key, value) {
        Ok(s) => Ok(s),
        Err((_, e)) => Err(say_instance(e, reference)),
    }
}

/// The schematic with the first `k` symbols put into a group. A symbol that
/// cannot be found is passed over.
pub open spec fn group_text(h: Seq<u8>, refs: Seq<Seq<char>>, group: Seq<char>, k: int) -> Seq<u8>
    decreases k,
{
    if k <= 0 {
        h
    } else {
        let before = group_text(h, refs, group, k - 1);
        match annotated(before, refs[k - 1], "Group"@, group) {
            Ok(t) => t,
            Err(_) => before,
        }
    }
}

/// Which of the first `k` symbols were put into the group.
pub open spec fn group_members(h: Seq<u8>, refs: Seq<Seq<char>>, group: Seq<char>, k: int) -> Seq<
    Seq<char>,
>
    decreases k,
{
    if k <= 0 {
        seq![]
    } else {
        match annotated(group_text(h, refs, group, k - 1), refs[k - 1], "Group"@, group) {
            Ok(_) => group_members(h, refs, group, k - 1).push(refs[k - 1]),
            Err(_) => group_members(h, refs, group, k - 1),
        }
    }
}

/// Add a group property to multiple components in the schematic, and tell which
/// got one.
pub fn group_components(content: String, refs: &Vec<String>, group_name: &str) -> (r: Result<
    (String, Vec<String>),
    CallToolResult,
>)
    ensures
        if refs@.len() == 0 {
            r matches Err(a) && a@ == error_answer("No references provided"@)
        } else {
            &&& r matches Ok(g)
            &&& bytes_of(g.0@) == group_text(
                bytes_of(content@),
                strings_of(refs@),
                group_name@,
                refs@.len() as int,
            )
            &&& strings_of(g.1@) == group_members(
                bytes_of(content@),
                strings_of(refs@),
                group_name@,
                refs@.len() as int,
            )
        },
{
    if refs.len() == 0 {
        return Err(CallToolResult::error("No references provided".to_owned()));
    }
    let ghost h = bytes_of(content@);
    let ghost names = strings_of(refs@);
    let mut text: String = content;
    let mut members: Vec<String> = Vec::new();
    let mut k: usize = 0;
    assert(strings_of(members@) =~= group_members(h, names, group_name@, 0));
    while k < refs.len()
        invariant
            names == strings_of(refs@),
            k <= refs@.len(),
            bytes_of(text@) == group_text(h, names, group_name@, k as int),
            strings_of(members@) == group_members(h, names, group_name@, k as int),
        decreases refs@.len() - k,
    {
        assert(names[k as int] == refs@[k as int]@);
        let ghost before = members@;
        match annotate(text, refs[k].as_str(), "Group", group_name) {
            Ok(s) => {
                text = s;
                members.push(refs[k].as_str().to_owned());
                assert(strings_of(members@) =~= strings_of(before).push(names[k as int]));
            },
            Err((s, _)) => {
                text = s;
            },
        }
        k = k + 1;
    }
    Ok((text, members))
}

// Replacing
/// The span of the library id of the symbol with this reference.
pub open spec fn lib_id_span(h: Seq<u8>, reference: Seq<char>) -> Result<(int, int), InstanceError> {
    match instance_start(h, reference) {
        Err(e) => Err(e),
        Ok(s) => match find_at(h, bytes_of("(lib_id \""@), s) {
            None => Err(InstanceError::NoLibId),
            Some(p) => {
                let a = p + bytes_of("(lib_id \""@).len();
                match find_at(h, bytes_of("\""@), a) {
                    None => Err(InstanceError::MalformedLibId),
                    Some(e) => Ok((a, e)),
                }
            },
        },
    }
}

fn find_lib_id(content: &str, reference: &str) -> (r: Result<(usize, usize), InstanceError>)
    ensures
        match r {
            Ok(s) => {
                &&& lib_id_span(bytes_of(content@), reference@) == Ok::<(int, int), InstanceError>(
                    (s.0 as int, s.1 as int),
                )
                &&& piece(bytes_of(content@), s.0 as int, s.1 as int)
            },
            Err(e) => lib_id_span(bytes_of(content@), reference@) == Err::<
                (int, int),
                InstanceError,
            >(e),
        },
{
    let ghost h = bytes_of(content@);
    let ghost m = bytes_of("(lib_id \""@);
    let n: usize = byte_len(content);
    proof {
        lemma_bytes_valid(content@);
        reveal_strlit("(lib_id \"");
        reveal_strlit("\"");
        lemma_bytes_valid("(lib_id \""@);
        lemma_bytes_len("(lib_id \""@);
        assert("\""@ =~= seq!['"']);
        lemma_ascii_byte('"');
    }
    let start: usize = match find_instance_start(content, reference) {
        Ok(s) => s,
        Err(e) => {
            return Err(e);
        },
    };
    proof {
        lemma_find(h, m, start as int);
    }
    let p: usize = match find_from(content, "(lib_id \"", start) {
        Some(p) => p,
        None => {
            return Err(InstanceError::NoLibId);
        },
    };
    proof {
        lemma_occurs_cut(h, m, p as int);
    }
    let a: usize = p + byte_len("(lib_id \"");
    proof {
        lemma_find(h, bytes_of("\""@), a as int);
    }
    match find_from(content, "\"", a) {
        Some(e) => {
            proof {
                assert(h.subrange(e as int, e + 1)[0] == h[e as int]);
                lemma_cut_ascii(h, e as int);
            }
            Ok((a, e))
        },
        None => Err(InstanceError::MalformedLibId),
    }
}

/// Replace a component's lib_id with a new library symbol, and tell the old
/// one.
pub fn replace_component(content: String, reference: &str, new_lib_id: &str) -> (r: Result<
    (String, String),
    CallToolResult,
>)
    ensures
        match lib_id_span(bytes_of(content@), reference@) {
            Ok(s) => {
                &&& r matches Ok(p)
                &&& bytes_of(p.0@) == replaced(bytes_of(content@), s.0, s.1, new_lib_id@)
                &&& p.1@ == text_of(bytes_of(content@).subrange(s.0, s.1))
            },
            Err(e) => r matches Err(a) && a@ == error_answer(instance_message(e, reference@)),
        },
{
    match find_lib_id(content.as_str(), reference) {
        Ok((a, b)) => {
            let old_lib_id: String = slice(content.as_str(), a, b).to_owned();
            Ok(
                (
                    apply_one(content, SexpEdit::replace(a, b, new_lib_id.to_owned())),
                    old_lib_id,
                ),
            )
        },
        Err(e) => Err(say_instance(e, reference)),
    }
}

// Laws
proof fn lemma_unescaped(v: Seq<char>)
    requires
        needs_no_escape(v),
    ensures
        escaped(v) == v,
    decreases v.len(),
{
    if v.len() > 0 {
        lemma_unescaped(v.drop_first());
        assert(escaped(v) =~= v);
    }
}

/// A field that was set has the new value in the symbol's block, and the
/// schematic before and behind that value is as it was. The value holds no quote
/// and no backslash.
pub proof fn law_edited_field_reads_back(
    h: Seq<u8>,
    reference: Seq<char>,
    field: Seq<char>,
    v: Seq<char>,
)
    requires
        valid_utf8(h),
        field_span(h, reference, field) is Some,
        needs_no_escape(v),
    ensures
        ({
            let b = symbol_span(h, reference).unwrap();
            let f = field_span(h, reference, field).unwrap();
            let r = replaced(h, f.0, f.1, v);
            let grows = bytes_of(v).len() - (f.1 - f.0);
            &&& property_value(r.subrange(b.0, b.1 + grows), field) == Some(v)
            &&& r.subrange(0, f.0) == h.subrange(0, f.0)
            &&& r.subrange(f.1 + grows, r.len() as int) == h.subrange(f.1, h.len() as int)
        }),
{
    let b = symbol_span(h, reference).unwrap();
    lemma_symbol_span(h, reference);
    lemma_cut_valid(h, b.0, b.1);
    let t = h.subrange(b.0, b.1);
    let w = property_span(t, field).unwrap();
    lemma_property_span(t, field);
    lemma_unescaped(v);
    law_property_reads_back(t, field, v);
    let f = field_span(h, reference, field).unwrap();
    let r = replaced(h, f.0, f.1, v);
    let grows = bytes_of(v).len() - (f.1 - f.0);
    assert(r.subrange(b.0, b.1 + grows) =~= replaced(t, w.0, w.1, v));
    assert(r.subrange(0, f.0) =~= h.subrange(0, f.0));
    assert(r.subrange(f.1 + grows, r.len() as int) =~= h.subrange(f.1, h.len() as int));
}

/// A scan stays in a string in which no quote stands.
proof fn lemma_still_quoted(u: Seq<u8>, i: int, j: int)
    requires
        0 <= i <= j <= u.len(),
        scan(u, 0, i).in_string,
        forall|k: int| i <= k < j ==> u[k] != QUOTE,
    ensures
        forall|k: int| i <= k <= j ==> (#[trigger] scan(u, 0, k)).in_string,
    decreases j - i,
{
    if i < j {
        assert(scan(u, 0, i + 1).in_string);
        lemma_still_quoted(u, i + 1, j);
    }
}

/// Behind the first, the parentheses of a field that count stand behind its name.
proof fn lemma_behind_name(u: Seq<u8>, field: Seq<char>, j: int)
    requires
        forall|k: int|
            0 <= k < u.len() && k < bytes_of(field_mark(field)).len() ==> #[trigger] u[k]
                == bytes_of(field_mark(field))[k],
        forall|k: int| 0 <= k < field.len() ==> field[k] != '"',
        0 < j < u.len(),
        u[j] == 40 || u[j] == 41,
        !scan(u, 0, j).in_string,
    ensures
        bytes_of(field_mark(field)).len() <= j,
{
    let m = bytes_of(field_mark(field));
    let f = bytes_of(field);
    lemma_field_mark(field);
    lemma_no_byte(field, '"');
    let n = f.len() as int;
    if j < m.len() {
        assert(u[j] == m[j]);
        assert(m[11 + n] == 34 && m[12 + n] == 32);
        if j < 11 {
            assert(m[j] != 40 && m[j] != 41);
        } else if j < 11 + n {
            assert forall|k: int| 11 <= k < j implies u[k] != QUOTE by {
                assert(u[k] == m[k]);
                assert(m[k] == f[k - 11]);
            }
            assert(u[0] == m[0]);
            assert(scan(u, 0, 0) == flat(0));
            assert(scan(u, 0, 1) == flat(1));
            lemma_scan_run(u, 0, 1, 10);
            assert forall|k: int| 0 <= k < 9 implies #[trigger] u.subrange(1, 10)[k] == m[k + 1] by {
                assert(u[k + 1] == m[k + 1]);
            }
            lemma_run_plain(u.subrange(1, 10), 1);
            assert(u[10] == m[10]);
            assert(scan(u, 0, 11).in_string);
            lemma_still_quoted(u, 11, j);
        }
        assert(false);
    }
}

/// A field that was moved has its new numbers where its place stands in the
/// symbol's block. The name of the field holds no quote.
pub proof fn law_moved_field_reads_back(
    h: Seq<u8>,
    reference: Seq<char>,
    field: Seq<char>,
    x: Seq<char>,
    y: Seq<char>,
    rotation: Seq<char>,
)
    requires
        valid_utf8(h),
        field_place(h, reference, field) is Some,
        forall|k: int| 0 <= k < field.len() ==> field[k] != '"',
        is_number(x),
        is_number(y),
        is_number(rotation),
    ensures
        ({
            let b = symbol_span(h, reference).unwrap();
            let f = field_place(h, reference, field).unwrap();
            let text = place_text(x, y, rotation);
            let r = replaced(h, f.0, f.1, text);
            let grows = bytes_of(text).len() - (f.1 - f.0);
            let t = r.subrange(b.0, b.1 + grows);
            at_span(t, field) matches Some(v) && {
                &&& b.0 + v.0 == f.0
                &&& words_of(text_of(t.subrange(v.0, v.1))) == seq![x, y, rotation]
            }
        }),
{
    let b = symbol_span(h, reference).unwrap();
    lemma_symbol_span(h, reference);
    lemma_cut_valid(h, b.0, b.1);
    let s = h.subrange(b.0, b.1);
    let w = at_span(s, field).unwrap();
    lemma_at_span(s, field);
    let f = field_place(h, reference, field).unwrap();
    let text = place_text(x, y, rotation);
    let n = bytes_of(text);
    let r = replaced(h, f.0, f.1, text);
    let t = r.subrange(b.0, b.1 + n.len() - (f.1 - f.0));
    assert(t =~= replaced(s, w.0, w.1, text));
    lemma_moved_block(s, field, x, y, rotation);
    let e = w.0 + n.len();
    assert(t.subrange(w.0, e) =~= n);
    lemma_place_words(x, y, rotation);
    lemma_text_of(text);
}

/// In a symbol block with new numbers for the place of a field, that place is
/// found where it was.
proof fn lemma_moved_block(
    s: Seq<u8>,
    field: Seq<char>,
    x: Seq<char>,
    y: Seq<char>,
    rotation: Seq<char>,
)
    requires
        valid_utf8(s),
        at_span(s, field) is Some,
        forall|k: int| 0 <= k < field.len() ==> field[k] != '"',
        is_number(x),
        is_number(y),
        is_number(rotation),
    ensures
        ({
            let w = at_span(s, field).unwrap();
            let text = place_text(x, y, rotation);
            at_span(replaced(s, w.0, w.1, text), field) == Some((w.0, w.0 + bytes_of(text).len()))
        }),
{
    let w = at_span(s, field).unwrap();
    let text = place_text(x, y, rotation);
    let n = bytes_of(text);
    let t = replaced(s, w.0, w.1, text);
    let at = AtText { x, y, rot: Some(rotation) };
    let b = field_block(s, field).unwrap();
    let a = block_anchor(s, b).unwrap();
    let u = s.subrange(b.0, b.1);
    let m = bytes_of(field_mark(field));
    let o = bytes_of("(at "@);
    lemma_field_block(s, field);
    lemma_field_mark(field);
    lemma_at_span(s, field);
    lemma_block_anchor(s, b);
    // The whole list is swapped for one with the new numbers.
    reveal_strlit("(at ");
    reveal_strlit(")");
    assert(")"@ =~= seq![')']);
    lemma_ascii_byte(')');
    assert(at_text(at) =~= "(at "@ + text + ")"@);
    lemma_bytes_concat("(at "@, text);
    lemma_bytes_concat("(at "@ + text, ")"@);
    let v = bytes_of(at_text(at));
    assert(v =~= o + n + seq![41u8]);
    assert(t =~= replaced(s, a.0, a.1, at_text(at))) by {
        let g = replaced(s, a.0, a.1, at_text(at));
        assert(s.subrange(0, w.0) =~= s.subrange(0, a.0) + o) by {
            assert(s.subrange(a.0, a.0 + 4) == o);
        }
        assert(s.subrange(w.1, s.len() as int) =~= seq![41u8] + s.subrange(a.1, s.len() as int));
        assert(g =~= s.subrange(0, a.0) + (o + n + seq![41u8]) + s.subrange(a.1, s.len() as int));
    }
    lemma_new_block(s, b.0, b.1, at);
    // The name is found where it was.
    let k = lemma_anchor_first(u, 0);
    law_children_are_the_direct_lists(u);
    assert(is_child(u, a.0 - b.0, a.1 - b.0));
    lemma_anchor_far(s, b, field);
    lemma_find(s, m, 0);
    assert(s.subrange(0, a.0) =~= t.subrange(0, a.0));
    lemma_same_find(s, t, m, 0, b.0, a.0);
    assert(t.subrange(a.0, a.0 + 4) =~= o);
    assert(occurs_at(t, o, a.0));
}

/// The place of a field stands behind its mark in the symbol block.
proof fn lemma_anchor_far(s: Seq<u8>, b: (int, int), field: Seq<char>)
    requires
        0 <= b.0 < b.1 <= s.len(),
        occurs_at(s, bytes_of(field_mark(field)), b.0),
        forall|k: int| 0 <= k < field.len() ==> field[k] != '"',
        block_anchor(s, b) is Some,
    ensures
        b.0 + bytes_of(field_mark(field)).len() <= block_anchor(s, b).unwrap().0,
{
    let u = s.subrange(b.0, b.1);
    let m = bytes_of(field_mark(field));
    let a = block_anchor(s, b).unwrap();
    lemma_field_mark(field);
    let k = lemma_anchor_first(u, 0);
    law_children_are_the_direct_lists(u);
    let j = a.0 - b.0;
    assert(is_child(u, j, a.1 - b.0));
    assert forall|i: int| 0 <= i < u.len() && i < m.len() implies #[trigger] u[i] == m[i] by {
        assert(s.subrange(b.0, b.0 + m.len())[i] == m[i]);
    }
    assert(scan(u, 0, 0).depth == 0);
    lemma_behind_name(u, field, j);
}

/// What is found before two texts differ is found in both.
proof fn lemma_same_find(s: Seq<u8>, t: Seq<u8>, m: Seq<u8>, from: int, i: int, c: int)
    requires
        0 <= from,
        find_at(s, m, from) == Some(i),
        0 <= i,
        i + m.len() <= c <= s.len(),
        c <= t.len(),
        s.subrange(0, c) == t.subrange(0, c),
    ensures
        find_at(t, m, from) == Some(i),
{
    lemma_find(s, m, from);
    assert forall|k: int| 0 <= k < c implies #[trigger] s[k] == t[k] by {
        assert(s.subrange(0, c)[k] == s[k]);
        assert(t.subrange(0, c)[k] == t[k]);
    }
    assert(t.subrange(i, i + m.len()) =~= s.subrange(i, i + m.len()));
    assert forall|j: int| from <= j < i implies !occurs_at(t, m, j) by {
        if occurs_at(t, m, j) {
            assert(t.subrange(j, j + m.len()) =~= s.subrange(j, j + m.len()));
            assert(occurs_at(s, m, j));
        }
    }
    lemma_find_is(t, m, from, i);
}

proof fn lemma_place_words(x: Seq<char>, y: Seq<char>, rotation: Seq<char>)
    requires
        is_number(x),
        is_number(y),
        is_number(rotation),
    ensures
        words_of(place_text(x, y, rotation)) == seq![x, y, rotation],
{
    reveal_strlit(" ");
    lemma_number_is_word(x);
    lemma_number_is_word(y);
    lemma_number_is_word(rotation);
    let s = place_text(x, y, rotation);
    let n = s.len() as int;
    let i = x.len() as int;
    let j = i + 1 + y.len();
    assert(s.subrange(0, i) =~= x);
    assert(s.subrange(i + 1, j) =~= y);
    assert(s.subrange(j + 1, n) =~= rotation);
    assert(s[i] == ' ');
    assert(s[j] == ' ');
    assert forall|k: int| 0 <= k < i implies !is_space(#[trigger] s[k]) by {
        assert(s[k] == x[k]);
        assert(!ends_head(x[k]));
    }
    lemma_word_end_is(s, 0, i);
    assert(!is_space(s[0]));
    assert(skip_space(s, 0) == 0);
    lemma_next_word(s, i, y);
    lemma_next_word(s, j, rotation);
    assert(skip_space(s, n) == n);
    assert(words_from(s, n) =~= Seq::<Seq<char>>::empty());
    assert(words_of(s) =~= seq![x, y, rotation]);
}

} // verus!
