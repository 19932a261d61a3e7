//! Edits on the text of a `.kicad_pcb` file.
//!
//! All edits are targeted: they name the bytes to replace and leave every other
//! byte of the file as it is.
//!
//! Numbers are taken and given as the text that stands, or is to stand, in the
//! file: nothing here depends on what a number is worth.
use crate::edits::{apply_edits, edits_of, fits, law_single_edit, SexpEdit};
use crate::scan::{child_spans, direct_child_spans, lemma_child_cut, spans_of, OPEN};
use crate::text::{
    byte_len, bytes_of, cut, lemma_bytes_len, lemma_bytes_valid, lemma_cut_ends, lemma_cut_valid,
    lemma_first_ascii, lemma_occurs_cut, lemma_rfind, opt_span, rfind_at, rfind_within, same, slice,
    span_of, text_of,
};
use crate::words::{chars_of, head_of, node_head, strings_of, words, words_of};
use vstd::prelude::*;
use vstd::string::*;
use vstd::utf8::*;

verus! {

/// Why an edit on a board could not be worked out.
#[derive(Debug, Clone, Copy, PartialEq, Eq, Structural)]
pub enum BoardError {
    NoAnchor,
    NoValue,
    NoReference,
    NoFootprintBlock,
    Unbalanced,
    NoName,
    UnterminatedName,
}

impl BoardError {
    /// The message for a person.
    pub open spec fn text(self) -> Seq<char> {
        match self {
            BoardError::NoAnchor => "Footprint has no (at) anchor"@,
            BoardError::NoValue => "Footprint has no Value property"@,
            BoardError::NoReference => "Footprint block has no Reference property"@,
            BoardError::NoFootprintBlock => "No (footprint ...) block in .kicad_mod file"@,
            BoardError::Unbalanced => "Unbalanced .kicad_mod content"@,
            BoardError::NoName => "Footprint block has no name string"@,
            BoardError::UnterminatedName => "Unterminated footprint name"@,
        }
    }

    /// The message for a person.
    pub fn message(self) -> (r: String)
        ensures
            r@ == self.text(),
    {
        match self {
            BoardError::NoAnchor => "Footprint has no (at) anchor".to_owned(),
            BoardError::NoValue => "Footprint has no Value property".to_owned(),
            BoardError::NoReference => "Footprint block has no Reference property".to_owned(),
            BoardError::NoFootprintBlock =>
                "No (footprint ...) block in .kicad_mod file".to_owned(),
            BoardError::Unbalanced => "Unbalanced .kicad_mod content".to_owned(),
            BoardError::NoName => "Footprint block has no name string".to_owned(),
            BoardError::UnterminatedName => "Unterminated footprint name".to_owned(),
        }
    }
}

/// `(s, e)` is a piece that may be cut out of a text with the bytes `h`.
pub open spec fn piece(h: Seq<u8>, s: int, e: int) -> bool {
    s <= e && cut(h, s) && cut(h, e)
}

// Anchors
/// The head of the list at `c`.
pub open spec fn head_in(h: Seq<u8>, c: (int, int)) -> Seq<char> {
    head_of(text_of(h.subrange(c.0, c.1)))
}

/// The first child, number `k` or later, whose head is `at`.
pub open spec fn anchor_from(h: Seq<u8>, k: int) -> Option<(int, int)>
    decreases child_spans(h).len() - k,
{
    if k < 0 || k >= child_spans(h).len() {
        None
    } else if head_in(h, child_spans(h)[k]) == "at"@ {
        Some(child_spans(h)[k])
    } else {
        anchor_from(h, k + 1)
    }
}

/// The span of the `(at ...)` that places a block.
pub open spec fn anchor(h: Seq<u8>) -> Option<(int, int)> {
    anchor_from(h, 0)
}

/// A child has a head to read.
pub proof fn lemma_child_head(h: Seq<u8>, k: int)
    requires
        valid_utf8(h),
        0 <= k < child_spans(h).len(),
    ensures
        ({
            let c = child_spans(h)[k];
            let t = text_of(h.subrange(c.0, c.1));
            &&& piece(h, c.0, c.1)
            &&& valid_utf8(h.subrange(c.0, c.1))
            &&& t.len() > 0
            &&& (t[0] as u32) < 128
        }),
{
    lemma_child_cut(h, k);
    let c = child_spans(h)[k];
    lemma_cut_valid(h, c.0, c.1);
    assert(h.subrange(c.0, c.1)[0] == OPEN);
    lemma_first_ascii(h.subrange(c.0, c.1));
}

/// The anchor is one of the children.
pub proof fn lemma_anchor(h: Seq<u8>, k: int)
    requires
        0 <= k,
    ensures
        match anchor_from(h, k) {
            Some(a) => exists|m: int|
                k <= m < child_spans(h).len() && #[trigger] child_spans(h)[m] == a && head_in(h, a)
                    == "at"@,
            None => forall|m: int|
                k <= m < child_spans(h).len() ==> head_in(h, #[trigger] child_spans(h)[m]) != "at"@,
        },
    decreases child_spans(h).len() - k,
{
    if k < child_spans(h).len() && head_in(h, child_spans(h)[k]) != "at"@ {
        lemma_anchor(h, k + 1);
    }
}

/// The anchor may be cut out of its block.
pub proof fn lemma_anchor_cut(h: Seq<u8>)
    requires
        valid_utf8(h),
        anchor(h) is Some,
    ensures
        piece(h, anchor(h).unwrap().0, anchor(h).unwrap().1),
        anchor(h).unwrap().0 < anchor(h).unwrap().1,
{
    lemma_anchor(h, 0);
    let m = choose|m: int|
        0 <= m < child_spans(h).len() && #[trigger] child_spans(h)[m] == anchor(h).unwrap();
    lemma_child_cut(h, m);
}

/// Span of the block-level `(at ...)` anchor: the first depth-1 `at` child.
/// Children like pads/properties keep their own `(at ...)` one level deeper,
/// so they are not confused with the anchor.
pub fn anchor_at_span(block: &str) -> (r: Option<(usize, usize)>)
    ensures
        opt_span(r) == anchor(bytes_of(block@)),
{
    let ghost h = bytes_of(block@);
    proof {
        lemma_bytes_valid(block@);
    }
    let spans: Vec<(usize, usize)> = direct_child_spans(block);
    let mut k: usize = 0;
    while k < spans.len()
        invariant
            h == bytes_of(block@),
            valid_utf8(h),
            spans_of(spans@) == child_spans(h),
            k <= spans@.len(),
            anchor(h) == anchor_from(h, k as int),
        decreases spans@.len() - k,
    {
        proof {
            assert(spans_of(spans@)[k as int] == span_of(spans@[k as int]));
            lemma_child_head(h, k as int);
        }
        let (s, e): (usize, usize) = spans[k];
        if same(node_head(slice(block, s, e)), "at") {
            return Some((s, e));
        }
        k = k + 1;
    }
    None
}

/// The text without its leading characters `c`.
pub open spec fn strip_front(s: Seq<char>, c: char) -> Seq<char>
    decreases s.len(),
{
    if s.len() > 0 && s[0] == c {
        strip_front(s.drop_first(), c)
    } else {
        s
    }
}

/// The text without its trailing characters `c`.
pub open spec fn strip_back(s: Seq<char>, c: char) -> Seq<char>
    decreases s.len(),
{
    if s.len() > 0 && s.last() == c {
        strip_back(s.drop_last(), c)
    } else {
        s
    }
}

/// The text without the words `at` at its front.
pub open spec fn strip_at(s: Seq<char>) -> Seq<char>
    decreases s.len(),
{
    if s.len() >= 2 && s[0] == 'a' && s[1] == 't' {
        strip_at(s.subrange(2, s.len() as int))
    } else {
        s
    }
}

/// The numbers of `(at x y [rot])`, as they are written.
pub open spec fn at_numbers(s: Seq<char>) -> Seq<Seq<char>> {
    words_of(strip_back(strip_at(strip_front(s, '(')), ')'))
}

/// The numbers of `(at x y [rot])`, as they are written.
pub fn at_words(at_node: &str) -> (r: Vec<String>)
    ensures
        strings_of(r@) == at_numbers(at_node@),
{
    let cs: Vec<char> = chars_of(at_node);
    let n: usize = cs.len();
    let ghost s = at_node@;
    let mut a: usize = 0;
    assert(s.subrange(0, n as int) =~= s);
    while a < n && cs[a] == '('
        invariant
            cs@ == s,
            n == s.len(),
            a <= n,
            strip_front(s, '(') == strip_front(s.subrange(a as int, n as int), '('),
        decreases n - a,
    {
        assert(s.subrange(a as int, n as int).drop_first() =~= s.subrange(a + 1, n as int));
        a = a + 1;
    }
    let ghost u = strip_front(s, '(');
    assert(u == s.subrange(a as int, n as int));
    while n - a >= 2 && cs[a] == 'a' && cs[a + 1] == 't'
        invariant
            cs@ == s,
            n == s.len(),
            a <= n,
            strip_at(u) == strip_at(s.subrange(a as int, n as int)),
        decreases n - a,
    {
        assert(s.subrange(a as int, n as int).subrange(2, n - a) =~= s.subrange(
            a + 2,
            n as int,
        ));
        a = a + 2;
    }
    let ghost v = strip_at(u);
    assert(v == s.subrange(a as int, n as int));
    let mut b: usize = n;
    while b > a && cs[b - 1] == ')'
        invariant
            cs@ == s,
            n == s.len(),
            a <= b <= n,
            strip_back(v, ')') == strip_back(s.subrange(a as int, b as int), ')'),
        decreases b,
    {
        assert(s.subrange(a as int, b as int).drop_last() =~= s.subrange(a as int, b - 1));
        b = b - 1;
    }
    words(at_node.substring_char(a, b))
}

/// A place on the board: `x`, `y` and the angle, each as it is to be written;
/// no angle where it is zero.
pub struct At {
    pub x: String,
    pub y: String,
    pub rot: Option<String>,
}

/// A place as plain text.
pub struct AtText {
    pub x: Seq<char>,
    pub y: Seq<char>,
    pub rot: Option<Seq<char>>,
}

impl View for At {
    type V = AtText;

    open spec fn view(&self) -> AtText {
        AtText {
            x: self.x@,
            y: self.y@,
            rot: match self.rot {
                Some(r) => Some(r@),
                None => None,
            },
        }
    }
}

/// `(at x y)` or `(at x y rot)`.
pub open spec fn at_text(a: AtText) -> Seq<char> {
    match a.rot {
        Some(r) => "(at "@ + a.x + " "@ + a.y + " "@ + r + ")"@,
        None => "(at "@ + a.x + " "@ + a.y + ")"@,
    }
}

/// `(at x y)` or `(at x y rot)`.
pub fn format_at(a: &At) -> (r: String)
    ensures
        r@ == at_text(a@),
{
    let start: String = "(at ".to_owned().concat(a.x.as_str()).concat(" ").concat(a.y.as_str());
    match &a.rot {
        Some(rot) => start.concat(" ").concat(rot.as_str()).concat(")"),
        None => start.concat(")"),
    }
}

/// The places of a list.
pub open spec fn places_of(v: Seq<At>) -> Seq<AtText> {
    v.map_values(|a: At| a@)
}

// Whole board
/// Where something is added to a board: before its last closing parenthesis,
/// or at the end of a text that has none.
pub open spec fn close_of(h: Seq<u8>) -> int {
    match rfind_at(h, bytes_of(")"@), h.len() - bytes_of(")"@).len()) {
        Some(i) => i,
        None => h.len() as int,
    }
}

/// The text with `t` put in at `i`.
pub open spec fn inserted(h: Seq<u8>, i: int, t: Seq<char>) -> Seq<u8> {
    h.subrange(0, i) + bytes_of(t) + h.subrange(i, h.len() as int)
}

/// The text with the bytes from `a` to `b` replaced by `t`.
pub open spec fn replaced(h: Seq<u8>, a: int, b: int, t: Seq<char>) -> Seq<u8> {
    h.subrange(0, a) + bytes_of(t) + h.subrange(b, h.len() as int)
}

pub proof fn lemma_close_of(h: Seq<u8>)
    requires
        valid_utf8(h),
    ensures
        cut(h, close_of(h)),
{
    let p = bytes_of(")"@);
    reveal_strlit(")");
    assert(")"@ =~= seq![')']);
    lemma_bytes_valid(")"@);
    lemma_bytes_len(")"@);
    lemma_rfind(h, p, h.len() - p.len());
    lemma_cut_ends(h);
    match rfind_at(h, p, h.len() - p.len()) {
        Some(i) => {
            lemma_occurs_cut(h, p, i);
        },
        None => {},
    }
}

/// Offset before the last closing parenthesis of a board.
pub fn board_close(content: &str) -> (r: usize)
    ensures
        r == close_of(bytes_of(content@)),
        cut(bytes_of(content@), r as int),
{
    proof {
        lemma_bytes_valid(content@);
        lemma_close_of(bytes_of(content@));
    }
    let n: usize = byte_len(content);
    match rfind_within(content, ")", n) {
        Some(i) => i,
        None => n,
    }
}

/// Carry out one edit.
pub fn apply_one(content: String, edit: SexpEdit) -> (r: String)
    requires
        fits(bytes_of(content@), edit@),
    ensures
        bytes_of(r@) == replaced(bytes_of(content@), edit@.start, edit@.end, edit@.text),
{
    let mut edits: Vec<SexpEdit> = Vec::new();
    edits.push(edit);
    proof {
        assert(edits_of(edits@) =~= seq![edit@]);
        law_single_edit(bytes_of(content@), edit@);
    }
    apply_edits(content, edits)
}

/// Insert `sexp` before the board file's final closing paren.
pub fn append_to_board(content: String, sexp: String) -> (r: String)
    ensures
        bytes_of(r@) == inserted(bytes_of(content@), close_of(bytes_of(content@)), sexp@),
{
    let close: usize = board_close(content.as_str());
    apply_one(content, SexpEdit::insert(close, sexp))
}

/// What is appended to a board leaves the rest as it was, before and behind it.
pub proof fn law_append_keeps_the_rest(h: Seq<u8>, t: Seq<char>)
    requires
        valid_utf8(h),
    ensures
        ({
            let c = close_of(h);
            let r = inserted(h, c, t);
            &&& r.len() == h.len() + bytes_of(t).len()
            &&& r.subrange(0, c) == h.subrange(0, c)
            &&& r.subrange(c, c + bytes_of(t).len()) == bytes_of(t)
            &&& r.subrange(c + bytes_of(t).len(), r.len() as int) == h.subrange(c, h.len() as int)
        }),
{
    lemma_close_of(h);
    let c = close_of(h);
    let n = bytes_of(t).len();
    let r = inserted(h, c, t);
    assert(r.subrange(0, c) =~= h.subrange(0, c));
    assert(r.subrange(c, c + n) =~= bytes_of(t));
    assert(r.subrange(c + n, r.len() as int) =~= h.subrange(c, h.len() as int));
}

} // verus!
