//! Tracks and vias: writing them and finding them again by their UUID.
use crate::board::{head_in, lemma_child_head, piece};
use crate::lines::{
    block_text, node_one, node_two, quote, quoted, write_block, write_one, write_two,
};
use crate::scan::{child_spans, direct_child_spans, lemma_child_cut, spans_of};
use crate::text::{
    bytes_of, contains, cut, holds, lemma_bytes_valid, lemma_cut_ascii, opt_span, same, slice,
    span_of,
};
use crate::words::{int_chars, int_text, node_head, strings_of};
use vstd::prelude::*;
use vstd::string::*;
use vstd::utf8::*;

verus! {

// Writing
/// The parts of a track.
pub open spec fn segment_parts(
    x1: Seq<char>,
    y1: Seq<char>,
    x2: Seq<char>,
    y2: Seq<char>,
    width: Seq<char>,
    layer: Seq<char>,
    net_id: int,
    uuid: Seq<char>,
) -> Seq<Seq<char>> {
    seq![
        node_two("start"@, x1, y1),
        node_two("end"@, x2, y2),
        node_one("width"@, width),
        node_one("layer"@, quoted(layer)),
        node_one("net"@, int_chars(net_id)),
        node_one("uuid"@, quoted(uuid)),
    ]
}

/// A track as it stands in a board file.
pub open spec fn segment_text(
    x1: Seq<char>,
    y1: Seq<char>,
    x2: Seq<char>,
    y2: Seq<char>,
    width: Seq<char>,
    layer: Seq<char>,
    net_id: int,
    uuid: Seq<char>,
) -> Seq<char> {
    block_text("segment"@, segment_parts(x1, y1, x2, y2, width, layer, net_id, uuid))
}

/// A `(segment ...)` track for direct file insertion. The numbers are given as
/// they are to be written.
pub fn format_segment(
    x1: &str,
    y1: &str,
    x2: &str,
    y2: &str,
    width: &str,
    layer: &str,
    net_id: i32,
    uuid: &str,
) -> (r: String)
    ensures
        r@ == segment_text(x1@, y1@, x2@, y2@, width@, layer@, net_id as int, uuid@),
{
    let mut parts: Vec<String> = Vec::new();
    parts.push(write_two("start", x1, y1));
    parts.push(write_two("end", x2, y2));
    parts.push(write_one("width", width));
    parts.push(write_one("layer", quote(layer).as_str()));
    parts.push(write_one("net", int_text(net_id).as_str()));
    parts.push(write_one("uuid", quote(uuid).as_str()));
    assert(strings_of(parts@) =~= segment_parts(
        x1@,
        y1@,
        x2@,
        y2@,
        width@,
        layer@,
        net_id as int,
        uuid@,
    ));
    write_block("segment", &parts)
}

/// The parts of a via.
pub open spec fn via_parts(
    x: Seq<char>,
    y: Seq<char>,
    size: Seq<char>,
    drill: Seq<char>,
    net_id: int,
    uuid: Seq<char>,
) -> Seq<Seq<char>> {
    seq![
        node_two("at"@, x, y),
        node_one("size"@, size),
        node_one("drill"@, drill),
        node_two("layers"@, quoted("F.Cu"@), quoted("B.Cu"@)),
        node_one("net"@, int_chars(net_id)),
        node_one("uuid"@, quoted(uuid)),
    ]
}

/// A via as it stands in a board file.
pub open spec fn via_text(
    x: Seq<char>,
    y: Seq<char>,
    size: Seq<char>,
    drill: Seq<char>,
    net_id: int,
    uuid: Seq<char>,
) -> Seq<char> {
    block_text("via"@, via_parts(x, y, size, drill, net_id, uuid))
}

/// A through-hole `(via ...)` for direct file insertion. The numbers are given
/// as they are to be written.
pub fn format_via(x: &str, y: &str, size: &str, drill: &str, net_id: i32, uuid: &str) -> (r: String)
    ensures
        r@ == via_text(x@, y@, size@, drill@, net_id as int, uuid@),
{
    let mut parts: Vec<String> = Vec::new();
    parts.push(write_two("at", x, y));
    parts.push(write_one("size", size));
    parts.push(write_one("drill", drill));
    parts.push(write_two("layers", quote("F.Cu").as_str(), quote("B.Cu").as_str()));
    parts.push(write_one("net", int_text(net_id).as_str()));
    parts.push(write_one("uuid", quote(uuid).as_str()));
    assert(strings_of(parts@) =~= via_parts(x@, y@, size@, drill@, net_id as int, uuid@));
    write_block("via", &parts)
}

// Finding
/// What stands in the block with this UUID.
pub open spec fn uuid_mark(uuid: Seq<char>) -> Seq<char> {
    "(uuid \""@ + uuid + "\")"@
}

/// The texts of a list.
pub open spec fn heads_of(v: Seq<&str>) -> Seq<Seq<char>> {
    v.map_values(|s: &str| s@)
}

/// The first top-level block, number `k` or later, that has this head and holds
/// `mark`.
pub open spec fn headed_child(h: Seq<u8>, head: Seq<char>, mark: Seq<u8>, k: int) -> Option<
    (int, int),
>
    decreases child_spans(h).len() - k,
{
    if k < 0 || k >= child_spans(h).len() {
        None
    } else {
        let c = child_spans(h)[k];
        if head_in(h, c) == head && holds(h.subrange(c.0, c.1), mark) {
            Some(c)
        } else {
            headed_child(h, head, mark, k + 1)
        }
    }
}

/// The first block with the UUID, the heads tried in order from number `k` on.
pub open spec fn uuid_block_from(h: Seq<u8>, heads: Seq<Seq<char>>, uuid: Seq<char>, k: int) -> Option<
    (int, int),
>
    decreases heads.len() - k,
{
    if k < 0 || k >= heads.len() {
        None
    } else {
        match headed_child(h, heads[k], bytes_of(uuid_mark(uuid)), 0) {
            Some(b) => Some(b),
            None => uuid_block_from(h, heads, uuid, k + 1),
        }
    }
}

/// The span of the top-level block, with one of these heads, that has the UUID.
pub open spec fn uuid_block(h: Seq<u8>, heads: Seq<Seq<char>>, uuid: Seq<char>) -> Option<
    (int, int),
> {
    uuid_block_from(h, heads, uuid, 0)
}

/// A block that was found is one of the top-level blocks, with the head and the
/// mark, and the first such.
pub proof fn lemma_headed_child(h: Seq<u8>, head: Seq<char>, mark: Seq<u8>, k: int)
    requires
        0 <= k,
    ensures
        match headed_child(h, head, mark, k) {
            Some(b) => exists|m: int|
                k <= m < child_spans(h).len() && #[trigger] child_spans(h)[m] == b && head_in(h, b)
                    == head && holds(h.subrange(b.0, b.1), mark),
            None => forall|m: int|
                k <= m < child_spans(h).len() ==> {
                    let c = #[trigger] child_spans(h)[m];
                    !(head_in(h, c) == head && holds(h.subrange(c.0, c.1), mark))
                },
        },
    decreases child_spans(h).len() - k,
{
    if k < child_spans(h).len() {
        let c = child_spans(h)[k];
        if !(head_in(h, c) == head && holds(h.subrange(c.0, c.1), mark)) {
            lemma_headed_child(h, head, mark, k + 1);
        }
    }
}

/// A block that was found by its UUID is a top-level block that has it.
pub proof fn lemma_uuid_block(h: Seq<u8>, heads: Seq<Seq<char>>, uuid: Seq<char>, k: int) -> (m:
    int)
    requires
        0 <= k,
        uuid_block_from(h, heads, uuid, k) is Some,
    ensures
        0 <= m < child_spans(h).len(),
        child_spans(h)[m] == uuid_block_from(h, heads, uuid, k).unwrap(),
        holds(
            h.subrange(child_spans(h)[m].0, child_spans(h)[m].1),
            bytes_of(uuid_mark(uuid)),
        ),
        exists|i: int|
            k <= i < heads.len() && #[trigger] heads[i] == head_in(h, child_spans(h)[m]),
    decreases heads.len() - k,
{
    let mark = bytes_of(uuid_mark(uuid));
    lemma_headed_child(h, heads[k], mark, 0);
    match headed_child(h, heads[k], mark, 0) {
        Some(b) => {
            choose|m: int|
                0 <= m < child_spans(h).len() && #[trigger] child_spans(h)[m] == b && head_in(h, b)
                    == heads[k] && holds(h.subrange(b.0, b.1), mark)
        },
        None => lemma_uuid_block(h, heads, uuid, k + 1),
    }
}

fn find_headed_child(content: &str, spans: &Vec<(usize, usize)>, head: &str, mark: &str) -> (r:
    Option<(usize, usize)>)
    requires
        spans_of(spans@) == child_spans(bytes_of(content@)),
    ensures
        opt_span(r) == headed_child(bytes_of(content@), head@, bytes_of(mark@), 0),
{
    let ghost h = bytes_of(content@);
    proof {
        lemma_bytes_valid(content@);
    }
    let mut k: usize = 0;
    while k < spans.len()
        invariant
            h == bytes_of(content@),
            valid_utf8(h),
            spans_of(spans@) == child_spans(h),
            k <= spans@.len(),
            headed_child(h, head@, bytes_of(mark@), 0) == headed_child(
                h,
                head@,
                bytes_of(mark@),
                k as int,
            ),
        decreases spans@.len() - k,
    {
        proof {
            assert(spans_of(spans@)[k as int] == span_of(spans@[k as int]));
            lemma_child_head(h, k as int);
        }
        let (s, e): (usize, usize) = spans[k];
        let block: &str = slice(content, s, e);
        if same(node_head(block), head) && contains(block, mark) {
            return Some((s, e));
        }
        k = k + 1;
    }
    None
}

/// Find the span of the top-level block (with one of the given heads) that
/// contains `(uuid "<uuid>")`. Used to delete/modify tracks by UUID.
pub fn find_block_by_uuid(content: &str, heads: &[&str], uuid: &str) -> (r: Option<
    (usize, usize),
>)
    ensures
        opt_span(r) == uuid_block(bytes_of(content@), heads_of(heads@), uuid@),
        match r {
            Some(s) => s.0 < s.1 && piece(bytes_of(content@), s.0 as int, s.1 as int),
            None => true,
        },
{
    let ghost h = bytes_of(content@);
    let needle: String = "(uuid \"".to_owned().concat(uuid).concat("\")");
    let spans: Vec<(usize, usize)> = direct_child_spans(content);
    proof {
        lemma_bytes_valid(content@);
        if uuid_block(h, heads_of(heads@), uuid@) is Some {
            let m = lemma_uuid_block(h, heads_of(heads@), uuid@, 0);
            lemma_child_cut(h, m);
        }
    }
    let mut k: usize = 0;
    while k < heads.len()
        invariant
            h == bytes_of(content@),
            needle@ == uuid_mark(uuid@),
            spans_of(spans@) == child_spans(h),
            k <= heads@.len(),
            uuid_block(h, heads_of(heads@), uuid@) == uuid_block_from(
                h,
                heads_of(heads@),
                uuid@,
                k as int,
            ),
            uuid_block(h, heads_of(heads@), uuid@) matches Some(b) ==> b.0 < b.1 && piece(
                h,
                b.0,
                b.1,
            ),
        decreases heads@.len() - k,
    {
        let head: &str = heads[k];
        assert(heads_of(heads@)[k as int] == head@);
        match find_headed_child(content, &spans, head, needle.as_str()) {
            Some(b) => {
                return Some(b);
            },
            None => {},
        }
        k = k + 1;
    }
    None
}

// Removing
/// Where the spaces and tabs before `i` begin.
pub open spec fn blanks_before(h: Seq<u8>, i: int) -> int
    decreases i,
{
    if i > 0 && (h[i - 1] == 32 || h[i - 1] == 9) {
        blanks_before(h, i - 1)
    } else {
        i
    }
}

/// Where the line that a block at `i` stands on is to be cut: before its
/// indentation and the line break before that.
pub open spec fn line_start(h: Seq<u8>, i: int) -> int {
    let w = blanks_before(h, i);
    if w > 0 && h[w - 1] == 10 {
        w - 1
    } else {
        w
    }
}

proof fn lemma_blanks_before(h: Seq<u8>, i: int)
    requires
        valid_utf8(h),
        cut(h, i),
    ensures
        0 <= blanks_before(h, i) <= i,
        cut(h, blanks_before(h, i)),
    decreases i,
{
    if i > 0 && (h[i - 1] == 32 || h[i - 1] == 9) {
        lemma_cut_ascii(h, i - 1);
        lemma_blanks_before(h, i - 1);
    }
}

pub proof fn lemma_line_start(h: Seq<u8>, i: int)
    requires
        valid_utf8(h),
        cut(h, i),
    ensures
        0 <= line_start(h, i) <= i,
        cut(h, line_start(h, i)),
{
    lemma_blanks_before(h, i);
    let w = blanks_before(h, i);
    if w > 0 && h[w - 1] == 10 {
        lemma_cut_ascii(h, w - 1);
    }
}

/// Offset from which the block at `at` is cut out together with the
/// indentation and the line break before it.
pub fn leading_whitespace(content: &str, at: usize) -> (r: usize)
    requires
        cut(bytes_of(content@), at as int),
    ensures
        r == line_start(bytes_of(content@), at as int),
        r <= at,
        cut(bytes_of(content@), r as int),
{
    let ghost h = bytes_of(content@);
    proof {
        lemma_bytes_valid(content@);
        lemma_line_start(h, at as int);
        lemma_blanks_before(h, at as int);
    }
    let bytes = content.as_bytes();
    let mut ws: usize = at;
    while ws > 0 && (bytes[ws - 1] == 32 || bytes[ws - 1] == 9)
        invariant
            bytes@ == h,
            ws <= at <= h.len(),
            blanks_before(h, at as int) == blanks_before(h, ws as int),
        decreases ws,
    {
        ws = ws - 1;
    }
    if ws > 0 && bytes[ws - 1] == 10 {
        ws = ws - 1;
    }
    ws
}

} // verus!
