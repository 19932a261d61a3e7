//! Copper on a board file: tracks, vias, zones and net classes.
use crate::answer::{error_answer, Answer, CallToolResult};
use crate::board::{append_to_board, apply_one, board_close, close_of, inserted, piece, replaced};
use crate::edits::{apply_edits, edited, edits_of, Edit, SexpEdit};
use crate::lines::{
    block_text, node_one, node_two, quote, quoted, write_block, write_one, write_two,
};
use crate::nets::{find_net_id, lacks_net, net_id, net_missing, require_file_net_id};
use crate::text::{
    byte_len, bytes_of, contains, cut, find_at, find_from, holds, lemma_bytes_concat,
    lemma_bytes_len, lemma_bytes_valid, lemma_cut_ascii, lemma_find, lemma_find_is,
    lemma_occurs_cut, occurs_at, slice,
};
use crate::tracks::{
    find_block_by_uuid, format_segment, format_via, heads_of, leading_whitespace, line_start,
    segment_text, uuid_block, via_text,
};
use crate::words::{int_chars, int_text, strings_of};
use vstd::prelude::*;
use vstd::string::*;
use vstd::utf8::*;

verus! {

/// The bytes of the board that came out, or the answer that says why not.
pub open spec fn board_outcome(r: Result<String, CallToolResult>) -> Result<Seq<u8>, Answer> {
    match r {
        Ok(s) => Ok(bytes_of(s@)),
        Err(a) => Err(a@),
    }
}

/// The board with `t` added before its last closing parenthesis.
pub open spec fn appended(h: Seq<u8>, t: Seq<char>) -> Seq<u8> {
    inserted(h, close_of(h), t)
}

// Points and tracks
/// A point, its coordinates as they are to be written.
pub struct Point {
    pub x: String,
    pub y: String,
}

/// A point as plain text.
pub struct PointText {
    pub x: Seq<char>,
    pub y: Seq<char>,
}

impl View for Point {
    type V = PointText;

    open spec fn view(&self) -> PointText {
        PointText { x: self.x@, y: self.y@ }
    }
}

/// The points of a list.
pub open spec fn points_of(v: Seq<Point>) -> Seq<PointText> {
    v.map_values(|p: Point| p@)
}

/// A track from one point to another.
pub open spec fn track_text(
    from: PointText,
    to: PointText,
    width: Seq<char>,
    layer: Seq<char>,
    net: int,
    uuid: Seq<char>,
) -> Seq<char> {
    segment_text(from.x, from.y, to.x, to.y, width, layer, net, uuid)
}

fn format_track(from: &Point, to: &Point, width: &str, layer: &str, net_id: i32, uuid: &str) -> (r:
    String)
    ensures
        r@ == track_text(from@, to@, width@, layer@, net_id as int, uuid@),
{
    format_segment(
        from.x.as_str(),
        from.y.as_str(),
        to.x.as_str(),
        to.y.as_str(),
        width,
        layer,
        net_id,
        uuid,
    )
}

/// Route a trace segment between two points on a copper layer of the board
/// file.
pub fn route_trace(
    content: String,
    net_name: &str,
    layer: &str,
    from: &Point,
    to: &Point,
    width: &str,
    uuid: &str,
) -> (r: Result<String, CallToolResult>)
    ensures
        board_outcome(r) == (if lacks_net(bytes_of(content@), net_name@) {
            Err(error_answer(net_missing(net_name@)))
        } else {
            Ok(
                appended(
                    bytes_of(content@),
                    track_text(
                        from@,
                        to@,
                        width@,
                        layer@,
                        net_id(bytes_of(content@), net_name@),
                        uuid@,
                    ),
                ),
            )
        }),
{
    match require_file_net_id(content.as_str(), net_name) {
        Ok(id) => Ok(
            append_to_board(content, format_track(from, to, width, layer, id, uuid)),
        ),
        Err(e) => Err(e),
    }
}

/// Where a route between two pads bends: nowhere if they are in line, else
/// where it has gone all the way along x.
pub open spec fn bend_of(from: PointText, to: PointText, in_line: bool) -> Option<PointText> {
    if in_line {
        None
    } else {
        Some(PointText { x: to.x, y: from.y })
    }
}

/// Where a route between two pads bends.
pub fn route_bend(from: &Point, to: &Point, in_line: bool) -> (r: Option<Point>)
    ensures
        bend_of(from@, to@, in_line) == (match r {
            Some(p) => Some(p@),
            None => None,
        }),
{
    if in_line {
        None
    } else {
        Some(Point { x: to.x.as_str().to_owned(), y: from.y.as_str().to_owned() })
    }
}

/// The tracks between two pads: one where they are in line, else two with a
/// bend between them.
pub open spec fn pad_route_text(
    from: PointText,
    to: PointText,
    in_line: bool,
    width: Seq<char>,
    layer: Seq<char>,
    net: int,
    uuid: Seq<char>,
    bend_uuid: Seq<char>,
) -> Seq<char> {
    match bend_of(from, to, in_line) {
        None => track_text(from, to, width, layer, net, uuid),
        Some(bend) => track_text(from, bend, width, layer, net, uuid) + track_text(
            bend,
            to,
            width,
            layer,
            net,
            bend_uuid,
        ),
    }
}

/// Route a direct trace between two pads (L-bend routing). `in_line` says that
/// the two lie on one horizontal or vertical line.
pub fn route_pad_to_pad(
    content: String,
    net_name: &str,
    layer: &str,
    from: &Point,
    to: &Point,
    in_line: bool,
    width: &str,
    uuid: &str,
    bend_uuid: &str,
) -> (r: Result<String, CallToolResult>)
    ensures
        board_outcome(r) == (if lacks_net(bytes_of(content@), net_name@) {
            Err(error_answer(net_missing(net_name@)))
        } else {
            Ok(
                appended(
                    bytes_of(content@),
                    pad_route_text(
                        from@,
                        to@,
                        in_line,
                        width@,
                        layer@,
                        net_id(bytes_of(content@), net_name@),
                        uuid@,
                        bend_uuid@,
                    ),
                ),
            )
        }),
{
    match require_file_net_id(content.as_str(), net_name) {
        Ok(id) => {
            let segments: String = match route_bend(from, to, in_line) {
                None => format_track(from, to, width, layer, id, uuid),
                Some(bend) => {
                    let first: String = format_track(from, &bend, width, layer, id, uuid);
                    let second: String = format_track(&bend, to, width, layer, id, bend_uuid);
                    first.concat(second.as_str())
                },
            };
            Ok(append_to_board(content, segments))
        },
        Err(e) => Err(e),
    }
}

/// The outcome of routing a differential pair.
pub open spec fn pair_routed(
    h: Seq<u8>,
    net_pos: Seq<char>,
    net_neg: Seq<char>,
    layer: Seq<char>,
    pos: (PointText, PointText),
    neg: (PointText, PointText),
    width: Seq<char>,
    pos_uuid: Seq<char>,
    neg_uuid: Seq<char>,
) -> Result<Seq<u8>, Answer> {
    if lacks_net(h, net_pos) {
        Err(error_answer(net_missing(net_pos)))
    } else if lacks_net(h, net_neg) {
        Err(error_answer(net_missing(net_neg)))
    } else {
        Ok(
            appended(
                h,
                track_text(pos.0, pos.1, width, layer, net_id(h, net_pos), pos_uuid) + track_text(
                    neg.0,
                    neg.1,
                    width,
                    layer,
                    net_id(h, net_neg),
                    neg_uuid,
                ),
            ),
        )
    }
}

/// Route a differential pair: two parallel traces, each between two points of
/// its own.
pub fn route_diff_pair(
    content: String,
    net_pos: &str,
    net_neg: &str,
    layer: &str,
    pos: (&Point, &Point),
    neg: (&Point, &Point),
    width: &str,
    pos_uuid: &str,
    neg_uuid: &str,
) -> (r: Result<String, CallToolResult>)
    ensures
        board_outcome(r) == pair_routed(
            bytes_of(content@),
            net_pos@,
            net_neg@,
            layer@,
            (pos.0@, pos.1@),
            (neg.0@, neg.1@),
            width@,
            pos_uuid@,
            neg_uuid@,
        ),
{
    let pos_id: i32 = match require_file_net_id(content.as_str(), net_pos) {
        Ok(id) => id,
        Err(e) => {
            return Err(e);
        },
    };
    let neg_id: i32 = match require_file_net_id(content.as_str(), net_neg) {
        Ok(id) => id,
        Err(e) => {
            return Err(e);
        },
    };
    let first: String = format_track(pos.0, pos.1, width, layer, pos_id, pos_uuid);
    let second: String = format_track(neg.0, neg.1, width, layer, neg_id, neg_uuid);
    Ok(append_to_board(content, first.concat(second.as_str())))
}

/// Add a through-hole via to the board file.
pub fn add_via(
    content: String,
    net_name: &str,
    at: &Point,
    drill: &str,
    pad_size: &str,
    uuid: &str,
) -> (r: Result<String, CallToolResult>)
    ensures
        board_outcome(r) == (if lacks_net(bytes_of(content@), net_name@) {
            Err(error_answer(net_missing(net_name@)))
        } else {
            Ok(
                appended(
                    bytes_of(content@),
                    via_text(
                        at@.x,
                        at@.y,
                        pad_size@,
                        drill@,
                        net_id(bytes_of(content@), net_name@),
                        uuid@,
                    ),
                ),
            )
        }),
{
    match require_file_net_id(content.as_str(), net_name) {
        Ok(id) => Ok(
            append_to_board(
                content,
                format_via(at.x.as_str(), at.y.as_str(), pad_size, drill, id, uuid),
            ),
        ),
        Err(e) => Err(e),
    }
}

// Zones
/// The corners of a zone, from number `k` on.
pub open spec fn corners_text(pts: Seq<PointText>, k: int) -> Seq<char>
    decreases pts.len() - k,
{
    if k < 0 || k >= pts.len() {
        seq![]
    } else {
        "\n      "@ + node_two("xy"@, pts[k].x, pts[k].y) + corners_text(pts, k + 1)
    }
}

/// What a zone says on its first line.
pub open spec fn zone_head(net: int, net_name: Seq<char>, layer: Seq<char>, uuid: Seq<char>) -> Seq<
    char,
> {
    "zone"@ + " "@ + node_one("net"@, int_chars(net)) + " "@ + node_one(
        "net_name"@,
        quoted(net_name),
    ) + " "@ + node_one("layer"@, quoted(layer)) + " "@ + node_one("uuid"@, quoted(uuid))
}

/// The polygon of a zone.
pub open spec fn polygon_text(pts: Seq<PointText>) -> Seq<char> {
    node_one("polygon"@, "("@ + ("pts"@ + corners_text(pts, 0) + "\n    "@) + ")"@)
}

/// What a zone says on its further lines.
pub open spec fn zone_parts(clearance: Seq<char>, min_w: Seq<char>, pts: Seq<PointText>) -> Seq<
    Seq<char>,
> {
    seq![
        node_two("hatch"@, "edge"@, "0.508"@),
        node_one("connect_pads"@, node_one("clearance"@, clearance)),
        node_one("min_thickness"@, min_w),
        node_one("fill"@, "yes"@),
        polygon_text(pts),
    ]
}

/// A zone as it stands in a board file.
pub open spec fn zone_text(
    net: int,
    net_name: Seq<char>,
    layer: Seq<char>,
    clearance: Seq<char>,
    min_w: Seq<char>,
    pts: Seq<PointText>,
    uuid: Seq<char>,
) -> Seq<char> {
    block_text(zone_head(net, net_name, layer, uuid), zone_parts(clearance, min_w, pts))
}

fn write_polygon(pts: &Vec<Point>) -> (r: String)
    ensures
        r@ == polygon_text(points_of(pts@)),
{
    let ghost texts = points_of(pts@);
    let mut corners: String = String::new();
    let mut k: usize = 0;
    assert(corners@ + corners_text(texts, 0) =~= corners_text(texts, 0));
    while k < pts.len()
        invariant
            texts == points_of(pts@),
            k <= pts@.len(),
            corners@ + corners_text(texts, k as int) == corners_text(texts, 0),
        decreases pts@.len() - k,
    {
        let ghost before = corners@;
        assert(texts[k as int] == pts@[k as int]@);
        corners.append("\n      ");
        corners.append(write_two("xy", pts[k].x.as_str(), pts[k].y.as_str()).as_str());
        assert(corners@ + corners_text(texts, k + 1) =~= before + corners_text(texts, k as int));
        k = k + 1;
    }
    assert(corners@ =~= corners_text(texts, 0));
    let inner: String = "pts".to_owned().concat(corners.as_str()).concat("\n    ");
    write_one("polygon", "(".to_owned().concat(inner.as_str()).concat(")").as_str())
}

/// A `(zone ...)` for direct file insertion.
pub fn format_zone(
    net_id: i32,
    net_name: &str,
    layer: &str,
    clearance: &str,
    min_w: &str,
    pts: &Vec<Point>,
    uuid: &str,
) -> (r: String)
    ensures
        r@ == zone_text(
            net_id as int,
            net_name@,
            layer@,
            clearance@,
            min_w@,
            points_of(pts@),
            uuid@,
        ),
{
    let net: String = write_one("net", int_text(net_id).as_str());
    let name: String = write_one("net_name", quote(net_name).as_str());
    let on: String = write_one("layer", quote(layer).as_str());
    let id: String = write_one("uuid", quote(uuid).as_str());
    let head: String = "zone".to_owned().concat(" ").concat(net.as_str()).concat(" ").concat(
        name.as_str(),
    ).concat(" ").concat(on.as_str()).concat(" ").concat(id.as_str());
    let mut parts: Vec<String> = Vec::new();
    parts.push(write_two("hatch", "edge", "0.508"));
    parts.push(write_one("connect_pads", write_one("clearance", clearance).as_str()));
    parts.push(write_one("min_thickness", min_w));
    parts.push(write_one("fill", "yes"));
    parts.push(write_polygon(pts));
    assert(strings_of(parts@) =~= zone_parts(clearance@, min_w@, points_of(pts@)));
    write_block(head.as_str(), &parts)
}

/// Add a copper fill zone polygon on a layer/net of the board file. A net that
/// the board does not have counts as net 0.
pub fn add_copper_pour(
    content: String,
    net_name: &str,
    layer: &str,
    clearance: &str,
    min_w: &str,
    pts: &Vec<Point>,
    uuid: &str,
) -> (r: Result<String, CallToolResult>)
    ensures
        board_outcome(r) == (if pts@.len() < 3 {
            Err(error_answer("Zone requires at least 3 points"@))
        } else {
            Ok(
                appended(
                    bytes_of(content@),
                    zone_text(
                        net_id(bytes_of(content@), net_name@),
                        net_name@,
                        layer@,
                        clearance@,
                        min_w@,
                        points_of(pts@),
                        uuid@,
                    ),
                ),
            )
        }),
{
    if pts.len() < 3 {
        return Err(CallToolResult::error("Zone requires at least 3 points".to_owned()));
    }
    let id: i32 = find_net_id(content.as_str(), net_name);
    let zone: String = format_zone(id, net_name, layer, clearance, min_w, pts, uuid);
    Ok(append_to_board(content, zone))
}

// Deleting and changing tracks
/// The heads of the blocks that are tracks.
pub open spec fn track_heads() -> Seq<Seq<char>> {
    seq!["segment"@, "via"@, "arc"@]
}

/// What is said of a track that a board does not have.
pub open spec fn track_missing(uuid: Seq<char>) -> Seq<char> {
    "No track segment, via, or arc with uuid '"@ + uuid + "' found"@
}

/// The span of the track with this UUID, with the indentation before it.
pub open spec fn track_lines(h: Seq<u8>, uuid: Seq<char>) -> Option<(int, int)> {
    match uuid_block(h, track_heads(), uuid) {
        Some(b) => Some((line_start(h, b.0), b.1)),
        None => None,
    }
}

/// The span of the track with this UUID, with the indentation before it.
fn find_track_lines(content: &str, uuid: &str) -> (r: Result<(usize, usize), CallToolResult>)
    ensures
        match r {
            Ok(s) => {
                &&& track_lines(bytes_of(content@), uuid@) == Some((s.0 as int, s.1 as int))
                &&& piece(bytes_of(content@), s.0 as int, s.1 as int)
            },
            Err(a) => a@ == error_answer(track_missing(uuid@)) && track_lines(
                bytes_of(content@),
                uuid@,
            ) is None,
        },
{
    let heads: [&str; 3] = ["segment", "via", "arc"];
    let found: Option<(usize, usize)> = find_block_by_uuid(content, heads.as_slice(), uuid);
    assert(heads_of(heads@) =~= track_heads());
    match found {
        Some((s, e)) => Ok((leading_whitespace(content, s), e)),
        None => Err(
            CallToolResult::error(
                "No track segment, via, or arc with uuid '".to_owned().concat(uuid).concat(
                    "' found",
                ),
            ),
        ),
    }
}

/// Delete a trace segment (or via/arc) identified by its UUID from the board
/// file.
pub fn delete_trace(content: String, uuid: &str) -> (r: Result<String, CallToolResult>)
    ensures
        board_outcome(r) == (match track_lines(bytes_of(content@), uuid@) {
            Some(s) => Ok(replaced(bytes_of(content@), s.0, s.1, Seq::empty())),
            None => Err(error_answer(track_missing(uuid@))),
        }),
{
    match find_track_lines(content.as_str(), uuid) {
        Ok((ws, we)) => Ok(apply_one(content, SexpEdit::delete(ws, we))),
        Err(e) => Err(e),
    }
}

/// The outcome of changing a track.
pub open spec fn track_changed(
    h: Seq<u8>,
    uuid: Seq<char>,
    net_name: Seq<char>,
    layer: Seq<char>,
    from: PointText,
    to: PointText,
    width: Seq<char>,
    new_uuid: Seq<char>,
) -> Result<Seq<u8>, Answer> {
    if lacks_net(h, net_name) {
        Err(error_answer(net_missing(net_name)))
    } else {
        match track_lines(h, uuid) {
            None => Err(error_answer(track_missing(uuid))),
            Some(s) => Ok(
                edited(
                    h,
                    seq![
                        Edit { start: s.0, end: s.1, text: Seq::empty() },
                        Edit {
                            start: close_of(h),
                            end: close_of(h),
                            text: track_text(from, to, width, layer, net_id(h, net_name), new_uuid),
                        },
                    ],
                ),
            ),
        }
    }
}

/// Modify a trace segment of the board file by deleting it and adding one with
/// the new parameters at the end of the board.
pub fn modify_trace(
    content: String,
    uuid: &str,
    net_name: &str,
    layer: &str,
    from: &Point,
    to: &Point,
    width: &str,
    new_uuid: &str,
) -> (r: Result<String, CallToolResult>)
    ensures
        board_outcome(r) == track_changed(
            bytes_of(content@),
            uuid@,
            net_name@,
            layer@,
            from@,
            to@,
            width@,
            new_uuid@,
        ),
{
    let id: i32 = match require_file_net_id(content.as_str(), net_name) {
        Ok(id) => id,
        Err(e) => {
            return Err(e);
        },
    };
    let (ws, we): (usize, usize) = match find_track_lines(content.as_str(), uuid) {
        Ok(s) => s,
        Err(e) => {
            return Err(e);
        },
    };
    let segment: String = format_track(from, to, width, layer, id, new_uuid);
    let close: usize = board_close(content.as_str());
    let mut edits: Vec<SexpEdit> = Vec::new();
    edits.push(SexpEdit::delete(ws, we));
    edits.push(SexpEdit::insert(close, segment));
    proof {
        let h = bytes_of(content@);
        assert(edits_of(edits@) =~= seq![
            Edit { start: ws as int, end: we as int, text: Seq::empty() },
            Edit {
                start: close_of(h),
                end: close_of(h),
                text: track_text(from@, to@, width@, layer@, net_id(h, net_name@), new_uuid@),
            },
        ]);
    }
    Ok(apply_edits(content, edits))
}

// Net classes
/// A net class as it stands in a board file.
pub open spec fn netclass_text(
    name: Seq<char>,
    clearance: Seq<char>,
    trace_width: Seq<char>,
    via_drill: Seq<char>,
    via_dia: Seq<char>,
) -> Seq<char> {
    "\n      (netclass \""@ + name + "\"\n        (clearance "@ + clearance
        + ")\n        (trace_width "@ + trace_width + ")\n        (via_drill "@ + via_drill
        + ")\n        (via_diameter "@ + via_dia + ")\n      )"@
}

/// Where a new net class goes: to the end of the `(net_classes` block, which is
/// taken to be the first line with a lone parenthesis behind it, else the first
/// parenthesis, else the last byte; without such a block to the end of the
/// board.
pub open spec fn netclass_place(h: Seq<u8>) -> int {
    match find_at(h, bytes_of("(net_classes"@), 0) {
        None => close_of(h),
        Some(p) => match find_at(h, bytes_of("\n    )"@), p) {
            Some(i) => i,
            None => match find_at(h, bytes_of(")"@), p) {
                Some(i) => i,
                None => h.len() - 1,
            },
        },
    }
}

/// Where a new net class goes.
pub fn netclass_offset(content: &str) -> (r: usize)
    ensures
        r == netclass_place(bytes_of(content@)),
        r <= bytes_of(content@).len(),
{
    let ghost h = bytes_of(content@);
    let n: usize = byte_len(content);
    proof {
        lemma_bytes_valid(content@);
        reveal_strlit("(net_classes");
        lemma_bytes_len("(net_classes"@);
        lemma_find(h, bytes_of("(net_classes"@), 0);
    }
    match find_from(content, "(net_classes", 0) {
        None => board_close(content),
        Some(p) => {
            proof {
                lemma_find(h, bytes_of("\n    )"@), p as int);
                lemma_find(h, bytes_of(")"@), p as int);
            }
            match find_from(content, "\n    )", p) {
                Some(i) => i,
                None => match find_from(content, ")", p) {
                    Some(i) => i,
                    None => n - 1,
                },
            }
        },
    }
}

/// Add a netclass definition to the board's design rules. The place where it
/// goes must not lie inside a character, see `netclass_offset`.
pub fn create_netclass(
    content: String,
    name: &str,
    clearance: &str,
    trace_width: &str,
    via_drill: &str,
    via_dia: &str,
) -> (r: String)
    requires
        cut(bytes_of(content@), netclass_place(bytes_of(content@))),
    ensures
        bytes_of(r@) == inserted(
            bytes_of(content@),
            netclass_place(bytes_of(content@)),
            netclass_text(name@, clearance@, trace_width@, via_drill@, via_dia@),
        ),
{
    let at: usize = netclass_offset(content.as_str());
    let text: String = "\n      (netclass \"".to_owned().concat(name).concat(
        "\"\n        (clearance ",
    ).concat(clearance).concat(")\n        (trace_width ").concat(trace_width).concat(
        ")\n        (via_drill ",
    ).concat(via_drill).concat(")\n        (via_diameter ").concat(via_dia).concat(")\n      )");
    apply_one(content, SexpEdit::insert(at, text))
}

/// Where the parentheses that opened from `start` on are closed again, counted
/// at `i` with `depth` of them open. Quotes mean nothing here.
pub open spec fn paren_end(h: Seq<u8>, i: int, depth: int) -> Option<int>
    decreases h.len() - i,
{
    if i < 0 || i >= h.len() {
        None
    } else if h[i] == 40 {
        paren_end(h, i + 1, depth + 1)
    } else if h[i] == 41 {
        if depth == 1 {
            Some(i)
        } else {
            paren_end(h, i + 1, depth - 1)
        }
    } else {
        paren_end(h, i + 1, depth)
    }
}

pub proof fn lemma_paren_end(h: Seq<u8>, i: int, depth: int)
    requires
        0 <= i,
    ensures
        match paren_end(h, i, depth) {
            Some(e) => i <= e < h.len() && h[e] == 41,
            None => true,
        },
    decreases h.len() - i,
{
    if i < h.len() {
        if h[i] == 40 {
            lemma_paren_end(h, i + 1, depth + 1);
        } else if h[i] == 41 {
            if depth != 1 {
                lemma_paren_end(h, i + 1, depth - 1);
            }
        } else {
            lemma_paren_end(h, i + 1, depth);
        }
    }
}

/// Offset of the parenthesis that closes the one at `start`.
pub fn find_paren_end(content: &str, start: usize) -> (r: Option<usize>)
    requires
        start < bytes_of(content@).len(),
        bytes_of(content@)[start as int] == 40,
    ensures
        match r {
            Some(e) => {
                &&& paren_end(bytes_of(content@), start as int, 0) == Some(e as int)
                &&& start < e < bytes_of(content@).len()
                &&& cut(bytes_of(content@), e as int)
                &&& cut(bytes_of(content@), e + 1)
            },
            None => paren_end(bytes_of(content@), start as int, 0) is None,
        },
{
    let ghost h = bytes_of(content@);
    proof {
        lemma_bytes_valid(content@);
        lemma_paren_end(h, start as int, 0);
        if paren_end(h, start as int, 0) is Some {
            lemma_cut_ascii(h, paren_end(h, start as int, 0).unwrap());
        }
    }
    let n: usize = byte_len(content);
    let bytes = content.as_bytes();
    let mut depth: usize = 1;
    let mut i: usize = start + 1;
    while i < n
        invariant
            bytes@ == h,
            h == bytes_of(content@),
            valid_utf8(h),
            n == h.len(),
            start < i <= n,
            1 <= depth <= i - start,
            paren_end(h, start as int, 0) == paren_end(h, i as int, depth as int),
        decreases n - i,
    {
        let b: u8 = bytes[i];
        if b == 40 {
            depth = depth + 1;
        } else if b == 41 {
            if depth == 1 {
                proof {
                    lemma_cut_ascii(h, i as int);
                }
                return Some(i);
            }
            depth = depth - 1;
        }
        i = i + 1;
    }
    None
}

/// What stands at the front of a net class.
pub open spec fn netclass_mark(netclass: Seq<char>) -> Seq<char> {
    "(netclass \""@ + netclass + "\""@
}

/// A net in a net class.
pub open spec fn class_net(net_name: Seq<char>) -> Seq<char> {
    "(net \""@ + net_name + "\")"@
}

/// Where the first net class `netclass` begins and where it is closed; one that
/// is never closed ends where it begins.
pub open spec fn class_span(h: Seq<u8>, netclass: Seq<char>) -> Option<(int, int)> {
    match find_at(h, bytes_of(netclass_mark(netclass)), 0) {
        None => None,
        Some(p) => Some(
            (
                p,
                match paren_end(h, p, 0) {
                    Some(e) => e,
                    None => p,
                },
            ),
        ),
    }
}

/// What an assignment to a net class came to.
pub enum Assignment {
    /// The net is in the class already; nothing changes.
    AlreadyAssigned,
    /// The new board.
    Assigned(String),
}

/// The outcome of an assignment: the new board, or nothing to change.
pub open spec fn assignment_outcome(r: Result<Assignment, CallToolResult>) -> Result<
    Option<Seq<u8>>,
    Answer,
> {
    match r {
        Ok(Assignment::AlreadyAssigned) => Ok(None),
        Ok(Assignment::Assigned(s)) => Ok(Some(bytes_of(s@))),
        Err(a) => Err(a@),
    }
}

/// The outcome of assigning a net to a net class.
pub open spec fn assigned(h: Seq<u8>, net_name: Seq<char>, netclass: Seq<char>) -> Result<
    Option<Seq<u8>>,
    Answer,
> {
    match class_span(h, netclass) {
        None => Err(error_answer("Netclass '"@ + netclass + "' not found in board file"@)),
        Some(c) => if holds(h.subrange(c.0, c.1), bytes_of(class_net(net_name))) {
            Ok(None)
        } else {
            Ok(Some(inserted(h, c.1, "\n        (net \""@ + net_name + "\")"@)))
        },
    }
}

proof fn lemma_netclass_mark(netclass: Seq<char>)
    ensures
        valid_utf8(bytes_of(netclass_mark(netclass))),
        bytes_of(netclass_mark(netclass)).len() > 0,
        bytes_of(netclass_mark(netclass))[0] == 40,
{
    reveal_strlit("(netclass \"");
    is_ascii_chars_encode_utf8("(netclass \""@);
    lemma_bytes_valid(netclass_mark(netclass));
    assert(netclass_mark(netclass) =~= "(netclass \""@ + (netclass + "\""@));
    lemma_bytes_concat("(netclass \""@, netclass + "\""@);
    assert(bytes_of("(netclass \""@)[0] == "(netclass \""@[0] as u8);
}

/// Assign a net to an existing netclass in the board file.
pub fn assign_net_to_class(content: String, net_name: &str, netclass: &str) -> (r: Result<
    Assignment,
    CallToolResult,
>)
    ensures
        assignment_outcome(r) == assigned(bytes_of(content@), net_name@, netclass@),
{
    let ghost h = bytes_of(content@);
    let pat: String = "(netclass \"".to_owned().concat(netclass).concat("\"");
    proof {
        lemma_bytes_valid(content@);
        lemma_netclass_mark(netclass@);
        lemma_find(h, bytes_of(pat@), 0);
    }
    let start: usize = match find_from(content.as_str(), pat.as_str(), 0) {
        Some(p) => p,
        None => {
            return Err(
                CallToolResult::error(
                    "Netclass '".to_owned().concat(netclass).concat("' not found in board file"),
                ),
            );
        },
    };
    proof {
        lemma_occurs_cut(h, bytes_of(pat@), start as int);
        assert(h.subrange(start as int, start + bytes_of(pat@).len())[0] == h[start as int]);
    }
    let end: usize = match find_paren_end(content.as_str(), start) {
        Some(e) => e,
        None => start,
    };
    let check: String = "(net \"".to_owned().concat(net_name).concat("\")");
    if contains(slice(content.as_str(), start, end), check.as_str()) {
        return Ok(Assignment::AlreadyAssigned);
    }
    let entry: String = "\n        (net \"".to_owned().concat(net_name).concat("\")");
    Ok(Assignment::Assigned(apply_one(content, SexpEdit::insert(end, entry))))
}

// Laws
/// Bytes that are no parentheses are passed over.
pub proof fn lemma_paren_skip(h: Seq<u8>, i: int, j: int, depth: int)
    requires
        0 <= i <= j <= h.len(),
        forall|k: int| i <= k < j ==> h[k] != 40 && h[k] != 41,
    ensures
        paren_end(h, i, depth) == paren_end(h, j, depth),
    decreases j - i,
{
    if i < j {
        lemma_paren_skip(h, i + 1, j, depth);
    }
}

/// Where one text is closed, another that is the same up to there has one
/// parenthesis open.
proof fn lemma_paren_same(h: Seq<u8>, r: Seq<u8>, i: int, depth: int, e: int)
    requires
        0 <= i,
        paren_end(h, i, depth) == Some(e),
        e <= r.len(),
        forall|k: int| 0 <= k < e ==> r[k] == h[k],
    ensures
        i <= e < h.len(),
        paren_end(r, i, depth) == paren_end(r, e, 1),
    decreases h.len() - i,
{
    lemma_paren_end(h, i, depth);
    if i < e {
        assert(r[i] == h[i]);
        if h[i] == 40 {
            lemma_paren_same(h, r, i + 1, depth + 1, e);
        } else if h[i] == 41 {
            lemma_paren_same(h, r, i + 1, depth - 1, e);
        } else {
            lemma_paren_same(h, r, i + 1, depth, e);
        }
    } else if depth != 1 {
        lemma_paren_end(h, i + 1, depth - 1);
    }
}

/// How many more parentheses open than close among the first `k` bytes.
pub open spec fn level(b: Seq<u8>, k: int) -> int
    decreases k,
{
    if k <= 0 {
        0
    } else if b[k - 1] == 40 {
        level(b, k - 1) + 1
    } else if b[k - 1] == 41 {
        level(b, k - 1) - 1
    } else {
        level(b, k - 1)
    }
}

/// As many parentheses open as close in the text, and it closes at most one
/// that it did not open.
pub open spec fn parens_even_out(s: Seq<char>) -> bool {
    let b = bytes_of(s);
    level(b, b.len() as int) == 0 && forall|k: int|
        0 <= k <= b.len() ==> #[trigger] level(b, k) >= -1
}

/// Parentheses that leave some open are passed over.
proof fn lemma_paren_run(r: Seq<u8>, i: int, b: Seq<u8>, k: int, depth: int)
    requires
        0 <= i,
        0 <= k <= b.len(),
        i + b.len() <= r.len(),
        r.subrange(i, i + b.len()) == b,
        forall|m: int| 0 <= m <= k ==> depth + #[trigger] level(b, m) >= 1,
    ensures
        paren_end(r, i, depth) == paren_end(r, i + k, depth + level(b, k)),
    decreases k,
{
    if k > 0 {
        lemma_paren_run(r, i, b, k - 1, depth);
        assert(r.subrange(i, i + b.len())[k - 1] == r[i + k - 1]);
        assert(depth + level(b, k) >= 1);
    }
}

/// The new entry of a net is passed over as a whole.
proof fn lemma_entry_closed(r: Seq<u8>, e: int, net_name: Seq<char>)
    requires
        parens_even_out(net_name),
        0 <= e,
        e + bytes_of("\n        (net \""@ + net_name + "\")"@).len() <= r.len(),
        r.subrange(e, e + bytes_of("\n        (net \""@ + net_name + "\")"@).len()) == bytes_of(
            "\n        (net \""@ + net_name + "\")"@,
        ),
    ensures
        paren_end(r, e, 1) == paren_end(
            r,
            e + bytes_of("\n        (net \""@ + net_name + "\")"@).len(),
            1,
        ),
{
    let a = bytes_of("\n        (net \""@);
    let b = bytes_of(net_name);
    let z = bytes_of("\")"@);
    let t = bytes_of("\n        (net \""@ + net_name + "\")"@);
    reveal_strlit("\n        (net \"");
    reveal_strlit("\")");
    is_ascii_chars_encode_utf8("\n        (net \""@);
    is_ascii_chars_encode_utf8("\")"@);
    lemma_bytes_concat("\n        (net \""@, net_name);
    lemma_bytes_concat("\n        (net \""@ + net_name, "\")"@);
    assert(a.len() == 15 && z.len() == 2);
    assert(t =~= a + b + z);
    assert forall|k: int| 0 <= k < t.len() implies r[e + k] == #[trigger] t[k] by {
        assert(r.subrange(e, e + t.len())[k] == t[k]);
    }
    assert forall|k: int| 0 <= k < 15 implies r[e + k] == #[trigger] a[k] by {
        assert(r[e + k] == t[k]);
    }
    let n = b.len() as int;
    assert(forall|k: int| 0 <= k < 15 && k != 9 ==> a[k] != 40 && #[trigger] a[k] != 41);
    assert(a[9] == 40);
    assert forall|k: int| e <= k < e + 15 && k != e + 9 implies r[k] != 40 && r[k] != 41 by {
        assert(r[e + (k - e)] == a[k - e]);
    }
    lemma_paren_skip(r, e, e + 9, 1);
    assert(r[e + 9] == a[9]);
    lemma_paren_skip(r, e + 10, e + 15, 2);
    assert(r.subrange(e + 15, e + 15 + n) =~= b) by {
        assert forall|k: int| 0 <= k < n implies #[trigger] r.subrange(e + 15, e + 15 + n)[k]
            == b[k] by {
            assert(r[e + (15 + k)] == t[15 + k]);
        }
    }
    lemma_paren_run(r, e + 15, b, n, 2);
    assert(r[e + (15 + n)] == t[15 + n]);
    assert(t[15 + n] == z[0]);
    assert(r[e + (16 + n)] == t[16 + n]);
    assert(t[16 + n] == z[1]);
    assert(paren_end(r, e + 15 + n, 2) == paren_end(r, e + 16 + n, 2));
    assert(paren_end(r, e + 16 + n, 2) == paren_end(r, e + 17 + n, 1));
}

/// Assigning a net to a class that is closed behind its name puts it there: done
/// a second time, it finds the net assigned and changes nothing. The
/// parentheses in the name of the net must even out, as they are counted.
pub proof fn law_assigning_twice_changes_nothing(
    h: Seq<u8>,
    net_name: Seq<char>,
    netclass: Seq<char>,
)
    requires
        parens_even_out(net_name),
        class_span(h, netclass) matches Some(c) && c.0 + bytes_of(netclass_mark(netclass)).len()
            <= c.1,
        assigned(h, net_name, netclass) matches Ok(Some(r)),
    ensures
        assigned(assigned(h, net_name, netclass)->Ok_0.unwrap(), net_name, netclass) == Ok::<
            Option<Seq<u8>>,
            Answer,
        >(None),
{
    let (p, e) = class_span(h, netclass).unwrap();
    let m = bytes_of(netclass_mark(netclass));
    let entry = "\n        (net \""@ + net_name + "\")"@;
    let t = bytes_of(entry);
    let r = inserted(h, e, entry);
    let check = bytes_of(class_net(net_name));
    lemma_netclass_mark(netclass);
    lemma_find(h, m, 0);
    lemma_paren_end(h, p, 0);
    assert(paren_end(h, p, 0) == Some(e));
    // The mark stands in the new text where it stood.
    assert(r.subrange(p, p + m.len()) =~= h.subrange(p, p + m.len()));
    assert forall|j: int| 0 <= j < p implies !occurs_at(r, m, j) by {
        if occurs_at(r, m, j) {
            assert(r.subrange(j, j + m.len()) =~= h.subrange(j, j + m.len()));
            assert(occurs_at(h, m, j));
        }
    }
    lemma_find_is(r, m, 0, p);
    // The class is closed behind the new entry.
    lemma_paren_same(h, r, p, 0, e);
    assert(r.subrange(e, e + t.len()) =~= t);
    lemma_entry_closed(r, e, net_name);
    let q = e + t.len();
    assert(r[q] == h[e]);
    assert(class_span(r, netclass) == Some((p, q)));
    // The net is found inside.
    reveal_strlit("\n        (net \"");
    reveal_strlit("\n        ");
    reveal_strlit("(net \"");
    let lead = "\n        "@;
    assert(entry =~= lead + class_net(net_name));
    lemma_bytes_concat(lead, class_net(net_name));
    let block = r.subrange(p, q);
    let o = e + bytes_of(lead).len();
    assert(block.subrange(o - p, o - p + check.len()) =~= check) by {
        assert(r.subrange(e, q).subrange(o - e, q - e) =~= block.subrange(o - p, q - p));
    }
    lemma_find(block, check, 0);
    assert(occurs_at(block, check, o - p));
}

/// The class that takes a net ends behind it.
pub proof fn lemma_class_grows(h: Seq<u8>, net_name: Seq<char>, netclass: Seq<char>)
    requires
        parens_even_out(net_name),
        class_span(h, netclass) matches Some(c) && c.0 + bytes_of(netclass_mark(netclass)).len()
            <= c.1,
    ensures
        ({
            let c = class_span(h, netclass).unwrap();
            let entry = "\n        (net \""@ + net_name + "\")"@;
            let r = inserted(h, c.1, entry);
            &&& 0 <= c.0 <= c.1 < h.len()
            &&& class_span(r, netclass) == Some((c.0, c.1 + bytes_of(entry).len()))
        }),
{
    let (p, e) = class_span(h, netclass).unwrap();
    let m = bytes_of(netclass_mark(netclass));
    let entry = "\n        (net \""@ + net_name + "\")"@;
    let t = bytes_of(entry);
    let r = inserted(h, e, entry);
    lemma_netclass_mark(netclass);
    lemma_find(h, m, 0);
    lemma_paren_end(h, p, 0);
    assert(paren_end(h, p, 0) == Some(e));
    assert(r.subrange(p, p + m.len()) =~= h.subrange(p, p + m.len()));
    assert forall|j: int| 0 <= j < p implies !occurs_at(r, m, j) by {
        if occurs_at(r, m, j) {
            assert(r.subrange(j, j + m.len()) =~= h.subrange(j, j + m.len()));
            assert(occurs_at(h, m, j));
        }
    }
    lemma_find_is(r, m, 0, p);
    lemma_paren_same(h, r, p, 0, e);
    assert(r.subrange(e, e + t.len()) =~= t);
    lemma_entry_closed(r, e, net_name);
    let q = e + t.len();
    assert(r[q] == h[e]);
}

/// A net class that was created is found: nets can be assigned to it.
pub proof fn law_created_class_takes_nets(
    h: Seq<u8>,
    name: Seq<char>,
    clearance: Seq<char>,
    trace_width: Seq<char>,
    via_drill: Seq<char>,
    via_dia: Seq<char>,
    net_name: Seq<char>,
)
    requires
        cut(h, netclass_place(h)),
    ensures
        assigned(
            inserted(
                h,
                netclass_place(h),
                netclass_text(name, clearance, trace_width, via_drill, via_dia),
            ),
            net_name,
            name,
        ) is Ok,
{
    let text = netclass_text(name, clearance, trace_width, via_drill, via_dia);
    let mark = netclass_mark(name);
    let i = netclass_place(h);
    let r = inserted(h, i, text);
    let rest = "\n        (clearance "@ + clearance + ")\n        (trace_width "@ + trace_width
        + ")\n        (via_drill "@ + via_drill + ")\n        (via_diameter "@ + via_dia
        + ")\n      )"@;
    reveal_strlit("\n      (netclass \"");
    reveal_strlit("\n      ");
    reveal_strlit("(netclass \"");
    reveal_strlit("\"");
    reveal_strlit("\"\n        (clearance ");
    reveal_strlit("\n        (clearance ");
    let front = "\n      "@;
    assert("\"\n        (clearance "@ =~= "\""@ + "\n        (clearance "@);
    assert("\n      (netclass \""@ =~= front + "(netclass \""@);
    assert(text =~= front + mark + rest);
    lemma_bytes_concat(front, mark);
    lemma_bytes_concat(front + mark, rest);
    let a = i + bytes_of(front).len();
    let m = bytes_of(mark);
    assert(r.subrange(a, a + m.len()) =~= m);
    assert(occurs_at(r, m, a));
    lemma_find(r, m, 0);
}

} // verus!
