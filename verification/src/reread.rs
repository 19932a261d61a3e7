//! What was added to a board is read back from it.
use crate::grammar::{
    items, law_appending_keeps_a_board_parsing, lemma_items_join, lemma_items_lead,
    lemma_items_list, lemma_items_space, lemma_items_then, lemma_items_word,
};
use crate::lines::{
    each_one, lemma_block_text, lemma_node_one, lemma_node_two, lemma_quoted, needs_no_escape,
    node_one, node_two, quoted,
};
use crate::nets::net_entry;
use crate::numbers::{
    all_digits, digits_end, is_decimal, is_digit, is_number, lemma_nat_chars, power_ends,
    same_letters, small,
};
use crate::parser::{parsed, SexpError};
use crate::reading::{board_nets, board_traces, net_of, nets_of, trace_of, traces_of, TraceText};
use crate::routing::{
    appended, corners_text, pad_route_text, polygon_text, track_text, zone_head, zone_parts,
    zone_text, PointText,
};
use crate::text::{bytes_of, text_of};
use crate::tracks::{segment_parts, segment_text, via_parts, via_text};
use crate::tree::{child, child_from, children, children_tagged, tagged, Tree};
use crate::words::{ends_head, int_chars, is_space, is_word, nat_chars};
use vstd::prelude::*;
use vstd::string::*;

verus! {

// Boards
/// The text parses as a list.
pub open spec fn is_board(s: Seq<char>) -> bool {
    parsed(s) matches Ok(t) && t is List
}

/// The board `r` is the board `s` with one more node behind its others.
pub open spec fn gains(s: Seq<char>, r: Seq<char>, n: Tree) -> bool {
    parsed(r) == Ok::<Tree, SexpError>(Tree::List(children(parsed(s)->Ok_0).push(n)))
}

/// A text that says one node adds it to a board.
pub proof fn lemma_gains(s: Seq<char>, x: Seq<char>, n: Tree)
    requires
        is_board(s),
        items(x) == Some(seq![n]),
        x.len() > 0,
        ends_head(x[0]),
    ensures
        gains(s, text_of(appended(bytes_of(s), x)), n),
{
    law_appending_keeps_a_board_parsing(s, x);
    let v = children(parsed(s)->Ok_0);
    assert(v + seq![n] =~= v.push(n));
}

proof fn lemma_tagged_push(v: Seq<Tree>, n: Tree, tag: Seq<char>)
    ensures
        children_tagged(Tree::List(v.push(n)), tag) == if tagged(n, tag) {
            children_tagged(Tree::List(v), tag).push(n)
        } else {
            children_tagged(Tree::List(v), tag)
        },
{
    let p = |c: Tree| tagged(c, tag);
    assert(v.push(n).drop_last() =~= v);
    reveal(Seq::filter);
}

// Numbers are words
proof fn lemma_digits_end(s: Seq<char>, i: int)
    requires
        0 <= i <= s.len(),
    ensures
        i <= digits_end(s, i) <= s.len(),
        forall|k: int| i <= k < digits_end(s, i) ==> is_digit(#[trigger] s[k]),
    decreases s.len() - i,
{
    if i < s.len() && is_digit(s[i]) {
        lemma_digits_end(s, i + 1);
    }
}

/// A character that numbers are written with.
spec fn in_numbers(c: char) -> bool {
    is_digit(c) || c == '.' || c == '+' || c == '-' || 'a' <= c <= 'z' || 'A' <= c <= 'Z'
}

proof fn lemma_power(s: Seq<char>, j: int)
    requires
        0 <= j <= s.len(),
        power_ends(s, j),
    ensures
        forall|k: int| j <= k < s.len() ==> in_numbers(#[trigger] s[k]),
{
    if j < s.len() {
        let k = if j + 1 < s.len() && (s[j + 1] == '+' || s[j + 1] == '-') {
            j + 2
        } else {
            j + 1
        };
        lemma_digits_end(s, k);
    }
}

proof fn lemma_decimal(s: Seq<char>)
    requires
        is_decimal(s),
    ensures
        s.len() > 0,
        forall|k: int| 0 <= k < s.len() ==> in_numbers(#[trigger] s[k]),
{
    let i = digits_end(s, 0);
    lemma_digits_end(s, 0);
    if i < s.len() && s[i] == '.' {
        lemma_digits_end(s, i + 1);
        lemma_power(s, digits_end(s, i + 1));
    } else {
        lemma_power(s, i);
    }
}

proof fn lemma_letters(s: Seq<char>, t: Seq<char>)
    requires
        same_letters(s, t),
        forall|k: int| 0 <= k < t.len() ==> 'a' <= #[trigger] t[k] <= 'z',
    ensures
        forall|k: int| 0 <= k < s.len() ==> in_numbers(#[trigger] s[k]),
{
    assert forall|k: int| 0 <= k < s.len() implies in_numbers(#[trigger] s[k]) by {
        assert(small(s[k]) == t[k]);
    }
}

/// A number is a word.
pub proof fn lemma_number_is_word(s: Seq<char>)
    requires
        is_number(s),
    ensures
        is_word(s),
{
    let d = if s.len() > 0 && (s[0] == '-' || s[0] == '+') {
        s.drop_first()
    } else {
        s
    };
    reveal_strlit("inf");
    reveal_strlit("infinity");
    reveal_strlit("nan");
    if is_decimal(d) {
        lemma_decimal(d);
    } else if same_letters(d, "inf"@) {
        lemma_letters(d, "inf"@);
    } else if same_letters(d, "infinity"@) {
        lemma_letters(d, "infinity"@);
    } else {
        lemma_letters(d, "nan"@);
    }
    assert forall|k: int| 0 <= k < s.len() implies !ends_head(#[trigger] s[k]) by {
        if d.len() == s.len() {
            assert(in_numbers(d[k]));
        } else if k > 0 {
            assert(in_numbers(d[k - 1]));
        }
    }
}

proof fn lemma_all_digits(s: Seq<char>, i: int)
    requires
        0 <= i <= s.len(),
        all_digits(s),
    ensures
        digits_end(s, i) == s.len(),
    decreases s.len() - i,
{
    if i < s.len() {
        assert(is_digit(s[i]));
        lemma_all_digits(s, i + 1);
    }
}

/// A whole number that was printed is a number.
pub proof fn lemma_int_is_number(i: int)
    ensures
        is_number(int_chars(i)),
{
    let n = if i < 0 {
        -i
    } else {
        i
    };
    lemma_nat_chars(n);
    let d = nat_chars(n);
    lemma_all_digits(d, 0);
    assert(is_decimal(d));
    if i < 0 {
        assert(int_chars(i).drop_first() =~= d);
    } else {
        assert(is_digit(d[0]));
    }
}

// Nets
/// The node that declares a net.
pub open spec fn net_node(id: int, name: Seq<char>) -> Tree {
    Tree::List(seq![Tree::Atom("net"@), Tree::Atom(int_chars(id)), Tree::Str(name)])
}

proof fn lemma_net_entry(id: int, name: Seq<char>)
    requires
        needs_no_escape(name),
    ensures
        items(net_entry(id, name)) == Some(seq![net_node(id, name)]),
        net_entry(id, name).len() > 0,
        ends_head(net_entry(id, name)[0]),
{
    reveal_strlit("\n  (net ");
    reveal_strlit("\n  ");
    reveal_strlit("(");
    reveal_strlit("net");
    reveal_strlit(" ");
    reveal_strlit(" \"");
    reveal_strlit("\"");
    reveal_strlit(")");
    reveal_strlit("\")");
    let w = "\n  "@;
    let list = node_two("net"@, int_chars(id), quoted(name));
    assert(net_entry(id, name) =~= w + list);
    assert forall|k: int| 0 <= k < w.len() implies is_space(w[k]) by {}
    lemma_items_lead(w, list);
    lemma_int_is_number(id);
    lemma_number_is_word(int_chars(id));
    lemma_items_word(int_chars(id));
    lemma_quoted(name);
    lemma_node_two("net"@, int_chars(id), quoted(name));
    assert(seq![Tree::Atom("net"@)] + seq![Tree::Atom(int_chars(id))] + seq![Tree::Str(name)]
        =~= seq![Tree::Atom("net"@), Tree::Atom(int_chars(id)), Tree::Str(name)]);
}

proof fn lemma_nets_same(a: Seq<Tree>, b: Seq<Tree>, k: int)
    requires
        k <= a.len(),
        k <= b.len(),
        forall|i: int| 0 <= i < k ==> a[i] == b[i],
    ensures
        nets_of(a, k) == nets_of(b, k),
    decreases k,
{
    if k > 0 {
        lemma_nets_same(a, b, k - 1);
    }
}

/// A net that was added to a board is the last one in the list of its nets, and
/// nothing else of the board has changed.
pub proof fn law_added_net_is_listed(s: Seq<char>, id: int, name: Seq<char>)
    requires
        is_board(s),
        needs_no_escape(name),
    ensures
        ({
            let r = text_of(appended(bytes_of(s), net_entry(id, name)));
            &&& gains(s, r, net_node(id, name))
            &&& board_nets(parsed(r)->Ok_0) == board_nets(parsed(s)->Ok_0).push(
                (int_chars(id), name),
            )
        }),
{
    lemma_net_entry(id, name);
    let n = net_node(id, name);
    lemma_gains(s, net_entry(id, name), n);
    let v = children(parsed(s)->Ok_0);
    lemma_tagged_push(v, n, "net"@);
    let a = children_tagged(Tree::List(v), "net"@);
    lemma_nets_same(a, a.push(n), a.len() as int);
    lemma_int_is_number(id);
    assert(net_of(n) == Some((int_chars(id), name)));
}

// Tracks, vias and zones
/// A list of a word and one text.
pub open spec fn pair(tag: Seq<char>, a: Tree) -> Tree {
    Tree::List(seq![Tree::Atom(tag), a])
}

/// A list of a word and two texts.
pub open spec fn triple(tag: Seq<char>, a: Tree, b: Tree) -> Tree {
    Tree::List(seq![Tree::Atom(tag), a, b])
}

proof fn lemma_pair(tag: Seq<char>, x: Seq<char>, a: Tree)
    requires
        is_word(tag),
        items(x) == Some(seq![a]),
    ensures
        items(node_one(tag, x)) == Some(seq![pair(tag, a)]),
{
    lemma_node_one(tag, x);
    assert(seq![Tree::Atom(tag)] + seq![a] =~= seq![Tree::Atom(tag), a]);
}

proof fn lemma_triple(tag: Seq<char>, x: Seq<char>, y: Seq<char>, a: Tree, b: Tree)
    requires
        is_word(tag),
        items(x) == Some(seq![a]),
        items(y) == Some(seq![b]),
    ensures
        items(node_two(tag, x, y)) == Some(seq![triple(tag, a, b)]),
{
    lemma_node_two(tag, x, y);
    assert(seq![Tree::Atom(tag)] + seq![a] + seq![b] =~= seq![Tree::Atom(tag), a, b]);
}

proof fn lemma_number_item(s: Seq<char>)
    requires
        is_number(s),
    ensures
        items(s) == Some(seq![Tree::Atom(s)]),
{
    lemma_number_is_word(s);
    lemma_items_word(s);
}

proof fn lemma_tags()
    ensures
        is_word("segment"@),
        is_word("via"@),
        is_word("zone"@),
        is_word("start"@),
        is_word("end"@),
        is_word("width"@),
        is_word("layer"@),
        is_word("net"@),
        is_word("uuid"@),
        is_word("at"@),
        is_word("size"@),
        is_word("drill"@),
        is_word("layers"@),
{
    reveal_strlit("segment");
    reveal_strlit("via");
    reveal_strlit("zone");
    reveal_strlit("start");
    reveal_strlit("end");
    reveal_strlit("width");
    reveal_strlit("layer");
    reveal_strlit("net");
    reveal_strlit("uuid");
    reveal_strlit("at");
    reveal_strlit("size");
    reveal_strlit("drill");
    reveal_strlit("layers");
}

/// The node of a track.
pub open spec fn segment_node(
    x1: Seq<char>,
    y1: Seq<char>,
    x2: Seq<char>,
    y2: Seq<char>,
    width: Seq<char>,
    layer: Seq<char>,
    net_id: int,
    uuid: Seq<char>,
) -> Tree {
    Tree::List(
        seq![
            Tree::Atom("segment"@),
            triple("start"@, Tree::Atom(x1), Tree::Atom(y1)),
            triple("end"@, Tree::Atom(x2), Tree::Atom(y2)),
            pair("width"@, Tree::Atom(width)),
            pair("layer"@, Tree::Str(layer)),
            pair("net"@, Tree::Atom(int_chars(net_id))),
            pair("uuid"@, Tree::Str(uuid)),
        ],
    )
}

proof fn lemma_segment_text(
    x1: Seq<char>,
    y1: Seq<char>,
    x2: Seq<char>,
    y2: Seq<char>,
    width: Seq<char>,
    layer: Seq<char>,
    net_id: int,
    uuid: Seq<char>,
)
    requires
        is_number(x1),
        is_number(y1),
        is_number(x2),
        is_number(y2),
        is_number(width),
        needs_no_escape(layer),
        needs_no_escape(uuid),
    ensures
        ({
            let x = segment_text(x1, y1, x2, y2, width, layer, net_id, uuid);
            &&& items(x) == Some(
                seq![segment_node(x1, y1, x2, y2, width, layer, net_id, uuid)],
            )
            &&& x.len() > 0
            &&& ends_head(x[0])
        }),
{
    lemma_tags();
    lemma_number_item(x1);
    lemma_number_item(y1);
    lemma_number_item(x2);
    lemma_number_item(y2);
    lemma_number_item(width);
    lemma_int_is_number(net_id);
    lemma_number_item(int_chars(net_id));
    lemma_quoted(layer);
    lemma_quoted(uuid);
    lemma_triple("start"@, x1, y1, Tree::Atom(x1), Tree::Atom(y1));
    lemma_triple("end"@, x2, y2, Tree::Atom(x2), Tree::Atom(y2));
    lemma_pair("width"@, width, Tree::Atom(width));
    lemma_pair("layer"@, quoted(layer), Tree::Str(layer));
    lemma_pair("net"@, int_chars(net_id), Tree::Atom(int_chars(net_id)));
    lemma_pair("uuid"@, quoted(uuid), Tree::Str(uuid));
    lemma_items_word("segment"@);
    let n = segment_node(x1, y1, x2, y2, width, layer, net_id, uuid);
    let nodes = children(n).drop_first();
    let parts = segment_parts(x1, y1, x2, y2, width, layer, net_id, uuid);
    assert(each_one(parts, nodes));
    lemma_block_text("segment"@, parts, nodes);
    assert(seq![Tree::Atom("segment"@)] + nodes =~= children(n));
}

/// The node of a via.
pub open spec fn via_node(
    x: Seq<char>,
    y: Seq<char>,
    size: Seq<char>,
    drill: Seq<char>,
    net_id: int,
    uuid: Seq<char>,
) -> Tree {
    Tree::List(
        seq![
            Tree::Atom("via"@),
            triple("at"@, Tree::Atom(x), Tree::Atom(y)),
            pair("size"@, Tree::Atom(size)),
            pair("drill"@, Tree::Atom(drill)),
            triple("layers"@, Tree::Str("F.Cu"@), Tree::Str("B.Cu"@)),
            pair("net"@, Tree::Atom(int_chars(net_id))),
            pair("uuid"@, Tree::Str(uuid)),
        ],
    )
}

proof fn lemma_via_text(
    x: Seq<char>,
    y: Seq<char>,
    size: Seq<char>,
    drill: Seq<char>,
    net_id: int,
    uuid: Seq<char>,
)
    requires
        is_number(x),
        is_number(y),
        is_number(size),
        is_number(drill),
        needs_no_escape(uuid),
    ensures
        items(via_text(x, y, size, drill, net_id, uuid)) == Some(
            seq![via_node(x, y, size, drill, net_id, uuid)],
        ),
        via_text(x, y, size, drill, net_id, uuid).len() > 0,
        ends_head(via_text(x, y, size, drill, net_id, uuid)[0]),
{
    lemma_tags();
    reveal_strlit("F.Cu");
    reveal_strlit("B.Cu");
    lemma_number_item(x);
    lemma_number_item(y);
    lemma_number_item(size);
    lemma_number_item(drill);
    lemma_int_is_number(net_id);
    lemma_number_item(int_chars(net_id));
    lemma_quoted("F.Cu"@);
    lemma_quoted("B.Cu"@);
    lemma_quoted(uuid);
    lemma_triple("at"@, x, y, Tree::Atom(x), Tree::Atom(y));
    lemma_pair("size"@, size, Tree::Atom(size));
    lemma_pair("drill"@, drill, Tree::Atom(drill));
    lemma_triple(
        "layers"@,
        quoted("F.Cu"@),
        quoted("B.Cu"@),
        Tree::Str("F.Cu"@),
        Tree::Str("B.Cu"@),
    );
    lemma_pair("net"@, int_chars(net_id), Tree::Atom(int_chars(net_id)));
    lemma_pair("uuid"@, quoted(uuid), Tree::Str(uuid));
    lemma_items_word("via"@);
    let n = via_node(x, y, size, drill, net_id, uuid);
    let nodes = children(n).drop_first();
    let parts = via_parts(x, y, size, drill, net_id, uuid);
    assert(each_one(parts, nodes));
    lemma_block_text("via"@, parts, nodes);
    assert(seq![Tree::Atom("via"@)] + nodes =~= children(n));
}

proof fn lemma_traces_same(a: Seq<Tree>, b: Seq<Tree>, k: int)
    requires
        k <= a.len(),
        k <= b.len(),
        forall|i: int| 0 <= i < k ==> a[i] == b[i],
    ensures
        traces_of(a, k) == traces_of(b, k),
    decreases k,
{
    if k > 0 {
        lemma_traces_same(a, b, k - 1);
    }
}

proof fn lemma_segment_fields(
    x1: Seq<char>,
    y1: Seq<char>,
    x2: Seq<char>,
    y2: Seq<char>,
    width: Seq<char>,
    layer: Seq<char>,
    net_id: int,
    uuid: Seq<char>,
)
    requires
        is_number(x1),
        is_number(y1),
        is_number(x2),
        is_number(y2),
        is_number(width),
    ensures
        trace_of(segment_node(x1, y1, x2, y2, width, layer, net_id, uuid)) == Some(
            TraceText {
                layer,
                net: Some(int_chars(net_id)),
                width: Some(width),
                x1,
                y1,
                x2,
                y2,
                uuid,
            },
        ),
        tagged(segment_node(x1, y1, x2, y2, width, layer, net_id, uuid), "segment"@),
{
    reveal_strlit("segment");
    reveal_strlit("start");
    reveal_strlit("end");
    reveal_strlit("width");
    reveal_strlit("layer");
    reveal_strlit("net");
    reveal_strlit("uuid");
    lemma_int_is_number(net_id);
    assert("start"@[0] == 's' && "width"@[0] == 'w' && "layer"@[0] == 'l');
    assert("end"@[0] == 'e' && "net"@[0] == 'n');
    let t = segment_node(x1, y1, x2, y2, width, layer, net_id, uuid);
    let v = children(t);
    reveal_with_fuel(child_from, 8);
    assert(child(t, "start"@) == Some(v[1]));
    assert(child(t, "end"@) == Some(v[2]));
    assert(child(t, "width"@) == Some(v[3]));
    assert(child(t, "layer"@) == Some(v[4]));
    assert(child(t, "net"@) == Some(v[5]));
    assert(child(t, "uuid"@) == Some(v[6]));
}

/// A track that was routed is the last one of the tracks of the board, with the
/// ends, width, layer, net and identity it was given, and nothing else of the
/// board has changed.
pub proof fn law_routed_trace_is_read(
    s: Seq<char>,
    from: PointText,
    to: PointText,
    width: Seq<char>,
    layer: Seq<char>,
    net: int,
    uuid: Seq<char>,
)
    requires
        is_board(s),
        is_number(from.x),
        is_number(from.y),
        is_number(to.x),
        is_number(to.y),
        is_number(width),
        needs_no_escape(layer),
        needs_no_escape(uuid),
    ensures
        ({
            let r = text_of(
                appended(bytes_of(s), track_text(from, to, width, layer, net, uuid)),
            );
            &&& gains(
                s,
                r,
                segment_node(from.x, from.y, to.x, to.y, width, layer, net, uuid),
            )
            &&& board_traces(parsed(r)->Ok_0) == board_traces(parsed(s)->Ok_0).push(
                TraceText {
                    layer,
                    net: Some(int_chars(net)),
                    width: Some(width),
                    x1: from.x,
                    y1: from.y,
                    x2: to.x,
                    y2: to.y,
                    uuid,
                },
            )
        }),
{
    let n = segment_node(from.x, from.y, to.x, to.y, width, layer, net, uuid);
    lemma_segment_text(from.x, from.y, to.x, to.y, width, layer, net, uuid);
    lemma_segment_fields(from.x, from.y, to.x, to.y, width, layer, net, uuid);
    lemma_gains(s, track_text(from, to, width, layer, net, uuid), n);
    let v = children(parsed(s)->Ok_0);
    lemma_tagged_push(v, n, "segment"@);
    let a = children_tagged(Tree::List(v), "segment"@);
    lemma_traces_same(a, a.push(n), a.len() as int);
}

/// The node of a track between two points.
pub open spec fn track_node(
    from: PointText,
    to: PointText,
    width: Seq<char>,
    layer: Seq<char>,
    net: int,
    uuid: Seq<char>,
) -> Tree {
    segment_node(from.x, from.y, to.x, to.y, width, layer, net, uuid)
}

/// The coordinates of a point are numbers.
pub open spec fn numbered_point(p: PointText) -> bool {
    is_number(p.x) && is_number(p.y)
}

/// Two texts that say one node each add both to a board.
proof fn lemma_gains_two(s: Seq<char>, x: Seq<char>, y: Seq<char>, n: Tree, m: Tree)
    requires
        is_board(s),
        items(x) == Some(seq![n]),
        items(y) == Some(seq![m]),
        x.len() > 0,
        ends_head(x[0]),
        y.len() > 0,
        ends_head(y[0]),
    ensures
        parsed(text_of(appended(bytes_of(s), x + y))) == Ok::<Tree, SexpError>(
            Tree::List(children(parsed(s)->Ok_0) + seq![n, m]),
        ),
{
    lemma_items_join(x, y);
    assert(seq![n] + seq![m] =~= seq![n, m]);
    assert((x + y)[0] == x[0]);
    law_appending_keeps_a_board_parsing(s, x + y);
}

/// The two tracks of a pair that was routed stand behind the other nodes of the
/// board, each on its own net.
pub proof fn law_routed_pair_is_read(
    s: Seq<char>,
    pos: (PointText, PointText),
    neg: (PointText, PointText),
    width: Seq<char>,
    layer: Seq<char>,
    nets: (int, int),
    uuids: (Seq<char>, Seq<char>),
)
    requires
        is_board(s),
        numbered_point(pos.0),
        numbered_point(pos.1),
        numbered_point(neg.0),
        numbered_point(neg.1),
        is_number(width),
        needs_no_escape(layer),
        needs_no_escape(uuids.0),
        needs_no_escape(uuids.1),
    ensures
        parsed(
            text_of(
                appended(
                    bytes_of(s),
                    track_text(pos.0, pos.1, width, layer, nets.0, uuids.0) + track_text(
                        neg.0,
                        neg.1,
                        width,
                        layer,
                        nets.1,
                        uuids.1,
                    ),
                ),
            ),
        ) == Ok::<Tree, SexpError>(
            Tree::List(
                children(parsed(s)->Ok_0) + seq![
                    track_node(pos.0, pos.1, width, layer, nets.0, uuids.0),
                    track_node(neg.0, neg.1, width, layer, nets.1, uuids.1),
                ],
            ),
        ),
{
    lemma_segment_text(pos.0.x, pos.0.y, pos.1.x, pos.1.y, width, layer, nets.0, uuids.0);
    lemma_segment_text(neg.0.x, neg.0.y, neg.1.x, neg.1.y, width, layer, nets.1, uuids.1);
    lemma_gains_two(
        s,
        track_text(pos.0, pos.1, width, layer, nets.0, uuids.0),
        track_text(neg.0, neg.1, width, layer, nets.1, uuids.1),
        track_node(pos.0, pos.1, width, layer, nets.0, uuids.0),
        track_node(neg.0, neg.1, width, layer, nets.1, uuids.1),
    );
}

/// A route between two pads goes from the one to the other: by one track where
/// they are in line, else by two that meet at the bend.
pub proof fn law_pad_route_is_read(
    s: Seq<char>,
    from: PointText,
    to: PointText,
    in_line: bool,
    width: Seq<char>,
    layer: Seq<char>,
    net: int,
    uuid: Seq<char>,
    bend_uuid: Seq<char>,
)
    requires
        is_board(s),
        numbered_point(from),
        numbered_point(to),
        is_number(width),
        needs_no_escape(layer),
        needs_no_escape(uuid),
        needs_no_escape(bend_uuid),
    ensures
        ({
            let bend = PointText { x: to.x, y: from.y };
            parsed(
                text_of(
                    appended(
                        bytes_of(s),
                        pad_route_text(
                            from,
                            to,
                            in_line,
                            width,
                            layer,
                            net,
                            uuid,
                            bend_uuid,
                        ),
                    ),
                ),
            ) == Ok::<Tree, SexpError>(
                Tree::List(
                    children(parsed(s)->Ok_0) + if in_line {
                        seq![track_node(from, to, width, layer, net, uuid)]
                    } else {
                        seq![
                            track_node(from, bend, width, layer, net, uuid),
                            track_node(bend, to, width, layer, net, bend_uuid),
                        ]
                    },
                ),
            )
        }),
{
    let bend = PointText { x: to.x, y: from.y };
    if in_line {
        law_routed_trace_is_read(s, from, to, width, layer, net, uuid);
        let v = children(parsed(s)->Ok_0);
        let n = track_node(from, to, width, layer, net, uuid);
        assert(v.push(n) =~= v + seq![n]);
    } else {
        law_routed_pair_is_read(
            s,
            (from, bend),
            (bend, to),
            width,
            layer,
            (net, net),
            (uuid, bend_uuid),
        );
    }
}

/// A via that was added is the last node of the board, and nothing else of the
/// board has changed.
pub proof fn law_added_via_is_read(
    s: Seq<char>,
    at: PointText,
    size: Seq<char>,
    drill: Seq<char>,
    net: int,
    uuid: Seq<char>,
)
    requires
        is_board(s),
        is_number(at.x),
        is_number(at.y),
        is_number(size),
        is_number(drill),
        needs_no_escape(uuid),
    ensures
        gains(
            s,
            text_of(appended(bytes_of(s), via_text(at.x, at.y, size, drill, net, uuid))),
            via_node(at.x, at.y, size, drill, net, uuid),
        ),
{
    lemma_via_text(at.x, at.y, size, drill, net, uuid);
    lemma_gains(
        s,
        via_text(at.x, at.y, size, drill, net, uuid),
        via_node(at.x, at.y, size, drill, net, uuid),
    );
}

/// The corners of a zone as nodes.
pub open spec fn corner_nodes(pts: Seq<PointText>) -> Seq<Tree> {
    pts.map_values(|p: PointText| triple("xy"@, Tree::Atom(p.x), Tree::Atom(p.y)))
}

/// The coordinates of the points are numbers.
pub open spec fn numbered_points(pts: Seq<PointText>) -> bool {
    forall|k: int|
        0 <= k < pts.len() ==> is_number((#[trigger] pts[k]).x) && is_number(pts[k].y)
}

proof fn lemma_corners(pts: Seq<PointText>, k: int)
    requires
        0 <= k <= pts.len(),
        numbered_points(pts),
    ensures
        items(corners_text(pts, k)) == Some(corner_nodes(pts).skip(k)),
        corners_text(pts, k).len() == 0 || is_space(corners_text(pts, k)[0]),
    decreases pts.len() - k,
{
    let c = corner_nodes(pts);
    if k == pts.len() {
        lemma_items_space(corners_text(pts, k));
        assert(c.skip(k) =~= Seq::<Tree>::empty());
    } else {
        reveal_strlit("\n      ");
        reveal_strlit("xy");
        let w = "\n      "@;
        assert forall|i: int| 0 <= i < w.len() implies is_space(w[i]) by {}
        let p = pts[k];
        let list = node_two("xy"@, p.x, p.y);
        let rest = corners_text(pts, k + 1);
        lemma_corners(pts, k + 1);
        lemma_number_item(p.x);
        lemma_number_item(p.y);
        lemma_triple("xy"@, p.x, p.y, Tree::Atom(p.x), Tree::Atom(p.y));
        lemma_items_lead(w, list);
        lemma_items_join(w + list, rest);
        assert(c.skip(k) =~= seq![c[k]] + c.skip(k + 1));
        assert(corners_text(pts, k)[0] == w[0]);
    }
}

/// What the first line of a zone says.
pub open spec fn zone_first(net: int, net_name: Seq<char>, layer: Seq<char>, uuid: Seq<char>) -> Seq<
    Tree,
> {
    seq![
        Tree::Atom("zone"@),
        pair("net"@, Tree::Atom(int_chars(net))),
        pair("net_name"@, Tree::Str(net_name)),
        pair("layer"@, Tree::Str(layer)),
        pair("uuid"@, Tree::Str(uuid)),
    ]
}

/// What the further lines of a zone say.
pub open spec fn zone_further(clearance: Seq<char>, min_w: Seq<char>, pts: Seq<PointText>) -> Seq<
    Tree,
> {
    seq![
        triple("hatch"@, Tree::Atom("edge"@), Tree::Atom("0.508"@)),
        pair("connect_pads"@, pair("clearance"@, Tree::Atom(clearance))),
        pair("min_thickness"@, Tree::Atom(min_w)),
        pair("fill"@, Tree::Atom("yes"@)),
        pair("polygon"@, Tree::List(seq![Tree::Atom("pts"@)] + corner_nodes(pts))),
    ]
}

/// The node of a zone.
pub open spec fn zone_node(
    net: int,
    net_name: Seq<char>,
    layer: Seq<char>,
    clearance: Seq<char>,
    min_w: Seq<char>,
    pts: Seq<PointText>,
    uuid: Seq<char>,
) -> Tree {
    Tree::List(zone_first(net, net_name, layer, uuid) + zone_further(clearance, min_w, pts))
}

proof fn lemma_polygon(pts: Seq<PointText>)
    requires
        numbered_points(pts),
    ensures
        items(polygon_text(pts)) == Some(
            seq![pair("polygon"@, Tree::List(seq![Tree::Atom("pts"@)] + corner_nodes(pts)))],
        ),
{
    reveal_strlit("polygon");
    reveal_strlit("pts");
    reveal_strlit("(");
    reveal_strlit(")");
    reveal_strlit("\n    ");
    let w = "\n    "@;
    assert forall|i: int| 0 <= i < w.len() implies is_space(w[i]) by {}
    let c = corners_text(pts, 0);
    lemma_corners(pts, 0);
    assert(corner_nodes(pts).skip(0) =~= corner_nodes(pts));
    lemma_items_word("pts"@);
    lemma_items_join("pts"@, c);
    lemma_items_space(w);
    lemma_items_join("pts"@ + c, w);
    let inner = "pts"@ + c + w;
    let said = seq![Tree::Atom("pts"@)] + corner_nodes(pts);
    assert(said + Seq::<Tree>::empty() =~= said);
    lemma_items_list(inner);
    assert("("@ =~= seq!['(']);
    assert(")"@ =~= seq![')']);
    lemma_pair("polygon"@, "("@ + inner + ")"@, Tree::List(said));
}

proof fn lemma_zone_head(net: int, net_name: Seq<char>, layer: Seq<char>, uuid: Seq<char>)
    requires
        needs_no_escape(net_name),
        needs_no_escape(layer),
        needs_no_escape(uuid),
    ensures
        items(zone_head(net, net_name, layer, uuid)) == Some(
            zone_first(net, net_name, layer, uuid),
        ),
{
    lemma_tags();
    reveal_strlit("net_name");
    reveal_strlit(" ");
    lemma_int_is_number(net);
    lemma_number_item(int_chars(net));
    lemma_quoted(net_name);
    lemma_quoted(layer);
    lemma_quoted(uuid);
    let na = node_one("net"@, int_chars(net));
    let nb = node_one("net_name"@, quoted(net_name));
    let nc = node_one("layer"@, quoted(layer));
    let nd = node_one("uuid"@, quoted(uuid));
    lemma_pair("net"@, int_chars(net), Tree::Atom(int_chars(net)));
    lemma_pair("net_name"@, quoted(net_name), Tree::Str(net_name));
    lemma_pair("layer"@, quoted(layer), Tree::Str(layer));
    lemma_pair("uuid"@, quoted(uuid), Tree::Str(uuid));
    let z = "zone"@;
    lemma_items_word(z);
    lemma_items_then(z, " "@, na);
    lemma_items_then(z + " "@ + na, " "@, nb);
    lemma_items_then(z + " "@ + na + " "@ + nb, " "@, nc);
    lemma_items_then(z + " "@ + na + " "@ + nb + " "@ + nc, " "@, nd);
    assert(items(zone_head(net, net_name, layer, uuid)).unwrap() =~= zone_first(
        net,
        net_name,
        layer,
        uuid,
    ));
}

proof fn lemma_zone_parts(clearance: Seq<char>, min_w: Seq<char>, pts: Seq<PointText>)
    requires
        is_number(clearance),
        is_number(min_w),
        numbered_points(pts),
    ensures
        each_one(zone_parts(clearance, min_w, pts), zone_further(clearance, min_w, pts)),
{
    reveal_strlit("hatch");
    reveal_strlit("edge");
    reveal_strlit("0.508");
    reveal_strlit("connect_pads");
    reveal_strlit("clearance");
    reveal_strlit("min_thickness");
    reveal_strlit("fill");
    reveal_strlit("yes");
    lemma_items_word("edge"@);
    lemma_items_word("0.508"@);
    lemma_items_word("yes"@);
    lemma_number_item(clearance);
    lemma_number_item(min_w);
    lemma_triple("hatch"@, "edge"@, "0.508"@, Tree::Atom("edge"@), Tree::Atom("0.508"@));
    lemma_pair("clearance"@, clearance, Tree::Atom(clearance));
    lemma_pair(
        "connect_pads"@,
        node_one("clearance"@, clearance),
        pair("clearance"@, Tree::Atom(clearance)),
    );
    lemma_pair("min_thickness"@, min_w, Tree::Atom(min_w));
    lemma_pair("fill"@, "yes"@, Tree::Atom("yes"@));
    lemma_polygon(pts);
}

/// A copper fill that was added is the last node of the board, with its corners
/// in order, and nothing else of the board has changed.
pub proof fn law_added_zone_is_read(
    s: Seq<char>,
    net: int,
    net_name: Seq<char>,
    layer: Seq<char>,
    clearance: Seq<char>,
    min_w: Seq<char>,
    pts: Seq<PointText>,
    uuid: Seq<char>,
)
    requires
        is_board(s),
        needs_no_escape(net_name),
        needs_no_escape(layer),
        is_number(clearance),
        is_number(min_w),
        numbered_points(pts),
        needs_no_escape(uuid),
    ensures
        gains(
            s,
            text_of(
                appended(
                    bytes_of(s),
                    zone_text(net, net_name, layer, clearance, min_w, pts, uuid),
                ),
            ),
            zone_node(net, net_name, layer, clearance, min_w, pts, uuid),
        ),
{
    lemma_zone_head(net, net_name, layer, uuid);
    lemma_zone_parts(clearance, min_w, pts);
    lemma_block_text(
        zone_head(net, net_name, layer, uuid),
        zone_parts(clearance, min_w, pts),
        zone_further(clearance, min_w, pts),
    );
    lemma_gains(
        s,
        zone_text(net, net_name, layer, clearance, min_w, pts, uuid),
        zone_node(net, net_name, layer, clearance, min_w, pts, uuid),
    );
}

} // verus!
