//! Edits after which a board still parses.
use crate::board::{anchor, at_text, close_of, piece, replaced, AtText};
use crate::components::{aligned, anchors, copy_added, deleted, grown, moved, rotated, valued};
use crate::edits::{
    edited, is_last, law_edits_may_be_made_one_by_one, lemma_never_made, no_edit, Edit,
};
use crate::footprint::{
    block_anchor, child_anchor, child_anchors, footprint_span, law_turning_places_are_apart,
    lemma_block_anchor, lemma_child_anchors, lemma_footprint_from, lemma_piece_in, places_a_child,
    rewrites, rotation_places, turning_places,
};
use crate::grammar::{
    agree, items, lemma_items_lead, lemma_items_then, lemma_items_word, lemma_list_end,
    lemma_list_shift, lemma_skip_agree, lemma_spaces_skipped, lemma_string_ends,
};
use crate::lines::quoted;
use crate::moving::{lemma_anchor_first, lemma_block_alone, numbered_at};
use crate::nets::net_id;
use crate::offsets::{
    char_at, lemma_char_at, lemma_char_is, lemma_inside, lemma_node_block, lemma_node_of_board,
    lemma_offset, lemma_order, lemma_order_back, lemma_piece, lemma_replaced_text, lemma_run_flags,
    lemma_string_value, offset, outside,
};
use crate::parser::{lemma_node_from, list_from, node_from, parsed, string_end, SexpError};
use crate::property::{
    escaped, escaped_char, law_escape_is_undone, property_mark, property_span, value_end,
};
use crate::reread::{gains, is_board, lemma_gains, lemma_number_is_word};
use crate::routing::{appended, track_changed, track_heads, track_lines, track_text, PointText};
use crate::scan::{
    balanced_block, child_spans, is_child, law_child_is_balanced_block,
    law_children_are_the_direct_lists, lemma_block_end, lemma_child_cut, opens, scan, OPEN, QUOTE,
};
use crate::steady::{lemma_run_plain, lemma_scan_run};
use crate::swapping::{
    lemma_goes_on_with, lemma_goes_on_without, lemma_node_same, lemma_swap_parsed, swaps, visited,
    with_swapped,
};
use crate::text::{
    bytes_of, cut, find_at, lemma_ascii_byte, lemma_bytes_concat, lemma_bytes_len,
    lemma_bytes_valid, lemma_char_bytes, lemma_cut_ascii, lemma_cut_ends, lemma_cut_valid,
    lemma_find, lemma_no_byte, lemma_rfind, lemma_text_of, occurs_at, text_of,
};
use crate::tracks::{blanks_before, lemma_line_start, lemma_uuid_block, line_start, uuid_block};
use crate::tree::{children, Tree};
use crate::undo::lemma_block_same;
use crate::words::{ends_head, is_space, lemma_skip_space, skip_space};
use vstd::prelude::*;
use vstd::string::*;
use vstd::utf8::*;

verus! {

// Leaving a block out
/// Bytes of white space spell white space.
proof fn lemma_blank_chars(y: Seq<char>)
    requires
        forall|j: int|
            0 <= j < bytes_of(y).len() ==> {
                let b = #[trigger] bytes_of(y)[j];
                b == 32 || b == 9 || b == 10
            },
    ensures
        forall|k: int| 0 <= k < y.len() ==> is_space(#[trigger] y[k]),
{
    assert forall|k: int| 0 <= k < y.len() implies is_space(#[trigger] y[k]) by {
        lemma_offset(y, k);
        lemma_char_bytes(y[k]);
        let b = bytes_of(y)[offset(y, k)];
        assert(bytes_of(y).subrange(offset(y, k), offset(y, k + 1))[0] == b);
        assert(b == 32 || b == 9 || b == 10);
        assert(bytes_of(seq![y[k]])[0] == b);
        if !is_space(y[k]) {
            lemma_no_byte(seq![y[k]], ' ');
            lemma_no_byte(seq![y[k]], '\t');
            lemma_no_byte(seq![y[k]], '\n');
        }
    }
}

pub proof fn lemma_blanks_are_blank(h: Seq<u8>, i: int)
    requires
        0 <= i <= h.len(),
    ensures
        0 <= blanks_before(h, i) <= i,
        forall|j: int| blanks_before(h, i) <= j < i ==> h[j] == 32 || h[j] == 9,
    decreases i,
{
    if i > 0 && (h[i - 1] == 32 || h[i - 1] == 9) {
        lemma_blanks_are_blank(h, i - 1);
    }
}

/// The block from `a` to `b` stands outside of strings, it is not the board
/// itself, and what follows it does not begin with a word.
pub open spec fn stands_alone(s: Seq<char>, a: int, b: int) -> bool {
    let h = bytes_of(s);
    &&& offset(s, skip_space(s, 0)) < a
    &&& outside(scan(h, 0, a))
    &&& char_at(h, b) < s.len() ==> ends_head(s[char_at(h, b)])
}

/// A board without one of its blocks, and without the indentation before it,
/// parses, and has its other nodes as they were.
proof fn lemma_left_out(s: Seq<char>, a: int, b: int)
    requires
        is_board(s),
        cut(bytes_of(s), a),
        a < bytes_of(s).len(),
        bytes_of(s)[a] == OPEN,
        balanced_block(bytes_of(s), a) == Some((a, b)),
        stands_alone(s, a, b),
    ensures
        parsed(text_of(replaced(bytes_of(s), line_start(bytes_of(s), a), b, Seq::empty()))) == Ok::<
            Tree,
            SexpError,
        >(
            Tree::List(
                with_swapped(s, skip_space(s, 0) + 1, char_at(bytes_of(s), a), Seq::empty()),
            ),
        ),
{
    let h = bytes_of(s);
    lemma_bytes_valid(s);
    lemma_char_at(s, a);
    let p = char_at(h, a);
    lemma_char_is(s, p, '(');
    lemma_order(s, skip_space(s, 0), p);
    lemma_node_of_board(s, p);
    lemma_node_block(s, p);
    let q = node_from(s, p)->Ok_0.1;
    lemma_piece(s, p, q);
    // The end of the block in characters.
    assert(offset(s, q) == b);
    lemma_text_of(s.subrange(0, q));
    lemma_piece(s, 0, q);
    assert(s.subrange(0, 0) =~= Seq::<char>::empty());
    assert(bytes_of(Seq::<char>::empty()) =~= Seq::<u8>::empty());
    assert(char_at(h, b) == q);
    // The indentation.
    let c = line_start(h, a);
    lemma_line_start(h, a);
    lemma_blanks_are_blank(h, a);
    lemma_char_at(s, c);
    let o = char_at(h, c);
    lemma_order_back(s, o, p);
    lemma_piece(s, o, p);
    let y = s.subrange(o, p);
    assert forall|j: int| 0 <= j < bytes_of(y).len() implies {
        let e = #[trigger] bytes_of(y)[j];
        e == 32 || e == 9 || e == 10
    } by {
        assert(bytes_of(y)[j] == h[c + j]);
    }
    lemma_blank_chars(y);
    assert forall|k: int| o <= k < p implies is_space(#[trigger] s[k]) by {
        assert(y[k - o] == s[k]);
    }
    lemma_replaced_text(s, o, q, Seq::empty());
    let t = s.subrange(0, o) + Seq::<char>::empty() + s.subrange(q, s.len() as int);
    assert(swaps(s, t, o, p, q, Seq::empty()));
    lemma_goes_on_without(s, t, o, p, q);
    lemma_swap_parsed(s, t, o, p, q, Seq::empty(), Seq::empty());
}

/// A board from which a footprint was deleted parses, and has its other nodes as
/// they were.
pub proof fn law_deleting_a_footprint_keeps_the_rest(s: Seq<char>, reference: Seq<char>)
    requires
        is_board(s),
        deleted(bytes_of(s), reference) is Ok,
        ({
            let span = footprint_span(bytes_of(s), reference).unwrap();
            stands_alone(s, span.0, span.1)
        }),
    ensures
        ({
            let span = footprint_span(bytes_of(s), reference).unwrap();
            parsed(text_of(deleted(bytes_of(s), reference)->Ok_0)) == Ok::<Tree, SexpError>(
                Tree::List(
                    with_swapped(
                        s,
                        skip_space(s, 0) + 1,
                        char_at(bytes_of(s), span.0),
                        Seq::empty(),
                    ),
                ),
            )
        }),
{
    let h = bytes_of(s);
    lemma_bytes_valid(s);
    lemma_footprint_from(h, reference, 0);
    let span = footprint_span(h, reference).unwrap();
    lemma_left_out(s, span.0, span.1);
}

/// A board from which a track was deleted parses, and has its other nodes as
/// they were. What follows the track must not begin with a word.
pub proof fn law_deleting_a_track_keeps_the_rest(s: Seq<char>, uuid: Seq<char>)
    requires
        is_board(s),
        uuid_block(bytes_of(s), track_heads(), uuid) is Some,
        ({
            let b = uuid_block(bytes_of(s), track_heads(), uuid).unwrap();
            let q = char_at(bytes_of(s), b.1);
            q < s.len() ==> ends_head(s[q])
        }),
    ensures
        ({
            let b = uuid_block(bytes_of(s), track_heads(), uuid).unwrap();
            let lines = track_lines(bytes_of(s), uuid).unwrap();
            parsed(text_of(replaced(bytes_of(s), lines.0, lines.1, Seq::empty()))) == Ok::<
                Tree,
                SexpError,
            >(
                Tree::List(
                    with_swapped(s, skip_space(s, 0) + 1, char_at(bytes_of(s), b.0), Seq::empty()),
                ),
            )
        }),
{
    let h = bytes_of(s);
    let b = uuid_block(h, track_heads(), uuid).unwrap();
    lemma_bytes_valid(s);
    lemma_uuid_place(h, uuid);
    lemma_behind_head(s, b.0);
    lemma_left_out(s, b.0, b.1);
}

/// What stands directly inside a board comes behind its parenthesis.
proof fn lemma_behind_head(s: Seq<char>, a: int)
    requires
        is_board(s),
        0 <= a < bytes_of(s).len(),
        opens(bytes_of(s), 0, a, 1),
    ensures
        offset(s, skip_space(s, 0)) < a,
        outside(scan(bytes_of(s), 0, a)),
{
    let h = bytes_of(s);
    let n = skip_space(s, 0);
    let y = s.subrange(0, n);
    lemma_skip_space(s, 0);
    lemma_spaces_skipped(s, 0);
    lemma_piece(s, 0, n);
    assert(s.subrange(0, 0) =~= Seq::<char>::empty());
    assert(bytes_of(Seq::<char>::empty()) =~= Seq::<u8>::empty());
    lemma_no_byte(y, '(');
    lemma_no_byte(y, ')');
    lemma_no_byte(y, '"');
    if a <= offset(s, n) {
        lemma_scan_run(h, 0, 0, a);
        assert forall|k: int| 0 <= k < a implies #[trigger] h.subrange(0, a)[k] == bytes_of(y)[k] by {
            assert(h.subrange(0, offset(s, n))[k] == h[k]);
        }
        lemma_run_plain(h.subrange(0, a), 0);
    }
}

/// A block that was found by its identity stands directly inside the board.
proof fn lemma_uuid_place(h: Seq<u8>, uuid: Seq<char>)
    requires
        valid_utf8(h),
        uuid_block(h, track_heads(), uuid) is Some,
    ensures
        ({
            let b = uuid_block(h, track_heads(), uuid).unwrap();
            &&& 0 <= b.0 < h.len()
            &&& cut(h, b.0)
            &&& h[b.0] == OPEN
            &&& balanced_block(h, b.0) == Some(b)
            &&& is_child(h, b.0, b.1)
        }),
{
    let m = lemma_uuid_block(h, track_heads(), uuid, 0);
    lemma_child_cut(h, m);
    law_child_is_balanced_block(h, m);
    law_children_are_the_direct_lists(h);
}

// Moving a footprint
/// The node of a place.
pub open spec fn at_node(at: AtText) -> Tree {
    match at.rot {
        Some(r) => Tree::List(
            seq![Tree::Atom("at"@), Tree::Atom(at.x), Tree::Atom(at.y), Tree::Atom(r)],
        ),
        None => Tree::List(seq![Tree::Atom("at"@), Tree::Atom(at.x), Tree::Atom(at.y)]),
    }
}

/// A list of known nodes is one node that takes up all of its text.
proof fn lemma_node_list(x: Seq<char>)
    requires
        items(x) is Some,
    ensures
        node_from("("@ + x + ")"@, 0) == Ok::<(Tree, int), SexpError>(
            (Tree::List(items(x).unwrap()), x.len() as int + 2),
        ),
{
    reveal_strlit("(");
    reveal_strlit(")");
    let q = x.push(')');
    let s = "("@ + x + ")"@;
    assert(s =~= seq!['('] + q);
    lemma_list_shift(seq!['('], q, 0);
    assert(s[0] == '(');
    assert(skip_space(s, 0) == 0);
}

proof fn lemma_at_node(at: AtText)
    requires
        numbered_at(at),
    ensures
        node_from(at_text(at), 0) == Ok::<(Tree, int), SexpError>(
            (at_node(at), at_text(at).len() as int),
        ),
        at_text(at).len() > 0,
        at_text(at)[0] == '(',
{
    reveal_strlit("(at ");
    reveal_strlit("at");
    reveal_strlit("(");
    reveal_strlit(" ");
    reveal_strlit(")");
    lemma_number_is_word(at.x);
    lemma_number_is_word(at.y);
    lemma_items_word("at"@);
    lemma_items_word(at.x);
    lemma_items_word(at.y);
    let b = " "@;
    let two = "at"@ + b + at.x + b + at.y;
    lemma_items_then("at"@, b, at.x);
    lemma_items_then("at"@ + b + at.x, b, at.y);
    let said = seq![Tree::Atom("at"@), Tree::Atom(at.x), Tree::Atom(at.y)];
    assert(items(two).unwrap() =~= said);
    match at.rot {
        Some(r) => {
            lemma_number_is_word(r);
            lemma_items_word(r);
            lemma_items_then(two, b, r);
            assert(items(two + b + r).unwrap() =~= said.push(Tree::Atom(r)));
            assert(said.push(Tree::Atom(r)) =~= children(at_node(at)));
            lemma_node_list(two + b + r);
            assert(at_text(at) =~= "("@ + (two + b + r) + ")"@);
        },
        None => {
            lemma_node_list(two);
            assert(at_text(at) =~= "("@ + two + ")"@);
        },
    }
}

/// The anchor of a block in a board is a balanced block there, outside of
/// strings if the block is.
proof fn lemma_anchor_in_board(h: Seq<u8>, s: int, e: int)
    requires
        0 <= s < e <= h.len(),
        block_anchor(h, (s, e)) is Some,
        outside(scan(h, 0, s)),
    ensures
        ({
            let a = block_anchor(h, (s, e)).unwrap();
            &&& s < a.0 < a.1 <= e
            &&& h[a.0] == OPEN
            &&& balanced_block(h, a.0) == Some(a)
            &&& outside(scan(h, 0, a.0))
        }),
{
    let t = h.subrange(s, e);
    let b = anchor(t).unwrap();
    let a = block_anchor(h, (s, e)).unwrap();
    let m = lemma_anchor_first(t, 0);
    law_children_are_the_direct_lists(t);
    law_child_is_balanced_block(t, m);
    assert(is_child(t, b.0, b.1));
    assert(scan(t, 0, 0).depth == 0);
    assert(t[b.0] == h[a.0]);
    lemma_block_alone(t, b.0, b.1);
    assert(t.subrange(b.0, b.1) =~= h.subrange(a.0, a.1));
    lemma_block_alone(h, a.0, a.1);
    let y = h.subrange(s, a.0);
    lemma_scan_run(h, 0, s, a.0);
    lemma_scan_run(t, 0, 0, b.0);
    assert(t.subrange(0, b.0) =~= y);
    lemma_run_flags(scan(h, 0, s), scan(t, 0, 0), y);
}

/// A board in which a footprint was moved parses, and is as it was but for the
/// place of that footprint.
pub proof fn law_moving_a_footprint_keeps_the_rest(
    s: Seq<char>,
    reference: Seq<char>,
    at: AtText,
)
    requires
        is_board(s),
        numbered_at(at),
        moved(bytes_of(s), reference, at) is Ok,
        outside(scan(bytes_of(s), 0, footprint_span(bytes_of(s), reference).unwrap().0)),
    ensures
        ({
            let h = bytes_of(s);
            let a = block_anchor(h, footprint_span(h, reference).unwrap()).unwrap();
            parsed(text_of(moved(h, reference, at)->Ok_0)) == Ok::<Tree, SexpError>(
                Tree::List(
                    with_swapped(
                        s,
                        skip_space(s, 0) + 1,
                        char_at(h, a.0),
                        seq![at_node(at)],
                    ),
                ),
            )
        }),
{
    let h = bytes_of(s);
    lemma_bytes_valid(s);
    lemma_footprint_from(h, reference, 0);
    let span = footprint_span(h, reference).unwrap();
    lemma_block_anchor(h, span);
    let a = block_anchor(h, span).unwrap();
    lemma_anchor_in_board(h, span.0, span.1);
    lemma_char_at(s, a.0);
    let p = char_at(h, a.0);
    lemma_char_is(s, p, '(');
    lemma_board_before(s, span.0);
    lemma_char_at(s, span.0);
    lemma_order(s, char_at(h, span.0), p);
    lemma_node_of_board(s, p);
    lemma_node_block(s, p);
    let q = node_from(s, p)->Ok_0.1;
    let x = at_text(at);
    lemma_replaced_text(s, p, q, x);
    let t = s.subrange(0, p) + x + s.subrange(q, s.len() as int);
    lemma_at_node(at);
    assert(swaps(s, t, p, p, q, x));
    lemma_goes_on_with(s, t, p, q, x, at_node(at));
    lemma_swap_parsed(s, t, p, p, q, x, seq![at_node(at)]);
}

// Setting a value
/// A string that was escaped ends at the quote behind it.
proof fn lemma_escaped_ends(x: Seq<char>, k: int, v: Seq<char>)
    requires
        0 <= k,
        k + escaped(v).len() < x.len(),
        x.subrange(k, k + escaped(v).len()) == escaped(v),
        x[k + escaped(v).len()] == '"',
    ensures
        string_end(x, k) == Some(k + escaped(v).len()),
    decreases v.len(),
{
    if v.len() > 0 {
        let c = escaped_char(v[0]);
        let rest = escaped(v.drop_first());
        let m = k + c.len();
        assert(escaped(v) =~= c + rest);
        assert(x.subrange(m, m + rest.len()) =~= rest) by {
            assert forall|j: int| 0 <= j < rest.len() implies x.subrange(m, m + rest.len())[j]
                == rest[j] by {
                assert(x.subrange(k, k + escaped(v).len())[c.len() + j] == escaped(v)[c.len() + j]);
            }
        }
        lemma_escaped_ends(x, m, v.drop_first());
        assert forall|j: int| 0 <= j < c.len() implies x[k + j] == c[j] by {
            assert(x.subrange(k, k + escaped(v).len())[j] == escaped(v)[j]);
        }
        assert(x[k] == c[0]);
        if c.len() == 2 {
            assert(x[k + 1] == c[1]);
        }
    }
}

/// An escaped text between quotes is a string that takes up all of it.
proof fn lemma_quoted_node(v: Seq<char>)
    ensures
        node_from(quoted(escaped(v)), 0) == Ok::<(Tree, int), SexpError>(
            (Tree::Str(v), quoted(escaped(v)).len() as int),
        ),
        quoted(escaped(v)).len() > 0,
        quoted(escaped(v))[0] == '"',
{
    reveal_strlit("\"");
    let e = escaped(v);
    let x = quoted(e);
    assert(x.subrange(1, 1 + e.len() as int) =~= e);
    assert(x[1 + e.len() as int] == '"');
    lemma_escaped_ends(x, 1, v);
    assert(skip_space(x, 0) == 0);
    law_escape_is_undone(v);
}

/// A string in a piece of a text ends where it ends in the text.
proof fn lemma_value_cut(h: Seq<u8>, s: int, e: int, i: int)
    requires
        0 <= s <= e <= h.len(),
        0 <= i,
        value_end(h.subrange(s, e), i) is Some,
    ensures
        value_end(h, s + i) == Some(s + value_end(h.subrange(s, e), i).unwrap()),
    decreases e - s - i + 1,
{
    let t = h.subrange(s, e);
    assert(t[i] == h[s + i]);
    if t[i] == 92 {
        lemma_value_cut(h, s, e, i + 2);
    } else if t[i] != QUOTE {
        lemma_value_cut(h, s, e, i + 1);
    }
}

/// The mark before a property's value ends in its quote.
pub proof fn lemma_value_quote(t: Seq<u8>, name: Seq<char>)
    requires
        property_span(t, name) is Some,
    ensures
        ({
            let v = property_span(t, name).unwrap();
            &&& 0 < v.0 <= v.1 < t.len()
            &&& t[v.0 - 1] == QUOTE
            &&& value_end(t, v.0) == Some(v.1)
        }),
{
    let mark = property_mark(name);
    let p = bytes_of(mark);
    reveal_strlit("(property \"");
    reveal_strlit("\" \"");
    let front = "(property \""@ + name + seq!['"', ' '];
    assert(mark =~= front + seq!['"']);
    lemma_bytes_concat(front, seq!['"']);
    lemma_ascii_byte('"');
    lemma_find(t, p, 0);
    let i = find_at(t, p, 0).unwrap();
    let v = property_span(t, name).unwrap();
    assert(t.subrange(i, i + p.len())[p.len() - 1] == p[p.len() - 1]);
    lemma_inside(t, v.0, 1);
}

/// A board in which the value of a footprint was set parses, and is as it was
/// but for that value.
pub proof fn law_setting_a_value_keeps_the_rest(
    s: Seq<char>,
    reference: Seq<char>,
    value: Seq<char>,
)
    requires
        is_board(s),
        valued(bytes_of(s), reference, value) is Ok,
        ({
            let h = bytes_of(s);
            let span = footprint_span(h, reference).unwrap();
            let v = property_span(h.subrange(span.0, span.1), "Value"@).unwrap();
            outside(scan(h, 0, span.0 + v.0 - 1))
        }),
    ensures
        ({
            let h = bytes_of(s);
            let span = footprint_span(h, reference).unwrap();
            let v = property_span(h.subrange(span.0, span.1), "Value"@).unwrap();
            parsed(text_of(valued(h, reference, value)->Ok_0)) == Ok::<Tree, SexpError>(
                Tree::List(
                    with_swapped(
                        s,
                        skip_space(s, 0) + 1,
                        char_at(h, span.0 + v.0 - 1),
                        seq![Tree::Str(value)],
                    ),
                ),
            )
        }),
{
    let h = bytes_of(s);
    lemma_bytes_valid(s);
    lemma_footprint_from(h, reference, 0);
    let span = footprint_span(h, reference).unwrap();
    let t = h.subrange(span.0, span.1);
    let v = property_span(t, "Value"@).unwrap();
    lemma_value_quote(t, "Value"@);
    let a = span.0 + v.0 - 1;
    assert(h[a] == t[v.0 - 1]);
    lemma_cut_ascii(h, a);
    lemma_char_at(s, a);
    let p = char_at(h, a);
    lemma_char_is(s, p, '"');
    lemma_board_before(s, span.0);
    lemma_char_at(s, span.0);
    let f = char_at(h, span.0);
    lemma_char_is(s, f, '(');
    lemma_order_back(s, f, p);
    lemma_node_of_board(s, p);
    lemma_node_from(s, p);
    assert(skip_space(s, p) == p);
    // The value ends where its node does.
    let e = string_end(s, p + 1).unwrap();
    lemma_string_ends(s, p + 1);
    lemma_string_value(s, p + 1);
    lemma_value_cut(h, span.0, span.1, v.0);
    lemma_offset(s, p);
    lemma_ascii_byte('"');
    assert(offset(s, p + 1) == span.0 + v.0);
    assert(offset(s, e) == span.0 + v.1);
    let q = e + 1;
    let y = escaped(value);
    let x = quoted(y);
    lemma_replaced_text(s, p + 1, e, y);
    let r = s.subrange(0, p) + x + s.subrange(q, s.len() as int);
    reveal_strlit("\"");
    assert(s.subrange(0, p + 1) + y + s.subrange(e, s.len() as int) =~= r);
    lemma_quoted_node(value);
    assert(swaps(s, r, p, p, q, x));
    lemma_goes_on_with(s, r, p, q, x, Tree::Str(value));
    lemma_swap_parsed(s, r, p, p, q, x, seq![Tree::Str(value)]);
}

// Several edits
/// The edit puts a list in place of a list of the board that stands outside of
/// strings and is not the board itself.
pub open spec fn swaps_a_list(s: Seq<char>, e: Edit) -> bool {
    let h = bytes_of(s);
    &&& cut(h, e.start)
    &&& offset(s, skip_space(s, 0)) < e.start < h.len()
    &&& h[e.start] == OPEN
    &&& balanced_block(h, e.start) == Some((e.start, e.end))
    &&& outside(scan(h, 0, e.start))
    &&& e.text.len() > 0 && e.text[0] == '('
    &&& node_from(e.text, 0) matches Ok(n) && n.1 == e.text.len()
}

/// One such edit leaves a board, and those before it can be made still.
proof fn lemma_one_of_several(s: Seq<char>, e: Edit) -> (t: Seq<char>)
    requires
        is_board(s),
        swaps_a_list(s, e),
    ensures
        is_board(t),
        e.end <= bytes_of(s).len(),
        bytes_of(t) == replaced(bytes_of(s), e.start, e.end, e.text),
        forall|f: Edit|
            #![trigger swaps_a_list(t, f)]
            swaps_a_list(s, f) && f.end <= e.start ==> swaps_a_list(t, f),
{
    let h = bytes_of(s);
    lemma_bytes_valid(s);
    lemma_char_at(s, e.start);
    let p = char_at(h, e.start);
    lemma_char_is(s, p, '(');
    lemma_skip_space(s, 0);
    lemma_order(s, skip_space(s, 0), p);
    lemma_node_of_board(s, p);
    lemma_node_block(s, p);
    let q = node_from(s, p)->Ok_0.1;
    lemma_piece(s, p, q);
    let x = e.text;
    let n = node_from(x, 0)->Ok_0.0;
    lemma_replaced_text(s, p, q, x);
    let t = s.subrange(0, p) + x + s.subrange(q, s.len() as int);
    assert(swaps(s, t, p, p, q, x));
    lemma_goes_on_with(s, t, p, q, x, n);
    lemma_swap_parsed(s, t, p, p, q, x, seq![n]);
    let r = bytes_of(t);
    lemma_replaced_bytes(s, p, q, x);
    // What stands before the edit is as it was.
    let c = e.start;
    assert(r.subrange(0, c) =~= h.subrange(0, c));
    lemma_skip_agree(s, t, 0, p);
    assert(t.subrange(0, skip_space(s, 0)) =~= s.subrange(0, skip_space(s, 0)));
    assert forall|f: Edit|
        #![trigger swaps_a_list(t, f)]
        swaps_a_list(s, f) && f.end <= e.start implies swaps_a_list(t, f) by {
        lemma_block_end(h, f.start, f.start);
        assert(h.subrange(0, c)[f.start] == r.subrange(0, c)[f.start]);
        lemma_block_same(h, r, f.start, c);
        lemma_scan_run(h, 0, 0, f.start);
        lemma_scan_run(r, 0, 0, f.start);
        assert(h.subrange(0, f.start) =~= h.subrange(0, c).subrange(0, f.start));
        assert(r.subrange(0, f.start) =~= r.subrange(0, c).subrange(0, f.start));
    }
    t
}

/// The bytes of a text in which a piece was replaced.
proof fn lemma_replaced_bytes(s: Seq<char>, o: int, q: int, x: Seq<char>)
    requires
        0 <= o <= q <= s.len(),
    ensures
        bytes_of(s.subrange(0, o) + x + s.subrange(q, s.len() as int)) == replaced(
            bytes_of(s),
            offset(s, o),
            offset(s, q),
            x,
        ),
{
    let n = s.len() as int;
    let a = s.subrange(0, o);
    let b = s.subrange(q, n);
    lemma_piece(s, 0, o);
    lemma_piece(s, q, n);
    assert(s.subrange(0, n) =~= s);
    assert(s.subrange(0, 0) =~= Seq::<char>::empty());
    assert(bytes_of(Seq::<char>::empty()) =~= Seq::<u8>::empty());
    lemma_bytes_concat(a, x);
    lemma_bytes_concat(a + x, b);
}

/// The edits that are made at all are such edits, they are apart, and they end
/// at `bound` or before.
pub open spec fn swap_lists(s: Seq<char>, es: Seq<Edit>, bound: int) -> bool {
    &&& forall|k: int|
        0 <= k < es.len() && es[k] != no_edit() ==> swaps_a_list(s, #[trigger] es[k])
            && es[k].start < es[k].end <= bound
    &&& forall|k: int, l: int|
        0 <= k < es.len() && 0 <= l < es.len() && k != l && es[k] != no_edit() && es[l]
            != no_edit() ==> (#[trigger] es[k]).end <= (#[trigger] es[l]).start || es[l].end
            <= es[k].start
}

/// The last of the edits in the text.
proof fn lemma_last_edit(s: Seq<char>, es: Seq<Edit>, bound: int, k: int) -> (m: int)
    requires
        swap_lists(s, es, bound),
        0 < k <= es.len(),
        exists|i: int| 0 <= i < k && #[trigger] es[i] != no_edit(),
    ensures
        0 <= m < k,
        es[m] != no_edit(),
        forall|i: int|
            0 <= i < k && es[i] != no_edit() ==> (#[trigger] es[i]).start <= es[m].start,
    decreases k,
{
    if exists|i: int| 0 <= i < k - 1 && #[trigger] es[i] != no_edit() {
        let m = lemma_last_edit(s, es, bound, k - 1);
        if es[k - 1] != no_edit() && es[k - 1].start > es[m].start {
            k - 1
        } else {
            m
        }
    } else {
        k - 1
    }
}

/// A board on which such edits are made is a board still.
proof fn lemma_several(s: Seq<char>, es: Seq<Edit>, bound: int)
    requires
        is_board(s),
        swap_lists(s, es, bound),
    ensures
        is_board(text_of(edited(bytes_of(s), es))),
    decreases bound,
{
    let h = bytes_of(s);
    lemma_text_of(s);
    if forall|i: int| 0 <= i < es.len() ==> #[trigger] es[i] == no_edit() {
        lemma_never_made(h, es);
    } else {
        let m = lemma_last_edit(s, es, bound, es.len() as int);
        let e = es[m];
        assert(swaps_a_list(s, es[m]));
        assert forall|k: int| 0 <= k < es.len() && k != m implies (#[trigger] es[k]).end
            <= e.start && es[k].start < e.start && es[k].start <= es[k].end by {
            if es[k] != no_edit() {
                assert(es[k].start <= es[m].start);
                assert(es[k].end <= es[m].start || es[m].end <= es[k].start);
            }
        }
        let t = lemma_one_of_several(s, e);
        law_edits_may_be_made_one_by_one(h, es, m);
        let fs = es.update(m, no_edit());
        assert(swap_lists(t, fs, e.start)) by {
            assert forall|k: int| 0 <= k < fs.len() && fs[k] != no_edit() implies swaps_a_list(
                t,
                #[trigger] fs[k],
            ) && fs[k].start < fs[k].end <= e.start by {
                assert(fs[k] == es[k]);
                assert(swaps_a_list(s, es[k]));
            }
            assert forall|k: int, l: int|
                0 <= k < fs.len() && 0 <= l < fs.len() && k != l && fs[k] != no_edit() && fs[l]
                    != no_edit() implies (#[trigger] fs[k]).end <= (#[trigger] fs[l]).start
                || fs[l].end <= fs[k].start by {
                assert(fs[k] == es[k] && fs[l] == es[l]);
            }
        }
        lemma_several(t, fs, e.start);
    }
}

/// A child of a block is a balanced block of the board, outside of strings.
proof fn lemma_child_in_board(h: Seq<u8>, s: int, e: int, k: int)
    requires
        0 <= s < e <= h.len(),
        outside(scan(h, 0, s)),
        0 <= k < child_spans(h.subrange(s, e)).len(),
    ensures
        ({
            let c = child_spans(h.subrange(s, e))[k];
            &&& 0 < c.0 < c.1 <= e - s
            &&& outside(scan(h, 0, s + c.0))
        }),
{
    let t = h.subrange(s, e);
    let c = child_spans(t)[k];
    law_children_are_the_direct_lists(t);
    assert(is_child(t, c.0, c.1));
    assert(scan(t, 0, 0).depth == 0);
    let y = h.subrange(s, s + c.0);
    lemma_scan_run(h, 0, s, s + c.0);
    lemma_scan_run(t, 0, 0, c.0);
    assert(t.subrange(0, c.0) =~= y);
    lemma_run_flags(scan(h, 0, s), scan(t, 0, 0), y);
}

/// Every place that a rotation touches is a list of the board that stands
/// outside of strings.
pub proof fn lemma_turning_place(h: Seq<u8>, s: int, e: int, i: int)
    requires
        valid_utf8(h),
        0 <= s < e <= h.len(),
        piece(h, s, e),
        outside(scan(h, 0, s)),
        rotation_places(h, (s, e)) is Some,
        0 <= i < rotation_places(h, (s, e)).unwrap().len(),
    ensures
        ({
            let a = rotation_places(h, (s, e)).unwrap()[i];
            &&& s < a.0 < a.1 <= e
            &&& cut(h, a.0)
            &&& h[a.0] == OPEN
            &&& balanced_block(h, a.0) == Some(a)
            &&& outside(scan(h, 0, a.0))
        }),
{
    let t = h.subrange(s, e);
    lemma_cut_valid(h, s, e);
    let places = turning_places(t).unwrap();
    let a = rotation_places(h, (s, e)).unwrap()[i];
    assert(a == (places[i].0 + s, places[i].1 + s));
    if i == 0 {
        lemma_block_anchor(h, (s, e));
        lemma_anchor_in_board(h, s, e);
    } else {
        let n = child_spans(t).len() as int;
        lemma_child_anchors(t, n);
        let b = child_anchors(t, n)[i - 1];
        assert(places[i] == b);
        assert(places_a_child(t, n, b));
        let k = choose|m: int|
            0 <= m < n && #[trigger] child_anchor(t, child_spans(t)[m]) == Some(b);
        let c = child_spans(t)[k];
        lemma_child_in_board(h, s, e, k);
        lemma_child_cut(t, k);
        lemma_piece_in(h, s, e, c.0, c.1);
        assert(t.subrange(c.0, c.1) =~= h.subrange(s + c.0, s + c.1));
        lemma_block_anchor(h, (s + c.0, s + c.1));
        lemma_anchor_in_board(h, s + c.0, s + c.1);
    }
}

/// A board in which a footprint was rotated parses still.
pub proof fn law_rotating_a_footprint_keeps_a_board(
    s: Seq<char>,
    reference: Seq<char>,
    ats: Seq<AtText>,
)
    requires
        is_board(s),
        rotated(bytes_of(s), reference, ats) is Ok,
        forall|k: int| 0 <= k < ats.len() ==> numbered_at(#[trigger] ats[k]),
        outside(scan(bytes_of(s), 0, footprint_span(bytes_of(s), reference).unwrap().0)),
    ensures
        is_board(text_of(rotated(bytes_of(s), reference, ats)->Ok_0)),
{
    let h = bytes_of(s);
    lemma_bytes_valid(s);
    lemma_footprint_from(h, reference, 0);
    let span = footprint_span(h, reference).unwrap();
    let places = rotation_places(h, span).unwrap();
    let es = rewrites(places, ats);
    lemma_board_before(s, span.0);
    let t = h.subrange(span.0, span.1);
    lemma_cut_valid(h, span.0, span.1);
    law_turning_places_are_apart(t);
    let turning = turning_places(t).unwrap();
    assert forall|k: int| 0 <= k < es.len() implies swaps_a_list(s, #[trigger] es[k])
        && es[k].start < es[k].end <= span.1 by {
        lemma_turning_place(h, span.0, span.1, k);
        lemma_at_node(ats[k]);
    }
    assert forall|k: int, l: int| 0 <= k < es.len() && 0 <= l < es.len() && k != l implies (
    #[trigger] es[k]).end <= (#[trigger] es[l]).start || es[l].end <= es[k].start by {
        assert(places[k] == (turning[k].0 + span.0, turning[k].1 + span.0));
        assert(places[l] == (turning[l].0 + span.0, turning[l].1 + span.0));
        if k < l {
            assert(turning[k].1 <= turning[l].0 || turning[l].1 <= turning[k].0);
        } else {
            assert(turning[l].1 <= turning[k].0 || turning[k].1 <= turning[l].0);
        }
    }
    assert(swap_lists(s, es, span.1));
    lemma_several(s, es, span.1);
}

/// `a` is the anchor of the footprint with this reference.
spec fn is_anchor(h: Seq<u8>, reference: Seq<char>, a: (int, int)) -> bool {
    footprint_span(h, reference) matches Some(span) && block_anchor(h, span) == Some(a)
}

proof fn lemma_anchors(h: Seq<u8>, refs: Seq<Seq<char>>, k: int)
    requires
        0 <= k <= refs.len(),
        anchors(h, refs, k) is Ok,
    ensures
        anchors(h, refs, k)->Ok_0.len() == k,
        forall|i: int|
            0 <= i < k ==> #[trigger] is_anchor(h, refs[i], anchors(h, refs, k)->Ok_0[i]),
    decreases k,
{
    if k > 0 {
        lemma_anchors(h, refs, k - 1);
        let v = anchors(h, refs, k - 1)->Ok_0;
        let w = anchors(h, refs, k)->Ok_0;
        assert forall|i: int| 0 <= i < k implies #[trigger] is_anchor(h, refs[i], w[i]) by {
            if i < k - 1 {
                assert(is_anchor(h, refs[i], v[i]));
            }
        }
    }
}

/// A board in which footprints were aligned parses still. Each of them is named
/// once, so that their anchors are apart.
pub proof fn law_aligning_footprints_keeps_a_board(
    s: Seq<char>,
    refs: Seq<Seq<char>>,
    ats: Seq<AtText>,
)
    requires
        is_board(s),
        aligned(bytes_of(s), refs, ats) is Ok,
        ats.len() == refs.len(),
        forall|k: int| 0 <= k < ats.len() ==> numbered_at(#[trigger] ats[k]),
        forall|k: int|
            0 <= k < refs.len() ==> outside(
                scan(bytes_of(s), 0, footprint_span(bytes_of(s), #[trigger] refs[k]).unwrap().0),
            ),
        ({
            let v = anchors(bytes_of(s), refs, refs.len() as int)->Ok_0;
            forall|k: int, l: int|
                0 <= k < l < v.len() ==> (#[trigger] v[k]).1 <= (#[trigger] v[l]).0 || v[l].1
                    <= v[k].0
        }),
    ensures
        is_board(text_of(aligned(bytes_of(s), refs, ats)->Ok_0)),
{
    let h = bytes_of(s);
    let n = h.len() as int;
    lemma_bytes_valid(s);
    let v = anchors(h, refs, refs.len() as int)->Ok_0;
    lemma_anchors(h, refs, refs.len() as int);
    let es = rewrites(v, ats);
    assert forall|k: int| 0 <= k < es.len() implies swaps_a_list(s, #[trigger] es[k])
        && es[k].start < es[k].end <= n by {
        let span = footprint_span(h, refs[k]).unwrap();
        assert(is_anchor(h, refs[k], v[k]));
        lemma_footprint_from(h, refs[k], 0);
        lemma_block_anchor(h, span);
        lemma_anchor_in_board(h, span.0, span.1);
        lemma_board_before(s, span.0);
        lemma_at_node(ats[k]);
    }
    assert forall|k: int, l: int| 0 <= k < es.len() && 0 <= l < es.len() && k != l implies (
    #[trigger] es[k]).end <= (#[trigger] es[l]).start || es[l].end <= es[k].start by {
        if k < l {
            assert(v[k].1 <= v[l].0 || v[l].1 <= v[k].0);
        } else {
            assert(v[l].1 <= v[k].0 || v[k].1 <= v[l].0);
        }
    }
    assert(swap_lists(s, es, n));
    lemma_several(s, es, n);
}

/// A board begins where its first block does, or before.
proof fn lemma_board_before(s: Seq<char>, a: int)
    requires
        is_board(s),
        cut(bytes_of(s), a),
        a < bytes_of(s).len(),
        bytes_of(s)[a] == OPEN,
    ensures
        skip_space(s, 0) <= char_at(bytes_of(s), a),
        offset(s, skip_space(s, 0)) <= a,
{
    let h = bytes_of(s);
    lemma_char_at(s, a);
    let f = char_at(h, a);
    lemma_char_is(s, f, '(');
    lemma_skip_space(s, 0);
    lemma_spaces_skipped(s, 0);
    if f < skip_space(s, 0) {
        assert(is_space(s[f]));
    }
    lemma_piece(s, skip_space(s, 0), f);
}

// Adding a block
/// The text is one list and nothing else.
pub open spec fn is_block(b: Seq<char>) -> bool {
    &&& b.len() > 0
    &&& b[0] == '('
    &&& node_from(b, 0) matches Ok(n) && n.1 == b.len()
}

/// A board to which a block was added, on a line of its own, has it behind its
/// other nodes.
pub proof fn law_adding_a_block_keeps_the_rest(s: Seq<char>, b: Seq<char>)
    requires
        is_board(s),
        is_block(b),
    ensures
        gains(
            s,
            text_of(grown(bytes_of(s), bytes_of("\n  "@) + bytes_of(b))),
            node_from(b, 0)->Ok_0.0,
        ),
{
    reveal_strlit("\n  ");
    let w = "\n  "@;
    let n = node_from(b, 0)->Ok_0.0;
    let q = b.push(')');
    let m = b.len() as int;
    assert(agree(b, q, m));
    lemma_node_same(b, q, m);
    assert(q[m] == ')');
    assert(skip_space(q, m) == m);
    assert(skip_space(q, 0) == 0);
    assert(seq![n] + Seq::<Tree>::empty() =~= seq![n]);
    assert(list_from(q, m) == Ok::<(Seq<Tree>, int), SexpError>((seq![], m + 1)));
    assert(q[0] == '(');
    assert(node_from(q, 0) == Ok::<(Tree, int), SexpError>((n, m)));
    assert(list_from(q, 0) == Ok::<(Seq<Tree>, int), SexpError>((seq![n], m + 1)));
    assert forall|k: int| 0 <= k < w.len() implies is_space(w[k]) by {}
    lemma_items_lead(w, b);
    lemma_bytes_concat(w, b);
    let x = w + b;
    assert(x[0] == w[0]);
    assert(grown(bytes_of(s), bytes_of(w) + bytes_of(b)) =~= appended(bytes_of(s), x));
    lemma_gains(s, x, n);
}

/// A copy of a block that was added to a board stands behind its other nodes,
/// as it was but for its place.
pub proof fn law_adding_a_copy_keeps_the_rest(s: Seq<char>, b: Seq<char>, at: AtText)
    requires
        is_board(s),
        is_block(b),
        numbered_at(at),
        copy_added(bytes_of(s), bytes_of(b), at) is Ok,
    ensures
        ({
            let t = bytes_of(b);
            let a = block_anchor(t, (0, t.len() as int)).unwrap();
            gains(
                s,
                text_of(copy_added(bytes_of(s), t, at)->Ok_0),
                Tree::List(with_swapped(b, 1, char_at(t, a.0), seq![at_node(at)])),
            )
        }),
{
    let h = bytes_of(b);
    let e = h.len() as int;
    let m = b.len() as int;
    lemma_bytes_valid(b);
    lemma_bytes_len(b);
    lemma_cut_ends(h);
    lemma_block_anchor(h, (0, e));
    let a = block_anchor(h, (0, e)).unwrap();
    lemma_anchor_in_board(h, 0, e);
    lemma_char_at(b, a.0);
    let p = char_at(h, a.0);
    lemma_char_is(b, p, '(');
    assert(skip_space(b, 0) == 0);
    assert(skip_space(b, m) == m);
    assert(b.subrange(0, 0) =~= Seq::<char>::empty());
    assert(bytes_of(Seq::<char>::empty()) =~= Seq::<u8>::empty());
    lemma_order(b, 0, p);
    lemma_node_of_board(b, p);
    lemma_node_block(b, p);
    let q = node_from(b, p)->Ok_0.1;
    let x = at_text(at);
    lemma_replaced_text(b, p, q, x);
    lemma_replaced_bytes(b, p, q, x);
    let c = b.subrange(0, p) + x + b.subrange(q, m);
    lemma_at_node(at);
    assert(swaps(b, c, p, p, q, x));
    lemma_goes_on_with(b, c, p, q, x, at_node(at));
    lemma_swap_parsed(b, c, p, p, q, x, seq![at_node(at)]);
    // The copy is a block again.
    lemma_list_end(b, 1);
    lemma_node_end(b, p, q);
    assert(c[0] == b[0]);
    assert(c[c.len() - 1] == b[m - 1]);
    assert(skip_space(c, 0) == 0);
    lemma_node_from(c, 0);
    let f = node_from(c, 0)->Ok_0.1;
    lemma_spaces_skipped(c, f);
    if f < c.len() {
        assert(is_space(c[c.len() - 1]));
    }
    law_adding_a_block_keeps_the_rest(s, c);
}

/// A node inside a block ends before the block does.
proof fn lemma_node_end(b: Seq<char>, p: int, q: int)
    requires
        is_block(b),
        0 < p < q <= b.len(),
        visited(b, 1, p),
        node_from(b, p) matches Ok(n) && n.1 == q,
    ensures
        q < b.len(),
{
    assert(skip_space(b, 0) == 0);
    lemma_visited_end(b, 1, p);
}

proof fn lemma_visited_end(s: Seq<char>, i: int, p: int)
    requires
        0 <= i <= s.len(),
        visited(s, i, p),
        list_from(s, i) is Ok,
    ensures
        node_from(s, p) is Ok,
        node_from(s, p)->Ok_0.1 < list_from(s, i)->Ok_0.1,
    decreases s.len() - i,
{
    let a = skip_space(s, i);
    lemma_skip_space(s, i);
    let n = node_from(s, a)->Ok_0;
    lemma_list_end(s, n.1);
    if p != a {
        if p < n.1 {
            assert(skip_space(s, a) == a);
            lemma_visited_end(s, a + 1, p);
        } else {
            lemma_visited_end(s, n.1, p);
        }
    }
}

// Changing a track
/// A track is changed by leaving out the old one and adding the new one at the
/// end, as deleting and routing do.
pub proof fn law_changing_a_track_is_deleting_and_routing(
    h: Seq<u8>,
    uuid: Seq<char>,
    net_name: Seq<char>,
    layer: Seq<char>,
    from: PointText,
    to: PointText,
    width: Seq<char>,
    new_uuid: Seq<char>,
)
    requires
        valid_utf8(h),
        track_changed(h, uuid, net_name, layer, from, to, width, new_uuid) is Ok,
        track_lines(h, uuid).unwrap().1 <= close_of(h) < h.len(),
    ensures
        ({
            let lines = track_lines(h, uuid).unwrap();
            track_changed(h, uuid, net_name, layer, from, to, width, new_uuid)->Ok_0 == appended(
                replaced(h, lines.0, lines.1, Seq::empty()),
                track_text(from, to, width, layer, net_id(h, net_name), new_uuid),
            )
        }),
{
    let lines = track_lines(h, uuid).unwrap();
    let b = uuid_block(h, track_heads(), uuid).unwrap();
    lemma_uuid_place(h, uuid);
    lemma_line_start(h, b.0);
    lemma_block_end(h, b.0, b.0);
    let c = close_of(h);
    let n = h.len() as int;
    let text = track_text(from, to, width, layer, net_id(h, net_name), new_uuid);
    let x = bytes_of(text);
    let es = seq![
        Edit { start: lines.0, end: lines.1, text: Seq::empty() },
        Edit { start: c, end: c, text },
    ];
    assert(is_last(es, 1));
    law_edits_may_be_made_one_by_one(h, es, 1);
    let r = h.subrange(0, c) + x + h.subrange(c, n);
    let d = Edit { start: lines.0, end: lines.1, text: Seq::empty() };
    let fs = es.update(1, no_edit());
    assert(is_last(fs, 0));
    law_edits_may_be_made_one_by_one(r, fs, 0);
    assert(bytes_of(Seq::<char>::empty()) =~= Seq::<u8>::empty());
    let w = r.subrange(0, d.start) + Seq::<u8>::empty() + r.subrange(d.end, r.len() as int);
    lemma_never_made(w, fs.update(0, no_edit()));
    // The last parenthesis is the same one.
    let g = replaced(h, lines.0, lines.1, Seq::empty());
    let e = c - (lines.1 - lines.0);
    let p = bytes_of(")"@);
    reveal_strlit(")");
    assert(")"@ =~= seq![')']);
    lemma_ascii_byte(')');
    lemma_rfind(h, p, n - 1);
    lemma_rfind(g, p, g.len() - 1);
    assert(h.subrange(c, c + 1) == p);
    assert(g.subrange(e, e + 1) =~= h.subrange(c, c + 1));
    assert(occurs_at(g, p, e));
    assert forall|j: int| e < j <= g.len() - 1 implies !occurs_at(g, p, j) by {
        if occurs_at(g, p, j) {
            let i = j + (lines.1 - lines.0);
            assert(g.subrange(j, j + 1) =~= h.subrange(i, i + 1));
            assert(occurs_at(h, p, i));
        }
    }
    assert(close_of(g) == e);
    assert(w =~= appended(g, text));
}

} // verus!
