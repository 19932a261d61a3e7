//! Deleting a track takes back what routing it did.
use crate::board::{close_of, head_in, lemma_close_of, replaced};
use crate::lines::{block_text, lines, needs_no_escape, node_one, quoted};
use crate::numbers::is_number;
use crate::reread::{lemma_int_is_number, lemma_number_is_word};
use crate::routing::{appended, track_heads, track_lines, track_text, PointText};
use crate::scan::{
    balanced_block, block_end, child_spans, closes, is_child, law_children_are_the_direct_lists,
    lemma_block_end, scan, CLOSE, OPEN,
};
use crate::steady::{
    flat, lemma_block_text_end, lemma_run_list, lemma_scan_run, lemma_steady_join,
    lemma_steady_lines, lemma_steady_list, lemma_steady_one, lemma_steady_quoted,
    lemma_steady_space, lemma_steady_two, lemma_steady_word, run, steady,
};
use crate::text::{
    bytes_of, find_at, holds, lemma_ascii_byte, lemma_bytes_concat, lemma_bytes_valid, lemma_find,
    lemma_rfind, lemma_text_of, occurs_at, text_of,
};
use crate::tracks::{
    blanks_before, headed_child, lemma_headed_child, line_start, segment_parts, uuid_block,
    uuid_block_from, uuid_mark, via_parts, via_text,
};
use crate::words::{ends_head, head_end, head_of, int_chars, is_word};
use vstd::prelude::*;
use vstd::string::*;
use vstd::utf8::*;

verus! {

/// The last parenthesis of the board is the one that closes it.
pub open spec fn closes_last(h: Seq<u8>) -> bool {
    close_of(h) < h.len() && closes(h, 0, close_of(h), 1)
}

/// A block is where it was in a text that only differs behind it.
pub proof fn lemma_block_same(h: Seq<u8>, r: Seq<u8>, start: int, c: int)
    requires
        0 <= start,
        0 <= c <= h.len(),
        c <= r.len(),
        h.subrange(0, c) == r.subrange(0, c),
        balanced_block(h, start) matches Some(b) && b.1 <= c,
    ensures
        balanced_block(r, start) == balanced_block(h, start),
{
    let e = block_end(h, start, start)->Some_0;
    lemma_block_end(h, start, start);
    lemma_block_end(r, start, start);
    assert forall|k: int| 0 <= k < c implies #[trigger] h[k] == r[k] by {
        assert(h.subrange(0, c)[k] == h[k]);
        assert(r.subrange(0, c)[k] == r[k]);
    }
    assert forall|j: int| start <= j < e implies scan(h, start, j) == scan(r, start, j) && h[j]
        == r[j] by {
        lemma_scan_run(h, start, start, j);
        lemma_scan_run(r, start, start, j);
        assert(h.subrange(start, j) =~= r.subrange(start, j));
    }
    assert(closes(r, start, e - 1, 1));
    assert forall|j: int| start <= j < e - 1 implies !closes(r, start, j, 1) by {
        assert(!closes(h, start, j, 1));
    }
}

proof fn lemma_lines_front(parts: Seq<Seq<char>>)
    requires
        parts.len() > 0,
    ensures
        lines(parts).len() > 0,
        lines(parts)[0] == '\n',
    decreases parts.len(),
{
    reveal_strlit("\n    ");
    if parts.len() > 1 {
        lemma_lines_front(parts.drop_last());
    } else {
        assert(lines(parts.drop_last()) =~= Seq::<char>::empty());
    }
}

proof fn lemma_head_run(s: Seq<char>, i: int, e: int)
    requires
        0 <= i <= e < s.len(),
        ends_head(s[e]),
        forall|k: int| i <= k < e ==> !ends_head(#[trigger] s[k]),
    ensures
        head_end(s, i) == e,
    decreases e - i,
{
    if i < e {
        assert(!ends_head(s[i]));
        lemma_head_run(s, i + 1, e);
    }
}

/// The head of a list on lines.
proof fn lemma_block_head(head: Seq<char>, parts: Seq<Seq<char>>)
    requires
        is_word(head),
        parts.len() > 0,
    ensures
        ({
            let b = bytes_of(block_text(head, parts));
            b.len() >= 3 && head_of(text_of(b.subrange(3, b.len() as int))) == head
        }),
{
    reveal_strlit("\n  ");
    reveal_strlit("(");
    reveal_strlit(")");
    lemma_lines_front(parts);
    let w = "\n  "@;
    let t = "("@ + (head + lines(parts) + w) + ")"@;
    lemma_bytes_concat(w, t);
    is_ascii_chars_encode_utf8(w);
    let b = bytes_of(block_text(head, parts));
    assert(b.subrange(3, b.len() as int) =~= bytes_of(t));
    lemma_text_of(t);
    let e = head.len() as int + 1;
    assert(t[e] == lines(parts)[0]);
    assert forall|k: int| 1 <= k < e implies !ends_head(#[trigger] t[k]) by {
        assert(t[k] == head[k - 1]);
    }
    lemma_head_run(t, 1, e);
    assert(head_of(t) =~= head);
}

/// A list on lines that stands directly inside the board is one of its blocks.
proof fn lemma_block_is_child(r: Seq<u8>, c: int, head: Seq<char>, parts: Seq<Seq<char>>)
    requires
        is_word(head),
        forall|k: int| 0 <= k < parts.len() ==> steady(#[trigger] parts[k]),
        0 <= c,
        c + bytes_of(block_text(head, parts)).len() <= r.len(),
        r.subrange(c, c + bytes_of(block_text(head, parts)).len()) == bytes_of(
            block_text(head, parts),
        ),
        scan(r, 0, c) == flat(1),
    ensures
        is_child(r, c + 3, c + bytes_of(block_text(head, parts)).len()),
        scan(r, 0, c + bytes_of(block_text(head, parts)).len()) == flat(1),
{
    reveal_strlit("\n  ");
    let w = "\n  "@;
    let inner = head + lines(parts) + w;
    let x = bytes_of(inner);
    let b = bytes_of(block_text(head, parts));
    lemma_steady_word(head);
    lemma_block_text_end(r, c, head, parts);
    lemma_steady_lines(parts);
    lemma_steady_space(w);
    lemma_steady_join(head, lines(parts));
    lemma_steady_join(head + lines(parts), w);
    lemma_steady_list(inner);
    lemma_bytes_concat(w, "("@ + inner + ")"@);
    is_ascii_chars_encode_utf8(w);
    let y = seq![OPEN] + x + seq![CLOSE];
    let s = c + 3;
    let e = c + b.len();
    assert(e == s + y.len());
    assert(r.subrange(s, e) =~= y) by {
        assert forall|k: int| 0 <= k < y.len() implies r.subrange(s, e)[k] == y[k] by {
            assert(r.subrange(c, e)[k + 3] == b[k + 3]);
        }
    }
    assert(scan(r, 0, c + 1) == flat(1));
    assert(scan(r, 0, c + 2) == flat(1));
    assert(scan(r, 0, c + 3) == flat(1));
    lemma_run_list(x, 1);
    assert forall|m: int| s <= m <= e implies #[trigger] scan(r, 0, m) == run(
        flat(1),
        y.take(m - s),
    ) by {
        lemma_scan_run(r, 0, s, m);
        assert(r.subrange(s, m) =~= y.take(m - s));
    }
    assert(y.take(y.len() as int) =~= y);
    assert(scan(r, 0, e) == flat(1));
    assert(scan(r, 0, e - 1) == flat(2));
    assert(r[e - 1] == r.subrange(s, e)[y.len() - 1]);
    assert(closes(r, 0, e - 1, 2));
    assert forall|m: int| s < m < e implies (#[trigger] scan(r, 0, m)).depth >= 2 by {
        assert(run(flat(1), y.take(m - s)).depth >= 2);
    }
}

/// Of the blocks of the board that got a list on lines at its end, the new one
/// alone holds the mark that is in the list and was not in the board.
proof fn lemma_only_block(h: Seq<u8>, r: Seq<u8>, e: int, mark: Seq<u8>) -> (l: int)
    requires
        closes_last(h),
        !holds(h, mark),
        0 <= close_of(h) < h.len(),
        forall|j: int| close_of(h) < j < h.len() ==> h[j] != CLOSE,
        close_of(h) + 3 < e,
        r.len() == h.len() + e - close_of(h),
        r.subrange(0, close_of(h)) == h.subrange(0, close_of(h)),
        r.subrange(e, r.len() as int) == h.subrange(close_of(h), h.len() as int),
        r[close_of(h)] == 10,
        r[close_of(h) + 1] == 32,
        r[close_of(h) + 2] == 32,
        is_child(r, close_of(h) + 3, e),
        scan(r, 0, e) == flat(1),
    ensures
        0 <= l < child_spans(r).len(),
        child_spans(r)[l] == (close_of(h) + 3, e),
        forall|m: int|
            0 <= m < child_spans(r).len() && m != l ==> {
                let b = #[trigger] child_spans(r)[m];
                !holds(r.subrange(b.0, b.1), mark)
            },
{
    let c = close_of(h);
    law_children_are_the_direct_lists(r);
    assert(closes(r, 0, e - 1, 2));
    let l = choose|l: int|
        0 <= l < child_spans(r).len() && (#[trigger] child_spans(r)[l]).1 == e - 1 + 1;
    let f = child_spans(r)[l];
    assert(is_child(r, f.0, f.1));
    assert(f.0 == c + 3) by {
        if f.0 < c + 3 {
            assert(scan(r, 0, c + 3).depth >= 2);
        } else if f.0 > c + 3 {
            assert(scan(r, 0, f.0).depth >= 2);
        }
    }
    assert forall|m: int| 0 <= m < child_spans(r).len() && m != l implies {
        let b = #[trigger] child_spans(r)[m];
        !holds(r.subrange(b.0, b.1), mark)
    } by {
        let b = child_spans(r)[m];
        assert(is_child(r, b.0, b.1));
        assert(r[b.1 - 1] == CLOSE);
        if m < l {
            assert(b.1 <= f.0);
            assert(b.1 <= c);
            assert(r.subrange(b.0, b.1) =~= h.subrange(b.0, b.1)) by {
                assert forall|j: int| b.0 <= j < b.1 implies r[j] == h[j] by {
                    assert(h.subrange(0, c)[j] == r.subrange(0, c)[j]);
                }
            }
            let p = h.subrange(b.0, b.1);
            if holds(p, mark) {
                let i = find_at(p, mark, 0)->Some_0;
                lemma_find(p, mark, 0);
                assert(h.subrange(b.0 + i, b.0 + i + mark.len()) =~= p.subrange(i, i + mark.len()));
                assert(occurs_at(h, mark, b.0 + i));
                lemma_find(h, mark, 0);
            }
        } else {
            assert(f.1 <= b.0);
            let j = b.1 - 1;
            assert(r.subrange(e, r.len() as int)[j - e] == r[j]);
            assert(h.subrange(c, h.len() as int)[j - e] == h[c + j - e]);
            assert(j == e);
            assert(false);
        }
    }
    l
}

/// Whichever head is looked for, the block with the mark is found by its own.
proof fn lemma_headed_only(r: Seq<u8>, mark: Seq<u8>, l: int, head: Seq<char>)
    requires
        0 <= l < child_spans(r).len(),
        holds(r.subrange(child_spans(r)[l].0, child_spans(r)[l].1), mark),
        forall|m: int|
            0 <= m < child_spans(r).len() && m != l ==> {
                let b = #[trigger] child_spans(r)[m];
                !holds(r.subrange(b.0, b.1), mark)
            },
    ensures
        headed_child(r, head, mark, 0) == (if head_in(r, child_spans(r)[l]) == head {
            Some(child_spans(r)[l])
        } else {
            None
        }),
{
    lemma_headed_child(r, head, mark, 0);
    let f = child_spans(r)[l];
    match headed_child(r, head, mark, 0) {
        Some(b) => {
            let m = choose|m: int|
                0 <= m < child_spans(r).len() && #[trigger] child_spans(r)[m] == b && head_in(r, b)
                    == head && holds(r.subrange(b.0, b.1), mark);
            assert(m == l);
        },
        None => {
            assert(!(head_in(r, f) == head && holds(r.subrange(f.0, f.1), mark)));
        },
    }
}

/// What is appended to a board under a new identity is found by it.
proof fn lemma_found(
    s: Seq<char>,
    head: Seq<char>,
    parts: Seq<Seq<char>>,
    uuid: Seq<char>,
    g: Seq<char>,
)
    requires
        closes_last(bytes_of(s)),
        !holds(bytes_of(s), bytes_of(uuid_mark(uuid))),
        is_word(head),
        parts.len() > 0,
        parts.last() == node_one("uuid"@, quoted(uuid)),
        forall|k: int| 0 <= k < parts.len() ==> steady(#[trigger] parts[k]),
    ensures
        ({
            let c = close_of(bytes_of(s));
            let r = appended(bytes_of(s), block_text(head, parts));
            let e = c + bytes_of(block_text(head, parts)).len();
            &&& headed_child(r, g, bytes_of(uuid_mark(uuid)), 0) == (if g == head {
                Some((c + 3, e))
            } else {
                None
            })
            &&& 0 <= c < c + 3 < e <= r.len()
            &&& r[c] == 10
            &&& r[c + 1] == 32
            &&& r[c + 2] == 32
        }),
{
    let h = bytes_of(s);
    let c = close_of(h);
    let x = bytes_of(block_text(head, parts));
    let r = appended(h, block_text(head, parts));
    let mark = bytes_of(uuid_mark(uuid));
    let e = c + x.len();
    lemma_bytes_valid(s);
    lemma_last_close(h);
    lemma_steady_word(head);
    lemma_uuid_in_block(head, parts, uuid);
    assert(r.subrange(c, e) =~= x);
    assert(r.subrange(0, c) =~= h.subrange(0, c));
    assert(r.subrange(e, r.len() as int) =~= h.subrange(c, h.len() as int));
    lemma_block_text_end(r, c, head, parts);
    lemma_scan_run(h, 0, 0, c);
    lemma_scan_run(r, 0, 0, c);
    assert(scan(r, 0, c) == flat(1));
    lemma_block_is_child(r, c, head, parts);
    let l = lemma_only_block(h, r, e, mark);
    assert(r.subrange(c + 3, e) =~= x.subrange(3, x.len() as int));
    lemma_block_head(head, parts);
    assert(head_in(r, (c + 3, e)) == head);
    lemma_headed_only(r, mark, l, g);
}

/// What is appended to a board under a new identity is deleted by it again.
proof fn lemma_undone(s: Seq<char>, head: Seq<char>, parts: Seq<Seq<char>>, uuid: Seq<char>)
    requires
        closes_last(bytes_of(s)),
        !holds(bytes_of(s), bytes_of(uuid_mark(uuid))),
        head == "segment"@ || head == "via"@,
        is_word(head),
        parts.len() > 0,
        parts.last() == node_one("uuid"@, quoted(uuid)),
        forall|k: int| 0 <= k < parts.len() ==> steady(#[trigger] parts[k]),
    ensures
        ({
            let r = appended(bytes_of(s), block_text(head, parts));
            track_lines(r, uuid) matches Some(b) && replaced(r, b.0, b.1, Seq::empty())
                == bytes_of(s)
        }),
{
    let h = bytes_of(s);
    let c = close_of(h);
    let r = appended(h, block_text(head, parts));
    let e = c + bytes_of(block_text(head, parts)).len();
    lemma_found(s, head, parts, uuid, "segment"@);
    lemma_found(s, head, parts, uuid, "via"@);
    assert(track_heads()[0] == "segment"@);
    assert(track_heads()[1] == "via"@);
    assert(uuid_block_from(r, track_heads(), uuid, 0) == Some((c + 3, e))) by {
        if head != "segment"@ {
            assert(uuid_block_from(r, track_heads(), uuid, 1) == Some((c + 3, e)));
        }
    }
    assert(uuid_block(r, track_heads(), uuid) == Some((c + 3, e)));
    assert(blanks_before(r, c + 1) == c + 1);
    assert(blanks_before(r, c + 2) == c + 1);
    assert(blanks_before(r, c + 3) == c + 1);
    assert(line_start(r, c + 3) == c);
    assert(bytes_of(Seq::<char>::empty()) =~= Seq::<u8>::empty());
    assert(replaced(r, c, e, Seq::empty()) =~= h);
}

/// Behind the last parenthesis there is none.
proof fn lemma_last_close(h: Seq<u8>)
    requires
        valid_utf8(h),
        closes_last(h),
    ensures
        0 <= close_of(h) < h.len(),
        forall|j: int| close_of(h) < j < h.len() ==> h[j] != CLOSE,
{
    let p = bytes_of(")"@);
    reveal_strlit(")");
    assert(")"@ =~= seq![')']);
    lemma_ascii_byte(')');
    lemma_rfind(h, p, h.len() - 1);
    lemma_close_of(h);
    assert forall|j: int| close_of(h) < j < h.len() implies h[j] != CLOSE by {
        if h[j] == CLOSE {
            assert(h.subrange(j, j + 1) =~= p);
            assert(occurs_at(h, p, j));
        }
    }
}

/// Where the identity of a track stands in its text.
proof fn lemma_uuid_in_block(head: Seq<char>, parts: Seq<Seq<char>>, uuid: Seq<char>)
    requires
        parts.len() > 0,
        parts.last() == node_one("uuid"@, quoted(uuid)),
    ensures
        ({
            let b = bytes_of(block_text(head, parts));
            b.len() >= 4 && holds(b.subrange(3, b.len() as int), bytes_of(uuid_mark(uuid)))
        }),
{
    reveal_strlit("\n  ");
    reveal_strlit("(");
    reveal_strlit("uuid");
    reveal_strlit(" ");
    reveal_strlit("\"");
    reveal_strlit(")");
    reveal_strlit("(uuid \"");
    reveal_strlit("\")");
    let mark = bytes_of(uuid_mark(uuid));
    let w = "\n  "@;
    let front = "("@ + head + lines(parts.drop_last()) + "\n    "@;
    assert(uuid_mark(uuid) =~= node_one("uuid"@, quoted(uuid)));
    let text = "("@ + (head + lines(parts) + w) + ")"@;
    let back = w + ")"@;
    assert(text =~= front + uuid_mark(uuid) + back);
    lemma_bytes_concat(front, uuid_mark(uuid));
    lemma_bytes_concat(front + uuid_mark(uuid), back);
    lemma_bytes_concat(w, text);
    is_ascii_chars_encode_utf8(w);
    lemma_bytes_concat("("@, head + lines(parts.drop_last()) + "\n    "@);
    assert(front =~= "("@ + (head + lines(parts.drop_last()) + "\n    "@));
    is_ascii_chars_encode_utf8("("@);
    let b = bytes_of(block_text(head, parts));
    let t = bytes_of(text);
    let i = bytes_of(front).len() as int;
    assert(b =~= bytes_of(w) + t);
    assert(b.subrange(3, b.len() as int) =~= t);
    assert(t.subrange(i, i + mark.len()) =~= mark);
    assert(occurs_at(t, mark, i));
    lemma_find(t, mark, 0);
}

proof fn lemma_segment_steady(
    x1: Seq<char>,
    y1: Seq<char>,
    x2: Seq<char>,
    y2: Seq<char>,
    width: Seq<char>,
    layer: Seq<char>,
    net_id: int,
    uuid: Seq<char>,
)
    requires
        is_number(x1),
        is_number(y1),
        is_number(x2),
        is_number(y2),
        is_number(width),
        needs_no_escape(layer),
        needs_no_escape(uuid),
    ensures
        forall|k: int|
            0 <= k < 6 ==> steady(
                #[trigger] segment_parts(x1, y1, x2, y2, width, layer, net_id, uuid)[k],
            ),
        is_word("segment"@),
{
    reveal_strlit("segment");
    reveal_strlit("start");
    reveal_strlit("end");
    reveal_strlit("width");
    reveal_strlit("layer");
    reveal_strlit("net");
    reveal_strlit("uuid");
    lemma_number_is_word(x1);
    lemma_number_is_word(y1);
    lemma_number_is_word(x2);
    lemma_number_is_word(y2);
    lemma_number_is_word(width);
    lemma_int_is_number(net_id);
    lemma_number_is_word(int_chars(net_id));
    lemma_steady_word(x1);
    lemma_steady_word(y1);
    lemma_steady_word(x2);
    lemma_steady_word(y2);
    lemma_steady_word(width);
    lemma_steady_word(int_chars(net_id));
    lemma_steady_quoted(layer);
    lemma_steady_quoted(uuid);
    lemma_steady_two("start"@, x1, y1);
    lemma_steady_two("end"@, x2, y2);
    lemma_steady_one("width"@, width);
    lemma_steady_one("layer"@, quoted(layer));
    lemma_steady_one("net"@, int_chars(net_id));
    lemma_steady_one("uuid"@, quoted(uuid));
}

proof fn lemma_via_steady(
    x: Seq<char>,
    y: Seq<char>,
    size: Seq<char>,
    drill: Seq<char>,
    net_id: int,
    uuid: Seq<char>,
)
    requires
        is_number(x),
        is_number(y),
        is_number(size),
        is_number(drill),
        needs_no_escape(uuid),
    ensures
        forall|k: int|
            0 <= k < 6 ==> steady(#[trigger] via_parts(x, y, size, drill, net_id, uuid)[k]),
        is_word("via"@),
{
    reveal_strlit("via");
    reveal_strlit("at");
    reveal_strlit("size");
    reveal_strlit("drill");
    reveal_strlit("layers");
    reveal_strlit("F.Cu");
    reveal_strlit("B.Cu");
    reveal_strlit("net");
    reveal_strlit("uuid");
    lemma_number_is_word(x);
    lemma_number_is_word(y);
    lemma_number_is_word(size);
    lemma_number_is_word(drill);
    lemma_int_is_number(net_id);
    lemma_number_is_word(int_chars(net_id));
    lemma_steady_word(x);
    lemma_steady_word(y);
    lemma_steady_word(size);
    lemma_steady_word(drill);
    lemma_steady_word(int_chars(net_id));
    lemma_steady_quoted("F.Cu"@);
    lemma_steady_quoted("B.Cu"@);
    lemma_steady_quoted(uuid);
    lemma_steady_two("at"@, x, y);
    lemma_steady_one("size"@, size);
    lemma_steady_one("drill"@, drill);
    lemma_steady_two("layers"@, quoted("F.Cu"@), quoted("B.Cu"@));
    lemma_steady_one("net"@, int_chars(net_id));
    lemma_steady_one("uuid"@, quoted(uuid));
}

/// A track segment that was routed under a new identity is the one that is
/// deleted by that identity, and deleting it gives back the board as it was.
pub proof fn law_deleting_undoes_routing(
    s: Seq<char>,
    from: PointText,
    to: PointText,
    width: Seq<char>,
    layer: Seq<char>,
    net: int,
    uuid: Seq<char>,
)
    requires
        closes_last(bytes_of(s)),
        !holds(bytes_of(s), bytes_of(uuid_mark(uuid))),
        is_number(from.x),
        is_number(from.y),
        is_number(to.x),
        is_number(to.y),
        is_number(width),
        needs_no_escape(layer),
        needs_no_escape(uuid),
    ensures
        ({
            let r = appended(bytes_of(s), track_text(from, to, width, layer, net, uuid));
            track_lines(r, uuid) matches Some(b) && replaced(r, b.0, b.1, Seq::empty())
                == bytes_of(s)
        }),
{
    lemma_segment_steady(from.x, from.y, to.x, to.y, width, layer, net, uuid);
    let parts = segment_parts(from.x, from.y, to.x, to.y, width, layer, net, uuid);
    lemma_undone(s, "segment"@, parts, uuid);
}

/// A via that was added under a new identity is the one that is deleted by that
/// identity, and deleting it gives back the board as it was.
pub proof fn law_deleting_undoes_adding_a_via(
    s: Seq<char>,
    at: PointText,
    size: Seq<char>,
    drill: Seq<char>,
    net: int,
    uuid: Seq<char>,
)
    requires
        closes_last(bytes_of(s)),
        !holds(bytes_of(s), bytes_of(uuid_mark(uuid))),
        is_number(at.x),
        is_number(at.y),
        is_number(size),
        is_number(drill),
        needs_no_escape(uuid),
    ensures
        ({
            let r = appended(bytes_of(s), via_text(at.x, at.y, size, drill, net, uuid));
            track_lines(r, uuid) matches Some(b) && replaced(r, b.0, b.1, Seq::empty())
                == bytes_of(s)
        }),
{
    lemma_via_steady(at.x, at.y, size, drill, net, uuid);
    lemma_undone(s, "via"@, via_parts(at.x, at.y, size, drill, net, uuid), uuid);
}

} // verus!
