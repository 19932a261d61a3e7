//! What is done to the nets, the net classes and the tracks of a board.
use crate::answer::{error_answer, Answer};
use crate::board::{close_of, head_in};
use crate::edits::{edited, Edit};
use crate::laws::text::{law_search_finds_the_first, law_search_from_behind_finds_the_last, stands};
use crate::nets::{
    declared_from, declared_net, lacks_net, net_entry, net_id, net_missing, next_net_id,
    number_before, times,
};
use crate::numbers::{i32_value, law_int_reads_back, trimmed};
use crate::routing::{
    assigned, bend_of, class_span, law_assigning_twice_changes_nothing, netclass_place,
    netclass_text, pair_routed, paren_end, parens_even_out, track_changed, track_lines,
    track_missing, track_text, PointText,
};
use crate::scan::child_spans;
use crate::text::{
    bytes_of, find_at, holds, lemma_bytes_concat, lemma_text_of, occurs_at, rfind_at, text_of,
};
use crate::tracks::{headed_child, line_start, uuid_block, uuid_block_from};
use crate::words::int_chars;
use vstd::prelude::*;
use vstd::string::*;
use vstd::utf8::*;

verus! {

// Net classes
/// A net is in a class exactly where the class holds `(net "NAME")` with its own
/// name: then nothing is done. Else it is put before the parenthesis that closes
/// the class, and the board is as it was before and behind it.
pub proof fn law_a_net_is_assigned_by_its_own_name(
    h: Seq<u8>,
    net_name: Seq<char>,
    netclass: Seq<char>,
    p: int,
    e: int,
)
    requires
        class_span(h, netclass) == Some((p, e)),
        0 <= p <= e <= h.len(),
    ensures
        ({
            let own = bytes_of("(net \""@ + net_name + "\")"@);
            let there = exists|i: int| #[trigger] stands(h.subrange(p, e), own, i);
            &&& there ==> assigned(h, net_name, netclass) == Ok::<Option<Seq<u8>>, Answer>(None)
            &&& !there ==> assigned(h, net_name, netclass) == Ok::<Option<Seq<u8>>, Answer>(
                Some(
                    h.subrange(0, e) + bytes_of("\n        (net \""@ + net_name + "\")"@)
                        + h.subrange(e, h.len() as int),
                ),
            )
        }),
{
    law_search_finds_the_first(
        h.subrange(p, e),
        bytes_of("(net \""@ + net_name + "\")"@),
        0,
    );
}

/// Once a net was assigned, the class holds it, and every net that was in the
/// class is still there. The class is closed behind its name, and the
/// parentheses in the name of the net even out.
pub proof fn law_an_assigned_net_is_in_its_class(
    h: Seq<u8>,
    net_name: Seq<char>,
    netclass: Seq<char>,
    r: Seq<u8>,
    other: Seq<char>,
    i: int,
)
    requires
        parens_even_out(net_name),
        class_span(h, netclass) matches Some(c) && c.0 + bytes_of(
            "(netclass \""@ + netclass + "\""@,
        ).len() <= c.1 <= h.len() && 0 <= c.0,
        assigned(h, net_name, netclass) == Ok::<Option<Seq<u8>>, Answer>(Some(r)),
    ensures
        class_span(r, netclass) matches Some(d) && {
            let c = class_span(h, netclass).unwrap();
            let block = r.subrange(d.0, d.1);
            &&& d.0 == c.0 <= d.1 <= r.len()
            &&& exists|j: int| #[trigger] stands(block, bytes_of("(net \""@ + net_name + "\")"@), j)
            &&& stands(h.subrange(c.0, c.1), bytes_of("(net \""@ + other + "\")"@), i) ==> stands(
                block,
                bytes_of("(net \""@ + other + "\")"@),
                i,
            )
        },
{
    let c = class_span(h, netclass).unwrap();
    let entry = "\n        (net \""@ + net_name + "\")"@;
    let t = bytes_of(entry);
    law_assigning_twice_changes_nothing(h, net_name, netclass);
    law_a_net_is_assigned_by_its_own_name(h, net_name, netclass, c.0, c.1);
    assert(r == h.subrange(0, c.1) + t + h.subrange(c.1, h.len() as int));
    let d = class_span(r, netclass).unwrap();
    crate::routing::lemma_class_grows(h, net_name, netclass);
    law_a_net_is_assigned_by_its_own_name(r, net_name, netclass, d.0, d.1);
    let block = r.subrange(d.0, d.1);
    let m = bytes_of("(net \""@ + other + "\")"@);
    let old_block = h.subrange(c.0, c.1);
    if stands(old_block, m, i) {
        assert forall|k: int| 0 <= k < m.len() implies block[i + k] == #[trigger] m[k] by {
            assert(old_block[i + k] == m[k]);
            assert(block[i + k] == r[c.0 + (i + k)]);
            assert(old_block[i + k] == h[c.0 + (i + k)]);
        }
    }
}

/// How many more parentheses open than close between `p` and `j`.
pub open spec fn balance(h: Seq<u8>, p: int, j: int) -> int
    decreases j - p,
{
    if j <= p {
        0
    } else {
        balance(h, p, j - 1) + (if h[j - 1] == 40 {
            1int
        } else if h[j - 1] == 41 {
            -1
        } else {
            0
        })
    }
}

/// A block is closed where as many parentheses close as open, for the first
/// time, whether they stand in quotes or not.
pub proof fn law_parentheses_are_counted(h: Seq<u8>, p: int)
    requires
        0 <= p < h.len(),
        h[p] == 40,
    ensures
        match paren_end(h, p, 0) {
            Some(e) => {
                &&& p < e < h.len()
                &&& h[e] == 41
                &&& balance(h, p, e + 1) == 0
                &&& forall|j: int| p < j <= e ==> #[trigger] balance(h, p, j) >= 1
            },
            None => forall|j: int| p < j <= h.len() ==> #[trigger] balance(h, p, j) >= 1,
        },
{
    assert(balance(h, p, p) == 0);
    assert(balance(h, p, p + 1) == 1);
    lemma_paren(h, p, p + 1);
}

proof fn lemma_paren(h: Seq<u8>, p: int, i: int)
    requires
        0 <= p < i <= h.len(),
        balance(h, p, i) >= 1,
    ensures
        match paren_end(h, i, balance(h, p, i)) {
            Some(e) => {
                &&& i <= e < h.len()
                &&& h[e] == 41
                &&& balance(h, p, e + 1) == 0
                &&& forall|j: int| i <= j <= e ==> #[trigger] balance(h, p, j) >= 1
            },
            None => forall|j: int| i <= j <= h.len() ==> #[trigger] balance(h, p, j) >= 1,
        },
    decreases h.len() - i,
{
    if i < h.len() {
        let d = balance(h, p, i);
        assert(balance(h, p, i + 1) == d + (if h[i] == 40 {
            1int
        } else if h[i] == 41 {
            -1
        } else {
            0
        }));
        if !(h[i] == 41 && d == 1) {
            lemma_paren(h, p, i + 1);
        }
    }
}

/// A net class is the first one with its name, up to where it is closed; one
/// that is missing is told.
pub proof fn law_a_class_is_found_by_its_name(
    h: Seq<u8>,
    net_name: Seq<char>,
    netclass: Seq<char>,
    p: int,
)
    ensures
        (forall|j: int| !#[trigger] stands(h, bytes_of("(netclass \""@ + netclass + "\""@), j))
            ==> class_span(h, netclass) is None && assigned(h, net_name, netclass) == Err::<
            Option<Seq<u8>>,
            Answer,
        >(error_answer("Netclass '"@ + netclass + "' not found in board file"@)),
        0 <= p && stands(h, bytes_of("(netclass \""@ + netclass + "\""@), p) && (forall|j: int|
            0 <= j < p ==> !#[trigger] stands(h, bytes_of("(netclass \""@ + netclass + "\""@), j))
            ==> class_span(h, netclass) == Some(
            (
                p,
                match paren_end(h, p, 0) {
                    Some(e) => e,
                    None => p,
                },
            ),
        ),
{
    let m = bytes_of("(netclass \""@ + netclass + "\""@);
    law_search_finds_the_first(h, m, 0);
    if let Some(i) = find_at(h, m, 0) {
        assert(stands(h, m, i));
    }
}

/// A new net class has its name and its four measures, and goes into the block of
/// net classes if there is one, else to the end of the board.
pub proof fn law_a_new_class_goes_to_the_classes(h: Seq<u8>, p: int, q: int)
    ensures
        (forall|j: int| !#[trigger] stands(h, bytes_of("(net_classes"@), j)) ==> netclass_place(h)
            == close_of(h),
        0 <= p && stands(h, bytes_of("(net_classes"@), p) && (forall|j: int|
            0 <= j < p ==> !#[trigger] stands(h, bytes_of("(net_classes"@), j)) ==> {
            &&& p <= q && stands(h, bytes_of("\n    )"@), q) && (forall|j: int|
                p <= j < q ==> !#[trigger] stands(h, bytes_of("\n    )"@), j)) ==> netclass_place(h)
                == q
            &&& (forall|j: int| p <= j ==> !#[trigger] stands(h, bytes_of("\n    )"@), j)) && p <= q
                && stands(h, bytes_of(")"@), q) && (forall|j: int|
                p <= j < q ==> !#[trigger] stands(h, bytes_of(")"@), j)) ==> netclass_place(h) == q
        },
{
    let m = bytes_of("(net_classes"@);
    let a = bytes_of("\n    )"@);
    let c = bytes_of(")"@);
    law_search_finds_the_first(h, m, 0);
    if let Some(i) = find_at(h, m, 0) {
        assert(stands(h, m, i));
    }
    if 0 <= p {
        law_search_finds_the_first(h, a, p);
        law_search_finds_the_first(h, c, p);
        if let Some(i) = find_at(h, a, p) {
            assert(stands(h, a, i));
        }
        if let Some(i) = find_at(h, c, p) {
            assert(stands(h, c, i));
        }
    }
}

/// The text of a net class.
pub proof fn law_a_class_says_its_measures(
    name: Seq<char>,
    clearance: Seq<char>,
    width: Seq<char>,
    drill: Seq<char>,
    diameter: Seq<char>,
)
    ensures
        netclass_text(name, clearance, width, drill, diameter) == "\n      (netclass \""@ + name
            + "\"\n        (clearance "@ + clearance + ")\n        (trace_width "@ + width
            + ")\n        (via_drill "@ + drill + ")\n        (via_diameter "@ + diameter
            + ")\n      )"@,
{
}

// Nets
/// A node `(net NUMBER "NAME")` declares the net: where it is the first to do so,
/// the net has that number.
pub proof fn law_a_net_has_the_number_that_is_declared(
    h: Seq<u8>,
    name: Seq<char>,
    id: int,
    p: int,
)
    requires
        i32::MIN <= id <= i32::MAX,
        stands(h, bytes_of("(net "@ + int_chars(id) + " \""@ + name + "\")"@), p),
        forall|j: int|
            0 <= j < p + bytes_of("(net "@ + int_chars(id)).len() && #[trigger] stands(
                h,
                bytes_of(" \""@ + name + "\")"@),
                j,
            ) ==> number_before(h, j) is None,
    ensures
        declared_net(h, name) == Some(id),
        net_id(h, name) == id,
        !lacks_net(h, name),
{
    let a = bytes_of("(net "@);
    let d = bytes_of(int_chars(id));
    let q = bytes_of(" \""@ + name + "\")"@);
    let whole = bytes_of("(net "@ + int_chars(id) + " \""@ + name + "\")"@);
    let tail = " \""@ + name + "\")"@;
    assert("(net "@ + int_chars(id) + " \""@ + name + "\")"@ =~= "(net "@ + int_chars(id) + tail);
    lemma_bytes_concat("(net "@, int_chars(id));
    lemma_bytes_concat("(net "@ + int_chars(id), tail);
    reveal_strlit("(net ");
    is_ascii_chars_encode_utf8("(net "@);
    assert(a =~= seq![40u8, 110u8, 101u8, 116u8, 32u8]);
    assert(whole =~= a + d + q);
    let pos = p + 5 + d.len();
    assert forall|k: int| 0 <= k < whole.len() implies h[p + k] == whole[k] by {}
    assert(h.subrange(p, p + 5) =~= a) by {
        assert forall|k: int| 0 <= k < 5 implies h.subrange(p, p + 5)[k] == a[k] by {
            assert(h[p + k] == whole[k]);
        }
    }
    assert(h.subrange(p + 5, pos) =~= d) by {
        assert forall|k: int| 0 <= k < d.len() implies #[trigger] h.subrange(p + 5, pos)[k]
            == d[k] by {
            assert(h[p + (5 + k)] == whole[5 + k]);
        }
    }
    assert(h.subrange(pos, pos + q.len()) =~= q) by {
        assert forall|k: int| 0 <= k < q.len() implies #[trigger] h.subrange(pos, pos + q.len())[k]
            == q[k] by {
            assert(h[p + (5 + d.len() + k)] == whole[5 + d.len() + k]);
        }
    }
    // No other mark stands between.
    crate::nets::lemma_int_bytes(id);
    crate::text::lemma_rfind(h, a, pos - 5);
    assert(occurs_at(h, a, p));
    assert forall|j: int| p < j <= pos - 5 implies !occurs_at(h, a, j) by {
        if occurs_at(h, a, j) {
            assert(h.subrange(j, j + 5)[0] == h[j]);
            if j < p + 5 {
                assert(h.subrange(p, p + 5)[j - p] == h[j]);
            } else {
                assert(h.subrange(p + 5, pos)[j - p - 5] == h[j]);
            }
        }
    }
    lemma_text_of(int_chars(id));
    law_int_reads_back(id);
    assert(number_before(h, pos) == Some(id));
    assert forall|j: int| 0 <= j < pos && #[trigger] occurs_at(h, q, j) implies number_before(h, j)
        is None by {
        assert(stands(h, q, j)) by {
            assert forall|k: int| 0 <= k < q.len() implies h[j + k] == #[trigger] q[k] by {
                assert(h.subrange(j, j + q.len())[k] == q[k]);
            }
        }
    }
    crate::nets::lemma_declared(h, name, 0, pos);
}

/// A net is declared only by its name behind a number: where the name does not
/// stand like that, the board does not have the net, and that is told unless the
/// name is empty.
pub proof fn law_a_net_that_is_not_declared_is_missing(h: Seq<u8>, name: Seq<char>)
    requires
        forall|j: int|
            #[trigger] stands(h, bytes_of(" \""@ + name + "\")"@), j) ==> number_before(h, j) is None,
    ensures
        declared_net(h, name) is None,
        net_id(h, name) == 0,
        lacks_net(h, name) <==> name.len() > 0,
        net_missing(name) == "Net '"@ + name
            + "' not found in the board file. Add it first with add_net."@,
{
    lemma_undeclared(h, name, 0);
}

proof fn lemma_undeclared(h: Seq<u8>, name: Seq<char>, from: int)
    requires
        0 <= from,
        forall|j: int|
            #[trigger] stands(h, bytes_of(" \""@ + name + "\")"@), j) ==> number_before(h, j) is None,
    ensures
        declared_from(h, name, from) is None,
    decreases h.len() - from,
{
    let q = bytes_of(" \""@ + name + "\")"@);
    law_search_finds_the_first(h, q, from);
    if let Some(i) = find_at(h, q, from) {
        assert(stands(h, q, i));
        if i < h.len() {
            lemma_undeclared(h, name, i + 1);
        }
    }
}

/// The number before a place is what stands between the last `(net ` before it
/// and the place, without white space around it.
pub proof fn law_the_number_before_a_name(h: Seq<u8>, pos: int, p: int)
    ensures
        0 <= p && p + 5 <= pos && stands(h, bytes_of("(net "@), p) && (forall|j: int|
            p < j <= pos - 5 ==> !#[trigger] stands(h, bytes_of("(net "@), j)) ==> number_before(
            h,
            pos,
        ) == i32_value(trimmed(text_of(h.subrange(p + 5, pos)))),
        (forall|j: int| j <= pos - 5 ==> !#[trigger] stands(h, bytes_of("(net "@), j))
            ==> number_before(h, pos) is None,
{
    let m = bytes_of("(net "@);
    reveal_strlit("(net ");
    is_ascii_chars_encode_utf8("(net "@);
    assert(m.len() == 5);
    law_search_from_behind_finds_the_last(h, m, pos - 5);
    if let Some(i) = rfind_at(h, m, pos - 5) {
        assert(stands(h, m, i));
    }
}

/// A new net gets the number of net nodes before it, and one more node at the end
/// of the board.
pub proof fn law_nets_are_counted(h: Seq<u8>, p: Seq<u8>, from: int, i: int)
    requires
        0 <= from,
        p.len() > 0,
    ensures
        (forall|j: int| from <= j ==> !#[trigger] stands(h, p, j)) ==> times(h, p, from) == 0,
        from <= i && stands(h, p, i) && (forall|j: int| from <= j < i ==> !#[trigger] stands(h, p, j))
            ==> times(h, p, from) == 1 + times(h, p, i + p.len()),
        next_net_id(h) == times(h, bytes_of("(net "@), 0) as i32,
        forall|id: int, name: Seq<char>|
            #[trigger] net_entry(id, name) == "\n  (net "@ + int_chars(id) + " \""@ + name + "\")"@,
{
    law_search_finds_the_first(h, p, from);
    if let Some(j) = find_at(h, p, from) {
        assert(stands(h, p, j));
    }
}

// Tracks
/// A track is found by its identity among the blocks directly inside the board:
/// what is found begins with `segment`, `via` or `arc` and holds the identity,
/// and where nothing is found none of these blocks holds it.
pub proof fn law_a_track_is_found_by_its_identity(h: Seq<u8>, uuid: Seq<char>)
    ensures
        match track_lines(h, uuid) {
            Some(s) => exists|m: int|
                #[trigger] is_track_block(h, uuid, m) && s == (
                    line_start(h, child_spans(h)[m].0),
                    child_spans(h)[m].1,
                ) && is_first_choice(h, uuid, m),
            None => forall|m: int| !#[trigger] is_track_block(h, uuid, m),
        },
        track_missing(uuid) == "No track segment, via, or arc with uuid '"@ + uuid + "' found"@,
{
    let mark = bytes_of("(uuid \""@ + uuid + "\")"@);
    let a = headed_child(h, "segment"@, mark, 0);
    let b = headed_child(h, "via"@, mark, 0);
    let c = headed_child(h, "arc"@, mark, 0);
    lemma_first_headed(h, "segment"@, uuid);
    lemma_first_headed(h, "via"@, uuid);
    lemma_first_headed(h, "arc"@, uuid);
    let heads = crate::routing::track_heads();
    assert(heads =~= seq!["segment"@, "via"@, "arc"@]);
    assert(uuid_block_from(h, heads, uuid, 3) is None);
    assert(uuid_block_from(h, heads, uuid, 2) == c);
    assert(uuid_block_from(h, heads, uuid, 1) == if b is Some {
        b
    } else {
        c
    });
    assert(uuid_block(h, heads, uuid) == if a is Some {
        a
    } else if b is Some {
        b
    } else {
        c
    });
    reveal_strlit("segment");
    reveal_strlit("via");
    reveal_strlit("arc");
    assert("via"@[0] != "arc"@[0]);
    assert("segment"@.len() == 7 && "via"@.len() == 3);
    if a is Some {
        let m = choose|m: int| is_first_with(h, "segment"@, uuid, m) && child_spans(h)[m] == a.unwrap();
        assert(is_track_block(h, uuid, m));
    } else if b is Some {
        let m = choose|m: int| is_first_with(h, "via"@, uuid, m) && child_spans(h)[m] == b.unwrap();
        assert(is_track_block(h, uuid, m));
    } else if c is Some {
        let m = choose|m: int| is_first_with(h, "arc"@, uuid, m) && child_spans(h)[m] == c.unwrap();
        assert(is_track_block(h, uuid, m));
    }
}

/// List number `m` of the board holds the identity.
pub open spec fn has_identity(h: Seq<u8>, uuid: Seq<char>, m: int) -> bool {
    let c = child_spans(h)[m];
    0 <= m < child_spans(h).len() && exists|i: int|
        #[trigger] stands(h.subrange(c.0, c.1), bytes_of("(uuid \""@ + uuid + "\")"@), i)
}

/// List number `m` of the board is a track, a via or an arc with the identity.
pub open spec fn is_track_block(h: Seq<u8>, uuid: Seq<char>, m: int) -> bool {
    let head = head_in(h, child_spans(h)[m]);
    has_identity(h, uuid, m) && (head == "segment"@ || head == "via"@ || head == "arc"@)
}

/// Tracks come before vias and vias before arcs, and each in their order.
pub open spec fn is_first_choice(h: Seq<u8>, uuid: Seq<char>, m: int) -> bool {
    let head = head_in(h, child_spans(h)[m]);
    forall|j: int|
        #[trigger] is_track_block(h, uuid, j) && j != m ==> {
            let other = head_in(h, child_spans(h)[j]);
            if other == head {
                m < j
            } else {
                head == "segment"@ || (head == "via"@ && other == "arc"@)
            }
        }
}

/// List number `m` is the first one with this head that has the identity.
spec fn is_first_with(h: Seq<u8>, head: Seq<char>, uuid: Seq<char>, m: int) -> bool {
    &&& has_identity(h, uuid, m)
    &&& head_in(h, child_spans(h)[m]) == head
    &&& forall|j: int|
        #[trigger] has_identity(h, uuid, j) && head_in(h, child_spans(h)[j]) == head && j != m ==> m
            < j
}

proof fn lemma_first_headed(h: Seq<u8>, head: Seq<char>, uuid: Seq<char>)
    ensures
        match headed_child(h, head, bytes_of("(uuid \""@ + uuid + "\")"@), 0) {
            Some(b) => exists|m: int| is_first_with(h, head, uuid, m) && child_spans(h)[m] == b,
            None => forall|m: int|
                #[trigger] has_identity(h, uuid, m) ==> head_in(h, child_spans(h)[m]) != head,
        },
{
    let mark = bytes_of("(uuid \""@ + uuid + "\")"@);
    assert forall|m: int| 0 <= m < child_spans(h).len() implies #[trigger] has_identity(h, uuid, m)
        == holds(h.subrange(child_spans(h)[m].0, child_spans(h)[m].1), mark) by {
        let c = child_spans(h)[m];
        law_search_finds_the_first(h.subrange(c.0, c.1), mark, 0);
    }
    lemma_headed_from(h, head, uuid, 0);
}

proof fn lemma_headed_from(h: Seq<u8>, head: Seq<char>, uuid: Seq<char>, k: int)
    requires
        0 <= k,
        forall|m: int|
            0 <= m < child_spans(h).len() ==> #[trigger] has_identity(h, uuid, m) == holds(
                h.subrange(child_spans(h)[m].0, child_spans(h)[m].1),
                bytes_of("(uuid \""@ + uuid + "\")"@),
            ),
        forall|m: int|
            m < k && #[trigger] has_identity(h, uuid, m) ==> head_in(h, child_spans(h)[m]) != head,
    ensures
        match headed_child(h, head, bytes_of("(uuid \""@ + uuid + "\")"@), k) {
            Some(b) => exists|m: int| is_first_with(h, head, uuid, m) && child_spans(h)[m] == b,
            None => forall|m: int|
                #[trigger] has_identity(h, uuid, m) ==> head_in(h, child_spans(h)[m]) != head,
        },
    decreases child_spans(h).len() - k,
{
    if k < child_spans(h).len() {
        let c = child_spans(h)[k];
        if has_identity(h, uuid, k) && head_in(h, c) == head {
            assert(is_first_with(h, head, uuid, k));
        } else {
            lemma_headed_from(h, head, uuid, k + 1);
        }
    }
}

/// A track is changed by leaving the old one out and putting the new one to the
/// end; a net or a track that is missing is told, the net first.
pub proof fn law_a_track_is_changed(
    h: Seq<u8>,
    uuid: Seq<char>,
    net_name: Seq<char>,
    layer: Seq<char>,
    from: PointText,
    to: PointText,
    width: Seq<char>,
    new_uuid: Seq<char>,
)
    ensures
        track_changed(h, uuid, net_name, layer, from, to, width, new_uuid) == (if lacks_net(
            h,
            net_name,
        ) {
            Err::<Seq<u8>, Answer>(error_answer(net_missing(net_name)))
        } else if track_lines(h, uuid) is None {
            Err(error_answer(track_missing(uuid)))
        } else {
            let s = track_lines(h, uuid).unwrap();
            let c = close_of(h);
            Ok(
                edited(
                    h,
                    seq![
                        Edit { start: s.0, end: s.1, text: Seq::empty() },
                        Edit {
                            start: c,
                            end: c,
                            text: track_text(from, to, width, layer, net_id(h, net_name), new_uuid),
                        },
                    ],
                ),
            )
        }),
{
}

/// A route that is not in line goes along one axis and then along the other: the
/// bend shares a coordinate with either end.
pub proof fn law_a_bend_is_square(from: PointText, to: PointText)
    ensures
        bend_of(from, to, true) is None,
        bend_of(from, to, false) matches Some(b) && b.y == from.y && b.x == to.x,
{
}

/// Both nets of a pair must be there, and the positive one is told first; each
/// track is on its own net.
pub proof fn law_a_pair_is_two_tracks(
    h: Seq<u8>,
    net_pos: Seq<char>,
    net_neg: Seq<char>,
    layer: Seq<char>,
    pos: (PointText, PointText),
    neg: (PointText, PointText),
    width: Seq<char>,
    pos_uuid: Seq<char>,
    neg_uuid: Seq<char>,
)
    ensures
        ({
            let r = pair_routed(
                h,
                net_pos,
                net_neg,
                layer,
                pos,
                neg,
                width,
                pos_uuid,
                neg_uuid,
            );
            &&& lacks_net(h, net_pos) ==> r == Err::<Seq<u8>, Answer>(
                error_answer(net_missing(net_pos)),
            )
            &&& !lacks_net(h, net_pos) && lacks_net(h, net_neg) ==> r == Err::<Seq<u8>, Answer>(
                error_answer(net_missing(net_neg)),
            )
            &&& !lacks_net(h, net_pos) && !lacks_net(h, net_neg) ==> {
                let c = close_of(h);
                r == Ok::<Seq<u8>, Answer>(
                    h.subrange(0, c) + bytes_of(
                        track_text(pos.0, pos.1, width, layer, net_id(h, net_pos), pos_uuid)
                            + track_text(neg.0, neg.1, width, layer, net_id(h, net_neg), neg_uuid),
                    ) + h.subrange(c, h.len() as int),
                )
            }
        }),
{
}

/// Of the places of a name the first that follows a number declares the net.
pub proof fn law_the_first_declaration_counts(h: Seq<u8>, name: Seq<char>, pos: int)
    requires
        0 <= pos,
        stands(h, bytes_of(" \""@ + name + "\")"@), pos),
        number_before(h, pos) is Some,
        forall|j: int|
            0 <= j < pos && #[trigger] stands(h, bytes_of(" \""@ + name + "\")"@), j)
                ==> number_before(h, j) is None,
    ensures
        declared_net(h, name) == number_before(h, pos),
{
    let q = bytes_of(" \""@ + name + "\")"@);
    assert(h.subrange(pos, pos + q.len()) =~= q) by {
        assert forall|k: int| 0 <= k < q.len() implies #[trigger] h.subrange(pos, pos + q.len())[k]
            == q[k] by {
            assert(h[pos + k] == q[k]);
        }
    }
    assert forall|j: int| 0 <= j < pos && #[trigger] occurs_at(h, q, j) implies number_before(h, j)
        is None by {
        assert(stands(h, q, j)) by {
            assert forall|k: int| 0 <= k < q.len() implies h[j + k] == #[trigger] q[k] by {
                assert(h.subrange(j, j + q.len())[k] == q[k]);
            }
        }
    }
    crate::nets::lemma_declared(h, name, 0, pos);
}

/// Where no parenthesis follows the net classes, a new one goes before the last
/// byte.
pub proof fn law_a_new_class_goes_before_the_last_byte(h: Seq<u8>, p: int)
    requires
        0 <= p,
        stands(h, bytes_of("(net_classes"@), p),
        forall|j: int| 0 <= j < p ==> !#[trigger] stands(h, bytes_of("(net_classes"@), j),
        forall|j: int| p <= j ==> !#[trigger] stands(h, bytes_of("\n    )"@), j),
        forall|j: int| p <= j ==> !#[trigger] stands(h, bytes_of(")"@), j),
    ensures
        netclass_place(h) == h.len() - 1,
{
    let m = bytes_of("(net_classes"@);
    let a = bytes_of("\n    )"@);
    let c = bytes_of(")"@);
    law_search_finds_the_first(h, m, 0);
    assert(find_at(h, m, 0) == Some(p));
    law_search_finds_the_first(h, a, p);
    law_search_finds_the_first(h, c, p);
    if let Some(i) = find_at(h, a, p) {
        assert(stands(h, a, i));
    }
    if let Some(i) = find_at(h, c, p) {
        assert(stands(h, c, i));
    }
}

} // verus!
