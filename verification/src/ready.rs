//! Blocks that are made ready for a board are lists again.
use crate::balance::{
    closed, harmless, law_balanced_block_parses, lemma_closed, lemma_closed_neutral,
    lemma_harmless_edits, lemma_neutral_throughout, lemma_stays_open, lemma_within_front,
    lemma_within_join, throughout, within,
};
use crate::board::{at_text, replaced, AtText, BoardError};
use crate::components::{back_side, duplicated, placed, raw_block, renamed_copy, PlacementText};
use crate::edits::{law_single_edit, Edit};
use crate::footprint::{
    block_anchor, footprint_span, lemma_footprint_from, rewrites, rotation_places,
};
use crate::intact::{
    at_node, is_block, law_adding_a_block_keeps_the_rest, law_adding_a_copy_keeps_the_rest,
    lemma_blanks_are_blank, lemma_turning_place, lemma_value_quote,
};
use crate::lines::{needs_no_escape, node_one, node_two, quoted};
use crate::moving::{lemma_at_text, lemma_block_alone, numbered_at};
use crate::numbers::is_number;
use crate::offsets::{char_at, lemma_inside, outside, quoting};
use crate::parser::node_from;
use crate::placing::{
    footprint_body, header_edits, instance, instance_edits, name_span, prepared, turned,
};
use crate::property::{
    escaped, lemma_escaped_end, lemma_uuid_span, lemma_value_end, property_span, rest_of, uuid_span,
    uuids, value_end, with_uuids,
};
use crate::reread::{gains, is_board, lemma_number_is_word};
use crate::scan::{
    balanced_block, child_spans, is_child, law_child_is_balanced_block,
    law_children_are_the_direct_lists, lemma_block_end, scan, scan_step, Scan, CLOSE, OPEN, QUOTE,
};
use crate::steady::{
    flat, lemma_run_join, lemma_scan_run, lemma_steady_join, lemma_steady_one, lemma_steady_quoted,
    lemma_steady_space, lemma_steady_two, lemma_steady_word, run, steady,
};
use crate::swapping::with_swapped;
use crate::text::{
    bytes_of, find_at, lemma_ascii_byte, lemma_bytes_valid, lemma_cut_ends, lemma_find, occurs_at,
    text_of,
};
use crate::tracks::line_start;
use crate::tree::Tree;
use vstd::prelude::*;
use vstd::string::*;
use vstd::utf8::*;

verus! {

// States of a scan
/// Only inside a string is a character escaped.
proof fn lemma_escape_in_string(t: Seq<u8>, i: int)
    ensures
        scan(t, 0, i).escape ==> scan(t, 0, i).in_string,
    decreases i,
{
    if i > 0 {
        lemma_escape_in_string(t, i - 1);
    }
}

/// Outside of strings a scan of a block is at some depth.
proof fn lemma_flat(t: Seq<u8>, i: int) -> (d: int)
    requires
        closed(t),
        1 <= i < t.len(),
        outside(scan(t, 0, i)),
    ensures
        d >= 1,
        scan(t, 0, i) == flat(d),
{
    lemma_closed(t);
    lemma_stays_open(t, i);
    scan(t, 0, i).depth
}

/// One more byte.
proof fn lemma_step(t: Seq<u8>, i: int)
    requires
        0 <= i < t.len(),
    ensures
        scan(t, 0, i + 1) == scan_step(scan(t, 0, i), t[i]),
{
}

/// The end of a block is outside of it.
proof fn lemma_end_state(t: Seq<u8>)
    requires
        closed(t),
    ensures
        scan(t, 0, t.len() as int) == flat(0),
{
    let n = t.len() as int;
    assert(scan(t, 0, 0) == flat(0));
    lemma_step(t, 0);
    lemma_scan_run(t, 0, 1, n);
}

// Texts inside strings
/// An escaped text keeps a scan inside its string.
proof fn lemma_escaped_run(w: Seq<char>, d: int)
    requires
        d >= 1,
    ensures
        run(quoting(d), bytes_of(escaped(w))) == quoting(d),
        throughout(quoting(d), bytes_of(escaped(w))),
{
    let x = bytes_of(escaped(w));
    let n = x.len() as int;
    let h = x.push(QUOTE);
    assert(h.subrange(0, n) =~= x);
    assert(h[n] == QUOTE);
    lemma_escaped_end(h, 0, w);
    lemma_inside(h, 0, d);
    assert forall|k: int| 0 <= k < x.len() implies (#[trigger] run(quoting(d), x.take(k))).depth
        >= 1 by {
        assert(x.take(k) =~= h.subrange(0, k));
        let r = run(quoting(d), h.subrange(0, k));
        assert(r.in_string && r.depth == d);
    }
}

/// A block in which the inside of a string was replaced by an escaped text is a
/// block still.
proof fn lemma_string_replaced(t: Seq<u8>, a: int, b: int, w: Seq<char>)
    requires
        closed(t),
        2 <= a <= b < t.len(),
        t[a - 1] == QUOTE,
        outside(scan(t, 0, a - 1)),
        forall|d: int| d >= 1 ==> #[trigger] run(quoting(d), t.subrange(a, b)) == quoting(d),
    ensures
        closed(replaced(t, a, b, escaped(w))),
{
    let d = lemma_flat(t, a - 1);
    lemma_step(t, a - 1);
    assert(scan(t, 0, a) == quoting(d));
    lemma_escaped_run(w, d);
    let e = Edit { start: a, end: b, text: escaped(w) };
    assert(run(quoting(d), t.subrange(a, b)) == quoting(d));
    assert(harmless(t, e));
    let es = seq![e];
    assert forall|k: int| 0 <= k < es.len() implies harmless(t, #[trigger] es[k]) by {
        assert(es[k] == e);
    }
    lemma_harmless_edits(t, es);
    law_single_edit(t, e);
}

/// A block whose Reference was set is a block still.
proof fn lemma_referenced(t: Seq<u8>, reference: Seq<char>)
    requires
        closed(t),
        property_span(t, "Reference"@) is Some,
        outside(scan(t, 0, property_span(t, "Reference"@).unwrap().0 - 1)),
    ensures
        closed(
            replaced(
                t,
                property_span(t, "Reference"@).unwrap().0,
                property_span(t, "Reference"@).unwrap().1,
                escaped(reference),
            ),
        ),
{
    let v = property_span(t, "Reference"@).unwrap();
    lemma_value_quote(t, "Reference"@);
    if v.0 == 1 {
        assert(t[0] == OPEN);
    }
    assert forall|d: int| d >= 1 implies #[trigger] run(quoting(d), t.subrange(v.0, v.1))
        == quoting(d) by {
        lemma_inside(t, v.0, d);
    }
    lemma_string_replaced(t, v.0, v.1, reference);
}

// Identities
/// The bytes of an identity: no quote, no backslash, no parenthesis.
pub open spec fn is_plain_id(v: Seq<u8>) -> bool {
    forall|k: int|
        0 <= k < v.len() ==> v[k] != QUOTE && v[k] != 92 && v[k] != OPEN && v[k] != CLOSE
}

/// All identities of a block are plain.
pub open spec fn plain_ids(t: Seq<u8>) -> bool {
    forall|i: int| 0 <= i < uuids(t).len() ==> is_plain_id(#[trigger] uuids(t)[i])
}

/// All fresh identities are plain.
pub open spec fn plain_fresh(fresh: Seq<Seq<char>>) -> bool {
    forall|i: int| 0 <= i < fresh.len() ==> is_plain_id(bytes_of(#[trigger] fresh[i]))
}

proof fn lemma_plain_run(s: Scan, v: Seq<u8>)
    requires
        is_plain_id(v),
        !s.escape,
    ensures
        run(s, v) == s,
        s.depth >= 1 ==> throughout(s, v),
    decreases v.len(),
{
    if v.len() > 0 {
        lemma_plain_run(s, v.drop_last());
        assert(v.take(v.len() - 1) =~= v.drop_last());
        if s.depth >= 1 {
            assert forall|k: int| 0 <= k < v.len() implies (#[trigger] run(s, v.take(k))).depth
                >= 1 by {
                if k < v.len() - 1 {
                    assert(v.take(k) =~= v.drop_last().take(k));
                    assert(run(s, v.drop_last().take(k)).depth >= 1);
                }
            }
        }
    }
}

/// New identities do not change where a scan comes to.
proof fn lemma_uuids_run(h: Seq<u8>, fresh: Seq<Seq<char>>, k: int, s: Scan)
    requires
        plain_ids(h),
        plain_fresh(fresh),
        0 <= k,
        uuids(h).len() + k <= fresh.len(),
        within(s, h),
    ensures
        run(s, with_uuids(h, fresh, k)) == run(s, h),
        within(s, with_uuids(h, fresh, k)),
    decreases h.len(),
{
    match uuid_span(h) {
        Some(v) => if 0 < v.0 <= v.1 < h.len() {
            let a = h.subrange(0, v.0);
            let old = h.subrange(v.0, v.1);
            let rest = rest_of(h, v.1);
            let x = bytes_of(fresh[k]);
            let more = with_uuids(rest, fresh, k + 1);
            assert(uuids(h) == seq![old] + uuids(rest));
            assert(uuids(h)[0] == old);
            assert forall|i: int| 0 <= i < uuids(rest).len() implies is_plain_id(
                #[trigger] uuids(rest)[i],
            ) by {
                assert(uuids(h)[i + 1] == uuids(rest)[i]);
            }
            // The quote before the value is not escaped when it was read.
            lemma_uuid_quote(h);
            let t = run(s, a);
            assert(a.drop_last() =~= h.subrange(0, v.0 - 1));
            assert(t == scan_step(run(s, a.drop_last()), a.last()));
            assert(!t.escape);
            assert(h =~= a + (old + rest));
            lemma_within_front(s, a, old + rest);
            lemma_within_front(t, old, rest);
            lemma_run_join(s, a, old + rest);
            lemma_run_join(t, old, rest);
            lemma_plain_run(t, old);
            lemma_plain_run(t, x);
            lemma_uuids_run(rest, fresh, k + 1, t);
            lemma_within_join(t, x, more);
            lemma_within_join(s, a, x + more);
            assert(with_uuids(h, fresh, k) =~= a + (x + more));
        },
        None => {},
    }
}

/// The value of an identity stands behind a quote.
proof fn lemma_uuid_quote(h: Seq<u8>)
    requires
        uuid_span(h) is Some,
    ensures
        ({
            let v = uuid_span(h).unwrap();
            0 < v.0 <= h.len() && h[v.0 - 1] == QUOTE
        }),
{
    let p = bytes_of("(uuid \""@);
    reveal_strlit("(uuid \"");
    is_ascii_chars_encode_utf8("(uuid \""@);
    assert(p.len() == 7);
    assert(p[6] == 34);
    lemma_find(h, p, 0);
    let i = find_at(h, p, 0).unwrap();
    assert(h.subrange(i, i + 7)[6] == h[i + 6]);
}

/// A block with new identities is a block still.
proof fn lemma_uuids_closed(t: Seq<u8>, fresh: Seq<Seq<char>>)
    requires
        closed(t),
        plain_ids(t),
        plain_fresh(fresh),
        uuids(t).len() <= fresh.len(),
    ensures
        closed(with_uuids(t, fresh, 0)),
{
    let n = t.len() as int;
    let r = with_uuids(t, fresh, 0);
    // The block is read from behind its parenthesis.
    match uuid_span(t) {
        Some(v) => if 0 < v.0 <= v.1 < t.len() {
            lemma_uuid_span(t);
            let a = t.subrange(1, v.0);
            let old = t.subrange(v.0, v.1);
            let rest = rest_of(t, v.1);
            let x = bytes_of(fresh[0]);
            let more = with_uuids(rest, fresh, 1);
            assert(uuids(t) == seq![old] + uuids(rest));
            assert(uuids(t)[0] == old);
            assert forall|i: int| 0 <= i < uuids(rest).len() implies is_plain_id(
                #[trigger] uuids(rest)[i],
            ) by {
                assert(uuids(t)[i + 1] == uuids(rest)[i]);
            }
            lemma_uuid_quote(t);
            let s = run(flat(1), a);
            assert(a.drop_last() =~= t.subrange(1, v.0 - 1));
            assert(s == scan_step(run(flat(1), a.drop_last()), a.last()));
            assert(!s.escape);
            let tail = t.subrange(1, n);
            assert(tail =~= a + (old + rest));
            lemma_within_front(flat(1), a, old + rest);
            lemma_within_front(s, old, rest);
            lemma_run_join(flat(1), a, old + rest);
            lemma_run_join(s, old, rest);
            lemma_plain_run(s, old);
            lemma_plain_run(s, x);
            lemma_uuids_run(rest, fresh, 1, s);
            lemma_within_join(s, x, more);
            lemma_within_join(flat(1), a, x + more);
            assert(r =~= t.subrange(0, 1) + (a + (x + more)));
            assert(r.subrange(1, r.len() as int) =~= a + (x + more));
            assert(r[0] == t[0]);
        },
        None => {},
    }
}

// The name of a library block
/// Before the first quote a scan is outside of strings.
proof fn lemma_before_quotes(t: Seq<u8>, i: int)
    requires
        0 <= i <= t.len(),
        forall|j: int| 0 <= j < i ==> t[j] != QUOTE,
    ensures
        outside(scan(t, 0, i)),
    decreases i,
{
    if i > 0 {
        lemma_before_quotes(t, i - 1);
    }
}

/// Where the name of a block stands.
proof fn lemma_name(t: Seq<u8>)
    requires
        name_span(t) is Ok,
    ensures
        ({
            let n = name_span(t)->Ok_0;
            &&& 1 <= n.0 <= n.1 < t.len()
            &&& t[n.0 - 1] == QUOTE
            &&& t[n.1] == QUOTE
            &&& forall|j: int| 0 <= j < n.0 - 1 ==> t[j] != QUOTE
            &&& value_end(t, n.0) == Some(n.1)
        }),
{
    let q = bytes_of("\""@);
    reveal_strlit("\"");
    assert("\""@ =~= seq!['"']);
    lemma_ascii_byte('"');
    lemma_find(t, q, 0);
    let i = find_at(t, q, 0).unwrap();
    lemma_value_end(t, i + 1);
    assert(t.subrange(i, i + 1)[0] == t[i]);
    assert forall|j: int| 0 <= j < i implies t[j] != QUOTE by {
        assert(!occurs_at(t, q, j));
        if t[j] == QUOTE {
            assert(t.subrange(j, j + 1) =~= q);
        }
    }
}

/// A block under another name is a block still, and behind the name a scan is
/// outside of strings.
proof fn lemma_renamed(t: Seq<u8>, lib_id: Seq<char>) -> (d: int)
    requires
        closed(t),
        name_span(t) is Ok,
    ensures
        ({
            let n = name_span(t)->Ok_0;
            let r = replaced(t, n.0, n.1, escaped(lib_id));
            let after = n.0 + bytes_of(escaped(lib_id)).len() + 1;
            &&& closed(r)
            &&& 1 <= after < r.len()
            &&& d >= 1
            &&& scan(r, 0, after) == flat(d)
        }),
{
    let n = name_span(t)->Ok_0;
    lemma_name(t);
    let x = bytes_of(escaped(lib_id));
    let r = replaced(t, n.0, n.1, escaped(lib_id));
    if n.0 == 1 {
        assert(t[0] == OPEN);
    }
    lemma_before_quotes(t, n.0 - 1);
    let old = t.subrange(n.0, n.1);
    assert forall|c: int| c >= 1 implies #[trigger] run(quoting(c), old) == quoting(c) by {
        lemma_inside(t, n.0, c);
    }
    lemma_string_replaced(t, n.0, n.1, lib_id);
    // The same scan over the new name.
    let i = n.0 - 1;
    assert forall|j: int| 0 <= j < i implies r[j] != QUOTE by {
        assert(r[j] == t[j]);
    }
    lemma_before_quotes(r, i);
    let d = lemma_flat(r, i);
    let e = n.0 + x.len();
    assert(r[i] == t[i]);
    lemma_step(r, i);
    assert(scan(r, 0, n.0) == quoting(d));
    lemma_escaped_run(lib_id, d);
    lemma_scan_run(r, 0, n.0, e);
    assert(r.subrange(n.0, e) =~= x);
    assert(r[e] == t[n.1]);
    lemma_step(r, e);
    lemma_end_state(r);
    if e + 1 == r.len() {
        assert(scan(r, 0, e + 1) == flat(d));
    }
    d
}

// What makes a library block an instance
/// A piece of spaces, tabs and line breaks leaves a scan outside of strings
/// where it was.
proof fn lemma_blank_bytes(s: Scan, w: Seq<u8>)
    requires
        forall|k: int| 0 <= k < w.len() ==> w[k] == 32 || w[k] == 9 || w[k] == 10,
        s.escape ==> s.in_string,
    ensures
        run(s, w).in_string == s.in_string,
        run(s, w).depth == s.depth,
        !s.in_string ==> run(s, w) == s,
        run(s, w).escape ==> run(s, w).in_string,
    decreases w.len(),
{
    if w.len() > 0 {
        lemma_blank_bytes(s, w.drop_last());
    }
}

/// Leaving out a child of a block with the indentation before it is harmless.
proof fn lemma_header_harmless(t: Seq<u8>, k: int)
    requires
        closed(t),
        0 <= k < child_spans(t).len(),
    ensures
        ({
            let c = child_spans(t)[k];
            harmless(t, Edit { start: line_start(t, c.0), end: c.1, text: Seq::empty() })
        }),
{
    let n = t.len() as int;
    let c = child_spans(t)[k];
    law_children_are_the_direct_lists(t);
    law_child_is_balanced_block(t, k);
    assert(is_child(t, c.0, c.1));
    assert(scan(t, 0, 0) == flat(0));
    let l = line_start(t, c.0);
    lemma_blanks_are_blank(t, c.0);
    assert(0 <= l <= c.0);
    assert(l >= 1) by {
        if l == 0 {
            assert(t[0] == OPEN);
        }
    }
    let w = t.subrange(l, c.0);
    assert forall|j: int| 0 <= j < w.len() implies w[j] == 32 || w[j] == 9 || w[j] == 10 by {
        assert(w[j] == t[l + j]);
    }
    let s = scan(t, 0, l);
    lemma_escape_in_string(t, l);
    lemma_scan_run(t, 0, l, c.0);
    lemma_blank_bytes(s, w);
    assert(scan(t, 0, c.0) == flat(1));
    assert(s == flat(1));
    // The child brings the scan back.
    let b = t.subrange(c.0, c.1);
    lemma_block_alone(t, c.0, c.1);
    assert(b[0] == t[c.0]);
    lemma_closed(b);
    lemma_closed_neutral(b);
    lemma_neutral_throughout(b, 1);
    lemma_run_join(s, w, b);
    assert(t.subrange(l, c.1) =~= w + b);
    lemma_scan_run(t, 0, c.0, c.1);
    lemma_end_state(t);
    if c.1 == n {
        assert(scan(t, 0, n) == flat(1));
    }
    assert(bytes_of(Seq::<char>::empty()) =~= Seq::<u8>::empty());
}

proof fn lemma_headers_harmless(t: Seq<u8>, k: int)
    requires
        closed(t),
        0 <= k <= child_spans(t).len(),
    ensures
        forall|i: int| 0 <= i < header_edits(t, k).len() ==> harmless(t, #[trigger] header_edits(t, k)[i]),
    decreases k,
{
    if k > 0 {
        lemma_headers_harmless(t, k - 1);
        lemma_header_harmless(t, k - 1);
        let before = header_edits(t, k - 1);
        let now = header_edits(t, k);
        assert forall|i: int| 0 <= i < now.len() implies harmless(t, #[trigger] now[i]) by {
            if i < before.len() {
                assert(harmless(t, before[i]));
            }
        }
    }
}

/// A text that leaves a scan where it was may be inserted outside of strings.
proof fn lemma_insert_harmless(t: Seq<u8>, i: int, d: int, x: Seq<char>)
    requires
        1 <= i < t.len(),
        d >= 1,
        scan(t, 0, i) == flat(d),
        steady(x),
    ensures
        harmless(t, Edit { start: i, end: i, text: x }),
{
    lemma_neutral_throughout(bytes_of(x), d);
    assert(t.subrange(i, i) =~= Seq::<u8>::empty());
}

/// An instance of a library block is a block.
proof fn lemma_instance(
    h: Seq<u8>,
    lib_id: Seq<char>,
    x: Seq<char>,
    y: Seq<char>,
    uuid: Seq<char>,
)
    requires
        instance(h, lib_id, x, y, uuid) is Ok,
        is_number(x),
        is_number(y),
        needs_no_escape(uuid),
    ensures
        closed(instance(h, lib_id, x, y, uuid)->Ok_0),
{
    lemma_body(h);
    let t = footprint_body(h)->Ok_0;
    let n = name_span(t)->Ok_0;
    let d = lemma_renamed(t, lib_id);
    let r = replaced(t, n.0, n.1, escaped(lib_id));
    let after = n.0 + bytes_of(escaped(lib_id)).len() + 1;
    let at = "\n    (at "@ + x + " "@ + y + ")"@;
    let id = "\n    (uuid \""@ + uuid + "\")"@;
    reveal_strlit("\n    (at ");
    reveal_strlit("\n    (uuid \"");
    reveal_strlit("\n    ");
    reveal_strlit("(");
    reveal_strlit(")");
    reveal_strlit(" ");
    reveal_strlit("\"");
    reveal_strlit("\")");
    reveal_strlit("at");
    reveal_strlit("uuid");
    let w = "\n    "@;
    assert(at =~= w + node_two("at"@, x, y));
    assert(id =~= w + node_one("uuid"@, quoted(uuid)));
    lemma_number_is_word(x);
    lemma_number_is_word(y);
    lemma_steady_word(x);
    lemma_steady_word(y);
    lemma_steady_two("at"@, x, y);
    lemma_steady_quoted(uuid);
    lemma_steady_one("uuid"@, quoted(uuid));
    lemma_steady_space(w);
    lemma_steady_join(w, node_two("at"@, x, y));
    lemma_steady_join(w, node_one("uuid"@, quoted(uuid)));
    lemma_insert_harmless(r, after, d, at);
    lemma_insert_harmless(r, after, d, id);
    let k = child_spans(r).len() as int;
    lemma_headers_harmless(r, k);
    let es = instance_edits(r, after, x, y, uuid);
    let headers = header_edits(r, k);
    assert forall|i: int| 0 <= i < es.len() implies harmless(r, #[trigger] es[i]) by {
        if i < headers.len() {
            assert(harmless(r, headers[i]));
            assert(es[i] == headers[i]);
        }
    }
    lemma_harmless_edits(r, es);
}

/// The block of a library file is a block.
proof fn lemma_body(h: Seq<u8>)
    requires
        footprint_body(h) is Ok,
    ensures
        closed(footprint_body(h)->Ok_0),
{
    let p = bytes_of("(footprint"@);
    reveal_strlit("(footprint");
    is_ascii_chars_encode_utf8("(footprint"@);
    lemma_find(h, p, 0);
    let s = find_at(h, p, 0).unwrap();
    let b = balanced_block(h, s).unwrap();
    lemma_block_end(h, s, s);
    assert(h.subrange(s, s + p.len())[0] == h[s]);
    assert(p[0] == OPEN);
    lemma_block_alone(h, b.0, b.1);
    let t = h.subrange(b.0, b.1);
    assert(t[0] == h[s]);
    lemma_closed(t);
}

/// A block that was turned is a block still.
proof fn lemma_turned(t: Seq<u8>, ats: Option<Seq<AtText>>)
    requires
        valid_utf8(t),
        closed(t),
        turned(t, ats) is Ok,
        ats matches Some(a) ==> forall|k: int| 0 <= k < a.len() ==> numbered_at(#[trigger] a[k]),
    ensures
        closed(turned(t, ats)->Ok_0),
{
    match ats {
        None => {},
        Some(a) => {
            let n = t.len() as int;
            let places = rotation_places(t, (0, n)).unwrap();
            let es = rewrites(places, a);
            lemma_cut_ends(t);
            lemma_end_state(t);
            assert(scan(t, 0, 0) == flat(0));
            assert forall|k: int| 0 <= k < es.len() implies harmless(t, #[trigger] es[k]) by {
                lemma_turning_place(t, 0, n, k);
                let q = places[k];
                let d = lemma_flat(t, q.0);
                let b = t.subrange(q.0, q.1);
                lemma_block_alone(t, q.0, q.1);
                assert(b[0] == t[q.0]);
                lemma_closed(b);
                lemma_closed_neutral(b);
                lemma_neutral_throughout(b, d);
                lemma_scan_run(t, 0, q.0, q.1);
                lemma_at_text(a[k]);
                lemma_neutral_throughout(bytes_of(at_text(a[k])), d);
            }
            lemma_harmless_edits(t, es);
        },
    }
}

// Laws
/// The value of the Reference of a block is a string of its own.
pub open spec fn reference_outside(t: Seq<u8>) -> bool {
    property_span(t, "Reference"@) matches Some(v) ==> outside(scan(t, 0, v.0 - 1))
}

/// A library footprint that was placed is one list, `b`, behind the other nodes
/// of the board. `c` is the block before it is turned and gets its identities.
pub proof fn law_placing_a_footprint_keeps_the_rest(
    s: Seq<char>,
    m: Seq<u8>,
    footprint: Seq<char>,
    layer: Seq<char>,
    p: PlacementText,
    ats: Option<Seq<AtText>>,
    c: Seq<char>,
    b: Seq<char>,
)
    requires
        is_board(s),
        !back_side(layer),
        is_number(p.x),
        is_number(p.y),
        needs_no_escape(p.uuid),
        ats matches Some(a) ==> forall|k: int| 0 <= k < a.len() ==> numbered_at(#[trigger] a[k]),
        instance(m, footprint, p.x, p.y, p.uuid) matches Ok(t) ==> reference_outside(t),
        prepared(m, footprint, p.reference, p.x, p.y, p.uuid) == Ok::<Seq<u8>, BoardError>(
            bytes_of(c),
        ),
        turned(bytes_of(c), ats) is Ok,
        plain_ids(turned(bytes_of(c), ats)->Ok_0),
        plain_fresh(p.fresh),
        uuids(turned(bytes_of(c), ats)->Ok_0).len() <= p.fresh.len(),
        with_uuids(turned(bytes_of(c), ats)->Ok_0, p.fresh, 0) == bytes_of(b),
    ensures
        is_block(b),
        placed(bytes_of(s), Some(m), footprint, layer, p, ats) matches Ok(r) && gains(
            s,
            text_of(r),
            node_from(b, 0)->Ok_0.0,
        ),
{
    lemma_instance(m, footprint, p.x, p.y, p.uuid);
    let t = instance(m, footprint, p.x, p.y, p.uuid)->Ok_0;
    lemma_referenced(t, p.reference);
    lemma_bytes_valid(c);
    lemma_turned(bytes_of(c), ats);
    let u = turned(bytes_of(c), ats)->Ok_0;
    assert(raw_block(m, footprint, p, ats) == Ok::<Seq<u8>, BoardError>(u));
    lemma_uuids_closed(u, p.fresh);
    law_balanced_block_parses(b);
    law_adding_a_block_keeps_the_rest(s, b);
}

/// A footprint that was duplicated is one list behind the other nodes of the
/// board: `b`, which has the new reference and new identities, at its new place.
pub proof fn law_duplicating_a_footprint_keeps_the_rest(
    s: Seq<char>,
    reference: Seq<char>,
    new_reference: Seq<char>,
    at: AtText,
    fresh: Seq<Seq<char>>,
    b: Seq<char>,
)
    requires
        is_board(s),
        numbered_at(at),
        duplicated(bytes_of(s), reference, new_reference, at, fresh) is Ok,
        ({
            let span = footprint_span(bytes_of(s), reference).unwrap();
            reference_outside(bytes_of(s).subrange(span.0, span.1))
        }),
        plain_ids(renamed_copy(bytes_of(s), reference, new_reference)->Ok_0),
        plain_fresh(fresh),
        uuids(renamed_copy(bytes_of(s), reference, new_reference)->Ok_0).len() <= fresh.len(),
        with_uuids(renamed_copy(bytes_of(s), reference, new_reference)->Ok_0, fresh, 0)
            == bytes_of(b),
    ensures
        is_block(b),
        ({
            let t = bytes_of(b);
            let a = block_anchor(t, (0, t.len() as int)).unwrap();
            gains(
                s,
                text_of(
                    duplicated(bytes_of(s), reference, new_reference, at, fresh)->Ok_0,
                ),
                Tree::List(with_swapped(b, 1, char_at(t, a.0), seq![at_node(at)])),
            )
        }),
{
    let h = bytes_of(s);
    lemma_bytes_valid(s);
    lemma_footprint_from(h, reference, 0);
    let span = footprint_span(h, reference).unwrap();
    let t = h.subrange(span.0, span.1);
    lemma_block_alone(h, span.0, span.1);
    assert(t[0] == h[span.0]);
    lemma_closed(t);
    lemma_referenced(t, new_reference);
    lemma_uuids_closed(renamed_copy(h, reference, new_reference)->Ok_0, fresh);
    law_balanced_block_parses(b);
    law_adding_a_copy_keeps_the_rest(s, b, at);
}

} // verus!
