//! Blocks whose parentheses balance: they parse, and edits that leave a scan
//! where it was keep them so.
use crate::edits::{edited, inserted_at, lemma_replacing, replacing_at, rewrite, Edit};
use crate::grammar::{lemma_head_end, lemma_spaces_skipped, lemma_string_ends};
use crate::offsets::{
    char_at, lemma_char_at, lemma_char_is, lemma_node_steady, lemma_offset, lemma_order,
    lemma_order_back, lemma_piece, lemma_string_value, lemma_text_join, offset, quoting,
};
use crate::parser::{lemma_node_from, list_from, node_from, string_end};
use crate::property::{lemma_value_skip, value_end};
use crate::scan::{
    balanced_block, block_end, closes, lemma_block_end, scan, scan_step, Scan, CLOSE, OPEN, QUOTE,
};
use crate::steady::{
    flat, lemma_run_join, lemma_scan_run, lemma_steady_plain, lemma_steady_space, neutral, run,
    stays,
};
use crate::swapping::lemma_head_chars;
use crate::text::{
    bytes_of, lemma_ascii_byte, lemma_bytes_valid, lemma_char_bytes, lemma_cut_ascii, lemma_no_byte,
};
use crate::words::{ends_head, head_end, is_space, lemma_skip_space, skip_space};
use vstd::prelude::*;

verus! {

// Depth
/// At no place inside `x` is the scan outside of all lists.
pub open spec fn within(s: Scan, x: Seq<u8>) -> bool {
    forall|k: int| 0 <= k < x.len() ==> (#[trigger] run(s, x.take(k))).depth >= 1
}

/// The same, at the end of `x` too.
pub open spec fn throughout(s: Scan, x: Seq<u8>) -> bool {
    within(s, x) && run(s, x).depth >= 1
}

/// The text is one balanced block and nothing else.
pub open spec fn closed(t: Seq<u8>) -> bool {
    &&& t.len() >= 2
    &&& t[0] == OPEN
    &&& within(flat(1), t.subrange(1, t.len() as int))
    &&& run(flat(1), t.subrange(1, t.len() as int)) == flat(0)
}

pub proof fn lemma_within_join(s: Scan, x: Seq<u8>, y: Seq<u8>)
    requires
        throughout(s, x),
        within(run(s, x), y),
    ensures
        within(s, x + y),
        run(s, x + y) == run(run(s, x), y),
{
    lemma_run_join(s, x, y);
    assert forall|k: int| 0 <= k < (x + y).len() implies (#[trigger] run(
        s,
        (x + y).take(k),
    )).depth >= 1 by {
        if k < x.len() {
            assert((x + y).take(k) =~= x.take(k));
        } else {
            let m = k - x.len();
            assert((x + y).take(k) =~= x + y.take(m));
            lemma_run_join(s, x, y.take(m));
            assert(run(run(s, x), y.take(m)).depth >= 1);
        }
    }
}

pub proof fn lemma_within_front(s: Scan, x: Seq<u8>, y: Seq<u8>)
    requires
        within(s, x + y),
        y.len() > 0,
    ensures
        throughout(s, x),
        within(run(s, x), y),
{
    let z = x + y;
    assert forall|k: int| 0 <= k < x.len() implies (#[trigger] run(s, x.take(k))).depth >= 1 by {
        assert(z.take(k) =~= x.take(k));
        assert(run(s, z.take(k)).depth >= 1);
    }
    assert(z.take(x.len() as int) =~= x);
    assert(run(s, z.take(x.len() as int)).depth >= 1);
    assert forall|k: int| 0 <= k < y.len() implies (#[trigger] run(run(s, x), y.take(k))).depth
        >= 1 by {
        assert(z.take(x.len() + k) =~= x + y.take(k));
        lemma_run_join(s, x, y.take(k));
        assert(run(s, z.take(x.len() + k)).depth >= 1);
    }
}

/// A text that leaves a scan where it was leaves it inside its list.
pub proof fn lemma_neutral_throughout(x: Seq<u8>, d: int)
    requires
        neutral(x),
        d >= 1,
    ensures
        throughout(flat(d), x),
        run(flat(d), x) == flat(d),
{
    assert(stays(x, d));
    assert forall|k: int| 0 <= k < x.len() implies (#[trigger] run(flat(d), x.take(k))).depth
        >= 1 by {}
}

// Balanced blocks
pub proof fn lemma_closed(t: Seq<u8>)
    ensures
        closed(t) == (t.len() > 0 && t[0] == OPEN && balanced_block(t, 0) == Some(
            (0int, t.len() as int),
        )),
{
    let n = t.len() as int;
    if n > 0 && t[0] == OPEN {
        let x = t.subrange(1, n);
        assert(scan(t, 0, 0) == flat(0));
        assert(scan(t, 0, 1) == scan_step(scan(t, 0, 0), t[0]));
        assert(scan(t, 0, 1) == flat(1));
        assert forall|k: int| 0 <= k <= n - 1 implies #[trigger] run(flat(1), x.take(k)) == scan(
            t,
            0,
            k + 1,
        ) by {
            lemma_scan_run(t, 0, 1, k + 1);
            assert(x.take(k) =~= t.subrange(1, k + 1));
        }
        assert(x.take(n - 1) =~= x);
        lemma_block_end(t, 0, 0);
        if closed(t) {
            assert(run(flat(1), x.take(n - 2)).depth >= 1);
            assert(scan(t, 0, n - 1) == run(flat(1), x.take(n - 2)));
            assert(scan(t, 0, n) == scan_step(scan(t, 0, n - 1), t[n - 1]));
            assert(closes(t, 0, n - 1, 1));
            let e = block_end(t, 0, 0)->Some_0;
            if e < n {
                assert(scan(t, 0, e) == scan_step(scan(t, 0, e - 1), t[e - 1]));
                assert(run(flat(1), x.take(e - 1)).depth >= 1);
                assert(e >= 1);
            }
        }
        if balanced_block(t, 0) == Some((0int, n)) {
            assert(closes(t, 0, n - 1, 1));
            if n == 1 {
                assert(scan(t, 0, 0).depth == 0);
            }
            assert forall|k: int| 0 <= k < x.len() implies (#[trigger] run(
                flat(1),
                x.take(k),
            )).depth >= 1 by {
                lemma_stays_open(t, k + 1);
            }
            assert(scan(t, 0, n) == scan_step(scan(t, 0, n - 1), t[n - 1]));
            assert(run(flat(1), x.take(n - 1)) == scan(t, 0, n));
        }
    }
}

/// Before its end a balanced block is open.
pub proof fn lemma_stays_open(t: Seq<u8>, i: int)
    requires
        t.len() > 0,
        t[0] == OPEN,
        balanced_block(t, 0) == Some((0int, t.len() as int)),
        1 <= i < t.len(),
    ensures
        scan(t, 0, i).depth >= 1,
    decreases i,
{
    assert(scan(t, 0, i) == scan_step(scan(t, 0, i - 1), t[i - 1]));
    if i == 1 {
        assert(scan(t, 0, 0) == flat(0));
    } else {
        lemma_stays_open(t, i - 1);
        lemma_block_end(t, 0, 0);
        assert(!closes(t, 0, i - 1, 1));
    }
}

/// A scan that never leaves its lists may begin deeper.
proof fn lemma_run_deeper(s: Scan, x: Seq<u8>, c: int)
    requires
        within(s, x),
        c >= 0,
        s.depth >= 0,
    ensures
        run(Scan { depth: s.depth + c, ..s }, x) == (Scan {
            depth: run(s, x).depth + c,
            ..run(s, x)
        }),
    decreases x.len(),
{
    if x.len() > 0 {
        let y = x.drop_last();
        assert forall|k: int| 0 <= k < y.len() implies (#[trigger] run(s, y.take(k))).depth
            >= 1 by {
            assert(y.take(k) =~= x.take(k));
            assert(run(s, x.take(k)).depth >= 1);
        }
        lemma_run_deeper(s, y, c);
        assert(x.take(x.len() - 1) =~= y);
        assert(run(s, x.take(x.len() - 1)).depth >= 1);
    }
}

/// A balanced block leaves a scan where it was.
pub proof fn lemma_closed_neutral(t: Seq<u8>)
    requires
        closed(t),
    ensures
        neutral(t),
{
    let n = t.len() as int;
    let o = t.subrange(0, 1);
    let x = t.subrange(1, n);
    assert(t =~= o + x);
    assert forall|d: int| d >= 1 implies #[trigger] stays(t, d) by {
        assert(o.drop_last() =~= Seq::<u8>::empty());
        assert(run(flat(d), o.drop_last()) == flat(d));
        assert(run(flat(d), o) == flat(d + 1));
        lemma_run_join(flat(d), o, x);
        lemma_run_deeper(flat(1), x, d);
        assert forall|k: int| 0 <= k <= t.len() implies (#[trigger] run(flat(d), t.take(k))).depth
            >= d by {
            if k == 0 {
                assert(t.take(k) =~= Seq::<u8>::empty());
            } else if k == n {
                assert(t.take(k) =~= t);
            } else {
                let y = x.take(k - 1);
                assert(t.take(k) =~= o + y);
                lemma_run_join(flat(d), o, y);
                assert forall|j: int| 0 <= j < y.len() implies (#[trigger] run(
                    flat(1),
                    y.take(j),
                )).depth >= 1 by {
                    assert(y.take(j) =~= x.take(j));
                    assert(run(flat(1), x.take(j)).depth >= 1);
                }
                lemma_run_deeper(flat(1), y, d);
                assert(run(flat(1), x.take(k - 1)).depth >= 1);
            }
        }
    }
}

// Edits
/// The edit brings a scan where the text it replaces did, and keeps it inside.
pub open spec fn harmless(t: Seq<u8>, e: Edit) -> bool {
    &&& 1 <= e.start <= e.end < t.len()
    &&& run(scan(t, 0, e.start), bytes_of(e.text)) == run(
        scan(t, 0, e.start),
        t.subrange(e.start, e.end),
    )
    &&& throughout(scan(t, 0, e.start), bytes_of(e.text))
}

proof fn lemma_harmless_insertions(t: Seq<u8>, es: Seq<Edit>, i: int, n: int)
    requires
        forall|k: int| 0 <= k < es.len() ==> harmless(t, #[trigger] es[k]),
        0 <= n <= es.len(),
        1 <= i,
        scan(t, 0, i).depth >= 1,
    ensures
        throughout(scan(t, 0, i), inserted_at(es, i, n)),
        run(scan(t, 0, i), inserted_at(es, i, n)) == scan(t, 0, i),
    decreases n,
{
    let s = scan(t, 0, i);
    if n > 0 {
        lemma_harmless_insertions(t, es, i, n - 1);
        let e = es[n - 1];
        if e.start == i && e.end == i {
            assert(harmless(t, es[n - 1]));
            assert(t.subrange(i, i) =~= Seq::<u8>::empty());
            let a = inserted_at(es, i, n - 1);
            lemma_within_join(s, a, bytes_of(e.text));
        }
    }
}

proof fn lemma_harmless_rewrite(t: Seq<u8>, es: Seq<Edit>, i: int)
    requires
        forall|k: int| 0 <= k < es.len() ==> harmless(t, #[trigger] es[k]),
        1 <= i <= t.len(),
        within(scan(t, 0, i), t.subrange(i, t.len() as int)),
    ensures
        within(scan(t, 0, i), rewrite(t, es, i)),
        run(scan(t, 0, i), rewrite(t, es, i)) == run(
            scan(t, 0, i),
            t.subrange(i, t.len() as int),
        ),
    decreases t.len() - i,
{
    let n = t.len() as int;
    let s = scan(t, 0, i);
    let rest = t.subrange(i, n);
    let a = inserted_at(es, i, es.len() as int);
    if i == n {
        lemma_nothing_at_end(t, es, es.len() as int);
        assert(rewrite(t, es, i) =~= Seq::<u8>::empty());
        assert(rest =~= Seq::<u8>::empty());
    } else {
        assert(rest.take(0) =~= Seq::<u8>::empty());
        assert(run(s, rest.take(0)).depth >= 1);
        lemma_harmless_insertions(t, es, i, es.len() as int);
        lemma_replacing(es, i, 0);
        match replacing_at(es, i, 0) {
            Some(k) => {
                let e = es[k];
                assert(harmless(t, es[k]));
                let x = bytes_of(e.text);
                let old = t.subrange(i, e.end);
                let more = t.subrange(e.end, n);
                assert(rest =~= old + more);
                lemma_within_front(s, old, more);
                lemma_scan_run(t, 0, i, e.end);
                lemma_run_join(s, old, more);
                lemma_harmless_rewrite(t, es, e.end);
                let y = rewrite(t, es, e.end);
                lemma_within_join(s, x, y);
                lemma_within_join(s, a, x + y);
                assert(rewrite(t, es, i) =~= a + (x + y));
            },
            None => {
                let old = t.subrange(i, i + 1);
                let more = t.subrange(i + 1, n);
                assert(old =~= seq![t[i]]);
                assert(rest =~= old + more);
                lemma_scan_run(t, 0, i, i + 1);
                lemma_run_join(s, old, more);
                if i + 1 < n {
                    lemma_within_front(s, old, more);
                    lemma_harmless_rewrite(t, es, i + 1);
                    let y = rewrite(t, es, i + 1);
                    lemma_within_join(s, old, y);
                    lemma_within_join(s, a, old + y);
                    assert(rewrite(t, es, i) =~= a + (old + y));
                } else {
                    lemma_nothing_at_end(t, es, es.len() as int);
                    assert(rewrite(t, es, n) =~= Seq::<u8>::empty());
                    assert(within(s, old)) by {
                        assert(rest =~= old);
                    }
                    lemma_within_join(s, a, old);
                    assert(rewrite(t, es, i) =~= a + old);
                    assert(rest =~= old);
                }
            },
        }
    }
}

proof fn lemma_nothing_at_end(t: Seq<u8>, es: Seq<Edit>, n: int)
    requires
        forall|k: int| 0 <= k < es.len() ==> harmless(t, #[trigger] es[k]),
        0 <= n <= es.len(),
    ensures
        inserted_at(es, t.len() as int, n) == Seq::<u8>::empty(),
    decreases n,
{
    if n > 0 {
        assert(harmless(t, es[n - 1]));
        lemma_nothing_at_end(t, es, n - 1);
    }
}

/// A balanced block on which such edits are made is a balanced block.
pub proof fn lemma_harmless_edits(t: Seq<u8>, es: Seq<Edit>)
    requires
        closed(t),
        forall|k: int| 0 <= k < es.len() ==> harmless(t, #[trigger] es[k]),
    ensures
        closed(edited(t, es)),
{
    let n = t.len() as int;
    assert(scan(t, 0, 0) == flat(0));
    assert(scan(t, 0, 1) == scan_step(scan(t, 0, 0), t[0]));
    lemma_harmless_rewrite(t, es, 1);
    let y = rewrite(t, es, 1);
    lemma_nothing_at_start(t, es, es.len() as int);
    lemma_replacing(es, 0, 0);
    assert(replacing_at(es, 0, 0) is None) by {
        if replacing_at(es, 0, 0) is Some {
            let k = replacing_at(es, 0, 0)->Some_0;
            assert(harmless(t, es[k]));
        }
    }
    let r = edited(t, es);
    assert(r =~= seq![t[0]] + y);
    assert(r.subrange(1, r.len() as int) =~= y);
    if y.len() == 0 {
        assert(run(flat(1), y) == flat(1));
    }
}

proof fn lemma_nothing_at_start(t: Seq<u8>, es: Seq<Edit>, n: int)
    requires
        forall|k: int| 0 <= k < es.len() ==> harmless(t, #[trigger] es[k]),
        0 <= n <= es.len(),
    ensures
        inserted_at(es, 0, n) == Seq::<u8>::empty(),
    decreases n,
{
    if n > 0 {
        assert(harmless(t, es[n - 1]));
        lemma_nothing_at_start(t, es, n - 1);
    }
}

// Balanced blocks parse
/// A scan that stays below the first level of its lists may begin one level
/// less deep.
proof fn lemma_run_shallower(x: Seq<u8>, b: int)
    requires
        0 <= b <= x.len(),
        forall|k: int| 0 <= k < b ==> (#[trigger] run(flat(2), x.take(k))).depth >= 2,
    ensures
        run(flat(1), x.take(b)) == (Scan {
            depth: run(flat(2), x.take(b)).depth - 1,
            ..run(flat(2), x.take(b))
        }),
    decreases b,
{
    if b == 0 {
        assert(x.take(0) =~= Seq::<u8>::empty());
    } else {
        lemma_run_shallower(x, b - 1);
        assert(x.take(b).drop_last() =~= x.take(b - 1));
        assert(run(flat(2), x.take(b - 1)).depth >= 2);
    }
}

/// The first place at which a list that was opened is closed again.
proof fn lemma_first_close(x: Seq<u8>, k: int) -> (b: int)
    requires
        0 <= k <= x.len(),
        run(flat(2), x.take(k)).depth < 2,
    ensures
        1 <= b <= k,
        run(flat(2), x.take(b)).depth < 2,
        forall|j: int| 0 <= j < b ==> (#[trigger] run(flat(2), x.take(j))).depth >= 2,
    decreases k,
{
    assert(x.take(0) =~= Seq::<u8>::empty());
    if exists|j: int| 0 <= j < k && (#[trigger] run(flat(2), x.take(j))).depth < 2 {
        let j = choose|j: int| 0 <= j < k && (#[trigger] run(flat(2), x.take(j))).depth < 2;
        lemma_first_close(x, j)
    } else {
        k
    }
}

/// A string that does not end keeps a scan inside.
proof fn lemma_never_ends(h: Seq<u8>, i: int, e: int, d: int)
    requires
        0 <= i <= e <= h.len(),
        value_end(h, i) matches Some(v) ==> v >= e,
    ensures
        run(quoting(d), h.subrange(i, e)).in_string,
    decreases e - i,
{
    if i == e {
        assert(h.subrange(i, e) =~= Seq::<u8>::empty());
    } else {
        let one = h.subrange(i, i + 1);
        assert(one.drop_last() =~= Seq::<u8>::empty());
        assert(run(quoting(d), one.drop_last()) == quoting(d));
        if h[i] == 92 {
            let esc = Scan { depth: d, in_string: true, escape: true };
            assert(run(quoting(d), one) == esc);
            if i + 1 == e {
                assert(h.subrange(i, e) =~= one);
            } else {
                let two = h.subrange(i, i + 2);
                assert(two.drop_last() =~= one);
                assert(run(quoting(d), two) == quoting(d));
                lemma_never_ends(h, i + 2, e, d);
                assert(h.subrange(i, e) =~= two + h.subrange(i + 2, e));
                lemma_run_join(quoting(d), two, h.subrange(i + 2, e));
            }
        } else {
            assert(h[i] != QUOTE);
            assert(run(quoting(d), one) == quoting(d));
            lemma_never_ends(h, i + 1, e, d);
            assert(h.subrange(i, e) =~= one + h.subrange(i + 1, e));
            lemma_run_join(quoting(d), one, h.subrange(i + 1, e));
        }
    }
}

/// A string that does not end in characters does not end in bytes.
proof fn lemma_no_string_end(s: Seq<char>, k: int)
    requires
        0 <= k <= s.len(),
        string_end(s, k) is None,
    ensures
        value_end(bytes_of(s), offset(s, k)) is None,
    decreases s.len() - k,
{
    let h = bytes_of(s);
    let i = offset(s, k);
    if k == s.len() {
        assert(s.subrange(0, k) =~= s);
    } else {
        lemma_offset(s, k);
        lemma_char_bytes(s[k]);
        assert(h.subrange(i, offset(s, k + 1))[0] == h[i]);
        assert(bytes_of(seq![s[k]])[0] == h[i]);
        if s[k] == '\\' {
            if k + 1 == s.len() {
                assert(s.subrange(0, k + 1) =~= s);
            } else {
                lemma_no_string_end(s, k + 2);
                lemma_offset(s, k + 1);
                lemma_char_bytes(s[k + 1]);
                let m = offset(s, k + 2);
                assert forall|j: int| i + 2 <= j < m implies h[j] != QUOTE && h[j] != 92 by {
                    assert(h.subrange(i + 1, m)[j - i - 1] == h[j]);
                }
                lemma_value_skip(h, i + 2, m);
            }
        } else {
            assert(s[k] != '"');
            lemma_no_string_end(s, k + 1);
            let m = offset(s, k + 1);
            lemma_no_byte(seq![s[k]], '"');
            lemma_no_byte(seq![s[k]], '\\');
            assert forall|j: int| i <= j < m implies h[j] != QUOTE && h[j] != 92 by {
                assert(h.subrange(i, m)[j - i] == h[j]);
            }
            lemma_value_skip(h, i, m);
        }
    }
}

/// What follows a piece that leaves the scan where it was.
proof fn lemma_after(s: Seq<char>, i: int, a: int, e: int)
    requires
        0 <= i <= a <= e <= s.len(),
        within(flat(1), bytes_of(s.subrange(i, e))),
        run(flat(1), bytes_of(s.subrange(i, e))) == flat(0),
        run(flat(1), bytes_of(s.subrange(i, a))) == flat(1),
    ensures
        a < e,
        within(flat(1), bytes_of(s.subrange(a, e))),
        run(flat(1), bytes_of(s.subrange(a, e))) == flat(0),
{
    let x = bytes_of(s.subrange(i, a));
    let y = bytes_of(s.subrange(a, e));
    lemma_text_join(s, i, a, e);
    lemma_run_join(flat(1), x, y);
    if y.len() == 0 {
        assert(y =~= Seq::<u8>::empty());
    }
    if a == e {
        assert(s.subrange(a, e) =~= Seq::<char>::empty());
    }
    lemma_within_front(flat(1), x, y);
}

/// From `i` on a scan is inside a list, and it leaves that list at `e`.
spec fn leaves_at(s: Seq<char>, i: int, e: int) -> bool {
    &&& 0 <= i < e <= s.len()
    &&& within(flat(1), bytes_of(s.subrange(i, e)))
    &&& run(flat(1), bytes_of(s.subrange(i, e))) == flat(0)
}

/// The list that goes on at `i` has a node and then goes on.
proof fn lemma_list_step(s: Seq<char>, i: int, e: int)
    requires
        0 <= i <= s.len(),
        skip_space(s, i) < s.len(),
        s[skip_space(s, i)] != ')',
        node_from(s, skip_space(s, i)) is Ok,
        list_from(s, node_from(s, skip_space(s, i))->Ok_0.1) matches Ok(l) && l.1 == e,
    ensures
        list_from(s, i) matches Ok(l) && l.1 == e,
{
    lemma_skip_space(s, i);
    lemma_skip_space(s, skip_space(s, i));
    lemma_node_from(s, skip_space(s, i));
}

/// One byte of a character.
proof fn lemma_one_byte(s: Seq<char>, a: int, e: int, r: Scan) -> (c: u8)
    requires
        leaves_at(s, a, e),
        (s[a] as u32) < 128,
    ensures
        bytes_of(s.subrange(a, a + 1)) == seq![c],
        c == s[a] as u8,
        bytes_of(s.subrange(a, e)) == seq![c] + bytes_of(s.subrange(a + 1, e)),
        run(r, seq![c]) == scan_step(r, c),
        run(r, bytes_of(s.subrange(a, e))) == run(
            scan_step(r, c),
            bytes_of(s.subrange(a + 1, e)),
        ),
{
    let one = s.subrange(a, a + 1);
    assert(one =~= seq![s[a]]);
    lemma_ascii_byte(s[a]);
    lemma_text_join(s, a, a + 1, e);
    let c = s[a] as u8;
    assert(seq![c].drop_last() =~= Seq::<u8>::empty());
    assert(run(r, seq![c].drop_last()) == r);
    lemma_run_join(r, seq![c], bytes_of(s.subrange(a + 1, e)));
    c
}

/// A closing parenthesis ends the list.
proof fn lemma_close_case(s: Seq<char>, a: int, e: int)
    requires
        leaves_at(s, a, e),
        s[a] == ')',
    ensures
        e == a + 1,
{
    let c = lemma_one_byte(s, a, e, flat(1));
    let y = bytes_of(s.subrange(a, e));
    if a + 1 < e {
        lemma_piece(s, a + 1, e);
        lemma_offset(s, a + 1);
        lemma_char_bytes(s[a + 1]);
        lemma_piece(s, a + 2, e);
        assert(y.len() > 1);
        assert(y.take(1) =~= seq![c]);
        assert(run(flat(1), y.take(1)).depth >= 1);
    }
}

/// Where the list that opens at `a` closes again.
proof fn lemma_open_case(s: Seq<char>, a: int, e: int) -> (q: int)
    requires
        leaves_at(s, a, e),
        s[a] == '(',
    ensures
        leaves_at(s, a + 1, q),
        q <= e,
        run(flat(1), bytes_of(s.subrange(a, q))) == flat(1),
{
    let h = bytes_of(s);
    let c = lemma_one_byte(s, a, e, flat(1));
    let x = bytes_of(s.subrange(a + 1, e));
    assert(scan_step(flat(1), c) == flat(2));
    assert(x.take(x.len() as int) =~= x);
    let b = lemma_first_close(x, x.len() as int);
    let z = x.take(b);
    // The byte there closes the list.
    assert(z.drop_last() =~= x.take(b - 1));
    assert(run(flat(2), x.take(b - 1)).depth >= 2);
    assert(run(flat(2), z) == scan_step(run(flat(2), x.take(b - 1)), x[b - 1]));
    assert(x[b - 1] == CLOSE);
    assert(run(flat(2), z) == flat(1));
    lemma_run_shallower(x, b);
    // It is a character.
    lemma_piece(s, a + 1, e);
    let o = offset(s, a + 1);
    assert(h.subrange(o, offset(s, e))[b - 1] == h[o + b - 1]);
    lemma_bytes_valid(s);
    lemma_cut_ascii(h, o + b - 1);
    lemma_char_at(s, o + b);
    let q = char_at(h, o + b);
    lemma_order(s, a + 1, q);
    lemma_order_back(s, q, e);
    lemma_piece(s, a + 1, q);
    assert(h.subrange(o, o + b) =~= h.subrange(o, offset(s, e)).take(b));
    assert(bytes_of(s.subrange(a + 1, q)) =~= z);
    assert forall|k: int| 0 <= k < z.len() implies (#[trigger] run(flat(1), z.take(k))).depth
        >= 1 by {
        assert(z.take(k) =~= x.take(k));
        lemma_run_shallower(x, k);
        assert(run(flat(2), x.take(k)).depth >= 2);
    }
    lemma_text_join(s, a, a + 1, q);
    lemma_run_join(flat(1), seq![c], z);
    q
}

/// Where the string that begins at `a` ends.
proof fn lemma_string_case(s: Seq<char>, a: int, e: int)
    requires
        leaves_at(s, a, e),
        s[a] == '"',
    ensures
        node_from(s, a) matches Ok(n) && a < n.1 <= e,
        run(flat(1), bytes_of(s.subrange(a, node_from(s, a)->Ok_0.1))) == flat(1),
{
    let h = bytes_of(s);
    let c = lemma_one_byte(s, a, e, flat(1));
    assert(scan_step(flat(1), c) == quoting(1));
    let o = offset(s, a + 1);
    lemma_piece(s, a + 1, e);
    if string_end(s, a + 1) is None {
        lemma_no_string_end(s, a + 1);
        lemma_never_ends(h, o, offset(s, e), 1);
    }
    let q = string_end(s, a + 1)->Some_0;
    lemma_string_ends(s, a + 1);
    lemma_string_value(s, a + 1);
    if q >= e {
        lemma_piece(s, e, q);
        lemma_never_ends(h, o, offset(s, e), 1);
    }
    assert(skip_space(s, a) == a);
    lemma_node_steady(s, a);
    assert(stays(bytes_of(s.subrange(a, q + 1)), 1));
}

/// Where the word that begins at `a` ends.
proof fn lemma_word_case(s: Seq<char>, a: int, e: int)
    requires
        leaves_at(s, a, e),
        !ends_head(s[a]),
    ensures
        node_from(s, a) matches Ok(n) && a < n.1 <= e,
        run(flat(1), bytes_of(s.subrange(a, node_from(s, a)->Ok_0.1))) == flat(1),
{
    lemma_head_chars(s, a);
    lemma_head_end(s, a);
    let q = head_end(s, a);
    let k = if q < e {
        q
    } else {
        e
    };
    let y = s.subrange(a, k);
    assert forall|j: int| 0 <= j < y.len() implies y[j] != '(' && y[j] != ')' && y[j] != '"' by {
        assert(!ends_head(s[a + j]));
    }
    lemma_steady_plain(y);
    assert(stays(bytes_of(y), 1));
    assert(skip_space(s, a) == a);
}

/// The list that goes on at `i` ends where the scan leaves it.
proof fn lemma_list_parses(s: Seq<char>, i: int, e: int)
    requires
        leaves_at(s, i, e),
    ensures
        list_from(s, i) matches Ok(l) && l.1 == e,
    decreases e - i,
{
    let a = skip_space(s, i);
    lemma_skip_space(s, i);
    lemma_spaces_skipped(s, i);
    let m = if a < e {
        a
    } else {
        e
    };
    lemma_blank_run(s, i, m);
    lemma_after(s, i, m, e);
    assert(leaves_at(s, a, e));
    if s[a] == ')' {
        lemma_close_case(s, a, e);
    } else {
        if s[a] == '(' {
            let q = lemma_open_case(s, a, e);
            lemma_list_parses(s, a + 1, q);
            assert(skip_space(s, a) == a);
            assert(node_from(s, a)->Ok_0.1 == q);
        } else if s[a] == '"' {
            lemma_string_case(s, a, e);
        } else {
            lemma_word_case(s, a, e);
        }
        let q = node_from(s, a)->Ok_0.1;
        lemma_after(s, a, q, e);
        lemma_list_parses(s, q, e);
        lemma_list_step(s, i, e);
    }
}

/// White space leaves a scan where it was.
proof fn lemma_blank_run(s: Seq<char>, i: int, m: int)
    requires
        0 <= i <= m <= s.len(),
        forall|k: int| i <= k < m ==> is_space(s[k]),
    ensures
        run(flat(1), bytes_of(s.subrange(i, m))) == flat(1),
{
    let w = s.subrange(i, m);
    assert forall|k: int| 0 <= k < w.len() implies is_space(w[k]) by {
        assert(is_space(s[i + k]));
    }
    lemma_steady_space(w);
    assert(stays(bytes_of(w), 1));
}

/// A text that is one balanced block is one list.
pub proof fn law_balanced_block_parses(s: Seq<char>)
    requires
        closed(bytes_of(s)),
    ensures
        s.len() > 0,
        s[0] == '(',
        node_from(s, 0) matches Ok(n) && n.1 == s.len(),
{
    let h = bytes_of(s);
    let n = s.len() as int;
    assert(s.subrange(0, 0) =~= Seq::<char>::empty());
    assert(bytes_of(Seq::<char>::empty()) =~= Seq::<u8>::empty());
    lemma_char_is(s, 0, '(');
    lemma_offset(s, 0);
    lemma_ascii_byte('(');
    lemma_piece(s, 1, n);
    assert(s.subrange(0, n) =~= s);
    assert(offset(s, 1) == 1);
    assert(h.subrange(1, h.len() as int) =~= bytes_of(s.subrange(1, n)));
    if n == 1 {
        assert(s.subrange(1, n) =~= Seq::<char>::empty());
    }
    assert(leaves_at(s, 1, n));
    lemma_list_parses(s, 1, n);
    assert(skip_space(s, 0) == 0);
}

} // verus!
