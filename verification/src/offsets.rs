//! Where the nodes of a text stand in its bytes.
//!
//! The parser reads characters and the scan reads bytes; both see the same
//! strings and the same lists.
use crate::board::replaced;
use crate::grammar::{lemma_list_end, lemma_spaces_skipped, lemma_string_ends};
use crate::parser::{lemma_node_from, list_from, node_from, string_end};
use crate::property::{lemma_value_skip, value_end};
use crate::reread::is_board;
use crate::scan::{balanced_block, scan, Scan, QUOTE};
use crate::steady::{
    flat, lemma_block_of, lemma_run_join, lemma_run_plain, lemma_scan_run, lemma_steady_join,
    lemma_steady_list, lemma_steady_plain, lemma_steady_space, neutral, run, stays, steady,
};
use crate::swapping::{ends_itself, lemma_head_chars, visited};
use crate::text::{
    bytes_of, cut, lemma_ascii_byte, lemma_bytes_concat, lemma_bytes_of_text, lemma_bytes_valid,
    lemma_char_bytes, lemma_cut_ends, lemma_cut_valid, lemma_no_byte, lemma_text_of, text_of,
};
use crate::words::{ends_head, is_space, lemma_skip_space, skip_space};
use vstd::prelude::*;
use vstd::string::*;

verus! {

// Strings
/// Inside a string.
pub open spec fn quoting(d: int) -> Scan {
    Scan { depth: d, in_string: true, escape: false }
}

pub proof fn lemma_text_join(s: Seq<char>, a: int, b: int, c: int)
    requires
        0 <= a <= b <= c <= s.len(),
    ensures
        bytes_of(s.subrange(a, c)) == bytes_of(s.subrange(a, b)) + bytes_of(s.subrange(b, c)),
{
    assert(s.subrange(a, c) =~= s.subrange(a, b) + s.subrange(b, c));
    lemma_bytes_concat(s.subrange(a, b), s.subrange(b, c));
}

/// The inside of a string keeps a scan in the string.
pub proof fn lemma_inside(h: Seq<u8>, i: int, d: int)
    requires
        0 <= i,
        value_end(h, i) is Some,
    ensures
        i <= value_end(h, i).unwrap() < h.len(),
        h[value_end(h, i).unwrap()] == QUOTE,
        run(quoting(d), h.subrange(i, value_end(h, i).unwrap())) == quoting(d),
        forall|j: int|
            i <= j <= value_end(h, i).unwrap() ==> {
                let r = #[trigger] run(quoting(d), h.subrange(i, j));
                r.in_string && r.depth == d
            },
    decreases h.len() - i + 1,
{
    let e = value_end(h, i).unwrap();
    assert(h.subrange(i, i) =~= Seq::<u8>::empty());
    assert(run(quoting(d), h.subrange(i, i)) == quoting(d));
    if h[i] != QUOTE {
        let n = if h[i] == 92 {
            i + 2
        } else {
            i + 1
        };
        lemma_inside(h, n, d);
        let one = h.subrange(i, i + 1);
        assert(one.drop_last() =~= h.subrange(i, i));
        if h[i] == 92 {
            let two = h.subrange(i, i + 2);
            assert(two.drop_last() =~= one);
            let esc = Scan { depth: d, in_string: true, escape: true };
            assert(run(quoting(d), one) == esc);
            assert(run(quoting(d), two) == quoting(d));
        }
        assert(run(quoting(d), h.subrange(i, n)) == quoting(d));
        assert forall|j: int| i <= j <= e implies {
            let r = #[trigger] run(quoting(d), h.subrange(i, j));
            r.in_string && r.depth == d
        } by {
            if j >= n {
                assert(h.subrange(i, j) =~= h.subrange(i, n) + h.subrange(n, j));
                lemma_run_join(quoting(d), h.subrange(i, n), h.subrange(n, j));
                let r = run(quoting(d), h.subrange(n, j));
                assert(r.in_string && r.depth == d);
            }
        }
        assert(h.subrange(i, e) =~= h.subrange(i, n) + h.subrange(n, e));
        lemma_run_join(quoting(d), h.subrange(i, n), h.subrange(n, e));
    }
}

/// The byte at which a character of a text begins.
pub open spec fn offset(s: Seq<char>, k: int) -> int {
    bytes_of(s.subrange(0, k)).len() as int
}

/// A character of a text in the bytes of the text.
pub proof fn lemma_offset(s: Seq<char>, k: int)
    requires
        0 <= k < s.len(),
    ensures
        offset(s, k + 1) == offset(s, k) + bytes_of(seq![s[k]]).len(),
        offset(s, k + 1) <= bytes_of(s).len(),
        bytes_of(s).subrange(offset(s, k), offset(s, k + 1)) == bytes_of(seq![s[k]]),
{
    let n = s.len() as int;
    lemma_text_join(s, 0, k, k + 1);
    lemma_text_join(s, 0, k + 1, n);
    assert(s.subrange(k, k + 1) =~= seq![s[k]]);
    assert(s.subrange(0, n) =~= s);
    assert(bytes_of(s).subrange(offset(s, k), offset(s, k + 1)) =~= bytes_of(seq![s[k]]));
}

/// A string ends in the bytes of a text where it ends in its characters.
pub proof fn lemma_string_value(s: Seq<char>, k: int)
    requires
        0 <= k,
        string_end(s, k) is Some,
    ensures
        value_end(bytes_of(s), offset(s, k)) == Some(offset(s, string_end(s, k).unwrap())),
    decreases s.len() - k + 1,
{
    let h = bytes_of(s);
    let i = offset(s, k);
    lemma_string_ends(s, k);
    lemma_offset(s, k);
    lemma_char_bytes(s[k]);
    assert(h.subrange(i, offset(s, k + 1))[0] == h[i]);
    if s[k] == '\\' {
        lemma_string_ends(s, k + 2);
        lemma_string_value(s, k + 2);
        lemma_offset(s, k + 1);
        lemma_char_bytes(s[k + 1]);
        let m = offset(s, k + 2);
        assert forall|j: int| i + 2 <= j < m implies h[j] != QUOTE && h[j] != 92 by {
            assert(h.subrange(i + 1, m)[j - i - 1] == h[j]);
        }
        lemma_value_skip(h, i + 2, m);
    } else if s[k] != '"' {
        lemma_string_ends(s, k + 1);
        lemma_string_value(s, k + 1);
        let m = offset(s, k + 1);
        lemma_no_byte(seq![s[k]], '"');
        lemma_no_byte(seq![s[k]], '\\');
        assert forall|j: int| i <= j < m implies h[j] != QUOTE && h[j] != 92 by {
            assert(h.subrange(i, m)[j - i] == h[j]);
        }
        lemma_value_skip(h, i, m);
    }
}

/// A string leaves a scan where it was.
proof fn lemma_neutral_value(h: Seq<u8>, i: int)
    requires
        0 <= i,
        value_end(h, i) is Some,
    ensures
        neutral(seq![QUOTE] + h.subrange(i, value_end(h, i).unwrap()) + seq![QUOTE]),
{
    let e = value_end(h, i).unwrap();
    let q = seq![QUOTE];
    lemma_inside(h, i, 1);
    let v = h.subrange(i, e);
    let x = q + v + q;
    assert forall|d: int| d >= 1 implies #[trigger] stays(x, d) by {
        lemma_inside(h, i, d);
        assert(q.drop_last() =~= Seq::<u8>::empty());
        assert(run(flat(d), q.drop_last()) == flat(d));
        assert(run(quoting(d), q.drop_last()) == quoting(d));
        assert(run(flat(d), q) == quoting(d));
        assert(run(quoting(d), q) == flat(d));
        lemma_run_join(flat(d), q, v);
        lemma_run_join(flat(d), q + v, q);
        assert forall|k: int| 0 <= k <= x.len() implies (#[trigger] run(flat(d), x.take(k))).depth
            >= d by {
            if k == 0 {
                assert(x.take(k) =~= Seq::<u8>::empty());
            } else if k <= v.len() + 1 {
                assert(x.take(k) =~= q + h.subrange(i, i + k - 1));
                lemma_run_join(flat(d), q, h.subrange(i, i + k - 1));
                assert(run(quoting(d), h.subrange(i, i + k - 1)).depth == d);
            } else {
                assert(x.take(k) =~= x);
            }
        }
    }
}

proof fn lemma_steady_string(s: Seq<char>, a: int)
    requires
        0 <= a < s.len(),
        s[a] == '"',
        string_end(s, a + 1) is Some,
    ensures
        steady(s.subrange(a, string_end(s, a + 1).unwrap() + 1)),
{
    let h = bytes_of(s);
    let e = string_end(s, a + 1).unwrap();
    lemma_string_ends(s, a + 1);
    lemma_string_value(s, a + 1);
    lemma_neutral_value(h, offset(s, a + 1));
    lemma_text_join(s, a, a + 1, e + 1);
    lemma_text_join(s, a + 1, e, e + 1);
    assert(s.subrange(a, a + 1) =~= seq!['"']);
    assert(s.subrange(e, e + 1) =~= seq!['"']);
    lemma_ascii_byte('"');
    lemma_piece(s, a + 1, e);
    assert(bytes_of(s.subrange(a, e + 1)) =~= seq![QUOTE] + h.subrange(
        offset(s, a + 1),
        offset(s, e),
    ) + seq![QUOTE]);
}

/// A piece of a text in the bytes of the text.
pub proof fn lemma_piece(s: Seq<char>, a: int, b: int)
    requires
        0 <= a <= b <= s.len(),
    ensures
        0 <= offset(s, a) <= offset(s, b) <= bytes_of(s).len(),
        bytes_of(s).subrange(offset(s, a), offset(s, b)) == bytes_of(s.subrange(a, b)),
{
    let n = s.len() as int;
    lemma_text_join(s, 0, a, b);
    lemma_text_join(s, 0, b, n);
    assert(s.subrange(0, n) =~= s);
    assert(bytes_of(s).subrange(offset(s, a), offset(s, b)) =~= bytes_of(s.subrange(a, b)));
}

// Nodes leave a scan where it was
pub proof fn lemma_node_steady(s: Seq<char>, a: int)
    requires
        0 <= a < s.len(),
        !is_space(s[a]),
        node_from(s, a) is Ok,
    ensures
        a < node_from(s, a)->Ok_0.1 <= s.len(),
        steady(s.subrange(a, node_from(s, a)->Ok_0.1)),
    decreases s.len() - a, 0int,
{
    lemma_node_from(s, a);
    assert(skip_space(s, a) == a);
    let e = node_from(s, a)->Ok_0.1;
    if s[a] == '(' {
        lemma_list_end(s, a + 1);
        lemma_list_steady(s, a + 1);
        let inner = s.subrange(a + 1, e - 1);
        lemma_steady_list(inner);
        reveal_strlit("(");
        reveal_strlit(")");
        assert(s.subrange(a, e) =~= "("@ + inner + ")"@);
    } else if s[a] == '"' {
        lemma_steady_string(s, a);
    } else {
        lemma_head_chars(s, a);
        let y = s.subrange(a, e);
        assert forall|k: int| 0 <= k < y.len() implies y[k] != '(' && y[k] != ')' && y[k]
            != '"' by {
            assert(!ends_head(s[a + k]));
        }
        lemma_steady_plain(y);
    }
}

pub proof fn lemma_list_steady(s: Seq<char>, i: int)
    requires
        0 <= i <= s.len(),
        list_from(s, i) is Ok,
    ensures
        i < list_from(s, i)->Ok_0.1 <= s.len(),
        steady(s.subrange(i, list_from(s, i)->Ok_0.1 - 1)),
    decreases s.len() - i, 1int,
{
    let a = skip_space(s, i);
    lemma_skip_space(s, i);
    lemma_spaces_skipped(s, i);
    lemma_list_end(s, i);
    let e = list_from(s, i)->Ok_0.1;
    let w = s.subrange(i, a);
    assert forall|k: int| 0 <= k < w.len() implies is_space(w[k]) by {
        assert(is_space(s[i + k]));
    }
    lemma_steady_space(w);
    if s[a] != ')' {
        lemma_node_steady(s, a);
        let b = node_from(s, a)->Ok_0.1;
        lemma_list_steady(s, b);
        lemma_steady_join(w, s.subrange(a, b));
        lemma_steady_join(w + s.subrange(a, b), s.subrange(b, e - 1));
        assert(s.subrange(i, e - 1) =~= w + s.subrange(a, b) + s.subrange(b, e - 1));
    }
}

// Where nodes begin
/// Outside of strings.
pub open spec fn outside(r: Scan) -> bool {
    !r.in_string && !r.escape
}

/// Whether a scan is in a string does not depend on its depth.
pub proof fn lemma_run_flags(s: Scan, t: Scan, x: Seq<u8>)
    requires
        s.in_string == t.in_string,
        s.escape == t.escape,
    ensures
        run(s, x).in_string == run(t, x).in_string,
        run(s, x).escape == run(t, x).escape,
    decreases x.len(),
{
    if x.len() > 0 {
        lemma_run_flags(s, t, x.drop_last());
    }
}

/// A parenthesis or quote that stands outside of strings begins a node.
proof fn lemma_visited(s: Seq<char>, i: int, p: int)
    requires
        0 <= i <= p,
        list_from(s, i) is Ok,
        p < list_from(s, i)->Ok_0.1,
        ends_itself(s[p]),
        outside(run(flat(1), bytes_of(s.subrange(i, p)))),
    ensures
        visited(s, i, p),
    decreases s.len() - i,
{
    let a = skip_space(s, i);
    lemma_skip_space(s, i);
    lemma_spaces_skipped(s, i);
    lemma_list_end(s, i);
    if p < a {
        assert(is_space(s[p]));
    }
    if s[a] != ')' {
        lemma_node_steady(s, a);
        let b = node_from(s, a)->Ok_0.1;
        lemma_list_end(s, b);
        let w = s.subrange(i, a);
        assert forall|k: int| 0 <= k < w.len() implies is_space(w[k]) by {
            assert(is_space(s[i + k]));
        }
        lemma_steady_space(w);
        assert(stays(bytes_of(w), 1));
        if a < p < b {
            let one = s.subrange(a, a + 1);
            let rest = bytes_of(s.subrange(a + 1, p));
            assert(one =~= seq![s[a]]);
            lemma_text_join(s, i, a, p);
            lemma_text_join(s, a, a + 1, p);
            lemma_run_join(flat(1), bytes_of(w), bytes_of(s.subrange(a, p)));
            lemma_run_join(flat(1), bytes_of(one), rest);
            let c = bytes_of(one);
            assert(skip_space(s, a) == a);
            if s[a] == '(' {
                lemma_ascii_byte('(');
                assert(c.drop_last() =~= Seq::<u8>::empty());
                assert(run(flat(1), c.drop_last()) == flat(1));
                assert(run(flat(1), c) == flat(2));
                lemma_run_flags(flat(2), flat(1), rest);
                lemma_visited(s, a + 1, p);
            } else if s[a] == '"' {
                lemma_ascii_byte('"');
                assert(c.drop_last() =~= Seq::<u8>::empty());
                assert(run(flat(1), c.drop_last()) == flat(1));
                assert(run(flat(1), c) == quoting(1));
                let e = string_end(s, a + 1).unwrap();
                lemma_string_ends(s, a + 1);
                lemma_string_value(s, a + 1);
                lemma_inside(bytes_of(s), offset(s, a + 1), 1);
                if p <= e {
                    lemma_piece(s, a + 1, p);
                    lemma_piece(s, p, e);
                    assert(run(
                        quoting(1),
                        bytes_of(s).subrange(offset(s, a + 1), offset(s, p)),
                    ).in_string);
                }
            } else {
                lemma_head_chars(s, a);
            }
        } else if p >= b {
            let y = s.subrange(a, b);
            lemma_text_join(s, i, a, p);
            lemma_text_join(s, a, b, p);
            lemma_run_join(flat(1), bytes_of(w), bytes_of(s.subrange(a, p)));
            lemma_run_join(flat(1), bytes_of(y), bytes_of(s.subrange(b, p)));
            assert(stays(bytes_of(y), 1));
            lemma_visited(s, b, p);
        }
    }
}

/// What is visited is a node.
proof fn lemma_visited_node(s: Seq<char>, i: int, p: int)
    requires
        0 <= i <= s.len(),
        visited(s, i, p),
    ensures
        i <= p < s.len(),
        ends_itself(s[p]),
        node_from(s, p) is Ok,
    decreases s.len() - i,
{
    let a = skip_space(s, i);
    lemma_skip_space(s, i);
    let n = node_from(s, a)->Ok_0;
    if p != a {
        if p < n.1 {
            lemma_visited_node(s, a + 1, p);
        } else {
            lemma_visited_node(s, n.1, p);
        }
    }
}

/// A parenthesis of a board that stands outside of strings, and is not the one
/// that the board begins with, begins a node of the board.
pub proof fn lemma_node_of_board(s: Seq<char>, p: int)
    requires
        is_board(s),
        skip_space(s, 0) < p < s.len(),
        ends_itself(s[p]),
        outside(scan(bytes_of(s), 0, offset(s, p))),
    ensures
        visited(s, skip_space(s, 0) + 1, p),
        node_from(s, p) is Ok,
{
    let h = bytes_of(s);
    let a = skip_space(s, 0);
    lemma_skip_space(s, 0);
    lemma_spaces_skipped(s, 0);
    lemma_node_from(s, 0);
    let l = list_from(s, a + 1)->Ok_0;
    lemma_list_end(s, a + 1);
    lemma_spaces_skipped(s, l.1);
    if p >= l.1 {
        assert(is_space(s[p]));
    }
    lemma_piece(s, 0, p);
    assert(s.subrange(0, 0) =~= Seq::<char>::empty());
    assert(bytes_of(Seq::<char>::empty()) =~= Seq::<u8>::empty());
    lemma_scan_run(h, 0, 0, offset(s, p));
    assert(scan(h, 0, 0) == flat(0));
    lemma_text_join(s, 0, a, p);
    lemma_text_join(s, a, a + 1, p);
    let w = s.subrange(0, a);
    lemma_no_byte(w, '(');
    lemma_no_byte(w, ')');
    lemma_no_byte(w, '"');
    lemma_run_plain(bytes_of(w), 0);
    lemma_run_join(flat(0), bytes_of(w), bytes_of(s.subrange(a, p)));
    let c = bytes_of(s.subrange(a, a + 1));
    assert(s.subrange(a, a + 1) =~= seq!['(']);
    lemma_ascii_byte('(');
    assert(c.drop_last() =~= Seq::<u8>::empty());
    assert(run(flat(0), c.drop_last()) == flat(0));
    assert(run(flat(0), c) == flat(1));
    lemma_run_join(flat(0), c, bytes_of(s.subrange(a + 1, p)));
    lemma_visited(s, a + 1, p);
    lemma_visited_node(s, a + 1, p);
}

// Offsets and characters
/// The character that begins at an offset.
pub open spec fn char_at(h: Seq<u8>, i: int) -> int {
    text_of(h.subrange(0, i)).len() as int
}

/// A place where a text may be cut is the beginning of a character.
pub proof fn lemma_char_at(s: Seq<char>, i: int)
    requires
        cut(bytes_of(s), i),
    ensures
        0 <= char_at(bytes_of(s), i) <= s.len(),
        offset(s, char_at(bytes_of(s), i)) == i,
{
    let h = bytes_of(s);
    let n = h.len() as int;
    lemma_bytes_valid(s);
    lemma_cut_ends(h);
    lemma_cut_valid(h, 0, i);
    lemma_cut_valid(h, i, n);
    let a = text_of(h.subrange(0, i));
    let b = text_of(h.subrange(i, n));
    lemma_bytes_of_text(h.subrange(0, i));
    lemma_bytes_of_text(h.subrange(i, n));
    lemma_bytes_concat(a, b);
    assert(bytes_of(a + b) =~= h);
    lemma_text_of(a + b);
    lemma_text_of(s);
    assert(s.subrange(0, a.len() as int) =~= a);
}

/// A byte below 128 at which a character begins is that character.
pub proof fn lemma_char_is(s: Seq<char>, k: int, c: char)
    requires
        0 <= k <= s.len(),
        offset(s, k) < bytes_of(s).len(),
        bytes_of(s)[offset(s, k)] == c as u8,
        (c as u32) < 128,
    ensures
        k < s.len(),
        s[k] == c,
{
    let h = bytes_of(s);
    if k == s.len() {
        assert(s.subrange(0, k) =~= s);
    } else {
        lemma_offset(s, k);
        lemma_char_bytes(s[k]);
        assert(h.subrange(offset(s, k), offset(s, k + 1))[0] == h[offset(s, k)]);
        assert(bytes_of(seq![s[k]])[0] == h[offset(s, k)]);
        if s[k] != c {
            lemma_no_byte(seq![s[k]], c);
        }
    }
}

/// A piece replaced, said in characters.
pub proof fn lemma_replaced_text(s: Seq<char>, o: int, q: int, x: Seq<char>)
    requires
        0 <= o <= q <= s.len(),
    ensures
        text_of(replaced(bytes_of(s), offset(s, o), offset(s, q), x)) == s.subrange(0, o) + x
            + s.subrange(q, s.len() as int),
{
    let h = bytes_of(s);
    let n = s.len() as int;
    let a = s.subrange(0, o);
    let b = s.subrange(q, n);
    lemma_piece(s, 0, o);
    lemma_piece(s, o, q);
    lemma_piece(s, q, n);
    assert(s.subrange(0, n) =~= s);
    assert(s.subrange(0, 0) =~= Seq::<char>::empty());
    assert(bytes_of(Seq::<char>::empty()) =~= Seq::<u8>::empty());
    lemma_bytes_concat(a, x);
    lemma_bytes_concat(a + x, b);
    lemma_text_of(a + x + b);
}

/// A list of a text is the balanced block at its parenthesis.
pub proof fn lemma_node_block(s: Seq<char>, p: int)
    requires
        0 <= p < s.len(),
        s[p] == '(',
        node_from(s, p) is Ok,
    ensures
        p < node_from(s, p)->Ok_0.1 <= s.len(),
        balanced_block(bytes_of(s), offset(s, p)) == Some(
            (offset(s, p), offset(s, node_from(s, p)->Ok_0.1)),
        ),
{
    lemma_node_from(s, p);
    assert(skip_space(s, p) == p);
    let q = node_from(s, p)->Ok_0.1;
    let h = bytes_of(s);
    lemma_list_end(s, p + 1);
    lemma_list_steady(s, p + 1);
    let inner = s.subrange(p + 1, q - 1);
    lemma_steady_list(inner);
    reveal_strlit("(");
    reveal_strlit(")");
    assert(s.subrange(p, q) =~= "("@ + inner + ")"@);
    lemma_piece(s, p, q);
    let b = bytes_of(s.subrange(p, q));
    assert(b.len() == bytes_of(inner).len() + 2);
    assert(h.subrange(offset(s, p), offset(s, q)).len() == b.len());
    lemma_block_of(h, offset(s, p), bytes_of(inner));
}

/// Characters stand in the order of their offsets.
pub proof fn lemma_order(s: Seq<char>, j: int, k: int)
    requires
        0 <= j <= s.len(),
        0 <= k <= s.len(),
        offset(s, j) < offset(s, k),
    ensures
        j < k,
{
    if k <= j {
        lemma_piece(s, k, j);
    }
}

pub proof fn lemma_order_back(s: Seq<char>, j: int, k: int)
    requires
        0 <= j <= s.len(),
        0 <= k <= s.len(),
        offset(s, j) <= offset(s, k),
    ensures
        j <= k,
{
    if k < j {
        lemma_piece(s, k + 1, j);
        lemma_offset(s, k);
        lemma_char_bytes(s[k]);
    }
}

} // verus!
