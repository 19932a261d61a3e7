//! Texts that leave a scan where it was: every list and every string that they
//! open, they close.
use crate::lines::{block_text, lines, needs_no_escape, node_one, node_two, quoted};
use crate::scan::{
    balanced_block, block_end, closes, lemma_block_end, scan, scan_step, Scan, CLOSE, OPEN, QUOTE,
};
use crate::text::{bytes_of, lemma_ascii_byte, lemma_bytes_concat, lemma_no_byte};
use crate::words::{ends_head, is_space, is_word};
use vstd::prelude::*;
use vstd::string::*;

verus! {

/// Outside of strings, with `d` lists open.
pub open spec fn flat(d: int) -> Scan {
    Scan { depth: d, in_string: false, escape: false }
}

/// A scan taken over all of `x`.
pub open spec fn run(s: Scan, x: Seq<u8>) -> Scan
    decreases x.len(),
{
    if x.len() == 0 {
        s
    } else {
        scan_step(run(s, x.drop_last()), x.last())
    }
}

/// The text leaves the scan at depth `d`, and never takes it lower.
pub open spec fn stays(x: Seq<u8>, d: int) -> bool {
    &&& run(flat(d), x) == flat(d)
    &&& forall|k: int| 0 <= k <= x.len() ==> (#[trigger] run(flat(d), x.take(k))).depth >= d
}

/// The text leaves a scan inside a list where it was.
pub open spec fn neutral(x: Seq<u8>) -> bool {
    forall|d: int| d >= 1 ==> #[trigger] stays(x, d)
}

/// The same of a text in characters.
pub open spec fn steady(s: Seq<char>) -> bool {
    neutral(bytes_of(s))
}

pub proof fn lemma_run_join(s: Scan, x: Seq<u8>, y: Seq<u8>)
    ensures
        run(s, x + y) == run(run(s, x), y),
    decreases y.len(),
{
    if y.len() == 0 {
        assert(x + y =~= x);
    } else {
        assert((x + y).drop_last() =~= x + y.drop_last());
        lemma_run_join(s, x, y.drop_last());
    }
}

/// A scan of a text is a run over it.
pub proof fn lemma_scan_run(h: Seq<u8>, from: int, i: int, j: int)
    requires
        0 <= from <= i <= j <= h.len(),
    ensures
        scan(h, from, j) == run(scan(h, from, i), h.subrange(i, j)),
    decreases j - i,
{
    if i < j {
        lemma_scan_run(h, from, i, j - 1);
        assert(h.subrange(i, j).drop_last() =~= h.subrange(i, j - 1));
    } else {
        assert(h.subrange(i, j) =~= Seq::<u8>::empty());
    }
}

proof fn lemma_neutral_join(x: Seq<u8>, y: Seq<u8>)
    requires
        neutral(x),
        neutral(y),
    ensures
        neutral(x + y),
{
    assert forall|d: int| d >= 1 implies #[trigger] stays(x + y, d) by {
        assert(stays(x, d));
        assert(stays(y, d));
        lemma_run_join(flat(d), x, y);
        assert forall|k: int| 0 <= k <= (x + y).len() implies (#[trigger] run(
            flat(d),
            (x + y).take(k),
        )).depth >= d by {
            if k <= x.len() {
                assert((x + y).take(k) =~= x.take(k));
            } else {
                let m = k - x.len();
                assert((x + y).take(k) =~= x + y.take(m));
                lemma_run_join(flat(d), x, y.take(m));
                assert(run(flat(d), y.take(m)).depth >= d);
            }
        }
    }
}

pub proof fn lemma_run_plain(x: Seq<u8>, d: int)
    requires
        forall|k: int| 0 <= k < x.len() ==> x[k] != OPEN && x[k] != CLOSE && x[k] != QUOTE,
    ensures
        run(flat(d), x) == flat(d),
    decreases x.len(),
{
    if x.len() > 0 {
        lemma_run_plain(x.drop_last(), d);
    }
}

proof fn lemma_neutral_plain(x: Seq<u8>)
    requires
        forall|k: int| 0 <= k < x.len() ==> x[k] != OPEN && x[k] != CLOSE && x[k] != QUOTE,
    ensures
        neutral(x),
{
    assert forall|d: int| d >= 1 implies #[trigger] stays(x, d) by {
        lemma_run_plain(x, d);
        assert forall|k: int| 0 <= k <= x.len() implies (#[trigger] run(flat(d), x.take(k))).depth
            >= d by {
            lemma_run_plain(x.take(k), d);
        }
    }
}

pub proof fn lemma_run_inside(x: Seq<u8>, s: Scan)
    requires
        forall|k: int| 0 <= k < x.len() ==> x[k] != QUOTE && x[k] != 92,
        s.in_string && !s.escape,
    ensures
        run(s, x) == s,
    decreases x.len(),
{
    if x.len() > 0 {
        lemma_run_inside(x.drop_last(), s);
    }
}

proof fn lemma_neutral_string(v: Seq<u8>)
    requires
        forall|k: int| 0 <= k < v.len() ==> v[k] != QUOTE && v[k] != 92,
    ensures
        neutral(seq![QUOTE] + v + seq![QUOTE]),
{
    let q = seq![QUOTE];
    let x = q + v + q;
    assert forall|d: int| d >= 1 implies #[trigger] stays(x, d) by {
        let s = Scan { depth: d, in_string: true, escape: false };
        assert(q.drop_last() =~= Seq::<u8>::empty());
        assert(run(flat(d), q.drop_last()) == flat(d));
        assert(run(s, q.drop_last()) == s);
        assert(run(flat(d), q) == s);
        assert(run(s, q) == flat(d));
        lemma_run_inside(v, s);
        lemma_run_join(flat(d), q, v);
        lemma_run_join(flat(d), q + v, q);
        assert forall|k: int| 0 <= k <= x.len() implies (#[trigger] run(flat(d), x.take(k))).depth
            >= d by {
            if k == 0 {
                assert(x.take(k) =~= Seq::<u8>::empty());
            } else if k <= v.len() + 1 {
                assert(x.take(k) =~= q + v.take(k - 1));
                lemma_run_join(flat(d), q, v.take(k - 1));
                lemma_run_inside(v.take(k - 1), s);
            } else {
                assert(x.take(k) =~= x);
            }
        }
    }
}

/// A list goes one level deeper and comes back.
pub proof fn lemma_run_list(x: Seq<u8>, d: int)
    requires
        neutral(x),
        d >= 0,
    ensures
        run(flat(d), seq![OPEN] + x + seq![CLOSE]) == flat(d),
        forall|k: int|
            1 <= k <= x.len() + 1 ==> (#[trigger] run(
                flat(d),
                (seq![OPEN] + x + seq![CLOSE]).take(k),
            )).depth >= d + 1,
        run(flat(d), (seq![OPEN] + x + seq![CLOSE]).take(x.len() as int + 1)) == flat(d + 1),
{
    let o = seq![OPEN];
    let c = seq![CLOSE];
    let y = o + x + c;
    assert(o.drop_last() =~= Seq::<u8>::empty());
    assert(c.drop_last() =~= Seq::<u8>::empty());
    assert(run(flat(d), o.drop_last()) == flat(d));
    assert(run(flat(d + 1), c.drop_last()) == flat(d + 1));
    assert(run(flat(d), o) == flat(d + 1));
    assert(run(flat(d + 1), c) == flat(d));
    assert(stays(x, d + 1));
    lemma_run_join(flat(d), o, x);
    lemma_run_join(flat(d), o + x, c);
    assert(y.take(x.len() as int + 1) =~= o + x);
    assert forall|k: int| 1 <= k <= x.len() + 1 implies (#[trigger] run(flat(d), y.take(k))).depth
        >= d + 1 by {
        assert(y.take(k) =~= o + x.take(k - 1));
        lemma_run_join(flat(d), o, x.take(k - 1));
        assert(run(flat(d + 1), x.take(k - 1)).depth >= d + 1);
    }
}

proof fn lemma_neutral_list(x: Seq<u8>)
    requires
        neutral(x),
    ensures
        neutral(seq![OPEN] + x + seq![CLOSE]),
{
    let y = seq![OPEN] + x + seq![CLOSE];
    assert forall|d: int| d >= 1 implies #[trigger] stays(y, d) by {
        lemma_run_list(x, d);
        assert forall|k: int| 0 <= k <= y.len() implies (#[trigger] run(flat(d), y.take(k))).depth
            >= d by {
            if k == 0 {
                assert(y.take(k) =~= Seq::<u8>::empty());
            } else if k == y.len() {
                assert(y.take(k) =~= y);
            }
        }
    }
}

/// A list whose inside is steady is the balanced block at its parenthesis.
pub proof fn lemma_block_of(h: Seq<u8>, start: int, x: Seq<u8>)
    requires
        0 <= start,
        start + x.len() + 2 <= h.len(),
        h.subrange(start, start + x.len() + 2) == seq![OPEN] + x + seq![CLOSE],
        neutral(x),
    ensures
        balanced_block(h, start) == Some((start, start + x.len() + 2)),
{
    let y = seq![OPEN] + x + seq![CLOSE];
    let n = x.len() as int;
    let e = start + n + 2;
    lemma_run_list(x, 0);
    assert(scan(h, start, start) == flat(0));
    assert forall|k: int| 0 <= k <= n + 1 implies #[trigger] scan(h, start, start + k) == run(
        flat(0),
        y.take(k),
    ) by {
        lemma_scan_run(h, start, start, start + k);
        assert(h.subrange(start, start + k) =~= y.take(k));
    }
    assert(scan(h, start, start + (n + 1)) == flat(1));
    assert(h[e - 1] == y[n + 1]);
    assert(closes(h, start, e - 1, 1));
    lemma_block_end(h, start, start);
    let f = block_end(h, start, start)->Some_0;
    if f < e {
        let k = f - 1 - start;
        assert(closes(h, start, f - 1, 1));
        assert(scan(h, start, start + k) == run(flat(0), y.take(k)));
        assert(scan(h, start, f) == scan_step(scan(h, start, f - 1), h[f - 1]));
        assert(scan(h, start, start + (k + 1)).depth >= 1);
    }
}

// In characters
proof fn lemma_marks()
    ensures
        bytes_of("("@) == seq![OPEN],
        bytes_of(")"@) == seq![CLOSE],
        bytes_of("\""@) == seq![QUOTE],
        " "@.len() == 1,
        is_space(" "@[0]),
{
    reveal_strlit("(");
    reveal_strlit(")");
    reveal_strlit("\"");
    reveal_strlit(" ");
    assert("("@ =~= seq!['(']);
    assert(")"@ =~= seq![')']);
    assert("\""@ =~= seq!['"']);
    lemma_ascii_byte('(');
    lemma_ascii_byte(')');
    lemma_ascii_byte('"');
}

pub proof fn lemma_steady_join(x: Seq<char>, y: Seq<char>)
    requires
        steady(x),
        steady(y),
    ensures
        steady(x + y),
{
    lemma_bytes_concat(x, y);
    lemma_neutral_join(bytes_of(x), bytes_of(y));
}

/// A text without parentheses and quotes is steady.
pub proof fn lemma_steady_plain(x: Seq<char>)
    requires
        forall|k: int| 0 <= k < x.len() ==> x[k] != '(' && x[k] != ')' && x[k] != '"',
    ensures
        steady(x),
{
    lemma_no_byte(x, '(');
    lemma_no_byte(x, ')');
    lemma_no_byte(x, '"');
    lemma_neutral_plain(bytes_of(x));
}

pub proof fn lemma_steady_word(x: Seq<char>)
    requires
        is_word(x),
    ensures
        steady(x),
{
    assert forall|k: int| 0 <= k < x.len() implies x[k] != '(' && x[k] != ')' && x[k] != '"' by {
        assert(!ends_head(x[k]));
    }
    lemma_steady_plain(x);
}

pub proof fn lemma_steady_space(x: Seq<char>)
    requires
        forall|k: int| 0 <= k < x.len() ==> is_space(x[k]),
    ensures
        steady(x),
{
    lemma_steady_plain(x);
}

pub proof fn lemma_steady_quoted(v: Seq<char>)
    requires
        needs_no_escape(v),
    ensures
        steady(quoted(v)),
{
    lemma_marks();
    lemma_no_byte(v, '"');
    lemma_no_byte(v, '\\');
    lemma_bytes_concat("\""@, v);
    lemma_bytes_concat("\""@ + v, "\""@);
    lemma_neutral_string(bytes_of(v));
}

/// A list whose inside is steady is steady.
pub proof fn lemma_steady_list(x: Seq<char>)
    requires
        steady(x),
    ensures
        steady("("@ + x + ")"@),
        bytes_of("("@ + x + ")"@) == seq![OPEN] + bytes_of(x) + seq![CLOSE],
{
    lemma_marks();
    lemma_bytes_concat("("@, x);
    lemma_bytes_concat("("@ + x, ")"@);
    lemma_neutral_list(bytes_of(x));
}

pub proof fn lemma_steady_one(tag: Seq<char>, a: Seq<char>)
    requires
        is_word(tag),
        steady(a),
    ensures
        steady(node_one(tag, a)),
{
    lemma_marks();
    lemma_steady_word(tag);
    lemma_steady_space(" "@);
    lemma_steady_join(tag, " "@);
    lemma_steady_join(tag + " "@, a);
    lemma_steady_list(tag + " "@ + a);
}

pub proof fn lemma_steady_two(tag: Seq<char>, a: Seq<char>, b: Seq<char>)
    requires
        is_word(tag),
        steady(a),
        steady(b),
    ensures
        steady(node_two(tag, a, b)),
{
    lemma_marks();
    lemma_steady_word(tag);
    lemma_steady_space(" "@);
    lemma_steady_join(tag, " "@);
    lemma_steady_join(tag + " "@, a);
    lemma_steady_join(tag + " "@ + a, " "@);
    lemma_steady_join(tag + " "@ + a + " "@, b);
    lemma_steady_list(tag + " "@ + a + " "@ + b);
}

pub proof fn lemma_steady_lines(parts: Seq<Seq<char>>)
    requires
        forall|k: int| 0 <= k < parts.len() ==> steady(#[trigger] parts[k]),
    ensures
        steady(lines(parts)),
    decreases parts.len(),
{
    if parts.len() == 0 {
        lemma_steady_plain(lines(parts));
    } else {
        reveal_strlit("\n    ");
        let p = parts.drop_last();
        assert forall|k: int| 0 <= k < p.len() implies steady(#[trigger] p[k]) by {
            assert(p[k] == parts[k]);
        }
        lemma_steady_lines(p);
        lemma_steady_space("\n    "@);
        lemma_steady_join(lines(p), "\n    "@);
        assert(steady(parts[parts.len() - 1]));
        lemma_steady_join(lines(p) + "\n    "@, parts.last());
    }
}

/// A list on lines is the balanced block at its parenthesis, wherever it stands
/// in a text.
pub proof fn lemma_block_text_end(h: Seq<u8>, c: int, head: Seq<char>, parts: Seq<Seq<char>>)
    requires
        steady(head),
        forall|k: int| 0 <= k < parts.len() ==> steady(#[trigger] parts[k]),
        0 <= c,
        c + bytes_of(block_text(head, parts)).len() <= h.len(),
        h.subrange(c, c + bytes_of(block_text(head, parts)).len()) == bytes_of(
            block_text(head, parts),
        ),
    ensures
        balanced_block(h, c + 3) == Some((c + 3, c + bytes_of(block_text(head, parts)).len())),
        h[c] == 10,
        h[c + 1] == 32,
        h[c + 2] == 32,
        h[c + 3] == OPEN,
{
    reveal_strlit("\n  ");
    let w = "\n  "@;
    let inner = head + lines(parts) + w;
    let x = bytes_of(inner);
    let b = bytes_of(block_text(head, parts));
    lemma_steady_lines(parts);
    lemma_steady_space(w);
    lemma_steady_join(head, lines(parts));
    lemma_steady_join(head + lines(parts), w);
    lemma_steady_list(inner);
    lemma_bytes_concat(w, "("@ + inner + ")"@);
    lemma_ascii_byte('\n');
    lemma_ascii_byte(' ');
    assert(w =~= seq!['\n'] + seq![' '] + seq![' ']);
    lemma_bytes_concat(seq!['\n'], seq![' ']);
    lemma_bytes_concat(seq!['\n'] + seq![' '], seq![' ']);
    let y = seq![OPEN] + x + seq![CLOSE];
    assert(bytes_of(w) =~= seq![10u8, 32u8, 32u8]);
    assert(b =~= seq![10u8, 32u8, 32u8] + y);
    assert(h.subrange(c + 3, c + 3 + y.len()) =~= y) by {
        assert forall|k: int| 0 <= k < y.len() implies h.subrange(c + 3, c + 3 + y.len())[k]
            == y[k] by {
            assert(h.subrange(c, c + b.len())[k + 3] == b[k + 3]);
        }
    }
    assert(h[c] == h.subrange(c, c + b.len())[0]);
    assert(h[c + 1] == h.subrange(c, c + b.len())[1]);
    assert(h[c + 2] == h.subrange(c, c + b.len())[2]);
    assert(h[c + 3] == h.subrange(c, c + b.len())[3]);
    lemma_block_of(h, c + 3, x);
}

} // verus!
