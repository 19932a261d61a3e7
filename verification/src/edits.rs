//! Targeted edits on raw text.
//!
//! Offsets of every edit refer to the text before any edit is made, so a list
//! of edits can be collected first and carried out in one go.
use crate::text::{
    byte_len, bytes_of, cut, lemma_bytes_concat, lemma_bytes_valid, lemma_cut_ends, slice,
};
use vstd::prelude::*;
use vstd::string::*;
use vstd::utf8::*;

verus! {

/// Replace the bytes from `start` to `end` by `text`.
#[derive(Debug)]
pub struct SexpEdit {
    pub start: usize,
    pub end: usize,
    pub text: String,
}

/// What an edit does, as plain values.
pub struct Edit {
    pub start: int,
    pub end: int,
    pub text: Seq<char>,
}

impl View for SexpEdit {
    type V = Edit;

    open spec fn view(&self) -> Edit {
        Edit { start: self.start as int, end: self.end as int, text: self.text@ }
    }
}

/// The edits of a list.
pub open spec fn edits_of(v: Seq<SexpEdit>) -> Seq<Edit> {
    v.map_values(|e: SexpEdit| e@)
}

/// The edit can be made on a text with the bytes `h`.
pub open spec fn fits(h: Seq<u8>, e: Edit) -> bool {
    e.start <= e.end && cut(h, e.start) && cut(h, e.end)
}

impl SexpEdit {
    /// Insert `text` at `pos`.
    pub fn insert(pos: usize, text: String) -> (r: SexpEdit)
        ensures
            r@ == (Edit { start: pos as int, end: pos as int, text: text@ }),
    {
        SexpEdit { start: pos, end: pos, text }
    }

    /// Replace the bytes from `start` to `end` by `text`.
    pub fn replace(start: usize, end: usize, text: String) -> (r: SexpEdit)
        ensures
            r@ == (Edit { start: start as int, end: end as int, text: text@ }),
    {
        SexpEdit { start, end, text }
    }

    /// Remove the bytes from `start` to `end`.
    pub fn delete(start: usize, end: usize) -> (r: SexpEdit)
        ensures
            r@ == (Edit { start: start as int, end: end as int, text: Seq::empty() }),
    {
        SexpEdit { start, end, text: String::new() }
    }
}

/// What the first `n` edits insert at `i`, in the order of the list.
pub open spec fn inserted_at(es: Seq<Edit>, i: int, n: int) -> Seq<u8>
    decreases n,
{
    if n <= 0 {
        seq![]
    } else if es[n - 1].start == i && es[n - 1].end == i {
        inserted_at(es, i, n - 1) + bytes_of(es[n - 1].text)
    } else {
        inserted_at(es, i, n - 1)
    }
}

/// The first edit, number `k` or later, that replaces text from `i` on.
pub open spec fn replacing_at(es: Seq<Edit>, i: int, k: int) -> Option<int>
    decreases es.len() - k,
{
    if k < 0 || k >= es.len() {
        None
    } else if es[k].start == i && es[k].end > i {
        Some(k)
    } else {
        replacing_at(es, i, k + 1)
    }
}

/// The edited text from byte `i` of the old text on. Insertions come first;
/// then the replacement of what begins here, after which the old text goes on
/// behind what was replaced; else the old byte.
pub open spec fn rewrite(h: Seq<u8>, es: Seq<Edit>, i: int) -> Seq<u8>
    decreases h.len() - i,
{
    if i < 0 || i > h.len() {
        seq![]
    } else {
        inserted_at(es, i, es.len() as int) + if i == h.len() {
            seq![]
        } else {
            match replacing_at(es, i, 0) {
                Some(k) => if i < es[k].end <= h.len() {
                    bytes_of(es[k].text) + rewrite(h, es, es[k].end)
                } else {
                    seq![]
                },
                None => seq![h[i]] + rewrite(h, es, i + 1),
            }
        }
    }
}

/// The text after the edits `es` on a text with the bytes `h`.
pub open spec fn edited(h: Seq<u8>, es: Seq<Edit>) -> Seq<u8> {
    rewrite(h, es, 0)
}

pub proof fn lemma_replacing(es: Seq<Edit>, i: int, k: int)
    requires
        0 <= k,
    ensures
        match replacing_at(es, i, k) {
            Some(m) => k <= m < es.len() && es[m].start == i && es[m].end > i,
            None => forall|m: int|
                k <= m < es.len() ==> !((#[trigger] es[m]).start == i && es[m].end > i),
        },
    decreases es.len() - k,
{
    if k < es.len() && !(es[k].start == i && es[k].end > i) {
        lemma_replacing(es, i, k + 1);
    }
}

proof fn lemma_nothing_inserted(es: Seq<Edit>, i: int, n: int)
    requires
        n <= es.len(),
        forall|k: int| 0 <= k < n ==> (#[trigger] es[k]).start != i,
    ensures
        inserted_at(es, i, n) == Seq::<u8>::empty(),
    decreases n,
{
    if n > 0 {
        lemma_nothing_inserted(es, i, n - 1);
    }
}

/// Where no edit begins, the old text is kept.
pub proof fn lemma_kept(h: Seq<u8>, es: Seq<Edit>, i: int, j: int)
    requires
        0 <= i <= j <= h.len(),
        forall|k: int| 0 <= k < es.len() ==> !(i <= (#[trigger] es[k]).start < j),
    ensures
        rewrite(h, es, i) == h.subrange(i, j) + rewrite(h, es, j),
    decreases j - i,
{
    if i == j {
        assert(h.subrange(i, j) + rewrite(h, es, j) =~= rewrite(h, es, j));
    } else {
        lemma_kept(h, es, i + 1, j);
        lemma_nothing_inserted(es, i, es.len() as int);
        lemma_replacing(es, i, 0);
        assert(rewrite(h, es, i) =~= seq![h[i]] + rewrite(h, es, i + 1));
        assert(h.subrange(i, j) =~= seq![h[i]] + h.subrange(i + 1, j));
        assert(rewrite(h, es, i) =~= h.subrange(i, j) + rewrite(h, es, j));
    }
}

/// Without edits a text stays as it is.
pub proof fn law_no_edits(h: Seq<u8>)
    ensures
        edited(h, Seq::empty()) == h,
{
    let n = h.len() as int;
    lemma_kept(h, Seq::empty(), 0, n);
    assert(h.subrange(0, n) + rewrite(h, Seq::empty(), n) =~= h);
}

/// An edit that is never made: it stands before the text.
pub open spec fn no_edit() -> Edit {
    Edit { start: -1, end: -1, text: Seq::empty() }
}

proof fn lemma_inserted_without(es: Seq<Edit>, m: int, i: int, n: int)
    requires
        0 <= m < es.len(),
        0 <= i,
        i != es[m].start,
        0 <= n <= es.len(),
    ensures
        inserted_at(es.update(m, no_edit()), i, n) == inserted_at(es, i, n),
    decreases n,
{
    if n > 0 {
        lemma_inserted_without(es, m, i, n - 1);
    }
}

proof fn lemma_replacing_without(es: Seq<Edit>, m: int, i: int, k: int)
    requires
        0 <= m < es.len(),
        0 <= i,
        i != es[m].start,
        0 <= k,
    ensures
        replacing_at(es.update(m, no_edit()), i, k) == replacing_at(es, i, k),
    decreases es.len() - k,
{
    if k < es.len() {
        lemma_replacing_without(es, m, i, k + 1);
    }
}

/// The edits other than number `m` end where it begins, or before.
pub open spec fn is_last(es: Seq<Edit>, m: int) -> bool {
    &&& 0 <= m < es.len()
    &&& forall|k: int|
        0 <= k < es.len() && k != m ==> (#[trigger] es[k]).end <= es[m].start && es[k].start
            < es[m].start && es[k].start <= es[k].end
}

proof fn lemma_rewrite_without(h: Seq<u8>, es: Seq<Edit>, m: int, i: int)
    requires
        is_last(es, m),
        0 <= i <= es[m].start <= es[m].end <= h.len(),
    ensures
        ({
            let e = es[m];
            let r = h.subrange(0, e.start) + bytes_of(e.text) + h.subrange(
                e.end,
                h.len() as int,
            );
            rewrite(h, es, i) == rewrite(r, es.update(m, no_edit()), i)
        }),
    decreases es[m].start - i,
{
    let e = es[m];
    let n = h.len() as int;
    let x = bytes_of(e.text);
    let r = h.subrange(0, e.start) + x + h.subrange(e.end, n);
    let fs = es.update(m, no_edit());
    if i == e.start {
        let z = r.len() as int;
        lemma_kept(r, fs, i, z);
        lemma_nothing_inserted(fs, z, fs.len() as int);
        assert(r.subrange(i, z) =~= x + h.subrange(e.end, n));
        assert(rewrite(r, fs, i) =~= x + h.subrange(e.end, n));
        lemma_only_inserted(es, m, es.len() as int);
        lemma_replacing(es, i, 0);
        if e.start < e.end {
            assert(replacing_at(es, i, 0) == Some(m));
            lemma_kept(h, es, e.end, n);
        } else if i < n {
            assert(replacing_at(es, i, 0) is None);
            lemma_kept(h, es, i + 1, n);
            assert(seq![h[i]] + h.subrange(i + 1, n) =~= h.subrange(i, n));
        }
        if i < n {
            lemma_nothing_inserted(es, n, es.len() as int);
            assert(rewrite(h, es, n) =~= Seq::<u8>::empty());
        }
        assert(rewrite(h, es, i) =~= x + h.subrange(e.end, n));
    } else {
        lemma_inserted_without(es, m, i, es.len() as int);
        lemma_replacing_without(es, m, i, 0);
        lemma_replacing(es, i, 0);
        assert(h[i] == r[i]);
        match replacing_at(es, i, 0) {
            Some(k) => {
                assert(fs[k] == es[k]);
                lemma_rewrite_without(h, es, m, es[k].end);
            },
            None => {
                lemma_rewrite_without(h, es, m, i + 1);
            },
        }
    }
}

/// Where only edit number `m` begins, nothing but its text is inserted, if it
/// inserts at all.
proof fn lemma_only_inserted(es: Seq<Edit>, m: int, n: int)
    requires
        is_last(es, m),
        0 <= n <= es.len(),
    ensures
        inserted_at(es, es[m].start, n) == if m < n && es[m].end == es[m].start {
            bytes_of(es[m].text)
        } else {
            Seq::<u8>::empty()
        },
    decreases n,
{
    if n > 0 {
        lemma_only_inserted(es, m, n - 1);
        let e = bytes_of(es[m].text);
        assert(Seq::<u8>::empty() + e =~= e);
    }
}

/// Edits that are apart may be made one by one, the last in the text first.
pub proof fn law_edits_may_be_made_one_by_one(h: Seq<u8>, es: Seq<Edit>, m: int)
    requires
        is_last(es, m),
        0 <= es[m].start <= es[m].end <= h.len(),
    ensures
        ({
            let e = es[m];
            edited(h, es) == edited(
                h.subrange(0, e.start) + bytes_of(e.text) + h.subrange(e.end, h.len() as int),
                es.update(m, no_edit()),
            )
        }),
{
    lemma_rewrite_without(h, es, m, 0);
}

/// Edits that stand before the text change nothing.
pub proof fn lemma_never_made(h: Seq<u8>, es: Seq<Edit>)
    requires
        forall|k: int| 0 <= k < es.len() ==> (#[trigger] es[k]).start < 0,
    ensures
        edited(h, es) == h,
{
    let n = h.len() as int;
    lemma_kept(h, es, 0, n);
    lemma_nothing_inserted(es, n, es.len() as int);
    assert(rewrite(h, es, n) =~= Seq::<u8>::empty());
    assert(h.subrange(0, n) + rewrite(h, es, n) =~= h);
}

/// One edit changes the text between its two offsets and nothing else.
pub proof fn law_single_edit(h: Seq<u8>, e: Edit)
    requires
        0 <= e.start <= e.end <= h.len(),
    ensures
        edited(h, seq![e]) == h.subrange(0, e.start) + bytes_of(e.text) + h.subrange(
            e.end,
            h.len() as int,
        ),
{
    let es = seq![e];
    let n = h.len() as int;
    let t = bytes_of(e.text);
    lemma_kept(h, es, 0, e.start);
    lemma_replacing(es, e.start, 0);
    reveal_with_fuel(inserted_at, 2);
    reveal_with_fuel(replacing_at, 2);
    assert(rewrite(h, es, n) =~= if e.start == n { t } else { seq![] });
    if e.start == e.end {
        assert(inserted_at(es, e.start, 1) =~= t);
        if e.start < n {
            lemma_kept(h, es, e.start + 1, n);
            assert(seq![h[e.start]] + h.subrange(e.start + 1, n) =~= h.subrange(e.start, n));
        }
        assert(rewrite(h, es, e.start) =~= t + h.subrange(e.end, n));
    } else {
        lemma_nothing_inserted(es, e.end, 1);
        lemma_kept(h, es, e.end, n);
        assert(inserted_at(es, e.start, 1) =~= seq![]);
        assert(rewrite(h, es, e.start) =~= t + h.subrange(e.end, n));
    }
    assert(edited(h, es) =~= h.subrange(0, e.start) + t + h.subrange(e.end, n));
}

/// The index of the first edit that replaces text from `i` on.
fn find_replacing(edits: &Vec<SexpEdit>, i: usize) -> (r: Option<usize>)
    ensures
        match r {
            Some(k) => replacing_at(edits_of(edits@), i as int, 0) == Some(k as int),
            None => replacing_at(edits_of(edits@), i as int, 0) is None,
        },
{
    let ghost es = edits_of(edits@);
    let mut k: usize = 0;
    while k < edits.len()
        invariant
            es == edits_of(edits@),
            k <= edits@.len(),
            replacing_at(es, i as int, 0) == replacing_at(es, i as int, k as int),
        decreases edits@.len() - k,
    {
        assert(es[k as int] == edits@[k as int]@);
        if edits[k].start == i && edits[k].end > i {
            return Some(k);
        }
        k = k + 1;
    }
    None
}

/// The next offset behind `i` at which an edit begins, at most `n`.
fn next_start(edits: &Vec<SexpEdit>, i: usize, n: usize) -> (r: usize)
    requires
        i < n,
    ensures
        i < r <= n,
        r == n || exists|k: int| 0 <= k < edits@.len() && (#[trigger] edits@[k]).start == r,
        forall|k: int| 0 <= k < edits@.len() ==> !(i < (#[trigger] edits@[k]).start < r),
{
    let mut best: usize = n;
    let mut k: usize = 0;
    while k < edits.len()
        invariant
            k <= edits@.len(),
            i < best <= n,
            best == n || exists|m: int| 0 <= m < k && (#[trigger] edits@[m]).start == best,
            forall|m: int| 0 <= m < k ==> !(i < (#[trigger] edits@[m]).start < best),
        decreases edits@.len() - k,
    {
        let s: usize = edits[k].start;
        if i < s && s < best {
            best = s;
            assert(edits@[k as int].start == best);
        }
        k = k + 1;
    }
    best
}

/// Carry out the edits. Edits at one offset take effect in the order of the
/// list, and an edit that begins inside text that another one replaces is
/// dropped.
pub fn apply_edits(content: String, edits: Vec<SexpEdit>) -> (r: String)
    requires
        forall|k: int|
            0 <= k < edits@.len() ==> fits(bytes_of(content@), (#[trigger] edits@[k])@),
    ensures
        bytes_of(r@) == edited(bytes_of(content@), edits_of(edits@)),
{
    let ghost h = bytes_of(content@);
    let ghost es = edits_of(edits@);
    let text: &str = content.as_str();
    let n: usize = byte_len(text);
    let mut out: String = String::new();
    let mut i: usize = 0;
    proof {
        lemma_bytes_valid(content@);
        lemma_cut_ends(h);
        assert(bytes_of(out@) + rewrite(h, es, 0) =~= rewrite(h, es, 0));
    }
    loop
        invariant_except_break
            bytes_of(out@) + rewrite(h, es, i as int) == edited(h, es),
        invariant
            h == bytes_of(content@),
            text@ == content@,
            es == edits_of(edits@),
            n == h.len(),
            valid_utf8(h),
            cut(h, i as int),
            forall|k: int|
                0 <= k < edits@.len() ==> fits(bytes_of(content@), (#[trigger] edits@[k])@),
        ensures
            bytes_of(out@) == edited(h, es),
        decreases n - i,
    {
        let ghost base = bytes_of(out@);
        let mut k: usize = 0;
        assert(base + inserted_at(es, i as int, 0) =~= base);
        while k < edits.len()
            invariant
                es == edits_of(edits@),
                k <= edits@.len(),
                bytes_of(out@) == base + inserted_at(es, i as int, k as int),
            decreases edits@.len() - k,
        {
            assert(es[k as int] == edits@[k as int]@);
            if edits[k].start == i && edits[k].end == i {
                let ghost before = out@;
                out.append(edits[k].text.as_str());
                proof {
                    lemma_bytes_concat(before, edits@[k as int].text@);
                    assert(bytes_of(out@) =~= base + inserted_at(es, i as int, k + 1));
                }
            }
            k = k + 1;
        }
        let ghost ins = inserted_at(es, i as int, es.len() as int);
        if i == n {
            assert(rewrite(h, es, n as int) =~= ins);
            break;
        }
        let ghost before = out@;
        match find_replacing(&edits, i) {
            Some(m) => {
                proof {
                    lemma_replacing(es, i as int, 0);
                    assert(es[m as int] == edits@[m as int]@);
                    assert(fits(h, edits@[m as int]@));
                }
                let e: usize = edits[m].end;
                out.append(edits[m].text.as_str());
                proof {
                    lemma_bytes_concat(before, edits@[m as int].text@);
                    assert(rewrite(h, es, i as int) =~= ins + bytes_of(es[m as int].text) + rewrite(
                        h,
                        es,
                        e as int,
                    ));
                    assert(bytes_of(out@) + rewrite(h, es, e as int) =~= base + rewrite(
                        h,
                        es,
                        i as int,
                    ));
                }
                i = e;
            },
            None => {
                let j: usize = next_start(&edits, i, n);
                proof {
                    if j < n {
                        let q = choose|q: int| 0 <= q < edits@.len() && (#[trigger] edits@[q]).start == j;
                        assert(fits(h, edits@[q]@));
                    } else {
                        lemma_cut_ends(h);
                    }
                }
                let piece: &str = slice(text, i, j);
                out.append(piece);
                proof {
                    lemma_bytes_concat(before, piece@);
                    assert forall|q: int| 0 <= q < es.len() implies !(i + 1 <= (#[trigger] es[q]).start
                        < j) by {
                        assert(es[q] == edits@[q]@);
                    }
                    lemma_kept(h, es, i + 1, j as int);
                    assert(h.subrange(i as int, j as int) =~= seq![h[i as int]] + h.subrange(
                        i + 1,
                        j as int,
                    ));
                    assert(rewrite(h, es, i as int) =~= ins + h.subrange(i as int, j as int)
                        + rewrite(h, es, j as int));
                    assert(bytes_of(out@) + rewrite(h, es, j as int) =~= base + rewrite(
                        h,
                        es,
                        i as int,
                    ));
                }
                i = j;
            },
        }
    }
    out
}

} // verus!
