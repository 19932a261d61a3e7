//! How several edits are made in one text.
use crate::edits::{edited, inserted_at, lemma_kept, lemma_replacing, replacing_at, rewrite, Edit};
use crate::text::bytes_of;
use vstd::prelude::*;
use vstd::string::*;

verus! {

/// Two texts that are put in at one place stand there in their order.
pub proof fn law_insertions_at_one_place_keep_their_order(
    h: Seq<u8>,
    i: int,
    a: Seq<char>,
    b: Seq<char>,
)
    requires
        0 <= i <= h.len(),
    ensures
        edited(
            h,
            seq![Edit { start: i, end: i, text: a }, Edit { start: i, end: i, text: b }],
        ) == h.subrange(0, i) + bytes_of(a) + bytes_of(b) + h.subrange(i, h.len() as int),
{
    let es = seq![Edit { start: i, end: i, text: a }, Edit { start: i, end: i, text: b }];
    let n = h.len() as int;
    let x = bytes_of(a);
    let y = bytes_of(b);
    lemma_kept(h, es, 0, i);
    assert(inserted_at(es, i, 0) =~= Seq::<u8>::empty());
    assert(inserted_at(es, i, 1) =~= x);
    assert(inserted_at(es, i, 2) =~= x + y);
    lemma_replacing(es, i, 0);
    assert(replacing_at(es, i, 2) is None);
    assert(replacing_at(es, i, 1) is None);
    assert(replacing_at(es, i, 0) is None);
    if i < n {
        lemma_kept(h, es, i + 1, n);
        assert(inserted_at(es, n, 0) =~= Seq::<u8>::empty());
        assert(inserted_at(es, n, 1) =~= Seq::<u8>::empty());
        assert(inserted_at(es, n, 2) =~= Seq::<u8>::empty());
        assert(rewrite(h, es, n) =~= Seq::<u8>::empty());
        assert(seq![h[i]] + h.subrange(i + 1, n) =~= h.subrange(i, n));
        assert(rewrite(h, es, i) =~= x + y + h.subrange(i, n));
    } else {
        assert(rewrite(h, es, i) =~= x + y);
        assert(h.subrange(i, n) =~= Seq::<u8>::empty());
    }
    assert(edited(h, es) =~= h.subrange(0, i) + x + y + h.subrange(i, n));
}

/// Two replacements that are apart are both made, in whichever order they are
/// given.
pub proof fn law_two_edits_are_both_made(h: Seq<u8>, d: Edit, e: Edit)
    requires
        0 <= d.start <= d.end <= e.start <= e.end <= h.len(),
        d.start < e.start,
    ensures
        edited(h, seq![d, e]) == h.subrange(0, d.start) + bytes_of(d.text) + h.subrange(
            d.end,
            e.start,
        ) + bytes_of(e.text) + h.subrange(e.end, h.len() as int),
        edited(h, seq![e, d]) == edited(h, seq![d, e]),
{
    lemma_two(h, seq![d, e], 1, 0);
    lemma_two(h, seq![e, d], 0, 1);
}

proof fn lemma_two(h: Seq<u8>, es: Seq<Edit>, m: int, k: int)
    requires
        es.len() == 2,
        (m == 0 && k == 1) || (m == 1 && k == 0),
        0 <= es[k].start <= es[k].end <= es[m].start <= es[m].end <= h.len(),
        es[k].start < es[m].start,
    ensures
        edited(h, es) == h.subrange(0, es[k].start) + bytes_of(es[k].text) + h.subrange(
            es[k].end,
            es[m].start,
        ) + bytes_of(es[m].text) + h.subrange(es[m].end, h.len() as int),
{
    let d = es[k];
    let e = es[m];
    let x = bytes_of(d.text);
    let y = bytes_of(e.text);
    let n = h.len() as int;
    crate::edits::law_edits_may_be_made_one_by_one(h, es, m);
    let r = h.subrange(0, e.start) + y + h.subrange(e.end, n);
    let fs = es.update(m, crate::edits::no_edit());
    assert(crate::edits::is_last(fs, k));
    crate::edits::law_edits_may_be_made_one_by_one(r, fs, k);
    let w = r.subrange(0, d.start) + x + r.subrange(d.end, r.len() as int);
    let gs = fs.update(k, crate::edits::no_edit());
    crate::edits::lemma_never_made(w, gs);
    assert(r.subrange(0, d.start) =~= h.subrange(0, d.start));
    assert(r.subrange(d.end, r.len() as int) =~= h.subrange(d.end, e.start) + y + h.subrange(
        e.end,
        n,
    ));
    assert(w =~= h.subrange(0, d.start) + x + h.subrange(d.end, e.start) + y + h.subrange(
        e.end,
        n,
    ));
}

} // verus!
