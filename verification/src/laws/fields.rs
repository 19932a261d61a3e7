//! What is done to the fields of a schematic's symbols.
use crate::edits::{edited, law_single_edit, Edit};
use crate::fields::{
    annotated, field_changes, field_edits, field_errors, field_outcome, field_place, field_span,
    group_members, group_text, instance_message, instance_span, instance_start,
    law_edited_field_reads_back, lib_id_span, place_text, property_place, property_text,
    symbol_from, symbol_span, InstanceError, RequestText,
};
use crate::laws::text::{
    law_search_finds_the_first, law_search_from_behind_finds_the_last, spells, stands,
};
use crate::property::{
    escaped, lemma_escaped_end, property_span, property_value, saying_from, says, says_at,
};
use crate::scan::balanced_block;
use crate::text::{
    bytes_of, find_at, lemma_ascii_byte, lemma_bytes_concat, lemma_find_is, lemma_no_byte,
    lemma_text_of, occurs_at, rfind_at,
};
use vstd::prelude::*;
use vstd::string::*;
use vstd::utf8::*;

verus! {

// Editing
/// A field that a symbol has, standard or not, is set in place: its value reads
/// back, one change is told, and the schematic before and behind the value is as
/// it was. The value holds no quote and no backslash.
pub proof fn law_a_field_that_is_there_is_replaced(
    h: Seq<u8>,
    reference: Seq<char>,
    f: RequestText,
    v: Seq<char>,
)
    requires
        valid_utf8(h),
        symbol_span(h, reference) is Some,
        ({
            let b = symbol_span(h, reference).unwrap();
            property_span(h.subrange(b.0, b.1), f.name) is Some
        }),
        f.value == Some(v),
        forall|k: int| 0 <= k < v.len() ==> v[k] != '"' && v[k] != '\\',
    ensures
        ({
            let fs = seq![f];
            let b = symbol_span(h, reference).unwrap();
            let w = property_span(h.subrange(b.0, b.1), f.name).unwrap();
            let es = field_edits(h, reference, fs, 1);
            let r = edited(h, es);
            let grows = bytes_of(v).len() - (w.1 - w.0);
            &&& field_changes(h, reference, fs, 1) == seq![f.name + " → "@ + v]
            &&& field_errors(h, reference, fs, 1).len() == 0
            &&& es.len() == 1
            &&& r == h.subrange(0, b.0 + w.0) + bytes_of(v) + h.subrange(b.0 + w.1, h.len() as int)
            &&& property_value(r.subrange(b.0, b.1 + grows), f.name) == Some(v)
        }),
{
    let fs = seq![f];
    let b = symbol_span(h, reference).unwrap();
    let w = property_span(h.subrange(b.0, b.1), f.name).unwrap();
    law_edited_field_reads_back(h, reference, f.name, v);
    let s = field_span(h, reference, f.name).unwrap();
    let e = Edit { start: s.0, end: s.1, text: v };
    assert(field_outcome(h, reference, fs[0]) == Ok::<(Edit, Seq<char>), Seq<char>>(
        (e, f.name + " → "@ + v),
    ));
    assert(field_edits(h, reference, fs, 0) =~= Seq::<Edit>::empty());
    assert(field_changes(h, reference, fs, 0) =~= Seq::<Seq<char>>::empty());
    assert(field_errors(h, reference, fs, 0) =~= Seq::<Seq<char>>::empty());
    assert(field_edits(h, reference, fs, 1) =~= seq![e]);
    assert(field_changes(h, reference, fs, 1) =~= seq![f.name + " → "@ + v]);
    crate::fields::lemma_symbol_span(h, reference);
    crate::text::lemma_cut_valid(h, b.0, b.1);
    crate::property::lemma_property_span(h.subrange(b.0, b.1), f.name);
    law_single_edit(h, e);
}

/// A field that is not there: a standard one is told as missing, another one is
/// added where the symbol is there; a value that is no string is told.
pub proof fn law_a_field_that_is_missing_is_added_or_told(
    h: Seq<u8>,
    reference: Seq<char>,
    f: RequestText,
)
    ensures
        f.value is None ==> field_outcome(h, reference, f) == Err::<(Edit, Seq<char>), Seq<char>>(
            "Field '"@ + f.name + "' value must be a string"@,
        ),
        f.value is Some && f.standard && field_span(h, reference, f.name) is None ==> field_outcome(
            h,
            reference,
            f,
        ) == Err::<(Edit, Seq<char>), Seq<char>>(
            "Field '"@ + f.name + "' not found on '"@ + reference + "'"@,
        ),
        f.value is Some && !f.standard && symbol_span(h, reference) is None ==> field_outcome(
            h,
            reference,
            f,
        ) == Err::<(Edit, Seq<char>), Seq<char>>(
            "Symbol '"@ + reference + "' not found for new field '"@ + f.name + "'"@,
        ),
        symbol_span(h, reference) matches Some(b) ==> (f.value matches Some(v) ==> (!f.standard
            && property_span(h.subrange(b.0, b.1), f.name) is None ==> {
            let i = b.0 + property_place(h.subrange(b.0, b.1));
            field_outcome(h, reference, f) == Ok::<(Edit, Seq<char>), Seq<char>>(
                (
                    Edit {
                        start: i,
                        end: i,
                        text: "    (property \""@ + f.name + "\" \""@ + v
                            + "\"\n      (at 0 0 0)\n      (effects (font (size 1.27 1.27)) (hide yes))\n    )\n    "@,
                    },
                    f.name + " + "@ + v,
                ),
            )
        })),
{
}

/// Requests are dealt with one after the other, each on the schematic as it was:
/// one more request adds its edit and its change, or its error.
pub proof fn law_each_request_is_dealt_with(
    h: Seq<u8>,
    reference: Seq<char>,
    fs: Seq<RequestText>,
    k: int,
)
    requires
        0 <= k < fs.len(),
    ensures
        field_edits(h, reference, fs, 0).len() == 0,
        field_changes(h, reference, fs, 0).len() == 0,
        field_errors(h, reference, fs, 0).len() == 0,
        match field_outcome(h, reference, fs[k]) {
            Ok(o) => {
                &&& field_edits(h, reference, fs, k + 1) == field_edits(h, reference, fs, k).push(o.0)
                &&& field_changes(h, reference, fs, k + 1) == field_changes(
                    h,
                    reference,
                    fs,
                    k,
                ).push(o.1)
                &&& field_errors(h, reference, fs, k + 1) == field_errors(h, reference, fs, k)
            },
            Err(e) => {
                &&& field_edits(h, reference, fs, k + 1) == field_edits(h, reference, fs, k)
                &&& field_changes(h, reference, fs, k + 1) == field_changes(h, reference, fs, k)
                &&& field_errors(h, reference, fs, k + 1) == field_errors(
                    h,
                    reference,
                    fs,
                    k,
                ).push(e)
            },
        },
{
}

// New properties
/// A new property goes before the instances of its symbol, else before the last
/// parenthesis.
pub proof fn law_a_new_property_goes_before_the_instances(t: Seq<u8>, i: int)
    ensures
        stands(t, bytes_of("(instances"@), i) && (forall|j: int|
            0 <= j < i ==> !#[trigger] stands(t, bytes_of("(instances"@), j)) ==> property_place(t)
            == i,
        (forall|j: int| !#[trigger] stands(t, bytes_of("(instances"@), j)) && 0 <= i < t.len()
            && t[i] == 41 && (forall|j: int| i < j < t.len() ==> t[j] != 41) ==> property_place(t)
            == i,
{
    let m = bytes_of("(instances"@);
    law_search_finds_the_first(t, m, 0);
    if stands(t, m, i) && (forall|j: int| 0 <= j < i ==> !#[trigger] stands(t, m, j)) {
        assert(find_at(t, m, 0) == Some(i));
    }
    if (forall|j: int| !#[trigger] stands(t, m, j)) && 0 <= i < t.len() && t[i] == 41 && (forall|
        j: int,
    |
        i < j < t.len() ==> t[j] != 41) {
        let c = bytes_of(")"@);
        reveal_strlit(")");
        assert(")"@ =~= seq![')']);
        lemma_ascii_byte(')');
        if find_at(t, m, 0) is Some {
            assert(stands(t, m, find_at(t, m, 0).unwrap()));
        }
        law_search_from_behind_finds_the_last(t, c, t.len() - 1);
        assert(stands(t, c, i)) by {
            assert forall|k: int| 0 <= k < c.len() implies t[i + k] == #[trigger] c[k] by {}
        }
        if let Some(z) = rfind_at(t, c, t.len() - 1) {
            assert(t[z + 0] == c[0]);
        }
    }
}

/// A property that a block did not have reads back once its text was put in. Its
/// name and its value hold no quote, and the value no backslash.
pub proof fn law_a_new_property_reads_back(
    t: Seq<u8>,
    p: int,
    key: Seq<char>,
    value: Seq<char>,
)
    requires
        0 <= p <= t.len(),
        forall|j: int| !#[trigger] stands(t, bytes_of("(property \""@ + key + "\" \""@), j),
        forall|k: int| 0 <= k < key.len() ==> key[k] != '"',
        forall|k: int| 0 <= k < value.len() ==> value[k] != '"' && value[k] != '\\',
    ensures
        property_value(
            t.subrange(0, p) + bytes_of(property_text(key, value)) + t.subrange(p, t.len() as int),
            key,
        ) == Some(value),
{
    let mark = "(property \""@ + key + "\" \""@;
    let m = bytes_of(mark);
    let x = bytes_of(property_text(key, value));
    let r = t.subrange(0, p) + x + t.subrange(p, t.len() as int);
    let tail = "\"\n      (at 0 0 0)\n      (effects (font (size 1.27 1.27)) (hide yes))\n    )\n    "@;
    lemma_property_text(key, value);
    lemma_mark_bytes(key);
    let n = bytes_of(key).len() as int;
    let v = bytes_of(value);
    assert(x.len() > 18 + n + v.len());
    assert forall|k: int| 0 <= k < x.len() implies #[trigger] r[p + k] == x[k] by {}
    // It stands behind four blanks.
    assert(r.subrange(p + 4, p + 4 + m.len()) =~= m) by {
        assert forall|k: int| 0 <= k < m.len() implies #[trigger] r.subrange(
            p + 4,
            p + 4 + m.len(),
        )[k] == m[k] by {
            assert(r[p + (k + 4)] == x[k + 4]);
        }
    }
    assert forall|j: int| 0 <= j < p + 4 implies !occurs_at(r, m, j) by {
        lemma_not_before(t, r, x, p, key, j);
    }
    lemma_find_is(r, m, 0, p + 4);
    // The value ends at its quote.
    let a = p + 4 + m.len();
    lemma_unescaped(value);
    assert(r.subrange(a, a + v.len()) =~= v) by {
        assert forall|k: int| 0 <= k < v.len() implies #[trigger] r.subrange(a, a + v.len())[k]
            == v[k] by {
            assert(r[p + (18 + n + k)] == x[18 + n + k]);
        }
    }
    assert(r[p + (18 + n + v.len())] == x[18 + n + v.len()]);
    lemma_escaped_end(r, a, value);
    lemma_text_of(value);
    crate::property::law_escape_is_undone(value);
}

proof fn lemma_unescaped(v: Seq<char>)
    requires
        forall|k: int| 0 <= k < v.len() ==> v[k] != '"' && v[k] != '\\',
    ensures
        escaped(v) == v,
    decreases v.len(),
{
    if v.len() > 0 {
        lemma_unescaped(v.drop_first());
        assert(escaped(v) =~= v);
    }
}

proof fn lemma_mark_bytes(key: Seq<char>)
    ensures
        bytes_of("(property \""@ + key + "\" \""@) == seq![
            40u8,
            112u8,
            114u8,
            111u8,
            112u8,
            101u8,
            114u8,
            116u8,
            121u8,
            32u8,
            34u8,
        ] + bytes_of(key) + seq![34u8, 32u8, 34u8],
{
    reveal_strlit("(property \"");
    reveal_strlit("\" \"");
    is_ascii_chars_encode_utf8("(property \""@);
    is_ascii_chars_encode_utf8("\" \""@);
    lemma_bytes_concat("(property \""@, key);
    lemma_bytes_concat("(property \""@ + key, "\" \""@);
    assert(bytes_of("(property \""@) =~= seq![
        40u8,
        112u8,
        114u8,
        111u8,
        112u8,
        101u8,
        114u8,
        116u8,
        121u8,
        32u8,
        34u8,
    ]);
    assert(bytes_of("\" \""@) =~= seq![34u8, 32u8, 34u8]);
}

/// The text of a new property is four blanks, its mark, its value, a quote and
/// more.
proof fn lemma_property_text(key: Seq<char>, value: Seq<char>)
    ensures
        ({
            let x = bytes_of(property_text(key, value));
            let m = bytes_of("(property \""@ + key + "\" \""@);
            let v = bytes_of(value);
            &&& x.len() > 4 + m.len() + v.len()
            &&& forall|k: int| 0 <= k < 4 ==> x[k] == 32
            &&& forall|k: int| 0 <= k < m.len() ==> x[4 + k] == #[trigger] m[k]
            &&& forall|k: int| 0 <= k < v.len() ==> x[4 + m.len() + k] == #[trigger] v[k]
            &&& x[(4 + m.len() + v.len()) as int] == 34
        }),
{
    let mark = "(property \""@ + key + "\" \""@;
    let tail = "\"\n      (at 0 0 0)\n      (effects (font (size 1.27 1.27)) (hide yes))\n    )\n    "@;
    reveal_strlit("    (property \"");
    reveal_strlit("(property \"");
    reveal_strlit("    ");
    reveal_strlit("\"\n      (at 0 0 0)\n      (effects (font (size 1.27 1.27)) (hide yes))\n    )\n    ");
    assert("    (property \""@ =~= "    "@ + "(property \""@);
    assert(property_text(key, value) =~= "    "@ + mark + value + tail);
    lemma_bytes_concat("    "@, mark);
    lemma_bytes_concat("    "@ + mark, value);
    lemma_bytes_concat("    "@ + mark + value, tail);
    is_ascii_chars_encode_utf8("    "@);
    is_ascii_chars_encode_utf8(tail);
    assert(bytes_of("    "@) =~= seq![32u8, 32u8, 32u8, 32u8]);
    assert(bytes_of(tail)[0] == tail[0] as u8);
}

/// The mark does not stand before its own place in the text that was put in.
proof fn lemma_not_before(t: Seq<u8>, r: Seq<u8>, x: Seq<u8>, p: int, key: Seq<char>, j: int)
    requires
        0 <= p <= t.len(),
        r == t.subrange(0, p) + x + t.subrange(p, t.len() as int),
        ({
            let m = bytes_of("(property \""@ + key + "\" \""@);
            &&& x.len() > 4 + m.len()
            &&& forall|k: int| 0 <= k < 4 ==> x[k] == 32
            &&& forall|k: int| 0 <= k < m.len() ==> x[4 + k] == #[trigger] m[k]
        }),
        0 <= j < p + 4,
        forall|i: int| !#[trigger] stands(t, bytes_of("(property \""@ + key + "\" \""@), i),
        forall|k: int| 0 <= k < key.len() ==> key[k] != '"',
    ensures
        !occurs_at(r, bytes_of("(property \""@ + key + "\" \""@), j),
{
    if occurs_at(r, bytes_of("(property \""@ + key + "\" \""@), j) {
        let m = bytes_of("(property \""@ + key + "\" \""@);
        let n = bytes_of(key).len() as int;
        lemma_mark_bytes(key);
        lemma_no_byte(key, '"');
        assert(m.len() == 14 + n);
        assert forall|k: int| 0 <= k < m.len() implies r[j + k] == #[trigger] m[k] by {
            assert(r.subrange(j, j + m.len())[k] == m[k]);
        }
        assert forall|k: int| 0 <= k < x.len() implies #[trigger] r[p + k] == x[k] by {}
        assert(m[10] == 34 && m[11 + n] == 34 && m[12 + n] == 32 && m[13 + n] == 34);
        assert forall|k: int| 0 <= k < m.len() && m[k] == 34 implies k == 10 || k == 11 + n || k == 13
            + n by {
            if 11 <= k < 11 + n {
                assert(m[k] == bytes_of(key)[k - 11]);
            }
        }
        let e = j + 13 + n;
        assert(r[j + (13 + n)] == m[13 + n]);
        assert(r[j + (12 + n)] == m[12 + n]);
        assert(r[j + (11 + n)] == m[11 + n]);
        if e < p {
            assert(stands(t, m, j)) by {
                assert forall|k: int| 0 <= k < m.len() implies t[j + k] == #[trigger] m[k] by {
                    assert(r[j + k] == m[k]);
                }
            }
            assert(false);
        }
        // The last quote lies in what was put in, whose first quote stands at 14.
        assert forall|k: int| 0 <= k < 14 implies x[k] != 34 by {
            if k >= 4 {
                assert(x[4 + (k - 4)] == m[k - 4]);
            }
        }
        assert(r[p + (e - p)] == x[e - p]);
        assert(e - p >= 14);
        assert(x[4int + 10] == m[10]);
        assert(r[p + 14] == x[14]);
        if e == p + 14 {
            assert(x[4int + 8] == m[8]);
            assert(r[p + 12] == x[12]);
            assert(r[j + (11 + n)] == r[p + 12]);
            assert(false);
        }
        let o = p + 14 - j;
        assert(r[j + o] == m[o]);
        assert(o == 10 || o == 11 + n);
        if o == 11 + n {
            assert(e == p + 16);
            assert(r[p + 16] == x[16]);
            assert(x[4int + 12] == m[12]);
            assert(m[12] == 34);
            assert(n == 1 || n == 2 || n == 0);
            assert(r[p + 15] == x[15]);
            assert(x[4int + 11] == m[11]);
            assert(m[11] == 32);
            if n == 1 {
                assert(j == p + 2);
                assert(r[j + 0] == m[0]);
                assert(r[p + 2] == x[2]);
            } else if n == 0 {
                assert(m[11] == 34);
            }
            assert(false);
        }
        assert(j == p + 4);
        assert(false);
    }
}

/// An annotation is put into the lines of its symbol; otherwise the schematic is
/// as it was. Where the symbol is not found, that is told.
pub proof fn law_an_annotation_is_one_more_property(
    h: Seq<u8>,
    reference: Seq<char>,
    key: Seq<char>,
    value: Seq<char>,
)
    ensures
        match instance_span(h, reference) {
            Err(e) => annotated(h, reference, key, value) == Err::<Seq<u8>, InstanceError>(e),
            Ok(b) => {
                let i = b.0 + property_place(h.subrange(b.0, b.1));
                annotated(h, reference, key, value) == Ok::<Seq<u8>, InstanceError>(
                    h.subrange(0, i) + bytes_of(
                        "    (property \""@ + key + "\" \""@ + value
                            + "\"\n      (at 0 0 0)\n      (effects (font (size 1.27 1.27)) (hide yes))\n    )\n    "@,
                    ) + h.subrange(i, h.len() as int),
                )
            },
        },
        instance_message(InstanceError::NotFound, reference) == "Component '"@ + reference
            + "' not found"@,
        instance_message(InstanceError::NoBlock, reference) == "Could not find symbol block"@,
        instance_message(InstanceError::Unbalanced, reference) == "Could not parse symbol block"@,
        instance_message(InstanceError::NoLibId, reference)
            == "Could not find lib_id in symbol block"@,
        instance_message(InstanceError::MalformedLibId, reference) == "Malformed lib_id"@,
{
}

/// The lines of a symbol are those of the last symbol that begins before the
/// first place that says its reference.
pub proof fn law_an_instance_is_the_symbol_that_says_the_reference(
    h: Seq<u8>,
    reference: Seq<char>,
    p: int,
    o: int,
)
    ensures
        (forall|j: int| 0 <= j ==> !#[trigger] spells(h, "Reference"@, reference, j))
            ==> instance_start(h, reference) == Err::<int, InstanceError>(InstanceError::NotFound),
        0 <= p && spells(h, "Reference"@, reference, p) && (forall|j: int|
            0 <= j < p ==> !#[trigger] spells(h, "Reference"@, reference, j)) ==> {
            let m = bytes_of("\n  (symbol"@);
            &&& stands(h, m, o) && o + m.len() <= p && (forall|j: int|
                o < j && j + m.len() <= p ==> !#[trigger] stands(h, m, j)) ==> instance_start(
                h,
                reference,
            ) == Ok::<int, InstanceError>(o + 1)
            &&& (forall|j: int| j + m.len() <= p ==> !#[trigger] stands(h, m, j)) ==> instance_start(
                h,
                reference,
            ) == Err::<int, InstanceError>(InstanceError::NoBlock)
        },
        instance_start(h, reference) matches Ok(s) ==> instance_span(h, reference) == (
        match balanced_block(h, s) {
            Some(b) => Ok::<(int, int), InstanceError>(b),
            None => Err(InstanceError::Unbalanced),
        }),
{
    let m = bytes_of("\n  (symbol"@);
    crate::property::lemma_saying(h, "Reference"@, reference, 0);
    assert forall|j: int| #[trigger] spells(h, "Reference"@, reference, j) == says_at(
        h,
        "Reference"@,
        reference,
        j,
    ) by {
        lemma_spells(h, reference, j);
    }
    match saying_from(h, "Reference"@, reference, 0) {
        None => {
            if 0 <= p && spells(h, "Reference"@, reference, p) {
                assert(says_at(h, "Reference"@, reference, p));
            }
        },
        Some(q) => {
            assert(spells(h, "Reference"@, reference, q));
            if 0 <= p && spells(h, "Reference"@, reference, p) && (forall|j: int|
                0 <= j < p ==> !#[trigger] spells(h, "Reference"@, reference, j)) {
                assert(says_at(h, "Reference"@, reference, p));
                assert(q == p);
                law_search_from_behind_finds_the_last(h, m, p - m.len());
                if let Some(z) = rfind_at(h, m, p - m.len()) {
                    assert(stands(h, m, z));
                }
            }
        },
    }
}

proof fn lemma_spells(h: Seq<u8>, reference: Seq<char>, j: int)
    ensures
        spells(h, "Reference"@, reference, j) == says_at(h, "Reference"@, reference, j),
{
    let m = bytes_of("(property \""@ + "Reference"@ + "\" \""@);
    if occurs_at(h, m, j) {
        assert forall|k: int| 0 <= k < m.len() implies h[j + k] == #[trigger] m[k] by {
            assert(h.subrange(j, j + m.len())[k] == m[k]);
        }
    }
    if stands(h, m, j) {
        assert(h.subrange(j, j + m.len()) =~= m) by {
            assert forall|k: int| 0 <= k < m.len() implies #[trigger] h.subrange(j, j + m.len())[k]
                == m[k] by {
                assert(h[j + k] == m[k]);
            }
        }
    }
}

/// Symbols are grouped one after the other: one more gets the group as a
/// property and is told, or it is passed over.
pub proof fn law_each_symbol_of_a_group_is_annotated(
    h: Seq<u8>,
    refs: Seq<Seq<char>>,
    group: Seq<char>,
    k: int,
)
    requires
        0 <= k < refs.len(),
    ensures
        group_text(h, refs, group, 0) == h,
        group_members(h, refs, group, 0).len() == 0,
        match annotated(group_text(h, refs, group, k), refs[k], "Group"@, group) {
            Ok(t) => {
                &&& group_text(h, refs, group, k + 1) == t
                &&& group_members(h, refs, group, k + 1) == group_members(h, refs, group, k).push(
                    refs[k],
                )
            },
            Err(_) => {
                &&& group_text(h, refs, group, k + 1) == group_text(h, refs, group, k)
                &&& group_members(h, refs, group, k + 1) == group_members(h, refs, group, k)
            },
        },
{
}

/// The library id of a symbol is the first one from the beginning of the symbol
/// on, up to its quote.
pub proof fn law_the_library_id_of_a_symbol(
    h: Seq<u8>,
    reference: Seq<char>,
    s: int,
    p: int,
    e: int,
)
    requires
        instance_start(h, reference) == Ok::<int, InstanceError>(s),
        0 <= s,
    ensures
        s <= p && stands(h, bytes_of("(lib_id \""@), p) && (forall|j: int|
            s <= j < p ==> !#[trigger] stands(h, bytes_of("(lib_id \""@), j)) && p + 9 <= e < h.len()
            && h[e] == 34 && (forall|j: int| p + 9 <= j < e ==> h[j] != 34) ==> lib_id_span(
            h,
            reference,
        ) == Ok::<(int, int), InstanceError>((p + 9, e)),
        (forall|j: int| s <= j ==> !#[trigger] stands(h, bytes_of("(lib_id \""@), j)) ==> lib_id_span(
            h,
            reference,
        ) == Err::<(int, int), InstanceError>(InstanceError::NoLibId),
{
    let m = bytes_of("(lib_id \""@);
    let q = bytes_of("\""@);
    reveal_strlit("(lib_id \"");
    reveal_strlit("\"");
    is_ascii_chars_encode_utf8("(lib_id \""@);
    is_ascii_chars_encode_utf8("\""@);
    assert(q =~= seq![34u8]);
    assert(m.len() == 9);
    law_search_finds_the_first(h, m, s);
    if let Some(i) = find_at(h, m, s) {
        assert(stands(h, m, i));
    }
    if s <= p && stands(h, m, p) && (forall|j: int| s <= j < p ==> !#[trigger] stands(h, m, j)) && p
        + 9 <= e < h.len() && h[e] == 34 && (forall|j: int| p + 9 <= j < e ==> h[j] != 34) {
        assert(find_at(h, m, s) == Some(p));
        assert(h.subrange(e, e + 1) =~= q);
        assert forall|j: int| p + 9 <= j < e implies !occurs_at(h, q, j) by {
            if occurs_at(h, q, j) {
                assert(h.subrange(j, j + 1)[0] == h[j]);
            }
        }
        lemma_find_is(h, q, p + 9, e);
    }
}

// Finding symbols
/// The search for a symbol goes from block to block; a word that only begins like
/// that of a symbol is passed over.
pub proof fn law_symbol_search_goes_from_block_to_block(
    h: Seq<u8>,
    reference: Seq<char>,
    pos: int,
    s: int,
)
    requires
        0 <= pos <= s,
        stands(h, bytes_of("(symbol"@), s),
        forall|j: int| pos <= j < s ==> !#[trigger] stands(h, bytes_of("(symbol"@), j),
    ensures
        s + 7 >= h.len() || !(h[s + 7] == 32 || h[s + 7] == 10 || h[s + 7] == 9 || h[s + 7] == 40)
            ==> symbol_from(h, reference, pos) == symbol_from(h, reference, s + 7),
        s + 7 < h.len() && (h[s + 7] == 32 || h[s + 7] == 10 || h[s + 7] == 9 || h[s + 7] == 40)
            ==> match balanced_block(h, s) {
            None => symbol_from(h, reference, pos) is None,
            Some(b) => symbol_from(h, reference, pos) == (if says(
                h.subrange(b.0, b.1),
                "Reference"@,
                reference,
            ) {
                Some(b)
            } else {
                symbol_from(h, reference, b.1)
            }),
        },
{
    let m = bytes_of("(symbol"@);
    reveal_strlit("(symbol");
    is_ascii_chars_encode_utf8("(symbol"@);
    assert(m.len() == 7);
    law_search_finds_the_first(h, m, pos);
    assert(stands(h, m, s));
    crate::scan::lemma_block_end(h, s, s);
}

/// Where no symbol is, none is found.
pub proof fn law_no_symbol_is_found_where_none_is(h: Seq<u8>, reference: Seq<char>)
    requires
        forall|j: int| !#[trigger] stands(h, bytes_of("(symbol"@), j),
    ensures
        symbol_span(h, reference) is None,
{
    law_search_finds_the_first(h, bytes_of("(symbol"@), 0);
    if let Some(i) = find_at(h, bytes_of("(symbol"@), 0) {
        assert(stands(h, bytes_of("(symbol"@), i));
    }
}

/// The place of a field: the numbers between `(at ` and the parenthesis of the
/// first `at` directly inside the field, which begins with its name.
pub proof fn law_the_place_of_a_field(
    h: Seq<u8>,
    reference: Seq<char>,
    field: Seq<char>,
    p: int,
    x: Seq<char>,
    y: Seq<char>,
    rotation: Seq<char>,
)
    ensures
        place_text(x, y, rotation) == x + " "@ + y + " "@ + rotation,
        symbol_span(h, reference) is None ==> field_place(h, reference, field) is None,
        symbol_span(h, reference) matches Some(b) ==> {
            let t = h.subrange(b.0, b.1);
            let m = bytes_of("(property \""@ + field + "\" "@);
            &&& (forall|j: int| !#[trigger] stands(t, m, j)) ==> field_place(h, reference, field)
                is None
            &&& 0 <= p && stands(t, m, p) && (forall|j: int|
                0 <= j < p ==> !#[trigger] stands(t, m, j)) ==> match balanced_block(t, p) {
                None => field_place(h, reference, field) is None,
                Some(c) => match crate::board::anchor(t.subrange(c.0, c.1)) {
                    None => field_place(h, reference, field) is None,
                    Some(a) => field_place(h, reference, field) == (if stands(
                        t,
                        bytes_of("(at "@),
                        c.0 + a.0,
                    ) {
                        Some((b.0 + c.0 + a.0 + 4, b.0 + c.0 + a.1 - 1))
                    } else {
                        None
                    }),
                },
            }
        },
{
    if let Some(b) = symbol_span(h, reference) {
        let t = h.subrange(b.0, b.1);
        let m = bytes_of("(property \""@ + field + "\" "@);
        law_search_finds_the_first(t, m, 0);
        if let Some(i) = find_at(t, m, 0) {
            assert(stands(t, m, i));
        }
        if 0 <= p && stands(t, m, p) && (forall|j: int| 0 <= j < p ==> !#[trigger] stands(t, m, j)) {
            assert(find_at(t, m, 0) == Some(p));
            if let Some(c) = balanced_block(t, p) {
                if let Some(a) = crate::board::anchor(t.subrange(c.0, c.1)) {
                    let o = bytes_of("(at "@);
                    let i = c.0 + a.0;
                    if occurs_at(t, o, i) {
                        assert forall|k: int| 0 <= k < o.len() implies t[i + k] == #[trigger] o[k] by {
                            assert(t.subrange(i, i + o.len())[k] == o[k]);
                        }
                    }
                    if stands(t, o, i) {
                        assert(t.subrange(i, i + o.len()) =~= o) by {
                            assert forall|k: int| 0 <= k < o.len() implies #[trigger] t.subrange(
                                i,
                                i + o.len(),
                            )[k] == o[k] by {
                                assert(t[i + k] == o[k]);
                            }
                        }
                    }
                }
            }
        }
    }
}

/// Any value takes the place of the old one as it is given.
pub proof fn law_a_value_is_written_as_it_is_given(
    h: Seq<u8>,
    reference: Seq<char>,
    f: RequestText,
    v: Seq<char>,
    b: (int, int),
    w: (int, int),
)
    requires
        symbol_span(h, reference) == Some(b),
        property_span(h.subrange(b.0, b.1), f.name) == Some(w),
        f.value == Some(v),
    ensures
        field_outcome(h, reference, f) == Ok::<(Edit, Seq<char>), Seq<char>>(
            (Edit { start: b.0 + w.0, end: b.0 + w.1, text: v }, f.name + " → "@ + v),
        ),
{
}

/// The search for a symbol ends where no more words of a symbol stand.
pub proof fn law_symbol_search_ends(h: Seq<u8>, reference: Seq<char>, pos: int)
    requires
        0 <= pos,
        forall|j: int| pos <= j ==> !#[trigger] stands(h, bytes_of("(symbol"@), j),
    ensures
        symbol_from(h, reference, pos) is None,
{
    law_search_finds_the_first(h, bytes_of("(symbol"@), pos);
    if let Some(i) = find_at(h, bytes_of("(symbol"@), pos) {
        assert(stands(h, bytes_of("(symbol"@), i));
    }
}

/// A library id that is never closed is malformed.
pub proof fn law_an_open_library_id_is_malformed(
    h: Seq<u8>,
    reference: Seq<char>,
    s: int,
    p: int,
)
    requires
        instance_start(h, reference) == Ok::<int, InstanceError>(s),
        0 <= s <= p,
        stands(h, bytes_of("(lib_id \""@), p),
        forall|j: int| s <= j < p ==> !#[trigger] stands(h, bytes_of("(lib_id \""@), j),
        forall|j: int| p + 9 <= j < h.len() ==> h[j] != 34,
    ensures
        lib_id_span(h, reference) == Err::<(int, int), InstanceError>(InstanceError::MalformedLibId),
{
    let m = bytes_of("(lib_id \""@);
    let q = bytes_of("\""@);
    reveal_strlit("(lib_id \"");
    reveal_strlit("\"");
    is_ascii_chars_encode_utf8("(lib_id \""@);
    is_ascii_chars_encode_utf8("\""@);
    assert(q =~= seq![34u8]);
    assert(m.len() == 9);
    law_search_finds_the_first(h, m, s);
    assert(find_at(h, m, s) == Some(p));
    crate::text::lemma_find(h, q, p + 9);
    if let Some(i) = find_at(h, q, p + 9) {
        assert(h.subrange(i, i + 1)[0] == h[i]);
    }
}

} // verus!
