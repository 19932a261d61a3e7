//! Quoted values inside a block: property values and UUIDs.
use crate::board::{piece, replaced, BoardError};
use crate::edits::{fits, Edit, SexpEdit};
use crate::scan::{BACKSLASH, QUOTE};
use crate::text::{
    byte_len, bytes_of, cut, find_at, find_from, lemma_ascii_byte, lemma_bytes_concat,
    lemma_bytes_len, lemma_bytes_valid, lemma_cut_ascii, lemma_cut_ends, lemma_find, lemma_find_is,
    lemma_no_byte, lemma_occurs_cut, lemma_text_of, occurs_at, opt_int, opt_span, same, slice,
    text_of,
};
use crate::words::{chars_of, strings_of};
use vstd::prelude::*;
use vstd::string::*;
use vstd::utf8::*;

verus! {

// Escaping
/// A character as it is written inside quotes.
pub open spec fn escaped_char(c: char) -> Seq<char> {
    if c == '\\' {
        seq!['\\', '\\']
    } else if c == '"' {
        seq!['\\', '"']
    } else {
        seq![c]
    }
}

/// A string as it is written inside quotes.
pub open spec fn escaped(s: Seq<char>) -> Seq<char>
    decreases s.len(),
{
    if s.len() == 0 {
        seq![]
    } else {
        escaped_char(s[0]) + escaped(s.drop_first())
    }
}

/// The string that is written as `s` inside quotes: a backslash stands before a
/// character that is taken as it is.
pub open spec fn plain(s: Seq<char>) -> Seq<char>
    decreases s.len(),
{
    if s.len() == 0 {
        seq![]
    } else if s[0] == '\\' && s.len() >= 2 {
        seq![s[1]] + plain(s.subrange(2, s.len() as int))
    } else {
        seq![s[0]] + plain(s.drop_first())
    }
}

/// Reading what was written inside quotes gives the string back.
pub proof fn law_escape_is_undone(s: Seq<char>)
    ensures
        plain(escaped(s)) == s,
    decreases s.len(),
{
    if s.len() > 0 {
        let rest = s.drop_first();
        law_escape_is_undone(rest);
        let e = escaped(s);
        assert(e == escaped_char(s[0]) + escaped(rest));
        if s[0] == '\\' || s[0] == '"' {
            assert(e[0] == '\\' && e[1] == s[0]);
            assert(e.subrange(2, e.len() as int) =~= escaped(rest));
        } else {
            assert(e[0] == s[0]);
            assert(e.drop_first() =~= escaped(rest));
        }
        assert(plain(e) =~= seq![s[0]] + rest);
        assert(seq![s[0]] + rest =~= s);
    }
}

/// The string as it is written inside quotes.
pub fn escape_sexp_string(s: &str) -> (r: String)
    ensures
        r@ == escaped(s@),
{
    let mut out: String = String::new();
    assert(out@ + escaped(s@.skip(0)) =~= escaped(s@)) by {
        assert(s@.skip(0) =~= s@);
    }
    for c in it: s.chars()
        invariant
            it.seq() == s@,
            out@ + escaped(s@.skip(it.index() as int)) == escaped(s@),
    {
        let ghost k = it.index() as int;
        let ghost before = out@;
        assert(s@.skip(k).drop_first() =~= s@.skip(k + 1));
        assert(s@.skip(k)[0] == c);
        if c == '\\' || c == '"' {
            out.push('\\');
        }
        out.push(c);
        assert(out@ =~= before + escaped_char(c));
        assert(out@ + escaped(s@.skip(k + 1)) =~= before + (escaped_char(c) + escaped(
            s@.skip(k + 1),
        )));
    }
    assert(s@.skip(s@.len() as int) =~= Seq::<char>::empty());
    assert(out@ =~= escaped(s@));
    out
}

/// The text from `a` to `e` without its escapes.
pub fn take_plain(cs: &Vec<char>, a: usize, e: usize) -> (r: String)
    requires
        a <= e <= cs@.len(),
    ensures
        r@ == plain(cs@.subrange(a as int, e as int)),
{
    let ghost s = cs@;
    let ghost goal = plain(s.subrange(a as int, e as int));
    let mut out: String = String::new();
    let mut k: usize = a;
    assert(out@ + goal =~= goal);
    while k < e
        invariant
            s == cs@,
            a <= k <= e <= cs@.len(),
            out@ + plain(s.subrange(k as int, e as int)) == goal,
        decreases e - k,
    {
        let ghost before = out@;
        let ghost t = s.subrange(k as int, e as int);
        assert(t[0] == s[k as int]);
        if cs[k] == '\\' && e - k >= 2 {
            out.push(cs[k + 1]);
            proof {
                assert(t[1] == s[k + 1]);
                assert(t.subrange(2, t.len() as int) =~= s.subrange(k + 2, e as int));
                assert(out@ + plain(s.subrange(k + 2, e as int)) =~= before + plain(t));
            }
            k = k + 2;
        } else {
            out.push(cs[k]);
            proof {
                assert(t.drop_first() =~= s.subrange(k + 1, e as int));
                assert(out@ + plain(s.subrange(k + 1, e as int)) =~= before + plain(t));
            }
            k = k + 1;
        }
    }
    assert(s.subrange(e as int, e as int) =~= Seq::<char>::empty());
    assert(out@ =~= goal);
    out
}

// Property values
/// Where the quoted text that runs from `i` on ends: at the first quote that no
/// backslash stands before.
pub open spec fn value_end(h: Seq<u8>, i: int) -> Option<int>
    decreases h.len() - i + 1,
{
    if i < 0 || i >= h.len() {
        None
    } else if h[i] == BACKSLASH {
        value_end(h, i + 2)
    } else if h[i] == QUOTE {
        Some(i)
    } else {
        value_end(h, i + 1)
    }
}

/// What stands before the value of a property.
pub open spec fn property_mark(name: Seq<char>) -> Seq<char> {
    "(property \""@ + name + "\" \""@
}

/// The span of the value of the first property `name`, without its quotes.
pub open spec fn property_span(h: Seq<u8>, name: Seq<char>) -> Option<(int, int)> {
    let p = bytes_of(property_mark(name));
    match find_at(h, p, 0) {
        None => None,
        Some(i) => match value_end(h, i + p.len()) {
            None => None,
            Some(e) => Some((i + p.len(), e)),
        },
    }
}

/// The value of the first property `name`.
pub open spec fn property_value(h: Seq<u8>, name: Seq<char>) -> Option<Seq<char>> {
    match property_span(h, name) {
        Some(v) => Some(plain(text_of(h.subrange(v.0, v.1)))),
        None => None,
    }
}

pub proof fn lemma_value_end(h: Seq<u8>, i: int)
    requires
        0 <= i,
    ensures
        match value_end(h, i) {
            Some(e) => i <= e < h.len() && h[e] == QUOTE,
            None => true,
        },
    decreases h.len() - i + 1,
{
    if i < h.len() {
        if h[i] == BACKSLASH {
            lemma_value_end(h, i + 2);
        } else if h[i] != QUOTE {
            lemma_value_end(h, i + 1);
        }
    }
}

/// The mark before a property's value is not empty.
proof fn lemma_mark(name: Seq<char>)
    ensures
        valid_utf8(bytes_of(property_mark(name))),
        bytes_of(property_mark(name)).len() > 0,
{
    reveal_strlit("(property \"");
    lemma_bytes_valid(property_mark(name));
    lemma_bytes_len(property_mark(name));
}

/// A property's value may be cut out.
pub proof fn lemma_property_span(h: Seq<u8>, name: Seq<char>)
    requires
        valid_utf8(h),
        property_span(h, name) is Some,
    ensures
        ({
            let v = property_span(h, name).unwrap();
            &&& piece(h, v.0, v.1)
            &&& v.1 < h.len()
            &&& h[v.1] == QUOTE
        }),
{
    let p = bytes_of(property_mark(name));
    lemma_mark(name);
    lemma_find(h, p, 0);
    let i = find_at(h, p, 0).unwrap();
    lemma_occurs_cut(h, p, i);
    lemma_value_end(h, i + p.len());
    lemma_cut_ascii(h, value_end(h, i + p.len()).unwrap());
}

/// Where the quoted text that runs from `from` on ends.
pub fn find_value_end(content: &str, from: usize) -> (r: Option<usize>)
    requires
        from <= bytes_of(content@).len(),
    ensures
        opt_int(r) == value_end(bytes_of(content@), from as int),
        r matches Some(e) ==> from <= e < bytes_of(content@).len() && bytes_of(content@)[e as int]
            == QUOTE && cut(bytes_of(content@), e as int) && cut(bytes_of(content@), e + 1),
{
    let ghost h = bytes_of(content@);
    proof {
        lemma_bytes_valid(content@);
        lemma_value_end(h, from as int);
    }
    let n: usize = byte_len(content);
    let bytes = content.as_bytes();
    let mut end: usize = from;
    while end < n
        invariant
            h == bytes_of(content@),
            valid_utf8(h),
            bytes@ == h,
            n == h.len(),
            from <= end,
            value_end(h, from as int) == value_end(h, end as int),
        decreases n - end,
    {
        let b: u8 = bytes[end];
        if b == BACKSLASH {
            if n - end <= 1 {
                assert(value_end(h, end + 2) is None);
                return None;
            }
            end = end + 2;
        } else if b == QUOTE {
            proof {
                lemma_cut_ascii(h, end as int);
            }
            return Some(end);
        } else {
            end = end + 1;
        }
    }
    None
}

/// Locate the value span of `(property "<name>" "<value>"` inside `block`
/// (offsets relative to `block`, excluding the quotes).
pub fn property_value_span(block: &str, name: &str) -> (r: Option<(usize, usize)>)
    ensures
        opt_span(r) == property_span(bytes_of(block@), name@),
        match r {
            Some(v) => piece(bytes_of(block@), v.0 as int, v.1 as int) && v.1 < bytes_of(
                block@,
            ).len(),
            None => true,
        },
{
    let ghost h = bytes_of(block@);
    let pat: String = "(property \"".to_owned().concat(name).concat("\" \"");
    proof {
        lemma_bytes_valid(block@);
        lemma_mark(name@);
        lemma_find(h, bytes_of(pat@), 0);
        if property_span(h, name@) is Some {
            lemma_property_span(h, name@);
        }
    }
    let n: usize = byte_len(block);
    let found: usize = match find_from(block, pat.as_str(), 0) {
        Some(i) => i,
        None => {
            return None;
        },
    };
    let start: usize = found + byte_len(pat.as_str());
    match find_value_end(block, start) {
        Some(e) => Some((start, e)),
        None => None,
    }
}

/// Bytes that are neither a quote nor a backslash are passed over.
pub proof fn lemma_value_skip(h: Seq<u8>, i: int, j: int)
    requires
        0 <= i <= j <= h.len(),
        forall|k: int| i <= k < j ==> h[k] != QUOTE && h[k] != BACKSLASH,
    ensures
        value_end(h, i) == value_end(h, j),
    decreases j - i,
{
    if i < j {
        lemma_value_skip(h, i + 1, j);
    }
}

/// What was escaped ends where the quote after it stands.
pub proof fn lemma_escaped_end(h: Seq<u8>, i: int, v: Seq<char>)
    requires
        0 <= i,
        occurs_at(h, bytes_of(escaped(v)), i),
        i + bytes_of(escaped(v)).len() < h.len(),
        h[i + bytes_of(escaped(v)).len()] == QUOTE,
    ensures
        value_end(h, i) == Some(i + bytes_of(escaped(v)).len()),
    decreases v.len(),
{
    if v.len() > 0 {
        let c = v[0];
        let rest = v.drop_first();
        let ec = escaped_char(c);
        let a = bytes_of(ec);
        let b = bytes_of(escaped(rest));
        lemma_bytes_concat(ec, escaped(rest));
        let t = h.subrange(i, i + a.len() + b.len());
        assert(t == a + b);
        assert forall|k: int| 0 <= k < a.len() implies h[i + k] == a[k] by {
            assert(t[k] == (a + b)[k]);
        }
        assert(h.subrange(i + a.len(), i + a.len() + b.len()) =~= b) by {
            assert forall|k: int| 0 <= k < b.len() implies h[i + a.len() + k] == b[k] by {
                assert(t[a.len() + k] == (a + b)[a.len() + k]);
            }
        }
        lemma_escaped_end(h, i + a.len(), rest);
        if c == '\\' || c == '"' {
            lemma_ascii_byte('\\');
            lemma_ascii_byte(c);
            lemma_bytes_concat(seq!['\\'], seq![c]);
            assert(ec =~= seq!['\\'] + seq![c]);
            assert(a =~= seq![92u8, c as u8]);
            assert(h[i + 0] == a[0]);
            assert(value_end(h, i) == value_end(h, i + 2));
        } else {
            lemma_no_byte(ec, '"');
            lemma_no_byte(ec, '\\');
            assert forall|k: int| i <= k < i + a.len() implies h[k] != QUOTE && h[k]
                != BACKSLASH by {
                assert(h[i + (k - i)] == a[k - i]);
            }
            lemma_value_skip(h, i, i + a.len());
        }
    } else {
        assert(bytes_of(escaped(v)).len() == 0);
    }
}

/// Writing a property's value, escaped, over the old one gives a block whose
/// property has the new value.
pub proof fn law_property_reads_back(h: Seq<u8>, name: Seq<char>, v: Seq<char>)
    requires
        valid_utf8(h),
        property_span(h, name) is Some,
    ensures
        ({
            let s = property_span(h, name).unwrap();
            property_value(replaced(h, s.0, s.1, escaped(v)), name) == Some(v)
        }),
{
    let (vs, ve) = property_span(h, name).unwrap();
    let p = bytes_of(property_mark(name));
    let e = bytes_of(escaped(v));
    let r = replaced(h, vs, ve, escaped(v));
    lemma_mark(name);
    lemma_property_span(h, name);
    lemma_find(h, p, 0);
    let i = find_at(h, p, 0).unwrap();
    assert(r.subrange(i, i + p.len()) =~= h.subrange(i, i + p.len()));
    assert(occurs_at(r, p, i));
    assert forall|j: int| 0 <= j < i implies !occurs_at(r, p, j) by {
        if occurs_at(r, p, j) {
            assert(r.subrange(j, j + p.len()) =~= h.subrange(j, j + p.len()));
            assert(occurs_at(h, p, j));
        }
    }
    lemma_find_is(r, p, 0, i);
    assert(r.subrange(vs, vs + e.len()) =~= e);
    assert(r[vs + e.len()] == h[ve]);
    lemma_escaped_end(r, vs, v);
    assert(property_span(r, name) == Some((vs, vs + e.len())));
    lemma_text_of(escaped(v));
    law_escape_is_undone(v);
}

// Finding by a property
/// At `i` stands a property `name` whose value is `v`.
pub open spec fn says_at(h: Seq<u8>, name: Seq<char>, v: Seq<char>, i: int) -> bool {
    let p = bytes_of(property_mark(name));
    &&& occurs_at(h, p, i)
    &&& value_end(h, i + p.len()) matches Some(e) && plain(
        text_of(h.subrange(i + p.len(), e)),
    ) == v
}

/// The text has a property `name` whose value is `v`.
pub open spec fn says(h: Seq<u8>, name: Seq<char>, v: Seq<char>) -> bool {
    exists|i: int| says_at(h, name, v, i)
}

/// The first place, `from` or later, of a property `name` whose value is `v`.
pub open spec fn saying_from(h: Seq<u8>, name: Seq<char>, v: Seq<char>, from: int) -> Option<int>
    decreases h.len() - from,
{
    if from < 0 || from >= h.len() {
        None
    } else if says_at(h, name, v, from) {
        Some(from)
    } else {
        saying_from(h, name, v, from + 1)
    }
}

/// What `saying_from` answers, in terms of where the property stands.
pub proof fn lemma_saying(h: Seq<u8>, name: Seq<char>, v: Seq<char>, from: int)
    requires
        0 <= from,
    ensures
        match saying_from(h, name, v, from) {
            Some(i) => {
                &&& from <= i < h.len()
                &&& says_at(h, name, v, i)
                &&& forall|j: int| from <= j < i ==> !says_at(h, name, v, j)
            },
            None => forall|j: int| from <= j ==> !says_at(h, name, v, j),
        },
    decreases h.len() - from,
{
    lemma_mark(name);
    if from < h.len() && !says_at(h, name, v, from) {
        lemma_saying(h, name, v, from + 1);
    }
}

/// Places at which nothing is said are passed over.
proof fn lemma_saying_skip(h: Seq<u8>, name: Seq<char>, v: Seq<char>, i: int, j: int)
    requires
        0 <= i <= j <= h.len(),
        forall|k: int| i <= k < j ==> !says_at(h, name, v, k),
    ensures
        saying_from(h, name, v, i) == saying_from(h, name, v, j),
    decreases j - i,
{
    if i < j {
        lemma_saying_skip(h, name, v, i + 1, j);
    }
}

/// Find the first property `name` whose value is `value`.
pub fn find_saying(content: &str, name: &str, value: &str) -> (r: Option<usize>)
    ensures
        opt_int(r) == saying_from(bytes_of(content@), name@, value@, 0),
        r is Some <==> says(bytes_of(content@), name@, value@),
        r matches Some(i) ==> i < bytes_of(content@).len() && cut(bytes_of(content@), i as int),
{
    let ghost h = bytes_of(content@);
    let pat: String = "(property \"".to_owned().concat(name).concat("\" \"");
    let ghost p = bytes_of(pat@);
    proof {
        lemma_bytes_valid(content@);
        lemma_mark(name@);
        lemma_saying(h, name@, value@, 0);
    }
    let n: usize = byte_len(content);
    let m: usize = byte_len(pat.as_str());
    let mut pos: usize = 0;
    loop
        invariant
            h == bytes_of(content@),
            valid_utf8(h),
            n == h.len(),
            pat@ == property_mark(name@),
            p == bytes_of(pat@),
            valid_utf8(p),
            m == p.len(),
            m > 0,
            pos <= n,
            saying_from(h, name@, value@, 0) == saying_from(h, name@, value@, pos as int),
            saying_from(h, name@, value@, 0) is Some <==> says(h, name@, value@),
        decreases n - pos,
    {
        proof {
            lemma_find(h, p, pos as int);
        }
        let i: usize = match find_from(content, pat.as_str(), pos) {
            Some(i) => i,
            None => {
                proof {
                    lemma_saying_skip(h, name@, value@, pos as int, n as int);
                }
                return None;
            },
        };
        proof {
            lemma_occurs_cut(h, p, i as int);
            lemma_saying_skip(h, name@, value@, pos as int, i as int);
        }
        if let Some(e) = find_value_end(content, i + m) {
            let raw: Vec<char> = chars_of(slice(content, i + m, e));
            let said: String = take_plain(&raw, 0, raw.len());
            assert(raw@.subrange(0, raw@.len() as int) =~= raw@);
            if same(said.as_str(), value) {
                return Some(i);
            }
        }
        assert(!says_at(h, name@, value@, i as int));
        pos = i + 1;
    }
}

/// Edit that replaces the footprint's Value property text.
pub fn footprint_set_value_edit(content: &str, fp_span: (usize, usize), new_value: &str) -> (r:
    Result<SexpEdit, BoardError>)
    requires
        piece(bytes_of(content@), fp_span.0 as int, fp_span.1 as int),
    ensures
        ({
            let t = bytes_of(content@).subrange(fp_span.0 as int, fp_span.1 as int);
            match r {
                Ok(e) => {
                    &&& property_span(t, "Value"@) matches Some(v)
                    &&& e@ == (Edit {
                        start: fp_span.0 + v.0,
                        end: fp_span.0 + v.1,
                        text: escaped(new_value@),
                    })
                    &&& fits(bytes_of(content@), e@)
                },
                Err(e) => e == BoardError::NoValue && property_span(t, "Value"@) is None,
            }
        }),
{
    let (fs, fe) = fp_span;
    let ghost h = bytes_of(content@);
    let block: &str = slice(content, fs, fe);
    match property_value_span(block, "Value") {
        Some((a, b)) => {
            proof {
                crate::footprint::lemma_piece_in(h, fs as int, fe as int, a as int, b as int);
            }
            Ok(SexpEdit::replace(fs + a, fs + b, escape_sexp_string(new_value)))
        },
        None => Err(BoardError::NoValue),
    }
}

/// Replace the Reference property value inside a detached footprint block
/// string (used for duplication / library placement, not for in-file edits).
pub fn set_reference_in_block(block: &str, new_reference: &str) -> (r: Result<String, BoardError>)
    ensures
        match r {
            Ok(s) => {
                &&& property_span(bytes_of(block@), "Reference"@) matches Some(v)
                &&& bytes_of(s@) == replaced(bytes_of(block@), v.0, v.1, escaped(new_reference@))
                &&& property_value(bytes_of(s@), "Reference"@) == Some(new_reference@)
            },
            Err(e) => e == BoardError::NoReference && property_span(
                bytes_of(block@),
                "Reference"@,
            ) is None,
        },
{
    let ghost h = bytes_of(block@);
    let (a, b): (usize, usize) = match property_value_span(block, "Reference") {
        Some(v) => v,
        None => {
            return Err(BoardError::NoReference);
        },
    };
    proof {
        lemma_bytes_valid(block@);
        lemma_cut_ends(h);
        law_property_reads_back(h, "Reference"@, new_reference@);
    }
    let left: &str = slice(block, 0, a);
    let mid: String = escape_sexp_string(new_reference);
    let right: &str = slice(block, b, byte_len(block));
    proof {
        lemma_bytes_concat(left@, mid@);
        lemma_bytes_concat(left@ + mid@, right@);
    }
    Ok(left.to_owned().concat(mid.as_str()).concat(right))
}

// UUIDs
/// Where the first `(uuid "...")` of a text has its value.
pub open spec fn uuid_span(h: Seq<u8>) -> Option<(int, int)> {
    let p = bytes_of("(uuid \""@);
    match find_at(h, p, 0) {
        None => None,
        Some(i) => match find_at(h, bytes_of("\""@), i + p.len()) {
            None => None,
            Some(e) => Some((i + p.len(), e)),
        },
    }
}

/// The rest of a text from `i` on.
pub open spec fn rest_of(h: Seq<u8>, i: int) -> Seq<u8> {
    h.subrange(i, h.len() as int)
}

/// The values of all `(uuid "...")` of a text, in order.
pub open spec fn uuids(h: Seq<u8>) -> Seq<Seq<u8>>
    decreases h.len(),
{
    match uuid_span(h) {
        Some(v) => if 0 < v.0 <= v.1 < h.len() {
            seq![h.subrange(v.0, v.1)] + uuids(rest_of(h, v.1))
        } else {
            seq![]
        },
        None => seq![],
    }
}

/// The text with the values of its `(uuid "...")` replaced, the first by
/// `fresh[k]`, the next by `fresh[k + 1]` and so on.
pub open spec fn with_uuids(h: Seq<u8>, fresh: Seq<Seq<char>>, k: int) -> Seq<u8>
    decreases h.len(),
{
    match uuid_span(h) {
        Some(v) => if 0 < v.0 <= v.1 < h.len() {
            h.subrange(0, v.0) + bytes_of(fresh[k]) + with_uuids(rest_of(h, v.1), fresh, k + 1)
        } else {
            h
        },
        None => h,
    }
}

pub proof fn lemma_uuid_marks()
    ensures
        valid_utf8(bytes_of("(uuid \""@)),
        bytes_of("(uuid \""@).len() == 7,
        bytes_of("\""@) == seq![QUOTE],
{
    reveal_strlit("(uuid \"");
    reveal_strlit("\"");
    lemma_bytes_valid("(uuid \""@);
    is_ascii_chars_encode_utf8("(uuid \""@);
    assert("\""@ =~= seq!['"']);
    lemma_ascii_byte('"');
}

pub proof fn lemma_uuid_span(h: Seq<u8>)
    requires
        uuid_span(h) is Some,
    ensures
        ({
            let v = uuid_span(h).unwrap();
            &&& 7 <= v.0 <= v.1 < h.len()
            &&& h[v.1] == QUOTE
            &&& forall|j: int| v.0 <= j < v.1 ==> h[j] != QUOTE
            &&& find_at(h, bytes_of("(uuid \""@), 0) == Some(v.0 - 7)
            &&& valid_utf8(h) ==> cut(h, v.0) && cut(h, v.1)
        }),
{
    let p = bytes_of("(uuid \""@);
    let q = bytes_of("\""@);
    lemma_uuid_marks();
    lemma_find(h, p, 0);
    let i = find_at(h, p, 0).unwrap();
    lemma_find(h, q, i + p.len());
    let (a, b) = uuid_span(h).unwrap();
    assert(h.subrange(b, b + 1)[0] == q[0]);
    assert forall|j: int| a <= j < b implies h[j] != QUOTE by {
        assert(!occurs_at(h, q, j));
        if h[j] == QUOTE {
            assert(h.subrange(j, j + 1) =~= q);
        }
    }
    if valid_utf8(h) {
        lemma_occurs_cut(h, p, i);
        lemma_cut_ascii(h, b);
    }
}

/// The number of `(uuid "...")` in `block`.
pub fn uuid_count(block: &str) -> (n: usize)
    ensures
        n == uuids(bytes_of(block@)).len(),
{
    let ghost all = uuids(bytes_of(block@)).len();
    let mut rest: &str = block;
    let mut n: usize = 0;
    let total: usize = byte_len(block);
    proof {
        lemma_bytes_valid(block@);
    }
    loop
        invariant_except_break
            n + uuids(bytes_of(rest@)).len() == all,
            n + bytes_of(rest@).len() <= total,
        ensures
            n == all,
        decreases bytes_of(rest@).len(),
    {
        let ghost h = bytes_of(rest@);
        match find_uuid(rest) {
            Some((_, e)) => {
                proof {
                    lemma_bytes_valid(rest@);
                    lemma_uuid_span(h);
                    lemma_cut_ends(h);
                }
                rest = slice(rest, e, byte_len(rest));
                n = n + 1;
            },
            None => {
                break;
            },
        }
    }
    n
}

/// Where the first `(uuid "...")` of `rest` has its value.
fn find_uuid(rest: &str) -> (r: Option<(usize, usize)>)
    ensures
        opt_span(r) == uuid_span(bytes_of(rest@)),
{
    let n: usize = byte_len(rest);
    proof {
        lemma_uuid_marks();
        lemma_find(bytes_of(rest@), bytes_of("(uuid \""@), 0);
    }
    match find_from(rest, "(uuid \"", 0) {
        Some(i) => {
            let a: usize = i + byte_len("(uuid \"");
            match find_from(rest, "\"", a) {
                Some(e) => Some((a, e)),
                None => None,
            }
        },
        None => None,
    }
}

/// Replace every `(uuid "...")` value in `block` with the next of the `fresh`
/// ones. Used when duplicating a footprint block: KiCad requires unique KIIDs
/// across the board.
pub fn regenerate_uuids(block: &str, fresh: &Vec<String>) -> (r: String)
    requires
        uuids(bytes_of(block@)).len() <= fresh@.len(),
    ensures
        bytes_of(r@) == with_uuids(bytes_of(block@), strings_of(fresh@), 0),
{
    let ghost texts = strings_of(fresh@);
    let ghost goal = with_uuids(bytes_of(block@), texts, 0);
    let mut out: String = String::new();
    let mut rest: &str = block;
    let mut k: usize = 0;
    let total: usize = fresh.len();
    assert(bytes_of(out@) + goal =~= goal);
    loop
        invariant_except_break
            bytes_of(out@) + with_uuids(bytes_of(rest@), texts, k as int) == goal,
            k + uuids(bytes_of(rest@)).len() <= total,
        invariant
            total == fresh@.len(),
            texts == strings_of(fresh@),
        ensures
            bytes_of(out@) + bytes_of(rest@) == goal,
        decreases bytes_of(rest@).len(),
    {
        let ghost h = bytes_of(rest@);
        let ghost before = out@;
        match find_uuid(rest) {
            Some((a, e)) => {
                proof {
                    lemma_bytes_valid(rest@);
                    lemma_uuid_span(h);
                    lemma_cut_ends(h);
                }
                let left: &str = slice(rest, 0, a);
                out.append(left);
                out.append(fresh[k].as_str());
                rest = slice(rest, e, byte_len(rest));
                proof {
                    assert(texts[k as int] == fresh@[k as int]@);
                    lemma_bytes_concat(before, left@);
                    lemma_bytes_concat(before + left@, texts[k as int]);
                    assert(bytes_of(out@) + with_uuids(bytes_of(rest@), texts, k + 1)
                        =~= bytes_of(before) + with_uuids(h, texts, k as int));
                }
                k = k + 1;
            },
            None => {
                break;
            },
        }
    }
    let ghost before = out@;
    out.append(rest);
    proof {
        lemma_bytes_concat(before, rest@);
    }
    out
}

proof fn lemma_with_uuids_front(h: Seq<u8>, fresh: Seq<Seq<char>>, k: int)
    requires
        h.len() > 0,
    ensures
        with_uuids(h, fresh, k).len() > 0,
        with_uuids(h, fresh, k)[0] == h[0],
{
}

/// After new UUIDs were written, the text has exactly those: as many as before,
/// in their order, and none of the old ones. A UUID that holds a quote would
/// end early, so there is none.
pub proof fn law_uuids_are_fresh(h: Seq<u8>, fresh: Seq<Seq<char>>, k: int)
    requires
        0 <= k,
        k + uuids(h).len() <= fresh.len(),
        forall|i: int, j: int|
            0 <= i < fresh.len() && 0 <= j < fresh[i].len() ==> #[trigger] fresh[i][j] != '"',
    ensures
        uuids(with_uuids(h, fresh, k)) == Seq::new(
            uuids(h).len(),
            |i: int| bytes_of(fresh[k + i]),
        ),
    decreases h.len(),
{
    let r = with_uuids(h, fresh, k);
    let goal = Seq::new(uuids(h).len(), |i: int| bytes_of(fresh[k + i]));
    match uuid_span(h) {
        None => {
            assert(uuids(r) =~= goal);
        },
        Some(v) => {
            lemma_uuid_span(h);
            lemma_uuid_marks();
            let (a, b) = v;
            let p = bytes_of("(uuid \""@);
            let q = bytes_of("\""@);
            let f = bytes_of(fresh[k]);
            let tail = rest_of(h, b);
            let rt = with_uuids(tail, fresh, k + 1);
            assert(uuids(h) == seq![h.subrange(a, b)] + uuids(tail));
            law_uuids_are_fresh(tail, fresh, k + 1);
            lemma_with_uuids_front(tail, fresh, k + 1);
            assert(r == h.subrange(0, a) + f + rt);
            lemma_find(h, p, 0);
            assert(r.subrange(a - 7, a) =~= h.subrange(a - 7, a));
            assert(occurs_at(r, p, a - 7));
            assert forall|j: int| 0 <= j < a - 7 implies !occurs_at(r, p, j) by {
                if occurs_at(r, p, j) {
                    assert(r.subrange(j, j + 7) =~= h.subrange(j, j + 7));
                    assert(occurs_at(h, p, j));
                }
            }
            lemma_find_is(r, p, 0, a - 7);
            let e = a + f.len();
            assert forall|j: int| 0 <= j < fresh[k].len() implies fresh[k][j] != '"' by {}
            lemma_no_byte(fresh[k], '"');
            assert(r[e] == rt[0]);
            assert(r.subrange(e, e + 1) =~= q);
            assert forall|j: int| a <= j < e implies !occurs_at(r, q, j) by {
                assert(r[j] == f[j - a]);
                if occurs_at(r, q, j) {
                    assert(r.subrange(j, j + 1)[0] == r[j]);
                }
            }
            lemma_find_is(r, q, a, e);
            assert(uuid_span(r) == Some((a, e)));
            assert(rest_of(r, e) =~= rt);
            assert(r.subrange(a, e) =~= f);
            assert(uuids(r) == seq![f] + uuids(rt));
            assert(uuids(r) =~= goal);
        },
    }
}

} // verus!
