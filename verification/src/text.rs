//! Strings seen as their UTF-8 bytes: searching, cutting and joining.
//!
//! Every position in this crate is a byte offset, as in `str`. A contract
//! speaks of `bytes_of(s@)`, the bytes of the string `s`; two strings with the
//! same bytes are the same string (`lemma_bytes_injective`).
use vstd::prelude::*;
use vstd::string::*;
use vstd::utf8::*;

verus! {

/// The UTF-8 bytes of a string.
pub open spec fn bytes_of(s: Seq<char>) -> Seq<u8> {
    encode_utf8(s)
}

/// The string that has the bytes `b`.
pub open spec fn text_of(b: Seq<u8>) -> Seq<char> {
    decode_utf8(b)
}

/// `i` is a place where a string with the bytes `h` may be cut in two.
pub open spec fn cut(h: Seq<u8>, i: int) -> bool {
    &&& 0 <= i <= h.len()
    &&& i < h.len() ==> !is_continuation_byte(h[i])
}

/// `p` stands in `h` at offset `i`.
pub open spec fn occurs_at(h: Seq<u8>, p: Seq<u8>, i: int) -> bool {
    &&& 0 <= i
    &&& i + p.len() <= h.len()
    &&& h.subrange(i, i + p.len()) == p
}

/// The first offset, `from` or later, at which `p` stands in `h`.
pub open spec fn find_at(h: Seq<u8>, p: Seq<u8>, from: int) -> Option<int>
    decreases h.len() - from + 1,
{
    if from < 0 || from + p.len() > h.len() {
        None
    } else if occurs_at(h, p, from) {
        Some(from)
    } else {
        find_at(h, p, from + 1)
    }
}

/// The last offset, `upto` or earlier, at which `p` stands in `h`.
pub open spec fn rfind_at(h: Seq<u8>, p: Seq<u8>, upto: int) -> Option<int>
    decreases upto + 1,
{
    if upto < 0 {
        None
    } else if occurs_at(h, p, upto) {
        Some(upto)
    } else {
        rfind_at(h, p, upto - 1)
    }
}

/// `p` stands somewhere in `h`.
pub open spec fn holds(h: Seq<u8>, p: Seq<u8>) -> bool {
    find_at(h, p, 0) is Some
}

/// An offset as a number.
pub open spec fn opt_int(r: Option<usize>) -> Option<int> {
    match r {
        Some(i) => Some(i as int),
        None => None,
    }
}

/// A pair of offsets as numbers.
pub open spec fn span_of(s: (usize, usize)) -> (int, int) {
    (s.0 as int, s.1 as int)
}

/// An optional pair of offsets as numbers.
pub open spec fn opt_span(r: Option<(usize, usize)>) -> Option<(int, int)> {
    match r {
        Some(s) => Some(span_of(s)),
        None => None,
    }
}

/// What `find_at` answers, in terms of where `p` stands.
pub proof fn lemma_find(h: Seq<u8>, p: Seq<u8>, from: int)
    requires
        0 <= from,
    ensures
        match find_at(h, p, from) {
            Some(i) => {
                &&& from <= i
                &&& occurs_at(h, p, i)
                &&& forall|j: int| from <= j < i ==> !occurs_at(h, p, j)
            },
            None => forall|j: int| from <= j ==> !occurs_at(h, p, j),
        },
    decreases h.len() - from + 1,
{
    if from + p.len() > h.len() {
    } else if occurs_at(h, p, from) {
    } else {
        lemma_find(h, p, from + 1);
        match find_at(h, p, from) {
            Some(i) => {
                assert forall|j: int| from <= j < i implies !occurs_at(h, p, j) by {
                    if j > from {
                    }
                }
            },
            None => {
                assert forall|j: int| from <= j implies !occurs_at(h, p, j) by {
                    if j > from {
                    }
                }
            },
        }
    }
}

/// An occurrence with none before it is the one that `find_at` gives.
pub proof fn lemma_find_is(h: Seq<u8>, p: Seq<u8>, from: int, i: int)
    requires
        0 <= from <= i,
        occurs_at(h, p, i),
        forall|j: int| from <= j < i ==> !occurs_at(h, p, j),
    ensures
        find_at(h, p, from) == Some(i),
{
    lemma_find(h, p, from);
    let k = find_at(h, p, from);
    match k {
        Some(m) => {
            if m < i {
                assert(!occurs_at(h, p, m));
            }
        },
        None => {
            assert(!occurs_at(h, p, i));
        },
    }
}

/// Where nothing occurs, `find_at` finds nothing.
pub proof fn lemma_find_none(h: Seq<u8>, p: Seq<u8>, from: int)
    requires
        0 <= from,
        forall|j: int| from <= j ==> !occurs_at(h, p, j),
    ensures
        find_at(h, p, from) is None,
{
    lemma_find(h, p, from);
}

/// What `rfind_at` answers, in terms of where `p` stands.
pub proof fn lemma_rfind(h: Seq<u8>, p: Seq<u8>, upto: int)
    ensures
        match rfind_at(h, p, upto) {
            Some(i) => {
                &&& 0 <= i <= upto
                &&& occurs_at(h, p, i)
                &&& forall|j: int| i < j <= upto ==> !occurs_at(h, p, j)
            },
            None => forall|j: int| j <= upto ==> !occurs_at(h, p, j),
        },
    decreases upto + 1,
{
    if upto < 0 {
    } else if occurs_at(h, p, upto) {
    } else {
        lemma_rfind(h, p, upto - 1);
    }
}

/// The bytes of a joined string are the joined bytes.
pub broadcast proof fn lemma_bytes_concat(a: Seq<char>, b: Seq<char>)
    ensures
        #[trigger] bytes_of(a + b) == bytes_of(a) + bytes_of(b),
    decreases a.len(),
{
    if a.len() == 0 {
        assert(a + b =~= b);
        assert(bytes_of(a) + bytes_of(b) =~= bytes_of(b));
    } else {
        assert((a + b).drop_first() =~= a.drop_first() + b);
        lemma_bytes_concat(a.drop_first(), b);
        assert(bytes_of(a + b) =~= bytes_of(a) + bytes_of(b));
    }
}

/// The string with the bytes of `s` is `s`.
pub broadcast proof fn lemma_text_of(s: Seq<char>)
    ensures
        text_of(#[trigger] bytes_of(s)) == s,
{
    encode_utf8_decode_utf8(s);
}

/// Well-formed bytes are the bytes of the string that they spell.
pub proof fn lemma_bytes_of_text(b: Seq<u8>)
    requires
        valid_utf8(b),
    ensures
        bytes_of(text_of(b)) == b,
{
    decode_utf8_encode_utf8(b);
}

/// A string has at least one byte for each character.
pub proof fn lemma_bytes_len(s: Seq<char>)
    ensures
        bytes_of(s).len() >= s.len(),
        s.len() == 0 ==> bytes_of(s).len() == 0,
    decreases s.len(),
{
    if s.len() > 0 {
        lemma_bytes_len(s.drop_first());
    }
}

/// A first byte below 128 is the first character.
pub proof fn lemma_first_ascii(b: Seq<u8>)
    requires
        valid_utf8(b),
        b.len() > 0,
        b[0] < 128,
    ensures
        text_of(b).len() > 0,
        text_of(b)[0] as u32 == b[0],
{
    let c = b[0];
    assert(codepoint_width_1(c) == c) by {
        assert(c < 128 ==> (c & 0x7F) as u32 == c as u32) by (bit_vector);
    }
    assert(decode_first_scalar(b) == c as u32);
}

/// A character below 128 is one byte.
pub proof fn lemma_ascii_byte(c: char)
    requires
        (c as u32) < 128,
    ensures
        bytes_of(seq![c]) == seq![c as u8],
{
    is_ascii_chars_encode_utf8(seq![c]);
    assert(bytes_of(seq![c]) =~= seq![c as u8]);
}

/// A character from 128 on has only bytes from 128 on.
proof fn lemma_wide_bytes(c: char)
    requires
        c as u32 >= 128,
    ensures
        forall|i: int|
            0 <= i < encode_scalar(c as u32).len() ==> (#[trigger] encode_scalar(c as u32)[i])
                >= 128,
{
    let u = c as u32;
    assert((0xC0 | ((u >> 6) & 0x1F) as u8) >= 128) by (bit_vector);
    assert((0xE0 | ((u >> 12) & 0x0F) as u8) >= 128) by (bit_vector);
    assert((0xF0 | ((u >> 18) & 0x7) as u8) >= 128) by (bit_vector);
    assert((0x80 | (u & 0x3F) as u8) >= 128) by (bit_vector);
    assert((0x80 | ((u >> 6) & 0x3F) as u8) >= 128) by (bit_vector);
    assert((0x80 | ((u >> 12) & 0x3F) as u8) >= 128) by (bit_vector);
}

/// Another character than `c` has bytes without it.
proof fn lemma_char_without(d: char, c: char)
    requires
        (c as u32) < 128,
        d != c,
    ensures
        forall|i: int|
            0 <= i < encode_scalar(d as u32).len() ==> (#[trigger] encode_scalar(d as u32)[i])
                != c as u8,
{
    if (d as u32) < 128 {
        lemma_ascii_byte(d);
        assert(seq![d].drop_first() =~= Seq::<char>::empty());
        assert(bytes_of(seq![d]) =~= encode_scalar(d as u32));
    } else {
        lemma_wide_bytes(d);
    }
}

/// The bytes of one character: itself if it is below 128, else bytes from 128
/// on.
pub proof fn lemma_char_bytes(c: char)
    ensures
        bytes_of(seq![c]).len() > 0,
        (c as u32) < 128 ==> bytes_of(seq![c]) == seq![c as u8],
        (c as u32) >= 128 ==> forall|i: int|
            0 <= i < bytes_of(seq![c]).len() ==> (#[trigger] bytes_of(seq![c])[i]) >= 128,
{
    lemma_bytes_len(seq![c]);
    if (c as u32) < 128 {
        lemma_ascii_byte(c);
    } else {
        lemma_wide_bytes(c);
        assert(seq![c].drop_first() =~= Seq::<char>::empty());
        assert(bytes_of(seq![c]) =~= encode_scalar(c as u32) + bytes_of(Seq::<char>::empty()));
        assert(bytes_of(Seq::<char>::empty()) =~= Seq::<u8>::empty());
    }
}

/// A string without the character `c` has bytes without it.
pub proof fn lemma_no_byte(s: Seq<char>, c: char)
    requires
        (c as u32) < 128,
        forall|i: int| 0 <= i < s.len() ==> s[i] != c,
    ensures
        forall|i: int| 0 <= i < bytes_of(s).len() ==> bytes_of(s)[i] != c as u8,
    decreases s.len(),
{
    if s.len() > 0 {
        let d = s[0];
        let rest = s.drop_first();
        assert forall|i: int| 0 <= i < rest.len() implies rest[i] != c by {
            assert(rest[i] == s[i + 1]);
        }
        lemma_no_byte(rest, c);
        lemma_char_without(d, c);
        let e = encode_scalar(d as u32);
        assert(bytes_of(s) == e + bytes_of(rest));
        assert forall|i: int| 0 <= i < bytes_of(s).len() implies bytes_of(s)[i] != c as u8 by {
            if i >= e.len() {
                assert(bytes_of(s)[i] == bytes_of(rest)[i - e.len()]);
            } else {
                assert(bytes_of(s)[i] == e[i]);
            }
        }
    }
}

/// Strings with the same bytes are equal.
pub proof fn lemma_bytes_injective(a: Seq<char>, b: Seq<char>)
    ensures
        bytes_of(a) == bytes_of(b) ==> a == b,
{
    encode_utf8_decode_utf8(a);
    encode_utf8_decode_utf8(b);
}

/// The bytes of a string are well-formed UTF-8.
pub broadcast proof fn lemma_bytes_valid(s: Seq<char>)
    ensures
        valid_utf8(#[trigger] bytes_of(s)),
{
    encode_utf8_valid_utf8(s);
}

/// In well-formed UTF-8 the places where one may cut are the boundaries of
/// characters.
pub proof fn lemma_cut_is_boundary(h: Seq<u8>, i: int)
    requires
        valid_utf8(h),
    ensures
        cut(h, i) <==> (0 <= i <= h.len() && is_char_boundary(h, i)),
{
    if 0 <= i < h.len() {
        is_char_boundary_iff_not_is_continuation_byte(h, i);
    } else if i == h.len() {
        is_char_boundary_start_end_of_seq(h);
    }
}

/// The two ends of a well-formed string may be cut.
pub proof fn lemma_cut_ends(h: Seq<u8>)
    requires
        valid_utf8(h),
    ensures
        cut(h, 0),
        cut(h, h.len() as int),
{
    is_char_boundary_start_end_of_seq(h);
    lemma_cut_is_boundary(h, 0);
}

/// What is cut out of well-formed UTF-8 is well-formed.
pub proof fn lemma_cut_valid(h: Seq<u8>, a: int, b: int)
    requires
        valid_utf8(h),
        cut(h, a),
        cut(h, b),
        a <= b,
    ensures
        valid_utf8(h.subrange(a, b)),
{
    lemma_cut_is_boundary(h, b);
    valid_utf8_split(h, b);
    let left = h.subrange(0, b);
    assert(cut(left, a));
    lemma_cut_is_boundary(left, a);
    valid_utf8_split(left, a);
    assert(left.subrange(a, left.len() as int) =~= h.subrange(a, b));
}

/// A byte below 128 is a character of its own.
pub proof fn lemma_cut_ascii(h: Seq<u8>, i: int)
    requires
        valid_utf8(h),
        0 <= i < h.len(),
        h[i] < 128,
    ensures
        cut(h, i),
        cut(h, i + 1),
{
    let b = h[i];
    assert(cut(h, i));
    lemma_cut_valid(h, i, h.len() as int);
    let t = h.subrange(i, h.len() as int);
    assert(t[0] == b);
    assert(valid_first_scalar(t));
    assert(length_of_first_scalar(t) == 1);
    let r = pop_first_scalar(t);
    assert(valid_utf8(r));
    if i + 1 < h.len() {
        lemma_cut_ends(r);
        assert(r[0] == h[i + 1]);
    }
}

/// A string that stands inside another begins and ends at character
/// boundaries.
pub proof fn lemma_occurs_cut(h: Seq<u8>, p: Seq<u8>, i: int)
    requires
        valid_utf8(h),
        valid_utf8(p),
        p.len() > 0,
        occurs_at(h, p, i),
    ensures
        cut(h, i),
        cut(h, i + p.len()),
{
    lemma_cut_ends(p);
    assert(p[0] == h[i]);
    assert(cut(h, i));
    lemma_cut_valid(h, i, h.len() as int);
    let t = h.subrange(i, h.len() as int);
    let n = p.len() as int;
    assert(t.subrange(0, n) =~= p);
    let r = t.subrange(n, t.len() as int);
    if !valid_utf8(r) {
        partial_valid_partial_invalid_utf8(t, n);
    }
    if i + n < h.len() {
        lemma_cut_ends(r);
        assert(r[0] == h[i + n]);
    }
}

/// The part of `s` from byte `a` to byte `b`.
pub fn slice(s: &str, a: usize, b: usize) -> (r: &str)
    requires
        a <= b,
        cut(bytes_of(s@), a as int),
        cut(bytes_of(s@), b as int),
    ensures
        bytes_of(r@) == bytes_of(s@).subrange(a as int, b as int),
        r@ == text_of(bytes_of(s@).subrange(a as int, b as int)),
{
    let ghost h = bytes_of(s@);
    proof {
        lemma_bytes_valid(s@);
        lemma_cut_is_boundary(h, b as int);
    }
    let left = s.split_at(b).0;
    proof {
        let l = h.subrange(0, b as int);
        lemma_bytes_valid(left@);
        assert(bytes_of(left@) == l);
        assert(cut(l, a as int));
        lemma_cut_is_boundary(l, a as int);
    }
    let r = left.split_at(a).1;
    assert(bytes_of(r@) =~= h.subrange(a as int, b as int));
    proof {
        lemma_text_of(r@);
    }
    r
}

/// `String::push` appends one character at the end.
pub assume_specification[ String::push ](s: &mut String, c: char)
    ensures
        final(s)@ == old(s)@.push(c),
;

/// The number of bytes of `s`.
pub fn byte_len(s: &str) -> (n: usize)
    ensures
        n == bytes_of(s@).len(),
{
    s.as_bytes().len()
}

/// Whether `pat` stands in `s` at byte `i`.
pub fn stands_at(s: &str, pat: &str, i: usize) -> (r: bool)
    ensures
        r == occurs_at(bytes_of(s@), bytes_of(pat@), i as int),
{
    let h = s.as_bytes();
    let p = pat.as_bytes();
    if i > h.len() || p.len() > h.len() - i {
        return false;
    }
    let n: usize = h.len();
    let mut k: usize = 0;
    while k < p.len()
        invariant
            n == h@.len(),
            h@ == bytes_of(s@),
            p@ == bytes_of(pat@),
            i + p@.len() <= h@.len(),
            k <= p@.len(),
            forall|j: int| 0 <= j < k ==> h@[i + j] == p@[j],
        decreases p@.len() - k,
    {
        if h[i + k] != p[k] {
            assert(h@.subrange(i as int, i + p@.len())[k as int] == h@[i + k]);
            return false;
        }
        k = k + 1;
    }
    assert(h@.subrange(i as int, i + p@.len()) =~= p@);
    true
}

/// The first offset, `from` or later, at which `pat` stands in `s`.
pub fn find_from(s: &str, pat: &str, from: usize) -> (r: Option<usize>)
    ensures
        opt_int(r) == find_at(bytes_of(s@), bytes_of(pat@), from as int),
{
    let n: usize = byte_len(s);
    let m: usize = byte_len(pat);
    let ghost h = bytes_of(s@);
    let ghost p = bytes_of(pat@);
    if m > n || from > n - m {
        return None;
    }
    let mut i: usize = from;
    while i <= n - m
        invariant
            h == bytes_of(s@),
            p == bytes_of(pat@),
            n == h.len(),
            m == p.len(),
            m <= n,
            from <= i <= n - m + 1,
            forall|j: int| from <= j < i ==> !occurs_at(h, p, j),
        decreases n - i,
    {
        if stands_at(s, pat, i) {
            proof {
                lemma_find_is(h, p, from as int, i as int);
            }
            return Some(i);
        }
        if i == n - m {
            proof {
                lemma_find_none(h, p, from as int);
            }
            return None;
        }
        i = i + 1;
    }
    proof {
        lemma_find_none(h, p, from as int);
    }
    None
}

/// The last offset at which `pat` stands in `s` with all of it before `end`.
pub fn rfind_within(s: &str, pat: &str, end: usize) -> (r: Option<usize>)
    requires
        end <= bytes_of(s@).len(),
    ensures
        opt_int(r) == rfind_at(bytes_of(s@), bytes_of(pat@), end - bytes_of(pat@).len()),
{
    let m: usize = byte_len(pat);
    let ghost h = bytes_of(s@);
    let ghost p = bytes_of(pat@);
    if m > end {
        return None;
    }
    let mut i: usize = end - m;
    loop
        invariant
            h == bytes_of(s@),
            p == bytes_of(pat@),
            m == p.len(),
            m <= end,
            i <= end - m,
            rfind_at(h, p, end - m) == rfind_at(h, p, i as int),
        decreases i,
    {
        if stands_at(s, pat, i) {
            return Some(i);
        }
        if i == 0 {
            assert(rfind_at(h, p, -1) is None);
            return None;
        }
        i = i - 1;
    }
}

/// Whether `pat` stands somewhere in `s`.
pub fn contains(s: &str, pat: &str) -> (r: bool)
    ensures
        r == holds(bytes_of(s@), bytes_of(pat@)),
{
    find_from(s, pat, 0).is_some()
}

/// Whether two strings are the same.
pub fn same(a: &str, b: &str) -> (r: bool)
    ensures
        r == (a@ == b@),
{
    proof {
        lemma_bytes_injective(a@, b@);
        assert(bytes_of(a@).subrange(0, bytes_of(a@).len() as int) =~= bytes_of(a@));
    }
    byte_len(a) == byte_len(b) && stands_at(a, b, 0)
}

} // verus!
