//! How text is searched, quoted, cut into words and counted.
use crate::board::{at_numbers, at_text, close_of, lemma_close_of, AtText};
use crate::moving::lemma_at_text;
use crate::numbers::{
    all_digits, digits_end, digits_value, i32_value, int_value, is_decimal, is_number, power_ends,
    trimmed, trimmed_back, trimmed_front,
};
use crate::property::{
    escaped, lemma_escaped_end, lemma_uuid_marks, plain, property_span, property_value, says,
    uuid_span, uuids, value_end, with_uuids,
};
use crate::text::{
    bytes_of, find_at, holds, lemma_ascii_byte, lemma_bytes_concat, lemma_find, lemma_find_is,
    lemma_rfind, lemma_text_of, occurs_at, rfind_at, text_of,
};
use crate::tracks::{blanks_before, line_start};
use crate::words::{
    ends_head, head_end, head_of, int_chars, is_space, lemma_word_end_is, nat_chars, skip_space,
    word_end, words_from, words_of,
};
use vstd::prelude::*;
use vstd::string::*;
use vstd::utf8::*;

verus! {

// Searching
/// The bytes `p` stand in `h` at `i`.
pub open spec fn stands(h: Seq<u8>, p: Seq<u8>, i: int) -> bool {
    0 <= i && i + p.len() <= h.len() && forall|k: int|
        0 <= k < p.len() ==> h[i + k] == #[trigger] p[k]
}

proof fn lemma_stands(h: Seq<u8>, p: Seq<u8>, i: int)
    ensures
        occurs_at(h, p, i) == stands(h, p, i),
{
    if occurs_at(h, p, i) {
        assert forall|k: int| 0 <= k < p.len() implies h[i + k] == #[trigger] p[k] by {
            assert(h.subrange(i, i + p.len())[k] == p[k]);
        }
    }
    if stands(h, p, i) {
        assert(h.subrange(i, i + p.len()) =~= p) by {
            assert forall|k: int| 0 <= k < p.len() implies h.subrange(i, i + p.len())[k] == p[k] by {
                assert(h[i + k] == p[k]);
            }
        }
    }
}

/// What is searched for is found where it first stands.
pub proof fn law_search_finds_the_first(h: Seq<u8>, p: Seq<u8>, from: int)
    requires
        0 <= from,
    ensures
        match find_at(h, p, from) {
            Some(i) => from <= i && stands(h, p, i) && forall|j: int|
                from <= j < i ==> !#[trigger] stands(h, p, j),
            None => forall|j: int| from <= j ==> !#[trigger] stands(h, p, j),
        },
        holds(h, p) <==> exists|j: int| #[trigger] stands(h, p, j),
{
    lemma_find(h, p, from);
    lemma_find(h, p, 0);
    assert forall|j: int| #[trigger] stands(h, p, j) == occurs_at(h, p, j) by {
        lemma_stands(h, p, j);
    }
    if holds(h, p) {
        assert(stands(h, p, find_at(h, p, 0).unwrap()));
    }
    if exists|j: int| #[trigger] stands(h, p, j) {
        let j = choose|j: int| #[trigger] stands(h, p, j);
        assert(occurs_at(h, p, j));
    }
}

/// What is searched for from behind is found where it last stands.
pub proof fn law_search_from_behind_finds_the_last(h: Seq<u8>, p: Seq<u8>, upto: int)
    ensures
        match rfind_at(h, p, upto) {
            Some(i) => i <= upto && stands(h, p, i) && forall|j: int|
                i < j <= upto ==> !#[trigger] stands(h, p, j),
            None => forall|j: int| j <= upto ==> !#[trigger] stands(h, p, j),
        },
{
    lemma_rfind(h, p, upto);
    assert forall|j: int| #[trigger] stands(h, p, j) == occurs_at(h, p, j) by {
        lemma_stands(h, p, j);
    }
}

/// A board ends with its last parenthesis.
pub proof fn law_a_board_ends_at_its_last_parenthesis(h: Seq<u8>)
    requires
        valid_utf8(h),
    ensures
        0 <= close_of(h) <= h.len(),
        close_of(h) < h.len() ==> h[close_of(h)] == 41,
        forall|j: int| close_of(h) < j < h.len() ==> h[j] != 41,
        close_of(h) == h.len() ==> forall|j: int| 0 <= j < h.len() ==> h[j] != 41,
{
    let p = bytes_of(")"@);
    reveal_strlit(")");
    assert(")"@ =~= seq![')']);
    lemma_ascii_byte(')');
    lemma_close_of(h);
    lemma_rfind(h, p, h.len() - 1);
    assert forall|j: int| 0 <= j < h.len() && h[j] == 41 implies occurs_at(h, p, j) by {
        assert(h.subrange(j, j + 1) =~= p);
    }
    if close_of(h) < h.len() {
        assert(h.subrange(close_of(h), close_of(h) + 1)[0] == h[close_of(h)]);
    }
}

/// The indentation before a block is its blanks and the line break before them.
pub proof fn law_indentation_is_blanks_and_a_line_break(h: Seq<u8>, i: int)
    requires
        0 <= i <= h.len(),
    ensures
        ({
            let a = line_start(h, i);
            &&& 0 <= a <= i
            &&& forall|j: int| a < j < i ==> h[j] == 32 || h[j] == 9
            &&& a < i ==> h[a] == 32 || h[a] == 9 || h[a] == 10
            &&& a < i && h[a] == 10 || a == 0 || (h[a - 1] != 32 && h[a - 1] != 9 && h[a - 1] != 10)
        }),
{
    lemma_blanks(h, i);
}

proof fn lemma_blanks(h: Seq<u8>, i: int)
    requires
        0 <= i <= h.len(),
    ensures
        0 <= blanks_before(h, i) <= i,
        forall|j: int| blanks_before(h, i) <= j < i ==> h[j] == 32 || h[j] == 9,
        blanks_before(h, i) == 0 || (h[blanks_before(h, i) - 1] != 32 && h[blanks_before(h, i) - 1]
            != 9),
    decreases i,
{
    if i > 0 && (h[i - 1] == 32 || h[i - 1] == 9) {
        lemma_blanks(h, i - 1);
    }
}

// Quoting
/// Quotes and backslashes get a backslash before them, and nothing else does.
pub proof fn law_quotes_and_backslashes_are_escaped(c: char, rest: Seq<char>)
    ensures
        escaped(Seq::empty()).len() == 0,
        escaped(seq![c] + rest) == (if c == '"' || c == '\\' {
            seq!['\\', c]
        } else {
            seq![c]
        }) + escaped(rest),
{
    let s = seq![c] + rest;
    assert(s.drop_first() =~= rest);
    assert(s[0] == c);
}

/// A backslash stands for the character behind it.
pub proof fn law_a_backslash_gives_the_next_character(c: char, rest: Seq<char>)
    ensures
        plain(Seq::empty()).len() == 0,
        plain(seq!['\\', c] + rest) == seq![c] + plain(rest),
        c != '\\' ==> plain(seq![c] + rest) == seq![c] + plain(rest),
{
    let s = seq!['\\', c] + rest;
    assert(s.subrange(2, s.len() as int) =~= rest);
    let t = seq![c] + rest;
    assert(t.drop_first() =~= rest);
}

/// A property has the value that stands behind its name.
pub proof fn law_a_property_has_the_value_that_stands(
    pre: Seq<char>,
    name: Seq<char>,
    v: Seq<char>,
    post: Seq<char>,
)
    requires
        ({
            let h = bytes_of(
                pre + ("(property \""@ + name + "\" \""@) + escaped(v) + "\""@ + post,
            );
            forall|j: int|
                0 <= j < bytes_of(pre).len() ==> !#[trigger] stands(
                    h,
                    bytes_of("(property \""@ + name + "\" \""@),
                    j,
                )
        }),
    ensures
        ({
            let mark = "(property \""@ + name + "\" \""@;
            let h = bytes_of(pre + mark + escaped(v) + "\""@ + post);
            let a = bytes_of(pre + mark).len() as int;
            &&& property_value(h, name) == Some(v)
            &&& property_span(h, name) == Some((a, a + bytes_of(escaped(v)).len()))
            &&& says(h, name, v)
        }),
{
    let mark = "(property \""@ + name + "\" \""@;
    let m = bytes_of(mark);
    let h = bytes_of(pre + mark + escaped(v) + "\""@ + post);
    let i = bytes_of(pre).len() as int;
    let a = i + m.len();
    let e = bytes_of(escaped(v));
    reveal_strlit("\"");
    assert("\""@ =~= seq!['"']);
    lemma_ascii_byte('"');
    lemma_bytes_concat(pre, mark);
    lemma_bytes_concat(pre + mark, escaped(v));
    lemma_bytes_concat(pre + mark + escaped(v), "\""@);
    lemma_bytes_concat(pre + mark + escaped(v) + "\""@, post);
    assert(h.subrange(i, i + m.len()) =~= m);
    assert(h.subrange(a, a + e.len()) =~= e);
    assert(h[a + e.len()] == 34);
    assert forall|j: int| 0 <= j < i implies !occurs_at(h, m, j) by {
        lemma_stands(h, m, j);
        assert(!stands(h, m, j));
    }
    lemma_find_is(h, m, 0, i);
    lemma_escaped_end(h, a, v);
    lemma_text_of(escaped(v));
    crate::property::law_escape_is_undone(v);
    assert(crate::property::says_at(h, name, v, i));
}

/// A text says that a property has a value exactly where the mark of the
/// property stands and what follows it, up to the next quote that no backslash
/// stands before, spells the value.
pub proof fn law_what_a_property_says(h: Seq<u8>, name: Seq<char>, v: Seq<char>)
    ensures
        says(h, name, v) <==> exists|i: int| #[trigger] spells(h, name, v, i),
{
    let m = bytes_of("(property \""@ + name + "\" \""@);
    assert forall|i: int| #[trigger] spells(h, name, v, i) == crate::property::says_at(
        h,
        name,
        v,
        i,
    ) by {
        lemma_stands(h, m, i);
    }
    if says(h, name, v) {
        let i = choose|i: int| crate::property::says_at(h, name, v, i);
        assert(spells(h, name, v, i));
    }
    if exists|i: int| #[trigger] spells(h, name, v, i) {
        let i = choose|i: int| #[trigger] spells(h, name, v, i);
        assert(crate::property::says_at(h, name, v, i));
    }
}

/// The property `name` stands at `i`, and its value spells `v`.
pub open spec fn spells(h: Seq<u8>, name: Seq<char>, v: Seq<char>, i: int) -> bool {
    let m = bytes_of("(property \""@ + name + "\" \""@);
    &&& stands(h, m, i)
    &&& value_end(h, i + m.len()) matches Some(e)
    &&& plain(text_of(h.subrange(i + m.len(), e))) == v
}

/// The new identities take the places of the old ones, in their order: the text
/// before the first, the first new one, and the rest with the others.
pub proof fn law_identities_are_written_in_order(
    pre: Seq<u8>,
    id: Seq<u8>,
    rest: Seq<u8>,
    fresh: Seq<Seq<char>>,
    k: int,
)
    requires
        forall|j: int|
            0 <= j < pre.len() ==> !#[trigger] stands(
                pre + bytes_of("(uuid \""@) + id + seq![34u8] + rest,
                bytes_of("(uuid \""@),
                j,
            ),
        forall|j: int| 0 <= j < id.len() ==> id[j] != 34,
    ensures
        ({
            let m = bytes_of("(uuid \""@);
            let h = pre + m + id + seq![34u8] + rest;
            &&& with_uuids(h, fresh, k) == pre + m + bytes_of(fresh[k]) + with_uuids(
                seq![34u8] + rest,
                fresh,
                k + 1,
            )
            &&& uuids(h) == seq![id] + uuids(seq![34u8] + rest)
        }),
{
    let m = bytes_of("(uuid \""@);
    let q = bytes_of("\""@);
    let h = pre + m + id + seq![34u8] + rest;
    let i = pre.len() as int;
    lemma_uuid_marks();
    reveal_strlit("(uuid \"");
    reveal_strlit("\"");
    is_ascii_chars_encode_utf8("(uuid \""@);
    is_ascii_chars_encode_utf8("\""@);
    assert(q =~= seq![34u8]);
    assert(m.len() == 7);
    assert(h.subrange(i, i + 7) =~= m);
    assert forall|j: int| 0 <= j < i implies !occurs_at(h, m, j) by {
        lemma_stands(h, m, j);
        assert(!stands(h, m, j));
    }
    lemma_find_is(h, m, 0, i);
    let a = i + 7;
    let e = a + id.len();
    assert(h.subrange(e, e + 1) =~= q);
    assert forall|j: int| a <= j < e implies !occurs_at(h, q, j) by {
        if occurs_at(h, q, j) {
            assert(h.subrange(j, j + 1)[0] == id[j - a]);
        }
    }
    lemma_find_is(h, q, a, e);
    assert(uuid_span(h) == Some((a, e)));
    assert(h.subrange(e, h.len() as int) =~= seq![34u8] + rest);
    assert(h.subrange(0, a) =~= pre + m);
    assert(h.subrange(a, e) =~= id);
}

// Places
/// A place as it stands in a file.
pub proof fn law_a_place_is_written_in_one_list(x: Seq<char>, y: Seq<char>, rot: Seq<char>)
    ensures
        at_text(AtText { x, y, rot: None }) == "(at "@ + x + " "@ + y + ")"@,
        at_text(AtText { x, y, rot: Some(rot) }) == "(at "@ + x + " "@ + y + " "@ + rot + ")"@,
        is_number(x) && is_number(y) ==> at_numbers("(at "@ + x + " "@ + y + ")"@) == seq![x, y],
        is_number(x) && is_number(y) && is_number(rot) ==> at_numbers(
            "(at "@ + x + " "@ + y + " "@ + rot + ")"@,
        ) == seq![x, y, rot],
{
    let a = AtText { x, y, rot: None };
    let b = AtText { x, y, rot: Some(rot) };
    if is_number(x) && is_number(y) {
        lemma_at_text(a);
        if is_number(rot) {
            lemma_at_text(b);
        }
    }
}

// Words
/// The head of a list is what stands between its parenthesis and the first
/// white space, parenthesis or quote.
pub proof fn law_the_head_of_a_list(w: Seq<char>, c: char, rest: Seq<char>)
    requires
        forall|k: int|
            0 <= k < w.len() ==> !is_space(w[k]) && w[k] != '(' && w[k] != ')' && w[k] != '"',
        is_space(c) || c == '(' || c == ')' || c == '"',
    ensures
        head_of(seq!['('] + w + seq![c] + rest) == w,
{
    let s = seq!['('] + w + seq![c] + rest;
    let e = w.len() as int + 1;
    assert(s[e] == c);
    assert forall|k: int| 1 <= k < e implies !ends_head(#[trigger] s[k]) by {
        assert(s[k] == w[k - 1]);
    }
    lemma_head(s, 1, e);
    assert(s.subrange(1, e) =~= w);
}

proof fn lemma_head(s: Seq<char>, i: int, e: int)
    requires
        0 <= i <= e < s.len(),
        ends_head(s[e]),
        forall|k: int| i <= k < e ==> !ends_head(#[trigger] s[k]),
    ensures
        head_end(s, i) == e,
    decreases e - i,
{
    if i < e {
        assert(!ends_head(s[i]));
        lemma_head(s, i + 1, e);
    }
}

/// White space: the characters that Unicode gives that property.
pub proof fn law_white_space(c: char)
    ensures
        is_space(c) <==> (c == ' ' || c == '\t' || c == '\n' || c == '\r' || c as u32 == 11 || c as u32
            == 12 || c as u32 == 0x85 || c as u32 == 0xA0 || c as u32 == 0x1680 || c as u32 == 0x2028
            || c as u32 == 0x2029 || c as u32 == 0x202F || c as u32 == 0x205F || c as u32 == 0x3000
            || (0x2000 <= c as u32 && c as u32 <= 0x200A)),
{
}

/// The words of a text are its pieces without white space, in order.
pub proof fn law_words_are_cut_at_white_space(w: Seq<char>, c: char, rest: Seq<char>)
    requires
        w.len() > 0,
        forall|k: int| 0 <= k < w.len() ==> !is_space(w[k]),
        is_space(c),
    ensures
        words_of(Seq::empty()).len() == 0,
        words_of(seq![c] + rest) == words_of(rest),
        words_of(w) == seq![w],
        words_of(w + seq![c] + rest) == seq![w] + words_of(rest),
{
    let s = w + seq![c] + rest;
    let n = w.len() as int;
    assert(!is_space(w[0]));
    assert(skip_space(w, 0) == 0);
    lemma_word_end_is(w, 0, n);
    assert(words_from(w, n) =~= Seq::<Seq<char>>::empty());
    assert(w.subrange(0, n) =~= w);
    assert(words_of(w) =~= seq![w]);
    assert(s[0] == w[0]);
    assert(skip_space(s, 0) == 0);
    assert forall|k: int| 0 <= k < n implies !is_space(s[k]) by {
        assert(s[k] == w[k]);
    }
    assert(s[n] == c);
    lemma_word_end_is(s, 0, n);
    assert(s.subrange(0, n) =~= w);
    let t = seq![c] + rest;
    lemma_words_shift(s, t, n, 0);
    assert(words_from(s, n) == words_from(t, 0));
    lemma_words_shift(t, rest, 1, 0);
    lemma_words_skip(t);
}

/// One white space at the front changes nothing.
proof fn lemma_words_skip(t: Seq<char>)
    requires
        t.len() > 0,
        is_space(t[0]),
    ensures
        words_from(t, 0) == words_from(t, 1),
{
    assert(skip_space(t, 0) == skip_space(t, 1));
    crate::words::lemma_skip_space(t, 1);
    let a = skip_space(t, 1);
    if a < t.len() {
        lemma_word_end(t, a);
    }
}

proof fn lemma_word_end(t: Seq<char>, a: int)
    requires
        0 <= a < t.len(),
        !is_space(t[a]),
    ensures
        a < word_end(t, a) <= t.len(),
{
    lemma_word_end_any(t, a + 1);
}

proof fn lemma_word_end_any(t: Seq<char>, a: int)
    requires
        0 <= a <= t.len(),
    ensures
        a <= word_end(t, a) <= t.len(),
    decreases t.len() - a,
{
    if a < t.len() && !is_space(t[a]) {
        lemma_word_end_any(t, a + 1);
    }
}

/// Words are the same in a text that begins later.
proof fn lemma_words_shift(s: Seq<char>, t: Seq<char>, d: int, i: int)
    requires
        0 <= i <= t.len(),
        0 <= d,
        s.len() == t.len() + d,
        forall|k: int| 0 <= k < t.len() ==> s[k + d] == #[trigger] t[k],
    ensures
        words_from(s, i + d) == words_from(t, i),
    decreases t.len() - i,
{
    lemma_skip_shift(s, t, d, i);
    crate::words::lemma_skip_space(t, i);
    let a = skip_space(t, i);
    lemma_end_shift(s, t, d, a);
    let b = word_end(t, a);
    if a < t.len() {
        lemma_word_end(t, a);
        assert(s.subrange(a + d, b + d) =~= t.subrange(a, b)) by {
            assert forall|k: int| 0 <= k < b - a implies s.subrange(a + d, b + d)[k] == t.subrange(
                a,
                b,
            )[k] by {
                assert(s[(a + k) + d] == t[a + k]);
            }
        }
        lemma_words_shift(s, t, d, b);
    }
}

proof fn lemma_skip_shift(s: Seq<char>, t: Seq<char>, d: int, i: int)
    requires
        0 <= i <= t.len(),
        0 <= d,
        s.len() == t.len() + d,
        forall|k: int| 0 <= k < t.len() ==> s[k + d] == #[trigger] t[k],
    ensures
        skip_space(s, i + d) == skip_space(t, i) + d,
    decreases t.len() - i,
{
    if i < t.len() {
        assert(s[i + d] == t[i]);
        if is_space(t[i]) {
            lemma_skip_shift(s, t, d, i + 1);
        }
    }
}

proof fn lemma_end_shift(s: Seq<char>, t: Seq<char>, d: int, i: int)
    requires
        0 <= i <= t.len(),
        0 <= d,
        s.len() == t.len() + d,
        forall|k: int| 0 <= k < t.len() ==> s[k + d] == #[trigger] t[k],
    ensures
        word_end(s, i + d) == word_end(t, i) + d,
    decreases t.len() - i,
{
    if i < t.len() {
        assert(s[i + d] == t[i]);
        if !is_space(t[i]) {
            lemma_end_shift(s, t, d, i + 1);
        }
    }
}

// Numbers
/// Whole numbers are written in decimal, with a minus sign if they are negative.
pub proof fn law_numbers_are_written_in_decimal(n: int, d: int)
    requires
        0 <= n,
        0 <= d < 10,
    ensures
        nat_chars(d).len() == 1,
        nat_chars(d)[0] as u32 == 48 + d,
        n > 0 ==> nat_chars(10 * n + d) == nat_chars(n) + nat_chars(d),
        int_chars(n) == nat_chars(n),
        n > 0 ==> int_chars(-n) == seq!['-'] + nat_chars(n),
{
    if n > 0 {
        assert((10 * n + d) / 10 == n && (10 * n + d) % 10 == d);
        assert(nat_chars(10 * n + d) =~= nat_chars(n) + nat_chars(d));
    }
}

/// Digits are read in decimal; a sign may stand before them; what is too large
/// is no number.
pub proof fn law_digits_are_read_in_decimal(s: Seq<char>, c: char)
    requires
        forall|k: int| 0 <= k < s.len() ==> '0' <= #[trigger] s[k] && s[k] <= '9',
        '0' <= c,
        c <= '9',
    ensures
        digits_value(Seq::empty()) == 0,
        digits_value(s.push(c)) == 10 * digits_value(s) + (c as u32 - 48),
        int_value(s.push(c)) == Some(digits_value(s.push(c))),
        int_value(seq!['-'] + s.push(c)) == Some(-digits_value(s.push(c))),
        int_value(seq!['+'] + s.push(c)) == Some(digits_value(s.push(c))),
{
    let t = s.push(c);
    assert(t.drop_last() =~= s);
    assert(t[0] == if s.len() > 0 { s[0] } else { c });
    assert((seq!['-'] + t).drop_first() =~= t);
    assert((seq!['+'] + t).drop_first() =~= t);
    assert(all_digits(t)) by {
        assert forall|i: int| 0 <= i < t.len() implies crate::numbers::is_digit(#[trigger] t[i]) by {
            if i < s.len() {
                assert(t[i] == s[i]);
                assert('0' <= s[i] && s[i] <= '9');
            }
        }
    }
}

/// A number is taken where it fits into 32 bits with a sign.
pub proof fn law_numbers_fit(s: Seq<char>, v: int)
    ensures
        i32_value(s) == Some(v) <==> int_value(s) == Some(v) && -2147483648 <= v <= 2147483647,
        int_value(s) is Some ==> s.len() > 0 && forall|k: int|
            1 <= k < s.len() ==> '0' <= #[trigger] s[k] && s[k] <= '9',
{
    if int_value(s) is Some {
        assert forall|k: int| 1 <= k < s.len() implies '0' <= #[trigger] s[k] && s[k] <= '9' by {
            if s[0] == '-' || s[0] == '+' {
                assert(crate::numbers::is_digit(s.drop_first()[k - 1]));
            } else {
                assert(crate::numbers::is_digit(s[k]));
            }
        }
    }
}

/// White space around a text is left out, and nothing else.
pub proof fn law_trimming_leaves_out_white_space(c: char, s: Seq<char>)
    ensures
        is_space(c) ==> trimmed(seq![c] + s) == trimmed(s) && trimmed(s.push(c)) == trimmed(s),
        s.len() > 0 && !is_space(s[0]) && !is_space(s.last()) ==> trimmed(s) == s,
{
    if is_space(c) {
        assert((seq![c] + s).drop_first() =~= s);
        lemma_front_push(s, c);
    }
}

proof fn lemma_front_push(s: Seq<char>, c: char)
    requires
        is_space(c),
    ensures
        trimmed_back(trimmed_front(s.push(c))) == trimmed_back(trimmed_front(s)),
    decreases s.len(),
{
    let t = s.push(c);
    if s.len() == 0 {
        assert(t.drop_first() =~= Seq::<char>::empty());
        assert(s =~= Seq::<char>::empty());
    } else if is_space(s[0]) {
        assert(t.drop_first() =~= s.drop_first().push(c));
        lemma_front_push(s.drop_first(), c);
    } else {
        assert(t.drop_last() =~= s);
    }
}

/// Digits, with a point among or before them, and with an exponent, are a number.
pub proof fn law_decimals_are_numbers(
    a: Seq<char>,
    b: Seq<char>,
    e: Seq<char>,
)
    requires
        all_digits(a),
        all_digits(b),
        all_digits(e),
    ensures
        is_number(a),
        is_number(seq!['-'] + a),
        is_number(a + seq!['.'] + b),
        is_number(seq!['-'] + (a + seq!['.'] + b)),
        is_number(a + seq!['.'] + b + seq!['e'] + e),
        is_number(a + seq!['.'] + b + seq!['e', '-'] + e),
{
    lemma_digits_run(a, 0, a.len() as int);
    assert(is_decimal(a));
    lemma_sign(a);
    assert(crate::numbers::is_digit(a[0]));
    let s = a + seq!['.'] + b;
    lemma_fraction(a, b, Seq::empty());
    assert(s + Seq::<char>::empty() =~= s);
    lemma_sign(s);
    assert(s[0] == a[0]);
    let t = seq!['e'] + e;
    lemma_fraction(a, b, t);
    assert(s + t =~= s + seq!['e'] + e);
    let u = seq!['e', '-'] + e;
    lemma_fraction(a, b, u);
    assert(s + u =~= s + seq!['e', '-'] + e);
    assert((s + t)[0] == a[0]);
    assert((s + u)[0] == a[0]);
}

proof fn lemma_sign(d: Seq<char>)
    requires
        d.len() > 0,
        is_decimal(d),
    ensures
        is_number(seq!['-'] + d),
{
    assert((seq!['-'] + d).drop_first() =~= d);
}

proof fn lemma_digits_run(s: Seq<char>, i: int, j: int)
    requires
        0 <= i <= j <= s.len(),
        forall|k: int| i <= k < j ==> crate::numbers::is_digit(#[trigger] s[k]),
        j == s.len() || !crate::numbers::is_digit(s[j]),
    ensures
        digits_end(s, i) == j,
    decreases j - i,
{
    if i < j {
        assert(crate::numbers::is_digit(s[i]));
        lemma_digits_run(s, i + 1, j);
    }
}

proof fn lemma_fraction(a: Seq<char>, b: Seq<char>, t: Seq<char>)
    requires
        all_digits(a),
        all_digits(b),
        t.len() == 0 || (exists|e: Seq<char>| all_digits(e) && (t == seq!['e'] + e || t == seq![
            'e',
            '-',
        ] + e)),
    ensures
        is_decimal(a + seq!['.'] + b + t),
{
    let s = a + seq!['.'] + b + t;
    let i = a.len() as int;
    let j = i + 1 + b.len();
    assert forall|k: int| 0 <= k < i implies crate::numbers::is_digit(#[trigger] s[k]) by {
        assert(s[k] == a[k]);
    }
    assert(s[i] == '.');
    lemma_digits_run(s, 0, i);
    assert forall|k: int| i + 1 <= k < j implies crate::numbers::is_digit(#[trigger] s[k]) by {
        assert(s[k] == b[k - i - 1]);
    }
    if t.len() > 0 {
        assert(s[j] == t[0]);
    }
    lemma_digits_run(s, i + 1, j);
    if t.len() > 0 {
        let e = choose|e: Seq<char>| all_digits(e) && (t == seq!['e'] + e || t == seq!['e', '-'] + e);
        assert(s[j] == 'e');
        let k = if t == seq!['e'] + e {
            j + 1
        } else {
            j + 2
        };
        assert(crate::numbers::is_digit(e[0]));
        assert(s[j + 1] == t[1]);
        assert forall|m: int| k <= m < s.len() implies crate::numbers::is_digit(#[trigger] s[m]) by {
            assert(s[m] == t[m - j]);
            assert(crate::numbers::is_digit(e[m - k]));
        }
        if t == seq!['e'] + e {
            assert(s[j + 1] == e[0]);
        } else {
            assert(s[j + 1] == '-');
        }
        lemma_digits_run(s, k, s.len() as int);
        assert(power_ends(s, j));
    }
}

/// One of the digits may be missing on either side of a point; a plus sign may
/// stand in front; infinity and what is no number have names.
pub proof fn law_more_forms_are_numbers(a: Seq<char>)
    requires
        all_digits(a),
    ensures
        is_number(a + seq!['.']),
        is_number(seq!['.'] + a),
        is_number(seq!['+'] + a),
        is_number("inf"@),
        is_number("infinity"@),
        is_number("NaN"@),
        is_number(seq!['-'] + "inf"@),
        !is_number(Seq::empty()),
        !is_number(seq!['.']),
        !is_number(seq!['-']),
{
    let n = a.len() as int;
    assert(crate::numbers::is_digit(a[0]));
    lemma_digits_run(a, 0, n);
    let s = a + seq!['.'];
    assert forall|k: int| 0 <= k < n implies crate::numbers::is_digit(#[trigger] s[k]) by {
        assert(s[k] == a[k]);
    }
    assert(s[n] == '.');
    lemma_digits_run(s, 0, n);
    assert(digits_end(s, n + 1) == n + 1);
    assert(is_decimal(s));
    assert(s[0] == a[0]);
    let t = seq!['.'] + a;
    assert forall|k: int| 1 <= k < n + 1 implies crate::numbers::is_digit(#[trigger] t[k]) by {
        assert(t[k] == a[k - 1]);
    }
    assert(t[0] == '.');
    assert(digits_end(t, 0) == 0);
    lemma_digits_run(t, 1, n + 1);
    assert(is_decimal(t));
    assert((seq!['+'] + a).drop_first() =~= a);
    reveal_strlit("inf");
    reveal_strlit("infinity");
    reveal_strlit("nan");
    reveal_strlit("NaN");
    assert(crate::numbers::same_letters("inf"@, "inf"@));
    assert(crate::numbers::same_letters("infinity"@, "infinity"@));
    assert(crate::numbers::small('N') == 'n');
    assert(crate::numbers::same_letters("NaN"@, "nan"@)) by {
        assert forall|i: int| 0 <= i < 3 implies crate::numbers::small(#[trigger] "NaN"@[i])
            == "nan"@[i] by {
            assert(i == 0 || i == 1 || i == 2);
        }
    }
    assert((seq!['-'] + "inf"@).drop_first() =~= "inf"@);
    let e = Seq::<char>::empty();
    assert(digits_end(e, 0) == 0);
    assert(!is_decimal(e));
    let p = seq!['.'];
    assert(digits_end(p, 0) == 0);
    assert(digits_end(p, 1) == 1);
    assert(!is_decimal(p));
    let m = seq!['-'];
    assert(m.drop_first() =~= e);
}

/// A character that a number may hold: a digit, a sign, a point, or a letter of
/// an exponent or of the names for infinity and for what is no number.
pub open spec fn is_number_character(c: char) -> bool {
    ||| '0' <= c && c <= '9'
    ||| c == '+' || c == '-' || c == '.'
    ||| c == 'e' || c == 'E'
    ||| c == 'i' || c == 'I' || c == 'n' || c == 'N' || c == 'f' || c == 'F'
    ||| c == 't' || c == 'T' || c == 'y' || c == 'Y' || c == 'a' || c == 'A'
}

/// A number holds no other characters.
pub proof fn law_numbers_hold_no_other_characters(s: Seq<char>, k: int)
    requires
        is_number(s),
        0 <= k < s.len(),
    ensures
        is_number_character(s[k]),
{
    let d = if s.len() > 0 && (s[0] == '-' || s[0] == '+') {
        s.drop_first()
    } else {
        s
    };
    if k > 0 || d == s {
        let j = if d == s {
            k
        } else {
            k - 1
        };
        assert(d[j] == s[k]);
        if is_decimal(d) {
            lemma_decimal(d, j);
        } else {
            reveal_strlit("inf");
            reveal_strlit("infinity");
            reveal_strlit("nan");
            assert(crate::numbers::small(d[j]) == 'i' || crate::numbers::small(d[j]) == 'n'
                || crate::numbers::small(d[j]) == 'f' || crate::numbers::small(d[j]) == 't'
                || crate::numbers::small(d[j]) == 'y' || crate::numbers::small(d[j]) == 'a');
            lemma_small(d[j]);
        }
    }
}

proof fn lemma_small(c: char)
    requires
        ({
            let s = crate::numbers::small(c);
            s == 'i' || s == 'n' || s == 'f' || s == 't' || s == 'y' || s == 'a'
        }),
    ensures
        is_number_character(c),
{
    let s = crate::numbers::small(c);
    if 'A' <= c && c <= 'Z' {
        assert(s as u32 == c as u32 + 32);
        assert(s == 'i' ==> c as u32 == 'I' as u32);
        assert(s == 'n' ==> c as u32 == 'N' as u32);
        assert(s == 'f' ==> c as u32 == 'F' as u32);
        assert(s == 't' ==> c as u32 == 'T' as u32);
        assert(s == 'y' ==> c as u32 == 'Y' as u32);
        assert(s == 'a' ==> c as u32 == 'A' as u32);
    }
}

proof fn lemma_digits_are(s: Seq<char>, i: int, k: int)
    requires
        0 <= i <= k < digits_end(s, i),
    ensures
        k < s.len(),
        crate::numbers::is_digit(s[k]),
    decreases k - i,
{
    if i < k {
        lemma_digits_are(s, i + 1, k);
    }
}

proof fn lemma_digits_bound(s: Seq<char>, i: int)
    requires
        0 <= i <= s.len(),
    ensures
        i <= digits_end(s, i) <= s.len(),
    decreases s.len() - i,
{
    if i < s.len() && crate::numbers::is_digit(s[i]) {
        lemma_digits_bound(s, i + 1);
    }
}

proof fn lemma_power(s: Seq<char>, j: int, k: int)
    requires
        power_ends(s, j),
        0 <= j <= k < s.len(),
    ensures
        is_number_character(s[k]),
{
    let m = if j + 1 < s.len() && (s[j + 1] == '+' || s[j + 1] == '-') {
        j + 2
    } else {
        j + 1
    };
    if k >= m {
        lemma_digits_are(s, m, k);
    }
}

proof fn lemma_decimal(s: Seq<char>, k: int)
    requires
        is_decimal(s),
        0 <= k < s.len(),
    ensures
        is_number_character(s[k]),
{
    let i = digits_end(s, 0);
    lemma_digits_bound(s, 0);
    if k < i {
        lemma_digits_are(s, 0, k);
    } else if s[i] == '.' {
        let j = digits_end(s, i + 1);
        lemma_digits_bound(s, i + 1);
        if k > i && k < j {
            lemma_digits_are(s, i + 1, k);
        } else if k >= j {
            lemma_power(s, j, k);
        }
    } else {
        lemma_power(s, i, k);
    }
}

/// The place that says a property is the first one that does.
pub proof fn law_the_first_place_that_says_it(h: Seq<u8>, name: Seq<char>, v: Seq<char>)
    ensures
        match crate::property::saying_from(h, name, v, 0) {
            Some(i) => 0 <= i && spells(h, name, v, i) && forall|j: int|
                0 <= j < i ==> !#[trigger] spells(h, name, v, j),
            None => forall|j: int| 0 <= j ==> !#[trigger] spells(h, name, v, j),
        },
{
    let m = bytes_of("(property \""@ + name + "\" \""@);
    crate::property::lemma_saying(h, name, v, 0);
    assert forall|i: int| #[trigger] spells(h, name, v, i) == crate::property::says_at(
        h,
        name,
        v,
        i,
    ) by {
        lemma_stands(h, m, i);
    }
}

/// A quoted text ends at the first quote that no backslash stands before.
pub proof fn law_a_quoted_text_ends_at_its_quote(h: Seq<u8>, i: int)
    requires
        0 <= i,
    ensures
        i >= h.len() ==> value_end(h, i) is None,
        i < h.len() && h[i] == 34 ==> value_end(h, i) == Some(i),
        i < h.len() && h[i] == 92 ==> value_end(h, i) == value_end(h, i + 2),
        i < h.len() && h[i] != 34 && h[i] != 92 ==> value_end(h, i) == value_end(h, i + 1),
{
}

/// A text without an identity, or with one that is never closed, stays as it is.
pub proof fn law_a_text_without_identities_stays(h: Seq<u8>, fresh: Seq<Seq<char>>, k: int, i: int)
    ensures
        (forall|j: int| !#[trigger] stands(h, bytes_of("(uuid \""@), j)) ==> with_uuids(h, fresh, k)
            == h && uuids(h).len() == 0,
        0 <= i && stands(h, bytes_of("(uuid \""@), i) && (forall|j: int|
            0 <= j < i ==> !#[trigger] stands(h, bytes_of("(uuid \""@), j)) && (forall|j: int|
            i + 7 <= j < h.len() ==> h[j] != 34) ==> with_uuids(h, fresh, k) == h && uuids(h).len()
            == 0,
{
    let m = bytes_of("(uuid \""@);
    let q = bytes_of("\""@);
    reveal_strlit("(uuid \"");
    reveal_strlit("\"");
    is_ascii_chars_encode_utf8("(uuid \""@);
    is_ascii_chars_encode_utf8("\""@);
    assert(q =~= seq![34u8]);
    assert(m.len() == 7);
    law_search_finds_the_first(h, m, 0);
    if let Some(j) = find_at(h, m, 0) {
        assert(stands(h, m, j));
    }
    if 0 <= i {
        lemma_find(h, q, i + 7);
        if let Some(j) = find_at(h, q, i + 7) {
            assert(h.subrange(j, j + 1)[0] == h[j]);
        }
    }
}

} // verus!
