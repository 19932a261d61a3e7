//! Heads, words and numbers inside a piece of text.
use crate::text::same;
use vstd::prelude::*;
use vstd::string::*;

verus! {

/// White space, as Unicode defines the property.
pub open spec fn is_space(c: char) -> bool {
    let u = c as u32;
    ||| 9 <= u <= 13
    ||| u == 32
    ||| u == 0x85
    ||| u == 0xA0
    ||| u == 0x1680
    ||| 0x2000 <= u <= 0x200A
    ||| u == 0x2028
    ||| u == 0x2029
    ||| u == 0x202F
    ||| u == 0x205F
    ||| u == 0x3000
}

/// Whether a character is white space.
pub fn space(c: char) -> (r: bool)
    ensures
        r == is_space(c),
{
    let u: u32 = c as u32;
    (9 <= u && u <= 13) || u == 32 || u == 0x85 || u == 0xA0 || u == 0x1680 || (0x2000 <= u && u
        <= 0x200A) || u == 0x2028 || u == 0x2029 || u == 0x202F || u == 0x205F || u == 0x3000
}

/// A character that cannot belong to the head of a list.
pub open spec fn ends_head(c: char) -> bool {
    is_space(c) || c == '(' || c == ')' || c == '"'
}

/// Where the head that runs from `i` on ends.
pub open spec fn head_end(s: Seq<char>, i: int) -> int
    decreases s.len() - i,
{
    if i >= s.len() {
        s.len() as int
    } else if ends_head(s[i]) {
        i
    } else {
        head_end(s, i + 1)
    }
}

/// The head of `(head ...)`: what follows the first character, up to white
/// space, a parenthesis or a quote.
pub open spec fn head_of(s: Seq<char>) -> Seq<char> {
    s.subrange(1, head_end(s, 1))
}

/// The head token of a `(head ...)` s-expression string.
pub fn node_head(node: &str) -> (r: &str)
    requires
        node@.len() > 0,
        (node@[0] as u32) < 128,
    ensures
        r@ == head_of(node@),
{
    let mut i: usize = 0;
    let mut end: Option<usize> = None;
    let n: usize = node.unicode_len();
    for c in it: node.chars()
        invariant
            n == node@.len(),
            it.seq() == node@,
            i == it.index(),
            match end {
                None => i >= 1 ==> head_end(node@, 1) == head_end(node@, i as int),
                Some(e) => 1 <= e <= n && e == head_end(node@, 1),
            },
    {
        if i >= 1 && end.is_none() && (space(c) || c == '(' || c == ')' || c == '"') {
            end = Some(i);
        }
        i = i + 1;
    }
    let e: usize = match end {
        Some(e) => e,
        None => n,
    };
    node.substring_char(1, e)
}

/// The strings of a list.
pub open spec fn strings_of(v: Seq<String>) -> Seq<Seq<char>> {
    v.map_values(|s: String| s@)
}

/// The characters of a string, one after the other.
pub fn chars_of(s: &str) -> (v: Vec<char>)
    ensures
        v@ == s@,
{
    let mut v: Vec<char> = Vec::new();
    for c in it: s.chars()
        invariant
            it.seq() == s@,
            v@ == s@.take(it.index() as int),
    {
        v.push(c);
        assert(v@ =~= s@.take(it.index() + 1));
    }
    assert(v@ =~= s@);
    v
}

/// The first place, `i` or later, that is not white space.
pub open spec fn skip_space(s: Seq<char>, i: int) -> int
    decreases s.len() - i,
{
    if i >= s.len() {
        s.len() as int
    } else if is_space(s[i]) {
        skip_space(s, i + 1)
    } else {
        i
    }
}

/// The first place, `i` or later, that is white space.
pub open spec fn word_end(s: Seq<char>, i: int) -> int
    decreases s.len() - i,
{
    if i >= s.len() {
        s.len() as int
    } else if is_space(s[i]) {
        i
    } else {
        word_end(s, i + 1)
    }
}

pub proof fn lemma_skip_space(s: Seq<char>, i: int)
    requires
        i <= s.len(),
    ensures
        i <= skip_space(s, i) <= s.len(),
        skip_space(s, i) < s.len() ==> !is_space(s[skip_space(s, i)]),
    decreases s.len() - i,
{
    if i < s.len() && is_space(s[i]) {
        lemma_skip_space(s, i + 1);
    }
}

pub proof fn lemma_word_end(s: Seq<char>, i: int)
    requires
        i <= s.len(),
    ensures
        i <= word_end(s, i) <= s.len(),
        i < s.len() && !is_space(s[i]) ==> i < word_end(s, i),
    decreases s.len() - i,
{
    if i < s.len() && !is_space(s[i]) {
        lemma_word_end(s, i + 1);
    }
}

/// The words from `i` on: the longest runs without white space.
pub open spec fn words_from(s: Seq<char>, i: int) -> Seq<Seq<char>>
    decreases s.len() - i,
{
    let a = skip_space(s, i);
    let b = word_end(s, a);
    if a >= s.len() || !(0 <= i < b <= s.len()) {
        seq![]
    } else {
        seq![s.subrange(a, b)] + words_from(s, b)
    }
}

/// The words of a text.
pub open spec fn words_of(s: Seq<char>) -> Seq<Seq<char>> {
    words_from(s, 0)
}

/// The words of a text.
pub fn words(s: &str) -> (v: Vec<String>)
    ensures
        strings_of(v@) == words_of(s@),
{
    let cs: Vec<char> = chars_of(s);
    let n: usize = cs.len();
    let mut v: Vec<String> = Vec::new();
    let mut i: usize = 0;
    assert(strings_of(v@) + words_from(s@, 0) =~= words_from(s@, 0));
    loop
        invariant_except_break
            strings_of(v@) + words_from(s@, i as int) == words_of(s@),
        invariant
            cs@ == s@,
            n == s@.len(),
            i <= n,
        ensures
            strings_of(v@) == words_of(s@),
        decreases n - i,
    {
        let ghost i0 = i as int;
        let mut a: usize = i;
        while a < n && space(cs[a])
            invariant
                cs@ == s@,
                n == s@.len(),
                i0 <= a <= n,
                skip_space(s@, i0) == skip_space(s@, a as int),
            decreases n - a,
        {
            a = a + 1;
        }
        if a == n {
            assert(words_from(s@, i0) =~= seq![]);
            break;
        }
        let mut b: usize = a;
        while b < n && !space(cs[b])
            invariant
                cs@ == s@,
                n == s@.len(),
                a <= b <= n,
                word_end(s@, a as int) == word_end(s@, b as int),
            decreases n - b,
        {
            b = b + 1;
        }
        proof {
            lemma_word_end(s@, a as int);
        }
        let ghost before = strings_of(v@);
        let w: &str = s.substring_char(a, b);
        v.push(w.to_owned());
        proof {
            assert(strings_of(v@) =~= before + seq![s@.subrange(a as int, b as int)]);
            assert(strings_of(v@) + words_from(s@, b as int) =~= before + words_from(s@, i0));
        }
        i = b;
    }
    v
}

/// The decimal digit `d`.
pub open spec fn digit_char(d: int) -> char {
    (48 + d) as char
}

/// A number in decimal digits.
pub open spec fn nat_chars(n: int) -> Seq<char>
    decreases n,
{
    if n < 10 {
        seq![digit_char(n)]
    } else {
        nat_chars(n / 10).push(digit_char(n % 10))
    }
}

/// A whole number as it is printed.
pub open spec fn int_chars(i: int) -> Seq<char> {
    if i < 0 {
        seq!['-'] + nat_chars(-i)
    } else {
        nat_chars(i)
    }
}

fn digit_text(d: u64) -> (r: &'static str)
    requires
        d < 10,
    ensures
        r@ == seq![digit_char(d as int)],
{
    proof {
        reveal_strlit("0");
        reveal_strlit("1");
        reveal_strlit("2");
        reveal_strlit("3");
        reveal_strlit("4");
        reveal_strlit("5");
        reveal_strlit("6");
        reveal_strlit("7");
        reveal_strlit("8");
        reveal_strlit("9");
    }
    let r: &'static str = if d == 0 {
        "0"
    } else if d == 1 {
        "1"
    } else if d == 2 {
        "2"
    } else if d == 3 {
        "3"
    } else if d == 4 {
        "4"
    } else if d == 5 {
        "5"
    } else if d == 6 {
        "6"
    } else if d == 7 {
        "7"
    } else if d == 8 {
        "8"
    } else {
        "9"
    };
    assert(r@ =~= seq![digit_char(d as int)]);
    r
}

/// A number in decimal digits.
pub fn nat_text(n: u64) -> (r: String)
    ensures
        r@ == nat_chars(n as int),
    decreases n,
{
    if n < 10 {
        digit_text(n).to_owned()
    } else {
        let mut r: String = nat_text(n / 10);
        let ghost before = r@;
        r.append(digit_text(n % 10));
        assert(r@ =~= before.push(digit_char((n % 10) as int)));
        r
    }
}

/// A whole number as it is printed.
pub fn int_text(i: i32) -> (r: String)
    ensures
        r@ == int_chars(i as int),
{
    if i < 0 {
        let mut r: String = "-".to_owned();
        proof {
            reveal_strlit("-");
            assert("-"@ =~= seq!['-']);
        }
        let m: i64 = -(i as i64);
        let d: String = nat_text(m as u64);
        r.append(d.as_str());
        r
    } else {
        nat_text(i as u64)
    }
}

// Words that are known
/// A word: it is not empty, and nothing in it ends it.
pub open spec fn is_word(s: Seq<char>) -> bool {
    s.len() > 0 && forall|k: int| 0 <= k < s.len() ==> !ends_head(#[trigger] s[k])
}

pub proof fn lemma_word_end_is(s: Seq<char>, a: int, b: int)
    requires
        0 <= a <= b <= s.len(),
        forall|k: int| a <= k < b ==> !is_space(#[trigger] s[k]),
        b == s.len() || is_space(s[b]),
    ensures
        word_end(s, a) == b,
    decreases b - a,
{
    if a < b {
        lemma_word_end_is(s, a + 1, b);
    }
}

pub proof fn lemma_next_word(s: Seq<char>, i: int, w: Seq<char>)
    requires
        0 <= i,
        i + 1 + w.len() <= s.len(),
        is_space(s[i]),
        is_word(w),
        s.subrange(i + 1, i + 1 + w.len()) == w,
        i + 1 + w.len() == s.len() || is_space(s[i + 1 + w.len()]),
    ensures
        words_from(s, i) == seq![w] + words_from(s, i + 1 + w.len()),
{
    let b = i + 1 + w.len();
    assert forall|k: int| i + 1 <= k < b implies !is_space(#[trigger] s[k]) by {
        assert(s[k] == s.subrange(i + 1, b)[k - i - 1]);
        assert(!ends_head(w[k - i - 1]));
    }
    assert(!is_space(s[i + 1]));
    assert(skip_space(s, i + 1) == i + 1);
    assert(skip_space(s, i) == i + 1);
    lemma_word_end_is(s, i + 1, b);
}

// Lists of texts
/// The first place, `k` or later, of a text in a list.
pub open spec fn index_from(v: Seq<Seq<char>>, s: Seq<char>, k: int) -> Option<int>
    decreases v.len() - k,
{
    if k < 0 || k >= v.len() {
        None
    } else if v[k] == s {
        Some(k)
    } else {
        index_from(v, s, k + 1)
    }
}

/// The first place of a text in a list.
pub fn index_of(v: &Vec<String>, s: &str) -> (r: Option<usize>)
    ensures
        match r {
            Some(i) => i < v@.len() && index_from(strings_of(v@), s@, 0) == Some(i as int),
            None => index_from(strings_of(v@), s@, 0) is None,
        },
{
    let ghost all = strings_of(v@);
    let mut k: usize = 0;
    while k < v.len()
        invariant
            all == strings_of(v@),
            k <= v@.len(),
            index_from(all, s@, 0) == index_from(all, s@, k as int),
        decreases v@.len() - k,
    {
        assert(all[k as int] == v@[k as int]@);
        if same(v[k].as_str(), s) {
            return Some(k);
        }
        k = k + 1;
    }
    None
}

} // verus!
