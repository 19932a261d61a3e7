//! Reading whole numbers.
use crate::words::{chars_of, digit_char, int_chars, is_space, nat_chars, space};
use vstd::prelude::*;
use vstd::string::*;

verus! {

// Trimming
/// The text without the white space at its front.
pub open spec fn trimmed_front(s: Seq<char>) -> Seq<char>
    decreases s.len(),
{
    if s.len() > 0 && is_space(s[0]) {
        trimmed_front(s.drop_first())
    } else {
        s
    }
}

/// The text without the white space at its end.
pub open spec fn trimmed_back(s: Seq<char>) -> Seq<char>
    decreases s.len(),
{
    if s.len() > 0 && is_space(s.last()) {
        trimmed_back(s.drop_last())
    } else {
        s
    }
}

/// The text without the white space around it.
pub open spec fn trimmed(s: Seq<char>) -> Seq<char> {
    trimmed_back(trimmed_front(s))
}

/// The text without the white space around it.
pub fn trim(s: &str) -> (r: &str)
    ensures
        r@ == trimmed(s@),
{
    let cs: Vec<char> = chars_of(s);
    let n: usize = cs.len();
    let ghost t = s@;
    let mut a: usize = 0;
    assert(t.subrange(0, n as int) =~= t);
    while a < n && space(cs[a])
        invariant
            cs@ == t,
            n == t.len(),
            a <= n,
            trimmed_front(t) == trimmed_front(t.subrange(a as int, n as int)),
        decreases n - a,
    {
        assert(t.subrange(a as int, n as int).drop_first() =~= t.subrange(a + 1, n as int));
        a = a + 1;
    }
    let ghost u = trimmed_front(t);
    assert(u == t.subrange(a as int, n as int));
    let mut b: usize = n;
    while b > a && space(cs[b - 1])
        invariant
            cs@ == t,
            n == t.len(),
            a <= b <= n,
            trimmed_back(u) == trimmed_back(t.subrange(a as int, b as int)),
        decreases b,
    {
        assert(t.subrange(a as int, b as int).drop_last() =~= t.subrange(a as int, b - 1));
        b = b - 1;
    }
    s.substring_char(a, b)
}

// Reading
/// A decimal digit.
pub open spec fn is_digit(c: char) -> bool {
    '0' <= c && c <= '9'
}

/// All characters are decimal digits, and there is one.
pub open spec fn all_digits(s: Seq<char>) -> bool {
    &&& s.len() > 0
    &&& forall|i: int| 0 <= i < s.len() ==> is_digit(#[trigger] s[i])
}

/// What digits are worth.
pub open spec fn digits_value(s: Seq<char>) -> int
    decreases s.len(),
{
    if s.len() == 0 {
        0
    } else {
        digits_value(s.drop_last()) * 10 + (s.last() as u32 - 48)
    }
}

/// The whole number that a text says: digits, after at most one sign.
pub open spec fn int_value(s: Seq<char>) -> Option<int> {
    if s.len() > 0 && (s[0] == '-' || s[0] == '+') {
        let d = s.drop_first();
        if all_digits(d) {
            Some(
                if s[0] == '-' {
                    -digits_value(d)
                } else {
                    digits_value(d)
                },
            )
        } else {
            None
        }
    } else if all_digits(s) {
        Some(digits_value(s))
    } else {
        None
    }
}

/// The number that a text says, if it is one of 32 bits.
pub open spec fn i32_value(s: Seq<char>) -> Option<int> {
    match int_value(s) {
        Some(v) => if i32::MIN <= v <= i32::MAX {
            Some(v)
        } else {
            None
        },
        None => None,
    }
}

/// Digits at the front are worth no more than all of them.
proof fn lemma_digits_grow(s: Seq<char>, k: int)
    requires
        0 <= k <= s.len(),
        forall|i: int| 0 <= i < s.len() ==> is_digit(#[trigger] s[i]),
    ensures
        0 <= digits_value(s.take(k)) <= digits_value(s),
    decreases s.len(),
{
    if k == s.len() {
        assert(s.take(k) =~= s);
        if s.len() > 0 {
            lemma_digits_grow(s.drop_last(), k - 1);
            lemma_digits_grow(s.drop_last(), 0);
            assert(s.drop_last().take(k - 1) =~= s.drop_last());
            assert(is_digit(s[s.len() - 1]));
        }
    } else {
        lemma_digits_grow(s.drop_last(), k);
        assert(s.drop_last().take(k) =~= s.take(k));
        assert(is_digit(s[s.len() - 1]));
        lemma_digits_grow(s.drop_last(), 0);
    }
}

/// The value of digits, as far as it is at most 2147483648.
fn small_digits(cs: &Vec<char>, from: usize) -> (r: Option<i64>)
    requires
        from <= cs@.len(),
    ensures
        ({
            let d = cs@.subrange(from as int, cs@.len() as int);
            match r {
                Some(v) => all_digits(d) && v == digits_value(d) && 0 <= v <= 2147483648,
                None => !all_digits(d) || digits_value(d) > 2147483648,
            }
        }),
{
    let n: usize = cs.len();
    let ghost d = cs@.subrange(from as int, n as int);
    if from == n {
        return None;
    }
    let mut v: i64 = 0;
    let mut i: usize = from;
    assert(d.take(0) =~= Seq::<char>::empty());
    while i < n
        invariant
            n == cs@.len(),
            from <= i <= n,
            d == cs@.subrange(from as int, n as int),
            0 <= v <= 2147483648,
            v == digits_value(d.take(i - from)),
            forall|k: int| 0 <= k < i - from ==> is_digit(#[trigger] d[k]),
        decreases n - i,
    {
        let c: char = cs[i];
        let ghost k = i - from;
        assert(d[k] == c);
        if !('0' <= c && c <= '9') {
            assert(!is_digit(d[k]));
            return None;
        }
        let x: i64 = v * 10 + (c as u32 as i64 - 48);
        assert(d.take(k + 1).drop_last() =~= d.take(k));
        assert(x == digits_value(d.take(k + 1)));
        if x > 2147483648 {
            proof {
                if all_digits(d) {
                    lemma_digits_grow(d, k + 1);
                }
            }
            return None;
        }
        v = x;
        i = i + 1;
    }
    assert(d.take(n - from) =~= d);
    Some(v)
}

/// Read a whole number of 32 bits: digits, after at most one sign, and nothing
/// else.
pub fn parse_i32(s: &str) -> (r: Option<i32>)
    ensures
        match r {
            Some(v) => i32_value(s@) == Some(v as int),
            None => i32_value(s@) is None,
        },
{
    let cs: Vec<char> = chars_of(s);
    if cs.len() > 0 && (cs[0] == '-' || cs[0] == '+') {
        assert(cs@.subrange(1, cs@.len() as int) =~= s@.drop_first());
        match small_digits(&cs, 1) {
            Some(v) => {
                if cs[0] == '-' {
                    Some((-v) as i32)
                } else if v <= 2147483647 {
                    Some(v as i32)
                } else {
                    None
                }
            },
            None => None,
        }
    } else {
        assert(cs@.subrange(0, cs@.len() as int) =~= s@);
        match small_digits(&cs, 0) {
            Some(v) => if v <= 2147483647 {
                Some(v as i32)
            } else {
                None
            },
            None => None,
        }
    }
}

// Decimal fractions
/// Where the digits from `i` on end.
pub open spec fn digits_end(s: Seq<char>, i: int) -> int
    decreases s.len() - i,
{
    if 0 <= i < s.len() && is_digit(s[i]) {
        digits_end(s, i + 1)
    } else {
        i
    }
}

/// The power of ten at `j`, or nothing, ends the text.
pub open spec fn power_ends(s: Seq<char>, j: int) -> bool {
    ||| j == s.len()
    ||| {
        let k = if j + 1 < s.len() && (s[j + 1] == '+' || s[j + 1] == '-') {
            j + 2
        } else {
            j + 1
        };
        (s[j] == 'e' || s[j] == 'E') && k < s.len() && digits_end(s, k) == s.len()
    }
}

/// Digits with or without a point among them, at least one of them, and a power
/// of ten behind them or none.
pub open spec fn is_decimal(s: Seq<char>) -> bool {
    let i = digits_end(s, 0);
    if i < s.len() && s[i] == '.' {
        let j = digits_end(s, i + 1);
        (i > 0 || j > i + 1) && power_ends(s, j)
    } else {
        i > 0 && power_ends(s, i)
    }
}

/// A letter as a small one.
pub open spec fn small(c: char) -> char {
    if 'A' <= c && c <= 'Z' {
        (c as u32 + 32) as char
    } else {
        c
    }
}

/// The texts are the same but for capitals.
pub open spec fn same_letters(s: Seq<char>, t: Seq<char>) -> bool {
    &&& s.len() == t.len()
    &&& forall|i: int| 0 <= i < s.len() ==> small(#[trigger] s[i]) == t[i]
}

/// The text says a number that is not only a whole one: a decimal fraction,
/// infinity or no number at all, after at most one sign.
pub open spec fn is_number(s: Seq<char>) -> bool {
    let d = if s.len() > 0 && (s[0] == '-' || s[0] == '+') {
        s.drop_first()
    } else {
        s
    };
    is_decimal(d) || same_letters(d, "inf"@) || same_letters(d, "infinity"@) || same_letters(
        d,
        "nan"@,
    )
}

fn skip_digits(cs: &Vec<char>, i: usize) -> (r: usize)
    requires
        i <= cs@.len(),
    ensures
        r == digits_end(cs@, i as int),
        i <= r <= cs@.len(),
{
    let n: usize = cs.len();
    let mut j: usize = i;
    while j < n && '0' <= cs[j] && cs[j] <= '9'
        invariant
            n == cs@.len(),
            i <= j <= n,
            digits_end(cs@, i as int) == digits_end(cs@, j as int),
        decreases n - j,
    {
        j = j + 1;
    }
    j
}

fn is_power_end(cs: &Vec<char>, j: usize) -> (r: bool)
    requires
        j <= cs@.len(),
    ensures
        r == power_ends(cs@, j as int),
{
    let n: usize = cs.len();
    if j == n {
        return true;
    }
    let k: usize = if n - j > 1 && (cs[j + 1] == '+' || cs[j + 1] == '-') {
        j + 2
    } else {
        j + 1
    };
    (cs[j] == 'e' || cs[j] == 'E') && k < n && skip_digits(cs, k) == n
}

fn decimal(cs: &Vec<char>) -> (r: bool)
    ensures
        r == is_decimal(cs@),
{
    let n: usize = cs.len();
    let i: usize = skip_digits(cs, 0);
    if i < n && cs[i] == '.' {
        let j: usize = skip_digits(cs, i + 1);
        (i > 0 || j > i + 1) && is_power_end(cs, j)
    } else {
        i > 0 && is_power_end(cs, i)
    }
}

fn small_letter(c: char) -> (r: char)
    ensures
        r == small(c),
{
    if 'A' <= c && c <= 'Z' {
        (c as u8 + 32) as char
    } else {
        c
    }
}

fn same_but_capitals(cs: &Vec<char>, t: &str) -> (r: bool)
    ensures
        r == same_letters(cs@, t@),
{
    let ts: Vec<char> = chars_of(t);
    if cs.len() != ts.len() {
        return false;
    }
    let mut k: usize = 0;
    while k < cs.len()
        invariant
            ts@ == t@,
            cs@.len() == ts@.len(),
            k <= cs@.len(),
            forall|i: int| 0 <= i < k ==> small(#[trigger] cs@[i]) == t@[i],
        decreases cs@.len() - k,
    {
        if small_letter(cs[k]) != ts[k] {
            assert(small(cs@[k as int]) != t@[k as int]);
            return false;
        }
        k = k + 1;
    }
    true
}

/// The text says a number, as `f64` reads it.
pub fn reads_as_number(s: &str) -> (r: bool)
    ensures
        r == is_number(s@),
{
    let all: Vec<char> = chars_of(s);
    let mut cs: Vec<char> = Vec::new();
    let from: usize = if all.len() > 0 && (all[0] == '-' || all[0] == '+') {
        1
    } else {
        0
    };
    let mut k: usize = from;
    while k < all.len()
        invariant
            all@ == s@,
            from <= k <= all@.len(),
            cs@ == all@.subrange(from as int, k as int),
        decreases all@.len() - k,
    {
        cs.push(all[k]);
        assert(all@.subrange(from as int, k + 1) =~= all@.subrange(from as int, k as int).push(
            all@[k as int],
        ));
        k = k + 1;
    }
    assert(from == 1 ==> cs@ =~= s@.drop_first());
    assert(from == 0 ==> cs@ =~= s@);
    decimal(&cs) || same_but_capitals(&cs, "inf") || same_but_capitals(&cs, "infinity")
        || same_but_capitals(&cs, "nan")
}

// Laws
/// A printed number consists of digits and is worth what was printed.
pub proof fn lemma_nat_chars(n: int)
    requires
        0 <= n,
    ensures
        all_digits(nat_chars(n)),
        digits_value(nat_chars(n)) == n,
    decreases n,
{
    if n < 10 {
        let s = nat_chars(n);
        assert(s =~= seq![digit_char(n)]);
        assert(s.drop_last() =~= Seq::<char>::empty());
        assert(digits_value(s.drop_last()) == 0);
        assert(s.last() == digit_char(n));
    } else {
        lemma_nat_chars(n / 10);
        let s = nat_chars(n);
        assert(s.drop_last() =~= nat_chars(n / 10));
        assert(s.last() == digit_char(n % 10));
        assert forall|i: int| 0 <= i < s.len() implies is_digit(#[trigger] s[i]) by {
            if i < s.len() - 1 {
                assert(s[i] == nat_chars(n / 10)[i]);
            }
        }
    }
}

/// A number that was printed reads back, with white space around it or not.
pub proof fn law_int_reads_back(i: int)
    requires
        i32::MIN <= i <= i32::MAX,
    ensures
        i32_value(int_chars(i)) == Some(i),
        trimmed(int_chars(i)) == int_chars(i),
{
    let s = int_chars(i);
    if i < 0 {
        lemma_nat_chars(-i);
        assert(s.drop_first() =~= nat_chars(-i));
        assert(s.last() == nat_chars(-i).last());
        assert(is_digit(nat_chars(-i)[nat_chars(-i).len() - 1]));
    } else {
        lemma_nat_chars(i);
        assert(is_digit(s[0]));
        assert(is_digit(s[s.len() - 1]));
    }
    assert(!is_space(s[0]));
    assert(!is_space(s.last()));
}

} // verus!
