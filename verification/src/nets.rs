//! Nets of a board: their numbers and how they are declared.
use crate::answer::{error_answer, CallToolResult};
use crate::board::{append_to_board, close_of, inserted, lemma_close_of};
use crate::numbers::{
    i32_value, is_digit, law_int_reads_back, lemma_nat_chars, parse_i32, trim, trimmed,
};
use crate::text::{
    byte_len, bytes_of, cut, find_at, find_from, lemma_bytes_concat, lemma_bytes_valid,
    lemma_cut_ascii, lemma_find, lemma_no_byte, lemma_occurs_cut, lemma_rfind, lemma_text_of,
    occurs_at, rfind_at, rfind_within, slice, text_of,
};
use crate::words::{int_chars, int_text, nat_chars};
use vstd::prelude::*;
use vstd::string::*;
use vstd::utf8::*;

verus! {

// Net numbers
/// What follows the number of a net in its declaration.
pub open spec fn net_search(name: Seq<char>) -> Seq<char> {
    " \""@ + name + "\")"@
}

/// The number that stands between the last `(net ` before `pos` and `pos`.
pub open spec fn number_before(h: Seq<u8>, pos: int) -> Option<int> {
    match rfind_at(h, bytes_of("(net "@), pos - bytes_of("(net "@).len()) {
        None => None,
        Some(p) => i32_value(trimmed(text_of(h.subrange(p + bytes_of("(net "@).len(), pos)))),
    }
}

/// The number of the first declaration `(net <number> "name")` whose name stands
/// behind `from`. The name in another node declares nothing.
pub open spec fn declared_from(h: Seq<u8>, name: Seq<char>, from: int) -> Option<int>
    decreases h.len() - from,
{
    match find_at(h, bytes_of(net_search(name)), from) {
        None => None,
        Some(pos) => match number_before(h, pos) {
            Some(v) => Some(v),
            None => if 0 <= from <= pos < h.len() {
                declared_from(h, name, pos + 1)
            } else {
                None
            },
        },
    }
}

/// The number that the board declares for the net `name`.
pub open spec fn declared_net(h: Seq<u8>, name: Seq<char>) -> Option<int> {
    declared_from(h, name, 0)
}

/// The number of the net `name`; 0 where the board declares no such net.
pub open spec fn net_id(h: Seq<u8>, name: Seq<char>) -> int {
    match declared_net(h, name) {
        Some(v) => v,
        None => 0,
    }
}

proof fn lemma_net_mark()
    ensures
        bytes_of("(net "@) == seq![40u8, 110u8, 101u8, 116u8, 32u8],
        valid_utf8(bytes_of("(net "@)),
{
    reveal_strlit("(net ");
    is_ascii_chars_encode_utf8("(net "@);
    lemma_bytes_valid("(net "@);
    assert(bytes_of("(net "@) =~= seq![40u8, 110u8, 101u8, 116u8, 32u8]);
}

proof fn lemma_net_search(name: Seq<char>)
    ensures
        bytes_of(net_search(name)).len() >= 2,
        bytes_of(net_search(name))[0] == 32,
        bytes_of(net_search(name))[1] == 34,
        valid_utf8(bytes_of(net_search(name))),
{
    reveal_strlit(" \"");
    is_ascii_chars_encode_utf8(" \""@);
    lemma_bytes_valid(net_search(name));
    assert(net_search(name) =~= " \""@ + (name + "\")"@));
    lemma_bytes_concat(" \""@, name + "\")"@);
    assert(bytes_of(" \""@)[0] == " \""@[0] as u8);
    assert(bytes_of(" \""@)[1] == " \""@[1] as u8);
}

/// The number that stands between the last `(net ` before `pos` and `pos`.
fn find_number_before(content: &str, pos: usize) -> (r: Option<i32>)
    requires
        cut(bytes_of(content@), pos as int),
    ensures
        opt_number(r) == number_before(bytes_of(content@), pos as int),
{
    let ghost h = bytes_of(content@);
    proof {
        lemma_bytes_valid(content@);
        lemma_net_mark();
        lemma_rfind(h, bytes_of("(net "@), pos - 5);
    }
    match rfind_within(content, "(net ", pos) {
        Some(p) => {
            proof {
                lemma_occurs_cut(h, bytes_of("(net "@), p as int);
            }
            parse_i32(trim(slice(content, p + 5, pos)))
        },
        None => None,
    }
}

pub open spec fn opt_number(r: Option<i32>) -> Option<int> {
    match r {
        Some(v) => Some(v as int),
        None => None,
    }
}

/// The number that a board file declares for the net `net_name`.
fn find_declared_net(content: &str, net_name: &str) -> (r: Option<i32>)
    ensures
        opt_number(r) == declared_net(bytes_of(content@), net_name@),
{
    let ghost h = bytes_of(content@);
    let search: String = " \"".to_owned().concat(net_name).concat("\")");
    let ghost q = bytes_of(search@);
    proof {
        lemma_bytes_valid(content@);
        lemma_net_search(net_name@);
    }
    let n: usize = byte_len(content);
    let mut from: usize = 0;
    loop
        invariant
            n == h.len(),
            h == bytes_of(content@),
            q == bytes_of(search@),
            search@ == net_search(net_name@),
            valid_utf8(h),
            valid_utf8(q),
            q.len() >= 2,
            q[0] == 32,
            from <= n,
            declared_net(h, net_name@) == declared_from(h, net_name@, from as int),
        decreases n - from,
    {
        proof {
            lemma_find(h, q, from as int);
        }
        match find_from(content, search.as_str(), from) {
            None => {
                return None;
            },
            Some(pos) => {
                proof {
                    lemma_occurs_cut(h, q, pos as int);
                    assert(h.subrange(pos as int, pos + q.len())[0] == h[pos as int]);
                    lemma_cut_ascii(h, pos as int);
                }
                match find_number_before(content, pos) {
                    Some(v) => {
                        return Some(v);
                    },
                    None => {
                        from = pos + 1;
                    },
                }
            },
        }
    }
}

/// The number of the net `net_name` in a board file, 0 if it has none.
pub fn find_net_id(content: &str, net_name: &str) -> (r: i32)
    ensures
        r == net_id(bytes_of(content@), net_name@),
{
    match find_declared_net(content, net_name) {
        Some(v) => v,
        None => 0,
    }
}

/// What is said of a net that a board does not have.
pub open spec fn net_missing(name: Seq<char>) -> Seq<char> {
    "Net '"@ + name + "' not found in the board file. Add it first with add_net."@
}

/// The net is missing: it has a name, and the board does not declare it.
pub open spec fn lacks_net(h: Seq<u8>, name: Seq<char>) -> bool {
    declared_net(h, name) is None && name.len() > 0
}

/// Resolve a net name to its file net id, erroring (with a hint) when the net
/// doesn't exist: inserting copper with a wrong net id corrupts connectivity.
pub fn require_file_net_id(content: &str, net_name: &str) -> (r: Result<i32, CallToolResult>)
    ensures
        match r {
            Ok(id) => id == net_id(bytes_of(content@), net_name@) && !lacks_net(
                bytes_of(content@),
                net_name@,
            ),
            Err(e) => e@ == error_answer(net_missing(net_name@)) && lacks_net(
                bytes_of(content@),
                net_name@,
            ),
        },
{
    match find_declared_net(content, net_name) {
        Some(id) => Ok(id),
        None => if net_name.unicode_len() > 0 {
            Err(
                CallToolResult::error(
                    "Net '".to_owned().concat(net_name).concat(
                        "' not found in the board file. Add it first with add_net.",
                    ),
                ),
            )
        } else {
            Ok(0)
        },
    }
}

// Adding nets
/// The number of times `p` stands in `h`, counted from `from` on without
/// overlaps.
pub open spec fn times(h: Seq<u8>, p: Seq<u8>, from: int) -> nat
    decreases h.len() - from,
{
    match find_at(h, p, from) {
        Some(i) => if 0 <= from < i + p.len() <= h.len() {
            1 + times(h, p, i + p.len())
        } else {
            0
        },
        None => 0,
    }
}

/// The number of times `pat` stands in `s`.
pub fn count_matches(s: &str, pat: &str) -> (n: usize)
    requires
        bytes_of(pat@).len() > 0,
    ensures
        n == times(bytes_of(s@), bytes_of(pat@), 0),
{
    let ghost h = bytes_of(s@);
    let ghost p = bytes_of(pat@);
    let total: usize = byte_len(s);
    let mut n: usize = 0;
    let mut pos: usize = 0;
    loop
        invariant_except_break
            n + times(h, p, pos as int) == times(h, p, 0),
        invariant
            h == bytes_of(s@),
            p == bytes_of(pat@),
            p.len() > 0,
            total == h.len(),
            n <= pos <= total,
        ensures
            n == times(h, p, 0),
        decreases total - pos,
    {
        match find_from(s, pat, pos) {
            Some(i) => {
                proof {
                    lemma_find(h, p, pos as int);
                }
                pos = i + byte_len(pat);
                n = n + 1;
            },
            None => {
                break;
            },
        }
    }
    n
}

/// The declaration of a net.
pub open spec fn net_entry(id: int, name: Seq<char>) -> Seq<char> {
    "\n  (net "@ + int_chars(id) + " \""@ + name + "\")"@
}

/// The number that the next net of a board gets: how often `(net ` stands in
/// the board so far.
pub open spec fn next_net_id(h: Seq<u8>) -> i32 {
    times(h, bytes_of("(net "@), 0) as i32
}

/// Add a new net entry to the board, and give its number.
pub fn add_net(content: String, net_name: &str) -> (r: (String, i32))
    ensures
        r.1 == next_net_id(bytes_of(content@)),
        bytes_of(r.0@) == inserted(
            bytes_of(content@),
            close_of(bytes_of(content@)),
            net_entry(r.1 as int, net_name@),
        ),
{
    proof {
        lemma_net_mark();
    }
    let count: usize = count_matches(content.as_str(), "(net ");
    let net_id: i32 = #[verifier::truncate]
    (count as i32);
    let sexp: String = "\n  (net ".to_owned().concat(int_text(net_id).as_str()).concat(
        " \"",
    ).concat(net_name).concat("\")");
    (append_to_board(content, sexp), net_id)
}

// Laws
/// The last occurrence, where it is known.
proof fn lemma_rfind_is(h: Seq<u8>, p: Seq<u8>, upto: int, i: int)
    requires
        0 <= i <= upto,
        occurs_at(h, p, i),
        forall|j: int| i < j <= upto ==> !occurs_at(h, p, j),
    ensures
        rfind_at(h, p, upto) == Some(i),
{
    lemma_rfind(h, p, upto);
}

/// A printed number has none of these bytes.
pub proof fn lemma_int_bytes(id: int)
    ensures
        forall|k: int|
            0 <= k < bytes_of(int_chars(id)).len() ==> bytes_of(int_chars(id))[k] != 34 && bytes_of(
                int_chars(id),
            )[k] != 40,
{
    let s = int_chars(id);
    let d = if id < 0 {
        nat_chars(-id)
    } else {
        nat_chars(id)
    };
    lemma_nat_chars(
        if id < 0 {
            -id
        } else {
            id
        },
    );
    assert forall|k: int| 0 <= k < s.len() implies s[k] != '"' && s[k] != '(' by {
        if id < 0 {
            if k > 0 {
                assert(s[k] == d[k - 1]);
                assert(is_digit(d[k - 1]));
            }
        } else {
            assert(is_digit(d[k]));
        }
    }
    lemma_no_byte(s, '"');
    lemma_no_byte(s, '(');
}

/// Where a net is not declared, no place of its name follows a number.
proof fn lemma_undeclared(h: Seq<u8>, name: Seq<char>, from: int)
    requires
        0 <= from <= h.len(),
        declared_from(h, name, from) is None,
    ensures
        forall|j: int|
            from <= j && #[trigger] occurs_at(h, bytes_of(net_search(name)), j) ==> number_before(
                h,
                j,
            ) is None,
    decreases h.len() - from,
{
    let q = bytes_of(net_search(name));
    lemma_net_search(name);
    lemma_find(h, q, from);
    if let Some(pos) = find_at(h, q, from) {
        lemma_undeclared(h, name, pos + 1);
    }
}

/// The first place of the name that follows a number declares the net.
pub proof fn lemma_declared(h: Seq<u8>, name: Seq<char>, from: int, pos: int)
    requires
        0 <= from <= pos,
        occurs_at(h, bytes_of(net_search(name)), pos),
        number_before(h, pos) is Some,
        forall|j: int|
            from <= j < pos && #[trigger] occurs_at(h, bytes_of(net_search(name)), j)
                ==> number_before(h, j) is None,
    ensures
        declared_from(h, name, from) == number_before(h, pos),
    decreases pos - from,
{
    let q = bytes_of(net_search(name));
    lemma_net_search(name);
    lemma_find(h, q, from);
    let i = find_at(h, q, from).unwrap();
    if i != pos {
        lemma_declared(h, name, i + 1, pos);
    }
}

/// What stands before a place depends on the text before it alone.
proof fn lemma_number_alike(h: Seq<u8>, r: Seq<u8>, c: int, pos: int)
    requires
        0 <= pos <= c <= h.len(),
        c <= r.len(),
        forall|k: int| 0 <= k < c ==> h[k] == r[k],
    ensures
        number_before(h, pos) == number_before(r, pos),
{
    let p = bytes_of("(net "@);
    lemma_net_mark();
    lemma_rfind(h, p, pos - 5);
    lemma_rfind(r, p, pos - 5);
    assert forall|j: int| 0 <= j <= pos - 5 implies #[trigger] occurs_at(h, p, j) == occurs_at(
        r,
        p,
        j,
    ) by {
        assert(h.subrange(j, j + 5) =~= r.subrange(j, j + 5));
    }
    match rfind_at(h, p, pos - 5) {
        Some(i) => {
            assert(occurs_at(r, p, i));
            let k = rfind_at(r, p, pos - 5).unwrap();
            assert(occurs_at(h, p, k) == occurs_at(r, p, k));
            assert(k == i);
            assert(h.subrange(i + 5, pos) =~= r.subrange(i + 5, pos));
        },
        None => {
            if let Some(k) = rfind_at(r, p, pos - 5) {
                assert(occurs_at(h, p, k) == occurs_at(r, p, k));
            }
        },
    }
}

/// A net that was added is found again under its number. The board has not
/// declared it before, and its name stays on one line.
#[verifier::spinoff_prover]
#[verifier::rlimit(60)]
pub proof fn law_added_net_is_found(h: Seq<u8>, id: int, name: Seq<char>)
    requires
        valid_utf8(h),
        i32::MIN <= id <= i32::MAX,
        declared_net(h, name) is None,
        forall|i: int| 0 <= i < name.len() ==> name[i] != '\n',
    ensures
        declared_net(inserted(h, close_of(h), net_entry(id, name)), name) == Some(id),
        net_id(inserted(h, close_of(h), net_entry(id, name)), name) == id,
{
    let c = close_of(h);
    lemma_close_of(h);
    let front = "\n  (net "@ + int_chars(id);
    let s = net_search(name);
    let a = bytes_of(front);
    let d = bytes_of(int_chars(id));
    let l = bytes_of("\n  (net "@);
    let q = bytes_of(s);
    let p = bytes_of("(net "@);
    let r = inserted(h, c, net_entry(id, name));
    let pos = c + a.len();
    lemma_net_mark();
    lemma_net_search(name);
    lemma_int_bytes(id);
    reveal_strlit("\n  (net ");
    is_ascii_chars_encode_utf8("\n  (net "@);
    assert(l =~= seq![10u8, 32u8, 32u8, 40u8, 110u8, 101u8, 116u8, 32u8]);
    lemma_bytes_concat("\n  (net "@, int_chars(id));
    assert(a == l + d);
    assert(net_entry(id, name) =~= front + s);
    lemma_bytes_concat(front, s);
    assert(r == h.subrange(0, c) + (a + q) + h.subrange(c, h.len() as int));
    // The name stands behind the number.
    assert(r.subrange(pos, pos + q.len()) =~= q);
    reveal_strlit(" \"");
    reveal_strlit("\")");
    assert forall|i: int| 0 <= i < s.len() implies s[i] != '\n' by {
        if i < 2 {
            assert(s[i] == " \""@[i]);
        } else if i < 2 + name.len() {
            assert(s[i] == name[i - 2]);
        } else {
            assert(s[i] == "\")"@[i - 2 - name.len()]);
        }
    }
    lemma_no_byte(s, '\n');
    lemma_undeclared(h, name, 0);
    assert forall|j: int| 0 <= j < pos && occurs_at(r, q, j) implies number_before(r, j) is None by {
        if occurs_at(r, q, j) {
            assert forall|k: int| 0 <= k < q.len() implies r[j + k] == q[k] by {
                assert(r.subrange(j, j + q.len())[k] == q[k]);
            }
            if j + q.len() <= c {
                assert(r.subrange(j, j + q.len()) =~= h.subrange(j, j + q.len()));
                assert(occurs_at(h, q, j));
                lemma_number_alike(h, r, c, j);
            } else if j < c {
                assert(r[j + (c - j)] == q[c - j]);
                assert(r[c] == a[0]);
            } else {
                let k = j - c;
                assert(r[j + 1] == q[1]);
                if k + 1 < a.len() {
                    assert(r[j + 1] == a[k + 1]);
                    if k + 1 >= l.len() {
                        assert(a[k + 1] == d[k + 1 - l.len()]);
                    }
                } else {
                    assert(r[j + 1] == q[0]);
                }
            }
        }
    }
    // The last mark before it is its own.
    assert(r.subrange(c + 3, c + 8) =~= p);
    assert forall|j: int| c + 3 < j <= pos - 5 implies !occurs_at(r, p, j) by {
        if occurs_at(r, p, j) {
            assert(r.subrange(j, j + 5)[0] == p[0]);
            let k = j - c;
            assert(r[j] == a[k]);
            if k >= l.len() {
                assert(a[k] == d[k - l.len()]);
            }
        }
    }
    lemma_rfind_is(r, p, pos - 5, c + 3);
    // What stands between is the number.
    assert(r.subrange(c + 8, pos) =~= d);
    lemma_text_of(int_chars(id));
    law_int_reads_back(id);
    assert(number_before(r, pos) == Some(id));
    lemma_declared(r, name, 0, pos);
}

} // verus!
