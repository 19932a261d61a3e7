//! How texts that parse are put together from texts that parse.
use crate::board::{close_of, inserted};
use crate::parser::{lemma_node_from, list_from, node_from, parsed, string_end, SexpError};
use crate::property::plain;
use crate::text::{
    bytes_of, lemma_ascii_byte, lemma_bytes_concat, lemma_no_byte, lemma_rfind, lemma_text_of,
    occurs_at, rfind_at, text_of,
};
use crate::tree::{children, Tree};
use crate::words::{ends_head, head_end, is_space, lemma_skip_space, skip_space};
use vstd::prelude::*;
use vstd::string::*;

verus! {

/// The nodes that a text says, one behind the other.
pub open spec fn items(x: Seq<char>) -> Option<Seq<Tree>> {
    match list_from(x.push(')'), 0) {
        Ok(l) => if l.1 == x.len() + 1 {
            Some(l.0)
        } else {
            None
        },
        Err(_) => None,
    }
}

// Texts that begin alike
/// The texts are the same up to `n`.
pub open spec fn agree(s: Seq<char>, t: Seq<char>, n: int) -> bool {
    &&& 0 <= n <= s.len()
    &&& n <= t.len()
    &&& forall|k: int| 0 <= k < n ==> s[k] == t[k]
}

pub proof fn lemma_skip_agree(s: Seq<char>, t: Seq<char>, i: int, n: int)
    requires
        agree(s, t, n),
        0 <= i,
        skip_space(s, i) < n,
    ensures
        skip_space(t, i) == skip_space(s, i),
    decreases s.len() - i,
{
    if i < s.len() {
        lemma_skip_space(s, i);
        assert(s[i] == t[i]);
        if is_space(s[i]) {
            lemma_skip_agree(s, t, i + 1, n);
        }
    }
}

pub proof fn lemma_string_agree(s: Seq<char>, t: Seq<char>, i: int, n: int)
    requires
        agree(s, t, n),
        0 <= i,
        string_end(s, i) matches Some(e) && e < n,
    ensures
        string_end(t, i) == string_end(s, i),
        i <= string_end(s, i).unwrap(),
    decreases s.len() - i + 1,
{
    if i < s.len() {
        if s[i] == '\\' {
            lemma_string_agree(s, t, i + 2, n);
            assert(s[i] == t[i]);
        } else if s[i] == '"' {
            assert(s[i] == t[i]);
        } else {
            lemma_string_agree(s, t, i + 1, n);
            assert(s[i] == t[i]);
        }
    }
}

pub proof fn lemma_head_end(s: Seq<char>, i: int)
    requires
        0 <= i <= s.len(),
    ensures
        i <= head_end(s, i) <= s.len(),
        head_end(s, i) < s.len() ==> ends_head(s[head_end(s, i)]),
        i < s.len() && !ends_head(s[i]) ==> i < head_end(s, i),
    decreases s.len() - i,
{
    if i < s.len() && !ends_head(s[i]) {
        lemma_head_end(s, i + 1);
    }
}

proof fn lemma_head_agree(s: Seq<char>, t: Seq<char>, i: int, n: int)
    requires
        agree(s, t, n),
        0 <= i <= n,
        head_end(s, i) <= n,
        n < t.len() ==> ends_head(t[n]),
    ensures
        head_end(t, i) == head_end(s, i),
    decreases n - i,
{
    lemma_head_end(s, i);
    if i < n {
        assert(s[i] == t[i]);
        if !ends_head(s[i]) {
            lemma_head_agree(s, t, i + 1, n);
        }
    }
}

/// A node that ends before the texts differ is the same in both.
pub proof fn lemma_node_agree(s: Seq<char>, t: Seq<char>, i: int, n: int)
    requires
        agree(s, t, n),
        0 <= i <= s.len(),
        node_from(s, i) matches Ok(x) && x.1 <= n,
        n < t.len() ==> ends_head(t[n]),
    ensures
        node_from(t, i) == node_from(s, i),
    decreases s.len() - i, 0int,
{
    let a = skip_space(s, i);
    lemma_skip_space(s, i);
    lemma_node_from(s, i);
    lemma_skip_agree(s, t, i, n);
    assert(s[a] == t[a]);
    if s[a] == '(' {
        lemma_list_agree(s, t, a + 1, n);
    } else if s[a] == '"' {
        lemma_string_agree(s, t, a + 1, n);
        let e = string_end(s, a + 1).unwrap();
        assert(s.subrange(a + 1, e) =~= t.subrange(a + 1, e));
    } else if s[a] != ')' {
        lemma_head_agree(s, t, a, n);
        let e = head_end(s, a);
        assert(s.subrange(a, e) =~= t.subrange(a, e));
    }
}

pub proof fn lemma_list_end(s: Seq<char>, i: int)
    requires
        0 <= i <= s.len(),
        list_from(s, i) is Ok,
    ensures
        i < list_from(s, i)->Ok_0.1 <= s.len(),
        s[list_from(s, i)->Ok_0.1 - 1] == ')',
        skip_space(s, i) < list_from(s, i)->Ok_0.1,
    decreases s.len() - i,
{
    let a = skip_space(s, i);
    lemma_skip_space(s, i);
    if s[a] != ')' {
        lemma_node_from(s, a);
        lemma_skip_space(s, a);
        let e = node_from(s, a)->Ok_0.1;
        lemma_list_end(s, e);
    }
}

pub proof fn lemma_list_agree(s: Seq<char>, t: Seq<char>, i: int, n: int)
    requires
        agree(s, t, n),
        0 <= i <= s.len(),
        list_from(s, i) matches Ok(l) && l.1 <= n,
        n < t.len() ==> ends_head(t[n]),
    ensures
        list_from(t, i) == list_from(s, i),
    decreases s.len() - i, 1int,
{
    let a = skip_space(s, i);
    lemma_skip_space(s, i);
    lemma_list_end(s, i);
    lemma_skip_agree(s, t, i, n);
    assert(s[a] == t[a]);
    if s[a] != ')' {
        lemma_node_from(s, a);
        lemma_skip_space(s, a);
        let e = node_from(s, a)->Ok_0.1;
        lemma_list_end(s, e);
        lemma_node_agree(s, t, a, n);
        lemma_list_agree(s, t, e, n);
    }
}

// Texts behind other texts
pub proof fn lemma_skip_shift(p: Seq<char>, q: Seq<char>, i: int)
    requires
        0 <= i <= q.len(),
    ensures
        skip_space(p + q, p.len() + i) == p.len() + skip_space(q, i),
    decreases q.len() - i,
{
    if i < q.len() {
        assert((p + q)[p.len() + i] == q[i]);
        if is_space(q[i]) {
            lemma_skip_shift(p, q, i + 1);
        }
    }
}

proof fn lemma_string_shift(p: Seq<char>, q: Seq<char>, i: int)
    requires
        0 <= i,
    ensures
        string_end(p + q, p.len() + i) == (match string_end(q, i) {
            Some(e) => Some(p.len() + e),
            None => None,
        }),
    decreases q.len() - i + 1,
{
    if i < q.len() {
        assert((p + q)[p.len() + i] == q[i]);
        if q[i] == '\\' {
            lemma_string_shift(p, q, i + 2);
        } else if q[i] != '"' {
            lemma_string_shift(p, q, i + 1);
        }
    }
}

proof fn lemma_head_shift(p: Seq<char>, q: Seq<char>, i: int)
    requires
        0 <= i <= q.len(),
    ensures
        head_end(p + q, p.len() + i) == p.len() + head_end(q, i),
    decreases q.len() - i,
{
    if i < q.len() {
        assert((p + q)[p.len() + i] == q[i]);
        if !ends_head(q[i]) {
            lemma_head_shift(p, q, i + 1);
        }
    }
}

/// A node behind another text is the same node, further on.
pub open spec fn node_moved(r: Result<(Tree, int), SexpError>, d: int) -> Result<
    (Tree, int),
    SexpError,
> {
    match r {
        Ok(n) => Ok((n.0, n.1 + d)),
        Err(e) => Err(e),
    }
}

/// Nodes behind another text are the same nodes, further on.
pub open spec fn list_moved(r: Result<(Seq<Tree>, int), SexpError>, d: int) -> Result<
    (Seq<Tree>, int),
    SexpError,
> {
    match r {
        Ok(n) => Ok((n.0, n.1 + d)),
        Err(e) => Err(e),
    }
}

proof fn lemma_node_shift(p: Seq<char>, q: Seq<char>, i: int)
    requires
        0 <= i <= q.len(),
    ensures
        node_from(p + q, p.len() + i) == node_moved(node_from(q, i), p.len() as int),
    decreases q.len() - i, 0int,
{
    let a = skip_space(q, i);
    lemma_skip_space(q, i);
    lemma_skip_shift(p, q, i);
    if a < q.len() {
        assert((p + q)[p.len() + a] == q[a]);
        if q[a] == '(' {
            lemma_list_shift(p, q, a + 1);
        } else if q[a] == '"' {
            lemma_string_shift(p, q, a + 1);
            match string_end(q, a + 1) {
                Some(e) => {
                    lemma_string_ends(q, a + 1);
                    assert((p + q).subrange(p.len() + a + 1, p.len() + e) =~= q.subrange(a + 1, e));
                },
                None => {},
            }
        } else if q[a] != ')' {
            lemma_head_shift(p, q, a);
            lemma_head_end(q, a);
            let e = head_end(q, a);
            assert((p + q).subrange(p.len() + a, p.len() + e) =~= q.subrange(a, e));
        }
    }
}

pub proof fn lemma_string_ends(s: Seq<char>, i: int)
    requires
        0 <= i,
    ensures
        string_end(s, i) matches Some(e) ==> i <= e < s.len() && s[e] == '"',
    decreases s.len() - i + 1,
{
    if i < s.len() {
        if s[i] == '\\' {
            lemma_string_ends(s, i + 2);
        } else if s[i] != '"' {
            lemma_string_ends(s, i + 1);
        }
    }
}

pub proof fn lemma_list_shift(p: Seq<char>, q: Seq<char>, i: int)
    requires
        0 <= i <= q.len(),
    ensures
        list_from(p + q, p.len() + i) == list_moved(list_from(q, i), p.len() as int),
    decreases q.len() - i, 1int,
{
    let a = skip_space(q, i);
    lemma_skip_space(q, i);
    lemma_skip_shift(p, q, i);
    if a < q.len() {
        assert((p + q)[p.len() + a] == q[a]);
        if q[a] != ')' {
            lemma_node_shift(p, q, a);
            lemma_node_from(q, a);
            lemma_skip_space(q, a);
            match node_from(q, a) {
                Ok(n) => {
                    lemma_list_shift(p, q, n.1);
                },
                Err(_) => {},
            }
        }
    }
}

// Growing lists
/// White space before nodes does not count.
pub proof fn lemma_list_spaces(t: Seq<char>, i: int, c: int)
    requires
        0 <= i <= c <= t.len(),
        forall|k: int| i <= k < c ==> is_space(t[k]),
    ensures
        skip_space(t, i) == skip_space(t, c),
        list_from(t, i) == list_from(t, c),
    decreases c - i,
{
    if i < c {
        lemma_list_spaces(t, i + 1, c);
        lemma_skip_space(t, c);
    } else {
        lemma_skip_space(t, c);
    }
}

pub proof fn lemma_spaces_skipped(s: Seq<char>, i: int)
    requires
        0 <= i <= s.len(),
    ensures
        forall|k: int| i <= k < skip_space(s, i) ==> is_space(s[k]),
    decreases s.len() - i,
{
    if i < s.len() && is_space(s[i]) {
        lemma_spaces_skipped(s, i + 1);
    }
}

/// Where a list is closed, other nodes may stand instead: the list then has its
/// own nodes and those.
proof fn lemma_list_grow(s: Seq<char>, t: Seq<char>, i: int)
    requires
        0 <= i <= s.len(),
        list_from(s, i) is Ok,
        agree(s, t, list_from(s, i)->Ok_0.1 - 1),
        list_from(s, i)->Ok_0.1 - 1 < t.len(),
        ends_head(t[list_from(s, i)->Ok_0.1 - 1]),
    ensures
        ({
            let l = list_from(s, i)->Ok_0;
            list_from(t, i) == (match list_from(t, l.1 - 1) {
                Ok(m) => Ok((l.0 + m.0, m.1)),
                Err(e) => Err(e),
            })
        }),
    decreases s.len() - i,
{
    let l = list_from(s, i)->Ok_0;
    let c = l.1 - 1;
    let a = skip_space(s, i);
    lemma_skip_space(s, i);
    lemma_list_end(s, i);
    lemma_spaces_skipped(s, i);
    if s[a] == ')' {
        assert forall|k: int| i <= k < c implies is_space(t[k]) by {
            assert(s[k] == t[k]);
        }
        lemma_list_spaces(t, i, c);
        match list_from(t, c) {
            Ok(m) => {
                assert(l.0 + m.0 =~= m.0);
            },
            Err(_) => {},
        }
    } else {
        lemma_node_from(s, a);
        lemma_skip_space(s, a);
        let n = node_from(s, a)->Ok_0;
        let r = list_from(s, n.1)->Ok_0;
        lemma_list_end(s, n.1);
        assert(r.1 == l.1);
        lemma_node_agree(s, t, a, c);
        lemma_skip_agree(s, t, i, c);
        assert(s[a] == t[a]);
        lemma_list_grow(s, t, n.1);
        match list_from(t, c) {
            Ok(m) => {
                assert(seq![n.0] + (r.0 + m.0) =~= l.0 + m.0);
            },
            Err(_) => {},
        }
    }
}

// Putting texts together
/// Two texts that say nodes say them one behind the other, if the second does
/// not run into the first.
pub proof fn lemma_items_join(x: Seq<char>, y: Seq<char>)
    requires
        items(x) is Some,
        items(y) is Some,
        y.len() == 0 || ends_head(y[0]),
    ensures
        items(x + y) == Some(items(x).unwrap() + items(y).unwrap()),
{
    let s = x.push(')');
    let q = y.push(')');
    let t = (x + y).push(')');
    assert(t =~= x + q);
    let l = list_from(s, 0)->Ok_0;
    assert(l.1 - 1 == x.len());
    lemma_list_shift(x, q, 0);
    assert(q[0] == if y.len() == 0 {
        ')'
    } else {
        y[0]
    });
    assert(t[x.len() as int] == q[0]);
    lemma_list_grow(s, t, 0);
}

/// White space before a text does not change what it says.
pub proof fn lemma_items_lead(w: Seq<char>, y: Seq<char>)
    requires
        forall|k: int| 0 <= k < w.len() ==> is_space(w[k]),
    ensures
        items(w + y) == items(y),
{
    let q = y.push(')');
    let t = (w + y).push(')');
    let n = w.len() as int;
    assert(t =~= w + q);
    assert forall|k: int| 0 <= k < n implies is_space(t[k]) by {
        assert(t[k] == w[k]);
    }
    lemma_list_spaces(t, 0, n);
    lemma_list_shift(w, q, 0);
}

/// Two texts with white space between them say their nodes one behind the
/// other.
pub proof fn lemma_items_then(x: Seq<char>, w: Seq<char>, y: Seq<char>)
    requires
        items(x) is Some,
        items(y) is Some,
        w.len() > 0,
        forall|k: int| 0 <= k < w.len() ==> is_space(w[k]),
    ensures
        items(x + w + y) == Some(items(x).unwrap() + items(y).unwrap()),
{
    lemma_items_lead(w, y);
    assert((w + y)[0] == w[0]);
    lemma_items_join(x, w + y);
    assert(x + w + y =~= x + (w + y));
}

/// White space says nothing.
pub proof fn lemma_items_space(x: Seq<char>)
    requires
        forall|k: int| 0 <= k < x.len() ==> is_space(x[k]),
    ensures
        items(x) == Some(Seq::<Tree>::empty()),
{
    let s = x.push(')');
    let n = x.len() as int;
    assert forall|k: int| 0 <= k < n implies is_space(s[k]) by {
        assert(s[k] == x[k]);
    }
    lemma_list_spaces(s, 0, n);
    assert(skip_space(s, n) == n);
}

/// A word is a word.
pub proof fn lemma_items_word(x: Seq<char>)
    requires
        x.len() > 0,
        forall|k: int| 0 <= k < x.len() ==> !ends_head(#[trigger] x[k]),
    ensures
        items(x) == Some(seq![Tree::Atom(x)]),
{
    let s = x.push(')');
    let n = x.len() as int;
    assert(s[0] == x[0]);
    assert(!is_space(s[0]));
    assert(skip_space(s, 0) == 0);
    lemma_word_ends(s, 0, n);
    assert(s.subrange(0, n) =~= x);
    assert(node_from(s, 0) == Ok::<(Tree, int), SexpError>((Tree::Atom(x), n)));
    assert(skip_space(s, n) == n);
    assert(list_from(s, n) == Ok::<(Seq<Tree>, int), SexpError>((seq![], n + 1)));
    assert(seq![Tree::Atom(x)] + Seq::<Tree>::empty() =~= seq![Tree::Atom(x)]);
}

proof fn lemma_word_ends(s: Seq<char>, i: int, n: int)
    requires
        0 <= i <= n < s.len(),
        forall|k: int| i <= k < n ==> !ends_head(#[trigger] s[k]),
        ends_head(s[n]),
    ensures
        head_end(s, i) == n,
    decreases n - i,
{
    if i < n {
        lemma_word_ends(s, i + 1, n);
    }
}

/// A string in quotes is that string.
pub proof fn lemma_items_string(v: Seq<char>)
    requires
        forall|k: int| 0 <= k < v.len() ==> v[k] != '"' && v[k] != '\\',
    ensures
        items(seq!['"'] + v + seq!['"']) == Some(seq![Tree::Str(v)]),
{
    let x = seq!['"'] + v + seq!['"'];
    let s = x.push(')');
    let n = v.len() as int;
    assert(s[0] == '"');
    assert(!is_space('"'));
    assert(skip_space(s, 0) == 0);
    assert forall|k: int| 1 <= k < n + 1 implies s[k] != '"' && s[k] != '\\' by {
        assert(s[k] == v[k - 1]);
    }
    assert(s[n + 1] == '"');
    lemma_plain_string_end(s, 1, n + 1);
    assert(s.subrange(1, n + 1) =~= v);
    lemma_plain_is_same(v);
    assert(node_from(s, 0) == Ok::<(Tree, int), SexpError>((Tree::Str(v), n + 2)));
    assert(s[n + 2] == ')');
    assert(skip_space(s, n + 2) == n + 2);
    assert(list_from(s, n + 2) == Ok::<(Seq<Tree>, int), SexpError>((seq![], n + 3)));
    assert(seq![Tree::Str(v)] + Seq::<Tree>::empty() =~= seq![Tree::Str(v)]);
}

proof fn lemma_plain_string_end(s: Seq<char>, i: int, n: int)
    requires
        0 <= i <= n < s.len(),
        forall|k: int| i <= k < n ==> s[k] != '"' && s[k] != '\\',
        s[n] == '"',
    ensures
        string_end(s, i) == Some(n),
    decreases n - i,
{
    if i < n {
        lemma_plain_string_end(s, i + 1, n);
    }
}

proof fn lemma_plain_is_same(v: Seq<char>)
    requires
        forall|k: int| 0 <= k < v.len() ==> v[k] != '\\',
    ensures
        plain(v) == v,
    decreases v.len(),
{
    if v.len() > 0 {
        lemma_plain_is_same(v.drop_first());
        assert(seq![v[0]] + v.drop_first() =~= v);
    }
}

/// Nodes in parentheses are a list of them.
pub proof fn lemma_items_list(y: Seq<char>)
    requires
        items(y) is Some,
    ensures
        items(seq!['('] + y + seq![')']) == Some(seq![Tree::List(items(y).unwrap())]),
{
    let x = seq!['('] + y + seq![')'];
    let s = x.push(')');
    let q = y.push(')');
    let w = items(y).unwrap();
    let n = y.len() as int;
    assert(s =~= seq!['('] + q.push(')'));
    // The inner nodes end with the inner parenthesis.
    let qq = q.push(')');
    assert forall|k: int| 0 <= k < n + 1 implies q[k] == qq[k] by {}
    assert(qq[n + 1] == ')');
    lemma_list_agree(q, qq, 0, n + 1);
    lemma_list_shift(seq!['('], qq, 0);
    assert(list_from(s, 1) == Ok::<(Seq<Tree>, int), SexpError>((w, n + 2)));
    assert(s[0] == '(');
    assert(!is_space('('));
    assert(skip_space(s, 0) == 0);
    assert(node_from(s, 0) == Ok::<(Tree, int), SexpError>((Tree::List(w), n + 2)));
    assert(s[n + 2] == ')');
    assert(skip_space(s, n + 2) == n + 2);
    assert(list_from(s, n + 2) == Ok::<(Seq<Tree>, int), SexpError>((seq![], n + 3)));
    assert(seq![Tree::List(w)] + Seq::<Tree>::empty() =~= seq![Tree::List(w)]);
}

// Files
/// What is put into a board before its last parenthesis, said in characters.
proof fn lemma_appended_text(s: Seq<char>, c: int, x: Seq<char>)
    requires
        0 <= c < s.len(),
        s[c] == ')',
        forall|k: int| c < k < s.len() ==> s[k] != ')',
    ensures
        text_of(inserted(bytes_of(s), close_of(bytes_of(s)), x)) == s.subrange(0, c) + x
            + s.subrange(c, s.len() as int),
{
    let a = s.subrange(0, c);
    let b = s.subrange(c + 1, s.len() as int);
    let h = bytes_of(s);
    let p = bytes_of(")"@);
    reveal_strlit(")");
    assert(")"@ =~= seq![')']);
    lemma_ascii_byte(')');
    assert(s =~= a + seq![')'] + b);
    lemma_bytes_concat(a, seq![')']);
    lemma_bytes_concat(a + seq![')'], b);
    let n = bytes_of(a).len() as int;
    assert(h == bytes_of(a) + seq![41u8] + bytes_of(b));
    assert forall|k: int| 0 <= k < b.len() implies b[k] != ')' by {
        assert(b[k] == s[c + 1 + k]);
    }
    lemma_no_byte(b, ')');
    assert(h.subrange(n, n + 1) =~= p);
    assert forall|j: int| n < j <= h.len() - 1 implies !occurs_at(h, p, j) by {
        if occurs_at(h, p, j) {
            assert(h.subrange(j, j + 1)[0] == h[j]);
            assert(h[j] == bytes_of(b)[j - n - 1]);
        }
    }
    lemma_rfind(h, p, h.len() - 1);
    assert(occurs_at(h, p, n));
    assert(rfind_at(h, p, h.len() - p.len()) == Some(n));
    let t = a + x + s.subrange(c, s.len() as int);
    assert(s.subrange(c, s.len() as int) =~= seq![')'] + b);
    lemma_bytes_concat(seq![')'], b);
    lemma_bytes_concat(a, x);
    lemma_bytes_concat(a + x, seq![')'] + b);
    assert(inserted(h, n, x) =~= bytes_of(t)) by {
        assert(h.subrange(0, n) =~= bytes_of(a));
        assert(h.subrange(n, h.len() as int) =~= seq![41u8] + bytes_of(b));
    }
    lemma_text_of(t);
}

/// A board that parses still does so when nodes are appended to it, and says
/// these nodes behind those it had.
pub proof fn law_appending_keeps_a_board_parsing(s: Seq<char>, x: Seq<char>)
    requires
        parsed(s) matches Ok(t) && t is List,
        items(x) is Some,
        x.len() == 0 || ends_head(x[0]),
    ensures
        parsed(text_of(inserted(bytes_of(s), close_of(bytes_of(s)), x))) == Ok::<Tree, SexpError>(
            Tree::List(children(parsed(s)->Ok_0) + items(x).unwrap()),
        ),
{
    let a = skip_space(s, 0);
    lemma_skip_space(s, 0);
    lemma_node_from(s, 0);
    let l = list_from(s, a + 1)->Ok_0;
    lemma_list_end(s, a + 1);
    let c = l.1 - 1;
    // Behind the list there is only white space.
    lemma_spaces_skipped(s, l.1);
    assert forall|k: int| c < k < s.len() implies s[k] != ')' by {
        assert(is_space(s[k]));
    }
    lemma_appended_text(s, c, x);
    let b = s.subrange(c, s.len() as int);
    let t = s.subrange(0, c) + x + b;
    let w = items(x).unwrap();
    let q = x.push(')');
    let m = x.len() as int;
    // The list goes on with the new nodes.
    assert(agree(s, t, c));
    assert(t[c] == if m == 0 {
        ')'
    } else {
        x[0]
    });
    lemma_list_grow(s, t, a + 1);
    // The new nodes end with the old parenthesis.
    let u = x + b;
    assert(t =~= s.subrange(0, c) + u);
    lemma_list_shift(s.subrange(0, c), u, 0);
    assert(u[m] == b[0]);
    assert(agree(q, u, m + 1)) by {
        assert forall|k: int| 0 <= k < m + 1 implies q[k] == u[k] by {}
    }
    if m + 1 < u.len() {
        assert(u[m + 1] == s[c + 1]);
        assert(is_space(s[c + 1]));
    }
    lemma_list_agree(q, u, 0, m + 1);
    assert(list_from(t, c) == Ok::<(Seq<Tree>, int), SexpError>((w, c + m + 1)));
    assert(list_from(t, a + 1) == Ok::<(Seq<Tree>, int), SexpError>((l.0 + w, c + m + 1)));
    lemma_skip_agree(s, t, 0, c);
    assert(t[a] == s[a]);
    // And the rest is white space as before.
    assert forall|k: int| c + m + 1 <= k < t.len() implies is_space(t[k]) by {
        assert(t[k] == s[k - m]);
    }
    lemma_list_spaces(t, c + m + 1, t.len() as int);
}

} // verus!
