//! One node of a text swapped for another, or left out.
use crate::grammar::{
    agree, lemma_head_end, lemma_list_end, lemma_list_shift, lemma_list_spaces, lemma_node_agree,
    lemma_skip_agree, lemma_skip_shift, lemma_spaces_skipped, lemma_string_agree, lemma_string_ends,
    list_moved,
};
use crate::parser::{lemma_node_from, list_from, node_from, parsed, string_end, SexpError};
use crate::reread::is_board;
use crate::tree::Tree;
use crate::words::{ends_head, head_end, is_space, lemma_skip_space, skip_space};
use vstd::prelude::*;

verus! {

// Nodes that end by themselves
/// A list or a string stands here: it ends by itself, whatever follows.
pub open spec fn ends_itself(c: char) -> bool {
    c == '(' || c == '"'
}

/// A list that ends before the texts differ is the same in both.
proof fn lemma_list_same(s: Seq<char>, t: Seq<char>, i: int, n: int)
    requires
        agree(s, t, n),
        0 <= i <= s.len(),
        list_from(s, i) matches Ok(l) && l.1 <= n,
    ensures
        list_from(t, i) == list_from(s, i),
    decreases s.len() - i,
{
    let a = skip_space(s, i);
    lemma_skip_space(s, i);
    lemma_list_end(s, i);
    lemma_skip_agree(s, t, i, n);
    assert(s[a] == t[a]);
    if s[a] != ')' {
        lemma_node_from(s, a);
        lemma_skip_space(s, a);
        let l = list_from(s, i)->Ok_0;
        let e = node_from(s, a)->Ok_0.1;
        lemma_list_end(s, e);
        assert(agree(s, t, l.1 - 1));
        assert(t[l.1 - 1] == s[l.1 - 1]);
        lemma_node_agree(s, t, a, l.1 - 1);
        lemma_list_same(s, t, e, n);
    }
}

/// A list or a string that ends before the texts differ is the same in both.
pub proof fn lemma_node_same(s: Seq<char>, t: Seq<char>, n: int)
    requires
        agree(s, t, n),
        s.len() > 0,
        ends_itself(s[0]),
        node_from(s, 0) matches Ok(x) && x.1 <= n,
    ensures
        node_from(t, 0) == node_from(s, 0),
{
    lemma_node_from(s, 0);
    assert(skip_space(s, 0) == 0);
    assert(s[0] == t[0]);
    assert(skip_space(t, 0) == 0);
    if s[0] == '(' {
        lemma_list_same(s, t, 1, n);
    } else {
        lemma_string_agree(s, t, 1, n);
        let e = string_end(s, 1).unwrap();
        assert(s.subrange(1, e) =~= t.subrange(1, e));
    }
}

/// What follows in a text does not depend on what was before.
proof fn lemma_suffix(s: Seq<char>, t: Seq<char>, q: int, r: int)
    requires
        0 <= q <= s.len(),
        0 <= r <= t.len(),
        s.subrange(q, s.len() as int) == t.subrange(r, t.len() as int),
    ensures
        list_from(t, r) == list_moved(list_from(s, q), r - q),
        skip_space(t, r) - r == skip_space(s, q) - q,
{
    let z = s.subrange(q, s.len() as int);
    let a = s.subrange(0, q);
    let b = t.subrange(0, r);
    assert(s =~= a + z);
    assert(t =~= b + z);
    lemma_suffix_of(a, z);
    lemma_suffix_of(b, z);
    let m = list_from(z, 0);
    assert(list_from(s, q) == list_moved(m, q));
    assert(list_from(t, r) == list_moved(m, r));
}

/// What follows in a text is what its rest says by itself.
proof fn lemma_suffix_of(a: Seq<char>, z: Seq<char>)
    ensures
        list_from(a + z, a.len() as int) == list_moved(list_from(z, 0), a.len() as int),
        skip_space(a + z, a.len() as int) == a.len() + skip_space(z, 0),
{
    lemma_list_shift(a, z, 0);
    lemma_skip_shift(a, z, 0);
}

pub proof fn lemma_head_chars(s: Seq<char>, i: int)
    requires
        0 <= i <= s.len(),
    ensures
        forall|k: int| i <= k < head_end(s, i) ==> !ends_head(#[trigger] s[k]),
    decreases s.len() - i,
{
    if i < s.len() && !ends_head(s[i]) {
        lemma_head_chars(s, i + 1);
    }
}

/// A node does not end in white space.
proof fn lemma_node_last(s: Seq<char>, a: int)
    requires
        0 <= a < s.len(),
        !is_space(s[a]),
        node_from(s, a) is Ok,
    ensures
        a < node_from(s, a)->Ok_0.1 <= s.len(),
        !is_space(s[node_from(s, a)->Ok_0.1 - 1]),
{
    lemma_node_from(s, a);
    assert(skip_space(s, a) == a);
    if s[a] == '(' {
        lemma_list_end(s, a + 1);
    } else if s[a] == '"' {
        lemma_string_ends(s, a + 1);
    } else {
        lemma_head_end(s, a);
        lemma_head_chars(s, a);
    }
}

// Swapping
/// A list or a string that stands at `p` is one of the nodes, at any depth, of
/// the list that goes on at `i`.
pub open spec fn visited(s: Seq<char>, i: int, p: int) -> bool
    decreases s.len() - i,
{
    let a = skip_space(s, i);
    if !(0 <= i <= a < s.len()) || s[a] == ')' {
        false
    } else {
        match node_from(s, a) {
            Err(_) => false,
            Ok(n) => a < n.1 <= s.len() && ({
                ||| p == a && ends_itself(s[a])
                ||| a < p < n.1 && s[a] == '(' && visited(s, a + 1, p)
                ||| n.1 <= p && visited(s, n.1, p)
            }),
        }
    }
}

/// The nodes of the list that goes on at `i`, with `w` in place of the one that
/// stands at `p`.
pub open spec fn with_swapped(s: Seq<char>, i: int, p: int, w: Seq<Tree>) -> Seq<Tree>
    decreases s.len() - i,
{
    let a = skip_space(s, i);
    if !(0 <= i <= a < s.len()) || s[a] == ')' {
        seq![]
    } else {
        match node_from(s, a) {
            Err(_) => seq![],
            Ok(n) => if !(a < n.1 <= s.len()) {
                seq![]
            } else if p == a {
                w + list_from(s, n.1)->Ok_0.0
            } else if p < n.1 {
                seq![Tree::List(with_swapped(s, a + 1, p, w))] + list_from(s, n.1)->Ok_0.0
            } else {
                seq![n.0] + with_swapped(s, n.1, p, w)
            },
        }
    }
}

/// `t` is `s` with `x` in place of the node from `p` to `q` and the white space
/// from `o` to `p` before it.
pub open spec fn swaps(
    s: Seq<char>,
    t: Seq<char>,
    o: int,
    p: int,
    q: int,
    x: Seq<char>,
) -> bool {
    &&& 0 <= o <= p < q <= s.len()
    &&& forall|k: int| o <= k < p ==> is_space(#[trigger] s[k])
    &&& node_from(s, p) matches Ok(n) && n.1 == q
    &&& !is_space(s[p])
    &&& t == s.subrange(0, o) + x + s.subrange(q, s.len() as int)
}

/// At `o` the text `t` goes on with the nodes `w` and then as `s` does at `q`.
pub open spec fn goes_on(
    s: Seq<char>,
    t: Seq<char>,
    o: int,
    q: int,
    w: Seq<Tree>,
    d: int,
) -> bool {
    &&& o < t.len() ==> ends_head(t[o])
    &&& list_from(t, o) == (match list_from(s, q) {
        Ok(m) => Ok((w + m.0, m.1 + d)),
        Err(e) => Err(e),
    })
}

/// What a list with a swapped node comes to.
spec fn swapped_list(
    s: Seq<char>,
    i: int,
    p: int,
    w: Seq<Tree>,
    d: int,
) -> Result<(Seq<Tree>, int), SexpError> {
    Ok((with_swapped(s, i, p, w), list_from(s, i)->Ok_0.1 + d))
}

/// The node to swap is the next one.
proof fn lemma_swap_here(
    s: Seq<char>,
    t: Seq<char>,
    i: int,
    o: int,
    p: int,
    q: int,
    x: Seq<char>,
    w: Seq<Tree>,
)
    requires
        swaps(s, t, o, p, q, x),
        goes_on(s, t, o, q, w, x.len() - (q - o)),
        0 <= i <= o,
        list_from(s, i) is Ok,
        p == skip_space(s, i),
        ends_itself(s[p]),
    ensures
        q < list_from(s, i)->Ok_0.1,
        list_from(t, i) == swapped_list(s, i, p, w, x.len() - (q - o)),
{
    lemma_skip_space(s, i);
    lemma_spaces_skipped(s, i);
    lemma_list_end(s, q);
    assert forall|k: int| i <= k < o implies is_space(t[k]) by {
        assert(t[k] == s[k]);
    }
    lemma_list_spaces(t, i, o);
}

/// The node to swap is inside the next one.
proof fn lemma_swap_inside(
    s: Seq<char>,
    t: Seq<char>,
    i: int,
    o: int,
    p: int,
    q: int,
    x: Seq<char>,
    w: Seq<Tree>,
)
    requires
        swaps(s, t, o, p, q, x),
        0 <= i <= s.len(),
        list_from(s, i) is Ok,
        skip_space(s, i) < o,
        s[skip_space(s, i)] == '(',
        ({
            let a = skip_space(s, i);
            &&& list_from(s, a + 1) is Ok
            &&& p < list_from(s, a + 1)->Ok_0.1
            &&& q < list_from(s, a + 1)->Ok_0.1
            &&& list_from(t, a + 1) == swapped_list(s, a + 1, p, w, x.len() - (q - o))
        }),
    ensures
        q < list_from(s, i)->Ok_0.1,
        list_from(t, i) == swapped_list(s, i, p, w, x.len() - (q - o)),
{
    let d = x.len() - (q - o);
    let a = skip_space(s, i);
    lemma_skip_space(s, i);
    lemma_list_end(s, i);
    assert(skip_space(s, a) == a);
    let b = list_from(s, a + 1)->Ok_0.1;
    lemma_list_end(s, a + 1);
    lemma_list_end(s, b);
    assert(agree(s, t, o));
    lemma_skip_agree(s, t, i, o);
    assert(t[a] == s[a]);
    assert(skip_space(t, a) == a);
    lemma_list_end(t, a + 1);
    let e = b + d;
    assert(s.subrange(b, s.len() as int) =~= t.subrange(e, t.len() as int));
    lemma_suffix(s, t, b, e);
    let sub = with_swapped(s, a + 1, p, w);
    assert(node_from(s, a)->Ok_0.1 == b);
    assert(node_from(t, a) == Ok::<(Tree, int), SexpError>((Tree::List(sub), e)));
    let l = list_from(s, b)->Ok_0;
    assert(list_from(t, e) == Ok::<(Seq<Tree>, int), SexpError>((l.0, l.1 + d)));
    assert(list_from(t, i) == Ok::<(Seq<Tree>, int), SexpError>(
        (seq![Tree::List(sub)] + l.0, l.1 + d),
    ));
    assert(with_swapped(s, i, p, w) == seq![Tree::List(sub)] + l.0);
}

/// The node to swap comes behind the next one.
proof fn lemma_swap_later(
    s: Seq<char>,
    t: Seq<char>,
    i: int,
    o: int,
    p: int,
    q: int,
    x: Seq<char>,
    w: Seq<Tree>,
)
    requires
        swaps(s, t, o, p, q, x),
        o < t.len() ==> ends_head(t[o]),
        0 <= i <= s.len(),
        list_from(s, i) is Ok,
        skip_space(s, i) < s.len(),
        s[skip_space(s, i)] != ')',
        node_from(s, skip_space(s, i)) is Ok,
        ({
            let b = node_from(s, skip_space(s, i))->Ok_0.1;
            &&& b <= o
            &&& b <= p
            &&& list_from(s, b) is Ok
            &&& q < list_from(s, b)->Ok_0.1
            &&& list_from(t, b) == swapped_list(s, b, p, w, x.len() - (q - o))
        }),
    ensures
        q < list_from(s, i)->Ok_0.1,
        list_from(t, i) == swapped_list(s, i, p, w, x.len() - (q - o)),
{
    let a = skip_space(s, i);
    lemma_skip_space(s, i);
    lemma_node_from(s, a);
    lemma_skip_space(s, a);
    assert(agree(s, t, o));
    lemma_skip_agree(s, t, i, o);
    lemma_node_agree(s, t, a, o);
    assert(t[a] == s[a]);
}

/// A list in which a node was swapped has the other nodes as they were.
proof fn lemma_swap(
    s: Seq<char>,
    t: Seq<char>,
    i: int,
    o: int,
    p: int,
    q: int,
    x: Seq<char>,
    w: Seq<Tree>,
)
    requires
        swaps(s, t, o, p, q, x),
        goes_on(s, t, o, q, w, x.len() - (q - o)),
        0 < i <= s.len(),
        !is_space(s[i - 1]),
        i <= p,
        list_from(s, i) is Ok,
        visited(s, i, p),
    ensures
        i <= o,
        q < list_from(s, i)->Ok_0.1,
        list_from(t, i) == swapped_list(s, i, p, w, x.len() - (q - o)),
    decreases s.len() - i,
{
    let a = skip_space(s, i);
    lemma_skip_space(s, i);
    let n = node_from(s, a)->Ok_0;
    assert(i <= o) by {
        if o < i {
            assert(is_space(s[i - 1]));
        }
    }
    lemma_list_end(s, n.1);
    if p == a {
        lemma_swap_here(s, t, i, o, p, q, x, w);
    } else if p < n.1 {
        assert(skip_space(s, a) == a);
        lemma_swap(s, t, a + 1, o, p, q, x, w);
        lemma_swap_inside(s, t, i, o, p, q, x, w);
    } else {
        lemma_node_last(s, a);
        lemma_swap(s, t, n.1, o, p, q, x, w);
        lemma_swap_later(s, t, i, o, p, q, x, w);
    }
}

/// A board in which a node was swapped parses, and has its other nodes as they
/// were.
pub proof fn lemma_swap_parsed(
    s: Seq<char>,
    t: Seq<char>,
    o: int,
    p: int,
    q: int,
    x: Seq<char>,
    w: Seq<Tree>,
)
    requires
        is_board(s),
        swaps(s, t, o, p, q, x),
        goes_on(s, t, o, q, w, x.len() - (q - o)),
        skip_space(s, 0) < p,
        visited(s, skip_space(s, 0) + 1, p),
    ensures
        parsed(t) == Ok::<Tree, SexpError>(
            Tree::List(with_swapped(s, skip_space(s, 0) + 1, p, w)),
        ),
{
    let a = skip_space(s, 0);
    lemma_skip_space(s, 0);
    lemma_node_from(s, 0);
    lemma_swap(s, t, a + 1, o, p, q, x, w);
    let d = x.len() - (q - o);
    let e = list_from(s, a + 1)->Ok_0.1;
    assert(agree(s, t, o));
    lemma_skip_agree(s, t, 0, o);
    assert(t[a] == s[a]);
    lemma_list_end(s, a + 1);
    assert(s.subrange(e, s.len() as int) =~= t.subrange(e + d, t.len() as int));
    lemma_suffix(s, t, e, e + d);
}

/// Where a list or a string stands in place of the node, the text goes on with
/// it.
pub proof fn lemma_goes_on_with(
    s: Seq<char>,
    t: Seq<char>,
    p: int,
    q: int,
    x: Seq<char>,
    n: Tree,
)
    requires
        swaps(s, t, p, p, q, x),
        x.len() > 0,
        ends_itself(x[0]),
        node_from(x, 0) == Ok::<(Tree, int), SexpError>((n, x.len() as int)),
    ensures
        goes_on(s, t, p, q, seq![n], x.len() - (q - p)),
{
    let u = x + s.subrange(q, s.len() as int);
    let a = s.subrange(0, p);
    assert(t =~= a + u);
    assert(agree(x, u, x.len() as int));
    lemma_node_same(x, u, x.len() as int);
    assert(u[0] == x[0]);
    lemma_list_shift(a, u, 0);
    assert(skip_space(u, 0) == 0);
    assert(s.subrange(q, s.len() as int) =~= u.subrange(x.len() as int, u.len() as int));
    lemma_suffix(s, u, q, x.len() as int);
    assert(t[p] == x[0]);
}

/// Where nothing stands in place of the node, the text goes on behind it.
pub proof fn lemma_goes_on_without(s: Seq<char>, t: Seq<char>, o: int, p: int, q: int)
    requires
        swaps(s, t, o, p, q, Seq::empty()),
        q < s.len() ==> ends_head(s[q]),
    ensures
        goes_on(s, t, o, q, Seq::empty(), -(q - o)),
{
    assert(s.subrange(q, s.len() as int) =~= t.subrange(o, t.len() as int));
    lemma_suffix(s, t, q, o);
    if o < t.len() {
        assert(t[o] == s[q]);
    }
    match list_from(s, q) {
        Ok(m) => {
            assert(Seq::<Tree>::empty() + m.0 =~= m.0);
        },
        Err(_) => {},
    }
}

} // verus!
