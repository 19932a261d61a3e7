//! What is written is read back, node by node.
use crate::grammar::{
    items, lemma_items_list, lemma_items_space, lemma_items_then, lemma_items_word,
    lemma_list_shift,
};
use crate::lines::{block_text, lines, node_one, node_two, quoted};
use crate::parser::{list_from, node_from, parsed, string_end, SexpError};
use crate::property::{escaped, law_escape_is_undone};
use crate::tree::Tree;
use crate::words::{ends_head, is_space, skip_space};
use vstd::prelude::*;
use vstd::string::*;

verus! {

/// A node as text: a word as it is, a string in quotes with its quotes and
/// backslashes escaped, a list in parentheses with blanks between its nodes.
pub open spec fn written(t: Tree) -> Seq<char>
    decreases t,
{
    match t {
        Tree::Atom(s) => s,
        Tree::Str(s) => seq!['"'] + escaped(s) + seq!['"'],
        Tree::List(v) => seq!['('] + written_all(v) + seq![')'],
    }
}

/// Nodes as text, each behind a blank.
pub open spec fn written_all(v: Seq<Tree>) -> Seq<char>
    decreases v,
{
    if v.len() == 0 {
        seq![]
    } else {
        written_all(v.drop_last()) + seq![' '] + written(v.last())
    }
}

/// All words of a node are words: without white space, parentheses and quotes.
pub open spec fn is_wordy(t: Tree) -> bool
    decreases t,
{
    match t {
        Tree::Atom(s) => s.len() > 0 && forall|k: int|
            0 <= k < s.len() ==> !is_space(#[trigger] s[k]) && s[k] != '(' && s[k] != ')' && s[k]
                != '"',
        Tree::Str(_) => true,
        Tree::List(v) => are_wordy(v),
    }
}

/// All words of the nodes are words.
pub open spec fn are_wordy(v: Seq<Tree>) -> bool
    decreases v,
{
    v.len() == 0 || (are_wordy(v.drop_last()) && is_wordy(v.last()))
}

proof fn lemma_string_escaped(s: Seq<char>, i: int, v: Seq<char>)
    requires
        0 <= i,
        i + escaped(v).len() < s.len(),
        s.subrange(i, i + escaped(v).len()) == escaped(v),
        s[i + escaped(v).len()] == '"',
    ensures
        string_end(s, i) == Some(i + escaped(v).len()),
    decreases v.len(),
{
    let e = escaped(v);
    if v.len() > 0 {
        let rest = v.drop_first();
        let c = v[0];
        let n = if c == '"' || c == '\\' {
            2int
        } else {
            1int
        };
        assert(e.len() == n + escaped(rest).len());
        assert(s[i] == s.subrange(i, i + e.len())[0]);
        assert(s.subrange(i + n, i + n + escaped(rest).len()) =~= escaped(rest)) by {
            assert forall|k: int| 0 <= k < escaped(rest).len() implies #[trigger] s.subrange(
                i + n,
                i + n + escaped(rest).len(),
            )[k] == escaped(rest)[k] by {
                assert(s.subrange(i, i + e.len())[n + k] == e[n + k]);
            }
        }
        lemma_string_escaped(s, i + n, rest);
    }
}

proof fn lemma_items_quoted(v: Seq<char>)
    ensures
        items(seq!['"'] + escaped(v) + seq!['"']) == Some(seq![Tree::Str(v)]),
{
    let x = seq!['"'] + escaped(v) + seq!['"'];
    let s = x.push(')');
    let n = escaped(v).len() as int;
    assert(s[0] == '"');
    assert(!is_space('"'));
    assert(skip_space(s, 0) == 0);
    assert(s.subrange(1, n + 1) =~= escaped(v));
    assert(s[n + 1] == '"');
    lemma_string_escaped(s, 1, v);
    law_escape_is_undone(v);
    assert(node_from(s, 0) == Ok::<(Tree, int), SexpError>((Tree::Str(v), n + 2)));
    assert(s[n + 2] == ')');
    assert(!is_space(')'));
    assert(skip_space(s, n + 2) == n + 2);
    assert(list_from(s, n + 2) == Ok::<(Seq<Tree>, int), SexpError>((seq![], n + 3)));
    assert(seq![Tree::Str(v)] + Seq::<Tree>::empty() =~= seq![Tree::Str(v)]);
}

proof fn lemma_written(t: Tree)
    requires
        is_wordy(t),
    ensures
        items(written(t)) == Some(seq![t]),
    decreases t,
{
    match t {
        Tree::Atom(s) => {
            assert forall|k: int| 0 <= k < s.len() implies !ends_head(#[trigger] s[k]) by {}
            lemma_items_word(s);
        },
        Tree::Str(s) => {
            lemma_items_quoted(s);
        },
        Tree::List(v) => {
            lemma_written_all(v);
            lemma_items_list(written_all(v));
        },
    }
}

proof fn lemma_written_all(v: Seq<Tree>)
    requires
        are_wordy(v),
    ensures
        items(written_all(v)) == Some(v),
    decreases v,
{
    if v.len() == 0 {
        lemma_items_space(written_all(v));
        assert(v =~= Seq::<Tree>::empty());
    } else {
        assert(decreases_to!(v => v.drop_last()));
        assert(decreases_to!(v => v[v.len() - 1]));
        lemma_written_all(v.drop_last());
        lemma_written(v.last());
        lemma_items_then(written_all(v.drop_last()), seq![' '], written(v.last()));
        assert(v.drop_last() + seq![v.last()] =~= v);
    }
}

/// A list that is written is read back as it was.
pub proof fn law_what_is_written_is_read_back(v: Seq<Tree>)
    requires
        are_wordy(v),
    ensures
        parsed(written(Tree::List(v))) == Ok::<Tree, SexpError>(Tree::List(v)),
{
    lemma_written_all(v);
    let y = written_all(v);
    let s = seq!['('] + y + seq![')'];
    let q = y.push(')');
    assert(s =~= seq!['('] + q);
    lemma_list_shift(seq!['('], q, 0);
    assert(s[0] == '(');
    assert(!is_space('('));
    assert(skip_space(s, 0) == 0);
    assert(node_from(s, 0) == Ok::<(Tree, int), SexpError>((Tree::List(v), s.len() as int)));
    assert(skip_space(s, s.len() as int) == s.len());
}

/// A text of white space says nothing, one that begins with a closing parenthesis
/// is refused, and so is a string or a list that is never closed.
pub proof fn law_what_is_no_node_is_refused(w: Seq<char>, rest: Seq<char>)
    requires
        forall|k: int| 0 <= k < w.len() ==> is_space(w[k]),
        forall|k: int| 0 <= k < rest.len() ==> rest[k] != '"' && rest[k] != '\\',
    ensures
        parsed(w) == Err::<Tree, SexpError>(SexpError::Empty),
        parsed(w + seq![')'] + rest) == Err::<Tree, SexpError>(SexpError::UnexpectedClose),
        parsed(w + seq!['"'] + rest) == Err::<Tree, SexpError>(SexpError::UnterminatedString),
        parsed(w + seq!['(']) == Err::<Tree, SexpError>(SexpError::UnterminatedList),
{
    let n = w.len() as int;
    lemma_spaces(w, 0, n);
    assert(skip_space(w, n) == n);
    let a = w + seq![')'] + rest;
    lemma_spaces(a, 0, n);
    assert(a[n] == ')');
    assert(!is_space(')'));
    assert(skip_space(a, n) == n);
    let b = w + seq!['"'] + rest;
    lemma_spaces(b, 0, n);
    assert(b[n] == '"');
    assert(!is_space('"'));
    assert(skip_space(b, n) == n);
    lemma_open(b, n + 1);
    let c = w + seq!['('];
    lemma_spaces(c, 0, n);
    assert(c[n] == '(');
    assert(!is_space('('));
    assert(skip_space(c, n) == n);
    assert(skip_space(c, n + 1) == n + 1);
    assert(list_from(c, n + 1) == Err::<(Seq<Tree>, int), SexpError>(SexpError::UnterminatedList));
}

proof fn lemma_spaces(s: Seq<char>, i: int, n: int)
    requires
        0 <= i <= n <= s.len(),
        forall|k: int| i <= k < n ==> is_space(#[trigger] s[k]),
    ensures
        skip_space(s, i) == skip_space(s, n),
    decreases n - i,
{
    if i < n {
        assert(is_space(s[i]));
        lemma_spaces(s, i + 1, n);
    }
}

proof fn lemma_open(s: Seq<char>, i: int)
    requires
        0 <= i,
        forall|k: int| i <= k < s.len() ==> s[k] != '"' && s[k] != '\\',
    ensures
        string_end(s, i) is None,
    decreases s.len() - i,
{
    if i < s.len() {
        lemma_open(s, i + 1);
    }
}

/// What stands behind a list is refused unless it is white space. It does not
/// begin with a word.
pub proof fn law_text_behind_the_board_is_refused(v: Seq<Tree>, rest: Seq<char>)
    requires
        are_wordy(v),
        rest.len() == 0 || ends_head(rest[0]),
    ensures
        ({
            let s = written(Tree::List(v)) + rest;
            &&& (forall|k: int| 0 <= k < rest.len() ==> is_space(#[trigger] rest[k])) ==> parsed(s)
                == Ok::<Tree, SexpError>(Tree::List(v))
            &&& (exists|k: int| 0 <= k < rest.len() && !is_space(#[trigger] rest[k])) ==> parsed(s)
                == Err::<Tree, SexpError>(SexpError::TrailingText)
        }),
{
    lemma_written_all(v);
    let y = written_all(v);
    let t = written(Tree::List(v));
    let s = t + rest;
    let q = y.push(')');
    let qq = q + rest;
    let n = y.len() as int;
    assert(s =~= seq!['('] + qq);
    assert forall|k: int| 0 <= k < n + 1 implies q[k] == qq[k] by {}
    crate::grammar::lemma_list_agree(q, qq, 0, n + 1);
    lemma_list_shift(seq!['('], qq, 0);
    assert(s[0] == '(');
    assert(!is_space('('));
    assert(skip_space(s, 0) == 0);
    assert(node_from(s, 0) == Ok::<(Tree, int), SexpError>((Tree::List(v), t.len() as int)));
    let m = t.len() as int;
    if forall|k: int| 0 <= k < rest.len() ==> is_space(#[trigger] rest[k]) {
        assert forall|k: int| m <= k < s.len() implies is_space(#[trigger] s[k]) by {
            assert(s[k] == rest[k - m]);
        }
        lemma_spaces(s, m, s.len() as int);
        assert(skip_space(s, s.len() as int) == s.len());
    }
    if exists|k: int| 0 <= k < rest.len() && !is_space(#[trigger] rest[k]) {
        let k = choose|k: int| 0 <= k < rest.len() && !is_space(#[trigger] rest[k]);
        assert(s[m + k] == rest[k]);
        lemma_stops(s, m, m + k);
    }
}

proof fn lemma_stops(s: Seq<char>, i: int, k: int)
    requires
        0 <= i <= k < s.len(),
        !is_space(s[k]),
    ensures
        skip_space(s, i) <= k,
    decreases k - i,
{
    if i < k && is_space(s[i]) {
        lemma_stops(s, i + 1, k);
    }
}

/// Nodes on lines: each part of a block stands on a line of its own, indented.
pub proof fn law_parts_stand_on_lines(head: Seq<char>, parts: Seq<Seq<char>>, x: Seq<char>)
    ensures
        lines(Seq::empty()).len() == 0,
        lines(parts.push(x)) == lines(parts) + "\n    "@ + x,
        block_text(head, parts) == "\n  ("@ + head + lines(parts) + "\n  )"@,
        quoted(x) == "\""@ + x + "\""@,
        node_one(head, x) == "("@ + head + " "@ + x + ")"@,
        node_two(head, x, x) == "("@ + head + " "@ + x + " "@ + x + ")"@,
{
    assert(parts.push(x).drop_last() =~= parts);
    reveal_strlit("\n  (");
    reveal_strlit("\n  ");
    reveal_strlit("(");
    reveal_strlit(")");
    reveal_strlit("\n  )");
    assert("\n  ("@ =~= "\n  "@ + "("@);
    assert("\n  )"@ =~= "\n  "@ + ")"@);
    assert(block_text(head, parts) =~= "\n  ("@ + head + lines(parts) + "\n  )"@);
    assert(node_one(head, x) =~= "("@ + head + " "@ + x + ")"@);
    assert(node_two(head, x, x) =~= "("@ + head + " "@ + x + " "@ + x + ")"@);
}

} // verus!
