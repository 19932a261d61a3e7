//! Nodes written as text, on lines of their own.
use crate::grammar::{
    items, lemma_items_join, lemma_items_lead, lemma_items_list, lemma_items_space,
    lemma_items_string, lemma_items_then, lemma_items_word,
};
use crate::tree::Tree;
use crate::words::{ends_head, is_space, is_word, strings_of};
use vstd::prelude::*;
use vstd::string::*;

verus! {

// Texts
/// `"v"`.
pub open spec fn quoted(v: Seq<char>) -> Seq<char> {
    "\""@ + v + "\""@
}

/// `(tag a)`.
pub open spec fn node_one(tag: Seq<char>, a: Seq<char>) -> Seq<char> {
    "("@ + (tag + " "@ + a) + ")"@
}

/// `(tag a b)`.
pub open spec fn node_two(tag: Seq<char>, a: Seq<char>, b: Seq<char>) -> Seq<char> {
    "("@ + (tag + " "@ + a + " "@ + b) + ")"@
}

/// Each of the parts on an indented line.
pub open spec fn lines(parts: Seq<Seq<char>>) -> Seq<char>
    decreases parts.len(),
{
    if parts.len() == 0 {
        seq![]
    } else {
        lines(parts.drop_last()) + "\n    "@ + parts.last()
    }
}

/// A list on lines of a board: its head, then each of its parts on a line.
pub open spec fn block_text(head: Seq<char>, parts: Seq<Seq<char>>) -> Seq<char> {
    "\n  "@ + ("("@ + (head + lines(parts) + "\n  "@) + ")"@)
}

pub fn quote(v: &str) -> (r: String)
    ensures
        r@ == quoted(v@),
{
    "\"".to_owned().concat(v).concat("\"")
}

pub fn write_one(tag: &str, a: &str) -> (r: String)
    ensures
        r@ == node_one(tag@, a@),
{
    let inner: String = tag.to_owned().concat(" ").concat(a);
    "(".to_owned().concat(inner.as_str()).concat(")")
}

pub fn write_two(tag: &str, a: &str, b: &str) -> (r: String)
    ensures
        r@ == node_two(tag@, a@, b@),
{
    let inner: String = tag.to_owned().concat(" ").concat(a).concat(" ").concat(b);
    "(".to_owned().concat(inner.as_str()).concat(")")
}

pub fn write_lines(parts: &Vec<String>) -> (r: String)
    ensures
        r@ == lines(strings_of(parts@)),
{
    let ghost all = strings_of(parts@);
    let mut out: String = String::new();
    let mut k: usize = 0;
    assert(out@ =~= lines(all.take(0)));
    while k < parts.len()
        invariant
            all == strings_of(parts@),
            k <= parts@.len(),
            out@ == lines(all.take(k as int)),
        decreases parts@.len() - k,
    {
        assert(all[k as int] == parts@[k as int]@);
        assert(all.take(k + 1).drop_last() =~= all.take(k as int));
        out.append("\n    ");
        out.append(parts[k].as_str());
        k = k + 1;
    }
    assert(all.take(k as int) =~= all);
    out
}

pub fn write_block(head: &str, parts: &Vec<String>) -> (r: String)
    ensures
        r@ == block_text(head@, strings_of(parts@)),
{
    let body: String = write_lines(parts);
    let inner: String = head.to_owned().concat(body.as_str()).concat("\n  ");
    let list: String = "(".to_owned().concat(inner.as_str()).concat(")");
    "\n  ".to_owned().concat(list.as_str())
}

// What they say
/// A string that needs no escapes.
pub open spec fn needs_no_escape(s: Seq<char>) -> bool {
    forall|k: int| 0 <= k < s.len() ==> s[k] != '"' && s[k] != '\\'
}

proof fn lemma_blank()
    ensures
        " "@.len() == 1,
        is_space(" "@[0]),
        "("@ == seq!['('],
        ")"@ == seq![')'],
        "\""@ == seq!['"'],
{
    reveal_strlit(" ");
    reveal_strlit("(");
    reveal_strlit(")");
    reveal_strlit("\"");
    assert("("@ =~= seq!['(']);
    assert(")"@ =~= seq![')']);
    assert("\""@ =~= seq!['"']);
}

pub proof fn lemma_quoted(v: Seq<char>)
    requires
        needs_no_escape(v),
    ensures
        items(quoted(v)) == Some(seq![Tree::Str(v)]),
{
    lemma_blank();
    lemma_items_string(v);
}

pub proof fn lemma_node_one(tag: Seq<char>, a: Seq<char>)
    requires
        is_word(tag),
        items(a) is Some,
    ensures
        items(node_one(tag, a)) == Some(seq![Tree::List(seq![Tree::Atom(tag)] + items(a).unwrap())]),
{
    lemma_blank();
    lemma_items_word(tag);
    lemma_items_then(tag, " "@, a);
    lemma_items_list(tag + " "@ + a);
}

pub proof fn lemma_node_two(tag: Seq<char>, a: Seq<char>, b: Seq<char>)
    requires
        is_word(tag),
        items(a) is Some,
        items(b) is Some,
    ensures
        items(node_two(tag, a, b)) == Some(
            seq![Tree::List(seq![Tree::Atom(tag)] + items(a).unwrap() + items(b).unwrap())],
        ),
{
    lemma_blank();
    lemma_items_word(tag);
    lemma_items_then(tag, " "@, a);
    lemma_items_then(tag + " "@ + a, " "@, b);
    lemma_items_list(tag + " "@ + a + " "@ + b);
}

/// Each of the parts says one node.
pub open spec fn each_one(parts: Seq<Seq<char>>, nodes: Seq<Tree>) -> bool {
    &&& parts.len() == nodes.len()
    &&& forall|k: int|
        0 <= k < parts.len() ==> items(#[trigger] parts[k]) == Some(seq![nodes[k]])
}

pub proof fn lemma_lines(parts: Seq<Seq<char>>, nodes: Seq<Tree>)
    requires
        each_one(parts, nodes),
    ensures
        items(lines(parts)) == Some(nodes),
        parts.len() > 0 ==> lines(parts).len() > 0 && is_space(lines(parts)[0]),
    decreases parts.len(),
{
    reveal_strlit("\n    ");
    let w = "\n    "@;
    assert forall|k: int| 0 <= k < w.len() implies is_space(w[k]) by {}
    if parts.len() == 0 {
        lemma_items_space(lines(parts));
        assert(nodes =~= Seq::<Tree>::empty());
    } else {
        let p = parts.drop_last();
        let n = nodes.drop_last();
        assert(each_one(p, n)) by {
            assert forall|k: int| 0 <= k < p.len() implies items(#[trigger] p[k]) == Some(
                seq![n[k]],
            ) by {
                assert(p[k] == parts[k]);
            }
        }
        lemma_lines(p, n);
        assert(items(parts[parts.len() - 1]) == Some(seq![nodes[parts.len() - 1]]));
        lemma_items_then(lines(p), w, parts.last());
        assert(n + seq![nodes.last()] =~= nodes);
        if p.len() == 0 {
            assert(lines(p) =~= Seq::<char>::empty());
            assert(lines(parts)[0] == w[0]);
        } else {
            assert(lines(parts)[0] == lines(p)[0]);
        }
    }
}

/// A list on lines says the list of its head and its parts.
pub proof fn lemma_block_text(head: Seq<char>, parts: Seq<Seq<char>>, nodes: Seq<Tree>)
    requires
        items(head) is Some,
        parts.len() > 0,
        each_one(parts, nodes),
    ensures
        items(block_text(head, parts)) == Some(seq![Tree::List(items(head).unwrap() + nodes)]),
        block_text(head, parts).len() > 0,
        ends_head(block_text(head, parts)[0]),
{
    reveal_strlit("\n  ");
    let w = "\n  "@;
    assert forall|k: int| 0 <= k < w.len() implies is_space(w[k]) by {}
    lemma_blank();
    lemma_lines(parts, nodes);
    lemma_items_join(head, lines(parts));
    lemma_items_space(w);
    lemma_items_join(head + lines(parts), w);
    let inner = head + lines(parts) + w;
    let said = items(head).unwrap() + nodes;
    assert(said + Seq::<Tree>::empty() =~= said);
    lemma_items_list(inner);
    lemma_items_lead(w, "("@ + inner + ")"@);
    assert(block_text(head, parts)[0] == w[0]);
}

} // verus!
