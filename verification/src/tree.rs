//! S-expressions as trees.
use crate::text::same;
use vstd::prelude::*;
use vstd::string::*;

verus! {

/// A parsed S-expression.
#[derive(Debug)]
pub enum SexpNode {
    /// A bare word or number.
    Atom(String),
    /// A quoted string, without its quotes and escapes.
    Str(String),
    /// A parenthesised list.
    List(Vec<SexpNode>),
}

/// A parsed S-expression, as plain text.
pub enum Tree {
    Atom(Seq<char>),
    Str(Seq<char>),
    List(Seq<Tree>),
}

impl SexpNode {
    /// The node as plain text.
    pub open spec fn tree(self) -> Tree
        decreases self,
    {
        match self {
            SexpNode::Atom(s) => Tree::Atom(s@),
            SexpNode::Str(s) => Tree::Str(s@),
            SexpNode::List(v) => Tree::List(forest(v@)),
        }
    }
}

/// Nodes as plain text.
pub open spec fn forest(v: Seq<SexpNode>) -> Seq<Tree>
    decreases v,
{
    if v.len() == 0 {
        seq![]
    } else {
        forest(v.drop_last()).push(v.last().tree())
    }
}

impl View for SexpNode {
    type V = Tree;

    open spec fn view(&self) -> Tree {
        self.tree()
    }
}

pub proof fn lemma_forest(v: Seq<SexpNode>)
    ensures
        forest(v).len() == v.len(),
        forall|i: int| 0 <= i < v.len() ==> #[trigger] forest(v)[i] == v[i]@,
    decreases v.len(),
{
    if v.len() > 0 {
        lemma_forest(v.drop_last());
        assert forall|i: int| 0 <= i < v.len() implies #[trigger] forest(v)[i] == v[i]@ by {
            if i < v.len() - 1 {
                assert(forest(v)[i] == forest(v.drop_last())[i]);
                assert(v.drop_last()[i] == v[i]);
            }
        }
    }
}

pub proof fn lemma_forest_push(v: Seq<SexpNode>, n: SexpNode)
    ensures
        forest(v.push(n)) == forest(v).push(n@),
{
    assert(v.push(n).drop_last() =~= v);
}

// Reading nodes
/// The text of a word or a string.
pub open spec fn tree_text(t: Tree) -> Option<Seq<char>> {
    match t {
        Tree::Atom(s) => Some(s),
        Tree::Str(s) => Some(s),
        Tree::List(_) => None,
    }
}

/// The children of a list; nothing else has any.
pub open spec fn children(t: Tree) -> Seq<Tree> {
    match t {
        Tree::List(v) => v,
        _ => seq![],
    }
}

/// The word that a list begins with.
pub open spec fn tree_tag(t: Tree) -> Option<Seq<char>> {
    if children(t).len() > 0 {
        match children(t)[0] {
            Tree::Atom(s) => Some(s),
            _ => None,
        }
    } else {
        None
    }
}

/// The list begins with this word.
pub open spec fn tagged(t: Tree, tag: Seq<char>) -> bool {
    tree_tag(t) == Some(tag)
}

/// The first child, number `k` or later, that begins with this word.
pub open spec fn child_from(v: Seq<Tree>, tag: Seq<char>, k: int) -> Option<Tree>
    decreases v.len() - k,
{
    if k < 0 || k >= v.len() {
        None
    } else if tagged(v[k], tag) {
        Some(v[k])
    } else {
        child_from(v, tag, k + 1)
    }
}

/// The first child list that begins with this word.
pub open spec fn child(t: Tree, tag: Seq<char>) -> Option<Tree> {
    child_from(children(t), tag, 0)
}

/// The child lists that begin with this word.
pub open spec fn children_tagged(t: Tree, tag: Seq<char>) -> Seq<Tree> {
    children(t).filter(|c: Tree| tagged(c, tag))
}

/// The child at a place of the list; the word it begins with has number 0.
pub open spec fn element(t: Tree, i: int) -> Option<Tree> {
    if 0 <= i < children(t).len() {
        Some(children(t)[i])
    } else {
        None
    }
}

/// The text at a place of the list.
pub open spec fn element_text(t: Tree, i: int) -> Option<Seq<char>> {
    match element(t, i) {
        Some(c) => tree_text(c),
        None => None,
    }
}

/// A text that may be missing.
pub open spec fn opt_text(r: Option<&str>) -> Option<Seq<char>> {
    match r {
        Some(s) => Some(s@),
        None => None,
    }
}

/// A node that may be missing.
pub open spec fn opt_tree(r: Option<&SexpNode>) -> Option<Tree> {
    match r {
        Some(n) => Some(n@),
        None => None,
    }
}

/// Borrowed nodes as plain text.
pub open spec fn trees_of(v: Seq<&SexpNode>) -> Seq<Tree> {
    v.map_values(|n: &SexpNode| n@)
}

impl SexpNode {
    /// The text of a word or a string.
    pub fn text(&self) -> (r: Option<&str>)
        ensures
            opt_text(r) == tree_text(self@),
    {
        match self {
            SexpNode::Atom(s) => Some(s.as_str()),
            SexpNode::Str(s) => Some(s.as_str()),
            SexpNode::List(_) => None,
        }
    }

    /// The word that a list begins with.
    pub fn tag(&self) -> (r: Option<&str>)
        ensures
            opt_text(r) == tree_tag(self@),
    {
        match self {
            SexpNode::List(v) => {
                proof {
                    lemma_forest(v@);
                }
                if v.len() > 0 {
                    match &v[0] {
                        SexpNode::Atom(s) => Some(s.as_str()),
                        SexpNode::Str(_) => None,
                        SexpNode::List(_) => None,
                    }
                } else {
                    None
                }
            },
            SexpNode::Atom(_) => None,
            SexpNode::Str(_) => None,
        }
    }

    /// The list begins with this word.
    pub fn has_tag(&self, tag: &str) -> (r: bool)
        ensures
            r == tagged(self@, tag@),
    {
        match self.tag() {
            Some(t) => same(t, tag),
            None => false,
        }
    }

    /// The child at a place of the list; the word it begins with has number 0.
    pub fn get(&self, i: usize) -> (r: Option<&SexpNode>)
        ensures
            opt_tree(r) == element(self@, i as int),
    {
        match self {
            SexpNode::List(v) => {
                proof {
                    lemma_forest(v@);
                }
                if i < v.len() {
                    Some(&v[i])
                } else {
                    None
                }
            },
            SexpNode::Atom(_) => None,
            SexpNode::Str(_) => None,
        }
    }

    /// The text at a place of the list.
    pub fn get_text(&self, i: usize) -> (r: Option<&str>)
        ensures
            opt_text(r) == element_text(self@, i as int),
    {
        match self.get(i) {
            Some(n) => n.text(),
            None => None,
        }
    }

    /// The first child list that begins with this word.
    pub fn find(&self, tag: &str) -> (r: Option<&SexpNode>)
        ensures
            opt_tree(r) == child(self@, tag@),
    {
        match self {
            SexpNode::List(v) => {
                proof {
                    lemma_forest(v@);
                }
                let mut k: usize = 0;
                while k < v.len()
                    invariant
                        self@ == Tree::List(forest(v@)),
                        forest(v@).len() == v@.len(),
                        forall|i: int| 0 <= i < v@.len() ==> #[trigger] forest(v@)[i] == v@[i]@,
                        k <= v@.len(),
                        child(self@, tag@) == child_from(forest(v@), tag@, k as int),
                    decreases v@.len() - k,
                {
                    assert(forest(v@)[k as int] == v@[k as int]@);
                    if v[k].has_tag(tag) {
                        return Some(&v[k]);
                    }
                    k = k + 1;
                }
                None
            },
            SexpNode::Atom(_) => None,
            SexpNode::Str(_) => None,
        }
    }

    /// The child lists that begin with this word.
    pub fn find_all(&self, tag: &str) -> (r: Vec<&SexpNode>)
        ensures
            trees_of(r@) == children_tagged(self@, tag@),
    {
        let ghost keep = |c: Tree| tagged(c, tag@);
        let mut out: Vec<&SexpNode> = Vec::new();
        match self {
            SexpNode::List(v) => {
                let ghost all = forest(v@);
                proof {
                    lemma_forest(v@);
                    assert(all.take(0).filter(keep) =~= seq![]) by {
                        reveal(Seq::filter);
                    }
                }
                let mut k: usize = 0;
                assert(trees_of(out@) =~= all.take(0).filter(keep));
                while k < v.len()
                    invariant
                        all == forest(v@),
                        all.len() == v@.len(),
                        forall|i: int| 0 <= i < v@.len() ==> #[trigger] all[i] == v@[i]@,
                        k <= v@.len(),
                        keep == (|c: Tree| tagged(c, tag@)),
                        trees_of(out@) == all.take(k as int).filter(keep),
                    decreases v@.len() - k,
                {
                    let ghost before = out@;
                    proof {
                        reveal(Seq::filter);
                        assert(all.take(k + 1).drop_last() =~= all.take(k as int));
                        assert(all.take(k + 1).last() == all[k as int]);
                    }
                    if v[k].has_tag(tag) {
                        out.push(&v[k]);
                        assert(trees_of(out@) =~= trees_of(before).push(v@[k as int]@));
                    }
                    k = k + 1;
                }
                assert(all.take(all.len() as int) =~= all);
            },
            SexpNode::Atom(_) => {
                proof {
                    reveal(Seq::filter);
                }
                assert(trees_of(out@) =~= children_tagged(self@, tag@));
            },
            SexpNode::Str(_) => {
                proof {
                    reveal(Seq::filter);
                }
                assert(trees_of(out@) =~= children_tagged(self@, tag@));
            },
        }
        out
    }

    /// The text behind the word that a list begins with.
    pub fn value(&self) -> (r: Option<&str>)
        ensures
            opt_text(r) == element_text(self@, 1),
    {
        self.get_text(1)
    }

    /// A copy of the node.
    pub fn copy(&self) -> (r: SexpNode)
        ensures
            r@ == self@,
        decreases self,
    {
        match self {
            SexpNode::Atom(s) => SexpNode::Atom(s.as_str().to_owned()),
            SexpNode::Str(s) => SexpNode::Str(s.as_str().to_owned()),
            SexpNode::List(v) => {
                let mut out: Vec<SexpNode> = Vec::new();
                let mut k: usize = 0;
                assert(forest(v@.take(0)) =~= forest(out@));
                while k < v.len()
                    invariant
                        self == SexpNode::List(*v),
                        k <= v@.len(),
                        forest(out@) == forest(v@.take(k as int)),
                    decreases v@.len() - k,
                {
                    assert(decreases_to!(v@ => v@[k as int]));
                    assert(decreases_to!(v => v@));
                    assert(decreases_to!(self => self->List_0));
                    let n: SexpNode = v[k].copy();
                    proof {
                        lemma_forest_push(out@, n);
                        lemma_forest_push(v@.take(k as int), v@[k as int]);
                        assert(v@.take(k + 1) =~= v@.take(k as int).push(v@[k as int]));
                    }
                    out.push(n);
                    k = k + 1;
                }
                assert(v@.take(k as int) =~= v@);
                SexpNode::List(out)
            },
        }
    }
}

} // verus!
