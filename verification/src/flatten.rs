//! Derived symbols made self-contained.
//!
//! A derived symbol only names its parent. KiCAD does not follow that name
//! inside a schematic, so a derived symbol is merged with its parent before it
//! is put there.
use crate::symlib::{
    dirs_of, lemma_definition_shape, lemma_definition_text, lemma_resolved, own_tree,
    resolve_lib_symbol_node, resolved, symbol_tree, FileText, SymbolDir,
};
use crate::text::{same, text_of};
use crate::tree::{
    child, child_from, children, children_tagged, element_text, forest, lemma_forest,
    lemma_forest_push, opt_text, tagged, tree_text, SexpNode, Tree,
};
use crate::words::chars_of;
use vstd::prelude::*;
use vstd::string::*;

verus! {

// Ids
/// The part of a text between its colons: part 0 stands before the first one.
pub open spec fn colon_part(s: Seq<char>, k: int) -> Option<Seq<char>>
    decreases s.len(),
{
    let i = colon_from(s, 0);
    if k < 0 {
        None
    } else if k == 0 {
        Some(s.subrange(0, i))
    } else if 0 <= i < s.len() {
        colon_part(s.subrange(i + 1, s.len() as int), k - 1)
    } else {
        None
    }
}

/// The first colon at `i` or later, or the end of the text.
pub open spec fn colon_from(s: Seq<char>, i: int) -> int
    decreases s.len() - i,
{
    if i < 0 || i >= s.len() {
        s.len() as int
    } else if s[i] == ':' {
        i
    } else {
        colon_from(s, i + 1)
    }
}

/// What stands before the first colon.
pub open spec fn library_part(s: Seq<char>) -> Seq<char> {
    s.subrange(0, colon_from(s, 0))
}

/// What stands between the first colon and the next, or the whole text if it
/// has no colon.
pub open spec fn name_part(s: Seq<char>) -> Seq<char> {
    match colon_part(s, 1) {
        Some(n) => n,
        None => s,
    }
}

fn find_colon(cs: &Vec<char>, i: usize) -> (r: usize)
    requires
        i <= cs@.len(),
    ensures
        r == colon_from(cs@, i as int),
        i <= r <= cs@.len(),
{
    let n: usize = cs.len();
    let mut k: usize = i;
    while k < n && cs[k] != ':'
        invariant
            n == cs@.len(),
            i <= k <= n,
            colon_from(cs@, i as int) == colon_from(cs@, k as int),
        decreases n - k,
    {
        k = k + 1;
    }
    k
}

fn take_library(s: &str) -> (r: &str)
    ensures
        r@ == library_part(s@),
{
    let cs: Vec<char> = chars_of(s);
    s.substring_char(0, find_colon(&cs, 0))
}

proof fn lemma_colon_shift(s: Seq<char>, a: int, i: int)
    requires
        0 <= a <= i <= s.len(),
    ensures
        colon_from(s.subrange(a, s.len() as int), i - a) == colon_from(s, i) - a,
    decreases s.len() - i,
{
    let t = s.subrange(a, s.len() as int);
    if i < s.len() {
        assert(t[i - a] == s[i]);
        if s[i] != ':' {
            lemma_colon_shift(s, a, i + 1);
        }
    }
}

fn take_name(s: &str) -> (r: &str)
    ensures
        r@ == name_part(s@),
{
    let cs: Vec<char> = chars_of(s);
    let n: usize = cs.len();
    let i: usize = find_colon(&cs, 0);
    if i < n {
        let j: usize = find_colon(&cs, i + 1);
        proof {
            let t = s@.subrange(i + 1, n as int);
            lemma_colon_shift(s@, i + 1, i + 1);
            assert(colon_part(s@, 1) == colon_part(t, 0));
            assert(t.subrange(0, j - (i + 1)) =~= s@.subrange(i + 1, j as int));
        }
        s.substring_char(i + 1, j)
    } else {
        s
    }
}

/// There is a colon in the text.
pub open spec fn has_colon(s: Seq<char>) -> bool {
    colon_from(s, 0) < s.len()
}

/// The id of the parent `extends` of the symbol `lib_id`: as it is if it names
/// a library, else in the library of the child.
pub open spec fn parent_id(lib_id: Seq<char>, extends: Seq<char>) -> Seq<char> {
    if has_colon(extends) {
        extends
    } else {
        library_part(lib_id) + ":"@ + extends
    }
}

fn make_parent_id(lib_id: &str, extends: &str) -> (r: String)
    ensures
        r@ == parent_id(lib_id@, extends@),
{
    let cs: Vec<char> = chars_of(extends);
    if find_colon(&cs, 0) < cs.len() {
        extends.to_owned()
    } else {
        take_library(lib_id).to_owned().concat(":").concat(extends)
    }
}

// Merging
/// `s` begins with `p`.
pub open spec fn begins(s: Seq<char>, p: Seq<char>) -> bool {
    s.len() >= p.len() && s.subrange(0, p.len() as int) == p
}

/// The name of a unit of the parent, as a unit of the child.
pub open spec fn unit_name(name: Seq<char>, parent: Seq<char>, kid: Seq<char>) -> Seq<char> {
    let p = parent + "_"@;
    if begins(name, p) {
        kid + "_"@ + name.subrange(p.len() as int, name.len() as int)
    } else {
        name
    }
}

fn make_unit_name(name: &str, parent: &str, kid: &str) -> (r: String)
    ensures
        r@ == unit_name(name@, parent@, kid@),
{
    let p: String = parent.to_owned().concat("_");
    let n: usize = name.unicode_len();
    let m: usize = p.as_str().unicode_len();
    if n >= m && same(name.substring_char(0, m), p.as_str()) {
        kid.to_owned().concat("_").concat(name.substring_char(m, n))
    } else {
        name.to_owned()
    }
}

/// The children of a unit with the first string, number `k` or later, made the
/// name of a unit of the child.
pub open spec fn unit_renamed(v: Seq<Tree>, parent: Seq<char>, kid: Seq<char>, k: int) -> Seq<Tree>
    decreases v.len() - k,
{
    if k < 0 || k >= v.len() {
        v
    } else {
        match v[k] {
            Tree::Str(name) => v.update(k, Tree::Str(unit_name(name, parent, kid))),
            _ => unit_renamed(v, parent, kid, k + 1),
        }
    }
}

/// A unit: a list that begins with the text `symbol`.
pub open spec fn is_unit(t: Tree) -> bool {
    t is List && children(t).len() > 0 && tree_text(children(t)[0]) == Some("symbol"@)
}

/// What becomes of a child of the parent in the merged symbol: strings become
/// the name of the child, properties go, units are renamed, and everything else
/// stays.
pub open spec fn inherited(t: Tree, lib_id: Seq<char>, parent: Seq<char>, kid: Seq<char>) -> Option<
    Tree,
> {
    match t {
        Tree::Str(_) => Some(Tree::Str(lib_id)),
        _ => if tagged(t, "property"@) {
            None
        } else if is_unit(t) {
            Some(Tree::List(unit_renamed(children(t), parent, kid, 1)))
        } else {
            Some(t)
        },
    }
}

/// What becomes of the first `k` children of the parent.
pub open spec fn inherited_all(
    v: Seq<Tree>,
    lib_id: Seq<char>,
    parent: Seq<char>,
    kid: Seq<char>,
    k: int,
) -> Seq<Tree>
    decreases k,
{
    if k <= 0 {
        seq![]
    } else {
        match inherited(v[k - 1], lib_id, parent, kid) {
            Some(t) => inherited_all(v, lib_id, parent, kid, k - 1).push(t),
            None => inherited_all(v, lib_id, parent, kid, k - 1),
        }
    }
}

/// The place of the first child, number `k` or later, that begins with `tag`,
/// or the end.
pub open spec fn tag_index(v: Seq<Tree>, tag: Seq<char>, k: int) -> int
    decreases v.len() - k,
{
    if k < 0 || k >= v.len() {
        v.len() as int
    } else if tagged(v[k], tag) {
        k
    } else {
        tag_index(v, tag, k + 1)
    }
}

/// The properties among the children from number 1 on.
pub open spec fn own_properties(t: Tree) -> Seq<Tree> {
    if children(t).len() > 0 {
        children(t).drop_first().filter(|c: Tree| tagged(c, "property"@))
    } else {
        seq![]
    }
}

/// The child merged with its parent: the parent's definition, with the child's
/// properties before the first unit.
pub open spec fn merged(
    kid: Tree,
    parent: Seq<Tree>,
    lib_id: Seq<char>,
    parent_name: Seq<char>,
    kid_name: Seq<char>,
) -> Tree {
    let base = inherited_all(parent, lib_id, parent_name, kid_name, parent.len() as int);
    let at = tag_index(base, "symbol"@, 0);
    Tree::List(
        base.subrange(0, at) + own_properties(kid) + base.subrange(at, base.len() as int),
    )
}

// Chains
/// The name of the parent that a definition gives, if it is derived.
pub open spec fn extends_of(t: Tree) -> Option<Seq<char>> {
    match child(t, "extends"@) {
        None => None,
        Some(e) => element_text(e, 1),
    }
}

/// The id of the parent of the symbol `lib_id`, if it is derived.
pub open spec fn parent_of(dirs: Seq<Seq<FileText>>, lib_id: Seq<char>) -> Option<Seq<char>> {
    match symbol_tree(dirs, lib_id) {
        None => None,
        Some(t) => match extends_of(t) {
            None => None,
            Some(x) => Some(parent_id(lib_id, x)),
        },
    }
}

/// The child joined with the definition of its parent, if there is one.
pub open spec fn joined(kid: Tree, parent: Option<Tree>, lib_id: Seq<char>, p: Seq<char>) -> Option<
    Tree,
> {
    match parent {
        None => None,
        Some(Tree::List(v)) => Some(merged(kid, v, lib_id, name_part(p), name_part(lib_id))),
        Some(_) => Some(kid),
    }
}

/// The parents of a symbol end after at most `n` of them.
pub open spec fn chain_ends(dirs: Seq<Seq<FileText>>, lib_id: Seq<char>, n: nat) -> bool
    decreases n,
{
    match parent_of(dirs, lib_id) {
        None => true,
        Some(p) => n > 0 && chain_ends(dirs, p, (n - 1) as nat),
    }
}

/// The parents of a symbol end: none is its own ancestor.
pub open spec fn chain_is_finite(dirs: Seq<Seq<FileText>>, lib_id: Seq<char>) -> bool {
    exists|n: nat| #[trigger] chain_ends(dirs, lib_id, n)
}

/// The definition of a symbol, merged with at most `n` parents.
pub open spec fn flattened(dirs: Seq<Seq<FileText>>, lib_id: Seq<char>, n: nat) -> Option<Tree>
    decreases n,
{
    match symbol_tree(dirs, lib_id) {
        None => None,
        Some(kid) => match parent_of(dirs, lib_id) {
            None => Some(kid),
            Some(p) => if n == 0 {
                None
            } else {
                joined(kid, flattened(dirs, p, (n - 1) as nat), lib_id, p)
            },
        },
    }
}

/// The number of parents of a symbol.
pub open spec fn chain_length(dirs: Seq<Seq<FileText>>, lib_id: Seq<char>) -> nat {
    choose|n: nat|
        #[trigger] chain_ends(dirs, lib_id, n) && (n == 0 || !chain_ends(
            dirs,
            lib_id,
            (n - 1) as nat,
        ))
}

/// The definition of a symbol, merged with all its parents.
pub open spec fn flat_symbol(dirs: Seq<Seq<FileText>>, lib_id: Seq<char>) -> Option<Tree> {
    flattened(dirs, lib_id, chain_length(dirs, lib_id))
}

proof fn lemma_chain_grows(dirs: Seq<Seq<FileText>>, lib_id: Seq<char>, n: nat, m: nat)
    requires
        chain_ends(dirs, lib_id, n),
        n <= m,
    ensures
        chain_ends(dirs, lib_id, m),
        flattened(dirs, lib_id, n) == flattened(dirs, lib_id, m),
    decreases n,
{
    match parent_of(dirs, lib_id) {
        None => {},
        Some(p) => {
            lemma_chain_grows(dirs, p, (n - 1) as nat, (m - 1) as nat);
        },
    }
}

proof fn lemma_least_chain(dirs: Seq<Seq<FileText>>, lib_id: Seq<char>, n: nat)
    requires
        chain_ends(dirs, lib_id, n),
    ensures
        exists|k: nat|
            #[trigger] chain_ends(dirs, lib_id, k) && (k == 0 || !chain_ends(
                dirs,
                lib_id,
                (k - 1) as nat,
            )),
    decreases n,
{
    if n > 0 && chain_ends(dirs, lib_id, (n - 1) as nat) {
        lemma_least_chain(dirs, lib_id, (n - 1) as nat);
    }
}

/// The number of parents is the least that ends the chain.
pub proof fn lemma_chain_length(dirs: Seq<Seq<FileText>>, lib_id: Seq<char>, n: nat)
    requires
        chain_ends(dirs, lib_id, n),
    ensures
        chain_length(dirs, lib_id) <= n,
        chain_ends(dirs, lib_id, chain_length(dirs, lib_id)),
        flat_symbol(dirs, lib_id) == flattened(dirs, lib_id, n),
{
    lemma_least_chain(dirs, lib_id, n);
    let k = chain_length(dirs, lib_id);
    if k > n {
        lemma_chain_grows(dirs, lib_id, n, (k - 1) as nat);
    }
    lemma_chain_grows(dirs, lib_id, k, n);
}

/// A parent has a shorter chain.
proof fn lemma_parent_chain(dirs: Seq<Seq<FileText>>, lib_id: Seq<char>)
    requires
        chain_is_finite(dirs, lib_id),
        parent_of(dirs, lib_id) is Some,
    ensures
        ({
            let p = parent_of(dirs, lib_id).unwrap();
            &&& chain_is_finite(dirs, p)
            &&& chain_length(dirs, p) < chain_length(dirs, lib_id)
            &&& flat_symbol(dirs, p) == flattened(
                dirs,
                p,
                (chain_length(dirs, lib_id) - 1) as nat,
            )
        }),
{
    let n = choose|n: nat| #[trigger] chain_ends(dirs, lib_id, n);
    lemma_chain_length(dirs, lib_id, n);
    let k = chain_length(dirs, lib_id);
    let p = parent_of(dirs, lib_id).unwrap();
    lemma_chain_length(dirs, p, (k - 1) as nat);
}

/// The parents of the symbol end after at most `limit` of them.
pub fn chain_ends_within(dirs: &Vec<SymbolDir>, lib_id: &str, limit: usize) -> (r: bool)
    ensures
        r == chain_ends(dirs_of(dirs@), lib_id@, limit as nat),
    decreases limit,
{
    match find_parent(dirs, lib_id) {
        None => true,
        Some(p) => limit > 0 && chain_ends_within(dirs, p.as_str(), limit - 1),
    }
}

fn find_parent(dirs: &Vec<SymbolDir>, lib_id: &str) -> (r: Option<String>)
    ensures
        match r {
            Some(s) => parent_of(dirs_of(dirs@), lib_id@) == Some(s@),
            None => parent_of(dirs_of(dirs@), lib_id@) is None,
        },
{
    match resolve_lib_symbol_node(dirs, lib_id) {
        None => None,
        Some(n) => match find_extends_of(&n) {
            None => None,
            Some(x) => Some(make_parent_id(lib_id, x)),
        },
    }
}

fn find_extends_of(node: &SexpNode) -> (r: Option<&str>)
    ensures
        opt_text(r) == extends_of(node@),
{
    match node.find("extends") {
        None => None,
        Some(e) => e.value(),
    }
}

// Flattening
/// The children of a unit with its name made the name of a unit of the child.
fn rename_unit(v: Vec<SexpNode>, parent: &str, kid: &str) -> (r: Vec<SexpNode>)
    ensures
        forest(r@) == unit_renamed(forest(v@), parent@, kid@, 1),
{
    let ghost all = forest(v@);
    let mut out: Vec<SexpNode> = v;
    let mut k: usize = 1;
    proof {
        lemma_forest(out@);
    }
    while k < out.len()
        invariant
            all == forest(out@),
            all.len() == out@.len(),
            forall|i: int| 0 <= i < out@.len() ==> #[trigger] all[i] == out@[i]@,
            1 <= k,
            all == forest(v@),
            unit_renamed(all, parent@, kid@, 1) == unit_renamed(all, parent@, kid@, k as int),
        decreases out@.len() - k,
    {
        assert(all[k as int] == out@[k as int]@);
        let new_name: Option<String> = match &out[k] {
            SexpNode::Str(name) => Some(make_unit_name(name.as_str(), parent, kid)),
            SexpNode::Atom(_) => None,
            SexpNode::List(_) => None,
        };
        match new_name {
            Some(s) => {
                let ghost before = out@;
                let ghost t = s@;
                out.set(k, SexpNode::Str(s));
                proof {
                    lemma_forest(out@);
                    assert(forest(out@) =~= all.update(k as int, Tree::Str(t)));
                }
                return out;
            },
            None => {},
        }
        k = k + 1;
    }
    out
}

/// What becomes of a child of the parent.
fn inherit(node: SexpNode, lib_id: &str, parent: &str, kid: &str) -> (r: Option<SexpNode>)
    ensures
        own_tree(r) == inherited(node@, lib_id@, parent@, kid@),
{
    if node.has_tag("property") {
        return None;
    }
    match node {
        SexpNode::Str(_) => Some(SexpNode::Str(lib_id.to_owned())),
        SexpNode::Atom(s) => Some(SexpNode::Atom(s)),
        SexpNode::List(v) => {
            proof {
                lemma_forest(v@);
            }
            let unit: bool = if v.len() > 0 {
                match v[0].text() {
                    Some(t) => same(t, "symbol"),
                    None => false,
                }
            } else {
                false
            };
            if unit {
                Some(SexpNode::List(rename_unit(v, parent, kid)))
            } else {
                Some(SexpNode::List(v))
            }
        },
    }
}

fn inherit_all(nodes: Vec<SexpNode>, lib_id: &str, parent: &str, kid: &str) -> (r: Vec<SexpNode>)
    ensures
        forest(r@) == inherited_all(
            forest(nodes@),
            lib_id@,
            parent@,
            kid@,
            forest(nodes@).len() as int,
        ),
{
    let ghost all = forest(nodes@);
    let mut out: Vec<SexpNode> = Vec::new();
    let mut k: usize = 0;
    proof {
        lemma_forest(nodes@);
    }
    assert(forest(out@) =~= inherited_all(all, lib_id@, parent@, kid@, 0));
    while k < nodes.len()
        invariant
            all == forest(nodes@),
            all.len() == nodes@.len(),
            forall|i: int| 0 <= i < nodes@.len() ==> #[trigger] all[i] == nodes@[i]@,
            k <= nodes@.len(),
            forest(out@) == inherited_all(all, lib_id@, parent@, kid@, k as int),
        decreases nodes@.len() - k,
    {
        assert(all[k as int] == nodes@[k as int]@);
        match inherit(nodes[k].copy(), lib_id, parent, kid) {
            Some(n) => {
                proof {
                    lemma_forest_push(out@, n);
                }
                out.push(n);
            },
            None => {},
        }
        k = k + 1;
    }
    out
}

fn copy_properties(node: &SexpNode) -> (r: Vec<SexpNode>)
    ensures
        forest(r@) == own_properties(node@),
{
    let ghost keep = |c: Tree| tagged(c, "property"@);
    let mut out: Vec<SexpNode> = Vec::new();
    match node {
        SexpNode::List(v) => {
            let ghost all = forest(v@);
            proof {
                lemma_forest(v@);
            }
            if v.len() > 0 {
                let ghost rest = all.drop_first();
                let mut k: usize = 1;
                proof {
                    reveal(Seq::filter);
                    assert(rest.take(0).filter(keep) =~= seq![]);
                }
                while k < v.len()
                    invariant
                        all == forest(v@),
                        all.len() == v@.len(),
                        forall|i: int| 0 <= i < v@.len() ==> #[trigger] all[i] == v@[i]@,
                        rest == all.drop_first(),
                        1 <= k <= v@.len(),
                        keep == (|c: Tree| tagged(c, "property"@)),
                        forest(out@) == rest.take(k - 1).filter(keep),
                    decreases v@.len() - k,
                {
                    proof {
                        reveal(Seq::filter);
                        assert(all[k as int] == v@[k as int]@);
                        assert(rest.take(k as int).drop_last() =~= rest.take(k - 1));
                        assert(rest.take(k as int).last() == all[k as int]);
                    }
                    if v[k].has_tag("property") {
                        let n: SexpNode = v[k].copy();
                        proof {
                            lemma_forest_push(out@, n);
                        }
                        out.push(n);
                    }
                    k = k + 1;
                }
                assert(rest.take(rest.len() as int) =~= rest);
            }
        },
        SexpNode::Atom(_) => {},
        SexpNode::Str(_) => {},
    }
    out
}

pub fn find_tag(nodes: &Vec<SexpNode>, tag: &str) -> (r: usize)
    ensures
        r == tag_index(forest(nodes@), tag@, 0),
        r <= nodes@.len(),
{
    let ghost all = forest(nodes@);
    proof {
        lemma_forest(nodes@);
    }
    let mut k: usize = 0;
    while k < nodes.len()
        invariant
            all == forest(nodes@),
            all.len() == nodes@.len(),
            forall|i: int| 0 <= i < nodes@.len() ==> #[trigger] all[i] == nodes@[i]@,
            k <= nodes@.len(),
            tag_index(all, tag@, 0) == tag_index(all, tag@, k as int),
        decreases nodes@.len() - k,
    {
        assert(all[k as int] == nodes@[k as int]@);
        if nodes[k].has_tag(tag) {
            return k;
        }
        k = k + 1;
    }
    k
}

/// The child merged with its parent.
fn merge(kid: &SexpNode, parent: Vec<SexpNode>, lib_id: &str, parent_name: &str, kid_name: &str) -> (r:
    SexpNode)
    ensures
        r@ == merged(kid@, forest(parent@), lib_id@, parent_name@, kid_name@),
{
    let base: Vec<SexpNode> = inherit_all(parent, lib_id, parent_name, kid_name);
    let props: Vec<SexpNode> = copy_properties(kid);
    let at: usize = find_tag(&base, "symbol");
    let ghost b = forest(base@);
    let ghost p = forest(props@);
    proof {
        lemma_forest(base@);
        lemma_forest(props@);
    }
    let mut out: Vec<SexpNode> = Vec::new();
    let mut k: usize = 0;
    assert(forest(out@) =~= b.subrange(0, 0));
    while k < at
        invariant
            b == forest(base@),
            b.len() == base@.len(),
            forall|i: int| 0 <= i < base@.len() ==> #[trigger] b[i] == base@[i]@,
            k <= at <= base@.len(),
            forest(out@) == b.subrange(0, k as int),
        decreases at - k,
    {
        let n: SexpNode = base[k].copy();
        proof {
            assert(b[k as int] == base@[k as int]@);
            lemma_forest_push(out@, n);
            assert(b.subrange(0, k + 1) =~= b.subrange(0, k as int).push(b[k as int]));
        }
        out.push(n);
        k = k + 1;
    }
    let mut j: usize = 0;
    assert(forest(out@) =~= b.subrange(0, at as int) + p.subrange(0, 0));
    while j < props.len()
        invariant
            p == forest(props@),
            p.len() == props@.len(),
            forall|i: int| 0 <= i < props@.len() ==> #[trigger] p[i] == props@[i]@,
            j <= props@.len(),
            forest(out@) == b.subrange(0, at as int) + p.subrange(0, j as int),
        decreases props@.len() - j,
    {
        let n: SexpNode = props[j].copy();
        proof {
            assert(p[j as int] == props@[j as int]@);
            lemma_forest_push(out@, n);
            assert(b.subrange(0, at as int) + p.subrange(0, j + 1) =~= (b.subrange(0, at as int)
                + p.subrange(0, j as int)).push(p[j as int]));
        }
        out.push(n);
        j = j + 1;
    }
    assert(p.subrange(0, p.len() as int) =~= p);
    assert(forest(out@) =~= b.subrange(0, at as int) + p + b.subrange(at as int, at as int));
    while k < base.len()
        invariant
            b == forest(base@),
            b.len() == base@.len(),
            forall|i: int| 0 <= i < base@.len() ==> #[trigger] b[i] == base@[i]@,
            at <= k <= base@.len(),
            forest(out@) == b.subrange(0, at as int) + p + b.subrange(at as int, k as int),
        decreases base@.len() - k,
    {
        let n: SexpNode = base[k].copy();
        proof {
            assert(b[k as int] == base@[k as int]@);
            lemma_forest_push(out@, n);
            assert(b.subrange(0, at as int) + p + b.subrange(at as int, k + 1) =~= (b.subrange(
                0,
                at as int,
            ) + p + b.subrange(at as int, k as int)).push(b[k as int]));
        }
        out.push(n);
        k = k + 1;
    }
    SexpNode::List(out)
}

/// The child joined with the definition of its parent, if there is one.
fn join(kid: SexpNode, parent: Option<SexpNode>, lib_id: &str, p: &str) -> (r: Option<SexpNode>)
    ensures
        own_tree(r) == joined(kid@, own_tree(parent), lib_id@, p@),
{
    match parent {
        None => None,
        Some(SexpNode::List(v)) => Some(merge(&kid, v, lib_id, take_name(p), take_name(lib_id))),
        Some(SexpNode::Atom(_)) => Some(kid),
        Some(SexpNode::Str(_)) => Some(kid),
    }
}

/// Resolve a lib_id to a parsed, self-contained SexpNode tree with any
/// `extends` chain flattened, the way KiCAD's GUI embeds derived symbols: the
/// child keeps its own name and `(property ...)` fields, and inherits everything
/// else from its resolved parent. Unit sub-symbols are renamed from `Parent_U_S`
/// to `Child_U_S` to match the top-level name.
///
/// No symbol may be its own ancestor, see `chain_ends_within`.
pub fn resolve_lib_symbol_node_flattened(dirs: &Vec<SymbolDir>, lib_id: &str) -> (r: Option<
    SexpNode,
>)
    requires
        chain_is_finite(dirs_of(dirs@), lib_id@),
    ensures
        own_tree(r) == flat_symbol(dirs_of(dirs@), lib_id@),
    decreases chain_length(dirs_of(dirs@), lib_id@),
{
    proof {
        let n = choose|n: nat| #[trigger] chain_ends(dirs_of(dirs@), lib_id@, n);
        lemma_chain_length(dirs_of(dirs@), lib_id@, n);
    }
    let kid: SexpNode = match resolve_lib_symbol_node(dirs, lib_id) {
        Some(n) => n,
        None => {
            return None;
        },
    };
    let parent_lib_id: String = match find_extends_of(&kid) {
        Some(x) => make_parent_id(lib_id, x),
        None => {
            return Some(kid);
        },
    };
    proof {
        lemma_parent_chain(dirs_of(dirs@), lib_id@);
    }
    let parent: Option<SexpNode> = resolve_lib_symbol_node_flattened(
        dirs,
        parent_lib_id.as_str(),
    );
    join(kid, parent, lib_id, parent_lib_id.as_str())
}

// Laws
/// The first child of two lists put together.
proof fn lemma_child_join(a: Seq<Tree>, b: Seq<Tree>, tag: Seq<char>, k: int)
    requires
        0 <= k <= a.len(),
    ensures
        child_from(a + b, tag, k) == (match child_from(a, tag, k) {
            Some(c) => Some(c),
            None => child_from(b, tag, 0),
        }),
    decreases a.len() - k,
{
    if k < a.len() {
        assert((a + b)[k] == a[k]);
        if !tagged(a[k], tag) {
            lemma_child_join(a, b, tag, k + 1);
        }
    } else {
        lemma_child_shift(a, b, tag, 0);
    }
}

proof fn lemma_child_shift(a: Seq<Tree>, b: Seq<Tree>, tag: Seq<char>, k: int)
    requires
        0 <= k <= b.len(),
    ensures
        child_from(a + b, tag, a.len() + k) == child_from(b, tag, k),
    decreases b.len() - k,
{
    if k < b.len() {
        assert((a + b)[a.len() + k] == b[k]);
        if !tagged(b[k], tag) {
            lemma_child_shift(a, b, tag, k + 1);
        }
    }
}

proof fn lemma_no_child(v: Seq<Tree>, tag: Seq<char>, k: int)
    requires
        0 <= k,
        forall|i: int| 0 <= i < v.len() ==> !tagged(#[trigger] v[i], tag),
    ensures
        child_from(v, tag, k) is None,
    decreases v.len() - k,
{
    if k < v.len() {
        lemma_no_child(v, tag, k + 1);
    }
}

/// Renaming a unit keeps what it begins with.
proof fn lemma_unit_head(v: Seq<Tree>, parent: Seq<char>, kid: Seq<char>, k: int)
    requires
        1 <= k,
    ensures
        unit_renamed(v, parent, kid, k).len() == v.len(),
        v.len() > 0 ==> unit_renamed(v, parent, kid, k)[0] == v[0],
    decreases v.len() - k,
{
    if k < v.len() {
        if !(v[k] is Str) {
            lemma_unit_head(v, parent, kid, k + 1);
        }
    }
}

proof fn lemma_words_differ()
    ensures
        "extends"@ != "property"@,
        "extends"@ != "symbol"@,
        "property"@ != "symbol"@,
{
    reveal_strlit("extends");
    reveal_strlit("property");
    reveal_strlit("symbol");
    assert("extends"@.len() == 7 && "property"@.len() == 8 && "symbol"@.len() == 6);
}

/// What is inherited begins with `extends` exactly if it did so before, and
/// never with `property`.
proof fn lemma_inherited(t: Tree, lib_id: Seq<char>, parent: Seq<char>, kid: Seq<char>)
    ensures
        tagged(t, "extends"@) ==> inherited(t, lib_id, parent, kid) == Some(t),
        inherited(t, lib_id, parent, kid) matches Some(u) ==> {
            &&& tagged(u, "extends"@) ==> u == t
            &&& !tagged(u, "property"@)
        },
{
    lemma_words_differ();
    if is_unit(t) {
        lemma_unit_head(children(t), parent, kid, 1);
    }
}

proof fn lemma_inherited_all(
    v: Seq<Tree>,
    lib_id: Seq<char>,
    parent: Seq<char>,
    kid: Seq<char>,
    k: int,
)
    requires
        0 <= k <= v.len(),
    ensures
        child_from(inherited_all(v, lib_id, parent, kid, k), "extends"@, 0) == child_from(
            v.take(k),
            "extends"@,
            0,
        ),
        forall|i: int|
            0 <= i < inherited_all(v, lib_id, parent, kid, k).len() ==> !tagged(
                #[trigger] inherited_all(v, lib_id, parent, kid, k)[i],
                "property"@,
            ),
    decreases k,
{
    let tag = "extends"@;
    if k > 0 {
        lemma_inherited_all(v, lib_id, parent, kid, k - 1);
        lemma_inherited(v[k - 1], lib_id, parent, kid);
        let before = inherited_all(v, lib_id, parent, kid, k - 1);
        assert(v.take(k) =~= v.take(k - 1) + seq![v[k - 1]]);
        lemma_child_join(v.take(k - 1), seq![v[k - 1]], tag, 0);
        let one = seq![v[k - 1]];
        assert(one[0] == v[k - 1]);
        assert(child_from(one, tag, 1) is None);
        match inherited(v[k - 1], lib_id, parent, kid) {
            Some(u) => {
                let last = seq![u];
                assert(before.push(u) =~= before + last);
                lemma_child_join(before, last, tag, 0);
                assert(last[0] == u);
                assert(child_from(last, tag, 1) is None);
            },
            None => {},
        }
    } else {
        assert(v.take(0) =~= Seq::<Tree>::empty());
    }
}

proof fn lemma_tag_index(v: Seq<Tree>, tag: Seq<char>, k: int)
    requires
        0 <= k <= v.len(),
    ensures
        k <= tag_index(v, tag, k) <= v.len(),
    decreases v.len() - k,
{
    if k < v.len() && !tagged(v[k], tag) {
        lemma_tag_index(v, tag, k + 1);
    }
}

proof fn lemma_own_properties(t: Tree)
    ensures
        forall|i: int|
            0 <= i < own_properties(t).len() ==> tagged(
                #[trigger] own_properties(t)[i],
                "property"@,
            ),
{
    let keep = |c: Tree| tagged(c, "property"@);
    if children(t).len() > 0 {
        let rest = children(t).drop_first();
        assert forall|i: int| 0 <= i < own_properties(t).len() implies tagged(
            #[trigger] own_properties(t)[i],
            "property"@,
        ) by {
            rest.lemma_filter_pred(keep, i);
        }
    }
}

/// A merged symbol is derived exactly if its parent still was.
proof fn lemma_merged_extends(
    kid: Tree,
    v: Seq<Tree>,
    lib_id: Seq<char>,
    parent: Seq<char>,
    kid_name: Seq<char>,
)
    ensures
        extends_of(merged(kid, v, lib_id, parent, kid_name)) == extends_of(Tree::List(v)),
{
    let tag = "extends"@;
    let base = inherited_all(v, lib_id, parent, kid_name, v.len() as int);
    let at = tag_index(base, "symbol"@, 0);
    let props = own_properties(kid);
    lemma_inherited_all(v, lib_id, parent, kid_name, v.len() as int);
    assert(v.take(v.len() as int) =~= v);
    lemma_tag_index(base, "symbol"@, 0);
    let a = base.subrange(0, at);
    let b = base.subrange(at, base.len() as int);
    assert(base =~= a + b);
    lemma_child_join(a, b, tag, 0);
    lemma_child_join(a + props, b, tag, 0);
    lemma_child_join(a, props, tag, 0);
    lemma_own_properties(kid);
    lemma_words_differ();
    lemma_no_child(props, tag, 0);
}

/// The definition of a symbol is a list that begins with `symbol` and a name.
pub open spec fn well_shaped(t: Tree) -> bool {
    &&& t is List
    &&& children(t).len() >= 2
    &&& children(t)[0] == Tree::Atom("symbol"@)
    &&& children(t)[1] is Str
}

proof fn lemma_symbol_tree_shape(dirs: Seq<Seq<FileText>>, lib_id: Seq<char>)
    requires
        symbol_tree(dirs, lib_id) is Some,
    ensures
        well_shaped(symbol_tree(dirs, lib_id).unwrap()),
{
    let b = resolved(dirs, lib_id).unwrap();
    lemma_resolved(dirs, lib_id);
    lemma_definition_text(b);
    lemma_definition_shape(text_of(b));
}

/// The name of a merged symbol is that of the child.
proof fn lemma_merged_shape(
    kid: Tree,
    v: Seq<Tree>,
    lib_id: Seq<char>,
    parent: Seq<char>,
    kid_name: Seq<char>,
)
    requires
        well_shaped(Tree::List(v)),
    ensures
        well_shaped(merged(kid, v, lib_id, parent, kid_name)),
        children(merged(kid, v, lib_id, parent, kid_name))[1] == Tree::Str(lib_id),
{
    let base = inherited_all(v, lib_id, parent, kid_name, v.len() as int);
    let at = tag_index(base, "symbol"@, 0);
    lemma_inherited_front(v, lib_id, parent, kid_name, v.len() as int);
    assert(!tagged(base[0], "symbol"@));
    assert(!tagged(base[1], "symbol"@));
    lemma_tag_index(base, "symbol"@, 2);
    assert(tag_index(base, "symbol"@, 0) == tag_index(base, "symbol"@, 1));
    assert(tag_index(base, "symbol"@, 1) == tag_index(base, "symbol"@, 2));
    let m = base.subrange(0, at) + own_properties(kid) + base.subrange(at, base.len() as int);
    assert(m[0] == base[0]);
    assert(m[1] == base[1]);
}

proof fn lemma_inherited_front(
    v: Seq<Tree>,
    lib_id: Seq<char>,
    parent: Seq<char>,
    kid: Seq<char>,
    k: int,
)
    requires
        2 <= k <= v.len(),
        v[0] == Tree::Atom("symbol"@),
        v[1] is Str,
    ensures
        inherited_all(v, lib_id, parent, kid, k).len() >= 2,
        inherited_all(v, lib_id, parent, kid, k)[0] == v[0],
        inherited_all(v, lib_id, parent, kid, k)[1] == Tree::Str(lib_id),
    decreases k,
{
    if k > 2 {
        lemma_inherited_front(v, lib_id, parent, kid, k - 1);
    } else {
        let a = inherited_all(v, lib_id, parent, kid, 0);
        let b = inherited_all(v, lib_id, parent, kid, 1);
        let c = inherited_all(v, lib_id, parent, kid, 2);
        assert(!tagged(v[0], "property"@));
        assert(b == a.push(v[0]));
        assert(c == b.push(Tree::Str(lib_id)));
    }
}

proof fn lemma_flattened_shape(dirs: Seq<Seq<FileText>>, lib_id: Seq<char>, n: nat)
    requires
        chain_ends(dirs, lib_id, n),
        flattened(dirs, lib_id, n) is Some,
    ensures
        well_shaped(flattened(dirs, lib_id, n).unwrap()),
        extends_of(flattened(dirs, lib_id, n).unwrap()) is None,
        parent_of(dirs, lib_id) is Some ==> children(
            flattened(dirs, lib_id, n).unwrap(),
        )[1] == Tree::Str(lib_id),
    decreases n,
{
    let kid = symbol_tree(dirs, lib_id).unwrap();
    lemma_symbol_tree_shape(dirs, lib_id);
    match parent_of(dirs, lib_id) {
        None => {},
        Some(p) => {
            lemma_flattened_shape(dirs, p, (n - 1) as nat);
            let v = children(flattened(dirs, p, (n - 1) as nat).unwrap());
            lemma_merged_extends(kid, v, lib_id, name_part(p), name_part(lib_id));
            lemma_merged_shape(kid, v, lib_id, name_part(p), name_part(lib_id));
        },
    }
}

/// A flattened symbol is self-contained: it names no parent any more. It is
/// still a list that begins with `symbol` and a name, and a derived symbol has
/// its own id there, not that of its parent.
pub proof fn law_flattened_is_self_contained(dirs: Seq<Seq<FileText>>, lib_id: Seq<char>)
    requires
        chain_is_finite(dirs, lib_id),
        flat_symbol(dirs, lib_id) is Some,
    ensures
        extends_of(flat_symbol(dirs, lib_id).unwrap()) is None,
        well_shaped(flat_symbol(dirs, lib_id).unwrap()),
        parent_of(dirs, lib_id) is Some ==> children(flat_symbol(dirs, lib_id).unwrap())[1]
            == Tree::Str(lib_id),
{
    let n = choose|n: nat| #[trigger] chain_ends(dirs, lib_id, n);
    lemma_chain_length(dirs, lib_id, n);
    lemma_flattened_shape(dirs, lib_id, n);
}

/// A symbol that is not derived is taken as it is.
pub proof fn law_base_symbol_is_kept(dirs: Seq<Seq<FileText>>, lib_id: Seq<char>)
    requires
        parent_of(dirs, lib_id) is None,
    ensures
        flat_symbol(dirs, lib_id) == symbol_tree(dirs, lib_id),
{
    assert(chain_ends(dirs, lib_id, 0));
    lemma_chain_length(dirs, lib_id, 0);
}

/// A derived symbol has exactly its own properties, none of its parent's.
pub proof fn law_derived_symbol_keeps_its_properties(dirs: Seq<Seq<FileText>>, lib_id: Seq<char>)
    requires
        chain_is_finite(dirs, lib_id),
        parent_of(dirs, lib_id) is Some,
        flat_symbol(dirs, lib_id) is Some,
    ensures
        children_tagged(flat_symbol(dirs, lib_id).unwrap(), "property"@) == own_properties(
            symbol_tree(dirs, lib_id).unwrap(),
        ),
{
    let keep = |c: Tree| tagged(c, "property"@);
    let p = parent_of(dirs, lib_id).unwrap();
    let kid = symbol_tree(dirs, lib_id).unwrap();
    lemma_parent_chain(dirs, lib_id);
    let n = choose|n: nat| #[trigger] chain_ends(dirs, lib_id, n);
    lemma_chain_length(dirs, lib_id, n);
    law_flattened_is_self_contained(dirs, p);
    let v = children(flat_symbol(dirs, p).unwrap());
    let base = inherited_all(v, lib_id, name_part(p), name_part(lib_id), v.len() as int);
    let at = tag_index(base, "symbol"@, 0);
    let props = own_properties(kid);
    lemma_tag_index(base, "symbol"@, 0);
    lemma_inherited_all(v, lib_id, name_part(p), name_part(lib_id), v.len() as int);
    let a = base.subrange(0, at);
    let b = base.subrange(at, base.len() as int);
    Seq::filter_distributes_over_add(a + props, b, keep);
    Seq::filter_distributes_over_add(a, props, keep);
    lemma_filter_none(a, keep);
    lemma_filter_none(b, keep);
    lemma_own_properties(kid);
    lemma_filter_whole(props, keep);
    assert(children_tagged(merged(kid, v, lib_id, name_part(p), name_part(lib_id)), "property"@)
        =~= props);
}

proof fn lemma_filter_none(v: Seq<Tree>, keep: spec_fn(Tree) -> bool)
    requires
        forall|i: int| 0 <= i < v.len() ==> !keep(#[trigger] v[i]),
    ensures
        v.filter(keep) == Seq::<Tree>::empty(),
    decreases v.len(),
{
    reveal(Seq::filter);
    if v.len() > 0 {
        let rest = v.drop_last();
        assert forall|i: int| 0 <= i < rest.len() implies !keep(#[trigger] rest[i]) by {
            assert(rest[i] == v[i]);
        }
        lemma_filter_none(rest, keep);
    }
}

proof fn lemma_filter_whole(v: Seq<Tree>, keep: spec_fn(Tree) -> bool)
    requires
        forall|i: int| 0 <= i < v.len() ==> keep(#[trigger] v[i]),
    ensures
        v.filter(keep) == v,
    decreases v.len(),
{
    reveal(Seq::filter);
    if v.len() > 0 {
        let rest = v.drop_last();
        assert forall|i: int| 0 <= i < rest.len() implies keep(#[trigger] rest[i]) by {
            assert(rest[i] == v[i]);
        }
        lemma_filter_whole(rest, keep);
        assert(rest.push(v.last()) =~= v);
    }
}

} // verus!
