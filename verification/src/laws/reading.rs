//! What is read from the tree of a board, list by list and item by item.
use crate::numbers::is_number;
use crate::reading::{
    board_nets, board_traces, footprint_node, footprint_node_from, footprint_pads,
    footprint_property, live_pad, matching, named_from, net_name_of, net_of, nets_of, number_at,
    number_in, or_empty, pad_index_from, pad_node, pad_of, pad_place, pads_of, property_from,
    refers, refers_from, summary, text_in, trace_of, traces_of, PadText, TraceText,
};
use crate::tree::{child, child_from, children, children_tagged, element_text, tagged, Tree};
use crate::words::index_from;
use vstd::prelude::*;
use vstd::string::*;

verus! {

// Lists and items
/// A list that begins with the word `tag`.
pub open spec fn headed(t: Tree, tag: Seq<char>) -> bool {
    t matches Tree::List(v) && v.len() > 0 && v[0] == Tree::Atom(tag)
}

/// Item number `i` of the list is the text `s`, in quotes or not.
pub open spec fn item_is(t: Tree, i: int, s: Seq<char>) -> bool {
    t matches Tree::List(v) && 0 <= i < v.len() && (v[i] == Tree::Atom(s) || v[i] == Tree::Str(s))
}

/// The first list inside `t` that begins with `tag` has `s` for item number `i`.
pub open spec fn list_says(t: Tree, tag: Seq<char>, i: int, s: Seq<char>) -> bool {
    child(t, tag) matches Some(c) && item_is(c, i, s)
}

/// The list that is found by its first word is the first one that begins with
/// it: one more list at the end is found only where none was before.
pub proof fn law_first_list_is_found(kids: Seq<Tree>, x: Tree, tag: Seq<char>)
    ensures
        child(Tree::List(kids.push(x)), tag) == (match child(Tree::List(kids), tag) {
            Some(c) => Some(c),
            None => if headed(x, tag) {
                Some(x)
            } else {
                None
            },
        }),
        child(Tree::List(Seq::empty()), tag) is None,
        forall|s: Seq<char>| child(Tree::Atom(s), tag) is None && child(Tree::Str(s), tag) is None,
{
    lemma_child_push(kids, x, tag, 0);
}

proof fn lemma_child_push(kids: Seq<Tree>, x: Tree, tag: Seq<char>, k: int)
    requires
        0 <= k <= kids.len(),
    ensures
        child_from(kids.push(x), tag, k) == (match child_from(kids, tag, k) {
            Some(c) => Some(c),
            None => if headed(x, tag) {
                Some(x)
            } else {
                None
            },
        }),
    decreases kids.len() - k,
{
    let v = kids.push(x);
    if k < kids.len() {
        assert(v[k] == kids[k]);
        lemma_child_push(kids, x, tag, k + 1);
    } else {
        assert(v[k] == x);
        assert(child_from(v, tag, k + 1) is None);
    }
}

/// All lists that begin with a word are found, in their order.
pub proof fn law_all_lists_are_found(kids: Seq<Tree>, x: Tree, tag: Seq<char>)
    ensures
        children_tagged(Tree::List(kids.push(x)), tag) == (if headed(x, tag) {
            children_tagged(Tree::List(kids), tag).push(x)
        } else {
            children_tagged(Tree::List(kids), tag)
        }),
        children_tagged(Tree::List(Seq::empty()), tag) == Seq::<Tree>::empty(),
{
    reveal(Seq::filter);
    let keep = |c: Tree| tagged(c, tag);
    assert(kids.push(x).drop_last() =~= kids);
    assert(kids.push(x).last() == x);
    assert(Seq::<Tree>::empty().filter(keep) =~= Seq::<Tree>::empty());
}

/// An item that is a text is told, a list is none.
pub proof fn law_items_are_told(t: Tree, i: int, s: Seq<char>)
    ensures
        element_text(t, i) == Some(s) <==> item_is(t, i, s),
        number_at(t, i) == Some(s) <==> item_is(t, i, s) && is_number(s),
{
}

/// A number is told only where one stands.
pub proof fn law_numbers_are_told(t: Tree, tag: Seq<char>, i: int, s: Seq<char>)
    ensures
        number_in(t, tag, i) == Some(s) <==> list_says(t, tag, i, s) && is_number(s),
        text_in(t, tag, i) == Some(s) <==> list_says(t, tag, i, s),
{
}

// Footprints
/// A node gives the property `name` the value `s`.
pub open spec fn sets_property(x: Tree, name: Seq<char>, s: Seq<char>) -> bool {
    headed(x, "property"@) && item_is(x, 1, name) && item_is(x, 2, s)
}

/// A footprint has a reference exactly where one of its nodes sets it.
pub proof fn law_reference_is_a_property(kids: Seq<Tree>, x: Tree, reference: Seq<char>)
    ensures
        refers(Tree::List(kids.push(x)), reference) <==> refers(Tree::List(kids), reference)
            || sets_property(x, "Reference"@, reference),
        !refers(Tree::List(Seq::empty()), reference),
{
    law_all_lists_are_found(kids, x, "property"@);
    let props = children_tagged(Tree::List(kids), "property"@);
    law_items_are_told(x, 1, "Reference"@);
    law_items_are_told(x, 2, reference);
    if headed(x, "property"@) {
        lemma_refers_push(props, x, reference, 0);
    }
}

proof fn lemma_refers_push(props: Seq<Tree>, x: Tree, reference: Seq<char>, k: int)
    requires
        0 <= k <= props.len(),
    ensures
        refers_from(props.push(x), reference, k) <==> refers_from(props, reference, k) || (item_is(
            x,
            1,
            "Reference"@,
        ) && item_is(x, 2, reference)),
    decreases props.len() - k,
{
    let v = props.push(x);
    if k < props.len() {
        assert(v[k] == props[k]);
        lemma_refers_push(props, x, reference, k + 1);
    } else {
        assert(v[k] == x);
        assert(!refers_from(v, reference, k + 1));
        law_items_are_told(x, 1, "Reference"@);
        law_items_are_told(x, 2, reference);
    }
}

/// The footprint that is found is the first one with the reference.
pub proof fn law_first_footprint_is_found(kids: Seq<Tree>, x: Tree, reference: Seq<char>)
    ensures
        footprint_node(Tree::List(kids.push(x)), reference) == (match footprint_node(
            Tree::List(kids),
            reference,
        ) {
            Some(f) => Some(f),
            None => if headed(x, "footprint"@) && refers(x, reference) {
                Some(x)
            } else {
                None
            },
        }),
        footprint_node(Tree::List(Seq::empty()), reference) is None,
{
    law_all_lists_are_found(kids, x, "footprint"@);
    if headed(x, "footprint"@) {
        lemma_node_push(children_tagged(Tree::List(kids), "footprint"@), x, reference, 0);
    }
}

proof fn lemma_node_push(fps: Seq<Tree>, x: Tree, reference: Seq<char>, k: int)
    requires
        0 <= k <= fps.len(),
    ensures
        footprint_node_from(fps.push(x), reference, k) == (match footprint_node_from(
            fps,
            reference,
            k,
        ) {
            Some(f) => Some(f),
            None => if refers(x, reference) {
                Some(x)
            } else {
                None
            },
        }),
    decreases fps.len() - k,
{
    let v = fps.push(x);
    if k < fps.len() {
        assert(v[k] == fps[k]);
        lemma_node_push(fps, x, reference, k + 1);
    } else {
        assert(v[k] == x);
        assert(footprint_node_from(v, reference, k + 1) is None);
    }
}

/// A footprint has no property of this name.
pub open spec fn lacks_property(kids: Seq<Tree>, name: Seq<char>) -> bool {
    forall|i: int|
        0 <= i < kids.len() ==> !(headed(#[trigger] kids[i], "property"@) && item_is(kids[i], 1, name))
}

/// The value of a property is that of the first node with its name.
pub proof fn law_first_property_is_told(kids: Seq<Tree>, x: Tree, name: Seq<char>, s: Seq<char>)
    requires
        lacks_property(kids, name),
    ensures
        sets_property(x, name, s) ==> forall|more: Seq<Tree>|
            #[trigger] footprint_property(Tree::List(kids.push(x) + more), name) == s,
        headed(x, "property"@) && item_is(x, 1, name) && (forall|z: Seq<char>| !item_is(x, 2, z))
            ==> forall|more: Seq<Tree>|
            (#[trigger] footprint_property(Tree::List(kids.push(x) + more), name)).len() == 0,
        footprint_property(Tree::List(kids), name).len() == 0,
{
    lemma_no_property(kids, name);
    let props = children_tagged(Tree::List(kids), "property"@);
    lemma_property_none(props, name, 0);
    if sets_property(x, name, s) {
        assert forall|more: Seq<Tree>| #[trigger] footprint_property(
            Tree::List(kids.push(x) + more),
            name,
        ) == s by {
            lemma_property_first(kids, x, more, name);
            law_items_are_told(x, 2, s);
        }
    }
    if headed(x, "property"@) && item_is(x, 1, name) && (forall|z: Seq<char>| !item_is(x, 2, z)) {
        assert forall|more: Seq<Tree>| (#[trigger] footprint_property(
            Tree::List(kids.push(x) + more),
            name,
        )).len() == 0 by {
            lemma_property_first(kids, x, more, name);
            if let Some(z) = element_text(x, 2) {
                law_items_are_told(x, 2, z);
                assert(item_is(x, 2, z));
            }
        }
    }
}

proof fn lemma_no_property(kids: Seq<Tree>, name: Seq<char>)
    requires
        lacks_property(kids, name),
    ensures
        forall|i: int|
            0 <= i < children_tagged(Tree::List(kids), "property"@).len() ==> element_text(
                #[trigger] children_tagged(Tree::List(kids), "property"@)[i],
                1,
            ) != Some(name),
    decreases kids.len(),
{
    if kids.len() > 0 {
        let k = kids.drop_last();
        let x = kids.last();
        assert(kids =~= k.push(x));
        assert forall|i: int| 0 <= i < k.len() implies !(headed(#[trigger] k[i], "property"@)
            && item_is(k[i], 1, name)) by {
            assert(k[i] == kids[i]);
        }
        lemma_no_property(k, name);
        law_all_lists_are_found(k, x, "property"@);
        law_items_are_told(x, 1, name);
        assert(kids[kids.len() - 1] == x);
    } else {
        assert(kids =~= Seq::<Tree>::empty());
        law_all_lists_are_found(kids, Tree::List(seq![]), "property"@);
    }
}

proof fn lemma_property_none(props: Seq<Tree>, name: Seq<char>, k: int)
    requires
        0 <= k,
        forall|i: int| 0 <= i < props.len() ==> element_text(#[trigger] props[i], 1) != Some(name),
    ensures
        property_from(props, name, k) is None,
    decreases props.len() - k,
{
    if k < props.len() {
        lemma_property_none(props, name, k + 1);
    }
}

proof fn lemma_property_skip(props: Seq<Tree>, name: Seq<char>, k: int, n: int)
    requires
        0 <= k <= n < props.len(),
        forall|i: int| k <= i < n ==> element_text(#[trigger] props[i], 1) != Some(name),
        element_text(props[n], 1) == Some(name),
    ensures
        property_from(props, name, k) == element_text(props[n], 2),
    decreases n - k,
{
    if k < n {
        lemma_property_skip(props, name, k + 1, n);
    }
}

proof fn lemma_property_first(
    kids: Seq<Tree>,
    x: Tree,
    more: Seq<Tree>,
    name: Seq<char>,
)
    requires
        lacks_property(kids, name),
        headed(x, "property"@),
        item_is(x, 1, name),
    ensures
        footprint_property(Tree::List(kids.push(x) + more), name) == or_empty(element_text(x, 2)),
{
    let all = kids.push(x) + more;
    let keep = |c: Tree| tagged(c, "property"@);
    let a = children_tagged(Tree::List(kids), "property"@);
    let b = children_tagged(Tree::List(kids.push(x)), "property"@);
    let c = children_tagged(Tree::List(all), "property"@);
    law_all_lists_are_found(kids, x, "property"@);
    Seq::filter_distributes_over_add(kids.push(x), more, keep);
    assert(c =~= b + more.filter(keep));
    lemma_no_property(kids, name);
    law_items_are_told(x, 1, name);
    let n = a.len() as int;
    assert(c[n] == x);
    assert forall|i: int| 0 <= i < n implies element_text(#[trigger] c[i], 1) != Some(name) by {
        assert(c[i] == a[i]);
    }
    lemma_property_skip(c, name, 0, n);
}

/// What is told of a footprint: its name is its first item, its place stands in
/// its first `at`, its layer in its first `layer`; its reference and its value
/// are those of its properties.
pub proof fn law_summary_tells_the_footprint(fp: Tree, s: Seq<char>)
    ensures
        summary(fp).reference == footprint_property(fp, "Reference"@),
        summary(fp).value == footprint_property(fp, "Value"@),
        item_is(fp, 1, s) ==> summary(fp).footprint == s,
        summary(fp).x == Some(s) <==> list_says(fp, "at"@, 1, s) && is_number(s),
        summary(fp).y == Some(s) <==> list_says(fp, "at"@, 2, s) && is_number(s),
        summary(fp).rotation == Some(s) <==> list_says(fp, "at"@, 3, s) && is_number(s),
        list_says(fp, "layer"@, 1, s) ==> summary(fp).layer == s,
        (forall|z: Seq<char>| !list_says(fp, "layer"@, 1, z)) ==> summary(fp).layer.len() == 0,
        (forall|z: Seq<char>| !item_is(fp, 1, z)) ==> summary(fp).footprint.len() == 0,
{
    if element_text(fp, 1) is Some {
        let z = element_text(fp, 1).unwrap();
        law_items_are_told(fp, 1, z);
        assert(item_is(fp, 1, z));
    }
    if text_in(fp, "layer"@, 1) is Some {
        let z = text_in(fp, "layer"@, 1).unwrap();
        law_numbers_are_told(fp, "layer"@, 1, z);
        assert(list_says(fp, "layer"@, 1, z));
    }
    law_items_are_told(fp, 1, s);
    law_numbers_are_told(fp, "layer"@, 1, s);
}

// Pads
/// The node is a pad with this number at this place.
pub open spec fn is_pad(x: Tree, number: Seq<char>, px: Seq<char>, py: Seq<char>) -> bool {
    &&& headed(x, "pad"@)
    &&& item_is(x, 1, number)
    &&& list_says(x, "at"@, 1, px)
    &&& list_says(x, "at"@, 2, py)
    &&& is_number(px)
    &&& is_number(py)
}

/// The pads of a footprint are its nodes that are pads with a number and a
/// place, in their order, each with the name of its net.
pub proof fn law_pads_are_read(
    kids: Seq<Tree>,
    x: Tree,
    number: Seq<char>,
    px: Seq<char>,
    py: Seq<char>,
    net: Seq<char>,
)
    ensures
        is_pad(x, number, px, py) && (list_says(x, "net"@, 2, net) || (net.len() == 0 && forall|
            z: Seq<char>,
        | !list_says(x, "net"@, 2, z))) ==> footprint_pads(Tree::List(kids.push(x)))
            == footprint_pads(Tree::List(kids)).push(PadText { number, x: px, y: py, net }),
        (forall|a: Seq<char>, b: Seq<char>, c: Seq<char>| !is_pad(x, a, b, c)) ==> footprint_pads(
            Tree::List(kids.push(x)),
        ) == footprint_pads(Tree::List(kids)),
        footprint_pads(Tree::List(Seq::empty())).len() == 0,
{
    let old_pads = children_tagged(Tree::List(kids), "pad"@);
    law_all_lists_are_found(kids, x, "pad"@);
    law_items_are_told(x, 1, number);
    law_numbers_are_told(x, "at"@, 1, px);
    law_numbers_are_told(x, "at"@, 2, py);
    law_numbers_are_told(x, "net"@, 2, net);
    if let Some(z) = text_in(x, "net"@, 2) {
        law_numbers_are_told(x, "net"@, 2, z);
        assert(list_says(x, "net"@, 2, z));
    }
    if net.len() == 0 {
        assert(net =~= Seq::<char>::empty());
    }
    if headed(x, "pad"@) {
        let n = old_pads.len() as int;
        lemma_pads_same(old_pads, old_pads.push(x), n);
        if let Some(p) = pad_of(x) {
            law_items_are_told(x, 1, p.number);
            law_numbers_are_told(x, "at"@, 1, p.x);
            law_numbers_are_told(x, "at"@, 2, p.y);
            assert(is_pad(x, p.number, p.x, p.y));
        }
    }
}

proof fn lemma_pads_same(a: Seq<Tree>, b: Seq<Tree>, k: int)
    requires
        0 <= k <= a.len(),
        k <= b.len(),
        forall|i: int| 0 <= i < k ==> a[i] == b[i],
    ensures
        pads_of(a, k) == pads_of(b, k),
    decreases k,
{
    if k > 0 {
        lemma_pads_same(a, b, k - 1);
    }
}

/// The pad that is picked is the first one with the number.
pub proof fn law_first_pad_is_picked(pads: Seq<PadText>, number: Seq<char>)
    ensures
        match pad_index_from(pads, number, 0) {
            Some(k) => 0 <= k < pads.len() && pads[k].number == number && forall|i: int|
                0 <= i < k ==> (#[trigger] pads[i]).number != number,
            None => forall|i: int| 0 <= i < pads.len() ==> (#[trigger] pads[i]).number != number,
        },
{
    lemma_pad_index(pads, number, 0);
}

proof fn lemma_pad_index(pads: Seq<PadText>, number: Seq<char>, k: int)
    requires
        0 <= k,
    ensures
        match pad_index_from(pads, number, k) {
            Some(j) => k <= j < pads.len() && pads[j].number == number && forall|i: int|
                k <= i < j ==> (#[trigger] pads[i]).number != number,
            None => forall|i: int| k <= i < pads.len() ==> (#[trigger] pads[i]).number != number,
        },
    decreases pads.len() - k,
{
    if k < pads.len() && pads[k].number != number {
        lemma_pad_index(pads, number, k + 1);
    }
}

/// The pad of a live footprint is the first one with the number; it is told
/// apart whether the footprint or the pad is missing.
pub proof fn law_live_pad_is_the_first(v: Seq<Seq<char>>, reference: Seq<char>, number: Seq<char>)
    ensures
        live_pad(None, reference, number) == Err::<int, Seq<char>>(
            "Footprint '"@ + reference + "' not found"@,
        ),
        match live_pad(Some(v), reference, number) {
            Ok(k) => 0 <= k < v.len() && v[k] == number && forall|i: int|
                0 <= i < k ==> #[trigger] v[i] != number,
            Err(m) => m == "Pad '"@ + number + "' not found on '"@ + reference + "'"@ && forall|
                i: int,
            |
                0 <= i < v.len() ==> #[trigger] v[i] != number,
        },
{
    lemma_index(v, number, 0);
}

proof fn lemma_index(v: Seq<Seq<char>>, s: Seq<char>, k: int)
    requires
        0 <= k,
    ensures
        match index_from(v, s, k) {
            Some(j) => k <= j < v.len() && v[j] == s && forall|i: int|
                k <= i < j ==> #[trigger] v[i] != s,
            None => forall|i: int| k <= i < v.len() ==> #[trigger] v[i] != s,
        },
    decreases v.len() - k,
{
    if k < v.len() && v[k] != s {
        lemma_index(v, s, k + 1);
    }
}

/// The first place of a text in a list.
pub proof fn law_first_place_is_found(v: Seq<Seq<char>>, s: Seq<char>)
    ensures
        match index_from(v, s, 0) {
            Some(j) => 0 <= j < v.len() && v[j] == s && forall|i: int|
                0 <= i < j ==> #[trigger] v[i] != s,
            None => forall|i: int| 0 <= i < v.len() ==> #[trigger] v[i] != s,
        },
{
    lemma_index(v, s, 0);
}

/// The pad of a footprint on the board is the first of its pads with the number.
pub proof fn law_pad_node_is_the_first(kids: Seq<Tree>, x: Tree, number: Seq<char>)
    ensures
        pad_node(Tree::List(kids.push(x)), number) == (match pad_node(Tree::List(kids), number) {
            Some(p) => Some(p),
            None => if headed(x, "pad"@) && item_is(x, 1, number) {
                Some(x)
            } else {
                None
            },
        }),
        pad_node(Tree::List(Seq::empty()), number) is None,
{
    law_all_lists_are_found(kids, x, "pad"@);
    law_items_are_told(x, 1, number);
    if headed(x, "pad"@) {
        lemma_named_push(children_tagged(Tree::List(kids), "pad"@), x, number, 0);
    }
}

proof fn lemma_named_push(nodes: Seq<Tree>, x: Tree, name: Seq<char>, k: int)
    requires
        0 <= k <= nodes.len(),
    ensures
        named_from(nodes.push(x), name, k) == (match named_from(nodes, name, k) {
            Some(p) => Some(p),
            None => if item_is(x, 1, name) {
                Some(x)
            } else {
                None
            },
        }),
    decreases nodes.len() - k,
{
    let v = nodes.push(x);
    if k < nodes.len() {
        assert(v[k] == nodes[k]);
        lemma_named_push(nodes, x, name, k + 1);
    } else {
        assert(v[k] == x);
        law_items_are_told(x, 1, name);
        assert(named_from(v, name, k + 1) is None);
    }
}

/// A pad has a place on the board exactly where its footprint is there, has the
/// pad, and the pad has a place; what is missing is told.
pub proof fn law_pad_place_needs_all_three(tree: Tree, reference: Seq<char>, number: Seq<char>)
    ensures
        footprint_node(tree, reference) is None ==> pad_place(tree, reference, number) == Err::<
            (Tree, Tree),
            Seq<char>,
        >("Footprint '"@ + reference + "' not found on board"@),
        footprint_node(tree, reference) matches Some(fp) ==> match pad_node(fp, number) {
            None => pad_place(tree, reference, number) == Err::<(Tree, Tree), Seq<char>>(
                "Pad '"@ + number + "' not found on '"@ + reference + "'"@,
            ),
            Some(p) => pad_place(tree, reference, number) == (if child(p, "at"@) is Some {
                Ok::<(Tree, Tree), Seq<char>>((fp, p))
            } else {
                Err("Pad has no (at) node"@)
            }),
        },
{
}

// Nets
/// The nets of a board are its nodes that begin with `net` and have a number and
/// one more item, in their order.
pub proof fn law_nets_are_read(kids: Seq<Tree>, x: Tree, code: Seq<char>, name: Seq<char>)
    ensures
        headed(x, "net"@) && item_is(x, 1, code) && is_number(code) && item_is(x, 2, name)
            ==> board_nets(Tree::List(kids.push(x))) == board_nets(Tree::List(kids)).push(
            (code, name),
        ),
        headed(x, "net"@) && item_is(x, 1, code) && is_number(code) && children(x).len() >= 3
            && children(x)[2] is List ==> board_nets(Tree::List(kids.push(x))) == board_nets(
            Tree::List(kids),
        ).push((code, Seq::empty())),
        !headed(x, "net"@) || children(x).len() < 3 || (forall|c: Seq<char>|
            !(item_is(x, 1, c) && is_number(c))) ==> board_nets(Tree::List(kids.push(x)))
            == board_nets(Tree::List(kids)),
        board_nets(Tree::List(Seq::empty())).len() == 0,
{
    let nodes = children_tagged(Tree::List(kids), "net"@);
    law_all_lists_are_found(kids, x, "net"@);
    law_items_are_told(x, 1, code);
    if headed(x, "net"@) {
        lemma_nets_same(nodes, nodes.push(x), nodes.len() as int);
        if let Some(n) = net_of(x) {
            law_items_are_told(x, 1, n.0);
            assert(item_is(x, 1, n.0) && is_number(n.0));
        }
    }
}

proof fn lemma_nets_same(a: Seq<Tree>, b: Seq<Tree>, k: int)
    requires
        0 <= k <= a.len(),
        k <= b.len(),
        forall|i: int| 0 <= i < k ==> a[i] == b[i],
    ensures
        nets_of(a, k) == nets_of(b, k),
    decreases k,
{
    if k > 0 {
        lemma_nets_same(a, b, k - 1);
    }
}

// Tracks
/// The node is a track from one point to another.
pub open spec fn is_track(
    x: Tree,
    x1: Seq<char>,
    y1: Seq<char>,
    x2: Seq<char>,
    y2: Seq<char>,
) -> bool {
    &&& headed(x, "segment"@)
    &&& list_says(x, "start"@, 1, x1) && is_number(x1)
    &&& list_says(x, "start"@, 2, y1) && is_number(y1)
    &&& list_says(x, "end"@, 1, x2) && is_number(x2)
    &&& list_says(x, "end"@, 2, y2) && is_number(y2)
}

/// What a track says of its layer, its net, its width and its identity.
pub open spec fn is_read_from(t: TraceText, x: Tree) -> bool {
    &&& forall|s: Seq<char>| #[trigger] list_says(x, "layer"@, 1, s) ==> t.layer == s
    &&& (forall|s: Seq<char>| !#[trigger] list_says(x, "layer"@, 1, s)) ==> t.layer.len() == 0
    &&& forall|s: Seq<char>| #[trigger] list_says(x, "uuid"@, 1, s) ==> t.uuid == s
    &&& (forall|s: Seq<char>| !#[trigger] list_says(x, "uuid"@, 1, s)) ==> t.uuid.len() == 0
    &&& forall|s: Seq<char>|
        t.net == Some(s) <==> #[trigger] list_says(x, "net"@, 1, s) && is_number(s)
    &&& forall|s: Seq<char>|
        t.width == Some(s) <==> #[trigger] list_says(x, "width"@, 1, s) && is_number(s)
}

/// The tracks of a board are its segments with two ends, in their order.
pub proof fn law_tracks_are_read(
    kids: Seq<Tree>,
    x: Tree,
    x1: Seq<char>,
    y1: Seq<char>,
    x2: Seq<char>,
    y2: Seq<char>,
)
    ensures
        is_track(x, x1, y1, x2, y2) ==> {
            let r = board_traces(Tree::List(kids.push(x)));
            &&& r.len() == board_traces(Tree::List(kids)).len() + 1
            &&& r.drop_last() == board_traces(Tree::List(kids))
            &&& r.last().x1 == x1 && r.last().y1 == y1
            &&& r.last().x2 == x2 && r.last().y2 == y2
            &&& is_read_from(r.last(), x)
        },
        (forall|a: Seq<char>, b: Seq<char>, c: Seq<char>, d: Seq<char>| !is_track(x, a, b, c, d))
            ==> board_traces(Tree::List(kids.push(x))) == board_traces(Tree::List(kids)),
        board_traces(Tree::List(Seq::empty())).len() == 0,
{
    let nodes = children_tagged(Tree::List(kids), "segment"@);
    law_all_lists_are_found(kids, x, "segment"@);
    law_numbers_are_told(x, "start"@, 1, x1);
    law_numbers_are_told(x, "start"@, 2, y1);
    law_numbers_are_told(x, "end"@, 1, x2);
    law_numbers_are_told(x, "end"@, 2, y2);
    if headed(x, "segment"@) {
        lemma_traces_same(nodes, nodes.push(x), nodes.len() as int);
        if let Some(t) = trace_of(x) {
            law_numbers_are_told(x, "start"@, 1, t.x1);
            law_numbers_are_told(x, "start"@, 2, t.y1);
            law_numbers_are_told(x, "end"@, 1, t.x2);
            law_numbers_are_told(x, "end"@, 2, t.y2);
            assert(is_track(x, t.x1, t.y1, t.x2, t.y2));
            lemma_track_read(x);
            let r = board_traces(Tree::List(kids.push(x)));
            assert(r.drop_last() =~= board_traces(Tree::List(kids)));
        }
    }
}

proof fn lemma_track_read(x: Tree)
    requires
        trace_of(x) is Some,
    ensures
        is_read_from(trace_of(x).unwrap(), x),
{
    let t = trace_of(x).unwrap();
    if let Some(z) = text_in(x, "layer"@, 1) {
        law_numbers_are_told(x, "layer"@, 1, z);
        assert(list_says(x, "layer"@, 1, z));
    }
    if let Some(z) = text_in(x, "uuid"@, 1) {
        law_numbers_are_told(x, "uuid"@, 1, z);
        assert(list_says(x, "uuid"@, 1, z));
    }
    assert forall|s: Seq<char>| #[trigger] list_says(x, "layer"@, 1, s) implies t.layer == s by {
        law_numbers_are_told(x, "layer"@, 1, s);
    }
    assert forall|s: Seq<char>| #[trigger] list_says(x, "uuid"@, 1, s) implies t.uuid == s by {
        law_numbers_are_told(x, "uuid"@, 1, s);
    }
    assert forall|s: Seq<char>|
        t.net == Some(s) <==> #[trigger] list_says(x, "net"@, 1, s) && is_number(s) by {
        law_numbers_are_told(x, "net"@, 1, s);
    }
    assert forall|s: Seq<char>|
        t.width == Some(s) <==> #[trigger] list_says(x, "width"@, 1, s) && is_number(s) by {
        law_numbers_are_told(x, "width"@, 1, s);
    }
}

proof fn lemma_traces_same(a: Seq<Tree>, b: Seq<Tree>, k: int)
    requires
        0 <= k <= a.len(),
        k <= b.len(),
        forall|i: int| 0 <= i < k ==> a[i] == b[i],
    ensures
        traces_of(a, k) == traces_of(b, k),
    decreases k,
{
    if k > 0 {
        lemma_traces_same(a, b, k - 1);
    }
}

// Queries
/// The name of a net is that of the last net with its number, and empty where
/// no net has it.
pub proof fn law_last_net_gives_the_name(nets: Seq<(int, Seq<char>)>, code: int, i: int)
    ensures
        0 <= i < nets.len() && nets[i].0 == code && (forall|m: int|
            i < m < nets.len() ==> (#[trigger] nets[m]).0 != code) ==> net_name_of(
            nets,
            code,
            nets.len() as int,
        ) == nets[i].1,
        (forall|m: int| 0 <= m < nets.len() ==> (#[trigger] nets[m]).0 != code) ==> net_name_of(
            nets,
            code,
            nets.len() as int,
        ).len() == 0,
{
    if 0 <= i < nets.len() && nets[i].0 == code && (forall|m: int|
        i < m < nets.len() ==> (#[trigger] nets[m]).0 != code) {
        lemma_name_behind(nets, code, i, nets.len() as int);
    }
    if forall|m: int| 0 <= m < nets.len() ==> (#[trigger] nets[m]).0 != code {
        lemma_no_name(nets, code, nets.len() as int);
    }
}

proof fn lemma_name_behind(nets: Seq<(int, Seq<char>)>, code: int, i: int, k: int)
    requires
        0 <= i < k <= nets.len(),
        nets[i].0 == code,
        forall|m: int| i < m < nets.len() ==> (#[trigger] nets[m]).0 != code,
    ensures
        net_name_of(nets, code, k) == nets[i].1,
    decreases k,
{
    if k - 1 > i {
        lemma_name_behind(nets, code, i, k - 1);
    }
}

proof fn lemma_no_name(nets: Seq<(int, Seq<char>)>, code: int, k: int)
    requires
        k <= nets.len(),
        forall|m: int| 0 <= m < nets.len() ==> (#[trigger] nets[m]).0 != code,
    ensures
        net_name_of(nets, code, k).len() == 0,
    decreases k,
{
    if k > 0 {
        lemma_no_name(nets, code, k - 1);
    }
}

/// Track number `i` is on the net and on the layer that are asked for, as far as
/// they are.
pub open spec fn is_asked_for(
    traces: Seq<TraceText>,
    codes: Seq<i32>,
    nets: Seq<(int, Seq<char>)>,
    net: Option<Seq<char>>,
    layer: Option<Seq<char>>,
    i: int,
) -> bool {
    &&& net is None || net == Some(net_name_of(nets, codes[i] as int, nets.len() as int))
    &&& layer is None || layer == Some(traces[i].layer)
}

/// Track number `i` is one of the hits.
pub open spec fn is_hit(hits: Seq<(int, Seq<char>)>, i: int) -> bool {
    exists|j: int| 0 <= j < hits.len() && (#[trigger] hits[j]).0 == i
}

/// A query finds exactly the tracks on the net and on the layer that are asked
/// for, as far as they are, each once and in order, and tells the names of their
/// nets.
pub proof fn law_query_filters_by_net_and_layer(
    traces: Seq<TraceText>,
    codes: Seq<i32>,
    nets: Seq<(int, Seq<char>)>,
    net: Option<Seq<char>>,
    layer: Option<Seq<char>>,
    k: int,
)
    requires
        codes.len() == traces.len(),
        0 <= k <= traces.len(),
    ensures
        ({
            let hits = matching(traces, codes, nets, net, layer, k);
            &&& forall|i: int|
                0 <= i < k ==> (#[trigger] is_hit(hits, i) <==> is_asked_for(
                    traces,
                    codes,
                    nets,
                    net,
                    layer,
                    i,
                ))
            &&& forall|j: int|
                0 <= j < hits.len() ==> 0 <= (#[trigger] hits[j]).0 < k && hits[j].1 == net_name_of(
                    nets,
                    codes[hits[j].0] as int,
                    nets.len() as int,
                )
            &&& forall|i: int, j: int|
                0 <= i < j < hits.len() ==> (#[trigger] hits[i]).0 < (#[trigger] hits[j]).0
        }),
    decreases k,
{
    if k > 0 {
        law_query_filters_by_net_and_layer(traces, codes, nets, net, layer, k - 1);
        let before = matching(traces, codes, nets, net, layer, k - 1);
        let hits = matching(traces, codes, nets, net, layer, k);
        let last = k - 1;
        let own = net_name_of(nets, codes[last] as int, nets.len() as int);
        let fits = is_asked_for(traces, codes, nets, net, layer, last);
        assert(hits == if fits {
            before.push((last, own))
        } else {
            before
        });
        assert forall|i: int| 0 <= i < k implies (#[trigger] is_hit(hits, i) <==> is_asked_for(
            traces,
            codes,
            nets,
            net,
            layer,
            i,
        )) by {
            if i < last {
                assert(is_hit(before, i) <==> is_asked_for(traces, codes, nets, net, layer, i));
                if is_hit(before, i) {
                    let j = choose|j: int| 0 <= j < before.len() && (#[trigger] before[j]).0 == i;
                    assert(hits[j].0 == i);
                }
                if is_hit(hits, i) {
                    let j = choose|j: int| 0 <= j < hits.len() && (#[trigger] hits[j]).0 == i;
                    assert(before[j].0 == i);
                }
            } else if fits {
                assert(hits[hits.len() - 1].0 == i);
            } else if is_hit(hits, i) {
                let j = choose|j: int| 0 <= j < hits.len() && (#[trigger] hits[j]).0 == i;
                assert(before[j].0 < k - 1);
            }
        }
        assert forall|j: int| 0 <= j < hits.len() implies 0 <= (#[trigger] hits[j]).0 < k
            && hits[j].1 == net_name_of(nets, codes[hits[j].0] as int, nets.len() as int) by {
            if j < before.len() {
                assert(hits[j] == before[j]);
            }
        }
        assert forall|i: int, j: int| 0 <= i < j < hits.len() implies (#[trigger] hits[i]).0 < (
        #[trigger] hits[j]).0 by {
            assert(hits[i] == before[i]);
            if j < before.len() {
                assert(hits[j] == before[j]);
            }
        }
    }
}

} // verus!
