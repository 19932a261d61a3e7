//! What a parsed board says: footprints, pads, nets and tracks.
//!
//! Numbers are given as the text that stands in the file. A text that says no
//! number counts as missing.
use crate::answer::{error_answer, CallToolResult};
use crate::numbers::{is_number, reads_as_number};
use crate::text::same;
use crate::tree::{
    child, children_tagged, element, element_text, opt_text, opt_tree, tree_text, trees_of,
    SexpNode, Tree,
};
use crate::words::{index_from, index_of, strings_of};
use vstd::prelude::*;
use vstd::string::*;

verus! {

// Fields of a node
/// A text that may be missing, as the owner of it.
pub open spec fn own_text(r: Option<String>) -> Option<Seq<char>> {
    match r {
        Some(s) => Some(s@),
        None => None,
    }
}

/// The number at a place of the list.
pub open spec fn number_at(t: Tree, i: int) -> Option<Seq<char>> {
    match element_text(t, i) {
        Some(s) => if is_number(s) {
            Some(s)
        } else {
            None
        },
        None => None,
    }
}

/// The number at a place of the first child list that begins with `tag`.
pub open spec fn number_in(t: Tree, tag: Seq<char>, i: int) -> Option<Seq<char>> {
    match child(t, tag) {
        Some(c) => number_at(c, i),
        None => None,
    }
}

/// The text at a place of the first child list that begins with `tag`.
pub open spec fn text_in(t: Tree, tag: Seq<char>, i: int) -> Option<Seq<char>> {
    match child(t, tag) {
        Some(c) => element_text(c, i),
        None => None,
    }
}

/// The text, or an empty one.
pub open spec fn or_empty(r: Option<Seq<char>>) -> Seq<char> {
    match r {
        Some(s) => s,
        None => Seq::empty(),
    }
}

fn get_number(node: &SexpNode, i: usize) -> (r: Option<String>)
    ensures
        own_text(r) == number_at(node@, i as int),
{
    match node.get_text(i) {
        Some(s) => if reads_as_number(s) {
            Some(s.to_owned())
        } else {
            None
        },
        None => None,
    }
}

fn find_number(node: &SexpNode, tag: &str, i: usize) -> (r: Option<String>)
    ensures
        own_text(r) == number_in(node@, tag@, i as int),
{
    match node.find(tag) {
        Some(c) => get_number(c, i),
        None => None,
    }
}

fn find_text(node: &SexpNode, tag: &str, i: usize) -> (r: String)
    ensures
        r@ == or_empty(text_in(node@, tag@, i as int)),
{
    match node.find(tag) {
        Some(c) => text_or_empty(c, i),
        None => String::new(),
    }
}

fn text_or_empty(node: &SexpNode, i: usize) -> (r: String)
    ensures
        r@ == or_empty(element_text(node@, i as int)),
{
    match node.get_text(i) {
        Some(s) => s.to_owned(),
        None => String::new(),
    }
}

fn text_is(node: &SexpNode, i: usize, s: &str) -> (r: bool)
    ensures
        r == (element_text(node@, i as int) == Some(s@)),
{
    match node.get_text(i) {
        Some(t) => same(t, s),
        None => false,
    }
}

// Footprints
/// One of the properties, number `k` or later, is the Reference with this
/// value.
pub open spec fn refers_from(props: Seq<Tree>, reference: Seq<char>, k: int) -> bool
    decreases props.len() - k,
{
    if k < 0 || k >= props.len() {
        false
    } else {
        (element_text(props[k], 1) == Some("Reference"@) && element_text(props[k], 2) == Some(
            reference,
        )) || refers_from(props, reference, k + 1)
    }
}

/// The footprint has this reference.
pub open spec fn refers(fp: Tree, reference: Seq<char>) -> bool {
    refers_from(children_tagged(fp, "property"@), reference, 0)
}

fn has_reference(fp: &SexpNode, reference: &str) -> (r: bool)
    ensures
        r == refers(fp@, reference@),
{
    let props: Vec<&SexpNode> = fp.find_all("property");
    let mut k: usize = 0;
    while k < props.len()
        invariant
            k <= props@.len(),
            trees_of(props@) == children_tagged(fp@, "property"@),
            refers(fp@, reference@) == refers_from(trees_of(props@), reference@, k as int),
        decreases props@.len() - k,
    {
        assert(trees_of(props@)[k as int] == props@[k as int]@);
        if text_is(props[k], 1, "Reference") && text_is(props[k], 2, reference) {
            return true;
        }
        k = k + 1;
    }
    false
}

/// The first footprint, number `k` or later, with this reference.
pub open spec fn footprint_node_from(fps: Seq<Tree>, reference: Seq<char>, k: int) -> Option<Tree>
    decreases fps.len() - k,
{
    if k < 0 || k >= fps.len() {
        None
    } else if refers(fps[k], reference) {
        Some(fps[k])
    } else {
        footprint_node_from(fps, reference, k + 1)
    }
}

/// The footprint of a board with this reference.
pub open spec fn footprint_node(tree: Tree, reference: Seq<char>) -> Option<Tree> {
    footprint_node_from(children_tagged(tree, "footprint"@), reference, 0)
}

proof fn lemma_footprint_node_from(fps: Seq<Tree>, reference: Seq<char>, k: int)
    requires
        0 <= k,
    ensures
        match footprint_node_from(fps, reference, k) {
            Some(fp) => refers(fp, reference) && fps.contains(fp),
            None => forall|i: int| k <= i < fps.len() ==> !refers(#[trigger] fps[i], reference),
        },
    decreases fps.len() - k,
{
    if k < fps.len() && !refers(fps[k], reference) {
        lemma_footprint_node_from(fps, reference, k + 1);
    } else if k < fps.len() {
        assert(fps.contains(fps[k]));
    }
}

/// A footprint that is found is one of the board and has the reference, and one
/// is found whenever the board has one.
pub proof fn law_found_footprint_has_its_reference(tree: Tree, reference: Seq<char>)
    ensures
        match footprint_node(tree, reference) {
            Some(fp) => refers(fp, reference) && children_tagged(tree, "footprint"@).contains(fp),
            None => forall|i: int|
                0 <= i < children_tagged(tree, "footprint"@).len() ==> !refers(
                    #[trigger] children_tagged(tree, "footprint"@)[i],
                    reference,
                ),
        },
{
    lemma_footprint_node_from(children_tagged(tree, "footprint"@), reference, 0);
}

/// Find a footprint node in a parsed board by its Reference property.
pub fn file_find_footprint<'a>(tree: &'a SexpNode, reference: &str) -> (r: Option<&'a SexpNode>)
    ensures
        opt_tree(r) == footprint_node(tree@, reference@),
{
    let fps: Vec<&'a SexpNode> = tree.find_all("footprint");
    let mut k: usize = 0;
    while k < fps.len()
        invariant
            k <= fps@.len(),
            trees_of(fps@) == children_tagged(tree@, "footprint"@),
            footprint_node(tree@, reference@) == footprint_node_from(
                trees_of(fps@),
                reference@,
                k as int,
            ),
        decreases fps@.len() - k,
    {
        assert(trees_of(fps@)[k as int] == fps@[k as int]@);
        let fp: &'a SexpNode = fps[k];
        if has_reference(fp, reference) {
            return Some(fp);
        }
        k = k + 1;
    }
    None
}

/// The value of the first property, number `k` or later, with this name.
pub open spec fn property_from(props: Seq<Tree>, name: Seq<char>, k: int) -> Option<Seq<char>>
    decreases props.len() - k,
{
    if k < 0 || k >= props.len() {
        None
    } else if element_text(props[k], 1) == Some(name) {
        element_text(props[k], 2)
    } else {
        property_from(props, name, k + 1)
    }
}

/// The value of a property of a footprint, empty if it has none.
pub open spec fn footprint_property(fp: Tree, name: Seq<char>) -> Seq<char> {
    or_empty(property_from(children_tagged(fp, "property"@), name, 0))
}

fn get_property(fp: &SexpNode, name: &str) -> (r: String)
    ensures
        r@ == footprint_property(fp@, name@),
{
    let props: Vec<&SexpNode> = fp.find_all("property");
    let mut k: usize = 0;
    while k < props.len()
        invariant
            k <= props@.len(),
            trees_of(props@) == children_tagged(fp@, "property"@),
            footprint_property(fp@, name@) == or_empty(
                property_from(trees_of(props@), name@, k as int),
            ),
        decreases props@.len() - k,
    {
        assert(trees_of(props@)[k as int] == props@[k as int]@);
        if text_is(props[k], 1, name) {
            return text_or_empty(props[k], 2);
        }
        k = k + 1;
    }
    String::new()
}

/// What is told of a footprint.
pub struct FootprintSummary {
    pub reference: String,
    pub value: String,
    pub footprint: String,
    pub x: Option<String>,
    pub y: Option<String>,
    pub rotation: Option<String>,
    pub layer: String,
}

/// What is told of a footprint, as plain text.
pub struct SummaryText {
    pub reference: Seq<char>,
    pub value: Seq<char>,
    pub footprint: Seq<char>,
    pub x: Option<Seq<char>>,
    pub y: Option<Seq<char>>,
    pub rotation: Option<Seq<char>>,
    pub layer: Seq<char>,
}

impl View for FootprintSummary {
    type V = SummaryText;

    open spec fn view(&self) -> SummaryText {
        SummaryText {
            reference: self.reference@,
            value: self.value@,
            footprint: self.footprint@,
            x: own_text(self.x),
            y: own_text(self.y),
            rotation: own_text(self.rotation),
            layer: self.layer@,
        }
    }
}

/// What is told of a footprint.
pub open spec fn summary(fp: Tree) -> SummaryText {
    SummaryText {
        reference: footprint_property(fp, "Reference"@),
        value: footprint_property(fp, "Value"@),
        footprint: or_empty(element_text(fp, 1)),
        x: number_in(fp, "at"@, 1),
        y: number_in(fp, "at"@, 2),
        rotation: number_in(fp, "at"@, 3),
        layer: or_empty(text_in(fp, "layer"@, 1)),
    }
}

/// Summarize a footprint node in the same shape that a live board gives.
pub fn file_fp_summary(fp: &SexpNode) -> (r: FootprintSummary)
    ensures
        r@ == summary(fp@),
{
    FootprintSummary {
        reference: get_property(fp, "Reference"),
        value: get_property(fp, "Value"),
        footprint: text_or_empty(fp, 1),
        x: find_number(fp, "at", 1),
        y: find_number(fp, "at", 2),
        rotation: find_number(fp, "at", 3),
        layer: find_text(fp, "layer", 1),
    }
}

/// The summaries of a list.
pub open spec fn summaries_of(v: Seq<FootprintSummary>) -> Seq<SummaryText> {
    v.map_values(|s: FootprintSummary| s@)
}

/// What is told of every footprint of a board.
pub fn component_list(tree: &SexpNode) -> (r: Vec<FootprintSummary>)
    ensures
        summaries_of(r@) == children_tagged(tree@, "footprint"@).map_values(|fp: Tree| summary(fp)),
{
    let fps: Vec<&SexpNode> = tree.find_all("footprint");
    let ghost all = trees_of(fps@);
    let mut out: Vec<FootprintSummary> = Vec::new();
    let mut k: usize = 0;
    while k < fps.len()
        invariant
            k <= fps@.len(),
            all == trees_of(fps@),
            out@.len() == k,
            forall|i: int| 0 <= i < k ==> (#[trigger] out@[i])@ == summary(all[i]),
        decreases fps@.len() - k,
    {
        assert(all[k as int] == fps@[k as int]@);
        out.push(file_fp_summary(fps[k]));
        k = k + 1;
    }
    assert(summaries_of(out@) =~= all.map_values(|fp: Tree| summary(fp)));
    out
}

/// What is said of a footprint that a board does not have.
pub open spec fn footprint_missing(reference: Seq<char>) -> Seq<char> {
    "Footprint '"@ + reference + "' not found"@
}

/// The answer for a footprint that a board does not have.
pub fn report_missing(reference: &str) -> (r: CallToolResult)
    ensures
        r@ == error_answer(footprint_missing(reference@)),
{
    CallToolResult::error("Footprint '".to_owned().concat(reference).concat("' not found"))
}

/// What the board file tells of a footprint.
pub fn find_component(tree: &SexpNode, reference: &str) -> (r: Result<
    FootprintSummary,
    CallToolResult,
>)
    ensures
        match r {
            Ok(s) => footprint_node(tree@, reference@) matches Some(fp) && s@ == summary(fp),
            Err(a) => a@ == error_answer(footprint_missing(reference@)) && footprint_node(
                tree@,
                reference@,
            ) is None,
        },
{
    match file_find_footprint(tree, reference) {
        Some(fp) => Ok(file_fp_summary(fp)),
        None => Err(report_missing(reference)),
    }
}

// Pads
/// A pad, its position relative to its footprint.
pub struct Pad {
    pub number: String,
    pub x: String,
    pub y: String,
    pub net: String,
}

/// A pad as plain text.
pub struct PadText {
    pub number: Seq<char>,
    pub x: Seq<char>,
    pub y: Seq<char>,
    pub net: Seq<char>,
}

impl View for Pad {
    type V = PadText;

    open spec fn view(&self) -> PadText {
        PadText { number: self.number@, x: self.x@, y: self.y@, net: self.net@ }
    }
}

/// The pad that a node says, if it has a number and a place.
pub open spec fn pad_of(t: Tree) -> Option<PadText> {
    match (element_text(t, 1), number_in(t, "at"@, 1), number_in(t, "at"@, 2)) {
        (Some(number), Some(x), Some(y)) => Some(
            PadText { number, x, y, net: or_empty(text_in(t, "net"@, 2)) },
        ),
        _ => None,
    }
}

fn read_pad(node: &SexpNode) -> (r: Option<Pad>)
    ensures
        match r {
            Some(p) => pad_of(node@) == Some(p@),
            None => pad_of(node@) is None,
        },
{
    let number: String = match node.get_text(1) {
        Some(n) => n.to_owned(),
        None => {
            return None;
        },
    };
    let x: String = match find_number(node, "at", 1) {
        Some(x) => x,
        None => {
            return None;
        },
    };
    let y: String = match find_number(node, "at", 2) {
        Some(y) => y,
        None => {
            return None;
        },
    };
    Some(Pad { number, x, y, net: find_text(node, "net", 2) })
}

/// The pads of the first `k` nodes.
pub open spec fn pads_of(nodes: Seq<Tree>, k: int) -> Seq<PadText>
    decreases k,
{
    if k <= 0 {
        seq![]
    } else {
        match pad_of(nodes[k - 1]) {
            Some(p) => pads_of(nodes, k - 1).push(p),
            None => pads_of(nodes, k - 1),
        }
    }
}

/// The pads of a footprint.
pub open spec fn footprint_pads(fp: Tree) -> Seq<PadText> {
    pads_of(children_tagged(fp, "pad"@), children_tagged(fp, "pad"@).len() as int)
}

/// Pads as plain text.
pub open spec fn pad_texts(v: Seq<Pad>) -> Seq<PadText> {
    v.map_values(|p: Pad| p@)
}

fn read_pads(fp: &SexpNode) -> (r: Vec<Pad>)
    ensures
        pad_texts(r@) == footprint_pads(fp@),
{
    let nodes: Vec<&SexpNode> = fp.find_all("pad");
    let ghost all = trees_of(nodes@);
    let mut out: Vec<Pad> = Vec::new();
    let mut k: usize = 0;
    assert(pad_texts(out@) =~= pads_of(all, 0));
    while k < nodes.len()
        invariant
            k <= nodes@.len(),
            all == trees_of(nodes@),
            pad_texts(out@) == pads_of(all, k as int),
        decreases nodes@.len() - k,
    {
        let ghost before = out@;
        assert(all[k as int] == nodes@[k as int]@);
        match read_pad(nodes[k]) {
            Some(p) => {
                let ghost v = p@;
                out.push(p);
                assert(pad_texts(out@) =~= pad_texts(before).push(v));
            },
            None => {},
        }
        k = k + 1;
    }
    out
}

/// The place of a footprint and its pads.
pub struct ComponentPads {
    pub x: Option<String>,
    pub y: Option<String>,
    pub rotation: Option<String>,
    pub pads: Vec<Pad>,
}

/// The pads of a component, and the place that they are relative to.
pub fn component_pads(tree: &SexpNode, reference: &str) -> (r: Result<ComponentPads, CallToolResult>)
    ensures
        match r {
            Ok(c) => {
                &&& footprint_node(tree@, reference@) matches Some(fp)
                &&& own_text(c.x) == number_in(fp, "at"@, 1)
                &&& own_text(c.y) == number_in(fp, "at"@, 2)
                &&& own_text(c.rotation) == number_in(fp, "at"@, 3)
                &&& pad_texts(c.pads@) == footprint_pads(fp)
            },
            Err(a) => a@ == error_answer(footprint_missing(reference@)) && footprint_node(
                tree@,
                reference@,
            ) is None,
        },
{
    match file_find_footprint(tree, reference) {
        Some(fp) => Ok(
            ComponentPads {
                x: find_number(fp, "at", 1),
                y: find_number(fp, "at", 2),
                rotation: find_number(fp, "at", 3),
                pads: read_pads(fp),
            },
        ),
        None => Err(report_missing(reference)),
    }
}

/// The first pad, number `k` or later, with this number.
pub open spec fn pad_index_from(pads: Seq<PadText>, number: Seq<char>, k: int) -> Option<int>
    decreases pads.len() - k,
{
    if k < 0 || k >= pads.len() {
        None
    } else if pads[k].number == number {
        Some(k)
    } else {
        pad_index_from(pads, number, k + 1)
    }
}

/// Which of the pads has this number.
pub fn pick_pad(pads: &Vec<Pad>, pad_number: &str) -> (r: Result<usize, CallToolResult>)
    ensures
        match r {
            Ok(k) => k < pads@.len() && pad_index_from(pad_texts(pads@), pad_number@, 0) == Some(
                k as int,
            ),
            Err(a) => a@ == error_answer("Pad '"@ + pad_number@ + "' not found"@)
                && pad_index_from(pad_texts(pads@), pad_number@, 0) is None,
        },
{
    let mut k: usize = 0;
    while k < pads.len()
        invariant
            k <= pads@.len(),
            pad_index_from(pad_texts(pads@), pad_number@, 0) == pad_index_from(
                pad_texts(pads@),
                pad_number@,
                k as int,
            ),
        decreases pads@.len() - k,
    {
        assert(pad_texts(pads@)[k as int] == pads@[k as int]@);
        if same(pads[k].number.as_str(), pad_number) {
            return Ok(k);
        }
        k = k + 1;
    }
    Err(CallToolResult::error("Pad '".to_owned().concat(pad_number).concat("' not found")))
}

/// The first node, number `k` or later, that has this text at place 1.
pub open spec fn named_from(nodes: Seq<Tree>, name: Seq<char>, k: int) -> Option<Tree>
    decreases nodes.len() - k,
{
    if k < 0 || k >= nodes.len() {
        None
    } else if element_text(nodes[k], 1) == Some(name) {
        Some(nodes[k])
    } else {
        named_from(nodes, name, k + 1)
    }
}

/// A pad of a footprint by its number.
pub open spec fn pad_node(fp: Tree, pad_number: Seq<char>) -> Option<Tree> {
    named_from(children_tagged(fp, "pad"@), pad_number, 0)
}

fn find_pad<'a>(fp: &'a SexpNode, pad_number: &str) -> (r: Option<&'a SexpNode>)
    ensures
        opt_tree(r) == pad_node(fp@, pad_number@),
{
    let nodes: Vec<&'a SexpNode> = fp.find_all("pad");
    let mut k: usize = 0;
    while k < nodes.len()
        invariant
            k <= nodes@.len(),
            trees_of(nodes@) == children_tagged(fp@, "pad"@),
            pad_node(fp@, pad_number@) == named_from(trees_of(nodes@), pad_number@, k as int),
        decreases nodes@.len() - k,
    {
        assert(trees_of(nodes@)[k as int] == nodes@[k as int]@);
        let node: &'a SexpNode = nodes[k];
        if text_is(node, 1, pad_number) {
            return Some(node);
        }
        k = k + 1;
    }
    None
}

/// Where a pad is: the place of its footprint, and its own place relative to
/// that.
pub struct PadPlace {
    pub fp_x: Option<String>,
    pub fp_y: Option<String>,
    pub fp_rotation: Option<String>,
    pub x: Option<String>,
    pub y: Option<String>,
}

/// The place of a pad, or the message that says why there is none.
pub open spec fn pad_place(tree: Tree, reference: Seq<char>, pad_number: Seq<char>) -> Result<
    (Tree, Tree),
    Seq<char>,
> {
    match footprint_node(tree, reference) {
        None => Err("Footprint '"@ + reference + "' not found on board"@),
        Some(fp) => match pad_node(fp, pad_number) {
            None => Err("Pad '"@ + pad_number + "' not found on '"@ + reference + "'"@),
            Some(pad) => match child(pad, "at"@) {
                None => Err("Pad has no (at) node"@),
                Some(_) => Ok((fp, pad)),
            },
        },
    }
}

/// Look up the numbers that a pad's board-space position is computed from.
pub fn find_pad_board_position(tree: &SexpNode, reference: &str, pad_number: &str) -> (r: Result<
    PadPlace,
    String,
>)
    ensures
        match r {
            Ok(p) => {
                &&& pad_place(tree@, reference@, pad_number@) matches Ok(n)
                &&& own_text(p.fp_x) == number_in(n.0, "at"@, 1)
                &&& own_text(p.fp_y) == number_in(n.0, "at"@, 2)
                &&& own_text(p.fp_rotation) == number_in(n.0, "at"@, 3)
                &&& own_text(p.x) == number_in(n.1, "at"@, 1)
                &&& own_text(p.y) == number_in(n.1, "at"@, 2)
            },
            Err(m) => pad_place(tree@, reference@, pad_number@) == Err::<(Tree, Tree), Seq<char>>(
                m@,
            ),
        },
{
    let fp: &SexpNode = match file_find_footprint(tree, reference) {
        Some(fp) => fp,
        None => {
            return Err(
                "Footprint '".to_owned().concat(reference).concat("' not found on board"),
            );
        },
    };
    let pad: &SexpNode = match find_pad(fp, pad_number) {
        Some(p) => p,
        None => {
            return Err(
                "Pad '".to_owned().concat(pad_number).concat("' not found on '").concat(
                    reference,
                ).concat("'"),
            );
        },
    };
    if pad.find("at").is_none() {
        return Err("Pad has no (at) node".to_owned());
    }
    Ok(
        PadPlace {
            fp_x: find_number(fp, "at", 1),
            fp_y: find_number(fp, "at", 2),
            fp_rotation: find_number(fp, "at", 3),
            x: find_number(pad, "at", 1),
            y: find_number(pad, "at", 2),
        },
    )
}

/// Which of the pads of a live footprint has the number, or what is said where
/// there is no such footprint or pad.
pub open spec fn live_pad(
    numbers: Option<Seq<Seq<char>>>,
    reference: Seq<char>,
    pad_number: Seq<char>,
) -> Result<int, Seq<char>> {
    match numbers {
        None => Err(footprint_missing(reference)),
        Some(v) => match index_from(v, pad_number, 0) {
            Some(i) => Ok(i),
            None => Err("Pad '"@ + pad_number + "' not found on '"@ + reference + "'"@),
        },
    }
}

/// Pick a pad among those of a live footprint, given by their numbers.
pub fn find_live_pad(numbers: Option<&Vec<String>>, reference: &str, pad_number: &str) -> (r:
    Result<usize, String>)
    ensures
        live_pad(
            match numbers {
                Some(v) => Some(strings_of(v@)),
                None => None,
            },
            reference@,
            pad_number@,
        ) == (match r {
            Ok(i) => Ok::<int, Seq<char>>(i as int),
            Err(m) => Err(m@),
        }),
        r matches Ok(i) ==> numbers matches Some(v) && i < v@.len(),
{
    match numbers {
        None => Err("Footprint '".to_owned().concat(reference).concat("' not found")),
        Some(v) => match index_of(v, pad_number) {
            Some(i) => Ok(i),
            None => Err(
                "Pad '".to_owned().concat(pad_number).concat("' not found on '").concat(
                    reference,
                ).concat("'"),
            ),
        },
    }
}

// Nets
/// A declared net: its number as it is written, and its name.
pub open spec fn net_of(t: Tree) -> Option<(Seq<char>, Seq<char>)> {
    match (number_at(t, 1), element(t, 2)) {
        (Some(code), Some(name)) => Some((code, or_empty(tree_text(name)))),
        _ => None,
    }
}

/// The nets of the first `k` nodes.
pub open spec fn nets_of(nodes: Seq<Tree>, k: int) -> Seq<(Seq<char>, Seq<char>)>
    decreases k,
{
    if k <= 0 {
        seq![]
    } else {
        match net_of(nodes[k - 1]) {
            Some(n) => nets_of(nodes, k - 1).push(n),
            None => nets_of(nodes, k - 1),
        }
    }
}

/// The nets that a board declares.
pub open spec fn board_nets(tree: Tree) -> Seq<(Seq<char>, Seq<char>)> {
    nets_of(children_tagged(tree, "net"@), children_tagged(tree, "net"@).len() as int)
}

/// Pairs of texts.
pub open spec fn pair_texts(v: Seq<(String, String)>) -> Seq<(Seq<char>, Seq<char>)> {
    v.map_values(|p: (String, String)| (p.0@, p.1@))
}

fn read_net(node: &SexpNode) -> (r: Option<(String, String)>)
    ensures
        match r {
            Some(n) => net_of(node@) == Some((n.0@, n.1@)),
            None => net_of(node@) is None,
        },
{
    match (get_number(node, 1), node.get(2)) {
        (Some(code), Some(name)) => {
            let text: String = match name.text() {
                Some(s) => s.to_owned(),
                None => String::new(),
            };
            Some((code, text))
        },
        _ => None,
    }
}

/// All nets that the board declares: each with its number, as it is written,
/// and its name.
pub fn nets_list(tree: &SexpNode) -> (r: Vec<(String, String)>)
    ensures
        pair_texts(r@) == board_nets(tree@),
{
    let nodes: Vec<&SexpNode> = tree.find_all("net");
    let ghost all = trees_of(nodes@);
    let mut out: Vec<(String, String)> = Vec::new();
    let mut k: usize = 0;
    assert(pair_texts(out@) =~= nets_of(all, 0));
    while k < nodes.len()
        invariant
            k <= nodes@.len(),
            all == trees_of(nodes@),
            pair_texts(out@) == nets_of(all, k as int),
        decreases nodes@.len() - k,
    {
        let ghost before = out@;
        assert(all[k as int] == nodes@[k as int]@);
        match read_net(nodes[k]) {
            Some(n) => {
                let ghost v = (n.0@, n.1@);
                out.push(n);
                assert(pair_texts(out@) =~= pair_texts(before).push(v));
            },
            None => {},
        }
        k = k + 1;
    }
    out
}

// Tracks
/// A track of the board file.
pub struct Trace {
    pub layer: String,
    /// The number of its net, as it is written.
    pub net: Option<String>,
    pub width: Option<String>,
    pub x1: String,
    pub y1: String,
    pub x2: String,
    pub y2: String,
    pub uuid: String,
}

/// A track as plain text.
pub struct TraceText {
    pub layer: Seq<char>,
    pub net: Option<Seq<char>>,
    pub width: Option<Seq<char>>,
    pub x1: Seq<char>,
    pub y1: Seq<char>,
    pub x2: Seq<char>,
    pub y2: Seq<char>,
    pub uuid: Seq<char>,
}

impl View for Trace {
    type V = TraceText;

    open spec fn view(&self) -> TraceText {
        TraceText {
            layer: self.layer@,
            net: own_text(self.net),
            width: own_text(self.width),
            x1: self.x1@,
            y1: self.y1@,
            x2: self.x2@,
            y2: self.y2@,
            uuid: self.uuid@,
        }
    }
}

/// The track that a node says, if it has two ends.
pub open spec fn trace_of(t: Tree) -> Option<TraceText> {
    match (
        number_in(t, "start"@, 1),
        number_in(t, "start"@, 2),
        number_in(t, "end"@, 1),
        number_in(t, "end"@, 2),
    ) {
        (Some(x1), Some(y1), Some(x2), Some(y2)) => Some(
            TraceText {
                layer: or_empty(text_in(t, "layer"@, 1)),
                net: number_in(t, "net"@, 1),
                width: number_in(t, "width"@, 1),
                x1,
                y1,
                x2,
                y2,
                uuid: or_empty(text_in(t, "uuid"@, 1)),
            },
        ),
        _ => None,
    }
}

fn read_trace(node: &SexpNode) -> (r: Option<Trace>)
    ensures
        match r {
            Some(t) => trace_of(node@) == Some(t@),
            None => trace_of(node@) is None,
        },
{
    match (
        find_number(node, "start", 1),
        find_number(node, "start", 2),
        find_number(node, "end", 1),
        find_number(node, "end", 2),
    ) {
        (Some(x1), Some(y1), Some(x2), Some(y2)) => Some(
            Trace {
                layer: find_text(node, "layer", 1),
                net: find_number(node, "net", 1),
                width: find_number(node, "width", 1),
                x1,
                y1,
                x2,
                y2,
                uuid: find_text(node, "uuid", 1),
            },
        ),
        _ => None,
    }
}

/// The tracks of the first `k` nodes.
pub open spec fn traces_of(nodes: Seq<Tree>, k: int) -> Seq<TraceText>
    decreases k,
{
    if k <= 0 {
        seq![]
    } else {
        match trace_of(nodes[k - 1]) {
            Some(n) => traces_of(nodes, k - 1).push(n),
            None => traces_of(nodes, k - 1),
        }
    }
}

/// The track segments of a board.
pub open spec fn board_traces(tree: Tree) -> Seq<TraceText> {
    traces_of(children_tagged(tree, "segment"@), children_tagged(tree, "segment"@).len() as int)
}

/// Tracks as plain text.
pub open spec fn trace_texts(v: Seq<Trace>) -> Seq<TraceText> {
    v.map_values(|t: Trace| t@)
}

/// The track segments of a board.
pub fn traces(tree: &SexpNode) -> (r: Vec<Trace>)
    ensures
        trace_texts(r@) == board_traces(tree@),
{
    let nodes: Vec<&SexpNode> = tree.find_all("segment");
    let ghost all = trees_of(nodes@);
    let mut out: Vec<Trace> = Vec::new();
    let mut k: usize = 0;
    assert(trace_texts(out@) =~= traces_of(all, 0));
    while k < nodes.len()
        invariant
            k <= nodes@.len(),
            all == trees_of(nodes@),
            trace_texts(out@) == traces_of(all, k as int),
        decreases nodes@.len() - k,
    {
        let ghost before = out@;
        assert(all[k as int] == nodes@[k as int]@);
        match read_trace(nodes[k]) {
            Some(t) => {
                let ghost v = t@;
                out.push(t);
                assert(trace_texts(out@) =~= trace_texts(before).push(v));
            },
            None => {},
        }
        k = k + 1;
    }
    out
}

/// Numbered names.
pub open spec fn numbered(v: Seq<(i32, String)>) -> Seq<(int, Seq<char>)> {
    v.map_values(|p: (i32, String)| (p.0 as int, p.1@))
}

/// The name of the net with this number among the first `k`: of several the
/// last one counts; empty if there is none.
pub open spec fn net_name_of(nets: Seq<(int, Seq<char>)>, code: int, k: int) -> Seq<char>
    decreases k,
{
    if k <= 0 {
        Seq::empty()
    } else if nets[k - 1].0 == code {
        nets[k - 1].1
    } else {
        net_name_of(nets, code, k - 1)
    }
}

fn find_net_name(nets: &Vec<(i32, String)>, code: i32) -> (r: String)
    ensures
        r@ == net_name_of(numbered(nets@), code as int, nets@.len() as int),
{
    let mut k: usize = nets.len();
    while k > 0
        invariant
            k <= nets@.len(),
            net_name_of(numbered(nets@), code as int, nets@.len() as int) == net_name_of(
                numbered(nets@),
                code as int,
                k as int,
            ),
        decreases k,
    {
        assert(numbered(nets@)[k - 1] == (nets@[k - 1].0 as int, nets@[k - 1].1@));
        if nets[k - 1].0 == code {
            return nets[k - 1].1.as_str().to_owned();
        }
        k = k - 1;
    }
    String::new()
}

/// The filter lets the text through: there is none, or it asks for this text.
pub open spec fn passes(filter: Option<Seq<char>>, s: Seq<char>) -> bool {
    match filter {
        Some(f) => f == s,
        None => true,
    }
}

fn lets_through(filter: Option<&str>, s: &str) -> (r: bool)
    ensures
        r == passes(opt_text(filter), s@),
{
    match filter {
        Some(f) => same(f, s),
        None => true,
    }
}

/// Which of the first `k` tracks a query gives, each with the name of its net.
pub open spec fn matching(
    traces: Seq<TraceText>,
    codes: Seq<i32>,
    nets: Seq<(int, Seq<char>)>,
    net: Option<Seq<char>>,
    layer: Option<Seq<char>>,
    k: int,
) -> Seq<(int, Seq<char>)>
    decreases k,
{
    if k <= 0 {
        seq![]
    } else {
        let before = matching(traces, codes, nets, net, layer, k - 1);
        let name = net_name_of(nets, codes[k - 1] as int, nets.len() as int);
        if passes(net, name) && passes(layer, traces[k - 1].layer) {
            before.push((k - 1, name))
        } else {
            before
        }
    }
}

/// Which tracks a query gives, as plain values.
pub open spec fn hits_of(v: Seq<(usize, String)>) -> Seq<(int, Seq<char>)> {
    v.map_values(|p: (usize, String)| (p.0 as int, p.1@))
}

/// Which of the tracks a query gives, optionally filtered by net and/or layer,
/// each with the name of its net. `codes` holds the net number of each track,
/// `nets` the declared nets by number.
pub fn query_traces(
    traces: &Vec<Trace>,
    codes: &Vec<i32>,
    nets: &Vec<(i32, String)>,
    net: Option<&str>,
    layer: Option<&str>,
) -> (r: Vec<(usize, String)>)
    requires
        codes@.len() == traces@.len(),
    ensures
        hits_of(r@) == matching(
            trace_texts(traces@),
            codes@,
            numbered(nets@),
            opt_text(net),
            opt_text(layer),
            traces@.len() as int,
        ),
{
    let ghost texts = trace_texts(traces@);
    let mut out: Vec<(usize, String)> = Vec::new();
    let mut k: usize = 0;
    assert(hits_of(out@) =~= matching(
        texts,
        codes@,
        numbered(nets@),
        opt_text(net),
        opt_text(layer),
        0,
    ));
    while k < traces.len()
        invariant
            k <= traces@.len(),
            codes@.len() == traces@.len(),
            texts == trace_texts(traces@),
            hits_of(out@) == matching(
                texts,
                codes@,
                numbered(nets@),
                opt_text(net),
                opt_text(layer),
                k as int,
            ),
        decreases traces@.len() - k,
    {
        let ghost before = out@;
        assert(texts[k as int] == traces@[k as int]@);
        let name: String = find_net_name(nets, codes[k]);
        if lets_through(net, name.as_str()) && lets_through(layer, traces[k].layer.as_str()) {
            let ghost v = (k as int, name@);
            out.push((k, name));
            assert(hits_of(out@) =~= hits_of(before).push(v));
        }
        k = k + 1;
    }
    out
}

} // verus!
