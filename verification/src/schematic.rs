//! Schematics: their symbols, and the symbol definitions embedded in them.
use crate::flatten::{
    chain_is_finite, flat_symbol, law_base_symbol_is_kept, law_flattened_is_self_contained,
    parent_of, resolve_lib_symbol_node_flattened,
};
use crate::symlib::{dirs_of, law_definition_has_its_id, plain_id, FileText, SymbolDir};
use crate::text::same;
use crate::tree::{children, forest, lemma_forest, lemma_forest_push, tagged, SexpNode, Tree};
use vstd::prelude::*;
use vstd::string::*;

verus! {

// Data
/// A property of a symbol instance.
pub struct Property {
    pub name: String,
    pub value: String,
    pub sub_nodes: Vec<SexpNode>,
}

/// A symbol instance. The numbers of its place are kept as they are written.
pub struct Symbol {
    pub lib_id: String,
    pub x: String,
    pub y: String,
    pub rotation: Option<String>,
    pub mirror: Option<String>,
    pub unit: u32,
    pub uuid: String,
    pub properties: Vec<Property>,
    pub raw_sub_nodes: Vec<SexpNode>,
}

/// A schematic: its symbol instances, and everything else as it was read.
pub struct Schematic {
    pub symbols: Vec<Symbol>,
    pub raw_other: Vec<SexpNode>,
}

/// A property as plain text.
pub struct PropertyText {
    pub name: Seq<char>,
    pub value: Seq<char>,
    pub sub_nodes: Seq<Tree>,
}

/// A symbol instance as plain text.
#[verifier::ext_equal]
pub struct SymbolText {
    pub lib_id: Seq<char>,
    pub x: Seq<char>,
    pub y: Seq<char>,
    pub rotation: Option<Seq<char>>,
    pub mirror: Option<Seq<char>>,
    pub unit: u32,
    pub uuid: Seq<char>,
    pub properties: Seq<PropertyText>,
    pub raw_sub_nodes: Seq<Tree>,
}

/// A schematic as plain text.
#[verifier::ext_equal]
pub struct SchematicText {
    pub symbols: Seq<SymbolText>,
    pub raw_other: Seq<Tree>,
}

impl View for Property {
    type V = PropertyText;

    open spec fn view(&self) -> PropertyText {
        PropertyText {
            name: self.name@,
            value: self.value@,
            sub_nodes: forest(self.sub_nodes@),
        }
    }
}

impl View for Symbol {
    type V = SymbolText;

    open spec fn view(&self) -> SymbolText {
        SymbolText {
            lib_id: self.lib_id@,
            x: self.x@,
            y: self.y@,
            rotation: match self.rotation {
                Some(s) => Some(s@),
                None => None,
            },
            mirror: match self.mirror {
                Some(s) => Some(s@),
                None => None,
            },
            unit: self.unit,
            uuid: self.uuid@,
            properties: self.properties@.map_values(|p: Property| p@),
            raw_sub_nodes: forest(self.raw_sub_nodes@),
        }
    }
}

impl View for Schematic {
    type V = SchematicText;

    open spec fn view(&self) -> SchematicText {
        SchematicText {
            symbols: self.symbols@.map_values(|s: Symbol| s@),
            raw_other: forest(self.raw_other@),
        }
    }
}

// Embedded definitions
/// The node is the definition of the symbol.
pub open spec fn defines(t: Tree, lib_id: Seq<char>) -> bool {
    tagged(t, "symbol"@) && children(t).len() > 1 && children(t)[1] == Tree::Str(lib_id)
}

/// A `lib_symbols` section with the definition of the symbol.
pub open spec fn holds_symbol(t: Tree, lib_id: Seq<char>) -> bool {
    tagged(t, "lib_symbols"@) && exists|j: int|
        0 <= j < children(t).len() && defines(#[trigger] children(t)[j], lib_id)
}

/// A `lib_symbols` section among the nodes has the symbol.
pub open spec fn embedded(nodes: Seq<Tree>, lib_id: Seq<char>) -> bool {
    exists|i: int| 0 <= i < nodes.len() && holds_symbol(#[trigger] nodes[i], lib_id)
}

fn node_defines(node: &SexpNode, lib_id: &str) -> (r: bool)
    ensures
        r == defines(node@, lib_id@),
{
    if !node.has_tag("symbol") {
        return false;
    }
    match node {
        SexpNode::List(v) => {
            proof {
                lemma_forest(v@);
            }
            if v.len() < 2 {
                return false;
            }
            assert(children(node@)[1] == v@[1]@);
            match &v[1] {
                SexpNode::Str(x) => same(x.as_str(), lib_id),
                SexpNode::Atom(_) => false,
                SexpNode::List(_) => false,
            }
        },
        SexpNode::Atom(_) => false,
        SexpNode::Str(_) => false,
    }
}

/// Whether a node is a `lib_symbols` section with the definition of the symbol.
fn section_has_symbol(node: &SexpNode, lib_id: &str) -> (r: bool)
    ensures
        r == holds_symbol(node@, lib_id@),
{
    if !node.has_tag("lib_symbols") {
        return false;
    }
    match node {
        SexpNode::List(v) => {
            let ghost all = children(node@);
            proof {
                lemma_forest(v@);
            }
            let mut k: usize = 0;
            while k < v.len()
                invariant
                    all == children(node@),
                    all.len() == v@.len(),
                    tagged(node@, "lib_symbols"@),
                    forall|i: int| 0 <= i < v@.len() ==> #[trigger] all[i] == v@[i]@,
                    k <= v@.len(),
                    forall|i: int| 0 <= i < k ==> !defines(#[trigger] all[i], lib_id@),
                decreases v@.len() - k,
            {
                assert(all[k as int] == v@[k as int]@);
                if node_defines(&v[k], lib_id) {
                    assert(defines(children(node@)[k as int], lib_id@));
                    return true;
                }
                k = k + 1;
            }
            false
        },
        SexpNode::Atom(_) => false,
        SexpNode::Str(_) => false,
    }
}

/// The nodes with a definition added to the first `lib_symbols` section, or to
/// a new one at the front.
pub open spec fn with_definition(nodes: Seq<Tree>, definition: Tree) -> Seq<Tree> {
    let i = crate::flatten::tag_index(nodes, "lib_symbols"@, 0);
    if i < nodes.len() {
        nodes.update(i, Tree::List(children(nodes[i]).push(definition)))
    } else {
        seq![Tree::List(seq![Tree::Atom("lib_symbols"@), definition])] + nodes
    }
}

/// The nodes once the symbol is embedded: as they are if it is there already or
/// cannot be found.
pub open spec fn with_symbol(nodes: Seq<Tree>, dirs: Seq<Seq<FileText>>, lib_id: Seq<char>) -> Seq<
    Tree,
> {
    if embedded(nodes, lib_id) {
        nodes
    } else {
        match flat_symbol(dirs, lib_id) {
            None => nodes,
            Some(d) => with_definition(nodes, d),
        }
    }
}

fn is_embedded(nodes: &Vec<SexpNode>, lib_id: &str) -> (r: bool)
    ensures
        r == embedded(forest(nodes@), lib_id@),
{
    let ghost all = forest(nodes@);
    proof {
        lemma_forest(nodes@);
    }
    let mut k: usize = 0;
    while k < nodes.len()
        invariant
            all == forest(nodes@),
            all.len() == nodes@.len(),
            forall|i: int| 0 <= i < nodes@.len() ==> #[trigger] all[i] == nodes@[i]@,
            k <= nodes@.len(),
            forall|i: int| 0 <= i < k ==> !holds_symbol(#[trigger] all[i], lib_id@),
        decreases nodes@.len() - k,
    {
        assert(all[k as int] == nodes@[k as int]@);
        if section_has_symbol(&nodes[k], lib_id) {
            assert(holds_symbol(all[k as int], lib_id@));
            return true;
        }
        k = k + 1;
    }
    false
}

/// Ensure a library symbol definition is present in the schematic's lib_symbols
/// section. If the symbol is already present (by name), does nothing. If there
/// is no lib_symbols section, creates one. Derived symbols are flattened into
/// self-contained definitions first: KiCAD's schematic loader does not resolve
/// `extends` inside a lib_symbols table.
pub fn ensure_lib_symbol(schematic: &mut Schematic, dirs: &Vec<SymbolDir>, lib_id: &str)
    requires
        chain_is_finite(dirs_of(dirs@), lib_id@),
    ensures
        final(schematic)@ == (SchematicText {
            symbols: old(schematic)@.symbols,
            raw_other: with_symbol(old(schematic)@.raw_other, dirs_of(dirs@), lib_id@),
        }),
{
    let ghost nodes = forest(schematic.raw_other@);
    if is_embedded(&schematic.raw_other, lib_id) {
        return;
    }
    let definition: SexpNode = match resolve_lib_symbol_node_flattened(dirs, lib_id) {
        Some(n) => n,
        None => {
            return;
        },
    };
    let ghost d = definition@;
    proof {
        lemma_forest(schematic.raw_other@);
    }
    let at: usize = crate::flatten::find_tag(&schematic.raw_other, "lib_symbols");
    if at < schematic.raw_other.len() {
        proof {
            lemma_tag_found(nodes, "lib_symbols"@, 0);
        }
        let ghost before = schematic.raw_other@;
        let section: SexpNode = schematic.raw_other.remove(at);
        assert(section@ == nodes[at as int]);
        match section {
            SexpNode::List(v) => {
                let mut kids: Vec<SexpNode> = v;
                proof {
                    lemma_forest_push(kids@, definition);
                }
                kids.push(definition);
                schematic.raw_other.insert(at, SexpNode::List(kids));
                proof {
                    lemma_forest(schematic.raw_other@);
                    assert(forest(schematic.raw_other@) =~= nodes.update(
                        at as int,
                        Tree::List(children(nodes[at as int]).push(d)),
                    ));
                }
            },
            SexpNode::Atom(_) => {},
            SexpNode::Str(_) => {},
        }
    } else {
        let mut kids: Vec<SexpNode> = Vec::new();
        let word: SexpNode = SexpNode::Atom("lib_symbols".to_owned());
        proof {
            lemma_forest_push(kids@, word);
        }
        kids.push(word);
        proof {
            lemma_forest_push(kids@, definition);
        }
        kids.push(definition);
        assert(forest(kids@) =~= seq![Tree::Atom("lib_symbols"@), d]);
        schematic.raw_other.insert(0, SexpNode::List(kids));
        proof {
            lemma_forest(schematic.raw_other@);
            assert(forest(schematic.raw_other@) =~= seq![
                Tree::List(seq![Tree::Atom("lib_symbols"@), d]),
            ] + nodes);
        }
    }
}

proof fn lemma_tag_found(v: Seq<Tree>, tag: Seq<char>, k: int)
    requires
        0 <= k,
        crate::flatten::tag_index(v, tag, k) < v.len(),
    ensures
        k <= crate::flatten::tag_index(v, tag, k),
        tagged(v[crate::flatten::tag_index(v, tag, k)], tag),
    decreases v.len() - k,
{
    if k < v.len() && !tagged(v[k], tag) {
        lemma_tag_found(v, tag, k + 1);
    }
}

// Laws of embedding
/// What is embedded is in the section it went into.
proof fn lemma_with_definition(nodes: Seq<Tree>, d: Tree, lib_id: Seq<char>)
    requires
        defines(d, lib_id),
    ensures
        embedded(with_definition(nodes, d), lib_id),
{
    let i = crate::flatten::tag_index(nodes, "lib_symbols"@, 0);
    let r = with_definition(nodes, d);
    if i < nodes.len() {
        lemma_tag_found(nodes, "lib_symbols"@, 0);
        let kids = children(nodes[i]).push(d);
        assert(kids[0] == children(nodes[i])[0]);
        assert(r[i] == Tree::List(kids));
        assert(defines(children(r[i])[kids.len() - 1], lib_id));
        assert(holds_symbol(r[i], lib_id));
    } else {
        let kids = seq![Tree::Atom("lib_symbols"@), d];
        assert(r[0] == Tree::List(kids));
        assert(defines(children(r[0])[1], lib_id));
        assert(holds_symbol(r[0], lib_id));
    }
}

/// A definition that is embedded is that of its symbol.
proof fn lemma_definition_defines(dirs: Seq<Seq<FileText>>, lib_id: Seq<char>)
    requires
        chain_is_finite(dirs, lib_id),
        plain_id(lib_id),
        flat_symbol(dirs, lib_id) is Some,
    ensures
        defines(flat_symbol(dirs, lib_id).unwrap(), lib_id),
{
    let d = flat_symbol(dirs, lib_id).unwrap();
    law_flattened_is_self_contained(dirs, lib_id);
    if parent_of(dirs, lib_id) is None {
        law_base_symbol_is_kept(dirs, lib_id);
        law_definition_has_its_id(dirs, lib_id);
    }
}

/// A symbol that a library has is there once it was embedded.
pub proof fn law_embedding_succeeds(
    nodes: Seq<Tree>,
    dirs: Seq<Seq<FileText>>,
    lib_id: Seq<char>,
)
    requires
        chain_is_finite(dirs, lib_id),
        plain_id(lib_id),
        flat_symbol(dirs, lib_id) is Some,
    ensures
        embedded(with_symbol(nodes, dirs, lib_id), lib_id),
{
    lemma_definition_defines(dirs, lib_id);
    if !embedded(nodes, lib_id) {
        lemma_with_definition(nodes, flat_symbol(dirs, lib_id).unwrap(), lib_id);
    }
}

/// Embedding a symbol a second time changes nothing: there is never a second
/// definition.
pub proof fn law_embedding_is_done_once(
    nodes: Seq<Tree>,
    dirs: Seq<Seq<FileText>>,
    lib_id: Seq<char>,
)
    requires
        chain_is_finite(dirs, lib_id),
        plain_id(lib_id),
    ensures
        with_symbol(with_symbol(nodes, dirs, lib_id), dirs, lib_id) == with_symbol(
            nodes,
            dirs,
            lib_id,
        ),
{
    if flat_symbol(dirs, lib_id) is Some {
        law_embedding_succeeds(nodes, dirs, lib_id);
    }
}

} // verus!
