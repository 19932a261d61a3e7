//! What is done to the symbols of a schematic.
use crate::instances::{
    blank_text, component_missing, effects, field, field_from, info, last_part, marked_references,
    mirrored, new_reference, new_symbol, new_value, symbol_added, symbol_from, symbol_index,
    with_symbol_at, SpotText,
};
use crate::laws::reading::headed;
use crate::schematic::{
    defines, embedded, holds_symbol, with_definition, with_symbol, PropertyText, SchematicText,
    SymbolText,
};
use crate::symlib::FileText;
use crate::tree::{children, tagged, Tree};
use crate::words::nat_chars;
use vstd::prelude::*;
use vstd::string::*;

verus! {

// Finding
/// A field is that of the first property with its name.
pub proof fn law_a_field_is_the_first_with_its_name(
    s: SymbolText,
    p: PropertyText,
    name: Seq<char>,
)
    ensures
        field(SymbolText { properties: s.properties.push(p), ..s }, name) == (match field(s, name) {
            Some(v) => Some(v),
            None => if p.name == name {
                Some(p.value)
            } else {
                None
            },
        }),
        s.properties.len() == 0 ==> field(s, name) is None,
{
    lemma_field_push(s.properties, p, name, 0);
}

proof fn lemma_field_push(props: Seq<PropertyText>, p: PropertyText, name: Seq<char>, k: int)
    requires
        0 <= k <= props.len(),
    ensures
        field_from(props.push(p), name, k) == (match field_from(props, name, k) {
            Some(v) => Some(v),
            None => if p.name == name {
                Some(p.value)
            } else {
                None
            },
        }),
    decreases props.len() - k,
{
    let v = props.push(p);
    if k < props.len() {
        assert(v[k] == props[k]);
        lemma_field_push(props, p, name, k + 1);
    } else {
        assert(v[k] == p);
        assert(field_from(v, name, k + 1) is None);
    }
}

/// A symbol is found by its reference, and the first one that has it is.
pub proof fn law_the_first_symbol_with_a_reference_is_found(
    sch: SchematicText,
    reference: Seq<char>,
)
    ensures
        match symbol_index(sch, reference) {
            Some(k) => {
                &&& 0 <= k < sch.symbols.len()
                &&& field(sch.symbols[k], "Reference"@) == Some(reference)
                &&& forall|j: int|
                    0 <= j < k ==> field(#[trigger] sch.symbols[j], "Reference"@) != Some(reference)
            },
            None => forall|j: int|
                0 <= j < sch.symbols.len() ==> field(#[trigger] sch.symbols[j], "Reference"@)
                    != Some(reference),
        },
{
    lemma_symbol(sch.symbols, reference, 0);
}

proof fn lemma_symbol(symbols: Seq<SymbolText>, reference: Seq<char>, k: int)
    requires
        0 <= k,
    ensures
        match symbol_from(symbols, reference, k) {
            Some(i) => {
                &&& k <= i < symbols.len()
                &&& field(symbols[i], "Reference"@) == Some(reference)
                &&& forall|j: int|
                    k <= j < i ==> field(#[trigger] symbols[j], "Reference"@) != Some(reference)
            },
            None => forall|j: int|
                k <= j < symbols.len() ==> field(#[trigger] symbols[j], "Reference"@) != Some(
                    reference,
                ),
        },
    decreases symbols.len() - k,
{
    if k < symbols.len() && field(symbols[k], "Reference"@) != Some(reference) {
        lemma_symbol(symbols, reference, k + 1);
    }
}

/// What is told of a symbol: its own texts, a question mark for a missing
/// reference, and along which axes it is mirrored.
pub proof fn law_a_symbol_is_told_as_it_is(s: SymbolText)
    ensures
        ({
            let i = info(s);
            &&& field(s, "Reference"@) matches Some(r) ==> i.reference == r
            &&& field(s, "Reference"@) is None ==> i.reference == "?"@
            &&& field(s, "Value"@) matches Some(v) ==> i.value == v
            &&& field(s, "Value"@) is None ==> i.value.len() == 0
            &&& field(s, "Footprint"@) matches Some(f) ==> i.footprint == f
            &&& field(s, "Footprint"@) is None ==> i.footprint.len() == 0
            &&& i.lib_id == s.lib_id
            &&& i.x == s.x
            &&& i.y == s.y
            &&& i.rotation == s.rotation
            &&& i.uuid == s.uuid
            &&& i.mirror_x <==> (s.mirror matches Some(m) && exists|k: int|
                0 <= k < m.len() && #[trigger] m[k] == 'x')
            &&& i.mirror_y <==> (s.mirror matches Some(m) && exists|k: int|
                0 <= k < m.len() && #[trigger] m[k] == 'y')
        }),
        component_missing(s.lib_id) == "Component '"@ + s.lib_id + "' not found"@,
{
    reveal_strlit("");
}

/// Of the symbols inside a region those with a reference are told, in their
/// order.
pub proof fn law_a_region_tells_its_references(
    symbols: Seq<SymbolText>,
    inside: Seq<bool>,
    k: int,
)
    requires
        0 <= k < symbols.len(),
        inside.len() == symbols.len(),
    ensures
        marked_references(symbols, inside, 0).len() == 0,
        inside[k] ==> (field(symbols[k], "Reference"@) matches Some(r) ==> marked_references(
            symbols,
            inside,
            k + 1,
        ) == marked_references(symbols, inside, k).push(r)),
        !inside[k] || field(symbols[k], "Reference"@) is None ==> marked_references(
            symbols,
            inside,
            k + 1,
        ) == marked_references(symbols, inside, k),
{
}

/// A change to one symbol leaves the others and the rest of the schematic as
/// they were.
pub proof fn law_one_symbol_changes(sch: SchematicText, k: int, s: SymbolText, j: int)
    requires
        0 <= k < sch.symbols.len(),
        0 <= j < sch.symbols.len(),
    ensures
        with_symbol_at(sch, k, s).symbols.len() == sch.symbols.len(),
        with_symbol_at(sch, k, s).symbols[k] == s,
        j != k ==> with_symbol_at(sch, k, s).symbols[j] == sch.symbols[j],
        with_symbol_at(sch, k, s).raw_other == sch.raw_other,
{
}

// Adding
/// A new symbol stands behind all others; the definition of its library symbol is
/// embedded.
pub proof fn law_a_new_symbol_stands_last(
    sch: SchematicText,
    dirs: Seq<Seq<FileText>>,
    lib_id: Seq<char>,
    s: SymbolText,
)
    ensures
        symbol_added(sch, dirs, lib_id, s).symbols == sch.symbols.push(s),
        symbol_added(sch, dirs, lib_id, s).raw_other == with_symbol(sch.raw_other, dirs, lib_id),
{
}

/// A field of a new symbol stands upright at a point; a hidden one says so.
pub open spec fn is_new_field(
    p: PropertyText,
    name: Seq<char>,
    value: Seq<char>,
    x: Seq<char>,
    y: Seq<char>,
    hidden: bool,
) -> bool {
    let size = Tree::List(seq![Tree::Atom("size"@), Tree::Atom("1.27"@), Tree::Atom("1.27"@)]);
    let font = Tree::List(seq![Tree::Atom("font"@), size]);
    let hide = Tree::List(seq![Tree::Atom("hide"@), Tree::Atom("yes"@)]);
    &&& p.name == name
    &&& p.value == value
    &&& p.sub_nodes == seq![
        Tree::List(seq![Tree::Atom("at"@), Tree::Atom(x), Tree::Atom(y), Tree::Atom("0"@)]),
        if hidden {
            Tree::List(seq![Tree::Atom("effects"@), font, hide])
        } else {
            Tree::List(seq![Tree::Atom("effects"@), font])
        },
    ]
}

/// A new symbol is at its spot, not mirrored, with its reference above it and its
/// value below, and hidden fields for its footprint and its datasheet.
pub proof fn law_a_new_symbol_has_four_fields(
    lib_id: Seq<char>,
    spot: SpotText,
    unit: u32,
    reference: Seq<char>,
    value: Seq<char>,
    uuid: Seq<char>,
)
    ensures
        ({
            let s = new_symbol(lib_id, spot, unit, reference, value, uuid);
            &&& s.lib_id == lib_id
            &&& s.x == spot.x
            &&& s.y == spot.y
            &&& s.rotation == Some(spot.rotation)
            &&& s.mirror is None
            &&& s.unit == unit
            &&& s.uuid == uuid
            &&& s.properties.len() == 4
            &&& is_new_field(s.properties[0], "Reference"@, reference, spot.x, spot.ref_y, false)
            &&& is_new_field(s.properties[1], "Value"@, value, spot.x, spot.value_y, false)
            &&& is_new_field(s.properties[2], "Footprint"@, ""@, spot.x, spot.y, true)
            &&& is_new_field(s.properties[3], "Datasheet"@, ""@, spot.x, spot.y, true)
            &&& s.raw_sub_nodes == seq![
                Tree::List(
                    seq![
                        Tree::Atom("instances"@),
                        Tree::List(
                            seq![
                                Tree::Atom("project"@),
                                Tree::Str(""@),
                                Tree::List(
                                    seq![
                                        Tree::Atom("path"@),
                                        Tree::Str("/"@),
                                        Tree::List(
                                            seq![Tree::Atom("reference"@), Tree::Str(reference)],
                                        ),
                                        Tree::List(
                                            seq![
                                                Tree::Atom("unit"@),
                                                Tree::Atom(nat_chars(unit as int)),
                                            ],
                                        ),
                                    ],
                                ),
                            ],
                        ),
                    ],
                ),
            ]
        }),
{
}

/// Without a reference a symbol gets a question mark; without a value it gets the
/// name that stands behind the last colon of its library id.
pub proof fn law_missing_texts_are_filled_in(
    given: Seq<char>,
    library: Seq<char>,
    name: Seq<char>,
)
    requires
        forall|k: int| 0 <= k < name.len() ==> name[k] != ':',
    ensures
        new_reference(Some(given)) == given,
        new_reference(None) == "?"@,
        new_value(Some(given), library + seq![':'] + name) == given,
        new_value(None, library + seq![':'] + name) == name,
        new_value(None, name) == name,
{
    lemma_last_part(library + seq![':'], name);
    lemma_last_part(Seq::empty(), name);
    assert(Seq::<char>::empty() + name =~= name);
}

proof fn lemma_last_part(front: Seq<char>, name: Seq<char>)
    requires
        front.len() == 0 || front.last() == ':',
        forall|k: int| 0 <= k < name.len() ==> name[k] != ':',
    ensures
        last_part(front + name) == name,
    decreases name.len(),
{
    let s = front + name;
    if name.len() > 0 {
        assert(s.drop_last() =~= front + name.drop_last());
        assert(s.last() == name.last());
        assert(name[name.len() - 1] != ':');
        lemma_last_part(front, name.drop_last());
        assert(name.drop_last().push(name.last()) =~= name);
    } else {
        assert(s =~= front);
        assert(name =~= Seq::<char>::empty());
    }
}

// Definitions
/// Item number `j` of section number `i` defines the symbol: the section begins
/// with `lib_symbols`, the item with `symbol` and the id of the symbol in quotes.
pub open spec fn defines_it(nodes: Seq<Tree>, lib_id: Seq<char>, i: int, j: int) -> bool {
    &&& 0 <= i < nodes.len()
    &&& headed(nodes[i], "lib_symbols"@)
    &&& nodes[i] matches Tree::List(v)
    &&& 0 <= j < v.len()
    &&& headed(v[j], "symbol"@)
    &&& v[j] matches Tree::List(w)
    &&& w.len() > 1
    &&& w[1] == Tree::Str(lib_id)
}

/// A symbol is embedded where a section defines it.
pub proof fn law_a_symbol_is_embedded_by_its_definition(nodes: Seq<Tree>, lib_id: Seq<char>)
    ensures
        embedded(nodes, lib_id) <==> exists|i: int, j: int| defines_it(nodes, lib_id, i, j),
{
    if embedded(nodes, lib_id) {
        let i = choose|i: int| 0 <= i < nodes.len() && holds_symbol(#[trigger] nodes[i], lib_id);
        let j = choose|j: int|
            0 <= j < children(nodes[i]).len() && defines(#[trigger] children(nodes[i])[j], lib_id);
        assert(defines_it(nodes, lib_id, i, j));
    }
    if exists|i: int, j: int| defines_it(nodes, lib_id, i, j) {
        let (i, j) = choose|i: int, j: int| defines_it(nodes, lib_id, i, j);
        assert(defines(children(nodes[i])[j], lib_id));
        assert(holds_symbol(nodes[i], lib_id));
    }
}

/// A definition goes to the end of the first section; without one, a new section
/// comes before everything.
pub proof fn law_a_definition_goes_to_the_first_section(nodes: Seq<Tree>, d: Tree, i: int)
    ensures
        (forall|j: int| 0 <= j < nodes.len() ==> !headed(#[trigger] nodes[j], "lib_symbols"@))
            ==> with_definition(nodes, d) == seq![
            Tree::List(seq![Tree::Atom("lib_symbols"@), d]),
        ] + nodes,
        0 <= i < nodes.len() && headed(nodes[i], "lib_symbols"@) && (forall|j: int|
            0 <= j < i ==> !headed(#[trigger] nodes[j], "lib_symbols"@)) ==> {
            let r = with_definition(nodes, d);
            &&& r.len() == nodes.len()
            &&& forall|j: int| 0 <= j < nodes.len() && j != i ==> r[j] == nodes[j]
            &&& nodes[i] matches Tree::List(v) && r[i] == Tree::List(v.push(d))
        },
{
    lemma_section(nodes, 0);
}

proof fn lemma_section(nodes: Seq<Tree>, k: int)
    requires
        0 <= k <= nodes.len(),
    ensures
        ({
            let t = crate::flatten::tag_index(nodes, "lib_symbols"@, k);
            &&& k <= t <= nodes.len()
            &&& t < nodes.len() ==> headed(nodes[t], "lib_symbols"@)
            &&& forall|j: int| k <= j < t ==> !headed(#[trigger] nodes[j], "lib_symbols"@)
        }),
    decreases nodes.len() - k,
{
    if k < nodes.len() && !tagged(nodes[k], "lib_symbols"@) {
        lemma_section(nodes, k + 1);
    }
}

/// A symbol that is embedded already, or that no library has, changes nothing;
/// else its definition is added.
pub proof fn law_embedding_adds_what_is_missing(
    nodes: Seq<Tree>,
    dirs: Seq<Seq<FileText>>,
    lib_id: Seq<char>,
)
    ensures
        (exists|i: int, j: int| defines_it(nodes, lib_id, i, j)) ==> with_symbol(
            nodes,
            dirs,
            lib_id,
        ) == nodes,
        crate::flatten::flat_symbol(dirs, lib_id) is None ==> with_symbol(nodes, dirs, lib_id)
            == nodes,
        !(exists|i: int, j: int| defines_it(nodes, lib_id, i, j)) ==> (
        crate::flatten::flat_symbol(dirs, lib_id) matches Some(d) ==> with_symbol(
            nodes,
            dirs,
            lib_id,
        ) == with_definition(nodes, d)),
{
    law_a_symbol_is_embedded_by_its_definition(nodes, lib_id);
}

/// A blank schematic.
pub proof fn law_a_blank_schematic_says_no_more_than_its_header()
    ensures
        blank_text()
            == "(kicad_sch\n\t(version 20260306)\n\t(generator \"konnect\")\n\t(generator_version \"10.0\")\n\t(paper \"A4\")\n\t(lib_symbols\n\t)\n)\n"@,
{
}

} // verus!
