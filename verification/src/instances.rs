//! Symbol instances of a schematic: adding, finding, moving and deleting them.
use crate::answer::{error_answer, CallToolResult};
use crate::flatten::chain_is_finite;
use crate::schematic::{
    ensure_lib_symbol, with_symbol, Property, PropertyText, Schematic, SchematicText, Symbol,
    SymbolText,
};
use crate::symlib::{dirs_of, FileText, SymbolDir};
use crate::text::same;
use crate::tree::{forest, lemma_forest, SexpNode, Tree};
use crate::words::{chars_of, index_from, index_of, nat_chars, nat_text, strings_of};
use vstd::prelude::*;
use vstd::string::*;

verus! {

// Building nodes
fn atom(s: &str) -> (r: SexpNode)
    ensures
        r@ == Tree::Atom(s@),
{
    SexpNode::Atom(s.to_owned())
}

fn qstr(s: &str) -> (r: SexpNode)
    ensures
        r@ == Tree::Str(s@),
{
    SexpNode::Str(s.to_owned())
}

fn list_of_two(a: SexpNode, b: SexpNode) -> (r: SexpNode)
    ensures
        r@ == Tree::List(seq![a@, b@]),
{
    let ghost t = seq![a@, b@];
    let mut v: Vec<SexpNode> = Vec::new();
    v.push(a);
    v.push(b);
    proof {
        lemma_forest(v@);
    }
    assert(forest(v@) =~= t);
    SexpNode::List(v)
}

fn list_of_three(a: SexpNode, b: SexpNode, c: SexpNode) -> (r: SexpNode)
    ensures
        r@ == Tree::List(seq![a@, b@, c@]),
{
    let ghost t = seq![a@, b@, c@];
    let mut v: Vec<SexpNode> = Vec::new();
    v.push(a);
    v.push(b);
    v.push(c);
    proof {
        lemma_forest(v@);
    }
    assert(forest(v@) =~= t);
    SexpNode::List(v)
}

fn list_of_four(a: SexpNode, b: SexpNode, c: SexpNode, d: SexpNode) -> (r: SexpNode)
    ensures
        r@ == Tree::List(seq![a@, b@, c@, d@]),
{
    let ghost t = seq![a@, b@, c@, d@];
    let mut v: Vec<SexpNode> = Vec::new();
    v.push(a);
    v.push(b);
    v.push(c);
    v.push(d);
    proof {
        lemma_forest(v@);
    }
    assert(forest(v@) =~= t);
    SexpNode::List(v)
}

/// `(effects (font (size 1.27 1.27)))`, with `(hide yes)` if it is hidden.
pub open spec fn effects(hide: bool) -> Tree {
    let font = Tree::List(
        seq![
            Tree::Atom("font"@),
            Tree::List(seq![Tree::Atom("size"@), Tree::Atom("1.27"@), Tree::Atom("1.27"@)]),
        ],
    );
    if hide {
        Tree::List(
            seq![
                Tree::Atom("effects"@),
                font,
                Tree::List(seq![Tree::Atom("hide"@), Tree::Atom("yes"@)]),
            ],
        )
    } else {
        Tree::List(seq![Tree::Atom("effects"@), font])
    }
}

fn effects_node(hide: bool) -> (r: SexpNode)
    ensures
        r@ == effects(hide),
{
    let size: SexpNode = list_of_three(atom("size"), atom("1.27"), atom("1.27"));
    let font: SexpNode = list_of_two(atom("font"), size);
    if hide {
        list_of_three(atom("effects"), font, list_of_two(atom("hide"), atom("yes")))
    } else {
        list_of_two(atom("effects"), font)
    }
}

/// `(at x y 0)`.
pub open spec fn upright_at(x: Seq<char>, y: Seq<char>) -> Tree {
    Tree::List(seq![Tree::Atom("at"@), Tree::Atom(x), Tree::Atom(y), Tree::Atom("0"@)])
}

/// A field of a new symbol: its text stands at a place, visible or hidden.
pub open spec fn new_field(
    name: Seq<char>,
    value: Seq<char>,
    x: Seq<char>,
    y: Seq<char>,
    hide: bool,
) -> PropertyText {
    PropertyText { name, value, sub_nodes: seq![upright_at(x, y), effects(hide)] }
}

fn make_field(name: &str, value: &str, x: &str, y: &str, hide: bool) -> (r: Property)
    ensures
        r@ == new_field(name@, value@, x@, y@, hide),
{
    let at: SexpNode = list_of_four(atom("at"), atom(x), atom(y), atom("0"));
    let mut sub_nodes: Vec<SexpNode> = Vec::new();
    sub_nodes.push(at);
    sub_nodes.push(effects_node(hide));
    proof {
        lemma_forest(sub_nodes@);
    }
    assert(forest(sub_nodes@) =~= seq![upright_at(x@, y@), effects(hide)]);
    Property { name: name.to_owned(), value: value.to_owned(), sub_nodes }
}

/// The node that says under which reference a symbol is used.
pub open spec fn instances_tree(reference: Seq<char>, unit: int) -> Tree {
    Tree::List(
        seq![
            Tree::Atom("instances"@),
            Tree::List(
                seq![
                    Tree::Atom("project"@),
                    Tree::Str(""@),
                    Tree::List(
                        seq![
                            Tree::Atom("path"@),
                            Tree::Str("/"@),
                            Tree::List(seq![Tree::Atom("reference"@), Tree::Str(reference)]),
                            Tree::List(seq![Tree::Atom("unit"@), Tree::Atom(nat_chars(unit))]),
                        ],
                    ),
                ],
            ),
        ],
    )
}

fn instances_node(reference: &str, unit: u32) -> (r: SexpNode)
    ensures
        r@ == instances_tree(reference@, unit as int),
{
    let number: String = nat_text(unit as u64);
    let path: SexpNode = list_of_four(
        atom("path"),
        qstr("/"),
        list_of_two(atom("reference"), qstr(reference)),
        list_of_two(atom("unit"), atom(number.as_str())),
    );
    list_of_two(atom("instances"), list_of_three(atom("project"), qstr(""), path))
}

// Adding
/// What stands behind the last colon.
pub open spec fn last_part(s: Seq<char>) -> Seq<char>
    decreases s.len(),
{
    if s.len() == 0 {
        s
    } else if s.last() == ':' {
        Seq::empty()
    } else {
        last_part(s.drop_last()).push(s.last())
    }
}

fn take_last_part(s: &str) -> (r: &str)
    ensures
        r@ == last_part(s@),
{
    let cs: Vec<char> = chars_of(s);
    let n: usize = cs.len();
    let mut k: usize = n;
    assert(s@.subrange(0, n as int) =~= s@);
    assert(last_part(s@) =~= last_part(s@.subrange(0, n as int)) + s@.subrange(n as int, n as int));
    while k > 0 && cs[k - 1] != ':'
        invariant
            cs@ == s@,
            n == s@.len(),
            k <= n,
            last_part(s@) == last_part(s@.subrange(0, k as int)) + s@.subrange(k as int, n as int),
        decreases k,
    {
        proof {
            let t = s@.subrange(0, k as int);
            assert(t.drop_last() =~= s@.subrange(0, k - 1));
            assert(last_part(t) == last_part(t.drop_last()).push(t.last()));
            assert(last_part(t) + s@.subrange(k as int, n as int) =~= last_part(t.drop_last())
                + s@.subrange(k - 1, n as int));
        }
        k = k - 1;
    }
    proof {
        let t = s@.subrange(0, k as int);
        assert(last_part(t) =~= Seq::<char>::empty());
        assert(last_part(s@) =~= s@.subrange(k as int, n as int));
    }
    s.substring_char(k, n)
}

/// Where a new symbol goes, each number as it is to be written.
pub struct Spot {
    pub x: String,
    pub y: String,
    pub rotation: String,
    /// The y of its reference, above it.
    pub ref_y: String,
    /// The y of its value, below it.
    pub value_y: String,
}

/// Where a new symbol goes, as plain text.
pub struct SpotText {
    pub x: Seq<char>,
    pub y: Seq<char>,
    pub rotation: Seq<char>,
    pub ref_y: Seq<char>,
    pub value_y: Seq<char>,
}

impl View for Spot {
    type V = SpotText;

    open spec fn view(&self) -> SpotText {
        SpotText {
            x: self.x@,
            y: self.y@,
            rotation: self.rotation@,
            ref_y: self.ref_y@,
            value_y: self.value_y@,
        }
    }
}

/// The reference of a new symbol: the one that was asked for, or `?`.
pub open spec fn new_reference(reference: Option<Seq<char>>) -> Seq<char> {
    match reference {
        Some(r) => r,
        None => "?"@,
    }
}

/// The value of a new symbol: the one that was asked for, or the name of the
/// symbol in its library.
pub open spec fn new_value(value: Option<Seq<char>>, lib_id: Seq<char>) -> Seq<char> {
    match value {
        Some(v) => v,
        None => last_part(lib_id),
    }
}

/// A new symbol instance: reference above, value below, the other fields hidden
/// in its middle.
pub open spec fn new_symbol(
    lib_id: Seq<char>,
    spot: SpotText,
    unit: u32,
    reference: Seq<char>,
    value: Seq<char>,
    uuid: Seq<char>,
) -> SymbolText {
    SymbolText {
        lib_id,
        x: spot.x,
        y: spot.y,
        rotation: Some(spot.rotation),
        mirror: None,
        unit,
        uuid,
        properties: seq![
            new_field("Reference"@, reference, spot.x, spot.ref_y, false),
            new_field("Value"@, value, spot.x, spot.value_y, false),
            new_field("Footprint"@, ""@, spot.x, spot.y, true),
            new_field("Datasheet"@, ""@, spot.x, spot.y, true),
        ],
        raw_sub_nodes: seq![instances_tree(reference, unit as int)],
    }
}

/// A new symbol instance.
pub fn build_symbol(
    lib_id: &str,
    spot: &Spot,
    unit: u32,
    reference: &str,
    value: &str,
    uuid: &str,
) -> (r: Symbol)
    ensures
        r@ == new_symbol(lib_id@, spot@, unit, reference@, value@, uuid@),
{
    let x: &str = spot.x.as_str();
    let y: &str = spot.y.as_str();
    let mut properties: Vec<Property> = Vec::new();
    properties.push(make_field("Reference", reference, x, spot.ref_y.as_str(), false));
    properties.push(make_field("Value", value, x, spot.value_y.as_str(), false));
    properties.push(make_field("Footprint", "", x, y, true));
    properties.push(make_field("Datasheet", "", x, y, true));
    let mut raw_sub_nodes: Vec<SexpNode> = Vec::new();
    raw_sub_nodes.push(instances_node(reference, unit));
    proof {
        lemma_forest(raw_sub_nodes@);
    }
    let r = Symbol {
        lib_id: lib_id.to_owned(),
        x: x.to_owned(),
        y: y.to_owned(),
        rotation: Some(spot.rotation.as_str().to_owned()),
        mirror: None,
        unit,
        uuid: uuid.to_owned(),
        properties,
        raw_sub_nodes,
    };
    proof {
        let goal = new_symbol(lib_id@, spot@, unit, reference@, value@, uuid@);
        assert(r@.properties =~= goal.properties);
        assert(r@.raw_sub_nodes =~= goal.raw_sub_nodes);
        assert(r@ =~= goal);
    }
    r
}

/// The schematic with a symbol added: its definition embedded, the instance
/// behind the others.
pub open spec fn symbol_added(
    sch: SchematicText,
    dirs: Seq<Seq<FileText>>,
    lib_id: Seq<char>,
    s: SymbolText,
) -> SchematicText {
    SchematicText {
        symbols: sch.symbols.push(s),
        raw_other: with_symbol(sch.raw_other, dirs, lib_id),
    }
}

/// Add a symbol from a library to the schematic.
pub fn add_schematic_component(
    sch: &mut Schematic,
    dirs: &Vec<SymbolDir>,
    lib_id: &str,
    spot: &Spot,
    unit: u32,
    reference: Option<&str>,
    value: Option<&str>,
    uuid: &str,
)
    requires
        chain_is_finite(dirs_of(dirs@), lib_id@),
    ensures
        final(sch)@ == symbol_added(
            old(sch)@,
            dirs_of(dirs@),
            lib_id@,
            new_symbol(
                lib_id@,
                spot@,
                unit,
                new_reference(crate::tree::opt_text(reference)),
                new_value(crate::tree::opt_text(value), lib_id@),
                uuid@,
            ),
        ),
{
    let ghost before = sch@;
    let ref_str: &str = match reference {
        Some(r) => r,
        None => "?",
    };
    let val_str: &str = match value {
        Some(v) => v,
        None => take_last_part(lib_id),
    };
    ensure_lib_symbol(sch, dirs, lib_id);
    let sym: Symbol = build_symbol(lib_id, spot, unit, ref_str, val_str, uuid);
    let ghost s = sym@;
    sch.symbols.push(sym);
    assert(sch@ =~= symbol_added(before, dirs_of(dirs@), lib_id@, s));
}

// Finding
/// The value of the first property, number `k` or later, with this name.
pub open spec fn field_from(props: Seq<PropertyText>, name: Seq<char>, k: int) -> Option<Seq<char>>
    decreases props.len() - k,
{
    if k < 0 || k >= props.len() {
        None
    } else if props[k].name == name {
        Some(props[k].value)
    } else {
        field_from(props, name, k + 1)
    }
}

/// The value of a field of a symbol.
pub open spec fn field(s: SymbolText, name: Seq<char>) -> Option<Seq<char>> {
    field_from(s.properties, name, 0)
}

impl Symbol {
    /// The value of a field.
    pub fn field(&self, name: &str) -> (r: Option<&str>)
        ensures
            crate::tree::opt_text(r) == field(self@, name@),
    {
        let mut k: usize = 0;
        while k < self.properties.len()
            invariant
                k <= self.properties@.len(),
                field(self@, name@) == field_from(self@.properties, name@, k as int),
            decreases self.properties@.len() - k,
        {
            assert(self@.properties[k as int] == self.properties@[k as int]@);
            if same(self.properties[k].name.as_str(), name) {
                return Some(self.properties[k].value.as_str());
            }
            k = k + 1;
        }
        None
    }
}

/// The place of the first symbol, number `k` or later, with this reference.
pub open spec fn symbol_from(symbols: Seq<SymbolText>, reference: Seq<char>, k: int) -> Option<int>
    decreases symbols.len() - k,
{
    if k < 0 || k >= symbols.len() {
        None
    } else if field(symbols[k], "Reference"@) == Some(reference) {
        Some(k)
    } else {
        symbol_from(symbols, reference, k + 1)
    }
}

/// The place of the symbol with this reference.
pub open spec fn symbol_index(sch: SchematicText, reference: Seq<char>) -> Option<int> {
    symbol_from(sch.symbols, reference, 0)
}

/// The place of the symbol with this reference.
pub fn find_symbol(sch: &Schematic, reference: &str) -> (r: Option<usize>)
    ensures
        match r {
            Some(k) => k < sch.symbols@.len() && symbol_index(sch@, reference@) == Some(k as int),
            None => symbol_index(sch@, reference@) is None,
        },
{
    let mut k: usize = 0;
    while k < sch.symbols.len()
        invariant
            k <= sch.symbols@.len(),
            symbol_index(sch@, reference@) == symbol_from(sch@.symbols, reference@, k as int),
        decreases sch.symbols@.len() - k,
    {
        assert(sch@.symbols[k as int] == sch.symbols@[k as int]@);
        if let Some(r) = sch.symbols[k].field("Reference") {
            if same(r, reference) {
                return Some(k);
            }
        }
        k = k + 1;
    }
    None
}

// Changing
/// Remove a symbol instance from the schematic by its reference designator.
pub fn delete_schematic_component(sch: &mut Schematic, reference: &str) -> (r: Result<
    (),
    CallToolResult,
>)
    ensures
        match symbol_index(old(sch)@, reference@) {
            Some(k) => r is Ok && final(sch)@ == (SchematicText {
                symbols: old(sch)@.symbols.remove(k),
                raw_other: old(sch)@.raw_other,
            }),
            None => {
                &&& r matches Err(a)
                &&& a@ == error_answer("Component '"@ + reference@ + "' not found in schematic"@)
                &&& final(sch)@ == old(sch)@
            },
        },
{
    let ghost before = sch@;
    match find_symbol(sch, reference) {
        Some(k) => {
            let _removed: Symbol = sch.symbols.remove(k);
            assert(sch@ =~= (SchematicText {
                symbols: before.symbols.remove(k as int),
                raw_other: before.raw_other,
            }));
            Ok(())
        },
        None => Err(
            CallToolResult::error(
                "Component '".to_owned().concat(reference).concat("' not found in schematic"),
            ),
        ),
    }
}

/// What is said of a symbol that a schematic does not have.
pub open spec fn component_missing(reference: Seq<char>) -> Seq<char> {
    "Component '"@ + reference + "' not found"@
}

fn say_missing(reference: &str) -> (r: String)
    ensures
        r@ == component_missing(reference@),
{
    "Component '".to_owned().concat(reference).concat("' not found")
}

/// The schematic with another symbol at a place.
pub open spec fn with_symbol_at(sch: SchematicText, k: int, s: SymbolText) -> SchematicText {
    SchematicText { symbols: sch.symbols.update(k, s), raw_other: sch.raw_other }
}

/// Move a symbol to a new position. Connected wires stay where they are.
pub fn move_schematic_component(sch: &mut Schematic, reference: &str, x: &str, y: &str) -> (r:
    Result<(), String>)
    ensures
        match symbol_index(old(sch)@, reference@) {
            Some(k) => r is Ok && final(sch)@ == with_symbol_at(
                old(sch)@,
                k,
                SymbolText { x: x@, y: y@, ..old(sch)@.symbols[k] },
            ),
            None => r matches Err(m) && m@ == component_missing(reference@) && final(sch)@ == old(
                sch,
            )@,
        },
{
    let ghost before = sch@;
    match find_symbol(sch, reference) {
        Some(k) => {
            let mut s: Symbol = sch.symbols.remove(k);
            s.x = x.to_owned();
            s.y = y.to_owned();
            sch.symbols.insert(k, s);
            assert(sch@ =~= with_symbol_at(
                before,
                k as int,
                SymbolText { x: x@, y: y@, ..before.symbols[k as int] },
            ));
            Ok(())
        },
        None => Err(say_missing(reference)),
    }
}

/// The references of those of the first `k` symbols that are marked.
pub open spec fn marked_references(
    symbols: Seq<SymbolText>,
    marked: Seq<bool>,
    k: int,
) -> Seq<Seq<char>>
    decreases k,
{
    if k <= 0 {
        seq![]
    } else {
        let before = marked_references(symbols, marked, k - 1);
        match field(symbols[k - 1], "Reference"@) {
            Some(r) => if marked[k - 1] {
                before.push(r)
            } else {
                before
            },
            None => before,
        }
    }
}

/// The references of the symbols inside a region. `inside` says of each symbol
/// whether it is there.
pub fn region_references(sch: &Schematic, inside: &Vec<bool>) -> (r: Vec<String>)
    requires
        inside@.len() == sch.symbols@.len(),
    ensures
        strings_of(r@) == marked_references(
            sch@.symbols,
            inside@,
            sch.symbols@.len() as int,
        ),
{
    let ghost all = sch@.symbols;
    let mut out: Vec<String> = Vec::new();
    let mut k: usize = 0;
    assert(strings_of(out@) =~= marked_references(all, inside@, 0));
    while k < sch.symbols.len()
        invariant
            all == sch@.symbols,
            inside@.len() == sch.symbols@.len(),
            k <= sch.symbols@.len(),
            strings_of(out@) == marked_references(all, inside@, k as int),
        decreases sch.symbols@.len() - k,
    {
        let ghost before = out@;
        assert(all[k as int] == sch.symbols@[k as int]@);
        match sch.symbols[k].field("Reference") {
            Some(r) => {
                if inside[k] {
                    out.push(r.to_owned());
                    assert(strings_of(out@) =~= strings_of(before).push(r@));
                }
            },
            None => {},
        }
        k = k + 1;
    }
    out
}

/// Find the first of the symbols, given by their references, that has this
/// reference.
pub fn find_instance(references: &Vec<String>, reference: &str) -> (r: Result<
    usize,
    CallToolResult,
>)
    ensures
        match r {
            Ok(i) => i < references@.len() && index_from(
                strings_of(references@),
                reference@,
                0,
            ) == Some(i as int),
            Err(a) => a@ == error_answer(component_missing(reference@)) && index_from(
                strings_of(references@),
                reference@,
                0,
            ) is None,
        },
{
    match index_of(references, reference) {
        Some(i) => Ok(i),
        None => Err(CallToolResult::error(say_missing(reference))),
    }
}

/// Rotate a symbol by setting its absolute rotation angle.
pub fn rotate_schematic_component(sch: &mut Schematic, reference: &str, rotation: &str) -> (r:
    Result<(), String>)
    ensures
        match symbol_index(old(sch)@, reference@) {
            Some(k) => r is Ok && final(sch)@ == with_symbol_at(
                old(sch)@,
                k,
                SymbolText { rotation: Some(rotation@), ..old(sch)@.symbols[k] },
            ),
            None => r matches Err(m) && m@ == component_missing(reference@) && final(sch)@ == old(
                sch,
            )@,
        },
{
    let ghost before = sch@;
    match find_symbol(sch, reference) {
        Some(k) => {
            let mut s: Symbol = sch.symbols.remove(k);
            s.rotation = Some(rotation.to_owned());
            sch.symbols.insert(k, s);
            assert(sch@ =~= with_symbol_at(
                before,
                k as int,
                SymbolText { rotation: Some(rotation@), ..before.symbols[k as int] },
            ));
            Ok(())
        },
        None => Err(say_missing(reference)),
    }
}

// Telling
/// What is told of a symbol instance.
pub struct ComponentInfo {
    pub reference: String,
    pub value: String,
    pub footprint: String,
    pub lib_id: String,
    pub x: String,
    pub y: String,
    pub rotation: Option<String>,
    pub mirror_x: bool,
    pub mirror_y: bool,
    pub uuid: String,
}

/// What is told of a symbol instance, as plain text.
pub struct InfoText {
    pub reference: Seq<char>,
    pub value: Seq<char>,
    pub footprint: Seq<char>,
    pub lib_id: Seq<char>,
    pub x: Seq<char>,
    pub y: Seq<char>,
    pub rotation: Option<Seq<char>>,
    pub mirror_x: bool,
    pub mirror_y: bool,
    pub uuid: Seq<char>,
}

impl View for ComponentInfo {
    type V = InfoText;

    open spec fn view(&self) -> InfoText {
        InfoText {
            reference: self.reference@,
            value: self.value@,
            footprint: self.footprint@,
            lib_id: self.lib_id@,
            x: self.x@,
            y: self.y@,
            rotation: match self.rotation {
                Some(s) => Some(s@),
                None => None,
            },
            mirror_x: self.mirror_x,
            mirror_y: self.mirror_y,
            uuid: self.uuid@,
        }
    }
}

/// The text, or another one.
pub open spec fn text_or(r: Option<Seq<char>>, other: Seq<char>) -> Seq<char> {
    match r {
        Some(s) => s,
        None => other,
    }
}

/// The symbol is mirrored along the axis `c`.
pub open spec fn mirrored(s: SymbolText, c: char) -> bool {
    match s.mirror {
        Some(m) => m.contains(c),
        None => false,
    }
}

/// What is told of a symbol instance.
pub open spec fn info(s: SymbolText) -> InfoText {
    InfoText {
        reference: text_or(field(s, "Reference"@), "?"@),
        value: text_or(field(s, "Value"@), ""@),
        footprint: text_or(field(s, "Footprint"@), ""@),
        lib_id: s.lib_id,
        x: s.x,
        y: s.y,
        rotation: s.rotation,
        mirror_x: mirrored(s, 'x'),
        mirror_y: mirrored(s, 'y'),
        uuid: s.uuid,
    }
}

fn field_or(s: &Symbol, name: &str, other: &str) -> (r: String)
    ensures
        r@ == text_or(field(s@, name@), other@),
{
    match s.field(name) {
        Some(v) => v.to_owned(),
        None => other.to_owned(),
    }
}

fn is_mirrored(s: &Symbol, c: char) -> (r: bool)
    ensures
        r == mirrored(s@, c),
{
    match &s.mirror {
        Some(m) => {
            let cs: Vec<char> = chars_of(m.as_str());
            let mut k: usize = 0;
            while k < cs.len()
                invariant
                    cs@ == m@,
                    k <= cs@.len(),
                    mirrored(s@, c) == m@.contains(c),
                    forall|i: int| 0 <= i < k ==> cs@[i] != c,
                decreases cs@.len() - k,
            {
                if cs[k] == c {
                    assert(m@[k as int] == c);
                    return true;
                }
                k = k + 1;
            }
            false
        },
        None => false,
    }
}

fn tell(s: &Symbol) -> (r: ComponentInfo)
    ensures
        r@ == info(s@),
{
    ComponentInfo {
        reference: field_or(s, "Reference", "?"),
        value: field_or(s, "Value", ""),
        footprint: field_or(s, "Footprint", ""),
        lib_id: s.lib_id.as_str().to_owned(),
        x: s.x.as_str().to_owned(),
        y: s.y.as_str().to_owned(),
        rotation: match &s.rotation {
            Some(t) => Some(t.as_str().to_owned()),
            None => None,
        },
        mirror_x: is_mirrored(s, 'x'),
        mirror_y: is_mirrored(s, 'y'),
        uuid: s.uuid.as_str().to_owned(),
    }
}

/// What is told of the symbol instance with this reference.
pub fn get_schematic_component(sch: &Schematic, reference: &str) -> (r: Result<
    ComponentInfo,
    CallToolResult,
>)
    ensures
        match symbol_index(sch@, reference@) {
            Some(k) => r matches Ok(i) && i@ == info(sch@.symbols[k]),
            None => r matches Err(a) && a@ == error_answer(component_missing(reference@)),
        },
{
    match find_symbol(sch, reference) {
        Some(k) => Ok(tell(&sch.symbols[k])),
        None => Err(CallToolResult::error(say_missing(reference))),
    }
}

/// What is told of each symbol instance.
pub open spec fn infos_of(v: Seq<ComponentInfo>) -> Seq<InfoText> {
    v.map_values(|i: ComponentInfo| i@)
}

/// What is told of every symbol instance of the schematic.
pub fn list_schematic_components(sch: &Schematic) -> (r: Vec<ComponentInfo>)
    ensures
        infos_of(r@) == sch@.symbols.map_values(|s: SymbolText| info(s)),
{
    let mut out: Vec<ComponentInfo> = Vec::new();
    let mut k: usize = 0;
    while k < sch.symbols.len()
        invariant
            k <= sch.symbols@.len(),
            out@.len() == k,
            forall|i: int| 0 <= i < k ==> (#[trigger] out@[i])@ == info(sch.symbols@[i]@),
        decreases sch.symbols@.len() - k,
    {
        out.push(tell(&sch.symbols[k]));
        k = k + 1;
    }
    assert(infos_of(out@) =~= sch@.symbols.map_values(|s: SymbolText| info(s)));
    out
}

// Laws
proof fn lemma_symbol_from(symbols: Seq<SymbolText>, reference: Seq<char>, k: int)
    requires
        0 <= k,
    ensures
        match symbol_from(symbols, reference, k) {
            Some(i) => {
                &&& k <= i < symbols.len()
                &&& field(symbols[i], "Reference"@) == Some(reference)
                &&& forall|j: int|
                    k <= j < i ==> field(#[trigger] symbols[j], "Reference"@) != Some(reference)
            },
            None => forall|j: int|
                k <= j < symbols.len() ==> field(#[trigger] symbols[j], "Reference"@) != Some(
                    reference,
                ),
        },
    decreases symbols.len() - k,
{
    if k < symbols.len() && field(symbols[k], "Reference"@) != Some(reference) {
        lemma_symbol_from(symbols, reference, k + 1);
    }
}

/// A symbol that was added under a new reference is found under it, behind all
/// others, with the place, the value and the library it was given.
pub proof fn law_added_symbol_is_found(
    sch: SchematicText,
    dirs: Seq<Seq<FileText>>,
    lib_id: Seq<char>,
    spot: SpotText,
    unit: u32,
    reference: Seq<char>,
    value: Seq<char>,
    uuid: Seq<char>,
)
    requires
        symbol_index(sch, reference) is None,
    ensures
        ({
            let s = new_symbol(lib_id, spot, unit, reference, value, uuid);
            let after = symbol_added(sch, dirs, lib_id, s);
            &&& symbol_index(after, reference) == Some(sch.symbols.len() as int)
            &&& info(after.symbols[sch.symbols.len() as int]) == (InfoText {
                reference,
                value,
                footprint: ""@,
                lib_id,
                x: spot.x,
                y: spot.y,
                rotation: Some(spot.rotation),
                mirror_x: false,
                mirror_y: false,
                uuid,
            })
        }),
{
    let s = new_symbol(lib_id, spot, unit, reference, value, uuid);
    let after = symbol_added(sch, dirs, lib_id, s);
    let n = sch.symbols.len() as int;
    lemma_symbol_from(sch.symbols, reference, 0);
    lemma_symbol_from(after.symbols, reference, 0);
    reveal_strlit("Reference");
    reveal_strlit("Value");
    reveal_strlit("Footprint");
    reveal_strlit("Datasheet");
    assert("Reference"@.len() == 9 && "Value"@.len() == 5 && "Footprint"@.len() == 9
        && "Datasheet"@.len() == 9);
    assert("Reference"@[0] == 'R' && "Footprint"@[0] == 'F' && "Datasheet"@[0] == 'D');
    let p = s.properties;
    assert(p[0].name == "Reference"@ && p[1].name == "Value"@ && p[2].name == "Footprint"@);
    assert(field(s, "Reference"@) == Some(reference));
    assert(field_from(p, "Value"@, 0) == field_from(p, "Value"@, 1));
    assert(field(s, "Value"@) == Some(value));
    assert(field_from(p, "Footprint"@, 0) == field_from(p, "Footprint"@, 1));
    assert(field_from(p, "Footprint"@, 1) == field_from(p, "Footprint"@, 2));
    assert(field(s, "Footprint"@) == Some(""@));
    assert(after.symbols[n] == s);
    assert forall|j: int| 0 <= j < n implies field(#[trigger] after.symbols[j], "Reference"@)
        != Some(reference) by {
        assert(after.symbols[j] == sch.symbols[j]);
    }
}

/// Deleting the symbol that was just added gives the old symbols back.
pub proof fn law_delete_undoes_add(
    sch: SchematicText,
    dirs: Seq<Seq<FileText>>,
    lib_id: Seq<char>,
    spot: SpotText,
    unit: u32,
    reference: Seq<char>,
    value: Seq<char>,
    uuid: Seq<char>,
)
    requires
        symbol_index(sch, reference) is None,
    ensures
        ({
            let s = new_symbol(lib_id, spot, unit, reference, value, uuid);
            let after = symbol_added(sch, dirs, lib_id, s);
            after.symbols.remove(symbol_index(after, reference).unwrap()) == sch.symbols
        }),
{
    law_added_symbol_is_found(sch, dirs, lib_id, spot, unit, reference, value, uuid);
    let s = new_symbol(lib_id, spot, unit, reference, value, uuid);
    let after = symbol_added(sch, dirs, lib_id, s);
    assert(after.symbols.remove(sch.symbols.len() as int) =~= sch.symbols);
}

/// Moving a symbol keeps every reference where it is, and the symbol is told at
/// its new place.
pub proof fn law_move_keeps_references(
    sch: SchematicText,
    reference: Seq<char>,
    x: Seq<char>,
    y: Seq<char>,
)
    requires
        symbol_index(sch, reference) is Some,
    ensures
        ({
            let k = symbol_index(sch, reference).unwrap();
            let after = with_symbol_at(
                sch,
                k,
                SymbolText { x, y, ..sch.symbols[k] },
            );
            &&& forall|r: Seq<char>| #[trigger] symbol_index(after, r) == symbol_index(sch, r)
            &&& info(after.symbols[k]).x == x
            &&& info(after.symbols[k]).y == y
        }),
{
    let k = symbol_index(sch, reference).unwrap();
    lemma_symbol_from(sch.symbols, reference, 0);
    let after = with_symbol_at(sch, k, SymbolText { x, y, ..sch.symbols[k] });
    assert forall|r: Seq<char>| #[trigger] symbol_index(after, r) == symbol_index(sch, r) by {
        lemma_same_references(sch.symbols, after.symbols, r, 0);
    }
}

proof fn lemma_same_references(a: Seq<SymbolText>, b: Seq<SymbolText>, r: Seq<char>, k: int)
    requires
        0 <= k,
        a.len() == b.len(),
        forall|i: int| 0 <= i < a.len() ==> (#[trigger] a[i]).properties == b[i].properties,
    ensures
        symbol_from(a, r, k) == symbol_from(b, r, k),
    decreases a.len() - k,
{
    if k < a.len() {
        assert(a[k].properties == b[k].properties);
        if field(a[k], "Reference"@) != Some(r) {
            lemma_same_references(a, b, r, k + 1);
        }
    }
}

// A new file
/// A schematic with nothing in it.
pub open spec fn blank_text() -> Seq<char> {
    "(kicad_sch\n\t(version 20260306)\n\t(generator \"konnect\")\n\t(generator_version \"10.0\")\n\t(paper \"A4\")\n\t(lib_symbols\n\t)\n)\n"@
}

/// The text of a new blank schematic file.
pub fn blank_schematic() -> (r: String)
    ensures
        r@ == blank_text(),
{
    "(kicad_sch\n\t(version 20260306)\n\t(generator \"konnect\")\n\t(generator_version \"10.0\")\n\t(paper \"A4\")\n\t(lib_symbols\n\t)\n)\n".to_owned()
}

} // verus!
