use konnect::answer::{CallToolResult, ToolContent};
use konnect::autoplace::{
    autoplace_fields, box_owner, Box4, Candidate, Choices, Obstacles, Part, Unit,
};
use konnect::fields::{
    add_component_annotation, edit_field_position, edit_schematic_component, field_at_range,
    field_numbers, field_value_range, find_symbol_block, group_components, insert_property_edit,
    replace_component, FieldRequest,
};
use konnect::flatten::{chain_ends_within, resolve_lib_symbol_node_flattened};
use konnect::instances::{
    add_schematic_component, blank_schematic, delete_schematic_component, find_symbol,
    get_schematic_component, list_schematic_components, move_schematic_component,
    rotate_schematic_component, Spot,
};
use konnect::parser::parse_sexp;
use konnect::routing::Point;
use konnect::schematic::{ensure_lib_symbol, Schematic};
use konnect::symlib::{
    extract_symbol_block, replaced_everywhere, replaced_once, resolve_lib_symbol,
    resolve_lib_symbol_node, SymbolDir, SymbolFile,
};
use konnect::tree::SexpNode;

const SCH: &str = r#"(kicad_sch
  (lib_symbols
    (symbol "Device:R"
      (property "Reference" "R" (at 0 0 0))
    )
  )
  (symbol
    (lib_id "Device:R")
    (at 50 60 0)
    (property "Reference" "R1" (at 51 55 0))
    (property "Value" "10k" (at 52 65 90))
    (instances
      (project "")
    )
  )
  (symbol
    (lib_id "Device:C")
    (at 80 60 0)
    (property "Reference" "C1" (at 81 55))
    (property "Value" "1u" (at 82 65))
  )
)
"#;

fn body_text(result: &CallToolResult) -> String {
    match result.content.first() {
        Some(ToolContent::Text { text }) => text.clone(),
        other => panic!("expected text content, got {other:?}"),
    }
}

fn file(library: &str, symbol: Option<&str>, content: &str) -> SymbolFile {
    SymbolFile {
        library: library.to_string(),
        symbol: symbol.map(String::from),
        content: content.to_string(),
    }
}

fn libraries() -> Vec<SymbolDir> {
    let base = "(kicad_symbol_lib (symbol \"Base\" (pin_names (offset 0)) (property \"Reference\" \"U\") (property \"Value\" \"Base\") (symbol \"Base_0_1\" (pin 1)) (symbol \"Base_1_1\" (pin 2))))";
    let child = "(kicad_symbol_lib (symbol \"Child\" (extends \"Base\") (property \"Reference\" \"U\") (property \"Value\" \"Child\")))";
    let old = "(kicad_symbol_lib (symbol \"R\" (property \"Value\" \"R\")) (symbol \"Loop\" (extends \"Loop\")) (symbol \"Grand\" (extends \"Mid\") (property \"Value\" \"Grand\")) (symbol \"Mid\" (extends \"Root\") (property \"Value\" \"Mid\")) (symbol \"Root\" (pin 1) (symbol \"Root_0_1\" (pin 2))))";
    vec![
        SymbolDir { files: vec![file("IC", Some("Base"), base), file("IC", Some("Child"), child)] },
        SymbolDir { files: vec![file("Device", None, old)] },
    ]
}

fn empty() -> Schematic {
    Schematic { symbols: Vec::new(), raw_other: Vec::new() }
}

fn spot(x: &str, y: &str) -> Spot {
    Spot {
        x: x.to_string(),
        y: y.to_string(),
        rotation: "90".to_string(),
        ref_y: "1".to_string(),
        value_y: "9".to_string(),
    }
}

/// A node as text, to compare trees.
fn shown(node: &SexpNode) -> String {
    match node {
        SexpNode::Atom(s) => s.clone(),
        SexpNode::Str(s) => format!("\"{s}\""),
        SexpNode::List(v) => {
            format!("({})", v.iter().map(shown).collect::<Vec<_>>().join(" "))
        }
    }
}

#[test]
fn symbol_blocks_are_cut_out_by_parentheses() {
    let lib = "(lib (symbol \"A\" (x)) (symbol \"AB\" (y)))";
    assert_eq!(extract_symbol_block(lib, "A").unwrap(), "(symbol \"A\" (x))");
    assert_eq!(extract_symbol_block(lib, "AB").unwrap(), "(symbol \"AB\" (y))");
    assert!(extract_symbol_block(lib, "B").is_none());
    assert!(extract_symbol_block("(symbol \"A\" (x)", "A").is_none());
}

#[test]
fn text_is_replaced_once_or_everywhere() {
    assert_eq!(replaced_once("aXbX", "X", "--"), "a--bX");
    assert_eq!(replaced_everywhere("aXbX", "X", "--"), "a--b--");
    assert_eq!(replaced_everywhere("aaa", "aa", "a"), "aa");
    assert_eq!(replaced_once("abc", "X", "-"), "abc");
}

#[test]
fn symbols_are_resolved_with_their_library() {
    let dirs = libraries();
    assert_eq!(
        resolve_lib_symbol(&dirs, "Device:R").unwrap(),
        "(symbol \"Device:R\" (property \"Value\" \"R\"))"
    );
    assert_eq!(
        resolve_lib_symbol(&dirs, "IC:Child").unwrap(),
        "(symbol \"IC:Child\" (extends \"IC:Base\") (property \"Reference\" \"U\") (property \"Value\" \"Child\"))"
    );
    assert!(resolve_lib_symbol(&dirs, "IC:None").is_none());
    assert!(resolve_lib_symbol(&dirs, "R").is_none());
    let node = resolve_lib_symbol_node(&dirs, "Device:R").unwrap();
    assert_eq!(node.get_text(1), Some("Device:R"));
}

#[test]
fn the_file_of_a_symbol_comes_before_that_of_its_library() {
    let dirs = vec![SymbolDir {
        files: vec![
            file("L", None, "(symbol \"S\" old)"),
            file("L", Some("S"), "(symbol \"S\" new)"),
            file("L", Some("T"), "(nothing)"),
            file("M", None, "(symbol \"T\" m)"),
        ],
    }];
    assert_eq!(resolve_lib_symbol(&dirs, "L:S").unwrap(), "(symbol \"L:S\" new)");
    assert!(resolve_lib_symbol(&dirs, "L:T").is_none());
    assert_eq!(resolve_lib_symbol(&dirs, "M:T").unwrap(), "(symbol \"M:T\" m)");
}

#[test]
fn derived_symbols_are_flattened() {
    let dirs = libraries();
    assert!(chain_ends_within(&dirs, "IC:Child", 1));
    let flat = resolve_lib_symbol_node_flattened(&dirs, "IC:Child").unwrap();
    assert_eq!(
        shown(&flat),
        "(symbol \"IC:Child\" (pin_names (offset 0)) (property \"Reference\" \"U\") (property \"Value\" \"Child\") (symbol \"Child_0_1\" (pin 1)) (symbol \"Child_1_1\" (pin 2)))"
    );
    assert!(flat.find("extends").is_none());
}

#[test]
fn chains_of_parents_are_followed_to_their_end() {
    let dirs = libraries();
    assert!(!chain_ends_within(&dirs, "Device:Grand", 1));
    assert!(chain_ends_within(&dirs, "Device:Grand", 2));
    let flat = resolve_lib_symbol_node_flattened(&dirs, "Device:Grand").unwrap();
    assert_eq!(
        shown(&flat),
        "(symbol \"Device:Grand\" (pin 1) (property \"Value\" \"Grand\") (symbol \"Grand_0_1\" (pin 2)))"
    );
    assert!(!chain_ends_within(&dirs, "Device:Loop", 1000));
    assert!(chain_ends_within(&dirs, "Device:R", 0));
}

#[test]
fn a_symbol_is_embedded_once() {
    let dirs = libraries();
    let mut sch = empty();
    ensure_lib_symbol(&mut sch, &dirs, "IC:Child");
    assert_eq!(sch.raw_other.len(), 1);
    assert_eq!(sch.raw_other[0].tag(), Some("lib_symbols"));
    assert!(shown(&sch.raw_other[0]).starts_with("(lib_symbols (symbol \"IC:Child\""));
    let once = shown(&sch.raw_other[0]);
    ensure_lib_symbol(&mut sch, &dirs, "IC:Child");
    assert_eq!(shown(&sch.raw_other[0]), once);
    ensure_lib_symbol(&mut sch, &dirs, "Device:R");
    assert_eq!(sch.raw_other[0].find_all("symbol").len(), 2);
    ensure_lib_symbol(&mut sch, &dirs, "Device:Missing");
    assert_eq!(sch.raw_other[0].find_all("symbol").len(), 2);
}

#[test]
fn an_existing_section_is_used() {
    let dirs = libraries();
    let mut sch = empty();
    sch.raw_other.push(parse_sexp("(paper \"A4\")").unwrap());
    sch.raw_other.push(parse_sexp("(lib_symbols)").unwrap());
    ensure_lib_symbol(&mut sch, &dirs, "Device:R");
    assert_eq!(sch.raw_other.len(), 2);
    assert_eq!(
        shown(&sch.raw_other[1]),
        "(lib_symbols (symbol \"Device:R\" (property \"Value\" \"R\")))"
    );
}

#[test]
fn symbols_are_added_found_changed_and_deleted() {
    let dirs = libraries();
    let mut sch = empty();
    add_schematic_component(
        &mut sch,
        &dirs,
        "Device:R",
        &spot("10", "5"),
        2,
        Some("R1"),
        None,
        "uuid-1",
    );
    let info = get_schematic_component(&sch, "R1").unwrap();
    assert_eq!(info.value, "R");
    assert_eq!(info.footprint, "");
    assert_eq!(info.lib_id, "Device:R");
    assert_eq!((info.x.as_str(), info.y.as_str()), ("10", "5"));
    assert_eq!(info.rotation.as_deref(), Some("90"));
    assert_eq!(info.uuid, "uuid-1");
    assert!(!info.mirror_x && !info.mirror_y);
    let sym = &sch.symbols[0];
    assert_eq!(sym.unit, 2);
    assert_eq!(sym.properties.len(), 4);
    assert_eq!(shown(&sym.properties[0].sub_nodes[0]), "(at 10 1 0)");
    assert_eq!(
        shown(&sym.properties[0].sub_nodes[1]),
        "(effects (font (size 1.27 1.27)))"
    );
    assert_eq!(shown(&sym.properties[1].sub_nodes[0]), "(at 10 9 0)");
    assert_eq!(
        shown(&sym.properties[2].sub_nodes[1]),
        "(effects (font (size 1.27 1.27)) (hide yes))"
    );
    assert_eq!(
        shown(&sym.raw_sub_nodes[0]),
        "(instances (project \"\" (path \"/\" (reference \"R1\") (unit 2))))"
    );

    move_schematic_component(&mut sch, "R1", "11", "12").unwrap();
    rotate_schematic_component(&mut sch, "R1", "180").unwrap();
    sch.symbols[0].mirror = Some("x".to_string());
    let all = list_schematic_components(&sch);
    assert_eq!(all.len(), 1);
    assert_eq!((all[0].x.as_str(), all[0].y.as_str()), ("11", "12"));
    assert_eq!(all[0].rotation.as_deref(), Some("180"));
    assert!(all[0].mirror_x && !all[0].mirror_y);

    assert!(delete_schematic_component(&mut sch, "R1").is_ok());
    assert!(find_symbol(&sch, "R1").is_none());
    assert!(sch.symbols.is_empty());
    assert_eq!(
        body_text(&delete_schematic_component(&mut sch, "R1").unwrap_err()),
        "Component 'R1' not found in schematic"
    );
    assert_eq!(
        body_text(&get_schematic_component(&sch, "R1").err().unwrap()),
        "Component 'R1' not found"
    );
    assert_eq!(
        move_schematic_component(&mut sch, "R1", "0", "0").unwrap_err(),
        "Component 'R1' not found"
    );
    assert!(rotate_schematic_component(&mut sch, "R1", "0").is_err());
}

#[test]
fn a_symbol_without_a_reference_gets_a_question_mark() {
    let mut sch = empty();
    add_schematic_component(&mut sch, &Vec::new(), "X", &spot("0", "0"), 1, None, Some("v"), "u");
    let info = get_schematic_component(&sch, "?").unwrap();
    assert_eq!(info.value, "v");
    assert!(sch.raw_other.is_empty());
}

#[test]
fn a_blank_schematic_parses() {
    let tree = parse_sexp(&blank_schematic()).unwrap();
    assert_eq!(tree.tag(), Some("kicad_sch"));
    assert!(tree.find("lib_symbols").is_some());
}

#[test]
fn fields_are_found_in_their_symbol() {
    let (s, e) = find_symbol_block(SCH, "R1").unwrap();
    assert!(SCH[s..e].starts_with("(symbol\n    (lib_id \"Device:R\")"));
    let (a, b) = field_value_range(SCH, "R1", "Value").unwrap();
    assert_eq!(&SCH[a..b], "10k");
    let (a, b) = field_at_range(SCH, "R1", "Value").unwrap();
    assert_eq!(&SCH[a..b], "52 65 90");
    assert_eq!(field_numbers(SCH, "C1", "Value").unwrap(), vec!["82", "65"]);
    assert!(field_at_range(SCH, "R1", "Datasheet").is_none());
    assert!(field_at_range(SCH, "R9", "Value").is_none());
    assert!(field_value_range(SCH, "R1", "Datasheet").is_none());
    assert!(insert_property_edit(SCH, "R9", "k", "v").is_none());
}

#[test]
fn a_field_moves_alone() {
    let out = edit_field_position(SCH.to_string(), "R1", "Value", "1", "2", "0").unwrap();
    assert_eq!(out, SCH.replace("(at 52 65 90)", "(at 1 2 0)"));
    assert_eq!(
        edit_field_position(SCH.to_string(), "R1", "Nope", "1", "2", "0").unwrap_err(),
        "Field 'Nope' not found on 'R1'"
    );
}

#[test]
fn fields_are_set_or_added() {
    let request = |name: &str, value: Option<&str>, standard: bool| FieldRequest {
        name: name.to_string(),
        value: value.map(String::from),
        standard,
    };
    let fs = vec![
        request("Value", Some("22k"), true),
        request("Footprint", Some("F"), true),
        request("MPN", Some("ABC"), false),
        request("Bad", None, false),
    ];
    let r = edit_schematic_component(SCH.to_string(), "R1", &fs);
    assert_eq!(r.changes, vec!["Value → 22k", "MPN + ABC"]);
    assert_eq!(
        r.errors,
        vec!["Field 'Footprint' not found on 'R1'", "Field 'Bad' value must be a string"]
    );
    let out = r.content.unwrap();
    let (a, b) = field_value_range(&out, "R1", "Value").unwrap();
    assert_eq!(&out[a..b], "22k");
    let (a, b) = field_value_range(&out, "R1", "MPN").unwrap();
    assert_eq!(&out[a..b], "ABC");
    assert!(parse_sexp(&out).is_ok());

    let r = edit_schematic_component(SCH.to_string(), "R9", &vec![request("MPN", Some("A"), false)]);
    assert!(r.content.is_none());
    assert_eq!(r.errors, vec!["Symbol 'R9' not found for new field 'MPN'"]);
}

#[test]
fn annotations_go_before_the_instances() {
    let out = add_component_annotation(SCH.to_string(), "R1", "Note", "hot").unwrap();
    assert!(out.contains(
        "    (property \"Note\" \"hot\"\n      (at 0 0 0)\n      (effects (font (size 1.27 1.27)) (hide yes))\n    )\n    (instances"
    ));
    assert!(parse_sexp(&out).is_ok());
    // Without instances, before the last parenthesis of the symbol.
    let out = add_component_annotation(SCH.to_string(), "C1", "Note", "hot").unwrap();
    assert!(out.contains("    )\n    )\n)\n"));
    let e = add_component_annotation(SCH.to_string(), "R9", "k", "v").unwrap_err();
    assert_eq!(body_text(&e), "Component 'R9' not found");
    let loose = "(property \"Reference\" \"R1\")".to_string();
    let e = add_component_annotation(loose, "R1", "k", "v").unwrap_err();
    assert_eq!(body_text(&e), "Could not find symbol block");
    let open = "(s\n  (symbol (property \"Reference\" \"R1\")".to_string();
    let e = add_component_annotation(open, "R1", "k", "v").unwrap_err();
    assert_eq!(body_text(&e), "Could not parse symbol block");
}

#[test]
fn groups_pass_over_what_is_missing() {
    let refs = vec!["R1".to_string(), "R9".to_string(), "C1".to_string()];
    let (out, members) = group_components(SCH.to_string(), &refs, "supply").unwrap();
    assert_eq!(members, vec!["R1", "C1"]);
    assert_eq!(out.matches("(property \"Group\" \"supply\"").count(), 2);
    assert!(parse_sexp(&out).is_ok());
    let e = group_components(SCH.to_string(), &Vec::new(), "g").unwrap_err();
    assert_eq!(body_text(&e), "No references provided");
}

#[test]
fn a_component_is_replaced_in_place() {
    let (out, old) = replace_component(SCH.to_string(), "C1", "Device:CP").unwrap();
    assert_eq!(old, "Device:C");
    assert_eq!(out, SCH.replace("\"Device:C\"", "\"Device:CP\""));
    let e = replace_component(SCH.to_string(), "X1", "Device:CP").unwrap_err();
    assert_eq!(body_text(&e), "Component 'X1' not found");
    let bare = "(s\n  (symbol (property \"Reference\" \"R1\")))".to_string();
    let e = replace_component(bare, "R1", "A:B").unwrap_err();
    assert_eq!(body_text(&e), "Could not find lib_id in symbol block");
    let cut = "(s\n  (symbol (property \"Reference\" \"R1\") (lib_id \"x".to_string();
    let e = replace_component(cut, "R1", "A:B").unwrap_err();
    assert_eq!(body_text(&e), "Malformed lib_id");
}

fn bx(x1: i64, y1: i64, x2: i64, y2: i64) -> Box4 {
    Box4 { x1, y1, x2, y2 }
}

fn pt(x: &str, y: &str) -> Point {
    Point { x: x.to_string(), y: y.to_string() }
}

fn candidate(x: i64) -> Candidate {
    Candidate {
        ref_box: bx(x, 0, x + 10, 10),
        value_box: bx(x, 20, x + 10, 30),
        ref_at: Point { x: format!("{x}"), y: "5".to_string() },
        value_at: Point { x: format!("{x}"), y: "25".to_string() },
    }
}

fn part(reference: &str, rotation: i64, xs: &[i64]) -> Part {
    Part {
        reference: reference.to_string(),
        rotation,
        choices: Some(Choices {
            candidates: xs.iter().map(|&x| candidate(x)).collect(),
            ref_fallback: pt("-1", "-2"),
            value_fallback: pt("-3", "-4"),
        }),
    }
}

fn nothing_there() -> Obstacles {
    Obstacles { wires: Vec::new(), symbols: Vec::new(), labels: Vec::new() }
}

#[test]
fn fields_take_the_first_free_place() {
    let o = Obstacles {
        wires: vec![bx(0, 5, 10, 6)],
        symbols: vec![("C1".to_string(), bx(20, 0, 30, 1)), ("R1".to_string(), bx(40, 0, 50, 9))],
        labels: vec![bx(60, 25, 61, 26)],
    };
    let parts = vec![part("R1", 0, &[0, 20, 60, 40, 80])];
    let r = autoplace_fields(SCH.to_string(), &parts, &o, None);
    // A wire, another symbol and a label are in the way; its own symbol is not.
    assert_eq!(r.placed, vec![(0, Some(3))]);
    assert!(r.errors.is_empty());
    let out = r.content.unwrap();
    assert!(out.contains("(property \"Reference\" \"R1\" (at 40 5 0))"));
    assert!(out.contains("(property \"Value\" \"10k\" (at 40 25 0))"));
}

#[test]
fn neighbours_do_not_share_a_place() {
    let parts = vec![part("R1", 90, &[0, 100]), part("C1", -90, &[5, 10, 100])];
    let r = autoplace_fields(SCH.to_string(), &parts, &nothing_there(), None);
    // Boxes that only touch do not overlap.
    assert_eq!(r.placed, vec![(0, Some(0)), (1, Some(1))]);
    let out = r.content.unwrap();
    assert!(out.contains("(property \"Reference\" \"R1\" (at 0 5 90))"));
    assert!(out.contains("(property \"Reference\" \"C1\" (at 10 5 90))"));
}

#[test]
fn without_a_free_place_the_fallback_is_taken() {
    let o = Obstacles { wires: vec![bx(0, 0, 100, 100)], ..nothing_there() };
    let r = autoplace_fields(SCH.to_string(), &vec![part("R1", 180, &[0, 50])], &o, None);
    assert_eq!(r.placed, vec![(0, None)]);
    let out = r.content.unwrap();
    assert!(out.contains("(property \"Reference\" \"R1\" (at -1 -2 0))"));
    assert!(out.contains("(property \"Value\" \"10k\" (at -3 -4 0))"));
}

#[test]
fn only_wanted_references_are_placed_and_only_once() {
    let parts = vec![
        part("#PWR1", 0, &[0]),
        part("R1", 0, &[0]),
        part("R1", 0, &[100]),
        part("C1", 0, &[200]),
    ];
    let r = autoplace_fields(SCH.to_string(), &parts, &nothing_there(), None);
    assert_eq!(r.placed, vec![(1, Some(0)), (3, Some(0))]);
    let only = vec!["C1".to_string(), "#PWR1".to_string()];
    let r = autoplace_fields(SCH.to_string(), &parts, &nothing_there(), Some(&only));
    assert_eq!(r.placed, vec![(0, Some(0)), (3, Some(0))]);
    assert_eq!(
        r.errors,
        vec!["#PWR1: field 'Reference' not found", "#PWR1: field 'Value' not found"]
    );
}

#[test]
fn parts_without_pins_are_reported() {
    let bare = Part { reference: "R1".to_string(), rotation: 0, choices: None };
    let r = autoplace_fields(SCH.to_string(), &vec![bare], &nothing_there(), None);
    assert!(r.content.is_none());
    assert!(r.placed.is_empty());
    assert_eq!(r.errors, vec!["R1: no pins resolved"]);
}

#[test]
fn the_last_unit_with_pins_gives_the_box() {
    let unit = |reference: &str, unit: u32, has_pins: bool| Unit {
        reference: reference.to_string(),
        unit,
        has_pins,
    };
    let units =
        vec![unit("U1", 1, true), unit("U1", 2, true), unit("U1", 1, true), unit("U1", 1, false)];
    assert_eq!(box_owner(&units, 0), Some(2));
    assert_eq!(box_owner(&units, 1), Some(1));
    assert_eq!(box_owner(&vec![unit("U2", 1, false)], 0), None);
}

#[test]
fn a_symbol_counts_as_embedded_by_its_own_name() {
    let dirs = libraries();
    let mut sch = empty();
    let other = "(lib_symbols (symbol \"X:Y\" (property \"Value\" \"Device:R\")))";
    sch.raw_other.push(parse_sexp(other).unwrap());
    ensure_lib_symbol(&mut sch, &dirs, "Device:R");
    assert_eq!(sch.raw_other[0].find_all("symbol").len(), 2);
    ensure_lib_symbol(&mut sch, &dirs, "Device:R");
    assert_eq!(sch.raw_other[0].find_all("symbol").len(), 2);
}

#[test]
fn an_id_with_parentheses_is_embedded_once() {
    let lib = "(lib (symbol \"R(1)\" (pin 1)) (symbol \"a)b\" (pin 1)))";
    let dirs = vec![SymbolDir { files: vec![file("L", None, lib)] }];
    let mut sch = empty();
    ensure_lib_symbol(&mut sch, &dirs, "L:R(1)");
    let once = shown(&sch.raw_other[0]);
    assert_eq!(once, "(lib_symbols (symbol \"L:R(1)\" (pin 1)))");
    ensure_lib_symbol(&mut sch, &dirs, "L:R(1)");
    assert_eq!(shown(&sch.raw_other[0]), once);
    // A parenthesis that closes inside the name leaves nothing to embed.
    ensure_lib_symbol(&mut sch, &dirs, "L:a)b");
    assert_eq!(shown(&sch.raw_other[0]), once);
}

#[test]
fn the_place_of_a_field_is_its_own() {
    let sch = "(kicad_sch\n  (symbol\n    (property \"Reference\" \"R1\")\n    (property \"Value\" \"(at 9)\" (effects (at 7)) (at 1 2 90))\n  )\n)\n";
    assert!(field_at_range(sch, "R1", "Reference").is_none());
    assert_eq!(field_numbers(sch, "R1", "Value").unwrap(), vec!["1", "2", "90"]);
    let moved = edit_field_position(sch.to_string(), "R1", "Value", "3", "4", "0").unwrap();
    assert_eq!(moved, sch.replace("(at 1 2 90)", "(at 3 4 0)"));
    assert!(edit_field_position(sch.to_string(), "R1", "Reference", "3", "4", "0").is_err());
}
