use konnect::board::At;
use konnect::components::{
    add_copy, align_components, copy_footprint, delete_component, edit_component, footprint_places,
    move_component, on_back_side, rotate_component,
};
use konnect::edits::{apply_edits, SexpEdit};
use konnect::fields::{edit_field_position, edit_schematic_component, field_numbers};
use konnect::fields::{field_value_range, FieldRequest};
use konnect::footprint::find_footprint_block;
use konnect::fplib::{standard_footprint_dirs, Platform};
use konnect::instances::{find_instance, find_symbol, region_references};
use konnect::lines::{quote, write_block, write_lines, write_one, write_two};
use konnect::nets::add_net;
use konnect::parser::parse_sexp;
use konnect::reading::{find_component, find_live_pad, nets_list, traces};
use konnect::routing::{
    add_copper_pour, add_via, assign_net_to_class, create_netclass, delete_trace, modify_trace,
    route_bend, route_diff_pair, route_pad_to_pad, route_trace, Assignment, Point,
};
use konnect::scan::find_balanced_block;
use konnect::schematic::{Property, Schematic, Symbol};
use konnect::symlib::{find_symbol_dirs, symbol_dir_candidates};
use konnect::tree::SexpNode;
use konnect::words::index_of;

const BOARD: &str = r#"(kicad_pcb
  (net 0 "")
  (net 1 "GND")
  (net 2 "VCC")
  (footprint "Lib:R"
    (at 10 20)
    (property "Reference" "R1" (at 0 -1 0))
    (property "Value" "10k (1%)" (at 0 1 0))
    (pad "1" smd (at -0.5 0))
  )
  (segment
    (start 1 2)
    (end 3 4)
    (width 0.25)
    (layer "F.Cu")
    (net 1)
    (uuid "old")
  )
)
"#;

const SHEET: &str = r#"(kicad_sch
  (symbol
    (lib_id "Device:R")
    (property "Reference" "R1" (at 51 55 0))
    (property "Value" "10k" (at 52 65 90))
  )
)
"#;

fn point(x: &str, y: &str) -> Point {
    Point { x: x.to_string(), y: y.to_string() }
}

fn place(x: &str, y: &str, rot: Option<&str>) -> At {
    At { x: x.to_string(), y: y.to_string(), rot: rot.map(String::from) }
}

fn tree(text: &str) -> SexpNode {
    match parse_sexp(text) {
        Ok(t) => t,
        Err(e) => panic!("{}", e.message()),
    }
}

fn shown(node: &SexpNode) -> String {
    match node {
        SexpNode::Atom(s) => s.clone(),
        SexpNode::Str(s) => format!("{s:?}"),
        SexpNode::List(v) => {
            let inner: Vec<String> = v.iter().map(shown).collect();
            format!("({})", inner.join(" "))
        }
    }
}

fn nodes(text: &str) -> Vec<String> {
    match tree(text) {
        SexpNode::List(v) => v.iter().map(shown).collect(),
        other => panic!("not a list: {}", shown(&other)),
    }
}

#[test]
fn an_added_net_is_listed_last() {
    let before = nodes(BOARD);
    let (text, id) = add_net(BOARD.to_string(), "SIG");
    assert_eq!(id, 4, "every `(net ` counts");
    let nets = nets_list(&tree(&text));
    assert_eq!(nets.last(), Some(&("4".to_string(), "SIG".to_string())));
    let after = nodes(&text);
    assert_eq!(after[..before.len()], before[..]);
    assert_eq!(after[before.len()..], ["(net 4 \"SIG\")".to_string()]);
}

#[test]
fn a_routed_trace_is_read_last() {
    let before = nodes(BOARD);
    let text = route_trace(
        BOARD.to_string(),
        "VCC",
        "B.Cu",
        &point("5", "6.5"),
        &point("-7", "8"),
        "0.3",
        "u-1",
    )
    .unwrap();
    let all = traces(&tree(&text));
    assert_eq!(all.len(), 2);
    let t = &all[1];
    assert_eq!((t.x1.as_str(), t.y1.as_str()), ("5", "6.5"));
    assert_eq!((t.x2.as_str(), t.y2.as_str()), ("-7", "8"));
    assert_eq!(t.width.as_deref(), Some("0.3"));
    assert_eq!(t.layer, "B.Cu");
    assert_eq!(t.net.as_deref(), Some("2"));
    assert_eq!(t.uuid, "u-1");
    assert_eq!(nodes(&text)[..before.len()], before[..]);
}

#[test]
fn an_added_via_is_the_last_node() {
    let before = nodes(BOARD);
    let text =
        add_via(BOARD.to_string(), "GND", &point("7", "8"), "0.4", "0.8", "v-1").unwrap();
    let after = nodes(&text);
    assert_eq!(after[..before.len()], before[..]);
    assert_eq!(
        after[before.len()..],
        [r#"(via (at 7 8) (size 0.8) (drill 0.4) (layers "F.Cu" "B.Cu") (net 1) (uuid "v-1"))"#
            .to_string()]
    );
}

#[test]
fn an_added_zone_has_its_corners_in_order() {
    let pts = vec![point("0", "0"), point("10", "0"), point("10", "5.5")];
    let text =
        add_copper_pour(BOARD.to_string(), "GND", "F.Cu", "0.2", "0.25", &pts, "z-1").unwrap();
    let start = text.find("\n  (zone").unwrap();
    assert_eq!(
        text[start..],
        concat_lines(&[
            "\n  (zone (net 1) (net_name \"GND\") (layer \"F.Cu\") (uuid \"z-1\")",
            "    (hatch edge 0.508)",
            "    (connect_pads (clearance 0.2))",
            "    (min_thickness 0.25)",
            "    (fill yes)",
            "    (polygon (pts",
            "      (xy 0 0)",
            "      (xy 10 0)",
            "      (xy 10 5.5)",
            "    ))",
            "  ))\n",
        ])
    );
    assert!(nodes(&text).last().unwrap().contains("(pts (xy 0 0) (xy 10 0) (xy 10 5.5))"));
}

fn concat_lines(lines: &[&str]) -> String {
    lines.join("\n")
}

#[test]
fn both_tracks_of_a_pair_are_read() {
    let before = nodes(BOARD).len();
    let (a, b, c, d) = (point("0", "1"), point("9", "1"), point("0", "-1"), point("9", "-1"));
    let text = route_diff_pair(
        BOARD.to_string(),
        "GND",
        "VCC",
        "F.Cu",
        (&a, &b),
        (&c, &d),
        "0.1",
        "p",
        "n",
    )
    .unwrap();
    assert_eq!(nodes(&text).len(), before + 2);
    let all = traces(&tree(&text));
    assert_eq!(all[1].net.as_deref(), Some("1"));
    assert_eq!(all[2].net.as_deref(), Some("2"));
    assert_eq!((all[1].y1.as_str(), all[2].y1.as_str()), ("1", "-1"));
}

#[test]
fn a_route_between_pads_meets_at_its_bend() {
    let (a, b) = (point("1", "2"), point("5", "9"));
    assert!(route_bend(&a, &b, true).is_none());
    let bend = route_bend(&a, &b, false).unwrap();
    assert_eq!((bend.x.as_str(), bend.y.as_str()), ("5", "2"));
    let text = route_pad_to_pad(
        BOARD.to_string(),
        "GND",
        "F.Cu",
        &a,
        &b,
        false,
        "0.2",
        "one",
        "two",
    )
    .unwrap();
    let all = traces(&tree(&text));
    assert_eq!((all[1].x2.as_str(), all[1].y2.as_str()), ("5", "2"));
    assert_eq!((all[2].x1.as_str(), all[2].y1.as_str()), ("5", "2"));
    assert_eq!((all[2].x2.as_str(), all[2].y2.as_str()), ("5", "9"));
}

#[test]
fn deleting_a_routed_track_gives_the_board_back() {
    let text = route_trace(
        BOARD.to_string(),
        "GND",
        "F.Cu",
        &point("5", "6"),
        &point("7", "8"),
        "0.3",
        "fresh",
    )
    .unwrap();
    assert_ne!(text, BOARD);
    assert_eq!(delete_trace(text, "fresh").unwrap(), BOARD);
}

#[test]
fn changing_a_track_is_deleting_and_routing() {
    let (a, b) = (point("5", "6"), point("7", "8"));
    let changed =
        modify_trace(BOARD.to_string(), "old", "VCC", "B.Cu", &a, &b, "0.5", "new").unwrap();
    let without = delete_trace(BOARD.to_string(), "old").unwrap();
    let again = route_trace(without, "VCC", "B.Cu", &a, &b, "0.5", "new").unwrap();
    assert_eq!(changed, again);
}

#[test]
fn a_moved_footprint_is_found_at_its_place() {
    let before = nodes(BOARD);
    let text =
        move_component(BOARD.to_string(), "R1", &place("42", "-43.5", Some("90"))).unwrap();
    let fp = find_component(&tree(&text), "R1").unwrap();
    assert_eq!(fp.x.as_deref(), Some("42"));
    assert_eq!(fp.y.as_deref(), Some("-43.5"));
    assert_eq!(fp.rotation.as_deref(), Some("90"));
    let words = footprint_places(&text, "R1").unwrap();
    assert_eq!(words[0], ["42", "-43.5", "90"]);
    let after = nodes(&text);
    assert_eq!(after.len(), before.len());
    assert_eq!(after[4], before[4].replace("(at 10 20)", "(at 42 -43.5 90)"));
    assert_eq!(after[5], before[5]);
}

#[test]
fn a_rotated_board_still_parses() {
    let ats = vec![
        place("10", "20", Some("90")),
        place("0", "-1", Some("90")),
        place("0", "1", Some("90")),
        place("-0.5", "0", Some("90")),
    ];
    let text = rotate_component(BOARD.to_string(), "R1", &ats).unwrap();
    let after = nodes(&text);
    assert_eq!(after.len(), nodes(BOARD).len());
    assert!(after[4].contains("(at 10 20 90)"));
    assert!(after[4].contains("(pad \"1\" smd (at -0.5 0 90))"));
}

#[test]
fn a_value_that_was_set_is_read_back() {
    let before = nodes(BOARD);
    let value = r#"4.7k "(x)\"#;
    let text = edit_component(BOARD.to_string(), "R1", value).unwrap();
    assert_eq!(find_component(&tree(&text), "R1").unwrap().value, value);
    let after = nodes(&text);
    assert_eq!(after.len(), before.len());
    assert_eq!(after[5], before[5]);
}

#[test]
fn a_deleted_footprint_leaves_the_rest() {
    let before = nodes(BOARD);
    let text = delete_component(BOARD.to_string(), "R1").unwrap();
    let after = nodes(&text);
    assert_eq!(after[..4], before[..4]);
    assert_eq!(after[4..], before[5..]);
    assert!(find_component(&tree(&text), "R1").is_err());
}

#[test]
fn a_deleted_track_leaves_the_rest() {
    let before = nodes(BOARD);
    let after = nodes(&delete_trace(BOARD.to_string(), "old").unwrap());
    assert_eq!(after[..], before[..5]);
}

#[test]
fn a_copy_has_its_reference_and_its_place() {
    let block = copy_footprint(BOARD, "R1", "R9").unwrap();
    let text = add_copy(BOARD.to_string(), block, &place("1", "2", None)).unwrap();
    let t = tree(&text);
    assert_eq!(find_component(&t, "R9").unwrap().x.as_deref(), Some("1"));
    assert_eq!(find_component(&t, "R1").unwrap().x.as_deref(), Some("10"));
    assert_eq!(nodes(&text).len(), nodes(BOARD).len() + 1);
}

#[test]
fn aligned_footprints_leave_a_board() {
    let two = BOARD.replace(
        "  (segment",
        "  (footprint \"Lib:C\" (at 1 2 90) (property \"Reference\" \"C1\" (at 0 0)))\n  (segment",
    );
    let refs = vec!["C1".to_string(), "R1".to_string()];
    let ats = vec![place("5", "2", Some("90")), place("5", "20", None)];
    let text = align_components(two.clone(), &refs, &ats).unwrap();
    let t = tree(&text);
    assert_eq!(find_component(&t, "C1").unwrap().x.as_deref(), Some("5"));
    assert_eq!(find_component(&t, "R1").unwrap().x.as_deref(), Some("5"));
    assert_eq!(nodes(&text).len(), nodes(&two).len());
}

#[test]
fn what_balances_parses() {
    let text = r#"x (a"b)("(c é\) (d)"e\")"f) y"#;
    let (s, e) = find_balanced_block(text, 2).unwrap();
    assert_eq!(&text[s..e], r#"(a"b)("(c é\) (d)"e\")"f)"#);
    assert_eq!(shown(&tree(&text[s..e])), r#"(a "b)(" (c é\) (d) "e\")" f)"#);
    assert!(find_balanced_block("(a (b)", 0).is_none());
    assert!(parse_sexp("(a (b)").is_err());
}

#[test]
fn edits_that_are_apart_are_made_one_by_one() {
    let text = "one two three".to_string();
    let both = apply_edits(
        text.clone(),
        vec![
            SexpEdit::replace(0, 3, "1".to_string()),
            SexpEdit::insert(8, "and ".to_string()),
        ],
    );
    let last = apply_edits(text, vec![SexpEdit::insert(8, "and ".to_string())]);
    let one = apply_edits(last, vec![SexpEdit::replace(0, 3, "1".to_string())]);
    assert_eq!(both, "1 two and three");
    assert_eq!(both, one);
}

#[test]
fn the_back_side_is_told_by_its_layers() {
    assert!(on_back_side("B.Cu"));
    assert!(!on_back_side("F.Cu"));
    assert!(!on_back_side("B"));
}

#[test]
fn a_created_class_takes_nets() {
    let text =
        create_netclass(BOARD.to_string(), "Power", "0.2", "0.5", "0.4", "0.8");
    match assign_net_to_class(text, "GND", "Power").unwrap() {
        Assignment::Assigned(t) => {
            assert!(nodes(&t).last().unwrap().contains("(via_diameter 0.8) (net \"GND\"))"));
        }
        Assignment::AlreadyAssigned => panic!("the class is new"),
    }
}

#[test]
fn nodes_are_written_on_lines() {
    assert_eq!(quote("F.Cu"), "\"F.Cu\"");
    assert_eq!(write_one("width", "0.2"), "(width 0.2)");
    assert_eq!(write_two("start", "1", "2"), "(start 1 2)");
    let parts = vec!["(a 1)".to_string(), "(b 2)".to_string()];
    assert_eq!(write_lines(&parts), "\n    (a 1)\n    (b 2)");
    assert_eq!(write_block("via", &parts), "\n  (via\n    (a 1)\n    (b 2)\n  )");
}

#[test]
fn live_pads_are_picked_by_number() {
    let numbers = vec!["1".to_string(), "2".to_string(), "2".to_string()];
    assert_eq!(find_live_pad(Some(&numbers), "R1", "2"), Ok(1));
    assert_eq!(
        find_live_pad(Some(&numbers), "R1", "9"),
        Err("Pad '9' not found on 'R1'".to_string())
    );
    assert_eq!(find_live_pad(None, "R1", "1"), Err("Footprint 'R1' not found".to_string()));
    assert_eq!(index_of(&numbers, "2"), Some(1));
    assert_eq!(index_of(&numbers, "3"), None);
}

#[test]
fn footprint_directories_of_the_environment_come_first() {
    let vars = vec![
        ("KICAD9_FOOTPRINT_DIR".to_string(), "/nine".to_string()),
        ("HOME".to_string(), "/home".to_string()),
        ("KICAD10_FOOTPRINT_DIR".to_string(), "/ten".to_string()),
    ];
    assert_eq!(
        standard_footprint_dirs(&vars, Platform::Unix),
        ["/ten", "/nine", "/usr/share/kicad/footprints", "/usr/local/share/kicad/footprints"]
    );
    assert_eq!(
        standard_footprint_dirs(&Vec::new(), Platform::MacOs),
        ["/Applications/KiCad/KiCad.app/Contents/SharedSupport/footprints"]
    );
    assert_eq!(
        standard_footprint_dirs(&Vec::new(), Platform::Windows),
        [
            r"C:\Program Files\KiCad\10.0\share\kicad\footprints",
            r"C:\Program Files\KiCad\9.0\share\kicad\footprints"
        ]
    );
}

#[test]
fn symbol_directories_are_searched_once() {
    let own = "/usr/local/share/kicad/symbols";
    let dirs = symbol_dir_candidates(Some(own), Platform::Unix);
    assert_eq!(dirs, [own, "/usr/share/kicad/symbols", own]);
    assert_eq!(
        find_symbol_dirs(&dirs, &vec![true, true, true]),
        [own, "/usr/share/kicad/symbols"]
    );
    assert_eq!(find_symbol_dirs(&dirs, &vec![true, false, true]), [own]);
    assert_eq!(symbol_dir_candidates(None, Platform::Windows).len(), 4);
}

fn symbol(reference: Option<&str>) -> Symbol {
    let properties = match reference {
        Some(r) => vec![Property {
            name: "Reference".to_string(),
            value: r.to_string(),
            sub_nodes: Vec::new(),
        }],
        None => Vec::new(),
    };
    Symbol {
        lib_id: "Device:R".to_string(),
        x: "0".to_string(),
        y: "0".to_string(),
        rotation: None,
        mirror: None,
        unit: 1,
        uuid: "u".to_string(),
        properties,
        raw_sub_nodes: Vec::new(),
    }
}

#[test]
fn symbols_of_a_region_are_told_by_reference() {
    let sch = Schematic {
        symbols: vec![symbol(Some("R1")), symbol(None), symbol(Some("R2")), symbol(Some("R1"))],
        raw_other: Vec::new(),
    };
    assert_eq!(region_references(&sch, &vec![true, true, false, true]), ["R1", "R1"]);
    assert_eq!(find_symbol(&sch, "R2"), Some(2));
}

#[test]
fn a_placed_symbol_is_found_by_reference() {
    let references = vec!["R1".to_string(), "C1".to_string(), "C1".to_string()];
    assert!(matches!(find_instance(&references, "C1"), Ok(1)));
    let answer = find_instance(&references, "U1").unwrap_err();
    assert!(answer.is_error);
    assert!(format!("{answer:?}").contains("Component 'U1' not found"));
}

#[test]
fn a_field_that_was_set_reads_back() {
    let report = edit_schematic_component(
        SHEET.to_string(),
        "R1",
        &vec![FieldRequest {
            name: "Value".to_string(),
            value: Some("4.7k".to_string()),
            standard: true,
        }],
    );
    let text = report.content.unwrap();
    let (a, b) = field_value_range(&text, "R1", "Value").unwrap();
    assert_eq!(&text[a..b], "4.7k");
}

#[test]
fn a_field_that_was_moved_reads_back() {
    let text =
        edit_field_position(SHEET.to_string(), "R1", "Value", "1.5", "-2", "180").unwrap();
    assert_eq!(field_numbers(&text, "R1", "Value").unwrap(), ["1.5", "-2", "180"]);
    assert_eq!(field_numbers(&text, "R1", "Reference").unwrap(), ["51", "55", "0"]);
}

#[test]
fn deleting_a_via_undoes_adding_it() {
    let at = Point { x: "1".to_string(), y: "2".to_string() };
    let board = add_via(BOARD.to_string(), "GND", &at, "0.8", "0.4", "via-1").unwrap();
    assert_ne!(board, BOARD);
    assert_eq!(delete_trace(board, "via-1").unwrap(), BOARD);
}

#[test]
fn a_copy_is_found_under_its_reference() {
    for new in ["R9", r#"A"B"#, r"C\D"] {
        let block = copy_footprint(BOARD, "R1", new).unwrap();
        let text = add_copy(BOARD.to_string(), block, &place("1", "2", None)).unwrap();
        let (s, e) = find_footprint_block(&text, new).unwrap();
        assert_eq!(s, BOARD.rfind(')').unwrap() + 3);
        assert!(text[s..e].starts_with("(footprint \"Lib:R\""));
        assert!(find_component(&parse_sexp(&text).unwrap(), new).is_ok());
        assert_eq!(delete_component(text, new).unwrap(), BOARD);
    }
}

#[test]
fn a_net_with_parentheses_is_assigned_once() {
    let text = create_netclass(BOARD.to_string(), "P(1)", "0.2", "0.5", "0.4", "0.8");
    let once = match assign_net_to_class(text, "Net-(R1-Pad1)", "P(1)").unwrap() {
        Assignment::Assigned(t) => t,
        Assignment::AlreadyAssigned => panic!("the class is new"),
    };
    assert!(matches!(
        assign_net_to_class(once, "Net-(R1-Pad1)", "P(1)").unwrap(),
        Assignment::AlreadyAssigned
    ));
}
