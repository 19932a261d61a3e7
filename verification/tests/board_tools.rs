use konnect::answer::{CallToolResult, Source, ToolContent, ToolFailure};
use konnect::board::At;
use konnect::components::{
    add_copy, align_at, align_components, array_slots, block_place, component_places,
    copy_footprint, delete_component, duplicate_component, edit_component, footprint_places,
    move_component, place_array, place_component, rotate_component, Placement,
};
use konnect::nets::{add_net, find_net_id, require_file_net_id};
use konnect::numbers::{parse_i32, reads_as_number, trim};
use konnect::parser::{parse_sexp, SexpError};
use konnect::property::uuid_count;
use konnect::reading::{
    component_list, component_pads, file_find_footprint, find_component, find_pad_board_position,
    nets_list, pick_pad, query_traces, traces,
};
use konnect::routing::{
    add_copper_pour, add_via, assign_net_to_class, create_netclass, delete_trace, modify_trace,
    netclass_offset, route_diff_pair, route_pad_to_pad, route_trace, Assignment, Point,
};
use konnect::tree::SexpNode;
use konnect::views::{
    board_view_answer, default_layers, schematic_view_answer, view_layers,
};

const SEG_UUID: &str = "5f0d9c1e-0000-4000-8000-00000000aaaa";

fn board_fixture() -> String {
    format!(
        r#"(kicad_pcb
  (version 20250610)
  (generator "konnect")
  (general
    (thickness 1.6)
  )
  (paper "A4")
  (layers
    (0 "F.Cu" signal)
    (2 "B.Cu" signal)
    (9 "F.SilkS" user "F.Silkscreen")
    (25 "Edge.Cuts" user)
  )
  (net 0 "")
  (net 1 "GND")
  (footprint "Resistor_SMD:R_0402_1005Metric"
    (layer "F.Cu")
    (uuid "0e0e0e0e-0000-4000-8000-000000000001")
    (at 10 20)
    (property "Reference" "R1"
      (at 0 -1.17 0)
      (layer "F.SilkS")
      (uuid "0e0e0e0e-0000-4000-8000-000000000002")
    )
    (property "Value" "10k"
      (at 0 1.17 0)
      (layer "F.Fab")
      (uuid "0e0e0e0e-0000-4000-8000-000000000003")
    )
    (pad "1" smd roundrect
      (at -0.51 0)
      (size 0.54 0.64)
      (layers "F.Cu" "F.Paste" "F.Mask")
      (net 1 "GND")
      (uuid "0e0e0e0e-0000-4000-8000-000000000004")
    )
    (pad "2" smd roundrect
      (at 0.51 0)
      (size 0.54 0.64)
      (layers "F.Cu" "F.Paste" "F.Mask")
      (uuid "0e0e0e0e-0000-4000-8000-000000000005")
    )
  )
  (footprint "Resistor_SMD:R_0402_1005Metric"
    (layer "F.Cu")
    (uuid "0e0e0e0e-0000-4000-8000-000000000011")
    (at 30 20)
    (property "Reference" "R2"
      (at 0 -1.17 0)
      (layer "F.SilkS")
      (uuid "0e0e0e0e-0000-4000-8000-000000000012")
    )
    (property "Value" "10k"
      (at 0 1.17 0)
      (layer "F.Fab")
      (uuid "0e0e0e0e-0000-4000-8000-000000000013")
    )
    (pad "1" smd roundrect
      (at -0.51 0)
      (size 0.54 0.64)
      (layers "F.Cu" "F.Paste" "F.Mask")
      (net 1 "GND")
      (uuid "0e0e0e0e-0000-4000-8000-000000000014")
    )
    (pad "2" smd roundrect
      (at 0.51 0)
      (size 0.54 0.64)
      (layers "F.Cu" "F.Paste" "F.Mask")
      (uuid "0e0e0e0e-0000-4000-8000-000000000015")
    )
  )
  (segment
    (start 1 1)
    (end 5 1)
    (width 0.25)
    (layer "F.Cu")
    (net 1)
    (uuid "{SEG_UUID}")
  )
)
"#
    )
}

const TP: &str = r#"(footprint "TP_1mm"
  (version 20240108)
  (generator "pcbnew")
  (layer "F.Cu")
  (property "Reference" "REF**"
    (at 0 -1.2 0)
    (layer "F.SilkS")
  )
  (property "Value" "TP_1mm"
    (at 0 1.2 0)
    (layer "F.Fab")
  )
  (pad "1" smd circle
    (at 0 0)
    (size 1 1)
    (layers "F.Cu" "F.Mask")
  )
)
"#;

fn at(x: f64, y: f64, rot: f64) -> At {
    let r = rot.rem_euclid(360.0);
    At {
        x: format!("{x}"),
        y: format!("{y}"),
        rot: if r == 0.0 { None } else { Some(format!("{r}")) },
    }
}

fn number(words: &[String], i: usize) -> f64 {
    words.get(i).and_then(|w| w.parse().ok()).unwrap_or(0.0)
}

fn float(text: &Option<String>) -> f64 {
    text.as_ref().and_then(|t| t.parse().ok()).unwrap_or(0.0)
}

fn point(x: f64, y: f64) -> Point {
    Point { x: format!("{x}"), y: format!("{y}") }
}

fn fresh(n: usize) -> Vec<String> {
    (0..n).map(|i| format!("{i:08}-9999-4000-8000-000000000000")).collect()
}

fn body_text(result: &CallToolResult) -> String {
    match result.content.first() {
        Some(ToolContent::Text { text }) => text.clone(),
        other => panic!("expected text content, got {other:?}"),
    }
}

fn reported(f: ToolFailure) -> String {
    match f {
        ToolFailure::Reported(r) => body_text(&r),
        ToolFailure::Raised(m) => panic!("raised: {m}"),
    }
}

fn raised(f: ToolFailure) -> String {
    match f {
        ToolFailure::Raised(m) => m,
        ToolFailure::Reported(r) => panic!("reported: {}", body_text(&r)),
    }
}

fn parsed(content: &str) -> SexpNode {
    parse_sexp(content).expect("board still parses")
}

fn pad_at(tree: &SexpNode, reference: &str, pad: &str) -> (f64, f64) {
    let p = find_pad_board_position(tree, reference, pad).unwrap();
    let rad = float(&p.fp_rotation).to_radians();
    let (lx, ly) = (float(&p.x), float(&p.y));
    (
        float(&p.fp_x) + lx * rad.cos() - ly * rad.sin(),
        float(&p.fp_y) + lx * rad.sin() + ly * rad.cos(),
    )
}

#[test]
fn component_read_tools_fall_back_to_file_without_socket() {
    let tree = parsed(&board_fixture());

    let s = find_component(&tree, "R1").unwrap();
    assert_eq!(float(&s.x), 10.0);
    assert_eq!(float(&s.y), 20.0);
    assert_eq!(s.rotation, None);
    assert_eq!(s.value, "10k");
    assert_eq!(s.layer, "F.Cu");
    assert_eq!(s.footprint, "Resistor_SMD:R_0402_1005Metric");

    assert_eq!(component_list(&tree).len(), 2);

    let pads = component_pads(&tree, "R1").unwrap();
    assert_eq!(pads.pads.len(), 2);
    assert_eq!(pads.pads[0].net, "GND");
    assert_eq!(pads.pads[1].net, "");

    let k = pick_pad(&pads.pads, "2").unwrap();
    assert_eq!(float(&pads.x) + pads.pads[k].x.parse::<f64>().unwrap(), 10.51);
    assert_eq!(body_text(&pick_pad(&pads.pads, "3").unwrap_err()), "Pad '3' not found");
    assert_eq!(
        body_text(&find_component(&tree, "R3").err().unwrap()),
        "Footprint 'R3' not found"
    );
    assert!(file_find_footprint(&tree, "R2").is_some());
    assert_eq!(
        body_text(&component_pads(&tree, "Q").err().unwrap()),
        "Footprint 'Q' not found"
    );
}

#[test]
fn routing_read_tools_fall_back_to_file_without_socket() {
    let tree = parsed(&board_fixture());

    let nets = nets_list(&tree);
    assert_eq!(nets.len(), 2);
    assert!(nets.iter().any(|n| n.1 == "GND"));

    let all = traces(&tree);
    let codes: Vec<i32> = all.iter().map(|t| float(&t.net) as i32).collect();
    let by_code: Vec<(i32, String)> =
        nets.iter().map(|n| (n.0.parse::<f64>().unwrap() as i32, n.1.clone())).collect();
    let hits = query_traces(&all, &codes, &by_code, Some("GND"), None);
    assert_eq!(hits.len(), 1);
    assert_eq!(all[hits[0].0].layer, "F.Cu");
    assert_eq!(hits[0].1, "GND");
    assert!(query_traces(&all, &codes, &by_code, Some("VCC"), None).is_empty());
    assert!(query_traces(&all, &codes, &by_code, None, Some("B.Cu")).is_empty());
    assert_eq!(query_traces(&all, &codes, &by_code, None, None).len(), 1);
}

#[test]
fn the_last_of_two_nets_with_one_number_names_a_track() {
    let tree = parsed("(b (net 1 \"A\") (net 1 \"B\") (net x \"C\") (segment (start 0 0) (end 1 1) (net 1)) (segment (start 0 0)))");
    let nets = nets_list(&tree);
    assert_eq!(nets.len(), 2);
    let all = traces(&tree);
    assert_eq!(all.len(), 1);
    let by_code = vec![(1, "A".to_string()), (1, "B".to_string())];
    assert_eq!(query_traces(&all, &vec![1], &by_code, None, None)[0].1, "B");
    assert_eq!(query_traces(&all, &vec![9], &by_code, None, None)[0].1, "");
}

#[test]
fn component_write_tools_fall_back_to_file_without_socket() {
    let mut board = board_fixture();

    board = move_component(board, "R1", &at(42.0, 43.0, 0.0)).unwrap();
    assert!(board.contains("(at 42 43)"));

    let places = footprint_places(&board, "R1").unwrap();
    let delta = 90.0 - number(&places[0], 2);
    let ats: Vec<At> = places
        .iter()
        .enumerate()
        .map(|(i, p)| {
            let angle = if i == 0 { 90.0 } else { number(p, 2) + delta };
            at(number(p, 0), number(p, 1), angle)
        })
        .collect();
    board = rotate_component(board, "R1", &ats).unwrap();
    assert!(board.contains("(at 42 43 90)"), "anchor angle set");
    assert!(board.contains("(at -0.51 0 90)"), "pad angle offset with footprint");

    board = edit_component(board, "R1", "4.7k").unwrap();
    assert!(board.contains("(property \"Value\" \"4.7k\""));

    let copy = copy_footprint(&board, "R1", "R9").unwrap();
    let rot = number(&block_place(&copy).unwrap(), 2);
    let new_ones = fresh(uuid_count(&copy));
    board = duplicate_component(board, "R1", "R9", &at(70.0, 80.0, rot), &new_ones).unwrap();
    assert!(board.contains("(property \"Reference\" \"R9\""));
    assert!(board.contains("(at 70 80 90)"));

    let refs = vec!["R1".to_string(), "R2".to_string()];
    let places = component_places(&board, &refs).unwrap();
    let ats: Vec<At> = places
        .iter()
        .map(|p| align_at("y", "25", &at(number(p, 0), number(p, 1), number(p, 2))))
        .collect();
    assert_eq!(ats.len(), 2);
    board = align_components(board, &refs, &ats).unwrap();
    assert!(board.contains("(at 30 25)"), "R2 aligned to y=25");
    assert!(board.contains("(at 42 25 90)"));

    board = delete_component(board, "R2").unwrap();
    assert!(!board.contains("\"R2\""));

    // The mutated board must still parse.
    parsed(&board);
}

#[test]
fn component_write_tools_tell_what_is_missing() {
    let board = board_fixture();
    let z = at(0.0, 0.0, 0.0);
    let gone = "Footprint 'R7' not found";
    assert_eq!(reported(move_component(board.clone(), "R7", &z).unwrap_err()), gone);
    assert_eq!(reported(rotate_component(board.clone(), "R7", &vec![]).unwrap_err()), gone);
    assert_eq!(reported(edit_component(board.clone(), "R7", "v").unwrap_err()), gone);
    assert_eq!(body_text(&delete_component(board.clone(), "R7").unwrap_err()), gone);
    assert_eq!(reported(copy_footprint(&board, "R7", "R8").unwrap_err()), gone);
    let refs = vec!["R7".to_string()];
    assert_eq!(body_text(&component_places(&board, &refs).unwrap_err()), gone);

    let bare = "(b (footprint \"P\" (property \"Reference\" \"R7\")))".to_string();
    let no_anchor = "Footprint has no (at) anchor";
    assert_eq!(raised(move_component(bare.clone(), "R7", &z).unwrap_err()), no_anchor);
    assert_eq!(raised(rotate_component(bare.clone(), "R7", &vec![]).unwrap_err()), no_anchor);
    assert_eq!(
        raised(edit_component(bare.clone(), "R7", "v").unwrap_err()),
        "Footprint has no Value property"
    );
    assert_eq!(
        body_text(&component_places(&bare, &refs).unwrap_err()),
        "Footprint 'R7' has no (at) anchor"
    );
    assert_eq!(
        raised(add_copy(board, "(footprint \"P\")".to_string(), &z).unwrap_err()),
        no_anchor
    );
}

#[test]
fn alignment_picks_the_axis() {
    let here = at(1.0, 2.0, 90.0);
    let a = align_at("x", "7", &here);
    assert_eq!((a.x.as_str(), a.y.as_str(), a.rot.as_deref()), ("7", "2", Some("90")));
    let b = align_at("y", "7", &here);
    assert_eq!((b.x.as_str(), b.y.as_str()), ("1", "7"));
}

#[test]
fn place_component_file_fallback_resolves_library_footprint() {
    let mut board = board_fixture();
    let p = Placement {
        reference: "TP1".to_string(),
        x: "5".to_string(),
        y: "6".to_string(),
        uuid: "u".to_string(),
        fresh: fresh(1),
    };
    board = place_component(board, Some(TP), "TestLib:TP_1mm", "F.Cu", &p, None).unwrap();
    assert!(board.contains("(footprint \"TestLib:TP_1mm\""));
    assert!(board.contains("(property \"Reference\" \"TP1\""));
    parsed(&board);

    // Array placement through the same resolution path.
    let items: Vec<Placement> = array_slots("TP", 2, 3, 1)
        .into_iter()
        .map(|s| Placement {
            reference: s.reference,
            x: format!("{}", 50.0 + s.col as f64 * 2.0),
            y: format!("{}", 50.0 + s.row as f64 * 2.0),
            uuid: "u".to_string(),
            fresh: fresh(1),
        })
        .collect();
    assert_eq!(items.len(), 3);
    board = place_array(board, Some(TP), "TestLib:TP_1mm", &items).unwrap();
    for r in ["TP2", "TP3", "TP4"] {
        assert!(board.contains(&format!("(property \"Reference\" \"{r}\"")));
    }
    assert!(board.contains("(at 54 50)"));
    parsed(&board);
}

#[test]
fn placing_refuses_what_it_cannot_do() {
    let p = || Placement {
        reference: "U1".to_string(),
        x: "0".to_string(),
        y: "0".to_string(),
        uuid: "u".to_string(),
        fresh: fresh(3),
    };
    let e = place_component(board_fixture(), Some(TP), "L:P", "B.Cu", &p(), None).unwrap_err();
    assert!(reported(e).starts_with("place_component file fallback cannot place on back-side"));
    let e = place_component(board_fixture(), None, "L:P", "F.Cu", &p(), None).unwrap_err();
    let missing = "Footprint 'L:P' not found via fp-lib-table or standard library paths";
    assert_eq!(reported(e), missing);
    let e = place_component(board_fixture(), Some("()"), "L:P", "F.Cu", &p(), None).unwrap_err();
    assert_eq!(raised(e), "No (footprint ...) block in .kicad_mod file");
    let e = place_array(board_fixture(), None, "L:P", &vec![p()]).unwrap_err();
    assert_eq!(reported(e), missing);
    let e = place_array(board_fixture(), Some("()"), "L:P", &vec![p()]).unwrap_err();
    assert_eq!(raised(e), "No (footprint ...) block in .kicad_mod file");
}

#[test]
fn array_slots_run_row_by_row() {
    let slots = array_slots("U", 9, 2, 2);
    let got: Vec<(String, usize, usize)> =
        slots.into_iter().map(|s| (s.reference, s.row, s.col)).collect();
    assert_eq!(
        got,
        vec![
            ("U9".to_string(), 0, 0),
            ("U10".to_string(), 0, 1),
            ("U11".to_string(), 1, 0),
            ("U12".to_string(), 1, 1),
        ]
    );
    assert!(array_slots("U", 1, 0, 5).is_empty());
}

#[test]
fn routing_write_tools_fall_back_to_file_without_socket() {
    let mut board = board_fixture();
    board = route_trace(board, "GND", "F.Cu", &point(1.0, 2.0), &point(3.0, 2.0), "0.3", "t1")
        .unwrap();
    assert!(board.contains("(start 1 2)"));

    // Unknown net: an error that says what to do, no silent net-0 copper.
    let e = route_trace(
        board.clone(),
        "NOPE",
        "F.Cu",
        &point(0.0, 0.0),
        &point(1.0, 0.0),
        "0.25",
        "t2",
    )
    .unwrap_err();
    assert!(e.is_error);
    assert!(body_text(&e).contains("add_net"));

    board = add_via(board, "GND", &point(7.0, 8.0), "0.4", "0.8", "v1").unwrap();
    assert!(board.contains("(at 7 8)"));

    let tree = parsed(&board);
    let (x1, y1) = pad_at(&tree, "R1", "2");
    let (x2, y2) = pad_at(&tree, "R2", "1");
    assert_eq!(x1, 10.51);
    assert_eq!(x2, 29.49);
    let in_line = (x1 - x2).abs() < 0.01 || (y1 - y2).abs() < 0.01;
    assert!(in_line);
    board = route_pad_to_pad(
        board,
        "GND",
        "F.Cu",
        &point(x1, y1),
        &point(x2, y2),
        in_line,
        "0.25",
        "p1",
        "p2",
    )
    .unwrap();
    assert!(board.contains("(uuid \"p1\")"));
    assert!(!board.contains("(uuid \"p2\")"));

    board = route_diff_pair(
        board,
        "GND",
        "GND",
        "F.Cu",
        (&point(0.0, 10.1), &point(5.0, 10.1)),
        (&point(0.0, 9.9), &point(5.0, 9.9)),
        "0.1",
        "d1",
        "d2",
    )
    .unwrap();
    assert!(board.contains("(start 0 9.9)"));

    board = modify_trace(
        board,
        SEG_UUID,
        "GND",
        "B.Cu",
        &point(1.0, 1.0),
        &point(9.0, 1.0),
        "0.5",
        "m1",
    )
    .unwrap();
    assert!(!board.contains(SEG_UUID), "old segment replaced");
    assert!(board.contains("(layer \"B.Cu\")"));

    let (board, id) = add_net(board, "VCC");
    assert_eq!(find_net_id(&board, "VCC"), id);
    parsed(&board);
}

#[test]
fn a_bend_goes_along_x_first() {
    let board = board_fixture();
    let out = route_pad_to_pad(
        board,
        "GND",
        "F.Cu",
        &point(1.0, 2.0),
        &point(3.0, 4.0),
        false,
        "0.25",
        "a",
        "b",
    )
    .unwrap();
    assert!(out.contains("(start 1 2)\n    (end 3 2)"));
    assert!(out.contains("(start 3 2)\n    (end 3 4)"));
}

#[test]
fn delete_trace_file_fallback_removes_segment_by_uuid() {
    let out = delete_trace(board_fixture(), SEG_UUID).unwrap();
    assert!(!out.contains("(segment"));
    assert!(out.ends_with("  )\n)\n"));
    let e = delete_trace(out, "not-there").unwrap_err();
    assert!(e.is_error);
    assert_eq!(body_text(&e), "No track segment, via, or arc with uuid 'not-there' found");
}

#[test]
fn a_track_that_was_added_can_be_deleted_again() {
    let before = board_fixture();
    let out = route_trace(
        before.clone(),
        "GND",
        "F.Cu",
        &point(1.0, 2.0),
        &point(3.0, 2.0),
        "0.3",
        "fresh-uuid",
    )
    .unwrap();
    assert_ne!(out, before);
    assert_eq!(delete_trace(out, "fresh-uuid").unwrap(), before);
}

#[test]
fn changing_a_track_tells_what_is_missing() {
    let (a, b) = (point(0.0, 0.0), point(1.0, 0.0));
    let e = modify_trace(board_fixture(), SEG_UUID, "NOPE", "F.Cu", &a, &b, "1", "n").unwrap_err();
    assert!(body_text(&e).starts_with("Net 'NOPE' not found"));
    let e = modify_trace(board_fixture(), "zzz", "GND", "F.Cu", &a, &b, "1", "n").unwrap_err();
    assert!(body_text(&e).contains("'zzz'"));
    let e = add_via(board_fixture(), "NOPE", &a, "0.4", "0.8", "v").unwrap_err();
    assert!(body_text(&e).contains("add_net"));
    let e = route_diff_pair(
        board_fixture(),
        "GND",
        "NOPE",
        "F.Cu",
        (&a, &b),
        (&a, &b),
        "1",
        "p",
        "n",
    )
    .unwrap_err();
    assert!(body_text(&e).starts_with("Net 'NOPE'"));
}

#[test]
fn nets_are_numbered_and_found() {
    let board = board_fixture();
    assert_eq!(find_net_id(&board, "GND"), 1);
    assert_eq!(find_net_id(&board, "NOPE"), 0);
    assert_eq!(require_file_net_id(&board, "").unwrap(), 0);
    assert_eq!(
        body_text(&require_file_net_id(&board, "X").unwrap_err()),
        "Net 'X' not found in the board file. Add it first with add_net."
    );
    // Declarations and uses of nets count alike.
    let (out, id) = add_net(board.clone(), "VCC");
    assert_eq!(id as usize, board.matches("(net ").count());
    assert!(out.contains(&format!("\n  (net {id} \"VCC\")")));
    assert_eq!(find_net_id("(net 12 \"A\")", "A"), 12);
    assert_eq!(find_net_id("(net -4 \"A\")", "A"), -4);
    assert_eq!(find_net_id("(net x \"A\")", "A"), 0);
    assert_eq!(find_net_id("(pin 1 \"A\")", "A"), 0);
}

#[test]
fn zones_need_three_corners() {
    let pts = vec![point(0.0, 0.0), point(10.0, 0.0), point(10.0, 10.0)];
    let out = add_copper_pour("(b)".to_string(), "GND", "F.Cu", "0.2", "0.25", &pts, "z").unwrap();
    assert_eq!(
        out,
        "(b\n  (zone (net 0) (net_name \"GND\") (layer \"F.Cu\") (uuid \"z\")\n    (hatch edge 0.508)\n    (connect_pads (clearance 0.2))\n    (min_thickness 0.25)\n    (fill yes)\n    (polygon (pts\n      (xy 0 0)\n      (xy 10 0)\n      (xy 10 10)\n    ))\n  ))"
    );
    parsed(&out);
    let two = vec![point(0.0, 0.0), point(1.0, 1.0)];
    let e = add_copper_pour("(b)".to_string(), "GND", "F.Cu", "0.2", "0.25", &two, "z");
    assert_eq!(body_text(&e.unwrap_err()), "Zone requires at least 3 points");
}

#[test]
fn netclasses_are_created_and_filled() {
    let board = "(b\n  (net_settings\n    (net_classes\n    )\n  )\n)".to_string();
    assert!(board.is_char_boundary(netclass_offset(&board)));
    let board = create_netclass(board, "Power", "0.2", "0.5", "0.4", "0.8");
    assert!(board.contains(
        "\n      (netclass \"Power\"\n        (clearance 0.2)\n        (trace_width 0.5)\n        (via_drill 0.4)\n        (via_diameter 0.8)\n      )\n    )"
    ));
    let once = match assign_net_to_class(board, "VCC", "Power").unwrap() {
        Assignment::Assigned(s) => s,
        Assignment::AlreadyAssigned => panic!("the net is new to the class"),
    };
    assert!(once.contains("(via_diameter 0.8)\n      \n        (net \"VCC\"))"));
    // Done a second time, nothing changes.
    assert!(matches!(
        assign_net_to_class(once.clone(), "VCC", "Power").unwrap(),
        Assignment::AlreadyAssigned
    ));
    let e = assign_net_to_class(once, "VCC", "Other").err().unwrap();
    assert_eq!(body_text(&e), "Netclass 'Other' not found in board file");
    // Without a place for classes they go to the end of the board.
    assert!(create_netclass("(b)".to_string(), "P", "1", "2", "3", "4").ends_with("\n      ))"));
}

#[test]
fn pads_that_are_missing_are_named() {
    let tree = parsed(&board_fixture());
    assert_eq!(
        find_pad_board_position(&tree, "R7", "1").err().unwrap(),
        "Footprint 'R7' not found on board"
    );
    assert_eq!(
        find_pad_board_position(&tree, "R1", "9").err().unwrap(),
        "Pad '9' not found on 'R1'"
    );
    let bare = parsed("(b (footprint \"P\" (property \"Reference\" \"R1\") (pad \"1\" smd)))");
    assert_eq!(find_pad_board_position(&bare, "R1", "1").err().unwrap(), "Pad has no (at) node");
}

#[test]
fn texts_parse_or_say_why_not() {
    assert_eq!(parse_sexp("").unwrap_err(), SexpError::Empty);
    assert_eq!(parse_sexp(" ) ").unwrap_err(), SexpError::UnexpectedClose);
    assert_eq!(parse_sexp("(a \"b").unwrap_err(), SexpError::UnterminatedString);
    assert_eq!(parse_sexp("(a (b)").unwrap_err(), SexpError::UnterminatedList);
    assert_eq!(parse_sexp("(a) b").unwrap_err(), SexpError::TrailingText);
    assert_eq!(SexpError::Empty.message(), "Empty S-expression");
    let tree = parse_sexp(" (a \"x\\\"y\\\\\" b(c)\"\") ").unwrap();
    assert_eq!(tree.tag(), Some("a"));
    assert_eq!(tree.get_text(1), Some("x\"y\\"));
    assert_eq!(tree.get_text(2), Some("b"));
    assert_eq!(tree.find("c").and_then(|c| c.tag()), Some("c"));
    assert_eq!(tree.get_text(4), Some(""));
    assert!(tree.get(5).is_none());
}

#[test]
fn numbers_are_told_from_words() {
    for s in ["1", "-0.51", "+2", ".5", "5.", "1e-9", "1E+3", "inf", "-Infinity", "NaN"] {
        assert!(reads_as_number(s), "{s}");
        assert!(s.parse::<f64>().is_ok(), "{s}");
    }
    for s in ["", "-", ".", "e5", "1e", "1e+", "0x1", "1 ", "--1", "infin", "1.2.3"] {
        assert!(!reads_as_number(s), "{s}");
        assert!(s.parse::<f64>().is_err(), "{s}");
    }
    for s in ["0", "-7", "+7", "2147483647", "-2147483648", "007"] {
        assert_eq!(parse_i32(s), s.parse::<i32>().ok(), "{s}");
    }
    for s in ["", "+", "-", "2147483648", "-2147483649", "1.0", "x", "99999999999999999999"] {
        assert_eq!(parse_i32(s), None, "{s}");
        assert!(s.parse::<i32>().is_err(), "{s}");
    }
    assert_eq!(trim(" \t a b\u{3000}\n"), "a b");
}

#[test]
fn pictures_are_encoded_and_tagged() {
    let r = board_view_answer(&b"Many hands".to_vec(), Source::File);
    assert!(!r.is_error);
    assert_eq!(r.content.len(), 2);
    match &r.content[0] {
        ToolContent::Image { data, mime_type } => {
            assert_eq!(data, "TWFueSBoYW5kcw==");
            assert_eq!(mime_type, "image/png");
        }
        other => panic!("expected an image, got {other:?}"),
    }
    match &r.content[1] {
        ToolContent::Text { text } => assert_eq!(text, "{\"source\":\"file\"}"),
        other => panic!("expected text, got {other:?}"),
    }
    let all: Vec<u8> = (0..=255).collect();
    match &board_view_answer(&all[250..255].to_vec(), Source::Ipc).content[0] {
        ToolContent::Image { data, .. } => assert_eq!(data, "+vv8/f4="),
        other => panic!("expected an image, got {other:?}"),
    }
    assert_eq!(default_layers(), vec!["F.Cu", "B.Cu", "F.SilkS", "B.SilkS", "Edge.Cuts"]);
    assert_eq!(view_layers(None), default_layers());
    assert_eq!(view_layers(Some(Vec::new())), default_layers());
    assert_eq!(view_layers(Some(vec!["F.Mask".to_string()])), vec!["F.Mask"]);
    assert!(body_text(&schematic_view_answer(1234)).starts_with("SVG schematic rendered. 1234 bytes.\n\n"));
}

#[test]
fn a_net_is_found_behind_other_nodes_with_its_name() {
    let board = r#"(kicad_pcb (net 0 "") (title "GND") (net 1 "GND"))"#;
    assert_eq!(find_net_id(board, "GND"), 1);
    assert_eq!(require_file_net_id(board, "GND").unwrap(), 1);
    let classed = "(b (netclass \"P\" (net \"VCC\")) (net 7 \"VCC\"))";
    assert_eq!(require_file_net_id(classed, "VCC").unwrap(), 7);
    assert_eq!(require_file_net_id("(b (net 0 \"X\"))", "X").unwrap(), 0);
    assert!(require_file_net_id("(b (title \"X\"))", "X").is_err());
    // A title with the name does not hide the net that is added.
    let (out, id) = add_net("(b (net 0 \"\") (title \"VCC\"))".to_string(), "VCC");
    assert_eq!(id, 1);
    assert_eq!(require_file_net_id(&out, "VCC").unwrap(), 1);
}
