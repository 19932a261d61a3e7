use konnect::board::{append_to_board, At, BoardError};
use konnect::components::{footprint_places, rotate_component};
use konnect::edits::apply_edits;
use konnect::footprint::{
    find_footprint_block, footprint_anchor, footprint_move_edit, footprint_rotation_edits,
};
use konnect::fplib::{expand_kicad_uri, find_table_uri, footprint_candidates, split_lib_id};
use konnect::placing::{footprint_sexp_for_board, prepare_footprint};
use konnect::property::{
    escape_sexp_string, footprint_set_value_edit, property_value_span, regenerate_uuids,
    set_reference_in_block, uuid_count,
};
use konnect::scan::{direct_child_spans, find_balanced_block};
use konnect::tracks::{find_block_by_uuid, format_segment, format_via};
use konnect::words::node_head;

const BOARD: &str = r#"(kicad_pcb
  (version 20250610)
  (generator "konnect")
  (net 0 "")
  (net 1 "GND")
  (footprint "Resistor_SMD:R_0402_1005Metric"
    (layer "F.Cu")
    (uuid "aaaaaaaa-1111-2222-3333-444444444444")
    (at 10 20)
    (property "Reference" "R1"
      (at 0 -1.17 0)
      (layer "F.SilkS")
      (uuid "bbbbbbbb-1111-2222-3333-444444444444")
    )
    (property "Value" "10k"
      (at 0 1.17 0)
      (layer "F.Fab")
      (uuid "cccccccc-1111-2222-3333-444444444444")
    )
    (pad "1" smd roundrect
      (at -0.51 0)
      (size 0.54 0.64)
      (layers "F.Cu" "F.Paste" "F.Mask")
      (net 1 "GND")
      (uuid "dddddddd-1111-2222-3333-444444444444")
    )
    (pad "2" smd roundrect
      (at 0.51 0 90)
      (size 0.54 0.64)
      (layers "F.Cu" "F.Paste" "F.Mask")
      (uuid "eeeeeeee-1111-2222-3333-444444444444")
    )
  )
  (segment
    (start 1 1)
    (end 2 1)
    (width 0.25)
    (layer "F.Cu")
    (net 1)
    (uuid "ffffffff-1111-2222-3333-444444444444")
  )
)
"#;

const MOD: &str = r#"(footprint "R_0402_1005Metric"
  (version 20240108)
  (generator "pcbnew")
  (layer "F.Cu")
  (descr "Resistor SMD 0402 (chip)")
  (property "Reference" "REF**"
    (at 0 -1.17 0)
    (layer "F.SilkS")
  )
  (property "Value" "R_0402_1005Metric"
    (at 0 1.17 0)
    (layer "F.Fab")
  )
  (pad "1" smd roundrect
    (at -0.51 0)
    (size 0.54 0.64)
    (layers "F.Cu" "F.Paste" "F.Mask")
  )
)
"#;

fn at(x: f64, y: f64, rot: f64) -> At {
    let r = rot.rem_euclid(360.0);
    At {
        x: format!("{x}"),
        y: format!("{y}"),
        rot: if r == 0.0 { None } else { Some(format!("{r}")) },
    }
}

fn number(words: &[String], i: usize) -> f64 {
    words.get(i).and_then(|w| w.parse().ok()).unwrap_or(0.0)
}

/// The places of a footprint once it is turned to `rot`.
fn turned(places: &[Vec<String>], rot: f64) -> Vec<At> {
    let delta = rot - number(&places[0], 2);
    places
        .iter()
        .enumerate()
        .map(|(i, p)| {
            let angle = if i == 0 { rot } else { number(p, 2) + delta };
            at(number(p, 0), number(p, 1), angle)
        })
        .collect()
}

fn fresh(n: usize) -> Vec<String> {
    (0..n).map(|i| format!("{i:08}-0000-4000-8000-000000000000")).collect()
}

#[test]
fn find_footprint_block_matches_reference() {
    let (s, e) = find_footprint_block(BOARD, "R1").expect("R1 exists");
    assert!(BOARD[s..e].starts_with("(footprint"));
    assert!(BOARD[s..e].contains("R_0402"));
    assert!(find_footprint_block(BOARD, "R2").is_none());
}

#[test]
fn move_edit_replaces_only_the_anchor() {
    let span = find_footprint_block(BOARD, "R1").unwrap();
    let edit = footprint_move_edit(BOARD, span, &at(55.0, 66.5, 0.0)).unwrap();
    let moved = apply_edits(BOARD.to_string(), vec![edit]);
    assert!(moved.contains("(at 55 66.5)"));
    // Pad-relative positions untouched.
    assert!(moved.contains("(at -0.51 0)"));
    assert!(moved.contains("(at 0 -1.17 0)"));
    assert_eq!(moved, BOARD.replacen("(at 10 20)", "(at 55 66.5)", 1));
}

#[test]
fn rotation_edits_offset_child_angles() {
    let span = find_footprint_block(BOARD, "R1").unwrap();
    let places = footprint_places(BOARD, "R1").unwrap();
    let edits = footprint_rotation_edits(BOARD, span, &turned(&places, 90.0)).unwrap();
    let rotated = apply_edits(BOARD.to_string(), edits);
    // Anchor gains the angle; children gain the delta.
    assert!(rotated.contains("(at 10 20 90)"));
    assert!(rotated.contains("(at -0.51 0 90)"), "pad 1 angle offset");
    assert!(rotated.contains("(at 0.51 0 180)"), "pad 2 angle 90+90");
    assert!(rotated.contains("(at 0 -1.17 90)"), "reference text angle");
}

#[test]
fn rotating_by_nothing_touches_the_anchor_alone() {
    let ats = vec![at(10.0, 20.0, 0.0)];
    let same = rotate_component(BOARD.to_string(), "R1", &ats).unwrap();
    assert_eq!(same, BOARD);
}

#[test]
fn set_value_edit_rewrites_value_property() {
    let span = find_footprint_block(BOARD, "R1").unwrap();
    let edit = footprint_set_value_edit(BOARD, span, "4.7k").unwrap();
    let edited = apply_edits(BOARD.to_string(), vec![edit]);
    assert!(edited.contains("(property \"Value\" \"4.7k\""));
    assert!(!edited.contains("\"10k\""));
}

#[test]
fn regenerate_uuids_replaces_every_uuid() {
    let span = find_footprint_block(BOARD, "R1").unwrap();
    let block = &BOARD[span.0..span.1];
    let new_ones = fresh(uuid_count(block));
    let renewed = regenerate_uuids(block, &new_ones);
    assert!(!renewed.contains("aaaaaaaa"));
    assert!(!renewed.contains("dddddddd"));
    assert_eq!(renewed.matches("(uuid \"").count(), 5);
    for (i, u) in new_ones.iter().enumerate() {
        assert_eq!(renewed.matches(u.as_str()).count(), 1, "uuid {i} stands once");
    }
}

#[test]
fn an_unterminated_uuid_is_left_as_it_is() {
    assert_eq!(uuid_count("(uuid \"a\") (uuid \"b"), 1);
    assert_eq!(regenerate_uuids("(uuid \"a\") (uuid \"b", &fresh(1)).matches("(uuid \"b").count(), 1);
}

#[test]
fn find_block_by_uuid_finds_segment() {
    let (s, e) = find_block_by_uuid(
        BOARD,
        &["segment", "via", "arc"],
        "ffffffff-1111-2222-3333-444444444444",
    )
    .expect("segment found");
    assert!(BOARD[s..e].starts_with("(segment"));
    assert!(find_block_by_uuid(BOARD, &["segment"], "no-such-uuid").is_none());
}

#[test]
fn a_longer_head_is_not_taken_for_a_shorter_one() {
    let text = "(x (vias (uuid \"u\")) (via (uuid \"u\")))";
    let (s, e) = find_block_by_uuid(text, &["via"], "u").unwrap();
    assert_eq!(&text[s..e], "(via (uuid \"u\"))");
}

#[test]
fn footprint_sexp_for_board_prepares_library_block() {
    let id = "Resistor_SMD:R_0402_1005Metric";
    let prepared = prepare_footprint(MOD, id, "R7", "12", "34", "u-0").unwrap();
    let n = prepared.len();
    let span = (0, n);
    assert!(footprint_anchor(&prepared, span).is_ok());
    let board = format!("(kicad_pcb\n{prepared}\n)");
    let places = footprint_places(&board, "R7").unwrap();
    let ats = turned(&places, 90.0);
    let new_ones = fresh(uuid_count(&prepared));
    let block =
        footprint_sexp_for_board(MOD, id, "R7", "12", "34", "u-0", Some(&ats), &new_ones).unwrap();
    assert!(block.contains("(footprint \"Resistor_SMD:R_0402_1005Metric\""));
    assert!(block.contains("(at 12 34 90)"));
    assert!(block.contains("(property \"Reference\" \"R7\""));
    assert!(block.contains("(at -0.51 0 90)"), "pad angle offset by rot");
    assert!(block.contains("(uuid \""));
    assert!(!block.contains("(version"));
    assert!(!block.contains("(generator"));
    assert!(!block.contains("REF**"));
}

#[test]
fn a_library_footprint_is_written_exactly() {
    let text = "(footprint \"P\"\n  (version 1)\n  (property \"Reference\" \"X\")\n)";
    let out = footprint_sexp_for_board(text, "L:P", "U1", "1.5", "2", "new", None, &fresh(1));
    assert_eq!(
        out.unwrap(),
        format!(
            "\n  (footprint \"L:P\"\n    (at 1.5 2)\n    (uuid \"{}\")\n  (property \"Reference\" \"U1\")\n)",
            fresh(1)[0]
        )
    );
}

#[test]
fn every_fault_of_a_library_file_is_told() {
    let try_it = |text: &str| {
        footprint_sexp_for_board(text, "L:P", "U1", "0", "0", "u", None, &fresh(9)).unwrap_err()
    };
    assert_eq!(try_it("(module)"), BoardError::NoFootprintBlock);
    assert_eq!(try_it("(footprint \"P\""), BoardError::Unbalanced);
    assert_eq!(try_it("(footprint P)"), BoardError::NoName);
    assert_eq!(try_it("(footprint \"P\" (descr \"a\"))"), BoardError::NoReference);
    assert_eq!(BoardError::NoName.message(), "Footprint block has no name string");
    assert_eq!(BoardError::Unbalanced.message(), "Unbalanced .kicad_mod content");
    let bare = "(footprint \"P\" (property \"Value\" \"x\"))";
    assert_eq!(
        footprint_set_value_edit("(footprint \"P\")", (0, 15), "v").unwrap_err(),
        BoardError::NoValue
    );
    assert_eq!(
        footprint_move_edit(bare, (0, bare.len()), &at(0.0, 0.0, 0.0)).unwrap_err(),
        BoardError::NoAnchor
    );
    assert_eq!(set_reference_in_block(bare, "R1").unwrap_err(), BoardError::NoReference);
}

#[test]
fn expand_kicad_uri_expands_env_vars() {
    let vars = vec![("KONNECT_TEST_FP_DIR".to_string(), "/tmp/fps".to_string())];
    assert_eq!(
        expand_kicad_uri("${KONNECT_TEST_FP_DIR}/Resistor_SMD.pretty", &vars, None),
        "/tmp/fps/Resistor_SMD.pretty"
    );
}

#[test]
fn unset_variables_fall_back_or_vanish() {
    let none = Vec::new();
    assert_eq!(
        expand_kicad_uri("${KICAD10_FOOTPRINT_DIR}/A.pretty", &none, Some("/usr/share/fp")),
        "/usr/share/fp/A.pretty"
    );
    assert_eq!(expand_kicad_uri("${OTHER}/A.pretty", &none, Some("/usr/share/fp")), "/A.pretty");
    assert_eq!(expand_kicad_uri("plain", &none, None), "plain");
    assert_eq!(expand_kicad_uri("/a/${X", &none, None), "/a/${X");
    let one = vec![("Y".to_string(), "y".to_string())];
    assert_eq!(expand_kicad_uri("${Y}/b/${X", &one, None), "y/b/${X");
}

#[test]
fn library_tables_are_looked_up_by_nickname() {
    let table = "(fp_lib_table\n  (lib (name \"A\") (type \"KiCad\") (uri \"${D}/A.pretty\"))\n  (lib (name \"B\")(uri \"/b\")))";
    assert_eq!(find_table_uri(table, "A"), Some("${D}/A.pretty"));
    assert_eq!(find_table_uri(table, "B"), Some("/b"));
    assert_eq!(find_table_uri(table, "C"), None);
    assert_eq!(split_lib_id("A:x:y"), Some(("A", "x:y")));
    assert_eq!(split_lib_id("A"), None);
    let vars = vec![("D".to_string(), "/d".to_string())];
    let found = footprint_candidates("A:F", Some(table), &vars, None, &vec!["/std".to_string()]);
    assert_eq!(
        found.unwrap(),
        vec![
            vec!["/d/A.pretty".to_string(), "F.kicad_mod".to_string()],
            vec!["/std".to_string(), "A.pretty".to_string(), "F.kicad_mod".to_string()],
        ]
    );
    assert!(footprint_candidates("F", None, &vars, None, &Vec::new()).is_none());
}

#[test]
fn escaped_values_read_back() {
    assert_eq!(escape_sexp_string("a\\b\"c"), "a\\\\b\\\"c");
    let span = (0, 41);
    let text = "(footprint \"P\" (property \"Value\" \"1\\\"2\"))";
    let edit = footprint_set_value_edit(text, span, "x\"y").unwrap();
    let out = apply_edits(text.to_string(), vec![edit]);
    assert_eq!(out, "(footprint \"P\" (property \"Value\" \"x\\\"y\"))");
    let (a, b) = property_value_span(&out, "Value").unwrap();
    assert_eq!(&out[a..b], "x\\\"y");
}

#[test]
fn children_are_the_lists_one_level_down() {
    let text = "(a (b \")(\") x (c (d)))";
    let spans = direct_child_spans(text);
    let kids: Vec<&str> = spans.iter().map(|&(s, e)| &text[s..e]).collect();
    assert_eq!(kids, vec!["(b \")(\")", "(c (d))"]);
    assert_eq!(node_head(kids[0]), "b");
    assert_eq!(node_head("(at)"), "at");
    for (s, e) in spans {
        assert_eq!(find_balanced_block(text, s), Some((s, e)));
    }
}

#[test]
fn a_board_grows_before_its_last_parenthesis() {
    assert_eq!(append_to_board("(a)\n".to_string(), "(b)".to_string()), "(a(b))\n");
    assert_eq!(append_to_board("x".to_string(), "y".to_string()), "xy");
}

#[test]
fn tracks_and_vias_are_written_exactly() {
    assert_eq!(
        format_segment("1", "2", "3", "4.5", "0.25", "F.Cu", 7, "id"),
        "\n  (segment\n    (start 1 2)\n    (end 3 4.5)\n    (width 0.25)\n    (layer \"F.Cu\")\n    (net 7)\n    (uuid \"id\")\n  )"
    );
    assert_eq!(
        format_via("1", "2", "0.8", "0.4", -3, "id"),
        "\n  (via\n    (at 1 2)\n    (size 0.8)\n    (drill 0.4)\n    (layers \"F.Cu\" \"B.Cu\")\n    (net -3)\n    (uuid \"id\")\n  )"
    );
}

#[test]
fn a_reference_with_a_quote_is_found_again() {
    let block = r#"(footprint "L:F" (property "Reference" "R1"))"#;
    let b = set_reference_in_block(block, r#"A"B"#).unwrap();
    assert_eq!(b, r#"(footprint "L:F" (property "Reference" "A\"B"))"#);
    assert_eq!(find_footprint_block(&b, r#"A"B"#), Some((0, b.len())));
    assert_eq!(find_footprint_block(&b, r#"A\"B"#), None);
    assert_eq!(find_footprint_block(&b, "A"), None);
    let c = set_reference_in_block(block, r"A\").unwrap();
    assert_eq!(find_footprint_block(&c, r"A\"), Some((0, c.len())));
}

#[test]
fn a_block_is_found_by_uuid_at_the_top_level_only() {
    let text = "(b (group (segment (uuid \"u\"))) (segment (uuid \"v\")) (segment (uuid \"u\") 2))";
    let (s, e) = find_block_by_uuid(text, &["segment"], "u").unwrap();
    assert_eq!(&text[s..e], "(segment (uuid \"u\") 2)");
    let nested = "(b (group (segment (uuid \"u\"))))";
    assert_eq!(find_block_by_uuid(nested, &["segment", "group"], "u"), Some((3, nested.len() - 1)));
    assert_eq!(find_block_by_uuid(nested, &["segment"], "u"), None);
    // A word in a text is no block.
    let quoted = "(b (title \"(via \") (via (uuid \"u\")))";
    let (s, e) = find_block_by_uuid(quoted, &["via"], "u").unwrap();
    assert_eq!(&quoted[s..e], "(via (uuid \"u\"))");
}

#[test]
fn an_escaped_quote_belongs_to_the_name_of_a_footprint() {
    let m = r#"(footprint "R\"X\"" (version 1) (property "Reference" "REF**"))"#;
    assert_eq!(
        prepare_footprint(m, "L:R", "R7", "1", "2", "u").unwrap(),
        "(footprint \"L:R\"\n    (at 1 2)\n    (uuid \"u\") (property \"Reference\" \"R7\"))"
    );
    let open = r#"(footprint "R\")"#;
    assert!(prepare_footprint(open, "L:R", "R7", "1", "2", "u").is_err());
}
