use lib::extract::{extract, Selector};
use lib::json;
use lib::model::{from_json, Model};

/// A three-region board: K1 (0..1) actor→command, K2 (2..4) the order flow, K3 (5..6) a tail.
const BOARD: &str = r#"{
    "title":"Orders",
    "phases":[
        {"id":"K1","label":"Browse","fromCol":0,"toCol":1},
        {"id":"K2","label":"Order","fromCol":2,"toCol":4},
        {"id":"K3","label":"Ship","fromCol":5,"toCol":6}
    ],
    "elements":[
        {"id":"A1","type":"actor","label":"Buyer","col":0},
        {"id":"C1","type":"command","label":"Place order","col":2},
        {"id":"E1","type":"event","label":"Order placed","col":3},
        {"id":"P1","type":"policy","label":"On order","col":4},
        {"id":"E2","type":"event","label":"Shipped","col":5},
        {"id":"H1","type":"hotspot","label":"VAT?","col":6},
        {"id":"H2","type":"hotspot","label":"refunds?","col":0}
    ],
    "edges":[["A1","C1"],["C1","E1"],["E1","P1"],["P1","E2"],["E2","H1"]]
}"#;

fn board() -> Model {
    from_json(&json::parse(BOARD).unwrap())
}

fn ids(m: &Model) -> Vec<&str> {
    m.elements.iter().map(|e| e.id.as_str()).collect()
}

// ---- by region -----------------------------------------------------------------------

#[test]
fn region_takes_the_elements_whose_col_falls_in_the_band() {
    let sub = extract(&board(), &Selector::Region("K2".into())).unwrap();
    assert_eq!(ids(&sub), ["C1", "E1", "P1"]);
}

#[test]
fn region_keeps_its_band_clipped_to_the_survivors() {
    let sub = extract(&board(), &Selector::Region("K2".into())).unwrap();
    assert_eq!(sub.phases.len(), 1, "only the selected band survives");
    assert_eq!(sub.phases[0].id, "K2", "the region keeps its identity");
    assert_eq!((sub.phases[0].from_col, sub.phases[0].to_col), (2, 4));
}

/// A `col`-less element is *drawn* somewhere — the board assigns it a column in file order —
/// so the cut has to see it there. Judged on the raw `col` it belonged to no band at all, and
/// `--region` silently dropped a sticky the user could see inside the band.
#[test]
fn region_sees_col_less_elements_where_the_board_draws_them() {
    let m = from_json(
        &json::parse(
            r#"{"phases":[{"id":"K1","label":"a","fromCol":0,"toCol":0},
                          {"id":"K2","label":"b","fromCol":1,"toCol":9}],
                "elements":[{"id":"E1","type":"event","label":"first"},
                            {"id":"E2","type":"event","label":"second"},
                            {"id":"E3","type":"event","label":"pinned","col":5}]}"#,
        )
        .unwrap(),
    );
    // Auto-assignment gives E1 col 0 (K1) and E2 col 1 (K2) — file order, counting from 0.
    assert_eq!(
        ids(&extract(&m, &Selector::Region("K1".into())).unwrap()),
        ["E1"]
    );
    let k2 = extract(&m, &Selector::Region("K2".into())).unwrap();
    assert_eq!(ids(&k2), ["E2", "E3"]);
}

/// …and the placement the cut was made on is written out, or the smaller board would re-derive
/// a different one from its own element order and the sticky would move.
#[test]
fn an_auto_assigned_column_is_materialised_onto_the_extract() {
    let m = from_json(
        &json::parse(
            r#"{"phases":[{"id":"K1","label":"a","fromCol":0,"toCol":9}],
                "elements":[{"id":"E1","type":"event","label":"first"},
                            {"id":"H1","type":"hotspot","label":"q"},
                            {"id":"E2","type":"event","label":"third"}]}"#,
        )
        .unwrap(),
    );
    let sub = extract(&m, &Selector::Kind("event".into())).unwrap();
    assert_eq!(
        sub.elements
            .iter()
            .map(|e| (e.id.as_str(), e.col))
            .collect::<Vec<_>>(),
        [("E1", Some(0)), ("E2", Some(2))],
        "E2 keeps column 2 — re-deriving in the sub-board would have made it 1"
    );
}

#[test]
fn an_unknown_region_is_an_error_not_an_empty_board() {
    let err = extract(&board(), &Selector::Region("K9".into())).unwrap_err();
    assert!(err.contains("K9"), "{err}");
    assert!(
        err.contains("K1, K2, K3"),
        "names the ones that exist: {err}"
    );
}

// ---- by neighbourhood ----------------------------------------------------------------

#[test]
fn focus_zero_hops_is_the_element_alone() {
    let sel = Selector::Focus {
        id: "E1".into(),
        hops: 0,
    };
    let sub = extract(&board(), &sel).unwrap();
    assert_eq!(ids(&sub), ["E1"]);
    assert!(sub.edges.is_empty(), "no edge has both endpoints inside");
}

#[test]
fn focus_walks_edges_in_both_directions() {
    let sel = Selector::Focus {
        id: "E1".into(),
        hops: 1,
    };
    let sub = extract(&board(), &sel).unwrap();
    // C1 is upstream, P1 downstream — an event's producer is as much its neighbour as its
    // consumer, so a directed walk would be the wrong reading.
    assert_eq!(ids(&sub), ["C1", "E1", "P1"]);
}

#[test]
fn focus_hops_bound_the_walk() {
    let two = extract(
        &board(),
        &Selector::Focus {
            id: "E1".into(),
            hops: 2,
        },
    )
    .unwrap();
    assert_eq!(ids(&two), ["A1", "C1", "E1", "P1", "E2"]);
    assert!(!ids(&two).contains(&"H1"), "H1 is three hops out");
}

#[test]
fn focus_on_an_unknown_element_is_an_error() {
    let sel = Selector::Focus {
        id: "E9".into(),
        hops: 1,
    };
    assert!(extract(&board(), &sel).unwrap_err().contains("E9"));
}

#[test]
fn a_dangling_edge_cannot_drag_a_phantom_id_in() {
    let mut m = board();
    m.edges.push(lib::model::Edge {
        src: "E1".into(),
        dst: "GHOST".into(),
        label: None,
    });
    let sub = extract(
        &m,
        &Selector::Focus {
            id: "E1".into(),
            hops: 1,
        },
    )
    .unwrap();
    assert_eq!(ids(&sub), ["C1", "E1", "P1"]);
}

// ---- by lane -------------------------------------------------------------------------

#[test]
fn kind_takes_one_lane_across_the_whole_timeline() {
    let sub = extract(&board(), &Selector::Kind("hotspot".into())).unwrap();
    assert_eq!(ids(&sub), ["H1", "H2"]);
}

#[test]
fn scattered_survivors_keep_every_band_they_touch_as_a_partition() {
    // H2 sits in K1 (col 0), H1 in K3 (col 6) — K2 spans between them and is kept too, since
    // the clipped span is 0..6. `normalize` guarantees the result is still a partition.
    let sub = extract(&board(), &Selector::Kind("hotspot".into())).unwrap();
    assert_eq!(
        sub.phases.iter().map(|p| p.id.as_str()).collect::<Vec<_>>(),
        ["K1", "K2", "K3"]
    );
    for pair in sub.phases.windows(2) {
        assert_eq!(
            pair[1].from_col,
            pair[0].to_col + 1,
            "bands stay gap-free and overlap-free"
        );
    }
}

#[test]
fn an_empty_lane_is_an_error() {
    let err = extract(&board(), &Selector::Kind("readmodel".into())).unwrap_err();
    assert!(err.contains("matched no elements"), "{err}");
}

// ---- what every extract owes ---------------------------------------------------------

#[test]
fn ids_and_cols_are_preserved_so_the_extract_diffs_cleanly() {
    let m = board();
    let sub = extract(&m, &Selector::Region("K2".into())).unwrap();
    for e in &sub.elements {
        let origin = m.elements.iter().find(|o| o.id == e.id).unwrap();
        assert_eq!(e, origin, "an extracted element is the board's own, verbatim");
    }
}

#[test]
fn an_edge_leaving_the_selection_is_dropped() {
    let sub = extract(&board(), &Selector::Region("K2".into())).unwrap();
    let wires: Vec<_> = sub
        .edges
        .iter()
        .map(|e| (e.src.as_str(), e.dst.as_str()))
        .collect();
    // A1→C1 and P1→E2 cross the cut; only the interior wires survive.
    assert_eq!(wires, [("C1", "E1"), ("E1", "P1")]);
}

#[test]
fn the_title_says_where_the_board_came_from() {
    let sub = extract(&board(), &Selector::Region("K2".into())).unwrap();
    assert_eq!(sub.title, "Orders · region K2");
}

#[test]
fn the_level_is_inherited_so_lint_stays_as_strict() {
    let mut m = board();
    m.level = lib::model::Level::Design;
    let sub = extract(&m, &Selector::Region("K2".into())).unwrap();
    assert_eq!(sub.level, lib::model::Level::Design);
}

#[test]
fn a_board_with_no_regions_extracts_without_any() {
    let m = from_json(
        &json::parse(r#"{"elements":[{"id":"E1","type":"event","label":"a"}]}"#).unwrap(),
    );
    let sub = extract(&m, &Selector::Kind("event".into())).unwrap();
    assert_eq!(ids(&sub), ["E1"]);
    assert!(sub.phases.is_empty(), "nothing to keep");
}

// ---- naming --------------------------------------------------------------------------

#[test]
fn slugs_are_plain_filename_fragments() {
    assert_eq!(Selector::Region("K2".into()).slug(), "K2");
    assert_eq!(
        Selector::Focus {
            id: "E4".into(),
            hops: 2
        }
        .slug(),
        "E4-h2"
    );
    assert_eq!(Selector::Kind("read model".into()).slug(), "read-model");
    assert_eq!(
        Selector::Region("../etc".into()).slug(),
        "---etc",
        "a path separator can never survive into the output filename"
    );
}
