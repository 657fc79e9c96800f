use lib::json;
use lib::model::{
    format_declared, format_from_str, format_to_str, from_json, is_pivotal, lane_from_str,
    lane_left_col, level_from_str, level_to_str, normalize, region_of, Format, Lane, Level, Model,
    Phase,
};
use lib::number::{y_key, Number};

fn num(text: &str) -> Number {
    json::parse(text).unwrap().as_num().unwrap()
}

fn model_of(src: &str) -> Model {
    from_json(&json::parse(src).unwrap())
}

// ---- F-element-links: element `links` + edge `label` ----------------------------------

#[test]
fn element_links_parse_as_a_string_list_and_default_empty() {
    let m = model_of(
        r#"{"elements":[
            {"id":"E1","type":"event","label":"A","links":["https://t/1","doc://x"]},
            {"id":"E2","type":"event","label":"B"}
        ]}"#,
    );
    assert_eq!(m.elements[0].links, vec!["https://t/1", "doc://x"]);
    assert!(
        m.elements[1].links.is_empty(),
        "no links → empty, not an error"
    );
}

#[test]
fn a_malformed_links_field_is_ignored_not_fatal() {
    // Non-array `links`, and non-string entries within an array, drop silently (additive posture).
    let m = model_of(
        r#"{"elements":[
            {"id":"E1","type":"event","label":"A","links":"nope"},
            {"id":"E2","type":"event","label":"B","links":["ok",7,null,"two"]}
        ]}"#,
    );
    assert!(m.elements[0].links.is_empty());
    assert_eq!(m.elements[1].links, vec!["ok", "two"]);
}

#[test]
fn an_edge_object_form_carries_a_label_the_tuple_form_has_none() {
    let m = model_of(
        r#"{"elements":[
            {"id":"E1","type":"event","label":"A"},
            {"id":"E2","type":"event","label":"B"},
            {"id":"E3","type":"event","label":"C"}
        ],"edges":[
            ["E1","E2"],
            {"src":"E2","dst":"E3","label":"then"}
        ]}"#,
    );
    assert_eq!(m.edges[0].src, "E1");
    assert_eq!(m.edges[0].label, None, "tuple form → no authored label");
    assert_eq!(m.edges[1].src, "E2");
    assert_eq!(m.edges[1].label.as_deref(), Some("then"));
}

// ---- F-es-lint: board level ------------------------------------------------------------

// ---- F-format-tag: board format ---------------------------------------------------------

#[test]
fn an_off_grammar_type_drops_the_element_at_the_parse_boundary() {
    // `type` picks the lane, and there is no ninth lane to put a sticky in. Such an element
    // used to enter the model and be filtered out again by each renderer; now it never becomes
    // an `Element`, which is what makes `colour` / `lane_index` / `lane_prefix` total.
    let m = model_of(
        r#"{"elements":[
            {"id":"E1","type":"event","label":"A"},
            {"id":"W1","type":"widget","label":"B"}]}"#,
    );
    assert_eq!(m.elements.len(), 1);
    assert_eq!(m.elements[0].id, "E1");
    assert_eq!(lane_from_str("widget"), None);
}

#[test]
fn format_defaults_to_event_storming_when_absent() {
    assert_eq!(format_declared(None), Ok(Format::EventStorming));
    assert_eq!(model_of(r#"{"elements":[]}"#).format, Format::EventStorming);
}

#[test]
fn an_explicit_event_storming_format_is_parsed() {
    let m = model_of(r#"{"format":"event-storming","elements":[]}"#);
    assert_eq!(m.format, Format::EventStorming);
}

#[test]
fn an_unrecognised_format_is_an_error_not_the_default() {
    let err = format_declared(Some("bounded-context-canvas")).unwrap_err();
    assert!(err.contains("bounded-context-canvas"), "{}", err);
    assert_eq!(format_from_str("bounded-context-canvas"), None);
}

#[test]
fn format_to_str_is_the_inverse_of_format_from_str() {
    // One variant today, so this reads as a single assertion rather than the loop its `level`
    // sibling uses; `format_to_str` is exhaustive, so a second format cannot skip it.
    let format = Format::EventStorming;
    assert_eq!(format_from_str(format_to_str(format)), Some(format));
}

#[test]
fn level_defaults_to_big_picture_when_absent() {
    let m = model_of(r#"{"elements":[]}"#);
    assert_eq!(m.level, Level::BigPicture);
}

#[test]
fn level_design_is_parsed_from_the_top_level_field() {
    let m = model_of(r#"{"level":"design","elements":[]}"#);
    assert_eq!(m.level, Level::Design);
}

#[test]
fn an_unknown_or_explicit_big_picture_level_falls_back_to_big_picture() {
    assert_eq!(level_from_str("big-picture"), Level::BigPicture);
    assert_eq!(level_from_str("nonsense"), Level::BigPicture);
    assert_eq!(model_of(r#"{"level":"whatever"}"#).level, Level::BigPicture);
}

#[test]
fn level_to_str_is_the_inverse_of_level_from_str() {
    for level in [Level::BigPicture, Level::Design] {
        assert_eq!(level_from_str(level_to_str(level)), level);
    }
}

// ---- F-container Stage 2: spatial membership + derived pivotal -------------------------
// Membership and pivotal are read from geometry, not stored. These pin the two rules the
// later render/UI stages lean on: which band a col is in, and whether an event sits on a border.

#[test]
fn from_json_normalizes_overlapping_bands_into_a_partition() {
    // Overlaps are unrepresentable under F-region-frontiers: `from_json` runs `normalize`, so an
    // "Inner" band nested inside "Outer" resolves deterministically to a contiguous partition —
    // Outer keeps its own [0,9], Inner is swept to the column just past it. Every column is then
    // in exactly one band (no innermost tiebreak needed).
    let m = model_of(
        r#"{"phases":[
            {"id":"K1","label":"Outer","fromCol":0,"toCol":9},
            {"id":"K2","label":"Inner","fromCol":3,"toCol":5}]}"#,
    );
    assert_eq!(m.phases.len(), 2);
    let bounds = |id: &str| {
        m.phases
            .iter()
            .find(|p| p.id == id)
            .map(|p| (p.from_col, p.to_col))
    };
    assert_eq!(bounds("K1"), Some((0, 9)), "outer keeps its span");
    assert_eq!(
        bounds("K2"),
        Some((10, 10)),
        "nested inner swept past outer"
    );
    assert_eq!(
        region_of(&m, 4).map(|p| p.id.as_str()),
        Some("K1"),
        "4 in K1"
    );
    assert_eq!(
        region_of(&m, 10).map(|p| p.id.as_str()),
        Some("K2"),
        "10 in K2"
    );
    assert_eq!(
        region_of(&m, 12).map(|p| p.id.as_str()),
        None,
        "no band covers 12"
    );
    assert_eq!(
        region_of(&Model::default(), 0).map(|p| p.id.as_str()),
        None,
        "no bands"
    );
}

#[test]
fn normalize_is_idempotent_and_gap_free() {
    // A partition is normalize's fixed point; a gapped/overlapping input becomes contiguous.
    let mut ps = vec![
        Phase {
            id: "K1".into(),
            label: "A".into(),
            from_col: 0,
            to_col: 3,
        },
        Phase {
            id: "K3".into(),
            label: "C".into(),
            from_col: 8,
            to_col: 10,
        },
        Phase {
            id: "K2".into(),
            label: "B".into(),
            from_col: 2,
            to_col: 5,
        },
    ];
    normalize(&mut ps);
    let spans: Vec<_> = ps
        .iter()
        .map(|p| (p.id.as_str(), p.from_col, p.to_col))
        .collect();
    assert_eq!(
        spans,
        vec![("K1", 0, 3), ("K2", 4, 5), ("K3", 6, 10)],
        "contiguous, ordered"
    );
    let before = ps.clone();
    normalize(&mut ps);
    let after: Vec<_> = ps
        .iter()
        .map(|p| (p.id.clone(), p.from_col, p.to_col))
        .collect();
    let was: Vec<_> = before
        .iter()
        .map(|p| (p.id.clone(), p.from_col, p.to_col))
        .collect();
    assert_eq!(after, was, "idempotent");
}

#[test]
fn is_pivotal_is_an_event_on_a_band_edge_only() {
    // K1 spans cols 0..=3. An event ON an edge (0 or 3) is pivotal; one inside is not.
    let m = model_of(
        r#"{"phases":[{"id":"K1","label":"A","fromCol":0,"toCol":3}],
            "elements":[
                {"id":"E1","type":"event","label":"OnEdge","col":3},
                {"id":"E2","type":"event","label":"Inside","col":1},
                {"id":"C1","type":"command","label":"AlsoOnEdge","col":3}]}"#,
    );
    let by = |id: &str| m.elements.iter().find(|e| e.id == id).unwrap();
    assert!(
        is_pivotal(&m, by("E1")),
        "event on the band edge is pivotal"
    );
    assert!(!is_pivotal(&m, by("E2")), "event inside the band is not");
    assert!(
        !is_pivotal(&m, by("C1")),
        "type-gated: a command on the edge is not pivotal"
    );
}

// The lane-title `+` aligns a lane's *first* element to the board's existing left column (no
// shift of the other lanes), but a *prepend* into a non-empty lane marches one column further
// left (repeat-safe). Empty board falls back to 0.
#[test]
fn lane_left_col_aligns_a_first_element_but_prepends_within_a_lane() {
    assert_eq!(
        lane_left_col(&Model::default(), Lane::Event),
        0,
        "empty board"
    );
    let m = model_of(
        r#"{"elements":[
            {"id":"E1","type":"event","label":"A","col":3},
            {"id":"E2","type":"event","label":"B","col":5}]}"#,
    );
    // first element of an *empty* lane lands in the board's first column — no shift.
    assert_eq!(
        lane_left_col(&m, Lane::Actor),
        3,
        "empty lane aligns to first col"
    );
    // a *non-empty* lane prepends one column further left.
    assert_eq!(lane_left_col(&m, Lane::Event), 2, "non-empty lane prepends");
    // after one prepend the lowest col is 2; the next must march to 1, not back to 3.
    let m2 = model_of(
        r#"{"elements":[
            {"id":"E1","type":"event","label":"A","col":2},
            {"id":"E2","type":"event","label":"B","col":3}]}"#,
    );
    assert_eq!(lane_left_col(&m2, Lane::Event), 1, "repeat marches left");
}

// The tuple's third slot was the internal diff channel, reachable from an authored file: a
// hand-written `["E1","E3","added"]` painted a green overlay wire on a plain board. It is read
// no more — a tuple is two ids and nothing else.
#[test]
fn an_edge_tuple_is_two_ids_and_nothing_else() {
    let m = model_of(r#"{"edges":[["E1","E3","added"],["E1","E5"]]}"#);
    assert_eq!(m.edges.len(), 2);
    assert!(m.edges.iter().all(|e| e.label.is_none()));
    assert_eq!(
        (m.edges[0].src.as_str(), m.edges[0].dst.as_str()),
        ("E1", "E3")
    );
}

#[test]
fn optional_fields_fall_back_to_defaults() {
    let m = model_of(r#"{"title":"t","elements":[{"id":"E1","type":"event","label":"L"}]}"#);
    assert_eq!(m.title, "t");
    let e = &m.elements[0];
    assert_eq!(e.col, None);
    assert!(!e.resolved);
    assert!(e.detail.is_none());
    assert!(e.y.is_none());
}

#[test]
fn y_key_clamps_and_defaults_to_the_neutral_middle() {
    assert_eq!(y_key(None), num("0.5"));
    assert_eq!(y_key(Some(num("0.2"))), num("0.2"));
    assert_eq!(y_key(Some(num("7.0"))), num("1"), "out-of-range clamps into the stack");
    assert_eq!(y_key(Some(num("-3.0"))), num("0"));
}

#[test]
fn lane_left_col_reaches_the_lowest_column_when_the_lane_is_empty() {
    let mut m = model_of(r#"{"elements":[{"id":"E1","type":"event","label":"A","col":0}]}"#);
    m.elements[0].col = Some(i64::MIN);
    assert_eq!(lane_left_col(&m, Lane::Actor), i64::MIN);
}
