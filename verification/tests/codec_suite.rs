use lib::codec::{is_known_kind, parse_event, to_json};
use lib::event::Event;
use lib::json::{self, Json};
use lib::model::Lane;
use lib::number::Number;
use lib::replay::replay;

fn ev(line: &str) -> Event {
    parse_event(&json::parse(line).unwrap()).unwrap()
}

fn num(text: &str) -> Number {
    json::parse(text).unwrap().as_num().unwrap()
}

fn one_of_every_variant() -> Vec<Event> {
    vec![
        Event::BoardTitled { title: "t".into() },
        Event::BoardFormat { format: "event-storming".into() },
        Event::BoardLeveled { level: "design".into() },
        Event::PhaseAdded { id: Some("K1".into()), label: "a".into(), from_col: 0, to_col: 1 },
        Event::PhaseResized { id: "K1".into(), from_col: 0, to_col: 1 },
        Event::PhaseRenamed { id: "K1".into(), label: "a".into() },
        Event::PhaseRemoved { id: "K1".into() },
        Event::FrontierMoved { id: "K1".into(), edge: "end".into(), col: 1 },
        Event::PhaseSplit { id: "K1".into(), at_col: 1, new_id: "K2".into(), new_label: "b".into() },
        Event::ElementAdded {
            id: "E1".into(),
            kind: Lane::Event,
            label: "a".into(),
            col: None,
            detail: None,
            y: None,
            links: Vec::new(),
        },
        Event::ElementRenamed { id: "E1".into(), label: "a".into() },
        Event::ElementMoved { id: "E1".into(), col: None, kind: None, y: None },
        Event::ElementAnnotated { id: "E1".into(), text: "x".into() },
        Event::HotspotResolved { id: "H1".into(), resolution: "r".into() },
        Event::ElementRemoved { id: "E1".into() },
        Event::EdgeAdded { src: "E1".into(), dst: "E2".into(), label: None },
        Event::EdgeRemoved { src: "E1".into(), dst: "E2".into() },
        Event::LogCompacted { folded: 3 },
    ]
}

fn emitted_kind(ev: &Event) -> String {
    to_json(ev).get("event").and_then(Json::as_str).expect("to_json emits an `event` kind").to_string()
}

#[test]
fn every_kind_to_json_emits_is_known() {
    for ev in &one_of_every_variant() {
        let kind = emitted_kind(ev);
        assert!(is_known_kind(&kind), "add {kind:?} to the known kinds");
    }
    for legacy in ["CommentAdded", "Comment"] {
        assert!(is_known_kind(legacy));
    }
}

#[test]
fn every_variant_is_a_serialize_parse_fixed_point() {
    for ev in &one_of_every_variant() {
        assert_eq!(parse_event(&to_json(ev)).as_ref(), Ok(ev), "{} does not round-trip", emitted_kind(ev));
    }
}

#[test]
fn codec_phase_added_round_trips_its_id() {
    let e = ev(r#"{"event":"PhaseAdded","id":"K1","label":"Checkout","fromCol":0,"toCol":3}"#);
    assert!(matches!(&e, Event::PhaseAdded { id: Some(id), label, .. }
        if id == "K1" && label == "Checkout"));
    assert_eq!(json::to_string(&to_json(&ev(&lib::codec::line(&e)))), json::to_string(&to_json(&e)));
}

#[test]
fn codec_frontier_and_split_events_round_trip() {
    for text in [
        r#"{"event":"FrontierMoved","id":"K1","edge":"end","col":5}"#,
        r#"{"event":"FrontierMoved","id":"K1","edge":"start","col":-2}"#,
        r#"{"event":"PhaseSplit","id":"K1","atCol":3,"newId":"K2","newLabel":"Right"}"#,
    ] {
        let e = ev(text);
        assert_eq!(lib::codec::line(&e), text, "canonical serialize round-trips");
        assert_eq!(ev(&lib::codec::line(&e)), e, "reparse round-trips");
    }
}

#[test]
fn codec_legacy_comment_kind_upcasts_to_element_annotated() {
    let log = [
        ev(r#"{"event":"ElementAdded","id":"E1","type":"event","label":"A"}"#),
        ev(r#"{"event":"CommentAdded","id":"E1","text":"from an old log"}"#),
        ev(r#"{"event":"Comment","id":"E1","text":"older still"}"#),
    ];
    assert!(matches!(&log[1], Event::ElementAnnotated { id, text }
        if id == "E1" && text == "from an old log"));
    assert!(matches!(&log[2], Event::ElementAnnotated { .. }));
    assert_eq!(replay(&log).elements[0].detail.as_deref(), Some("older still"));
}

#[test]
fn codec_unknown_fields_on_a_known_event_are_ignored() {
    let e = ev(r#"{"event":"ElementAdded","id":"E1","type":"event","label":"A","fromTheFuture":42}"#);
    assert!(matches!(e, Event::ElementAdded { id, .. } if id == "E1"));
}

#[test]
fn codec_events_serialize_to_canonical_jsonl_and_reparse() {
    let written =
        ev(r#"{"event":"ElementAdded","id":"E1","type":"event","label":"A","col":2,"detail":"d"}"#);
    assert_eq!(ev(&lib::codec::line(&written)), written);
    let moved = Event::ElementMoved { id: "E1".into(), col: Some(4), kind: None, y: None };
    assert_eq!(lib::codec::line(&moved), r#"{"event":"ElementMoved","id":"E1","col":4}"#);
}

#[test]
fn codec_element_moved_round_trips_its_y() {
    let e = ev(r#"{"event":"ElementMoved","id":"E1","y":0.35}"#);
    let want = num("0.35");
    assert!(matches!(&e, Event::ElementMoved { id, col: None, y: Some(y), .. }
        if id == "E1" && *y == want));
    assert_eq!(lib::codec::line(&e), r#"{"event":"ElementMoved","id":"E1","y":0.35}"#);
}
