#![allow(dead_code, unused_imports)]
use lib::codec::{parse_event, to_json, to_jsonl};
use lib::comments::{comment_to_events, from_comments};
use lib::event::Event;
use lib::genesis::{compact, from_model};
use lib::json::{self, Json};
use lib::log::parse_log;
use lib::model::{from_json, normalize, Lane, Level};
use lib::number::{from_i64, Number};
use lib::paths::is_log_path;
use lib::replay::replay;
use lib::text::trim_str;

fn ev(line: &str) -> Event {
    parse_event(&json::parse(line).unwrap()).unwrap()
}

fn num(text: &str) -> Number {
    json::parse(text).unwrap().as_num().unwrap()
}

fn ids_of(m: &lib::model::Model) -> Vec<String> {
    m.phases.iter().map(|p| p.id.clone()).collect()
}

struct Lcg(u64);
impl Lcg {
    fn next_u64(&mut self) -> u64 {
        self.0 = self.0.wrapping_mul(6364136223846793005).wrapping_add(1442695040888963407);
        self.0
    }
    fn below(&mut self, n: usize) -> usize {
        (self.next_u64() % n as u64) as usize
    }
}

const TEXTS: [&str; 6] = ["Paid", "ItemAdded", "  spaced  ", "", "   ", "\t"];
const KINDS: [&str; 5] = ["rename", "move", "drop", "comment", "resolve"];

fn gen_comment(rng: &mut Lcg, ids: &[&str]) -> (Json, String) {
    let id = ids[rng.below(ids.len())];
    let kind = KINDS[rng.below(KINDS.len())];
    let text = TEXTS[rng.below(TEXTS.len())];
    let mut o = vec![
        ("elemId".to_string(), Json::Str(id.to_string())),
        ("kind".to_string(), Json::Str(kind.to_string())),
        ("text".to_string(), Json::Str(text.to_string())),
    ];
    if kind == "move" {
        o.push(("col".to_string(), Json::Num(from_i64(rng.below(6) as i64))));
    }
    let v = Json::Obj(o);
    let shown = json::to_string(&v);
    (v, shown)
}

fn genesis() -> (Vec<Event>, Vec<&'static str>) {
    let ids = vec!["E1", "E2", "C1", "A1", "H1"];
    let kinds = [Lane::Event, Lane::Event, Lane::Command, Lane::Aggregate, Lane::Hotspot];
    let evs = ids
        .iter()
        .zip(kinds)
        .map(|(id, k)| Event::ElementAdded {
            id: (*id).to_string(),
            kind: k,
            label: format!("seed-{id}"),
            col: Some(0),
            detail: None,
            y: None,
            links: Vec::new(),
        })
        .collect();
    (evs, ids)
}

#[test]
fn from_model_then_replay_preserves_links_and_edge_label() {
    let src = r#"{
        "elements":[
            {"id":"E1","type":"event","label":"Made","links":["https://tix/42","adr://7"]},
            {"id":"E2","type":"command","label":"Do"}
        ],
        "edges":[{"src":"E2","dst":"E1","label":"causes"}]
    }"#;
    let written = from_json(&json::parse(src).unwrap());
    let rebuilt = replay(&from_model(&written));
    let e1 = rebuilt.elements.iter().find(|e| e.id == "E1").unwrap();
    assert_eq!(e1.links, vec!["https://tix/42", "adr://7"]);
    assert_eq!(rebuilt.elements.iter().find(|e| e.id == "E2").unwrap().links, Vec::<String>::new());
    assert_eq!(rebuilt.edges[0].label.as_deref(), Some("causes"));
}

#[test]
fn from_model_emits_no_board_format_for_the_default_format() {
    let es = from_json(&json::parse(r#"{"format":"event-storming","elements":[]}"#).unwrap());
    assert_eq!(es.format, lib::model::Format::EventStorming);
    assert!(!from_model(&es).iter().any(|e| matches!(e, Event::BoardFormat { .. })));
}

#[test]
fn a_board_format_event_replays_and_survives_compaction() {
    let log = vec![Event::BoardFormat { format: "event-storming".into() }];
    assert_eq!(replay(&log).format, lib::model::Format::EventStorming);
    assert_eq!(replay(&compact(&log)).format, lib::model::Format::EventStorming);
}

#[test]
fn genesis_from_model_emits_region_ids_so_genesis_round_trips() {
    let log = vec![
        ev(r#"{"event":"PhaseAdded","id":"K1","label":"A","fromCol":0,"toCol":2}"#),
        ev(r#"{"event":"PhaseResized","id":"K1","fromCol":0,"toCol":9}"#),
    ];
    let folded = compact(&log);
    let m = replay(&folded);
    assert_eq!(m.phases[0].id, "K1");
    assert_eq!(m.phases[0].to_col, 9, "resize survives the fold");
}

#[test]
fn genesis_from_model_then_replay_round_trips() {
    let src = r#"{
        "title":"Round Trip",
        "phases":[{"label":"p","fromCol":0,"toCol":2}],
        "elements":[
            {"id":"E1","type":"event","label":"Made","col":1},
            {"id":"E2","type":"command","label":"Do","col":0,"detail":"a note"},
            {"id":"H1","type":"hotspot","label":"q","col":2,"resolved":true,"detail":"done"}
        ],
        "edges":[["E2","E1"]]
    }"#;
    let written = from_json(&json::parse(src).unwrap());
    let rebuilt = replay(&from_model(&written));
    assert_eq!(rebuilt.title, written.title);
    assert_eq!(rebuilt.phases.len(), 1);
    assert_eq!(rebuilt.elements.len(), 3);
    assert_eq!(rebuilt.edges.len(), 1);
    let h1 = rebuilt.elements.iter().find(|e| e.id == "H1").unwrap();
    assert!(h1.resolved);
    assert_eq!(h1.detail.as_deref(), Some("done"));
    let e2 = rebuilt.elements.iter().find(|e| e.id == "E2").unwrap();
    assert_eq!(e2.detail.as_deref(), Some("a note"));
}

#[test]
fn genesis_from_model_emits_board_leveled_only_for_a_design_board() {
    let design = from_json(&json::parse(r#"{"level":"design","elements":[]}"#).unwrap());
    let batch = from_model(&design);
    assert_eq!(batch.iter().filter(|e| matches!(e, Event::BoardLeveled { .. })).count(), 1);
    assert_eq!(replay(&batch).level, Level::Design);
    let big = from_json(&json::parse(r#"{"elements":[]}"#).unwrap());
    assert!(!from_model(&big).iter().any(|e| matches!(e, Event::BoardLeveled { .. })));
}

#[test]
fn genesis_a_design_board_survives_compaction() {
    let design = from_json(&json::parse(r#"{"level":"design","elements":[]}"#).unwrap());
    let folded = compact(&from_model(&design));
    assert_eq!(replay(&folded).level, Level::Design);
}

#[test]
fn genesis_compact_preserves_the_projection_and_folds_history() {
    let log = [
        ev(r#"{"event":"BoardTitled","title":"T"}"#),
        ev(r#"{"event":"ElementAdded","id":"E1","type":"event","label":"Born","col":1}"#),
        ev(r#"{"event":"ElementRenamed","id":"E1","label":"Reborn"}"#),
        ev(r#"{"event":"ElementAnnotated","id":"E1","text":"a note"}"#),
        ev(r#"{"event":"ElementAdded","id":"H1","type":"hotspot","label":"q"}"#),
        ev(r#"{"event":"HotspotResolved","id":"H1","resolution":"settled"}"#),
    ];
    let folded = compact(&log);
    assert!(matches!(folded[0], Event::LogCompacted { folded: 6 }));
    let reparsed = parse_log(&to_jsonl(&folded)).unwrap();
    assert!(matches!(reparsed[0], Event::LogCompacted { folded: 6 }));
    assert!(folded.len() < log.len());
    let (before, after) = (replay(&log), replay(&folded));
    assert_eq!(after.title, before.title);
    let e1 = after.elements.iter().find(|e| e.id == "E1").unwrap();
    assert_eq!(e1.label, "Reborn");
    assert_eq!(e1.detail.as_deref(), Some("a note"));
    let h1 = after.elements.iter().find(|e| e.id == "H1").unwrap();
    assert!(h1.resolved);
    assert_eq!(h1.detail.as_deref(), Some("settled"));
}

#[test]
fn genesis_compacting_twice_leaves_the_snapshot_stable() {
    let log = [
        ev(r#"{"event":"ElementAdded","id":"E1","type":"event","label":"A","col":0}"#),
        ev(r#"{"event":"ElementMoved","id":"E1","col":2}"#),
    ];
    let once = compact(&log);
    let twice = compact(&once);
    assert_eq!(to_jsonl(&once[1..]), to_jsonl(&twice[1..]));
}

#[test]
fn genesis_a_placed_elements_y_survives_compact() {
    let log = [
        ev(r#"{"event":"ElementAdded","id":"E1","type":"event","label":"A","col":0}"#),
        ev(r#"{"event":"ElementMoved","id":"E1","y":0.25}"#),
    ];
    let folded = compact(&log);
    let reparsed = parse_log(&to_jsonl(&folded)).unwrap();
    assert_eq!(replay(&reparsed).elements[0].y, Some(num("0.25")));
}

