#![allow(dead_code, unused_imports)]
use lib::codec::{parse_event, to_json, to_jsonl};
use lib::comments::{comment_to_events, from_comments};
use lib::event::Event;
use lib::genesis::{compact, from_model};
use lib::json::{self, Json};
use lib::log::parse_log;
use lib::model::{from_json, normalize, Lane, Level};
use lib::number::{from_i64, Number};
use lib::paths::is_log_path;
use lib::replay::replay;
use lib::text::trim_str;

fn ev(line: &str) -> Event {
    parse_event(&json::parse(line).unwrap()).unwrap()
}

fn num(text: &str) -> Number {
    json::parse(text).unwrap().as_num().unwrap()
}

fn ids_of(m: &lib::model::Model) -> Vec<String> {
    m.phases.iter().map(|p| p.id.clone()).collect()
}

struct Lcg(u64);
impl Lcg {
    fn next_u64(&mut self) -> u64 {
        self.0 = self.0.wrapping_mul(6364136223846793005).wrapping_add(1442695040888963407);
        self.0
    }
    fn below(&mut self, n: usize) -> usize {
        (self.next_u64() % n as u64) as usize
    }
}

const TEXTS: [&str; 6] = ["Paid", "ItemAdded", "  spaced  ", "", "   ", "\t"];
const KINDS: [&str; 5] = ["rename", "move", "drop", "comment", "resolve"];

fn gen_comment(rng: &mut Lcg, ids: &[&str]) -> (Json, String) {
    let id = ids[rng.below(ids.len())];
    let kind = KINDS[rng.below(KINDS.len())];
    let text = TEXTS[rng.below(TEXTS.len())];
    let mut o = vec![
        ("elemId".to_string(), Json::Str(id.to_string())),
        ("kind".to_string(), Json::Str(kind.to_string())),
        ("text".to_string(), Json::Str(text.to_string())),
    ];
    if kind == "move" {
        o.push(("col".to_string(), Json::Num(from_i64(rng.below(6) as i64))));
    }
    let v = Json::Obj(o);
    let shown = json::to_string(&v);
    (v, shown)
}

fn genesis() -> (Vec<Event>, Vec<&'static str>) {
    let ids = vec!["E1", "E2", "C1", "A1", "H1"];
    let kinds = [Lane::Event, Lane::Event, Lane::Command, Lane::Aggregate, Lane::Hotspot];
    let evs = ids
        .iter()
        .zip(kinds)
        .map(|(id, k)| Event::ElementAdded {
            id: (*id).to_string(),
            kind: k,
            label: format!("seed-{id}"),
            col: Some(0),
            detail: None,
            y: None,
            links: Vec::new(),
        })
        .collect();
    (evs, ids)
}

#[test]
fn replay_duplicate_phase_added_id_replays_to_a_single_region() {
    let log = parse_log(
        "{\"event\":\"PhaseAdded\",\"id\":\"K1\",\"label\":\"A\",\"fromCol\":0,\"toCol\":3}\n\
         {\"event\":\"PhaseAdded\",\"id\":\"K1\",\"label\":\"B\",\"fromCol\":0,\"toCol\":3}",
    )
    .unwrap();
    assert_eq!(replay(&log).phases.iter().filter(|p| p.id == "K1").count(), 1);
}

#[test]
fn replay_legacy_phase_without_id_replays_to_a_stable_positional_id() {
    let evs = vec![
        ev(r#"{"event":"PhaseAdded","label":"A","fromCol":0,"toCol":2}"#),
        ev(r#"{"event":"PhaseAdded","label":"B","fromCol":3,"toCol":5}"#),
    ];
    let m = replay(&evs);
    assert_eq!(ids_of(&m), ["K1", "K2"]);
}

#[test]
fn replay_region_resize_rename_remove_fold_by_id() {
    let evs = vec![
        ev(r#"{"event":"PhaseAdded","id":"K1","label":"Old","fromCol":0,"toCol":2}"#),
        ev(r#"{"event":"PhaseAdded","id":"K2","label":"Keep","fromCol":3,"toCol":4}"#),
        ev(r#"{"event":"PhaseResized","id":"K1","fromCol":0,"toCol":5}"#),
        ev(r#"{"event":"PhaseRenamed","id":"K1","label":"New"}"#),
        ev(r#"{"event":"PhaseRemoved","id":"K2"}"#),
    ];
    let m = replay(&evs);
    assert_eq!(m.phases.len(), 1, "K2 removed");
    let k1 = &m.phases[0];
    assert_eq!((k1.id.as_str(), k1.label.as_str(), k1.from_col, k1.to_col), ("K1", "New", 0, 5));
}

#[test]
fn replay_synthetic_region_ids_never_reuse_a_freed_suffix() {
    let evs = vec![
        ev(r#"{"event":"PhaseAdded","label":"A","fromCol":0,"toCol":1}"#),
        ev(r#"{"event":"PhaseAdded","label":"B","fromCol":2,"toCol":3}"#),
        ev(r#"{"event":"PhaseRemoved","id":"K1"}"#),
        ev(r#"{"event":"PhaseAdded","label":"C","fromCol":4,"toCol":5}"#),
    ];
    let m = replay(&evs);
    assert_eq!(ids_of(&m), ["K2", "K3"], "the third add must be K3, not a reused K2");
}

#[test]
fn replay_a_synthetic_id_skips_past_an_explicit_one() {
    let evs = vec![
        ev(r#"{"event":"PhaseAdded","id":"K5","label":"Explicit","fromCol":0,"toCol":1}"#),
        ev(r#"{"event":"PhaseAdded","label":"Legacy","fromCol":2,"toCol":3}"#),
    ];
    let m = replay(&evs);
    assert_eq!(m.phases[1].id, "K6", "synthetic id mints one past the highest seen");
}

#[test]
fn replay_region_ops_on_an_unknown_id_are_no_ops() {
    let evs = vec![
        ev(r#"{"event":"PhaseAdded","id":"K1","label":"A","fromCol":0,"toCol":2}"#),
        ev(r#"{"event":"PhaseRenamed","id":"K9","label":"ghost"}"#),
        ev(r#"{"event":"PhaseRemoved","id":"K9"}"#),
    ];
    let m = replay(&evs);
    assert_eq!(m.phases.len(), 1);
    assert_eq!(m.phases[0].label, "A");
}

#[test]
fn replay_frontier_move_end_reborders_the_right_neighbour_atomically() {
    let evs = vec![
        ev(r#"{"event":"PhaseAdded","id":"K1","label":"A","fromCol":0,"toCol":3}"#),
        ev(r#"{"event":"PhaseAdded","id":"K2","label":"B","fromCol":4,"toCol":7}"#),
        ev(r#"{"event":"FrontierMoved","id":"K1","edge":"end","col":5}"#),
    ];
    let m = replay(&evs);
    let span = |i: usize| (m.phases[i].from_col, m.phases[i].to_col);
    assert_eq!(span(0), (0, 5), "A grew right to the new frontier");
    assert_eq!(span(1), (6, 7), "B's start followed");
}

#[test]
fn replay_frontier_move_start_moves_the_board_left_bound() {
    let evs = vec![
        ev(r#"{"event":"PhaseAdded","id":"K1","label":"A","fromCol":0,"toCol":3}"#),
        ev(r#"{"event":"PhaseAdded","id":"K2","label":"B","fromCol":4,"toCol":7}"#),
        ev(r#"{"event":"FrontierMoved","id":"K1","edge":"start","col":-2}"#),
    ];
    let m = replay(&evs);
    assert_eq!((m.phases[0].from_col, m.phases[0].to_col), (-2, 3));
    assert_eq!((m.phases[1].from_col, m.phases[1].to_col), (4, 7));
}

#[test]
fn replay_frontier_move_start_on_a_non_leftmost_phase_is_a_true_noop() {
    let evs = vec![
        ev(r#"{"event":"PhaseAdded","id":"K1","label":"A","fromCol":0,"toCol":3}"#),
        ev(r#"{"event":"PhaseAdded","id":"K2","label":"B","fromCol":4,"toCol":7}"#),
        ev(r#"{"event":"FrontierMoved","id":"K2","edge":"start","col":-9}"#),
    ];
    let m = replay(&evs);
    assert_eq!(ids_of(&m), ["K1", "K2"], "K2's stray start did not reorder the partition");
    assert_eq!((m.phases[0].from_col, m.phases[0].to_col), (0, 3));
    assert_eq!((m.phases[1].from_col, m.phases[1].to_col), (4, 7));
}

#[test]
fn replay_removing_a_board_end_phase_merges_into_the_neighbour() {
    let seed = vec![
        ev(r#"{"event":"PhaseAdded","id":"K1","label":"A","fromCol":0,"toCol":3}"#),
        ev(r#"{"event":"PhaseAdded","id":"K2","label":"B","fromCol":4,"toCol":7}"#),
        ev(r#"{"event":"PhaseAdded","id":"K3","label":"C","fromCol":8,"toCol":11}"#),
    ];
    let mut first = seed.clone();
    first.push(ev(r#"{"event":"PhaseRemoved","id":"K1"}"#));
    let m = replay(&first);
    assert_eq!(ids_of(&m), ["K2", "K3"]);
    assert_eq!((m.phases[0].from_col, m.phases[0].to_col), (0, 7), "K2 absorbed K1's columns");

    let mut last = seed;
    last.push(ev(r#"{"event":"PhaseRemoved","id":"K3"}"#));
    let m = replay(&last);
    assert_eq!(ids_of(&m), ["K1", "K2"]);
    assert_eq!((m.phases[1].from_col, m.phases[1].to_col), (4, 11), "K2 absorbed K3's columns");
}

#[test]
fn replay_phase_split_carves_a_phase_in_two_keeping_a_partition() {
    let evs = vec![
        ev(r#"{"event":"PhaseAdded","id":"K1","label":"Whole","fromCol":0,"toCol":5}"#),
        ev(r#"{"event":"PhaseSplit","id":"K1","atCol":3,"newId":"K2","newLabel":"Right"}"#),
    ];
    let m = replay(&evs);
    assert_eq!(m.phases.len(), 2);
    assert_eq!((m.phases[0].id.as_str(), m.phases[0].from_col, m.phases[0].to_col), ("K1", 0, 2));
    assert_eq!(
        (m.phases[1].id.as_str(), m.phases[1].label.as_str(), m.phases[1].from_col, m.phases[1].to_col),
        ("K2", "Right", 3, 5)
    );
}

#[test]
fn replay_phase_split_outside_the_phase_is_a_no_op() {
    let base = ev(r#"{"event":"PhaseAdded","id":"K1","label":"W","fromCol":0,"toCol":3}"#);
    for at in ["0", "4", "9"] {
        let split = ev(&format!(
            r#"{{"event":"PhaseSplit","id":"K1","atCol":{at},"newId":"K2","newLabel":"R"}}"#
        ));
        let m = replay(&[base.clone(), split]);
        assert_eq!(m.phases.len(), 1, "at_col={at} splits nothing");
        assert_eq!((m.phases[0].from_col, m.phases[0].to_col), (0, 3));
    }
}

#[test]
fn replay_removing_a_middle_phase_leaves_no_hole() {
    let evs = vec![
        ev(r#"{"event":"PhaseAdded","id":"K1","label":"A","fromCol":0,"toCol":3}"#),
        ev(r#"{"event":"PhaseAdded","id":"K2","label":"B","fromCol":4,"toCol":7}"#),
        ev(r#"{"event":"PhaseAdded","id":"K3","label":"C","fromCol":8,"toCol":11}"#),
        ev(r#"{"event":"PhaseRemoved","id":"K2"}"#),
    ];
    let m = replay(&evs);
    assert_eq!(ids_of(&m), ["K1", "K3"]);
    assert_eq!((m.phases[0].from_col, m.phases[0].to_col), (0, 3));
    assert_eq!((m.phases[1].from_col, m.phases[1].to_col), (4, 11));
}

#[test]
fn replay_replay_builds_the_board_the_events_describe() {
    let log = [
        ev(r#"{"event":"BoardTitled","title":"T"}"#),
        ev(r#"{"event":"ElementAdded","id":"E1","type":"event","label":"Born","col":1}"#),
        ev(r#"{"event":"ElementAdded","id":"E2","type":"command","label":"Do","col":0}"#),
        ev(r#"{"event":"ElementRenamed","id":"E1","label":"Reborn"}"#),
        ev(r#"{"event":"ElementMoved","id":"E2","col":3}"#),
        ev(r#"{"event":"EdgeAdded","src":"E2","dst":"E1"}"#),
    ];
    let m = replay(&log);
    assert_eq!(m.title, "T");
    let e1 = m.elements.iter().find(|e| e.id == "E1").unwrap();
    assert_eq!(e1.label, "Reborn");
    let e2 = m.elements.iter().find(|e| e.id == "E2").unwrap();
    assert_eq!(e2.col, Some(3));
    assert_eq!(m.edges.len(), 1);
}

#[test]
fn replay_resolving_a_hotspot_flips_state_and_records_the_note() {
    let log = [
        ev(r#"{"event":"ElementAdded","id":"H1","type":"hotspot","label":"open?"}"#),
        ev(r#"{"event":"HotspotResolved","id":"H1","resolution":"settled"}"#),
    ];
    let h = &replay(&log).elements[0];
    assert!(h.resolved);
    assert_eq!(h.detail.as_deref(), Some("settled"));
}

#[test]
fn replay_remove_drops_the_element_and_its_edges() {
    let log = [
        ev(r#"{"event":"ElementAdded","id":"E1","type":"event","label":"A"}"#),
        ev(r#"{"event":"ElementAdded","id":"E2","type":"event","label":"B"}"#),
        ev(r#"{"event":"EdgeAdded","src":"E1","dst":"E2"}"#),
        ev(r#"{"event":"ElementRemoved","id":"E1"}"#),
    ];
    let m = replay(&log);
    assert_eq!(m.elements.len(), 1);
    assert!(m.edges.is_empty());
}

#[test]
fn replay_replay_sets_the_model_level_from_board_leveled() {
    let m = replay(&[ev(r#"{"event":"BoardLeveled","level":"design"}"#)]);
    assert_eq!(m.level, Level::Design);
}

#[test]
fn replay_replay_applies_y_and_a_col_only_move_preserves_it() {
    let log = [
        ev(r#"{"event":"ElementAdded","id":"E1","type":"event","label":"A","col":0}"#),
        ev(r#"{"event":"ElementMoved","id":"E1","y":0.8}"#),
        ev(r#"{"event":"ElementMoved","id":"E1","col":3}"#),
    ];
    let e1 = &replay(&log).elements[0];
    assert_eq!(e1.col, Some(3));
    assert_eq!(e1.y, Some(num("0.8")), "a col-only nudge must not reset the Y");
}

