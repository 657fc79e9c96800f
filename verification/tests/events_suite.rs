use lib::codec::{parse_event, to_json, to_jsonl};
use lib::comments::{comment_to_events, from_comments};
use lib::event::Event;
use lib::genesis::{compact, from_model};
use lib::json::{self, Json};
use lib::log::parse_log;
use lib::model::{from_json, normalize, Lane, Level};
use lib::number::{from_i64, Number};
use lib::paths::is_log_path;
use lib::replay::replay;
use lib::text::trim_str;

fn ev(line: &str) -> Event {
    parse_event(&json::parse(line).unwrap()).unwrap()
}

fn num(text: &str) -> Number {
    json::parse(text).unwrap().as_num().unwrap()
}

fn ids_of(m: &lib::model::Model) -> Vec<String> {
    m.phases.iter().map(|p| p.id.clone()).collect()
}

#[test]
fn tests_duplicate_phase_added_id_replays_to_a_single_region() {
    let log = parse_log(
        "{\"event\":\"PhaseAdded\",\"id\":\"K1\",\"label\":\"A\",\"fromCol\":0,\"toCol\":3}\n\
         {\"event\":\"PhaseAdded\",\"id\":\"K1\",\"label\":\"B\",\"fromCol\":0,\"toCol\":3}",
    )
    .unwrap();
    assert_eq!(replay(&log).phases.iter().filter(|p| p.id == "K1").count(), 1);
}

#[test]
fn tests_phase_added_round_trips_its_id() {
    let e = ev(r#"{"event":"PhaseAdded","id":"K1","label":"Checkout","fromCol":0,"toCol":3}"#);
    assert!(matches!(&e, Event::PhaseAdded { id: Some(id), label, .. }
        if id == "K1" && label == "Checkout"));
    assert_eq!(json::to_string(&to_json(&ev(&lib::codec::line(&e)))), json::to_string(&to_json(&e)));
}

#[test]
fn tests_legacy_phase_without_id_replays_to_a_stable_positional_id() {
    let evs = vec![
        ev(r#"{"event":"PhaseAdded","label":"A","fromCol":0,"toCol":2}"#),
        ev(r#"{"event":"PhaseAdded","label":"B","fromCol":3,"toCol":5}"#),
    ];
    let m = replay(&evs);
    assert_eq!(ids_of(&m), ["K1", "K2"]);
}

#[test]
fn tests_region_resize_rename_remove_fold_by_id() {
    let evs = vec![
        ev(r#"{"event":"PhaseAdded","id":"K1","label":"Old","fromCol":0,"toCol":2}"#),
        ev(r#"{"event":"PhaseAdded","id":"K2","label":"Keep","fromCol":3,"toCol":4}"#),
        ev(r#"{"event":"PhaseResized","id":"K1","fromCol":0,"toCol":5}"#),
        ev(r#"{"event":"PhaseRenamed","id":"K1","label":"New"}"#),
        ev(r#"{"event":"PhaseRemoved","id":"K2"}"#),
    ];
    let m = replay(&evs);
    assert_eq!(m.phases.len(), 1, "K2 removed");
    let k1 = &m.phases[0];
    assert_eq!((k1.id.as_str(), k1.label.as_str(), k1.from_col, k1.to_col), ("K1", "New", 0, 5));
}

#[test]
fn tests_synthetic_region_ids_never_reuse_a_freed_suffix() {
    let evs = vec![
        ev(r#"{"event":"PhaseAdded","label":"A","fromCol":0,"toCol":1}"#),
        ev(r#"{"event":"PhaseAdded","label":"B","fromCol":2,"toCol":3}"#),
        ev(r#"{"event":"PhaseRemoved","id":"K1"}"#),
        ev(r#"{"event":"PhaseAdded","label":"C","fromCol":4,"toCol":5}"#),
    ];
    let m = replay(&evs);
    assert_eq!(ids_of(&m), ["K2", "K3"], "the third add must be K3, not a reused K2");
}

#[test]
fn tests_a_synthetic_id_skips_past_an_explicit_one() {
    let evs = vec![
        ev(r#"{"event":"PhaseAdded","id":"K5","label":"Explicit","fromCol":0,"toCol":1}"#),
        ev(r#"{"event":"PhaseAdded","label":"Legacy","fromCol":2,"toCol":3}"#),
    ];
    let m = replay(&evs);
    assert_eq!(m.phases[1].id, "K6", "synthetic id mints one past the highest seen");
}

#[test]
fn tests_region_ops_on_an_unknown_id_are_no_ops() {
    let evs = vec![
        ev(r#"{"event":"PhaseAdded","id":"K1","label":"A","fromCol":0,"toCol":2}"#),
        ev(r#"{"event":"PhaseRenamed","id":"K9","label":"ghost"}"#),
        ev(r#"{"event":"PhaseRemoved","id":"K9"}"#),
    ];
    let m = replay(&evs);
    assert_eq!(m.phases.len(), 1);
    assert_eq!(m.phases[0].label, "A");
}

#[test]
fn tests_frontier_move_end_reborders_the_right_neighbour_atomically() {
    let evs = vec![
        ev(r#"{"event":"PhaseAdded","id":"K1","label":"A","fromCol":0,"toCol":3}"#),
        ev(r#"{"event":"PhaseAdded","id":"K2","label":"B","fromCol":4,"toCol":7}"#),
        ev(r#"{"event":"FrontierMoved","id":"K1","edge":"end","col":5}"#),
    ];
    let m = replay(&evs);
    let span = |i: usize| (m.phases[i].from_col, m.phases[i].to_col);
    assert_eq!(span(0), (0, 5), "A grew right to the new frontier");
    assert_eq!(span(1), (6, 7), "B's start followed");
}

#[test]
fn tests_frontier_move_start_moves_the_board_left_bound() {
    let evs = vec![
        ev(r#"{"event":"PhaseAdded","id":"K1","label":"A","fromCol":0,"toCol":3}"#),
        ev(r#"{"event":"PhaseAdded","id":"K2","label":"B","fromCol":4,"toCol":7}"#),
        ev(r#"{"event":"FrontierMoved","id":"K1","edge":"start","col":-2}"#),
    ];
    let m = replay(&evs);
    assert_eq!((m.phases[0].from_col, m.phases[0].to_col), (-2, 3));
    assert_eq!((m.phases[1].from_col, m.phases[1].to_col), (4, 7));
}

#[test]
fn tests_frontier_move_start_on_a_non_leftmost_phase_is_a_true_noop() {
    let evs = vec![
        ev(r#"{"event":"PhaseAdded","id":"K1","label":"A","fromCol":0,"toCol":3}"#),
        ev(r#"{"event":"PhaseAdded","id":"K2","label":"B","fromCol":4,"toCol":7}"#),
        ev(r#"{"event":"FrontierMoved","id":"K2","edge":"start","col":-9}"#),
    ];
    let m = replay(&evs);
    assert_eq!(ids_of(&m), ["K1", "K2"], "K2's stray start did not reorder the partition");
    assert_eq!((m.phases[0].from_col, m.phases[0].to_col), (0, 3));
    assert_eq!((m.phases[1].from_col, m.phases[1].to_col), (4, 7));
}

#[test]
fn tests_removing_a_board_end_phase_merges_into_the_neighbour() {
    let seed = vec![
        ev(r#"{"event":"PhaseAdded","id":"K1","label":"A","fromCol":0,"toCol":3}"#),
        ev(r#"{"event":"PhaseAdded","id":"K2","label":"B","fromCol":4,"toCol":7}"#),
        ev(r#"{"event":"PhaseAdded","id":"K3","label":"C","fromCol":8,"toCol":11}"#),
    ];
    let mut first = seed.clone();
    first.push(ev(r#"{"event":"PhaseRemoved","id":"K1"}"#));
    let m = replay(&first);
    assert_eq!(ids_of(&m), ["K2", "K3"]);
    assert_eq!((m.phases[0].from_col, m.phases[0].to_col), (0, 7), "K2 absorbed K1's columns");

    let mut last = seed;
    last.push(ev(r#"{"event":"PhaseRemoved","id":"K3"}"#));
    let m = replay(&last);
    assert_eq!(ids_of(&m), ["K1", "K2"]);
    assert_eq!((m.phases[1].from_col, m.phases[1].to_col), (4, 11), "K2 absorbed K3's columns");
}

#[test]
fn tests_phase_split_carves_a_phase_in_two_keeping_a_partition() {
    let evs = vec![
        ev(r#"{"event":"PhaseAdded","id":"K1","label":"Whole","fromCol":0,"toCol":5}"#),
        ev(r#"{"event":"PhaseSplit","id":"K1","atCol":3,"newId":"K2","newLabel":"Right"}"#),
    ];
    let m = replay(&evs);
    assert_eq!(m.phases.len(), 2);
    assert_eq!((m.phases[0].id.as_str(), m.phases[0].from_col, m.phases[0].to_col), ("K1", 0, 2));
    assert_eq!(
        (m.phases[1].id.as_str(), m.phases[1].label.as_str(), m.phases[1].from_col, m.phases[1].to_col),
        ("K2", "Right", 3, 5)
    );
}

#[test]
fn tests_phase_split_outside_the_phase_is_a_no_op() {
    let base = ev(r#"{"event":"PhaseAdded","id":"K1","label":"W","fromCol":0,"toCol":3}"#);
    for at in ["0", "4", "9"] {
        let split = ev(&format!(
            r#"{{"event":"PhaseSplit","id":"K1","atCol":{at},"newId":"K2","newLabel":"R"}}"#
        ));
        let m = replay(&[base.clone(), split]);
        assert_eq!(m.phases.len(), 1, "at_col={at} splits nothing");
        assert_eq!((m.phases[0].from_col, m.phases[0].to_col), (0, 3));
    }
}

#[test]
fn tests_removing_a_middle_phase_leaves_no_hole() {
    let evs = vec![
        ev(r#"{"event":"PhaseAdded","id":"K1","label":"A","fromCol":0,"toCol":3}"#),
        ev(r#"{"event":"PhaseAdded","id":"K2","label":"B","fromCol":4,"toCol":7}"#),
        ev(r#"{"event":"PhaseAdded","id":"K3","label":"C","fromCol":8,"toCol":11}"#),
        ev(r#"{"event":"PhaseRemoved","id":"K2"}"#),
    ];
    let m = replay(&evs);
    assert_eq!(ids_of(&m), ["K1", "K3"]);
    assert_eq!((m.phases[0].from_col, m.phases[0].to_col), (0, 3));
    assert_eq!((m.phases[1].from_col, m.phases[1].to_col), (4, 11));
}

#[test]
fn tests_frontier_and_split_events_round_trip() {
    for text in [
        r#"{"event":"FrontierMoved","id":"K1","edge":"end","col":5}"#,
        r#"{"event":"FrontierMoved","id":"K1","edge":"start","col":-2}"#,
        r#"{"event":"PhaseSplit","id":"K1","atCol":3,"newId":"K2","newLabel":"Right"}"#,
    ] {
        let e = ev(text);
        assert_eq!(lib::codec::line(&e), text, "canonical serialize round-trips");
        assert_eq!(ev(&lib::codec::line(&e)), e, "reparse round-trips");
    }
}

#[test]
fn tests_frontier_move_maps_from_a_comment_with_guards() {
    let mk = |body: &str| comment_to_events(&json::parse(body).unwrap());
    assert_eq!(
        mk(r#"{"kind":"frontier-move","regionId":"K1","edge":"end","col":5}"#),
        vec![Event::FrontierMoved { id: "K1".into(), edge: "end".into(), col: 5 }]
    );
    assert!(mk(r#"{"kind":"frontier-move","regionId":"K1","edge":"sideways","col":5}"#).is_empty());
    assert!(mk(r#"{"kind":"frontier-move","regionId":"K1","edge":"end"}"#).is_empty());
}

#[test]
fn tests_from_model_emits_region_ids_so_genesis_round_trips() {
    let log = vec![
        ev(r#"{"event":"PhaseAdded","id":"K1","label":"A","fromCol":0,"toCol":2}"#),
        ev(r#"{"event":"PhaseResized","id":"K1","fromCol":0,"toCol":9}"#),
    ];
    let folded = compact(&log);
    let m = replay(&folded);
    assert_eq!(m.phases[0].id, "K1");
    assert_eq!(m.phases[0].to_col, 9, "resize survives the fold");
}

#[test]
fn tests_rename_with_a_blank_label_is_rejected() {
    for blank in ["", "   ", "\t", "\n  "] {
        let v = json::parse(&format!(r#"{{"elemId":"E1","kind":"rename","text":{:?}}}"#, blank))
            .unwrap();
        assert!(comment_to_events(&v).is_empty(), "blank rename {:?} should persist nothing", blank);
    }
}

#[test]
fn tests_rename_trims_surrounding_whitespace() {
    let v = json::parse(r#"{"elemId":"E1","kind":"rename","text":"  PaymentTaken  "}"#).unwrap();
    let evs = comment_to_events(&v);
    assert!(
        matches!(&evs[..], [Event::ElementRenamed { id, label }] if id == "E1" && label == "PaymentTaken"),
        "got {:?}",
        evs
    );
}

#[test]
fn tests_rename_with_real_text_still_renames() {
    let v = json::parse(r#"{"elemId":"E1","kind":"rename","text":"Reborn"}"#).unwrap();
    let evs = comment_to_events(&v);
    assert!(matches!(&evs[..], [Event::ElementRenamed { id, label }]
        if id == "E1" && label == "Reborn"));
}

struct Lcg(u64);
impl Lcg {
    fn next_u64(&mut self) -> u64 {
        self.0 = self.0.wrapping_mul(6364136223846793005).wrapping_add(1442695040888963407);
        self.0
    }
    fn below(&mut self, n: usize) -> usize {
        (self.next_u64() % n as u64) as usize
    }
}

const TEXTS: [&str; 6] = ["Paid", "ItemAdded", "  spaced  ", "", "   ", "\t"];
const KINDS: [&str; 5] = ["rename", "move", "drop", "comment", "resolve"];

fn gen_comment(rng: &mut Lcg, ids: &[&str]) -> (Json, String) {
    let id = ids[rng.below(ids.len())];
    let kind = KINDS[rng.below(KINDS.len())];
    let text = TEXTS[rng.below(TEXTS.len())];
    let mut o = vec![
        ("elemId".to_string(), Json::Str(id.to_string())),
        ("kind".to_string(), Json::Str(kind.to_string())),
        ("text".to_string(), Json::Str(text.to_string())),
    ];
    if kind == "move" {
        o.push(("col".to_string(), Json::Num(from_i64(rng.below(6) as i64))));
    }
    let v = Json::Obj(o);
    let shown = json::to_string(&v);
    (v, shown)
}

fn genesis() -> (Vec<Event>, Vec<&'static str>) {
    let ids = vec!["E1", "E2", "C1", "A1", "H1"];
    let kinds = [Lane::Event, Lane::Event, Lane::Command, Lane::Aggregate, Lane::Hotspot];
    let evs = ids
        .iter()
        .zip(kinds)
        .map(|(id, k)| Event::ElementAdded {
            id: (*id).to_string(),
            kind: k,
            label: format!("seed-{id}"),
            col: Some(0),
            detail: None,
            y: None,
            links: Vec::new(),
        })
        .collect();
    (evs, ids)
}

#[test]
fn tests_pbt_no_comment_sequence_ever_leaves_a_blank_label() {
    for seed in 0..500u64 {
        let mut rng = Lcg(seed.wrapping_mul(2_654_435_761).wrapping_add(1));
        let (mut log, ids) = genesis();
        let n = 1 + rng.below(8);
        let mut trace = Vec::new();
        for _ in 0..n {
            let (v, shown) = gen_comment(&mut rng, &ids);
            trace.push(shown);
            log.extend(comment_to_events(&v));
        }
        let model = replay(&log);
        for e in &model.elements {
            assert!(
                !trim_str(&e.label).is_empty(),
                "seed {seed}: element {} got a blank label after:\n  {}",
                e.id,
                trace.join("\n  ")
            );
        }
    }
}

#[test]
fn tests_pbt_comments_never_invent_an_element_and_only_drop_removes() {
    for seed in 0..500u64 {
        let mut rng = Lcg(seed.wrapping_mul(40_503).wrapping_add(7));
        let (mut log, ids) = genesis();
        let mut dropped = std::collections::HashSet::new();
        let n = 1 + rng.below(8);
        for _ in 0..n {
            let (v, _) = gen_comment(&mut rng, &ids);
            if v.get_str("kind") == Some("drop") {
                if let Some(id) = v.get_str("elemId") {
                    dropped.insert(id.to_string());
                }
            }
            log.extend(comment_to_events(&v));
        }
        let model = replay(&log);
        let present: std::collections::HashSet<&str> =
            model.elements.iter().map(|e| e.id.as_str()).collect();
        for id in &present {
            assert!(ids.contains(id), "seed {seed}: invented element {id}");
        }
        for id in &ids {
            let want = !dropped.contains(*id);
            assert_eq!(present.contains(id), want, "seed {seed}: element {id}");
        }
    }
}

#[test]
fn tests_pbt_phase_events_never_replay_to_a_hole_or_overlap() {
    for seed in 0..800u64 {
        let mut rng = Lcg(seed.wrapping_mul(2_246_822_519).wrapping_add(3));
        let mut log: Vec<Event> = Vec::new();
        let mut minted = 0u32;
        let n = 1 + rng.below(12);
        let mut trace = Vec::new();
        for _ in 0..n {
            let target = format!("K{}", 1 + rng.below((minted.max(1)) as usize));
            let (a, b) = (rng.below(9) as i64 - 2, rng.below(9) as i64 - 2);
            let ev = match rng.below(5) {
                0 => {
                    minted += 1;
                    Event::PhaseAdded {
                        id: Some(format!("K{minted}")),
                        label: format!("p{minted}"),
                        from_col: a.min(b),
                        to_col: a.max(b),
                    }
                }
                1 => Event::PhaseResized { id: target, from_col: a.min(b), to_col: a.max(b) },
                2 => Event::FrontierMoved {
                    id: target,
                    edge: if rng.below(2) == 0 { "start" } else { "end" }.into(),
                    col: a,
                },
                3 => {
                    minted += 1;
                    Event::PhaseSplit {
                        id: target,
                        at_col: a,
                        new_id: format!("K{minted}"),
                        new_label: format!("s{minted}"),
                    }
                }
                _ => Event::PhaseRemoved { id: target },
            };
            trace.push(lib::codec::line(&ev));
            log.push(ev);
        }
        let mut phases = replay(&log).phases;
        for w in phases.windows(2) {
            assert!(
                w[0].to_col + 1 == w[1].from_col,
                "seed {seed}: not contiguous after:\n  {}",
                trace.join("\n  ")
            );
        }
        for p in &phases {
            assert!(p.from_col <= p.to_col, "seed {seed}: phase {} inverted", p.id);
        }
        let before: Vec<_> = phases.iter().map(|p| (p.id.clone(), p.from_col, p.to_col)).collect();
        normalize(&mut phases);
        let after: Vec<_> = phases.iter().map(|p| (p.id.clone(), p.from_col, p.to_col)).collect();
        assert_eq!(before, after, "seed {seed}: normalize not idempotent");
    }
}

#[test]
fn tests_replay_builds_the_board_the_events_describe() {
    let log = [
        ev(r#"{"event":"BoardTitled","title":"T"}"#),
        ev(r#"{"event":"ElementAdded","id":"E1","type":"event","label":"Born","col":1}"#),
        ev(r#"{"event":"ElementAdded","id":"E2","type":"command","label":"Do","col":0}"#),
        ev(r#"{"event":"ElementRenamed","id":"E1","label":"Reborn"}"#),
        ev(r#"{"event":"ElementMoved","id":"E2","col":3}"#),
        ev(r#"{"event":"EdgeAdded","src":"E2","dst":"E1"}"#),
    ];
    let m = replay(&log);
    assert_eq!(m.title, "T");
    let e1 = m.elements.iter().find(|e| e.id == "E1").unwrap();
    assert_eq!(e1.label, "Reborn");
    let e2 = m.elements.iter().find(|e| e.id == "E2").unwrap();
    assert_eq!(e2.col, Some(3));
    assert_eq!(m.edges.len(), 1);
}

#[test]
fn tests_resolving_a_hotspot_flips_state_and_records_the_note() {
    let log = [
        ev(r#"{"event":"ElementAdded","id":"H1","type":"hotspot","label":"open?"}"#),
        ev(r#"{"event":"HotspotResolved","id":"H1","resolution":"settled"}"#),
    ];
    let h = &replay(&log).elements[0];
    assert!(h.resolved);
    assert_eq!(h.detail.as_deref(), Some("settled"));
}

#[test]
fn tests_remove_drops_the_element_and_its_edges() {
    let log = [
        ev(r#"{"event":"ElementAdded","id":"E1","type":"event","label":"A"}"#),
        ev(r#"{"event":"ElementAdded","id":"E2","type":"event","label":"B"}"#),
        ev(r#"{"event":"EdgeAdded","src":"E1","dst":"E2"}"#),
        ev(r#"{"event":"ElementRemoved","id":"E1"}"#),
    ];
    let m = replay(&log);
    assert_eq!(m.elements.len(), 1);
    assert!(m.edges.is_empty());
}

#[test]
fn tests_from_model_then_replay_round_trips() {
    let src = r#"{
        "title":"Round Trip",
        "phases":[{"label":"p","fromCol":0,"toCol":2}],
        "elements":[
            {"id":"E1","type":"event","label":"Made","col":1},
            {"id":"E2","type":"command","label":"Do","col":0,"detail":"a note"},
            {"id":"H1","type":"hotspot","label":"q","col":2,"resolved":true,"detail":"done"}
        ],
        "edges":[["E2","E1"]]
    }"#;
    let written = from_json(&json::parse(src).unwrap());
    let rebuilt = replay(&from_model(&written));
    assert_eq!(rebuilt.title, written.title);
    assert_eq!(rebuilt.phases.len(), 1);
    assert_eq!(rebuilt.elements.len(), 3);
    assert_eq!(rebuilt.edges.len(), 1);
    let h1 = rebuilt.elements.iter().find(|e| e.id == "H1").unwrap();
    assert!(h1.resolved);
    assert_eq!(h1.detail.as_deref(), Some("done"));
    let e2 = rebuilt.elements.iter().find(|e| e.id == "E2").unwrap();
    assert_eq!(e2.detail.as_deref(), Some("a note"));
}

#[test]
fn board_leveled_is_a_serialize_parse_fixed_point() {
    let e = ev(r#"{"event":"BoardLeveled","level":"design"}"#);
    assert!(matches!(&e, Event::BoardLeveled { level } if level == "design"));
    assert_eq!(json::to_string(&to_json(&ev(&lib::codec::line(&e)))), json::to_string(&to_json(&e)));
}

#[test]
fn tests_replay_sets_the_model_level_from_board_leveled() {
    let m = replay(&[ev(r#"{"event":"BoardLeveled","level":"design"}"#)]);
    assert_eq!(m.level, Level::Design);
}

#[test]
fn tests_from_model_emits_board_leveled_only_for_a_design_board() {
    let design = from_json(&json::parse(r#"{"level":"design","elements":[]}"#).unwrap());
    let batch = from_model(&design);
    assert_eq!(batch.iter().filter(|e| matches!(e, Event::BoardLeveled { .. })).count(), 1);
    assert_eq!(replay(&batch).level, Level::Design);
    let big = from_json(&json::parse(r#"{"elements":[]}"#).unwrap());
    assert!(!from_model(&big).iter().any(|e| matches!(e, Event::BoardLeveled { .. })));
}

#[test]
fn tests_a_design_board_survives_compaction() {
    let design = from_json(&json::parse(r#"{"level":"design","elements":[]}"#).unwrap());
    let folded = compact(&from_model(&design));
    assert_eq!(replay(&folded).level, Level::Design);
}

#[test]
fn tests_compact_preserves_the_projection_and_folds_history() {
    let log = [
        ev(r#"{"event":"BoardTitled","title":"T"}"#),
        ev(r#"{"event":"ElementAdded","id":"E1","type":"event","label":"Born","col":1}"#),
        ev(r#"{"event":"ElementRenamed","id":"E1","label":"Reborn"}"#),
        ev(r#"{"event":"ElementAnnotated","id":"E1","text":"a note"}"#),
        ev(r#"{"event":"ElementAdded","id":"H1","type":"hotspot","label":"q"}"#),
        ev(r#"{"event":"HotspotResolved","id":"H1","resolution":"settled"}"#),
    ];
    let folded = compact(&log);
    assert!(matches!(folded[0], Event::LogCompacted { folded: 6 }));
    let reparsed = parse_log(&to_jsonl(&folded)).unwrap();
    assert!(matches!(reparsed[0], Event::LogCompacted { folded: 6 }));
    assert!(folded.len() < log.len());
    let (before, after) = (replay(&log), replay(&folded));
    assert_eq!(after.title, before.title);
    let e1 = after.elements.iter().find(|e| e.id == "E1").unwrap();
    assert_eq!(e1.label, "Reborn");
    assert_eq!(e1.detail.as_deref(), Some("a note"));
    let h1 = after.elements.iter().find(|e| e.id == "H1").unwrap();
    assert!(h1.resolved);
    assert_eq!(h1.detail.as_deref(), Some("settled"));
}

#[test]
fn tests_compacting_twice_leaves_the_snapshot_stable() {
    let log = [
        ev(r#"{"event":"ElementAdded","id":"E1","type":"event","label":"A","col":0}"#),
        ev(r#"{"event":"ElementMoved","id":"E1","col":2}"#),
    ];
    let once = compact(&log);
    let twice = compact(&once);
    assert_eq!(to_jsonl(&once[1..]), to_jsonl(&twice[1..]));
}

#[test]
fn tests_from_comments_folds_a_legacy_inbox_onto_the_genesis_batch() {
    let model_src = r#"{
        "title":"Legacy",
        "elements":[
            {"id":"E1","type":"event","label":"Born","col":0},
            {"id":"H1","type":"hotspot","label":"open?","col":2}
        ]
    }"#;
    let model = from_json(&json::parse(model_src).unwrap());
    let inbox = "\
        {\"elemId\":\"E1\",\"kind\":\"comment\",\"text\":\"a note\"}\n\
        {\"elemId\":\"E1\",\"kind\":\"rename\",\"text\":\"Reborn\"}\n\
        {\"elemId\":\"E1\",\"kind\":\"move\",\"col\":4}\n\
        {\"elemId\":\"H1\",\"kind\":\"resolve\",\"text\":\"settled\"}\n";
    let (folded, skipped) = from_comments(inbox);
    assert_eq!(skipped, 0);
    let mut log = from_model(&model);
    log.extend(folded);
    let m = replay(&log);
    let e1 = m.elements.iter().find(|e| e.id == "E1").unwrap();
    assert_eq!(e1.label, "Reborn");
    assert_eq!(e1.col, Some(4));
    assert_eq!(e1.detail.as_deref(), Some("a note"));
    let h1 = m.elements.iter().find(|e| e.id == "H1").unwrap();
    assert!(h1.resolved);
    assert_eq!(h1.detail.as_deref(), Some("settled"));
}

#[test]
fn tests_from_comments_skips_blank_malformed_and_element_less_lines() {
    let inbox = "\
        \n  \n\
        {not json}\n\
        {\"kind\":\"comment\",\"text\":\"orphan, no elemId\"}\n\
        {\"kind\":\"add\",\"type\":\"event\",\"text\":\"legacy add, no elemId\"}\n\
        {\"elemId\":\"E1\",\"kind\":\"comment\",\"text\":\"kept\"}\n";
    let (evs, skipped) = from_comments(inbox);
    assert_eq!(evs.len(), 1);
    assert!(matches!(&evs[0], Event::ElementAnnotated { id, text }
        if id == "E1" && text == "kept"));
    assert_eq!(skipped, 3);
}

#[test]
fn tests_legacy_comment_kind_upcasts_to_element_annotated() {
    let log = [
        ev(r#"{"event":"ElementAdded","id":"E1","type":"event","label":"A"}"#),
        ev(r#"{"event":"CommentAdded","id":"E1","text":"from an old log"}"#),
        ev(r#"{"event":"Comment","id":"E1","text":"older still"}"#),
    ];
    assert!(matches!(&log[1], Event::ElementAnnotated { id, text }
        if id == "E1" && text == "from an old log"));
    assert!(matches!(&log[2], Event::ElementAnnotated { .. }));
    assert_eq!(replay(&log).elements[0].detail.as_deref(), Some("older still"));
}

#[test]
fn tests_unknown_fields_on_a_known_event_are_ignored() {
    let e = ev(r#"{"event":"ElementAdded","id":"E1","type":"event","label":"A","fromTheFuture":42}"#);
    assert!(matches!(e, Event::ElementAdded { id, .. } if id == "E1"));
}

#[test]
fn tests_unknown_event_kinds_are_skipped_for_forward_compat() {
    let log = parse_log(
        "{\"event\":\"ElementAdded\",\"id\":\"E1\",\"type\":\"event\",\"label\":\"A\"}\n\
         {\"event\":\"SomethingFromTheFuture\",\"id\":\"E1\"}\n",
    )
    .unwrap();
    assert_eq!(log.len(), 1);
}

#[test]
fn tests_blank_lines_skipped_but_malformed_json_is_an_error() {
    assert!(parse_log("\n  \n").unwrap().is_empty());
    assert!(parse_log("{not json}").is_err());
}

#[test]
fn tests_events_serialize_to_canonical_jsonl_and_reparse() {
    let written =
        ev(r#"{"event":"ElementAdded","id":"E1","type":"event","label":"A","col":2,"detail":"d"}"#);
    assert_eq!(ev(&lib::codec::line(&written)), written);
    let moved = Event::ElementMoved { id: "E1".into(), col: Some(4), kind: None, y: None };
    assert_eq!(lib::codec::line(&moved), r#"{"event":"ElementMoved","id":"E1","col":4}"#);
}

#[test]
fn tests_element_moved_round_trips_its_y() {
    let e = ev(r#"{"event":"ElementMoved","id":"E1","y":0.35}"#);
    let want = num("0.35");
    assert!(matches!(&e, Event::ElementMoved { id, col: None, y: Some(y), .. }
        if id == "E1" && *y == want));
    assert_eq!(lib::codec::line(&e), r#"{"event":"ElementMoved","id":"E1","y":0.35}"#);
}

#[test]
fn tests_replay_applies_y_and_a_col_only_move_preserves_it() {
    let log = [
        ev(r#"{"event":"ElementAdded","id":"E1","type":"event","label":"A","col":0}"#),
        ev(r#"{"event":"ElementMoved","id":"E1","y":0.8}"#),
        ev(r#"{"event":"ElementMoved","id":"E1","col":3}"#),
    ];
    let e1 = &replay(&log).elements[0];
    assert_eq!(e1.col, Some(3));
    assert_eq!(e1.y, Some(num("0.8")), "a col-only nudge must not reset the Y");
}

#[test]
fn tests_a_placed_elements_y_survives_compact() {
    let log = [
        ev(r#"{"event":"ElementAdded","id":"E1","type":"event","label":"A","col":0}"#),
        ev(r#"{"event":"ElementMoved","id":"E1","y":0.25}"#),
    ];
    let folded = compact(&log);
    let reparsed = parse_log(&to_jsonl(&folded)).unwrap();
    assert_eq!(replay(&reparsed).elements[0].y, Some(num("0.25")));
}

#[test]
fn tests_move_comment_with_y_only_persists_one_moved_event() {
    let v = json::parse(r#"{"elemId":"E1","kind":"move","y":0.6}"#).unwrap();
    let evs = comment_to_events(&v);
    let want = num("0.6");
    assert!(
        matches!(&evs[..], [Event::ElementMoved { id, col: None, y: Some(y), .. }]
            if id == "E1" && *y == want),
        "got {evs:?}"
    );
}

#[test]
fn tests_move_comment_with_neither_col_nor_y_is_rejected() {
    let v = json::parse(r#"{"elemId":"E1","kind":"move"}"#).unwrap();
    assert!(comment_to_events(&v).is_empty());
}

#[test]
fn tests_move_comment_clamps_and_rounds_its_y() {
    for (posted, stored) in [("1.7", "1"), ("-0.3", "0"), ("0.333333333333", "0.3333")] {
        let v = json::parse(&format!(r#"{{"elemId":"E1","kind":"move","y":{posted}}}"#)).unwrap();
        let evs = comment_to_events(&v);
        let want = num(stored);
        assert!(
            matches!(&evs[..], [Event::ElementMoved { y: Some(y), .. }] if *y == want),
            "posted {posted}: got {evs:?}"
        );
    }
}

#[test]
fn tests_is_log_path_keys_on_extension() {
    assert!(is_log_path("event-log.jsonl"));
    assert!(is_log_path("a.log"));
    assert!(!is_log_path("model.json"));
}
