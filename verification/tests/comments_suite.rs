#![allow(dead_code, unused_imports)]
use lib::codec::{parse_event, to_json, to_jsonl};
use lib::comments::{comment_to_events, from_comments};
use lib::event::Event;
use lib::genesis::{compact, from_model};
use lib::json::{self, Json};
use lib::log::parse_log;
use lib::model::{from_json, normalize, Lane, Level};
use lib::number::{from_i64, Number};
use lib::paths::is_log_path;
use lib::replay::replay;
use lib::text::trim_str;

fn ev(line: &str) -> Event {
    parse_event(&json::parse(line).unwrap()).unwrap()
}

fn num(text: &str) -> Number {
    json::parse(text).unwrap().as_num().unwrap()
}

fn ids_of(m: &lib::model::Model) -> Vec<String> {
    m.phases.iter().map(|p| p.id.clone()).collect()
}

struct Lcg(u64);
impl Lcg {
    fn next_u64(&mut self) -> u64 {
        self.0 = self.0.wrapping_mul(6364136223846793005).wrapping_add(1442695040888963407);
        self.0
    }
    fn below(&mut self, n: usize) -> usize {
        (self.next_u64() % n as u64) as usize
    }
}

const TEXTS: [&str; 6] = ["Paid", "ItemAdded", "  spaced  ", "", "   ", "\t"];
const KINDS: [&str; 5] = ["rename", "move", "drop", "comment", "resolve"];

fn gen_comment(rng: &mut Lcg, ids: &[&str]) -> (Json, String) {
    let id = ids[rng.below(ids.len())];
    let kind = KINDS[rng.below(KINDS.len())];
    let text = TEXTS[rng.below(TEXTS.len())];
    let mut o = vec![
        ("elemId".to_string(), Json::Str(id.to_string())),
        ("kind".to_string(), Json::Str(kind.to_string())),
        ("text".to_string(), Json::Str(text.to_string())),
    ];
    if kind == "move" {
        o.push(("col".to_string(), Json::Num(from_i64(rng.below(6) as i64))));
    }
    let v = Json::Obj(o);
    let shown = json::to_string(&v);
    (v, shown)
}

fn genesis() -> (Vec<Event>, Vec<&'static str>) {
    let ids = vec!["E1", "E2", "C1", "A1", "H1"];
    let kinds = [Lane::Event, Lane::Event, Lane::Command, Lane::Aggregate, Lane::Hotspot];
    let evs = ids
        .iter()
        .zip(kinds)
        .map(|(id, k)| Event::ElementAdded {
            id: (*id).to_string(),
            kind: k,
            label: format!("seed-{id}"),
            col: Some(0),
            detail: None,
            y: None,
            links: Vec::new(),
        })
        .collect();
    (evs, ids)
}

#[test]
fn comments_frontier_move_maps_from_a_comment_with_guards() {
    let mk = |body: &str| comment_to_events(&json::parse(body).unwrap());
    assert_eq!(
        mk(r#"{"kind":"frontier-move","regionId":"K1","edge":"end","col":5}"#),
        vec![Event::FrontierMoved { id: "K1".into(), edge: "end".into(), col: 5 }]
    );
    assert!(mk(r#"{"kind":"frontier-move","regionId":"K1","edge":"sideways","col":5}"#).is_empty());
    assert!(mk(r#"{"kind":"frontier-move","regionId":"K1","edge":"end"}"#).is_empty());
}

#[test]
fn comments_rename_with_a_blank_label_is_rejected() {
    for blank in ["", "   ", "\t", "\n  "] {
        let v = json::parse(&format!(r#"{{"elemId":"E1","kind":"rename","text":{:?}}}"#, blank))
            .unwrap();
        assert!(comment_to_events(&v).is_empty(), "blank rename {:?} should persist nothing", blank);
    }
}

#[test]
fn comments_rename_trims_surrounding_whitespace() {
    let v = json::parse(r#"{"elemId":"E1","kind":"rename","text":"  PaymentTaken  "}"#).unwrap();
    let evs = comment_to_events(&v);
    assert!(
        matches!(&evs[..], [Event::ElementRenamed { id, label }] if id == "E1" && label == "PaymentTaken"),
        "got {:?}",
        evs
    );
}

#[test]
fn comments_rename_with_real_text_still_renames() {
    let v = json::parse(r#"{"elemId":"E1","kind":"rename","text":"Reborn"}"#).unwrap();
    let evs = comment_to_events(&v);
    assert!(matches!(&evs[..], [Event::ElementRenamed { id, label }]
        if id == "E1" && label == "Reborn"));
}

#[test]
fn comments_move_comment_with_y_only_persists_one_moved_event() {
    let v = json::parse(r#"{"elemId":"E1","kind":"move","y":0.6}"#).unwrap();
    let evs = comment_to_events(&v);
    let want = num("0.6");
    assert!(
        matches!(&evs[..], [Event::ElementMoved { id, col: None, y: Some(y), .. }]
            if id == "E1" && *y == want),
        "got {evs:?}"
    );
}

#[test]
fn comments_move_comment_with_neither_col_nor_y_is_rejected() {
    let v = json::parse(r#"{"elemId":"E1","kind":"move"}"#).unwrap();
    assert!(comment_to_events(&v).is_empty());
}

#[test]
fn comments_move_comment_clamps_and_rounds_its_y() {
    for (posted, stored) in [("1.7", "1"), ("-0.3", "0"), ("0.333333333333", "0.3333")] {
        let v = json::parse(&format!(r#"{{"elemId":"E1","kind":"move","y":{posted}}}"#)).unwrap();
        let evs = comment_to_events(&v);
        let want = num(stored);
        assert!(
            matches!(&evs[..], [Event::ElementMoved { y: Some(y), .. }] if *y == want),
            "posted {posted}: got {evs:?}"
        );
    }
}

#[test]
fn comments_from_comments_folds_a_legacy_inbox_onto_the_genesis_batch() {
    let model_src = r#"{
        "title":"Legacy",
        "elements":[
            {"id":"E1","type":"event","label":"Born","col":0},
            {"id":"H1","type":"hotspot","label":"open?","col":2}
        ]
    }"#;
    let model = from_json(&json::parse(model_src).unwrap());
    let inbox = "\
        {\"elemId\":\"E1\",\"kind\":\"comment\",\"text\":\"a note\"}\n\
        {\"elemId\":\"E1\",\"kind\":\"rename\",\"text\":\"Reborn\"}\n\
        {\"elemId\":\"E1\",\"kind\":\"move\",\"col\":4}\n\
        {\"elemId\":\"H1\",\"kind\":\"resolve\",\"text\":\"settled\"}\n";
    let (folded, skipped) = from_comments(inbox);
    assert_eq!(skipped, 0);
    let mut log = from_model(&model);
    log.extend(folded);
    let m = replay(&log);
    let e1 = m.elements.iter().find(|e| e.id == "E1").unwrap();
    assert_eq!(e1.label, "Reborn");
    assert_eq!(e1.col, Some(4));
    assert_eq!(e1.detail.as_deref(), Some("a note"));
    let h1 = m.elements.iter().find(|e| e.id == "H1").unwrap();
    assert!(h1.resolved);
    assert_eq!(h1.detail.as_deref(), Some("settled"));
}

#[test]
fn comments_from_comments_skips_blank_malformed_and_element_less_lines() {
    let inbox = "\
        \n  \n\
        {not json}\n\
        {\"kind\":\"comment\",\"text\":\"orphan, no elemId\"}\n\
        {\"kind\":\"add\",\"type\":\"event\",\"text\":\"legacy add, no elemId\"}\n\
        {\"elemId\":\"E1\",\"kind\":\"comment\",\"text\":\"kept\"}\n";
    let (evs, skipped) = from_comments(inbox);
    assert_eq!(evs.len(), 1);
    assert!(matches!(&evs[0], Event::ElementAnnotated { id, text }
        if id == "E1" && text == "kept"));
    assert_eq!(skipped, 3);
}

#[test]
fn comments_pbt_no_comment_sequence_ever_leaves_a_blank_label() {
    for seed in 0..500u64 {
        let mut rng = Lcg(seed.wrapping_mul(2_654_435_761).wrapping_add(1));
        let (mut log, ids) = genesis();
        let n = 1 + rng.below(8);
        let mut trace = Vec::new();
        for _ in 0..n {
            let (v, shown) = gen_comment(&mut rng, &ids);
            trace.push(shown);
            log.extend(comment_to_events(&v));
        }
        let model = replay(&log);
        for e in &model.elements {
            assert!(
                !trim_str(&e.label).is_empty(),
                "seed {seed}: element {} got a blank label after:\n  {}",
                e.id,
                trace.join("\n  ")
            );
        }
    }
}

