use lib::codec::{parse_event, to_json, to_jsonl, Rejected};
use lib::command::{parse_command, Rejection};
use lib::comments::{clamp_y, comment_to_events, nonblank, valid_span};
use lib::event::Event;
use lib::extract::{extract, Selector};
use lib::genesis::{compact, from_model};
use lib::json::{self, Json};
use lib::log::{parse_log, parse_log_full, read_board};
use lib::model::{
    format_declared, from_json, lane_from_str, lane_to_str, normalize, read_model, resolve_region_id,
    Lane, Phase,
};
use lib::number::{from_i64, Number};
use lib::render::{atoms, hump_split, wrap};
use lib::replay::{region_watermark, replay};

fn num(text: &str) -> Number {
    json::parse(text).unwrap().as_num().unwrap()
}

fn ev(line: &str) -> Event {
    parse_event(&json::parse(line).unwrap()).unwrap()
}

fn sample_batch() -> Vec<Event> {
    vec![
        Event::BoardTitled { title: "Orders \"q\" \\ tab\t".into() },
        Event::BoardFormat { format: "event-storming".into() },
        Event::BoardLeveled { level: "design".into() },
        Event::PhaseAdded { id: Some("K1".into()), label: "Browse".into(), from_col: -3, to_col: 4 },
        Event::PhaseAdded { id: None, label: "Legacy".into(), from_col: 5, to_col: 9 },
        Event::PhaseSplit { id: "K1".into(), at_col: 1, new_id: "K7".into(), new_label: "Pay".into() },
        Event::ElementAdded {
            id: "E1".into(),
            kind: Lane::Event,
            label: "Paid\nline two \u{1}".into(),
            col: Some(2),
            detail: Some("café 😀".into()),
            y: Some(num("0.25")),
            links: vec!["https://t/1".into(), "adr://7".into()],
        },
        Event::ElementAdded {
            id: "C1".into(),
            kind: Lane::Command,
            label: "Pay".into(),
            col: None,
            detail: None,
            y: None,
            links: Vec::new(),
        },
        Event::ElementMoved { id: "C1".into(), col: Some(-1), kind: Some(Lane::Policy), y: Some(num("1")) },
        Event::EdgeAdded { src: "C1".into(), dst: "E1".into(), label: Some("emits".into()) },
        Event::ElementAnnotated { id: "E1".into(), text: "a note".into() },
        Event::LogCompacted { folded: 12 },
    ]
}

#[test]
fn a_written_log_reads_back_as_its_batch() {
    let batch = sample_batch();
    let text = to_jsonl(&batch);
    let read = parse_log_full(&text).unwrap();
    assert_eq!(read.events, batch);
    assert_eq!(read.unread, 0);
    assert_eq!(read.corrupt, 0);
}

#[test]
fn a_written_json_value_reads_back_as_itself() {
    let v = Json::Obj(vec![
        ("z".into(), Json::Arr(vec![Json::Null, Json::Bool(true), Json::Num(num("-12.5e-3"))])),
        ("a\"b".into(), Json::Str("\u{0}\u{1f}\\/".into())),
        ("e".into(), Json::Obj(Vec::new())),
        ("n".into(), Json::Num(num("120000000000000000000"))),
    ]);
    let text = json::to_string(&v);
    assert_eq!(json::to_string(&json::parse(&text).unwrap()), text);
    assert_eq!(text, r#"{"z":[null,true,-0.0125],"a\"b":"\u0000\u001f\\/","e":{},"n":120000000000000000000}"#);
}

#[test]
fn compacting_keeps_the_board_it_folds() {
    let batch = sample_batch();
    assert_eq!(replay(&compact(&batch)), replay(&batch));
}

#[test]
fn a_board_seeded_from_a_model_replays_to_that_model() {
    let m = from_json(
        &json::parse(
            r#"{"title":"T","level":"design",
                "phases":[{"id":"K1","label":"a","fromCol":0,"toCol":2},{"id":"K2","label":"b","fromCol":3,"toCol":5}],
                "elements":[{"id":"E1","type":"event","label":"x","col":1,"y":0.5,"links":["u"]},
                            {"id":"H1","type":"hotspot","label":"q","resolved":true,"detail":"d"}],
                "edges":[{"src":"E1","dst":"H1","label":"why"}]}"#,
        )
        .unwrap(),
    );
    assert_eq!(replay(&from_model(&m)), m);
}

#[test]
fn normalizing_twice_changes_nothing_more() {
    let mut ps = vec![
        Phase { id: "K1".into(), label: "A".into(), from_col: 4, to_col: 1 },
        Phase { id: "K2".into(), label: "B".into(), from_col: 0, to_col: 9 },
        Phase { id: "K3".into(), label: "C".into(), from_col: 0, to_col: 9 },
    ];
    normalize(&mut ps);
    let once = ps.clone();
    normalize(&mut ps);
    assert_eq!(ps, once);
    for w in ps.windows(2) {
        assert_eq!(w[0].to_col + 1, w[1].from_col);
    }
}

#[test]
fn every_lane_name_reads_back_as_its_lane() {
    for lane in lib::model::all_lanes() {
        assert_eq!(lane_from_str(lane_to_str(lane)), Some(lane));
    }
}

#[test]
fn the_watermark_is_the_highest_region_suffix_seen() {
    let evs = vec![
        ev(r#"{"event":"PhaseAdded","id":"K5","label":"A","fromCol":0,"toCol":1}"#),
        ev(r#"{"event":"PhaseSplit","id":"K5","atCol":1,"newId":"K9","newLabel":"B"}"#),
        ev(r#"{"event":"PhaseAdded","label":"C","fromCol":2,"toCol":3}"#),
    ];
    assert_eq!(region_watermark(&evs), 10);
    let mut w = 3u32;
    assert_eq!(resolve_region_id(None, &mut w), "K4");
    assert_eq!(w, 4);
    assert_eq!(resolve_region_id(Some("K12"), &mut w), "K12");
    assert_eq!(w, 12);
}

#[test]
fn each_rejection_of_a_record_comes_from_its_own_input() {
    let j = |s: &str| json::parse(s).unwrap();
    assert_eq!(parse_event(&j(r#"{"kind":"x"}"#)), Err(Rejected::Unnamed));
    assert_eq!(parse_event(&j(r#"{"event":"Nope"}"#)), Err(Rejected::UnknownKind));
    assert_eq!(
        parse_event(&j(r#"{"event":"ElementAdded","id":"T1","type":"timer","label":"x"}"#)),
        Err(Rejected::UnknownLane)
    );
    assert_eq!(parse_event(&j(r#"{"event":"PhaseRemoved"}"#)), Err(Rejected::Malformed));
}

#[test]
fn an_unknown_lane_alone_names_a_newer_build() {
    let err = parse_log("{\"event\":\"ElementAdded\",\"id\":\"T1\",\"type\":\"timer\",\"label\":\"A\"}\n")
        .unwrap_err();
    assert_eq!(
        err,
        "event-log: 1 record(s) and no readable board \u{2014} 1 of them name a lane this faceto does \
         not know, so the log is from a newer faceto"
    );
    assert_eq!(
        parse_log("{\"event\":\"PhaseRemoved\"}").unwrap_err(),
        "event-log line 1: PhaseRemoved event with a missing or mis-typed required field"
    );
}

#[test]
fn a_foreign_format_tag_is_refused_by_name() {
    assert_eq!(
        format_declared(Some("canvas")).unwrap_err(),
        "board format \"canvas\" is not one this faceto speaks (it reads event-storming) \u{2014} the \
         file is from another format, or from a newer faceto"
    );
    assert!(read_model(r#"{"format":"canvas","elements":[]}"#).unwrap_err().contains("\"canvas\""));
    let m = read_model(r#"{"title":"T","elements":[{"id":"E1","type":"event","label":"L"}]}"#).unwrap();
    assert_eq!(m.elements.len(), 1);
    assert!(read_model("{").is_err());
}

#[test]
fn a_log_text_reads_as_the_board_it_replays_to() {
    let m = read_board(
        "{\"event\":\"BoardTitled\",\"title\":\"T\"}\n\
         {\"event\":\"ElementAdded\",\"id\":\"E1\",\"type\":\"event\",\"label\":\"A\"}\n",
    )
    .unwrap();
    assert_eq!(m.title, "T");
    assert_eq!(m.elements.len(), 1);
    assert!(read_board("{not json}").is_err());
}

#[test]
fn each_rejection_of_a_command_names_its_reason() {
    let p = |s: &str| parse_command(&json::parse(s).unwrap());
    assert_eq!(p(r#"{"kind":"teleport","elemId":"E1"}"#), Err(Rejection::UnknownKind("teleport".into())));
    assert!(matches!(p(r#"{"kind":"drop"}"#), Err(Rejection::Malformed(_))));
    assert_eq!(
        Rejection::UnknownKind("te\"st".into()).message(),
        "no command named \"te\\\"st\""
    );
}

#[test]
fn extract_refuses_what_names_nothing() {
    let m = from_json(
        &json::parse(r#"{"phases":[{"id":"K1","label":"a","fromCol":0,"toCol":1}],"elements":[{"id":"E1","type":"event","label":"a","col":0}]}"#)
            .unwrap(),
    );
    assert_eq!(
        extract(&m, &Selector::Region("K9".into())).unwrap_err(),
        "no region K9 (this board has K1)"
    );
    assert_eq!(
        extract(&m, &Selector::Focus { id: "X1".into(), hops: 3 }).unwrap_err(),
        "no element X1 on this board"
    );
    assert_eq!(extract(&m, &Selector::Kind("policy".into())).unwrap_err(), "policy lane matched no elements");
    assert_eq!(Selector::Focus { id: "E1".into(), hops: 2 }.label(), "E1 + 2 hops");
    assert_eq!(Selector::Focus { id: "E1".into(), hops: 1 }.label(), "E1 + 1 hop");
}

#[test]
fn a_posted_y_is_clamped_and_rounded_to_four_places() {
    assert_eq!(clamp_y(num("0.123456")), num("0.1235"));
    assert_eq!(clamp_y(num("2")), num("1"));
    assert_eq!(clamp_y(num("-5e3")), num("0"));
    assert_eq!(clamp_y(num("0.99996")), num("1"));
}

#[test]
fn numbers_keep_their_exact_decimal_value() {
    assert_eq!(num("1.50"), num("15e-1"));
    assert_eq!(num("-0"), num("0"));
    assert_eq!(num("100"), from_i64(100));
    assert_eq!(num("-3.9").to_i64(), -3);
    assert_eq!(num("2.5e1").to_i64(), 25);
    assert_eq!(json::to_string(&Json::Num(num("0.000120"))), "0.00012");
}

#[test]
fn spans_and_labels_are_guarded() {
    assert!(valid_span(0, 1));
    assert!(!valid_span(1, 1));
    assert_eq!(nonblank("  x  "), Some("x".to_string()));
    assert_eq!(nonblank(" \t "), None);
}

#[test]
fn a_comment_on_a_region_edits_only_that_region() {
    let evs = comment_to_events(&json::parse(r#"{"kind":"region-rename","regionId":"K2","text":" Ship "}"#).unwrap());
    assert_eq!(evs, vec![Event::PhaseRenamed { id: "K2".into(), label: "Ship".into() }]);
}

#[test]
fn long_words_break_at_humps_and_then_by_width() {
    assert_eq!(hump_split("placeOrderNow"), vec!["place", "Order", "Now"]);
    assert_eq!(atoms("abcdefgh", 3), vec!["abc", "def", "gh"]);
    assert_eq!(wrap("PaymentAuthorisationRequested", 12, 3), vec!["Payment", "Authorisatio", "nRequested"]);
    assert_eq!(wrap("PaymentAuthorisationRequested", 12, 2), vec!["Payment", "Authorisati\u{2026}"]);
}

#[test]
fn an_event_object_names_its_kind_first() {
    let o = to_json(&Event::PhaseRemoved { id: "K1".into() });
    assert_eq!(json::to_string(&o), r#"{"event":"PhaseRemoved","id":"K1"}"#);
}

#[test]
fn a_compacted_log_written_out_reads_back_and_replays_to_the_same_board() {
    let batch = sample_batch();
    let folded = compact(&batch);
    let read = parse_log_full(&to_jsonl(&folded)).unwrap();
    assert_eq!(read.events, folded);
    assert_eq!((read.unread, read.corrupt), (0, 0));
    assert_eq!(replay(&read.events), replay(&batch));
}

#[test]
fn a_source_is_read_as_a_log_or_a_board_file_by_its_extension() {
    let log = "{\"event\":\"BoardTitled\",\"title\":\"From a log\"}\n\
               {\"event\":\"ElementAdded\",\"id\":\"E1\",\"type\":\"event\",\"label\":\"A\"}\n";
    assert_eq!(lib::log::read_source("a/b.event-log.jsonl", log).unwrap().elements.len(), 1);
    assert!(lib::log::read_source("a/b.model.json", log).is_err());
    assert!(lib::log::read_source("x.log", "{not json}").is_err());
    assert!(lib::log::read_source("x.log", r#"{"title":"T"}"#).unwrap().elements.is_empty());
}

#[test]
fn text_after_the_value_is_refused() {
    assert_eq!(json::parse("{} x").unwrap_err(), "unexpected token at position 3");
    assert!(json::parse("[1] [2]").is_err());
    assert!(json::parse(" \n{\"a\":1}\t\r\n ").is_ok());
    assert!(read_model(r#"{"elements":[]} trailing"#).is_err());
}

#[test]
fn a_wrapped_label_keeps_to_its_width_and_line_cap() {
    let label = "AnExtraordinarilyLongCamelCaseIdentifier plus several ordinary words after it";
    for width in 1..12usize {
        for cap in 1..5usize {
            let lines = wrap(label, width, cap);
            assert!(!lines.is_empty() && lines.len() <= cap);
            for l in &lines {
                assert!(l.chars().count() <= width, "{:?} at width {}", l, width);
            }
        }
    }
    assert_eq!(wrap(" \t  ", 5, 2), vec![String::new()]);
    assert_eq!(wrap("", 5, 2), vec![String::new()]);
}

#[test]
fn a_split_into_a_live_region_id_changes_nothing() {
    let log = vec![
        ev(r#"{"event":"PhaseAdded","id":"K1","label":"A","fromCol":0,"toCol":3}"#),
        ev(r#"{"event":"PhaseAdded","id":"K2","label":"B","fromCol":4,"toCol":7}"#),
        ev(r#"{"event":"PhaseSplit","id":"K1","atCol":2,"newId":"K2","newLabel":"C"}"#),
    ];
    let board = replay(&log);
    assert_eq!(board.phases.len(), 2);
    assert_eq!((board.phases[0].id.as_str(), board.phases[0].to_col), ("K1", 3));
    assert_eq!(replay(&compact(&log)), board);
}

#[test]
fn a_blank_label_wraps_to_one_empty_line_at_any_width() {
    assert_eq!(wrap("   ", 0, 0), vec![String::new()]);
    assert_eq!(wrap("", 0, 3), vec![String::new()]);
    assert_eq!(atoms("", 0), vec![String::new()]);
}

#[test]
fn comments_after_new_stickies_keep_exactly_the_undropped_ones() {
    let mut log = vec![
        ev(r#"{"event":"ElementAdded","id":"E1","type":"event","label":"One"}"#),
        ev(r#"{"event":"ElementAdded","id":"E2","type":"event","label":"Two"}"#),
        ev(r#"{"event":"ElementAdded","id":"E3","type":"event","label":"Three"}"#),
    ];
    for body in [
        r#"{"elemId":"E1","kind":"rename","text":"  "}"#,
        r#"{"elemId":"E2","kind":"drop"}"#,
        r#"{"elemId":"E3","kind":"rename","text":"\t"}"#,
        r#"{"elemId":"E1","kind":"comment","text":""}"#,
    ] {
        log.extend(comment_to_events(&json::parse(body).unwrap()));
    }
    let board = replay(&log);
    let ids: Vec<&str> = board.elements.iter().map(|e| e.id.as_str()).collect();
    assert_eq!(ids, vec!["E1", "E3"]);
    assert!(board.elements.iter().all(|e| !e.label.trim().is_empty()));
}
