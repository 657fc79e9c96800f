use lib::command::{fold_to_events, parse_command, Command, Fold, Mint, Rejection};
use lib::event::Event;
use lib::json;
use lib::model::Lane;
use lib::number::Number;

fn parse(body: &str) -> Result<Command, Rejection> {
    parse_command(&json::parse(body).unwrap())
}

fn evs(body: &str) -> Vec<Event> {
    match parse(body) {
        Ok(Command::Fold(cmd)) => fold_to_events(&cmd),
        _ => Vec::new(),
    }
}

fn why(body: &str) -> String {
    parse(body).expect_err("expected a rejection").message()
}

fn num(text: &str) -> Number {
    json::parse(text).unwrap().as_num().unwrap()
}

#[test]
fn a_body_naming_no_kind_is_a_comment() {
    assert_eq!(
        parse(r#"{"elemId":"E1","text":"hm"}"#),
        Ok(Command::Fold(Fold::Annotate { id: "E1".into(), text: "hm".into() }))
    );
}

#[test]
fn the_three_creation_kinds_parse_as_mints() {
    assert!(matches!(
        parse(r#"{"kind":"add","type":"event","text":"Paid"}"#),
        Ok(Command::Mint(Mint::Add { lane: Lane::Event, .. }))
    ));
    assert!(matches!(
        parse(r#"{"kind":"region-add","text":"Checkout","fromCol":0,"toCol":3}"#),
        Ok(Command::Mint(Mint::RegionAdd { .. }))
    ));
    assert!(matches!(
        parse(r#"{"kind":"phase-split","regionId":"K1","atCol":2,"text":"Right"}"#),
        Ok(Command::Mint(Mint::PhaseSplit { .. }))
    ));
}

#[test]
fn add_needs_a_lane_in_the_grammar_and_a_non_blank_label() {
    assert!(parse(r#"{"kind":"add","type":"epic","text":"Saga"}"#).is_err());
    assert!(parse(r#"{"kind":"add","text":"Saga"}"#).is_err());
    assert!(parse(r#"{"kind":"add","type":"event","text":"   "}"#).is_err());
}

#[test]
fn a_span_must_be_well_ordered() {
    for body in [
        r#"{"kind":"region-add","text":"X","fromCol":5,"toCol":2}"#,
        r#"{"kind":"region-add","text":"X","fromCol":4,"toCol":4}"#,
        r#"{"kind":"region-add","text":"X","fromCol":0}"#,
        r#"{"kind":"region-resize","regionId":"K1","fromCol":9,"toCol":2}"#,
        r#"{"kind":"region-resize","regionId":"K1","fromCol":3,"toCol":3}"#,
        r#"{"kind":"region-resize","regionId":"K1"}"#,
    ] {
        assert!(parse(body).is_err(), "{body}");
    }
}

#[test]
fn phase_split_needs_a_region_an_at_col_and_a_label() {
    for body in [
        r#"{"kind":"phase-split","atCol":2,"text":"R"}"#,
        r#"{"kind":"phase-split","regionId":"K1","text":"R"}"#,
        r#"{"kind":"phase-split","regionId":"K1","atCol":2}"#,
    ] {
        assert!(parse(body).is_err(), "{body}");
    }
}

#[test]
fn region_edits_key_off_region_id_not_elem_id() {
    assert_eq!(
        evs(r#"{"kind":"region-resize","regionId":"K1","fromCol":0,"toCol":5}"#),
        vec![Event::PhaseResized { id: "K1".into(), from_col: 0, to_col: 5 }]
    );
    assert_eq!(
        evs(r#"{"kind":"region-rename","regionId":"K1","text":"Fulfillment"}"#),
        vec![Event::PhaseRenamed { id: "K1".into(), label: "Fulfillment".into() }]
    );
    assert_eq!(
        evs(r#"{"kind":"region-remove","regionId":"K1"}"#),
        vec![Event::PhaseRemoved { id: "K1".into() }]
    );
    assert!(parse(r#"{"kind":"region-remove","elemId":"E1"}"#).is_err());
    assert!(parse(r#"{"kind":"region-rename","regionId":"K1","text":"   "}"#).is_err());
}

#[test]
fn frontier_move_needs_a_named_border_and_a_col() {
    assert_eq!(
        evs(r#"{"kind":"frontier-move","regionId":"K1","edge":"end","col":5}"#),
        vec![Event::FrontierMoved { id: "K1".into(), edge: "end".into(), col: 5 }]
    );
    assert!(parse(r#"{"kind":"frontier-move","regionId":"K1","edge":"sideways","col":5}"#).is_err());
    assert!(parse(r#"{"kind":"frontier-move","regionId":"K1","edge":"end"}"#).is_err());
}

#[test]
fn a_move_carrying_neither_a_col_nor_a_y_is_refused() {
    assert!(parse(r#"{"elemId":"E1","kind":"move"}"#).is_err());
    assert_eq!(evs(r#"{"elemId":"E1","kind":"move","col":2}"#).len(), 1);
    let want = num("0.6");
    assert!(matches!(
        &evs(r#"{"elemId":"E1","kind":"move","y":0.6}"#)[..],
        [Event::ElementMoved { col: None, y: Some(y), .. }] if *y == want
    ));
}

#[test]
fn a_move_clamps_and_rounds_its_y() {
    for (posted, stored) in [("1.7", "1"), ("-0.3", "0"), ("0.333333333333", "0.3333")] {
        let body = format!(r#"{{"elemId":"E1","kind":"move","y":{posted}}}"#);
        let want = num(stored);
        assert!(
            matches!(&evs(&body)[..], [Event::ElementMoved { y: Some(y), .. }] if *y == want),
            "posted {posted}"
        );
    }
}

#[test]
fn a_move_into_an_occupied_column_persists_both_stickies() {
    assert!(matches!(
        &evs(r#"{"elemId":"E1","kind":"move","col":3,"swapId":"E2","swapCol":1}"#)[..],
        [
            Event::ElementMoved { id: a, col: Some(3), .. },
            Event::ElementMoved { id: b, col: Some(1), .. },
        ] if a == "E1" && b == "E2"
    ));
}

#[test]
fn a_self_swap_or_a_swap_missing_its_col_is_dropped_not_persisted() {
    assert_eq!(evs(r#"{"elemId":"E1","kind":"move","col":2,"swapId":"E1","swapCol":0}"#).len(), 1);
    assert_eq!(evs(r#"{"elemId":"E1","kind":"move","col":2,"swapId":"E2"}"#).len(), 1);
}

#[test]
fn a_label_is_trimmed_and_never_blank() {
    for blank in ["", "   ", "\t", "\n  "] {
        let body = format!(r#"{{"elemId":"E1","kind":"rename","text":{blank:?}}}"#);
        assert!(parse(&body).is_err(), "blank rename {blank:?}");
    }
    assert_eq!(
        evs(r#"{"elemId":"E1","kind":"rename","text":"  PaymentTaken  "}"#),
        vec![Event::ElementRenamed { id: "E1".into(), label: "PaymentTaken".into() }]
    );
}

#[test]
fn a_resolution_may_be_empty_because_closing_is_the_act() {
    assert_eq!(
        evs(r#"{"elemId":"H1","kind":"resolve"}"#),
        vec![Event::HotspotResolved { id: "H1".into(), resolution: String::new() }]
    );
}

#[test]
fn an_edge_needs_two_present_distinct_non_blank_endpoints() {
    for body in [
        r#"{"kind":"connect","src":"E1","dst":"E1"}"#,
        r#"{"kind":"connect","src":"E1"}"#,
        r#"{"kind":"disconnect","dst":"E2"}"#,
        r#"{"kind":"connect","src":"","dst":"E2"}"#,
        r#"{"kind":"connect","src":"E1","dst":"  "}"#,
    ] {
        assert!(parse(body).is_err(), "{body}");
    }
    assert_eq!(
        evs(r#"{"kind":"connect","src":" E1 ","dst":"E2 "}"#),
        vec![Event::EdgeAdded { src: "E1".into(), dst: "E2".into(), label: None }]
    );
    assert_eq!(
        evs(r#"{"kind":"disconnect","src":"E1","dst":"E2"}"#),
        vec![Event::EdgeRemoved { src: "E1".into(), dst: "E2".into() }]
    );
}

#[test]
fn an_element_op_naming_no_element_is_refused() {
    for body in [
        r#"{"kind":"rename","text":"X"}"#,
        r#"{"kind":"drop"}"#,
        r#"{"kind":"move","col":1}"#,
        r#"{"kind":"comment","text":"hi"}"#,
    ] {
        assert!(parse(body).is_err(), "{body}");
    }
}

#[test]
fn a_kind_this_build_has_no_command_for_is_refused_by_name() {
    assert_eq!(
        parse(r#"{"elemId":"E1","kind":"renmae","text":"Paid"}"#),
        Err(Rejection::UnknownKind("renmae".into()))
    );
    for kind in ["comment", "question", "split"] {
        let body = format!(r#"{{"elemId":"E1","kind":"{kind}","text":"hm"}}"#);
        assert_eq!(
            evs(&body),
            vec![Event::ElementAnnotated { id: "E1".into(), text: "hm".into() }],
            "{kind}"
        );
    }
}

#[test]
fn a_rejection_says_which_command_and_why() {
    assert!(why(r#"{"elemId":"E1","kind":"rename","text":" "}"#).starts_with("rename:"));
    assert!(why(r#"{"kind":"add","type":"epic","text":"S"}"#).starts_with("add:"));
    assert_eq!(why(r#"{"elemId":"E1","kind":"nope"}"#), r#"no command named "nope""#);
}
