use lib::event::Event;
use lib::log::{parse_log, parse_log_full};
use lib::paths::is_log_path;

#[test]
fn an_optional_lane_it_cannot_read_still_leaves_the_rest_of_the_move() {
    let read = parse_log_full(
        r#"{"event":"ElementAdded","id":"E1","type":"event","label":"P","col":0}
{"event":"ElementMoved","id":"E1","col":5,"type":"timer"}"#,
    )
    .unwrap();
    assert_eq!(read.events.len(), 2);
    assert!(matches!(&read.events[1], Event::ElementMoved { col: Some(5), kind: None, .. }));
    assert_eq!(read.unread, 1);
}

#[test]
fn a_required_lane_it_cannot_read_still_drops_the_whole_record() {
    let read = parse_log_full(
        r#"{"event":"ElementAdded","id":"T1","type":"timer","label":"P"}
{"event":"BoardTitled","title":"T"}"#,
    )
    .unwrap();
    assert_eq!(read.events.len(), 1);
    assert_eq!(read.unread, 1);
}

#[test]
fn parse_log_errors_on_a_malformed_known_event() {
    assert!(parse_log(r#"{"event":"ElementAdded","id":"E1"}"#).is_err());
    assert!(parse_log(r#"{"event":"PhaseAdded","label":"A","fromCol":0}"#).is_err());
}

#[test]
fn log_unknown_event_kinds_are_skipped_for_forward_compat() {
    let log = parse_log(
        "{\"event\":\"ElementAdded\",\"id\":\"E1\",\"type\":\"event\",\"label\":\"A\"}\n\
         {\"event\":\"SomethingFromTheFuture\",\"id\":\"E1\"}\n",
    )
    .unwrap();
    assert_eq!(log.len(), 1);
}

#[test]
fn a_log_of_nothing_but_unknown_kinds_is_an_error_not_an_empty_board() {
    let err = parse_log(
        "{\"event\":\"CanvasNamed\",\"name\":\"Billing\"}\n\
         {\"event\":\"SlotFilled\",\"slot\":\"ubiquitous-language\"}\n",
    )
    .unwrap_err();
    assert!(err.contains("2 record(s)"), "{}", err);
    assert!(err.contains("none of a recognised event kind"), "{}", err);
}

#[test]
fn one_recognised_event_keeps_the_lenient_forward_compatible_read() {
    let log = parse_log(
        "{\"event\":\"ElementAdded\",\"id\":\"E1\",\"type\":\"event\",\"label\":\"A\"}\n\
         {\"event\":\"FromTheFuture\",\"x\":1}\n",
    )
    .unwrap();
    assert_eq!(log.len(), 1);
}

#[test]
fn an_unknown_lane_is_not_evidence_of_a_foreign_format() {
    let err =
        parse_log("{\"event\":\"ElementAdded\",\"id\":\"T1\",\"type\":\"timer\",\"label\":\"A\"}\n").unwrap_err();
    assert!(err.contains("lane"), "{}", err);
    assert!(!err.contains("another board format"), "{}", err);
}

#[test]
fn a_read_reports_what_it_skipped_so_compact_cannot_fold_it_away() {
    let read = parse_log_full(
        "{\"event\":\"ElementAdded\",\"id\":\"E1\",\"type\":\"event\",\"label\":\"A\"}\n\
         {\"event\":\"ElementAdded\",\"id\":\"T1\",\"type\":\"timer\",\"label\":\"B\"}\n\
         {\"event\":\"FromTheFuture\",\"x\":1}\n",
    )
    .unwrap();
    assert_eq!(read.events.len(), 1);
    assert_eq!(read.unread, 2, "one unknown lane + one unknown kind");
}

#[test]
fn a_record_naming_no_kind_is_not_evidence_of_a_foreign_format() {
    assert!(parse_log(r#"{"evnet":"BoardTitled","title":"x"}"#).unwrap().is_empty());
    assert!(parse_log("[1,2]").unwrap().is_empty());
}

#[test]
fn an_unrelated_type_field_is_not_a_lane_this_build_cannot_read() {
    let read = parse_log_full(
        "{\"event\":\"BoardTitled\",\"title\":\"T\",\"type\":\"heading\"}\n\
         {\"event\":\"ElementAdded\",\"id\":\"E1\",\"type\":\"event\",\"label\":\"A\"}\n",
    )
    .unwrap();
    assert_eq!(read.events.len(), 2);
    assert_eq!(read.unread, 0);
}

#[test]
fn a_corrupt_line_is_counted_apart_from_one_a_newer_faceto_would_read() {
    let read = parse_log_full(
        "{\"event\":\"ElementAdded\",\"id\":\"E1\",\"type\":\"event\",\"label\":\"A\"}\n\
         {\"evnet\":\"typo\",\"x\":1}\n\
         {\"event\":\"FromTheFuture\",\"x\":1}\n",
    )
    .unwrap();
    assert_eq!(read.unread, 1);
    assert_eq!(read.corrupt, 1);
}

#[test]
fn the_nothing_readable_errors_count_every_record_they_read() {
    let err = parse_log(
        "{\"event\":\"CanvasNamed\",\"name\":\"B\"}\n\
         {\"evnet\":\"typo\",\"x\":1}\n",
    )
    .unwrap_err();
    assert!(err.contains("2 record(s)"), "{}", err);
}

#[test]
fn a_board_format_this_build_cannot_project_is_a_hard_error() {
    let err = parse_log(r#"{"event":"BoardFormat","format":"bounded-context-canvas"}"#).unwrap_err();
    assert!(err.contains("bounded-context-canvas"), "{}", err);
    assert!(err.contains("line 1"), "{}", err);
}

#[test]
fn an_explicit_event_storming_format_tag_reads_as_one_event() {
    let log = parse_log(r#"{"event":"BoardFormat","format":"event-storming"}"#).unwrap();
    assert_eq!(log, vec![Event::BoardFormat { format: "event-storming".into() }]);
}

#[test]
fn log_blank_lines_skipped_but_malformed_json_is_an_error() {
    assert!(parse_log("\n  \n").unwrap().is_empty());
    assert!(parse_log("{not json}").is_err());
}

#[test]
fn log_is_log_path_keys_on_extension() {
    assert!(is_log_path("event-log.jsonl"));
    assert!(is_log_path("a.log"));
    assert!(!is_log_path("model.json"));
}
