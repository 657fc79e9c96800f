use lib::paths::{dir_of, is_log_path, log_beside, output_path, output_stem};

#[test]
fn log_beside_is_the_sibling_event_log() {
    assert_eq!(log_beside("/a/b/orders.model.json"), "/a/b/orders.event-log.jsonl");
    assert_eq!(log_beside("orders.model.json"), "./orders.event-log.jsonl");
}

#[test]
fn output_stem_derives_a_board_name_per_source() {
    assert_eq!(output_stem("/a/b/orders.model.json"), "orders");
    assert_eq!(output_stem("orders.model.json"), "orders");
    assert_eq!(output_stem("/a/orders.event-log.jsonl"), "orders");
    assert_eq!(output_stem("/a/event-log.jsonl"), "event-log");
    assert_eq!(output_stem("foo.json"), "foo");
    assert_eq!(output_stem("plain.txt"), "plain");
    assert_eq!(output_stem(""), "board");
}

#[test]
fn a_path_with_no_extension_is_not_a_log() {
    assert!(!is_log_path("event-log"));
    assert!(is_log_path("/var/x/trail.jsonl"));
}

#[test]
fn dir_of_falls_back_to_the_current_directory() {
    assert_eq!(dir_of("/a/b/orders.model.json"), "/a/b");
    assert_eq!(dir_of("orders.model.json"), ".");
}

#[test]
fn a_board_file_and_its_log_share_one_board_name() {
    for source in [
        "/a/b/orders.model.json",
        "/a/orders.event-log.jsonl",
        "/a/event-log.jsonl",
        "foo.json",
        "",
        "..model.json",
        "notes.",
    ] {
        assert_eq!(output_stem(&log_beside(source)), output_stem(source), "{source:?}");
    }
}

#[test]
fn stems_and_extensions_follow_the_last_dot() {
    assert!(!is_log_path(".jsonl"), "a leading dot alone marks no extension");
    assert_eq!(output_stem(".jsonl"), ".jsonl");
    assert!(is_log_path("a.b.log"));
    assert_eq!(output_stem("a.b.log"), "a.b");
    assert_eq!(output_stem("notes."), "notes");
}

#[test]
fn rendered_files_sit_beside_their_source_under_its_board_name() {
    assert_eq!(output_path("/a/orders.model.json", "svg"), "/a/orders.svg");
    assert_eq!(output_path("orders.event-log.jsonl", "html"), "./orders.html");
}
