use lib::model::{all_lanes, lane_to_str};
use lib::render::{esc, hump_split, lane_prefix, render_html, split_label, wrap};

#[test]
fn hump_split_breaks_camelcase_and_acronym_runs() {
    assert_eq!(hump_split("ItemAdded"), vec!["Item", "Added"]);
    assert_eq!(hump_split("HTTPServer"), vec!["HTTP", "Server"]);
    assert_eq!(hump_split("plain"), vec!["plain"]);
}

#[test]
fn esc_encodes_the_five_xml_special_chars() {
    assert_eq!(esc("&<>\"'"), "&amp;&lt;&gt;&quot;&#x27;");
}

#[test]
fn split_label_prefers_detail_then_trailing_parenthetical() {
    assert_eq!(split_label("Title", Some("a detail")), ("Title".to_string(), "a detail".to_string()));
    assert_eq!(
        split_label("ItemAdded (when cart open)", None),
        ("ItemAdded".to_string(), "when cart open".to_string())
    );
    assert_eq!(split_label("Plain", None), ("Plain".to_string(), String::new()));
}

#[test]
fn lane_prefix_is_aligned_with_lanes_and_total() {
    let lanes = all_lanes();
    let prefixes: Vec<char> = lanes.iter().map(|l| lane_prefix(lane_to_str(*l)).unwrap()).collect();
    assert_eq!(lanes.len(), prefixes.len());
    assert!(lanes.iter().all(|l| lane_prefix(lane_to_str(*l)).is_some()));
    assert_eq!(lane_prefix("actor"), Some('X'));
    assert_eq!(lane_prefix("aggregate"), Some('A'));
    assert_eq!(lane_prefix("hotspot"), Some('H'));
    assert_eq!(lane_prefix("not-a-lane"), None);
}

#[test]
fn render_html_injects_the_geometry_config() {
    let html = render_html("<svg></svg>", "t");
    assert!(!html.contains("__CONFIG__"));
    assert!(html.contains("\"colW\":210"));
    assert!(html.contains("\"stickyW\":176"));
}

#[test]
fn wrap_fits_short_labels_and_ellipsises_overflow() {
    assert_eq!(wrap("Order Placed", 20, 2), vec!["Order Placed".to_string()]);
    assert_eq!(wrap("aaaa bbbb cccc", 4, 1), vec!["aaa\u{2026}".to_string()]);
}
