use lib::json::{parse, to_string, Json};
use lib::number::from_i64;

const SURROGATE_SRC: &str = r#""\uD83D\uDE00""#;

#[test]
fn parses_scalars_and_accessors() {
    let j = parse(r#"{"n":42,"s":"hi","b":true,"a":[1,2],"z":null}"#).unwrap();
    assert_eq!(j.get("n").and_then(Json::as_num), Some(from_i64(42)));
    assert_eq!(j.get("s").and_then(Json::as_str), Some("hi"));
    assert_eq!(j.get("b").and_then(Json::as_bool), Some(true));
    assert_eq!(j.get("a").and_then(Json::as_array).map(Vec::len), Some(2));
    assert!(matches!(j.get("z"), Some(Json::Null)));
    assert!(j.get("missing").is_none());
}

#[test]
fn objects_keep_author_order_on_roundtrip() {
    let src = r#"{"z":1,"a":2,"m":"x"}"#;
    assert_eq!(to_string(&parse(src).unwrap()), src);
}

#[test]
fn integers_serialize_without_a_decimal_point() {
    assert_eq!(to_string(&Json::Num(from_i64(3))), "3");
    assert_eq!(to_string(&Json::Num(from_i64(-7))), "-7");
}

#[test]
fn strings_escape_control_and_quote_chars() {
    assert_eq!(to_string(&Json::Str("a\"b\nc\\d".into())), r#""a\"b\nc\\d""#);
}

#[test]
fn parses_strings_with_escapes_and_multibyte_chars() {
    assert_eq!(parse(r#""line\nbreak""#).unwrap().as_str(), Some("line\nbreak"));
    assert_eq!(parse(r#""café 😀""#).unwrap().as_str(), Some("café 😀"));
}

#[test]
fn parses_u_escape_surrogate_pair() {
    let src = SURROGATE_SRC;
    assert_eq!(parse(src).unwrap().as_str(), Some("😀"));
}

#[test]
fn rejects_trailing_garbage_and_truncation() {
    assert!(parse("{").is_err());
    assert!(parse(r#"{"a":}"#).is_err());
}
