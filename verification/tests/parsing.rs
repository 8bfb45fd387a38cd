use xml_json::convert::write_json;
use xml_json::json::{parse_json, JsonParser, JsonValue};
use xml_json::xml::parse_xml;

fn s(t: &str) -> String {
    t.to_string()
}

#[test]
fn json_values_parse() {
    assert_eq!(parse_json("null").unwrap(), JsonValue::Null);
    assert_eq!(parse_json("true").unwrap(), JsonValue::Boolean(true));
    assert_eq!(parse_json("false").unwrap(), JsonValue::Boolean(false));
    assert_eq!(parse_json("-12.5e+3").unwrap(), JsonValue::Number(s("-12.5e+3")));
    assert_eq!(parse_json("\"hi\"").unwrap(), JsonValue::String(s("hi")));
    assert_eq!(parse_json("[]").unwrap(), JsonValue::Array(vec![]));
    assert_eq!(parse_json("{}").unwrap(), JsonValue::Object(vec![]));
}

#[test]
fn json_string_escapes_decode() {
    let v = parse_json("\"a\\n\\t\\r\\b\\f\\/\\\\\\\"z\"").unwrap();
    assert_eq!(v, JsonValue::String(s("a\n\t\r\u{8}\u{c}/\\\"z")));
}

#[test]
fn json_duplicate_keys_keep_last_value() {
    let v = parse_json("{\"a\":1,\"a\":2}").unwrap();
    assert_eq!(v, JsonValue::Object(vec![(s("a"), JsonValue::Number(s("2")))]));
}

#[test]
fn json_malformed_object_fails() {
    assert!(parse_json("{\"a\":}").is_err());
}

#[test]
fn json_truncated_number_fails() {
    assert_eq!(parse_json("1.").unwrap_err(), "Expected digit after decimal point");
    assert_eq!(parse_json("1e+").unwrap_err(), "Expected digit after exponent");
    assert_eq!(parse_json("-x").unwrap_err(), "Invalid number");
}

#[test]
fn json_number_needs_an_integer_part() {
    assert_eq!(parse_json("-.5").unwrap_err(), "Invalid number");
    assert_eq!(parse_json("-e5").unwrap_err(), "Invalid number");
    assert_eq!(parse_json("-0.5").unwrap(), JsonValue::Number("-0.5".to_string()));
}

#[test]
fn json_unterminated_string_fails() {
    assert_eq!(parse_json("\"abc").unwrap_err(), "Unterminated string");
}

#[test]
fn json_unknown_escape_fails() {
    assert_eq!(parse_json("\"\\q\"").unwrap_err(), "Invalid escape sequence");
}

#[test]
fn json_literal_and_separator_errors() {
    assert_eq!(parse_json("nul").unwrap_err(), "Expected null");
    assert_eq!(parse_json("tru").unwrap_err(), "Expected true or false");
    assert_eq!(parse_json("[1 2]").unwrap_err(), "Expected comma");
    assert_eq!(parse_json("{\"a\" 1}").unwrap_err(), "Expected colon");
    assert_eq!(parse_json("{1:2}").unwrap_err(), "Expected string as object key");
    assert_eq!(parse_json("").unwrap_err(), "Unexpected end of input");
    assert_eq!(parse_json("@").unwrap_err(), "Unexpected character '@'");
    assert_eq!(parse_json("1 x").unwrap_err(), "Unexpected characters after JSON value");
}

#[test]
fn xml_mismatched_tags_fail() {
    assert_eq!(parse_xml("<a><b></a>").unwrap_err(), "Mismatched tags: b and a");
}

#[test]
fn xml_structural_errors_name_the_characters() {
    assert_eq!(parse_xml("a").unwrap_err(), "Expected '<', found 'a'");
    assert_eq!(parse_xml("").unwrap_err(), "Expected '<', found end of input");
    assert_eq!(parse_xml("<>").unwrap_err(), "Expected tag name");
    assert_eq!(parse_xml("<a x>").unwrap_err(), "Expected '=', found '>'");
    assert_eq!(parse_xml("<a x=1>").unwrap_err(), "Expected '\"', found '1'");
    assert_eq!(parse_xml("<a x=\"1").unwrap_err(), "Unterminated attribute value");
    assert_eq!(parse_xml("<a>").unwrap_err(), "Expected '<', found end of input");
}

#[test]
fn whitespace_between_tokens_is_ignored() {
    assert_eq!(
        parse_xml("  <a>\n  <b/>\t</a>  ").unwrap(),
        parse_xml("<a><b/></a>").unwrap()
    );
    assert_eq!(
        parse_json(" { \"a\" : 1 , \"b\" : [ 1 , 2 ] } ").unwrap(),
        parse_json("{\"a\":1,\"b\":[1,2]}").unwrap()
    );
    assert_eq!(
        parse_xml("<a x = \"1\" ><b/><b/></a>").unwrap(),
        parse_xml("<a x=\"1\"><b/><b/></a>").unwrap()
    );
}

#[test]
fn trailing_text_after_root_is_ignored() {
    let mut p = JsonParser::new("1");
    assert_eq!(p.parse().unwrap(), JsonValue::Number(s("1")));
    assert_eq!(parse_xml("<a/> tail").unwrap(), parse_xml("<a/>").unwrap());
}

#[test]
fn json_round_trip_reproduces_the_value() {
    let v = JsonValue::Object(vec![
        (s("a"), JsonValue::Number(s("1"))),
        (
            s("b"),
            JsonValue::Array(vec![
                JsonValue::Boolean(true),
                JsonValue::Null,
                JsonValue::String(s("x \"quoted\" \\ yes")),
                JsonValue::Number(s("-2.5e-1")),
            ]),
        ),
        (s("empty"), JsonValue::Object(vec![])),
    ]);
    let text = write_json(&v);
    assert_eq!(parse_json(&text).unwrap(), v);
}

#[test]
fn json_round_trip_reproduces_the_text() {
    let text = "{\"a\":1,\"b\":[true,null,\"x\"]}";
    let v = parse_json(text).unwrap();
    assert_eq!(write_json(&v), text);
}
