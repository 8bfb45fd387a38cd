use xml_json::convert::escape_xml_text;
use xml_json::json::{parse_json, JsonValue};
use xml_json::xml::{parse_xml, XmlNode, XmlParser};

fn s(t: &str) -> String {
    t.to_string()
}

#[test]
fn self_closing_element_maps_to_null() {
    let node = parse_xml("<a/>").unwrap();
    assert_eq!(node.tag, "a");
    assert!(node.attributes.is_empty());
    assert!(node.children.is_empty());
    assert!(node.text.is_none());
    assert_eq!(node.to_json(), JsonValue::Null);
}

#[test]
fn text_element_maps_to_string() {
    let node = parse_xml("<a>hello</a>").unwrap();
    assert_eq!(node.to_json(), JsonValue::String(s("hello")));
}

#[test]
fn repeated_children_fold_into_array() {
    let node = parse_xml("<a><b>1</b><b>2</b></a>").unwrap();
    let expected = JsonValue::Object(vec![
        (
            s("b"),
            JsonValue::Array(vec![JsonValue::String(s("1")), JsonValue::String(s("2"))]),
        ),
    ]);
    assert_eq!(node.to_json(), expected);
}

#[test]
fn attributes_become_attributes_member() {
    let node = parse_xml("<a x=\"1\"><b/></a>").unwrap();
    let expected = JsonValue::Object(vec![
        (
            s("@attributes"),
            JsonValue::Object(vec![(s("x"), JsonValue::String(s("1")))]),
        ),
        (s("b"), JsonValue::Null),
    ]);
    assert_eq!(node.to_json(), expected);
}

#[test]
fn text_beside_children_becomes_text_member() {
    let node = parse_xml("<a>hi<b/></a>").unwrap();
    let expected = JsonValue::Object(vec![
        (s("#text"), JsonValue::String(s("hi"))),
        (s("b"), JsonValue::Null),
    ]);
    assert_eq!(node.to_json(), expected);
}

#[test]
fn null_serializes_as_bare_open_tag() {
    let v = parse_json("null").unwrap();
    assert_eq!(v.to_xml(), "<root>");
}

#[test]
fn object_serializes_members_under_their_keys() {
    let v = parse_json("{\"a\":1,\"b\":[1,2]}").unwrap();
    let xml = v.to_xml();
    assert!(xml.starts_with("<root>"));
    assert!(xml.ends_with("</root>"));
    assert!(xml.contains("<a>1</a>"));
    assert!(xml.contains("<b>  <item>1</item>  <item>2</item></b>"));
    assert_eq!(xml, "<root>  <a>1</a>  <b>  <item>1</item>  <item>2</item></b></root>");
}

#[test]
fn booleans_and_strings_serialize_between_tags() {
    let v = parse_json("[true,false,\"x\"]").unwrap();
    assert_eq!(
        v.to_xml(),
        "<root>  <item>true</item>  <item>false</item>  <item>x</item></root>"
    );
}

#[test]
fn xml_text_is_escaped() {
    assert_eq!(escape_xml_text("a&b<c>d\"e'f"), "a&amp;b&lt;c&gt;d&quot;e&apos;f");
    let v = JsonValue::String(s("<&>"));
    assert_eq!(v.to_xml(), "<root>&lt;&amp;&gt;</root>");
}

#[test]
fn parser_state_is_reusable_through_new() {
    let mut p = XmlParser::new("<a/>");
    let node = p.parse().unwrap();
    assert_eq!(node, XmlNode::new(s("a")));
}

#[test]
fn attribute_values_are_taken_verbatim() {
    let node = parse_xml("<a msg=\"1 &lt; 2\"/>").unwrap();
    assert_eq!(node.attributes, vec![(s("msg"), s("1 &lt; 2"))]);
}

#[test]
fn last_attribute_value_wins() {
    let node = parse_xml("<a x=\"1\" x=\"2\"/>").unwrap();
    assert_eq!(node.attributes, vec![(s("x"), s("2"))]);
}

#[test]
fn last_text_run_wins() {
    let node = parse_xml("<a>one<b/>two</a>").unwrap();
    assert_eq!(node.text, Some(s("two")));
}
