use rsjson::{Json, Node, NodeContent};

#[test]
fn object_with_list() {
    let j = Json::fromString("{\"a\":1,\"b\":[1,2,3]}").unwrap();
    assert_eq!(j.get("a"), Some(&NodeContent::Int(1)));
    let b = j.get("b").unwrap();
    assert_eq!(
        b,
        &NodeContent::List(vec![
            NodeContent::Int(1),
            NodeContent::Int(2),
            NodeContent::Int(3),
        ])
    );
}

#[test]
fn empty_object() {
    let j = Json::fromString("{}").unwrap();
    assert_eq!(j.getAllNodes().len(), 0);
    assert_eq!(j.toString(), "{}");
}

#[test]
fn escaped_quotes_round_trip() {
    let text = "{\"s\":\"he said \\\"hi\\\"\"}";
    let j = Json::fromString(text).unwrap();
    assert_eq!(
        j.get("s"),
        Some(&NodeContent::Str(String::from("he said \"hi\"")))
    );
    assert_eq!(j.toString(), text);
}

#[test]
fn nested_object() {
    let j = Json::fromString("{\"n\":{\"k\":true}}").unwrap();
    let inner = j.get("n").unwrap().toJson().unwrap();
    assert_eq!(inner.get("k"), Some(&NodeContent::Bool(true)));
    assert!(inner.has("k"));
}

#[test]
fn trailing_comma_in_list_rejected() {
    assert!(Json::fromString("{\"k\":[1,2,]}").is_err());
}

#[test]
fn whitespace_between_tokens() {
    let j = Json::fromString("{\n  \"key\" : \"value\",\n  \"second_key\" : [\"one\", \"two\"]\n}")
        .unwrap();
    assert_eq!(j.get("key"), Some(&NodeContent::Str(String::from("value"))));
    let list = j.get("second_key").unwrap().toList().unwrap();
    assert_eq!(list.len(), 2);
    assert_eq!(list[0], NodeContent::Str(String::from("one")));
}

#[test]
fn scalars_parse_and_render() {
    let text = "{\"i\":7,\"f\":2.5,\"b\":false,\"z\":null,\"s\":\"x\"}";
    let j = Json::fromString(text).unwrap();
    assert_eq!(j.get("i").unwrap().toUsize(), Some(7));
    assert_eq!(j.get("f").unwrap().toFloat(), Some(String::from("2.5")));
    assert_eq!(j.get("b").unwrap().toBool(), Some(false));
    assert_eq!(j.get("z"), Some(&NodeContent::Null));
    assert_eq!(j.get("s").unwrap().toString(), Some(String::from("x")));
    assert_eq!(j.toString(), text);
}

#[test]
fn float_text_survives_round_trip() {
    let j = Json::fromString("{\"f\":3.50}").unwrap();
    assert_eq!(j.get("f").unwrap().toFloat(), Some(String::from("3.50")));
    assert_eq!(j.toString(), "{\"f\":3.50}");
}

#[test]
fn built_document_round_trips() {
    let mut d = Json::new();
    d.addNode(Node::new("a", NodeContent::Int(1)));
    d.addNode(Node::new(
        "b",
        NodeContent::List(vec![NodeContent::Bool(true), NodeContent::Null]),
    ));
    let mut inner = Json::new();
    inner.addNode(Node::new("k", NodeContent::Str(String::from("v"))));
    d.addNode(Node::new("c", NodeContent::Json(inner)));
    let text = d.toString();
    assert_eq!(text, "{\"a\":1,\"b\":[true,null],\"c\":{\"k\":\"v\"}}");
    let d2 = Json::fromString(&text).unwrap();
    assert_eq!(d, d2);
    assert_eq!(d2.toString(), text);
}

#[test]
fn label_with_quote_is_escaped_by_renderer() {
    let mut d = Json::new();
    d.addNode(Node::new("a\"b", NodeContent::Int(0)));
    assert_eq!(d.toString(), "{\"a\\\"b\":0}");
    let d2 = Json::fromString(&d.toString()).unwrap();
    let node = d2.getAllNodes().remove(0);
    assert_eq!(node.getLabel(), "a\"b");
}

#[test]
fn backslash_escaping_round_trip() {
    let mut d = Json::new();
    d.addNode(Node::new("p", NodeContent::Str(String::from("a\\b"))));
    let text = d.toString();
    assert_eq!(text, "{\"p\":\"a\\\\b\"}");
    let d2 = Json::fromString(&text).unwrap();
    assert_eq!(
        d2.get("p"),
        Some(&NodeContent::Str(String::from("a\\b")))
    );
    assert_eq!(d2.toString(), text);
}

#[test]
fn bytes_are_rendered_text() {
    let j = Json::fromString("{\"a\":1}").unwrap();
    assert_eq!(j.bytes(), b"{\"a\":1}".to_vec());
}

#[test]
fn render_content_of_values() {
    assert_eq!(Json::renderContent(&NodeContent::Null), "null");
    assert_eq!(Json::renderContent(&NodeContent::Int(120)), "120");
    assert_eq!(Json::renderContent(&NodeContent::Bool(true)), "true");
    assert_eq!(
        Json::renderContent(&NodeContent::List(vec![])),
        "[]"
    );
    assert_eq!(
        Json::renderContent(&NodeContent::Str(String::from("q"))),
        "\"q\""
    );
}
