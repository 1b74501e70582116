use rsjson::{Json, Node, NodeContent};

#[test]
fn add_then_remove_clears_membership() {
    let mut d = Json::new();
    d.addNode(Node::new("x", NodeContent::Int(3)));
    d.addNode(Node::new("keep", NodeContent::Bool(true)));
    d.addNode(Node::new("gone", NodeContent::Null));
    assert!(d.has("gone"));
    assert!(d.remove("gone"));
    assert!(!d.has("gone"));
    assert!(d.get("gone").is_none());
    assert!(d.has("keep"));
}

#[test]
fn remove_of_absent_label_reports_false() {
    let mut d = Json::new();
    d.addNode(Node::new("a", NodeContent::Int(1)));
    assert!(!d.remove("b"));
    assert!(d.has("a"));
}

#[test]
fn set_content_replaces_first_match() {
    let mut d = Json::new();
    d.addNode(Node::new("a", NodeContent::Int(1)));
    assert!(d.setContent("a", NodeContent::Bool(false)));
    assert_eq!(d.get("a"), Some(&NodeContent::Bool(false)));
    assert!(!d.setContent("missing", NodeContent::Null));
}

#[test]
fn duplicate_labels_keep_first_authoritative() {
    let mut d = Json::new();
    d.addNode(Node::new("a", NodeContent::Int(1)));
    d.addNode(Node::new("b", NodeContent::Int(2)));
    d.addNode(Node::new("a", NodeContent::Int(3)));
    assert_eq!(d.get("a"), Some(&NodeContent::Int(1)));
    assert_eq!(d.getAllNodes().len(), 3);
    // removing the first still leaves the later one enumerable and indexed
    assert!(d.remove("a"));
    assert!(d.has("a"));
    assert_eq!(d.get("a"), Some(&NodeContent::Int(3)));
    assert!(d.remove("a"));
    assert!(!d.has("a"));
}

#[test]
fn get_node_returns_pair() {
    let mut d = Json::new();
    d.addNode(Node::new("k", NodeContent::Str(String::from("v"))));
    let n = d.getNode("k").unwrap();
    assert_eq!(n.getLabel(), "k");
    assert_eq!(n.getContent(), NodeContent::Str(String::from("v")));
    assert!(d.getNode("absent").is_none());
}

#[test]
fn accessors_reject_other_shapes() {
    let c = NodeContent::Int(5);
    assert_eq!(c.toBool(), None);
    assert_eq!(c.toString(), None);
    assert_eq!(c.toFloat(), None);
    assert_eq!(c.toJson(), None);
    assert_eq!(c.toList(), None);
    assert_eq!(c.toNull(), None);
    assert_eq!(c.toUsize(), Some(5));
}

#[test]
fn parsed_document_membership_stays_consistent() {
    let mut d = Json::fromString("{\"a\":1,\"b\":2}").unwrap();
    assert!(d.has("a") && d.has("b"));
    d.remove("a");
    assert!(!d.has("a"));
    assert_eq!(d.toString(), "{\"b\":2}");
    d.addNode(Node::new("c", NodeContent::Int(9)));
    assert!(d.has("c"));
    assert_eq!(d.toString(), "{\"b\":2,\"c\":9}");
}

#[test]
fn duplicate_labels_survive_a_round_trip() {
    let mut d = Json::new();
    d.addNode(Node::new("a", NodeContent::Int(1)));
    d.addNode(Node::new("b", NodeContent::Int(2)));
    d.addNode(Node::new("a", NodeContent::Int(3)));
    let text = d.toString();
    assert_eq!(text, "{\"a\":1,\"b\":2,\"a\":3}");
    let d2 = Json::fromString(&text).unwrap();
    assert_eq!(d, d2);
}

#[test]
fn clone_is_deep_and_equal() {
    let d = Json::fromString("{\"n\":{\"k\":[1,2]},\"f\":1.25}").unwrap();
    let d2 = d.clone();
    assert_eq!(d, d2);
    assert_eq!(d2.toString(), d.toString());
}
