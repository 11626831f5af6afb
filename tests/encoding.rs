use csvtree::json::{pretty_json, to_json};
use csvtree::node::Node;

fn s(t: &str) -> String {
    t.to_string()
}

#[test]
fn pretty_json_exact_text() {
    let node = Node::Object(vec![(
        s("rec"),
        Node::Object(vec![(s("id"), Node::Str(s("2"))), (s("city"), Node::Str(s("LA")))]),
    )]);
    assert_eq!(
        pretty_json(&node),
        Some(s("{\n  \"rec\": {\n    \"id\": \"2\",\n    \"city\": \"LA\"\n  }\n}"))
    );
}

#[test]
fn pretty_json_empty_object() {
    assert_eq!(pretty_json(&Node::Object(Vec::new())), Some(s("{}")));
}

#[test]
fn pretty_json_rejects_other_documents() {
    assert_eq!(pretty_json(&Node::Null), None);
    assert_eq!(pretty_json(&Node::Array(vec![Node::Str(s("1"))])), None);
    let nested = Node::Object(vec![(s("n"), Node::Number(s("1")))]);
    assert_eq!(pretty_json(&nested), None);
    let dup = Node::Object(vec![(s("a"), Node::Str(s("1"))), (s("a"), Node::Str(s("2")))]);
    assert_eq!(pretty_json(&dup), None);
}

#[test]
fn to_json_keeps_text_and_order() {
    assert_eq!(
        to_json(&Node::Str(s("v"))),
        Some(serde_json::Value::String(s("v")))
    );
    let node = Node::Object(vec![(s("z"), Node::Str(s("1"))), (s("a"), Node::Str(s("2")))]);
    let v = to_json(&node).unwrap();
    let keys: Vec<&String> = v.as_object().unwrap().keys().collect();
    assert_eq!(keys, vec!["z", "a"]);
    assert_eq!(v["z"], serde_json::Value::String(s("1")));
    assert_eq!(v["a"], serde_json::Value::String(s("2")));
}
