use csvtree::node::Node;
use csvtree::render::{escape_text, json_to_xml};

fn s(t: &str) -> String {
    t.to_string()
}

#[test]
fn render_null_is_self_closing() {
    assert_eq!(json_to_xml(&Node::Null, "x"), "<x/>");
}

#[test]
fn render_string_leaf() {
    assert_eq!(json_to_xml(&Node::Str(s("v")), "x"), "<x>v</x>");
}

#[test]
fn render_object_under_tag() {
    let node = Node::Object(vec![(s("a"), Node::Str(s("1")))]);
    assert_eq!(json_to_xml(&node, "root"), "<root><a>1</a></root>");
}

#[test]
fn render_object_under_empty_tag() {
    let node = Node::Object(vec![(s("a"), Node::Str(s("1")))]);
    assert_eq!(json_to_xml(&node, ""), "<a>1</a>");
}

#[test]
fn render_array_repeats_tag() {
    let node = Node::Array(vec![Node::Str(s("1")), Node::Str(s("2"))]);
    assert_eq!(json_to_xml(&node, "item"), "<item>1</item><item>2</item>");
}

#[test]
fn render_number_and_bool() {
    assert_eq!(json_to_xml(&Node::Number(s("42")), "n"), "<n>42</n>");
    assert_eq!(json_to_xml(&Node::Bool(true), "b"), "<b>true</b>");
    assert_eq!(json_to_xml(&Node::Bool(false), "b"), "<b>false</b>");
}

#[test]
fn render_nested_in_order() {
    let node = Node::Object(vec![
        (
            s("rec"),
            Node::Object(vec![(s("id"), Node::Str(s("2"))), (s("city"), Node::Str(s("LA")))]),
        ),
        (s("tags"), Node::Array(vec![Node::Null, Node::Number(s("3"))])),
    ]);
    assert_eq!(
        json_to_xml(&node, ""),
        "<rec><id>2</id><city>LA</city></rec><tags/><tags>3</tags>"
    );
}

#[test]
fn render_empty_containers() {
    assert_eq!(json_to_xml(&Node::Object(Vec::new()), "e"), "<e></e>");
    assert_eq!(json_to_xml(&Node::Object(Vec::new()), ""), "");
    assert_eq!(json_to_xml(&Node::Array(Vec::new()), "e"), "");
}

#[test]
fn render_escapes_leaf_text() {
    assert_eq!(
        json_to_xml(&Node::Str(s("a<b & c>d")), "t"),
        "<t>a&lt;b &amp; c&gt;d</t>"
    );
    assert_eq!(escape_text("plain"), "plain");
    assert_eq!(escape_text(""), "");
    assert_eq!(escape_text("<&>"), "&lt;&amp;&gt;");
}
