use csvtree::assemble::assemble;
use csvtree::json::pretty_json;
use csvtree::node::Node;
use csvtree::path::BuildError;
use csvtree::render::json_to_xml;
use csvtree::table::csv_to_doc;

fn s(t: &str) -> String {
    t.to_string()
}

fn strings(v: &[&str]) -> Vec<String> {
    v.iter().map(|t| t.to_string()).collect()
}

fn mapping(v: &[(&str, &str)]) -> Vec<(String, String)> {
    v.iter().map(|(a, b)| (a.to_string(), b.to_string())).collect()
}

fn from_value(v: &serde_json::Value) -> Node {
    match v {
        serde_json::Value::Object(m) => {
            Node::Object(m.iter().map(|(k, v)| (k.clone(), from_value(v))).collect())
        }
        serde_json::Value::Array(items) => Node::Array(items.iter().map(from_value).collect()),
        serde_json::Value::String(t) => Node::Str(t.clone()),
        serde_json::Value::Number(n) => Node::Number(n.to_string()),
        serde_json::Value::Bool(b) => Node::Bool(*b),
        serde_json::Value::Null => Node::Null,
    }
}

#[test]
fn rows_merge_into_one_document() {
    let headers = strings(&["id", "city"]);
    let rows = vec![strings(&["1", "NY"]), strings(&["2", "LA"])];
    let m = mapping(&[("id", "rec.id"), ("city", "rec.city")]);
    let doc = assemble(&headers, &rows, &m).unwrap();
    let expected = Node::Object(vec![(
        s("rec"),
        Node::Object(vec![(s("id"), Node::Str(s("2"))), (s("city"), Node::Str(s("LA")))]),
    )]);
    assert_eq!(doc, expected);
    assert_eq!(json_to_xml(&doc, ""), "<rec><id>2</id><city>LA</city></rec>");
}

#[test]
fn no_rows_gives_empty_object() {
    let headers = strings(&["id"]);
    let rows: Vec<Vec<String>> = Vec::new();
    let m = mapping(&[("id", "rec.id")]);
    assert_eq!(assemble(&headers, &rows, &m), Ok(Node::Object(Vec::new())));
}

#[test]
fn unmapped_column_is_configuration_error() {
    let headers = strings(&["id", "zip"]);
    let rows = vec![strings(&["1", "0150"])];
    let m = mapping(&[("id", "rec.id")]);
    assert_eq!(
        assemble(&headers, &rows, &m),
        Err(BuildError::Configuration(s("zip")))
    );
}

#[test]
fn conflicting_mapping_is_structural_error() {
    let headers = strings(&["a", "b"]);
    let rows = vec![strings(&["1", "2"])];
    let m = mapping(&[("a", "x.y"), ("b", "x.y.z")]);
    assert_eq!(
        assemble(&headers, &rows, &m),
        Err(BuildError::StructuralConflict(s("x.y.z")))
    );
}

#[test]
fn flexible_rows_short_and_long() {
    let headers = strings(&["id", "city"]);
    let rows = vec![strings(&["1"]), strings(&["2", "LA", "extra"])];
    let m = mapping(&[("id", "rec.id"), ("city", "rec.city")]);
    let doc = assemble(&headers, &rows, &m).unwrap();
    let expected = Node::Object(vec![(
        s("rec"),
        Node::Object(vec![(s("id"), Node::Str(s("2"))), (s("city"), Node::Str(s("LA")))]),
    )]);
    assert_eq!(doc, expected);
}

#[test]
fn pretty_json_round_trip() {
    let headers = strings(&["id", "name", "city", "note"]);
    let rows = vec![strings(&["10", "Ann", "Bergen", "say \"hi\"\n<ok>"])];
    let m = mapping(&[
        ("id", "customer.id"),
        ("name", "customer.name"),
        ("city", "customer.address.city"),
        ("note", "note"),
    ]);
    let doc = assemble(&headers, &rows, &m).unwrap();
    let text = pretty_json(&doc).unwrap();
    let parsed: serde_json::Value = serde_json::from_str(&text).unwrap();
    assert_eq!(from_value(&parsed), doc);
}

#[test]
fn csv_text_rows_merge() {
    let m = mapping(&[("id", "rec.id"), ("city", "rec.city")]);
    let doc = csv_to_doc(b"id,city\n1,NY\n2,LA\n", &m).unwrap();
    let expected = Node::Object(vec![(
        s("rec"),
        Node::Object(vec![(s("id"), Node::Str(s("2"))), (s("city"), Node::Str(s("LA")))]),
    )]);
    assert_eq!(doc, expected);
}

#[test]
fn csv_text_flexible_and_quoted() {
    let m = mapping(&[("name", "p.name"), ("note", "p.note")]);
    let doc = csv_to_doc(b"name,note\n\"Doe, J\"\nAnn,\"a \"\"b\"\"\",extra\n", &m).unwrap();
    let expected = Node::Object(vec![(
        s("p"),
        Node::Object(vec![
            (s("name"), Node::Str(s("Ann"))),
            (s("note"), Node::Str(s("a \"b\""))),
        ]),
    )]);
    assert_eq!(doc, expected);
}

#[test]
fn csv_text_unmapped_column() {
    let m = mapping(&[("id", "rec.id")]);
    assert_eq!(
        csv_to_doc(b"id,zip\n1,2\n", &m),
        Err(BuildError::Configuration(s("zip")))
    );
}

#[test]
fn csv_text_invalid_utf8_is_source_error() {
    let m = mapping(&[("id", "rec.id")]);
    let r = csv_to_doc(b"id\n\xff\xfe\n", &m);
    assert!(matches!(r, Err(BuildError::SourceFormat(_))));
}

#[test]
fn csv_text_header_only() {
    let m = mapping(&[("id", "rec.id")]);
    assert_eq!(csv_to_doc(b"id\n", &m), Ok(Node::Object(Vec::new())));
}
