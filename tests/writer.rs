use csvtree::node::Node;
use csvtree::path::{insert_in_root, lookup_path, split_path, BuildError};

fn s(t: &str) -> String {
    t.to_string()
}

fn empty_root() -> Node {
    Node::Object(Vec::new())
}

#[test]
fn write_then_read_back() {
    let mut root = empty_root();
    assert_eq!(insert_in_root(&mut root, "customer.address.city", "Oslo"), Ok(()));
    assert_eq!(
        lookup_path(&root, "customer.address.city"),
        Some(&Node::Str(s("Oslo")))
    );
    assert_eq!(lookup_path(&root, "customer.address.zip"), None);
    assert_eq!(lookup_path(&root, "customer.address.city.x"), None);
}

#[test]
fn write_single_segment() {
    let mut root = empty_root();
    assert_eq!(insert_in_root(&mut root, "id", "7"), Ok(()));
    assert_eq!(root, Node::Object(vec![(s("id"), Node::Str(s("7")))]));
}

#[test]
fn shared_prefix_builds_one_object() {
    let mut root = empty_root();
    assert_eq!(insert_in_root(&mut root, "a.b", "1"), Ok(()));
    assert_eq!(insert_in_root(&mut root, "a.c", "2"), Ok(()));
    let expected = Node::Object(vec![(
        s("a"),
        Node::Object(vec![(s("b"), Node::Str(s("1"))), (s("c"), Node::Str(s("2")))]),
    )]);
    assert_eq!(root, expected);
}

#[test]
fn same_path_twice_last_write_wins() {
    let mut root = empty_root();
    assert_eq!(insert_in_root(&mut root, "a.b", "first"), Ok(()));
    assert_eq!(insert_in_root(&mut root, "a.b", "second"), Ok(()));
    let expected = Node::Object(vec![(
        s("a"),
        Node::Object(vec![(s("b"), Node::Str(s("second")))]),
    )]);
    assert_eq!(root, expected);
}

#[test]
fn value_then_longer_path_conflicts() {
    let mut root = empty_root();
    assert_eq!(insert_in_root(&mut root, "a.b", "1"), Ok(()));
    let before = Node::Object(vec![(
        s("a"),
        Node::Object(vec![(s("b"), Node::Str(s("1")))]),
    )]);
    assert_eq!(
        insert_in_root(&mut root, "a.b.c", "2"),
        Err(BuildError::StructuralConflict(s("a.b.c")))
    );
    assert_eq!(root, before);
}

#[test]
fn longer_path_then_value_conflicts() {
    let mut root = empty_root();
    assert_eq!(insert_in_root(&mut root, "a.b.c", "1"), Ok(()));
    assert_eq!(
        insert_in_root(&mut root, "a.b", "2"),
        Err(BuildError::StructuralConflict(s("a.b")))
    );
    assert_eq!(lookup_path(&root, "a.b.c"), Some(&Node::Str(s("1"))));
}

#[test]
fn non_object_root_conflicts() {
    let mut root = Node::Null;
    assert_eq!(
        insert_in_root(&mut root, "a", "1"),
        Err(BuildError::StructuralConflict(s("a")))
    );
    assert_eq!(root, Node::Null);
}

#[test]
fn write_keeps_insertion_order() {
    let mut root = empty_root();
    assert_eq!(insert_in_root(&mut root, "z", "1"), Ok(()));
    assert_eq!(insert_in_root(&mut root, "a", "2"), Ok(()));
    assert_eq!(insert_in_root(&mut root, "z", "3"), Ok(()));
    assert_eq!(
        root,
        Node::Object(vec![(s("z"), Node::Str(s("3"))), (s("a"), Node::Str(s("2")))])
    );
}

#[test]
fn split_path_segments() {
    assert_eq!(split_path("a.b.c"), vec![s("a"), s("b"), s("c")]);
    assert_eq!(split_path("abc"), vec![s("abc")]);
    assert_eq!(split_path(""), vec![s("")]);
    assert_eq!(split_path("a..b"), vec![s("a"), s(""), s("b")]);
    assert_eq!(split_path("é.ü"), vec![s("é"), s("ü")]);
}

#[test]
fn overwrite_leaves_other_paths() {
    let mut root = empty_root();
    assert_eq!(insert_in_root(&mut root, "a.b", "1"), Ok(()));
    assert_eq!(insert_in_root(&mut root, "a.c", "2"), Ok(()));
    assert_eq!(insert_in_root(&mut root, "x.y", "3"), Ok(()));
    assert_eq!(insert_in_root(&mut root, "a.b", "4"), Ok(()));
    let expected = Node::Object(vec![
        (
            s("a"),
            Node::Object(vec![(s("b"), Node::Str(s("4"))), (s("c"), Node::Str(s("2")))]),
        ),
        (s("x"), Node::Object(vec![(s("y"), Node::Str(s("3")))])),
    ]);
    assert_eq!(root, expected);
}
