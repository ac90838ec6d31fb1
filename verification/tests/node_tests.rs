use mmbr::node::Node;
use mmbr::node::NodeArena;
use mmbr::node::NodeKind;

#[test]
fn test_append_child_node() {
    let mut arena = NodeArena::new();
    let root = arena.new_node(Node::new(NodeKind::Document));
    let child = arena.new_node(Node::new(NodeKind::Text(String::from("hello"))));
    arena.append_child_node(root, child);

    let first = arena.node(root).first_child().unwrap();
    assert_eq!(arena.node(first).kind(), NodeKind::Text(String::from("hello")));
    let last = arena.node(root).last_child().unwrap();
    assert_eq!(arena.node(last).kind(), NodeKind::Text(String::from("hello")));
}

#[test]
fn append_preserves_sibling_order() {
    let mut arena = NodeArena::new();
    let root = arena.new_node(Node::new(NodeKind::Document));
    let a = arena.new_node(Node::new(NodeKind::Text(String::from("a"))));
    let b = arena.new_node(Node::new(NodeKind::Text(String::from("b"))));
    let c = arena.new_node(Node::new(NodeKind::Text(String::from("c"))));
    arena.append_child_node(root, a);
    arena.append_child_node(root, b);
    arena.append_child_node(root, c);

    // the chain first_child -> next_sibling -> next_sibling covers all three
    let first = arena.node(root).first_child().unwrap();
    assert_eq!(first, a);
    let second = arena.node(first).next_sibling().unwrap();
    assert_eq!(second, b);
    let third = arena.node(second).next_sibling().unwrap();
    assert_eq!(third, c);
    assert!(arena.node(third).next_sibling().is_none());
    // back-references
    assert_eq!(arena.node(root).last_child(), Some(c));
    assert_eq!(arena.node(c).previous_sibling(), Some(b));
    assert_eq!(arena.node(b).previous_sibling(), Some(a));
    assert!(arena.node(a).previous_sibling().is_none());
    assert_eq!(arena.node(a).parent(), Some(root));
    assert_eq!(arena.node(b).parent(), Some(root));
    assert_eq!(arena.node(c).parent(), Some(root));
}
