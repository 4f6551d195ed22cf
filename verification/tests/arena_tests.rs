use arena_tree::arena::{Arena, ArenaError};
use arena_tree::node::Node;
use arena_tree::value::{Value, ValueKind};

#[test]
fn test_new() {
    let mut tree = Arena::new();
    assert!(tree.len().eq(&0));
}

#[test]
fn cursor_walks_naively() {
    let mut tree = Arena::new();
    // the naive walk sets an unset cursor to position 0, even on an
    // empty arena, and increments blindly past the stored range
    tree.advance();
    assert_eq!(tree.current_position(), Some(0));
    tree.advance();
    assert_eq!(tree.current_position(), Some(1));
    // reads through the wandering cursor stay checked
    assert_eq!(tree.parent(), None);
    assert_eq!(tree.add_child_node("x", "table"), Err(ArenaError::OutOfBounds));
    tree.move_to_parent();
    assert_eq!(tree.current_position(), Some(1));
}

#[test]
fn test_one_node() {
    let mut tree = Arena::new();
    assert!(tree.add_root_node("root", "system"));
    assert!(tree.len().eq(&1));
    assert_eq!(tree.root_index(), 0);
}

#[test]
fn test_add_node() {
    let mut tree = Arena::new();
    tree.add_root_node("root", "system");
    tree.add_node("node", "database", 0);
    tree.add_node("child_node", "schema", 1);
    tree.add_node("another_node", "schema", 0);
    assert_eq!(tree.len(), 4);
    let parents = tree.get_owned_parent_nodes(2);
    let mut expected_root = Node::root();
    expected_root.children = Some(vec![1, 3]);
    let mut expected_child = Node::new("node", "database", 1, 0);
    expected_child.children = Some(vec![2]);
    let expected = vec![expected_child, expected_root];
    for i in 0..parents.len() {
        assert_eq!(parents[i].children, expected[i].children);
        assert_eq!(parents[i].value, expected[i].value);
        assert_eq!(parents[i].index, expected[i].index);
        assert_eq!(parents[i].parent, expected[i].parent);
    }
}

#[test]
fn second_root_is_rejected() {
    let mut tree = Arena::new();
    assert!(tree.add_root_node("root", "system"));
    assert!(!tree.add_root_node("other", "system"));
    assert_eq!(tree.len(), 1);
}

#[test]
fn lineage_of_grandchild() {
    let mut tree = Arena::new();
    tree.add_root_node("root", "system");
    let child = tree.add_child_node("tiny_node", "table").unwrap();
    assert_eq!(child, 1);
    tree.add_node("tiniest node", "column", 1);
    assert_eq!(tree.lineage_for_index(2), vec![1, 0]);
    // the cursor still rests on the root; walk it to the grandchild
    tree.advance();
    tree.advance();
    assert_eq!(tree.current_position(), Some(2));
    assert_eq!(tree.lineage(), vec![1, 0]);
    tree.move_to_parent();
    assert_eq!(tree.current_position(), Some(1));
}

#[test]
fn add_child_without_root_fails() {
    let mut tree = Arena::new();
    assert_eq!(tree.add_child_node("x", "table"), Err(ArenaError::NoCurrentPosition));
    assert_eq!(tree.len(), 0);
}

#[test]
fn parent_queries() {
    let mut tree = Arena::new();
    tree.add_root_node("root", "system");
    tree.add_node("a", "table", 0);
    assert!(tree.get_parent_node(0).is_none());
    assert_eq!(tree.get_parent_node(1).unwrap().index, 0);
    assert!(tree.get_parent_node(7).is_none());
    assert_eq!(tree.parent_from_index(1), Some(0));
    assert_eq!(tree.parent_from_index(0), None);
    assert_eq!(tree.parent_from_index(9), None);
    assert_eq!(tree.get_root().value_as_str(), "root");
}

#[test]
fn find_nodes_by_value_and_kind() {
    let mut tree = Arena::new();
    tree.add_root_node("root", "system");
    tree.add_node("alpha", "table", 0);
    tree.add_node("alpha", "column", 1);
    tree.add_node("beta", "column", 1);
    let first = tree.find_node_by_value("alpha").unwrap();
    assert_eq!(first.index, 1);
    let later = tree.node_by_value_from_index("alpha", 2).unwrap();
    assert_eq!(later.index, 2);
    assert!(tree.node_by_value_from_index("alpha", 3).is_none());
    let by_kind = tree.find_node("alpha", "column").unwrap();
    assert_eq!(by_kind.index, 2);
    assert!(tree.find_node("beta", "table").is_none());
    assert!(tree.find_node_by_value("gamma").is_none());
}

#[test]
fn children_retrieval_is_preorder() {
    let mut tree = Arena::new();
    tree.add_root_node("root", "system");
    tree.add_node("a", "table", 0);
    tree.add_node("b", "table", 0);
    tree.add_node("a1", "column", 1);
    let direct = tree.get_children(0);
    assert_eq!(direct.len(), 2);
    assert_eq!(direct[0].value_as_str(), "a");
    assert_eq!(direct[1].value_as_str(), "b");
    assert!(tree.get_children(3).is_empty());
    assert!(tree.get_children(42).is_empty());
    let all = tree.get_children_nodes(0);
    let names: Vec<&str> = all.iter().map(|n| n.value_as_str()).collect();
    assert_eq!(names, vec!["a", "a1", "b"]);
}

#[test]
fn swap_is_an_involution() {
    let mut tree = Arena::new();
    tree.add_root_node("root", "system");
    tree.add_node("a", "table", 0);
    tree.add_node("b", "table", 0);
    tree.add_node("a1", "column", 1);
    let before: Vec<Node> = (0..tree.len()).map(|i| tree.get_node(i).unwrap().clone()).collect();
    tree.swap_nodes(1, 2);
    // position 2 now holds "a", and every inbound reference follows it
    assert_eq!(tree.get_node(2).unwrap().value_as_str(), "a");
    assert_eq!(tree.get_node(1).unwrap().value_as_str(), "b");
    assert_eq!(tree.get_node(2).unwrap().children, Some(vec![3]));
    assert_eq!(tree.get_node(3).unwrap().parent, Some(2));
    assert_eq!(tree.get_node(0).unwrap().children, Some(vec![2, 1]));
    tree.swap_nodes(1, 2);
    let after: Vec<Node> = (0..tree.len()).map(|i| tree.get_node(i).unwrap().clone()).collect();
    assert_eq!(before, after);
}

#[test]
fn swap_with_root_moves_root_index() {
    let mut tree = Arena::new();
    tree.add_root_node("root", "system");
    tree.add_node("a", "table", 0);
    tree.swap_nodes(0, 1);
    assert_eq!(tree.root_index(), 1);
    assert_eq!(tree.get_root().value_as_str(), "root");
    assert_eq!(tree.get_node(0).unwrap().value_as_str(), "a");
}

#[test]
fn render_indents_by_depth() {
    let mut tree = Arena::new();
    tree.add_root_node("root", "system");
    tree.add_node("a", "table", 0);
    tree.add_node("a1", "column", 1);
    tree.add_node("b", "table", 0);
    assert_eq!(tree.render(), "root\n\ta\n\t\ta1\n\tb\n");
}

#[test]
fn kind_parsing_is_lenient() {
    assert_eq!(ValueKind::parse(" DataBase "), Some(ValueKind::Database));
    assert_eq!(ValueKind::parse("SCHEMA"), Some(ValueKind::Schema));
    assert_eq!(ValueKind::parse("datatype"), Some(ValueKind::DataType));
    assert_eq!(ValueKind::parse("bogus"), None);
    assert_eq!(ValueKind::parse(""), None);
    assert_eq!(ValueKind::parse("table").unwrap().as_str(), "table");
}

#[test]
fn node_accessors() {
    let mut node = Node::new("n", "table", 3, 1);
    assert_eq!(node.index(), 3);
    assert_eq!(node.parent(), Some(1));
    assert_eq!(node.kind(), ValueKind::Table);
    assert_eq!(node.kind_as_str(), "table");
    assert_eq!(node.value_as_str(), "n");
    node.add_child(5);
    node.add_child(5);
    node.add_child(6);
    assert_eq!(node.children, Some(vec![5, 6]));
    assert_eq!(node.pop_parent(), Some(1));
    assert_eq!(node.parent(), None);
    node.set_parent(2);
    assert_eq!(node.parent(), Some(2));
    node.remove_children();
    assert_eq!(node.children, None);
}

#[test]
fn value_from_optional_input() {
    let v = Value::from_big_query_value(Some("x"), ValueKind::Column).unwrap();
    assert_eq!(v.get_name(), "x");
    assert!(Value::from_big_query_value(None, ValueKind::Column).is_none());
}

#[test]
fn node_equality_ignores_child_order() {
    let mut a = Node::new("n", "table", 1, 0);
    let mut b = Node::new("n", "table", 1, 0);
    a.set_children(vec![2, 3]);
    b.set_children(vec![3, 2]);
    assert!(a.same_node(&b));
    b.set_children(vec![3, 4]);
    assert!(!a.same_node(&b));
    let c = Node::new("m", "table", 1, 0);
    assert!(!a.same_node(&c));
}
