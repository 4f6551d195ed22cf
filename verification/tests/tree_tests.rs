use arena_tree::arena::ArenaError;
use arena_tree::client::{DatabaseChild, DatabaseParent, Systems};
use arena_tree::nested::{
    from_nested_depth2, from_nested_depth3, from_nested_depth4, from_nested_depth5,
    from_nested_depth6,
};
use arena_tree::obj::Object;
use arena_tree::obj_desc::Description;
use arena_tree::tree::ArenaTree;
use arena_tree::types::SystemType;

fn small_tree() -> ArenaTree {
    let mut t = ArenaTree::new(None);
    t.add_node("root");
    t.add_child_node("a", 0);
    t.add_child_node("b", 0);
    t.add_child_node("a1", 1);
    t
}

#[test]
fn cursor_tree_basics() {
    let mut t = ArenaTree::new(Some(8));
    assert!(t.is_empty());
    assert!(t.get_object().is_none());
    t.add_node("root");
    assert_eq!(t.current_position(), Some(0));
    assert_eq!(t.get_object().unwrap().position(), 0);
    // a second root creation is a rejected no-op
    t.add_node("other");
    assert_eq!(t.len(), 1);
    t.add_child_node("a", 0);
    t.add_child_node("b", 99);
    assert_eq!(t.len(), 2);
    t.next_position();
    assert_eq!(t.current_position(), Some(1));
    // the naive walk increments blindly past the stored range; the
    // checked reads hand back nothing there
    t.next_position();
    assert_eq!(t.current_position(), Some(2));
    assert!(t.get_object().is_none());
    assert!(t.get_current_objects_children().is_none());
    assert!(t.move_to_position(0));
    assert!(!t.move_to_position(5));
    assert_eq!(t.current_position(), Some(0));
    let mut fresh = ArenaTree::new(None);
    fresh.next_position();
    assert_eq!(fresh.current_position(), Some(0));
}

#[test]
fn current_objects_children() {
    let mut t = small_tree();
    assert!(t.move_to_position(0));
    let children = t.get_current_objects_children().unwrap();
    assert_eq!(children.len(), 2);
    assert_eq!(children[0].describe().get_name(), "a");
    assert_eq!(children[1].describe().get_name(), "b");
    assert!(t.move_to_position(3));
    assert!(t.get_current_objects_children().is_none());
}

#[test]
fn object_accessors() {
    let mut o = Object::new("x", 2, Some(0));
    assert_eq!(o.position(), 2);
    assert!(o.has_parent());
    assert_eq!(o.get_parent(), Some(0));
    assert!(o.children().is_none());
    o.update_children(4);
    o.update_children(5);
    // registering an already-listed position is ignored
    o.update_children(4);
    assert_eq!(o.children().unwrap(), &[4, 5]);
    o.update_parent(1);
    assert_eq!(o.get_parent(), Some(1));
    let with = Object::new_with_children("y", 0, None, Some(vec![1]));
    assert_eq!(with.children().unwrap(), &[1]);
    assert!(!with.has_parent());
}

#[test]
fn merge_sizes_and_offsets() {
    let mut a = small_tree();
    let mut b = ArenaTree::new(None);
    b.add_node("b_root");
    b.add_child_node("b_child", 0);
    let len_a = a.len();
    let len_b = b.len();
    assert_eq!(a.merge(b, 0), Ok(()));
    // merge size law
    assert_eq!(a.len(), len_a + len_b);
    // offset law: b's nodes moved to len_a + x, references shifted
    let b_root = a.get_object_from_position(len_a);
    assert_eq!(b_root.describe().get_name(), "b_root");
    assert_eq!(b_root.get_parent(), Some(0));
    let b_child = a.get_object_from_position(len_a + 1);
    assert_eq!(b_child.describe().get_name(), "b_child");
    assert_eq!(b_child.get_parent(), Some(len_a));
    assert_eq!(b_root.children().unwrap(), &[len_a + 1]);
    // the receiving root lists the incoming root last
    let root = a.get_object_from_position(0);
    assert_eq!(root.children().unwrap(), &[1, 2, 4]);
}

#[test]
fn merge_rejects_dead_position() {
    let mut a = small_tree();
    let mut b = ArenaTree::new(None);
    b.add_node("b_root");
    assert_eq!(a.merge(b, 17), Err(ArenaError::OutOfBounds));
    assert_eq!(a.len(), 4);
}

#[test]
fn merge_of_empty_tree_is_noop() {
    let mut a = small_tree();
    let b = ArenaTree::new(None);
    assert_eq!(a.merge(b, 0), Ok(()));
    assert_eq!(a.len(), 4);
    assert_eq!(a.get_object_from_position(0).children().unwrap(), &[1, 2]);
}

#[test]
fn subtree_is_independent_and_renumbered() {
    let t = small_tree();
    let sub = t.sub_tree(1);
    assert_eq!(sub.len(), 2);
    let sub_root = sub.get_object_from_position(0);
    assert_eq!(sub_root.describe().get_name(), "a");
    assert_eq!(sub_root.get_parent(), None);
    assert_eq!(sub_root.children().unwrap(), &[1]);
    let leaf = sub.get_object_from_position(1);
    assert_eq!(leaf.describe().get_name(), "a1");
    assert_eq!(leaf.get_parent(), Some(0));
    // the source is untouched
    assert_eq!(t.len(), 4);
    assert_eq!(t.get_object_from_position(1).get_parent(), Some(0));
}

#[test]
fn subtree_reextraction_is_idempotent() {
    let t = small_tree();
    let sub = t.sub_tree(1);
    let sub2 = sub.sub_tree(0);
    assert_eq!(sub.len(), sub2.len());
    for i in 0..sub.len() {
        assert_eq!(sub.get_object_from_position(i), sub2.get_object_from_position(i));
    }
}

#[test]
fn bulk_construction_two_levels() {
    let m = vec![(
        "root".to_string(),
        vec![
            ("child1".to_string(), "leaf1".to_string()),
            ("child2".to_string(), "leaf2".to_string()),
        ],
    )];
    let t = from_nested_depth2(&m);
    assert_eq!(t.len(), 3);
    let root = t.get_object_from_position(0);
    assert_eq!(root.describe().get_name(), "root");
    assert_eq!(root.get_parent(), None);
    assert_eq!(root.children().unwrap(), &[1, 2]);
    let c1 = t.get_object_from_position(1);
    assert_eq!(c1.describe().get_name(), "child1");
    assert_eq!(c1.get_parent(), Some(0));
    assert_eq!(c1.describe().get_display_name(), Some("leaf1"));
    let c2 = t.get_object_from_position(2);
    assert_eq!(c2.get_parent(), Some(0));
    assert_eq!(c2.describe().get_display_name(), Some("leaf2"));
}

#[test]
fn bulk_construction_forest_becomes_one_tree() {
    let m = vec![
        ("first".to_string(), vec![("a".to_string(), "1".to_string())]),
        ("second".to_string(), vec![("b".to_string(), "2".to_string())]),
    ];
    let t = from_nested_depth2(&m);
    assert_eq!(t.len(), 4);
    let root = t.get_object_from_position(0);
    assert_eq!(root.describe().get_name(), "first");
    // "second" was built as its own tree and spliced under the root
    let second = t.get_object_from_position(2);
    assert_eq!(second.describe().get_name(), "second");
    assert_eq!(second.get_parent(), Some(0));
    assert_eq!(second.children().unwrap(), &[3]);
}

#[test]
fn bulk_construction_three_levels() {
    let m = vec![(
        "server".to_string(),
        vec![(
            "db".to_string(),
            vec![("table".to_string(), "col".to_string())],
        )],
    )];
    let t = from_nested_depth3(&m);
    assert_eq!(t.len(), 3);
    assert_eq!(t.get_object_from_position(0).describe().get_name(), "server");
    assert_eq!(t.get_object_from_position(1).describe().get_name(), "db");
    assert_eq!(t.get_object_from_position(2).describe().get_name(), "table");
    assert_eq!(t.get_object_from_position(2).get_parent(), Some(1));
}

#[test]
fn empty_input_yields_empty_tree_at_every_depth() {
    assert_eq!(from_nested_depth2(&vec![]).len(), 0);
    assert_eq!(from_nested_depth3(&vec![]).len(), 0);
    assert_eq!(from_nested_depth4(&vec![]).len(), 0);
    assert_eq!(from_nested_depth5(&vec![]).len(), 0);
    assert_eq!(from_nested_depth6(&vec![]).len(), 0);
}

#[test]
fn system_type_parsing() {
    assert_eq!(SystemType::parse("Big Query"), Some(SystemType::BigQuery));
    assert_eq!(SystemType::parse(" sql_server "), Some(SystemType::SqlServer));
    assert_eq!(SystemType::parse("oracle"), None);
    assert_eq!(SystemType::BigQuery.as_str(), "BigQuery");
    assert_eq!(SystemType::SqlServer.as_str(), "SqlServer");
}

#[test]
fn description_accessors() {
    let d = Description::from_str("name");
    assert_eq!(d.get_name(), "name");
    assert!(d.get_display_name().is_none());
    let d2 = Description::with_display("name", "pretty");
    assert_eq!(d2.get_display_name(), Some("pretty"));
    assert_eq!(d.duplicate(), d);
}

#[test]
fn catalog_records() {
    let child = DatabaseChild::new(7, Description::from_str("db"));
    assert_eq!(child.get_position(), 7);
    assert_eq!(child.get_description().get_name(), "db");
    let listing = vec![
        (1usize, Description::from_str("t1")),
        (2usize, Description::from_str("t2")),
    ];
    let parent = DatabaseParent::from_child_listing(child, SystemType::SqlServer, listing);
    assert_eq!(parent.get_position(), 7);
    assert_eq!(parent.get_system_type(), SystemType::SqlServer);
    assert_eq!(parent.get_description().get_name(), "db");
    let direct = DatabaseParent::new(3, vec![], Description::from_str("d"), SystemType::BigQuery);
    assert_eq!(direct.get_position(), 3);
}

#[test]
fn systems_own_a_tree() {
    let mut s = Systems::new(SystemType::BigQuery);
    assert_eq!(*s.get_system_type(), SystemType::BigQuery);
    assert!(s.get_system().is_empty());
    s.get_system_mut().add_node("root");
    assert_eq!(s.get_system().len(), 1);
}
