use memtable::node::{Arena, NodeLink};
use memtable::order::{compare, differs, less};
use memtable::tree::Color;
use std::cmp::Ordering;

#[test]
fn sentinel_reads_and_writes() {
    let mut arena: Arena<i32, i32> = Arena::new();
    let nil = NodeLink::none();
    assert!(nil.is_none());
    assert!(!nil.is_some());
    assert_eq!(nil.get_key(&arena), None);
    assert_eq!(nil.get_color(&arena), Color::Black);
    assert!(!nil.is_red(&arena));
    assert!(nil.get_left_child(&arena).is_none());
    assert!(nil.get_right_child(&arena).is_none());
    assert!(nil.get_parent(&arena).is_none());
    let a = NodeLink::new(1, 10, &mut arena);
    nil.set_color(Color::Red, &mut arena);
    nil.set_left_child(a, &mut arena);
    nil.set_right_child(a, &mut arena);
    nil.set_parent(a, &mut arena);
    assert_eq!(nil.get_color(&arena), Color::Black);
    assert!(nil.get_left_child(&arena).is_none());
    assert_eq!(arena.nodes.len(), 1);
    assert_eq!(a.get_color(&arena), Color::Black);
    assert!(a.get_left_child(&arena).is_none());
    assert!(a.get_right_child(&arena).is_none());
    assert!(a.get_parent(&arena).is_none());
}

#[test]
fn new_node_is_black_and_alone() {
    let mut arena = Arena::new();
    let a = NodeLink::new(7, "seven", &mut arena);
    assert!(a.is_some());
    assert!(!a.is_none());
    assert_eq!(a.get_key(&arena), Some(&7));
    assert_eq!(a.get_value(&arena), Some(&"seven"));
    assert_eq!(a.get_color(&arena), Color::Black);
    assert!(!a.is_red(&arena));
    assert!(a.get_left_child(&arena).is_none());
    assert!(a.get_right_child(&arena).is_none());
    assert!(a.get_parent(&arena).is_none());
    let b = NodeLink::new(8, "eight", &mut arena);
    assert!(a != b);
    assert_eq!(a.inner, Some(0));
    assert_eq!(b.inner, Some(1));
    assert_eq!(a.get_key(&arena), Some(&7));
    assert_eq!(b.get_key(&arena), Some(&8));
}

#[test]
fn links_are_set_one_by_one() {
    let mut arena = Arena::new();
    let a = NodeLink::new(1, 'a', &mut arena);
    let b = NodeLink::new(2, 'b', &mut arena);
    let c = NodeLink::new(3, 'c', &mut arena);
    b.set_left_child(a, &mut arena);
    assert!(b.get_left_child(&arena) == a);
    assert!(b.get_right_child(&arena).is_none());
    assert!(b.get_parent(&arena).is_none());
    b.set_right_child(c, &mut arena);
    assert!(b.get_left_child(&arena) == a);
    assert!(b.get_right_child(&arena) == c);
    a.set_parent(b, &mut arena);
    c.set_parent(b, &mut arena);
    assert!(a.get_parent(&arena) == b);
    assert!(c.get_parent(&arena) == b);
    assert!(a.get_left_child(&arena).is_none());
    a.set_color(Color::Red, &mut arena);
    assert!(a.is_red(&arena));
    assert_eq!(a.get_color(&arena), Color::Red);
    assert_eq!(b.get_color(&arena), Color::Black);
    assert!(!c.is_red(&arena));
    a.set_color(Color::Black, &mut arena);
    assert!(!a.is_red(&arena));
    b.set_left_child(NodeLink::none(), &mut arena);
    assert!(b.get_left_child(&arena).is_none());
    assert!(b.get_right_child(&arena) == c);
    assert_eq!(a.get_key(&arena), Some(&1));
    assert_eq!(c.get_value(&arena), Some(&'c'));
}

#[test]
fn links_are_equal_by_the_node_they_lead_to() {
    let mut arena = Arena::new();
    let a = NodeLink::new(1, 0, &mut arena);
    let b = NodeLink::new(1, 0, &mut arena);
    let a2 = a;
    assert!(a == a2);
    assert!(a != b);
    assert!(NodeLink::none() == NodeLink::none());
    assert!(a != NodeLink::none());
    assert!(NodeLink::none() != b);
}

#[test]
fn links_compare_by_key() {
    let mut arena = Arena::new();
    let a = NodeLink::new(1, 'x', &mut arena);
    let b = NodeLink::new(2, 'y', &mut arena);
    let c = NodeLink::new(1, 'z', &mut arena);
    let nil = NodeLink::none();
    assert_eq!(a.cmp(&b, &arena), Ordering::Less);
    assert_eq!(b.cmp(&a, &arena), Ordering::Greater);
    assert_eq!(a.cmp(&c, &arena), Ordering::Equal);
    assert_eq!(a.partial_cmp(&b, &arena), Some(Ordering::Less));
    assert_eq!(b.partial_cmp(&c, &arena), Some(Ordering::Greater));
    assert_eq!(c.partial_cmp(&a, &arena), Some(Ordering::Equal));
    assert_eq!(a.partial_cmp(&nil, &arena), None);
    assert_eq!(nil.partial_cmp(&a, &arena), None);
    assert_eq!(nil.partial_cmp(&nil, &arena), None);
}

#[test]
fn keys_compare_as_their_type_orders_them() {
    assert!(less(&1, &2));
    assert!(!less(&2, &1));
    assert!(!less(&2, &2));
    assert!(differs(&1, &2));
    assert!(!differs(&3, &3));
    assert_eq!(compare(&1, &2), Ordering::Less);
    assert_eq!(compare(&2, &1), Ordering::Greater);
    assert_eq!(compare(&2, &2), Ordering::Equal);
    assert!(less(&String::from("a"), &String::from("b")));
    assert!(differs(&"a", &"b"));
}

#[test]
fn colours_have_names() {
    assert_eq!(Color::Red.name(), "Red");
    assert_eq!(Color::Black.name(), "Black");
    assert!(Color::Red != Color::Black);
}

#[test]
fn nodes_are_equal_by_key() {
    let mut arena = Arena::new();
    let a = NodeLink::new(1, 'x', &mut arena);
    let _b = NodeLink::new(2, 'x', &mut arena);
    let c = NodeLink::new(1, 'z', &mut arena);
    c.set_color(Color::Red, &mut arena);
    c.set_parent(a, &mut arena);
    assert!(arena.nodes[0] == arena.nodes[2]);
    assert!(arena.nodes[0] != arena.nodes[1]);
}
