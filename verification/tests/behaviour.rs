use memtable::memtable::Memtable;
use memtable::node::{Arena, NodeLink};
use memtable::tree::Color;

/// Writes the tree below `link` as `(left colour+key right)`, with `.` for
/// the sentinel.
fn show<V>(link: NodeLink, arena: &Arena<i32, V>) -> String {
    if link.is_none() {
        return String::from(".");
    }
    let c = match link.get_color(arena) {
        Color::Red => "R",
        Color::Black => "B",
    };
    format!(
        "({} {}{} {})",
        show(link.get_left_child(arena), arena),
        c,
        link.get_key(arena).unwrap(),
        show(link.get_right_child(arena), arena)
    )
}

/// Checks the subtree below `link` and returns its black height: the keys
/// lie between the bounds, no red node has a red child, every child names
/// its parent, and both sides count the same number of black nodes.
fn audit<V>(
    link: NodeLink,
    parent: NodeLink,
    lo: Option<i32>,
    hi: Option<i32>,
    arena: &Arena<i32, V>,
) -> usize {
    if link.is_none() {
        assert!(!link.is_red(arena));
        return 0;
    }
    assert!(link.get_parent(arena) == parent);
    let key = *link.get_key(arena).unwrap();
    if let Some(l) = lo {
        assert!(l <= key);
    }
    if let Some(h) = hi {
        assert!(key <= h);
    }
    let left = link.get_left_child(arena);
    let right = link.get_right_child(arena);
    if link.is_red(arena) {
        assert!(!left.is_red(arena));
        assert!(!right.is_red(arena));
    }
    let a = audit(left, link, lo, Some(key), arena);
    let b = audit(right, link, Some(key), hi, arena);
    assert_eq!(a, b);
    match link.get_color(arena) {
        Color::Black => a + 1,
        Color::Red => a,
    }
}

fn audit_store<V>(store: &Memtable<i32, V>) {
    assert!(!store.root().is_red(store.arena()));
    audit(store.root(), NodeLink::none(), None, None, store.arena());
}

#[test]
fn empty_store_finds_nothing() {
    let store: Memtable<i32, i32> = Memtable::new(0);
    assert_eq!(store.peek(), None);
    assert_eq!(store.get(&0), None);
    assert_eq!(store.get(&-1), None);
    assert_eq!(store.get(&i32::MAX), None);
    assert!(store.root().is_none());
    assert_eq!(store.arena().nodes.len(), 0);
}

#[test]
fn first_key_is_at_the_root() {
    let mut store = Memtable::new(100);
    store.put(1, 'a');
    assert_eq!(store.peek(), Some(&1));
    assert_eq!(show(store.root(), store.arena()), "(. B1 .)");
}

#[test]
fn three_rising_keys_turn_once() {
    let mut store = Memtable::new(100);
    store.put(1, 1);
    store.put(50, 50);
    store.put(100, 100);
    // Three keys in a row take one rotation, which brings 50 to the top.
    assert_eq!(store.get(&50), Some(&50));
    assert_eq!(store.get(&100), Some(&100));
    assert_eq!(store.peek(), Some(&50));
}

#[test]
fn unknown_key_is_not_found_at_any_stage() {
    let mut store = Memtable::new(100);
    assert_eq!(store.get(&7), None);
    store.put(0, 0);
    assert_eq!(store.get(&7), None);
    store.put(1, 1);
    assert_eq!(store.get(&7), None);
    store.put(2, 2);
    assert_eq!(store.get(&7), None);
    assert_eq!(store.get(&-7), None);
    store.put(50, 50);
    store.put(100, 100);
    assert_eq!(store.get(&7), None);
    assert_eq!(store.get(&75), None);
    assert_eq!(store.get(&101), None);
}

#[test]
fn rising_keys_move_the_root() {
    let mut store = Memtable::new(100);
    let mut peeks = Vec::new();
    for i in 1..11 {
        store.put(i, i * 10);
        peeks.push(*store.peek().unwrap());
        audit_store(&store);
    }
    assert_eq!(peeks, vec![1, 1, 2, 2, 2, 2, 2, 4, 4, 4]);
    assert_eq!(
        show(store.root(), store.arena()),
        "(((. B1 .) B2 (. B3 .)) B4 ((. B5 .) B6 ((. B7 .) R8 (. B9 (. R10 .)))))"
    );
    for i in 1..11 {
        assert_eq!(store.get(&i), Some(&(i * 10)));
    }
}

#[test]
fn falling_keys_move_the_root() {
    let mut store = Memtable::new(100);
    let mut peeks = Vec::new();
    for i in 0..10 {
        store.put(10 - i, i);
        peeks.push(*store.peek().unwrap());
        audit_store(&store);
    }
    assert_eq!(peeks, vec![10, 10, 9, 9, 9, 9, 9, 7, 7, 7]);
    assert_eq!(
        show(store.root(), store.arena()),
        "(((((. R1 .) B2 .) R3 (. B4 .)) B5 (. B6 .)) B7 ((. B8 .) B9 (. B10 .)))"
    );
}

#[test]
fn mixed_keys_give_the_expected_tree() {
    let mut store = Memtable::new(100);
    let mut peeks = Vec::new();
    for k in [41, 38, 31, 12, 19, 8] {
        store.put(k, ());
        peeks.push(*store.peek().unwrap());
    }
    assert_eq!(peeks, vec![41, 41, 38, 38, 38, 38]);
    assert_eq!(
        show(store.root(), store.arena()),
        "((((. R8 .) B12 .) R19 (. B31 .)) B38 (. B41 .))"
    );
}

fn tree_of(keys: &[i32]) -> String {
    let mut store = Memtable::new(100);
    for k in keys {
        store.put(*k, *k);
    }
    audit_store(&store);
    show(store.root(), store.arena())
}

#[test]
fn red_child_on_the_inside_takes_two_rotations() {
    assert_eq!(tree_of(&[10, 5, 7]), "((. R5 .) B7 (. R10 .))");
    assert_eq!(tree_of(&[10, 15, 12]), "((. R10 .) B12 (. R15 .))");
}

#[test]
fn red_child_on_the_outside_takes_one_rotation() {
    assert_eq!(tree_of(&[10, 5, 3]), "((. R3 .) B5 (. R10 .))");
    assert_eq!(tree_of(&[10, 15, 20]), "((. R10 .) B15 (. R20 .))");
}

#[test]
fn red_parent_and_red_uncle_change_colours_only() {
    assert_eq!(tree_of(&[10, 5, 15, 3]), "(((. R3 .) B5 .) B10 (. B15 .))");
    assert_eq!(tree_of(&[10, 5, 15, 20]), "((. B5 .) B10 (. B15 (. R20 .)))");
    assert_eq!(tree_of(&[10, 5, 15, 7]), "((. B5 (. R7 .)) B10 (. B15 .))");
    assert_eq!(tree_of(&[10, 5, 15, 12]), "((. B5 .) B10 ((. R12 .) B15 .))");
}

#[test]
fn fourth_key_keeps_the_tree() {
    let mut store = Memtable::new(100);
    store.put(0, "zero");
    store.put(1, "one");
    store.put(2, "two");
    store.put(3, "three");
    assert_eq!(store.peek(), Some(&1));
    assert_eq!(store.get(&0), Some(&"zero"));
    assert_eq!(store.get(&1), Some(&"one"));
    assert_eq!(store.get(&2), Some(&"two"));
    assert_eq!(store.get(&3), Some(&"three"));
    assert_eq!(
        show(store.root(), store.arena()),
        "((. B0 .) B1 (. B2 (. R3 .)))"
    );
}

#[test]
fn equal_keys_are_kept_side_by_side() {
    let mut store = Memtable::new(100);
    let mut found = Vec::new();
    for v in ['a', 'b', 'c', 'd', 'e'] {
        store.put(1, v);
        assert_eq!(store.peek(), Some(&1));
        found.push(*store.get(&1).unwrap());
        audit_store(&store);
    }
    assert_eq!(found, vec!['a', 'a', 'b', 'b', 'b']);
    assert_eq!(store.arena().nodes.len(), 5);
    assert_eq!(
        show(store.root(), store.arena()),
        "((. B1 .) B1 ((. R1 .) B1 (. R1 .)))"
    );
}

#[test]
fn equal_keys_among_others() {
    let mut store = Memtable::new(100);
    let entries = [(5, 'a'), (3, 'b'), (5, 'c'), (3, 'd'), (4, 'e'), (5, 'f')];
    let expected = [
        (Some('a'), None, None),
        (Some('a'), Some('b'), None),
        (Some('a'), Some('b'), None),
        (Some('a'), Some('b'), None),
        (Some('a'), Some('d'), Some('e')),
        (Some('a'), Some('d'), Some('e')),
    ];
    for i in 0..6 {
        store.put(entries[i].0, entries[i].1);
        assert_eq!(store.peek(), Some(&5));
        let got = (
            store.get(&5).copied(),
            store.get(&3).copied(),
            store.get(&4).copied(),
        );
        assert_eq!(got, expected[i]);
        audit_store(&store);
    }
    assert_eq!(
        show(store.root(), store.arena()),
        "(((. R3 .) B3 (. R4 .)) B5 (. B5 (. R5 .)))"
    );
}

#[test]
fn distinct_keys_come_back_with_their_values() {
    let keys = [
        28, 4, 41, 168, 81, 102, 120, 157, 13, 64, 121, 86, 6, 67, 75, 3, 94, 105, 29, 196, 114,
        25, 128, 1, 33, 66, 32, 115, 198, 158, 113, 181, 130, 180, 187, 132, 179, 194, 72, 47,
    ];
    let mut store = Memtable::new(100);
    let mut peeks = Vec::new();
    for i in 0..keys.len() {
        store.put(keys[i], keys[i] * 3);
        peeks.push(*store.peek().unwrap());
        audit_store(&store);
        for j in 0..keys.len() {
            if j <= i {
                assert_eq!(store.get(&keys[j]), Some(&(keys[j] * 3)));
            } else {
                assert_eq!(store.get(&keys[j]), None);
            }
        }
    }
    let mut expected = vec![28; 7];
    expected.extend(vec![81; 33]);
    assert_eq!(peeks, expected);
    assert_eq!(store.get(&2), None);
    assert_eq!(store.get(&199), None);
}

#[test]
fn many_keys_stay_balanced() {
    let mut store = Memtable::new(1);
    let mut k: i32 = 17;
    for i in 0..2000 {
        k = (k * 733 + 269) % 4001;
        store.put(k, i);
        if i % 97 == 0 {
            audit_store(&store);
        }
    }
    audit_store(&store);
    assert_eq!(store.arena().nodes.len(), 2000);
    let mut up = Memtable::new(1);
    for i in 0..3000 {
        up.put(i, i);
    }
    let black = audit(up.root(), NodeLink::none(), None, None, up.arena());
    // 3000 nodes: no path is longer than twice the black height, and a tree
    // of black height b holds at least 2^b - 1 nodes.
    assert!(black <= 11);
    for i in 0..3000 {
        assert_eq!(up.get(&i), Some(&i));
    }
}

#[test]
fn size_is_not_a_limit() {
    let mut store = Memtable::new(2);
    for i in 0..10 {
        store.put(i, i);
    }
    for i in 0..10 {
        assert_eq!(store.get(&i), Some(&i));
    }
    let mut other = Memtable::new(-5);
    other.put(1, 1);
    assert_eq!(other.get(&1), Some(&1));
}

#[test]
fn keys_of_another_type() {
    let mut store = Memtable::new(100);
    store.put(String::from("pear"), 1);
    store.put(String::from("apple"), 2);
    store.put(String::from("quince"), 3);
    assert_eq!(store.peek(), Some(&String::from("pear")));
    assert_eq!(store.get(&String::from("apple")), Some(&2));
    assert_eq!(store.get(&String::from("quince")), Some(&3));
    assert_eq!(store.get(&String::from("fig")), None);
    store.put(String::from("rowan"), 4);
    store.put(String::from("sloe"), 5);
    assert_eq!(store.get(&String::from("sloe")), Some(&5));
    assert_eq!(store.peek(), Some(&String::from("pear")));
}
