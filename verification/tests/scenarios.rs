use memtable::memtable::Memtable;

#[test]
fn insert_none() {
    let store: Memtable<i32, i32> = Memtable::new(100);
    assert_eq!(store.get(&100), None);
}

#[test]
fn insert_one() {
    let mut store = Memtable::new(100);
    store.put(1, "My favorite value!");
    let back = store.get(&1);
    assert!(back.is_some());
    assert_eq!(back, Some(&"My favorite value!"));
}

#[test]
fn insert_two() {
    let mut store = Memtable::new(100);
    store.put(50, 0);
    store.put(100, 1);
    assert_eq!(store.get(&50), Some(&0));
    assert_eq!(store.get(&100), Some(&1));

    assert_eq!(store.peek(), Some(&50));
}

#[test]
fn insert_two_out_of_order() {
    let mut store = Memtable::new(100);
    store.put(100, 1);
    store.put(50, 0);
    assert_eq!(store.get(&50), Some(&0));
    assert_eq!(store.get(&100), Some(&1));

    assert_eq!(store.peek(), Some(&100));
}

#[test]
fn insert_many() {
    let mut store = Memtable::new(100);
    store.put(0, String::from("zero"));
    assert_eq!(store.get(&0), Some(&String::from("zero")));
    assert_eq!(store.peek(), Some(&0));

    store.put(1, String::from("one"));
    assert_eq!(store.get(&1), Some(&String::from("one")));
    assert_eq!(store.peek(), Some(&0));

    store.put(2, String::from("two"));
    assert_eq!(store.get(&2), Some(&String::from("two")));
    assert_eq!(store.peek(), Some(&1));
}
