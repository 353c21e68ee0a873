use lock_order::item::LockItem;

#[test]
fn default_item_is_empty() {
    let item = LockItem::default();
    assert_eq!(item.last_identifier, "");
    assert_eq!(item.full_identifier, "");
    assert!(!item.mutable);
}

#[test]
fn add_appends_to_the_path_and_replaces_the_name() {
    let mut item = LockItem::default();
    item.add("self");
    assert_eq!(item.last_identifier, "self");
    assert_eq!(item.full_identifier, "self");
    item.add(".");
    assert_eq!(item.last_identifier, ".");
    assert_eq!(item.full_identifier, "self.");
    item.add("connections");
    assert_eq!(item.last_identifier, "connections");
    assert_eq!(item.full_identifier, "self.connections");
    assert!(!item.mutable);
}

#[test]
fn add_keeps_the_marker() {
    let mut item = LockItem::default();
    item.mutable = true;
    item.add("a");
    assert!(item.mutable);
}

#[test]
fn items_are_equal_when_all_three_parts_are() {
    let mut a = LockItem::default();
    a.add("x");
    let mut b = LockItem::default();
    b.add("x");
    assert!(a == b);
    b.mutable = true;
    assert!(a != b);
    let mut c = LockItem::default();
    c.add("y");
    assert!(a != c);
    let mut d = LockItem::default();
    d.add("");
    d.add("x");
    assert!(a == d);
    let mut e = LockItem::default();
    e.add("a");
    e.add("x");
    assert!(a != e);
}

#[test]
fn clone_copies_all_three_parts() {
    let mut a = LockItem::default();
    a.mutable = true;
    a.add("p");
    a.add(".");
    a.add("q");
    let b = a.clone();
    assert_eq!(b.last_identifier, "q");
    assert_eq!(b.full_identifier, "p.q");
    assert!(b.mutable);
    assert_eq!(a, b);
}
