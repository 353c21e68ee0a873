use lock_order::item::LockItem;
use lock_order::sort::sort_items;

fn item(last: &str, full: &str, mutable: bool) -> LockItem {
    LockItem {
        last_identifier: last.to_string(),
        full_identifier: full.to_string(),
        mutable,
    }
}

fn paths(items: &Vec<LockItem>) -> Vec<String> {
    items.iter().map(|i| i.full_identifier.clone()).collect()
}

#[test]
fn sort_orders_by_name() {
    let mut items = vec![
        item("lock2", "lock2", true),
        item("lock3", "lock3", false),
        item("lock1", "lock1", true),
    ];
    sort_items(&mut items);
    assert_eq!(
        items,
        vec![
            item("lock1", "lock1", true),
            item("lock2", "lock2", true),
            item("lock3", "lock3", false),
        ]
    );
}

#[test]
fn sort_goes_by_the_name_and_not_by_the_path() {
    let mut items = vec![item("z", "a.z", false), item("a", "z.a", false)];
    sort_items(&mut items);
    assert_eq!(paths(&items), vec!["z.a", "a.z"]);
}

#[test]
fn sort_keeps_the_order_of_items_of_one_name() {
    let mut items = vec![
        item("x", "c.x", false),
        item("a", "a", false),
        item("x", "a.x", true),
        item("x", "b.x", false),
        item("a", "z.a", true),
    ];
    sort_items(&mut items);
    assert_eq!(
        items,
        vec![
            item("a", "a", false),
            item("a", "z.a", true),
            item("x", "c.x", false),
            item("x", "a.x", true),
            item("x", "b.x", false),
        ]
    );
}

#[test]
fn sort_of_nothing_and_of_one() {
    let mut none: Vec<LockItem> = Vec::new();
    sort_items(&mut none);
    assert!(none.is_empty());
    let mut one = vec![item("a", "a", true)];
    sort_items(&mut one);
    assert_eq!(one, vec![item("a", "a", true)]);
}

#[test]
fn sort_leaves_a_sorted_list_as_it_is() {
    let mut items = vec![item("a", "1", false), item("b", "2", false), item("c", "3", false)];
    sort_items(&mut items);
    assert_eq!(paths(&items), vec!["1", "2", "3"]);
}

#[test]
fn sort_reverses_a_reversed_list() {
    let mut items = vec![
        item("e", "5", false),
        item("d", "4", false),
        item("c", "3", false),
        item("b", "2", false),
        item("a", "1", false),
    ];
    sort_items(&mut items);
    assert_eq!(paths(&items), vec!["1", "2", "3", "4", "5"]);
}

#[test]
fn sort_puts_the_empty_name_first() {
    let mut items = vec![item("a", "a", false), item("", "", false), item("A", "A", false)];
    sort_items(&mut items);
    assert_eq!(paths(&items), vec!["", "A", "a"]);
}

#[test]
fn sort_agrees_with_the_stable_sort_of_std() {
    let names = ["b", "a", "b", "", "lock10", "lock2", "é", "a", "Z", "b", "lock1", "€", ""];
    let mut items: Vec<LockItem> = names
        .iter()
        .enumerate()
        .map(|(i, n)| item(n, &format!("{}.{}", i, n), i % 2 == 0))
        .collect();
    let mut expected = items.clone();
    expected.sort_by(|a, b| a.last_identifier.partial_cmp(&b.last_identifier).unwrap());
    sort_items(&mut items);
    assert_eq!(items, expected);
}
