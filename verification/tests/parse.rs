use lock_order::item::LockItem;
use lock_order::parse::{is_well_formed, parse};

fn tokens(texts: &[&str]) -> Vec<String> {
    texts.iter().map(|t| t.to_string()).collect()
}

fn item(last: &str, full: &str, mutable: bool) -> LockItem {
    LockItem {
        last_identifier: last.to_string(),
        full_identifier: full.to_string(),
        mutable,
    }
}

#[test]
fn parse_keeps_the_written_order() {
    assert_eq!(
        parse(&tokens(&["mut", "lock2", ",", "lock3", ",", "mut", "lock1"])),
        vec![
            item("lock2", "lock2", true),
            item("lock3", "lock3", false),
            item("lock1", "lock1", true),
        ]
    );
}

#[test]
fn parse_joins_the_path_and_names_its_last_token() {
    assert_eq!(
        parse(&tokens(&["mut", "self", ".", "locks", ".", "connections"])),
        vec![item("connections", "self.locks.connections", true)]
    );
}

#[test]
fn parse_of_nothing_is_empty() {
    assert_eq!(parse(&Vec::new()), Vec::<LockItem>::new());
}

#[test]
fn parse_drops_a_last_entry_without_tokens() {
    assert_eq!(parse(&tokens(&["a", ","])), vec![item("a", "a", false)]);
}

#[test]
fn parse_keeps_an_entry_without_tokens_before_a_separator() {
    assert_eq!(
        parse(&tokens(&[",", "a", ",", ","])),
        vec![item("", "", false), item("a", "a", false), item("", "", false)]
    );
}

#[test]
fn parse_keeps_a_last_entry_that_is_only_marked() {
    assert_eq!(parse(&tokens(&["a", ",", "mut"])), vec![
        item("a", "a", false),
        item("", "", true),
    ]);
}

#[test]
fn parse_drops_a_last_entry_of_empty_tokens() {
    assert_eq!(parse(&tokens(&["a", ",", "", ""])), vec![item("a", "a", false)]);
}

#[test]
fn parse_ends_a_path_with_an_empty_name_after_an_empty_token() {
    assert_eq!(parse(&tokens(&["a", ""])), vec![item("", "a", false)]);
}

#[test]
fn parse_takes_only_the_exact_marker_and_separator() {
    assert_eq!(
        parse(&tokens(&["mutable", ".", "mu", ".", ",,", ".", "Mut"])),
        vec![item("Mut", "mutable.mu.,,.Mut", false)]
    );
}

#[test]
fn parsed_names_end_their_paths() {
    for parsed in parse(&tokens(&["mut", "a", ".", "b", ",", "c", ",", ",", "d", ".", "e"])) {
        assert!(parsed.full_identifier.ends_with(&parsed.last_identifier));
    }
}

#[test]
fn lists_as_they_are_meant_to_be_written() {
    assert!(is_well_formed(&tokens(&["a"])));
    assert!(is_well_formed(&tokens(&["mut", "a"])));
    assert!(is_well_formed(&tokens(&["mut", "lock2", ",", "lock3", ",", "mut", "lock1"])));
    assert!(is_well_formed(&tokens(&["mut", "self", ".", "locks", ".", "connections"])));
    assert!(is_well_formed(&tokens(&["a", ".", "b", ",", "mut", "c", ".", "d"])));
}

#[test]
fn a_list_needs_an_entry() {
    assert!(!is_well_formed(&Vec::new()));
}

#[test]
fn an_entry_needs_a_path() {
    assert!(!is_well_formed(&tokens(&["mut"])));
    assert!(!is_well_formed(&tokens(&[","])));
    assert!(!is_well_formed(&tokens(&["a", ","])));
    assert!(!is_well_formed(&tokens(&[",", "a"])));
    assert!(!is_well_formed(&tokens(&["a", ",", ",", "b"])));
    assert!(!is_well_formed(&tokens(&["a", ",", "mut"])));
    assert!(!is_well_formed(&tokens(&["mut", ",", "a"])));
}

#[test]
fn a_marker_stands_only_before_the_path() {
    assert!(!is_well_formed(&tokens(&["a", "mut"])));
    assert!(!is_well_formed(&tokens(&["a", "mut", "b"])));
    assert!(!is_well_formed(&tokens(&["mut", "mut", "a"])));
    assert!(!is_well_formed(&tokens(&["b", ",", "mut", "a", "mut", "c"])));
}

#[test]
fn a_name_is_not_empty() {
    assert!(!is_well_formed(&tokens(&[""])));
    assert!(!is_well_formed(&tokens(&["a", ""])));
    assert!(!is_well_formed(&tokens(&["mut", "a", ".", "", ",", "b"])));
    assert!(is_well_formed(&tokens(&["", "a"])));
}

#[test]
fn a_well_formed_list_has_an_item_for_each_entry() {
    let list = tokens(&["mut", "a", ".", "b", ",", "c", ",", "mut", "d"]);
    assert!(is_well_formed(&list));
    let items = parse(&list);
    assert_eq!(items.len(), 3);
    assert_eq!(items.len(), list.iter().filter(|t| *t == ",").count() + 1);
    for parsed in &items {
        assert!(!parsed.last_identifier.is_empty());
    }
    assert!(items[0].mutable && !items[1].mutable && items[2].mutable);
}
