use lock_order::emit::emit;
use lock_order::item::LockItem;

fn item(last: &str, full: &str, mutable: bool) -> LockItem {
    LockItem {
        last_identifier: last.to_string(),
        full_identifier: full.to_string(),
        mutable,
    }
}

#[test]
fn emit_of_nothing() {
    assert_eq!(emit(&Vec::new()), "let () = ();");
}

#[test]
fn emit_of_one_item() {
    assert_eq!(
        emit(&vec![item("connections", "self.locks.connections", true)]),
        "let (mut connections) = (self.locks.connections.lock().unwrap());"
    );
    assert_eq!(emit(&vec![item("a", "b", false)]), "let (a) = (b.lock().unwrap());");
}

#[test]
fn emit_keeps_the_order_it_is_given() {
    assert_eq!(
        emit(&vec![item("b", "x.b", false), item("a", "y.a", true), item("c", "c", false)]),
        "let (b, mut a, c) = (x.b.lock().unwrap(), y.a.lock().unwrap(), c.lock().unwrap());"
    );
}

#[test]
fn emit_writes_empty_names_as_they_are() {
    assert_eq!(
        emit(&vec![item("", "", false), item("", "", true)]),
        "let (, mut ) = (.lock().unwrap(), .lock().unwrap());"
    );
}
