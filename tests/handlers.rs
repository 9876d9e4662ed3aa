use clips::{find_handler, HandlerTable};

#[test]
fn lent_table_is_absent_until_restored() {
    let mut t: HandlerTable<u32> = HandlerTable::new();
    assert!(t.insert("f".to_string(), 1).is_none());
    assert!(t.insert("g".to_string(), 2).is_none());
    let lent = t.lend().expect("the table is in place");
    assert_eq!(find_handler(&lent, "g"), Some(1));
    assert_eq!(find_handler(&lent, "h"), None);
    assert!(t.lend().is_none());
    assert_eq!(t.insert("h".to_string(), 3), Some(3));
    assert!(!t.remove("f"));
    t.restore(lent);
    assert!(t.remove("f"));
    assert!(!t.remove("f"));
}

#[test]
fn inserting_a_name_again_replaces_its_handler() {
    let mut t: HandlerTable<&str> = HandlerTable::new();
    t.insert("r".to_string(), "first");
    t.insert("r".to_string(), "second");
    let lent = t.lend().unwrap();
    assert_eq!(lent.len(), 1);
    assert_eq!(lent[0].1, "second");
}
