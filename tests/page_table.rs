use vm_lru::page_table::PageTable;

#[test]
fn new_table_is_all_invalid() {
    let t = PageTable::new();
    for p in 0..256 {
        assert!(!t.is_valid(p));
    }
}

#[test]
fn bind_then_invalidate() {
    let mut t = PageTable::new();
    t.bind(42, 7);
    assert!(t.is_valid(42));
    assert_eq!(t.resolve(42), 7);
    t.bind(42, 9);
    assert_eq!(t.resolve(42), 9);
    t.invalidate(42);
    assert!(!t.is_valid(42));
    assert!(!t.is_valid(43));
}
