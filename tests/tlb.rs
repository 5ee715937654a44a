use vm_lru::tlb::TLB;

#[test]
fn empty_tlb_misses() {
    let t = TLB::new();
    assert_eq!(t.search(0), None);
    assert_eq!(t.search(255), None);
}

#[test]
fn added_entry_is_found() {
    let mut t = TLB::new();
    t.add(78, 3);
    assert_eq!(t.search(78), Some(3));
    assert_eq!(t.search(79), None);
}

#[test]
fn first_slot_wins_on_duplicates() {
    let mut t = TLB::new();
    t.add(7, 1);
    t.add(7, 2);
    assert_eq!(t.search(7), Some(1));
}

#[test]
fn seventeenth_insert_overwrites_first() {
    let mut t = TLB::new();
    for p in 0..16 {
        t.add(p, p + 100);
    }
    for p in 0..16 {
        assert_eq!(t.search(p), Some(p + 100));
    }
    t.add(50, 5);
    assert_eq!(t.search(0), None);
    assert_eq!(t.search(1), Some(101));
    assert_eq!(t.search(50), Some(5));
    t.add(51, 6);
    assert_eq!(t.search(1), None);
    assert_eq!(t.search(2), Some(102));
}

#[test]
fn rotation_is_fifo_not_lru() {
    let mut t = TLB::new();
    for p in 0..16 {
        t.add(p, p);
    }
    // a lookup does not refresh an entry
    assert_eq!(t.search(0), Some(0));
    t.add(20, 20);
    assert_eq!(t.search(0), None);
}
