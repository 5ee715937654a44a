use vm_lru::clock::{Clock, Page};

#[test]
fn new_clock_has_no_faults() {
    let c = Clock::new(4);
    assert_eq!(c.page_fault_count(), 0);
}

#[test]
fn page_fields_round_trip() {
    let p = Page { number: 9, reference: true };
    let q = p.clone();
    assert_eq!(q.number, 9);
    assert!(q.reference);
}

#[test]
fn fills_empty_slots_without_eviction() {
    let mut c = Clock::new(3);
    assert_eq!(c.insert(1), None);
    assert_eq!(c.insert(2), None);
    assert_eq!(c.insert(3), None);
    assert_eq!(c.page_fault_count(), 3);
    assert_eq!(c.debug_state(), "\u{2190}[1|1]  [2|1]  [3|1]");
}

#[test]
fn resident_insert_is_not_a_fault() {
    let mut c = Clock::new(3);
    assert_eq!(c.insert(5), None);
    assert_eq!(c.insert(5), None);
    assert_eq!(c.insert(5), None);
    assert_eq!(c.page_fault_count(), 1);
    assert_eq!(c.debug_state(), " [5|1] \u{2190}[   ]  [   ]");
}

#[test]
fn full_turn_clears_bits_then_evicts_under_hand() {
    let mut c = Clock::new(3);
    c.insert(1);
    c.insert(2);
    c.insert(3);
    assert_eq!(c.insert(4), Some(1));
    assert_eq!(c.page_fault_count(), 4);
    assert_eq!(c.debug_state(), " [4|1] \u{2190}[2|0]  [3|0]");
}

#[test]
fn second_chance_skips_referenced_page() {
    let mut c = Clock::new(3);
    c.insert(1);
    c.insert(2);
    c.insert(3);
    c.insert(4);
    // page 2 is touched again, so its bit is set
    assert_eq!(c.insert(2), None);
    assert_eq!(c.debug_state(), " [4|1] \u{2190}[2|1]  [3|0]");
    assert_eq!(c.insert(5), Some(3));
    assert_eq!(c.debug_state(), "\u{2190}[4|1]  [2|0]  [5|1]");
    assert_eq!(c.page_fault_count(), 5);
}

#[test]
fn resident_hit_keeps_frames_and_hand() {
    let mut c = Clock::new(2);
    c.insert(10);
    c.insert(11);
    c.insert(12);
    let before = c.debug_state();
    assert_eq!(before, " [12|1] \u{2190}[11|0]");
    assert_eq!(c.insert(11), None);
    assert_eq!(c.debug_state(), " [12|1] \u{2190}[11|1]");
    assert_eq!(c.page_fault_count(), 3);
}

#[test]
fn warm_up_of_128_distinct_pages() {
    let mut c = Clock::new(128);
    for p in 0..128 {
        assert_eq!(c.insert(p), None);
    }
    assert_eq!(c.insert(128), Some(0));
    assert_eq!(c.page_fault_count(), 129);
}

#[test]
fn fault_count_is_inserts_minus_resident_hits() {
    let mut c = Clock::new(4);
    let seq = [1, 2, 1, 3, 4, 5, 2, 6, 1, 1];
    let mut hits = 0;
    for &p in seq.iter() {
        let before = c.page_fault_count();
        c.insert(p);
        if c.page_fault_count() == before {
            hits += 1;
        }
    }
    assert_eq!(c.page_fault_count(), seq.len() - hits);
    assert_eq!(c.page_fault_count(), 7);
}

#[test]
fn renders_negative_and_multi_digit_numbers() {
    let mut c = Clock::new(2);
    c.insert(-5);
    c.insert(2147483647);
    assert_eq!(c.debug_state(), "\u{2190}[-5|1]  [2147483647|1]");
    let mut d = Clock::new(1);
    d.insert(-2147483648);
    assert_eq!(d.debug_state(), "\u{2190}[-2147483648|1]");
}

#[test]
fn empty_clock_renders_empty_slots() {
    let c = Clock::new(2);
    assert_eq!(c.debug_state(), "\u{2190}[   ]  [   ]");
    let z = Clock::new(0);
    assert_eq!(z.debug_state(), "");
}
