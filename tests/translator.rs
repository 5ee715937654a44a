use vm_lru::translator::{Translation, Translator, FRAME_COUNT, PAGE_SIZE};

/// Page `p` of a backing store whose byte `k` is `(p + k) mod 256`.
fn backing_page(p: usize) -> Vec<i8> {
    (0..PAGE_SIZE).map(|k| ((p + k) % 256) as u8 as i8).collect()
}

fn run(t: &mut Translator, address: i32) -> Translation {
    let bytes = match t.page_needed(address) {
        Some(p) => backing_page(p),
        None => Vec::new(),
    };
    t.translate(address, &bytes)
}

fn address(page: i32, offset: i32) -> i32 {
    page * 256 + offset
}

#[test]
fn end_to_end_value_of_19986() {
    let mut t = Translator::new();
    assert_eq!(t.page_needed(19986), Some(78));
    let r = run(&mut t, 19986);
    assert_eq!(r.logical_address, 19986);
    assert_eq!(r.value, 96);
    assert_eq!(r.physical_address, 18);
    assert_eq!(t.translated_count(), 1);
    assert_eq!(t.page_fault_count(), 1);
    assert_eq!(t.tlb_hit_count(), 0);
}

#[test]
fn repeated_address_hits_tlb() {
    let mut t = Translator::new();
    run(&mut t, 19986);
    assert_eq!(t.page_needed(19986), None);
    let r = run(&mut t, 19990);
    assert_eq!(r.value, 100);
    assert_eq!(r.physical_address, 22);
    assert_eq!(t.translated_count(), 2);
    assert_eq!(t.page_fault_count(), 1);
    assert_eq!(t.tlb_hit_count(), 1);
}

#[test]
fn high_bits_are_ignored() {
    let mut t = Translator::new();
    let r = run(&mut t, 0x1_0000 + address(3, 4));
    assert_eq!(r.value, 7);
    assert_eq!(r.physical_address, 4);
}

#[test]
fn frames_are_handed_out_in_order() {
    let mut t = Translator::new();
    let a = run(&mut t, address(200, 1));
    let b = run(&mut t, address(5, 2));
    let c = run(&mut t, address(17, 255));
    assert_eq!(a.physical_address, 1);
    assert_eq!(b.physical_address, 256 + 2);
    assert_eq!(c.physical_address, 512 + 255);
    assert_eq!(c.value, ((17 + 255) % 256) as u8 as i8);
    assert_eq!(b.value, 7);
}

#[test]
fn warm_up_then_eviction() {
    let mut t = Translator::new();
    for p in 0..FRAME_COUNT as i32 {
        let r = run(&mut t, address(p, 0));
        assert_eq!(r.physical_address, p * 256);
    }
    assert_eq!(t.page_fault_count(), 128);
    // the 129th page evicts page 0 after a full sweep and reuses frame 0
    let r = run(&mut t, address(128, 10));
    assert_eq!(r.physical_address, 10);
    assert_eq!(r.value, ((128 + 10) % 256) as u8 as i8);
    assert_eq!(t.page_fault_count(), 129);
    assert_eq!(t.page_needed(address(0, 0)), Some(0));
    // page 0 faults again and evicts page 1, whose bit was cleared
    let r = run(&mut t, address(0, 3));
    assert_eq!(r.physical_address, 256 + 3);
    assert_eq!(r.value, 3);
    assert_eq!(t.page_fault_count(), 130);
    assert_eq!(t.translated_count(), 130);
}

#[test]
fn tlb_is_not_invalidated_on_eviction() {
    let mut t = Translator::new();
    for p in 0..FRAME_COUNT as i32 {
        run(&mut t, address(p, 0));
    }
    run(&mut t, address(128, 0));
    // page 1 is resident but no longer cached: a page-table hit caches it
    let r = run(&mut t, address(1, 5));
    assert_eq!(r.physical_address, 256 + 5);
    assert_eq!(r.value, 6);
    assert_eq!(t.page_fault_count(), 129);
    // page 129 evicts page 1 (its bit is clear) and takes frame 1
    run(&mut t, address(129, 0));
    assert_eq!(t.page_fault_count(), 130);
    // the stale TLB entry of page 1 still points at frame 1
    assert_eq!(t.page_needed(address(1, 5)), None);
    let r = run(&mut t, address(1, 5));
    assert_eq!(r.physical_address, 256 + 5);
    assert_eq!(r.value, ((129 + 5) % 256) as u8 as i8);
    assert_eq!(t.tlb_hit_count(), 1);
}

#[test]
fn rates_are_ratios_within_unit_interval() {
    let mut t = Translator::new();
    let addresses = [19986, 19987, 256, 19988, 512, 257];
    for &a in addresses.iter() {
        run(&mut t, a);
    }
    assert_eq!(t.translated_count(), 6);
    assert_eq!(t.page_fault_count(), 3);
    assert_eq!(t.tlb_hit_count(), 3);
    let fault_rate = t.page_fault_count() as f64 / t.translated_count() as f64;
    let hit_rate = t.tlb_hit_count() as f64 / t.translated_count() as f64;
    assert!((0.0..=1.0).contains(&fault_rate));
    assert!((0.0..=1.0).contains(&hit_rate));
    assert_eq!(fault_rate, 0.5);
}

#[test]
fn clock_state_is_visible() {
    let mut t = Translator::new();
    run(&mut t, address(9, 0));
    let s = t.clock().debug_state();
    assert!(s.starts_with(" [9|1] \u{2190}[   ]"));
}
