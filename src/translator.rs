//! The translator: resolves logical addresses to bytes through the TLB, the
//! page table and physical memory, loading pages on faults and choosing
//! victims with the CLOCK engine.
use vstd::prelude::*;
use crate::clock::{
    Clock, ClockModel, occupied_by, lemma_inserted_wf, lemma_sweep_bounds,
    lemma_sweep_len_stops,
};
use crate::page_table::{PageTable, PAGE_TABLE_SIZE};
use crate::tlb::{TLB, TlbModel, TLB_SIZE, lemma_lookup_found};

verus! {

/// Number of physical frames.
pub const FRAME_COUNT: usize = 128;

/// Bytes in a page and in a frame.
pub const PAGE_SIZE: usize = 256;

/// The page number of a logical address: bits 8 to 15.
pub open spec fn page_of(a: i32) -> int {
    ((a >> 8u32) & 0xFFi32) as int
}

/// The offset of a logical address within its page: bits 0 to 7.
pub open spec fn offset_of(a: i32) -> int {
    (a & 0xFFi32) as int
}

proof fn lemma_split_bounds(a: i32)
    ensures
        0 <= page_of(a) < PAGE_TABLE_SIZE,
        0 <= offset_of(a) < PAGE_SIZE,
{
    assert(0 <= ((a >> 8u32) & 0xFFi32) && ((a >> 8u32) & 0xFFi32) < 256) by (bit_vector);
    assert(0 <= (a & 0xFFi32) && (a & 0xFFi32) < 256) by (bit_vector);
}

/// What translating one logical address yields.
#[derive(Clone, Copy, Debug, PartialEq, Eq, Structural)]
pub struct Translation {
    pub logical_address: i32,
    pub physical_address: i32,
    pub value: i8,
}

/// The abstract state of a translator.
pub struct TranslatorModel {
    pub tlb: TlbModel,
    /// For each page, its frame if the entry is valid.
    pub table: Seq<Option<usize>>,
    /// Physical memory, frame after frame.
    pub memory: Seq<i8>,
    /// Frames below this one have been handed out during warm-up.
    pub next_free: int,
    pub clock: ClockModel,
    pub translated: nat,
    pub tlb_hits: nat,
}

/// `memory` with the frame `f` overwritten by `bytes`.
pub open spec fn loaded(memory: Seq<i8>, f: int, bytes: Seq<i8>) -> Seq<i8> {
    Seq::new(
        memory.len(),
        |i: int|
            if f * PAGE_SIZE <= i < f * PAGE_SIZE + PAGE_SIZE {
                bytes[i - f * PAGE_SIZE]
            } else {
                memory[i]
            },
    )
}

/// The result of resolving address `a` to frame `f` in `memory`.
pub open spec fn resolved(a: i32, f: int, memory: Seq<i8>) -> Translation {
    Translation {
        logical_address: a,
        physical_address: (f * PAGE_SIZE + offset_of(a)) as i32,
        value: memory[f * PAGE_SIZE + offset_of(a)],
    }
}

impl TranslatorModel {
    /// The invariant of a translator.
    pub open spec fn wf(self) -> bool {
        &&& self.tlb.wf()
        &&& self.table.len() == PAGE_TABLE_SIZE
        &&& self.memory.len() == FRAME_COUNT * PAGE_SIZE
        &&& self.clock.wf()
        &&& self.clock.capacity() == FRAME_COUNT
        &&& 0 <= self.next_free <= FRAME_COUNT
        &&& self.next_free < FRAME_COUNT ==> self.clock.hand == self.next_free
        &&& forall|f: int|
            0 <= f < FRAME_COUNT ==> (#[trigger] self.clock.frames[f] is Some <==> f
                < self.next_free)
        &&& forall|p: int|
            0 <= p < PAGE_TABLE_SIZE && #[trigger] self.table[p] is Some ==> {
                &&& self.table[p]->0 < FRAME_COUNT
                &&& occupied_by(self.clock.frames[self.table[p]->0 as int], p as i32)
            }
        &&& forall|f: int|
            0 <= f < FRAME_COUNT && #[trigger] self.clock.frames[f] is Some ==> {
                &&& 0 <= self.clock.frames[f]->0.number < PAGE_TABLE_SIZE
                &&& self.table[self.clock.frames[f]->0.number as int] == Some(f as usize)
            }
        &&& forall|i: int|
            0 <= i < TLB_SIZE && #[trigger] self.tlb.pages[i] >= 0 ==> 0 <= self.tlb.frames[i]
                < FRAME_COUNT
        &&& self.clock.faults + self.tlb_hits <= self.translated
    }

    /// Translating `a` misses the TLB and finds the page's entry invalid.
    pub open spec fn faults_on(self, a: i32) -> bool {
        &&& self.tlb.lookup(page_of(a) as i32) is None
        &&& self.table[page_of(a)] is None
    }

    /// The frame that a faulting page receives: the next unused frame during
    /// warm-up, and afterwards the frame of the page the CLOCK engine evicts.
    pub open spec fn fault_frame(self, p: i32) -> int {
        if self.next_free < FRAME_COUNT {
            self.next_free
        } else {
            self.table[self.clock.inserted(p).1->0 as int]->0 as int
        }
    }

    /// The state after translating `a`, and the translation, where `bytes`
    /// is the page read from the backing store on a fault.
    pub open spec fn step(self, a: i32, bytes: Seq<i8>) -> (TranslatorModel, Translation) {
        let p = page_of(a);
        match self.tlb.lookup(p as i32) {
            Some(f) => (
                TranslatorModel {
                    translated: self.translated + 1,
                    tlb_hits: self.tlb_hits + 1,
                    ..self
                },
                resolved(a, f as int, self.memory),
            ),
            None => match self.table[p] {
                Some(f) => (
                    TranslatorModel {
                        tlb: self.tlb.added(p as i32, f as i32),
                        translated: self.translated + 1,
                        ..self
                    },
                    resolved(a, f as int, self.memory),
                ),
                None => {
                    let (clock, evicted) = self.clock.inserted(p as i32);
                    let f = self.fault_frame(p as i32);
                    let warm = self.next_free < FRAME_COUNT;
                    let table = if warm {
                        self.table
                    } else {
                        self.table.update(evicted->0 as int, None)
                    };
                    let memory = loaded(self.memory, f, bytes);
                    (
                        TranslatorModel {
                            tlb: self.tlb.added(p as i32, f as i32),
                            table: table.update(p, Some(f as usize)),
                            memory,
                            next_free: if warm {
                                self.next_free + 1
                            } else {
                                self.next_free
                            },
                            clock,
                            translated: self.translated + 1,
                            tlb_hits: self.tlb_hits,
                        },
                        resolved(a, f, memory),
                    )
                },
            },
        }
    }
}

/// A page found in the TLB maps to a frame of physical memory.
proof fn lemma_tlb_hit_frame(m: TranslatorModel, p: i32)
    requires
        m.wf(),
        0 <= p,
        m.tlb.lookup(p) is Some,
    ensures
        0 <= m.tlb.lookup(p)->0 < FRAME_COUNT,
{
    lemma_lookup_found(m.tlb, p, 0);
    let j = choose|j: int|
        0 <= j < m.tlb.pages.len() && m.tlb.pages[j] == p && m.tlb.frames[j] == m.tlb.lookup_from(
            p,
            0,
        )->0;
    assert(m.tlb.pages[j] >= 0);
}

/// A page whose entry is invalid is in no slot of the CLOCK engine.
proof fn lemma_fault_not_held(m: TranslatorModel, p: int)
    requires
        m.wf(),
        0 <= p < PAGE_TABLE_SIZE,
        m.table[p] is None,
    ensures
        !m.clock.holds(p as i32),
{
    if m.clock.holds(p as i32) {
        let f = choose|f: int| 0 <= f < m.clock.capacity() && #[trigger] occupied_by(m.clock.frames[f], p as i32);
        assert(m.clock.frames[f] is Some);
    }
}

/// On a fault, the CLOCK engine fills the next unused frame during warm-up,
/// and afterwards evicts the page of the frame that the faulting page gets.
proof fn lemma_fault_frame(m: TranslatorModel, p: int)
    requires
        m.wf(),
        0 <= p < PAGE_TABLE_SIZE,
        m.table[p] is None,
    ensures
        !m.clock.holds(p as i32),
        m.fault_frame(p as i32) == m.clock.victim(),
        0 <= m.clock.victim() < FRAME_COUNT,
        m.next_free < FRAME_COUNT ==> m.clock.victim() == m.next_free && m.clock.inserted(p as i32).1 is None,
        m.next_free == FRAME_COUNT ==> {
            &&& m.clock.inserted(p as i32).1 is Some
            &&& m.clock.frames[m.clock.victim()] matches Some(pg)
            &&& pg.number == m.clock.inserted(p as i32).1->0
            &&& m.table[pg.number as int] == Some(m.clock.victim() as usize)
            &&& pg.number != p
        },
{
    lemma_fault_not_held(m, p);
    lemma_sweep_bounds(m.clock);
    let v = m.clock.victim();
    if m.next_free < FRAME_COUNT {
        assert(m.clock.frames[m.next_free] is None);
        lemma_sweep_len_stops(m.clock.frames, m.clock.hand, 0, 0);
    } else {
        assert(m.clock.frames[v] is Some);
        let pg = m.clock.frames[v]->0;
        assert(m.table[pg.number as int] == Some(v as usize));
        if pg.number == p {
            assert(occupied_by(m.clock.frames[v], p as i32));
        }
    }
}

/// Translating an address keeps the translator's invariant.
pub proof fn lemma_step_wf(m: TranslatorModel, a: i32, bytes: Seq<i8>)
    requires
        m.wf(),
        m.faults_on(a) ==> bytes.len() == PAGE_SIZE,
    ensures
        m.step(a, bytes).0.wf(),
{
    lemma_split_bounds(a);
    let p = page_of(a);
    let r = m.step(a, bytes).0;
    match m.tlb.lookup(p as i32) {
        Some(f) => {},
        None => match m.table[p] {
            Some(f) => {
                assert forall|i: int|
                    0 <= i < TLB_SIZE && #[trigger] r.tlb.pages[i] >= 0 implies 0 <= r.tlb.frames[i]
                        < FRAME_COUNT by {
                    if i != m.tlb.cursor {
                        assert(m.tlb.pages[i] >= 0);
                    }
                }
            },
            None => {
                lemma_fault_frame(m, p);
                lemma_inserted_wf(m.clock, p as i32);
                let v = m.clock.victim();
                let c = r.clock;
                assert(r.table.len() == PAGE_TABLE_SIZE);
                assert forall|i: int|
                    0 <= i < TLB_SIZE && #[trigger] r.tlb.pages[i] >= 0 implies 0 <= r.tlb.frames[i]
                        < FRAME_COUNT by {
                    if i != m.tlb.cursor {
                        assert(m.tlb.pages[i] >= 0);
                    }
                }
                assert forall|f: int|
                    0 <= f < FRAME_COUNT implies (#[trigger] c.frames[f] is Some <==> f
                        < r.next_free) by {
                    if f != v {
                        assert(m.clock.frames[f] is Some <==> f < m.next_free);
                    }
                }
                assert forall|q: int|
                    0 <= q < PAGE_TABLE_SIZE && #[trigger] r.table[q] is Some implies {
                        &&& r.table[q]->0 < FRAME_COUNT
                        &&& occupied_by(c.frames[r.table[q]->0 as int], q as i32)
                    } by {
                    if q != p {
                        let g = m.table[q]->0 as int;
                        assert(m.table[q] is Some);
                        assert(occupied_by(m.clock.frames[g], q as i32));
                        if g == v {
                            if m.next_free < FRAME_COUNT {
                                assert(m.clock.frames[v] is None);
                            } else {
                                let e = m.clock.frames[v]->0.number;
                                assert(occupied_by(m.clock.frames[v], e));
                            }
                        }
                    }
                }
                assert forall|f: int|
                    0 <= f < FRAME_COUNT && #[trigger] c.frames[f] is Some implies {
                        &&& 0 <= c.frames[f]->0.number < PAGE_TABLE_SIZE
                        &&& r.table[c.frames[f]->0.number as int] == Some(f as usize)
                    } by {
                    if f != v {
                        let q = m.clock.frames[f]->0.number;
                        assert(m.clock.frames[f] is Some);
                        assert(occupied_by(m.clock.frames[f], q));
                        assert(occupied_by(c.frames[f], q));
                        assert(c.frames[f]->0.number == q);
                        if q == p {
                            assert(m.table[p] is Some);
                        }
                        if m.next_free == FRAME_COUNT {
                            let e = m.clock.frames[v]->0.number;
                            assert(occupied_by(m.clock.frames[v], e));
                            if q == e {
                                assert(occupied_by(m.clock.frames[f], e));
                            }
                        }
                    }
                }
            },
        },
    }
}

/// The simulated memory system: TLB, page table, physical memory and CLOCK
/// engine, with the counters of one run.
pub struct Translator {
    tlb: TLB,
    page_table: PageTable,
    memory: Vec<i8>,
    next_free_frame: usize,
    clock: Clock,
    translated_count: usize,
    tlb_hits: usize,
}

impl View for Translator {
    type V = TranslatorModel;

    closed spec fn view(&self) -> TranslatorModel {
        TranslatorModel {
            tlb: self.tlb@,
            table: self.page_table@,
            memory: self.memory@,
            next_free: self.next_free_frame as int,
            clock: self.clock@,
            translated: self.translated_count as nat,
            tlb_hits: self.tlb_hits as nat,
        }
    }
}

impl Translator {
    pub closed spec fn wf(&self) -> bool {
        &&& self.tlb.wf()
        &&& self.page_table.wf()
        &&& self.clock.wf()
        &&& self@.wf()
    }

    /// A translator with an empty TLB, every page invalid, zeroed memory, a
    /// CLOCK engine of `FRAME_COUNT` empty slots and zero counters.
    pub fn new() -> (r: Self)
        ensures
            r.wf(),
            r@.next_free == 0,
            r@.translated == 0,
            r@.tlb_hits == 0,
            r@.clock.faults == 0,
            r@.table == Seq::new(PAGE_TABLE_SIZE as nat, |p: int| None::<usize>),
            forall|i: int| 0 <= i < TLB_SIZE ==> r@.tlb.pages[i] == -1,
    {
        let mut memory: Vec<i8> = Vec::new();
        let mut i: usize = 0;
        while i < FRAME_COUNT * PAGE_SIZE
            invariant
                i <= FRAME_COUNT * PAGE_SIZE,
                memory@.len() == i,
            decreases FRAME_COUNT * PAGE_SIZE - i,
        {
            memory.push(0);
            i += 1;
        }
        let r = Translator {
            tlb: TLB::new(),
            page_table: PageTable::new(),
            memory,
            next_free_frame: 0,
            clock: Clock::new(FRAME_COUNT),
            translated_count: 0,
            tlb_hits: 0,
        };
        assert forall|f: int| 0 <= f < FRAME_COUNT implies !(#[trigger] r@.clock.frames[f] is Some) by {}
        assert forall|q: int| 0 <= q < PAGE_TABLE_SIZE implies !(#[trigger] r@.table[q] is Some) by {}
        assert forall|i: int| 0 <= i < TLB_SIZE implies !(#[trigger] r@.tlb.pages[i] >= 0) by {}
        r
    }

    /// The page that must be read from the backing store before `a` can be
    /// translated, if translating it faults.
    pub fn page_needed(&self, logical_address: i32) -> (r: Option<usize>)
        requires
            self.wf(),
        ensures
            r == if self@.faults_on(logical_address) {
                Some(page_of(logical_address) as usize)
            } else {
                None::<usize>
            },
    {
        proof {
            lemma_split_bounds(logical_address);
        }
        let page_number = (logical_address >> 8u32) & 0xFFi32;
        if self.tlb.search(page_number).is_none() && !self.page_table.is_valid(page_number as usize) {
            Some(page_number as usize)
        } else {
            None
        }
    }

    /// Translates one logical address. On a TLB hit the cached frame is used.
    /// On a miss with a valid entry, the entry's frame is used and cached. On
    /// a fault, `page_bytes` (the page read from the backing store) is copied
    /// into a frame: the next unused one during warm-up, afterwards the one
    /// freed by the page the CLOCK engine evicts, whose entry is invalidated.
    /// The result gives the physical address and the byte stored there.
    pub fn translate(&mut self, logical_address: i32, page_bytes: &Vec<i8>) -> (r: Translation)
        requires
            old(self).wf(),
            old(self)@.translated < usize::MAX,
            old(self)@.faults_on(logical_address) ==> page_bytes@.len() == PAGE_SIZE,
        ensures
            final(self).wf(),
            (final(self)@, r) == old(self)@.step(logical_address, page_bytes@),
    {
        proof {
            lemma_split_bounds(logical_address);
            lemma_step_wf(self@, logical_address, page_bytes@);
        }
        let ghost m = self@;
        let page_number = (logical_address >> 8u32) & 0xFFi32;
        let offset = logical_address & 0xFFi32;
        let frame_number: i32;
        match self.tlb.search(page_number) {
            Some(frame) => {
                proof {
                    lemma_tlb_hit_frame(m, page_number);
                }
                self.tlb_hits = self.tlb_hits + 1;
                frame_number = frame;
            },
            None => {
                let page = page_number as usize;
                if !self.page_table.is_valid(page) {
                    proof {
                        lemma_fault_frame(m, page as int);
                        lemma_sweep_bounds(m.clock);
                    }
                    let evicted_page = self.clock.insert(page_number);
                    let frame: usize;
                    if self.next_free_frame < FRAME_COUNT {
                        frame = self.next_free_frame;
                        self.next_free_frame = self.next_free_frame + 1;
                    } else {
                        let evicted = evicted_page.unwrap();
                        frame = self.page_table.resolve(evicted as usize);
                        self.page_table.invalidate(evicted as usize);
                    }
                    self.load_frame(frame, page_bytes);
                    self.page_table.bind(page, frame);
                }
                frame_number = self.page_table.resolve(page) as i32;
                self.tlb.add(page_number, frame_number);
            },
        }
        proof {
            assert(self@.memory.len() == FRAME_COUNT * PAGE_SIZE);
        }
        let value = self.memory[(frame_number as usize) * PAGE_SIZE + offset as usize];
        let physical_address = frame_number * (PAGE_SIZE as i32) + offset;
        self.translated_count = self.translated_count + 1;
        let r = Translation { logical_address, physical_address, value };
        proof {
            assert(self@.memory =~= m.step(logical_address, page_bytes@).0.memory);
            assert(self@.table =~= m.step(logical_address, page_bytes@).0.table);
        }
        r
    }

    /// Copies a page into frame `frame` of physical memory.
    fn load_frame(&mut self, frame: usize, page_bytes: &Vec<i8>)
        requires
            old(self).memory@.len() == FRAME_COUNT * PAGE_SIZE,
            frame < FRAME_COUNT,
            page_bytes@.len() == PAGE_SIZE,
        ensures
            final(self).memory@ == loaded(old(self).memory@, frame as int, page_bytes@),
            final(self).tlb == old(self).tlb,
            final(self).page_table == old(self).page_table,
            final(self).next_free_frame == old(self).next_free_frame,
            final(self).clock == old(self).clock,
            final(self).translated_count == old(self).translated_count,
            final(self).tlb_hits == old(self).tlb_hits,
    {
        let base = frame * PAGE_SIZE;
        let mut k: usize = 0;
        while k < PAGE_SIZE
            invariant
                base == frame * PAGE_SIZE,
                frame < FRAME_COUNT,
                page_bytes@.len() == PAGE_SIZE,
                k <= PAGE_SIZE,
                self.memory@.len() == FRAME_COUNT * PAGE_SIZE,
                self.memory@ == Seq::new(
                    old(self).memory@.len(),
                    |i: int|
                        if base <= i < base + k {
                            page_bytes@[i - base]
                        } else {
                            old(self).memory@[i]
                        },
                ),
                self.tlb == old(self).tlb,
                self.page_table == old(self).page_table,
                self.next_free_frame == old(self).next_free_frame,
                self.clock == old(self).clock,
                self.translated_count == old(self).translated_count,
                self.tlb_hits == old(self).tlb_hits,
            decreases PAGE_SIZE - k,
        {
            self.memory.set(base + k, page_bytes[k]);
            k += 1;
            assert(self.memory@ =~= Seq::new(
                old(self).memory@.len(),
                |i: int|
                    if base <= i < base + k {
                        page_bytes@[i - base]
                    } else {
                        old(self).memory@[i]
                    },
            ));
        }
        assert(self.memory@ =~= loaded(old(self).memory@, frame as int, page_bytes@));
    }
    /// Number of addresses translated so far.
    pub fn translated_count(&self) -> (r: usize)
        ensures
            r == self@.translated,
    {
        self.translated_count
    }

    /// Number of translations answered by the TLB.
    pub fn tlb_hit_count(&self) -> (r: usize)
        ensures
            r == self@.tlb_hits,
    {
        self.tlb_hits
    }

    /// Number of page faults, as counted by the CLOCK engine.
    pub fn page_fault_count(&self) -> (r: usize)
        requires
            self.wf(),
        ensures
            r == self@.clock.faults,
    {
        self.clock.page_fault_count()
    }

    /// The CLOCK engine, for inspection.
    pub fn clock(&self) -> (r: &Clock)
        ensures
            r@ == self@.clock,
    {
        &self.clock
    }
}

/// The pages whose page-table entries are valid.
pub open spec fn valid_pages(table: Seq<Option<usize>>) -> Set<int> {
    Set::new(|p: int| 0 <= p < table.len() && table[p] is Some)
}

/// At any point, at most `FRAME_COUNT` page-table entries are valid, and no
/// two valid entries share a frame.
pub proof fn lemma_page_table_bounded(m: TranslatorModel)
    requires
        m.wf(),
    ensures
        valid_pages(m.table).finite(),
        valid_pages(m.table).len() <= FRAME_COUNT,
        forall|p: int, q: int|
            0 <= p < PAGE_TABLE_SIZE && 0 <= q < PAGE_TABLE_SIZE && p != q && #[trigger] m.table[p]
                is Some && #[trigger] m.table[q] is Some ==> m.table[p]->0 != m.table[q]->0,
{
    let slots = vstd::set_lib::set_int_range(0, FRAME_COUNT as int);
    let holder = |f: int|
        match m.clock.frames[f] {
            Some(pg) => pg.number as int,
            None => -1,
        };
    let held = slots.map(holder);
    vstd::set_lib::lemma_int_range(0, FRAME_COUNT as int);
    vstd::set_lib::lemma_map_size_bound(slots, held, holder);
    assert forall|p: int| #[trigger] valid_pages(m.table).contains(p) implies held.contains(p) by {
        let f = m.table[p]->0 as int;
        assert(occupied_by(m.clock.frames[f], p as i32));
        assert(slots.contains(f));
        assert(holder(f) == p);
    }
    vstd::set_lib::lemma_len_subset(valid_pages(m.table), held);
    assert forall|p: int, q: int|
        0 <= p < PAGE_TABLE_SIZE && 0 <= q < PAGE_TABLE_SIZE && p != q && #[trigger] m.table[p]
            is Some && #[trigger] m.table[q] is Some implies m.table[p]->0 != m.table[q]->0 by {
        assert(occupied_by(m.clock.frames[m.table[p]->0 as int], p as i32));
        assert(occupied_by(m.clock.frames[m.table[q]->0 as int], q as i32));
    }
}

/// The fault and TLB-hit counters never exceed the number of translated
/// addresses, so the fault rate and the hit rate lie in `[0, 1]`.
pub proof fn lemma_counters_bounded(m: TranslatorModel)
    requires
        m.wf(),
    ensures
        m.clock.faults <= m.translated,
        m.tlb_hits <= m.translated,
{
}

} // verus!
