//! The translation lookaside buffer: a small fully-associative cache of
//! page-to-frame mappings with FIFO replacement.
use vstd::prelude::*;

verus! {

/// Number of entries the TLB holds.
pub const TLB_SIZE: usize = 16;

/// A fixed ring of `(page, frame)` entries written at a cursor. Unused
/// entries hold page `-1`.
pub struct TLB {
    page_numbers: [i32; TLB_SIZE],
    frame_numbers: [i32; TLB_SIZE],
    index: usize,
}

/// The abstract state of a TLB: the page and frame of each slot, and the
/// slot the next insertion writes.
pub struct TlbModel {
    pub pages: Seq<i32>,
    pub frames: Seq<i32>,
    pub cursor: int,
}

impl TlbModel {
    /// Every slot has a page and a frame, and the cursor points at a slot.
    pub open spec fn wf(self) -> bool {
        &&& self.pages.len() == TLB_SIZE
        &&& self.frames.len() == TLB_SIZE
        &&& 0 <= self.cursor < TLB_SIZE
    }

    /// The frame of the first slot at or after `i` whose page is `p`.
    pub open spec fn lookup_from(self, p: i32, i: int) -> Option<i32>
        decreases self.pages.len() - i,
    {
        if i < 0 || i >= self.pages.len() {
            None
        } else if self.pages[i] == p {
            Some(self.frames[i])
        } else {
            self.lookup_from(p, i + 1)
        }
    }

    /// The frame of the first slot, in slot order, whose page is `p`.
    pub open spec fn lookup(self, p: i32) -> Option<i32> {
        self.lookup_from(p, 0)
    }

    /// The state after inserting `(p, f)`: the slot at the cursor is
    /// overwritten and the cursor moves on, wrapping around.
    pub open spec fn added(self, p: i32, f: i32) -> TlbModel {
        TlbModel {
            pages: self.pages.update(self.cursor, p),
            frames: self.frames.update(self.cursor, f),
            cursor: if self.cursor + 1 == TLB_SIZE {
                0
            } else {
                self.cursor + 1
            },
        }
    }

    /// The state after inserting each pair of `entries` in order.
    pub open spec fn added_all(self, entries: Seq<(i32, i32)>) -> TlbModel
        decreases entries.len(),
    {
        if entries.len() == 0 {
            self
        } else {
            self.added_all(entries.drop_last()).added(entries.last().0, entries.last().1)
        }
    }
}

/// A found frame comes from a slot that holds the page and that frame.
pub proof fn lemma_lookup_found(m: TlbModel, p: i32, i: int)
    requires
        m.pages.len() == m.frames.len(),
        m.lookup_from(p, i) is Some,
    ensures
        exists|j: int|
            0 <= j < m.pages.len() && m.pages[j] == p && m.frames[j] == m.lookup_from(p, i)->0,
    decreases m.pages.len() - i,
{
    if m.pages[i] != p {
        lemma_lookup_found(m, p, i + 1);
    }
}

proof fn lemma_added_all_cursor(m: TlbModel, entries: Seq<(i32, i32)>)
    requires
        m.wf(),
    ensures
        m.added_all(entries).wf(),
        m.added_all(entries).cursor == (m.cursor + entries.len()) % (TLB_SIZE as int),
    decreases entries.len(),
{
    if entries.len() > 0 {
        lemma_added_all_cursor(m, entries.drop_last());
    }
}

/// After any sequence of insertions the TLB still has exactly `TLB_SIZE`
/// slots, and insertions reuse slots in strict FIFO rotation: insertion
/// number `k + TLB_SIZE` overwrites the slot that insertion number `k` wrote.
pub proof fn lemma_fifo_rotation(m: TlbModel, entries: Seq<(i32, i32)>, k: int)
    requires
        m.wf(),
        0 <= k,
        k + TLB_SIZE < entries.len(),
    ensures
        m.added_all(entries).wf(),
        m.added_all(entries.take(k)).cursor == m.added_all(entries.take(k + TLB_SIZE)).cursor,
        ({
            let c = m.added_all(entries.take(k)).cursor;
            &&& m.added_all(entries.take(k + 1)).pages[c] == entries[k].0
            &&& m.added_all(entries.take(k + TLB_SIZE + 1)).pages[c] == entries[k + TLB_SIZE].0
        }),
{
    lemma_added_all_cursor(m, entries);
    lemma_added_all_cursor(m, entries.take(k));
    lemma_added_all_cursor(m, entries.take(k + TLB_SIZE));
    assert(entries.take(k + 1).drop_last() =~= entries.take(k));
    assert(entries.take(k + TLB_SIZE + 1).drop_last() =~= entries.take(k + TLB_SIZE));
    assert((m.cursor + k) % 16 == (m.cursor + k + 16) % 16) by (nonlinear_arith)
        requires
            m.cursor >= 0,
            k >= 0,
    ;
}

impl View for TLB {
    type V = TlbModel;

    closed spec fn view(&self) -> TlbModel {
        TlbModel {
            pages: self.page_numbers@,
            frames: self.frame_numbers@,
            cursor: self.index as int,
        }
    }
}

impl TLB {
    pub open spec fn wf(&self) -> bool {
        self@.wf()
    }

    /// An empty TLB: every slot holds page `-1` and frame `-1`, cursor at 0.
    pub fn new() -> (r: Self)
        ensures
            r.wf(),
            r@.cursor == 0,
            forall|i: int| 0 <= i < TLB_SIZE ==> r@.pages[i] == -1 && r@.frames[i] == -1,
    {
        TLB { page_numbers: [-1i32; TLB_SIZE], frame_numbers: [-1i32; TLB_SIZE], index: 0 }
    }

    /// Scans the slots in order and returns the frame of the first one that
    /// holds `page_number`.
    pub fn search(&self, page_number: i32) -> (r: Option<i32>)
        requires
            self.wf(),
        ensures
            r == self@.lookup(page_number),
    {
        let mut i: usize = 0;
        while i < TLB_SIZE
            invariant
                self.wf(),
                0 <= i <= TLB_SIZE,
                self@.lookup(page_number) == self@.lookup_from(page_number, i as int),
            decreases TLB_SIZE - i,
        {
            if self.page_numbers[i] == page_number {
                return Some(self.frame_numbers[i]);
            }
            i += 1;
        }
        None
    }

    /// Writes `(page_number, frame_number)` into the slot at the cursor,
    /// replacing whatever it held, and advances the cursor.
    pub fn add(&mut self, page_number: i32, frame_number: i32)
        requires
            old(self).wf(),
        ensures
            final(self).wf(),
            final(self)@ == old(self)@.added(page_number, frame_number),
    {
        self.page_numbers[self.index] = page_number;
        self.frame_numbers[self.index] = frame_number;
        proof {
            if self.index + 1 < TLB_SIZE {
                vstd::arithmetic::div_mod::lemma_small_mod(
                    (self.index + 1) as nat,
                    TLB_SIZE as nat,
                );
            }
        }
        self.index = (self.index + 1) % TLB_SIZE;
    }
}

} // verus!
