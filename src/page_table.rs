//! The page table: for each page number, whether it is resident and in
//! which frame.
use vstd::prelude::*;

verus! {

/// Number of pages in the logical address space.
pub const PAGE_TABLE_SIZE: usize = 256;

/// Parallel arrays of validity flags and frame numbers, indexed by page.
pub struct PageTable {
    valid: Vec<bool>,
    frames: Vec<usize>,
}

impl View for PageTable {
    /// For each page, its frame if the entry is valid.
    type V = Seq<Option<usize>>;

    closed spec fn view(&self) -> Seq<Option<usize>> {
        Seq::new(
            self.valid@.len(),
            |p: int|
                if self.valid@[p] {
                    Some(self.frames@[p])
                } else {
                    None
                },
        )
    }
}

impl PageTable {
    pub closed spec fn wf(&self) -> bool {
        &&& self.valid@.len() == PAGE_TABLE_SIZE
        &&& self.frames@.len() == PAGE_TABLE_SIZE
    }

    /// A table with every entry invalid.
    pub fn new() -> (r: Self)
        ensures
            r.wf(),
            r@ == Seq::new(PAGE_TABLE_SIZE as nat, |p: int| None::<usize>),
    {
        let mut valid: Vec<bool> = Vec::new();
        let mut frames: Vec<usize> = Vec::new();
        let mut i: usize = 0;
        while i < PAGE_TABLE_SIZE
            invariant
                i <= PAGE_TABLE_SIZE,
                valid@ == Seq::new(i as nat, |p: int| false),
                frames@.len() == i,
            decreases PAGE_TABLE_SIZE - i,
        {
            valid.push(false);
            frames.push(0);
            i += 1;
        }
        let r = PageTable { valid, frames };
        assert(r@ =~= Seq::new(PAGE_TABLE_SIZE as nat, |p: int| None::<usize>));
        r
    }

    /// Whether the entry of `page` is valid.
    pub fn is_valid(&self, page: usize) -> (r: bool)
        requires
            self.wf(),
            page < PAGE_TABLE_SIZE,
        ensures
            r == self@[page as int] is Some,
    {
        self.valid[page]
    }

    /// The frame of a valid entry.
    pub fn resolve(&self, page: usize) -> (r: usize)
        requires
            self.wf(),
            page < PAGE_TABLE_SIZE,
            self@[page as int] is Some,
        ensures
            self@[page as int] == Some(r),
    {
        self.frames[page]
    }

    /// Marks the entry of `page` valid, in `frame`.
    pub fn bind(&mut self, page: usize, frame: usize)
        requires
            old(self).wf(),
            page < PAGE_TABLE_SIZE,
        ensures
            final(self).wf(),
            final(self)@ == old(self)@.update(page as int, Some(frame)),
    {
        self.valid.set(page, true);
        self.frames.set(page, frame);
        assert(self@ =~= old(self)@.update(page as int, Some(frame)));
    }

    /// Marks the entry of `page` invalid.
    pub fn invalidate(&mut self, page: usize)
        requires
            old(self).wf(),
            page < PAGE_TABLE_SIZE,
        ensures
            final(self).wf(),
            final(self)@ == old(self)@.update(page as int, None),
    {
        self.valid.set(page, false);
        assert(self@ =~= old(self)@.update(page as int, None));
    }
}

} // verus!
