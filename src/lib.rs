//! A demand-paged virtual memory simulator: a TLB, a page table, a fixed pool
//! of physical frames and a CLOCK (second-chance) replacement engine.
pub mod clock;
pub mod tlb;
pub mod page_table;
pub mod translator;
