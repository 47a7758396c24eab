//! The per-unit bookkeeping record.

use vstd::prelude::*;
use crate::geometry::NIL;

verus! {

/// One record per 4096-byte unit of the arena.
///
/// A record is meaningful while its unit is the first unit of a block:
/// `ord` is that block's size class, `ref_cnt` is nonzero exactly while
/// the block is allocated, and `next`/`prev` are table indices linking
/// idle blocks into their order's free list (`NIL` when unlinked).
/// Units covered by the middle of a block carry no meaningful state.
#[derive(Clone, Copy, Debug)]
pub struct Page {
    /// Position of this unit within the arena, in units.
    pub idx: usize,
    /// Nonzero while the block starting here is allocated.
    pub ref_cnt: usize,
    /// Current size class of the block starting here.
    pub ord: usize,
    /// Free-list forward link (table index), `NIL` when unlinked.
    pub next: usize,
    /// Free-list backward link (table index), `NIL` when unlinked.
    pub prev: usize,
}

impl Page {
    /// A fresh, idle, unlinked record for unit `idx` at class `ord`.
    pub fn new(idx: usize, ord: usize) -> (p: Page)
        ensures
            p == (Page { idx, ref_cnt: 0, ord, next: NIL, prev: NIL }),
    {
        Page { idx, ref_cnt: 0, ord, next: NIL, prev: NIL }
    }

    /// Clear both free-list links.
    pub fn rm_links(&mut self)
        ensures
            *final(self) == (Page { next: NIL, prev: NIL, ..*old(self) }),
    {
        self.next = NIL;
        self.prev = NIL;
    }

    /// An idle page is one that no allocation currently references.
    pub fn is_idle(&self) -> (r: bool)
        ensures
            r == (self.ref_cnt == 0),
    {
        self.ref_cnt == 0
    }
}

impl Default for Page {
    /// The all-clear record: unit 0, idle, class 0, unlinked.
    fn default() -> (p: Page)
        ensures
            p == (Page { idx: 0, ref_cnt: 0, ord: 0, next: NIL, prev: NIL }),
    {
        Page { idx: 0, ref_cnt: 0, ord: 0, next: NIL, prev: NIL }
    }
}

} // verus!
