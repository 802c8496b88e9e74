//! Allocation counters: how many allocations and frees, how many bytes are
//! live, and how many were ever asked for. Stats, not synchronisation: the
//! counters wrap as the atomics they stand in for would.

use vstd::prelude::*;

verus! {

#[derive(Clone, Copy, Debug, PartialEq, Eq)]
pub struct Stats {
    pub alloc_count: u64,
    pub dealloc_count: u64,
    pub bytes_live: u64,
    pub bytes_allocated_total: u64,
}

impl Stats {
    pub fn new() -> (s: Self)
        ensures
            s == (Stats { alloc_count: 0, dealloc_count: 0, bytes_live: 0, bytes_allocated_total: 0 }),
    {
        Stats { alloc_count: 0, dealloc_count: 0, bytes_live: 0, bytes_allocated_total: 0 }
    }

    /// One allocation of `size` bytes.
    pub fn on_alloc(&mut self, size: usize)
        ensures
            final(self).alloc_count == old(self).alloc_count.wrapping_add(1),
            final(self).bytes_live == old(self).bytes_live.wrapping_add(size as u64),
            final(self).bytes_allocated_total == old(self).bytes_allocated_total.wrapping_add(size as u64),
            final(self).dealloc_count == old(self).dealloc_count,
    {
        let n = size as u64;
        self.alloc_count = self.alloc_count.wrapping_add(1);
        self.bytes_live = self.bytes_live.wrapping_add(n);
        self.bytes_allocated_total = self.bytes_allocated_total.wrapping_add(n);
    }

    /// One free of `size` bytes. Live bytes never go below zero.
    pub fn on_dealloc(&mut self, size: usize)
        ensures
            final(self).dealloc_count == old(self).dealloc_count.wrapping_add(1),
            final(self).bytes_live == if size as u64 <= old(self).bytes_live {
                old(self).bytes_live - size as u64
            } else {
                0
            },
            final(self).alloc_count == old(self).alloc_count,
            final(self).bytes_allocated_total == old(self).bytes_allocated_total,
    {
        let n = size as u64;
        self.dealloc_count = self.dealloc_count.wrapping_add(1);
        let live = self.bytes_live;
        self.bytes_live = live - if n <= live { n } else { live };
    }
}

/// Freeing what was just allocated gives the live bytes back, when the
/// counter did not wrap.
pub proof fn alloc_then_free_is_neutral(live: u64, size: u64)
    requires
        live + size <= u64::MAX,
    ensures
        ({
            let after = live.wrapping_add(size);
            (if size <= after { after - size } else { 0 }) == live
        }),
{
}

} // verus!
