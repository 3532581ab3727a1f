//! Bump allocator over a fixed block of memory reserved inside the tracee.
//!
//! The block's base address is discovered at run time (the preloaded helper
//! writes it to a file); the allocator itself only does offset arithmetic.
//! An allocation that does not fit between the offset and the block's end
//! wraps to the start of the block, so later allocations may overwrite
//! earlier ones; that is acceptable because every allocation is consumed by
//! the kernel within the same syscall stop. Every allocation lies whole
//! inside the block.
use vstd::prelude::*;

verus! {

use crate::MEM_BLOCK_SIZE;

/// The block of tracee memory that enlarged string arguments are copied into:
/// a base address, the running offset of the next allocation, and the fixed
/// block size.
pub struct RemoteMem {
    base: u64,
    offset: u64,
    max: u64,
}

/// The offset an allocation of `size` bytes lands at: the current offset, or
/// the start of the block when the allocation cannot fit before the block's
/// end.
pub open spec fn landing_offset(off: u64, size: u64, max: u64) -> u64 {
    if off + size > max {
        0
    } else {
        off
    }
}

/// The offset left behind by one allocation of `size` bytes: one past the
/// allocation's end.
pub open spec fn next_offset(off: u64, size: u64, max: u64) -> u64 {
    (landing_offset(off, size, max) + size) as u64
}

/// The offset after a whole sequence of allocations, starting from a fresh
/// block.
pub open spec fn offset_after(sizes: Seq<u64>, max: u64) -> u64
    decreases sizes.len(),
{
    if sizes.len() == 0 {
        0
    } else {
        next_offset(offset_after(sizes.drop_last(), max), sizes.last(), max)
    }
}

impl RemoteMem {
    /// The allocator never moves its offset outside the block, and the block
    /// itself fits in the address space.
    pub closed spec fn wf(self) -> bool {
        self.offset <= self.max && self.base + self.max <= u64::MAX
    }

    pub closed spec fn spec_base(self) -> u64 {
        self.base
    }

    pub closed spec fn spec_offset(self) -> u64 {
        self.offset
    }

    pub closed spec fn spec_max(self) -> u64 {
        self.max
    }

    /// A fresh region over the block whose base address the discovery file
    /// gave; the block size is fixed.
    pub fn new(base: u64) -> (r: Self)
        requires
            base + MEM_BLOCK_SIZE <= u64::MAX,
        ensures
            r.wf(),
            r.spec_base() == base,
            r.spec_offset() == 0,
            r.spec_max() == MEM_BLOCK_SIZE,
    {
        RemoteMem { base, offset: 0, max: MEM_BLOCK_SIZE }
    }

    /// Hand out the tracee address of the next `size` bytes, wrapping to the
    /// start of the block when the request does not fit before the block's
    /// end, and advance the offset past the allocation. The address handed
    /// out always carries `size` bytes inside the block. A request larger
    /// than the whole block is refused (the tracer treats that as fatal).
    pub fn allocate(&mut self, size: u64) -> (r: Option<u64>)
        requires
            old(self).wf(),
        ensures
            final(self).wf(),
            final(self).spec_base() == old(self).spec_base(),
            final(self).spec_max() == old(self).spec_max(),
            size > old(self).spec_max() ==> r is None && final(self).spec_offset() == old(
                self,
            ).spec_offset(),
            size <= old(self).spec_max() ==> ({
                let a = old(self).spec_base() + landing_offset(
                    old(self).spec_offset(),
                    size,
                    old(self).spec_max(),
                );
                r == Some(a as u64) && old(self).spec_base() <= a && a + size <= old(
                    self,
                ).spec_base() + old(self).spec_max() && final(self).spec_offset() == next_offset(
                    old(self).spec_offset(),
                    size,
                    old(self).spec_max(),
                )
            }),
    {
        if size > self.max {
            return None;
        }
        if size > self.max - self.offset {
            self.offset = 0;
        }
        let addr = self.base + self.offset;
        self.offset = self.offset + size;
        Some(addr)
    }
}

/// Allocator wrap: run any sequence of allocations, each of at least one byte
/// and at most the block size, over a fresh block. Every offset the allocator
/// passes through stays within the block, and every address handed out lies
/// inside `[base, base + max)`, with the whole allocation ending at or before
/// the block's end — allocations totalling more than the block wrap rather
/// than escaping it.
pub proof fn lemma_alloc_wrap(sizes: Seq<u64>, max: u64, base: u64)
    requires
        base + max <= u64::MAX,
        forall|i: int| 0 <= i < sizes.len() ==> 1 <= #[trigger] sizes[i] <= max,
    ensures
        forall|i: int|
            0 <= i <= sizes.len() ==> #[trigger] offset_after(sizes.take(i), max) <= max,
        forall|i: int|
            0 <= i < sizes.len() ==> base <= base + landing_offset(
                #[trigger] offset_after(sizes.take(i), max),
                sizes[i],
                max,
            ) && base + landing_offset(offset_after(sizes.take(i), max), sizes[i], max) + sizes[i]
                <= base + max,
    decreases sizes.len(),
{
    if sizes.len() == 0 {
        assert(sizes.take(0) =~= Seq::<u64>::empty());
    } else {
        lemma_alloc_wrap(sizes.drop_last(), max, base);
        assert forall|i: int| 0 <= i <= sizes.len() implies #[trigger] offset_after(
            sizes.take(i),
            max,
        ) <= max by {
            if i < sizes.len() {
                assert(sizes.take(i) =~= sizes.drop_last().take(i));
            } else {
                assert(sizes.take(i) =~= sizes);
                assert(sizes.drop_last() =~= sizes.take(sizes.len() - 1));
            }
        }
    }
}

} // verus!
