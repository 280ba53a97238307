//! The frame allocator: hands out the frames of one region of physical
//! memory, one at a time, and never takes one back.

use vstd::prelude::*;
use crate::address::{PAGE_SIZE, PHYSICAL_LIMIT};
use crate::error::LoadError;

verus! {

/// Hands out the page frames of a region that the firmware has set aside for
/// the loader. Frames leave in ascending order of address.
#[derive(Debug)]
pub struct FrameAllocator {
    base: u64,
    capacity: u64,
    allocated: u64,
}

impl FrameAllocator {
    /// The region starts on a frame boundary, lies below the physical limit,
    /// and no more frames have left than it holds.
    pub closed spec fn wf(&self) -> bool {
        &&& self.base % PAGE_SIZE == 0
        &&& self.base + self.capacity * PAGE_SIZE <= PHYSICAL_LIMIT
        &&& self.allocated <= self.capacity
    }

    /// Physical address of the first frame of the region.
    pub closed spec fn base(&self) -> int {
        self.base as int
    }

    /// Number of frames in the region.
    pub closed spec fn capacity(&self) -> int {
        self.capacity as int
    }

    /// Number of frames handed out so far.
    pub closed spec fn allocated(&self) -> int {
        self.allocated as int
    }

    /// Number of frames still to hand out.
    pub open spec fn free(&self) -> int {
        self.capacity() - self.allocated()
    }

    /// Address of the frame that the next call of `allocate_frame` returns,
    /// if it returns one.
    pub open spec fn next_address(&self) -> int {
        self.base() + self.allocated() * 4096
    }

    /// What a well-formed allocator's numbers obey.
    pub proof fn lemma_bounds(&self)
        requires
            self.wf(),
        ensures
            0 <= self.allocated() <= self.capacity(),
            0 <= self.base(),
            self.base() % 4096 == 0,
            self.base() + self.capacity() * 4096 <= PHYSICAL_LIMIT,
    {
    }

    /// An allocator over `capacity` frames starting at `base`.
    pub fn new(base: u64, capacity: u64) -> (allocator: FrameAllocator)
        requires
            base % PAGE_SIZE == 0,
            base + capacity * PAGE_SIZE <= PHYSICAL_LIMIT,
        ensures
            allocator.wf(),
            allocator.base() == base,
            allocator.capacity() == capacity,
            allocator.allocated() == 0,
    {
        FrameAllocator { base, capacity, allocated: 0 }
    }

    /// Number of frames still to hand out.
    pub fn remaining(&self) -> (count: u64)
        requires
            self.wf(),
        ensures
            count == self.free(),
    {
        self.capacity - self.allocated
    }

    /// Hands out the next frame of the region as its start address, or fails
    /// once the region is used up.
    pub fn allocate_frame(&mut self) -> (result: Result<u64, LoadError>)
        requires
            old(self).wf(),
        ensures
            final(self).wf(),
            final(self).base() == old(self).base(),
            final(self).capacity() == old(self).capacity(),
            match result {
                Ok(address) => {
                    &&& old(self).free() > 0
                    &&& address == old(self).next_address()
                    &&& address % PAGE_SIZE == 0
                    &&& address + PAGE_SIZE <= PHYSICAL_LIMIT
                    &&& final(self).allocated() == old(self).allocated() + 1
                },
                Err(error) => {
                    &&& old(self).free() == 0
                    &&& error == LoadError::ResourceExhaustion
                    &&& final(self).allocated() == old(self).allocated()
                },
            },
    {
        if self.allocated >= self.capacity {
            return Err(LoadError::ResourceExhaustion);
        }
        assert(self.allocated * PAGE_SIZE + PAGE_SIZE <= self.capacity * PAGE_SIZE)
            by (nonlinear_arith)
            requires
                self.allocated < self.capacity,
        ;
        let address = self.base + self.allocated * PAGE_SIZE;
        assert(address % PAGE_SIZE == 0) by (nonlinear_arith)
            requires
                address == self.base + self.allocated * PAGE_SIZE,
                self.base % PAGE_SIZE == 0,
                PAGE_SIZE == 4096,
        ;
        self.allocated = self.allocated + 1;
        Ok(address)
    }
}

} // verus!
