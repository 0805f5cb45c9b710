//! The operations that every physical backing strategy for a virtual range
//! provides, so that the address-space layer can hold any of them.
use vstd::prelude::*;

use crate::backend::File;
use crate::error::{OSError, OSResult};
use crate::frame::{FrameAllocator, PAGE_SIZE};
use crate::lazy::{out_of_range, PmAreaLazy};

verus! {

/// A physical backing strategy for one virtual range.
pub trait PmArea: Sized {
    /// The strategy's own well-formedness.
    spec fn inv(&self) -> bool;

    /// Size of the range in bytes.
    spec fn byte_size(&self) -> int;

    /// Size of the range in bytes.
    fn size(&self) -> (r: usize)
        requires
            self.inv(),
        ensures
            r == self.byte_size(),
    ;

    /// A backing of the same size for a forked address space.
    fn clone_as_fork(&self) -> (r: OSResult<Self>)
        requires
            self.inv(),
        ensures
            r matches Ok(a) ==> a.inv() && a.byte_size() == self.byte_size(),
    ;

    /// The frame of page `idx`, allocated first where `need_alloc` asks.
    fn get_frame(&mut self, idx: usize, need_alloc: bool, alloc: &mut FrameAllocator) -> (r:
        OSResult<Option<usize>>)
        requires
            old(self).inv(),
            idx * PAGE_SIZE < old(self).byte_size(),
        ensures
            final(self).inv(),
            final(self).byte_size() == old(self).byte_size(),
            !need_alloc ==> r is Ok,
    ;

    /// Writes page `idx` back to the backing store, best effort.
    fn sync_frame_with_file(&mut self, idx: usize) -> (r: OSResult<()>)
        requires
            old(self).inv(),
            idx * PAGE_SIZE < old(self).byte_size(),
        ensures
            final(self).inv(),
            final(self).byte_size() == old(self).byte_size(),
            r is Ok,
    ;

    /// Writes page `idx` back and gives its frame up.
    fn release_frame(&mut self, idx: usize, alloc: &mut FrameAllocator) -> (r: OSResult<()>)
        requires
            old(self).inv(),
        ensures
            final(self).inv(),
            final(self).byte_size() == old(self).byte_size(),
            idx * PAGE_SIZE >= old(self).byte_size() ==> r == Err::<(), OSError>(
                OSError::PmAreaLazy_ReleaseNotAllocatedPage,
            ),
    ;

    /// Copies bytes of the range from `offset` on into `dst`.
    fn read(&mut self, offset: usize, dst: &mut [u8], alloc: &mut FrameAllocator) -> (r: OSResult<
        usize,
    >)
        requires
            old(self).inv(),
        ensures
            final(self).inv(),
            final(self).byte_size() == old(self).byte_size(),
            out_of_range(offset as int, old(dst)@.len() as int, old(self).byte_size()) ==> r
                == Err::<usize, OSError>(OSError::PmArea_OutOfRange),
    ;

    /// Copies `src` into the range from `offset` on.
    fn write(&mut self, offset: usize, src: &[u8], alloc: &mut FrameAllocator) -> (r: OSResult<
        usize,
    >)
        requires
            old(self).inv(),
        ensures
            final(self).inv(),
            final(self).byte_size() == old(self).byte_size(),
            out_of_range(offset as int, src@.len() as int, old(self).byte_size()) ==> r == Err::<
                usize,
                OSError,
            >(OSError::PmArea_OutOfRange),
    ;

    /// Discards the front of the range up to `new_start`.
    fn shrink_left(&mut self, new_start: usize, alloc: &mut FrameAllocator) -> (r: OSResult<()>)
        requires
            old(self).inv(),
        ensures
            final(self).inv(),
            new_start >= old(self).byte_size() ==> r == Err::<(), OSError>(
                OSError::PmArea_ShrinkFailed,
            ),
    ;

    /// Discards the back of the range from `new_end` on.
    fn shrink_right(&mut self, new_end: usize, alloc: &mut FrameAllocator) -> (r: OSResult<()>)
        requires
            old(self).inv(),
        ensures
            final(self).inv(),
            new_end >= old(self).byte_size() ==> r == Err::<(), OSError>(
                OSError::PmArea_ShrinkFailed,
            ),
    ;

    /// Keeps the range before `left_end` and returns the range from
    /// `right_start` on as a backing of its own.
    fn split(&mut self, left_end: usize, right_start: usize, alloc: &mut FrameAllocator) -> (r:
        OSResult<Self>)
        requires
            old(self).inv(),
        ensures
            final(self).inv(),
            r matches Ok(b) ==> b.inv(),
            !(left_end <= right_start && right_start < old(self).byte_size()) ==> r is Err,
    ;
}

impl<F: File> PmArea for PmAreaLazy<F> {
    open spec fn inv(&self) -> bool {
        self.wf()
    }

    open spec fn byte_size(&self) -> int {
        self.spec_size()
    }

    fn size(&self) -> (r: usize) {
        PmAreaLazy::size(self)
    }

    fn clone_as_fork(&self) -> (r: OSResult<Self>) {
        PmAreaLazy::clone_as_fork(self)
    }

    fn get_frame(&mut self, idx: usize, need_alloc: bool, alloc: &mut FrameAllocator) -> (r:
        OSResult<Option<usize>>) {
        PmAreaLazy::get_frame(self, idx, need_alloc, alloc)
    }

    fn sync_frame_with_file(&mut self, idx: usize) -> (r: OSResult<()>) {
        PmAreaLazy::sync_frame_with_file(self, idx)
    }

    fn release_frame(&mut self, idx: usize, alloc: &mut FrameAllocator) -> (r: OSResult<()>) {
        PmAreaLazy::release_frame(self, idx, alloc)
    }

    fn read(&mut self, offset: usize, dst: &mut [u8], alloc: &mut FrameAllocator) -> (r: OSResult<
        usize,
    >) {
        PmAreaLazy::read(self, offset, dst, alloc)
    }

    fn write(&mut self, offset: usize, src: &[u8], alloc: &mut FrameAllocator) -> (r: OSResult<
        usize,
    >) {
        PmAreaLazy::write(self, offset, src, alloc)
    }

    fn shrink_left(&mut self, new_start: usize, alloc: &mut FrameAllocator) -> (r: OSResult<()>) {
        PmAreaLazy::shrink_left(self, new_start, alloc)
    }

    fn shrink_right(&mut self, new_end: usize, alloc: &mut FrameAllocator) -> (r: OSResult<()>) {
        PmAreaLazy::shrink_right(self, new_end, alloc)
    }

    fn split(&mut self, left_end: usize, right_start: usize, alloc: &mut FrameAllocator) -> (r:
        OSResult<Self>) {
        PmAreaLazy::split(self, left_end, right_start, alloc)
    }
}

} // verus!
