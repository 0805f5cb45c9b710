//! A demand-paged region: an ordered run of page slots, each vacant or
//! holding a frame, with an optional backing-file window.
use vstd::prelude::*;

use crate::backend::{shifted, BackEndFile, File};
use crate::error::{OSError, OSResult};
use crate::frame::{zeros, Frame, FrameAllocator, PAGE_SIZE};

verus! {

/// Upper end of the user part of a virtual address space.
pub const USER_VIRT_ADDR_LIMIT: usize = 0xFFFF_F000;

/// Most pages that one region can span.
pub const MAX_PAGE_COUNT: usize = USER_VIRT_ADDR_LIMIT / PAGE_SIZE;

/// The content of a page slot: `None` while vacant.
pub open spec fn slot_view(f: Option<Frame>) -> Option<Seq<u8>> {
    match f {
        Some(fr) => Some(fr@),
        None => None,
    }
}

/// The physical address of a page slot: `None` while vacant.
pub open spec fn slot_paddr(f: Option<Frame>) -> Option<usize> {
    match f {
        Some(fr) => Some(fr.spec_paddr()),
        None => None,
    }
}

/// Page slots that a region can hold: not too many, each resident page one
/// page long.
pub open spec fn pages_wf(pages: Seq<Option<Seq<u8>>>) -> bool {
    &&& pages.len() <= MAX_PAGE_COUNT
    &&& (forall|i: int|
        0 <= i < pages.len() && #[trigger] pages[i] is Some ==> pages[i]->0.len() == PAGE_SIZE)
}

/// `n` vacant page slots.
pub open spec fn vacant_pages(n: nat) -> Seq<Option<Seq<u8>>> {
    Seq::new(n, |i: int| None::<Seq<u8>>)
}

/// Byte `i` of a run of pages; a vacant page reads as zeros.
pub open spec fn byte_at(pages: Seq<Option<Seq<u8>>>, i: int) -> u8 {
    match pages[i / PAGE_SIZE as int] {
        Some(c) => c[i % PAGE_SIZE as int],
        None => 0u8,
    }
}

/// The bytes of a run of pages.
pub open spec fn bytes_of(pages: Seq<Option<Seq<u8>>>) -> Seq<u8> {
    Seq::new(pages.len() * PAGE_SIZE as nat, |i: int| byte_at(pages, i))
}

/// `c` with the bytes from `offset` on replaced by `data`.
pub open spec fn splice(c: Seq<u8>, offset: int, data: Seq<u8>) -> Seq<u8> {
    c.subrange(0, offset) + data + c.subrange(offset + data.len(), c.len() as int)
}

/// A span `[offset, offset + len)` does not fit in `size` bytes.
pub open spec fn out_of_range(offset: int, len: int, size: int) -> bool {
    offset >= size || offset + len > size
}

/// The page that holds byte `addr`.
pub open spec fn page_of(addr: int) -> int {
    addr / PAGE_SIZE as int
}

/// One past the last page that the span `[offset, offset + len)` touches.
pub open spec fn span_end(offset: int, len: int) -> int {
    if len == 0 {
        page_of(offset)
    } else {
        page_of(offset + len - 1) + 1
    }
}

/// Number of vacant slots among pages `lo..hi`.
pub open spec fn vacant_count(pages: Seq<Option<Seq<u8>>>, lo: int, hi: int) -> nat
    decreases hi - lo,
{
    if hi <= lo {
        0
    } else {
        vacant_count(pages, lo, hi - 1) + if pages[hi - 1] is None {
            1nat
        } else {
            0nat
        }
    }
}

/// Whether slot `idx` holds a frame that can be released.
pub open spec fn releasable(pages: Seq<Option<Seq<u8>>>, idx: int) -> bool {
    0 <= idx < pages.len() && pages[idx] is Some
}

/// Counting vacant slots over a longer run never gives fewer.
pub proof fn lemma_vacant_count_mono(pages: Seq<Option<Seq<u8>>>, lo: int, mid: int, hi: int)
    requires
        lo <= mid <= hi,
    ensures
        vacant_count(pages, lo, mid) <= vacant_count(pages, lo, hi),
    decreases hi - mid,
{
    if mid < hi {
        lemma_vacant_count_mono(pages, lo, mid, hi - 1);
    }
}

/// Writing one byte of a resident page changes exactly that byte of the run.
proof fn lemma_bytes_set(pages: Seq<Option<Seq<u8>>>, idx: int, w: int, b: u8)
    requires
        pages_wf(pages),
        0 <= idx < pages.len(),
        pages[idx] is Some,
        0 <= w < PAGE_SIZE,
    ensures
        bytes_of(pages.update(idx, Some(pages[idx]->0.update(w, b)))) == bytes_of(pages).update(
            idx * PAGE_SIZE + w,
            b,
        ),
{
    let np = pages.update(idx, Some(pages[idx]->0.update(w, b)));
    let pos = idx * PAGE_SIZE + w;
    assert(pos / PAGE_SIZE as int == idx && pos % PAGE_SIZE as int == w);
    assert forall|j: int| 0 <= j < pages.len() * PAGE_SIZE implies #[trigger] bytes_of(np)[j]
        == bytes_of(pages).update(pos, b)[j] by {
        assert(0 <= page_of(j) < pages.len());
        if j != pos {
            assert(j / PAGE_SIZE as int != idx || j % PAGE_SIZE as int != w);
        }
    }
    assert(bytes_of(np) =~= bytes_of(pages).update(pos, b));
}

/// Filling vacant slots with zero pages leaves the bytes of the run as
/// they were.
proof fn lemma_bytes_zero_fill(pages: Seq<Option<Seq<u8>>>, filled: Seq<Option<Seq<u8>>>)
    requires
        filled.len() == pages.len(),
        forall|i: int|
            0 <= i < pages.len() ==> #[trigger] filled[i] == pages[i] || (pages[i] is None
                && filled[i] == Some(zeros(PAGE_SIZE as nat))),
    ensures
        bytes_of(filled) == bytes_of(pages),
{
    assert forall|j: int| 0 <= j < pages.len() * PAGE_SIZE implies #[trigger] bytes_of(filled)[j]
        == bytes_of(pages)[j] by {
        assert(0 <= page_of(j) < pages.len());
        assert(0 <= (j % PAGE_SIZE as int) && (j % PAGE_SIZE as int) < PAGE_SIZE);
    }
    assert(bytes_of(filled) =~= bytes_of(pages));
}

/// The addresses of the resident slots among `lo..hi`, in slot order.
pub open spec fn resident_paddrs(paddrs: Seq<Option<usize>>, lo: int, hi: int) -> Seq<usize>
    decreases hi - lo,
{
    if hi <= lo {
        Seq::empty()
    } else {
        resident_paddrs(paddrs, lo, hi - 1) + match paddrs[hi - 1] {
            Some(a) => seq![a],
            None => Seq::empty(),
        }
    }
}

/// An optional window origin moved forward by `delta`.
pub open spec fn shifted_window(w: Option<usize>, delta: usize) -> Option<usize> {
    match w {
        Some(o) => Some(shifted(o, delta)),
        None => None,
    }
}

/// Physical backing for one virtual range, allocated a page at a time as the
/// pages are touched.
pub struct PmAreaLazy<F: File> {
    frames: Vec<Option<Frame>>,
    backend: Option<BackEndFile<F>>,
}

impl<F: File> PmAreaLazy<F> {
    /// The content of each page slot, in page order.
    pub closed spec fn pages(&self) -> Seq<Option<Seq<u8>>> {
        self.frames@.map_values(|f: Option<Frame>| slot_view(f))
    }

    /// The physical address of each page slot, in page order.
    pub closed spec fn paddrs(&self) -> Seq<Option<usize>> {
        self.frames@.map_values(|f: Option<Frame>| slot_paddr(f))
    }

    /// Where the backing-file window starts, if the region has one.
    pub closed spec fn window(&self) -> Option<usize> {
        match self.backend {
            Some(b) => Some(b.spec_origin()),
            None => None,
        }
    }

    /// Size of the region in bytes.
    pub open spec fn spec_size(&self) -> int {
        self.pages().len() * PAGE_SIZE
    }

    /// The region's bytes; a vacant page reads as zeros.
    pub open spec fn contents(&self) -> Seq<u8> {
        bytes_of(self.pages())
    }

    /// Well-formed: at least one slot and not too many, every frame one
    /// page, and a slot has an address exactly when it holds a frame.
    pub open spec fn wf(&self) -> bool {
        &&& pages_wf(self.pages())
        &&& self.pages().len() > 0
        &&& self.paddrs().len() == self.pages().len()
        &&& (forall|i: int|
            #![trigger self.pages()[i]]
            #![trigger self.paddrs()[i]]
            0 <= i < self.pages().len() ==> (self.pages()[i] is Some <==> self.paddrs()[i] is Some))
    }

    proof fn lemma_views(&self)
        ensures
            self.pages().len() == self.frames@.len(),
            self.paddrs().len() == self.frames@.len(),
            forall|i: int|
                0 <= i < self.frames@.len() ==> #[trigger] self.pages()[i] == slot_view(
                    self.frames@[i],
                ) && self.paddrs()[i] == slot_paddr(self.frames@[i]),
    {
    }

    proof fn lemma_wf_frames(&self)
        requires
            self.wf(),
        ensures
            forall|i: int|
                0 <= i < self.frames@.len() && #[trigger] self.frames@[i] is Some
                    ==> self.frames@[i]->0.wf(),
    {
        assert forall|i: int|
            0 <= i < self.frames@.len() && #[trigger] self.frames@[i] is Some implies self.frames@[
                i
            ]->0.wf() by {
            assert(self.pages()[i] is Some);
        }
    }

    /// A region of `page_count` vacant pages with an optional backing window.
    /// Fails with `PmArea_InvalidRange` on zero pages and with
    /// `Memory_RunOutOfMemory` on more than `MAX_PAGE_COUNT`.
    pub fn new(page_count: usize, backend: Option<BackEndFile<F>>) -> (r: OSResult<Self>)
        ensures
            page_count == 0 ==> r == Err::<Self, OSError>(OSError::PmArea_InvalidRange),
            page_count > MAX_PAGE_COUNT ==> r == Err::<Self, OSError>(
                OSError::Memory_RunOutOfMemory,
            ),
            0 < page_count <= MAX_PAGE_COUNT ==> r is Ok,
            r matches Ok(a) ==> {
                &&& a.wf()
                &&& a.pages() == vacant_pages(page_count as nat)
                &&& a.spec_size() == page_count * PAGE_SIZE
                &&& a.window() == match backend {
                    Some(b) => Some(b.spec_origin()),
                    None => None,
                }
            },
    {
        if page_count == 0 {
            return Err(OSError::PmArea_InvalidRange);
        }
        if page_count > MAX_PAGE_COUNT {
            return Err(OSError::Memory_RunOutOfMemory);
        }
        let mut frames: Vec<Option<Frame>> = Vec::with_capacity(page_count);
        let mut i: usize = 0;
        while i < page_count
            invariant
                i <= page_count,
                frames@.len() == i,
                forall|j: int| 0 <= j < i ==> #[trigger] frames@[j] is None,
            decreases page_count - i,
        {
            frames.push(None);
            i += 1;
        }
        let r = PmAreaLazy { frames, backend };
        proof {
            r.lemma_views();
            assert(r.pages() =~= vacant_pages(page_count as nat));
        }
        Ok(r)
    }

    /// A region over the given page slots and backing window.
    pub fn new_from_frames(frames: Vec<Option<Frame>>, backend: Option<BackEndFile<F>>) -> (r:
        Self)
        requires
            0 < frames@.len() <= MAX_PAGE_COUNT,
            forall|i: int|
                0 <= i < frames@.len() && #[trigger] frames@[i] is Some ==> frames@[i]->0.wf(),
        ensures
            r.wf(),
            r.pages() == frames@.map_values(|f: Option<Frame>| slot_view(f)),
            r.paddrs() == frames@.map_values(|f: Option<Frame>| slot_paddr(f)),
            r.window() == match backend {
                Some(b) => Some(b.spec_origin()),
                None => None,
            },
    {
        let r = PmAreaLazy { frames, backend };
        proof {
            r.lemma_views();
        }
        r
    }

    /// Size of the region in bytes.
    pub fn size(&self) -> (r: usize)
        requires
            self.wf(),
        ensures
            r == self.spec_size(),
    {
        proof {
            self.lemma_views();
        }
        self.frames.len() * PAGE_SIZE
    }

    /// A region for a forked address space: the same size, every page vacant,
    /// and an independent handle on the same backing window. Content is not
    /// copied; the fork fills its pages again when they are touched.
    pub fn clone_as_fork(&self) -> (r: OSResult<Self>)
        requires
            self.wf(),
        ensures
            r matches Ok(a) && a.wf() && a.pages() == vacant_pages(self.pages().len())
                && a.window() == self.window(),
    {
        proof {
            self.lemma_views();
        }
        let new_backend = match &self.backend {
            Some(b) => Some(b.clone_as_fork()),
            None => None,
        };
        Self::new(self.frames.len(), new_backend)
    }
    /// The page-fault path. Without `need_alloc` it reports the frame of
    /// slot `idx`, or `None` while the slot is vacant. With `need_alloc` a
    /// vacant slot first gets a frame, filled from the backing window at
    /// `idx * PAGE_SIZE` (zeros where that read fails) or with zeros where
    /// the region has no window; `Memory_RunOutOfMemory` if no frame is left.
    pub fn get_frame(&mut self, idx: usize, need_alloc: bool, alloc: &mut FrameAllocator) -> (r:
        OSResult<Option<usize>>)
        requires
            old(self).wf(),
            idx < old(self).pages().len(),
        ensures
            final(self).wf(),
            final(self).window() == old(self).window(),
            !need_alloc || old(self).pages()[idx as int] is Some ==> {
                &&& r == Ok::<Option<usize>, OSError>(old(self).paddrs()[idx as int])
                &&& *final(self) == *old(self)
                &&& *final(alloc) == *old(alloc)
            },
            need_alloc && old(self).pages()[idx as int] is None && old(alloc).free_pages().len()
                == 0 ==> {
                &&& r == Err::<Option<usize>, OSError>(OSError::Memory_RunOutOfMemory)
                &&& *final(self) == *old(self)
                &&& final(alloc).free_pages() == old(alloc).free_pages()
            },
            need_alloc && old(self).pages()[idx as int] is None && old(alloc).free_pages().len()
                > 0 ==> {
                &&& r == Ok::<Option<usize>, OSError>(Some(old(alloc).free_pages().last()))
                &&& final(alloc).free_pages() == old(alloc).free_pages().drop_last()
                &&& final(self).paddrs() == old(self).paddrs().update(
                    idx as int,
                    Some(old(alloc).free_pages().last()),
                )
                &&& final(self).pages()[idx as int] is Some
                &&& final(self).pages() == old(self).pages().update(
                    idx as int,
                    final(self).pages()[idx as int],
                )
                &&& old(self).window() is None ==> final(self).pages()[idx as int] == Some(
                    zeros(PAGE_SIZE as nat),
                )
            },
    {
        proof {
            self.lemma_views();
            self.lemma_wf_frames();
        }
        if need_alloc && self.frames[idx].is_none() {
            match alloc.allocate() {
                None => {
                    return Err(OSError::Memory_RunOutOfMemory);
                },
                Some(mut frame) => {
                    match &self.backend {
                        Some(backend) => {
                            let read = backend.read_from_offset(
                                idx * PAGE_SIZE,
                                frame.as_slice_mut(),
                            );
                            frame.settle_read(read);
                        },
                        None => {
                            frame.zero();
                        },
                    }
                    self.frames.set(idx, Some(frame));
                    proof {
                        self.lemma_views();
                        assert(self.pages() =~= old(self).pages().update(
                            idx as int,
                            self.pages()[idx as int],
                        ));
                        assert(self.paddrs() =~= old(self).paddrs().update(
                            idx as int,
                            Some(old(alloc).free_pages().last()),
                        ));
                    }
                },
            }
        }
        match &self.frames[idx] {
            Some(f) => Ok(Some(f.start_paddr())),
            None => Ok(None),
        }
    }

    /// Where in the backing window the frame of slot `idx` is written back:
    /// `idx * PAGE_SIZE`, or `None` where the region has no window or the
    /// slot holds no frame.
    pub fn writeback_pos(&self, idx: usize) -> (r: Option<usize>)
        requires
            self.wf(),
        ensures
            r == if idx < self.pages().len() && self.window() is Some && self.pages()[idx as int] is Some {
                Some((idx * PAGE_SIZE) as usize)
            } else {
                None::<usize>
            },
    {
        proof {
            self.lemma_views();
        }
        if idx < self.frames.len() && self.backend.is_some() && self.frames[idx].is_some() {
            Some(idx * PAGE_SIZE)
        } else {
            None
        }
    }

    /// Writes the frame of slot `idx` back to the backing window, at
    /// `writeback_pos(idx)`. A region
    /// without a window, or a vacant slot, has nothing to write; a write that
    /// the file refuses is dropped, as the page stays usable either way.
    pub fn sync_frame_with_file(&mut self, idx: usize) -> (r: OSResult<()>)
        requires
            old(self).wf(),
            idx < old(self).pages().len(),
        ensures
            r is Ok,
            *final(self) == *old(self),
    {
        proof {
            self.lemma_views();
        }
        if let Some(pos) = self.writeback_pos(idx) {
            if let (Some(backend), Some(frame)) = (&self.backend, &self.frames[idx]) {
                let _ = backend.write_to_offset(pos, frame.as_slice());
            }
        }
        Ok(())
    }

    /// Writes the frame of slot `idx` back to the backing window, best
    /// effort, at `writeback_pos(idx)`, and returns it to the allocator; the
    /// slot becomes vacant.
    /// Fails with `PmAreaLazy_ReleaseNotAllocatedPage` on a vacant slot or an
    /// index past the end.
    pub fn release_frame(&mut self, idx: usize, alloc: &mut FrameAllocator) -> (r: OSResult<()>)
        requires
            old(self).wf(),
        ensures
            final(self).wf(),
            final(self).window() == old(self).window(),
            !releasable(old(self).pages(), idx as int) ==> {
                &&& r == Err::<(), OSError>(OSError::PmAreaLazy_ReleaseNotAllocatedPage)
                &&& final(self).pages() == old(self).pages()
                &&& final(self).paddrs() == old(self).paddrs()
                &&& *final(alloc) == *old(alloc)
            },
            releasable(old(self).pages(), idx as int) ==> {
                &&& r is Ok
                &&& final(self).pages() == old(self).pages().update(idx as int, None)
                &&& final(self).paddrs() == old(self).paddrs().update(idx as int, None)
                &&& final(alloc).free_pages() == old(alloc).free_pages().push(
                    old(self).paddrs()[idx as int]->0,
                )
            },
    {
        proof {
            self.lemma_views();
        }
        if idx >= self.frames.len() {
            return Err(OSError::PmAreaLazy_ReleaseNotAllocatedPage);
        }
        let pos = self.writeback_pos(idx);
        let mut slot: Option<Frame> = None;
        core::mem::swap(&mut slot, &mut self.frames[idx]);
        match slot {
            None => {
                proof {
                    self.lemma_views();
                    assert(self.frames@ =~= old(self).frames@);
                    assert(self.pages() =~= old(self).pages());
                    assert(self.paddrs() =~= old(self).paddrs());
                }
                Err(OSError::PmAreaLazy_ReleaseNotAllocatedPage)
            },
            Some(frame) => {
                if let (Some(backend), Some(at)) = (&self.backend, pos) {
                    let _ = backend.write_to_offset(at, frame.as_slice());
                }
                alloc.deallocate(frame);
                proof {
                    self.lemma_views();
                    assert(self.pages() =~= old(self).pages().update(idx as int, None));
                    assert(self.paddrs() =~= old(self).paddrs().update(idx as int, None));
                }
                Ok(())
            },
        }
    }
    /// Checks the span `[offset, offset + len)` against the region and gives
    /// every vacant page that it touches a zero frame, so that a bulk copy can
    /// follow. Pages that are only touched here are never read from the
    /// backing window. Fails with `PmArea_OutOfRange` when the span does not
    /// fit and with `Memory_RunOutOfMemory` when the allocator has fewer
    /// frames than the span has vacant pages; either failure changes nothing.
    fn make_span_resident(&mut self, offset: usize, len: usize, alloc: &mut FrameAllocator) -> (r:
        OSResult<usize>)
        requires
            old(self).wf(),
        ensures
            final(self).wf(),
            final(self).window() == old(self).window(),
            final(self).pages().len() == old(self).pages().len(),
            out_of_range(offset as int, len as int, old(self).spec_size()) ==> r == Err::<
                usize,
                OSError,
            >(OSError::PmArea_OutOfRange),
            !out_of_range(offset as int, len as int, old(self).spec_size()) && old(
                alloc,
            ).free_pages().len() < vacant_count(
                old(self).pages(),
                page_of(offset as int),
                span_end(offset as int, len as int),
            ) ==> r == Err::<usize, OSError>(OSError::Memory_RunOutOfMemory),
            !out_of_range(offset as int, len as int, old(self).spec_size()) && old(
                alloc,
            ).free_pages().len() >= vacant_count(
                old(self).pages(),
                page_of(offset as int),
                span_end(offset as int, len as int),
            ) ==> r == Ok::<usize, OSError>(len),
            r is Err ==> {
                &&& final(self).pages() == old(self).pages()
                &&& final(self).paddrs() == old(self).paddrs()
                &&& final(alloc).free_pages() == old(alloc).free_pages()
            },
            r is Ok ==> final(alloc).free_pages() == old(alloc).free_pages().take(
                old(alloc).free_pages().len() - vacant_count(
                    old(self).pages(),
                    page_of(offset as int),
                    span_end(offset as int, len as int),
                ),
            ),
            r is Ok ==> {
                &&& span_end(offset as int, len as int) <= final(self).pages().len()
                &&& final(self).contents() == old(self).contents()
                &&& (forall|i: int|
                    page_of(offset as int) <= i < span_end(offset as int, len as int)
                        ==> #[trigger] final(self).pages()[i] is Some)
                &&& (forall|i: int|
                    0 <= i < old(self).pages().len() && old(self).pages()[i] is Some
                        ==> #[trigger] final(self).pages()[i] == old(self).pages()[i])
                &&& (forall|i: int|
                    0 <= i < old(self).pages().len() && old(self).pages()[i] is Some
                        ==> #[trigger] final(self).paddrs()[i] == old(self).paddrs()[i])
                &&& (forall|i: int|
                    0 <= i < old(self).pages().len() && !(page_of(offset as int) <= i < span_end(
                        offset as int,
                        len as int,
                    )) ==> #[trigger] final(self).pages()[i] == old(self).pages()[i])
                &&& (forall|i: int|
                    0 <= i < old(self).pages().len() && !(page_of(offset as int) <= i < span_end(
                        offset as int,
                        len as int,
                    )) ==> #[trigger] final(self).paddrs()[i] == old(self).paddrs()[i])
            },
    {
        proof {
            self.lemma_views();
        }
        let size = self.size();
        if offset >= size || len > size - offset {
            return Err(OSError::PmArea_OutOfRange);
        }
        let first = offset / PAGE_SIZE;
        let end = if len == 0 {
            first
        } else {
            (offset + len - 1) / PAGE_SIZE + 1
        };
        assert(end <= self.frames@.len());
        let ghost old_pages = self.pages();
        let ghost old_paddrs = self.paddrs();
        let mut count: usize = 0;
        let mut k: usize = first;
        while k < end
            invariant
                first <= k <= end <= self.frames@.len(),
                old_pages == self.pages(),
                self.pages().len() == self.frames@.len(),
                forall|i: int|
                    0 <= i < self.frames@.len() ==> #[trigger] self.pages()[i] == slot_view(
                        self.frames@[i],
                    ),
                count == vacant_count(old_pages, first as int, k as int),
                count <= k - first,
            decreases end - k,
        {
            if self.frames[k].is_none() {
                count += 1;
            }
            k += 1;
        }
        if alloc.available() < count {
            return Err(OSError::Memory_RunOutOfMemory);
        }
        let ghost free0 = alloc.free_pages().len();
        let ghost free_seq = alloc.free_pages();
        proof {
            assert(free_seq.take(free0 as int) =~= free_seq);
        }
        k = first;
        while k < end
            invariant
                first <= k <= end <= self.frames@.len(),
                old_pages.len() == self.frames@.len(),
                old_paddrs.len() == self.frames@.len(),
                self.wf(),
                self.window() == old(self).window(),
                forall|i: int|
                    0 <= i < self.frames@.len() ==> #[trigger] self.pages()[i] == slot_view(
                        self.frames@[i],
                    ) && self.paddrs()[i] == slot_paddr(self.frames@[i]),
                forall|i: int|
                    0 <= i < self.frames@.len() ==> #[trigger] self.pages()[i] == if first <= i
                        < k && old_pages[i] is None {
                        Some(zeros(PAGE_SIZE as nat))
                    } else {
                        old_pages[i]
                    },
                forall|i: int|
                    0 <= i < self.frames@.len() && !(first <= i < k && old_pages[i] is None)
                        ==> #[trigger] self.paddrs()[i] == old_paddrs[i],
                vacant_count(old_pages, first as int, end as int) <= free0,
                free0 == free_seq.len(),
                alloc.free_pages() == free_seq.take(
                    free0 - vacant_count(old_pages, first as int, k as int),
                ),
            decreases end - k,
        {
            if self.frames[k].is_none() {
                proof {
                    assert(self.pages()[k as int] is None);
                    assert(old_pages[k as int] is None);
                    assert(vacant_count(old_pages, first as int, k + 1) == vacant_count(
                        old_pages,
                        first as int,
                        k as int,
                    ) + 1);
                    lemma_vacant_count_mono(old_pages, first as int, k + 1, end as int);
                }
                let ghost before = self.pages();
                let ghost before_paddrs = self.paddrs();
                let mut frame = alloc.allocate().unwrap();
                proof {
                    assert(alloc.free_pages() =~= free_seq.take(
                        free0 - vacant_count(old_pages, first as int, k + 1),
                    ));
                }
                frame.zero();
                self.frames.set(k, Some(frame));
                proof {
                    self.lemma_views();
                    assert(self.pages() =~= before.update(
                        k as int,
                        Some(zeros(PAGE_SIZE as nat)),
                    ));
                    assert(self.paddrs() =~= before_paddrs.update(
                        k as int,
                        self.paddrs()[k as int],
                    ));
                    assert forall|i: int|
                        0 <= i < self.pages().len() && #[trigger] self.pages()[i] is Some implies self.pages()[i]->0.len()
                            == PAGE_SIZE by {
                        if i != k {
                            assert(self.pages()[i] == before[i]);
                        }
                    }
                }
            } else {
                proof {
                    assert(old_pages[k as int] is Some);
                }
            }
            k += 1;
        }
        proof {
            self.lemma_views();
            lemma_bytes_zero_fill(old_pages, self.pages());
        }
        Ok(len)
    }

    /// Copies `src` into the region from byte `offset` on, across as many
    /// page boundaries as the span crosses. Vacant pages in the span get
    /// zero frames first. Returns the number of bytes written.
    pub fn write(&mut self, offset: usize, src: &[u8], alloc: &mut FrameAllocator) -> (r:
        OSResult<usize>)
        requires
            old(self).wf(),
        ensures
            final(self).wf(),
            final(self).window() == old(self).window(),
            final(self).pages().len() == old(self).pages().len(),
            out_of_range(offset as int, src@.len() as int, old(self).spec_size()) ==> r == Err::<
                usize,
                OSError,
            >(OSError::PmArea_OutOfRange),
            !out_of_range(offset as int, src@.len() as int, old(self).spec_size()) && old(
                alloc,
            ).free_pages().len() < vacant_count(
                old(self).pages(),
                page_of(offset as int),
                span_end(offset as int, src@.len() as int),
            ) ==> r == Err::<usize, OSError>(OSError::Memory_RunOutOfMemory),
            !out_of_range(offset as int, src@.len() as int, old(self).spec_size()) && old(
                alloc,
            ).free_pages().len() >= vacant_count(
                old(self).pages(),
                page_of(offset as int),
                span_end(offset as int, src@.len() as int),
            ) ==> r == Ok::<usize, OSError>(src@.len() as usize),
            r is Err ==> {
                &&& final(self).pages() == old(self).pages()
                &&& final(self).paddrs() == old(self).paddrs()
                &&& final(alloc).free_pages() == old(alloc).free_pages()
            },
            r is Ok ==> final(alloc).free_pages() == old(alloc).free_pages().take(
                old(alloc).free_pages().len() - vacant_count(
                    old(self).pages(),
                    page_of(offset as int),
                    span_end(offset as int, src@.len() as int),
                ),
            ),
            r is Ok ==> final(self).contents() == splice(old(self).contents(), offset as int, src@),
            r is Ok ==> forall|i: int|
                page_of(offset as int) <= i < span_end(offset as int, src@.len() as int)
                    ==> #[trigger] final(self).pages()[i] is Some,
            r is Ok ==> forall|i: int|
                0 <= i < old(self).pages().len() && !(page_of(offset as int) <= i < span_end(
                    offset as int,
                    src@.len() as int,
                )) ==> #[trigger] final(self).pages()[i] == old(self).pages()[i],
            r is Ok ==> forall|i: int|
                0 <= i < old(self).pages().len() && !(page_of(offset as int) <= i < span_end(
                    offset as int,
                    src@.len() as int,
                )) ==> #[trigger] final(self).paddrs()[i] == old(self).paddrs()[i],
    {
        let len = src.len();
        let res = self.make_span_resident(offset, len, alloc);
        if res.is_err() {
            return res;
        }
        let ghost mid_pages = self.pages();
        let ghost mid_paddrs = self.paddrs();
        let ghost c0 = self.contents();
        proof {
            self.lemma_views();
        }
        let mut i: usize = 0;
        while i < len
            invariant
                i <= len == src@.len(),
                offset + len <= self.spec_size(),
                span_end(offset as int, len as int) <= self.frames@.len(),
                self.wf(),
                self.window() == old(self).window(),
                mid_pages.len() == self.frames@.len(),
                self.pages().len() == self.frames@.len(),
                self.paddrs() == mid_paddrs,
                forall|k: int|
                    0 <= k < self.frames@.len() ==> #[trigger] self.pages()[k] == slot_view(
                        self.frames@[k],
                    ),
                forall|k: int|
                    page_of(offset as int) <= k < span_end(offset as int, len as int)
                        ==> #[trigger] self.pages()[k] is Some,
                forall|k: int|
                    0 <= k < self.frames@.len() && !(page_of(offset as int) <= k < span_end(
                        offset as int,
                        len as int,
                    )) ==> #[trigger] self.pages()[k] == mid_pages[k],
                c0.len() == self.spec_size(),
                self.contents().len() == self.spec_size(),
                forall|j: int|
                    0 <= j < self.spec_size() ==> #[trigger] self.contents()[j] == if offset <= j
                        < offset + i {
                        src@[j - offset]
                    } else {
                        c0[j]
                    },
            decreases len - i,
        {
            let pos = offset + i;
            let idx = pos / PAGE_SIZE;
            let w = pos % PAGE_SIZE;
            assert(page_of(offset as int) <= idx < span_end(offset as int, len as int));
            let ghost before = self.pages();
            let mut slot: Option<Frame> = None;
            core::mem::swap(&mut slot, &mut self.frames[idx]);
            let mut frame = slot.unwrap();
            proof {
                assert(before[idx as int] is Some);
                assert(frame.wf());
            }
            frame.set(w, src[i]);
            self.frames.set(idx, Some(frame));
            proof {
                self.lemma_views();
                assert(self.pages() =~= before.update(
                    idx as int,
                    Some(before[idx as int]->0.update(w as int, src@[i as int])),
                ));
                assert(self.paddrs() =~= mid_paddrs);
                lemma_bytes_set(before, idx as int, w as int, src@[i as int]);
                assert(idx * PAGE_SIZE + w == pos);
            }
            i += 1;
        }
        proof {
            assert(self.contents() =~= splice(c0, offset as int, src@));
            assert forall|k: int|
                page_of(offset as int) <= k < span_end(offset as int, src@.len() as int) implies #[trigger] self.pages()[k] is Some by {
            }
            assert forall|k: int|
                0 <= k < old(self).pages().len() && !(page_of(offset as int) <= k < span_end(
                    offset as int,
                    src@.len() as int,
                )) implies #[trigger] self.pages()[k] == old(self).pages()[k] by {
                assert(self.pages()[k] == mid_pages[k]);
                assert(mid_pages[k] == old(self).pages()[k]);
            }
            assert forall|k: int|
                0 <= k < old(self).pages().len() && !(page_of(offset as int) <= k < span_end(
                    offset as int,
                    src@.len() as int,
                )) implies #[trigger] self.paddrs()[k] == old(self).paddrs()[k] by {
                assert(mid_paddrs[k] == old(self).paddrs()[k]);
            }
        }
        Ok(len)
    }

    /// Copies `dst.len()` bytes of the region from byte `offset` on into
    /// `dst`, across as many page boundaries as the span crosses. Vacant pages
    /// in the span get zero frames first, so they read as zeros. Returns the
    /// number of bytes read.
    pub fn read(&mut self, offset: usize, dst: &mut [u8], alloc: &mut FrameAllocator) -> (r:
        OSResult<usize>)
        requires
            old(self).wf(),
        ensures
            final(self).wf(),
            final(self).window() == old(self).window(),
            final(self).pages().len() == old(self).pages().len(),
            final(self).contents() == old(self).contents(),
            final(dst)@.len() == old(dst)@.len(),
            out_of_range(offset as int, old(dst)@.len() as int, old(self).spec_size()) ==> r
                == Err::<usize, OSError>(OSError::PmArea_OutOfRange),
            !out_of_range(offset as int, old(dst)@.len() as int, old(self).spec_size()) && old(
                alloc,
            ).free_pages().len() < vacant_count(
                old(self).pages(),
                page_of(offset as int),
                span_end(offset as int, old(dst)@.len() as int),
            ) ==> r == Err::<usize, OSError>(OSError::Memory_RunOutOfMemory),
            !out_of_range(offset as int, old(dst)@.len() as int, old(self).spec_size()) && old(
                alloc,
            ).free_pages().len() >= vacant_count(
                old(self).pages(),
                page_of(offset as int),
                span_end(offset as int, old(dst)@.len() as int),
            ) ==> r == Ok::<usize, OSError>(old(dst)@.len() as usize),
            r is Err ==> {
                &&& final(self).pages() == old(self).pages()
                &&& final(self).paddrs() == old(self).paddrs()
                &&& final(alloc).free_pages() == old(alloc).free_pages()
                &&& final(dst)@ == old(dst)@
            },
            r is Ok ==> final(alloc).free_pages() == old(alloc).free_pages().take(
                old(alloc).free_pages().len() - vacant_count(
                    old(self).pages(),
                    page_of(offset as int),
                    span_end(offset as int, old(dst)@.len() as int),
                ),
            ),
            r is Ok ==> (forall|i: int|
                0 <= i < old(self).pages().len() && !(page_of(offset as int) <= i < span_end(
                    offset as int,
                    old(dst)@.len() as int,
                )) ==> #[trigger] final(self).pages()[i] == old(self).pages()[i]),
            r is Ok ==> (forall|i: int|
                0 <= i < old(self).pages().len() && !(page_of(offset as int) <= i < span_end(
                    offset as int,
                    old(dst)@.len() as int,
                )) ==> #[trigger] final(self).paddrs()[i] == old(self).paddrs()[i]),
            r is Ok ==> {
                &&& final(dst)@ == old(self).contents().subrange(
                    offset as int,
                    offset + old(dst)@.len(),
                )
                &&& (forall|i: int|
                    page_of(offset as int) <= i < span_end(offset as int, old(dst)@.len() as int)
                        ==> #[trigger] final(self).pages()[i] is Some)
                &&& (forall|i: int|
                    0 <= i < old(self).pages().len() && old(self).pages()[i] is Some
                        ==> #[trigger] final(self).pages()[i] == old(self).pages()[i])
                &&& (forall|i: int|
                    0 <= i < old(self).pages().len() && old(self).pages()[i] is Some
                        ==> #[trigger] final(self).paddrs()[i] == old(self).paddrs()[i])
            },
    {
        let len = dst.len();
        let res = self.make_span_resident(offset, len, alloc);
        if res.is_err() {
            return res;
        }
        proof {
            self.lemma_views();
        }
        let ghost c0 = self.contents();
        let ghost mid_pages = self.pages();
        let ghost mid_paddrs = self.paddrs();
        let mut i: usize = 0;
        while i < len
            invariant
                i <= len == dst@.len(),
                offset + len <= self.spec_size(),
                span_end(offset as int, len as int) <= self.frames@.len(),
                self.wf(),
                self.contents() == c0,
                self.pages() == mid_pages,
                self.paddrs() == mid_paddrs,
                c0.len() == self.spec_size(),
                self.pages().len() == self.frames@.len(),
                forall|k: int|
                    0 <= k < self.frames@.len() ==> #[trigger] self.pages()[k] == slot_view(
                        self.frames@[k],
                    ),
                forall|k: int|
                    page_of(offset as int) <= k < span_end(offset as int, len as int)
                        ==> #[trigger] self.pages()[k] is Some,
                forall|j: int| 0 <= j < i ==> #[trigger] dst@[j] == c0[offset + j],
            decreases len - i,
        {
            let pos = offset + i;
            let idx = pos / PAGE_SIZE;
            let w = pos % PAGE_SIZE;
            assert(page_of(offset as int) <= idx < span_end(offset as int, len as int));
            let b = match &self.frames[idx] {
                Some(f) => f.get(w),
                None => 0u8,
            };
            proof {
                assert(self.pages()[idx as int] is Some);
                assert(c0[pos as int] == byte_at(self.pages(), pos as int));
            }
            dst[i] = b;
            i += 1;
        }
        proof {
            assert(dst@ =~= c0.subrange(offset as int, offset + len));
            assert forall|k: int|
                page_of(offset as int) <= k < span_end(offset as int, len as int) implies #[trigger] self.pages()[k] is Some by {
            }
            assert forall|k: int|
                0 <= k < old(self).pages().len() && old(self).pages()[k] is Some implies #[trigger] self.pages()[k] == old(self).pages()[k] by {
                assert(mid_pages[k] == old(self).pages()[k]);
            }
            assert forall|k: int|
                0 <= k < old(self).pages().len() && old(self).pages()[k] is Some implies #[trigger] self.paddrs()[k] == old(self).paddrs()[k] by {
                assert(mid_paddrs[k] == old(self).paddrs()[k]);
            }
        }
        Ok(len)
    }
    proof fn lemma_slots(&self)
        ensures
            self.pages().len() == self.paddrs().len(),
            forall|i: int|
                0 <= i < self.frames@.len() ==> (#[trigger] self.pages()[i] is Some <==> self.paddrs()[i] is Some),
    {
        self.lemma_views();
        assert forall|i: int|
            0 <= i < self.frames@.len() implies (#[trigger] self.pages()[i] is Some <==> self.paddrs()[i] is Some) by {
            assert(self.pages()[i] == slot_view(self.frames@[i]));
            assert(self.paddrs()[i] == slot_paddr(self.frames@[i]));
        }
    }

    /// Releases every resident slot among `lo..hi`: each frame is written
    /// back to the window, best effort, and returned to the allocator.
    fn release_range(&mut self, lo: usize, hi: usize, alloc: &mut FrameAllocator)
        requires
            old(self).wf(),
            lo <= hi <= old(self).pages().len(),
        ensures
            final(self).wf(),
            final(self).window() == old(self).window(),
            final(self).pages().len() == old(self).pages().len(),
            forall|i: int|
                0 <= i < old(self).pages().len() ==> #[trigger] final(self).pages()[i] == if lo <= i
                    < hi {
                    None
                } else {
                    old(self).pages()[i]
                },
            forall|i: int|
                0 <= i < old(self).pages().len() ==> #[trigger] final(self).paddrs()[i] == if lo
                    <= i < hi {
                    None
                } else {
                    old(self).paddrs()[i]
                },
            final(alloc).free_pages() == old(alloc).free_pages() + resident_paddrs(
                old(self).paddrs(),
                lo as int,
                hi as int,
            ),
    {
        proof {
            self.lemma_slots();
        }
        let mut idx: usize = lo;
        while idx < hi
            invariant
                lo <= idx <= hi <= self.pages().len(),
                self.wf(),
                self.window() == old(self).window(),
                self.pages().len() == old(self).pages().len(),
                old(self).paddrs().len() == old(self).pages().len(),
                forall|i: int|
                    0 <= i < old(self).pages().len() ==> (#[trigger] old(self).pages()[i] is Some
                        <==> old(self).paddrs()[i] is Some),
                forall|i: int|
                    0 <= i < old(self).pages().len() ==> #[trigger] self.pages()[i] == if lo <= i
                        < idx {
                        None
                    } else {
                        old(self).pages()[i]
                    },
                forall|i: int|
                    0 <= i < old(self).pages().len() ==> #[trigger] self.paddrs()[i] == if lo <= i
                        < idx {
                        None
                    } else {
                        old(self).paddrs()[i]
                    },
                alloc.free_pages() == old(alloc).free_pages() + resident_paddrs(
                    old(self).paddrs(),
                    lo as int,
                    idx as int,
                ),
            decreases hi - idx,
        {
            let ghost before = self.pages();
            let ghost before_paddrs = self.paddrs();
            let _ = self.release_frame(idx, alloc);
            proof {
                assert(before[idx as int] == old(self).pages()[idx as int]);
                assert(before_paddrs[idx as int] == old(self).paddrs()[idx as int]);
                assert(resident_paddrs(old(self).paddrs(), lo as int, idx + 1)
                    == resident_paddrs(old(self).paddrs(), lo as int, idx as int) + match old(
                    self,
                ).paddrs()[idx as int] {
                    Some(a) => seq![a],
                    None => Seq::<usize>::empty(),
                });
                if before[idx as int] is Some {
                    assert(alloc.free_pages() =~= old(alloc).free_pages() + resident_paddrs(
                        old(self).paddrs(),
                        lo as int,
                        idx + 1,
                    ));
                } else {
                    assert(resident_paddrs(old(self).paddrs(), lo as int, idx + 1)
                        =~= resident_paddrs(old(self).paddrs(), lo as int, idx as int));
                }
            }
            idx += 1;
        }
    }

    /// Discards the pages before the one that holds byte `new_start`,
    /// releasing their frames, and moves the backing window forward by
    /// `new_start` bytes. Fails with `PmArea_ShrinkFailed` unless
    /// `new_start` lies inside the region.
    pub fn shrink_left(&mut self, new_start: usize, alloc: &mut FrameAllocator) -> (r: OSResult<
        (),
    >)
        requires
            old(self).wf(),
        ensures
            final(self).wf(),
            new_start >= old(self).spec_size() ==> {
                &&& r == Err::<(), OSError>(OSError::PmArea_ShrinkFailed)
                &&& final(self).pages() == old(self).pages()
                &&& final(self).paddrs() == old(self).paddrs()
                &&& final(self).window() == old(self).window()
                &&& final(alloc).free_pages() == old(alloc).free_pages()
            },
            new_start < old(self).spec_size() ==> {
                &&& r is Ok
                &&& final(self).pages() == old(self).pages().skip(page_of(new_start as int))
                &&& final(self).paddrs() == old(self).paddrs().skip(page_of(new_start as int))
                &&& final(self).window() == shifted_window(old(self).window(), new_start)
                &&& final(alloc).free_pages() == old(alloc).free_pages() + resident_paddrs(
                    old(self).paddrs(),
                    0,
                    page_of(new_start as int),
                )
            },
    {
        proof {
            self.lemma_views();
        }
        if new_start >= self.size() {
            return Err(OSError::PmArea_ShrinkFailed);
        }
        let cut = new_start / PAGE_SIZE;
        self.release_range(0, cut, alloc);
        let ghost mid_pages = self.pages();
        let ghost mid_paddrs = self.paddrs();
        proof {
            self.lemma_views();
        }
        let rest = self.frames.split_off(cut);
        self.frames = rest;
        if let Some(backend) = &mut self.backend {
            backend.modify_offset(new_start);
        }
        proof {
            self.lemma_views();
            assert(self.pages() =~= old(self).pages().skip(cut as int)) by {
                assert forall|i: int| 0 <= i < self.pages().len() implies self.pages()[i]
                    == old(self).pages().skip(cut as int)[i] by {
                    assert(mid_pages[i + cut] == old(self).pages()[i + cut]);
                }
            }
            assert(self.paddrs() =~= old(self).paddrs().skip(cut as int)) by {
                assert forall|i: int| 0 <= i < self.paddrs().len() implies self.paddrs()[i]
                    == old(self).paddrs().skip(cut as int)[i] by {
                    assert(mid_paddrs[i + cut] == old(self).paddrs()[i + cut]);
                }
            }
        }
        Ok(())
    }

    /// Discards the pages from the one that holds byte `new_end` on,
    /// releasing their frames. Fails with `PmArea_ShrinkFailed` unless
    /// `new_end` lies inside the region past its first page, so that at least
    /// one page stays.
    pub fn shrink_right(&mut self, new_end: usize, alloc: &mut FrameAllocator) -> (r: OSResult<
        (),
    >)
        requires
            old(self).wf(),
        ensures
            final(self).wf(),
            final(self).window() == old(self).window(),
            page_of(new_end as int) == 0 || new_end >= old(self).spec_size() ==> {
                &&& r == Err::<(), OSError>(OSError::PmArea_ShrinkFailed)
                &&& final(self).pages() == old(self).pages()
                &&& final(self).paddrs() == old(self).paddrs()
                &&& final(alloc).free_pages() == old(alloc).free_pages()
            },
            0 < page_of(new_end as int) && new_end < old(self).spec_size() ==> {
                &&& r is Ok
                &&& final(self).pages() == old(self).pages().take(page_of(new_end as int))
                &&& final(self).paddrs() == old(self).paddrs().take(page_of(new_end as int))
                &&& final(alloc).free_pages() == old(alloc).free_pages() + resident_paddrs(
                    old(self).paddrs(),
                    page_of(new_end as int),
                    old(self).pages().len() as int,
                )
            },
    {
        proof {
            self.lemma_views();
        }
        if new_end < PAGE_SIZE || new_end >= self.size() {
            return Err(OSError::PmArea_ShrinkFailed);
        }
        let cut = new_end / PAGE_SIZE;
        let len = self.frames.len();
        self.release_range(cut, len, alloc);
        let ghost mid_pages = self.pages();
        let ghost mid_paddrs = self.paddrs();
        proof {
            self.lemma_views();
        }
        self.frames.truncate(cut);
        proof {
            self.lemma_views();
            assert(self.pages() =~= old(self).pages().take(cut as int)) by {
                assert forall|i: int| 0 <= i < self.pages().len() implies self.pages()[i]
                    == old(self).pages().take(cut as int)[i] by {
                    assert(mid_pages[i] == old(self).pages()[i]);
                }
            }
            assert(self.paddrs() =~= old(self).paddrs().take(cut as int)) by {
                assert forall|i: int| 0 <= i < self.paddrs().len() implies self.paddrs()[i]
                    == old(self).paddrs().take(cut as int)[i] by {
                    assert(mid_paddrs[i] == old(self).paddrs()[i]);
                }
            }
        }
        Ok(())
    }

    /// Splits the region in two. This region keeps the pages before the one
    /// that holds byte `left_end`; the returned region owns the pages from
    /// the one that holds byte `right_start` on, numbered from zero, with a
    /// window that starts `right_start` bytes further into the file. The
    /// pages in between are released. Fails with `PmArea_SplitFailed` unless
    /// `left_end <= right_start`, `right_start` lies inside the region, and
    /// `left_end` lies past the first page, so that both parts keep a page.
    pub fn split(&mut self, left_end: usize, right_start: usize, alloc: &mut FrameAllocator) -> (r:
        OSResult<Self>)
        requires
            old(self).wf(),
        ensures
            final(self).wf(),
            final(self).window() == old(self).window(),
            !(0 < page_of(left_end as int) && left_end <= right_start && right_start < old(
                self,
            ).spec_size()) ==> {
                &&& r is Err
                &&& r->Err_0 == OSError::PmArea_SplitFailed
                &&& final(self).pages() == old(self).pages()
                &&& final(self).paddrs() == old(self).paddrs()
                &&& final(alloc).free_pages() == old(alloc).free_pages()
            },
            0 < page_of(left_end as int) && left_end <= right_start && right_start < old(
                self,
            ).spec_size() ==> {
                &&& r is Ok
                &&& final(self).pages() == old(self).pages().take(page_of(left_end as int))
                &&& final(self).paddrs() == old(self).paddrs().take(page_of(left_end as int))
                &&& r->Ok_0.wf()
                &&& r->Ok_0.pages() == old(self).pages().skip(page_of(right_start as int))
                &&& r->Ok_0.paddrs() == old(self).paddrs().skip(page_of(right_start as int))
                &&& r->Ok_0.window() == shifted_window(old(self).window(), right_start)
                &&& final(alloc).free_pages() == old(alloc).free_pages() + resident_paddrs(
                    old(self).paddrs(),
                    page_of(left_end as int),
                    page_of(right_start as int),
                )
            },
    {
        proof {
            self.lemma_views();
        }
        if !(PAGE_SIZE <= left_end && left_end <= right_start && right_start < self.size()) {
            return Err(OSError::PmArea_SplitFailed);
        }
        let left = left_end / PAGE_SIZE;
        let right = right_start / PAGE_SIZE;
        self.release_range(left, right, alloc);
        let ghost mid_pages = self.pages();
        let ghost mid_paddrs = self.paddrs();
        proof {
            self.lemma_views();
            self.lemma_wf_frames();
        }
        let ghost mid_frames = self.frames@;
        let new_frames = self.frames.split_off(right);
        self.frames.truncate(left);
        let new_backend = match &self.backend {
            Some(b) => Some(b.split(right_start)),
            None => None,
        };
        proof {
            assert forall|i: int|
                0 <= i < new_frames@.len() && #[trigger] new_frames@[i] is Some implies new_frames@[
                    i
                ]->0.wf() by {
                assert(new_frames@[i] == mid_frames[i + right]);
            }
        }
        let other = Self::new_from_frames(new_frames, new_backend);
        proof {
            self.lemma_views();
            assert(self.pages() =~= old(self).pages().take(left as int)) by {
                assert forall|i: int| 0 <= i < self.pages().len() implies self.pages()[i]
                    == old(self).pages().take(left as int)[i] by {
                    assert(mid_pages[i] == old(self).pages()[i]);
                }
            }
            assert(self.paddrs() =~= old(self).paddrs().take(left as int)) by {
                assert forall|i: int| 0 <= i < self.paddrs().len() implies self.paddrs()[i]
                    == old(self).paddrs().take(left as int)[i] by {
                    assert(mid_paddrs[i] == old(self).paddrs()[i]);
                }
            }
            assert(other.pages() =~= old(self).pages().skip(right as int)) by {
                assert forall|i: int| 0 <= i < other.pages().len() implies other.pages()[i]
                    == old(self).pages().skip(right as int)[i] by {
                    assert(mid_pages[i + right] == old(self).pages()[i + right]);
                }
            }
            assert(other.paddrs() =~= old(self).paddrs().skip(right as int)) by {
                assert forall|i: int| 0 <= i < other.paddrs().len() implies other.paddrs()[i]
                    == old(self).paddrs().skip(right as int)[i] by {
                    assert(mid_paddrs[i + right] == old(self).paddrs()[i + right]);
                }
            }
        }
        Ok(other)
    }
}


/// A freshly made region of `n` pages has `n * PAGE_SIZE` bytes, every slot
/// vacant, and reads as zeros throughout.
pub proof fn lemma_fresh_region(n: nat)
    ensures
        vacant_pages(n).len() * PAGE_SIZE == n * PAGE_SIZE,
        forall|i: int| 0 <= i < n ==> !releasable(vacant_pages(n), i),
        bytes_of(vacant_pages(n)) == zeros(n * PAGE_SIZE as nat),
{
    assert forall|j: int| 0 <= j < n * PAGE_SIZE implies #[trigger] bytes_of(vacant_pages(n))[j]
        == 0u8 by {
        assert(0 <= page_of(j) && page_of(j) < n);
    }
    assert(bytes_of(vacant_pages(n)) =~= zeros(n * PAGE_SIZE as nat));
}

/// Reading back a span that was just written gives the written bytes,
/// however many pages the span crosses, and leaves the size alone.
pub proof fn lemma_write_read_round_trip(c: Seq<u8>, offset: int, data: Seq<u8>)
    requires
        0 <= offset,
        offset + data.len() <= c.len(),
    ensures
        splice(c, offset, data).len() == c.len(),
        splice(c, offset, data).subrange(offset, offset + data.len()) == data,
{
    assert(splice(c, offset, data).subrange(offset, offset + data.len()) =~= data);
}

/// A fork starts with every slot vacant; a page that the fork then faults
/// in without a backing window holds zeros, not the parent's content.
pub proof fn lemma_fork_refaults_zero(parent: Seq<Option<Seq<u8>>>, i: int)
    requires
        0 <= i < parent.len(),
        parent[i] is Some,
        parent[i] != Some(zeros(PAGE_SIZE as nat)),
    ensures
        vacant_pages(parent.len())[i] is None,
        vacant_pages(parent.len()).update(i, Some(zeros(PAGE_SIZE as nat)))[i] != parent[i],
{
}

/// Shrinking on the right to a page boundary `new_end` inside the region
/// leaves exactly `new_end` bytes, and no slot from there on can be
/// released afterwards.
pub proof fn lemma_shrink_right_bound(pages: Seq<Option<Seq<u8>>>, new_end: int)
    requires
        0 < new_end < pages.len() * PAGE_SIZE,
        new_end % PAGE_SIZE as int == 0,
    ensures
        pages.take(page_of(new_end)).len() * PAGE_SIZE == new_end,
        forall|idx: int|
            idx * PAGE_SIZE >= new_end ==> !releasable(pages.take(page_of(new_end)), idx),
{
    assert(page_of(new_end) < pages.len());
    assert forall|idx: int| idx * PAGE_SIZE >= new_end implies !releasable(
        pages.take(page_of(new_end)),
        idx,
    ) by {
        assert(idx >= page_of(new_end));
    }
}

} // verus!
