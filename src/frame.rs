//! Physical page frames and the allocator that hands them out.
use vstd::prelude::*;

verus! {

/// Size in bytes of one page.
pub const PAGE_SIZE: usize = 4096;

/// Ownership handle over one physical page: its start address and its bytes.
pub struct Frame {
    paddr: usize,
    data: Vec<u8>,
}

impl View for Frame {
    type V = Seq<u8>;

    /// The page's content.
    closed spec fn view(&self) -> Seq<u8> {
        self.data@
    }
}

/// A sequence of `n` zero bytes.
pub open spec fn zeros(n: nat) -> Seq<u8> {
    Seq::new(n, |i: int| 0u8)
}

impl Frame {
    /// A frame holds exactly one page of bytes.
    pub open spec fn wf(&self) -> bool {
        self@.len() == PAGE_SIZE
    }

    /// Physical start address, in spec code.
    pub closed spec fn spec_paddr(&self) -> usize {
        self.paddr
    }

    /// Physical start address of the frame.
    pub fn start_paddr(&self) -> (r: usize)
        ensures
            r == self.spec_paddr(),
    {
        self.paddr
    }

    /// Fills the frame with zero bytes.
    pub fn zero(&mut self)
        ensures
            final(self).wf(),
            final(self)@ == zeros(PAGE_SIZE as nat),
            final(self).spec_paddr() == old(self).spec_paddr(),
    {
        let mut data: Vec<u8> = Vec::with_capacity(PAGE_SIZE);
        let mut i: usize = 0;
        while i < PAGE_SIZE
            invariant
                i <= PAGE_SIZE,
                data@ == zeros(i as nat),
            decreases PAGE_SIZE - i,
        {
            data.push(0u8);
            i += 1;
            assert(data@ =~= zeros(i as nat));
        }
        self.data = data;
    }

    /// Settles the frame after its bytes were read from a backing file:
    /// where the read failed (`None`) the frame holds zeros, else it keeps
    /// what the file put there. Verus is not told that the file kept the
    /// buffer one page long, so a frame of any other length is zeroed too.
    pub fn settle_read(&mut self, read: Option<usize>)
        ensures
            final(self).wf(),
            final(self).spec_paddr() == old(self).spec_paddr(),
            read is None ==> final(self)@ == zeros(PAGE_SIZE as nat),
            read is Some && old(self).wf() ==> final(self)@ == old(self)@,
    {
        if read.is_none() || self.data.len() != PAGE_SIZE {
            self.zero();
        }
    }

    /// The frame's bytes.
    pub fn as_slice(&self) -> (r: &[u8])
        ensures
            r@ == self@,
    {
        self.data.as_slice()
    }

    /// The frame's bytes, for writing in place.
    pub fn as_slice_mut(&mut self) -> (r: &mut [u8])
        ensures
            r@ == old(self)@,
            final(r)@ == final(self)@,
            final(self).spec_paddr() == old(self).spec_paddr(),
    {
        self.data.as_mut_slice()
    }

    /// Reads the byte at `i`.
    pub fn get(&self, i: usize) -> (r: u8)
        requires
            i < self@.len(),
        ensures
            r == self@[i as int],
    {
        self.data[i]
    }

    /// Writes the byte at `i`.
    pub fn set(&mut self, i: usize, b: u8)
        requires
            i < old(self)@.len(),
        ensures
            final(self)@ == old(self)@.update(i as int, b),
            final(self).spec_paddr() == old(self).spec_paddr(),
    {
        self.data[i] = b;
    }
}

/// Hands out page frames from a pool of free physical page addresses.
pub struct FrameAllocator {
    free: Vec<usize>,
}

impl FrameAllocator {
    /// The free page addresses; the last one is handed out next.
    pub closed spec fn free_pages(&self) -> Seq<usize> {
        self.free@
    }

    /// An allocator over the `count` pages that start at `base`.
    pub fn new(base: usize, count: usize) -> (r: Self)
        requires
            base + count * PAGE_SIZE <= usize::MAX,
        ensures
            r.free_pages().len() == count,
            forall|i: int|
                0 <= i < count ==> #[trigger] r.free_pages()[i] == base + (count - 1 - i)
                    * PAGE_SIZE,
    {
        let mut free: Vec<usize> = Vec::with_capacity(count);
        let mut k: usize = count;
        while k > 0
            invariant
                k <= count,
                base + count * PAGE_SIZE <= usize::MAX,
                free@.len() == count - k,
                forall|i: int|
                    0 <= i < count - k ==> #[trigger] free@[i] == base + (count - 1 - i)
                        * PAGE_SIZE,
            decreases k,
        {
            k -= 1;
            assert(k * PAGE_SIZE <= count * PAGE_SIZE) by (nonlinear_arith)
                requires
                    k <= count,
            ;
            free.push(base + k * PAGE_SIZE);
        }
        FrameAllocator { free }
    }

    /// Number of frames that can still be handed out.
    pub fn available(&self) -> (r: usize)
        ensures
            r == self.free_pages().len(),
    {
        self.free.len()
    }

    /// Takes one frame from the pool; `None` when the pool is exhausted.
    /// The new frame holds one page of unspecified bytes.
    pub fn allocate(&mut self) -> (r: Option<Frame>)
        ensures
            old(self).free_pages().len() == 0 ==> r.is_none() && final(self).free_pages()
                == old(self).free_pages(),
            old(self).free_pages().len() > 0 ==> {
                &&& r.is_some()
                &&& r.unwrap().wf()
                &&& r.unwrap().spec_paddr() == old(self).free_pages().last()
                &&& final(self).free_pages() == old(self).free_pages().drop_last()
            },
    {
        match self.free.pop() {
            None => None,
            Some(paddr) => {
                let mut frame = Frame { paddr, data: Vec::new() };
                frame.zero();
                Some(frame)
            },
        }
    }

    /// Returns a frame to the pool.
    pub fn deallocate(&mut self, frame: Frame)
        ensures
            final(self).free_pages() == old(self).free_pages().push(frame.spec_paddr()),
    {
        self.free.push(frame.paddr);
    }
}

} // verus!
