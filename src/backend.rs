//! The byte store that backs a region, seen through a window that starts at
//! a chosen byte of the file.
use vstd::prelude::*;

verus! {

/// A file that can be read and written at a position without moving a
/// cursor that its other users see. Implemented by the file types that can
/// back a memory region.
pub trait File: Sized {
    /// Reads into `buf` from byte `pos`; `None` if the file cannot be read.
    fn read_from_offset(&self, pos: usize, buf: &mut [u8]) -> Option<usize>;

    /// Writes `buf` at byte `pos`; `None` if the file cannot be written.
    fn write_to_offset(&self, pos: usize, buf: &[u8]) -> Option<usize>;

    /// Another handle on the same file, independent of this one.
    fn duplicate(&self) -> Self;
}

/// The file behind an anonymous region: there is none, so every read and
/// write fails.
pub struct Anonymous;

impl File for Anonymous {
    fn read_from_offset(&self, pos: usize, buf: &mut [u8]) -> (r: Option<usize>)
        ensures
            r is None,
    {
        None
    }

    fn write_to_offset(&self, pos: usize, buf: &[u8]) -> (r: Option<usize>)
        ensures
            r is None,
    {
        None
    }

    fn duplicate(&self) -> Self {
        Anonymous
    }
}

/// A window on a file: byte `pos` of the window is byte `origin + pos` of
/// the file.
pub struct BackEndFile<F: File> {
    file: F,
    origin: usize,
}

impl<F: File> BackEndFile<F> {
    /// Where the window starts in the file.
    pub closed spec fn spec_origin(&self) -> usize {
        self.origin
    }

    /// A window on `file` that starts at byte `origin`.
    pub fn new(file: F, origin: usize) -> (r: Self)
        ensures
            r.spec_origin() == origin,
    {
        BackEndFile { file, origin }
    }

    /// Where the window starts in the file.
    pub fn origin(&self) -> (r: usize)
        ensures
            r == self.spec_origin(),
    {
        self.origin
    }

    /// Reads into `buf` from byte `pos` of the window; `None` where the file
    /// fails or the position lies past the last addressable byte.
    pub fn read_from_offset(&self, pos: usize, buf: &mut [u8]) -> (r: Option<usize>)
        ensures
            self.spec_origin() + pos > usize::MAX ==> r is None && final(buf)@ == old(buf)@,
    {
        match self.origin.checked_add(pos) {
            Some(at) => self.file.read_from_offset(at, buf),
            None => None,
        }
    }

    /// Writes `buf` at byte `pos` of the window; `None` where the file fails
    /// or the position lies past the last addressable byte.
    pub fn write_to_offset(&self, pos: usize, buf: &[u8]) -> (r: Option<usize>)
        ensures
            self.spec_origin() + pos > usize::MAX ==> r is None,
    {
        match self.origin.checked_add(pos) {
            Some(at) => self.file.write_to_offset(at, buf),
            None => None,
        }
    }

    /// An independent handle on the same window, for a forked address space.
    pub fn clone_as_fork(&self) -> (r: Self)
        ensures
            r.spec_origin() == self.spec_origin(),
    {
        BackEndFile { file: self.file.duplicate(), origin: self.origin }
    }

    /// Moves the start of the window forward by `delta` bytes (saturating at
    /// the last addressable byte).
    pub fn modify_offset(&mut self, delta: usize)
        ensures
            final(self).spec_origin() == shifted(old(self).spec_origin(), delta),
    {
        self.origin = self.origin.saturating_add(delta);
    }

    /// A new handle on the same file whose window starts `at` bytes into
    /// this one (saturating at the last addressable byte).
    pub fn split(&self, at: usize) -> (r: Self)
        ensures
            r.spec_origin() == shifted(self.spec_origin(), at),
    {
        BackEndFile { file: self.file.duplicate(), origin: self.origin.saturating_add(at) }
    }
}

/// A window origin moved forward by `delta`, saturating at `usize::MAX`.
pub open spec fn shifted(origin: usize, delta: usize) -> usize {
    if origin + delta <= usize::MAX {
        (origin + delta) as usize
    } else {
        usize::MAX
    }
}

} // verus!
