//! Error kinds returned by the memory and file layers.
use vstd::prelude::*;

verus! {

/// Errors surfaced by region operations.
#[allow(non_camel_case_types)]
#[derive(Debug, Clone, Copy, PartialEq, Eq, Structural)]
pub enum OSError {
    /// The frame allocator is exhausted, or a requested page count exceeds
    /// what one address space can hold.
    Memory_RunOutOfMemory,
    /// A region of zero pages was requested.
    PmArea_InvalidRange,
    /// A read or write span falls outside the region.
    PmArea_OutOfRange,
    /// A shrink boundary does not lie strictly inside the region.
    PmArea_ShrinkFailed,
    /// A split boundary pair does not lie inside the region.
    PmArea_SplitFailed,
    /// A release was requested on a vacant page.
    PmAreaLazy_ReleaseNotAllocatedPage,
}

/// Result of a region operation.
pub type OSResult<T> = Result<T, OSError>;

} // verus!
