//! Demand-paged physical backing for virtual memory regions, with a
//! backing-file window, a frame allocator, and the hard-link and mount tables
//! that the file layer keeps beside it.
pub mod area;
pub mod backend;
pub mod error;
pub mod frame;
pub mod lazy;
pub mod link;
