//! Virtual-memory core: addresses, page frames, frame allocation, and a
//! four-level page-table mapper over a modelled machine.

pub mod arch;
pub mod page_frame;
pub mod bitmap_allocator;
pub mod page;
pub mod mapper;
