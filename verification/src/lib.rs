//! Boot-time physical-memory discovery.
//!
//! A coalescing registry of closed `u64` address ranges (`registry`), and the
//! discovery pipeline (`discovery`) that seeds it from the firmware memory map
//! and carves out the reserved windows, leaving the memory that is safe to
//! hand to a page allocator.

pub mod range;
pub mod registry;
pub mod discovery;
