//! Boot-time physical-memory manager.
//!
//! Tracks physical memory as two sets of half-open address ranges —
//! available memory and reserved memory — kept sorted, non-overlapping
//! and coalesced, and hands out new aligned ranges by first-fit search.

pub mod address;
pub mod allocator;
pub mod boot;
pub mod region;
