//! Early-boot physical-memory manager.
//!
//! The crate tracks free physical memory as a capacity-bounded set of
//! disjoint, coalesced address ranges ([`memory_map::MemoryMap`]) and serves
//! allocation requests out of that set through a self-hosting boot allocator
//! ([`htmalloc::HTMAlloc`]) whose bookkeeping ledger is itself carved out of
//! the memory it manages.

pub mod boot;
pub mod cfg_tbl;
pub mod draw;
pub mod drivers;
pub mod htmalloc;
pub mod html;
pub mod memory_map;
pub mod pattern;
