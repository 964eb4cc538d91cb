//! A size-class segregated free-list memory allocator with a large-allocation
//! bypass to anonymous memory mapping.
//!
//! The process address space is modelled by an explicit arena owned by the
//! allocator context: a linear heap grown by break adjustments, plus a set of
//! anonymous mappings.  Every returned pointer is an address in that space,
//! preceded by a fixed-size header that records the block's size, its origin
//! (free list or mapping) and its free-list link.

mod os;
mod allocator;

pub use os::Memory;
pub use os::Region;
pub use allocator::Allocator;
pub use allocator::Block;
pub use allocator::get_align;
pub use allocator::get_block_head;
