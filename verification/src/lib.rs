//! Boot-time memory management, verified.
//!
//! - [`early`]: a double-ended bump allocator that serves byte allocations
//!   from the low end and page allocations from the high end of one
//!   contiguous range. [`model`] holds its mathematical model and the laws
//!   that follow from it, [`align`] the arithmetic of power-of-two alignment.
//! - [`hash_map`]: an open-addressing hash map with linear probing, over the
//!   seeded byte hasher of [`hasher`]. [`table`] holds the model of its bucket
//!   table and of the search through it.

pub mod align;
pub mod early;
pub mod hash_map;
pub mod hasher;
pub mod model;
pub mod table;

pub use crate::early::{AllocError, EarlyAllocator};
pub use crate::hash_map::{Entry, HashMap};
