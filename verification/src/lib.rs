//! A pooled allocator for small, short-lived byte values.
//!
//! Memory is carved into slots of six fixed sizes. Each size class has a
//! [`Pool`], which threads a free list through the heads of its unused slots
//! and grows by chaining further buffers. The [`Allocator`] routes a value to
//! the smallest class that holds it and hands out a [`Pointer`], a move-only
//! handle that names the slot until it is released.

pub mod allocator;
pub mod laws;
pub mod pointer;
pub mod pool;
pub mod slots;

pub use allocator::Allocator;
pub use pointer::Pointer;
pub use pool::Pool;
