//! A dynamic texture atlas allocator built on guillotine partitioning.

pub mod geometry;
pub mod node;
pub mod options;
pub mod guillotine;
pub mod free_list;
pub mod model;
pub mod tree_ops;
pub mod grow_ops;
pub mod transitions;
pub mod laws;
pub mod index;
pub mod atlas;
pub mod simple;

pub use crate::atlas::AtlasAllocator;
pub use crate::geometry::{point2, size2, Point, Rectangle, Size};
pub use crate::node::{AllocId, Allocation, Change, ChangeList, NodeKind};
pub use crate::options::AllocatorOptions;
pub use crate::simple::SimpleAtlasAllocator;
