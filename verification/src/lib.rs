//! A generic segment tree over a monoid, with point updates and inclusive
//! range queries, verified against a sequence model.

pub mod fold;
pub mod layout;
pub mod ops;
pub mod segment_tree;
pub mod sum;

pub use segment_tree::SegmentTree;
