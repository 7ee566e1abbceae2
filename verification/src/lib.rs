//! A vector-like container that stores runs of equal values as one record each.
//!
//! Long stretches of one value take one run: the value and the index at which
//! the stretch ends. Reading an index is a binary search over the run ends.
//! Writes split and merge runs so that no two neighbouring runs ever hold the
//! same value.

pub mod edits;
pub mod iter;
pub mod laws;
pub mod model;
pub mod order;
pub mod rle;
pub mod sink;
pub mod storage;
pub mod table;

pub use crate::iter::{Iter, Runs};
pub use crate::rle::{RleVec, Run};
