//! A skip list: a probabilistic, multi-level ordered linked structure with
//! expected logarithmic search, insertion and deletion.
//!
//! The list keeps its values sorted by a three-way comparator that it is
//! given at construction. Level 0 links every value; each level above links
//! a part of the level below, so that a search can skip ahead on the upper
//! levels and come down where it has to look closer.
//!
//! What the list decides for its callers:
//! - A value that compares equal to a stored one is rejected
//!   ([`SkipListError::DuplicateKey`]); the stored value stays.
//! - The number of levels of a new node is drawn from a
//!   [`PromotionSource`] that the caller hands in: one level, and one more
//!   for each promotion in a row. [`SeededSource`] promotes about every
//!   second time.
//! - A list uses at most [`DEFAULT_MAX_LEVEL`] levels unless it is made with
//!   another cap; a draw that would go beyond the cap stops at it.
//!
//! The nodes live in an arena and name each other by their slots, so that
//! linking and unlinking rewrite indices and nothing else.

pub mod error;
pub mod laws;
pub mod list;
pub mod node;
pub mod order;
pub mod promote;

pub use crate::error::SkipListError;
pub use crate::list::{SkipList, Traversal, DEFAULT_MAX_LEVEL};
pub use crate::node::Node;
pub use crate::promote::{draw_level, PromotionSource, SeededSource};
