//! A consistent-hashing ring: keyed items are mapped onto a changing set of
//! named partitions ("shards") so that growing the shard set relocates only
//! the items whose owning arc actually changed.
//!
//! The position space is the full range of a 64-bit hash; a ring is an
//! ordered set of labelled positions (virtual nodes); an item is owned by the
//! label with the greatest position not exceeding the item's position,
//! wrapping to the smallest label when none qualifies.

pub mod assign;
pub mod item;
pub mod position;
pub mod rebalance;
pub mod ring;
pub mod store;

pub use position::{position_of, spec_position_of};
