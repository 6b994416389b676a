//! The unit of data being distributed: a stable identity (assigned once at
//! creation, used to deduplicate relocation decisions), a position on the
//! ring (computed once from the content and immutable thereafter), and the
//! content itself as payload. Only an item's owning shard ever changes.

use crate::position::{position_of, spec_position_of};
use vstd::prelude::*;

verus! {

/// One distributed item. The identity is supplied by the collaborator that
/// creates items and is only ever compared for equality; the position is the
/// item's fixed coordinate on the ring.
pub struct Item {
    pub id: u128,
    pub position: u64,
    pub content: String,
}

impl Item {
    /// Wrap content as an item at the position its content hashes to.
    pub fn new(id: u128, content: String) -> (r: Item)
        ensures
            r.id == id,
            r.position == spec_position_of(content@),
            r.content == content,
    {
        let position = position_of(content.as_str());
        Item { id, position, content }
    }

    /// An item at a caller-chosen position. The core accepts positions as
    /// given, so a collaborator that draws or fixes coordinates itself can
    /// inject them here.
    pub fn at_position(id: u128, position: u64, content: String) -> (r: Item)
        ensures
            r.id == id,
            r.position == position,
            r.content == content,
    {
        Item { id, position, content }
    }

    /// A copy equal to this item: same identity, position and content.
    pub fn duplicate(&self) -> (r: Item)
        ensures
            r == *self,
    {
        Item { id: self.id, position: self.position, content: self.content.clone() }
    }
}

} // verus!
