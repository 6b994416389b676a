//! The position space: a fixed circular coordinate domain (the full range of
//! `u64`) together with the deterministic hash that maps an item's content to
//! its coordinate. Both items and shard labels live at such positions.
//!
//! A position is conventionally pictured as an angle on a circle of degrees;
//! dividing a coordinate by the size of the space and scaling by a full turn
//! yields that angle. The scaling is strictly monotone, so predecessor
//! lookups over raw coordinates and over angles agree everywhere; display
//! code may rescale for presentation.

use vstd::prelude::*;

verus! {

use std::collections::hash_map::DefaultHasher;
use std::hash::Hasher;
use vstd::std_specs::hash::DefaultHasherAdditionalSpecFns;

/// The position derived from a piece of content: the 64-bit hash of its
/// UTF-8 bytes. Deterministic: equal content always yields the same position.
pub open spec fn spec_position_of(s: Seq<char>) -> u64 {
    DefaultHasher::spec_finish(seq![vstd::utf8::encode_utf8(s)])
}

/// Hash a piece of content onto the circular position space.
///
/// Pure and total: the result is a function of the content bytes alone, so
/// two byte-for-byte equal inputs always land on the same position.
pub fn position_of(content: &str) -> (r: u64)
    ensures
        r == spec_position_of(content@),
{
    let mut hasher = DefaultHasher::new();
    hasher.write(content.as_bytes());
    hasher.finish()
}

} // verus!
