//! A cache of selectable entities kept sorted by tab order.
//!
//! The core type, [`selection_order_cache::CachedSelectionOrder`], holds an
//! ordered sequence of `(order key, entity)` pairs together with a membership
//! list, and is reconciled once per scheduling cycle against the live set of
//! selectable entities. A small glTF byte-container converter accompanies it.

use vstd::prelude::*;

pub mod gltf_bytes_converter;
pub mod selection_order_cache;

verus! {

/// An opaque entity identifier. Equality-comparable and totally ordered by
/// its numeric id, which the cache uses to break ties between equal order keys.
#[derive(Clone, Copy, Debug, PartialEq, Eq, Structural)]
pub struct Entity {
    pub id: u64,
}

} // verus!
