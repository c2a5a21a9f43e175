//! A dense, reusable-index arena that hands out opaque typed ids instead of
//! raw memory addresses, so interlinked or self-referential data can be
//! stored without pointers. Elements live in a packed vector mixing alive and
//! dead slots; an occupancy tracker records which slots are dead, and the
//! last slot is always kept alive by eagerly trimming dead slots off the
//! tail. Ids carry no generation tag: after a slot is removed and reused, a
//! stale id for it silently addresses the new element, which is the caller's
//! responsibility to avoid.

pub mod bit_vec_marker;
pub mod element_marker;
pub mod id;
pub mod vec;

pub use id::Id;
pub use id::Index;
pub use vec::IdVec;
pub use element_marker::ElementMarker;
pub use element_marker::HashSetElementMarker;
pub use bit_vec_marker::BitVecElementMarker;
