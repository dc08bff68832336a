use vstd::prelude::*;

pub mod bitset;
pub mod block_arrangement;
pub mod block_hash;
pub mod codec;
pub mod generation;
pub mod mapper;
pub mod numeric;
pub mod orientation;
pub mod point;
pub mod poly_tree;

verus! {

/// A lattice reach along one axis never exceeds this bound; it keeps every
/// cell index inside `u32` and every coordinate computation inside `i32`.
pub const MAX_EXTENT: u32 = 300;

} // verus!
