//! Search for the shortest chain of redstone "layers" that computes a
//! target function on the sixteen signal strengths.

pub mod bits;
pub mod constants;
pub mod driver;
pub mod layer;
pub mod legality;
pub mod order;
pub mod pair_vec;
pub mod search;
pub mod text;
pub mod union_intersect;
pub mod unique_vec;
