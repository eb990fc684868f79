//! The reference algorithms.
use vstd::prelude::*;

pub mod bipartite;
pub mod isomorphic;
pub mod mvc_3approx;

pub use bipartite::BipartiteMaximalMatching;
pub use isomorphic::IsomorphicNeighborhood;
pub use mvc_3approx::Mvc3approx;

verus! {

} // verus!
