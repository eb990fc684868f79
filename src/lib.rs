//! A simulator for synchronous distributed algorithms in the port numbering
//! model: the algorithm contract, the reference algorithms, the network
//! builder with its port numbering, the per-vertex round logic, and what
//! holds of whole runs (termination, maximal matching, vertex cover).
use vstd::prelude::*;

pub mod types;
pub mod algorithms;
pub mod text;
pub mod graph;
pub mod network;
pub mod simulator;
pub mod runs;
pub mod matching;
pub mod even_odd;
pub mod cover;

verus! {

} // verus!
