//! Decision engine for constant-product AMM arbitrage discovery.
//!
//! The crate models liquidity pools of the "x·y = k with fee" family, builds a
//! directed multigraph of swap edges over all known pools, searches it for the
//! bounded cycle with the best output for a given input amount, decodes pending
//! router swaps into a structured form, simulates their effect on pool
//! reserves, and scores candidate cycles against gas cost.
//!
//! The multigraph itself is stored in petgraph's stable graph. Everything the
//! verifier believes about that store — and nothing else in this crate is
//! taken on trust — is stated in [`pgraph`], one contract per petgraph call.

use vstd::prelude::*;

pub mod address;
pub mod executor;
pub mod graph;
pub mod math;
pub mod pair;
pub mod pgraph;
pub mod registry;
pub mod search;
pub mod trade;
pub mod txpool;

verus! {

} // verus!
