//! A node of a gossip cluster: it takes values submitted to it, answers reads
//! with every value it knows, and spreads its values to its neighbors in
//! periodic rounds of gossip, so that every node comes to know every value.
use vstd::prelude::*;

pub mod broadcast;
pub mod echo;
pub mod laws;
pub mod protocol;
pub mod unique_ids;
pub mod values;

verus! {

} // verus!
