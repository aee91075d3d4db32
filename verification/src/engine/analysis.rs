//! The strategies under the names by which the analysis of a board asks
//! for them.

pub mod brute_force;
