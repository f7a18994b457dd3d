//! Cheapest derivations of a target integer from costed source numbers,
//! found by a cost-levelled exhaustive search.
pub mod arith;
pub mod input;
pub mod oracle;
pub mod reach;
pub mod search;
pub mod tree;
