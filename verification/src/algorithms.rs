//! The selection algorithms: an exact matcher, a least-change search, and
//! three greedy heuristics, all priced through the same arithmetic
//! substrate.

pub mod bnb;
pub mod fifo;
pub mod knapsack;
pub mod leastchange;
pub mod lowestlarger;
