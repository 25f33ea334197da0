//! Interval algorithms on half-open intervals `[start, end)`, with contracts
//! proved by Verus.
//!
//! Every algorithm takes its endpoints in original row order and answers in
//! that same order. Endpoints are compared only through their ordinal
//! (see [`Endpoint`]); weights and costs are widened losslessly to `i128`
//! (see [`Weight`]).

pub mod endpoint;
pub mod error;
pub mod rows;
pub mod sort;
pub mod overlap;
pub mod weighted;
pub mod cover;
pub mod fenwick;
pub mod cost_cover;
pub mod heap;
pub mod lanes;
pub mod network;
pub mod capacity;

pub use crate::endpoint::{Endpoint, Weight};
pub use crate::error::IntervalError;
pub use crate::overlap::overlap_counts;
pub use crate::weighted::max_weight_non_overlapping;
pub use crate::cover::minimum_cover;
pub use crate::cost_cover::minimum_cost_cover;
pub use crate::fenwick::Fenwick;
pub use crate::lanes::assign_lanes;
pub use crate::capacity::max_weight_with_capacity;
