//! Reductions over numeric arrays (plain and NaN-aware), with the integer
//! kernels, the order statistics on integers, the axis layouts and the
//! parallel-work settings proved correct.

pub mod finite;
pub mod parallel;
pub mod number;
pub mod reducers_1d;
pub mod axis;

pub use finite::ScanPolicy;
