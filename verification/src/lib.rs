//! Bounded time-series storage and axis layout for a live terminal chart.
//!
//! The crate keeps one fixed-capacity ring buffer of samples per monitored
//! command, tracks the sliding x-window of each series, derives rolling
//! statistics over the non-missing samples, and computes readable y-axis
//! bounds and tick counts from the live value range.  All values are carried
//! as fixed-point integers in millionths of a unit (see [`SCALE`]), so every
//! computation here is exact integer arithmetic.

pub mod axis;
pub mod datastore;
pub mod labels;
pub mod manual;
pub mod ringbuffer;
pub mod sampler;
pub mod stats;

use vstd::prelude::*;

verus! {

/// Number of fixed-point steps per unit: values are stored in millionths.
pub const SCALE: i64 = 1000000;

/// Largest magnitude (in millionths) a sample value may have.  The bound
/// leaves room for every intermediate product of the axis computation to
/// stay well inside `i64`.
pub const VALUE_LIMIT: i64 = 1000000000000000;

/// Every axis bound the library computes stays within this magnitude, which
/// is what the tick formatter accepts.
pub const BOUND_LIMIT: i64 = 50000000000000000;

/// One reading of a monitored command: its position on the x-axis and its
/// value in millionths, or `None` when the command failed or its output
/// could not be read as a number.  Missing samples keep their slot so the
/// sampling cadence stays visible.
#[derive(Clone, Copy, Debug, PartialEq, Eq, Structural)]
pub struct Sample {
    pub x: u64,
    pub value: Option<i64>,
}

} // verus!
