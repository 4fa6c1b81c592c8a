//! Metric reports and control policies of a RAN distributed unit.

pub mod text;
pub mod number;
pub mod metrics;
pub mod reports;
pub mod policies;
pub mod clock;
