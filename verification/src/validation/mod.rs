//! Helpers of the validation harness's regression report.

pub mod report;
