//! Descriptive statistics over small in-memory samples of unsigned
//! integers, together with two small verified demonstration types.
//!
//! The heart of the crate is [`stats`], which computes the mean, median
//! and mode of a non-empty sample and proves each result against a
//! mathematical model of the sample.

pub mod coin;
pub mod rect;
pub mod stats;
