//! A StatsD-style metrics daemon core: a wire-protocol parser and an
//! aggregation cache, with exact fixed-point arithmetic.
//!
//! Metric values are held in micro-units: one unit of a metric value is
//! 1_000_000 micro-units, so six decimal places of a wire literal are kept
//! exactly.

pub mod backend;
pub mod cache;
pub mod error;
pub mod num;
pub mod parse;
pub mod render;
pub mod server;
pub mod stats;
pub mod window;

pub use error::Error;
