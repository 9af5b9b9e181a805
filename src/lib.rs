//! Streaming order statistics: a running median kept in two balanced halves,
//! and per-column extremes, over totally ordered integer samples.

pub mod order;
pub mod heap;
pub mod median;
pub mod engine;
pub mod laws;
pub mod columns;
