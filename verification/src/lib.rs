//! A composable multi-criteria prioritisation pipeline over fruit records.
//!
//! Ranking stages are stable sorts by one attribute; a builder chains them so
//! that the first-registered criterion dominates, and a service facade applies
//! a fixed height-then-species policy.

pub mod error;
pub mod fruit;
pub mod laws;
pub mod pipeline;
pub mod service;
pub mod sorting;
pub mod stage;
