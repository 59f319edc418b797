//! Core of a low-latency market-data distribution layer: a fixed-depth order
//! book snapshot, a fixed-point decimal parser and a reference-counting
//! subscription broker.

pub mod broker;
pub mod connector;
pub mod lifecycle;
pub mod model;
pub mod util;
