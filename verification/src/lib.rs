//! Real-time cross-market arbitrage detection core.
//!
//! The crate maintains a live graph of implied exchange rates between
//! currency-venue nodes and searches it for profitable trading cycles.
//! Edge weights are negated logarithms of exchange rates, held as
//! fixed-point integers in nano units, so that a profitable cycle is
//! exactly a negative-weight cycle of the graph.

pub mod config;
pub mod detector;
pub mod engine;
pub mod errors;
pub mod graph;
pub mod opportunity;
pub mod stats;
pub mod symbol;
pub mod tick;

pub use config::Config;
pub use detector::reconstruct_cycle;
pub use engine::ArbitrageEngine;
pub use errors::EngineError;
pub use graph::PriceGraph;
pub use opportunity::ArbitrageOpportunity;
pub use stats::PerformanceStats;
pub use tick::MarketTick;
