//! Core data-plane primitives of an in-process financial calculation engine:
//! a memory-mapped append-only ring log, a TTL-bounded hot cache with a
//! structure-of-arrays price history, a price-level order book, and the
//! placement policy of a NUMA-aware thread scheduler.
//!
//! Prices, sizes and quantities are carried as integers in fixed price and
//! size units chosen by the caller (for example hundredths), so that every
//! aggregate the engine reports is exact.

pub mod cache;
pub mod cache_optimized;
pub mod errors;
pub mod numa_optimizer;
pub mod numeric;
pub mod orderbook;
pub mod portfolio;
pub mod technical;
pub mod ultrafast_log;

pub use errors::EngineError;
