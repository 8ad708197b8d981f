//! A fixed-capacity matching core: a price-time order book, a pre-trade risk
//! engine, a checksummed command journal, bounded event batches, instrument
//! routing and the benchmark suite that measures them.

pub mod bench;
pub mod book;
pub mod digest;
pub mod engine;
pub mod events;
pub mod journal;
pub mod probe;
pub mod queue;
pub mod risk;
pub mod router;
pub mod types;
