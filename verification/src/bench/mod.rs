//! Reproducible benchmark cells over the engine.

pub mod book;
pub mod cells;
pub mod clock;
pub mod config;
pub mod drive;
pub mod fifo;
pub mod fnv;
pub mod handoff;
pub mod journal;
pub mod json;
pub mod laws;
pub mod liquidity;
pub mod plan;
pub mod record;
pub mod replace;
pub mod risk;
pub mod shapes;
pub mod stats;
pub mod suite;
pub mod sweep;
pub mod taker;
pub mod tif;
