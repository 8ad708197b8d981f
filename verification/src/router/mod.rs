//! Routing of commands to single-instrument shards.

pub mod dispatch;
pub mod laws;
pub mod shard;
pub mod table;

use vstd::prelude::*;

use crate::events::{EventEngineConfigError, EventEngineError, ParseError};
use crate::types::{InstrumentId, SequenceNumber};

verus! {

#[derive(Clone, Copy, Debug, PartialEq, Eq, PartialOrd, Ord, Structural)]
pub struct ShardId(pub u16);

#[derive(Clone, Copy, Debug, PartialEq, Eq, Structural)]
pub struct InstrumentRoute {
    pub instrument_id: InstrumentId,
    pub shard_id: ShardId,
}

#[derive(Clone, Copy, Debug, PartialEq, Eq, Structural)]
pub enum RouteTableError {
    NoShards,
    TooManyShards,
    InvalidShardId(ShardId),
    DuplicateShardId(ShardId),
    DuplicateInstrument(InstrumentId),
}

#[derive(Clone, Copy, Debug, PartialEq, Eq, Structural)]
pub enum RouterError {
    Parse(ParseError),
    UnknownInstrument(InstrumentId),
    UnknownShard(ShardId),
    CommandBackpressured(ShardId),
}

#[derive(Clone, Copy, Debug, PartialEq, Eq, Structural)]
pub enum ShardConfigError {
    InstrumentMismatch { route: InstrumentId, gateway: InstrumentId },
    Events(EventEngineConfigError),
}

#[derive(Clone, Copy, Debug, PartialEq, Eq, Structural)]
pub enum ShardStep {
    Idle,
    Processed(SequenceNumber),
}

#[derive(Clone, Copy, Debug, PartialEq, Eq, Structural)]
pub enum ShardError {
    Misrouted { expected: InstrumentId, received: InstrumentId },
    EventBackpressured,
    Engine(EventEngineError),
}

} // verus!
