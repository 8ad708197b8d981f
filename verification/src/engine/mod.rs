//! Single-instrument admission, event publication, and journal lifecycle.

pub mod builder;
pub mod laws;
pub mod lifecycle;

use vstd::prelude::*;

use crate::events::{EventEngineError, ParseError};
use crate::journal::channel::JournalStatus;
use crate::journal::JournalError;
use crate::types::{InstrumentId, SequenceNumber};

verus! {

#[derive(Clone, Copy, Debug, PartialEq, Eq, Structural)]
pub enum EngineError {
    Stopped,
    Failed,
    PersistenceFailed,
    UnknownInstrument(InstrumentId),
    Parse(ParseError),
    Admission(EventEngineError),
    Journal(JournalError),
    SequenceInvariant,
    Apply(EventEngineError),
}

#[derive(Clone, Copy, Debug, PartialEq, Eq, Structural)]
pub enum EngineState {
    Running,
    Stopping,
    Stopped,
    Failed,
}

#[derive(Clone, Copy, Debug, PartialEq, Eq, Structural)]
pub struct Health {
    pub state: EngineState,
    pub next_sequence: SequenceNumber,
    pub journal: JournalStatus,
}

#[derive(Clone, Copy, Debug, PartialEq, Eq, Structural)]
pub enum CheckpointError {
    AdmissionOpen,
    PersistencePending,
    Failed,
    SequenceInvariant,
}

} // verus!
