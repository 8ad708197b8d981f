//! Bounded handoff and durable storage for accepted commands.

pub mod bytes;
pub mod channel;
pub mod format_laws;
pub mod laws;
pub mod record;
pub mod recovery;
pub mod shutdown_laws;
pub mod sink;
pub mod worker;

use vstd::prelude::*;

use crate::types::SequenceNumber;

verus! {

pub const MAX_PAYLOAD: usize = 46;

pub const RECORD_SIZE: usize = 64;

pub const RING_CAPACITY: usize = 1024;

pub const FORMAT_VERSION: u8 = 1;

#[derive(Clone, Copy, Debug, PartialEq, Eq, Structural)]
pub enum JournalError {
    Saturated,
    SequenceOverflow,
    PayloadTooLarge { len: usize },
}

#[derive(Clone, Copy, Debug, PartialEq, Eq, Structural)]
pub enum DecodeError {
    Malformed,
    BadMagic { found: u16 },
    UnsupportedVersion { found: u8 },
    UnsupportedFlags { found: u8 },
    PayloadLength { found: u16 },
    ChecksumMismatch { sequence: SequenceNumber },
}

} // verus!
