//! Recovery: the scan of a journal from its first byte.

use vstd::prelude::*;

use crate::journal::channel::ReaderView;
use crate::journal::record::{
    decode_fault, law_decode_undoes_encode, law_fields_of_encoded, JournalRecord, RecordView,
};
use crate::journal::sink::{StorageError, StorageErrorKind};
use crate::journal::worker::disk;
use crate::journal::{DecodeError, MAX_PAYLOAD, RECORD_SIZE};
use crate::types::SequenceNumber;

verus! {

#[derive(Clone, Copy, Debug, PartialEq, Eq, Structural)]
pub enum RecoveryError {
    Io(StorageError),
    Truncated { bytes: usize },
    Decode { offset: u64, source: DecodeError },
    Sequence { expected: SequenceNumber, received: SequenceNumber },
    SequenceOverflow,
}

#[derive(Clone, Copy, Debug, PartialEq, Eq, Structural)]
pub struct Recovery {
    pub records: u64,
    pub next_sequence: u64,
}

/// What follows one read of a journal.
#[derive(Clone, Copy, Debug, PartialEq, Eq, Structural)]
pub enum ReadStep {
    /// So many bytes of the next disk form are there.
    Filled(usize),
    /// The same bytes are read again.
    Retry,
    /// The journal ends here.
    Finish,
    Fail(RecoveryError),
}

/// What follows a read behind `filled` bytes of a disk form.
pub open spec fn read_step(filled: nat, answer: Result<usize, StorageError>) -> ReadStep {
    match answer {
        Ok(count) => if count == 0 {
            ReadStep::Finish
        } else {
            ReadStep::Filled((filled + count) as usize)
        },
        Err(error) => if error.kind == StorageErrorKind::Interrupted {
            ReadStep::Retry
        } else {
            ReadStep::Fail(RecoveryError::Io(error))
        },
    }
}

/// Decides what follows a read behind `filled` bytes of a disk form.
pub fn after_read(filled: usize, answer: Result<usize, StorageError>) -> (step: ReadStep)
    requires
        answer is Ok ==> filled + answer->Ok_0 <= RECORD_SIZE,
    ensures
        step == read_step(filled as nat, answer),
{
    match answer {
        Ok(count) => {
            if count == 0 {
                ReadStep::Finish
            } else {
                ReadStep::Filled(filled + count)
            }
        },
        Err(error) => {
            if error.kind == StorageErrorKind::Interrupted {
                ReadStep::Retry
            } else {
                ReadStep::Fail(RecoveryError::Io(error))
            }
        },
    }
}

/// Where a record starts, as far as a `u64` can say it.
pub open spec fn offset_of(records: u64) -> u64 {
    if records * RECORD_SIZE > u64::MAX {
        u64::MAX
    } else {
        (records * RECORD_SIZE) as u64
    }
}

impl Recovery {
    /// What is wrong with the next disk form, if anything is.
    pub open spec fn fault(self, form: Seq<u8>) -> Option<RecoveryError> {
        let record = RecordView::fields(form);
        if decode_fault(form) is Some {
            Some(
                RecoveryError::Decode {
                    offset: offset_of(self.records),
                    source: decode_fault(form)->0,
                },
            )
        } else if record.sequence.0 != self.next_sequence {
            Some(
                RecoveryError::Sequence {
                    expected: SequenceNumber(self.next_sequence),
                    received: record.sequence,
                },
            )
        } else if self.next_sequence == u64::MAX || self.records == u64::MAX {
            Some(RecoveryError::SequenceOverflow)
        } else {
            None
        }
    }

    /// One record further.
    pub open spec fn next(self) -> Recovery {
        Recovery {
            records: (self.records + 1) as u64,
            next_sequence: (self.next_sequence + 1) as u64,
        }
    }

    /// Where a scan of all the bytes ends.
    pub open spec fn scanned(self, bytes: Seq<u8>) -> Result<Recovery, RecoveryError>
        decreases bytes.len(),
    {
        if bytes.len() == 0 {
            Ok(self)
        } else if bytes.len() < RECORD_SIZE {
            Err(RecoveryError::Truncated { bytes: bytes.len() as usize })
        } else {
            match self.fault(bytes.take(RECORD_SIZE as int)) {
                Some(error) => Err(error),
                None => self.next().scanned(bytes.skip(RECORD_SIZE as int)),
            }
        }
    }

    /// Where a scan starts.
    pub open spec fn spec_start(first_sequence: u64) -> Recovery {
        Recovery { records: 0, next_sequence: first_sequence }
    }

    /// Where a scan starts.
    #[must_use]
    pub fn start(first_sequence: u64) -> (scan: Recovery)
        ensures
            scan == Recovery::spec_start(first_sequence),
    {
        Recovery { records: 0, next_sequence: first_sequence }
    }

    /// Takes one complete disk form.
    pub fn accept(self, form: &[u8; RECORD_SIZE]) -> (outcome: Result<Recovery, RecoveryError>)
        ensures
            match self.fault(form@) {
                Some(error) => outcome is Err && outcome->Err_0 == error,
                None => outcome is Ok && outcome->Ok_0 == self.next(),
            },
    {
        let offset: u64 = if self.records > u64::MAX / 64 {
            u64::MAX
        } else {
            self.records * 64
        };
        let record = match JournalRecord::decode(form) {
            Ok(record) => record,
            Err(source) => {
                return Err(RecoveryError::Decode { offset, source });
            },
        };
        if record.sequence().0 != self.next_sequence {
            return Err(
                RecoveryError::Sequence {
                    expected: SequenceNumber(self.next_sequence),
                    received: record.sequence(),
                },
            );
        }
        if self.next_sequence == u64::MAX || self.records == u64::MAX {
            return Err(RecoveryError::SequenceOverflow);
        }
        Ok(Recovery { records: self.records + 1, next_sequence: self.next_sequence + 1 })
    }

    /// Ends the scan, with `filled` bytes of a disk form that is not complete.
    pub fn finish(self, filled: usize) -> (outcome: Result<Recovery, RecoveryError>)
        ensures
            outcome == if filled == 0 {
                Ok::<_, RecoveryError>(self)
            } else {
                Err::<Recovery, _>(RecoveryError::Truncated { bytes: filled })
            },
    {
        if filled == 0 {
            Ok(self)
        } else {
            Err(RecoveryError::Truncated { bytes: filled })
        }
    }
}

/// Scans the bytes of a journal without accepting a corrupt or partial tail.
pub fn recover(bytes: &[u8], first_sequence: u64) -> (outcome: Result<Recovery, RecoveryError>)
    ensures
        outcome == Recovery::spec_start(first_sequence).scanned(bytes@),
{
    let mut scan = Recovery::start(first_sequence);
    let total: usize = bytes.len();
    let mut done: usize = 0;
    assert(bytes@.skip(0) =~= bytes@);
    while total - done >= RECORD_SIZE
        invariant
            done <= total == bytes@.len(),
            Recovery::spec_start(first_sequence).scanned(bytes@) == scan.scanned(
                bytes@.skip(done as int),
            ),
        decreases bytes@.len() - done,
    {
        let mut form: [u8; RECORD_SIZE] = [0u8; RECORD_SIZE];
        let mut filled: usize = 0;
        while filled < RECORD_SIZE
            invariant
                filled <= RECORD_SIZE,
                done + RECORD_SIZE <= total == bytes@.len(),
                forall|i: int| 0 <= i < filled ==> #[trigger] form@[i] == bytes@[done + i],
            decreases RECORD_SIZE - filled,
        {
            form[filled] = bytes[done + filled];
            filled = filled + 1;
        }
        proof {
            let rest = bytes@.skip(done as int);
            assert(form@ =~= rest.take(RECORD_SIZE as int));
            assert(rest.skip(RECORD_SIZE as int) =~= bytes@.skip(done + RECORD_SIZE));
        }
        match scan.accept(&form) {
            Ok(next) => {
                scan = next;
            },
            Err(error) => {
                return Err(error);
            },
        }
        done = done + RECORD_SIZE;
    }
    scan.finish(total - done)
}

/// The records are valid and their sequences run on from `first`.
pub open spec fn in_order(first: u64, records: Seq<RecordView>) -> bool {
    &&& first + records.len() <= u64::MAX
    &&& forall|i: int|
        0 <= i < records.len() ==> {
            &&& (#[trigger] records[i]).payload.len() == MAX_PAYLOAD
            &&& records[i].verified()
            &&& records[i].sequence.0 == first + i
        }
}

proof fn lemma_disk_front(records: Seq<RecordView>)
    requires
        records.len() > 0,
    ensures
        disk(records) == records[0].encoded() + disk(records.skip(1)),
{
    crate::journal::worker::lemma_disk_split(records, 1);
    let front = records.take(1);
    assert(front.drop_last() =~= Seq::<RecordView>::empty());
    assert(disk(front) =~= disk(front.drop_last()) + records[0].encoded());
    assert(Seq::<u8>::empty() + records[0].encoded() =~= records[0].encoded());
}

/// A scan that starts with the disk form of the next record goes on behind it.
proof fn lemma_scan_step(start: Recovery, record: RecordView, rest: Seq<u8>)
    requires
        record.payload.len() == MAX_PAYLOAD,
        record.verified(),
        record.sequence.0 == start.next_sequence,
        start.next_sequence < u64::MAX,
        start.records < u64::MAX,
    ensures
        start.scanned(record.encoded() + rest) == start.next().scanned(rest),
{
    let form = record.encoded();
    let bytes = form + rest;
    law_fields_of_encoded(record);
    law_decode_undoes_encode(record);
    assert(form.len() == RECORD_SIZE);
    assert(bytes.take(RECORD_SIZE as int) =~= form);
    assert(bytes.skip(RECORD_SIZE as int) =~= rest);
    assert(start.fault(form) is None);
}

/// A scan of the disk forms of records in order, with `tail` behind them, goes on
/// at `tail`.
#[verifier::spinoff_prover]
pub proof fn law_recovery_reads_records(start: Recovery, records: Seq<RecordView>, tail: Seq<u8>)
    requires
        in_order(start.next_sequence, records),
        start.records + records.len() <= u64::MAX,
    ensures
        start.scanned(disk(records) + tail) == (Recovery {
            records: (start.records + records.len()) as u64,
            next_sequence: (start.next_sequence + records.len()) as u64,
        }).scanned(tail),
    decreases records.len(),
{
    if records.len() == 0 {
        assert(disk(records) + tail =~= tail);
    } else {
        let rest = records.skip(1);
        lemma_disk_front(records);
        lemma_scan_step(start, records[0], disk(rest) + tail);
        assert(disk(records) + tail =~= records[0].encoded() + (disk(rest) + tail));
        assert forall|i: int| 0 <= i < rest.len() implies {
            &&& (#[trigger] rest[i]).payload.len() == MAX_PAYLOAD
            &&& rest[i].verified()
            &&& rest[i].sequence.0 == start.next().next_sequence + i
        } by {
            assert(rest[i] == records[i + 1]);
        }
        law_recovery_reads_records(start.next(), rest, tail);
    }
}

/// Recovery gives back how many records were written in order, and the sequence
/// behind the last of them.
pub proof fn law_recover_counts_records(first: u64, records: Seq<RecordView>)
    requires
        in_order(first, records),
    ensures
        Recovery::spec_start(first).scanned(disk(records)) == Ok::<_, RecoveryError>(
            Recovery {
                records: records.len() as u64,
                next_sequence: (first + records.len()) as u64,
            },
        ),
{
    law_recovery_reads_records(Recovery::spec_start(first), records, Seq::empty());
    assert(disk(records) + Seq::<u8>::empty() =~= disk(records));
}

/// A partial record behind records in order is never accepted.
pub proof fn law_recover_rejects_partial_tail(first: u64, records: Seq<RecordView>, tail: Seq<u8>)
    requires
        in_order(first, records),
        0 < tail.len() < RECORD_SIZE,
    ensures
        Recovery::spec_start(first).scanned(disk(records) + tail) == Err::<Recovery, _>(
            RecoveryError::Truncated { bytes: tail.len() as usize },
        ),
{
    law_recovery_reads_records(Recovery::spec_start(first), records, tail);
}

/// A record behind records in order that does not decode is never accepted. The
/// error says where it starts and what is wrong with it.
pub proof fn law_recover_rejects_corrupt_tail(first: u64, records: Seq<RecordView>, tail: Seq<u8>)
    requires
        in_order(first, records),
        tail.len() >= RECORD_SIZE,
        decode_fault(tail.take(RECORD_SIZE as int)) is Some,
    ensures
        Recovery::spec_start(first).scanned(disk(records) + tail) == Err::<Recovery, _>(
            RecoveryError::Decode {
                offset: offset_of(records.len() as u64),
                source: decode_fault(tail.take(RECORD_SIZE as int))->0,
            },
        ),
{
    law_recovery_reads_records(Recovery::spec_start(first), records, tail);
}

/// What a worker writes, recovery reads: the records of one run of a reader are
/// in order, and a scan of their disk forms from the same first sequence counts
/// them all.
pub proof fn law_persisted_records_recover(
    reader: ReaderView,
    records: Seq<RecordView>,
    limit: nat,
)
    requires
        forall|i: int|
            0 <= i < records.len() ==> (#[trigger] records[i]).payload.len() == MAX_PAYLOAD,
    ensures
        ({
            let count = reader.batch(records, limit);
            let written = records.take(count as int);
            &&& in_order(reader.expected_sequence, written)
            &&& Recovery::spec_start(reader.expected_sequence).scanned(disk(written)) == Ok::<
                _,
                RecoveryError,
            >(
                Recovery {
                    records: count as u64,
                    next_sequence: (reader.expected_sequence + count) as u64,
                },
            )
        }),
{
    reader.lemma_run(records, limit, 0);
    let count = reader.batch(records, limit);
    let written = records.take(count as int);
    assert forall|i: int| 0 <= i < written.len() implies {
        &&& (#[trigger] written[i]).payload.len() == MAX_PAYLOAD
        &&& written[i].verified()
        &&& written[i].sequence.0 == reader.expected_sequence + i
    } by {
        reader.lemma_run_valid(records, limit, 0, i as nat);
        assert(records.skip(i)[0] == records[i]);
    }
    law_recover_counts_records(reader.expected_sequence, written);
}

} // verus!
