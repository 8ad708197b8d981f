//! The bounded journal channel: its queue, its status, its writer and its
//! reader.

use vstd::prelude::*;

use crate::journal::record::{JournalRecord, RecordView};
use crate::journal::{JournalError, MAX_PAYLOAD, RING_CAPACITY};
use crate::queue::{BoundedQueue, QueueConfigError};
use crate::types::SequenceNumber;

verus! {

/// Watermarks start at the channel's first sequence.
#[derive(Clone, Copy, Debug, PartialEq, Eq, Structural)]
pub struct JournalStatus {
    /// First sequence not covered by a fully written batch.
    pub next_written_sequence: u64,
    /// First sequence not covered by a successful flush.
    pub next_durable_sequence: u64,
    pub producer_closed: bool,
    pub poisoned: bool,
    pub shutdown_complete: bool,
}

impl JournalStatus {
    /// Where a channel starts.
    pub open spec fn initial(first_sequence: u64) -> JournalStatus {
        JournalStatus {
            next_written_sequence: first_sequence,
            next_durable_sequence: first_sequence,
            producer_closed: false,
            poisoned: false,
            shutdown_complete: false,
        }
    }

    /// The status can come later than `earlier`: no watermark has fallen, and
    /// nothing that is said once is taken back.
    pub open spec fn follows(self, earlier: JournalStatus) -> bool {
        &&& earlier.next_written_sequence <= self.next_written_sequence
        &&& earlier.next_durable_sequence <= self.next_durable_sequence
        &&& earlier.producer_closed ==> self.producer_closed
        &&& earlier.poisoned ==> self.poisoned
        &&& earlier.shutdown_complete ==> self.shutdown_complete
    }

    /// What holds of the status of a sequence domain from `first` on: nothing is
    /// durable that is not written, and a complete shutdown has come behind the
    /// last record, with all of them durable.
    pub open spec fn sound(self, first: u64, queued: nat) -> bool {
        &&& first <= self.next_durable_sequence <= self.next_written_sequence
        &&& self.shutdown_complete ==> {
            &&& self.producer_closed
            &&& self.next_durable_sequence == self.next_written_sequence
            &&& queued == 0
        }
    }
}

/// A status with so many records queued goes over into another: it is followed,
/// and stays sound.
pub open spec fn goes_over(
    before: JournalStatus,
    queued: nat,
    after: JournalStatus,
    still_queued: nat,
) -> bool {
    &&& after.follows(before)
    &&& forall|first: u64| #[trigger]
        before.sound(first, queued) ==> after.sound(first, still_queued)
}

#[derive(Debug)]
pub struct StatusState {
    status: JournalStatus,
}

impl View for StatusState {
    type V = JournalStatus;

    closed spec fn view(&self) -> JournalStatus {
        self.status
    }
}

impl StatusState {
    pub fn new(first_sequence: u64) -> (state: Self)
        ensures
            state@ == JournalStatus::initial(first_sequence),
    {
        StatusState {
            status: JournalStatus {
                next_written_sequence: first_sequence,
                next_durable_sequence: first_sequence,
                producer_closed: false,
                poisoned: false,
                shutdown_complete: false,
            },
        }
    }

    pub fn poison(&mut self)
        ensures
            final(self)@ == (JournalStatus { poisoned: true, ..old(self)@ }),
    {
        self.status.poisoned = true;
    }

    pub fn publish_written(&mut self, next_sequence: u64)
        ensures
            final(self)@ == (JournalStatus { next_written_sequence: next_sequence, ..old(self)@ }),
    {
        self.status.next_written_sequence = next_sequence;
    }

    pub fn publish_durable(&mut self, next_sequence: u64)
        ensures
            final(self)@ == (JournalStatus { next_durable_sequence: next_sequence, ..old(self)@ }),
    {
        self.status.next_durable_sequence = next_sequence;
    }

    pub fn complete(&mut self)
        ensures
            final(self)@ == (JournalStatus { shutdown_complete: true, ..old(self)@ }),
    {
        self.status.shutdown_complete = true;
    }

    pub fn close_producer(&mut self)
        ensures
            final(self)@ == (JournalStatus { producer_closed: true, ..old(self)@ }),
    {
        self.status.producer_closed = true;
    }
}

/// Read-only persistence progress for a controlled journal channel.
#[derive(Clone, Copy, Debug)]
pub struct JournalStatusReader<'queue> {
    state: &'queue StatusState,
}

impl<'queue> JournalStatusReader<'queue> {
    pub closed spec fn status(&self) -> JournalStatus {
        self.state@
    }

    /// Reads only the terminal persistence failure flag.
    #[must_use]
    pub fn is_poisoned(&self) -> (poisoned: bool)
        ensures
            poisoned == self.status().poisoned,
    {
        self.state.status.poisoned
    }

    #[must_use]
    pub fn snapshot(&self) -> (status: JournalStatus)
        ensures
            status == self.status(),
    {
        self.state.status
    }
}

/// Journal queue with producer closure and persistence progress.
pub struct JournalChannel {
    queue: BoundedQueue<JournalRecord, RING_CAPACITY>,
    status: StatusState,
}

impl JournalChannel {
    /// The queued records, oldest first.
    pub closed spec fn records(&self) -> Seq<RecordView> {
        Seq::new(self.queue@.len(), |i: int| self.queue@[i]@)
    }

    pub closed spec fn status(&self) -> JournalStatus {
        self.status@
    }

    pub closed spec fn wf(&self) -> bool {
        self.queue.wf()
    }

    pub proof fn lemma_capacity(&self)
        requires
            self.wf(),
        ensures
            self.records().len() <= RING_CAPACITY,
            forall|i: int|
                0 <= i < self.records().len() ==> (#[trigger] self.records()[i]).payload.len()
                    == MAX_PAYLOAD,
    {
        assert forall|i: int| 0 <= i < self.records().len() implies (
        #[trigger] self.records()[i]).payload.len() == MAX_PAYLOAD by {
            self.queue@[i].lemma_payload();
        }
    }

    /// An empty channel that starts at sequence zero.
    pub fn try_new() -> (outcome: Result<Self, QueueConfigError>)
        ensures
            outcome is Ok,
            outcome->Ok_0.wf(),
            outcome->Ok_0.records() == Seq::<RecordView>::empty(),
            outcome->Ok_0.status() == JournalStatus::initial(0),
    {
        assert(RING_CAPACITY & ((RING_CAPACITY - 1) as usize) == 0) by {
            assert(1024usize & 1023usize == 0) by (bit_vector);
        }
        match BoundedQueue::try_new() {
            Ok(queue) => {
                let channel = JournalChannel { queue, status: StatusState::new(0) };
                assert(channel.records() =~= Seq::<RecordView>::empty());
                Ok(channel)
            },
            Err(error) => Err(error),
        }
    }

    /// Starts one sequence domain: the status begins anew, and the channel has
    /// one writer and one reader for it. Records that an earlier domain left
    /// behind stay queued.
    pub fn split(&mut self, first_sequence: u64) -> (ends: (JournalWriter, JournalReader))
        requires
            old(self).wf(),
        ensures
            final(self).wf(),
            final(self).records() == old(self).records(),
            final(self).status() == JournalStatus::initial(first_sequence),
            ends.0@ == (WriterView { next_sequence: first_sequence, controlled: true }),
            ends.1@ == (ReaderView {
                expected_sequence: first_sequence,
                poisoned: false,
                controlled: true,
                shutdown_complete: false,
            }),
    {
        self.status = StatusState::new(first_sequence);
        (
            JournalWriter { next_sequence: first_sequence, controlled: true },
            JournalReader {
                expected_sequence: first_sequence,
                poisoned: false,
                controlled: true,
                shutdown_complete: false,
            },
        )
    }

    /// The status of the channel.
    pub fn status_reader(&self) -> (reader: JournalStatusReader<'_>)
        ensures
            reader.status() == self.status(),
    {
        JournalStatusReader { state: &self.status }
    }

    /// Queues a record as it is, or refuses it when the queue is full.
    pub fn push_record(&mut self, record: JournalRecord) -> (queued: bool)
        requires
            old(self).wf(),
        ensures
            final(self).wf(),
            final(self).status() == old(self).status(),
            queued == (old(self).records().len() < RING_CAPACITY),
            final(self).records() == if queued {
                old(self).records().push(record@)
            } else {
                old(self).records()
            },
    {
        let ghost before = *self;
        match self.queue.try_push(record) {
            Ok(()) => {
                assert(self.records() =~= before.records().push(record@));
                true
            },
            Err(refused) => {
                assert(self.records() =~= before.records());
                false
            },
        }
    }

    /// Takes the oldest record.
    pub fn pop_record(&mut self) -> (record: Option<JournalRecord>)
        requires
            old(self).wf(),
        ensures
            final(self).wf(),
            final(self).status() == old(self).status(),
            record is Some <==> old(self).records().len() > 0,
            record is Some ==> record->0@ == old(self).records()[0] && final(self).records() == old(
                self).records().skip(1),
            record is None ==> final(self).records() == old(self).records(),
    {
        let ghost before = *self;
        let record = self.queue.try_pop();
        proof {
            if record is Some {
                assert(self.records() =~= before.records().skip(1));
            } else {
                assert(self.records() =~= before.records());
            }
        }
        record
    }

    pub(crate) fn state(&mut self) -> (state: &mut StatusState)
        requires
            old(self).wf(),
        ensures
            state@ == old(self).status(),
            final(self).wf(),
            final(self).records() == old(self).records(),
            final(self).status() == final(state)@,
    {
        &mut self.status
    }

    pub fn producer_closed(&self) -> (closed: bool)
        ensures
            closed == self.status().producer_closed,
    {
        self.status.status.producer_closed
    }

    pub fn next_written_sequence(&self) -> (next: u64)
        ensures
            next == self.status().next_written_sequence,
    {
        self.status.status.next_written_sequence
    }
}

pub struct WriterView {
    pub next_sequence: u64,
    pub controlled: bool,
}

/// The one end of a channel that enqueues.
#[derive(Debug)]
pub struct JournalWriter {
    next_sequence: u64,
    controlled: bool,
}

impl View for JournalWriter {
    type V = WriterView;

    closed spec fn view(&self) -> WriterView {
        WriterView { next_sequence: self.next_sequence, controlled: self.controlled }
    }
}

impl WriterView {
    /// Why a payload is not enqueued, if it is not.
    pub open spec fn refusal(self, queued: nat, payload: Seq<u8>) -> Option<JournalError> {
        if self.next_sequence == u64::MAX {
            Some(JournalError::SequenceOverflow)
        } else if payload.len() > MAX_PAYLOAD {
            Some(JournalError::PayloadTooLarge { len: payload.len() as usize })
        } else if queued == RING_CAPACITY {
            Some(JournalError::Saturated)
        } else {
            None
        }
    }
}

impl JournalWriter {
    /// A writer without persistence status.
    #[must_use]
    pub fn new(first_sequence: u64) -> (writer: Self)
        ensures
            writer@ == (WriterView { next_sequence: first_sequence, controlled: false }),
    {
        JournalWriter { next_sequence: first_sequence, controlled: false }
    }

    #[must_use]
    pub fn next_sequence(&self) -> (next: u64)
        ensures
            next == self@.next_sequence,
    {
        self.next_sequence
    }

    /// The status of a controlled channel. A writer without persistence status
    /// has none.
    #[must_use]
    pub fn status_reader<'queue>(&self, channel: &'queue JournalChannel) -> (reader: Option<
        JournalStatusReader<'queue>,
    >)
        ensures
            reader is Some <==> self@.controlled,
            reader is Some ==> reader->0.status() == channel.status(),
    {
        if self.controlled {
            Some(channel.status_reader())
        } else {
            None
        }
    }

    /// Closes admission for a controlled journal channel. A writer without
    /// persistence status carries no close signal.
    pub fn close(self, channel: &mut JournalChannel)
        requires
            old(channel).wf(),
        ensures
            final(channel).wf(),
            final(channel).records() == old(channel).records(),
            final(channel).status() == if self@.controlled {
                JournalStatus { producer_closed: true, ..old(channel).status() }
            } else {
                old(channel).status()
            },
    {
        if self.controlled {
            channel.state().close_producer();
        }
    }

    /// Builds and queues one record. A refusal changes neither the channel nor
    /// the writer's sequence.
    pub fn enqueue(&mut self, channel: &mut JournalChannel, payload: &[u8]) -> (outcome: Result<
        SequenceNumber,
        JournalError,
    >)
        requires
            old(channel).wf(),
        ensures
            final(channel).wf(),
            final(channel).status() == old(channel).status(),
            final(self)@.controlled == old(self)@.controlled,
            match old(self)@.refusal(old(channel).records().len(), payload@) {
                Some(reason) => {
                    &&& outcome == Err::<SequenceNumber, _>(reason)
                    &&& *final(self) == *old(self)
                    &&& final(channel).records() == old(channel).records()
                },
                None => {
                    let sequence = SequenceNumber(old(self)@.next_sequence);
                    &&& outcome == Ok::<_, JournalError>(sequence)
                    &&& final(self)@.next_sequence == old(self)@.next_sequence + 1
                    &&& final(channel).records() == old(channel).records().push(
                        RecordView::sealed(sequence, payload@),
                    )
                },
            },
    {
        proof {
            channel.lemma_capacity();
        }
        if self.next_sequence == u64::MAX {
            return Err(JournalError::SequenceOverflow);
        }
        let sequence = SequenceNumber(self.next_sequence);
        let record = match JournalRecord::new(sequence, payload) {
            Ok(record) => record,
            Err(error) => {
                return Err(error);
            },
        };
        if !channel.push_record(record) {
            return Err(JournalError::Saturated);
        }
        self.next_sequence = self.next_sequence + 1;
        Ok(sequence)
    }
}

/// A record that has been verified and is in sequence.
#[derive(Clone, Copy, Debug, PartialEq, Eq)]
pub struct ParsedRecord {
    record: JournalRecord,
}

impl View for ParsedRecord {
    type V = RecordView;

    closed spec fn view(&self) -> RecordView {
        self.record@
    }
}

impl ParsedRecord {
    #[must_use]
    pub fn sequence(&self) -> (sequence: SequenceNumber)
        ensures
            sequence == self@.sequence,
    {
        self.record.sequence()
    }

    /// The payload.
    #[must_use]
    pub fn slice(&self) -> (content: &[u8])
        ensures
            self@.verified() ==> content@ == self@.content(),
    {
        match self.record.slice() {
            Some(content) => content,
            None => vstd::slice::slice_subrange(self.record_bytes(), 0, 0),
        }
    }

    fn record_bytes(&self) -> (bytes: &[u8])
        ensures
            bytes@ == self@.payload,
    {
        self.record.raw_payload()
    }

    /// The disk form.
    pub fn encode(&self) -> (bytes: [u8; crate::journal::RECORD_SIZE])
        ensures
            bytes@ == self@.encoded(),
    {
        self.record.encode()
    }
}

#[derive(Clone, Copy, Debug, PartialEq, Eq, Structural)]
pub enum ReadError {
    Empty,
    ChecksumMismatch { sequence: SequenceNumber },
    SequenceMismatch { expected: SequenceNumber, received: SequenceNumber },
    Poisoned,
}

pub struct ReaderView {
    pub expected_sequence: u64,
    pub poisoned: bool,
    pub controlled: bool,
    pub shutdown_complete: bool,
}

impl ReaderView {
    /// Why nothing is read, if nothing is.
    pub open spec fn fault(self, records: Seq<RecordView>) -> Option<ReadError> {
        if self.poisoned {
            Some(ReadError::Poisoned)
        } else if records.len() == 0 {
            Some(ReadError::Empty)
        } else if !records[0].verified() {
            Some(ReadError::ChecksumMismatch { sequence: records[0].sequence })
        } else if records[0].sequence.0 != self.expected_sequence {
            Some(
                ReadError::SequenceMismatch {
                    expected: SequenceNumber(self.expected_sequence),
                    received: records[0].sequence,
                },
            )
        } else if self.expected_sequence == u64::MAX {
            Some(ReadError::Poisoned)
        } else {
            None
        }
    }

    /// The fault is in the record at hand, and ends the reader.
    pub open spec fn fails(self, records: Seq<RecordView>) -> bool {
        &&& !self.poisoned
        &&& records.len() > 0
        &&& self.fault(records) is Some
    }
}

/// The one end of a channel that reads.
#[derive(Debug)]
pub struct JournalReader {
    expected_sequence: u64,
    poisoned: bool,
    controlled: bool,
    shutdown_complete: bool,
}

impl View for JournalReader {
    type V = ReaderView;

    closed spec fn view(&self) -> ReaderView {
        ReaderView {
            expected_sequence: self.expected_sequence,
            poisoned: self.poisoned,
            controlled: self.controlled,
            shutdown_complete: self.shutdown_complete,
        }
    }
}

/// The status once a reader is given up: poisoned, unless the reader has no status
/// or its shutdown is complete.
pub open spec fn given_up(reader: ReaderView, status: JournalStatus) -> JournalStatus {
    poisoned_if(reader.controlled && !reader.shutdown_complete, status)
}

/// The status with the failure flag set, where there is a status to set.
pub open spec fn poisoned_if(controlled: bool, status: JournalStatus) -> JournalStatus {
    if controlled {
        JournalStatus { poisoned: true, ..status }
    } else {
        status
    }
}

impl JournalReader {
    /// A reader without persistence status.
    #[must_use]
    pub fn new(first_expected: u64) -> (reader: Self)
        ensures
            reader@ == (ReaderView {
                expected_sequence: first_expected,
                poisoned: false,
                controlled: false,
                shutdown_complete: false,
            }),
    {
        JournalReader {
            expected_sequence: first_expected,
            poisoned: false,
            controlled: false,
            shutdown_complete: false,
        }
    }

    #[must_use]
    pub fn expected_sequence(&self) -> (expected: u64)
        ensures
            expected == self@.expected_sequence,
    {
        self.expected_sequence
    }

    #[must_use]
    pub fn is_poisoned(&self) -> (poisoned: bool)
        ensures
            poisoned == self@.poisoned,
    {
        self.poisoned
    }

    pub(crate) fn is_controlled(&self) -> (controlled: bool)
        ensures
            controlled == self@.controlled,
    {
        self.controlled
    }

    pub(crate) fn is_complete(&self) -> (complete: bool)
        ensures
            complete == self@.shutdown_complete,
    {
        self.shutdown_complete
    }

    /// Publishes the watermark of the written records.
    pub(crate) fn publish_written(&self, channel: &mut JournalChannel)
        requires
            old(channel).wf(),
        ensures
            final(channel).wf(),
            final(channel).records() == old(channel).records(),
            final(channel).status() == if self@.controlled {
                JournalStatus {
                    next_written_sequence: self@.expected_sequence,
                    ..old(channel).status()
                }
            } else {
                old(channel).status()
            },
    {
        if self.controlled {
            channel.state().publish_written(self.expected_sequence);
        }
    }

    /// Publishes the watermark of the flushed records.
    pub(crate) fn publish_durable(&self, channel: &mut JournalChannel)
        requires
            old(channel).wf(),
        ensures
            final(channel).wf(),
            final(channel).records() == old(channel).records(),
            final(channel).status() == if self@.controlled {
                JournalStatus {
                    next_durable_sequence: self@.expected_sequence,
                    ..old(channel).status()
                }
            } else {
                old(channel).status()
            },
    {
        if self.controlled {
            channel.state().publish_durable(self.expected_sequence);
        }
    }

    /// Marks the shutdown as complete.
    pub(crate) fn complete(&mut self, channel: &mut JournalChannel)
        requires
            old(channel).wf(),
        ensures
            final(channel).wf(),
            final(channel).records() == old(channel).records(),
            final(self)@ == (ReaderView { shutdown_complete: true, ..old(self)@ }),
            final(channel).status() == if old(self)@.controlled {
                JournalStatus { shutdown_complete: true, ..old(channel).status() }
            } else {
                old(channel).status()
            },
    {
        if self.controlled {
            channel.state().complete();
        }
        self.shutdown_complete = true;
    }

    pub(crate) fn poison_status(&self, channel: &mut JournalChannel)
        requires
            old(channel).wf(),
        ensures
            final(channel).wf(),
            final(channel).records() == old(channel).records(),
            final(channel).status() == poisoned_if(self@.controlled, old(channel).status()),
    {
        if self.controlled {
            channel.state().poison();
        }
    }

    /// Gives the reader up: unless its shutdown is complete, a controlled
    /// channel is poisoned.
    pub fn abandon(self, channel: &mut JournalChannel)
        requires
            old(channel).wf(),
        ensures
            final(channel).wf(),
            final(channel).records() == old(channel).records(),
            final(channel).status() == given_up(self@, old(channel).status()),
    {
        if !self.shutdown_complete {
            self.poison_status(channel);
        }
    }

    /// Reads one ordered record. A record that does not verify or is out of
    /// sequence is taken off the queue and ends the reader: all later reads
    /// return `Poisoned`.
    pub fn read(&mut self, channel: &mut JournalChannel) -> (outcome: Result<
        ParsedRecord,
        ReadError,
    >)
        requires
            old(channel).wf(),
        ensures
            final(channel).wf(),
            final(channel).records() == if old(self)@.poisoned || old(channel).records().len()
                == 0 {
                old(channel).records()
            } else {
                old(channel).records().skip(1)
            },
            final(channel).status() == poisoned_if(
                old(self)@.controlled && old(self)@.fails(old(channel).records()),
                old(channel).status(),
            ),
            final(self)@.controlled == old(self)@.controlled,
            final(self)@.shutdown_complete == old(self)@.shutdown_complete,
            final(self)@.poisoned == (old(self)@.poisoned || old(self)@.fails(
                old(channel).records(),
            )),
            match old(self)@.fault(old(channel).records()) {
                Some(error) => {
                    &&& outcome is Err
                    &&& outcome->Err_0 == error
                    &&& final(self)@.expected_sequence == old(self)@.expected_sequence
                },
                None => {
                    &&& outcome is Ok
                    &&& outcome->Ok_0@ == old(channel).records()[0]
                    &&& final(self)@.expected_sequence == old(self)@.expected_sequence + 1
                },
            },
    {
        if self.poisoned {
            return Err(ReadError::Poisoned);
        }
        let record = match channel.pop_record() {
            Some(record) => record,
            None => {
                return Err(ReadError::Empty);
            },
        };
        if !record.verify() {
            self.poisoned = true;
            self.poison_status(channel);
            return Err(ReadError::ChecksumMismatch { sequence: record.sequence() });
        }
        if record.sequence().0 != self.expected_sequence {
            self.poisoned = true;
            self.poison_status(channel);
            return Err(
                ReadError::SequenceMismatch {
                    expected: SequenceNumber(self.expected_sequence),
                    received: record.sequence(),
                },
            );
        }
        if self.expected_sequence == u64::MAX {
            self.poisoned = true;
            self.poison_status(channel);
            return Err(ReadError::Poisoned);
        }
        self.expected_sequence = self.expected_sequence + 1;
        Ok(ParsedRecord { record })
    }
}

} // verus!
